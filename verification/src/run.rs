//! A whole bench, step by step: the shuffled plan, one recorded throughput
//! per run in plan order, and the ranking at the end.

use vstd::prelude::*;
use crate::bench::{lemma_plan_len, ordered_plan, Bench, Examples};
use crate::config::Config;
use crate::order::sorted_descending;
use crate::throughput::{
    avg_reading, describes, mbps_fits, rank_throughputs, NoThroughput, Throughput,
};

verus! {

broadcast use {vstd::seq_lib::group_to_multiset_ensures, vstd::multiset::group_multiset_axioms};

/// What one finished run printed and the configuration it ran under: its
/// output, buffer size, socket count, duration and interval.
pub type RunOutput = (Seq<char>, usize, usize, u64, u64);

/// A bench in progress.
pub struct BenchRun {
    /// The runs, in the order they go.
    pub plan: Vec<Bench>,
    /// The throughputs recorded so far, one per run from the first.
    pub throughputs: Vec<Throughput>,
    /// What each recorded run printed, and the configuration it ran under.
    pub outputs: Ghost<Seq<RunOutput>>,
}

impl BenchRun {
    /// Each recorded throughput is the one read from its run's output: the
    /// `i`-th belongs to the `i`-th run of the plan.
    pub open spec fn wf(&self) -> bool {
        &&& self.throughputs@.len() <= self.plan@.len()
        &&& self.outputs@.len() == self.throughputs@.len()
        &&& forall|i: int|
            0 <= i < self.throughputs@.len() ==> {
                let o = #[trigger] self.outputs@[i];
                describes(
                    self.throughputs@[i],
                    o.0,
                    self.plan@[i].server@,
                    self.plan@[i].client@,
                    o.1,
                    o.2,
                    o.3,
                    o.4,
                )
            }
    }

    /// Every run of the plan has been recorded.
    pub open spec fn complete(&self) -> bool {
        self.throughputs@.len() == self.plan@.len()
    }

    /// The index of the run that goes next, if any is left.
    pub fn next_index(&self) -> (r: Option<usize>)
        requires
            self.wf(),
        ensures
            r == if self.complete() {
                None
            } else {
                Some(self.throughputs@.len() as usize)
            },
    {
        if self.throughputs.len() < self.plan.len() {
            Some(self.throughputs.len())
        } else {
            None
        }
    }

    /// Records the throughput that the next run's server reported in
    /// `stdout`, the run having used `config`.
    pub fn record(&mut self, stdout: &str, config: &Config) -> (r: Result<(), NoThroughput>)
        requires
            old(self).wf(),
            !old(self).complete(),
            mbps_fits(stdout@, config.size),
        ensures
            final(self).wf(),
            final(self).plan@ == old(self).plan@,
            r is Ok <==> avg_reading(stdout@) is Some,
            r is Ok ==> final(self).throughputs@.len() == old(self).throughputs@.len() + 1
                && final(self).throughputs@.drop_last() == old(self).throughputs@ && describes(
                final(self).throughputs@.last(),
                stdout@,
                old(self).plan@[old(self).throughputs@.len() as int].server@,
                old(self).plan@[old(self).throughputs@.len() as int].client@,
                config.size,
                config.socket_len,
                config.duration,
                config.interval,
            ),
            r is Err ==> final(self).throughputs@ == old(self).throughputs@,
    {
        let idx = self.throughputs.len();
        let ghost before = self.throughputs@;
        let r = self.plan[idx].record(stdout, config, &mut self.throughputs);
        if r.is_ok() {
            let ghost entry: RunOutput = (
                stdout@,
                config.size,
                config.socket_len,
                config.duration,
                config.interval,
            );
            proof {
                self.outputs@ = self.outputs@.push(entry);
                assert forall|i: int| 0 <= i < self.throughputs@.len() implies {
                    let o = #[trigger] self.outputs@[i];
                    describes(
                        self.throughputs@[i],
                        o.0,
                        self.plan@[i].server@,
                        self.plan@[i].client@,
                        o.1,
                        o.2,
                        o.3,
                        o.4,
                    )
                } by {
                    if i < before.len() {
                        assert(self.throughputs@[i] == self.throughputs@.drop_last()[i]);
                    }
                }
            }
        }
        r
    }

    /// The recorded throughputs, best first.
    pub fn finish(self) -> (r: Vec<Throughput>)
        requires
            self.wf(),
            self.complete(),
        ensures
            sorted_descending(r@),
            r@.to_multiset() == self.throughputs@.to_multiset(),
            r@.len() == self.plan@.len(),
    {
        let ghost recorded = self.throughputs@;
        let r = rank_throughputs(self.throughputs);
        assert(r@.to_multiset().len() == recorded.to_multiset().len());
        r
    }
}

impl Examples {
    /// Starts a bench: every server/client pair under every setting, in
    /// random order, with nothing recorded yet.
    pub fn bench(&self) -> (r: BenchRun)
        ensures
            r.wf(),
            r.plan@.to_multiset() == ordered_plan(self.servers@, self.clients@).to_multiset(),
            r.throughputs@.len() == 0,
    {
        BenchRun { plan: self.bench_plan(), throughputs: Vec::new(), outputs: Ghost(Seq::empty()) }
    }
}

/// Mapping two sequences that hold the same items gives two sequences that
/// hold the same items.
proof fn lemma_map_permutation<A, B>(a: Seq<A>, b: Seq<A>, f: spec_fn(A) -> B)
    requires
        a.to_multiset() == b.to_multiset(),
    ensures
        a.map_values(f).to_multiset() == b.map_values(f).to_multiset(),
    decreases a.len(),
{
    if a.len() == 0 {
        assert(b.to_multiset().len() == 0);
        assert(a.map_values(f) =~= b.map_values(f));
    } else {
        let x = a.last();
        let rest = a.drop_last();
        assert(a =~= rest.push(x));
        assert(a.to_multiset() =~= rest.to_multiset().insert(x));
        assert(a.contains(x)) by {
            assert(a[a.len() - 1] == x);
        }
        assert(b.to_multiset().count(x) > 0);
        assert(b.contains(x));
        let j = choose|j: int| 0 <= j < b.len() && b[j] == x;
        let b2 = b.remove(j);
        assert(b2.to_multiset() =~= b.to_multiset().remove(x));
        assert(rest.to_multiset() =~= b2.to_multiset());
        lemma_map_permutation(rest, b2, f);
        let fa = a.map_values(f);
        let fb = b.map_values(f);
        assert(fa =~= rest.map_values(f).push(f(x)));
        assert(fa.to_multiset() =~= rest.map_values(f).to_multiset().insert(f(x)));
        assert(fb.remove(j) =~= b2.map_values(f));
        assert(fb[j] == f(x));
        assert(b2.map_values(f).to_multiset() =~= fb.to_multiset().remove(f(x)));
        assert(fb.contains(f(x)));
        assert(fb.to_multiset().count(f(x)) > 0);
        assert(fb.to_multiset() =~= b2.map_values(f).to_multiset().insert(f(x)));
    }
}

/// What a whole bench yields: when every run succeeds and the run of server
/// `s` against client `c` under setting `e` records the throughput
/// `outcome(run)`, the ranking holds exactly the throughputs of every
/// server/client pair under every setting, one each, best first.
pub proof fn lemma_bench_result(
    servers: Seq<String>,
    clients: Seq<String>,
    run: BenchRun,
    ranked: Seq<Throughput>,
    outcome: spec_fn(Bench) -> Throughput,
)
    requires
        run.wf(),
        run.complete(),
        run.plan@.to_multiset() == ordered_plan(servers, clients).to_multiset(),
        forall|i: int| 0 <= i < run.plan@.len() ==> run.throughputs@[i] == outcome(
            #[trigger] run.plan@[i],
        ),
        sorted_descending(ranked),
        ranked.to_multiset() == run.throughputs@.to_multiset(),
    ensures
        sorted_descending(ranked),
        ranked.to_multiset() == ordered_plan(servers, clients).map_values(outcome).to_multiset(),
        ranked.len() == servers.len() * clients.len() * 4,
{
    assert(run.throughputs@ =~= run.plan@.map_values(outcome));
    lemma_map_permutation(run.plan@, ordered_plan(servers, clients), outcome);
    lemma_plan_len(servers, clients);
    assert(ordered_plan(servers, clients).map_values(outcome).len() == servers.len()
        * clients.len() * 4);
    assert(ranked.to_multiset().len() == ranked.len());
    assert(ordered_plan(servers, clients).map_values(outcome).to_multiset().len()
        == ordered_plan(servers, clients).map_values(outcome).len());
}

} // verus!
