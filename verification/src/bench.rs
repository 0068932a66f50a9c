//! The bench plan: which examples exist, which server/client pairs are run
//! under which settings, and in which (random) order.

use vstd::prelude::*;
use rand::seq::SliceRandom;
use crate::config::{gen_env_settings, EnvSetting};
use crate::order::{sort_ascending, sorted};
use crate::text::{has_prefix, last_occurrence, matches_at, occurs_at, rfind, starts_with, to_chars};
use vstd::string::StrSliceExecFns;

verus! {

broadcast use {vstd::seq_lib::group_to_multiset_ensures, vstd::multiset::group_multiset_axioms};

/// The prefix of client example names.
pub open spec fn client_prefix() -> Seq<char> {
    "client_"@
}

/// The prefix of server example names.
pub open spec fn server_prefix() -> Seq<char> {
    "server_"@
}

/// The names among `names` that begin with `p`, in their order.
pub open spec fn with_prefix(names: Seq<String>, p: Seq<char>) -> Seq<String>
    decreases names.len(),
{
    if names.len() == 0 {
        Seq::empty()
    } else {
        let rest = with_prefix(names.drop_last(), p);
        if has_prefix(names.last()@, p) {
            rest.push(names.last())
        } else {
            rest
        }
    }
}

/// The names picked out by a prefix are names of the list that begin with it,
/// and every name of the list that begins with it is picked out.
pub proof fn lemma_with_prefix(names: Seq<String>, p: Seq<char>)
    ensures
        forall|i: int|
            0 <= i < with_prefix(names, p).len() ==> has_prefix(
                (#[trigger] with_prefix(names, p)[i])@,
                p,
            ) && names.contains(with_prefix(names, p)[i]),
        forall|i: int|
            0 <= i < names.len() && has_prefix((#[trigger] names[i])@, p) ==> with_prefix(
                names,
                p,
            ).contains(names[i]),
    decreases names.len(),
{
    if names.len() > 0 {
        let rest = names.drop_last();
        lemma_with_prefix(rest, p);
        let w = with_prefix(names, p);
        let wr = with_prefix(rest, p);
        assert forall|i: int| 0 <= i < w.len() implies has_prefix((#[trigger] w[i])@, p)
            && names.contains(w[i]) by {
            if i < wr.len() {
                assert(w[i] == wr[i]);
                let k = choose|k: int| 0 <= k < rest.len() && rest[k] == wr[i];
                assert(names[k] == w[i]);
            } else {
                assert(names[names.len() - 1] == w[i]);
            }
        }
        assert forall|i: int| 0 <= i < names.len() && has_prefix((#[trigger] names[i])@, p)
            implies w.contains(names[i]) by {
            if i < names.len() - 1 {
                assert(rest[i] == names[i]);
                let k = choose|k: int| 0 <= k < wr.len() && wr[k] == names[i];
                assert(w[k] == wr[k]);
            } else {
                assert(w[w.len() - 1] == names[i]);
            }
        }
    }
}

/// Every pair of an element of `xs` and one of `ys`, ordered by `xs` first.
pub open spec fn product<A, B>(xs: Seq<A>, ys: Seq<B>) -> Seq<(A, B)>
    decreases xs.len(),
{
    if xs.len() == 0 {
        Seq::empty()
    } else {
        product(xs.drop_last(), ys) + ys.map_values(|y: B| (xs.last(), y))
    }
}

/// The example programs of the benchmark.
#[derive(Debug)]
pub struct Examples {
    /// All example names, sorted.
    pub all: Vec<String>,
    /// Server example names.
    pub servers: Vec<String>,
    /// Client example names.
    pub clients: Vec<String>,
}

/// One run: a server, a client, and the change made to the default
/// configuration for it.
#[derive(Debug)]
pub struct Bench {
    pub server: String,
    pub client: String,
    pub env: EnvSetting,
}

/// The names among `names` that begin with `p`.
fn filter_prefix(names: &Vec<String>, p: &[char]) -> (r: Vec<String>)
    ensures
        r@ == with_prefix(names@, p@),
{
    let mut r: Vec<String> = Vec::new();
    let mut i: usize = 0;
    while i < names.len()
        invariant
            i <= names.len(),
            r@ == with_prefix(names@.subrange(0, i as int), p@),
        decreases names.len() - i,
    {
        let name = &names[i];
        let keep = starts_with(to_chars(name.as_str()).as_slice(), p);
        proof {
            assert(names@.subrange(0, i + 1).drop_last() =~= names@.subrange(0, i as int));
        }
        if keep {
            r.push(name.clone());
        }
        i = i + 1;
    }
    assert(names@.subrange(0, names@.len() as int) =~= names@);
    r
}

/// The example a directory entry named `name` holds: the name before its
/// last `.`, where what follows that `.` is `rs` and what precedes it is not
/// empty. This is the `Path::file_stem` of a name whose `Path::extension` is
/// `rs`; a name with no `.`, or whose only `.` begins it, has no extension.
pub open spec fn example_stem(name: Seq<char>) -> Option<Seq<char>> {
    match last_occurrence(name, "."@) {
        Some(k) => if k > 0 && name.subrange(k + 1, name.len() as int) == "rs"@ {
            Some(name.subrange(0, k))
        } else {
            None
        },
        None => None,
    }
}

/// The example name of a directory entry called `file_name`: a regular file
/// (`is_file`) whose extension is `rs` names the example its stem.
pub fn example_name(file_name: &str, is_file: bool) -> (r: Option<String>)
    ensures
        match r {
            Some(n) => is_file && example_stem(file_name@) == Some(n@),
            None => !is_file || example_stem(file_name@) is None,
        },
{
    if !is_file {
        return None;
    }
    let chars = to_chars(file_name);
    let dot = to_chars(".");
    let rs = to_chars("rs");
    let k = match rfind(chars.as_slice(), dot.as_slice()) {
        Some(k) => k,
        None => return None,
    };
    proof {
        crate::text::lemma_last_occurrence(chars@, dot@);
        reveal_strlit("rs");
        reveal_strlit(".");
    }
    assert(occurs_at(chars@, dot@, k as int));
    assert(dot@.len() == 1);
    if k == 0 || chars.len() - (k + 1) != 2 || !matches_at(chars.as_slice(), rs.as_slice(), k + 1) {
        proof {
            if k > 0 && chars@.subrange(k + 1, chars@.len() as int) == rs@ {
                assert(chars@.subrange(k + 1, chars@.len() as int).len() == 2);
            }
        }
        return None;
    }
    assert(chars@.subrange(k + 1, chars@.len() as int) =~= chars@.subrange(k + 1, k + 1 + 2));
    let stem = file_name.substring_char(0, k);
    Some(stem.to_owned())
}

/// One more element of `xs` extends the product by its pairs.
proof fn lemma_product_step<A, B>(xs: Seq<A>, ys: Seq<B>, i: int)
    requires
        0 <= i < xs.len(),
    ensures
        product(xs.subrange(0, i + 1), ys) == product(xs.subrange(0, i), ys) + ys.map_values(
            |y: B| (xs[i], y),
        ),
{
    assert(xs.subrange(0, i + 1).drop_last() =~= xs.subrange(0, i));
}

/// The run order of a bench: `plan` shuffled.
///
/// Calls `rand::seq::SliceRandom::shuffle` with the thread-local generator
/// `rand::rng()`. What is claimed: the result holds the same items, each as
/// often (the shuffle only swaps items, Fisher-Yates style). Which order comes
/// out rests on chance and is left unsaid; so is the panic that `rand::rng()`
/// raises when the operating system cannot seed it.
#[verifier::external_body]
fn shuffle<T>(plan: &mut Vec<T>)
    ensures
        final(plan)@.to_multiset() == old(plan)@.to_multiset(),
{
    plan.shuffle(&mut rand::rng());
}

impl Examples {
    /// The examples named `names`: all of them sorted, and the server and
    /// client examples picked out by their name prefixes.
    pub fn new(names: Vec<String>) -> (r: Examples)
        ensures
            sorted(r.all@),
            r.all@.to_multiset() == names@.to_multiset(),
            r.servers@ == with_prefix(r.all@, server_prefix()),
            r.clients@ == with_prefix(r.all@, client_prefix()),
            forall|i: int|
                0 <= i < r.servers@.len() ==> has_prefix((#[trigger] r.servers@[i])@, "server_"@)
                    && r.all@.contains(r.servers@[i]),
            forall|i: int|
                0 <= i < r.clients@.len() ==> has_prefix((#[trigger] r.clients@[i])@, "client_"@)
                    && r.all@.contains(r.clients@[i]),
            forall|i: int|
                0 <= i < r.all@.len() && has_prefix((#[trigger] r.all@[i])@, "server_"@)
                    ==> r.servers@.contains(r.all@[i]),
            forall|i: int|
                0 <= i < r.all@.len() && has_prefix((#[trigger] r.all@[i])@, "client_"@)
                    ==> r.clients@.contains(r.all@[i]),
    {
        let all = sort_ascending(names);
        let clients = filter_prefix(&all, to_chars("client_").as_slice());
        let servers = filter_prefix(&all, to_chars("server_").as_slice());
        proof {
            lemma_with_prefix(all@, "server_"@);
            lemma_with_prefix(all@, "client_"@);
        }
        Examples { all, servers, clients }
    }

    /// The arguments of the `cargo build --example NAME` command run for each
    /// example, in order.
    pub fn build(&self) -> (r: Vec<Vec<String>>)
        ensures
            r@.len() == self.all@.len(),
            forall|i: int|
                0 <= i < r@.len() ==> {
                    &&& (#[trigger] r@[i])@.len() == 3
                    &&& r@[i]@[0]@ == "build"@
                    &&& r@[i]@[1]@ == "--example"@
                    &&& r@[i]@[2]@ == self.all@[i]@
                },
    {
        let mut r: Vec<Vec<String>> = Vec::new();
        let mut i: usize = 0;
        while i < self.all.len()
            invariant
                i <= self.all.len(),
                r@.len() == i,
                forall|k: int|
                    0 <= k < i ==> {
                        &&& (#[trigger] r@[k])@.len() == 3
                        &&& r@[k]@[0]@ == "build"@
                        &&& r@[k]@[1]@ == "--example"@
                        &&& r@[k]@[2]@ == self.all@[k]@
                    },
            decreases self.all.len() - i,
        {
            r.push(cargo_args("build", self.all[i].as_str()));
            i = i + 1;
        }
        r
    }

    /// Every server paired with every client, servers first.
    pub fn combinations(&self) -> (r: Vec<(String, String)>)
        ensures
            r@ == product(self.servers@, self.clients@),
    {
        let mut r: Vec<(String, String)> = Vec::new();
        let mut i: usize = 0;
        while i < self.servers.len()
            invariant
                i <= self.servers.len(),
                r@ == product(self.servers@.subrange(0, i as int), self.clients@),
            decreases self.servers.len() - i,
        {
            let ghost before = r@;
            let server = &self.servers[i];
            let mut j: usize = 0;
            while j < self.clients.len()
                invariant
                    i < self.servers.len(),
                    *server == self.servers@[i as int],
                    j <= self.clients.len(),
                    r@ == before + self.clients@.subrange(0, j as int).map_values(
                        |y: String| (self.servers@[i as int], y),
                    ),
                decreases self.clients.len() - j,
            {
                let ghost mid = r@;
                let pair = (server.clone(), self.clients[j].clone());
                assert(pair == (self.servers@[i as int], self.clients@[j as int]));
                r.push(pair);
                proof {
                    assert(r@ == mid.push((self.servers@[i as int], self.clients@[j as int])));
                    assert(self.clients@.subrange(0, j + 1).map_values(
                        |y: String| (self.servers@[i as int], y),
                    ) =~= self.clients@.subrange(0, j as int).map_values(
                        |y: String| (self.servers@[i as int], y),
                    ).push((self.servers@[i as int], self.clients@[j as int])));
                    assert(r@ =~= before + self.clients@.subrange(0, j + 1).map_values(
                        |y: String| (self.servers@[i as int], y),
                    ));
                }
                j = j + 1;
            }
            proof {
                lemma_product_step(self.servers@, self.clients@, i as int);
                assert(self.clients@.subrange(0, j as int) =~= self.clients@);
            }
            i = i + 1;
        }
        assert(self.servers@.subrange(0, i as int) =~= self.servers@);
        r
    }

    /// Every run of the bench, in random order: each server/client pair
    /// under each setting of `gen_env_settings`, once.
    pub fn bench_plan(&self) -> (r: Vec<Bench>)
        ensures
            r@.to_multiset() == ordered_plan(self.servers@, self.clients@).to_multiset(),
    {
        let mut plan = self.ordered_bench_plan();
        shuffle(&mut plan);
        plan
    }

    /// Every run of the bench, pairs in the order of `combinations`, and
    /// under each pair the settings in the order of `gen_env_settings`.
    pub fn ordered_bench_plan(&self) -> (r: Vec<Bench>)
        ensures
            r@ == ordered_plan(self.servers@, self.clients@),
            forall|k: int|
                0 <= k < r@.len() ==> {
                    let e = (#[trigger] r@[k]).env;
                    ||| e == EnvSetting::Unchanged
                    ||| e == EnvSetting::Duration(4)
                    ||| e == EnvSetting::SocketLen(200)
                    ||| e == EnvSetting::Size(1048576)
                },
    {
        let pairs = self.combinations();
        let settings = gen_env_settings();
        let mut r: Vec<Bench> = Vec::new();
        let mut i: usize = 0;
        while i < pairs.len()
            invariant
                i <= pairs.len(),
                pairs@ == product(self.servers@, self.clients@),
                settings@ == env_settings_spec(),
                r@ == runs_of(product(pairs@.subrange(0, i as int), settings@)),
            decreases pairs.len() - i,
        {
            let ghost before = r@;
            let mut j: usize = 0;
            while j < settings.len()
                invariant
                    i < pairs.len(),
                    j <= settings.len(),
                    r@ == before + runs_of(
                        settings@.subrange(0, j as int).map_values(
                            |e: EnvSetting| (pairs@[i as int], e),
                        ),
                    ),
                decreases settings.len() - j,
            {
                let run = Bench {
                    server: pairs[i].0.clone(),
                    client: pairs[i].1.clone(),
                    env: settings[j],
                };
                r.push(run);
                proof {
                    let f = |e: EnvSetting| (pairs@[i as int], e);
                    let old_part = settings@.subrange(0, j as int).map_values(f);
                    let new_part = settings@.subrange(0, j + 1).map_values(f);
                    assert(new_part =~= old_part.push((pairs@[i as int], settings@[j as int])));
                    lemma_runs_of_push(old_part, (pairs@[i as int], settings@[j as int]));
                }
                j = j + 1;
            }
            proof {
                lemma_product_step(pairs@, settings@, i as int);
                assert(settings@.subrange(0, j as int) =~= settings@);
                lemma_runs_of_concat(
                    product(pairs@.subrange(0, i as int), settings@),
                    settings@.map_values(|e: EnvSetting| (pairs@[i as int], e)),
                );
            }
            i = i + 1;
        }
        assert(pairs@.subrange(0, i as int) =~= pairs@);
        assert forall|k: int| 0 <= k < r@.len() implies {
            let e = (#[trigger] r@[k]).env;
            ||| e == EnvSetting::Unchanged
            ||| e == EnvSetting::Duration(4)
            ||| e == EnvSetting::SocketLen(200)
            ||| e == EnvSetting::Size(1048576)
        } by {
            lemma_plan_settings(self.servers@, self.clients@, k);
        }
        r
    }
}

/// The arguments of `cargo SUBCOMMAND --example EXAMPLE`.
pub fn cargo_args(subcommand: &str, example: &str) -> (r: Vec<String>)
    ensures
        r@.len() == 3,
        r@[0]@ == subcommand@,
        r@[1]@ == "--example"@,
        r@[2]@ == example@,
{
    let mut r: Vec<String> = Vec::new();
    r.push(subcommand.to_owned());
    r.push("--example".to_owned());
    r.push(example.to_owned());
    r
}

impl Bench {
    /// The arguments of the `cargo run --example SERVER` command.
    pub fn server_args(&self) -> (r: Vec<String>)
        ensures
            r@.len() == 3,
            r@[0]@ == "run"@,
            r@[1]@ == "--example"@,
            r@[2]@ == self.server@,
    {
        cargo_args("run", self.server.as_str())
    }

    /// The arguments of the `cargo run --example CLIENT` command.
    pub fn client_args(&self) -> (r: Vec<String>)
        ensures
            r@.len() == 3,
            r@[0]@ == "run"@,
            r@[1]@ == "--example"@,
            r@[2]@ == self.client@,
    {
        cargo_args("run", self.client.as_str())
    }
}

/// The settings of `gen_env_settings`.
pub open spec fn env_settings_spec() -> Seq<EnvSetting> {
    seq![
        EnvSetting::Unchanged,
        EnvSetting::Duration(4),
        EnvSetting::SocketLen(200),
        EnvSetting::Size(1048576),
    ]
}

/// The run for one pair under one setting.
pub open spec fn run_of(p: ((String, String), EnvSetting)) -> Bench {
    Bench { server: p.0.0, client: p.0.1, env: p.1 }
}

/// The runs for a sequence of (pair, setting).
pub open spec fn runs_of(ps: Seq<((String, String), EnvSetting)>) -> Seq<Bench> {
    ps.map_values(|p: ((String, String), EnvSetting)| run_of(p))
}

/// All runs of a bench in plan order.
pub open spec fn ordered_plan(servers: Seq<String>, clients: Seq<String>) -> Seq<Bench> {
    runs_of(product(product(servers, clients), env_settings_spec()))
}

/// The product has one pair for each choice from `xs` and from `ys`.
pub proof fn lemma_product_len<A, B>(xs: Seq<A>, ys: Seq<B>)
    ensures
        product(xs, ys).len() == xs.len() * ys.len(),
    decreases xs.len(),
{
    if xs.len() > 0 {
        lemma_product_len(xs.drop_last(), ys);
        let n = xs.len() as int;
        let m = ys.len() as int;
        assert((n - 1) * m + m == n * m) by (nonlinear_arith);
    }
}

/// The pair of `xs[i]` and `ys[j]` stands at `i * ys.len() + j` in the
/// product.
pub proof fn lemma_product_index<A, B>(xs: Seq<A>, ys: Seq<B>, i: int, j: int)
    requires
        0 <= i < xs.len(),
        0 <= j < ys.len(),
    ensures
        i * ys.len() + j < product(xs, ys).len(),
        product(xs, ys)[i * ys.len() + j] == (xs[i], ys[j]),
    decreases xs.len(),
{
    let n = xs.len() as int;
    let m = ys.len() as int;
    let rest = xs.drop_last();
    lemma_product_len(xs, ys);
    lemma_product_len(rest, ys);
    assert(n * m == (n - 1) * m + m) by (nonlinear_arith);
    if i < n - 1 {
        lemma_product_index(rest, ys, i, j);
        assert(i * m + j < (n - 1) * m) by (nonlinear_arith)
            requires
                0 <= i < n - 1,
                0 <= j < m,
        ;
        assert(rest[i] == xs[i]);
    } else {
        assert(i * m + j == (n - 1) * m + j);
        assert(ys.map_values(|y: B| (xs.last(), y))[j] == (xs[i], ys[j]));
    }
}

/// The plan runs each server against each client under each of the four
/// settings (defaults, a four-second run, two hundred sockets, one-megabyte
/// buffers): server `i` against client `j` under setting `q` is run
/// `(i * clients + j) * 4 + q`.
pub proof fn lemma_plan_runs(servers: Seq<String>, clients: Seq<String>, i: int, j: int, q: int)
    requires
        0 <= i < servers.len(),
        0 <= j < clients.len(),
        0 <= q < 4,
    ensures
        (i * clients.len() + j) * 4 + q < ordered_plan(servers, clients).len(),
        ordered_plan(servers, clients)[(i * clients.len() + j) * 4 + q] == (Bench {
            server: servers[i],
            client: clients[j],
            env: seq![
                EnvSetting::Unchanged,
                EnvSetting::Duration(4),
                EnvSetting::SocketLen(200),
                EnvSetting::Size(1048576),
            ][q],
        }),
{
    let pairs = product(servers, clients);
    lemma_product_index(servers, clients, i, j);
    let p = i * clients.len() + j;
    lemma_product_index(pairs, env_settings_spec(), p, q);
}

/// Every run of the plan is under one of the four settings: the defaults,
/// a four-second run, two hundred sockets, or one-megabyte buffers.
pub proof fn lemma_plan_settings(servers: Seq<String>, clients: Seq<String>, k: int)
    requires
        0 <= k < ordered_plan(servers, clients).len(),
    ensures
        ({
            let e = ordered_plan(servers, clients)[k].env;
            ||| e == EnvSetting::Unchanged
            ||| e == EnvSetting::Duration(4)
            ||| e == EnvSetting::SocketLen(200)
            ||| e == EnvSetting::Size(1048576)
        }),
{
    let pairs = product(servers, clients);
    lemma_product_len(servers, clients);
    lemma_product_len(pairs, env_settings_spec());
    let p = k / 4;
    let q = k % 4;
    assert(k == p * 4 + q && 0 <= q < 4) by (nonlinear_arith)
        requires
            p == k / 4,
            q == k % 4,
            k >= 0,
    ;
    assert(p < pairs.len()) by (nonlinear_arith)
        requires
            k == p * 4 + q,
            0 <= q < 4,
            k < pairs.len() * 4,
    ;
    lemma_product_index(pairs, env_settings_spec(), p, q);
}

/// A bench makes one run for each server, client and setting: as many as
/// the numbers of servers, clients and settings multiplied.
pub proof fn lemma_plan_len(servers: Seq<String>, clients: Seq<String>)
    ensures
        ordered_plan(servers, clients).len() == servers.len() * clients.len() * 4,
{
    lemma_product_len(servers, clients);
    lemma_product_len(product(servers, clients), env_settings_spec());
}

proof fn lemma_runs_of_push(ps: Seq<((String, String), EnvSetting)>, p: (
    (String, String),
    EnvSetting,
))
    ensures
        runs_of(ps.push(p)) == runs_of(ps).push(run_of(p)),
{
    assert(runs_of(ps.push(p)) =~= runs_of(ps).push(run_of(p)));
}

proof fn lemma_runs_of_concat(
    a: Seq<((String, String), EnvSetting)>,
    b: Seq<((String, String), EnvSetting)>,
)
    ensures
        runs_of(a + b) == runs_of(a) + runs_of(b),
{
    assert(runs_of(a + b) =~= runs_of(a) + runs_of(b));
}

} // verus!
