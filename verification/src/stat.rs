//! The server side of a run: what each read from a socket leads to, the
//! request-rate statistics taken every tick, and the summary line printed at
//! the end, which the bench driver reads back.

use vstd::prelude::*;
use crate::text::{
    all_digits, decimal, is_digit, lemma_decimal, lemma_is_last_occurrence, lemma_parse_decimal,
    occurs_at, push_decimal, push_str,
};
use crate::throughput::{
    avg_capture, avg_marker, avg_reading, close_marker, lemma_regex_digit_run_concat,
    open_marker, regex_digit, regex_digit_run, slash_marker,
};

verus! {

/// Sent by the statistics task when it is done; the server then stops.
#[derive(Debug, Clone, Copy, PartialEq, Eq, Structural)]
pub enum Message {
    StatDone,
}

/// What a server does after one read from a client socket.
#[derive(Debug, Clone, Copy, PartialEq, Eq, Structural)]
pub enum ReadStep {
    /// Count the read and read again.
    Continue,
    /// Count the read and close: the client hung up.
    Close,
    /// The read failed: report it and stop, without counting.
    Fail,
}

/// The step after a read that returned `Some(n)` bytes, or `None` on error.
pub fn read_step(read: Option<usize>) -> (r: ReadStep)
    ensures
        r == match read {
            None => ReadStep::Fail,
            Some(n) => if n == 0 {
                ReadStep::Close
            } else {
                ReadStep::Continue
            },
        },
{
    match read {
        None => ReadStep::Fail,
        Some(n) => if n == 0 {
            ReadStep::Close
        } else {
            ReadStep::Continue
        },
    }
}

/// A span of time as whole seconds and the nanoseconds beyond them, as
/// `Duration::as_secs` and `Duration::subsec_nanos` give it.
#[derive(Debug, Clone, Copy, PartialEq, Eq, Structural)]
pub struct Elapsed {
    pub secs: u64,
    pub nanos: u32,
}

/// The whole seconds that `{:.0?}` prints for a span of at least one second:
/// rounded to the nearest, ties to even.
pub open spec fn shown_secs(e: Elapsed) -> nat {
    if e.nanos > 500_000_000 || (e.nanos == 500_000_000 && e.secs % 2 == 1) {
        e.secs as nat + 1
    } else {
        e.secs as nat
    }
}

/// The summary line `Avg: AMT (LAST / SECSs)`, without its line break.
pub open spec fn avg_line(amt: nat, last: nat, secs: nat) -> Seq<char> {
    avg_marker() + decimal(amt) + open_marker() + decimal(last) + slash_marker() + decimal(secs)
        + close_marker()
}

/// The request counter of a server's statistics task.
pub struct Stat {
    /// The request count at the last tick.
    pub last: usize,
}

impl Stat {
    /// No requests seen yet.
    pub fn new() -> (r: Stat)
        ensures
            r.last == 0,
    {
        Stat { last: 0 }
    }

    /// Whether the task keeps ticking: less than `duration_secs` seconds
    /// have elapsed since it started.
    pub fn running(duration_secs: u64, elapsed: Elapsed) -> (r: bool)
        ensures
            r == (elapsed.secs < duration_secs),
    {
        elapsed.secs < duration_secs
    }

    /// One tick, `count` requests having been served in all and
    /// `interval_secs` whole seconds having passed since the last tick:
    /// returns the requests since the last tick and their rate per second.
    pub fn tick(&mut self, count: usize, interval_secs: u64) -> (r: (usize, u64))
        requires
            count >= old(self).last,
            interval_secs > 0,
        ensures
            final(self).last == count,
            r.0 == count - old(self).last,
            r.1 == r.0 as nat / interval_secs as nat,
    {
        let cnt = count - self.last;
        self.last = count;
        let amt = cnt as u64 / interval_secs;
        (cnt, amt)
    }

    /// The average rate over the whole run: requests at the last tick per
    /// whole second elapsed.
    pub fn average(&self, elapsed: Elapsed) -> (r: u64)
        requires
            elapsed.secs > 0,
        ensures
            r == self.last as nat / elapsed.secs as nat,
    {
        self.last as u64 / elapsed.secs
    }

    /// The summary line the server prints at the end of its run, without
    /// its line break.
    pub fn summary(&self, elapsed: Elapsed) -> (r: Vec<char>)
        requires
            elapsed.secs > 0,
        ensures
            r@ == avg_line(
                self.last as nat / elapsed.secs as nat,
                self.last as nat,
                shown_secs(elapsed),
            ),
    {
        let amt = self.average(elapsed);
        let shown: u128 = if elapsed.nanos > 500_000_000 || (elapsed.nanos == 500_000_000
            && elapsed.secs % 2 == 1) {
            elapsed.secs as u128 + 1
        } else {
            elapsed.secs as u128
        };
        let mut out: Vec<char> = Vec::new();
        push_str(&mut out, "Avg: ");
        push_decimal(&mut out, amt as u128);
        push_str(&mut out, " (");
        push_decimal(&mut out, self.last as u128);
        push_str(&mut out, " / ");
        push_decimal(&mut out, shown);
        push_str(&mut out, "s)");
        assert(out@ =~= avg_line(amt as nat, self.last as nat, shown as nat));
        out
    }
}

/// Every character of a summary line after its first is not `'A'`.
proof fn lemma_avg_line_tail(amt: nat, last: nat, secs: nat)
    ensures
        forall|k: int| 1 <= k < avg_line(amt, last, secs).len() ==> #[trigger] avg_line(
            amt,
            last,
            secs,
        )[k] != 'A',
{
    reveal_strlit("Avg: ");
    reveal_strlit(" (");
    reveal_strlit(" / ");
    reveal_strlit("s)");
    lemma_decimal(amt);
    lemma_decimal(last);
    lemma_decimal(secs);
    let d1 = decimal(amt);
    let d2 = decimal(last);
    let d3 = decimal(secs);
    let l = avg_line(amt, last, secs);
    assert forall|k: int| 1 <= k < l.len() implies #[trigger] l[k] != 'A' by {
        let p1 = 5 + d1.len();
        let p2 = p1 + 2;
        let p3 = p2 + d2.len();
        let p4 = p3 + 3;
        let p5 = p4 + d3.len();
        if k < 5 {
        } else if k < p1 {
            assert(l[k] == d1[k - 5]);
            assert(is_digit(d1[k - 5]));
        } else if k < p2 {
        } else if k < p3 {
            assert(l[k] == d2[k - p2]);
            assert(is_digit(d2[k - p2]));
        } else if k < p4 {
        } else if k < p5 {
            assert(l[k] == d3[k - p4]);
            assert(is_digit(d3[k - p4]));
        } else {
        }
    }
}

/// The digit run that begins at `at` in `s` is the spelling `d` when `s`
/// holds `d` there and a non-digit right after it.
proof fn lemma_run_at(s: Seq<char>, at: int, d: Seq<char>)
    requires
        0 <= at,
        at + d.len() < s.len(),
        all_digits(d),
        s.subrange(at, at + d.len()) == d,
        !regex_digit(s[at + d.len()]),
    ensures
        regex_digit_run(s.subrange(at, s.len() as int)) == d.len(),
{
    let rest = s.subrange(at + d.len(), s.len() as int);
    assert(s.subrange(at, s.len() as int) =~= d + rest);
    assert(rest[0] == s[at + d.len()]);
    lemma_regex_digit_run_concat(d, rest);
}

/// The bench driver reads back what a server's statistics task prints: for
/// any output before the summary line, and any output after it that holds no
/// further `"Avg: "`, the connection count and seconds read from the whole
/// output are the average and seconds of the line (where they fit the types
/// they are read as).
pub proof fn lemma_summary_read_back(
    before: Seq<char>,
    amt: nat,
    last: nat,
    secs: nat,
    after: Seq<char>,
)
    requires
        amt <= usize::MAX,
        secs <= u32::MAX,
        forall|j: int| !#[trigger] occurs_at(after, avg_marker(), j),
    ensures
        avg_reading(before + avg_line(amt, last, secs) + after) == Some((amt, secs)),
{
    let l = avg_line(amt, last, secs);
    let s = before + l + after;
    let i = before.len() as int;
    let d1 = decimal(amt);
    let d2 = decimal(last);
    let d3 = decimal(secs);
    reveal_strlit("Avg: ");
    reveal_strlit(" (");
    reveal_strlit(" / ");
    reveal_strlit("s)");
    lemma_decimal(amt);
    lemma_decimal(last);
    lemma_decimal(secs);
    lemma_avg_line_tail(amt, last, secs);
    assert(l.len() == 5 + d1.len() + 2 + d2.len() + 3 + d3.len() + 2);
    // The line begins with the marker.
    assert(s.subrange(i, i + 5) =~= avg_marker());
    // No marker begins after it.
    assert forall|j: int| i < j implies !#[trigger] occurs_at(s, avg_marker(), j) by {
        if occurs_at(s, avg_marker(), j) {
            assert(s.subrange(j, j + 5)[0] == 'A');
            if j < i + l.len() {
                assert(s[j] == l[j - i]);
            } else {
                let k = j - i - l.len();
                assert(after.subrange(k, k + 5) =~= s.subrange(j, j + 5));
                assert(occurs_at(after, avg_marker(), k));
            }
        }
    }
    lemma_is_last_occurrence(s, avg_marker(), i);
    // Walk the fields of the line.
    let a = i + 5;
    let b = a + d1.len();
    let c = b + 2;
    let d = c + d2.len();
    let e = d + 3;
    let f = e + d3.len();
    assert(s.subrange(a, b) =~= d1);
    assert(s[b] == ' ');
    lemma_run_at(s, a, d1);
    assert(s.subrange(b, b + 2) =~= open_marker());
    assert(s.subrange(c, d) =~= d2);
    assert(s[d] == ' ');
    lemma_run_at(s, c, d2);
    assert(s.subrange(d, d + 3) =~= slash_marker());
    assert(s.subrange(e, f) =~= d3);
    assert(s[f] == 's');
    lemma_run_at(s, e, d3);
    assert(s.subrange(f, f + 2) =~= close_marker());
    assert(avg_capture(s) == Some((d1, d3)));
    lemma_parse_decimal(amt, usize::MAX as nat);
    lemma_parse_decimal(secs, u32::MAX as nat);
}

} // verus!

verus! {

/// The summary line reads `Avg: `, the average, ` (`, the count, ` / `, the
/// seconds and `s)`, each number in decimal.
pub proof fn lemma_avg_line_text(amt: nat, last: nat, secs: nat)
    ensures
        avg_line(amt, last, secs) == "Avg: "@ + decimal(amt) + " ("@ + decimal(last) + " / "@
            + decimal(secs) + "s)"@,
{
}

/// The bench driver reads back the average and seconds of the last line
/// `Avg: AMT (LAST / SECSs)` a server printed, whatever was printed before it,
/// and whatever was printed after it that holds no further `Avg: `.
pub proof fn lemma_summary_text_read_back(
    before: Seq<char>,
    amt: nat,
    last: nat,
    secs: nat,
    after: Seq<char>,
)
    requires
        amt <= usize::MAX,
        secs <= u32::MAX,
        forall|j: int| !#[trigger] occurs_at(after, "Avg: "@, j),
    ensures
        avg_reading(
            before + ("Avg: "@ + decimal(amt) + " ("@ + decimal(last) + " / "@ + decimal(secs)
                + "s)"@) + after,
        ) == Some((amt, secs)),
{
    lemma_avg_line_text(amt, last, secs);
    lemma_summary_read_back(before, amt, last, secs, after);
}

} // verus!
