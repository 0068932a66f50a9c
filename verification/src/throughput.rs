//! Reading a throughput out of a server's output, recording it, and ranking
//! the results.

use vstd::prelude::*;
use crate::bench::Bench;
use crate::config::Config;
use crate::order::{
    bytes_le, compare_bytes, lemma_bytes_le_antisymmetric,
    lemma_bytes_le_total, lemma_bytes_le_transitive, sort_descending, sorted_descending,
    Order3, TotalOrder,
};
use crate::text::{
    all_digits, is_digit, ends_with, has_suffix, last_occurrence, lemma_last_occurrence, matches_at, occurs_at,
    parse_unsigned, parse_unsigned_spec, rfind, to_chars, utf8_bytes,
};

verus! {

/// The result of one bench run.
#[derive(Debug, PartialEq, Eq, PartialOrd, Ord)]
pub struct Throughput {
    /// MB per second.
    pub mbps: usize,
    /// Connections per second.
    pub conn: u32,
    /// Duration in seconds.
    pub secs: u32,
    /// Server example name.
    pub server: String,
    /// Client example name.
    pub client: String,
    /// Whether the server is single-threaded (false: multi-threaded).
    pub server_st: bool,
    /// Whether the client is single-threaded (false: multi-threaded).
    pub client_st: bool,
    /// Buffer size of this bench.
    pub size: usize,
    /// Number of sockets of this bench.
    pub socket_len: usize,
    /// Duration setting of this bench, in seconds.
    pub duration: u32,
    /// Tick interval of this bench, in seconds.
    pub interval: u32,
}

/// No throughput could be read from a server's output.
#[derive(Debug, PartialEq, Eq)]
pub struct NoThroughput;

/// What begins the summary line a server prints.
pub open spec fn avg_marker() -> Seq<char> {
    "Avg: "@
}

/// What follows the average.
pub open spec fn open_marker() -> Seq<char> {
    " ("@
}

/// What separates the count from the seconds.
pub open spec fn slash_marker() -> Seq<char> {
    " / "@
}

/// What ends the summary line.
pub open spec fn close_marker() -> Seq<char> {
    "s)"@
}

/// What ends the names of single-threaded examples.
pub open spec fn st_suffix() -> Seq<char> {
    "st"@
}

/// Whether `\d` of the pattern syntax of `lazy_regex` (that of the `regex`
/// crate, in its default Unicode mode) matches `c`.
pub uninterp spec fn regex_decimal_digit(c: char) -> bool;

/// Calls `lazy_regex::Regex::new` (the `regex` crate's `Regex`) on the
/// pattern `^\d$` and `Regex::is_match` on the one-character string `c`.
/// Claimed: the result is `regex_decimal_digit(c)`, and among ASCII
/// characters the digits are exactly `'0'..='9'` (the `regex` crate
/// documents `\d` as `\p{Nd}`, whose ASCII members are those ten).
/// Which other characters are decimal digits is Unicode data that is left
/// unsaid. The pattern is valid, so the error arm is never taken.
#[verifier::external_body]
fn is_regex_decimal_digit(c: char) -> (r: bool)
    ensures
        r == regex_decimal_digit(c),
        (c as u32) < 128 ==> (r <==> is_digit(c)),
{
    let mut buf = [0u8; 4];
    match lazy_regex::Regex::new(r"^\d$") {
        Ok(re) => re.is_match(c.encode_utf8(&mut buf)),
        Err(_) => false,
    }
}

/// Whether `\d` matches `c`: among ASCII characters the ten digits, and
/// beyond ASCII what `regex_decimal_digit` says.
pub open spec fn regex_digit(c: char) -> bool {
    if (c as u32) < 128 {
        is_digit(c)
    } else {
        regex_decimal_digit(c)
    }
}

/// How many characters that `\d` matches `s` begins with.
pub open spec fn regex_digit_run(s: Seq<char>) -> nat
    decreases s.len(),
{
    if s.len() > 0 && regex_digit(s[0]) {
        1 + regex_digit_run(s.drop_first())
    } else {
        0
    }
}

/// The two captured numbers of the summary line that begins at the last
/// `"Avg: "` in `s`, as `(A, S)`: the match there of the pattern
/// `Avg: (\d+) \(\d+ / (\d+)s\)`.
pub open spec fn avg_capture(s: Seq<char>) -> Option<(Seq<char>, Seq<char>)> {
    match last_occurrence(s, avg_marker()) {
        None => None,
        Some(i) => {
            let a = i + 5;
            let n1 = regex_digit_run(s.subrange(a, s.len() as int));
            let b = a + n1;
            if n1 > 0 && occurs_at(s, open_marker(), b) {
                let c = b + 2;
                let n2 = regex_digit_run(s.subrange(c, s.len() as int));
                let d = c + n2;
                if n2 > 0 && occurs_at(s, slash_marker(), d) {
                    let e = d + 3;
                    let n3 = regex_digit_run(s.subrange(e, s.len() as int));
                    let f = e + n3;
                    if n3 > 0 && occurs_at(s, close_marker(), f) {
                        Some((s.subrange(a, b), s.subrange(e, f)))
                    } else {
                        None
                    }
                } else {
                    None
                }
            } else {
                None
            }
        },
    }
}

/// The connection count of the summary line, where it parses as a `usize`.
pub open spec fn avg_conn(s: Seq<char>) -> Option<nat> {
    match avg_capture(s) {
        Some((c, _)) => parse_unsigned_spec(c, usize::MAX as nat),
        None => None,
    }
}

/// The connection count and seconds of the summary line, where both parse
/// (as `usize` and `u32`).
pub open spec fn avg_reading(s: Seq<char>) -> Option<(nat, nat)> {
    match avg_capture(s) {
        Some((c, d)) => match (
            parse_unsigned_spec(c, usize::MAX as nat),
            parse_unsigned_spec(d, u32::MAX as nat),
        ) {
            (Some(x), Some(y)) => Some((x, y)),
            _ => None,
        },
        None => None,
    }
}

/// The megabytes-per-second figure `conn * (size / 1024) / 1024` does not
/// overflow `usize`; where it would, computing it is an arithmetic overflow.
pub open spec fn mbps_fits(s: Seq<char>, size: usize) -> bool {
    avg_conn(s) matches Some(c) ==> c * (size / 1024) <= usize::MAX
}

/// `t` is the throughput read from the output `out` of a run of `server`
/// against `client` under the given configuration.
pub open spec fn describes(
    t: Throughput,
    out: Seq<char>,
    server: Seq<char>,
    client: Seq<char>,
    size: usize,
    socket_len: usize,
    duration: u64,
    interval: u64,
) -> bool {
    &&& avg_reading(out) matches Some((conn, secs))
    &&& t.mbps == conn * (size / 1024) / 1024
    &&& t.conn == conn as u32
    &&& t.secs == secs
    &&& t.server@ == server
    &&& t.client@ == client
    &&& t.server_st == has_suffix(server, st_suffix())
    &&& t.client_st == has_suffix(client, st_suffix())
    &&& t.size == size
    &&& t.socket_len == socket_len
    &&& t.duration == duration as u32
    &&& t.interval == interval as u32
}

/// A run of ASCII digits followed by a character that `\d` does not match
/// (or by nothing) is exactly the leading run that `\d` matches.
pub proof fn lemma_regex_digit_run_concat(d: Seq<char>, rest: Seq<char>)
    requires
        all_digits(d),
        rest.len() == 0 || !regex_digit(rest[0]),
    ensures
        regex_digit_run(d + rest) == d.len(),
    decreases d.len(),
{
    if d.len() == 0 {
        assert(d + rest =~= rest);
    } else {
        assert(is_digit(d[0]));
        assert((d[0] as u32) < 128);
        lemma_regex_digit_run_concat(d.drop_first(), rest);
        assert((d + rest).drop_first() =~= d.drop_first() + rest);
    }
}

/// How many characters that `\d` matches follow offset `start` in `s`.
fn count_regex_digits(s: &[char], start: usize) -> (r: usize)
    requires
        start <= s.len(),
    ensures
        r == regex_digit_run(s@.subrange(start as int, s@.len() as int)),
        start + r <= s.len(),
{
    let mut i: usize = start;
    while i < s.len() && is_regex_decimal_digit(s[i])
        invariant
            start <= i <= s.len(),
            regex_digit_run(s@.subrange(start as int, s@.len() as int)) == (i - start)
                + regex_digit_run(s@.subrange(i as int, s@.len() as int)),
        decreases s.len() - i,
    {
        proof {
            assert(s@.subrange(i as int, s@.len() as int).drop_first() =~= s@.subrange(
                i + 1,
                s@.len() as int,
            ));
        }
        i = i + 1;
    }
    proof {
        let rest = s@.subrange(i as int, s@.len() as int);
        if rest.len() > 0 {
            assert(rest[0] == s@[i as int]);
        }
    }
    i - start
}

/// Finds the captured numbers of the summary line, as ranges of `s`.
fn find_avg_capture(s: &[char]) -> (r: Option<(usize, usize, usize, usize)>)
    ensures
        match r {
            Some((a, a_end, e, e_end)) => {
                &&& a <= a_end <= s@.len()
                &&& e <= e_end <= s@.len()
                &&& avg_capture(s@) == Some(
                    (s@.subrange(a as int, a_end as int), s@.subrange(e as int, e_end as int)),
                )
            },
            None => avg_capture(s@) is None,
        },
{
    let slen = s.len();
    let marker = to_chars("Avg: ");
    proof {
        reveal_strlit("Avg: ");
    }
    let i = match rfind(s, marker.as_slice()) {
        Some(i) => i,
        None => return None,
    };
    proof {
        lemma_last_occurrence(s@, avg_marker());
    }
    assert(occurs_at(s@, avg_marker(), i as int));
    assert(avg_marker().len() == 5);
    let a = i + 5;
    let n1 = count_regex_digits(s, a);
    let b = a + n1;
    if n1 == 0 || !matches_at(s, to_chars(" (").as_slice(), b) {
        return None;
    }
    proof {
        reveal_strlit(" (");
    }
    let c = b + 2;
    let n2 = count_regex_digits(s, c);
    let d = c + n2;
    if n2 == 0 || !matches_at(s, to_chars(" / ").as_slice(), d) {
        return None;
    }
    proof {
        reveal_strlit(" / ");
    }
    let e = d + 3;
    let n3 = count_regex_digits(s, e);
    let f = e + n3;
    if n3 == 0 || !matches_at(s, to_chars("s)").as_slice(), f) {
        return None;
    }
    Some((a, b, e, f))
}

/// Reads the throughput of a run of `server` against `client` under `config`
/// from the server's output `s`: the summary line at the last `"Avg: "`.
/// `None` where there is no such line or its numbers do not parse.
pub fn parse_output(s: &str, server: &str, client: &str, config: &Config) -> (r: Option<
    Throughput,
>)
    requires
        mbps_fits(s@, config.size),
    ensures
        r is Some <==> avg_reading(s@) is Some,
        r matches Some(t) ==> describes(
            t,
            s@,
            server@,
            client@,
            config.size,
            config.socket_len,
            config.duration,
            config.interval,
        ),
        r matches Some(t) ==> {
            &&& t.size == config.size
            &&& t.socket_len == config.socket_len
            &&& avg_conn(s@) matches Some(c)
            &&& t.mbps * 1024 <= c * (config.size / 1024) < t.mbps * 1024 + 1024
        },
{
    let chars = to_chars(s);
    let cs = chars.as_slice();
    let (a, a_end, e, e_end) = match find_avg_capture(cs) {
        Some(x) => x,
        None => return None,
    };
    let conn = match parse_unsigned(cs, a, a_end, usize::MAX as u64) {
        Some(v) => v as usize,
        None => return None,
    };
    assert(avg_conn(s@) == Some(conn as nat));
    let mbps = conn * (config.size / 1024) / 1024;
    let secs = match parse_unsigned(cs, e, e_end, u32::MAX as u64) {
        Some(v) => v as u32,
        None => return None,
    };
    let st = to_chars("st");
    Some(
        Throughput {
            mbps,
            conn: conn as u32,
            secs,
            server: server.to_owned(),
            client: client.to_owned(),
            server_st: ends_with(to_chars(server).as_slice(), st.as_slice()),
            client_st: ends_with(to_chars(client).as_slice(), st.as_slice()),
            size: config.size,
            socket_len: config.socket_len,
            duration: config.duration as u32,
            interval: config.interval as u32,
        },
    )
}

/// Whether `mbps_fits` holds: the throughput figure of the output `s` can be
/// computed without overflow under buffer size `size`.
pub fn mbps_fits_in_usize(s: &str, size: usize) -> (r: bool)
    ensures
        r == mbps_fits(s@, size),
{
    let chars = to_chars(s);
    let cs = chars.as_slice();
    let (a, a_end) = match find_avg_capture(cs) {
        Some((a, a_end, _, _)) => (a, a_end),
        None => return true,
    };
    let conn = match parse_unsigned(cs, a, a_end, usize::MAX as u64) {
        Some(v) => v as usize,
        None => return true,
    };
    conn.checked_mul(size / 1024).is_some()
}

impl Bench {
    /// Records the throughput that this run's server reported in `stdout`,
    /// the run having used `config`.
    pub fn record(&self, stdout: &str, config: &Config, throughputs: &mut Vec<Throughput>) -> (r:
        Result<(), NoThroughput>)
        requires
            mbps_fits(stdout@, config.size),
        ensures
            r is Ok <==> avg_reading(stdout@) is Some,
            r is Ok ==> final(throughputs)@.len() == old(throughputs)@.len() + 1
                && final(throughputs)@.drop_last() == old(throughputs)@ && describes(
                final(throughputs)@.last(),
                stdout@,
                self.server@,
                self.client@,
                config.size,
                config.socket_len,
                config.duration,
                config.interval,
            ),
            r is Err ==> final(throughputs)@ == old(throughputs)@,
    {
        match parse_output(stdout, self.server.as_str(), self.client.as_str(), config) {
            Some(t) => {
                let ghost before = throughputs@;
                throughputs.push(t);
                assert(throughputs@.drop_last() =~= before);
                Ok(())
            },
            None => Err(NoThroughput),
        }
    }
}

/// The order that `derive(Ord)` gives `Throughput`: field by field, in
/// declaration order, strings by their bytes and `false` before `true`.
pub open spec fn throughput_le(a: Throughput, b: Throughput) -> bool {
    if a.mbps != b.mbps {
        a.mbps < b.mbps
    } else if a.conn != b.conn {
        a.conn < b.conn
    } else if a.secs != b.secs {
        a.secs < b.secs
    } else if utf8_bytes(a.server@) != utf8_bytes(b.server@) {
        bytes_le(utf8_bytes(a.server@), utf8_bytes(b.server@))
    } else if utf8_bytes(a.client@) != utf8_bytes(b.client@) {
        bytes_le(utf8_bytes(a.client@), utf8_bytes(b.client@))
    } else if a.server_st != b.server_st {
        !a.server_st
    } else if a.client_st != b.client_st {
        !a.client_st
    } else if a.size != b.size {
        a.size < b.size
    } else if a.socket_len != b.socket_len {
        a.socket_len < b.socket_len
    } else if a.duration != b.duration {
        a.duration < b.duration
    } else {
        a.interval <= b.interval
    }
}

impl TotalOrder for Throughput {
    open spec fn le(self, other: Self) -> bool {
        throughput_le(self, other)
    }

    proof fn lemma_reflexive(x: Self) {
    }

    proof fn lemma_transitive(x: Self, y: Self, z: Self) {
        let (xs, ys, zs) = (utf8_bytes(x.server@), utf8_bytes(y.server@), utf8_bytes(z.server@));
        let (xc, yc, zc) = (utf8_bytes(x.client@), utf8_bytes(y.client@), utf8_bytes(z.client@));
        lemma_bytes_facts(xs, ys, zs);
        lemma_bytes_facts(xc, yc, zc);
    }

    proof fn lemma_total(x: Self, y: Self) {
        lemma_bytes_le_total(utf8_bytes(x.server@), utf8_bytes(y.server@));
        lemma_bytes_le_total(utf8_bytes(x.client@), utf8_bytes(y.client@));
    }

    fn less_or_equal(&self, other: &Self) -> (r: bool) {
        if self.mbps != other.mbps {
            return self.mbps < other.mbps;
        }
        if self.conn != other.conn {
            return self.conn < other.conn;
        }
        if self.secs != other.secs {
            return self.secs < other.secs;
        }
        match compare_bytes(self.server.as_str().as_bytes(), other.server.as_str().as_bytes()) {
            Order3::Before => return true,
            Order3::After => return false,
            Order3::Same => {},
        }
        match compare_bytes(self.client.as_str().as_bytes(), other.client.as_str().as_bytes()) {
            Order3::Before => return true,
            Order3::After => return false,
            Order3::Same => {},
        }
        if self.server_st != other.server_st {
            return !self.server_st;
        }
        if self.client_st != other.client_st {
            return !self.client_st;
        }
        if self.size != other.size {
            return self.size < other.size;
        }
        if self.socket_len != other.socket_len {
            return self.socket_len < other.socket_len;
        }
        if self.duration != other.duration {
            return self.duration < other.duration;
        }
        self.interval <= other.interval
    }
}

/// The facts about three byte strings that lexicographic chains need.
proof fn lemma_bytes_facts(a: Seq<u8>, b: Seq<u8>, c: Seq<u8>)
    ensures
        bytes_le(a, b) && bytes_le(b, c) ==> bytes_le(a, c),
        bytes_le(a, b) && bytes_le(b, a) ==> a == b,
        bytes_le(b, c) && bytes_le(c, b) ==> b == c,
        bytes_le(a, c) && bytes_le(c, a) ==> a == c,
        bytes_le(a, b) || bytes_le(b, a),
        bytes_le(b, c) || bytes_le(c, b),
{
    if bytes_le(a, b) && bytes_le(b, c) {
        lemma_bytes_le_transitive(a, b, c);
    }
    if bytes_le(a, b) && bytes_le(b, a) {
        lemma_bytes_le_antisymmetric(a, b);
    }
    if bytes_le(b, c) && bytes_le(c, b) {
        lemma_bytes_le_antisymmetric(b, c);
    }
    if bytes_le(a, c) && bytes_le(c, a) {
        lemma_bytes_le_antisymmetric(a, c);
    }
    lemma_bytes_le_total(a, b);
    lemma_bytes_le_total(b, c);
}

/// The bench results, best first: sorted by the derived order of
/// `Throughput`, descending.
pub fn rank_throughputs(throughputs: Vec<Throughput>) -> (r: Vec<Throughput>)
    ensures
        sorted_descending(r@),
        r@.to_multiset() == throughputs@.to_multiset(),
        forall|i: int, j: int| 0 <= i < j < r@.len() ==> (#[trigger] r@[j]).mbps <= (
        #[trigger] r@[i]).mbps,
{
    let r = sort_descending(throughputs);
    assert forall|i: int, j: int| 0 <= i < j < r@.len() implies (#[trigger] r@[j]).mbps <= (
    #[trigger] r@[i]).mbps by {
        lemma_throughput_order(r@[j], r@[i]);
    }
    r
}

/// `b` comes strictly after `a` among byte strings.
pub open spec fn bytes_lt(a: Seq<u8>, b: Seq<u8>) -> bool {
    bytes_le(a, b) && a != b
}

/// Throughputs rank by their fields in declaration order: the first field in
/// which two differ decides, a smaller number, an earlier name or `false`
/// ranking lower; throughputs whose fields all agree rank alike.
pub proof fn lemma_throughput_order(a: Throughput, b: Throughput)
    ensures
        a.mbps < b.mbps ==> a.le(b) && !b.le(a),
        a.mbps == b.mbps && a.conn < b.conn ==> a.le(b) && !b.le(a),
        a.mbps == b.mbps && a.conn == b.conn && a.secs < b.secs ==> a.le(b) && !b.le(a),
        a.mbps == b.mbps && a.conn == b.conn && a.secs == b.secs && bytes_lt(
            utf8_bytes(a.server@),
            utf8_bytes(b.server@),
        ) ==> a.le(b) && !b.le(a),
        a.mbps == b.mbps && a.conn == b.conn && a.secs == b.secs && utf8_bytes(a.server@)
            == utf8_bytes(b.server@) && bytes_lt(utf8_bytes(a.client@), utf8_bytes(b.client@))
            ==> a.le(b) && !b.le(a),
        a.mbps == b.mbps && a.conn == b.conn && a.secs == b.secs && utf8_bytes(a.server@)
            == utf8_bytes(b.server@) && utf8_bytes(a.client@) == utf8_bytes(b.client@) && (
        !a.server_st && b.server_st) ==> a.le(b) && !b.le(a),
        a.mbps == b.mbps && a.conn == b.conn && a.secs == b.secs && utf8_bytes(a.server@)
            == utf8_bytes(b.server@) && utf8_bytes(a.client@) == utf8_bytes(b.client@)
            && a.server_st == b.server_st && (!a.client_st && b.client_st) ==> a.le(b) && !b.le(
            a,
        ),
        a.mbps == b.mbps && a.conn == b.conn && a.secs == b.secs && utf8_bytes(a.server@)
            == utf8_bytes(b.server@) && utf8_bytes(a.client@) == utf8_bytes(b.client@)
            && a.server_st == b.server_st && a.client_st == b.client_st && a.size < b.size
            ==> a.le(b) && !b.le(a),
        a.mbps == b.mbps && a.conn == b.conn && a.secs == b.secs && utf8_bytes(a.server@)
            == utf8_bytes(b.server@) && utf8_bytes(a.client@) == utf8_bytes(b.client@)
            && a.server_st == b.server_st && a.client_st == b.client_st && a.size == b.size
            && a.socket_len < b.socket_len ==> a.le(b) && !b.le(a),
        a.mbps == b.mbps && a.conn == b.conn && a.secs == b.secs && utf8_bytes(a.server@)
            == utf8_bytes(b.server@) && utf8_bytes(a.client@) == utf8_bytes(b.client@)
            && a.server_st == b.server_st && a.client_st == b.client_st && a.size == b.size
            && a.socket_len == b.socket_len && a.duration < b.duration ==> a.le(b) && !b.le(a),
        a.mbps == b.mbps && a.conn == b.conn && a.secs == b.secs && utf8_bytes(a.server@)
            == utf8_bytes(b.server@) && utf8_bytes(a.client@) == utf8_bytes(b.client@)
            && a.server_st == b.server_st && a.client_st == b.client_st && a.size == b.size
            && a.socket_len == b.socket_len && a.duration == b.duration ==> (a.le(b)
            <==> a.interval <= b.interval),
{
    lemma_bytes_facts(utf8_bytes(a.server@), utf8_bytes(b.server@), utf8_bytes(a.server@));
    lemma_bytes_facts(utf8_bytes(a.client@), utf8_bytes(b.client@), utf8_bytes(a.client@));
}

/// A throughput read from a run's output carries that run's settings and
/// names, and its megabytes per second are the connection count times the
/// kilobytes per buffer, divided by 1024 and rounded down.
pub proof fn lemma_describes_fields(
    t: Throughput,
    out: Seq<char>,
    server: Seq<char>,
    client: Seq<char>,
    size: usize,
    socket_len: usize,
    duration: u64,
    interval: u64,
)
    requires
        describes(t, out, server, client, size, socket_len, duration, interval),
    ensures
        t.size == size,
        t.socket_len == socket_len,
        duration <= u32::MAX ==> t.duration == duration,
        interval <= u32::MAX ==> t.interval == interval,
        t.server@ == server,
        t.client@ == client,
        t.server_st <==> has_suffix(server, "st"@),
        t.client_st <==> has_suffix(client, "st"@),
        avg_conn(out) matches Some(c) && t.mbps * 1024 <= c * (size / 1024) < t.mbps * 1024
            + 1024,
        avg_conn(out) matches Some(c) && (c <= u32::MAX ==> t.conn == c),
        avg_reading(out) matches Some((_, secs)) && t.secs == secs,
{
    let (c, secs) = avg_reading(out).unwrap();
    let k = c * (size / 1024);
    assert(t.mbps == k / 1024);
    assert(t.mbps * 1024 <= k < t.mbps * 1024 + 1024) by (nonlinear_arith)
        requires
            t.mbps == k / 1024,
            k >= 0,
    ;
}

} // verus!
