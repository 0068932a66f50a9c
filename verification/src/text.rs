//! Text helpers on characters: decimal numbers, prefixes, suffixes and the
//! last occurrence of a pattern.

use vstd::prelude::*;
use vstd::std_specs::iter::IteratorSpec;

verus! {

/// The UTF-8 encoding of a character sequence: the bytes of a `str` whose
/// view is `s`.
pub open spec fn utf8_bytes(s: Seq<char>) -> Seq<u8> {
    vstd::utf8::encode_utf8(s)
}

/// An ASCII decimal digit, `'0'..='9'`.
pub open spec fn is_digit(c: char) -> bool {
    '0' <= c && c <= '9'
}

/// Every character of `s` is an ASCII decimal digit.
pub open spec fn all_digits(s: Seq<char>) -> bool {
    forall|i: int| 0 <= i < s.len() ==> is_digit(#[trigger] s[i])
}

/// The value of an ASCII digit.
pub open spec fn digit_value(c: char) -> nat {
    (c as int - 48) as nat
}

/// The ASCII digit of a value below ten.
pub open spec fn digit_char(d: nat) -> char {
    ((48 + d) as u8) as char
}

/// The number that the digits `s` spell in base ten (most significant first).
pub open spec fn digits_value(s: Seq<char>) -> nat
    decreases s.len(),
{
    if s.len() == 0 {
        0
    } else {
        digits_value(s.drop_last()) * 10 + digit_value(s.last())
    }
}

/// What `str::parse` yields for an unsigned integer type whose largest value
/// is `max`: an optional `+`, then one or more ASCII digits whose value fits.
pub open spec fn parse_unsigned_spec(s: Seq<char>, max: nat) -> Option<nat> {
    let d = if s.len() > 0 && s[0] == '+' { s.drop_first() } else { s };
    if d.len() > 0 && all_digits(d) && digits_value(d) <= max {
        Some(digits_value(d))
    } else {
        None
    }
}

/// The shortest base-ten spelling of `n`, what `Display` prints for it.
pub open spec fn decimal(n: nat) -> Seq<char>
    decreases n,
{
    if n < 10 {
        seq![digit_char(n)]
    } else {
        decimal(n / 10).push(digit_char(n % 10))
    }
}

/// `p` occurs in `s` at offset `i`.
pub open spec fn occurs_at<T>(s: Seq<T>, p: Seq<T>, i: int) -> bool {
    0 <= i && i + p.len() <= s.len() && s.subrange(i, i + p.len()) == p
}

/// The largest offset below `n` at which `p` occurs in `s`.
pub open spec fn last_occurrence_before<T>(s: Seq<T>, p: Seq<T>, n: int) -> Option<int>
    decreases n,
{
    if n <= 0 {
        None
    } else if occurs_at(s, p, n - 1) {
        Some(n - 1)
    } else {
        last_occurrence_before(s, p, n - 1)
    }
}

/// The offset of the last occurrence of `p` in `s`, as `str::rfind` finds it.
pub open spec fn last_occurrence<T>(s: Seq<T>, p: Seq<T>) -> Option<int> {
    last_occurrence_before(s, p, s.len() + 1int)
}

/// `s` begins with `p`.
pub open spec fn has_prefix<T>(s: Seq<T>, p: Seq<T>) -> bool {
    occurs_at(s, p, 0)
}

/// `s` ends with `p`.
pub open spec fn has_suffix<T>(s: Seq<T>, p: Seq<T>) -> bool {
    p.len() <= s.len() && occurs_at(s, p, s.len() - p.len())
}

// ---------------------------------------------------------------------------
// Lemmas
// ---------------------------------------------------------------------------

/// What the search for the last occurrence below `n` finds: an occurrence
/// with none after it, or nothing when there is none.
pub proof fn lemma_last_occurrence_before<T>(s: Seq<T>, p: Seq<T>, n: int)
    ensures
        match last_occurrence_before(s, p, n) {
            Some(i) => 0 <= i < n && occurs_at(s, p, i) && forall|j: int|
                i < j < n ==> !#[trigger] occurs_at(s, p, j),
            None => forall|j: int| 0 <= j < n ==> !#[trigger] occurs_at(s, p, j),
        },
    decreases n,
{
    if n > 0 {
        lemma_last_occurrence_before(s, p, n - 1);
    }
}

/// `last_occurrence` finds the occurrence that has none after it.
pub proof fn lemma_last_occurrence<T>(s: Seq<T>, p: Seq<T>)
    ensures
        match last_occurrence(s, p) {
            Some(i) => occurs_at(s, p, i) && forall|j: int| i < j ==> !#[trigger] occurs_at(s, p, j),
            None => forall|j: int| !#[trigger] occurs_at(s, p, j),
        },
{
    lemma_last_occurrence_before(s, p, s.len() + 1int);
}

/// An occurrence with none after it is the last occurrence.
pub proof fn lemma_is_last_occurrence<T>(s: Seq<T>, p: Seq<T>, i: int)
    requires
        occurs_at(s, p, i),
        forall|j: int| i < j ==> !#[trigger] occurs_at(s, p, j),
    ensures
        last_occurrence(s, p) == Some(i),
{
    lemma_last_occurrence(s, p);
    if let Some(k) = last_occurrence(s, p) {
        if k < i {
            assert(occurs_at(s, p, i));
        }
    }
}

/// The digit of a value below ten reads back as that value.
proof fn lemma_digit_char(d: nat)
    requires
        d < 10,
    ensures
        is_digit(digit_char(d)),
        digit_value(digit_char(d)) == d,
{
}

/// The spelling of a number is a nonempty run of digits that reads back as
/// the number.
pub proof fn lemma_decimal(n: nat)
    ensures
        decimal(n).len() > 0,
        all_digits(decimal(n)),
        digits_value(decimal(n)) == n,
    decreases n,
{
    if n >= 10 {
        lemma_decimal(n / 10);
        lemma_digit_char(n % 10);
        let d = decimal(n);
        assert(d.drop_last() =~= decimal(n / 10));
        assert(n == (n / 10) * 10 + n % 10) by (nonlinear_arith);
        assert(d.last() == digit_char(n % 10));
        assert(digits_value(d) == digits_value(d.drop_last()) * 10 + digit_value(d.last()));
    } else {
        lemma_digit_char(n);
        let d = decimal(n);
        assert(d.len() == 1);
        assert(d.drop_last() =~= Seq::<char>::empty());
        assert(digits_value(d.drop_last()) == 0);
    }
}

/// `str::parse` reads back the spelling of any number that fits.
pub proof fn lemma_parse_decimal(n: nat, max: nat)
    requires
        n <= max,
    ensures
        parse_unsigned_spec(decimal(n), max) == Some(n),
{
    lemma_decimal(n);
    assert(is_digit(decimal(n)[0]));
}

/// A value read from more digits is at least the value of any prefix of them.
pub proof fn lemma_digits_value_prefix(s: Seq<char>, k: int)
    requires
        0 <= k <= s.len(),
        all_digits(s),
    ensures
        digits_value(s.subrange(0, k)) <= digits_value(s),
    decreases s.len(),
{
    if k < s.len() {
        lemma_digits_value_prefix(s.drop_last(), k);
        assert(s.drop_last().subrange(0, k) =~= s.subrange(0, k));
    } else {
        assert(s.subrange(0, k) =~= s);
    }
}

/// Appending one digit: the value shifts left and adds the digit.
pub proof fn lemma_digits_value_push(s: Seq<char>, c: char)
    ensures
        digits_value(s.push(c)) == digits_value(s) * 10 + digit_value(c),
{
    assert(s.push(c).drop_last() =~= s);
}

// ---------------------------------------------------------------------------
// Executable helpers
// ---------------------------------------------------------------------------

/// The characters of `s`.
pub fn to_chars(s: &str) -> (r: Vec<char>)
    ensures
        r@ == s@,
{
    broadcast use vstd::string::group_string_axioms;

    let mut it = s.chars();
    let mut r: Vec<char> = Vec::new();
    loop
        invariant
            r@ + it.remaining() == s@,
            it.obeys_prophetic_iter_laws(),
            it.decrease() is Some,
        decreases it.decrease()->0,
    {
        match it.next() {
            Some(c) => {
                r.push(c);
                assert(r@ + it.remaining() =~= s@);
            },
            None => {
                assert(r@ =~= s@);
                return r;
            },
        }
    }
}

/// Whether `p` occurs in `s` at offset `i`.
pub fn matches_at(s: &[char], p: &[char], i: usize) -> (r: bool)
    ensures
        r == occurs_at(s@, p@, i as int),
{
    if i > s.len() || p.len() > s.len() - i {
        return false;
    }
    let mut k: usize = 0;
    while k < p.len()
        invariant
            i + p.len() <= s.len(),
            0 <= k <= p.len(),
            forall|j: int| 0 <= j < k ==> s@[i + j] == p@[j],
        decreases p.len() - k,
    {
        if s[i + k] != p[k] {
            assert(s@.subrange(i as int, i + p.len())[k as int] != p@[k as int]);
            return false;
        }
        k = k + 1;
    }
    assert(s@.subrange(i as int, i + p.len()) =~= p@);
    true
}

/// Whether `s` begins with `p` (`str::starts_with`).
pub fn starts_with(s: &[char], p: &[char]) -> (r: bool)
    ensures
        r == has_prefix(s@, p@),
{
    matches_at(s, p, 0)
}

/// Whether `s` ends with `p` (`str::ends_with`).
pub fn ends_with(s: &[char], p: &[char]) -> (r: bool)
    ensures
        r == has_suffix(s@, p@),
{
    if p.len() > s.len() {
        false
    } else {
        matches_at(s, p, s.len() - p.len())
    }
}

/// The offset of the last occurrence of `p` in `s` (`str::rfind`).
pub fn rfind(s: &[char], p: &[char]) -> (r: Option<usize>)
    ensures
        match r {
            Some(i) => last_occurrence(s@, p@) == Some(i as int),
            None => last_occurrence(s@, p@) is None,
        },
{
    if p.len() > s.len() {
        proof {
            lemma_last_occurrence(s@, p@);
            if let Some(k) = last_occurrence(s@, p@) {
                assert(occurs_at(s@, p@, k));
            }
        }
        return None;
    }
    // Offsets above `s.len() - p.len()` cannot hold an occurrence.
    let top: usize = s.len() - p.len();
    proof {
        lemma_skip_from(s@, p@, top as int, s@.len() + 1int);
    }
    let mut i: usize = top;
    loop
        invariant
            i <= top,
            top + p.len() == s.len(),
            last_occurrence(s@, p@) == last_occurrence_before(s@, p@, i + 1),
        decreases i,
    {
        if matches_at(s, p, i) {
            return Some(i);
        }
        if i == 0 {
            assert(last_occurrence_before(s@, p@, 0) is None);
            return None;
        }
        i = i - 1;
    }
}

/// The search for the last occurrence may start past where `p` still fits.
proof fn lemma_skip_from<T>(s: Seq<T>, p: Seq<T>, top: int, m: int)
    requires
        top + p.len() == s.len(),
        0 <= top,
        top + 1 <= m <= s.len() + 1,
    ensures
        last_occurrence_before(s, p, m) == last_occurrence_before(s, p, top + 1),
    decreases m,
{
    if m > top + 1 {
        assert(!occurs_at(s, p, m - 1));
        lemma_skip_from(s, p, top, m - 1);
    }
}

/// `str::parse` of `s[start..end]` as an unsigned integer no larger than
/// `max`.
pub fn parse_unsigned(s: &[char], start: usize, end: usize, max: u64) -> (r: Option<u64>)
    requires
        start <= end <= s.len(),
    ensures
        match r {
            Some(v) => parse_unsigned_spec(s@.subrange(start as int, end as int), max as nat)
                == Some(v as nat),
            None => parse_unsigned_spec(s@.subrange(start as int, end as int), max as nat) is None,
        },
{
    let ghost whole = s@.subrange(start as int, end as int);
    let mut i: usize = start;
    if i < end && s[i] == '+' {
        i = i + 1;
    }
    let first: usize = i;
    let ghost d = s@.subrange(first as int, end as int);
    proof {
        if whole.len() > 0 && whole[0] == '+' {
            assert(whole.drop_first() =~= d);
        } else {
            assert(whole =~= d);
        }
    }
    if first == end {
        return None;
    }
    let mut acc: u64 = 0;
    while i < end
        invariant
            start <= first <= i <= end <= s.len(),
            first < end,
            whole == s@.subrange(start as int, end as int),
            d == (if whole.len() > 0 && whole[0] == '+' { whole.drop_first() } else { whole }),
            d == s@.subrange(first as int, end as int),
            all_digits(s@.subrange(first as int, i as int)),
            acc as nat == digits_value(s@.subrange(first as int, i as int)),
            acc <= max,
        decreases end - i,
    {
        let c = s[i];
        if c < '0' || c > '9' {
            proof {
                assert(d[i - first] == c);
            }
            return None;
        }
        let digit: u64 = (c as u32 - 48) as u64;
        let ghost next = s@.subrange(first as int, i + 1);
        proof {
            assert(next =~= s@.subrange(first as int, i as int).push(c));
            lemma_digits_value_push(s@.subrange(first as int, i as int), c);
        }
        if (acc as u128) * 10 + (digit as u128) > (max as u128) {
            proof {
                if all_digits(d) {
                    assert(d.subrange(0, i + 1 - first) =~= next);
                    lemma_digits_value_prefix(d, i + 1 - first);
                }
            }
            return None;
        }
        acc = acc * 10 + digit;
        i = i + 1;
    }
    assert(s@.subrange(first as int, i as int) =~= d);
    Some(acc)
}

/// `str::parse::<usize>()`.
pub fn parse_usize(s: &str) -> (r: Option<usize>)
    ensures
        match r {
            Some(v) => parse_unsigned_spec(s@, usize::MAX as nat) == Some(v as nat),
            None => parse_unsigned_spec(s@, usize::MAX as nat) is None,
        },
{
    let c = to_chars(s);
    assert(c@.subrange(0, c@.len() as int) =~= c@);
    match parse_unsigned(c.as_slice(), 0, c.len(), usize::MAX as u64) {
        Some(v) => Some(v as usize),
        None => None,
    }
}

/// `str::parse::<u64>()`.
pub fn parse_u64(s: &str) -> (r: Option<u64>)
    ensures
        match r {
            Some(v) => parse_unsigned_spec(s@, u64::MAX as nat) == Some(v as nat),
            None => parse_unsigned_spec(s@, u64::MAX as nat) is None,
        },
{
    let c = to_chars(s);
    assert(c@.subrange(0, c@.len() as int) =~= c@);
    parse_unsigned(c.as_slice(), 0, c.len(), u64::MAX)
}

/// Appends the decimal spelling of `n`.
pub fn push_decimal(out: &mut Vec<char>, n: u128)
    ensures
        final(out)@ == old(out)@ + decimal(n as nat),
    decreases n,
{
    if n >= 10 {
        push_decimal(out, n / 10);
    }
    let digit: u8 = (n % 10) as u8;
    out.push((48 + digit) as char);
    proof {
        assert(((48 + digit) as char) == digit_char(digit as nat));
        if n >= 10 {
            assert(old(out)@ + decimal((n / 10) as nat) + seq![digit_char(digit as nat)]
                =~= old(out)@ + decimal(n as nat));
        } else {
            assert(old(out)@ + seq![digit_char(digit as nat)] =~= old(out)@ + decimal(n as nat));
        }
    }
}

/// The decimal spelling of `n`.
pub fn decimal_chars(n: u128) -> (r: Vec<char>)
    ensures
        r@ == decimal(n as nat),
{
    let mut out: Vec<char> = Vec::new();
    push_decimal(&mut out, n);
    assert(Seq::<char>::empty() + decimal(n as nat) =~= decimal(n as nat));
    out
}

/// Appends the characters of `s`.
pub fn push_str(out: &mut Vec<char>, s: &str)
    ensures
        final(out)@ == old(out)@ + s@,
{
    let c = to_chars(s);
    let mut i: usize = 0;
    while i < c.len()
        invariant
            i <= c.len(),
            c@ == s@,
            out@ == old(out)@ + c@.subrange(0, i as int),
        decreases c.len() - i,
    {
        out.push(c[i]);
        assert(c@.subrange(0, i + 1) =~= c@.subrange(0, i as int).push(c@[i as int]));
        i = i + 1;
    }
    assert(c@.subrange(0, i as int) =~= c@);
}

} // verus!
