//! Total orders and an insertion sort that proves its result sorted and a
//! permutation of its input.

use vstd::prelude::*;
use crate::text::utf8_bytes;

verus! {

broadcast use {vstd::seq_lib::group_to_multiset_ensures, vstd::multiset::group_multiset_axioms};

/// A type with a total preorder `le`, decided by `less_or_equal`.
pub trait TotalOrder: Sized {
    spec fn le(self, other: Self) -> bool;

    proof fn lemma_reflexive(x: Self)
        ensures
            x.le(x),
    ;

    proof fn lemma_transitive(x: Self, y: Self, z: Self)
        requires
            x.le(y),
            y.le(z),
        ensures
            x.le(z),
    ;

    proof fn lemma_total(x: Self, y: Self)
        ensures
            x.le(y) || y.le(x),
    ;

    fn less_or_equal(&self, other: &Self) -> (r: bool)
        ensures
            r == self.le(*other),
    ;
}

/// Every element is `le` every later one.
pub open spec fn sorted<T: TotalOrder>(s: Seq<T>) -> bool {
    forall|i: int, j: int| 0 <= i < j < s.len() ==> (#[trigger] s[i]).le(#[trigger] s[j])
}

/// Every element is `le` every earlier one.
pub open spec fn sorted_descending<T: TotalOrder>(s: Seq<T>) -> bool {
    forall|i: int, j: int| 0 <= i < j < s.len() ==> (#[trigger] s[j]).le(#[trigger] s[i])
}

/// Lexicographic order on byte strings, as `[u8]` and `str` compare.
pub open spec fn bytes_le(a: Seq<u8>, b: Seq<u8>) -> bool
    decreases a.len(),
{
    if a.len() == 0 {
        true
    } else if b.len() == 0 {
        false
    } else if a[0] != b[0] {
        a[0] < b[0]
    } else {
        bytes_le(a.drop_first(), b.drop_first())
    }
}

pub proof fn lemma_bytes_le_reflexive(a: Seq<u8>)
    ensures
        bytes_le(a, a),
    decreases a.len(),
{
    if a.len() > 0 {
        lemma_bytes_le_reflexive(a.drop_first());
    }
}

pub proof fn lemma_bytes_le_transitive(a: Seq<u8>, b: Seq<u8>, c: Seq<u8>)
    requires
        bytes_le(a, b),
        bytes_le(b, c),
    ensures
        bytes_le(a, c),
    decreases a.len(),
{
    if a.len() > 0 && b.len() > 0 && c.len() > 0 {
        if a[0] == b[0] && b[0] == c[0] {
            lemma_bytes_le_transitive(a.drop_first(), b.drop_first(), c.drop_first());
        }
    }
}

pub proof fn lemma_bytes_le_total(a: Seq<u8>, b: Seq<u8>)
    ensures
        bytes_le(a, b) || bytes_le(b, a),
    decreases a.len(),
{
    if a.len() > 0 && b.len() > 0 && a[0] == b[0] {
        lemma_bytes_le_total(a.drop_first(), b.drop_first());
    }
}

pub proof fn lemma_bytes_le_antisymmetric(a: Seq<u8>, b: Seq<u8>)
    requires
        bytes_le(a, b),
        bytes_le(b, a),
    ensures
        a == b,
    decreases a.len(),
{
    if a.len() > 0 && b.len() > 0 {
        lemma_bytes_le_antisymmetric(a.drop_first(), b.drop_first());
        assert(a =~= seq![a[0]] + a.drop_first());
        assert(b =~= seq![b[0]] + b.drop_first());
    } else {
        assert(a =~= b);
    }
}

/// Byte strings compare at their first difference, the smaller byte first;
/// where one is a prefix of the other, the shorter comes first.
pub proof fn lemma_bytes_le_first_difference(a: Seq<u8>, b: Seq<u8>, k: int)
    requires
        0 <= k <= a.len(),
        k <= b.len(),
        a.subrange(0, k) == b.subrange(0, k),
    ensures
        k < a.len() && k < b.len() && a[k] < b[k] ==> bytes_le(a, b) && !bytes_le(b, a),
        k == a.len() ==> bytes_le(a, b),
        k == a.len() && k < b.len() ==> !bytes_le(b, a),
    decreases k,
{
    if k > 0 {
        assert(a[0] == a.subrange(0, k)[0]);
        assert(b[0] == b.subrange(0, k)[0]);
        assert(a.drop_first().subrange(0, k - 1) =~= a.subrange(0, k).drop_first());
        assert(b.drop_first().subrange(0, k - 1) =~= b.subrange(0, k).drop_first());
        lemma_bytes_le_first_difference(a.drop_first(), b.drop_first(), k - 1);
    }
}

/// How two byte strings compare.
#[derive(Clone, Copy, PartialEq, Eq, Structural, Debug)]
pub enum Order3 {
    Before,
    Same,
    After,
}

/// Compares two byte strings lexicographically.
pub fn compare_bytes(a: &[u8], b: &[u8]) -> (r: Order3)
    ensures
        r == Order3::Same <==> a@ == b@,
        r == Order3::Before ==> bytes_le(a@, b@),
        r == Order3::After ==> bytes_le(b@, a@),
        r != Order3::After <==> bytes_le(a@, b@),
{
    let mut i: usize = 0;
    assert(a@.subrange(0, a@.len() as int) =~= a@);
    assert(b@.subrange(0, b@.len() as int) =~= b@);
    while i < a.len() && i < b.len()
        invariant
            i <= a.len(),
            i <= b.len(),
            a@.subrange(0, i as int) == b@.subrange(0, i as int),
            bytes_le(a@, b@) == bytes_le(
                a@.subrange(i as int, a@.len() as int),
                b@.subrange(i as int, b@.len() as int),
            ),
            bytes_le(b@, a@) == bytes_le(
                b@.subrange(i as int, b@.len() as int),
                a@.subrange(i as int, a@.len() as int),
            ),
        decreases a.len() - i,
    {
        let ghost ra = a@.subrange(i as int, a@.len() as int);
        let ghost rb = b@.subrange(i as int, b@.len() as int);
        if a[i] != b[i] {
            assert(ra[0] == a@[i as int]);
            assert(rb[0] == b@[i as int]);
            proof {
                if a@ == b@ {
                    assert(a@[i as int] == b@[i as int]);
                }
            }
            if a[i] < b[i] {
                return Order3::Before;
            } else {
                return Order3::After;
            }
        }
        proof {
            assert(ra.drop_first() =~= a@.subrange(i + 1, a@.len() as int));
            assert(rb.drop_first() =~= b@.subrange(i + 1, b@.len() as int));
            assert(a@.subrange(0, i + 1) =~= a@.subrange(0, i as int).push(a@[i as int]));
            assert(b@.subrange(0, i + 1) =~= b@.subrange(0, i as int).push(b@[i as int]));
        }
        i = i + 1;
    }
    proof {
        assert(a@.subrange(i as int, a@.len() as int).len() == a@.len() - i);
        assert(b@.subrange(i as int, b@.len() as int).len() == b@.len() - i);
    }
    if a.len() == b.len() {
        assert(a@ =~= a@.subrange(0, i as int));
        assert(b@ =~= b@.subrange(0, i as int));
        proof { lemma_bytes_le_reflexive(a@); }
        Order3::Same
    } else if a.len() < b.len() {
        proof {
            if a@ == b@ {
                assert(a@.len() == b@.len());
            }
        }
        Order3::Before
    } else {
        proof {
            if a@ == b@ {
                assert(a@.len() == b@.len());
            }
        }
        Order3::After
    }
}

/// Strings order by their UTF-8 bytes, as `String`'s `Ord` does.
impl TotalOrder for String {
    open spec fn le(self, other: Self) -> bool {
        bytes_le(utf8_bytes(self@), utf8_bytes(other@))
    }

    proof fn lemma_reflexive(x: Self) {
        lemma_bytes_le_reflexive(utf8_bytes(x@));
    }

    proof fn lemma_transitive(x: Self, y: Self, z: Self) {
        lemma_bytes_le_transitive(utf8_bytes(x@), utf8_bytes(y@), utf8_bytes(z@));
    }

    proof fn lemma_total(x: Self, y: Self) {
        lemma_bytes_le_total(utf8_bytes(x@), utf8_bytes(y@));
    }

    fn less_or_equal(&self, other: &Self) -> (r: bool) {
        let a = self.as_str().as_bytes();
        let b = other.as_str().as_bytes();
        match compare_bytes(a, b) {
            Order3::After => false,
            _ => true,
        }
    }
}

/// Inserting an element into a sequence adds it to the multiset.
proof fn lemma_insert_to_multiset<T>(s: Seq<T>, i: int, a: T)
    requires
        0 <= i <= s.len(),
    ensures
        s.insert(i, a).to_multiset() =~= s.to_multiset().insert(a),
{
    let t = s.insert(i, a);
    assert(t.remove(i) =~= s);
    assert(t[i] == a);
    assert(t.to_multiset().count(a) > 0) by {
        assert(t.contains(a));
    }
}

/// Sorts `v` into `le` order; the result holds exactly the input's elements.
pub fn sort_ascending<T: TotalOrder>(v: Vec<T>) -> (r: Vec<T>)
    ensures
        sorted(r@),
        r@.to_multiset() == v@.to_multiset(),
{
    let ghost orig = v@;
    let mut input = v;
    let mut out: Vec<T> = Vec::new();
    while input.len() > 0
        invariant
            sorted(out@),
            out@.to_multiset().add(input@.to_multiset()) == orig.to_multiset(),
        decreases input.len(),
    {
        let ghost before = input@;
        let x = input.pop().unwrap();
        proof {
            assert(before =~= input@.push(x));
        }
        let mut j: usize = 0;
        while j < out.len() && out[j].less_or_equal(&x)
            invariant
                j <= out.len(),
                forall|k: int| 0 <= k < j ==> (#[trigger] out@[k]).le(x),
            decreases out.len() - j,
        {
            j = j + 1;
        }
        proof {
            if j < out.len() {
                T::lemma_total(out@[j as int], x);
                assert forall|k: int| j <= k < out@.len() implies x.le(#[trigger] out@[k]) by {
                    if k > j {
                        T::lemma_transitive(x, out@[j as int], out@[k]);
                    }
                }
            }
        }
        let ghost prev = out@;
        out.insert(j, x);
        proof {
            lemma_insert_to_multiset(prev, j as int, x);
            assert forall|a: int, b: int| 0 <= a < b < out@.len() implies (#[trigger] out@[a]).le(
                #[trigger] out@[b],
            ) by {
                if b < j {
                } else if a < j && b == j {
                } else if a < j && b > j {
                    T::lemma_transitive(out@[a], x, out@[b]);
                } else if a == j {
                } else {
                }
            }
            assert(out@.to_multiset().add(input@.to_multiset()) =~= orig.to_multiset());
        }
    }
    proof {
        assert(input@.to_multiset() =~= vstd::multiset::Multiset::empty());
        assert(out@.to_multiset().add(input@.to_multiset()) =~= out@.to_multiset());
    }
    out
}

/// The elements of `v` in reverse order.
pub fn reverse<T>(v: Vec<T>) -> (r: Vec<T>)
    ensures
        r@ == v@.reverse(),
{
    let ghost orig = v@;
    let mut input = v;
    let mut out: Vec<T> = Vec::new();
    while input.len() > 0
        invariant
            input@ == orig.subrange(0, input@.len() as int),
            out@.len() + input@.len() == orig.len(),
            forall|k: int| 0 <= k < out@.len() ==> #[trigger] out@[k] == orig[orig.len() - 1 - k],
        decreases input.len(),
    {
        let x = input.pop().unwrap();
        out.push(x);
    }
    assert(out@ =~= orig.reverse());
    out
}

/// Sorts `v` so that every element is `le` every earlier one (the order
/// that `sort_unstable_by(|a, b| b.cmp(a))` gives).
pub fn sort_descending<T: TotalOrder>(v: Vec<T>) -> (r: Vec<T>)
    ensures
        sorted_descending(r@),
        r@.to_multiset() == v@.to_multiset(),
{
    let ascending = sort_ascending(v);
    let r = reverse(ascending);
    proof {
        ascending@.lemma_reverse_to_multiset();
        assert forall|i: int, j: int| 0 <= i < j < r@.len() implies (#[trigger] r@[j]).le(
            #[trigger] r@[i],
        ) by {
            let n = ascending@.len();
            assert(r@[i] == ascending@[n - 1 - i]);
            assert(r@[j] == ascending@[n - 1 - j]);
        }
    }
    r
}

} // verus!
