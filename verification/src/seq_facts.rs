use vstd::prelude::*;
use vstd::seq_lib::lemma_multiset_commutative;

verus! {

broadcast use {vstd::seq_lib::group_to_multiset_ensures, vstd::multiset::group_multiset_axioms};

/// Swapping the values at two positions of a sequence leaves its multiset
/// unchanged.
pub proof fn lemma_swap_multiset(s: Seq<u64>, i: int, j: int)
    requires
        0 <= i < s.len(),
        0 <= j < s.len(),
    ensures
        s.update(i, s[j]).update(j, s[i]).to_multiset() == s.to_multiset(),
{
    let s1 = s.update(i, s[j]);
    let s2 = s1.update(j, s[i]);
    if i == j {
        assert(s2 =~= s);
    } else {
        assert(s1[j] == s[j]);
        assert(s.contains(s[i])) by {
            assert(s[i] == s[i]);
        }
        assert(s1.contains(s[j])) by {
            assert(s1[j] == s[j]);
        }
        assert(s2.to_multiset() =~= s.to_multiset()) by {
            assert(s1.to_multiset() == s.to_multiset().insert(s[j]).remove(s[i]));
            assert(s2.to_multiset() == s1.to_multiset().insert(s[i]).remove(s[j]));
            assert forall|x: u64| s2.to_multiset().count(x) == s.to_multiset().count(x) by {
                assert(s.to_multiset().count(s[i]) > 0);
            }
        }
    }
}

/// A subrange of an updated sequence is the updated subrange when the index
/// falls inside it.
pub proof fn lemma_subrange_update_inside(s: Seq<u64>, lo: int, hi: int, i: int, a: u64)
    requires
        0 <= lo <= i < hi <= s.len(),
    ensures
        s.update(i, a).subrange(lo, hi) == s.subrange(lo, hi).update(i - lo, a),
{
    assert(s.update(i, a).subrange(lo, hi) =~= s.subrange(lo, hi).update(i - lo, a));
}

/// A subrange of an updated sequence is unchanged when the index falls
/// outside it.
pub proof fn lemma_subrange_update_outside(s: Seq<u64>, lo: int, hi: int, i: int, a: u64)
    requires
        0 <= lo <= hi <= s.len(),
        0 <= i < s.len(),
        i < lo || hi <= i,
    ensures
        s.update(i, a).subrange(lo, hi) == s.subrange(lo, hi),
{
    assert(s.update(i, a).subrange(lo, hi) =~= s.subrange(lo, hi));
}

/// Two sequences of the same length that agree outside `[lo, hi)` and whose
/// `[lo, hi)` spans carry the same multiset carry the same multiset on any
/// enclosing span `[lo2, hi2)`.
pub proof fn lemma_multiset_span_frame(
    s1: Seq<u64>,
    s2: Seq<u64>,
    lo: int,
    hi: int,
    lo2: int,
    hi2: int,
)
    requires
        s1.len() == s2.len(),
        0 <= lo2 <= lo <= hi <= hi2 <= s1.len(),
        forall|k: int| 0 <= k < s1.len() && !(lo <= k < hi) ==> s1[k] == s2[k],
        s1.subrange(lo, hi).to_multiset() == s2.subrange(lo, hi).to_multiset(),
    ensures
        s1.subrange(lo2, hi2).to_multiset() == s2.subrange(lo2, hi2).to_multiset(),
{
    let a1 = s1.subrange(lo2, lo);
    let b1 = s1.subrange(lo, hi);
    let c1 = s1.subrange(hi, hi2);
    let a2 = s2.subrange(lo2, lo);
    let b2 = s2.subrange(lo, hi);
    let c2 = s2.subrange(hi, hi2);
    assert(a1 =~= a2);
    assert(c1 =~= c2);
    assert(s1.subrange(lo2, hi2) =~= (a1 + b1) + c1);
    assert(s2.subrange(lo2, hi2) =~= (a2 + b2) + c2);
    lemma_multiset_commutative(a1 + b1, c1);
    lemma_multiset_commutative(a2 + b2, c2);
    lemma_multiset_commutative(a1, b1);
    lemma_multiset_commutative(a2, b2);
}

/// Every value of a span occurs in the span's multiset.
pub proof fn lemma_span_contains(s: Seq<u64>, lo: int, hi: int, i: int)
    requires
        0 <= lo <= i < hi <= s.len(),
    ensures
        s.subrange(lo, hi).to_multiset().count(s[i]) > 0,
{
    let b = s.subrange(lo, hi);
    assert(b[i - lo] == s[i]);
    assert(b.contains(s[i]));
}

/// Conversely, a value carried by a span's multiset occurs at some index of
/// the span.
pub proof fn lemma_span_index_of(s: Seq<u64>, lo: int, hi: int, x: u64) -> (i: int)
    requires
        0 <= lo <= hi <= s.len(),
        s.subrange(lo, hi).to_multiset().count(x) > 0,
    ensures
        lo <= i < hi,
        s[i] == x,
{
    let b = s.subrange(lo, hi);
    assert(b.contains(x));
    let j = choose|j: int| 0 <= j < b.len() && b[j] == x;
    assert(s[j + lo] == x);
    j + lo
}

} // verus!
