//! An in-place, array-backed priority structure: the core of Dijkstra's
//! smoothsort algorithm.
//!
//! The backing array is partitioned into a sequence of sub-heaps whose sizes
//! are Leonardo numbers.  A 64-bit [`layout::Layout`] bitmask records which
//! orders are present, and the balancing procedures in this crate restore the
//! max-heap property of each sub-heap and the non-decreasing-root property
//! across the top level after every mutation.

use vstd::prelude::*;

pub mod layout;
pub mod leonardo;
pub mod seq_facts;
pub mod subheap;

use vstd::std_specs::bits::u64_trailing_zeros;
use crate::layout::{
    adjacent_pair, has_order, is_lowest_order, lemma_clear_set_restore, lemma_has_order_clear,
    lemma_has_order_set, lemma_lowest, lemma_lowest_unique,
    lemma_mask_sum_from_clear, lemma_mask_sum_from_lower, lemma_mask_sum_from_of_zero,
    lemma_mask_sum_from_set, lemma_mask_sum_zero, lemma_set2_clear2, lemma_set_clear_cancel,
    lemma_xor_clear, mask_sum, max_layout_len, pop_mask, push_mask, shape_ok, IterMut, Layout,
};
use crate::leonardo::{lemma_leonardo_monotone, leonardo_spec};
use crate::seq_facts::{
    lemma_multiset_span_frame, lemma_span_contains, lemma_span_index_of,
    lemma_subrange_update_inside, lemma_swap_multiset,
};
use crate::subheap::{heap_ok, lemma_heap_ok_frame, lemma_heap_root_max, SubHeapMut};

verus! {

/// Every top-level sub-heap described by mask `m` over the array prefix
/// ending at `end` satisfies the max-heap property.  The lowest order owns
/// the trailing span; the remaining orders partition what precedes it.
pub open spec fn all_heaps(s: Seq<u64>, m: u64, end: int) -> bool
    decreases m,
    via all_heaps_decreases
{
    if m == 0 {
        true
    } else {
        let k = u64_trailing_zeros(m) as int;
        let start = end - leonardo_spec(k);
        &&& heap_ok(s, start, k)
        &&& all_heaps(s, m & !(1u64 << (k as u64)), start)
    }
}

#[via_fn]
proof fn all_heaps_decreases(s: Seq<u64>, m: u64, end: int) {
    if m != 0 {
        lemma_lowest(m);
        lemma_xor_clear(m, u64_trailing_zeros(m) as u64);
    }
}

/// The stringing property: read from the smallest sub-heap (at the end of
/// the array) toward the largest, the root values never increase, so the
/// overall maximum sits at the very end of the array.
pub open spec fn stringed(s: Seq<u64>, m: u64, end: int) -> bool
    decreases m,
    via stringed_decreases
{
    if m == 0 {
        true
    } else {
        let k = u64_trailing_zeros(m) as int;
        let start = end - leonardo_spec(k);
        let rest = m & !(1u64 << (k as u64));
        &&& (rest != 0 ==> s[end - 1] >= s[start - 1])
        &&& stringed(s, rest, start)
    }
}

#[via_fn]
proof fn stringed_decreases(s: Seq<u64>, m: u64, end: int) {
    if m != 0 {
        lemma_lowest(m);
        lemma_xor_clear(m, u64_trailing_zeros(m) as u64);
    }
}

/// The stringing property of everything but the smallest sub-heap: what a
/// single `restring` pass requires in order to restore the full property.
pub open spec fn stringed_after_first(s: Seq<u64>, m: u64, end: int) -> bool {
    if m == 0 {
        true
    } else {
        let k = u64_trailing_zeros(m) as int;
        stringed(s, m & !(1u64 << (k as u64)), end - leonardo_spec(k))
    }
}

/// `all_heaps` reads only the prefix `[end - mask_sum(m), end)`.
pub proof fn lemma_all_heaps_frame(s1: Seq<u64>, s2: Seq<u64>, m: u64, end: int)
    requires
        forall|i: int| end - mask_sum(m) <= i < end ==> s1[i] == s2[i],
    ensures
        all_heaps(s1, m, end) == all_heaps(s2, m, end),
    decreases m,
{
    if m != 0 {
        lemma_lowest(m);
        let k = u64_trailing_zeros(m) as int;
        let start = end - leonardo_spec(k);
        lemma_xor_clear(m, k as u64);
        lemma_mask_sum_from_clear(m, k, 0);
        lemma_mask_sum_from_lower(m, k, 0);
        lemma_heap_ok_frame(s1, s2, start, k);
        lemma_all_heaps_frame(s1, s2, m & !(1u64 << (k as u64)), start);
    }
}

/// `stringed` reads only the prefix `[end - mask_sum(m), end)`.
pub proof fn lemma_stringed_frame(s1: Seq<u64>, s2: Seq<u64>, m: u64, end: int)
    requires
        forall|i: int| end - mask_sum(m) <= i < end ==> s1[i] == s2[i],
    ensures
        stringed(s1, m, end) == stringed(s2, m, end),
    decreases m,
{
    if m != 0 {
        lemma_lowest(m);
        let k = u64_trailing_zeros(m) as int;
        let start = end - leonardo_spec(k);
        let rest = m & !(1u64 << (k as u64));
        lemma_xor_clear(m, k as u64);
        lemma_mask_sum_from_clear(m, k, 0);
        lemma_mask_sum_from_lower(m, k, 0);
        lemma_stringed_frame(s1, s2, rest, start);
        if rest != 0 {
            lemma_lowest(rest);
            let k2 = u64_trailing_zeros(rest) as int;
            lemma_mask_sum_from_lower(rest, k2, 0);
        }
    }
}

/// In a fully balanced prefix the last element is the maximum: every
/// element lies in some sub-heap, roots dominate their sub-heaps, and the
/// stringing chain carries each root up to the last element.
pub proof fn lemma_last_is_max(s: Seq<u64>, m: u64, end: int, i: int)
    requires
        all_heaps(s, m, end),
        stringed(s, m, end),
        mask_sum(m) == end,
        0 <= i < end,
    ensures
        s[i] <= s[end - 1],
    decreases m,
{
    if m == 0 {
        lemma_mask_sum_from_of_zero(0);
        assert(false);
    } else {
        lemma_lowest(m);
        let k = u64_trailing_zeros(m) as int;
        let start = end - leonardo_spec(k);
        let rest = m & !(1u64 << (k as u64));
        lemma_xor_clear(m, k as u64);
        lemma_mask_sum_from_clear(m, k, 0);
        if i >= start {
            lemma_heap_root_max(s, start, k, i);
        } else {
            lemma_last_is_max(s, rest, start, i);
            assert(rest != 0) by {
                if rest == 0 {
                    lemma_mask_sum_from_of_zero(0);
                }
            }
        }
    }
}

/// The exact result of the restring walk standing at the settled sub-heap
/// of order `ot` whose span starts at `ts`, with the orders of `m_iter`
/// still to its left: while the next root exceeds the settled one, swap
/// the two roots, sift the disturbed sub-heap, and move on to it.
pub open spec fn restring_chain_spec(s: Seq<u64>, m_iter: u64, ts: int, ot: int) -> Seq<u64>
    decreases m_iter,
    via restring_chain_spec_decreases
{
    if m_iter == 0 {
        s
    } else {
        let on = u64_trailing_zeros(m_iter) as int;
        let ns = ts - leonardo_spec(on);
        let tr = ts + leonardo_spec(ot) - 1;
        let nr = ts - 1;
        if s[nr] <= s[tr] {
            s
        } else {
            let s1 = s.update(tr, s[nr]).update(nr, s[tr]);
            let s2 = sift_down_spec(s1, ns, on);
            restring_chain_spec(s2, m_iter & !(1u64 << (on as u64)), ns, on)
        }
    }
}

#[via_fn]
proof fn restring_chain_spec_decreases(s: Seq<u64>, m_iter: u64, ts: int, ot: int) {
    if m_iter != 0 {
        lemma_lowest(m_iter);
        lemma_xor_clear(m_iter, u64_trailing_zeros(m_iter) as u64);
    }
}

/// The exact result of `restring` over the sub-heaps of mask `m` in the
/// prefix ending at `end`.
pub open spec fn restring_spec(s: Seq<u64>, m: u64, end: int) -> Seq<u64> {
    if m == 0 {
        s
    } else {
        let k = u64_trailing_zeros(m) as int;
        restring_chain_spec(s, m & !(1u64 << (k as u64)), end - leonardo_spec(k), k)
    }
}

/// The cursor state of a restring pass: `this` is the sub-heap most
/// recently taken from the iterator, and every remaining order is larger.
spec fn chain_wf(iter: &IterMut, this: SubHeapMut) -> bool {
    &&& iter.wf()
    &&& this.start == iter.spec_end()
    &&& this.order < 64
    &&& forall|k: int| #[trigger] has_order(iter.mask(), k) ==> k > this.order
}

/// The orders still in the iterator together with the one held as `this`.
spec fn chain_mask(iter: &IterMut, this: SubHeapMut) -> u64 {
    iter.mask() | (1u64 << (this.order as u64))
}

/// `chain_mask` is a mask whose lowest order is `this.order` and whose sum
/// reaches from 0 to the end of `this`.
proof fn lemma_chain_mask(iter: &IterMut, this: SubHeapMut)
    requires
        chain_wf(iter, this),
    ensures
        is_lowest_order(chain_mask(iter, this), this.order as int),
        u64_trailing_zeros(chain_mask(iter, this)) == this.order,
        chain_mask(iter, this) != 0,
        mask_sum(chain_mask(iter, this)) == this.spec_end(),
        chain_mask(iter, this) & !(1u64 << (this.order as u64)) == iter.mask(),
{
    let o = this.order as int;
    let m = iter.mask();
    assert(!has_order(m, o));
    lemma_has_order_set(m, o);
    lemma_mask_sum_from_set(m, o, 0);
    assert forall|j: int| 0 <= j < o implies !has_order(chain_mask(iter, this), j) by {
        assert(!has_order(m, j));
    }
    lemma_lowest_unique(chain_mask(iter, this), o);
    lemma_set_clear_cancel(m, this.order as u64);
}

/// After swapping the roots of `this` (span `[ts, ts + L(ot))`) and `next`
/// (span ending at `ts`), `this` is still a heap, the children of `next`
/// are still heaps, and the prefix was only permuted.
proof fn lemma_restring_swap(s0: Seq<u64>, ts: int, ot: int, on: int)
    requires
        0 <= ts - leonardo_spec(on),
        0 < ts,
        ts + leonardo_spec(ot) <= s0.len(),
        0 <= ot,
        0 <= on < 64,
        heap_ok(s0, ts, ot),
        heap_ok(s0, ts - leonardo_spec(on), on),
        s0[ts + leonardo_spec(ot) - 1] < s0[ts - 1],
    ensures
        ({
            let end_t = ts + leonardo_spec(ot);
            let ns = ts - leonardo_spec(on);
            let s1 = s0.update(end_t - 1, s0[ts - 1]).update(ts - 1, s0[end_t - 1]);
            &&& s1.len() == s0.len()
            &&& children_ok(s1, ns, on)
            &&& heap_ok(s1, ts, ot)
            &&& s1.subrange(0, end_t).to_multiset() == s0.subrange(0, end_t).to_multiset()
            &&& forall|i: int|
                0 <= i < s0.len() && i != ts - 1 && i != end_t - 1 ==> s1[i] == s0[i]
        }),
{
    let end_t = ts + leonardo_spec(ot);
    let ns = ts - leonardo_spec(on);
    let nv = s0[ts - 1];
    let tv = s0[end_t - 1];
    let s1 = s0.update(end_t - 1, nv).update(ts - 1, tv);
    assert(leonardo_spec(ot) >= 1);
    assert(leonardo_spec(on) >= 1);
    if on > 1 {
        assert(leonardo_spec(on) == leonardo_spec(on - 1) + leonardo_spec(on - 2) + 1);
        assert(heap_ok(s0, ns, on - 1));
        assert(heap_ok(s0, ns + leonardo_spec(on - 1), on - 2));
        lemma_heap_ok_frame(s0, s1, ns, on - 1);
        lemma_heap_ok_frame(s0, s1, ns + leonardo_spec(on - 1), on - 2);
    }
    if ot > 1 {
        assert(leonardo_spec(ot) == leonardo_spec(ot - 1) + leonardo_spec(ot - 2) + 1);
        assert(heap_ok(s0, ts, ot - 1));
        assert(heap_ok(s0, ts + leonardo_spec(ot - 1), ot - 2));
        lemma_heap_ok_frame(s0, s1, ts, ot - 1);
        lemma_heap_ok_frame(s0, s1, ts + leonardo_spec(ot - 1), ot - 2);
        assert(s1[end_t - 1] == nv);
        assert(s1[ts + leonardo_spec(ot - 1) - 1] == s0[ts + leonardo_spec(ot - 1) - 1]);
        assert(s1[ts + leonardo_spec(ot - 1) + leonardo_spec(ot - 2) - 1] == s0[ts
            + leonardo_spec(ot - 1) + leonardo_spec(ot - 2) - 1]);
    }
    assert(heap_ok(s1, ts, ot));
    // The swap permutes the prefix.
    let sub0 = s0.subrange(0, end_t);
    lemma_subrange_update_inside(s0, 0, end_t, end_t - 1, nv);
    lemma_subrange_update_inside(s0.update(end_t - 1, nv), 0, end_t, ts - 1, tv);
    assert(s1.subrange(0, end_t) == sub0.update(end_t - 1, sub0[ts - 1]).update(
        ts - 1,
        sub0[end_t - 1],
    ));
    lemma_swap_multiset(sub0, end_t - 1, ts - 1);
}

/// After `sift_down` has repaired `next`, the whole remaining chain of
/// sub-heaps is balanced again and its tail is still stringed, so the
/// recursive restring step may proceed.
proof fn lemma_restring_sifted(
    s0: Seq<u64>,
    s1: Seq<u64>,
    s2: Seq<u64>,
    ts: int,
    ot: int,
    on: int,
    m_iter: u64,
)
    requires
        0 <= ts - leonardo_spec(on),
        0 < ts,
        ts + leonardo_spec(ot) <= s0.len(),
        0 <= ot,
        0 <= on < 64,
        s0.len() == s1.len() && s1.len() == s2.len(),
        is_lowest_order(m_iter, on),
        mask_sum(m_iter) == ts,
        all_heaps(s0, m_iter, ts),
        stringed(s0, m_iter, ts),
        forall|i: int|
            0 <= i < s0.len() && i != ts - 1 && i != ts + leonardo_spec(ot) - 1 ==> s1[i]
                == s0[i],
        forall|i: int|
            0 <= i < s1.len() && !(ts - leonardo_spec(on) <= i < ts) ==> s2[i] == s1[i],
        heap_ok(s2, ts - leonardo_spec(on), on),
        s2.subrange(ts - leonardo_spec(on), ts).to_multiset() == s1.subrange(
            ts - leonardo_spec(on),
            ts,
        ).to_multiset(),
    ensures
        all_heaps(s2, m_iter, ts),
        stringed(s2, m_iter & !(1u64 << (on as u64)), ts - leonardo_spec(on)),
        mask_sum(m_iter & !(1u64 << (on as u64))) == ts - leonardo_spec(on),
        s2.subrange(0, ts).to_multiset() == s1.subrange(0, ts).to_multiset(),
{
    let ns = ts - leonardo_spec(on);
    let m_rest = m_iter & !(1u64 << (on as u64));
    lemma_lowest_unique(m_iter, on);
    lemma_xor_clear(m_iter, on as u64);
    lemma_mask_sum_from_clear(m_iter, on, 0);
    assert(leonardo_spec(on) >= 1);
    assert(all_heaps(s0, m_rest, ns));
    assert(stringed(s0, m_rest, ns));
    assert forall|i: int| ns - mask_sum(m_rest) <= i < ns implies s2[i] == s0[i] by {
        assert(s1[i] == s0[i]);
    }
    lemma_all_heaps_frame(s0, s2, m_rest, ns);
    lemma_stringed_frame(s0, s2, m_rest, ns);
    assert(all_heaps(s2, m_iter, ts));
    lemma_multiset_span_frame(s2, s1, ns, ts, 0, ts);
}

/// Once the recursive restring of the tail returns, the full chain from
/// `this` leftward is balanced and stringed, and the new root of the tail
/// cannot exceed the root hoisted into `this`.
proof fn lemma_restring_compose(
    s0: Seq<u64>,
    s1: Seq<u64>,
    s2: Seq<u64>,
    s3: Seq<u64>,
    ts: int,
    ot: int,
    on: int,
    m_iter: u64,
    m_t: u64,
)
    requires
        0 <= ts - leonardo_spec(on),
        0 < ts,
        ts + leonardo_spec(ot) <= s0.len(),
        0 <= ot,
        0 <= on < 64,
        s0.len() == s1.len() && s1.len() == s2.len() && s2.len() == s3.len(),
        is_lowest_order(m_t, ot),
        m_t & !(1u64 << (ot as u64)) == m_iter,
        is_lowest_order(m_iter, on),
        mask_sum(m_iter) == ts,
        stringed(s0, m_iter, ts),
        heap_ok(s0, ts - leonardo_spec(on), on),
        s0[ts + leonardo_spec(ot) - 1] < s0[ts - 1],
        s1 == s0.update(ts + leonardo_spec(ot) - 1, s0[ts - 1]).update(
            ts - 1,
            s0[ts + leonardo_spec(ot) - 1],
        ),
        heap_ok(s1, ts, ot),
        s1.subrange(0, ts + leonardo_spec(ot)).to_multiset() == s0.subrange(
            0,
            ts + leonardo_spec(ot),
        ).to_multiset(),
        forall|i: int|
            0 <= i < s1.len() && !(ts - leonardo_spec(on) <= i < ts) ==> s2[i] == s1[i],
        s2.subrange(ts - leonardo_spec(on), ts).to_multiset() == s1.subrange(
            ts - leonardo_spec(on),
            ts,
        ).to_multiset(),
        forall|k: int| ts <= k < s2.len() ==> s3[k] == s2[k],
        s3.subrange(0, ts).to_multiset() == s2.subrange(0, ts).to_multiset(),
        all_heaps(s3, m_iter, ts),
        stringed(s3, m_iter, ts),
        s3[ts - 1] == s2[ts - 1] || (m_iter & !(1u64 << (on as u64)) != 0 && s3[ts - 1]
            == s2[ts - leonardo_spec(on) - 1]),
    ensures
        all_heaps(s3, m_t, ts + leonardo_spec(ot)),
        stringed(s3, m_t, ts + leonardo_spec(ot)),
        s3.subrange(0, ts + leonardo_spec(ot)).to_multiset() == s0.subrange(
            0,
            ts + leonardo_spec(ot),
        ).to_multiset(),
        forall|k: int| ts + leonardo_spec(ot) <= k < s0.len() ==> s3[k] == s0[k],
        s3[ts + leonardo_spec(ot) - 1] == s0[ts - 1],
    decreases 0int,
{
    let end_t = ts + leonardo_spec(ot);
    let ns = ts - leonardo_spec(on);
    let m_rest = m_iter & !(1u64 << (on as u64));
    let nv = s0[ts - 1];
    let tv = s0[end_t - 1];
    assert(leonardo_spec(ot) >= 1);
    assert(leonardo_spec(on) >= 1);
    lemma_lowest_unique(m_t, ot);
    lemma_lowest_unique(m_iter, on);
    lemma_xor_clear(m_iter, on as u64);
    lemma_mask_sum_from_clear(m_iter, on, 0);

    // The hoisted root is untouched by the sift and by the recursion.
    assert(s1[end_t - 1] == nv);
    assert(s2[end_t - 1] == nv);
    assert(s3[end_t - 1] == nv);

    // `this` stays a heap: the sift and the recursion never write its span.
    lemma_heap_ok_frame(s1, s2, ts, ot);
    lemma_heap_ok_frame(s2, s3, ts, ot);
    assert(heap_ok(s3, ts, ot));
    assert(all_heaps(s3, m_t, end_t));

    // The tail root after the recursion cannot exceed the hoisted value.
    assert(s3[ts - 1] <= nv) by {
        if s3[ts - 1] == s2[ts - 1] {
            lemma_span_contains(s2, ns, ts, ts - 1);
            let j = lemma_span_index_of(s1, ns, ts, s2[ts - 1]);
            if j == ts - 1 {
                assert(s1[j] == tv);
            } else {
                assert(s1[j] == s0[j]);
                lemma_heap_root_max(s0, ns, on, j);
            }
        } else {
            assert(m_rest != 0 && s3[ts - 1] == s2[ns - 1]);
            assert(mask_sum(m_rest) == ns);
            lemma_lowest(m_rest);
            lemma_mask_sum_from_lower(m_rest, u64_trailing_zeros(m_rest) as int, 0);
            assert(ns >= 1);
            assert(s2[ns - 1] == s1[ns - 1]);
            assert(s1[ns - 1] == s0[ns - 1]);
            assert(s0[ts - 1] >= s0[ns - 1]);
        }
    }
    assert(stringed(s3, m_t, end_t));

    // The prefix was only ever permuted.
    lemma_multiset_span_frame(s2, s1, ns, ts, 0, end_t);
    lemma_multiset_span_frame(s3, s2, 0, ts, 0, end_t);
}

/// One step of the restring walk, starting from the sub-heap `this` that
/// the caller has just settled: bubble root values toward the end of the
/// array, sifting each disturbed sub-heap, until the chain of roots never
/// increases leftward.
fn restring_rec(data: &mut Vec<u64>, subheap_iter: IterMut, this_subheap: SubHeapMut)
    requires
        chain_wf(&subheap_iter, this_subheap),
        this_subheap.spec_end() <= old(data)@.len(),
        all_heaps(old(data)@, chain_mask(&subheap_iter, this_subheap), this_subheap.spec_end()),
        stringed(old(data)@, subheap_iter.mask(), subheap_iter.spec_end() as int),
    ensures
        final(data)@.len() == old(data)@.len(),
        forall|k: int|
            this_subheap.spec_end() <= k < old(data)@.len() ==> final(data)@[k]
                == old(data)@[k],
        final(data)@.subrange(0, this_subheap.spec_end()).to_multiset()
            == old(data)@.subrange(0, this_subheap.spec_end()).to_multiset(),
        all_heaps(final(data)@, chain_mask(&subheap_iter, this_subheap), this_subheap.spec_end()),
        stringed(final(data)@, chain_mask(&subheap_iter, this_subheap), this_subheap.spec_end()),
        final(data)@[this_subheap.spec_end() - 1] == old(data)@[this_subheap.spec_end() - 1]
            || (subheap_iter.mask() != 0 && final(data)@[this_subheap.spec_end() - 1]
            == old(data)@[subheap_iter.spec_end() - 1]),
        stringed(old(data)@, chain_mask(&subheap_iter, this_subheap), this_subheap.spec_end())
            ==> final(data)@ == old(data)@,
        final(data)@ == restring_chain_spec(
            old(data)@,
            subheap_iter.mask(),
            this_subheap.start as int,
            this_subheap.order as int,
        ),
    decreases subheap_iter.mask(),
{
    let ghost s0 = data@;
    let ghost end_t = this_subheap.spec_end();
    let ghost ts = this_subheap.start as int;
    let ghost ot = this_subheap.order as int;
    let ghost m_iter = subheap_iter.mask();
    let ghost m_t = chain_mask(&subheap_iter, this_subheap);
    proof {
        vstd::std_specs::vec::axiom_spec_len(data);
        lemma_chain_mask(&subheap_iter, this_subheap);
        assert(leonardo_spec(ot) >= 1);
    }
    let mut subheap_iter = subheap_iter;
    match subheap_iter.next() {
        None => {
            proof {
                assert(m_iter == 0);
                assert(stringed(s0, m_t, end_t));
            }
        },
        Some(next_subheap) => {
            let ghost m_rest = subheap_iter.mask();
            let ghost on = next_subheap.order as int;
            let ghost ns = next_subheap.start as int;
            proof {
                assert(ns == ts - leonardo_spec(on));
                assert(leonardo_spec(on) >= 1);
                assert(heap_ok(s0, ns, on)) by {
                    lemma_lowest_unique(m_iter, on);
                    assert(all_heaps(s0, m_iter, ts));
                }
            }
            let next_val = next_subheap.value(data);
            let this_val = this_subheap.value(data);
            if next_val <= this_val {
                // The chain of roots already never increases from here on.
                proof {
                    lemma_lowest_unique(m_iter, on);
                    assert(m_iter != 0);
                    assert(stringed(s0, m_t, end_t));
                }
            } else {
                // Move the larger root toward the end of the array, then
                // repair the sub-heap whose root was displaced.
                proof {
                    assert(heap_ok(s0, ts, ot)) by {
                        assert(all_heaps(s0, m_t, end_t));
                    }
                    // A root out of order means the chain was not stringed,
                    // so the no-op clause is moot.
                    assert(!stringed(s0, m_t, end_t));
                    lemma_restring_swap(s0, ts, ot, on);
                }
                this_subheap.set_value(data, next_val);
                next_subheap.set_value(data, this_val);
                let ghost s1 = data@;
                proof {
                    assert(s1 == s0.update(end_t - 1, s0[ts - 1]).update(ts - 1, s0[end_t - 1]));
                }
                sift_down(data, next_subheap);
                let ghost s2 = data@;
                proof {
                    lemma_lowest_unique(m_iter, on);
                    lemma_restring_sifted(s0, s1, s2, ts, ot, on, m_iter);
                    // The recursive step sees the tail chain, whose first
                    // sub-heap is `next`.
                    lemma_clear_set_restore(m_iter, on as u64);
                    assert(chain_mask(&subheap_iter, next_subheap) == m_iter);
                    assert(chain_wf(&subheap_iter, next_subheap)) by {
                        assert forall|k: int| #[trigger]
                            has_order(m_rest, k) implies k > on by {
                            lemma_has_order_clear(m_iter, on);
                        }
                    }
                    lemma_xor_clear(m_iter, on as u64);
                    assert(m_rest < m_iter);
                }
                restring_rec(data, subheap_iter, next_subheap);
                proof {
                    lemma_restring_compose(s0, s1, s2, data@, ts, ot, on, m_iter, m_t);
                }
            }
        },
    }
}

/// Restores the stringing property across the top-level sub-heaps that an
/// iterator walks: every sub-heap must already satisfy the heap property,
/// and the roots of all but the smallest must already be in order.
pub fn restring(data: &mut Vec<u64>, subheap_iter: IterMut)
    requires
        subheap_iter.wf(),
        subheap_iter.spec_end() <= old(data)@.len(),
        all_heaps(old(data)@, subheap_iter.mask(), subheap_iter.spec_end() as int),
        stringed_after_first(old(data)@, subheap_iter.mask(), subheap_iter.spec_end() as int),
    ensures
        final(data)@.len() == old(data)@.len(),
        forall|k: int|
            subheap_iter.spec_end() <= k < old(data)@.len() ==> final(data)@[k]
                == old(data)@[k],
        final(data)@.subrange(0, subheap_iter.spec_end() as int).to_multiset()
            == old(data)@.subrange(0, subheap_iter.spec_end() as int).to_multiset(),
        all_heaps(final(data)@, subheap_iter.mask(), subheap_iter.spec_end() as int),
        stringed(final(data)@, subheap_iter.mask(), subheap_iter.spec_end() as int),
        stringed(old(data)@, subheap_iter.mask(), subheap_iter.spec_end() as int)
            ==> final(data)@ == old(data)@,
        final(data)@ == restring_spec(
            old(data)@,
            subheap_iter.mask(),
            subheap_iter.spec_end() as int,
        ),
{
    let ghost m0 = subheap_iter.mask();
    let ghost end0 = subheap_iter.spec_end() as int;
    let mut subheap_iter = subheap_iter;
    match subheap_iter.next() {
        None => {
        },
        Some(this_subheap) => {
            proof {
                let k = this_subheap.order as int;
                lemma_lowest(m0);
                lemma_clear_set_restore(m0, this_subheap.order as u64);
                assert(chain_mask(&subheap_iter, this_subheap) == m0);
                assert(chain_wf(&subheap_iter, this_subheap)) by {
                    assert forall|j: int| #[trigger]
                        has_order(subheap_iter.mask(), j) implies j > k by {
                        lemma_has_order_clear(m0, k);
                    }
                }
                assert(this_subheap.spec_end() == end0);
            }
            restring_rec(data, subheap_iter, this_subheap);
        },
    }
}

/// The state of the array right after an element was appended and the
/// layout was told to `push`: every old sub-heap is intact and stringed,
/// and the new lowest sub-heap is sound except possibly at its root.
pub open spec fn pre_push_balanced(s: Seq<u64>, m: u64, end: int) -> bool {
    &&& m != 0
    &&& ({
        let k = u64_trailing_zeros(m) as int;
        let start = end - leonardo_spec(k);
        let rest = m & !(1u64 << (k as u64));
        &&& children_ok(s, start, k)
        &&& all_heaps(s, rest, start)
        &&& stringed(s, rest, start)
    })
}

/// The two smallest orders of the mask differ by exactly one: the signature
/// of a `pop` that split a sub-heap into its two children.
pub open spec fn two_lowest_adjacent(m: u64) -> bool {
    &&& m != 0
    &&& ({
        let k = u64_trailing_zeros(m) as int;
        let m1 = m & !(1u64 << (k as u64));
        m1 != 0 && u64_trailing_zeros(m1) as int == k + 1
    })
}

/// The state of the array right after the previous maximum was removed and
/// the layout was told to `pop`: every sub-heap is intact, and the chain of
/// roots is ordered except possibly at the one or two sub-heaps that the
/// pop exposed.
pub open spec fn pre_pop_balanced(s: Seq<u64>, m: u64, end: int) -> bool {
    &&& all_heaps(s, m, end)
    &&& if two_lowest_adjacent(m) {
        let k = u64_trailing_zeros(m) as int;
        stringed_after_first(s, m & !(1u64 << (k as u64)), end - leonardo_spec(k))
    } else {
        stringed(s, m, end)
    }
}

/// The exact result of `balance_after_push`: sift the newest (lowest
/// order) sub-heap, then restring the whole chain of roots.
pub open spec fn balance_after_push_spec(s: Seq<u64>, m: u64, end: int) -> Seq<u64> {
    if m == 0 {
        s
    } else {
        let k = u64_trailing_zeros(m) as int;
        restring_spec(sift_down_spec(s, end - leonardo_spec(k), k), m, end)
    }
}

/// The exact result of `balance_after_pop`: the array untouched unless the
/// two lowest orders are adjacent; then one restring pass without the
/// smallest sub-heap followed by one over the full chain.
pub open spec fn balance_after_pop_spec(s: Seq<u64>, m: u64, end: int) -> Seq<u64> {
    if two_lowest_adjacent(m) {
        let k = u64_trailing_zeros(m) as int;
        restring_spec(
            restring_spec(s, m & !(1u64 << (k as u64)), end - leonardo_spec(k)),
            m,
            end,
        )
    } else {
        s
    }
}

/// Rebalances the prefix described by `layout` after one element has been
/// appended and `layout.push()` has been called: sift the newest sub-heap,
/// then restring the chain of roots.  `sort` and `heapify` call this on a
/// strict prefix of the array; the public entry point demands the lengths
/// match exactly.
fn balance_after_push_prefix(data: &mut Vec<u64>, layout: &Layout)
    requires
        layout.wf(),
        layout.spec_len() <= old(data)@.len(),
        layout.spec_len() > 0,
        pre_push_balanced(old(data)@, layout.mask(), layout.spec_len() as int),
    ensures
        final(data)@.len() == old(data)@.len(),
        forall|k: int|
            layout.spec_len() <= k < old(data)@.len() ==> final(data)@[k] == old(data)@[k],
        final(data)@.subrange(0, layout.spec_len() as int).to_multiset()
            == old(data)@.subrange(0, layout.spec_len() as int).to_multiset(),
        all_heaps(final(data)@, layout.mask(), layout.spec_len() as int),
        stringed(final(data)@, layout.mask(), layout.spec_len() as int),
        final(data)@ == balance_after_push_spec(old(data)@, layout.mask(), layout.spec_len() as int),
{
    let ghost s0 = old(data)@;
    let ghost m = layout.mask();
    let ghost endx = layout.spec_len() as int;
    proof {
        vstd::std_specs::vec::axiom_spec_len(data);
        lemma_lowest(m);
        let k = u64_trailing_zeros(m) as int;
        lemma_xor_clear(m, k as u64);
        lemma_mask_sum_from_clear(m, k, 0);
    }
    let mut first_iter = layout.iter();
    let first = first_iter.next().unwrap();
    sift_down(data, first);
    let ghost s1 = data@;
    proof {
        let k = u64_trailing_zeros(m) as int;
        let start = endx - leonardo_spec(k);
        let rest = m & !(1u64 << (k as u64));
        lemma_all_heaps_frame(s0, s1, rest, start);
        lemma_stringed_frame(s0, s1, rest, start);
        assert(all_heaps(s1, m, endx));
        lemma_multiset_span_frame(s1, s0, start, endx, 0, endx);
    }
    restring(data, layout.iter());
    proof {
        lemma_multiset_span_frame(s1, s0, 0, endx, 0, endx);
    }
}

/// Rebalances the prefix described by `layout` after the previous maximum
/// was removed and `layout.pop()` has been called.  Work is needed only
/// when the two lowest remaining orders are adjacent: exactly the case
/// where the removed root's children became independent top-level
/// sub-heaps; otherwise the array is left untouched.  When triggered, the
/// chain excluding the very first sub-heap is restrung first, then the
/// full chain.  `sort` calls this on a strict prefix of the array; the
/// public entry point demands the lengths match exactly.
fn balance_after_pop_prefix(data: &mut Vec<u64>, layout: &Layout)
    requires
        layout.wf(),
        layout.spec_len() <= old(data)@.len(),
        pre_pop_balanced(old(data)@, layout.mask(), layout.spec_len() as int),
    ensures
        final(data)@.len() == old(data)@.len(),
        forall|k: int|
            layout.spec_len() <= k < old(data)@.len() ==> final(data)@[k] == old(data)@[k],
        final(data)@.subrange(0, layout.spec_len() as int).to_multiset()
            == old(data)@.subrange(0, layout.spec_len() as int).to_multiset(),
        all_heaps(final(data)@, layout.mask(), layout.spec_len() as int),
        stringed(final(data)@, layout.mask(), layout.spec_len() as int),
        !two_lowest_adjacent(layout.mask()) ==> final(data)@ == old(data)@,
        final(data)@ == balance_after_pop_spec(old(data)@, layout.mask(), layout.spec_len() as int),
{
    let ghost s0 = old(data)@;
    let ghost m = layout.mask();
    let ghost endx = layout.spec_len() as int;
    proof {
        vstd::std_specs::vec::axiom_spec_len(data);
        if m != 0 {
            lemma_lowest(m);
            let k = u64_trailing_zeros(m) as int;
            lemma_xor_clear(m, k as u64);
            lemma_mask_sum_from_clear(m, k, 0);
            let m1 = m & !(1u64 << (k as u64));
            if m1 != 0 {
                lemma_lowest(m1);
                lemma_lowest_unique(m, k);
            }
        }
    }
    {
        let mut subheap_iter = layout.iter();
        let a = subheap_iter.next();
        let b = subheap_iter.next();
        match (a, b) {
            (Some(fst), Some(snd)) => {
                proof {
                    lemma_has_order_clear(m, fst.order as int);
                    assert(has_order(m, snd.order as int));
                    assert(snd.order > fst.order);
                }
                if snd.order - fst.order != 1 {
                    proof {
                        assert(!two_lowest_adjacent(m));
                    }
                    return ;
                }
            },
            _ => {
                proof {
                    assert(!two_lowest_adjacent(m));
                }
                return ;
            },
        }
    }
    proof {
        assert(two_lowest_adjacent(m));
    }
    {
        let mut subheaps_from_snd = layout.iter();
        // Consume the first subheap.
        let skipped = subheaps_from_snd.next();
        restring(data, subheaps_from_snd);
    }
    let ghost s1 = data@;
    proof {
        let k = u64_trailing_zeros(m) as int;
        let start = endx - leonardo_spec(k);
        let rest = m & !(1u64 << (k as u64));
        lemma_heap_ok_frame(s0, s1, start, k);
        assert(all_heaps(s1, m, endx));
        lemma_multiset_span_frame(s1, s0, 0, start, 0, endx);
    }
    {
        let subheaps_from_fst = layout.iter();
        restring(data, subheaps_from_fst);
    }
    proof {
        lemma_multiset_span_frame(s1, s0, 0, endx, 0, endx);
    }
}

/// Rebalances the array after one element has been appended and
/// `layout.push()` has been called.  The layout must account for the whole
/// array: handing these entry points an array of the wrong length is a
/// caller bug, excluded here by precondition.
pub fn balance_after_push(data: &mut Vec<u64>, layout: &Layout)
    requires
        layout.wf(),
        layout.spec_len() == old(data)@.len(),
        layout.spec_len() > 0,
        pre_push_balanced(old(data)@, layout.mask(), layout.spec_len() as int),
    ensures
        final(data)@.len() == old(data)@.len(),
        final(data)@.to_multiset() == old(data)@.to_multiset(),
        all_heaps(final(data)@, layout.mask(), layout.spec_len() as int),
        stringed(final(data)@, layout.mask(), layout.spec_len() as int),
        final(data)@ == balance_after_push_spec(old(data)@, layout.mask(), layout.spec_len() as int),
{
    balance_after_push_prefix(data, layout);
    proof {
        let n = layout.spec_len() as int;
        assert(final(data)@.subrange(0, n) =~= final(data)@);
        assert(old(data)@.subrange(0, n) =~= old(data)@);
    }
}

/// Rebalances the array after the previous maximum was removed and
/// `layout.pop()` has been called.  Only does work when the two lowest
/// remaining orders are adjacent: exactly the case where the removed
/// root's two former children became top-level sub-heaps.  Otherwise the
/// array is left completely unchanged.  The layout must account for the
/// whole array: handing these entry points an array of the wrong length is
/// a caller bug, excluded here by precondition.
pub fn balance_after_pop(data: &mut Vec<u64>, layout: &Layout)
    requires
        layout.wf(),
        layout.spec_len() == old(data)@.len(),
        pre_pop_balanced(old(data)@, layout.mask(), layout.spec_len() as int),
    ensures
        final(data)@.len() == old(data)@.len(),
        final(data)@.to_multiset() == old(data)@.to_multiset(),
        all_heaps(final(data)@, layout.mask(), layout.spec_len() as int),
        stringed(final(data)@, layout.mask(), layout.spec_len() as int),
        !two_lowest_adjacent(layout.mask()) ==> final(data)@ == old(data)@,
        final(data)@ == balance_after_pop_spec(old(data)@, layout.mask(), layout.spec_len() as int),
{
    balance_after_pop_prefix(data, layout);
    proof {
        let n = layout.spec_len() as int;
        assert(final(data)@.subrange(0, n) =~= final(data)@);
        assert(old(data)@.subrange(0, n) =~= old(data)@);
    }
}

/// A balanced prefix, one freshly appended slot, and one layout `push`
/// leave the array in exactly the state `balance_after_push` expects.
pub proof fn lemma_push_preserves_balance(s: Seq<u64>, m: u64, end: int)
    requires
        shape_ok(m),
        mask_sum(m) == end - 1,
        mask_sum(m) < max_layout_len(),
        all_heaps(s, m, end - 1),
        stringed(s, m, end - 1),
    ensures
        pre_push_balanced(s, push_mask(m), end),
{
    crate::leonardo::lemma_leonardo_values();
    if m == 0 {
        assert(end == 1) by {
            lemma_mask_sum_from_of_zero(0);
        }
        let m2 = push_mask(m);
        assert(m2 == 2u64);
        assert(2u64 == 0u64 | (1u64 << 1u64)) by (bit_vector);
        lemma_mask_sum_from_of_zero(0);
        lemma_has_order_set(0u64, 1);
        assert(is_lowest_order(m2, 1));
        lemma_lowest_unique(m2, 1);
        lemma_set_clear_cancel(0u64, 1u64);
        assert(m2 & !(1u64 << 1u64) == 0u64);
        assert(children_ok(s, 0, 1));
    } else {
        lemma_lowest(m);
        let k = u64_trailing_zeros(m) as int;
        lemma_mask_sum_from_lower(m, k, 0);
        if k >= 63 {
            lemma_leonardo_monotone(63, k);
            assert(false);
        }
        let m1 = m & !(1u64 << (k as u64));
        lemma_has_order_clear(m, k);
        lemma_mask_sum_from_clear(m, k, 0);
        if has_order(m, k + 1) {
            // Merge: the two lowest sub-heaps become the children of the
            // new sub-heap of order k + 2, whose root is the new element.
            assert(is_lowest_order(m1, k + 1));
            lemma_lowest_unique(m1, k + 1);
            let m2 = m1 & !(1u64 << ((k + 1) as u64));
            lemma_has_order_clear(m1, k + 1);
            lemma_mask_sum_from_clear(m1, k + 1, 0);
            lemma_mask_sum_from_lower(m1, k + 1, 0);
            if k + 2 >= 63 {
                lemma_leonardo_monotone(63, k + 2);
                assert(leonardo_spec(k + 2) == leonardo_spec(k + 1) + leonardo_spec(k) + 1);
                assert(false);
            }
            if has_order(m, k + 2) {
                assert(adjacent_pair(m, k + 1));
                assert(is_lowest_order(m, k + 1));
                assert(false);
            }
            let mp = m2 | (1u64 << ((k + 2) as u64));
            lemma_has_order_set(m2, k + 2);
            assert(push_mask(m) == mp);
            assert(is_lowest_order(mp, k + 2));
            lemma_lowest_unique(mp, k + 2);
            assert(!has_order(m2, k + 2));
            lemma_set_clear_cancel(m2, (k + 2) as u64);
            assert(mp & !(1u64 << ((k + 2) as u64)) == m2);
            // Geometry: the old two lowest spans are the children of the
            // new span of order k + 2.
            assert(leonardo_spec(k + 2) == leonardo_spec(k + 1) + leonardo_spec(k) + 1);
            assert(all_heaps(s, m, end - 1));
            assert(heap_ok(s, end - 1 - leonardo_spec(k), k));
            assert(all_heaps(s, m1, end - 1 - leonardo_spec(k)));
            assert(heap_ok(s, end - 1 - leonardo_spec(k) - leonardo_spec(k + 1), k + 1));
            assert(all_heaps(s, m2, end - 1 - leonardo_spec(k) - leonardo_spec(k + 1)));
            assert(stringed(s, m1, end - 1 - leonardo_spec(k)));
            assert(stringed(s, m2, end - 1 - leonardo_spec(k) - leonardo_spec(k + 1)));
            let start = end - leonardo_spec(k + 2);
            assert(children_ok(s, start, k + 2));
        } else if k == 1 {
            let mp = m | 1u64;
            assert(m | 1u64 == m | (1u64 << 0u64)) by (bit_vector);
            assert(!has_order(m, 0));
            lemma_has_order_set(m, 0);
            assert(is_lowest_order(mp, 0));
            lemma_lowest_unique(mp, 0);
            assert(!has_order(m, 0));
            lemma_set_clear_cancel(m, 0u64);
            assert(mp & !(1u64 << 0u64) == m);
            assert(push_mask(m) == mp);
            assert(children_ok(s, end - 1, 0));
        } else {
            if k == 0 {
                assert(has_order(m, 1));
                assert(false);
            }
            let mp = m | 2u64;
            assert(m | 2u64 == m | (1u64 << 1u64)) by (bit_vector);
            assert(!has_order(m, 1));
            assert(!has_order(m, 0));
            lemma_has_order_set(m, 1);
            assert(is_lowest_order(mp, 1));
            lemma_lowest_unique(mp, 1);
            assert(!has_order(m, 1));
            lemma_set_clear_cancel(m, 1u64);
            assert(mp & !(1u64 << 1u64) == m);
            assert(push_mask(m) == mp);
            assert(children_ok(s, end - 1, 1));
        }
    }
}

/// A balanced prefix and one layout `pop` leave the array in exactly the
/// state `balance_after_pop` expects, one slot shorter.
pub proof fn lemma_pop_preserves_balance(s: Seq<u64>, m: u64, end: int)
    requires
        shape_ok(m),
        mask_sum(m) == end,
        m != 0,
        all_heaps(s, m, end),
        stringed(s, m, end),
    ensures
        pre_pop_balanced(s, pop_mask(m), end - 1),
{
    lemma_lowest(m);
    let k = u64_trailing_zeros(m) as int;
    lemma_mask_sum_from_lower(m, k, 0);
    let m1 = m & !(1u64 << (k as u64));
    lemma_has_order_clear(m, k);
    lemma_mask_sum_from_clear(m, k, 0);
    assert(all_heaps(s, m1, end - leonardo_spec(k)));
    assert(stringed(s, m1, end - leonardo_spec(k)));
    if k == 0 || k == 1 {
        assert(pop_mask(m) == m1);
        assert(leonardo_spec(k) == 1);
        // No two adjacent orders remain: a pair in the rest would
        // contradict the shape of the original mask.
        if two_lowest_adjacent(m1) {
            let k2 = u64_trailing_zeros(m1) as int;
            lemma_lowest(m1);
            let m12 = m1 & !(1u64 << (k2 as u64));
            lemma_has_order_clear(m1, k2);
            lemma_lowest(m12);
            let k3 = u64_trailing_zeros(m12) as int;
            assert(has_order(m, k2) && has_order(m, k2 + 1));
            assert(adjacent_pair(m, k2));
            assert(is_lowest_order(m, k2));
            assert(!has_order(m, k));
            assert(false);
        }
    } else {
        // The two children of the removed sub-heap become top-level.
        assert(!has_order(m1, k - 2) && !has_order(m1, k - 1));
        let m2 = m1 | (1u64 << ((k - 2) as u64));
        lemma_has_order_set(m1, k - 2);
        let m3 = m2 | (1u64 << ((k - 1) as u64));
        lemma_has_order_set(m2, k - 1);
        assert(pop_mask(m) == m3);
        assert(is_lowest_order(m3, k - 2));
        lemma_lowest_unique(m3, k - 2);
        let m31 = m3 & !(1u64 << ((k - 2) as u64));
        lemma_has_order_clear(m3, k - 2);
        assert(is_lowest_order(m31, k - 1));
        lemma_lowest_unique(m31, k - 1);
        assert(two_lowest_adjacent(m3));
        let m32 = m31 & !(1u64 << ((k - 1) as u64));
        lemma_has_order_clear(m31, k - 1);
        lemma_set2_clear2(m1, (k - 2) as u64, (k - 1) as u64);
        assert(m32 == m1);
        // Geometry: the children of the old lowest span sit exactly where
        // the two new top-level spans must be.
        assert(leonardo_spec(k) == leonardo_spec(k - 1) + leonardo_spec(k - 2) + 1);
        assert(heap_ok(s, end - leonardo_spec(k), k));
        assert(heap_ok(s, end - leonardo_spec(k), k - 1));
        assert(heap_ok(s, end - leonardo_spec(k) + leonardo_spec(k - 1), k - 2));
        assert(end - 1 - leonardo_spec(k - 2) == end - leonardo_spec(k) + leonardo_spec(k - 1));
        assert(end - 1 - leonardo_spec(k - 2) - leonardo_spec(k - 1) == end - leonardo_spec(k));
        assert(all_heaps(s, m32, end - leonardo_spec(k)));
        assert(all_heaps(s, m31, end - 1 - leonardo_spec(k - 2)));
        assert(all_heaps(s, m3, end - 1));
        assert(stringed(s, m1, end - leonardo_spec(k)));
        assert(stringed_after_first(
            s,
            m31,
            end - 1 - leonardo_spec(k - 2),
        ));
    }
}

/// The exact result of `sift_down` on the sub-heap of the given order at
/// `start`: compare the children's roots, preferring the order-`(k-1)`
/// child on equality, stop once the root dominates, else swap the root
/// with the larger child's root and descend into that child.
pub open spec fn sift_down_spec(s: Seq<u64>, start: int, order: int) -> Seq<u64>
    decreases order,
{
    if order <= 1 {
        s
    } else {
        let root = start + leonardo_spec(order) - 1;
        let snd_root = start + leonardo_spec(order - 1) - 1;
        let fst_root = start + leonardo_spec(order - 1) + leonardo_spec(order - 2) - 1;
        if s[fst_root] > s[snd_root] {
            if s[root] >= s[fst_root] {
                s
            } else {
                sift_down_spec(
                    s.update(root, s[fst_root]).update(fst_root, s[root]),
                    start + leonardo_spec(order - 1),
                    order - 2,
                )
            }
        } else {
            if s[root] >= s[snd_root] {
                s
            } else {
                sift_down_spec(
                    s.update(root, s[snd_root]).update(snd_root, s[root]),
                    start,
                    order - 1,
                )
            }
        }
    }
}

/// Both children of the sub-heap span starting at `start` satisfy the heap
/// property; the root itself may still be out of place.  This is the state
/// of a sub-heap just before `sift_down` repairs it.
pub open spec fn children_ok(s: Seq<u64>, start: int, order: int) -> bool {
    order > 1 ==> {
        &&& heap_ok(s, start, order - 1)
        &&& heap_ok(s, start + leonardo_spec(order - 1), order - 2)
    }
}

/// Restores the max-heap property within one sub-heap, in place, by
/// descending from the root: swap the root with the larger child root until
/// it dominates both.  On equal child roots the order-`(k-1)` child is
/// preferred, which leaves the array slightly more sorted.
#[verifier::rlimit(60)]
pub fn sift_down(data: &mut Vec<u64>, heap: SubHeapMut)
    requires
        heap.fits(old(data)@.len() as int),
        children_ok(old(data)@, heap.start as int, heap.order as int),
    ensures
        final(data)@.len() == old(data)@.len(),
        heap_ok(final(data)@, heap.start as int, heap.order as int),
        forall|k: int|
            0 <= k < old(data)@.len() && !(heap.start <= k < heap.spec_end())
                ==> final(data)@[k] == old(data)@[k],
        final(data)@.subrange(heap.start as int, heap.spec_end()).to_multiset()
            == old(data)@.subrange(heap.start as int, heap.spec_end()).to_multiset(),
        heap_ok(old(data)@, heap.start as int, heap.order as int) ==> final(data)@ == old(
            data,
        )@,
        final(data)@ == sift_down_spec(old(data)@, heap.start as int, heap.order as int),
    decreases heap.order,
{
    proof {
        vstd::std_specs::vec::axiom_spec_len(data);
    }
    let (root_idx, children) = heap.destructure_mut();
    match children {
        None => {
            // Orders 0 and 1 are single-element leaves: nothing to repair.
        },
        Some((fst_child, snd_child)) => {
            let ghost s0 = data@;
            let ghost start = heap.start as int;
            let ghost endx = heap.spec_end();
            let ghost o = heap.order as int;
            proof {
                assert(leonardo_spec(o) == leonardo_spec(o - 1) + leonardo_spec(o - 2) + 1);
            }
            let fst_val = fst_child.value(data);
            let snd_val = snd_child.value(data);

            // The larger child root; ties go to the order-(k-1) child.
            let (next, next_val, other, other_val) = if fst_val > snd_val {
                (fst_child, fst_val, snd_child, snd_val)
            } else {
                (snd_child, snd_val, fst_child, fst_val)
            };

            let root_val = data[root_idx];
            if root_val >= next_val {
                // The heap property already holds at the root, and the
                // children are intact by assumption.
            } else {
                let ghost next_start = next.start as int;
                let ghost next_end = next.spec_end();
                let ghost next_root = next.root_index();
                proof {
                    // The heap property did not hold at the root, so the
                    // no-op clause is moot.
                    assert(!heap_ok(s0, start, o));
                }
                // Swap the root with the larger child's root.
                data.set(root_idx, next_val);
                next.set_value(data, root_val);
                let ghost s1 = data@;

                proof {
                    assert(s1 == s0.update(root_idx as int, s0[next_root]).update(
                        next_root,
                        s0[root_idx as int],
                    ));
                    // The children of `next` are untouched by the swap.
                    assert(heap_ok(s0, next_start, next.order as int));
                    if next.order > 1 {
                        assert(leonardo_spec(next.order as int) == leonardo_spec(
                            next.order as int - 1,
                        ) + leonardo_spec(next.order as int - 2) + 1);
                        lemma_heap_ok_frame(s0, s1, next_start, next.order as int - 1);
                        lemma_heap_ok_frame(
                            s0,
                            s1,
                            next_start + leonardo_spec(next.order as int - 1),
                            next.order as int - 2,
                        );
                    }
                }
                sift_down(data, next);
                let ghost s2 = data@;

                proof {
                    // The other child was never written: it keeps the heap
                    // property and its root value.
                    let other_start = other.start as int;
                    let other_o = other.order as int;
                    assert(heap_ok(s0, other_start, other_o));
                    lemma_heap_ok_frame(s0, s2, other_start, other_o);
                    assert(s2[other.root_index()] == other_val);

                    // The new root of `next` came out of the swapped span,
                    // so it cannot exceed the value we hoisted to the top.
                    assert(s2[next_root] <= next_val) by {
                        lemma_span_contains(s2, next_start, next_end, next_root);
                        let j = lemma_span_index_of(s1, next_start, next_end, s2[next_root]);
                        if j == next_root {
                            assert(s1[j] == root_val);
                        } else {
                            assert(s1[j] == s0[j]);
                            lemma_heap_root_max(s0, next_start, next.order as int, j);
                        }
                    }
                    assert(s2[heap.root_index()] == next_val);
                    assert(heap_ok(s2, start, o));

                    // The span's contents were only permuted: once by the
                    // swap, once by the recursive call.
                    assert(s1.subrange(start, endx).to_multiset() == s0.subrange(
                        start,
                        endx,
                    ).to_multiset()) by {
                        let sub0 = s0.subrange(start, endx);
                        lemma_subrange_update_inside(s0, start, endx, root_idx as int, next_val);
                        lemma_subrange_update_inside(
                            s0.update(root_idx as int, next_val),
                            start,
                            endx,
                            next_root,
                            root_val,
                        );
                        assert(s1.subrange(start, endx) == sub0.update(
                            root_idx - start,
                            sub0[next_root - start],
                        ).update(next_root - start, sub0[root_idx - start]));
                        lemma_swap_multiset(sub0, root_idx - start, next_root - start);
                    }
                    lemma_multiset_span_frame(s2, s1, next_start, next_end, start, endx);
                }
            }
        },
    }
}


/// The whole sequence is sorted in ascending order.
pub open spec fn sorted(s: Seq<u64>) -> bool {
    forall|i: int, j: int| 0 <= i <= j < s.len() ==> s[i] <= s[j]
}

/// A sorted span satisfies the heap property for any order: the root is the
/// last, hence largest, element of every sub-heap.
pub proof fn lemma_sorted_heap_ok(s: Seq<u64>, start: int, order: int)
    requires
        sorted(s),
        0 <= start,
        start + leonardo_spec(order) <= s.len(),
    ensures
        heap_ok(s, start, order),
    decreases order,
{
    if order > 1 {
        assert(leonardo_spec(order) == leonardo_spec(order - 1) + leonardo_spec(order - 2) + 1);
        lemma_sorted_heap_ok(s, start, order - 1);
        lemma_sorted_heap_ok(s, start + leonardo_spec(order - 1), order - 2);
    }
}

/// A sorted prefix is a fully balanced heap under any layout that covers
/// it: every sub-heap is a heap and the roots ascend toward the end.
pub proof fn lemma_sorted_balanced(s: Seq<u64>, m: u64, end: int)
    requires
        sorted(s),
        mask_sum(m) == end,
        end <= s.len(),
    ensures
        all_heaps(s, m, end),
        stringed(s, m, end),
    decreases m,
{
    if m != 0 {
        lemma_lowest(m);
        let k = u64_trailing_zeros(m) as int;
        let start = end - leonardo_spec(k);
        let rest = m & !(1u64 << (k as u64));
        lemma_xor_clear(m, k as u64);
        lemma_mask_sum_from_clear(m, k, 0);
        lemma_mask_sum_from_lower(m, k, 0);
        lemma_sorted_heap_ok(s, start, k);
        lemma_sorted_balanced(s, rest, start);
        if rest != 0 {
            lemma_lowest(rest);
            lemma_mask_sum_from_lower(rest, u64_trailing_zeros(rest) as int, 0);
        }
    }
}

/// A binary max-heap structure supporting fast in-place partial sorting:
/// the core of Dijkstra's smoothsort algorithm.  The backing array is kept
/// partitioned into Leonardo-sized sub-heaps whose roots never decrease
/// toward the end of the array, so the maximum always sits at the very end.
pub struct LeonardoHeap {
    data: Vec<u64>,
    layout: Layout,
}

impl View for LeonardoHeap {
    type V = Seq<u64>;

    /// The heap viewed as its backing array.
    closed spec fn view(&self) -> Seq<u64> {
        self.data@
    }
}

impl LeonardoHeap {
    /// The layout that partitions the backing array.
    pub closed spec fn spec_layout(&self) -> Layout {
        self.layout
    }

    /// The container invariant: the layout is canonical and covers exactly
    /// the backing array, every sub-heap is a max-heap, and the chain of
    /// roots never decreases toward the end of the array.
    pub open spec fn wf(&self) -> bool {
        &&& self.spec_layout().wf()
        &&& self.spec_layout().spec_len() == self@.len()
        &&& all_heaps(self@, self.spec_layout().mask(), self@.len() as int)
        &&& stringed(self@, self.spec_layout().mask(), self@.len() as int)
    }

    /// Creates a new, empty `LeonardoHeap`.
    pub fn new() -> (r: Self)
        ensures
            r.wf(),
            r@.len() == 0,
    {
        LeonardoHeap { data: Vec::new(), layout: Layout::new() }
    }

    /// Creates a new `LeonardoHeap` with space allocated for at least
    /// `capacity` elements.
    pub fn with_capacity(capacity: usize) -> (r: Self)
        ensures
            r.wf(),
            r@.len() == 0,
    {
        LeonardoHeap { data: Vec::with_capacity(capacity), layout: Layout::new() }
    }

    /// Reserve at least enough space for `additional` elements to be pushed
    /// on to the heap.
    pub fn reserve(&mut self, additional: usize)
        requires
            old(self).wf(),
        ensures
            final(self).wf(),
            final(self)@ == old(self)@,
            final(self).spec_layout() == old(self).spec_layout(),
    {
        self.data.reserve(additional)
    }

    /// Returns the number of elements for which space has been allocated.
    pub fn capacity(&self) -> (r: usize)
        ensures
            self@.len() <= r,
    {
        vec_capacity(&self.data)
    }

    /// Reserves the minimum capacity for exactly `additional` elements to
    /// be pushed onto the heap.
    pub fn reserve_exact(&mut self, additional: usize)
        requires
            old(self).wf(),
        ensures
            final(self).wf(),
            final(self)@ == old(self)@,
            final(self).spec_layout() == old(self).spec_layout(),
    {
        vec_reserve_exact(&mut self.data, additional)
    }

    /// Shrinks the capacity of the underlying storage to free up as much
    /// space as possible.
    pub fn shrink_to_fit(&mut self)
        requires
            old(self).wf(),
        ensures
            final(self).wf(),
            final(self)@ == old(self)@,
            final(self).spec_layout() == old(self).spec_layout(),
    {
        vec_shrink_to_fit(&mut self.data)
    }

    /// Returns the number of elements in the heap.
    pub fn len(&self) -> (r: usize)
        ensures
            r == self@.len(),
    {
        self.data.len()
    }

    /// Returns `true` if the heap contains no elements, `false` otherwise.
    pub fn is_empty(&self) -> (r: bool)
        ensures
            r == (self@.len() == 0),
    {
        self.data.is_empty()
    }

    /// Removes all elements from the heap.
    pub fn clear(&mut self)
        ensures
            final(self).wf(),
            final(self)@.len() == 0,
    {
        self.data.clear();
        self.layout = Layout::new();
    }

    /// Adds a new element to the heap.  The heap is rebalanced to maintain
    /// the string and heap properties.
    ///
    /// Elements pushed more than once are not deduplicated.
    pub fn push(&mut self, item: u64)
        requires
            old(self).wf(),
            old(self)@.len() < crate::layout::max_layout_len(),
            old(self)@.len() < usize::MAX,
        ensures
            final(self).wf(),
            final(self)@.len() == old(self)@.len() + 1,
            final(self)@.to_multiset() == old(self)@.to_multiset().insert(item),
    {
        let ghost s0 = self.data@;
        let ghost n = s0.len() as int;
        let ghost m_pre = self.layout.mask();

        self.data.push(item);
        self.layout.push();

        proof {
            broadcast use vstd::seq_lib::group_to_multiset_ensures;

            let s1 = self.data@;
            lemma_all_heaps_frame(s0, s1, m_pre, n);
            lemma_stringed_frame(s0, s1, m_pre, n);
            lemma_push_preserves_balance(s1, m_pre, n + 1);
        }
        balance_after_push(&mut self.data, &self.layout);
        proof {
            broadcast use vstd::seq_lib::group_to_multiset_ensures;

            let s1 = s0.push(item);
            let s2 = self.data@;
            assert(s2.subrange(0, n + 1) =~= s2);
            assert(s1.subrange(0, n + 1) =~= s1);
            assert(s2.to_multiset() == s1.to_multiset());
        }
    }

    /// Returns the largest element in the heap without removing it, or
    /// `None` if the heap is empty.  The maximum is the last element of the
    /// backing array.
    pub fn peek(&self) -> (r: Option<u64>)
        requires
            self.wf(),
        ensures
            self@.len() == 0 ==> r is None,
            self@.len() > 0 ==> r == Some(self@.last()),
            r matches Some(v) ==> forall|i: int| 0 <= i < self@.len() ==> self@[i] <= v,
    {
        proof {
            if self@.len() > 0 {
                assert forall|i: int| 0 <= i < self@.len() implies self@[i] <= self@.last() by {
                    lemma_last_is_max(self@, self.layout.mask(), self@.len() as int, i);
                }
            }
        }
        if self.data.len() == 0 {
            None
        } else {
            Some(self.data[self.data.len() - 1])
        }
    }

    /// Removes and returns the largest element in the heap.  If the heap is
    /// empty, returns `None`.
    pub fn pop(&mut self) -> (r: Option<u64>)
        requires
            old(self).wf(),
        ensures
            final(self).wf(),
            old(self)@.len() == 0 ==> r is None && final(self)@ == old(self)@,
            old(self)@.len() > 0 ==> (r matches Some(v) && v == old(self)@.last()
                && final(self)@.len() == old(self)@.len() - 1
                && final(self)@.to_multiset() == old(self)@.to_multiset().remove(v)
                && (forall|i: int| 0 <= i < old(self)@.len() ==> old(self)@[i] <= v)),
    {
        let ghost s0 = self.data@;
        let ghost n = s0.len() as int;
        let ghost m_pre = self.layout.mask();

        proof {
            broadcast use vstd::seq_lib::group_to_multiset_ensures;

            if n > 0 {
                assert forall|i: int| 0 <= i < n implies #[trigger] s0[i] <= s0[n - 1] by {
                    lemma_last_is_max(s0, m_pre, n, i);
                }
                assert(s0.drop_last() =~= s0.remove(n - 1));
            }
        }
        let result = self.data.pop();
        self.layout.pop();

        proof {
            if n > 0 {
                assert(m_pre != 0) by {
                    if m_pre == 0 {
                        lemma_mask_sum_from_of_zero(0);
                    }
                }
                lemma_pop_preserves_balance(s0, m_pre, n);
                let s1 = self.data@;
                let mp = pop_mask(m_pre);
                assert(forall|i: int| 0 <= i < n - 1 ==> s1[i] == s0[i]);
                lemma_all_heaps_frame(s0, s1, mp, n - 1);
                if two_lowest_adjacent(mp) {
                    lemma_lowest(mp);
                    let k = u64_trailing_zeros(mp) as int;
                    lemma_xor_clear(mp, k as u64);
                    lemma_mask_sum_from_clear(mp, k, 0);
                    let m1 = mp & !(1u64 << (k as u64));
                    if m1 != 0 {
                        lemma_lowest(m1);
                        let k2 = u64_trailing_zeros(m1) as int;
                        lemma_xor_clear(m1, k2 as u64);
                        lemma_mask_sum_from_clear(m1, k2, 0);
                        lemma_stringed_frame(
                            s0,
                            s1,
                            m1 & !(1u64 << (k2 as u64)),
                            n - 1 - leonardo_spec(k) - leonardo_spec(k2),
                        );
                    }
                } else {
                    lemma_stringed_frame(s0, s1, mp, n - 1);
                }
                assert(pre_pop_balanced(self.data@, self.layout.mask(), n - 1));
            } else {
                lemma_mask_sum_zero(m_pre);
                assert(pre_pop_balanced(self.data@, self.layout.mask(), 0));
            }
        }
        balance_after_pop(&mut self.data, &self.layout);
        proof {
            broadcast use vstd::seq_lib::group_to_multiset_ensures;

            if n > 0 {
                let s1 = s0.drop_last();
                let s2 = self.data@;
                assert(s2.subrange(0, n - 1) =~= s2);
                assert(s1.subrange(0, n - 1) =~= s1);
                assert(s2.to_multiset() == s1.to_multiset());
            }
        }
        result
    }

    /// Returns a copy of the backing array in its current order.
    pub fn to_vec(&self) -> (r: Vec<u64>)
        ensures
            r@ == self@,
    {
        copy_vec(&self.data)
    }

    /// Returns a *sorted* iterator over a snapshot of the heap's elements,
    /// largest first.
    pub fn iter(&self) -> (r: Iter)
        requires
            self.wf(),
        ensures
            r.wf(),
            r@ == self@,
    {
        Iter { heap: LeonardoHeap { data: copy_vec(&self.data), layout: self.layout } }
    }

    /// Returns an iterator that removes and returns elements from the top
    /// of the heap.  The heap itself is left empty.
    pub fn drain(&mut self) -> (r: Drain)
        requires
            old(self).wf(),
        ensures
            final(self).wf(),
            final(self)@.len() == 0,
            r.wf(),
            r@ == old(self)@,
    {
        let mut taken = LeonardoHeap::new();
        core::mem::swap(&mut taken, self);
        Drain { heap: taken }
    }

    /// Forces sorting of the entire underlying array by repeatedly running
    /// the pop rebalancing without shrinking the array.  The sorted array
    /// is still a valid leonardo heap.
    pub fn sort(&mut self)
        requires
            old(self).wf(),
        ensures
            final(self).wf(),
            final(self)@.len() == old(self)@.len(),
            final(self)@.to_multiset() == old(self)@.to_multiset(),
            sorted(final(self)@),
            final(self).spec_layout() == old(self).spec_layout(),
    {
        let mut layout = self.layout.clone();
        let mut i = self.data.len();

        while i > 0
            invariant
                i <= self.data@.len(),
                self.data@.len() == old(self)@.len(),
                self.data@.to_multiset() == old(self)@.to_multiset(),
                layout.wf(),
                layout.spec_len() == i,
                all_heaps(self.data@, layout.mask(), i as int),
                stringed(self.data@, layout.mask(), i as int),
                forall|a: int, b: int|
                    0 <= a < b < self.data@.len() && i <= b ==> self.data@[a] <= self.data@[b],
                self.layout == old(self).spec_layout(),
            decreases i,
        {
            let ghost s_pre = self.data@;
            let ghost m_pre = layout.mask();
            let ghost i0 = i as int;
            proof {
                assert forall|a: int| 0 <= a < i0 implies #[trigger] s_pre[a] <= s_pre[i0 - 1] by {
                    lemma_last_is_max(s_pre, m_pre, i0, a);
                }
                assert(m_pre != 0) by {
                    if m_pre == 0 {
                        lemma_mask_sum_from_of_zero(0);
                    }
                }
                lemma_pop_preserves_balance(s_pre, m_pre, i0);
            }
            i = i - 1;
            layout.pop();
            balance_after_pop_prefix(&mut self.data, &layout);
            proof {
                let s_new = self.data@;
                lemma_multiset_span_frame(s_new, s_pre, 0, i0 - 1, 0, s_pre.len() as int);
                assert(s_new.subrange(0, s_pre.len() as int) =~= s_new);
                assert(s_pre.subrange(0, s_pre.len() as int) =~= s_pre);
                assert forall|a: int, b: int|
                    0 <= a < b < s_new.len() && i0 - 1 <= b implies s_new[a] <= s_new[b] by {
                    if a < i0 - 1 {
                        lemma_span_contains(s_new, 0, i0 - 1, a);
                        let j = lemma_span_index_of(s_pre, 0, i0 - 1, s_new[a]);
                        if b == i0 - 1 {
                            assert(s_pre[j] <= s_pre[i0 - 1]);
                        } else {
                            assert(s_pre[j] <= s_pre[b]);
                        }
                    } else {
                        assert(s_new[a] == s_pre[a] && s_new[b] == s_pre[b]);
                        if a == i0 - 1 && b >= i0 {
                            assert(s_pre[a] <= s_pre[b]);
                        }
                    }
                }
            }
        }
        proof {
            lemma_sorted_balanced(self.data@, self.layout.mask(), self.data@.len() as int);
        }
    }

    /// Rebuilds the heap structure for an arbitrary backing array by
    /// replaying the push balancing step for each prefix length in order.
    fn heapify(&mut self)
        requires
            old(self)@.len() <= crate::layout::max_layout_len(),
        ensures
            final(self).wf(),
            final(self)@.len() == old(self)@.len(),
            final(self)@.to_multiset() == old(self)@.to_multiset(),
    {
        let mut layout = Layout::new();
        let n = self.data.len();

        let mut i: usize = 0;
        while i < n
            invariant
                i <= n,
                n == self.data@.len(),
                self.data@.len() == old(self)@.len(),
                self.data@.to_multiset() == old(self)@.to_multiset(),
                n as nat <= crate::layout::max_layout_len(),
                layout.wf(),
                layout.spec_len() == i,
                all_heaps(self.data@, layout.mask(), i as int),
                stringed(self.data@, layout.mask(), i as int),
            decreases n - i,
        {
            let ghost s_pre = self.data@;
            proof {
                lemma_push_preserves_balance(s_pre, layout.mask(), i + 1);
            }
            layout.push();
            i = i + 1;
            balance_after_push_prefix(&mut self.data, &layout);
            proof {
                let s_new = self.data@;
                lemma_multiset_span_frame(s_new, s_pre, 0, i as int, 0, n as int);
                assert(s_new.subrange(0, n as int) =~= s_new);
                assert(s_pre.subrange(0, n as int) =~= s_pre);
            }
        }
        self.layout = layout;
    }

    /// Removes duplicate elements from the heap, preserving heap order.
    pub fn dedup(&mut self)
        requires
            old(self).wf(),
        ensures
            final(self).wf(),
            final(self)@.no_duplicates(),
            forall|x: u64| final(self)@.contains(x) <==> old(self)@.contains(x),
    {
        proof {
            broadcast use vstd::seq_lib::group_to_multiset_ensures;
        }
        self.sort();
        let ghost s_sorted = self.data@;
        dedup_sorted(&mut self.data);
        let ghost s_dedup = self.data@;
        self.heapify();
        proof {
            broadcast use vstd::seq_lib::group_to_multiset_ensures;

            assert forall|x: u64| final(self)@.contains(x) <==> old(self)@.contains(x) by {
                assert(final(self)@.contains(x) <==> final(self)@.to_multiset().count(x) > 0);
                assert(old(self)@.contains(x) <==> old(self)@.to_multiset().count(x) > 0);
                assert(s_sorted.contains(x) <==> s_sorted.to_multiset().count(x) > 0);
            }
            assert(final(self)@.no_duplicates()) by {
                let d = final(self)@;
                assert forall|a: int, b: int|
                    0 <= a < d.len() && 0 <= b < d.len() && a != b implies d[a] != d[b] by {
                    if d[a] == d[b] {
                        lemma_double_occurrence(d, a, b);
                        lemma_no_dup_count(s_dedup, d[a]);
                    }
                }
            }
        }
    }

    /// Removes all elements from the heap that do not match a predicate.
    /// Every retained element was accepted by the predicate.
    pub fn retain<F: Fn(&u64) -> bool>(&mut self, f: F)
        requires
            old(self).wf(),
            forall|x: u64| #[trigger] f.requires((&x,)),
        ensures
            final(self).wf(),
            forall|x: u64| #[trigger]
                final(self)@.to_multiset().count(x) <= old(self)@.to_multiset().count(x),
            forall|x: u64| final(self)@.contains(x) ==> call_ensures(f, (&x,), true),
            forall|x: u64| #[trigger]
                final(self)@.to_multiset().count(x) < old(self)@.to_multiset().count(x)
                    ==> call_ensures(f, (&x,), false),
    {
        proof {
            broadcast use vstd::seq_lib::group_to_multiset_ensures;
        }
        let mut kept: Vec<u64> = Vec::new();
        let n = self.data.len();
        let mut i: usize = 0;
        while i < n
            invariant
                i <= n,
                n == self.data@.len(),
                forall|x: u64| #[trigger] f.requires((&x,)),
                forall|x: u64| #[trigger]
                    kept@.to_multiset().count(x) <= self.data@.subrange(
                        0,
                        i as int,
                    ).to_multiset().count(x),
                forall|x: u64| kept@.contains(x) ==> call_ensures(f, (&x,), true),
                forall|x: u64| #[trigger]
                    kept@.to_multiset().count(x) < self.data@.subrange(
                        0,
                        i as int,
                    ).to_multiset().count(x) ==> call_ensures(f, (&x,), false),
                kept@.len() <= i,
                self.data@ == old(self)@,
                self.layout == old(self).spec_layout(),
            decreases n - i,
        {
            proof {
                broadcast use vstd::seq_lib::group_to_multiset_ensures;

                assert(self.data@.subrange(0, i + 1) =~= self.data@.subrange(0, i as int).push(
                    self.data@[i as int],
                ));
            }
            let x = self.data[i];
            let ghost kept_pre = kept@;
            if f(&x) {
                kept.push(x);
                proof {
                    assert forall|y: u64| kept@.contains(y) implies call_ensures(
                        f,
                        (&y,),
                        true,
                    ) by {
                        lemma_contains_push(kept_pre, x, y);
                    }
                }
            }
            i = i + 1;
        }
        proof {
            broadcast use vstd::seq_lib::group_to_multiset_ensures;

            assert(self.data@.subrange(0, n as int) =~= self.data@);
            assert forall|x: u64|
                kept@.to_multiset().count(x) <= old(self)@.to_multiset().count(x) by {
                assert(kept@.to_multiset().count(x) <= self.data@.subrange(
                    0,
                    n as int,
                ).to_multiset().count(x));
            }
            assert forall|x: u64|
                kept@.to_multiset().count(x) < old(self)@.to_multiset().count(x) implies call_ensures(
                f,
                (&x,),
                false,
            ) by {
                assert(kept@.to_multiset().count(x) < self.data@.subrange(
                    0,
                    n as int,
                ).to_multiset().count(x));
            }
        }
        let ghost kept_view = kept@;
        self.data = kept;
        self.heapify();
        proof {
            broadcast use vstd::seq_lib::group_to_multiset_ensures;

            assert forall|x: u64| final(self)@.contains(x) implies call_ensures(
                f,
                (&x,),
                true,
            ) by {
                assert(final(self)@.to_multiset().count(x) > 0);
                assert(kept_view.to_multiset().count(x) > 0);
                assert(kept_view.contains(x));
            }
            assert forall|x: u64|
                final(self)@.to_multiset().count(x) < old(self)@.to_multiset().count(
                    x,
                ) implies call_ensures(f, (&x,), false) by {
                assert(kept_view.to_multiset().count(x) < old(self)@.to_multiset().count(x));
            }
        }
    }
}

/// Relies on `Vec::capacity`: a vector's capacity is at least its length.
#[verifier::external_body]
fn vec_capacity(v: &Vec<u64>) -> (r: usize)
    ensures
        v@.len() <= r,
{
    v.capacity()
}

/// Relies on `Vec::reserve_exact`: it only grows the allocation and never
/// changes the contents.
#[verifier::external_body]
fn vec_reserve_exact(v: &mut Vec<u64>, additional: usize)
    ensures
        final(v)@ == old(v)@,
{
    v.reserve_exact(additional)
}

/// Relies on `Vec::shrink_to_fit`: it only shrinks the allocation and never
/// changes the contents.
#[verifier::external_body]
fn vec_shrink_to_fit(v: &mut Vec<u64>)
    ensures
        final(v)@ == old(v)@,
{
    v.shrink_to_fit()
}

/// An element-by-element copy of the backing array.
fn copy_vec(data: &Vec<u64>) -> (r: Vec<u64>)
    ensures
        r@ == data@,
{
    let mut r: Vec<u64> = Vec::new();
    let n = data.len();
    let mut i: usize = 0;
    while i < n
        invariant
            i <= n,
            n == data@.len(),
            r@ == data@.subrange(0, i as int),
        decreases n - i,
    {
        r.push(data[i]);
        proof {
            assert(r@ =~= data@.subrange(0, i + 1));
        }
        i = i + 1;
    }
    proof {
        assert(data@.subrange(0, n as int) =~= data@);
    }
    r
}

/// Membership in a sequence extended by one element.
proof fn lemma_contains_push(s: Seq<u64>, x: u64, y: u64)
    ensures
        s.push(x).contains(y) <==> (s.contains(y) || y == x),
{
    if s.contains(y) {
        let j = choose|j: int| 0 <= j < s.len() && s[j] == y;
        assert(s.push(x)[j] == y);
    }
    if y == x {
        assert(s.push(x)[s.len() as int] == y);
    }
    if s.push(x).contains(y) {
        let j = choose|j: int| 0 <= j < s.push(x).len() && s.push(x)[j] == y;
        if j < s.len() {
            assert(s[j] == y);
        }
    }
}

/// In a sequence without duplicates no value is counted twice.
proof fn lemma_no_dup_count(s: Seq<u64>, x: u64)
    requires
        s.no_duplicates(),
    ensures
        s.to_multiset().count(x) <= 1,
{
    broadcast use vstd::seq_lib::group_to_multiset_ensures;
    broadcast use vstd::multiset::group_multiset_axioms;

    if s.to_multiset().count(x) >= 2 {
        assert(s.contains(x));
        let j = choose|j: int| 0 <= j < s.len() && s[j] == x;
        let s1 = s.remove(j);
        assert(s1.to_multiset() == s.to_multiset().remove(x));
        assert(s1.to_multiset().count(x) >= 1);
        assert(s1.contains(x));
        let j2 = choose|j2: int| 0 <= j2 < s1.len() && s1[j2] == x;
        if j2 < j {
            assert(s[j2] == x);
        } else {
            assert(s[j2 + 1] == x);
        }
    }
}

/// A value occurring at two distinct positions is counted at least twice in
/// the multiset.
proof fn lemma_double_occurrence(s: Seq<u64>, a: int, b: int)
    requires
        0 <= a < s.len(),
        0 <= b < s.len(),
        a != b,
        s[a] == s[b],
    ensures
        s.to_multiset().count(s[a]) >= 2,
{
    broadcast use vstd::seq_lib::group_to_multiset_ensures;
    broadcast use vstd::multiset::group_multiset_axioms;

    let s1 = s.remove(a);
    assert(s.to_multiset() == s1.to_multiset().insert(s[a]));
    let b1 = if b < a {
        b
    } else {
        b - 1
    };
    assert(s1[b1] == s[b]);
    assert(s1.contains(s[b]));
    assert(s1.to_multiset().count(s[b]) > 0);
}

/// Removes adjacent equal elements of a sorted array, keeping one of each.
fn dedup_sorted(data: &mut Vec<u64>)
    requires
        sorted(old(data)@),
    ensures
        sorted(final(data)@),
        final(data)@.no_duplicates(),
        forall|x: u64| final(data)@.contains(x) <==> old(data)@.contains(x),
        final(data)@.len() <= old(data)@.len(),
{
    let mut out: Vec<u64> = Vec::new();
    let n = data.len();
    let mut i: usize = 0;
    while i < n
        invariant
            i <= n,
            n == data@.len(),
            sorted(data@),
            data@ == old(data)@,
            sorted(out@),
            out@.no_duplicates(),
            forall|x: u64| out@.contains(x) <==> data@.subrange(0, i as int).contains(x),
            out@.len() <= i,
            i > 0 ==> out@.len() > 0 && out@.last() == data@[i - 1],
        decreases n - i,
    {
        let ghost prefix = data@.subrange(0, i as int);
        proof {
            assert(data@.subrange(0, i + 1) =~= prefix.push(data@[i as int]));
        }
        let x = data[i];
        let ghost out_pre = out@;
        if out.len() == 0 {
            out.push(x);
            proof {
                assert forall|y: u64| #[trigger]
                    out@.contains(y) <==> prefix.push(x).contains(y) by {
                    lemma_contains_push(out_pre, x, y);
                    lemma_contains_push(prefix, x, y);
                }
            }
        } else {
            let last = out[out.len() - 1];
            if last != x {
                proof {
                    assert(out@.last() == data@[i - 1]);
                    assert(data@[i - 1] <= data@[i as int]);
                    assert forall|j: int| 0 <= j < out@.len() implies out@[j] < x by {
                        assert(out@[j] <= out@.last());
                    }
                }
                out.push(x);
                proof {
                    assert forall|y: u64| #[trigger]
                        out@.contains(y) <==> prefix.push(x).contains(y) by {
                        lemma_contains_push(out_pre, x, y);
                        lemma_contains_push(prefix, x, y);
                    }
                }
            } else {
                proof {
                    assert(out@.contains(x)) by {
                        assert(out@[out@.len() - 1] == x);
                    }
                    assert forall|y: u64| #[trigger]
                        out@.contains(y) <==> prefix.push(x).contains(y) by {
                        lemma_contains_push(prefix, x, y);
                    }
                }
            }
        }
        i = i + 1;
    }
    proof {
        assert(data@.subrange(0, n as int) =~= data@);
    }
    *data = out;
}


/// A *sorted* iterator over a snapshot of the heap, yielding the elements
/// largest first by repeatedly removing the maximum from the snapshot.
pub struct Iter {
    heap: LeonardoHeap,
}

impl View for Iter {
    type V = Seq<u64>;

    /// The elements not yet yielded.
    closed spec fn view(&self) -> Seq<u64> {
        self.heap@
    }
}

impl Iter {
    /// The snapshot is still a well-formed heap.
    pub closed spec fn wf(&self) -> bool {
        self.heap.wf()
    }

    /// Yields the largest remaining element, or `None` once exhausted.
    pub fn next(&mut self) -> (r: Option<u64>)
        requires
            old(self).wf(),
        ensures
            final(self).wf(),
            old(self)@.len() == 0 ==> r is None && final(self)@ == old(self)@,
            old(self)@.len() > 0 ==> (r matches Some(v) && v == old(self)@.last()
                && final(self)@.len() == old(self)@.len() - 1
                && final(self)@.to_multiset() == old(self)@.to_multiset().remove(v)
                && (forall|i: int| 0 <= i < old(self)@.len() ==> old(self)@[i] <= v)),
    {
        self.heap.pop()
    }

    /// The number of elements not yet yielded.
    pub fn size_hint(&self) -> (r: (usize, Option<usize>))
        ensures
            r.0 == self@.len(),
            r.1 == Some(self@.len() as usize),
    {
        let n = self.heap.len();
        (n, Some(n))
    }
}

/// An iterator that removes and returns elements from the top of the heap,
/// largest first.  Creating it empties the heap it was drawn from.
pub struct Drain {
    heap: LeonardoHeap,
}

impl View for Drain {
    type V = Seq<u64>;

    /// The elements not yet drained.
    closed spec fn view(&self) -> Seq<u64> {
        self.heap@
    }
}

impl Drain {
    /// The drained elements still form a well-formed heap.
    pub closed spec fn wf(&self) -> bool {
        self.heap.wf()
    }

    /// Removes and yields the largest remaining element, or `None` once
    /// exhausted.
    pub fn next(&mut self) -> (r: Option<u64>)
        requires
            old(self).wf(),
        ensures
            final(self).wf(),
            old(self)@.len() == 0 ==> r is None && final(self)@ == old(self)@,
            old(self)@.len() > 0 ==> (r matches Some(v) && v == old(self)@.last()
                && final(self)@.len() == old(self)@.len() - 1
                && final(self)@.to_multiset() == old(self)@.to_multiset().remove(v)
                && (forall|i: int| 0 <= i < old(self)@.len() ==> old(self)@[i] <= v)),
    {
        self.heap.pop()
    }

    /// The number of elements not yet drained.
    pub fn size_hint(&self) -> (r: (usize, Option<usize>))
        ensures
            r.0 == self@.len(),
            r.1 == Some(self@.len() as usize),
    {
        let n = self.heap.len();
        (n, Some(n))
    }
}

/// Successive removals of the maximum never increase: whatever remains
/// after taking `v1` out of a collection that `v1` dominated is itself
/// dominated by `v1`.  Hence pushing any elements and then popping until
/// empty yields them in non-increasing order.
pub proof fn lemma_pops_descend(s1: Seq<u64>, s2: Seq<u64>, v1: u64, v2: u64)
    requires
        forall|i: int| 0 <= i < s1.len() ==> s1[i] <= v1,
        s2.to_multiset() == s1.to_multiset().remove(v1),
        s2.contains(v2),
    ensures
        v2 <= v1,
{
    broadcast use vstd::seq_lib::group_to_multiset_ensures;
    broadcast use vstd::multiset::group_multiset_axioms;

    assert(s2.to_multiset().count(v2) > 0);
    assert(s1.to_multiset().count(v2) > 0);
    assert(s1.contains(v2));
}

/// The order in which a well-formed heap gives up its elements depends on
/// its multiset alone: two well-formed heaps holding the same elements
/// yield the same maximum.  Hence `heapify` followed by a full drain gives
/// the same sequence as pushing the elements one by one and draining.
pub proof fn lemma_drain_determined(h1: LeonardoHeap, h2: LeonardoHeap)
    requires
        h1.wf(),
        h2.wf(),
        h1@.to_multiset() == h2@.to_multiset(),
    ensures
        h1@.len() == h2@.len(),
        h1@.len() > 0 ==> h1@.last() == h2@.last(),
{
    broadcast use vstd::seq_lib::group_to_multiset_ensures;

    assert(h1@.to_multiset().len() == h1@.len());
    assert(h2@.to_multiset().len() == h2@.len());
    if h1@.len() > 0 {
        let n1 = h1@.len() as int;
        let n2 = h2@.len() as int;
        assert(h1@.contains(h1@.last())) by {
            assert(h1@[n1 - 1] == h1@.last());
        }
        assert(h2@.contains(h2@.last())) by {
            assert(h2@[n2 - 1] == h2@.last());
        }
        assert(h2@.to_multiset().count(h1@.last()) > 0);
        assert(h2@.contains(h1@.last()));
        assert(h1@.to_multiset().count(h2@.last()) > 0);
        assert(h1@.contains(h2@.last()));
        let i1 = choose|i: int| 0 <= i < n1 && h1@[i] == h2@.last();
        let i2 = choose|i: int| 0 <= i < n2 && h2@[i] == h1@.last();
        lemma_last_is_max(h1@, h1.spec_layout().mask(), n1, i1);
        lemma_last_is_max(h2@, h2.spec_layout().mask(), n2, i2);
    }
}

} // verus!
