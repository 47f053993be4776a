use vstd::prelude::*;
use vstd::std_specs::bits::{axiom_u64_trailing_zeros, u64_trailing_zeros};
use crate::subheap::SubHeapMut;
use crate::leonardo::{
    lemma_leonardo_le_sum, lemma_leonardo_monotone, lemma_leonardo_sum_closed,
    lemma_leonardo_values, leonardo, leonardo_spec, leonardo_sum,
};

verus! {

/// True when bit `k` of the layout bitmask `m` is set, meaning a top-level
/// sub-heap of order `k` is present.
pub open spec fn has_order(m: u64, k: int) -> bool {
    0 <= k < 64 && (m >> (k as u64)) & 1u64 == 1u64
}

/// Bit `k` is set and no lower bit is: order `k` is the smallest sub-heap.
pub open spec fn is_lowest_order(m: u64, k: int) -> bool {
    &&& has_order(m, k)
    &&& forall|j: int| 0 <= j < k ==> !has_order(m, j)
}

/// Orders `k` and `k + 1` are both present.
pub open spec fn adjacent_pair(m: u64, k: int) -> bool {
    has_order(m, k) && has_order(m, k + 1)
}

/// Sum of the Leonardo numbers of all orders in `m` at position `k` or above.
pub open spec fn mask_sum_from(m: u64, k: int) -> nat
    decreases 64 - k,
{
    if k < 0 || k >= 64 {
        0
    } else {
        (if has_order(m, k) {
            leonardo_spec(k)
        } else {
            0
        }) + mask_sum_from(m, k + 1)
    }
}

/// Sum of the Leonardo numbers of all orders in `m`: the number of array
/// elements that a layout with bitmask `m` describes.
pub open spec fn mask_sum(m: u64) -> nat {
    mask_sum_from(m, 0)
}

/// The number of orders present in `m` at position `k` or above.
pub open spec fn order_count_from(m: u64, k: int) -> nat
    decreases 64 - k,
{
    if k < 0 || k >= 64 {
        0
    } else {
        (if has_order(m, k) {
            1nat
        } else {
            0
        }) + order_count_from(m, k + 1)
    }
}

/// The number of orders present in `m`: how many top-level sub-heaps the
/// layout describes.
pub open spec fn order_count(m: u64) -> nat {
    order_count_from(m, 0)
}

proof fn lemma_bit_set(m: u64, k: u64, j: u64)
    by (bit_vector)
    requires
        k < 64,
        j < 64,
    ensures
        ((m | (1u64 << k)) >> j) & 1u64 == (if j == k {
            1u64
        } else {
            (m >> j) & 1u64
        }),
{
}

proof fn lemma_bit_clear(m: u64, k: u64, j: u64)
    by (bit_vector)
    requires
        k < 64,
        j < 64,
    ensures
        ((m & !(1u64 << k)) >> j) & 1u64 == (if j == k {
            0u64
        } else {
            (m >> j) & 1u64
        }),
{
}

proof fn lemma_bit_bool(m: u64, j: u64)
    by (bit_vector)
    requires
        j < 64,
    ensures
        (m >> j) & 1u64 == 1u64 || (m >> j) & 1u64 == 0u64,
{
}

/// Setting bit `k` changes `has_order` only at `k`.
pub proof fn lemma_has_order_set(m: u64, k: int)
    requires
        0 <= k < 64,
    ensures
        forall|j: int| #[trigger]
            has_order(m | (1u64 << (k as u64)), j) <==> (j == k || has_order(m, j)),
{
    assert forall|j: int| #[trigger]
        has_order(m | (1u64 << (k as u64)), j) <==> (j == k || has_order(m, j)) by {
        if 0 <= j < 64 {
            lemma_bit_set(m, k as u64, j as u64);
            lemma_bit_bool(m, j as u64);
        }
    }
}

/// Clearing bit `k` changes `has_order` only at `k`.
pub proof fn lemma_has_order_clear(m: u64, k: int)
    requires
        0 <= k < 64,
    ensures
        forall|j: int| #[trigger]
            has_order(m & !(1u64 << (k as u64)), j) <==> (j != k && has_order(m, j)),
{
    assert forall|j: int| #[trigger]
        has_order(m & !(1u64 << (k as u64)), j) <==> (j != k && has_order(m, j)) by {
        if 0 <= j < 64 {
            lemma_bit_clear(m, k as u64, j as u64);
            lemma_bit_bool(m, j as u64);
        }
    }
}

/// Two masks that agree on every order from `k` upward have the same sum
/// from `k` upward.
pub proof fn lemma_mask_sum_from_agree(m1: u64, m2: u64, k: int)
    requires
        forall|j: int| k <= j < 64 ==> (has_order(m1, j) <==> #[trigger] has_order(m2, j)),
    ensures
        mask_sum_from(m1, k) == mask_sum_from(m2, k),
    decreases 64 - k,
{
    if 0 <= k < 64 {
        lemma_mask_sum_from_agree(m1, m2, k + 1);
    } else if k < 0 {
    }
}

/// Setting a clear bit `k` adds `leonardo_spec(k)` to the sum.
pub proof fn lemma_mask_sum_from_set(m: u64, k: int, j: int)
    requires
        0 <= k < 64,
        !has_order(m, k),
        j >= 0,
    ensures
        mask_sum_from(m | (1u64 << (k as u64)), j) == mask_sum_from(m, j) + (if j <= k {
            leonardo_spec(k)
        } else {
            0
        }),
    decreases 64 - j,
{
    lemma_has_order_set(m, k);
    if j < 64 {
        lemma_mask_sum_from_set(m, k, j + 1);
    }
}

/// Clearing a set bit `k` subtracts `leonardo_spec(k)` from the sum.
pub proof fn lemma_mask_sum_from_clear(m: u64, k: int, j: int)
    requires
        0 <= k < 64,
        has_order(m, k),
        j >= 0,
    ensures
        mask_sum_from(m, j) == mask_sum_from(m & !(1u64 << (k as u64)), j) + (if j <= k {
            leonardo_spec(k)
        } else {
            0
        }),
    decreases 64 - j,
{
    lemma_has_order_clear(m, k);
    if j < 64 {
        lemma_mask_sum_from_clear(m, k, j + 1);
    }
}

/// Every order present in the mask contributes at least its own Leonardo
/// number to the sum.
pub proof fn lemma_mask_sum_from_lower(m: u64, k: int, j: int)
    requires
        has_order(m, k),
        0 <= j <= k,
    ensures
        mask_sum_from(m, j) >= leonardo_spec(k),
    decreases 64 - j,
{
    if j < k {
        lemma_mask_sum_from_lower(m, k, j + 1);
    }
}

/// `trailing_zeros` agrees with any witness of the lowest order.
pub proof fn lemma_lowest_unique(m: u64, k: int)
    requires
        is_lowest_order(m, k),
    ensures
        u64_trailing_zeros(m) == k,
        m != 0,
{
    lemma_nonzero_of_has_order(m, k);
    lemma_lowest(m);
    let t = u64_trailing_zeros(m) as int;
    if t > k {
        assert(!has_order(m, k));
    }
    if t < k {
        assert(!has_order(m, t));
    }
}

/// Setting two distinct clear bits and clearing them again gives the
/// original mask back.
pub proof fn lemma_set2_clear2(m: u64, a: u64, b: u64)
    by (bit_vector)
    requires
        a < 64,
        b < 64,
        a != b,
        (m >> a) & 1u64 != 1u64,
        (m >> b) & 1u64 != 1u64,
    ensures
        (((m | (1u64 << a)) | (1u64 << b)) & !(1u64 << a)) & !(1u64 << b) == m,
{
}

/// Clearing a freshly set bit gives the original mask back.
pub proof fn lemma_set_clear_cancel(m: u64, k: u64)
    by (bit_vector)
    requires
        k < 64,
        (m >> k) & 1u64 != 1u64,
    ensures
        (m | (1u64 << k)) & !(1u64 << k) == m,
{
}

/// A mask whose sum is zero has no order set at all, so it is zero.
pub proof fn lemma_mask_sum_zero(m: u64)
    requires
        mask_sum(m) == 0,
    ensures
        m == 0,
{
    if m != 0 {
        axiom_u64_trailing_zeros(m);
        let k = u64_trailing_zeros(m) as int;
        assert(has_order(m, k));
        lemma_mask_sum_from_lower(m, k, 0);
        assert(leonardo_spec(k) >= 1);
    }
}

/// The accounting law of well-formed layouts: the Leonardo numbers of the
/// present orders always sum to the recorded size.  `new`, `new_from_len`,
/// `push` and `pop` all establish or preserve well-formedness, so the law
/// holds after any sequence of mutations.
pub proof fn lemma_layout_accounts_for_size(layout: Layout)
    requires
        layout.wf(),
    ensures
        mask_sum(layout.mask()) == layout.spec_len(),
{
}

/// The lowest set bit of a nonzero mask, as reported by `trailing_zeros`,
/// is the lowest order present.
pub proof fn lemma_lowest(m: u64)
    requires
        m != 0,
    ensures
        0 <= u64_trailing_zeros(m) < 64,
        is_lowest_order(m, u64_trailing_zeros(m) as int),
{
    axiom_u64_trailing_zeros(m);
    let k = u64_trailing_zeros(m) as int;
    assert(has_order(m, k));
    assert forall|j: int| 0 <= j < k implies !has_order(m, j) by {
        assert((m >> (j as u64)) & 1u64 == 0u64);
    }
}

proof fn lemma_bit_of_zero(j: u64)
    by (bit_vector)
    requires
        j < 64,
    ensures
        (0u64 >> j) & 1u64 == 0u64,
{
}

/// The zero mask has no orders and describes zero elements.
pub proof fn lemma_mask_sum_from_of_zero(j: int)
    ensures
        mask_sum_from(0u64, j) == 0,
        forall|k: int| !has_order(0u64, k),
    decreases 64 - j,
{
    assert forall|k: int| !has_order(0u64, k) by {
        if 0 <= k < 64 {
            lemma_bit_of_zero(k as u64);
        }
    }
    if 0 <= j < 64 {
        lemma_mask_sum_from_of_zero(j + 1);
    }
}

proof fn lemma_three_shift(m: u64, k: u64)
    by (bit_vector)
    requires
        k < 63,
    ensures
        m & !(3u64 << k) == m & !(1u64 << k) & !(1u64 << (k + 1)),
        m | (3u64 << k) == (m | (1u64 << k)) | (1u64 << (k + 1)),
        (((3u64 << k) & m) == (3u64 << k)) <==> ((m >> k) & 1u64 == 1u64 && (m >> (k + 1))
            & 1u64 == 1u64),
{
}

/// The canonical-form conditions on a layout bitmask: at most one adjacent
/// pair of orders is present, and only as the two lowest orders; an order-0
/// sub-heap only ever stands beside an order-1 sub-heap.
pub open spec fn shape_ok(m: u64) -> bool {
    &&& forall|k: int| #[trigger] adjacent_pair(m, k) ==> is_lowest_order(m, k)
    &&& (has_order(m, 0) ==> has_order(m, 1))
}

/// The largest number of elements a layout can describe: two less than the
/// 63rd Leonardo number.  Any more could require merging sub-heaps past
/// order 62, which the 64-bit mask cannot represent.
pub open spec fn max_layout_len() -> nat {
    21220419715443
}

/// The bitmask after one `push`, following the transition rules: merge the
/// two lowest orders when adjacent, else grow an order-0 leaf beside an
/// order-1 sub-heap, else start a fresh order-1 sub-heap.
pub open spec fn push_mask(m: u64) -> u64 {
    let k = u64_trailing_zeros(m) as int;
    if m == 0 {
        2u64
    } else if has_order(m, k + 1) {
        (m & !(1u64 << (k as u64)) & !(1u64 << ((k + 1) as u64))) | (1u64 << ((k + 2) as u64))
    } else if k == 1 {
        m | 1u64
    } else {
        m | 2u64
    }
}

/// The bitmask after one `pop`: the lowest order disappears and, unless it
/// was a single-element order, its two structural children take its place.
pub open spec fn pop_mask(m: u64) -> u64 {
    let k = u64_trailing_zeros(m) as int;
    if m == 0 {
        0u64
    } else if k == 0 || k == 1 {
        m & !(1u64 << (k as u64))
    } else {
        (m & !(1u64 << (k as u64))) | (1u64 << ((k - 2) as u64)) | (1u64 << ((k - 1) as u64))
    }
}

/// The canonical greedy decomposition of `remaining` into Leonardo numbers
/// of orders at most `order`: scan downward and take every order that fits.
pub open spec fn greedy_mask_from(remaining: nat, order: int) -> u64
    decreases order + 1,
{
    if order < 0 {
        0u64
    } else if leonardo_spec(order) <= remaining {
        greedy_mask_from((remaining - leonardo_spec(order)) as nat, order - 1) | (1u64 << (
        order as u64))
    } else {
        greedy_mask_from(remaining, order - 1)
    }
}

/// The canonical bitmask for a heap of `size` elements.
pub open spec fn greedy_mask(size: nat) -> u64 {
    greedy_mask_from(size, 62)
}

proof fn lemma_or_zero_assoc(a: u64, b: u64, c: u64)
    by (bit_vector)
    ensures
        a | 0u64 == a,
        0u64 | a == a,
        a | b == b | a,
        (a | b) | c == a | (b | c),
{
}

/// Records how a heap of a given size is split into top-level sub-heaps of
/// distinct Leonardo orders: bit `k` of `orders` is set exactly when a
/// sub-heap of order `k` is present.
#[derive(Clone, Copy)]
pub struct Layout {
    /// A bitmask describing what order of subheaps are present at the top
    /// level of this heap.
    orders: u64,
    /// The number of values in the heap that this layout describes.
    size: usize,
}

impl Layout {
    /// The order bitmask.
    pub closed spec fn mask(&self) -> u64 {
        self.orders
    }

    /// The recorded element count.
    pub closed spec fn spec_len(&self) -> nat {
        self.size as nat
    }

    /// A layout is well formed when the Leonardo numbers of its orders sum
    /// to its size and the mask is in canonical shape.
    pub open spec fn wf(&self) -> bool {
        &&& mask_sum(self.mask()) == self.spec_len()
        &&& shape_ok(self.mask())
        &&& self.spec_len() <= max_layout_len()
    }

    /// Creates a layout describing an empty heap.
    pub fn new() -> (r: Self)
        ensures
            r.wf(),
            r.spec_len() == 0,
            r.mask() == 0u64,
    {
        proof {
            lemma_mask_sum_from_of_zero(0);
        }
        Layout { orders: 0, size: 0 }
    }

    /// Builds the canonical layout for `size` elements by greedily scanning
    /// orders from 62 down to 0 and taking every Leonardo number that fits.
    pub fn new_from_len(size: usize) -> (r: Self)
        requires
            size as nat <= max_layout_len(),
        ensures
            r.wf(),
            r.spec_len() == size,
            r.mask() == greedy_mask(size as nat),
    {
        let mut orders: u64 = 0;
        let mut remaining: usize = size;
        let mut o: u32 = 63;

        proof {
            lemma_leonardo_values();
            lemma_mask_sum_from_of_zero(0);
            lemma_leonardo_sum_closed(62);
            assert(leonardo_spec(64) == leonardo_spec(63) + leonardo_spec(62) + 1);
            lemma_or_zero_assoc(greedy_mask(size as nat), 0, 0);
        }

        while o > 0
            invariant
                o <= 63,
                remaining <= size,
                size as nat <= max_layout_len(),
                mask_sum(orders) + remaining == size,
                forall|j: int| #[trigger] has_order(orders, j) ==> o <= j,
                remaining as nat <= leonardo_sum(o - 1),
                remaining < leonardo_spec(o as int) || has_order(orders, o as int),
                shape_ok(orders),
                forall|j: int| is_lowest_order(orders, j) ==> remaining as nat
                    <= leonardo_spec(j - 1),
                forall|t: int| #[trigger] adjacent_pair(orders, t) ==> remaining == 0,
                greedy_mask(size as nat) == orders | greedy_mask_from(
                    remaining as nat,
                    o - 1,
                ),
            decreases o,
        {
            o = o - 1;
            let l: u64 = leonardo(o);
            let ghost prev_orders = orders;
            let ghost prev_remaining = remaining as nat;
            if l <= remaining as u64 {
                proof {
                    lemma_greedy_step(prev_orders, prev_remaining, o as int, size as nat);
                    let x = 1u64 << (o as u64);
                    let g = greedy_mask_from((prev_remaining - leonardo_spec(o as int)) as nat, o - 1);
                    lemma_or_zero_assoc(prev_orders, x, g);
                    lemma_or_zero_assoc(x, g, 0);
                }
                remaining = remaining - (l as usize);
                orders = orders | (1u64 << o);
            } else {
                proof {
                    lemma_leonardo_le_sum(o as int);
                    lemma_or_zero_assoc(orders, 0, 0);
                }
            }
        }

        proof {
            assert(remaining as nat <= leonardo_sum(-1));
            lemma_or_zero_assoc(orders, 0, 0);
        }

        Layout { orders, size }
    }

    /// Returns the number of items in the data described by this layout.
    pub fn len(&self) -> (r: usize)
        ensures
            r == self.spec_len(),
    {
        self.size
    }

    /// Returns true if this layout describes a heap containing zero items.
    pub fn is_empty(&self) -> (r: bool)
        ensures
            r == (self.spec_len() == 0),
    {
        self.size == 0
    }

    /// Returns the order of the smallest subheap, or `None` for an empty
    /// mask.
    pub fn lowest_order(&self) -> (r: Option<u32>)
        ensures
            self.mask() == 0 ==> r is None,
            self.mask() != 0 ==> r == Some(u64_trailing_zeros(self.mask())),
            r matches Some(k) ==> is_lowest_order(self.mask(), k as int),
    {
        proof {
            axiom_u64_trailing_zeros(self.orders);
            if self.orders != 0 {
                lemma_lowest(self.orders);
            }
        }
        match self.orders.trailing_zeros() {
            64 => None,
            n => Some(n),
        }
    }

    /// Updates the layout to account for one item being added to the
    /// described data.
    pub fn push(&mut self)
        requires
            old(self).wf(),
            old(self).spec_len() < max_layout_len(),
            old(self).spec_len() < usize::MAX,
        ensures
            final(self).wf(),
            final(self).spec_len() == old(self).spec_len() + 1,
            final(self).mask() == push_mask(old(self).mask()),
    {
        let ghost m = self.orders;
        self.size = self.size + 1;

        match self.lowest_order() {
            Some(lowest) => {
                proof {
                    lemma_lowest(m);
                    lemma_mask_sum_from_lower(m, lowest as int, 0);
                    if lowest >= 63 {
                        lemma_leonardo_values();
                        lemma_leonardo_monotone(63, lowest as int);
                    }
                    assert(lowest < 63);
                    lemma_three_shift(m, lowest as u64);
                }
                let mergeable_mask: u64 = 3u64 << lowest;

                if (mergeable_mask & self.orders) == mergeable_mask {
                    proof {
                        lemma_push_merge_ok(m, lowest as int);
                    }
                    // The lowest two sub-heaps are adjacent and can be
                    // merged: clear the two lowest orders and replace them
                    // with the next order up.
                    self.orders = self.orders & !mergeable_mask;
                    self.orders = self.orders | (1u64 << (lowest + 2));
                } else if lowest == 1 {
                    proof {
                        lemma_push_grow_zero_ok(m);
                    }
                    self.orders = self.orders | 1u64;
                } else {
                    proof {
                        lemma_push_fresh_ok(m, lowest as int);
                    }
                    self.orders = self.orders | 2u64;
                }
            },
            None => {
                proof {
                    lemma_mask_sum_from_of_zero(0);
                    lemma_push_empty_ok();
                }
                self.orders = self.orders | 2u64;
            },
        }
    }

    /// Updates the layout to account for one item being removed from the
    /// described data.  Removing from an empty layout is a no-op.
    pub fn pop(&mut self)
        requires
            old(self).wf(),
        ensures
            final(self).wf(),
            final(self).spec_len() == if old(self).spec_len() == 0 {
                0nat
            } else {
                (old(self).spec_len() - 1) as nat
            },
            final(self).mask() == pop_mask(old(self).mask()),
    {
        if self.size == 0 {
            proof {
                lemma_mask_sum_zero(self.orders);
            }
            return ;
        }
        let ghost m = self.orders;

        self.size = self.size - 1;

        match self.lowest_order() {
            Some(lowest) => {
                proof {
                    lemma_lowest(m);
                    lemma_mask_sum_from_lower(m, lowest as int, 0);
                    if lowest >= 63 {
                        lemma_leonardo_values();
                        lemma_leonardo_monotone(63, lowest as int);
                    }
                    assert(lowest < 63);
                }
                // Clear the lowest order.
                let mask: u64 = 1u64 << lowest;
                self.orders = self.orders & !mask;

                // If the order is not zero or one (the single element
                // orders) then we need to split it into two heaps of order
                // n-1 and n-2.
                if lowest != 0 && lowest != 1 {
                    proof {
                        lemma_pop_split_ok(m, lowest as int);
                        lemma_three_shift(m & !(1u64 << (lowest as u64)), (lowest - 2) as u64);
                    }
                    let mask: u64 = 3u64 << (lowest - 2);
                    self.orders = self.orders | mask;
                } else {
                    proof {
                        lemma_pop_leaf_ok(m, lowest as int);
                    }
                }
            },
            None => {
                proof {
                    lemma_mask_sum_from_of_zero(0);
                    assert(false);
                }
            },
        }
    }

    /// Breaks the described data into top-level subheaps to be iterated
    /// over in order from smallest to largest.
    pub fn iter(&self) -> (r: IterMut)
        requires
            self.wf(),
        ensures
            r.wf(),
            r.mask() == self.mask(),
            r.spec_end() == self.spec_len(),
    {
        IterMut { orders: self.orders, end: self.size }
    }
}

/// Removing the lowest set bit both equals the xor form used by the
/// iterator and strictly decreases the mask.
pub proof fn lemma_xor_clear(m: u64, k: u64)
    by (bit_vector)
    requires
        k < 64,
        (m >> k) & 1u64 == 1u64,
    ensures
        m ^ (1u64 << k) == m & !(1u64 << k),
        m & !(1u64 << k) < m,
{
}

/// Setting a just-cleared bit restores the original mask.
pub proof fn lemma_clear_set_restore(m: u64, k: u64)
    by (bit_vector)
    requires
        k < 64,
        (m >> k) & 1u64 == 1u64,
    ensures
        (m & !(1u64 << k)) | (1u64 << k) == m,
{
}

/// Walks the top-level sub-heaps of a layout from the smallest order to the
/// largest.  Each step yields the view of the trailing span of the still
/// unconsumed prefix of the array.
pub struct IterMut {
    orders: u64,
    end: usize,
}

impl IterMut {
    /// Orders not yet visited.
    pub closed spec fn mask(&self) -> u64 {
        self.orders
    }

    /// One past the last index of the unconsumed prefix of the array.
    pub closed spec fn spec_end(&self) -> nat {
        self.end as nat
    }

    /// The remaining orders exactly cover the remaining prefix.
    pub open spec fn wf(&self) -> bool {
        mask_sum(self.mask()) == self.spec_end()
    }

    /// Declares the exact number of sub-heaps still to be yielded.
    pub fn size_hint(&self) -> (r: (usize, Option<usize>))
        ensures
            r.0 == order_count(self.mask()),
            r.1 == Some(r.0),
    {
        let mut ones: usize = 0;
        let mut k: u32 = 0;
        while k < 64
            invariant
                k <= 64,
                ones <= k,
                ones + order_count_from(self.orders, k as int) == order_count(self.orders),
            decreases 64 - k,
        {
            if (self.orders >> k) & 1u64 == 1u64 {
                ones = ones + 1;
            }
            k = k + 1;
        }
        (ones, Some(ones))
    }

    /// Yields the next (smallest remaining) sub-heap view, which covers the
    /// trailing `leonardo_spec(order)` slots of the unconsumed prefix.
    pub fn next(&mut self) -> (r: Option<SubHeapMut>)
        requires
            old(self).wf(),
        ensures
            final(self).wf(),
            old(self).mask() == 0 ==> r is None && *final(self) == *old(self),
            old(self).mask() != 0 ==> (r matches Some(sh) && sh.order == u64_trailing_zeros(
                old(self).mask(),
            ) && is_lowest_order(old(self).mask(), sh.order as int) && sh.start
                + leonardo_spec(sh.order as int) == old(self).spec_end() && final(self).mask()
                == (old(self).mask() & !(1u64 << (sh.order as u64))) && final(self).spec_end()
                == sh.start),
    {
        if self.orders != 0 {
            proof {
                lemma_lowest(self.orders);
                let k = u64_trailing_zeros(self.orders) as int;
                lemma_mask_sum_from_lower(self.orders, k, 0);
                lemma_mask_sum_from_clear(self.orders, k, 0);
                lemma_xor_clear(self.orders, k as u64);
            }
            // Record and remove the lowest order from the front of the
            // bitset: the order of the sub-heap at the end of the prefix.
            let order = self.orders.trailing_zeros();
            self.orders = self.orders ^ (1u64 << order);

            let l: u64 = leonardo(order);
            let start: usize = self.end - (l as usize);
            self.end = start;

            Some(SubHeapMut::new(start, order))
        } else {
            None
        }
    }
}

/// A mask with any order present is nonzero.
proof fn lemma_nonzero_of_has_order(m: u64, k: int)
    requires
        has_order(m, k),
    ensures
        m != 0,
{
    if m == 0 {
        lemma_mask_sum_from_of_zero(0);
    }
}

/// After pushing into an empty layout the mask holds exactly order 1.
proof fn lemma_push_empty_ok()
    ensures
        mask_sum(2u64) == 1,
        shape_ok(2u64),
        0u64 | 2u64 == 2u64,
        push_mask(0u64) == 2u64,
{
    lemma_mask_sum_from_of_zero(0);
    assert(2u64 == 0u64 | (1u64 << 1u64)) by (bit_vector);
    lemma_has_order_set(0u64, 1);
    lemma_mask_sum_from_set(0u64, 1, 0);
    assert forall|k: int| #[trigger] adjacent_pair(2u64, k) implies is_lowest_order(2u64, k) by {
        assert(has_order(2u64, k) ==> k == 1);
        assert(has_order(2u64, k + 1) ==> k + 1 == 1);
    }
    assert(!has_order(2u64, 0));
    assert(0u64 | 2u64 == 2u64) by (bit_vector);
}

/// Facts for the merge case of `push`: the two lowest orders `k` and `k+1`
/// are both present, so clearing them and setting `k+2` adds exactly one to
/// the sum and keeps the canonical shape.
proof fn lemma_push_merge_ok(m: u64, k: int)
    requires
        shape_ok(m),
        mask_sum(m) + 1 <= max_layout_len(),
        is_lowest_order(m, k),
        has_order(m, k + 1),
        0 <= k < 63,
    ensures
        k + 2 <= 62,
        ({
            let m3 = (m & !(1u64 << (k as u64)) & !(1u64 << ((k + 1) as u64))) | (1u64 << ((k
                + 2) as u64));
            &&& mask_sum(m3) == mask_sum(m) + 1
            &&& shape_ok(m3)
            &&& push_mask(m) == m3
        }),
{
    lemma_leonardo_values();
    let m1 = m & !(1u64 << (k as u64));
    lemma_has_order_clear(m, k);
    lemma_mask_sum_from_clear(m, k, 0);
    // Lower bound: both orders contribute, so L(k+2) fits below order 63.
    lemma_mask_sum_from_lower(m1, k + 1, 0);
    assert(mask_sum(m) >= leonardo_spec(k) + leonardo_spec(k + 1));
    assert(leonardo_spec(k + 2) == leonardo_spec(k) + leonardo_spec(k + 1) + 1);
    if k + 2 > 62 {
        lemma_leonardo_monotone(63, k + 2);
        assert(mask_sum(m) + 1 >= leonardo_spec(63));
        assert(false);
    }
    let m2 = m1 & !(1u64 << ((k + 1) as u64));
    lemma_has_order_clear(m1, k + 1);
    lemma_mask_sum_from_clear(m1, k + 1, 0);
    // Order k+2 cannot be present: it would form a second adjacent pair.
    if has_order(m, k + 2) {
        assert(adjacent_pair(m, k + 1));
        assert(is_lowest_order(m, k + 1));
        assert(!has_order(m, k));
        assert(false);
    }
    let m3 = m2 | (1u64 << ((k + 2) as u64));
    lemma_has_order_set(m2, k + 2);
    lemma_mask_sum_from_set(m2, k + 2, 0);
    assert(mask_sum(m3) == mask_sum(m) + 1);

    assert forall|t: int| #[trigger] adjacent_pair(m3, t) implies is_lowest_order(m3, t) by {
        assert(has_order(m3, t) && has_order(m3, t + 1));
        if t + 1 == k + 2 {
            assert(!has_order(m3, k + 1));
            assert(false);
        } else if t == k + 2 {
            // Pair (k+2, k+3): everything below k+2 is clear.
            assert forall|j: int| 0 <= j < k + 2 implies !has_order(m3, j) by {
                if j != k && j != k + 1 {
                    assert(!has_order(m, j));
                }
            }
        } else if t < k {
            assert(!has_order(m, t));
            assert(false);
        } else {
            // A pair strictly above k+2 already existed in m, so its low
            // order would have to be the lowest order of m: impossible.
            assert(t >= k + 3);
            assert(adjacent_pair(m, t));
            assert(is_lowest_order(m, t));
            assert(!has_order(m, k));
            assert(false);
        }
    }
    if has_order(m3, 0) {
        assert(k + 2 >= 2);
        assert(has_order(m, 0));
        if k > 0 {
            assert(!has_order(m, 0));
        }
        assert(false);
    }
    assert(u64_trailing_zeros(m) == k) by {
        lemma_nonzero_of_has_order(m, k);
        lemma_lowest(m);
        let t = u64_trailing_zeros(m) as int;
        if t > k {
            assert(!has_order(m, k));
        }
        if t < k {
            assert(!has_order(m, t));
        }
    }
    assert(m != 0) by {
        lemma_nonzero_of_has_order(m, k);
    }
}

/// Facts for the `push` case that grows an order-0 leaf beside the lowest
/// order-1 sub-heap.
proof fn lemma_push_grow_zero_ok(m: u64)
    requires
        shape_ok(m),
        is_lowest_order(m, 1),
        !has_order(m, 2),
    ensures
        mask_sum(m | 1u64) == mask_sum(m) + 1,
        shape_ok(m | 1u64),
        push_mask(m) == m | 1u64,
{
    lemma_nonzero_of_has_order(m, 1);
    assert(u64_trailing_zeros(m) == 1) by {
        lemma_lowest(m);
        let t = u64_trailing_zeros(m) as int;
        assert(has_order(m, t));
        if t > 1 {
            assert(!has_order(m, 1));
        }
        if t < 1 {
            assert(!has_order(m, 0));
        }
    }
    assert(m | 1u64 == m | (1u64 << 0u64)) by (bit_vector);
    lemma_has_order_set(m, 0);
    lemma_mask_sum_from_set(m, 0, 0);
    let m1 = m | (1u64 << 0u64);
    assert forall|t: int| #[trigger] adjacent_pair(m1, t) implies is_lowest_order(m1, t) by {
        if t == 0 {
            assert(forall|j: int| 0 <= j < 0 ==> !has_order(m1, j));
        } else if t == 1 {
            assert(has_order(m1, 2) == has_order(m, 2));
            assert(false);
        } else {
            assert(adjacent_pair(m, t));
            assert(is_lowest_order(m, t));
            assert(!has_order(m, 1));
            assert(false);
        }
    }
    assert(has_order(m1, 1));
}

/// Facts for the `push` case that starts a fresh order-1 sub-heap: the
/// lowest order is at least 2, so order 1 is free.
proof fn lemma_push_fresh_ok(m: u64, k: int)
    requires
        shape_ok(m),
        is_lowest_order(m, k),
        !has_order(m, k + 1),
        k != 1,
        0 <= k < 63,
    ensures
        mask_sum(m | 2u64) == mask_sum(m) + 1,
        shape_ok(m | 2u64),
        push_mask(m) == m | 2u64,
{
    lemma_leonardo_values();
    if k == 0 {
        // Impossible: an order-0 sub-heap requires an order-1 beside it.
        assert(has_order(m, 1));
        assert(false);
    }
    assert(k >= 2);
    assert(!has_order(m, 1));
    assert(!has_order(m, 0));
    assert(m | 2u64 == m | (1u64 << 1u64)) by (bit_vector);
    lemma_has_order_set(m, 1);
    lemma_mask_sum_from_set(m, 1, 0);
    let m1 = m | (1u64 << 1u64);
    assert forall|t: int| #[trigger] adjacent_pair(m1, t) implies is_lowest_order(m1, t) by {
        if t == 0 {
            assert(!has_order(m1, 0));
            assert(false);
        } else if t == 1 {
            // Only possible when k == 2; order 0 is clear below.
            assert(has_order(m1, 2));
            assert(has_order(m, 2));
            assert(k == 2);
            assert forall|j: int| 0 <= j < 1 implies !has_order(m1, j) by {}
        } else {
            assert(adjacent_pair(m, t));
            assert(is_lowest_order(m, t));
            assert(k >= t);
            assert(has_order(m, t));
            assert(k <= t);
            assert(t == k);
            assert(has_order(m, k + 1));
            assert(false);
        }
    }
    assert(!has_order(m1, 0));
    assert(u64_trailing_zeros(m) == k) by {
        lemma_nonzero_of_has_order(m, k);
        lemma_lowest(m);
        let t = u64_trailing_zeros(m) as int;
        if t > k {
            assert(!has_order(m, k));
        }
        if t < k {
            assert(!has_order(m, t));
        }
    }
}

/// Facts for the `pop` case that removes a single-element sub-heap of order
/// 0 or 1.
proof fn lemma_pop_leaf_ok(m: u64, k: int)
    requires
        shape_ok(m),
        is_lowest_order(m, k),
        0 <= k <= 1,
    ensures
        mask_sum(m & !(1u64 << (k as u64))) + 1 == mask_sum(m),
        shape_ok(m & !(1u64 << (k as u64))),
        pop_mask(m) == m & !(1u64 << (k as u64)),
{
    lemma_leonardo_values();
    lemma_has_order_clear(m, k);
    lemma_mask_sum_from_clear(m, k, 0);
    let m1 = m & !(1u64 << (k as u64));
    assert forall|t: int| #[trigger] adjacent_pair(m1, t) implies is_lowest_order(m1, t) by {
        assert(has_order(m, t) && has_order(m, t + 1));
        assert(adjacent_pair(m, t));
        assert(is_lowest_order(m, t));
        if t > k {
            assert(!has_order(m, k));
            assert(false);
        }
        if t <= k {
            assert(t != k && t + 1 != k);
            assert(k <= 1);
            assert(false);
        }
    }
    if has_order(m1, 0) {
        assert(has_order(m, 0));
        assert(has_order(m, 1));
        assert(k == 0 || !has_order(m1, 0));
        if k == 1 {
            assert(is_lowest_order(m, 1));
            assert(!has_order(m, 0));
        }
        assert(k == 0);
        assert(false);
    }
    assert(u64_trailing_zeros(m) == k) by {
        lemma_nonzero_of_has_order(m, k);
        lemma_lowest(m);
        let t = u64_trailing_zeros(m) as int;
        if t > k {
            assert(!has_order(m, k));
        }
        if t < k {
            assert(!has_order(m, t));
        }
    }
}

/// Facts for the `pop` case that splits the lowest sub-heap of order `k`
/// into its two children of orders `k-2` and `k-1`.
proof fn lemma_pop_split_ok(m: u64, k: int)
    requires
        shape_ok(m),
        is_lowest_order(m, k),
        2 <= k < 63,
    ensures
        ({
            let m3 = ((m & !(1u64 << (k as u64))) | (1u64 << ((k - 2) as u64))) | (1u64 << ((k
                - 1) as u64));
            &&& mask_sum(m3) + 1 == mask_sum(m)
            &&& shape_ok(m3)
            &&& pop_mask(m) == m3
            &&& (m & !(1u64 << (k as u64))) | (3u64 << ((k - 2) as u64)) == m3
        }),
{
    lemma_leonardo_values();
    let m1 = m & !(1u64 << (k as u64));
    lemma_has_order_clear(m, k);
    lemma_mask_sum_from_clear(m, k, 0);
    assert(!has_order(m1, k - 2));
    let m2 = m1 | (1u64 << ((k - 2) as u64));
    lemma_has_order_set(m1, k - 2);
    lemma_mask_sum_from_set(m1, k - 2, 0);
    assert(!has_order(m2, k - 1));
    let m3 = m2 | (1u64 << ((k - 1) as u64));
    lemma_has_order_set(m2, k - 1);
    lemma_mask_sum_from_set(m2, k - 1, 0);
    assert(leonardo_spec(k) == leonardo_spec(k - 1) + leonardo_spec(k - 2) + 1);
    assert(mask_sum(m3) + 1 == mask_sum(m));
    lemma_three_shift(m1, (k - 2) as u64);

    assert forall|t: int| #[trigger] adjacent_pair(m3, t) implies is_lowest_order(m3, t) by {
        assert(has_order(m3, t) && has_order(m3, t + 1));
        if t == k - 2 {
            assert forall|j: int| 0 <= j < k - 2 implies !has_order(m3, j) by {
                assert(!has_order(m, j));
            }
        } else if t == k - 1 {
            // Pair (k-1, k) is impossible: order k was cleared.  Order k
            // could only reappear if it equals k-2 or k-1, which it does
            // not.
            assert(!has_order(m3, k));
            assert(false);
        } else if t < k - 2 {
            assert(!has_order(m, t));
            assert(false);
        } else if t == k {
            assert(!has_order(m3, k));
            assert(false);
        } else {
            assert(t > k);
            assert(adjacent_pair(m, t));
            assert(is_lowest_order(m, t));
            assert(!has_order(m, k));
            assert(false);
        }
    }
    if has_order(m3, 0) {
        if k == 2 {
            assert(has_order(m3, 1));
        } else {
            assert(has_order(m, 0));
            assert(!has_order(m, 0));
        }
    }
    assert(u64_trailing_zeros(m) == k) by {
        lemma_nonzero_of_has_order(m, k);
        lemma_lowest(m);
        let t = u64_trailing_zeros(m) as int;
        if t > k {
            assert(!has_order(m, k));
        }
        if t < k {
            assert(!has_order(m, t));
        }
    }
}

/// One taken step of the greedy scan: setting bit `u` keeps every invariant
/// of the canonical decomposition.
proof fn lemma_greedy_step(orders: u64, remaining: nat, u: int, size: nat)
    requires
        0 <= u <= 62,
        size <= max_layout_len(),
        mask_sum(orders) + remaining == size,
        forall|j: int| #[trigger] has_order(orders, j) ==> u + 1 <= j,
        remaining <= leonardo_sum(u),
        remaining < leonardo_spec(u + 1) || has_order(orders, u + 1),
        shape_ok(orders),
        forall|j: int| is_lowest_order(orders, j) ==> remaining <= leonardo_spec(j - 1),
        forall|t: int| #[trigger] adjacent_pair(orders, t) ==> remaining == 0,
        leonardo_spec(u) <= remaining,
    ensures
        ({
            let orders2 = orders | (1u64 << (u as u64));
            let remaining2 = (remaining - leonardo_spec(u)) as nat;
            &&& mask_sum(orders2) + remaining2 == size
            &&& forall|j: int| #[trigger] has_order(orders2, j) ==> u <= j
            &&& remaining2 <= leonardo_sum(u - 1)
            &&& remaining2 < leonardo_spec(u) || has_order(orders2, u)
            &&& shape_ok(orders2)
            &&& forall|j: int|
                is_lowest_order(orders2, j) ==> remaining2 <= leonardo_spec(j - 1)
            &&& forall|t: int| #[trigger] adjacent_pair(orders2, t) ==> remaining2 == 0
        }),
{
    lemma_leonardo_values();
    let orders2 = orders | (1u64 << (u as u64));
    let remaining2 = (remaining - leonardo_spec(u)) as nat;
    assert(!has_order(orders, u));
    lemma_has_order_set(orders, u);
    lemma_mask_sum_from_set(orders, u, 0);
    lemma_leonardo_le_sum(u);

    // The new bit is the lowest of the new mask.
    assert(is_lowest_order(orders2, u));

    // No adjacent pair existed before: one would force remaining == 0.
    assert forall|t: int| #[trigger] adjacent_pair(orders, t) implies false by {
        assert(remaining == 0);
        assert(leonardo_spec(u) >= 1);
    }

    // Bound the new remainder.
    if has_order(orders, u + 1) {
        // Adjacent to the previous lowest order: the remainder is consumed
        // exactly.
        assert(is_lowest_order(orders, u + 1)) by {
            assert forall|j: int| 0 <= j < u + 1 implies !has_order(orders, j) by {}
        }
        assert(remaining <= leonardo_spec(u));
        assert(remaining2 == 0);
    } else {
        assert(remaining < leonardo_spec(u + 1));
        if u >= 2 {
            assert(leonardo_spec(u + 1) == leonardo_spec(u) + leonardo_spec(u - 1) + 1);
            assert(remaining2 <= leonardo_spec(u - 1));
        } else if u == 1 {
            assert(remaining2 <= 1);
            assert(leonardo_spec(0) == 1);
        } else {
            assert(remaining < 1);
            assert(false);
        }
    }
    assert(remaining2 <= leonardo_spec(u - 1));

    // Shape: the only possible pair is (u, u + 1), at the two lowest bits.
    assert forall|t: int| #[trigger] adjacent_pair(orders2, t) implies is_lowest_order(
        orders2,
        t,
    ) by {
        if t == u {
            assert(is_lowest_order(orders2, u));
        } else if t == u - 1 {
            assert(!has_order(orders2, u - 1));
            assert(false);
        } else if t < u - 1 {
            assert(!has_order(orders2, t));
            assert(false);
        } else {
            assert(t > u);
            assert(adjacent_pair(orders, t));
            assert(false);
        }
    }

    // An order-0 sub-heap appears only when order 1 is already present.
    if has_order(orders2, 0) {
        if u == 0 {
            assert(remaining < leonardo_spec(1) || has_order(orders, 1));
            assert(leonardo_spec(0) == 1 && leonardo_spec(1) == 1);
            assert(has_order(orders, 1));
            assert(has_order(orders2, 1));
        } else {
            assert(has_order(orders, 0));
            assert(false);
        }
    }

    // Pair implies the remainder is now zero.
    assert forall|t: int| #[trigger] adjacent_pair(orders2, t) implies remaining2 == 0 by {
        assert(t == u || adjacent_pair(orders, t));
        if t == u {
            assert(has_order(orders2, u + 1));
            assert(has_order(orders, u + 1));
            assert(remaining2 == 0);
        }
    }

    // Remainder strictly below the next Leonardo number, or the bit is set.
    assert(has_order(orders2, u));
}

} // verus!
