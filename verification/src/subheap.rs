use vstd::prelude::*;
use crate::leonardo::{lemma_leonardo_monotone, leonardo, leonardo_spec};

verus! {

/// The max-heap property of the sub-heap of the given order whose span
/// starts at `start`: the root (the last element of the span) is at least
/// as large as the roots of both children, recursively.  Orders 0 and 1 are
/// single-element leaves.
pub open spec fn heap_ok(s: Seq<u64>, start: int, order: int) -> bool
    decreases order,
{
    if order <= 1 {
        true
    } else {
        let root = s[start + leonardo_spec(order) - 1];
        &&& root >= s[start + leonardo_spec(order - 1) - 1]
        &&& root >= s[start + leonardo_spec(order - 1) + leonardo_spec(order - 2) - 1]
        &&& heap_ok(s, start, order - 1)
        &&& heap_ok(s, start + leonardo_spec(order - 1), order - 2)
    }
}

/// `heap_ok` only reads the span itself: two arrays that agree there agree
/// on the property.
pub proof fn lemma_heap_ok_frame(s1: Seq<u64>, s2: Seq<u64>, start: int, order: int)
    requires
        forall|i: int| start <= i < start + leonardo_spec(order) ==> s1[i] == s2[i],
    ensures
        heap_ok(s1, start, order) == heap_ok(s2, start, order),
    decreases order,
{
    if order > 1 {
        assert(leonardo_spec(order) == leonardo_spec(order - 1) + leonardo_spec(order - 2) + 1);
        lemma_heap_ok_frame(s1, s2, start, order - 1);
        lemma_heap_ok_frame(s1, s2, start + leonardo_spec(order - 1), order - 2);
    }
}

/// In a well-formed sub-heap the root bounds every element of the span.
pub proof fn lemma_heap_root_max(s: Seq<u64>, start: int, order: int, i: int)
    requires
        heap_ok(s, start, order),
        start <= i < start + leonardo_spec(order),
    ensures
        s[i] <= s[start + leonardo_spec(order) - 1],
    decreases order,
{
    if order > 1 {
        assert(leonardo_spec(order) == leonardo_spec(order - 1) + leonardo_spec(order - 2) + 1);
        if i < start + leonardo_spec(order - 1) {
            lemma_heap_root_max(s, start, order - 1, i);
        } else if i < start + leonardo_spec(order - 1) + leonardo_spec(order - 2) {
            lemma_heap_root_max(s, start + leonardo_spec(order - 1), order - 2, i);
        }
    }
}

/// A read-only structural lens onto one sub-heap: the span of
/// `leonardo_spec(order)` consecutive slots of the backing array starting
/// at index `start`.  The root of the sub-heap is the last element of the
/// span; for orders above 1 the rest of the span splits into a child of
/// order `order - 1` followed by a child of order `order - 2`.
#[derive(Clone, Copy)]
pub struct SubHeap {
    /// Index of the first element of the span.
    pub start: usize,
    /// The Leonardo order of the sub-heap; the span holds exactly
    /// `leonardo_spec(order)` elements.
    pub order: u32,
}

/// The structural lens used by the balancing procedures, which mutate the
/// backing array through the indices it exposes.
#[derive(Clone, Copy)]
pub struct SubHeapMut {
    /// Index of the first element of the span.
    pub start: usize,
    /// The Leonardo order of the sub-heap; the span holds exactly
    /// `leonardo_spec(order)` elements.
    pub order: u32,
}

impl SubHeap {
    /// One past the last index of the span.
    pub open spec fn spec_end(&self) -> int {
        self.start + leonardo_spec(self.order as int)
    }

    /// The index of the root: the last element of the span.
    pub open spec fn root_index(&self) -> int {
        self.spec_end() - 1
    }

    /// The view lies within an array of the given length.
    pub open spec fn fits(&self, len: int) -> bool {
        &&& self.order < 64
        &&& self.spec_end() <= len
    }

    /// The child of order `order - 2`, next to the root.
    pub open spec fn spec_fst_child(&self) -> SubHeap {
        SubHeap {
            start: (self.start + leonardo_spec(self.order as int - 1)) as usize,
            order: (self.order - 2) as u32,
        }
    }

    /// The child of order `order - 1`, at the start of the span.
    pub open spec fn spec_snd_child(&self) -> SubHeap {
        SubHeap { start: self.start, order: (self.order - 1) as u32 }
    }

    /// Creates a view of the sub-heap of the given order starting at
    /// `start`.
    pub fn new(start: usize, order: u32) -> (r: SubHeap)
        requires
            order < 64,
        ensures
            r.start == start,
            r.order == order,
    {
        SubHeap { start, order }
    }

    /// Returns the value at the head of the subheap.
    pub fn value(&self, data: &Vec<u64>) -> (r: u64)
        requires
            self.fits(data@.len() as int),
        ensures
            r == data@[self.root_index()],
    {
        proof {
            vstd::std_specs::vec::axiom_spec_len(data);
            assert(leonardo_spec(self.order as int) >= 1);
        }
        let l: u64 = leonardo(self.order);
        data[self.start + ((l - 1) as usize)]
    }

    /// Unpacks the head and, if they exist, the two smaller subheaps that
    /// make up the rest of this subheap.
    pub fn destructure(&self, data: &Vec<u64>) -> (r: (u64, Option<(SubHeap, SubHeap)>))
        requires
            self.fits(data@.len() as int),
        ensures
            r.0 == data@[self.root_index()],
            self.order > 1 ==> r.1 == Some((self.spec_fst_child(), self.spec_snd_child())),
            self.order <= 1 ==> r.1 is None,
    {
        let value = self.value(data);
        if self.order > 1 {
            proof {
                vstd::std_specs::vec::axiom_spec_len(data);
                lemma_leonardo_monotone(self.order as int - 1, self.order as int);
            }
            let snd_len: u64 = leonardo(self.order - 1);
            let fst = SubHeap::new(self.start + (snd_len as usize), self.order - 2);
            let snd = SubHeap::new(self.start, self.order - 1);
            (value, Some((fst, snd)))
        } else {
            (value, None)
        }
    }

    /// If the subheap is of second order or greater, returns the two child
    /// subheaps containing all values below the head.
    pub fn children(&self, data: &Vec<u64>) -> (r: Option<(SubHeap, SubHeap)>)
        requires
            self.fits(data@.len() as int),
        ensures
            self.order > 1 ==> r == Some((self.spec_fst_child(), self.spec_snd_child())),
            self.order <= 1 ==> r is None,
    {
        let (_, children) = self.destructure(data);
        children
    }
}

impl SubHeapMut {
    /// One past the last index of the span.
    pub open spec fn spec_end(&self) -> int {
        self.start + leonardo_spec(self.order as int)
    }

    /// The index of the root: the last element of the span.
    pub open spec fn root_index(&self) -> int {
        self.spec_end() - 1
    }

    /// The view lies within an array of the given length.
    pub open spec fn fits(&self, len: int) -> bool {
        &&& self.order < 64
        &&& self.spec_end() <= len
    }

    /// The child of order `order - 2`, next to the root.
    pub open spec fn spec_fst_child(&self) -> SubHeapMut {
        SubHeapMut {
            start: (self.start + leonardo_spec(self.order as int - 1)) as usize,
            order: (self.order - 2) as u32,
        }
    }

    /// The child of order `order - 1`, at the start of the span.
    pub open spec fn spec_snd_child(&self) -> SubHeapMut {
        SubHeapMut { start: self.start, order: (self.order - 1) as u32 }
    }

    /// The sub-heap property of the span this view describes.
    pub open spec fn spec_heap_ok(&self, s: Seq<u64>) -> bool {
        heap_ok(s, self.start as int, self.order as int)
    }

    /// Creates a view of the sub-heap of the given order starting at
    /// `start`.
    pub fn new(start: usize, order: u32) -> (r: SubHeapMut)
        requires
            order < 64,
        ensures
            r.start == start,
            r.order == order,
    {
        SubHeapMut { start, order }
    }

    /// Returns the value at the head of the subheap.
    pub fn value(&self, data: &Vec<u64>) -> (r: u64)
        requires
            self.fits(data@.len() as int),
        ensures
            r == data@[self.root_index()],
    {
        proof {
            vstd::std_specs::vec::axiom_spec_len(data);
            assert(leonardo_spec(self.order as int) >= 1);
        }
        let l: u64 = leonardo(self.order);
        data[self.start + ((l - 1) as usize)]
    }

    /// Replaces the value at the head of the subheap.
    pub fn set_value(&self, data: &mut Vec<u64>, value: u64)
        requires
            self.fits(old(data)@.len() as int),
        ensures
            final(data)@ == old(data)@.update(self.root_index(), value),
    {
        proof {
            vstd::std_specs::vec::axiom_spec_len(data);
            assert(leonardo_spec(self.order as int) >= 1);
        }
        let l: u64 = leonardo(self.order);
        let idx: usize = self.start + ((l - 1) as usize);
        data.set(idx, value);
    }

    /// Returns the head value and, for orders above 1, read-only views of
    /// the two child subheaps.
    pub fn destructure(&self, data: &Vec<u64>) -> (r: (u64, Option<(SubHeap, SubHeap)>))
        requires
            self.fits(data@.len() as int),
        ensures
            r.0 == data@[self.root_index()],
            self.order > 1 ==> (r.1 matches Some(c) && c.0.start == self.spec_fst_child().start
                && c.0.order == self.spec_fst_child().order && c.1.start
                == self.spec_snd_child().start && c.1.order == self.spec_snd_child().order),
            self.order <= 1 ==> r.1 is None,
    {
        let value = self.value(data);
        if self.order > 1 {
            proof {
                vstd::std_specs::vec::axiom_spec_len(data);
                lemma_leonardo_monotone(self.order as int - 1, self.order as int);
            }
            let snd_len: u64 = leonardo(self.order - 1);
            let fst = SubHeap::new(self.start + (snd_len as usize), self.order - 2);
            let snd = SubHeap::new(self.start, self.order - 1);
            (value, Some((fst, snd)))
        } else {
            (value, None)
        }
    }

    /// Returns the index of the head and, for orders above 1, views of the
    /// two child subheaps through which the array may be mutated.
    pub fn destructure_mut(&self) -> (r: (usize, Option<(SubHeapMut, SubHeapMut)>))
        requires
            self.order < 64,
            self.spec_end() <= usize::MAX,
        ensures
            r.0 == self.root_index(),
            self.order > 1 ==> r.1 == Some((self.spec_fst_child(), self.spec_snd_child())),
            self.order <= 1 ==> r.1 is None,
    {
        proof {
            assert(leonardo_spec(self.order as int) >= 1);
        }
        let l: u64 = leonardo(self.order);
        let root: usize = self.start + ((l - 1) as usize);
        if self.order > 1 {
            proof {
                lemma_leonardo_monotone(self.order as int - 1, self.order as int);
            }
            let snd_len: u64 = leonardo(self.order - 1);
            let fst = SubHeapMut::new(self.start + (snd_len as usize), self.order - 2);
            let snd = SubHeapMut::new(self.start, self.order - 1);
            (root, Some((fst, snd)))
        } else {
            (root, None)
        }
    }

    /// Breaks the subheap up into its constituent parts: the index of the
    /// head and, for orders above 1, the two child subheaps.
    pub fn into_components(self) -> (r: (usize, Option<(SubHeapMut, SubHeapMut)>))
        requires
            self.order < 64,
            self.spec_end() <= usize::MAX,
        ensures
            r.0 == self.root_index(),
            self.order > 1 ==> r.1 == Some((self.spec_fst_child(), self.spec_snd_child())),
            self.order <= 1 ==> r.1 is None,
    {
        self.destructure_mut()
    }
}

} // verus!
