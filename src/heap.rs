use vstd::arithmetic::div_mod::lemma_div_is_ordered;
use vstd::math::min;
use vstd::prelude::*;

use crate::order::{
    ancestor_at, child_of, dominates_children, heap_ordered, is_max_of, lemma_child_of_parent,
    lemma_level_width_positive, lemma_ordered_from_subtree, lemma_parent_before,
    lemma_parent_of_child, lemma_root_is_max, lemma_root_path_parent, lemma_sift_up_done,
    lemma_sift_up_step, lemma_subtree_child, lemma_subtree_from_ordered, lemma_subtree_sift_done,
    lemma_subtree_sift_step, lemma_swap_multiset, level_start, level_width, on_root_path,
    ordered_except, ordered_from, ordered_in_subtree, ordered_in_subtree_except, parent_of, swapped,
};

verus! {

/// Largest number of live elements a heap holds.
pub const HEAP_MAX_SIZE: usize = 1000;

/// Why an operation or an index query gave no result.
#[derive(Debug, PartialEq, Eq, Structural)]
pub enum HeapError {
    /// An insert met a heap that holds `HEAP_MAX_SIZE` elements.
    HeapFull,
    /// An extraction met a heap with no elements.
    EmptyHeap,
    /// The computed parent position lies at or beyond the live range.
    NoSuchParent,
    /// The root has no parent.
    ParentReachedEnd,
    /// The child slot exists, but the heap has no element there.
    SonReachedEnd,
    /// A child number at or beyond the branching factor.
    InvalidSonIndex,
    /// A branching factor of zero.
    InvalidBranchingFactor,
}

/// A d-ary max-heap of at most `HEAP_MAX_SIZE` values, packed level by
/// level: the children of position `i` are `i * d + 1` to `i * d + d`.
pub struct Heap {
    array: Vec<i32>,
    d: u32,
}

impl Heap {
    /// The live elements, in storage order.
    pub closed spec fn view(&self) -> Seq<i32> {
        self.array@
    }

    /// The branching factor.
    pub closed spec fn branching(&self) -> int {
        self.d as int
    }

    /// Size within capacity and a usable branching factor; the order of the
    /// elements is not part of it.
    pub open spec fn wf(&self) -> bool {
        &&& self@.len() <= HEAP_MAX_SIZE
        &&& self.branching() >= 1
    }

    /// A well-formed heap in max-heap order.
    pub open spec fn is_heap(&self) -> bool {
        &&& self.wf()
        &&& heap_ordered(self@, self.branching())
    }

    /// Number of live elements.
    pub fn size(&self) -> (r: usize)
        ensures
            r == self@.len(),
    {
        self.array.len()
    }

    /// The branching factor.
    pub fn d(&self) -> (r: u32)
        ensures
            r == self.branching(),
    {
        self.d
    }

    /// The value at live position `idx`.
    pub fn value_at(&self, idx: usize) -> (r: i32)
        requires
            idx < self@.len(),
        ensures
            r == self@[idx as int],
    {
        self.array[idx]
    }

    /// Overwrites the value at live position `idx`. The heap order may no
    /// longer hold afterwards; where the root was lowered, `heapify_down(0)`
    /// restores it.
    pub fn set_value(&mut self, idx: usize, value: i32)
        requires
            idx < old(self)@.len(),
        ensures
            final(self)@ == old(self)@.update(idx as int, value),
            final(self).branching() == old(self).branching(),
    {
        self.array.set(idx, value);
    }

    /// Position of the parent of `idx`.
    pub fn get_parent(&self, idx: usize) -> (r: Result<usize, HeapError>)
        requires
            self.wf(),
        ensures
            idx == 0 ==> r == Err::<usize, HeapError>(HeapError::ParentReachedEnd),
            idx > 0 && parent_of(idx as int, self.branching()) < self@.len() ==> r == Ok::<
                usize,
                HeapError,
            >(parent_of(idx as int, self.branching()) as usize),
            idx > 0 && parent_of(idx as int, self.branching()) >= self@.len() ==> r == Err::<
                usize,
                HeapError,
            >(HeapError::NoSuchParent),
    {
        if idx == 0 {
            return Err(HeapError::ParentReachedEnd);
        }
        let parent_idx = (idx - 1) / self.d as usize;
        if parent_idx < self.array.len() {
            Ok(parent_idx)
        } else {
            Err(HeapError::NoSuchParent)
        }
    }

    /// Position of the `n`-th child of `idx`.
    pub fn get_n_son(&self, idx: usize, n: u32) -> (r: Result<usize, HeapError>)
        requires
            self.wf(),
        ensures
            n >= self.branching() ==> r == Err::<usize, HeapError>(HeapError::InvalidSonIndex),
            n < self.branching() && child_of(idx as int, n as int, self.branching()) < self@.len()
                ==> r == Ok::<usize, HeapError>(
                child_of(idx as int, n as int, self.branching()) as usize,
            ),
            n < self.branching() && child_of(idx as int, n as int, self.branching()) >= self@.len()
                ==> r == Err::<usize, HeapError>(HeapError::SonReachedEnd),
    {
        if n >= self.d {
            return Err(HeapError::InvalidSonIndex);
        }
        let size = self.array.len();
        if idx >= size {
            proof {
                assert(idx as int * self.d as int >= idx as int) by (nonlinear_arith)
                    requires
                        self.d >= 1,
                ;
            }
            return Err(HeapError::SonReachedEnd);
        }
        proof {
            assert(idx as int * self.d as int <= 1000 * 0xffff_ffff) by (nonlinear_arith)
                requires
                    idx < 1000,
                    self.d <= 0xffff_ffff,
            ;
        }
        let son_idx = (idx as u64) * (self.d as u64) + (n as u64) + 1;
        if son_idx < size as u64 {
            Ok(son_idx as usize)
        } else {
            Err(HeapError::SonReachedEnd)
        }
    }

    /// Trades the values at two live positions.
    fn swap_slots(&mut self, i: usize, j: usize)
        requires
            i < old(self)@.len(),
            j < old(self)@.len(),
        ensures
            final(self)@ == swapped(old(self)@, i as int, j as int),
            final(self).d == old(self).d,
    {
        let a = self.array[i];
        let b = self.array[j];
        self.array.set(i, b);
        self.array.set(j, a);
    }

    /// Moves the value at `idx` up past every strictly smaller ancestor,
    /// trading it with its parent each time. Only `idx` and its ancestors
    /// change, and nothing does at the root or below a parent that is not
    /// smaller. Where the heap order holds everywhere but on the edge from
    /// `idx` to its parent, it holds everywhere afterwards.
    fn heapify_up(&mut self, idx: usize) -> (r: Result<(), HeapError>)
        requires
            old(self).wf(),
            idx < old(self)@.len(),
        ensures
            r is Ok,
            final(self).wf(),
            final(self).d == old(self).d,
            final(self)@.to_multiset() == old(self)@.to_multiset(),
            final(self)@.len() == old(self)@.len(),
            forall|j: int|
                0 <= j < old(self)@.len() && !on_root_path(j, idx as int, old(self).branching())
                    ==> final(self)@[j] == old(self)@[j],
            idx == 0 || old(self)@[parent_of(idx as int, old(self).branching())] >= old(
                self,
            )@[idx as int] ==> final(self)@ == old(self)@,
            ordered_except(old(self)@, old(self).branching(), idx as int) ==> final(self).is_heap(),
    {
        let ghost s0 = self@;
        let ghost d = self.branching();
        let ghost pre = ordered_except(s0, d, idx as int);
        let ghost still = idx == 0 || s0[parent_of(idx as int, d)] >= s0[idx as int];
        let mut k = idx;
        proof {
            assert(ancestor_at(idx as int, d, 0) == idx);
        }
        loop
            invariant
                self.wf(),
                self.branching() == d,
                self.d == old(self).d,
                self@.len() == s0.len(),
                s0 == old(self)@,
                self@.to_multiset() == s0.to_multiset(),
                k <= idx < self@.len(),
                on_root_path(k as int, idx as int, d),
                k == idx ==> self@ == s0,
                k != idx ==> !still,
                still == (idx == 0 || s0[parent_of(idx as int, d)] >= s0[idx as int]),
                forall|j: int|
                    0 <= j < s0.len() && !on_root_path(j, idx as int, d) ==> self@[j] == s0[j],
                pre == ordered_except(s0, d, idx as int),
                pre ==> ordered_except(self@, d, k as int),
            decreases k,
        {
            match self.get_parent(k) {
                Ok(parent_idx) => {
                    if self.array[parent_idx] < self.array[k] {
                        proof {
                            lemma_parent_before(k as int, d);
                            lemma_root_path_parent(k as int, idx as int, d);
                            if pre {
                                lemma_sift_up_step(self@, d, k as int);
                            }
                            lemma_swap_multiset(self@, parent_idx as int, k as int);
                        }
                        self.swap_slots(parent_idx, k);
                        k = parent_idx;
                    } else {
                        proof {
                            if pre {
                                lemma_sift_up_done(self@, d, k as int);
                            }
                        }
                        return Ok(());
                    }
                },
                Err(HeapError::ParentReachedEnd) => {
                    proof {
                        if pre {
                            lemma_sift_up_done(self@, d, k as int);
                        }
                    }
                    return Ok(());
                },
                Err(e) => {
                    // a live position past the root has a live parent
                    proof {
                        lemma_parent_before(k as int, d);
                    }
                    return Err(e);
                },
            }
        }
    }

    /// Moves the value at `idx` down past every larger descendant, trading it
    /// each time with its largest child (the first of equal ones) while that
    /// child exceeds it. Only positions in the subtree rooted at `idx` change,
    /// and nothing does when `idx` already dominates its children. Where the
    /// subtrees of `idx`'s children are in heap order, the subtree of `idx`
    /// is in heap order afterwards.
    pub fn heapify_down(&mut self, idx: usize) -> (r: Result<(), HeapError>)
        requires
            old(self).wf(),
        ensures
            r is Ok,
            final(self).wf(),
            final(self).branching() == old(self).branching(),
            final(self)@.len() == old(self)@.len(),
            final(self)@.to_multiset() == old(self)@.to_multiset(),
            forall|j: int|
                0 <= j < old(self)@.len() && !on_root_path(idx as int, j, old(self).branching())
                    ==> final(self)@[j] == old(self)@[j],
            idx >= old(self)@.len() ==> *final(self) == *old(self),
            idx < old(self)@.len() && dominates_children(
                old(self)@,
                old(self).branching(),
                idx as int,
                idx as int,
            ) ==> final(self)@ == old(self)@,
            ordered_in_subtree_except(old(self)@, old(self).branching(), idx as int, idx as int)
                ==> ordered_in_subtree(final(self)@, old(self).branching(), idx as int),
            ordered_from(old(self)@, old(self).branching(), idx + 1) ==> ordered_from(
                final(self)@,
                old(self).branching(),
                idx as int,
            ),
    {
        let ghost d = self.branching();
        let ghost pre = ordered_in_subtree_except(self@, d, idx as int, idx as int);
        let size = self.array.len();
        if idx >= size {
            return Ok(());
        }
        proof {
            assert(ancestor_at(idx as int, d, 0) == idx);
        }
        let mut k = idx;
        loop
            invariant
                self.wf(),
                self.branching() == d,
                self.d == old(self).d,
                self@.len() == size,
                size == old(self)@.len(),
                self@.to_multiset() == old(self)@.to_multiset(),
                idx <= k < size,
                on_root_path(idx as int, k as int, d),
                k == idx ==> self@ == old(self)@,
                k != idx ==> !dominates_children(old(self)@, d, idx as int, idx as int),
                forall|j: int|
                    0 <= j < size && !on_root_path(idx as int, j, d) ==> self@[j] == old(self)@[j],
                pre == ordered_in_subtree_except(old(self)@, d, idx as int, idx as int),
                pre ==> ordered_in_subtree_except(self@, d, idx as int, k as int),
            decreases size - k,
        {
            let ghost s = self@;
            let mut largest = k;
            let mut n: u32 = 0;
            while n < self.d
                invariant
                    self@ == s,
                    self.wf(),
                    self.branching() == d,
                    s.len() == size,
                    n <= d,
                    k <= largest < size,
                    largest == k || (parent_of(largest as int, d) == k && s[largest as int]
                        > s[k as int]),
                    dominates_children(s, d, k as int, k as int) ==> largest == k,
                    forall|j: int|
                        0 <= j < n && #[trigger] child_of(k as int, j, d) < size ==> s[largest as int]
                            >= s[child_of(k as int, j, d)],
                ensures
                    k <= largest < size,
                    largest == k || (parent_of(largest as int, d) == k && s[largest as int]
                        > s[k as int]),
                    dominates_children(s, d, k as int, k as int) ==> largest == k,
                    forall|j: int|
                        0 <= j < d && #[trigger] child_of(k as int, j, d) < size ==> s[largest as int]
                            >= s[child_of(k as int, j, d)],
                decreases d - n,
            {
                match self.get_n_son(k, n) {
                    Ok(son) => {
                        proof {
                            lemma_parent_of_child(k as int, n as int, d);
                        }
                        if self.array[son] > self.array[largest] {
                            largest = son;
                        }
                    },
                    Err(_) => {
                        // the slot lies past the end, and so do all later ones
                        break;
                    },
                }
                n = n + 1;
            }
            proof {
                assert forall|c: int| 1 <= c < s.len() && parent_of(c, d) == k implies s[largest as int]
                    >= #[trigger] s[c] by {
                    lemma_child_of_parent(c, d);
                    assert(child_of(k as int, (c - 1) % d, d) == c);
                }
                assert(dominates_children(s, d, k as int, largest as int));
            }
            if largest == k {
                proof {
                    if pre {
                        lemma_subtree_sift_done(s, d, idx as int, k as int);
                    }
                    if ordered_from(old(self)@, d, idx + 1) {
                        lemma_subtree_from_ordered(old(self)@, d, idx as int);
                        lemma_subtree_sift_done(s, d, idx as int, k as int);
                        lemma_ordered_from_subtree(old(self)@, s, d, idx as int);
                    }
                }
                return Ok(());
            }
            proof {
                lemma_subtree_child(idx as int, k as int, largest as int, d);
                if pre {
                    lemma_subtree_sift_step(s, d, idx as int, k as int, largest as int);
                }
                lemma_swap_multiset(s, k as int, largest as int);
            }
            self.swap_slots(k, largest);
            k = largest;
        }
    }

    /// Restores heap order over the live elements, sifting down every
    /// position that has a child, from the last such position to the root.
    /// Elements already in heap order stay where they are.
    fn build_heap(&mut self)
        requires
            old(self).wf(),
        ensures
            final(self).is_heap(),
            final(self).d == old(self).d,
            final(self)@.len() == old(self)@.len(),
            final(self)@.to_multiset() == old(self)@.to_multiset(),
            heap_ordered(old(self)@, old(self).branching()) ==> final(self)@ == old(self)@,
    {
        let ghost d = self.branching();
        let size = self.array.len();
        // one past the last position that has a child
        let mut i: usize = if size <= 1 {
            0
        } else {
            (size - 2) / (self.d as usize) + 1
        };
        proof {
            assert forall|c: int| 1 <= c < size implies parent_of(c, d) < i by {
                lemma_div_is_ordered(c - 1, size - 2, d);
            }
            if size >= 2 {
                lemma_parent_before(size as int - 1, d);
            }
        }
        while i > 0
            invariant
                self.wf(),
                self.branching() == d,
                self.d == old(self).d,
                self@.len() == size,
                size == old(self)@.len(),
                self@.to_multiset() == old(self)@.to_multiset(),
                i <= size,
                ordered_from(self@, d, i as int),
                heap_ordered(old(self)@, d) ==> self@ == old(self)@,
            decreases i,
        {
            i = i - 1;
            proof {
                if heap_ordered(old(self)@, d) {
                    assert(dominates_children(self@, d, i as int, i as int));
                }
            }
            // sifting down never fails
            let _ = self.heapify_down(i);
        }
    }

    /// Removes and returns the largest value; fails with `EmptyHeap` when
    /// there is none.
    pub fn extract_max(&mut self) -> (r: Result<i32, HeapError>)
        requires
            old(self).is_heap(),
        ensures
            final(self).is_heap(),
            final(self).branching() == old(self).branching(),
            old(self)@.len() == 0 ==> r == Err::<i32, HeapError>(HeapError::EmptyHeap)
                && *final(self) == *old(self),
            old(self)@.len() > 0 ==> r == Ok::<i32, HeapError>(old(self)@[0]) && is_max_of(
                old(self)@[0],
                old(self)@.to_multiset(),
            ) && final(self)@.len() == old(self)@.len() - 1 && final(self)@.to_multiset()
                == old(self)@.to_multiset().remove(old(self)@[0]),
    {
        let size = self.array.len();
        if size == 0 {
            return Err(HeapError::EmptyHeap);
        }
        let ghost s = self@;
        let ghost d = self.branching();
        proof {
            lemma_root_is_max(s, d);
        }
        let max = self.array[0];
        let last = self.array.pop().unwrap();
        proof {
            broadcast use vstd::seq_lib::group_to_multiset_ensures;

            assert(s == self@.push(last));
        }
        if size > 1 {
            self.array.set(0, last);
            proof {
                broadcast use vstd::seq_lib::to_multiset_update;

                assert forall|c: int|
                    1 <= c < self@.len() && parent_of(c, d) >= 1 implies self@[parent_of(c, d)]
                    >= #[trigger] self@[c] by {
                    lemma_parent_before(c, d);
                    assert(s[c] <= s[parent_of(c, d)]);
                }
                assert(self@.to_multiset() =~= s.to_multiset().remove(s[0]));
            }
            let _ = self.heapify_down(0);
        } else {
            proof {
                assert(self@.to_multiset() =~= s.to_multiset().remove(s[0]));
            }
        }
        Ok(max)
    }

    /// Sets the branching factor and rebuilds the heap order under it; a
    /// factor of zero is refused and leaves the heap as it was. A heap
    /// rebuilt under its own branching factor stays as it was.
    pub fn change_d(&mut self, d: u32) -> (r: Result<(), HeapError>)
        requires
            old(self).wf(),
        ensures
            final(self).wf(),
            d == 0 ==> r == Err::<(), HeapError>(HeapError::InvalidBranchingFactor) && *final(self)
                == *old(self),
            d > 0 ==> r is Ok && final(self).is_heap() && final(self).branching() == d
                && final(self)@.len() == old(self)@.len() && final(self)@.to_multiset()
                == old(self)@.to_multiset(),
            d == old(self).branching() && old(self).is_heap() ==> final(self)@ == old(self)@,
    {
        if d == 0 {
            return Err(HeapError::InvalidBranchingFactor);
        }
        self.d = d;
        self.build_heap();
        Ok(())
    }

    /// A heap of branching factor `d` over the first `HEAP_MAX_SIZE` values
    /// of `slice` (all of them when there are no more), in heap order.
    pub fn new(d: u32, slice: &[i32]) -> (h: Self)
        requires
            d >= 1,
        ensures
            h.is_heap(),
            h.branching() == d,
            h@.len() == min(slice@.len() as int, HEAP_MAX_SIZE as int),
            h@.to_multiset() == slice@.subrange(
                0,
                min(slice@.len() as int, HEAP_MAX_SIZE as int),
            ).to_multiset(),
    {
        let n = if slice.len() < HEAP_MAX_SIZE {
            slice.len()
        } else {
            HEAP_MAX_SIZE
        };
        let mut array: Vec<i32> = Vec::new();
        let mut i: usize = 0;
        while i < n
            invariant
                n <= slice@.len(),
                n <= HEAP_MAX_SIZE,
                i <= n,
                array@ == slice@.subrange(0, i as int),
            decreases n - i,
        {
            array.push(slice[i]);
            i = i + 1;
            proof {
                assert(array@ =~= slice@.subrange(0, i as int));
            }
        }
        let mut heap = Heap { array, d };
        heap.build_heap();
        heap
    }

    /// The live values at positions `start` up to `end`.
    fn copy_range(&self, start: usize, end: usize) -> (r: Vec<i32>)
        requires
            start <= end <= self@.len(),
        ensures
            r@ == self@.subrange(start as int, end as int),
    {
        let mut row: Vec<i32> = Vec::new();
        let mut i: usize = start;
        while i < end
            invariant
                start <= i <= end,
                end <= self@.len(),
                row@ == self@.subrange(start as int, i as int),
            decreases end - i,
        {
            row.push(self.array[i]);
            i = i + 1;
            proof {
                assert(row@ =~= self@.subrange(start as int, i as int));
            }
        }
        row
    }

    /// The live elements grouped by tree level: the root alone, then the
    /// next `d` positions, then the next `d * d`, and so on; the last group
    /// may be cut short by the end of the heap.
    pub fn levels(&self) -> (r: Vec<Vec<i32>>)
        requires
            self.wf(),
        ensures
            level_start(self.branching(), r@.len()) >= self@.len(),
            forall|k: nat| k < r@.len() ==> #[trigger] level_start(self.branching(), k) < self@.len(),
            forall|k: int|
                0 <= k < r@.len() ==> (#[trigger] r@[k])@ == self@.subrange(
                    level_start(self.branching(), k as nat),
                    min(level_start(self.branching(), (k + 1) as nat), self@.len() as int),
                ),
    {
        let ghost d = self.branching();
        let size = self.array.len();
        let mut out: Vec<Vec<i32>> = Vec::new();
        let mut start: usize = 0;
        let mut count: u64 = 1;
        let ghost mut level: nat = 0;
        proof {
            assert forall|k: nat| #[trigger] level_width(d, k) >= 1 by {
                lemma_level_width_positive(d, k);
            }
        }
        while start < size
            invariant
                self.wf(),
                d == self.branching(),
                size == self@.len(),
                out@.len() == level,
                start <= size,
                start < size ==> start == level_start(d, level) && count == level_width(d, level),
                start == size ==> level_start(d, level) >= size,
                forall|k: nat| k < level ==> #[trigger] level_start(d, k) < size,
                forall|k: nat| #[trigger] level_width(d, k) >= 1,
                forall|k: int|
                    0 <= k < level ==> (#[trigger] out@[k])@ == self@.subrange(
                        level_start(d, k as nat),
                        min(level_start(d, (k + 1) as nat), size as int),
                    ),
            decreases size - start,
        {
            let end: usize = if count < (size - start) as u64 {
                start + count as usize
            } else {
                size
            };
            let ghost before = out@;
            let row = self.copy_range(start, end);
            out.push(row);
            proof {
                assert(out@ == before.push(row));
                assert(level_start(d, level + 1) == level_start(d, level) + level_width(d, level));
                assert(level_width(d, level + 1) == d * level_width(d, level));
                assert(out@[level as int]@ == self@.subrange(
                    level_start(d, level),
                    min(level_start(d, level + 1), size as int),
                ));
            }
            if end < size {
                proof {
                    assert(count * self.d <= 1000 * 0xffff_ffff && count * self.d == self.d * count)
                        by (nonlinear_arith)
                        requires
                            count < 1000,
                            self.d <= 0xffff_ffff,
                    ;
                }
                count = count * (self.d as u64);
            }
            start = end;
            proof {
                let ghost last = level;
                level = level + 1;
                assert forall|k: int| 0 <= k < level implies (#[trigger] out@[k])@ == self@.subrange(
                    level_start(d, k as nat),
                    min(level_start(d, (k + 1) as nat), size as int),
                ) by {
                    if k < last {
                        assert(before[k] == out@[k]);
                    }
                }
            }
        }
        out
    }

    /// Adds `item`, keeping the heap order; fails with `HeapFull` at capacity.
    pub fn insert(&mut self, item: i32) -> (r: Result<(), HeapError>)
        requires
            old(self).is_heap(),
        ensures
            final(self).is_heap(),
            final(self).branching() == old(self).branching(),
            old(self)@.len() == HEAP_MAX_SIZE ==> r == Err::<(), HeapError>(HeapError::HeapFull)
                && *final(self) == *old(self),
            old(self)@.len() < HEAP_MAX_SIZE ==> r is Ok && final(self)@.len() == old(self)@.len()
                + 1 && final(self)@.to_multiset() == old(self)@.to_multiset().insert(item),
    {
        if self.array.len() >= HEAP_MAX_SIZE {
            return Err(HeapError::HeapFull);
        }
        let ghost s0 = self@;
        let ghost d = self.branching();
        self.array.push(item);
        proof {
            broadcast use vstd::seq_lib::group_to_multiset_ensures;

            assert(self@ == s0.push(item));
            assert forall|c: int| 1 <= c < self@.len() && c != s0.len() implies self@[parent_of(
                c,
                d,
            )] >= #[trigger] self@[c] by {
                lemma_parent_before(c, d);
                assert(self@[c] == s0[c]);
            }
            assert forall|c: int| 1 <= c < self@.len() && parent_of(c, d) == s0.len() implies false by {
                lemma_parent_before(c, d);
            }
        }
        self.heapify_up(self.array.len() - 1)
    }
}

} // verus!
