//! A bump allocator: hands out memory from a single moving pointer and takes
//! the whole heap back once every allocation has been freed.
use vstd::prelude::*;
use crate::carve::{hands_out, in_range, lemma_handed_out_disjoint, ranges_disjoint};
use crate::layout::{align_up, align_up_spec, lemma_align_up_overflow, lemma_usize_power_of_two, Layout};

verus! {

pub struct BumpAllocator {
    heap_start: usize,
    heap_end: usize,
    next: usize,
    allocations: usize,
}

impl BumpAllocator {
    /// First address of the heap.
    pub closed spec fn spec_heap_start(&self) -> int {
        self.heap_start as int
    }

    /// One past the last address of the heap.
    pub closed spec fn spec_heap_end(&self) -> int {
        self.heap_end as int
    }

    /// First address that has not been handed out.
    pub closed spec fn spec_next(&self) -> int {
        self.next as int
    }

    /// Number of allocations not yet freed.
    pub closed spec fn spec_allocations(&self) -> int {
        self.allocations as int
    }

    pub open spec fn wf(&self) -> bool {
        self.spec_heap_start() <= self.spec_next() <= self.spec_heap_end()
    }

    /// The bytes that can still be handed out: from `next` to the heap's end.
    pub open spec fn free_set(&self) -> Set<int> {
        Set::new(|x: int| self.spec_next() <= x < self.spec_heap_end())
    }

    /// The address that `allocate` hands out for `layout`, if any: `next`
    /// rounded up to the alignment, where the range from there does not pass
    /// the heap's end.
    pub open spec fn alloc_result(&self, layout: Layout) -> Option<int> {
        let start = align_up_spec(self.spec_next(), layout.align as int);
        if start + layout.size <= self.spec_heap_end() {
            Some(start)
        } else {
            None
        }
    }

    /// What `allocate` does: on success `next` moves to the end of the handed
    /// out range and one more allocation is counted; on failure nothing
    /// changes.
    pub open spec fn alloc_post(pre: Self, layout: Layout, post: Self, r: Option<usize>) -> bool {
        &&& post.spec_heap_start() == pre.spec_heap_start()
        &&& post.spec_heap_end() == pre.spec_heap_end()
        &&& match pre.alloc_result(layout) {
            Some(a) => {
                &&& r is Some && r.unwrap() == a
                &&& post.spec_next() == a + layout.size
                &&& post.spec_allocations() == pre.spec_allocations() + 1
                &&& hands_out(pre.free_set(), post.free_set(), a, layout.size as int)
            },
            None => r is None && post == pre,
        }
    }

    /// What `deallocate` does: one allocation fewer, and the whole heap is free
    /// again once none is left.
    pub open spec fn dealloc_post(pre: Self, post: Self) -> bool {
        &&& post.spec_heap_start() == pre.spec_heap_start()
        &&& post.spec_heap_end() == pre.spec_heap_end()
        &&& post.spec_allocations() == pre.spec_allocations() - 1
        &&& post.spec_next() == if post.spec_allocations() == 0 {
            pre.spec_heap_start()
        } else {
            pre.spec_next()
        }
    }

    /// Creates an allocator with an empty heap.
    pub fn new() -> (r: Self)
        ensures
            r.wf(),
            r.spec_heap_start() == 0,
            r.spec_heap_end() == 0,
            r.spec_next() == 0,
            r.spec_allocations() == 0,
    {
        BumpAllocator { heap_start: 0, heap_end: 0, next: 0, allocations: 0 }
    }

    /// Gives the allocator the heap `[heap_start, heap_start + heap_size)`.
    pub fn init(&mut self, heap_start: usize, heap_size: usize)
        requires
            heap_start + heap_size <= usize::MAX,
        ensures
            final(self).wf(),
            final(self).spec_heap_start() == heap_start,
            final(self).spec_heap_end() == heap_start + heap_size,
            final(self).spec_next() == heap_start,
            final(self).spec_allocations() == old(self).spec_allocations(),
            final(self).free_set() == Set::new(
                |x: int| heap_start <= x < heap_start + heap_size,
            ),
    {
        self.heap_start = heap_start;
        self.heap_end = heap_start + heap_size;
        self.next = heap_start;
        proof {
            assert(self.free_set() =~= Set::new(
                |x: int| heap_start <= x < heap_start + heap_size,
            ));
        }
    }

    /// First address that has not been handed out.
    pub fn next(&self) -> (r: usize)
        ensures
            r == self.spec_next(),
    {
        self.next
    }

    /// Number of allocations not yet freed.
    pub fn allocations(&self) -> (r: usize)
        ensures
            r == self.spec_allocations(),
    {
        self.allocations
    }

    /// Hands out `layout.size` bytes at `next` rounded up to `layout.align`,
    /// or `None` where they do not fit before the heap's end.
    pub fn allocate(&mut self, layout: Layout) -> (r: Option<usize>)
        requires
            old(self).wf(),
            layout.wf(),
            old(self).spec_allocations() < usize::MAX,
        ensures
            final(self).wf(),
            Self::alloc_post(*old(self), layout, *final(self), r),
            r matches Some(a) ==> a % layout.align == 0,
            layout.size > old(self).spec_heap_end() - old(self).spec_next() ==> r is None,
    {
        proof {
            lemma_usize_power_of_two(layout.align);
        }
        if self.next > usize::MAX - (layout.align - 1) {
            proof {
                lemma_align_up_overflow(self.next, layout.align);
            }
            return None;
        }
        let alloc_start = align_up(self.next, layout.align);
        let alloc_end = match alloc_start.checked_add(layout.size) {
            Some(end) => end,
            None => return None,
        };
        if alloc_end > self.heap_end {
            None
        } else {
            let ghost pre = *self;
            self.next = alloc_end;
            self.allocations = self.allocations + 1;
            proof {
                let post = *self;
                assert forall|x: int| #[trigger]
                    in_range(x, alloc_start as int, layout.size as int) implies pre.free_set().contains(
                    x,
                ) by {}
                assert forall|x: int| #[trigger]
                    in_range(x, alloc_start as int, layout.size as int) implies !post.free_set().contains(
                    x,
                ) by {}
                assert(post.free_set().subset_of(pre.free_set()));
            }
            Some(alloc_start)
        }
    }

    /// Counts one allocation as freed; once none is left, the whole heap is
    /// free again.
    pub fn deallocate(&mut self, ptr: usize, layout: Layout)
        requires
            old(self).wf(),
            old(self).spec_allocations() > 0,
        ensures
            final(self).wf(),
            Self::dealloc_post(*old(self), *final(self)),
    {
        self.allocations = self.allocations - 1;
        if self.allocations == 0 {
            self.next = self.heap_start;
        }
    }

    /// Allocations made one after the other, with nothing freed in between,
    /// lie in the memory that was free at the start and never overlap.
    pub proof fn lemma_allocations_disjoint(
        states: Seq<BumpAllocator>,
        layouts: Seq<Layout>,
        addrs: Seq<usize>,
    )
        requires
            states.len() == addrs.len() + 1,
            layouts.len() == addrs.len(),
            forall|k: int|
                0 <= k < addrs.len() ==> Self::alloc_post(
                    #[trigger] states[k],
                    layouts[k],
                    states[k + 1],
                    Some(addrs[k]),
                ),
        ensures
            forall|i: int, x: int|
                0 <= i < addrs.len() && #[trigger] in_range(x, addrs[i] as int, layouts[i].size as int)
                    ==> states[0].free_set().contains(x),
            forall|i: int, j: int|
                0 <= i < j < addrs.len() ==> ranges_disjoint(
                    addrs[i] as int,
                    layouts[i].size as int,
                    addrs[j] as int,
                    layouts[j].size as int,
                ),
    {
        let frees = Seq::new(states.len(), |k: int| states[k].free_set());
        let starts = Seq::new(addrs.len(), |k: int| addrs[k] as int);
        let sizes = Seq::new(addrs.len(), |k: int| layouts[k].size as int);
        assert forall|k: int| 0 <= k < starts.len() implies hands_out(
            #[trigger] frees[k],
            frees[k + 1],
            starts[k],
            sizes[k],
        ) by {
            assert(Self::alloc_post(states[k], layouts[k], states[k + 1], Some(addrs[k])));
        }
        lemma_handed_out_disjoint(frees, starts, sizes);
        assert forall|i: int, x: int|
            0 <= i < addrs.len() && #[trigger] in_range(
                x,
                addrs[i] as int,
                layouts[i].size as int,
            ) implies states[0].free_set().contains(x) by {
            assert(in_range(x, starts[i], sizes[i]));
        }
        assert forall|i: int, j: int| 0 <= i < j < addrs.len() implies ranges_disjoint(
            addrs[i] as int,
            layouts[i].size as int,
            addrs[j] as int,
            layouts[j].size as int,
        ) by {
            assert(ranges_disjoint(starts[i], sizes[i], starts[j], sizes[j]));
        }
    }

    proof fn lemma_counts(states: Seq<BumpAllocator>, layouts: Seq<Layout>, addrs: Seq<usize>, k: int, i: int)
        requires
            0 <= i <= 2 * k,
            states.len() == 2 * k + 1,
            forall|j: int|
                0 <= j < k ==> Self::alloc_post(
                    #[trigger] states[j],
                    layouts[j],
                    states[j + 1],
                    Some(addrs[j]),
                ),
            forall|j: int| k <= j < 2 * k ==> Self::dealloc_post(#[trigger] states[j], states[j + 1]),
        ensures
            states[i].spec_heap_start() == states[0].spec_heap_start(),
            states[i].spec_heap_end() == states[0].spec_heap_end(),
            states[i].spec_allocations() == states[0].spec_allocations() + if i <= k {
                i
            } else {
                2 * k - i
            },
        decreases i,
    {
        if i > 0 {
            Self::lemma_counts(states, layouts, addrs, k, i - 1);
            if i - 1 < k {
                assert(Self::alloc_post(states[i - 1], layouts[i - 1], states[i], Some(addrs[i - 1])));
            } else {
                assert(Self::dealloc_post(states[i - 1], states[i]));
            }
        }
    }

    /// Once all of `k` allocations made from a state without any are freed
    /// again, in any order, `next` is back at the heap's start and an
    /// allocation of the whole heap succeeds.
    pub proof fn lemma_reset_after_all_freed(
        states: Seq<BumpAllocator>,
        layouts: Seq<Layout>,
        addrs: Seq<usize>,
        k: int,
    )
        requires
            k >= 1,
            states.len() == 2 * k + 1,
            states[0].wf(),
            states[0].spec_allocations() == 0,
            forall|j: int|
                0 <= j < k ==> Self::alloc_post(
                    #[trigger] states[j],
                    layouts[j],
                    states[j + 1],
                    Some(addrs[j]),
                ),
            forall|j: int| k <= j < 2 * k ==> Self::dealloc_post(#[trigger] states[j], states[j + 1]),
        ensures
            states[2 * k].spec_next() == states[0].spec_heap_start(),
            forall|whole: Layout|
                whole.align == 1 && whole.size == states[0].spec_heap_end() - states[0].spec_heap_start()
                    ==> #[trigger] states[2 * k].alloc_result(whole) == Some(states[0].spec_heap_start()),
    {
        Self::lemma_counts(states, layouts, addrs, k, 2 * k);
        Self::lemma_counts(states, layouts, addrs, k, 2 * k - 1);
        assert(Self::dealloc_post(states[2 * k - 1], states[2 * k]));
    }
}

} // verus!
