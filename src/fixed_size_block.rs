//! A segregated allocator: one list of free blocks per power-of-two size
//! class from 8 to 2048 bytes, with a free-list allocator behind it for
//! larger requests and for fresh blocks.
use vstd::prelude::*;
use crate::carve::{hands_out, in_range, lemma_handed_out_disjoint, lemma_hands_out_prefix, ranges_disjoint};
use crate::layout::{is_power_of_two, lemma_usize_power_of_two, Layout};
use crate::linked_list::{self, adjusted_align, adjusted_size, fits, free_set_of, nodes_wf, LinkedListAllocator, ListNode};
use vstd::arithmetic::power2::{pow2, lemma2_to64, lemma_pow2_unfold, lemma_pow2_strictly_increases};

verus! {

/// Number of size classes.
pub const NUM_BLOCK_SIZES: usize = 9;

/// Size of the largest class; larger requests go to the fallback allocator.
pub const LARGEST_BLOCK_SIZE: usize = 2048;

/// Size, and alignment, of the blocks of class `index`: 8, 16, 32, ..., 2048.
pub open spec fn block_size(index: int) -> int {
    pow2((index + 3) as nat) as int
}

/// What a request needs of a block: its size and its alignment.
pub open spec fn required_block_size(layout: Layout) -> int {
    if layout.size > layout.align {
        layout.size as int
    } else {
        layout.align as int
    }
}

/// The first class, counting from `from`, whose blocks are at least
/// `required` bytes; `NUM_BLOCK_SIZES` where there is none.
pub open spec fn first_class(required: int, from: int) -> int
    decreases NUM_BLOCK_SIZES - from,
{
    if from >= NUM_BLOCK_SIZES {
        NUM_BLOCK_SIZES as int
    } else if block_size(from) >= required {
        from
    } else {
        first_class(required, from + 1)
    }
}

/// The class that serves `layout`: the smallest whose blocks are large and
/// aligned enough, or `None` where the request is larger than every class.
pub open spec fn class_of(layout: Layout) -> Option<int> {
    let k = first_class(required_block_size(layout), 0);
    if k < NUM_BLOCK_SIZES {
        Some(k)
    } else {
        None
    }
}

/// The layout in which fresh blocks of class `index` are taken from the
/// fallback allocator.
pub open spec fn block_layout(index: int) -> Layout {
    Layout { size: block_size(index) as usize, align: block_size(index) as usize }
}

proof fn lemma_block_sizes()
    ensures
        block_size(0) == 8,
        block_size(1) == 16,
        block_size(2) == 32,
        block_size(3) == 64,
        block_size(4) == 128,
        block_size(5) == 256,
        block_size(6) == 512,
        block_size(7) == 1024,
        block_size(8) == 2048,
        forall|k: int| 0 <= k < NUM_BLOCK_SIZES ==> is_power_of_two(#[trigger] block_size(k)),
{
    lemma2_to64();
    assert forall|k: int| 0 <= k < NUM_BLOCK_SIZES implies is_power_of_two(#[trigger] block_size(k)) by {
        assert(pow2((k + 3) as nat) == block_size(k));
    }
}

proof fn lemma_block_size_grows(j: int, k: int)
    requires
        0 <= j < k,
    ensures
        block_size(j) < block_size(k),
{
    lemma_pow2_strictly_increases((j + 3) as nat, (k + 3) as nat);
}

proof fn lemma_first_class(required: int, from: int)
    requires
        0 <= from <= NUM_BLOCK_SIZES,
    ensures
        from <= first_class(required, from) <= NUM_BLOCK_SIZES,
        first_class(required, from) < NUM_BLOCK_SIZES ==> block_size(first_class(required, from)) >= required,
        forall|j: int| from <= j < first_class(required, from) ==> block_size(j) < required,
    decreases NUM_BLOCK_SIZES - from,
{
    if from < NUM_BLOCK_SIZES && block_size(from) < required {
        lemma_first_class(required, from + 1);
    }
}

/// The class of `layout`, if any, has blocks at least as large and as
/// aligned as the request, and there is none only for requests larger than
/// the largest class.
pub proof fn lemma_class_of(layout: Layout)
    requires
        layout.wf(),
    ensures
        class_of(layout) matches Some(k) ==> 0 <= k < NUM_BLOCK_SIZES && block_size(k)
            >= required_block_size(layout) && (block_size(k) as int) % (layout.align as int) == 0,
        class_of(layout) is None <==> required_block_size(layout) > LARGEST_BLOCK_SIZE,
{
    lemma_first_class(required_block_size(layout), 0);
    lemma_block_sizes();
    let k = first_class(required_block_size(layout), 0);
    if k < NUM_BLOCK_SIZES {
        crate::layout::lemma_power_of_two_divides(layout.align as int, block_size(k));
    }
}

/// The bytes covered by a block of some class list.
pub open spec fn in_block(lists: Seq<Seq<usize>>, x: int) -> bool {
    exists|k: int, i: int|
        0 <= k < lists.len() && 0 <= i < lists[k].len() && #[trigger] in_range(x, lists[k][i] as int, block_size(k))
}

/// Every block is aligned to its class and lies in the address space.
pub open spec fn blocks_placed(lists: Seq<Seq<usize>>) -> bool {
    forall|k: int, i: int|
        0 <= k < lists.len() && 0 <= i < lists[k].len() ==> (#[trigger] lists[k][i]) as int % block_size(k) == 0
            && lists[k][i] + block_size(k) <= usize::MAX
}

/// No two blocks share a byte.
pub open spec fn blocks_disjoint(lists: Seq<Seq<usize>>) -> bool {
    forall|k1: int, i1: int, k2: int, i2: int|
        0 <= k1 < lists.len() && 0 <= i1 < lists[k1].len() && 0 <= k2 < lists.len() && 0 <= i2
            < lists[k2].len() && (k1 != k2 || i1 != i2) ==> ranges_disjoint(
            #[trigger] lists[k1][i1] as int,
            block_size(k1),
            #[trigger] lists[k2][i2] as int,
            block_size(k2),
        )
}

/// No block shares a byte with a free region of `nodes`.
pub open spec fn blocks_apart(lists: Seq<Seq<usize>>, nodes: Seq<ListNode>) -> bool {
    forall|k: int, i: int, x: int|
        0 <= k < lists.len() && 0 <= i < lists[k].len() && #[trigger] in_range(
            x,
            lists[k][i] as int,
            block_size(k),
        ) ==> !free_set_of(nodes).contains(x)
}

/// Size of the blocks of class `index`.
pub fn block_size_of(index: usize) -> (r: usize)
    requires
        index < NUM_BLOCK_SIZES,
    ensures
        r == block_size(index as int),
{
    proof {
        lemma_block_sizes();
    }
    let mut size: usize = 8;
    let mut k: usize = 0;
    while k < index
        invariant
            k <= index < NUM_BLOCK_SIZES,
            size == block_size(k as int),
        decreases index - k,
    {
        proof {
            lemma_block_sizes();
            lemma_pow2_unfold((k + 4) as nat);
            if k + 1 < NUM_BLOCK_SIZES - 1 {
                lemma_block_size_grows(k as int + 1, NUM_BLOCK_SIZES as int - 1);
            }
            assert(block_size(k + 1) == 2 * size);
        }
        size = size * 2;
        k = k + 1;
    }
    size
}

/// Chooses the class for `layout`: the index of the smallest class whose
/// blocks are at least as large as both its size and its alignment.
pub fn list_index(layout: &Layout) -> (r: Option<usize>)
    requires
        layout.wf(),
    ensures
        r matches Some(k) ==> class_of(*layout) == Some(k as int),
        r is None ==> class_of(*layout) is None,
{
    let required = if layout.size > layout.align {
        layout.size
    } else {
        layout.align
    };
    let mut i: usize = 0;
    while i < NUM_BLOCK_SIZES
        invariant
            i <= NUM_BLOCK_SIZES,
            required == required_block_size(*layout),
            first_class(required as int, 0) == first_class(required as int, i as int),
        decreases NUM_BLOCK_SIZES - i,
    {
        if block_size_of(i) >= required {
            return Some(i);
        }
        i = i + 1;
    }
    None
}

/// Bytes that a block handed out for `layout` occupies: its class's block
/// size, or the fallback allocator's adjusted size.
pub open spec fn held_size(layout: Layout) -> int {
    match class_of(layout) {
        Some(k) => block_size(k),
        None => adjusted_size(layout),
    }
}

/// Alignment that a block handed out for `layout` is known to have.
pub open spec fn held_align(layout: Layout) -> int {
    match class_of(layout) {
        Some(k) => block_size(k),
        None => linked_list::HEADER_ALIGN as int,
    }
}

pub struct FixedSizeBlockAllocator {
    list_heads: Vec<Vec<usize>>,
    fallback_allocator: LinkedListAllocator,
}

impl FixedSizeBlockAllocator {
    /// The free blocks of each class; the last of a list is its head.
    pub closed spec fn lists(&self) -> Seq<Seq<usize>> {
        self.list_heads@.map_values(|v: Vec<usize>| v@)
    }

    /// The free regions of the fallback allocator.
    pub closed spec fn fallback(&self) -> Seq<ListNode> {
        self.fallback_allocator@
    }

    pub open spec fn wf(&self) -> bool {
        &&& self.lists().len() == NUM_BLOCK_SIZES
        &&& nodes_wf(self.fallback())
        &&& blocks_placed(self.lists())
        &&& blocks_disjoint(self.lists())
        &&& blocks_apart(self.lists(), self.fallback())
    }

    /// The bytes free for allocation: in the fallback's regions or in a
    /// block of some class.
    pub open spec fn free_set(&self) -> Set<int> {
        Set::new(|x: int| free_set_of(self.fallback()).contains(x) || in_block(self.lists(), x))
    }

    /// Creates an allocator with empty class lists and no memory.
    pub fn new() -> (r: Self)
        ensures
            r.wf(),
            r.lists() == Seq::new(NUM_BLOCK_SIZES as nat, |k: int| Seq::<usize>::empty()),
            r.fallback() == Seq::<ListNode>::empty(),
    {
        let mut list_heads: Vec<Vec<usize>> = Vec::new();
        let mut k: usize = 0;
        while k < NUM_BLOCK_SIZES
            invariant
                k <= NUM_BLOCK_SIZES,
                list_heads@.len() == k,
                forall|j: int| 0 <= j < k ==> (#[trigger] list_heads@[j])@ == Seq::<usize>::empty(),
            decreases NUM_BLOCK_SIZES - k,
        {
            list_heads.push(Vec::new());
            k = k + 1;
        }
        let r = FixedSizeBlockAllocator { list_heads, fallback_allocator: LinkedListAllocator::new() };
        proof {
            assert(r.lists() =~= Seq::new(NUM_BLOCK_SIZES as nat, |k: int| Seq::<usize>::empty()));
        }
        r
    }

    /// The free blocks of class `index`; the last is the list's head.
    pub fn free_blocks(&self, index: usize) -> (r: &Vec<usize>)
        requires
            self.wf(),
            index < NUM_BLOCK_SIZES,
        ensures
            r@ == self.lists()[index as int],
    {
        &self.list_heads[index]
    }

    /// The free regions of the fallback allocator.
    pub fn fallback_regions(&self) -> (r: &Vec<ListNode>)
        ensures
            r@ == self.fallback(),
    {
        self.fallback_allocator.regions()
    }

    /// Gives the fallback allocator the heap `[heap_start, heap_start + heap_size)`.
    pub fn init(&mut self, heap_start: usize, heap_size: usize)
        requires
            old(self).wf(),
            old(self).lists() == Seq::new(NUM_BLOCK_SIZES as nat, |k: int| Seq::<usize>::empty()),
            old(self).fallback().len() == 0,
            (ListNode { start: heap_start, size: heap_size }).wf(),
        ensures
            final(self).wf(),
            final(self).lists() == old(self).lists(),
            final(self).fallback() == seq![ListNode { start: heap_start, size: heap_size }],
            final(self).free_set() == Set::new(
                |x: int| heap_start <= x < heap_start + heap_size,
            ),
    {
        self.fallback_allocator.init(heap_start, heap_size);
        proof {
            assert forall|x: int| !in_block(self.lists(), x) by {}
            assert(self.free_set() =~= Set::new(
                |x: int| heap_start <= x < heap_start + heap_size,
            ));
        }
    }

    /// What `allocate` does. A request with a class takes the head of that
    /// class's list where there is one, and otherwise a fresh block of the
    /// class from the fallback allocator; a larger request goes to the
    /// fallback allocator as it is.
    pub open spec fn alloc_post(pre: Self, layout: Layout, post: Self, r: Option<usize>) -> bool {
        &&& match class_of(layout) {
            Some(k) => if pre.lists()[k].len() > 0 {
                &&& r == Some(pre.lists()[k].last())
                &&& post.lists() == pre.lists().update(k, pre.lists()[k].drop_last())
                &&& post.fallback() == pre.fallback()
            } else {
                &&& post.lists() == pre.lists()
                &&& linked_list::alloc_post(pre.fallback(), block_layout(k), post.fallback(), r)
            },
            None => {
                &&& post.lists() == pre.lists()
                &&& linked_list::alloc_post(pre.fallback(), layout, post.fallback(), r)
            },
        }
        &&& r matches Some(a) ==> hands_out(pre.free_set(), post.free_set(), a as int, layout.size as int)
    }

    /// The block at `ptr` can be given back for `layout`: it is aligned as
    /// its class (or as a region header, for a request without a class),
    /// lies in the address space, and none of it is free.
    pub open spec fn releasable(&self, ptr: int, layout: Layout) -> bool {
        &&& ptr % held_align(layout) == 0
        &&& ptr + held_size(layout) <= usize::MAX
        &&& forall|x: int| #[trigger] in_range(x, ptr, held_size(layout)) ==> !self.free_set().contains(x)
    }

    /// What `deallocate` does: a block with a class goes to the head of its
    /// class's list; any other goes back to the fallback allocator.
    pub open spec fn dealloc_post(pre: Self, ptr: usize, layout: Layout, post: Self) -> bool {
        match class_of(layout) {
            Some(k) => {
                &&& post.lists() == pre.lists().update(k, pre.lists()[k].push(ptr))
                &&& post.fallback() == pre.fallback()
            },
            None => {
                &&& post.lists() == pre.lists()
                &&& post.fallback() == seq![ListNode { start: ptr, size: adjusted_size(layout) as usize }]
                    + pre.fallback()
            },
        }
    }

    proof fn lemma_pop_keeps_wf(self, pre: Self, k: int)
        requires
            pre.wf(),
            0 <= k < NUM_BLOCK_SIZES,
            pre.lists()[k].len() > 0,
            self.lists() == pre.lists().update(k, pre.lists()[k].drop_last()),
            self.fallback() == pre.fallback(),
        ensures
            self.wf(),
    {
        let old_lists = pre.lists();
        let lists = self.lists();
        assert forall|k1: int, i1: int| 0 <= k1 < lists.len() && 0 <= i1 < lists[k1].len() implies #[trigger] lists[k1][i1]
            == old_lists[k1][i1] && i1 < old_lists[k1].len() by {}
        assert(blocks_placed(lists)) by {
            assert forall|k1: int, i1: int| 0 <= k1 < lists.len() && 0 <= i1 < lists[k1].len() implies (
            #[trigger] lists[k1][i1]) as int % block_size(k1) == 0 && lists[k1][i1] + block_size(k1) <= usize::MAX by {
                assert(lists[k1][i1] == old_lists[k1][i1]);
            }
        }
        assert(blocks_disjoint(lists)) by {
            assert forall|k1: int, i1: int, k2: int, i2: int|
                0 <= k1 < lists.len() && 0 <= i1 < lists[k1].len() && 0 <= k2 < lists.len() && 0 <= i2
                    < lists[k2].len() && (k1 != k2 || i1 != i2) implies ranges_disjoint(
                #[trigger] lists[k1][i1] as int,
                block_size(k1),
                #[trigger] lists[k2][i2] as int,
                block_size(k2),
            ) by {
                assert(lists[k1][i1] == old_lists[k1][i1]);
                assert(lists[k2][i2] == old_lists[k2][i2]);
            }
        }
        assert(blocks_apart(lists, self.fallback())) by {
            assert forall|k1: int, i1: int, x: int|
                0 <= k1 < lists.len() && 0 <= i1 < lists[k1].len() && #[trigger] in_range(
                    x,
                    lists[k1][i1] as int,
                    block_size(k1),
                ) implies !free_set_of(self.fallback()).contains(x) by {
                assert(lists[k1][i1] == old_lists[k1][i1]);
                assert(in_range(x, old_lists[k1][i1] as int, block_size(k1)));
            }
        }
    }

    proof fn lemma_pop_hands_out(self, pre: Self, k: int, layout: Layout)
        requires
            pre.wf(),
            0 <= k < NUM_BLOCK_SIZES,
            pre.lists()[k].len() > 0,
            self.lists() == pre.lists().update(k, pre.lists()[k].drop_last()),
            self.fallback() == pre.fallback(),
            layout.size <= block_size(k),
        ensures
            hands_out(pre.free_set(), self.free_set(), pre.lists()[k].last() as int, layout.size as int),
    {
        let old_lists = pre.lists();
        let lists = self.lists();
        let n = old_lists[k].len() - 1;
        let b = old_lists[k][n];
        assert forall|x: int| #[trigger] in_range(x, b as int, layout.size as int) implies pre.free_set().contains(x)
            && !self.free_set().contains(x) by {
            assert(in_range(x, old_lists[k][n] as int, block_size(k)));
            assert(in_block(old_lists, x));
            if in_block(lists, x) {
                let (k2, i2) = choose|k2: int, i2: int|
                    0 <= k2 < lists.len() && 0 <= i2 < lists[k2].len() && #[trigger] in_range(
                        x,
                        lists[k2][i2] as int,
                        block_size(k2),
                    );
                assert(lists[k2][i2] == old_lists[k2][i2]);
                assert(ranges_disjoint(
                    old_lists[k2][i2] as int,
                    block_size(k2),
                    old_lists[k][n] as int,
                    block_size(k),
                ));
            }
        }
        assert forall|x: int| self.free_set().contains(x) implies pre.free_set().contains(x) by {
            if in_block(lists, x) {
                let (k2, i2) = choose|k2: int, i2: int|
                    0 <= k2 < lists.len() && 0 <= i2 < lists[k2].len() && #[trigger] in_range(
                        x,
                        lists[k2][i2] as int,
                        block_size(k2),
                    );
                assert(lists[k2][i2] == old_lists[k2][i2]);
                assert(in_range(x, old_lists[k2][i2] as int, block_size(k2)));
            }
        }
    }

    proof fn lemma_fallback_keeps_wf(self, pre: Self, layout: Layout, r: Option<usize>)
        requires
            pre.wf(),
            self.lists() == pre.lists(),
            nodes_wf(self.fallback()),
            linked_list::alloc_post(pre.fallback(), layout, self.fallback(), r),
        ensures
            self.wf(),
            r matches Some(a) ==> hands_out(pre.free_set(), self.free_set(), a as int, layout.size as int),
    {
        let lists = self.lists();
        assert(free_set_of(self.fallback()).subset_of(free_set_of(pre.fallback())));
        assert(blocks_apart(lists, self.fallback())) by {
            assert forall|k1: int, i1: int, x: int|
                0 <= k1 < lists.len() && 0 <= i1 < lists[k1].len() && #[trigger] in_range(
                    x,
                    lists[k1][i1] as int,
                    block_size(k1),
                ) implies !free_set_of(self.fallback()).contains(x) by {}
        }
        if r is Some {
            let a = r.unwrap() as int;
            let size = layout.size as int;
            assert forall|x: int| #[trigger] in_range(x, a, size) implies pre.free_set().contains(x)
                && !self.free_set().contains(x) by {
                assert(free_set_of(pre.fallback()).contains(x));
                if in_block(lists, x) {
                    let (k2, i2) = choose|k2: int, i2: int|
                        0 <= k2 < lists.len() && 0 <= i2 < lists[k2].len() && #[trigger] in_range(
                            x,
                            lists[k2][i2] as int,
                            block_size(k2),
                        );
                }
            }
            assert(self.free_set().subset_of(pre.free_set()));
        }
    }

    /// Allocates from the fallback allocator.
    fn fallback_alloc(&mut self, layout: Layout) -> (r: Option<usize>)
        requires
            nodes_wf(old(self).fallback()),
            layout.wf(),
        ensures
            nodes_wf(final(self).fallback()),
            final(self).list_heads == old(self).list_heads,
            linked_list::alloc_post(old(self).fallback(), layout, final(self).fallback(), r),
            r matches Some(a) ==> a % layout.align == 0,
            (forall|i: int| 0 <= i < old(self).fallback().len() ==> #[trigger] old(self).fallback()[i].size
                < layout.size) ==> r is None,
    {
        self.fallback_allocator.allocate(layout)
    }

    /// Hands out a block for `layout`: the head of its class's list, a fresh
    /// block of the class, or, for a request larger than every class, memory
    /// from the fallback allocator; `None` where the fallback has no room.
    pub fn allocate(&mut self, layout: Layout) -> (r: Option<usize>)
        requires
            old(self).wf(),
            layout.wf(),
        ensures
            final(self).wf(),
            Self::alloc_post(*old(self), layout, *final(self), r),
            r matches Some(a) ==> a % layout.align == 0,
            class_of(layout) is None && (forall|i: int|
                0 <= i < old(self).fallback().len() ==> #[trigger] old(self).fallback()[i].size < layout.size)
                ==> r is None,
    {
        let ghost pre = *self;
        proof {
            lemma_class_of(layout);
            lemma_block_sizes();
            lemma_usize_power_of_two(layout.align);
        }
        match list_index(&layout) {
            Some(index) => {
                match self.list_heads[index].pop() {
                    Some(block) => {
                        proof {
                            let lists = pre.lists();
                            let n = lists[index as int].len() - 1;
                            assert(self.lists() =~= lists.update(index as int, lists[index as int].drop_last()));
                            assert(block == lists[index as int][n]);
                            self.lemma_pop_keeps_wf(pre, index as int);
                            self.lemma_pop_hands_out(pre, index as int, layout);
                            crate::layout::lemma_multiple_of_multiple(
                                block as int,
                                layout.align as int,
                                block_size(index as int),
                            );
                        }
                        Some(block)
                    },
                    None => {
                        let block_size = block_size_of(index);
                        let fresh = Layout { size: block_size, align: block_size };
                        proof {
                            assert(self.lists() =~= pre.lists());
                            assert(fresh == block_layout(index as int));
                        }
                        let r = self.fallback_alloc(fresh);
                        proof {
                            assert(self.lists() =~= pre.lists());
                            self.lemma_fallback_keeps_wf(pre, fresh, r);
                            if r is Some {
                                lemma_hands_out_prefix(
                                    pre.free_set(),
                                    self.free_set(),
                                    r.unwrap() as int,
                                    block_size as int,
                                    layout.size as int,
                                );
                                crate::layout::lemma_multiple_of_multiple(
                                    r.unwrap() as int,
                                    layout.align as int,
                                    block_size as int,
                                );
                            }
                        }
                        r
                    },
                }
            },
            None => {
                let r = self.fallback_alloc(layout);
                proof {
                    assert(self.lists() =~= pre.lists());
                    self.lemma_fallback_keeps_wf(pre, layout, r);
                }
                r
            },
        }
    }

    proof fn lemma_push_keeps_wf(self, pre: Self, k: int, ptr: usize)
        requires
            pre.wf(),
            0 <= k < NUM_BLOCK_SIZES,
            self.lists() == pre.lists().update(k, pre.lists()[k].push(ptr)),
            self.fallback() == pre.fallback(),
            ptr as int % block_size(k) == 0,
            ptr + block_size(k) <= usize::MAX,
            forall|x: int| #[trigger] in_range(x, ptr as int, block_size(k)) ==> !pre.free_set().contains(x),
        ensures
            self.wf(),
    {
        let old_lists = pre.lists();
        let lists = self.lists();
        let n = old_lists[k].len() as int;
        assert forall|k1: int, i1: int|
            0 <= k1 < lists.len() && 0 <= i1 < lists[k1].len() && !(k1 == k && i1 == n) implies #[trigger] lists[k1][i1]
            == old_lists[k1][i1] && i1 < old_lists[k1].len() by {}
        assert(lists[k][n] == ptr);
        assert(blocks_placed(lists)) by {
            assert forall|k1: int, i1: int| 0 <= k1 < lists.len() && 0 <= i1 < lists[k1].len() implies (
            #[trigger] lists[k1][i1]) as int % block_size(k1) == 0 && lists[k1][i1] + block_size(k1) <= usize::MAX by {
                if !(k1 == k && i1 == n) {
                    assert(lists[k1][i1] == old_lists[k1][i1]);
                }
            }
        }
        assert(blocks_disjoint(lists)) by {
            assert forall|k1: int, i1: int, k2: int, i2: int|
                0 <= k1 < lists.len() && 0 <= i1 < lists[k1].len() && 0 <= k2 < lists.len() && 0 <= i2
                    < lists[k2].len() && (k1 != k2 || i1 != i2) implies ranges_disjoint(
                #[trigger] lists[k1][i1] as int,
                block_size(k1),
                #[trigger] lists[k2][i2] as int,
                block_size(k2),
            ) by {
                if k1 == k && i1 == n {
                    assert(lists[k2][i2] == old_lists[k2][i2]);
                    assert forall|x: int| !(#[trigger] in_range(x, lists[k1][i1] as int, block_size(k1)) && in_range(
                        x,
                        lists[k2][i2] as int,
                        block_size(k2),
                    )) by {
                        if in_range(x, old_lists[k2][i2] as int, block_size(k2)) {
                            assert(in_block(old_lists, x));
                        }
                    }
                } else if k2 == k && i2 == n {
                    assert(lists[k1][i1] == old_lists[k1][i1]);
                    assert forall|x: int| !(#[trigger] in_range(x, lists[k1][i1] as int, block_size(k1)) && in_range(
                        x,
                        lists[k2][i2] as int,
                        block_size(k2),
                    )) by {
                        if in_range(x, old_lists[k1][i1] as int, block_size(k1)) {
                            assert(in_block(old_lists, x));
                        }
                    }
                } else {
                    assert(lists[k1][i1] == old_lists[k1][i1]);
                    assert(lists[k2][i2] == old_lists[k2][i2]);
                }
            }
        }
        assert(blocks_apart(lists, self.fallback())) by {
            assert forall|k1: int, i1: int, x: int|
                0 <= k1 < lists.len() && 0 <= i1 < lists[k1].len() && #[trigger] in_range(
                    x,
                    lists[k1][i1] as int,
                    block_size(k1),
                ) implies !free_set_of(self.fallback()).contains(x) by {
                if !(k1 == k && i1 == n) {
                    assert(lists[k1][i1] == old_lists[k1][i1]);
                    assert(in_range(x, old_lists[k1][i1] as int, block_size(k1)));
                } else {
                    assert(!pre.free_set().contains(x));
                }
            }
        }
    }

    proof fn lemma_release_keeps_wf(self, pre: Self, node: ListNode)
        requires
            pre.wf(),
            self.lists() == pre.lists(),
            self.fallback() == seq![node] + pre.fallback(),
            nodes_wf(self.fallback()),
            forall|x: int| #[trigger] in_range(x, node.start as int, node.size as int) ==> !pre.free_set().contains(x),
        ensures
            self.wf(),
    {
        let lists = self.lists();
        let nodes = self.fallback();
        assert(blocks_apart(lists, nodes)) by {
            assert forall|k1: int, i1: int, x: int|
                0 <= k1 < lists.len() && 0 <= i1 < lists[k1].len() && #[trigger] in_range(
                    x,
                    lists[k1][i1] as int,
                    block_size(k1),
                ) implies !free_set_of(nodes).contains(x) by {
                assert(in_block(lists, x));
                if free_set_of(nodes).contains(x) {
                    let j = choose|j: int| 0 <= j < nodes.len() && in_range(x, nodes[j].start as int, #[trigger] nodes[j].size as int);
                    if j == 0 {
                        assert(in_range(x, node.start as int, node.size as int));
                    } else {
                        assert(nodes[j] == pre.fallback()[j - 1]);
                        assert(free_set_of(pre.fallback()).contains(x));
                    }
                }
            }
        }
    }

    /// Tells whether the block at `ptr` may be given back for `layout`.
    pub fn can_deallocate(&self, ptr: usize, layout: Layout) -> (r: bool)
        requires
            self.wf(),
            layout.wf(),
        ensures
            r == self.releasable(ptr as int, layout),
    {
        proof {
            lemma_class_of(layout);
            lemma_block_sizes();
        }
        let (size, align) = match list_index(&layout) {
            Some(index) => {
                let b = block_size_of(index);
                (b, b)
            },
            None => {
                let (s, _) = LinkedListAllocator::size_align(layout);
                (s, linked_list::HEADER_ALIGN)
            },
        };
        assert(size == held_size(layout) && align == held_align(layout));
        if ptr % align != 0 || ptr > usize::MAX - size {
            return false;
        }
        if !self.fallback_allocator.is_apart(ptr, size) {
            proof {
                let x = choose|x: int| #[trigger] in_range(x, ptr as int, size as int) && free_set_of(self.fallback()).contains(x);
                assert(self.free_set().contains(x));
            }
            return false;
        }
        let mut k: usize = 0;
        while k < NUM_BLOCK_SIZES
            invariant
                self.wf(),
                k <= NUM_BLOCK_SIZES,
                size > 0,
                ptr + size <= usize::MAX,
                size == held_size(layout),
                ptr as int % held_align(layout) == 0,
                forall|k1: int, i1: int|
                    0 <= k1 < k && 0 <= i1 < self.lists()[k1].len() ==> ranges_disjoint(
                        #[trigger] self.lists()[k1][i1] as int,
                        block_size(k1),
                        ptr as int,
                        size as int,
                    ),
            decreases NUM_BLOCK_SIZES - k,
        {
            let bs = block_size_of(k);
            let blocks = &self.list_heads[k];
            proof {
                assert(blocks@ == self.lists()[k as int]);
            }
            let mut i: usize = 0;
            while i < blocks.len()
                invariant
                    self.wf(),
                    k < NUM_BLOCK_SIZES,
                    blocks@ == self.lists()[k as int],
                    bs == block_size(k as int),
                    i <= blocks@.len(),
                    size > 0,
                    ptr + size <= usize::MAX,
                    size == held_size(layout),
                    ptr as int % held_align(layout) == 0,
                    forall|k1: int, i1: int|
                        0 <= k1 < k && 0 <= i1 < self.lists()[k1].len() ==> ranges_disjoint(
                            #[trigger] self.lists()[k1][i1] as int,
                            block_size(k1),
                            ptr as int,
                            size as int,
                        ),
                    forall|i1: int|
                        0 <= i1 < i ==> ranges_disjoint(
                            #[trigger] self.lists()[k as int][i1] as int,
                            block_size(k as int),
                            ptr as int,
                            size as int,
                        ),
                decreases blocks@.len() - i,
            {
                let b = blocks[i];
                proof {
                    lemma_block_sizes();
                    assert(b == self.lists()[k as int][i as int]);
                    assert(b + bs <= usize::MAX);
                }
                if ptr < b + bs && b < ptr + size {
                    proof {
                        let x = if ptr < b { b as int } else { ptr as int };
                        assert(in_range(x, self.lists()[k as int][i as int] as int, block_size(k as int)));
                        assert(in_block(self.lists(), x));
                        assert(in_range(x, ptr as int, size as int));
                    }
                    return false;
                }
                proof {
                    assert forall|x: int| !(#[trigger] in_range(x, self.lists()[k as int][i as int] as int, block_size(k as int)) && in_range(
                        x,
                        ptr as int,
                        size as int,
                    )) by {}
                }
                i = i + 1;
            }
            k = k + 1;
        }
        proof {
            assert forall|x: int| #[trigger] in_range(x, ptr as int, size as int) implies !self.free_set().contains(x) by {
                if in_block(self.lists(), x) {
                    let (k1, i1) = choose|k1: int, i1: int|
                        0 <= k1 < self.lists().len() && 0 <= i1 < self.lists()[k1].len() && #[trigger] in_range(
                            x,
                            self.lists()[k1][i1] as int,
                            block_size(k1),
                        );
                    assert(ranges_disjoint(self.lists()[k1][i1] as int, block_size(k1), ptr as int, size as int));
                }
            }
        }
        true
    }

    /// Takes back the block at `ptr`, handed out for `layout`: onto the
    /// head of its class's list, or back to the fallback allocator for a
    /// request larger than every class.
    pub fn deallocate(&mut self, ptr: usize, layout: Layout)
        requires
            old(self).wf(),
            layout.wf(),
            old(self).releasable(ptr as int, layout),
        ensures
            final(self).wf(),
            Self::dealloc_post(*old(self), ptr, layout, *final(self)),
    {
        let ghost pre = *self;
        proof {
            lemma_class_of(layout);
        }
        match list_index(&layout) {
            Some(index) => {
                self.list_heads[index].push(ptr);
                proof {
                    let lists = pre.lists();
                    assert(held_size(layout) == block_size(index as int));
                    assert(self.lists() =~= lists.update(index as int, lists[index as int].push(ptr)));
                    self.lemma_push_keeps_wf(pre, index as int, ptr);
                }
            },
            None => {
                proof {
                    assert(held_size(layout) == adjusted_size(layout));
                    assert forall|x: int| #[trigger] in_range(x, ptr as int, adjusted_size(layout)) implies !free_set_of(
                        pre.fallback(),
                    ).contains(x) by {
                        assert(!pre.free_set().contains(x));
                    }
                }
                self.fallback_allocator.deallocate(ptr, layout);
                proof {
                    assert(self.lists() =~= pre.lists());
                    let node = ListNode { start: ptr, size: adjusted_size(layout) as usize };
                    self.lemma_release_keeps_wf(pre, node);
                }
            },
        }
    }

    /// Allocations made one after the other, with nothing freed in between,
    /// lie in the memory that was free at the start and never overlap.
    pub proof fn lemma_allocations_disjoint(states: Seq<Self>, layouts: Seq<Layout>, addrs: Seq<usize>)
        requires
            states.len() == addrs.len() + 1,
            layouts.len() == addrs.len(),
            forall|k: int|
                0 <= k < addrs.len() ==> Self::alloc_post(
                    #[trigger] states[k],
                    layouts[k],
                    states[k + 1],
                    Some(addrs[k]),
                ),
        ensures
            forall|i: int, x: int|
                0 <= i < addrs.len() && #[trigger] in_range(x, addrs[i] as int, layouts[i].size as int)
                    ==> states[0].free_set().contains(x),
            forall|i: int, j: int|
                0 <= i < j < addrs.len() ==> ranges_disjoint(
                    addrs[i] as int,
                    layouts[i].size as int,
                    addrs[j] as int,
                    layouts[j].size as int,
                ),
    {
        let frees = Seq::new(states.len(), |k: int| states[k].free_set());
        let starts = Seq::new(addrs.len(), |k: int| addrs[k] as int);
        let sizes = Seq::new(addrs.len(), |k: int| layouts[k].size as int);
        assert forall|k: int| 0 <= k < starts.len() implies hands_out(
            #[trigger] frees[k],
            frees[k + 1],
            starts[k],
            sizes[k],
        ) by {
            assert(Self::alloc_post(states[k], layouts[k], states[k + 1], Some(addrs[k])));
        }
        lemma_handed_out_disjoint(frees, starts, sizes);
        assert forall|i: int, x: int|
            0 <= i < addrs.len() && #[trigger] in_range(
                x,
                addrs[i] as int,
                layouts[i].size as int,
            ) implies states[0].free_set().contains(x) by {
            assert(in_range(x, starts[i], sizes[i]));
        }
        assert forall|i: int, j: int| 0 <= i < j < addrs.len() implies ranges_disjoint(
            addrs[i] as int,
            layouts[i].size as int,
            addrs[j] as int,
            layouts[j].size as int,
        ) by {
            assert(ranges_disjoint(starts[i], sizes[i], starts[j], sizes[j]));
        }
    }

    /// A block handed out for `layout`, freed, and asked for again with the
    /// same layout is handed out again at the same address.
    pub proof fn lemma_round_trip(
        before: Self,
        layout: Layout,
        addr: usize,
        taken: Self,
        again: Self,
        after: Self,
        r: Option<usize>,
    )
        requires
            before.wf(),
            layout.wf(),
            Self::alloc_post(before, layout, taken, Some(addr)),
            Self::dealloc_post(taken, addr, layout, again),
            Self::alloc_post(again, layout, after, r),
        ensures
            r == Some(addr),
    {
        lemma_class_of(layout);
        match class_of(layout) {
            Some(k) => {
                assert(again.lists()[k] == taken.lists()[k].push(addr));
            },
            None => {
                linked_list::lemma_round_trip(
                    before.fallback(),
                    layout,
                    addr,
                    taken.fallback(),
                    again.fallback(),
                    after.fallback(),
                    r,
                );
            },
        }
    }

    /// A block freed for a request with a class is what the next request of
    /// the same class gets, and the fallback allocator is left alone.
    pub proof fn lemma_freed_block_reused(
        before: Self,
        ptr: usize,
        layout: Layout,
        freed: Self,
        next: Layout,
        after: Self,
        r: Option<usize>,
    )
        requires
            before.wf(),
            layout.wf(),
            class_of(layout) is Some,
            class_of(next) == class_of(layout),
            Self::dealloc_post(before, ptr, layout, freed),
            Self::alloc_post(freed, next, after, r),
        ensures
            r == Some(ptr),
            after.fallback() == freed.fallback(),
    {
        lemma_class_of(layout);
        let k = class_of(layout).unwrap();
        assert(freed.lists()[k] == before.lists()[k].push(ptr));
    }

    /// A request larger than every class goes to the fallback allocator as
    /// it is, and is served wherever a fallback region can hold it.
    pub proof fn lemma_large_request_served(pre: Self, layout: Layout, post: Self, r: Option<usize>, i: int)
        requires
            layout.wf(),
            class_of(layout) is None,
            Self::alloc_post(pre, layout, post, r),
            0 <= i < pre.fallback().len(),
            fits(pre.fallback()[i], adjusted_size(layout), adjusted_align(layout)),
        ensures
            r is Some,
            post.lists() == pre.lists(),
            linked_list::alloc_post(pre.fallback(), layout, post.fallback(), r),
    {
    }
}

} // verus!
