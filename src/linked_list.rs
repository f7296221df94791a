//! A free-list allocator: free regions form a list, searched first fit; an
//! allocation splits a region, and a freed block is put back at the front,
//! never merged with its neighbours.
use vstd::prelude::*;
use crate::carve::{hands_out, in_range, lemma_handed_out_disjoint, ranges_disjoint};
use crate::layout::{
    align_up, align_up_spec, is_power_of_two, lemma_align_up_spec, lemma_align_up_overflow, lemma_multiple_of_multiple,
    lemma_power_of_two_divides, lemma_usize_power_of_two, Layout,
};
use vstd::arithmetic::power2::{pow2, lemma2_to64};

verus! {

/// Bytes taken by the header that describes a free region in place: its size
/// and the link to the next region, one machine word each.
pub const HEADER_SIZE: usize = 16;

/// Alignment that a free region's header needs.
pub const HEADER_ALIGN: usize = 8;

/// The header of a free region: where the region starts and how many bytes
/// it spans.
#[derive(Clone, Copy, Debug, PartialEq, Eq)]
pub struct ListNode {
    pub start: usize,
    pub size: usize,
}

impl ListNode {
    pub open spec fn end(self) -> int {
        self.start + self.size
    }

    /// The region can hold its own header and lies in the address space.
    pub open spec fn wf(self) -> bool {
        &&& self.start % HEADER_ALIGN == 0
        &&& self.size >= HEADER_SIZE
        &&& self.end() <= usize::MAX
    }

    pub fn new(start: usize, size: usize) -> (r: Self)
        ensures
            r.start == start,
            r.size == size,
    {
        ListNode { start, size }
    }

    /// First address of the region.
    pub fn start_addr(&self) -> (r: usize)
        ensures
            r == self.start,
    {
        self.start
    }

    /// One past the last address of the region.
    pub fn end_addr(&self) -> (r: usize)
        requires
            self.end() <= usize::MAX,
        ensures
            r == self.end(),
    {
        self.start + self.size
    }
}

/// The bytes covered by the regions of `nodes`.
pub open spec fn free_set_of(nodes: Seq<ListNode>) -> Set<int> {
    Set::new(
        |x: int| exists|i: int| 0 <= i < nodes.len() && in_range(x, nodes[i].start as int, #[trigger] nodes[i].size as int),
    )
}

/// No two regions of `nodes` share a byte.
pub open spec fn nodes_disjoint(nodes: Seq<ListNode>) -> bool {
    forall|i: int, j: int|
        0 <= i < nodes.len() && 0 <= j < nodes.len() && i != j ==> ranges_disjoint(
            #[trigger] nodes[i].start as int,
            nodes[i].size as int,
            #[trigger] nodes[j].start as int,
            nodes[j].size as int,
        )
}

/// The list invariant: every region holds its header, and regions do not
/// overlap.
pub open spec fn nodes_wf(nodes: Seq<ListNode>) -> bool {
    &&& forall|i: int| 0 <= i < nodes.len() ==> (#[trigger] nodes[i]).wf()
    &&& nodes_disjoint(nodes)
}

/// An allocation of `size` bytes aligned to `align` fits in `node`: from its
/// start rounded up to `align`, `size` bytes end within the region.
pub open spec fn fits(node: ListNode, size: int, align: int) -> bool {
    align_up_spec(node.start as int, align) + size <= node.end()
}

/// `i` is the first region of `nodes` in which the allocation fits.
pub open spec fn first_fit(nodes: Seq<ListNode>, size: int, align: int, i: int) -> bool {
    &&& 0 <= i < nodes.len()
    &&& fits(nodes[i], size, align)
    &&& forall|j: int| 0 <= j < i ==> !fits(#[trigger] nodes[j], size, align)
}

/// The allocation fits in no region of `nodes`.
pub open spec fn fits_nowhere(nodes: Seq<ListNode>, size: int, align: int) -> bool {
    forall|j: int| 0 <= j < nodes.len() ==> !fits(#[trigger] nodes[j], size, align)
}

/// The alignment actually used for `layout`: at least that of a header.
pub open spec fn adjusted_align(layout: Layout) -> int {
    if layout.align > HEADER_ALIGN {
        layout.align as int
    } else {
        HEADER_ALIGN as int
    }
}

/// The size actually used for `layout`: rounded up to the adjusted
/// alignment, and at least the size of a header.
pub open spec fn adjusted_size(layout: Layout) -> int {
    let rounded = align_up_spec(layout.size as int, adjusted_align(layout));
    if rounded > HEADER_SIZE {
        rounded
    } else {
        HEADER_SIZE as int
    }
}

/// The list once region `i` has been taken for an allocation of `size`
/// bytes aligned to `align`: what is left behind the allocation goes back at
/// the front where it can hold a header; a smaller remainder cannot be
/// tracked and stays unused.
pub open spec fn split_at(nodes: Seq<ListNode>, i: int, size: int, align: int) -> Seq<ListNode> {
    let end = align_up_spec(nodes[i].start as int, align) + size;
    let rest = nodes[i].end() - end;
    if rest >= HEADER_SIZE {
        seq![ListNode { start: end as usize, size: rest as usize }] + nodes.remove(i)
    } else {
        nodes.remove(i)
    }
}

/// What an allocation for `layout` does to the free list `pre`: with the
/// adjusted size and alignment, the first region in which it fits is split
/// and the address handed out is its start rounded up; where it fits
/// nowhere, the allocation fails and nothing changes.
pub open spec fn alloc_post(
    pre: Seq<ListNode>,
    layout: Layout,
    post: Seq<ListNode>,
    r: Option<usize>,
) -> bool {
    let size = adjusted_size(layout);
    let align = adjusted_align(layout);
    &&& fits_nowhere(pre, size, align) ==> r is None && post == pre
    &&& !fits_nowhere(pre, size, align) ==> exists|i: int|
        first_fit(pre, size, align, i) && r is Some && r.unwrap() == align_up_spec(
            pre[i].start as int,
            align,
        ) && post == #[trigger] split_at(pre, i, size, align)
    &&& r matches Some(a) ==> hands_out(
        free_set_of(pre),
        free_set_of(post),
        a as int,
        layout.size as int,
    )
}

/// `[ptr, ptr + size)` can go back on the list: it can hold a header and
/// none of it is free.
pub open spec fn releasable(nodes: Seq<ListNode>, ptr: int, size: int) -> bool {
    &&& ptr % HEADER_ALIGN as int == 0
    &&& ptr + size <= usize::MAX
    &&& forall|x: int| #[trigger] in_range(x, ptr, size) ==> !free_set_of(nodes).contains(x)
}

proof fn lemma_remove_node(nodes: Seq<ListNode>, i: int)
    requires
        nodes_wf(nodes),
        0 <= i < nodes.len(),
    ensures
        nodes_wf(nodes.remove(i)),
        free_set_of(nodes.remove(i)).subset_of(free_set_of(nodes)),
        forall|x: int|
            #[trigger] in_range(x, nodes[i].start as int, nodes[i].size as int) ==> !free_set_of(
                nodes.remove(i),
            ).contains(x),
{
    let rest = nodes.remove(i);
    assert forall|j: int| 0 <= j < rest.len() implies (#[trigger] rest[j]).wf() by {
        if j >= i {
            assert(rest[j] == nodes[j + 1]);
        }
    }
    assert forall|j: int, k: int|
        0 <= j < rest.len() && 0 <= k < rest.len() && j != k implies ranges_disjoint(
        #[trigger] rest[j].start as int,
        rest[j].size as int,
        #[trigger] rest[k].start as int,
        rest[k].size as int,
    ) by {
        let jj = if j < i { j } else { j + 1 };
        let kk = if k < i { k } else { k + 1 };
        assert(rest[j] == nodes[jj]);
        assert(rest[k] == nodes[kk]);
    }
    assert forall|x: int| free_set_of(rest).contains(x) implies free_set_of(nodes).contains(x) by {
        let j = choose|j: int| 0 <= j < rest.len() && in_range(x, rest[j].start as int, #[trigger] rest[j].size as int);
        let jj = if j < i { j } else { j + 1 };
        assert(rest[j] == nodes[jj]);
    }
    assert forall|x: int|
        #[trigger] in_range(x, nodes[i].start as int, nodes[i].size as int) implies !free_set_of(rest).contains(x) by {
        if free_set_of(rest).contains(x) {
            let j = choose|j: int| 0 <= j < rest.len() && in_range(x, rest[j].start as int, #[trigger] rest[j].size as int);
            let jj = if j < i { j } else { j + 1 };
            assert(rest[j] == nodes[jj]);
            assert(ranges_disjoint(nodes[i].start as int, nodes[i].size as int, nodes[jj].start as int, nodes[jj].size as int));
        }
    }
}

pub struct LinkedListAllocator {
    nodes: Vec<ListNode>,
}

impl View for LinkedListAllocator {
    type V = Seq<ListNode>;

    /// The free regions, from the head of the list on.
    closed spec fn view(&self) -> Seq<ListNode> {
        self.nodes@
    }
}

proof fn lemma_header_align_is_power_of_two()
    ensures
        is_power_of_two(HEADER_ALIGN as int),
        is_power_of_two(HEADER_SIZE as int),
{
    lemma2_to64();
    assert(pow2(3) == HEADER_ALIGN);
    assert(pow2(4) == HEADER_SIZE);
}

impl LinkedListAllocator {
    pub open spec fn wf(&self) -> bool {
        nodes_wf(self@)
    }

    pub open spec fn free_set(&self) -> Set<int> {
        free_set_of(self@)
    }

    /// Creates an allocator with no free memory.
    pub fn new() -> (r: Self)
        ensures
            r.wf(),
            r@ == Seq::<ListNode>::empty(),
    {
        LinkedListAllocator { nodes: Vec::new() }
    }

    /// The free regions, from the head of the list on.
    pub fn regions(&self) -> (r: &Vec<ListNode>)
        ensures
            r@ == self@,
    {
        &self.nodes
    }

    /// Rounds `layout` up so that the block handed out can later hold a
    /// region header: returns the adjusted size and alignment.
    pub fn size_align(layout: Layout) -> (r: (usize, usize))
        requires
            layout.wf(),
        ensures
            r.0 == adjusted_size(layout),
            r.1 == adjusted_align(layout),
            r.0 % r.1 == 0 || r.0 == HEADER_SIZE,
            r.0 % HEADER_ALIGN == 0,
            is_power_of_two(r.1 as int),
            layout.size <= r.0,
            layout.align <= r.1,
    {
        proof {
            lemma_header_align_is_power_of_two();
            lemma_usize_power_of_two(layout.align);
        }
        let align = if layout.align > HEADER_ALIGN {
            layout.align
        } else {
            HEADER_ALIGN
        };
        let rounded = align_up(layout.size, align);
        let size = if rounded > HEADER_SIZE {
            rounded
        } else {
            HEADER_SIZE
        };
        proof {
            lemma_power_of_two_divides(HEADER_ALIGN as int, align as int);
            lemma_multiple_of_multiple(rounded as int, HEADER_ALIGN as int, align as int);
        }
        (size, align)
    }

    /// Tries the allocation in `region`: its start rounded up to `align`,
    /// where `size` bytes from there end within the region.
    fn alloc_from_region(region: &ListNode, size: usize, align: usize) -> (r: Result<usize, ()>)
        requires
            region.end() <= usize::MAX,
            is_power_of_two(align as int),
        ensures
            r is Ok <==> fits(*region, size as int, align as int),
            r matches Ok(a) ==> a == align_up_spec(region.start as int, align as int),
    {
        proof {
            lemma_usize_power_of_two(align);
        }
        if region.start_addr() > usize::MAX - (align - 1) {
            proof {
                lemma_align_up_overflow(region.start, align);
            }
            return Err(());
        }
        let alloc_start = align_up(region.start_addr(), align);
        let alloc_end = match alloc_start.checked_add(size) {
            Some(end) => end,
            None => return Err(()),
        };
        if alloc_end > region.end_addr() {
            return Err(());
        }
        Ok(alloc_start)
    }

    /// Puts the region `[addr, addr + size)` at the front of the list.
    fn add_free_region(&mut self, addr: usize, size: usize)
        requires
            old(self).wf(),
            (ListNode { start: addr, size }).wf(),
            forall|x: int| #[trigger] in_range(x, addr as int, size as int) ==> !old(self).free_set().contains(x),
        ensures
            final(self).wf(),
            final(self)@ == seq![ListNode { start: addr, size }] + old(self)@,
    {
        let ghost pre = self@;
        let node = ListNode::new(addr, size);
        self.nodes.insert(0, node);
        proof {
            let post = self@;
            assert(post =~= seq![node] + pre);
            assert forall|i: int, j: int|
                0 <= i < post.len() && 0 <= j < post.len() && i != j implies ranges_disjoint(
                #[trigger] post[i].start as int,
                post[i].size as int,
                #[trigger] post[j].start as int,
                post[j].size as int,
            ) by {
                if i == 0 || j == 0 {
                    let k = if i == 0 { j } else { i };
                    assert forall|x: int| !(#[trigger] in_range(x, post[i].start as int, post[i].size as int) && in_range(
                        x,
                        post[j].start as int,
                        post[j].size as int,
                    )) by {
                        if in_range(x, post[k].start as int, post[k].size as int) {
                            assert(pre[k - 1] == post[k]);
                            assert(free_set_of(pre).contains(x));
                        }
                    }
                } else {
                    assert(pre[i - 1] == post[i]);
                    assert(pre[j - 1] == post[j]);
                }
            }
        }
    }

    /// Gives the allocator the heap `[heap_start, heap_start + heap_size)`,
    /// as a single free region.
    pub fn init(&mut self, heap_start: usize, heap_size: usize)
        requires
            old(self)@.len() == 0,
            (ListNode { start: heap_start, size: heap_size }).wf(),
        ensures
            final(self).wf(),
            final(self)@ == seq![ListNode { start: heap_start, size: heap_size }],
            final(self).free_set() == Set::new(
                |x: int| heap_start <= x < heap_start + heap_size,
            ),
    {
        self.add_free_region(heap_start, heap_size);
        proof {
            assert(self@ =~= seq![ListNode { start: heap_start, size: heap_size }]);
            assert forall|x: int| self.free_set().contains(x) <==> heap_start <= x < heap_start + heap_size by {
                if heap_start <= x < heap_start + heap_size {
                    assert(in_range(x, self@[0].start as int, self@[0].size as int));
                }
            }
            assert(self.free_set() =~= Set::new(
                |x: int| heap_start <= x < heap_start + heap_size,
            ));
        }
    }

    /// Finds the first region in which `size` bytes aligned to `align` fit
    /// and takes it off the list; returns it with the allocation's start.
    fn find_region(&mut self, size: usize, align: usize) -> (r: Option<(ListNode, usize)>)
        requires
            old(self).wf(),
            is_power_of_two(align as int),
        ensures
            final(self).wf(),
            r is None ==> fits_nowhere(old(self)@, size as int, align as int) && final(self)@ == old(self)@,
            r matches Some((node, start)) ==> exists|i: int|
                #[trigger] first_fit(old(self)@, size as int, align as int, i) && node == old(self)@[i]
                    && start == align_up_spec(node.start as int, align as int) && final(self)@ == old(
                    self,
                )@.remove(i),
    {
        let ghost pre = self@;
        let mut i: usize = 0;
        while i < self.nodes.len()
            invariant
                self@ == pre,
                pre == old(self)@,
                nodes_wf(pre),
                is_power_of_two(align as int),
                0 <= i <= pre.len(),
                forall|j: int| 0 <= j < i ==> !fits(#[trigger] pre[j], size as int, align as int),
            decreases pre.len() - i,
        {
            let node = self.nodes[i];
            match Self::alloc_from_region(&node, size, align) {
                Ok(alloc_start) => {
                    let region = self.nodes.remove(i);
                    proof {
                        lemma_remove_node(pre, i as int);
                        assert(first_fit(pre, size as int, align as int, i as int));
                        assert(self@ == pre.remove(i as int));
                    }
                    return Some((region, alloc_start));
                },
                Err(()) => {
                    i = i + 1;
                },
            }
        }
        None
    }

    /// Hands out memory for `layout` from the first free region that can
    /// hold it, or `None` where no region can.
    pub fn allocate(&mut self, layout: Layout) -> (r: Option<usize>)
        requires
            old(self).wf(),
            layout.wf(),
        ensures
            final(self).wf(),
            alloc_post(old(self)@, layout, final(self)@, r),
            r matches Some(a) ==> a % layout.align == 0,
            (forall|i: int| 0 <= i < old(self)@.len() ==> #[trigger] old(self)@[i].size < layout.size)
                ==> r is None,
    {
        let ghost pre = self@;
        let (size, align) = Self::size_align(layout);
        match self.find_region(size, align) {
            Some((region, alloc_start)) => {
                let ghost i = choose|i: int|
                    #[trigger] first_fit(pre, size as int, align as int, i) && region == pre[i] && alloc_start
                        == align_up_spec(region.start as int, align as int) && self@ == pre.remove(i);
                let ghost removed = self@;
                proof {
                    lemma_remove_node(pre, i);
                    lemma_usize_power_of_two(align);
                    lemma_align_up_spec(region.start as int, align as int);
                    lemma_header_align_is_power_of_two();
                    lemma_power_of_two_divides(HEADER_ALIGN as int, align as int);
                    lemma_multiple_of_multiple(alloc_start as int, HEADER_ALIGN as int, align as int);
                }
                let alloc_end = alloc_start + size;
                let excess = region.end_addr() - alloc_end;
                if excess >= HEADER_SIZE {
                    proof {
                        assert(alloc_end % HEADER_ALIGN == 0);
                        assert forall|x: int| #[trigger] in_range(x, alloc_end as int, excess as int) implies !self.free_set().contains(x) by {
                            assert(in_range(x, pre[i].start as int, pre[i].size as int));
                        }
                    }
                    self.add_free_region(alloc_end, excess);
                }
                proof {
                    let post = self@;
                    assert(post == split_at(pre, i, size as int, align as int));
                    let rs = layout.size as int;
                    assert forall|x: int| #[trigger] in_range(x, alloc_start as int, rs) implies free_set_of(pre).contains(x) by {
                        assert(in_range(x, pre[i].start as int, pre[i].size as int));
                    }
                    assert forall|x: int| #[trigger] in_range(x, alloc_start as int, rs) implies !free_set_of(post).contains(x) by {
                        assert(in_range(x, pre[i].start as int, pre[i].size as int));
                        assert(!free_set_of(removed).contains(x));
                        if excess >= HEADER_SIZE && free_set_of(post).contains(x) {
                            let j = choose|j: int| 0 <= j < post.len() && in_range(x, post[j].start as int, #[trigger] post[j].size as int);
                            if j > 0 {
                                assert(post[j] == removed[j - 1]);
                            }
                        }
                    }
                    assert forall|x: int| free_set_of(post).contains(x) implies free_set_of(pre).contains(x) by {
                        if excess >= HEADER_SIZE {
                            let j = choose|j: int| 0 <= j < post.len() && in_range(x, post[j].start as int, #[trigger] post[j].size as int);
                            if j > 0 {
                                assert(post[j] == removed[j - 1]);
                                assert(free_set_of(removed).contains(x));
                            } else {
                                assert(in_range(x, pre[i].start as int, pre[i].size as int));
                            }
                        } else {
                            assert(free_set_of(removed).contains(x));
                        }
                    }
                    assert(hands_out(free_set_of(pre), free_set_of(post), alloc_start as int, rs));
                    lemma_usize_power_of_two(layout.align);
                    lemma_power_of_two_divides(layout.align as int, align as int);
                    lemma_multiple_of_multiple(alloc_start as int, layout.align as int, align as int);
                }
                Some(alloc_start)
            },
            None => {
                proof {
                    if forall|i: int| 0 <= i < pre.len() ==> #[trigger] pre[i].size < layout.size {
                        assert(fits_nowhere(pre, size as int, align as int));
                    }
                }
                None
            },
        }
    }

    /// Tells whether no byte of `[ptr, ptr + size)` is free.
    pub fn is_apart(&self, ptr: usize, size: usize) -> (r: bool)
        requires
            self.wf(),
            size > 0,
            ptr + size <= usize::MAX,
        ensures
            r == forall|x: int| #[trigger] in_range(x, ptr as int, size as int) ==> !self.free_set().contains(x),
    {
        let mut i: usize = 0;
        while i < self.nodes.len()
            invariant
                self.wf(),
                i <= self@.len(),
                size > 0,
                ptr + size <= usize::MAX,
                forall|j: int| 0 <= j < i ==> ranges_disjoint(
                    #[trigger] self@[j].start as int,
                    self@[j].size as int,
                    ptr as int,
                    size as int,
                ),
            decreases self@.len() - i,
        {
            let node = self.nodes[i];
            if ptr < node.end_addr() && node.start_addr() < ptr + size {
                proof {
                    let x = if ptr < node.start { node.start as int } else { ptr as int };
                    assert(in_range(x, self@[i as int].start as int, self@[i as int].size as int));
                    assert(free_set_of(self@).contains(x));
                    assert(in_range(x, ptr as int, size as int));
                }
                return false;
            }
            proof {
                assert forall|x: int| !(#[trigger] in_range(x, self@[i as int].start as int, self@[i as int].size as int) && in_range(
                    x,
                    ptr as int,
                    size as int,
                )) by {}
            }
            i = i + 1;
        }
        proof {
            assert forall|x: int| #[trigger] in_range(x, ptr as int, size as int) implies !free_set_of(self@).contains(x) by {
                if free_set_of(self@).contains(x) {
                    let j = choose|j: int| 0 <= j < self@.len() && in_range(x, self@[j].start as int, #[trigger] self@[j].size as int);
                    assert(ranges_disjoint(self@[j].start as int, self@[j].size as int, ptr as int, size as int));
                }
            }
        }
        true
    }

    /// Tells whether the block at `ptr` may be given back for `layout`: it
    /// can hold a header and overlaps no free region.
    pub fn can_deallocate(&self, ptr: usize, layout: Layout) -> (r: bool)
        requires
            self.wf(),
            layout.wf(),
        ensures
            r == releasable(self@, ptr as int, adjusted_size(layout)),
    {
        let (size, _) = Self::size_align(layout);
        if ptr % HEADER_ALIGN != 0 || ptr > usize::MAX - size {
            return false;
        }
        self.is_apart(ptr, size)
    }

    /// Puts the block at `ptr`, handed out for `layout`, back at the front
    /// of the list as a free region of the adjusted size.
    pub fn deallocate(&mut self, ptr: usize, layout: Layout)
        requires
            old(self).wf(),
            layout.wf(),
            releasable(old(self)@, ptr as int, adjusted_size(layout)),
        ensures
            final(self).wf(),
            final(self)@ == seq![ListNode { start: ptr, size: adjusted_size(layout) as usize }] + old(
                self,
            )@,
    {
        let (size, _) = Self::size_align(layout);
        self.add_free_region(ptr, size);
    }
}

/// Allocations made one after the other, with nothing freed in between,
/// lie in the memory that was free at the start and never overlap.
pub proof fn lemma_allocations_disjoint(
    lists: Seq<Seq<ListNode>>,
    layouts: Seq<Layout>,
    addrs: Seq<usize>,
)
    requires
        lists.len() == addrs.len() + 1,
        layouts.len() == addrs.len(),
        forall|k: int|
            0 <= k < addrs.len() ==> alloc_post(#[trigger] lists[k], layouts[k], lists[k + 1], Some(addrs[k])),
    ensures
        forall|i: int, x: int|
            0 <= i < addrs.len() && #[trigger] in_range(x, addrs[i] as int, layouts[i].size as int)
                ==> free_set_of(lists[0]).contains(x),
        forall|i: int, j: int|
            0 <= i < j < addrs.len() ==> ranges_disjoint(
                addrs[i] as int,
                layouts[i].size as int,
                addrs[j] as int,
                layouts[j].size as int,
            ),
{
    let frees = Seq::new(lists.len(), |k: int| free_set_of(lists[k]));
    let starts = Seq::new(addrs.len(), |k: int| addrs[k] as int);
    let sizes = Seq::new(addrs.len(), |k: int| layouts[k].size as int);
    assert forall|k: int| 0 <= k < starts.len() implies hands_out(
        #[trigger] frees[k],
        frees[k + 1],
        starts[k],
        sizes[k],
    ) by {
        assert(alloc_post(lists[k], layouts[k], lists[k + 1], Some(addrs[k])));
    }
    lemma_handed_out_disjoint(frees, starts, sizes);
    assert forall|i: int, x: int|
        0 <= i < addrs.len() && #[trigger] in_range(
            x,
            addrs[i] as int,
            layouts[i].size as int,
        ) implies free_set_of(lists[0]).contains(x) by {
        assert(in_range(x, starts[i], sizes[i]));
    }
    assert forall|i: int, j: int| 0 <= i < j < addrs.len() implies ranges_disjoint(
        addrs[i] as int,
        layouts[i].size as int,
        addrs[j] as int,
        layouts[j].size as int,
    ) by {
        assert(ranges_disjoint(starts[i], sizes[i], starts[j], sizes[j]));
    }
}

/// A block handed out for `layout`, freed, and asked for again with the same
/// layout is handed out again at the same address.
pub proof fn lemma_round_trip(
    before: Seq<ListNode>,
    layout: Layout,
    addr: usize,
    taken: Seq<ListNode>,
    again: Seq<ListNode>,
    after: Seq<ListNode>,
    r: Option<usize>,
)
    requires
        layout.wf(),
        alloc_post(before, layout, taken, Some(addr)),
        again == seq![ListNode { start: addr, size: adjusted_size(layout) as usize }] + taken,
        alloc_post(again, layout, after, r),
    ensures
        r == Some(addr),
{
    let size = adjusted_size(layout);
    let align = adjusted_align(layout);
    lemma_usize_power_of_two(layout.align);
    let i = choose|i: int|
        first_fit(before, size, align, i) && Some(addr).unwrap() == align_up_spec(before[i].start as int, align)
            && taken == #[trigger] split_at(before, i, size, align);
    lemma_align_up_spec(before[i].start as int, align);
    lemma_align_up_spec(addr as int, align);
    assert(fits(again[0], size, align));
    assert(!fits_nowhere(again, size, align));
    let j = choose|j: int|
        first_fit(again, size, align, j) && r is Some && r.unwrap() == align_up_spec(again[j].start as int, align)
            && after == #[trigger] split_at(again, j, size, align);
    if j > 0 {
        assert(!fits(again[0], size, align));
    }
}

} // verus!
