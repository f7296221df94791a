//! What handing out free memory means, common to every allocator.
use vstd::prelude::*;

verus! {

/// The byte address `x` lies in `[addr, addr + size)`.
pub open spec fn in_range(x: int, addr: int, size: int) -> bool {
    addr <= x < addr + size
}

/// The ranges `[a, a + sa)` and `[b, b + sb)` have no byte in common.
pub open spec fn ranges_disjoint(a: int, sa: int, b: int, sb: int) -> bool {
    forall|x: int| !(#[trigger] in_range(x, a, sa) && in_range(x, b, sb))
}

/// An allocation took `[addr, addr + size)` out of the free memory `before`,
/// leaving `after`: every byte of the range was free, none of it is free
/// afterwards, and no byte became free.
pub open spec fn hands_out(before: Set<int>, after: Set<int>, addr: int, size: int) -> bool {
    &&& forall|x: int| #[trigger] in_range(x, addr, size) ==> before.contains(x)
    &&& forall|x: int| #[trigger] in_range(x, addr, size) ==> !after.contains(x)
    &&& after.subset_of(before)
}

/// Handing out a range hands out each of its prefixes.
pub proof fn lemma_hands_out_prefix(before: Set<int>, after: Set<int>, addr: int, size: int, prefix: int)
    requires
        hands_out(before, after, addr, size),
        prefix <= size,
    ensures
        hands_out(before, after, addr, prefix),
{
    assert forall|x: int| #[trigger] in_range(x, addr, prefix) implies before.contains(x) && !after.contains(x) by {
        assert(in_range(x, addr, size));
    }
}

proof fn lemma_free_shrinks(frees: Seq<Set<int>>, addrs: Seq<int>, sizes: Seq<int>, i: int, j: int)
    requires
        frees.len() == addrs.len() + 1,
        sizes.len() == addrs.len(),
        forall|k: int|
            0 <= k < addrs.len() ==> hands_out(
                #[trigger] frees[k],
                frees[k + 1],
                addrs[k],
                sizes[k],
            ),
        0 <= i <= j < frees.len(),
    ensures
        frees[j].subset_of(frees[i]),
    decreases j - i,
{
    if i < j {
        lemma_free_shrinks(frees, addrs, sizes, i, j - 1);
        assert(hands_out(frees[j - 1], frees[j], addrs[j - 1], sizes[j - 1]));
    }
}

/// Ranges handed out one after the other, with nothing given back in between,
/// lie in the memory that was free at the start and never overlap.
pub proof fn lemma_handed_out_disjoint(frees: Seq<Set<int>>, addrs: Seq<int>, sizes: Seq<int>)
    requires
        frees.len() == addrs.len() + 1,
        sizes.len() == addrs.len(),
        forall|k: int|
            0 <= k < addrs.len() ==> hands_out(
                #[trigger] frees[k],
                frees[k + 1],
                addrs[k],
                sizes[k],
            ),
    ensures
        forall|i: int, x: int|
            0 <= i < addrs.len() && #[trigger] in_range(x, addrs[i], sizes[i]) ==> frees[0].contains(x),
        forall|i: int, j: int|
            0 <= i < j < addrs.len() ==> ranges_disjoint(addrs[i], sizes[i], addrs[j], sizes[j]),
{
    assert forall|i: int, x: int|
        0 <= i < addrs.len() && #[trigger] in_range(x, addrs[i], sizes[i]) implies frees[0].contains(x) by {
        lemma_free_shrinks(frees, addrs, sizes, 0, i);
        assert(hands_out(frees[i], frees[i + 1], addrs[i], sizes[i]));
    }
    assert forall|i: int, j: int| 0 <= i < j < addrs.len() implies ranges_disjoint(
        addrs[i],
        sizes[i],
        addrs[j],
        sizes[j],
    ) by {
        lemma_free_shrinks(frees, addrs, sizes, i + 1, j);
        assert(hands_out(frees[i], frees[i + 1], addrs[i], sizes[i]));
        assert(hands_out(frees[j], frees[j + 1], addrs[j], sizes[j]));
        assert forall|x: int| !(#[trigger] in_range(x, addrs[i], sizes[i]) && in_range(
            x,
            addrs[j],
            sizes[j],
        )) by {
            if in_range(x, addrs[i], sizes[i]) && in_range(x, addrs[j], sizes[j]) {
                assert(frees[j].contains(x));
                assert(frees[i + 1].contains(x));
            }
        }
    }
}

} // verus!
