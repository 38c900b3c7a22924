//! What follows from the contracts of the block allocator.
//!
//! Each statement here is about the functions that the contracts of
//! [`FixedBlockAlloc`] are written in: [`pushed`] is what `dealloc` does to
//! the free lists, [`first_stocked`] and [`carve`] are what `allocate` does,
//! and [`split_once`] is what `split_and_downgrade` does.

use super::block::{
    apart, block_size, carve, first_stocked, granted, held, lemma_block_sizes_ordered,
    lemma_first_stocked_own, lemma_granted_positive, lemma_stocked_from, pushed, split_once,
    stocked_from, FixedBlockAlloc, CLASSES,
};
use super::layout::Layout;
use super::memory::MemoryRegion;
use vstd::prelude::*;
use vstd::set_lib::{lemma_int_range, lemma_len_subset, set_int_range};

verus! {

/// A block that is given back is the next to be handed out.
///
/// Once a block of class `index` is back on its list, the next request of
/// that class is served from the list, gets that very block, and leaves the
/// lists as they were before the block came back. So to give back and to
/// request in turn, any number of times, never asks the backing region for
/// memory and never fails.
pub proof fn lemma_given_back_is_reused(lists: Seq<Seq<usize>>, index: int, addr: usize)
    requires
        lists.len() == CLASSES,
        0 <= index < CLASSES,
    ensures
        first_stocked(pushed(lists, index, addr), block_size(index)) == Some(index as usize),
        pushed(lists, index, addr)[index].last() == addr,
        carve(pushed(lists, index, addr), index, index) == lists,
{
    let back = pushed(lists, index, addr);
    lemma_first_stocked_own(back, index);
    assert(back[index].drop_last() =~= lists[index]);
    assert(carve(back, index, index) =~~= lists);
}

/// To give a block back and have it handed out again for the same layout
/// leaves the record of lent blocks as it was.
pub proof fn lemma_lent_restored(lent: Map<int, Layout>, addr: int, layout: Layout)
    requires
        lent.contains_pair(addr, layout),
    ensures
        lent.remove(addr).insert(addr, layout) == lent,
{
    assert(lent.remove(addr).insert(addr, layout) =~= lent);
}

/// The two halves of a split are both there to be handed out.
///
/// After the head of class `index`, at `addr`, was split, the next request
/// of the class below gets the block at `addr`, the one after it gets the
/// block at `addr + block_size(index - 1)`, and then the list of the class
/// below is as it was before the split. The two blocks share no byte and
/// together make up the block that was split.
pub proof fn lemma_split_halves(lists: Seq<Seq<usize>>, index: int)
    requires
        lists.len() == CLASSES,
        0 < index < CLASSES,
        lists[index].len() > 0,
        lists[index].last() + block_size(index) <= usize::MAX,
    ensures
        ({
            let addr = lists[index].last();
            let below = index - 1;
            let half = block_size(below);
            let split = split_once(lists, index);
            let once = carve(split, below, below);
            let twice = carve(once, below, below);
            &&& first_stocked(split, half) == Some(below as usize)
            &&& split[below].last() == addr
            &&& first_stocked(once, half) == Some(below as usize)
            &&& once[below].last() == addr + half
            &&& twice[below] == lists[below]
            &&& twice[index] == lists[index].drop_last()
            &&& apart(addr as int, half, addr + half, half)
            &&& 2 * half == block_size(index)
        }),
{
    let addr = lists[index].last();
    let below = index - 1;
    let half = block_size(below);
    let split = split_once(lists, index);
    let once = carve(split, below, below);
    let twice = carve(once, below, below);
    assert(block_size(index) == 2 * half);
    let upper = (addr + half) as usize;
    assert(split[below] =~= lists[below].push(upper).push(addr));
    lemma_first_stocked_own(split, below);
    assert(once[below] =~= lists[below].push(upper));
    lemma_first_stocked_own(once, below);
    assert(twice[below] =~= lists[below]);
}

/// Blocks that are given back are never joined.
///
/// A block that goes onto the list of class `index` changes no other list.
/// A request that needs more than a block of that class is served from the
/// same class as before, or from the backing region as before: however
/// many halves come back, none of them turns into a larger block.
pub proof fn lemma_no_coalescing(lists: Seq<Seq<usize>>, index: int, addr: usize, need: int)
    requires
        lists.len() == CLASSES,
        0 <= index < CLASSES,
        need > block_size(index),
    ensures
        forall|c: int| 0 <= c < CLASSES && c != index ==> pushed(lists, index, addr)[c] == lists[c],
        first_stocked(pushed(lists, index, addr), need) == first_stocked(lists, need),
{
    let back = pushed(lists, index, addr);
    lemma_same_stock(lists, back, need, 0, index);
}

/// Two sets of lists that differ only in a class too small for `need`
/// have the same first stocked class for it.
proof fn lemma_same_stock(
    lists: Seq<Seq<usize>>,
    other: Seq<Seq<usize>>,
    need: int,
    from: int,
    index: int,
)
    requires
        0 <= from <= CLASSES,
        0 <= index < CLASSES,
        need > block_size(index),
        forall|c: int| 0 <= c < CLASSES && c != index ==> other[c] == lists[c],
    ensures
        stocked_from(other, need, from) == stocked_from(lists, need, from),
    decreases CLASSES - from,
{
    if from < CLASSES {
        lemma_same_stock(lists, other, need, from + 1, index);
    }
}

/// Both halves of a split may come back, and a request of the class that
/// was split is still not served from its own list if that was empty: the
/// halves stay halves.
pub proof fn lemma_halves_stay_apart(
    lists: Seq<Seq<usize>>,
    index: int,
    lower: usize,
    upper: usize,
)
    requires
        lists.len() == CLASSES,
        0 < index < CLASSES,
        lists[index].len() == 0,
    ensures
        ({
            let back = pushed(pushed(lists, index - 1, lower), index - 1, upper);
            &&& back[index].len() == 0
            &&& first_stocked(back, block_size(index)) != Some(index as usize)
            &&& first_stocked(back, block_size(index)) == first_stocked(lists, block_size(index))
        }),
{
    let once = pushed(lists, index - 1, lower);
    let back = pushed(once, index - 1, upper);
    lemma_block_sizes_ordered(index - 1, index);
    lemma_no_coalescing(lists, index - 1, lower, block_size(index));
    lemma_no_coalescing(once, index - 1, upper, block_size(index));
    lemma_stocked_from(back, block_size(index), 0);
}

/// There are never more blocks lent than the region has bytes.
///
/// Every request that succeeds adds one block to those lent. So requests
/// that follow one another with nothing given back cannot all succeed:
/// after at most as many as the region has bytes, one is refused.
pub proof fn lemma_lent_is_bounded(alloc: &FixedBlockAlloc, root: &MemoryRegion)
    requires
        alloc.wf(),
        alloc.within(root),
    ensures
        alloc.lent().dom().len() <= root.end() - root.start(),
{
    let span = set_int_range(root.start() as int, root.end() as int);
    root.lemma_bounds_ordered();
    lemma_int_range(root.start() as int, root.end() as int);
    assert forall|a: int| alloc.lent().dom().contains(a) implies span.contains(a) by {
        assert(held(root, a, granted(alloc.lent()[a])));
        lemma_granted_positive(alloc.lent()[a]);
    }
    lemma_len_subset(alloc.lent().dom(), span);
}

} // verus!
