//! Fixed-size block allocator.
//!
//! Requests are rounded up to one of nine size classes. Each class keeps a
//! stack of free blocks; an empty class is refilled by halving the head of
//! the first larger class that holds a block, one class down at a time, or
//! from the backing region where no larger class has a block. Blocks of
//! one split are never joined again.

use super::heap::AllocError;
use super::layout::{lemma_pow2_divides, valid_size_align, Layout};
use super::memory::{extent, MemoryRegion};
use vstd::arithmetic::div_mod::{
    lemma_fundamental_div_mod, lemma_mod_add_multiples_vanish, lemma_mod_mod,
};
use vstd::arithmetic::logarithm::{lemma_log_is_ordered, lemma_log_pow, log};
use vstd::arithmetic::power::{lemma_pow_positive, pow};
use vstd::arithmetic::power2::{is_pow2, is_pow2_equiv, is_pow2_exists, lemma2_to64, pow2};
use vstd::prelude::*;

verus! {

/// The block size of each class, in bytes: the powers of two from 8 to 2048.
pub const BLOCK_SIZES: [usize; 9] = [8, 16, 32, 64, 128, 256, 512, 1024, 2048];

/// Number of size classes.
pub const CLASSES: usize = 9;

/// The block size of class `index`, in contracts.
pub open spec fn block_size(index: int) -> int {
    BLOCK_SIZES[index] as int
}

/// The bytes that a block must have to serve `layout`: the larger of its
/// size and its alignment.
pub open spec fn needed(layout: Layout) -> int {
    if layout.size() >= layout.align() {
        layout.size() as int
    } else {
        layout.align() as int
    }
}

/// The first class from `from` on whose blocks have at least `need` bytes.
pub open spec fn class_from(need: int, from: int) -> Option<usize>
    decreases CLASSES - from,
{
    if from < 0 || from >= CLASSES {
        None
    } else if block_size(from) >= need {
        Some(from as usize)
    } else {
        class_from(need, from + 1)
    }
}

/// The size class that serves `layout`: the smallest whose blocks have
/// [`needed`] bytes. `None` where even the largest class is too small.
pub open spec fn class_for(layout: Layout) -> Option<usize> {
    class_from(needed(layout), 0)
}

/// The first class from `from` on whose blocks have at least `need` bytes
/// and whose list in `lists` holds a block.
pub open spec fn stocked_from(lists: Seq<Seq<usize>>, need: int, from: int) -> Option<usize>
    decreases CLASSES - from,
{
    if from < 0 || from >= CLASSES {
        None
    } else if block_size(from) >= need && lists[from].len() > 0 {
        Some(from as usize)
    } else {
        stocked_from(lists, need, from + 1)
    }
}

/// The smallest class whose blocks have at least `need` bytes and whose
/// list in `lists` holds a block.
pub open spec fn first_stocked(lists: Seq<Seq<usize>>, need: int) -> Option<usize> {
    stocked_from(lists, need, 0)
}

/// The smallest class above the class of `layout` whose list in `lists`
/// holds a block: the class whose head is split when the class of `layout`
/// has run out. `None` where no class above holds a block, and where
/// `layout` has no class.
pub open spec fn first_stocked_above(lists: Seq<Seq<usize>>, layout: Layout) -> Option<usize> {
    match class_for(layout) {
        Some(target) => stocked_from(lists, needed(layout), target as int + 1),
        None => None,
    }
}

/// [`class_from`] finds the least class that is large enough, if there is
/// one.
pub proof fn lemma_class_from(need: int, from: int)
    requires
        0 <= from <= CLASSES,
    ensures
        match class_from(need, from) {
            Some(i) => {
                &&& from <= i < CLASSES
                &&& need <= block_size(i as int)
                &&& forall|j: int| from <= j < i ==> block_size(j) < need
            },
            None => forall|j: int| from <= j < CLASSES ==> block_size(j) < need,
        },
    decreases CLASSES - from,
{
    if from < CLASSES && block_size(from) < need {
        lemma_class_from(need, from + 1);
    }
}

/// [`stocked_from`] finds the least class that is large enough and holds a
/// block, if there is one.
pub proof fn lemma_stocked_from(lists: Seq<Seq<usize>>, need: int, from: int)
    requires
        0 <= from <= CLASSES,
    ensures
        match stocked_from(lists, need, from) {
            Some(i) => {
                &&& from <= i < CLASSES
                &&& need <= block_size(i as int)
                &&& lists[i as int].len() > 0
                &&& forall|j: int|
                    from <= j < i ==> !(need <= block_size(j) && #[trigger] lists[j].len() > 0)
            },
            None => forall|j: int|
                from <= j < CLASSES ==> !(need <= block_size(j) && #[trigger] lists[j].len() > 0),
        },
    decreases CLASSES - from,
{
    if from < CLASSES && !(block_size(from) >= need && lists[from].len() > 0) {
        lemma_stocked_from(lists, need, from + 1);
    }
}

/// The search for a stocked class passes over classes that are too small
/// or empty.
pub proof fn lemma_stocked_skips(lists: Seq<Seq<usize>>, need: int, from: int, upto: int)
    requires
        0 <= from <= upto <= CLASSES,
        forall|c: int| from <= c < upto ==> !(need <= block_size(c) && #[trigger] lists[c].len() > 0),
    ensures
        stocked_from(lists, need, from) == stocked_from(lists, need, upto),
    decreases upto - from,
{
    if from < upto {
        assert(!(need <= block_size(from) && lists[from].len() > 0));
        lemma_stocked_skips(lists, need, from + 1, upto);
    }
}

/// What [`first_stocked_above`] finds: each class above the class of
/// `layout` is large enough, so the first of them that holds a block is
/// found. Where the class of `layout` is itself empty, that is also the
/// first stocked class for the need of `layout`.
pub proof fn lemma_first_stocked_above(lists: Seq<Seq<usize>>, layout: Layout)
    requires
        class_for(layout) is Some,
    ensures
        ({
            let target = class_for(layout)->Some_0 as int;
            &&& 0 <= target < CLASSES
            &&& match first_stocked_above(lists, layout) {
                Some(source) => {
                    &&& target < source < CLASSES
                    &&& lists[source as int].len() > 0
                    &&& forall|c: int| target < c < source ==> #[trigger] lists[c].len() == 0
                },
                None => forall|c: int| target < c < CLASSES ==> #[trigger] lists[c].len() == 0,
            }
            &&& lists[target].len() == 0 ==> first_stocked(lists, needed(layout))
                == first_stocked_above(lists, layout)
        }),
{
    let need = needed(layout);
    let target = class_for(layout)->Some_0 as int;
    lemma_class_from(need, 0);
    lemma_stocked_from(lists, need, target + 1);
    assert forall|c: int| target < c < CLASSES implies need <= block_size(c) by {
        lemma_block_sizes_ordered(target, c);
    }
    match first_stocked_above(lists, layout) {
        Some(source) => {
            assert forall|c: int| target < c < source implies #[trigger] lists[c].len() == 0 by {
                assert(!(need <= block_size(c) && lists[c].len() > 0));
            }
        },
        None => {
            assert forall|c: int| target < c < CLASSES implies #[trigger] lists[c].len() == 0 by {
                assert(!(need <= block_size(c) && lists[c].len() > 0));
            }
        },
    }
    if lists[target].len() == 0 {
        assert forall|c: int| 0 <= c < target + 1 implies !(need <= block_size(c)
            && #[trigger] lists[c].len() > 0) by {
            if c < target {
                assert(block_size(c) < need);
            }
        }
        lemma_stocked_skips(lists, need, 0, target + 1);
    }
}

/// Returns the index of BLOCK_SIZES related to the correct block size.
///
/// That is the smallest class whose blocks hold both the size and the
/// alignment of `layout`; there is none where either exceeds 2048.
pub fn list_index(layout: Layout) -> (index: Option<usize>)
    ensures
        index == class_for(layout),
        match index {
            Some(i) => {
                &&& i < CLASSES
                &&& layout.size() <= block_size(i as int)
                &&& layout.align() <= block_size(i as int)
                &&& i > 0 ==> block_size(i - 1) < needed(layout)
            },
            None => needed(layout) > 2048,
        },
{
    let wanted = if layout.size() >= layout.align() {
        layout.size()
    } else {
        layout.align()
    };
    let mut i: usize = 0;
    while i < CLASSES
        invariant
            i <= CLASSES,
            wanted == needed(layout),
            class_from(needed(layout), i as int) == class_for(layout),
            forall|j: int| 0 <= j < i ==> #[trigger] block_size(j) < wanted,
        decreases CLASSES - i,
    {
        if BLOCK_SIZES[i] >= wanted {
            return Some(i);
        }
        i += 1;
    }
    assert(block_size(8) < wanted);
    None
}

/// Assumed of `usize::ilog2`, which panics on 0: it returns the logarithm
/// to base 2, rounded down.
pub assume_specification[ usize::ilog2 ](n: usize) -> (r: u32)
    requires
        n > 0,
    ensures
        r == log(2, n as int),
;

/// The logarithm to base 2 of the block size of class `index` is
/// `index + 3`.
pub proof fn lemma_log_block_size(index: int)
    requires
        0 <= index < CLASSES,
    ensures
        log(2, block_size(index)) == index + 3,
{
    let e = (index + 3) as nat;
    lemma2_to64();
    lemma_pow_positive(2, e);
    assert(pow2(e) == block_size(index));
    assert(pow(2, e) == block_size(index));
    lemma_log_pow(2, e);
}

/// The class whose blocks have `size` bytes, where `size` is a block size;
/// in general the logarithm of `size` less that of the smallest block, and
/// `None` where that is no class.
pub fn size_to_index(size: usize) -> (index: Option<usize>)
    requires
        size >= 8,
    ensures
        index == if log(2, size as int) - 3 > 8 {
            None::<usize>
        } else {
            Some((log(2, size as int) - 3) as usize)
        },
{
    proof {
        lemma_log_block_size(0);
        lemma_log_is_ordered(2, 8, size as int);
    }
    let res = (size.ilog2() - BLOCK_SIZES[0].ilog2()) as usize;
    if res > 8 {
        return None;
    }
    Some(res)
}

/// Two blocks, each given by its address and its length, share no byte.
pub open spec fn apart(a: int, a_len: int, b: int, b_len: int) -> bool {
    a + a_len <= b || b + b_len <= a
}

/// The length of the block that serves a request for `layout`: the block
/// size of its class, or its own size where it has no class. A request for
/// no bytes still takes up its address.
pub open spec fn granted(layout: Layout) -> int {
    match class_for(layout) {
        Some(i) => block_size(i as int),
        None => if layout.size() > 0 {
            layout.size() as int
        } else {
            1
        },
    }
}

/// The block of `len` bytes at `addr` lies inside `root`, and `root` holds
/// none of its bytes as free.
pub open spec fn held(root: &MemoryRegion, addr: int, len: int) -> bool {
    &&& root.start() <= addr
    &&& addr + len <= root.end()
    &&& forall|x: int| addr <= x < addr + len ==> !#[trigger] root.free().contains(x)
}

/// `lists` after a block at `addr` went onto the list of class `index`.
pub open spec fn pushed(lists: Seq<Seq<usize>>, index: int, addr: usize) -> Seq<Seq<usize>> {
    lists.update(index, lists[index].push(addr))
}

/// `lists` after the head of the list of class `index` was taken off.
pub open spec fn popped(lists: Seq<Seq<usize>>, index: int) -> Seq<Seq<usize>> {
    lists.update(index, lists[index].drop_last())
}

/// Where a block that was given back has gone.
#[derive(Debug, Clone, Copy, PartialEq, Eq, Structural)]
pub enum Disposal {
    /// Onto the free list of its size class.
    Listed,
    /// Nowhere yet: the block has no size class, and it is for the caller to
    /// return it to the backing region.
    Backing,
}

/// `lists` after the head of the list of class `index` was split: the
/// block is off its list, and its two halves are on the list of the class
/// below, the lower half at the head.
pub open spec fn split_once(lists: Seq<Seq<usize>>, index: int) -> Seq<Seq<usize>> {
    let addr = lists[index].last();
    let upper = (addr + block_size(index - 1)) as usize;
    pushed(pushed(popped(lists, index), index - 1, upper), index - 1, addr)
}

/// `lists` after a block of class `target` was cut from the head of the
/// list of class `source`, by halving it down to `target`.
///
/// With the head of `source` at `addr`, the block at `addr` of class
/// `target` leaves, and of each halving the upper half stays behind: one
/// block at `addr + block_size(c)` for each class `c` from `target` up to
/// `source`, that one left out.
pub open spec fn carve(lists: Seq<Seq<usize>>, target: int, source: int) -> Seq<Seq<usize>> {
    let addr = lists[source].last();
    Seq::new(
        CLASSES as nat,
        |c: int|
            if c == source {
                lists[c].drop_last()
            } else if target <= c < source {
                lists[c].push((addr + block_size(c)) as usize)
            } else {
                lists[c]
            },
    )
}

/// What a block of class `index` is to the class below: twice its size,
/// and each of its halves aligned for that class.
pub proof fn lemma_halves(addr: int, index: int)
    requires
        0 < index < CLASSES,
        addr % block_size(index) == 0,
    ensures
        block_size(index) == 2 * block_size(index - 1),
        addr % block_size(index - 1) == 0,
        (addr + block_size(index - 1)) % block_size(index - 1) == 0,
{
    let half = block_size(index - 1);
    assert(block_size(index) == half * 2);
    lemma_mod_mod(addr, half, 2);
    lemma_mod_add_multiples_vanish(addr, half);
}

/// The block sizes grow with the class.
pub proof fn lemma_block_sizes_ordered(i: int, j: int)
    requires
        0 <= i <= j < CLASSES,
    ensures
        8 <= block_size(i) <= block_size(j) <= 2048,
        i < j ==> block_size(i) < block_size(j),
{
}

/// The class of a layout whose size and alignment are a block size.
pub proof fn lemma_class_of_block_size(layout: Layout, index: int)
    requires
        0 <= index < CLASSES,
        layout.size() == block_size(index),
        layout.align() == block_size(index),
    ensures
        class_for(layout) == Some(index as usize),
        granted(layout) == block_size(index),
{
    lemma_class_from(needed(layout), 0);
    let found = class_for(layout);
    assert(found is Some) by {
        if found is None {
            assert(block_size(index) < needed(layout));
        }
    }
    let i = found->Some_0 as int;
    if i < index {
        lemma_block_sizes_ordered(i, index);
    } else if index < i {
        assert(block_size(index) < needed(layout));
    }
}

/// A class whose list holds a block is the first stocked class for its own
/// block size.
pub proof fn lemma_first_stocked_own(lists: Seq<Seq<usize>>, index: int)
    requires
        0 <= index < CLASSES,
        lists[index].len() > 0,
    ensures
        first_stocked(lists, block_size(index)) == Some(index as usize),
{
    lemma_stocked_from(lists, block_size(index), 0);
    let j = first_stocked(lists, block_size(index));
    if j is None {
        assert(lists[index].len() > 0);
    } else {
        let j = j->Some_0 as int;
        if j < index {
            lemma_block_sizes_ordered(j, index);
        } else if index < j {
            assert(lists[index].len() > 0);
        }
    }
}

/// After the first stocked class above the target was split, the class
/// below it is the first stocked class, and to cut the target from it
/// comes to the same as to cut it from the class that was split.
pub proof fn lemma_split_then_carve(lists: Seq<Seq<usize>>, target: int, source: int)
    requires
        lists.len() == CLASSES,
        0 <= target < source < CLASSES,
        first_stocked(lists, block_size(target)) == Some(source as usize),
    ensures
        first_stocked(split_once(lists, source), block_size(target)) == Some(
            (source - 1) as usize,
        ),
        split_once(lists, source)[source - 1].last() == lists[source].last(),
        carve(split_once(lists, source), target, source - 1) == carve(lists, target, source),
{
    let need = block_size(target);
    let after = split_once(lists, source);
    lemma_stocked_from(lists, need, 0);
    lemma_stocked_from(after, need, 0);
    lemma_block_sizes_ordered(target, source - 1);
    assert(after[source - 1].len() > 0);
    assert forall|c: int| 0 <= c < source - 1 implies !(need <= block_size(c) && after[c].len()
        > 0) by {
        assert(after[c] == lists[c]);
        assert(!(need <= block_size(c) && lists[c].len() > 0));
    }
    let found = first_stocked(after, need);
    if found is None {
        assert(after[source - 1].len() > 0);
    } else if found->Some_0 > source - 1 {
        assert(after[source - 1].len() > 0);
    }
    assert(lists[source - 1].len() == 0) by {
        assert(!(need <= block_size(source - 1) && lists[source - 1].len() > 0));
    }
    assert(carve(after, target, source - 1) =~~= carve(lists, target, source)) by {
        assert forall|c: int| target <= c < source - 1 implies after[c] == lists[c] by {}
    }
}

/// Every request is granted at least one byte, and at least its size.
pub proof fn lemma_granted_positive(layout: Layout)
    ensures
        granted(layout) >= 1,
        granted(layout) >= layout.size(),
        class_for(layout) is Some ==> granted(layout) >= layout.align(),
{
    lemma_class_from(needed(layout), 0);
    if class_for(layout) is Some {
        lemma_block_sizes_ordered(0, class_for(layout)->Some_0 as int);
    }
}

/// A block that is aligned to the block size of the class of `layout` is
/// aligned as `layout` asks.
pub proof fn lemma_block_aligns(addr: int, index: int, layout: Layout)
    requires
        layout.valid(),
        class_for(layout) == Some(index as usize),
        0 <= index < CLASSES,
        addr % block_size(index) == 0,
    ensures
        addr % layout.align() as int == 0,
{
    let align = layout.align() as int;
    let size = block_size(index);
    lemma_granted_positive(layout);
    lemma_block_size_is_layout(index);
    lemma_pow2_divides(align, size);
    assert(align > 0) by {
        reveal(is_pow2);
    }
    let k = size / align;
    lemma_fundamental_div_mod(size, align);
    assert(size == align * k);
    assert(k > 0) by (nonlinear_arith)
        requires
            size == align * k,
            size > 0,
            align > 0,
    ;
    lemma_mod_mod(addr, align, k);
}

/// A block size, as size and as alignment, is a layout.
pub proof fn lemma_block_size_is_layout(index: int)
    requires
        0 <= index < CLASSES,
    ensures
        valid_size_align(block_size(index), block_size(index)),
        is_pow2(block_size(index)),
{
    let e = (index + 3) as nat;
    lemma2_to64();
    lemma_pow_positive(2, e);
    assert(pow2(e) == block_size(index));
    assert(pow(2, e) == block_size(index));
    assert(is_pow2_exists(block_size(index)));
    is_pow2_equiv(block_size(index));
}

/// Fixed-size block allocator
///
/// Each size class has a stack of the addresses of its free blocks; the
/// head of a list is the last element of [`FixedBlockAlloc::lists`]. Beside
/// them the allocator keeps, for proofs only, the blocks that it has lent
/// and not got back: [`FixedBlockAlloc::lent`].
pub struct FixedBlockAlloc {
    block_lists: [Vec<usize>; 9],
    lent: Ghost<Map<int, Layout>>,
}

impl FixedBlockAlloc {
    /// The free lists, one sequence of block addresses for each size
    /// class, the head of each list last.
    pub closed spec fn lists(&self) -> Seq<Seq<usize>> {
        Seq::new(CLASSES as nat, |i: int| self.block_lists[i]@)
    }

    /// The blocks that callers hold: the address of each with the layout
    /// that it was requested for.
    pub closed spec fn lent(&self) -> Map<int, Layout> {
        self.lent@
    }

    /// Whether `(index, at)` is the place of a block on the free lists.
    pub open spec fn listed(&self, index: int, at: int) -> bool {
        0 <= index < CLASSES && 0 <= at < self.lists()[index].len()
    }

    /// The block of `len` bytes at `addr` shares no byte with a block on
    /// the free lists or with a block that is lent.
    pub open spec fn clear_of(&self, addr: int, len: int) -> bool {
        &&& forall|i: int, k: int|
            self.listed(i, k) ==> apart(addr, len, #[trigger] self.lists()[i][k] as int, block_size(i))
        &&& forall|a: int| #[trigger]
            self.lent().dom().contains(a) ==> apart(addr, len, a, granted(self.lent()[a]))
    }

    /// The invariant of the allocator.
    ///
    /// A free block is aligned to the block size of its class. A lent
    /// block is aligned as its layout asks, and a lent block of a size
    /// class to the block size of that class. No two blocks, free or
    /// lent, share a byte.
    pub open spec fn wf(&self) -> bool {
        &&& self.lists().len() == CLASSES
        &&& self.lent().dom().finite()
        &&& forall|i: int, k: int|
            self.listed(i, k) ==> (#[trigger] self.lists()[i][k]) as int % block_size(i) == 0
                && self.lists()[i][k] + block_size(i) <= usize::MAX
        &&& forall|i: int, k: int, j: int, l: int|
            self.listed(i, k) && self.listed(j, l) && (i != j || k != l) ==> apart(
                #[trigger] self.lists()[i][k] as int,
                block_size(i),
                #[trigger] self.lists()[j][l] as int,
                block_size(j),
            )
        &&& forall|a: int| #[trigger]
            self.lent().dom().contains(a) ==> {
                &&& 0 <= a
                &&& a + granted(self.lent()[a]) <= usize::MAX
                &&& self.lent()[a].valid()
                &&& a % self.lent()[a].align() as int == 0
                &&& class_for(self.lent()[a]) matches Some(i) ==> a % block_size(i as int) == 0
            }
        &&& forall|a: int, b: int|
            #[trigger] self.lent().dom().contains(a) && #[trigger] self.lent().dom().contains(b)
                && a != b ==> apart(a, granted(self.lent()[a]), b, granted(self.lent()[b]))
        &&& forall|a: int, i: int, k: int|
            #[trigger] self.lent().dom().contains(a) && self.listed(i, k) ==> apart(
                a,
                granted(self.lent()[a]),
                #[trigger] self.lists()[i][k] as int,
                block_size(i),
            )
    }

    /// Every block of the allocator, free or lent, lies inside `root`, and
    /// `root` holds none of their bytes as free.
    pub open spec fn within(&self, root: &MemoryRegion) -> bool {
        &&& root.wf()
        &&& forall|i: int, k: int|
            self.listed(i, k) ==> held(root, #[trigger] self.lists()[i][k] as int, block_size(i))
        &&& forall|a: int| #[trigger]
            self.lent().dom().contains(a) ==> held(root, a, granted(self.lent()[a]))
    }

    /// An allocator without blocks.
    pub fn empty() -> (fresh: Self)
        ensures
            fresh.wf(),
            fresh.lists() == Seq::new(CLASSES as nat, |i: int| Seq::<usize>::empty()),
            fresh.lent() == Map::<int, Layout>::empty(),
            forall|root: MemoryRegion| root.wf() ==> #[trigger] fresh.within(&root),
    {
        Self {
            block_lists: [
                Vec::new(),
                Vec::new(),
                Vec::new(),
                Vec::new(),
                Vec::new(),
                Vec::new(),
                Vec::new(),
                Vec::new(),
                Vec::new(),
            ],
            lent: Ghost(Map::empty()),
        }
    }

    /// Puts node as current head of the list corresponding to index.
    fn put_head(&mut self, index: usize, addr: usize)
        requires
            old(self).wf(),
            index < CLASSES,
            old(self).clear_of(addr as int, block_size(index as int)),
            addr as int % block_size(index as int) == 0,
            addr + block_size(index as int) <= usize::MAX,
        ensures
            final(self).wf(),
            final(self).lists() == pushed(old(self).lists(), index as int, addr),
            final(self).lent() == old(self).lent(),
            forall|root: MemoryRegion|
                #[trigger] old(self).within(&root) && held(
                    &root,
                    addr as int,
                    block_size(index as int),
                ) ==> final(self).within(&root),
    {
        self.block_lists[index].push(addr);
        proof {
            let before = old(self).lists();
            let after = self.lists();
            assert(after =~= pushed(before, index as int, addr));
            assert forall|i: int, k: int| self.listed(i, k) implies (i == index && k
                == before[i].len() && after[i][k] == addr) || (old(self).listed(i, k)
                && after[i][k] == before[i][k]) by {}
        }
    }

    /// Pops the current head of the list corresponding to index.
    /// Sets current head's next node as new current head.
    fn pop_head(&mut self, index: usize) -> (head: Option<usize>)
        requires
            old(self).wf(),
            index < CLASSES,
        ensures
            final(self).wf(),
            final(self).lent() == old(self).lent(),
            forall|root: MemoryRegion|
                #[trigger] old(self).within(&root) ==> final(self).within(&root),
            match head {
                Some(addr) => {
                    &&& old(self).lists()[index as int].len() > 0
                    &&& addr == old(self).lists()[index as int].last()
                    &&& final(self).lists() == popped(old(self).lists(), index as int)
                    &&& final(self).clear_of(addr as int, block_size(index as int))
                    &&& addr as int % block_size(index as int) == 0
                    &&& addr + block_size(index as int) <= usize::MAX
                    &&& forall|root: MemoryRegion|
                        #[trigger] old(self).within(&root) ==> held(
                            &root,
                            addr as int,
                            block_size(index as int),
                        )
                },
                None => old(self).lists()[index as int].len() == 0 && final(self).lists() == old(
                    self,
                ).lists(),
            },
    {
        let head = self.block_lists[index].pop();
        proof {
            let before = old(self).lists();
            let after = self.lists();
            if head is Some {
                let last = before[index as int].len() - 1;
                assert(after =~= popped(before, index as int));
                assert(old(self).listed(index as int, last));
                assert(before[index as int][last] == head->Some_0);
                assert forall|i: int, k: int| self.listed(i, k) implies old(self).listed(i, k)
                    && after[i][k] == before[i][k] && (i != index || k != last) by {}
            } else {
                assert(after =~= before);
            }
        }
        head
    }

    /// Takes the head off the list of class `index` and cuts it in two.
    /// Returns the addresses of the halves, or `LayoutError` where the list
    /// is empty.
    pub(crate) fn split_head(&mut self, index: usize) -> (halves: Result<
        (usize, usize),
        AllocError,
    >)
        requires
            old(self).wf(),
            0 < index < CLASSES,
        ensures
            final(self).wf(),
            final(self).lent() == old(self).lent(),
            forall|root: MemoryRegion|
                #[trigger] old(self).within(&root) ==> final(self).within(&root),
            match halves {
                Ok((lower, upper)) => {
                    &&& old(self).lists()[index as int].len() > 0
                    &&& lower == old(self).lists()[index as int].last()
                    &&& upper == lower + block_size(index - 1)
                    &&& final(self).lists() == popped(old(self).lists(), index as int)
                    &&& final(self).clear_of(lower as int, block_size(index as int))
                    &&& lower as int % block_size(index as int) == 0
                    &&& lower + block_size(index as int) <= usize::MAX
                    &&& forall|root: MemoryRegion|
                        #[trigger] old(self).within(&root) ==> held(
                            &root,
                            lower as int,
                            block_size(index as int),
                        )
                },
                Err(e) => {
                    &&& e == AllocError::LayoutError
                    &&& old(self).lists()[index as int].len() == 0
                    &&& final(self).lists() == old(self).lists()
                },
            },
    {
        // unlink the first free node
        let head = match self.pop_head(index) {
            Some(head) => head,
            None => {
                return Err(AllocError::LayoutError);
            },
        };
        proof {
            lemma_halves(head as int, index as int);
        }
        // The second half starts in the middle of the block. No other block
        // overlaps the one that was unlinked, so none overlaps its halves.
        let new_node = head + BLOCK_SIZES[index - 1];
        Ok((head, new_node))
    }

    /// Splits the head of the list of class `index` into two blocks of the
    /// class below, and puts both onto the list of that class, the lower
    /// half at its head. Returns `LayoutError`, and changes nothing, where
    /// the list of class `index` is empty.
    pub fn split_and_downgrade(&mut self, index: usize) -> (done: Result<(), AllocError>)
        requires
            old(self).wf(),
            0 < index < CLASSES,
        ensures
            final(self).wf(),
            final(self).lent() == old(self).lent(),
            forall|root: MemoryRegion|
                #[trigger] old(self).within(&root) ==> final(self).within(&root),
            match done {
                Ok(_) => {
                    &&& old(self).lists()[index as int].len() > 0
                    &&& final(self).lists() == split_once(old(self).lists(), index as int)
                },
                Err(e) => {
                    &&& e == AllocError::LayoutError
                    &&& old(self).lists()[index as int].len() == 0
                    &&& final(self).lists() == old(self).lists()
                },
            },
    {
        let (node1, node2) = match self.split_head(index) {
            Ok(halves) => halves,
            Err(e) => {
                return Err(e);
            },
        };
        let ghost unlinked = *self;
        proof {
            lemma_halves(node1 as int, index as int);
        }
        self.put_head(index - 1, node2);
        let ghost half_way = *self;
        self.put_head(index - 1, node1);
        proof {
            assert forall|root: MemoryRegion| #[trigger]
                old(self).within(&root) implies self.within(&root) by {
                assert(unlinked.within(&root));
                assert(held(&root, node1 as int, block_size(index as int)));
                assert(held(&root, node2 as int, block_size(index - 1)));
                assert(half_way.within(&root));
                assert(held(&root, node1 as int, block_size(index - 1)));
            }
        }
        Ok(())
    }

    /// What holds once `before` has handed out a chunk at `addr`: the
    /// chunk shares no byte with a block of the allocator, and all blocks
    /// and the chunk lie within the region as it is afterwards.
    proof fn lemma_fresh_chunk(
        &self,
        before: &MemoryRegion,
        after: &MemoryRegion,
        size: int,
        align: int,
        addr: usize,
    )
        requires
            self.wf(),
            self.within(before),
            size >= 0,
            before.allocated(size, align, Ok(addr), after),
        ensures
            self.within(after),
            self.clear_of(addr as int, if size > 0 { size } else { 1 }),
            held(after, addr as int, if size > 0 { size } else { 1 }),
    {
        let len = if size > 0 { size } else { 1 };
        let chunk = extent(addr as int, size);
        assert forall|b: int, b_len: int| b_len > 0 && held(before, b, b_len) implies apart(
            addr as int,
            len,
            b,
            b_len,
        ) && held(after, b, b_len) by {
            if !apart(addr as int, len, b, b_len) {
                let x = if addr >= b { addr as int } else { b };
                assert(chunk.contains(x));
                assert(before.free().contains(x));
            }
            assert forall|x: int| b <= x < b + b_len implies !#[trigger] after.free().contains(
                x,
            ) by {
                if after.free().contains(x) {
                    assert(before.free().contains(x));
                }
            }
        }
        assert forall|i: int, k: int| self.listed(i, k) implies apart(
            addr as int,
            len,
            #[trigger] self.lists()[i][k] as int,
            block_size(i),
        ) && held(after, self.lists()[i][k] as int, block_size(i)) by {
            assert(held(before, self.lists()[i][k] as int, block_size(i)));
        }
        assert forall|a: int| #[trigger] self.lent().dom().contains(a) implies apart(
            addr as int,
            len,
            a,
            granted(self.lent()[a]),
        ) && held(after, a, granted(self.lent()[a])) by {
            assert(held(before, a, granted(self.lent()[a])));
            lemma_granted_positive(self.lent()[a]);
        }
        assert forall|x: int| addr <= x < addr + len implies !#[trigger] after.free().contains(
            x,
        ) by {
            assert(chunk.contains(x));
        }
    }

    /// Finds a block of the class of `layout`, whose list is empty.
    ///
    /// Where a class above holds a block, the head of the first such class
    /// is split, and the request is tried again on the class of `layout`:
    /// its list holds the halves once the class just above it was split,
    /// and until then the next class down is split in turn. Where no class
    /// above holds a block, the block comes from `root`.
    fn fallback_alloc(&mut self, layout: Layout, root: &mut MemoryRegion) -> (res: Result<
        usize,
        AllocError,
    >)
        requires
            old(self).wf(),
            old(self).within(old(root)),
            class_for(layout) is Some,
            layout.size() == granted(layout),
            layout.align() == granted(layout),
            old(self).lists()[class_for(layout)->Some_0 as int].len() == 0,
        ensures
            final(self).wf(),
            final(self).within(final(root)),
            final(self).lent() == old(self).lent(),
            match first_stocked(old(self).lists(), granted(layout)) {
                Some(source) => {
                    &&& res == Ok::<usize, AllocError>(old(self).lists()[source as int].last())
                    &&& final(self).lists() == carve(
                        old(self).lists(),
                        class_for(layout)->Some_0 as int,
                        source as int,
                    )
                    &&& *final(root) == *old(root)
                },
                None => {
                    &&& final(self).lists() == old(self).lists()
                    &&& old(root).allocated(granted(layout), granted(layout), res, final(root))
                },
            },
            match res {
                Ok(addr) => {
                    &&& final(self).clear_of(addr as int, granted(layout))
                    &&& addr as int % granted(layout) == 0
                    &&& addr + granted(layout) <= usize::MAX
                    &&& held(final(root), addr as int, granted(layout))
                },
                Err(e) => e == AllocError::OutOfMemory,
            },
        decreases
            match first_stocked(old(self).lists(), granted(layout)) {
                Some(source) => source as int + 1,
                None => 0,
            },
    {
        let ghost target = class_for(layout)->Some_0 as int;
        proof {
            lemma_first_stocked_above(old(self).lists(), layout);
        }
        // Find first non-empty list for bigger blocks
        let upper_index = match self.first_list_with_block(layout) {
            Some(upper_index) => upper_index,
            None => {
                let res = root.allocate(layout);
                proof {
                    if let Ok(addr) = res {
                        self.lemma_fresh_chunk(
                            old(root),
                            root,
                            layout.size() as int,
                            layout.align() as int,
                            addr,
                        );
                    }
                }
                return res;
            },
        };
        proof {
            lemma_split_then_carve(old(self).lists(), target, upper_index as int);
        }
        match self.split_and_downgrade(upper_index) {
            Ok(_) => {},
            Err(e) => {
                return Err(e);
            },
        }
        let ghost split = self.lists();
        // Both halves are on the list of the class below: try the class of
        // the request again.
        let index = match list_index(layout) {
            Some(index) => index,
            None => {
                return Err(AllocError::LayoutError);
            },
        };
        match self.pop_head(index) {
            Some(node) => {
                proof {
                    assert(upper_index - 1 == target) by {
                        if upper_index - 1 != target {
                            assert(split[target] == old(self).lists()[target]);
                        }
                    }
                    assert(self.lists() =~~= carve(split, target, target));
                }
                Ok(node)
            },
            None => self.fallback_alloc(layout, root),
        }
    }

    /// Hands out a block for `layout`.
    ///
    /// A request that fits a size class gets a block of that class: the
    /// head of its list, or else a block cut from the head of the first
    /// stocked class above, or else a new block of the class from `root`.
    /// A request that fits no class goes to `root` as it is. The only
    /// failure is that `root` has run out of memory.
    pub fn allocate(&mut self, layout: Layout, root: &mut MemoryRegion) -> (res: Result<
        usize,
        AllocError,
    >)
        requires
            old(self).wf(),
            old(self).within(old(root)),
        ensures
            final(self).wf(),
            final(self).within(final(root)),
            final(root).start() == old(root).start(),
            final(root).end() == old(root).end(),
            match class_for(layout) {
                Some(target) => match first_stocked(
                    old(self).lists(),
                    block_size(target as int),
                ) {
                    Some(source) => {
                        &&& res == Ok::<usize, AllocError>(
                            old(self).lists()[source as int].last(),
                        )
                        &&& final(self).lists() == carve(
                            old(self).lists(),
                            target as int,
                            source as int,
                        )
                        &&& *final(root) == *old(root)
                    },
                    None => {
                        &&& final(self).lists() == old(self).lists()
                        &&& old(root).allocated(
                            block_size(target as int),
                            block_size(target as int),
                            res,
                            final(root),
                        )
                    },
                },
                None => {
                    &&& final(self).lists() == old(self).lists()
                    &&& old(root).allocated(
                        layout.size() as int,
                        layout.align() as int,
                        res,
                        final(root),
                    )
                },
            },
            match res {
                Ok(addr) => {
                    &&& !old(self).lent().dom().contains(addr as int)
                    &&& final(self).lent() == old(self).lent().insert(addr as int, layout)
                    &&& addr as int % layout.align() as int == 0
                    &&& old(root).start() <= addr
                    &&& addr + granted(layout) <= old(root).end()
                    &&& layout.size() <= granted(layout)
                    &&& class_for(layout) is Some ==> layout.align() <= granted(layout)
                    &&& forall|b: int| #[trigger]
                        old(self).lent().dom().contains(b) ==> apart(
                            addr as int,
                            granted(layout),
                            b,
                            granted(old(self).lent()[b]),
                        )
                },
                Err(e) => {
                    &&& e == AllocError::OutOfMemory
                    &&& final(self).lent() == old(self).lent()
                    &&& final(self).lists() == old(self).lists()
                    &&& *final(root) == *old(root)
                },
            },
    {
        proof {
            use_type_invariant(&layout);
            lemma_granted_positive(layout);
        }
        let res = match list_index(layout) {
            Some(index) => match self.pop_head(index) {
                Some(node) => {
                    proof {
                        lemma_first_stocked_own(old(self).lists(), index as int);
                        assert(self.lists() =~~= carve(
                            old(self).lists(),
                            index as int,
                            index as int,
                        ));
                    }
                    Ok(node)
                },
                None => {
                    let block_size = BLOCK_SIZES[index];
                    let block_align = block_size;
                    proof {
                        lemma_block_size_is_layout(index as int);
                    }
                    match Layout::from_size_align(block_size, block_align) {
                        Ok(class_layout) => {
                            proof {
                                lemma_class_of_block_size(class_layout, index as int);
                            }
                            self.fallback_alloc(class_layout, root)
                        },
                        Err(_) => Err(AllocError::LayoutError),
                    }
                },
            },
            None => {
                let res = root.allocate(layout);
                proof {
                    if let Ok(addr) = res {
                        self.lemma_fresh_chunk(
                            old(root),
                            root,
                            layout.size() as int,
                            layout.align() as int,
                            addr,
                        );
                    }
                }
                res
            },
        };
        let ghost found = *self;
        if let Ok(addr) = res {
            proof {
                if class_for(layout) is Some {
                    lemma_block_aligns(addr as int, class_for(layout)->Some_0 as int, layout);
                }
                if found.lent().dom().contains(addr as int) {
                    lemma_granted_positive(found.lent()[addr as int]);
                }
            }
            self.lent = Ghost(self.lent@.insert(addr as int, layout));
        }
        res
    }

    /// Takes back the block at `addr` that was handed out for `layout`.
    ///
    /// A block of a size class goes onto the list of that class, at its
    /// head, and is not joined to a neighbour. A block of no class is for
    /// the caller to return to the backing region, as the result says.
    pub fn dealloc(&mut self, addr: usize, layout: Layout) -> (disposal: Disposal)
        requires
            old(self).wf(),
            old(self).lent().contains_pair(addr as int, layout),
        ensures
            final(self).wf(),
            final(self).lent() == old(self).lent().remove(addr as int),
            forall|root: MemoryRegion|
                #[trigger] old(self).within(&root) ==> final(self).within(&root),
            match class_for(layout) {
                Some(index) => {
                    &&& disposal == Disposal::Listed
                    &&& final(self).lists() == pushed(old(self).lists(), index as int, addr)
                },
                None => {
                    &&& disposal == Disposal::Backing
                    &&& final(self).lists() == old(self).lists()
                },
            },
    {
        self.lent = Ghost(self.lent@.remove(addr as int));
        let ghost taken = *self;
        proof {
            assert(taken.lists() == old(self).lists());
            assert forall|root: MemoryRegion| #[trigger]
                old(self).within(&root) implies taken.within(&root) && held(
                &root,
                addr as int,
                granted(layout),
            ) by {
                assert(old(self).lent().dom().contains(addr as int));
            }
        }
        match list_index(layout) {
            Some(index) => {
                self.put_head(index, addr);
                proof {
                    assert forall|root: MemoryRegion| #[trigger]
                        old(self).within(&root) implies self.within(&root) by {
                        assert(taken.within(&root));
                    }
                }
                Disposal::Listed
            },
            None => Disposal::Backing,
        }
    }

    /// The addresses of the free blocks of class `index`, the head of the
    /// list last.
    pub fn free_blocks(&self, index: usize) -> (blocks: Vec<usize>)
        requires
            index < CLASSES,
        ensures
            blocks@ == self.lists()[index as int],
    {
        let mut blocks: Vec<usize> = Vec::new();
        let mut k: usize = 0;
        while k < self.block_lists[index].len()
            invariant
                index < CLASSES,
                k <= self.block_lists[index as int]@.len(),
                blocks@ == self.block_lists[index as int]@.take(k as int),
            decreases self.block_lists[index as int]@.len() - k,
        {
            blocks.push(self.block_lists[index][k]);
            k += 1;
            assert(blocks@ =~= self.block_lists[index as int]@.take(k as int));
        }
        assert(blocks@ =~= self.lists()[index as int]);
        blocks
    }

    /// Returns the first list above the class of `layout` containing at
    /// least one available block.
    ///
    /// That is the smallest class larger than the class of `layout` whose
    /// list is not empty: the class to split when the class of `layout`
    /// has run out. The class of `layout` itself does not count, and a
    /// layout without a class has no class above it.
    pub fn first_list_with_block(&self, layout: Layout) -> (index: Option<usize>)
        ensures
            index == first_stocked_above(self.lists(), layout),
            match index {
                Some(source) => {
                    &&& class_for(layout) matches Some(target)
                    &&& target < source < CLASSES
                    &&& self.lists()[source as int].len() > 0
                    &&& forall|c: int| target < c < source ==> #[trigger] self.lists()[c].len() == 0
                },
                None => class_for(layout) matches Some(target) ==> forall|c: int|
                    target < c < CLASSES ==> #[trigger] self.lists()[c].len() == 0,
            },
    {
        let target = match list_index(layout) {
            Some(target) => target,
            None => {
                return None;
            },
        };
        proof {
            lemma_first_stocked_above(self.lists(), layout);
        }
        let wanted = if layout.size() >= layout.align() {
            layout.size()
        } else {
            layout.align()
        };
        let mut i: usize = target + 1;
        while i < CLASSES
            invariant
                target < i <= CLASSES,
                wanted == needed(layout),
                class_for(layout) == Some(target),
                stocked_from(self.lists(), needed(layout), i as int) == first_stocked_above(
                    self.lists(),
                    layout,
                ),
            decreases CLASSES - i,
        {
            let s = BLOCK_SIZES[i];
            proof {
                lemma_log_block_size(i as int);
            }
            match size_to_index(s) {
                Some(index) => {
                    if s >= wanted && self.block_lists[index].len() > 0 {
                        proof {
                            assert(self.lists()[i as int].len() > 0);
                            lemma_first_stocked_above(self.lists(), layout);
                        }
                        return Some(i);
                    }
                },
                None => {},
            }
            i += 1;
        }
        None
    }
}

} // verus!
