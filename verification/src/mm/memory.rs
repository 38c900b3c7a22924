//! The backing heap: one span of memory behind a first-fit allocator.
//!
//! The allocator itself is `linked_list_allocator::Heap`. Verus does not see
//! inside it, so this module describes it by two uninterpreted functions,
//! [`heap_free`] and [`heap_span`], and by the contracts of the private
//! functions that call it. Those contracts are assumed, not proved. What
//! they say of a request is first fit: the holes of the heap are the
//! unbroken runs of its free bytes, and a request is served from the lowest
//! hole that has room for it.

use super::heap::AllocError;
use super::layout::{valid_size_align, Layout};
use core::mem::MaybeUninit;
use linked_list_allocator::Heap;
use vstd::arithmetic::div_mod::{
    lemma_fundamental_div_mod, lemma_mod_multiples_basic, lemma_mod_bound,
};
use vstd::arithmetic::power2::is_pow2;
use vstd::prelude::*;

verus! {

/// Number of address bits inside a page.
pub const PAGE_SHIFT: usize = 12;

/// `linked_list_allocator::Heap`, a first-fit allocator over one span of
/// memory, which keeps its list of holes inside the memory that is free.
/// Verus knows nothing of what a value of it holds.
#[verifier::external_type_specification]
#[verifier::external_body]
pub struct ExHeap(linked_list_allocator::Heap);

/// The addresses that `heap` holds as free: the bytes of the holes on its
/// list.
pub uninterp spec fn heap_free(heap: Heap) -> Set<int>;

/// The bottom and the top address of the memory that `heap` was given, both
/// 0 while it has been given none.
pub uninterp spec fn heap_span(heap: Heap) -> (int, int);

/// Number of bytes of a machine word.
pub open spec fn word() -> int {
    usize::BITS as int / 8
}

/// The bytes from `bottom` up that a heap given the span from `bottom` to
/// `top` holds as free at first: the span cut down to whole words.
pub open spec fn first_hole(bottom: int, top: int) -> Set<int> {
    Set::new(|a: int| bottom <= a < bottom + ((top - bottom) / word()) * word())
}

/// Number of bytes of the header of a hole, two words: no hole and no
/// chunk is shorter.
pub open spec fn header() -> int {
    2 * word()
}

/// The multiple of `unit` at or next above `value`.
pub open spec fn round_up(value: int, unit: int) -> int {
    ((value + unit - 1) / unit) * unit
}

/// The bytes that the heap takes for a request of `size` bytes: at least a
/// header, in whole words.
pub open spec fn chunk_len(size: int) -> int {
    round_up(if size < header() { header() } else { size }, word())
}

/// Where the heap puts a chunk aligned to `align` in a hole at `hole`: at
/// the start of the hole if that is aligned, else at the first aligned
/// address that leaves room for a header in front.
pub open spec fn chunk_start(hole: int, align: int) -> int {
    if hole % align == 0 {
        hole
    } else {
        round_up(hole + header(), align)
    }
}

/// The bytes that the heap takes for a request of `size` bytes that it
/// serves at `addr`.
pub open spec fn chunk(addr: int, size: int) -> Set<int> {
    Set::new(|a: int| addr <= a < addr + chunk_len(size))
}

/// The bytes from `hole.0` up to `hole.1` are a hole of `free`: an unbroken
/// run of free bytes with no free byte next to it on either side.
pub open spec fn is_hole(free: Set<int>, hole: (int, int)) -> bool {
    &&& hole.0 < hole.1
    &&& forall|a: int| hole.0 <= a < hole.1 ==> #[trigger] free.contains(a)
    &&& !free.contains(hole.0 - 1)
    &&& !free.contains(hole.1)
}

/// A hole from `hole.0` up to `hole.1` has room for a request of `size`
/// bytes aligned to `align`: the chunk fits, and what the hole has left
/// behind the chunk is nothing or enough for a header.
pub open spec fn has_room(hole: (int, int), size: int, align: int) -> bool {
    let end = chunk_start(hole.0, align) + chunk_len(size);
    &&& valid_size_align(chunk_len(size), align)
    &&& end == hole.1 || end + header() <= hole.1
}

/// `hole` is a hole of `free` that has room for the request.
pub open spec fn serving_hole(free: Set<int>, hole: (int, int), size: int, align: int) -> bool {
    is_hole(free, hole) && has_room(hole, size, align)
}

/// Some hole of `free` has room for the request.
pub open spec fn some_hole_serves(free: Set<int>, size: int, align: int) -> bool {
    exists|hole: (int, int)| #[trigger] serving_hole(free, hole, size, align)
}

/// First fit: `addr` is where the chunk stands in the lowest hole of `free`
/// that has room for the request.
pub open spec fn first_fit_at(free: Set<int>, size: int, align: int, addr: int) -> bool {
    exists|hole: (int, int)|
        {
            &&& #[trigger] serving_hole(free, hole, size, align)
            &&& addr == chunk_start(hole.0, align)
            &&& forall|lower: (int, int)| #[trigger]
                serving_hole(free, lower, size, align) ==> hole.0 <= lower.0
        }
}

/// In a heap whose memory ends at `top`, an address can be aligned to
/// `align` without passing the end of the address space.
pub open spec fn can_align(top: int, align: int) -> bool {
    top + header() + align <= usize::MAX
}

/// [`round_up`] gives the multiple of `unit` at or next above `value`.
pub proof fn lemma_round_up(value: int, unit: int)
    requires
        unit > 0,
    ensures
        value <= round_up(value, unit) < value + unit,
        round_up(value, unit) % unit == 0,
{
    let raised = value + unit - 1;
    lemma_fundamental_div_mod(raised, unit);
    lemma_mod_bound(raised, unit);
    lemma_mod_multiples_basic(raised / unit, unit);
    assert(unit * (raised / unit) == (raised / unit) * unit) by (nonlinear_arith);
}

/// The first hole of a span is shorter than the span by less than a word.
pub proof fn lemma_first_hole_len(bottom: int, top: int)
    requires
        bottom <= top,
    ensures
        top - bottom - word() < ((top - bottom) / word()) * word() <= top - bottom,
{
    let span = top - bottom;
    let usable = (span / word()) * word();
    assert(word() == 4 || word() == 8);
    lemma_fundamental_div_mod(span, word());
    lemma_mod_bound(span, word());
    assert(word() * (span / word()) == usable) by (nonlinear_arith)
        requires
            usable == (span / word()) * word(),
    ;
}

/// The bytes of a block of `size` bytes at `addr`. A block of no bytes still
/// stands at its address, so it counts as one byte.
pub open spec fn extent(addr: int, size: int) -> Set<int> {
    Set::new(|a: int| addr <= a < addr + if size > 0 { size } else { 1 })
}

/// Assumed of `Heap::empty`: the new heap has no memory and holds nothing
/// as free.
#[verifier::external_body]
fn heap_empty() -> (heap: Heap)
    ensures
        heap_free(heap) == Set::<int>::empty(),
        heap_span(heap) == (0int, 0int),
{
    Heap::empty()
}

/// Assumed of `Heap::init_from_slice`, which panics on a heap that already
/// has memory and on a slice too short for one hole: the heap takes `mem`.
/// Its span ends where `mem` ends and starts at the first word boundary of
/// `mem`, which is not null; so it is shorter than `mem` by less than a
/// word. One hole is free: the span from its bottom, cut down to whole
/// words.
#[verifier::external_body]
fn heap_init_from_slice(heap: &mut Heap, mem: &'static mut [MaybeUninit<u8>])
    requires
        heap_span(*old(heap)).0 == 0,
        old(mem)@.len() >= 24,
    ensures
        0 < heap_span(*final(heap)).0 <= heap_span(*final(heap)).1,
        heap_span(*final(heap)).0 % word() == 0,
        heap_span(*final(heap)).1 - heap_span(*final(heap)).0 <= old(mem)@.len(),
        heap_span(*final(heap)).1 - heap_span(*final(heap)).0 > old(mem)@.len() - word(),
        heap_free(*final(heap)) == first_hole(
            heap_span(*final(heap)).0,
            heap_span(*final(heap)).1,
        ),
{
    heap.init_from_slice(mem)
}

/// Assumed of `Heap::bottom`: it returns the bottom address of the span.
#[verifier::external_body]
fn heap_bottom(heap: &Heap) -> (bottom: usize)
    ensures
        bottom == heap_span(*heap).0,
{
    heap.bottom() as usize
}

/// Assumed of `Heap::top`: it returns the top address of the span.
#[verifier::external_body]
fn heap_top(heap: &Heap) -> (top: usize)
    ensures
        top == heap_span(*heap).1,
{
    heap.top() as usize
}

/// Assumed of `Heap::allocate_first_fit`, called with the layout of `size`
/// and `align`, which `core::alloc::Layout::from_size_align` makes of a
/// valid pair. It aligns addresses by wrapping arithmetic, so it is called
/// only where no address that it aligns can pass the end of the address
/// space. It tries the holes from the lowest up: the request is served if
/// and only if some hole has room for it, and then from the lowest such
/// hole. A chunk that it returns has the alignment asked for, and exactly
/// the bytes of the chunk are no longer free. A refusal changes nothing.
#[verifier::external_body]
fn heap_allocate_first_fit(heap: &mut Heap, size: usize, align: usize) -> (found: Result<
    usize,
    (),
>)
    requires
        valid_size_align(size as int, align as int),
        can_align(heap_span(*old(heap)).1, align as int),
    ensures
        heap_span(*final(heap)) == heap_span(*old(heap)),
        found is Ok <==> some_hole_serves(heap_free(*old(heap)), size as int, align as int),
        match found {
            Ok(addr) => {
                &&& first_fit_at(heap_free(*old(heap)), size as int, align as int, addr as int)
                &&& addr as int % align as int == 0
                &&& chunk(addr as int, size as int).subset_of(heap_free(*old(heap)))
                &&& heap_free(*final(heap)) == heap_free(*old(heap)).difference(
                    chunk(addr as int, size as int),
                )
            },
            Err(_) => *final(heap) == *old(heap),
        },
{
    let request = core::alloc::Layout::from_size_align(size, align).unwrap();
    match heap.allocate_first_fit(request) {
        Ok(chunk) => Ok(chunk.as_ptr() as usize),
        Err(_) => Err(()),
    }
}

/// What a request made of the backing allocator comes to: the address of
/// the chunk, or `OutOfMemory` where it found none.
pub fn served(found: Result<usize, ()>) -> (res: Result<usize, AllocError>)
    ensures
        res == match found {
            Ok(addr) => Ok::<usize, AllocError>(addr),
            Err(_) => Err(AllocError::OutOfMemory),
        },
{
    match found {
        Ok(addr) => Ok(addr),
        Err(_) => Err(AllocError::OutOfMemory),
    }
}

/// Represents a memory region.
pub struct MemoryRegion {
    start_virt: usize,
    end_virt: usize,
    global_alloc: Heap,
}

impl MemoryRegion {
    /// First address of the region, in contracts.
    pub closed spec fn spec_start(&self) -> usize {
        self.start_virt
    }

    /// Address after the last of the region, in contracts.
    pub closed spec fn spec_end(&self) -> usize {
        self.end_virt
    }

    /// The allocator behind the region, in contracts.
    pub closed spec fn heap(&self) -> Heap {
        self.global_alloc
    }

    /// The addresses of the region that are free: neither handed out nor
    /// lost to padding.
    pub closed spec fn free(&self) -> Set<int> {
        heap_free(self.global_alloc)
    }

    /// The bounds that the region records are those of its allocator, and
    /// all that is free lies between them.
    pub closed spec fn wf(&self) -> bool {
        &&& heap_span(self.global_alloc) == (self.start_virt as int, self.end_virt as int)
        &&& self.start_virt <= self.end_virt
        &&& forall|a: int| #[trigger]
            heap_free(self.global_alloc).contains(a) ==> self.start_virt <= a < self.end_virt
    }

    /// The bounds of a region are in order.
    pub proof fn lemma_bounds_ordered(&self)
        requires
            self.wf(),
        ensures
            self.start() <= self.end(),
    {
    }

    /// A region that is free from its first byte on serves a request for
    /// which it has room.
    ///
    /// The region is as `init` leaves it: one hole from its start, cut
    /// down to whole words. With `size + align` bytes and eight words more
    /// between its bounds, that hole has room for the chunk, for what
    /// alignment costs in front and for a header behind. It is the only
    /// hole, so `allocate` serves the request, at [`chunk_start`] of the
    /// start of the region.
    pub proof fn lemma_fresh_region_serves(&self, size: int, align: int)
        requires
            self.wf(),
            self.free() == first_hole(self.start() as int, self.end() as int),
            valid_size_align(size, align),
            size + align + 8 * word() <= self.end() - self.start() <= isize::MAX,
        ensures
            some_hole_serves(self.free(), size, align),
            forall|addr: int|
                first_fit_at(self.free(), size, align, addr) ==> addr == chunk_start(
                    self.start() as int,
                    align,
                ),
            self.start() <= chunk_start(self.start() as int, align),
            chunk_start(self.start() as int, align) + chunk_len(size) + header() <= self.start() + ((
            self.end() - self.start()) / word()) * word(),
    {
        let start = self.start() as int;
        let span = self.end() - self.start();
        let usable = (span / word()) * word();
        let free = self.free();
        assert(word() == 4 || word() == 8);
        assert(align > 0) by {
            reveal(is_pow2);
        }
        lemma_first_hole_len(start, self.end() as int);
        lemma_round_up(if size < header() { header() } else { size }, word());
        lemma_round_up(start + header(), align);
        let whole = (start, start + usable);
        assert(serving_hole(free, whole, size, align));
        assert forall|hole: (int, int)| is_hole(free, hole) implies hole == whole by {
            assert(free.contains(hole.0));
            assert(!free.contains(hole.0 - 1));
            assert(!free.contains(hole.1));
            assert(free.contains(hole.1 - 1));
        }
        assert forall|addr: int| first_fit_at(free, size, align, addr) implies addr
            == chunk_start(start, align) by {
            let hole = choose|hole: (int, int)|
                {
                    &&& #[trigger] serving_hole(free, hole, size, align)
                    &&& addr == chunk_start(hole.0, align)
                    &&& forall|lower: (int, int)| #[trigger]
                        serving_hole(free, lower, size, align) ==> hole.0 <= lower.0
                };
            assert(is_hole(free, hole));
        }
    }

    /// What a hole has left behind a chunk stays free and serves a later
    /// request for which it has room.
    ///
    /// The chunk for `size` and `align` was cut from `hole`, a hole of
    /// `free`, and `rest` is what is free afterwards. Then the bytes of
    /// `hole` behind the chunk are a hole of `rest`, and a request for
    /// `next_size` and `next_align` that fits into them with a header to
    /// spare is served.
    pub proof fn lemma_rest_of_hole_serves(
        free: Set<int>,
        hole: (int, int),
        size: int,
        align: int,
        next_size: int,
        next_align: int,
    )
        requires
            serving_hole(free, hole, size, align),
            valid_size_align(size, align),
            valid_size_align(next_size, next_align),
            valid_size_align(chunk_len(next_size), next_align),
            chunk_start(chunk_start(hole.0, align) + chunk_len(size), next_align) + chunk_len(
                next_size,
            ) + header() <= hole.1,
        ensures
            ({
                let addr = chunk_start(hole.0, align);
                let rest = free.difference(chunk(addr, size));
                &&& is_hole(rest, (addr + chunk_len(size), hole.1))
                &&& some_hole_serves(rest, next_size, next_align)
            }),
    {
        let addr = chunk_start(hole.0, align);
        let end = addr + chunk_len(size);
        let rest = free.difference(chunk(addr, size));
        assert(word() == 4 || word() == 8);
        assert(align > 0 && next_align > 0) by {
            reveal(is_pow2);
        }
        lemma_round_up(if size < header() { header() } else { size }, word());
        lemma_round_up(if next_size < header() { header() } else { next_size }, word());
        lemma_round_up(hole.0 + header(), align);
        lemma_round_up(end + header(), next_align);
        assert(chunk(addr, size).contains(end - 1));
        assert(is_hole(rest, (end, hole.1)));
        assert(serving_hole(rest, (end, hole.1), next_size, next_align));
    }

    /// Whether the region has been given its memory, in contracts.
    pub open spec fn spec_is_initialized(&self) -> bool {
        self.start() != 0
    }

    /// What holds of a request for `size` bytes aligned to `align` that
    /// ended in `res` and took the region from `self` to `after`.
    ///
    /// The request is served if and only if some hole of the region has
    /// room for it, and then from the lowest such hole: first fit. A
    /// request whose alignment could pass the end of the address space is
    /// refused. A block that was handed out is aligned and lies inside the
    /// region; its chunk was free before and is not afterwards, and
    /// nothing else has changed. A refusal is `OutOfMemory` and leaves the
    /// region as it was.
    pub open spec fn allocated(
        &self,
        size: int,
        align: int,
        res: Result<usize, AllocError>,
        after: &MemoryRegion,
    ) -> bool {
        &&& after.wf()
        &&& after.start() == self.start()
        &&& after.end() == self.end()
        &&& res is Ok <==> can_align(self.end() as int, align) && some_hole_serves(
            self.free(),
            size,
            align,
        )
        &&& match res {
            Ok(addr) => {
                &&& first_fit_at(self.free(), size, align, addr as int)
                &&& addr as int % align == 0
                &&& self.start() <= addr
                &&& addr + size <= self.end()
                &&& addr < self.end()
                &&& extent(addr as int, size).subset_of(self.free())
                &&& chunk(addr as int, size).subset_of(self.free())
                &&& after.free() == self.free().difference(chunk(addr as int, size))
                &&& after.free().subset_of(self.free())
                &&& after.free().disjoint(extent(addr as int, size))
            },
            Err(e) => e == AllocError::OutOfMemory && *after == *self,
        }
    }

    /// A region without memory. Every request made of it is refused.
    pub fn empty() -> (region: Self)
        ensures
            region.wf(),
            !region.is_initialized(),
            region.start() == 0,
            region.end() == 0,
            region.free() == Set::<int>::empty(),
    {
        Self { start_virt: 0, end_virt: 0, global_alloc: heap_empty() }
    }

    /// Gives the region its memory. This happens once.
    ///
    /// The region starts at the first word boundary of `mem` and ends
    /// where `mem` ends, so it is shorter than `mem` by less than a word.
    /// All of it is free, but for what is left over at its end when it is
    /// cut down to whole words.
    pub fn init(&mut self, mem: &'static mut [MaybeUninit<u8>])
        requires
            old(self).wf(),
            !old(self).is_initialized(),
            old(mem)@.len() >= 24,
        ensures
            final(self).wf(),
            final(self).is_initialized(),
            final(self).start() <= final(self).end(),
            final(self).start() as int % word() == 0,
            final(self).end() - final(self).start() <= old(mem)@.len(),
            final(self).end() - final(self).start() > old(mem)@.len() - word(),
            final(self).free() == first_hole(final(self).start() as int, final(self).end() as int),
    {
        heap_init_from_slice(&mut self.global_alloc, mem);
        self.start_virt = heap_bottom(&self.global_alloc);
        self.end_virt = heap_top(&self.global_alloc);
        proof {
            let span = self.end_virt - self.start_virt;
            assert(word() == 4 || word() == 8);
            assert(0 <= (span / word()) * word() <= span) by (nonlinear_arith)
                requires
                    span >= 0,
                    word() == 4 || word() == 8,
            ;
        }
    }

    /// Asks the backing allocator for a block of `layout`: first fit over
    /// the holes of the region. A request whose alignment could pass the
    /// end of the address space is refused without asking.
    pub fn allocate(&mut self, layout: Layout) -> (res: Result<usize, AllocError>)
        requires
            old(self).wf(),
        ensures
            old(self).allocated(layout.size() as int, layout.align() as int, res, final(self)),
            old(self).free() == Set::<int>::empty() ==> res is Err,
    {
        proof {
            use_type_invariant(&layout);
            assert(word() == 4 || word() == 8);
        }
        let two_words: usize = 2 * ((usize::BITS / 8) as usize);
        let reach = match self.end_virt.checked_add(two_words) {
            Some(above) => above.checked_add(layout.align()),
            None => None,
        };
        if reach.is_none() {
            return Err(AllocError::OutOfMemory);
        }
        let found = heap_allocate_first_fit(&mut self.global_alloc, layout.size(), layout.align());
        proof {
            if let Ok(addr) = found {
                let size = layout.size() as int;
                let taken = chunk(addr as int, size);
                lemma_round_up(if size < header() { header() } else { size }, word());
                assert(taken.contains(addr as int));
                assert(taken.contains(addr + chunk_len(size) - 1));
                assert(extent(addr as int, size).subset_of(taken));
            }
            if old(self).free() == Set::<int>::empty() {
                assert forall|hole: (int, int)| !serving_hole(
                    old(self).free(),
                    hole,
                    layout.size() as int,
                    layout.align() as int,
                ) by {
                    if is_hole(old(self).free(), hole) {
                        assert(old(self).free().contains(hole.0));
                    }
                }
            }
        }
        served(found)
    }

    /// First address of the region; 0 before `init`.
    #[verifier::when_used_as_spec(spec_start)]
    pub fn start(&self) -> (addr: usize)
        ensures
            addr == self.start(),
    {
        self.start_virt
    }

    /// Address after the last of the region; 0 before `init`.
    #[verifier::when_used_as_spec(spec_end)]
    pub fn end(&self) -> (addr: usize)
        ensures
            addr == self.end(),
    {
        self.end_virt
    }

    /// Whether the region has been given its memory.
    #[verifier::when_used_as_spec(spec_is_initialized)]
    pub fn is_initialized(&self) -> (yes: bool)
        ensures
            yes == self.is_initialized(),
    {
        self.start_virt != 0
    }

    /// The allocator behind the region, for the caller that returns a
    /// block to it. The bounds of the region stay as they are.
    pub fn heap_mut(&mut self) -> (heap: &mut Heap)
        ensures
            *heap == old(self).heap(),
            final(self).heap() == *final(heap),
            final(self).start() == old(self).start(),
            final(self).end() == old(self).end(),
    {
        &mut self.global_alloc
    }
}

impl Default for MemoryRegion {
    fn default() -> (region: Self)
        ensures
            region.wf(),
            !region.is_initialized(),
            region.start() == 0,
            region.end() == 0,
            region.free() == Set::<int>::empty(),
    {
        MemoryRegion::empty()
    }
}

} // verus!
