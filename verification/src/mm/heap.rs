//! Errors of the kernel heap and the place of the heap in the address space.

use vstd::prelude::*;
use x86_64::structures::paging::{Page, Size4KiB};
use x86_64::VirtAddr;

verus! {

/// First address of the window of virtual memory that holds the heap.
pub const HEAP_START: u64 = 0x_4444_4444_0000;

/// Number of bytes of the heap.
pub const HEAP_SIZE: usize = 1000 * 1024;

/// Number of bytes of a page.
pub const PAGE_SIZE: u64 = 4096;

/// Why the heap could not serve a request.
#[derive(Debug, Clone, Copy, PartialEq, Eq, Structural)]
pub enum AllocError {
    /// Out of memory
    OutOfMemory,
    /// Requested size is too big
    TooBig,
    /// The page allocator has no cached free pages
    PageAllocEmpty,
    /// Requested layout is incorrect
    LayoutError,
}

/// Whether `addr` is a canonical virtual address: its bits from 47 up are
/// all equal.
pub open spec fn canonical(addr: u64) -> bool {
    addr < 0x8000_0000_0000 || addr >= 0xffff_8000_0000_0000
}

/// The first address of the page that holds `addr`.
pub open spec fn page_floor(addr: u64) -> u64 {
    (addr - addr % PAGE_SIZE) as u64
}

/// Assumed of `Page::<Size4KiB>::containing_address`, applied to what
/// `VirtAddr::new` makes of `addr`, which panics unless `addr` is
/// canonical: the page starts at the multiple of 4096 at or next below
/// `addr`.
#[verifier::external_body]
fn page_start(addr: u64) -> (start: u64)
    requires
        canonical(addr),
    ensures
        start == page_floor(addr),
{
    Page::<Size4KiB>::containing_address(VirtAddr::new(addr)).start_address().as_u64()
}

/// The pages that back a window of `heap_size` bytes at `heap_start`: the
/// start of the first and the start of the last. Every byte of the window
/// lies in a page from the first to the last, and each of those pages
/// holds a byte of the window.
pub fn page_range(heap_start: u64, heap_size: u64) -> (pages: (u64, u64))
    requires
        heap_size > 0,
        heap_start + heap_size - 1 <= u64::MAX,
        canonical(heap_start),
        canonical((heap_start + heap_size - 1) as u64),
    ensures
        pages.0 == page_floor(heap_start),
        pages.1 == page_floor((heap_start + heap_size - 1) as u64),
        pages.0 % PAGE_SIZE == 0,
        pages.1 % PAGE_SIZE == 0,
        pages.0 <= heap_start < pages.0 + PAGE_SIZE,
        pages.0 <= pages.1,
        pages.1 < heap_start + heap_size <= pages.1 + PAGE_SIZE,
{
    let heap_end = heap_start + (heap_size - 1);
    let first = page_start(heap_start);
    let last = page_start(heap_end);
    proof {
        lemma_page_floor(heap_start);
        lemma_page_floor(heap_end);
        lemma_page_floor_ordered(heap_start, heap_end);
    }
    (first, last)
}

/// The start of a page is a multiple of the page size, and the page holds
/// the address that it was found for.
pub proof fn lemma_page_floor(addr: u64)
    ensures
        page_floor(addr) % PAGE_SIZE == 0,
        page_floor(addr) <= addr < page_floor(addr) + PAGE_SIZE,
{
}

/// Of two addresses, the lower lies in the earlier page, or in the same.
pub proof fn lemma_page_floor_ordered(low: u64, high: u64)
    requires
        low <= high,
    ensures
        page_floor(low) <= page_floor(high),
{
}

} // verus!
