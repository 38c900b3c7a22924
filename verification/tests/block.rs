use core::mem::MaybeUninit;
use kernel::mm::block::{
    list_index, size_to_index, Disposal, FixedBlockAlloc, BLOCK_SIZES, CLASSES,
};
use kernel::mm::heap::AllocError;
use kernel::mm::layout::Layout;
use kernel::mm::memory::MemoryRegion;

fn memory(len: usize) -> &'static mut [MaybeUninit<u8>] {
    Box::leak(vec![MaybeUninit::<u8>::uninit(); len].into_boxed_slice())
}

fn region(len: usize) -> MemoryRegion {
    let mut root = MemoryRegion::empty();
    root.init(memory(len));
    root
}

fn layout(size: usize, align: usize) -> Layout {
    Layout::from_size_align(size, align).unwrap()
}

fn all_lists_empty(alloc: &FixedBlockAlloc) -> bool {
    (0..CLASSES).all(|index| alloc.free_blocks(index).is_empty())
}

#[test]
fn block_sizes_are_the_powers_of_two_from_8_to_2048() {
    assert_eq!(CLASSES, 9);
    assert_eq!(BLOCK_SIZES, [8, 16, 32, 64, 128, 256, 512, 1024, 2048]);
    for index in 1..CLASSES {
        assert_eq!(BLOCK_SIZES[index], 2 * BLOCK_SIZES[index - 1]);
    }
}

#[test]
fn list_index_picks_the_smallest_class_that_fits() {
    assert_eq!(list_index(layout(0, 1)), Some(0));
    assert_eq!(list_index(layout(1, 1)), Some(0));
    assert_eq!(list_index(layout(8, 8)), Some(0));
    assert_eq!(list_index(layout(9, 1)), Some(1));
    assert_eq!(list_index(layout(16, 8)), Some(1));
    assert_eq!(list_index(layout(17, 2)), Some(2));
    assert_eq!(list_index(layout(100, 4)), Some(4));
    assert_eq!(list_index(layout(1025, 8)), Some(8));
    assert_eq!(list_index(layout(2048, 8)), Some(8));
}

#[test]
fn list_index_counts_the_alignment() {
    assert_eq!(list_index(layout(1, 16)), Some(1));
    assert_eq!(list_index(layout(8, 64)), Some(3));
    assert_eq!(list_index(layout(24, 2048)), Some(8));
    assert_eq!(list_index(layout(100, 32)), Some(4));
}

#[test]
fn list_index_has_no_class_beyond_the_largest() {
    assert_eq!(list_index(layout(2049, 1)), None);
    assert_eq!(list_index(layout(4096, 8)), None);
    assert_eq!(list_index(layout(8, 4096)), None);
    assert_eq!(list_index(layout(0, 4096)), None);
}

#[test]
fn list_index_matches_every_block_size() {
    for index in 0..CLASSES {
        let size = BLOCK_SIZES[index];
        assert_eq!(list_index(layout(size, size)), Some(index));
        assert_eq!(list_index(layout(size, 1)), Some(index));
        assert_eq!(list_index(layout(1, size)), Some(index));
        if index + 1 < CLASSES {
            assert_eq!(list_index(layout(size + 1, 1)), Some(index + 1));
        }
    }
}

#[test]
fn size_to_index_is_the_logarithm_less_three() {
    assert_eq!(size_to_index(8), Some(0));
    assert_eq!(size_to_index(16), Some(1));
    assert_eq!(size_to_index(2048), Some(8));
    assert_eq!(size_to_index(15), Some(0));
    assert_eq!(size_to_index(17), Some(1));
    assert_eq!(size_to_index(4095), Some(8));
    for index in 0..CLASSES {
        assert_eq!(size_to_index(BLOCK_SIZES[index]), Some(index));
    }
}

#[test]
fn size_to_index_has_no_class_from_4096_on() {
    assert_eq!(size_to_index(4096), None);
    assert_eq!(size_to_index(1 << 20), None);
    assert_eq!(size_to_index(usize::MAX), None);
}

#[test]
fn empty_allocator_has_no_blocks() {
    let alloc = FixedBlockAlloc::empty();
    assert!(all_lists_empty(&alloc));
    assert_eq!(alloc.first_list_with_block(layout(8, 8)), None);
    assert_eq!(alloc.first_list_with_block(layout(2048, 8)), None);
}

#[test]
fn first_request_draws_from_the_backing_region_and_a_freed_block_is_reused() {
    let mut root = region(4096);
    let mut alloc = FixedBlockAlloc::empty();
    let small = layout(8, 8);
    let first = alloc.allocate(small, &mut root).unwrap();
    assert!(all_lists_empty(&alloc));
    assert!(root.start() <= first && first + 8 <= root.end());
    assert_eq!(first % 8, 0);

    let second = alloc.allocate(layout(16, 16), &mut root).unwrap();
    assert!(all_lists_empty(&alloc));
    assert!(second + 16 <= first || first + 8 <= second);

    assert_eq!(alloc.dealloc(first, small), Disposal::Listed);
    assert_eq!(alloc.free_blocks(0), vec![first]);
    assert_eq!(alloc.first_list_with_block(small), None);

    assert_eq!(alloc.allocate(small, &mut root), Ok(first));
    assert!(all_lists_empty(&alloc));
}

#[test]
fn request_beyond_the_largest_class_bypasses_the_lists() {
    let mut root = region(16384);
    let mut alloc = FixedBlockAlloc::empty();
    let large = layout(4096, 8);
    assert_eq!(list_index(large), None);
    let addr = alloc.allocate(large, &mut root).unwrap();
    assert!(all_lists_empty(&alloc));
    assert!(root.start() <= addr && addr + 4096 <= root.end());
    assert_eq!(alloc.dealloc(addr, large), Disposal::Backing);
    assert!(all_lists_empty(&alloc));
}

#[test]
fn request_beyond_the_largest_class_leaves_stocked_lists_alone() {
    let mut root = region(16384);
    let mut alloc = FixedBlockAlloc::empty();
    let top = layout(2048, 2048);
    let block = alloc.allocate(top, &mut root).unwrap();
    assert_eq!(alloc.dealloc(block, top), Disposal::Listed);
    let large = layout(2049, 1);
    let addr = alloc.allocate(large, &mut root).unwrap();
    assert_eq!(alloc.free_blocks(8), vec![block]);
    assert!(addr + 2049 <= block || block + 2048 <= addr);
    assert_eq!(alloc.dealloc(addr, large), Disposal::Backing);
    assert_eq!(alloc.free_blocks(8), vec![block]);
}

#[test]
fn large_alignment_is_served_by_the_backing_region() {
    let mut root = region(32768);
    let mut alloc = FixedBlockAlloc::empty();
    let aligned = layout(8, 4096);
    let addr = alloc.allocate(aligned, &mut root).unwrap();
    assert_eq!(addr % 4096, 0);
    assert!(all_lists_empty(&alloc));
    assert_eq!(alloc.dealloc(addr, aligned), Disposal::Backing);
}

#[test]
fn allocate_and_dealloc_in_turn_never_run_out() {
    let mut root = region(16384);
    let mut alloc = FixedBlockAlloc::empty();
    for index in 0..CLASSES {
        let size = BLOCK_SIZES[index];
        let request = layout(size, 1);
        let first = alloc.allocate(request, &mut root).unwrap();
        assert_eq!(alloc.dealloc(first, request), Disposal::Listed);
        for _ in 0..1000 {
            assert_eq!(alloc.allocate(request, &mut root), Ok(first));
            assert_eq!(alloc.dealloc(first, request), Disposal::Listed);
        }
        assert_eq!(alloc.free_blocks(index), vec![first]);
    }
}

#[test]
fn granted_block_holds_size_and_alignment() {
    let mut root = region(65536);
    let mut alloc = FixedBlockAlloc::empty();
    let requests = [(1, 1), (3, 2), (8, 8), (9, 4), (24, 16), (100, 64), (700, 8), (2048, 2048)];
    let mut held: Vec<(usize, usize)> = Vec::new();
    for (size, align) in requests {
        let request = layout(size, align);
        let index = list_index(request).unwrap();
        assert!(BLOCK_SIZES[index] >= size);
        assert!(BLOCK_SIZES[index] >= align);
        let addr = alloc.allocate(request, &mut root).unwrap();
        assert_eq!(addr % align, 0);
        assert_eq!(addr % BLOCK_SIZES[index], 0);
        assert!(root.start() <= addr && addr + BLOCK_SIZES[index] <= root.end());
        for &(other, len) in &held {
            assert!(addr + BLOCK_SIZES[index] <= other || other + len <= addr);
        }
        held.push((addr, BLOCK_SIZES[index]));
    }
}

#[test]
fn split_puts_both_halves_on_the_class_below() {
    let mut root = region(8192);
    let mut alloc = FixedBlockAlloc::empty();
    let whole = layout(64, 64);
    let block = alloc.allocate(whole, &mut root).unwrap();
    assert_eq!(alloc.dealloc(block, whole), Disposal::Listed);
    assert_eq!(alloc.split_and_downgrade(3), Ok(()));
    assert_eq!(alloc.free_blocks(3), Vec::<usize>::new());
    assert_eq!(alloc.free_blocks(2), vec![block + 32, block]);
    let half = layout(32, 32);
    assert_eq!(alloc.allocate(half, &mut root), Ok(block));
    assert_eq!(alloc.allocate(half, &mut root), Ok(block + 32));
    assert!(all_lists_empty(&alloc));
}

#[test]
fn split_of_an_empty_class_is_a_layout_error() {
    let mut alloc = FixedBlockAlloc::empty();
    for index in 1..CLASSES {
        assert_eq!(alloc.split_and_downgrade(index), Err(AllocError::LayoutError));
    }
    assert!(all_lists_empty(&alloc));
}

#[test]
fn split_keeps_older_blocks_below_the_halves() {
    let mut root = region(8192);
    let mut alloc = FixedBlockAlloc::empty();
    let small = layout(16, 16);
    let older = alloc.allocate(small, &mut root).unwrap();
    let whole = layout(32, 32);
    let block = alloc.allocate(whole, &mut root).unwrap();
    assert_eq!(alloc.dealloc(older, small), Disposal::Listed);
    assert_eq!(alloc.dealloc(block, whole), Disposal::Listed);
    assert_eq!(alloc.split_and_downgrade(2), Ok(()));
    assert_eq!(alloc.free_blocks(1), vec![older, block + 16, block]);
    assert_eq!(alloc.allocate(small, &mut root), Ok(block));
    assert_eq!(alloc.allocate(small, &mut root), Ok(block + 16));
    assert_eq!(alloc.allocate(small, &mut root), Ok(older));
}

#[test]
fn empty_class_is_refilled_by_halving_the_next_stocked_class() {
    let mut root = region(16384);
    let mut alloc = FixedBlockAlloc::empty();
    let whole = layout(2048, 2048);
    let block = alloc.allocate(whole, &mut root).unwrap();
    assert_eq!(alloc.dealloc(block, whole), Disposal::Listed);
    assert_eq!(alloc.first_list_with_block(layout(8, 8)), Some(8));

    assert_eq!(alloc.allocate(layout(8, 8), &mut root), Ok(block));
    for index in 0..8 {
        assert_eq!(alloc.free_blocks(index), vec![block + BLOCK_SIZES[index]]);
    }
    assert_eq!(alloc.free_blocks(8), Vec::<usize>::new());
    assert_eq!(alloc.first_list_with_block(layout(8, 8)), Some(1));
    assert_eq!(alloc.first_list_with_block(layout(300, 8)), Some(7));
    assert_eq!(alloc.first_list_with_block(layout(600, 8)), None);
    assert_eq!(alloc.first_list_with_block(layout(2048, 8)), None);
}

#[test]
fn smallest_class_is_cut_from_the_class_above() {
    let mut root = region(4096);
    let mut alloc = FixedBlockAlloc::empty();
    let whole = layout(16, 16);
    let block = alloc.allocate(whole, &mut root).unwrap();
    assert_eq!(alloc.dealloc(block, whole), Disposal::Listed);
    let small = layout(8, 8);
    assert_eq!(alloc.allocate(small, &mut root), Ok(block));
    assert_eq!(alloc.free_blocks(0), vec![block + 8]);
    assert_eq!(alloc.allocate(small, &mut root), Ok(block + 8));
    assert!(all_lists_empty(&alloc));
}

#[test]
fn freed_halves_are_not_joined() {
    let mut root = region(8192);
    let mut alloc = FixedBlockAlloc::empty();
    let whole = layout(128, 128);
    let block = alloc.allocate(whole, &mut root).unwrap();
    assert_eq!(alloc.dealloc(block, whole), Disposal::Listed);
    let half = layout(64, 64);
    let lower = alloc.allocate(half, &mut root).unwrap();
    let upper = alloc.allocate(half, &mut root).unwrap();
    assert_eq!((lower, upper), (block, block + 64));
    assert_eq!(alloc.dealloc(lower, half), Disposal::Listed);
    assert_eq!(alloc.dealloc(upper, half), Disposal::Listed);

    assert_eq!(alloc.free_blocks(4), Vec::<usize>::new());
    assert_eq!(alloc.free_blocks(3), vec![lower, upper]);
    assert_eq!(alloc.first_list_with_block(whole), None);

    let again = alloc.allocate(whole, &mut root).unwrap();
    assert!(again + 128 <= block || block + 128 <= again);
    assert_eq!(alloc.free_blocks(3), vec![lower, upper]);
}

#[test]
fn exhaustion_ends_in_out_of_memory_and_stays_in_bounds() {
    let mut root = region(4096);
    let mut alloc = FixedBlockAlloc::empty();
    let small = layout(8, 8);
    let mut got: Vec<usize> = Vec::new();
    let refused = loop {
        match alloc.allocate(small, &mut root) {
            Ok(addr) => {
                assert!(root.start() <= addr && addr + 8 <= root.end());
                assert_eq!(addr % 8, 0);
                got.push(addr);
                assert!(got.len() <= 4096 / 8);
            }
            Err(e) => break e,
        }
    };
    assert_eq!(refused, AllocError::OutOfMemory);
    assert!(!got.is_empty());
    got.sort();
    for pair in got.windows(2) {
        assert!(pair[0] + 8 <= pair[1]);
    }
    assert_eq!(alloc.allocate(small, &mut root), Err(AllocError::OutOfMemory));

    let back = got[0];
    assert_eq!(alloc.dealloc(back, small), Disposal::Listed);
    assert_eq!(alloc.allocate(small, &mut root), Ok(back));
}

#[test]
fn region_without_memory_refuses_every_class() {
    let mut root = MemoryRegion::empty();
    let mut alloc = FixedBlockAlloc::empty();
    assert_eq!(alloc.allocate(layout(8, 8), &mut root), Err(AllocError::OutOfMemory));
    assert_eq!(alloc.allocate(layout(2048, 8), &mut root), Err(AllocError::OutOfMemory));
    assert_eq!(alloc.allocate(layout(4096, 8), &mut root), Err(AllocError::OutOfMemory));
    assert!(all_lists_empty(&alloc));
}

#[test]
fn first_list_with_block_skips_classes_that_are_too_small() {
    let mut root = region(8192);
    let mut alloc = FixedBlockAlloc::empty();
    let small = layout(8, 8);
    let medium = layout(256, 256);
    let a = alloc.allocate(small, &mut root).unwrap();
    let b = alloc.allocate(medium, &mut root).unwrap();
    assert_eq!(alloc.dealloc(a, small), Disposal::Listed);
    assert_eq!(alloc.dealloc(b, medium), Disposal::Listed);
    assert_eq!(alloc.first_list_with_block(layout(9, 1)), Some(5));
    assert_eq!(alloc.first_list_with_block(layout(1, 16)), Some(5));
    assert_eq!(alloc.first_list_with_block(layout(128, 8)), Some(5));
    assert_eq!(alloc.first_list_with_block(layout(257, 8)), None);
    assert_eq!(alloc.first_list_with_block(layout(4096, 8)), None);
}

#[test]
fn first_list_with_block_leaves_out_the_class_of_the_request() {
    let mut root = region(8192);
    let mut alloc = FixedBlockAlloc::empty();
    let small = layout(8, 8);
    let medium = layout(256, 256);
    let a = alloc.allocate(small, &mut root).unwrap();
    let b = alloc.allocate(medium, &mut root).unwrap();
    assert_eq!(alloc.dealloc(a, small), Disposal::Listed);
    assert_eq!(alloc.dealloc(b, medium), Disposal::Listed);
    assert_eq!(alloc.free_blocks(0), vec![a]);
    assert_eq!(alloc.free_blocks(5), vec![b]);
    assert_eq!(alloc.first_list_with_block(layout(1, 1)), Some(5));
    assert_eq!(alloc.first_list_with_block(small), Some(5));
    assert_eq!(alloc.first_list_with_block(medium), None);
    assert_eq!(alloc.first_list_with_block(layout(200, 8)), None);
}

#[test]
fn stocked_class_is_served_before_a_class_above_is_split() {
    let mut root = region(8192);
    let mut alloc = FixedBlockAlloc::empty();
    let small = layout(8, 8);
    let medium = layout(256, 256);
    let a = alloc.allocate(small, &mut root).unwrap();
    let b = alloc.allocate(medium, &mut root).unwrap();
    assert_eq!(alloc.dealloc(a, small), Disposal::Listed);
    assert_eq!(alloc.dealloc(b, medium), Disposal::Listed);
    assert_eq!(alloc.allocate(small, &mut root), Ok(a));
    assert_eq!(alloc.free_blocks(5), vec![b]);
    assert_eq!(alloc.allocate(small, &mut root), Ok(b));
    assert_eq!(alloc.free_blocks(5), Vec::<usize>::new());
    for index in 0..5 {
        assert_eq!(alloc.free_blocks(index), vec![b + BLOCK_SIZES[index]]);
    }
}
