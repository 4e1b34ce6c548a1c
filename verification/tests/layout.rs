use krab_runtime::rt::{
    calculate_offset, gc_allocate, gc_deallocate, is_power_of_two, AllocLayout, GcColor, GcInfo,
    ObjectHead, RuntimeError, SENTINEL,
};
use std::mem::{align_of, size_of};

fn round_up(n: usize, to: usize) -> usize {
    (n + to - 1) / to * to
}

#[test]
fn gc_info_new_keeps_the_color() {
    assert_eq!(GcInfo::new(GcColor::White).color, GcColor::White);
    assert_eq!(GcInfo::new(GcColor::Gray).color, GcColor::Gray);
    assert_eq!(GcInfo::new(GcColor::Black).color, GcColor::Black);
}

#[test]
fn colors_have_their_bytes() {
    assert_eq!(GcColor::White.as_u8(), 0);
    assert_eq!(GcColor::Gray.as_u8(), 1);
    assert_eq!(GcColor::Black.as_u8(), 2);
    assert_eq!(GcInfo::new(GcColor::Gray).color.as_u8(), 1);
}

#[test]
fn offset_is_header_size_rounded_up() {
    let size = size_of::<ObjectHead>();
    for align in [0usize, 1, 2, 4, 8, 16, 32, 64, 128, 4096] {
        let block_align = align.max(align_of::<ObjectHead>());
        let offset = calculate_offset(align);
        assert_eq!(offset, round_up(size, block_align));
        assert!(offset >= size);
        assert_eq!(offset % block_align, 0);
    }
}

#[test]
fn offset_for_small_alignments_is_the_header_size() {
    // The header's size is a multiple of its own alignment.
    assert_eq!(calculate_offset(1), size_of::<ObjectHead>());
    assert_eq!(calculate_offset(align_of::<ObjectHead>()), size_of::<ObjectHead>());
}

#[test]
fn offset_for_an_alignment_above_the_header_size_is_the_alignment() {
    assert!(size_of::<ObjectHead>() <= 64);
    assert_eq!(calculate_offset(64), 64);
    assert_eq!(calculate_offset(4096), 4096);
    assert_eq!(calculate_offset(1 << 20), 1 << 20);
}

#[test]
fn offset_is_total_on_odd_alignments() {
    assert_eq!(calculate_offset(usize::MAX), usize::MAX);
    assert_eq!(calculate_offset(100), 100);
    assert_eq!(calculate_offset(24), round_up(size_of::<ObjectHead>(), 24));
}

#[test]
fn powers_of_two_are_recognised() {
    for shift in 0..usize::BITS {
        assert!(is_power_of_two(1usize << shift));
    }
    for n in [0usize, 3, 5, 6, 7, 12, 24, 100, usize::MAX, usize::MAX - 1] {
        assert!(!is_power_of_two(n));
    }
}

#[test]
fn alignment_corner() {
    let (head, layout) = gc_allocate(24, 64, false).unwrap();
    assert_eq!(layout, AllocLayout { size: 24 + 64, align: 64, offset: 64 });
    assert_eq!(layout.offset, calculate_offset(64));
    assert_eq!(head.metadata.align, 64);
    assert_eq!(head.object_size, 24);
    assert_eq!(head.info.color, GcColor::White);
    assert_eq!(head.index, SENTINEL);
    assert_eq!(head.root_index, SENTINEL);
    assert_eq!(head.mark_fn, None);
    // What deallocation computes from the header is what allocation asked for.
    assert_eq!(gc_deallocate(&head), Some(layout));
}

#[test]
fn allocation_raises_the_alignment_to_the_headers() {
    let (head, layout) = gc_allocate(16, 1, true).unwrap();
    assert_eq!(head.metadata.align, align_of::<ObjectHead>());
    assert_eq!(head.info.color, GcColor::Gray);
    assert_eq!(layout.align, align_of::<ObjectHead>());
    assert_eq!(layout.offset, size_of::<ObjectHead>());
    assert_eq!(layout.size, 16 + size_of::<ObjectHead>());
    assert_eq!(gc_deallocate(&head), Some(layout));
}

#[test]
fn allocation_of_nothing_is_the_header_alone() {
    let (head, layout) = gc_allocate(0, 8, false).unwrap();
    assert_eq!(head.object_size, 0);
    assert_eq!(layout.size, calculate_offset(8));
}

#[test]
fn allocation_rejects_an_alignment_that_is_no_power_of_two() {
    assert_eq!(gc_allocate(8, 0, false).unwrap_err(), RuntimeError::InvalidAlignment);
    assert_eq!(gc_allocate(8, 3, false).unwrap_err(), RuntimeError::InvalidAlignment);
    assert_eq!(gc_allocate(8, 24, true).unwrap_err(), RuntimeError::InvalidAlignment);
}

#[test]
fn allocation_rejects_a_block_that_is_too_large() {
    assert_eq!(gc_allocate(usize::MAX, 8, false).unwrap_err(), RuntimeError::AllocationFailure);
    assert_eq!(
        gc_allocate(isize::MAX as usize, 8, false).unwrap_err(),
        RuntimeError::AllocationFailure
    );
    let high = 1usize << (usize::BITS - 1);
    assert_eq!(gc_allocate(1, high, false).unwrap_err(), RuntimeError::AllocationFailure);
}

#[test]
fn allocation_takes_the_largest_block_that_fits() {
    let offset = calculate_offset(8);
    let largest = isize::MAX as usize - 7 - offset;
    let (_, layout) = gc_allocate(largest, 8, false).unwrap();
    assert_eq!(layout.size, isize::MAX as usize - 7);
    assert_eq!(gc_allocate(largest + 1, 8, false).unwrap_err(), RuntimeError::AllocationFailure);
}

#[test]
fn deallocation_rejects_a_header_that_no_allocation_made() {
    let (head, _) = gc_allocate(8, 8, false).unwrap();
    let mut broken = head;
    broken.metadata.align = 24;
    assert_eq!(gc_deallocate(&broken), None);
    let mut huge = head;
    huge.object_size = usize::MAX;
    assert_eq!(gc_deallocate(&huge), None);
}
