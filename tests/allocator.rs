use tianole_frames::frame::{alloc_frame, dealloc_frame, BitmapFrameAllocator, FrameNumber, PAGE_SIZE};

fn four_frames() -> BitmapFrameAllocator {
    BitmapFrameAllocator::new(0, 0x4000, vec![0u8; 1])
}

#[test]
fn scenario_four_frames_lowest_first() {
    let mut a = four_frames();
    a.mark_range_used(0x1000, 0x1000);
    assert_eq!(a.free_frames(), 3);
    assert_eq!(a.allocate(), Some(FrameNumber(0)));
    assert_eq!(a.allocate(), Some(FrameNumber(2)));
    a.dealloc(FrameNumber(0));
    assert_eq!(a.allocate(), Some(FrameNumber(0)));
}

#[test]
fn new_allocator_is_all_free() {
    let a = BitmapFrameAllocator::new(0x2000, 0xA000, vec![0u8; 1]);
    assert_eq!(a.free_frames(), 8);
    assert_eq!(a.used_frames(), 0);
    assert!(a.frame_is_free(FrameNumber(2)));
    assert!(a.frame_is_free(FrameNumber(9)));
    assert!(!a.frame_is_free(FrameNumber(1)));
    assert!(!a.frame_is_free(FrameNumber(10)));
}

#[test]
fn conservation_holds_through_operations() {
    let mut a = BitmapFrameAllocator::new(0, 20 * 0x1000, vec![0u8; 3]);
    let total = 20;
    assert_eq!(a.free_frames() + a.used_frames(), total);
    a.mark_range_used(0x3000, 0x5000);
    assert_eq!(a.free_frames() + a.used_frames(), total);
    assert_eq!(a.used_frames(), 5);
    let f = a.allocate().unwrap();
    assert_eq!(a.free_frames() + a.used_frames(), total);
    a.dealloc(f);
    a.dealloc(f);
    assert_eq!(a.free_frames() + a.used_frames(), total);
    assert_eq!(a.used_frames(), 5);
}

#[test]
fn exhaustion_after_all_frames_taken() {
    let mut a = BitmapFrameAllocator::new(0, 10 * 0x1000, vec![0u8; 2]);
    a.mark_range_used(0, 0x3000);
    let k = 3;
    for _ in 0..(10 - k) {
        assert!(a.allocate().is_some());
    }
    assert_eq!(a.free_frames(), 0);
    assert_eq!(a.used_frames(), 10);
    assert_eq!(a.allocate(), None);
    assert_eq!(a.used_frames(), 10);
}

#[test]
fn pad_bits_are_never_handed_out() {
    let mut a = BitmapFrameAllocator::new(0, 3 * 0x1000, vec![0xFFu8; 1]);
    assert_eq!(a.allocate(), Some(FrameNumber(0)));
    assert_eq!(a.allocate(), Some(FrameNumber(1)));
    assert_eq!(a.allocate(), Some(FrameNumber(2)));
    assert_eq!(a.allocate(), None);
}

#[test]
fn no_double_issuance() {
    let mut a = BitmapFrameAllocator::new(0, 16 * 0x1000, vec![0u8; 2]);
    let mut seen = Vec::new();
    while let Some(f) = a.allocate() {
        assert!(!seen.contains(&f));
        seen.push(f);
    }
    assert_eq!(seen.len(), 16);
}

#[test]
fn reuse_after_free() {
    let mut a = BitmapFrameAllocator::new(0, 16 * 0x1000, vec![0u8; 2]);
    for _ in 0..12 {
        a.allocate();
    }
    a.dealloc(FrameNumber(9));
    assert_eq!(a.allocate(), Some(FrameNumber(9)));
    assert_eq!(a.allocate(), Some(FrameNumber(12)));
}

#[test]
fn marking_twice_is_idempotent() {
    let mut a = BitmapFrameAllocator::new(0, 16 * 0x1000, vec![0u8; 2]);
    a.mark_range_used(0x1800, 0x2000);
    let once = a.used_frames();
    a.mark_range_used(0x1800, 0x2000);
    assert_eq!(a.used_frames(), once);
    assert_eq!(once, 2);
}

#[test]
fn marking_clips_to_tracked_range() {
    let mut a = BitmapFrameAllocator::new(0x4000, 0x8000, vec![0u8; 1]);
    a.mark_range_used(0, 0x6000);
    assert_eq!(a.used_frames(), 2);
    a.mark_range_used(0x7000, 0x10000);
    assert_eq!(a.used_frames(), 3);
    assert_eq!(a.allocate(), Some(FrameNumber(6)));
}

#[test]
fn out_of_range_free_is_inert() {
    let mut a = BitmapFrameAllocator::new(0x4000, 0x8000, vec![0u8; 1]);
    a.allocate();
    assert_eq!(a.used_frames(), 1);
    a.dealloc(FrameNumber(3));
    a.dealloc(FrameNumber(8));
    a.dealloc(FrameNumber(1000));
    assert_eq!(a.used_frames(), 1);
}

#[test]
fn address_round_trip() {
    for f in [0usize, 1, 7, 4096, 1 << 30] {
        let frame = FrameNumber(f);
        assert_eq!(FrameNumber::from_phys_addr(frame.to_phys_addr()), frame);
    }
    assert_eq!(FrameNumber(3).to_phys_addr(), 0x3000);
    assert_eq!(FrameNumber::from_phys_addr(0x3FFF), FrameNumber(3));
    assert_eq!(PAGE_SIZE, 4096);
}

#[test]
fn empty_range_is_always_exhausted() {
    let mut a = BitmapFrameAllocator::new(0, 0, Vec::new());
    assert_eq!(a.free_frames(), 0);
    assert_eq!(a.allocate(), None);
}

#[test]
fn slot_without_allocator_is_inert() {
    let mut slot: Option<BitmapFrameAllocator> = None;
    assert_eq!(alloc_frame(&mut slot), None);
    dealloc_frame(&mut slot, FrameNumber(0));
    assert!(slot.is_none());
}

#[test]
fn slot_with_allocator_hands_out_frames() {
    let mut slot = Some(four_frames());
    assert_eq!(alloc_frame(&mut slot), Some(FrameNumber(0)));
    assert_eq!(alloc_frame(&mut slot), Some(FrameNumber(1)));
    dealloc_frame(&mut slot, FrameNumber(0));
    assert_eq!(slot.as_ref().unwrap().used_frames(), 1);
    assert_eq!(alloc_frame(&mut slot), Some(FrameNumber(0)));
}

#[test]
fn start_above_end_in_one_frame_is_empty() {
    let mut a = BitmapFrameAllocator::new(0x1FFF, 0x1000, Vec::new());
    assert_eq!(a.free_frames(), 0);
    assert_eq!(a.used_frames(), 0);
    assert_eq!(a.allocate(), None);
}

#[test]
fn mark_frames_used_by_frame_range() {
    let mut a = BitmapFrameAllocator::new(0x4000, 0xC000, vec![0u8; 1]);
    a.mark_frames_used(0, 6);
    assert_eq!(a.used_frames(), 2);
    a.mark_frames_used(11, 100);
    assert_eq!(a.used_frames(), 3);
    a.mark_frames_used(5, 7);
    assert_eq!(a.used_frames(), 4);
    assert_eq!(a.allocate(), Some(FrameNumber(7)));
}
