use tianole_frames::boot::{
    find_bitmap_region, init_frame_allocator, max_usable_addr, plan_bitmap, BitmapPlan, BootError,
    MemoryRegion, RegionKind,
};
use tianole_frames::frame::FrameNumber;
use tianole_frames::syscall::SyscallId;

fn region(base: u64, length: u64, kind: RegionKind) -> MemoryRegion {
    MemoryRegion { base, length, kind }
}

fn sample_map() -> Vec<MemoryRegion> {
    vec![
        region(0x0, 0x1000, RegionKind::Reserved),
        region(0x1000, 0x1000, RegionKind::Usable),
        region(0x2000, 0x2000, RegionKind::KernelAndModules),
        region(0x4000, 0xC000, RegionKind::Usable),
        region(0x10000, 0x4000, RegionKind::Framebuffer),
    ]
}

#[test]
fn max_usable_address_ignores_other_kinds() {
    assert_eq!(max_usable_addr(&sample_map()), 0x10000);
    assert_eq!(max_usable_addr(&Vec::new()), 0);
}

#[test]
fn bitmap_region_is_first_fit() {
    let map = sample_map();
    assert_eq!(find_bitmap_region(&map, 2), Some(1));
    assert_eq!(find_bitmap_region(&map, 0x2000), Some(3));
    assert_eq!(find_bitmap_region(&map, 0x10000), None);
}

#[test]
fn plan_for_sample_map() {
    let plan = plan_bitmap(&sample_map()).unwrap();
    assert_eq!(
        plan,
        BitmapPlan { max_addr: 0x10000, total_frames: 16, bitmap_bytes: 2, bitmap_base: 0x1000 }
    );
}

#[test]
fn plan_fails_without_room_for_bitmap() {
    let map = vec![region(0, 0x100000, RegionKind::Reserved), region(0x100000, 1, RegionKind::Usable)];
    assert_eq!(plan_bitmap(&map), Err(BootError::NoRegionForBitmap));
    assert!(init_frame_allocator(&map, vec![0u8; 64]).is_err());
}

#[test]
fn init_marks_reserved_regions_and_bitmap() {
    let map = sample_map();
    let mut a = init_frame_allocator(&map, vec![0u8; 2]).unwrap();
    // frames 0 (reserved), 1 (bitmap), 2 and 3 (kernel) are used; 4..16 free
    assert_eq!(a.used_frames(), 4);
    assert_eq!(a.free_frames(), 12);
    assert!(!a.frame_is_free(FrameNumber(1)));
    assert_eq!(a.allocate(), Some(FrameNumber(4)));
    assert_eq!(a.allocate(), Some(FrameNumber(5)));
}

#[test]
fn bitmap_page_is_never_handed_out() {
    let map = vec![region(0, 0x1000, RegionKind::Reserved), region(0x1000, 0x7000, RegionKind::Usable)];
    let plan = plan_bitmap(&map).unwrap();
    assert_eq!(plan.bitmap_bytes, 1);
    assert_eq!(plan.bitmap_base, 0x1000);
    let mut a = init_frame_allocator(&map, vec![0u8; 1]).unwrap();
    assert_eq!(a.used_frames(), 2);
    assert_eq!(a.free_frames(), 6);
    assert_eq!(a.allocate(), Some(FrameNumber(2)));
}

#[test]
fn unaligned_bitmap_marks_every_page_it_touches() {
    let map = vec![
        region(0, 0x1000, RegionKind::Reserved),
        region(0x1FFF, 0x1F001, RegionKind::Usable),
    ];
    let plan = plan_bitmap(&map).unwrap();
    assert_eq!(plan.total_frames, 33);
    assert_eq!(plan.bitmap_bytes, 5);
    assert_eq!(plan.bitmap_base, 0x1FFF);
    let mut a = init_frame_allocator(&map, vec![0u8; 5]).unwrap();
    assert_eq!(a.used_frames(), 3);
    assert_eq!(a.allocate(), Some(FrameNumber(3)));
}

#[test]
fn init_marks_whole_bitmap_frames_used() {
    let map = vec![region(0, 0x1000, RegionKind::Reserved), region(0x1000, 0x7FFF000, RegionKind::Usable)];
    let plan = plan_bitmap(&map).unwrap();
    assert_eq!(plan.total_frames, 32768);
    assert_eq!(plan.bitmap_bytes, 4096);
    assert_eq!(plan.bitmap_base, 0x1000);
    let mut a = init_frame_allocator(&map, vec![0u8; 4096]).unwrap();
    assert_eq!(a.used_frames(), 2);
    assert_eq!(a.free_frames(), 32766);
    assert!(!a.frame_is_free(FrameNumber(1)));
    assert_eq!(a.allocate(), Some(FrameNumber(2)));
}

#[test]
fn init_with_no_usable_memory_is_exhausted() {
    let none_usable = vec![region(0, 0x1000, RegionKind::Reserved)];
    assert_eq!(plan_bitmap(&none_usable), Err(BootError::NoRegionForBitmap));
    let map = vec![region(0, 0x1000, RegionKind::Reserved), region(0, 0, RegionKind::Usable)];
    let mut a = init_frame_allocator(&map, Vec::new()).unwrap();
    assert_eq!(a.free_frames(), 0);
    assert_eq!(a.allocate(), None);
}

#[test]
fn syscall_numbers() {
    assert_eq!(SyscallId::Print.number(), 0);
    assert_eq!(SyscallId::Exit.number(), 1);
    assert_eq!(SyscallId::Fork.number(), 2);
    assert_eq!(SyscallId::Exec.number(), 3);
}
