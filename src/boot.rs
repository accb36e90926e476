use vstd::prelude::*;
use crate::frame::{frame_of, lemma_free_map_len, BitmapFrameAllocator};

verus! {

/// Classification of a span of physical memory reported by the bootloader.
#[derive(Debug, Clone, Copy, PartialEq, Eq, Structural)]
pub enum RegionKind {
    Usable,
    Reserved,
    AcpiReclaimable,
    AcpiNvs,
    BadMemory,
    BootloaderReclaimable,
    KernelAndModules,
    Framebuffer,
    Unknown,
}

/// One span `[base, base + length)` of physical memory and its kind.
#[derive(Debug, Clone, Copy, PartialEq, Eq, Structural)]
pub struct MemoryRegion {
    pub base: u64,
    pub length: u64,
    pub kind: RegionKind,
}

/// Fatal condition while building the frame allocator at boot.
#[derive(Debug, Clone, Copy, PartialEq, Eq, Structural)]
pub enum BootError {
    /// No usable region is large enough to hold the bitmap.
    NoRegionForBitmap,
}

/// Where the bitmap goes and how large the frame universe is.
#[derive(Debug, Clone, Copy, PartialEq, Eq, Structural)]
pub struct BitmapPlan {
    /// Highest end address of a usable region.
    pub max_addr: u64,
    /// Number of frames below `max_addr`.
    pub total_frames: u64,
    /// Bytes of bitmap needed for `total_frames` bits.
    pub bitmap_bytes: u64,
    /// Physical address at which the bitmap is stored.
    pub bitmap_base: u64,
}

/// Every region's end address fits in 64 bits.
pub open spec fn regions_fit(rs: Seq<MemoryRegion>) -> bool {
    forall|i: int| 0 <= i < rs.len() ==> #[trigger] rs[i].base + rs[i].length <= u64::MAX
}

/// Highest `base + length` over the usable regions, 0 when there is none.
pub open spec fn max_usable_end(rs: Seq<MemoryRegion>) -> int
    decreases rs.len(),
{
    if rs.len() == 0 {
        0
    } else {
        let prev = max_usable_end(rs.drop_last());
        let r = rs.last();
        if r.kind is Usable && r.base + r.length > prev {
            r.base + r.length
        } else {
            prev
        }
    }
}

/// Region `r` is usable and can hold `need` bytes.
pub open spec fn can_hold(r: MemoryRegion, need: int) -> bool {
    r.kind is Usable && r.length >= need
}

/// `i` is the first region, in the given order, that can hold `need` bytes.
pub open spec fn is_first_fit(rs: Seq<MemoryRegion>, need: int, i: int) -> bool {
    &&& 0 <= i < rs.len()
    &&& can_hold(rs[i], need)
    &&& forall|j: int| 0 <= j < i ==> !can_hold(#[trigger] rs[j], need)
}

/// Bytes of bitmap needed for `total` frames: one bit each, rounded up.
pub open spec fn bitmap_bytes_for(total: int) -> int {
    (total + 7) / 8
}

/// Frame `f` lies in the frames of `[base, base + length)`.
pub open spec fn covers(base: int, length: int, f: int) -> bool {
    frame_of(base) <= f < frame_of(base + length)
}

/// Some region among the first `k` that is not usable covers frame `f`.
pub open spec fn reserved_by(rs: Seq<MemoryRegion>, k: int, f: int) -> bool {
    exists|j: int|
        0 <= j < k && !(rs[j].kind is Usable) && covers(
            #[trigger] rs[j].base as int,
            rs[j].length as int,
            f,
        )
}

/// Frame `f` overlaps the bitmap's bytes `[bitmap_base, bitmap_base + bitmap_bytes)`.
pub open spec fn holds_bitmap(plan: BitmapPlan, f: int) -> bool {
    &&& plan.bitmap_bytes > 0
    &&& frame_of(plan.bitmap_base as int) <= f
    &&& f * 4096 < plan.bitmap_base + plan.bitmap_bytes
}

/// Free map of the allocator built at boot: a frame is free unless a region
/// that is not usable covers it or the bitmap itself lies on it.
pub open spec fn boot_free_map(rs: Seq<MemoryRegion>, plan: BitmapPlan) -> Seq<bool> {
    Seq::new(
        plan.total_frames as nat,
        |i: int|
            !reserved_by(rs, rs.len() as int, i) && !holds_bitmap(plan, i),
    )
}

/// The plan is the one that the region list calls for, with the bitmap in
/// region `i`.
pub open spec fn plan_matches(rs: Seq<MemoryRegion>, plan: BitmapPlan, i: int) -> bool {
    &&& plan.max_addr == max_usable_end(rs)
    &&& plan.total_frames == frame_of(plan.max_addr as int)
    &&& plan.bitmap_bytes == bitmap_bytes_for(plan.total_frames as int)
    &&& is_first_fit(rs, plan.bitmap_bytes as int, i)
    &&& plan.bitmap_base == rs[i].base
}

/// Highest end address of a usable region, 0 when there is none.
pub fn max_usable_addr(regions: &Vec<MemoryRegion>) -> (r: u64)
    requires
        regions_fit(regions@),
    ensures
        r == max_usable_end(regions@),
{
    let mut max_addr: u64 = 0;
    let mut k: usize = 0;
    while k < regions.len()
        invariant
            regions_fit(regions@),
            k <= regions@.len(),
            max_addr == max_usable_end(regions@.subrange(0, k as int)),
        decreases regions@.len() - k,
    {
        let e = regions[k];
        proof {
            assert(regions@.subrange(0, k + 1).drop_last() =~= regions@.subrange(0, k as int));
            assert(regions@[k as int].base + regions@[k as int].length <= u64::MAX);
        }
        if matches!(e.kind, RegionKind::Usable) {
            let end = e.base + e.length;
            if end > max_addr {
                max_addr = end;
            }
        }
        k = k + 1;
    }
    proof {
        assert(regions@.subrange(0, regions@.len() as int) =~= regions@);
    }
    max_addr
}

/// Index of the first usable region, in the given order, whose length is at
/// least `need` bytes.
pub fn find_bitmap_region(regions: &Vec<MemoryRegion>, need: u64) -> (r: Option<usize>)
    ensures
        match r {
            Some(i) => is_first_fit(regions@, need as int, i as int),
            None => forall|j: int| 0 <= j < regions@.len() ==> !can_hold(#[trigger] regions@[j], need as int),
        },
{
    let mut k: usize = 0;
    while k < regions.len()
        invariant
            k <= regions@.len(),
            forall|j: int| 0 <= j < k ==> !can_hold(#[trigger] regions@[j], need as int),
        decreases regions@.len() - k,
    {
        let e = regions[k];
        if matches!(e.kind, RegionKind::Usable) && e.length >= need {
            return Some(k);
        }
        k = k + 1;
    }
    None
}

/// Sizes the frame universe from the usable regions and places the bitmap in
/// the first usable region that can hold it.
pub fn plan_bitmap(regions: &Vec<MemoryRegion>) -> (r: Result<BitmapPlan, BootError>)
    requires
        regions_fit(regions@),
    ensures
        match r {
            Ok(plan) => exists|i: int| plan_matches(regions@, plan, i),
            Err(e) => {
                &&& e == BootError::NoRegionForBitmap
                &&& forall|j: int|
                    0 <= j < regions@.len() ==> !can_hold(
                        #[trigger] regions@[j],
                        bitmap_bytes_for(frame_of(max_usable_end(regions@))),
                    )
            },
        },
{
    let max_addr = max_usable_addr(regions);
    let total_frames = max_addr / 4096u64;
    let bitmap_bytes = (total_frames + 7) / 8;
    match find_bitmap_region(regions, bitmap_bytes) {
        Some(i) => {
            let plan = BitmapPlan {
                max_addr,
                total_frames,
                bitmap_bytes,
                bitmap_base: regions[i].base,
            };
            assert(plan_matches(regions@, plan, i as int));
            let r = Ok(plan);
            assert(r matches Ok(p) && plan_matches(regions@, p, i as int));
            r
        },
        None => Err(BootError::NoRegionForBitmap),
    }
}

/// Builds the frame allocator for the region list over the frames below the
/// highest usable address, with the bitmap in the first usable region that can
/// hold it. Every frame that a region which is not usable covers, and every
/// frame that overlaps the bitmap's own bytes, starts out used.
pub fn init_frame_allocator(regions: &Vec<MemoryRegion>, bitmap_storage: Vec<u8>) -> (r: Result<
    BitmapFrameAllocator,
    BootError,
>)
    requires
        regions_fit(regions@),
        frame_of(max_usable_end(regions@)) <= usize::MAX,
        bitmap_storage@.len() >= bitmap_bytes_for(frame_of(max_usable_end(regions@))),
    ensures
        match r {
            Ok(a) => exists|plan: BitmapPlan, i: int|
                {
                    &&& plan_matches(regions@, plan, i)
                    &&& a.wf()
                    &&& a.start() == 0
                    &&& a.end() == plan.total_frames
                    &&& #[trigger] a.free_map() == boot_free_map(regions@, plan)
                },
            Err(e) => {
                &&& e == BootError::NoRegionForBitmap
                &&& forall|j: int|
                    0 <= j < regions@.len() ==> !can_hold(
                        #[trigger] regions@[j],
                        bitmap_bytes_for(frame_of(max_usable_end(regions@))),
                    )
            },
        },
{
    let plan = match plan_bitmap(regions) {
        Ok(p) => p,
        Err(e) => {
            return Err(e);
        },
    };
    let ghost fit = choose|i: int| plan_matches(regions@, plan, i);
    let mut a = BitmapFrameAllocator::new(0, plan.max_addr, bitmap_storage);
    let ghost total = plan.total_frames as nat;
    proof {
        lemma_free_map_len(&a);
        assert(a.free_map() =~= Seq::new(total, |i: int| !reserved_by(regions@, 0, i)));
    }
    let mut k: usize = 0;
    while k < regions.len()
        invariant
            regions_fit(regions@),
            k <= regions@.len(),
            a.wf(),
            a.start() == 0,
            a.end() == total,
            a.free_map() == Seq::new(total, |i: int| !reserved_by(regions@, k as int, i)),
        decreases regions@.len() - k,
    {
        let e = regions[k];
        let ghost before = a.free_map();
        proof {
            assert(regions@[k as int].base + regions@[k as int].length <= u64::MAX);
        }
        if !matches!(e.kind, RegionKind::Usable) {
            a.mark_range_used(e.base, e.length);
        }
        proof {
            lemma_free_map_len(&a);
            let next = Seq::new(total, |i: int| !reserved_by(regions@, k + 1, i));
            assert forall|i: int| 0 <= i < total implies a.free_map()[i] == next[i] by {
                if reserved_by(regions@, k as int, i) {
                    let j = choose|j: int|
                        0 <= j < k && !(regions@[j].kind is Usable) && covers(
                            #[trigger] regions@[j].base as int,
                            regions@[j].length as int,
                            i,
                        );
                    assert(0 <= j < k + 1);
                } else if !(e.kind is Usable) && covers(e.base as int, e.length as int, i) {
                    assert(0 <= k < k + 1 && covers(regions@[k as int].base as int, regions@[k as int].length as int, i));
                } else {
                    if reserved_by(regions@, k + 1, i) {
                        let j = choose|j: int|
                            0 <= j < k + 1 && !(regions@[j].kind is Usable) && covers(
                                #[trigger] regions@[j].base as int,
                                regions@[j].length as int,
                                i,
                            );
                        assert(j != k);
                    }
                }
            }
            assert(a.free_map() =~= next);
        }
        k = k + 1;
    }
    proof {
        assert(regions@[fit].base + regions@[fit].length <= u64::MAX);
    }
    if plan.bitmap_bytes > 0 {
        let first = plan.bitmap_base / 4096u64;
        let last = (plan.bitmap_base + plan.bitmap_bytes - 1) / 4096u64 + 1;
        proof {
            let e = plan.bitmap_base + plan.bitmap_bytes;
            assert forall|i: int| first <= i implies (i < last <==> #[trigger] holds_bitmap(plan, i)) by {
                assert((e - 1) / 4096 * 4096 <= e - 1 && e - 1 < ((e - 1) / 4096 + 1) * 4096)
                    by (nonlinear_arith)
                    requires e >= 1;
                if i < last {
                    assert(i <= (e - 1) / 4096);
                    assert(i * 4096 <= (e - 1) / 4096 * 4096) by (nonlinear_arith)
                        requires i <= (e - 1) / 4096;
                } else {
                    assert(i >= (e - 1) / 4096 + 1);
                    assert(i * 4096 >= ((e - 1) / 4096 + 1) * 4096) by (nonlinear_arith)
                        requires i >= (e - 1) / 4096 + 1;
                }
            }
        }
        a.mark_frames_used(first, last);
    }
    proof {
        lemma_free_map_len(&a);
        assert(a.free_map() =~= boot_free_map(regions@, plan));
    }
    Ok(a)
}

} // verus!
