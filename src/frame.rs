use vstd::prelude::*;
use vstd::std_specs::bits::axiom_u8_trailing_zeros;

verus! {

/// Size in bytes of one physical page frame.
pub const PAGE_SIZE: usize = 4096;

/// Frame index that contains the physical address `addr` (floor division).
pub open spec fn frame_of(addr: int) -> int {
    addr / PAGE_SIZE as int
}

/// Physical address at which frame `f` starts.
pub open spec fn addr_of(f: int) -> int {
    f * PAGE_SIZE as int
}

/// Whether bit `j` of byte `b` is set.
pub open spec fn bit_of(b: u8, j: int) -> bool {
    (b >> (j as u8)) & 1u8 == 1u8
}

/// Number of `true` entries in `s`.
pub open spec fn count_true(s: Seq<bool>) -> nat
    decreases s.len(),
{
    if s.len() == 0 {
        0
    } else {
        count_true(s.drop_last()) + if s.last() { 1nat } else { 0nat }
    }
}

/// `i` is the lowest index at which `m` holds `true`.
pub open spec fn is_lowest_free(m: Seq<bool>, i: int) -> bool {
    &&& 0 <= i < m.len()
    &&& m[i]
    &&& forall|j: int| 0 <= j < i ==> !m[j]
}

/// The free map `m` of a range starting at frame `start` after every frame of
/// `[lo, hi)` has been marked used.
pub open spec fn marked(m: Seq<bool>, start: int, lo: int, hi: int) -> Seq<bool> {
    Seq::new(m.len(), |i: int| m[i] && !(lo <= start + i < hi))
}

/// Free map of the first `n` bits of the bytes `bm`, lowest bit first.
pub open spec fn map_of(bm: Seq<u8>, n: nat) -> Seq<bool> {
    Seq::new(n, |i: int| bit_of(bm[i / 8], i % 8))
}

/// A physical frame number.
#[derive(Debug, Clone, Copy, PartialEq, Eq, PartialOrd, Ord)]
pub struct FrameNumber(pub usize);

impl FrameNumber {
    /// The frame that contains physical address `addr`.
    pub fn from_phys_addr(addr: u64) -> (r: FrameNumber)
        requires
            frame_of(addr as int) <= usize::MAX,
        ensures
            r.0 as int == frame_of(addr as int),
    {
        FrameNumber((addr / 4096u64) as usize)
    }

    /// The physical address at which this frame starts.
    pub fn to_phys_addr(self) -> (r: u64)
        requires
            addr_of(self.0 as int) <= u64::MAX,
        ensures
            r as int == addr_of(self.0 as int),
    {
        (self.0 as u64) * 4096u64
    }
}

/// Converting a frame to its address and back gives the frame again.
pub proof fn lemma_frame_addr_round_trip(f: int)
    requires
        0 <= f,
    ensures
        frame_of(addr_of(f)) == f,
{
    assert((f * 4096) / 4096 == f) by (nonlinear_arith);
}

/// Bitmap allocator of physical frames over the half-open range
/// `[start_frame, end_frame)`: bit set means the frame is free.
pub struct BitmapFrameAllocator {
    bitmap: Vec<u8>,
    start_frame: FrameNumber,
    end_frame: FrameNumber,
    total_frames: usize,
    used_frames: usize,
}

impl BitmapFrameAllocator {
    /// First frame of the tracked range.
    pub closed spec fn start(&self) -> int {
        self.start_frame.0 as int
    }

    /// One past the last frame of the tracked range.
    pub closed spec fn end(&self) -> int {
        self.end_frame.0 as int
    }

    /// Number of frames in the tracked range.
    pub closed spec fn total(&self) -> int {
        self.total_frames as int
    }

    /// Value of the used-frame counter.
    pub closed spec fn used(&self) -> int {
        self.used_frames as int
    }

    /// Free map: entry `i` tells whether frame `start() + i` is free.
    pub closed spec fn free_map(&self) -> Seq<bool> {
        map_of(self.bitmap@, self.total_frames as nat)
    }

    /// Number of free frames, as the counters give it.
    pub open spec fn free_count(&self) -> int {
        self.total() - self.used()
    }

    /// `after` and `r` are a possible outcome of `allocate` on `self`: the lowest free
    /// frame is taken, or nothing is when no frame is free.
    pub open spec fn alloc_post(&self, after: &Self, r: Option<FrameNumber>) -> bool {
        &&& after.wf()
        &&& after.start() == self.start()
        &&& after.end() == self.end()
        &&& after.total() == self.total()
        &&& (r is None <==> count_true(self.free_map()) == 0)
        &&& match r {
            None => after.free_map() == self.free_map() && after.used() == self.used(),
            Some(f) => {
                &&& self.start() <= f.0 < self.end()
                &&& is_lowest_free(self.free_map(), f.0 - self.start())
                &&& after.free_map() == self.free_map().update(f.0 - self.start(), false)
                &&& after.used() == self.used() + 1
                &&& after.free_count() == self.free_count() - 1
            },
        }
    }

    /// `after` is the outcome of `dealloc(f)` on `self`: a frame in range becomes
    /// free, anything else is ignored.
    pub open spec fn dealloc_post(&self, after: &Self, f: int) -> bool {
        &&& after.wf()
        &&& after.start() == self.start()
        &&& after.end() == self.end()
        &&& after.total() == self.total()
        &&& if self.start() <= f < self.end() {
            &&& after.free_map() == self.free_map().update(f - self.start(), true)
            &&& after.used() == self.used() - if self.free_map()[f - self.start()] {
                0int
            } else {
                1int
            }
        } else {
            after.free_map() == self.free_map() && after.used() == self.used()
        }
    }

    /// `after` is the outcome of `mark_frames_used(lo, hi)` on `self`: every
    /// tracked frame of `[lo, hi)` is used.
    pub open spec fn mark_frames_post(&self, after: &Self, lo: int, hi: int) -> bool {
        &&& after.wf()
        &&& after.start() == self.start()
        &&& after.end() == self.end()
        &&& after.total() == self.total()
        &&& after.free_map() == marked(self.free_map(), self.start(), lo, hi)
    }

    /// `after` is the outcome of `mark_range_used(base, length)` on `self`: every
    /// tracked frame from the one holding `base` up to, not including, the one
    /// holding `base + length` is used.
    pub open spec fn mark_post(&self, after: &Self, base: int, length: int) -> bool {
        self.mark_frames_post(after, frame_of(base), frame_of(base + length))
    }

    /// Whether frame `f` is inside the tracked range and free.
    pub open spec fn is_free(&self, f: int) -> bool {
        self.start() <= f < self.end() && self.free_map()[f - self.start()]
    }

    /// Well-formedness: the range, the bitmap's size and the counter agree.
    pub closed spec fn wf(&self) -> bool {
        &&& self.start() <= self.end()
        &&& self.total() == self.end() - self.start()
        &&& self.bitmap@.len() * 8 >= self.total()
        &&& self.used() + count_true(self.free_map()) == self.total()
    }

    /// A new allocator over the frames from the one holding `usable_memory_start`
    /// up to, not including, the one holding `usable_memory_end`, with every frame
    /// free; the range is empty when both lie in one frame. `bitmap_storage` is overwritten.
    pub fn new(usable_memory_start: u64, usable_memory_end: u64, bitmap_storage: Vec<u8>) -> (r:
        BitmapFrameAllocator)
        requires
            frame_of(usable_memory_start as int) <= frame_of(usable_memory_end as int),
            frame_of(usable_memory_end as int) <= usize::MAX,
            bitmap_storage@.len() * 8 >= frame_of(usable_memory_end as int) - frame_of(
                usable_memory_start as int,
            ),
        ensures
            r.wf(),
            r.start() == frame_of(usable_memory_start as int),
            r.end() == frame_of(usable_memory_end as int),
            r.used() == 0,
            r.total() == r.end() - r.start(),
            forall|i: int| 0 <= i < r.total() ==> r.free_map()[i],
    {
        let start = FrameNumber::from_phys_addr(usable_memory_start);
        let end = FrameNumber::from_phys_addr(usable_memory_end);
        let total = end.0 - start.0;
        let mut bitmap = bitmap_storage;
        let n = bitmap.len();
        let mut k: usize = 0;
        while k < n
            invariant
                bitmap@.len() == n,
                k <= n,
                forall|j: int| 0 <= j < k ==> bitmap@[j] == 0xFFu8,
            decreases n - k,
        {
            bitmap.set(k, 0xFFu8);
            k = k + 1;
        }
        let r = BitmapFrameAllocator {
            bitmap,
            start_frame: start,
            end_frame: end,
            total_frames: total,
            used_frames: 0,
        };
        proof {
            assert forall|i: int| 0 <= i < r.total() implies r.free_map()[i] by {
                let j = (i % 8) as u8;
                assert(j < 8);
                assert(j < 8 ==> (0xFFu8 >> j) & 1u8 == 1u8) by (bit_vector);
            }
            lemma_count_all_true(r.free_map());
        }
        r
    }

    /// Number of free frames in the tracked range.
    pub fn free_frames(&self) -> (r: usize)
        requires
            self.wf(),
        ensures
            r == self.total() - self.used(),
            r == count_true(self.free_map()),
    {
        self.total_frames - self.used_frames
    }

    /// Number of used frames in the tracked range.
    pub fn used_frames(&self) -> (r: usize)
        requires
            self.wf(),
        ensures
            r == self.used(),
            r == self.total() - count_true(self.free_map()),
    {
        self.used_frames
    }

    /// Takes the lowest free frame of the tracked range, or reports exhaustion.
    pub fn allocate(&mut self) -> (r: Option<FrameNumber>)
        requires
            old(self).wf(),
        ensures
            old(self).alloc_post(final(self), r),
    {
        let n = self.bitmap.len();
        let mut bi: usize = 0;
        while bi < n
            invariant
                self.wf(),
                self.bitmap@ == old(self).bitmap@,
                self.start_frame == old(self).start_frame,
                self.end_frame == old(self).end_frame,
                self.total_frames == old(self).total_frames,
                self.used_frames == old(self).used_frames,
                n == self.bitmap@.len(),
                bi <= n,
                forall|i: int| 0 <= i < bi * 8 && i < self.total() ==> !#[trigger] self.free_map()[i],
            decreases n - bi,
        {
            let byte = self.bitmap[bi];
            if byte != 0 {
                let tz = byte.trailing_zeros();
                proof {
                    axiom_u8_trailing_zeros(byte);
                }
                if bi > self.total_frames / 8 {
                    proof {
                        assert forall|i: int| 0 <= i < self.total() implies !#[trigger] self.free_map()[i] by {
                            assert(i < bi * 8);
                        }
                        lemma_count_zero(self.free_map());
                    }
                    return None;
                }
                let off: usize = bi * 8 + tz as usize;
                if off >= self.total_frames {
                    proof {
                        assert forall|i: int| 0 <= i < self.total() implies !#[trigger] self.free_map()[i] by {
                            if i >= bi * 8 {
                                let j = (i % 8) as u8;
                                assert(i / 8 == bi);
                                assert(j < tz);
                            }
                        }
                        lemma_count_zero(self.free_map());
                    }
                    return None;
                }
                let bit = tz as u8;
                let nb = byte & !(1u8 << bit);
                proof {
                    let m = self.free_map();
                    assert(i_bit(off as int) == bit);
                    assert(m[off as int]);
                    assert forall|i: int| 0 <= i < off implies !#[trigger] m[i] by {
                        if i >= bi * 8 {
                            let j = (i % 8) as u8;
                            assert(i / 8 == bi);
                            assert(j < tz);
                        }
                    }
                    lemma_clear_bit(byte, bit);
                    lemma_write_bit(self.bitmap@, self.total_frames as nat, off as int, nb, false);
                    lemma_count_update(m, off as int, false);
                }
                self.bitmap.set(bi, nb);
                self.used_frames = self.used_frames + 1;
                return Some(FrameNumber(self.start_frame.0 + off));
            }
            proof {
                assert forall|i: int| 0 <= i < (bi + 1) * 8 && i < self.total() implies !#[trigger] self.free_map()[i] by {
                    if i >= bi * 8 {
                        let j = (i % 8) as u8;
                        assert(i / 8 == bi);
                        assert(j < 8 ==> (0u8 >> j) & 1u8 == 0u8) by (bit_vector);
                    }
                }
            }
            bi = bi + 1;
        }
        proof {
            lemma_count_zero(self.free_map());
        }
        None
    }

    /// Returns frame `frame` to the free pool; a frame outside the tracked range
    /// is ignored, and freeing a free frame changes nothing.
    pub fn dealloc(&mut self, frame: FrameNumber)
        requires
            old(self).wf(),
        ensures
            old(self).dealloc_post(final(self), frame.0 as int),
    {
        let f = frame.0;
        if f < self.start_frame.0 || f >= self.end_frame.0 {
            return;
        }
        let off = f - self.start_frame.0;
        let bi = off / 8;
        let bit = (off % 8) as u8;
        let byte = self.bitmap[bi];
        let was_used = (byte >> bit) & 1u8 == 0u8;
        let nb = byte | (1u8 << bit);
        proof {
            let m = self.free_map();
            assert(i_bit(off as int) == bit);
            assert(bit < 8 ==> ((byte >> bit) & 1u8 == 0u8) != ((byte >> bit) & 1u8 == 1u8)) by (bit_vector);
            lemma_set_bit(byte, bit);
            lemma_write_bit(self.bitmap@, self.total_frames as nat, off as int, nb, true);
            lemma_count_update(m, off as int, true);
            lemma_count_bound(m.update(off as int, true));
        }
        self.bitmap.set(bi, nb);
        if was_used {
            self.used_frames = self.used_frames - 1;
        }
    }

    /// Marks as used every tracked frame that overlaps the frames of
    /// `[start_addr, start_addr + length)`; frames already used stay as they are.
    pub fn mark_range_used(&mut self, start_addr: u64, length: u64)
        requires
            old(self).wf(),
            start_addr + length <= u64::MAX,
        ensures
            old(self).mark_post(final(self), start_addr as int, length as int),
    {
        let first = start_addr / 4096u64;
        let last = (start_addr + length) / 4096u64;
        self.mark_frames_used(first, last);
    }

    /// Marks as used every tracked frame of `[first, last)`; frames already used
    /// stay as they are.
    pub fn mark_frames_used(&mut self, first: u64, last: u64)
        requires
            old(self).wf(),
        ensures
            old(self).mark_frames_post(final(self), first as int, last as int),
    {
        let own_start = self.start_frame.0 as u64;
        let own_end = self.end_frame.0 as u64;
        let lo = if first < own_start { own_start } else { first };
        let hi = if last > own_end { own_end } else { last };
        let ghost m0 = self.free_map();
        let mut fr: u64 = lo;
        while fr < hi
            invariant
                self.wf(),
                self.start() == old(self).start(),
                self.end() == old(self).end(),
                self.total() == old(self).total(),
                own_start == self.start(),
                own_end == self.end(),
                m0 == old(self).free_map(),
                own_start <= lo,
                hi <= own_end,
                lo <= fr,
                lo <= hi ==> fr <= hi,
                lo > hi ==> fr == lo,
                self.free_map() == marked(m0, own_start as int, lo as int, fr as int),
            decreases hi - fr,
        {
            let off = (fr - own_start) as usize;
            let bi = off / 8;
            let bit = (off % 8) as u8;
            let byte = self.bitmap[bi];
            let was_free = (byte >> bit) & 1u8 == 1u8;
            let nb = byte & !(1u8 << bit);
            proof {
                let m = self.free_map();
                assert(i_bit(off as int) == bit);
                lemma_clear_bit(byte, bit);
                lemma_write_bit(self.bitmap@, self.total_frames as nat, off as int, nb, false);
                lemma_count_update(m, off as int, false);
                assert(m.update(off as int, false) =~= marked(m0, own_start as int, lo as int, fr + 1));
            }
            self.bitmap.set(bi, nb);
            if was_free {
                self.used_frames = self.used_frames + 1;
            }
            fr = fr + 1;
        }
        proof {
            assert(self.free_map() =~= marked(m0, own_start as int, first as int, last as int));
        }
    }

    /// Whether frame `f` is inside the tracked range and free.
    pub fn frame_is_free(&self, f: FrameNumber) -> (r: bool)
        requires
            self.wf(),
        ensures
            r == self.is_free(f.0 as int),
    {
        if f.0 < self.start_frame.0 || f.0 >= self.end_frame.0 {
            return false;
        }
        let off = f.0 - self.start_frame.0;
        let byte = self.bitmap[off / 8];
        let bit = (off % 8) as u8;
        (byte >> bit) & 1u8 == 1u8
    }
}

/// The allocator held by the kernel's single slot, if installed, is well formed.
pub open spec fn slot_wf(slot: Option<BitmapFrameAllocator>) -> bool {
    match slot {
        Some(a) => a.wf(),
        None => true,
    }
}

/// Allocates from the installed allocator; with none installed, no frame is
/// available.
pub fn alloc_frame(slot: &mut Option<BitmapFrameAllocator>) -> (r: Option<FrameNumber>)
    requires
        slot_wf(*old(slot)),
    ensures
        match *old(slot) {
            Some(a) => *final(slot) matches Some(b) && a.alloc_post(&b, r),
            None => r is None && *final(slot) is None,
        },
{
    match slot {
        Some(a) => a.allocate(),
        None => None,
    }
}

/// Frees through the installed allocator; with none installed, nothing happens.
pub fn dealloc_frame(slot: &mut Option<BitmapFrameAllocator>, frame: FrameNumber)
    requires
        slot_wf(*old(slot)),
    ensures
        match *old(slot) {
            Some(a) => *final(slot) matches Some(b) && a.dealloc_post(&b, frame.0 as int),
            None => *final(slot) is None,
        },
{
    if let Some(a) = slot {
        a.dealloc(frame);
    }
}

/// The free and used counts of a well-formed allocator add up to its total.
pub proof fn lemma_conservation(a: &BitmapFrameAllocator)
    requires
        a.wf(),
    ensures
        a.free_count() + a.used() == a.total(),
        a.free_count() == count_true(a.free_map()),
        0 <= a.used() <= a.total(),
{
    lemma_count_bound(a.free_map());
}

/// The free map of a well-formed allocator has one entry per tracked frame.
pub proof fn lemma_free_map_len(a: &BitmapFrameAllocator)
    requires
        a.wf(),
    ensures
        a.free_map().len() == a.total(),
        a.total() == a.end() - a.start(),
        0 <= a.start() <= a.end(),
{
}

/// Once no frame is free, `allocate` reports exhaustion.
pub proof fn lemma_exhaustion(a: &BitmapFrameAllocator, b: &BitmapFrameAllocator, r: Option<FrameNumber>)
    requires
        a.wf(),
        a.free_count() == 0,
        a.alloc_post(b, r),
    ensures
        r is None,
        b.free_count() == 0,
{
}

/// A frame handed out by `allocate` is not handed out by the next `allocate`.
pub proof fn lemma_no_double_issuance(
    a: &BitmapFrameAllocator,
    b: &BitmapFrameAllocator,
    c: &BitmapFrameAllocator,
    f: FrameNumber,
    r: Option<FrameNumber>,
)
    requires
        a.wf(),
        a.alloc_post(b, Some(f)),
        b.alloc_post(c, r),
    ensures
        r != Some(f),
{
    if r == Some(f) {
        assert(!b.free_map()[f.0 - a.start()]);
    }
}

/// Marking a range used never frees a frame: a frame handed out by `allocate`
/// stays used across any `mark_range_used`.
pub proof fn lemma_mark_keeps_used(
    a: &BitmapFrameAllocator,
    b: &BitmapFrameAllocator,
    base: int,
    length: int,
    f: int,
)
    requires
        a.wf(),
        a.mark_post(b, base, length),
        !a.is_free(f),
    ensures
        !b.is_free(f),
{
}

/// After `dealloc(f)` of a frame in range, `allocate` returns `f` when no lower
/// frame is free.
pub proof fn lemma_reuse(
    a: &BitmapFrameAllocator,
    b: &BitmapFrameAllocator,
    c: &BitmapFrameAllocator,
    f: FrameNumber,
    r: Option<FrameNumber>,
)
    requires
        a.wf(),
        a.start() <= f.0 < a.end(),
        forall|g: int| a.start() <= g < f.0 ==> !a.is_free(g),
        a.dealloc_post(b, f.0 as int),
        b.alloc_post(c, r),
    ensures
        r == Some(f),
{
    let i = f.0 - a.start();
    let m = b.free_map();
    assert(m[i]);
    assert forall|j: int| 0 <= j < i implies !m[j] by {
        assert(!a.is_free(a.start() + j));
    }
    lemma_count_update(a.free_map(), i, true);
    if r is None {
        lemma_count_zero(m);
    }
    let g = r->Some_0;
    let k = g.0 - a.start();
    if k < i {
        assert(!m[k]);
    } else if k > i {
        assert(!m[i]);
    }
}

/// Marking the same range twice leaves the same used count as marking it once.
pub proof fn lemma_mark_range_used_idempotent(
    a: &BitmapFrameAllocator,
    b: &BitmapFrameAllocator,
    c: &BitmapFrameAllocator,
    base: int,
    length: int,
)
    requires
        a.wf(),
        a.mark_post(b, base, length),
        b.mark_post(c, base, length),
    ensures
        c.free_map() == b.free_map(),
        c.used() == b.used(),
{
    assert(c.free_map() =~= b.free_map());
}

/// Freeing a frame outside the tracked range leaves the used count unchanged.
pub proof fn lemma_out_of_range_free_inert(
    a: &BitmapFrameAllocator,
    b: &BitmapFrameAllocator,
    f: int,
)
    requires
        a.wf(),
        !(a.start() <= f < a.end()),
        a.dealloc_post(b, f),
    ensures
        b.used() == a.used(),
        b.free_map() == a.free_map(),
{
}

/// The bit position within its byte of free-map entry `i`.
pub open spec fn i_bit(i: int) -> u8 {
    (i % 8) as u8
}

/// Clearing bit `k` of `b` leaves every other bit as it was.
proof fn lemma_clear_bit(b: u8, k: u8)
    requires
        k < 8,
    ensures
        forall|j: u8| j < 8 ==> #[trigger] ((b & !(1u8 << k)) >> j) & 1u8 == if j == k {
            0u8
        } else {
            (b >> j) & 1u8
        },
{
    assert forall|j: u8| j < 8 implies #[trigger] ((b & !(1u8 << k)) >> j) & 1u8 == if j == k {
        0u8
    } else {
        (b >> j) & 1u8
    } by {
        assert(j < 8 && k < 8 && j == k ==> ((b & !(1u8 << k)) >> j) & 1u8 == 0u8) by (bit_vector);
        assert(j < 8 && k < 8 && j != k ==> ((b & !(1u8 << k)) >> j) & 1u8 == (b >> j) & 1u8)
            by (bit_vector);
    }
}

/// Setting bit `k` of `b` leaves every other bit as it was.
proof fn lemma_set_bit(b: u8, k: u8)
    requires
        k < 8,
    ensures
        forall|j: u8| j < 8 ==> #[trigger] ((b | (1u8 << k)) >> j) & 1u8 == if j == k {
            1u8
        } else {
            (b >> j) & 1u8
        },
{
    assert forall|j: u8| j < 8 implies #[trigger] ((b | (1u8 << k)) >> j) & 1u8 == if j == k {
        1u8
    } else {
        (b >> j) & 1u8
    } by {
        assert(j < 8 && k < 8 && j == k ==> ((b | (1u8 << k)) >> j) & 1u8 == 1u8) by (bit_vector);
        assert(j < 8 && k < 8 && j != k ==> ((b | (1u8 << k)) >> j) & 1u8 == (b >> j) & 1u8)
            by (bit_vector);
    }
}

/// Writing byte `nb` over the byte holding entry `off` changes that entry to `v`
/// and no other entry, when `nb` agrees with the old byte on the other bits.
proof fn lemma_write_bit(bm: Seq<u8>, n: nat, off: int, nb: u8, v: bool)
    requires
        0 <= off < n,
        n <= bm.len() * 8,
        forall|j: u8| j < 8 ==> #[trigger] (nb >> j) & 1u8 == if j == i_bit(off) {
            if v { 1u8 } else { 0u8 }
        } else {
            (bm[off / 8] >> j) & 1u8
        },
    ensures
        map_of(bm.update(off / 8, nb), n) =~= map_of(bm, n).update(off, v),
{
    assert forall|i: int| 0 <= i < n implies #[trigger] map_of(bm.update(off / 8, nb), n)[i] == map_of(
        bm,
        n,
    ).update(off, v)[i] by {
        let j = i_bit(i);
        if i / 8 == off / 8 {
            if i == off {
                assert((nb >> j) & 1u8 == if v { 1u8 } else { 0u8 });
            } else {
                assert(j != i_bit(off));
                assert((nb >> j) & 1u8 == (bm[off / 8] >> j) & 1u8);
            }
        }
    }
}

/// Count of a sequence whose entries are all `true` is its length.
proof fn lemma_count_all_true(s: Seq<bool>)
    requires
        forall|i: int| 0 <= i < s.len() ==> s[i],
    ensures
        count_true(s) == s.len(),
    decreases s.len(),
{
    if s.len() > 0 {
        lemma_count_all_true(s.drop_last());
    }
}

/// Count of a sequence with no `true` entry is zero, and conversely.
proof fn lemma_count_zero(s: Seq<bool>)
    ensures
        count_true(s) == 0 <==> forall|i: int| 0 <= i < s.len() ==> !s[i],
    decreases s.len(),
{
    if s.len() > 0 {
        lemma_count_zero(s.drop_last());
        if count_true(s) == 0 {
            assert forall|i: int| 0 <= i < s.len() implies !s[i] by {
                if i < s.len() - 1 {
                    assert(s.drop_last()[i] == s[i]);
                }
            }
        } else {
            if forall|i: int| 0 <= i < s.len() ==> !s[i] {
                assert forall|i: int| 0 <= i < s.drop_last().len() implies !s.drop_last()[i] by {
                    assert(s.drop_last()[i] == s[i]);
                }
            }
        }
    }
}

/// Changing one entry changes the count by at most one, in the obvious way.
proof fn lemma_count_update(s: Seq<bool>, i: int, v: bool)
    requires
        0 <= i < s.len(),
    ensures
        count_true(s.update(i, v)) + (if s[i] { 1int } else { 0int }) == count_true(s) + (if v {
            1int
        } else {
            0int
        }),
        count_true(s) <= s.len(),
    decreases s.len(),
{
    let t = s.update(i, v);
    if i == s.len() - 1 {
        assert(t.drop_last() =~= s.drop_last());
        lemma_count_bound(s);
    } else {
        assert(t.drop_last() =~= s.drop_last().update(i, v));
        lemma_count_update(s.drop_last(), i, v);
    }
}

/// The count never exceeds the length.
proof fn lemma_count_bound(s: Seq<bool>)
    ensures
        count_true(s) <= s.len(),
    decreases s.len(),
{
    if s.len() > 0 {
        lemma_count_bound(s.drop_last());
    }
}

} // verus!
