//! Physical frames for use at boot: the usable ranges of the memory map that the firmware
//! hands over are cut into 4096-byte frames, and the frames are handed out one by one, lowest
//! index first, never twice and never taken back.

use vstd::prelude::*;
use x86_64::structures::paging::{PhysFrame, Size4KiB};
use x86_64::PhysAddr;

verus! {

/// Bytes in a frame of physical memory and in a page of virtual memory.
pub const PAGE_SIZE: u64 = 4096;

/// The end of the physical address space: no address has a bit set from bit 52 up.
pub const PHYS_END: u64 = 0x10_0000_0000_0000;

/// One range of the memory map: the addresses `start .. end`, and whether the kernel may use
/// them.
#[derive(Debug, Clone, Copy, PartialEq, Eq, Structural)]
pub struct MemoryRegion {
    pub start: u64,
    pub end: u64,
    pub usable: bool,
}

/// The start of the frame that holds `addr`.
pub open spec fn aligned_down(addr: int) -> u64 {
    (addr - addr % 4096) as u64
}

/// The number of frames that a range yields: one for every 4096 bytes, counted from its
/// start, and none if it is not usable or holds nothing.
pub open spec fn frames_in(r: MemoryRegion) -> int {
    if r.usable && r.start < r.end {
        (r.end - r.start + 4095) / 4096
    } else {
        0
    }
}

/// Frame number `n`, counted from 0, of the ranges from index `from` on: the frames of each
/// range in turn, each range walked upwards from its start in steps of 4096 bytes. `None`
/// when the ranges have no more than `n` frames.
pub open spec fn frame_at(regions: Seq<MemoryRegion>, from: int, n: int) -> Option<u64>
    decreases regions.len() - from,
{
    if from < 0 || from >= regions.len() || n < 0 {
        None
    } else if n < frames_in(regions[from]) {
        Some(aligned_down(regions[from].start + 4096 * n))
    } else {
        frame_at(regions, from + 1, n - frames_in(regions[from]))
    }
}

/// The number of frames that the ranges from index `from` on yield.
pub open spec fn frame_total(regions: Seq<MemoryRegion>, from: int) -> int
    decreases regions.len() - from,
{
    if from < 0 || from >= regions.len() {
        0
    } else {
        frames_in(regions[from]) + frame_total(regions, from + 1)
    }
}

/// Every usable range lies inside the physical address space.
pub open spec fn map_ok(regions: Seq<MemoryRegion>) -> bool {
    forall|i: int| 0 <= i < regions.len() && (#[trigger] regions[i]).usable ==> regions[i].end <= PHYS_END
}

/// The usable ranges start on frame boundaries, come in ascending order and do not overlap.
pub open spec fn ordered(regions: Seq<MemoryRegion>) -> bool {
    &&& forall|i: int| 0 <= i < regions.len() && frames_in(#[trigger] regions[i]) > 0 ==> regions[i].start % 4096 == 0
    &&& forall|i: int, j: int|
        0 <= i < j < regions.len() && frames_in(#[trigger] regions[i]) > 0 && frames_in(#[trigger] regions[j]) > 0
            ==> regions[i].end <= regions[j].start
}

/// The frame that the frame source hands out when its cursor is at `cursor`. A cursor that
/// cannot be moved on hands out nothing.
pub open spec fn next_frame(regions: Seq<MemoryRegion>, cursor: usize) -> Option<u64> {
    if cursor < usize::MAX {
        frame_at(regions, 0, cursor as int)
    } else {
        None
    }
}

/// Where the cursor stands after a frame was asked for.
pub open spec fn moved_on(cursor: usize) -> usize {
    if cursor < usize::MAX {
        (cursor + 1) as usize
    } else {
        cursor
    }
}

/// Every frame starts on a frame boundary.
pub proof fn lemma_frame_aligned(regions: Seq<MemoryRegion>, from: int, n: int)
    requires
        frame_at(regions, from, n) is Some,
    ensures
        frame_at(regions, from, n)->0 % 4096 == 0,
    decreases regions.len() - from,
{
    if n < frames_in(regions[from]) {
        let r = regions[from];
        let addr = r.start + 4096 * n;
        assert(addr < r.end);
    } else {
        lemma_frame_aligned(regions, from + 1, n - frames_in(regions[from]));
    }
}

/// Every frame of ordered ranges lies in one of the ranges: at or after the range's start and
/// before its end. Returns the index of that range.
pub proof fn lemma_frame_region(regions: Seq<MemoryRegion>, from: int, n: int) -> (k: int)
    requires
        ordered(regions),
        frame_at(regions, from, n) is Some,
    ensures
        from <= k < regions.len(),
        frames_in(regions[k]) > 0,
        regions[k].start <= frame_at(regions, from, n)->0 < regions[k].end,
    decreases regions.len() - from,
{
    if n < frames_in(regions[from]) {
        from
    } else {
        lemma_frame_region(regions, from + 1, n - frames_in(regions[from]))
    }
}

/// The frames of ordered ranges come in strictly ascending order: a frame with a lower number
/// exists whenever one with a higher number does, and starts at a lower address. So no frame
/// is handed out twice.
pub proof fn lemma_frames_ascend(regions: Seq<MemoryRegion>, from: int, m: int, n: int)
    requires
        ordered(regions),
        0 <= from,
        0 <= m < n,
        frame_at(regions, from, n) is Some,
    ensures
        frame_at(regions, from, m) is Some,
        frame_at(regions, from, m)->0 < frame_at(regions, from, n)->0,
    decreases regions.len() - from,
{
    let here = frames_in(regions[from]);
    if n < here {
    } else if m < here {
        let k = lemma_frame_region(regions, from + 1, n - here);
        assert(regions[from].end <= regions[k].start);
    } else {
        lemma_frames_ascend(regions, from + 1, m - here, n - here);
    }
}

/// Of two frames that a frame source over ordered ranges hands out, the one that was handed
/// out first starts at the lower address: a frame source never hands out a frame twice.
pub proof fn lemma_allocations_ascend(regions: Seq<MemoryRegion>, earlier: usize, later: usize)
    requires
        ordered(regions),
        earlier < later,
        next_frame(regions, later) is Some,
    ensures
        next_frame(regions, earlier) is Some,
        next_frame(regions, earlier)->0 < next_frame(regions, later)->0,
        next_frame(regions, earlier)->0 % 4096 == 0,
        next_frame(regions, later)->0 % 4096 == 0,
{
    lemma_frames_ascend(regions, 0, earlier as int, later as int);
    lemma_frame_aligned(regions, 0, earlier as int);
    lemma_frame_aligned(regions, 0, later as int);
}

/// A frame with number `n` exists exactly when the ranges yield more than `n` frames.
pub proof fn lemma_frame_total(regions: Seq<MemoryRegion>, from: int, n: int)
    requires
        0 <= from,
        0 <= n,
    ensures
        frame_at(regions, from, n) is Some <==> n < frame_total(regions, from),
        frame_total(regions, from) >= 0,
    decreases regions.len() - from,
{
    if from < regions.len() {
        if n >= frames_in(regions[from]) {
            lemma_frame_total(regions, from + 1, n - frames_in(regions[from]));
        }
        lemma_frame_total(regions, from + 1, 0);
    }
}

/// The start of the frame that holds the physical address `addr`. Wraps
/// `PhysFrame::containing_address` of the x86_64 crate, which clears the low 12 bits of the
/// address, fed by `PhysAddr::new`, which takes any address below 2^52 as it is.
#[verifier::external_body]
fn frame_containing(addr: u64) -> (start: u64)
    requires
        addr < PHYS_END,
    ensures
        start == aligned_down(addr as int),
{
    PhysFrame::<Size4KiB>::containing_address(PhysAddr::new(addr)).start_address().as_u64()
}

/// A frame of physical memory: 4096 bytes that start on a multiple of 4096.
#[derive(Debug, Clone, Copy, PartialEq, Eq, Structural)]
pub struct Frame {
    start_address: u64,
}

impl View for Frame {
    type V = u64;

    closed spec fn view(&self) -> u64 {
        self.start_address
    }
}

impl Frame {
    /// The address at which the frame starts.
    pub fn start_address(&self) -> (r: u64)
        ensures
            r == self@,
    {
        self.start_address
    }
}

/// A frame source that has no frame to give.
pub struct NullFrameAllocator;

impl NullFrameAllocator {
    /// Hands out nothing.
    pub fn allocate_frame(&mut self) -> (r: Option<Frame>)
        ensures
            r is None,
    {
        None
    }
}

/// The most ranges that a memory map holds.
pub const MAP_CAPACITY: usize = 64;

/// The ranges of a memory map whose first `count` places are in use.
pub open spec fn map_of(ranges: Seq<MemoryRegion>, count: int) -> Seq<MemoryRegion> {
    ranges.take(count)
}

/// The frame source of the boot: the memory map, as the fixed table of ranges that the boot
/// hands over with the number of places in use, and the number of the frame that goes out
/// next. It needs no heap.
pub struct BootFrameAllocator {
    ranges: [MemoryRegion; 64],
    count: usize,
    next: usize,
}

impl BootFrameAllocator {
    /// The ranges of the memory map.
    pub closed spec fn regions(&self) -> Seq<MemoryRegion> {
        map_of(self.ranges@, self.count as int)
    }

    /// The number of the frame that goes out next.
    pub closed spec fn cursor(&self) -> usize {
        self.next
    }

    #[verifier::type_invariant]
    spec fn inside(self) -> bool {
        self.count <= 64 && map_ok(map_of(self.ranges@, self.count as int))
    }

    /// Whether a memory map can be used: no more than 64 places are in use, and every usable
    /// range among them lies inside the physical address space.
    pub fn map_is_valid(ranges: &[MemoryRegion; 64], count: usize) -> (r: bool)
        ensures
            r == (count <= MAP_CAPACITY && map_ok(map_of(ranges@, count as int))),
    {
        if count > 64 {
            return false;
        }
        let ghost map = map_of(ranges@, count as int);
        let mut i: usize = 0;
        while i < count
            invariant
                i <= count <= 64,
                map == map_of(ranges@, count as int),
                forall|j: int| 0 <= j < i && (#[trigger] map[j]).usable ==> map[j].end <= PHYS_END,
            decreases count - i,
        {
            assert(map[i as int] == ranges@[i as int]);
            if ranges[i].usable && ranges[i].end > PHYS_END {
                return false;
            }
            i += 1;
        }
        true
    }

    /// Whether the usable ranges of a memory map start on frame boundaries, come in ascending
    /// order and do not overlap. Only the frames of such a map are handed out in ascending
    /// order.
    pub fn map_is_ordered(ranges: &[MemoryRegion; 64], count: usize) -> (r: bool)
        requires
            count <= MAP_CAPACITY,
        ensures
            r == ordered(map_of(ranges@, count as int)),
    {
        let ghost map = map_of(ranges@, count as int);
        // the end of the last range that has frames, once there is one
        let mut reached: Option<u64> = None;
        let ghost mut last: int = -1;
        let mut i: usize = 0;
        while i < count
            invariant
                i <= count <= 64,
                map == map_of(ranges@, count as int),
                -1 <= last < i,
                reached is Some <==> last >= 0,
                reached matches Some(end) ==> frames_in(map[last]) > 0 && end == map[last].end,
                forall|j: int| last < j < i ==> frames_in(#[trigger] map[j]) == 0,
                forall|j: int| 0 <= j < i && frames_in(#[trigger] map[j]) > 0 ==> map[j].start % 4096 == 0,
                forall|j: int, k: int|
                    0 <= j < k < i && frames_in(#[trigger] map[j]) > 0 && frames_in(#[trigger] map[k]) > 0
                        ==> map[j].end <= map[k].start,
                forall|j: int| 0 <= j < i && frames_in(#[trigger] map[j]) > 0 && last >= 0 ==> map[j].end <= map[last].end,
            decreases count - i,
        {
            assert(map[i as int] == ranges@[i as int]);
            let region = ranges[i];
            if region.usable && region.start < region.end {
                if region.start % 4096 != 0 {
                    return false;
                }
                match reached {
                    Some(end) => {
                        if region.start < end {
                            return false;
                        }
                    },
                    None => {},
                }
                reached = Some(region.end);
                proof {
                    last = i as int;
                }
            }
            i += 1;
        }
        true
    }

    /// A frame source over the first `count` ranges of `ranges` that has handed out nothing
    /// yet.
    pub fn init(ranges: [MemoryRegion; 64], count: usize) -> (frames: BootFrameAllocator)
        requires
            count <= MAP_CAPACITY,
            map_ok(map_of(ranges@, count as int)),
        ensures
            frames.regions() == map_of(ranges@, count as int),
            frames.cursor() == 0,
    {
        BootFrameAllocator { ranges, count, next: 0 }
    }

    fn frames_of(region: &MemoryRegion) -> (n: u64)
        requires
            region.usable ==> region.end <= PHYS_END,
        ensures
            n == frames_in(*region),
    {
        if region.usable && region.start < region.end {
            (region.end - region.start + 4095) / 4096
        } else {
            0
        }
    }

    /// Frame number `n` of the memory map, if the map has that many.
    pub fn frame(&self, n: usize) -> (r: Option<Frame>)
        ensures
            r is Some <==> frame_at(self.regions(), 0, n as int) is Some,
            r matches Some(f) ==> Some(f@) == frame_at(self.regions(), 0, n as int),
    {
        proof {
            use_type_invariant(self);
        }
        let ghost map = self.regions();
        let mut left: u64 = n as u64;
        let mut i: usize = 0;
        while i < self.count
            invariant
                i <= self.count <= 64,
                map == map_of(self.ranges@, self.count as int),
                map_ok(map),
                frame_at(map, 0, n as int) == frame_at(map, i as int, left as int),
            decreases self.count - i,
        {
            assert(map[i as int] == self.ranges@[i as int]);
            let region = &self.ranges[i];
            let here = Self::frames_of(region);
            if left < here {
                let start = frame_containing(region.start + 4096 * left);
                return Some(Frame { start_address: start });
            }
            left -= here;
            i += 1;
        }
        None
    }

    /// The frames of the memory map, lowest number first.
    pub fn usable_frames(&self) -> (v: Vec<Frame>)
        requires
            frame_total(self.regions(), 0) <= usize::MAX,
        ensures
            v@.len() == frame_total(self.regions(), 0),
            forall|n: int| 0 <= n < v@.len() ==> Some((#[trigger] v@[n])@) == frame_at(self.regions(), 0, n),
    {
        let mut v: Vec<Frame> = Vec::new();
        let mut i: usize = 0;
        let ghost map = self.regions();
        proof {
            use_type_invariant(self);
            lemma_frame_total(map, 0, 0);
        }
        while i < self.count
            invariant
                i <= self.count <= 64,
                map == map_of(self.ranges@, self.count as int),
                map_ok(map),
                frame_total(map, 0) <= usize::MAX,
                v@.len() + frame_total(map, i as int) == frame_total(map, 0),
                forall|n: int| 0 <= n < v@.len() ==> Some((#[trigger] v@[n])@) == frame_at(map, 0, n),
                forall|n: int| 0 <= n ==> frame_at(map, 0, v@.len() + n) == #[trigger] frame_at(map, i as int, n),
            decreases self.count - i,
        {
            assert(map[i as int] == self.ranges@[i as int]);
            let region = &self.ranges[i];
            let here = Self::frames_of(region);
            let ghost before = v@.len();
            let mut k: u64 = 0;
            proof {
                lemma_frame_total(map, i as int + 1, 0);
            }
            while k < here
                invariant
                    k <= here,
                    here == frames_in(*region),
                    *region == map[i as int],
                    i < map.len(),
                    region.usable ==> region.end <= PHYS_END,
                    v@.len() == before + k,
                    before + here <= usize::MAX,
                    forall|n: int| 0 <= n < v@.len() ==> Some((#[trigger] v@[n])@) == frame_at(map, 0, n),
                    forall|n: int| 0 <= n ==> frame_at(map, 0, before + n) == #[trigger] frame_at(map, i as int, n),
                decreases here - k,
            {
                let start = frame_containing(region.start + 4096 * k);
                assert(frame_at(map, 0, before + k) == frame_at(map, i as int, k as int));
                v.push(Frame { start_address: start });
                k += 1;
            }
            assert forall|n: int| 0 <= n implies frame_at(map, 0, v@.len() + n) == #[trigger] frame_at(
                map,
                i as int + 1,
                n,
            ) by {
                assert(frame_at(map, 0, before + (here + n)) == frame_at(map, i as int, here + n));
            }
            i += 1;
        }
        v
    }

    /// The number of frames of the memory map.
    pub fn frame_count(&self) -> (n: usize)
        requires
            frame_total(self.regions(), 0) <= usize::MAX,
        ensures
            n == frame_total(self.regions(), 0),
    {
        let mut total: usize = 0;
        let mut i: usize = 0;
        let ghost map = self.regions();
        proof {
            use_type_invariant(self);
            lemma_frame_total(map, 0, 0);
        }
        while i < self.count
            invariant
                i <= self.count <= 64,
                map == map_of(self.ranges@, self.count as int),
                map_ok(map),
                frame_total(map, 0) <= usize::MAX,
                total + frame_total(map, i as int) == frame_total(map, 0),
            decreases self.count - i,
        {
            proof {
                lemma_frame_total(map, i as int + 1, 0);
            }
            assert(map[i as int] == self.ranges@[i as int]);
            let here = Self::frames_of(&self.ranges[i]);
            total = total + here as usize;
            i += 1;
        }
        total
    }

    /// Hands out the frame at the cursor and moves the cursor on. `None` once the map has no
    /// frame left. The frame starts on a frame boundary. Where the usable ranges of the map
    /// are in order, every frame that went out before, one for each cursor below this one,
    /// starts at a lower address: the frames go out in strictly ascending order, and none
    /// goes out twice.
    pub fn allocate_frame(&mut self) -> (r: Option<Frame>)
        ensures
            final(self).regions() == old(self).regions(),
            final(self).cursor() == moved_on(old(self).cursor()),
            r is Some <==> next_frame(old(self).regions(), old(self).cursor()) is Some,
            r matches Some(f) ==> Some(f@) == next_frame(old(self).regions(), old(self).cursor()),
            r matches Some(f) ==> f@ % 4096 == 0,
            r matches Some(f) ==> ordered(old(self).regions()) ==> forall|earlier: usize|
                earlier < old(self).cursor() ==> (#[trigger] next_frame(old(self).regions(), earlier)) is Some
                    && next_frame(old(self).regions(), earlier)->0 < f@,
    {
        proof {
            use_type_invariant(&*self);
        }
        if self.next == usize::MAX {
            return None;
        }
        let frame = self.frame(self.next);
        proof {
            let map = self.regions();
            let cursor = self.next;
            if frame is Some {
                lemma_frame_aligned(map, 0, cursor as int);
                if ordered(map) {
                    assert forall|earlier: usize| earlier < cursor implies (#[trigger] next_frame(map, earlier)) is Some
                        && next_frame(map, earlier)->0 < frame->0@ by {
                        lemma_allocations_ascend(map, earlier, cursor);
                    }
                }
            }
        }
        self.next += 1;
        frame
    }
}

} // verus!
