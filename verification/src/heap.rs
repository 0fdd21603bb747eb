//! Where the kernel heap lives, and the order of events that brings it up: every page of the
//! heap window is given a frame and mapped, one after another, and only when the last page is
//! mapped is the allocator handed the window. A single failure ends the bring-up for good.

use vstd::prelude::*;
use x86_64::structures::paging::{Page, Size4KiB};
use x86_64::VirtAddr;
use crate::allocator::{aligned_down, moved_on, next_frame, BootFrameAllocator, PAGE_SIZE};

verus! {

pub const KB: u64 = 1024;

pub const MB: u64 = KB * 1024;

pub const GB: u64 = MB * 1024;

/// The virtual address at which the heap window starts.
pub const HEAP_START: u64 = 0x4444_4444_0000;

/// The size of the heap window in bytes.
pub const HEAP_SIZE: u64 = 16 * MB;

/// The end of the lower half of the virtual address space. Addresses below it are canonical
/// as they stand.
pub const LOWER_HALF_END: u64 = 0x8000_0000_0000;

/// Why the heap could not be brought up.
#[derive(Debug, Clone, Copy, PartialEq, Eq, Structural)]
pub enum HeapError {
    /// No frame was left for a page of the window.
    FrameAllocationFailed,
    /// A page of the window could not be mapped to its frame.
    MappingFailed,
}

/// What the caller reports when it asks for the next step.
#[derive(Debug, Clone, Copy, PartialEq, Eq, Structural)]
pub enum MapOutcome {
    /// Nothing has been asked of the caller yet, or what was asked last needs no answer.
    Nothing,
    /// The page that was to be mapped is mapped.
    Mapped,
    /// The page that was to be mapped could not be mapped.
    Failed,
}

/// What the caller is to do next.
#[derive(Debug, Clone, Copy, PartialEq, Eq, Structural)]
pub enum HeapAction {
    /// Map the page that starts at `page` to the frame that starts at `frame`, writable, and
    /// report how it went.
    MapPage { page: u64, frame: u64 },
    /// Every page is mapped: hand the window to the allocator.
    InitAllocator { start: u64, size: u64 },
    /// The heap is up. Nothing is left to do.
    Done,
    /// The bring-up has failed. The allocator must not be touched.
    Abort(HeapError),
}

/// How far the bring-up has come.
#[derive(Debug, Clone, Copy, PartialEq, Eq, Structural)]
pub enum Phase {
    /// Pages are being mapped; no answer is awaited.
    Mapping,
    /// A page was handed out to be mapped and the answer is awaited.
    Awaiting,
    /// The window was handed to the allocator.
    Initialized,
    /// The bring-up has failed.
    Failed(HeapError),
}

/// The mathematical value of a [`HeapBringup`].
pub struct HeapBringupView {
    pub start: u64,
    pub size: u64,
    /// Pages of the window that are mapped.
    pub mapped: nat,
    pub phase: Phase,
}

/// The number of pages that the window of `size` bytes at `start` touches: from the page that
/// holds its first byte to the page that holds its last.
pub open spec fn page_count(start: u64, size: u64) -> nat {
    if size == 0 {
        0
    } else {
        ((aligned_down(start + size - 1) - aligned_down(start as int)) / 4096 + 1) as nat
    }
}

/// The start of page number `k` of the window at `start`.
pub open spec fn page_at(start: u64, k: nat) -> u64 {
    (aligned_down(start as int) + 4096 * k) as u64
}

/// A window that can be a heap: its size is a number of whole pages, and it lies in the lower
/// half of the address space.
pub open spec fn window_ok(start: u64, size: u64) -> bool {
    &&& size % PAGE_SIZE == 0
    &&& start + size <= LOWER_HALF_END
}

/// The state after one step, and what that step asks of the caller. `frame` is the frame that
/// the frame source hands out when it is asked for one.
pub open spec fn stepped(s: HeapBringupView, outcome: MapOutcome, frame: Option<u64>) -> (HeapBringupView, HeapAction) {
    match s.phase {
        Phase::Failed(e) => (s, HeapAction::Abort(e)),
        Phase::Initialized => (s, HeapAction::Done),
        Phase::Awaiting => match outcome {
            MapOutcome::Mapped => advance(HeapBringupView { mapped: s.mapped + 1, phase: Phase::Mapping, ..s }, frame),
            _ => (
                HeapBringupView { phase: Phase::Failed(HeapError::MappingFailed), ..s },
                HeapAction::Abort(HeapError::MappingFailed),
            ),
        },
        Phase::Mapping => advance(s, frame),
    }
}

/// What a bring-up that awaits no answer does next: it hands the window to the allocator if
/// every page is mapped, and else asks for a frame and hands out the next page with it, or
/// fails for want of a frame.
pub open spec fn advance(s: HeapBringupView, frame: Option<u64>) -> (HeapBringupView, HeapAction) {
    if s.mapped >= page_count(s.start, s.size) {
        (
            HeapBringupView { phase: Phase::Initialized, ..s },
            HeapAction::InitAllocator { start: s.start, size: s.size },
        )
    } else {
        match frame {
            Some(f) => (
                HeapBringupView { phase: Phase::Awaiting, ..s },
                HeapAction::MapPage { page: page_at(s.start, s.mapped), frame: f },
            ),
            None => (
                HeapBringupView { phase: Phase::Failed(HeapError::FrameAllocationFailed), ..s },
                HeapAction::Abort(HeapError::FrameAllocationFailed),
            ),
        }
    }
}

/// Whether a step in state `s` asks the frame source for a frame.
pub open spec fn wants_frame(s: HeapBringupView, outcome: MapOutcome) -> bool {
    match s.phase {
        Phase::Mapping => s.mapped < page_count(s.start, s.size),
        Phase::Awaiting => outcome == MapOutcome::Mapped && s.mapped + 1 < page_count(s.start, s.size),
        _ => false,
    }
}

/// The start of the page that holds the virtual address `addr`. Wraps
/// `Page::containing_address` of the x86_64 crate, which clears the low 12 bits of the
/// address, fed by `VirtAddr::new`, which takes any address of the lower half as it is.
#[verifier::external_body]
fn page_containing(addr: u64) -> (start: u64)
    requires
        addr < LOWER_HALF_END,
    ensures
        start == aligned_down(addr as int),
{
    Page::<Size4KiB>::containing_address(VirtAddr::new(addr)).start_address().as_u64()
}

/// The bring-up of one heap window.
pub struct HeapBringup {
    start: u64,
    size: u64,
    first: u64,
    pages: u64,
    mapped: u64,
    phase: Phase,
}

impl View for HeapBringup {
    type V = HeapBringupView;

    closed spec fn view(&self) -> HeapBringupView {
        HeapBringupView { start: self.start, size: self.size, mapped: self.mapped as nat, phase: self.phase }
    }
}

impl HeapBringup {
    #[verifier::type_invariant]
    spec fn sound(self) -> bool {
        &&& window_ok(self.start, self.size)
        &&& self.first == aligned_down(self.start as int)
        &&& self.pages == page_count(self.start, self.size)
        &&& self.mapped <= self.pages
        &&& self.phase == Phase::Awaiting ==> self.mapped < self.pages
        &&& self.phase == Phase::Initialized ==> self.mapped == self.pages
    }

    /// The bring-up of the window of `size` bytes at `start`, with no page mapped yet. `None`
    /// when the window cannot be a heap.
    pub fn new(start: u64, size: u64) -> (r: Option<HeapBringup>)
        ensures
            r is Some <==> window_ok(start, size),
            r matches Some(b) ==> b@ == (HeapBringupView { start, size, mapped: 0, phase: Phase::Mapping }),
    {
        if size % PAGE_SIZE != 0 || start > LOWER_HALF_END || size > LOWER_HALF_END - start {
            return None;
        }
        if size == 0 {
            let first = if start < LOWER_HALF_END {
                page_containing(start)
            } else {
                start
            };
            return Some(HeapBringup { start, size, first, pages: 0, mapped: 0, phase: Phase::Mapping });
        }
        let first = page_containing(start);
        let last = page_containing(start + size - 1);
        Some(HeapBringup { start, size, first, pages: (last - first) / 4096 + 1, mapped: 0, phase: Phase::Mapping })
    }

    /// How far the bring-up has come.
    pub fn phase(&self) -> (p: Phase)
        ensures
            p == self@.phase,
    {
        self.phase
    }

    /// Pages of the window that are mapped.
    pub fn mapped(&self) -> (n: u64)
        ensures
            n == self@.mapped,
    {
        self.mapped
    }

    /// Takes one step. `outcome` says how the mapping went that the step before asked for.
    /// The answer says what to do next. A frame is taken from `frames` exactly when a page is
    /// left to map and nothing has failed.
    pub fn step(&mut self, frames: &mut BootFrameAllocator, outcome: MapOutcome) -> (action: HeapAction)
        ensures
            final(frames).regions() == old(frames).regions(),
            final(frames).cursor() == if wants_frame(old(self)@, outcome) {
                moved_on(old(frames).cursor())
            } else {
                old(frames).cursor()
            },
            (final(self)@, action) == stepped(
                old(self)@,
                outcome,
                next_frame(old(frames).regions(), old(frames).cursor()),
            ),
    {
        proof {
            use_type_invariant(&*self);
        }
        match self.phase {
            Phase::Failed(e) => HeapAction::Abort(e),
            Phase::Initialized => HeapAction::Done,
            Phase::Awaiting => match outcome {
                MapOutcome::Mapped => {
                    self.phase = Phase::Mapping;
                    self.mapped += 1;
                    self.go_on(frames)
                },
                _ => {
                    self.phase = Phase::Failed(HeapError::MappingFailed);
                    HeapAction::Abort(HeapError::MappingFailed)
                },
            },
            Phase::Mapping => self.go_on(frames),
        }
    }

    fn go_on(&mut self, frames: &mut BootFrameAllocator) -> (action: HeapAction)
        requires
            old(self)@.phase == Phase::Mapping,
        ensures
            final(frames).regions() == old(frames).regions(),
            final(frames).cursor() == if old(self)@.mapped < page_count(old(self)@.start, old(self)@.size) {
                moved_on(old(frames).cursor())
            } else {
                old(frames).cursor()
            },
            (final(self)@, action) == advance(old(self)@, next_frame(old(frames).regions(), old(frames).cursor())),
    {
        proof {
            use_type_invariant(&*self);
        }
        if self.mapped >= self.pages {
            self.phase = Phase::Initialized;
            HeapAction::InitAllocator { start: self.start, size: self.size }
        } else {
            match frames.allocate_frame() {
                Some(frame) => {
                    self.phase = Phase::Awaiting;
                    let page = self.first + self.mapped * PAGE_SIZE;
                    HeapAction::MapPage { page, frame: frame.start_address() }
                },
                None => {
                    self.phase = Phase::Failed(HeapError::FrameAllocationFailed);
                    HeapAction::Abort(HeapError::FrameAllocationFailed)
                },
            }
        }
    }
}

/// The allocator is handed the window only by a bring-up that has every page of the window
/// mapped and has not failed; and a bring-up that has failed stays failed, whatever it is
/// told.
pub proof fn lemma_no_partial_heap(s: HeapBringupView, outcome: MapOutcome, frame: Option<u64>)
    ensures
        stepped(s, outcome, frame).1 is InitAllocator ==> {
            &&& !(s.phase is Failed)
            &&& !(s.phase == Phase::Awaiting && outcome != MapOutcome::Mapped)
            &&& stepped(s, outcome, frame).0.mapped >= page_count(s.start, s.size)
        },
        s.phase is Failed ==> stepped(s, outcome, frame).0 == s && stepped(s, outcome, frame).1 is Abort,
        (s.phase == Phase::Awaiting && outcome != MapOutcome::Mapped) ==> stepped(s, outcome, frame).0.phase
            is Failed,
        (wants_frame(s, outcome) && frame is None) ==> stepped(s, outcome, frame).0.phase == Phase::Failed(
            HeapError::FrameAllocationFailed,
        ),
{
}

/// The state of a bring-up after it has taken a step for each of `inputs`: what the caller
/// reported, and the frame that the frame source had to give.
pub open spec fn ran(s: HeapBringupView, inputs: Seq<(MapOutcome, Option<u64>)>) -> HeapBringupView
    decreases inputs.len(),
{
    if inputs.len() == 0 {
        s
    } else {
        stepped(ran(s, inputs.drop_last()), inputs.last().0, inputs.last().1).0
    }
}

/// Once a bring-up has failed, no step that follows, whatever it is told, hands the window
/// to the allocator: every step answers with the failure, and the state stays as it is.
pub proof fn lemma_failure_is_final(
    s: HeapBringupView,
    inputs: Seq<(MapOutcome, Option<u64>)>,
    outcome: MapOutcome,
    frame: Option<u64>,
)
    requires
        s.phase is Failed,
    ensures
        ran(s, inputs) == s,
        stepped(ran(s, inputs), outcome, frame).1 == HeapAction::Abort(s.phase->Failed_0),
    decreases inputs.len(),
{
    if inputs.len() > 0 {
        lemma_failure_is_final(s, inputs.drop_last(), inputs.last().0, inputs.last().1);
    }
}

/// Grows the mapped memory by `_size` bytes. The heap is never resized: this does nothing.
pub fn extend_mapping(_size: usize) {
}

} // verus!
