use tinix::allocator::{BootFrameAllocator, MemoryRegion, NullFrameAllocator};
use tinix::heap::{extend_mapping, HeapAction, HeapBringup, HeapError, MapOutcome, Phase, HEAP_SIZE, HEAP_START, MB};

fn region(start: u64, end: u64, usable: bool) -> MemoryRegion {
    MemoryRegion { start, end, usable }
}

/// A memory map with `regions` in its first places.
fn table(regions: &[MemoryRegion]) -> ([MemoryRegion; 64], usize) {
    let mut ranges = [region(0, 0, false); 64];
    ranges[..regions.len()].copy_from_slice(regions);
    (ranges, regions.len())
}

fn source(regions: &[MemoryRegion]) -> BootFrameAllocator {
    let (ranges, count) = table(regions);
    assert!(BootFrameAllocator::map_is_valid(&ranges, count));
    BootFrameAllocator::init(ranges, count)
}

fn valid(regions: &[MemoryRegion]) -> bool {
    let (ranges, count) = table(regions);
    BootFrameAllocator::map_is_valid(&ranges, count)
}

fn in_order(regions: &[MemoryRegion]) -> bool {
    let (ranges, count) = table(regions);
    BootFrameAllocator::map_is_ordered(&ranges, count)
}

fn firmware_map() -> Vec<MemoryRegion> {
    vec![
        region(0x0, 0x1000, false),
        region(0x1000, 0x4000, true),
        region(0x4000, 0x10_0000, false),
        region(0x10_0000, 0x10_2000, true),
        region(0x20_0000, 0x20_0000, true),
        region(0x30_0000, 0x30_0001, true),
    ]
}

#[test]
fn frames_come_from_usable_ranges_only() {
    let frames = source(&firmware_map());
    let all: Vec<u64> = frames.usable_frames().iter().map(|f| f.start_address()).collect();
    assert_eq!(all, vec![0x1000, 0x2000, 0x3000, 0x10_0000, 0x10_1000, 0x30_0000]);
    assert_eq!(frames.frame_count(), 6);
    assert_eq!(frames.frame(3).unwrap().start_address(), 0x10_0000);
    assert!(frames.frame(6).is_none());
}

#[test]
fn allocate_frame_hands_out_ascending_aligned_frames() {
    let mut frames = source(&firmware_map());
    let mut last: Option<u64> = None;
    let mut seen = Vec::new();
    while let Some(frame) = frames.allocate_frame() {
        let start = frame.start_address();
        assert_eq!(start % 4096, 0);
        if let Some(before) = last {
            assert!(before < start);
        }
        last = Some(start);
        seen.push(start);
    }
    assert_eq!(seen, vec![0x1000, 0x2000, 0x3000, 0x10_0000, 0x10_1000, 0x30_0000]);
    // once the map is used up, nothing comes any more
    assert!(frames.allocate_frame().is_none());
    assert!(frames.allocate_frame().is_none());
}

#[test]
fn a_range_that_starts_inside_a_frame_yields_the_frame_that_holds_its_start() {
    let frames = source(&[region(0x1800, 0x3000, true)]);
    let all: Vec<u64> = frames.usable_frames().iter().map(|f| f.start_address()).collect();
    // steps of 4096 from 0x1800: 0x1800 and 0x2800
    assert_eq!(all, vec![0x1000, 0x2000]);
}

#[test]
fn an_empty_map_has_no_frame() {
    let mut frames = source(&[]);
    assert_eq!(frames.frame_count(), 0);
    assert!(frames.allocate_frame().is_none());
    let mut none = NullFrameAllocator;
    assert!(none.allocate_frame().is_none());
}

#[test]
fn map_validity() {
    assert!(valid(&firmware_map()));
    assert!(valid(&[region(0, 1 << 52, true)]));
    assert!(!valid(&[region(0, (1 << 52) + 1, true)]));
    assert!(valid(&[region(0, u64::MAX, false)]));
    // only the places in use count
    let mut ranges = [region(0, u64::MAX, true); 64];
    assert!(BootFrameAllocator::map_is_valid(&ranges, 0));
    assert!(!BootFrameAllocator::map_is_valid(&ranges, 1));
    ranges[0] = region(0, 0x1000, true);
    assert!(BootFrameAllocator::map_is_valid(&ranges, 1));
    assert!(!BootFrameAllocator::map_is_valid(&ranges, 2));
    // a map has 64 places
    let full = [region(0, 0x1000, true); 64];
    assert!(BootFrameAllocator::map_is_valid(&full, 64));
    assert!(!BootFrameAllocator::map_is_valid(&full, 65));
    assert_eq!(BootFrameAllocator::init(full, 64).frame_count(), 64);
    assert_eq!(BootFrameAllocator::init(full, 3).frame_count(), 3);
}

#[test]
fn map_order() {
    assert!(in_order(&firmware_map()));
    assert!(in_order(&[]));
    // ranges without frames do not count
    assert!(in_order(&[region(0x5000, 0x6000, true), region(0x123, 0x456, false), region(0x6000, 0x7000, true)]));
    assert!(in_order(&[region(0x5000, 0x6000, true), region(0x1001, 0x1001, true), region(0x6000, 0x7000, true)]));
    // a usable range that starts inside a frame
    assert!(!in_order(&[region(0x1800, 0x3000, true)]));
    // descending
    assert!(!in_order(&[region(0x5000, 0x6000, true), region(0x1000, 0x2000, true)]));
    // overlapping
    assert!(!in_order(&[region(0x1000, 0x3000, true), region(0x2000, 0x4000, true)]));
    assert!(!in_order(&[region(0x1000, 0x2000, true), region(0x1000, 0x2000, true)]));
    // a later range below an earlier one, with one in between
    assert!(!in_order(&[
        region(0x1000, 0x9000, true),
        region(0x9000, 0xa000, false),
        region(0x8000, 0xa000, true),
    ]));
    let (ranges, _) = table(&[region(0x2000, 0x3000, true), region(0x1000, 0x2000, true)]);
    assert!(BootFrameAllocator::map_is_ordered(&ranges, 1));
    assert!(!BootFrameAllocator::map_is_ordered(&ranges, 2));
}

#[test]
fn a_map_out_of_order_hands_out_a_frame_twice() {
    let mut frames = source(&[region(0x1000, 0x3000, true), region(0x2000, 0x4000, true)]);
    let mut seen = Vec::new();
    while let Some(frame) = frames.allocate_frame() {
        seen.push(frame.start_address());
    }
    assert_eq!(seen, vec![0x1000, 0x2000, 0x2000, 0x3000]);
}

/// Runs a bring-up to its end. `fail_at` names the page whose mapping fails, if any.
fn bring_up(heap: &mut HeapBringup, frames: &mut BootFrameAllocator, fail_at: Option<u64>) -> Vec<HeapAction> {
    let mut actions = Vec::new();
    let mut outcome = MapOutcome::Nothing;
    loop {
        let action = heap.step(frames, outcome);
        actions.push(action);
        outcome = match action {
            HeapAction::MapPage { .. } => {
                if fail_at == Some(heap.mapped()) {
                    MapOutcome::Failed
                } else {
                    MapOutcome::Mapped
                }
            }
            HeapAction::InitAllocator { .. } => MapOutcome::Nothing,
            HeapAction::Done | HeapAction::Abort(_) => return actions,
        };
    }
}

#[test]
fn every_page_is_mapped_before_the_allocator_is_set_up() {
    let mut frames = source(&[region(0x10_0000, 0x20_0000, true)]);
    let mut heap = HeapBringup::new(HEAP_START, 16 * 4096).unwrap();
    let actions = bring_up(&mut heap, &mut frames, None);
    assert_eq!(actions.len(), 18);
    for k in 0..16u64 {
        assert_eq!(
            actions[k as usize],
            HeapAction::MapPage { page: HEAP_START + k * 4096, frame: 0x10_0000 + k * 4096 }
        );
    }
    assert_eq!(actions[16], HeapAction::InitAllocator { start: HEAP_START, size: 16 * 4096 });
    assert_eq!(actions[17], HeapAction::Done);
    assert_eq!(heap.phase(), Phase::Initialized);
    assert_eq!(heap.mapped(), 16);
    // the next frame is the one after those the heap took
    assert_eq!(frames.allocate_frame().unwrap().start_address(), 0x11_0000);
    assert_eq!(heap.step(&mut frames, MapOutcome::Nothing), HeapAction::Done);
    assert_eq!(frames.allocate_frame().unwrap().start_address(), 0x11_1000);
}

#[test]
fn a_heap_of_two_megabytes_does_not_fit_into_one() {
    let mut frames = source(&[region(0x10_0000, 0x20_0000, true)]);
    assert_eq!(frames.frame_count(), 256);
    let mut heap = HeapBringup::new(HEAP_START, 2 * MB).unwrap();
    let actions = bring_up(&mut heap, &mut frames, None);
    assert_eq!(actions.len(), 257);
    assert_eq!(actions[256], HeapAction::Abort(HeapError::FrameAllocationFailed));
    assert!(actions.iter().all(|a| !matches!(a, HeapAction::InitAllocator { .. })));
    assert_eq!(heap.phase(), Phase::Failed(HeapError::FrameAllocationFailed));
    assert_eq!(heap.mapped(), 256);
    // whatever it is told from now on, it stays failed
    for outcome in [MapOutcome::Mapped, MapOutcome::Nothing, MapOutcome::Failed] {
        assert_eq!(heap.step(&mut frames, outcome), HeapAction::Abort(HeapError::FrameAllocationFailed));
    }
}

#[test]
fn a_mapping_that_fails_ends_the_bring_up() {
    let mut frames = source(&[region(0x10_0000, 0x20_0000, true)]);
    let mut heap = HeapBringup::new(HEAP_START, 8 * 4096).unwrap();
    let actions = bring_up(&mut heap, &mut frames, Some(3));
    assert_eq!(actions.len(), 5);
    assert_eq!(actions[4], HeapAction::Abort(HeapError::MappingFailed));
    assert!(actions.iter().all(|a| !matches!(a, HeapAction::InitAllocator { .. })));
    assert_eq!(heap.mapped(), 3);
    assert_eq!(heap.step(&mut frames, MapOutcome::Mapped), HeapAction::Abort(HeapError::MappingFailed));
    // an answer that is missing counts as a failure too
    let mut other = HeapBringup::new(HEAP_START, 4096).unwrap();
    assert!(matches!(other.step(&mut frames, MapOutcome::Nothing), HeapAction::MapPage { .. }));
    assert_eq!(other.step(&mut frames, MapOutcome::Nothing), HeapAction::Abort(HeapError::MappingFailed));
}

#[test]
fn a_window_must_be_made_of_whole_pages_in_the_lower_half() {
    assert!(HeapBringup::new(HEAP_START, HEAP_SIZE).is_some());
    assert!(HeapBringup::new(HEAP_START + 1, 4096).is_some());
    assert!(HeapBringup::new(HEAP_START, 4097).is_none());
    assert!(HeapBringup::new(0x8000_0000_0000, 0).is_some());
    assert!(HeapBringup::new(0x8000_0000_0001, 0).is_none());
    assert!(HeapBringup::new(0x7FFF_FFFF_F000, 4096).is_some());
    assert!(HeapBringup::new(0x7FFF_FFFF_F000, 8192).is_none());
    assert!(HeapBringup::new(0xFFFF_8000_0000_0000, 4096).is_none());
    let fresh = HeapBringup::new(HEAP_START, HEAP_SIZE).unwrap();
    assert_eq!(fresh.phase(), Phase::Mapping);
    assert_eq!(fresh.mapped(), 0);
}

#[test]
fn a_window_that_starts_inside_a_page_takes_the_pages_it_touches() {
    let mut frames = source(&[region(0x10_0000, 0x20_0000, true)]);
    let start = HEAP_START + 0x800;
    let mut heap = HeapBringup::new(start, 2 * 4096).unwrap();
    let actions = bring_up(&mut heap, &mut frames, None);
    assert_eq!(
        actions,
        vec![
            HeapAction::MapPage { page: HEAP_START, frame: 0x10_0000 },
            HeapAction::MapPage { page: HEAP_START + 0x1000, frame: 0x10_1000 },
            HeapAction::MapPage { page: HEAP_START + 0x2000, frame: 0x10_2000 },
            HeapAction::InitAllocator { start, size: 2 * 4096 },
            HeapAction::Done,
        ]
    );
}

#[test]
fn a_window_without_pages_is_up_at_once() {
    let mut frames = source(&[]);
    let mut heap = HeapBringup::new(HEAP_START, 0).unwrap();
    assert_eq!(
        bring_up(&mut heap, &mut frames, None),
        vec![HeapAction::InitAllocator { start: HEAP_START, size: 0 }, HeapAction::Done]
    );
    let mut inside = HeapBringup::new(HEAP_START + 5, 0).unwrap();
    assert_eq!(
        bring_up(&mut inside, &mut frames, None),
        vec![HeapAction::InitAllocator { start: HEAP_START + 5, size: 0 }, HeapAction::Done]
    );
}

#[test]
fn extend_mapping_does_nothing() {
    extend_mapping(4096);
}
