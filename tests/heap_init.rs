use rust_os::allocator::heap_init::{HeapInit, HeapInitError, InitStep, PageOutcome, PAGE_SIZE};
use rust_os::allocator::{HEAP_SIZE, HEAP_START};

fn pages_asked(plan: &mut HeapInit) -> Vec<u64> {
    let mut pages = Vec::new();
    while let InitStep::MapPage(p) = plan.next_step() {
        pages.push(p);
        plan.record(PageOutcome::Mapped);
    }
    pages
}

#[test]
fn heap_plan_maps_every_page_then_hands_over() {
    let mut plan = HeapInit::new(HEAP_START, HEAP_SIZE as u64);
    let pages = pages_asked(&mut plan);
    assert_eq!(pages.len(), 25);
    for (i, p) in pages.iter().enumerate() {
        assert_eq!(*p, HEAP_START + PAGE_SIZE * i as u64);
    }
    assert_eq!(plan.next_step(), InitStep::InitStrategy);
    plan.finish();
    assert_eq!(plan.next_step(), InitStep::Done);
}

#[test]
fn heap_plan_covers_partial_pages() {
    let mut plan = HeapInit::new(0x1ff0, 0x20);
    assert_eq!(pages_asked(&mut plan), vec![0x1000, 0x2000]);
    let mut one = HeapInit::new(0x3000, 1);
    assert_eq!(pages_asked(&mut one), vec![0x3000]);
}

#[test]
fn heap_plan_stops_when_frames_run_out() {
    let mut plan = HeapInit::new(0x10_0000, 3 * 4096);
    assert_eq!(plan.next_step(), InitStep::MapPage(0x10_0000));
    plan.record(PageOutcome::Mapped);
    assert_eq!(plan.next_step(), InitStep::MapPage(0x10_1000));
    plan.record(PageOutcome::NoFrame);
    assert_eq!(plan.next_step(), InitStep::Failed(HeapInitError::FrameExhausted));
}

#[test]
fn heap_plan_stops_on_mapping_conflict() {
    let mut plan = HeapInit::new(0x10_0000, 4096);
    plan.record(PageOutcome::MapFailed);
    assert_eq!(plan.next_step(), InitStep::Failed(HeapInitError::MappingConflict));
}
