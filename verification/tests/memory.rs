use kernova::memory::{BootInfoFrameAllocator, MemRegion};

fn region(start: u64, end: u64, usable: bool) -> MemRegion {
    MemRegion { start_addr: start, end_addr: end, usable }
}

#[test]
fn hands_out_usable_frames_in_order() {
    let mut a = BootInfoFrameAllocator::init(vec![
        region(0x0, 0x1000, false),
        region(0x1000, 0x3000, true),
        region(0x3000, 0x5000, false),
        region(0x8000, 0x9000, true),
    ]);
    assert_eq!(a.allocate_frame(), Some(0x1000));
    assert_eq!(a.allocate_frame(), Some(0x2000));
    assert_eq!(a.allocate_frame(), Some(0x8000));
    assert_eq!(a.allocate_frame(), None);
    assert_eq!(a.allocate_frame(), None);
}

#[test]
fn partial_last_frame_counts() {
    // 0x1000..0x2001 holds frame starts 0x1000 and 0x2000
    let mut a = BootInfoFrameAllocator::init(vec![region(0x1000, 0x2001, true)]);
    assert_eq!(a.allocate_frame(), Some(0x1000));
    assert_eq!(a.allocate_frame(), Some(0x2000));
    assert_eq!(a.allocate_frame(), None);
}

#[test]
fn empty_regions_give_nothing() {
    let mut a = BootInfoFrameAllocator::init(vec![region(0x5000, 0x5000, true), region(0x9000, 0x1000, true)]);
    assert_eq!(a.allocate_frame(), None);
    let mut b = BootInfoFrameAllocator::init(vec![]);
    assert_eq!(b.allocate_frame(), None);
}

#[test]
fn no_frame_twice() {
    let mut a = BootInfoFrameAllocator::init(vec![region(0x0, 0x4000, true), region(0x10000, 0x12000, true)]);
    let mut seen = Vec::new();
    while let Some(f) = a.allocate_frame() {
        assert!(!seen.contains(&f));
        seen.push(f);
    }
    assert_eq!(seen, vec![0x0, 0x1000, 0x2000, 0x3000, 0x10000, 0x11000]);
}
