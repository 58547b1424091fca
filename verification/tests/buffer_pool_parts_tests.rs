use task_pool::storage::buffer_pool::clock_replacer::ClockReplacer;
use task_pool::storage::buffer_pool::frame::{Frame, FrameError};
use task_pool::storage::buffer_pool::free_frames::FreeFrames;
use task_pool::storage::buffer_pool::metrics::BufferPoolMetrics;
use task_pool::storage::buffer_pool::page_table::{PageTable, PageTableError};
use task_pool::storage::PAGE_SIZE;

fn loaded(page_id: u16) -> Frame {
    let mut frame = Frame::new();
    frame.load_page(page_id, &[page_id as u8; PAGE_SIZE]).unwrap();
    frame
}

#[test]
fn frame_lifecycle() {
    let mut frame = Frame::new();
    assert!(frame.is_free());
    assert_eq!(frame.get_page_id(), Err(FrameError::PageNotFound));
    assert_eq!(frame.pin(), Err(FrameError::PageNotFound));
    assert_eq!(frame.load_page(3, &[1u8; 10]), Err(FrameError::InvalidDataLength));
    assert!(frame.is_free());

    frame.load_page(3, &[9u8; PAGE_SIZE]).unwrap();
    assert!(frame.is_resident());
    assert_eq!(frame.get_page_id(), Ok(3));
    assert_eq!(frame.read_data()[100], 9);
    assert!(!frame.is_pinned() && !frame.is_dirty() && !frame.is_referenced());

    frame.pin().unwrap();
    frame.pin().unwrap();
    assert!(frame.is_pinned());
    frame.unpin().unwrap();
    frame.unpin().unwrap();
    assert!(!frame.is_pinned());
    assert_eq!(frame.unpin(), Err(FrameError::NotPinned));

    frame.modify_data(&[5u8; PAGE_SIZE]).unwrap();
    assert!(frame.is_dirty());
    assert_eq!(frame.read_data()[0], 5);
    frame.clear_dirty().unwrap();
    assert!(!frame.is_dirty());

    frame.mark_referenced().unwrap();
    assert!(frame.is_referenced());
    frame.mark_unreferenced().unwrap();
    assert!(!frame.is_referenced());

    frame.reserve().unwrap();
    assert!(frame.is_reserved());
    assert_eq!(frame.reserve(), Err(FrameError::AlreadyReserved));
    frame.set_resident().unwrap();

    frame.reset().unwrap();
    assert!(frame.is_free());
    assert_eq!(frame.get_page_id(), Err(FrameError::PageNotFound));
    assert_eq!(frame.read_data()[0], 0);
}

#[test]
fn frame_pins_saturate() {
    let mut frame = loaded(1);
    for _ in 0..300 {
        frame.pin().unwrap();
    }
    for _ in 0..255 {
        frame.unpin().unwrap();
    }
    assert!(!frame.is_pinned());
}

#[test]
fn free_frames_hand_out_in_order() {
    let mut free = FreeFrames::initialize(3).unwrap();
    assert_eq!(free.len(), Ok(3));
    assert_eq!(free.get_frame(), Ok(Some(0)));
    assert_eq!(free.get_frame(), Ok(Some(1)));
    free.add_frame(7).unwrap();
    assert_eq!(free.get_frame(), Ok(Some(2)));
    assert_eq!(free.get_frame(), Ok(Some(7)));
    assert_eq!(free.is_empty(), Ok(true));
    assert_eq!(free.get_frame(), Ok(None));
}

#[test]
fn page_table_replace_rules() {
    let mut table = PageTable::default();
    table.insert(1, 10).unwrap();
    table.insert(2, 20).unwrap();
    assert_eq!(table.get_frame_id(1), Ok(Some(10)));
    assert_eq!(table.get_frame_id(3), Ok(None));
    assert_eq!(table.replace(9, 3, 10), Err(PageTableError::OldPageMissing));
    assert_eq!(table.replace(1, 3, 20), Err(PageTableError::PoisonedMapping));
    assert_eq!(table.replace(1, 2, 10), Err(PageTableError::PageAlreadyExist));
    table.replace(1, 3, 10).unwrap();
    assert_eq!(table.contains(1), Ok(false));
    assert_eq!(table.get_frame_id(3), Ok(Some(10)));
    assert_eq!(table.len(), Ok(2));
    let mut ids = table.get_resident_ids().unwrap();
    ids.sort();
    assert_eq!(ids, vec![2, 3]);
    table.remove_page(2).unwrap();
    assert_eq!(table.len(), Ok(1));
}

#[test]
fn metrics_count_and_reset() {
    let mut metrics = BufferPoolMetrics::new();
    metrics.record_fetch();
    metrics.record_fetch();
    metrics.record_hit();
    metrics.record_miss();
    metrics.record_eviction();
    assert_eq!(metrics.fetches(), 2);
    assert_eq!(metrics.cache_hits(), 1);
    assert_eq!(metrics.cache_misses(), 1);
    assert_eq!(metrics.evictions(), 1);
    metrics.reset();
    assert_eq!(metrics.fetches(), 0);
    assert_eq!(metrics.evictions(), 0);
}

#[test]
fn clock_skips_pinned_and_gives_a_second_chance() {
    let mut frames = vec![loaded(0), loaded(1), loaded(2)];
    frames[0].pin().unwrap();
    frames[1].mark_referenced().unwrap();
    let mut clock = ClockReplacer::new();
    assert_eq!(clock.find_victim(&mut frames).unwrap(), Some(2));
    assert_eq!(clock.clock_hand(), 0);
    assert!(!frames[1].is_referenced());
    assert_eq!(clock.find_victim(&mut frames).unwrap(), Some(1));
    assert_eq!(clock.clock_hand(), 2);
}

#[test]
fn clock_sweeps_twice_when_every_frame_is_referenced() {
    let mut frames = vec![loaded(0), loaded(1), loaded(2)];
    for f in frames.iter_mut() {
        f.mark_referenced().unwrap();
    }
    let mut clock = ClockReplacer::default();
    assert_eq!(clock.find_victim(&mut frames).unwrap(), Some(0));
    assert_eq!(clock.clock_hand(), 1);
    assert!(!frames[1].is_referenced() && !frames[2].is_referenced());
}

#[test]
fn clock_finds_nothing_when_all_pinned_or_reserved() {
    let mut frames = vec![loaded(0), loaded(1)];
    frames[0].pin().unwrap();
    frames[1].reserve().unwrap();
    let mut clock = ClockReplacer::new();
    assert_eq!(clock.find_victim(&mut frames).unwrap(), None);
    assert_eq!(clock.clock_hand(), 0);
    let mut none: Vec<Frame> = Vec::new();
    assert_eq!(clock.find_victim(&mut none).unwrap(), None);
}

#[test]
fn k_pins_are_undone_by_k_unpins() {
    let mut frame = loaded(4);
    for _ in 0..7 {
        frame.pin().unwrap();
    }
    for _ in 0..7 {
        assert!(frame.is_pinned());
        frame.unpin().unwrap();
    }
    assert!(!frame.is_pinned());
    assert_eq!(frame.unpin(), Err(FrameError::NotPinned));
    assert_eq!(frame.get_page_id(), Ok(4));
}

#[test]
fn lengths_follow_the_contents() {
    let mut free = FreeFrames::new();
    free.add_frame(3).unwrap();
    free.add_frame(3).unwrap();
    assert_eq!(free.len(), Ok(2));
    assert_eq!(free.get_frame(), Ok(Some(3)));
    assert_eq!(free.len(), Ok(1));

    let mut table = PageTable::new();
    table.insert(1, 1).unwrap();
    table.insert(1, 2).unwrap();
    assert_eq!(table.len(), Ok(1));
    table.replace(1, 5, 2).unwrap();
    assert_eq!(table.len(), Ok(1));
    assert_eq!(table.get_frame_id(5), Ok(Some(2)));
}
