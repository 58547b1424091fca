use task_pool::storage::buffer_pool::frame::FrameError;
use task_pool::storage::buffer_pool::manager::{
    BufferPoolError, BufferPoolManager, FetchLookup, FrameClaim, NewPageStep,
};
use task_pool::storage::PAGE_SIZE;

fn load(pool: &mut BufferPoolManager, page_id: u16, byte: u8) -> usize {
    pool.begin_fetch();
    assert!(matches!(pool.fetch_lookup(page_id, false), Ok(FetchLookup::Miss)));
    let frame = match pool.fetch_claim_frame() {
        Ok(FrameClaim::LoadFree(f)) => f,
        _ => panic!("expected a free frame"),
    };
    pool.finish_load_free(frame, page_id, &[byte; PAGE_SIZE]).unwrap()
}

#[test]
fn fetch_miss_then_hit() {
    let mut pool = BufferPoolManager::new(2);
    let frame = load(&mut pool, 7, 3);
    assert_eq!(frame, 0);
    pool.begin_fetch();
    assert!(matches!(pool.fetch_lookup(7, false), Ok(FetchLookup::Hit(0))));
    assert_eq!(pool.metrics().fetches(), 2);
    assert_eq!(pool.metrics().cache_misses(), 1);
    assert_eq!(pool.metrics().cache_hits(), 1);
    assert_eq!(pool.resident_page_ids().unwrap(), vec![7]);
}

#[test]
fn recorded_miss_is_not_counted_twice() {
    let mut pool = BufferPoolManager::new(1);
    assert!(matches!(pool.fetch_lookup(4, false), Ok(FetchLookup::Miss)));
    assert!(matches!(pool.fetch_lookup(4, true), Ok(FetchLookup::Miss)));
    assert_eq!(pool.metrics().cache_misses(), 1);
}

#[test]
fn bad_load_returns_the_frame_to_the_free_queue() {
    let mut pool = BufferPoolManager::new(2);
    let frame = match pool.fetch_claim_frame() {
        Ok(FrameClaim::LoadFree(f)) => f,
        _ => panic!("expected a free frame"),
    };
    assert_eq!(frame, 0);
    assert!(matches!(
        pool.finish_load_free(frame, 9, &[1u8; 10]),
        Err(BufferPoolError::FrameError(FrameError::InvalidDataLength))
    ));
    assert!(matches!(pool.fetch_claim_frame(), Ok(FrameClaim::LoadFree(1))));
    pool.abort_load_free(1);
    assert!(matches!(pool.fetch_claim_frame(), Ok(FrameClaim::LoadFree(0))));
}

#[test]
fn fetch_evicts_a_dirty_unpinned_page() {
    let mut pool = BufferPoolManager::new(1);
    load(&mut pool, 7, 3);
    pool.mark_dirty_page(7).unwrap();
    pool.unpin_page(7).unwrap();
    pool.begin_fetch();
    assert!(matches!(pool.fetch_lookup(8, false), Ok(FetchLookup::Miss)));
    let eviction = match pool.fetch_claim_frame() {
        Ok(FrameClaim::Evict(e)) => e,
        _ => panic!("expected an eviction"),
    };
    assert_eq!(eviction.frame_id, 0);
    assert_eq!(eviction.old_page_id, 7);
    assert!(eviction.dirty);
    assert_eq!(eviction.old_data, vec![3u8; PAGE_SIZE]);
    assert!(matches!(pool.fetch_lookup(7, true), Ok(FetchLookup::Wait)));
    assert_eq!(pool.finish_evict(0, 7, 8, &[4u8; PAGE_SIZE]).unwrap(), 0);
    assert_eq!(pool.metrics().evictions(), 1);
    assert_eq!(pool.resident_page_ids().unwrap(), vec![8]);
    assert!(matches!(pool.fetch_lookup(7, false), Ok(FetchLookup::Miss)));
}

#[test]
fn failed_write_back_keeps_the_old_page() {
    let mut pool = BufferPoolManager::new(1);
    load(&mut pool, 7, 3);
    pool.unpin_page(7).unwrap();
    let eviction = match pool.fetch_claim_frame() {
        Ok(FrameClaim::Evict(e)) => e,
        _ => panic!("expected an eviction"),
    };
    assert!(!eviction.dirty);
    assert_eq!(eviction.old_data, vec![0u8; PAGE_SIZE]);
    pool.abort_evict(eviction.frame_id);
    assert!(matches!(pool.fetch_lookup(7, false), Ok(FetchLookup::Hit(0))));
}

#[test]
fn no_victim_when_every_page_is_pinned() {
    let mut pool = BufferPoolManager::new(1);
    load(&mut pool, 1, 0);
    assert!(matches!(pool.fetch_claim_frame(), Err(BufferPoolError::NoEvictableFrame)));
}

#[test]
fn claim_waits_while_a_frame_is_reserved() {
    let mut pool = BufferPoolManager::new(1);
    load(&mut pool, 1, 0);
    pool.mark_dirty_page(1).unwrap();
    pool.unpin_page(1).unwrap();
    assert!(pool.begin_flush(1).unwrap().is_some());
    assert!(matches!(pool.fetch_claim_frame(), Ok(FrameClaim::Wait)));
}

#[test]
fn new_pages_fill_free_frames_then_evict() {
    let mut pool = BufferPoolManager::new(2);
    assert!(matches!(pool.new_page_begin(), Ok(NewPageStep::Ready(0, 0))));
    assert!(matches!(pool.new_page_begin(), Ok(NewPageStep::Ready(1, 1))));
    assert!(matches!(pool.new_page_begin(), Err(BufferPoolError::NoEvictableFrame)));
    pool.unpin_page(0).unwrap();
    let (eviction, new_id) = match pool.new_page_begin() {
        Ok(NewPageStep::Evict(e, id)) => (e, id),
        _ => panic!("expected an eviction"),
    };
    assert_eq!(new_id, 2);
    assert_eq!(eviction.frame_id, 0);
    assert_eq!(eviction.old_page_id, 0);
    assert!(eviction.dirty);
    assert_eq!(pool.new_page_finish(eviction.frame_id, eviction.old_page_id, new_id).unwrap(), (2, 0));
    let mut ids = pool.resident_page_ids().unwrap();
    ids.sort();
    assert_eq!(ids, vec![1, 2]);
    assert_eq!(pool.metrics().evictions(), 0);
}

#[test]
fn flush_writes_dirty_pages_only() {
    let mut pool = BufferPoolManager::new(1);
    load(&mut pool, 5, 6);
    assert!(pool.begin_flush(5).unwrap().is_none());
    pool.mark_dirty_page(5).unwrap();
    let work = pool.begin_flush(5).unwrap().unwrap();
    assert_eq!(work.frame_id, 0);
    assert_eq!(work.page_id, 5);
    assert_eq!(work.data, vec![6u8; PAGE_SIZE]);
    assert!(matches!(pool.begin_flush(5), Err(BufferPoolError::FrameReserved)));
    pool.finish_flush(work.frame_id, Ok(())).unwrap();
    assert!(pool.begin_flush(5).unwrap().is_none());
    assert!(matches!(pool.begin_flush(6), Err(BufferPoolError::PageNotFound(6))));
}

#[test]
fn failed_flush_reports_the_disk_error() {
    let mut pool = BufferPoolManager::new(1);
    load(&mut pool, 5, 6);
    pool.mark_dirty_page(5).unwrap();
    let work = pool.begin_flush(5).unwrap().unwrap();
    let failed = std::io::Error::new(std::io::ErrorKind::Other, "disk full");
    assert!(matches!(pool.finish_flush(work.frame_id, Err(failed)), Err(BufferPoolError::DiskError(_))));
    assert!(pool.begin_flush(5).unwrap().is_some());
}

#[test]
fn delete_refuses_pinned_pages_and_frees_the_frame() {
    let mut pool = BufferPoolManager::new(1);
    load(&mut pool, 3, 1);
    assert!(matches!(pool.begin_delete(3), Err(BufferPoolError::PagePinned(3))));
    pool.unpin_page(3).unwrap();
    assert!(pool.begin_delete(3).unwrap().is_none());
    assert!(matches!(pool.begin_delete(3), Err(BufferPoolError::PageNotFound(3))));
    assert!(matches!(pool.fetch_claim_frame(), Ok(FrameClaim::LoadFree(0))));
}

#[test]
fn deleting_a_dirty_page_writes_it_first() {
    let mut pool = BufferPoolManager::new(1);
    load(&mut pool, 3, 1);
    pool.mark_dirty_page(3).unwrap();
    pool.unpin_page(3).unwrap();
    let work = pool.begin_delete(3).unwrap().unwrap();
    assert_eq!(work.data, vec![1u8; PAGE_SIZE]);
    pool.finish_delete(3, work.frame_id, Ok(())).unwrap();
    assert!(pool.resident_page_ids().unwrap().is_empty());
}

#[test]
fn unpin_and_mark_dirty_errors() {
    let mut pool = BufferPoolManager::new(1);
    assert!(matches!(pool.unpin_page(1), Err(BufferPoolError::PageNotFound(1))));
    assert!(matches!(pool.mark_dirty_page(1), Err(BufferPoolError::PageNotFound(1))));
    load(&mut pool, 1, 0);
    pool.unpin_page(1).unwrap();
    assert!(matches!(
        pool.unpin_page(1),
        Err(BufferPoolError::FrameError(FrameError::NotPinned))
    ));
}

/// Runs one fetch through the decision steps, with every page on "disk"
/// reading as `page_id` repeated.
fn fetch(pool: &mut BufferPoolManager, page_id: u16) -> usize {
    pool.begin_fetch();
    let mut miss_recorded = false;
    loop {
        match pool.fetch_lookup(page_id, miss_recorded).unwrap() {
            FetchLookup::Hit(frame) => return frame,
            FetchLookup::Wait => panic!("nothing else holds a frame"),
            FetchLookup::Miss => {}
        }
        miss_recorded = true;
        let data = [page_id as u8; PAGE_SIZE];
        match pool.fetch_claim_frame().unwrap() {
            FrameClaim::LoadFree(frame) => return pool.finish_load_free(frame, page_id, &data).unwrap(),
            FrameClaim::Evict(e) => {
                return pool.finish_evict(e.frame_id, e.old_page_id, page_id, &data).unwrap();
            }
            FrameClaim::Wait => panic!("nothing else holds a frame"),
        }
    }
}

fn create(pool: &mut BufferPoolManager) -> u16 {
    match pool.new_page_begin().unwrap() {
        NewPageStep::Ready(page_id, _) => page_id,
        NewPageStep::Evict(e, page_id) => pool.new_page_finish(e.frame_id, e.old_page_id, page_id).unwrap().0,
    }
}

#[test]
fn sequential_workload_counts_each_fetch_once() {
    let mut pool = BufferPoolManager::new(3);
    let mut pages = Vec::new();
    for _ in 0..10 {
        let page_id = create(&mut pool);
        pool.unpin_page(page_id).unwrap();
        pages.push(page_id);
    }
    assert_eq!(pages, (0..10).collect::<Vec<u16>>());
    for i in 0..2000usize {
        let page_id = pages[(i * 7) % pages.len()];
        fetch(&mut pool, page_id);
        if i % 3 == 0 {
            pool.mark_dirty_page(page_id).unwrap();
        }
        pool.unpin_page(page_id).unwrap();
    }
    let m = pool.metrics();
    assert_eq!(m.fetches(), 2000);
    assert_eq!(m.cache_hits() + m.cache_misses(), m.fetches());
    assert!(m.evictions() > 0);
    let mut ids = pool.resident_page_ids().unwrap();
    ids.sort();
    assert_eq!(ids.len(), 3);
    for id in ids {
        assert!(matches!(pool.fetch_lookup(id, false), Ok(FetchLookup::Hit(_))));
    }
}

#[test]
fn waiting_fetch_counts_its_miss_only() {
    let mut pool = BufferPoolManager::new(1);
    // Two fetches of page 0 both miss; the first loads it, the second
    // retries after the load and finds it.
    pool.begin_fetch();
    pool.begin_fetch();
    assert!(matches!(pool.fetch_lookup(0, false), Ok(FetchLookup::Miss)));
    assert!(matches!(pool.fetch_lookup(0, false), Ok(FetchLookup::Miss)));
    let frame = match pool.fetch_claim_frame() {
        Ok(FrameClaim::LoadFree(f)) => f,
        _ => panic!("expected a free frame"),
    };
    assert_eq!(pool.finish_load_free(frame, 0, &[0u8; PAGE_SIZE]).unwrap(), 0);
    assert!(matches!(pool.fetch_lookup(0, true), Ok(FetchLookup::Hit(0))));
    let m = pool.metrics();
    assert_eq!(m.fetches(), 2);
    assert_eq!(m.cache_misses(), 2);
    assert_eq!(m.cache_hits(), 0);
    assert_eq!(m.cache_hits() + m.cache_misses(), m.fetches());
}

#[test]
fn page_pinned_k_times_is_evictable_after_k_unpins() {
    let mut pool = BufferPoolManager::new(1);
    load(&mut pool, 9, 0);
    for _ in 0..4 {
        pool.begin_fetch();
        assert!(matches!(pool.fetch_lookup(9, false), Ok(FetchLookup::Hit(0))));
    }
    for _ in 0..5 {
        assert!(matches!(pool.fetch_claim_frame(), Err(BufferPoolError::NoEvictableFrame)));
        pool.unpin_page(9).unwrap();
    }
    assert!(matches!(pool.fetch_claim_frame(), Ok(FrameClaim::Evict(_))));
}
