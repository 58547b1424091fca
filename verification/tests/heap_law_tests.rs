use task_pool::storage::access::iterator::TableIterator;
use task_pool::storage::heap::{HeapFile, HeapFileError};

fn map_in_step(heap: &HeapFile, capacity: u16) -> bool {
    for page_id in 0..capacity {
        let recorded = heap.free_space_map().get_leaf_bucket(page_id).unwrap();
        if (page_id as usize) < heap.page_count() {
            let free = heap.get_page(page_id).unwrap().free_space() as usize;
            if recorded != Some((free / 512) as u8) {
                return false;
            }
        } else if recorded.is_some() {
            return false;
        }
    }
    true
}

#[test]
fn map_stays_in_step_with_the_pages() {
    let mut heap = HeapFile::new(4).unwrap();
    assert!(map_in_step(&heap, 4));
    for i in 0..60usize {
        let len = 50 + (i * 37) % 400;
        heap.insert(&vec![i as u8; len]).unwrap();
        assert!(map_in_step(&heap, 4));
    }
}

#[test]
fn record_goes_to_the_first_page_with_room() {
    let mut heap = HeapFile::new(4).unwrap();
    heap.insert(&[1u8; 4000]).unwrap();
    heap.insert(&[2u8; 3000]).unwrap();
    heap.insert(&[3u8; 500]).unwrap();
    assert_eq!(heap.page_count(), 2);
    assert_eq!(heap.get_page(1).unwrap().get(1), &[3u8; 500]);
    heap.insert(&[4u8; 50]).unwrap();
    assert_eq!(heap.get_page(0).unwrap().get(1), &[4u8; 50]);
}

#[test]
fn full_heap_refuses_and_stays_unchanged() {
    let mut heap = HeapFile::new(2).unwrap();
    heap.insert(&[1u8; 4000]).unwrap();
    heap.insert(&[2u8; 4000]).unwrap();
    let free0 = heap.get_page(0).unwrap().free_space();
    let free1 = heap.get_page(1).unwrap().free_space();
    assert_eq!(heap.insert(&[3u8; 100]), Err(HeapFileError::HeapFileFull));
    assert_eq!(heap.page_count(), 2);
    assert_eq!(heap.get_page(0).unwrap().free_space(), free0);
    assert_eq!(heap.get_page(1).unwrap().free_space(), free1);
    assert!(map_in_step(&heap, 2));
}

#[test]
fn zero_capacity_is_refused() {
    assert!(HeapFile::new(0).is_err());
}

#[test]
fn scan_hands_out_every_inserted_record() {
    let mut heap = HeapFile::new(4).unwrap();
    let mut inserted: Vec<Vec<u8>> = Vec::new();
    for i in 0..40usize {
        let record = vec![(i + 1) as u8; 100 + (i * 53) % 300];
        heap.insert(&record).unwrap();
        inserted.push(record);
    }
    let mut scan = heap.scan();
    let mut seen: Vec<Vec<u8>> = Vec::new();
    while let Some(record) = scan.next() {
        seen.push(record.to_vec());
    }
    assert_eq!(seen.len(), inserted.len());
    for record in &inserted {
        assert!(seen.contains(record));
    }
}
