use task_pool::storage::page::checks::check_invariants;
use task_pool::storage::page::slotted_page::{
    SlottedPage, SlottedPageError, MAX_AVAILABLE_SLOTTED_PAGE_SPACE,
};

#[test]
fn fresh_page_is_empty() {
    let page = SlottedPage::new();
    assert_eq!(page.get_slot_count(), 0);
    assert_eq!(page.free_end(), 4096);
    assert_eq!(page.free_space() as usize, MAX_AVAILABLE_SLOTTED_PAGE_SPACE);
    let default_page = SlottedPage::default();
    assert_eq!(default_page.free_space(), page.free_space());
    assert!(check_invariants(&page));
}

#[test]
fn insert_then_get_gives_the_record_back() {
    let mut page = SlottedPage::new();
    let a = page.insert(b"alpha").unwrap();
    let b = page.insert(b"be").unwrap();
    assert_eq!(a, 0);
    assert_eq!(b, 1);
    assert_eq!(page.get(a), b"alpha");
    assert_eq!(page.get(b), b"be");
    assert_eq!(page.get_slot_count(), 2);
    assert_eq!(page.free_end(), 4096 - 7);
    assert_eq!(page.free_space(), 4092 - 7 - 8);
    assert!(check_invariants(&page));
}

#[test]
fn insert_refuses_a_record_that_does_not_fit() {
    let mut page = SlottedPage::new();
    assert_eq!(page.insert(&[0u8; 4089]), Err(SlottedPageError::OutOfSpace));
    assert_eq!(page.get_slot_count(), 0);
    assert!(page.insert(&[7u8; 4088]).is_ok());
    assert_eq!(page.free_space(), 0);
    assert_eq!(page.insert(b""), Err(SlottedPageError::OutOfSpace));
}

#[test]
fn delete_empties_the_slot_and_keeps_the_others() {
    let mut page = SlottedPage::new();
    page.insert(b"one").unwrap();
    page.insert(b"two").unwrap();
    page.insert(b"three").unwrap();
    let free_before = page.free_space();
    page.delete(1).unwrap();
    assert!(page.get(1).is_empty());
    assert_eq!(page.get(0), b"one");
    assert_eq!(page.get(2), b"three");
    assert_eq!(page.free_space(), free_before);
    assert_eq!(page.delete(3), Err(SlottedPageError::NoSuchSlot));
    assert!(check_invariants(&page));
}

#[test]
fn compact_packs_live_records_after_the_directory() {
    let mut page = SlottedPage::new();
    page.insert(b"one").unwrap();
    page.insert(b"two").unwrap();
    page.insert(b"three").unwrap();
    page.delete(1).unwrap();
    page.compact();
    assert_eq!(page.get_slot_count(), 3);
    assert_eq!(page.get(0), b"one");
    assert!(page.get(1).is_empty());
    assert_eq!(page.get(2), b"three");
    // The directory ends at 4 + 3 * 4 = 16 and eight live bytes follow it.
    assert_eq!(page.free_end(), 16 + 8);
    assert_eq!(page.free_space(), 8);
    assert!(check_invariants(&page));
}

#[test]
fn each_slot_holds_its_last_write() {
    let mut page = SlottedPage::new();
    let mut expected: Vec<Vec<u8>> = Vec::new();
    for i in 0..20u8 {
        let record = vec![i; (i as usize % 7) + 1];
        let slot = page.insert(&record).unwrap();
        assert_eq!(slot as usize, expected.len());
        expected.push(record);
        if i % 3 == 0 {
            let victim = (i as u16 * 5) % page.get_slot_count();
            page.delete(victim).unwrap();
            expected[victim as usize] = Vec::new();
        }
    }
    for (slot, record) in expected.iter().enumerate() {
        assert_eq!(page.get(slot as u16), record.as_slice());
    }
}
