use task_pool::storage::access::owned::OwnedAdapter;
use task_pool::storage::heap::HeapFile;

#[test]
fn test_owned_adapter() {
    let mut heap_file = HeapFile::new(8).unwrap();

    heap_file.insert(b"record-a").unwrap();
    heap_file.insert(b"record-b").unwrap();

    let mut adapter = OwnedAdapter::new(heap_file.scan());
    let mut records: Vec<Vec<u8>> = Vec::new();
    while let Some(record) = adapter.next() {
        records.push(record);
    }

    assert_eq!(records, vec![b"record-a".to_vec(), b"record-b".to_vec(),]);
}
