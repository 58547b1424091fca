use task_pool::bench::io_matrix::{
    decimal_string, format_block_size, offset, random_offset, sequential_offset, AccessPattern,
    FILE_SIZE,
};

#[test]
fn sequential_offsets_step_by_block() {
    assert_eq!(sequential_offset(0, 4096), 0);
    assert_eq!(sequential_offset(3, 4096), 3 * 4096);
    let blocks = (FILE_SIZE / 65536) as usize;
    assert_eq!(sequential_offset(blocks, 65536), 0);
    assert_eq!(sequential_offset(blocks + 2, 65536), 2 * 65536);
}

#[test]
fn random_offsets_stride_by_7919_blocks() {
    assert_eq!(random_offset(0, 512), 0);
    assert_eq!(random_offset(1, 512), 7919 * 512);
    assert_eq!(random_offset(2, 4096), 2 * 7919 * 4096);
    let blocks = FILE_SIZE / 65536;
    assert_eq!(random_offset(100, 65536), ((100 * 7919) % blocks) * 65536);
}

#[test]
fn offsets_stay_inside_the_file() {
    for op in [0usize, 1, 99_999, 1 << 20] {
        for bs in [512usize, 4096, 65536] {
            assert!(random_offset(op, bs) + bs as u64 <= FILE_SIZE);
            assert!(sequential_offset(op, bs) + bs as u64 <= FILE_SIZE);
        }
    }
}

#[test]
fn offset_follows_the_pattern() {
    assert_eq!(offset(5, 4096, AccessPattern::Sequential), sequential_offset(5, 4096));
    assert_eq!(offset(5, 4096, AccessPattern::Random), random_offset(5, 4096));
}

#[test]
fn block_size_labels() {
    assert_eq!(format_block_size(512), "512B");
    assert_eq!(format_block_size(4096), "4KB");
    assert_eq!(format_block_size(65536), "64KB");
    assert_eq!(format_block_size(1000), "1000B");
    assert_eq!(format_block_size(0), "0B");
}

#[test]
fn decimal_strings() {
    assert_eq!(decimal_string(0), "0");
    assert_eq!(decimal_string(7), "7");
    assert_eq!(decimal_string(1234567890), "1234567890");
}
