//! Offsets and labels of the block-device read benchmark.
use vstd::prelude::*;
use vstd::string::StringExecFns;

verus! {

/// Size of the benchmark file: 4 GiB.
pub const FILE_SIZE: u64 = 4294967296;

/// How the benchmark picks the block of each operation.
#[derive(Debug, Clone, Copy, PartialEq, Eq, Structural)]
pub enum AccessPattern {
    Sequential,
    Random,
}

/// Number of whole blocks of `block_size` bytes in the file.
pub open spec fn blocks_in_file(block_size: int) -> int {
    FILE_SIZE as int / block_size
}

/// The decimal digit `d` as a character.
pub open spec fn digit_char(d: int) -> char {
    if d == 0 {
        '0'
    } else if d == 1 {
        '1'
    } else if d == 2 {
        '2'
    } else if d == 3 {
        '3'
    } else if d == 4 {
        '4'
    } else if d == 5 {
        '5'
    } else if d == 6 {
        '6'
    } else if d == 7 {
        '7'
    } else if d == 8 {
        '8'
    } else {
        '9'
    }
}

/// The decimal representation of `n`, without leading zeros.
pub open spec fn decimal_chars(n: nat) -> Seq<char>
    decreases n,
{
    if n < 10 {
        seq![digit_char(n as int)]
    } else {
        decimal_chars(n / 10) + seq![digit_char((n % 10) as int)]
    }
}

fn digit_str(d: usize) -> (s: &'static str)
    requires
        d < 10,
    ensures
        s@ == seq![digit_char(d as int)],
{
    proof {
        reveal_strlit("0");
        reveal_strlit("1");
        reveal_strlit("2");
        reveal_strlit("3");
        reveal_strlit("4");
        reveal_strlit("5");
        reveal_strlit("6");
        reveal_strlit("7");
        reveal_strlit("8");
        reveal_strlit("9");
    }
    match d {
        0 => "0",
        1 => "1",
        2 => "2",
        3 => "3",
        4 => "4",
        5 => "5",
        6 => "6",
        7 => "7",
        8 => "8",
        _ => "9",
    }
}

/// The decimal representation of `n`.
pub fn decimal_string(n: usize) -> (s: String)
    ensures
        s@ == decimal_chars(n as nat),
    decreases n,
{
    if n < 10 {
        String::from_str(digit_str(n))
    } else {
        let mut s = decimal_string(n / 10);
        s.append(digit_str(n % 10));
        s
    }
}


/// Offset of operation `operation`: the block `operation * 7919`, taken
/// modulo the number of blocks in the file, times the block size.
pub fn random_offset(operation: usize, block_size: usize) -> (offset: u64)
    requires
        0 < block_size <= FILE_SIZE,
        operation * 7919 <= u64::MAX,
    ensures
        offset == ((operation as int * 7919) % blocks_in_file(block_size as int)) * block_size,
        offset + block_size <= FILE_SIZE,
{
    proof {
        lemma_blocks_positive(block_size as int);
    }
    let blocks = FILE_SIZE / block_size as u64;
    let block = (operation as u64 * 7919) % blocks;
    proof {
        lemma_block_in_file(block as int, blocks as int, block_size as int);
    }
    block * block_size as u64
}

/// Offset of operation `operation`: the block `operation`, taken modulo
/// the number of blocks in the file, times the block size.
pub fn sequential_offset(operation: usize, block_size: usize) -> (offset: u64)
    requires
        0 < block_size <= FILE_SIZE,
    ensures
        offset == ((operation as int) % blocks_in_file(block_size as int)) * block_size,
        offset + block_size <= FILE_SIZE,
{
    proof {
        lemma_blocks_positive(block_size as int);
    }
    let blocks = FILE_SIZE / block_size as u64;
    let block = operation as u64 % blocks;
    proof {
        lemma_block_in_file(block as int, blocks as int, block_size as int);
    }
    block * block_size as u64
}

proof fn lemma_blocks_positive(block_size: int)
    requires
        0 < block_size <= FILE_SIZE,
    ensures
        blocks_in_file(block_size) >= 1,
{
    vstd::arithmetic::div_mod::lemma_fundamental_div_mod(FILE_SIZE as int, block_size);
    vstd::arithmetic::div_mod::lemma_mod_pos_bound(FILE_SIZE as int, block_size);
    if blocks_in_file(block_size) <= 0 {
        assert(block_size * blocks_in_file(block_size) <= 0) by (nonlinear_arith)
            requires block_size > 0, blocks_in_file(block_size) <= 0;
    }
}

proof fn lemma_block_in_file(block: int, blocks: int, block_size: int)
    requires
        0 < block_size <= FILE_SIZE,
        blocks == blocks_in_file(block_size),
        0 <= block < blocks,
    ensures
        block * block_size + block_size <= FILE_SIZE,
        blocks >= 1,
{
    vstd::arithmetic::div_mod::lemma_fundamental_div_mod(FILE_SIZE as int, block_size);
    assert(block * block_size + block_size <= blocks * block_size) by (nonlinear_arith)
        requires
            0 <= block < blocks,
            block_size > 0,
    ;
    assert(blocks * block_size <= FILE_SIZE) by {
        vstd::arithmetic::div_mod::lemma_mod_pos_bound(FILE_SIZE as int, block_size);
    }
}

/// The offset of operation `operation` under `pattern`.
pub fn offset(operation: usize, block_size: usize, pattern: AccessPattern) -> (offset: u64)
    requires
        0 < block_size <= FILE_SIZE,
        pattern == AccessPattern::Random ==> operation * 7919 <= u64::MAX,
    ensures
        pattern == AccessPattern::Sequential ==> offset == ((operation as int) % blocks_in_file(block_size as int)) * block_size,
        pattern == AccessPattern::Random ==> offset == ((operation as int * 7919) % blocks_in_file(block_size as int)) * block_size,
{
    match pattern {
        AccessPattern::Sequential => sequential_offset(operation, block_size),
        AccessPattern::Random => random_offset(operation, block_size),
    }
}

/// The label of a block size: `512B`, `4KB` and `64KB` for the three
/// sizes of the benchmark, otherwise the size in decimal followed by `B`.
pub fn format_block_size(size: usize) -> (label: String)
    ensures
        label@ == if size == 512 {
            seq!['5', '1', '2', 'B']
        } else if size == 4096 {
            seq!['4', 'K', 'B']
        } else if size == 65536 {
            seq!['6', '4', 'K', 'B']
        } else {
            decimal_chars(size as nat) + seq!['B']
        },
{
    proof {
        reveal_strlit("512B");
        reveal_strlit("4KB");
        reveal_strlit("64KB");
        reveal_strlit("B");
    }
    match size {
        512 => String::from_str("512B"),
        4096 => String::from_str("4KB"),
        65536 => String::from_str("64KB"),
        _ => {
            let mut label = decimal_string(size);
            label.append("B");
            label
        },
    }
}
} // verus!
