//! Whether a zstd frame is one that can be decompressed without counting over.
//!
//! The decompressor sums up what one block regenerates in thirty-two bits. A match has at most
//! 131074 bytes, and is told in at least one bit for every 8190 bytes beyond the first 34; the
//! literals of a block have fewer than 2^20 bytes. How long the matches are is told in entropy coded
//! bits that only the decompressor reads, so the sum is bounded by the number of the matches and by
//! the bytes that they are told in.
use vstd::prelude::*;

use crate::bytes::{le32, le_u32};

verus! {

/// The most bytes that the literals of a block have.
pub const MAX_LITERALS: u64 = 0xf_ffff;

/// The most bytes that a match has.
pub const MAX_MATCH: u64 = 131074;

/// The most bytes of a match whose length takes no bits beside its code.
pub const SHORT_MATCH: u64 = 34;

/// The most bytes of a match, beyond those of a short one, for a byte of bits beside its code.
pub const MATCH_PER_BYTE: u64 = 65520;

/// The greatest length of a block.
pub const MAX_BLOCK_SIZE: u32 = 131072;

/// Length of the header of the literals of a block, by its first byte.
pub open spec fn literals_header(first: u8) -> int {
    let format = first / 4 % 4;
    if first % 4 < 2 {
        if format == 1 {
            2
        } else if format == 3 {
            3
        } else {
            1
        }
    } else if format == 3 {
        5
    } else if format == 2 {
        4
    } else {
        3
    }
}

/// The bytes of a block that hold its literals, behind their header.
pub open spec fn literals_length(block: Seq<u8>) -> int {
    let first = block[0];
    let format = first / 4 % 4;
    if first % 4 == 0 {
        if format == 1 {
            first / 16 + block[1] * 16
        } else if format == 3 {
            first / 16 + block[1] * 16 + block[2] * 4096
        } else {
            (first / 8) as int
        }
    } else if first % 4 == 1 {
        1
    } else if format == 3 {
        block[2] / 64 + block[3] * 4 + block[4] * 1024
    } else if format == 2 {
        block[2] / 4 + block[3] * 64
    } else {
        block[1] / 64 + block[2] * 4
    }
}

/// Where the matches of a block are told, if it has all of its literals.
pub open spec fn sequences_at(block: Seq<u8>) -> Option<int> {
    if block.len() == 0 || block.len() < literals_header(block[0]) {
        None
    } else {
        let at = literals_header(block[0]) + literals_length(block);
        if at > block.len() {
            None
        } else {
            Some(at)
        }
    }
}

/// The most that `matches` matches regenerate that are told in `bytes` bytes.
pub open spec fn most_matched(matches: int, bytes: int) -> int {
    if matches * MAX_MATCH < matches * SHORT_MATCH + bytes * MATCH_PER_BYTE {
        matches * MAX_MATCH
    } else {
        matches * SHORT_MATCH + bytes * MATCH_PER_BYTE
    }
}

/// Whether what a compressed block regenerates can be counted, by the number of its matches and by
/// the bytes that they are told in. Up to 32511 of them are counted in two bytes, and more in
/// three; those few always fit.
pub open spec fn block_fits(block: Seq<u8>) -> bool {
    match sequences_at(block) {
        None => true,
        Some(at) => {
            let told = block.skip(at);
            told.len() < 4 || told[0] != 255 || MAX_LITERALS + most_matched(
                told[1] + told[2] * 256 + 32512,
                told.len() - 4,
            ) <= u32::MAX
        },
    }
}

/// The header of the block at `at`: whether it is the last one, its kind, and its length.
pub open spec fn block_header(data: Seq<u8>, at: int) -> (bool, u32, u32) {
    let header = (data[at] + data[at + 1] * 256 + data[at + 2] * 65536) as u32;
    (header % 2 == 1, header / 2 % 4, header / 8)
}

/// Whether what each block from `at` on regenerates can be counted, up to the last block or the
/// first that is cut short, too long or of no known kind.
pub open spec fn blocks_fit_from(data: Seq<u8>, at: int) -> bool
    decreases data.len() - at,
{
    if at < 0 || at + 3 > data.len() {
        true
    } else {
        let (last, kind, size) = block_header(data, at);
        let length: int = if kind == 1 {
            1
        } else {
            size as int
        };
        if kind == 3 || size > MAX_BLOCK_SIZE || at + 3 + length > data.len() {
            true
        } else if kind == 2 && !block_fits(data.subrange(at + 3, at + 3 + length)) {
            false
        } else {
            last || blocks_fit_from(data, at + 3 + length)
        }
    }
}

/// Where the first block of a frame stands, if the frame has its magic and a whole header.
pub open spec fn first_block(data: Seq<u8>) -> Option<int> {
    if data.len() < 5 || le32(data, 0) != 0xfd2f_b528 {
        None
    } else {
        let single = data[4] / 32 % 2 == 1;
        let window: int = if single {
            0
        } else {
            1
        };
        let dictionary: int = match data[4] % 4 {
            0 => 0,
            1 => 1,
            2 => 2,
            _ => 4,
        };
        let content: int = match data[4] / 64 {
            0 => if single {
                1
            } else {
                0
            },
            1 => 2,
            2 => 4,
            _ => 8,
        };
        let at = 5 + window + dictionary + content;
        if at > data.len() {
            None
        } else {
            Some(at)
        }
    }
}

/// Whether what each block of a frame regenerates can be counted.
pub open spec fn blocks_fit(data: Seq<u8>) -> bool {
    match first_block(data) {
        None => true,
        Some(at) => blocks_fit_from(data, at),
    }
}

/// Where the matches of a block are told, if it has all of its literals.
fn find_sequences(block: &[u8]) -> (r: Option<usize>)
    requires
        block@.len() <= MAX_BLOCK_SIZE,
    ensures
        sequences_at(block@) == (match r {
            Some(at) => Some(at as int),
            None => None,
        }),
        r matches Some(at) ==> at <= block@.len(),
{
    if block.len() == 0 {
        return None;
    }
    let first = block[0];
    let format = first / 4 % 4;
    let literals = first % 4;
    let header: usize = if literals < 2 {
        if format == 1 {
            2
        } else if format == 3 {
            3
        } else {
            1
        }
    } else if format == 3 {
        5
    } else if format == 2 {
        4
    } else {
        3
    };
    if block.len() < header {
        return None;
    }
    let length: usize = if literals == 0 {
        if format == 1 {
            first as usize / 16 + block[1] as usize * 16
        } else if format == 3 {
            first as usize / 16 + block[1] as usize * 16 + block[2] as usize * 4096
        } else {
            first as usize / 8
        }
    } else if literals == 1 {
        1
    } else if format == 3 {
        block[2] as usize / 64 + block[3] as usize * 4 + block[4] as usize * 1024
    } else if format == 2 {
        block[2] as usize / 4 + block[3] as usize * 64
    } else {
        block[1] as usize / 64 + block[2] as usize * 4
    };
    if header + length > block.len() {
        None
    } else {
        Some(header + length)
    }
}

/// Whether what a compressed block regenerates can be counted.
fn block_is_counted(block: &[u8]) -> (r: bool)
    requires
        block@.len() <= MAX_BLOCK_SIZE,
    ensures
        r == block_fits(block@),
{
    match find_sequences(block) {
        None => true,
        Some(at) => {
            let ghost told = block@.skip(at as int);
            if block.len() - at < 4 {
                return true;
            }
            assert(told[0] == block@[at as int]);
            assert(told[1] == block@[at + 1]);
            assert(told[2] == block@[at + 2]);
            let count = block[at + 1] as u64 + block[at + 2] as u64 * 256 + 32512;
            let most = count * MAX_MATCH;
            let told_in = count * SHORT_MATCH + (block.len() - at - 4) as u64 * MATCH_PER_BYTE;
            let matched = if most < told_in {
                most
            } else {
                told_in
            };
            block[at] != 255 || MAX_LITERALS + matched <= u32::MAX as u64
        },
    }
}

/// Where the first block of a frame stands, if the frame has its magic and a whole header.
fn find_first_block(data: &[u8]) -> (r: Option<usize>)
    ensures
        first_block(data@) == (match r {
            Some(at) => Some(at as int),
            None => None,
        }),
        r matches Some(at) ==> at <= data@.len(),
{
    if data.len() < 5 || le_u32(data, 0) != 0xfd2f_b528 {
        return None;
    }
    let single = data[4] / 32 % 2 == 1;
    let window: usize = if single {
        0
    } else {
        1
    };
    let dictionary: usize = match data[4] % 4 {
        0 => 0,
        1 => 1,
        2 => 2,
        _ => 4,
    };
    let content: usize = match data[4] / 64 {
        0 => if single {
            1
        } else {
            0
        },
        1 => 2,
        2 => 4,
        _ => 8,
    };
    let at = 5 + window + dictionary + content;
    if at > data.len() {
        None
    } else {
        Some(at)
    }
}

/// Whether what each block of a frame regenerates can be counted.
pub fn blocks_are_counted(data: &[u8]) -> (r: bool)
    ensures
        r == blocks_fit(data@),
{
    let mut at = match find_first_block(data) {
        None => return true,
        Some(at) => at,
    };
    while data.len() - at >= 3
        invariant
            at <= data@.len(),
            blocks_fit(data@) == blocks_fit_from(data@, at as int),
        decreases data@.len() - at,
    {
        let header = data[at] as u32 + data[at + 1] as u32 * 256 + data[at + 2] as u32 * 65536;
        let kind = header / 2 % 4;
        let size = header / 8;
        let length: usize = if kind == 1 {
            1
        } else {
            size as usize
        };
        if kind == 3 || size > MAX_BLOCK_SIZE || length > data.len() - at - 3 {
            return true;
        }
        let end = at + 3 + length;
        if kind == 2 && !block_is_counted(&data[at + 3..end]) {
            return false;
        }
        if header % 2 == 1 {
            return true;
        }
        at = end;
    }
    true
}

} // verus!
