//! The volume header: a 28-byte record serialized little-endian at the
//! start of block 0.

use vstd::prelude::*;
use crate::bytes::{push_u32_le, read_u32_le, u32_le, u32_from_le, lemma_u32_le_roundtrip};
use crate::error::SFSError;

verus! {

/// Sentinel identifying an initialized volume ("SFSB").
pub const SB_MAGIC: u32 = 0x5346_5342;

/// Number of bytes in a serialized superblock.
pub const SB_BYTES: usize = 28;

/// The volume header held in block 0.
#[derive(Debug, Clone, Copy, PartialEq, Eq, Structural)]
pub struct SuperBlock {
    pub sb_magic: u32,
    pub inodes_count: u32,
    pub blocks_count: u32,
    pub reserved_blocks_count: u32,
    pub free_blocks_count: u32,
    pub free_inodes_count: u32,
    pub pad: u32,
}

/// The 28-byte little-endian image of a superblock.
pub open spec fn sb_encode(sb: SuperBlock) -> Seq<u8> {
    u32_le(sb.sb_magic) + u32_le(sb.inodes_count) + u32_le(sb.blocks_count) + u32_le(
        sb.reserved_blocks_count,
    ) + u32_le(sb.free_blocks_count) + u32_le(sb.free_inodes_count) + u32_le(sb.pad)
}

/// The superblock read from the first 28 bytes of an image.
pub open spec fn sb_decode(b: Seq<u8>) -> SuperBlock {
    SuperBlock {
        sb_magic: u32_from_le(b[0], b[1], b[2], b[3]),
        inodes_count: u32_from_le(b[4], b[5], b[6], b[7]),
        blocks_count: u32_from_le(b[8], b[9], b[10], b[11]),
        reserved_blocks_count: u32_from_le(b[12], b[13], b[14], b[15]),
        free_blocks_count: u32_from_le(b[16], b[17], b[18], b[19]),
        free_inodes_count: u32_from_le(b[20], b[21], b[22], b[23]),
        pad: u32_from_le(b[24], b[25], b[26], b[27]),
    }
}

/// The canonical fresh superblock written at format time: magic set,
/// 80 inodes, 56 data blocks, every inode initially free.
pub open spec fn fresh_super_block() -> SuperBlock {
    SuperBlock {
        sb_magic: SB_MAGIC,
        inodes_count: 80,
        blocks_count: 56,
        reserved_blocks_count: 0,
        free_blocks_count: 0,
        free_inodes_count: 80,
        pad: 0,
    }
}

impl Default for SuperBlock {
    /// The canonical fresh superblock.
    fn default() -> (r: SuperBlock)
        ensures
            r == fresh_super_block(),
    {
        SuperBlock {
            sb_magic: SB_MAGIC,
            // Five inode blocks of sixteen 256-byte inodes each.
            inodes_count: 80,
            // The remaining space holds user data blocks.
            blocks_count: 56,
            reserved_blocks_count: 0,
            free_blocks_count: 0,
            free_inodes_count: 80,
            pad: 0,
        }
    }
}

/// Decoding an encoded superblock, with any bytes following it, yields
/// the superblock again.
pub proof fn lemma_sb_roundtrip(sb: SuperBlock, tail: Seq<u8>)
    ensures
        sb_decode(sb_encode(sb) + tail) == sb,
{
    lemma_u32_le_roundtrip(sb.sb_magic);
    lemma_u32_le_roundtrip(sb.inodes_count);
    lemma_u32_le_roundtrip(sb.blocks_count);
    lemma_u32_le_roundtrip(sb.reserved_blocks_count);
    lemma_u32_le_roundtrip(sb.free_blocks_count);
    lemma_u32_le_roundtrip(sb.free_inodes_count);
    lemma_u32_le_roundtrip(sb.pad);
}

impl SuperBlock {
    /// The 28-byte on-disk image of this superblock.
    pub fn serialize(&self) -> (r: Vec<u8>)
        ensures
            r@ == sb_encode(*self),
            r@.len() == SB_BYTES,
    {
        let mut out: Vec<u8> = Vec::new();
        push_u32_le(&mut out, self.sb_magic);
        push_u32_le(&mut out, self.inodes_count);
        push_u32_le(&mut out, self.blocks_count);
        push_u32_le(&mut out, self.reserved_blocks_count);
        push_u32_le(&mut out, self.free_blocks_count);
        push_u32_le(&mut out, self.free_inodes_count);
        push_u32_le(&mut out, self.pad);
        proof {
            assert(out@ =~= sb_encode(*self));
        }
        out
    }

    /// Read a superblock from the start of a block image; fails with
    /// `InvalidBlock` exactly when the stored magic differs from
    /// `expected_magic`.
    pub fn parse(block: &Vec<u8>, expected_magic: u32) -> (r: Result<SuperBlock, SFSError>)
        requires
            block@.len() >= SB_BYTES,
            block@.len() <= usize::MAX,
        ensures
            sb_decode(block@).sb_magic == expected_magic ==> r == Ok::<SuperBlock, SFSError>(
                sb_decode(block@),
            ),
            sb_decode(block@).sb_magic != expected_magic ==> r == Err::<SuperBlock, SFSError>(
                SFSError::InvalidBlock,
            ),
    {
        let sb = SuperBlock {
            sb_magic: read_u32_le(block, 0),
            inodes_count: read_u32_le(block, 4),
            blocks_count: read_u32_le(block, 8),
            reserved_blocks_count: read_u32_le(block, 12),
            free_blocks_count: read_u32_le(block, 16),
            free_inodes_count: read_u32_le(block, 20),
            pad: read_u32_le(block, 24),
        };
        if sb.sb_magic != expected_magic {
            return Err(SFSError::InvalidBlock);
        }
        Ok(sb)
    }
}

} // verus!
