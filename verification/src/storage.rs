//! The block-storage interface the filesystem consumes, and an
//! in-memory volume implementing it.

use vstd::prelude::*;
use vstd::pervasive::VecAdditionalExecFns;
use crate::bytes::{clone_bytes, zero_bytes};

verus! {

/// Bytes per device block.
pub const BLOCK_SIZE: usize = 4096;

/// Blocks per volume.
pub const VOLUME_BLOCKS: usize = 64;

/// A device holds exactly 64 whole blocks.
pub open spec fn storage_wf<T: BlockStorage>(dev: &T) -> bool {
    &&& dev.blocks().len() == VOLUME_BLOCKS
    &&& forall|i: int|
        0 <= i < VOLUME_BLOCKS ==> (#[trigger] dev.blocks()[i]).len() == BLOCK_SIZE
}

/// Random-access storage of fixed-size blocks addressed by index, with
/// a flush primitive.
pub trait BlockStorage: Sized {
    /// The bytes each block holds.
    spec fn blocks(&self) -> Seq<Seq<u8>>;

    /// Read one whole block.
    fn read_block(&self, index: usize) -> (r: Vec<u8>)
        requires
            self.blocks().len() == VOLUME_BLOCKS,
            index < VOLUME_BLOCKS,
        ensures
            r@ == self.blocks()[index as int],
    ;

    /// Overwrite one whole block.
    fn write_block(&mut self, index: usize, buf: &Vec<u8>)
        requires
            old(self).blocks().len() == VOLUME_BLOCKS,
            index < VOLUME_BLOCKS,
            buf@.len() == BLOCK_SIZE,
        ensures
            final(self).blocks() == old(self).blocks().update(index as int, buf@),
    ;

    /// Flush pending writes to stable storage.
    fn sync_disk(&mut self)
        ensures
            final(self).blocks() == old(self).blocks(),
    ;
}

/// A volume held in memory: a vector of equally sized blocks.
pub struct MemBlockStorage {
    blocks: Vec<Vec<u8>>,
}

impl MemBlockStorage {
    /// A zero-filled volume of `nblocks` blocks.
    pub fn new(nblocks: usize) -> (r: MemBlockStorage)
        ensures
            r.blocks().len() == nblocks,
            forall|i: int|
                0 <= i < nblocks ==> (#[trigger] r.blocks()[i]).len() == BLOCK_SIZE && forall|
                    j: int,
                |
                    0 <= j < BLOCK_SIZE ==> r.blocks()[i][j] == 0u8,
    {
        let mut blocks: Vec<Vec<u8>> = Vec::new();
        let mut i: usize = 0;
        while i < nblocks
            invariant
                i <= nblocks,
                blocks@.len() == i,
                forall|k: int|
                    0 <= k < i ==> (#[trigger] blocks@[k])@.len() == BLOCK_SIZE && forall|j: int|
                        0 <= j < BLOCK_SIZE ==> blocks@[k]@[j] == 0u8,
            decreases nblocks - i,
        {
            blocks.push(zero_bytes(BLOCK_SIZE));
            i += 1;
        }
        MemBlockStorage { blocks }
    }
}

impl BlockStorage for MemBlockStorage {
    closed spec fn blocks(&self) -> Seq<Seq<u8>> {
        Seq::new(self.blocks@.len(), |i: int| self.blocks@[i]@)
    }

    fn read_block(&self, index: usize) -> (r: Vec<u8>) {
        clone_bytes(&self.blocks[index])
    }

    fn write_block(&mut self, index: usize, buf: &Vec<u8>) {
        self.blocks.set(index, clone_bytes(buf));
        proof {
            assert(self.blocks() =~= old(self).blocks().update(index as int, buf@));
        }
    }

    fn sync_disk(&mut self) {
    }
}

} // verus!
