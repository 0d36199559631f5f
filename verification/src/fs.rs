//! The filesystem: a fixed 64-block volume with one superblock, one
//! data-region bitmap, one inode bitmap, five inode blocks and 56 data
//! blocks, kept consistent in memory and on disk.

use vstd::prelude::*;
use crate::bitmap::{Bitmap, bit_of_bytes, bits_of, BITMAP_BITS};
use crate::bytes::{chunk256, zero_bytes, zeros};
use crate::dir::{entries_v, parse_dir, valid_entries, valid_name, encode_dir, find_byte, find_entry, upsert_entries};
use crate::error::SFSError;
use crate::inode::{
    Inode, InodeGroup, InodeV, inode_decode, inode_v_wf, root_inode_v, file_inode_v, MODE_DIR,
    INODE_BLOCKS, INODE_BLOCK_COUNT, lemma_slot_image_roundtrip,
};
use vstd::string::StringSliceAdditionalSpecFns;
use crate::sb::{SuperBlock, SB_MAGIC, SB_BYTES, sb_encode, sb_decode, fresh_super_block,
    lemma_sb_roundtrip};
use crate::storage::{BlockStorage, storage_wf, BLOCK_SIZE, VOLUME_BLOCKS};

verus! {

/// Block index of the superblock.
pub const SUPERBLOCK_INDEX: usize = 0;

/// Block index of the data-region allocation bitmap.
pub const DATA_REGION_BMP: usize = 1;

/// Block index of the inode allocation bitmap.
pub const INODE_BMP: usize = 2;

/// First block of the inode table.
pub const INODE_START: usize = 3;

/// First block of the data region.
pub const DATA_START: usize = 8;

/// How a path is opened.
#[derive(Debug, Clone, Copy, PartialEq, Eq, Structural)]
pub enum OpenMode {
    RO,
    WO,
    RW,
    DIRECTORY,
    CREATE,
}

/// Pointer `j` of inode slot `i`, zero when the slot is free or the
/// pointer out of range.
pub open spec fn inode_ptr(nodes: Seq<Option<InodeV>>, i: int, j: int) -> u32 {
    match nodes[i] {
        Some(v) => if 0 <= j < v.blocks.len() {
            v.blocks[j]
        } else {
            0u32
        },
        None => 0u32,
    }
}

/// Every data pointer addresses the data region and its data-bitmap
/// bit is set.
pub open spec fn pointers_marked(nodes: Seq<Option<InodeV>>, data_bits: Seq<bool>) -> bool {
    forall|i: int, j: int|
        0 <= i < 80 && 0 <= j < 15 && #[trigger] inode_ptr(nodes, i, j) > 8 ==> inode_ptr(
            nodes,
            i,
            j,
        ) < 64 && data_bits[inode_ptr(nodes, i, j) as int]
}

/// Below every data pointer the data region is fully allocated: the
/// allocator hands out the smallest free block, so everything below an
/// allocated pointer stays used.
pub open spec fn pointers_dense(nodes: Seq<Option<InodeV>>, data_bits: Seq<bool>) -> bool {
    forall|i: int, j: int, q: int|
        #![trigger inode_ptr(nodes, i, j), data_bits[q]]
        0 <= i < 80 && 0 <= j < 15 && inode_ptr(nodes, i, j) > 8 && 8 <= q < inode_ptr(nodes, i, j)
            ==> data_bits[q]
}

/// No two distinct inodes reference the same data block.
pub open spec fn pointers_disjoint(nodes: Seq<Option<InodeV>>) -> bool {
    forall|i1: int, j1: int, i2: int, j2: int|
        #![trigger inode_ptr(nodes, i1, j1), inode_ptr(nodes, i2, j2)]
        0 <= i1 < 80 && 0 <= j1 < 15 && 0 <= i2 < 80 && 0 <= j2 < 15 && i1 != i2 && inode_ptr(
            nodes,
            i1,
            j1,
        ) > 8 && inode_ptr(nodes, i2, j2) > 8 ==> inode_ptr(nodes, i1, j1) != inode_ptr(
            nodes,
            i2,
            j2,
        )
}

/// A pointer at most 8 is either an empty slot or the root's reserved
/// block 8: the values in between are malformed.
pub open spec fn pointers_ranged(nodes: Seq<Option<InodeV>>) -> bool {
    forall|i: int, j: int|
        0 <= i < 80 && 0 <= j < 15 && #[trigger] inode_ptr(nodes, i, j) < 8 ==> inode_ptr(
            nodes,
            i,
            j,
        ) == 0
}

/// Within one inode the data pointers grow with their slot position:
/// the allocator hands out blocks in ascending order and nothing is
/// ever freed, so a pointer written later names a larger block.
pub open spec fn pointers_increasing(nodes: Seq<Option<InodeV>>) -> bool {
    forall|i: int, j1: int, j2: int|
        #![trigger inode_ptr(nodes, i, j1), inode_ptr(nodes, i, j2)]
        0 <= i < 80 && 0 <= j1 < j2 < 15 && inode_ptr(nodes, i, j1) > 8 && inode_ptr(
            nodes,
            i,
            j2,
        ) > 8 ==> inode_ptr(nodes, i, j1) < inode_ptr(nodes, i, j2)
}

/// The 256 disk bytes backing inode slot `i`.
pub open spec fn slot_disk(disk: Seq<Seq<u8>>, i: int) -> Seq<u8> {
    chunk256(disk[INODE_START + i / 16], i % 16)
}

/// The data-region bits a volume's bitmap block denotes once
/// adopted: indices below the data region are never allocatable, and
/// block 8 stays reserved for the root's initial data block.
pub open spec fn normalized_data_bits(raw: Seq<u8>) -> Seq<bool> {
    Seq::new(
        BITMAP_BITS as nat,
        |q: int|
            if q < 8 {
                false
            } else if q == 8 {
                true
            } else {
                bit_of_bytes(raw, q)
            },
    )
}

/// The inode table a volume's metadata blocks describe.
pub open spec fn mount_nodes(disk: Seq<Seq<u8>>) -> Seq<Option<InodeV>> {
    Seq::new(
        80,
        |i: int|
            if bit_of_bytes(disk[INODE_BMP as int], i) {
                Some(inode_decode(slot_disk(disk, i)))
            } else {
                None
            },
    )
}

/// Whether a volume's metadata passes the mount checks: the stored
/// magic matches, the root inode is allocated as a directory, the
/// root's reserved block 8 is marked used, and every data pointer
/// addresses the data region, is marked used, and sits below the
/// smallest free data block.
pub open spec fn mountable(disk: Seq<Seq<u8>>) -> bool {
    &&& sb_decode(disk[SUPERBLOCK_INDEX as int]).sb_magic == SB_MAGIC
    &&& bit_of_bytes(disk[INODE_BMP as int], 0)
    &&& inode_decode(slot_disk(disk, 0)).mode == MODE_DIR
    &&& pointers_marked(mount_nodes(disk), normalized_data_bits(disk[DATA_REGION_BMP as int]))
    &&& pointers_dense(mount_nodes(disk), normalized_data_bits(disk[DATA_REGION_BMP as int]))
    &&& pointers_increasing(mount_nodes(disk))
    &&& pointers_ranged(mount_nodes(disk))
    &&& pointers_disjoint(mount_nodes(disk))
}

/// The block pointers of `bs` that address the data region, in order.
pub open spec fn data_ptrs(bs: Seq<u32>) -> Seq<u32>
    decreases bs.len(),
{
    if bs.len() == 0 {
        Seq::empty()
    } else if bs.last() > 8 {
        data_ptrs(bs.drop_last()).push(bs.last())
    } else {
        data_ptrs(bs.drop_last())
    }
}

/// Pointers at most 8 are unallocated slots and carry no data.
pub proof fn lemma_data_ptrs_none(bs: Seq<u32>)
    requires
        forall|k: int| 0 <= k < bs.len() ==> bs[k] <= 8,
    ensures
        data_ptrs(bs) == Seq::<u32>::empty(),
    decreases bs.len(),
{
    if bs.len() > 0 {
        lemma_data_ptrs_none(bs.drop_last());
    }
}

/// How many whole blocks a directory's serialized records occupy.
pub open spec fn dir_needed(es: Seq<(Seq<u8>, u32)>) -> int {
    1 + (encode_dir(es).len() - 1) / 4096
}

/// The bytes the given blocks hold, concatenated in order.
pub open spec fn blocks_content(disk: Seq<Seq<u8>>, ptrs: Seq<u32>) -> Seq<u8>
    decreases ptrs.len(),
{
    if ptrs.len() == 0 {
        Seq::empty()
    } else {
        blocks_content(disk, ptrs.drop_last()) + disk[ptrs.last() as int]
    }
}

/// Every live pointer of a run is one of the run's members above 8.
pub proof fn lemma_data_ptrs_elements(bs: Seq<u32>)
    ensures
        forall|k: int|
            0 <= k < data_ptrs(bs).len() ==> exists|j: int|
                0 <= j < bs.len() && (#[trigger] bs[j]) == #[trigger] data_ptrs(bs)[k] && bs[j]
                    > 8,
    decreases bs.len(),
{
    if bs.len() > 0 {
        lemma_data_ptrs_elements(bs.drop_last());
        assert forall|k: int| 0 <= k < data_ptrs(bs).len() implies exists|j: int|
            0 <= j < bs.len() && (#[trigger] bs[j]) == #[trigger] data_ptrs(bs)[k] && bs[j]
                > 8 by {
            if bs.last() > 8 && k == data_ptrs(bs).len() - 1 {
                assert(0 <= bs.len() - 1 < bs.len() && bs[bs.len() - 1] == data_ptrs(bs)[k] && bs[
                    bs.len() - 1] > 8);
            } else {
                assert(data_ptrs(bs)[k] == data_ptrs(bs.drop_last())[k]);
                let j0 = choose|j: int|
                    0 <= j < bs.drop_last().len() && (#[trigger] bs.drop_last()[j]) == data_ptrs(
                        bs.drop_last(),
                    )[k] && bs.drop_last()[j] > 8;
                assert(bs[j0] == data_ptrs(bs)[k] && bs[j0] > 8);
            }
        }
    }
}

/// Two block images agreeing on every named block carry the same
/// concatenated content.
pub proof fn lemma_blocks_content_same(d1: Seq<Seq<u8>>, d2: Seq<Seq<u8>>, ptrs: Seq<u32>)
    requires
        forall|k: int| 0 <= k < ptrs.len() ==> d1[#[trigger] ptrs[k] as int] == d2[ptrs[k] as int],
    ensures
        blocks_content(d1, ptrs) == blocks_content(d2, ptrs),
    decreases ptrs.len(),
{
    if ptrs.len() > 0 {
        lemma_blocks_content_same(d1, d2, ptrs.drop_last());
    }
}

/// When each named block holds the matching 4096-byte chunk of `p`,
/// the concatenated content is `p`.
pub proof fn lemma_blocks_content_chunks(disk: Seq<Seq<u8>>, ptrs: Seq<u32>, p: Seq<u8>)
    requires
        p.len() == 4096 * ptrs.len(),
        forall|k: int|
            0 <= k < ptrs.len() ==> disk[#[trigger] ptrs[k] as int] == p.subrange(
                4096 * k,
                4096 * k + 4096,
            ),
    ensures
        blocks_content(disk, ptrs) == p,
    decreases ptrs.len(),
{
    if ptrs.len() == 0 {
        assert(blocks_content(disk, ptrs) =~= p);
    } else {
        let n = ptrs.len() as int;
        let front = p.take(4096 * (n - 1));
        assert forall|k: int|
            0 <= k < n - 1 implies disk[#[trigger] ptrs.drop_last()[k] as int] == front.subrange(
            4096 * k,
            4096 * k + 4096,
        ) by {
            assert(ptrs.drop_last()[k] == ptrs[k]);
            assert(front.subrange(4096 * k, 4096 * k + 4096) =~= p.subrange(
                4096 * k,
                4096 * k + 4096,
            ));
        }
        lemma_blocks_content_chunks(disk, ptrs.drop_last(), front);
        assert(disk[ptrs.last() as int] == p.subrange(4096 * (n - 1), 4096 * (n - 1) + 4096));
        assert(blocks_content(disk, ptrs) =~= p);
    }
}

/// ASCII slash, the path separator.
pub const SEP_SLASH: u8 = 47;

/// The non-empty components of a byte path, split on `/`.
pub open spec fn split_comps(s: Seq<u8>) -> Seq<Seq<u8>>
    decreases s.len(),
    via split_comps_dec
{
    if s.len() == 0 {
        Seq::empty()
    } else {
        let sl = find_byte(s, SEP_SLASH);
        let head = s.take(sl);
        let rest = if sl == s.len() {
            Seq::<u8>::empty()
        } else {
            s.skip(sl + 1)
        };
        if head.len() == 0 {
            split_comps(rest)
        } else {
            seq![head] + split_comps(rest)
        }
    }
}

#[via_fn]
proof fn split_comps_dec(s: Seq<u8>) {
    crate::dir::lemma_find_byte(s, SEP_SLASH);
}

/// The mathematical value of a vector of byte strings.
pub open spec fn comps_v(vs: Seq<Vec<u8>>) -> Seq<Seq<u8>> {
    Seq::new(vs.len(), |i: int| vs[i]@)
}

/// The non-empty components of `s[from..]`, split on `/`.
fn collect_comps(s: &Vec<u8>, from: usize) -> (r: Vec<Vec<u8>>)
    requires
        from <= s@.len(),
    ensures
        comps_v(r@) == split_comps(s@.skip(from as int)),
    decreases s@.len() - from,
{
    let ghost t = s@.skip(from as int);
    if from == s.len() {
        let r: Vec<Vec<u8>> = Vec::new();
        proof {
            assert(t =~= Seq::<u8>::empty());
            assert(comps_v(r@) =~= Seq::<Seq<u8>>::empty());
        }
        return r;
    }
    let sl = crate::dir::find_byte_from(s, SEP_SLASH, from);
    proof {
        assert forall|j: int| 0 <= j < sl - from implies t[j] != SEP_SLASH by {
            assert(t[j] == s@[from + j]);
        }
        crate::dir::lemma_find_byte_is(t, SEP_SLASH, sl as int - from);
    }
    let next = if sl == s.len() {
        sl
    } else {
        sl + 1
    };
    proof {
        if sl == s@.len() {
            assert(s@.skip(next as int) =~= Seq::<u8>::empty());
        } else {
            assert(s@.skip(next as int) =~= t.skip(sl as int - from + 1));
        }
    }
    if sl == from {
        return collect_comps(s, next);
    }
    let head = crate::bytes::sub_bytes(s, from, sl);
    proof {
        assert(head@ =~= t.take(sl as int - from));
    }
    let mut rest = collect_comps(s, next);
    let ghost prev = rest@;
    rest.insert(0, head);
    proof {
        assert(comps_v(rest@) =~= seq![head@] + comps_v(prev));
    }
    rest
}

/// Whether a name is free of the bytes the directory encoding
/// reserves.
fn check_name(name: &Vec<u8>) -> (r: bool)
    ensures
        r == crate::dir::valid_name(name@),
{
    let mut i: usize = 0;
    while i < name.len()
        invariant
            i <= name@.len(),
            forall|j: int|
                0 <= j < i ==> #[trigger] name@[j] != crate::dir::SEP_COLON && name@[j]
                    != crate::dir::SEP_NL && name@[j] != 0,
        decreases name@.len() - i,
    {
        let b = name[i];
        if b == crate::dir::SEP_COLON || b == crate::dir::SEP_NL || b == 0 {
            return false;
        }
        i += 1;
    }
    true
}

/// The outcome of walking a path's components from the root.
pub enum Resolution {
    /// Every component was found: the final inode.
    Found(u32),
    /// All but the final component were found: the directory that
    /// would hold it.
    MissingFinal(u32),
    /// An intermediate component is absent.
    MissingMid,
    /// A component named an inode that is not allocated.
    Absent,
    /// A directory's content did not parse.
    Malformed,
}

/// A pointer of a rewritten directory cannot collide with another
/// inode's pointer: kept pointers were already disjoint from it, and
/// fresh ones were free while every other pointer is marked used.
proof fn lemma_write_dir_disjoint_case<T: BlockStorage>(
    old_fs: SFS<T>,
    bs: Seq<u32>,
    aps: Seq<u32>,
    aps_full: Seq<u32>,
    have: int,
    dir: int,
    j1: int,
    i2: int,
    j2: int,
    p1: u32,
    p2: u32,
    dbits: Seq<bool>,
)
    requires
        old_fs.mem_wf(),
        dbits == old_fs.data_bits(),
        0 <= dir < 80,
        old_fs.nodes()[dir] is Some,
        old_fs.inode_at(dir).blocks == bs,
        aps_full == data_ptrs(bs),
        0 <= have <= aps.len(),
        have <= aps_full.len(),
        forall|k: int| 0 <= k < have ==> aps[k] == aps_full[k],
        forall|k: int| have <= k < aps.len() ==> !dbits[#[trigger] aps[k] as int],
        0 <= j1 < aps.len(),
        p1 == aps[j1],
        0 <= i2 < 80,
        0 <= j2 < 15,
        i2 != dir,
        p2 == inode_ptr(old_fs.nodes(), i2, j2),
        p2 > 8,
    ensures
        p1 != p2,
{
    if j1 < have {
        // p1 is one of the directory's old pointers
        crate::inode::lemma_group_inode_wf(old_fs.inodes, dir);
        lemma_data_ptrs_elements(bs);
        assert(aps[j1] == data_ptrs(bs)[j1]);
        let j0 = choose|j: int|
            0 <= j < bs.len() && (#[trigger] bs[j]) == data_ptrs(bs)[j1] && bs[j] > 8;
        assert(inode_ptr(old_fs.nodes(), dir, j0) == bs[j0]);
        assert(inode_ptr(old_fs.nodes(), dir, j0) != inode_ptr(old_fs.nodes(), i2, j2));
    } else {
        // p1 was free, p2 is marked used
        assert(!dbits[p1 as int]);
        assert(dbits[p2 as int]);
    }
}

/// Reading back block 0 of a freshly formatted volume and parsing it
/// yields a superblock carrying the magic sentinel, 80 inodes and 56
/// data blocks.
pub proof fn lemma_fresh_superblock(block0: Seq<u8>)
    requires
        block0 == sb_encode(fresh_super_block()) + zeros(4068),
    ensures
        sb_decode(block0) == fresh_super_block(),
        sb_decode(block0).sb_magic == 0x5346_5342,
        sb_decode(block0).inodes_count == 80,
        sb_decode(block0).blocks_count == 56,
{
    lemma_sb_roundtrip(fresh_super_block(), zeros(4068));
}

/// Plain file attributes handed across the userspace bridge.
pub struct FileAttributes {
    pub ino: u64,
    pub size: u64,
    pub blocks: u64,
    pub atime_sec: i64,
    pub atime_nsec: i32,
    pub mtime_sec: i64,
    pub mtime_nsec: i32,
    pub ctime_sec: i64,
    pub ctime_nsec: i32,
    pub crtime_sec: i64,
    pub crtime_nsec: i32,
    pub is_dir: bool,
    pub perm: u16,
    pub nlink: u32,
    pub uid: u32,
    pub gid: u32,
    pub rdev: u32,
    pub flags: u32,
}

/// A fixed 64-block, 4096-byte-block filesystem: one superblock, one
/// data-region bitmap, one inode bitmap, five inode blocks, and 56
/// data blocks.
pub struct SFS<T: BlockStorage> {
    dev: T,
    super_block: SuperBlock,
    data_map: Bitmap,
    /// The inode table and its allocation bitmap.
    pub inodes: InodeGroup,
}

impl<T: BlockStorage> SFS<T> {
    /// The bytes of each volume block.
    pub closed spec fn disk(&self) -> Seq<Seq<u8>> {
        self.dev.blocks()
    }

    /// The in-memory superblock.
    pub closed spec fn sb(&self) -> SuperBlock {
        self.super_block
    }

    /// The data-region allocation bits.
    pub closed spec fn data_bits(&self) -> Seq<bool> {
        self.data_map@
    }

    /// The raw one-block image of the data-region bitmap.
    pub closed spec fn data_raw(&self) -> Seq<u8> {
        self.data_map.raw()
    }

    /// The raw one-block image of the inode bitmap.
    pub closed spec fn inode_raw(&self) -> Seq<u8> {
        self.inodes.alloc_raw()
    }

    /// The inode table.
    pub closed spec fn nodes(&self) -> Seq<Option<InodeV>> {
        self.inodes.nodes_v()
    }

    /// The inode allocation bits.
    pub closed spec fn inode_bits(&self) -> Seq<bool> {
        self.inodes.bits()
    }

    /// The inode at an allocated slot.
    pub open spec fn inode_at(&self, i: int) -> InodeV {
        self.nodes()[i]->Some_0
    }

    /// The raw content of the entity at inode `i`: the bytes of its
    /// data blocks, in pointer order.
    pub open spec fn content_of(&self, i: int) -> Seq<u8> {
        blocks_content(self.disk(), data_ptrs(self.inode_at(i).blocks))
    }

    /// The directory records of the entity at inode `i`, when its
    /// content parses.
    pub open spec fn entries_of(&self, i: int) -> Option<Seq<(Seq<u8>, u32)>> {
        parse_dir(self.content_of(i))
    }

    /// The in-memory invariants: consistent components, an allocated
    /// root directory, the root's reserved block marked used, and
    /// every data pointer valid, marked, and dense.
    pub closed spec fn mem_wf(&self) -> bool {
        &&& storage_wf(&self.dev)
        &&& self.data_map.wf()
        &&& self.inodes.wf()
        &&& self.super_block.sb_magic == SB_MAGIC
        &&& self.inode_bits()[0]
        &&& (self.nodes()[0] matches Some(v) && v.mode == MODE_DIR)
        &&& self.data_bits()[8]
        &&& forall|q: int| 0 <= q < 8 ==> !self.data_bits()[q]
        &&& pointers_marked(self.nodes(), self.data_bits())
        &&& pointers_dense(self.nodes(), self.data_bits())
        &&& pointers_increasing(self.nodes())
        &&& pointers_ranged(self.nodes())
        &&& pointers_disjoint(self.nodes())
    }

    /// The disk image agrees with the in-memory state: the superblock
    /// decodes back, the bitmap blocks hold the bitmaps' bytes, and
    /// each allocated inode's disk slot decodes to the held inode.
    pub closed spec fn disk_wf(&self) -> bool {
        &&& sb_decode(self.disk()[SUPERBLOCK_INDEX as int]) == self.sb()
        &&& forall|q: int|
            8 < q < BITMAP_BITS ==> #[trigger] bit_of_bytes(
                self.disk()[DATA_REGION_BMP as int],
                q,
            ) == self.data_bits()[q]
        &&& self.disk()[INODE_BMP as int] == self.inodes.alloc_raw()
        &&& forall|i: int|
            0 <= i < 80 && self.inode_bits()[i] ==> self.nodes()[i] == Some(
                inode_decode(#[trigger] slot_disk(self.disk(), i)),
            )
    }

    /// A consistent filesystem.
    pub open spec fn wf(&self) -> bool {
        self.mem_wf() && self.disk_wf()
    }

    /// Initializes the filesystem onto owned block storage.
    ///
    /// Layout:
    /// | SuperBlock | Bitmap (data region) | Bitmap (inodes) | Inodes | Data |
    ///
    /// Only the four metadata blocks 0 to 3 are written; everything
    /// from block 4 up is left exactly as it was.
    pub fn create(dev: T) -> (r: Result<SFS<T>, SFSError>)
        requires
            storage_wf(&dev),
        ensures
            r matches Ok(fs) && {
                &&& fs.wf()
                &&& fs.sb() == fresh_super_block()
                &&& fs.nodes() == Seq::new(
                    80,
                    |i: int|
                        if i == 0 {
                            Some(root_inode_v())
                        } else {
                            None::<InodeV>
                        },
                )
                &&& forall|i: int| 0 <= i < BITMAP_BITS ==> fs.inode_bits()[i] == (i == 0)
                &&& forall|i: int| 0 <= i < BITMAP_BITS ==> fs.data_bits()[i] == (i == 8)
                &&& fs.disk()[SUPERBLOCK_INDEX as int] == sb_encode(fresh_super_block()) + zeros(
                    4068,
                )
                &&& forall|k: int| 4 <= k < 64 ==> fs.disk()[k] == dev.blocks()[k]
                &&& fs.entries_of(0) == Some(Seq::<(Seq<u8>, u32)>::empty())
            },
    {
        let mut dev = dev;

        // Superblock header at block 0, zero-padded to a whole block.
        let super_block = SuperBlock::default();
        let mut block0 = super_block.serialize();
        let mut pad = zero_bytes(BLOCK_SIZE - SB_BYTES);
        block0.append(&mut pad);
        dev.write_block(SUPERBLOCK_INDEX, &block0);

        // Allocation map for the data region, with block 8 reserved for
        // the root directory so the allocator never hands out a block
        // the read paths would treat as an unallocated pointer.
        let mut data_map = Bitmap::new();
        let _ = data_map.set_reserved(DATA_START);
        let b1 = data_map.serialize();
        dev.write_block(DATA_REGION_BMP, &b1);

        // Inode table with the root directory, and its bitmap.
        let inodes = InodeGroup::new(Bitmap::new());
        let b2 = inodes.allocations().serialize();
        dev.write_block(INODE_BMP, &b2);
        let b3 = inodes.serialize_block(0);
        dev.write_block(INODE_START, &b3);
        dev.sync_disk();

        let fs = SFS { dev, super_block, data_map, inodes };
        proof {
            lemma_sb_roundtrip(fresh_super_block(), zeros(4068));
            assert(block0@ =~= sb_encode(fresh_super_block()) + zeros(4068));
            assert forall|i: int, j: int|
                0 <= i < 80 && 0 <= j < 15 implies !(#[trigger] inode_ptr(
                fs.nodes(),
                i,
                j,
            ) > 8) by {
                if i == 0 {
                    assert(fs.nodes()[0] == Some(root_inode_v()));
                }
            }
            lemma_slot_image_roundtrip(fs.inodes, 0);
            assert(slot_disk(fs.disk(), 0) == chunk256(b3@, 0));
            assert(data_ptrs(root_inode_v().blocks) =~= Seq::<u32>::empty()) by {
                lemma_data_ptrs_none(root_inode_v().blocks);
            }
            assert(fs.content_of(0) =~= Seq::<u8>::empty());
            crate::dir::lemma_find_byte(Seq::<u8>::empty(), 0);
            assert(Seq::<u8>::empty().take(0) =~= Seq::<u8>::empty());
        }
        Ok(fs)
    }

    /// Adopt an existing volume: read and check the superblock, adopt
    /// both bitmaps, load the five inode blocks, and verify the mount
    /// checks; fails with `InvalidBlock` exactly when one fails.
    #[verifier::rlimit(100)]
    pub fn from_block_storage(dev: T) -> (r: Result<SFS<T>, SFSError>)
        requires
            storage_wf(&dev),
        ensures
            match r {
                Ok(fs) => {
                    &&& mountable(dev.blocks())
                    &&& fs.wf()
                    &&& fs.disk() == dev.blocks()
                    &&& fs.sb() == sb_decode(dev.blocks()[SUPERBLOCK_INDEX as int])
                    &&& fs.data_bits() == normalized_data_bits(
                        dev.blocks()[DATA_REGION_BMP as int],
                    )
                    &&& fs.inode_bits() == bits_of(dev.blocks()[INODE_BMP as int])
                    &&& fs.nodes() == mount_nodes(dev.blocks())
                },
                Err(e) => e == SFSError::InvalidBlock && !mountable(dev.blocks()),
            },
    {
        let b0 = dev.read_block(SUPERBLOCK_INDEX);
        let super_block = match SuperBlock::parse(&b0, SB_MAGIC) {
            Ok(s) => s,
            Err(_) => {
                return Err(SFSError::InvalidBlock);
            },
        };

        // Adopt the data bitmap, normalizing the non-data indices:
        // bits below the data region are never allocatable, and the
        // root's block 8 stays reserved.
        let b1 = dev.read_block(DATA_REGION_BMP);
        let mut data_map = Bitmap::parse(&b1);
        let mut nq: usize = 0;
        while nq < DATA_START
            invariant
                nq <= DATA_START,
                data_map.wf(),
                b1@ == dev.blocks()[DATA_REGION_BMP as int],
                forall|m: int| 0 <= m < nq ==> !data_map@[m],
                forall|m: int| nq <= m < BITMAP_BITS ==> data_map@[m] == bit_of_bytes(b1@, m),
            decreases DATA_START - nq,
        {
            let _ = data_map.clear(nq);
            nq += 1;
        }
        let _ = data_map.set_reserved(DATA_START);
        proof {
            assert(data_map@ =~= normalized_data_bits(dev.blocks()[DATA_REGION_BMP as int]));
        }

        let b2 = dev.read_block(INODE_BMP);
        let inode_allocs = Bitmap::parse(&b2);
        let mut inodes = InodeGroup::open(inode_allocs);

        let mut k: usize = 0;
        while k < INODE_BLOCK_COUNT
            invariant
                storage_wf(&dev),
                k <= INODE_BLOCK_COUNT,
                inodes.wf_basic(),
                inodes.bits() == bits_of(dev.blocks()[INODE_BMP as int]),
                inodes.alloc_raw() == dev.blocks()[INODE_BMP as int],
                forall|i: int|
                    0 <= i < 16 * k ==> inodes.nodes_v()[i] == mount_nodes(dev.blocks())[i],
                forall|i: int| 16 * k <= i < 80 ==> inodes.nodes_v()[i] is None,
            decreases INODE_BLOCK_COUNT - k,
        {
            let blk = dev.read_block(INODE_START + k);
            inodes.load_block(k, &blk);
            k += 1;
            proof {
                assert forall|i: int|
                    0 <= i < 16 * k implies inodes.nodes_v()[i] == mount_nodes(dev.blocks())[i] by {
                    if 16 * (k - 1) <= i {
                        assert(blk@.subrange(
                            256 * (i - 16 * (k - 1)),
                            256 * (i - 16 * (k - 1)) + 256,
                        ) =~= slot_disk(dev.blocks(), i));
                    }
                }
            }
        }
        proof {
            assert(inodes.wf());
            crate::inode::lemma_nodes_v_len(inodes);
            assert forall|i: int|
                0 <= i < 80 implies inodes.nodes_v()[i] == mount_nodes(dev.blocks())[i] by {}
            assert(inodes.nodes_v() =~= mount_nodes(dev.blocks()));
        }

        // Mount checks: an allocated root directory, and data
        // pointers that are in range, marked used, dense, increasing
        // and disjoint across inodes.
        let root_ok = match inodes.get(0) {
            Some(n) => n.mode == MODE_DIR,
            None => false,
        };
        if !root_ok {
            return Err(SFSError::InvalidBlock);
        }
        let first_free = match data_map.next_free(DATA_START, VOLUME_BLOCKS) {
            Ok(i) => i,
            Err(_) => VOLUME_BLOCKS,
        };
        let ghost dbits = normalized_data_bits(dev.blocks()[DATA_REGION_BMP as int]);
        let ghost mnodes = mount_nodes(dev.blocks());
        let mut claimed = Bitmap::new();
        let ghost mut claimants: Map<int, (int, int)> = Map::empty();
        let mut i: u32 = 0;
        while i < 80
            invariant
                storage_wf(&dev),
                i <= 80,
                inodes.wf(),
                inodes.nodes_v() == mnodes,
                mnodes == mount_nodes(dev.blocks()),
                data_map.wf(),
                data_map@ == dbits,
                dbits == normalized_data_bits(dev.blocks()[DATA_REGION_BMP as int]),
                8 <= first_free <= VOLUME_BLOCKS,
                forall|q: int| 8 <= q < first_free ==> dbits[q],
                first_free < VOLUME_BLOCKS ==> !dbits[first_free as int],
                forall|ii: int, j: int|
                    0 <= ii < i && 0 <= j < 15 && #[trigger] inode_ptr(mnodes, ii, j) > 8
                        ==> inode_ptr(mnodes, ii, j) < 64 && dbits[inode_ptr(mnodes, ii, j) as int]
                        && inode_ptr(mnodes, ii, j) <= first_free,
                forall|ii: int, j1: int, j2: int|
                    #![trigger inode_ptr(mnodes, ii, j1), inode_ptr(mnodes, ii, j2)]
                    0 <= ii < i && 0 <= j1 < j2 < 15 && inode_ptr(mnodes, ii, j1) > 8 && inode_ptr(
                        mnodes,
                        ii,
                        j2,
                    ) > 8 ==> inode_ptr(mnodes, ii, j1) < inode_ptr(mnodes, ii, j2),
                forall|ii: int, j: int|
                    0 <= ii < i && 0 <= j < 15 && #[trigger] inode_ptr(mnodes, ii, j) < 8
                        ==> inode_ptr(mnodes, ii, j) == 0,
                claimed.wf(),
                forall|ii: int, j: int|
                    0 <= ii < i && 0 <= j < 15 && #[trigger] inode_ptr(mnodes, ii, j) > 8
                        ==> claimed@[inode_ptr(mnodes, ii, j) as int],
                forall|qq: int|
                    0 <= qq < BITMAP_BITS && #[trigger] claimed@[qq] ==> {
                        let (a, b) = claimants[qq];
                        0 <= a < i && 0 <= b < 15 && inode_ptr(mnodes, a, b) == qq && inode_ptr(
                            mnodes,
                            a,
                            b,
                        ) > 8
                    },
                forall|a1: int, b1: int, a2: int, b2: int|
                    #![trigger inode_ptr(mnodes, a1, b1), inode_ptr(mnodes, a2, b2)]
                    0 <= a1 < i && 0 <= b1 < 15 && 0 <= a2 < i && 0 <= b2 < 15 && a1 != a2
                        && inode_ptr(mnodes, a1, b1) > 8 && inode_ptr(mnodes, a2, b2) > 8
                        ==> inode_ptr(mnodes, a1, b1) != inode_ptr(mnodes, a2, b2),
            decreases 80 - i,
        {
            match inodes.get(i) {
                None => {
                    proof {
                        assert(forall|j: int| 0 <= j < 15 ==> inode_ptr(mnodes, i as int, j) == 0);
                    }
                },
                Some(node) => {
                    let mut j: usize = 0;
                    let mut last: u32 = 0;
                    let ghost mut last_idx: int = 0;
                    while j < INODE_BLOCKS
                        invariant
                            storage_wf(&dev),
                            j <= INODE_BLOCKS,
                            inodes.wf(),
                            inodes.nodes_v() == mnodes,
                            mnodes == mount_nodes(dev.blocks()),
                            data_map.wf(),
                            data_map@ == dbits,
                            dbits == normalized_data_bits(dev.blocks()[DATA_REGION_BMP as int]),
                            i < 80,
                            8 <= first_free <= VOLUME_BLOCKS,
                            forall|q: int| 8 <= q < first_free ==> dbits[q],
                            first_free < VOLUME_BLOCKS ==> !dbits[first_free as int],
                            mnodes[i as int] == Some(node@),
                            node.wf(),
                            forall|ii: int, jj: int|
                                0 <= ii < i && 0 <= jj < 15 && #[trigger] inode_ptr(mnodes, ii, jj)
                                    > 8 ==> inode_ptr(mnodes, ii, jj) < 64 && dbits[inode_ptr(
                                    mnodes,
                                    ii,
                                    jj,
                                ) as int] && inode_ptr(mnodes, ii, jj) <= first_free,
                            forall|jj: int|
                                0 <= jj < j && #[trigger] inode_ptr(mnodes, i as int, jj) > 8
                                    ==> inode_ptr(mnodes, i as int, jj) < 64 && dbits[inode_ptr(
                                    mnodes,
                                    i as int,
                                    jj,
                                ) as int] && inode_ptr(mnodes, i as int, jj) <= first_free,
                            last == 0 || (last > 8 && 0 <= last_idx < j && inode_ptr(
                                mnodes,
                                i as int,
                                last_idx,
                            ) == last),
                            forall|jj: int|
                                0 <= jj < j && #[trigger] inode_ptr(mnodes, i as int, jj) > 8
                                    ==> inode_ptr(mnodes, i as int, jj) <= last,
                            forall|j1: int, j2: int|
                                #![trigger inode_ptr(mnodes, i as int, j1), inode_ptr(mnodes, i as int, j2)]
                                0 <= j1 < j2 < j && inode_ptr(mnodes, i as int, j1) > 8
                                    && inode_ptr(mnodes, i as int, j2) > 8 ==> inode_ptr(
                                    mnodes,
                                    i as int,
                                    j1,
                                ) < inode_ptr(mnodes, i as int, j2),
                            forall|ii: int, jj: int|
                                0 <= ii < 80 && 0 <= jj < 15 && (ii < i || (ii == i && jj < j))
                                    && #[trigger] inode_ptr(mnodes, ii, jj) < 8 ==> inode_ptr(
                                    mnodes,
                                    ii,
                                    jj,
                                ) == 0,
                            claimed.wf(),
                            forall|ii: int, jj: int|
                                0 <= ii < 80 && 0 <= jj < 15 && (ii < i || (ii == i && jj < j))
                                    && #[trigger] inode_ptr(mnodes, ii, jj) > 8 ==> claimed@[
                                    inode_ptr(mnodes, ii, jj) as int],
                            forall|qq: int|
                                0 <= qq < BITMAP_BITS && #[trigger] claimed@[qq] ==> {
                                    let (a, b) = claimants[qq];
                                    0 <= a < 80 && 0 <= b < 15 && (a < i || (a == i && b < j))
                                        && inode_ptr(mnodes, a, b) == qq && inode_ptr(
                                        mnodes,
                                        a,
                                        b,
                                    ) > 8
                                },
                            forall|a1: int, b1: int, a2: int, b2: int|
                                #![trigger inode_ptr(mnodes, a1, b1), inode_ptr(mnodes, a2, b2)]
                                0 <= a1 < 80 && 0 <= b1 < 15 && 0 <= a2 < 80 && 0 <= b2 < 15 && (
                                a1 < i || (a1 == i && b1 < j)) && (a2 < i || (a2 == i && b2 < j))
                                    && a1 != a2 && inode_ptr(mnodes, a1, b1) > 8 && inode_ptr(
                                    mnodes,
                                    a2,
                                    b2,
                                ) > 8 ==> inode_ptr(mnodes, a1, b1) != inode_ptr(mnodes, a2, b2),
                        decreases INODE_BLOCKS - j,
                    {
                        let p = node.blocks[j];
                        proof {
                            assert(inode_ptr(mnodes, i as int, j as int) == p);
                        }
                        if p > 8 {
                            if p >= 64 {
                                proof {
                                    assert(!pointers_marked(mnodes, dbits)) by {
                                        if pointers_marked(mnodes, dbits) {
                                            assert(inode_ptr(mnodes, i as int, j as int) < 64);
                                        }
                                    }
                                }
                                return Err(SFSError::InvalidBlock);
                            }
                            if !data_map.bit(p as usize) {
                                proof {
                                    assert(!pointers_marked(mnodes, dbits)) by {
                                        if pointers_marked(mnodes, dbits) {
                                            assert(dbits[inode_ptr(
                                                mnodes,
                                                i as int,
                                                j as int,
                                            ) as int]);
                                        }
                                    }
                                }
                                return Err(SFSError::InvalidBlock);
                            }
                            if p as usize > first_free {
                                proof {
                                    assert(!pointers_dense(mnodes, dbits)) by {
                                        if pointers_dense(mnodes, dbits) {
                                            assert(inode_ptr(mnodes, i as int, j as int) > 8 && 8
                                                <= first_free < inode_ptr(mnodes, i as int, j as int)
                                                ==> dbits[first_free as int]);
                                            assert(dbits[first_free as int]);
                                        }
                                    }
                                }
                                return Err(SFSError::InvalidBlock);
                            }
                            if last > 8 && p <= last {
                                proof {
                                    assert(!pointers_increasing(mnodes)) by {
                                        if pointers_increasing(mnodes) {
                                            assert(inode_ptr(mnodes, i as int, last_idx)
                                                < inode_ptr(mnodes, i as int, j as int));
                                        }
                                    }
                                }
                                return Err(SFSError::InvalidBlock);
                            }
                            if claimed.bit(p as usize) {
                                // some earlier pointer already names
                                // this block
                                proof {
                                    let (a, b) = claimants[p as int];
                                    if a == i as int {
                                        assert(!pointers_increasing(mnodes)) by {
                                            if pointers_increasing(mnodes) {
                                                assert(inode_ptr(mnodes, a, b) < inode_ptr(
                                                    mnodes,
                                                    i as int,
                                                    j as int,
                                                ));
                                            }
                                        }
                                    } else {
                                        assert(!pointers_disjoint(mnodes)) by {
                                            if pointers_disjoint(mnodes) {
                                                assert(inode_ptr(mnodes, a, b) != inode_ptr(
                                                    mnodes,
                                                    i as int,
                                                    j as int,
                                                ));
                                            }
                                        }
                                    }
                                }
                                return Err(SFSError::InvalidBlock);
                            }
                            let ghost prev_claimed = claimed@;
                            let _ = claimed.set_reserved(p as usize);
                            proof {
                                claimants = claimants.insert(p as int, (i as int, j as int));
                                assert(claimed@[p as int]);
                                assert(forall|ii: int, jj: int|
                                    0 <= ii < 80 && 0 <= jj < 15 && (ii < i || (ii == i && jj < j))
                                        && #[trigger] inode_ptr(mnodes, ii, jj) > 8
                                        ==> prev_claimed[inode_ptr(mnodes, ii, jj) as int]);
                                assert forall|ii: int, jj: int|
                                    0 <= ii < 80 && 0 <= jj < 15 && (ii < i || (ii == i && jj < j
                                        + 1)) && #[trigger] inode_ptr(mnodes, ii, jj) > 8 implies
                                    claimed@[inode_ptr(mnodes, ii, jj) as int] by {
                                    if ii == i && jj == j {
                                        assert(inode_ptr(mnodes, ii, jj) == p);
                                        assert(claimed@[p as int]);
                                    } else {
                                        assert(ii < i || (ii == i && jj < j));
                                        assert(prev_claimed[inode_ptr(mnodes, ii, jj) as int]);
                                        assert(claimed@ == prev_claimed.update(p as int, true));
                                        assert(claimed@[inode_ptr(mnodes, ii, jj) as int]);
                                    }
                                }
                                assert forall|qq: int|
                                    0 <= qq < BITMAP_BITS && #[trigger] claimed@[qq] implies {
                                    let (a, b) = claimants[qq];
                                    0 <= a < 80 && 0 <= b < 15 && (a < i || (a == i && b < j + 1))
                                        && inode_ptr(mnodes, a, b) == qq && inode_ptr(
                                        mnodes,
                                        a,
                                        b,
                                    ) > 8
                                } by {
                                    if qq != p {
                                        assert(prev_claimed[qq]);
                                    }
                                }
                            }
                            last = p;
                            proof {
                                last_idx = j as int;
                            }
                        } else if p != 0 && p != 8 {
                            // a pointer between 1 and 7 is malformed
                            proof {
                                assert(!pointers_ranged(mnodes)) by {
                                    if pointers_ranged(mnodes) {
                                        assert(inode_ptr(mnodes, i as int, j as int) == 0);
                                    }
                                }
                            }
                            return Err(SFSError::InvalidBlock);
                        }
                        j += 1;
                    }
                },
            }
            i += 1;
        }
        let fs = SFS { dev, super_block, data_map, inodes };
        proof {
            assert forall|ii: int, j: int, q: int|
                #![trigger inode_ptr(fs.nodes(), ii, j), dbits[q]]
                0 <= ii < 80 && 0 <= j < 15 && inode_ptr(fs.nodes(), ii, j) > 8 && 8 <= q
                    < inode_ptr(fs.nodes(), ii, j) implies dbits[q] by {
                assert(inode_ptr(fs.nodes(), ii, j) <= first_free);
            }
        }
        Ok(fs)
    }

    /// Write both bitmaps and all five inode blocks back to their
    /// metadata blocks, re-establishing the disk image after the
    /// in-memory state changed.
    fn flush_metadata(&mut self)
        requires
            old(self).mem_wf(),
            sb_decode(old(self).disk()[SUPERBLOCK_INDEX as int]) == old(self).sb(),
        ensures
            final(self).wf(),
            final(self).nodes() == old(self).nodes(),
            final(self).inode_bits() == old(self).inode_bits(),
            final(self).data_bits() == old(self).data_bits(),
            final(self).sb() == old(self).sb(),
            final(self).disk()[SUPERBLOCK_INDEX as int] == old(self).disk()[
                SUPERBLOCK_INDEX as int
            ],
            forall|k: int| 8 <= k < 64 ==> final(self).disk()[k] == old(self).disk()[k],
            forall|i: int|
                0 <= i < 80 && old(self).inode_bits()[i] ==> final(self).content_of(i) == old(
                    self,
                ).content_of(i),
    {
        let b1 = self.data_map.serialize();
        self.dev.write_block(DATA_REGION_BMP, &b1);
        let b2 = self.inodes.allocations().serialize();
        self.dev.write_block(INODE_BMP, &b2);
        let mut k: usize = 0;
        while k < INODE_BLOCK_COUNT
            invariant
                k <= INODE_BLOCK_COUNT,
                self.mem_wf(),
                self.nodes() == old(self).nodes(),
                self.inode_bits() == old(self).inode_bits(),
                self.data_bits() == old(self).data_bits(),
                self.sb() == old(self).sb(),
                self.disk()[SUPERBLOCK_INDEX as int] == old(self).disk()[SUPERBLOCK_INDEX as int],
                forall|kk: int| 8 <= kk < 64 ==> self.disk()[kk] == old(self).disk()[kk],
                self.disk()[DATA_REGION_BMP as int] == self.data_map.raw(),
                self.disk()[INODE_BMP as int] == self.inodes.alloc_raw(),
                forall|i: int|
                    0 <= i < 16 * k ==> #[trigger] slot_disk(self.disk(), i)
                        == self.inodes.slot_image(i),
                forall|b: int|
                    INODE_START + k <= b < INODE_START + INODE_BLOCK_COUNT
                        ==> #[trigger] self.disk()[b] == old(self).disk()[b],
            decreases INODE_BLOCK_COUNT - k,
        {
            let ghost prev_disk = self.disk();
            let blk = self.inodes.serialize_block(k);
            self.dev.write_block(INODE_START + k, &blk);
            k += 1;
            proof {
                assert forall|i: int|
                    0 <= i < 16 * k implies #[trigger] slot_disk(self.disk(), i)
                        == self.inodes.slot_image(i) by {
                    if i >= 16 * (k - 1) {
                        assert(i / 16 == k - 1);
                        assert(self.disk()[INODE_START + i / 16] == blk@);
                        assert(chunk256(blk@, i % 16) == self.inodes.slot_image(
                            16 * (k - 1) + i % 16,
                        ));
                        assert(16 * (k - 1) + i % 16 == i);
                    } else {
                        assert(i / 16 < k - 1);
                        assert(self.disk()[INODE_START + i / 16] == prev_disk[INODE_START + i
                            / 16]);
                        assert(slot_disk(prev_disk, i) == self.inodes.slot_image(i));
                    }
                }
            }
        }
        proof {
            assert forall|i: int|
                0 <= i < 80 && self.inode_bits()[i] implies self.nodes()[i] == Some(
                inode_decode(#[trigger] slot_disk(self.disk(), i)),
            ) by {
                lemma_slot_image_roundtrip(self.inodes, i);
            }
            assert forall|i: int|
                0 <= i < 80 && old(self).inode_bits()[i] implies self.content_of(i) == old(
                self,
            ).content_of(i) by {
                let bs = self.inode_at(i).blocks;
                assert(self.inode_at(i) == old(self).inode_at(i));
                assert(self.inodes.linked());
                assert(self.inodes.bits()[i]);
                assert(self.inodes.nodes_v()[i] is Some);
                assert(self.nodes()[i] is Some);
                assert(self.nodes()[i] == Some(self.inode_at(i)));
                crate::inode::lemma_group_inode_wf(self.inodes, i);
                assert(inode_v_wf(self.inode_at(i)));
                lemma_data_ptrs_elements(bs);
                assert forall|k: int|
                    0 <= k < data_ptrs(bs).len() implies self.disk()[#[trigger] data_ptrs(bs)[k] as int]
                    == old(self).disk()[data_ptrs(bs)[k] as int] by {
                    let j = choose|j: int|
                        0 <= j < bs.len() && (#[trigger] bs[j]) == data_ptrs(bs)[k] && bs[j] > 8;
                    assert(inode_ptr(self.nodes(), i, j) == bs[j]);
                    assert(8 <= bs[j] < 64);
                }
                lemma_blocks_content_same(self.disk(), old(self).disk(), data_ptrs(bs));
            }
        }
    }

    /// The raw content of the entity at inode `inum`: each of its data
    /// blocks read whole, concatenated in pointer order; fails with
    /// `DoesNotExist` exactly when no such inode is allocated.
    pub fn read_file(&self, inum: u32) -> (r: Result<Vec<u8>, SFSError>)
        requires
            self.wf(),
        ensures
            match r {
                Ok(content) => inum < 80 && self.inode_bits()[inum as int] && content@
                    == self.content_of(inum as int),
                Err(e) => e == SFSError::DoesNotExist && (inum >= 80 || !self.inode_bits()[
                    inum as int
                ]),
            },
    {
        let node = match self.inodes.get(inum) {
            None => {
                return Err(SFSError::DoesNotExist);
            },
            Some(n) => n,
        };
        let ghost bs = node@.blocks;
        let mut ptrs: Vec<u32> = Vec::new();
        let mut j: usize = 0;
        proof {
            assert(bs.take(0) =~= Seq::<u32>::empty());
        }
        while j < INODE_BLOCKS
            invariant
                self.wf(),
                inum < 80,
                j <= INODE_BLOCKS,
                self.nodes()[inum as int] == Some(node@),
                node.wf(),
                bs == node@.blocks,
                ptrs@ == data_ptrs(bs.take(j as int)),
                forall|c: int| 0 <= c < ptrs@.len() ==> 8 < #[trigger] ptrs@[c] < 64,
            decreases INODE_BLOCKS - j,
        {
            let p = node.blocks[j];
            proof {
                assert(inode_ptr(self.nodes(), inum as int, j as int) == p);
                assert(bs.take(j + 1).drop_last() =~= bs.take(j as int));
            }
            if p > 8 {
                ptrs.push(p);
            }
            j += 1;
        }
        proof {
            assert(bs.take(INODE_BLOCKS as int) =~= bs);
        }
        let mut content: Vec<u8> = Vec::new();
        let mut c: usize = 0;
        proof {
            assert(ptrs@.take(0) =~= Seq::<u32>::empty());
        }
        while c < ptrs.len()
            invariant
                self.wf(),
                c <= ptrs@.len(),
                forall|k: int| 0 <= k < ptrs@.len() ==> 8 < #[trigger] ptrs@[k] < 64,
                content@ == blocks_content(self.disk(), ptrs@.take(c as int)),
            decreases ptrs@.len() - c,
        {
            let mut blk = self.dev.read_block(ptrs[c] as usize);
            content.append(&mut blk);
            c += 1;
            proof {
                assert(ptrs@.take(c as int).drop_last() =~= ptrs@.take(c - 1));
            }
        }
        proof {
            assert(ptrs@.take(ptrs@.len() as int) =~= ptrs@);
        }
        Ok(content)
    }

    /// Serialize `entries` into the directory at inode `dir`: grow the
    /// inode's block list from the data bitmap as needed, write the
    /// content blocks, and persist bitmaps and inode table. Fails with
    /// `OutOfSpace`, changing nothing, exactly when the content needs
    /// more than the fifteen direct blocks or more free data blocks
    /// than remain.
    #[verifier::rlimit(100)]
    #[verifier::spinoff_prover]
    pub fn write_dir(&mut self, dir: u32, entries: &Vec<(Vec<u8>, u32)>) -> (r: Result<
        (),
        SFSError,
    >)
        requires
            old(self).mem_wf(),
            sb_decode(old(self).disk()[SUPERBLOCK_INDEX as int]) == old(self).sb(),
            dir < 80,
            old(self).inode_bits()[dir as int],
        ensures
            r is Ok ==> final(self).wf(),
            final(self).mem_wf(),
            sb_decode(final(self).disk()[SUPERBLOCK_INDEX as int]) == final(self).sb(),
            final(self).sb() == old(self).sb(),
            final(self).inode_bits() == old(self).inode_bits(),
            final(self).disk()[SUPERBLOCK_INDEX as int] == old(self).disk()[
                SUPERBLOCK_INDEX as int
            ],
            !valid_entries(entries_v(entries@)) ==> r == Err::<(), SFSError>(
                SFSError::InvalidArgument,
            ) && final(self).nodes() == old(self).nodes() && final(self).data_bits() == old(
                self,
            ).data_bits() && final(self).disk() == old(self).disk() && final(self).data_raw()
                == old(self).data_raw() && final(self).inode_raw() == old(self).inode_raw(),
            valid_entries(entries_v(entries@)) ==> match r {
                Ok(()) => ({
                    let es = entries_v(entries@);
                    let live = data_ptrs(final(self).inode_at(dir as int).blocks);
                    let old_live = data_ptrs(old(self).inode_at(dir as int).blocks);
                    let kept = if old_live.len() < live.len() {
                        old_live.len() as int
                    } else {
                        live.len() as int
                    };
                    &&& final(self).entries_of(dir as int) == Some(es)
                    &&& forall|i: int|
                        0 <= i < 80 && i != dir ==> final(self).nodes()[i] == old(self).nodes()[i]
                    &&& final(self).nodes()[dir as int] is Some
                    &&& live.len() == dir_needed(es)
                    &&& forall|k: int| 0 <= k < kept ==> live[k] == old_live[k]
                    &&& forall|k: int|
                        kept <= k < live.len() ==> 8 < #[trigger] live[k] < 64 && !old(
                            self,
                        ).data_bits()[live[k] as int]
                    &&& forall|q: int|
                        0 <= q < BITMAP_BITS ==> final(self).data_bits()[q] == (old(
                            self,
                        ).data_bits()[q] || live.subrange(kept, live.len() as int).contains(
                            q as u32,
                        ))
                    &&& blocks_content(final(self).disk(), live) == encode_dir(es) + zeros(
                        4096 * dir_needed(es) - encode_dir(es).len(),
                    )
                    &&& forall|b: int|
                        0 <= b < 64 && (b == SUPERBLOCK_INDEX || (DATA_START <= b && !live.contains(
                            b as u32,
                        ))) ==> #[trigger] final(self).disk()[b] == old(self).disk()[b]
                    &&& forall|i: int|
                        0 <= i < 80 && i != dir && old(self).inode_bits()[i] ==> final(self).content_of(i) == old(self).content_of(i)
                }),
                Err(e) => {
                    &&& e == SFSError::OutOfSpace
                    &&& final(self).nodes() == old(self).nodes()
                    &&& final(self).data_bits() == old(self).data_bits()
                    &&& final(self).disk() == old(self).disk()
                    &&& final(self).data_raw() == old(self).data_raw()
                    &&& final(self).inode_raw() == old(self).inode_raw()
                    &&& (dir_needed(entries_v(entries@)) > 15 || crate::bitmap::count_free(
                        old(self).data_bits(),
                        8,
                        64,
                    ) < dir_needed(entries_v(entries@)) - data_ptrs(
                        old(self).inode_at(dir as int).blocks,
                    ).len())
                },
            },
    {
        let ghost es = entries_v(entries@);
        // A name holding a reserved byte would write an unparseable
        // directory: malformed input, refused outright.
        let mut ni: usize = 0;
        while ni < entries.len()
            invariant
                *self == *old(self),
                self.mem_wf(),
                sb_decode(self.disk()[SUPERBLOCK_INDEX as int]) == self.sb(),
                es == entries_v(entries@),
                ni <= entries@.len(),
                forall|j: int| 0 <= j < ni ==> valid_name((#[trigger] es[j]).0),
            decreases entries@.len() - ni,
        {
            if !check_name(&entries[ni].0) {
                proof {
                    assert(es[ni as int].0 == entries@[ni as int].0@);
                    assert(!valid_entries(es));
                }
                return Err(SFSError::InvalidArgument);
            }
            ni += 1;
        }
        proof {
            assert(valid_entries(es));
        }
        let ghost dbits = self.data_bits();
        let content = crate::dir::encode_dir_bytes(entries);
        let needed = 1 + (content.len() - 1) / BLOCK_SIZE;
        proof {
            assert(needed == dir_needed(es));
        }
        if needed > INODE_BLOCKS {
            return Err(SFSError::OutOfSpace);
        }
        // The directory's current data blocks, in pointer order.
        let node_dup = match self.inodes.get(dir) {
            Some(n) => n.duplicate(),
            None => {
                proof {
                    assert(false);
                }
                return Err(SFSError::OutOfSpace);
            },
        };
        let ghost bs = node_dup@.blocks;
        let mut all_ptrs: Vec<u32> = Vec::new();
        let ghost mut last_idx: int = 0;
        let mut j: usize = 0;
        proof {
            assert(bs.take(0) =~= Seq::<u32>::empty());
        }
        while j < INODE_BLOCKS
            invariant
                self.mem_wf(),
                sb_decode(self.disk()[SUPERBLOCK_INDEX as int]) == self.sb(),
                *self == *old(self),
                dir < 80,
                j <= INODE_BLOCKS,
                dbits == self.data_bits(),
                self.nodes()[dir as int] == Some(node_dup@),
                inode_v_wf(node_dup@),
                bs == node_dup@.blocks,
                all_ptrs@ == data_ptrs(bs.take(j as int)),
                all_ptrs@.len() <= j,
                all_ptrs@.len() > 0 ==> 0 <= last_idx < j && all_ptrs@.last() == inode_ptr(
                    self.nodes(),
                    dir as int,
                    last_idx,
                ),
                forall|a: int| 0 <= a < all_ptrs@.len() ==> 8 < #[trigger] all_ptrs@[a] < 64,
                forall|a: int| 0 <= a < all_ptrs@.len() ==> dbits[#[trigger] all_ptrs@[a] as int],
                forall|a: int, q: int|
                    #![trigger all_ptrs@[a], dbits[q]]
                    0 <= a < all_ptrs@.len() && 8 <= q < all_ptrs@[a] ==> dbits[q],
                forall|a1: int, a2: int|
                    0 <= a1 < a2 < all_ptrs@.len() ==> #[trigger] all_ptrs@[a1]
                        < #[trigger] all_ptrs@[a2],
            decreases INODE_BLOCKS - j,
        {
            let p = node_dup.blocks[j];
            proof {
                assert(inode_ptr(self.nodes(), dir as int, j as int) == p);
                assert(bs.take(j + 1).drop_last() =~= bs.take(j as int));
            }
            if p > 8 {
                proof {
                    if all_ptrs@.len() > 0 {
                        assert(all_ptrs@.last() < p);
                    }
                }
                all_ptrs.push(p);
                proof {
                    last_idx = j as int;
                }
            }
            j += 1;
        }
        proof {
            assert(bs.take(INODE_BLOCKS as int) =~= bs);
        }
        let have = all_ptrs.len();
        let ghost aps_full = all_ptrs@;
        if have > needed {
            // The records shrank: keep only as many blocks as they
            // need; the bitmap keeps the rest marked, as nothing is
            // ever freed.
            all_ptrs.truncate(needed);
            proof {
                assert(all_ptrs@ =~= aps_full.take(needed as int));
            }
        }
        let have = all_ptrs.len();
        // Collect the additional blocks, touching nothing yet: the scan
        // cursor alone advances, so a failure leaves the state as it was.
        let mut cursor: usize = DATA_START;
        proof {
            crate::bitmap::lemma_count_free_nonneg(dbits, DATA_START as int, VOLUME_BLOCKS as int);
        }
        while all_ptrs.len() < needed
            invariant
                self.mem_wf(),
                sb_decode(self.disk()[SUPERBLOCK_INDEX as int]) == self.sb(),
                *self == *old(self),
                dir < 80,
                dbits == self.data_bits(),
                valid_entries(entries_v(entries@)),
                aps_full == data_ptrs(bs),
                have <= aps_full.len(),
                forall|k: int| 0 <= k < have ==> all_ptrs@[k] == aps_full[k],
                have <= all_ptrs@.len(),
                all_ptrs@.len() <= needed,
                have == needed || have == data_ptrs(
                    old(self).inode_at(dir as int).blocks,
                ).len(),
                needed <= INODE_BLOCKS,
                needed == dir_needed(entries_v(entries@)),
                DATA_START <= cursor <= VOLUME_BLOCKS,
                crate::bitmap::count_free(dbits, DATA_START as int, VOLUME_BLOCKS as int)
                    == all_ptrs@.len() - have + crate::bitmap::count_free(
                    dbits,
                    cursor as int,
                    VOLUME_BLOCKS as int,
                ),
                forall|a: int| 0 <= a < all_ptrs@.len() ==> 8 < #[trigger] all_ptrs@[a] < 64,
                forall|a: int| 0 <= a < have ==> dbits[#[trigger] all_ptrs@[a] as int],
                forall|a: int|
                    have <= a < all_ptrs@.len() ==> !dbits[#[trigger] all_ptrs@[a] as int]
                        && all_ptrs@[a] < cursor,
                forall|a: int, q: int|
                    #![trigger all_ptrs@[a], dbits[q]]
                    0 <= a < have && 8 <= q < all_ptrs@[a] ==> dbits[q],
                forall|a1: int, a2: int|
                    0 <= a1 < a2 < all_ptrs@.len() ==> #[trigger] all_ptrs@[a1]
                        < #[trigger] all_ptrs@[a2],
                forall|q: int|
                    8 <= q < cursor && !dbits[q] ==> all_ptrs@.subrange(
                        have as int,
                        all_ptrs@.len() as int,
                    ).contains(q as u32),
            decreases needed - all_ptrs@.len(),
        {
            let ghost prev = all_ptrs@;
            match self.data_map.next_free(cursor, VOLUME_BLOCKS) {
                Ok(b) => {
                    proof {
                        assert(dbits[8]);
                        assert(b > 8);
                        crate::bitmap::lemma_count_free_used_prefix(
                            dbits,
                            cursor as int,
                            b as int,
                            VOLUME_BLOCKS as int,
                        );
                        if all_ptrs@.len() > 0 {
                            assert forall|a: int|
                                0 <= a < prev.len() implies #[trigger] prev[a] < b by {
                                if a < have {
                                    assert(dbits[prev[a] as int]);
                                    if b < prev[a] {
                                        assert(dbits[b as int]);
                                    }
                                } else {
                                    assert(prev[a] < cursor);
                                }
                            }
                        }
                    }
                    all_ptrs.push(b as u32);
                    cursor = b + 1;
                    proof {
                        assert forall|q: int|
                            8 <= q < cursor && !dbits[q] implies all_ptrs@.subrange(
                            have as int,
                            all_ptrs@.len() as int,
                        ).contains(q as u32) by {
                            if q < b {
                                assert(prev.subrange(have as int, prev.len() as int).contains(
                                    q as u32,
                                ));
                                let w = choose|w: int|
                                    0 <= w < prev.subrange(have as int, prev.len() as int).len()
                                        && (#[trigger] prev.subrange(
                                        have as int,
                                        prev.len() as int,
                                    )[w]) == q;
                                assert(all_ptrs@.subrange(have as int, all_ptrs@.len() as int)[w]
                                    == q);
                            } else {
                                assert(all_ptrs@.subrange(have as int, all_ptrs@.len() as int)[
                                    all_ptrs@.len() - have - 1] == q);
                            }
                        }
                    }
                },
                Err(_) => {
                    proof {
                        crate::bitmap::lemma_count_free_used_prefix(
                            dbits,
                            cursor as int,
                            VOLUME_BLOCKS as int,
                            VOLUME_BLOCKS as int,
                        );
                        assert(crate::bitmap::count_free(dbits, 8, 64) < needed - have);
                    }
                    return Err(SFSError::OutOfSpace);
                },
            }
        }
        proof {
            assert(all_ptrs@.len() == needed);
        }
        // Mark the new blocks used.
        let ghost nodes0 = self.nodes();
        let ghost disk0 = self.disk();
        let ghost aps = all_ptrs@;
        let mut m = have;
        while m < all_ptrs.len()
            invariant
                have <= m <= all_ptrs@.len(),
                aps == all_ptrs@,
                self.data_map.wf(),
                self.inodes.wf(),
                storage_wf(&self.dev),
                self.nodes() == nodes0,
                self.inode_bits() == old(self).inode_bits(),
                self.sb() == old(self).sb(),
                self.disk() == disk0,
                forall|a: int| 0 <= a < aps.len() ==> 8 < #[trigger] aps[a] < 64,
                forall|q: int| 0 <= q < BITMAP_BITS && dbits[q] ==> self.data_bits()[q],
                forall|a: int| 0 <= a < m ==> self.data_bits()[#[trigger] aps[a] as int],
                forall|a: int| 0 <= a < have ==> dbits[#[trigger] aps[a] as int],
                forall|q: int|
                    0 <= q < BITMAP_BITS && self.data_bits()[q] && !dbits[q] ==> aps.subrange(
                        have as int,
                        aps.len() as int,
                    ).contains(q as u32),
            decreases all_ptrs@.len() - m,
        {
            let _ = self.data_map.set_reserved(all_ptrs[m] as usize);
            m += 1;
            proof {
                assert forall|q: int|
                    0 <= q < BITMAP_BITS && self.data_bits()[q] && !dbits[q] implies aps.subrange(
                    have as int,
                    aps.len() as int,
                ).contains(q as u32) by {
                    if q != aps[m - 1] {
                    } else {
                        assert(aps.subrange(have as int, aps.len() as int)[m - 1 - have] == aps[m
                            - 1]);
                    }
                }
            }
        }
        // Grow the inode's block list: the live pointers first, zeroes
        // in the remaining slots.
        let mut newblocks: Vec<u32> = Vec::new();
        let mut c: usize = 0;
        proof {
            assert(data_ptrs(Seq::<u32>::empty()) == Seq::<u32>::empty());
        }
        while c < all_ptrs.len()
            invariant
                c <= all_ptrs@.len(),
                aps == all_ptrs@,
                newblocks@ == aps.take(c as int),
                forall|a: int| 0 <= a < aps.len() ==> 8 < #[trigger] aps[a] < 64,
                data_ptrs(newblocks@) == newblocks@,
            decreases all_ptrs@.len() - c,
        {
            newblocks.push(all_ptrs[c]);
            c += 1;
            proof {
                assert(newblocks@ =~= aps.take(c as int));
                assert(newblocks@.drop_last() =~= aps.take(c - 1));
                assert(data_ptrs(newblocks@) =~= newblocks@);
            }
        }
        proof {
            assert(aps.take(aps.len() as int) =~= aps);
        }
        while newblocks.len() < INODE_BLOCKS
            invariant
                newblocks@.len() <= INODE_BLOCKS,
                aps.len() <= newblocks@.len(),
                newblocks@.take(aps.len() as int) == aps,
                forall|a: int| aps.len() <= a < newblocks@.len() ==> newblocks@[a] == 0u32,
                data_ptrs(newblocks@) == aps,
            decreases INODE_BLOCKS - newblocks@.len(),
        {
            let ghost prevnb = newblocks@;
            newblocks.push(0);
            proof {
                assert(newblocks@.drop_last() =~= prevnb);
                assert(newblocks@.take(aps.len() as int) =~= aps);
            }
        }
        let mut node2 = node_dup;
        node2.blocks = newblocks;
        proof {
            assert(nodes0 == old(self).nodes());
        }
        self.inodes.put(dir, node2);
        proof {
            crate::inode::lemma_nodes_v_len(old(self).inodes);
            assert(self.nodes() == old(self).nodes().update(dir as int, Some(node2@)));
        }
        // Write the serialized content, zero-padded to whole blocks.
        let mut padded = content;
        proof {
            assert(4096 * ((padded@.len() - 1) / 4096) >= padded@.len() - 1 - 4095);
        }
        let mut zpad = zero_bytes(needed * BLOCK_SIZE - padded.len());
        padded.append(&mut zpad);
        let ghost nodes1 = self.nodes();
        let ghost disk1 = self.disk();
        let ghost dbits1 = self.data_bits();
        proof {
            assert(forall|q: int| 0 <= q < BITMAP_BITS && dbits[q] ==> dbits1[q]);
            assert(forall|a: int| 0 <= a < aps.len() ==> dbits1[#[trigger] aps[a] as int]);
            assert(forall|q: int|
                0 <= q < BITMAP_BITS && dbits1[q] && !dbits[q] ==> aps.subrange(
                    have as int,
                    aps.len() as int,
                ).contains(q as u32));
        }
        let mut w: usize = 0;
        while w < needed
            invariant
                w <= needed,
                needed <= INODE_BLOCKS,
                aps.len() == needed,
                aps == all_ptrs@,
                padded@.len() == 4096 * needed,
                storage_wf(&self.dev),
                self.inodes.wf(),
                self.nodes() == nodes1,
                self.data_bits() == dbits1,
                self.inode_bits() == old(self).inode_bits(),
                self.sb() == old(self).sb(),
                self.data_map.wf(),
                forall|a: int| 0 <= a < aps.len() ==> 8 < #[trigger] aps[a] < 64,
                forall|a1: int, a2: int|
                    0 <= a1 < a2 < aps.len() ==> #[trigger] aps[a1] < #[trigger] aps[a2],
                forall|a: int|
                    0 <= a < w ==> self.disk()[#[trigger] aps[a] as int] == padded@.subrange(
                        4096 * a,
                        4096 * a + 4096,
                    ),
                forall|b: int|
                    0 <= b < 64 && !aps.take(w as int).contains(b as u32) ==> #[trigger] self.disk()[b]
                        == disk1[b],
            decreases needed - w,
        {
            let ghost prev_disk = self.disk();
            let blockbuf = crate::bytes::sub_bytes(&padded, w * BLOCK_SIZE, (w + 1) * BLOCK_SIZE);
            self.dev.write_block(all_ptrs[w] as usize, &blockbuf);
            w += 1;
            proof {
                assert forall|a: int|
                    0 <= a < w implies self.disk()[#[trigger] aps[a] as int] == padded@.subrange(
                    4096 * a,
                    4096 * a + 4096,
                ) by {
                    if a < w - 1 {
                        assert(aps[a] != aps[w - 1]);
                    }
                }
                assert forall|b: int|
                    0 <= b < 64 && !aps.take(w as int).contains(b as u32) implies #[trigger] self.disk()[b]
                    == disk1[b] by {
                    assert(aps.take(w as int)[w - 1] == aps[w - 1]);
                    assert(b != aps[w - 1]);
                    if !aps.take(w as int - 1).contains(b as u32) {
                        assert(prev_disk[b] == disk1[b]);
                    } else {
                        let x = choose|x: int|
                            0 <= x < w - 1 && (#[trigger] aps.take(w as int - 1)[x]) == b as u32;
                        assert(aps.take(w as int)[x] == b as u32);
                    }
                }
            }
        }
        // Persist both bitmaps and the inode table.
        proof {
            crate::inode::lemma_nodes_v_len(old(self).inodes);
            assert forall|b: int|
                0 <= b < 8 implies #[trigger] self.disk()[b] == disk1[b] by {
                if aps.take(needed as int).contains(b as u32) {
                    let x = choose|x: int|
                        0 <= x < needed && (#[trigger] aps.take(needed as int)[x]) == b as u32;
                    assert(aps[x] > 8);
                }
            }
            assert(self.mem_wf()) by {
                assert forall|i: int, jj: int|
                    0 <= i < 80 && 0 <= jj < 15 implies #[trigger] inode_ptr(self.nodes(), i, jj)
                    == (if i == dir {
                    if jj < aps.len() {
                        aps[jj]
                    } else {
                        0u32
                    }
                } else {
                    inode_ptr(old(self).nodes(), i, jj)
                }) by {
                    if i == dir {
                        assert(self.nodes()[i] == Some(node2@));
                    }
                }
                assert forall|q: int| 0 <= q < 8 implies !self.data_bits()[q] by {
                    if self.data_bits()[q] {
                        assert(!dbits[q]);
                        assert(aps.subrange(have as int, aps.len() as int).contains(q as u32));
                        let x = choose|x: int|
                            0 <= x < aps.len() - have && (#[trigger] aps.subrange(
                                have as int,
                                aps.len() as int,
                            )[x]) == q as u32;
                        assert(aps[have + x] > 8);
                    }
                }
                assert forall|i1: int, j1: int, i2: int, j2: int|
                    #![trigger inode_ptr(self.nodes(), i1, j1), inode_ptr(self.nodes(), i2, j2)]
                    0 <= i1 < 80 && 0 <= j1 < 15 && 0 <= i2 < 80 && 0 <= j2 < 15 && i1 != i2
                        && inode_ptr(self.nodes(), i1, j1) > 8 && inode_ptr(self.nodes(), i2, j2)
                        > 8 implies inode_ptr(self.nodes(), i1, j1) != inode_ptr(
                    self.nodes(),
                    i2,
                    j2,
                ) by {
                    if i1 == dir {
                        lemma_write_dir_disjoint_case(
                            *old(self),
                            bs,
                            aps,
                            aps_full,
                            have as int,
                            dir as int,
                            j1,
                            i2,
                            j2,
                            inode_ptr(self.nodes(), i1, j1),
                            inode_ptr(self.nodes(), i2, j2),
                            dbits,
                        );
                    } else if i2 == dir {
                        lemma_write_dir_disjoint_case(
                            *old(self),
                            bs,
                            aps,
                            aps_full,
                            have as int,
                            dir as int,
                            j2,
                            i1,
                            j1,
                            inode_ptr(self.nodes(), i2, j2),
                            inode_ptr(self.nodes(), i1, j1),
                            dbits,
                        );
                    }
                }
                assert forall|i: int, jj: int|
                    0 <= i < 80 && 0 <= jj < 15 && #[trigger] inode_ptr(self.nodes(), i, jj) > 8
                        implies inode_ptr(self.nodes(), i, jj) < 64 && self.data_bits()[inode_ptr(
                    self.nodes(),
                    i,
                    jj,
                ) as int] by {
                    if i == dir {
                        assert(self.nodes()[i] == Some(node2@));
                        if jj < aps.len() {
                            assert(inode_ptr(self.nodes(), i, jj) == aps[jj]);
                        } else {
                            assert(inode_ptr(self.nodes(), i, jj) == 0);
                        }
                    } else {
                        assert(inode_ptr(self.nodes(), i, jj) == inode_ptr(old(self).nodes(), i, jj));
                    }
                }
                assert forall|i: int, jj: int, q: int|
                    #![trigger inode_ptr(self.nodes(), i, jj), self.data_bits()[q]]
                    0 <= i < 80 && 0 <= jj < 15 && inode_ptr(self.nodes(), i, jj) > 8 && 8 <= q
                        < inode_ptr(self.nodes(), i, jj) implies self.data_bits()[q] by {
                    if i == dir {
                        if jj < aps.len() {
                            assert(inode_ptr(self.nodes(), i, jj) == aps[jj]);
                            let p = aps[jj];
                            if jj < have {
                                // an old pointer: the region below it
                                // was already fully used
                                assert(dbits[q]);
                            } else if !dbits[q] {
                                // a new pointer: anything free below it
                                // is an earlier new block, marked by now
                                assert(p < cursor);
                                assert(aps.subrange(have as int, aps.len() as int).contains(
                                    q as u32,
                                ));
                                let x = choose|x: int|
                                    0 <= x < aps.len() - have && (#[trigger] aps.subrange(
                                        have as int,
                                        aps.len() as int,
                                    )[x]) == q as u32;
                                assert(aps[have + x] == q as u32);
                                assert(dbits1[aps[have + x] as int]);
                            }
                        }
                    } else {
                        assert(inode_ptr(self.nodes(), i, jj) == inode_ptr(old(self).nodes(), i, jj));
                    }
                }
                assert forall|i: int, j1: int, j2: int|
                    #![trigger inode_ptr(self.nodes(), i, j1), inode_ptr(self.nodes(), i, j2)]
                    0 <= i < 80 && 0 <= j1 < j2 < 15 && inode_ptr(self.nodes(), i, j1) > 8
                        && inode_ptr(self.nodes(), i, j2) > 8 implies inode_ptr(
                    self.nodes(),
                    i,
                    j1,
                ) < inode_ptr(self.nodes(), i, j2) by {
                    if i == dir {
                        assert(self.nodes()[i] == Some(node2@));
                        if j2 < aps.len() {
                            assert(inode_ptr(self.nodes(), i, j1) == aps[j1]);
                            assert(inode_ptr(self.nodes(), i, j2) == aps[j2]);
                        } else {
                            assert(inode_ptr(self.nodes(), i, j2) == 0);
                        }
                    } else {
                        assert(inode_ptr(self.nodes(), i, j1) == inode_ptr(old(self).nodes(), i, j1));
                        assert(inode_ptr(self.nodes(), i, j2) == inode_ptr(old(self).nodes(), i, j2));
                    }
                }
                if dir == 0 {
                    assert(self.nodes()[0] == Some(node2@));
                }
            }
            assert(self.disk()[SUPERBLOCK_INDEX as int] == old(self).disk()[
                SUPERBLOCK_INDEX as int
            ]);
        }
        self.flush_metadata();
        proof {
            assert(self.nodes()[dir as int] == Some(node2@));
            assert(data_ptrs(self.inode_at(dir as int).blocks) == aps);
            let kept = if aps_full.len() < aps.len() {
                aps_full.len() as int
            } else {
                aps.len() as int
            };
            assert(kept == have);
            assert(self.data_bits() == dbits1);
            assert forall|q: int|
                0 <= q < BITMAP_BITS implies self.data_bits()[q] == (dbits[q] || aps.subrange(
                have as int,
                aps.len() as int,
            ).contains(q as u32)) by {
                if aps.subrange(have as int, aps.len() as int).contains(q as u32) {
                    let x = choose|x: int|
                        0 <= x < aps.len() - have && (#[trigger] aps.subrange(
                            have as int,
                            aps.len() as int,
                        )[x]) == q as u32;
                    assert(dbits1[aps[have + x] as int]);
                }
            }
            assert forall|b: int|
                0 <= b < 64 && (b == SUPERBLOCK_INDEX || (DATA_START <= b && !aps.contains(
                    b as u32,
                ))) implies #[trigger] self.disk()[b] == old(self).disk()[b] by {
                if b >= DATA_START {
                    assert(!aps.take(needed as int).contains(b as u32)) by {
                        if aps.take(needed as int).contains(b as u32) {
                            let x = choose|x: int|
                                0 <= x < needed && (#[trigger] aps.take(needed as int)[x]) == b
                                    as u32;
                            assert(aps[x] == b as u32);
                        }
                    }
                    assert(disk1[b] == disk0[b]);
                }
            }
            assert forall|i: int|
                0 <= i < 80 && i != dir && old(self).inode_bits()[i] implies self.content_of(i)
                == old(self).content_of(i) by {
                crate::inode::lemma_group_inode_wf(old(self).inodes, i);
                let obs = old(self).inode_at(i).blocks;
                assert(self.inode_at(i) == old(self).inode_at(i));
                lemma_data_ptrs_elements(obs);
                assert forall|k: int|
                    0 <= k < data_ptrs(obs).len() implies self.disk()[#[trigger] data_ptrs(obs)[k] as int]
                    == old(self).disk()[data_ptrs(obs)[k] as int] by {
                    let j0 = choose|jx: int|
                        0 <= jx < obs.len() && (#[trigger] obs[jx]) == data_ptrs(obs)[k] && obs[jx]
                            > 8;
                    let e = obs[j0];
                    assert(inode_ptr(old(self).nodes(), i, j0) == e);
                    assert(8 < e < 64 && dbits[e as int]);
                    assert(!aps.contains(e as u32)) by {
                        if aps.contains(e as u32) {
                            let x = choose|x: int|
                                0 <= x < aps.len() && (#[trigger] aps[x]) == e as u32;
                            if x < have {
                                lemma_write_dir_disjoint_case(
                                    *old(self),
                                    bs,
                                    aps,
                                    aps_full,
                                    have as int,
                                    dir as int,
                                    x,
                                    i,
                                    j0,
                                    aps[x],
                                    e,
                                    dbits,
                                );
                            } else {
                                assert(!dbits[aps[x] as int]);
                            }
                        }
                    }
                }
                lemma_blocks_content_same(self.disk(), old(self).disk(), data_ptrs(obs));
            }
            assert forall|a: int|
                0 <= a < aps.len() implies self.disk()[#[trigger] aps[a] as int]
                == padded@.subrange(4096 * a, 4096 * a + 4096) by {}
            lemma_blocks_content_chunks(self.disk(), aps, padded@);
            crate::dir::lemma_encode_entries_no_nul(es);
            crate::dir::lemma_find_byte_is(
                crate::dir::encode_dir(es),
                0,
                crate::dir::encode_entries(es).len() as int,
            );
            assert(padded@ =~= crate::dir::encode_dir(es) + padded@.skip(
                crate::dir::encode_dir(es).len() as int,
            ));
            crate::dir::lemma_parse_dir_pad(
                crate::dir::encode_dir(es),
                padded@.skip(crate::dir::encode_dir(es).len() as int),
            );
            crate::dir::lemma_dir_roundtrip(es);
        }
        Ok(())
    }

    /// The directory records of the entity at inode `inum`; fails with
    /// `DoesNotExist` when no such inode is allocated and with
    /// `InvalidBlock` exactly when its content does not parse.
    pub fn read_dir(&self, inum: u32) -> (r: Result<Vec<(Vec<u8>, u32)>, SFSError>)
        requires
            self.wf(),
        ensures
            match r {
                Ok(es) => inum < 80 && self.inode_bits()[inum as int] && self.entries_of(
                    inum as int,
                ) == Some(entries_v(es@)),
                Err(e) => (e == SFSError::DoesNotExist && (inum >= 80 || !self.inode_bits()[
                    inum as int
                ])) || (e == SFSError::InvalidBlock && inum < 80 && self.inode_bits()[inum as int]
                    && self.entries_of(inum as int) is None),
            },
    {
        let content = match self.read_file(inum) {
            Ok(c) => c,
            Err(e) => {
                return Err(e);
            },
        };
        crate::dir::parse_dir_bytes(&content)
    }

    /// Two filesystem values carry the same observable state.
    pub open spec fn state_eq(a: SFS<T>, b: SFS<T>) -> bool {
        &&& a.sb() == b.sb()
        &&& a.nodes() == b.nodes()
        &&& a.inode_bits() == b.inode_bits()
        &&& a.data_bits() == b.data_bits()
        &&& a.disk() == b.disk()
    }

    /// Walk path components from `inum` through the directory tree.
    pub open spec fn resolve(&self, inum: u32, comps: Seq<Seq<u8>>) -> Resolution
        decreases comps.len(),
    {
        if comps.len() == 0 {
            Resolution::Found(inum)
        } else if inum >= 80 || !self.inode_bits()[inum as int] {
            Resolution::Absent
        } else {
            match self.entries_of(inum as int) {
                None => Resolution::Malformed,
                Some(es) => match find_entry(es, comps[0]) {
                    Some(n) => self.resolve(n, comps.drop_first()),
                    None => if comps.len() > 1 {
                        Resolution::MissingMid
                    } else {
                        Resolution::MissingFinal(inum)
                    },
                },
            }
        }
    }

    /// Allocate a fresh inode and record it in the directory at
    /// `dirno` under `name`.
    fn create_in(&mut self, dirno: u32, name: &Vec<u8>) -> (r: Result<u32, SFSError>)
        requires
            old(self).wf(),
        ensures
            final(self).wf(),
            final(self).sb() == old(self).sb(),
            !valid_name(name@) ==> r == Err::<u32, SFSError>(SFSError::InvalidArgument)
                && Self::state_eq(*final(self), *old(self)),
            valid_name(name@) && (dirno >= 80 || !old(self).inode_bits()[dirno as int]) ==> r
                == Err::<u32, SFSError>(SFSError::DoesNotExist) && Self::state_eq(
                *final(self),
                *old(self),
            ),
            valid_name(name@) && dirno < 80 && old(self).inode_bits()[dirno as int] ==> match old(
                self,
            ).entries_of(dirno as int) {
                None => r == Err::<u32, SFSError>(SFSError::InvalidBlock) && Self::state_eq(
                    *final(self),
                    *old(self),
                ),
                Some(es) => if !valid_entries(es) {
                    r == Err::<u32, SFSError>(SFSError::InvalidBlock) && Self::state_eq(
                        *final(self),
                        *old(self),
                    )
                } else {
                    match r {
                        Ok(n) => {
                            &&& n < 80
                            &&& !old(self).inode_bits()[n as int]
                            &&& forall|j: int| 0 <= j < n ==> old(self).inode_bits()[j]
                            &&& final(self).inode_bits() == old(self).inode_bits().update(
                                n as int,
                                true,
                            )
                            &&& final(self).entries_of(dirno as int) == Some(
                                upsert_entries(es, name@, n),
                            )
                            &&& final(self).nodes()[n as int] == Some(file_inode_v())
                            &&& forall|i: int|
                                0 <= i < 80 && i != n && i != dirno ==> final(self).nodes()[i]
                                    == old(self).nodes()[i]
                        },
                        Err(e) => {
                            &&& e == SFSError::OutOfSpace
                            &&& Self::state_eq(*final(self), *old(self))
                            &&& forall|n: int|
                                0 <= n < 80 && !old(self).inode_bits()[n] && (forall|j: int|
                                    0 <= j < n ==> old(self).inode_bits()[j]) ==> (dir_needed(
                                    upsert_entries(es, name@, n as u32),
                                ) > 15 || crate::bitmap::count_free(old(self).data_bits(), 8, 64)
                                    < dir_needed(upsert_entries(es, name@, n as u32)) - data_ptrs(
                                    old(self).inode_at(dirno as int).blocks,
                                ).len())
                        },
                    }
                },
            },
    {
        if !check_name(name) {
            return Err(SFSError::InvalidArgument);
        }
        let mut entries = match self.read_dir(dirno) {
            Ok(es) => es,
            Err(e) => {
                return Err(e);
            },
        };
        let ghost es = entries_v(entries@);
        // Every held name must be writable again.
        let mut i: usize = 0;
        while i < entries.len()
            invariant
                self.wf(),
                *self == *old(self),
                valid_name(name@),
                dirno < 80,
                old(self).inode_bits()[dirno as int],
                old(self).entries_of(dirno as int) == Some(es),
                es == entries_v(entries@),
                i <= entries@.len(),
                forall|j: int| 0 <= j < i ==> valid_name((#[trigger] es[j]).0),
            decreases entries@.len() - i,
        {
            if !check_name(&entries[i].0) {
                proof {
                    assert(es[i as int].0 == entries@[i as int].0@);
                    assert(!valid_entries(es));
                }
                return Err(SFSError::InvalidBlock);
            }
            i += 1;
        }
        proof {
            assert(valid_entries(es));
        }
        // Pick the inode number without reserving it: a failing
        // directory write must leave the state untouched.
        let created = match self.inodes.allocations().next_free(0, crate::inode::INODE_COUNT) {
            Ok(n) => n as u32,
            Err(_) => {
                return Err(SFSError::OutOfSpace);
            },
        };
        let name_copy = crate::bytes::clone_bytes(name);
        crate::dir::upsert(&mut entries, name_copy, created);
        proof {
            assert(valid_entries(upsert_entries(es, name@, created))) by {
                let up = upsert_entries(es, name@, created);
                crate::dir::lemma_entry_index_bounds(es, name@);
                assert forall|k: int| 0 <= k < up.len() implies valid_name(#[trigger] up[k].0) by {
                    crate::dir::lemma_entry_index_bounds(es, name@);
                    if crate::dir::entry_index(es, name@) == es.len() {
                        if k < es.len() {
                            assert(up[k] == es[k]);
                        }
                    } else {
                        if k != crate::dir::entry_index(es, name@) {
                            assert(up[k] == es[k]);
                        }
                    }
                }
            }
        }
        match self.write_dir(dirno, &entries) {
            Ok(()) => {},
            Err(_) => {
                proof {
                    assert forall|n: int|
                        0 <= n < 80 && !old(self).inode_bits()[n] && (forall|j: int|
                            0 <= j < n ==> old(self).inode_bits()[j]) implies n == created by {
                        if n < created {
                            assert(old(self).inode_bits()[n]);
                        } else if n > created {
                            assert(!old(self).inode_bits()[created as int]);
                        }
                    }
                }
                proof {
                    assert(self.wf()) by {
                        assert(self.disk() == old(self).disk());
                        assert(self.data_raw() == old(self).data_raw());
                        assert(self.inode_raw() == old(self).inode_raw());
                        assert(self.nodes() == old(self).nodes());
                        assert(self.inode_bits() == old(self).inode_bits());
                    }
                }
                return Err(SFSError::OutOfSpace);
            },
        }
        // The write went through: reserve the chosen inode and persist
        // the inode metadata.
        let ghost mid = *self;
        let created2 = match self.inodes.allocate_file() {
            Ok(n) => n,
            Err(_) => {
                proof {
                    assert(false);
                }
                return Err(SFSError::OutOfSpace);
            },
        };
        proof {
            assert(created2 == created) by {
                if created2 < created {
                    assert(mid.inode_bits()[created2 as int]);
                } else if created2 > created {
                    assert(!mid.inode_bits()[created as int]);
                }
            }
            crate::inode::lemma_nodes_v_len(mid.inodes);
            assert(created != 0);
            assert(created != dirno);
            assert(sb_decode(self.disk()[SUPERBLOCK_INDEX as int]) == self.sb());
            assert(self.mem_wf()) by {
                assert forall|i: int, jj: int|
                    0 <= i < 80 && 0 <= jj < 15 implies #[trigger] inode_ptr(self.nodes(), i, jj)
                    == (if i == created {
                    0u32
                } else {
                    inode_ptr(mid.nodes(), i, jj)
                }) by {
                    if i == created {
                        assert(self.nodes()[i] == Some(file_inode_v()));
                    }
                }
                assert(self.inode_bits() == mid.inode_bits().update(created as int, true));
                assert(self.inode_bits()[0]);
                assert(self.nodes()[0] == mid.nodes()[0]);
            }
            assert(self.content_of(dirno as int) == mid.content_of(dirno as int));
        }
        self.flush_metadata();
        proof {
            assert(self.entries_of(dirno as int) == Some(upsert_entries(es, name@, created)));
        }
        Ok(created)
    }

    /// Open the entity at `path`, walking the directory tree from the
    /// root. `RO` returns the found inode, failing with `DoesNotExist`
    /// when the final component is absent; `CREATE` allocates a fresh
    /// inode and records it under the final component; a path not
    /// starting with `/`, or missing an intermediate component, fails
    /// with `InvalidArgument`; the remaining modes are not provided
    /// and fail with `Unimplemented`.
    pub fn open(&mut self, path: &str, mode: OpenMode) -> (r: Result<u32, SFSError>)
        requires
            old(self).wf(),
        ensures
            final(self).wf(),
            ({
                let pb = path.spec_bytes();
                let comps = split_comps(pb);
                if pb.len() == 0 || pb[0] != SEP_SLASH {
                    r == Err::<u32, SFSError>(SFSError::InvalidArgument) && Self::state_eq(
                        *final(self),
                        *old(self),
                    )
                } else {
                    match mode {
                        OpenMode::CREATE => match old(self).resolve(0, comps) {
                            Resolution::MissingMid => r == Err::<u32, SFSError>(
                                SFSError::InvalidArgument,
                            ) && Self::state_eq(*final(self), *old(self)),
                            Resolution::Absent => r == Err::<u32, SFSError>(SFSError::DoesNotExist)
                                && Self::state_eq(*final(self), *old(self)),
                            Resolution::Malformed => r == Err::<u32, SFSError>(
                                SFSError::InvalidBlock,
                            ) && Self::state_eq(*final(self), *old(self)),
                            Resolution::Found(_) => comps.len() == 0 ==> r == Err::<
                                u32,
                                SFSError,
                            >(SFSError::InvalidArgument) && Self::state_eq(
                                *final(self),
                                *old(self),
                            ),
                            Resolution::MissingFinal(_) => true,
                        },
                        _ => Self::state_eq(*final(self), *old(self)) && (match old(self).resolve(
                            0,
                            comps,
                        ) {
                            Resolution::Found(t) => r == (if mode is RO {
                                Ok::<u32, SFSError>(t)
                            } else {
                                Err::<u32, SFSError>(SFSError::Unimplemented)
                            }),
                            Resolution::MissingFinal(_) => r == Err::<u32, SFSError>(
                                SFSError::DoesNotExist,
                            ),
                            Resolution::MissingMid => r == Err::<u32, SFSError>(
                                SFSError::InvalidArgument,
                            ),
                            Resolution::Absent => r == Err::<u32, SFSError>(
                                SFSError::DoesNotExist,
                            ),
                            Resolution::Malformed => r == Err::<u32, SFSError>(
                                SFSError::InvalidBlock,
                            ),
                        }),
                    }
                }
            }),
            ({
                let pb = path.spec_bytes();
                let comps = split_comps(pb);
                mode is CREATE && pb.len() > 0 && pb[0] == SEP_SLASH && comps.len() > 0 && (
                old(self).resolve(0, comps) matches Resolution::Found(_) || old(self).resolve(
                    0,
                    comps,
                ) matches Resolution::MissingFinal(_)) ==> {
                    let t = match old(self).resolve(0, comps) {
                        Resolution::Found(t0) => t0,
                        Resolution::MissingFinal(t0) => t0,
                        _ => 0u32,
                    };
                    let name = comps.last();
                    if !valid_name(name) {
                        r == Err::<u32, SFSError>(SFSError::InvalidArgument) && Self::state_eq(
                            *final(self),
                            *old(self),
                        )
                    } else if t >= 80 || !old(self).inode_bits()[t as int] {
                        r == Err::<u32, SFSError>(SFSError::DoesNotExist) && Self::state_eq(
                            *final(self),
                            *old(self),
                        )
                    } else {
                        match old(self).entries_of(t as int) {
                            None => r == Err::<u32, SFSError>(SFSError::InvalidBlock)
                                && Self::state_eq(*final(self), *old(self)),
                            Some(es) => if !valid_entries(es) {
                                r == Err::<u32, SFSError>(SFSError::InvalidBlock) && Self::state_eq(
                                    *final(self),
                                    *old(self),
                                )
                            } else {
                                match r {
                                    Ok(n) => {
                                        &&& n < 80
                                        &&& !old(self).inode_bits()[n as int]
                                        &&& forall|j: int| 0 <= j < n ==> old(self).inode_bits()[j]
                                        &&& final(self).inode_bits() == old(
                                            self,
                                        ).inode_bits().update(n as int, true)
                                        &&& final(self).entries_of(t as int) == Some(
                                            upsert_entries(es, name, n),
                                        )
                                        &&& final(self).nodes()[n as int] == Some(file_inode_v())
                                        &&& forall|i: int|
                                            0 <= i < 80 && i != n && i != t ==> final(self).nodes()[i] == old(self).nodes()[i]
                                    },
                                    Err(e) => {
                                        &&& e == SFSError::OutOfSpace
                                        &&& Self::state_eq(*final(self), *old(self))
                                        &&& forall|n: int|
                                            0 <= n < 80 && !old(self).inode_bits()[n] && (forall|
                                                j: int,
                                            |
                                                0 <= j < n ==> old(self).inode_bits()[j]) ==> (
                                            dir_needed(upsert_entries(es, name, n as u32)) > 15
                                                || crate::bitmap::count_free(
                                                old(self).data_bits(),
                                                8,
                                                64,
                                            ) < dir_needed(upsert_entries(es, name, n as u32))
                                                - data_ptrs(old(self).inode_at(t as int).blocks).len())
                                    },
                                }
                            },
                        }
                    }
                }
            }),
    {
        let pb = vstd::slice::slice_to_vec(path.as_bytes());
        if pb.len() == 0 {
            return Err(SFSError::InvalidArgument);
        }
        if pb[0] != SEP_SLASH {
            return Err(SFSError::InvalidArgument);
        }
        let comps = collect_comps(&pb, 0);
        let ghost cv = split_comps(pb@);
        proof {
            assert(pb@.skip(0) =~= pb@);
        }
        let mut inum: u32 = 0;
        let mut idx: usize = 0;
        proof {
            assert(cv.skip(0) =~= cv);
        }
        while idx < comps.len()
            invariant
                self.wf(),
                *self == *old(self),
                path.spec_bytes().len() > 0,
                path.spec_bytes()[0] == SEP_SLASH,
                cv == split_comps(path.spec_bytes()),
                comps_v(comps@) == cv,
                idx <= comps@.len(),
                old(self).resolve(0, cv) == old(self).resolve(inum, cv.skip(idx as int)),
            decreases comps@.len() - idx,
        {
            let es = match self.read_dir(inum) {
                Ok(es) => es,
                Err(e) => {
                    proof {
                        assert(cv.skip(idx as int).len() > 0);
                    }
                    return Err(e);
                },
            };
            match crate::dir::lookup(&es, &comps[idx]) {
                Some(n) => {
                    proof {
                        assert(cv.skip(idx as int)[0] == cv[idx as int]);
                        assert(cv.skip(idx as int).drop_first() =~= cv.skip(idx as int + 1));
                    }
                    inum = n;
                    idx += 1;
                },
                None => {
                    proof {
                        assert(cv.skip(idx as int)[0] == cv[idx as int]);
                    }
                    if idx + 1 < comps.len() {
                        return Err(SFSError::InvalidArgument);
                    }
                    proof {
                        assert(cv.skip(idx as int).len() == 1);
                        assert(cv.last() == cv[idx as int]);
                    }
                    match mode {
                        OpenMode::CREATE => {
                            return self.create_in(inum, &comps[idx]);
                        },
                        _ => {
                            return Err(SFSError::DoesNotExist);
                        },
                    }
                },
            }
        }
        proof {
            assert(cv.skip(comps@.len() as int) =~= Seq::<Seq<u8>>::empty());
        }
        match mode {
            OpenMode::RO => Ok(inum),
            OpenMode::CREATE => {
                if comps.len() == 0 {
                    return Err(SFSError::InvalidArgument);
                }
                proof {
                    assert(cv.last() == comps_v(comps@).last());
                }
                self.create_in(inum, &comps[comps.len() - 1])
            },
            _ => Err(SFSError::Unimplemented),
        }
    }

    /// Hand the backing device back, giving up the filesystem.
    pub fn into_storage(self) -> (r: T)
        ensures
            r.blocks() == self.disk(),
            self.wf() ==> storage_wf(&r),
    {
        self.dev
    }

    /// How many inodes are allocated.
    pub fn total_allocated(&self) -> (r: u32)
        requires
            self.wf(),
        ensures
            r == crate::inode::count_allocated(self.inode_bits(), 80),
    {
        self.inodes.total_allocated()
    }

    /// The bridge's mount request: nothing to prepare.
    pub fn init(&self) -> (r: Result<(), SFSError>)
        ensures
            r is Ok,
    {
        Ok(())
    }

    /// Attributes for the bridge's `getattr`: directory-type
    /// attributes with zeroed sizes and timestamps, echoing the inode
    /// number (the current minimal behavior).
    pub fn getattr(&self, ino: u64) -> (r: FileAttributes)
        ensures
            r.ino == ino,
            r.is_dir,
            r.size == 0 && r.blocks == 0 && r.perm == 0 && r.nlink == 0 && r.uid == 0 && r.gid == 0
                && r.rdev == 0 && r.flags == 0,
            r.atime_sec == 0 && r.atime_nsec == 0 && r.mtime_sec == 0 && r.mtime_nsec == 0
                && r.ctime_sec == 0 && r.ctime_nsec == 0 && r.crtime_sec == 0 && r.crtime_nsec
                == 0,
    {
        FileAttributes {
            ino,
            size: 0,
            blocks: 0,
            atime_sec: 0,
            atime_nsec: 0,
            mtime_sec: 0,
            mtime_nsec: 0,
            ctime_sec: 0,
            ctime_nsec: 0,
            crtime_sec: 0,
            crtime_nsec: 0,
            is_dir: true,
            perm: 0,
            nlink: 0,
            uid: 0,
            gid: 0,
            rdev: 0,
            flags: 0,
        }
    }

    /// Entries for the bridge's `readdir`. The bridge numbers inodes
    /// from 1, so `ino` is translated down by one; a missing or
    /// malformed directory fails as `read_dir` does. From offset 0 the
    /// listing is the canned self and parent entries; from offset 2 on
    /// it is over.
    pub fn readdir(&self, ino: u64, offset: i64) -> (r: Result<Vec<(u64, i64, Vec<u8>)>, SFSError>)
        requires
            self.wf(),
            ino >= 1,
        ensures
            match r {
                Ok(es) => ino - 1 < 80 && self.inode_bits()[ino - 1] && (offset >= 2 ==> es@.len()
                    == 0) && (offset < 2 ==> es@.len() == 2 && es@[0].0 == 1 && es@[0].1 == 1
                    && es@[0].2@ == seq![46u8] && es@[1].0 == 1 && es@[1].1 == 2 && es@[1].2@
                    == seq![46u8, 46u8]),
                Err(e) => (e == SFSError::DoesNotExist && (ino - 1 >= 80 || !self.inode_bits()[ino
                    - 1])) || (e == SFSError::InvalidBlock && ino - 1 < 80 && self.inode_bits()[ino
                    - 1] && self.entries_of(ino - 1) is None),
            },
    {
        let inum = ino - 1;
        if inum >= 80 {
            return Err(SFSError::DoesNotExist);
        }
        match self.read_dir(inum as u32) {
            Ok(_) => (),
            Err(e) => {
                return Err(e);
            },
        }
        let mut es: Vec<(u64, i64, Vec<u8>)> = Vec::new();
        if offset >= 2 {
            return Ok(es);
        }
        let mut dot: Vec<u8> = Vec::new();
        dot.push(46);
        let mut dotdot: Vec<u8> = Vec::new();
        dotdot.push(46);
        dotdot.push(46);
        proof {
            assert(dot@ =~= seq![46u8]);
            assert(dotdot@ =~= seq![46u8, 46u8]);
        }
        es.push((1, 1, dot));
        es.push((1, 2, dotdot));
        Ok(es)
    }
}

/// Remount round-trip: the inode table a consistent volume's disk
/// describes is exactly the in-memory table — allocated slots decode
/// back bit for bit, free slots stay absent — and such a volume
/// passes the mount checks again.
pub proof fn lemma_remount_roundtrip<T: BlockStorage>(fs: SFS<T>)
    requires
        fs.wf(),
    ensures
        mount_nodes(fs.disk()) == fs.nodes(),
        mountable(fs.disk()),
        bits_of(fs.disk()[INODE_BMP as int]) == fs.inode_bits(),
        normalized_data_bits(fs.disk()[DATA_REGION_BMP as int]) == fs.data_bits(),
{
    assert(normalized_data_bits(fs.disk()[DATA_REGION_BMP as int]) =~= fs.data_bits());
    crate::inode::lemma_group_bits_raw(fs.inodes);
    crate::inode::lemma_nodes_v_len(fs.inodes);
    assert forall|i: int|
        0 <= i < 80 implies mount_nodes(fs.disk())[i] == fs.nodes()[i] by {
        assert(fs.inode_bits()[i] == bit_of_bytes(fs.disk()[INODE_BMP as int], i));
        if fs.inode_bits()[i] {
            assert(fs.nodes()[i] == Some(inode_decode(slot_disk(fs.disk(), i))));
        } else {
            assert(fs.nodes()[i] is None);
        }
    }
    assert(mount_nodes(fs.disk()) =~= fs.nodes());
    assert(fs.nodes()[0] == Some(inode_decode(slot_disk(fs.disk(), 0))));
}

/// A consistent filesystem sits on a whole 64-block, 4096-byte-block
/// volume — enough for a caller to hand the device on to
/// `from_block_storage` again.
pub proof fn lemma_wf_exposes<T: BlockStorage>(fs: SFS<T>)
    requires
        fs.wf(),
    ensures
        fs.disk().len() == VOLUME_BLOCKS,
        forall|b: int| 0 <= b < VOLUME_BLOCKS ==> (#[trigger] fs.disk()[b]).len() == BLOCK_SIZE,
{
}

/// Every data-block pointer above 8 held by any inode is marked used
/// in the data bitmap, and addresses the 64-block volume.
pub proof fn lemma_pointers_marked<T: BlockStorage>(fs: SFS<T>, i: int, j: int)
    requires
        fs.wf(),
        0 <= i < 80,
        0 <= j < 15,
        inode_ptr(fs.nodes(), i, j) > 8,
    ensures
        inode_ptr(fs.nodes(), i, j) < 64,
        fs.data_bits()[inode_ptr(fs.nodes(), i, j) as int],
{
}

} // verus!
