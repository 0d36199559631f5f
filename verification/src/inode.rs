//! Inodes: fixed 256-byte packed records, and the group that owns the
//! 80-entry table together with its allocation bitmap.

use vstd::prelude::*;
use vstd::pervasive::VecAdditionalExecFns;
use crate::bitmap::{Bitmap, BITMAP_BITS};
use crate::bytes::{
    push_u16_le, push_u32_le, read_u16_le, read_u32_le, u16_le, u16_from_le, u32_le, u32_from_le,
    u32s_le, zero_bytes, zeros, chunk256, lemma_u16_le_roundtrip, lemma_u32_le_roundtrip, lemma_u32s_le_len,
    lemma_u32s_le_index,
};
use crate::error::SFSError;

verus! {

/// Bytes in a serialized inode.
pub const INODE_BYTES: usize = 256;

/// Direct block pointers per inode.
pub const INODE_BLOCKS: usize = 15;

/// Inodes in the table: five blocks of sixteen inodes each.
pub const INODE_COUNT: usize = 80;

/// Inodes per 4096-byte block.
pub const INODES_PER_BLOCK: usize = 16;

/// Number of inode blocks on disk.
pub const INODE_BLOCK_COUNT: usize = 5;

/// Mode bits marking a directory.
pub const MODE_DIR: u16 = 0x4000;

/// Mode bits marking a regular file.
pub const MODE_FILE: u16 = 0x8000;

/// One filesystem entity: a file or a directory. The `blocks` vector
/// holds fifteen direct pointers; a value of at most 8 is an
/// unallocated slot, values above 8 address data blocks.
pub struct Inode {
    pub mode: u16,
    pub uid: u16,
    pub gid: u16,
    pub links_count: u16,
    pub size: u32,
    pub create_time: u32,
    pub update_time: u32,
    pub access_time: u32,
    pub blocks: Vec<u32>,
}

/// The mathematical value of an inode.
#[verifier::ext_equal]
pub struct InodeV {
    pub mode: u16,
    pub uid: u16,
    pub gid: u16,
    pub links_count: u16,
    pub size: u32,
    pub create_time: u32,
    pub update_time: u32,
    pub access_time: u32,
    pub blocks: Seq<u32>,
}

impl View for Inode {
    type V = InodeV;

    open spec fn view(&self) -> InodeV {
        InodeV {
            mode: self.mode,
            uid: self.uid,
            gid: self.gid,
            links_count: self.links_count,
            size: self.size,
            create_time: self.create_time,
            update_time: self.update_time,
            access_time: self.access_time,
            blocks: self.blocks@,
        }
    }
}

/// The 256-byte packed image of an inode: eight header fields
/// little-endian, 172 reserved zero bytes, then the fifteen block
/// pointers.
pub open spec fn inode_encode(v: InodeV) -> Seq<u8> {
    u16_le(v.mode) + u16_le(v.uid) + u16_le(v.gid) + u16_le(v.links_count) + u32_le(v.size)
        + u32_le(v.create_time) + u32_le(v.update_time) + u32_le(v.access_time) + zeros(172)
        + u32s_le(v.blocks)
}

/// The inode read back from the first 256 bytes of an image.
pub open spec fn inode_decode(b: Seq<u8>) -> InodeV {
    InodeV {
        mode: u16_from_le(b[0], b[1]),
        uid: u16_from_le(b[2], b[3]),
        gid: u16_from_le(b[4], b[5]),
        links_count: u16_from_le(b[6], b[7]),
        size: u32_from_le(b[8], b[9], b[10], b[11]),
        create_time: u32_from_le(b[12], b[13], b[14], b[15]),
        update_time: u32_from_le(b[16], b[17], b[18], b[19]),
        access_time: u32_from_le(b[20], b[21], b[22], b[23]),
        blocks: Seq::new(15, |i: int|
            u32_from_le(b[196 + 4 * i], b[197 + 4 * i], b[198 + 4 * i], b[199 + 4 * i])),
    }
}

/// An inode value carries exactly fifteen block pointers.
pub open spec fn inode_v_wf(v: InodeV) -> bool {
    v.blocks.len() == INODE_BLOCKS
}

/// The root directory inode as created at format time: directory mode,
/// every other field zero, and the first pointer naming block 8.
pub open spec fn root_inode_v() -> InodeV {
    InodeV {
        mode: MODE_DIR,
        uid: 0,
        gid: 0,
        links_count: 0,
        size: 0,
        create_time: 0,
        update_time: 0,
        access_time: 0,
        blocks: Seq::new(15, |i: int| if i == 0 { 8u32 } else { 0u32 }),
    }
}

/// A freshly allocated non-root inode: regular-file mode, every other
/// field zero, no block pointers.
pub open spec fn file_inode_v() -> InodeV {
    InodeV {
        mode: MODE_FILE,
        uid: 0,
        gid: 0,
        links_count: 0,
        size: 0,
        create_time: 0,
        update_time: 0,
        access_time: 0,
        blocks: Seq::new(15, |i: int| 0u32),
    }
}

/// Decoding an encoded inode, with any bytes following it, yields the
/// inode again.
pub proof fn lemma_inode_roundtrip(v: InodeV, tail: Seq<u8>)
    requires
        inode_v_wf(v),
    ensures
        inode_encode(v).len() == INODE_BYTES,
        inode_decode(inode_encode(v) + tail) == v,
{
    lemma_u32s_le_len(v.blocks);
    let e = inode_encode(v) + tail;
    lemma_u16_le_roundtrip(v.mode);
    lemma_u16_le_roundtrip(v.uid);
    lemma_u16_le_roundtrip(v.gid);
    lemma_u16_le_roundtrip(v.links_count);
    lemma_u32_le_roundtrip(v.size);
    lemma_u32_le_roundtrip(v.create_time);
    lemma_u32_le_roundtrip(v.update_time);
    lemma_u32_le_roundtrip(v.access_time);
    assert forall|i: int| 0 <= i < 15 implies inode_decode(e).blocks[i] == v.blocks[i] by {
        lemma_u32s_le_index(v.blocks, i, 0);
        lemma_u32s_le_index(v.blocks, i, 1);
        lemma_u32s_le_index(v.blocks, i, 2);
        lemma_u32s_le_index(v.blocks, i, 3);
        assert(e[196 + 4 * i] == u32s_le(v.blocks)[4 * i + 0]);
        assert(e[197 + 4 * i] == u32s_le(v.blocks)[4 * i + 1]);
        assert(e[198 + 4 * i] == u32s_le(v.blocks)[4 * i + 2]);
        assert(e[199 + 4 * i] == u32s_le(v.blocks)[4 * i + 3]);
        lemma_u32_le_roundtrip(v.blocks[i]);
    }
    assert(inode_decode(e).blocks =~= v.blocks);
    assert(inode_decode(e) =~= v);
}

impl Inode {
    /// An inode holds exactly fifteen block pointers.
    pub open spec fn wf(&self) -> bool {
        inode_v_wf(self@)
    }

    /// A copy of this inode.
    pub fn duplicate(&self) -> (r: Inode)
        ensures
            r@ == self@,
    {
        let mut blocks: Vec<u32> = Vec::new();
        let mut i: usize = 0;
        while i < self.blocks.len()
            invariant
                i <= self.blocks@.len(),
                blocks@ == self.blocks@.take(i as int),
            decreases self.blocks@.len() - i,
        {
            blocks.push(self.blocks[i]);
            i += 1;
            proof {
                assert(blocks@ =~= self.blocks@.take(i as int));
            }
        }
        proof {
            assert(blocks@ =~= self.blocks@);
        }
        let r = Inode {
            mode: self.mode,
            uid: self.uid,
            gid: self.gid,
            links_count: self.links_count,
            size: self.size,
            create_time: self.create_time,
            update_time: self.update_time,
            access_time: self.access_time,
            blocks,
        };
        proof {
            assert(r@ =~= self@);
        }
        r
    }

    /// The root directory inode as created at format time.
    pub fn new_root() -> (r: Inode)
        ensures
            r@ == root_inode_v(),
            r.wf(),
    {
        let mut blocks: Vec<u32> = zero_u32s(INODE_BLOCKS);
        blocks.set(0, 8);
        let r = Inode {
            mode: MODE_DIR,
            uid: 0,
            gid: 0,
            links_count: 0,
            size: 0,
            create_time: 0,
            update_time: 0,
            access_time: 0,
            blocks,
        };
        proof {
            assert(r@.blocks =~= root_inode_v().blocks);
            assert(r@ =~= root_inode_v());
        }
        r
    }

    /// A freshly allocated non-root inode.
    pub fn new_file() -> (r: Inode)
        ensures
            r@ == file_inode_v(),
            r.wf(),
    {
        let blocks: Vec<u32> = zero_u32s(INODE_BLOCKS);
        let r = Inode {
            mode: MODE_FILE,
            uid: 0,
            gid: 0,
            links_count: 0,
            size: 0,
            create_time: 0,
            update_time: 0,
            access_time: 0,
            blocks,
        };
        proof {
            assert(r@.blocks =~= file_inode_v().blocks);
            assert(r@ =~= file_inode_v());
        }
        r
    }

    /// The 256-byte on-disk image of this inode.
    pub fn encode(&self) -> (r: Vec<u8>)
        requires
            self.wf(),
        ensures
            r@ == inode_encode(self@),
            r@.len() == INODE_BYTES,
    {
        let mut out: Vec<u8> = Vec::new();
        push_u16_le(&mut out, self.mode);
        push_u16_le(&mut out, self.uid);
        push_u16_le(&mut out, self.gid);
        push_u16_le(&mut out, self.links_count);
        push_u32_le(&mut out, self.size);
        push_u32_le(&mut out, self.create_time);
        push_u32_le(&mut out, self.update_time);
        push_u32_le(&mut out, self.access_time);
        let mut pad = zero_bytes(172);
        out.append(&mut pad);
        proof {
            assert(out@ =~= u16_le(self.mode) + u16_le(self.uid) + u16_le(self.gid) + u16_le(
                self.links_count,
            ) + u32_le(self.size) + u32_le(self.create_time) + u32_le(self.update_time) + u32_le(
                self.access_time,
            ) + zeros(172));
        }
        let ghost head = out@;
        let mut i: usize = 0;
        while i < INODE_BLOCKS
            invariant
                self.wf(),
                i <= INODE_BLOCKS,
                out@ == head + u32s_le(self.blocks@.take(i as int)),
            decreases INODE_BLOCKS - i,
        {
            push_u32_le(&mut out, self.blocks[i]);
            i += 1;
            proof {
                assert(self.blocks@.take(i as int).drop_last() =~= self.blocks@.take(i as int - 1));
                assert(out@ =~= head + u32s_le(self.blocks@.take(i as int)));
            }
        }
        proof {
            assert(self.blocks@.take(INODE_BLOCKS as int) =~= self.blocks@);
            assert(out@ =~= inode_encode(self@));
            lemma_u32s_le_len(self.blocks@);
        }
        out
    }

    /// The inode decoded from 256 bytes at offset `off` of a block
    /// image.
    pub fn decode(block: &Vec<u8>, off: usize) -> (r: Inode)
        requires
            off + INODE_BYTES <= block@.len(),
            block@.len() <= usize::MAX,
        ensures
            r@ == inode_decode(block@.subrange(off as int, off as int + INODE_BYTES)),
            r.wf(),
    {
        let ghost sub = block@.subrange(off as int, off as int + INODE_BYTES);
        let mut blocks: Vec<u32> = Vec::new();
        let mut i: usize = 0;
        while i < INODE_BLOCKS
            invariant
                off + INODE_BYTES <= block@.len(),
                block@.len() <= usize::MAX,
                sub == block@.subrange(off as int, off as int + INODE_BYTES),
                i <= INODE_BLOCKS,
                blocks@.len() == i,
                forall|k: int|
                    0 <= k < i ==> blocks@[k] == u32_from_le(
                        sub[196 + 4 * k],
                        sub[197 + 4 * k],
                        sub[198 + 4 * k],
                        sub[199 + 4 * k],
                    ),
            decreases INODE_BLOCKS - i,
        {
            blocks.push(read_u32_le(block, off + 196 + 4 * i));
            i += 1;
        }
        let r = Inode {
            mode: read_u16_le(block, off),
            uid: read_u16_le(block, off + 2),
            gid: read_u16_le(block, off + 4),
            links_count: read_u16_le(block, off + 6),
            size: read_u32_le(block, off + 8),
            create_time: read_u32_le(block, off + 12),
            update_time: read_u32_le(block, off + 16),
            access_time: read_u32_le(block, off + 20),
            blocks,
        };
        proof {
            assert(r@.blocks =~= inode_decode(sub).blocks);
            assert(r@ =~= inode_decode(sub));
        }
        r
    }
}

/// The pool of 80 inodes, their allocation bitmap, and the per-block
/// (de)serialization logic.
pub struct InodeGroup {
    nodes: Vec<Option<Inode>>,
    alloc: Bitmap,
}

impl InodeGroup {
    /// The mathematical value of each table slot.
    pub closed spec fn nodes_v(&self) -> Seq<Option<InodeV>> {
        Seq::new(
            INODE_COUNT as nat,
            |i: int|
                match self.nodes@[i] {
                    Some(n) => Some(n@),
                    None => None,
                },
        )
    }

    /// The allocation bitmap's bits.
    pub closed spec fn bits(&self) -> Seq<bool> {
        self.alloc@
    }

    /// The allocation bitmap's raw one-block image.
    pub closed spec fn alloc_raw(&self) -> Seq<u8> {
        self.alloc.raw()
    }

    /// Sizes are right and every held inode is well formed; the link
    /// between bitmap and table may not hold yet (a group still being
    /// loaded block by block).
    pub closed spec fn wf_basic(&self) -> bool {
        &&& self.nodes@.len() == INODE_COUNT
        &&& self.alloc.wf()
        &&& forall|i: int|
            0 <= i < INODE_COUNT ==> (#[trigger] self.nodes_v()[i] matches Some(v) ==> inode_v_wf(
                v,
            ))
    }

    /// A bitmap bit is set exactly when its table slot holds an inode.
    pub open spec fn linked(&self) -> bool {
        forall|i: int| 0 <= i < INODE_COUNT ==> (self.bits()[i] <==> self.nodes_v()[i] is Some)
    }

    /// A fully loaded, consistent group.
    pub open spec fn wf(&self) -> bool {
        self.wf_basic() && self.linked()
    }

    /// The 256-byte image slot `i` serializes to: the encoded inode
    /// when allocated, zeroes when free.
    pub open spec fn slot_image(&self, i: int) -> Seq<u8> {
        match self.nodes_v()[i] {
            Some(v) => inode_encode(v),
            None => zeros(INODE_BYTES as int),
        }
    }

    /// Construct an empty group over a fresh bitmap, pre-populating
    /// inode 0 as the root directory and reserving its bitmap bit.
    pub fn new(alloc: Bitmap) -> (r: InodeGroup)
        requires
            alloc.wf(),
            forall|i: int| 0 <= i < BITMAP_BITS ==> !alloc@[i],
        ensures
            r.wf(),
            r.bits() == alloc@.update(0, true),
            r.nodes_v() == Seq::new(
                INODE_COUNT as nat,
                |i: int| if i == 0 { Some(root_inode_v()) } else { None::<InodeV> },
            ),
    {
        let mut alloc = alloc;
        let res = alloc.set_reserved(0);
        let mut nodes: Vec<Option<Inode>> = Vec::new();
        let mut i: usize = 0;
        while i < INODE_COUNT
            invariant
                i <= INODE_COUNT,
                nodes@.len() == i,
                forall|k: int| 0 <= k < i ==> nodes@[k] is None,
            decreases INODE_COUNT - i,
        {
            nodes.push(None);
            i += 1;
        }
        nodes.set(0, Some(Inode::new_root()));
        let r = InodeGroup { nodes, alloc };
        proof {
            assert(r.nodes_v() =~= Seq::new(
                INODE_COUNT as nat,
                |i: int| if i == 0 { Some(root_inode_v()) } else { None::<InodeV> },
            ));
        }
        r
    }

    /// Construct a group over an adopted bitmap without populating any
    /// slot; the caller loads each of the five inode blocks.
    pub fn open(alloc: Bitmap) -> (r: InodeGroup)
        requires
            alloc.wf(),
        ensures
            r.wf_basic(),
            r.bits() == alloc@,
            r.alloc_raw() == alloc.raw(),
            forall|i: int| 0 <= i < INODE_COUNT ==> r.nodes_v()[i] is None,
    {
        let mut nodes: Vec<Option<Inode>> = Vec::new();
        let mut i: usize = 0;
        while i < INODE_COUNT
            invariant
                i <= INODE_COUNT,
                nodes@.len() == i,
                forall|k: int| 0 <= k < i ==> nodes@[k] is None,
            decreases INODE_COUNT - i,
        {
            nodes.push(None);
            i += 1;
        }
        InodeGroup { nodes, alloc }
    }

    /// Decode the sixteen inodes of relative inode block `k` from a
    /// 4096-byte image; slots whose bitmap bit is free are skipped.
    pub fn load_block(&mut self, k: usize, block: &Vec<u8>)
        requires
            old(self).wf_basic(),
            k < INODE_BLOCK_COUNT,
            block@.len() == 4096,
        ensures
            final(self).wf_basic(),
            final(self).bits() == old(self).bits(),
            final(self).alloc_raw() == old(self).alloc_raw(),
            forall|i: int|
                0 <= i < INODE_COUNT && !(16 * k <= i < 16 * k + 16) ==> final(self).nodes_v()[i]
                    == old(self).nodes_v()[i],
            forall|i: int|
                16 * k <= i < 16 * k + 16 ==> final(self).nodes_v()[i] == (if old(self).bits()[i] {
                    Some(
                        inode_decode(
                            block@.subrange(256 * (i - 16 * k), 256 * (i - 16 * k) + 256),
                        ),
                    )
                } else {
                    old(self).nodes_v()[i]
                }),
    {
        let mut j: usize = 0;
        while j < INODES_PER_BLOCK
            invariant
                self.wf_basic(),
                k < INODE_BLOCK_COUNT,
                block@.len() == 4096,
                j <= INODES_PER_BLOCK,
                self.bits() == old(self).bits(),
                self.alloc_raw() == old(self).alloc_raw(),
                forall|i: int|
                    0 <= i < INODE_COUNT && !(16 * k <= i < 16 * k + j) ==> self.nodes_v()[i] == old(
                        self,
                    ).nodes_v()[i],
                forall|i: int|
                    16 * k <= i < 16 * k + j ==> self.nodes_v()[i] == (if old(self).bits()[i] {
                        Some(
                            inode_decode(
                                block@.subrange(256 * (i - 16 * k), 256 * (i - 16 * k) + 256),
                            ),
                        )
                    } else {
                        old(self).nodes_v()[i]
                    }),
            decreases INODES_PER_BLOCK - j,
        {
            let ghost prev = *self;
            let i = 16 * k + j;
            if self.alloc.bit(i) {
                let node = Inode::decode(block, 256 * j);
                self.nodes.set(i, Some(node));
                proof {
                    assert(self.nodes_v() =~= prev.nodes_v().update(i as int, Some(node@)));
                }
            }
            j += 1;
        }
    }

    /// The 4096-byte image of relative inode block `k`: each allocated
    /// slot encoded in place, each free slot zero-filled.
    pub fn serialize_block(&self, k: usize) -> (r: Vec<u8>)
        requires
            self.wf_basic(),
            k < INODE_BLOCK_COUNT,
        ensures
            r@.len() == 4096,
            forall|j: int| 0 <= j < 16 ==> #[trigger] chunk256(r@, j) == self.slot_image(16 * k + j),
    {
        let mut out: Vec<u8> = Vec::new();
        let mut j: usize = 0;
        while j < INODES_PER_BLOCK
            invariant
                self.wf_basic(),
                k < INODE_BLOCK_COUNT,
                j <= INODES_PER_BLOCK,
                out@.len() == 256 * j,
                forall|m: int|
                    0 <= m < j ==> #[trigger] chunk256(out@, m) == self.slot_image(16 * k + m),
            decreases INODES_PER_BLOCK - j,
        {
            let ghost prev = out@;
            match &self.nodes[16 * k + j] {
                Some(node) => {
                    proof {
                        assert(self.nodes_v()[16 * k + j] == Some(node@));
                    }
                    let mut chunk = node.encode();
                    out.append(&mut chunk);
                },
                None => {
                    let mut chunk = zero_bytes(INODE_BYTES);
                    out.append(&mut chunk);
                },
            }
            proof {
                assert forall|m: int| 0 <= m < j + 1 implies #[trigger] chunk256(out@, m)
                    == self.slot_image(16 * k + m) by {
                    if m < j {
                        assert(chunk256(out@, m) =~= chunk256(prev, m));
                    } else {
                        assert(chunk256(out@, m) =~= self.slot_image(16 * k + m));
                    }
                }
            }
            j += 1;
        }
        out
    }

    /// Reserve the lowest-indexed free inode, populate it with the
    /// fresh-file defaults and return its number; fails with
    /// `OutOfSpace`, changing nothing, exactly when all 80 are used.
    pub fn allocate_file(&mut self) -> (r: Result<u32, SFSError>)
        requires
            old(self).wf(),
        ensures
            final(self).wf(),
            match r {
                Ok(n) => n < 80 && !old(self).bits()[n as int] && (forall|j: int|
                    0 <= j < n ==> old(self).bits()[j]) && final(self).bits() == old(
                    self,
                ).bits().update(n as int, true) && final(self).nodes_v() == old(
                    self,
                ).nodes_v().update(n as int, Some(file_inode_v())),
                Err(e) => e == SFSError::OutOfSpace && (forall|j: int|
                    0 <= j < INODE_COUNT ==> old(self).bits()[j]) && final(self).bits() == old(
                    self,
                ).bits() && final(self).nodes_v() == old(self).nodes_v() && final(self).alloc_raw()
                    == old(self).alloc_raw(),
            },
    {
        match self.alloc.next_free(0, INODE_COUNT) {
            Ok(i) => {
                let _ = self.alloc.set_reserved(i);
                self.nodes.set(i, Some(Inode::new_file()));
                proof {
                    assert(inode_v_wf(file_inode_v()));
                    assert(self.bits() == old(self).bits().update(i as int, true));
                    assert(self.nodes_v() =~= old(self).nodes_v().update(
                        i as int,
                        Some(file_inode_v()),
                    ));
                }
                Ok(i as u32)
            },
            Err(_) => Err(SFSError::OutOfSpace),
        }
    }

    /// The inode numbered `inum`, or `None` when it is out of range or
    /// not allocated.
    pub fn get(&self, inum: u32) -> (r: Option<&Inode>)
        requires
            self.wf(),
        ensures
            match r {
                Some(n) => inum < 80 && self.bits()[inum as int] && self.nodes_v()[inum as int]
                    == Some(n@) && n.wf(),
                None => inum >= 80 || !self.bits()[inum as int],
            },
    {
        if inum >= 80 {
            return None;
        }
        match &self.nodes[inum as usize] {
            Some(n) => Some(n),
            None => None,
        }
    }

    /// Replace the inode numbered `inum`, which must be allocated.
    pub fn put(&mut self, inum: u32, node: Inode)
        requires
            old(self).wf(),
            inum < 80,
            old(self).bits()[inum as int],
            node.wf(),
        ensures
            final(self).wf(),
            final(self).bits() == old(self).bits(),
            final(self).alloc_raw() == old(self).alloc_raw(),
            final(self).nodes_v() == old(self).nodes_v().update(inum as int, Some(node@)),
    {
        self.nodes.set(inum as usize, Some(node));
        proof {
            assert(self.nodes_v() =~= old(self).nodes_v().update(inum as int, Some(node@)));
        }
    }

    /// A borrow of the allocation bitmap, for serialization.
    pub fn allocations(&self) -> (r: &Bitmap)
        requires
            self.wf_basic(),
        ensures
            r.wf(),
            r@ == self.bits(),
            r.raw() == self.alloc_raw(),
    {
        &self.alloc
    }

    /// How many inodes are allocated.
    pub fn total_allocated(&self) -> (r: u32)
        requires
            self.wf(),
        ensures
            r == count_allocated(self.bits(), INODE_COUNT as int),
    {
        let mut n: u32 = 0;
        let mut i: usize = 0;
        while i < INODE_COUNT
            invariant
                self.wf(),
                i <= INODE_COUNT,
                n == count_allocated(self.bits(), i as int),
                n <= i,
            decreases INODE_COUNT - i,
        {
            if self.alloc.bit(i) {
                n += 1;
            }
            i += 1;
        }
        n
    }
}

/// How many of the first `n` bits are set.
pub open spec fn count_allocated(bits: Seq<bool>, n: int) -> int
    decreases n,
{
    if n <= 0 {
        0
    } else {
        count_allocated(bits, n - 1) + if bits[n - 1] {
            1int
        } else {
            0int
        }
    }
}

/// The group's bitmap view is the bits of its raw image.
pub proof fn lemma_group_bits_raw(g: InodeGroup)
    ensures
        g.bits() == crate::bitmap::bits_of(g.alloc_raw()),
{
}

/// An inode is retrievable exactly when its bitmap bit is set: a set
/// bit names a populated slot, a clear bit an absent one.
pub proof fn lemma_bitmap_tracks_table(g: InodeGroup, i: int)
    requires
        g.wf(),
        0 <= i < INODE_COUNT,
    ensures
        g.bits()[i] <==> g.nodes_v()[i] is Some,
{
}

/// Every populated slot of a well-sized group holds a well-formed
/// inode.
pub proof fn lemma_group_inode_wf(g: InodeGroup, i: int)
    requires
        g.wf_basic(),
        0 <= i < INODE_COUNT,
        g.nodes_v()[i] is Some,
    ensures
        inode_v_wf(g.nodes_v()[i]->Some_0),
{
}

/// The inode table always has one slot per inode.
pub proof fn lemma_nodes_v_len(g: InodeGroup)
    ensures
        g.nodes_v().len() == INODE_COUNT,
{
}

/// Each allocated slot's serialized image decodes back to the very
/// inode, and each free slot's image is all zeroes.
pub proof fn lemma_slot_image_roundtrip(g: InodeGroup, i: int)
    requires
        g.wf(),
        0 <= i < INODE_COUNT,
    ensures
        g.bits()[i] ==> g.nodes_v()[i] == Some(inode_decode(g.slot_image(i))),
        !g.bits()[i] ==> g.slot_image(i) == zeros(INODE_BYTES as int),
{
    if g.bits()[i] {
        let v = g.nodes_v()[i]->Some_0;
        lemma_inode_roundtrip(v, Seq::empty());
        assert(inode_encode(v) + Seq::<u8>::empty() =~= inode_encode(v));
    }
}

/// A vector of `n` zero pointers.
fn zero_u32s(n: usize) -> (r: Vec<u32>)
    ensures
        r@.len() == n,
        forall|i: int| 0 <= i < n ==> r@[i] == 0u32,
{
    let mut r: Vec<u32> = Vec::new();
    while r.len() < n
        invariant
            r@.len() <= n,
            forall|i: int| 0 <= i < r@.len() ==> r@[i] == 0u32,
        decreases n - r@.len(),
    {
        r.push(0u32);
    }
    r
}

} // verus!
