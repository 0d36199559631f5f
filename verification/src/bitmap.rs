//! Fixed-capacity allocation bitmap: one 4096-byte block, one bit per
//! allocatable unit, with a deterministic free-scan.

use vstd::prelude::*;
use vstd::pervasive::VecAdditionalExecFns;
use crate::bytes::zero_bytes;
use crate::error::SFSError;

verus! {

/// Size in bytes of a bitmap's on-disk image: one whole block.
pub const BITMAP_BYTES: usize = 4096;

/// Number of addressable bits in a bitmap.
pub const BITMAP_BITS: usize = 32768;

/// Bit `i` of a packed bit image, least-significant bit first within
/// each byte.
pub open spec fn bit_of_bytes(bytes: Seq<u8>, i: int) -> bool {
    (bytes[i / 8] >> ((i % 8) as u8)) & 1 == 1
}

/// All the bits a packed image holds.
pub open spec fn bits_of(bytes: Seq<u8>) -> Seq<bool> {
    Seq::new(BITMAP_BITS as nat, |i: int| bit_of_bytes(bytes, i))
}

/// How many bits of `[lo, hi)` are free.
pub open spec fn count_free(bits: Seq<bool>, lo: int, hi: int) -> int
    decreases hi - lo,
{
    if lo >= hi {
        0
    } else {
        (if bits[lo] {
            0int
        } else {
            1int
        }) + count_free(bits, lo + 1, hi)
    }
}

/// A fully used prefix contributes nothing to the free count.
pub proof fn lemma_count_free_used_prefix(bits: Seq<bool>, lo: int, mid: int, hi: int)
    requires
        lo <= mid <= hi,
        forall|q: int| lo <= q < mid ==> bits[q],
    ensures
        count_free(bits, lo, hi) == count_free(bits, mid, hi),
    decreases mid - lo,
{
    if lo < mid {
        lemma_count_free_used_prefix(bits, lo + 1, mid, hi);
    }
}

/// The free count never goes negative.
pub proof fn lemma_count_free_nonneg(bits: Seq<bool>, lo: int, hi: int)
    ensures
        count_free(bits, lo, hi) >= 0,
    decreases hi - lo,
{
    if lo < hi {
        lemma_count_free_nonneg(bits, lo + 1, hi);
    }
}

/// A fixed 4096-byte allocation map. Bit `i` is `true` when unit `i`
/// is used and `false` when it is free.
pub struct Bitmap {
    bytes: Vec<u8>,
}

impl View for Bitmap {
    type V = Seq<bool>;

    open spec fn view(&self) -> Seq<bool> {
        bits_of(self.raw())
    }
}

proof fn lemma_zero_bit(j: u8)
    by (bit_vector)
    requires
        j < 8,
    ensures
        (0u8 >> j) & 1 == 0,
{
}

proof fn lemma_or_bit(b: u8, r: u8, j: u8)
    by (bit_vector)
    requires
        r < 8,
        j < 8,
    ensures
        j == r ==> ((b | (1u8 << r)) >> j) & 1 == 1,
        j != r ==> ((b | (1u8 << r)) >> j) & 1 == (b >> j) & 1,
{
}

proof fn lemma_and_not_bit(b: u8, r: u8, j: u8)
    by (bit_vector)
    requires
        r < 8,
        j < 8,
    ensures
        j == r ==> ((b & !(1u8 << r)) >> j) & 1 == 0,
        j != r ==> ((b & !(1u8 << r)) >> j) & 1 == (b >> j) & 1,
{
}

impl Bitmap {
    /// The raw byte image this bitmap holds; `serialize` returns it and
    /// `parse` adopts it.
    pub closed spec fn raw(&self) -> Seq<u8> {
        self.bytes@
    }

    /// A bitmap always holds exactly one block's worth of bytes.
    pub open spec fn wf(&self) -> bool {
        self.raw().len() == BITMAP_BYTES
    }

    /// An all-free bitmap.
    pub fn new() -> (r: Bitmap)
        ensures
            r.wf(),
            forall|i: int| 0 <= i < BITMAP_BITS ==> !r@[i],
    {
        let r = Bitmap { bytes: zero_bytes(BITMAP_BYTES) };
        proof {
            assert forall|i: int| 0 <= i < BITMAP_BITS implies !r@[i] by {
                lemma_zero_bit((i % 8) as u8);
            }
        }
        r
    }

    /// Adopt an existing one-block image.
    pub fn parse(block: &Vec<u8>) -> (r: Bitmap)
        requires
            block@.len() == BITMAP_BYTES,
        ensures
            r.wf(),
            r.raw() == block@,
    {
        let mut bytes: Vec<u8> = Vec::new();
        let mut i: usize = 0;
        while i < BITMAP_BYTES
            invariant
                block@.len() == BITMAP_BYTES,
                i <= BITMAP_BYTES,
                bytes@ == block@.take(i as int),
            decreases BITMAP_BYTES - i,
        {
            bytes.push(block[i]);
            i += 1;
            proof {
                assert(bytes@ =~= block@.take(i as int));
            }
        }
        proof {
            assert(bytes@ =~= block@);
        }
        Bitmap { bytes }
    }

    /// The one-block image of this bitmap.
    pub fn serialize(&self) -> (r: Vec<u8>)
        requires
            self.wf(),
        ensures
            r@ == self.raw(),
            r@.len() == BITMAP_BYTES,
    {
        let mut out: Vec<u8> = Vec::new();
        let mut i: usize = 0;
        while i < BITMAP_BYTES
            invariant
                self.wf(),
                i <= BITMAP_BYTES,
                out@ == self.raw().take(i as int),
            decreases BITMAP_BYTES - i,
        {
            out.push(self.bytes[i]);
            i += 1;
            proof {
                assert(out@ =~= self.raw().take(i as int));
            }
        }
        proof {
            assert(out@ =~= self.raw());
        }
        out
    }

    /// Bit `i`, for an index known to be in range.
    pub fn bit(&self, i: usize) -> (r: bool)
        requires
            self.wf(),
            i < BITMAP_BITS,
        ensures
            r == self@[i as int],
    {
        let byte = self.bytes[i / 8];
        (byte >> ((i % 8) as u8)) & 1 == 1
    }

    /// State of unit `i`: `Ok(true)` when used, `Ok(false)` when free;
    /// an out-of-range index fails with `InvalidArgument`.
    pub fn get(&self, i: usize) -> (r: Result<bool, SFSError>)
        requires
            self.wf(),
        ensures
            i < BITMAP_BITS ==> r == Ok::<bool, SFSError>(self@[i as int]),
            i >= BITMAP_BITS ==> r == Err::<bool, SFSError>(SFSError::InvalidArgument),
    {
        if i >= BITMAP_BITS {
            return Err(SFSError::InvalidArgument);
        }
        Ok(self.bit(i))
    }

    /// Mark unit `i` used; an out-of-range index fails with
    /// `InvalidArgument` and changes nothing.
    pub fn set_reserved(&mut self, i: usize) -> (r: Result<(), SFSError>)
        requires
            old(self).wf(),
        ensures
            final(self).wf(),
            i < BITMAP_BITS ==> r == Ok::<(), SFSError>(()) && final(self)@ == old(self)@.update(
                i as int,
                true,
            ),
            i >= BITMAP_BITS ==> r == Err::<(), SFSError>(SFSError::InvalidArgument) && final(self)@
                == old(self)@,
    {
        if i >= BITMAP_BITS {
            return Err(SFSError::InvalidArgument);
        }
        let idx = i / 8;
        let sh = (i % 8) as u8;
        let b = self.bytes[idx];
        self.bytes.set(idx, b | (1u8 << sh));
        proof {
            assert forall|m: int| 0 <= m < BITMAP_BITS implies self@[m] == old(self)@.update(
                i as int,
                true,
            )[m] by {
                if m / 8 == i as int / 8 {
                    lemma_or_bit(b, sh, (m % 8) as u8);
                }
            }
            assert(self@ =~= old(self)@.update(i as int, true));
        }
        Ok(())
    }

    /// Mark unit `i` free; an out-of-range index fails with
    /// `InvalidArgument` and changes nothing.
    pub fn clear(&mut self, i: usize) -> (r: Result<(), SFSError>)
        requires
            old(self).wf(),
        ensures
            final(self).wf(),
            i < BITMAP_BITS ==> r == Ok::<(), SFSError>(()) && final(self)@ == old(self)@.update(
                i as int,
                false,
            ),
            i >= BITMAP_BITS ==> r == Err::<(), SFSError>(SFSError::InvalidArgument) && final(self)@
                == old(self)@,
    {
        if i >= BITMAP_BITS {
            return Err(SFSError::InvalidArgument);
        }
        let idx = i / 8;
        let sh = (i % 8) as u8;
        let b = self.bytes[idx];
        self.bytes.set(idx, b & !(1u8 << sh));
        proof {
            assert forall|m: int| 0 <= m < BITMAP_BITS implies self@[m] == old(self)@.update(
                i as int,
                false,
            )[m] by {
                if m / 8 == i as int / 8 {
                    lemma_and_not_bit(b, sh, (m % 8) as u8);
                }
            }
            assert(self@ =~= old(self)@.update(i as int, false));
        }
        Ok(())
    }

    /// Reserve the smallest free block index of the data region
    /// `[8, 64)` and return it; fails with `OutOfSpace`, changing
    /// nothing, exactly when the region is exhausted.
    pub fn allocate_data(&mut self) -> (r: Result<u32, SFSError>)
        requires
            old(self).wf(),
        ensures
            final(self).wf(),
            match r {
                Ok(i) => 8 <= i < 64 && !old(self)@[i as int] && (forall|q: int|
                    8 <= q < i ==> old(self)@[q]) && final(self)@ == old(self)@.update(
                    i as int,
                    true,
                ),
                Err(e) => e == SFSError::OutOfSpace && final(self)@ == old(self)@
                    && final(self).raw() == old(self).raw() && (forall|q: int|
                    8 <= q < 64 ==> old(self)@[q]),
            },
    {
        match self.next_free(8, 64) {
            Ok(i) => {
                let _ = self.set_reserved(i);
                Ok(i as u32)
            },
            Err(_) => Err(SFSError::OutOfSpace),
        }
    }

    /// The smallest free index in `[start, end)`, or `OutOfSpace` when
    /// every index in that range is used. The scan is deterministic and
    /// keeps no cursor.
    pub fn next_free(&self, start: usize, end: usize) -> (r: Result<usize, SFSError>)
        requires
            self.wf(),
            end <= BITMAP_BITS,
        ensures
            match r {
                Ok(i) => start <= i && i < end && !self@[i as int] && (forall|j: int|
                    start <= j < i ==> self@[j]),
                Err(e) => e == SFSError::OutOfSpace && (forall|j: int|
                    start <= j < end ==> self@[j]),
            },
    {
        let mut i = start;
        while i < end
            invariant
                self.wf(),
                end <= BITMAP_BITS,
                start <= i,
                forall|j: int| start <= j < i ==> self@[j],
            decreases end - i,
        {
            if !self.bit(i) {
                return Ok(i);
            }
            i += 1;
        }
        Err(SFSError::OutOfSpace)
    }
}

} // verus!
