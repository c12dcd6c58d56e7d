use crate::error::SegmentError;
use vstd::bytes::*;
use vstd::prelude::*;
use vstd::slice::*;

verus! {

/// Number of bytes a footer occupies at the end of a segment.
pub const FOOTER_SIZE: u64 = 8;

/// The trailer of a segment: where the most recent index snapshot begins.
#[derive(Clone, Copy, Debug, PartialEq, Eq, Structural)]
pub struct Footer {
    pub index_block_offset: u64,
}

/// The eight bytes that stand for `offset` in a footer: little-endian,
/// least significant byte first.
pub open spec fn footer_bytes(offset: u64) -> Seq<u8> {
    spec_u64_to_le_bytes(offset)
}

/// The offset that the first eight bytes of `bytes` stand for.
pub open spec fn footer_offset(bytes: Seq<u8>) -> u64
    recommends
        bytes.len() >= 8,
{
    spec_u64_from_le_bytes(bytes.subrange(0, 8))
}

impl Footer {
    /// Encodes the footer as exactly eight little-endian bytes.
    pub fn to_bytes(&self) -> (out: [u8; 8])
        ensures
            out@ == footer_bytes(self.index_block_offset),
    {
        let x: u64 = self.index_block_offset;
        let out: [u8; 8] = [
            (x & 0xff) as u8,
            ((x >> 8) & 0xff) as u8,
            ((x >> 16) & 0xff) as u8,
            ((x >> 24) & 0xff) as u8,
            ((x >> 32) & 0xff) as u8,
            ((x >> 40) & 0xff) as u8,
            ((x >> 48) & 0xff) as u8,
            ((x >> 56) & 0xff) as u8,
        ];
        proof {
            spec_u64_to_le_bytes_to_open(x);
            assert(out@ =~= spec_u64_to_le_bytes_open(x));
        }
        out
    }

    /// Decodes a footer from the first eight bytes of `bytes`; fewer than
    /// eight bytes are refused.
    pub fn from_bytes(bytes: &[u8]) -> (r: Result<Footer, SegmentError>)
        ensures
            match r {
                Ok(footer) => bytes@.len() >= 8 && footer.index_block_offset == footer_offset(
                    bytes@,
                ),
                Err(e) => bytes@.len() < 8 && e == SegmentError::TruncatedFooter,
            },
    {
        if bytes.len() < 8 {
            return Err(SegmentError::TruncatedFooter);
        }
        let head = slice_subrange(bytes, 0, 8);
        Ok(Footer { index_block_offset: u64_from_le_bytes(head) })
    }
}

/// A footer read back from its own bytes is the footer that was written,
/// and the encoding is always eight bytes long.
pub proof fn lemma_footer_round_trip(offset: u64)
    ensures
        footer_bytes(offset).len() == 8,
        footer_offset(footer_bytes(offset)) == offset,
{
    lemma_auto_spec_u64_to_from_le_bytes();
    assert(footer_bytes(offset).subrange(0, 8) =~= footer_bytes(offset));
}

/// Eight bytes are the encoding of the offset they decode to: no two
/// different byte strings stand for one footer.
pub proof fn lemma_footer_bytes_unique(bytes: Seq<u8>)
    requires
        bytes.len() == 8,
    ensures
        footer_bytes(footer_offset(bytes)) == bytes,
{
    lemma_auto_spec_u64_to_from_le_bytes();
    assert(bytes.subrange(0, 8) =~= bytes);
}

/// Eight bytes whose last byte is 0x80 or more stand for an offset of at
/// least two to the sixty-third.
pub proof fn lemma_footer_high_byte(bytes: Seq<u8>)
    requires
        bytes.len() == 8,
        bytes[7] >= 0x80,
    ensures
        footer_offset(bytes) >= 0x8000_0000_0000_0000,
{
    let x = footer_offset(bytes);
    lemma_footer_bytes_unique(bytes);
    spec_u64_to_le_bytes_to_open(x);
    assert(bytes[7] == ((x >> 56) & 0xff) as u8);
    assert(((x >> 56) & 0xff) as u8 >= 0x80 ==> x >= 0x8000_0000_0000_0000) by (bit_vector);
}

} // verus!
