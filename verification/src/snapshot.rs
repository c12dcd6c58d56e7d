use crate::error::SegmentError;
use crate::index::{IndexBlock, IndexData, IndexEntry};
use vstd::bytes::*;
use vstd::prelude::*;
use vstd::slice::*;
use vstd::string::*;
use vstd::utf8::*;

verus! {

/// The bytes of one entry: the length of the key's UTF-8 bytes, those
/// bytes, the value's offset and the value's length. Each number takes
/// eight bytes, little-endian.
pub open spec fn entry_bytes(entry: IndexEntry) -> Seq<u8> {
    spec_u64_to_le_bytes(encode_utf8(entry.key).len() as u64) + encode_utf8(entry.key)
        + spec_u64_to_le_bytes(entry.value_offset) + spec_u64_to_le_bytes(entry.value_length)
}

/// The bytes of the entries, one after the other, in order.
pub open spec fn entries_bytes(entries: Seq<IndexEntry>) -> Seq<u8>
    decreases entries.len(),
{
    if entries.len() == 0 {
        Seq::empty()
    } else {
        entry_bytes(entries.first()) + entries_bytes(entries.drop_first())
    }
}

/// The listing of the entries: their number in eight little-endian
/// bytes, then the entries.
pub open spec fn listing_bytes(entries: Seq<IndexEntry>) -> Seq<u8> {
    spec_u64_to_le_bytes(entries.len() as u64) + entries_bytes(entries)
}

/// The numbers that a listing writes in front of its parts fit in eight
/// bytes.
pub open spec fn encodable(entries: Seq<IndexEntry>) -> bool {
    &&& entries.len() <= u64::MAX
    &&& forall|i: int|
        0 <= i < entries.len() ==> encode_utf8((#[trigger] entries[i]).key).len() <= u64::MAX
}

/// Reads one entry from the front of `bytes`: the entry and the number of
/// bytes it took, or nothing where the bytes end early or the key is not
/// UTF-8.
pub open spec fn parse_entry(bytes: Seq<u8>) -> Option<(IndexEntry, int)> {
    if bytes.len() < 24 {
        None
    } else {
        let key_len = spec_u64_from_le_bytes(bytes.subrange(0, 8)) as int;
        if bytes.len() - 24 < key_len {
            None
        } else {
            let key = bytes.subrange(8, 8 + key_len);
            if !valid_utf8(key) {
                None
            } else {
                Some(
                    (
                        IndexEntry {
                            key: decode_utf8(key),
                            value_offset: spec_u64_from_le_bytes(
                                bytes.subrange(8 + key_len, 16 + key_len),
                            ),
                            value_length: spec_u64_from_le_bytes(
                                bytes.subrange(16 + key_len, 24 + key_len),
                            ),
                        },
                        24 + key_len,
                    ),
                )
            }
        }
    }
}

/// Reads exactly `count` entries that fill `bytes` to the last byte.
pub open spec fn parse_entries(bytes: Seq<u8>, count: nat) -> Option<Seq<IndexEntry>>
    decreases count,
{
    if count == 0 {
        if bytes.len() == 0 {
            Some(Seq::empty())
        } else {
            None
        }
    } else {
        match parse_entry(bytes) {
            None => None,
            Some((entry, used)) => match parse_entries(bytes.skip(used), (count - 1) as nat) {
                None => None,
                Some(rest) => Some(seq![entry] + rest),
            },
        }
    }
}

/// Reads a listing: the entries that `bytes` stand for, or nothing where
/// they are no well-formed listing.
pub open spec fn parse_listing(bytes: Seq<u8>) -> Option<Seq<IndexEntry>> {
    if bytes.len() < 8 {
        None
    } else {
        parse_entries(bytes.skip(8), spec_u64_from_le_bytes(bytes.subrange(0, 8)) as nat)
    }
}

/// Adding an entry at the end adds its bytes at the end.
pub proof fn lemma_entries_bytes_push(entries: Seq<IndexEntry>, entry: IndexEntry)
    ensures
        entries_bytes(entries.push(entry)) == entries_bytes(entries) + entry_bytes(entry),
    decreases entries.len(),
{
    let all = entries.push(entry);
    if entries.len() == 0 {
        assert(all.drop_first() =~= Seq::<IndexEntry>::empty());
        assert(entries_bytes(all.drop_first()) =~= Seq::<u8>::empty());
        assert(entries_bytes(all) =~= entries_bytes(entries) + entry_bytes(entry));
    } else {
        lemma_entries_bytes_push(entries.drop_first(), entry);
        assert(all.drop_first() =~= entries.drop_first().push(entry));
        assert(entries_bytes(all) =~= entries_bytes(entries) + entry_bytes(entry));
    }
}

/// An entry is read back from its own bytes, whatever follows them.
pub proof fn lemma_entry_round_trip(entry: IndexEntry, rest: Seq<u8>)
    requires
        encode_utf8(entry.key).len() <= u64::MAX,
    ensures
        parse_entry(entry_bytes(entry) + rest) == Some((entry, entry_bytes(entry).len() as int)),
        entry_bytes(entry).len() == 24 + encode_utf8(entry.key).len(),
{
    lemma_auto_spec_u64_to_from_le_bytes();
    encode_utf8_valid_utf8(entry.key);
    encode_utf8_decode_utf8(entry.key);
    let key = encode_utf8(entry.key);
    let n = key.len() as int;
    let bytes = entry_bytes(entry) + rest;
    assert(bytes.subrange(0, 8) =~= spec_u64_to_le_bytes(n as u64));
    assert(bytes.subrange(8, 8 + n) =~= key);
    assert(bytes.subrange(8 + n, 16 + n) =~= spec_u64_to_le_bytes(entry.value_offset));
    assert(bytes.subrange(16 + n, 24 + n) =~= spec_u64_to_le_bytes(entry.value_length));
}

/// Entries are read back from their own bytes.
pub proof fn lemma_entries_round_trip(entries: Seq<IndexEntry>)
    requires
        encodable(entries),
    ensures
        parse_entries(entries_bytes(entries), entries.len()) == Some(entries),
    decreases entries.len(),
{
    if entries.len() > 0 {
        let head = entries.first();
        let tail = entries.drop_first();
        assert(forall|i: int| 0 <= i < tail.len() ==> tail[i] == entries[i + 1]);
        lemma_entry_round_trip(head, entries_bytes(tail));
        lemma_entries_round_trip(tail);
        let bytes = entries_bytes(entries);
        assert(bytes.skip(entry_bytes(head).len() as int) =~= entries_bytes(tail));
        assert(seq![head] + tail =~= entries);
    }
}

/// A listing is read back, entry for entry, from its own bytes.
pub proof fn lemma_listing_round_trip(entries: Seq<IndexEntry>)
    requires
        encodable(entries),
    ensures
        parse_listing(listing_bytes(entries)) == Some(entries),
{
    lemma_auto_spec_u64_to_from_le_bytes();
    lemma_entries_round_trip(entries);
    let bytes = listing_bytes(entries);
    assert(bytes.subrange(0, 8) =~= spec_u64_to_le_bytes(entries.len() as u64));
    assert(bytes.skip(8) =~= entries_bytes(entries));
}

/// What `parse_entry` reads stands in front of the bytes exactly as
/// `entry_bytes` writes it.
pub proof fn lemma_parse_entry_exact(bytes: Seq<u8>)
    requires
        parse_entry(bytes) is Some,
    ensures
        ({
            let (entry, used) = parse_entry(bytes)->0;
            &&& 24 <= used <= bytes.len()
            &&& encode_utf8(entry.key).len() <= u64::MAX
            &&& bytes.subrange(0, used) == entry_bytes(entry)
        }),
{
    lemma_auto_spec_u64_to_from_le_bytes();
    let (entry, used) = parse_entry(bytes)->0;
    let key_len = spec_u64_from_le_bytes(bytes.subrange(0, 8)) as int;
    let key = bytes.subrange(8, 8 + key_len);
    decode_utf8_encode_utf8(key);
    assert(spec_u64_to_le_bytes(key_len as u64) == bytes.subrange(0, 8));
    assert(spec_u64_to_le_bytes(entry.value_offset) == bytes.subrange(8 + key_len, 16 + key_len));
    assert(spec_u64_to_le_bytes(entry.value_length) == bytes.subrange(16 + key_len, 24 + key_len));
    assert(bytes.subrange(0, used) =~= entry_bytes(entry));
}

/// What `parse_entries` reads is `count` entries whose bytes are the bytes
/// that were read.
pub proof fn lemma_parse_entries_exact(bytes: Seq<u8>, count: nat)
    requires
        parse_entries(bytes, count) is Some,
    ensures
        parse_entries(bytes, count)->0.len() == count,
        forall|i: int|
            0 <= i < count ==> encode_utf8(
                (#[trigger] parse_entries(bytes, count)->0[i]).key,
            ).len() <= u64::MAX,
        entries_bytes(parse_entries(bytes, count)->0) == bytes,
        bytes.len() >= 24 * count,
    decreases count,
{
    let entries = parse_entries(bytes, count)->0;
    if count == 0 {
        assert(bytes =~= Seq::<u8>::empty());
    } else {
        let (entry, used) = parse_entry(bytes)->0;
        let rest = parse_entries(bytes.skip(used), (count - 1) as nat)->0;
        lemma_parse_entry_exact(bytes);
        lemma_parse_entries_exact(bytes.skip(used), (count - 1) as nat);
        assert(entries == seq![entry] + rest);
        assert(entries.drop_first() =~= rest);
        assert(entries.first() == entry);
        assert(bytes =~= bytes.subrange(0, used) + bytes.skip(used));
        assert forall|i: int| 0 <= i < count implies encode_utf8(
            (#[trigger] entries[i]).key,
        ).len() <= u64::MAX by {
            if i > 0 {
                assert(entries[i] == rest[i - 1]);
            }
        }
    }
}

/// Where bytes are read as a listing, they are that listing's bytes.
pub proof fn lemma_listing_bytes_unique(bytes: Seq<u8>)
    requires
        parse_listing(bytes) is Some,
    ensures
        encodable(parse_listing(bytes)->0),
        listing_bytes(parse_listing(bytes)->0) == bytes,
        bytes.len() >= 8 + 24 * parse_listing(bytes)->0.len(),
{
    lemma_auto_spec_u64_to_from_le_bytes();
    let count = spec_u64_from_le_bytes(bytes.subrange(0, 8));
    lemma_parse_entries_exact(bytes.skip(8), count as nat);
    assert(bytes =~= bytes.subrange(0, 8) + bytes.skip(8));
}

/// The byte that ends every snapshot, and occurs nowhere else in one.
pub const SNAPSHOT_END: u8 = 0xff;

/// `bytes` with every byte written as two: its upper four bits, then its
/// lower four, each in a byte of its own whose top bit is set. Every byte
/// of the result lies between 0x80 and 0x8f.
pub open spec fn spread(bytes: Seq<u8>) -> Seq<u8> {
    Seq::new(
        2 * bytes.len(),
        |i: int|
            if i % 2 == 0 {
                (0x80 + bytes[i / 2] / 16) as u8
            } else {
                (0x80 + bytes[i / 2] % 16) as u8
            },
    )
}

/// `bytes` is what `spread` writes for some bytes.
pub open spec fn is_spread(bytes: Seq<u8>) -> bool {
    &&& bytes.len() % 2 == 0
    &&& forall|i: int| 0 <= i < bytes.len() ==> 0x80 <= #[trigger] bytes[i] <= 0x8f
}

/// The bytes that `bytes` was spread from.
pub open spec fn gather(bytes: Seq<u8>) -> Seq<u8>
    recommends
        is_spread(bytes),
{
    Seq::new(
        bytes.len() / 2,
        |i: int| ((bytes[2 * i] - 0x80) * 16 + (bytes[2 * i + 1] - 0x80)) as u8,
    )
}

/// The bytes of a snapshot: the listing of its entries, spread, then the
/// end byte. So no byte of a snapshot is below 0x80, and only the last
/// one is the end byte.
pub open spec fn snapshot_bytes(entries: Seq<IndexEntry>) -> Seq<u8> {
    spread(listing_bytes(entries)).push(SNAPSHOT_END)
}

/// Reads a snapshot: the entries that `bytes` stand for, or nothing where
/// they are no well-formed snapshot.
pub open spec fn parse_snapshot(bytes: Seq<u8>) -> Option<Seq<IndexEntry>> {
    if bytes.len() == 0 || bytes.last() != SNAPSHOT_END || !is_spread(bytes.drop_last()) {
        None
    } else {
        parse_listing(gather(bytes.drop_last()))
    }
}

/// Spreading loses nothing: the bytes are gathered back from what they
/// were spread to.
pub proof fn lemma_spread_gather(bytes: Seq<u8>)
    ensures
        is_spread(spread(bytes)),
        gather(spread(bytes)) == bytes,
{
    assert(gather(spread(bytes)) =~= bytes);
}

/// Bytes that are spread are the spreading of what is gathered from them.
pub proof fn lemma_gather_spread(bytes: Seq<u8>)
    requires
        is_spread(bytes),
    ensures
        spread(gather(bytes)) == bytes,
{
    assert(spread(gather(bytes)) =~= bytes);
}

/// Decoding undoes encoding: a snapshot is read back, entry for entry,
/// from the bytes it was written as.
pub proof fn lemma_snapshot_round_trip(entries: Seq<IndexEntry>)
    requires
        encodable(entries),
    ensures
        parse_snapshot(snapshot_bytes(entries)) == Some(entries),
{
    let listing = listing_bytes(entries);
    lemma_listing_round_trip(entries);
    lemma_spread_gather(listing);
    assert(snapshot_bytes(entries).drop_last() =~= spread(listing));
}

/// Only the bytes that encoding writes are decoded: where bytes are read
/// as a snapshot, they are that snapshot's encoding.
pub proof fn lemma_snapshot_bytes_unique(bytes: Seq<u8>)
    requires
        parse_snapshot(bytes) is Some,
    ensures
        encodable(parse_snapshot(bytes)->0),
        snapshot_bytes(parse_snapshot(bytes)->0) == bytes,
        bytes.len() >= 8 + 24 * parse_snapshot(bytes)->0.len(),
{
    let body = bytes.drop_last();
    lemma_listing_bytes_unique(gather(body));
    lemma_gather_spread(body);
    assert(body.push(SNAPSHOT_END) =~= bytes);
}

/// The shape of a snapshot: at least seventeen bytes, the last of them
/// the end byte, every other one between 0x80 and 0x8f.
pub proof fn lemma_snapshot_shape(entries: Seq<IndexEntry>)
    ensures
        snapshot_bytes(entries).len() >= 17,
        snapshot_bytes(entries).last() == SNAPSHOT_END,
        forall|i: int|
            0 <= i < snapshot_bytes(entries).len() - 1 ==> 0x80 <= #[trigger] snapshot_bytes(
                entries,
            )[i] <= 0x8f,
{
    lemma_auto_spec_u64_to_from_le_bytes();
    lemma_spread_gather(listing_bytes(entries));
    assert(snapshot_bytes(entries).drop_last() =~= spread(listing_bytes(entries)));
}

/// `core::str::from_utf8`: the text that `bytes` encode when they are
/// valid UTF-8, nothing when they are not. The text's own UTF-8 bytes are
/// the bytes given.
#[verifier::external_body]
fn text_of(bytes: &[u8]) -> (text: Option<&str>)
    ensures
        text is Some <==> valid_utf8(bytes@),
        text matches Some(s) ==> encode_utf8(s@) == bytes@,
{
    core::str::from_utf8(bytes).ok()
}

/// The number that the eight bytes from `pos` on stand for.
fn read_u64(bytes: &[u8], pos: usize) -> (x: u64)
    requires
        pos + 8 <= bytes@.len(),
    ensures
        x == spec_u64_from_le_bytes(bytes@.subrange(pos as int, pos + 8)),
{
    assert(bytes@.len() == bytes.len());
    u64_from_le_bytes(slice_subrange(bytes, pos, pos + 8))
}

/// Writes `x` at the end of `out` in eight little-endian bytes.
fn write_u64(out: &mut Vec<u8>, x: u64)
    ensures
        final(out)@ == old(out)@ + spec_u64_to_le_bytes(x),
{
    let bytes = u64_to_le_bytes(x);
    out.extend_from_slice(bytes.as_slice());
}

/// Reads the entry that begins at `pos`: the entry and the position right
/// after it.
fn read_entry(bytes: &[u8], pos: usize) -> (r: Option<(IndexData, usize)>)
    requires
        pos <= bytes@.len(),
    ensures
        match r {
            Some((data, next)) => pos < next <= bytes@.len() && parse_entry(bytes@.skip(pos as int))
                == Some((data@, next - pos)),
            None => parse_entry(bytes@.skip(pos as int)) is None,
        },
{
    let ghost rest = bytes@.skip(pos as int);
    let left: usize = bytes.len() - pos;
    if left < 24 {
        return None;
    }
    let key_len: u64 = read_u64(bytes, pos);
    assert(bytes@.subrange(pos as int, pos + 8) =~= rest.subrange(0, 8));
    if key_len > (left - 24) as u64 {
        return None;
    }
    let n: usize = key_len as usize;
    let key_bytes = slice_subrange(bytes, pos + 8, pos + 8 + n);
    assert(key_bytes@ =~= rest.subrange(8, 8 + n));
    let key = match text_of(key_bytes) {
        None => {
            return None;
        },
        Some(text) => text.to_owned(),
    };
    proof {
        encode_utf8_decode_utf8(key@);
    }
    let offset: u64 = read_u64(bytes, pos + 8 + n);
    let value_length: u64 = read_u64(bytes, pos + 16 + n);
    assert(bytes@.subrange(pos + 8 + n, pos + 16 + n) =~= rest.subrange(8 + n, 16 + n));
    assert(bytes@.subrange(pos + 16 + n, pos + 24 + n) =~= rest.subrange(16 + n, 24 + n));
    Some((IndexData::new(key, offset, value_length), pos + 24 + n))
}

/// Writes `plain`, spread, at the end of `out`.
fn write_spread(out: &mut Vec<u8>, plain: &[u8])
    ensures
        final(out)@ == old(out)@ + spread(plain@),
{
    let mut i: usize = 0;
    while i < plain.len()
        invariant
            i <= plain@.len(),
            out@ == old(out)@ + spread(plain@.take(i as int)),
        decreases plain@.len() - i,
    {
        let byte: u8 = plain[i];
        out.push(0x80 + byte / 16);
        out.push(0x80 + byte % 16);
        assert(out@ =~= old(out)@ + spread(plain@.take(i + 1)));
        i += 1;
    }
    assert(plain@.take(plain@.len() as int) =~= plain@);
}

/// Gathers the bytes that `bytes` was spread from, if it is spread.
fn read_spread(bytes: &[u8]) -> (r: Option<Vec<u8>>)
    ensures
        match r {
            Some(plain) => is_spread(bytes@) && plain@ == gather(bytes@),
            None => !is_spread(bytes@),
        },
{
    let len: usize = bytes.len();
    if len % 2 != 0 {
        return None;
    }
    let mut plain: Vec<u8> = Vec::new();
    let mut i: usize = 0;
    while i < len
        invariant
            len == bytes@.len(),
            len % 2 == 0,
            i % 2 == 0,
            i <= len,
            forall|j: int| 0 <= j < i ==> 0x80 <= #[trigger] bytes@[j] <= 0x8f,
            plain@ == gather(bytes@.take(i as int)),
        decreases len - i,
    {
        let high: u8 = bytes[i];
        let low: u8 = bytes[i + 1];
        if high < 0x80 || high > 0x8f || low < 0x80 || low > 0x8f {
            return None;
        }
        plain.push((high - 0x80) * 16 + (low - 0x80));
        assert(plain@ =~= gather(bytes@.take(i + 2)));
        i += 2;
    }
    assert(bytes@.take(len as int) =~= bytes@);
    Some(plain)
}

impl IndexBlock {
    /// The listing of the entries: their number, then each entry with its
    /// key's length in front, in order.
    fn listing(&self) -> (out: Vec<u8>)
        ensures
            out@ == listing_bytes(self@),
            encodable(self@),
    {
        let count: usize = self.index_block.len();
        let mut out: Vec<u8> = Vec::new();
        write_u64(&mut out, count as u64);
        let mut i: usize = 0;
        while i < count
            invariant
                count == self.index_block@.len(),
                i <= count,
                out@ == spec_u64_to_le_bytes(count as u64) + entries_bytes(self@.take(i as int)),
                forall|j: int| 0 <= j < i ==> encode_utf8((#[trigger] self@[j]).key).len() <= u64::MAX,
            decreases count - i,
        {
            let data = &self.index_block[i];
            let key = data.index_key.as_str().as_bytes();
            let ghost before = out@;
            write_u64(&mut out, key.len() as u64);
            out.extend_from_slice(key);
            write_u64(&mut out, data.offset);
            write_u64(&mut out, data.value_length);
            proof {
                let done = self@.take(i as int);
                lemma_entries_bytes_push(done, self@[i as int]);
                assert(self@.take(i + 1) =~= done.push(self@[i as int]));
                assert(out@ =~= before + entry_bytes(self@[i as int]));
            }
            i += 1;
        }
        assert(self@.take(count as int) =~= self@);
        out
    }

    /// Encodes the snapshot: the listing of the entries, every byte of it
    /// spread over two bytes with the top bit set, then the end byte.
    pub fn get_serialized(&self) -> (out: Vec<u8>)
        ensures
            out@ == snapshot_bytes(self@),
            encodable(self@),
    {
        let plain = self.listing();
        let mut out: Vec<u8> = Vec::new();
        write_spread(&mut out, plain.as_slice());
        out.push(SNAPSHOT_END);
        assert(out@ =~= snapshot_bytes(self@));
        out
    }

    /// Decodes a snapshot. The bytes are accepted only if they are, to the
    /// last byte, what `get_serialized` writes for some entries; those
    /// entries are returned.
    pub fn get_deserialized(iblock: &[u8]) -> (r: Result<IndexBlock, SegmentError>)
        ensures
            match r {
                Ok(block) => {
                    &&& parse_snapshot(iblock@) == Some(block@)
                    &&& snapshot_bytes(block@) == iblock@
                },
                Err(e) => {
                    &&& e == SegmentError::CorruptIndex
                    &&& parse_snapshot(iblock@) is None
                    &&& forall|entries: Seq<IndexEntry>|
                        encodable(entries) ==> #[trigger] snapshot_bytes(entries) != iblock@
                },
            },
    {
        match read_snapshot(iblock) {
            Some(block) => {
                proof {
                    lemma_snapshot_bytes_unique(iblock@);
                }
                Ok(block)
            },
            None => {
                proof {
                    assert forall|entries: Seq<IndexEntry>| encodable(entries) implies #[trigger] snapshot_bytes(
                        entries,
                    ) != iblock@ by {
                        lemma_snapshot_round_trip(entries);
                    }
                }
                Err(SegmentError::CorruptIndex)
            },
        }
    }
}

/// Reads a snapshot: checks the end byte, gathers the listing and reads
/// it.
fn read_snapshot(bytes: &[u8]) -> (r: Option<IndexBlock>)
    ensures
        match r {
            Some(block) => parse_snapshot(bytes@) == Some(block@),
            None => parse_snapshot(bytes@) is None,
        },
{
    let len: usize = bytes.len();
    if len == 0 || bytes[len - 1] != SNAPSHOT_END {
        return None;
    }
    let body = slice_subrange(bytes, 0, len - 1);
    assert(body@ =~= bytes@.drop_last());
    match read_spread(body) {
        None => None,
        Some(plain) => read_listing(plain.as_slice()),
    }
}

/// Reads a listing entry by entry.
fn read_listing(bytes: &[u8]) -> (r: Option<IndexBlock>)
    ensures
        match r {
            Some(block) => parse_listing(bytes@) == Some(block@),
            None => parse_listing(bytes@) is None,
        },
{
    if bytes.len() < 8 {
        return None;
    }
    let count: u64 = read_u64(bytes, 0);
    let mut block = IndexBlock::empty();
    let mut pos: usize = 8;
    let mut i: u64 = 0;
    assert(Seq::<IndexEntry>::empty() + parse_entries(bytes@.skip(8), count as nat)->0
        =~= parse_entries(bytes@.skip(8), count as nat)->0);
    while i < count
        invariant
            8 <= pos <= bytes@.len(),
            i <= count,
            parse_listing(bytes@) == match parse_entries(
                bytes@.skip(pos as int),
                (count - i) as nat,
            ) {
                None => None,
                Some(rest) => Some(block@ + rest),
            },
        decreases count - i,
    {
        match read_entry(bytes, pos) {
            None => {
                return None;
            },
            Some((data, next)) => {
                proof {
                    let here = bytes@.skip(pos as int);
                    assert(here.skip(next - pos) =~= bytes@.skip(next as int));
                    let after = parse_entries(bytes@.skip(next as int), (count - i - 1) as nat);
                    if after is Some {
                        assert(block@.push(data@) + after->0 =~= block@ + (seq![data@] + after->0));
                    }
                }
                block.append(data);
                pos = next;
                i += 1;
            },
        }
    }
    if pos != bytes.len() {
        return None;
    }
    proof {
        assert(bytes@.skip(pos as int) =~= Seq::<u8>::empty());
        assert(block@ + Seq::<IndexEntry>::empty() =~= block@);
    }
    Some(block)
}

} // verus!
