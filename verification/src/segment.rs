use crate::error::SegmentError;
use crate::footer::{footer_bytes, footer_offset, Footer};
use crate::index::{live_index, upsert, IndexBlock, IndexData, IndexEntry};
use crate::laws::{lemma_put_appends, lemma_put_layout, lemma_put_then_get};
use crate::record::{encode_record, record_bytes, valid_key};
use crate::region::MappedRegion;
use crate::snapshot::{parse_snapshot, snapshot_bytes};
use vstd::prelude::*;
use vstd::slice::*;
use vstd::string::*;
use vstd::utf8::*;

verus! {

/// One segment: data records, index snapshots and footers in one region.
/// The last eight bytes are the footer; it tells where the current
/// snapshot begins, and that snapshot ends where the footer begins.
/// Nothing else is kept between operations: every read goes by the bytes.
pub struct Segment {
    pub region: MappedRegion,
}

impl View for Segment {
    type V = Seq<u8>;

    open spec fn view(&self) -> Seq<u8> {
        self.region@
    }
}

/// The offset that the footer at the end of `bytes` holds.
pub open spec fn trailer_offset(bytes: Seq<u8>) -> u64
    recommends
        bytes.len() >= 8,
{
    footer_offset(bytes.subrange(bytes.len() - 8, bytes.len() as int))
}

/// The current index of a segment, read from its end backward: the footer,
/// then the snapshot between the footer's offset and the footer.
pub open spec fn segment_index(bytes: Seq<u8>) -> Result<Seq<IndexEntry>, SegmentError> {
    if bytes.len() < 8 {
        Err(SegmentError::EmptySegment)
    } else if trailer_offset(bytes) > bytes.len() - 8 {
        Err(SegmentError::CorruptIndex)
    } else {
        match parse_snapshot(bytes.subrange(trailer_offset(bytes) as int, bytes.len() - 8)) {
            None => Err(SegmentError::CorruptIndex),
            Some(entries) => Ok(entries),
        }
    }
}

/// The bytes that `entry` points at.
pub open spec fn entry_value(bytes: Seq<u8>, entry: IndexEntry) -> Result<Seq<u8>, SegmentError> {
    if entry.value_offset + entry.value_length > bytes.len() {
        Err(SegmentError::OutOfBounds)
    } else {
        Ok(bytes.subrange(entry.value_offset as int, entry.value_offset + entry.value_length))
    }
}

/// What reading `key` from a segment with these bytes gives.
pub open spec fn segment_get(bytes: Seq<u8>, key: Seq<char>) -> Result<Seq<u8>, SegmentError> {
    match segment_index(bytes) {
        Err(e) => Err(e),
        Ok(entries) => match live_index(entries, key) {
            None => Err(SegmentError::KeyNotFound),
            Some(i) => entry_value(bytes, entries[i]),
        },
    }
}

/// The index that a write starts from: the current one, or none at all
/// where the segment is too short to hold a footer.
pub open spec fn prior_index(bytes: Seq<u8>) -> Result<Seq<IndexEntry>, SegmentError> {
    if bytes.len() < 8 {
        Ok(Seq::empty())
    } else {
        segment_index(bytes)
    }
}

/// The entry for a record that is appended to `bytes`: the value begins
/// after the key and the delimiter.
pub open spec fn appended_entry(bytes: Seq<u8>, key: Seq<char>, value: Seq<u8>) -> IndexEntry {
    IndexEntry {
        key,
        value_offset: (bytes.len() + encode_utf8(key).len() + 1) as u64,
        value_length: value.len() as u64,
    }
}

/// The index that a successful write leaves behind: the index it started
/// from, with the entry for the appended record recorded in it.
pub open spec fn index_after_put(bytes: Seq<u8>, key: Seq<char>, value: Seq<u8>) -> Seq<
    IndexEntry,
>
    recommends
        prior_index(bytes) is Ok,
{
    upsert(prior_index(bytes)->Ok_0, appended_entry(bytes, key, value))
}

/// What writing `key` and `value` to a segment with these bytes does: the
/// result, and the bytes afterwards. The record, the new snapshot and the
/// new footer are appended in this order, each after the region has grown
/// for it; where a step fails, what was appended before it stays.
pub open spec fn put_outcome(bytes: Seq<u8>, limit: usize, key: Seq<char>, value: Seq<u8>) -> (
    Result<(), SegmentError>,
    Seq<u8>,
) {
    let record = record_bytes(key, value);
    let with_record = bytes + record;
    if !valid_key(key) {
        (Err(SegmentError::InvalidKey), bytes)
    } else if with_record.len() > limit {
        (Err(SegmentError::GrowFailed), bytes)
    } else {
        match prior_index(bytes) {
            Err(e) => (Err(e), with_record),
            Ok(entries) => {
                let snapshot = snapshot_bytes(upsert(entries, appended_entry(bytes, key, value)));
                let with_snapshot = with_record + snapshot;
                if with_snapshot.len() > limit {
                    (Err(SegmentError::GrowFailed), with_record)
                } else if with_snapshot.len() + 8 > limit {
                    (Err(SegmentError::GrowFailed), with_snapshot)
                } else {
                    (Ok(()), with_snapshot + footer_bytes(with_record.len() as u64))
                }
            },
        }
    }
}

/// Reads the index of the segment formed by the first `end` bytes.
fn read_index(region: &MappedRegion, end: u64) -> (r: Result<IndexBlock, SegmentError>)
    requires
        end <= region@.len(),
    ensures
        match r {
            Ok(block) => segment_index(region@.take(end as int)) == Ok::<
                Seq<IndexEntry>,
                SegmentError,
            >(block@),
            Err(e) => segment_index(region@.take(end as int)) == Err::<
                Seq<IndexEntry>,
                SegmentError,
            >(e),
        },
{
    let ghost bytes = region@.take(end as int);
    if end < 8 {
        return Err(SegmentError::EmptySegment);
    }
    let tail = match region.read(end - 8, end) {
        Ok(tail) => tail,
        Err(e) => {
            return Err(e);
        },
    };
    assert(tail@ =~= bytes.subrange(bytes.len() - 8, bytes.len() as int));
    let footer = match Footer::from_bytes(tail) {
        Ok(footer) => footer,
        Err(e) => {
            return Err(e);
        },
    };
    let start: u64 = footer.index_block_offset;
    if start > end - 8 {
        return Err(SegmentError::CorruptIndex);
    }
    let snapshot = match region.read(start, end - 8) {
        Ok(snapshot) => snapshot,
        Err(e) => {
            return Err(e);
        },
    };
    assert(snapshot@ =~= bytes.subrange(start as int, bytes.len() - 8));
    IndexBlock::get_deserialized(snapshot)
}

/// Makes the region longer by `bytes` and writes them into the new room.
fn append(region: &mut MappedRegion, bytes: &[u8]) -> (r: Result<(), SegmentError>)
    ensures
        final(region).spec_limit() == old(region).spec_limit(),
        match r {
            Ok(()) => old(region)@.len() + bytes@.len() <= old(region).spec_limit() && final(region)@ == old(region)@ + bytes@,
            Err(e) => e == SegmentError::GrowFailed && old(region)@.len() + bytes@.len() > old(region).spec_limit() && final(region)@ == old(region)@,
        },
{
    let start: u64 = region.len();
    match region.grow_by(bytes.len() as u64) {
        Ok(()) => {},
        Err(e) => {
            return Err(e);
        },
    }
    match region.write(start, bytes) {
        Ok(()) => {},
        Err(e) => {
            return Err(e);
        },
    }
    assert(region@ =~= old(region)@ + bytes@);
    Ok(())
}

impl Segment {
    /// A segment over `region`, whatever the region holds.
    pub fn new(region: MappedRegion) -> (segment: Self)
        ensures
            segment.region == region,
    {
        Self { region }
    }

    /// The current index snapshot.
    pub fn index(&self) -> (r: Result<IndexBlock, SegmentError>)
        ensures
            match r {
                Ok(block) => segment_index(self@) == Ok::<Seq<IndexEntry>, SegmentError>(block@),
                Err(e) => segment_index(self@) == Err::<Seq<IndexEntry>, SegmentError>(e),
            },
    {
        let len: u64 = self.region.len();
        assert(self@.take(len as int) =~= self@);
        read_index(&self.region, len)
    }

    /// The value stored under `key`: the bytes that the live entry for
    /// `key` in the current snapshot points at. The region may hold any
    /// bytes at all: what cannot be read is answered with an error.
    pub fn get(&self, key: &str) -> (r: Result<Vec<u8>, SegmentError>)
        ensures
            match r {
                Ok(value) => segment_get(self@, key@) == Ok::<Seq<u8>, SegmentError>(value@),
                Err(e) => segment_get(self@, key@) == Err::<Seq<u8>, SegmentError>(e),
            },
            self@.len() < 8 ==> r == Err::<Vec<u8>, SegmentError>(SegmentError::EmptySegment),
    {
        let index = match self.index() {
            Ok(index) => index,
            Err(e) => {
                return Err(e);
            },
        };
        let at: usize = match index.find(key) {
            Some(at) => at,
            None => {
                return Err(SegmentError::KeyNotFound);
            },
        };
        let entry = &index.index_block[at];
        let len: u64 = self.region.len();
        if entry.value_length > len || entry.offset > len - entry.value_length {
            return Err(SegmentError::OutOfBounds);
        }
        match self.region.read(entry.offset, entry.offset + entry.value_length) {
            Ok(value) => Ok(slice_to_vec(value)),
            Err(e) => Err(e),
        }
    }

    /// Stores `value` under `key`: appends the record, then a snapshot of
    /// the whole index with the new entry in it, then the footer that
    /// points at that snapshot.
    pub fn put(&mut self, key: &str, value: &[u8]) -> (r: Result<(), SegmentError>)
        ensures
            final(self).region.spec_limit() == old(self).region.spec_limit(),
            (r, final(self)@) == put_outcome(
                old(self)@,
                old(self).region.spec_limit(),
                key@,
                value@,
            ),
            old(self)@.len() <= final(self)@.len(),
            final(self)@.subrange(0, old(self)@.len() as int) == old(self)@,
            r is Ok ==> segment_index(final(self)@) == Ok::<Seq<IndexEntry>, SegmentError>(
                index_after_put(old(self)@, key@, value@),
            ),
            r is Ok ==> segment_get(final(self)@, key@) == Ok::<Seq<u8>, SegmentError>(value@),
    {
        let ghost before = self@;
        proof {
            let limit = self.region.spec_limit();
            lemma_put_appends(before, limit, key@, value@);
            if put_outcome(before, limit, key@, value@).0 is Ok {
                lemma_put_layout(before, limit, key@, value@);
                lemma_put_then_get(before, limit, key@, value@);
            }
        }
        let record = match encode_record(key, value) {
            Ok(record) => record,
            Err(e) => {
                return Err(e);
            },
        };
        let record_start: u64 = self.region.len();
        match append(&mut self.region, record.as_slice()) {
            Ok(()) => {},
            Err(e) => {
                return Err(e);
            },
        }
        assert(self@.take(record_start as int) =~= before);
        let mut index = if record_start < 8 {
            IndexBlock::empty()
        } else {
            match read_index(&self.region, record_start) {
                Ok(index) => index,
                Err(e) => {
                    return Err(e);
                },
            }
        };
        let value_offset: u64 = record_start + key.len() as u64 + 1;
        index.upsert(IndexData::new(key.to_owned(), value_offset, value.len() as u64));
        let snapshot = index.get_serialized();
        let snapshot_start: u64 = self.region.len();
        match append(&mut self.region, snapshot.as_slice()) {
            Ok(()) => {},
            Err(e) => {
                return Err(e);
            },
        }
        let footer = Footer { index_block_offset: snapshot_start }.to_bytes();
        match append(&mut self.region, footer.as_slice()) {
            Ok(()) => {},
            Err(e) => {
                return Err(e);
            },
        }
        Ok(())
    }
}

} // verus!
