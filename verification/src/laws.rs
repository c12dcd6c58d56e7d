use crate::error::SegmentError;
use crate::footer::{footer_bytes, lemma_footer_high_byte, lemma_footer_round_trip};
use crate::index::{
    distinct_keys, lemma_live_index, lemma_upsert_distinct, lemma_upsert_live, lemma_upsert_other,
    live_index, upsert, IndexEntry,
};
use crate::record::{lemma_record_layout, record_bytes, valid_key};
use crate::segment::{
    appended_entry, entry_value, index_after_put, prior_index, put_outcome, segment_get,
    segment_index, trailer_offset,
};
use crate::snapshot::{
    encodable, lemma_snapshot_bytes_unique, lemma_snapshot_round_trip, lemma_snapshot_shape,
    parse_snapshot, snapshot_bytes, SNAPSHOT_END,
};
use vstd::prelude::*;
use vstd::utf8::*;

verus! {

/// A successful write appends the record, the snapshot of the new index
/// and the footer, and nothing else; the segment then ends with a footer
/// that lies within bounds and points at exactly that snapshot, which is
/// read back as the new index.
pub proof fn lemma_put_layout(bytes: Seq<u8>, limit: usize, key: Seq<char>, value: Seq<u8>)
    requires
        put_outcome(bytes, limit, key, value).0 is Ok,
    ensures
        ({
            let after = put_outcome(bytes, limit, key, value).1;
            let record = record_bytes(key, value);
            let entries = index_after_put(bytes, key, value);
            let snapshot = snapshot_bytes(entries);
            &&& valid_key(key)
            &&& prior_index(bytes) is Ok
            &&& encodable(entries)
            &&& after.len() <= limit
            &&& after == bytes + record + snapshot + footer_bytes((bytes.len() + record.len()) as u64)
            &&& after.len() == bytes.len() + record.len() + snapshot.len() + 8
            &&& trailer_offset(after) == bytes.len() + record.len()
            &&& 0 <= trailer_offset(after) <= after.len() - 8
            &&& after.subrange(trailer_offset(after) as int, after.len() - 8) == snapshot
            &&& parse_snapshot(snapshot) == Some(entries)
            &&& segment_index(after) == Ok::<Seq<IndexEntry>, SegmentError>(entries)
        }),
{
    let after = put_outcome(bytes, limit, key, value).1;
    let record = record_bytes(key, value);
    let prior = prior_index(bytes)->Ok_0;
    let entry = appended_entry(bytes, key, value);
    let entries = index_after_put(bytes, key, value);
    let snapshot = snapshot_bytes(entries);
    let start = (bytes.len() + record.len()) as u64;
    lemma_record_layout(key, value);
    if bytes.len() >= 8 {
        let old_start = trailer_offset(bytes) as int;
        lemma_snapshot_bytes_unique(bytes.subrange(old_start, bytes.len() - 8));
    }
    lemma_live_index(prior, key);
    lemma_upsert_live(prior, entry);
    assert(encodable(entries)) by {
        assert forall|i: int| 0 <= i < entries.len() implies encode_utf8(
            (#[trigger] entries[i]).key,
        ).len() <= u64::MAX by {
            if i < prior.len() && entries[i] != entry {
                assert(entries[i] == prior[i]);
            }
        }
    }
    lemma_snapshot_round_trip(entries);
    lemma_footer_round_trip(start);
    assert(after.subrange(after.len() - 8, after.len() as int) =~= footer_bytes(start));
    assert(after.subrange(start as int, after.len() - 8) =~= snapshot);
}

/// Round trip: after `key` and `value` were written, reading `key` gives
/// exactly `value`.
pub proof fn lemma_put_then_get(bytes: Seq<u8>, limit: usize, key: Seq<char>, value: Seq<u8>)
    requires
        put_outcome(bytes, limit, key, value).0 is Ok,
    ensures
        segment_get(put_outcome(bytes, limit, key, value).1, key) == Ok::<Seq<u8>, SegmentError>(
            value,
        ),
{
    let after = put_outcome(bytes, limit, key, value).1;
    let entry = appended_entry(bytes, key, value);
    lemma_put_layout(bytes, limit, key, value);
    lemma_upsert_live(prior_index(bytes)->Ok_0, entry);
    lemma_record_layout(key, value);
    assert(after.subrange(entry.value_offset as int, entry.value_offset + entry.value_length)
        =~= value);
}

/// A write adds bytes at the end and changes none that were there.
pub proof fn lemma_put_appends(bytes: Seq<u8>, limit: usize, key: Seq<char>, value: Seq<u8>)
    ensures
        bytes.len() <= put_outcome(bytes, limit, key, value).1.len(),
        put_outcome(bytes, limit, key, value).1.subrange(0, bytes.len() as int) == bytes,
{
    let after = put_outcome(bytes, limit, key, value).1;
    assert(after.subrange(0, bytes.len() as int) =~= bytes);
}

/// Independence: a write under one key leaves what is read under every
/// other key as it was, be that a value or the answer that the key is not
/// there.
pub proof fn lemma_put_keeps_other_keys(
    bytes: Seq<u8>,
    limit: usize,
    key: Seq<char>,
    value: Seq<u8>,
    other: Seq<char>,
)
    requires
        put_outcome(bytes, limit, key, value).0 is Ok,
        other != key,
        segment_get(bytes, other) is Ok || segment_get(bytes, other) == Err::<
            Seq<u8>,
            SegmentError,
        >(SegmentError::KeyNotFound),
    ensures
        segment_get(put_outcome(bytes, limit, key, value).1, other) == segment_get(bytes, other),
{
    let after = put_outcome(bytes, limit, key, value).1;
    let prior = prior_index(bytes)->Ok_0;
    let entry = appended_entry(bytes, key, value);
    lemma_put_layout(bytes, limit, key, value);
    lemma_upsert_other(prior, entry, other);
    lemma_live_index(prior, other);
    if live_index(prior, other) is Some {
        let found = prior[live_index(prior, other)->0];
        assert(entry_value(bytes, found) is Ok);
        assert(after.subrange(found.value_offset as int, found.value_offset + found.value_length)
            =~= bytes.subrange(found.value_offset as int, found.value_offset + found.value_length));
    }
}

/// Where nothing was stored under a key in a segment without a footer,
/// a write under another key leaves that key not found.
pub proof fn lemma_first_put_has_one_key(
    bytes: Seq<u8>,
    limit: usize,
    key: Seq<char>,
    value: Seq<u8>,
    other: Seq<char>,
)
    requires
        put_outcome(bytes, limit, key, value).0 is Ok,
        bytes.len() < 8,
        other != key,
    ensures
        index_after_put(bytes, key, value) == seq![appended_entry(bytes, key, value)],
        segment_get(put_outcome(bytes, limit, key, value).1, other) == Err::<
            Seq<u8>,
            SegmentError,
        >(SegmentError::KeyNotFound),
{
    let entry = appended_entry(bytes, key, value);
    lemma_put_layout(bytes, limit, key, value);
    lemma_upsert_other(Seq::empty(), entry, other);
    assert(index_after_put(bytes, key, value) =~= seq![entry]);
}

/// Overwrite: of two writes under one key the later one is read, and the
/// second write adds no entry. Where no key was repeated in the index
/// before, none is afterwards, and exactly one entry carries the key.
pub proof fn lemma_overwrite(
    bytes: Seq<u8>,
    limit: usize,
    key: Seq<char>,
    first: Seq<u8>,
    second: Seq<u8>,
)
    requires
        put_outcome(bytes, limit, key, first).0 is Ok,
        put_outcome(put_outcome(bytes, limit, key, first).1, limit, key, second).0 is Ok,
    ensures
        ({
            let once = put_outcome(bytes, limit, key, first).1;
            let twice = put_outcome(once, limit, key, second).1;
            let entries = segment_index(twice)->Ok_0;
            &&& segment_get(twice, key) == Ok::<Seq<u8>, SegmentError>(second)
            &&& segment_index(once) is Ok
            &&& segment_index(twice) is Ok
            &&& entries.len() == segment_index(once)->Ok_0.len()
            &&& distinct_keys(prior_index(bytes)->Ok_0) ==> {
                &&& distinct_keys(entries)
                &&& forall|i: int|
                    0 <= i < entries.len() && (#[trigger] entries[i]).key == key ==> Some(i)
                        == live_index(entries, key)
            }
        }),
{
    let once = put_outcome(bytes, limit, key, first).1;
    let twice = put_outcome(once, limit, key, second).1;
    lemma_put_layout(bytes, limit, key, first);
    lemma_put_layout(once, limit, key, second);
    lemma_put_then_get(once, limit, key, second);
    let start = prior_index(bytes)->Ok_0;
    let middle = segment_index(once)->Ok_0;
    lemma_upsert_live(start, appended_entry(bytes, key, first));
    lemma_upsert_live(middle, appended_entry(once, key, second));
    if distinct_keys(start) {
        lemma_upsert_distinct(start, appended_entry(bytes, key, first));
        lemma_upsert_distinct(middle, appended_entry(once, key, second));
    }
}

/// Three writes under three different keys, in whatever order the keys
/// come: each key then reads as the value written under it.
pub proof fn lemma_three_keys(
    bytes: Seq<u8>,
    limit: usize,
    keys: (Seq<char>, Seq<char>, Seq<char>),
    values: (Seq<u8>, Seq<u8>, Seq<u8>),
)
    requires
        keys.0 != keys.1,
        keys.0 != keys.2,
        keys.1 != keys.2,
        put_outcome(bytes, limit, keys.0, values.0).0 is Ok,
        put_outcome(put_outcome(bytes, limit, keys.0, values.0).1, limit, keys.1, values.1).0 is Ok,
        put_outcome(
            put_outcome(put_outcome(bytes, limit, keys.0, values.0).1, limit, keys.1, values.1).1,
            limit,
            keys.2,
            values.2,
        ).0 is Ok,
    ensures
        ({
            let one = put_outcome(bytes, limit, keys.0, values.0).1;
            let two = put_outcome(one, limit, keys.1, values.1).1;
            let three = put_outcome(two, limit, keys.2, values.2).1;
            &&& segment_get(three, keys.0) == Ok::<Seq<u8>, SegmentError>(values.0)
            &&& segment_get(three, keys.1) == Ok::<Seq<u8>, SegmentError>(values.1)
            &&& segment_get(three, keys.2) == Ok::<Seq<u8>, SegmentError>(values.2)
        }),
{
    let one = put_outcome(bytes, limit, keys.0, values.0).1;
    let two = put_outcome(one, limit, keys.1, values.1).1;
    lemma_put_then_get(bytes, limit, keys.0, values.0);
    lemma_put_then_get(one, limit, keys.1, values.1);
    lemma_put_then_get(two, limit, keys.2, values.2);
    lemma_put_keeps_other_keys(one, limit, keys.1, values.1, keys.0);
    lemma_put_keeps_other_keys(two, limit, keys.2, values.2, keys.0);
    lemma_put_keeps_other_keys(two, limit, keys.2, values.2, keys.1);
}

/// A segment nothing was written to, or one too short to hold a footer,
/// has no key to read.
pub proof fn lemma_short_segment_is_empty(bytes: Seq<u8>, key: Seq<char>)
    requires
        bytes.len() < 8,
    ensures
        segment_get(bytes, key) == Err::<Seq<u8>, SegmentError>(SegmentError::EmptySegment),
{
}

/// A segment cut short inside its current snapshot or inside its footer
/// is never read: what a successful write left behind, cut to any length
/// past the place where the snapshot begins, fails every read with
/// `CorruptIndex`. No byte of a snapshot is below 0x80, so eight bytes
/// that end inside one point past any region; and a snapshot ends with a
/// byte that none of its other bytes is, so what ends inside the footer
/// points at nothing that ends like a snapshot.
pub proof fn lemma_cut_is_reported(
    bytes: Seq<u8>,
    limit: usize,
    key: Seq<char>,
    value: Seq<u8>,
    cut: int,
    probe: Seq<char>,
)
    requires
        put_outcome(bytes, limit, key, value).0 is Ok,
        limit < 0x8000_0000_0000_0000,
        8 <= cut < put_outcome(bytes, limit, key, value).1.len(),
        trailer_offset(put_outcome(bytes, limit, key, value).1) < cut,
    ensures
        segment_get(put_outcome(bytes, limit, key, value).1.take(cut), probe) == Err::<
            Seq<u8>,
            SegmentError,
        >(SegmentError::CorruptIndex),
{
    let after = put_outcome(bytes, limit, key, value).1;
    let entries = index_after_put(bytes, key, value);
    let snapshot = snapshot_bytes(entries);
    let start = trailer_offset(after) as int;
    let part = after.take(cut);
    lemma_put_layout(bytes, limit, key, value);
    lemma_snapshot_shape(entries);
    assert(forall|i: int| 0 <= i < snapshot.len() ==> after[start + i] == snapshot[i]);
    let window = part.subrange(cut - 8, cut);
    if cut <= after.len() - 8 {
        assert(window[7] == snapshot[cut - 1 - start]);
        assert(window[7] >= 0x80) by {
            if cut - 1 - start < snapshot.len() - 1 {
                assert(0x80 <= snapshot[cut - 1 - start]);
            }
        }
        lemma_footer_high_byte(window);
    } else if trailer_offset(part) <= cut - 8 {
        let found = part.subrange(trailer_offset(part) as int, cut - 8);
        if parse_snapshot(found) is Some {
            assert(found.last() == part[cut - 9]);
            assert(part[cut - 9] == snapshot[cut - 9 - start]);
            assert(snapshot[cut - 9 - start] <= 0x8f);
        }
    }
}

/// Whatever the bytes are: where the last eight of them point past the
/// place a snapshot could begin, or the bytes they point at are not, to
/// the byte, the encoding of a snapshot, every read fails with
/// `CorruptIndex`.
pub proof fn lemma_corruption_is_reported(bytes: Seq<u8>, key: Seq<char>)
    requires
        bytes.len() >= 8,
        trailer_offset(bytes) > bytes.len() - 8 || forall|entries: Seq<IndexEntry>|
            encodable(entries) ==> #[trigger] snapshot_bytes(entries) != bytes.subrange(
                trailer_offset(bytes) as int,
                bytes.len() - 8,
            ),
    ensures
        segment_get(bytes, key) == Err::<Seq<u8>, SegmentError>(SegmentError::CorruptIndex),
{
    if trailer_offset(bytes) <= bytes.len() - 8 {
        let snapshot = bytes.subrange(trailer_offset(bytes) as int, bytes.len() - 8);
        if parse_snapshot(snapshot) is Some {
            lemma_snapshot_bytes_unique(snapshot);
            assert(snapshot_bytes(parse_snapshot(snapshot)->0) == snapshot);
        }
    }
}

/// What a read returns is never anything but the bytes that the live
/// entry of a well-formed trailer points at, within the segment.
pub proof fn lemma_get_is_sound(bytes: Seq<u8>, key: Seq<char>)
    requires
        segment_get(bytes, key) is Ok,
    ensures
        ({
            let start = trailer_offset(bytes) as int;
            let entries = segment_index(bytes)->Ok_0;
            let at = live_index(entries, key)->0;
            &&& 8 <= bytes.len()
            &&& 0 <= start <= bytes.len() - 8
            &&& bytes.subrange(start, bytes.len() - 8) == snapshot_bytes(entries)
            &&& live_index(entries, key) is Some
            &&& 0 <= at < entries.len()
            &&& entries[at].key == key
            &&& entries[at].value_offset + entries[at].value_length <= bytes.len()
            &&& segment_get(bytes, key)->Ok_0 == bytes.subrange(
                entries[at].value_offset as int,
                entries[at].value_offset + entries[at].value_length,
            )
        }),
{
    let start = trailer_offset(bytes) as int;
    lemma_snapshot_bytes_unique(bytes.subrange(start, bytes.len() - 8));
    lemma_live_index(segment_index(bytes)->Ok_0, key);
}

} // verus!
