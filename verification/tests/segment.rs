use kvsegment::{Footer, IndexBlock, IndexData, MappedRegion, Segment, SegmentError};

const ROOM: usize = 1 << 20;

fn fresh() -> Segment {
    Segment::new(MappedRegion::new(ROOM))
}

fn over(bytes: Vec<u8>) -> Segment {
    Segment::new(MappedRegion::from_bytes(bytes, ROOM))
}

fn entry(key: &str, offset: u64, value_length: u64) -> IndexData {
    IndexData::new(key.to_string(), offset, value_length)
}

fn le(x: u64) -> Vec<u8> {
    x.to_le_bytes().to_vec()
}

/// A listing as a snapshot stores it: two bytes for each byte, then the
/// end byte.
fn stored(listing: &[u8]) -> Vec<u8> {
    let mut out = Vec::new();
    for b in listing {
        out.push(0x80 + b / 16);
        out.push(0x80 + b % 16);
    }
    out.push(0xff);
    out
}

/// Every cut past the place where the current snapshot begins must be
/// reported as corrupt, whatever key is asked for.
fn assert_cuts_are_reported(whole: &Segment, keys: &[&str]) {
    let bytes = whole.region.as_bytes();
    let start = trailer(whole) as usize;
    for len in (start + 1).max(8)..bytes.len() {
        let cut = over(bytes[..len].to_vec());
        assert_eq!(cut.index(), Err(SegmentError::CorruptIndex), "cut to {}", len);
        for key in keys {
            assert_eq!(cut.get(key), Err(SegmentError::CorruptIndex), "cut to {}", len);
        }
    }
}

fn three_keys() -> Segment {
    let mut segment = fresh();
    segment.put("key1", b"value1").unwrap();
    segment.put("key2", b"value2").unwrap();
    segment.put("key3", b"value3").unwrap();
    segment
}

fn trailer(segment: &Segment) -> u64 {
    let bytes = segment.region.as_bytes();
    Footer::from_bytes(&bytes[bytes.len() - 8..]).unwrap().index_block_offset
}

#[test]
fn get_on_a_fresh_segment_is_empty_segment() {
    let segment = fresh();
    assert_eq!(segment.get("key1"), Err(SegmentError::EmptySegment));
    assert_eq!(segment.get(""), Err(SegmentError::EmptySegment));
    assert_eq!(segment.index(), Err(SegmentError::EmptySegment));
}

#[test]
fn get_on_fewer_than_eight_bytes_is_empty_segment() {
    for len in 0..8usize {
        let segment = over(vec![0u8; len]);
        assert_eq!(segment.get("key1"), Err(SegmentError::EmptySegment));
    }
}

#[test]
fn put_then_get_returns_the_value() {
    let mut segment = fresh();
    assert_eq!(segment.put("key", b"some value"), Ok(()));
    assert_eq!(segment.get("key"), Ok(b"some value".to_vec()));
}

#[test]
fn put_then_get_round_trips_odd_values() {
    let values: [&[u8]; 5] = [b"", b":", b"a:b:c", &[0u8, 255, 0, 58, 10], &[7u8; 1000]];
    let mut segment = fresh();
    for (i, value) in values.iter().enumerate() {
        let key = format!("clé-{}", i);
        assert_eq!(segment.put(&key, value), Ok(()));
        assert_eq!(segment.get(&key), Ok(value.to_vec()));
    }
    for (i, value) in values.iter().enumerate() {
        let key = format!("clé-{}", i);
        assert_eq!(segment.get(&key), Ok(value.to_vec()));
    }
}

#[test]
fn first_put_lays_out_record_snapshot_footer() {
    let mut segment = fresh();
    segment.put("key1", b"value1").unwrap();
    let mut listing = le(1);
    listing.extend(le(4));
    listing.extend(b"key1");
    listing.extend(le(5));
    listing.extend(le(6));
    let mut expected = b"key1:value1".to_vec();
    expected.extend(stored(&listing));
    expected.extend(le(11));
    assert_eq!(segment.region.as_bytes(), &expected[..]);
    assert_eq!(segment.region.len(), 11 + 73 + 8);
}

#[test]
fn value_offset_points_at_the_first_value_byte() {
    let mut segment = fresh();
    segment.put("key1", b"value1").unwrap();
    segment.put("k2", b"xyz").unwrap();
    let index = segment.index().unwrap();
    assert_eq!(index.index_block, vec![entry("key1", 5, 6), entry("k2", 95, 3)]);
    assert_eq!(segment.region.read(5, 11), Ok(&b"value1"[..]));
    assert_eq!(segment.region.read(95, 98), Ok(&b"xyz"[..]));
    assert_eq!(segment.region.read(92, 95), Ok(&b"k2:"[..]));
}

#[test]
fn three_keys_scenario() {
    let segment = three_keys();
    assert_eq!(segment.get("key1"), Ok(b"value1".to_vec()));
    assert_eq!(segment.get("key2"), Ok(b"value2".to_vec()));
    assert_eq!(segment.get("key3"), Ok(b"value3".to_vec()));
    let index = segment.index().unwrap();
    assert_eq!(
        index.index_block,
        vec![entry("key1", 5, 6), entry("key2", 97, 6), entry("key3", 245, 6)]
    );
    assert_eq!(segment.region.len(), 444);
    assert_eq!(trailer(&segment), 251);
    let bytes = segment.region.as_bytes();
    assert_eq!(IndexBlock::get_deserialized(&bytes[251..436]), Ok(index));
}

#[test]
fn older_snapshots_and_footers_stay_in_place() {
    let segment = three_keys();
    let bytes = segment.region.as_bytes();
    assert_eq!(&bytes[0..11], b"key1:value1");
    assert_eq!(
        IndexBlock::get_deserialized(&bytes[11..84]),
        Ok(IndexBlock::new(entry("key1", 5, 6)))
    );
    assert_eq!(Footer::from_bytes(&bytes[84..92]), Ok(Footer { index_block_offset: 11 }));
    assert_eq!(&bytes[92..103], b"key2:value2");
    assert_eq!(Footer::from_bytes(&bytes[232..240]), Ok(Footer { index_block_offset: 103 }));
    assert_eq!(&bytes[240..251], b"key3:value3");
}

#[test]
fn overwrite_returns_the_later_value() {
    let mut segment = fresh();
    segment.put("k", b"v1").unwrap();
    segment.put("k", b"second").unwrap();
    assert_eq!(segment.get("k"), Ok(b"second".to_vec()));
    let index = segment.index().unwrap();
    assert_eq!(index.index_block.len(), 1);
    assert_eq!(index.index_block.iter().filter(|d| d.index_key == "k").count(), 1);
}

#[test]
fn overwrite_keeps_the_position_of_the_key() {
    let mut segment = three_keys();
    segment.put("key2", b"again").unwrap();
    let index = segment.index().unwrap();
    assert_eq!(
        index.index_block,
        vec![entry("key1", 5, 6), entry("key2", 449, 5), entry("key3", 245, 6)]
    );
    assert_eq!(segment.get("key1"), Ok(b"value1".to_vec()));
    assert_eq!(segment.get("key2"), Ok(b"again".to_vec()));
    assert_eq!(segment.get("key3"), Ok(b"value3".to_vec()));
}

#[test]
fn keys_are_independent_of_insertion_order() {
    let pairs: [(&str, &[u8]); 3] = [("a", b"1"), ("b", b"2"), ("c", b"3")];
    let orders = [[0, 1, 2], [0, 2, 1], [1, 0, 2], [1, 2, 0], [2, 0, 1], [2, 1, 0]];
    for order in orders {
        let mut segment = fresh();
        for i in order {
            assert_eq!(segment.put(pairs[i].0, pairs[i].1), Ok(()));
        }
        for (key, value) in pairs {
            assert_eq!(segment.get(key), Ok(value.to_vec()));
        }
        assert_eq!(segment.index().unwrap().len(), 3);
    }
}

#[test]
fn get_of_an_unknown_key_is_key_not_found() {
    let segment = three_keys();
    assert_eq!(segment.get("key4"), Err(SegmentError::KeyNotFound));
    assert_eq!(segment.get("key"), Err(SegmentError::KeyNotFound));
    assert_eq!(segment.get(""), Err(SegmentError::KeyNotFound));
}

#[test]
fn length_is_footer_position_plus_eight_after_every_put() {
    let mut segment = fresh();
    let mut before: u64 = 0;
    for i in 0..20u64 {
        let key = format!("key{}", i % 7);
        let value = vec![i as u8; (i * 3) as usize];
        segment.put(&key, &value).unwrap();
        let len = segment.region.len();
        let start = trailer(&segment);
        assert_eq!(start, before + key.len() as u64 + 1 + value.len() as u64);
        assert!(start <= len - 8);
        let bytes = segment.region.as_bytes();
        let snapshot = &bytes[start as usize..(len - 8) as usize];
        let decoded = IndexBlock::get_deserialized(snapshot).unwrap();
        assert_eq!(start + decoded.get_serialized().len() as u64 + 8, len);
        assert_eq!(Ok(decoded), segment.index());
        before = len;
    }
}

#[test]
fn put_refuses_an_invalid_key_and_writes_nothing() {
    let mut segment = three_keys();
    assert_eq!(segment.put("", b"v"), Err(SegmentError::InvalidKey));
    assert_eq!(segment.put("a:b", b"v"), Err(SegmentError::InvalidKey));
    assert_eq!(segment.region.len(), 444);
    assert_eq!(segment.get("key3"), Ok(b"value3".to_vec()));
}

#[test]
fn put_fails_to_grow_for_the_record() {
    let mut segment = Segment::new(MappedRegion::new(10));
    assert_eq!(segment.put("key1", b"value1"), Err(SegmentError::GrowFailed));
    assert_eq!(segment.region.len(), 0);
}

#[test]
fn put_fails_to_grow_for_the_snapshot_and_keeps_the_record() {
    let mut segment = Segment::new(MappedRegion::new(83));
    assert_eq!(segment.put("key1", b"value1"), Err(SegmentError::GrowFailed));
    assert_eq!(segment.region.as_bytes(), b"key1:value1");
}

#[test]
fn put_fails_to_grow_for_the_footer_and_keeps_record_and_snapshot() {
    let mut segment = Segment::new(MappedRegion::new(91));
    assert_eq!(segment.put("key1", b"value1"), Err(SegmentError::GrowFailed));
    assert_eq!(segment.region.len(), 84);
    assert_eq!(&segment.region.as_bytes()[..11], b"key1:value1");
    assert_eq!(
        IndexBlock::get_deserialized(&segment.region.as_bytes()[11..]),
        Ok(IndexBlock::new(entry("key1", 5, 6)))
    );
}

#[test]
fn put_fits_exactly_into_the_limit() {
    let mut segment = Segment::new(MappedRegion::new(92));
    assert_eq!(segment.put("key1", b"value1"), Ok(()));
    assert_eq!(segment.region.len(), 92);
    assert_eq!(segment.get("key1"), Ok(b"value1".to_vec()));
}

#[test]
fn put_on_a_short_region_starts_an_index_of_its_own() {
    let mut segment = over(vec![9u8; 5]);
    assert_eq!(segment.put("k", b"v"), Ok(()));
    assert_eq!(segment.index().unwrap().index_block, vec![entry("k", 7, 1)]);
    assert_eq!(segment.get("k"), Ok(b"v".to_vec()));
    assert_eq!(&segment.region.as_bytes()[..8], &[9u8, 9, 9, 9, 9, b'k', b':', b'v']);
}

#[test]
fn put_on_a_corrupt_trailer_fails_after_the_record() {
    let mut bytes = b"key1:value1".to_vec();
    bytes.extend(le(1000));
    let mut segment = over(bytes.clone());
    assert_eq!(segment.put("k", b"v"), Err(SegmentError::CorruptIndex));
    bytes.extend(b"k:v");
    assert_eq!(segment.region.as_bytes(), &bytes[..]);
}

#[test]
fn footer_past_the_snapshot_start_is_corrupt() {
    let mut bytes = vec![0u8; 8];
    bytes.extend(le(9));
    let segment = over(bytes);
    assert_eq!(segment.get("k"), Err(SegmentError::CorruptIndex));
    assert_eq!(segment.index(), Err(SegmentError::CorruptIndex));
}

#[test]
fn footer_at_the_snapshot_end_has_no_snapshot() {
    let segment = over(le(0));
    assert_eq!(segment.get("k"), Err(SegmentError::CorruptIndex));
}

#[test]
fn empty_snapshot_has_no_keys() {
    let mut bytes = stored(&le(0));
    bytes.extend(le(0));
    let segment = over(bytes);
    assert_eq!(segment.index(), Ok(IndexBlock::empty()));
    assert_eq!(segment.get("k"), Err(SegmentError::KeyNotFound));
}

#[test]
fn entry_that_points_past_the_end_is_out_of_bounds() {
    let mut bytes = b"k:v".to_vec();
    bytes.extend(IndexBlock::new(entry("k", 2, 1000)).get_serialized());
    bytes.extend(le(3));
    assert_eq!(over(bytes).get("k"), Err(SegmentError::OutOfBounds));
    let mut bytes = b"k:v".to_vec();
    bytes.extend(IndexBlock::new(entry("k", u64::MAX, 2)).get_serialized());
    bytes.extend(le(3));
    assert_eq!(over(bytes).get("k"), Err(SegmentError::OutOfBounds));
    let mut bytes = b"k:v".to_vec();
    bytes.extend(IndexBlock::new(entry("k", 2, 1)).get_serialized());
    bytes.extend(le(3));
    assert_eq!(over(bytes).get("k"), Ok(b"v".to_vec()));
}

#[test]
fn get_reads_the_last_entry_of_a_repeated_key() {
    let mut index = IndexBlock::new(entry("k", 0, 1));
    index.append(entry("k", 2, 1));
    let mut bytes = b"k:v".to_vec();
    bytes.extend(index.get_serialized());
    bytes.extend(le(3));
    assert_eq!(over(bytes).get("k"), Ok(b"v".to_vec()));
}

#[test]
fn cut_inside_the_footer_is_reported() {
    let whole = three_keys();
    let bytes = whole.region.as_bytes();
    for len in 437..444usize {
        let segment = over(bytes[..len].to_vec());
        assert_eq!(segment.get("key1"), Err(SegmentError::CorruptIndex), "cut to {}", len);
        assert_eq!(segment.get("key3"), Err(SegmentError::CorruptIndex), "cut to {}", len);
    }
}

#[test]
fn cut_inside_the_snapshot_is_reported() {
    let whole = three_keys();
    let bytes = whole.region.as_bytes();
    for len in 252..=436usize {
        let segment = over(bytes[..len].to_vec());
        assert_eq!(segment.get("key1"), Err(SegmentError::CorruptIndex), "cut to {}", len);
        assert_eq!(segment.get("key3"), Err(SegmentError::CorruptIndex), "cut to {}", len);
    }
}

#[test]
fn cut_at_an_older_footer_gives_the_older_state() {
    let whole = three_keys();
    let bytes = whole.region.as_bytes();
    let segment = over(bytes[..240].to_vec());
    assert_eq!(segment.get("key1"), Ok(b"value1".to_vec()));
    assert_eq!(segment.get("key2"), Ok(b"value2".to_vec()));
    assert_eq!(segment.get("key3"), Err(SegmentError::KeyNotFound));
}

#[test]
fn cut_after_every_put_is_reported() {
    let mut segment = fresh();
    for i in 0..12u64 {
        let key = format!("key{}", i % 5);
        let value = vec![(i * 37) as u8; (i * 11) as usize];
        segment.put(&key, &value).unwrap();
        assert_cuts_are_reported(&segment, &["key0", "key4", &key]);
    }
}

#[test]
fn cut_of_a_value_that_holds_a_plain_listing_is_reported() {
    let key = "k\u{1}\0\0\0\0\0\0\0";
    let inner_key = "a".repeat(58);
    let mut value = vec![0u8; 7];
    value.extend(inner_key.as_bytes());
    value.extend(le(16));
    value.extend(le(3));
    let mut whole = fresh();
    whole.put(key, &value).unwrap();
    assert_eq!(trailer(&whole), 91);
    assert_eq!(whole.get(key), Ok(value.clone()));
    let cut = over(whole.region.as_bytes()[..99].to_vec());
    assert_eq!(cut.index(), Err(SegmentError::CorruptIndex));
    assert_eq!(cut.get(key), Err(SegmentError::CorruptIndex));
    assert_eq!(cut.get(&inner_key), Err(SegmentError::CorruptIndex));
    assert_cuts_are_reported(&whole, &[key, &inner_key]);
}

#[test]
fn cut_inside_the_snapshot_after_a_value_that_ends_in_zeros_is_reported() {
    let mut value = vec![b'v'; 254];
    value.extend([0u8; 9]);
    assert_eq!(value.len(), 263);
    let mut whole = fresh();
    whole.put("k", &value).unwrap();
    assert_eq!(trailer(&whole), 265);
    let cut = over(whole.region.as_bytes()[..272].to_vec());
    assert_eq!(cut.get("k"), Err(SegmentError::CorruptIndex));
    assert_eq!(cut.get("other"), Err(SegmentError::CorruptIndex));
    assert_cuts_are_reported(&whole, &["k", "other"]);
}

#[test]
fn cut_inside_the_footer_after_a_key_that_looks_like_a_listing_is_reported() {
    let key = "\u{1}\0\0\0\0\0\0\0\u{9}\u{1}\0\0\0\0\0\0";
    assert_eq!(key.len(), 16);
    let value = vec![b'a'; 239];
    let mut whole = fresh();
    whole.put(key, &value).unwrap();
    assert_eq!(trailer(&whole), 256);
    let len = whole.region.len() as usize;
    let cut = over(whole.region.as_bytes()[..len - 7].to_vec());
    assert_eq!(cut.get(key), Err(SegmentError::CorruptIndex));
    assert_eq!(cut.get("a"), Err(SegmentError::CorruptIndex));
    assert_cuts_are_reported(&whole, &[key, "a"]);
}

#[test]
fn cut_of_a_value_that_holds_a_whole_segment_is_reported() {
    let mut inner = fresh();
    inner.put("inner", b"data").unwrap();
    let mut value = inner.region.as_bytes().to_vec();
    value.extend(IndexBlock::empty().get_serialized());
    value.extend(vec![0xffu8; 9]);
    value.extend(vec![0x80u8; 17]);
    let mut whole = fresh();
    whole.put("outer", &value).unwrap();
    assert_eq!(whole.get("outer"), Ok(value.clone()));
    assert_eq!(whole.get("inner"), Err(SegmentError::KeyNotFound));
    assert_cuts_are_reported(&whole, &["outer", "inner"]);
    whole.put("second", b"\xff\xff\xff\xff\xff\xff\xff\xff\xff").unwrap();
    assert_cuts_are_reported(&whole, &["outer", "inner", "second"]);
}
