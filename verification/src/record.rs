use crate::error::SegmentError;
use vstd::prelude::*;
use vstd::string::*;
use vstd::utf8::*;

verus! {

/// The byte that parts a key from its value inside a record.
pub const DELIMITER: u8 = 0x3a;

/// A key can be stored when it is not empty and its UTF-8 bytes do not
/// hold the delimiter.
pub open spec fn valid_key(key: Seq<char>) -> bool {
    key.len() > 0 && !encode_utf8(key).contains(DELIMITER)
}

/// The bytes of one record: the key's UTF-8 bytes, the delimiter, then the
/// value, with no length in front.
pub open spec fn record_bytes(key: Seq<char>, value: Seq<u8>) -> Seq<u8> {
    encode_utf8(key).push(DELIMITER) + value
}

/// Whether `byte` occurs in `bytes`.
fn holds_byte(bytes: &[u8], byte: u8) -> (found: bool)
    ensures
        found == bytes@.contains(byte),
{
    let mut i: usize = 0;
    while i < bytes.len()
        invariant
            i <= bytes@.len(),
            forall|j: int| 0 <= j < i ==> bytes@[j] != byte,
        decreases bytes@.len() - i,
    {
        if bytes[i] == byte {
            return true;
        }
        i += 1;
    }
    false
}

/// Tells whether `key` can be stored in a record.
pub fn is_valid_key(key: &str) -> (ok: bool)
    ensures
        ok == valid_key(key@),
{
    !key.is_empty() && !holds_byte(key.as_bytes(), DELIMITER)
}

/// Encodes one record, or refuses the key.
pub fn encode_record(key: &str, value: &[u8]) -> (r: Result<Vec<u8>, SegmentError>)
    ensures
        match r {
            Ok(record) => valid_key(key@) && record@ == record_bytes(key@, value@),
            Err(e) => !valid_key(key@) && e == SegmentError::InvalidKey,
        },
{
    if !is_valid_key(key) {
        return Err(SegmentError::InvalidKey);
    }
    let mut record: Vec<u8> = Vec::new();
    record.extend_from_slice(key.as_bytes());
    record.push(DELIMITER);
    record.extend_from_slice(value);
    Ok(record)
}

/// In a record the value begins right after the key and the delimiter,
/// and runs to the record's end.
pub proof fn lemma_record_layout(key: Seq<char>, value: Seq<u8>)
    ensures
        record_bytes(key, value).len() == encode_utf8(key).len() + 1 + value.len(),
        record_bytes(key, value).subrange(
            encode_utf8(key).len() as int + 1,
            record_bytes(key, value).len() as int,
        ) == value,
        record_bytes(key, value).subrange(0, encode_utf8(key).len() as int) == encode_utf8(key),
        record_bytes(key, value)[encode_utf8(key).len() as int] == DELIMITER,
{
    let r = record_bytes(key, value);
    let k = encode_utf8(key);
    assert(r.subrange(k.len() as int + 1, r.len() as int) =~= value);
    assert(r.subrange(0, k.len() as int) =~= k);
}

} // verus!
