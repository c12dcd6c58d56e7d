use kvsegment::{IndexBlock, IndexData};

fn entry(key: &str, offset: u64, value_length: u64) -> IndexData {
    IndexData::new(key.to_string(), offset, value_length)
}

#[test]
fn index_data_new_keeps_its_arguments() {
    let data = IndexData::new(String::from("key1"), 5, 6);
    assert_eq!(data.index_key, "key1");
    assert_eq!(data.offset, 5);
    assert_eq!(data.value_length, 6);
}

#[test]
fn index_block_new_holds_one_entry() {
    let block = IndexBlock::new(entry("key1", 5, 6));
    assert_eq!(block.index_block, vec![entry("key1", 5, 6)]);
    assert_eq!(block.len(), 1);
}

#[test]
fn index_block_empty_holds_nothing() {
    let block = IndexBlock::empty();
    assert_eq!(block.len(), 0);
    assert_eq!(block.find("key1"), None);
}

#[test]
fn append_adds_at_the_end() {
    let mut block = IndexBlock::new(entry("a", 1, 2));
    block.append(entry("b", 3, 4));
    block.append(entry("a", 5, 6));
    assert_eq!(block.index_block, vec![entry("a", 1, 2), entry("b", 3, 4), entry("a", 5, 6)]);
}

#[test]
fn get_value_offset_is_that_of_the_second_entry() {
    let mut block = IndexBlock::new(entry("a", 1, 2));
    block.append(entry("b", 30, 4));
    block.append(entry("c", 500, 6));
    assert_eq!(*block.get_value_offset(), 30);
}

#[test]
fn find_gives_the_last_entry_with_the_key() {
    let mut block = IndexBlock::new(entry("a", 1, 2));
    block.append(entry("b", 3, 4));
    block.append(entry("a", 5, 6));
    block.append(entry("c", 7, 8));
    assert_eq!(block.find("a"), Some(2));
    assert_eq!(block.find("b"), Some(1));
    assert_eq!(block.find("c"), Some(3));
    assert_eq!(block.find("d"), None);
    assert_eq!(block.find(""), None);
    assert_eq!(block.find("ab"), None);
}

#[test]
fn upsert_of_a_new_key_appends() {
    let mut block = IndexBlock::empty();
    block.upsert(entry("a", 1, 2));
    block.upsert(entry("b", 3, 4));
    assert_eq!(block.index_block, vec![entry("a", 1, 2), entry("b", 3, 4)]);
}

#[test]
fn upsert_of_a_known_key_replaces_in_place() {
    let mut block = IndexBlock::new(entry("a", 1, 2));
    block.append(entry("b", 3, 4));
    block.append(entry("c", 5, 6));
    block.upsert(entry("b", 30, 40));
    assert_eq!(block.index_block, vec![entry("a", 1, 2), entry("b", 30, 40), entry("c", 5, 6)]);
    block.upsert(entry("a", 10, 20));
    assert_eq!(block.index_block, vec![entry("a", 10, 20), entry("b", 30, 40), entry("c", 5, 6)]);
}

#[test]
fn upsert_replaces_the_live_entry_of_a_repeated_key() {
    let mut block = IndexBlock::new(entry("a", 1, 2));
    block.append(entry("a", 3, 4));
    block.upsert(entry("a", 5, 6));
    assert_eq!(block.index_block, vec![entry("a", 1, 2), entry("a", 5, 6)]);
    assert_eq!(block.find("a"), Some(1));
}
