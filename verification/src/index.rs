use vstd::prelude::*;
use vstd::string::*;
use vstd::utf8::*;

verus! {

/// What one index entry says: under which key a value was stored, at which
/// byte of the segment the value begins, and how many bytes it has.
pub struct IndexEntry {
    pub key: Seq<char>,
    pub value_offset: u64,
    pub value_length: u64,
}

/// One entry of an index snapshot.
#[derive(Clone, Debug, PartialEq, Eq)]
pub struct IndexData {
    pub index_key: String,
    pub offset: u64,
    pub value_length: u64,
}

/// An index snapshot: every entry known when it was written, in order.
/// Where a key occurs more than once, its last entry is the live one.
#[derive(Clone, Debug, PartialEq, Eq)]
pub struct IndexBlock {
    pub index_block: Vec<IndexData>,
}

impl View for IndexData {
    type V = IndexEntry;

    open spec fn view(&self) -> IndexEntry {
        IndexEntry {
            key: self.index_key@,
            value_offset: self.offset,
            value_length: self.value_length,
        }
    }
}

/// The entries that a vector of index data stands for.
pub open spec fn entries_of(data: Seq<IndexData>) -> Seq<IndexEntry> {
    Seq::new(data.len(), |i: int| data[i]@)
}

impl View for IndexBlock {
    type V = Seq<IndexEntry>;

    open spec fn view(&self) -> Seq<IndexEntry> {
        entries_of(self.index_block@)
    }
}

/// The position of the live entry for `key`: the last entry that carries
/// it, if there is one.
pub open spec fn live_index(entries: Seq<IndexEntry>, key: Seq<char>) -> Option<int>
    decreases entries.len(),
{
    if entries.len() == 0 {
        None
    } else if entries.last().key == key {
        Some(entries.len() - 1)
    } else {
        live_index(entries.drop_last(), key)
    }
}

/// The entries after `entry` was recorded: it takes the place of the live
/// entry for its key, or goes to the end when the key is new.
pub open spec fn upsert(entries: Seq<IndexEntry>, entry: IndexEntry) -> Seq<IndexEntry> {
    match live_index(entries, entry.key) {
        Some(i) => entries.update(i, entry),
        None => entries.push(entry),
    }
}

/// No key occurs in two entries.
pub open spec fn distinct_keys(entries: Seq<IndexEntry>) -> bool {
    forall|i: int, j: int|
        0 <= i < j < entries.len() ==> (#[trigger] entries[i]).key != (#[trigger] entries[j]).key
}

/// `live_index` finds a position that carries the key and has no later
/// entry with it, and finds none only if no entry carries the key.
pub proof fn lemma_live_index(entries: Seq<IndexEntry>, key: Seq<char>)
    ensures
        match live_index(entries, key) {
            Some(i) => {
                &&& 0 <= i < entries.len()
                &&& entries[i].key == key
                &&& forall|j: int| i < j < entries.len() ==> (#[trigger] entries[j]).key != key
            },
            None => forall|j: int| 0 <= j < entries.len() ==> (#[trigger] entries[j]).key != key,
        },
    decreases entries.len(),
{
    if entries.len() > 0 && entries.last().key != key {
        let front = entries.drop_last();
        lemma_live_index(front, key);
        assert(forall|j: int| 0 <= j < front.len() ==> front[j] == entries[j]);
    }
}

/// A position that carries the key, with no later entry that does, is the
/// one `live_index` finds.
pub proof fn lemma_last_match_is_live(entries: Seq<IndexEntry>, key: Seq<char>, i: int)
    requires
        0 <= i < entries.len(),
        entries[i].key == key,
        forall|j: int| i < j < entries.len() ==> (#[trigger] entries[j]).key != key,
    ensures
        live_index(entries, key) == Some(i),
{
    lemma_live_index(entries, key);
}

/// After `entry` was recorded it is the live entry for its key, and the
/// snapshot has one entry more only if the key was new.
pub proof fn lemma_upsert_live(entries: Seq<IndexEntry>, entry: IndexEntry)
    ensures
        live_index(upsert(entries, entry), entry.key) is Some,
        upsert(entries, entry)[live_index(upsert(entries, entry), entry.key)->0] == entry,
        upsert(entries, entry).len() == if live_index(entries, entry.key) is Some {
            entries.len()
        } else {
            entries.len() + 1
        },
{
    lemma_live_index(entries, entry.key);
    let after = upsert(entries, entry);
    match live_index(entries, entry.key) {
        Some(i) => {
            lemma_last_match_is_live(after, entry.key, i);
        },
        None => {
            lemma_last_match_is_live(after, entry.key, entries.len() as int);
        },
    }
}

/// Recording an entry leaves the live entry of every other key where it
/// was and as it was.
pub proof fn lemma_upsert_other(entries: Seq<IndexEntry>, entry: IndexEntry, key: Seq<char>)
    requires
        key != entry.key,
    ensures
        live_index(upsert(entries, entry), key) == live_index(entries, key),
        live_index(entries, key) is Some ==> upsert(entries, entry)[live_index(entries, key)->0]
            == entries[live_index(entries, key)->0],
{
    lemma_live_index(entries, entry.key);
    lemma_live_index(entries, key);
    let after = upsert(entries, entry);
    match live_index(entries, key) {
        Some(i) => {
            lemma_last_match_is_live(after, key, i);
        },
        None => {
            lemma_live_index(after, key);
        },
    }
}

/// Recording an entry in a snapshot without repeated keys gives a
/// snapshot without repeated keys, in which exactly one entry carries the
/// recorded key.
pub proof fn lemma_upsert_distinct(entries: Seq<IndexEntry>, entry: IndexEntry)
    requires
        distinct_keys(entries),
    ensures
        distinct_keys(upsert(entries, entry)),
        forall|i: int|
            0 <= i < upsert(entries, entry).len() && (#[trigger] upsert(entries, entry)[i]).key
                == entry.key ==> Some(i) == live_index(upsert(entries, entry), entry.key),
{
    lemma_live_index(entries, entry.key);
    lemma_upsert_live(entries, entry);
    let after = upsert(entries, entry);
    lemma_live_index(after, entry.key);
    assert forall|i: int, j: int| 0 <= i < j < after.len() implies (#[trigger] after[i]).key != (
    #[trigger] after[j]).key by {
        match live_index(entries, entry.key) {
            Some(at) => {
                if i != at && j != at {
                    assert(entries[i].key != entries[j].key);
                } else if i == at {
                    assert(entries[at].key != entries[j].key);
                } else {
                    assert(entries[i].key != entries[at].key);
                }
            },
            None => {
                if j < entries.len() {
                    assert(entries[i].key != entries[j].key);
                } else {
                    assert(entries[i].key != entry.key);
                }
            },
        }
    }
    let at = live_index(after, entry.key)->0;
    assert forall|i: int| 0 <= i < after.len() && (#[trigger] after[i]).key == entry.key implies i
        == at by {
        if i < at {
            assert(after[i].key != after[at].key);
        }
    }
}

/// Whether two strings hold the same text.
fn same_text(a: &str, b: &str) -> (same: bool)
    ensures
        same == (a@ == b@),
{
    let x = a.as_bytes();
    let y = b.as_bytes();
    proof {
        encode_utf8_decode_utf8(a@);
        encode_utf8_decode_utf8(b@);
    }
    if x.len() != y.len() {
        return false;
    }
    let mut i: usize = 0;
    while i < x.len()
        invariant
            x@ == encode_utf8(a@),
            y@ == encode_utf8(b@),
            x@.len() == y@.len(),
            i <= x@.len(),
            forall|j: int| 0 <= j < i ==> x@[j] == y@[j],
        decreases x@.len() - i,
    {
        if x[i] != y[i] {
            return false;
        }
        i += 1;
    }
    assert(x@ =~= y@);
    true
}

impl IndexData {
    /// An entry for `index_key` whose value begins at `offset` and has
    /// `value_length` bytes.
    pub fn new(index_key: String, offset: u64, value_length: u64) -> (data: Self)
        ensures
            data.index_key == index_key,
            data.offset == offset,
            data.value_length == value_length,
            data@ == (IndexEntry { key: index_key@, value_offset: offset, value_length }),
    {
        Self { index_key, offset, value_length }
    }
}

impl IndexBlock {
    /// A snapshot that holds the one entry `index_data`.
    pub fn new(index_data: IndexData) -> (block: Self)
        ensures
            block@ == seq![index_data@],
            block.index_block@ == seq![index_data],
    {
        let mut index_block: Vec<IndexData> = Vec::new();
        index_block.push(index_data);
        let block = Self { index_block };
        assert(block@ =~= seq![index_data@]);
        assert(block.index_block@ =~= seq![index_data]);
        block
    }

    /// A snapshot without entries: the index of a segment nothing was
    /// written to.
    pub fn empty() -> (block: Self)
        ensures
            block@ == Seq::<IndexEntry>::empty(),
    {
        let block = Self { index_block: Vec::new() };
        assert(block@ =~= Seq::<IndexEntry>::empty());
        block
    }

    /// Adds `index` at the end, whatever keys are there already.
    pub fn append(&mut self, index: IndexData)
        ensures
            final(self)@ == old(self)@.push(index@),
            final(self).index_block@ == old(self).index_block@.push(index),
    {
        self.index_block.push(index);
        assert(self@ =~= old(self)@.push(index@));
    }

    /// The value offset of the second entry.
    pub fn get_value_offset(&self) -> (offset: &u64)
        requires
            self@.len() > 1,
        ensures
            *offset == self@[1].value_offset,
    {
        &self.index_block[1].offset
    }

    /// The number of entries.
    pub fn len(&self) -> (n: usize)
        ensures
            n == self@.len(),
    {
        self.index_block.len()
    }

    /// The position of the live entry for `key`, if the snapshot has one.
    pub fn find(&self, key: &str) -> (found: Option<usize>)
        ensures
            match found {
                Some(i) => i < self@.len() && live_index(self@, key@) == Some(i as int),
                None => live_index(self@, key@) is None,
            },
    {
        let mut i: usize = self.index_block.len();
        while i > 0
            invariant
                i <= self@.len(),
                self@.len() == self.index_block@.len(),
                forall|j: int| i <= j < self@.len() ==> (#[trigger] self@[j]).key != key@,
            decreases i,
        {
            i -= 1;
            if same_text(self.index_block[i].index_key.as_str(), key) {
                proof {
                    lemma_last_match_is_live(self@, key@, i as int);
                }
                return Some(i);
            }
        }
        proof {
            lemma_live_index(self@, key@);
        }
        None
    }

    /// Records `entry`: it replaces the live entry for its key, which keeps
    /// its position, or is added at the end when the key is new.
    pub fn upsert(&mut self, entry: IndexData)
        ensures
            final(self)@ == upsert(old(self)@, entry@),
    {
        match self.find(entry.index_key.as_str()) {
            Some(i) => {
                self.index_block[i] = entry;
                assert(self@ =~= old(self)@.update(i as int, entry@));
            },
            None => {
                self.index_block.push(entry);
                assert(self@ =~= old(self)@.push(entry@));
            },
        }
    }
}

} // verus!
