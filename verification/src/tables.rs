//! The table directory of one font: a map from tag to table record that is
//! walked in the order of the tags.

use crate::tag::FourCC;
use std::rc::Rc;
use vstd::prelude::*;

verus! {

/// One table of a font: its bytes, and the checksum and offset that the
/// directory it was read from gave for it.
#[derive(Debug)]
pub struct TableRecord {
    pub checksum: u32,
    pub offset: u32,
    pub raw_data: Rc<Vec<u8>>,
}

/// What a table record holds, as plain values.
pub struct TableView {
    pub checksum: u32,
    pub offset: u32,
    pub raw_data: Seq<u8>,
}

impl View for TableRecord {
    type V = TableView;

    open spec fn view(&self) -> TableView {
        TableView { checksum: self.checksum, offset: self.offset, raw_data: self.raw_data@ }
    }
}

/// The record that a mutator puts in place of a table: the given bytes, with
/// checksum and offset still to be assigned.
pub open spec fn fresh_table(raw_data: Seq<u8>) -> TableView {
    TableView { checksum: 0, offset: 0, raw_data }
}

impl TableRecord {
    /// A record for the given bytes, with checksum and offset zero.
    pub fn new(raw_data: Vec<u8>) -> (record: Self)
        ensures
            record@ == fresh_table(raw_data@),
    {
        TableRecord { checksum: 0, offset: 0, raw_data: Rc::new(raw_data) }
    }

    /// A record with the same checksum and offset and with the given bytes.
    pub fn with_data(&self, raw_data: Vec<u8>) -> (record: Self)
        ensures
            record@ == (TableView { raw_data: raw_data@, ..self@ }),
    {
        TableRecord { checksum: self.checksum, offset: self.offset, raw_data: Rc::new(raw_data) }
    }
}

impl Clone for TableRecord {
    /// A second record for the same bytes, which are shared, not copied.
    fn clone(&self) -> (record: Self)
        ensures
            record@ == self@,
    {
        TableRecord {
            checksum: self.checksum,
            offset: self.offset,
            raw_data: self.raw_data.clone(),
        }
    }
}

/// Whether each number in `s` is smaller than all that follow it.
pub open spec fn increasing(s: Seq<u32>) -> bool {
    forall|i: int, j: int| 0 <= i < j < s.len() ==> s[i] < s[j]
}

/// The tags of a directory in the order in which the directory lists them:
/// each tag once, by increasing value.
pub open spec fn directory_order(tags: Set<u32>) -> Seq<u32> {
    choose|s: Seq<u32>| increasing(s) && s.to_set() == tags
}

/// An increasing sequence holds nothing twice, so it is as long as its set
/// is large.
pub proof fn lemma_increasing_len(s: Seq<u32>)
    requires
        increasing(s),
    ensures
        s.no_duplicates(),
        s.to_set().finite(),
        s.to_set().len() == s.len(),
{
    s.unique_seq_to_set();
    s.lemma_cardinality_of_set();
}

/// There is only one increasing sequence of a given set of tags.
pub proof fn lemma_increasing_unique(a: Seq<u32>, b: Seq<u32>)
    requires
        increasing(a),
        increasing(b),
        a.to_set() == b.to_set(),
    ensures
        a == b,
    decreases a.len(),
{
    lemma_increasing_len(a);
    lemma_increasing_len(b);
    if a.len() > 0 {
        let x = a.last();
        let y = b.last();
        assert(a.contains(x));
        assert(b.contains(y));
        assert(a.to_set().contains(y));
        assert(b.to_set().contains(x));
        assert(a.contains(y));
        assert(b.contains(x));
        assert(x == y);
        let a0 = a.drop_last();
        let b0 = b.drop_last();
        assert forall|k: u32| a0.to_set().contains(k) == b0.to_set().contains(k) by {
            if a0.contains(k) {
                let i = choose|i: int| 0 <= i < a0.len() && a0[i] == k;
                assert(a[i] == k);
                assert(k < x);
                assert(a.contains(k));
                assert(b.to_set().contains(k));
                let j = choose|j: int| 0 <= j < b.len() && b[j] == k;
                assert(b0[j] == k);
            }
            if b0.contains(k) {
                let i = choose|i: int| 0 <= i < b0.len() && b0[i] == k;
                assert(b[i] == k);
                assert(k < y);
                assert(b.contains(k));
                assert(a.to_set().contains(k));
                let j = choose|j: int| 0 <= j < a.len() && a[j] == k;
                assert(a0[j] == k);
            }
        }
        assert(a0.to_set() =~= b0.to_set());
        lemma_increasing_unique(a0, b0);
        assert(a =~= a0.push(x));
        assert(b =~= b0.push(y));
    } else {
        assert(a =~= b);
    }
}

/// Every finite set of tags has its directory order: an increasing sequence
/// of exactly those tags.
pub proof fn lemma_directory_order(tags: Set<u32>)
    requires
        tags.finite(),
    ensures
        increasing(directory_order(tags)),
        directory_order(tags).to_set() == tags,
        directory_order(tags).len() == tags.len(),
    decreases tags.len(),
{
    if tags.len() == 0 {
        let s = Seq::<u32>::empty();
        assert(tags =~= Set::empty());
        assert(s.to_set() =~= tags);
        assert(increasing(s));
    } else {
        let x = tags.choose();
        let rest = tags.remove(x);
        lemma_directory_order(rest);
        let r = directory_order(rest);
        let p = insertion_point(r, x);
        lemma_insertion_point(r, x);
        let s = r.insert(p, x);
        assert(!r.contains(x));
        lemma_insert_increasing(r, p, x);
        assert forall|k: u32| s.to_set().contains(k) == tags.contains(k) by {
            if s.contains(k) {
                let i = choose|i: int| 0 <= i < s.len() && s[i] == k;
                if i < p {
                    assert(r[i] == k);
                    assert(r.contains(k));
                } else if i > p {
                    assert(r[i - 1] == k);
                    assert(r.contains(k));
                }
            }
            if tags.contains(k) {
                if k == x {
                    assert(s[p] == k);
                } else {
                    assert(rest.contains(k));
                    assert(r.to_set().contains(k));
                    let i = choose|i: int| 0 <= i < r.len() && r[i] == k;
                    if i < p {
                        assert(s[i] == k);
                    } else {
                        assert(s[i + 1] == k);
                    }
                }
            }
        }
        assert(s.to_set() =~= tags);
    }
    let d = directory_order(tags);
    lemma_increasing_len(d);
}

/// How many numbers of `s` are smaller than `key`, which is where `key`
/// stands or would stand in an increasing `s`.
pub open spec fn insertion_point(s: Seq<u32>, key: u32) -> int
    decreases s.len(),
{
    if s.len() == 0 {
        0
    } else if s.last() < key {
        s.len() as int
    } else {
        insertion_point(s.drop_last(), key)
    }
}

/// In an increasing sequence, the insertion point of a key parts the
/// numbers below the key from the others.
pub proof fn lemma_insertion_point(s: Seq<u32>, key: u32)
    requires
        increasing(s),
    ensures
        0 <= insertion_point(s, key) <= s.len(),
        forall|i: int| 0 <= i < insertion_point(s, key) ==> s[i] < key,
        forall|i: int| insertion_point(s, key) <= i < s.len() ==> s[i] >= key,
    decreases s.len(),
{
    if s.len() > 0 {
        if s.last() >= key {
            let t = s.drop_last();
            lemma_insertion_point(t, key);
            assert forall|i: int| 0 <= i < insertion_point(s, key) implies s[i] < key by {
                assert(s[i] == t[i]);
            }
            assert forall|i: int| insertion_point(s, key) <= i < s.len() implies s[i] >= key by {
                if i < t.len() {
                    assert(s[i] == t[i]);
                }
            }
        } else {
            assert forall|i: int| 0 <= i < s.len() implies s[i] < key by {
                if i < s.len() - 1 {
                    assert(s[i] < s[s.len() - 1]);
                }
            }
        }
    }
}

/// A key that an increasing sequence lacks can be put in at its insertion
/// point, and the sequence stays increasing.
pub proof fn lemma_insert_increasing(s: Seq<u32>, p: int, key: u32)
    requires
        increasing(s),
        0 <= p <= s.len(),
        forall|i: int| 0 <= i < p ==> s[i] < key,
        forall|i: int| p <= i < s.len() ==> s[i] > key,
    ensures
        increasing(s.insert(p, key)),
{
    let t = s.insert(p, key);
    assert forall|i: int, j: int| 0 <= i < j < t.len() implies t[i] < t[j] by {
        if i < p && j > p {
            assert(t[i] == s[i]);
            assert(t[j] == s[j - 1]);
        }
    }
}

/// Taking one place out of an increasing sequence leaves it increasing.
pub proof fn lemma_remove_increasing(s: Seq<u32>, p: int)
    requires
        increasing(s),
        0 <= p < s.len(),
    ensures
        increasing(s.remove(p)),
{
    let t = s.remove(p);
    assert forall|i: int, j: int| 0 <= i < j < t.len() implies t[i] < t[j] by {
        let i0 = if i < p { i } else { i + 1 };
        let j0 = if j < p { j } else { j + 1 };
        assert(t[i] == s[i0]);
        assert(t[j] == s[j0]);
    }
}

/// One line of a table directory.
#[derive(Debug)]
struct TableEntry {
    tag: FourCC,
    record: TableRecord,
}

/// The tables of one font, each under its tag, no tag twice. The tables are
/// kept, and handed out by index, in the order of their tags.
#[derive(Debug)]
pub struct TableMap {
    entries: Vec<TableEntry>,
}

spec fn entry_keys(entries: Seq<TableEntry>) -> Seq<u32> {
    entries.map_values(|e: TableEntry| e.tag@)
}

spec fn entries_map(entries: Seq<TableEntry>) -> Map<u32, TableView> {
    Map::new(
        |k: u32| entry_keys(entries).contains(k),
        |k: u32| entries[entry_keys(entries).index_of(k)].record@,
    )
}

proof fn lemma_entries_map(entries: Seq<TableEntry>)
    requires
        increasing(entry_keys(entries)),
    ensures
        entries_map(entries).dom() == entry_keys(entries).to_set(),
        entries_map(entries).dom().finite(),
        entries_map(entries).dom().len() == entries.len(),
        directory_order(entries_map(entries).dom()) == entry_keys(entries),
        forall|i: int|
            0 <= i < entries.len() ==> entries_map(entries).contains_key(#[trigger] entries[i].tag@)
                && entries_map(entries)[entries[i].tag@] == entries[i].record@,
{
    let keys = entry_keys(entries);
    let m = entries_map(entries);
    assert(m.dom() =~= keys.to_set());
    lemma_increasing_len(keys);
    lemma_directory_order(m.dom());
    lemma_increasing_unique(directory_order(m.dom()), keys);
    assert forall|i: int| 0 <= i < entries.len() implies m.contains_key(
        #[trigger] entries[i].tag@,
    ) && m[entries[i].tag@] == entries[i].record@ by {
        let k = entries[i].tag@;
        assert(keys[i] == k);
        assert(keys.contains(k));
        let j = keys.index_of(k);
        assert(0 <= j < keys.len() && keys[j] == k);
        if j < i {
            assert(keys[j] < keys[i]);
        }
        if i < j {
            assert(keys[i] < keys[j]);
        }
    }
}

impl View for TableMap {
    type V = Map<u32, TableView>;

    closed spec fn view(&self) -> Map<u32, TableView> {
        entries_map(self.entries@)
    }
}

impl Clone for TableMap {
    /// A second directory of the same tables, whose bytes are shared.
    fn clone(&self) -> (tables: Self)
        ensures
            tables@ == self@,
            self@.dom().finite(),
    {
        proof {
            use_type_invariant(self);
            lemma_entries_map(self.entries@);
        }
        let mut entries: Vec<TableEntry> = Vec::new();
        let n = self.entries.len();
        let mut i: usize = 0;
        while i < n
            invariant
                n == self.entries@.len(),
                0 <= i <= n,
                entries@.len() == i,
                forall|j: int|
                    0 <= j < i ==> entries@[j].tag == self.entries@[j].tag && entries@[j].record@
                        == self.entries@[j].record@,
            decreases n - i,
        {
            let entry = &self.entries[i];
            entries.push(TableEntry { tag: entry.tag, record: entry.record.clone() });
            i += 1;
        }
        proof {
            assert(entry_keys(entries@) =~= entry_keys(self.entries@));
            assert(entries_map(entries@) =~= entries_map(self.entries@));
        }
        TableMap { entries }
    }
}

impl TableMap {
    #[verifier::type_invariant]
    spec fn ordered(self) -> bool {
        increasing(entry_keys(self.entries@))
    }

    /// A directory without tables.
    pub fn new() -> (tables: Self)
        ensures
            tables@ == Map::<u32, TableView>::empty(),
            tables@.dom().finite(),
    {
        let tables = TableMap { entries: Vec::new() };
        assert(entry_keys(tables.entries@) =~= Seq::empty());
        assert(tables@ =~= Map::<u32, TableView>::empty());
        tables
    }

    /// The number of tables.
    pub fn len(&self) -> (n: usize)
        ensures
            self@.dom().finite(),
            n == self@.len(),
    {
        proof {
            use_type_invariant(self);
            lemma_entries_map(self.entries@);
        }
        self.entries.len()
    }

    /// Where `key` stands among the tags: `Ok` with its index if a table has
    /// it, `Err` with the index at which it would be put in if none has.
    fn position(&self, key: u32) -> (found: Result<usize, usize>)
        ensures
            match found {
                Ok(i) => i < self.entries@.len() && self.entries@[i as int].tag@ == key,
                Err(i) => i <= self.entries@.len() && !self@.contains_key(key) && i
                    == insertion_point(entry_keys(self.entries@), key),
            },
    {
        proof {
            use_type_invariant(self);
            lemma_entries_map(self.entries@);
            lemma_insertion_point(entry_keys(self.entries@), key);
        }
        let ghost keys = entry_keys(self.entries@);
        let mut low: usize = 0;
        let mut high: usize = self.entries.len();
        while low < high
            invariant
                keys == entry_keys(self.entries@),
                increasing(keys),
                0 <= low <= high <= self.entries@.len(),
                forall|i: int| 0 <= i < low ==> keys[i] < key,
                forall|i: int| high <= i < keys.len() ==> keys[i] > key,
            decreases high - low,
        {
            let mid: usize = low + (high - low) / 2;
            let probe: u32 = self.entries[mid].tag.value();
            assert(keys[mid as int] == probe);
            if probe == key {
                return Ok(mid);
            } else if probe < key {
                low = mid + 1;
            } else {
                high = mid;
            }
        }
        proof {
            let p = insertion_point(keys, key);
            if p < low {
                assert(keys[p] < key);
            }
            if p > low {
                assert(keys[low as int] < key);
            }
            if keys.contains(key) {
                let i = keys.index_of(key);
                assert(keys[i] == key);
            }
        }
        Err(low)
    }

    /// Whether a table has the tag.
    pub fn contains_key(&self, tag: &FourCC) -> (found: bool)
        ensures
            self@.dom().finite(),
            found == self@.contains_key(tag@),
    {
        proof {
            use_type_invariant(self);
            lemma_entries_map(self.entries@);
        }
        match self.position(tag.value()) {
            Ok(i) => {
                assert(self.entries@[i as int].tag@ == tag@);
                true
            },
            Err(_) => false,
        }
    }

    /// The table with the tag, if there is one.
    pub fn get(&self, tag: &FourCC) -> (found: Option<&TableRecord>)
        ensures
            self@.dom().finite(),
            match found {
                Some(record) => self@.contains_key(tag@) && record@ == self@[tag@],
                None => !self@.contains_key(tag@),
            },
    {
        proof {
            use_type_invariant(self);
            lemma_entries_map(self.entries@);
        }
        match self.position(tag.value()) {
            Ok(i) => {
                assert(self.entries@[i as int].tag@ == tag@);
                Some(&self.entries[i].record)
            },
            Err(_) => None,
        }
    }

    /// The tag and the table at the given place of the directory, counted
    /// from zero in the order of the tags, if the directory is that long.
    pub fn entry_at(&self, index: usize) -> (found: Option<(FourCC, &TableRecord)>)
        ensures
            self@.dom().finite(),
            match found {
                Some((tag, record)) => index < self@.len() && tag@ == directory_order(
                    self@.dom(),
                )[index as int] && self@.contains_key(tag@) && record@ == self@[tag@],
                None => index >= self@.len(),
            },
    {
        proof {
            use_type_invariant(self);
            lemma_entries_map(self.entries@);
        }
        if index < self.entries.len() {
            assert(entry_keys(self.entries@)[index as int] == self.entries@[index as int].tag@);
            Some((self.entries[index].tag, &self.entries[index].record))
        } else {
            None
        }
    }

    /// Puts the table under the tag, in place of the table that had the tag
    /// before, which is handed back.
    pub fn insert(&mut self, tag: FourCC, record: TableRecord) -> (replaced: Option<TableRecord>)
        ensures
            old(self)@.dom().finite(),
            final(self)@ == old(self)@.insert(tag@, record@),
            match replaced {
                Some(r) => old(self)@.contains_key(tag@) && r@ == old(self)@[tag@],
                None => !old(self)@.contains_key(tag@),
            },
    {
        proof {
            use_type_invariant(&*self);
            lemma_entries_map(self.entries@);
        }
        let found = self.position(tag.value());
        let mut entries = Vec::new();
        std::mem::swap(&mut entries, &mut self.entries);
        let ghost before = entries@;
        let ghost keys = entry_keys(before);
        let replaced = match found {
            Ok(i) => {
                let mut fresh = TableEntry { tag, record };
                std::mem::swap(&mut fresh, &mut entries[i]);
                proof {
                    assert(entry_keys(entries@) =~= keys);
                    lemma_entries_map(entries@);
                    assert(before[i as int].tag@ == tag@);
                    assert forall|k: u32| #[trigger]
                        entries_map(entries@).contains_key(k) implies entries_map(entries@)[k]
                        == entries_map(before).insert(tag@, record@)[k] by {
                        assert(entry_keys(entries@).contains(k));
                        let j = keys.index_of(k);
                        assert(keys[j] == k);
                        assert(before[j].tag@ == k);
                        assert(entries@[j].tag@ == k);
                        if j != i {
                            assert(entries@[j] == before[j]);
                            if j < i {
                                assert(keys[j] < keys[i as int]);
                            } else {
                                assert(keys[i as int] < keys[j]);
                            }
                        }
                    }
                    assert(entries_map(entries@) =~= entries_map(before).insert(tag@, record@));
                }
                Some(fresh.record)
            },
            Err(p) => {
                entries.insert(p, TableEntry { tag, record });
                proof {
                    lemma_insertion_point(keys, tag@);
                    assert(entry_keys(entries@) =~= keys.insert(p as int, tag@));
                    assert forall|i: int| p <= i < keys.len() implies keys[i] > tag@ by {
                        if keys[i] == tag@ {
                            assert(before[i].tag@ == tag@);
                        }
                    }
                    lemma_insert_increasing(keys, p as int, tag@);
                    lemma_entries_map(entries@);
                    assert forall|k: u32|
                        entries_map(before).insert(tag@, record@).contains_key(
                            k,
                        ) implies #[trigger] entries_map(entries@).contains_key(k)
                        && entries_map(entries@)[k] == entries_map(before).insert(
                        tag@,
                        record@,
                    )[k] by {
                        if k == tag@ {
                            assert(entries@[p as int].tag@ == k);
                        } else {
                            let j = keys.index_of(k);
                            assert(keys.contains(k));
                            assert(keys[j] == k);
                            assert(before[j].tag@ == k);
                            let j2 = if j < p { j } else { j + 1 };
                            assert(entries@[j2] == before[j]);
                            assert(entries@[j2].tag@ == k);
                        }
                    }
                    assert forall|k: u32| #[trigger]
                        entries_map(entries@).contains_key(k) implies entries_map(before).insert(
                        tag@,
                        record@,
                    ).contains_key(k) by {
                        let j = entry_keys(entries@).index_of(k);
                        assert(entry_keys(entries@).contains(k));
                        assert(entry_keys(entries@)[j] == k);
                        if j < p {
                            assert(keys[j] == k);
                        } else if j > p {
                            assert(keys[j - 1] == k);
                        }
                    }
                    assert(entries_map(entries@) =~= entries_map(before).insert(tag@, record@));
                }
                None
            },
        };
        self.entries = entries;
        replaced
    }

    /// Takes out the table with the tag, if there is one, and hands it back.
    pub fn remove(&mut self, tag: &FourCC) -> (removed: Option<TableRecord>)
        ensures
            old(self)@.dom().finite(),
            final(self)@ == old(self)@.remove(tag@),
            match removed {
                Some(r) => old(self)@.contains_key(tag@) && r@ == old(self)@[tag@],
                None => !old(self)@.contains_key(tag@),
            },
    {
        proof {
            use_type_invariant(&*self);
            lemma_entries_map(self.entries@);
        }
        let found = self.position(tag.value());
        match found {
            Ok(i) => {
                let mut entries = Vec::new();
                std::mem::swap(&mut entries, &mut self.entries);
                let ghost before = entries@;
                let ghost keys = entry_keys(before);
                let entry = entries.remove(i);
                proof {
                    assert(entry_keys(entries@) =~= keys.remove(i as int));
                    lemma_remove_increasing(keys, i as int);
                    lemma_entries_map(entries@);
                    assert(before[i as int].tag@ == tag@);
                    assert forall|k: u32|
                        entries_map(before).remove(tag@).contains_key(
                            k,
                        ) implies #[trigger] entries_map(entries@).contains_key(k)
                        && entries_map(entries@)[k] == entries_map(before)[k] by {
                        let j = keys.index_of(k);
                        assert(keys.contains(k));
                        assert(keys[j] == k);
                        assert(before[j].tag@ == k);
                        let j2 = if j < i { j } else { j - 1 };
                        assert(entries@[j2] == before[j]);
                        assert(entries@[j2].tag@ == k);
                    }
                    assert forall|k: u32| #[trigger]
                        entries_map(entries@).contains_key(k) implies entries_map(before).remove(
                        tag@,
                    ).contains_key(k) by {
                        let j = entry_keys(entries@).index_of(k);
                        assert(entry_keys(entries@).contains(k));
                        assert(entry_keys(entries@)[j] == k);
                        let j0 = if j < i { j } else { j + 1 };
                        assert(keys[j0] == k);
                        assert(keys.contains(k));
                        if k == tag@ {
                            assert(keys[i as int] == k);
                            if j0 < i {
                                assert(keys[j0] < keys[i as int]);
                            } else {
                                assert(keys[i as int] < keys[j0]);
                            }
                        }
                    }
                    assert(entries_map(entries@) =~= entries_map(before).remove(tag@));
                }
                self.entries = entries;
                Some(entry.record)
            },
            Err(_) => {
                assert(self@ =~= old(self)@.remove(tag@));
                None
            },
        }
    }
}

} // verus!
