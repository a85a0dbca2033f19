//! The writer: from a parsed container to the bytes of its file.

use crate::bytes::{
    append_all, copy_bytes, put_bytes, same_bytes, u16_bytes, u16_to_bytes, u32_bytes,
    u32_to_bytes, zeros,
};
use crate::checksum::{
    advance, checksum_of, lemma_advance_concat, lemma_advance_from_start, start_state, sum32,
    Checksum,
};
use crate::layout::{
    all_items, directory_bytes, entries_bytes, entry_bytes, first_index, font_items,
    lemma_entries_len, has_far_item, has_long_table, is_placed, item_offset, kept,
    lemma_first_index, lemma_first_index_is, lemma_first_index_shared, lemma_storage_order, padding, place, priority_list,
    region, sfnt_header_bytes, stored_bytes, storage_order, tag_values, unlisted, WriteError,
    FIELD_MAX, FONTS_MAX, TABLES_MAX,
};
use crate::tables::{directory_order, TableMap, TableRecord, TableView};
use crate::tag::{
    FourCC, CFF, CMAP, CVT, DSIG, FPGM, GASP, GLYF, HDMX, HEAD, HHEA, HMTX, KERN, LOCA, LTSH,
    MAXP, NAME, OS_2, OTTO, PCLT, POST, PREP, VDMX,
};
use crate::types::{SfntHeader, SfntView, TTCHeader, TTCView};
use std::collections::HashMap;
use std::rc::Rc;
use vstd::prelude::*;

verus! {

/// The bytes written so far, and their checksum, which is kept up with each
/// write.
struct Sink {
    out: Vec<u8>,
    main_checksum: Checksum,
}

impl Sink {
    /// Whether the checksum is that of the bytes written.
    spec fn wf(self) -> bool {
        self.main_checksum@ == advance(start_state(), self.out@)
    }

    /// A sink that nothing was written to.
    fn new() -> (sink: Self)
        ensures
            sink.wf(),
            sink.out@ == Seq::<u8>::empty(),
    {
        let sink = Sink { out: Vec::new(), main_checksum: Checksum::new() };
        assert(advance(start_state(), Seq::<u8>::empty()) == start_state());
        sink
    }

    /// Writes the bytes.
    fn write_all(&mut self, bytes: &[u8])
        requires
            old(self).wf(),
        ensures
            final(self).wf(),
            final(self).out@ == old(self).out@ + bytes@,
    {
        proof {
            lemma_advance_concat(start_state(), self.out@, bytes@);
        }
        append_all(&mut self.out, bytes);
        self.main_checksum.push(bytes);
    }

    /// Writes a 16-bit number, the high byte first.
    fn write_u16be(&mut self, value: u16)
        requires
            old(self).wf(),
        ensures
            final(self).wf(),
            final(self).out@ == old(self).out@ + u16_bytes(value),
    {
        let buf = u16_to_bytes(value);
        self.write_all(buf.as_slice());
    }

    /// Writes a 32-bit number, the high byte first.
    fn write_u32be(&mut self, value: u32)
        requires
            old(self).wf(),
        ensures
            final(self).wf(),
            final(self).out@ == old(self).out@ + u32_bytes(value),
    {
        let buf = u32_to_bytes(value);
        self.write_all(buf.as_slice());
    }

    /// Writes the four bytes of a tag.
    fn write_fourcc(&mut self, value: FourCC)
        requires
            old(self).wf(),
        ensures
            final(self).wf(),
            final(self).out@ == old(self).out@ + u32_bytes(value@),
    {
        self.write_all(value.0.as_slice());
        proof {
            crate::bytes::lemma_u32_digits(value.0[0], value.0[1], value.0[2], value.0[3]);
            assert(value.0@ =~= u32_bytes(value@));
        }
    }

    /// Writes the zero bytes that bring the place of the next write to a
    /// multiple of four, and says how many they were.
    fn write_padding(&mut self) -> (count: usize)
        requires
            old(self).wf(),
        ensures
            final(self).wf(),
            count == padding(old(self).out@.len() as int),
            final(self).out@ == old(self).out@ + zeros(count as nat),
    {
        let count = get_padding(self.out.len());
        let zero: [u8; 3] = [0, 0, 0];
        let pad = vstd::slice::slice_subrange(zero.as_slice(), 0, count);
        assert(pad@ =~= zeros(count as nat));
        self.write_all(pad);
        count
    }
}

/// The number of zero bytes that bring place `pos` to a multiple of four.
fn get_padding(pos: usize) -> (count: usize)
    ensures
        count == padding(pos as int),
        count < 4,
{
    (4 - pos % 4) % 4
}

/// The bytes of a list of tables.
spec fn blob_views(items: Seq<Rc<Vec<u8>>>) -> Seq<Seq<u8>> {
    Seq::new(items.len(), |i: int| items[i]@)
}

/// The tables with each one's bytes as they are stored.
pub open spec fn stored_tables(tables: Map<u32, TableView>) -> Map<u32, TableView> {
    Map::new(
        |t: u32| tables.contains_key(t),
        |t: u32| TableView { raw_data: stored_bytes(t, tables[t].raw_data), ..tables[t] },
    )
}

/// The tables with their checksums and with the offsets that `offsets`
/// holds for them from place `first` on, in the order `order`.
spec fn with_offsets(
    tables: Map<u32, TableView>,
    order: Seq<u32>,
    offsets: Seq<u32>,
    first: int,
) -> Map<u32, TableView> {
    Map::new(
        |t: u32| tables.contains_key(t),
        |t: u32|
            TableView {
                checksum: sum32(tables[t].raw_data),
                offset: offsets[first + order.index_of(t)],
                raw_data: tables[t].raw_data,
            },
    )
}

fn list_contains(list: &Vec<u32>, value: u32) -> (found: bool)
    ensures
        found == list@.contains(value),
{
    let mut i: usize = 0;
    while i < list.len()
        invariant
            0 <= i <= list@.len(),
            forall|j: int| 0 <= j < i ==> list@[j] != value,
        decreases list@.len() - i,
    {
        if list[i] == value {
            return true;
        }
        i += 1;
    }
    false
}

fn priority_tags(version: u32) -> (list: Vec<u32>)
    ensures
        list@ == priority_list(version),
{
    if version == OTTO {
        let list = vec![HEAD, HHEA, MAXP, OS_2, NAME, CMAP, POST, CFF];
        assert(list@ =~= priority_list(version));
        list
    } else {
        let list = vec![
            HEAD, HHEA, MAXP, OS_2, HMTX, LTSH, VDMX, HDMX, CMAP, FPGM, PREP, CVT, LOCA, GLYF,
            KERN, NAME, POST, GASP, PCLT, DSIG,
        ];
        assert(list@ =~= priority_list(version));
        list
    }
}

/// The order in which the tables of a font are stored.
#[verifier::loop_isolation(false)]
fn get_table_storage_order(sfnt_version: FourCC, table_records: &TableMap) -> (order: Vec<
    FourCC,
>)
    ensures
        table_records@.dom().finite(),
        tag_values(order@) == storage_order(sfnt_version@, table_records@.dom()),
{
    let list = priority_tags(sfnt_version.value());
    let ghost tags = table_records@.dom();
    let ghost dir = directory_order(tags);
    let mut order: Vec<FourCC> = Vec::new();
    let mut i: usize = 0;
    assert(list@.take(0) =~= Seq::<u32>::empty());
    while i < list.len()
        invariant
            0 <= i <= list@.len(),
            tag_values(order@) == kept(list@.take(i as int), tags),
        decreases list@.len() - i,
    {
        let tag = FourCC::from_value(list[i]);
        proof {
            assert(list@.take(i + 1).drop_last() =~= list@.take(i as int));
            assert(list@.take(i + 1).last() == list@[i as int]);
        }
        if table_records.contains_key(&tag) {
            order.push(tag);
            assert(tag_values(order@) =~= kept(list@.take(i as int), tags).push(tag@));
        }
        i += 1;
    }
    assert(list@.take(list@.len() as int) =~= list@);
    let ghost listed = tag_values(order@);
    let n = table_records.len();
    let mut k: usize = 0;
    assert(dir.take(0) =~= Seq::<u32>::empty());
    assert(listed + Seq::<u32>::empty() =~= listed);
    while k < n
        invariant
            0 <= k <= n,
            n == tags.len(),
            tag_values(order@) == listed + kept(dir.take(k as int), unlisted(sfnt_version@)),
        decreases n - k,
    {
        match table_records.entry_at(k) {
            Some((tag, _)) => {
                proof {
                    crate::tables::lemma_directory_order(tags);
                    assert(dir.take(k + 1).drop_last() =~= dir.take(k as int));
                    assert(dir.take(k + 1).last() == dir[k as int]);
                }
                if !list_contains(&list, tag.value()) {
                    let ghost prior = tag_values(order@);
                    order.push(tag);
                    assert(tag_values(order@) =~= prior.push(tag@));
                    assert(prior.push(tag@) =~= listed + kept(
                        dir.take(k as int),
                        unlisted(sfnt_version@),
                    ).push(tag@));
                }
            },
            None => {},
        }
        k += 1;
    }
    proof {
        crate::tables::lemma_directory_order(tags);
        assert(dir.take(n as int) =~= dir);
    }
    order
}

/// The tables with the checksum adjustment of the `head` table set to zero.
/// Tables that stay as they are share their bytes with those of
/// `table_records`.
fn patch_head_table(table_records: &TableMap) -> (stored: TableMap)
    ensures
        table_records@.dom().finite(),
        stored@ == stored_tables(table_records@),
{
    let mut stored = table_records.clone();
    let head_tag = FourCC::from_value(HEAD);
    let patched = match table_records.get(&head_tag) {
        Some(head) => {
            let mut data = copy_bytes(head.raw_data.as_slice());
            let zero: [u8; 4] = [0, 0, 0, 0];
            assert(zero@ =~= zeros(4));
            put_bytes(&mut data, 8, zero.as_slice());
            if same_bytes(data.as_slice(), head.raw_data.as_slice()) {
                None
            } else {
                Some(head.with_data(data))
            }
        },
        None => None,
    };
    match patched {
        Some(record) => {
            stored.insert(head_tag, record);
        },
        None => {},
    }
    assert(stored@ =~= stored_tables(table_records@));
    stored
}

/// The bytes of the first `n` tables in the given order.
spec fn ordered_data(tables: Map<u32, TableView>, order: Seq<u32>, n: nat) -> Seq<Seq<u8>> {
    Seq::new(n, |k: int| tables[order[k]].raw_data)
}

/// Appends the bytes of the tables to `items`, in the given order.
#[verifier::loop_isolation(false)]
fn collect_items(stored: &TableMap, order: &Vec<FourCC>, items: &mut Vec<Rc<Vec<u8>>>)
    requires
        forall|k: int|
            0 <= k < order@.len() ==> stored@.contains_key(#[trigger] tag_values(order@)[k]),
    ensures
        blob_views(final(items)@) == blob_views(old(items)@) + ordered_data(
            stored@,
            tag_values(order@),
            order@.len(),
        ),
{
    let ghost before = blob_views(items@);
    let ghost tags = tag_values(order@);
    let n = order.len();
    let mut k: usize = 0;
    assert(blob_views(items@) =~= before + ordered_data(stored@, tags, 0));
    while k < n
        invariant
            0 <= k <= n,
            blob_views(items@) == before + ordered_data(stored@, tags, k as nat),
        decreases n - k,
    {
        let ghost prior = blob_views(items@);
        assert(tags[k as int] == order@[k as int]@);
        assert(stored@.contains_key(tags[k as int]));
        match stored.get(&order[k]) {
            Some(record) => {
                items.push(record.raw_data.clone());
                assert(blob_views(items@) =~= prior.push(record.raw_data@));
            },
            None => {},
        }
        k += 1;
        assert(ordered_data(stored@, tags, k as nat) =~= ordered_data(
            stored@,
            tags,
            (k - 1) as nat,
        ).push(stored@[tags[k - 1]].raw_data));
        assert(blob_views(items@) =~= before + ordered_data(stored@, tags, k as nat));
    }
}

/// The number under which the bytes `blob` are filed. Items with the same
/// bytes are filed under the same number.
spec fn blob_key(blob: Seq<u8>) -> u64 {
    (sum32(blob) * 0x1_0000_0000 + blob.len() % 0x1_0000_0000) as u64
}

/// Whether `files` holds just the items below `k` that get room of their
/// own where tables are shared, each under the key of its bytes.
spec fn files_placed(files: Map<u64, Vec<usize>>, views: Seq<Seq<u8>>, k: int) -> bool {
    &&& forall|key: u64, i: int|
        #![trigger files[key]@[i]]
        files.contains_key(key) && 0 <= i < files[key]@.len() ==> {
            let j = files[key]@[i] as int;
            &&& 0 <= j < k
            &&& is_placed(views, j, true)
        }
    &&& forall|j: int|
        0 <= j < k && #[trigger] is_placed(views, j, true) ==> {
            &&& files.contains_key(blob_key(views[j]))
            &&& files[blob_key(views[j])]@.contains(j as usize)
        }
}

/// The key under which `blob` is filed.
fn key_of(blob: &[u8]) -> (key: u64)
    ensures
        key == blob_key(blob@),
{
    let sum: u64 = checksum_of(blob) as u64;
    let len: u64 = blob.len() as u64 % 0x1_0000_0000;
    sum * 0x1_0000_0000 + len
}

/// The place of the first item that has the bytes of item `k`, looked up
/// among the items that `files` holds.
#[verifier::loop_isolation(false)]
fn find_first(items: &Vec<Rc<Vec<u8>>>, k: usize, files: &HashMap<u64, Vec<usize>>) -> (found:
    usize)
    requires
        k < items@.len(),
        files_placed(files@, blob_views(items@), k as int),
    ensures
        found == first_index(blob_views(items@), items@[k as int]@, k as int),
        found <= k,
{
    let ghost views = blob_views(items@);
    let ghost first = first_index(views, views[k as int], k as int);
    proof {
        lemma_first_index(views, views[k as int], k as int);
        if first < k {
            lemma_first_index_shared(views, first, k as int);
            assert(is_placed(views, first, true));
        }
    }
    let key = key_of(items[k].as_slice());
    match files.get(&key) {
        None => k,
        Some(file) => {
            let mut i: usize = 0;
            while i < file.len()
                invariant
                    0 <= i <= file@.len(),
                    forall|t: int| 0 <= t < i ==> views[file@[t] as int] != views[k as int],
                decreases file@.len() - i,
            {
                let j = file[i];
                assert(files@[key]@[i as int] == j);
                if same_bytes(items[j].as_slice(), items[k].as_slice()) {
                    proof {
                        lemma_first_index_shared(views, j as int, k as int);
                    }
                    return j;
                }
                i += 1;
            }
            proof {
                if first < k {
                    let t = choose|t: int| 0 <= t < file@.len() && file@[t] == first as usize;
                    assert(views[file@[t] as int] != views[k as int]);
                }
            }
            k
        },
    }
}

/// Files item `k`, which gets room of its own, under the key of its bytes.
fn file_item(items: &Vec<Rc<Vec<u8>>>, k: usize, files: &mut HashMap<u64, Vec<usize>>)
    requires
        k < items@.len(),
        files_placed(old(files)@, blob_views(items@), k as int),
        is_placed(blob_views(items@), k as int, true),
    ensures
        files_placed(final(files)@, blob_views(items@), k + 1),
{
    let ghost views = blob_views(items@);
    let ghost before = files@;
    let key = key_of(items[k].as_slice());
    let mut file: Vec<usize> = match files.remove(&key) {
        Some(file) => file,
        None => Vec::new(),
    };
    let ghost held = file@;
    file.push(k);
    files.insert(key, file);
    proof {
        let after = files@;
        assert(after[key]@ == held.push(k));
        assert(before.contains_key(key) ==> before[key]@ == held);
        assert forall|other: u64, i: int|
            after.contains_key(other) && 0 <= i < after[other]@.len() implies {
            let j = #[trigger] after[other]@[i] as int;
            &&& 0 <= j < k + 1
            &&& is_placed(views, j, true)
        } by {
            if other == key {
                if i < held.len() {
                    assert(before[key]@[i] == after[key]@[i]);
                }
            } else {
                assert(before[other]@[i] == after[other]@[i]);
            }
        }
        assert forall|j: int| 0 <= j < k + 1 && #[trigger] is_placed(views, j, true) implies {
            &&& after.contains_key(blob_key(views[j]))
            &&& after[blob_key(views[j])]@.contains(j as usize)
        } by {
            if j == k {
                assert(after[key]@[held.len() as int] == k);
            } else if blob_key(views[j]) == key {
                let t = choose|t: int| 0 <= t < held.len() && held[t] == j as usize;
                assert(after[key]@[t] == j as usize);
            }
        }
    }
}

/// What `assign_offsets` gives: for each item its offset and whether it gets
/// room of its own, and the place where the last item ends.
struct Placement {
    offsets: Vec<u32>,
    placed: Vec<bool>,
    end: u64,
}

/// Gives each item its offset, the first from `base` on.
#[verifier::loop_isolation(false)]
fn assign_offsets(items: &Vec<Rc<Vec<u8>>>, base: u64, shared: bool) -> (r: Result<
    Placement,
    WriteError,
>)
    requires
        base <= 0x2_0000_0000,
        forall|k: int| 0 <= k < items@.len() ==> (#[trigger] items@[k])@.len() <= FIELD_MAX,
    ensures
        match r {
            Ok(p) => {
                &&& !has_far_item(blob_views(items@), base as int, shared)
                &&& p.offsets@.len() == items@.len()
                &&& p.placed@.len() == items@.len()
                &&& forall|k: int|
                    0 <= k < items@.len() ==> #[trigger] p.offsets@[k] == item_offset(
                        blob_views(items@),
                        base as int,
                        k,
                        shared,
                    )
                &&& forall|k: int|
                    0 <= k < items@.len() ==> #[trigger] p.placed@[k] == is_placed(
                        blob_views(items@),
                        k,
                        shared,
                    )
                &&& p.end == base + region(
                    blob_views(items@),
                    base as int,
                    items@.len(),
                    shared,
                ).len()
                &&& p.end <= 0x2_0000_0000
            },
            Err(e) => e == WriteError::OffsetOverflow && has_far_item(
                blob_views(items@),
                base as int,
                shared,
            ),
        },
{
    let ghost views = blob_views(items@);
    let n = items.len();
    let mut offsets: Vec<u32> = Vec::new();
    let mut placed: Vec<bool> = Vec::new();
    let mut end: u64 = base;
    let mut files: HashMap<u64, Vec<usize>> = HashMap::new();
    let mut k: usize = 0;
    while k < n
        invariant
            0 <= k <= n,
            offsets@.len() == k,
            placed@.len() == k,
            shared ==> files_placed(files@, views, k as int),
            end == base + region(views, base as int, k as nat, shared).len(),
            end <= 0x2_0000_0000,
            forall|j: int|
                0 <= j < k ==> #[trigger] offsets@[j] == item_offset(
                    views,
                    base as int,
                    j,
                    shared,
                ),
            forall|j: int| 0 <= j < k ==> #[trigger] placed@[j] == is_placed(views, j, shared),
        decreases n - k,
    {
        let found = if shared {
            find_first(items, k, &files)
        } else {
            k
        };
        assert(views[k as int] == items@[k as int]@);
        if found < k {
            proof {
                lemma_first_index(views, views[k as int], k as int);
                lemma_first_index_is(views, views[found as int], found as int, found as int);
            }
            offsets.push(offsets[found]);
            placed.push(false);
        } else {
            let start: u64 = end + (4 - end % 4) % 4;
            if start > FIELD_MAX {
                assert(item_offset(views, base as int, k as int, shared) > FIELD_MAX);
                return Err(WriteError::OffsetOverflow);
            }
            offsets.push(start as u32);
            placed.push(true);
            end = start + items[k].len() as u64;
            if shared {
                file_item(items, k, &mut files);
            }
        }
        k += 1;
    }
    assert forall|k: int| 0 <= k < n implies #[trigger] item_offset(views, base as int, k, shared)
        <= FIELD_MAX by {
        assert(offsets@[k] == item_offset(views, base as int, k, shared));
    }
    Ok(Placement { offsets, placed, end })
}

/// Gives each table its checksum and its offset, which `offsets` holds for
/// the tables in the given order from place `first` on.
#[verifier::loop_isolation(false)]
fn assign_records(
    stored: &mut TableMap,
    order: &Vec<FourCC>,
    offsets: &Vec<u32>,
    first: usize,
)
    requires
        tag_values(order@).no_duplicates(),
        forall|t: u32| #[trigger] tag_values(order@).contains(t) <==> old(stored)@.contains_key(t),
        first + order@.len() <= offsets@.len(),
    ensures
        final(stored)@ == with_offsets(old(stored)@, tag_values(order@), offsets@, first as int),
{
    let ghost tags = tag_values(order@);
    let ghost before = stored@;
    let n = order.len();
    assert(offsets@.len() == offsets.len());
    let mut k: usize = 0;
    while k < n
        invariant
            0 <= k <= n,
            stored@.dom() == before.dom(),
            forall|j: int|
                0 <= j < k ==> #[trigger] stored@[tags[j]] == with_offsets(
                    before,
                    tags,
                    offsets@,
                    first as int,
                )[tags[j]],
            forall|j: int| k <= j < n ==> #[trigger] stored@[tags[j]] == before[tags[j]],
        decreases n - k,
    {
        let tag = order[k];
        assert(tags[k as int] == tag@);
        assert(tags.contains(tag@));
        proof {
            let i = tags.index_of(tag@);
            assert(tags[i] == tag@);
            assert(i == k);
        }
        let updated = match stored.get(&tag) {
            Some(record) => Some(
                TableRecord {
                    checksum: checksum_of(record.raw_data.as_slice()),
                    offset: offsets[first + k],
                    raw_data: record.raw_data.clone(),
                },
            ),
            None => None,
        };
        match updated {
            Some(record) => {
                let ghost prior = stored@;
                stored.insert(tag, record);
                assert(stored@.dom() =~= before.dom());
                assert forall|j: int| 0 <= j < n && j != k implies #[trigger] stored@[tags[j]]
                    == prior[tags[j]] by {
                    assert(tags[j] != tags[k as int]);
                }
            },
            None => {},
        }
        k += 1;
    }
    assert forall|t: u32| stored@.contains_key(t) implies #[trigger] stored@[t] == with_offsets(
        before,
        tags,
        offsets@,
        first as int,
    )[t] by {
        assert(tags.contains(t));
        let j = tags.index_of(t);
        assert(tags[j] == t);
    }
    assert(stored@ =~= with_offsets(before, tags, offsets@, first as int));
}

/// Writes the twelve bytes at the head of a font directory.
fn write_directory_header(sink: &mut Sink, sfnt: &SfntHeader)
    requires
        old(sink).wf(),
        sfnt@.tables.len() <= TABLES_MAX,
    ensures
        final(sink).wf(),
        final(sink).out@ == old(sink).out@ + sfnt_header_bytes(
            sfnt@.sfnt_version,
            sfnt@.tables.len(),
        ),
{
    let n = sfnt.table_records.len();
    sink.write_fourcc(sfnt.sfnt_version);
    sink.write_u16be(n as u16);
    sink.write_u16be(sfnt.search_range());
    sink.write_u16be(sfnt.entry_selector());
    sink.write_u16be(sfnt.range_shift());
    assert(sink.out@ =~= old(sink).out@ + sfnt_header_bytes(sfnt@.sfnt_version, n as nat));
}

/// Writes the sixteen bytes of a directory entry.
fn write_entry(sink: &mut Sink, tag: FourCC, record: &TableRecord)
    requires
        old(sink).wf(),
        record@.raw_data.len() <= FIELD_MAX,
    ensures
        final(sink).wf(),
        final(sink).out@ == old(sink).out@ + entry_bytes(tag@, record@),
{
    sink.write_fourcc(tag);
    sink.write_u32be(record.checksum);
    sink.write_u32be(record.offset);
    sink.write_u32be(record.raw_data.len() as u32);
    assert(sink.out@ =~= old(sink).out@ + entry_bytes(tag@, record@));
}

/// Writes the entries of a font directory.
fn write_entries(sink: &mut Sink, laid: &TableMap)
    requires
        old(sink).wf(),
        forall|t: u32| #[trigger] laid@.contains_key(t) ==> laid@[t].raw_data.len() <= FIELD_MAX,
    ensures
        final(sink).wf(),
        final(sink).out@ == old(sink).out@ + entries_bytes(laid@, laid@.len()),
{
    let n = laid.len();
    let ghost head = sink.out@;
    let mut i: usize = 0;
    assert(head + entries_bytes(laid@, 0) =~= head);
    while i < n
        invariant
            0 <= i <= n,
            n == laid@.len(),
            sink.wf(),
            forall|t: u32|
                #[trigger] laid@.contains_key(t) ==> laid@[t].raw_data.len() <= FIELD_MAX,
            sink.out@ == head + entries_bytes(laid@, i as nat),
        decreases n - i,
    {
        let ghost before = entries_bytes(laid@, i as nat);
        match laid.entry_at(i) {
            Some((tag, record)) => {
                write_entry(sink, tag, record);
                assert(entries_bytes(laid@, (i + 1) as nat) == before + entry_bytes(
                    tag@,
                    record@,
                ));
                assert(sink.out@ =~= head + entries_bytes(laid@, (i + 1) as nat));
            },
            None => {},
        }
        i += 1;
    }
}

/// Writes the directory of a font: its head and an entry for each table.
fn write_directory(sink: &mut Sink, sfnt: &SfntHeader, laid: &TableMap)
    requires
        old(sink).wf(),
        laid@.dom() == sfnt@.tables.dom(),
        sfnt@.tables.len() <= TABLES_MAX,
        forall|t: u32| #[trigger] laid@.contains_key(t) ==> laid@[t].raw_data.len() <= FIELD_MAX,
    ensures
        final(sink).wf(),
        final(sink).out@ == old(sink).out@ + directory_bytes(sfnt@.sfnt_version, laid@),
{
    let ghost start = sink.out@;
    let ghost header = sfnt_header_bytes(sfnt@.sfnt_version, sfnt@.tables.len());
    let ghost entries = entries_bytes(laid@, laid@.len());
    write_directory_header(sink, sfnt);
    write_entries(sink, laid);
    assert(laid@.len() == sfnt@.tables.len());
    assert(directory_bytes(sfnt@.sfnt_version, laid@) == header + entries);
    assert(start + header + entries =~= start + (header + entries));
}

/// Writes the items that get room of their own, each after the zero bytes
/// that bring it to a multiple of four.
#[verifier::loop_isolation(false)]
fn write_region(sink: &mut Sink, items: &Vec<Rc<Vec<u8>>>, placed: &Vec<bool>, shared: bool)
    requires
        old(sink).wf(),
        placed@.len() == items@.len(),
        forall|k: int|
            0 <= k < items@.len() ==> #[trigger] placed@[k] == is_placed(
                blob_views(items@),
                k,
                shared,
            ),
    ensures
        final(sink).wf(),
        final(sink).out@ == old(sink).out@ + region(
            blob_views(items@),
            old(sink).out@.len() as int,
            items@.len(),
            shared,
        ),
{
    let ghost views = blob_views(items@);
    let ghost start = sink.out@;
    let ghost base = sink.out@.len() as int;
    let n = items.len();
    let mut k: usize = 0;
    assert(start + region(views, base, 0, shared) =~= start);
    while k < n
        invariant
            0 <= k <= n,
            sink.wf(),
            sink.out@ == start + region(views, base, k as nat, shared),
        decreases n - k,
    {
        if placed[k] {
            let ghost before = region(views, base, k as nat, shared);
            sink.write_padding();
            sink.write_all(items[k].as_slice());
            assert(sink.out@ =~= start + (before + zeros(padding(base + before.len()) as nat)
                + views[k as int]));
        }
        k += 1;
    }
}

/// Whether a table is too long for its length field.
#[verifier::loop_isolation(false)]
fn any_long_table(tables: &TableMap) -> (long: bool)
    ensures
        long == (exists|t: u32| #[trigger]
            tables@.contains_key(t) && tables@[t].raw_data.len() > FIELD_MAX),
{
    let n = tables.len();
    let ghost dir = directory_order(tables@.dom());
    proof {
        crate::tables::lemma_directory_order(tables@.dom());
    }
    let mut i: usize = 0;
    while i < n
        invariant
            0 <= i <= n,
            forall|j: int| 0 <= j < i ==> tables@[#[trigger] dir[j]].raw_data.len() <= FIELD_MAX,
        decreases n - i,
    {
        match tables.entry_at(i) {
            Some((tag, record)) => {
                if record.raw_data.len() as u64 > FIELD_MAX {
                    return true;
                }
            },
            None => {},
        }
        i += 1;
    }
    assert forall|t: u32| #[trigger] tables@.contains_key(t) implies tables@[t].raw_data.len()
        <= FIELD_MAX by {
        assert(dir.to_set().contains(t));
        assert(dir.contains(t));
        let j = choose|j: int| 0 <= j < dir.len() && dir[j] == t;
        assert(tables@[dir[j]].raw_data.len() <= FIELD_MAX);
    }
    false
}

/// A font made ready for writing: its tables as the file holds them, and
/// the items of the file with their places.
struct FontLayout {
    laid: TableMap,
    items: Vec<Rc<Vec<u8>>>,
    placement: Placement,
}

/// Lays out the file of a single font.
fn lay_out_font(sfnt: &SfntHeader) -> (r: Result<FontLayout, WriteError>)
    ensures
        sfnt@.tables.dom().finite(),
        match r {
            Ok(l) => {
                &&& crate::layout::sfnt_write_error(sfnt@) is None
                &&& l.laid@ == crate::layout::sfnt_laid_out(sfnt@)
                &&& blob_views(l.items@) == font_items(sfnt@)
                &&& l.placement.placed@.len() == l.items@.len()
                &&& forall|k: int|
                    0 <= k < l.items@.len() ==> #[trigger] l.placement.placed@[k] == is_placed(
                        blob_views(l.items@),
                        k,
                        false,
                    )
            },
            Err(e) => crate::layout::sfnt_write_error(sfnt@) == Some(e),
        },
{
    let n = sfnt.table_records.len();
    if n > TABLES_MAX {
        return Err(WriteError::TooManyTables);
    }
    if any_long_table(&sfnt.table_records) {
        return Err(WriteError::LengthOverflow);
    }
    let mut stored = patch_head_table(&sfnt.table_records);
    assert(stored@.dom() =~= sfnt@.tables.dom());
    let order = get_table_storage_order(sfnt.sfnt_version, &stored);
    let ghost tags = tag_values(order@);
    proof {
        lemma_storage_order(sfnt@.sfnt_version, sfnt@.tables.dom());
        assert forall|k: int| 0 <= k < order@.len() implies stored@.contains_key(
            #[trigger] tags[k],
        ) by {
            assert(tags.contains(tags[k]));
        }
    }
    let mut items: Vec<Rc<Vec<u8>>> = Vec::new();
    collect_items(&stored, &order, &mut items);
    proof {
        assert(blob_views(items@) =~= ordered_data(stored@, tags, order@.len() as nat));
        assert forall|k: int| 0 <= k < tags.len() implies #[trigger] ordered_data(
            stored@,
            tags,
            order@.len() as nat,
        )[k] == font_items(sfnt@)[k] by {
            assert(tags.contains(tags[k]));
        }
        assert(blob_views(items@) =~= font_items(sfnt@));
        assert forall|k: int| 0 <= k < items@.len() implies (#[trigger] items@[k])@.len()
            <= FIELD_MAX by {
            assert(blob_views(items@)[k] == items@[k]@);
            assert(tags.contains(tags[k]));
            assert(sfnt@.tables.contains_key(tags[k]));
        }
    }
    let base: u64 = 12 + 16 * (n as u64);
    let placement = match assign_offsets(&items, base, false) {
        Ok(p) => p,
        Err(e) => {
            return Err(e);
        },
    };
    assign_records(&mut stored, &order, &placement.offsets, 0);
    proof {
        let laid = crate::layout::sfnt_laid_out(sfnt@);
        assert forall|t: u32| stored@.contains_key(t) implies #[trigger] stored@[t] == laid[t] by {
            assert(tags.contains(t));
            let k = tags.index_of(t);
            assert(tags[k] == t);
        }
        assert(stored@ =~= laid);
    }
    Ok(FontLayout { laid: stored, items, placement })
}

/// Writes the directory and the tables of a single font.
fn write_unadjusted(sink: &mut Sink, sfnt: &SfntHeader, layout: &FontLayout)
    requires
        old(sink).wf(),
        old(sink).out@.len() == 0,
        sfnt@.tables.len() <= TABLES_MAX,
        !has_long_table(sfnt@),
        layout.laid@ == crate::layout::sfnt_laid_out(sfnt@),
        blob_views(layout.items@) == font_items(sfnt@),
        layout.placement.placed@.len() == layout.items@.len(),
        forall|k: int|
            0 <= k < layout.items@.len() ==> #[trigger] layout.placement.placed@[k] == is_placed(
                blob_views(layout.items@),
                k,
                false,
            ),
    ensures
        final(sink).wf(),
        final(sink).out@ == crate::layout::sfnt_unadjusted(sfnt@),
{
    let ghost laid = crate::layout::sfnt_laid_out(sfnt@);
    assert(layout.laid@.dom() =~= sfnt@.tables.dom());
    write_directory(sink, sfnt, &layout.laid);
    proof {
        lemma_entries_len(laid, sfnt@.tables.len());
        assert(sink.out@ =~= directory_bytes(sfnt@.sfnt_version, laid));
        assert(sink.out@.len() == crate::layout::sfnt_base(sfnt@));
    }
    write_region(sink, &layout.items, &layout.placement.placed, false);
    assert(sink.out@ =~= crate::layout::sfnt_unadjusted(sfnt@));
}

/// Sets the checksum adjustment of the `head` table at `offset`, for a file
/// whose checksum with an adjustment of zero is `sum`.
fn set_adjustment(out: &mut Vec<u8>, offset: u32, sum: u32)
    requires
        offset + 12 <= old(out)@.len(),
    ensures
        final(out)@ == crate::bytes::overwrite(
            old(out)@,
            offset + 8,
            u32_bytes(((crate::layout::CHECKSUM_MAGIC - sum) % 0x1_0000_0000) as u32),
        ),
{
    assert(out@.len() == out.len());
    let at: usize = offset as usize + 8;
    let value = crate::layout::CHECKSUM_MAGIC.wrapping_sub(sum);
    let patch = u32_to_bytes(value);
    put_bytes(out, at, patch.as_slice());
}

/// The bytes of the file of a single font.
fn write_font(sink: Sink, sfnt: &SfntHeader) -> (r: Result<Vec<u8>, WriteError>)
    requires
        sink.wf(),
        sink.out@.len() == 0,
    ensures
        sfnt@.tables.dom().finite(),
        match r {
            Ok(bytes) => crate::layout::sfnt_write_error(sfnt@) is None && bytes@
                == crate::layout::sfnt_image(sfnt@),
            Err(e) => crate::layout::sfnt_write_error(sfnt@) == Some(e),
        },
{
    let mut sink = sink;
    let layout = match lay_out_font(sfnt) {
        Ok(l) => l,
        Err(e) => {
            return Err(e);
        },
    };
    write_unadjusted(&mut sink, sfnt, &layout);
    let head_tag = FourCC::from_value(HEAD);
    let adjust = match sfnt.table_records.get(&head_tag) {
        Some(head) => head.raw_data.len() >= 12,
        None => false,
    };
    assert(adjust == crate::layout::has_adjustment(sfnt@));
    if adjust {
        proof {
            crate::layout::lemma_head_within(sfnt@);
            lemma_advance_from_start(sink.out@);
        }
        let offset = match layout.laid.get(&head_tag) {
            Some(head) => head.offset,
            None => 0,
        };
        let sum = sink.main_checksum.get();
        assert(sum == sum32(crate::layout::sfnt_unadjusted(sfnt@)));
        set_adjustment(&mut sink.out, offset, sum);
    }
    Ok(sink.out)
}

/// Whether the counts and lengths of a collection fit their fields.
#[verifier::loop_isolation(false)]
fn check_collection(ttc: &TTCHeader) -> (r: Result<(), WriteError>)
    ensures
        match r {
            Ok(_) => {
                &&& ttc@.major_version <= 2
                &&& ttc@.fonts.len() <= FONTS_MAX
                &&& forall|f: int|
                    0 <= f < ttc@.fonts.len() ==> (#[trigger] ttc@.fonts[f]).tables.len()
                        <= TABLES_MAX
                &&& forall|f: int|
                    0 <= f < ttc@.fonts.len() ==> !has_long_table(#[trigger] ttc@.fonts[f])
                &&& !(ttc@.major_version >= 2 && ttc@.dsig_data.len() > FIELD_MAX)
            },
            Err(e) => crate::layout::ttc_write_error(ttc@) == Some(e) && e
                != WriteError::OffsetOverflow,
        },
{
    if ttc.major_version > 2 {
        return Err(WriteError::UnsupportedVersion);
    }
    let n = ttc.table_directories.len();
    if n > FONTS_MAX {
        return Err(WriteError::TooManyFonts);
    }
    let mut f: usize = 0;
    while f < n
        invariant
            0 <= f <= n,
            forall|g: int| 0 <= g < f ==> (#[trigger] ttc@.fonts[g]).tables.len() <= TABLES_MAX,
        decreases n - f,
    {
        assert(ttc@.fonts[f as int] == ttc.table_directories@[f as int]@);
        if ttc.table_directories[f].table_records.len() > TABLES_MAX {
            return Err(WriteError::TooManyTables);
        }
        f += 1;
    }
    let mut f: usize = 0;
    while f < n
        invariant
            0 <= f <= n,
            forall|g: int| 0 <= g < f ==> !has_long_table(#[trigger] ttc@.fonts[g]),
        decreases n - f,
    {
        assert(ttc@.fonts[f as int] == ttc.table_directories@[f as int]@);
        if any_long_table(&ttc.table_directories[f].table_records) {
            assert(has_long_table(ttc@.fonts[f as int]));
            return Err(WriteError::LengthOverflow);
        }
        f += 1;
    }
    if ttc.major_version >= 2 && ttc.dsig_data.len() as u64 > FIELD_MAX {
        return Err(WriteError::LengthOverflow);
    }
    Ok(())
}

/// The offsets of the directories of a collection, and the place where its
/// tables start.
#[verifier::loop_isolation(false)]
fn directory_offsets(ttc: &TTCHeader) -> (r: Result<(Vec<u32>, u64), WriteError>)
    requires
        ttc@.fonts.len() <= FONTS_MAX,
        forall|f: int|
            0 <= f < ttc@.fonts.len() ==> (#[trigger] ttc@.fonts[f]).tables.len() <= TABLES_MAX,
    ensures
        match r {
            Ok((offsets, base)) => {
                &&& offsets@.len() == ttc@.fonts.len()
                &&& forall|f: int|
                    0 <= f < offsets@.len() ==> #[trigger] offsets@[f]
                        == crate::layout::directory_offset(ttc@, f as nat)
                &&& forall|f: nat|
                    f < ttc@.fonts.len() ==> #[trigger] crate::layout::directory_offset(ttc@, f)
                        <= FIELD_MAX
                &&& base == crate::layout::ttc_base(ttc@)
                &&& base <= 0x2_0000_0000
            },
            Err(e) => e == WriteError::OffsetOverflow && exists|f: nat|
                f < ttc@.fonts.len() && #[trigger] crate::layout::directory_offset(ttc@, f)
                    > FIELD_MAX,
        },
{
    let n = ttc.table_directories.len();
    let mut offsets: Vec<u32> = Vec::new();
    let mut pos: u64 = 12 + 4 * (n as u64);
    if ttc.major_version >= 2 {
        pos = pos + 12;
    }
    let mut f: usize = 0;
    while f < n
        invariant
            0 <= f <= n,
            offsets@.len() == f,
            pos == crate::layout::directory_offset(ttc@, f as nat),
            f == 0 ==> pos <= 0x2_0000_0020,
            f > 0 ==> pos <= 0x1_1000_0000,
            forall|g: int|
                0 <= g < f ==> #[trigger] offsets@[g] == crate::layout::directory_offset(
                    ttc@,
                    g as nat,
                ),
        decreases n - f,
    {
        if pos > FIELD_MAX {
            return Err(WriteError::OffsetOverflow);
        }
        offsets.push(pos as u32);
        assert(ttc@.fonts[f as int] == ttc.table_directories@[f as int]@);
        let count = ttc.table_directories[f].table_records.len();
        pos = pos + 12 + 16 * (count as u64);
        f += 1;
    }
    assert forall|g: nat| g < ttc@.fonts.len() implies #[trigger] crate::layout::directory_offset(
        ttc@,
        g,
    ) <= FIELD_MAX by {
        assert(offsets@[g as int] == crate::layout::directory_offset(ttc@, g));
    }
    Ok((offsets, pos))
}

/// A collection made ready for writing: the tables of each font as the
/// file holds them, and the items of the file with their places.
struct CollectionLayout {
    laid: Vec<TableMap>,
    items: Vec<Rc<Vec<u8>>>,
    placement: Placement,
}

/// The tables of each font as they are stored, the order in which they are
/// stored, and the items of all fonts in a row.
#[verifier::loop_isolation(false)]
fn collect_fonts(ttc: &TTCHeader) -> (r: (Vec<TableMap>, Vec<Vec<FourCC>>, Vec<usize>, Vec<
    Rc<Vec<u8>>,
>))
    requires
        forall|f: int| 0 <= f < ttc@.fonts.len() ==> !has_long_table(#[trigger] ttc@.fonts[f]),
    ensures
        r.0@.len() == ttc@.fonts.len(),
        r.1@.len() == ttc@.fonts.len(),
        r.2@.len() == ttc@.fonts.len(),
        blob_views(r.3@) == all_items(ttc@.fonts),
        forall|k: int| 0 <= k < r.3@.len() ==> (#[trigger] r.3@[k])@.len() <= FIELD_MAX,
        forall|f: int|
            0 <= f < ttc@.fonts.len() ==> {
                &&& (#[trigger] r.0@[f])@ == stored_tables(ttc@.fonts[f].tables)
                &&& tag_values(r.1@[f]@) == storage_order(
                    ttc@.fonts[f].sfnt_version,
                    ttc@.fonts[f].tables.dom(),
                )
                &&& r.2@[f] == all_items(ttc@.fonts.take(f)).len()
                &&& r.2@[f] + r.1@[f]@.len() <= r.3@.len()
                &&& ttc@.fonts[f].tables.dom().finite()
            },
{
    let n = ttc.table_directories.len();
    let mut stored: Vec<TableMap> = Vec::new();
    let mut orders: Vec<Vec<FourCC>> = Vec::new();
    let mut firsts: Vec<usize> = Vec::new();
    let mut items: Vec<Rc<Vec<u8>>> = Vec::new();
    let ghost fonts = ttc@.fonts;
    let mut f: usize = 0;
    assert(fonts.take(0) =~= Seq::<SfntView>::empty());
    assert(blob_views(items@) =~= all_items(fonts.take(0)));
    while f < n
        invariant
            0 <= f <= n,
            stored@.len() == f,
            orders@.len() == f,
            firsts@.len() == f,
            blob_views(items@) == all_items(fonts.take(f as int)),
            forall|k: int| 0 <= k < items@.len() ==> (#[trigger] items@[k])@.len() <= FIELD_MAX,
            forall|g: int|
                0 <= g < f ==> {
                    &&& (#[trigger] stored@[g])@ == stored_tables(fonts[g].tables)
                    &&& tag_values(orders@[g]@) == storage_order(
                        fonts[g].sfnt_version,
                        fonts[g].tables.dom(),
                    )
                    &&& firsts@[g] == all_items(fonts.take(g)).len()
                    &&& firsts@[g] + orders@[g]@.len() <= items@.len()
                    &&& fonts[g].tables.dom().finite()
                },
        decreases n - f,
    {
        let sfnt = &ttc.table_directories[f];
        assert(fonts[f as int] == sfnt@);
        let map = patch_head_table(&sfnt.table_records);
        assert(map@.dom() =~= sfnt@.tables.dom());
        let order = get_table_storage_order(sfnt.sfnt_version, &map);
        let ghost tags = tag_values(order@);
        let ghost before = items@;
        proof {
            lemma_storage_order(sfnt@.sfnt_version, sfnt@.tables.dom());
            assert forall|k: int| 0 <= k < order@.len() implies map@.contains_key(
                #[trigger] tags[k],
            ) by {
                assert(tags.contains(tags[k]));
            }
        }
        firsts.push(items.len());
        collect_items(&map, &order, &mut items);
        proof {
            let added = ordered_data(map@, tags, order@.len() as nat);
            assert forall|k: int| 0 <= k < tags.len() implies #[trigger] added[k] == font_items(
                sfnt@,
            )[k] by {
                assert(tags.contains(tags[k]));
            }
            assert(added =~= font_items(sfnt@));
            assert(fonts.take(f + 1).drop_last() =~= fonts.take(f as int));
            assert(fonts.take(f + 1).last() == fonts[f as int]);
            assert(blob_views(items@) == all_items(fonts.take(f + 1)));
            assert(items@.len() == before.len() + tags.len());
            assert forall|k: int| 0 <= k < items@.len() implies (#[trigger] items@[k])@.len()
                <= FIELD_MAX by {
                assert(blob_views(items@)[k] == items@[k]@);
                if k < before.len() {
                    assert(blob_views(before)[k] == before[k]@);
                } else {
                    let j = k - before.len();
                    assert(blob_views(items@)[k] == added[j]);
                    assert(tags.contains(tags[j]));
                    assert(sfnt@.tables.contains_key(tags[j]));
                }
            }
        }
        let ghost old_stored = stored@;
        let ghost old_orders = orders@;
        let ghost old_firsts = firsts@.drop_last();
        stored.push(map);
        orders.push(order);
        proof {
            assert forall|g: int| 0 <= g < f + 1 implies {
                &&& (#[trigger] stored@[g])@ == stored_tables(fonts[g].tables)
                &&& tag_values(orders@[g]@) == storage_order(
                    fonts[g].sfnt_version,
                    fonts[g].tables.dom(),
                )
                &&& firsts@[g] == all_items(fonts.take(g)).len()
                &&& firsts@[g] + orders@[g]@.len() <= items@.len()
                &&& fonts[g].tables.dom().finite()
            } by {
                if g < f {
                    assert(stored@[g] == old_stored[g]);
                    assert(orders@[g] == old_orders[g]);
                    assert(firsts@[g] == old_firsts[g]);
                }
            }
        }
        f += 1;
    }
    assert(fonts.take(n as int) =~= fonts);
    (stored, orders, firsts, items)
}

/// Lays out the file of a collection whose tables start at `base`.
fn lay_out_collection(ttc: &TTCHeader, base: u64) -> (r: Result<CollectionLayout, WriteError>)
    requires
        base == crate::layout::ttc_base(ttc@),
        base <= 0x2_0000_0000,
        forall|f: int| 0 <= f < ttc@.fonts.len() ==> !has_long_table(#[trigger] ttc@.fonts[f]),
    ensures
        match r {
            Ok(l) => {
                &&& !has_far_item(all_items(ttc@.fonts), base as int, true)
                &&& l.laid@.len() == ttc@.fonts.len()
                &&& forall|f: int|
                    0 <= f < ttc@.fonts.len() ==> (#[trigger] l.laid@[f])@
                        == crate::layout::ttc_laid_out(ttc@, f)
                &&& blob_views(l.items@) == all_items(ttc@.fonts)
                &&& l.placement.placed@.len() == l.items@.len()
                &&& forall|k: int|
                    0 <= k < l.items@.len() ==> #[trigger] l.placement.placed@[k] == is_placed(
                        blob_views(l.items@),
                        k,
                        true,
                    )
                &&& l.placement.end == base + crate::layout::ttc_region(ttc@).len()
                &&& l.placement.end <= 0x2_0000_0000
            },
            Err(e) => e == WriteError::OffsetOverflow && has_far_item(
                all_items(ttc@.fonts),
                base as int,
                true,
            ),
        },
{
    let (mut stored, orders, firsts, items) = collect_fonts(ttc);
    let placement = match assign_offsets(&items, base, true) {
        Ok(p) => p,
        Err(e) => {
            return Err(e);
        },
    };
    let ghost fonts = ttc@.fonts;
    let ghost all = all_items(fonts);
    let n = stored.len();
    let mut f: usize = 0;
    proof {
        let stored0 = stored@;
        assert forall|g: int| 0 <= g < n implies {
            &&& tag_values((#[trigger] orders@[g])@) == storage_order(
                fonts[g].sfnt_version,
                fonts[g].tables.dom(),
            )
            &&& firsts@[g] == all_items(fonts.take(g)).len()
            &&& firsts@[g] + orders@[g]@.len() <= items@.len()
            &&& fonts[g].tables.dom().finite()
        } by {
            assert(stored0[g]@ == stored_tables(fonts[g].tables));
        }
    }
    while f < n
        invariant
            0 <= f <= n,
            stored@.len() == n,
            orders@.len() == n,
            firsts@.len() == n,
            fonts == ttc@.fonts,
            fonts.len() == n,
            all == all_items(fonts),
            base == crate::layout::ttc_base(ttc@),
            placement.offsets@.len() == items@.len(),
            forall|k: int|
                0 <= k < items@.len() ==> #[trigger] placement.offsets@[k] == item_offset(
                    all,
                    base as int,
                    k,
                    true,
                ),
            forall|g: int|
                0 <= g < f ==> (#[trigger] stored@[g])@ == crate::layout::ttc_laid_out(ttc@, g),
            forall|g: int|
                f <= g < n ==> (#[trigger] stored@[g])@ == stored_tables(fonts[g].tables),
            forall|g: int|
                0 <= g < n ==> {
                    &&& tag_values((#[trigger] orders@[g])@) == storage_order(
                        fonts[g].sfnt_version,
                        fonts[g].tables.dom(),
                    )
                    &&& firsts@[g] == all_items(fonts.take(g)).len()
                    &&& firsts@[g] + orders@[g]@.len() <= items@.len()
                    &&& fonts[g].tables.dom().finite()
                },
        decreases n - f,
    {
        let ghost font = fonts[f as int];
        let ghost tags = tag_values(orders@[f as int]@);
        let ghost previous = stored@;
        proof {
            lemma_storage_order(font.sfnt_version, font.tables.dom());
            assert(stored@[f as int]@.dom() =~= font.tables.dom());
        }
        assign_records(&mut stored[f], &orders[f], &placement.offsets, firsts[f]);
        proof {
            let laid = crate::layout::ttc_laid_out(ttc@, f as int);
            assert forall|t: u32| stored@[f as int]@.contains_key(t) implies #[trigger] stored@[f as int]@[t]
                == laid[t] by {
                assert(tags.contains(t));
                let k = tags.index_of(t);
                assert(tags[k] == t);
            }
            assert(stored@[f as int]@ =~= laid);
        }
        f += 1;
    }
    Ok(CollectionLayout { laid: stored, items, placement })
}

/// Writes the tag, the version and the number of fonts of a collection.
fn write_fixed_fields(sink: &mut Sink, ttc: &TTCHeader)
    requires
        old(sink).wf(),
        ttc@.fonts.len() <= FONTS_MAX,
    ensures
        final(sink).wf(),
        final(sink).out@ == old(sink).out@ + crate::layout::fixed_fields(ttc@),
{
    let n = ttc.table_directories.len();
    sink.write_fourcc(ttc.ttc_tag);
    sink.write_u16be(ttc.major_version);
    sink.write_u16be(ttc.minor_version);
    sink.write_u32be(n as u32);
    assert(sink.out@ =~= old(sink).out@ + crate::layout::fixed_fields(ttc@));
}

/// Writes the tag, the length and the offset of the signature of a
/// collection, from version 2 on.
fn write_signature_fields(sink: &mut Sink, ttc: &TTCHeader, dsig_at: u32)
    requires
        old(sink).wf(),
        ttc@.major_version >= 2 ==> ttc@.dsig_data.len() <= FIELD_MAX,
        dsig_at == crate::layout::dsig_offset(ttc@),
    ensures
        final(sink).wf(),
        final(sink).out@ == old(sink).out@ + crate::layout::signature_fields(ttc@),
{
    if ttc.major_version >= 2 {
        sink.write_fourcc(ttc.dsig_tag);
        sink.write_u32be(ttc.dsig_data.len() as u32);
        sink.write_u32be(dsig_at);
    }
    assert(sink.out@ =~= old(sink).out@ + crate::layout::signature_fields(ttc@));
}

/// Writes the head of a collection file.
fn write_collection_header(sink: &mut Sink, ttc: &TTCHeader, offsets: &Vec<u32>, dsig_at: u32)
    requires
        old(sink).wf(),
        ttc@.fonts.len() <= FONTS_MAX,
        offsets@.len() == ttc@.fonts.len(),
        forall|f: int|
            0 <= f < offsets@.len() ==> #[trigger] offsets@[f] == crate::layout::directory_offset(
                ttc@,
                f as nat,
            ),
        ttc@.major_version >= 2 ==> ttc@.dsig_data.len() <= FIELD_MAX,
        dsig_at == crate::layout::dsig_offset(ttc@),
    ensures
        final(sink).wf(),
        final(sink).out@ == old(sink).out@ + crate::layout::ttc_header_bytes(ttc@),
{
    let ghost start = sink.out@;
    let ghost fixed = crate::layout::fixed_fields(ttc@);
    let ghost listed = crate::layout::directory_offsets_bytes(ttc@, ttc@.fonts.len());
    let ghost tail = crate::layout::signature_fields(ttc@);
    write_fixed_fields(sink, ttc);
    write_directory_offsets(sink, ttc, offsets);
    write_signature_fields(sink, ttc, dsig_at);
    assert(sink.out@ == start + fixed + listed + tail);
    assert(start + fixed + listed + tail =~= start + (fixed + listed + tail));
}

/// Writes the offsets of the directories of a collection.
fn write_directory_offsets(sink: &mut Sink, ttc: &TTCHeader, offsets: &Vec<u32>)
    requires
        old(sink).wf(),
        offsets@.len() == ttc@.fonts.len(),
        forall|f: int|
            0 <= f < offsets@.len() ==> #[trigger] offsets@[f] == crate::layout::directory_offset(
                ttc@,
                f as nat,
            ),
    ensures
        final(sink).wf(),
        final(sink).out@ == old(sink).out@ + crate::layout::directory_offsets_bytes(
            ttc@,
            ttc@.fonts.len(),
        ),
{
    let n = offsets.len();
    let ghost head = sink.out@;
    let mut f: usize = 0;
    assert(head + crate::layout::directory_offsets_bytes(ttc@, 0) =~= head);
    while f < n
        invariant
            0 <= f <= n,
            n == offsets@.len(),
            n == ttc@.fonts.len(),
            sink.wf(),
            forall|f: int|
                0 <= f < offsets@.len() ==> #[trigger] offsets@[f]
                    == crate::layout::directory_offset(ttc@, f as nat),
            sink.out@ == head + crate::layout::directory_offsets_bytes(ttc@, f as nat),
        decreases n - f,
    {
        let ghost before = crate::layout::directory_offsets_bytes(ttc@, f as nat);
        sink.write_u32be(offsets[f]);
        f += 1;
        assert(crate::layout::directory_offsets_bytes(ttc@, f as nat) == before + u32_bytes(
            offsets@[f - 1],
        ));
        assert(sink.out@ =~= head + crate::layout::directory_offsets_bytes(ttc@, f as nat));
    }
}

/// Writes the directories of the fonts of a collection.
#[verifier::loop_isolation(false)]
fn write_directories(sink: &mut Sink, ttc: &TTCHeader, laid: &Vec<TableMap>)
    requires
        old(sink).wf(),
        laid@.len() == ttc@.fonts.len(),
        forall|f: int|
            0 <= f < ttc@.fonts.len() ==> (#[trigger] laid@[f])@ == crate::layout::ttc_laid_out(
                ttc@,
                f,
            ),
        forall|f: int|
            0 <= f < ttc@.fonts.len() ==> (#[trigger] ttc@.fonts[f]).tables.len() <= TABLES_MAX,
        forall|f: int| 0 <= f < ttc@.fonts.len() ==> !has_long_table(#[trigger] ttc@.fonts[f]),
    ensures
        final(sink).wf(),
        final(sink).out@ == old(sink).out@ + crate::layout::directories_bytes(
            ttc@,
            ttc@.fonts.len(),
        ),
{
    let n = ttc.table_directories.len();
    let ghost start = sink.out@;
    let mut f: usize = 0;
    assert(start + crate::layout::directories_bytes(ttc@, 0) =~= start);
    while f < n
        invariant
            0 <= f <= n,
            sink.wf(),
            sink.out@ == start + crate::layout::directories_bytes(ttc@, f as nat),
        decreases n - f,
    {
        let sfnt = &ttc.table_directories[f];
        assert(ttc@.fonts[f as int] == sfnt@);
        assert(laid@[f as int]@.dom() =~= sfnt@.tables.dom());
        write_directory(sink, sfnt, &laid[f]);
        f += 1;
        assert(sink.out@ =~= start + crate::layout::directories_bytes(ttc@, f as nat));
    }
}

/// All that the writing of a collection needs: the offsets of the
/// directories and of the signature, and the layout of the tables.
struct CollectionPlan {
    offsets: Vec<u32>,
    dsig_at: u32,
    layout: CollectionLayout,
}

/// Whether what `plan` holds is the plan of the file of `ttc`.
spec fn plans(plan: CollectionPlan, ttc: TTCView) -> bool {
    &&& plan.offsets@.len() == ttc.fonts.len()
    &&& forall|f: int|
        0 <= f < plan.offsets@.len() ==> #[trigger] plan.offsets@[f]
            == crate::layout::directory_offset(ttc, f as nat)
    &&& plan.dsig_at == crate::layout::dsig_offset(ttc)
    &&& plan.layout.laid@.len() == ttc.fonts.len()
    &&& forall|f: int|
        0 <= f < ttc.fonts.len() ==> (#[trigger] plan.layout.laid@[f])@
            == crate::layout::ttc_laid_out(ttc, f)
    &&& blob_views(plan.layout.items@) == all_items(ttc.fonts)
    &&& plan.layout.placement.placed@.len() == plan.layout.items@.len()
    &&& forall|k: int|
        0 <= k < plan.layout.items@.len() ==> #[trigger] plan.layout.placement.placed@[k]
            == is_placed(blob_views(plan.layout.items@), k, true)
}

/// Lays out the file of a collection, or says why it cannot be written.
fn plan_collection(ttc: &TTCHeader) -> (r: Result<CollectionPlan, WriteError>)
    ensures
        match r {
            Ok(plan) => crate::layout::ttc_write_error(ttc@) is None && plans(plan, ttc@),
            Err(e) => crate::layout::ttc_write_error(ttc@) == Some(e),
        },
{
    match check_collection(ttc) {
        Ok(_) => {},
        Err(e) => {
            return Err(e);
        },
    }
    let (offsets, base) = match directory_offsets(ttc) {
        Ok(r) => r,
        Err(e) => {
            return Err(e);
        },
    };
    let layout = match lay_out_collection(ttc, base) {
        Ok(l) => l,
        Err(e) => {
            return Err(e);
        },
    };
    let signed = ttc.major_version >= 2 && (ttc.dsig_tag.value() == DSIG
        || ttc.dsig_data.len() > 0);
    assert(signed == crate::layout::has_dsig(ttc@));
    let end = layout.placement.end;
    let dsig_at: u64 = if signed {
        end + (4 - end % 4) % 4
    } else {
        0
    };
    assert(dsig_at == crate::layout::dsig_offset(ttc@));
    if dsig_at > FIELD_MAX {
        return Err(WriteError::OffsetOverflow);
    }
    Ok(CollectionPlan { offsets, dsig_at: dsig_at as u32, layout })
}

/// Writes the signature of a collection after its tables, where the file
/// holds one.
fn write_signature(sink: &mut Sink, ttc: &TTCHeader)
    requires
        old(sink).wf(),
        old(sink).out@.len() == crate::layout::ttc_base(ttc@) + crate::layout::ttc_region(
            ttc@,
        ).len(),
    ensures
        final(sink).wf(),
        final(sink).out@ == old(sink).out@ + crate::layout::dsig_bytes(ttc@),
{
    let signed = ttc.major_version >= 2 && (ttc.dsig_tag.value() == DSIG
        || ttc.dsig_data.len() > 0);
    if signed {
        let ghost before = sink.out@;
        sink.write_padding();
        sink.write_all(ttc.dsig_data.as_slice());
        assert(sink.out@ =~= before + crate::layout::dsig_bytes(ttc@));
    } else {
        assert(sink.out@ =~= old(sink).out@ + crate::layout::dsig_bytes(ttc@));
    }
}

/// Writes the file of a collection as planned.
fn emit_collection(sink: &mut Sink, ttc: &TTCHeader, plan: &CollectionPlan)
    requires
        old(sink).wf(),
        old(sink).out@.len() == 0,
        crate::layout::ttc_write_error(ttc@) is None,
        plans(*plan, ttc@),
    ensures
        final(sink).out@ == crate::layout::ttc_image(ttc@),
{
    let ghost header = crate::layout::ttc_header_bytes(ttc@);
    let ghost directories = crate::layout::directories_bytes(ttc@, ttc@.fonts.len());
    let ghost tables = crate::layout::ttc_region(ttc@);
    let ghost signature = crate::layout::dsig_bytes(ttc@);
    write_collection_header(sink, ttc, &plan.offsets, plan.dsig_at);
    assert(sink.out@ =~= header);
    write_directories(sink, ttc, &plan.layout.laid);
    assert(sink.out@ == header + directories);
    proof {
        crate::layout::lemma_directories_len(ttc@, ttc@.fonts.len());
        assert(sink.out@.len() == crate::layout::ttc_base(ttc@));
    }
    write_region(sink, &plan.layout.items, &plan.layout.placement.placed, true);
    assert(sink.out@ == header + directories + tables);
    write_signature(sink, ttc);
    assert(sink.out@ == header + directories + tables + signature);
}

/// The bytes of the file of a collection.
fn write_collection(sink: Sink, ttc: &TTCHeader) -> (r: Result<Vec<u8>, WriteError>)
    requires
        sink.wf(),
        sink.out@.len() == 0,
    ensures
        match r {
            Ok(bytes) => crate::layout::ttc_write_error(ttc@) is None && bytes@
                == crate::layout::ttc_image(ttc@),
            Err(e) => crate::layout::ttc_write_error(ttc@) == Some(e),
        },
{
    let mut sink = sink;
    match plan_collection(ttc) {
        Ok(plan) => {
            emit_collection(&mut sink, ttc, &plan);
            Ok(sink.out)
        },
        Err(e) => Err(e),
    }
}

/// The writer of a container.
pub struct TTCWriter {
    sink: Sink,
}

impl TTCWriter {
    #[verifier::type_invariant]
    spec fn unused(self) -> bool {
        self.sink.wf() && self.sink.out@.len() == 0
    }

    /// A writer that has written nothing yet.
    pub fn new() -> (writer: Self)
        ensures
            writer.written() == Seq::<u8>::empty(),
    {
        TTCWriter { sink: Sink::new() }
    }

    /// The order in which the tables of a font are stored: those on the
    /// priority list of its version in the order of the list, then the
    /// others in the order of their tags.
    pub fn get_table_storage_order(&self, sfnt_version: FourCC, table_records: &TableMap) -> (order:
        Vec<FourCC>)
        ensures
            table_records@.dom().finite(),
            tag_values(order@) == storage_order(sfnt_version@, table_records@.dom()),
    {
        get_table_storage_order(sfnt_version, table_records)
    }

    /// The tables as they are stored: with the checksum adjustment of the
    /// `head` table set to zero. Tables that stay as they are share their
    /// bytes with those of `table_records`.
    pub fn patch_head_table(&self, table_records: &TableMap) -> (stored: TableMap)
        ensures
            table_records@.dom().finite(),
            stored@ == stored_tables(table_records@),
    {
        patch_head_table(table_records)
    }

    /// The number of zero bytes that bring place `pos` to a multiple of
    /// four.
    pub fn get_padding(&self, pos: usize) -> (count: usize)
        ensures
            count == padding(pos as int),
    {
        get_padding(pos)
    }

    /// The bytes that the writer has written so far. A writer writes one
    /// file and is used up by it, so that the offsets of a file count from
    /// its first byte.
    pub closed spec fn written(self) -> Seq<u8> {
        self.sink.out@
    }

    /// The bytes of the file of a single font: the directory in the order
    /// of the tags, the tables in the order of storage, each at a multiple
    /// of four, and the checksum adjustment of the whole file in the `head`
    /// table, which makes the checksum of the file the magic number.
    pub fn write_sfnt(self, sfnt: &SfntHeader) -> (r: Result<Vec<u8>, WriteError>)
        ensures
            match r {
                Ok(bytes) => {
                    &&& crate::layout::sfnt_write_error(sfnt@) is None
                    &&& bytes@ == crate::layout::sfnt_image(sfnt@)
                    &&& crate::layout::has_adjustment(sfnt@) ==> sum32(bytes@)
                        == crate::layout::CHECKSUM_MAGIC
                },
                Err(e) => crate::layout::sfnt_write_error(sfnt@) == Some(e),
            },
    {
        proof {
            use_type_invariant(&self);
        }
        let r = write_font(self.sink, sfnt);
        proof {
            if r is Ok && crate::layout::has_adjustment(sfnt@) {
                crate::layout::lemma_file_checksum(sfnt@);
            }
        }
        r
    }

    /// The bytes of the file of a container: that of its font where it
    /// holds a single one, else a collection file, in which tables with the
    /// same bytes are stored once and the fonts that have them share them.
    pub fn write_ttc(self, ttc: &TTCHeader) -> (r: Result<Vec<u8>, WriteError>)
        ensures
            match r {
                Ok(bytes) => {
                    &&& crate::layout::write_error(ttc@) is None
                    &&& bytes@ == crate::layout::container_image(ttc@)
                    &&& ttc@.fonts.len() == 1 && crate::layout::has_adjustment(ttc@.fonts[0])
                        ==> sum32(bytes@) == crate::layout::CHECKSUM_MAGIC
                },
                Err(e) => crate::layout::write_error(ttc@) == Some(e),
            },
    {
        if ttc.table_directories.len() == 1 {
            assert(ttc@.fonts[0] == ttc.table_directories@[0]@);
            self.write_sfnt(&ttc.table_directories[0])
        } else {
            proof {
                use_type_invariant(&self);
            }
            write_collection(self.sink, ttc)
        }
    }
}

} // verus!
