//! What the reader finds in a file that the writer wrote.

use crate::bytes::{overwrite, u16_at, u16_bytes, u32_at, u32_bytes};
use crate::layout::{
    adjustment, all_items, directories_bytes, directory_bytes, directory_offset,
    directory_offsets_bytes, dsig_bytes, dsig_offset, entries_bytes, entry_bytes, fixed_fields,
    font_items, has_adjustment, has_dsig, lemma_aligned, lemma_collection_table_checksum,
    lemma_directories_len, lemma_directory_len, lemma_directory_offset_positive, lemma_entries_len,
    lemma_offsets_len, lemma_storage_order, lemma_table_within, padding, sfnt_base,
    sfnt_header_bytes, sfnt_image, sfnt_laid_out, signature_fields, sfnt_unadjusted,
    sfnt_write_error, stored_bytes, storage_order, ttc_base, ttc_header_bytes, ttc_header_len,
    ttc_image, ttc_laid_out, ttc_region, ttc_write_error, FIELD_MAX, FONTS_MAX, TABLES_MAX,
};
use crate::tables::{directory_order, lemma_directory_order, TableView};
use crate::tag::{DSIG, HEAD, TTCF};
use crate::ttc_reader::{
    blob_at, dsig_at, fonts_at, is_as_read, known_version, parse_container, parse_sfnt, single_font, table_at,
    tables_at, ReadError,
};
use crate::types::{SfntView, TTCView};
use vstd::prelude::*;

verus! {

/// The bytes of a table as the file of a single font holds them: the
/// stored bytes, with the checksum adjustment of the file in the `head`
/// table.
pub open spec fn written_bytes(font: SfntView, tag: u32) -> Seq<u8> {
    let stored = stored_bytes(tag, font.tables[tag].raw_data);
    if tag == HEAD && has_adjustment(font) {
        overwrite(stored, 8, u32_bytes(adjustment(sfnt_unadjusted(font))))
    } else {
        stored
    }
}

/// The font as it is read back from its file: each table with the bytes
/// that the file holds and with the checksum and offset of its directory
/// entry.
pub open spec fn read_back(font: SfntView) -> SfntView {
    SfntView {
        sfnt_version: font.sfnt_version,
        tables: Map::new(
            |t: u32| font.tables.contains_key(t),
            |t: u32|
                TableView { raw_data: written_bytes(font, t), ..sfnt_laid_out(font)[t] },
        ),
    }
}

/// Reading two bytes that were written as a 16-bit number gives the
/// number, wherever they stand.
pub proof fn lemma_read_u16(s: Seq<u8>, at: int, v: u16)
    requires
        0 <= at,
        at + 2 <= s.len(),
        s.subrange(at, at + 2) == u16_bytes(v),
    ensures
        u16_at(s, at) == v,
{
    let part = s.subrange(at, at + 2);
    assert(part[0] == s[at] && part[1] == s[at + 1]);
    crate::bytes::lemma_u16_round_trip(v);
}

/// Reading four bytes that were written as a 32-bit number gives the
/// number, wherever they stand.
pub proof fn lemma_read_u32(s: Seq<u8>, at: int, v: u32)
    requires
        0 <= at,
        at + 4 <= s.len(),
        s.subrange(at, at + 4) == u32_bytes(v),
    ensures
        u32_at(s, at) == v,
{
    let part = s.subrange(at, at + 4);
    assert(part[0] == s[at] && part[1] == s[at + 1] && part[2] == s[at + 2] && part[3] == s[at
        + 3]);
    crate::bytes::lemma_u32_round_trip(v);
}

/// The fields of a directory entry that stands at place `at`.
pub proof fn lemma_read_entry(s: Seq<u8>, at: int, tag: u32, table: TableView)
    requires
        0 <= at,
        at + 16 <= s.len(),
        s.subrange(at, at + 16) == entry_bytes(tag, table),
        table.raw_data.len() <= FIELD_MAX,
    ensures
        u32_at(s, at) == tag,
        u32_at(s, at + 4) == table.checksum,
        u32_at(s, at + 8) == table.offset,
        u32_at(s, at + 12) == table.raw_data.len(),
{
    let e = entry_bytes(tag, table);
    let part = s.subrange(at, at + 16);
    let a = u32_bytes(tag);
    let b = u32_bytes(table.checksum);
    let c = u32_bytes(table.offset);
    let d = u32_bytes(table.raw_data.len() as u32);
    assert(e == a + b + c + d);
    assert(a.len() == 4 && b.len() == 4 && c.len() == 4 && d.len() == 4);
    assert(e.len() == 16);
    assert forall|i: int| 0 <= i < 16 implies s[at + i] == #[trigger] e[i] by {
        assert(part[i] == s[at + i]);
    }
    assert forall|j: int| 0 <= j < 4 implies e[j] == a[j] && e[4 + j] == b[j] && e[8 + j] == c[j]
        && e[12 + j] == d[j] by {
        assert((a + b + c)[j] == a[j]);
        assert((a + b + c)[4 + j] == b[j]);
        assert((a + b + c)[8 + j] == c[j]);
    }
    assert forall|j: int| 0 <= j < 4 implies s[at + j] == a[j] && s[at + 4 + j] == b[j] && s[at
        + 8 + j] == c[j] && s[at + 12 + j] == d[j] by {
        assert(s[at + j] == e[j]);
        assert(s[at + 4 + j] == e[4 + j]);
        assert(s[at + 8 + j] == e[8 + j]);
        assert(s[at + 12 + j] == e[12 + j]);
    }
    assert(s.subrange(at, at + 4) =~= a);
    assert(s.subrange(at + 4, at + 8) =~= b);
    assert(s.subrange(at + 8, at + 12) =~= c);
    assert(s.subrange(at + 12, at + 16) =~= d);
    lemma_read_u32(s, at, tag);
    lemma_read_u32(s, at + 4, table.checksum);
    lemma_read_u32(s, at + 8, table.offset);
    lemma_read_u32(s, at + 12, table.raw_data.len() as u32);
}

/// Entry `i` of a directory stands sixteen bytes after entry `i - 1`.
pub proof fn lemma_entry_at(tables: Map<u32, TableView>, n: nat, i: int)
    requires
        0 <= i < n,
    ensures
        entries_bytes(tables, n).len() == 16 * n,
        entries_bytes(tables, n).subrange(16 * i, 16 * i + 16) == entry_bytes(
            directory_order(tables.dom())[i],
            tables[directory_order(tables.dom())[i]],
        ),
    decreases n,
{
    lemma_entries_len(tables, n);
    lemma_entries_len(tables, (n - 1) as nat);
    let all = entries_bytes(tables, n);
    let front = entries_bytes(tables, (n - 1) as nat);
    let tag = directory_order(tables.dom())[n - 1];
    if i == n - 1 {
        assert(all.subrange(16 * i, 16 * i + 16) =~= entry_bytes(tag, tables[tag]));
    } else {
        lemma_entry_at(tables, (n - 1) as nat, i);
        assert(all.subrange(16 * i, 16 * i + 16) =~= front.subrange(16 * i, 16 * i + 16));
    }
}

/// In the file of a single font, every table stands at its offset with the
/// bytes that it is read back with.
pub proof fn lemma_written_bytes(font: SfntView, tag: u32)
    requires
        font.tables.dom().finite(),
        font.tables.contains_key(tag),
        sfnt_write_error(font) is None,
    ensures
        sfnt_image(font).len() == sfnt_unadjusted(font).len(),
        written_bytes(font, tag).len() == font.tables[tag].raw_data.len(),
        sfnt_laid_out(font)[tag].offset + written_bytes(font, tag).len() <= sfnt_image(font).len(),
        sfnt_image(font).subrange(
            sfnt_laid_out(font)[tag].offset as int,
            sfnt_laid_out(font)[tag].offset + written_bytes(font, tag).len(),
        ) == written_bytes(font, tag),
{
    lemma_table_within(font, tag);
    let image = sfnt_image(font);
    let stored = stored_bytes(tag, font.tables[tag].raw_data);
    let from = sfnt_laid_out(font)[tag].offset as int;
    let to = from + stored.len();
    if tag == HEAD {
        if has_adjustment(font) {
            assert(image.subrange(from, to) =~= written_bytes(font, tag));
        }
    } else {
        crate::layout::lemma_table_untouched(font, tag);
    }
}

/// Whether `back` holds the tables of the directory `laid` as a reader
/// finds them in `image`: each with the checksum and offset of its entry
/// and with the bytes that stand in `image` at that offset.
pub open spec fn reads_as(
    image: Seq<u8>,
    laid: Map<u32, TableView>,
    back: Map<u32, TableView>,
) -> bool {
    &&& back.dom() == laid.dom()
    &&& forall|t: u32| #[trigger]
        laid.contains_key(t) ==> {
            &&& laid[t].raw_data.len() <= FIELD_MAX
            &&& back[t].checksum == laid[t].checksum
            &&& back[t].offset == laid[t].offset
            &&& blob_at(image, laid[t].offset as int, laid[t].raw_data.len() as int) == Some(
                back[t].raw_data,
            )
        }
}

/// The first `n` tables of a directory, out of `back`.
pub open spec fn first_tables(back: Map<u32, TableView>, n: nat) -> Map<u32, TableView> {
    let order = directory_order(back.dom());
    Map::new(|t: u32| exists|i: int| 0 <= i < n && order[i] == t, |t: u32| back[t])
}

/// All tables of the directory are all tables.
pub proof fn lemma_first_tables_all(back: Map<u32, TableView>)
    requires
        back.dom().finite(),
    ensures
        first_tables(back, back.len()) == back,
{
    let n = back.len();
    let order = directory_order(back.dom());
    lemma_directory_order(back.dom());
    let all = first_tables(back, n);
    assert forall|t: u32| #[trigger] all.contains_key(t) <==> back.contains_key(t) by {
        if all.contains_key(t) {
            let j = choose|j: int| 0 <= j < n && order[j] == t;
            assert(order.contains(t));
        }
        if back.contains_key(t) {
            assert(order.to_set().contains(t));
            assert(order.contains(t));
            let j = choose|j: int| 0 <= j < order.len() && order[j] == t;
            assert(0 <= j < n && order[j] == t);
        }
    }
    assert(all =~= back);
}

/// One more table of the directory is the next table put in.
pub proof fn lemma_first_tables_next(back: Map<u32, TableView>, n: nat)
    requires
        back.dom().finite(),
        0 < n <= back.len(),
    ensures
        first_tables(back, n) == first_tables(back, (n - 1) as nat).insert(
            directory_order(back.dom())[n - 1],
            back[directory_order(back.dom())[n - 1]],
        ),
{
    let order = directory_order(back.dom());
    lemma_directory_order(back.dom());
    let tag = order[n - 1];
    let before = first_tables(back, (n - 1) as nat);
    let after = first_tables(back, n);
    assert forall|t: u32| #[trigger] after.contains_key(t) <==> before.insert(
        tag,
        back[tag],
    ).contains_key(t) by {
        if after.contains_key(t) {
            let j = choose|j: int| 0 <= j < n && order[j] == t;
            if j < n - 1 {
                assert(before.contains_key(t));
            }
        }
        if before.contains_key(t) {
            let j = choose|j: int| 0 <= j < n - 1 && order[j] == t;
            assert(0 <= j < n && order[j] == t);
        }
        if t == tag {
            assert(0 <= n - 1 < n && order[n - 1] == t);
        }
    }
    assert(after =~= before.insert(tag, back[tag]));
}

/// The reader finds the first `n` tables of a directory that stands in
/// `image` at place `at`.
pub proof fn lemma_tables_parsed(
    image: Seq<u8>,
    at: int,
    version: u32,
    laid: Map<u32, TableView>,
    back: Map<u32, TableView>,
    n: nat,
)
    requires
        0 <= at,
        laid.dom().finite(),
        n <= laid.len(),
        at + 12 + 16 * laid.len() <= image.len(),
        image.subrange(at, at + 12 + 16 * laid.len()) == directory_bytes(version, laid),
        reads_as(image, laid, back),
    ensures
        tables_at(image, at + 12, n) == Some(first_tables(back, n)),
    decreases n,
{
    let order = directory_order(laid.dom());
    lemma_directory_order(laid.dom());
    if n == 0 {
        assert(first_tables(back, 0) =~= Map::<u32, TableView>::empty());
    } else {
        lemma_tables_parsed(image, at, version, laid, back, (n - 1) as nat);
        let i = n - 1;
        let tag = order[i];
        assert(order.contains(tag));
        assert(laid.contains_key(tag));
        let entry = laid[tag];
        let place = at + 12 + 16 * i;
        lemma_entry_in_directory(image, at, version, laid, i);
        lemma_read_entry(image, place, tag, entry);
        assert(table_at(image, place) == Some((tag, back[tag])));
        lemma_first_tables_next(back, n);
    }
}

/// Entry `i` of a directory that stands in `image` at place `at`.
pub proof fn lemma_entry_in_directory(
    image: Seq<u8>,
    at: int,
    version: u32,
    laid: Map<u32, TableView>,
    i: int,
)
    requires
        0 <= at,
        0 <= i < laid.len(),
        at + 12 + 16 * laid.len() <= image.len(),
        image.subrange(at, at + 12 + 16 * laid.len()) == directory_bytes(version, laid),
    ensures
        image.subrange(at + 12 + 16 * i, at + 12 + 16 * i + 16) == entry_bytes(
            directory_order(laid.dom())[i],
            laid[directory_order(laid.dom())[i]],
        ),
{
    let n = laid.len();
    let directory = directory_bytes(version, laid);
    let header = sfnt_header_bytes(version, n);
    let entries = entries_bytes(laid, n);
    lemma_entry_at(laid, n, i);
    assert(header.len() == 12);
    assert(directory == header + entries);
    let from = 12 + 16 * i;
    crate::bytes::lemma_part_of_part(image, at, at + 12 + 16 * n, from, from + 16);
    crate::bytes::lemma_part_of_second(header, entries, 16 * i, 16 * i + 16);
}

/// The version and the number of tables of a directory that stands in
/// `image` at place `at`.
pub proof fn lemma_header_parsed(image: Seq<u8>, at: int, version: u32, laid: Map<u32, TableView>)
    requires
        0 <= at,
        laid.len() <= TABLES_MAX,
        at + 12 + 16 * laid.len() <= image.len(),
        image.subrange(at, at + 12 + 16 * laid.len()) == directory_bytes(version, laid),
    ensures
        u32_at(image, at) == version,
        u16_at(image, at + 4) == laid.len(),
{
    let n = laid.len();
    let directory = directory_bytes(version, laid);
    let header = sfnt_header_bytes(version, n);
    let entries = entries_bytes(laid, n);
    let tag = u32_bytes(version);
    let count = u16_bytes(n as u16);
    assert(header.len() == 12);
    assert(directory == header + entries);
    crate::bytes::lemma_part_of_part(image, at, at + 12 + 16 * n, 0, 4);
    crate::bytes::lemma_part_of_part(image, at, at + 12 + 16 * n, 4, 6);
    crate::bytes::lemma_part_of_first(header, entries, 0, 4);
    crate::bytes::lemma_part_of_first(header, entries, 4, 6);
    assert(header.subrange(0, 4) =~= tag);
    assert(header.subrange(4, 6) =~= count);
    lemma_read_u32(image, at, version);
    lemma_read_u16(image, at + 4, n as u16);
}

/// The reader finds the font whose directory stands in `image` at place
/// `at`, with the tables as they stand in `image`.
pub proof fn lemma_font_parsed(
    image: Seq<u8>,
    at: int,
    version: u32,
    laid: Map<u32, TableView>,
    back: Map<u32, TableView>,
)
    requires
        0 <= at,
        known_version(version),
        laid.dom().finite(),
        laid.len() <= TABLES_MAX,
        at + 12 + 16 * laid.len() <= image.len(),
        image.subrange(at, at + 12 + 16 * laid.len()) == directory_bytes(version, laid),
        reads_as(image, laid, back),
    ensures
        parse_sfnt(image, at) == Ok::<SfntView, ReadError>(
            SfntView { sfnt_version: version, tables: back },
        ),
{
    lemma_header_parsed(image, at, version, laid);
    lemma_tables_parsed(image, at, version, laid, back, laid.len());
    lemma_first_tables_all(back);
}

/// The directory of a single font stands at the start of its file.
pub proof fn lemma_directory_written(font: SfntView)
    requires
        font.tables.dom().finite(),
        sfnt_write_error(font) is None,
    ensures
        sfnt_laid_out(font).dom() == font.tables.dom(),
        sfnt_image(font).len() >= sfnt_base(font),
        sfnt_image(font).subrange(0, sfnt_base(font)) == directory_bytes(
            font.sfnt_version,
            sfnt_laid_out(font),
        ),
{
    let laid = sfnt_laid_out(font);
    assert(laid.dom() =~= font.tables.dom());
    lemma_directory_len(font.sfnt_version, laid);
    let image = sfnt_image(font);
    let plain = sfnt_unadjusted(font);
    let directory = directory_bytes(font.sfnt_version, laid);
    if has_adjustment(font) {
        lemma_table_within(font, HEAD);
    }
    assert(plain.subrange(0, sfnt_base(font)) =~= directory);
    assert(image.subrange(0, sfnt_base(font)) =~= plain.subrange(0, sfnt_base(font)));
}

/// The tables of a single font are read back from its file as `read_back`
/// says.
pub proof fn lemma_sfnt_reads_as(font: SfntView)
    requires
        font.tables.dom().finite(),
        sfnt_write_error(font) is None,
    ensures
        reads_as(sfnt_image(font), sfnt_laid_out(font), read_back(font).tables),
{
    let image = sfnt_image(font);
    let laid = sfnt_laid_out(font);
    let back = read_back(font).tables;
    assert(laid.dom() =~= font.tables.dom());
    assert(back.dom() =~= laid.dom());
    assert forall|t: u32| #[trigger] laid.contains_key(t) implies {
        &&& laid[t].raw_data.len() <= FIELD_MAX
        &&& back[t].checksum == laid[t].checksum
        &&& back[t].offset == laid[t].offset
        &&& blob_at(image, laid[t].offset as int, laid[t].raw_data.len() as int) == Some(
            back[t].raw_data,
        )
    } by {
        assert(font.tables.contains_key(t));
        lemma_written_bytes(font, t);
        assert(!crate::layout::has_long_table(font));
        assert(laid[t].raw_data.len() == font.tables[t].raw_data.len());
        let bytes = written_bytes(font, t);
        if bytes.len() == 0 {
            assert(bytes =~= Seq::<u8>::empty());
        }
    }
}

/// Reading the file of a single font gives the font back, each table with
/// the bytes that the file holds: its own, but for the checksum adjustment
/// in the `head` table.
pub proof fn lemma_sfnt_round_trip(font: SfntView)
    requires
        font.tables.dom().finite(),
        known_version(font.sfnt_version),
        sfnt_write_error(font) is None,
    ensures
        parse_sfnt(sfnt_image(font), 0) == Ok::<SfntView, ReadError>(read_back(font)),
        parse_container(sfnt_image(font)) == Ok::<TTCView, ReadError>(
            single_font(read_back(font)),
        ),
{
    let image = sfnt_image(font);
    let laid = sfnt_laid_out(font);
    lemma_directory_written(font);
    lemma_sfnt_reads_as(font);
    assert(laid.len() == font.tables.len());
    lemma_font_parsed(image, 0, font.sfnt_version, laid, read_back(font).tables);
    lemma_header_parsed(image, 0, font.sfnt_version, laid);
}

/// The file of a font is made of its version, its tags, and the bytes of
/// its tables as they are stored: two fonts that agree in these have the
/// same file.
pub proof fn lemma_image_of_stored(a: SfntView, b: SfntView)
    requires
        a.tables.dom().finite(),
        a.sfnt_version == b.sfnt_version,
        a.tables.dom() == b.tables.dom(),
        forall|t: u32|
            a.tables.contains_key(t) ==> stored_bytes(t, #[trigger] a.tables[t].raw_data)
                == stored_bytes(t, b.tables[t].raw_data),
        a.tables.contains_key(HEAD) ==> a.tables[HEAD].raw_data.len()
            == b.tables[HEAD].raw_data.len(),
    ensures
        sfnt_image(a) == sfnt_image(b),
        sfnt_write_error(a) is None ==> sfnt_write_error(b) is None,
{
    let order = storage_order(a.sfnt_version, a.tables.dom());
    lemma_storage_order(a.sfnt_version, a.tables.dom());
    assert(font_items(a) =~= font_items(b)) by {
        assert forall|k: int| 0 <= k < order.len() implies #[trigger] font_items(a)[k]
            == font_items(b)[k] by {
            assert(order.contains(order[k]));
        }
    }
    assert(sfnt_laid_out(a) =~= sfnt_laid_out(b));
    if sfnt_write_error(a) is None {
        assert forall|t: u32| #[trigger] b.tables.contains_key(t) implies b.tables[t].raw_data.len()
            <= FIELD_MAX by {
            assert(a.tables.contains_key(t));
            assert(stored_bytes(t, a.tables[t].raw_data).len() == a.tables[t].raw_data.len());
            assert(stored_bytes(t, b.tables[t].raw_data).len() == b.tables[t].raw_data.len());
        }
    }
}

/// The tables of a font that is read back are stored with the bytes that
/// the tables of the font are stored with.
pub proof fn lemma_read_back_stored(font: SfntView)
    ensures
        read_back(font).sfnt_version == font.sfnt_version,
        read_back(font).tables.dom() == font.tables.dom(),
        forall|t: u32|
            font.tables.contains_key(t) ==> stored_bytes(t, #[trigger] font.tables[t].raw_data)
                == stored_bytes(t, read_back(font).tables[t].raw_data),
        font.tables.contains_key(HEAD) ==> font.tables[HEAD].raw_data.len() == read_back(
            font,
        ).tables[HEAD].raw_data.len(),
{
    let back = read_back(font);
    assert(back.tables.dom() =~= font.tables.dom());
    assert forall|t: u32| font.tables.contains_key(t) implies stored_bytes(
        t,
        #[trigger] font.tables[t].raw_data,
    ) == stored_bytes(t, back.tables[t].raw_data) by {
        let stored = stored_bytes(t, font.tables[t].raw_data);
        assert(back.tables[t].raw_data == written_bytes(font, t));
        if t == HEAD {
            assert(stored_bytes(t, written_bytes(font, t)) =~= stored);
        } else {
            assert(written_bytes(font, t) == stored);
        }
    }
}

/// A file that the writer wrote for a single font is copied byte for byte
/// when it is read and written again.
pub proof fn lemma_sfnt_copy(font: SfntView)
    requires
        font.tables.dom().finite(),
        known_version(font.sfnt_version),
        sfnt_write_error(font) is None,
    ensures
        parse_container(sfnt_image(font)) == Ok::<TTCView, ReadError>(
            single_font(read_back(font)),
        ),
        sfnt_write_error(read_back(font)) is None,
        sfnt_image(read_back(font)) == sfnt_image(font),
{
    lemma_sfnt_round_trip(font);
    lemma_read_back_stored(font);
    lemma_image_of_stored(font, read_back(font));
}

/// Font `f` of a collection as it is read back from the file of the
/// collection: each table with the bytes that it is stored with and with the
/// checksum and offset of its directory entry.
pub open spec fn collection_font_read_back(ttc: TTCView, f: int) -> SfntView {
    SfntView { sfnt_version: ttc.fonts[f].sfnt_version, tables: ttc_laid_out(ttc, f) }
}

/// The first `n` fonts of a collection as they are read back.
pub open spec fn fonts_read_back(ttc: TTCView, n: nat) -> Seq<SfntView> {
    Seq::new(n, |f: int| collection_font_read_back(ttc, f))
}

/// A collection as it is read back from its file. The signature is read
/// from version 2 on, its bytes only under the tag of a signature.
pub open spec fn collection_read_back(ttc: TTCView) -> TTCView {
    TTCView {
        ttc_tag: TTCF,
        major_version: ttc.major_version,
        minor_version: ttc.minor_version,
        fonts: fonts_read_back(ttc, ttc.fonts.len()),
        dsig_tag: if ttc.major_version >= 2 {
            ttc.dsig_tag
        } else {
            0
        },
        dsig_data: if ttc.major_version >= 2 && ttc.dsig_tag == DSIG {
            ttc.dsig_data
        } else {
            Seq::empty()
        },
    }
}

/// Whether the collection is one that can be written and read again: it
/// has the collection tag, and fonts of known versions.
pub open spec fn is_collection(ttc: TTCView) -> bool {
    &&& ttc.ttc_tag == TTCF
    &&& ttc_write_error(ttc) is None
    &&& forall|f: int|
        0 <= f < ttc.fonts.len() ==> (#[trigger] ttc.fonts[f]).tables.dom().finite()
            && known_version(ttc.fonts[f].sfnt_version)
}

/// The offset of directory `f` stands four bytes after that of directory
/// `f - 1`.
pub proof fn lemma_offset_at(ttc: TTCView, n: nat, f: int)
    requires
        0 <= f < n,
    ensures
        directory_offsets_bytes(ttc, n).len() == 4 * n,
        directory_offsets_bytes(ttc, n).subrange(4 * f, 4 * f + 4) == u32_bytes(
            directory_offset(ttc, f as nat) as u32,
        ),
    decreases n,
{
    lemma_offsets_len(ttc, n);
    lemma_offsets_len(ttc, (n - 1) as nat);
    let all = directory_offsets_bytes(ttc, n);
    let front = directory_offsets_bytes(ttc, (n - 1) as nat);
    let last = u32_bytes(directory_offset(ttc, (n - 1) as nat) as u32);
    assert(all == front + last);
    if f == n - 1 {
        crate::bytes::lemma_part_of_second(front, last, 0, 4);
        assert(last.subrange(0, 4) =~= last);
    } else {
        lemma_offset_at(ttc, (n - 1) as nat, f);
        crate::bytes::lemma_part_of_first(front, last, 4 * f, 4 * f + 4);
    }
}

/// The parts of the head of a collection file stand at the start of the
/// file, one after the other.
pub proof fn lemma_collection_header(ttc: TTCView)
    ensures
        fixed_fields(ttc).len() == 12,
        directory_offsets_bytes(ttc, ttc.fonts.len()).len() == 4 * ttc.fonts.len(),
        ttc_header_bytes(ttc).len() == ttc_header_len(ttc),
        ttc_image(ttc).len() >= ttc_header_len(ttc),
        ttc_image(ttc).subrange(0, ttc_header_len(ttc)) == ttc_header_bytes(ttc),
        ttc_header_bytes(ttc).subrange(0, 12) == fixed_fields(ttc),
        ttc_header_bytes(ttc).subrange(12, 12 + 4 * (ttc.fonts.len() as int))
            == directory_offsets_bytes(ttc, ttc.fonts.len()),
        ttc.major_version >= 2 ==> ttc_header_bytes(ttc).subrange(
            12 + 4 * (ttc.fonts.len() as int),
            12 + 4 * (ttc.fonts.len() as int) + 12,
        ) == signature_fields(ttc),
{
    let count = ttc.fonts.len();
    let n = count as int;
    let fixed = fixed_fields(ttc);
    let listed = directory_offsets_bytes(ttc, count);
    let tail = signature_fields(ttc);
    lemma_offsets_len(ttc, count);
    let header = ttc_header_bytes(ttc);
    let image = ttc_image(ttc);
    let rest = directories_bytes(ttc, count) + ttc_region(ttc) + dsig_bytes(ttc);
    assert(image =~= header + rest);
    crate::bytes::lemma_part_of_first(header, rest, 0, header.len() as int);
    assert(header.subrange(0, header.len() as int) =~= header);
    assert(header == fixed + listed + tail);
    crate::bytes::lemma_part_of_first(fixed + listed, tail, 0, 12);
    crate::bytes::lemma_part_of_first(fixed, listed, 0, 12);
    assert(fixed.subrange(0, 12) =~= fixed);
    crate::bytes::lemma_part_of_first(fixed + listed, tail, 12, 12 + 4 * n);
    crate::bytes::lemma_part_of_second(fixed, listed, 0, 4 * n);
    assert(listed.subrange(0, 4 * n) =~= listed);
    if ttc.major_version >= 2 {
        assert(tail.len() == 12);
        crate::bytes::lemma_part_of_second(fixed + listed, tail, 0, 12);
        assert(tail.subrange(0, 12) =~= tail);
    }
}

/// The reader finds the tag, the version and the number of fonts at the
/// start of a collection file.
pub proof fn lemma_collection_fields_read(ttc: TTCView)
    requires
        ttc.fonts.len() <= FONTS_MAX,
    ensures
        ttc_image(ttc).len() >= 12,
        u32_at(ttc_image(ttc), 0) == ttc.ttc_tag,
        u16_at(ttc_image(ttc), 4) == ttc.major_version,
        u16_at(ttc_image(ttc), 6) == ttc.minor_version,
        u32_at(ttc_image(ttc), 8) == ttc.fonts.len(),
{
    let image = ttc_image(ttc);
    let header = ttc_header_bytes(ttc);
    let fixed = fixed_fields(ttc);
    let h = ttc_header_len(ttc);
    lemma_collection_header(ttc);
    let a = u32_bytes(ttc.ttc_tag);
    let b = u16_bytes(ttc.major_version);
    let c = u16_bytes(ttc.minor_version);
    let d = u32_bytes(ttc.fonts.len() as u32);
    assert(fixed == a + b + c + d);
    crate::bytes::lemma_part_of_part(image, 0, h, 0, 12);
    assert(image.subrange(0, 12) == fixed);
    crate::bytes::lemma_part_of_part(image, 0, 12, 0, 4);
    crate::bytes::lemma_part_of_part(image, 0, 12, 4, 6);
    crate::bytes::lemma_part_of_part(image, 0, 12, 6, 8);
    crate::bytes::lemma_part_of_part(image, 0, 12, 8, 12);
    assert(fixed.subrange(0, 4) =~= a);
    assert(fixed.subrange(4, 6) =~= b);
    assert(fixed.subrange(6, 8) =~= c);
    assert(fixed.subrange(8, 12) =~= d);
    lemma_read_u32(image, 0, ttc.ttc_tag);
    lemma_read_u16(image, 4, ttc.major_version);
    lemma_read_u16(image, 6, ttc.minor_version);
    lemma_read_u32(image, 8, ttc.fonts.len() as u32);
}

/// The reader finds the offset of directory `f` in the head of a
/// collection file.
pub proof fn lemma_directory_offset_read(ttc: TTCView, f: int)
    requires
        0 <= f < ttc.fonts.len(),
        0 <= directory_offset(ttc, f as nat) <= FIELD_MAX,
    ensures
        12 + 4 * f + 4 <= ttc_image(ttc).len(),
        u32_at(ttc_image(ttc), 12 + 4 * f) == directory_offset(ttc, f as nat),
{
    let image = ttc_image(ttc);
    let count = ttc.fonts.len();
    let n = count as int;
    let h = ttc_header_len(ttc);
    lemma_collection_header(ttc);
    lemma_offset_at(ttc, count, f);
    crate::bytes::lemma_part_of_part(image, 0, h, 12, 12 + 4 * n);
    crate::bytes::lemma_part_of_part(image, 12, 12 + 4 * n, 4 * f, 4 * f + 4);
    lemma_read_u32(image, 12 + 4 * f, directory_offset(ttc, f as nat) as u32);
}

/// Directory `f` of a collection stands in the directories at its offset.
pub proof fn lemma_directory_at(ttc: TTCView, n: nat, f: int)
    requires
        0 <= f < n <= ttc.fonts.len(),
        forall|g: int| 0 <= g < ttc.fonts.len() ==> (#[trigger] ttc.fonts[g]).tables.dom().finite(),
    ensures
        directories_bytes(ttc, n).len() == directory_offset(ttc, n) - ttc_header_len(ttc),
        ttc_header_len(ttc) <= directory_offset(ttc, f as nat),
        directory_offset(ttc, (f + 1) as nat) <= directory_offset(ttc, n),
        directory_offset(ttc, (f + 1) as nat) == directory_offset(ttc, f as nat) + 12 + 16
            * ttc.fonts[f].tables.len(),
        directories_bytes(ttc, n).subrange(
            directory_offset(ttc, f as nat) - ttc_header_len(ttc),
            directory_offset(ttc, (f + 1) as nat) - ttc_header_len(ttc),
        ) == directory_bytes(ttc.fonts[f].sfnt_version, ttc_laid_out(ttc, f)),
    decreases n,
{
    lemma_directories_len(ttc, n);
    lemma_directories_len(ttc, (n - 1) as nat);
    lemma_directories_len(ttc, f as nat);
    let h = ttc_header_len(ttc);
    let all = directories_bytes(ttc, n);
    let front = directories_bytes(ttc, (n - 1) as nat);
    let last = directory_bytes(ttc.fonts[n - 1].sfnt_version, ttc_laid_out(ttc, n - 1));
    assert(all == front + last);
    if f == n - 1 {
        crate::bytes::lemma_part_of_second(front, last, 0, last.len() as int);
        assert(last.subrange(0, last.len() as int) =~= last);
    } else {
        lemma_directory_at(ttc, (n - 1) as nat, f);
        crate::bytes::lemma_part_of_first(
            front,
            last,
            directory_offset(ttc, f as nat) - h,
            directory_offset(ttc, (f + 1) as nat) - h,
        );
    }
}

/// Directory `f` of a collection stands in the file at its offset.
pub proof fn lemma_collection_directory_written(ttc: TTCView, f: int)
    requires
        0 <= f < ttc.fonts.len(),
        forall|g: int| 0 <= g < ttc.fonts.len() ==> (#[trigger] ttc.fonts[g]).tables.dom().finite(),
    ensures
        ttc_laid_out(ttc, f).dom() == ttc.fonts[f].tables.dom(),
        0 <= directory_offset(ttc, f as nat),
        directory_offset(ttc, f as nat) + 12 + 16 * ttc_laid_out(ttc, f).len() <= ttc_image(
            ttc,
        ).len(),
        ttc_image(ttc).subrange(
            directory_offset(ttc, f as nat),
            directory_offset(ttc, f as nat) + 12 + 16 * ttc_laid_out(ttc, f).len(),
        ) == directory_bytes(ttc.fonts[f].sfnt_version, ttc_laid_out(ttc, f)),
{
    let n = ttc.fonts.len();
    let h = ttc_header_len(ttc);
    let image = ttc_image(ttc);
    let header = ttc_header_bytes(ttc);
    let directories = directories_bytes(ttc, n);
    let rest = ttc_region(ttc) + dsig_bytes(ttc);
    let laid = ttc_laid_out(ttc, f);
    assert(laid.dom() =~= ttc.fonts[f].tables.dom());
    lemma_directory_at(ttc, n, f);
    lemma_directories_len(ttc, n);
    let from = directory_offset(ttc, f as nat);
    let to = directory_offset(ttc, (f + 1) as nat);
    assert(image =~= header + (directories + rest));
    crate::bytes::lemma_part_of_second(header, directories + rest, from - h, to - h);
    crate::bytes::lemma_part_of_first(directories, rest, from - h, to - h);
}

/// The tables of font `f` of a collection are read back from the file as
/// the file holds them.
pub proof fn lemma_collection_reads_as(ttc: TTCView, f: int)
    requires
        0 <= f < ttc.fonts.len(),
        forall|g: int| 0 <= g < ttc.fonts.len() ==> (#[trigger] ttc.fonts[g]).tables.dom().finite(),
        ttc_write_error(ttc) is None,
    ensures
        reads_as(ttc_image(ttc), ttc_laid_out(ttc, f), ttc_laid_out(ttc, f)),
{
    let image = ttc_image(ttc);
    let laid = ttc_laid_out(ttc, f);
    assert forall|t: u32| #[trigger] laid.contains_key(t) implies {
        &&& laid[t].raw_data.len() <= FIELD_MAX
        &&& blob_at(image, laid[t].offset as int, laid[t].raw_data.len() as int) == Some(
            laid[t].raw_data,
        )
    } by {
        assert(ttc.fonts[f].tables.contains_key(t));
        lemma_collection_table_checksum(ttc, f, t);
        assert(!crate::layout::has_long_table(ttc.fonts[f]));
        assert(laid[t].raw_data.len() == ttc.fonts[f].tables[t].raw_data.len());
        if laid[t].raw_data.len() == 0 {
            assert(laid[t].raw_data =~= Seq::<u8>::empty());
        }
    }
}

/// The reader finds font `f` of a collection at the offset of its
/// directory.
pub proof fn lemma_collection_font_parsed(ttc: TTCView, f: int)
    requires
        0 <= f < ttc.fonts.len(),
        is_collection(ttc),
    ensures
        parse_sfnt(ttc_image(ttc), directory_offset(ttc, f as nat)) == Ok::<SfntView, ReadError>(
            collection_font_read_back(ttc, f),
        ),
{
    let laid = ttc_laid_out(ttc, f);
    lemma_collection_directory_written(ttc, f);
    lemma_collection_reads_as(ttc, f);
    assert(laid.len() == ttc.fonts[f].tables.len());
    lemma_font_parsed(
        ttc_image(ttc),
        directory_offset(ttc, f as nat),
        ttc.fonts[f].sfnt_version,
        laid,
        laid,
    );
}

/// The reader finds the first `n` fonts of a collection.
pub proof fn lemma_fonts_parsed(ttc: TTCView, n: nat)
    requires
        n <= ttc.fonts.len(),
        is_collection(ttc),
    ensures
        fonts_at(ttc_image(ttc), n) == Ok::<Seq<SfntView>, ReadError>(fonts_read_back(ttc, n)),
    decreases n,
{
    let image = ttc_image(ttc);
    if n == 0 {
        assert(fonts_read_back(ttc, 0) =~= Seq::<SfntView>::empty());
    } else {
        let f = n - 1;
        lemma_fonts_parsed(ttc, (n - 1) as nat);
        lemma_directory_offset_positive(ttc, f as nat);
        assert(directory_offset(ttc, f as nat) <= FIELD_MAX);
        lemma_directory_offset_read(ttc, f);
        lemma_collection_font_parsed(ttc, f);
        assert(fonts_read_back(ttc, n) =~= fonts_read_back(ttc, (n - 1) as nat).push(
            collection_font_read_back(ttc, f),
        ));
    }
}

/// Reading twelve bytes that were written as three 32-bit numbers gives
/// the numbers.
pub proof fn lemma_read_three(s: Seq<u8>, at: int, a: u32, b: u32, c: u32)
    requires
        0 <= at,
        at + 12 <= s.len(),
        s.subrange(at, at + 12) == u32_bytes(a) + u32_bytes(b) + u32_bytes(c),
    ensures
        u32_at(s, at) == a,
        u32_at(s, at + 4) == b,
        u32_at(s, at + 8) == c,
{
    let all = u32_bytes(a) + u32_bytes(b) + u32_bytes(c);
    crate::bytes::lemma_part_of_part(s, at, at + 12, 0, 4);
    crate::bytes::lemma_part_of_part(s, at, at + 12, 4, 8);
    crate::bytes::lemma_part_of_part(s, at, at + 12, 8, 12);
    assert(all.subrange(0, 4) =~= u32_bytes(a));
    assert(all.subrange(4, 8) =~= u32_bytes(b));
    assert(all.subrange(8, 12) =~= u32_bytes(c));
    lemma_read_u32(s, at, a);
    lemma_read_u32(s, at + 4, b);
    lemma_read_u32(s, at + 8, c);
}

/// The reader finds the tag, the length and the offset of the signature
/// in the head of a collection file of version 2.
pub proof fn lemma_signature_fields_read(ttc: TTCView)
    requires
        ttc.major_version >= 2,
        ttc.dsig_data.len() <= FIELD_MAX,
        0 <= dsig_offset(ttc) <= FIELD_MAX,
    ensures
        12 + 4 * ttc.fonts.len() + 12 <= ttc_image(ttc).len(),
        u32_at(ttc_image(ttc), 12 + 4 * (ttc.fonts.len() as int)) == ttc.dsig_tag,
        u32_at(ttc_image(ttc), 12 + 4 * (ttc.fonts.len() as int) + 4) == ttc.dsig_data.len(),
        u32_at(ttc_image(ttc), 12 + 4 * (ttc.fonts.len() as int) + 8) == dsig_offset(ttc),
{
    let image = ttc_image(ttc);
    let at = 12 + 4 * (ttc.fonts.len() as int);
    lemma_collection_header(ttc);
    crate::bytes::lemma_part_of_part(image, 0, ttc_header_len(ttc), at, at + 12);
    lemma_read_three(
        image,
        at,
        ttc.dsig_tag,
        ttc.dsig_data.len() as u32,
        dsig_offset(ttc) as u32,
    );
}

/// The offset of the signature of a collection that can be written fits
/// its field, and so does its length from version 2 on.
pub proof fn lemma_signature_fits(ttc: TTCView)
    requires
        ttc_write_error(ttc) is None,
    ensures
        0 <= dsig_offset(ttc) <= FIELD_MAX,
        ttc.major_version >= 2 ==> ttc.dsig_data.len() <= FIELD_MAX,
{
    lemma_directory_offset_positive(ttc, ttc.fonts.len());
    if has_dsig(ttc) {
        lemma_aligned(ttc_base(ttc) + ttc_region(ttc).len());
    }
}

/// The reader finds the signature of a collection of version 2 as the file
/// holds it.
pub proof fn lemma_dsig_parsed(ttc: TTCView)
    requires
        ttc.major_version >= 2,
        ttc_write_error(ttc) is None,
    ensures
        dsig_at(ttc_image(ttc), ttc.fonts.len()) == Some(
            (
                ttc.dsig_tag,
                if ttc.dsig_tag == DSIG {
                    ttc.dsig_data
                } else {
                    Seq::empty()
                },
            ),
        ),
{
    lemma_signature_fits(ttc);
    lemma_signature_fields_read(ttc);
    if ttc.dsig_tag == DSIG {
        lemma_signature_written(ttc);
    }
}

/// The signature of a collection stands in the file at its offset.
pub proof fn lemma_signature_written(ttc: TTCView)
    requires
        has_dsig(ttc),
    ensures
        blob_at(ttc_image(ttc), dsig_offset(ttc), ttc.dsig_data.len() as int) == Some(
            ttc.dsig_data,
        ),
{
    let image = ttc_image(ttc);
    let n = ttc.fonts.len();
    lemma_directories_len(ttc, n);
    lemma_directory_offset_positive(ttc, n);
    let front = ttc_header_bytes(ttc) + directories_bytes(ttc, n) + ttc_region(ttc);
    let end = ttc_base(ttc) + ttc_region(ttc).len();
    assert(front.len() == end);
    lemma_aligned(end);
    let pad = crate::bytes::zeros(padding(end) as nat);
    let data = ttc.dsig_data;
    assert(image == front + (pad + data)) by {
        assert(image =~= front + (pad + data));
    }
    if data.len() > 0 {
        crate::bytes::lemma_part_of_second(
            front,
            pad + data,
            pad.len() as int,
            (pad.len() + data.len()) as int,
        );
        crate::bytes::lemma_part_of_second(pad, data, 0, data.len() as int);
        assert(data.subrange(0, data.len() as int) =~= data);
    } else {
        assert(data =~= Seq::<u8>::empty());
    }
}

/// Reading the file of a collection gives the collection back, each table
/// with the bytes that it is stored with.
pub proof fn lemma_collection_round_trip(ttc: TTCView)
    requires
        is_collection(ttc),
        ttc.fonts.len() != 1,
    ensures
        parse_container(ttc_image(ttc)) == Ok::<TTCView, ReadError>(collection_read_back(ttc)),
{
    let n = ttc.fonts.len();
    lemma_collection_fields_read(ttc);
    lemma_fonts_parsed(ttc, n);
    if ttc.major_version >= 2 {
        lemma_dsig_parsed(ttc);
    }
}

/// Whether two collections have as many fonts, and fonts that agree in
/// their versions, their tags and the bytes that their tables are stored
/// with.
pub open spec fn same_stored_fonts(a: TTCView, b: TTCView) -> bool {
    &&& a.fonts.len() == b.fonts.len()
    &&& forall|f: int|
        0 <= f < a.fonts.len() ==> {
            &&& (#[trigger] a.fonts[f]).tables.dom().finite()
            &&& a.fonts[f].sfnt_version == b.fonts[f].sfnt_version
            &&& a.fonts[f].tables.dom() == b.fonts[f].tables.dom()
            &&& font_items(a.fonts[f]) == font_items(b.fonts[f])
        }
}

/// Fonts that agree in their version, their tags and the bytes that their
/// tables are stored with have the same items.
pub proof fn lemma_items_of_stored(a: SfntView, b: SfntView)
    requires
        a.tables.dom().finite(),
        a.sfnt_version == b.sfnt_version,
        a.tables.dom() == b.tables.dom(),
        forall|t: u32|
            a.tables.contains_key(t) ==> stored_bytes(t, #[trigger] a.tables[t].raw_data)
                == stored_bytes(t, b.tables[t].raw_data),
    ensures
        font_items(a) == font_items(b),
{
    let order = storage_order(a.sfnt_version, a.tables.dom());
    lemma_storage_order(a.sfnt_version, a.tables.dom());
    assert forall|k: int| 0 <= k < order.len() implies #[trigger] font_items(a)[k] == font_items(
        b,
    )[k] by {
        assert(order.contains(order[k]));
    }
    assert(font_items(a) =~= font_items(b));
}

/// Collections with the same stored fonts have the same items, and their
/// directories start at the same places.
pub proof fn lemma_same_layout(a: TTCView, b: TTCView, n: nat)
    requires
        same_stored_fonts(a, b),
        a.major_version == b.major_version,
        n <= a.fonts.len(),
    ensures
        all_items(a.fonts.take(n as int)) == all_items(b.fonts.take(n as int)),
        directory_offset(a, n) == directory_offset(b, n),
    decreases n,
{
    if n > 0 {
        lemma_same_layout(a, b, (n - 1) as nat);
        assert(a.fonts.take(n as int).drop_last() =~= a.fonts.take(n - 1));
        assert(b.fonts.take(n as int).drop_last() =~= b.fonts.take(n - 1));
        assert(a.fonts.take(n as int).last() == a.fonts[n - 1]);
        assert(b.fonts.take(n as int).last() == b.fonts[n - 1]);
    } else {
        assert(a.fonts.take(0) =~= b.fonts.take(0));
    }
}

/// Collections with the same stored fonts have the same directories.
pub proof fn lemma_same_directories(a: TTCView, b: TTCView, n: nat)
    requires
        same_stored_fonts(a, b),
        a.major_version == b.major_version,
        n <= a.fonts.len(),
    ensures
        directories_bytes(a, n) == directories_bytes(b, n),
        directory_offsets_bytes(a, n) == directory_offsets_bytes(b, n),
    decreases n,
{
    if n > 0 {
        let f = n - 1;
        lemma_same_directories(a, b, (n - 1) as nat);
        lemma_same_layout(a, b, a.fonts.len());
        lemma_same_layout(a, b, f as nat);
        assert(a.fonts.take(a.fonts.len() as int) =~= a.fonts);
        assert(b.fonts.take(b.fonts.len() as int) =~= b.fonts);
        lemma_items_index(a.fonts[f], b.fonts[f]);
        assert(ttc_laid_out(a, f) =~= ttc_laid_out(b, f));
    }
}

/// Fonts with the same items store their tables with the same bytes.
pub proof fn lemma_items_index(a: SfntView, b: SfntView)
    requires
        a.tables.dom().finite(),
        a.sfnt_version == b.sfnt_version,
        a.tables.dom() == b.tables.dom(),
        font_items(a) == font_items(b),
    ensures
        forall|t: u32|
            a.tables.contains_key(t) ==> stored_bytes(t, #[trigger] a.tables[t].raw_data)
                == stored_bytes(t, b.tables[t].raw_data),
{
    let order = storage_order(a.sfnt_version, a.tables.dom());
    lemma_storage_order(a.sfnt_version, a.tables.dom());
    assert forall|t: u32| a.tables.contains_key(t) implies stored_bytes(
        t,
        #[trigger] a.tables[t].raw_data,
    ) == stored_bytes(t, b.tables[t].raw_data) by {
        assert(order.contains(t));
        let k = order.index_of(t);
        assert(order[k] == t);
        assert(font_items(a)[k] == font_items(b)[k]);
    }
}

/// The file of a collection is made of its head fields and of the stored
/// fonts: collections that agree in these have the same file.
pub proof fn lemma_collection_image_of_stored(a: TTCView, b: TTCView)
    requires
        same_stored_fonts(a, b),
        a.ttc_tag == b.ttc_tag,
        a.major_version == b.major_version,
        a.minor_version == b.minor_version,
        a.major_version >= 2 ==> a.dsig_tag == b.dsig_tag && a.dsig_data == b.dsig_data,
    ensures
        ttc_image(a) == ttc_image(b),
        all_items(a.fonts) == all_items(b.fonts),
        ttc_base(a) == ttc_base(b),
        dsig_offset(a) == dsig_offset(b),
{
    let n = a.fonts.len();
    lemma_same_layout(a, b, n);
    lemma_same_directories(a, b, n);
    assert(a.fonts.take(n as int) =~= a.fonts);
    assert(b.fonts.take(n as int) =~= b.fonts);
    assert(ttc_base(a) == ttc_base(b));
    assert(ttc_region(a) == ttc_region(b));
    assert(has_dsig(a) == has_dsig(b));
    assert(dsig_offset(a) == dsig_offset(b));
    assert(dsig_bytes(a) == dsig_bytes(b));
    assert(ttc_header_bytes(a) == ttc_header_bytes(b));
}

/// Of two collections that agree in their head fields and their stored
/// fonts, the one can be written if the other can.
pub proof fn lemma_collection_error_of_stored(a: TTCView, b: TTCView)
    requires
        same_stored_fonts(a, b),
        a.ttc_tag == b.ttc_tag,
        a.major_version == b.major_version,
        a.minor_version == b.minor_version,
        a.major_version >= 2 ==> a.dsig_tag == b.dsig_tag && a.dsig_data == b.dsig_data,
        ttc_write_error(a) is None,
    ensures
        ttc_write_error(b) is None,
{
    lemma_collection_image_of_stored(a, b);
    assert forall|f: int| 0 <= f < b.fonts.len() implies (#[trigger] b.fonts[f]).tables.len()
        <= TABLES_MAX && !crate::layout::has_long_table(b.fonts[f]) by {
        let x = a.fonts[f];
        let y = b.fonts[f];
        assert(x.tables.len() <= TABLES_MAX);
        assert(!crate::layout::has_long_table(x));
        lemma_items_index(x, y);
        assert forall|t: u32| #[trigger] y.tables.contains_key(t) implies y.tables[t].raw_data.len()
            <= FIELD_MAX by {
            assert(x.tables.contains_key(t));
            assert(stored_bytes(t, x.tables[t].raw_data).len() == x.tables[t].raw_data.len());
            assert(stored_bytes(t, y.tables[t].raw_data).len() == y.tables[t].raw_data.len());
        }
    }
    assert forall|f: nat| f < b.fonts.len() implies #[trigger] directory_offset(b, f)
        <= FIELD_MAX by {
        lemma_same_layout(a, b, f);
        assert(directory_offset(a, f) <= FIELD_MAX);
    }
}

/// A collection that was read back has the stored fonts of the collection
/// that was written.
pub proof fn lemma_read_back_same_fonts(ttc: TTCView)
    requires
        forall|f: int| 0 <= f < ttc.fonts.len() ==> (#[trigger] ttc.fonts[f]).tables.dom().finite(),
    ensures
        same_stored_fonts(ttc, collection_read_back(ttc)),
{
    let back = collection_read_back(ttc);
    assert forall|f: int| 0 <= f < ttc.fonts.len() implies {
        &&& (#[trigger] ttc.fonts[f]).tables.dom().finite()
        &&& ttc.fonts[f].sfnt_version == back.fonts[f].sfnt_version
        &&& ttc.fonts[f].tables.dom() == back.fonts[f].tables.dom()
        &&& font_items(ttc.fonts[f]) == font_items(back.fonts[f])
    } by {
        let a = ttc.fonts[f];
        let b = back.fonts[f];
        assert(b == collection_font_read_back(ttc, f));
        assert(b.tables.dom() =~= a.tables.dom());
        assert forall|t: u32| a.tables.contains_key(t) implies stored_bytes(
            t,
            #[trigger] a.tables[t].raw_data,
        ) == stored_bytes(t, b.tables[t].raw_data) by {
            let stored = stored_bytes(t, a.tables[t].raw_data);
            assert(b.tables[t].raw_data == stored);
            assert(stored_bytes(t, stored) =~= stored);
        }
        lemma_items_of_stored(a, b);
    }
}

/// A file that the writer wrote for a collection is copied byte for byte
/// when it is read and written again, as long as the collection holds
/// bytes of a signature only under the tag of a signature, as every
/// collection does that was read from a file.
pub proof fn lemma_collection_copy(ttc: TTCView)
    requires
        is_collection(ttc),
        ttc.fonts.len() != 1,
        ttc.major_version >= 2 && ttc.dsig_tag != DSIG ==> ttc.dsig_data.len() == 0,
    ensures
        parse_container(ttc_image(ttc)) == Ok::<TTCView, ReadError>(collection_read_back(ttc)),
        ttc_write_error(collection_read_back(ttc)) is None,
        ttc_image(collection_read_back(ttc)) == ttc_image(ttc),
{
    lemma_collection_round_trip(ttc);
    lemma_read_back_same_fonts(ttc);
    let back = collection_read_back(ttc);
    if ttc.major_version >= 2 {
        assert(back.dsig_data =~= ttc.dsig_data);
    }
    lemma_collection_image_of_stored(ttc, back);
    lemma_collection_error_of_stored(ttc, back);
}

/// A container as it is read back from its file.
pub open spec fn container_read_back(ttc: TTCView) -> TTCView {
    if ttc.fonts.len() == 1 {
        single_font(read_back(ttc.fonts[0]))
    } else {
        collection_read_back(ttc)
    }
}

/// Reading and writing copies a file byte for byte that the writer wrote:
/// the container that the reader finds in the file of a container is
/// written as the same file. The container is one that the reader gives,
/// and the reader finds in its file what `container_read_back` says.
pub proof fn lemma_written_file_is_copied(ttc: TTCView)
    requires
        is_as_read(ttc),
        crate::layout::write_error(ttc) is None,
    ensures
        parse_container(crate::layout::container_image(ttc)) == Ok::<TTCView, ReadError>(
            container_read_back(ttc),
        ),
        crate::layout::write_error(container_read_back(ttc)) is None,
        crate::layout::container_image(container_read_back(ttc))
            == crate::layout::container_image(ttc),
{
    if ttc.fonts.len() == 1 {
        lemma_sfnt_copy(ttc.fonts[0]);
        let back = single_font(read_back(ttc.fonts[0]));
        assert(back.fonts.len() == 1);
        assert(back.fonts[0] == read_back(ttc.fonts[0]));
    } else {
        lemma_collection_copy(ttc);
        assert(collection_read_back(ttc).fonts.len() == ttc.fonts.len());
    }
}

} // verus!