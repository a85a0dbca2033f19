//! The bytes of a written font file: where each table goes, what the
//! directories say of it, and the file as a whole.

use crate::bytes::{overwrite, put, u16_bytes, u32_bytes, zeros};
use crate::checksum::sum32;
use crate::tables::{directory_order, TableView};
use crate::tag::{
    CFF, CMAP, CVT, DSIG, FPGM, GASP, GLYF, HDMX, HEAD, HHEA, HMTX, KERN, LOCA, LTSH, MAXP, NAME,
    OS_2, OTTO, PCLT, POST, PREP, VDMX,
};
use crate::types::{entry_selector_of, range_shift_of, search_range_of, SfntView, TTCView};
use vstd::prelude::*;

verus! {

/// The largest number that an offset or length field of the file can hold.
pub const FIELD_MAX: u64 = 0xffff_ffff;

/// The largest number of tables that the directory of a font can count.
pub const TABLES_MAX: usize = 65535;

/// The largest number of fonts that a collection can count.
pub const FONTS_MAX: usize = 0x7fff_ffff;

/// What adding up all words of a finished font file gives.
pub const CHECKSUM_MAGIC: u32 = 0xb1b0_afba;

/// The number of zero bytes that bring place `pos` to a multiple of four.
pub open spec fn padding(pos: int) -> int {
    (4 - pos % 4) % 4
}

/// The first multiple of four that is not below `pos`.
pub open spec fn aligned(pos: int) -> int {
    pos + padding(pos)
}

/// The bytes of a table as they are stored: those of the table, but for the
/// `head` table, in which the checksum adjustment is zero.
pub open spec fn stored_bytes(tag: u32, data: Seq<u8>) -> Seq<u8> {
    if tag == HEAD {
        put(data, 8, zeros(4))
    } else {
        data
    }
}

/// The tables that are stored first, in this order, in a font with TrueType
/// outlines.
pub open spec fn truetype_priority() -> Seq<u32> {
    seq![
        HEAD, HHEA, MAXP, OS_2, HMTX, LTSH, VDMX, HDMX, CMAP, FPGM, PREP, CVT, LOCA, GLYF, KERN,
        NAME, POST, GASP, PCLT, DSIG,
    ]
}

/// The tables that are stored first, in this order, in a font with CFF
/// outlines.
pub open spec fn cff_priority() -> Seq<u32> {
    seq![HEAD, HHEA, MAXP, OS_2, NAME, CMAP, POST, CFF]
}

/// The tables that are stored first in a font of the given version.
pub open spec fn priority_list(version: u32) -> Seq<u32> {
    if version == OTTO {
        cff_priority()
    } else {
        truetype_priority()
    }
}

/// The numbers of `list` that `wanted` holds, in the order of `list`.
pub open spec fn kept(list: Seq<u32>, wanted: Set<u32>) -> Seq<u32>
    decreases list.len(),
{
    if list.len() == 0 {
        Seq::empty()
    } else if wanted.contains(list.last()) {
        kept(list.drop_last(), wanted).push(list.last())
    } else {
        kept(list.drop_last(), wanted)
    }
}

/// The tags that are not on the priority list of the version.
pub open spec fn unlisted(version: u32) -> Set<u32> {
    Set::new(|t: u32| !priority_list(version).contains(t))
}

/// The order in which the tables of a font are stored: those on the
/// priority list of its version in the order of the list, then the others in
/// the order of the directory.
pub open spec fn storage_order(version: u32, tags: Set<u32>) -> Seq<u32> {
    kept(priority_list(version), tags) + kept(directory_order(tags), unlisted(version))
}

/// The first place below `upto` at which `items` holds `blob`, and `upto`
/// where it holds it at none.
pub open spec fn first_index(items: Seq<Seq<u8>>, blob: Seq<u8>, upto: int) -> int
    decreases upto,
{
    if upto <= 0 {
        0
    } else {
        let before = first_index(items, blob, upto - 1);
        if before < upto - 1 {
            before
        } else if items[upto - 1] == blob {
            upto - 1
        } else {
            upto
        }
    }
}

/// Whether item `k` gets room of its own in the file: always where tables
/// are not shared, else only where no earlier item has the same bytes.
pub open spec fn is_placed(items: Seq<Seq<u8>>, k: int, shared: bool) -> bool {
    !shared || first_index(items, items[k], k) == k
}

/// The bytes that the first `n` items take in the file when the first is
/// stored from place `base` on: each item that gets room of its own, after
/// the zero bytes that bring it to a multiple of four.
pub open spec fn region(items: Seq<Seq<u8>>, base: int, n: nat, shared: bool) -> Seq<u8>
    decreases n,
{
    if n == 0 {
        Seq::empty()
    } else {
        let before = region(items, base, (n - 1) as nat, shared);
        if is_placed(items, n - 1, shared) {
            before + zeros(padding(base + before.len()) as nat) + items[n - 1]
        } else {
            before
        }
    }
}

/// The place at which item `k` is stored where it gets room of its own.
pub open spec fn place(items: Seq<Seq<u8>>, base: int, k: nat, shared: bool) -> int {
    aligned(base + region(items, base, k, shared).len())
}

/// The offset of item `k`: its place, or that of the first item with the
/// same bytes where tables are shared.
pub open spec fn item_offset(items: Seq<Seq<u8>>, base: int, k: int, shared: bool) -> int {
    if shared {
        place(items, base, first_index(items, items[k], k) as nat, shared)
    } else {
        place(items, base, k as nat, shared)
    }
}

/// The tables of a font as they are stored, in the order in which they are
/// stored.
pub open spec fn font_items(font: SfntView) -> Seq<Seq<u8>> {
    let order = storage_order(font.sfnt_version, font.tables.dom());
    Seq::new(order.len(), |k: int| stored_bytes(order[k], font.tables[order[k]].raw_data))
}

/// The items of several fonts in a row.
pub open spec fn all_items(fonts: Seq<SfntView>) -> Seq<Seq<u8>>
    decreases fonts.len(),
{
    if fonts.len() == 0 {
        Seq::empty()
    } else {
        all_items(fonts.drop_last()) + font_items(fonts.last())
    }
}

/// The tables of a font as the file holds them: each with its stored bytes,
/// the checksum of those, and its offset, where `items` are all items of the
/// file and those of this font start at item `first`.
pub open spec fn laid_out(
    font: SfntView,
    items: Seq<Seq<u8>>,
    first: int,
    base: int,
    shared: bool,
) -> Map<u32, TableView> {
    let order = storage_order(font.sfnt_version, font.tables.dom());
    Map::new(
        |t: u32| font.tables.contains_key(t),
        |t: u32|
            TableView {
                checksum: sum32(stored_bytes(t, font.tables[t].raw_data)),
                offset: item_offset(items, base, first + order.index_of(t), shared) as u32,
                raw_data: stored_bytes(t, font.tables[t].raw_data),
            },
    )
}

/// The twelve bytes at the head of a font directory of `n` tables.
pub open spec fn sfnt_header_bytes(version: u32, n: nat) -> Seq<u8> {
    u32_bytes(version) + u16_bytes(n as u16) + u16_bytes(search_range_of(n) as u16) + u16_bytes(
        entry_selector_of(n) as u16,
    ) + u16_bytes(range_shift_of(n) as u16)
}

/// The sixteen bytes of the directory entry of a table.
pub open spec fn entry_bytes(tag: u32, table: TableView) -> Seq<u8> {
    u32_bytes(tag) + u32_bytes(table.checksum) + u32_bytes(table.offset) + u32_bytes(
        table.raw_data.len() as u32,
    )
}

/// The first `n` entries of the directory of the given tables, in the order
/// of the directory.
pub open spec fn entries_bytes(tables: Map<u32, TableView>, n: nat) -> Seq<u8>
    decreases n,
{
    if n == 0 {
        Seq::empty()
    } else {
        let tag = directory_order(tables.dom())[n - 1];
        entries_bytes(tables, (n - 1) as nat) + entry_bytes(tag, tables[tag])
    }
}

/// The directory of a font: its head and an entry for each table as the
/// file holds it.
pub open spec fn directory_bytes(version: u32, tables: Map<u32, TableView>) -> Seq<u8> {
    sfnt_header_bytes(version, tables.len()) + entries_bytes(tables, tables.len())
}

/// Where the tables of a file that holds a single font start.
pub open spec fn sfnt_base(font: SfntView) -> int {
    12 + 16 * (font.tables.len() as int)
}

/// The tables of a single font as its file holds them.
pub open spec fn sfnt_laid_out(font: SfntView) -> Map<u32, TableView> {
    laid_out(font, font_items(font), 0, sfnt_base(font), false)
}

/// The file of a single font before the checksum adjustment is set.
pub open spec fn sfnt_unadjusted(font: SfntView) -> Seq<u8> {
    directory_bytes(font.sfnt_version, sfnt_laid_out(font)) + region(
        font_items(font),
        sfnt_base(font),
        font_items(font).len(),
        false,
    )
}

/// Whether the font has a `head` table that reaches to the checksum
/// adjustment.
pub open spec fn has_adjustment(font: SfntView) -> bool {
    font.tables.contains_key(HEAD) && font.tables[HEAD].raw_data.len() >= 12
}

/// The checksum adjustment of a file whose bytes, with an adjustment of
/// zero, are `unadjusted`.
pub open spec fn adjustment(unadjusted: Seq<u8>) -> u32 {
    ((CHECKSUM_MAGIC - sum32(unadjusted)) % 0x1_0000_0000) as u32
}

/// The file of a single font: directory and tables, and in the `head` table
/// the checksum adjustment of the whole.
pub open spec fn sfnt_image(font: SfntView) -> Seq<u8> {
    let unadjusted = sfnt_unadjusted(font);
    if has_adjustment(font) {
        overwrite(
            unadjusted,
            sfnt_laid_out(font)[HEAD].offset + 8,
            u32_bytes(adjustment(unadjusted)),
        )
    } else {
        unadjusted
    }
}

/// The length of the head of a collection file.
pub open spec fn ttc_header_len(ttc: TTCView) -> int {
    12 + 4 * (ttc.fonts.len() as int) + (if ttc.major_version >= 2 {
        12int
    } else {
        0int
    })
}

/// Where the directory of font `f` of a collection starts, and where the
/// tables start for `f` the number of fonts.
pub open spec fn directory_offset(ttc: TTCView, f: nat) -> int
    decreases f,
{
    if f == 0 {
        ttc_header_len(ttc)
    } else {
        directory_offset(ttc, (f - 1) as nat) + 12 + 16 * (ttc.fonts[f - 1].tables.len() as int)
    }
}

/// Where the tables of a collection file start.
pub open spec fn ttc_base(ttc: TTCView) -> int {
    directory_offset(ttc, ttc.fonts.len())
}

/// The tables of a collection file, each stored once.
pub open spec fn ttc_region(ttc: TTCView) -> Seq<u8> {
    region(all_items(ttc.fonts), ttc_base(ttc), all_items(ttc.fonts).len(), true)
}

/// Whether the collection file holds a signature after its tables.
pub open spec fn has_dsig(ttc: TTCView) -> bool {
    ttc.major_version >= 2 && (ttc.dsig_tag == DSIG || ttc.dsig_data.len() > 0)
}

/// The offset of the signature of a collection, and zero where the file
/// holds none.
pub open spec fn dsig_offset(ttc: TTCView) -> int {
    if has_dsig(ttc) {
        aligned(ttc_base(ttc) + ttc_region(ttc).len())
    } else {
        0
    }
}

/// The offsets of the directories of the first `f` fonts.
pub open spec fn directory_offsets_bytes(ttc: TTCView, f: nat) -> Seq<u8>
    decreases f,
{
    if f == 0 {
        Seq::empty()
    } else {
        directory_offsets_bytes(ttc, (f - 1) as nat) + u32_bytes(
            directory_offset(ttc, (f - 1) as nat) as u32,
        )
    }
}

/// The fixed fields at the head of a collection file: the tag, the version
/// and the number of fonts.
pub open spec fn fixed_fields(ttc: TTCView) -> Seq<u8> {
    u32_bytes(ttc.ttc_tag) + u16_bytes(ttc.major_version) + u16_bytes(ttc.minor_version)
        + u32_bytes(ttc.fonts.len() as u32)
}

/// The fields of the signature in the head of a collection file, which it
/// has from version 2 on: the tag, the length and the offset.
pub open spec fn signature_fields(ttc: TTCView) -> Seq<u8> {
    if ttc.major_version >= 2 {
        u32_bytes(ttc.dsig_tag) + u32_bytes(ttc.dsig_data.len() as u32) + u32_bytes(
            dsig_offset(ttc) as u32,
        )
    } else {
        Seq::empty()
    }
}

/// The head of a collection file: the fixed fields, the offsets of the
/// directories, and the fields of the signature.
pub open spec fn ttc_header_bytes(ttc: TTCView) -> Seq<u8> {
    fixed_fields(ttc) + directory_offsets_bytes(ttc, ttc.fonts.len()) + signature_fields(ttc)
}

/// The tables of font `f` of a collection as the file holds them.
pub open spec fn ttc_laid_out(ttc: TTCView, f: int) -> Map<u32, TableView> {
    laid_out(
        ttc.fonts[f],
        all_items(ttc.fonts),
        all_items(ttc.fonts.take(f)).len() as int,
        ttc_base(ttc),
        true,
    )
}

/// The directories of the first `f` fonts of a collection.
pub open spec fn directories_bytes(ttc: TTCView, f: nat) -> Seq<u8>
    decreases f,
{
    if f == 0 {
        Seq::empty()
    } else {
        directories_bytes(ttc, (f - 1) as nat) + directory_bytes(
            ttc.fonts[f - 1].sfnt_version,
            ttc_laid_out(ttc, f - 1),
        )
    }
}

/// The signature of a collection as the file holds it, after the zero bytes
/// that bring it to a multiple of four.
pub open spec fn dsig_bytes(ttc: TTCView) -> Seq<u8> {
    if has_dsig(ttc) {
        zeros(padding(ttc_base(ttc) + ttc_region(ttc).len()) as nat) + ttc.dsig_data
    } else {
        Seq::empty()
    }
}

/// The file of a collection: head, directories, tables and signature.
pub open spec fn ttc_image(ttc: TTCView) -> Seq<u8> {
    ttc_header_bytes(ttc) + directories_bytes(ttc, ttc.fonts.len()) + ttc_region(ttc) + dsig_bytes(
        ttc,
    )
}

/// The file of a container: that of its font where it holds a single one,
/// that of a collection else.
pub open spec fn container_image(ttc: TTCView) -> Seq<u8> {
    if ttc.fonts.len() == 1 {
        sfnt_image(ttc.fonts[0])
    } else {
        ttc_image(ttc)
    }
}

/// Why a container cannot be written.
#[derive(Clone, Copy, Debug, PartialEq, Eq, Structural)]
pub enum WriteError {
    /// The collection has a major version above 2.
    UnsupportedVersion,
    /// The collection has more fonts than its head can count.
    TooManyFonts,
    /// A font has more tables than its directory can count.
    TooManyTables,
    /// A table or the signature is longer than a length field can say.
    LengthOverflow,
    /// A directory, a table or the signature would start beyond what an
    /// offset field can say.
    OffsetOverflow,
}

/// Whether a table of the font is too long for its length field.
pub open spec fn has_long_table(font: SfntView) -> bool {
    exists|t: u32| #[trigger] font.tables.contains_key(t) && font.tables[t].raw_data.len() > FIELD_MAX
}

/// Whether one of the items would start beyond what an offset field can
/// say.
pub open spec fn has_far_item(items: Seq<Seq<u8>>, base: int, shared: bool) -> bool {
    exists|k: int| 0 <= k < items.len() && #[trigger] item_offset(items, base, k, shared) > FIELD_MAX
}

/// Why the font cannot be written as a file of its own, if it cannot.
pub open spec fn sfnt_write_error(font: SfntView) -> Option<WriteError> {
    if font.tables.len() > TABLES_MAX {
        Some(WriteError::TooManyTables)
    } else if has_long_table(font) {
        Some(WriteError::LengthOverflow)
    } else if has_far_item(font_items(font), sfnt_base(font), false) {
        Some(WriteError::OffsetOverflow)
    } else {
        None
    }
}

/// Why the collection cannot be written, if it cannot.
pub open spec fn ttc_write_error(ttc: TTCView) -> Option<WriteError> {
    if ttc.major_version > 2 {
        Some(WriteError::UnsupportedVersion)
    } else if ttc.fonts.len() > FONTS_MAX {
        Some(WriteError::TooManyFonts)
    } else if exists|f: int| 0 <= f < ttc.fonts.len() && (#[trigger] ttc.fonts[f]).tables.len() > TABLES_MAX {
        Some(WriteError::TooManyTables)
    } else if (exists|f: int| 0 <= f < ttc.fonts.len() && has_long_table(#[trigger] ttc.fonts[f]))
        || (ttc.major_version >= 2 && ttc.dsig_data.len() > FIELD_MAX) {
        Some(WriteError::LengthOverflow)
    } else if (exists|f: nat| f < ttc.fonts.len() && #[trigger] directory_offset(ttc, f) > FIELD_MAX)
        || has_far_item(all_items(ttc.fonts), ttc_base(ttc), true) || dsig_offset(ttc)
        > FIELD_MAX {
        Some(WriteError::OffsetOverflow)
    } else {
        None
    }
}

/// Why the container cannot be written, if it cannot.
pub open spec fn write_error(ttc: TTCView) -> Option<WriteError> {
    if ttc.fonts.len() == 1 {
        sfnt_write_error(ttc.fonts[0])
    } else {
        ttc_write_error(ttc)
    }
}


/// The tags of a list of tags.
pub open spec fn tag_values(tags: Seq<crate::tag::FourCC>) -> Seq<u32> {
    Seq::new(tags.len(), |i: int| tags[i]@)
}

/// `kept` holds exactly what the list and the set both hold, and nothing
/// twice where the list holds nothing twice.
pub proof fn lemma_kept(list: Seq<u32>, wanted: Set<u32>)
    ensures
        forall|t: u32| #[trigger] kept(list, wanted).contains(t) <==> list.contains(t) && wanted.contains(t),
        list.no_duplicates() ==> kept(list, wanted).no_duplicates(),
        kept(list, wanted).len() <= list.len(),
    decreases list.len(),
{
    if list.len() > 0 {
        let front = list.drop_last();
        let last = list.last();
        lemma_kept(front, wanted);
        let k = kept(list, wanted);
        let kf = kept(front, wanted);
        assert forall|t: u32| #[trigger] k.contains(t) <==> list.contains(t) && wanted.contains(
            t,
        ) by {
            if k.contains(t) {
                let i = choose|i: int| 0 <= i < k.len() && k[i] == t;
                if i < kf.len() {
                    assert(kf[i] == t);
                    assert(kf.contains(t));
                    let j = choose|j: int| 0 <= j < front.len() && front[j] == t;
                    assert(list[j] == t);
                } else {
                    assert(t == last);
                    assert(list[list.len() - 1] == t);
                }
            }
            if list.contains(t) && wanted.contains(t) {
                let j = choose|j: int| 0 <= j < list.len() && list[j] == t;
                if j < front.len() {
                    assert(front[j] == t);
                    assert(front.contains(t));
                    assert(kf.contains(t));
                    let i = choose|i: int| 0 <= i < kf.len() && kf[i] == t;
                    assert(k[i] == t);
                } else {
                    assert(k[k.len() - 1] == t);
                }
            }
        }
        if list.no_duplicates() {
            assert(front.no_duplicates());
            if wanted.contains(last) {
                assert forall|i: int, j: int| 0 <= i < k.len() && 0 <= j < k.len() && i != j implies k[i]
                    != k[j] by {
                    if i < kf.len() && j < kf.len() {
                        assert(kf[i] != kf[j]);
                    } else {
                        let other = if i < kf.len() {
                            i
                        } else {
                            j
                        };
                        assert(kf[other] == k[other]);
                        assert(kf.contains(kf[other]));
                        assert(front.contains(kf[other]));
                        let m = choose|m: int| 0 <= m < front.len() && front[m] == kf[other];
                        assert(list[m] == kf[other]);
                        assert(list[list.len() - 1] == last);
                    }
                }
            }
        }
    }
}

/// The priority lists hold no tag twice.
pub proof fn lemma_priority_list(version: u32)
    ensures
        priority_list(version).no_duplicates(),
        priority_list(version).len() <= 20,
{
    let list = priority_list(version);
    assert forall|i: int, j: int| 0 <= i < list.len() && 0 <= j < list.len() && i != j implies list[i]
        != list[j] by {
        if version == OTTO {
            assert(list == cff_priority());
        } else {
            assert(list == truetype_priority());
        }
    }
}

/// The storage order of a font holds each of its tags once.
pub proof fn lemma_storage_order(version: u32, tags: Set<u32>)
    requires
        tags.finite(),
    ensures
        storage_order(version, tags).no_duplicates(),
        storage_order(version, tags).len() == tags.len(),
        forall|t: u32| #[trigger] storage_order(version, tags).contains(t) <==> tags.contains(t),
{
    let list = priority_list(version);
    let dir = directory_order(tags);
    let a = kept(list, tags);
    let b = kept(dir, unlisted(version));
    let order = storage_order(version, tags);
    lemma_priority_list(version);
    crate::tables::lemma_directory_order(tags);
    crate::tables::lemma_increasing_len(dir);
    lemma_kept(list, tags);
    lemma_kept(dir, unlisted(version));
    assert forall|t: u32| #[trigger] order.contains(t) <==> tags.contains(t) by {
        if order.contains(t) {
            let i = choose|i: int| 0 <= i < order.len() && order[i] == t;
            if i < a.len() {
                assert(a[i] == t);
                assert(a.contains(t));
            } else {
                assert(b[i - a.len()] == t);
                assert(b.contains(t));
                assert(dir.contains(t));
                assert(dir.to_set().contains(t));
            }
        }
        if tags.contains(t) {
            if list.contains(t) {
                assert(a.contains(t));
                let i = choose|i: int| 0 <= i < a.len() && a[i] == t;
                assert(order[i] == t);
            } else {
                assert(dir.to_set().contains(t));
                assert(dir.contains(t));
                assert(unlisted(version).contains(t));
                assert(b.contains(t));
                let i = choose|i: int| 0 <= i < b.len() && b[i] == t;
                assert(order[a.len() + i] == t);
            }
        }
    }
    assert forall|i: int, j: int| 0 <= i < order.len() && 0 <= j < order.len() && i != j implies order[i]
        != order[j] by {
        if i < a.len() && j < a.len() {
            assert(a[i] != a[j]);
        } else if i >= a.len() && j >= a.len() {
            assert(b[i - a.len()] != b[j - a.len()]);
        } else {
            let (x, y) = if i < a.len() {
                (i, j)
            } else {
                (j, i)
            };
            assert(a[x] == order[x]);
            assert(b[y - a.len()] == order[y]);
            assert(a.contains(a[x]));
            assert(b.contains(b[y - a.len()]));
            assert(list.contains(a[x]));
            assert(unlisted(version).contains(b[y - a.len()]));
        }
    }
    order.unique_seq_to_set();
    assert(order.to_set() =~= tags);
}

/// What `first_index` finds: a place that holds the bytes, before which no
/// place holds them.
pub proof fn lemma_first_index(items: Seq<Seq<u8>>, blob: Seq<u8>, upto: int)
    requires
        0 <= upto <= items.len(),
    ensures
        0 <= first_index(items, blob, upto) <= upto,
        first_index(items, blob, upto) < upto ==> items[first_index(items, blob, upto)] == blob,
        forall|j: int| 0 <= j < first_index(items, blob, upto) ==> items[j] != blob,
    decreases upto,
{
    if upto > 0 {
        lemma_first_index(items, blob, upto - 1);
    }
}

/// A place that holds the bytes, and before which no place holds them, is
/// what `first_index` finds from any place after it.
pub proof fn lemma_first_index_is(items: Seq<Seq<u8>>, blob: Seq<u8>, upto: int, at: int)
    requires
        0 <= at <= upto <= items.len(),
        at < upto ==> items[at] == blob,
        forall|j: int| 0 <= j < at ==> items[j] != blob,
    ensures
        first_index(items, blob, upto) == at,
    decreases upto,
{
    if upto > at {
        lemma_first_index_is(items, blob, upto - 1, at);
    } else if upto > 0 {
        lemma_first_index_is(items, blob, upto - 1, upto - 1);
    }
}

/// The region of the first items only grows with each item.
pub proof fn lemma_region_grows(items: Seq<Seq<u8>>, base: int, m: nat, n: nat, shared: bool)
    requires
        m <= n,
    ensures
        region(items, base, m, shared).len() <= region(items, base, n, shared).len(),
        region(items, base, m, shared) == region(items, base, n, shared).subrange(
            0,
            region(items, base, m, shared).len() as int,
        ),
    decreases n - m,
{
    if m < n {
        lemma_region_grows(items, base, m, (n - 1) as nat, shared);
        let a = region(items, base, m, shared);
        let b = region(items, base, (n - 1) as nat, shared);
        let c = region(items, base, n, shared);
        assert(b == c.subrange(0, b.len() as int));
        assert(a =~= c.subrange(0, a.len() as int));
    } else {
        let a = region(items, base, m, shared);
        assert(a =~= a.subrange(0, a.len() as int));
    }
}

/// An item that gets room of its own stands in the region at its offset.
pub proof fn lemma_item_in_region(items: Seq<Seq<u8>>, base: int, k: int, n: nat, shared: bool)
    requires
        0 <= k < n,
        is_placed(items, k, shared),
    ensures
        base <= place(items, base, k as nat, shared),
        place(items, base, k as nat, shared) + items[k].len() <= base + region(
            items,
            base,
            n,
            shared,
        ).len(),
        region(items, base, n, shared).subrange(
            place(items, base, k as nat, shared) - base,
            place(items, base, k as nat, shared) - base + items[k].len(),
        ) == items[k],
{
    let before = region(items, base, k as nat, shared);
    let with = region(items, base, (k + 1) as nat, shared);
    let whole = region(items, base, n, shared);
    lemma_region_grows(items, base, (k + 1) as nat, n, shared);
    let at = place(items, base, k as nat, shared) - base;
    assert(with.subrange(at, at + items[k].len()) =~= items[k]);
    assert(whole.subrange(at, at + items[k].len()) =~= with.subrange(at, at + items[k].len()));
}

/// In the file of a single font that can be written, the `head` table lies
/// within the file, at a multiple of four.
pub proof fn lemma_head_within(font: SfntView)
    requires
        font.tables.dom().finite(),
        font.tables.contains_key(HEAD),
        sfnt_write_error(font) is None,
    ensures
        sfnt_laid_out(font).contains_key(HEAD),
        sfnt_laid_out(font)[HEAD].offset >= sfnt_base(font),
        sfnt_laid_out(font)[HEAD].offset % 4 == 0,
        sfnt_laid_out(font)[HEAD].offset + font.tables[HEAD].raw_data.len() <= sfnt_unadjusted(
            font,
        ).len(),
{
    lemma_table_within(font, HEAD);
}

/// A directory takes twelve bytes and sixteen more for each table.
pub proof fn lemma_directory_len(version: u32, tables: Map<u32, TableView>)
    ensures
        directory_bytes(version, tables).len() == 12 + 16 * tables.len(),
{
    lemma_entries_len(tables, tables.len());
}

/// A directory of `n` entries takes 16 bytes for each.
pub proof fn lemma_entries_len(tables: Map<u32, TableView>, n: nat)
    ensures
        entries_bytes(tables, n).len() == 16 * n,
    decreases n,
{
    if n > 0 {
        lemma_entries_len(tables, (n - 1) as nat);
    }
}

/// In the tables of the file of a single font that can be written, every
/// table stands at its offset, which is a multiple of four.
pub proof fn lemma_table_in_region(font: SfntView, tag: u32)
    requires
        font.tables.dom().finite(),
        font.tables.contains_key(tag),
        sfnt_write_error(font) is None,
    ensures
        sfnt_laid_out(font).contains_key(tag),
        sfnt_laid_out(font)[tag].raw_data == stored_bytes(tag, font.tables[tag].raw_data),
        sfnt_laid_out(font)[tag].checksum == sum32(stored_bytes(tag, font.tables[tag].raw_data)),
        sfnt_laid_out(font)[tag].offset >= sfnt_base(font),
        sfnt_laid_out(font)[tag].offset % 4 == 0,
        sfnt_laid_out(font)[tag].offset - sfnt_base(font) + font.tables[tag].raw_data.len()
            <= region(font_items(font), sfnt_base(font), font_items(font).len(), false).len(),
        region(font_items(font), sfnt_base(font), font_items(font).len(), false).subrange(
            sfnt_laid_out(font)[tag].offset - sfnt_base(font),
            sfnt_laid_out(font)[tag].offset - sfnt_base(font) + font.tables[tag].raw_data.len(),
        ) == stored_bytes(tag, font.tables[tag].raw_data),
{
    let items = font_items(font);
    let base = sfnt_base(font);
    let order = storage_order(font.sfnt_version, font.tables.dom());
    lemma_storage_order(font.sfnt_version, font.tables.dom());
    assert(order.contains(tag));
    let k = order.index_of(tag);
    assert(order[k] == tag);
    assert(items[k] == stored_bytes(tag, font.tables[tag].raw_data));
    assert(is_placed(items, k, false));
    lemma_item_in_region(items, base, k, items.len(), false);
    let at = place(items, base, k as nat, false);
    assert(item_offset(items, base, k, false) == at);
    assert(!has_far_item(items, base, false));
    assert(item_offset(items, base, k, false) <= FIELD_MAX);
    lemma_aligned(base + region(items, base, k as nat, false).len());
    assert(sfnt_laid_out(font)[tag].offset == at);
}

/// In the file of a single font that can be written, every table lies
/// within the file at its offset, which is a multiple of four, with the
/// bytes that it is stored with.
pub proof fn lemma_table_within(font: SfntView, tag: u32)
    requires
        font.tables.dom().finite(),
        font.tables.contains_key(tag),
        sfnt_write_error(font) is None,
    ensures
        sfnt_laid_out(font).contains_key(tag),
        sfnt_laid_out(font)[tag].offset >= sfnt_base(font),
        sfnt_laid_out(font)[tag].offset % 4 == 0,
        sfnt_laid_out(font)[tag].offset + font.tables[tag].raw_data.len() <= sfnt_unadjusted(
            font,
        ).len(),
        sfnt_unadjusted(font).subrange(
            sfnt_laid_out(font)[tag].offset as int,
            sfnt_laid_out(font)[tag].offset + font.tables[tag].raw_data.len(),
        ) == stored_bytes(tag, font.tables[tag].raw_data),
        sfnt_laid_out(font)[tag].checksum == sum32(stored_bytes(tag, font.tables[tag].raw_data)),
{
    lemma_table_in_region(font, tag);
    let base = sfnt_base(font);
    let from = sfnt_laid_out(font)[tag].offset - base;
    let to = from + font.tables[tag].raw_data.len();
    let directory = directory_bytes(font.sfnt_version, sfnt_laid_out(font));
    let payload = region(font_items(font), base, font_items(font).len(), false);
    lemma_directory_len(font.sfnt_version, sfnt_laid_out(font));
    assert(sfnt_laid_out(font).dom() =~= font.tables.dom());
    assert(directory.len() == base);
    crate::bytes::lemma_part_of_second(directory, payload, from, to);
}

/// The tables of a single font do not overlap in its file: of two tables,
/// the one that is stored first ends before the other starts.
pub proof fn lemma_tables_apart(font: SfntView, j: int, k: int)
    requires
        font.tables.dom().finite(),
        0 <= j < k < font_items(font).len(),
    ensures
        item_offset(font_items(font), sfnt_base(font), j, false) + font_items(font)[j].len()
            <= item_offset(font_items(font), sfnt_base(font), k, false),
{
    let items = font_items(font);
    let base = sfnt_base(font);
    lemma_region_grows(items, base, (j + 1) as nat, k as nat, false);
}

/// Writing a number over four zero bytes at a multiple of four adds the
/// number to the weighted sum of the bytes; writing zeros over it again
/// gives the bytes back.
pub proof fn lemma_word_written(plain: Seq<u8>, at: int, value: u32)
    requires
        0 <= at,
        at % 4 == 0,
        at + 4 <= plain.len(),
        forall|i: int| at <= i < at + 4 ==> plain[i] == 0,
    ensures
        overwrite(overwrite(plain, at, u32_bytes(value)), at, zeros(4)) == plain,
        crate::bytes::u32_at(overwrite(plain, at, u32_bytes(value)), at) == value,
        crate::checksum::weighted_sum(overwrite(plain, at, u32_bytes(value)), 0)
            == crate::checksum::weighted_sum(plain, 0) + value,
{
    let image = overwrite(plain, at, u32_bytes(value));
    assert(overwrite(image, at, zeros(4)) =~= plain);
    crate::bytes::lemma_u32_round_trip(value);
    assert(image.subrange(at, at + 4) =~= u32_bytes(value));
    assert(crate::bytes::u32_at(image, at) == crate::bytes::u32_at(u32_bytes(value), 0));
    let front = plain.subrange(0, at);
    let back = plain.subrange(at + 4, plain.len() as int);
    assert(plain =~= front + zeros(4) + back);
    assert(image =~= front + u32_bytes(value) + back);
    crate::checksum::lemma_weighted_sum_concat(front + zeros(4), back, 0);
    crate::checksum::lemma_weighted_sum_concat(front, zeros(4), 0);
    crate::checksum::lemma_weighted_sum_zeros(4, at);
    crate::checksum::lemma_weighted_sum_concat(front + u32_bytes(value), back, 0);
    crate::checksum::lemma_weighted_sum_concat(front, u32_bytes(value), 0);
    crate::checksum::lemma_weighted_sum_word(u32_bytes(value), at);
}

/// In the file of a single font before the checksum adjustment is set, the
/// adjustment is zero and stands at a multiple of four.
pub proof fn lemma_adjustment_is_zero(font: SfntView)
    requires
        font.tables.dom().finite(),
        has_adjustment(font),
        sfnt_write_error(font) is None,
    ensures
        (sfnt_laid_out(font)[HEAD].offset + 8) % 4 == 0,
        sfnt_laid_out(font)[HEAD].offset + 12 <= sfnt_unadjusted(font).len(),
        forall|i: int|
            sfnt_laid_out(font)[HEAD].offset + 8 <= i < sfnt_laid_out(font)[HEAD].offset + 12
                ==> sfnt_unadjusted(font)[i] == 0,
{
    lemma_table_within(font, HEAD);
    let plain = sfnt_unadjusted(font);
    let from = sfnt_laid_out(font)[HEAD].offset as int;
    let head = stored_bytes(HEAD, font.tables[HEAD].raw_data);
    assert forall|i: int| from + 8 <= i < from + 12 implies plain[i] == 0 by {
        assert(plain.subrange(from, from + head.len())[i - from] == head[i - from]);
    }
}

/// The checksum adjustment of a written font makes the checksum of the
/// whole file the magic number: the adjustment is that number less the
/// checksum of the file with an adjustment of zero.
pub proof fn lemma_file_checksum(font: SfntView)
    requires
        font.tables.dom().finite(),
        has_adjustment(font),
        sfnt_write_error(font) is None,
    ensures
        sfnt_image(font).len() == sfnt_unadjusted(font).len(),
        sfnt_laid_out(font)[HEAD].offset + 12 <= sfnt_image(font).len(),
        overwrite(sfnt_image(font), sfnt_laid_out(font)[HEAD].offset + 8, zeros(4))
            == sfnt_unadjusted(font),
        crate::bytes::u32_at(sfnt_image(font), sfnt_laid_out(font)[HEAD].offset + 8) == adjustment(
            sfnt_unadjusted(font),
        ),
        sum32(sfnt_image(font)) == CHECKSUM_MAGIC,
{
    lemma_adjustment_is_zero(font);
    let plain = sfnt_unadjusted(font);
    let at = sfnt_laid_out(font)[HEAD].offset + 8;
    let value = adjustment(plain);
    lemma_word_written(plain, at, value);
    crate::checksum::lemma_weighted_sum_nonnegative(plain, 0);
    lemma_adjusted_sum(crate::checksum::weighted_sum(plain, 0));
}

/// A sum and the magic number less the sum are together the magic number,
/// modulo 2^32.
pub proof fn lemma_adjusted_sum(total: int)
    requires
        total >= 0,
    ensures
        (total + ((CHECKSUM_MAGIC - total % 0x1_0000_0000) % 0x1_0000_0000)) % 0x1_0000_0000
            == CHECKSUM_MAGIC,
{
    let m = 0x1_0000_0000int;
    let r = total % m;
    let q = total / m;
    assert(total == q * m + r) by {
        vstd::arithmetic::div_mod::lemma_fundamental_div_mod(total, m);
    }
    let a = (CHECKSUM_MAGIC - r) % m;
    if r <= CHECKSUM_MAGIC {
        assert(a == CHECKSUM_MAGIC - r);
        assert(total + a == q * m + CHECKSUM_MAGIC);
        vstd::arithmetic::div_mod::lemma_fundamental_div_mod_converse(
            total + a,
            m,
            q,
            CHECKSUM_MAGIC as int,
        );
    } else {
        assert(a == CHECKSUM_MAGIC - r + m);
        assert(total + a == (q + 1) * m + CHECKSUM_MAGIC) by (nonlinear_arith)
            requires
                total == q * m + r,
                a == CHECKSUM_MAGIC - r + m,
        ;
        vstd::arithmetic::div_mod::lemma_fundamental_div_mod_converse(
            total + a,
            m,
            q + 1,
            CHECKSUM_MAGIC as int,
        );
    }
}

/// In the file of a single font, a table other than `head` holds the bytes
/// that it held before the checksum adjustment was set.
pub proof fn lemma_table_untouched(font: SfntView, tag: u32)
    requires
        font.tables.dom().finite(),
        font.tables.contains_key(tag),
        tag != HEAD,
        sfnt_write_error(font) is None,
    ensures
        sfnt_image(font).len() == sfnt_unadjusted(font).len(),
        sfnt_image(font).subrange(
            sfnt_laid_out(font)[tag].offset as int,
            sfnt_laid_out(font)[tag].offset + font.tables[tag].raw_data.len(),
        ) == sfnt_unadjusted(font).subrange(
            sfnt_laid_out(font)[tag].offset as int,
            sfnt_laid_out(font)[tag].offset + font.tables[tag].raw_data.len(),
        ),
{
    lemma_table_within(font, tag);
    let plain = sfnt_unadjusted(font);
    let from = sfnt_laid_out(font)[tag].offset as int;
    let to = from + font.tables[tag].raw_data.len();
    if has_adjustment(font) {
        lemma_table_within(font, HEAD);
        let order = storage_order(font.sfnt_version, font.tables.dom());
        lemma_storage_order(font.sfnt_version, font.tables.dom());
        assert(order.contains(tag));
        assert(order.contains(HEAD));
        let k = order.index_of(tag);
        let h = order.index_of(HEAD);
        assert(order[k] == tag && order[h] == HEAD);
        let head_from = sfnt_laid_out(font)[HEAD].offset as int;
        let head_to = head_from + font.tables[HEAD].raw_data.len();
        assert(font_items(font)[k].len() == font.tables[tag].raw_data.len());
        assert(font_items(font)[h].len() == font.tables[HEAD].raw_data.len());
        if k < h {
            lemma_tables_apart(font, k, h);
            assert(to <= head_from);
        } else {
            lemma_tables_apart(font, h, k);
            assert(head_to <= from);
        }
        crate::bytes::lemma_overwrite_elsewhere(
            plain,
            head_from + 8,
            u32_bytes(adjustment(plain)),
            from,
            to,
        );
    }
}

/// In a written font file, every table stands at the offset that its
/// directory entry gives, and the checksum of the entry is the checksum of
/// the bytes of the table as the file holds them, the checksum adjustment
/// of the `head` table taken as zero.
pub proof fn lemma_table_checksum(font: SfntView, tag: u32)
    requires
        font.tables.dom().finite(),
        font.tables.contains_key(tag),
        sfnt_write_error(font) is None,
    ensures
        sfnt_laid_out(font)[tag].offset + sfnt_laid_out(font)[tag].raw_data.len() <= sfnt_image(
            font,
        ).len(),
        sfnt_laid_out(font)[tag].checksum == sum32(
            stored_bytes(
                tag,
                sfnt_image(font).subrange(
                    sfnt_laid_out(font)[tag].offset as int,
                    sfnt_laid_out(font)[tag].offset + sfnt_laid_out(font)[tag].raw_data.len(),
                ),
            ),
        ),
{
    lemma_table_within(font, tag);
    let plain = sfnt_unadjusted(font);
    let image = sfnt_image(font);
    let stored = stored_bytes(tag, font.tables[tag].raw_data);
    let from = sfnt_laid_out(font)[tag].offset as int;
    let to = from + stored.len();
    assert(sfnt_laid_out(font)[tag].raw_data == stored);
    assert(stored.len() == font.tables[tag].raw_data.len());
    if tag == HEAD {
        if has_adjustment(font) {
            assert(stored_bytes(tag, image.subrange(from, to)) =~= stored);
        } else {
            assert(stored_bytes(tag, stored) =~= stored);
        }
    } else {
        lemma_table_untouched(font, tag);
    }
}

/// The directories of the first `f` fonts of a collection end where the
/// directory of the next starts.
pub proof fn lemma_directories_len(ttc: TTCView, f: nat)
    requires
        f <= ttc.fonts.len(),
    ensures
        ttc_header_bytes(ttc).len() == ttc_header_len(ttc),
        ttc_header_len(ttc) + directories_bytes(ttc, f).len()
            == directory_offset(ttc, f),
    decreases f,
{
    lemma_offsets_len(ttc, ttc.fonts.len());
    if f > 0 {
        lemma_directories_len(ttc, (f - 1) as nat);
        let laid = ttc_laid_out(ttc, f - 1);
        assert(laid.dom() =~= ttc.fonts[f - 1].tables.dom());
        lemma_directory_len(ttc.fonts[f - 1].sfnt_version, laid);
    }
}

/// The offsets of `f` directories take four bytes each.
pub proof fn lemma_offsets_len(ttc: TTCView, f: nat)
    ensures
        directory_offsets_bytes(ttc, f).len() == 4 * f,
    decreases f,
{
    if f > 0 {
        lemma_offsets_len(ttc, (f - 1) as nat);
    }
}

/// The items of a collection hold the items of each font in a row: item
/// `i` of font `f` is the item at that place after the items of the fonts
/// before.
pub proof fn lemma_all_items_at(fonts: Seq<SfntView>, f: int, i: int)
    requires
        0 <= f < fonts.len(),
        0 <= i < font_items(fonts[f]).len(),
    ensures
        all_items(fonts.take(f)).len() + i < all_items(fonts).len(),
        all_items(fonts)[all_items(fonts.take(f)).len() + i] == font_items(fonts[f])[i],
    decreases fonts.len(),
{
    let front = fonts.drop_last();
    if f == fonts.len() - 1 {
        assert(fonts.take(f) =~= front);
    } else {
        assert(front.take(f) =~= fonts.take(f));
        lemma_all_items_at(front, f, i);
    }
}

/// In the tables of a collection file, every table of every font stands at
/// its offset, which is a multiple of four.
pub proof fn lemma_collection_table_within(ttc: TTCView, f: int, tag: u32)
    requires
        0 <= f < ttc.fonts.len(),
        ttc.fonts[f].tables.dom().finite(),
        ttc.fonts[f].tables.contains_key(tag),
        ttc_write_error(ttc) is None,
    ensures
        ttc_laid_out(ttc, f).contains_key(tag),
        ttc_laid_out(ttc, f)[tag].raw_data == stored_bytes(tag, ttc.fonts[f].tables[tag].raw_data),
        ttc_laid_out(ttc, f)[tag].checksum == sum32(ttc_laid_out(ttc, f)[tag].raw_data),
        ttc_laid_out(ttc, f)[tag].offset % 4 == 0,
        ttc_laid_out(ttc, f)[tag].offset >= ttc_base(ttc),
        ttc_laid_out(ttc, f)[tag].offset - ttc_base(ttc) + ttc_laid_out(ttc, f)[tag].raw_data.len()
            <= ttc_region(ttc).len(),
        ttc_region(ttc).subrange(
            ttc_laid_out(ttc, f)[tag].offset - ttc_base(ttc),
            ttc_laid_out(ttc, f)[tag].offset - ttc_base(ttc) + ttc_laid_out(
                ttc,
                f,
            )[tag].raw_data.len(),
        ) == ttc_laid_out(ttc, f)[tag].raw_data,
{
    let font = ttc.fonts[f];
    let all = all_items(ttc.fonts);
    let base = ttc_base(ttc);
    let first = all_items(ttc.fonts.take(f)).len() as int;
    let order = storage_order(font.sfnt_version, font.tables.dom());
    lemma_storage_order(font.sfnt_version, font.tables.dom());
    assert(order.contains(tag));
    let i = order.index_of(tag);
    assert(order[i] == tag);
    lemma_all_items_at(ttc.fonts, f, i);
    let k = first + i;
    assert(all[k] == stored_bytes(tag, font.tables[tag].raw_data));
    let j = first_index(all, all[k], k);
    lemma_first_index(all, all[k], k);
    assert(all[j] == all[k]);
    lemma_first_index_is(all, all[j], j, j);
    assert(is_placed(all, j, true));
    lemma_item_in_region(all, base, j, all.len(), true);
    let at = place(all, base, j as nat, true);
    assert(item_offset(all, base, k, true) == at);
    assert(!has_far_item(all, base, true));
    assert(item_offset(all, base, k, true) <= FIELD_MAX);
    lemma_directory_offset_positive(ttc, ttc.fonts.len());
    lemma_aligned(base + region(all, base, j as nat, true).len());
    let entry = ttc_laid_out(ttc, f)[tag];
    assert(entry.offset == at);
    assert(entry.raw_data == all[k]);
    assert(ttc_region(ttc) == region(all, base, all.len(), true));
}

/// Every directory of a collection starts after the head of the file.
pub proof fn lemma_directory_offset_positive(ttc: TTCView, f: nat)
    ensures
        directory_offset(ttc, f) >= 12,
    decreases f,
{
    if f > 0 {
        lemma_directory_offset_positive(ttc, (f - 1) as nat);
    }
}

/// Bringing a place to a multiple of four moves it by less than four.
pub proof fn lemma_aligned(pos: int)
    requires
        pos >= 0,
    ensures
        aligned(pos) % 4 == 0,
        pos <= aligned(pos) < pos + 4,
{
}

/// In a written collection file, every table of every font stands at the
/// offset that its directory entry gives, which is a multiple of four, and
/// the checksum of the entry is the checksum of the bytes of the table as
/// the file holds them.
pub proof fn lemma_collection_table_checksum(ttc: TTCView, f: int, tag: u32)
    requires
        0 <= f < ttc.fonts.len(),
        forall|g: int| 0 <= g < ttc.fonts.len() ==> (#[trigger] ttc.fonts[g]).tables.dom().finite(),
        ttc.fonts[f].tables.contains_key(tag),
        ttc_write_error(ttc) is None,
    ensures
        ttc_laid_out(ttc, f).contains_key(tag),
        ttc_laid_out(ttc, f)[tag].offset % 4 == 0,
        ttc_laid_out(ttc, f)[tag].offset + ttc_laid_out(ttc, f)[tag].raw_data.len() <= ttc_image(
            ttc,
        ).len(),
        ttc_image(ttc).subrange(
            ttc_laid_out(ttc, f)[tag].offset as int,
            ttc_laid_out(ttc, f)[tag].offset + ttc_laid_out(ttc, f)[tag].raw_data.len(),
        ) == ttc_laid_out(ttc, f)[tag].raw_data,
        ttc_laid_out(ttc, f)[tag].raw_data == stored_bytes(tag, ttc.fonts[f].tables[tag].raw_data),
        ttc_laid_out(ttc, f)[tag].checksum == sum32(ttc_laid_out(ttc, f)[tag].raw_data),
{
    lemma_collection_table_within(ttc, f, tag);
    lemma_directories_len(ttc, ttc.fonts.len());
    let entry = ttc_laid_out(ttc, f)[tag];
    let base = ttc_base(ttc);
    let front = ttc_header_bytes(ttc) + directories_bytes(ttc, ttc.fonts.len());
    let payload = ttc_region(ttc);
    let from = entry.offset - base;
    let to = from + entry.raw_data.len();
    assert(front.len() == base);
    assert(ttc_image(ttc) == front + payload + dsig_bytes(ttc));
    crate::bytes::lemma_part_of_first(front + payload, dsig_bytes(ttc), base + from, base + to);
    crate::bytes::lemma_part_of_second(front, payload, from, to);
}

/// Of two items with the same bytes, the first of them that gets room of
/// its own is the same item.
pub proof fn lemma_first_index_shared(items: Seq<Seq<u8>>, j: int, k: int)
    requires
        0 <= j <= k < items.len(),
        items[j] == items[k],
    ensures
        first_index(items, items[j], j) == first_index(items, items[k], k),
{
    let blob = items[k];
    let first = first_index(items, blob, j);
    lemma_first_index(items, blob, j);
    lemma_first_index_is(items, blob, k, first);
}

/// In a collection file, tables that are stored with the same bytes stand
/// at the same offset, whichever fonts they belong to: the file holds the
/// bytes once, and the fonts share them.
pub proof fn lemma_shared_offset(ttc: TTCView, f: int, tag: u32, g: int, other: u32)
    requires
        0 <= f < ttc.fonts.len(),
        0 <= g < ttc.fonts.len(),
        ttc.fonts[f].tables.dom().finite(),
        ttc.fonts[g].tables.dom().finite(),
        ttc.fonts[f].tables.contains_key(tag),
        ttc.fonts[g].tables.contains_key(other),
        stored_bytes(tag, ttc.fonts[f].tables[tag].raw_data) == stored_bytes(
            other,
            ttc.fonts[g].tables[other].raw_data,
        ),
    ensures
        ttc_laid_out(ttc, f)[tag].offset == ttc_laid_out(ttc, g)[other].offset,
{
    let all = all_items(ttc.fonts);
    let a = ttc.fonts[f];
    let b = ttc.fonts[g];
    let order_a = storage_order(a.sfnt_version, a.tables.dom());
    let order_b = storage_order(b.sfnt_version, b.tables.dom());
    lemma_storage_order(a.sfnt_version, a.tables.dom());
    lemma_storage_order(b.sfnt_version, b.tables.dom());
    assert(order_a.contains(tag));
    assert(order_b.contains(other));
    let i = order_a.index_of(tag);
    let j = order_b.index_of(other);
    assert(order_a[i] == tag);
    assert(order_b[j] == other);
    lemma_all_items_at(ttc.fonts, f, i);
    lemma_all_items_at(ttc.fonts, g, j);
    let x = all_items(ttc.fonts.take(f)).len() + i;
    let y = all_items(ttc.fonts.take(g)).len() + j;
    assert(all[x] == all[y]);
    if x <= y {
        lemma_first_index_shared(all, x, y);
    } else {
        lemma_first_index_shared(all, y, x);
    }
}

/// An item that gets room of its own ends before the place of every later
/// item.
pub proof fn lemma_items_apart(items: Seq<Seq<u8>>, base: int, j: int, k: int, shared: bool)
    requires
        0 <= j < k,
        is_placed(items, j, shared),
    ensures
        place(items, base, j as nat, shared) + items[j].len() <= place(
            items,
            base,
            k as nat,
            shared,
        ),
{
    lemma_region_grows(items, base, (j + 1) as nat, k as nat, shared);
    let before = region(items, base, j as nat, shared);
    let with = region(items, base, (j + 1) as nat, shared);
    assert(with == before + zeros(padding(base + before.len()) as nat) + items[j]);
}

/// Of the items that get room of their own in a file that shares tables,
/// no two have the same bytes, and every item has the bytes of one of
/// them: they are the distinct tables of the file.
pub proof fn lemma_placed_are_distinct(items: Seq<Seq<u8>>, j: int, k: int)
    requires
        0 <= j <= k < items.len(),
    ensures
        is_placed(items, first_index(items, items[k], k), true),
        0 <= first_index(items, items[k], k) <= k,
        items[first_index(items, items[k], k)] == items[k],
        j < k && is_placed(items, j, true) && is_placed(items, k, true) ==> items[j] != items[k],
{
    let first = first_index(items, items[k], k);
    lemma_first_index(items, items[k], k);
    lemma_first_index_is(items, items[first], first, first);
}

/// In a file that shares tables, the rooms of two items are the same room
/// where the items have the same bytes, and lie apart where they have not.
pub proof fn lemma_extents(items: Seq<Seq<u8>>, base: int, x: int, y: int)
    requires
        0 <= x < items.len(),
        0 <= y < items.len(),
    ensures
        items[x] == items[y] ==> item_offset(items, base, x, true) == item_offset(
            items,
            base,
            y,
            true,
        ),
        items[x] != items[y] ==> item_offset(items, base, x, true) + items[x].len() <= item_offset(
            items,
            base,
            y,
            true,
        ) || item_offset(items, base, y, true) + items[y].len() <= item_offset(
            items,
            base,
            x,
            true,
        ),
{
    let first_x = first_index(items, items[x], x);
    let first_y = first_index(items, items[y], y);
    lemma_placed_are_distinct(items, x, x);
    lemma_placed_are_distinct(items, y, y);
    if items[x] == items[y] {
        if x <= y {
            lemma_first_index_shared(items, x, y);
        } else {
            lemma_first_index_shared(items, y, x);
        }
    } else if first_x < first_y {
        lemma_items_apart(items, base, first_x, first_y, true);
    } else {
        assert(first_x != first_y);
        lemma_items_apart(items, base, first_y, first_x, true);
    }
}

/// The item of a collection file that a table of one of its fonts is: its
/// place among the items, where the bytes of the table stand, and from
/// which the offset of the table comes.
pub proof fn lemma_collection_item(ttc: TTCView, f: int, tag: u32) -> (k: int)
    requires
        0 <= f < ttc.fonts.len(),
        ttc.fonts[f].tables.dom().finite(),
        ttc.fonts[f].tables.contains_key(tag),
        ttc_write_error(ttc) is None,
    ensures
        0 <= k < all_items(ttc.fonts).len(),
        all_items(ttc.fonts)[k] == ttc_laid_out(ttc, f)[tag].raw_data,
        ttc_laid_out(ttc, f)[tag].offset == item_offset(
            all_items(ttc.fonts),
            ttc_base(ttc),
            k,
            true,
        ),
{
    let font = ttc.fonts[f];
    let all = all_items(ttc.fonts);
    let base = ttc_base(ttc);
    let order = storage_order(font.sfnt_version, font.tables.dom());
    lemma_storage_order(font.sfnt_version, font.tables.dom());
    assert(order.contains(tag));
    let i = order.index_of(tag);
    assert(order[i] == tag);
    lemma_all_items_at(ttc.fonts, f, i);
    let k = all_items(ttc.fonts.take(f)).len() + i;
    lemma_placed_are_distinct(all, k, k);
    lemma_directory_offset_positive(ttc, ttc.fonts.len());
    lemma_aligned(
        base + region(all, base, first_index(all, all[k], k) as nat, true).len(),
    );
    assert(!has_far_item(all, base, true));
    assert(item_offset(all, base, k, true) <= FIELD_MAX);
    k
}

/// In a collection file, the places that the directory entries of two
/// tables name, each from its offset on for its length, are the same place
/// with the same bytes or lie apart, whichever fonts the tables belong to.
pub proof fn lemma_collection_extents(ttc: TTCView, f: int, tag: u32, g: int, other: u32)
    requires
        0 <= f < ttc.fonts.len(),
        0 <= g < ttc.fonts.len(),
        ttc.fonts[f].tables.dom().finite(),
        ttc.fonts[g].tables.dom().finite(),
        ttc.fonts[f].tables.contains_key(tag),
        ttc.fonts[g].tables.contains_key(other),
        ttc_write_error(ttc) is None,
    ensures
        ({
            let a = ttc_laid_out(ttc, f)[tag];
            let b = ttc_laid_out(ttc, g)[other];
            ||| a.offset == b.offset && a.raw_data == b.raw_data
            ||| a.offset + a.raw_data.len() <= b.offset
            ||| b.offset + b.raw_data.len() <= a.offset
        }),
{
    let x = lemma_collection_item(ttc, f, tag);
    let y = lemma_collection_item(ttc, g, other);
    lemma_extents(all_items(ttc.fonts), ttc_base(ttc), x, y);
}

/// How many of the first `n` items get room of their own.
pub open spec fn placed_count(items: Seq<Seq<u8>>, n: nat, shared: bool) -> nat
    decreases n,
{
    if n == 0 {
        0
    } else if is_placed(items, n - 1, shared) {
        placed_count(items, (n - 1) as nat, shared) + 1
    } else {
        placed_count(items, (n - 1) as nat, shared)
    }
}

/// How many bytes those of the first `n` items have together that get room
/// of their own.
pub open spec fn placed_len(items: Seq<Seq<u8>>, n: nat, shared: bool) -> nat
    decreases n,
{
    if n == 0 {
        0
    } else if is_placed(items, n - 1, shared) {
        placed_len(items, (n - 1) as nat, shared) + items[n - 1].len()
    } else {
        placed_len(items, (n - 1) as nat, shared)
    }
}

/// The tables of a file take no more room than the items that get room of
/// their own have bytes, and at most three bytes more for each of them:
/// each such item is stored once, and no other is stored at all.
pub proof fn lemma_region_bound(items: Seq<Seq<u8>>, base: int, n: nat, shared: bool)
    ensures
        region(items, base, n, shared).len() <= placed_len(items, n, shared) + 3 * placed_count(
            items,
            n,
            shared,
        ),
        placed_count(items, n, shared) <= n,
    decreases n,
{
    if n > 0 {
        lemma_region_bound(items, base, (n - 1) as nat, shared);
    }
}

/// The tables of a collection file take no more room than its distinct
/// tables have bytes, and at most three bytes more for each of them.
pub proof fn lemma_collection_region_bound(ttc: TTCView)
    ensures
        ttc_region(ttc).len() <= placed_len(
            all_items(ttc.fonts),
            all_items(ttc.fonts).len(),
            true,
        ) + 3 * placed_count(all_items(ttc.fonts), all_items(ttc.fonts).len(), true),
{
    lemma_region_bound(all_items(ttc.fonts), ttc_base(ttc), all_items(ttc.fonts).len(), true);
}

} // verus!