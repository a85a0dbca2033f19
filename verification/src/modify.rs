//! The changes that make a font render smoothly: each takes a parsed
//! container and changes its tables in place.

use crate::bytes::{copy_bytes, put, put_bytes, read_u16, u16_at};
use crate::outlines::{
    encode_loca, glyph_count, glyph_offsets, lemma_new_offsets_bounded,
    lemma_rebuilds_needs_glyphs, new_glyf, new_loca, new_offsets, places, read_offsets,
    rebuild_glyphs, rebuilds, SHORT_LIMIT,
};
use crate::tables::{fresh_table, TableMap, TableRecord, TableView};
use crate::tag::{
    FourCC, BDAT, BLOC, CVAR, CVT, DSIG, EBDT, EBLC, EBSC, FPGM, GASP, GLYF, HDMX, HEAD, LOCA,
    LTSH, MAXP, PREP, TRUE, TRUETYPE, VDMX,
};
use crate::types::{SfntHeader, SfntView, TTCHeader, TTCView};
use std::rc::Rc;
use vstd::prelude::*;

verus! {

/// The fonts of a list, each changed by `change`.
pub open spec fn each_font(fonts: Seq<SfntView>, change: spec_fn(SfntView) -> SfntView) -> Seq<
    SfntView,
> {
    Seq::new(fonts.len(), |i: int| change(fonts[i]))
}

/// A signature table that holds no signature: version 1, no signatures, no
/// flags.
pub open spec fn dsig_stub() -> Seq<u8> {
    seq![0x00u8, 0x00u8, 0x00u8, 0x01u8, 0x00u8, 0x00u8, 0x00u8, 0x00u8]
}

/// A `gasp` table of version 1 with one range, which reaches to all sizes
/// and asks for grey-scale rendering with symmetric smoothing.
pub open spec fn gasp_table() -> Seq<u8> {
    seq![0x00u8, 0x01u8, 0x00u8, 0x01u8, 0xffu8, 0xffu8, 0x00u8, 0x0au8]
}

/// A control value program that turns ClearType on, asks for dropout control
/// at all sizes with smart scan conversion, and turns grid-fitting off.
pub open spec fn prep_program() -> Seq<u8> {
    seq![
        0xb1u8, 0x04u8, 0x03u8, 0x8eu8, 0xb8u8, 0x01u8, 0xffu8, 0x85u8, 0xb0u8, 0x04u8, 0x8du8,
        0xb1u8, 0x01u8, 0x01u8, 0x8eu8,
    ]
}

fn make_dsig_stub() -> (bytes: Vec<u8>)
    ensures
        bytes@ == dsig_stub(),
{
    let bytes = vec![0x00u8, 0x00u8, 0x00u8, 0x01u8, 0x00u8, 0x00u8, 0x00u8, 0x00u8];
    assert(bytes@ =~= dsig_stub());
    bytes
}

fn make_gasp_table() -> (bytes: Vec<u8>)
    ensures
        bytes@ == gasp_table(),
{
    let bytes = vec![0x00u8, 0x01u8, 0x00u8, 0x01u8, 0xffu8, 0xffu8, 0x00u8, 0x0au8];
    assert(bytes@ =~= gasp_table());
    bytes
}

fn make_prep_program() -> (bytes: Vec<u8>)
    ensures
        bytes@ == prep_program(),
{
    let bytes = vec![
        0xb1u8, 0x04u8, 0x03u8, 0x8eu8, 0xb8u8, 0x01u8, 0xffu8, 0x85u8, 0xb0u8, 0x04u8, 0x8du8,
        0xb1u8, 0x01u8, 0x01u8, 0x8eu8,
    ];
    assert(bytes@ =~= prep_program());
    bytes
}

/// The font with an empty signature table in its directory.
pub open spec fn with_dsig_stub(font: SfntView) -> SfntView {
    SfntView { tables: font.tables.insert(DSIG, fresh_table(dsig_stub())), ..font }
}

/// The font without a signature table.
pub open spec fn without_dsig_table(font: SfntView) -> SfntView {
    SfntView { tables: font.tables.remove(DSIG), ..font }
}

/// The container with its signatures made void. A single font gets an empty
/// signature table of its own, and the container none. A collection is
/// brought to version 2.0 where it is below, gets an empty signature at the
/// level of the container, and its fonts lose theirs.
pub open spec fn without_dsig(ttc: TTCView) -> TTCView {
    if ttc.fonts.len() == 1 {
        TTCView {
            fonts: each_font(ttc.fonts, |f: SfntView| with_dsig_stub(f)),
            dsig_tag: 0,
            dsig_data: Seq::empty(),
            ..ttc
        }
    } else {
        TTCView {
            major_version: if ttc.major_version < 2 {
                2
            } else {
                ttc.major_version
            },
            minor_version: if ttc.major_version < 2 {
                0
            } else {
                ttc.minor_version
            },
            fonts: each_font(ttc.fonts, |f: SfntView| without_dsig_table(f)),
            dsig_tag: DSIG,
            dsig_data: dsig_stub(),
            ..ttc
        }
    }
}

/// Makes the signatures of the container void, which the other changes
/// would break.
pub fn remove_dsig(ttc: &mut TTCHeader)
    ensures
        final(ttc)@ == without_dsig(old(ttc)@),
        final(ttc)@.fonts.len() == old(ttc)@.fonts.len(),
        old(ttc)@.fonts.len() == 1 ==> final(ttc)@.fonts[0].tables.contains_key(DSIG)
            && final(ttc)@.fonts[0].tables[DSIG].raw_data == dsig_stub(),
        old(ttc)@.fonts.len() != 1 ==> final(ttc)@.major_version >= 2 && final(ttc)@.dsig_tag
            == DSIG && final(ttc)@.dsig_data == dsig_stub() && forall|i: int|
            0 <= i < final(ttc)@.fonts.len() ==> !(#[trigger] final(ttc)@.fonts[i]).tables.contains_key(
                DSIG,
            ),
{
    let n = ttc.table_directories.len();
    let single = n == 1;
    if single {
        ttc.dsig_tag = FourCC::zeroed();
        ttc.dsig_data = Rc::new(Vec::new());
    } else {
        if ttc.major_version < 2 {
            ttc.major_version = 2;
            ttc.minor_version = 0;
        }
        ttc.dsig_tag = FourCC::from_value(DSIG);
        ttc.dsig_data = Rc::new(make_dsig_stub());
    }
    let mut i: usize = 0;
    while i < n
        invariant
            0 <= i <= n,
            n == old(ttc).table_directories@.len(),
            n == ttc.table_directories@.len(),
            single == (n == 1),
            ttc.ttc_tag == old(ttc).ttc_tag,
            ttc.major_version == without_dsig(old(ttc)@).major_version,
            ttc.minor_version == without_dsig(old(ttc)@).minor_version,
            ttc.dsig_tag@ == without_dsig(old(ttc)@).dsig_tag,
            ttc.dsig_data@ == without_dsig(old(ttc)@).dsig_data,
            forall|j: int|
                0 <= j < i ==> ttc.table_directories@[j]@ == (if single {
                    with_dsig_stub(old(ttc).table_directories@[j]@)
                } else {
                    without_dsig_table(old(ttc).table_directories@[j]@)
                }),
            forall|j: int|
                i <= j < n ==> ttc.table_directories@[j]@ == old(ttc).table_directories@[j]@,
        decreases n - i,
    {
        if single {
            ttc.table_directories[i].table_records.insert(
                FourCC::from_value(DSIG),
                TableRecord::new(make_dsig_stub()),
            );
        } else {
            ttc.table_directories[i].table_records.remove(&FourCC::from_value(DSIG));
        }
        i += 1;
    }
    assert(ttc@.fonts =~= without_dsig(old(ttc)@).fonts);
}

/// The font without its embedded bitmaps, in the form of Apple and in that
/// of Microsoft.
pub open spec fn without_bitmap_tables(font: SfntView) -> SfntView {
    SfntView {
        tables: font.tables.remove(BDAT).remove(BLOC).remove(EBDT).remove(EBLC).remove(EBSC),
        ..font
    }
}

/// The container with the embedded bitmaps of every font removed.
pub open spec fn without_bitmap(ttc: TTCView) -> TTCView {
    TTCView { fonts: each_font(ttc.fonts, |f: SfntView| without_bitmap_tables(f)), ..ttc }
}

/// Removes the embedded bitmaps of every font.
pub fn remove_bitmap(ttc: &mut TTCHeader)
    ensures
        final(ttc)@ == without_bitmap(old(ttc)@),
        forall|i: int, tag: u32|
            0 <= i < final(ttc)@.fonts.len() && (tag == BDAT || tag == BLOC || tag == EBDT || tag
                == EBLC || tag == EBSC) ==> !(#[trigger] final(ttc)@.fonts[i].tables.contains_key(
                tag,
            )),
{
    let n = ttc.table_directories.len();
    let mut i: usize = 0;
    while i < n
        invariant
            0 <= i <= n,
            n == old(ttc).table_directories@.len(),
            n == ttc.table_directories@.len(),
            ttc.ttc_tag == old(ttc).ttc_tag,
            ttc.major_version == old(ttc).major_version,
            ttc.minor_version == old(ttc).minor_version,
            ttc.dsig_tag == old(ttc).dsig_tag,
            ttc.dsig_data == old(ttc).dsig_data,
            forall|j: int|
                0 <= j < i ==> ttc.table_directories@[j]@ == without_bitmap_tables(
                    old(ttc).table_directories@[j]@,
                ),
            forall|j: int|
                i <= j < n ==> ttc.table_directories@[j]@ == old(ttc).table_directories@[j]@,
        decreases n - i,
    {
        let tables = &mut ttc.table_directories[i].table_records;
        tables.remove(&FourCC::from_value(BDAT));
        tables.remove(&FourCC::from_value(BLOC));
        tables.remove(&FourCC::from_value(EBDT));
        tables.remove(&FourCC::from_value(EBLC));
        tables.remove(&FourCC::from_value(EBSC));
        i += 1;
    }
    assert(ttc@.fonts =~= without_bitmap(old(ttc)@).fonts);
}

/// The font with the `gasp` table that asks for smooth rendering.
pub open spec fn with_gasp_table(font: SfntView) -> SfntView {
    SfntView { tables: font.tables.insert(GASP, fresh_table(gasp_table())), ..font }
}

/// The container with the `gasp` table of every font replaced.
pub open spec fn with_gasp(ttc: TTCView) -> TTCView {
    TTCView { fonts: each_font(ttc.fonts, |f: SfntView| with_gasp_table(f)), ..ttc }
}

/// Gives every font the `gasp` table that asks for grey-scale rendering with
/// symmetric smoothing at all sizes, in place of the one it has.
pub fn regenerate_gasp(ttc: &mut TTCHeader)
    ensures
        final(ttc)@ == with_gasp(old(ttc)@),
        forall|i: int|
            0 <= i < final(ttc)@.fonts.len() ==> (#[trigger] final(ttc)@.fonts[i]).tables.contains_key(
                GASP,
            ) && final(ttc)@.fonts[i].tables[GASP].raw_data == gasp_table(),
{
    let n = ttc.table_directories.len();
    let mut i: usize = 0;
    while i < n
        invariant
            0 <= i <= n,
            n == old(ttc).table_directories@.len(),
            n == ttc.table_directories@.len(),
            ttc.ttc_tag == old(ttc).ttc_tag,
            ttc.major_version == old(ttc).major_version,
            ttc.minor_version == old(ttc).minor_version,
            ttc.dsig_tag == old(ttc).dsig_tag,
            ttc.dsig_data == old(ttc).dsig_data,
            forall|j: int|
                0 <= j < i ==> ttc.table_directories@[j]@ == with_gasp_table(
                    old(ttc).table_directories@[j]@,
                ),
            forall|j: int|
                i <= j < n ==> ttc.table_directories@[j]@ == old(ttc).table_directories@[j]@,
        decreases n - i,
    {
        ttc.table_directories[i].table_records.insert(
            FourCC::from_value(GASP),
            TableRecord::new(make_gasp_table()),
        );
        i += 1;
    }
    assert(ttc@.fonts =~= with_gasp(old(ttc)@).fonts);
}

/// A `head` table marked as converted without loss and as optimised for
/// ClearType, in the high byte of its flags, and with the smallest readable
/// size set to zero; each as far as the table reaches.
pub open spec fn patched_head(head: Seq<u8>) -> Seq<u8> {
    let marked = if head.len() > 16 {
        head.update(16, head[16] | 0x28)
    } else {
        head
    };
    put(marked, 46, seq![0u8, 0u8])
}

/// The table `tag` of `tables` with its bytes replaced by `bytes`.
pub open spec fn with_table_data(tables: Map<u32, TableView>, tag: u32, bytes: Seq<u8>) -> Map<
    u32,
    TableView,
>
    recommends
        tables.contains_key(tag),
{
    tables.insert(tag, TableView { raw_data: bytes, ..tables[tag] })
}

/// The font as a TrueType font where it was an Apple TrueType font, and with
/// its `head` table patched where it has one.
pub open spec fn with_patched_head(font: SfntView) -> SfntView {
    SfntView {
        sfnt_version: if font.sfnt_version == TRUE {
            TRUETYPE
        } else {
            font.sfnt_version
        },
        tables: if font.tables.contains_key(HEAD) {
            with_table_data(font.tables, HEAD, patched_head(font.tables[HEAD].raw_data))
        } else {
            font.tables
        },
    }
}

/// The container with the version and the `head` table of every font
/// patched.
pub open spec fn with_head_patched(ttc: TTCView) -> TTCView {
    TTCView { fonts: each_font(ttc.fonts, |f: SfntView| with_patched_head(f)), ..ttc }
}

fn patch_head_font(sfnt: &mut SfntHeader)
    ensures
        final(sfnt)@ == with_patched_head(old(sfnt)@),
{
    if sfnt.sfnt_version.value() == TRUE {
        sfnt.sfnt_version = FourCC::from_value(TRUETYPE);
    }
    let head_tag = FourCC::from_value(HEAD);
    let patched = match sfnt.table_records.get(&head_tag) {
        Some(head) => {
            let mut data = copy_bytes(head.raw_data.as_slice());
            if data.len() > 16 {
                let flags = data[16];
                data[16] = flags | 0x28;
            }
            let zero: [u8; 2] = [0, 0];
            assert(zero@ =~= seq![0u8, 0u8]);
            put_bytes(&mut data, 46, zero.as_slice());
            Some(head.with_data(data))
        },
        None => None,
    };
    match patched {
        Some(record) => {
            sfnt.table_records.insert(head_tag, record);
        },
        None => {},
    }
}

/// Turns every Apple TrueType font into a TrueType font, and in every `head`
/// table marks the font as converted without loss and optimised for
/// ClearType and sets the smallest readable size to zero.
pub fn patch_head(ttc: &mut TTCHeader)
    ensures
        final(ttc)@ == with_head_patched(old(ttc)@),
{
    let n = ttc.table_directories.len();
    let mut i: usize = 0;
    while i < n
        invariant
            0 <= i <= n,
            n == old(ttc).table_directories@.len(),
            n == ttc.table_directories@.len(),
            ttc.ttc_tag == old(ttc).ttc_tag,
            ttc.major_version == old(ttc).major_version,
            ttc.minor_version == old(ttc).minor_version,
            ttc.dsig_tag == old(ttc).dsig_tag,
            ttc.dsig_data == old(ttc).dsig_data,
            forall|j: int|
                0 <= j < i ==> ttc.table_directories@[j]@ == with_patched_head(
                    old(ttc).table_directories@[j]@,
                ),
            forall|j: int|
                i <= j < n ==> ttc.table_directories@[j]@ == old(ttc).table_directories@[j]@,
        decreases n - i,
    {
        patch_head_font(&mut ttc.table_directories[i]);
        i += 1;
    }
    assert(ttc@.fonts =~= with_head_patched(old(ttc)@).fonts);
}

/// A `maxp` table for a font that runs only the short control value
/// program: one zone, no twilight points, storage, function or instruction
/// definitions, a stack of two elements, and instructions of at most 15
/// bytes; each field as far as the table reaches.
pub open spec fn patched_maxp(maxp: Seq<u8>) -> Seq<u8> {
    put(
        put(
            put(put(maxp, 14, seq![0u8, 1u8]), 16, seq![0u8, 0u8, 0u8, 0u8, 0u8, 0u8, 0u8, 0u8]),
            24,
            seq![0u8, 2u8],
        ),
        26,
        seq![0u8, 15u8],
    )
}

/// The tables of a font without those that only serve hinting, with the
/// short control value program, and with a `maxp` table, where it has one,
/// that fits the program.
pub open spec fn without_hint_tables(tables: Map<u32, TableView>) -> Map<u32, TableView> {
    let kept = tables.remove(CVAR).remove(CVT).remove(FPGM).remove(HDMX).insert(
        PREP,
        fresh_table(prep_program()),
    );
    let profiled = if kept.contains_key(MAXP) {
        with_table_data(kept, MAXP, patched_maxp(kept[MAXP].raw_data))
    } else {
        kept
    };
    profiled.remove(LTSH).remove(VDMX)
}

/// The `indexToLocFormat` field of the `head` table, where the font has a
/// `head` table that reaches that far.
pub open spec fn loca_format(tables: Map<u32, TableView>) -> Option<u16> {
    if tables.contains_key(HEAD) && tables[HEAD].raw_data.len() >= 52 {
        Some(u16_at(tables[HEAD].raw_data, 50))
    } else {
        None
    }
}

/// The `glyphDataFormat` field of the `head` table, where the font has a
/// `head` table that reaches that far.
pub open spec fn glyph_data_format(tables: Map<u32, TableView>) -> Option<u16> {
    if tables.contains_key(HEAD) && tables[HEAD].raw_data.len() >= 54 {
        Some(u16_at(tables[HEAD].raw_data, 52))
    } else {
        None
    }
}

/// The places of the glyphs of a font: those that its `loca` table names in
/// the format that its `head` table gives, and none where either is missing.
pub open spec fn font_offsets(tables: Map<u32, TableView>) -> Seq<int> {
    if tables.contains_key(LOCA) && loca_format(tables) is Some {
        glyph_offsets(tables[LOCA].raw_data, loca_format(tables)->0)
    } else {
        Seq::empty()
    }
}

/// The glyph stream of a font: its `glyf` table, and nothing where it has
/// none.
pub open spec fn font_glyf(tables: Map<u32, TableView>) -> Seq<u8> {
    if tables.contains_key(GLYF) {
        tables[GLYF].raw_data
    } else {
        Seq::empty()
    }
}

/// A `head` table that no longer says that instructions depend on the point
/// size, force whole sizes or alter the advance width.
pub open spec fn flags_cleared(head: Seq<u8>) -> Seq<u8>
    recommends
        head.len() >= 18,
{
    head.update(17, head[17] & 0xf1)
}

/// A `head` table with those flags cleared and with the `indexToLocFormat`
/// of the new `loca` table.
pub open spec fn head_after_rebuild(head: Seq<u8>, short: bool) -> Seq<u8>
    recommends
        head.len() >= 52,
{
    flags_cleared(head).update(50, 0u8).update(
        51,
        if short {
            0u8
        } else {
            1u8
        },
    )
}

/// The tables of a font with the instructions taken out of its glyphs.
///
/// A font that has glyphs in a glyph data format other than 0 is left as it
/// is. In any other font the hinting flags of `head` are cleared, where
/// `head` reaches to them; and where a glyph loses instructions, and the new
/// glyph stream is not beyond what 32-bit offsets reach, `glyf` and `loca`
/// are built anew and `head` names the new format of `loca`.
pub open spec fn with_glyphs_dehinted(tables: Map<u32, TableView>) -> Map<u32, TableView> {
    let offsets = font_offsets(tables);
    let glyf = font_glyf(tables);
    if glyph_count(offsets) > 0 && glyph_data_format(tables) != Some(0u16) {
        tables
    } else if rebuilds(glyf, offsets) {
        let stream = new_glyf(glyf, offsets);
        with_table_data(
            tables.insert(
                LOCA,
                fresh_table(new_loca(new_offsets(glyf, offsets), stream.len())),
            ).insert(GLYF, fresh_table(stream)),
            HEAD,
            head_after_rebuild(tables[HEAD].raw_data, stream.len() < SHORT_LIMIT),
        )
    } else if tables.contains_key(HEAD) && tables[HEAD].raw_data.len() >= 18 {
        with_table_data(tables, HEAD, flags_cleared(tables[HEAD].raw_data))
    } else {
        tables
    }
}

/// The font without hinting.
pub open spec fn without_font_hinting(font: SfntView) -> SfntView {
    SfntView { tables: with_glyphs_dehinted(without_hint_tables(font.tables)), ..font }
}

/// The container with the hinting of every font removed.
pub open spec fn without_hinting(ttc: TTCView) -> TTCView {
    TTCView { fonts: each_font(ttc.fonts, |f: SfntView| without_font_hinting(f)), ..ttc }
}

fn drop_hint_tables(tables: &mut TableMap)
    ensures
        final(tables)@ == without_hint_tables(old(tables)@),
{
    tables.remove(&FourCC::from_value(CVAR));
    tables.remove(&FourCC::from_value(CVT));
    tables.remove(&FourCC::from_value(FPGM));
    tables.remove(&FourCC::from_value(HDMX));
    tables.insert(FourCC::from_value(PREP), TableRecord::new(make_prep_program()));
    let maxp_tag = FourCC::from_value(MAXP);
    let patched = match tables.get(&maxp_tag) {
        Some(maxp) => {
            let mut data = copy_bytes(maxp.raw_data.as_slice());
            let zones: [u8; 2] = [0, 1];
            let none: [u8; 8] = [0, 0, 0, 0, 0, 0, 0, 0];
            let stack: [u8; 2] = [0, 2];
            let size: [u8; 2] = [0, 15];
            assert(zones@ =~= seq![0u8, 1u8]);
            assert(none@ =~= seq![0u8, 0u8, 0u8, 0u8, 0u8, 0u8, 0u8, 0u8]);
            assert(stack@ =~= seq![0u8, 2u8]);
            assert(size@ =~= seq![0u8, 15u8]);
            put_bytes(&mut data, 14, zones.as_slice());
            put_bytes(&mut data, 16, none.as_slice());
            put_bytes(&mut data, 24, stack.as_slice());
            put_bytes(&mut data, 26, size.as_slice());
            Some(maxp.with_data(data))
        },
        None => None,
    };
    match patched {
        Some(record) => {
            tables.insert(maxp_tag, record);
        },
        None => {},
    }
    tables.remove(&FourCC::from_value(LTSH));
    tables.remove(&FourCC::from_value(VDMX));
}

/// The two format fields of the `head` table that say how `loca` and `glyf`
/// are to be read.
pub(crate) fn glyph_formats(tables: &TableMap) -> (formats: (Option<u16>, Option<u16>))
    ensures
        formats.0 == loca_format(tables@),
        formats.1 == glyph_data_format(tables@),
{
    match tables.get(&FourCC::from_value(HEAD)) {
        Some(head) => (
            read_u16(head.raw_data.as_slice(), 50),
            read_u16(head.raw_data.as_slice(), 52),
        ),
        None => (None, None),
    }
}

/// The places of the glyphs of a font.
pub(crate) fn read_font_offsets(tables: &TableMap, format: Option<u16>) -> (offsets: Vec<usize>)
    requires
        format == loca_format(tables@),
    ensures
        places(offsets@) == font_offsets(tables@),
{
    let offsets: Vec<usize> = match tables.get(&FourCC::from_value(LOCA)) {
        Some(loca) => match format {
            Some(format) => read_offsets(loca.raw_data.as_slice(), format),
            None => Vec::new(),
        },
        None => Vec::new(),
    };
    assert(places(offsets@) =~= font_offsets(tables@));
    offsets
}

/// The new glyph stream of a font and the places of its glyphs, where the
/// glyph tables are built anew.
pub(crate) fn rebuild_font_glyphs(tables: &TableMap, offsets: &Vec<usize>) -> (r: Option<
    (Vec<u8>, Vec<usize>),
>)
    ensures
        match r {
            Some((stream, starts)) => rebuilds(font_glyf(tables@), places(offsets@)) && stream@
                == new_glyf(font_glyf(tables@), places(offsets@)) && places(starts@)
                == new_offsets(font_glyf(tables@), places(offsets@)),
            None => !rebuilds(font_glyf(tables@), places(offsets@)),
        },
{
    match tables.get(&FourCC::from_value(GLYF)) {
        Some(glyf) => rebuild_glyphs(glyf.raw_data.as_slice(), offsets),
        None => {
            let empty: Vec<u8> = Vec::new();
            assert(empty@ =~= font_glyf(tables@));
            rebuild_glyphs(empty.as_slice(), offsets)
        },
    }
}

/// The `head` table with its hinting flags cleared and, where `format` is
/// given, with that `indexToLocFormat`; `None` where the font has no `head`
/// table that reaches to the flags.
fn cleared_head(tables: &TableMap, format: Option<u8>) -> (r: Option<TableRecord>)
    requires
        format is Some ==> tables@.contains_key(HEAD) && tables@[HEAD].raw_data.len() >= 52,
    ensures
        match r {
            Some(record) => tables@.contains_key(HEAD) && tables@[HEAD].raw_data.len() >= 18
                && record@ == (TableView {
                raw_data: match format {
                    Some(f) => flags_cleared(tables@[HEAD].raw_data).update(50, 0u8).update(51, f),
                    None => flags_cleared(tables@[HEAD].raw_data),
                },
                ..tables@[HEAD]
            }),
            None => !(tables@.contains_key(HEAD) && tables@[HEAD].raw_data.len() >= 18),
        },
{
    match tables.get(&FourCC::from_value(HEAD)) {
        Some(head) => {
            if head.raw_data.len() >= 18 {
                let mut data = copy_bytes(head.raw_data.as_slice());
                let flags = data[17];
                data[17] = flags & 0xf1;
                match format {
                    Some(f) => {
                        data[50] = 0;
                        data[51] = f;
                    },
                    None => {},
                }
                Some(head.with_data(data))
            } else {
                None
            }
        },
        None => None,
    }
}

/// Puts the new `glyf` and `loca` tables in place of the old and brings
/// `head` in line with them.
fn put_rebuilt_glyphs(tables: &mut TableMap, stream: Vec<u8>, starts: Vec<usize>)
    requires
        old(tables)@.contains_key(HEAD),
        old(tables)@[HEAD].raw_data.len() >= 52,
        stream@.len() <= crate::outlines::LONG_LIMIT,
        forall|i: int| 0 <= i < starts@.len() ==> starts@[i] <= stream@.len(),
    ensures
        final(tables)@ == with_table_data(
            old(tables)@.insert(
                LOCA,
                fresh_table(new_loca(places(starts@), stream@.len())),
            ).insert(GLYF, fresh_table(stream@)),
            HEAD,
            head_after_rebuild(old(tables)@[HEAD].raw_data, stream@.len() < SHORT_LIMIT),
        ),
{
    let format: u8 = if stream.len() < SHORT_LIMIT {
        0
    } else {
        1
    };
    let head = cleared_head(tables, Some(format));
    let loca = encode_loca(&starts, stream.len());
    tables.insert(FourCC::from_value(LOCA), TableRecord::new(loca));
    tables.insert(FourCC::from_value(GLYF), TableRecord::new(stream));
    match head {
        Some(record) => {
            tables.insert(FourCC::from_value(HEAD), record);
        },
        None => {},
    }
}

/// Clears the hinting flags of `head`, where the font has a `head` table
/// that reaches to them.
fn clear_head_flags(tables: &mut TableMap)
    ensures
        final(tables)@ == (if old(tables)@.contains_key(HEAD) && old(tables)@[HEAD].raw_data.len()
            >= 18 {
            with_table_data(old(tables)@, HEAD, flags_cleared(old(tables)@[HEAD].raw_data))
        } else {
            old(tables)@
        }),
{
    match cleared_head(tables, None) {
        Some(record) => {
            tables.insert(FourCC::from_value(HEAD), record);
        },
        None => {},
    }
}

fn dehint_glyphs(tables: &mut TableMap)
    ensures
        final(tables)@ == with_glyphs_dehinted(old(tables)@),
{
    let (loca_format, glyph_format) = glyph_formats(tables);
    let offsets = read_font_offsets(tables, loca_format);
    assert(places(offsets@).len() == offsets@.len());
    if offsets.len() > 1 {
        match glyph_format {
            Some(format) => {
                if format != 0 {
                    return ;
                }
            },
            None => {
                return ;
            },
        }
    }
    match rebuild_font_glyphs(tables, &offsets) {
        Some((stream, starts)) => {
            proof {
                lemma_new_offsets_bounded(font_glyf(tables@), font_offsets(tables@));
                lemma_rebuilds_needs_glyphs(font_glyf(tables@), font_offsets(tables@));
                assert forall|i: int| 0 <= i < starts@.len() implies starts@[i]
                    <= stream@.len() by {
                    assert(places(starts@)[i] == starts@[i]);
                }
            }
            put_rebuilt_glyphs(tables, stream, starts);
        },
        None => {
            clear_head_flags(tables);
        },
    }
}

fn remove_hinting_font(sfnt: &mut SfntHeader)
    ensures
        final(sfnt)@ == without_font_hinting(old(sfnt)@),
{
    drop_hint_tables(&mut sfnt.table_records);
    dehint_glyphs(&mut sfnt.table_records);
}

/// Removes the hinting of every font: the tables that only serve hinting,
/// and the instructions of each glyph. The control value program that is put
/// in turns grid-fitting off, so that instructions that stay do nothing.
pub fn remove_hinting(ttc: &mut TTCHeader)
    ensures
        final(ttc)@ == without_hinting(old(ttc)@),
{
    let n = ttc.table_directories.len();
    let mut i: usize = 0;
    while i < n
        invariant
            0 <= i <= n,
            n == old(ttc).table_directories@.len(),
            n == ttc.table_directories@.len(),
            ttc.ttc_tag == old(ttc).ttc_tag,
            ttc.major_version == old(ttc).major_version,
            ttc.minor_version == old(ttc).minor_version,
            ttc.dsig_tag == old(ttc).dsig_tag,
            ttc.dsig_data == old(ttc).dsig_data,
            forall|j: int|
                0 <= j < i ==> ttc.table_directories@[j]@ == without_font_hinting(
                    old(ttc).table_directories@[j]@,
                ),
            forall|j: int|
                i <= j < n ==> ttc.table_directories@[j]@ == old(ttc).table_directories@[j]@,
        decreases n - i,
    {
        remove_hinting_font(&mut ttc.table_directories[i]);
        i += 1;
    }
    assert(ttc@.fonts =~= without_hinting(old(ttc)@).fonts);
}

} // verus!
