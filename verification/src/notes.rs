//! What removing the hinting finds amiss in the glyph tables of a font, and
//! what it does about them, for those who want to tell the user.

use crate::glyph::{loses_instructions, strip_glyph, stripped};
use crate::modify::{
    font_glyf, font_offsets, glyph_data_format, glyph_formats, loca_format, read_font_offsets,
    rebuild_font_glyphs,
};
use crate::outlines::{any_hinted, glyph_bytes, glyph_count, places, rebuilds};
use crate::tables::{TableMap, TableView};
use crate::tag::{FourCC, GLYF, LOCA};
use crate::types::{SfntView, TTCHeader};
use vstd::prelude::*;

verus! {

/// One thing to tell about a font, named by its place in the container.
#[derive(Clone, Copy, Debug, PartialEq, Eq, Structural)]
pub enum Note {
    /// The length of the `loca` table is not a multiple of the size of its
    /// entries, `unit`; the rest is left out.
    LocaLength { font: usize, length: usize, unit: usize },
    /// The `head` table names an `indexToLocFormat` other than 0 and 1; the
    /// font is taken to have no glyphs.
    UnknownLocaFormat { font: usize, format: u16 },
    /// The `head` table is missing or does not reach to its
    /// `indexToLocFormat`; the font is taken to have no glyphs.
    NoLocaFormat { font: usize },
    /// The `loca` table gives a glyph places that are in the wrong order or
    /// beyond the `glyf` table; the glyph is taken as empty.
    GlyphRange { font: usize, glyph: usize, from: usize, to: usize },
    /// The `head` table names a `glyphDataFormat` other than 0; the glyphs
    /// are left as they are.
    UnknownGlyphFormat { font: usize, format: u16 },
    /// The `head` table does not reach to its `glyphDataFormat`; the glyphs
    /// are left as they are.
    NoGlyphFormat { font: usize },
    /// A glyph is cut short; it is kept as it is.
    GlyphCutShort { font: usize, glyph: usize },
    /// Glyphs had instructions; `glyf` and `loca` are built anew.
    Rebuilt { font: usize },
    /// Glyphs had instructions, but the new glyph stream would be longer
    /// than 32-bit offsets reach; `glyf` and `loca` are left as they are.
    TooLong { font: usize },
}

/// What there is to tell of the `loca` table of a font.
pub open spec fn loca_notes(font: int, tables: Map<u32, TableView>) -> Seq<Note> {
    if !tables.contains_key(LOCA) {
        Seq::empty()
    } else {
        let length = tables[LOCA].raw_data.len();
        match loca_format(tables) {
            None => seq![Note::NoLocaFormat { font: font as usize }],
            Some(format) => if format == 0 {
                if length % 2 != 0 {
                    seq![Note::LocaLength { font: font as usize, length: length as usize, unit: 2 }]
                } else {
                    Seq::empty()
                }
            } else if format == 1 {
                if length % 4 != 0 {
                    seq![Note::LocaLength { font: font as usize, length: length as usize, unit: 4 }]
                } else {
                    Seq::empty()
                }
            } else {
                seq![Note::UnknownLocaFormat { font: font as usize, format }]
            },
        }
    }
}

/// Whether glyph `i` has places in the right order and within a `glyf`
/// table of the given length.
pub open spec fn in_range(length: int, offsets: Seq<int>, i: int) -> bool {
    offsets[i] <= offsets[i + 1] <= length
}

/// A note for each of the first `n` glyphs whose places are out of range,
/// in the order of the glyphs.
pub open spec fn range_notes(font: int, length: int, offsets: Seq<int>, n: nat) -> Seq<Note>
    decreases n,
{
    if n == 0 {
        Seq::empty()
    } else {
        let before = range_notes(font, length, offsets, (n - 1) as nat);
        if in_range(length, offsets, n - 1) {
            before
        } else {
            before.push(
                Note::GlyphRange {
                    font: font as usize,
                    glyph: (n - 1) as usize,
                    from: offsets[n - 1] as usize,
                    to: offsets[n as int] as usize,
                },
            )
        }
    }
}

/// Whether glyph `i` holds bytes, but not a whole glyph.
pub open spec fn cut_short(glyf: Seq<u8>, offsets: Seq<int>, i: int) -> bool {
    glyph_bytes(glyf, offsets, i).len() > 0 && stripped(glyph_bytes(glyf, offsets, i)) is None
}

/// A note for each of the first `n` glyphs that is cut short, in the order
/// of the glyphs.
pub open spec fn cut_short_notes(font: int, glyf: Seq<u8>, offsets: Seq<int>, n: nat) -> Seq<
    Note,
>
    decreases n,
{
    if n == 0 {
        Seq::empty()
    } else {
        let before = cut_short_notes(font, glyf, offsets, (n - 1) as nat);
        if cut_short(glyf, offsets, n - 1) {
            before.push(Note::GlyphCutShort { font: font as usize, glyph: (n - 1) as usize })
        } else {
            before
        }
    }
}

/// What becomes of the glyph tables of a font whose glyphs are in the
/// format that is understood.
pub open spec fn outcome_notes(font: int, glyf: Seq<u8>, offsets: Seq<int>) -> Seq<Note> {
    if rebuilds(glyf, offsets) {
        seq![Note::Rebuilt { font: font as usize }]
    } else if any_hinted(glyf, offsets, glyph_count(offsets) as int) {
        seq![Note::TooLong { font: font as usize }]
    } else {
        Seq::empty()
    }
}

/// What there is to tell of the glyphs of a font once their places are
/// known.
pub open spec fn glyph_notes(font: int, tables: Map<u32, TableView>) -> Seq<Note> {
    let offsets = font_offsets(tables);
    let glyf = font_glyf(tables);
    let n = glyph_count(offsets);
    if n > 0 && glyph_data_format(tables) != Some(0u16) {
        match glyph_data_format(tables) {
            Some(format) => seq![Note::UnknownGlyphFormat { font: font as usize, format }],
            None => seq![Note::NoGlyphFormat { font: font as usize }],
        }
    } else {
        cut_short_notes(font, glyf, offsets, n) + outcome_notes(font, glyf, offsets)
    }
}

/// What there is to tell of the font at place `font` of its container:
/// first of its `loca` table, then of the places of its glyphs, then of the
/// glyphs themselves and of what becomes of them.
pub open spec fn font_notes(font: int, tables: Map<u32, TableView>) -> Seq<Note> {
    loca_notes(font, tables) + range_notes(
        font,
        font_glyf(tables).len() as int,
        font_offsets(tables),
        glyph_count(font_offsets(tables)),
    ) + glyph_notes(font, tables)
}

/// What there is to tell of the first `n` fonts, in their order.
pub open spec fn container_notes(fonts: Seq<SfntView>, n: nat) -> Seq<Note>
    decreases n,
{
    if n == 0 {
        Seq::empty()
    } else {
        container_notes(fonts, (n - 1) as nat) + font_notes(n - 1, fonts[n - 1].tables)
    }
}

fn note_loca(font: usize, tables: &TableMap, format: Option<u16>, notes: &mut Vec<Note>)
    requires
        format == loca_format(tables@),
    ensures
        final(notes)@ == old(notes)@ + loca_notes(font as int, tables@),
{
    let ghost before = notes@;
    match tables.get(&FourCC::from_value(LOCA)) {
        Some(loca) => {
            let length = loca.raw_data.len();
            match format {
                None => {
                    notes.push(Note::NoLocaFormat { font });
                },
                Some(format) => {
                    if format == 0 {
                        if length % 2 != 0 {
                            notes.push(Note::LocaLength { font, length, unit: 2 });
                        }
                    } else if format == 1 {
                        if length % 4 != 0 {
                            notes.push(Note::LocaLength { font, length, unit: 4 });
                        }
                    } else {
                        notes.push(Note::UnknownLocaFormat { font, format });
                    }
                },
            }
        },
        None => {},
    }
    assert(notes@ =~= before + loca_notes(font as int, tables@));
}

fn glyf_len(tables: &TableMap) -> (length: usize)
    ensures
        length == font_glyf(tables@).len(),
{
    match tables.get(&FourCC::from_value(GLYF)) {
        Some(glyf) => glyf.raw_data.len(),
        None => 0,
    }
}

#[verifier::loop_isolation(false)]
fn note_ranges(font: usize, length: usize, offsets: &Vec<usize>, notes: &mut Vec<Note>)
    ensures
        final(notes)@ == old(notes)@ + range_notes(
            font as int,
            length as int,
            places(offsets@),
            glyph_count(places(offsets@)),
        ),
{
    let ghost before = notes@;
    let ghost offs = places(offsets@);
    let count: usize = if offsets.len() == 0 {
        0
    } else {
        offsets.len() - 1
    };
    let mut i: usize = 0;
    assert(before + range_notes(font as int, length as int, offs, 0) =~= before);
    while i < count
        invariant
            0 <= i <= count,
            count == glyph_count(offs),
            notes@ == before + range_notes(font as int, length as int, offs, i as nat),
        decreases count - i,
    {
        let from = offsets[i];
        let to = offsets[i + 1];
        let ghost earlier = range_notes(font as int, length as int, offs, i as nat);
        if !(from <= to && to <= length) {
            notes.push(Note::GlyphRange { font, glyph: i, from, to });
            assert(notes@ =~= before + earlier.push(
                Note::GlyphRange { font, glyph: i, from, to },
            ));
        }
        i += 1;
    }
}

/// Notes the glyphs that are cut short, and says whether a glyph loses
/// instructions.
#[verifier::loop_isolation(false)]
fn note_cut_short(font: usize, glyf: &[u8], offsets: &Vec<usize>, notes: &mut Vec<Note>) -> (hinted:
    bool)
    ensures
        final(notes)@ == old(notes)@ + cut_short_notes(
            font as int,
            glyf@,
            places(offsets@),
            glyph_count(places(offsets@)),
        ),
        hinted == any_hinted(glyf@, places(offsets@), glyph_count(places(offsets@)) as int),
{
    let ghost before = notes@;
    let ghost offs = places(offsets@);
    let count: usize = if offsets.len() == 0 {
        0
    } else {
        offsets.len() - 1
    };
    let mut hinted = false;
    let mut i: usize = 0;
    assert(before + cut_short_notes(font as int, glyf@, offs, 0) =~= before);
    while i < count
        invariant
            0 <= i <= count,
            count == glyph_count(offs),
            notes@ == before + cut_short_notes(font as int, glyf@, offs, i as nat),
            hinted == any_hinted(glyf@, offs, i as int),
        decreases count - i,
    {
        let from = offsets[i];
        let to = offsets[i + 1];
        let ghost g = glyph_bytes(glyf@, offs, i as int);
        let ghost earlier = cut_short_notes(font as int, glyf@, offs, i as nat);
        let mut lost = false;
        if from < to && to <= glyf.len() {
            let glyph = vstd::slice::slice_subrange(glyf, from, to);
            assert(glyph@ == g);
            match strip_glyph(glyph) {
                Some((_, had)) => {
                    lost = had;
                },
                None => {
                    notes.push(Note::GlyphCutShort { font, glyph: i });
                    assert(notes@ =~= before + earlier.push(
                        Note::GlyphCutShort { font, glyph: i },
                    ));
                },
            }
        } else {
            assert(g.len() == 0);
            assert(stripped(g) is None);
        }
        assert(lost == loses_instructions(g));
        proof {
            if any_hinted(glyf@, offs, i + 1) {
                let k = choose|k: int|
                    0 <= k < i + 1 && loses_instructions(#[trigger] glyph_bytes(glyf@, offs, k));
                if k < i {
                    assert(any_hinted(glyf@, offs, i as int));
                }
            }
        }
        hinted = hinted || lost;
        i += 1;
    }
    hinted
}

fn note_glyphs(font: usize, tables: &TableMap, offsets: &Vec<usize>, format: Option<u16>, notes: &mut Vec<Note>)
    requires
        places(offsets@) == font_offsets(tables@),
        format == glyph_data_format(tables@),
    ensures
        final(notes)@ == old(notes)@ + glyph_notes(font as int, tables@),
{
    let ghost before = notes@;
    if offsets.len() > 1 {
        match format {
            Some(format) => {
                if format != 0 {
                    notes.push(Note::UnknownGlyphFormat { font, format });
                    assert(notes@ =~= before + glyph_notes(font as int, tables@));
                    return ;
                }
            },
            None => {
                notes.push(Note::NoGlyphFormat { font });
                assert(notes@ =~= before + glyph_notes(font as int, tables@));
                return ;
            },
        }
    }
    let ghost glyf = font_glyf(tables@);
    let ghost offs = font_offsets(tables@);
    let hinted = match tables.get(&FourCC::from_value(GLYF)) {
        Some(table) => note_cut_short(font, table.raw_data.as_slice(), offsets, notes),
        None => {
            let empty: Vec<u8> = Vec::new();
            assert(empty@ =~= glyf);
            note_cut_short(font, empty.as_slice(), offsets, notes)
        },
    };
    let ghost cut = cut_short_notes(font as int, glyf, offs, glyph_count(offs));
    assert(notes@ == before + cut);
    if hinted {
        match rebuild_font_glyphs(tables, offsets) {
            Some(_) => {
                notes.push(Note::Rebuilt { font });
            },
            None => {
                notes.push(Note::TooLong { font });
            },
        }
    }
    assert(notes@ =~= before + (cut + outcome_notes(font as int, glyf, offs)));
}

fn note_font(font: usize, tables: &TableMap, notes: &mut Vec<Note>)
    ensures
        final(notes)@ == old(notes)@ + font_notes(font as int, tables@),
{
    let ghost before = notes@;
    let (loca_format, glyph_format) = glyph_formats(tables);
    let offsets = read_font_offsets(tables, loca_format);
    note_loca(font, tables, loca_format, notes);
    let ghost first = loca_notes(font as int, tables@);
    note_ranges(font, glyf_len(tables), &offsets, notes);
    let ghost second = range_notes(
        font as int,
        font_glyf(tables@).len() as int,
        font_offsets(tables@),
        glyph_count(font_offsets(tables@)),
    );
    assert(notes@ == before + first + second);
    note_glyphs(font, tables, &offsets, glyph_format, notes);
    let ghost third = glyph_notes(font as int, tables@);
    assert(before + first + second + third =~= before + (first + second + third));
}

/// What removing the hinting of the container will find amiss in the glyph
/// tables of its fonts, and what it will do about them. The container stays
/// as it is.
pub fn hinting_notes(ttc: &TTCHeader) -> (notes: Vec<Note>)
    ensures
        notes@ == container_notes(ttc@.fonts, ttc@.fonts.len()),
{
    let mut notes: Vec<Note> = Vec::new();
    let n = ttc.table_directories.len();
    let mut i: usize = 0;
    while i < n
        invariant
            0 <= i <= n,
            n == ttc.table_directories@.len(),
            notes@ == container_notes(ttc@.fonts, i as nat),
        decreases n - i,
    {
        assert(ttc@.fonts[i as int] == ttc.table_directories@[i as int]@);
        note_font(i, &ttc.table_directories[i].table_records, &mut notes);
        i += 1;
    }
    notes
}

} // verus!
