//! What holds of the changes when they are made twice, or one after the
//! other.

use crate::glyph::{
    dehinted, lemma_stripped_extended, lemma_stripped_twice, loses_instructions, stripped,
};
use crate::layout::stored_bytes;
use crate::modify::{
    dsig_stub, each_font, flags_cleared, font_glyf, font_offsets, gasp_table, glyph_data_format,
    head_after_rebuild, loca_format, patched_head, patched_maxp, prep_program, with_dsig_stub,
    with_gasp, with_gasp_table, with_glyphs_dehinted, with_head_patched, with_patched_head,
    with_table_data, without_bitmap, without_bitmap_tables, without_dsig, without_dsig_table,
    without_font_hinting, without_hint_tables, without_hinting,
};
use crate::outlines::{
    any_hinted, glyph_bytes, glyph_count, glyph_offsets, lemma_glyph_repacked,
    lemma_long_loca_read_back, lemma_new_offsets_bounded, lemma_short_loca_read_back, new_glyf,
    new_loca, new_loca_format, new_offsets, rebuilds, SHORT_LIMIT,
};
use crate::round_trip::{
    container_read_back, lemma_collection_error_of_stored,
    lemma_collection_image_of_stored, lemma_image_of_stored, lemma_items_of_stored,
    lemma_read_back_stored, lemma_written_file_is_copied, read_back, same_stored_fonts,
};
use crate::tables::{fresh_table, TableView};
use crate::tag::{
    BDAT, BLOC, CVAR, CVT, DSIG, EBDT, EBLC, EBSC, FPGM, GASP, GLYF, HDMX, HEAD, LOCA, LTSH, MAXP,
    PREP, TRUE, TRUETYPE, VDMX,
};
use crate::ttc_reader::{is_as_read, known_version, parse_container, ReadError};
use crate::types::{SfntView, TTCView};
use vstd::prelude::*;

verus! {

/// The new `loca` table reads back as the places of the new glyphs.
pub proof fn lemma_new_loca_read_back(glyf: Seq<u8>, offsets: Seq<int>)
    requires
        rebuilds(glyf, offsets),
    ensures
        glyph_offsets(
            new_loca(new_offsets(glyf, offsets), new_glyf(glyf, offsets).len()),
            new_loca_format(new_glyf(glyf, offsets).len()),
        ) == new_offsets(glyf, offsets),
{
    let stream = new_glyf(glyf, offsets);
    let places = new_offsets(glyf, offsets);
    let n = glyph_count(offsets);
    lemma_new_offsets_bounded(glyf, offsets);
    if stream.len() < SHORT_LIMIT {
        assert forall|i: int| 0 <= i < places.len() implies 0 <= #[trigger] places[i] < SHORT_LIMIT
            && places[i] % 2 == 0 by {
            if i < n {
                lemma_glyph_repacked(glyf, offsets, i);
            }
        }
        lemma_short_loca_read_back(places);
    } else {
        lemma_long_loca_read_back(places);
    }
}

/// Whether no glyph that is cut short reads as a whole glyph with
/// instructions once it stands in the new glyph stream, where a zero byte
/// may follow it to bring the next glyph to an even place.
pub open spec fn padding_mends_no_glyph(glyf: Seq<u8>, offsets: Seq<int>) -> bool {
    forall|i: int|
        0 <= i < glyph_count(offsets) && stripped(#[trigger] glyph_bytes(glyf, offsets, i))
            is None ==> !loses_instructions(
            glyph_bytes(new_glyf(glyf, offsets), new_offsets(glyf, offsets), i),
        )
}

/// No glyph of the new tables loses instructions when it is dehinted
/// again.
pub proof fn lemma_new_glyphs_are_clean(glyf: Seq<u8>, offsets: Seq<int>)
    requires
        padding_mends_no_glyph(glyf, offsets),
    ensures
        !any_hinted(
            new_glyf(glyf, offsets),
            new_offsets(glyf, offsets),
            glyph_count(offsets) as int,
        ),
{
    let stream = new_glyf(glyf, offsets);
    let places = new_offsets(glyf, offsets);
    assert forall|i: int| 0 <= i < glyph_count(offsets) implies !loses_instructions(
        #[trigger] glyph_bytes(stream, places, i),
    ) by {
        let old = glyph_bytes(glyf, offsets, i);
        let new = glyph_bytes(stream, places, i);
        lemma_glyph_repacked(glyf, offsets, i);
        if stripped(old) is Some {
            let plain = dehinted(old);
            lemma_stripped_twice(old);
            assert(stripped(plain) == Some(plain));
            if new != plain {
                assert(plain.push(0u8) =~= plain + seq![0u8]);
                lemma_stripped_extended(plain, seq![0u8]);
            }
        }
    }
}

/// Whether the glyphs of a font are such that dehinting them twice is
/// dehinting them once: where the glyph tables are built anew, no glyph
/// that is cut short is made whole by the zero byte that may follow it in
/// the new stream.
pub open spec fn dehints_once(tables: Map<u32, TableView>) -> bool {
    glyph_data_format(tables) == Some(0u16) && rebuilds(font_glyf(tables), font_offsets(tables))
        ==> padding_mends_no_glyph(font_glyf(tables), font_offsets(tables))
}

/// Clearing the hinting flags of a `head` table twice is clearing them
/// once.
pub proof fn lemma_flags_cleared_twice(head: Seq<u8>)
    requires
        head.len() >= 18,
    ensures
        flags_cleared(flags_cleared(head)) == flags_cleared(head),
{
    let x = head[17];
    assert((x & 0xf1) & 0xf1 == x & 0xf1) by (bit_vector);
    assert(flags_cleared(flags_cleared(head)) =~= flags_cleared(head));
}

/// Taking the instructions out of the glyphs of a font twice gives what
/// taking them out once gives.
pub proof fn lemma_glyphs_dehinted_twice(tables: Map<u32, TableView>)
    requires
        dehints_once(tables),
    ensures
        with_glyphs_dehinted(with_glyphs_dehinted(tables)) == with_glyphs_dehinted(tables),
{
    let offsets = font_offsets(tables);
    let glyf = font_glyf(tables);
    let once = with_glyphs_dehinted(tables);
    if glyph_count(offsets) > 0 && glyph_data_format(tables) != Some(0u16) {
    } else if rebuilds(glyf, offsets) {
        lemma_rebuilt_once(tables);
    } else if tables.contains_key(HEAD) && tables[HEAD].raw_data.len() >= 18 {
        let head = tables[HEAD].raw_data;
        let cleared = flags_cleared(head);
        lemma_flags_cleared_twice(head);
        assert(once[HEAD].raw_data == cleared);
        assert(loca_format(once) == loca_format(tables)) by {
            if head.len() >= 52 {
                assert(cleared[50] == head[50] && cleared[51] == head[51]);
            }
        }
        assert(glyph_data_format(once) == glyph_data_format(tables)) by {
            if head.len() >= 54 {
                assert(cleared[52] == head[52] && cleared[53] == head[53]);
            }
        }
        assert(font_offsets(once) == offsets);
        assert(font_glyf(once) == glyf);
        assert(with_glyphs_dehinted(once) =~= once);
    } else {
    }
}

/// Where the glyph tables of a font are built anew, the new tables read
/// as the new glyph stream and the places of the new glyphs, in the glyph
/// data format that is understood.
pub proof fn lemma_rebuilt_tables(tables: Map<u32, TableView>)
    requires
        !(glyph_count(font_offsets(tables)) > 0 && glyph_data_format(tables) != Some(0u16)),
        rebuilds(font_glyf(tables), font_offsets(tables)),
    ensures
        tables.contains_key(HEAD),
        tables[HEAD].raw_data.len() >= 54,
        with_glyphs_dehinted(tables)[HEAD].raw_data == head_after_rebuild(
            tables[HEAD].raw_data,
            new_glyf(font_glyf(tables), font_offsets(tables)).len() < SHORT_LIMIT,
        ),
        glyph_data_format(with_glyphs_dehinted(tables)) == Some(0u16),
        font_glyf(with_glyphs_dehinted(tables)) == new_glyf(
            font_glyf(tables),
            font_offsets(tables),
        ),
        font_offsets(with_glyphs_dehinted(tables)) == new_offsets(
            font_glyf(tables),
            font_offsets(tables),
        ),
{
    let offsets = font_offsets(tables);
    let glyf = font_glyf(tables);
    let once = with_glyphs_dehinted(tables);
    let stream = new_glyf(glyf, offsets);
    let places = new_offsets(glyf, offsets);
    let short = stream.len() < SHORT_LIMIT;
    assert(glyph_count(offsets) > 0);
    assert(offsets.len() > 0);
    assert(glyph_data_format(tables) == Some(0u16));
    let head = tables[HEAD].raw_data;
    let new_head = head_after_rebuild(head, short);
    assert(head.len() >= 54);
    assert(once[HEAD].raw_data == new_head);
    assert(once[LOCA].raw_data == new_loca(places, stream.len()));
    assert(once[GLYF].raw_data == stream);
    assert(new_head.len() == head.len());
    assert(new_head[50] == 0 && new_head[51] == (if short {
        0u8
    } else {
        1u8
    }));
    assert(new_head[52] == head[52] && new_head[53] == head[53]);
    assert(loca_format(once) == Some(new_loca_format(stream.len())));
    lemma_new_loca_read_back(glyf, offsets);
}

/// What removing the hinting keeps of the glyphs: where the glyph tables
/// of a font are built anew, the new tables have as many glyphs as the old,
/// and each glyph is the old glyph without its instructions, with at most
/// one zero byte after it. A glyph that is cut short is kept as it is.
pub proof fn lemma_hinting_keeps_glyphs(tables: Map<u32, TableView>, i: int)
    requires
        !(glyph_count(font_offsets(tables)) > 0 && glyph_data_format(tables) != Some(0u16)),
        rebuilds(font_glyf(tables), font_offsets(tables)),
        0 <= i < glyph_count(font_offsets(tables)),
    ensures
        ({
            let new = with_glyphs_dehinted(tables);
            let glyph = dehinted(glyph_bytes(font_glyf(tables), font_offsets(tables), i));
            let found = glyph_bytes(font_glyf(new), font_offsets(new), i);
            &&& glyph_count(font_offsets(new)) == glyph_count(font_offsets(tables))
            &&& (found == glyph || found == glyph.push(0u8))
        }),
{
    lemma_rebuilt_tables(tables);
    lemma_glyph_repacked(font_glyf(tables), font_offsets(tables), i);
}

/// Where the glyph tables of a font are built anew, taking the
/// instructions out of the new glyphs changes nothing.
pub proof fn lemma_rebuilt_once(tables: Map<u32, TableView>)
    requires
        dehints_once(tables),
        !(glyph_count(font_offsets(tables)) > 0 && glyph_data_format(tables) != Some(0u16)),
        rebuilds(font_glyf(tables), font_offsets(tables)),
    ensures
        with_glyphs_dehinted(with_glyphs_dehinted(tables)) == with_glyphs_dehinted(tables),
{
    let offsets = font_offsets(tables);
    let glyf = font_glyf(tables);
    let once = with_glyphs_dehinted(tables);
    let stream = new_glyf(glyf, offsets);
    let places = new_offsets(glyf, offsets);
    let head = tables[HEAD].raw_data;
    let new_head = once[HEAD].raw_data;
    lemma_rebuilt_tables(tables);
    lemma_new_glyphs_are_clean(glyf, offsets);
    assert(glyph_count(places) == glyph_count(offsets));
    assert(!rebuilds(stream, places));
    lemma_flags_cleared_twice(head);
    assert(flags_cleared(new_head) =~= new_head) by {
        assert(new_head[17] == flags_cleared(head)[17]);
        assert(flags_cleared(flags_cleared(head))[17] == flags_cleared(head)[17]);
    }
    assert(with_glyphs_dehinted(once) =~= once);
}

/// Writing the fields of the `maxp` table twice is writing them once.
pub proof fn lemma_patched_maxp_twice(maxp: Seq<u8>)
    ensures
        patched_maxp(patched_maxp(maxp)) == patched_maxp(maxp),
{
    assert(patched_maxp(patched_maxp(maxp)) =~= patched_maxp(maxp));
}

/// Taking the hint tables out of a font twice gives what taking them out
/// once gives.
pub proof fn lemma_hint_tables_twice(tables: Map<u32, TableView>)
    ensures
        without_hint_tables(without_hint_tables(tables)) == without_hint_tables(tables),
{
    let once = without_hint_tables(tables);
    if once.contains_key(MAXP) {
        lemma_patched_maxp_twice(tables[MAXP].raw_data);
    }
    assert(without_hint_tables(once) =~= once);
}

/// Removing the hinting of a font twice gives what removing it once gives,
/// as long as the padding of the new glyph stream makes no glyph whole that
/// was cut short.
pub proof fn lemma_font_hinting_twice(font: SfntView)
    requires
        dehints_once(font.tables),
    ensures
        without_font_hinting(without_font_hinting(font)) == without_font_hinting(font),
{
    let kept = without_hint_tables(font.tables);
    let once = with_glyphs_dehinted(kept);
    lemma_hint_tables_twice(font.tables);
    assert(same_glyph_tables(font.tables, kept));
    lemma_dehinted_same_glyphs(font.tables, kept);
    lemma_glyphs_dehinted_twice(kept);
    lemma_dehinted_elsewhere(kept, CVAR);
    lemma_dehinted_elsewhere(kept, CVT);
    lemma_dehinted_elsewhere(kept, FPGM);
    lemma_dehinted_elsewhere(kept, HDMX);
    lemma_dehinted_elsewhere(kept, LTSH);
    lemma_dehinted_elsewhere(kept, VDMX);
    lemma_dehinted_elsewhere(kept, PREP);
    lemma_dehinted_elsewhere(kept, MAXP);
    if kept.contains_key(MAXP) {
        lemma_patched_maxp_twice(font.tables[MAXP].raw_data);
    }
    assert(without_hint_tables(once) =~= once);
}

/// Whether two fonts have the same `head`, `loca` and `glyf` tables, which
/// are the tables that say what the glyphs are.
pub open spec fn same_glyph_tables(a: Map<u32, TableView>, b: Map<u32, TableView>) -> bool {
    &&& a.contains_key(HEAD) == b.contains_key(HEAD)
    &&& a.contains_key(LOCA) == b.contains_key(LOCA)
    &&& a.contains_key(GLYF) == b.contains_key(GLYF)
    &&& a.contains_key(HEAD) ==> a[HEAD] == b[HEAD]
    &&& a.contains_key(LOCA) ==> a[LOCA] == b[LOCA]
    &&& a.contains_key(GLYF) ==> a[GLYF] == b[GLYF]
}

/// Taking the instructions out of the glyphs leaves every table but
/// `head`, `loca` and `glyf` as it is.
pub proof fn lemma_dehinted_elsewhere(tables: Map<u32, TableView>, tag: u32)
    requires
        tag != HEAD,
        tag != LOCA,
        tag != GLYF,
    ensures
        with_glyphs_dehinted(tables).contains_key(tag) == tables.contains_key(tag),
        with_glyphs_dehinted(tables)[tag] == tables[tag],
{
}

/// What taking the instructions out of the glyphs makes of `head`, `loca`
/// and `glyf` is a matter of these three tables alone.
pub proof fn lemma_dehinted_same_glyphs(a: Map<u32, TableView>, b: Map<u32, TableView>)
    requires
        same_glyph_tables(a, b),
    ensures
        same_glyph_tables(with_glyphs_dehinted(a), with_glyphs_dehinted(b)),
        dehints_once(a) == dehints_once(b),
{
    assert(loca_format(a) == loca_format(b));
    assert(glyph_data_format(a) == glyph_data_format(b));
    assert(font_offsets(a) == font_offsets(b));
    assert(font_glyf(a) == font_glyf(b));
}

/// The tables of a font with its `head` table patched, where it has one.
pub open spec fn with_head_table_patched(tables: Map<u32, TableView>) -> Map<u32, TableView> {
    if tables.contains_key(HEAD) {
        with_table_data(tables, HEAD, patched_head(tables[HEAD].raw_data))
    } else {
        tables
    }
}

/// Patching a `head` table leaves its length, its hinting flags and its
/// two format fields as they are.
pub proof fn lemma_patched_head_keeps(head: Seq<u8>)
    ensures
        patched_head(head).len() == head.len(),
        head.len() >= 18 ==> patched_head(head)[17] == head[17],
        forall|k: int| 50 <= k < head.len() ==> patched_head(head)[k] == head[k],
        patched_head(patched_head(head)) == patched_head(head),
{
    if head.len() > 16 {
        let x = head[16];
        assert((x | 0x28) | 0x28 == x | 0x28) by (bit_vector);
    }
    assert(patched_head(patched_head(head)) =~= patched_head(head));
}

/// Patching the `head` table and clearing its hinting flags can be done in
/// either order, and so can patching it and setting the format of `loca`.
pub proof fn lemma_head_changes_commute(head: Seq<u8>, short: bool)
    ensures
        head.len() >= 18 ==> flags_cleared(patched_head(head)) == patched_head(
            flags_cleared(head),
        ),
        head.len() >= 52 ==> head_after_rebuild(patched_head(head), short) == patched_head(
            head_after_rebuild(head, short),
        ),
{
    lemma_patched_head_keeps(head);
    if head.len() >= 18 {
        assert(flags_cleared(patched_head(head)) =~= patched_head(flags_cleared(head)));
    }
    if head.len() >= 52 {
        assert(head_after_rebuild(patched_head(head), short) =~= patched_head(
            head_after_rebuild(head, short),
        ));
    }
}

/// Taking the instructions out of the glyphs and patching the `head` table
/// can be done in either order.
pub proof fn lemma_dehint_and_patch_commute(tables: Map<u32, TableView>)
    ensures
        with_glyphs_dehinted(with_head_table_patched(tables)) == with_head_table_patched(
            with_glyphs_dehinted(tables),
        ),
{
    let patched = with_head_table_patched(tables);
    if tables.contains_key(HEAD) {
        let head = tables[HEAD].raw_data;
        lemma_patched_head_keeps(head);
        let new_head = patched_head(head);
        assert(patched[HEAD].raw_data == new_head);
        assert(loca_format(patched) == loca_format(tables)) by {
            if head.len() >= 52 {
                assert(new_head[50] == head[50] && new_head[51] == head[51]);
            }
        }
        assert(glyph_data_format(patched) == glyph_data_format(tables)) by {
            if head.len() >= 54 {
                assert(new_head[52] == head[52] && new_head[53] == head[53]);
            }
        }
        assert(font_offsets(patched) == font_offsets(tables));
        assert(font_glyf(patched) == font_glyf(tables));
        let short = new_glyf(font_glyf(tables), font_offsets(tables)).len() < SHORT_LIMIT;
        lemma_head_changes_commute(head, short);
        assert(with_glyphs_dehinted(patched) =~= with_head_table_patched(
            with_glyphs_dehinted(tables),
        ));
    } else {
        assert(with_glyphs_dehinted(tables).contains_key(HEAD) == tables.contains_key(HEAD));
    }
}

/// The whole treatment of a container: its signatures made void, then
/// bitmaps and hinting removed, the `gasp` table replaced and the `head`
/// table patched.
pub open spec fn smoothed(ttc: TTCView) -> TTCView {
    with_head_patched(with_gasp(without_hinting(without_bitmap(without_dsig(ttc)))))
}

/// What the first two steps of the treatment make of the tables of a font,
/// `single` saying whether the font is the only one of its container.
pub open spec fn unsigned_tables(tables: Map<u32, TableView>, single: bool) -> Map<
    u32,
    TableView,
> {
    let signed = if single {
        tables.insert(DSIG, fresh_table(dsig_stub()))
    } else {
        tables.remove(DSIG)
    };
    signed.remove(BDAT).remove(BLOC).remove(EBDT).remove(EBLC).remove(EBSC)
}

/// What the whole treatment makes of the tables of a font.
pub open spec fn smoothed_tables(tables: Map<u32, TableView>, single: bool) -> Map<
    u32,
    TableView,
> {
    with_head_table_patched(
        with_glyphs_dehinted(without_hint_tables(unsigned_tables(tables, single))).insert(
            GASP,
            fresh_table(gasp_table()),
        ),
    )
}

/// What the whole treatment makes of a font.
pub open spec fn smoothed_font(font: SfntView, single: bool) -> SfntView {
    SfntView {
        sfnt_version: if font.sfnt_version == TRUE {
            TRUETYPE
        } else {
            font.sfnt_version
        },
        tables: smoothed_tables(font.tables, single),
    }
}

/// The whole treatment treats each font by itself.
pub proof fn lemma_smoothed_fonts(ttc: TTCView)
    ensures
        smoothed(ttc).fonts == each_font(
            ttc.fonts,
            |f: SfntView| smoothed_font(f, ttc.fonts.len() == 1),
        ),
        smoothed(ttc).ttc_tag == without_dsig(ttc).ttc_tag,
        smoothed(ttc).major_version == without_dsig(ttc).major_version,
        smoothed(ttc).minor_version == without_dsig(ttc).minor_version,
        smoothed(ttc).dsig_tag == without_dsig(ttc).dsig_tag,
        smoothed(ttc).dsig_data == without_dsig(ttc).dsig_data,
{
    let single = ttc.fonts.len() == 1;
    let a = without_dsig(ttc);
    let b = without_bitmap(a);
    let c = without_hinting(b);
    let d = with_gasp(c);
    let e = with_head_patched(d);
    let expected = each_font(ttc.fonts, |f: SfntView| smoothed_font(f, single));
    assert forall|i: int| 0 <= i < ttc.fonts.len() implies #[trigger] e.fonts[i] == expected[i] by {
        let f = ttc.fonts[i];
        assert(a.fonts[i] == (if single {
            with_dsig_stub(f)
        } else {
            without_dsig_table(f)
        }));
        assert(b.fonts[i] == without_bitmap_tables(a.fonts[i]));
        assert(c.fonts[i] == without_font_hinting(b.fonts[i]));
        assert(d.fonts[i] == with_gasp_table(c.fonts[i]));
        assert(e.fonts[i] == with_patched_head(d.fonts[i]));
        assert(b.fonts[i].tables == unsigned_tables(f.tables, single));
        assert(e.fonts[i].tables == smoothed_tables(f.tables, single));
    }
    assert(e.fonts =~= expected);
}

/// What a treated font holds under the tags that the treatment is about.
pub open spec fn is_smooth(tables: Map<u32, TableView>, single: bool) -> bool {
    &&& single ==> tables.contains_key(DSIG) && tables[DSIG] == fresh_table(dsig_stub())
    &&& !single ==> !tables.contains_key(DSIG)
    &&& !tables.contains_key(BDAT)
    &&& !tables.contains_key(BLOC)
    &&& !tables.contains_key(EBDT)
    &&& !tables.contains_key(EBLC)
    &&& !tables.contains_key(EBSC)
    &&& !tables.contains_key(CVAR)
    &&& !tables.contains_key(CVT)
    &&& !tables.contains_key(FPGM)
    &&& !tables.contains_key(HDMX)
    &&& !tables.contains_key(LTSH)
    &&& !tables.contains_key(VDMX)
    &&& tables.contains_key(PREP) && tables[PREP] == fresh_table(prep_program())
    &&& tables.contains_key(MAXP) ==> patched_maxp(tables[MAXP].raw_data) == tables[MAXP].raw_data
    &&& tables.contains_key(GASP) && tables[GASP] == fresh_table(gasp_table())
    &&& tables.contains_key(HEAD) ==> patched_head(tables[HEAD].raw_data) == tables[HEAD].raw_data
}

/// A treated font holds what the treatment puts in, and nothing of what it
/// takes out.
pub proof fn lemma_smoothed_is_smooth(tables: Map<u32, TableView>, single: bool)
    ensures
        is_smooth(smoothed_tables(tables, single), single),
{
    let t2 = unsigned_tables(tables, single);
    let t3 = without_hint_tables(t2);
    let t4 = with_glyphs_dehinted(t3);
    let t5 = t4.insert(GASP, fresh_table(gasp_table()));
    let t6 = with_head_table_patched(t5);
    lemma_dehinted_elsewhere(t3, DSIG);
    lemma_dehinted_elsewhere(t3, BDAT);
    lemma_dehinted_elsewhere(t3, BLOC);
    lemma_dehinted_elsewhere(t3, EBDT);
    lemma_dehinted_elsewhere(t3, EBLC);
    lemma_dehinted_elsewhere(t3, EBSC);
    lemma_dehinted_elsewhere(t3, CVAR);
    lemma_dehinted_elsewhere(t3, CVT);
    lemma_dehinted_elsewhere(t3, FPGM);
    lemma_dehinted_elsewhere(t3, HDMX);
    lemma_dehinted_elsewhere(t3, LTSH);
    lemma_dehinted_elsewhere(t3, VDMX);
    lemma_dehinted_elsewhere(t3, PREP);
    lemma_dehinted_elsewhere(t3, MAXP);
    if t3.contains_key(MAXP) {
        lemma_patched_maxp_twice(t2[MAXP].raw_data);
    }
    if t5.contains_key(HEAD) {
        lemma_patched_head_keeps(t5[HEAD].raw_data);
    }
}

/// Taking the instructions out of the glyphs of a treated font changes
/// nothing.
pub proof fn lemma_smoothed_is_dehinted(tables: Map<u32, TableView>, single: bool)
    requires
        dehints_once(tables),
    ensures
        with_glyphs_dehinted(smoothed_tables(tables, single)) == smoothed_tables(tables, single),
{
    let t2 = unsigned_tables(tables, single);
    let t3 = without_hint_tables(t2);
    let t4 = with_glyphs_dehinted(t3);
    let t5 = t4.insert(GASP, fresh_table(gasp_table()));
    let t6 = with_head_table_patched(t5);
    let mirror = with_head_table_patched(t4);
    assert(same_glyph_tables(tables, t3));
    lemma_dehinted_same_glyphs(tables, t3);
    lemma_glyphs_dehinted_twice(t3);
    lemma_dehint_and_patch_commute(t4);
    assert(with_glyphs_dehinted(mirror) == mirror);
    assert(same_glyph_tables(t6, mirror));
    lemma_dehinted_same_glyphs(t6, mirror);
    let again = with_glyphs_dehinted(t6);
    assert forall|k: u32| again.contains_key(k) == t6.contains_key(k) && (again.contains_key(k)
        ==> #[trigger] again[k] == t6[k]) by {
        if k != HEAD && k != LOCA && k != GLYF {
            lemma_dehinted_elsewhere(t6, k);
        }
    }
    assert(again =~= t6);
}

/// Treating a treated font changes nothing.
pub proof fn lemma_smoothed_tables_twice(tables: Map<u32, TableView>, single: bool)
    requires
        dehints_once(tables),
    ensures
        smoothed_tables(smoothed_tables(tables, single), single) == smoothed_tables(tables, single),
{
    let once = smoothed_tables(tables, single);
    lemma_smoothed_is_smooth(tables, single);
    lemma_smoothed_is_dehinted(tables, single);
    let t2 = unsigned_tables(once, single);
    assert(t2 =~= once);
    let t3 = without_hint_tables(t2);
    assert(t3 =~= once);
    let t4 = with_glyphs_dehinted(t3);
    assert(t4 == once);
    let t5 = t4.insert(GASP, fresh_table(gasp_table()));
    assert(t5 =~= once);
    let t6 = with_head_table_patched(t5);
    assert(t6 =~= once);
}

/// Treating a container twice gives what treating it once gives, and so
/// the same file, as long as the padding of the new glyph stream makes no
/// glyph whole that was cut short.
pub proof fn lemma_smoothed_twice(ttc: TTCView)
    requires
        forall|i: int| 0 <= i < ttc.fonts.len() ==> dehints_once((#[trigger] ttc.fonts[i]).tables),
    ensures
        smoothed(smoothed(ttc)) == smoothed(ttc),
        crate::layout::container_image(smoothed(smoothed(ttc))) == crate::layout::container_image(
            smoothed(ttc),
        ),
        crate::layout::write_error(smoothed(smoothed(ttc))) == crate::layout::write_error(
            smoothed(ttc),
        ),
{
    let once = smoothed(ttc);
    let twice = smoothed(once);
    let single = ttc.fonts.len() == 1;
    lemma_smoothed_fonts(ttc);
    lemma_smoothed_fonts(once);
    assert(once.fonts.len() == ttc.fonts.len());
    assert forall|i: int| 0 <= i < ttc.fonts.len() implies #[trigger] twice.fonts[i]
        == once.fonts[i] by {
        let f = ttc.fonts[i];
        assert(once.fonts[i] == smoothed_font(f, single));
        assert(twice.fonts[i] == smoothed_font(once.fonts[i], single));
        lemma_smoothed_tables_twice(f.tables, single);
    }
    assert(twice.fonts =~= once.fonts);
    assert(twice.dsig_data =~= once.dsig_data);
}

/// Whether two fonts have the same tags and tables that are stored with
/// the same bytes: the same tables, but for the checksum adjustment of the
/// `head` table and for the checksums and offsets that the tables were read
/// with.
pub open spec fn same_stored(a: Map<u32, TableView>, b: Map<u32, TableView>) -> bool {
    &&& a.dom() == b.dom()
    &&& forall|t: u32|
        a.contains_key(t) ==> stored_bytes(t, #[trigger] a[t].raw_data) == stored_bytes(
            t,
            b[t].raw_data,
        )
}

/// Whether two `head` tables are the same but for the checksum adjustment.
pub open spec fn same_head(a: Seq<u8>, b: Seq<u8>) -> bool {
    &&& a.len() == b.len()
    &&& forall|k: int| 0 <= k < a.len() && !(a.len() >= 12 && 8 <= k < 12) ==> a[k] == b[k]
}

/// `head` tables are stored with the same bytes exactly when they are the
/// same but for the checksum adjustment.
pub proof fn lemma_same_head(a: Seq<u8>, b: Seq<u8>)
    ensures
        same_head(a, b) <==> stored_bytes(HEAD, a) == stored_bytes(HEAD, b),
{
    let x = stored_bytes(HEAD, a);
    let y = stored_bytes(HEAD, b);
    assert(x.len() == a.len() && y.len() == b.len());
    if same_head(a, b) {
        assert(x =~= y);
    }
    if x == y {
        assert forall|k: int| 0 <= k < a.len() && !(a.len() >= 12 && 8 <= k < 12) implies a[k]
            == b[k] by {
            assert(x[k] == a[k]);
            assert(y[k] == b[k]);
        }
    }
}

/// What the treatment does to a `head` table does not depend on the
/// checksum adjustment, and leaves it as it is.
pub proof fn lemma_same_head_changed(a: Seq<u8>, b: Seq<u8>, short: bool)
    requires
        same_head(a, b),
    ensures
        same_head(patched_head(a), patched_head(b)),
        a.len() >= 18 ==> same_head(flags_cleared(a), flags_cleared(b)),
        a.len() >= 52 ==> same_head(head_after_rebuild(a, short), head_after_rebuild(b, short)),
{
    if a.len() > 16 {
        assert(a[16] == b[16]);
    }
    if a.len() >= 18 {
        assert(a[17] == b[17]);
    }
}

/// The glyphs of two fonts that are stored with the same bytes are the
/// same glyphs.
pub proof fn lemma_same_stored_glyphs(a: Map<u32, TableView>, b: Map<u32, TableView>)
    requires
        same_stored(a, b),
    ensures
        loca_format(a) == loca_format(b),
        glyph_data_format(a) == glyph_data_format(b),
        font_offsets(a) == font_offsets(b),
        font_glyf(a) == font_glyf(b),
        dehints_once(a) == dehints_once(b),
        a.contains_key(HEAD) ==> same_head(a[HEAD].raw_data, b[HEAD].raw_data),
{
    if a.contains_key(HEAD) {
        let x = a[HEAD].raw_data;
        let y = b[HEAD].raw_data;
        assert(stored_bytes(HEAD, a[HEAD].raw_data) == stored_bytes(HEAD, b[HEAD].raw_data));
        lemma_same_head(x, y);
        if x.len() >= 52 {
            assert(x[50] == y[50] && x[51] == y[51]);
        }
        if x.len() >= 54 {
            assert(x[52] == y[52] && x[53] == y[53]);
        }
    }
    if a.contains_key(LOCA) {
        assert(stored_bytes(LOCA, a[LOCA].raw_data) == stored_bytes(LOCA, b[LOCA].raw_data));
    }
    if a.contains_key(GLYF) {
        assert(stored_bytes(GLYF, a[GLYF].raw_data) == stored_bytes(GLYF, b[GLYF].raw_data));
    }
}

/// Taking the instructions out of the glyphs of two fonts that are stored
/// with the same bytes gives fonts that are stored with the same bytes.
pub proof fn lemma_same_stored_dehinted(a: Map<u32, TableView>, b: Map<u32, TableView>)
    requires
        same_stored(a, b),
    ensures
        same_stored(with_glyphs_dehinted(a), with_glyphs_dehinted(b)),
{
    lemma_same_stored_glyphs(a, b);
    let x = with_glyphs_dehinted(a);
    let y = with_glyphs_dehinted(b);
    let short = new_glyf(font_glyf(a), font_offsets(a)).len() < SHORT_LIMIT;
    if a.contains_key(HEAD) {
        lemma_same_head_changed(a[HEAD].raw_data, b[HEAD].raw_data, short);
        if a[HEAD].raw_data.len() >= 18 {
            lemma_same_head(flags_cleared(a[HEAD].raw_data), flags_cleared(b[HEAD].raw_data));
        }
        if a[HEAD].raw_data.len() >= 52 {
            lemma_same_head(
                head_after_rebuild(a[HEAD].raw_data, short),
                head_after_rebuild(b[HEAD].raw_data, short),
            );
        }
    }
    assert(x.dom() =~= y.dom());
    assert forall|t: u32| x.contains_key(t) implies stored_bytes(t, #[trigger] x[t].raw_data)
        == stored_bytes(t, y[t].raw_data) by {
        if t != HEAD && t != LOCA && t != GLYF {
            lemma_dehinted_elsewhere(a, t);
            lemma_dehinted_elsewhere(b, t);
            assert(a.contains_key(t));
            assert(stored_bytes(t, a[t].raw_data) == stored_bytes(t, b[t].raw_data));
        } else if a.contains_key(t) {
            assert(stored_bytes(t, a[t].raw_data) == stored_bytes(t, b[t].raw_data));
        }
    }
}

/// Treating two fonts that are stored with the same bytes gives fonts that
/// are stored with the same bytes.
pub proof fn lemma_same_stored_smoothed(
    a: Map<u32, TableView>,
    b: Map<u32, TableView>,
    single: bool,
)
    requires
        same_stored(a, b),
    ensures
        same_stored(smoothed_tables(a, single), smoothed_tables(b, single)),
{
    let a2 = unsigned_tables(a, single);
    let b2 = unsigned_tables(b, single);
    assert(a2.dom() =~= b2.dom());
    assert forall|t: u32| a2.contains_key(t) implies stored_bytes(t, #[trigger] a2[t].raw_data)
        == stored_bytes(t, b2[t].raw_data) by {
        if t != DSIG {
            assert(a.contains_key(t));
            assert(stored_bytes(t, a[t].raw_data) == stored_bytes(t, b[t].raw_data));
        }
    }
    let a3 = without_hint_tables(a2);
    let b3 = without_hint_tables(b2);
    assert(a3.dom() =~= b3.dom());
    assert forall|t: u32| a3.contains_key(t) implies stored_bytes(t, #[trigger] a3[t].raw_data)
        == stored_bytes(t, b3[t].raw_data) by {
        if t == MAXP {
            assert(stored_bytes(t, a2[t].raw_data) == stored_bytes(t, b2[t].raw_data));
        } else if t != PREP {
            assert(a2.contains_key(t));
            assert(stored_bytes(t, a2[t].raw_data) == stored_bytes(t, b2[t].raw_data));
        }
    }
    lemma_same_stored_dehinted(a3, b3);
    let a4 = with_glyphs_dehinted(a3);
    let b4 = with_glyphs_dehinted(b3);
    let a5 = a4.insert(GASP, fresh_table(gasp_table()));
    let b5 = b4.insert(GASP, fresh_table(gasp_table()));
    assert(a5.dom() =~= b5.dom());
    assert forall|t: u32| a5.contains_key(t) implies stored_bytes(t, #[trigger] a5[t].raw_data)
        == stored_bytes(t, b5[t].raw_data) by {
        if t != GASP {
            assert(a4.contains_key(t));
            assert(stored_bytes(t, a4[t].raw_data) == stored_bytes(t, b4[t].raw_data));
        }
    }
    let a6 = with_head_table_patched(a5);
    let b6 = with_head_table_patched(b5);
    if a5.contains_key(HEAD) {
        let x = a5[HEAD].raw_data;
        let y = b5[HEAD].raw_data;
        assert(stored_bytes(HEAD, a5[HEAD].raw_data) == stored_bytes(HEAD, b5[HEAD].raw_data));
        lemma_same_head(x, y);
        lemma_same_head_changed(x, y, true);
        lemma_same_head(patched_head(x), patched_head(y));
    }
    assert(a6.dom() =~= b6.dom());
    assert forall|t: u32| a6.contains_key(t) implies stored_bytes(t, #[trigger] a6[t].raw_data)
        == stored_bytes(t, b6[t].raw_data) by {
        if t != HEAD {
            assert(a5.contains_key(t));
            assert(stored_bytes(t, a5[t].raw_data) == stored_bytes(t, b5[t].raw_data));
        }
    }
}

/// A treated font has finitely many tables if the font has.
pub proof fn lemma_smoothed_is_finite(tables: Map<u32, TableView>, single: bool)
    requires
        tables.dom().finite(),
    ensures
        smoothed_tables(tables, single).dom().finite(),
{
    let t2 = unsigned_tables(tables, single);
    assert(t2.dom().finite());
    let t3 = without_hint_tables(t2);
    assert(t3.dom().finite());
    let t4 = with_glyphs_dehinted(t3);
    assert(t4.dom().finite());
}

/// A treated container is as the reader gives containers if the container
/// is.
pub proof fn lemma_smoothed_is_as_read(ttc: TTCView)
    requires
        is_as_read(ttc),
    ensures
        is_as_read(smoothed(ttc)),
{
    let once = smoothed(ttc);
    let single = ttc.fonts.len() == 1;
    lemma_smoothed_fonts(ttc);
    assert forall|f: int| 0 <= f < once.fonts.len() implies (#[trigger] once.fonts[f]).tables.dom().finite()
        && known_version(once.fonts[f].sfnt_version) by {
        assert(once.fonts[f] == smoothed_font(ttc.fonts[f], single));
        lemma_smoothed_is_finite(ttc.fonts[f].tables, single);
    }
}

/// Reading the file of a treated container and treating what was read
/// gives a container that is written as the same file: treating a font
/// file twice gives the file that treating it once gives, as long as the
/// padding of the new glyph stream makes no glyph whole that was cut
/// short.
pub proof fn lemma_treated_file_is_stable(ttc: TTCView)
    requires
        is_as_read(ttc),
        forall|i: int| 0 <= i < ttc.fonts.len() ==> dehints_once((#[trigger] ttc.fonts[i]).tables),
        crate::layout::write_error(smoothed(ttc)) is None,
    ensures
        parse_container(crate::layout::container_image(smoothed(ttc))) == Ok::<
            TTCView,
            ReadError,
        >(container_read_back(smoothed(ttc))),
        crate::layout::write_error(smoothed(container_read_back(smoothed(ttc)))) is None,
        crate::layout::container_image(smoothed(container_read_back(smoothed(ttc))))
            == crate::layout::container_image(smoothed(ttc)),
{
    let once = smoothed(ttc);
    let back = container_read_back(once);
    lemma_smoothed_is_as_read(ttc);
    lemma_written_file_is_copied(once);
    lemma_smoothed_twice(ttc);
    lemma_read_back_smoothed(once);
}

/// A container that was read back from its file is treated to a container
/// that is written as the file of the treated container.
pub proof fn lemma_read_back_smoothed(ttc: TTCView)
    requires
        is_as_read(ttc),
        crate::layout::write_error(smoothed(ttc)) is None,
    ensures
        crate::layout::write_error(smoothed(container_read_back(ttc))) is None,
        crate::layout::container_image(smoothed(container_read_back(ttc)))
            == crate::layout::container_image(smoothed(ttc)),
{
    let back = container_read_back(ttc);
    let single = ttc.fonts.len() == 1;
    let a = smoothed(ttc);
    let b = smoothed(back);
    lemma_smoothed_fonts(ttc);
    lemma_smoothed_fonts(back);
    assert(back.fonts.len() == ttc.fonts.len());
    assert forall|f: int| 0 <= f < ttc.fonts.len() implies {
        &&& (#[trigger] a.fonts[f]).tables.dom().finite()
        &&& a.fonts[f].sfnt_version == b.fonts[f].sfnt_version
        &&& same_stored(a.fonts[f].tables, b.fonts[f].tables)
    } by {
        let x = ttc.fonts[f];
        let y = back.fonts[f];
        assert(a.fonts[f] == smoothed_font(x, single));
        assert(b.fonts[f] == smoothed_font(y, single));
        lemma_read_back_font(ttc, f);
        lemma_same_stored_smoothed(x.tables, y.tables, single);
        lemma_smoothed_is_finite(x.tables, single);
    }
    if single {
        let x = a.fonts[0];
        let y = b.fonts[0];
        assert(same_stored(x.tables, y.tables));
        assert(x.tables.contains_key(HEAD) ==> stored_bytes(HEAD, x.tables[HEAD].raw_data).len()
            == x.tables[HEAD].raw_data.len() && stored_bytes(HEAD, y.tables[HEAD].raw_data).len()
            == y.tables[HEAD].raw_data.len());
        lemma_image_of_stored(x, y);
    } else {
        assert forall|f: int| 0 <= f < a.fonts.len() implies {
            &&& (#[trigger] a.fonts[f]).tables.dom().finite()
            &&& a.fonts[f].sfnt_version == b.fonts[f].sfnt_version
            &&& a.fonts[f].tables.dom() == b.fonts[f].tables.dom()
            &&& crate::layout::font_items(a.fonts[f]) == crate::layout::font_items(b.fonts[f])
        } by {
            assert(same_stored(a.fonts[f].tables, b.fonts[f].tables));
            lemma_items_of_stored(a.fonts[f], b.fonts[f]);
        }
        assert(same_stored_fonts(a, b));
        lemma_collection_image_of_stored(a, b);
        lemma_collection_error_of_stored(a, b);
    }
}

/// Font `f` of a container that was read back from its file has the
/// version of font `f` of the container, and tables stored with the same
/// bytes.
pub proof fn lemma_read_back_font(ttc: TTCView, f: int)
    requires
        0 <= f < ttc.fonts.len(),
    ensures
        container_read_back(ttc).fonts.len() == ttc.fonts.len(),
        container_read_back(ttc).fonts[f].sfnt_version == ttc.fonts[f].sfnt_version,
        same_stored(ttc.fonts[f].tables, container_read_back(ttc).fonts[f].tables),
{
    let x = ttc.fonts[f];
    let y = container_read_back(ttc).fonts[f];
    if ttc.fonts.len() == 1 {
        assert(y == read_back(x));
        lemma_read_back_stored(x);
    } else {
        assert(y.tables.dom() =~= x.tables.dom());
        assert forall|t: u32| x.tables.contains_key(t) implies stored_bytes(
            t,
            #[trigger] x.tables[t].raw_data,
        ) == stored_bytes(t, y.tables[t].raw_data) by {
            let stored = stored_bytes(t, x.tables[t].raw_data);
            assert(y.tables[t].raw_data == stored);
            assert(stored_bytes(t, stored) =~= stored);
        }
    }
}

} // verus!