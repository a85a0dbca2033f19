use faithtype::modify::remove_hinting;
use faithtype::notes::{hinting_notes, Note};
use faithtype::tables::TableRecord;
use faithtype::tag::FourCC;
use faithtype::types::{SfntHeader, TTCHeader};
use std::rc::Rc;

fn font(version: &[u8; 4], tables: &[(&[u8; 4], Vec<u8>)]) -> SfntHeader {
    let mut sfnt = SfntHeader::new(FourCC::new(version));
    for (tag, data) in tables.iter() {
        sfnt.table_records.insert(FourCC::new(tag), TableRecord::new(data.clone()));
    }
    sfnt
}

fn container(fonts: Vec<SfntHeader>) -> TTCHeader {
    TTCHeader {
        ttc_tag: FourCC::new(b"ttcf"),
        major_version: 1,
        minor_version: 0,
        table_directories: fonts,
        dsig_tag: FourCC::zeroed(),
        dsig_data: Rc::new(Vec::new()),
    }
}

fn head(loca_format: u16, glyph_format: u16) -> Vec<u8> {
    let mut h = vec![0u8; 54];
    h[50] = (loca_format >> 8) as u8;
    h[51] = loca_format as u8;
    h[52] = (glyph_format >> 8) as u8;
    h[53] = glyph_format as u8;
    h
}

fn long_loca(offsets: &[usize]) -> Vec<u8> {
    offsets.iter().flat_map(|o| (*o as u32).to_be_bytes()).collect()
}

fn simple_glyph(points: u16, instructions: &[u8], flags: &[u8], coords: &[u8]) -> Vec<u8> {
    let mut g = vec![0x00, 0x01, 0x00, 0x01, 0x00, 0x02, 0x00, 0x03, 0x00, 0x04];
    g.extend_from_slice(&(points - 1).to_be_bytes());
    g.extend_from_slice(&(instructions.len() as u16).to_be_bytes());
    g.extend_from_slice(instructions);
    g.extend_from_slice(flags);
    g.extend_from_slice(coords);
    g
}

fn glyph_font(head: Vec<u8>, loca: Vec<u8>, glyf: Vec<u8>) -> SfntHeader {
    font(&[0, 1, 0, 0], &[(b"head", head), (b"loca", loca), (b"glyf", glyf)])
}

#[test]
fn font_without_glyph_tables_has_nothing_to_tell() {
    let ttc = container(vec![font(b"OTTO", &[(b"head", head(0, 0))]), font(b"OTTO", &[])]);
    assert_eq!(hinting_notes(&ttc), vec![]);
}

#[test]
fn clean_font_has_nothing_to_tell() {
    let g = simple_glyph(1, &[], &[0x31], &[]);
    let loca = long_loca(&[0, 0, g.len()]);
    let ttc = container(vec![glyph_font(head(1, 0), loca, g)]);
    assert_eq!(hinting_notes(&ttc), vec![]);
}

#[test]
fn hinted_font_is_rebuilt() {
    let g = simple_glyph(1, &[1, 2], &[0x31], &[]);
    let loca = long_loca(&[0, g.len()]);
    let ttc = container(vec![font(b"OTTO", &[]), glyph_font(head(1, 0), loca, g)]);
    assert_eq!(hinting_notes(&ttc), vec![Note::Rebuilt { font: 1 }]);
}

#[test]
fn loca_of_a_length_that_does_not_fit() {
    let g = simple_glyph(1, &[], &[0x31], &[]);
    let mut loca = long_loca(&[0, g.len()]);
    loca.extend_from_slice(&[0, 0, 0]);
    let ttc = container(vec![glyph_font(head(1, 0), loca.clone(), g.clone())]);
    assert_eq!(hinting_notes(&ttc), vec![Note::LocaLength { font: 0, length: 11, unit: 4 }]);
    let ttc = container(vec![glyph_font(head(0, 0), vec![0, 0, 0, 0, 0], g)]);
    assert_eq!(hinting_notes(&ttc), vec![Note::LocaLength { font: 0, length: 5, unit: 2 }]);
}

#[test]
fn loca_in_a_format_that_is_not_known() {
    let g = simple_glyph(1, &[1], &[0x31], &[]);
    let loca = long_loca(&[0, g.len()]);
    let ttc = container(vec![glyph_font(head(7, 0), loca.clone(), g.clone())]);
    assert_eq!(hinting_notes(&ttc), vec![Note::UnknownLocaFormat { font: 0, format: 7 }]);
    let ttc = container(vec![glyph_font(vec![0; 51], loca.clone(), g.clone())]);
    assert_eq!(hinting_notes(&ttc), vec![Note::NoLocaFormat { font: 0 }]);
    let ttc = container(vec![font(b"true", &[(b"loca", loca), (b"glyf", g)])]);
    assert_eq!(hinting_notes(&ttc), vec![Note::NoLocaFormat { font: 0 }]);
}

#[test]
fn glyphs_in_a_format_that_is_not_known() {
    let g = simple_glyph(1, &[1], &[0x31], &[]);
    let loca = long_loca(&[0, g.len()]);
    let ttc = container(vec![glyph_font(head(1, 3), loca.clone(), g.clone())]);
    assert_eq!(hinting_notes(&ttc), vec![Note::UnknownGlyphFormat { font: 0, format: 3 }]);
    let mut short = head(1, 0);
    short.truncate(53);
    let ttc = container(vec![glyph_font(short, loca, g)]);
    assert_eq!(hinting_notes(&ttc), vec![Note::NoGlyphFormat { font: 0 }]);
}

#[test]
fn glyphs_out_of_range_and_cut_short() {
    let whole = simple_glyph(1, &[1, 2], &[0x31], &[]);
    let cut = simple_glyph(2, &[], &[0x01, 0x01], &[0, 1, 0, 2, 0, 3]);
    let glyf = [whole.clone(), cut.clone()].concat();
    let loca = long_loca(&[0, whole.len(), glyf.len(), 9, glyf.len() + 1, glyf.len() + 1, 3]);
    let mut ttc = container(vec![glyph_font(head(1, 0), loca, glyf.clone())]);
    assert_eq!(
        hinting_notes(&ttc),
        vec![
            Note::GlyphRange { font: 0, glyph: 2, from: glyf.len(), to: 9 },
            Note::GlyphRange { font: 0, glyph: 3, from: 9, to: glyf.len() + 1 },
            Note::GlyphRange { font: 0, glyph: 4, from: glyf.len() + 1, to: glyf.len() + 1 },
            Note::GlyphRange { font: 0, glyph: 5, from: glyf.len() + 1, to: 3 },
            Note::GlyphCutShort { font: 0, glyph: 1 },
            Note::Rebuilt { font: 0 },
        ]
    );
    remove_hinting(&mut ttc);
    let new_glyf = ttc.table_directories[0].table_records.get(&FourCC::new(b"glyf")).unwrap();
    let mut expected = simple_glyph(1, &[], &[0x31], &[]);
    expected.push(0);
    expected.extend_from_slice(&cut);
    assert_eq!(*new_glyf.raw_data, expected);
    assert_eq!(hinting_notes(&ttc), vec![Note::GlyphCutShort { font: 0, glyph: 1 }]);
}
