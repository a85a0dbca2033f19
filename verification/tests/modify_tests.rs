use faithtype::modify::{patch_head, regenerate_gasp, remove_bitmap, remove_dsig, remove_hinting};
use faithtype::tables::TableRecord;
use faithtype::tag::FourCC;
use faithtype::types::{SfntHeader, TTCHeader};
use std::rc::Rc;

const DSIG_STUB: [u8; 8] = [0x00, 0x00, 0x00, 0x01, 0x00, 0x00, 0x00, 0x00];
const GASP: [u8; 8] = [0x00, 0x01, 0x00, 0x01, 0xff, 0xff, 0x00, 0x0a];
const PREP: [u8; 15] = [
    0xb1, 0x04, 0x03, 0x8e, 0xb8, 0x01, 0xff, 0x85, 0xb0, 0x04, 0x8d, 0xb1, 0x01, 0x01, 0x8e,
];

fn font(version: &[u8; 4], tables: &[(&[u8; 4], Vec<u8>)]) -> SfntHeader {
    let mut sfnt = SfntHeader::new(FourCC::new(version));
    for (tag, data) in tables.iter() {
        sfnt.table_records.insert(FourCC::new(tag), TableRecord::new(data.clone()));
    }
    sfnt
}

fn container(major: u16, minor: u16, fonts: Vec<SfntHeader>) -> TTCHeader {
    TTCHeader {
        ttc_tag: FourCC::new(b"ttcf"),
        major_version: major,
        minor_version: minor,
        table_directories: fonts,
        dsig_tag: FourCC::zeroed(),
        dsig_data: Rc::new(Vec::new()),
    }
}

fn table<'a>(sfnt: &'a SfntHeader, tag: &[u8; 4]) -> Option<&'a Vec<u8>> {
    sfnt.table_records.get(&FourCC::new(tag)).map(|r| &*r.raw_data)
}

fn head(loca_format: u16, glyph_format: u16) -> Vec<u8> {
    let mut h = vec![0u8; 54];
    h[16] = 0x00;
    h[17] = 0xff;
    h[46] = 0x00;
    h[47] = 0x09;
    h[50] = (loca_format >> 8) as u8;
    h[51] = loca_format as u8;
    h[52] = (glyph_format >> 8) as u8;
    h[53] = glyph_format as u8;
    h
}

fn short_loca(offsets: &[usize]) -> Vec<u8> {
    let mut v = Vec::new();
    for o in offsets {
        v.extend_from_slice(&((o / 2) as u16).to_be_bytes());
    }
    v
}

fn long_loca(offsets: &[usize]) -> Vec<u8> {
    let mut v = Vec::new();
    for o in offsets {
        v.extend_from_slice(&(*o as u32).to_be_bytes());
    }
    v
}

/// A simple glyph of one contour with the given flags, instructions and
/// coordinate bytes, and a bounding box of 1, 2, 3, 4.
fn simple_glyph(points: u16, instructions: &[u8], flags: &[u8], coords: &[u8]) -> Vec<u8> {
    let mut g = vec![0x00, 0x01, 0x00, 0x01, 0x00, 0x02, 0x00, 0x03, 0x00, 0x04];
    g.extend_from_slice(&(points - 1).to_be_bytes());
    g.extend_from_slice(&(instructions.len() as u16).to_be_bytes());
    g.extend_from_slice(instructions);
    g.extend_from_slice(flags);
    g.extend_from_slice(coords);
    g
}

#[test]
fn single_font_gets_a_dsig_stub_of_its_own() {
    let mut ttc = container(1, 0, vec![font(&[0, 1, 0, 0], &[(b"head", head(0, 0))])]);
    ttc.dsig_tag = FourCC::new(b"DSIG");
    ttc.dsig_data = Rc::new(vec![1, 2, 3]);
    remove_dsig(&mut ttc);
    assert_eq!(ttc.table_directories.len(), 1);
    assert_eq!(table(&ttc.table_directories[0], b"DSIG").unwrap(), &DSIG_STUB.to_vec());
    assert_eq!(ttc.dsig_tag, FourCC::zeroed());
    assert!(ttc.dsig_data.is_empty());
    assert_eq!((ttc.major_version, ttc.minor_version), (1, 0));
    assert!(table(&ttc.table_directories[0], b"head").is_some());
}

#[test]
fn single_font_has_its_signature_replaced() {
    let mut ttc = container(1, 0, vec![font(b"OTTO", &[(b"DSIG", vec![9; 40])])]);
    remove_dsig(&mut ttc);
    assert_eq!(table(&ttc.table_directories[0], b"DSIG").unwrap(), &DSIG_STUB.to_vec());
    let record = ttc.table_directories[0].table_records.get(&FourCC::new(b"DSIG")).unwrap();
    assert_eq!((record.checksum, record.offset), (0, 0));
}

#[test]
fn collection_gets_its_signature_at_the_top() {
    let fonts = vec![
        font(&[0, 1, 0, 0], &[(b"head", head(0, 0)), (b"DSIG", vec![7; 12])]),
        font(&[0, 1, 0, 0], &[(b"head", head(0, 0))]),
    ];
    let mut ttc = container(1, 0, fonts);
    remove_dsig(&mut ttc);
    assert_eq!((ttc.major_version, ttc.minor_version), (2, 0));
    assert_eq!(ttc.dsig_tag, FourCC::new(b"DSIG"));
    assert_eq!(*ttc.dsig_data, DSIG_STUB.to_vec());
    for sfnt in ttc.table_directories.iter() {
        assert!(table(sfnt, b"DSIG").is_none());
        assert!(table(sfnt, b"head").is_some());
    }
}

#[test]
fn collection_of_version_two_keeps_its_version() {
    let mut ttc = container(2, 5, vec![font(b"OTTO", &[]), font(b"OTTO", &[])]);
    remove_dsig(&mut ttc);
    assert_eq!((ttc.major_version, ttc.minor_version), (2, 5));
    let mut ttc = container(0, 9, vec![font(b"OTTO", &[]), font(b"OTTO", &[])]);
    remove_dsig(&mut ttc);
    assert_eq!((ttc.major_version, ttc.minor_version), (2, 0));
}

#[test]
fn container_without_fonts_counts_as_a_collection() {
    let mut ttc = container(1, 0, vec![]);
    remove_dsig(&mut ttc);
    assert_eq!((ttc.major_version, ttc.minor_version), (2, 0));
    assert_eq!(ttc.dsig_tag, FourCC::new(b"DSIG"));
    assert_eq!(*ttc.dsig_data, DSIG_STUB.to_vec());
}

#[test]
fn bitmaps_are_removed() {
    let tables: Vec<(&[u8; 4], Vec<u8>)> = vec![
        (b"EBDT", vec![1]),
        (b"EBLC", vec![2]),
        (b"EBSC", vec![3]),
        (b"bdat", vec![4]),
        (b"bloc", vec![5]),
        (b"head", head(0, 0)),
        (b"glyf", vec![]),
    ];
    let mut ttc = container(1, 0, vec![font(&[0, 1, 0, 0], &tables), font(b"OTTO", &tables)]);
    remove_bitmap(&mut ttc);
    for sfnt in ttc.table_directories.iter() {
        for tag in [b"EBDT", b"EBLC", b"EBSC", b"bdat", b"bloc"] {
            assert!(table(sfnt, tag).is_none());
        }
        assert_eq!(sfnt.table_records.len(), 2);
        assert_eq!(table(sfnt, b"head").unwrap(), &head(0, 0));
    }
    assert_eq!((ttc.major_version, ttc.minor_version), (1, 0));
}

#[test]
fn gasp_is_replaced_or_put_in() {
    let fonts = vec![
        font(&[0, 1, 0, 0], &[(b"gasp", vec![0, 0, 0, 0])]),
        font(&[0, 1, 0, 0], &[(b"head", head(0, 0))]),
    ];
    let mut ttc = container(2, 0, fonts);
    regenerate_gasp(&mut ttc);
    for sfnt in ttc.table_directories.iter() {
        assert_eq!(table(sfnt, b"gasp").unwrap(), &GASP.to_vec());
    }
    assert_eq!(ttc.table_directories[0].table_records.len(), 1);
    assert_eq!(ttc.table_directories[1].table_records.len(), 2);
    regenerate_gasp(&mut ttc);
    for sfnt in ttc.table_directories.iter() {
        assert_eq!(table(sfnt, b"gasp").unwrap(), &GASP.to_vec());
    }
}

#[test]
fn head_is_patched_and_apple_version_replaced() {
    let mut ttc = container(1, 0, vec![font(b"true", &[(b"head", head(0, 0))])]);
    patch_head(&mut ttc);
    let sfnt = &ttc.table_directories[0];
    assert_eq!(sfnt.sfnt_version, FourCC::new(&[0, 1, 0, 0]));
    let h = table(sfnt, b"head").unwrap();
    let mut expected = head(0, 0);
    expected[16] = 0x28;
    expected[46] = 0;
    expected[47] = 0;
    assert_eq!(h, &expected);
}

#[test]
fn head_flags_are_added_to_those_that_are_set() {
    let mut h = head(0, 0);
    h[16] = 0x41;
    let mut ttc = container(1, 0, vec![font(b"OTTO", &[(b"head", h)])]);
    patch_head(&mut ttc);
    let sfnt = &ttc.table_directories[0];
    assert_eq!(sfnt.sfnt_version, FourCC::new(b"OTTO"));
    assert_eq!(table(sfnt, b"head").unwrap()[16], 0x69);
}

#[test]
fn short_head_is_patched_as_far_as_it_reaches() {
    let mut ttc = container(
        1,
        0,
        vec![
            font(b"true", &[(b"head", vec![0xff; 16])]),
            font(b"true", &[(b"head", vec![0x11; 47])]),
            font(b"true", &[]),
        ],
    );
    patch_head(&mut ttc);
    assert_eq!(table(&ttc.table_directories[0], b"head").unwrap(), &vec![0xff; 16]);
    let mut expected = vec![0x11; 47];
    expected[16] = 0x39;
    assert_eq!(table(&ttc.table_directories[1], b"head").unwrap(), &expected);
    assert_eq!(ttc.table_directories[2].table_records.len(), 0);
    assert_eq!(ttc.table_directories[2].sfnt_version, FourCC::new(&[0, 1, 0, 0]));
}

#[test]
fn hint_tables_are_removed_and_prep_replaced() {
    let tables: Vec<(&[u8; 4], Vec<u8>)> = vec![
        (b"cvar", vec![1]),
        (b"cvt ", vec![2]),
        (b"fpgm", vec![3]),
        (b"hdmx", vec![4]),
        (b"LTSH", vec![5]),
        (b"VDMX", vec![6]),
        (b"prep", vec![7, 7, 7]),
        (b"head", head(0, 0)),
        (b"name", vec![8]),
    ];
    let mut ttc = container(1, 0, vec![font(&[0, 1, 0, 0], &tables)]);
    remove_hinting(&mut ttc);
    let sfnt = &ttc.table_directories[0];
    for tag in [b"cvar", b"cvt ", b"fpgm", b"hdmx", b"LTSH", b"VDMX"] {
        assert!(table(sfnt, tag).is_none());
    }
    assert_eq!(table(sfnt, b"prep").unwrap(), &PREP.to_vec());
    assert_eq!(table(sfnt, b"name").unwrap(), &vec![8]);
    assert_eq!(sfnt.table_records.len(), 3);
    let mut expected = head(0, 0);
    expected[17] = 0xf1;
    assert_eq!(table(sfnt, b"head").unwrap(), &expected);
}

#[test]
fn prep_is_put_in_where_there_was_none() {
    let mut ttc = container(1, 0, vec![font(b"OTTO", &[])]);
    remove_hinting(&mut ttc);
    let sfnt = &ttc.table_directories[0];
    assert_eq!(table(sfnt, b"prep").unwrap(), &PREP.to_vec());
    assert_eq!(sfnt.table_records.len(), 1);
}

#[test]
fn maxp_is_rewritten_for_the_short_program() {
    let maxp: Vec<u8> = (0..32u8).map(|i| 0x80 + i).collect();
    let mut ttc = container(1, 0, vec![font(&[0, 1, 0, 0], &[(b"maxp", maxp.clone())])]);
    remove_hinting(&mut ttc);
    let got = table(&ttc.table_directories[0], b"maxp").unwrap();
    let mut expected = maxp;
    expected[14] = 0;
    expected[15] = 1;
    for i in 16..24 {
        expected[i] = 0;
    }
    expected[24] = 0;
    expected[25] = 2;
    expected[26] = 0;
    expected[27] = 15;
    assert_eq!(got, &expected);
}

#[test]
fn short_maxp_is_rewritten_as_far_as_it_reaches() {
    let maxp = vec![0x55u8; 25];
    let mut ttc = container(1, 0, vec![font(&[0, 1, 0, 0], &[(b"maxp", maxp.clone())])]);
    remove_hinting(&mut ttc);
    let got = table(&ttc.table_directories[0], b"maxp").unwrap();
    let mut expected = maxp;
    expected[14] = 0;
    expected[15] = 1;
    for i in 16..24 {
        expected[i] = 0;
    }
    assert_eq!(got, &expected);
    let mut ttc = container(1, 0, vec![font(&[0, 1, 0, 0], &[(b"maxp", vec![0x55u8; 6])])]);
    remove_hinting(&mut ttc);
    assert_eq!(table(&ttc.table_directories[0], b"maxp").unwrap(), &vec![0x55u8; 6]);
}

#[test]
fn glyphs_without_instructions_leave_the_tables_alone() {
    let g = simple_glyph(2, &[], &[0x01, 0x01], &[0, 1, 0, 2, 0, 3, 0, 4]);
    assert_eq!(g.len(), 24);
    let glyf = [g.clone(), g.clone()].concat();
    let loca = short_loca(&[0, 24, 48]);
    let tables: Vec<(&[u8; 4], Vec<u8>)> =
        vec![(b"head", head(0, 0)), (b"loca", loca.clone()), (b"glyf", glyf.clone())];
    let mut ttc = container(1, 0, vec![font(&[0, 1, 0, 0], &tables)]);
    remove_hinting(&mut ttc);
    let sfnt = &ttc.table_directories[0];
    assert_eq!(table(sfnt, b"glyf").unwrap(), &glyf);
    assert_eq!(table(sfnt, b"loca").unwrap(), &loca);
    let mut expected = head(0, 0);
    expected[17] = 0xf1;
    assert_eq!(table(sfnt, b"head").unwrap(), &expected);
}

#[test]
fn simple_glyphs_lose_their_instructions() {
    let flags = [0x01, 0x37, 0x0b, 0x02];
    // 0x01: x 2 bytes, y 2 bytes; 0x37: x 1, y 1; 0x0b with repeat 2: three
    // points of x 1, y 2.
    let coords: Vec<u8> = (0..(4 + 2 + 9)).collect();
    let g = simple_glyph(5, &[0xaa, 0xbb, 0xcc], &flags, &coords);
    let mut plain = simple_glyph(5, &[], &flags, &coords);
    assert_eq!(plain.len(), 12 + 2 + 4 + 15);
    assert_eq!(g.len(), 36);
    let glyf = [g.clone(), g.clone()].concat();
    let loca = short_loca(&[0, 36, 72]);
    let tables: Vec<(&[u8; 4], Vec<u8>)> = vec![
        (b"head", head(0, 0)),
        (b"loca", loca),
        (b"glyf", glyf),
        (b"maxp", vec![0xff; 32]),
    ];
    let mut ttc = container(1, 0, vec![font(&[0, 1, 0, 0], &tables)]);
    remove_hinting(&mut ttc);
    let sfnt = &ttc.table_directories[0];
    plain.push(0);
    let expected_glyf = [plain.clone(), plain.clone()].concat();
    assert_eq!(table(sfnt, b"glyf").unwrap(), &expected_glyf);
    assert_eq!(table(sfnt, b"loca").unwrap(), &short_loca(&[0, 34, 68]));
    let mut expected_head = head(0, 0);
    expected_head[17] = 0xf1;
    assert_eq!(table(sfnt, b"head").unwrap(), &expected_head);
    assert_eq!(&table(sfnt, b"maxp").unwrap()[26..28], &[0, 15]);
}

#[test]
fn seven_hinted_glyphs_without_contours() {
    let mut g = vec![0u8; 10];
    g[2] = 0x12;
    g.extend_from_slice(&[0, 8]);
    g.extend_from_slice(&[0xb0; 8]);
    assert_eq!(g.len(), 20);
    let mut glyf = Vec::new();
    let mut offsets = vec![0];
    for _ in 0..7 {
        glyf.extend_from_slice(&g);
        offsets.push(glyf.len());
    }
    let loca = short_loca(&offsets);
    assert_eq!(loca.len(), 16);
    let tables: Vec<(&[u8; 4], Vec<u8>)> = vec![
        (b"head", head(0, 0)),
        (b"loca", loca),
        (b"glyf", glyf),
        (b"maxp", vec![0x77; 32]),
    ];
    let mut ttc = container(1, 0, vec![font(&[0, 1, 0, 0], &tables)]);
    remove_hinting(&mut ttc);
    let sfnt = &ttc.table_directories[0];
    let maxp = table(sfnt, b"maxp").unwrap();
    assert_eq!(u16::from_be_bytes([maxp[26], maxp[27]]), 15);
    let mut stripped = g[..10].to_vec();
    stripped.extend_from_slice(&[0, 0]);
    let new_glyf = table(sfnt, b"glyf").unwrap();
    assert_eq!(new_glyf.len(), 7 * 12);
    for i in 0..7 {
        assert_eq!(&new_glyf[12 * i..12 * i + 12], &stripped[..]);
    }
    let new_loca = table(sfnt, b"loca").unwrap();
    assert_eq!(new_loca.len(), 16);
    assert_eq!(new_loca, &short_loca(&[0, 12, 24, 36, 48, 60, 72, 84]));
    assert_eq!(&table(sfnt, b"head").unwrap()[50..52], &[0, 0]);
}

#[test]
fn empty_glyphs_stay_empty() {
    let g = simple_glyph(1, &[0x01], &[0x31], &[]);
    let glyf = g.clone();
    let loca = long_loca(&[0, 0, 0, g.len(), g.len()]);
    let tables: Vec<(&[u8; 4], Vec<u8>)> =
        vec![(b"head", head(1, 0)), (b"loca", loca), (b"glyf", glyf)];
    let mut ttc = container(1, 0, vec![font(&[0, 1, 0, 0], &tables)]);
    remove_hinting(&mut ttc);
    let sfnt = &ttc.table_directories[0];
    let plain = simple_glyph(1, &[], &[0x31], &[]);
    assert_eq!(plain.len(), 15);
    let mut expected = plain.clone();
    expected.push(0);
    assert_eq!(table(sfnt, b"glyf").unwrap(), &expected);
    assert_eq!(table(sfnt, b"loca").unwrap(), &short_loca(&[0, 0, 0, 16, 16]));
    assert_eq!(&table(sfnt, b"head").unwrap()[50..52], &[0, 0]);
}

#[test]
fn composite_glyphs_lose_their_instructions() {
    // Head of ten bytes with a contour count of -1, then a component with
    // word arguments and a scale that announces another, then a last
    // component with byte arguments that announces instructions.
    let mut g = vec![0xff, 0xff, 0, 1, 0, 2, 0, 3, 0, 4];
    g.extend_from_slice(&[0x00, 0x29, 0, 5, 0, 1, 0, 2, 0x40, 0x00]);
    g.extend_from_slice(&[0x01, 0x00, 0, 6, 1, 2]);
    let kept = g.len();
    g.extend_from_slice(&[0, 3, 0xb0, 0xb1, 0xb2]);
    g.push(0);
    let loca = short_loca(&[0, g.len()]);
    let tables: Vec<(&[u8; 4], Vec<u8>)> =
        vec![(b"head", head(0, 0)), (b"loca", loca), (b"glyf", g.clone())];
    let mut ttc = container(1, 0, vec![font(&[0, 1, 0, 0], &tables)]);
    remove_hinting(&mut ttc);
    let sfnt = &ttc.table_directories[0];
    let mut expected = g[..kept].to_vec();
    expected[20] = 0x00;
    assert_eq!(expected.len(), 26);
    assert_eq!(table(sfnt, b"glyf").unwrap(), &expected);
    assert_eq!(table(sfnt, b"loca").unwrap(), &short_loca(&[0, 26]));
}

#[test]
fn composite_glyph_with_a_two_by_two_transform() {
    let mut g = vec![0xff, 0xff, 0, 0, 0, 0, 0, 0, 0, 0];
    g.extend_from_slice(&[0x01, 0x80, 0, 6, 1, 2, 1, 1, 2, 2, 3, 3, 4, 4]);
    g.extend_from_slice(&[0, 1, 0xb0, 0]);
    let loca = short_loca(&[0, g.len()]);
    let tables: Vec<(&[u8; 4], Vec<u8>)> =
        vec![(b"head", head(0, 0)), (b"loca", loca), (b"glyf", g.clone())];
    let mut ttc = container(1, 0, vec![font(&[0, 1, 0, 0], &tables)]);
    remove_hinting(&mut ttc);
    let sfnt = &ttc.table_directories[0];
    let mut expected = g[..24].to_vec();
    expected[10] = 0x00;
    assert_eq!(table(sfnt, b"glyf").unwrap(), &expected);
}

#[test]
fn composite_glyph_with_a_contour_count_other_than_minus_one() {
    let mut g = vec![0xff, 0xfe, 0, 0, 0, 0, 0, 0, 0, 0];
    g.extend_from_slice(&[0x01, 0x00, 0, 5, 1, 2]);
    g.extend_from_slice(&[0, 2, 0xb0, 0xb1]);
    assert_eq!(g.len(), 20);
    let loca = short_loca(&[0, 20]);
    let tables: Vec<(&[u8; 4], Vec<u8>)> =
        vec![(b"head", vec![0; 54]), (b"loca", loca), (b"glyf", g.clone())];
    let mut ttc = container(1, 0, vec![font(&[0, 1, 0, 0], &tables)]);
    remove_hinting(&mut ttc);
    let sfnt = &ttc.table_directories[0];
    let mut expected = g[..16].to_vec();
    expected[10] = 0x00;
    assert_eq!(table(sfnt, b"glyf").unwrap(), &expected);
    assert_eq!(table(sfnt, b"loca").unwrap(), &vec![0, 0, 0, 8]);
}

#[test]
fn composite_glyph_keeps_the_components_after_its_head() {
    // A bounding box whose bytes would read as components without
    // instructions.
    let mut g = vec![0x80, 0x00, 0x01, 0x00, 0x00, 0x01, 0x00, 0x00, 0x01, 0x00];
    g.extend_from_slice(&[0x00, 0x21, 0, 5, 0, 1, 0, 2]);
    g.extend_from_slice(&[0x01, 0x40, 0, 6, 1, 2, 1, 1, 2, 2]);
    g.extend_from_slice(&[0, 1, 0xb0, 0]);
    let loca = short_loca(&[0, g.len()]);
    let tables: Vec<(&[u8; 4], Vec<u8>)> =
        vec![(b"head", head(0, 0)), (b"loca", loca), (b"glyf", g.clone())];
    let mut ttc = container(1, 0, vec![font(&[0, 1, 0, 0], &tables)]);
    remove_hinting(&mut ttc);
    let sfnt = &ttc.table_directories[0];
    let mut expected = g[..28].to_vec();
    expected[18] = 0x00;
    assert_eq!(table(sfnt, b"glyf").unwrap(), &expected);
    assert_eq!(table(sfnt, b"loca").unwrap(), &short_loca(&[0, 28]));
}

#[test]
fn glyph_that_is_cut_short_is_kept_as_it_is() {
    let whole = simple_glyph(2, &[0x01, 0x02], &[0x01, 0x01], &[0, 1, 0, 2, 0, 3, 0, 4]);
    let mut cut = simple_glyph(2, &[0x01, 0x02], &[0x01, 0x01], &[0, 1, 0, 2, 0, 3]);
    assert_eq!(cut.len() % 2, 0);
    let stripped = simple_glyph(2, &[], &[0x01, 0x01], &[0, 1, 0, 2, 0, 3, 0, 4]);
    let glyf = [whole.clone(), cut.clone()].concat();
    let loca = short_loca(&[0, whole.len(), glyf.len()]);
    let tables: Vec<(&[u8; 4], Vec<u8>)> =
        vec![(b"head", head(0, 0)), (b"loca", loca), (b"glyf", glyf)];
    let mut ttc = container(1, 0, vec![font(&[0, 1, 0, 0], &tables)]);
    remove_hinting(&mut ttc);
    let sfnt = &ttc.table_directories[0];
    let mut expected = stripped.clone();
    expected.append(&mut cut);
    assert_eq!(table(sfnt, b"glyf").unwrap(), &expected);
    assert_eq!(
        table(sfnt, b"loca").unwrap(),
        &short_loca(&[0, stripped.len(), expected.len()])
    );
}

#[test]
fn only_glyphs_that_are_cut_short_leave_the_tables_alone() {
    let cut = simple_glyph(2, &[0x01, 0x02], &[0x01, 0x01], &[0, 1, 0, 2, 0, 3]);
    let loca = short_loca(&[0, cut.len()]);
    let tables: Vec<(&[u8; 4], Vec<u8>)> =
        vec![(b"head", head(0, 0)), (b"loca", loca.clone()), (b"glyf", cut.clone())];
    let mut ttc = container(1, 0, vec![font(&[0, 1, 0, 0], &tables)]);
    remove_hinting(&mut ttc);
    let sfnt = &ttc.table_directories[0];
    assert_eq!(table(sfnt, b"glyf").unwrap(), &cut);
    assert_eq!(table(sfnt, b"loca").unwrap(), &loca);
    assert_eq!(table(sfnt, b"head").unwrap()[17], 0xf1);
}

#[test]
fn repeat_past_the_last_point_counts_as_cut_short() {
    let bad = simple_glyph(2, &[0x01, 0x02], &[0x39, 0x02], &[]);
    let good = simple_glyph(1, &[0x01, 0x02], &[0x31], &[]);
    assert_eq!(bad.len() % 2, 0);
    let glyf = [bad.clone(), good.clone()].concat();
    let loca = long_loca(&[0, bad.len(), glyf.len()]);
    let tables: Vec<(&[u8; 4], Vec<u8>)> =
        vec![(b"head", head(1, 0)), (b"loca", loca), (b"glyf", glyf)];
    let mut ttc = container(1, 0, vec![font(&[0, 1, 0, 0], &tables)]);
    remove_hinting(&mut ttc);
    let sfnt = &ttc.table_directories[0];
    let mut expected = bad.clone();
    expected.extend_from_slice(&simple_glyph(1, &[], &[0x31], &[]));
    expected.push(0);
    assert_eq!(table(sfnt, b"glyf").unwrap(), &expected);
}

#[test]
fn glyphs_in_an_unknown_format_are_left_alone() {
    let g = simple_glyph(1, &[0x01], &[0x31], &[0]);
    let loca = short_loca(&[0, g.len()]);
    let tables: Vec<(&[u8; 4], Vec<u8>)> =
        vec![(b"head", head(0, 1)), (b"loca", loca.clone()), (b"glyf", g.clone())];
    let mut ttc = container(1, 0, vec![font(&[0, 1, 0, 0], &tables)]);
    remove_hinting(&mut ttc);
    let sfnt = &ttc.table_directories[0];
    assert_eq!(table(sfnt, b"glyf").unwrap(), &g);
    assert_eq!(table(sfnt, b"loca").unwrap(), &loca);
    assert_eq!(table(sfnt, b"head").unwrap(), &head(0, 1));
    assert_eq!(table(sfnt, b"prep").unwrap(), &PREP.to_vec());
}

#[test]
fn loca_in_an_unknown_format_names_no_glyphs() {
    let g = simple_glyph(1, &[0x01], &[0x31], &[0]);
    let loca = short_loca(&[0, g.len()]);
    let tables: Vec<(&[u8; 4], Vec<u8>)> =
        vec![(b"head", head(2, 0)), (b"loca", loca.clone()), (b"glyf", g.clone())];
    let mut ttc = container(1, 0, vec![font(&[0, 1, 0, 0], &tables)]);
    remove_hinting(&mut ttc);
    let sfnt = &ttc.table_directories[0];
    assert_eq!(table(sfnt, b"glyf").unwrap(), &g);
    assert_eq!(table(sfnt, b"loca").unwrap(), &loca);
    let mut expected = head(2, 0);
    expected[17] = 0xf1;
    assert_eq!(table(sfnt, b"head").unwrap(), &expected);
}

#[test]
fn glyphs_that_reach_beyond_the_table_count_as_empty() {
    let g = simple_glyph(1, &[0x01], &[0x31], &[]);
    assert_eq!(g.len(), 16);
    let loca = long_loca(&[0, 16, 40, 30, 16]);
    let tables: Vec<(&[u8; 4], Vec<u8>)> =
        vec![(b"head", head(1, 0)), (b"loca", loca), (b"glyf", g.clone())];
    let mut ttc = container(1, 0, vec![font(&[0, 1, 0, 0], &tables)]);
    remove_hinting(&mut ttc);
    let sfnt = &ttc.table_directories[0];
    let mut expected = simple_glyph(1, &[], &[0x31], &[]);
    assert_eq!(expected.len(), 15);
    expected.push(0);
    assert_eq!(table(sfnt, b"glyf").unwrap(), &expected);
    assert_eq!(table(sfnt, b"loca").unwrap(), &short_loca(&[0, 16, 16, 16, 16]));
}

#[test]
fn long_glyph_stream_gets_a_long_loca() {
    let big = simple_glyph(1, &[0x01], &[0x31], &vec![0x5a; 70000]);
    let glyf = [big.clone(), big.clone()].concat();
    let loca = long_loca(&[0, big.len(), glyf.len()]);
    let tables: Vec<(&[u8; 4], Vec<u8>)> =
        vec![(b"head", head(1, 0)), (b"loca", loca), (b"glyf", glyf)];
    let mut ttc = container(1, 0, vec![font(&[0, 1, 0, 0], &tables)]);
    remove_hinting(&mut ttc);
    let sfnt = &ttc.table_directories[0];
    // Trailing bytes after the coordinates are dropped with the
    // instructions: the glyph has one point without coordinate bytes.
    assert_eq!(table(sfnt, b"glyf").unwrap().len(), 15 + 1 + 15 + 1);
    assert_eq!(&table(sfnt, b"head").unwrap()[50..52], &[0, 0]);
}

#[test]
fn stream_of_131072_bytes_gets_a_long_loca() {
    // A glyph of 65536 bytes after dehinting: 12 bytes of head, one flag
    // that repeats, and coordinates.
    let mut flags = Vec::new();
    let mut points = 0u32;
    let mut coords = 0usize;
    while points + 256 <= 16000 {
        flags.extend_from_slice(&[0x09, 0xff]);
        points += 256;
        coords += 256 * 4;
    }
    let body = 12 + 2 + flags.len() + coords;
    assert!(body < 65536);
    let mut g = vec![0x00, 0x01, 0, 0, 0, 0, 0, 0, 0, 0];
    g.extend_from_slice(&((points - 1) as u16).to_be_bytes());
    g.extend_from_slice(&[0, 2, 0xb0, 0xb0]);
    g.extend_from_slice(&flags);
    g.extend_from_slice(&vec![0x11; coords]);
    let plain_len = g.len() - 2;
    let count = 131072 / plain_len + 1;
    let mut glyf = Vec::new();
    let mut offsets = vec![0usize];
    for _ in 0..count {
        glyf.extend_from_slice(&g);
        offsets.push(glyf.len());
    }
    let tables: Vec<(&[u8; 4], Vec<u8>)> =
        vec![(b"head", head(1, 0)), (b"loca", long_loca(&offsets)), (b"glyf", glyf)];
    let mut ttc = container(1, 0, vec![font(&[0, 1, 0, 0], &tables)]);
    remove_hinting(&mut ttc);
    let sfnt = &ttc.table_directories[0];
    let new_glyf = table(sfnt, b"glyf").unwrap();
    assert_eq!(new_glyf.len(), count * plain_len);
    assert!(new_glyf.len() >= 131072);
    let expected: Vec<usize> = (0..=count).map(|i| i * plain_len).collect();
    assert_eq!(table(sfnt, b"loca").unwrap(), &long_loca(&expected));
    assert_eq!(&table(sfnt, b"head").unwrap()[50..52], &[0, 1]);
}

#[test]
fn every_font_of_a_collection_is_treated() {
    let g = simple_glyph(1, &[0x01], &[0x31], &[0]);
    let tables: Vec<(&[u8; 4], Vec<u8>)> = vec![
        (b"head", head(0, 0)),
        (b"loca", short_loca(&[0, g.len()])),
        (b"glyf", g.clone()),
        (b"fpgm", vec![1]),
    ];
    let mut ttc = container(
        2,
        0,
        vec![font(&[0, 1, 0, 0], &tables), font(b"true", &tables), font(b"OTTO", &[])],
    );
    remove_hinting(&mut ttc);
    // The flag says that neither coordinate takes a byte, so the byte after
    // the flag is not part of the glyph and goes with the instructions.
    let mut expected = simple_glyph(1, &[], &[0x31], &[]);
    expected.push(0);
    for sfnt in ttc.table_directories.iter().take(2) {
        assert_eq!(table(sfnt, b"glyf").unwrap(), &expected);
        assert!(table(sfnt, b"fpgm").is_none());
    }
    assert_eq!(ttc.table_directories[1].sfnt_version, FourCC::new(b"true"));
    assert_eq!(ttc.table_directories[2].table_records.len(), 1);
    assert_eq!((ttc.major_version, ttc.minor_version), (2, 0));
}
