use faithtype::checksum::checksum_of;
use faithtype::layout::WriteError;
use faithtype::tables::TableRecord;
use faithtype::tag::FourCC;
use faithtype::ttc_writer::TTCWriter;
use faithtype::types::{SfntHeader, TTCHeader};
use std::rc::Rc;

fn font(version: &[u8; 4], tables: &[(&[u8; 4], Vec<u8>)]) -> SfntHeader {
    let mut sfnt = SfntHeader::new(FourCC::new(version));
    for (tag, data) in tables.iter() {
        sfnt.table_records.insert(FourCC::new(tag), TableRecord::new(data.clone()));
    }
    sfnt
}

fn container(major: u16, minor: u16, fonts: Vec<SfntHeader>) -> TTCHeader {
    TTCHeader {
        ttc_tag: FourCC::new(b"ttcf"),
        major_version: major,
        minor_version: minor,
        table_directories: fonts,
        dsig_tag: FourCC::zeroed(),
        dsig_data: Rc::new(Vec::new()),
    }
}

fn head_table() -> Vec<u8> {
    let mut h = vec![0u8; 54];
    h[8] = 1;
    h[9] = 2;
    h[10] = 3;
    h[11] = 4;
    h[17] = 0xff;
    h[47] = 0x09;
    h
}

fn u16_at(data: &[u8], at: usize) -> u16 {
    u16::from_be_bytes([data[at], data[at + 1]])
}

fn u32_at(data: &[u8], at: usize) -> u32 {
    u32::from_be_bytes([data[at], data[at + 1], data[at + 2], data[at + 3]])
}

fn order_of(version: &[u8; 4], tags: &[&[u8; 4]]) -> Vec<[u8; 4]> {
    let tables: Vec<(&[u8; 4], Vec<u8>)> = tags.iter().map(|t| (*t, vec![])).collect();
    let sfnt = font(version, &tables);
    TTCWriter::new()
        .get_table_storage_order(sfnt.sfnt_version, &sfnt.table_records)
        .iter()
        .map(|t| t.0)
        .collect()
}

#[test]
fn padding_brings_to_a_multiple_of_four() {
    let writer = TTCWriter::new();
    assert_eq!(writer.get_padding(0), 0);
    assert_eq!(writer.get_padding(1), 3);
    assert_eq!(writer.get_padding(2), 2);
    assert_eq!(writer.get_padding(3), 1);
    assert_eq!(writer.get_padding(4), 0);
    assert_eq!(writer.get_padding(103), 1);
    assert_eq!(writer.get_padding(usize::MAX), 1);
}

#[test]
fn truetype_tables_are_stored_by_priority() {
    let got = order_of(
        &[0, 1, 0, 0],
        &[b"DSIG", b"glyf", b"zzzz", b"head", b"OS/2", b"AAAA", b"cmap", b"CFF ", b"loca"],
    );
    let expected: Vec<[u8; 4]> = vec![
        *b"head", *b"OS/2", *b"cmap", *b"loca", *b"glyf", *b"DSIG", *b"AAAA", *b"CFF ", *b"zzzz",
    ];
    assert_eq!(got, expected);
}

#[test]
fn cff_tables_are_stored_by_their_own_priority() {
    let got = order_of(
        b"OTTO",
        &[b"DSIG", b"glyf", b"name", b"head", b"OS/2", b"cmap", b"CFF ", b"post", b"hhea"],
    );
    let expected: Vec<[u8; 4]> = vec![
        *b"head", *b"hhea", *b"OS/2", *b"name", *b"cmap", *b"post", *b"CFF ", *b"DSIG", *b"glyf",
    ];
    assert_eq!(got, expected);
}

#[test]
fn all_priority_tables_in_order() {
    let all: Vec<&[u8; 4]> = vec![
        b"head", b"hhea", b"maxp", b"OS/2", b"hmtx", b"LTSH", b"VDMX", b"hdmx", b"cmap", b"fpgm",
        b"prep", b"cvt ", b"loca", b"glyf", b"kern", b"name", b"post", b"gasp", b"PCLT", b"DSIG",
    ];
    let got = order_of(b"true", &all);
    let expected: Vec<[u8; 4]> = all.iter().map(|t| **t).collect();
    assert_eq!(got, expected);
    assert_eq!(order_of(b"OTTO", &[]), Vec::<[u8; 4]>::new());
}

#[test]
fn stored_head_has_no_checksum_adjustment() {
    let sfnt = font(&[0, 1, 0, 0], &[(b"head", head_table()), (b"name", vec![1, 2, 3, 4, 5])]);
    let stored = TTCWriter::new().patch_head_table(&sfnt.table_records);
    let mut expected = head_table();
    for i in 8..12 {
        expected[i] = 0;
    }
    assert_eq!(*stored.get(&FourCC::new(b"head")).unwrap().raw_data, expected);
    let before = sfnt.table_records.get(&FourCC::new(b"name")).unwrap();
    let after = stored.get(&FourCC::new(b"name")).unwrap();
    assert!(Rc::ptr_eq(&before.raw_data, &after.raw_data));
    assert_eq!(*sfnt.table_records.get(&FourCC::new(b"head")).unwrap().raw_data, head_table());
}

#[test]
fn short_head_is_stored_as_it_is() {
    let sfnt = font(&[0, 1, 0, 0], &[(b"head", vec![9; 11])]);
    let stored = TTCWriter::new().patch_head_table(&sfnt.table_records);
    assert_eq!(*stored.get(&FourCC::new(b"head")).unwrap().raw_data, vec![9; 11]);
    let sfnt = font(&[0, 1, 0, 0], &[(b"head", vec![9; 12])]);
    let stored = TTCWriter::new().patch_head_table(&sfnt.table_records);
    assert_eq!(
        *stored.get(&FourCC::new(b"head")).unwrap().raw_data,
        vec![9, 9, 9, 9, 9, 9, 9, 9, 0, 0, 0, 0]
    );
}

#[test]
fn font_without_tables_is_twelve_bytes() {
    let bytes = TTCWriter::new().write_sfnt(&font(b"OTTO", &[])).unwrap();
    assert_eq!(bytes, vec![0x4f, 0x54, 0x54, 0x4f, 0, 0, 0, 0, 0, 0, 0, 0]);
}

#[test]
fn single_font_file_byte_by_byte() {
    let sfnt = font(&[0, 1, 0, 0], &[(b"head", head_table()), (b"abcd", vec![1, 2, 3])]);
    let bytes = TTCWriter::new().write_sfnt(&sfnt).unwrap();
    assert_eq!(bytes.len(), 103);
    assert_eq!(&bytes[0..12], &[0, 1, 0, 0, 0, 2, 0, 32, 0, 1, 0, 0]);
    assert_eq!(
        &bytes[12..28],
        &[0x61, 0x62, 0x63, 0x64, 0x01, 0x02, 0x03, 0x00, 0, 0, 0, 100, 0, 0, 0, 3]
    );
    assert_eq!(
        &bytes[28..44],
        &[0x68, 0x65, 0x61, 0x64, 0x00, 0xff, 0x00, 0x09, 0, 0, 0, 44, 0, 0, 0, 54]
    );
    let mut stored_head = head_table();
    for i in 8..12 {
        stored_head[i] = 0;
    }
    assert_eq!(&bytes[44..52], &stored_head[0..8]);
    assert_eq!(&bytes[56..98], &stored_head[12..54]);
    assert_eq!(&bytes[98..100], &[0, 0]);
    assert_eq!(&bytes[100..103], &[1, 2, 3]);
    let mut unadjusted = bytes.clone();
    for i in 52..56 {
        unadjusted[i] = 0;
    }
    let adjustment = 0xb1b0_afbau32.wrapping_sub(checksum_of(&unadjusted));
    assert_eq!(u32_at(&bytes, 52), adjustment);
    assert_eq!(checksum_of(&bytes), 0xb1b0_afba);
}

#[test]
fn directory_checksums_are_those_of_the_tables() {
    let tables: Vec<(&[u8; 4], Vec<u8>)> = vec![
        (b"head", head_table()),
        (b"glyf", (0..200u8).collect()),
        (b"loca", vec![0xff; 7]),
        (b"name", vec![]),
        (b"zzzz", vec![5; 33]),
        (b"OS/2", vec![1]),
    ];
    let sfnt = font(b"true", &tables);
    let bytes = TTCWriter::new().write_sfnt(&sfnt).unwrap();
    let n = u16_at(&bytes, 4) as usize;
    assert_eq!(n, 6);
    assert_eq!(u16_at(&bytes, 6), 64);
    assert_eq!(u16_at(&bytes, 8), 2);
    assert_eq!(u16_at(&bytes, 10), 32);
    let mut last_tag = None;
    let mut seen = Vec::new();
    for i in 0..n {
        let entry = 12 + 16 * i;
        let tag: [u8; 4] = [bytes[entry], bytes[entry + 1], bytes[entry + 2], bytes[entry + 3]];
        let checksum = u32_at(&bytes, entry + 4);
        let offset = u32_at(&bytes, entry + 8) as usize;
        let length = u32_at(&bytes, entry + 12) as usize;
        if let Some(prev) = last_tag {
            assert!(prev < tag);
        }
        last_tag = Some(tag);
        assert_eq!(offset % 4, 0);
        let mut body = bytes[offset..offset + length].to_vec();
        if &tag == b"head" {
            for k in 8..12 {
                body[k] = 0;
            }
        }
        assert_eq!(checksum, checksum_of(&body));
        let given = tables.iter().find(|(t, _)| **t == tag).unwrap();
        if &tag == b"head" {
            assert_eq!(&body[12..], &given.1[12..]);
        } else {
            assert_eq!(&body, &given.1);
        }
        seen.push((offset, length, tag));
    }
    seen.sort();
    let stored: Vec<[u8; 4]> = seen.iter().map(|s| s.2).collect();
    assert_eq!(
        stored,
        vec![*b"head", *b"OS/2", *b"loca", *b"glyf", *b"name", *b"zzzz"]
    );
    assert_eq!(seen[0].0, 12 + 16 * 6);
    for w in seen.windows(2) {
        assert_eq!(w[1].0, (w[0].0 + w[0].1 + 3) / 4 * 4);
    }
    assert_eq!(bytes.len(), seen[5].0 + seen[5].1);
    assert_eq!(checksum_of(&bytes), 0xb1b0_afba);
}

#[test]
fn tables_with_the_same_bytes_are_stored_twice_in_a_single_font() {
    let sfnt = font(b"OTTO", &[(b"aaaa", vec![7; 8]), (b"bbbb", vec![7; 8])]);
    let bytes = TTCWriter::new().write_sfnt(&sfnt).unwrap();
    assert_eq!(bytes.len(), 12 + 32 + 16);
    assert_eq!(u32_at(&bytes, 12 + 8), 44);
    assert_eq!(u32_at(&bytes, 28 + 8), 52);
}

#[test]
fn font_without_head_has_no_adjustment() {
    let sfnt = font(b"OTTO", &[(b"name", vec![1, 2, 3, 4, 5])]);
    let bytes = TTCWriter::new().write_sfnt(&sfnt).unwrap();
    let mut expected = vec![0x4f, 0x54, 0x54, 0x4f, 0, 1, 0, 16, 0, 0, 0, 0];
    expected.extend_from_slice(b"name");
    expected.extend_from_slice(&[0x01, 0x02, 0x03, 0x04 + 0x00]);
    expected[16] = 0x06;
    expected.extend_from_slice(&[0, 0, 0, 28, 0, 0, 0, 5]);
    expected.extend_from_slice(&[1, 2, 3, 4, 5]);
    assert_eq!(bytes, expected);
}

#[test]
fn container_of_one_font_is_written_as_that_font() {
    let sfnt = font(&[0, 1, 0, 0], &[(b"head", head_table()), (b"abcd", vec![1, 2, 3])]);
    let alone = TTCWriter::new().write_sfnt(&sfnt).unwrap();
    let mut ttc = container(2, 0, vec![sfnt]);
    ttc.dsig_tag = FourCC::new(b"DSIG");
    ttc.dsig_data = Rc::new(vec![1, 2, 3]);
    assert_eq!(TTCWriter::new().write_ttc(&ttc).unwrap(), alone);
    ttc.major_version = 7;
    assert_eq!(TTCWriter::new().write_ttc(&ttc).unwrap(), alone);
}

#[test]
fn collection_file_byte_by_byte() {
    let a = font(&[0, 1, 0, 0], &[(b"name", vec![1, 2, 3])]);
    let b = font(b"OTTO", &[(b"name", vec![4, 5, 6, 7, 8]), (b"CFF ", vec![9])]);
    let ttc = container(1, 0, vec![a, b]);
    let bytes = TTCWriter::new().write_ttc(&ttc).unwrap();
    let mut expected: Vec<u8> = Vec::new();
    expected.extend_from_slice(b"ttcf");
    expected.extend_from_slice(&[0, 1, 0, 0]);
    expected.extend_from_slice(&[0, 0, 0, 2]);
    expected.extend_from_slice(&[0, 0, 0, 20]);
    expected.extend_from_slice(&[0, 0, 0, 48]);
    // first directory, at 20
    expected.extend_from_slice(&[0, 1, 0, 0, 0, 1, 0, 16, 0, 0, 0, 0]);
    expected.extend_from_slice(b"name");
    expected.extend_from_slice(&[1, 2, 3, 0, 0, 0, 0, 92, 0, 0, 0, 3]);
    // second directory, at 48
    expected.extend_from_slice(b"OTTO");
    expected.extend_from_slice(&[0, 2, 0, 32, 0, 1, 0, 0]);
    expected.extend_from_slice(b"CFF ");
    expected.extend_from_slice(&[9, 0, 0, 0, 0, 0, 0, 104, 0, 0, 0, 1]);
    expected.extend_from_slice(b"name");
    expected.extend_from_slice(&[4 + 8, 5, 6, 7, 0, 0, 0, 96, 0, 0, 0, 5]);
    assert_eq!(expected.len(), 92);
    // tables
    expected.extend_from_slice(&[1, 2, 3, 0]);
    expected.extend_from_slice(&[4, 5, 6, 7, 8, 0, 0, 0]);
    expected.extend_from_slice(&[9]);
    assert_eq!(bytes, expected);
}

#[test]
fn collection_of_version_two_has_a_signature() {
    let a = font(&[0, 1, 0, 0], &[(b"name", vec![1, 2, 3])]);
    let b = font(&[0, 1, 0, 0], &[(b"name", vec![1, 2, 3])]);
    let mut ttc = container(2, 0, vec![a, b]);
    ttc.dsig_tag = FourCC::new(b"DSIG");
    ttc.dsig_data = Rc::new(vec![0, 0, 0, 1, 0, 0, 0, 0]);
    let bytes = TTCWriter::new().write_ttc(&ttc).unwrap();
    let mut expected: Vec<u8> = Vec::new();
    expected.extend_from_slice(b"ttcf");
    expected.extend_from_slice(&[0, 2, 0, 0]);
    expected.extend_from_slice(&[0, 0, 0, 2]);
    expected.extend_from_slice(&[0, 0, 0, 32]);
    expected.extend_from_slice(&[0, 0, 0, 60]);
    expected.extend_from_slice(b"DSIG");
    expected.extend_from_slice(&[0, 0, 0, 8]);
    expected.extend_from_slice(&[0, 0, 0, 92]);
    for _ in 0..2 {
        expected.extend_from_slice(&[0, 1, 0, 0, 0, 1, 0, 16, 0, 0, 0, 0]);
        expected.extend_from_slice(b"name");
        expected.extend_from_slice(&[1, 2, 3, 0, 0, 0, 0, 88, 0, 0, 0, 3]);
    }
    assert_eq!(expected.len(), 88);
    expected.extend_from_slice(&[1, 2, 3, 0]);
    expected.extend_from_slice(&[0, 0, 0, 1, 0, 0, 0, 0]);
    assert_eq!(bytes, expected);
}

#[test]
fn collection_of_version_two_without_signature() {
    let mut ttc = container(2, 0, vec![]);
    let bytes = TTCWriter::new().write_ttc(&ttc).unwrap();
    let mut expected: Vec<u8> = Vec::new();
    expected.extend_from_slice(b"ttcf");
    expected.extend_from_slice(&[0, 2, 0, 0, 0, 0, 0, 0]);
    expected.extend_from_slice(&[0; 12]);
    assert_eq!(bytes, expected);
    ttc.dsig_tag = FourCC::new(b"abcd");
    let bytes = TTCWriter::new().write_ttc(&ttc).unwrap();
    let mut expected: Vec<u8> = Vec::new();
    expected.extend_from_slice(b"ttcf");
    expected.extend_from_slice(&[0, 2, 0, 0, 0, 0, 0, 0]);
    expected.extend_from_slice(b"abcd");
    expected.extend_from_slice(&[0; 8]);
    assert_eq!(bytes, expected);
    ttc.dsig_data = Rc::new(vec![5, 6]);
    let bytes = TTCWriter::new().write_ttc(&ttc).unwrap();
    let mut expected: Vec<u8> = Vec::new();
    expected.extend_from_slice(b"ttcf");
    expected.extend_from_slice(&[0, 2, 0, 0, 0, 0, 0, 0]);
    expected.extend_from_slice(b"abcd");
    expected.extend_from_slice(&[0, 0, 0, 2, 0, 0, 0, 24, 5, 6]);
    assert_eq!(bytes, expected);
}

#[test]
fn shared_table_is_stored_once() {
    let cmap: Rc<Vec<u8>> = Rc::new((0..50u8).collect());
    let mut a = font(&[0, 1, 0, 0], &[(b"name", vec![1])]);
    let mut b = font(&[0, 1, 0, 0], &[(b"name", vec![2])]);
    for f in [&mut a, &mut b] {
        f.table_records.insert(
            FourCC::new(b"cmap"),
            TableRecord { checksum: 0, offset: 0, raw_data: cmap.clone() },
        );
    }
    let ttc = container(1, 0, vec![a, b]);
    let bytes = TTCWriter::new().write_ttc(&ttc).unwrap();
    let first = u32_at(&bytes, 12) as usize;
    let second = u32_at(&bytes, 16) as usize;
    assert_eq!((first, second), (20, 64));
    // cmap comes first in each directory
    assert_eq!(&bytes[first + 12..first + 16], b"cmap");
    assert_eq!(&bytes[second + 12..second + 16], b"cmap");
    let offset_a = u32_at(&bytes, first + 12 + 8);
    let offset_b = u32_at(&bytes, second + 12 + 8);
    assert_eq!(offset_a, offset_b);
    assert_eq!(offset_a, 108);
    assert_eq!(u32_at(&bytes, first + 12 + 12), 50);
    assert_eq!(&bytes[108..158], &cmap[..]);
    let found = bytes.windows(50).filter(|w| *w == &cmap[..]).count();
    assert_eq!(found, 1);
    // cmap is stored before name; the names follow, each at a multiple of
    // four
    assert_eq!(u32_at(&bytes, first + 28 + 8), 160);
    assert_eq!(u32_at(&bytes, second + 28 + 8), 164);
    assert_eq!(bytes.len(), 165);
}

#[test]
fn tables_with_the_same_bytes_are_shared_across_fonts() {
    let a = font(&[0, 1, 0, 0], &[(b"glyf", vec![3; 10]), (b"name", vec![3; 10])]);
    let b = font(&[0, 1, 0, 0], &[(b"post", vec![3; 10])]);
    let ttc = container(1, 0, vec![a, b]);
    let bytes = TTCWriter::new().write_ttc(&ttc).unwrap();
    let base = 20 + 12 + 32 + 12 + 16;
    assert_eq!(u32_at(&bytes, 20 + 12 + 8) as usize, base);
    assert_eq!(u32_at(&bytes, 20 + 28 + 8) as usize, base);
    assert_eq!(u32_at(&bytes, 64 + 12 + 8) as usize, base);
    assert_eq!(bytes.len(), base + 10);
}

#[test]
fn head_in_a_collection_is_stored_without_adjustment() {
    let a = font(&[0, 1, 0, 0], &[(b"head", head_table())]);
    let mut other = head_table();
    other[8] = 0xee;
    let b = font(&[0, 1, 0, 0], &[(b"head", other)]);
    let ttc = container(1, 0, vec![a, b]);
    let bytes = TTCWriter::new().write_ttc(&ttc).unwrap();
    let base = 20 + 28 + 28;
    assert_eq!(u32_at(&bytes, 20 + 12 + 8) as usize, base);
    assert_eq!(u32_at(&bytes, 48 + 12 + 8) as usize, base);
    assert_eq!(u32_at(&bytes, 20 + 12 + 4), 0x00ff_0009);
    assert_eq!(&bytes[base + 8..base + 12], &[0, 0, 0, 0]);
    assert_eq!(bytes.len(), base + 54);
}

#[test]
fn collection_of_a_version_above_two_is_refused() {
    let ttc = container(3, 0, vec![]);
    assert_eq!(TTCWriter::new().write_ttc(&ttc), Err(WriteError::UnsupportedVersion));
    let ttc = container(3, 0, vec![font(b"OTTO", &[]), font(b"OTTO", &[])]);
    assert_eq!(TTCWriter::new().write_ttc(&ttc), Err(WriteError::UnsupportedVersion));
}

#[test]
fn font_with_too_many_tables_is_refused() {
    let mut sfnt = SfntHeader::new(FourCC::new(b"OTTO"));
    let shared = Rc::new(Vec::new());
    for i in 0..65535u32 {
        sfnt.table_records.insert(
            FourCC::from_value(0x1000_0000 + i),
            TableRecord { checksum: 0, offset: 0, raw_data: shared.clone() },
        );
    }
    let bytes = TTCWriter::new().write_sfnt(&sfnt).unwrap();
    assert_eq!(bytes.len(), 12 + 16 * 65535);
    assert_eq!(u16_at(&bytes, 4), 65535);
    assert_eq!(u16_at(&bytes, 6), 32768);
    assert_eq!(u16_at(&bytes, 8), 15);
    assert_eq!(u16_at(&bytes, 10), 65520);
    sfnt.table_records.insert(
        FourCC::from_value(0x2000_0000),
        TableRecord { checksum: 0, offset: 0, raw_data: shared.clone() },
    );
    assert_eq!(TTCWriter::new().write_sfnt(&sfnt), Err(WriteError::TooManyTables));
    let ttc = container(1, 0, vec![font(b"OTTO", &[]), sfnt]);
    assert_eq!(TTCWriter::new().write_ttc(&ttc), Err(WriteError::TooManyTables));
}

#[test]
fn tables_of_a_collection_are_the_same_or_apart() {
    let fonts = vec![
        font(&[0, 1, 0, 0], &[(b"cmap", vec![1; 9]), (b"glyf", vec![2; 5]), (b"name", vec![])]),
        font(b"OTTO", &[(b"cmap", vec![1; 9]), (b"CFF ", vec![2; 5]), (b"post", vec![3; 5])]),
        font(b"true", &[(b"kern", vec![1; 9]), (b"name", vec![2; 6]), (b"zzzz", vec![])]),
    ];
    let ttc = container(1, 0, fonts);
    let bytes = TTCWriter::new().write_ttc(&ttc).unwrap();
    let mut extents: Vec<(usize, usize)> = Vec::new();
    for f in 0..3 {
        let at = u32_at(&bytes, 12 + 4 * f) as usize;
        let n = u16_at(&bytes, at + 4) as usize;
        for i in 0..n {
            let entry = at + 12 + 16 * i;
            extents.push((u32_at(&bytes, entry + 8) as usize, u32_at(&bytes, entry + 12) as usize));
        }
    }
    assert_eq!(extents.len(), 9);
    for a in extents.iter() {
        for b in extents.iter() {
            let same = a == b && bytes[a.0..a.0 + a.1] == bytes[b.0..b.0 + b.1];
            assert!(same || a.0 + a.1 <= b.0 || b.0 + b.1 <= a.0);
        }
    }
    let mut distinct = extents.clone();
    distinct.sort();
    distinct.dedup();
    // Four tables with bytes of their own, and the table without bytes.
    assert_eq!(distinct.len(), 5);
    let base = 24 + 3 * 12 + 9 * 16;
    let total: usize = distinct.iter().map(|e| e.1).sum();
    assert_eq!(total, 9 + 5 + 6 + 5);
    assert!(bytes.len() - base <= total + 3 * distinct.len());
    assert_eq!(bytes.len(), base + 12 + 8 + 0 + 8 + 6);
}

#[test]
fn tables_with_one_checksum_and_other_bytes_are_stored_apart() {
    let a = vec![0, 0, 0, 1, 0, 0, 0, 2];
    let b = vec![0, 0, 0, 2, 0, 0, 0, 1];
    assert_eq!(checksum_of(&a), checksum_of(&b));
    let fonts = vec![
        font(b"true", &[(b"aaaa", a.clone()), (b"bbbb", b.clone())]),
        font(b"true", &[(b"cccc", b.clone()), (b"dddd", a.clone()), (b"eeee", b.clone())]),
    ];
    let ttc = container(1, 0, fonts);
    let bytes = TTCWriter::new().write_ttc(&ttc).unwrap();
    let base = 20 + 2 * 12 + 5 * 16;
    assert_eq!(bytes.len(), base + 16);
    let first = u32_at(&bytes, 12) as usize;
    let second = u32_at(&bytes, 16) as usize;
    let offset = |at: usize, i: usize| u32_at(&bytes, at + 12 + 16 * i + 8) as usize;
    assert_eq!(offset(first, 0), base);
    assert_eq!(offset(first, 1), base + 8);
    assert_eq!(offset(second, 0), base + 8);
    assert_eq!(offset(second, 1), base);
    assert_eq!(offset(second, 2), base + 8);
    assert_eq!(&bytes[base..base + 8], &a[..]);
    assert_eq!(&bytes[base + 8..], &b[..]);
}
