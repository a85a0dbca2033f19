use faithtype::tag::FourCC;
use faithtype::ttc_reader::{ReadError, TTCReader};
use std::rc::Rc;

fn be32(v: u32) -> [u8; 4] {
    v.to_be_bytes()
}

/// A font directory at `at` with the given entries: tag, checksum, offset,
/// length.
fn directory(version: &[u8; 4], entries: &[(&[u8; 4], u32, u32, u32)]) -> Vec<u8> {
    let mut d = Vec::new();
    d.extend_from_slice(version);
    d.extend_from_slice(&(entries.len() as u16).to_be_bytes());
    d.extend_from_slice(&[0xde, 0xad, 0xbe, 0xef, 0xca, 0xfe]);
    for (tag, checksum, offset, length) in entries {
        d.extend_from_slice(*tag);
        d.extend_from_slice(&be32(*checksum));
        d.extend_from_slice(&be32(*offset));
        d.extend_from_slice(&be32(*length));
    }
    d
}

#[test]
fn single_font_is_read_as_a_collection_of_one() {
    let mut file = directory(&[0, 1, 0, 0], &[(b"name", 0x1234, 44, 3), (b"head", 7, 48, 5)]);
    assert_eq!(file.len(), 44);
    file.extend_from_slice(&[1, 2, 3, 0, 9, 8, 7, 6, 5]);
    let ttc = TTCReader::new(&file).read_ttc().unwrap();
    assert_eq!(ttc.ttc_tag, FourCC::new(b"ttcf"));
    assert_eq!((ttc.major_version, ttc.minor_version), (1, 0));
    assert_eq!(ttc.dsig_tag, FourCC::zeroed());
    assert!(ttc.dsig_data.is_empty());
    assert_eq!(ttc.table_directories.len(), 1);
    let sfnt = &ttc.table_directories[0];
    assert_eq!(sfnt.sfnt_version, FourCC::new(&[0, 1, 0, 0]));
    assert_eq!(sfnt.table_records.len(), 2);
    let name = sfnt.table_records.get(&FourCC::new(b"name")).unwrap();
    assert_eq!((name.checksum, name.offset), (0x1234, 44));
    assert_eq!(*name.raw_data, vec![1, 2, 3]);
    let head = sfnt.table_records.get(&FourCC::new(b"head")).unwrap();
    assert_eq!((head.checksum, head.offset), (7, 48));
    assert_eq!(*head.raw_data, vec![9, 8, 7, 6, 5]);
    let (first, _) = sfnt.table_records.entry_at(0).unwrap();
    assert_eq!(first, FourCC::new(b"head"));
}

#[test]
fn all_three_versions_are_read() {
    for version in [[0u8, 1, 0, 0], *b"OTTO", *b"true"] {
        let file = directory(&version, &[]);
        let ttc = TTCReader::new(&file).read_ttc().unwrap();
        assert_eq!(ttc.table_directories[0].sfnt_version, FourCC::new(&version));
        assert_eq!(ttc.table_directories[0].table_records.len(), 0);
    }
}

#[test]
fn other_versions_are_refused() {
    let file = directory(b"wOFF", &[]);
    assert_eq!(
        TTCReader::new(&file).read_ttc().err(),
        Some(ReadError::UnsupportedSfntVersion { position: 0, version: 0x774f_4646 })
    );
    let file = vec![0, 2, 0, 0];
    assert_eq!(
        TTCReader::new(&file).read_ttc().err(),
        Some(ReadError::UnsupportedSfntVersion { position: 0, version: 0x0002_0000 })
    );
}

#[test]
fn file_that_ends_early_is_refused() {
    let mut file = directory(&[0, 1, 0, 0], &[(b"name", 0, 28, 3)]);
    file.extend_from_slice(&[1, 2, 3]);
    assert!(TTCReader::new(&file).read_ttc().is_ok());
    for cut in 0..file.len() {
        assert_eq!(
            TTCReader::new(&file[..cut]).read_ttc().err(),
            Some(ReadError::Truncated),
            "cut at {}",
            cut
        );
    }
}

#[test]
fn table_without_bytes_may_start_anywhere() {
    let file = directory(b"OTTO", &[(b"name", 5, 0xffff_fff0, 0), (b"post", 6, 0, 0)]);
    let ttc = TTCReader::new(&file).read_ttc().unwrap();
    let sfnt = &ttc.table_directories[0];
    let name = sfnt.table_records.get(&FourCC::new(b"name")).unwrap();
    let post = sfnt.table_records.get(&FourCC::new(b"post")).unwrap();
    assert!(name.raw_data.is_empty());
    assert_eq!(name.offset, 0xffff_fff0);
    assert!(Rc::ptr_eq(&name.raw_data, &post.raw_data));
    assert!(Rc::ptr_eq(&name.raw_data, &ttc.dsig_data));
}

#[test]
fn table_that_reaches_beyond_the_file_is_refused() {
    let mut file = directory(b"OTTO", &[(b"name", 5, 28, 4)]);
    file.extend_from_slice(&[1, 2, 3]);
    assert_eq!(TTCReader::new(&file).read_ttc().err(), Some(ReadError::Truncated));
    let file = directory(b"OTTO", &[(b"name", 5, 0xffff_ffff, 0xffff_ffff)]);
    assert_eq!(TTCReader::new(&file).read_ttc().err(), Some(ReadError::Truncated));
}

#[test]
fn tables_may_overlap_the_directory() {
    let file = directory(b"OTTO", &[(b"name", 5, 0, 4), (b"post", 5, 2, 4)]);
    let ttc = TTCReader::new(&file).read_ttc().unwrap();
    let sfnt = &ttc.table_directories[0];
    assert_eq!(*sfnt.table_records.get(&FourCC::new(b"name")).unwrap().raw_data, b"OTTO".to_vec());
    assert_eq!(
        *sfnt.table_records.get(&FourCC::new(b"post")).unwrap().raw_data,
        vec![b'T', b'O', 0, 2]
    );
}

#[test]
fn of_two_entries_with_one_tag_the_later_counts() {
    let mut file = directory(b"OTTO", &[(b"name", 1, 44, 2), (b"name", 2, 46, 2)]);
    file.extend_from_slice(&[1, 1, 2, 2]);
    let ttc = TTCReader::new(&file).read_ttc().unwrap();
    let sfnt = &ttc.table_directories[0];
    assert_eq!(sfnt.table_records.len(), 1);
    let name = sfnt.table_records.get(&FourCC::new(b"name")).unwrap();
    assert_eq!((name.checksum, name.offset), (2, 46));
    assert_eq!(*name.raw_data, vec![2, 2]);
}

fn collection(major: u16, minor: u16) -> Vec<u8> {
    // Two fonts that name the same table.
    let mut file = Vec::new();
    file.extend_from_slice(b"ttcf");
    file.extend_from_slice(&major.to_be_bytes());
    file.extend_from_slice(&minor.to_be_bytes());
    file.extend_from_slice(&be32(2));
    let header = if major >= 2 { 32 } else { 20 };
    file.extend_from_slice(&be32(header));
    file.extend_from_slice(&be32(header + 28));
    let tables = header + 56;
    if major >= 2 {
        file.extend_from_slice(b"DSIG");
        file.extend_from_slice(&be32(8));
        file.extend_from_slice(&be32(tables + 8));
    }
    file.extend_from_slice(&directory(&[0, 1, 0, 0], &[(b"cmap", 1, tables, 6)]));
    file.extend_from_slice(&directory(b"OTTO", &[(b"cmap", 2, tables, 6)]));
    assert_eq!(file.len() as u32, tables);
    file.extend_from_slice(&[1, 2, 3, 4, 5, 6, 0, 0]);
    file.extend_from_slice(&[0, 0, 0, 1, 0, 0, 0, 0]);
    file
}

#[test]
fn collection_of_version_one() {
    let file = collection(1, 0);
    let ttc = TTCReader::new(&file).read_ttc().unwrap();
    assert_eq!(ttc.ttc_tag, FourCC::new(b"ttcf"));
    assert_eq!((ttc.major_version, ttc.minor_version), (1, 0));
    assert_eq!(ttc.table_directories.len(), 2);
    assert_eq!(ttc.dsig_tag, FourCC::zeroed());
    assert!(ttc.dsig_data.is_empty());
    let a = ttc.table_directories[0].table_records.get(&FourCC::new(b"cmap")).unwrap();
    let b = ttc.table_directories[1].table_records.get(&FourCC::new(b"cmap")).unwrap();
    assert_eq!(*a.raw_data, vec![1, 2, 3, 4, 5, 6]);
    assert_eq!((a.checksum, b.checksum), (1, 2));
    assert!(Rc::ptr_eq(&a.raw_data, &b.raw_data));
    assert_eq!(ttc.table_directories[1].sfnt_version, FourCC::new(b"OTTO"));
}

#[test]
fn collection_of_version_two_with_signature() {
    let file = collection(2, 0);
    let ttc = TTCReader::new(&file).read_ttc().unwrap();
    assert_eq!((ttc.major_version, ttc.minor_version), (2, 0));
    assert_eq!(ttc.dsig_tag, FourCC::new(b"DSIG"));
    assert_eq!(*ttc.dsig_data, vec![0, 0, 0, 1, 0, 0, 0, 0]);
    assert_eq!(ttc.table_directories.len(), 2);
}

#[test]
fn signature_under_another_tag_is_not_read() {
    let mut file = collection(2, 1);
    file[20..24].copy_from_slice(&[0, 0, 0, 0]);
    file[28..32].copy_from_slice(&[0xff, 0xff, 0xff, 0xff]);
    let ttc = TTCReader::new(&file).read_ttc().unwrap();
    assert_eq!((ttc.major_version, ttc.minor_version), (2, 1));
    assert_eq!(ttc.dsig_tag, FourCC::zeroed());
    assert!(ttc.dsig_data.is_empty());
}

#[test]
fn collection_of_version_three_is_refused() {
    let file = collection(3, 7);
    assert_eq!(
        TTCReader::new(&file).read_ttc().err(),
        Some(ReadError::UnsupportedTtcVersion { position: 4, major: 3, minor: 7 })
    );
}

#[test]
fn collection_that_ends_early_is_refused() {
    for major in [1, 2] {
        let file = collection(major, 0);
        let needed = file.len() - if major == 1 { 10 } else { 0 };
        for cut in 0..needed {
            let got = TTCReader::new(&file[..cut]).read_ttc();
            if cut >= 4 || cut == 0 {
                assert_eq!(got.err(), Some(ReadError::Truncated), "cut at {}", cut);
            } else {
                assert!(got.is_err());
            }
        }
        assert!(TTCReader::new(&file[..needed]).read_ttc().is_ok());
    }
}

#[test]
fn font_of_a_collection_with_an_unknown_version_is_refused() {
    let mut file = collection(1, 0);
    file[48..52].copy_from_slice(b"typ1");
    assert_eq!(
        TTCReader::new(&file).read_ttc().err(),
        Some(ReadError::UnsupportedSfntVersion { position: 48, version: 0x7479_7031 })
    );
    file[20..24].copy_from_slice(b"typ1");
    assert_eq!(
        TTCReader::new(&file).read_ttc().err(),
        Some(ReadError::UnsupportedSfntVersion { position: 20, version: 0x7479_7031 })
    );
}

#[test]
fn collection_without_fonts() {
    let mut file = Vec::new();
    file.extend_from_slice(b"ttcf");
    file.extend_from_slice(&[0, 1, 0, 0, 0, 0, 0, 0]);
    let ttc = TTCReader::new(&file).read_ttc().unwrap();
    assert_eq!(ttc.table_directories.len(), 0);
    assert_eq!((ttc.major_version, ttc.minor_version), (1, 0));
}

#[test]
fn collection_that_announces_more_fonts_than_it_has() {
    let mut file = Vec::new();
    file.extend_from_slice(b"ttcf");
    file.extend_from_slice(&[0, 1, 0, 0, 0xff, 0xff, 0xff, 0xff]);
    file.extend_from_slice(&be32(16));
    file.extend_from_slice(&directory(b"OTTO", &[]));
    assert_eq!(TTCReader::new(&file).read_ttc().err(), Some(ReadError::Truncated));
}
