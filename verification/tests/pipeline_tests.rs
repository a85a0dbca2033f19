use faithtype::checksum::checksum_of;
use faithtype::layout::WriteError;
use faithtype::modify::{patch_head, regenerate_gasp, remove_bitmap, remove_dsig, remove_hinting};
use faithtype::notes::Note;
use faithtype::pipeline::{convert, ConvertError, Options};
use faithtype::tables::TableRecord;
use faithtype::tag::FourCC;
use faithtype::ttc_reader::{ReadError, TTCReader};
use faithtype::ttc_writer::TTCWriter;
use faithtype::types::{SfntHeader, TTCHeader};
use std::rc::Rc;

fn font(version: &[u8; 4], tables: &[(&[u8; 4], Vec<u8>)]) -> SfntHeader {
    let mut sfnt = SfntHeader::new(FourCC::new(version));
    for (tag, data) in tables.iter() {
        sfnt.table_records.insert(FourCC::new(tag), TableRecord::new(data.clone()));
    }
    sfnt
}

fn container(major: u16, minor: u16, fonts: Vec<SfntHeader>) -> TTCHeader {
    TTCHeader {
        ttc_tag: FourCC::new(b"ttcf"),
        major_version: major,
        minor_version: minor,
        table_directories: fonts,
        dsig_tag: FourCC::zeroed(),
        dsig_data: Rc::new(Vec::new()),
    }
}

fn head(loca_format: u16) -> Vec<u8> {
    let mut h = vec![0u8; 54];
    h[8] = 0xde;
    h[9] = 0xad;
    h[17] = 0x0f;
    h[46] = 0x00;
    h[47] = 0x08;
    h[51] = loca_format as u8;
    h
}

fn simple_glyph(points: u16, instructions: &[u8], flags: &[u8], coords: &[u8]) -> Vec<u8> {
    let mut g = vec![0x00, 0x01, 0x00, 0x01, 0x00, 0x02, 0x00, 0x03, 0x00, 0x04];
    g.extend_from_slice(&(points - 1).to_be_bytes());
    g.extend_from_slice(&(instructions.len() as u16).to_be_bytes());
    g.extend_from_slice(instructions);
    g.extend_from_slice(flags);
    g.extend_from_slice(coords);
    g
}

fn long_loca(offsets: &[usize]) -> Vec<u8> {
    let mut v = Vec::new();
    for o in offsets {
        v.extend_from_slice(&(*o as u32).to_be_bytes());
    }
    v
}

fn hinted_font(version: &[u8; 4]) -> SfntHeader {
    let a = simple_glyph(2, &[1, 2, 3], &[0x01, 0x01], &[0, 1, 0, 2, 0, 3, 0, 4]);
    let b = simple_glyph(1, &[7], &[0x37], &[5, 6]);
    let mut composite = vec![0xff, 0xff, 0, 0, 0, 0, 0, 0, 0, 0, 0x01, 0x00, 0, 1, 2, 3];
    composite.extend_from_slice(&[0, 2, 0xb0, 0xb1]);
    let glyf = [a.clone(), b.clone(), composite.clone()].concat();
    let loca = long_loca(&[0, a.len(), a.len(), a.len() + b.len(), glyf.len()]);
    font(
        version,
        &[
            (b"head", head(1)),
            (b"maxp", vec![0x33; 32]),
            (b"loca", loca),
            (b"glyf", glyf),
            (b"fpgm", vec![1, 2, 3]),
            (b"prep", vec![4, 5]),
            (b"cvt ", vec![6]),
            (b"EBDT", vec![7]),
            (b"EBLC", vec![8]),
            (b"DSIG", vec![9; 20]),
            (b"gasp", vec![0, 0, 0, 0]),
            (b"name", vec![10, 11, 12]),
            (b"cmap", vec![13; 17]),
        ],
    )
}

fn treat(ttc: &mut TTCHeader) {
    remove_dsig(ttc);
    remove_bitmap(ttc);
    remove_hinting(ttc);
    regenerate_gasp(ttc);
    patch_head(ttc);
}

fn treat_file(file: &[u8]) -> Vec<u8> {
    let mut ttc = TTCReader::new(file).read_ttc().unwrap();
    treat(&mut ttc);
    TTCWriter::new().write_ttc(&ttc).unwrap()
}

fn tables_of(file: &[u8]) -> Vec<Vec<(FourCC, Vec<u8>)>> {
    let ttc = TTCReader::new(file).read_ttc().unwrap();
    ttc.table_directories
        .iter()
        .map(|sfnt| {
            (0..sfnt.table_records.len())
                .map(|i| {
                    let (tag, record) = sfnt.table_records.entry_at(i).unwrap();
                    (tag, (*record.raw_data).clone())
                })
                .collect()
        })
        .collect()
}

#[test]
fn apple_font_comes_out_as_truetype_with_patched_head() {
    let mut h = vec![0u8; 60];
    h[16] = 0x00;
    h[46] = 0x01;
    h[47] = 0x02;
    let input = TTCWriter::new().write_sfnt(&font(b"true", &[(b"head", h)])).unwrap();
    assert_eq!(&input[0..4], b"true");
    let output = treat_file(&input);
    assert_eq!(&output[0..4], &[0, 1, 0, 0]);
    let ttc = TTCReader::new(&output).read_ttc().unwrap();
    assert_eq!(ttc.table_directories.len(), 1);
    let sfnt = &ttc.table_directories[0];
    assert_eq!(sfnt.sfnt_version, FourCC::new(&[0, 1, 0, 0]));
    let head = sfnt.table_records.get(&FourCC::new(b"head")).unwrap();
    assert_eq!(head.raw_data[16] & 0x28, 0x28);
    assert_eq!(&head.raw_data[46..48], &[0, 0]);
    assert_eq!(checksum_of(&output), 0xb1b0_afba);
}

#[test]
fn written_font_is_read_back() {
    let sfnt = hinted_font(&[0, 1, 0, 0]);
    let file = TTCWriter::new().write_sfnt(&sfnt).unwrap();
    let ttc = TTCReader::new(&file).read_ttc().unwrap();
    assert_eq!(ttc.table_directories.len(), 1);
    let back = &ttc.table_directories[0];
    assert_eq!(back.sfnt_version, sfnt.sfnt_version);
    assert_eq!(back.table_records.len(), sfnt.table_records.len());
    for i in 0..sfnt.table_records.len() {
        let (tag, record) = sfnt.table_records.entry_at(i).unwrap();
        let (tag_back, record_back) = back.table_records.entry_at(i).unwrap();
        assert_eq!(tag, tag_back);
        if tag == FourCC::new(b"head") {
            assert_eq!(&record.raw_data[..8], &record_back.raw_data[..8]);
            assert_eq!(&record.raw_data[12..], &record_back.raw_data[12..]);
        } else {
            assert_eq!(record.raw_data, record_back.raw_data);
            assert_eq!(record_back.checksum, checksum_of(&record.raw_data));
        }
        assert_eq!(record_back.offset % 4, 0);
    }
}

#[test]
fn written_file_is_copied_byte_for_byte() {
    let single = TTCWriter::new().write_sfnt(&hinted_font(b"true")).unwrap();
    let read = TTCReader::new(&single).read_ttc().unwrap();
    assert_eq!(TTCWriter::new().write_ttc(&read).unwrap(), single);
    for major in [1, 2] {
        let mut ttc = container(
            major,
            0,
            vec![hinted_font(&[0, 1, 0, 0]), hinted_font(b"OTTO"), font(b"true", &[])],
        );
        if major == 2 {
            ttc.dsig_tag = FourCC::new(b"DSIG");
            ttc.dsig_data = Rc::new(vec![1, 2, 3, 4, 5]);
        }
        let file = TTCWriter::new().write_ttc(&ttc).unwrap();
        let read = TTCReader::new(&file).read_ttc().unwrap();
        assert_eq!(read.table_directories.len(), 3);
        assert_eq!(TTCWriter::new().write_ttc(&read).unwrap(), file);
    }
}

#[test]
fn tables_of_a_collection_are_read_back() {
    let ttc = container(1, 0, vec![hinted_font(&[0, 1, 0, 0]), hinted_font(b"OTTO")]);
    let file = TTCWriter::new().write_ttc(&ttc).unwrap();
    let read = TTCReader::new(&file).read_ttc().unwrap();
    for (a, b) in ttc.table_directories.iter().zip(read.table_directories.iter()) {
        assert_eq!(a.sfnt_version, b.sfnt_version);
        assert_eq!(a.table_records.len(), b.table_records.len());
        for i in 0..a.table_records.len() {
            let (tag, record) = a.table_records.entry_at(i).unwrap();
            let (tag_back, record_back) = b.table_records.entry_at(i).unwrap();
            assert_eq!(tag, tag_back);
            if tag == FourCC::new(b"head") {
                assert_eq!(&record_back.raw_data[8..12], &[0, 0, 0, 0]);
            } else {
                assert_eq!(record.raw_data, record_back.raw_data);
            }
            assert_eq!(record_back.checksum, checksum_of(&record_back.raw_data));
        }
    }
    let first = read.table_directories[0].table_records.get(&FourCC::new(b"glyf")).unwrap();
    let second = read.table_directories[1].table_records.get(&FourCC::new(b"glyf")).unwrap();
    assert!(Rc::ptr_eq(&first.raw_data, &second.raw_data));
}

#[test]
fn treating_a_font_twice_changes_nothing_more() {
    let input = TTCWriter::new().write_sfnt(&hinted_font(&[0, 1, 0, 0])).unwrap();
    let once = treat_file(&input);
    let twice = treat_file(&once);
    assert_ne!(input, once);
    assert_eq!(once, twice);
    assert_eq!(checksum_of(&once), 0xb1b0_afba);
}

#[test]
fn treating_a_collection_twice_changes_nothing_more() {
    let ttc = container(1, 0, vec![hinted_font(&[0, 1, 0, 0]), hinted_font(b"true")]);
    let input = TTCWriter::new().write_ttc(&ttc).unwrap();
    let once = treat_file(&input);
    let twice = treat_file(&once);
    assert_ne!(input, once);
    assert_eq!(once, twice);
    assert_eq!(&once[0..8], &[b't', b't', b'c', b'f', 0, 2, 0, 0]);
}

#[test]
fn treated_font_holds_what_the_treatment_says() {
    let input = TTCWriter::new().write_sfnt(&hinted_font(&[0, 1, 0, 0])).unwrap();
    let output = treat_file(&input);
    let tables = tables_of(&output);
    assert_eq!(tables.len(), 1);
    let tags: Vec<[u8; 4]> = tables[0].iter().map(|(t, _)| t.0).collect();
    assert_eq!(
        tags,
        vec![
            *b"DSIG", *b"cmap", *b"gasp", *b"glyf", *b"head", *b"loca", *b"maxp", *b"name",
            *b"prep"
        ]
    );
    let get = |tag: &[u8; 4]| -> &Vec<u8> {
        &tables[0].iter().find(|(t, _)| t.0 == *tag).unwrap().1
    };
    assert_eq!(get(b"DSIG"), &vec![0, 0, 0, 1, 0, 0, 0, 0]);
    assert_eq!(get(b"gasp"), &vec![0, 1, 0, 1, 0xff, 0xff, 0, 0x0a]);
    assert_eq!(get(b"prep").len(), 15);
    assert_eq!(get(b"name"), &vec![10, 11, 12]);
    let a = simple_glyph(2, &[], &[0x01, 0x01], &[0, 1, 0, 2, 0, 3, 0, 4]);
    let b = simple_glyph(1, &[], &[0x37], &[5, 6]);
    let composite = vec![0xff, 0xff, 0, 0, 0, 0, 0, 0, 0, 0, 0x00, 0x00, 0, 1, 2, 3];
    assert_eq!(a.len() % 2, 0);
    assert_eq!(b.len() % 2, 1);
    let mut glyf = a.clone();
    glyf.extend_from_slice(&b);
    glyf.push(0);
    glyf.extend_from_slice(&composite);
    assert_eq!(get(b"glyf"), &glyf);
    let halves = [0, a.len() / 2, a.len() / 2, (a.len() + b.len() + 1) / 2, glyf.len() / 2];
    let loca: Vec<u8> = halves.iter().flat_map(|h| (*h as u16).to_be_bytes()).collect();
    assert_eq!(get(b"loca"), &loca);
    let head = get(b"head");
    assert_eq!(head[16], 0x28);
    assert_eq!(head[17], 0x01);
    assert_eq!(&head[46..48], &[0, 0]);
    assert_eq!(&head[50..52], &[0, 0]);
}

#[test]
fn padding_may_complete_a_glyph_that_is_cut_short() {
    // The second glyph lacks its last coordinate byte. In the new stream a
    // zero byte follows it, which a second treatment takes for that byte.
    let whole = simple_glyph(1, &[0xb0, 0xb1], &[0x37], &[1, 2]);
    let cut = simple_glyph(1, &[0xb0], &[0x01], &[1, 2, 3]);
    assert_eq!(cut.len(), 19);
    let glyf = [whole.clone(), cut.clone()].concat();
    let loca = long_loca(&[0, whole.len(), glyf.len()]);
    let sfnt =
        font(&[0, 1, 0, 0], &[(b"head", head(1)), (b"loca", loca), (b"glyf", glyf)]);
    let input = TTCWriter::new().write_sfnt(&sfnt).unwrap();
    let once = treat_file(&input);
    let twice = treat_file(&once);
    let find = |file: &[u8]| -> Vec<u8> {
        tables_of(file)[0].iter().find(|(t, _)| t.0 == *b"glyf").unwrap().1.clone()
    };
    let mut plain = simple_glyph(1, &[], &[0x37], &[1, 2]);
    assert_eq!(plain.len(), 17);
    plain.push(0);
    let mut first = plain.clone();
    first.extend_from_slice(&cut);
    first.push(0);
    assert_eq!(find(&once), first);
    let mut second = plain.clone();
    second.extend_from_slice(&simple_glyph(1, &[], &[0x01], &[1, 2, 3, 0]));
    second.push(0);
    assert_eq!(find(&twice), second);
}

#[test]
fn collection_of_version_one_is_written_as_version_two_with_a_signature() {
    let fonts = vec![
        font(&[0, 1, 0, 0], &[(b"name", vec![1, 2, 3])]),
        font(b"OTTO", &[(b"name", vec![4, 5])]),
    ];
    let input = TTCWriter::new().write_ttc(&container(1, 0, fonts)).unwrap();
    assert_eq!(&input[4..8], &[0, 1, 0, 0]);
    let mut ttc = TTCReader::new(&input).read_ttc().unwrap();
    assert_eq!((ttc.major_version, ttc.minor_version), (1, 0));
    remove_dsig(&mut ttc);
    let output = TTCWriter::new().write_ttc(&ttc).unwrap();
    assert_eq!(&output[0..4], b"ttcf");
    assert_eq!(&output[4..8], &[0, 2, 0, 0]);
    assert_eq!(&output[8..12], &[0, 0, 0, 2]);
    assert_eq!(&output[20..24], b"DSIG");
    assert_eq!(&output[24..28], &[0, 0, 0, 8]);
    let at = u32::from_be_bytes([output[28], output[29], output[30], output[31]]) as usize;
    assert_eq!(at % 4, 0);
    assert_eq!(&output[at..at + 8], &[0, 0, 0, 1, 0, 0, 0, 0]);
    assert_eq!(output.len(), at + 8);
    let back = TTCReader::new(&output).read_ttc().unwrap();
    assert_eq!((back.major_version, back.minor_version), (2, 0));
    assert_eq!(back.dsig_tag, FourCC::new(b"DSIG"));
    assert_eq!(*back.dsig_data, vec![0, 0, 0, 1, 0, 0, 0, 0]);
    assert_eq!(back.table_directories.len(), 2);
    for sfnt in back.table_directories.iter() {
        assert!(sfnt.table_records.get(&FourCC::new(b"DSIG")).is_none());
        assert_eq!(sfnt.table_records.len(), 1);
    }
}

#[test]
fn converting_reads_treats_and_writes() {
    let input = TTCWriter::new().write_sfnt(&hinted_font(b"true")).unwrap();
    let all = Options { keep_bitmap: false, keep_gasp: false, keep_hinting: false };
    let done = convert(&input, all);
    assert_eq!(done.notes, vec![Note::Rebuilt { font: 0 }]);
    let output = done.output.unwrap();
    assert_eq!(output, treat_file(&input));
    let again = convert(&output, all);
    assert_eq!(again.notes, vec![]);
    assert_eq!(again.output.unwrap(), output);
}

#[test]
fn what_is_to_stay_stays() {
    let input = TTCWriter::new().write_sfnt(&hinted_font(&[0, 1, 0, 0])).unwrap();
    let keep = Options { keep_bitmap: true, keep_gasp: true, keep_hinting: true };
    let done = convert(&input, keep);
    assert_eq!(done.notes, vec![]);
    let output = done.output.unwrap();
    let tables = tables_of(&output);
    let given = tables_of(&input);
    assert_eq!(tables[0].len(), given[0].len());
    for ((tag, data), (given_tag, given_data)) in tables[0].iter().zip(given[0].iter()) {
        assert_eq!(tag, given_tag);
        if tag.0 == *b"DSIG" {
            assert_eq!(data, &vec![0, 0, 0, 1, 0, 0, 0, 0]);
        } else if tag.0 == *b"head" {
            assert_eq!(data[16], 0x28);
            assert_eq!(&data[17..46], &given_data[17..46]);
            assert_eq!(&data[46..48], &[0, 0]);
            assert_eq!(&data[48..], &given_data[48..]);
        } else {
            assert_eq!(data, given_data);
        }
    }
    let mut ttc = TTCReader::new(&input).read_ttc().unwrap();
    treat_with(&mut ttc, keep);
    assert_eq!(TTCWriter::new().write_ttc(&ttc).unwrap(), output);
}

#[test]
fn each_change_can_be_left_out() {
    let input = TTCWriter::new().write_sfnt(&hinted_font(&[0, 1, 0, 0])).unwrap();
    for bits in 0..8u8 {
        let options = Options {
            keep_bitmap: bits & 1 != 0,
            keep_gasp: bits & 2 != 0,
            keep_hinting: bits & 4 != 0,
        };
        let output = convert(&input, options).output.unwrap();
        let tables = tables_of(&output);
        let has = |tag: &[u8; 4]| tables[0].iter().any(|(t, _)| t.0 == *tag);
        let get = |tag: &[u8; 4]| tables[0].iter().find(|(t, _)| t.0 == *tag).unwrap().1.clone();
        assert_eq!(has(b"EBDT"), options.keep_bitmap);
        assert_eq!(has(b"EBLC"), options.keep_bitmap);
        assert_eq!(has(b"fpgm"), options.keep_hinting);
        assert_eq!(has(b"cvt "), options.keep_hinting);
        assert_eq!(get(b"gasp") == vec![0, 0, 0, 0], options.keep_gasp);
        assert_eq!(get(b"prep") == vec![4, 5], options.keep_hinting);
        assert_eq!(get(b"DSIG"), vec![0, 0, 0, 1, 0, 0, 0, 0]);
        assert_eq!(get(b"head")[16], 0x28);
    }
}

#[test]
fn file_that_cannot_be_read_is_not_converted() {
    let all = Options { keep_bitmap: false, keep_gasp: false, keep_hinting: false };
    let done = convert(&[1, 2, 3], all);
    assert_eq!(done.notes, vec![]);
    assert_eq!(done.output, Err(ConvertError::Read(ReadError::Truncated)));
    let done = convert(b"wOFF....", all);
    assert_eq!(
        done.output,
        Err(ConvertError::Read(ReadError::UnsupportedSfntVersion {
            position: 0,
            version: 0x774f_4646
        }))
    );
}

#[test]
fn font_that_cannot_be_written_is_not_converted() {
    // A collection without fonts and of a version that is not written.
    let mut file = Vec::new();
    file.extend_from_slice(b"ttcf");
    file.extend_from_slice(&[0, 2, 0, 0, 0, 0, 0, 0]);
    file.extend_from_slice(&[0; 12]);
    let all = Options { keep_bitmap: false, keep_gasp: false, keep_hinting: false };
    assert!(convert(&file, all).output.is_ok());
    let mut ttc = TTCReader::new(&file).read_ttc().unwrap();
    ttc.major_version = 3;
    assert_eq!(TTCWriter::new().write_ttc(&ttc), Err(WriteError::UnsupportedVersion));
}

fn treat_with(ttc: &mut TTCHeader, options: Options) {
    faithtype::pipeline::treat(ttc, options);
}
