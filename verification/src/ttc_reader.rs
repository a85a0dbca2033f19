//! The reader: from the bytes of a font file to the parsed container.

use crate::bytes::{copy_bytes, read_u16, read_u32, u16_at, u32_at};
use crate::tables::{TableMap, TableRecord, TableView};
use crate::tag::{FourCC, DSIG, OTTO, TRUE, TRUETYPE, TTCF};
use crate::types::{font_views, SfntHeader, SfntView, TTCHeader, TTCView};
use std::collections::HashMap;
use std::rc::Rc;
use vstd::prelude::*;

verus! {

/// Why a file cannot be read.
#[derive(Clone, Copy, Debug, PartialEq, Eq, Structural)]
pub enum ReadError {
    /// The file ends before what it announces.
    Truncated,
    /// A font has a version tag other than those of TrueType, CFF and Apple
    /// TrueType fonts; `position` is the place of the tag in the file.
    UnsupportedSfntVersion { position: usize, version: u32 },
    /// The collection has a major version above 2; `position` is the place
    /// of the version in the file.
    UnsupportedTtcVersion { position: usize, major: u16, minor: u16 },
}

/// The `length` bytes of the file from `offset` on, if the file has them. A
/// table without bytes is there wherever it is said to start.
pub open spec fn blob_at(data: Seq<u8>, offset: int, length: int) -> Option<Seq<u8>> {
    if length == 0 {
        Some(Seq::empty())
    } else if offset + length <= data.len() {
        Some(data.subrange(offset, offset + length))
    } else {
        None
    }
}

/// The table that the directory entry at place `entry` describes, under its
/// tag, if the file holds the entry and the bytes of the table.
pub open spec fn table_at(data: Seq<u8>, entry: int) -> Option<(u32, TableView)> {
    if entry + 16 > data.len() {
        None
    } else {
        match blob_at(data, u32_at(data, entry + 8) as int, u32_at(data, entry + 12) as int) {
            Some(bytes) => Some(
                (
                    u32_at(data, entry),
                    TableView {
                        checksum: u32_at(data, entry + 4),
                        offset: u32_at(data, entry + 8),
                        raw_data: bytes,
                    },
                ),
            ),
            None => None,
        }
    }
}

/// The tables that the first `n` entries of the directory at place `first`
/// describe, if the file holds them all. Of two entries with the same tag
/// the later one counts.
pub open spec fn tables_at(data: Seq<u8>, first: int, n: nat) -> Option<Map<u32, TableView>>
    decreases n,
{
    if n == 0 {
        Some(Map::empty())
    } else {
        match tables_at(data, first, (n - 1) as nat) {
            Some(tables) => match table_at(data, first + 16 * (n - 1)) {
                Some((tag, table)) => Some(tables.insert(tag, table)),
                None => None,
            },
            None => None,
        }
    }
}

/// Whether fonts of this version are read.
pub open spec fn known_version(version: u32) -> bool {
    version == TRUETYPE || version == OTTO || version == TRUE
}

/// The font whose directory starts at place `at` of the file.
pub open spec fn parse_sfnt(data: Seq<u8>, at: int) -> Result<SfntView, ReadError> {
    if at + 4 > data.len() {
        Err(ReadError::Truncated)
    } else if !known_version(u32_at(data, at)) {
        Err(
            ReadError::UnsupportedSfntVersion {
                position: at as usize,
                version: u32_at(data, at),
            },
        )
    } else if at + 12 > data.len() {
        Err(ReadError::Truncated)
    } else {
        match tables_at(data, at + 12, u16_at(data, at + 4) as nat) {
            Some(tables) => Ok(SfntView { sfnt_version: u32_at(data, at), tables }),
            None => Err(ReadError::Truncated),
        }
    }
}

/// The first `n` fonts of a collection file, or what keeps the first of
/// them that cannot be read from being read.
pub open spec fn fonts_at(data: Seq<u8>, n: nat) -> Result<Seq<SfntView>, ReadError>
    decreases n,
{
    if n == 0 {
        Ok(Seq::empty())
    } else {
        match fonts_at(data, (n - 1) as nat) {
            Ok(fonts) => if 12 + 4 * n > data.len() {
                Err(ReadError::Truncated)
            } else {
                match parse_sfnt(data, u32_at(data, 12 + 4 * (n - 1)) as int) {
                    Ok(font) => Ok(fonts.push(font)),
                    Err(e) => Err(e),
                }
            },
            Err(e) => Err(e),
        }
    }
}

/// A single font as a container.
pub open spec fn single_font(font: SfntView) -> TTCView {
    TTCView {
        ttc_tag: TTCF,
        major_version: 1,
        minor_version: 0,
        fonts: seq![font],
        dsig_tag: 0,
        dsig_data: Seq::empty(),
    }
}

/// The signature of a collection of version 2 with `n` fonts: its tag, and
/// its bytes where the tag is that of a signature.
pub open spec fn dsig_at(data: Seq<u8>, n: nat) -> Option<(u32, Seq<u8>)> {
    let at = 12 + 4 * (n as int);
    if at + 12 > data.len() {
        None
    } else if u32_at(data, at) == DSIG {
        match blob_at(data, u32_at(data, at + 8) as int, u32_at(data, at + 4) as int) {
            Some(bytes) => Some((DSIG, bytes)),
            None => None,
        }
    } else {
        Some((u32_at(data, at), Seq::empty()))
    }
}

/// The collection that a file with the collection tag holds.
pub open spec fn parse_collection(data: Seq<u8>) -> Result<TTCView, ReadError>
    recommends
        data.len() >= 4,
{
    if data.len() < 8 {
        Err(ReadError::Truncated)
    } else if u16_at(data, 4) > 2 {
        Err(
            ReadError::UnsupportedTtcVersion {
                position: 4,
                major: u16_at(data, 4),
                minor: u16_at(data, 6),
            },
        )
    } else if data.len() < 12 {
        Err(ReadError::Truncated)
    } else {
        match fonts_at(data, u32_at(data, 8) as nat) {
            Ok(fonts) => if u16_at(data, 4) < 2 {
                Ok(
                    TTCView {
                        ttc_tag: TTCF,
                        major_version: u16_at(data, 4),
                        minor_version: u16_at(data, 6),
                        fonts,
                        dsig_tag: 0,
                        dsig_data: Seq::empty(),
                    },
                )
            } else {
                match dsig_at(data, u32_at(data, 8) as nat) {
                    Some((tag, bytes)) => Ok(
                        TTCView {
                            ttc_tag: TTCF,
                            major_version: u16_at(data, 4),
                            minor_version: u16_at(data, 6),
                            fonts,
                            dsig_tag: tag,
                            dsig_data: bytes,
                        },
                    ),
                    None => Err(ReadError::Truncated),
                }
            },
            Err(e) => Err(e),
        }
    }
}

/// The container that a file holds: a collection where the file starts with
/// the collection tag, else a single font.
pub open spec fn parse_container(data: Seq<u8>) -> Result<TTCView, ReadError> {
    if data.len() < 4 {
        Err(ReadError::Truncated)
    } else if u32_at(data, 0) != TTCF {
        match parse_sfnt(data, 0) {
            Ok(font) => Ok(single_font(font)),
            Err(e) => Err(e),
        }
    } else {
        parse_collection(data)
    }
}

/// Whether the container is as the reader gives containers: with the
/// collection tag, fonts of the versions that are read, and bytes of a
/// signature only under the tag of a signature.
pub open spec fn is_as_read(ttc: TTCView) -> bool {
    &&& ttc.ttc_tag == TTCF
    &&& forall|f: int|
        0 <= f < ttc.fonts.len() ==> (#[trigger] ttc.fonts[f]).tables.dom().finite()
            && known_version(ttc.fonts[f].sfnt_version)
    &&& ttc.dsig_tag != DSIG ==> ttc.dsig_data.len() == 0
}

/// The tables that the reader finds in a directory are finitely many.
pub proof fn lemma_tables_at_finite(data: Seq<u8>, first: int, n: nat)
    requires
        tables_at(data, first, n) is Some,
    ensures
        tables_at(data, first, n)->0.dom().finite(),
    decreases n,
{
    if n > 0 {
        lemma_tables_at_finite(data, first, (n - 1) as nat);
    }
}

/// The fonts that the reader finds in a collection are of the versions
/// that are read, and have finitely many tables each.
pub proof fn lemma_fonts_at_readable(data: Seq<u8>, n: nat)
    requires
        fonts_at(data, n) is Ok,
    ensures
        fonts_at(data, n)->Ok_0.len() == n,
        forall|f: int|
            0 <= f < n ==> (#[trigger] fonts_at(data, n)->Ok_0[f]).tables.dom().finite()
                && known_version(fonts_at(data, n)->Ok_0[f].sfnt_version),
    decreases n,
{
    if n > 0 {
        lemma_fonts_at_readable(data, (n - 1) as nat);
        let at = u32_at(data, 12 + 4 * (n - 1)) as int;
        lemma_tables_at_finite(data, at + 12, u16_at(data, at + 4) as nat);
    }
}

/// Every container that the reader gives is as the reader gives
/// containers.
pub proof fn lemma_parsed_is_as_read(data: Seq<u8>)
    requires
        parse_container(data) is Ok,
    ensures
        is_as_read(parse_container(data)->Ok_0),
{
    let ttc = parse_container(data)->Ok_0;
    if u32_at(data, 0) != TTCF {
        lemma_tables_at_finite(data, 12, u16_at(data, 4) as nat);
        assert(ttc.fonts[0] == parse_sfnt(data, 0)->Ok_0);
    } else {
        lemma_fonts_at_readable(data, u32_at(data, 8) as nat);
    }
}

/// Once an entry cannot be read, no longer directory can.
pub proof fn lemma_tables_at_fails(data: Seq<u8>, first: int, m: nat, n: nat)
    requires
        m <= n,
        tables_at(data, first, m) is None,
    ensures
        tables_at(data, first, n) is None,
    decreases n - m,
{
    if m < n {
        lemma_tables_at_fails(data, first, m, (n - 1) as nat);
    }
}

/// Once a font cannot be read, no longer list of fonts can, for the same
/// reason.
pub proof fn lemma_fonts_at_fails(data: Seq<u8>, m: nat, n: nat)
    requires
        m <= n,
        fonts_at(data, m) is Err,
    ensures
        fonts_at(data, n) == fonts_at(data, m),
    decreases n - m,
{
    if m < n {
        lemma_fonts_at_fails(data, m, (n - 1) as nat);
    }
}

/// The place in the file and the length that a key of the cache stands for.
spec fn cache_key(offset: u32, length: u32) -> u64 {
    (offset * 0x1_0000_0000 + length) as u64
}

/// A place in the file from which the next bytes are read, with the tables
/// read so far, each kept under its place and length so that a table that
/// several fonts name is held once.
struct Cursor<'a> {
    data: &'a [u8],
    pos: usize,
    raw_data_cache: HashMap<u64, Rc<Vec<u8>>>,
}

impl<'a> Cursor<'a> {
    /// Whether each table of the cache holds the bytes of the file that its
    /// key stands for.
    spec fn wf(self) -> bool {
        forall|offset: u32, length: u32| #[trigger]
            self.raw_data_cache@.contains_key(cache_key(offset, length)) ==> blob_at(
                self.data@,
                offset as int,
                length as int,
            ) == Some(self.raw_data_cache@[cache_key(offset, length)]@)
    }

    /// A cursor at the start of the file.
    fn new(data: &'a [u8]) -> (cursor: Self)
        ensures
            cursor.wf(),
            cursor.data == data,
            cursor.pos == 0,
    {
        Cursor { data, pos: 0, raw_data_cache: HashMap::new() }
    }

    /// Reads a 16-bit number, the high byte first.
    fn read_u16be(&mut self) -> (r: Result<u16, ReadError>)
        ensures
            final(self).data == old(self).data,
            final(self).raw_data_cache == old(self).raw_data_cache,
            match r {
                Ok(value) => old(self).pos + 2 <= old(self).data@.len() && value == u16_at(
                    old(self).data@,
                    old(self).pos as int,
                ) && final(self).pos == old(self).pos + 2,
                Err(e) => e == ReadError::Truncated && old(self).pos + 2 > old(self).data@.len()
                    && final(self).pos == old(self).pos,
            },
    {
        assert(self.data@.len() == self.data.len());
        match read_u16(self.data, self.pos) {
            Some(value) => {
                self.pos = self.pos + 2;
                Ok(value)
            },
            None => Err(ReadError::Truncated),
        }
    }

    /// Reads a 32-bit number, the high byte first.
    fn read_u32be(&mut self) -> (r: Result<u32, ReadError>)
        ensures
            final(self).data == old(self).data,
            final(self).raw_data_cache == old(self).raw_data_cache,
            match r {
                Ok(value) => old(self).pos + 4 <= old(self).data@.len() && value == u32_at(
                    old(self).data@,
                    old(self).pos as int,
                ) && final(self).pos == old(self).pos + 4,
                Err(e) => e == ReadError::Truncated && old(self).pos + 4 > old(self).data@.len()
                    && final(self).pos == old(self).pos,
            },
    {
        assert(self.data@.len() == self.data.len());
        match read_u32(self.data, self.pos) {
            Some(value) => {
                self.pos = self.pos + 4;
                Ok(value)
            },
            None => Err(ReadError::Truncated),
        }
    }

    /// Reads the four bytes of a tag.
    fn read_fourcc(&mut self) -> (r: Result<FourCC, ReadError>)
        ensures
            final(self).data == old(self).data,
            final(self).raw_data_cache == old(self).raw_data_cache,
            match r {
                Ok(tag) => old(self).pos + 4 <= old(self).data@.len() && tag@ == u32_at(
                    old(self).data@,
                    old(self).pos as int,
                ) && final(self).pos == old(self).pos + 4,
                Err(e) => e == ReadError::Truncated && old(self).pos + 4 > old(self).data@.len()
                    && final(self).pos == old(self).pos,
            },
    {
        match self.read_u32be() {
            Ok(value) => Ok(FourCC::from_value(value)),
            Err(e) => Err(e),
        }
    }

    /// The table without bytes, which all tables without bytes share.
    fn empty_raw_data(&mut self) -> (blob: Rc<Vec<u8>>)
        requires
            old(self).wf(),
        ensures
            final(self).wf(),
            final(self).data == old(self).data,
            final(self).pos == old(self).pos,
            blob@ == Seq::<u8>::empty(),
    {
        self.cached(0, 0)
    }

    /// The `length` bytes of the file from `offset` on, which must be there,
    /// from the cache where it has them.
    fn cached(&mut self, offset: u32, length: u32) -> (blob: Rc<Vec<u8>>)
        requires
            old(self).wf(),
            blob_at(old(self).data@, offset as int, length as int) is Some,
        ensures
            final(self).wf(),
            final(self).data == old(self).data,
            final(self).pos == old(self).pos,
            Some(blob@) == blob_at(old(self).data@, offset as int, length as int),
    {
        let key: u64 = (offset as u64) * 0x1_0000_0000 + (length as u64);
        assert(key == cache_key(offset, length));
        let known = match self.raw_data_cache.get(&key) {
            Some(blob) => Some(blob.clone()),
            None => None,
        };
        match known {
            Some(blob) => blob,
            None => {
                let bytes = if length == 0 {
                    Vec::new()
                } else {
                    assert(self.data@.len() == self.data.len());
                    let from = offset as usize;
                    let part = vstd::slice::slice_subrange(
                        self.data,
                        from,
                        from + length as usize,
                    );
                    copy_bytes(part)
                };
                let blob = Rc::new(bytes);
                let ghost before = self.raw_data_cache@;
                self.raw_data_cache.insert(key, blob.clone());
                proof {
                    assert forall|o: u32, l: u32| #[trigger]
                        self.raw_data_cache@.contains_key(cache_key(o, l)) implies blob_at(
                        self.data@,
                        o as int,
                        l as int,
                    ) == Some(self.raw_data_cache@[cache_key(o, l)]@) by {
                        if cache_key(o, l) == key {
                            assert(o == offset && l == length);
                        } else {
                            assert(before.contains_key(cache_key(o, l)));
                        }
                    }
                }
                blob
            },
        }
    }

    /// The `length` bytes of the file from `offset` on, shared with every
    /// other table that was read from the same place with the same length.
    fn read_raw_data(&mut self, offset: u32, length: u32) -> (r: Result<
        Rc<Vec<u8>>,
        ReadError,
    >)
        requires
            old(self).wf(),
        ensures
            final(self).wf(),
            final(self).data == old(self).data,
            final(self).pos == old(self).pos,
            match r {
                Ok(blob) => Some(blob@) == blob_at(old(self).data@, offset as int, length as int),
                Err(e) => e == ReadError::Truncated && blob_at(
                    old(self).data@,
                    offset as int,
                    length as int,
                ) is None,
            },
    {
        if length == 0 {
            return Ok(self.empty_raw_data());
        }
        if (offset as u64) + (length as u64) > self.data.len() as u64 {
            return Err(ReadError::Truncated);
        }
        Ok(self.cached(offset, length))
    }

    /// Reads a directory entry and the table that it describes.
    fn read_table(&mut self) -> (r: Result<(FourCC, TableRecord), ReadError>)
        requires
            old(self).wf(),
        ensures
            final(self).wf(),
            final(self).data == old(self).data,
            match r {
                Ok((tag, record)) => table_at(old(self).data@, old(self).pos as int) == Some(
                    (tag@, record@),
                ) && final(self).pos == old(self).pos + 16,
                Err(e) => e == ReadError::Truncated && table_at(
                    old(self).data@,
                    old(self).pos as int,
                ) is None,
            },
    {
        let tag = match self.read_fourcc() {
            Ok(v) => v,
            Err(e) => {
                return Err(e);
            },
        };
        let checksum = match self.read_u32be() {
            Ok(v) => v,
            Err(e) => {
                return Err(e);
            },
        };
        let offset = match self.read_u32be() {
            Ok(v) => v,
            Err(e) => {
                return Err(e);
            },
        };
        let length = match self.read_u32be() {
            Ok(v) => v,
            Err(e) => {
                return Err(e);
            },
        };
        match self.read_raw_data(offset, length) {
            Ok(raw_data) => Ok((tag, TableRecord { checksum, offset, raw_data })),
            Err(e) => Err(e),
        }
    }

    /// Reads the directory entries from the place of the cursor on, and the
    /// tables that they describe.
    fn read_tables(&mut self, count: u16) -> (r: Result<TableMap, ReadError>)
        requires
            old(self).wf(),
        ensures
            final(self).wf(),
            final(self).data == old(self).data,
            match r {
                Ok(tables) => tables_at(old(self).data@, old(self).pos as int, count as nat)
                    == Some(tables@),
                Err(e) => e == ReadError::Truncated && tables_at(
                    old(self).data@,
                    old(self).pos as int,
                    count as nat,
                ) is None,
            },
    {
        let ghost data = self.data@;
        let ghost first = self.pos as int;
        let mut tables = TableMap::new();
        let mut i: u16 = 0;
        while i < count
            invariant
                0 <= i <= count,
                self.wf(),
                self.data == old(self).data,
                data == self.data@,
                first == old(self).pos,
                self.pos == first + 16 * i,
                tables_at(data, first, i as nat) == Some(tables@),
            decreases count - i,
        {
            match self.read_table() {
                Ok((tag, record)) => {
                    tables.insert(tag, record);
                },
                Err(e) => {
                    proof {
                        assert(tables_at(data, first, (i + 1) as nat) is None);
                        lemma_tables_at_fails(data, first, (i + 1) as nat, count as nat);
                    }
                    return Err(e);
                },
            }
            i += 1;
        }
        Ok(tables)
    }

    /// Reads the font whose directory starts at the place of the cursor.
    fn read_sfnt(&mut self) -> (r: Result<SfntHeader, ReadError>)
        requires
            old(self).wf(),
        ensures
            final(self).wf(),
            final(self).data == old(self).data,
            match r {
                Ok(sfnt) => parse_sfnt(old(self).data@, old(self).pos as int) == Ok::<
                    SfntView,
                    ReadError,
                >(sfnt@),
                Err(e) => parse_sfnt(old(self).data@, old(self).pos as int) == Err::<
                    SfntView,
                    ReadError,
                >(e),
            },
    {
        let at = self.pos;
        let sfnt_version = match self.read_fourcc() {
            Ok(v) => v,
            Err(e) => {
                return Err(e);
            },
        };
        let version = sfnt_version.value();
        if !(version == TRUETYPE || version == OTTO || version == TRUE) {
            return Err(ReadError::UnsupportedSfntVersion { position: at, version });
        }
        let num_tables = match self.read_u16be() {
            Ok(v) => v,
            Err(e) => {
                return Err(e);
            },
        };
        match self.read_u16be() {
            Ok(_) => {},
            Err(e) => {
                return Err(e);
            },
        }
        match self.read_u16be() {
            Ok(_) => {},
            Err(e) => {
                return Err(e);
            },
        }
        match self.read_u16be() {
            Ok(_) => {},
            Err(e) => {
                return Err(e);
            },
        }
        match self.read_tables(num_tables) {
            Ok(table_records) => Ok(SfntHeader { sfnt_version, table_records }),
            Err(e) => Err(e),
        }
    }

    /// Reads the fonts of a collection, whose offsets stand from the place
    /// of the cursor on.
    fn read_fonts(&mut self, count: u32) -> (r: Result<Vec<SfntHeader>, ReadError>)
        requires
            old(self).wf(),
            old(self).pos == 12,
        ensures
            final(self).wf(),
            final(self).data == old(self).data,
            match r {
                Ok(fonts) => fonts_at(old(self).data@, count as nat) == Ok::<
                    Seq<SfntView>,
                    ReadError,
                >(font_views(fonts@)) && final(self).pos == 12 + 4 * count,
                Err(e) => fonts_at(old(self).data@, count as nat) == Err::<
                    Seq<SfntView>,
                    ReadError,
                >(e),
            },
    {
        let ghost data = self.data@;
        let mut fonts: Vec<SfntHeader> = Vec::new();
        let mut i: u32 = 0;
        assert(font_views(fonts@) =~= Seq::<SfntView>::empty());
        while i < count
            invariant
                0 <= i <= count,
                self.wf(),
                self.data == old(self).data,
                data == self.data@,
                self.pos == 12 + 4 * i,
                fonts_at(data, i as nat) == Ok::<Seq<SfntView>, ReadError>(font_views(fonts@)),
            decreases count - i,
        {
            let offset = match self.read_u32be() {
                Ok(v) => v,
                Err(e) => {
                    proof {
                        assert(fonts_at(data, (i + 1) as nat) == Err::<Seq<SfntView>, ReadError>(e));
                        lemma_fonts_at_fails(data, (i + 1) as nat, count as nat);
                    }
                    return Err(e);
                },
            };
            let next = self.pos;
            self.pos = offset as usize;
            let read = self.read_sfnt();
            self.pos = next;
            match read {
                Ok(font) => {
                    let ghost before = font_views(fonts@);
                    fonts.push(font);
                    assert(font_views(fonts@) =~= before.push(font@));
                },
                Err(e) => {
                    proof {
                        assert(fonts_at(data, (i + 1) as nat) == Err::<Seq<SfntView>, ReadError>(e));
                        lemma_fonts_at_fails(data, (i + 1) as nat, count as nat);
                    }
                    return Err(e);
                },
            }
            i += 1;
        }
        Ok(fonts)
    }

    /// Reads the signature of a collection of version 2, whose tag, length
    /// and offset stand at the place of the cursor.
    fn read_dsig(&mut self, count: u32) -> (r: Result<(FourCC, Rc<Vec<u8>>), ReadError>)
        requires
            old(self).wf(),
            old(self).pos == 12 + 4 * count,
        ensures
            final(self).wf(),
            final(self).data == old(self).data,
            match r {
                Ok((tag, bytes)) => dsig_at(old(self).data@, count as nat) == Some((tag@, bytes@)),
                Err(e) => e == ReadError::Truncated && dsig_at(old(self).data@, count as nat)
                    is None,
            },
    {
        let tag = match self.read_fourcc() {
            Ok(v) => v,
            Err(e) => {
                return Err(e);
            },
        };
        let length = match self.read_u32be() {
            Ok(v) => v,
            Err(e) => {
                return Err(e);
            },
        };
        let offset = match self.read_u32be() {
            Ok(v) => v,
            Err(e) => {
                return Err(e);
            },
        };
        if tag.value() == DSIG {
            match self.read_raw_data(offset, length) {
                Ok(bytes) => Ok((tag, bytes)),
                Err(e) => Err(e),
            }
        } else {
            Ok((tag, self.empty_raw_data()))
        }
    }

    /// Reads the collection whose tag was read.
    fn read_collection(&mut self) -> (r: Result<TTCHeader, ReadError>)
        requires
            old(self).wf(),
            old(self).pos == 4,
            old(self).data@.len() >= 4,
        ensures
            match r {
                Ok(ttc) => parse_collection(old(self).data@) == Ok::<TTCView, ReadError>(ttc@),
                Err(e) => parse_collection(old(self).data@) == Err::<TTCView, ReadError>(e),
            },
    {
        let major_version = match self.read_u16be() {
            Ok(v) => v,
            Err(e) => {
                return Err(e);
            },
        };
        let minor_version = match self.read_u16be() {
            Ok(v) => v,
            Err(e) => {
                return Err(e);
            },
        };
        if major_version > 2 {
            return Err(
                ReadError::UnsupportedTtcVersion {
                    position: 4,
                    major: major_version,
                    minor: minor_version,
                },
            );
        }
        let num_fonts = match self.read_u32be() {
            Ok(v) => v,
            Err(e) => {
                return Err(e);
            },
        };
        let table_directories = match self.read_fonts(num_fonts) {
            Ok(v) => v,
            Err(e) => {
                return Err(e);
            },
        };
        if major_version < 2 {
            let dsig_data = self.empty_raw_data();
            Ok(
                TTCHeader {
                    ttc_tag: FourCC::from_value(TTCF),
                    major_version,
                    minor_version,
                    table_directories,
                    dsig_tag: FourCC::zeroed(),
                    dsig_data,
                },
            )
        } else {
            match self.read_dsig(num_fonts) {
                Ok((dsig_tag, dsig_data)) => Ok(
                    TTCHeader {
                        ttc_tag: FourCC::from_value(TTCF),
                        major_version,
                        minor_version,
                        table_directories,
                        dsig_tag,
                        dsig_data,
                    },
                ),
                Err(e) => Err(e),
            }
        }
    }

    /// Reads the container that the file holds.
    fn read_container(&mut self) -> (r: Result<TTCHeader, ReadError>)
        requires
            old(self).wf(),
            old(self).pos == 0,
        ensures
            match r {
                Ok(ttc) => parse_container(old(self).data@) == Ok::<TTCView, ReadError>(ttc@),
                Err(e) => parse_container(old(self).data@) == Err::<TTCView, ReadError>(e),
            },
    {
        let ttc_tag = match self.read_fourcc() {
            Ok(v) => v,
            Err(e) => {
                return Err(e);
            },
        };
        if ttc_tag.value() != TTCF {
            self.pos = 0;
            match self.read_sfnt() {
                Ok(sfnt) => {
                    let dsig_data = self.empty_raw_data();
                    let mut table_directories: Vec<SfntHeader> = Vec::new();
                    table_directories.push(sfnt);
                    assert(font_views(table_directories@) =~= seq![sfnt@]);
                    Ok(
                        TTCHeader {
                            ttc_tag: FourCC::from_value(TTCF),
                            major_version: 1,
                            minor_version: 0,
                            table_directories,
                            dsig_tag: FourCC::zeroed(),
                            dsig_data,
                        },
                    )
                },
                Err(e) => Err(e),
            }
        } else {
            self.read_collection()
        }
    }
}

/// The reader of a font file that is held in memory.
pub struct TTCReader<'a> {
    r: &'a [u8],
}

impl<'a> TTCReader<'a> {
    /// The bytes that the reader reads.
    pub closed spec fn input(self) -> Seq<u8> {
        self.r@
    }

    /// A reader of the given bytes.
    pub fn new(r: &'a [u8]) -> (reader: Self)
        ensures
            reader.input() == r@,
    {
        TTCReader { r }
    }

    /// Reads the file: a collection with its fonts and its signature where
    /// the file starts with the collection tag, else a single font, which is
    /// handed back as a collection of one, of version 1.0 and without a
    /// signature. Every table named in a directory is read with it; tables
    /// that stand at the same place with the same length share their bytes.
    pub fn read_ttc(self) -> (r: Result<TTCHeader, ReadError>)
        ensures
            match r {
                Ok(ttc) => parse_container(self.input()) == Ok::<TTCView, ReadError>(ttc@)
                    && is_as_read(ttc@),
                Err(e) => parse_container(self.input()) == Err::<TTCView, ReadError>(e),
            },
    {
        let mut cursor = Cursor::new(self.r);
        let r = cursor.read_container();
        proof {
            if r is Ok {
                lemma_parsed_is_as_read(self.r@);
            }
        }
        r
    }
}

} // verus!