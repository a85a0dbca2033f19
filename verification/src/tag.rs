//! Four-byte tags and the tags that the container format names.

use vstd::prelude::*;

verus! {

/// A four-byte table or container tag.
///
/// Its view is the tag read as one big-endian 32-bit number. Two tags are
/// equal exactly when their views are, and the order of the views is the
/// lexicographic order of the bytes.
#[derive(Clone, Copy, Debug, Eq, PartialOrd, Ord, Hash)]
pub struct FourCC(pub [u8; 4]);

/// `head`: font header.
pub const HEAD: u32 = 0x6865_6164;

/// `hhea`: horizontal header.
pub const HHEA: u32 = 0x6868_6561;

/// `maxp`: maximum profile.
pub const MAXP: u32 = 0x6d61_7870;

/// `OS/2`: metrics for OS/2 and Windows.
pub const OS_2: u32 = 0x4f53_2f32;

/// `hmtx`: horizontal metrics.
pub const HMTX: u32 = 0x686d_7478;

/// `LTSH`: linear threshold data.
pub const LTSH: u32 = 0x4c54_5348;

/// `VDMX`: vertical device metrics.
pub const VDMX: u32 = 0x5644_4d58;

/// `hdmx`: horizontal device metrics.
pub const HDMX: u32 = 0x6864_6d78;

/// `cmap`: character to glyph mapping.
pub const CMAP: u32 = 0x636d_6170;

/// `fpgm`: font program.
pub const FPGM: u32 = 0x6670_676d;

/// `prep`: control value program.
pub const PREP: u32 = 0x7072_6570;

/// `cvt `: control value table.
pub const CVT: u32 = 0x6376_7420;

/// `cvar`: control value variations.
pub const CVAR: u32 = 0x6376_6172;

/// `loca`: index from glyph number to glyph location.
pub const LOCA: u32 = 0x6c6f_6361;

/// `glyf`: glyph outlines.
pub const GLYF: u32 = 0x676c_7966;

/// `kern`: kerning.
pub const KERN: u32 = 0x6b65_726e;

/// `name`: naming table.
pub const NAME: u32 = 0x6e61_6d65;

/// `post`: PostScript information.
pub const POST: u32 = 0x706f_7374;

/// `gasp`: grid-fitting and scan-conversion procedure.
pub const GASP: u32 = 0x6761_7370;

/// `PCLT`: PCL 5 data.
pub const PCLT: u32 = 0x5043_4c54;

/// `DSIG`: digital signature.
pub const DSIG: u32 = 0x4453_4947;

/// `CFF `: compact font format outlines.
pub const CFF: u32 = 0x4346_4620;

/// `bdat`: bitmap data, Apple format.
pub const BDAT: u32 = 0x6264_6174;

/// `bloc`: bitmap index, Apple format.
pub const BLOC: u32 = 0x626c_6f63;

/// `EBDT`: bitmap data, Microsoft format.
pub const EBDT: u32 = 0x4542_4454;

/// `EBLC`: bitmap index, Microsoft format.
pub const EBLC: u32 = 0x4542_4c43;

/// `EBSC`: bitmap scaling data, Microsoft format.
pub const EBSC: u32 = 0x4542_5343;

/// `ttcf`: the tag that opens a font collection.
pub const TTCF: u32 = 0x7474_6366;

/// `OTTO`: the version tag of a font with CFF outlines.
pub const OTTO: u32 = 0x4f54_544f;

/// `true`: the version tag of an Apple TrueType font.
pub const TRUE: u32 = 0x7472_7565;

/// The version tag of a TrueType font, the bytes 00 01 00 00.
pub const TRUETYPE: u32 = 0x0001_0000;

impl PartialEq for FourCC {
    fn eq(&self, other: &Self) -> (r: bool) {
        self.0[0] == other.0[0] && self.0[1] == other.0[1] && self.0[2] == other.0[2] && self.0[3]
            == other.0[3]
    }
}

impl vstd::std_specs::cmp::PartialEqSpecImpl for FourCC {
    open spec fn obeys_eq_spec() -> bool {
        true
    }

    open spec fn eq_spec(&self, other: &Self) -> bool {
        self.0[0] == other.0[0] && self.0[1] == other.0[1] && self.0[2] == other.0[2] && self.0[3]
            == other.0[3]
    }
}

impl View for FourCC {
    type V = u32;

    open spec fn view(&self) -> u32 {
        (self.0[0] * 0x100_0000 + self.0[1] * 0x1_0000 + self.0[2] * 0x100 + self.0[3]) as u32
    }
}

/// The digit of the given value, from 0 to 15, in lower-case hexadecimal.
pub open spec fn hex_digit(value: int) -> u8 {
    if value < 10 {
        (0x30 + value) as u8
    } else {
        (0x61 + value - 10) as u8
    }
}

/// A byte in printable ASCII: the byte itself where it is printable and
/// neither a quote nor a backslash; a backslash and a letter or the byte
/// for tab, line feed, carriage return, the quotes and the backslash; and
/// `\x` with two hexadecimal digits for every other byte.
pub open spec fn escaped(byte: u8) -> Seq<u8> {
    if byte == 0x09 {
        seq![0x5cu8, 0x74u8]
    } else if byte == 0x0a {
        seq![0x5cu8, 0x6eu8]
    } else if byte == 0x0d {
        seq![0x5cu8, 0x72u8]
    } else if byte == 0x22 || byte == 0x27 || byte == 0x5c {
        seq![0x5cu8, byte]
    } else if 0x20 <= byte <= 0x7e {
        seq![byte]
    } else {
        seq![0x5cu8, 0x78u8, hex_digit(byte as int / 16), hex_digit(byte as int % 16)]
    }
}

/// The tag between double quotes, each byte in printable ASCII.
pub open spec fn printable_form(tag: FourCC) -> Seq<u8> {
    seq![0x22u8] + escaped(tag.0[0]) + escaped(tag.0[1]) + escaped(tag.0[2]) + escaped(tag.0[3])
        + seq![0x22u8]
}

/// Whether `a` comes before `b` when the two tags are read byte by byte.
pub open spec fn lexicographically_less(a: FourCC, b: FourCC) -> bool {
    ||| a.0[0] < b.0[0]
    ||| a.0[0] == b.0[0] && a.0[1] < b.0[1]
    ||| a.0[0] == b.0[0] && a.0[1] == b.0[1] && a.0[2] < b.0[2]
    ||| a.0[0] == b.0[0] && a.0[1] == b.0[1] && a.0[2] == b.0[2] && a.0[3] < b.0[3]
}

fn hex(value: u8) -> (digit: u8)
    requires
        value < 16,
    ensures
        digit == hex_digit(value as int),
        0x30 <= digit <= 0x66,
{
    if value < 10 {
        0x30 + value
    } else {
        0x61 + (value - 10)
    }
}

fn push_escaped(text: &mut Vec<u8>, byte: u8)
    requires
        forall|i: int| 0 <= i < old(text)@.len() ==> 0x20 <= #[trigger] old(text)@[i] <= 0x7e,
    ensures
        final(text)@ == old(text)@ + escaped(byte),
        forall|i: int| 0 <= i < final(text)@.len() ==> 0x20 <= #[trigger] final(text)@[i] <= 0x7e,
{
    if byte == 0x09 {
        text.push(0x5c);
        text.push(0x74);
    } else if byte == 0x0a {
        text.push(0x5c);
        text.push(0x6e);
    } else if byte == 0x0d {
        text.push(0x5c);
        text.push(0x72);
    } else if byte == 0x22 || byte == 0x27 || byte == 0x5c {
        text.push(0x5c);
        text.push(byte);
    } else if 0x20 <= byte && byte <= 0x7e {
        text.push(byte);
    } else {
        text.push(0x5c);
        text.push(0x78);
        text.push(hex(byte / 16));
        text.push(hex(byte % 16));
    }
    assert(text@ =~= old(text)@ + escaped(byte));
}

impl FourCC {
    /// The tag made of the four given bytes.
    pub fn new(bytes: &[u8; 4]) -> (tag: Self)
        ensures
            tag.0 == *bytes,
    {
        FourCC(*bytes)
    }

    /// The tag made of four zero bytes.
    pub fn zeroed() -> (tag: Self)
        ensures
            tag@ == 0,
            tag.0@ == seq![0u8, 0u8, 0u8, 0u8],
    {
        let tag = FourCC([0, 0, 0, 0]);
        assert(tag.0@ =~= seq![0u8, 0u8, 0u8, 0u8]);
        tag
    }

    /// The tag whose big-endian reading is `value`.
    pub fn from_value(value: u32) -> (tag: Self)
        ensures
            tag@ == value,
    {
        proof {
            crate::bytes::lemma_u32_split(value);
        }
        FourCC(
            [
                (value / 0x100_0000) as u8,
                ((value / 0x1_0000) % 0x100) as u8,
                ((value / 0x100) % 0x100) as u8,
                (value % 0x100) as u8,
            ],
        )
    }

    /// The tag read as one big-endian number.
    pub fn value(&self) -> (value: u32)
        ensures
            value == self@,
    {
        (self.0[0] as u32) * 0x100_0000 + (self.0[1] as u32) * 0x1_0000 + (self.0[2] as u32) * 0x100
            + (self.0[3] as u32)
    }

    /// The tag in a form that can be shown: between double quotes, with the
    /// bytes that are not printable ASCII, the quotes and the backslash
    /// escaped. Every byte of the result is printable ASCII.
    pub fn printable(&self) -> (text: Vec<u8>)
        ensures
            text@ == printable_form(*self),
            forall|i: int| 0 <= i < text@.len() ==> 0x20 <= #[trigger] text@[i] <= 0x7e,
    {
        let mut text: Vec<u8> = Vec::new();
        text.push(0x22);
        push_escaped(&mut text, self.0[0]);
        push_escaped(&mut text, self.0[1]);
        push_escaped(&mut text, self.0[2]);
        push_escaped(&mut text, self.0[3]);
        text.push(0x22);
        assert(text@ =~= printable_form(*self));
        text
    }

    /// The four bytes of the tag, in order.
    pub open spec fn bytes(self) -> Seq<u8> {
        self.0@
    }

    /// Tags with the same view are the same tag.
    pub proof fn lemma_view_injective(a: FourCC, b: FourCC)
        ensures
            a@ == b@ <==> a == b,
    {
        crate::bytes::lemma_u32_digits(a.0[0], a.0[1], a.0[2], a.0[3]);
        crate::bytes::lemma_u32_digits(b.0[0], b.0[1], b.0[2], b.0[3]);
        if a@ == b@ {
            assert(a.0[0] == b.0[0]);
            assert(a.0[1] == b.0[1]);
            assert(a.0[2] == b.0[2]);
            assert(a.0[3] == b.0[3]);
            assert(a.0 =~= b.0);
        }
    }

    /// The order of the views is the lexicographic order of the bytes.
    pub proof fn lemma_order_is_lexicographic(a: FourCC, b: FourCC)
        ensures
            a@ < b@ <==> lexicographically_less(a, b),
    {
        crate::bytes::lemma_u32_digits(a.0[0], a.0[1], a.0[2], a.0[3]);
        crate::bytes::lemma_u32_digits(b.0[0], b.0[1], b.0[2], b.0[3]);
    }
}

} // verus!
