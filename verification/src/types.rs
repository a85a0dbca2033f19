//! The parsed container: a collection header over the fonts it holds.

use std::rc::Rc;
use vstd::arithmetic::power2::{lemma2_to64, lemma_pow2_strictly_increases, lemma_pow2_unfold, pow2};
use vstd::prelude::*;

pub use crate::tables::{TableMap, TableRecord, TableView};
pub use crate::tag::FourCC;

verus! {

/// One font: its version tag and its tables.
#[derive(Debug)]
pub struct SfntHeader {
    pub sfnt_version: FourCC,
    pub table_records: TableMap,
}

/// What a font holds, as plain values.
pub struct SfntView {
    pub sfnt_version: u32,
    pub tables: Map<u32, TableView>,
}

impl View for SfntHeader {
    type V = SfntView;

    open spec fn view(&self) -> SfntView {
        SfntView { sfnt_version: self.sfnt_version@, tables: self.table_records@ }
    }
}

impl Clone for SfntHeader {
    /// A second header over the same tables, whose bytes are shared.
    fn clone(&self) -> (sfnt: Self)
        ensures
            sfnt@ == self@,
    {
        SfntHeader { sfnt_version: self.sfnt_version, table_records: self.table_records.clone() }
    }
}

/// A font collection: the fonts in file order and, from version 2 on, the
/// digital signature of the whole file. A single font is held as a collection
/// of one.
#[derive(Debug)]
pub struct TTCHeader {
    pub ttc_tag: FourCC,
    pub major_version: u16,
    pub minor_version: u16,
    pub table_directories: Vec<SfntHeader>,
    pub dsig_tag: FourCC,
    pub dsig_data: Rc<Vec<u8>>,
}

/// What a collection holds, as plain values.
pub struct TTCView {
    pub ttc_tag: u32,
    pub major_version: u16,
    pub minor_version: u16,
    pub fonts: Seq<SfntView>,
    pub dsig_tag: u32,
    pub dsig_data: Seq<u8>,
}

/// The fonts of a directory list, each as plain values.
pub open spec fn font_views(fonts: Seq<SfntHeader>) -> Seq<SfntView> {
    Seq::new(fonts.len(), |i: int| fonts[i]@)
}

impl View for TTCHeader {
    type V = TTCView;

    open spec fn view(&self) -> TTCView {
        TTCView {
            ttc_tag: self.ttc_tag@,
            major_version: self.major_version,
            minor_version: self.minor_version,
            fonts: font_views(self.table_directories@),
            dsig_tag: self.dsig_tag@,
            dsig_data: self.dsig_data@,
        }
    }
}

impl Clone for TTCHeader {
    /// A second collection over the same tables, whose bytes are shared.
    fn clone(&self) -> (ttc: Self)
        ensures
            ttc@ == self@,
    {
        let mut fonts: Vec<SfntHeader> = Vec::new();
        let n = self.table_directories.len();
        let mut i: usize = 0;
        while i < n
            invariant
                n == self.table_directories@.len(),
                0 <= i <= n,
                fonts@.len() == i,
                forall|j: int| 0 <= j < i ==> fonts@[j]@ == self.table_directories@[j]@,
            decreases n - i,
        {
            fonts.push(self.table_directories[i].clone());
            i += 1;
        }
        assert(font_views(fonts@) =~= font_views(self.table_directories@));
        TTCHeader {
            ttc_tag: self.ttc_tag,
            major_version: self.major_version,
            minor_version: self.minor_version,
            table_directories: fonts,
            dsig_tag: self.dsig_tag,
            dsig_data: self.dsig_data.clone(),
        }
    }
}

/// The whole part of the binary logarithm of `n`, and 0 for `n` = 0.
pub open spec fn floor_log2(n: nat) -> nat
    decreases n,
{
    if n < 2 {
        0
    } else {
        1 + floor_log2(n / 2)
    }
}

/// `floor_log2(n)` is the exponent of the largest power of two that is not
/// above `n`.
pub proof fn lemma_floor_log2(n: nat)
    requires
        n >= 1,
    ensures
        pow2(floor_log2(n)) <= n < 2 * pow2(floor_log2(n)),
    decreases n,
{
    lemma2_to64();
    if n >= 2 {
        lemma_floor_log2(n / 2);
        lemma_pow2_unfold(floor_log2(n));
    }
}

/// The logarithm of a number below a power of two is below the exponent.
pub proof fn lemma_floor_log2_bound(n: nat, e: nat)
    requires
        n < pow2(e),
        e >= 1,
    ensures
        floor_log2(n) < e,
{
    if n >= 1 {
        lemma_floor_log2(n);
        if floor_log2(n) >= e {
            if floor_log2(n) > e {
                lemma_pow2_strictly_increases(e, floor_log2(n));
            }
        }
    }
}

/// The `searchRange` field of a directory of `n` tables: 16 times the
/// largest power of two that is not above `n`, kept at 32768 from 4096
/// tables on, where it would no longer fit the field.
pub open spec fn search_range_of(n: nat) -> nat {
    if n == 0 {
        0
    } else if n >= 4096 {
        32768
    } else {
        16 * pow2(floor_log2(n))
    }
}

/// The `entrySelector` field of a directory of `n` tables.
pub open spec fn entry_selector_of(n: nat) -> nat {
    floor_log2(n)
}

/// The `rangeShift` field of a directory of `n` tables: what 16 `n` has over
/// the search range, kept at 65520 from 6144 tables on.
pub open spec fn range_shift_of(n: nat) -> nat {
    if n >= 6144 {
        65520
    } else {
        (16 * n - search_range_of(n)) as nat
    }
}

/// The binary logarithm of `n`, rounded down, together with the power of two
/// that has it as exponent.
fn log2_and_power(n: usize) -> (r: (u32, usize))
    ensures
        r.0 == floor_log2(n as nat),
        r.0 < 64,
        n >= 1 ==> r.1 == pow2(floor_log2(n as nat)) && r.1 <= n < 2 * r.1,
{
    proof {
        lemma2_to64();
        lemma_floor_log2_bound(n as nat, 64);
        if n >= 1 {
            lemma_floor_log2(n as nat);
        }
    }
    let mut rest: usize = n;
    let mut log: u32 = 0;
    let mut power: usize = 1;
    while rest >= 2
        invariant
            log + floor_log2(rest as nat) == floor_log2(n as nat),
            floor_log2(n as nat) < 64,
            n >= 1 ==> rest >= 1,
            n >= 1 ==> power * pow2(floor_log2(rest as nat)) == pow2(floor_log2(n as nat)),
            n >= 1 ==> pow2(floor_log2(n as nat)) <= n,
            power == pow2(log as nat),
        decreases rest,
    {
        proof {
            lemma_pow2_unfold(floor_log2(rest as nat));
            lemma_pow2_unfold((log + 1) as nat);
            assert(power * (2 * pow2(floor_log2((rest / 2) as nat))) == (power * 2) * pow2(
                floor_log2((rest / 2) as nat),
            )) by (nonlinear_arith);
            assert(pow2(floor_log2((rest / 2) as nat)) >= 1) by {
                vstd::arithmetic::power2::lemma_pow2_pos(floor_log2((rest / 2) as nat));
            }
            assert(power * 2 <= (power * 2) * pow2(floor_log2((rest / 2) as nat)))
                by (nonlinear_arith)
                requires
                    pow2(floor_log2((rest / 2) as nat)) >= 1,
                    power >= 0,
            ;
        }
        rest = rest / 2;
        log = log + 1;
        power = power * 2;
    }
    proof {
        if n >= 1 {
            lemma_floor_log2(n as nat);
        }
    }
    (log, power)
}

impl SfntHeader {
    /// A font of the given version without tables.
    pub fn new(sfnt_version: FourCC) -> (sfnt: Self)
        ensures
            sfnt@ == (SfntView { sfnt_version: sfnt_version@, tables: Map::empty() }),
    {
        SfntHeader { sfnt_version, table_records: TableMap::new() }
    }

    /// The `searchRange` field of this font's directory.
    pub fn search_range(&self) -> (range: u16)
        ensures
            range == search_range_of(self@.tables.len()),
    {
        let n = self.table_records.len();
        if n == 0 {
            return 0;
        }
        if n >= 4096 {
            return 32768;
        }
        let (_, power) = log2_and_power(n);
        (16 * power) as u16
    }

    /// The `entrySelector` field of this font's directory.
    pub fn entry_selector(&self) -> (selector: u16)
        ensures
            selector == entry_selector_of(self@.tables.len()),
    {
        let (log, _) = log2_and_power(self.table_records.len());
        log as u16
    }

    /// The `rangeShift` field of this font's directory.
    pub fn range_shift(&self) -> (shift: u16)
        ensures
            shift == range_shift_of(self@.tables.len()),
    {
        let n = self.table_records.len();
        if n >= 6144 {
            return 65520;
        }
        if n >= 4096 {
            return (16 * n - 32768) as u16;
        }
        if n == 0 {
            return 0;
        }
        let (_, power) = log2_and_power(n);
        (16 * n - 16 * power) as u16
    }

    /// The binary logarithm of the number of tables, rounded down; 0 for a
    /// font without tables.
    pub fn log2_num_tables(&self) -> (log: u32)
        ensures
            log == floor_log2(self@.tables.len()),
    {
        log2_and_power(self.table_records.len()).0
    }
}

} // verus!
