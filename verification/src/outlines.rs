//! The glyphs of a `glyf` table as the `loca` table lays them out, and the
//! two tables built anew from glyphs without instructions.

use crate::bytes::{
    append_all, read_u16, read_u32, u16_at, u16_bytes, u16_to_bytes, u32_at, u32_bytes,
    u32_to_bytes,
};
use crate::glyph::{dehinted, loses_instructions, strip_glyph, stripped};
use vstd::prelude::*;

verus! {

/// The length from which on a glyph stream no longer fits the short form of
/// `loca`, in which an offset is half the place and has 16 bits.
pub const SHORT_LIMIT: usize = 131072;

/// The largest length of a glyph stream that the long form of `loca` can
/// point into.
pub const LONG_LIMIT: usize = 0xffff_ffff;

/// The places that a `loca` table of the given `indexToLocFormat` names:
/// in format 0 twice each 16-bit number, in format 1 each 32-bit number. A
/// rest of the table that is too short for a number is left out, and a
/// table of another format names no places.
pub open spec fn glyph_offsets(loca: Seq<u8>, format: u16) -> Seq<int> {
    if format == 0 {
        Seq::new((loca.len() / 2) as nat, |i: int| 2 * (u16_at(loca, 2 * i) as int))
    } else if format == 1 {
        Seq::new((loca.len() / 4) as nat, |i: int| u32_at(loca, 4 * i) as int)
    } else {
        Seq::empty()
    }
}

/// The number of glyphs that a list of places describes: one between each
/// two places.
pub open spec fn glyph_count(offsets: Seq<int>) -> nat {
    if offsets.len() == 0 {
        0
    } else {
        (offsets.len() - 1) as nat
    }
}

/// The bytes of glyph `i`: the part of `glyf` between place `i` and the next.
/// A glyph whose places are in the wrong order, or reach beyond `glyf`, is
/// taken as empty.
pub open spec fn glyph_bytes(glyf: Seq<u8>, offsets: Seq<int>, i: int) -> Seq<u8>
    recommends
        0 <= i < glyph_count(offsets),
{
    if offsets[i] <= offsets[i + 1] <= glyf.len() {
        glyf.subrange(offsets[i], offsets[i + 1])
    } else {
        Seq::empty()
    }
}

/// Whether one of the first `n` glyphs loses instructions when it is
/// dehinted.
pub open spec fn any_hinted(glyf: Seq<u8>, offsets: Seq<int>, n: int) -> bool {
    exists|i: int| 0 <= i < n && loses_instructions(#[trigger] glyph_bytes(glyf, offsets, i))
}

/// `s`, with a zero byte after it where its length is odd.
pub open spec fn pad_even(s: Seq<u8>) -> Seq<u8> {
    if s.len() % 2 == 1 {
        s.push(0u8)
    } else {
        s
    }
}

/// The first `n` glyphs, dehinted and put in a row, each at an even place.
pub open spec fn packed(glyf: Seq<u8>, offsets: Seq<int>, n: nat) -> Seq<u8>
    decreases n,
{
    if n == 0 {
        Seq::empty()
    } else {
        pad_even(packed(glyf, offsets, (n - 1) as nat)) + dehinted(
            glyph_bytes(glyf, offsets, n - 1),
        )
    }
}

/// The place at which glyph `i` starts in the new stream.
pub open spec fn glyph_start(glyf: Seq<u8>, offsets: Seq<int>, i: nat) -> int {
    pad_even(packed(glyf, offsets, i)).len() as int
}

/// The new `glyf` table: all glyphs dehinted and packed, and the whole
/// brought to an even length where it fits the short form of `loca`.
pub open spec fn new_glyf(glyf: Seq<u8>, offsets: Seq<int>) -> Seq<u8> {
    let stream = packed(glyf, offsets, glyph_count(offsets));
    if stream.len() < SHORT_LIMIT {
        pad_even(stream)
    } else {
        stream
    }
}

/// The places of the new `loca` table: the start of each glyph, then the
/// length of the new `glyf` table.
pub open spec fn new_offsets(glyf: Seq<u8>, offsets: Seq<int>) -> Seq<int> {
    Seq::new(
        glyph_count(offsets) + 1,
        |i: int|
            if i < glyph_count(offsets) {
                glyph_start(glyf, offsets, i as nat)
            } else {
                new_glyf(glyf, offsets).len() as int
            },
    )
}

/// Whether the glyph tables are built anew: a glyph loses instructions, and
/// the new stream is one that 32-bit offsets can point into.
pub open spec fn rebuilds(glyf: Seq<u8>, offsets: Seq<int>) -> bool {
    any_hinted(glyf, offsets, glyph_count(offsets) as int) && new_glyf(glyf, offsets).len()
        <= LONG_LIMIT
}

/// A `loca` table in the short form: half of each place as a 16-bit number.
pub open spec fn short_loca(offsets: Seq<int>) -> Seq<u8>
    decreases offsets.len(),
{
    if offsets.len() == 0 {
        Seq::empty()
    } else {
        short_loca(offsets.drop_last()) + u16_bytes((offsets.last() / 2) as u16)
    }
}

/// A `loca` table in the long form: each place as a 32-bit number.
pub open spec fn long_loca(offsets: Seq<int>) -> Seq<u8>
    decreases offsets.len(),
{
    if offsets.len() == 0 {
        Seq::empty()
    } else {
        long_loca(offsets.drop_last()) + u32_bytes(offsets.last() as u32)
    }
}

/// The `loca` table for the given places, in the short form where the glyph
/// stream of the given length allows it.
pub open spec fn new_loca(offsets: Seq<int>, stream_len: nat) -> Seq<u8> {
    if stream_len < SHORT_LIMIT {
        short_loca(offsets)
    } else {
        long_loca(offsets)
    }
}

/// The numbers of a list of places.
pub open spec fn places(offsets: Seq<usize>) -> Seq<int> {
    Seq::new(offsets.len(), |i: int| offsets[i] as int)
}

/// The packed stream only grows with each glyph.
pub proof fn lemma_packed_grows(glyf: Seq<u8>, offsets: Seq<int>, m: nat, n: nat)
    requires
        m <= n,
    ensures
        packed(glyf, offsets, m).len() <= packed(glyf, offsets, n).len(),
    decreases n - m,
{
    if m < n {
        lemma_packed_grows(glyf, offsets, m, (n - 1) as nat);
    }
}

/// No glyph starts beyond the end of the new stream.
pub proof fn lemma_new_offsets_bounded(glyf: Seq<u8>, offsets: Seq<int>)
    ensures
        forall|i: int|
            0 <= i < new_offsets(glyf, offsets).len() ==> 0 <= #[trigger] new_offsets(
                glyf,
                offsets,
            )[i] <= new_glyf(glyf, offsets).len(),
{
    let n = glyph_count(offsets);
    assert forall|i: int| 0 <= i < new_offsets(glyf, offsets).len() implies 0
        <= #[trigger] new_offsets(glyf, offsets)[i] <= new_glyf(glyf, offsets).len() by {
        if i < n {
            lemma_packed_grows(glyf, offsets, (i + 1) as nat, n);
        }
    }
}

/// Tables are only built anew where there is a glyph.
pub proof fn lemma_rebuilds_needs_glyphs(glyf: Seq<u8>, offsets: Seq<int>)
    requires
        rebuilds(glyf, offsets),
    ensures
        glyph_count(offsets) > 0,
{
}

/// The places that a `loca` table names.
#[verifier::loop_isolation(false)]
pub fn read_offsets(loca: &[u8], format: u16) -> (offsets: Vec<usize>)
    ensures
        places(offsets@) == glyph_offsets(loca@, format),
{
    let mut offsets: Vec<usize> = Vec::new();
    if format == 0 {
        let n = loca.len() / 2;
        let mut i: usize = 0;
        while i < n
            invariant
                n == loca@.len() / 2,
                0 <= i <= n,
                offsets@.len() == i,
                forall|j: int| 0 <= j < i ==> offsets@[j] == 2 * (u16_at(loca@, 2 * j) as int),
            decreases n - i,
        {
            let v = match read_u16(loca, 2 * i) {
                Some(v) => v,
                None => 0,
            };
            offsets.push(2 * (v as usize));
            i += 1;
        }
    } else if format == 1 {
        let n = loca.len() / 4;
        let mut i: usize = 0;
        while i < n
            invariant
                n == loca@.len() / 4,
                0 <= i <= n,
                offsets@.len() == i,
                forall|j: int| 0 <= j < i ==> offsets@[j] == u32_at(loca@, 4 * j) as int,
            decreases n - i,
        {
            let v = match read_u32(loca, 4 * i) {
                Some(v) => v,
                None => 0,
            };
            offsets.push(v as usize);
            i += 1;
        }
    }
    assert(places(offsets@) =~= glyph_offsets(loca@, format));
    offsets
}

/// The new `glyf` table and the places of its glyphs, where the tables are
/// built anew.
#[verifier::loop_isolation(false)]
pub fn rebuild_glyphs(glyf: &[u8], offsets: &Vec<usize>) -> (r: Option<(Vec<u8>, Vec<usize>)>)
    ensures
        match r {
            Some((stream, starts)) => rebuilds(glyf@, places(offsets@)) && stream@ == new_glyf(
                glyf@,
                places(offsets@),
            ) && places(starts@) == new_offsets(glyf@, places(offsets@)),
            None => !rebuilds(glyf@, places(offsets@)),
        },
{
    let ghost offs = places(offsets@);
    let count: usize = if offsets.len() == 0 {
        0
    } else {
        offsets.len() - 1
    };
    let mut stream: Vec<u8> = Vec::new();
    let mut starts: Vec<usize> = Vec::new();
    let mut hinted = false;
    let mut i: usize = 0;
    while i < count
        invariant
            0 <= i <= count,
            count == glyph_count(offs),
            stream@ == packed(glyf@, offs, i as nat),
            stream@.len() <= LONG_LIMIT,
            starts@.len() == i,
            forall|j: int| 0 <= j < i ==> starts@[j] == glyph_start(glyf@, offs, j as nat),
            hinted == any_hinted(glyf@, offs, i as int),
        decreases count - i,
    {
        let from = offsets[i];
        let to = offsets[i + 1];
        if stream.len() % 2 == 1 {
            stream.push(0);
        }
        assert(stream@ == pad_even(packed(glyf@, offs, i as nat)));
        starts.push(stream.len());
        let ghost g = glyph_bytes(glyf@, offs, i as int);
        let mut lost = false;
        if from <= to && to <= glyf.len() {
            let glyph = vstd::slice::slice_subrange(glyf, from, to);
            assert(glyph@ == g);
            match strip_glyph(glyph) {
                Some((bytes, had)) => {
                    append_all(&mut stream, bytes.as_slice());
                    lost = had;
                },
                None => {
                    append_all(&mut stream, glyph);
                },
            }
        } else {
            assert(g.len() == 0);
            assert(stripped(g) is None);
            assert(stream@ + g =~= stream@);
        }
        assert(stream@ == packed(glyf@, offs, (i + 1) as nat));
        assert(lost == loses_instructions(g));
        proof {
            if any_hinted(glyf@, offs, i + 1) {
                let k = choose|k: int|
                    0 <= k < i + 1 && loses_instructions(#[trigger] glyph_bytes(glyf@, offs, k));
                if k < i {
                    assert(any_hinted(glyf@, offs, i as int));
                }
            }
        }
        hinted = hinted || lost;
        if stream.len() > LONG_LIMIT {
            proof {
                lemma_packed_grows(glyf@, offs, (i + 1) as nat, count as nat);
            }
            return None;
        }
        i += 1;
    }
    if !hinted {
        return None;
    }
    if stream.len() < SHORT_LIMIT && stream.len() % 2 == 1 {
        stream.push(0);
    }
    assert(stream@ == new_glyf(glyf@, offs));
    starts.push(stream.len());
    assert(places(starts@) =~= new_offsets(glyf@, offs));
    Some((stream, starts))
}

/// The `loca` table for the given places.
pub(crate) fn encode_loca(offsets: &Vec<usize>, stream_len: usize) -> (loca: Vec<u8>)
    requires
        stream_len <= LONG_LIMIT,
        forall|i: int| 0 <= i < offsets@.len() ==> offsets@[i] <= stream_len,
    ensures
        loca@ == new_loca(places(offsets@), stream_len as nat),
{
    let ghost offs = places(offsets@);
    let short = stream_len < SHORT_LIMIT;
    let mut loca: Vec<u8> = Vec::new();
    let n = offsets.len();
    let mut i: usize = 0;
    assert(offs.take(0) =~= Seq::<int>::empty());
    while i < n
        invariant
            n == offsets@.len(),
            offs == places(offsets@),
            0 <= i <= n,
            short == (stream_len < SHORT_LIMIT),
            stream_len <= LONG_LIMIT,
            forall|j: int| 0 <= j < offsets@.len() ==> offsets@[j] <= stream_len,
            loca@ == new_loca(offs.take(i as int), stream_len as nat),
        decreases n - i,
    {
        let place = offsets[i];
        proof {
            assert(offs.take(i + 1).drop_last() =~= offs.take(i as int));
            assert(offs.take(i + 1).last() == place);
        }
        if short {
            let bytes = u16_to_bytes((place / 2) as u16);
            append_all(&mut loca, bytes.as_slice());
        } else {
            let bytes = u32_to_bytes(place as u32);
            append_all(&mut loca, bytes.as_slice());
        }
        i += 1;
    }
    assert(offs.take(n as int) =~= offs);
    loca
}

/// A `loca` table in the short form has two bytes for each place and
/// reads back as the places, where these are even and below the limit of
/// the short form.
pub proof fn lemma_short_loca_read_back(offsets: Seq<int>)
    requires
        forall|i: int|
            0 <= i < offsets.len() ==> 0 <= #[trigger] offsets[i] < SHORT_LIMIT && offsets[i] % 2
                == 0,
    ensures
        short_loca(offsets).len() == 2 * offsets.len(),
        glyph_offsets(short_loca(offsets), 0) == offsets,
    decreases offsets.len(),
{
    if offsets.len() > 0 {
        let front = offsets.drop_last();
        let last = offsets.last();
        lemma_short_loca_read_back(front);
        let table = short_loca(offsets);
        let before = short_loca(front);
        let word = u16_bytes((last / 2) as u16);
        assert(table == before + word);
        crate::bytes::lemma_u16_round_trip((last / 2) as u16);
        let read = glyph_offsets(table, 0);
        assert(read.len() == offsets.len());
        assert forall|i: int| 0 <= i < offsets.len() implies read[i] == offsets[i] by {
            if i < front.len() {
                assert(glyph_offsets(before, 0)[i] == front[i]);
                assert(table[2 * i] == before[2 * i]);
                assert(table[2 * i + 1] == before[2 * i + 1]);
            } else {
                assert(table[2 * i] == word[0]);
                assert(table[2 * i + 1] == word[1]);
            }
        }
        assert(read =~= offsets);
    } else {
        assert(glyph_offsets(short_loca(offsets), 0) =~= offsets);
    }
}

/// A `loca` table in the long form has four bytes for each place and
/// reads back as the places, where these fit 32 bits.
pub proof fn lemma_long_loca_read_back(offsets: Seq<int>)
    requires
        forall|i: int| 0 <= i < offsets.len() ==> 0 <= #[trigger] offsets[i] <= LONG_LIMIT,
    ensures
        long_loca(offsets).len() == 4 * offsets.len(),
        glyph_offsets(long_loca(offsets), 1) == offsets,
    decreases offsets.len(),
{
    if offsets.len() > 0 {
        let front = offsets.drop_last();
        let last = offsets.last();
        lemma_long_loca_read_back(front);
        let table = long_loca(offsets);
        let before = long_loca(front);
        let word = u32_bytes(last as u32);
        assert(table == before + word);
        crate::bytes::lemma_u32_round_trip(last as u32);
        let read = glyph_offsets(table, 1);
        assert(read.len() == offsets.len());
        assert forall|i: int| 0 <= i < offsets.len() implies read[i] == offsets[i] by {
            if i < front.len() {
                assert(glyph_offsets(before, 1)[i] == front[i]);
                assert(table[4 * i] == before[4 * i]);
                assert(table[4 * i + 1] == before[4 * i + 1]);
                assert(table[4 * i + 2] == before[4 * i + 2]);
                assert(table[4 * i + 3] == before[4 * i + 3]);
            } else {
                assert(table[4 * i] == word[0]);
                assert(table[4 * i + 1] == word[1]);
                assert(table[4 * i + 2] == word[2]);
                assert(table[4 * i + 3] == word[3]);
            }
        }
        assert(read =~= offsets);
    } else {
        assert(glyph_offsets(long_loca(offsets), 1) =~= offsets);
    }
}

/// The `indexToLocFormat` of the `loca` table for a glyph stream of the
/// given length.
pub open spec fn new_loca_format(stream_len: nat) -> u16 {
    if stream_len < SHORT_LIMIT {
        0
    } else {
        1
    }
}

/// The packed stream of the first glyphs is the start of every longer
/// packed stream and of the new `glyf` table.
pub proof fn lemma_packed_prefix(glyf: Seq<u8>, offsets: Seq<int>, m: nat, n: nat)
    requires
        m <= n,
    ensures
        packed(glyf, offsets, m).len() <= packed(glyf, offsets, n).len(),
        packed(glyf, offsets, n).subrange(0, packed(glyf, offsets, m).len() as int) == packed(
            glyf,
            offsets,
            m,
        ),
        m < n ==> pad_even(packed(glyf, offsets, m)).len() <= packed(glyf, offsets, n).len()
            && packed(glyf, offsets, n).subrange(
            0,
            pad_even(packed(glyf, offsets, m)).len() as int,
        ) == pad_even(packed(glyf, offsets, m)),
    decreases n - m,
{
    let a = packed(glyf, offsets, m);
    let c = packed(glyf, offsets, n);
    if m < n {
        let b = packed(glyf, offsets, (n - 1) as nat);
        lemma_packed_prefix(glyf, offsets, m, (n - 1) as nat);
        assert(c == pad_even(b) + dehinted(glyph_bytes(glyf, offsets, n - 1)));
        assert(c.subrange(0, a.len() as int) =~= a);
        if m < n - 1 {
            assert(c.subrange(0, pad_even(a).len() as int) =~= pad_even(a));
        } else {
            assert(c.subrange(0, pad_even(a).len() as int) =~= pad_even(a));
        }
    } else {
        assert(c.subrange(0, a.len() as int) =~= a);
    }
}

/// What the new tables hold for glyph `i`: it starts at an even place, and
/// from there on stands the glyph without its instructions, followed by at
/// most one zero byte before the next glyph starts or the table ends.
pub proof fn lemma_glyph_repacked(glyf: Seq<u8>, offsets: Seq<int>, i: int)
    requires
        0 <= i < glyph_count(offsets),
    ensures
        ({
            let stream = new_glyf(glyf, offsets);
            let places = new_offsets(glyf, offsets);
            let glyph = dehinted(glyph_bytes(glyf, offsets, i));
            &&& 0 <= places[i] <= places[i + 1] <= stream.len()
            &&& places[i] % 2 == 0
            &&& (glyph_bytes(stream, places, i) == glyph || glyph_bytes(stream, places, i)
                == glyph.push(0u8))
        }),
{
    let n = glyph_count(offsets);
    let stream = new_glyf(glyf, offsets);
    let places = new_offsets(glyf, offsets);
    let glyph = dehinted(glyph_bytes(glyf, offsets, i));
    let whole = packed(glyf, offsets, n);
    let before = pad_even(packed(glyf, offsets, i as nat));
    let with = packed(glyf, offsets, (i + 1) as nat);
    assert(with == before + glyph);
    lemma_packed_prefix(glyf, offsets, (i + 1) as nat, n);
    assert(whole.len() <= stream.len());
    assert(stream.subrange(0, whole.len() as int) =~= whole);
    let from = places[i];
    let to = places[i + 1];
    assert(from == before.len());
    assert(with.len() == from + glyph.len());
    if i + 1 < n {
        assert(to == pad_even(with).len());
        assert(stream.subrange(0, to) =~= pad_even(with));
        assert forall|k: int| from <= k < to implies stream[k] == #[trigger] pad_even(with)[k] by {
            assert(stream.subrange(0, to)[k] == stream[k]);
        }
    } else {
        assert(to == stream.len());
        assert(stream == whole || stream == pad_even(whole));
    }
    let got = glyph_bytes(stream, places, i);
    assert(got == stream.subrange(from, to));
    if to == from + glyph.len() {
        assert(got =~= glyph);
    } else {
        assert(to == from + glyph.len() + 1);
        assert(got =~= glyph.push(0u8));
    }
}

} // verus!