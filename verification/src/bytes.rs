//! Big-endian numbers in byte sequences.

use vstd::prelude::*;

verus! {

/// The 16-bit number whose big-endian form is the two bytes of `s` from
/// place `i` on.
pub open spec fn u16_at(s: Seq<u8>, i: int) -> u16
    recommends
        0 <= i,
        i + 2 <= s.len(),
{
    (s[i] * 0x100 + s[i + 1]) as u16
}

/// The 32-bit number whose big-endian form is the four bytes of `s` from
/// place `i` on.
pub open spec fn u32_at(s: Seq<u8>, i: int) -> u32
    recommends
        0 <= i,
        i + 4 <= s.len(),
{
    (s[i] * 0x100_0000 + s[i + 1] * 0x1_0000 + s[i + 2] * 0x100 + s[i + 3]) as u32
}

/// The two bytes of the big-endian form of `v`.
pub open spec fn u16_bytes(v: u16) -> Seq<u8> {
    seq![(v / 0x100) as u8, (v % 0x100) as u8]
}

/// The four bytes of the big-endian form of `v`.
pub open spec fn u32_bytes(v: u32) -> Seq<u8> {
    seq![
        (v / 0x100_0000) as u8,
        ((v / 0x1_0000) % 0x100) as u8,
        ((v / 0x100) % 0x100) as u8,
        (v % 0x100) as u8,
    ]
}

/// `n` zero bytes.
pub open spec fn zeros(n: nat) -> Seq<u8> {
    Seq::new(n, |i: int| 0u8)
}

/// `s` with the bytes from place `at` on replaced by `patch`, as far as `s`
/// reaches.
pub open spec fn overwrite(s: Seq<u8>, at: int, patch: Seq<u8>) -> Seq<u8> {
    Seq::new(
        s.len(),
        |i: int|
            if at <= i < at + patch.len() {
                patch[i - at]
            } else {
                s[i]
            },
    )
}

/// `s` with `patch` written over the bytes from place `at` on, where `s` has
/// room for all of `patch` there, and `s` as it is where it has not.
pub open spec fn put(s: Seq<u8>, at: int, patch: Seq<u8>) -> Seq<u8> {
    if 0 <= at && at + patch.len() <= s.len() {
        overwrite(s, at, patch)
    } else {
        s
    }
}

/// A part of a part of `s` is a part of `s`.
pub proof fn lemma_part_of_part(s: Seq<u8>, a: int, b: int, x: int, y: int)
    requires
        0 <= a <= b <= s.len(),
        0 <= x <= y <= b - a,
    ensures
        s.subrange(a, b).subrange(x, y) == s.subrange(a + x, a + y),
{
    assert(s.subrange(a, b).subrange(x, y) =~= s.subrange(a + x, a + y));
}

/// A part of what follows `a` in `a + b` is a part of `b`.
pub proof fn lemma_part_of_second(a: Seq<u8>, b: Seq<u8>, x: int, y: int)
    requires
        0 <= x <= y <= b.len(),
    ensures
        (a + b).subrange(a.len() + x, a.len() + y) == b.subrange(x, y),
{
    assert((a + b).subrange(a.len() + x, a.len() + y) =~= b.subrange(x, y));
}

/// A part of `a` is a part of `a + b`.
pub proof fn lemma_part_of_first(a: Seq<u8>, b: Seq<u8>, x: int, y: int)
    requires
        0 <= x <= y <= a.len(),
    ensures
        (a + b).subrange(x, y) == a.subrange(x, y),
{
    assert((a + b).subrange(x, y) =~= a.subrange(x, y));
}

/// Writing over bytes leaves the parts of `s` that lie before or after
/// them as they are.
pub proof fn lemma_overwrite_elsewhere(s: Seq<u8>, at: int, patch: Seq<u8>, from: int, to: int)
    requires
        0 <= from <= to <= s.len(),
        to <= at || at + patch.len() <= from,
    ensures
        overwrite(s, at, patch).subrange(from, to) == s.subrange(from, to),
{
    assert(overwrite(s, at, patch).subrange(from, to) =~= s.subrange(from, to));
}

/// A 16-bit number is made of its two big-endian digits.
pub proof fn lemma_u16_split(v: u16)
    ensures
        0 <= v / 0x100 < 0x100,
        0 <= v % 0x100 < 0x100,
        v == (v / 0x100) * 0x100 + v % 0x100,
{
    vstd::arithmetic::div_mod::lemma_fundamental_div_mod(v as int, 0x100);
}

/// A 32-bit number is made of its four big-endian digits.
pub proof fn lemma_u32_split(v: u32)
    ensures
        0 <= v / 0x100_0000 < 0x100,
        0 <= (v / 0x1_0000) % 0x100 < 0x100,
        0 <= (v / 0x100) % 0x100 < 0x100,
        0 <= v % 0x100 < 0x100,
        v == (v / 0x100_0000) * 0x100_0000 + ((v / 0x1_0000) % 0x100) * 0x1_0000 + ((v / 0x100)
            % 0x100) * 0x100 + v % 0x100,
{
    let x = v as int;
    vstd::arithmetic::div_mod::lemma_fundamental_div_mod(x, 0x100);
    vstd::arithmetic::div_mod::lemma_fundamental_div_mod(x / 0x100, 0x100);
    vstd::arithmetic::div_mod::lemma_fundamental_div_mod(x / 0x100 / 0x100, 0x100);
    vstd::arithmetic::div_mod::lemma_div_denominator(x, 0x100, 0x100);
    vstd::arithmetic::div_mod::lemma_div_denominator(x, 0x1_0000, 0x100);
    assert(x / 0x100 / 0x100 == x / 0x1_0000);
    assert(x / 0x1_0000 / 0x100 == x / 0x100_0000);
}

/// Reading back what `u16_bytes` wrote gives the number.
pub proof fn lemma_u16_round_trip(v: u16)
    ensures
        u16_bytes(v).len() == 2,
        u16_at(u16_bytes(v), 0) == v,
{
    lemma_u16_split(v);
}

/// Reading back what `u32_bytes` wrote gives the number.
pub proof fn lemma_u32_round_trip(v: u32)
    ensures
        u32_bytes(v).len() == 4,
        u32_at(u32_bytes(v), 0) == v,
{
    lemma_u32_split(v);
}

/// The big-endian number of four bytes gives each of them back.
pub proof fn lemma_u32_digits(a: u8, b: u8, c: u8, d: u8)
    ensures
        0 <= a * 0x100_0000 + b * 0x1_0000 + c * 0x100 + d <= 0xffff_ffff,
        (a * 0x100_0000 + b * 0x1_0000 + c * 0x100 + d) / 0x100_0000 == a,
        ((a * 0x100_0000 + b * 0x1_0000 + c * 0x100 + d) / 0x1_0000) % 0x100 == b,
        ((a * 0x100_0000 + b * 0x1_0000 + c * 0x100 + d) / 0x100) % 0x100 == c,
        (a * 0x100_0000 + b * 0x1_0000 + c * 0x100 + d) % 0x100 == d,
{
    let x = a * 0x100_0000 + b * 0x1_0000 + c * 0x100 + d;
    vstd::arithmetic::div_mod::lemma_fundamental_div_mod_converse(
        x,
        0x100_0000,
        a as int,
        b * 0x1_0000 + c * 0x100 + d,
    );
    vstd::arithmetic::div_mod::lemma_fundamental_div_mod_converse(
        x,
        0x1_0000,
        a * 0x100 + b,
        c * 0x100 + d,
    );
    vstd::arithmetic::div_mod::lemma_fundamental_div_mod_converse(
        a * 0x100 + b,
        0x100,
        a as int,
        b as int,
    );
    vstd::arithmetic::div_mod::lemma_fundamental_div_mod_converse(
        x,
        0x100,
        a * 0x1_0000 + b * 0x100 + c,
        d as int,
    );
    vstd::arithmetic::div_mod::lemma_fundamental_div_mod_converse(
        a * 0x1_0000 + b * 0x100 + c,
        0x100,
        a * 0x100 + b,
        c as int,
    );
}

/// Writing a number that was read gives the bytes it was read from.
pub proof fn lemma_u32_bytes_of_read(s: Seq<u8>, i: int)
    requires
        0 <= i,
        i + 4 <= s.len(),
    ensures
        u32_bytes(u32_at(s, i)) == s.subrange(i, i + 4),
{
    lemma_u32_digits(s[i], s[i + 1], s[i + 2], s[i + 3]);
    let v = u32_at(s, i);
    let w = u32_bytes(v);
    let t = s.subrange(i, i + 4);
    assert(w.len() == 4 && t.len() == 4);
    assert(w[0] == t[0]);
    assert(w[1] == t[1]);
    assert(w[2] == t[2]);
    assert(w[3] == t[3]);
    assert(w =~= t);
}

/// Writing a number that was read gives the bytes it was read from.
pub proof fn lemma_u16_bytes_of_read(s: Seq<u8>, i: int)
    requires
        0 <= i,
        i + 2 <= s.len(),
    ensures
        u16_bytes(u16_at(s, i)) == s.subrange(i, i + 2),
{
    assert(u16_bytes(u16_at(s, i)) =~= s.subrange(i, i + 2));
}

/// The 16-bit number at place `pos` of `data`, if `data` reaches that far.
pub fn read_u16(data: &[u8], pos: usize) -> (value: Option<u16>)
    ensures
        value == (if pos + 2 <= data@.len() {
            Some(u16_at(data@, pos as int))
        } else {
            None
        }),
{
    if data.len() < 2 || pos > data.len() - 2 {
        return None;
    }
    Some((data[pos] as u16) * 0x100 + (data[pos + 1] as u16))
}

/// The 32-bit number at place `pos` of `data`, if `data` reaches that far.
pub fn read_u32(data: &[u8], pos: usize) -> (value: Option<u32>)
    ensures
        value == (if pos + 4 <= data@.len() {
            Some(u32_at(data@, pos as int))
        } else {
            None
        }),
{
    if data.len() < 4 || pos > data.len() - 4 {
        return None;
    }
    Some(
        (data[pos] as u32) * 0x100_0000 + (data[pos + 1] as u32) * 0x1_0000 + (data[pos
            + 2] as u32) * 0x100 + (data[pos + 3] as u32),
    )
}

/// The big-endian form of `v`.
pub fn u16_to_bytes(v: u16) -> (bytes: [u8; 2])
    ensures
        bytes@ == u16_bytes(v),
{
    let bytes = [(v / 0x100) as u8, (v % 0x100) as u8];
    assert(bytes@ =~= u16_bytes(v));
    bytes
}

/// The big-endian form of `v`.
pub fn u32_to_bytes(v: u32) -> (bytes: [u8; 4])
    ensures
        bytes@ == u32_bytes(v),
{
    let bytes = [
        (v / 0x100_0000) as u8,
        ((v / 0x1_0000) % 0x100) as u8,
        ((v / 0x100) % 0x100) as u8,
        (v % 0x100) as u8,
    ];
    assert(bytes@ =~= u32_bytes(v));
    bytes
}

/// Appends the bytes of `src` from `from` up to `to` to `out`.
pub(crate) fn append_range(out: &mut Vec<u8>, src: &[u8], from: usize, to: usize)
    requires
        from <= to <= src@.len(),
    ensures
        final(out)@ == old(out)@ + src@.subrange(from as int, to as int),
{
    let part = vstd::slice::slice_subrange(src, from, to);
    out.extend_from_slice(part);
    assert(out@ =~= old(out)@ + src@.subrange(from as int, to as int));
}

/// Appends all of `src` to `out`.
pub fn append_all(out: &mut Vec<u8>, src: &[u8])
    ensures
        final(out)@ == old(out)@ + src@,
{
    out.extend_from_slice(src);
    assert(out@ =~= old(out)@ + src@);
}

/// Writes `patch` over the bytes of `data` from place `at` on, where `data`
/// has room for all of it.
#[verifier::loop_isolation(false)]
pub fn put_bytes(data: &mut Vec<u8>, at: usize, patch: &[u8])
    ensures
        final(data)@ == put(old(data)@, at as int, patch@),
{
    let n = patch.len();
    if data.len() < n || at > data.len() - n {
        return ;
    }
    let mut i: usize = 0;
    while i < n
        invariant
            n == patch@.len(),
            at + n <= data@.len(),
            data@.len() == old(data)@.len(),
            0 <= i <= n,
            forall|j: int| 0 <= j < data@.len() ==> data@[j] == (if at <= j < at + i {
                patch@[j - at]
            } else {
                old(data)@[j]
            }),
        decreases n - i,
    {
        data[at + i] = patch[i];
        i += 1;
    }
    assert(data@ =~= put(old(data)@, at as int, patch@));
}

/// A copy of the bytes.
pub fn copy_bytes(data: &[u8]) -> (copy: Vec<u8>)
    ensures
        copy@ == data@,
{
    vstd::slice::slice_to_vec(data)
}

/// Whether the two byte strings are the same.
pub fn same_bytes(a: &[u8], b: &[u8]) -> (same: bool)
    ensures
        same == (a@ == b@),
{
    if a.len() != b.len() {
        return false;
    }
    let n = a.len();
    let mut i: usize = 0;
    while i < n
        invariant
            n == a@.len(),
            n == b@.len(),
            0 <= i <= n,
            forall|j: int| 0 <= j < i ==> a@[j] == b@[j],
        decreases n - i,
    {
        if a[i] != b[i] {
            return false;
        }
        i += 1;
    }
    assert(a@ =~= b@);
    true
}

} // verus!
