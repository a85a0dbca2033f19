//! The 32-bit checksum of a table: the sum, modulo 2^32, of the big-endian
//! words of its bytes, the last word filled up with zero bytes.

use crate::bytes::{u32_at, zeros};
use vstd::prelude::*;

verus! {

/// What a byte counts for at the given place of the stream: the value of its
/// position within the big-endian word that it falls in.
pub open spec fn byte_weight(place: int) -> int {
    if place % 4 == 0 {
        0x100_0000
    } else if place % 4 == 1 {
        0x1_0000
    } else if place % 4 == 2 {
        0x100
    } else {
        1
    }
}

/// The bytes of `bytes`, each multiplied by its weight and summed, where the
/// first byte stands at place `start` of the stream.
pub open spec fn weighted_sum(bytes: Seq<u8>, start: int) -> int
    decreases bytes.len(),
{
    if bytes.len() == 0 {
        0
    } else {
        weighted_sum(bytes.drop_last(), start) + bytes.last() * byte_weight(
            start + bytes.len() - 1,
        )
    }
}

/// The checksum of `bytes`.
pub open spec fn sum32(bytes: Seq<u8>) -> u32 {
    (weighted_sum(bytes, 0) % 0x1_0000_0000) as u32
}

/// What a checksum accumulator stands for: the checksum of the bytes pushed
/// so far, and how many bytes of a word the last push left begun.
pub struct ChecksumState {
    pub sum: u32,
    pub phase: int,
}

/// The state before any byte is pushed.
pub open spec fn start_state() -> ChecksumState {
    ChecksumState { sum: 0, phase: 0 }
}

/// The state that pushing `bytes` leads to from `state`.
pub open spec fn advance(state: ChecksumState, bytes: Seq<u8>) -> ChecksumState {
    ChecksumState {
        sum: ((state.sum + weighted_sum(bytes, state.phase)) % 0x1_0000_0000) as u32,
        phase: (state.phase + bytes.len()) % 4,
    }
}

/// A weighted sum is never negative.
pub proof fn lemma_weighted_sum_nonnegative(bytes: Seq<u8>, start: int)
    ensures
        weighted_sum(bytes, start) >= 0,
    decreases bytes.len(),
{
    if bytes.len() > 0 {
        lemma_weighted_sum_nonnegative(bytes.drop_last(), start);
        assert(bytes.last() * byte_weight(start + bytes.len() - 1) >= 0) by (nonlinear_arith)
            requires
                bytes.last() >= 0,
                byte_weight(start + bytes.len() - 1) >= 1,
        ;
    }
}

/// The weighted sum of two strings in a row is the sum of their weighted
/// sums, the second taken from where the first ends.
pub proof fn lemma_weighted_sum_concat(a: Seq<u8>, b: Seq<u8>, start: int)
    ensures
        weighted_sum(a + b, start) == weighted_sum(a, start) + weighted_sum(b, start + a.len()),
    decreases b.len(),
{
    if b.len() == 0 {
        assert(a + b =~= a);
    } else {
        lemma_weighted_sum_concat(a, b.drop_last(), start);
        assert((a + b).drop_last() =~= a + b.drop_last());
    }
}

/// Only the place within the word counts: moving a string by whole words
/// leaves its weighted sum as it was.
pub proof fn lemma_weighted_sum_shift(bytes: Seq<u8>, start: int, other: int)
    requires
        start % 4 == other % 4,
    ensures
        weighted_sum(bytes, start) == weighted_sum(bytes, other),
    decreases bytes.len(),
{
    if bytes.len() > 0 {
        lemma_weighted_sum_shift(bytes.drop_last(), start, other);
        assert((start + bytes.len() - 1) % 4 == (other + bytes.len() - 1) % 4);
    }
}

/// A single byte counts for its value times its weight.
pub proof fn lemma_weighted_sum_one(byte: u8, start: int)
    ensures
        weighted_sum(seq![byte], start) == byte * byte_weight(start),
{
    let one = seq![byte];
    assert(one.drop_last() =~= Seq::<u8>::empty());
    assert(weighted_sum(one.drop_last(), start) == 0);
    assert(one.last() == byte);
}

/// Zero bytes add nothing to a weighted sum.
pub proof fn lemma_weighted_sum_zeros(n: nat, start: int)
    ensures
        weighted_sum(zeros(n), start) == 0,
    decreases n,
{
    if n > 0 {
        assert(zeros(n).drop_last() =~= zeros((n - 1) as nat));
        lemma_weighted_sum_zeros((n - 1) as nat, start);
    }
}

/// A whole word at a word boundary counts for its big-endian value.
pub proof fn lemma_weighted_sum_word(word: Seq<u8>, start: int)
    requires
        word.len() == 4,
        start % 4 == 0,
    ensures
        weighted_sum(word, start) == u32_at(word, 0),
{
    let w3 = word.drop_last();
    let w2 = w3.drop_last();
    let w1 = w2.drop_last();
    let w0 = w1.drop_last();
    assert(weighted_sum(w0, start) == 0);
    assert(weighted_sum(w1, start) == word[0] * 0x100_0000);
    assert(weighted_sum(w2, start) == word[0] * 0x100_0000 + word[1] * 0x1_0000);
    assert(weighted_sum(w3, start) == word[0] * 0x100_0000 + word[1] * 0x1_0000 + word[2] * 0x100);
}

/// Taking the remainder of a summand first does not change the remainder
/// of a sum.
pub proof fn lemma_remainder_of_sum(x: int, y: int)
    ensures
        (x % 0x1_0000_0000 + y) % 0x1_0000_0000 == (x + y) % 0x1_0000_0000,
{
    vstd::arithmetic::div_mod::lemma_add_mod_noop(x, y, 0x1_0000_0000);
    vstd::arithmetic::div_mod::lemma_add_mod_noop(x % 0x1_0000_0000, y, 0x1_0000_0000);
    vstd::arithmetic::div_mod::lemma_mod_twice(x, 0x1_0000_0000);
}

/// The place within a word after two strings is the place after both.
pub proof fn lemma_phase_of_sum(phase: int, a: int, b: int)
    requires
        0 <= phase,
        0 <= a,
        0 <= b,
    ensures
        ((phase + a) % 4 + b) % 4 == (phase + a + b) % 4,
{
    vstd::arithmetic::div_mod::lemma_add_mod_noop(phase + a, b, 4);
    vstd::arithmetic::div_mod::lemma_add_mod_noop((phase + a) % 4, b, 4);
    vstd::arithmetic::div_mod::lemma_mod_twice(phase + a, 4);
}

/// Pushing two strings one after the other leads to the same state as
/// pushing them as one string.
pub proof fn lemma_advance_concat(state: ChecksumState, a: Seq<u8>, b: Seq<u8>)
    requires
        0 <= state.phase < 4,
    ensures
        advance(advance(state, a), b) == advance(state, a + b),
{
    let first = advance(state, a);
    let sum_a = weighted_sum(a, state.phase);
    let sum_b = weighted_sum(b, state.phase + a.len());
    lemma_weighted_sum_concat(a, b, state.phase);
    lemma_weighted_sum_shift(b, state.phase + a.len(), first.phase);
    lemma_weighted_sum_nonnegative(a, state.phase);
    lemma_weighted_sum_nonnegative(b, state.phase + a.len());
    assert(weighted_sum(a + b, state.phase) == sum_a + sum_b);
    assert(weighted_sum(b, first.phase) == sum_b);
    lemma_remainder_of_sum(state.sum + sum_a, sum_b);
    lemma_phase_of_sum(state.phase, a.len() as int, b.len() as int);
    assert(first.sum == (state.sum + sum_a) % 0x1_0000_0000);
    assert((a + b).len() == a.len() + b.len());
    assert(advance(first, b).sum == (state.sum + sum_a + sum_b) % 0x1_0000_0000);
    assert(advance(state, a + b).sum == (state.sum + (sum_a + sum_b)) % 0x1_0000_0000);
}

/// Pushing bytes from the start state gives their checksum.
pub proof fn lemma_advance_from_start(bytes: Seq<u8>)
    ensures
        advance(start_state(), bytes).sum == sum32(bytes),
{
}

/// The checksum does not see zero bytes put after the data, which is how a
/// last word that the data leaves short is filled up.
pub proof fn lemma_sum32_padding(bytes: Seq<u8>, n: nat)
    ensures
        sum32(bytes + zeros(n)) == sum32(bytes),
{
    lemma_weighted_sum_concat(bytes, zeros(n), 0);
    lemma_weighted_sum_zeros(n, bytes.len() as int);
}

/// The checksum of data that ends with a whole word at a word boundary is
/// the checksum of what stands before the word plus the big-endian value of
/// the word, modulo 2^32.
pub proof fn lemma_sum32_last_word(bytes: Seq<u8>)
    requires
        bytes.len() >= 4,
        bytes.len() % 4 == 0,
    ensures
        sum32(bytes) == (sum32(bytes.subrange(0, bytes.len() - 4)) + u32_at(
            bytes,
            bytes.len() - 4,
        )) % 0x1_0000_0000,
{
    let n = bytes.len() as int;
    let front = bytes.subrange(0, n - 4);
    let word = bytes.subrange(n - 4, n);
    assert(bytes =~= front + word);
    lemma_weighted_sum_concat(front, word, 0);
    lemma_weighted_sum_word(word, n - 4);
    lemma_weighted_sum_nonnegative(front, 0);
    let x = weighted_sum(front, 0);
    let y = u32_at(word, 0) as int;
    assert(u32_at(word, 0) == u32_at(bytes, n - 4));
    lemma_remainder_of_sum(x, y);
}

/// An accumulator for the checksum of a stream of bytes that comes in
/// pieces.
#[derive(Clone, Copy, Debug)]
pub struct Checksum {
    sum: u32,
    index: u8,
}

impl View for Checksum {
    type V = ChecksumState;

    closed spec fn view(&self) -> ChecksumState {
        ChecksumState { sum: self.sum, phase: self.index as int % 4 }
    }
}

impl Default for Checksum {
    fn default() -> (checksum: Self)
        ensures
            checksum@ == start_state(),
    {
        Checksum { sum: 0, index: 0 }
    }
}

impl Checksum {
    /// The accumulator that the given bytes were pushed to, and no others.
    pub closed spec fn after(bytes: Seq<u8>) -> Checksum {
        Checksum {
            sum: advance(start_state(), bytes).sum,
            index: advance(start_state(), bytes).phase as u8,
        }
    }

    /// An accumulator after bytes stands for their checksum.
    pub proof fn lemma_after(bytes: Seq<u8>)
        ensures
            Checksum::after(bytes)@ == advance(start_state(), bytes),
    {
    }

    /// An accumulator that no byte was pushed to.
    pub fn new() -> (checksum: Self)
        ensures
            checksum@ == start_state(),
    {
        Checksum { sum: 0, index: 0 }
    }

    /// The phase of a state lies within a word.
    pub proof fn lemma_phase(self)
        ensures
            0 <= self@.phase < 4,
    {
    }

    /// Takes the bytes of `buf` as the next bytes of the stream.
    pub fn push(&mut self, buf: &[u8])
        ensures
            final(self)@ == advance(old(self)@, buf@),
    {
        let n = buf.len();
        let mut i: usize = 0;
        proof {
            assert(buf@.subrange(0, 0) =~= Seq::<u8>::empty());
        }
        while i < n
            invariant
                n == buf@.len(),
                0 <= i <= n,
                self@ == advance(old(self)@, buf@.subrange(0, i as int)),
            decreases n - i,
        {
            let place: u8 = self.index % 4;
            let byte: u32 = buf[i] as u32;
            let term: u32 = if place == 0 {
                byte * 0x100_0000
            } else if place == 1 {
                byte * 0x1_0000
            } else if place == 2 {
                byte * 0x100
            } else {
                byte
            };
            proof {
                let before = buf@.subrange(0, i as int);
                let one = seq![buf@[i as int]];
                assert(buf@.subrange(0, i + 1) =~= before + one);
                lemma_advance_concat(old(self)@, before, one);
                lemma_weighted_sum_one(buf@[i as int], self@.phase);
                assert(term == weighted_sum(one, self@.phase));
            }
            self.sum = self.sum.wrapping_add(term);
            self.index = (place + 1) % 4;
            i += 1;
        }
        assert(buf@.subrange(0, n as int) =~= buf@);
    }

    /// The checksum of the bytes pushed so far.
    pub fn get(&self) -> (sum: u32)
        ensures
            sum == self@.sum,
    {
        self.sum
    }
}

impl<'a> From<&'a [u8]> for Checksum {
    /// An accumulator that the bytes of `buf` were pushed to.
    fn from(buf: &'a [u8]) -> (checksum: Self) {
        let mut pushed = Checksum::new();
        pushed.push(buf);
        Checksum { sum: pushed.sum, index: pushed.index % 4 }
    }
}

impl<'a> vstd::std_specs::convert::FromSpecImpl<&'a [u8]> for Checksum {
    open spec fn obeys_from_spec() -> bool {
        true
    }

    open spec fn from_spec(buf: &'a [u8]) -> Self {
        Checksum::after(buf@)
    }
}

/// The checksum of `bytes`.
pub fn checksum_of(bytes: &[u8]) -> (sum: u32)
    ensures
        sum == sum32(bytes@),
{
    let mut checksum = Checksum::new();
    checksum.push(bytes);
    checksum.get()
}

} // verus!
