//! # Digests
//!
//! The FNV-1a digest that keys changes and bodies, and its spelling in
//! hexadecimal.

use crate::text::{push_char, Text};
use vstd::prelude::*;
use vstd::string::*;

verus! {

/// The multiplier of the digest.
pub const PRIME: u64 = 0x100000001b3;

/// The state a digest starts from.
pub const OFFSET: u64 = 0xcbf29ce484222325;

/// The state a digest starts from.
pub open spec fn fnv_start() -> u64 {
    OFFSET
}

/// One byte folded into a state.
pub open spec fn fnv_step(state: u64, byte: u8) -> u64 {
    (((state ^ (byte as u64)) as nat * PRIME as nat) % 0x1_0000_0000_0000_0000) as u64
}

/// A message folded into a state, first byte first.
pub open spec fn fnv_fold(state: u64, bytes: Seq<u8>) -> u64
    decreases bytes.len(),
{
    if bytes.len() == 0 {
        state
    } else {
        fnv_step(fnv_fold(state, bytes.drop_last()), bytes.last())
    }
}

/// Folding two parts is folding the whole.
pub proof fn lemma_fold_concat(state: u64, a: Seq<u8>, b: Seq<u8>)
    ensures
        fnv_fold(state, a + b) == fnv_fold(fnv_fold(state, a), b),
    decreases b.len(),
{
    if b.len() == 0 {
        assert(a + b =~= a);
    } else {
        assert((a + b).drop_last() =~= a + b.drop_last());
        lemma_fold_concat(state, a, b.drop_last());
    }
}

/// A digest in progress.
pub struct Fnv(u64);

impl View for Fnv {
    type V = u64;

    closed spec fn view(&self) -> u64 {
        self.0
    }
}

impl Fnv {
    /// A digest of nothing yet.
    pub fn new() -> (digest: Self)
        ensures
            digest@ == fnv_start(),
    {
        Fnv(OFFSET)
    }

    /// Folds one byte in.
    pub fn step(&mut self, byte: u8)
        ensures
            final(self)@ == fnv_step(old(self)@, byte),
            final(self)@ == fnv_fold(old(self)@, seq![byte]),
    {
        let ghost before = self.0;
        proof {
            let one = seq![byte];
            assert(one.drop_last() =~= Seq::<u8>::empty());
            assert(one.last() == byte);
            assert(fnv_fold(before, one.drop_last()) == before);
        }
        self.0 = (self.0 ^ (byte as u64)).wrapping_mul(PRIME);
    }

    /// Folds bytes in, in order.
    pub fn update(&mut self, bytes: &[u8])
        ensures
            final(self)@ == fnv_fold(old(self)@, bytes@),
    {
        let ghost start = self@;
        let mut i: usize = 0;
        while i < bytes.len()
            invariant
                i <= bytes.len(),
                self@ == fnv_fold(start, bytes@.take(i as int)),
            decreases bytes.len() - i,
        {
            proof {
                assert(bytes@.take(i + 1).drop_last() =~= bytes@.take(i as int));
                assert(bytes@.take(i + 1).last() == bytes@[i as int]);
            }
            self.step(bytes[i]);
            i = i + 1;
        }
        assert(bytes@.take(i as int) =~= bytes@);
    }

    /// The digest of what was folded in.
    pub fn value(&self) -> (value: u64)
        ensures
            value == self@,
    {
        self.0
    }
}

/// The lowercase hexadecimal digit of a value below sixteen.
pub open spec fn hex_digit(value: nat) -> char {
    "0123456789abcdef"@[value as int]
}

/// The lowest `count` hexadecimal digits of a value, the highest first.
pub open spec fn hex_digits(value: nat, count: nat) -> Text
    decreases count,
{
    if count == 0 {
        Seq::empty()
    } else {
        hex_digits(value / 16, (count - 1) as nat).push(hex_digit(value % 16))
    }
}

fn digit_char(value: u64) -> (digit: char)
    requires
        value < 16,
    ensures
        digit == hex_digit(value as nat),
{
    proof {
        reveal_strlit("0123456789abcdef");
    }
    "0123456789abcdef".get_char(value as usize)
}

fn push_hex(out: &mut String, value: u64, count: u32)
    ensures
        final(out)@ == old(out)@ + hex_digits(value as nat, count as nat),
    decreases count,
{
    let ghost before = out@;
    if count == 0 {
        assert(out@ =~= before + hex_digits(value as nat, 0));
    } else {
        push_hex(out, value / 16, count - 1);
        push_char(out, digit_char(value % 16));
        assert(out@ =~= before + hex_digits(value as nat, count as nat));
    }
}

/// A digest as sixteen lowercase hexadecimal characters.
pub fn hex_text(value: u64) -> (text: String)
    ensures
        text@ == hex_digits(value as nat, 16),
{
    let mut text = String::new();
    push_hex(&mut text, value, 16);
    assert(text@ =~= hex_digits(value as nat, 16));
    text
}

/// A spelling in hexadecimal has the digits asked for.
pub proof fn lemma_hex_len(value: nat, count: nat)
    ensures
        hex_digits(value, count).len() == count,
    decreases count,
{
    if count > 0 {
        lemma_hex_len(value / 16, (count - 1) as nat);
    }
}

} // verus!
