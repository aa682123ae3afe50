//! Fingerprints of values for in-memory keys.

use crate::text::{
    append_digits, digit_char, digits_text, lemma_digits_in_radix, lemma_digits_injective,
    lemma_digits_length, radix_power,
};
use std::collections::hash_map::DefaultHasher;
use std::hash::{Hash, Hasher};
use vstd::prelude::*;
use vstd::std_specs::hash::DefaultHasherAdditionalSpecFns;

verus! {

/// The lowercase hexadecimal text of `n`.
pub open spec fn hex_text(n: nat) -> Seq<char> {
    digits_text(n, 16)
}

/// Different fingerprints have different hexadecimal texts.
pub proof fn lemma_hex_distinct(a: nat, b: nat)
    requires
        a != b,
    ensures
        hex_text(a) != hex_text(b),
{
    if hex_text(a) == hex_text(b) {
        lemma_digits_injective(a, b, 16);
    }
}

/// Whether a character is one of `0` to `9` or `a` to `f`.
pub open spec fn is_lower_hex(c: char) -> bool {
    ('0' <= c && c <= '9') || ('a' <= c && c <= 'f')
}

/// The hexadecimal text of a 64-bit number has between one and sixteen
/// characters, each a digit or a lowercase letter up to `f`.
pub proof fn lemma_hex_shape(h: u64)
    ensures
        1 <= hex_text(h as nat).len() <= 16,
        forall|i: int|
            0 <= i < hex_text(h as nat).len() ==> is_lower_hex(#[trigger] hex_text(h as nat)[i]),
{
    reveal_with_fuel(radix_power, 17);
    assert(radix_power(16, 16) == 0x1_0000_0000_0000_0000);
    lemma_digits_length(h as nat, 16, 16);
    lemma_digits_in_radix(h as nat, 16);
    assert forall|i: int| 0 <= i < hex_text(h as nat).len() implies is_lower_hex(
        #[trigger] hex_text(h as nat)[i],
    ) by {
        let d = choose|d: nat| d < 16 && hex_text(h as nat)[i] == digit_char(d);
        if d < 10 {
            assert(((48 + d) as u8) as char as nat == 48 + d);
        } else {
            assert(((87 + d) as u8) as char as nat == 87 + d);
        }
    }
}

/// `Hash::hash` of std: the value writes itself into the hasher. What it
/// writes is up to the value's own impl, so nothing is claimed of the
/// hasher's state afterwards.
#[verifier::external_body]
fn feed<T: Hash>(input: &T, state: &mut DefaultHasher) {
    input.hash(state);
}

/// A 64-bit fingerprint of `input`: the digest of a fresh default hasher
/// after `input` has written itself into it.
pub fn fast_hash<T: Hash>(input: &T) -> (h: u64)
    ensures
        exists|written: Seq<Seq<u8>>| h == DefaultHasher::spec_finish(written),
{
    let mut hasher = DefaultHasher::new();
    feed(input, &mut hasher);
    let h = hasher.finish();
    assert(h == DefaultHasher::spec_finish(hasher@));
    h
}

/// The lowercase hexadecimal text of a fingerprint.
pub fn hex_of(h: u64) -> (s: String)
    ensures
        s@ == hex_text(h as nat),
{
    let mut s = String::new();
    append_digits(&mut s, h as u128, 16);
    assert(s@ =~= hex_text(h as nat));
    s
}

/// What a text writes into a hasher when std's `Hash::hash` of `str` feeds
/// it: a run of writes that depends on the text alone.
pub uninterp spec fn text_written(text: Seq<char>) -> Seq<Seq<u8>>;

/// The fingerprint of a text: the digest of a fresh default hasher after
/// the text has written itself into it.
pub open spec fn text_fingerprint(text: Seq<char>) -> u64 {
    DefaultHasher::spec_finish(text_written(text))
}

/// `Hash::hash` of std at `str`: the text writes itself into the hasher,
/// after what was written before. What it writes depends on the text alone.
#[verifier::external_body]
fn feed_text(input: &str, state: &mut DefaultHasher)
    ensures
        final(state)@ == old(state)@ + text_written(input@),
{
    input.hash(state);
}

/// Texts with different fingerprints have different hexadecimal texts, so
/// that only a collision of fingerprints gives two texts the same result.
pub proof fn lemma_hash_string_distinct(a: Seq<char>, b: Seq<char>)
    requires
        text_fingerprint(a) != text_fingerprint(b),
    ensures
        hex_text(text_fingerprint(a) as nat) != hex_text(text_fingerprint(b) as nat),
{
    lemma_hex_distinct(text_fingerprint(a) as nat, text_fingerprint(b) as nat);
}

/// The fingerprint of a text, as lowercase hexadecimal: the same text
/// always gives the same result.
pub fn hash_string(input: &str) -> (s: String)
    ensures
        s@ == hex_text(text_fingerprint(input@) as nat),
        1 <= s@.len() <= 16,
        forall|i: int| 0 <= i < s@.len() ==> is_lower_hex(#[trigger] s@[i]),
{
    let mut hasher = DefaultHasher::new();
    feed_text(input, &mut hasher);
    let h = hasher.finish();
    proof {
        assert(hasher@ =~= text_written(input@));
        lemma_hex_shape(h);
    }
    hex_of(h)
}

} // verus!
