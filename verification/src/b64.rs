//! Base64 text for binary payloads: the standard alphabet with `=`
//! padding, and the round-trip lemma the fixture codec rests on.

use vstd::prelude::*;
use crate::text::{sep_free, NL, SP};

verus! {

/// The padding character `=`.
pub const PAD: u8 = 61;

/// The alphabet character of a six-bit value.
pub open spec fn b64_char(n: u8) -> u8 {
    if n < 26 {
        (n + 65) as u8
    } else if n < 52 {
        (n + 71) as u8
    } else if n < 62 {
        (n - 4) as u8
    } else if n == 62 {
        43u8
    } else {
        47u8
    }
}

/// Whether `c` is an alphabet character.
pub open spec fn is_b64_char(c: u8) -> bool {
    (65 <= c <= 90) || (97 <= c <= 122) || (48 <= c <= 57) || c == 43 || c == 47
}

/// The six-bit value of an alphabet character.
pub open spec fn b64_val(c: u8) -> u8 {
    if 65 <= c <= 90 {
        (c - 65) as u8
    } else if 97 <= c <= 122 {
        (c - 71) as u8
    } else if 48 <= c <= 57 {
        (c + 4) as u8
    } else if c == 43 {
        62u8
    } else {
        63u8
    }
}

/// The alphabet maps six-bit values to clean token characters and back.
pub proof fn lemma_b64_char(n: u8)
    requires
        n < 64,
    ensures
        is_b64_char(b64_char(n)),
        b64_val(b64_char(n)) == n,
        b64_char(n) != SP && b64_char(n) != NL && b64_char(n) != PAD,
{
}

/// The base64 text of a byte string: four characters per three-byte group,
/// a short final group padded with `=`.
pub open spec fn b64_bytes(s: Seq<u8>) -> Seq<u8>
    decreases s.len(),
{
    if s.len() == 0 {
        Seq::empty()
    } else if s.len() == 1 {
        seq![b64_char(s[0] / 4), b64_char(((s[0] % 4) * 16) as u8), PAD, PAD]
    } else if s.len() == 2 {
        seq![
            b64_char(s[0] / 4),
            b64_char(((s[0] % 4) * 16 + s[1] / 16) as u8),
            b64_char(((s[1] % 16) * 4) as u8),
            PAD,
        ]
    } else {
        seq![
            b64_char(s[0] / 4),
            b64_char(((s[0] % 4) * 16 + s[1] / 16) as u8),
            b64_char(((s[1] % 16) * 4 + s[2] / 64) as u8),
            b64_char(s[2] % 64),
        ] + b64_bytes(s.skip(3))
    }
}

/// What the decoder accepts: groups of four characters, each an alphabet
/// character or padding.
pub open spec fn is_b64_token(t: Seq<u8>) -> bool {
    t.len() % 4 == 0 && forall|j: int| 0 <= j < t.len() ==> is_b64_char(#[trigger] t[j]) || t[j]
        == PAD
}

/// The bytes a base64 token denotes, group by group.
pub open spec fn b64_to_bytes(t: Seq<u8>) -> Seq<u8>
    decreases t.len(),
{
    if t.len() < 4 {
        Seq::empty()
    } else if t[2] == PAD && t[3] == PAD {
        seq![(b64_val(t[0]) * 4 + b64_val(t[1]) / 16) as u8]
    } else if t[3] == PAD {
        seq![
            (b64_val(t[0]) * 4 + b64_val(t[1]) / 16) as u8,
            ((b64_val(t[1]) % 16) * 16 + b64_val(t[2]) / 4) as u8,
        ]
    } else {
        seq![
            (b64_val(t[0]) * 4 + b64_val(t[1]) / 16) as u8,
            ((b64_val(t[1]) % 16) * 16 + b64_val(t[2]) / 4) as u8,
            ((b64_val(t[2]) % 4) * 64 + b64_val(t[3])) as u8,
        ] + b64_to_bytes(t.skip(4))
    }
}

/// The base64 text of a byte string is a clean token of the expected
/// length: four characters for every started three-byte group.
pub proof fn lemma_b64_bytes_token(s: Seq<u8>)
    ensures
        is_b64_token(b64_bytes(s)),
        sep_free(b64_bytes(s)),
        b64_bytes(s).len() == 4 * ((s.len() + 2) / 3),
    decreases s.len(),
{
    if s.len() == 0 {
    } else if s.len() == 1 {
        lemma_b64_char(s[0] / 4);
        lemma_b64_char(((s[0] % 4) * 16) as u8);
    } else if s.len() == 2 {
        lemma_b64_char(s[0] / 4);
        lemma_b64_char(((s[0] % 4) * 16 + s[1] / 16) as u8);
        lemma_b64_char(((s[1] % 16) * 4) as u8);
    } else {
        lemma_b64_bytes_token(s.skip(3));
        lemma_b64_char(s[0] / 4);
        lemma_b64_char(((s[0] % 4) * 16 + s[1] / 16) as u8);
        lemma_b64_char(((s[1] % 16) * 4 + s[2] / 64) as u8);
        lemma_b64_char(s[2] % 64);
        let t = b64_bytes(s);
        let rest = b64_bytes(s.skip(3));
        assert(forall|j: int| 0 <= j < rest.len() ==> t[j + 4] == #[trigger] rest[j]);
        assert(s.skip(3).len() == s.len() - 3);
    }
}

/// Reading the base64 text of `s` back gives `s`.
pub proof fn lemma_b64_bytes_val(s: Seq<u8>)
    ensures
        b64_to_bytes(b64_bytes(s)) == s,
    decreases s.len(),
{
    if s.len() == 0 {
        assert(b64_to_bytes(b64_bytes(s)) =~= s);
    } else if s.len() == 1 {
        let b0 = s[0];
        lemma_b64_char(b0 / 4);
        lemma_b64_char(((b0 % 4) * 16) as u8);
        assert((b0 / 4) * 4 + ((b0 % 4) * 16) / 16 == b0) by (bit_vector);
        assert(b64_to_bytes(b64_bytes(s)) =~= s);
    } else if s.len() == 2 {
        let b0 = s[0];
        let b1 = s[1];
        lemma_b64_char(b0 / 4);
        lemma_b64_char(((b0 % 4) * 16 + b1 / 16) as u8);
        lemma_b64_char(((b1 % 16) * 4) as u8);
        assert((b0 / 4) * 4 + ((b0 % 4) * 16 + b1 / 16) / 16 == b0) by (bit_vector);
        assert((((b0 % 4) * 16 + b1 / 16) % 16) * 16 + ((b1 % 16) * 4) / 4 == b1) by (bit_vector);
        assert(b64_to_bytes(b64_bytes(s)) =~= s);
    } else {
        let b0 = s[0];
        let b1 = s[1];
        let b2 = s[2];
        lemma_b64_bytes_val(s.skip(3));
        lemma_b64_bytes_token(s.skip(3));
        lemma_b64_char(b0 / 4);
        lemma_b64_char(((b0 % 4) * 16 + b1 / 16) as u8);
        lemma_b64_char(((b1 % 16) * 4 + b2 / 64) as u8);
        lemma_b64_char(b2 % 64);
        let t = b64_bytes(s);
        let rest = b64_bytes(s.skip(3));
        assert(t.len() == 4 + rest.len());
        assert(forall|j: int| 0 <= j < rest.len() ==> t[j + 4] == #[trigger] rest[j]);
        assert(t.skip(4) =~= rest);
        assert(t[2] != PAD && t[3] != PAD);
        assert((b0 / 4) * 4 + ((b0 % 4) * 16 + b1 / 16) / 16 == b0) by (bit_vector);
        assert((((b0 % 4) * 16 + b1 / 16) % 16) * 16 + ((b1 % 16) * 4 + b2 / 64) / 4 == b1)
            by (bit_vector);
        assert(((((b1 % 16) * 4 + b2 / 64)) % 4) * 64 + (b2 % 64) == b2) by (bit_vector);
        assert(b64_to_bytes(t) =~= s);
    }
}

} // verus!
