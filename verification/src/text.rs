//! Text tokens of the fixture format: decimal numbers and hexadecimal byte
//! strings, with their round-trip lemmas. Tokens never contain the two
//! separators (space and newline), which is what makes the line format
//! unambiguous.

use vstd::prelude::*;
use vstd::arithmetic::div_mod::lemma_fundamental_div_mod;

verus! {

/// The token separator within a line.
pub const SP: u8 = 32;

/// The line separator.
pub const NL: u8 = 10;

/// No byte of the token is a separator.
pub open spec fn sep_free(t: Seq<u8>) -> bool {
    forall|j: int| 0 <= j < t.len() ==> (#[trigger] t[j]) != SP && t[j] != NL
}

/// The decimal digits of `n`, most significant first, no leading zeros.
pub open spec fn dec_digits(n: nat) -> Seq<u8>
    decreases n,
{
    if n < 10 {
        seq![(n + 48) as u8]
    } else {
        dec_digits(n / 10).push(((n % 10) + 48) as u8)
    }
}

/// Nonempty and all decimal digits.
pub open spec fn is_dec_token(t: Seq<u8>) -> bool {
    t.len() > 0 && forall|j: int| 0 <= j < t.len() ==> 48 <= (#[trigger] t[j]) <= 57
}

/// The value a digit string denotes.
pub open spec fn dec_val(t: Seq<u8>) -> int
    decreases t.len(),
{
    if t.len() == 0 {
        0
    } else {
        dec_val(t.drop_last()) * 10 + (t.last() - 48)
    }
}

/// `dec_digits(n)` is a digit token.
pub proof fn lemma_dec_digits_token(n: nat)
    ensures
        is_dec_token(dec_digits(n)),
        sep_free(dec_digits(n)),
    decreases n,
{
    if n >= 10 {
        lemma_dec_digits_token(n / 10);
        assert(0 <= n % 10 < 10);
        let d = dec_digits(n);
        let pre = dec_digits(n / 10);
        assert(forall|j: int| 0 <= j < pre.len() ==> d[j] == #[trigger] pre[j]);
        assert(d[d.len() - 1] == ((n % 10) + 48) as u8);
    }
}

/// Reading the digits of `n` back gives `n`.
pub proof fn lemma_dec_digits_val(n: nat)
    ensures
        dec_val(dec_digits(n)) == n,
    decreases n,
{
    if n < 10 {
        let d = dec_digits(n);
        assert(d == seq![(n + 48) as u8]);
        assert(d.len() == 1);
        assert(d.drop_last() =~= Seq::<u8>::empty());
        assert(dec_val(d.drop_last()) == 0);
        assert(((n + 48) as u8) == n + 48);
        assert(d.last() == (n + 48) as u8);
        assert(dec_val(d) == dec_val(d.drop_last()) * 10 + (d.last() - 48));
    } else {
        lemma_dec_digits_val(n / 10);
        let d = dec_digits(n);
        assert(d.drop_last() =~= dec_digits(n / 10));
        assert(0 <= n % 10 < 10);
        assert((((n % 10) + 48) as u8) == (n % 10) + 48);
        assert(d.last() == ((n % 10) + 48) as u8);
        assert(dec_val(d) == dec_val(dec_digits(n / 10)) * 10 + ((n % 10) + 48 - 48));
        lemma_fundamental_div_mod(n as int, 10);
        assert(n == 10 * (n / 10) + n % 10);
        assert((n as int / 10) * 10 == 10 * (n / 10)) by (nonlinear_arith);
    }
}

/// The value of a digit prefix never exceeds the value of the whole token.
pub proof fn lemma_dec_val_prefix(t: Seq<u8>, i: int)
    requires
        is_dec_token(t),
        0 <= i <= t.len(),
    ensures
        0 <= dec_val(t.take(i)) <= dec_val(t),
        dec_val(t.take(t.len() as int)) == dec_val(t),
    decreases t.len() - i,
{
    lemma_dec_val_nonneg(t.take(i));
    if i < t.len() {
        lemma_dec_val_prefix(t, i + 1);
        assert(t.take(i + 1).drop_last() =~= t.take(i));
        assert(t.take(i + 1).last() == t[i]);
        assert(dec_val(t.take(i + 1)) == dec_val(t.take(i)) * 10 + (t[i] - 48));
        lemma_dec_val_nonneg(t.take(i));
        assert(dec_val(t.take(i)) <= dec_val(t.take(i)) * 10) by (nonlinear_arith)
            requires
                dec_val(t.take(i)) >= 0,
        ;
    } else {
        assert(t.take(i) =~= t);
    }
}

/// A digit string denotes a value of at least zero.
pub proof fn lemma_dec_val_nonneg(t: Seq<u8>)
    requires
        forall|j: int| 0 <= j < t.len() ==> 48 <= (#[trigger] t[j]) <= 57,
    ensures
        dec_val(t) >= 0,
    decreases t.len(),
{
    if t.len() > 0 {
        let pre = t.drop_last();
        assert(forall|j: int| 0 <= j < pre.len() ==> pre[j] == #[trigger] t[j]);
        lemma_dec_val_nonneg(pre);
        assert(dec_val(pre) * 10 >= 0) by (nonlinear_arith)
            requires
                dec_val(pre) >= 0,
        ;
    }
}

/// The hexadecimal digit of a value below sixteen, lower case.
pub open spec fn hex_digit(n: u8) -> u8 {
    if n < 10 {
        (n + 48) as u8
    } else {
        (n + 87) as u8
    }
}

/// The value of one hexadecimal digit.
pub open spec fn hex_digit_val(c: u8) -> u8 {
    if c <= 57 {
        (c - 48) as u8
    } else {
        (c - 87) as u8
    }
}

/// Two lower-case hexadecimal digits for each byte, in order.
pub open spec fn hex_bytes(s: Seq<u8>) -> Seq<u8>
    decreases s.len(),
{
    if s.len() == 0 {
        Seq::empty()
    } else {
        hex_bytes(s.drop_last()) + seq![hex_digit(s.last() / 16), hex_digit(s.last() % 16)]
    }
}

/// Even length, all lower-case hexadecimal digits.
pub open spec fn is_hex_token(t: Seq<u8>) -> bool {
    t.len() % 2 == 0 && forall|j: int| 0 <= j < t.len() ==> (48 <= (#[trigger] t[j]) <= 57 || 97
        <= t[j] <= 102)
}

/// The bytes a hexadecimal token denotes.
pub open spec fn hex_to_bytes(t: Seq<u8>) -> Seq<u8>
    decreases t.len(),
{
    if t.len() < 2 {
        Seq::empty()
    } else {
        hex_to_bytes(t.drop_last().drop_last()).push(
            (16 * hex_digit_val(t[t.len() - 2]) + hex_digit_val(t.last())) as u8,
        )
    }
}

/// `hex_bytes(s)` is a hexadecimal token of twice the length.
pub proof fn lemma_hex_bytes_token(s: Seq<u8>)
    ensures
        is_hex_token(hex_bytes(s)),
        sep_free(hex_bytes(s)),
        hex_bytes(s).len() == 2 * s.len(),
    decreases s.len(),
{
    if s.len() > 0 {
        lemma_hex_bytes_token(s.drop_last());
        let h = hex_bytes(s);
        let pre = hex_bytes(s.drop_last());
        assert(forall|j: int| 0 <= j < pre.len() ==> h[j] == #[trigger] pre[j]);
        assert(h[h.len() - 2] == hex_digit(s.last() / 16));
        assert(h[h.len() - 1] == hex_digit(s.last() % 16));
        assert(s.last() / 16 < 16);
        assert(s.last() % 16 < 16);
    }
}

/// Reading the hexadecimal form of `s` back gives `s`.
pub proof fn lemma_hex_bytes_val(s: Seq<u8>)
    ensures
        hex_to_bytes(hex_bytes(s)) == s,
    decreases s.len(),
{
    if s.len() == 0 {
        assert(hex_to_bytes(hex_bytes(s)) =~= s);
    } else {
        lemma_hex_bytes_val(s.drop_last());
        lemma_hex_bytes_token(s.drop_last());
        let h = hex_bytes(s);
        let b = s.last();
        assert(h.len() >= 2);
        assert(h.drop_last().drop_last() =~= hex_bytes(s.drop_last()));
        assert(h[h.len() - 2] == hex_digit(b / 16));
        assert(h[h.len() - 1] == hex_digit(b % 16));
        assert(b / 16 < 16);
        assert(hex_digit_val(hex_digit(b / 16)) == b / 16);
        assert(hex_digit_val(hex_digit(b % 16)) == b % 16);
        assert(16 * (b / 16) + b % 16 == b) by (bit_vector);
        assert(hex_to_bytes(h) =~= s);
    }
}

/// Where the token starting at `i` ends: the first separator at or after
/// `i`, or the end of the input.
pub open spec fn token_end(s: Seq<u8>, i: int) -> int
    decreases s.len() - i,
{
    if i < 0 || i >= s.len() {
        i
    } else if s[i] == SP || s[i] == NL {
        i
    } else {
        token_end(s, i + 1)
    }
}

/// A separator-free run followed by a separator scans to exactly its end.
pub proof fn lemma_token_end_of(s: Seq<u8>, i: int, t: Seq<u8>)
    requires
        0 <= i,
        i + t.len() < s.len(),
        s.subrange(i, i + t.len()) == t,
        sep_free(t),
        s[i + t.len()] == SP || s[i + t.len()] == NL,
    ensures
        token_end(s, i) == i + t.len(),
    decreases t.len(),
{
    if t.len() == 0 {
    } else {
        assert(s[i] == t[0]);
        assert(t[0] != SP && t[0] != NL);
        assert(s.subrange(i + 1, i + t.len()) =~= t.drop_first());
        assert(forall|j: int| 0 <= j < t.drop_first().len() ==> #[trigger] t.drop_first()[j] == t[
            j + 1
        ]);
        lemma_token_end_of(s, i + 1, t.drop_first());
    }
}

/// `token_end` stays within bounds and scans a separator-free run.
pub proof fn lemma_token_end_bounds(s: Seq<u8>, i: int)
    requires
        0 <= i <= s.len(),
    ensures
        i <= token_end(s, i) <= s.len(),
        sep_free(s.subrange(i, token_end(s, i))),
        token_end(s, i) < s.len() ==> (s[token_end(s, i)] == SP || s[token_end(s, i)] == NL),
    decreases s.len() - i,
{
    if i < s.len() && s[i] != SP && s[i] != NL {
        lemma_token_end_bounds(s, i + 1);
        let t = s.subrange(i, token_end(s, i));
        let t1 = s.subrange(i + 1, token_end(s, i + 1));
        assert(forall|j: int| 1 <= j < t.len() ==> #[trigger] t[j] == t1[j - 1]);
        assert(t[0] == s[i]);
    }
}

} // verus!
