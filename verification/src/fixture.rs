//! The fixture codec: a versioned flat-file snapshot of the cache, written
//! as UTF-8 text, one line per item. Line one is the version (this codec
//! writes and reads only version 1). Three metadata lines follow — height,
//! capture timestamp, source endpoint — each either its value or `-` for
//! unset. Every further line is one account: address, balance, data, owner,
//! executable flag and epoch, space-separated, with addresses in lowercase
//! hexadecimal and the binary payload in base64. Loading is the offline
//! substitute for fetching: it never touches the network.

use vstd::prelude::*;
use crate::addr::{Address, ADDRESS_LEN};
use crate::b64::{
    b64_bytes, b64_char, b64_to_bytes, b64_val, is_b64_char, is_b64_token, lemma_b64_bytes_token,
    lemma_b64_bytes_val, PAD,
};
use crate::cache::{unique_keys, AccountCache};
use crate::errors::{ErrorView, FixtureReason, RpcError};
use crate::record::{AccountRecord, RecordView};
use crate::store::{extend_map, pair_views};
use crate::text::{
    dec_digits, dec_val, hex_bytes, hex_digit, hex_digit_val, hex_to_bytes, is_dec_token,
    is_hex_token, lemma_dec_digits_token, lemma_dec_digits_val, lemma_dec_val_prefix, lemma_hex_bytes_token, lemma_hex_bytes_val, lemma_token_end_bounds,
    lemma_token_end_of, sep_free, token_end, NL, SP,
};
use crate::util::{clone_bytes, copy_range};

verus! {

/// Capture metadata of a snapshot: ledger height, capture timestamp and
/// source endpoint, each optional.
#[derive(Debug)]
pub struct FixtureMeta {
    pub slot: Option<u64>,
    pub timestamp: Option<u64>,
    pub rpc_url: Option<Vec<u8>>,
}

/// The source endpoint as byte text: printable, no spaces, and not the
/// single dash that stands for an unset value.
pub open spec fn url_wf(u: Seq<u8>) -> bool {
    &&& u.len() > 0
    &&& u != seq![45u8]
    &&& forall|j: int| 0 <= j < u.len() ==> 33 <= (#[trigger] u[j]) <= 126
}

/// The view of an optional byte-text field.
pub open spec fn opt_url_view(o: Option<Vec<u8>>) -> Option<Seq<u8>> {
    match o {
        Option::Some(u) => Option::Some(u@),
        Option::None => Option::None,
    }
}

impl FixtureMeta {
    /// Well-formed: the endpoint text, if set, is a clean token.
    pub open spec fn wf(self) -> bool {
        self.rpc_url matches Some(u) ==> url_wf(u@)
    }
}

/// Mathematical image of a whole fixture.
#[verifier::ext_equal]
pub struct FixtureView {
    pub slot: Option<u64>,
    pub timestamp: Option<u64>,
    pub rpc_url: Option<Seq<u8>>,
    pub accounts: Seq<(Seq<u8>, RecordView)>,
}

impl FixtureView {
    /// Well-formed: addresses and owners full-length, endpoint a clean token.
    pub open spec fn wf(self) -> bool {
        &&& (self.rpc_url matches Some(u) ==> url_wf(u))
        &&& forall|i: int| 0 <= i < self.accounts.len() ==> (#[trigger] self.accounts[i]).0.len()
            == ADDRESS_LEN && self.accounts[i].1.owner.len() == ADDRESS_LEN
    }
}

/// An optional number line: the digits, or a dash.
pub open spec fn enc_opt_dec(o: Option<u64>) -> Seq<u8> {
    match o {
        Option::None => seq![45u8, NL],
        Option::Some(v) => dec_digits(v as nat).push(NL),
    }
}

/// An optional endpoint line: the token, or a dash.
pub open spec fn enc_opt_url(o: Option<Seq<u8>>) -> Seq<u8> {
    match o {
        Option::None => seq![45u8, NL],
        Option::Some(u) => u.push(NL),
    }
}

/// The digit an executable flag is written as.
pub open spec fn enc_bool(b: bool) -> u8 {
    if b {
        49u8
    } else {
        48u8
    }
}

/// One account line.
pub open spec fn enc_account_line(k: Seq<u8>, r: RecordView) -> Seq<u8> {
    hex_bytes(k).push(SP) + dec_digits(r.balance as nat).push(SP) + b64_bytes(r.data).push(SP)
        + hex_bytes(r.owner).push(SP) + seq![enc_bool(r.executable), SP] + dec_digits(
        r.metadata_epoch as nat,
    ).push(NL)
}

/// The account lines, in entry order.
pub open spec fn enc_accounts(entries: Seq<(Seq<u8>, RecordView)>) -> Seq<u8>
    decreases entries.len(),
{
    if entries.len() == 0 {
        Seq::empty()
    } else {
        enc_account_line(entries.first().0, entries.first().1) + enc_accounts(entries.drop_first())
    }
}

/// A whole fixture: version line, three metadata lines, account lines.
pub open spec fn enc_fixture(f: FixtureView) -> Seq<u8> {
    seq![49u8, NL] + enc_opt_dec(f.slot) + enc_opt_dec(f.timestamp) + enc_opt_url(f.rpc_url)
        + enc_accounts(f.accounts)
}

/// Parses a decimal token at `i` followed by `sep`.
pub open spec fn p_dec(s: Seq<u8>, i: int, sep: u8) -> Option<(u64, int)> {
    let e = token_end(s, i);
    let t = s.subrange(i, e);
    if e < s.len() && s[e] == sep && is_dec_token(t) && dec_val(t) <= u64::MAX {
        Option::Some((dec_val(t) as u64, e + 1))
    } else {
        Option::None
    }
}

/// Parses a hexadecimal token at `i` followed by `sep`.
pub open spec fn p_hex(s: Seq<u8>, i: int, sep: u8) -> Option<(Seq<u8>, int)> {
    let e = token_end(s, i);
    let t = s.subrange(i, e);
    if e < s.len() && s[e] == sep && is_hex_token(t) {
        Option::Some((hex_to_bytes(t), e + 1))
    } else {
        Option::None
    }
}

/// Parses a base64 token at `i` followed by `sep`.
pub open spec fn p_b64(s: Seq<u8>, i: int, sep: u8) -> Option<(Seq<u8>, int)> {
    let e = token_end(s, i);
    let t = s.subrange(i, e);
    if e < s.len() && s[e] == sep && is_b64_token(t) {
        Option::Some((b64_to_bytes(t), e + 1))
    } else {
        Option::None
    }
}

/// Parses an optional number line at `i`.
pub open spec fn p_opt_dec_line(s: Seq<u8>, i: int) -> Option<(Option<u64>, int)> {
    if 0 <= i && i + 1 < s.len() && s[i] == 45 && s[i + 1] == NL {
        Option::Some((Option::None, i + 2))
    } else {
        match p_dec(s, i, NL) {
            Option::Some((v, j)) => Option::Some((Option::Some(v), j)),
            Option::None => Option::None,
        }
    }
}

/// Parses an optional endpoint line at `i`.
pub open spec fn p_opt_url_line(s: Seq<u8>, i: int) -> Option<(Option<Seq<u8>>, int)> {
    if 0 <= i && i + 1 < s.len() && s[i] == 45 && s[i + 1] == NL {
        Option::Some((Option::None, i + 2))
    } else {
        let e = token_end(s, i);
        let t = s.subrange(i, e);
        if e < s.len() && s[e] == NL && t.len() > 0 {
            Option::Some((Option::Some(t), e + 1))
        } else {
            Option::None
        }
    }
}

/// Parses the executable flag at `i` followed by `sep`.
pub open spec fn p_bool(s: Seq<u8>, i: int, sep: u8) -> Option<(bool, int)> {
    if 0 <= i && i + 1 < s.len() && (s[i] == 48 || s[i] == 49) && s[i + 1] == sep {
        Option::Some((s[i] == 49, i + 2))
    } else {
        Option::None
    }
}

/// Parses one account line at `i`.
pub open spec fn p_account_line(s: Seq<u8>, i: int) -> Option<((Seq<u8>, RecordView), int)> {
    match p_hex(s, i, SP) {
        Option::None => Option::None,
        Option::Some((addr, i1)) => if addr.len() != ADDRESS_LEN {
            Option::None
        } else {
            match p_dec(s, i1, SP) {
                Option::None => Option::None,
                Option::Some((balance, i2)) => match p_b64(s, i2, SP) {
                    Option::None => Option::None,
                    Option::Some((data, i3)) => match p_hex(s, i3, SP) {
                        Option::None => Option::None,
                        Option::Some((owner, i4)) => if owner.len() != ADDRESS_LEN {
                            Option::None
                        } else {
                            match p_bool(s, i4, SP) {
                                Option::None => Option::None,
                                Option::Some((executable, i5)) => match p_dec(s, i5, NL) {
                                    Option::None => Option::None,
                                    Option::Some((metadata_epoch, i6)) => Option::Some(
                                        (
                                            (
                                                addr,
                                                RecordView {
                                                    balance,
                                                    data,
                                                    owner,
                                                    executable,
                                                    metadata_epoch,
                                                },
                                            ),
                                            i6,
                                        ),
                                    ),
                                },
                            }
                        },
                    },
                },
            }
        },
    }
}

/// Parses account lines from `i` to the end of the input.
pub open spec fn p_accounts(s: Seq<u8>, i: int) -> Option<Seq<(Seq<u8>, RecordView)>>
    decreases s.len() - i,
{
    if i >= s.len() {
        Option::Some(Seq::empty())
    } else {
        match p_account_line(s, i) {
            Option::None => Option::None,
            Option::Some((entry, j)) => if j <= i || j > s.len() {
                Option::None
            } else {
                match p_accounts(s, j) {
                    Option::None => Option::None,
                    Option::Some(rest) => Option::Some(seq![entry] + rest),
                }
            },
        }
    }
}

/// Parses a whole fixture: the envelope is checked first, and any version
/// other than 1 is rejected outright.
pub open spec fn p_fixture(s: Seq<u8>) -> Result<FixtureView, FixtureReason> {
    match p_dec(s, 0, NL) {
        Option::None => Err(FixtureReason::Malformed),
        Option::Some((v, i1)) => if v != 1 {
            Err(FixtureReason::UnsupportedVersion { version: v })
        } else {
            match p_opt_dec_line(s, i1) {
                Option::None => Err(FixtureReason::Malformed),
                Option::Some((slot, i2)) => match p_opt_dec_line(s, i2) {
                    Option::None => Err(FixtureReason::Malformed),
                    Option::Some((timestamp, i3)) => match p_opt_url_line(s, i3) {
                        Option::None => Err(FixtureReason::Malformed),
                        Option::Some((rpc_url, i4)) => match p_accounts(s, i4) {
                            Option::None => Err(FixtureReason::Malformed),
                            Option::Some(accounts) => Ok(
                                FixtureView { slot, timestamp, rpc_url, accounts },
                            ),
                        },
                    },
                },
            }
        },
    }
}

/// If `s` holds `w` at offset `i`, it holds every piece of `w` at the
/// shifted offset.
proof fn lemma_subrange_at(s: Seq<u8>, i: int, w: Seq<u8>, a: int, b: int)
    requires
        0 <= i,
        i + w.len() <= s.len(),
        s.subrange(i, i + w.len()) == w,
        0 <= a <= b <= w.len(),
    ensures
        s.subrange(i + a, i + b) == w.subrange(a, b),
{
    assert(s.subrange(i + a, i + b) =~= w.subrange(a, b)) by {
        assert forall|q: int| 0 <= q < b - a implies s.subrange(i + a, i + b)[q] == w.subrange(
            a,
            b,
        )[q] by {
            assert(s.subrange(i, i + w.len())[a + q] == w[a + q]);
        }
    }
}

/// If `s` holds `w` at offset `i`, it holds each byte of `w` at the
/// shifted offset.
proof fn lemma_index_at(s: Seq<u8>, i: int, w: Seq<u8>, a: int)
    requires
        0 <= i,
        i + w.len() <= s.len(),
        s.subrange(i, i + w.len()) == w,
        0 <= a < w.len(),
    ensures
        s[i + a] == w[a],
{
    assert(s.subrange(i, i + w.len())[a] == w[a]);
}

/// An emitted decimal token parses back to its value.
proof fn lemma_p_dec_image(s: Seq<u8>, i: int, sep: u8, n: u64)
    requires
        0 <= i,
        i + dec_digits(n as nat).len() < s.len(),
        s.subrange(i, i + dec_digits(n as nat).len()) == dec_digits(n as nat),
        s[i + dec_digits(n as nat).len()] == sep,
        sep == SP || sep == NL,
    ensures
        p_dec(s, i, sep) == Option::Some((n, i + dec_digits(n as nat).len() + 1)),
{
    let d = dec_digits(n as nat);
    lemma_dec_digits_token(n as nat);
    lemma_token_end_of(s, i, d);
    assert(s.subrange(i, token_end(s, i)) == d);
    lemma_dec_digits_val(n as nat);
}

/// An emitted hexadecimal token parses back to its bytes.
proof fn lemma_p_hex_image(s: Seq<u8>, i: int, sep: u8, b: Seq<u8>)
    requires
        0 <= i,
        i + hex_bytes(b).len() < s.len(),
        s.subrange(i, i + hex_bytes(b).len()) == hex_bytes(b),
        s[i + hex_bytes(b).len()] == sep,
        sep == SP || sep == NL,
    ensures
        p_hex(s, i, sep) == Option::Some((b, i + hex_bytes(b).len() + 1)),
{
    let h = hex_bytes(b);
    lemma_hex_bytes_token(b);
    lemma_token_end_of(s, i, h);
    assert(s.subrange(i, token_end(s, i)) == h);
    lemma_hex_bytes_val(b);
}

/// An emitted base64 token parses back to its bytes.
proof fn lemma_p_b64_image(s: Seq<u8>, i: int, sep: u8, b: Seq<u8>)
    requires
        0 <= i,
        i + b64_bytes(b).len() < s.len(),
        s.subrange(i, i + b64_bytes(b).len()) == b64_bytes(b),
        s[i + b64_bytes(b).len()] == sep,
        sep == SP || sep == NL,
    ensures
        p_b64(s, i, sep) == Option::Some((b, i + b64_bytes(b).len() + 1)),
{
    let t = b64_bytes(b);
    lemma_b64_bytes_token(b);
    lemma_token_end_of(s, i, t);
    assert(s.subrange(i, token_end(s, i)) == t);
    lemma_b64_bytes_val(b);
}

/// An emitted optional number line parses back to its value.
proof fn lemma_p_opt_dec_image(s: Seq<u8>, i: int, o: Option<u64>)
    requires
        0 <= i,
        i + enc_opt_dec(o).len() <= s.len(),
        s.subrange(i, i + enc_opt_dec(o).len()) == enc_opt_dec(o),
    ensures
        p_opt_dec_line(s, i) == Option::Some((o, i + enc_opt_dec(o).len())),
{
    let line = enc_opt_dec(o);
    match o {
        Option::None => {
            lemma_index_at(s, i, line, 0);
            lemma_index_at(s, i, line, 1);
            assert(s[i] == 45 && s[i + 1] == NL);
        },
        Option::Some(v) => {
            let d = dec_digits(v as nat);
            lemma_dec_digits_token(v as nat);
            assert(line.len() == d.len() + 1);
            lemma_subrange_at(s, i, line, 0, d.len() as int);
            assert(line.subrange(0, d.len() as int) =~= d);
            lemma_index_at(s, i, line, d.len() as int);
            assert(line[d.len() as int] == NL);
            lemma_p_dec_image(s, i, NL, v);
            lemma_index_at(s, i, line, 0);
            assert(line[0] == d[0]);
            assert(48 <= d[0] <= 57);
        },
    }
}

/// An emitted optional endpoint line parses back to its token.
proof fn lemma_p_opt_url_image(s: Seq<u8>, i: int, o: Option<Seq<u8>>)
    requires
        0 <= i,
        i + enc_opt_url(o).len() <= s.len(),
        s.subrange(i, i + enc_opt_url(o).len()) == enc_opt_url(o),
        o matches Some(u) ==> url_wf(u),
    ensures
        p_opt_url_line(s, i) == Option::Some((o, i + enc_opt_url(o).len())),
{
    let line = enc_opt_url(o);
    match o {
        Option::None => {
            lemma_index_at(s, i, line, 0);
            lemma_index_at(s, i, line, 1);
            assert(s[i] == 45 && s[i + 1] == NL);
        },
        Option::Some(u) => {
            assert(line.len() == u.len() + 1);
            assert(sep_free(u));
            lemma_subrange_at(s, i, line, 0, u.len() as int);
            assert(line.subrange(0, u.len() as int) =~= u);
            lemma_index_at(s, i, line, u.len() as int);
            assert(line[u.len() as int] == NL);
            lemma_token_end_of(s, i, u);
            assert(s.subrange(i, token_end(s, i)) == u);
            lemma_index_at(s, i, line, 0);
            assert(line[0] == u[0]);
            if u[0] == 45 {
                if u.len() == 1 {
                    assert(u =~= seq![45u8]);
                    assert(false);
                } else {
                    lemma_index_at(s, i, line, 1);
                    assert(line[1] == u[1]);
                    assert(33 <= u[1] <= 126);
                }
            }
        },
    }
}

/// An emitted account line parses back to its entry.
proof fn lemma_p_account_line_image(s: Seq<u8>, i: int, k: Seq<u8>, r: RecordView)
    requires
        0 <= i,
        k.len() == ADDRESS_LEN,
        r.owner.len() == ADDRESS_LEN,
        i + enc_account_line(k, r).len() <= s.len(),
        s.subrange(i, i + enc_account_line(k, r).len()) == enc_account_line(k, r),
    ensures
        p_account_line(s, i) == Option::Some(((k, r), i + enc_account_line(k, r).len())),
        enc_account_line(k, r).len() > 0,
{
    let line = enc_account_line(k, r);
    let l = line.len();
    let h1 = hex_bytes(k);
    let d1 = dec_digits(r.balance as nat);
    let h2 = b64_bytes(r.data);
    let h3 = hex_bytes(r.owner);
    let d2 = dec_digits(r.metadata_epoch as nat);
    lemma_hex_bytes_token(k);
    lemma_b64_bytes_token(r.data);
    lemma_hex_bytes_token(r.owner);
    lemma_dec_digits_token(r.balance as nat);
    lemma_dec_digits_token(r.metadata_epoch as nat);
    assert(l == h1.len() + 1 + d1.len() + 1 + h2.len() + 1 + h3.len() + 1 + 2 + d2.len() + 1);
    let o1: int = h1.len() as int + 1;
    let o2: int = o1 + d1.len() as int + 1;
    let o3: int = o2 + h2.len() as int + 1;
    let o4: int = o3 + h3.len() as int + 1;
    let o5: int = o4 + 2;
    lemma_subrange_at(s, i, line, 0, h1.len() as int);
    assert(line.subrange(0, h1.len() as int) =~= h1);
    lemma_index_at(s, i, line, h1.len() as int);
    assert(line[h1.len() as int] == SP);
    lemma_p_hex_image(s, i, SP, k);
    lemma_subrange_at(s, i, line, o1, o1 + d1.len());
    assert(line.subrange(o1, o1 + d1.len()) =~= d1);
    lemma_index_at(s, i, line, o1 + d1.len());
    assert(line[o1 + d1.len()] == SP);
    lemma_p_dec_image(s, i + o1, SP, r.balance);
    lemma_subrange_at(s, i, line, o2, o2 + h2.len());
    assert(line.subrange(o2, o2 + h2.len()) =~= h2);
    lemma_index_at(s, i, line, o2 + h2.len());
    assert(line[o2 + h2.len()] == SP);
    lemma_p_b64_image(s, i + o2, SP, r.data);
    lemma_subrange_at(s, i, line, o3, o3 + h3.len());
    assert(line.subrange(o3, o3 + h3.len()) =~= h3);
    lemma_index_at(s, i, line, o3 + h3.len());
    assert(line[o3 + h3.len()] == SP);
    lemma_p_hex_image(s, i + o3, SP, r.owner);
    lemma_index_at(s, i, line, o4);
    assert(line[o4] == enc_bool(r.executable));
    lemma_index_at(s, i, line, o4 + 1);
    assert(line[o4 + 1] == SP);
    assert(p_bool(s, i + o4, SP) == Option::Some((r.executable, i + o5)));
    lemma_subrange_at(s, i, line, o5, o5 + d2.len());
    assert(line.subrange(o5, o5 + d2.len()) =~= d2);
    lemma_index_at(s, i, line, o5 + d2.len());
    assert(line[o5 + d2.len()] == NL);
    lemma_p_dec_image(s, i + o5, NL, r.metadata_epoch);
    assert(p_account_line(s, i) == Option::Some(((k, r), i + l)));
}

/// Emitted account lines parse back to their entries.
proof fn lemma_p_accounts_image(s: Seq<u8>, i: int, entries: Seq<(Seq<u8>, RecordView)>)
    requires
        0 <= i <= s.len(),
        s.len() == i + enc_accounts(entries).len(),
        s.subrange(i, s.len() as int) == enc_accounts(entries),
        forall|j: int| 0 <= j < entries.len() ==> (#[trigger] entries[j]).0.len() == ADDRESS_LEN
            && entries[j].1.owner.len() == ADDRESS_LEN,
    ensures
        p_accounts(s, i) == Option::Some(entries),
    decreases entries.len(),
{
    if entries.len() == 0 {
        assert(entries =~= Seq::<(Seq<u8>, RecordView)>::empty());
    } else {
        let first = entries.first();
        let rest = entries.drop_first();
        let line = enc_account_line(first.0, first.1);
        let l = line.len();
        assert(enc_accounts(entries) == line + enc_accounts(rest));
        let whole = enc_accounts(entries);
        lemma_subrange_at(s, i, whole, 0, l as int);
        assert(whole.subrange(0, l as int) =~= line);
        assert(entries[0] == first);
        lemma_p_account_line_image(s, i, first.0, first.1);
        let j = i + l;
        lemma_subrange_at(s, i, whole, l as int, whole.len() as int);
        assert(whole.subrange(l as int, whole.len() as int) =~= enc_accounts(rest));
        assert(forall|q: int| 0 <= q < rest.len() ==> #[trigger] rest[q] == entries[q + 1]);
        lemma_p_accounts_image(s, j, rest);
        assert(seq![first] + rest =~= entries);
    }
}

/// A saved fixture loads back to exactly the fixture it was saved from:
/// every record's balance, data, owner, executable flag and epoch, the
/// metadata, and the entry order.
#[verifier::rlimit(60)]
pub proof fn lemma_fixture_roundtrip(f: FixtureView)
    requires
        f.wf(),
    ensures
        p_fixture(enc_fixture(f)) == Ok::<FixtureView, FixtureReason>(f),
{
    let s = enc_fixture(f);
    let a = enc_opt_dec(f.slot);
    let b = enc_opt_dec(f.timestamp);
    let c = enc_opt_url(f.rpc_url);
    let d = enc_accounts(f.accounts);
    assert(s == seq![49u8, NL] + a + b + c + d);
    if f.slot is Some {
        lemma_dec_digits_token(f.slot->0 as nat);
    }
    if f.timestamp is Some {
        lemma_dec_digits_token(f.timestamp->0 as nat);
    }
    assert(a.len() >= 2 && b.len() >= 2 && c.len() >= 1);
    assert(dec_digits(1) =~= seq![49u8]);
    assert(s.subrange(0, 1) =~= dec_digits(1));
    assert(s[1] == NL);
    lemma_p_dec_image(s, 0, NL, 1);
    let i1 = 2;
    assert(s.subrange(i1, i1 + a.len()) =~= a);
    lemma_p_opt_dec_image(s, i1, f.slot);
    let i2 = i1 + a.len();
    assert(s.subrange(i2, i2 + b.len()) =~= b);
    lemma_p_opt_dec_image(s, i2, f.timestamp);
    let i3 = i2 + b.len();
    assert(s.subrange(i3, i3 + c.len()) =~= c);
    lemma_p_opt_url_image(s, i3, f.rpc_url);
    let i4 = i3 + c.len();
    assert(s.subrange(i4, s.len() as int) =~= d);
    lemma_p_accounts_image(s, i4, f.accounts);
    assert(p_fixture(s) == Ok::<FixtureView, FixtureReason>(
        FixtureView {
            slot: f.slot,
            timestamp: f.timestamp,
            rpc_url: f.rpc_url,
            accounts: f.accounts,
        },
    ));
    assert(FixtureView {
        slot: f.slot,
        timestamp: f.timestamp,
        rpc_url: f.rpc_url,
        accounts: f.accounts,
    } =~= f);
}

fn hex_digit_of(n: u8) -> (r: u8)
    requires
        n < 16,
    ensures
        r == hex_digit(n),
{
    if n < 10 {
        n + 48
    } else {
        n + 87
    }
}

fn hex_val_of(c: u8) -> (r: u8)
    requires
        48 <= c <= 57 || 97 <= c <= 102,
    ensures
        r == hex_digit_val(c),
        r < 16,
{
    if c <= 57 {
        c - 48
    } else {
        c - 87
    }
}

fn b64_char_of(n: u8) -> (r: u8)
    requires
        n < 64,
    ensures
        r == b64_char(n),
{
    if n < 26 {
        n + 65
    } else if n < 52 {
        n + 71
    } else if n < 62 {
        n - 4
    } else if n == 62 {
        43
    } else {
        47
    }
}

fn b64_val_of(c: u8) -> (r: u8)
    requires
        is_b64_char(c) || c == PAD,
    ensures
        r == b64_val(c),
        r < 64,
{
    if 65 <= c && c <= 90 {
        c - 65
    } else if 97 <= c && c <= 122 {
        c - 71
    } else if 48 <= c && c <= 57 {
        c + 4
    } else if c == 43 {
        62
    } else {
        63
    }
}

/// Appends the base64 text of `bytes` from index `i` on.
fn emit_b64(out: &mut Vec<u8>, bytes: &Vec<u8>, i: usize)
    requires
        i <= bytes@.len(),
    ensures
        final(out)@ == old(out)@ + b64_bytes(bytes@.skip(i as int)),
    decreases bytes@.len() - i,
{
    let n = bytes.len();
    let ghost tail = bytes@.skip(i as int);
    if i == n {
        proof {
            assert(tail =~= Seq::<u8>::empty());
            assert(out@ =~= old(out)@ + b64_bytes(tail));
        }
    } else if n - i == 1 {
        let b0 = bytes[i];
        out.push(b64_char_of(b0 / 4));
        out.push(b64_char_of((b0 % 4) * 16));
        out.push(PAD);
        out.push(PAD);
        proof {
            assert(tail.len() == 1);
            assert(tail[0] == bytes@[i as int]);
            assert(out@ =~= old(out)@ + b64_bytes(tail));
        }
    } else if n - i == 2 {
        let b0 = bytes[i];
        let b1 = bytes[i + 1];
        out.push(b64_char_of(b0 / 4));
        out.push(b64_char_of((b0 % 4) * 16 + b1 / 16));
        out.push(b64_char_of((b1 % 16) * 4));
        out.push(PAD);
        proof {
            assert(tail.len() == 2);
            assert(tail[0] == bytes@[i as int] && tail[1] == bytes@[i as int + 1]);
            assert(out@ =~= old(out)@ + b64_bytes(tail));
        }
    } else {
        let b0 = bytes[i];
        let b1 = bytes[i + 1];
        let b2 = bytes[i + 2];
        out.push(b64_char_of(b0 / 4));
        out.push(b64_char_of((b0 % 4) * 16 + b1 / 16));
        out.push(b64_char_of((b1 % 16) * 4 + b2 / 64));
        out.push(b64_char_of(b2 % 64));
        emit_b64(out, bytes, i + 3);
        proof {
            assert(tail.len() >= 3);
            assert(tail[0] == bytes@[i as int] && tail[1] == bytes@[i as int + 1] && tail[2]
                == bytes@[i as int + 2]);
            assert(tail.skip(3) =~= bytes@.skip(i as int + 3));
            assert(out@ =~= old(out)@ + b64_bytes(tail));
        }
    }
}

/// Appends the decimal digits of `n`.
fn emit_dec(out: &mut Vec<u8>, n: u64)
    ensures
        final(out)@ == old(out)@ + dec_digits(n as nat),
    decreases n,
{
    if n < 10 {
        out.push((n as u8) + 48);
        proof {
            assert(out@ =~= old(out)@ + dec_digits(n as nat));
        }
    } else {
        emit_dec(out, n / 10);
        out.push(((n % 10) as u8) + 48);
        proof {
            assert(out@ =~= old(out)@ + dec_digits(n as nat));
        }
    }
}

/// Appends the hexadecimal form of `bytes`.
fn emit_hex(out: &mut Vec<u8>, bytes: &Vec<u8>)
    ensures
        final(out)@ == old(out)@ + hex_bytes(bytes@),
{
    let n = bytes.len();
    let mut i: usize = 0;
    proof {
        assert(out@ =~= old(out)@ + hex_bytes(bytes@.take(0)));
    }
    while i < n
        invariant
            n == bytes@.len(),
            i <= n,
            out@ == old(out)@ + hex_bytes(bytes@.take(i as int)),
        decreases n - i,
    {
        let b = bytes[i];
        out.push(hex_digit_of(b / 16));
        out.push(hex_digit_of(b % 16));
        i += 1;
        proof {
            assert(bytes@.take(i as int).drop_last() =~= bytes@.take(i as int - 1));
            assert(bytes@.take(i as int).last() == bytes@[i - 1]);
            assert(out@ =~= old(out)@ + hex_bytes(bytes@.take(i as int)));
        }
    }
    proof {
        assert(bytes@.take(n as int) =~= bytes@);
    }
}

/// Appends an optional number line.
fn emit_opt_dec(out: &mut Vec<u8>, o: &Option<u64>)
    ensures
        final(out)@ == old(out)@ + enc_opt_dec(*o),
{
    match o {
        None => {
            out.push(45);
            out.push(NL);
            proof {
                assert(out@ =~= old(out)@ + enc_opt_dec(*o));
            }
        },
        Some(v) => {
            emit_dec(out, *v);
            out.push(NL);
            proof {
                assert(out@ =~= old(out)@ + enc_opt_dec(*o));
            }
        },
    }
}

/// Appends an optional endpoint line.
fn emit_opt_url(out: &mut Vec<u8>, o: &Option<Vec<u8>>)
    ensures
        final(out)@ == old(out)@ + enc_opt_url(opt_url_view(*o)),
{
    match o {
        None => {
            out.push(45);
            out.push(NL);
            proof {
                assert(out@ =~= old(out)@ + enc_opt_url(opt_url_view(*o)));
            }
        },
        Some(u) => {
            let mut copy = clone_bytes(u);
            out.append(&mut copy);
            out.push(NL);
            proof {
                assert(out@ =~= old(out)@ + enc_opt_url(opt_url_view(*o)));
            }
        },
    }
}

/// Appends the account lines for the cache entries from `i` on.
fn emit_accounts(out: &mut Vec<u8>, cache: &AccountCache, i: usize)
    requires
        cache.wf(),
        i <= cache.entry_seq().len(),
    ensures
        final(out)@ == old(out)@ + enc_accounts(cache.entry_seq().skip(i as int)),
    decreases cache.entry_seq().len() - i,
{
    let ghost es = cache.entry_seq();
    if i < cache.len() {
        let a = cache.address_at(i);
        let rec = cache.record_at(i);
        emit_hex(out, a.as_bytes());
        out.push(SP);
        emit_dec(out, rec.balance);
        out.push(SP);
        emit_b64(out, &rec.data, 0);
        out.push(SP);
        emit_hex(out, rec.owner.as_bytes());
        out.push(SP);
        out.push(if rec.executable { 49 } else { 48 });
        out.push(SP);
        emit_dec(out, rec.metadata_epoch);
        out.push(NL);
        proof {
            assert(rec.data@.skip(0) =~= rec.data@);
            assert(out@ =~= old(out)@ + enc_account_line(es[i as int].0, es[i as int].1));
        }
        emit_accounts(out, cache, i + 1);
        proof {
            assert(es.skip(i as int).first() == es[i as int]);
            assert(es.skip(i as int).drop_first() =~= es.skip(i as int + 1));
            assert(out@ =~= old(out)@ + enc_accounts(es.skip(i as int)));
        }
    } else {
        proof {
            assert(es.skip(i as int) =~= Seq::<(Seq<u8>, RecordView)>::empty());
            assert(out@ =~= old(out)@ + enc_accounts(es.skip(i as int)));
        }
    }
}

/// Serializes the cache and metadata as a version-1 fixture.
pub fn encode_fixture(meta: &FixtureMeta, cache: &AccountCache) -> (out: Vec<u8>)
    requires
        cache.wf(),
        meta.wf(),
    ensures
        out@ == enc_fixture(
            FixtureView {
                slot: meta.slot,
                timestamp: meta.timestamp,
                rpc_url: opt_url_view(meta.rpc_url),
                accounts: cache.entry_seq(),
            },
        ),
{
    let mut out: Vec<u8> = Vec::new();
    out.push(49);
    out.push(NL);
    emit_opt_dec(&mut out, &meta.slot);
    emit_opt_dec(&mut out, &meta.timestamp);
    emit_opt_url(&mut out, &meta.rpc_url);
    emit_accounts(&mut out, cache, 0);
    proof {
        assert(cache.entry_seq().skip(0) =~= cache.entry_seq());
        assert(out@ =~= enc_fixture(
            FixtureView {
                slot: meta.slot,
                timestamp: meta.timestamp,
                rpc_url: opt_url_view(meta.rpc_url),
                accounts: cache.entry_seq(),
            },
        ));
    }
    out
}

/// Scans to the end of the token starting at `i`.
fn scan_token(s: &Vec<u8>, i: usize) -> (e: usize)
    requires
        i <= s@.len(),
    ensures
        e as int == token_end(s@, i as int),
        i <= e <= s@.len(),
    decreases s@.len() - i,
{
    if i == s.len() {
        i
    } else if s[i] == SP || s[i] == NL {
        i
    } else {
        scan_token(s, i + 1)
    }
}

/// Parses a decimal token at `i` followed by `sep`, mirroring `p_dec`.
fn parse_dec(s: &Vec<u8>, i: usize, sep: u8) -> (r: Option<(u64, usize)>)
    requires
        i <= s@.len(),
    ensures
        match r {
            Some((v, j)) => p_dec(s@, i as int, sep) == Option::Some((v, j as int)) && i < j
                <= s@.len(),
            None => p_dec(s@, i as int, sep) is None,
        },
{
    let e = scan_token(s, i);
    proof {
        lemma_token_end_bounds(s@, i as int);
    }
    if e >= s.len() || s[e] != sep {
        return None;
    }
    let ghost t = s@.subrange(i as int, e as int);
    if e == i {
        proof {
            assert(!is_dec_token(t));
        }
        return None;
    }
    let mut acc: u64 = 0;
    let mut j = i;
    while j < e
        invariant
            i <= j <= e <= s@.len(),
            e < s@.len(),
            e as int == token_end(s@, i as int),
            t == s@.subrange(i as int, e as int),
            s@[e as int] == sep,
            forall|q: int| 0 <= q < j - i ==> 48 <= (#[trigger] t[q]) <= 57,
            acc as int == dec_val(t.take(j as int - i as int)),
        decreases e - j,
    {
        let c = s[j];
        proof {
            assert(t[j as int - i as int] == s@[j as int]);
        }
        if c < 48 || c > 57 {
            proof {
                assert(!(48 <= t[j as int - i as int] <= 57));
                assert(!is_dec_token(t));
            }
            return None;
        }
        let d = (c - 48) as u64;
        let wide: u128 = (acc as u128) * 10 + (d as u128);
        proof {
            assert(t.take(j as int - i as int + 1).drop_last() =~= t.take(j as int - i as int));
            assert(t.take(j as int - i as int + 1).last() == t[j as int - i as int]);
            assert(dec_val(t.take(j as int - i as int + 1)) == acc as int * 10 + d);
        }
        if wide > u64::MAX as u128 {
            proof {
                if is_dec_token(t) {
                    lemma_dec_val_prefix(t, j as int - i as int + 1);
                }
            }
            return None;
        }
        acc = acc * 10 + (c - 48) as u64;
        j += 1;
    }
    proof {
        assert(t.take(e as int - i as int) =~= t);
        assert(is_dec_token(t));
    }
    Some((acc, e + 1))
}

/// Parses a hexadecimal token at `i` followed by `sep`, mirroring `p_hex`.
fn parse_hex(s: &Vec<u8>, i: usize, sep: u8) -> (r: Option<(Vec<u8>, usize)>)
    requires
        i <= s@.len(),
    ensures
        match r {
            Some((v, j)) => p_hex(s@, i as int, sep) == Option::Some((v@, j as int)) && i < j
                <= s@.len(),
            None => p_hex(s@, i as int, sep) is None,
        },
{
    let e = scan_token(s, i);
    proof {
        lemma_token_end_bounds(s@, i as int);
    }
    if e >= s.len() || s[e] != sep {
        return None;
    }
    let ghost t = s@.subrange(i as int, e as int);
    if (e - i) % 2 != 0 {
        proof {
            assert(t.len() % 2 != 0);
            assert(!is_hex_token(t));
        }
        return None;
    }
    let mut out: Vec<u8> = Vec::new();
    let mut j = i;
    proof {
        assert(out@ =~= hex_to_bytes(t.take(0)));
    }
    while j < e
        invariant
            i <= j <= e <= s@.len(),
            e < s@.len(),
            (j - i) % 2 == 0,
            (e - i) % 2 == 0,
            e as int == token_end(s@, i as int),
            t == s@.subrange(i as int, e as int),
            s@[e as int] == sep,
            forall|q: int| 0 <= q < j - i ==> (48 <= (#[trigger] t[q]) <= 57 || 97 <= t[q] <= 102),
            out@ == hex_to_bytes(t.take(j as int - i as int)),
        decreases e - j,
    {
        proof {
            assert(j + 1 < e);
            assert(t[j as int - i as int] == s@[j as int]);
            assert(t[j as int - i as int + 1] == s@[j as int + 1]);
        }
        let hi = s[j];
        let lo = s[j + 1];
        if !((48 <= hi && hi <= 57) || (97 <= hi && hi <= 102)) {
            proof {
                assert(!is_hex_token(t));
            }
            return None;
        }
        if !((48 <= lo && lo <= 57) || (97 <= lo && lo <= 102)) {
            proof {
                assert(!is_hex_token(t));
            }
            return None;
        }
        out.push(16 * hex_val_of(hi) + hex_val_of(lo));
        j += 2;
        proof {
            let m = j as int - i as int;
            assert(t.take(m).drop_last().drop_last() =~= t.take(m - 2));
            assert(t.take(m)[m - 2] == t[m - 2]);
            assert(t.take(m)[m - 1] == t[m - 1]);
            assert(out@ =~= hex_to_bytes(t.take(m)));
        }
    }
    proof {
        assert(t.take(e as int - i as int) =~= t);
        assert(is_hex_token(t));
    }
    Some((out, e + 1))
}

/// Parses a base64 token at `i` followed by `sep`, mirroring `p_b64`.
fn parse_b64(s: &Vec<u8>, i: usize, sep: u8) -> (r: Option<(Vec<u8>, usize)>)
    requires
        i <= s@.len(),
    ensures
        match r {
            Some((v, j)) => p_b64(s@, i as int, sep) == Option::Some((v@, j as int)) && i < j
                <= s@.len(),
            None => p_b64(s@, i as int, sep) is None,
        },
{
    let e = scan_token(s, i);
    proof {
        lemma_token_end_bounds(s@, i as int);
    }
    if e >= s.len() || s[e] != sep {
        return None;
    }
    let ghost t = s@.subrange(i as int, e as int);
    if (e - i) % 4 != 0 {
        proof {
            assert(t.len() % 4 != 0);
            assert(!is_b64_token(t));
        }
        return None;
    }
    let mut j = i;
    while j < e
        invariant
            i <= j <= e <= s@.len(),
            e < s@.len(),
            e as int == token_end(s@, i as int),
            t == s@.subrange(i as int, e as int),
            forall|q: int| 0 <= q < j - i ==> is_b64_char(#[trigger] t[q]) || t[q] == PAD,
        decreases e - j,
    {
        let c = s[j];
        proof {
            assert(t[j as int - i as int] == s@[j as int]);
        }
        if !((65 <= c && c <= 90) || (97 <= c && c <= 122) || (48 <= c && c <= 57) || c == 43 || c
            == 47 || c == PAD) {
            proof {
                assert(!(is_b64_char(t[j as int - i as int]) || t[j as int - i as int] == PAD));
                assert(!is_b64_token(t));
            }
            return None;
        }
        j += 1;
    }
    proof {
        assert(is_b64_token(t));
    }
    let mut out: Vec<u8> = Vec::new();
    let mut m = i;
    let sn = s.len();
    proof {
        assert(t.skip(0) =~= t);
    }
    while m < e
        invariant
            i <= m <= e <= s@.len(),
            sn == s@.len(),
            e < sn,
            e as int == token_end(s@, i as int),
            s@[e as int] == sep,
            (m - i) % 4 == 0,
            (e - i) % 4 == 0,
            t == s@.subrange(i as int, e as int),
            is_b64_token(t),
            b64_to_bytes(t) == out@ + b64_to_bytes(t.skip(m as int - i as int)),
        decreases e - m,
    {
        proof {
            assert((e as int - m as int) % 4 == 0);
            assert(e - m >= 4);
            assert(t[m as int - i as int] == s@[m as int]);
            assert(t[m as int - i as int + 1] == s@[m as int + 1]);
            assert(t[m as int - i as int + 2] == s@[m as int + 2]);
            assert(t[m as int - i as int + 3] == s@[m as int + 3]);
        }
        let ghost rest = t.skip(m as int - i as int);
        proof {
            assert(rest.len() >= 4);
            assert(rest[0] == t[m as int - i as int] && rest[1] == t[m as int - i as int + 1]
                && rest[2] == t[m as int - i as int + 2] && rest[3] == t[m as int - i as int + 3]);
        }
        let c0 = s[m];
        let c1 = s[m + 1];
        let c2 = s[m + 2];
        let c3 = s[m + 3];
        let v0 = b64_val_of(c0);
        let v1 = b64_val_of(c1);
        if c2 == PAD && c3 == PAD {
            out.push(v0 * 4 + v1 / 16);
            proof {
                assert(b64_to_bytes(rest) =~= seq![(b64_val(c0) * 4 + b64_val(c1) / 16) as u8]);
                assert(b64_to_bytes(t) =~= out@);
            }
            return Some((out, e + 1));
        }
        let v2 = b64_val_of(c2);
        if c3 == PAD {
            out.push(v0 * 4 + v1 / 16);
            out.push((v1 % 16) * 16 + v2 / 4);
            proof {
                assert(b64_to_bytes(rest) =~= seq![
                    (b64_val(c0) * 4 + b64_val(c1) / 16) as u8,
                    ((b64_val(c1) % 16) * 16 + b64_val(c2) / 4) as u8,
                ]);
                assert(b64_to_bytes(t) =~= out@);
            }
            return Some((out, e + 1));
        }
        let v3 = b64_val_of(c3);
        out.push(v0 * 4 + v1 / 16);
        out.push((v1 % 16) * 16 + v2 / 4);
        out.push((v2 % 4) * 64 + v3);
        m += 4;
        proof {
            assert(rest.skip(4) =~= t.skip(m as int - i as int));
            assert(b64_to_bytes(rest) =~= seq![
                (b64_val(c0) * 4 + b64_val(c1) / 16) as u8,
                ((b64_val(c1) % 16) * 16 + b64_val(c2) / 4) as u8,
                ((b64_val(c2) % 4) * 64 + b64_val(c3)) as u8,
            ] + b64_to_bytes(t.skip(m as int - i as int)));
            assert(b64_to_bytes(t) =~= out@ + b64_to_bytes(t.skip(m as int - i as int)));
        }
    }
    proof {
        assert(t.skip(e as int - i as int).len() < 4);
        assert(b64_to_bytes(t) =~= out@);
    }
    Some((out, e + 1))
}

/// Parses an optional number line, mirroring `p_opt_dec_line`.
fn parse_opt_dec_line(s: &Vec<u8>, i: usize) -> (r: Option<(Option<u64>, usize)>)
    requires
        i <= s@.len(),
    ensures
        match r {
            Some((o, j)) => p_opt_dec_line(s@, i as int) == Option::Some((o, j as int)) && i < j
                <= s@.len(),
            None => p_opt_dec_line(s@, i as int) is None,
        },
{
    if i < s.len() && s[i] == 45 {
        if i + 1 < s.len() && s[i + 1] == NL {
            return Some((None, i + 2));
        }
    }
    match parse_dec(s, i, NL) {
        Some((v, j)) => Some((Some(v), j)),
        None => None,
    }
}

/// Parses an optional endpoint line, mirroring `p_opt_url_line`.
fn parse_opt_url_line(s: &Vec<u8>, i: usize) -> (r: Option<(Option<Vec<u8>>, usize)>)
    requires
        i <= s@.len(),
    ensures
        match r {
            Some((o, j)) => p_opt_url_line(s@, i as int) == Option::Some(
                (opt_url_view(o), j as int),
            ) && i < j <= s@.len(),
            None => p_opt_url_line(s@, i as int) is None,
        },
{
    if i < s.len() && s[i] == 45 {
        if i + 1 < s.len() && s[i + 1] == NL {
            return Some((None, i + 2));
        }
    }
    let e = scan_token(s, i);
    proof {
        lemma_token_end_bounds(s@, i as int);
    }
    if e >= s.len() || s[e] != NL || e == i {
        return None;
    }
    let tok = copy_range(s, i, e);
    Some((Some(tok), e + 1))
}

/// Parses the executable flag, mirroring `p_bool`.
fn parse_bool(s: &Vec<u8>, i: usize, sep: u8) -> (r: Option<(bool, usize)>)
    requires
        i <= s@.len(),
    ensures
        match r {
            Some((b, j)) => p_bool(s@, i as int, sep) == Option::Some((b, j as int)) && i < j
                <= s@.len(),
            None => p_bool(s@, i as int, sep) is None,
        },
{
    if i < s.len() && (s[i] == 48 || s[i] == 49) {
        if i + 1 < s.len() && s[i + 1] == sep {
            return Some((s[i] == 49, i + 2));
        }
    }
    None
}

/// Parses one account line, mirroring `p_account_line`.
fn parse_account_line(s: &Vec<u8>, i: usize) -> (r: Option<((Address, AccountRecord), usize)>)
    requires
        i <= s@.len(),
    ensures
        match r {
            Some(((a, rec), j)) => p_account_line(s@, i as int) == Option::Some(
                ((a@, rec@), j as int),
            ) && i < j <= s@.len() && a.wf() && rec.wf(),
            None => p_account_line(s@, i as int) is None,
        },
{
    let (addr_bytes, i1) = match parse_hex(s, i, SP) {
        Some(x) => x,
        None => {
            return None;
        },
    };
    if addr_bytes.len() != ADDRESS_LEN {
        return None;
    }
    let a = Address::from_full_bytes(addr_bytes);
    let (balance, i2) = match parse_dec(s, i1, SP) {
        Some(x) => x,
        None => {
            return None;
        },
    };
    let (data, i3) = match parse_b64(s, i2, SP) {
        Some(x) => x,
        None => {
            return None;
        },
    };
    let (owner_bytes, i4) = match parse_hex(s, i3, SP) {
        Some(x) => x,
        None => {
            return None;
        },
    };
    if owner_bytes.len() != ADDRESS_LEN {
        return None;
    }
    let owner = Address::from_full_bytes(owner_bytes);
    let (executable, i5) = match parse_bool(s, i4, SP) {
        Some(x) => x,
        None => {
            return None;
        },
    };
    let (metadata_epoch, i6) = match parse_dec(s, i5, NL) {
        Some(x) => x,
        None => {
            return None;
        },
    };
    Some(((a, AccountRecord { balance, data, owner, executable, metadata_epoch }), i6))
}

/// Parses account lines to the end of the input, mirroring `p_accounts`.
fn parse_accounts(s: &Vec<u8>, i: usize) -> (r: Option<Vec<(Address, AccountRecord)>>)
    requires
        i <= s@.len(),
    ensures
        match r {
            Some(v) => p_accounts(s@, i as int) == Option::Some(pair_views(v@)) && forall|q: int|
                0 <= q < v@.len() ==> (#[trigger] v@[q]).0.wf() && v@[q].1.wf(),
            None => p_accounts(s@, i as int) is None,
        },
    decreases s@.len() - i,
{
    if i >= s.len() {
        let v: Vec<(Address, AccountRecord)> = Vec::new();
        proof {
            assert(pair_views(v@) =~= Seq::<(Seq<u8>, RecordView)>::empty());
        }
        return Some(v);
    }
    match parse_account_line(s, i) {
        None => None,
        Some((entry, j)) => {
            match parse_accounts(s, j) {
                None => None,
                Some(mut rest) => {
                    let ghost rv = rest@;
                    let ghost ev = (entry.0@, entry.1@);
                    rest.insert(0, entry);
                    proof {
                        assert(pair_views(rest@) =~= seq![ev] + pair_views(rv));
                    }
                    Some(rest)
                },
            }
        },
    }
}

/// Deserializes a version-1 fixture: checks the envelope, rebuilds the
/// cache record by record (later duplicates of an address overwrite
/// earlier ones), and reports `InvalidFixture` for an unsupported version
/// or any line not structured as written by `encode_fixture`.
pub fn decode_fixture(bytes: &Vec<u8>) -> (r: Result<(FixtureMeta, AccountCache), RpcError>)
    ensures
        p_fixture(bytes@) matches Ok(f) ==> (r matches Ok(out) && out.0.slot == f.slot
            && out.0.timestamp == f.timestamp && opt_url_view(out.0.rpc_url) == f.rpc_url
            && out.1.wf() && out.1@ == extend_map(Map::<Seq<u8>, RecordView>::empty(), f.accounts)
            && (unique_keys(f.accounts) ==> out.1.entry_seq() == f.accounts)),
        p_fixture(bytes@) matches Err(fr) ==> (r matches Err(e) && e@ == ErrorView::InvalidFixture(
            fr,
        )),
{
    let (version, i1) = match parse_dec(bytes, 0, NL) {
        Some(x) => x,
        None => {
            return Err(RpcError::InvalidFixture(FixtureReason::Malformed));
        },
    };
    if version != 1 {
        return Err(RpcError::InvalidFixture(FixtureReason::UnsupportedVersion { version }));
    }
    let (slot, i2) = match parse_opt_dec_line(bytes, i1) {
        Some(x) => x,
        None => {
            return Err(RpcError::InvalidFixture(FixtureReason::Malformed));
        },
    };
    let (timestamp, i3) = match parse_opt_dec_line(bytes, i2) {
        Some(x) => x,
        None => {
            return Err(RpcError::InvalidFixture(FixtureReason::Malformed));
        },
    };
    let (rpc_url, i4) = match parse_opt_url_line(bytes, i3) {
        Some(x) => x,
        None => {
            return Err(RpcError::InvalidFixture(FixtureReason::Malformed));
        },
    };
    let entries = match parse_accounts(bytes, i4) {
        Some(v) => v,
        None => {
            return Err(RpcError::InvalidFixture(FixtureReason::Malformed));
        },
    };
    let ghost pv = pair_views(entries@);
    let mut cache = AccountCache::new();
    let n = entries.len();
    let mut idx: usize = 0;
    proof {
        assert(extend_map(Map::<Seq<u8>, RecordView>::empty(), pv.take(0)) =~= cache@);
    }
    while idx < n
        invariant
            n == entries@.len(),
            idx <= n,
            pv == pair_views(entries@),
            forall|q: int| 0 <= q < entries@.len() ==> (#[trigger] entries@[q]).0.wf()
                && entries@[q].1.wf(),
            cache.wf(),
            cache@ == extend_map(Map::<Seq<u8>, RecordView>::empty(), pv.take(idx as int)),
            unique_keys(pv) ==> cache.entry_seq() == pv.take(idx as int),
        decreases n - idx,
    {
        proof {
            if unique_keys(pv) {
                crate::cache::lemma_seq_to_map_contains(cache.entry_seq(), pv[idx as int].0);
            }
        }
        let (a, rec) = &entries[idx];
        cache.put(a.duplicate(), rec.duplicate());
        idx += 1;
        proof {
            assert(pv.take(idx as int).drop_last() =~= pv.take(idx as int - 1));
            assert(pv.take(idx as int).last() == pv[idx as int - 1]);
            if unique_keys(pv) {
                assert(cache.entry_seq() =~= pv.take(idx as int));
            }
        }
    }
    proof {
        assert(pv.take(n as int) =~= pv);
    }
    Ok((FixtureMeta { slot, timestamp, rpc_url }, cache))
}

/// A fixture carrying any version other than 1 is rejected outright, with
/// the unsupported version named.
pub proof fn lemma_fixture_version_rejected(v: u64, rest: Seq<u8>)
    requires
        v != 1,
    ensures
        p_fixture(dec_digits(v as nat) + seq![NL] + rest) == Err::<FixtureView, FixtureReason>(
            FixtureReason::UnsupportedVersion { version: v },
        ),
{
    let s = dec_digits(v as nat) + seq![NL] + rest;
    let d = dec_digits(v as nat);
    lemma_dec_digits_token(v as nat);
    assert(s.subrange(0, d.len() as int) =~= d);
    assert(s[d.len() as int] == NL);
    lemma_p_dec_image(s, 0, NL, v);
}

} // verus!
