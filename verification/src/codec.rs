//! Binary encoding of values and tuples. Every store key carries an 8-byte
//! big-endian relation-id prefix followed by the encoded key tuple; values
//! carry the encoded non-key tuple. Encoding and decoding are exact inverses,
//! and the big-endian prefix respects the store's lexicographic key order.

use vstd::prelude::*;

use crate::lex::{lex_lt, lemma_lex_common_prefix, lemma_lex_extend};
use crate::value::{DataValue, Tuple, Val};

verus! {

pub const TAG_NULL: u8 = 1;

pub const TAG_BOOL: u8 = 2;

pub const TAG_INT: u8 = 3;

pub const TAG_STR: u8 = 4;

pub const TAG_BYTES: u8 = 5;

pub const TAG_LIST: u8 = 6;

pub const TAG_DICT: u8 = 7;

pub const TAG_BOT: u8 = 255;

/// 256 to the `n`-th power.
pub open spec fn pow256(n: nat) -> int
    decreases n,
{
    if n == 0 {
        1
    } else {
        256 * pow256((n - 1) as nat)
    }
}

pub proof fn lemma_pow256_pos(n: nat)
    ensures
        pow256(n) >= 1,
    decreases n,
{
    if n > 0 {
        lemma_pow256_pos((n - 1) as nat);
    }
}

/// Big-endian byte string of the lowest `n` base-256 digits of `x`.
pub open spec fn be_bytes(x: int, n: nat) -> Seq<u8>
    decreases n,
{
    if n == 0 {
        Seq::empty()
    } else {
        be_bytes(x / 256, (n - 1) as nat).push((x % 256) as u8)
    }
}

pub proof fn lemma_be_bytes_len(x: int, n: nat)
    ensures
        be_bytes(x, n).len() == n,
    decreases n,
{
    if n > 0 {
        lemma_be_bytes_len(x / 256, (n - 1) as nat);
    }
}

/// The integer a big-endian byte string stands for.
pub open spec fn from_be(s: Seq<u8>) -> int
    decreases s.len(),
{
    if s.len() == 0 {
        0
    } else {
        from_be(s.drop_last()) * 256 + s.last()
    }
}

pub proof fn lemma_from_be_be(x: int, n: nat)
    requires
        x >= 0,
    ensures
        from_be(be_bytes(x, n)) == x % pow256(n),
    decreases n,
{
    if n == 0 {
        assert(pow256(0) == 1);
    } else {
        let p = pow256((n - 1) as nat);
        lemma_pow256_pos((n - 1) as nat);
        lemma_from_be_be(x / 256, (n - 1) as nat);
        let s = be_bytes(x / 256, (n - 1) as nat).push((x % 256) as u8);
        assert(s.drop_last() =~= be_bytes(x / 256, (n - 1) as nat));
        assert(s.last() == (x % 256) as u8);
        assert(x % 256 < 256);
        vstd::arithmetic::div_mod::lemma_mod_breakdown(x, 256, p);
        assert(from_be(s) == ((x / 256) % p) * 256 + x % 256);
        assert(x % (256 * p) == 256 * ((x / 256) % p) + x % 256);
    }
}

/// A big-endian byte string of `n` bytes stands for less than 256^n.
pub proof fn lemma_from_be_bound(s: Seq<u8>)
    ensures
        0 <= from_be(s) < pow256(s.len()),
    decreases s.len(),
{
    if s.len() == 0 {
    } else {
        lemma_from_be_bound(s.drop_last());
        lemma_pow256_pos((s.len() - 1) as nat);
        assert(pow256(s.len()) == 256 * pow256((s.len() - 1) as nat));
    }
}

/// Big-endian encoding preserves the order of the integers it encodes.
pub proof fn lemma_be_order(i: int, j: int, n: nat)
    requires
        0 <= i < j < pow256(n),
    ensures
        lex_lt(be_bytes(i, n), be_bytes(j, n)),
    decreases n,
{
    if n == 0 {
        // no two distinct integers lie below 256^0 == 1
        assert(false);
    } else {
        let p = pow256((n - 1) as nat);
        lemma_pow256_pos((n - 1) as nat);
        let qi = i / 256;
        let qj = j / 256;
        let ri = i % 256;
        let rj = j % 256;
        assert(0 <= ri < 256 && 0 <= rj < 256);
        assert(qi >= 0 && qj >= 0) by {
            vstd::arithmetic::div_mod::lemma_div_is_ordered(0, i, 256);
            vstd::arithmetic::div_mod::lemma_div_is_ordered(0, j, 256);
        }
        assert(qi <= qj) by {
            vstd::arithmetic::div_mod::lemma_div_is_ordered(i, j, 256);
        }
        assert(qj < p) by {
            assert(j < 256 * p);
            assert(j / 256 < p) by (nonlinear_arith)
                requires
                    j >= 0,
                    p >= 1,
                    j < 256 * p,
            ;
        }
        let bi = be_bytes(qi, (n - 1) as nat);
        let bj = be_bytes(qj, (n - 1) as nat);
        lemma_be_bytes_len(qi, (n - 1) as nat);
        lemma_be_bytes_len(qj, (n - 1) as nat);
        assert(be_bytes(i, n) =~= bi + seq![(ri) as u8]);
        assert(be_bytes(j, n) =~= bj + seq![(rj) as u8]);
        if qi < qj {
            lemma_be_order(qi, qj, (n - 1) as nat);
            lemma_lex_extend(bi, bj, seq![(ri) as u8], seq![(rj) as u8]);
        } else {
            assert(qi == qj);
            assert(ri < rj) by {
                vstd::arithmetic::div_mod::lemma_fundamental_div_mod(i, 256);
                vstd::arithmetic::div_mod::lemma_fundamental_div_mod(j, 256);
            }
            lemma_lex_common_prefix(bi, seq![(ri) as u8], seq![(rj) as u8]);
            assert(lex_lt(seq![(ri) as u8], seq![(rj) as u8]));
        }
    }
}

/// Big-endian bytes of a 64-bit integer.
pub open spec fn be8(x: u64) -> Seq<u8> {
    be_bytes(x as int, 8)
}

pub proof fn lemma_pow256_8()
    ensures
        pow256(8) == 0x1_0000_0000_0000_0000,
{
    assert(pow256(0) == 1);
    assert(pow256(1) == 256);
    assert(pow256(2) == 0x1_0000);
    assert(pow256(3) == 0x100_0000);
    assert(pow256(4) == 0x1_0000_0000);
    assert(pow256(5) == 0x100_0000_0000);
    assert(pow256(6) == 0x1_0000_0000_0000);
    assert(pow256(7) == 0x100_0000_0000_0000);
    assert(pow256(8) == 0x1_0000_0000_0000_0000);
}

/// Distinct 64-bit integers have distinct, order-respecting encodings.
pub proof fn lemma_be8_order(i: u64, j: u64)
    requires
        i < j,
    ensures
        lex_lt(be8(i), be8(j)),
        be8(i) != be8(j),
    decreases 0nat,
{
    lemma_pow256_8();
    lemma_be_order(i as int, j as int, 8);
    crate::lex::lemma_lex_trichotomy(be8(i), be8(j));
}

/// Emits the `n` lowest big-endian base-256 digits of `x`.
pub fn be_bytes_exec(x: u64, n: usize) -> (r: Vec<u8>)
    ensures
        r@ == be_bytes(x as int, n as nat),
    decreases n,
{
    if n == 0 {
        let r: Vec<u8> = Vec::new();
        proof {
            assert(r@ =~= be_bytes(x as int, 0));
        }
        r
    } else {
        let mut r = be_bytes_exec(x / 256, n - 1);
        r.push((x % 256) as u8);
        proof {
            assert((x as int) / 256 == (x / 256) as int);
            assert(r@ =~= be_bytes(x as int, n as nat));
        }
        r
    }
}

/// Big-endian bytes of a 64-bit integer, as stored.
pub fn be8_exec(x: u64) -> (r: Vec<u8>)
    ensures
        r@ == be8(x),
{
    be_bytes_exec(x, 8)
}

/// Reads back a big-endian byte string of at most 8 bytes.
pub fn be_decode(s: &[u8]) -> (x: u64)
    requires
        s@.len() <= 8,
    ensures
        x as int == from_be(s@),
{
    let mut acc: u64 = 0;
    let mut i: usize = 0;
    proof {
        lemma_pow256_8();
        assert(s@.take(0) =~= Seq::<u8>::empty());
    }
    while i < s.len()
        invariant
            0 <= i <= s@.len() <= 8,
            acc as int == from_be(s@.take(i as int)),
            (acc as int) < pow256(i as nat),
        decreases s@.len() - i,
    {
        proof {
            lemma_pow256_8();
            lemma_pow256_mono(i as nat, 7);
            assert(s@.take(i + 1 as int).drop_last() =~= s@.take(i as int));
            assert(s@.take(i + 1 as int).last() == s@[i as int]);
        }
        acc = acc * 256 + (s[i] as u64);
        i = i + 1;
    }
    proof {
        assert(s@.take(s@.len() as int) =~= s@);
    }
    acc
}

pub proof fn lemma_pow256_mono(a: nat, b: nat)
    requires
        a <= b,
    ensures
        pow256(a) <= pow256(b),
    decreases b,
{
    if a < b {
        lemma_pow256_mono(a, (b - 1) as nat);
        lemma_pow256_pos((b - 1) as nat);
    }
}

/// Whether a value's model can be carried by the encoding: byte strings and
/// element counts fit in an 8-byte length field, recursively.
pub open spec fn wf_val(v: Val) -> bool
    decreases v,
{
    match v {
        Val::Str(s) => s.len() < pow256(8),
        Val::Bytes(s) => s.len() < pow256(8),
        Val::List(vs) => vs.len() < pow256(8) && (forall|j: int|
            0 <= j < vs.len() ==> wf_val(#[trigger] vs[j])),
        Val::Dict(ps) => ps.len() < pow256(8) && (forall|j: int|
            0 <= j < ps.len() ==> wf_val((#[trigger] ps[j]).0) && wf_val(ps[j].1)),
        _ => true,
    }
}

pub open spec fn wf_row(vs: Seq<Val>) -> bool {
    forall|i: int| 0 <= i < vs.len() ==> wf_val(#[trigger] vs[i])
}

/// Encoded bytes of one value. Lists and maps carry their element count,
/// then each element's encoding in order.
pub open spec fn enc_val(v: Val) -> Seq<u8>
    decreases v, 0int, 0int,
{
    match v {
        Val::Null => seq![TAG_NULL],
        Val::Bool(b) => seq![TAG_BOOL, if b { 1u8 } else { 0u8 }],
        Val::Int(i) => seq![TAG_INT] + be8(i as u64),
        Val::Str(s) => seq![TAG_STR] + be_bytes(s.len() as int, 8) + s,
        Val::Bytes(s) => seq![TAG_BYTES] + be_bytes(s.len() as int, 8) + s,
        Val::List(vs) => seq![TAG_LIST] + be_bytes(vs.len() as int, 8) + enc_items(vs, 0),
        Val::Dict(ps) => seq![TAG_DICT] + be_bytes(ps.len() as int, 8) + enc_entries(ps, 0),
        Val::Bot => seq![TAG_BOT],
    }
}

pub open spec fn enc_items(vs: Seq<Val>, i: int) -> Seq<u8>
    decreases vs, 1int, vs.len() - i,
{
    if i < 0 || i >= vs.len() {
        Seq::empty()
    } else {
        enc_val(vs[i]) + enc_items(vs, i + 1)
    }
}

pub open spec fn enc_entries(ps: Seq<(Val, Val)>, i: int) -> Seq<u8>
    decreases ps, 1int, ps.len() - i,
{
    if i < 0 || i >= ps.len() {
        Seq::empty()
    } else {
        enc_val(ps[i].0) + enc_val(ps[i].1) + enc_entries(ps, i + 1)
    }
}

/// Decodes one value from the front of `s`: the value and how many bytes it
/// took, or nothing when `s` does not start with a well-formed encoding.
pub open spec fn dec_val(s: Seq<u8>) -> Option<(Val, int)>
    decreases s.len(), 0int, 0int,
{
    if s.len() < 1 {
        None
    } else if s[0] == TAG_NULL {
        Some((Val::Null, 1))
    } else if s[0] == TAG_BOOL {
        if s.len() >= 2 && (s[1] == 0 || s[1] == 1) {
            Some((Val::Bool(s[1] == 1), 2))
        } else {
            None
        }
    } else if s[0] == TAG_INT {
        if s.len() >= 9 {
            Some((Val::Int(from_be(s.subrange(1, 9)) as u64 as i64), 9))
        } else {
            None
        }
    } else if s[0] == TAG_STR {
        if s.len() >= 9 {
            let n = from_be(s.subrange(1, 9));
            if s.len() >= 9 + n {
                Some((Val::Str(s.subrange(9, 9 + n)), 9 + n))
            } else {
                None
            }
        } else {
            None
        }
    } else if s[0] == TAG_BYTES {
        if s.len() >= 9 {
            let n = from_be(s.subrange(1, 9));
            if s.len() >= 9 + n {
                Some((Val::Bytes(s.subrange(9, 9 + n)), 9 + n))
            } else {
                None
            }
        } else {
            None
        }
    } else if s[0] == TAG_LIST {
        if s.len() >= 9 {
            let n = from_be(s.subrange(1, 9));
            match dec_items(n, s.skip(9)) {
                None => None,
                Some((vs, m)) => Some((Val::List(vs), 9 + m)),
            }
        } else {
            None
        }
    } else if s[0] == TAG_DICT {
        if s.len() >= 9 {
            let n = from_be(s.subrange(1, 9));
            match dec_entries(n, s.skip(9)) {
                None => None,
                Some((ps, m)) => Some((Val::Dict(ps), 9 + m)),
            }
        } else {
            None
        }
    } else if s[0] == TAG_BOT {
        Some((Val::Bot, 1))
    } else {
        None
    }
}

/// Decodes `n` values from the front of `s`.
pub open spec fn dec_items(n: int, s: Seq<u8>) -> Option<(Seq<Val>, int)>
    decreases s.len(), 1int, n,
{
    if n <= 0 {
        Some((Seq::empty(), 0))
    } else {
        match dec_val(s) {
            None => None,
            Some((v, m)) => if 1 <= m <= s.len() {
                match dec_items(n - 1, s.skip(m)) {
                    None => None,
                    Some((vs, m2)) => Some((seq![v] + vs, m + m2)),
                }
            } else {
                None
            },
        }
    }
}

/// Decodes `n` key-value pairs from the front of `s`.
pub open spec fn dec_entries(n: int, s: Seq<u8>) -> Option<(Seq<(Val, Val)>, int)>
    decreases s.len(), 1int, n,
{
    if n <= 0 {
        Some((Seq::empty(), 0))
    } else {
        match dec_val(s) {
            None => None,
            Some((k, mk)) => if 1 <= mk <= s.len() {
                match dec_val(s.skip(mk)) {
                    None => None,
                    Some((v, mv)) => if 1 <= mv <= s.len() - mk {
                        match dec_entries(n - 1, s.skip(mk + mv)) {
                            None => None,
                            Some((ps, m2)) => Some((seq![(k, v)] + ps, mk + mv + m2)),
                        }
                    } else {
                        None
                    },
                }
            } else {
                None
            },
        }
    }
}

/// Decoding consumes at least one byte and never runs past the input.
pub proof fn lemma_dec_val_bounds(s: Seq<u8>)
    ensures
        dec_val(s) matches Some(p) ==> 1 <= p.1 <= s.len(),
    decreases s.len(), 0int, 0int,
{
    if s.len() >= 9 && (s[0] == TAG_STR || s[0] == TAG_BYTES) {
        lemma_from_be_bound(s.subrange(1, 9));
    }
    if s.len() >= 9 && s[0] == TAG_LIST {
        lemma_dec_items_bounds(from_be(s.subrange(1, 9)), s.skip(9));
    }
    if s.len() >= 9 && s[0] == TAG_DICT {
        lemma_dec_entries_bounds(from_be(s.subrange(1, 9)), s.skip(9));
    }
}

pub proof fn lemma_dec_items_bounds(n: int, s: Seq<u8>)
    ensures
        dec_items(n, s) matches Some(p) ==> 0 <= p.1 <= s.len(),
    decreases s.len(), 1int, n,
{
    if n > 0 {
        match dec_val(s) {
            None => {},
            Some((v, m)) => {
                if 1 <= m <= s.len() {
                    lemma_dec_items_bounds(n - 1, s.skip(m));
                }
            },
        }
    }
}

pub proof fn lemma_dec_entries_bounds(n: int, s: Seq<u8>)
    ensures
        dec_entries(n, s) matches Some(p) ==> 0 <= p.1 <= s.len(),
    decreases s.len(), 1int, n,
{
    if n > 0 {
        match dec_val(s) {
            None => {},
            Some((k, mk)) => {
                if 1 <= mk <= s.len() {
                    match dec_val(s.skip(mk)) {
                        None => {},
                        Some((v, mv)) => {
                            if 1 <= mv <= s.len() - mk {
                                lemma_dec_entries_bounds(n - 1, s.skip(mk + mv));
                            }
                        },
                    }
                }
            },
        }
    }
}

/// Every encoding takes at least one byte.
pub proof fn lemma_enc_val_min_len(v: Val)
    ensures
        enc_val(v).len() >= 1,
{
    match v {
        Val::Null => {},
        Val::Bool(_) => {},
        Val::Int(_) => {},
        Val::Str(_) => {},
        Val::Bytes(_) => {},
        Val::List(_) => {},
        Val::Dict(_) => {},
        Val::Bot => {},
    }
}

/// Decoding reads back exactly the value that was encoded, whatever follows.
pub proof fn lemma_dec_enc_val(v: Val, rest: Seq<u8>)
    requires
        wf_val(v),
    ensures
        dec_val(enc_val(v) + rest) == Some((v, enc_val(v).len() as int)),
    decreases v, 0int, 0int,
{
    let s = enc_val(v) + rest;
    lemma_pow256_8();
    match v {
        Val::Null => {
            assert(s[0] == TAG_NULL);
        },
        Val::Bool(b) => {
            assert(s[0] == TAG_BOOL);
            assert(s[1] == if b {
                1u8
            } else {
                0u8
            });
        },
        Val::Int(i) => {
            assert(s[0] == TAG_INT);
            lemma_be_bytes_len(i as u64 as int, 8);
            assert(s.subrange(1, 9) =~= be8(i as u64));
            lemma_from_be_be(i as u64 as int, 8);
            vstd::arithmetic::div_mod::lemma_small_mod(i as u64 as nat, pow256(8) as nat);
            assert(from_be(s.subrange(1, 9)) == i as u64 as int);
            assert(i as u64 as i64 == i) by (bit_vector);
            assert(s.len() >= 9);
        },
        Val::Str(str_bytes) => {
            assert(s[0] == TAG_STR);
            lemma_be_bytes_len(str_bytes.len() as int, 8);
            assert(s.subrange(1, 9) =~= be_bytes(str_bytes.len() as int, 8));
            lemma_from_be_be(str_bytes.len() as int, 8);
            vstd::arithmetic::div_mod::lemma_small_mod(str_bytes.len(), pow256(8) as nat);
            assert(from_be(s.subrange(1, 9)) == str_bytes.len() as int);
            assert(s.len() >= 9 + str_bytes.len());
            assert(s.subrange(9, 9 + str_bytes.len() as int) =~= str_bytes);
        },
        Val::Bytes(bs) => {
            assert(s[0] == TAG_BYTES);
            lemma_be_bytes_len(bs.len() as int, 8);
            assert(s.subrange(1, 9) =~= be_bytes(bs.len() as int, 8));
            lemma_from_be_be(bs.len() as int, 8);
            vstd::arithmetic::div_mod::lemma_small_mod(bs.len(), pow256(8) as nat);
            assert(from_be(s.subrange(1, 9)) == bs.len() as int);
            assert(s.len() >= 9 + bs.len());
            assert(s.subrange(9, 9 + bs.len() as int) =~= bs);
        },
        Val::List(vs) => {
            assert(s[0] == TAG_LIST);
            lemma_be_bytes_len(vs.len() as int, 8);
            assert(s.subrange(1, 9) =~= be_bytes(vs.len() as int, 8));
            lemma_from_be_be(vs.len() as int, 8);
            vstd::arithmetic::div_mod::lemma_small_mod(vs.len(), pow256(8) as nat);
            assert(from_be(s.subrange(1, 9)) == vs.len() as int);
            assert(s.skip(9) =~= enc_items(vs, 0) + rest);
            lemma_dec_enc_items(vs, 0, rest);
            assert(vs.skip(0) =~= vs);
            assert(enc_val(v).len() == 9 + enc_items(vs, 0).len());
        },
        Val::Dict(ps) => {
            assert(s[0] == TAG_DICT);
            lemma_be_bytes_len(ps.len() as int, 8);
            assert(s.subrange(1, 9) =~= be_bytes(ps.len() as int, 8));
            lemma_from_be_be(ps.len() as int, 8);
            vstd::arithmetic::div_mod::lemma_small_mod(ps.len(), pow256(8) as nat);
            assert(from_be(s.subrange(1, 9)) == ps.len() as int);
            assert(s.skip(9) =~= enc_entries(ps, 0) + rest);
            lemma_dec_enc_entries(ps, 0, rest);
            assert(ps.skip(0) =~= ps);
            assert(enc_val(v).len() == 9 + enc_entries(ps, 0).len());
        },
        Val::Bot => {
            assert(s[0] == TAG_BOT);
        },
    }
}

/// Decoding reads back a list's elements from the point they were encoded.
pub proof fn lemma_dec_enc_items(vs: Seq<Val>, i: int, rest: Seq<u8>)
    requires
        0 <= i <= vs.len(),
        forall|j: int| 0 <= j < vs.len() ==> wf_val(#[trigger] vs[j]),
    ensures
        dec_items(vs.len() - i, enc_items(vs, i) + rest) == Some(
            (vs.skip(i), enc_items(vs, i).len() as int),
        ),
    decreases vs, 1int, vs.len() - i,
{
    if i == vs.len() {
        assert(enc_items(vs, i) =~= Seq::<u8>::empty());
        assert(enc_items(vs, i) + rest =~= rest);
        assert(vs.skip(i) =~= Seq::<Val>::empty());
    } else {
        let tail = enc_items(vs, i + 1) + rest;
        assert(enc_items(vs, i) + rest =~= enc_val(vs[i]) + tail);
        lemma_dec_enc_val(vs[i], tail);
        lemma_enc_val_min_len(vs[i]);
        let m = enc_val(vs[i]).len() as int;
        assert((enc_val(vs[i]) + tail).skip(m) =~= tail);
        lemma_dec_enc_items(vs, i + 1, rest);
        assert(seq![vs[i]] + vs.skip(i + 1) =~= vs.skip(i));
    }
}

/// Decoding reads back a map's entries from the point they were encoded.
pub proof fn lemma_dec_enc_entries(ps: Seq<(Val, Val)>, i: int, rest: Seq<u8>)
    requires
        0 <= i <= ps.len(),
        forall|j: int| 0 <= j < ps.len() ==> wf_val((#[trigger] ps[j]).0) && wf_val(ps[j].1),
    ensures
        dec_entries(ps.len() - i, enc_entries(ps, i) + rest) == Some(
            (ps.skip(i), enc_entries(ps, i).len() as int),
        ),
    decreases ps, 1int, ps.len() - i,
{
    if i == ps.len() {
        assert(enc_entries(ps, i) =~= Seq::<u8>::empty());
        assert(enc_entries(ps, i) + rest =~= rest);
        assert(ps.skip(i) =~= Seq::<(Val, Val)>::empty());
    } else {
        let s2 = enc_entries(ps, i) + rest;
        let tail1 = enc_val(ps[i].1) + (enc_entries(ps, i + 1) + rest);
        assert(s2 =~= enc_val(ps[i].0) + tail1);
        lemma_dec_enc_val(ps[i].0, tail1);
        lemma_enc_val_min_len(ps[i].0);
        let mk = enc_val(ps[i].0).len() as int;
        assert(s2.skip(mk) =~= tail1);
        let tail2 = enc_entries(ps, i + 1) + rest;
        lemma_dec_enc_val(ps[i].1, tail2);
        lemma_enc_val_min_len(ps[i].1);
        let mv = enc_val(ps[i].1).len() as int;
        assert(s2.skip(mk + mv) =~= tail2);
        lemma_dec_enc_entries(ps, i + 1, rest);
        assert(ps[i] == (ps[i].0, ps[i].1));
        assert(seq![ps[i]] + ps.skip(i + 1) =~= ps.skip(i));
        assert(dec_val(s2) == Some((ps[i].0, mk)));
        assert(dec_val(s2.skip(mk)) == Some((ps[i].1, mv)));
        assert(enc_entries(ps, i).len() as int == mk + mv + enc_entries(ps, i + 1).len());
        assert(dec_entries(ps.len() - i, s2) == Some(
            (ps.skip(i), enc_entries(ps, i).len() as int),
        ));
    }
}

/// Encoded bytes of a whole tuple: the values' encodings in order.
pub open spec fn enc_row(vs: Seq<Val>) -> Seq<u8>
    decreases vs.len(),
{
    if vs.len() == 0 {
        Seq::empty()
    } else {
        enc_val(vs[0]) + enc_row(vs.drop_first())
    }
}

/// Decodes values until the input is exhausted.
pub open spec fn dec_row(s: Seq<u8>) -> Option<Seq<Val>>
    decreases s.len(),
{
    if s.len() == 0 {
        Some(Seq::empty())
    } else {
        match dec_val(s) {
            None => None,
            Some((v, n)) => if 1 <= n <= s.len() {
                match dec_row(s.skip(n)) {
                    None => None,
                    Some(vs) => Some(seq![v] + vs),
                }
            } else {
                None
            },
        }
    }
}

/// Every value a decode produces fits the encoding's bounds.
pub proof fn lemma_dec_val_wf(s: Seq<u8>)
    ensures
        dec_val(s) matches Some(p) ==> wf_val(p.0),
    decreases s.len(), 0int, 0int,
{
    if s.len() >= 9 && (s[0] == TAG_STR || s[0] == TAG_BYTES) {
        lemma_from_be_bound(s.subrange(1, 9));
    }
    if s.len() >= 9 && s[0] == TAG_LIST {
        lemma_from_be_bound(s.subrange(1, 9));
        lemma_pow256_8();
        lemma_dec_items_wf(from_be(s.subrange(1, 9)), s.skip(9));
    }
    if s.len() >= 9 && s[0] == TAG_DICT {
        lemma_from_be_bound(s.subrange(1, 9));
        lemma_pow256_8();
        lemma_dec_entries_wf(from_be(s.subrange(1, 9)), s.skip(9));
    }
}

pub proof fn lemma_dec_items_wf(n: int, s: Seq<u8>)
    ensures
        dec_items(n, s) matches Some(p) ==> p.0.len() == (if n >= 0 {
            n
        } else {
            0
        }) && (forall|j: int| 0 <= j < p.0.len() ==> wf_val(#[trigger] p.0[j])),
    decreases s.len(), 1int, n,
{
    if n > 0 {
        match dec_val(s) {
            None => {},
            Some((v, m)) => {
                if 1 <= m <= s.len() {
                    lemma_dec_val_wf(s);
                    lemma_dec_items_wf(n - 1, s.skip(m));
                    match dec_items(n - 1, s.skip(m)) {
                        None => {},
                        Some((vs, m2)) => {
                            assert forall|j: int| 0 <= j < (seq![v] + vs).len() implies wf_val(
                                #[trigger] (seq![v] + vs)[j],
                            ) by {
                                if j > 0 {
                                    assert((seq![v] + vs)[j] == vs[j - 1]);
                                }
                            }
                        },
                    }
                }
            },
        }
    }
}

pub proof fn lemma_dec_entries_wf(n: int, s: Seq<u8>)
    ensures
        dec_entries(n, s) matches Some(p) ==> p.0.len() == (if n >= 0 {
            n
        } else {
            0
        }) && (forall|j: int|
            0 <= j < p.0.len() ==> wf_val((#[trigger] p.0[j]).0) && wf_val(p.0[j].1)),
    decreases s.len(), 1int, n,
{
    if n > 0 {
        match dec_val(s) {
            None => {},
            Some((k, mk)) => {
                if 1 <= mk <= s.len() {
                    match dec_val(s.skip(mk)) {
                        None => {},
                        Some((v, mv)) => {
                            if 1 <= mv <= s.len() - mk {
                                lemma_dec_val_wf(s);
                                lemma_dec_val_wf(s.skip(mk));
                                lemma_dec_entries_wf(n - 1, s.skip(mk + mv));
                                match dec_entries(n - 1, s.skip(mk + mv)) {
                                    None => {},
                                    Some((ps, m2)) => {
                                        assert forall|j: int|
                                            0 <= j < (seq![(k, v)] + ps).len() implies wf_val(
                                            (#[trigger] (seq![(k, v)] + ps)[j]).0,
                                        ) && wf_val((seq![(k, v)] + ps)[j].1) by {
                                            if j > 0 {
                                                assert((seq![(k, v)] + ps)[j] == ps[j - 1]);
                                            }
                                        }
                                    },
                                }
                            }
                        },
                    }
                }
            },
        }
    }
}

/// Every row a decode produces is made of well-formed values.
pub proof fn lemma_dec_row_wf(s: Seq<u8>)
    ensures
        dec_row(s) matches Some(vs) ==> wf_row(vs),
    decreases s.len(),
{
    if s.len() == 0 {
    } else {
        match dec_val(s) {
            None => {},
            Some((v, n)) => {
                lemma_dec_val_wf(s);
                if 1 <= n <= s.len() {
                    lemma_dec_row_wf(s.skip(n));
                    match dec_row(s.skip(n)) {
                        None => {},
                        Some(vs) => {
                            assert forall|i: int|
                                0 <= i < (seq![v] + vs).len() implies wf_val(
                                #[trigger] (seq![v] + vs)[i],
                            ) by {
                                if i > 0 {
                                    assert((seq![v] + vs)[i] == vs[i - 1]);
                                }
                            }
                        },
                    }
                }
            },
        }
    }
}

/// A whole encoded tuple decodes back to itself.
pub proof fn lemma_dec_enc_row(vs: Seq<Val>)
    requires
        wf_row(vs),
    ensures
        dec_row(enc_row(vs)) == Some(vs),
    decreases vs.len(),
{
    if vs.len() == 0 {
        assert(enc_row(vs).len() == 0);
        assert(dec_row(enc_row(vs)) == Some(Seq::<Val>::empty()));
        assert(vs =~= Seq::<Val>::empty());
    } else {
        let head = vs[0];
        let tail = vs.drop_first();
        assert(wf_val(head));
        assert(wf_row(tail)) by {
            assert(forall|i: int| 0 <= i < tail.len() ==> #[trigger] tail[i] == vs[i + 1]);
        }
        let s = enc_row(vs);
        lemma_dec_enc_val(head, enc_row(tail));
        assert(s == enc_val(head) + enc_row(tail));
        assert(s.len() >= enc_val(head).len()) by {
            assert(enc_row(tail).len() >= 0);
        }
        assert(s.len() > 0) by {
            assert(enc_val(head).len() >= 1);
        }
        let n = enc_val(head).len() as int;
        lemma_dec_val_bounds(s);
        assert(s.skip(n) =~= enc_row(tail));
        lemma_dec_enc_row(tail);
        assert(dec_row(s) == Some(seq![head] + tail));
        assert(seq![head] + tail =~= vs);
    }
}

/// A big-endian byte string re-encodes to itself: the encoding is
/// canonical.
pub proof fn lemma_be_from_be(s: Seq<u8>)
    ensures
        be_bytes(from_be(s), s.len()) == s,
    decreases s.len(),
{
    if s.len() > 0 {
        lemma_be_from_be(s.drop_last());
        lemma_from_be_bound(s.drop_last());
        let x = from_be(s);
        let hi = from_be(s.drop_last());
        assert(x == hi * 256 + s.last());
        assert(x / 256 == hi && x % 256 == s.last()) by (nonlinear_arith)
            requires
                x == hi * 256 + s.last(),
                0 <= s.last() < 256,
                hi >= 0,
        ;
        assert(be_bytes(x, s.len()) == be_bytes(hi, (s.len() - 1) as nat).push(
            (s.last()) as u8,
        ));
        assert(be_bytes(hi, (s.len() - 1) as nat) == s.drop_last());
        assert(s.drop_last().push(s.last()) =~= s);
    }
}

/// A value read out of its encoding writes back the very same bytes.
pub proof fn lemma_enc_dec_val(s: Seq<u8>)
    ensures
        dec_val(s) matches Some(p) ==> enc_val(p.0) == s.take(p.1),
    decreases s.len(), 0int, 0int,
{
    match dec_val(s) {
        None => {},
        Some((v, n)) => {
            lemma_dec_val_bounds(s);
            if s[0] == TAG_NULL {
                assert(enc_val(v) =~= s.take(1));
            } else if s[0] == TAG_BOOL {
                assert(enc_val(v) =~= s.take(2));
            } else if s[0] == TAG_INT {
                let b = s.subrange(1, 9);
                lemma_be_from_be(b);
                lemma_from_be_bound(b);
                lemma_pow256_8();
                let x = from_be(b);
                let xu = x as u64;
                assert((xu as i64) as u64 == xu) by (bit_vector);
                assert(x as u64 as int == x);
                assert(be8(x as u64 as i64 as u64) == b);
                assert(enc_val(v) =~= s.take(9));
            } else if s[0] == TAG_STR || s[0] == TAG_BYTES {
                let b = s.subrange(1, 9);
                lemma_be_from_be(b);
                lemma_from_be_bound(b);
                lemma_pow256_8();
                let m = from_be(b);
                let content = s.subrange(9, 9 + m);
                assert(content.len() == m);
                vstd::arithmetic::div_mod::lemma_small_mod(m as nat, pow256(8) as nat);
                assert(be_bytes(content.len() as int, 8) == b);
                assert(enc_val(v) =~= s.take(9 + m));
            } else if s[0] == TAG_LIST {
                let b = s.subrange(1, 9);
                lemma_be_from_be(b);
                lemma_from_be_bound(b);
                let count = from_be(b);
                lemma_dec_items_wf(count, s.skip(9));
                lemma_dec_items_bounds(count, s.skip(9));
                lemma_enc_dec_items(count, s.skip(9));
                match dec_items(count, s.skip(9)) {
                    None => {},
                    Some((vs, m)) => {
                        assert(vs.len() == count);
                        assert(be_bytes(vs.len() as int, 8) == b);
                        assert(enc_items(vs, 0) == s.skip(9).take(m));
                        assert(enc_val(v) =~= s.take(9 + m));
                    },
                }
            } else if s[0] == TAG_DICT {
                let b = s.subrange(1, 9);
                lemma_be_from_be(b);
                lemma_from_be_bound(b);
                let count = from_be(b);
                lemma_dec_entries_wf(count, s.skip(9));
                lemma_dec_entries_bounds(count, s.skip(9));
                lemma_enc_dec_entries(count, s.skip(9));
                match dec_entries(count, s.skip(9)) {
                    None => {},
                    Some((ps, m)) => {
                        assert(ps.len() == count);
                        assert(be_bytes(ps.len() as int, 8) == b);
                        assert(enc_entries(ps, 0) == s.skip(9).take(m));
                        assert(enc_val(v) =~= s.take(9 + m));
                    },
                }
            } else {
                assert(s[0] == TAG_BOT);
                assert(enc_val(v) =~= s.take(1));
            }
        },
    }
}

/// Prepending one element shifts a list encoding by one position.
pub proof fn lemma_enc_items_shift(v: Val, vs: Seq<Val>, i: int)
    requires
        0 <= i <= vs.len(),
    ensures
        enc_items(seq![v] + vs, i + 1) == enc_items(vs, i),
    decreases vs.len() - i,
{
    if i < vs.len() {
        assert((seq![v] + vs)[i + 1] == vs[i]);
        lemma_enc_items_shift(v, vs, i + 1);
    } else {
        assert(enc_items(seq![v] + vs, i + 1) =~= Seq::<u8>::empty());
        assert(enc_items(vs, i) =~= Seq::<u8>::empty());
    }
}

pub proof fn lemma_enc_entries_shift(p: (Val, Val), ps: Seq<(Val, Val)>, i: int)
    requires
        0 <= i <= ps.len(),
    ensures
        enc_entries(seq![p] + ps, i + 1) == enc_entries(ps, i),
    decreases ps.len() - i,
{
    if i < ps.len() {
        assert((seq![p] + ps)[i + 1] == ps[i]);
        lemma_enc_entries_shift(p, ps, i + 1);
    } else {
        assert(enc_entries(seq![p] + ps, i + 1) =~= Seq::<u8>::empty());
        assert(enc_entries(ps, i) =~= Seq::<u8>::empty());
    }
}

/// A list read out of its encoding writes back the very same bytes.
pub proof fn lemma_enc_dec_items(n: int, s: Seq<u8>)
    ensures
        dec_items(n, s) matches Some(p) ==> enc_items(p.0, 0) == s.take(p.1),
    decreases s.len(), 1int, n,
{
    if n <= 0 {
        match dec_items(n, s) {
            None => {},
            Some((vs, m)) => {
                assert(enc_items(vs, 0) =~= Seq::<u8>::empty());
                assert(s.take(0) =~= Seq::<u8>::empty());
            },
        }
    } else {
        match dec_val(s) {
            None => {},
            Some((v, m)) => {
                if 1 <= m <= s.len() {
                    lemma_enc_dec_val(s);
                    lemma_dec_items_bounds(n - 1, s.skip(m));
                    lemma_enc_dec_items(n - 1, s.skip(m));
                    match dec_items(n - 1, s.skip(m)) {
                        None => {},
                        Some((vs, m2)) => {
                            lemma_enc_items_shift(v, vs, 0);
                            assert((seq![v] + vs)[0] == v);
                            assert(enc_items(seq![v] + vs, 0) == enc_val(v) + enc_items(vs, 0));
                            assert(enc_val(v) == s.take(m));
                            assert(enc_items(vs, 0) == s.skip(m).take(m2));
                            assert(s.take(m) + s.skip(m).take(m2) =~= s.take(m + m2));
                        },
                    }
                }
            },
        }
    }
}

/// A map read out of its encoding writes back the very same bytes.
pub proof fn lemma_enc_dec_entries(n: int, s: Seq<u8>)
    ensures
        dec_entries(n, s) matches Some(p) ==> enc_entries(p.0, 0) == s.take(p.1),
    decreases s.len(), 1int, n,
{
    if n <= 0 {
        match dec_entries(n, s) {
            None => {},
            Some((ps, m)) => {
                assert(enc_entries(ps, 0) =~= Seq::<u8>::empty());
                assert(s.take(0) =~= Seq::<u8>::empty());
            },
        }
    } else {
        match dec_val(s) {
            None => {},
            Some((k, mk)) => {
                if 1 <= mk <= s.len() {
                    match dec_val(s.skip(mk)) {
                        None => {},
                        Some((v, mv)) => {
                            if 1 <= mv <= s.len() - mk {
                                lemma_enc_dec_val(s);
                                lemma_enc_dec_val(s.skip(mk));
                                lemma_dec_entries_bounds(n - 1, s.skip(mk + mv));
                                lemma_enc_dec_entries(n - 1, s.skip(mk + mv));
                                match dec_entries(n - 1, s.skip(mk + mv)) {
                                    None => {},
                                    Some((ps, m2)) => {
                                        lemma_enc_entries_shift((k, v), ps, 0);
                                        assert((seq![(k, v)] + ps)[0] == (k, v));
                                        assert(enc_entries(seq![(k, v)] + ps, 0) == enc_val(k)
                                            + enc_val(v) + enc_entries(ps, 0));
                                        assert(enc_val(k) == s.take(mk));
                                        assert(enc_val(v) == s.skip(mk).take(mv));
                                        assert(s.skip(mk).skip(mv) =~= s.skip(mk + mv));
                                        assert(enc_entries(ps, 0) == s.skip(mk + mv).take(m2));
                                        assert(s.take(mk) + s.skip(mk).take(mv) + s.skip(
                                            mk + mv,
                                        ).take(m2) =~= s.take(mk + mv + m2));
                                    },
                                }
                            }
                        },
                    }
                }
            },
        }
    }
}

/// A whole row read out of its encoding writes back the very same bytes.
pub proof fn lemma_enc_dec_row(s: Seq<u8>)
    ensures
        dec_row(s) matches Some(vs) ==> enc_row(vs) == s,
    decreases s.len(),
{
    if s.len() == 0 {
        match dec_row(s) {
            Some(vs) => {
                assert(enc_row(vs) =~= s);
            },
            None => {},
        }
    } else {
        match dec_val(s) {
            None => {},
            Some((v, n)) => {
                lemma_dec_val_bounds(s);
                lemma_enc_dec_val(s);
                if 1 <= n <= s.len() {
                    lemma_enc_dec_row(s.skip(n));
                    match dec_row(s.skip(n)) {
                        None => {},
                        Some(vs) => {
                            assert((seq![v] + vs)[0] == v);
                            assert((seq![v] + vs).drop_first() =~= vs);
                            assert(enc_row(seq![v] + vs) == enc_val(v) + enc_row(vs));
                            assert(enc_val(v) + s.skip(n) =~= s.take(n) + s.skip(n));
                            assert(s.take(n) + s.skip(n) =~= s);
                        },
                    }
                }
            },
        }
    }
}

/// Establishes that a value held in memory fits the encoding's bounds:
/// every byte string and element count in it is an in-memory length.
pub fn observe_val_wf(v: &DataValue)
    ensures
        wf_val(v@),
    decreases *v, 0int, 0int,
{
    proof {
        lemma_pow256_8();
    }
    match v {
        DataValue::Str(s) => {
            let n = s.len();
        },
        DataValue::Bytes(s) => {
            let n = s.len();
        },
        DataValue::List(items) => {
            let n = items.len();
            proof {
                crate::value::lemma_dvals_view_all(items@);
            }
            let mut k: usize = 0;
            while k < items.len()
                invariant
                    0 <= k <= items@.len(),
                    *v == DataValue::List(*items),
                    forall|j: int| 0 <= j < k ==> wf_val(#[trigger] items@[j]@),
                decreases items@.len() - k, 0int, 0int,
            {
                proof {
                    assert(decreases_to!(*v => (*v)->List_0));
                    assert(decreases_to!((*v)->List_0 => (*v)->List_0@));
                    assert(decreases_to!((*v)->List_0@ => (*v)->List_0@[k as int]));
                    assert((*v)->List_0@[k as int] == items@[k as int]);
                    assert(decreases_to!(*v => items@[k as int]));
                }
                observe_val_wf(&items[k]);
                k = k + 1;
            }
            proof {
                let lv = crate::value::dvals_view(items@, 0);
                assert forall|j: int| 0 <= j < lv.len() implies wf_val(#[trigger] lv[j]) by {
                    assert(lv[j] == crate::value::dval_view(items@[j]));
                    assert(items@[j]@ == crate::value::dval_view(items@[j]));
                }
                assert(v@ == Val::List(lv));
            }
        },
        DataValue::Dict(pairs) => {
            let n = pairs.len();
            proof {
                crate::value::lemma_dpairs_view_all(pairs@);
            }
            let mut k: usize = 0;
            while k < pairs.len()
                invariant
                    0 <= k <= pairs@.len(),
                    *v == DataValue::Dict(*pairs),
                    forall|j: int|
                        0 <= j < k ==> wf_val((#[trigger] pairs@[j]).0@) && wf_val(pairs@[j].1@),
                decreases pairs@.len() - k, 0int, 0int,
            {
                proof {
                    assert(decreases_to!(*v => (*v)->Dict_0));
                    assert(decreases_to!((*v)->Dict_0 => (*v)->Dict_0@));
                    assert(decreases_to!((*v)->Dict_0@ => (*v)->Dict_0@[k as int]));
                    assert(decreases_to!((*v)->Dict_0@[k as int] => (*v)->Dict_0@[k as int].0));
                    assert(decreases_to!((*v)->Dict_0@[k as int] => (*v)->Dict_0@[k as int].1));
                    assert((*v)->Dict_0@[k as int] == pairs@[k as int]);
                    assert(decreases_to!(*v => pairs@[k as int].0));
                    assert(decreases_to!(*v => pairs@[k as int].1));
                }
                observe_val_wf(&pairs[k].0);
                observe_val_wf(&pairs[k].1);
                k = k + 1;
            }
            proof {
                let pv = crate::value::dpairs_view(pairs@, 0);
                assert forall|j: int| 0 <= j < pv.len() implies wf_val((#[trigger] pv[j]).0)
                    && wf_val(pv[j].1) by {
                    assert(pv[j] == (
                        crate::value::dval_view(pairs@[j].0),
                        crate::value::dval_view(pairs@[j].1),
                    ));
                    assert(pairs@[j].0@ == crate::value::dval_view(pairs@[j].0));
                    assert(pairs@[j].1@ == crate::value::dval_view(pairs@[j].1));
                }
                assert(v@ == Val::Dict(pv));
            }
        },
        _ => {},
    }
}

/// Appends the bytes of `s` to `out`.
pub fn push_bytes(out: &mut Vec<u8>, s: &[u8])
    ensures
        final(out)@ == old(out)@ + s@,
{
    let mut i: usize = 0;
    while i < s.len()
        invariant
            0 <= i <= s@.len(),
            out@ =~= old(out)@ + s@.take(i as int),
        decreases s@.len() - i,
    {
        out.push(s[i]);
        proof {
            assert(old(out)@ + s@.take(i + 1 as int) =~= (old(out)@ + s@.take(i as int)).push(
                s@[i as int],
            ));
        }
        i = i + 1;
    }
    proof {
        assert(s@.take(s@.len() as int) =~= s@);
        assert(out@ =~= old(out)@ + s@);
    }
}

/// Appends the encoding of one value to `out`.
pub fn encode_value(out: &mut Vec<u8>, v: &DataValue)
    ensures
        final(out)@ == old(out)@ + enc_val(v@),
    decreases *v, 0int, 0int,
{
    match v {
        DataValue::Null => {
            out.push(TAG_NULL);
            proof {
                assert(out@ =~= old(out)@ + enc_val(v@));
            }
        },
        DataValue::Bool(b) => {
            out.push(TAG_BOOL);
            out.push(if *b {
                1u8
            } else {
                0u8
            });
            proof {
                assert(out@ =~= old(out)@ + enc_val(v@));
            }
        },
        DataValue::Int(i) => {
            out.push(TAG_INT);
            let bytes = be8_exec(*i as u64);
            push_bytes(out, bytes.as_slice());
            proof {
                assert(out@ =~= old(out)@ + enc_val(v@));
            }
        },
        DataValue::Str(s) => {
            out.push(TAG_STR);
            let len_bytes = be_bytes_exec(s.len() as u64, 8);
            push_bytes(out, len_bytes.as_slice());
            push_bytes(out, s.as_slice());
            proof {
                assert((s.len() as u64) as int == s@.len() as int);
                assert(out@ =~= old(out)@ + enc_val(v@));
            }
        },
        DataValue::Bytes(s) => {
            out.push(TAG_BYTES);
            let len_bytes = be_bytes_exec(s.len() as u64, 8);
            push_bytes(out, len_bytes.as_slice());
            push_bytes(out, s.as_slice());
            proof {
                assert((s.len() as u64) as int == s@.len() as int);
                assert(out@ =~= old(out)@ + enc_val(v@));
            }
        },
        DataValue::List(items) => {
            out.push(TAG_LIST);
            let lb = be_bytes_exec(items.len() as u64, 8);
            push_bytes(out, lb.as_slice());
            let ghost lv = crate::value::dvals_view(items@, 0);
            proof {
                crate::value::lemma_dvals_view_all(items@);
                assert(v@ == Val::List(lv));
                assert(out@ + enc_items(lv, 0) =~= old(out)@ + seq![TAG_LIST] + be_bytes(
                    items@.len() as int,
                    8,
                ) + enc_items(lv, 0));
            }
            let mut k: usize = 0;
            while k < items.len()
                invariant
                    0 <= k <= items@.len(),
                    *v == DataValue::List(*items),
                    lv == crate::value::dvals_view(items@, 0),
                    lv.len() == items@.len(),
                    forall|j: int|
                        0 <= j < items@.len() ==> #[trigger] lv[j] == crate::value::dval_view(
                            items@[j],
                        ),
                    out@ + enc_items(lv, k as int) == old(out)@ + enc_val(
                        Val::List(lv),
                    ),
                decreases items@.len() - k, 0int, 0int,
            {
                proof {
                    assert(lv[k as int] == items@[k as int]@);
                    assert(decreases_to!(*v => (*v)->List_0));
                    assert(decreases_to!((*v)->List_0 => (*v)->List_0@));
                    assert(decreases_to!((*v)->List_0@ => (*v)->List_0@[k as int]));
                    assert((*v)->List_0@[k as int] == items@[k as int]);
                    assert(decreases_to!(*v => items@[k as int]));
                }
                encode_value(out, &items[k]);
                proof {
                    assert(enc_items(lv, k as int) == enc_val(lv[k as int]) + enc_items(
                        lv,
                        k + 1,
                    ));
                    assert(out@ + enc_items(lv, k + 1) =~= old(out)@ + enc_val(Val::List(lv)));
                }
                k = k + 1;
            }
            proof {
                assert(enc_items(lv, lv.len() as int) =~= Seq::<u8>::empty());
                assert(out@ =~= out@ + enc_items(lv, lv.len() as int));
                assert(out@ =~= old(out)@ + enc_val(v@));
            }
        },
        DataValue::Dict(pairs) => {
            out.push(TAG_DICT);
            let lb = be_bytes_exec(pairs.len() as u64, 8);
            push_bytes(out, lb.as_slice());
            let ghost pv = crate::value::dpairs_view(pairs@, 0);
            proof {
                crate::value::lemma_dpairs_view_all(pairs@);
                assert(v@ == Val::Dict(pv));
                assert(out@ + enc_entries(pv, 0) =~= old(out)@ + seq![TAG_DICT] + be_bytes(
                    pairs@.len() as int,
                    8,
                ) + enc_entries(pv, 0));
            }
            let mut k: usize = 0;
            while k < pairs.len()
                invariant
                    0 <= k <= pairs@.len(),
                    *v == DataValue::Dict(*pairs),
                    pv == crate::value::dpairs_view(pairs@, 0),
                    pv.len() == pairs@.len(),
                    forall|j: int|
                        0 <= j < pairs@.len() ==> #[trigger] pv[j] == (
                            crate::value::dval_view(pairs@[j].0),
                            crate::value::dval_view(pairs@[j].1),
                        ),
                    out@ + enc_entries(pv, k as int) == old(out)@ + enc_val(
                        Val::Dict(pv),
                    ),
                decreases pairs@.len() - k, 0int, 0int,
            {
                proof {
                    assert(pv[k as int] == (pairs@[k as int].0@, pairs@[k as int].1@));
                    assert(decreases_to!(*v => (*v)->Dict_0));
                    assert(decreases_to!((*v)->Dict_0 => (*v)->Dict_0@));
                    assert(decreases_to!((*v)->Dict_0@ => (*v)->Dict_0@[k as int]));
                    assert(decreases_to!((*v)->Dict_0@[k as int] => (*v)->Dict_0@[k as int].0));
                    assert(decreases_to!((*v)->Dict_0@[k as int] => (*v)->Dict_0@[k as int].1));
                    assert((*v)->Dict_0@[k as int] == pairs@[k as int]);
                    assert(decreases_to!(*v => pairs@[k as int].0));
                    assert(decreases_to!(*v => pairs@[k as int].1));
                }
                encode_value(out, &pairs[k].0);
                encode_value(out, &pairs[k].1);
                proof {
                    assert(enc_entries(pv, k as int) == enc_val(pv[k as int].0) + enc_val(
                        pv[k as int].1,
                    ) + enc_entries(pv, k + 1));
                    assert(out@ + enc_entries(pv, k + 1) =~= old(out)@ + enc_val(
                        Val::Dict(pv),
                    ));
                }
                k = k + 1;
            }
            proof {
                assert(enc_entries(pv, pv.len() as int) =~= Seq::<u8>::empty());
                assert(out@ =~= out@ + enc_entries(pv, pv.len() as int));
                assert(out@ =~= old(out)@ + enc_val(v@));
            }
        },
        DataValue::Bot => {
            out.push(TAG_BOT);
            proof {
                assert(out@ =~= old(out)@ + enc_val(v@));
            }
        },
    }
}

/// The encoding of a whole row, one value after the other.
pub fn encode_row(out: &mut Vec<u8>, t: &Tuple)
    ensures
        final(out)@ == old(out)@ + enc_row(t@),
{
    let mut i: usize = 0;
    while i < t.0.len()
        invariant
            0 <= i <= t.0@.len(),
            t@.len() == t.0@.len(),
            out@ =~= old(out)@ + enc_row(t@.take(i as int)),
        decreases t.0@.len() - i,
    {
        proof {
            lemma_enc_row_snoc(t@.take(i as int), t@[i as int]);
            assert(t@.take(i + 1 as int) =~= t@.take(i as int).push(t@[i as int]));
        }
        encode_value(out, &t.0[i]);
        i = i + 1;
    }
    proof {
        assert(t@.take(t@.len() as int) =~= t@);
    }
}

/// Copies the bytes of `s` between two positions.
pub fn copy_range(s: &Vec<u8>, a: usize, b: usize) -> (r: Vec<u8>)
    requires
        a <= b <= s@.len(),
    ensures
        r@ == s@.subrange(a as int, b as int),
{
    let mut r: Vec<u8> = Vec::new();
    let mut i: usize = a;
    while i < b
        invariant
            a <= i <= b <= s@.len(),
            r@ =~= s@.subrange(a as int, i as int),
        decreases b - i,
    {
        r.push(s[i]);
        proof {
            assert(r@ =~= s@.subrange(a as int, i + 1 as int));
        }
        i = i + 1;
    }
    proof {
        assert(r@ =~= s@.subrange(a as int, b as int));
    }
    r
}

/// Decodes one value starting at `pos`, handing back the value and the
/// position just past it.
pub fn decode_value(s: &Vec<u8>, pos: usize) -> (r: Option<(DataValue, usize)>)
    requires
        pos <= s@.len(),
    ensures
        match r {
            None => dec_val(s@.skip(pos as int)) is None,
            Some((v, np)) => pos < np <= s@.len() && dec_val(s@.skip(pos as int)) == Some(
                (v@, np - pos),
            ),
        },
    decreases s@.len() - pos, 0int, 0int,
{
    let ghost su = s@.skip(pos as int);
    let rem = s.len() - pos;
    if rem < 1 {
        return None;
    }
    let tag = s[pos];
    proof {
        assert(su[0] == s@[pos as int]);
    }
    if tag == TAG_NULL {
        Some((DataValue::Null, pos + 1))
    } else if tag == TAG_BOOL {
        if rem < 2 {
            return None;
        }
        let b = s[pos + 1];
        proof {
            assert(su[1] == s@[pos + 1 as int]);
        }
        if b == 0 || b == 1 {
            Some((DataValue::Bool(b == 1), pos + 2))
        } else {
            None
        }
    } else if tag == TAG_INT {
        if rem < 9 {
            return None;
        }
        let bytes = copy_range(s, pos + 1, pos + 9);
        proof {
            assert(bytes@ =~= su.subrange(1, 9));
        }
        let x = be_decode(bytes.as_slice());
        proof {
            lemma_from_be_bound(su.subrange(1, 9));
            lemma_pow256_8();
        }
        Some((DataValue::Int(x as i64), pos + 9))
    } else if tag == TAG_STR || tag == TAG_BYTES {
        if rem < 9 {
            return None;
        }
        let len_bytes = copy_range(s, pos + 1, pos + 9);
        proof {
            assert(len_bytes@ =~= su.subrange(1, 9));
        }
        let n64 = be_decode(len_bytes.as_slice());
        if n64 > (rem - 9) as u64 {
            proof {
                lemma_from_be_bound(su.subrange(1, 9));
            }
            return None;
        }
        let n = n64 as usize;
        let bytes = copy_range(s, pos + 9, pos + 9 + n);
        proof {
            assert(bytes@ =~= su.subrange(9, 9 + n as int));
        }
        if tag == TAG_STR {
            Some((DataValue::Str(bytes), pos + 9 + n))
        } else {
            Some((DataValue::Bytes(bytes), pos + 9 + n))
        }
    } else if tag == TAG_LIST || tag == TAG_DICT {
        if rem < 9 {
            return None;
        }
        let len_bytes = copy_range(s, pos + 1, pos + 9);
        proof {
            assert(len_bytes@ =~= su.subrange(1, 9));
            lemma_from_be_bound(su.subrange(1, 9));
        }
        let n64 = be_decode(len_bytes.as_slice());
        if tag == TAG_LIST {
            match decode_items(s, pos + 9, n64) {
                None => {
                    proof {
                        assert(su.skip(9) =~= s@.skip(pos + 9));
                    }
                    None
                },
                Some((vals, np)) => {
                    let r = DataValue::List(vals);
                    proof {
                        assert(su.skip(9) =~= s@.skip(pos + 9));
                        crate::value::lemma_dvals_view_eq_row(vals@);
                        assert(r@ == Val::List(crate::value::row_view(vals@)));
                    }
                    Some((r, np))
                },
            }
        } else {
            match decode_entries(s, pos + 9, n64) {
                None => {
                    proof {
                        assert(su.skip(9) =~= s@.skip(pos + 9));
                    }
                    None
                },
                Some((prs, np)) => {
                    let r = DataValue::Dict(prs);
                    proof {
                        assert(su.skip(9) =~= s@.skip(pos + 9));
                        crate::value::lemma_dpairs_view_eq(prs@);
                        assert(r@ == Val::Dict(crate::value::pairs_vv(prs@)));
                    }
                    Some((r, np))
                },
            }
        }
    } else if tag == TAG_BOT {
        Some((DataValue::Bot, pos + 1))
    } else {
        None
    }
}

/// Decodes `n` values starting at `pos`.
fn decode_items(s: &Vec<u8>, pos: usize, n: u64) -> (r: Option<(Vec<DataValue>, usize)>)
    requires
        pos <= s@.len(),
    ensures
        match r {
            None => dec_items(n as int, s@.skip(pos as int)) is None,
            Some((vs, np)) => pos <= np <= s@.len() && dec_items(n as int, s@.skip(pos as int))
                == Some((crate::value::row_view(vs@), (np - pos) as int)),
        },
    decreases s@.len() - pos, 1int, n as int,
{
    let mut vals: Vec<DataValue> = Vec::new();
    let mut cur: usize = pos;
    let mut left: u64 = n;
    while left > 0
        invariant
            pos <= cur <= s@.len(),
            left <= n,
            dec_items(n as int, s@.skip(pos as int)) is Some <==> dec_items(
                left as int,
                s@.skip(cur as int),
            ) is Some,
            forall|p2: (Seq<Val>, int)|
                #![trigger p2.0]
                dec_items(left as int, s@.skip(cur as int)) == Some(p2) ==> dec_items(
                    n as int,
                    s@.skip(pos as int),
                ) == Some((crate::value::row_view(vals@) + p2.0, (cur - pos) + p2.1)),
        decreases left,
    {
        let step = decode_value(s, cur);
        match step {
            None => {
                proof {
                    assert(dec_items(left as int, s@.skip(cur as int)) is None);
                }
                return None;
            },
            Some((v, np)) => {
                proof {
                    let scur = s@.skip(cur as int);
                    assert(scur.skip(np - cur) =~= s@.skip(np as int));
                    crate::value::lemma_row_view_push(vals@, v);
                    assert forall|p2: (Seq<Val>, int)|
                        dec_items((left - 1) as int, s@.skip(np as int)) == Some(
                            p2,
                        ) implies dec_items(n as int, s@.skip(pos as int)) == Some(
                        (crate::value::row_view(vals@.push(v)) + p2.0, (np - pos) + p2.1),
                    ) by {
                        let vs2 = p2.0;
                        let m2 = p2.1;
                        assert(p2 == (p2.0, p2.1));
                        assert((left - 1) as int == left as int - 1);
                        assert(dec_val(s@.skip(cur as int)) == Some((v@, (np - cur) as int)));
                        assert(1 <= np - cur <= s@.skip(cur as int).len());
                        assert(dec_items(
                            (left as int) - 1,
                            s@.skip(cur as int).skip((np - cur) as int),
                        ) == Some(p2));
                        assert(dec_items(left as int, s@.skip(cur as int)) == Some(
                            (seq![v@] + vs2, (np - cur) + m2),
                        ));
                        let inst: (Seq<Val>, int) = (seq![v@] + vs2, (np - cur) + m2);
                        assert(dec_items(left as int, s@.skip(cur as int)) == Some(inst));
                        assert(dec_items(n as int, s@.skip(pos as int)) == Some(
                            (crate::value::row_view(vals@) + inst.0, (cur - pos) + inst.1),
                        ));
                        assert(crate::value::row_view(vals@) + (seq![v@] + vs2)
                            =~= crate::value::row_view(vals@).push(v@) + vs2);
                    }
                }
                vals.push(v);
                cur = np;
                left = left - 1;
            },
        }
    }
    proof {
        assert(dec_items(0, s@.skip(cur as int)) == Some((Seq::<Val>::empty(), 0int)));
        let ghost p2: (Seq<Val>, int) = (Seq::<Val>::empty(), 0int);
        assert(dec_items(left as int, s@.skip(cur as int)) == Some(p2));
        assert(dec_items(n as int, s@.skip(pos as int)) == Some(
            (crate::value::row_view(vals@) + p2.0, (cur - pos) + p2.1),
        ));
        assert(crate::value::row_view(vals@) + Seq::<Val>::empty() =~= crate::value::row_view(
            vals@,
        ));
    }
    Some((vals, cur))
}

/// Decodes `n` key-value pairs starting at `pos`.
fn decode_entries(s: &Vec<u8>, pos: usize, n: u64) -> (r: Option<
    (Vec<(DataValue, DataValue)>, usize),
>)
    requires
        pos <= s@.len(),
    ensures
        match r {
            None => dec_entries(n as int, s@.skip(pos as int)) is None,
            Some((prs, np)) => pos <= np <= s@.len() && dec_entries(
                n as int,
                s@.skip(pos as int),
            ) == Some((crate::value::pairs_vv(prs@), (np - pos) as int)),
        },
    decreases s@.len() - pos, 1int, n as int,
{
    let mut out: Vec<(DataValue, DataValue)> = Vec::new();
    let mut cur: usize = pos;
    let mut left: u64 = n;
    while left > 0
        invariant
            pos <= cur <= s@.len(),
            left <= n,
            dec_entries(n as int, s@.skip(pos as int)) is Some <==> dec_entries(
                left as int,
                s@.skip(cur as int),
            ) is Some,
            forall|p2: (Seq<(Val, Val)>, int)|
                #![trigger p2.0]
                dec_entries(left as int, s@.skip(cur as int)) == Some(p2) ==> dec_entries(
                    n as int,
                    s@.skip(pos as int),
                ) == Some((crate::value::pairs_vv(out@) + p2.0, (cur - pos) + p2.1)),
        decreases left,
    {
        let kstep = decode_value(s, cur);
        let (k, nk) = match kstep {
            None => {
                proof {
                    assert(dec_entries(left as int, s@.skip(cur as int)) is None);
                }
                return None;
            },
            Some(p) => p,
        };
        let vstep = decode_value(s, nk);
        match vstep {
            None => {
                proof {
                    let scur = s@.skip(cur as int);
                    assert(scur.skip(nk - cur) =~= s@.skip(nk as int));
                    assert(dec_entries(left as int, s@.skip(cur as int)) is None);
                }
                return None;
            },
            Some((v, nv)) => {
                proof {
                    let scur = s@.skip(cur as int);
                    assert(scur.skip(nk - cur) =~= s@.skip(nk as int));
                    assert(scur.skip((nk - cur) + (nv - nk)) =~= s@.skip(nv as int));
                    let ghost prevout = out@;
                    assert forall|p2: (Seq<(Val, Val)>, int)|
                        dec_entries((left - 1) as int, s@.skip(nv as int)) == Some(
                            p2,
                        ) implies dec_entries(n as int, s@.skip(pos as int)) == Some(
                        (
                            crate::value::pairs_vv(out@.push((k, v))) + p2.0,
                            (nv - pos) + p2.1,
                        ),
                    ) by {
                        let ps2 = p2.0;
                        let m2 = p2.1;
                        assert(p2 == (p2.0, p2.1));
                        assert((left - 1) as int == left as int - 1);
                        assert(dec_val(s@.skip(cur as int)) == Some((k@, (nk - cur) as int)));
                        assert(s@.skip(cur as int).skip((nk - cur) as int) =~= s@.skip(
                            nk as int,
                        ));
                        assert(dec_val(s@.skip(cur as int).skip((nk - cur) as int)) == Some(
                            (v@, (nv - nk) as int),
                        ));
                        assert(s@.skip(cur as int).skip((nk - cur) + (nv - nk)) =~= s@.skip(
                            nv as int,
                        ));
                        assert(dec_entries(
                            (left as int) - 1,
                            s@.skip(cur as int).skip((nk - cur) + (nv - nk)),
                        ) == Some(p2));
                        assert(dec_entries(left as int, s@.skip(cur as int)) == Some(
                            (seq![(k@, v@)] + ps2, ((nk - cur) + (nv - nk)) + m2),
                        ));
                        let inst: (Seq<(Val, Val)>, int) = (
                            seq![(k@, v@)] + ps2,
                            ((nk - cur) + (nv - nk)) + m2,
                        );
                        assert(dec_entries(left as int, s@.skip(cur as int)) == Some(inst));
                        assert(dec_entries(n as int, s@.skip(pos as int)) == Some(
                            (crate::value::pairs_vv(out@) + inst.0, (cur - pos) + inst.1),
                        ));
                        assert forall|j: int|
                            0 <= j < out@.len() + 1 implies #[trigger] crate::value::pairs_vv(
                            out@.push((k, v)),
                        )[j] == (crate::value::pairs_vv(out@).push((k@, v@)))[j] by {
                            if j < out@.len() {
                                assert(out@.push((k, v))[j] == out@[j]);
                            } else {
                                assert(out@.push((k, v))[j] == (k, v));
                            }
                        }
                        assert(crate::value::pairs_vv(out@.push((k, v)))
                            =~= crate::value::pairs_vv(out@).push((k@, v@)));
                        assert(crate::value::pairs_vv(out@) + (seq![(k@, v@)] + ps2)
                            =~= crate::value::pairs_vv(out@).push((k@, v@)) + ps2);
                    }
                }
                out.push((k, v));
                cur = nv;
                left = left - 1;
            },
        }
    }
    proof {
        assert(dec_entries(0, s@.skip(cur as int)) == Some((Seq::<(Val, Val)>::empty(), 0int)));
        let ghost p2: (Seq<(Val, Val)>, int) = (Seq::<(Val, Val)>::empty(), 0int);
        assert(dec_entries(left as int, s@.skip(cur as int)) == Some(p2));
        assert(dec_entries(n as int, s@.skip(pos as int)) == Some(
            (crate::value::pairs_vv(out@) + p2.0, (cur - pos) + p2.1),
        ));
        assert(crate::value::pairs_vv(out@) + Seq::<(Val, Val)>::empty()
            =~= crate::value::pairs_vv(out@));
    }
    Some((out, cur))
}

/// Decodes a whole row from `pos` to the end of the input.
pub fn decode_row(s: &Vec<u8>, pos: usize) -> (r: Option<Tuple>)
    requires
        pos <= s@.len(),
    ensures
        match r {
            None => dec_row(s@.skip(pos as int)) is None,
            Some(t) => dec_row(s@.skip(pos as int)) == Some(t@),
        },
{
    let mut vals: Vec<DataValue> = Vec::new();
    let mut cur: usize = pos;
    while cur < s.len()
        invariant
            pos <= cur <= s@.len(),
            dec_row(s@.skip(pos as int)) is Some <==> dec_row(s@.skip(cur as int)) is Some,
            forall|vs: Seq<Val>|
                dec_row(s@.skip(cur as int)) == Some(vs) ==> dec_row(s@.skip(pos as int)) == Some(
                    crate::value::row_view(vals@) + vs,
                ),
        decreases s@.len() - cur,
    {
        let step = decode_value(s, cur);
        match step {
            None => {
                proof {
                    assert(s@.skip(cur as int).len() > 0);
                    assert(dec_row(s@.skip(cur as int)) is None);
                }
                return None;
            },
            Some((v, np)) => {
                proof {
                    let scur = s@.skip(cur as int);
                    assert(scur.len() > 0);
                    assert(scur.skip(np - cur) =~= s@.skip(np as int));
                    assert(dec_row(scur) == match dec_row(s@.skip(np as int)) {
                        None => None::<Seq<Val>>,
                        Some(vs) => Some(seq![v@] + vs),
                    });
                    assert(crate::value::row_view(vals@.push(v)) =~= crate::value::row_view(
                        vals@,
                    ).push(v@));
                    assert forall|vs: Seq<Val>|
                        dec_row(s@.skip(np as int)) == Some(vs) implies dec_row(
                        s@.skip(pos as int),
                    ) == Some(crate::value::row_view(vals@.push(v)) + vs) by {
                        assert(dec_row(s@.skip(cur as int)) == Some(seq![v@] + vs));
                        assert(crate::value::row_view(vals@) + (seq![v@] + vs) =~= crate::value::row_view(
                            vals@,
                        ).push(v@) + vs);
                    }
                }
                vals.push(v);
                cur = np;
            },
        }
    }
    proof {
        assert(s@.skip(cur as int).len() == 0);
        assert(dec_row(s@.skip(cur as int)) == Some(Seq::<Val>::empty()));
        assert(crate::value::row_view(vals@) + Seq::<Val>::empty() =~= crate::value::row_view(
            vals@,
        ));
    }
    let t = Tuple(vals);
    proof {
        assert(dec_row(s@.skip(pos as int)) == Some(t@));
    }
    Some(t)
}

/// Appending one value to a row appends its encoding.
pub proof fn lemma_enc_row_snoc(vs: Seq<Val>, v: Val)
    ensures
        enc_row(vs.push(v)) == enc_row(vs) + enc_val(v),
    decreases vs.len(),
{
    if vs.len() == 0 {
        reveal_with_fuel(enc_row, 3);
        assert(vs.push(v)[0] == v);
        assert(vs.push(v).drop_first() =~= Seq::<Val>::empty());
        assert(enc_row(vs.push(v)) =~= enc_val(v));
        assert(enc_row(vs) + enc_val(v) =~= enc_val(v));
    } else {
        assert(vs.push(v)[0] == vs[0]);
        assert(vs.push(v).drop_first() =~= vs.drop_first().push(v));
        lemma_enc_row_snoc(vs.drop_first(), v);
        assert(enc_row(vs.push(v)) =~= enc_row(vs) + enc_val(v));
    }
}

} // verus!
