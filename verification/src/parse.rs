//! Parse-back lemmas: for every scalar form the encoder can emit, the wire
//! specification reads the emitted octets back to the encoded value, leaves
//! exactly the appended rest, and does not touch the session state.
//!
//! These lemmas carry the round-trip property of the codec: the encoder's
//! contracts are proved from them.

use vstd::arithmetic::div_mod::{
    lemma_fundamental_div_mod, lemma_mod_breakdown, lemma_mod_multiples_vanish,
};
use vstd::arithmetic::power2::{lemma2_to64, lemma2_to64_rest, lemma_pow2_adds, lemma_pow2_pos};
use vstd::prelude::*;
use vstd::utf8::{decode_utf8, valid_utf8};

use crate::constant::ByteCodecType;
use crate::constant::List as ListTag;
use crate::fbits::{
    bitlen, f5_ok, f5_pick, f64_bits_small_int, i64_to_f64_bits, mul_001_bits, p2,
};
use crate::model::{DState, DeErr, ValView};
use crate::text::{lemma_sd_utf8_walk, lemma_utf8_cut, str_chunks_bytes, utf8_count, utf8_cut};
use crate::wire::{
    be_bytes, be_sint, be_uint, bytes_bytes, date_bytes, dbl_bytes, dbl_tail_bytes, int_bytes,
    lemma_be_bytes_len, lemma_be_sint_bytes, lemma_be_uint_bytes, long_bytes, ref_bytes,
    sd_bin_chunks, sd_string_chunks, sd_value, sint8, to_u, wrap32,
};

verus! {

/// The three-way digit split of an integer by two byte positions.
proof fn lemma_split3(v: int)
    ensures
        v == (v / 0x1_0000) * 0x1_0000 + ((v / 256) % 256) * 256 + v % 256,
{
    lemma_fundamental_div_mod(v, 0x1_0000);
    let u = v % 0x1_0000;
    let q = v / 0x1_0000;
    lemma_fundamental_div_mod(u, 256);
    assert(0 <= u % 256 < 256);
    assert(v == 256 * (256 * q + u / 256) + u % 256) by (nonlinear_arith)
        requires
            v == 0x1_0000 * q + u,
            u == 256 * (u / 256) + u % 256,
    ;
    vstd::arithmetic::div_mod::lemma_div_multiples_vanish_fancy(256 * q + u / 256, u % 256, 256);
    assert(v / 256 == 256 * q + u / 256);
    lemma_mod_multiples_vanish(256 * q + u / 256, u % 256, 256);
    assert(v % 256 == (u % 256) % 256);
    vstd::arithmetic::div_mod::lemma_small_mod((u % 256) as nat, 256);
    lemma_mod_multiples_vanish(q, u / 256, 256);
    assert((v / 256) % 256 == (u / 256) % 256);
    assert(0 <= u / 256 < 256) by (nonlinear_arith)
        requires
            0 <= u < 0x1_0000,
    ;
    vstd::arithmetic::div_mod::lemma_small_mod((u / 256) as nat, 256);
    lemma_mod_breakdown(u, 256, 256);
}

/// A one-octet encoding parses back.
pub proof fn lemma_parse_simple(tag: u8, v: ValView, rest: Seq<u8>, st: DState)
    requires
        tag == 0x4e && v == ValView::Null || tag == 0x54 && v == ValView::Bool(true) || tag == 0x46
            && v == ValView::Bool(false),
    ensures
        sd_value(seq![tag] + rest, st) == Ok::<(ValView, Seq<u8>, DState), DeErr>((v, rest, st)),
{
    let b = seq![tag] + rest;
    assert(b[0] == tag);
    assert(b.skip(1) =~= rest);
}

/// The int encoding parses back.
pub proof fn lemma_parse_int(v: int, rest: Seq<u8>, st: DState)
    requires
        -0x8000_0000 <= v <= 0x7fff_ffff,
    ensures
        sd_value(int_bytes(v) + rest, st) == Ok::<(ValView, Seq<u8>, DState), DeErr>(
            (ValView::Int(v), rest, st),
        ),
{
    let e = int_bytes(v);
    let b = e + rest;
    lemma2_to64();
    if -16 <= v <= 47 {
        assert(b[0] == (v + 0x90) as u8);
        assert(b.skip(1) =~= rest);
    } else if -2048 <= v <= 2047 {
        lemma_fundamental_div_mod(v, 256);
        assert(-8 <= v / 256 <= 7) by (nonlinear_arith)
            requires
                -2048 <= v <= 2047,
                v == 256 * (v / 256) + v % 256,
                0 <= v % 256 < 256,
        ;
        assert(b[0] == (0xc8 + v / 256) as u8);
        assert(b[1] == (v % 256) as u8);
        assert(b.skip(1)[0] == b[1]);
        assert(b.skip(1).skip(1) =~= rest);
    } else if -262144 <= v <= 262143 {
        lemma_split3(v);
        lemma_fundamental_div_mod(v, 0x1_0000);
        assert(-4 <= v / 0x1_0000 <= 3) by (nonlinear_arith)
            requires
                -262144 <= v <= 262143,
                v == 0x1_0000 * (v / 0x1_0000) + v % 0x1_0000,
                0 <= v % 0x1_0000 < 0x1_0000,
        ;
        assert(b[0] == (0xd4 + v / 0x1_0000) as u8);
        assert(b[1] == ((v / 256) % 256) as u8);
        assert(b[2] == (v % 256) as u8);
        assert(b.skip(1)[0] == b[1]);
        assert(b.skip(1)[1] == b[2]);
        assert(b.skip(1).skip(2) =~= rest);
    } else {
        lemma_be_bytes_len(to_u(v, 4), 4);
        assert(b[0] == 0x49);
        assert(b.skip(1).take(4) =~= be_bytes(to_u(v, 4), 4));
        lemma_be_sint_bytes(v, 4);
        lemma_pow2_adds(24, 7);
        assert(p2(24) * 128 == p2(31));
        assert(b.skip(1).skip(4) =~= rest);
    }
}

/// The long encoding parses back.
pub proof fn lemma_parse_long(v: int, rest: Seq<u8>, st: DState)
    requires
        -0x8000_0000_0000_0000 <= v <= 0x7fff_ffff_ffff_ffff,
    ensures
        sd_value(long_bytes(v) + rest, st) == Ok::<(ValView, Seq<u8>, DState), DeErr>(
            (ValView::Long(v), rest, st),
        ),
{
    let e = long_bytes(v);
    let b = e + rest;
    lemma2_to64();
    lemma2_to64_rest();
    if -8 <= v <= 15 {
        assert(b[0] == (v + 0xe0) as u8);
        assert(b.skip(1) =~= rest);
    } else if -2048 <= v <= 2047 {
        lemma_fundamental_div_mod(v, 256);
        assert(-8 <= v / 256 <= 7) by (nonlinear_arith)
            requires
                -2048 <= v <= 2047,
                v == 256 * (v / 256) + v % 256,
                0 <= v % 256 < 256,
        ;
        assert(b[0] == (0xf8 + v / 256) as u8);
        assert(b[1] == (v % 256) as u8);
        assert(b.skip(1)[0] == b[1]);
        assert(b.skip(1).skip(1) =~= rest);
    } else if -262144 <= v <= 262143 {
        lemma_split3(v);
        lemma_fundamental_div_mod(v, 0x1_0000);
        assert(-4 <= v / 0x1_0000 <= 3) by (nonlinear_arith)
            requires
                -262144 <= v <= 262143,
                v == 0x1_0000 * (v / 0x1_0000) + v % 0x1_0000,
                0 <= v % 0x1_0000 < 0x1_0000,
        ;
        assert(b[0] == (0x3c + v / 0x1_0000) as u8);
        assert(b[1] == ((v / 256) % 256) as u8);
        assert(b[2] == (v % 256) as u8);
        assert(b.skip(1)[0] == b[1]);
        assert(b.skip(1)[1] == b[2]);
        assert(b.skip(1).skip(2) =~= rest);
    } else if -0x8000_0000 <= v <= 0x7fff_ffff {
        lemma_be_bytes_len(to_u(v, 4), 4);
        assert(b[0] == 0x59);
        assert(b.skip(1).take(4) =~= be_bytes(to_u(v, 4), 4));
        lemma_be_sint_bytes(v, 4);
        lemma_pow2_adds(24, 7);
        assert(p2(24) * 128 == p2(31));
        assert(b.skip(1).skip(4) =~= rest);
    } else {
        lemma_be_bytes_len(to_u(v, 8), 8);
        assert(b[0] == 0x4c);
        assert(b.skip(1).take(8) =~= be_bytes(to_u(v, 8), 8));
        lemma_be_sint_bytes(v, 8);
        lemma_pow2_adds(56, 7);
        assert(p2(56) * 128 == p2(63));
        assert(b.skip(1).skip(8) =~= rest);
    }
}

/// The date encoding parses back.
pub proof fn lemma_parse_date(ms: int, rest: Seq<u8>, st: DState)
    requires
        -0x8000_0000_0000_0000 <= ms <= 0x7fff_ffff_ffff_ffff,
    ensures
        sd_value(date_bytes(ms) + rest, st) == Ok::<(ValView, Seq<u8>, DState), DeErr>(
            (ValView::Date(ms), rest, st),
        ),
{
    let b = date_bytes(ms) + rest;
    lemma2_to64();
    lemma2_to64_rest();
    lemma_be_bytes_len(to_u(ms, 8), 8);
    assert(b[0] == 0x4a);
    assert(b.skip(1).take(8) =~= be_bytes(to_u(ms, 8), 8));
    lemma_be_sint_bytes(ms, 8);
    lemma_pow2_adds(56, 7);
    assert(p2(56) * 128 == p2(63));
    assert(b.skip(1).skip(8) =~= rest);
}

/// The back-reference encoding parses back.
pub proof fn lemma_parse_ref(u: int, rest: Seq<u8>, st: DState)
    requires
        0 <= u <= 0xffff_ffff,
    ensures
        sd_value(ref_bytes(u) + rest, st) == Ok::<(ValView, Seq<u8>, DState), DeErr>(
            (ValView::Ref(u), rest, st),
        ),
{
    let sv = if u >= 0x8000_0000 {
        u - 0x1_0000_0000
    } else {
        u
    };
    let b = ref_bytes(u) + rest;
    assert(b =~= seq![0x51u8] + (int_bytes(sv) + rest));
    assert(b[0] == 0x51);
    assert(b.skip(1) =~= int_bytes(sv) + rest);
    lemma_parse_int(sv, rest, st);
    assert(wrap32(sv) == u);
    assert(sd_value(b.skip(1), st) == Ok::<(ValView, Seq<u8>, DState), DeErr>(
        (ValView::Int(sv), rest, st),
    ));
    assert(crate::wire::sd_ref(b.skip(1), st) == Ok::<(ValView, Seq<u8>, DState), DeErr>(
        (ValView::Ref(wrap32(sv)), rest, st),
    ));
    assert(sd_value(b, st) == crate::wire::sd_ref(b.skip(1), st));
}

/// The bit pattern of the integer one.
proof fn lemma_one_bits()
    ensures
        i64_to_f64_bits(1) == 0x3ff0_0000_0000_0000u64,
{
    lemma2_to64();
    lemma2_to64_rest();
    assert(bitlen(1) == 1) by {
        assert(bitlen(0nat) == 0);
    }
    assert(1 * p2(52) == p2(52)) by (nonlinear_arith);
}

/// A pattern whose small integer is zero is the zero pattern.
proof fn lemma_small_zero(bits: u64)
    requires
        f64_bits_small_int(bits) == Some(0int),
    ensures
        bits == 0,
{
    lemma2_to64();
    lemma2_to64_rest();
    if bits != 0 {
        let mag = (bits as int) % p2(63);
        let ef = mag / p2(52);
        let m = mag % p2(52);
        if 1023 <= ef <= 1053 {
            let e = ef - 1023;
            if m % p2(52 - e) == 0 {
                lemma_pow2_pos((52 - e) as nat);
                assert(p2(52 - e) <= p2(52)) by {
                    if 52 - e < 52 {
                        vstd::arithmetic::power2::lemma_pow2_strictly_increases(
                            (52 - e) as nat,
                            52,
                        );
                    }
                }
                assert((p2(52) + m) / p2(52 - e) >= 1) by (nonlinear_arith)
                    requires
                        p2(52) + m >= p2(52 - e),
                        p2(52 - e) > 0,
                ;
            }
        }
        assert(false);
    }
}

/// The double encoding parses back, bit for bit.
#[verifier::rlimit(50)]
pub proof fn lemma_parse_double(bits: u64, rest: Seq<u8>, st: DState)
    ensures
        sd_value(dbl_bytes(bits) + rest, st) == Ok::<(ValView, Seq<u8>, DState), DeErr>(
            (ValView::Double(bits), rest, st),
        ),
{
    lemma2_to64();
    lemma2_to64_rest();
    let small = f64_bits_small_int(bits);
    if small matches Some(n) && i64_to_f64_bits(n) == bits && -32768 <= n <= 32767 {
        let n = small.unwrap();
        if n == 0 {
            lemma_small_zero(bits);
            let b = dbl_bytes(bits) + rest;
            assert(b[0] == 0x5b);
            assert(b.skip(1) =~= rest);
        } else if n == 1 {
            lemma_one_bits();
            let b = dbl_bytes(bits) + rest;
            assert(b[0] == 0x5c);
            assert(b.skip(1) =~= rest);
        } else if -128 <= n <= 127 {
            let b = dbl_bytes(bits) + rest;
            assert(b[0] == 0x5d);
            assert(b[1] == (to_u(n, 1)) as u8);
            assert(sint8((to_u(n, 1)) as u8) == n);
            assert(b.skip(1)[0] == b[1]);
            assert(b.skip(1).skip(1) =~= rest);
        } else {
            let b = dbl_bytes(bits) + rest;
            assert(b[0] == 0x5e);
            lemma_be_bytes_len(to_u(n, 2), 2);
            assert(b.skip(1).take(2) =~= be_bytes(to_u(n, 2), 2));
            lemma_be_sint_bytes(n, 2);
            lemma_pow2_adds(8, 7);
            assert(p2(8) * 128 == p2(15));
            assert(b.skip(1).skip(2) =~= rest);
        }
    } else {
        lemma_parse_double_tail(bits, rest, st);
    }
}

/// The two fallback double forms parse back.
proof fn lemma_parse_double_tail(bits: u64, rest: Seq<u8>, st: DState)
    ensures
        sd_value(dbl_tail_bytes(bits) + rest, st) == Ok::<(ValView, Seq<u8>, DState), DeErr>(
            (ValView::Double(bits), rest, st),
        ),
{
    lemma2_to64();
    lemma2_to64_rest();
    match f5_pick(bits) {
        Some(c) => {
            assert(f5_ok(bits, c));
            let b = dbl_tail_bytes(bits) + rest;
            assert(b[0] == 0x5f);
            lemma_be_bytes_len(to_u(c, 4), 4);
            assert(b.skip(1).take(4) =~= be_bytes(to_u(c, 4), 4));
            lemma_be_sint_bytes(c, 4);
            lemma_pow2_adds(24, 7);
            assert(p2(24) * 128 == p2(31));
            assert(b.skip(1).skip(4) =~= rest);
            assert(mul_001_bits(c) == bits);
        },
        None => {
            let b = dbl_tail_bytes(bits) + rest;
            assert(b[0] == 0x44);
            lemma_be_bytes_len(bits as int, 8);
            assert(b.skip(1).take(8) =~= be_bytes(bits as int, 8));
            lemma_be_uint_bytes(bits as int, 8);
            lemma_pow2_adds(56, 8);
            assert(p2(64) == p2(56) * 256);
            assert(b.skip(1).skip(8) =~= rest);
        },
    }
}

/// The byte-string encoding parses back.
pub proof fn lemma_parse_bytes(p: Seq<u8>, rest: Seq<u8>, st: DState)
    ensures
        sd_value(bytes_bytes(p) + rest, st) == Ok::<(ValView, Seq<u8>, DState), DeErr>(
            (ValView::Bytes(p), rest, st),
        ),
{
    let e = bytes_bytes(p);
    let b = e + rest;
    lemma_bin_chunks_parse(p, rest);
    if p.len() < 16 {
        assert(b[0] == (0x20 + p.len()) as u8);
    } else if p.len() <= 0xffff {
        assert(b[0] == 0x42);
    } else {
        assert(b[0] == 0x41);
    }
    assert(b.skip(1) =~= e.skip(1) + rest);
}

/// The chunk chain of a byte string parses back, whatever follows.
proof fn lemma_bin_chunks_parse(p: Seq<u8>, rest: Seq<u8>)
    ensures
        bytes_bytes(p).len() >= 1,
        sd_bin_chunks(bytes_bytes(p)[0], bytes_bytes(p).skip(1) + rest) == Ok::<
            (Seq<u8>, Seq<u8>),
            DeErr,
        >((p, rest)),
    decreases p.len(),
{
    lemma2_to64();
    let e = bytes_bytes(p);
    let t = e.skip(1) + rest;
    if p.len() < 16 {
        assert(e[0] == (0x20 + p.len()) as u8);
        assert(t =~= p + rest);
        assert(t.take(p.len() as int) =~= p);
        assert(t.skip(p.len() as int) =~= rest);
    } else if p.len() <= 0xffff {
        assert(e[0] == 0x42);
        lemma_be_bytes_len(p.len() as int, 2);
        assert(t =~= be_bytes(p.len() as int, 2) + p + rest);
        assert(t.take(2) =~= be_bytes(p.len() as int, 2));
        lemma_be_uint_bytes(p.len() as int, 2);
        assert(t.skip(2) =~= p + rest);
        assert(t.skip(2).take(p.len() as int) =~= p);
        assert(t.skip(2).skip(p.len() as int) =~= rest);
    } else {
        assert(e[0] == 0x41);
        let head = p.take(0xffff);
        let tail = p.skip(0xffff);
        let e2 = bytes_bytes(tail);
        lemma_bin_chunks_parse(tail, rest);
        lemma_be_bytes_len(0xffff, 2);
        assert(t =~= be_bytes(0xffff, 2) + head + e2 + rest);
        assert(t.take(2) =~= be_bytes(0xffff, 2));
        lemma_be_uint_bytes(0xffff, 2);
        assert(t.skip(2) =~= head + (e2 + rest));
        assert(t.skip(2).take(0xffff) =~= head);
        assert(t.skip(2).skip(0xffff) =~= e2 + rest);
        let r = e2 + rest;
        assert(r.len() >= 1);
        assert(r[0] == e2[0]);
        assert(r.skip(1) =~= e2.skip(1) + rest);
        assert(r.skip(1).len() < t.len());
        assert(head + tail =~= p);
    }
}

/// The string encoding parses back: the chunk chain yields exactly the
/// UTF-8 payload, whatever follows.
pub proof fn lemma_str_chunks_parse(p: Seq<u8>, rest: Seq<u8>)
    requires
        valid_utf8(p),
    ensures
        str_chunks_bytes(p).len() >= 1,
        sd_string_chunks(str_chunks_bytes(p)[0], str_chunks_bytes(p).skip(1) + rest) == Ok::<
            (Seq<u8>, Seq<u8>),
            DeErr,
        >((p, rest)),
    decreases p.len(),
{
    lemma2_to64();
    let e = str_chunks_bytes(p);
    let t = e.skip(1) + rest;
    let n = utf8_count(p);
    if n > 0x7fff {
        lemma_utf8_cut(p, 0x7fff);
        let cut = utf8_cut(p, 0x7fff);
        let head = p.take(cut);
        let tail = p.skip(cut);
        let e2 = str_chunks_bytes(tail);
        lemma_str_chunks_parse(tail, rest);
        lemma_be_bytes_len(0x7fff, 2);
        assert(e[0] == 0x52);
        assert(t =~= be_bytes(0x7fff, 2) + head + e2 + rest);
        assert(t.take(2) =~= be_bytes(0x7fff, 2));
        lemma_be_uint_bytes(0x7fff, 2);
        assert(t.skip(2) =~= head + (e2 + rest));
        lemma_sd_utf8_walk(head, e2 + rest);
        let r = e2 + rest;
        assert(r.len() >= 1);
        assert(r[0] == e2[0]);
        assert(r.skip(1) =~= e2.skip(1) + rest);
        assert(r.skip(1).len() < t.len());
        assert(head + tail =~= p);
    } else if n <= 31 {
        assert(e[0] == n as u8);
        assert(t =~= p + rest);
        lemma_sd_utf8_walk(p, rest);
    } else if n <= 1023 {
        assert(e[0] == (0x30 + n / 256) as u8);
        assert(0x30 <= e[0] <= 0x33) by {
            assert(n / 256 <= 3) by (nonlinear_arith)
                requires
                    n <= 1023,
            ;
        }
        assert(t =~= seq![(n % 256) as u8] + p + rest);
        assert(t[0] == (n % 256) as u8);
        assert(t.skip(1) =~= p + rest);
        assert((e[0] - 0x30) * 256 + t[0] == n) by {
            lemma_fundamental_div_mod(n as int, 256);
        }
        lemma_sd_utf8_walk(p, rest);
    } else {
        assert(e[0] == 0x53);
        lemma_be_bytes_len(n as int, 2);
        assert(t =~= be_bytes(n as int, 2) + p + rest);
        assert(t.take(2) =~= be_bytes(n as int, 2));
        lemma_be_uint_bytes(n as int, 2);
        assert(t.skip(2) =~= p + rest);
        lemma_sd_utf8_walk(p, rest);
    }
}

/// The string encoding parses back to the decoded characters.
pub proof fn lemma_parse_string(p: Seq<u8>, rest: Seq<u8>, st: DState)
    requires
        valid_utf8(p),
    ensures
        sd_value(str_chunks_bytes(p) + rest, st) == Ok::<(ValView, Seq<u8>, DState), DeErr>(
            (ValView::Str(decode_utf8(p)), rest, st),
        ),
{
    lemma_str_chunks_parse(p, rest);
    let e = str_chunks_bytes(p);
    let b = e + rest;
    let n = utf8_count(p);
    assert(b[0] == e[0]);
    assert(b.skip(1) =~= e.skip(1) + rest);
    if n > 0x7fff {
        assert(e[0] == 0x52);
    } else if n <= 31 {
        assert(e[0] == n as u8);
        assert(e[0] <= 0x1f);
    } else if n <= 1023 {
        assert(0x30 <= e[0] <= 0x33) by {
            assert(n / 256 <= 3) by (nonlinear_arith)
                requires
                    n <= 1023,
            ;
        }
    } else {
        assert(e[0] == 0x53);
    }
}

/// The first index of a name in a table, or a negative value.
pub open spec fn find_str(types: Seq<Seq<char>>, t: Seq<char>) -> int
    decreases types.len(),
{
    if types.len() == 0 {
        -1
    } else if types[0] == t {
        0
    } else {
        let r = find_str(types.skip(1), t);
        if r < 0 {
            -1
        } else {
            1 + r
        }
    }
}

/// What a found index points at, and what absence means.
pub proof fn lemma_find_str_props(types: Seq<Seq<char>>, t: Seq<char>)
    ensures
        find_str(types, t) >= 0 ==> find_str(types, t) < types.len() && types[find_str(types, t)]
            == t,
    decreases types.len(),
{
    if types.len() > 0 && types[0] != t {
        lemma_find_str_props(types.skip(1), t);
    }
}

/// A first match at `j` is what the search finds.
pub proof fn lemma_find_str_at(types: Seq<Seq<char>>, t: Seq<char>, j: int)
    requires
        0 <= j < types.len(),
        types[j] == t,
        forall|m: int| 0 <= m < j ==> types[m] != t,
    ensures
        find_str(types, t) == j,
    decreases j,
{
    if j > 0 {
        assert(types.skip(1)[j - 1] == t);
        assert forall|m: int| 0 <= m < j - 1 implies types.skip(1)[m] != t by {
            assert(types.skip(1)[m] == types[m + 1]);
        }
        lemma_find_str_at(types.skip(1), t, j - 1);
    }
}

/// No match anywhere means the search fails.
pub proof fn lemma_find_str_none(types: Seq<Seq<char>>, t: Seq<char>)
    requires
        forall|m: int| 0 <= m < types.len() ==> types[m] != t,
    ensures
        find_str(types, t) < 0,
    decreases types.len(),
{
    if types.len() > 0 {
        assert forall|m: int| 0 <= m < types.len() - 1 implies types.skip(1)[m] != t by {
            assert(types.skip(1)[m] == types[m + 1]);
        }
        lemma_find_str_none(types.skip(1), t);
    }
}

/// The octets `write_type` emits for a type name given the current cache.
pub open spec fn wtype_bytes(types: Seq<Seq<char>>, t: Seq<char>) -> Seq<u8> {
    let i = find_str(types, t);
    if 0 <= i <= 0x7fff_ffff {
        int_bytes(i)
    } else {
        str_chunks_bytes(vstd::utf8::encode_utf8(t))
    }
}

/// The cache after `write_type` emits a type name.
pub open spec fn wtype_types(types: Seq<Seq<char>>, t: Seq<char>) -> Seq<Seq<char>> {
    let i = find_str(types, t);
    if 0 <= i <= 0x7fff_ffff {
        types
    } else {
        types.push(t)
    }
}

/// The octets `write_type` emits parse back as a type name that resolves to
/// the name itself, with the decoder's table tracking the encoder's cache.
pub proof fn lemma_parse_wtype(t: Seq<char>, rest: Seq<u8>, st: DState)
    ensures
        crate::wire::sd_type(wtype_bytes(st.types, t) + rest, st) == Ok::<
            (Seq<char>, Seq<u8>, DState),
            DeErr,
        >((t, rest, (DState { types: wtype_types(st.types, t), defs: st.defs }))),
{
    let i = find_str(st.types, t);
    lemma_find_str_props(st.types, t);
    if 0 <= i <= 0x7fff_ffff {
        lemma_parse_int(i, rest, st);
        assert(st == (DState { types: st.types, defs: st.defs }));
    } else {
        let p = vstd::utf8::encode_utf8(t);
        vstd::utf8::encode_utf8_valid_utf8(t);
        lemma_parse_string(p, rest, st);
        vstd::utf8::encode_utf8_decode_utf8(t);
    }
}

/// A short typed list header, a type name, and element octets that parse
/// one by one compose to a parse of the whole list.
#[verifier::rlimit(100)]
pub proof fn lemma_compose_list_typed_short(
    st0: DState,
    st1: DState,
    stf: DState,
    t: Seq<char>,
    n: int,
    hd: Seq<u8>,
    ed: Seq<u8>,
    vs: Seq<ValView>,
)
    requires
        0 <= n <= 7,
        st1 == (DState { types: wtype_types(st0.types, t), defs: st0.defs }),
        hd == seq![(0x70 + n) as u8] + wtype_bytes(st0.types, t),
        forall|q: Seq<u8>| #[trigger] crate::wire::sd_vals_n(n as nat, ed + q, st1) == Ok::<
            (Seq<ValView>, Seq<u8>, DState),
            DeErr,
        >((vs, q, stf)),
    ensures
        forall|q: Seq<u8>| #[trigger] sd_value((hd + ed) + q, st0) == Ok::<
            (ValView, Seq<u8>, DState),
            DeErr,
        >((ValView::List(Some(t), vs), q, stf)),
{
    assert forall|q: Seq<u8>| #[trigger] sd_value((hd + ed) + q, st0) == Ok::<
        (ValView, Seq<u8>, DState),
        DeErr,
    >((ValView::List(Some(t), vs), q, stf)) by {
        let b = (hd + ed) + q;
        assert(crate::wire::sd_vals_n(n as nat, ed + q, st1) == Ok::<
            (Seq<ValView>, Seq<u8>, DState),
            DeErr,
        >((vs, q, stf)));
        assert(b =~= seq![(0x70 + n) as u8] + (wtype_bytes(st0.types, t) + (ed + q)));
        assert(b[0] == (0x70 + n) as u8);
        assert(b.skip(1) =~= wtype_bytes(st0.types, t) + (ed + q));
        lemma_parse_wtype(t, ed + q, st0);
        assert(crate::wire::sd_type(b.skip(1), st0) == Ok::<
            (Seq<char>, Seq<u8>, DState),
            DeErr,
        >((t, ed + q, st1)));
        assert(ByteCodecType::spec_from(b[0]) == ByteCodecType::List(
            ListTag::ShortFixedLength(true, n as usize),
        ));
        assert(crate::wire::sd_list(
            ListTag::ShortFixedLength(true, n as usize),
            b.skip(1),
            st0,
        ) == Ok::<(ValView, Seq<u8>, DState), DeErr>((ValView::List(Some(t), vs), q, stf)));
        assert(sd_value(b, st0) == crate::wire::sd_list(
            ListTag::ShortFixedLength(true, n as usize),
            b.skip(1),
            st0,
        ));
    }
}

/// A long typed list header, a type name, a length, and element octets
/// that parse one by one compose to a parse of the whole list.
#[verifier::rlimit(100)]
pub proof fn lemma_compose_list_typed_long(
    st0: DState,
    st1: DState,
    stf: DState,
    t: Seq<char>,
    n: int,
    hd: Seq<u8>,
    ed: Seq<u8>,
    vs: Seq<ValView>,
)
    requires
        7 < n <= 0x7fff_ffff,
        st1 == (DState { types: wtype_types(st0.types, t), defs: st0.defs }),
        hd == seq![0x56u8] + wtype_bytes(st0.types, t) + int_bytes(n),
        forall|q: Seq<u8>| #[trigger] crate::wire::sd_vals_n(n as nat, ed + q, st1) == Ok::<
            (Seq<ValView>, Seq<u8>, DState),
            DeErr,
        >((vs, q, stf)),
    ensures
        forall|q: Seq<u8>| #[trigger] sd_value((hd + ed) + q, st0) == Ok::<
            (ValView, Seq<u8>, DState),
            DeErr,
        >((ValView::List(Some(t), vs), q, stf)),
{
    assert forall|q: Seq<u8>| #[trigger] sd_value((hd + ed) + q, st0) == Ok::<
        (ValView, Seq<u8>, DState),
        DeErr,
    >((ValView::List(Some(t), vs), q, stf)) by {
        let b = (hd + ed) + q;
        assert(crate::wire::sd_vals_n(n as nat, ed + q, st1) == Ok::<
            (Seq<ValView>, Seq<u8>, DState),
            DeErr,
        >((vs, q, stf)));
        assert(b =~= seq![0x56u8] + (wtype_bytes(st0.types, t) + (int_bytes(n) + (ed + q))));
        assert(b[0] == 0x56);
        assert(b.skip(1) =~= wtype_bytes(st0.types, t) + (int_bytes(n) + (ed + q)));
        lemma_parse_wtype(t, int_bytes(n) + (ed + q), st0);
        assert(crate::wire::sd_type(b.skip(1), st0) == Ok::<
            (Seq<char>, Seq<u8>, DState),
            DeErr,
        >((t, int_bytes(n) + (ed + q), st1)));
        lemma_parse_int(n, ed + q, st1);
        assert(crate::wire::wrap_len(n) == n);
        assert(ByteCodecType::spec_from(b[0]) == ByteCodecType::List(ListTag::FixedLength(true)));
        assert(crate::wire::sd_list(ListTag::FixedLength(true), b.skip(1), st0) == Ok::<
            (ValView, Seq<u8>, DState),
            DeErr,
        >((ValView::List(Some(t), vs), q, stf)));
        assert(sd_value(b, st0) == crate::wire::sd_list(
            ListTag::FixedLength(true),
            b.skip(1),
            st0,
        ));
    }
}

/// A short untyped list header and element octets that parse one by one
/// compose to a parse of the whole list.
#[verifier::rlimit(100)]
pub proof fn lemma_compose_list_untyped_short(
    st0: DState,
    stf: DState,
    n: int,
    hd: Seq<u8>,
    ed: Seq<u8>,
    vs: Seq<ValView>,
)
    requires
        0 <= n <= 7,
        hd == seq![(0x78 + n) as u8],
        forall|q: Seq<u8>| #[trigger] crate::wire::sd_vals_n(n as nat, ed + q, st0) == Ok::<
            (Seq<ValView>, Seq<u8>, DState),
            DeErr,
        >((vs, q, stf)),
    ensures
        forall|q: Seq<u8>| #[trigger] sd_value((hd + ed) + q, st0) == Ok::<
            (ValView, Seq<u8>, DState),
            DeErr,
        >((ValView::List(None, vs), q, stf)),
{
    assert forall|q: Seq<u8>| #[trigger] sd_value((hd + ed) + q, st0) == Ok::<
        (ValView, Seq<u8>, DState),
        DeErr,
    >((ValView::List(None, vs), q, stf)) by {
        let b = (hd + ed) + q;
        assert(crate::wire::sd_vals_n(n as nat, ed + q, st0) == Ok::<
            (Seq<ValView>, Seq<u8>, DState),
            DeErr,
        >((vs, q, stf)));
        assert(b =~= seq![(0x78 + n) as u8] + (ed + q));
        assert(b[0] == (0x78 + n) as u8);
        assert(b.skip(1) =~= ed + q);
        assert(ByteCodecType::spec_from(b[0]) == ByteCodecType::List(
            ListTag::ShortFixedLength(false, n as usize),
        ));
        assert(crate::wire::sd_list(
            ListTag::ShortFixedLength(false, n as usize),
            b.skip(1),
            st0,
        ) == Ok::<(ValView, Seq<u8>, DState), DeErr>((ValView::List(None, vs), q, stf)));
        assert(sd_value(b, st0) == crate::wire::sd_list(
            ListTag::ShortFixedLength(false, n as usize),
            b.skip(1),
            st0,
        ));
    }
}

/// A long untyped list header, a length, and element octets that parse one
/// by one compose to a parse of the whole list.
#[verifier::rlimit(100)]
pub proof fn lemma_compose_list_untyped_long(
    st0: DState,
    stf: DState,
    n: int,
    hd: Seq<u8>,
    ed: Seq<u8>,
    vs: Seq<ValView>,
)
    requires
        7 < n <= 0x7fff_ffff,
        hd == seq![0x58u8] + int_bytes(n),
        forall|q: Seq<u8>| #[trigger] crate::wire::sd_vals_n(n as nat, ed + q, st0) == Ok::<
            (Seq<ValView>, Seq<u8>, DState),
            DeErr,
        >((vs, q, stf)),
    ensures
        forall|q: Seq<u8>| #[trigger] sd_value((hd + ed) + q, st0) == Ok::<
            (ValView, Seq<u8>, DState),
            DeErr,
        >((ValView::List(None, vs), q, stf)),
{
    assert forall|q: Seq<u8>| #[trigger] sd_value((hd + ed) + q, st0) == Ok::<
        (ValView, Seq<u8>, DState),
        DeErr,
    >((ValView::List(None, vs), q, stf)) by {
        let b = (hd + ed) + q;
        assert(crate::wire::sd_vals_n(n as nat, ed + q, st0) == Ok::<
            (Seq<ValView>, Seq<u8>, DState),
            DeErr,
        >((vs, q, stf)));
        assert(b =~= seq![0x58u8] + (int_bytes(n) + (ed + q)));
        assert(b[0] == 0x58);
        assert(b.skip(1) =~= int_bytes(n) + (ed + q));
        lemma_parse_int(n, ed + q, st0);
        assert(crate::wire::wrap_len(n) == n);
        assert(ByteCodecType::spec_from(b[0]) == ByteCodecType::List(ListTag::FixedLength(false)));
        assert(crate::wire::sd_list(ListTag::FixedLength(false), b.skip(1), st0) == Ok::<
            (ValView, Seq<u8>, DState),
            DeErr,
        >((ValView::List(None, vs), q, stf)));
        assert(sd_value(b, st0) == crate::wire::sd_list(
            ListTag::FixedLength(false),
            b.skip(1),
            st0,
        ));
    }
}

/// A map header, a type name, pair octets that parse two by two, and the
/// terminator compose to a parse of the whole typed map.
#[verifier::rlimit(100)]
pub proof fn lemma_compose_map_typed(
    st0: DState,
    st1: DState,
    stf: DState,
    t: Seq<char>,
    pd: Seq<u8>,
    ps: Seq<(ValView, ValView)>,
)
    requires
        crate::model::distinct_keys(ps),
        st1 == (DState { types: wtype_types(st0.types, t), defs: st0.defs }),
        forall|q: Seq<u8>| #[trigger] crate::wire::sd_pairs_z(pd + (seq![0x5au8] + q), st1)
            == Ok::<(Seq<(ValView, ValView)>, Seq<u8>, DState), DeErr>((ps, q, stf)),
    ensures
        forall|q: Seq<u8>| #[trigger] sd_value(
            (seq![0x4du8] + wtype_bytes(st0.types, t) + pd + seq![0x5au8]) + q,
            st0,
        ) == Ok::<(ValView, Seq<u8>, DState), DeErr>((ValView::Dict(Some(t), ps), q, stf)),
{
    assert forall|q: Seq<u8>| #[trigger] sd_value(
        (seq![0x4du8] + wtype_bytes(st0.types, t) + pd + seq![0x5au8]) + q,
        st0,
    ) == Ok::<(ValView, Seq<u8>, DState), DeErr>((ValView::Dict(Some(t), ps), q, stf)) by {
        let b = (seq![0x4du8] + wtype_bytes(st0.types, t) + pd + seq![0x5au8]) + q;
        assert(crate::wire::sd_pairs_z(pd + (seq![0x5au8] + q), st1) == Ok::<
            (Seq<(ValView, ValView)>, Seq<u8>, DState),
            DeErr,
        >((ps, q, stf)));
        crate::model::lemma_dedup_id(ps);
        assert(b =~= seq![0x4du8] + (wtype_bytes(st0.types, t) + (pd + (seq![0x5au8] + q))));
        assert(b[0] == 0x4d);
        assert(b.skip(1) =~= wtype_bytes(st0.types, t) + (pd + (seq![0x5au8] + q)));
        lemma_parse_wtype(t, pd + (seq![0x5au8] + q), st0);
        assert(crate::wire::sd_type(b.skip(1), st0) == Ok::<
            (Seq<char>, Seq<u8>, DState),
            DeErr,
        >((t, pd + (seq![0x5au8] + q), st1)));
        assert(ByteCodecType::spec_from(b[0]) == ByteCodecType::Dict(true));
        assert(crate::wire::sd_dict(true, b.skip(1), st0) == Ok::<
            (ValView, Seq<u8>, DState),
            DeErr,
        >((ValView::Dict(Some(t), ps), q, stf)));
        assert(sd_value(b, st0) == crate::wire::sd_dict(true, b.skip(1), st0));
    }
}

/// A map header, pair octets that parse two by two, and the terminator
/// compose to a parse of the whole untyped map.
pub proof fn lemma_compose_map_untyped(
    st0: DState,
    stf: DState,
    pd: Seq<u8>,
    ps: Seq<(ValView, ValView)>,
)
    requires
        crate::model::distinct_keys(ps),
        forall|q: Seq<u8>| #[trigger] crate::wire::sd_pairs_z(pd + (seq![0x5au8] + q), st0)
            == Ok::<(Seq<(ValView, ValView)>, Seq<u8>, DState), DeErr>((ps, q, stf)),
    ensures
        forall|q: Seq<u8>| #[trigger] sd_value((seq![0x48u8] + pd + seq![0x5au8]) + q, st0)
            == Ok::<(ValView, Seq<u8>, DState), DeErr>((ValView::Dict(None, ps), q, stf)),
{
    assert forall|q: Seq<u8>| #[trigger] sd_value(
        (seq![0x48u8] + pd + seq![0x5au8]) + q,
        st0,
    ) == Ok::<(ValView, Seq<u8>, DState), DeErr>((ValView::Dict(None, ps), q, stf)) by {
        let b = (seq![0x48u8] + pd + seq![0x5au8]) + q;
        assert(crate::wire::sd_pairs_z(pd + (seq![0x5au8] + q), st0) == Ok::<
            (Seq<(ValView, ValView)>, Seq<u8>, DState),
            DeErr,
        >((ps, q, stf)));
        crate::model::lemma_dedup_id(ps);
        assert(b =~= seq![0x48u8] + (pd + (seq![0x5au8] + q)));
        assert(b[0] == 0x48);
        assert(b.skip(1) =~= pd + (seq![0x5au8] + q));
        assert(b.len() > 0);
        assert(ByteCodecType::spec_from(0x48) == ByteCodecType::Dict(false));
        assert(crate::wire::sd_pairs_z(b.skip(1), st0) == Ok::<
            (Seq<(ValView, ValView)>, Seq<u8>, DState),
            DeErr,
        >((ps, q, stf)));
        assert(crate::wire::sd_dict(false, b.skip(1), st0) == Ok::<
            (ValView, Seq<u8>, DState),
            DeErr,
        >((ValView::Dict(None, ps), q, stf)));
        assert(sd_value(b, st0) == crate::wire::sd_dict(false, b.skip(1), st0));
    }
}

} // verus!
