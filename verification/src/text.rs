//! Character counting and chunking of UTF-8 text.
//!
//! The wire format length-prefixes strings in code points, not bytes, so
//! the encoder walks the UTF-8 leading bytes.  `str_chunks_bytes` is the
//! exact encoding of a string payload, and the lemmas here show that the
//! decoder's walk (`sd_utf8`, `sd_string_chunks`) reads it back verbatim.

use vstd::prelude::*;
use vstd::utf8::{
    decode_utf8, is_continuation_byte, length_of_first_scalar, pop_first_scalar, valid_first_scalar,
    valid_utf8, valid_utf8_concat,
};

use crate::model::DeErr;
use crate::wire::{be_bytes, be_uint, lemma_be_bytes_len, lemma_be_uint_bytes, sd_string_chunks,
    sd_utf8, utf8_width};
use crate::fbits::p2;

verus! {

/// The number of code points in a UTF-8 byte string, by its leading bytes.
/// Sensible only for valid UTF-8; a malformed byte counts as one point.
pub open spec fn utf8_count(b: Seq<u8>) -> nat
    decreases b.len(),
{
    if b.len() == 0 {
        0
    } else {
        let w = utf8_width(b[0]);
        let w2 = if w <= 0 {
            1int
        } else {
            w
        };
        if w2 >= b.len() {
            1
        } else {
            1 + utf8_count(b.skip(w2))
        }
    }
}

/// The byte length of the first `k` code points of a UTF-8 byte string.
pub open spec fn utf8_cut(b: Seq<u8>, k: nat) -> int
    decreases k,
{
    if k == 0 || b.len() == 0 {
        0
    } else {
        let w = utf8_width(b[0]);
        let w2 = if w <= 0 {
            1int
        } else {
            w
        };
        if w2 >= b.len() {
            b.len() as int
        } else {
            w2 + utf8_cut(b.skip(w2), (k - 1) as nat)
        }
    }
}

/// The code-point capacity of one non-final string chunk.
pub open spec fn chunk_points() -> nat {
    0x7fff
}

/// The octets of a string whose UTF-8 bytes are `b`: chunks of at most
/// `chunk_points()` code points, then a final form picked by the remaining
/// count.
pub open spec fn str_chunks_bytes(b: Seq<u8>) -> Seq<u8>
    decreases b.len(),
{
    let n = utf8_count(b);
    if n > chunk_points() {
        let cut = utf8_cut(b, chunk_points());
        if 1 <= cut < b.len() {
            seq![0x52u8] + be_bytes(chunk_points() as int, 2) + b.take(cut) + str_chunks_bytes(
                b.skip(cut),
            )
        } else {
            Seq::empty()
        }
    } else if n <= 31 {
        seq![n as u8] + b
    } else if n <= 1023 {
        seq![(0x30 + n / 256) as u8, (n % 256) as u8] + b
    } else {
        seq![0x53u8] + be_bytes(n as int, 2) + b
    }
}

/// On valid UTF-8 the walk width of the first byte is the byte length of
/// the first scalar, and peeling it preserves validity.
pub proof fn lemma_utf8_first(b: Seq<u8>)
    requires
        valid_utf8(b),
        b.len() > 0,
    ensures
        1 <= utf8_width(b[0]),
        utf8_width(b[0]) == length_of_first_scalar(b),
        utf8_width(b[0]) <= b.len(),
        b.skip(utf8_width(b[0])) == pop_first_scalar(b),
        valid_utf8(b.skip(utf8_width(b[0]))),
        utf8_count(b) == 1 + utf8_count(b.skip(utf8_width(b[0]))),
        decode_utf8(b).len() == utf8_count(b),
    decreases b.len(),
{
    let c = b[0];
    if 0xc0 <= c <= 0xdf {
        assert(c >= 0xc2) by {
            if c <= 0xc1 {
                let b1 = b[1];
                let cp = vstd::utf8::codepoint_width_2(c, b1);
                assert(cp < 0x80) by {
                    assert(0xc0 <= c && c <= 0xc1 ==> ((((c & 0x1f) as u32) << 6) | ((b1
                        & 0x3f) as u32)) < 0x80) by (bit_vector);
                }
                assert(false);
            }
        }
    }
    if 0xf0 <= c <= 0xf7 {
        assert(c <= 0xf4) by {
            if c >= 0xf5 {
                let b1 = b[1];
                let b2 = b[2];
                let b3 = b[3];
                let cp = vstd::utf8::codepoint_width_4(c, b1, b2, b3);
                assert(cp > 0x10ffff) by {
                    assert(0xf5 <= c && c <= 0xf7 ==> ((((c & 0x07) as u32) << 18) | (((b1
                        & 0x3f) as u32) << 12) | (((b2 & 0x3f) as u32) << 6) | ((b3
                        & 0x3f) as u32)) > 0x10ffff) by (bit_vector);
                }
                assert(false);
            }
        }
    }
    let w = utf8_width(c);
    assert(w == length_of_first_scalar(b));
    assert(b.skip(w) =~= pop_first_scalar(b));
    let rest = b.skip(w);
    if rest.len() == 0 {
        assert(decode_utf8(rest).len() == 0);
    } else {
        lemma_utf8_first(rest);
    }
}

/// The single first scalar of a valid byte string is itself valid UTF-8.
pub proof fn lemma_utf8_take_first_valid(b: Seq<u8>)
    requires
        valid_utf8(b),
        b.len() > 0,
    ensures
        valid_utf8(b.take(utf8_width(b[0]))),
{
    lemma_utf8_first(b);
    let w = utf8_width(b[0]);
    let t = b.take(w);
    assert(t[0] == b[0]);
    assert(forall|i: int| 0 <= i < w ==> t[i] == b[i]);
    assert(valid_first_scalar(t));
    assert(pop_first_scalar(t) =~= Seq::<u8>::empty());
    assert(valid_utf8(pop_first_scalar(t)));
}

/// The decoder's point-counting walk consumes a valid byte string exactly,
/// whatever follows it.
pub proof fn lemma_sd_utf8_walk(b: Seq<u8>, q: Seq<u8>)
    requires
        valid_utf8(b),
    ensures
        sd_utf8(utf8_count(b), b + q) == Ok::<(Seq<u8>, Seq<u8>), DeErr>((b, q)),
    decreases b.len(),
{
    if b.len() == 0 {
        assert(b + q =~= q);
        assert(b =~= Seq::<u8>::empty());
    } else {
        lemma_utf8_first(b);
        let w = utf8_width(b[0]);
        assert((b + q)[0] == b[0]);
        assert((b + q).len() >= w);
        assert((b + q).skip(w) =~= b.skip(w) + q);
        lemma_sd_utf8_walk(b.skip(w), q);
        assert((b + q).take(w) =~= b.take(w));
        assert(b.take(w) + b.skip(w) =~= b);
    }
}

/// Cutting a valid byte string after `k` points lands on a point boundary:
/// both sides stay valid and the counts split as expected.
pub proof fn lemma_utf8_cut(b: Seq<u8>, k: nat)
    requires
        valid_utf8(b),
        0 < k < utf8_count(b),
    ensures
        1 <= utf8_cut(b, k) < b.len(),
        valid_utf8(b.take(utf8_cut(b, k))),
        valid_utf8(b.skip(utf8_cut(b, k))),
        utf8_count(b.take(utf8_cut(b, k))) == k,
        utf8_count(b.skip(utf8_cut(b, k))) == utf8_count(b) - k,
    decreases k,
{
    lemma_utf8_first(b);
    lemma_utf8_take_first_valid(b);
    let w = utf8_width(b[0]);
    let c = utf8_cut(b, k);
    if k == 1 {
        assert(c == w);
        assert(utf8_count(b.take(w)) == 1) by {
            lemma_utf8_first(b.take(w));
            assert(b.take(w)[0] == b[0]);
        }
    } else {
        lemma_utf8_cut(b.skip(w), (k - 1) as nat);
        let c2 = utf8_cut(b.skip(w), (k - 1) as nat);
        assert(c == w + c2);
        assert(b.take(c) =~= b.take(w) + b.skip(w).take(c2));
        assert(b.skip(c) =~= b.skip(w).skip(c2));
        valid_utf8_concat(b.take(w), b.skip(w).take(c2));
        lemma_utf8_count_concat_first(b, c);
    }
}

/// Counting distributes over peeling the first scalar from a prefix.
proof fn lemma_utf8_count_concat_first(b: Seq<u8>, c: int)
    requires
        valid_utf8(b),
        b.len() > 0,
        utf8_width(b[0]) <= c <= b.len(),
    ensures
        utf8_count(b.take(c)) == 1 + utf8_count(b.skip(utf8_width(b[0])).take(
            c - utf8_width(b[0]),
        )),
{
    lemma_utf8_first(b);
    let w = utf8_width(b[0]);
    let t = b.take(c);
    assert(t[0] == b[0]);
    if c == w {
        assert(t.len() == w);
        assert(b.skip(w).take(0) =~= Seq::<u8>::empty());
    } else {
        assert(t.skip(w) =~= b.skip(w).take(c - w));
    }
}

} // verus!
