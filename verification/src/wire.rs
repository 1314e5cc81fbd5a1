//! The wire format, as mathematics.
//!
//! `sd_value` is the meaning of the Hessian 2.0 byte format: a deterministic
//! parse of a byte suffix with the session state threaded through, returning
//! the value read, the bytes that remain, and the new state — or the failure.
//! The executable decoder is proved equal to it, and the executable encoder
//! is proved to emit bytes that it parses back to the encoded value.
//!
//! The `*_bytes` functions at the end give the exact octets the encoder
//! emits for each scalar form.

use vstd::arithmetic::div_mod::{
    lemma_div_denominator, lemma_fundamental_div_mod, lemma_mod_breakdown,
};
use vstd::arithmetic::power2::{lemma2_to64, lemma_pow2_adds, lemma_pow2_pos, pow2};
use vstd::prelude::*;
use vstd::utf8::{decode_utf8, valid_utf8};

use crate::constant::{Binary, ByteCodecType, Date, Double, Integer, Long, Object, Str};
use crate::constant::List as ListTag;
use crate::fbits::{f5_pick, f64_bits_small_int, i64_to_f64_bits, mul_001_bits, p2};
use crate::model::{dedup_pairs, DState, DeErr, DefView, ValView};

verus! {

/// A big-endian byte string read as an unsigned integer.
pub open spec fn be_uint(s: Seq<u8>) -> int
    decreases s.len(),
{
    if s.len() == 0 {
        0
    } else {
        be_uint(s.drop_last()) * 256 + s.last()
    }
}

/// A big-endian byte string read as a two's-complement signed integer.
pub open spec fn be_sint(s: Seq<u8>) -> int {
    if s.len() > 0 && s[0] >= 0x80 {
        be_uint(s) - p2(8 * s.len() as int)
    } else {
        be_uint(s)
    }
}

/// The `n` big-endian bytes of the unsigned integer `u`.
pub open spec fn be_bytes(u: int, n: nat) -> Seq<u8>
    decreases n,
{
    if n == 0 {
        Seq::empty()
    } else {
        be_bytes(u / 256, (n - 1) as nat).push((u % 256) as u8)
    }
}

/// The unsigned integer whose `n`-byte two's complement is that of `x`.
pub open spec fn to_u(x: int, n: nat) -> int {
    if x < 0 {
        x + p2(8 * n as int)
    } else {
        x
    }
}

/// A signed byte.
pub open spec fn sint8(b: u8) -> int {
    if b >= 0x80 {
        b - 256
    } else {
        b as int
    }
}

/// A 32-bit signed value reinterpreted as unsigned.
pub open spec fn wrap32(i: int) -> int {
    if i < 0 {
        i + 0x1_0000_0000
    } else {
        i
    }
}

/// Reading `n` UTF-8-classified code points: each leading byte gives a
/// width, that many bytes are consumed verbatim.  A byte that is no leading
/// byte fails; continuation bytes are not themselves inspected.
pub open spec fn utf8_width(b: u8) -> int {
    if b <= 0x7f {
        1
    } else if 0xc2 <= b <= 0xdf {
        2
    } else if 0xe0 <= b <= 0xef {
        3
    } else if 0xf0 <= b <= 0xf4 {
        4
    } else {
        0
    }
}

/// Parse the payload of `n` code points from `b`: the payload bytes and the
/// rest.
pub open spec fn sd_utf8(n: nat, b: Seq<u8>) -> Result<(Seq<u8>, Seq<u8>), DeErr>
    decreases n,
{
    if n == 0 {
        Ok((Seq::empty(), b))
    } else if b.len() == 0 {
        Err(DeErr::Eof)
    } else {
        let w = utf8_width(b[0]);
        if w == 0 {
            Err(DeErr::Utf8)
        } else if b.len() < w {
            Err(DeErr::Eof)
        } else {
            match sd_utf8((n - 1) as nat, b.skip(w)) {
                Ok((p, rest)) => Ok((b.take(w) + p, rest)),
                Err(e) => Err(e),
            }
        }
    }
}

/// Parse a string chunk chain introduced by `tag` (already consumed):
/// the concatenated payload bytes and the rest.
pub open spec fn sd_string_chunks(tag: u8, b: Seq<u8>) -> Result<(Seq<u8>, Seq<u8>), DeErr>
    decreases b.len(),
{
    if tag <= 0x1f {
        sd_utf8(tag as nat, b)
    } else if 0x30 <= tag <= 0x33 {
        if b.len() < 1 {
            Err(DeErr::Eof)
        } else {
            sd_utf8(((tag - 0x30) * 256 + b[0]) as nat, b.skip(1))
        }
    } else if tag == 0x53 {
        if b.len() < 2 {
            Err(DeErr::Eof)
        } else {
            sd_utf8(be_uint(b.take(2)) as nat, b.skip(2))
        }
    } else if tag == 0x52 {
        if b.len() < 2 {
            Err(DeErr::Eof)
        } else {
            match sd_utf8(be_uint(b.take(2)) as nat, b.skip(2)) {
                Ok((p, r)) => {
                    if r.len() == 0 {
                        Err(DeErr::Eof)
                    } else if r.skip(1).len() < b.len() {
                        match sd_string_chunks(r[0], r.skip(1)) {
                            Ok((p2_, r2)) => Ok((p + p2_, r2)),
                            Err(e) => Err(e),
                        }
                    } else {
                        Err(DeErr::Eof)
                    }
                },
                Err(e) => Err(e),
            }
        }
    } else {
        Err(DeErr::UnknownTag)
    }
}

/// Parse a binary chunk chain introduced by `tag` (already consumed):
/// the concatenated payload bytes and the rest.
pub open spec fn sd_bin_chunks(tag: u8, b: Seq<u8>) -> Result<(Seq<u8>, Seq<u8>), DeErr>
    decreases b.len(),
{
    if tag == 0x41 {
        if b.len() < 2 {
            Err(DeErr::Eof)
        } else {
            let n = be_uint(b.take(2));
            if b.skip(2).len() < n {
                Err(DeErr::Eof)
            } else {
                let payload = b.skip(2).take(n);
                let r = b.skip(2).skip(n);
                if r.len() == 0 {
                    Err(DeErr::Eof)
                } else if r.skip(1).len() < b.len() {
                    match sd_bin_chunks(r[0], r.skip(1)) {
                        Ok((p, r2)) => Ok((payload + p, r2)),
                        Err(e) => Err(e),
                    }
                } else {
                    Err(DeErr::Eof)
                }
            }
        }
    } else if tag == 0x42 {
        if b.len() < 2 {
            Err(DeErr::Eof)
        } else {
            let n = be_uint(b.take(2));
            if b.skip(2).len() < n {
                Err(DeErr::Eof)
            } else {
                Ok((b.skip(2).take(n), b.skip(2).skip(n)))
            }
        }
    } else if 0x20 <= tag <= 0x2f {
        let n = tag - 0x20;
        if b.len() < n {
            Err(DeErr::Eof)
        } else {
            Ok((b.take(n as int), b.skip(n as int)))
        }
    } else if 0x34 <= tag <= 0x37 {
        if b.len() < 1 {
            Err(DeErr::Eof)
        } else {
            let n = (tag - 0x34) * 256 + b[0];
            if b.skip(1).len() < n {
                Err(DeErr::Eof)
            } else {
                Ok((b.skip(1).take(n as int), b.skip(1).skip(n as int)))
            }
        }
    } else {
        Err(DeErr::UnknownTag)
    }
}

/// Parse one value.
pub open spec fn sd_value(b: Seq<u8>, st: DState) -> Result<(ValView, Seq<u8>, DState), DeErr>
    decreases b.len(), 0int,
{
    if b.len() == 0 {
        Err(DeErr::Eof)
    } else {
        let tag = b[0];
        let r = b.skip(1);
        match ByteCodecType::spec_from(tag) {
            ByteCodecType::True => Ok((ValView::Bool(true), r, st)),
            ByteCodecType::False => Ok((ValView::Bool(false), r, st)),
            ByteCodecType::Null => Ok((ValView::Null, r, st)),
            ByteCodecType::Int(i) => match i {
                Integer::Direct(c) => Ok((ValView::Int(c - 0x90), r, st)),
                Integer::Byte(c) => if r.len() < 1 {
                    Err(DeErr::Eof)
                } else {
                    Ok((ValView::Int((c - 0xc8) * 256 + r[0]), r.skip(1), st))
                },
                Integer::Short(c) => if r.len() < 2 {
                    Err(DeErr::Eof)
                } else {
                    Ok((ValView::Int((c - 0xd4) * 0x1_0000 + r[0] * 256 + r[1]), r.skip(2), st))
                },
                Integer::Normal => if r.len() < 4 {
                    Err(DeErr::Eof)
                } else {
                    Ok((ValView::Int(be_sint(r.take(4))), r.skip(4), st))
                },
            },
            ByteCodecType::Long(l) => match l {
                Long::Direct(c) => Ok((ValView::Long(c - 0xe0), r, st)),
                Long::Byte(c) => if r.len() < 1 {
                    Err(DeErr::Eof)
                } else {
                    Ok((ValView::Long((c - 0xf8) * 256 + r[0]), r.skip(1), st))
                },
                Long::Short(c) => if r.len() < 2 {
                    Err(DeErr::Eof)
                } else {
                    Ok((ValView::Long((c - 0x3c) * 0x1_0000 + r[0] * 256 + r[1]), r.skip(2), st))
                },
                Long::Int32 => if r.len() < 4 {
                    Err(DeErr::Eof)
                } else {
                    Ok((ValView::Long(be_sint(r.take(4))), r.skip(4), st))
                },
                Long::Normal => if r.len() < 8 {
                    Err(DeErr::Eof)
                } else {
                    Ok((ValView::Long(be_sint(r.take(8))), r.skip(8), st))
                },
            },
            ByteCodecType::Double(d) => match d {
                Double::Zero => Ok((ValView::Double(0u64), r, st)),
                Double::One => Ok((ValView::Double(0x3ff0_0000_0000_0000u64), r, st)),
                Double::Byte => if r.len() < 1 {
                    Err(DeErr::Eof)
                } else {
                    Ok((ValView::Double(i64_to_f64_bits(sint8(r[0]))), r.skip(1), st))
                },
                Double::Short => if r.len() < 2 {
                    Err(DeErr::Eof)
                } else {
                    Ok((ValView::Double(i64_to_f64_bits(be_sint(r.take(2)))), r.skip(2), st))
                },
                Double::Float => if r.len() < 4 {
                    Err(DeErr::Eof)
                } else {
                    Ok((ValView::Double(mul_001_bits(be_sint(r.take(4)))), r.skip(4), st))
                },
                Double::Normal => if r.len() < 8 {
                    Err(DeErr::Eof)
                } else {
                    Ok((ValView::Double(be_uint(r.take(8)) as u64), r.skip(8), st))
                },
            },
            ByteCodecType::Date(d) => match d {
                Date::Millisecond => if r.len() < 8 {
                    Err(DeErr::Eof)
                } else {
                    Ok((ValView::Date(be_sint(r.take(8))), r.skip(8), st))
                },
                Date::Minute => if r.len() < 4 {
                    Err(DeErr::Eof)
                } else {
                    Ok((ValView::Date(be_sint(r.take(4)) * 60000), r.skip(4), st))
                },
            },
            ByteCodecType::Binary(bin) => {
                let t2 = match bin {
                    Binary::Short(c) => c,
                    Binary::TwoOctet(c) => c,
                    Binary::Long(c) => c,
                };
                match sd_bin_chunks(t2, r) {
                    Ok((p, rest)) => Ok((ValView::Bytes(p), rest, st)),
                    Err(e) => Err(e),
                }
            },
            ByteCodecType::Str(_) => match sd_string_chunks(tag, r) {
                Ok((p, rest)) => if valid_utf8(p) {
                    Ok((ValView::Str(decode_utf8(p)), rest, st))
                } else {
                    Err(DeErr::Utf8)
                },
                Err(e) => Err(e),
            },
            ByteCodecType::List(l) => sd_list(l, r, st),
            ByteCodecType::Dict(typed) => sd_dict(typed, r, st),
            ByteCodecType::Definition => match sd_def(r, st) {
                Ok((st2, r2)) => if r2.len() < b.len() {
                    sd_value(r2, st2)
                } else {
                    Err(DeErr::Eof)
                },
                Err(e) => Err(e),
            },
            ByteCodecType::Ref => sd_ref(r, st),
            ByteCodecType::Object(o) => match o {
                Object::Normal => sd_object(r, st),
                Object::Compact(c) => sd_object_idx(c - 0x60, r, st),
            },
            ByteCodecType::Unknown => Err(DeErr::UnknownTag),
        }
    }
}

/// Parse a type name: a string registers itself, an int refers back.
pub open spec fn sd_type(b: Seq<u8>, st: DState) -> Result<(Seq<char>, Seq<u8>, DState), DeErr>
    decreases b.len(), 1int,
{
    match sd_value(b, st) {
        Ok((v, rest, st2)) => match v {
            ValView::Str(s) => Ok(
                (s, rest, DState { types: st2.types.push(s), defs: st2.defs }),
            ),
            ValView::Int(i) => if 0 <= i < st2.types.len() {
                Ok((st2.types[i], rest, st2))
            } else {
                Err(DeErr::TypeRef(wrap32(i)))
            },
            _ => Err(DeErr::Unexpected),
        },
        Err(e) => Err(e),
    }
}

/// Parse exactly `n` values.
pub open spec fn sd_vals_n(n: nat, b: Seq<u8>, st: DState) -> Result<
    (Seq<ValView>, Seq<u8>, DState),
    DeErr,
>
    decreases b.len(), 1int, n,
{
    if n == 0 {
        Ok((Seq::empty(), b, st))
    } else {
        match sd_value(b, st) {
            Ok((v, r, st1)) => if r.len() < b.len() {
                match sd_vals_n((n - 1) as nat, r, st1) {
                    Ok((vs, r2, st2)) => Ok((seq![v] + vs, r2, st2)),
                    Err(e) => Err(e),
                }
            } else {
                Err(DeErr::Eof)
            },
            Err(e) => Err(e),
        }
    }
}

/// Parse exactly `n` values that must all be strings.
pub open spec fn sd_strings_n(n: nat, b: Seq<u8>, st: DState) -> Result<
    (Seq<Seq<char>>, Seq<u8>, DState),
    DeErr,
>
    decreases b.len(), 1int, n,
{
    if n == 0 {
        Ok((Seq::empty(), b, st))
    } else {
        match sd_value(b, st) {
            Ok((v, r, st1)) => match v {
                ValView::Str(s) => if r.len() < b.len() {
                    match sd_strings_n((n - 1) as nat, r, st1) {
                        Ok((ss, r2, st2)) => Ok((seq![s] + ss, r2, st2)),
                        Err(e) => Err(e),
                    }
                } else {
                    Err(DeErr::Eof)
                },
                _ => Err(DeErr::Unexpected),
            },
            Err(e) => Err(e),
        }
    }
}

/// Parse values until the `'Z'` terminator, which is consumed.
pub open spec fn sd_vals_z(b: Seq<u8>, st: DState) -> Result<
    (Seq<ValView>, Seq<u8>, DState),
    DeErr,
>
    decreases b.len(), 1int,
{
    if b.len() == 0 {
        Err(DeErr::Eof)
    } else if b[0] == 0x5a {
        Ok((Seq::empty(), b.skip(1), st))
    } else {
        match sd_value(b, st) {
            Ok((v, r, st1)) => if r.len() < b.len() {
                match sd_vals_z(r, st1) {
                    Ok((vs, r2, st2)) => Ok((seq![v] + vs, r2, st2)),
                    Err(e) => Err(e),
                }
            } else {
                Err(DeErr::Eof)
            },
            Err(e) => Err(e),
        }
    }
}

/// Parse key/value pairs until the `'Z'` terminator, which is consumed;
/// the raw pairs in wire order, duplicates included.
pub open spec fn sd_pairs_z(b: Seq<u8>, st: DState) -> Result<
    (Seq<(ValView, ValView)>, Seq<u8>, DState),
    DeErr,
>
    decreases b.len(), 1int,
{
    if b.len() == 0 {
        Err(DeErr::Eof)
    } else if b[0] == 0x5a {
        Ok((Seq::empty(), b.skip(1), st))
    } else {
        match sd_value(b, st) {
            Ok((k, r1, st1)) => if r1.len() <= b.len() {
                match sd_value(r1, st1) {
                    Ok((v, r2, st2)) => if r2.len() < b.len() {
                        match sd_pairs_z(r2, st2) {
                            Ok((ps, r3, st3)) => Ok((seq![(k, v)] + ps, r3, st3)),
                            Err(e) => Err(e),
                        }
                    } else {
                        Err(DeErr::Eof)
                    },
                    Err(e) => Err(e),
                }
            } else {
                Err(DeErr::Eof)
            },
            Err(e) => Err(e),
        }
    }
}

/// Parse a list whose form the tag gave.
pub open spec fn sd_list(l: ListTag, b: Seq<u8>, st: DState) -> Result<
    (ValView, Seq<u8>, DState),
    DeErr,
>
    decreases b.len(), 2int,
{
    match l {
        ListTag::ShortFixedLength(typed, n) => if typed {
            match sd_type(b, st) {
                Ok((t, r1, st1)) => if r1.len() <= b.len() {
                    match sd_vals_n(n as nat, r1, st1) {
                        Ok((vs, r2, st2)) => Ok((ValView::List(Some(t), vs), r2, st2)),
                        Err(e) => Err(e),
                    }
                } else {
                    Err(DeErr::Eof)
                },
                Err(e) => Err(e),
            }
        } else {
            match sd_vals_n(n as nat, b, st) {
                Ok((vs, r2, st2)) => Ok((ValView::List(None, vs), r2, st2)),
                Err(e) => Err(e),
            }
        },
        ListTag::VarLength(typed) => if typed {
            match sd_type(b, st) {
                Ok((t, r1, st1)) => if r1.len() <= b.len() {
                    match sd_vals_z(r1, st1) {
                        Ok((vs, r2, st2)) => Ok((ValView::List(Some(t), vs), r2, st2)),
                        Err(e) => Err(e),
                    }
                } else {
                    Err(DeErr::Eof)
                },
                Err(e) => Err(e),
            }
        } else {
            match sd_vals_z(b, st) {
                Ok((vs, r2, st2)) => Ok((ValView::List(None, vs), r2, st2)),
                Err(e) => Err(e),
            }
        },
        ListTag::FixedLength(typed) => if typed {
            match sd_type(b, st) {
                Ok((t, r1, st1)) => if r1.len() <= b.len() {
                    match sd_value(r1, st1) {
                        Ok((lv, r2, st2)) => match lv {
                            ValView::Int(n) => if r2.len() <= b.len() {
                                match sd_vals_n(wrap_len(n), r2, st2) {
                                    Ok((vs, r3, st3)) => Ok(
                                        (ValView::List(Some(t), vs), r3, st3),
                                    ),
                                    Err(e) => Err(e),
                                }
                            } else {
                                Err(DeErr::Eof)
                            },
                            _ => Err(DeErr::Unexpected),
                        },
                        Err(e) => Err(e),
                    }
                } else {
                    Err(DeErr::Eof)
                },
                Err(e) => Err(e),
            }
        } else {
            match sd_value(b, st) {
                Ok((lv, r2, st2)) => match lv {
                    ValView::Int(n) => if r2.len() <= b.len() {
                        match sd_vals_n(wrap_len(n), r2, st2) {
                            Ok((vs, r3, st3)) => Ok((ValView::List(None, vs), r3, st3)),
                            Err(e) => Err(e),
                        }
                    } else {
                        Err(DeErr::Eof)
                    },
                    _ => Err(DeErr::Unexpected),
                },
                Err(e) => Err(e),
            }
        },
    }
}

/// A fixed-length count read from the wire: a negative int wraps around to
/// a count that no finite input satisfies.
pub open spec fn wrap_len(n: int) -> nat {
    if n < 0 {
        (n + 0x1_0000_0000_0000_0000) as nat
    } else {
        n as nat
    }
}

/// Parse a map whose form the tag gave.  The raw pairs fold into a
/// mapping: a duplicate key keeps the place of its first occurrence and
/// takes the value of its last.
pub open spec fn sd_dict(typed: bool, b: Seq<u8>, st: DState) -> Result<
    (ValView, Seq<u8>, DState),
    DeErr,
>
    decreases b.len(), 2int,
{
    if typed {
        match sd_type(b, st) {
            Ok((t, r1, st1)) => if r1.len() <= b.len() {
                match sd_pairs_z(r1, st1) {
                    Ok((ps, r2, st2)) => Ok((ValView::Dict(Some(t), dedup_pairs(ps)), r2, st2)),
                    Err(e) => Err(e),
                }
            } else {
                Err(DeErr::Eof)
            },
            Err(e) => Err(e),
        }
    } else {
        match sd_pairs_z(b, st) {
            Ok((ps, r2, st2)) => Ok((ValView::Dict(None, dedup_pairs(ps)), r2, st2)),
            Err(e) => Err(e),
        }
    }
}

/// Parse an object instantiation given its definition index.
pub open spec fn sd_object_idx(i: int, b: Seq<u8>, st: DState) -> Result<
    (ValView, Seq<u8>, DState),
    DeErr,
>
    decreases b.len(), 2int,
{
    if !(0 <= i < st.defs.len()) {
        Err(DeErr::DefRef(wrap32(i)))
    } else {
        let d = st.defs[i];
        match sd_vals_n(d.fields.len(), b, st) {
            Ok((vs, r2, st2)) => Ok(
                (
                    ValView::Dict(
                        Some(d.name),
                        dedup_pairs(
                            Seq::new(
                                d.fields.len(),
                                |k: int| (ValView::Str(d.fields[k]), vs[k]),
                            ),
                        ),
                    ),
                    r2,
                    st2,
                ),
            ),
            Err(e) => Err(e),
        }
    }
}

/// Parse an `'O'` object instantiation: an int index, then the fields.
pub open spec fn sd_object(b: Seq<u8>, st: DState) -> Result<(ValView, Seq<u8>, DState), DeErr>
    decreases b.len(), 3int,
{
    match sd_value(b, st) {
        Ok((v, r1, st1)) => match v {
            ValView::Int(i) => if r1.len() <= b.len() {
                sd_object_idx(i, r1, st1)
            } else {
                Err(DeErr::Eof)
            },
            _ => Err(DeErr::Unexpected),
        },
        Err(e) => Err(e),
    }
}

/// Parse a class definition: a name, a field count, that many field names;
/// the definition is appended to the table and no value is produced.
pub open spec fn sd_def(b: Seq<u8>, st: DState) -> Result<(DState, Seq<u8>), DeErr>
    decreases b.len(), 1int,
{
    match sd_value(b, st) {
        Ok((nv, r1, st1)) => match nv {
            ValView::Str(name) => if r1.len() <= b.len() {
                match sd_value(r1, st1) {
                    Ok((cv, r2, st2)) => match cv {
                        ValView::Int(n) => if r2.len() < b.len() {
                            let cnt = if n < 0 {
                                0nat
                            } else {
                                n as nat
                            };
                            match sd_strings_n(cnt, r2, st2) {
                                Ok((fields, r3, st3)) => Ok(
                                    (
                                        DState {
                                            types: st3.types,
                                            defs: st3.defs.push(
                                                (DefView { name: name, fields: fields }),
                                            ),
                                        },
                                        r3,
                                    ),
                                ),
                                Err(e) => Err(e),
                            }
                        } else {
                            Err(DeErr::Eof)
                        },
                        _ => Err(DeErr::Unexpected),
                    },
                    Err(e) => Err(e),
                }
            } else {
                Err(DeErr::Eof)
            },
            _ => Err(DeErr::Unexpected),
        },
        Err(e) => Err(e),
    }
}

/// Parse a back-reference: an int index into the object table.
pub open spec fn sd_ref(b: Seq<u8>, st: DState) -> Result<(ValView, Seq<u8>, DState), DeErr>
    decreases b.len(), 1int,
{
    match sd_value(b, st) {
        Ok((v, rest, st2)) => match v {
            ValView::Int(i) => Ok((ValView::Ref(wrap32(i)), rest, st2)),
            _ => Err(DeErr::Unexpected),
        },
        Err(e) => Err(e),
    }
}

/// The octets of an int, in the shortest form whose range holds it.
pub open spec fn int_bytes(v: int) -> Seq<u8> {
    if -16 <= v <= 47 {
        seq![(v + 0x90) as u8]
    } else if -2048 <= v <= 2047 {
        seq![(0xc8 + v / 256) as u8, (v % 256) as u8]
    } else if -262144 <= v <= 262143 {
        seq![(0xd4 + v / 0x1_0000) as u8, ((v / 256) % 256) as u8, (v % 256) as u8]
    } else {
        seq![0x49u8] + be_bytes(to_u(v, 4), 4)
    }
}

/// The octets of a long, in the shortest form whose range holds it.
pub open spec fn long_bytes(v: int) -> Seq<u8> {
    if -8 <= v <= 15 {
        seq![(v + 0xe0) as u8]
    } else if -2048 <= v <= 2047 {
        seq![(0xf8 + v / 256) as u8, (v % 256) as u8]
    } else if -262144 <= v <= 262143 {
        seq![(0x3c + v / 0x1_0000) as u8, ((v / 256) % 256) as u8, (v % 256) as u8]
    } else if -0x8000_0000 <= v <= 0x7fff_ffff {
        seq![0x59u8] + be_bytes(to_u(v, 4), 4)
    } else {
        seq![0x4cu8] + be_bytes(to_u(v, 8), 8)
    }
}

/// The octets of a date: always the millisecond form.
pub open spec fn date_bytes(ms: int) -> Seq<u8> {
    seq![0x4au8] + be_bytes(to_u(ms, 8), 8)
}

/// The octets of a double, by its bit pattern: a compact form only when its
/// decoding reproduces the pattern exactly.
pub open spec fn dbl_bytes(bits: u64) -> Seq<u8> {
    match f64_bits_small_int(bits) {
        Some(n) => if i64_to_f64_bits(n) == bits && -32768 <= n <= 32767 {
            if n == 0 {
                seq![0x5bu8]
            } else if n == 1 {
                seq![0x5cu8]
            } else if -128 <= n <= 127 {
                seq![0x5du8, (to_u(n, 1)) as u8]
            } else {
                seq![0x5eu8] + be_bytes(to_u(n, 2), 2)
            }
        } else {
            dbl_tail_bytes(bits)
        },
        None => dbl_tail_bytes(bits),
    }
}

/// The octets of a double that has no small-integer form: the scaled
/// four-octet form when it round-trips, else the full pattern.
pub open spec fn dbl_tail_bytes(bits: u64) -> Seq<u8> {
    match f5_pick(bits) {
        Some(c) => seq![0x5fu8] + be_bytes(to_u(c, 4), 4),
        None => seq![0x44u8] + be_bytes(bits as int, 8),
    }
}

/// The octets of a back-reference.
pub open spec fn ref_bytes(i: int) -> Seq<u8> {
    seq![0x51u8] + int_bytes(if i >= 0x8000_0000 {
        i - 0x1_0000_0000
    } else {
        i
    })
}

/// The octets of a byte string: one length-tagged run when short enough,
/// else full chunks and a final chunk.
pub open spec fn bytes_bytes(b: Seq<u8>) -> Seq<u8>
    decreases b.len(),
{
    if b.len() < 16 {
        seq![(0x20 + b.len()) as u8] + b
    } else if b.len() <= 0xffff {
        seq![0x42u8] + be_bytes(b.len() as int, 2) + b
    } else {
        seq![0x41u8] + be_bytes(0xffff, 2) + b.take(0xffff) + bytes_bytes(b.skip(0xffff))
    }
}

/// `be_bytes` writes exactly `n` octets.
pub proof fn lemma_be_bytes_len(u: int, n: nat)
    ensures
        be_bytes(u, n).len() == n,
    decreases n,
{
    if n > 0 {
        lemma_be_bytes_len(u / 256, (n - 1) as nat);
    }
}

/// Reading back the octets of an in-range unsigned integer returns it.
pub proof fn lemma_be_uint_bytes(u: int, n: nat)
    requires
        0 <= u < p2(8 * n as int),
    ensures
        be_uint(be_bytes(u, n)) == u,
    decreases n,
{
    lemma2_to64();
    if n == 0 {
    } else {
        lemma_pow2_adds(8, (8 * (n - 1)) as nat);
        lemma_pow2_pos((8 * (n - 1)) as nat);
        assert(u / 256 < p2(8 * (n - 1))) by (nonlinear_arith)
            requires
                0 <= u < 256 * p2(8 * (n - 1)),
                p2(8 * (n - 1)) > 0,
        ;
        lemma_be_uint_bytes(u / 256, (n - 1) as nat);
        let s = be_bytes(u / 256, (n - 1) as nat);
        let t = s.push((u % 256) as u8);
        lemma_be_bytes_len(u / 256, (n - 1) as nat);
        assert(t.drop_last() =~= s);
        assert(t.last() == (u % 256) as u8);
        lemma_fundamental_div_mod(u, 256);
    }
}

/// The first octet of an in-range unsigned integer is its top byte.
pub proof fn lemma_be_bytes_first(u: int, n: nat)
    requires
        n >= 1,
        0 <= u < p2(8 * n as int),
    ensures
        be_bytes(u, n)[0] == u / p2(8 * (n - 1)),
    decreases n,
{
    lemma2_to64();
    lemma_be_bytes_len(u / 256, (n - 1) as nat);
    if n == 1 {
        assert(be_bytes(u, 1) =~= Seq::empty().push((u % 256) as u8));
        assert(u % 256 == u) by {
            lemma_fundamental_div_mod(u, 256);
            assert(u / 256 == 0) by (nonlinear_arith)
                requires
                    0 <= u < 256,
            ;
        }
        assert(u / p2(0) == u);
    } else {
        lemma_pow2_adds(8, (8 * (n - 1)) as nat);
        lemma_pow2_pos((8 * (n - 1)) as nat);
        assert(u / 256 < p2(8 * (n - 1))) by (nonlinear_arith)
            requires
                0 <= u < 256 * p2(8 * (n - 1)),
                p2(8 * (n - 1)) > 0,
        ;
        lemma_be_bytes_first(u / 256, (n - 1) as nat);
        assert(be_bytes(u, n)[0] == be_bytes(u / 256, (n - 1) as nat)[0]);
        lemma_pow2_adds(8, (8 * (n - 2)) as nat);
        lemma_pow2_pos((8 * (n - 2)) as nat);
        lemma_div_denominator(u, 256, p2(8 * (n - 2)));
    }
}

/// Reading back the octets of an in-range signed integer returns it.
pub proof fn lemma_be_sint_bytes(x: int, n: nat)
    requires
        n >= 1,
        -p2(8 * n as int - 8) * 128 <= x < p2(8 * n as int - 8) * 128,
    ensures
        be_sint(be_bytes(to_u(x, n), n)) == x,
{
    lemma2_to64();
    let h = p2(8 * n as int - 8);
    lemma_pow2_pos((8 * n - 8) as nat);
    lemma_pow2_adds(8, (8 * (n - 1)) as nat);
    assert(p2(8 * n as int) == 256 * h);
    let u = to_u(x, n);
    assert(0 <= u < 256 * h) by (nonlinear_arith)
        requires
            -h * 128 <= x < h * 128,
            u == if x < 0 {
                x + 256 * h
            } else {
                x
            },
            h > 0,
    ;
    lemma_be_uint_bytes(u, n);
    lemma_be_bytes_first(u, n);
    lemma_be_bytes_len(u, n);
    let f = u / h;
    if x >= 0 {
        assert(f < 128) by (nonlinear_arith)
            requires
                0 <= u < h * 128,
                h > 0,
                f == u / h,
        ;
    } else {
        assert(f >= 128) by (nonlinear_arith)
            requires
                u >= h * 128,
                u < 256 * h,
                h > 0,
                f == u / h,
        ;
        assert(f < 256) by (nonlinear_arith)
            requires
                u < 256 * h,
                h > 0,
                f == u / h,
        ;
    }
}

/// A big-endian read is bounded by the byte count.
pub proof fn lemma_be_uint_bound(s: Seq<u8>)
    ensures
        0 <= be_uint(s) < p2(8 * s.len() as int),
    decreases s.len(),
{
    lemma2_to64();
    if s.len() > 0 {
        lemma_be_uint_bound(s.drop_last());
        lemma_pow2_adds((8 * (s.len() - 1)) as nat, 8);
        lemma_pow2_pos((8 * (s.len() - 1)) as nat);
        assert(be_uint(s.drop_last()) * 256 + s.last() < p2(8 * (s.len() - 1) as int) * 256) by (
        nonlinear_arith)
            requires
                be_uint(s.drop_last()) < p2(8 * (s.len() - 1) as int),
                s.last() < 256,
        ;
    }
}

/// The first byte decomposes a big-endian read.
pub proof fn lemma_be_decompose_first(s: Seq<u8>)
    requires
        s.len() >= 1,
    ensures
        be_uint(s) == s[0] * p2(8 * (s.len() - 1)) + be_uint(s.skip(1)),
    decreases s.len(),
{
    lemma2_to64();
    if s.len() == 1 {
        assert(s.drop_last() =~= Seq::<u8>::empty());
        assert(s.skip(1) =~= Seq::<u8>::empty());
        assert(be_uint(Seq::<u8>::empty()) == 0);
        assert(be_uint(s) == s.last());
        assert(s.last() == s[0]);
        assert(p2(0) == 1);
        assert(s[0] * p2(8 * (s.len() - 1)) == s[0]) by (nonlinear_arith)
            requires
                p2(8 * (s.len() - 1)) == 1,
        ;
        assert(be_uint(s) == s[0] * p2(8 * (s.len() - 1)) + be_uint(s.skip(1)));
    } else {
        let l = s.len() as int;
        let sdl = s.drop_last();
        lemma_be_decompose_first(sdl);
        assert(sdl[0] == s[0]);
        assert(sdl.skip(1) =~= s.skip(1).drop_last());
        assert(s.skip(1).len() == l - 1);
        assert(s.skip(1).last() == s.last());
        lemma_pow2_adds((8 * (l - 2)) as nat, 8);
        assert(p2(8 * (l - 1)) == p2(8 * (l - 2)) * 256);
        let x = be_uint(sdl.skip(1));
        assert(be_uint(s) == (s[0] * p2(8 * (l - 2)) + x) * 256 + s.last());
        assert(be_uint(s.skip(1)) == x * 256 + s.last());
        assert((s[0] * p2(8 * (l - 2)) + x) * 256 == s[0] * (p2(8 * (l - 2)) * 256) + x
            * 256) by (nonlinear_arith);
        assert(s[0] * p2(8 * (l - 1)) == s[0] * (p2(8 * (l - 2)) * 256)) by (nonlinear_arith)
            requires
                p2(8 * (l - 1)) == p2(8 * (l - 2)) * 256,
        ;
        assert(be_uint(s) == s[0] * p2(8 * (l - 1)) + be_uint(s.skip(1)));
        assert(8 * (s.len() - 1) == 8 * (l - 1));
    }
}

/// The top bit of the first byte tells whether the unsigned reading reaches
/// the signed midpoint.
pub proof fn lemma_be_first_byte_high(s: Seq<u8>)
    requires
        s.len() >= 1,
    ensures
        (s[0] >= 0x80) <==> be_uint(s) >= p2(8 * (s.len() - 1)) * 128,
{
    lemma_be_decompose_first(s);
    lemma_be_uint_bound(s.skip(1));
    let h = p2(8 * (s.len() - 1));
    vstd::arithmetic::power2::lemma_pow2_pos((8 * (s.len() - 1)) as nat);
    if s[0] >= 0x80 {
        assert(s[0] * h >= 128 * h) by (nonlinear_arith)
            requires
                s[0] >= 128,
                h > 0,
        ;
    } else {
        assert(s[0] * h + be_uint(s.skip(1)) < 128 * h) by (nonlinear_arith)
            requires
                s[0] <= 127,
                h > 0,
                0 <= be_uint(s.skip(1)) < h,
        ;
    }
}

/// Each octet of an in-range unsigned integer, by position.
pub proof fn lemma_be_bytes_index(u: int, n: nat, i: int)
    requires
        0 <= u < p2(8 * n as int),
        0 <= i < n,
    ensures
        be_bytes(u, n)[i] == ((u / p2(8 * (n - 1 - i))) % 256) as u8,
    decreases n,
{
    lemma2_to64();
    lemma_be_bytes_len(u / 256, (n - 1) as nat);
    if i == n - 1 {
        assert(be_bytes(u, n)[i] == (u % 256) as u8);
        assert(p2(0) == 1);
        assert(u / p2(0) == u) by (nonlinear_arith)
            requires
                p2(0) == 1,
                u >= 0,
        ;
    } else {
        lemma_pow2_adds(8, (8 * (n - 1)) as nat);
        lemma_pow2_pos((8 * (n - 1)) as nat);
        assert(u / 256 < p2(8 * (n - 1))) by (nonlinear_arith)
            requires
                0 <= u < 256 * p2(8 * (n - 1)),
                p2(8 * (n - 1)) > 0,
        ;
        lemma_be_bytes_index(u / 256, (n - 1) as nat, i);
        assert(be_bytes(u, n)[i] == be_bytes(u / 256, (n - 1) as nat)[i]);
        lemma_pow2_adds(8, (8 * (n - 2 - i)) as nat);
        lemma_pow2_pos((8 * (n - 2 - i)) as nat);
        lemma_div_denominator(u, 256, p2(8 * (n - 2 - i)));
    }
}

} // verus!
