//! Stated laws of the codec, proved once and for all inputs.
//!
//! The round trip itself — decoding an encoding returns the value encoded —
//! is carried by the contracts of `ser::to_vec` (and `Serializer::
//! serialize_value`) together with `de::from_slice` (and `Deserializer::
//! read_value`): the encoder's postcondition states that the wire
//! specification parses the emitted octets back to the encoded value, and
//! the decoder's postcondition states that it computes exactly that parse.
//! The laws here pin down the encoded sizes of the integer forms and the
//! chunk structure of encoded strings.

use vstd::prelude::*;
use vstd::utf8::valid_utf8;

use crate::model::{dedup_pairs, distinct_keys, encodable, encodable_pairs, DState, ValView};
use crate::text::{chunk_points, str_chunks_bytes, utf8_count, utf8_cut};
use crate::wire::{
    int_bytes, lemma_be_bytes_len, long_bytes, sd_def, sd_dict, sd_list, sd_object,
    sd_object_idx, sd_pairs_z, sd_ref, sd_strings_n, sd_type, sd_vals_n, sd_vals_z, sd_value,
    to_u,
};

verus! {

/// The character counts carried by the chunk prefixes of an encoded
/// string, in emission order: `str_chunks_bytes` emits, for each entry
/// here, one length prefix holding exactly this count.
pub open spec fn str_chunk_counts(b: Seq<u8>) -> Seq<int>
    decreases b.len(),
{
    let n = utf8_count(b);
    if n > chunk_points() {
        let cut = utf8_cut(b, chunk_points());
        if 1 <= cut < b.len() {
            seq![chunk_points() as int] + str_chunk_counts(b.skip(cut))
        } else {
            Seq::empty()
        }
    } else {
        seq![n as int]
    }
}

/// The payloads carried by the chunks of an encoded string, in emission
/// order: `str_chunks_bytes` copies, for each entry here, exactly these
/// octets after the corresponding prefix.
pub open spec fn str_chunk_payloads(b: Seq<u8>) -> Seq<Seq<u8>>
    decreases b.len(),
{
    let n = utf8_count(b);
    if n > chunk_points() {
        let cut = utf8_cut(b, chunk_points());
        if 1 <= cut < b.len() {
            seq![b.take(cut)] + str_chunk_payloads(b.skip(cut))
        } else {
            Seq::empty()
        }
    } else {
        seq![b]
    }
}

/// The sum of a sequence of integers.
pub open spec fn sum_of(s: Seq<int>) -> int
    decreases s.len(),
{
    if s.len() == 0 {
        0
    } else {
        s.first() + sum_of(s.drop_first())
    }
}

/// The concatenation of a sequence of byte strings.
pub open spec fn cat_of(s: Seq<Seq<u8>>) -> Seq<u8>
    decreases s.len(),
{
    if s.len() == 0 {
        Seq::empty()
    } else {
        s.first() + cat_of(s.drop_first())
    }
}

/// The chunk prefixes of an encoded string carry character counts that sum
/// to the code-point count of the string, each chunk's count is the count
/// of its own payload, and the payloads concatenate to exactly the UTF-8
/// encoding of the string.
pub proof fn lemma_string_chunks(b: Seq<u8>)
    requires
        valid_utf8(b),
    ensures
        str_chunk_counts(b).len() == str_chunk_payloads(b).len() >= 1,
        sum_of(str_chunk_counts(b)) == utf8_count(b),
        cat_of(str_chunk_payloads(b)) == b,
        forall|i: int|
            0 <= i < str_chunk_counts(b).len() ==> utf8_count(
                #[trigger] str_chunk_payloads(b)[i],
            ) == str_chunk_counts(b)[i],
    decreases b.len(),
{
    let n = utf8_count(b);
    if n > chunk_points() {
        crate::text::lemma_utf8_cut(b, chunk_points());
        let cut = utf8_cut(b, chunk_points());
        lemma_string_chunks(b.skip(cut));
        let cs = str_chunk_counts(b);
        let ps = str_chunk_payloads(b);
        assert(cs.first() == chunk_points() as int);
        assert(cs.drop_first() =~= str_chunk_counts(b.skip(cut)));
        assert(ps.drop_first() =~= str_chunk_payloads(b.skip(cut)));
        assert(sum_of(cs) == cs.first() + sum_of(cs.drop_first()));
        assert(sum_of(cs.drop_first()) == utf8_count(b.skip(cut)));
        assert(utf8_count(b.skip(cut)) == n - chunk_points());
        assert(sum_of(cs) == n);
        assert(cat_of(ps) =~= b.take(cut) + cat_of(str_chunk_payloads(b.skip(cut))));
        assert(b.take(cut) + b.skip(cut) =~= b);
        assert forall|i: int| 0 <= i < cs.len() implies utf8_count(#[trigger] ps[i])
            == cs[i] by {
            if i > 0 {
                assert(ps[i] == str_chunk_payloads(b.skip(cut))[i - 1]);
                assert(cs[i] == str_chunk_counts(b.skip(cut))[i - 1]);
            }
        }
    } else {
        let ps = str_chunk_payloads(b);
        let cs = str_chunk_counts(b);
        assert(ps.first() == b);
        assert(cs.first() == n as int);
        assert(ps.drop_first() =~= Seq::<Seq<u8>>::empty());
        assert(cs.drop_first() =~= Seq::<int>::empty());
        assert(sum_of(cs) == cs.first() + sum_of(cs.drop_first()));
        assert(sum_of(Seq::<int>::empty()) == 0);
        assert(cat_of(ps) == b + cat_of(Seq::<Seq<u8>>::empty()));
        assert(b + Seq::<u8>::empty() =~= b);
    }
}

/// An int encodes to one octet on `[-16, 47]`, two on `[-2048, 2047]`,
/// three on `[-262144, 262143]`, and five octets otherwise.
pub proof fn lemma_int_encoding_length(n: int)
    requires
        -0x8000_0000 <= n <= 0x7fff_ffff,
    ensures
        int_bytes(n).len() == if -16 <= n <= 47 {
            1int
        } else if -2048 <= n <= 2047 {
            2int
        } else if -262144 <= n <= 262143 {
            3int
        } else {
            5int
        },
{
    if !(-262144 <= n <= 262143) {
        lemma_be_bytes_len(to_u(n, 4), 4);
    }
}

/// A long encodes to one octet on `[-8, 15]`, two on `[-2048, 2047]`,
/// three on `[-262144, 262143]`, five when it fits 32 bits, and nine
/// octets otherwise.
pub proof fn lemma_long_encoding_length(n: int)
    requires
        -0x8000_0000_0000_0000 <= n <= 0x7fff_ffff_ffff_ffff,
    ensures
        long_bytes(n).len() == if -8 <= n <= 15 {
            1int
        } else if -2048 <= n <= 2047 {
            2int
        } else if -262144 <= n <= 262143 {
            3int
        } else if -0x8000_0000 <= n <= 0x7fff_ffff {
            5int
        } else {
            9int
        },
{
    if !(-262144 <= n <= 262143) {
        lemma_be_bytes_len(to_u(n, 4), 4);
        lemma_be_bytes_len(to_u(n, 8), 8);
    }
}

/// Whatever one parse returns is representable again, and the parse
/// consumed at least one octet.  Together with the encoder's contracts this
/// carries the second round trip: a value decoded from at most `0x7fffffff`
/// octets can be encoded, and decoding that encoding yields it once more.
pub proof fn lemma_decoded_encodable(b: Seq<u8>, st: DState)
    requires
        b.len() <= 0x7fff_ffff,
    ensures
        sd_value(b, st) matches Ok(t) ==> encodable(t.0) && t.1.len() < b.len(),
    decreases b.len(), 0int,
{
    if b.len() == 0 {
    } else {
        let tag = b[0];
        let r = b.skip(1);
        match crate::constant::ByteCodecType::spec_from(tag) {
            crate::constant::ByteCodecType::Binary(bin) => {
                let t2 = match bin {
                    crate::constant::Binary::Short(c) => c,
                    crate::constant::Binary::TwoOctet(c) => c,
                    crate::constant::Binary::Long(c) => c,
                };
                lemma_bin_chunks_consume(t2, r);
            },
            crate::constant::ByteCodecType::Str(_) => {
                lemma_str_chunks_consume(tag, r);
            },
            crate::constant::ByteCodecType::List(l) => {
                lemma_list_decoded_encodable(l, r, st);
                assert(sd_value(b, st) == sd_list(l, r, st));
            },
            crate::constant::ByteCodecType::Dict(typed) => {
                lemma_dict_decoded_encodable(typed, r, st);
                assert(sd_value(b, st) == sd_dict(typed, r, st));
            },
            crate::constant::ByteCodecType::Definition => {
                match sd_def(r, st) {
                    Ok((st2, r2)) => {
                        if r2.len() < b.len() {
                            lemma_decoded_encodable(r2, st2);
                            assert(sd_value(b, st) == sd_value(r2, st2));
                        }
                    },
                    Err(_) => {},
                }
            },
            crate::constant::ByteCodecType::Ref => {
                lemma_helper_decoded_encodable(r, st);
                assert(sd_value(b, st) == sd_ref(r, st));
            },
            crate::constant::ByteCodecType::Object(o) => {
                match o {
                    crate::constant::Object::Normal => {
                        lemma_helper_decoded_encodable(r, st);
                        assert(sd_value(b, st) == sd_object(r, st));
                        match sd_value(r, st) {
                            Ok((v, r1, st1)) => {
                                match v {
                                    ValView::Int(i) => {
                                        if r1.len() <= r.len() {
                                            lemma_object_decoded_encodable(i, r1, st1);
                                            assert(sd_object(r, st) == sd_object_idx(
                                                i,
                                                r1,
                                                st1,
                                            ));
                                        }
                                    },
                                    _ => {},
                                }
                            },
                            Err(_) => {},
                        }
                    },
                    crate::constant::Object::Compact(c) => {
                        lemma_object_decoded_encodable(c - 0x60, r, st);
                        assert(sd_value(b, st) == sd_object_idx(c - 0x60, r, st));
                    },
                }
            },
            _ => {},
        }
    }
}

/// One more parse, entered from a sibling at the same position.
proof fn lemma_helper_decoded_encodable(b: Seq<u8>, st: DState)
    requires
        b.len() <= 0x7fff_ffff,
    ensures
        sd_value(b, st) matches Ok(t) ==> encodable(t.0) && t.1.len() < b.len(),
    decreases b.len(), 1int,
{
    lemma_decoded_encodable(b, st);
}

/// The fields of a parsed object instantiation are representable.
proof fn lemma_object_decoded_encodable(i: int, b: Seq<u8>, st: DState)
    requires
        b.len() <= 0x7fff_ffff,
    ensures
        sd_object_idx(i, b, st) matches Ok(t) ==> encodable(t.0) && t.1.len() <= b.len(),
    decreases b.len(), 3int,
{
    if 0 <= i < st.defs.len() {
        let d = st.defs[i];
        lemma_vals_decoded_encodable(d.fields.len(), b, st);
        match sd_vals_n(d.fields.len(), b, st) {
            Ok((vs, r2, st2)) => {
                let ps = Seq::new(d.fields.len(), |k: int| (ValView::Str(d.fields[k]), vs[k]));
                assert forall|k: int| 0 <= k < ps.len() implies encodable(
                    (#[trigger] ps[k]).0,
                ) && encodable(ps[k].1) by {
                    assert(ps[k].1 == vs[k]);
                }
                crate::model::lemma_dedup_encodable(ps);
                crate::model::lemma_pairs_pointwise_to_rec(dedup_pairs(ps));
                crate::model::lemma_dedup_distinct(ps);
            },
            Err(_) => {},
        }
    }
}

/// Every value of a counted parse is representable, one octet consumed
/// each.
proof fn lemma_vals_decoded_encodable(n: nat, b: Seq<u8>, st: DState)
    requires
        b.len() <= 0x7fff_ffff,
    ensures
        sd_vals_n(n, b, st) matches Ok(t) ==> t.0.len() == n && t.1.len() + n <= b.len() && (
        forall|i: int| 0 <= i < t.0.len() ==> encodable(#[trigger] t.0[i])),
    decreases b.len(), 1int, n,
{
    if n > 0 {
        lemma_decoded_encodable(b, st);
        match sd_value(b, st) {
            Ok((v, r, st1)) => {
                if r.len() < b.len() {
                    lemma_vals_decoded_encodable((n - 1) as nat, r, st1);
                    match sd_vals_n((n - 1) as nat, r, st1) {
                        Ok((vs, r2, st2)) => {
                            assert forall|i: int| 0 <= i < (seq![v] + vs).len() implies encodable(
                                #[trigger] (seq![v] + vs)[i],
                            ) by {
                                if i > 0 {
                                    assert((seq![v] + vs)[i] == vs[i - 1]);
                                }
                            }
                        },
                        Err(_) => {},
                    }
                }
            },
            Err(_) => {},
        }
    }
}

/// Every value of a terminated parse is representable, one octet consumed
/// each, plus the terminator.
proof fn lemma_vals_z_decoded_encodable(b: Seq<u8>, st: DState)
    requires
        b.len() <= 0x7fff_ffff,
    ensures
        sd_vals_z(b, st) matches Ok(t) ==> t.0.len() + t.1.len() < b.len() && (forall|i: int|
            0 <= i < t.0.len() ==> encodable(#[trigger] t.0[i])),
    decreases b.len(), 1int,
{
    if b.len() > 0 && b[0] != 0x5a {
        lemma_decoded_encodable(b, st);
        match sd_value(b, st) {
            Ok((v, r, st1)) => {
                if r.len() < b.len() {
                    lemma_vals_z_decoded_encodable(r, st1);
                    match sd_vals_z(r, st1) {
                        Ok((vs, r2, st2)) => {
                            assert forall|i: int| 0 <= i < (seq![v] + vs).len() implies encodable(
                                #[trigger] (seq![v] + vs)[i],
                            ) by {
                                if i > 0 {
                                    assert((seq![v] + vs)[i] == vs[i - 1]);
                                }
                            }
                        },
                        Err(_) => {},
                    }
                }
            },
            Err(_) => {},
        }
    }
}

/// Every pair of a terminated parse is representable.
proof fn lemma_pairs_z_decoded_encodable(b: Seq<u8>, st: DState)
    requires
        b.len() <= 0x7fff_ffff,
    ensures
        sd_pairs_z(b, st) matches Ok(t) ==> t.1.len() < b.len() && encodable_pairs(t.0),
    decreases b.len(), 1int,
{
    if b.len() > 0 && b[0] != 0x5a {
        lemma_decoded_encodable(b, st);
        match sd_value(b, st) {
            Ok((k, r1, st1)) => {
                if r1.len() <= b.len() {
                    lemma_helper_decoded_encodable(r1, st1);
                    match sd_value(r1, st1) {
                        Ok((v, r2, st2)) => {
                            if r2.len() < b.len() {
                                lemma_pairs_z_decoded_encodable(r2, st2);
                                match sd_pairs_z(r2, st2) {
                                    Ok((ps, r3, st3)) => {
                                        assert((seq![(k, v)] + ps).first() == (k, v));
                                        assert((seq![(k, v)] + ps).drop_first() =~= ps);
                                    },
                                    Err(_) => {},
                                }
                            }
                        },
                        Err(_) => {},
                    }
                }
            },
            Err(_) => {},
        }
    }
}

/// A parsed list is representable: its length is bounded by the input.
proof fn lemma_list_decoded_encodable(l: crate::constant::List, b: Seq<u8>, st: DState)
    requires
        b.len() <= 0x7fff_ffff,
    ensures
        sd_list(l, b, st) matches Ok(t) ==> encodable(t.0) && t.1.len() <= b.len(),
    decreases b.len(), 2int,
{
    match l {
        crate::constant::List::ShortFixedLength(typed, n) => {
            if typed {
                lemma_type_decoded_encodable(b, st);
                match sd_type(b, st) {
                    Ok((t, r1, st1)) => {
                        if r1.len() <= b.len() {
                            lemma_vals_decoded_encodable(n as nat, r1, st1);
                        }
                    },
                    Err(_) => {},
                }
            } else {
                lemma_vals_decoded_encodable(n as nat, b, st);
            }
        },
        crate::constant::List::VarLength(typed) => {
            if typed {
                lemma_type_decoded_encodable(b, st);
                match sd_type(b, st) {
                    Ok((t, r1, st1)) => {
                        if r1.len() <= b.len() {
                            lemma_vals_z_decoded_encodable(r1, st1);
                        }
                    },
                    Err(_) => {},
                }
            } else {
                lemma_vals_z_decoded_encodable(b, st);
            }
        },
        crate::constant::List::FixedLength(typed) => {
            if typed {
                lemma_type_decoded_encodable(b, st);
                match sd_type(b, st) {
                    Ok((t, r1, st1)) => {
                        if r1.len() <= b.len() {
                            lemma_helper_decoded_encodable(r1, st1);
                            match sd_value(r1, st1) {
                                Ok((lv, r2, st2)) => {
                                    match lv {
                                        ValView::Int(n) => {
                                            if r2.len() <= b.len() {
                                                lemma_vals_decoded_encodable(
                                                    crate::wire::wrap_len(n),
                                                    r2,
                                                    st2,
                                                );
                                            }
                                        },
                                        _ => {},
                                    }
                                },
                                Err(_) => {},
                            }
                        }
                    },
                    Err(_) => {},
                }
            } else {
                lemma_helper_decoded_encodable(b, st);
                match sd_value(b, st) {
                    Ok((lv, r2, st2)) => {
                        match lv {
                            ValView::Int(n) => {
                                if r2.len() <= b.len() {
                                    lemma_vals_decoded_encodable(
                                        crate::wire::wrap_len(n),
                                        r2,
                                        st2,
                                    );
                                }
                            },
                            _ => {},
                        }
                    },
                    Err(_) => {},
                }
            }
        },
    }
}

/// A parsed map is representable.
proof fn lemma_dict_decoded_encodable(typed: bool, b: Seq<u8>, st: DState)
    requires
        b.len() <= 0x7fff_ffff,
    ensures
        sd_dict(typed, b, st) matches Ok(t) ==> encodable(t.0) && t.1.len() <= b.len(),
    decreases b.len(), 2int,
{
    if typed {
        lemma_type_decoded_encodable(b, st);
        match sd_type(b, st) {
            Ok((t, r1, st1)) => {
                if r1.len() <= b.len() {
                    lemma_pairs_z_decoded_encodable(r1, st1);
                    match sd_pairs_z(r1, st1) {
                        Ok((ps, r2, st2)) => {
                            lemma_dedup_pairs_encodable(ps);
                        },
                        Err(_) => {},
                    }
                }
            },
            Err(_) => {},
        }
    } else {
        lemma_pairs_z_decoded_encodable(b, st);
        match sd_pairs_z(b, st) {
            Ok((ps, r2, st2)) => {
                lemma_dedup_pairs_encodable(ps);
            },
            Err(_) => {},
        }
    }
}

/// Folding representable raw pairs yields a representable mapping.
proof fn lemma_dedup_pairs_encodable(ps: Seq<(ValView, ValView)>)
    requires
        encodable_pairs(ps),
    ensures
        encodable_pairs(dedup_pairs(ps)),
        distinct_keys(dedup_pairs(ps)),
{
    crate::model::lemma_pairs_rec_to_pointwise(ps);
    crate::model::lemma_dedup_encodable(ps);
    crate::model::lemma_pairs_pointwise_to_rec(dedup_pairs(ps));
    crate::model::lemma_dedup_distinct(ps);
}

/// A parsed type name consumed at least one octet.
proof fn lemma_type_decoded_encodable(b: Seq<u8>, st: DState)
    requires
        b.len() <= 0x7fff_ffff,
    ensures
        sd_type(b, st) matches Ok(t) ==> t.1.len() < b.len(),
    decreases b.len(), 1int,
{
    lemma_decoded_encodable(b, st);
}

/// A code-point walk never returns more than it was given.
proof fn lemma_utf8_walk_consume(n: nat, b: Seq<u8>)
    ensures
        crate::wire::sd_utf8(n, b) matches Ok(t) ==> t.1.len() <= b.len(),
    decreases n,
{
    if n > 0 && b.len() > 0 {
        let w = crate::wire::utf8_width(b[0]);
        if 1 <= w <= b.len() {
            lemma_utf8_walk_consume((n - 1) as nat, b.skip(w));
        }
    }
}

/// A string chunk chain never returns more than it was given.
proof fn lemma_str_chunks_consume(tag: u8, b: Seq<u8>)
    ensures
        crate::wire::sd_string_chunks(tag, b) matches Ok(t) ==> t.1.len() <= b.len(),
    decreases b.len(),
{
    if b.len() >= 2 {
        crate::wire::lemma_be_uint_bound(b.take(2));
    }
    if tag <= 0x1f {
        lemma_utf8_walk_consume(tag as nat, b);
    } else if 0x30 <= tag <= 0x33 {
        if b.len() >= 1 {
            lemma_utf8_walk_consume(((tag - 0x30) * 256 + b[0]) as nat, b.skip(1));
        }
    } else if tag == 0x53 {
        if b.len() >= 2 {
            lemma_utf8_walk_consume(crate::wire::be_uint(b.take(2)) as nat, b.skip(2));
        }
    } else if tag == 0x52 {
        if b.len() >= 2 {
            lemma_utf8_walk_consume(crate::wire::be_uint(b.take(2)) as nat, b.skip(2));
            match crate::wire::sd_utf8(
                crate::wire::be_uint(b.take(2)) as nat,
                b.skip(2),
            ) {
                Ok((p, r)) => {
                    if r.len() > 0 && r.skip(1).len() < b.len() {
                        lemma_str_chunks_consume(r[0], r.skip(1));
                    }
                },
                Err(_) => {},
            }
        }
    }
}

/// A binary chunk chain never returns more than it was given.
proof fn lemma_bin_chunks_consume(tag: u8, b: Seq<u8>)
    ensures
        crate::wire::sd_bin_chunks(tag, b) matches Ok(t) ==> t.1.len() <= b.len(),
    decreases b.len(),
{
    if b.len() >= 2 {
        crate::wire::lemma_be_uint_bound(b.take(2));
    }
    if tag == 0x41 {
        if b.len() >= 2 {
            let n = crate::wire::be_uint(b.take(2));
            if b.skip(2).len() >= n {
                let r = b.skip(2).skip(n);
                if r.len() > 0 && r.skip(1).len() < b.len() {
                    lemma_bin_chunks_consume(r[0], r.skip(1));
                }
            }
        }
    }
}

} // verus!
