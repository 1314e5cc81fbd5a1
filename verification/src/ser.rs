//! The encoder: a byte sink with the session caches (type names and class
//! definitions), consuming values or streaming calls.
//!
//! Each scalar writer's contract gives the exact octets appended, as the
//! `wire` byte functions define them; `serialize_value` promises on top of
//! that the round trip itself: the wire specification parses the appended
//! octets back to the value that was written, whatever bytes follow them.

use vstd::arithmetic::power2::{lemma2_to64, lemma2_to64_rest, pow2};
use vstd::prelude::*;
use vstd::string::StringSliceAdditionalSpecFns;
use vstd::utf8::encode_utf8;

use crate::error::Error;
use crate::fbits::{f5_pick, f5_pick_exec, f64_bits_small_int, i64_to_f64_bits, int_bits, p2,
    pow2_u64, small_int_of_bits};
use crate::model::{encodable, DState, DeErr, DefView, ValView};
use crate::parse::{
    find_str, lemma_find_str_at, lemma_find_str_none, lemma_parse_bytes, lemma_parse_date,
    lemma_parse_double, lemma_parse_int, lemma_parse_long, lemma_parse_ref, lemma_parse_simple,
    lemma_parse_string, lemma_parse_wtype, wtype_bytes, wtype_types,
};
use crate::text::{str_chunks_bytes, utf8_count, utf8_cut};
use crate::value::{pair_views_of, str_eq, string_views, value_view, views_of, Definition, List, MapValue, Value};
use crate::wire::{
    be_bytes, bytes_bytes, date_bytes, dbl_bytes, dbl_tail_bytes, int_bytes, lemma_be_bytes_index,
    lemma_be_bytes_len, long_bytes, ref_bytes, sd_value, to_u,
};

verus! {

broadcast use {vstd::std_specs::vec::group_vec_axioms, vstd::seq::group_seq_axioms};

/// The encoder over a growing byte buffer.
pub struct Serializer {
    writer: Vec<u8>,
    type_cache: Vec<String>,
    classes_cache: Vec<Definition>,
}

impl Serializer {
    /// The octets emitted so far.
    pub closed spec fn out(&self) -> Seq<u8> {
        self.writer@
    }

    /// The session state: the views of the two caches.
    pub closed spec fn st(&self) -> DState {
        DState {
            types: string_views(self.type_cache@),
            defs: Seq::new(self.classes_cache@.len(), |i: int| self.classes_cache@[i]@),
        }
    }

    /// A fresh encoder with an empty sink and empty caches.
    pub fn new() -> (r: Serializer)
        ensures
            r.out() == Seq::<u8>::empty(),
            r.st() == DState::empty(),
    {
        let s = Serializer { writer: Vec::new(), type_cache: Vec::new(), classes_cache: Vec::new() };
        proof {
            assert(s.out() =~= Seq::<u8>::empty());
            assert(s.st() =~= DState::empty());
        }
        s
    }

    /// The emitted octets, by reference.
    pub fn writer(&self) -> (r: &Vec<u8>)
        ensures
            r@ == self.out(),
    {
        &self.writer
    }

    /// The emitted octets, consuming the encoder.
    pub fn into_bytes(self) -> (r: Vec<u8>)
        ensures
            r@ == self.out(),
    {
        self.writer
    }

    /// The number of type names cached so far.
    pub fn type_cache_len(&self) -> (r: usize)
        ensures
            r == self.st().types.len(),
    {
        self.type_cache.len()
    }

    /// The cached index of a type name, if it has been emitted before.
    pub fn type_cache_index_of(&self, tp: &str) -> (r: Option<usize>)
        ensures
            match r {
                Some(i) => find_str(self.st().types, tp@) == i,
                None => find_str(self.st().types, tp@) < 0,
            },
    {
        let mut j: usize = 0;
        while j < self.type_cache.len()
            invariant
                j <= self.type_cache@.len(),
                forall|m: int| 0 <= m < j ==> string_views(self.type_cache@)[m] != tp@,
            decreases self.type_cache@.len() - j,
        {
            if str_eq(self.type_cache[j].as_str(), tp) {
                proof {
                    lemma_find_str_at(self.st().types, tp@, j as int);
                }
                return Some(j);
            }
            j = j + 1;
        }
        proof {
            lemma_find_str_none(self.st().types, tp@);
        }
        None
    }

    /// Append one octet.
    fn write_u8(&mut self, b: u8)
        ensures
            final(self).out() == old(self).out() + seq![b],
            final(self).st() == old(self).st(),
    {
        self.writer.push(b);
        proof {
            assert(final(self).out() =~= old(self).out() + seq![b]);
        }
    }

    /// Append pre-rendered octets verbatim.
    pub fn extend_from_slice(&mut self, b: &[u8])
        ensures
            final(self).out() == old(self).out() + b@,
            final(self).st() == old(self).st(),
    {
        let mut i: usize = 0;
        while i < b.len()
            invariant
                i <= b@.len(),
                self.out() =~= old(self).out() + b@.take(i as int),
                self.st() == old(self).st(),
            decreases b@.len() - i,
        {
            self.writer.push(b[i]);
            proof {
                assert(self.out() =~= old(self).out() + b@.take(i + 1 as int));
            }
            i = i + 1;
        }
        proof {
            assert(b@.take(b@.len() as int) =~= b@);
        }
    }

    /// Append `n` big-endian octets of `x`.
    fn write_be(&mut self, x: u64, n: usize)
        requires
            1 <= n <= 8,
            (x as int) < p2(8 * n as int),
        ensures
            final(self).out() == old(self).out() + be_bytes(x as int, n as nat),
            final(self).st() == old(self).st(),
    {
        proof {
            lemma_be_bytes_len(x as int, n as nat);
        }
        let mut i: usize = 0;
        while i < n
            invariant
                i <= n <= 8,
                (x as int) < p2(8 * n as int),
                self.out() =~= old(self).out() + be_bytes(x as int, n as nat).take(i as int),
                self.st() == old(self).st(),
            decreases n - i,
        {
            let sh: u64 = 8 * ((n - 1 - i) as u64);
            let d: u64 = pow2_u64(sh);
            proof {
                vstd::arithmetic::power2::lemma_pow2_pos(sh as nat);
            }
            let byte: u8 = ((x / d) % 256) as u8;
            proof {
                lemma_be_bytes_index(x as int, n as nat, i as int);
                lemma_be_bytes_len(x as int, n as nat);
                vstd::arithmetic::power2::lemma_pow2_pos(sh as nat);
                assert((x as int) / (d as int) == (x as int) / p2(8 * (n - 1 - i)));
                assert(be_bytes(x as int, n as nat).take(i + 1 as int) =~= be_bytes(
                    x as int,
                    n as nat,
                ).take(i as int).push(byte));
                assert(old(self).out() + be_bytes(x as int, n as nat).take(i + 1 as int) =~= (
                old(self).out() + be_bytes(x as int, n as nat).take(i as int)).push(byte));
            }
            self.writer.push(byte);
            proof {
                assert(self.out() =~= old(self).out() + be_bytes(x as int, n as nat).take(
                    i + 1 as int,
                ));
            }
            i = i + 1;
        }
        proof {
            assert(be_bytes(x as int, n as nat).take(n as int) =~= be_bytes(x as int, n as nat));
        }
    }

    /// Emit a null.
    pub fn serialize_null(&mut self)
        ensures
            final(self).out() == old(self).out() + seq![0x4eu8],
            final(self).st() == old(self).st(),
    {
        self.write_u8(0x4e);
    }

    /// Emit a boolean.
    pub fn serialize_bool(&mut self, value: bool)
        ensures
            final(self).out() == old(self).out() + seq![(if value {
                0x54u8
            } else {
                0x46u8
            })],
            final(self).st() == old(self).st(),
    {
        if value {
            self.write_u8(0x54);
        } else {
            self.write_u8(0x46);
        }
    }

    /// Emit an int, in the shortest form that holds it.
    pub fn serialize_int(&mut self, v: i32)
        ensures
            final(self).out() == old(self).out() + int_bytes(v as int),
            final(self).st() == old(self).st(),
    {
        proof {
            lemma2_to64();
        }
        if -16 <= v && v <= 47 {
            self.write_u8((v + 0x90) as u8);
        } else if -2048 <= v && v <= 2047 {
            let w: u32 = (v + 2048) as u32;
            proof {
                lemma_offset_div(v as int, 8, 256);
            }
            self.write_u8((0xc0 + w / 256) as u8);
            self.write_u8((w % 256) as u8);
            proof {
                assert(old(self).out() + seq![(0xc0 + w / 256) as u8] + seq![(w % 256) as u8]
                    =~= old(self).out() + int_bytes(v as int));
            }
        } else if -262144 <= v && v <= 262143 {
            let w: u32 = (v + 262144) as u32;
            proof {
                lemma_offset_div(v as int, 4, 0x1_0000);
                lemma_offset_div(v as int, 1024, 256);
            }
            self.write_u8((0xd0 + w / 0x1_0000) as u8);
            self.write_u8(((w / 256) % 256) as u8);
            self.write_u8((w % 256) as u8);
            proof {
                assert(old(self).out() + seq![(0xd0 + w / 0x1_0000) as u8] + seq![((w / 256)
                    % 256) as u8] + seq![(w % 256) as u8] =~= old(self).out() + int_bytes(
                    v as int,
                ));
            }
        } else {
            let u: u32 = if v >= 0 {
                v as u32
            } else {
                ((v as i64) + 0x1_0000_0000) as u32
            };
            self.write_u8(0x49);
            proof {
                lemma2_to64_rest();
            }
            self.write_be(u as u64, 4);
            proof {
                assert(old(self).out() + seq![0x49u8] + be_bytes(u as int, 4) =~= old(self).out() + int_bytes(v as int));
            }
        }
    }

    /// Emit a long, in the shortest form that holds it.
    pub fn serialize_long(&mut self, v: i64)
        ensures
            final(self).out() == old(self).out() + long_bytes(v as int),
            final(self).st() == old(self).st(),
    {
        proof {
            lemma2_to64();
            lemma2_to64_rest();
        }
        if -8 <= v && v <= 15 {
            self.write_u8((v + 0xe0) as u8);
        } else if -2048 <= v && v <= 2047 {
            let w: u32 = ((v + 2048) as i32) as u32;
            proof {
                lemma_offset_div(v as int, 8, 256);
            }
            self.write_u8((0xf0 + w / 256) as u8);
            self.write_u8((w % 256) as u8);
            proof {
                assert(old(self).out() + seq![(0xf0 + w / 256) as u8] + seq![(w % 256) as u8]
                    =~= old(self).out() + long_bytes(v as int));
            }
        } else if -262144 <= v && v <= 262143 {
            let w: u32 = ((v + 262144) as i32) as u32;
            proof {
                lemma_offset_div(v as int, 4, 0x1_0000);
                lemma_offset_div(v as int, 1024, 256);
            }
            self.write_u8((0x38 + w / 0x1_0000) as u8);
            self.write_u8(((w / 256) % 256) as u8);
            self.write_u8((w % 256) as u8);
            proof {
                assert(old(self).out() + seq![(0x38 + w / 0x1_0000) as u8] + seq![((w / 256)
                    % 256) as u8] + seq![(w % 256) as u8] =~= old(self).out() + long_bytes(
                    v as int,
                ));
            }
        } else if -0x8000_0000 <= v && v <= 0x7fff_ffff {
            let u: u32 = if v >= 0 {
                v as u32
            } else {
                (v + 0x1_0000_0000) as u32
            };
            self.write_u8(0x59);
            self.write_be(u as u64, 4);
            proof {
                assert(old(self).out() + seq![0x59u8] + be_bytes(u as int, 4) =~= old(self).out() + long_bytes(v as int));
            }
        } else {
            let u: u64 = if v >= 0 {
                v as u64
            } else {
                let m: u64 = (-(v as i128)) as u64;
                0xffff_ffff_ffff_ffff - m + 1
            };
            self.write_u8(0x4c);
            proof {
                crate::fbits::lemma_bitlen_bounds(1);
                assert((u as int) < p2(64)) by {
                    vstd::arithmetic::power2::lemma_pow2_adds(32, 32);
                }
                assert(u as int == to_u(v as int, 8));
            }
            self.write_be(u, 8);
            proof {
                assert(old(self).out() + seq![0x4cu8] + be_bytes(u as int, 8) =~= old(self).out() + long_bytes(v as int));
            }
        }
    }

    /// Emit a date, always in the millisecond form.
    pub fn serialize_date(&mut self, d: i64)
        ensures
            final(self).out() == old(self).out() + date_bytes(d as int),
            final(self).st() == old(self).st(),
    {
        let u: u64 = if d >= 0 {
            d as u64
        } else {
            let m: u64 = (-(d as i128)) as u64;
            0xffff_ffff_ffff_ffff - m + 1
        };
        self.write_u8(0x4a);
        proof {
            lemma2_to64_rest();
            assert((u as int) < p2(64)) by {
                vstd::arithmetic::power2::lemma_pow2_adds(32, 32);
                lemma2_to64();
            }
            assert(u as int == to_u(d as int, 8));
        }
        self.write_be(u, 8);
        proof {
            assert(old(self).out() + seq![0x4au8] + be_bytes(u as int, 8) =~= old(self).out()
                + date_bytes(d as int));
        }
    }

    /// Emit a back-reference.
    pub fn serialize_ref(&mut self, ref_num: u32)
        ensures
            final(self).out() == old(self).out() + ref_bytes(ref_num as int),
            final(self).st() == old(self).st(),
    {
        self.write_u8(0x51);
        let sv: i32 = if ref_num >= 0x8000_0000 {
            ((ref_num as i64) - 0x1_0000_0000) as i32
        } else {
            ref_num as i32
        };
        self.serialize_int(sv);
        proof {
            assert(old(self).out() + seq![0x51u8] + int_bytes(sv as int) =~= old(self).out()
                + ref_bytes(ref_num as int));
        }
    }

    /// Emit a double by its bit pattern, in a compact form only when that
    /// form decodes back to the same pattern.
    pub fn serialize_double(&mut self, bits: u64)
        ensures
            final(self).out() == old(self).out() + dbl_bytes(bits),
            final(self).st() == old(self).st(),
    {
        proof {
            lemma2_to64();
        }
        let small = small_int_of_bits(bits);
        match small {
            Some(n) => {
                if int_bits(n) == bits && -32768 <= n && n <= 32767 {
                    if n == 0 {
                        self.write_u8(0x5b);
                    } else if n == 1 {
                        self.write_u8(0x5c);
                    } else if -128 <= n && n <= 127 {
                        let b: u8 = if n < 0 {
                            (n + 256) as u8
                        } else {
                            n as u8
                        };
                        self.write_u8(0x5d);
                        self.write_u8(b);
                        proof {
                            assert(old(self).out() + seq![0x5du8] + seq![b] =~= old(self).out()
                                + dbl_bytes(bits));
                        }
                    } else {
                        let u: u16 = if n < 0 {
                            (n + 0x1_0000) as u16
                        } else {
                            n as u16
                        };
                        self.write_u8(0x5e);
                        proof {
                            lemma2_to64();
                        }
                        self.write_be(u as u64, 2);
                        proof {
                            assert(old(self).out() + seq![0x5eu8] + be_bytes(u as int, 2) =~= old(self).out() + dbl_bytes(bits));
                        }
                    }
                } else {
                    self.serialize_double_tail(bits);
                }
            },
            None => {
                self.serialize_double_tail(bits);
            },
        }
    }

    /// Emit the fallback forms of a double.
    fn serialize_double_tail(&mut self, bits: u64)
        ensures
            final(self).out() == old(self).out() + dbl_tail_bytes(bits),
            final(self).st() == old(self).st(),
    {
        match f5_pick_exec(bits) {
            Some(c) => {
                let u: u32 = if c >= 0 {
                    c as u32
                } else {
                    ((c as i64) + 0x1_0000_0000) as u32
                };
                self.write_u8(0x5f);
                proof {
                    lemma2_to64();
                    lemma2_to64_rest();
                    assert(u as int == to_u(c as int, 4));
                }
                self.write_be(u as u64, 4);
                proof {
                    assert(old(self).out() + seq![0x5fu8] + be_bytes(u as int, 4) =~= old(self).out() + dbl_tail_bytes(bits));
                }
            },
            None => {
                self.write_u8(0x44);
                proof {
                    lemma2_to64();
                    lemma2_to64_rest();
                    assert((bits as int) < p2(64)) by {
                        vstd::arithmetic::power2::lemma_pow2_adds(32, 32);
                    }
                }
                self.write_be(bits, 8);
                proof {
                    assert(old(self).out() + seq![0x44u8] + be_bytes(bits as int, 8) =~= old(self).out() + dbl_tail_bytes(bits));
                }
            },
        }
    }

    /// Append the octets of a slice between two positions.
    fn write_slice_range(&mut self, v: &[u8], from: usize, to: usize)
        requires
            from <= to <= v@.len(),
        ensures
            final(self).out() == old(self).out() + v@.subrange(from as int, to as int),
            final(self).st() == old(self).st(),
    {
        let mut i: usize = from;
        while i < to
            invariant
                from <= i <= to <= v@.len(),
                self.out() =~= old(self).out() + v@.subrange(from as int, i as int),
                self.st() == old(self).st(),
            decreases to - i,
        {
            self.writer.push(v[i]);
            proof {
                assert(self.out() =~= old(self).out() + v@.subrange(from as int, i + 1 as int));
            }
            i = i + 1;
        }
    }

    /// Emit a byte string: one length-tagged run when short enough, else
    /// full chunks and a final chunk.
    #[verifier::rlimit(80)]
    pub fn serialize_binary(&mut self, v: &[u8])
        ensures
            final(self).out() == old(self).out() + bytes_bytes(v@),
            final(self).st() == old(self).st(),
    {
        let mut off: usize = 0;
        proof {
            assert(v@.skip(0) =~= v@);
            assert(self.out().skip(old(self).out().len() as int) =~= Seq::<u8>::empty());
            assert(Seq::<u8>::empty() + bytes_bytes(v@) =~= bytes_bytes(v@));
            assert(self.out().take(old(self).out().len() as int) =~= old(self).out());
        }
        while v.len() - off > 0xffff
            invariant
                off <= v@.len(),
                self.st() == old(self).st(),
                self.out().len() >= old(self).out().len(),
                self.out().take(old(self).out().len() as int) == old(self).out(),
                bytes_bytes(v@) == self.out().skip(old(self).out().len() as int) + bytes_bytes(
                    v@.skip(off as int),
                ),
            decreases v@.len() - off,
        {
            let ghost pre = self.out();
            let ghost cur = v@.skip(off as int);
            self.write_u8(0x41);
            proof {
                lemma2_to64();
            }
            self.write_be(0xffff, 2);
            self.write_slice_range(v, off, off + 0xffff);
            proof {
                assert(cur.take(0xffff) =~= v@.subrange(off as int, off + 0xffff));
                assert(cur.skip(0xffff) =~= v@.skip(off + 0xffff));
                assert(bytes_bytes(cur) == seq![0x41u8] + be_bytes(0xffff, 2) + cur.take(0xffff)
                    + bytes_bytes(cur.skip(0xffff)));
                assert(self.out() =~= pre + seq![0x41u8] + be_bytes(0xffff, 2) + v@.subrange(
                    off as int,
                    off + 0xffff,
                ));
                assert(self.out().skip(old(self).out().len() as int) =~= pre.skip(
                    old(self).out().len() as int,
                ) + seq![0x41u8] + be_bytes(0xffff, 2) + cur.take(0xffff));
                assert(pre.skip(old(self).out().len() as int) + seq![0x41u8] + be_bytes(0xffff, 2)
                    + cur.take(0xffff) + bytes_bytes(cur.skip(0xffff)) =~= pre.skip(
                    old(self).out().len() as int,
                ) + (seq![0x41u8] + be_bytes(0xffff, 2) + cur.take(0xffff) + bytes_bytes(
                    cur.skip(0xffff),
                )));
                assert(self.out().take(old(self).out().len() as int) =~= old(self).out());
            }
            off = off + 0xffff;
        }
        let ghost pre = self.out();
        let ghost cur = v@.skip(off as int);
        let rem: usize = v.len() - off;
        if rem < 16 {
            self.write_u8((0x20 + rem) as u8);
        } else {
            self.write_u8(0x42);
            proof {
                lemma2_to64();
            }
            self.write_be(rem as u64, 2);
        }
        self.write_slice_range(v, off, v.len());
        proof {
            assert(cur.len() == rem);
            assert(cur =~= v@.subrange(off as int, v@.len() as int));
            if rem < 16 {
                assert(bytes_bytes(cur) == seq![(0x20 + rem) as u8] + cur);
                assert(self.out() =~= pre + seq![(0x20 + rem) as u8] + cur);
            } else {
                assert(bytes_bytes(cur) == seq![0x42u8] + be_bytes(rem as int, 2) + cur);
                assert(self.out() =~= pre + seq![0x42u8] + be_bytes(rem as int, 2) + cur);
            }
            assert(self.out().skip(old(self).out().len() as int) =~= pre.skip(
                old(self).out().len() as int,
            ) + bytes_bytes(cur));
            assert(bytes_bytes(v@) =~= self.out().skip(old(self).out().len() as int));
            assert(self.out() =~= old(self).out() + bytes_bytes(v@));
        }
    }

    /// Emit a string: chunks while more points remain than one chunk can
    /// carry, then a final form picked by the remaining count.
    #[verifier::rlimit(80)]
    pub fn serialize_string(&mut self, v: &str)
        ensures
            final(self).out() == old(self).out() + str_chunks_bytes(encode_utf8(v@)),
            final(self).st() == old(self).st(),
    {
        let b: &[u8] = v.as_bytes();
        proof {
            vstd::utf8::encode_utf8_valid_utf8(v@);
        }
        let mut off: usize = 0;
        proof {
            assert(b@.skip(0) =~= b@);
            assert(self.out().skip(old(self).out().len() as int) =~= Seq::<u8>::empty());
            assert(Seq::<u8>::empty() + str_chunks_bytes(b@) =~= str_chunks_bytes(b@));
            assert(self.out().take(old(self).out().len() as int) =~= old(self).out());
        }
        loop
            invariant
                off <= b@.len(),
                b@ == encode_utf8(v@),
                vstd::utf8::valid_utf8(b@.skip(off as int)),
                self.st() == old(self).st(),
                self.out().len() >= old(self).out().len(),
                self.out().take(old(self).out().len() as int) == old(self).out(),
                str_chunks_bytes(b@) == self.out().skip(old(self).out().len() as int)
                    + str_chunks_bytes(b@.skip(off as int)),
            decreases b@.len() - off,
        {
            let ghost pre = self.out();
            let ghost cur = b@.skip(off as int);
            let n: usize = count_points(b, off);
            if n > 0x7fff {
                proof {
                    crate::text::lemma_utf8_cut(cur, 0x7fff);
                }
                let cutoff: usize = cut_points(b, off, 0x7fff);
                self.write_u8(0x52);
                proof {
                    lemma2_to64();
                }
                self.write_be(0x7fff, 2);
                self.write_slice_range(b, off, cutoff);
                proof {
                    let cut = utf8_cut(cur, 0x7fff);
                    assert(cur.take(cut) =~= b@.subrange(off as int, cutoff as int));
                    assert(cur.skip(cut) =~= b@.skip(cutoff as int));
                    assert(str_chunks_bytes(cur) == seq![0x52u8] + be_bytes(0x7fff, 2) + cur.take(
                        cut,
                    ) + str_chunks_bytes(cur.skip(cut)));
                    assert(self.out() =~= pre + seq![0x52u8] + be_bytes(0x7fff, 2) + cur.take(
                        cut,
                    ));
                    assert(self.out().skip(old(self).out().len() as int) =~= pre.skip(
                        old(self).out().len() as int,
                    ) + seq![0x52u8] + be_bytes(0x7fff, 2) + cur.take(cut));
                    assert(pre.skip(old(self).out().len() as int) + seq![0x52u8] + be_bytes(
                        0x7fff,
                        2,
                    ) + cur.take(cut) + str_chunks_bytes(cur.skip(cut)) =~= pre.skip(
                        old(self).out().len() as int,
                    ) + (seq![0x52u8] + be_bytes(0x7fff, 2) + cur.take(cut) + str_chunks_bytes(
                        cur.skip(cut),
                    )));
                    assert(self.out().take(old(self).out().len() as int) =~= old(self).out());
                }
                off = cutoff;
            } else {
                if n <= 31 {
                    self.write_u8(n as u8);
                } else if n <= 1023 {
                    self.write_u8((0x30 + n / 256) as u8);
                    self.write_u8((n % 256) as u8);
                } else {
                    self.write_u8(0x53);
                    proof {
                        lemma2_to64();
                    }
                    self.write_be(n as u64, 2);
                }
                self.write_slice_range(b, off, b.len());
                proof {
                    assert(cur =~= b@.subrange(off as int, b@.len() as int));
                    if n <= 31 {
                        assert(str_chunks_bytes(cur) == seq![n as u8] + cur);
                        assert(self.out() =~= pre + seq![n as u8] + cur);
                    } else if n <= 1023 {
                        assert(str_chunks_bytes(cur) == seq![(0x30 + n / 256) as u8, (n
                            % 256) as u8] + cur);
                        assert(self.out() =~= pre + seq![(0x30 + n / 256) as u8] + seq![(n
                            % 256) as u8] + cur);
                        assert(pre + seq![(0x30 + n / 256) as u8] + seq![(n % 256) as u8] + cur
                            =~= pre + (seq![(0x30 + n / 256) as u8, (n % 256) as u8] + cur));
                    } else {
                        assert(str_chunks_bytes(cur) == seq![0x53u8] + be_bytes(n as int, 2)
                            + cur);
                        assert(self.out() =~= pre + seq![0x53u8] + be_bytes(n as int, 2) + cur);
                    }
                    assert(self.out().skip(old(self).out().len() as int) =~= pre.skip(
                        old(self).out().len() as int,
                    ) + str_chunks_bytes(cur));
                    assert(str_chunks_bytes(b@) =~= self.out().skip(
                        old(self).out().len() as int,
                    ));
                    assert(self.out() =~= old(self).out() + str_chunks_bytes(b@));
                }
                return ;
            }
        }
    }

    /// Emit a type name: an int index when the name is already cached, else
    /// the name itself, which is then cached.
    pub fn write_type(&mut self, tp: &str) -> (r: Result<(), Error>)
        ensures
            r is Ok,
            final(self).out() == old(self).out() + wtype_bytes(old(self).st().types, tp@),
            final(self).st() == (DState {
                types: wtype_types(old(self).st().types, tp@),
                defs: old(self).st().defs,
            }),
    {
        let found = self.type_cache_index_of(tp);
        match found {
            Some(i) => {
                if i <= 0x7fff_ffff {
                    self.serialize_int(i as i32);
                    proof {
                        assert(old(self).st() =~= (DState {
                            types: wtype_types(old(self).st().types, tp@),
                            defs: old(self).st().defs,
                        }));
                    }
                    Ok(())
                } else {
                    self.serialize_string(tp);
                    self.type_cache.push(tp.to_owned());
                    proof {
                        assert(string_views(self.type_cache@) =~= old(self).st().types.push(
                            tp@,
                        ));
                        assert(self.st() =~= (DState {
                            types: wtype_types(old(self).st().types, tp@),
                            defs: old(self).st().defs,
                        }));
                    }
                    Ok(())
                }
            },
            None => {
                self.serialize_string(tp);
                self.type_cache.push(tp.to_owned());
                proof {
                    assert(string_views(self.type_cache@) =~= old(self).st().types.push(tp@));
                    assert(self.st() =~= (DState {
                        types: wtype_types(old(self).st().types, tp@),
                        defs: old(self).st().defs,
                    }));
                }
                Ok(())
            },
        }
    }

    /// Emit the `'Z'` terminator of a variable-length container.
    pub fn write_object_end(&mut self)
        ensures
            final(self).out() == old(self).out() + seq![0x5au8],
            final(self).st() == old(self).st(),
    {
        self.write_u8(0x5a);
    }

    /// Emit the opening of a map: typed or untyped.
    pub fn write_map_start(&mut self, tp: Option<&str>) -> (r: Result<(), Error>)
        ensures
            r is Ok,
            match tp {
                Some(t) => final(self).out() == old(self).out() + seq![0x4du8] + wtype_bytes(
                    old(self).st().types,
                    t@,
                ) && final(self).st() == (DState {
                    types: wtype_types(old(self).st().types, t@),
                    defs: old(self).st().defs,
                }),
                None => final(self).out() == old(self).out() + seq![0x48u8] && final(self).st()
                    == old(self).st(),
            },
    {
        match tp {
            Some(t) => {
                self.write_u8(0x4d);
                let r = self.write_type(t);
                Ok(())
            },
            None => {
                self.write_u8(0x48);
                Ok(())
            },
        }
    }

    /// Emit the opening of a list: the short form when at most seven
    /// elements follow, else the length-prefixed form.
    pub fn write_list_begin(&mut self, length: usize, tp: Option<&str>) -> (r: Result<(), Error>)
        requires
            length <= 0x7fff_ffff,
        ensures
            r is Ok,
            match tp {
                Some(t) => final(self).st() == (DState {
                    types: wtype_types(old(self).st().types, t@),
                    defs: old(self).st().defs,
                }) && (if length <= 7 {
                    final(self).out() == old(self).out() + seq![(0x70 + length) as u8]
                        + wtype_bytes(old(self).st().types, t@)
                } else {
                    final(self).out() == old(self).out() + seq![0x56u8] + wtype_bytes(
                        old(self).st().types,
                        t@,
                    ) + int_bytes(length as int)
                }),
                None => final(self).st() == old(self).st() && (if length <= 7 {
                    final(self).out() == old(self).out() + seq![(0x78 + length) as u8]
                } else {
                    final(self).out() == old(self).out() + seq![0x58u8] + int_bytes(
                        length as int,
                    )
                }),
            },
    {
        match tp {
            Some(t) => {
                if length <= 7 {
                    self.write_u8((0x70 + length) as u8);
                    let r = self.write_type(t);
                    Ok(())
                } else {
                    self.write_u8(0x56);
                    let r = self.write_type(t);
                    self.serialize_int(length as i32);
                    Ok(())
                }
            },
            None => {
                if length <= 7 {
                    self.write_u8((0x78 + length) as u8);
                    Ok(())
                } else {
                    self.write_u8(0x58);
                    self.serialize_int(length as i32);
                    Ok(())
                }
            },
        }
    }

    /// Emit a class definition unless its name is already cached: a cached
    /// name returns its prior index and emits nothing.
    pub fn write_definition(&mut self, def: &Definition) -> (r: Result<usize, Error>)
        requires
            def.fields@.len() <= 0x7fff_ffff,
        ensures
            ({
                let i = find_str(def_names(old(self).st().defs), def@.name);
                if i >= 0 {
                    r matches Ok(x) && x as int == i && *final(self) == *old(self)
                } else {
                    r matches Ok(x) && x as int == old(self).st().defs.len() && final(self).out()
                        == old(self).out() + def_bytes(def@) && final(self).st() == (DState {
                        types: old(self).st().types,
                        defs: old(self).st().defs.push(def@),
                    })
                }
            }),
    {
        let ghost names = def_names(self.st().defs);
        let mut j: usize = 0;
        while j < self.classes_cache.len()
            invariant
                j <= self.classes_cache@.len(),
                names == def_names(self.st().defs),
                names.len() == self.classes_cache@.len(),
                forall|m: int| 0 <= m < j ==> names[m] != def@.name,
                *self == *old(self),
            decreases self.classes_cache@.len() - j,
        {
            proof {
                assert(names[j as int] == self.classes_cache@[j as int]@.name);
            }
            if str_eq(self.classes_cache[j].name.as_str(), def.name.as_str()) {
                proof {
                    lemma_find_str_at(names, def@.name, j as int);
                }
                return Ok(j);
            }
            j = j + 1;
        }
        proof {
            lemma_find_str_none(names, def@.name);
        }
        let idx: usize = self.classes_cache.len();
        let ghost out0 = self.out();
        self.write_u8(0x43);
        self.serialize_string(def.name.as_str());
        self.serialize_int(def.fields.len() as i32);
        let ghost out1 = self.out();
        let mut k: usize = 0;
        while k < def.fields.len()
            invariant
                k <= def.fields@.len(),
                self.st() == old(self).st(),
                self.out() =~= out1 + cat_strs(string_views(def.fields@).take(k as int)),
            decreases def.fields@.len() - k,
        {
            let ghost pre = self.out();
            self.serialize_string(def.fields[k].as_str());
            proof {
                lemma_cat_snoc(
                    string_views(def.fields@).take(k as int),
                    string_views(def.fields@)[k as int],
                );
                assert(string_views(def.fields@).take(k + 1 as int) =~= string_views(
                    def.fields@,
                ).take(k as int).push(string_views(def.fields@)[k as int]));
                assert(self.out() =~= out1 + cat_strs(
                    string_views(def.fields@).take(k + 1 as int),
                ));
            }
            k = k + 1;
        }
        let mut fields_copy: Vec<String> = Vec::new();
        let mut m: usize = 0;
        while m < def.fields.len()
            invariant
                m <= def.fields@.len(),
                fields_copy@.len() == m,
                string_views(fields_copy@) =~= string_views(def.fields@).take(m as int),
            decreases def.fields@.len() - m,
        {
            fields_copy.push(def.fields[m].clone());
            proof {
                assert(string_views(fields_copy@) =~= string_views(def.fields@).take(
                    m + 1 as int,
                ));
            }
            m = m + 1;
        }
        let name_copy: String = def.name.clone();
        let ghost st2 = self.st();
        self.classes_cache.push(Definition { name: name_copy, fields: fields_copy });
        proof {
            assert(string_views(def.fields@).take(def.fields@.len() as int) =~= string_views(
                def.fields@,
            ));
            assert(self.classes_cache@.last()@ =~= def@);
            assert(Seq::new(
                self.classes_cache@.len(),
                |i: int| self.classes_cache@[i]@,
            ) =~= st2.defs.push(def@));
            assert(self.st() =~= (DState { types: st2.types, defs: st2.defs.push(def@) }));
            assert(self.out() =~= old(self).out() + def_bytes(def@));
        }
        Ok(idx)
    }

    /// Emit an object tag referencing a definition, writing the definition
    /// first if its name is new to this session.
    pub fn write_object_start(&mut self, def: &Definition) -> (r: Result<usize, Error>)
        requires
            def.fields@.len() <= 0x7fff_ffff,
        ensures
            ({
                let i0 = find_str(def_names(old(self).st().defs), def@.name);
                let idx = if i0 >= 0 {
                    i0
                } else {
                    old(self).st().defs.len() as int
                };
                let head: Seq<u8> = if i0 >= 0 {
                    Seq::empty()
                } else {
                    def_bytes(def@)
                };
                let tag: Seq<u8> = if idx <= 15 {
                    seq![(0x60 + idx) as u8]
                } else {
                    seq![0x4fu8] + int_bytes(idx)
                };
                let st2 = if i0 >= 0 {
                    old(self).st()
                } else {
                    (DState { types: old(self).st().types, defs: old(self).st().defs.push(def@) })
                };
                if idx <= 0x7fff_ffff {
                    r matches Ok(x) && x as int == idx && final(self).st() == st2 && final(self).out() == old(self).out() + head + tag
                } else {
                    r is Err
                }
            }),
    {
        let ghost i0 = find_str(def_names(old(self).st().defs), def@.name);
        let ghost head: Seq<u8> = if i0 >= 0 {
            Seq::empty()
        } else {
            def_bytes(def@)
        };
        proof {
            if i0 >= 0 {
                assert(old(self).out() + Seq::<u8>::empty() =~= old(self).out());
            }
        }
        let idx = match self.write_definition(def) {
            Ok(i) => i,
            Err(e) => {
                return Err(e);
            },
        };
        if idx <= 15 {
            self.write_u8((0x60 + idx) as u8);
            proof {
                assert(final(self).out() =~= old(self).out() + head + seq![(0x60 + idx) as u8]);
            }
            Ok(idx)
        } else if idx <= 0x7fff_ffff {
            self.write_u8(0x4f);
            self.serialize_int(idx as i32);
            proof {
                assert(final(self).out() =~= old(self).out() + head + (seq![0x4fu8] + int_bytes(
                    idx as int,
                )));
            }
            Ok(idx)
        } else {
            Err(Error::SyntaxError(crate::error::ErrorKind::OutOfDefinitionRange(idx)))
        }
    }

    /// Emit one value.  The octets appended parse back, under the wire
    /// specification and whatever bytes follow them, to exactly the value
    /// written, with the decoder's tables tracking the encoder's caches:
    /// decoding an encoding returns the original value.
    #[verifier::rlimit(100)]
    pub fn serialize_value(&mut self, value: &Value) -> (r: Result<(), Error>)
        requires
            encodable(value_view(*value)),
        ensures
            r is Ok,
            final(self).out().len() > old(self).out().len(),
            final(self).out().take(old(self).out().len() as int) == old(self).out(),
            final(self).out().skip(old(self).out().len() as int) == enc_value(
                value_view(*value),
                old(self).st().types,
            ).0,
            final(self).st().types == enc_value(value_view(*value), old(self).st().types).1,
            final(self).st().defs == old(self).st().defs,
            forall|q: Seq<u8>| #[trigger] sd_value(
                final(self).out().skip(old(self).out().len() as int) + q,
                old(self).st(),
            ) == Ok::<(ValView, Seq<u8>, DState), DeErr>(
                (value_view(*value), q, final(self).st()),
            ),
        decreases value, 0int,
    {
        let ghost st0 = self.st();
        let ghost out0 = self.out();
        match value {
            Value::Null => {
                self.serialize_null();
                proof {
                    assert forall|q: Seq<u8>| #[trigger] sd_value(
                        self.out().skip(out0.len() as int) + q,
                        st0,
                    ) == Ok::<(ValView, Seq<u8>, DState), DeErr>(
                        (value_view(*value), q, self.st()),
                    ) by {
                        assert(self.out().skip(out0.len() as int) =~= seq![0x4eu8]);
                        lemma_parse_simple(0x4e, ValView::Null, q, st0);
                    }
                    assert(self.out().take(out0.len() as int) =~= out0);
                }
                Ok(())
            },
            Value::Bool(bv) => {
                self.serialize_bool(*bv);
                proof {
                    let tag: u8 = if *bv {
                        0x54
                    } else {
                        0x46
                    };
                    assert forall|q: Seq<u8>| #[trigger] sd_value(
                        self.out().skip(out0.len() as int) + q,
                        st0,
                    ) == Ok::<(ValView, Seq<u8>, DState), DeErr>(
                        (value_view(*value), q, self.st()),
                    ) by {
                        assert(self.out().skip(out0.len() as int) =~= seq![tag]);
                        lemma_parse_simple(tag, ValView::Bool(*bv), q, st0);
                    }
                    assert(self.out().take(out0.len() as int) =~= out0);
                }
                Ok(())
            },
            Value::Int(i) => {
                self.serialize_int(*i);
                proof {
                    assert forall|q: Seq<u8>| #[trigger] sd_value(
                        self.out().skip(out0.len() as int) + q,
                        st0,
                    ) == Ok::<(ValView, Seq<u8>, DState), DeErr>(
                        (value_view(*value), q, self.st()),
                    ) by {
                        assert(self.out().skip(out0.len() as int) =~= int_bytes(*i as int));
                        lemma_parse_int(*i as int, q, st0);
                    }
                    assert(self.out().take(out0.len() as int) =~= out0);
                    assert(int_bytes(*i as int).len() >= 1);
                }
                Ok(())
            },
            Value::Long(l) => {
                self.serialize_long(*l);
                proof {
                    assert forall|q: Seq<u8>| #[trigger] sd_value(
                        self.out().skip(out0.len() as int) + q,
                        st0,
                    ) == Ok::<(ValView, Seq<u8>, DState), DeErr>(
                        (value_view(*value), q, self.st()),
                    ) by {
                        assert(self.out().skip(out0.len() as int) =~= long_bytes(*l as int));
                        lemma_parse_long(*l as int, q, st0);
                    }
                    assert(self.out().take(out0.len() as int) =~= out0);
                }
                Ok(())
            },
            Value::Double(d) => {
                self.serialize_double(*d);
                proof {
                    assert forall|q: Seq<u8>| #[trigger] sd_value(
                        self.out().skip(out0.len() as int) + q,
                        st0,
                    ) == Ok::<(ValView, Seq<u8>, DState), DeErr>(
                        (value_view(*value), q, self.st()),
                    ) by {
                        assert(self.out().skip(out0.len() as int) =~= dbl_bytes(*d));
                        lemma_parse_double(*d, q, st0);
                    }
                    assert(self.out().take(out0.len() as int) =~= out0);
                    assert(dbl_bytes(*d).len() >= 1) by {
                        lemma_parse_double(*d, Seq::empty(), st0);
                    }
                }
                Ok(())
            },
            Value::Date(d) => {
                self.serialize_date(*d);
                proof {
                    assert forall|q: Seq<u8>| #[trigger] sd_value(
                        self.out().skip(out0.len() as int) + q,
                        st0,
                    ) == Ok::<(ValView, Seq<u8>, DState), DeErr>(
                        (value_view(*value), q, self.st()),
                    ) by {
                        assert(self.out().skip(out0.len() as int) =~= date_bytes(*d as int));
                        lemma_parse_date(*d as int, q, st0);
                    }
                    assert(self.out().take(out0.len() as int) =~= out0);
                }
                Ok(())
            },
            Value::Bytes(bv) => {
                self.serialize_binary(bv.as_slice());
                proof {
                    assert forall|q: Seq<u8>| #[trigger] sd_value(
                        self.out().skip(out0.len() as int) + q,
                        st0,
                    ) == Ok::<(ValView, Seq<u8>, DState), DeErr>(
                        (value_view(*value), q, self.st()),
                    ) by {
                        assert(self.out().skip(out0.len() as int) =~= bytes_bytes(bv@));
                        lemma_parse_bytes(bv@, q, st0);
                    }
                    assert(self.out().take(out0.len() as int) =~= out0);
                    assert(bytes_bytes(bv@).len() >= 1);
                }
                Ok(())
            },
            Value::String(sv) => {
                self.serialize_string(sv.as_str());
                proof {
                    let p = encode_utf8(sv@);
                    vstd::utf8::encode_utf8_valid_utf8(sv@);
                    vstd::utf8::encode_utf8_decode_utf8(sv@);
                    assert forall|q: Seq<u8>| #[trigger] sd_value(
                        self.out().skip(out0.len() as int) + q,
                        st0,
                    ) == Ok::<(ValView, Seq<u8>, DState), DeErr>(
                        (value_view(*value), q, self.st()),
                    ) by {
                        assert(self.out().skip(out0.len() as int) =~= str_chunks_bytes(p));
                        lemma_parse_string(p, q, st0);
                    }
                    assert(self.out().take(out0.len() as int) =~= out0);
                    assert(str_chunks_bytes(p).len() >= 1) by {
                        crate::parse::lemma_str_chunks_parse(p, Seq::empty());
                    }
                }
                Ok(())
            },
            Value::Ref(u) => {
                self.serialize_ref(*u);
                proof {
                    assert forall|q: Seq<u8>| #[trigger] sd_value(
                        self.out().skip(out0.len() as int) + q,
                        st0,
                    ) == Ok::<(ValView, Seq<u8>, DState), DeErr>(
                        (value_view(*value), q, self.st()),
                    ) by {
                        assert(self.out().skip(out0.len() as int) =~= ref_bytes(*u as int));
                        lemma_parse_ref(*u as int, q, st0);
                    }
                    assert(self.out().take(out0.len() as int) =~= out0);
                }
                Ok(())
            },
            Value::List(l) => self.serialize_list(l),
            Value::Dict(m) => self.serialize_map(m),
        }
    }

    /// Emit a list, typed or untyped, in the fixed-length forms.
    #[verifier::rlimit(100)]
    pub fn serialize_list(&mut self, list: &List) -> (r: Result<(), Error>)
        requires
            encodable(value_view(Value::List(*list))),
        ensures
            r is Ok,
            final(self).out().len() > old(self).out().len(),
            final(self).out().take(old(self).out().len() as int) == old(self).out(),
            final(self).out().skip(old(self).out().len() as int) == enc_value(
                value_view(Value::List(*list)),
                old(self).st().types,
            ).0,
            final(self).st().types == enc_value(
                value_view(Value::List(*list)),
                old(self).st().types,
            ).1,
            final(self).st().defs == old(self).st().defs,
            forall|q: Seq<u8>| #[trigger] sd_value(
                final(self).out().skip(old(self).out().len() as int) + q,
                old(self).st(),
            ) == Ok::<(ValView, Seq<u8>, DState), DeErr>(
                (value_view(Value::List(*list)), q, final(self).st()),
            ),
        decreases list, 0int,
    {
        let ghost st0 = self.st();
        let ghost out0 = self.out();
        match list {
            List::Typed(t, elems) => {
                let n: usize = elems.len();
                proof {
                    assert(views_of(elems@).len() == elems@.len());
                }
                let r0 = self.write_list_begin(n, Some(t.as_str()));
                let ghost st1 = self.st();
                let ghost out1 = self.out();
                proof {
                    assert forall|i: int| 0 <= i < elems@.len() implies encodable(
                        value_view(#[trigger] elems@[i]),
                    ) by {
                        assert(views_of(elems@)[i] == value_view(elems@[i]));
                        assert(encodable(views_of(elems@)[i]));
                    }
                }
                let r1 = self.serialize_elements(elems, 0);
                proof {
                    assert(self.out() =~= out1 + self.out().skip(out1.len() as int));
                    let hd = out1.skip(out0.len() as int);
                    let ed = self.out().skip(out1.len() as int);
                    assert(self.out().skip(out0.len() as int) =~= hd + ed);
                    assert(self.out().take(out0.len() as int) =~= out0);
                    assert(views_of(elems@).skip(0) =~= views_of(elems@));
                    assert(ed == enc_vals(views_of(elems@), st1.types).0);
                    assert(self.st().types == enc_vals(views_of(elems@), st1.types).1);
                    assert(st1.types == wtype_types(st0.types, t@));
                    assert(hd + ed =~= enc_value(value_view(Value::List(*list)), st0.types).0);
                    if n <= 7 {
                        assert(hd =~= seq![(0x70 + n) as u8] + wtype_bytes(st0.types, t@));
                        crate::parse::lemma_compose_list_typed_short(
                            st0,
                            st1,
                            self.st(),
                            t@,
                            n as int,
                            hd,
                            ed,
                            views_of(elems@),
                        );
                    } else {
                        assert(hd =~= seq![0x56u8] + wtype_bytes(st0.types, t@) + int_bytes(
                            n as int,
                        ));
                        crate::parse::lemma_compose_list_typed_long(
                            st0,
                            st1,
                            self.st(),
                            t@,
                            n as int,
                            hd,
                            ed,
                            views_of(elems@),
                        );
                    }
                    assert forall|q: Seq<u8>| #[trigger] sd_value(
                        self.out().skip(out0.len() as int) + q,
                        st0,
                    ) == Ok::<(ValView, Seq<u8>, DState), DeErr>(
                        (value_view(Value::List(*list)), q, self.st()),
                    ) by {
                        assert(self.out().skip(out0.len() as int) + q =~= (hd + ed) + q);
                        assert(sd_value((hd + ed) + q, st0) == Ok::<
                            (ValView, Seq<u8>, DState),
                            DeErr,
                        >((ValView::List(Some(t@), views_of(elems@)), q, self.st())));
                    }
                }
                Ok(())
            },
            List::Untyped(elems) => {
                let n: usize = elems.len();
                proof {
                    assert(views_of(elems@).len() == elems@.len());
                }
                let r0 = self.write_list_begin(n, None);
                let ghost st1 = self.st();
                let ghost out1 = self.out();
                proof {
                    assert forall|i: int| 0 <= i < elems@.len() implies encodable(
                        value_view(#[trigger] elems@[i]),
                    ) by {
                        assert(views_of(elems@)[i] == value_view(elems@[i]));
                        assert(encodable(views_of(elems@)[i]));
                    }
                }
                let r1 = self.serialize_elements(elems, 0);
                proof {
                    assert(self.out() =~= out1 + self.out().skip(out1.len() as int));
                    let hd = out1.skip(out0.len() as int);
                    let ed = self.out().skip(out1.len() as int);
                    assert(self.out().skip(out0.len() as int) =~= hd + ed);
                    assert(self.out().take(out0.len() as int) =~= out0);
                    assert(views_of(elems@).skip(0) =~= views_of(elems@));
                    assert(ed == enc_vals(views_of(elems@), st0.types).0);
                    assert(self.st().types == enc_vals(views_of(elems@), st0.types).1);
                    assert(hd + ed =~= enc_value(value_view(Value::List(*list)), st0.types).0);
                    if n <= 7 {
                        assert(hd =~= seq![(0x78 + n) as u8]);
                        crate::parse::lemma_compose_list_untyped_short(
                            st0,
                            self.st(),
                            n as int,
                            hd,
                            ed,
                            views_of(elems@),
                        );
                    } else {
                        assert(hd =~= seq![0x58u8] + int_bytes(n as int));
                        crate::parse::lemma_compose_list_untyped_long(
                            st0,
                            self.st(),
                            n as int,
                            hd,
                            ed,
                            views_of(elems@),
                        );
                    }
                    assert forall|q: Seq<u8>| #[trigger] sd_value(
                        self.out().skip(out0.len() as int) + q,
                        st0,
                    ) == Ok::<(ValView, Seq<u8>, DState), DeErr>(
                        (value_view(Value::List(*list)), q, self.st()),
                    ) by {
                        assert(self.out().skip(out0.len() as int) + q =~= (hd + ed) + q);
                        assert(sd_value((hd + ed) + q, st0) == Ok::<
                            (ValView, Seq<u8>, DState),
                            DeErr,
                        >((ValView::List(None, views_of(elems@)), q, self.st())));
                    }
                }
                Ok(())
            },
        }
    }

    /// Emit the elements of a list from an index on.
    #[verifier::rlimit(100)]
    fn serialize_elements(&mut self, elems: &Vec<Value>, from: usize) -> (r: Result<(), Error>)
        requires
            from <= elems@.len(),
            forall|i: int|
                from <= i < elems@.len() ==> encodable(value_view(#[trigger] elems@[i])),
        ensures
            r is Ok,
            final(self).out().len() >= old(self).out().len(),
            final(self).out().take(old(self).out().len() as int) == old(self).out(),
            final(self).out().skip(old(self).out().len() as int) == enc_vals(
                views_of(elems@).skip(from as int),
                old(self).st().types,
            ).0,
            final(self).st().types == enc_vals(
                views_of(elems@).skip(from as int),
                old(self).st().types,
            ).1,
            final(self).st().defs == old(self).st().defs,
            forall|q: Seq<u8>| #[trigger] crate::wire::sd_vals_n(
                (elems@.len() - from) as nat,
                final(self).out().skip(old(self).out().len() as int) + q,
                old(self).st(),
            ) == Ok::<(Seq<ValView>, Seq<u8>, DState), DeErr>(
                (views_of(elems@).skip(from as int), q, final(self).st()),
            ),
        decreases elems, elems@.len() - from,
    {
        let ghost st0 = self.st();
        let ghost out0 = self.out();
        if from == elems.len() {
            proof {
                assert(self.out().take(out0.len() as int) =~= out0);
                assert(self.out().skip(out0.len() as int) =~= Seq::<u8>::empty());
                assert(views_of(elems@).skip(from as int) =~= Seq::<ValView>::empty());
                assert forall|q: Seq<u8>| #[trigger] crate::wire::sd_vals_n(
                    (elems@.len() - from) as nat,
                    self.out().skip(out0.len() as int) + q,
                    st0,
                ) == Ok::<(Seq<ValView>, Seq<u8>, DState), DeErr>(
                    (views_of(elems@).skip(from as int), q, self.st()),
                ) by {
                    assert(self.out().skip(out0.len() as int) + q =~= q);
                    assert(views_of(elems@).skip(from as int) =~= Seq::<ValView>::empty());
                }
            }
            Ok(())
        } else {
            proof {
                assert(encodable(value_view(elems@[from as int])));
            }
            let r0 = self.serialize_value(&elems[from]);
            let ghost st1 = self.st();
            let ghost out1 = self.out();
            let r1 = self.serialize_elements(elems, from + 1);
            proof {
                let dh = out1.skip(out0.len() as int);
                let dt = self.out().skip(out1.len() as int);
                assert(out1 =~= out0 + dh);
                assert(self.out() =~= out1 + dt);
                assert(self.out().skip(out0.len() as int) =~= dh + dt);
                assert(self.out().take(out0.len() as int) =~= out0);
                let sv = views_of(elems@).skip(from as int);
                assert(sv.first() == views_of(elems@)[from as int]);
                assert(sv.first() == value_view(elems@[from as int]));
                assert(sv.drop_first() =~= views_of(elems@).skip(from + 1 as int));
                assert(dh == enc_value(sv.first(), st0.types).0);
                assert(st1.types == enc_value(sv.first(), st0.types).1);
                assert(dt == enc_vals(sv.drop_first(), st1.types).0);
                assert(dh + dt =~= enc_vals(sv, st0.types).0);
                let m = (elems@.len() - from) as nat;
                assert forall|q: Seq<u8>| #[trigger] crate::wire::sd_vals_n(
                    m,
                    self.out().skip(out0.len() as int) + q,
                    st0,
                ) == Ok::<(Seq<ValView>, Seq<u8>, DState), DeErr>(
                    (views_of(elems@).skip(from as int), q, self.st()),
                ) by {
                    let b = (dh + dt) + q;
                    assert(b =~= dh + (dt + q));
                    assert(sd_value(dh + (dt + q), st0) == Ok::<
                        (ValView, Seq<u8>, DState),
                        DeErr,
                    >((value_view(elems@[from as int]), dt + q, st1)));
                    assert((dt + q).len() < b.len());
                    assert(crate::wire::sd_vals_n(
                        (elems@.len() - (from + 1)) as nat,
                        dt + q,
                        st1,
                    ) == Ok::<(Seq<ValView>, Seq<u8>, DState), DeErr>(
                        (views_of(elems@).skip(from + 1 as int), q, self.st()),
                    ));
                    assert(seq![value_view(elems@[from as int])] + views_of(elems@).skip(
                        from + 1 as int,
                    ) =~= views_of(elems@).skip(from as int));
                    assert(self.out().skip(out0.len() as int) + q =~= b);
                }
            }
            Ok(())
        }
    }

    /// Emit a map, typed or untyped: the pairs in order, then the
    /// terminator.
    #[verifier::rlimit(100)]
    pub fn serialize_map(&mut self, map: &MapValue) -> (r: Result<(), Error>)
        requires
            encodable(value_view(Value::Dict(*map))),
        ensures
            r is Ok,
            final(self).out().len() > old(self).out().len(),
            final(self).out().take(old(self).out().len() as int) == old(self).out(),
            final(self).out().skip(old(self).out().len() as int) == enc_value(
                value_view(Value::Dict(*map)),
                old(self).st().types,
            ).0,
            final(self).st().types == enc_value(
                value_view(Value::Dict(*map)),
                old(self).st().types,
            ).1,
            final(self).st().defs == old(self).st().defs,
            forall|q: Seq<u8>| #[trigger] sd_value(
                final(self).out().skip(old(self).out().len() as int) + q,
                old(self).st(),
            ) == Ok::<(ValView, Seq<u8>, DState), DeErr>(
                (value_view(Value::Dict(*map)), q, final(self).st()),
            ),
        decreases map, 0int,
    {
        let ghost st0 = self.st();
        let ghost out0 = self.out();
        match map {
            MapValue::Typed(t, pairs) => {

                proof {
                    assert(encodable(ValView::Dict(typ_view(map), pair_views_of(pairs@))));
                    crate::model::lemma_dict_distinct(pair_views_of(pairs@), typ_view(map));
                    assert(pair_views_of(pairs@).skip(0) =~= pair_views_of(pairs@));
                }
                let r0 = self.write_map_start(Some(t.as_str()));
                let ghost st1 = self.st();
                let ghost out1 = self.out();
                let r1 = self.serialize_pairs(pairs, 0);
                let ghost out2 = self.out();
                proof {
                    assert(out2 =~= out1 + out2.skip(out1.len() as int));
                }
                self.write_object_end();
                proof {
                    let hd = out1.skip(out0.len() as int);
                    let pd = out2.skip(out1.len() as int);
                    assert(out1 == out0 + seq![0x4du8] + wtype_bytes(st0.types, t@));
                    assert(hd =~= seq![0x4du8] + wtype_bytes(st0.types, t@));
                    assert(self.out() =~= out2 + seq![0x5au8]);
                    assert(self.out().skip(out0.len() as int) =~= (seq![0x4du8] + wtype_bytes(
                        st0.types,
                        t@,
                    ) + pd + seq![0x5au8]));
                    assert(self.out().take(out0.len() as int) =~= out0);
                    assert(pair_views_of(pairs@).skip(0) =~= pair_views_of(pairs@));
                    assert(pd == enc_pairs(pair_views_of(pairs@), st1.types).0);
                    assert(self.st().types == enc_pairs(pair_views_of(pairs@), st1.types).1);
                    assert(st1.types == wtype_types(st0.types, t@));
                    assert(seq![0x4du8] + wtype_bytes(st0.types, t@) + pd + seq![0x5au8]
                        =~= enc_value(value_view(Value::Dict(*map)), st0.types).0);
                    crate::parse::lemma_compose_map_typed(
                        st0,
                        st1,
                        self.st(),
                        t@,
                        pd,
                        pair_views_of(pairs@),
                    );
                    assert forall|q: Seq<u8>| #[trigger] sd_value(
                        self.out().skip(out0.len() as int) + q,
                        st0,
                    ) == Ok::<(ValView, Seq<u8>, DState), DeErr>(
                        (value_view(Value::Dict(*map)), q, self.st()),
                    ) by {
                        assert(self.out().skip(out0.len() as int) + q =~= (seq![0x4du8]
                            + wtype_bytes(st0.types, t@) + pd + seq![0x5au8]) + q);
                        assert(sd_value(
                            (seq![0x4du8] + wtype_bytes(st0.types, t@) + pd + seq![0x5au8]) + q,
                            st0,
                        ) == Ok::<(ValView, Seq<u8>, DState), DeErr>(
                            (ValView::Dict(Some(t@), pair_views_of(pairs@)), q, self.st()),
                        ));
                    }
                }
                Ok(())
            },
            MapValue::Untyped(pairs) => {

                proof {
                    assert(encodable(ValView::Dict(typ_view(map), pair_views_of(pairs@))));
                    crate::model::lemma_dict_distinct(pair_views_of(pairs@), typ_view(map));
                    assert(pair_views_of(pairs@).skip(0) =~= pair_views_of(pairs@));
                }
                let r0 = self.write_map_start(None);
                let ghost st1 = self.st();
                let ghost out1 = self.out();
                let r1 = self.serialize_pairs(pairs, 0);
                let ghost out2 = self.out();
                proof {
                    assert(out2 =~= out1 + out2.skip(out1.len() as int));
                }
                self.write_object_end();
                proof {
                    let pd = out2.skip(out1.len() as int);
                    assert(out1 == out0 + seq![0x48u8]);
                    assert(self.out() =~= out2 + seq![0x5au8]);
                    assert(self.out().skip(out0.len() as int) =~= (seq![0x48u8] + pd + seq![
                        0x5au8,
                    ]));
                    assert(self.out().take(out0.len() as int) =~= out0);
                    assert(pair_views_of(pairs@).skip(0) =~= pair_views_of(pairs@));
                    assert(pd == enc_pairs(pair_views_of(pairs@), st0.types).0);
                    assert(self.st().types == enc_pairs(pair_views_of(pairs@), st0.types).1);
                    assert(seq![0x48u8] + pd + seq![0x5au8] =~= enc_value(
                        value_view(Value::Dict(*map)),
                        st0.types,
                    ).0);
                    crate::parse::lemma_compose_map_untyped(
                        st0,
                        self.st(),
                        pd,
                        pair_views_of(pairs@),
                    );
                    assert forall|q: Seq<u8>| #[trigger] sd_value(
                        self.out().skip(out0.len() as int) + q,
                        st0,
                    ) == Ok::<(ValView, Seq<u8>, DState), DeErr>(
                        (value_view(Value::Dict(*map)), q, self.st()),
                    ) by {
                        assert(self.out().skip(out0.len() as int) + q =~= (seq![0x48u8] + pd
                            + seq![0x5au8]) + q);
                        assert(sd_value((seq![0x48u8] + pd + seq![0x5au8]) + q, st0) == Ok::<
                            (ValView, Seq<u8>, DState),
                            DeErr,
                        >((ValView::Dict(None, pair_views_of(pairs@)), q, self.st())));
                    }
                }
                Ok(())
            },
        }
    }

    /// Emit the key/value pairs of a map from an index on.
    #[verifier::rlimit(100)]
    fn serialize_pairs(&mut self, pairs: &Vec<(Value, Value)>, from: usize) -> (r: Result<
        (),
        Error,
    >)
        requires
            from <= pairs@.len(),
            crate::model::encodable_pairs(pair_views_of(pairs@).skip(from as int)),
        ensures
            r is Ok,
            final(self).out().len() >= old(self).out().len(),
            final(self).out().take(old(self).out().len() as int) == old(self).out(),
            final(self).out().skip(old(self).out().len() as int) == enc_pairs(
                pair_views_of(pairs@).skip(from as int),
                old(self).st().types,
            ).0,
            final(self).st().types == enc_pairs(
                pair_views_of(pairs@).skip(from as int),
                old(self).st().types,
            ).1,
            final(self).st().defs == old(self).st().defs,
            forall|q: Seq<u8>| #[trigger] crate::wire::sd_pairs_z(
                final(self).out().skip(old(self).out().len() as int) + (seq![0x5au8] + q),
                old(self).st(),
            ) == Ok::<(Seq<(ValView, ValView)>, Seq<u8>, DState), DeErr>(
                (pair_views_of(pairs@).skip(from as int), q, final(self).st()),
            ),
        decreases pairs, pairs@.len() - from,
    {
        let ghost st0 = self.st();
        let ghost out0 = self.out();
        if from == pairs.len() {
            proof {
                assert(self.out().take(out0.len() as int) =~= out0);
                assert(self.out().skip(out0.len() as int) =~= Seq::<u8>::empty());
                assert(pair_views_of(pairs@).skip(from as int) =~= Seq::<
                    (ValView, ValView),
                >::empty());
                assert forall|q: Seq<u8>| #[trigger] crate::wire::sd_pairs_z(
                    self.out().skip(out0.len() as int) + (seq![0x5au8] + q),
                    st0,
                ) == Ok::<(Seq<(ValView, ValView)>, Seq<u8>, DState), DeErr>(
                    (pair_views_of(pairs@).skip(from as int), q, self.st()),
                ) by {
                    let b = self.out().skip(out0.len() as int) + (seq![0x5au8] + q);
                    assert(b =~= seq![0x5au8] + q);
                    assert(b[0] == 0x5a);
                    assert(b.skip(1) =~= q);
                    assert(pair_views_of(pairs@).skip(from as int) =~= Seq::<
                        (ValView, ValView),
                    >::empty());
                }
            }
            Ok(())
        } else {
            proof {
                let pv = pair_views_of(pairs@);
                assert(pv.skip(from as int).first() == pv[from as int]);
                assert(pv.skip(from as int).drop_first() =~= pv.skip(from + 1 as int));
                assert(pv[from as int] == (
                    value_view(pairs@[from as int].0),
                    value_view(pairs@[from as int].1),
                ));
            }
            let r0 = self.serialize_value(&pairs[from].0);
            let ghost st1 = self.st();
            let ghost out1 = self.out();
            let r1 = self.serialize_value(&pairs[from].1);
            let ghost st2 = self.st();
            let ghost out2 = self.out();
            let r2 = self.serialize_pairs(pairs, from + 1);
            proof {
                let dk = out1.skip(out0.len() as int);
                let dv = out2.skip(out1.len() as int);
                let dt = self.out().skip(out2.len() as int);
                assert(out1 =~= out0 + dk);
                assert(out2 =~= out1 + dv);
                assert(self.out() =~= out2 + dt);
                assert(self.out().skip(out0.len() as int) =~= dk + dv + dt);
                assert(self.out().take(out0.len() as int) =~= out0);
                let sp = pair_views_of(pairs@).skip(from as int);
                assert(sp.first() == pair_views_of(pairs@)[from as int]);
                assert(sp.first() == (
                    value_view(pairs@[from as int].0),
                    value_view(pairs@[from as int].1),
                ));
                assert(sp.drop_first() =~= pair_views_of(pairs@).skip(from + 1 as int));
                assert(dk == enc_value(sp.first().0, st0.types).0);
                assert(st1.types == enc_value(sp.first().0, st0.types).1);
                assert(dv == enc_value(sp.first().1, st1.types).0);
                assert(st2.types == enc_value(sp.first().1, st1.types).1);
                assert(dt == enc_pairs(sp.drop_first(), st2.types).0);
                assert(dk + dv + dt =~= enc_pairs(sp, st0.types).0);
                assert forall|q: Seq<u8>| #[trigger] crate::wire::sd_pairs_z(
                    self.out().skip(out0.len() as int) + (seq![0x5au8] + q),
                    st0,
                ) == Ok::<(Seq<(ValView, ValView)>, Seq<u8>, DState), DeErr>(
                    (pair_views_of(pairs@).skip(from as int), q, self.st()),
                ) by {
                    let zq = seq![0x5au8] + q;
                    let b = (dk + dv + dt) + zq;
                    assert(b =~= dk + (dv + (dt + zq)));
                    assert(sd_value(dk + (dv + (dt + zq)), st0) == Ok::<
                        (ValView, Seq<u8>, DState),
                        DeErr,
                    >((value_view(pairs@[from as int].0), dv + (dt + zq), st1)));
                    assert(b[0] != 0x5a) by {
                        if b[0] == 0x5a {
                            assert(sd_value(b, st0) is Err);
                        }
                    }
                    assert(sd_value(dv + (dt + zq), st1) == Ok::<
                        (ValView, Seq<u8>, DState),
                        DeErr,
                    >((value_view(pairs@[from as int].1), dt + zq, st2)));
                    assert((dv + (dt + zq)).len() <= b.len());
                    assert((dt + zq).len() < b.len());
                    assert(crate::wire::sd_pairs_z(dt + zq, st2) == Ok::<
                        (Seq<(ValView, ValView)>, Seq<u8>, DState),
                        DeErr,
                    >((pair_views_of(pairs@).skip(from + 1 as int), q, self.st())));
                    assert(seq![
                        (value_view(pairs@[from as int].0), value_view(pairs@[from as int].1)),
                    ] + pair_views_of(pairs@).skip(from + 1 as int) =~= pair_views_of(
                        pairs@,
                    ).skip(from as int));
                    assert(self.out().skip(out0.len() as int) + zq =~= b);
                }
            }
            Ok(())
        }
    }
}

/// Encode one value to bytes with a fresh encoder: exactly the octets
/// `enc_value` gives for an empty session.  Together with `from_slice`
/// this carries the round trip: decoding the result yields the encoded
/// value again.  The value must be `encodable`: every nested list short
/// enough for its length to be written as a 32-bit int, every map with
/// distinct keys.
pub fn to_vec(value: &Value) -> (r: Result<Vec<u8>, Error>)
    requires
        encodable(value_view(*value)),
    ensures
        r matches Ok(b) && b@ == enc_value(value_view(*value), Seq::empty()).0 && b@.len() >= 1
            && (forall|q: Seq<u8>|
            #[trigger] sd_value(b@ + q, DState::empty()) matches Ok(t) && t.0 == value_view(
                *value,
            ) && t.1 == q),
{
    let mut ser = Serializer::new();
    let r0 = ser.serialize_value(value);
    proof {
        assert(ser.out().skip(0) =~= ser.out());
    }
    Ok(ser.into_bytes())
}


/// The names of the cached definitions, in order.
pub open spec fn def_names(defs: Seq<DefView>) -> Seq<Seq<char>> {
    Seq::new(defs.len(), |i: int| defs[i].name)
}

/// The octets of a sequence of strings, one after the other.
pub open spec fn cat_strs(fields: Seq<Seq<char>>) -> Seq<u8>
    decreases fields.len(),
{
    if fields.len() == 0 {
        Seq::empty()
    } else {
        str_chunks_bytes(encode_utf8(fields.first())) + cat_strs(fields.drop_first())
    }
}

/// Appending one string appends its octets.
pub proof fn lemma_cat_snoc(fields: Seq<Seq<char>>, x: Seq<char>)
    ensures
        cat_strs(fields.push(x)) == cat_strs(fields) + str_chunks_bytes(encode_utf8(x)),
    decreases fields.len(),
{
    if fields.len() == 0 {
        assert(fields.push(x).drop_first() =~= fields);
        assert(fields.push(x).first() == x);
        assert(Seq::<u8>::empty() + str_chunks_bytes(encode_utf8(x)) =~= str_chunks_bytes(
            encode_utf8(x),
        ));
        assert(str_chunks_bytes(encode_utf8(x)) + Seq::<u8>::empty() =~= str_chunks_bytes(
            encode_utf8(x),
        ));
    } else {
        assert(fields.push(x).drop_first() =~= fields.drop_first().push(x));
        assert(fields.push(x).first() == fields.first());
        lemma_cat_snoc(fields.drop_first(), x);
        assert(str_chunks_bytes(encode_utf8(fields.first())) + (cat_strs(fields.drop_first())
            + str_chunks_bytes(encode_utf8(x))) =~= (str_chunks_bytes(encode_utf8(fields.first()))
            + cat_strs(fields.drop_first())) + str_chunks_bytes(encode_utf8(x)));
    }
}

/// The octets of a class definition.
pub open spec fn def_bytes(d: DefView) -> Seq<u8> {
    seq![0x43u8] + str_chunks_bytes(encode_utf8(d.name)) + int_bytes(d.fields.len() as int)
        + cat_strs(d.fields)
}


/// The exact octets one value encodes to, with the type cache it leaves
/// behind: the shortest scalar forms, short list headers up to seven
/// elements, and type names through the cache.
pub open spec fn enc_value(v: ValView, types: Seq<Seq<char>>) -> (Seq<u8>, Seq<Seq<char>>)
    decreases v, 0int,
{
    match v {
        ValView::Null => (seq![0x4eu8], types),
        ValView::Bool(b) => (
            seq![
                (if b {
                    0x54u8
                } else {
                    0x46u8
                }),
            ],
            types,
        ),
        ValView::Int(n) => (int_bytes(n), types),
        ValView::Long(n) => (long_bytes(n), types),
        ValView::Double(d) => (dbl_bytes(d), types),
        ValView::Date(d) => (date_bytes(d), types),
        ValView::Ref(i) => (ref_bytes(i), types),
        ValView::Bytes(b) => (bytes_bytes(b), types),
        ValView::Str(t) => (str_chunks_bytes(encode_utf8(t)), types),
        ValView::List(tn, es) => match tn {
            Some(t) => {
                let hd = if es.len() <= 7 {
                    seq![(0x70 + es.len()) as u8] + wtype_bytes(types, t)
                } else {
                    seq![0x56u8] + wtype_bytes(types, t) + int_bytes(es.len() as int)
                };
                let r = enc_vals(es, wtype_types(types, t));
                (hd + r.0, r.1)
            },
            None => {
                let hd = if es.len() <= 7 {
                    seq![(0x78 + es.len()) as u8]
                } else {
                    seq![0x58u8] + int_bytes(es.len() as int)
                };
                let r = enc_vals(es, types);
                (hd + r.0, r.1)
            },
        },
        ValView::Dict(tn, ps) => match tn {
            Some(t) => {
                let r = enc_pairs(ps, wtype_types(types, t));
                (seq![0x4du8] + wtype_bytes(types, t) + r.0 + seq![0x5au8], r.1)
            },
            None => {
                let r = enc_pairs(ps, types);
                (seq![0x48u8] + r.0 + seq![0x5au8], r.1)
            },
        },
    }
}

/// The octets of a run of values, one after the other, threading the type
/// cache.
pub open spec fn enc_vals(vs: Seq<ValView>, types: Seq<Seq<char>>) -> (Seq<u8>, Seq<Seq<char>>)
    decreases vs, 1int,
{
    if vs.len() == 0 {
        (Seq::empty(), types)
    } else {
        let h = enc_value(vs.first(), types);
        let r = enc_vals(vs.drop_first(), h.1);
        (h.0 + r.0, r.1)
    }
}

/// The octets of a run of key/value pairs, threading the type cache.
pub open spec fn enc_pairs(ps: Seq<(ValView, ValView)>, types: Seq<Seq<char>>) -> (
    Seq<u8>,
    Seq<Seq<char>>,
)
    decreases ps, 1int,
{
    if ps.len() == 0 {
        (Seq::empty(), types)
    } else {
        let k = enc_value(ps.first().0, types);
        let v = enc_value(ps.first().1, k.1);
        let r = enc_pairs(ps.drop_first(), v.1);
        (k.0 + v.0 + r.0, r.1)
    }
}

/// The type-name view of a map wrapper.
pub open spec fn typ_view(m: &MapValue) -> Option<Seq<char>> {
    match m {
        MapValue::Typed(t, _) => Some(t@),
        MapValue::Untyped(_) => None,
    }
}

/// The number of code points in the suffix of a byte slice, by its leading
/// bytes.
fn count_points(b: &[u8], from: usize) -> (r: usize)
    requires
        from <= b@.len(),
    ensures
        r == utf8_count(b@.skip(from as int)),
{
    let mut pos: usize = from;
    let mut cnt: usize = 0;
    while pos < b.len()
        invariant
            from <= pos <= b@.len(),
            cnt <= pos,
            utf8_count(b@.skip(from as int)) == cnt + utf8_count(b@.skip(pos as int)),
        decreases b@.len() - pos,
    {
        let ghost cur = b@.skip(pos as int);
        let lead: u8 = b[pos];
        let w: usize = if lead <= 0x7f {
            1
        } else if 0xc2 <= lead && lead <= 0xdf {
            2
        } else if 0xe0 <= lead && lead <= 0xef {
            3
        } else if 0xf0 <= lead && lead <= 0xf4 {
            4
        } else {
            1
        };
        proof {
            assert(cur[0] == lead);
            let sw = crate::wire::utf8_width(cur[0]);
            let w2 = if sw <= 0 {
                1int
            } else {
                sw
            };
            assert(w as int == w2);
        }
        if w >= b.len() - pos {
            proof {
                assert(utf8_count(cur) == 1);
                assert(utf8_count(b@.skip(b@.len() as int)) == 0);
            }
            cnt = cnt + 1;
            pos = b.len();
        } else {
            proof {
                assert(cur.skip(w as int) =~= b@.skip(pos + w));
            }
            cnt = cnt + 1;
            pos = pos + w;
        }
    }
    proof {
        assert(utf8_count(b@.skip(b@.len() as int)) == 0);
    }
    cnt
}

/// The position after `k` code points of the suffix of a byte slice.
fn cut_points(b: &[u8], from: usize, k: usize) -> (r: usize)
    requires
        from <= b@.len(),
    ensures
        r as int == from + utf8_cut(b@.skip(from as int), k as nat),
        from <= r <= b@.len(),
{
    let mut pos: usize = from;
    let mut left: usize = k;
    while left > 0 && pos < b.len()
        invariant
            from <= pos <= b@.len(),
            left <= k,
            utf8_cut(b@.skip(from as int), k as nat) == (pos - from) + utf8_cut(
                b@.skip(pos as int),
                left as nat,
            ),
        decreases left,
    {
        let ghost cur = b@.skip(pos as int);
        let lead: u8 = b[pos];
        let w: usize = if lead <= 0x7f {
            1
        } else if 0xc2 <= lead && lead <= 0xdf {
            2
        } else if 0xe0 <= lead && lead <= 0xef {
            3
        } else if 0xf0 <= lead && lead <= 0xf4 {
            4
        } else {
            1
        };
        proof {
            assert(cur[0] == lead);
            let sw = crate::wire::utf8_width(cur[0]);
            let w2 = if sw <= 0 {
                1int
            } else {
                sw
            };
            assert(w as int == w2);
        }
        if w >= b.len() - pos {
            proof {
                assert(utf8_cut(cur, left as nat) == cur.len());
            }
            pos = b.len();
            left = 0;
        } else {
            proof {
                assert(cur.skip(w as int) =~= b@.skip(pos + w));
            }
            pos = pos + w;
            left = left - 1;
        }
    }
    proof {
        if left > 0 {
            assert(b@.skip(pos as int).len() == 0);
            assert(utf8_cut(b@.skip(pos as int), left as nat) == 0);
        } else {
            assert(utf8_cut(b@.skip(pos as int), 0nat) == 0);
        }
    }
    pos
}


/// The offset trick for the compact signed forms: shifting by a multiple of
/// the divisor shifts the quotient and keeps the remainder.
proof fn lemma_offset_div(v: int, k: int, d: int)
    requires
        d > 0,
        k > 0,
    ensures
        (v + k * d) / d == v / d + k,
        (v + k * d) % d == v % d,
{
    vstd::arithmetic::div_mod::lemma_fundamental_div_mod(v, d);
    assert(v + k * d == d * (v / d + k) + v % d) by (nonlinear_arith)
        requires
            v == d * (v / d) + v % d,
    ;
    vstd::arithmetic::div_mod::lemma_div_multiples_vanish_fancy(v / d + k, v % d, d);
    vstd::arithmetic::div_mod::lemma_mod_multiples_vanish(v / d + k, v % d, d);
    assert((d * (v / d + k) + v % d) % d == (v % d) % d);
    vstd::arithmetic::div_mod::lemma_small_mod((v % d) as nat, d as nat);
}



} // verus!
