//! The decoder: a byte cursor with the session tables (type names and class
//! definitions), producing values.
//!
//! Every reader is proved equal to the corresponding `wire` specification:
//! on success it returns the value that `sd_value` (or its helper) gives,
//! leaves the cursor on the rest that the specification gives, and carries
//! the state that the specification gives; on failure it returns an error
//! whose view is the failure the specification gives.

use vstd::arithmetic::power2::{lemma2_to64, pow2};
use vstd::prelude::*;
use vstd::utf8::{decode_utf8, valid_utf8};

use crate::constant::{Binary, ByteCodecType, Date, Double, Integer, Long, Object};
use crate::constant::List as ListTag;
use crate::error::{Error, ErrorKind};
use crate::model::{dedup_pairs, DState, DefView, ValView};
use crate::value::{pair_views_of, rep_eq, string_views, value_view, views_of, Definition, List, MapValue, Value};
use crate::wire::{be_sint, be_uint, sd_bin_chunks, sd_def, sd_dict, sd_list, sd_object, sd_object_idx, sd_pairs_z, sd_ref, sd_string_chunks, sd_strings_n, sd_type, sd_utf8, sd_vals_n, sd_vals_z, sd_value, sint8, utf8_width, wrap_len};
use crate::fbits::{i64_to_f64_bits, mul_001_bits, p2};
use crate::model::DeErr;

verus! {

broadcast use {vstd::std_specs::vec::group_vec_axioms, vstd::seq::group_seq_axioms};

/// The decoder over a byte buffer.
pub struct Deserializer {
    buffer: Vec<u8>,
    pos: usize,
    type_references: Vec<String>,
    class_references: Vec<Definition>,
}

impl Deserializer {
    /// The cursor never passes the end of the buffer.
    pub closed spec fn wf(&self) -> bool {
        self.pos <= self.buffer@.len()
    }

    /// The bytes not yet consumed.
    pub closed spec fn suffix(&self) -> Seq<u8> {
        self.buffer@.skip(self.pos as int)
    }

    /// The whole input.
    pub closed spec fn input(&self) -> Seq<u8> {
        self.buffer@
    }

    /// The session state: the views of the two tables.
    pub closed spec fn st(&self) -> DState {
        DState {
            types: string_views(self.type_references@),
            defs: Seq::new(self.class_references@.len(), |i: int| self.class_references@[i]@),
        }
    }

    /// A fresh decoder over the given bytes.
    pub fn new(rd: Vec<u8>) -> (r: Deserializer)
        ensures
            r.wf(),
            r.input() == rd@,
            r.suffix() == rd@,
            r.st() == DState::empty(),
    {
        let d = Deserializer {
            buffer: rd,
            pos: 0,
            type_references: Vec::new(),
            class_references: Vec::new(),
        };
        proof {
            assert(d.suffix() =~= d.buffer@);
            assert(d.st() =~= DState::empty());
        }
        d
    }

    /// A fresh decoder over the given bytes.
    pub fn from_bytes(s: Vec<u8>) -> (r: Result<Deserializer, Error>)
        ensures
            r matches Ok(d) && d.wf() && d.input() == s@ && d.suffix() == s@ && d.st()
                == DState::empty(),
    {
        Ok(Deserializer::new(s))
    }

    /// Wrap a failure kind as a syntax error.
    pub fn error<T>(&self, err: ErrorKind) -> (r: Result<T, Error>)
        ensures
            r matches Err(e) && e == Error::SyntaxError(err),
    {
        Err(Error::SyntaxError(err))
    }

    /// Read one byte and advance.
    pub fn read_byte(&mut self) -> (r: Result<u8, Error>)
        requires
            old(self).wf(),
        ensures
            final(self).wf(),
            final(self).input() == old(self).input(),
            final(self).st() == old(self).st(),
            if old(self).suffix().len() > 0 {
                r matches Ok(b) && b == old(self).suffix()[0] && final(self).suffix() == old(self).suffix().skip(1)
            } else {
                r matches Err(e) && e == Error::Eof && *final(self) == *old(self)
            },
    {
        if self.pos < self.buffer.len() {
            let b = self.buffer[self.pos];
            self.pos = self.pos + 1;
            proof {
                assert(final(self).suffix() =~= old(self).suffix().skip(1));
            }
            Ok(b)
        } else {
            proof {
                assert(old(self).suffix().len() == 0);
            }
            Err(Error::Eof)
        }
    }

    /// Read the next byte without advancing.
    pub fn peek_byte(&self) -> (r: Result<u8, Error>)
        requires
            self.wf(),
        ensures
            if self.suffix().len() > 0 {
                r matches Ok(b) && b == self.suffix()[0]
            } else {
                r matches Err(e) && e == Error::Eof
            },
    {
        if self.pos < self.buffer.len() {
            Ok(self.buffer[self.pos])
        } else {
            Err(Error::Eof)
        }
    }

    /// Classify the next byte without advancing.
    pub fn peek_tag(&self) -> (r: Result<ByteCodecType, Error>)
        requires
            self.wf(),
        ensures
            if self.suffix().len() > 0 {
                r matches Ok(t) && t == ByteCodecType::spec_from(self.suffix()[0])
            } else {
                r matches Err(e) && e == Error::Eof
            },
    {
        match self.peek_byte() {
            Ok(b) => Ok(ByteCodecType::from(b)),
            Err(e) => Err(e),
        }
    }

    /// The definition at a table index, for derived codecs.
    pub fn read_definition_by_index(&self, i: usize) -> (r: Result<&Definition, Error>)
        ensures
            if i < self.st().defs.len() {
                r matches Ok(d) && d@ == self.st().defs[i as int]
            } else {
                r matches Err(e) && e == Error::SyntaxError(
                    ErrorKind::OutOfDefinitionRange(i),
                )
            },
    {
        if i < self.class_references.len() {
            Ok(&self.class_references[i])
        } else {
            Err(Error::SyntaxError(ErrorKind::OutOfDefinitionRange(i)))
        }
    }

    /// Read `n` bytes and advance.
    pub fn read_bytes(&mut self, n: usize) -> (r: Result<Vec<u8>, Error>)
        requires
            old(self).wf(),
        ensures
            final(self).wf(),
            final(self).input() == old(self).input(),
            final(self).st() == old(self).st(),
            if old(self).suffix().len() >= n {
                r matches Ok(v) && v@ == old(self).suffix().take(n as int) && final(self).suffix()
                    == old(self).suffix().skip(n as int)
            } else {
                r matches Err(e) && e == Error::Eof && *final(self) == *old(self)
            },
    {
        let blen: usize = self.buffer.len();
        if n > blen - self.pos {
            proof {
                assert(old(self).suffix().len() < n);
            }
            return Err(Error::Eof);
        }
        let mut v: Vec<u8> = Vec::new();
        let mut i: usize = 0;
        while i < n
            invariant
                self == old(self),
                self.wf(),
                i <= n,
                self.pos + n <= blen,
                blen == self.buffer@.len(),
                v@ =~= old(self).suffix().take(i as int),
            decreases n - i,
        {
            v.push(self.buffer[self.pos + i]);
            proof {
                assert(v@ =~= old(self).suffix().take(i + 1 as int));
            }
            i = i + 1;
        }
        self.pos = self.pos + n;
        proof {
            assert(final(self).suffix() =~= old(self).suffix().skip(n as int));
        }
        Ok(v)
    }

    /// Read `n` big-endian bytes as an unsigned integer.
    pub fn read_be_uint(&mut self, n: usize) -> (r: Result<u64, Error>)
        requires
            old(self).wf(),
            1 <= n <= 8,
        ensures
            final(self).wf(),
            final(self).input() == old(self).input(),
            final(self).st() == old(self).st(),
            if old(self).suffix().len() >= n {
                r matches Ok(u) && u == be_uint(old(self).suffix().take(n as int)) && final(self).suffix() == old(self).suffix().skip(n as int)
            } else {
                r matches Err(e) && e == Error::Eof && *final(self) == *old(self)
            },
    {
        let bs = match self.read_bytes(n) {
            Ok(bs) => bs,
            Err(e) => {
                return Err(e);
            },
        };
        let ghost full = old(self).suffix().take(n as int);
        let mut u: u64 = 0;
        let mut i: usize = 0;
        proof {
            lemma2_to64();
            assert(full.take(0) =~= Seq::<u8>::empty());
        }
        while i < n
            invariant
                bs@ == full,
                bs@.len() == n <= 8,
                i <= n,
                u == be_uint(full.take(i as int)),
                u < pow2((8 * i) as nat),
            decreases n - i,
        {
            proof {
                crate::wire::lemma_be_uint_bound(full.take(i as int));
                assert(full.take(i + 1 as int).drop_last() =~= full.take(i as int));
                assert(full.take(i + 1 as int).last() == full[i as int]);
                lemma2_to64();
                vstd::arithmetic::power2::lemma_pow2_adds((8 * i) as nat, 8);
                assert((u as int) * 256 + full[i as int] < pow2((8 * i) as nat) * 256) by (
                nonlinear_arith)
                    requires
                        (u as int) < pow2((8 * i) as nat),
                        full[i as int] < 256,
                ;
                if 8 * i + 8 < 64 {
                    vstd::arithmetic::power2::lemma_pow2_strictly_increases((8 * i + 8) as nat, 64);
                }
                vstd::arithmetic::power2::lemma2_to64_rest();
            }
            u = u * 256 + (bs[i] as u64);
            i = i + 1;
        }
        proof {
            assert(full.take(n as int) =~= full);
        }
        Ok(u)
    }

    /// Read `n` big-endian bytes as a two's-complement signed integer.
    pub fn read_be_sint(&mut self, n: usize) -> (r: Result<i64, Error>)
        requires
            old(self).wf(),
            1 <= n <= 8,
        ensures
            final(self).wf(),
            final(self).input() == old(self).input(),
            final(self).st() == old(self).st(),
            if old(self).suffix().len() >= n {
                r matches Ok(x) && x as int == be_sint(old(self).suffix().take(n as int)) && final(self).suffix() == old(self).suffix().skip(n as int)
            } else {
                r matches Err(e) && e == Error::Eof && *final(self) == *old(self)
            },
    {
        let ghost full = old(self).suffix().take(n as int);
        let u = match self.read_be_uint(n) {
            Ok(u) => u,
            Err(e) => {
                return Err(e);
            },
        };
        proof {
            crate::wire::lemma_be_uint_bound(full);
            crate::wire::lemma_be_first_byte_high(full);
            lemma2_to64();
            vstd::arithmetic::power2::lemma2_to64_rest();
        }
        if n == 8 {
            if u >= 0x8000_0000_0000_0000 {
                let d: u64 = 0xffff_ffff_ffff_ffff - u;
                Ok(-(d as i64) - 1)
            } else {
                Ok(u as i64)
            }
        } else {
            let half: u64 = crate::fbits::pow2_u64((8 * (n as u64)) - 1);
            proof {
                vstd::arithmetic::power2::lemma_pow2_unfold((8 * n) as nat);
                vstd::arithmetic::power2::lemma_pow2_strictly_increases((8 * n) as nat, 64);
            }
            if u >= half {
                Ok((u as i64) - (half as i64) - (half as i64))
            } else {
                Ok(u as i64)
            }
        }
    }

    /// Read the payload of `len` UTF-8 code points, classified by leading
    /// byte; the bytes are collected verbatim.
    pub fn read_utf8_string(&mut self, len: usize) -> (r: Result<Vec<u8>, Error>)
        requires
            old(self).wf(),
        ensures
            final(self).wf(),
            final(self).input() == old(self).input(),
            final(self).st() == old(self).st(),
            final(self).suffix().len() <= old(self).suffix().len(),
            match sd_utf8(len as nat, old(self).suffix()) {
                Ok((p, rest)) => r matches Ok(v) && v@ == p && final(self).suffix() == rest,
                Err(k) => r matches Err(e) && e@ == k,
            },
    {
        let ghost b0 = old(self).suffix();
        let mut s: Vec<u8> = Vec::new();
        let mut k: usize = 0;
        while k < len
            invariant
                self.wf(),
                self.input() == old(self).input(),
                self.st() == old(self).st(),
                self.suffix().len() <= old(self).suffix().len(),
                b0 == old(self).suffix(),
                k <= len,
                sd_utf8(len as nat, b0) == (match sd_utf8((len - k) as nat, self.suffix()) {
                    Ok(pr) => Ok::<(Seq<u8>, Seq<u8>), DeErr>((s@ + pr.0, pr.1)),
                    Err(e) => Err::<(Seq<u8>, Seq<u8>), DeErr>(e),
                }),
            decreases len - k,
        {
            let ghost cur = self.suffix();
            let ghost s0 = s@;
            let lead = match self.read_byte() {
                Ok(b) => b,
                Err(e) => {
                    return Err(e);
                },
            };
            let w: usize = if lead <= 0x7f {
                1
            } else if 0xc2 <= lead && lead <= 0xdf {
                2
            } else if 0xe0 <= lead && lead <= 0xef {
                3
            } else if 0xf0 <= lead && lead <= 0xf4 {
                4
            } else {
                0
            };
            proof {
                assert(utf8_width(cur[0]) == w as int);
            }
            if w == 0 {
                return Err(Error::FromUtf8Error);
            }
            let cont = match self.read_bytes(w - 1) {
                Ok(c) => c,
                Err(e) => {
                    proof {
                        assert(cur.len() < w as int);
                    }
                    return Err(e);
                },
            };
            s.push(lead);
            let mut j: usize = 0;
            while j < cont.len()
                invariant
                    j <= cont@.len(),
                    s@ =~= s0 + seq![lead] + cont@.take(j as int),
                decreases cont@.len() - j,
            {
                s.push(cont[j]);
                proof {
                    assert(s@ =~= s0 + seq![lead] + cont@.take(j + 1 as int));
                }
                j = j + 1;
            }
            proof {
                assert(cont@.take(cont@.len() as int) =~= cont@);
                assert(cur.take(w as int) =~= seq![lead] + cont@);
                assert(s@ =~= s0 + cur.take(w as int));
                assert(self.suffix() =~= cur.skip(w as int));
                let res = sd_utf8((len - (k + 1)) as nat, self.suffix());
                match res {
                    Ok((p, rest)) => {
                        assert(s0 + (cur.take(w as int) + p) =~= s@ + p);
                    },
                    Err(_) => {},
                }
            }
            k = k + 1;
        }
        proof {
            assert(s@ + Seq::<u8>::empty() =~= s@);
        }
        Ok(s)
    }

    /// Read a string chunk chain whose first tag is `tag`, collecting the
    /// payload bytes of every chunk.
    pub fn read_string_internal(&mut self, tag: u8) -> (r: Result<Vec<u8>, Error>)
        requires
            old(self).wf(),
        ensures
            final(self).wf(),
            final(self).input() == old(self).input(),
            final(self).st() == old(self).st(),
            final(self).suffix().len() <= old(self).suffix().len(),
            match sd_string_chunks(tag, old(self).suffix()) {
                Ok((p, rest)) => r matches Ok(v) && v@ == p && final(self).suffix() == rest,
                Err(k) => r matches Err(e) && e@ == k,
            },
        decreases old(self).suffix().len(),
    {
        let ghost b0 = old(self).suffix();
        if tag <= 0x1f {
            self.read_utf8_string(tag as usize)
        } else if 0x30 <= tag && tag <= 0x33 {
            let b2 = match self.read_byte() {
                Ok(b) => b,
                Err(e) => {
                    return Err(e);
                },
            };
            let n: usize = ((tag - 0x30) as usize) * 256 + (b2 as usize);
            self.read_utf8_string(n)
        } else if tag == 0x53 {
            let n = match self.read_be_uint(2) {
                Ok(n) => n,
                Err(e) => {
                    return Err(e);
                },
            };
            proof {
                crate::wire::lemma_be_uint_bound(b0.take(2));
                lemma2_to64();
            }
            self.read_utf8_string(n as usize)
        } else if tag == 0x52 {
            let n = match self.read_be_uint(2) {
                Ok(n) => n,
                Err(e) => {
                    return Err(e);
                },
            };
            proof {
                crate::wire::lemma_be_uint_bound(b0.take(2));
                lemma2_to64();
            }
            let mut buf = match self.read_utf8_string(n as usize) {
                Ok(v) => v,
                Err(e) => {
                    return Err(e);
                },
            };
            let next = match self.read_byte() {
                Ok(b) => b,
                Err(e) => {
                    return Err(e);
                },
            };
            let mut rest2 = match self.read_string_internal(next) {
                Ok(v) => v,
                Err(e) => {
                    return Err(e);
                },
            };
            let ghost buf0 = buf@;
            let mut j: usize = 0;
            while j < rest2.len()
                invariant
                    j <= rest2@.len(),
                    buf@ =~= buf0 + rest2@.take(j as int),
                decreases rest2@.len() - j,
            {
                buf.push(rest2[j]);
                proof {
                    assert(buf@ =~= buf0 + rest2@.take(j + 1 as int));
                }
                j = j + 1;
            }
            proof {
                assert(rest2@.take(rest2@.len() as int) =~= rest2@);
            }
            Ok(buf)
        } else {
            self.error(ErrorKind::UnknownType)
        }
    }

    /// Read a binary chunk chain whose first tag is `tag`, collecting the
    /// payload of every chunk into one byte string.
    pub fn read_long_binary(&mut self, tag: u8) -> (r: Result<Value, Error>)
        requires
            old(self).wf(),
        ensures
            final(self).wf(),
            final(self).input() == old(self).input(),
            final(self).st() == old(self).st(),
            final(self).suffix().len() <= old(self).suffix().len(),
            match sd_bin_chunks(tag, old(self).suffix()) {
                Ok((p, rest)) => r matches Ok(v) && v@ == ValView::Bytes(p) && final(self).suffix()
                    == rest,
                Err(k) => r matches Err(e) && e@ == k,
            },
    {
        let ghost b0 = old(self).suffix();
        let mut buf: Vec<u8> = Vec::new();
        let mut t: u8 = tag;
        while t == 0x41
            invariant
                self.wf(),
                self.input() == old(self).input(),
                self.st() == old(self).st(),
                self.suffix().len() <= old(self).suffix().len(),
                b0 == old(self).suffix(),
                sd_bin_chunks(tag, b0) == (match sd_bin_chunks(t, self.suffix()) {
                    Ok(pr) => Ok::<(Seq<u8>, Seq<u8>), DeErr>((buf@ + pr.0, pr.1)),
                    Err(e) => Err::<(Seq<u8>, Seq<u8>), DeErr>(e),
                }),
            decreases self.buffer@.len() - self.pos,
        {
            let ghost cur = self.suffix();
            let ghost buf0 = buf@;
            let n = match self.read_be_uint(2) {
                Ok(n) => n,
                Err(e) => {
                    proof {
                        assert(cur.len() < 2);
                        assert(sd_bin_chunks(t, cur) == Err::<(Seq<u8>, Seq<u8>), DeErr>(
                            DeErr::Eof,
                        ));
                        assert(sd_bin_chunks(tag, b0) == Err::<(Seq<u8>, Seq<u8>), DeErr>(
                            DeErr::Eof,
                        ));
                    }
                    return Err(e);
                },
            };
            proof {
                crate::wire::lemma_be_uint_bound(cur.take(2));
                lemma2_to64();
            }
            let chunk = match self.read_bytes(n as usize) {
                Ok(c) => c,
                Err(e) => {
                    proof {
                        assert(cur.skip(2).len() < n as int);
                        assert(sd_bin_chunks(t, cur) == Err::<(Seq<u8>, Seq<u8>), DeErr>(
                            DeErr::Eof,
                        ));
                        assert(sd_bin_chunks(tag, b0) == Err::<(Seq<u8>, Seq<u8>), DeErr>(
                            DeErr::Eof,
                        ));
                    }
                    return Err(e);
                },
            };
            let mut j: usize = 0;
            while j < chunk.len()
                invariant
                    j <= chunk@.len(),
                    buf@ =~= buf0 + chunk@.take(j as int),
                decreases chunk@.len() - j,
            {
                buf.push(chunk[j]);
                proof {
                    assert(buf@ =~= buf0 + chunk@.take(j + 1 as int));
                }
                j = j + 1;
            }
            proof {
                assert(self.suffix() =~= cur.skip(2).skip(n as int));
            }
            t = match self.read_byte() {
                Ok(b) => b,
                Err(e) => {
                    proof {
                        assert(self.suffix().len() == 0);
                        assert(sd_bin_chunks(0x41, cur) == Err::<(Seq<u8>, Seq<u8>), DeErr>(
                            DeErr::Eof,
                        ));
                        assert(sd_bin_chunks(tag, b0) == Err::<(Seq<u8>, Seq<u8>), DeErr>(
                            DeErr::Eof,
                        ));
                    }
                    return Err(e);
                },
            };
            proof {
                assert(chunk@.take(chunk@.len() as int) =~= chunk@);
                let res = sd_bin_chunks(t, self.suffix());
                match res {
                    Ok((p, rest)) => {
                        assert(buf0 + (chunk@ + p) =~= buf@ + p);
                    },
                    Err(_) => {},
                }
            }
        }
        let ghost cur = self.suffix();
        let ghost buf0 = buf@;
        let chunk: Vec<u8>;
        if t == 0x42 {
            let n = match self.read_be_uint(2) {
                Ok(n) => n,
                Err(e) => {
                    return Err(e);
                },
            };
            proof {
                crate::wire::lemma_be_uint_bound(cur.take(2));
                lemma2_to64();
            }
            chunk = match self.read_bytes(n as usize) {
                Ok(c) => c,
                Err(e) => {
                    return Err(e);
                },
            };
        } else if 0x20 <= t && t <= 0x2f {
            chunk = match self.read_bytes((t - 0x20) as usize) {
                Ok(c) => c,
                Err(e) => {
                    return Err(e);
                },
            };
        } else if 0x34 <= t && t <= 0x37 {
            let b2 = match self.read_byte() {
                Ok(b) => b,
                Err(e) => {
                    return Err(e);
                },
            };
            let n: usize = ((t - 0x34) as usize) * 256 + (b2 as usize);
            chunk = match self.read_bytes(n) {
                Ok(c) => c,
                Err(e) => {
                    return Err(e);
                },
            };
        } else {
            return self.error(ErrorKind::UnknownType);
        }
        let mut j: usize = 0;
        while j < chunk.len()
            invariant
                j <= chunk@.len(),
                buf@ =~= buf0 + chunk@.take(j as int),
            decreases chunk@.len() - j,
        {
            buf.push(chunk[j]);
            proof {
                assert(buf@ =~= buf0 + chunk@.take(j + 1 as int));
            }
            j = j + 1;
        }
        proof {
            assert(chunk@.take(chunk@.len() as int) =~= chunk@);
        }
        Ok(Value::Bytes(buf))
    }


    /// Read the payload of an int whose form the tag gave.
    pub fn read_int(&mut self, i: Integer) -> (r: Result<Value, Error>)
        requires
            old(self).wf(),
            match i {
                Integer::Direct(c) => 0x80 <= c <= 0xbf,
                Integer::Byte(c) => 0xc0 <= c <= 0xcf,
                Integer::Short(c) => 0xd0 <= c <= 0xd7,
                Integer::Normal => true,
            },
        ensures
            final(self).wf(),
            final(self).input() == old(self).input(),
            final(self).st() == old(self).st(),
            final(self).suffix().len() <= old(self).suffix().len(),
            match i {
                Integer::Direct(c) => r matches Ok(v) && v@ == ValView::Int(c - 0x90) && final(self).suffix() == old(self).suffix(),
                Integer::Byte(c) => if old(self).suffix().len() >= 1 {
                    r matches Ok(v) && v@ == ValView::Int(
                        (c - 0xc8) * 256 + old(self).suffix()[0],
                    ) && final(self).suffix() == old(self).suffix().skip(1)
                } else {
                    r matches Err(e) && e == Error::Eof
                },
                Integer::Short(c) => if old(self).suffix().len() >= 2 {
                    r matches Ok(v) && v@ == ValView::Int(
                        (c - 0xd4) * 0x1_0000 + old(self).suffix()[0] * 256 + old(self).suffix()[1],
                    ) && final(self).suffix() == old(self).suffix().skip(2)
                } else {
                    r matches Err(e) && e == Error::Eof
                },
                Integer::Normal => if old(self).suffix().len() >= 4 {
                    r matches Ok(v) && v@ == ValView::Int(be_sint(old(self).suffix().take(4)))
                        && final(self).suffix() == old(self).suffix().skip(4)
                } else {
                    r matches Err(e) && e == Error::Eof
                },
            },
    {
        match i {
            Integer::Direct(c) => Ok(Value::Int((c as i32) - 0x90)),
            Integer::Byte(c) => {
                let b2 = match self.read_byte() {
                    Ok(b) => b,
                    Err(e) => {
                        return Err(e);
                    },
                };
                Ok(Value::Int(((c as i32) - 0xc8) * 256 + (b2 as i32)))
            },
            Integer::Short(c) => {
                let bs = match self.read_bytes(2) {
                    Ok(v) => v,
                    Err(e) => {
                        return Err(e);
                    },
                };
                Ok(Value::Int(((c as i32) - 0xd4) * 0x1_0000 + (bs[0] as i32) * 256 + (
                bs[1] as i32)))
            },
            Integer::Normal => {
                let x = match self.read_be_sint(4) {
                    Ok(x) => x,
                    Err(e) => {
                        return Err(e);
                    },
                };
                proof {
                    lemma_sint_range(old(self).suffix().take(4));
                    lemma2_to64();
                }
                Ok(Value::Int(x as i32))
            },
        }
    }

    /// Read the payload of a long whose form the tag gave.
    pub fn read_long(&mut self, l: Long) -> (r: Result<Value, Error>)
        requires
            old(self).wf(),
            match l {
                Long::Direct(c) => 0xd8 <= c <= 0xef,
                Long::Byte(c) => 0xf0 <= c,
                Long::Short(c) => 0x38 <= c <= 0x3f,
                Long::Int32 => true,
                Long::Normal => true,
            },
        ensures
            final(self).wf(),
            final(self).input() == old(self).input(),
            final(self).st() == old(self).st(),
            final(self).suffix().len() <= old(self).suffix().len(),
            match l {
                Long::Direct(c) => r matches Ok(v) && v@ == ValView::Long(c - 0xe0) && final(self).suffix() == old(self).suffix(),
                Long::Byte(c) => if old(self).suffix().len() >= 1 {
                    r matches Ok(v) && v@ == ValView::Long(
                        (c - 0xf8) * 256 + old(self).suffix()[0],
                    ) && final(self).suffix() == old(self).suffix().skip(1)
                } else {
                    r matches Err(e) && e == Error::Eof
                },
                Long::Short(c) => if old(self).suffix().len() >= 2 {
                    r matches Ok(v) && v@ == ValView::Long(
                        (c - 0x3c) * 0x1_0000 + old(self).suffix()[0] * 256 + old(self).suffix()[1],
                    ) && final(self).suffix() == old(self).suffix().skip(2)
                } else {
                    r matches Err(e) && e == Error::Eof
                },
                Long::Int32 => if old(self).suffix().len() >= 4 {
                    r matches Ok(v) && v@ == ValView::Long(be_sint(old(self).suffix().take(4)))
                        && final(self).suffix() == old(self).suffix().skip(4)
                } else {
                    r matches Err(e) && e == Error::Eof
                },
                Long::Normal => if old(self).suffix().len() >= 8 {
                    r matches Ok(v) && v@ == ValView::Long(be_sint(old(self).suffix().take(8)))
                        && final(self).suffix() == old(self).suffix().skip(8)
                } else {
                    r matches Err(e) && e == Error::Eof
                },
            },
    {
        match l {
            Long::Direct(c) => Ok(Value::Long((c as i64) - 0xe0)),
            Long::Byte(c) => {
                let b2 = match self.read_byte() {
                    Ok(b) => b,
                    Err(e) => {
                        return Err(e);
                    },
                };
                Ok(Value::Long(((c as i64) - 0xf8) * 256 + (b2 as i64)))
            },
            Long::Short(c) => {
                let bs = match self.read_bytes(2) {
                    Ok(v) => v,
                    Err(e) => {
                        return Err(e);
                    },
                };
                Ok(Value::Long(((c as i64) - 0x3c) * 0x1_0000 + (bs[0] as i64) * 256 + (
                bs[1] as i64)))
            },
            Long::Int32 => {
                let x = match self.read_be_sint(4) {
                    Ok(x) => x,
                    Err(e) => {
                        return Err(e);
                    },
                };
                Ok(Value::Long(x))
            },
            Long::Normal => {
                let x = match self.read_be_sint(8) {
                    Ok(x) => x,
                    Err(e) => {
                        return Err(e);
                    },
                };
                Ok(Value::Long(x))
            },
        }
    }

    /// Read the payload of a double whose form the tag gave.
    pub fn read_double(&mut self, d: Double) -> (r: Result<Value, Error>)
        requires
            old(self).wf(),
        ensures
            final(self).wf(),
            final(self).input() == old(self).input(),
            final(self).st() == old(self).st(),
            final(self).suffix().len() <= old(self).suffix().len(),
            match d {
                Double::Zero => r matches Ok(v) && v@ == ValView::Double(0u64) && final(self).suffix() == old(self).suffix(),
                Double::One => r matches Ok(v) && v@ == ValView::Double(0x3ff0_0000_0000_0000u64)
                    && final(self).suffix() == old(self).suffix(),
                Double::Byte => if old(self).suffix().len() >= 1 {
                    r matches Ok(v) && v@ == ValView::Double(
                        i64_to_f64_bits(sint8(old(self).suffix()[0])),
                    ) && final(self).suffix() == old(self).suffix().skip(1)
                } else {
                    r matches Err(e) && e == Error::Eof
                },
                Double::Short => if old(self).suffix().len() >= 2 {
                    r matches Ok(v) && v@ == ValView::Double(
                        i64_to_f64_bits(be_sint(old(self).suffix().take(2))),
                    ) && final(self).suffix() == old(self).suffix().skip(2)
                } else {
                    r matches Err(e) && e == Error::Eof
                },
                Double::Float => if old(self).suffix().len() >= 4 {
                    r matches Ok(v) && v@ == ValView::Double(
                        mul_001_bits(be_sint(old(self).suffix().take(4))),
                    ) && final(self).suffix() == old(self).suffix().skip(4)
                } else {
                    r matches Err(e) && e == Error::Eof
                },
                Double::Normal => if old(self).suffix().len() >= 8 {
                    r matches Ok(v) && v@ == ValView::Double(
                        be_uint(old(self).suffix().take(8)) as u64,
                    ) && final(self).suffix() == old(self).suffix().skip(8)
                } else {
                    r matches Err(e) && e == Error::Eof
                },
            },
    {
        match d {
            Double::Zero => Ok(Value::Double(0)),
            Double::One => Ok(Value::Double(0x3ff0_0000_0000_0000)),
            Double::Byte => {
                let b = match self.read_byte() {
                    Ok(b) => b,
                    Err(e) => {
                        return Err(e);
                    },
                };
                let sx: i64 = if b >= 0x80 {
                    (b as i64) - 256
                } else {
                    b as i64
                };
                Ok(Value::Double(crate::fbits::int_bits(sx)))
            },
            Double::Short => {
                let x = match self.read_be_sint(2) {
                    Ok(x) => x,
                    Err(e) => {
                        return Err(e);
                    },
                };
                proof {
                    lemma_sint_range(old(self).suffix().take(2));
                    lemma2_to64();
                }
                Ok(Value::Double(crate::fbits::int_bits(x)))
            },
            Double::Float => {
                let x = match self.read_be_sint(4) {
                    Ok(x) => x,
                    Err(e) => {
                        return Err(e);
                    },
                };
                proof {
                    lemma_sint_range(old(self).suffix().take(4));
                    lemma2_to64();
                }
                Ok(Value::Double(crate::fbits::mul_001(x as i32)))
            },
            Double::Normal => {
                let u = match self.read_be_uint(8) {
                    Ok(u) => u,
                    Err(e) => {
                        return Err(e);
                    },
                };
                Ok(Value::Double(u))
            },
        }
    }

    /// Read the payload of a date whose form the tag gave.
    pub fn read_date(&mut self, d: Date) -> (r: Result<Value, Error>)
        requires
            old(self).wf(),
        ensures
            final(self).wf(),
            final(self).input() == old(self).input(),
            final(self).st() == old(self).st(),
            final(self).suffix().len() <= old(self).suffix().len(),
            match d {
                Date::Millisecond => if old(self).suffix().len() >= 8 {
                    r matches Ok(v) && v@ == ValView::Date(be_sint(old(self).suffix().take(8)))
                        && final(self).suffix() == old(self).suffix().skip(8)
                } else {
                    r matches Err(e) && e == Error::Eof
                },
                Date::Minute => if old(self).suffix().len() >= 4 {
                    r matches Ok(v) && v@ == ValView::Date(
                        be_sint(old(self).suffix().take(4)) * 60000,
                    ) && final(self).suffix() == old(self).suffix().skip(4)
                } else {
                    r matches Err(e) && e == Error::Eof
                },
            },
    {
        match d {
            Date::Millisecond => {
                let x = match self.read_be_sint(8) {
                    Ok(x) => x,
                    Err(e) => {
                        return Err(e);
                    },
                };
                Ok(Value::Date(x))
            },
            Date::Minute => {
                let x = match self.read_be_sint(4) {
                    Ok(x) => x,
                    Err(e) => {
                        return Err(e);
                    },
                };
                proof {
                    lemma_sint_range(old(self).suffix().take(4));
                    lemma2_to64();
                }
                Ok(Value::Date(x * 60000))
            },
        }
    }

    /// Read the payload of a byte string whose form the tag gave.
    pub fn read_binary(&mut self, bin: Binary) -> (r: Result<Value, Error>)
        requires
            old(self).wf(),
            match bin {
                Binary::Short(c) => 0x20 <= c <= 0x2f,
                Binary::TwoOctet(c) => 0x34 <= c <= 0x37,
                Binary::Long(c) => c == 0x41 || c == 0x42,
            },
        ensures
            final(self).wf(),
            final(self).input() == old(self).input(),
            final(self).st() == old(self).st(),
            final(self).suffix().len() <= old(self).suffix().len(),
            ({
                let c = match bin {
                    Binary::Short(c) => c,
                    Binary::TwoOctet(c) => c,
                    Binary::Long(c) => c,
                };
                match sd_bin_chunks(c, old(self).suffix()) {
                    Ok((p, rest)) => r matches Ok(v) && v@ == ValView::Bytes(p) && final(self).suffix() == rest,
                    Err(k) => r matches Err(e) && e@ == k,
                }
            }),
    {
        match bin {
            Binary::Short(c) => {
                let v = match self.read_bytes((c - 0x20) as usize) {
                    Ok(v) => v,
                    Err(e) => {
                        return Err(e);
                    },
                };
                Ok(Value::Bytes(v))
            },
            Binary::TwoOctet(c) => {
                let b2 = match self.read_byte() {
                    Ok(b) => b,
                    Err(e) => {
                        return Err(e);
                    },
                };
                let n: usize = ((c - 0x34) as usize) * 256 + (b2 as usize);
                let v = match self.read_bytes(n) {
                    Ok(v) => v,
                    Err(e) => {
                        return Err(e);
                    },
                };
                Ok(Value::Bytes(v))
            },
            Binary::Long(c) => self.read_long_binary(c),
        }
    }

    /// Read a string whose first tag is `tag` and validate its payload.
    pub fn read_string(&mut self, tag: u8) -> (r: Result<Value, Error>)
        requires
            old(self).wf(),
        ensures
            final(self).wf(),
            final(self).input() == old(self).input(),
            final(self).st() == old(self).st(),
            final(self).suffix().len() <= old(self).suffix().len(),
            match sd_string_chunks(tag, old(self).suffix()) {
                Ok((p, rest)) => if valid_utf8(p) {
                    r matches Ok(v) && v@ == ValView::Str(decode_utf8(p)) && final(self).suffix()
                        == rest
                } else {
                    r matches Err(e) && e@ == DeErr::Utf8
                },
                Err(k) => r matches Err(e) && e@ == k,
            },
    {
        let buf = match self.read_string_internal(tag) {
            Ok(v) => v,
            Err(e) => {
                return Err(e);
            },
        };
        match bytes_to_string(buf) {
            Some(s) => Ok(Value::String(s)),
            None => Err(Error::FromUtf8Error),
        }
    }


    /// Read a type name: a string registers itself in the type table, an
    /// int refers back into it.
    pub fn read_type(&mut self) -> (r: Result<String, Error>)
        requires
            old(self).wf(),
        ensures
            final(self).wf(),
            final(self).input() == old(self).input(),
            final(self).suffix().len() <= old(self).suffix().len(),
            match sd_type(old(self).suffix(), old(self).st()) {
                Ok((t, rest, st2)) => r matches Ok(s) && s@ == t && final(self).suffix() == rest
                    && final(self).st() == st2 && final(self).suffix().len() < old(self).suffix().len(),
                Err(k) => r matches Err(e) && e@ == k,
            },
        decreases old(self).suffix().len(), 1int,
    {
        let v = match self.read_value() {
            Ok(v) => v,
            Err(e) => {
                return Err(e);
            },
        };
        match v {
            Value::String(s) => {
                let c = s.clone();
                let ghost st2 = self.st();
                self.type_references.push(c);
                proof {
                    assert(string_views(self.type_references@) =~= st2.types.push(s@));
                    assert(self.st() =~= (DState { types: st2.types.push(s@), defs: st2.defs }));
                }
                Ok(s)
            },
            Value::Int(i) => {
                if i >= 0 && (i as usize) < self.type_references.len() {
                    let s = self.type_references[i as usize].clone();
                    Ok(s)
                } else {
                    let u: u32 = if i >= 0 {
                        i as u32
                    } else {
                        ((i as i64) + 0x1_0000_0000) as u32
                    };
                    Err(Error::SyntaxError(ErrorKind::OutOfTypeRefRange(u as usize)))
                }
            },
            other => Err(Error::SyntaxError(ErrorKind::UnexpectedType(kind_name(&other)))),
        }
    }

    /// Read a back-reference: an int index into the object table.
    pub fn read_ref(&mut self) -> (r: Result<Value, Error>)
        requires
            old(self).wf(),
        ensures
            final(self).wf(),
            final(self).input() == old(self).input(),
            final(self).suffix().len() <= old(self).suffix().len(),
            match sd_ref(old(self).suffix(), old(self).st()) {
                Ok((v, rest, st2)) => r matches Ok(val) && val@ == v && final(self).suffix()
                    == rest && final(self).st() == st2,
                Err(k) => r matches Err(e) && e@ == k,
            },
        decreases old(self).suffix().len(), 1int,
    {
        let v = match self.read_value() {
            Ok(v) => v,
            Err(e) => {
                return Err(e);
            },
        };
        match v {
            Value::Int(i) => {
                let u: u32 = if i >= 0 {
                    i as u32
                } else {
                    ((i as i64) + 0x1_0000_0000) as u32
                };
                Ok(Value::Ref(u))
            },
            other => Err(Error::SyntaxError(ErrorKind::UnexpectedType(kind_name(&other)))),
        }
    }

    /// Read a class definition and append it to the definition table.
    pub fn read_definition(&mut self) -> (r: Result<(), Error>)
        requires
            old(self).wf(),
        ensures
            final(self).wf(),
            final(self).input() == old(self).input(),
            final(self).suffix().len() <= old(self).suffix().len(),
            match sd_def(old(self).suffix(), old(self).st()) {
                Ok((st2, rest)) => r matches Ok(u) && final(self).suffix() == rest && final(self).st() == st2 && final(self).suffix().len() < old(self).suffix().len(),
                Err(k) => r matches Err(e) && e@ == k,
            },
        decreases old(self).suffix().len(), 1int,
    {
        let nv = match self.read_value() {
            Ok(v) => v,
            Err(e) => {
                return Err(e);
            },
        };
        let name = match nv {
            Value::String(n) => n,
            other => {
                return Err(Error::SyntaxError(ErrorKind::UnexpectedType(kind_name(&other))));
            },
        };
        let cv = match self.read_value() {
            Ok(v) => v,
            Err(e) => {
                return Err(e);
            },
        };
        let length = match cv {
            Value::Int(l) => l,
            other => {
                return Err(Error::SyntaxError(ErrorKind::UnexpectedType(kind_name(&other))));
            },
        };
        let cnt: usize = if length < 0 {
            0
        } else {
            length as usize
        };
        let ghost b1 = self.suffix();
        let ghost st1 = self.st();
        let ghost nm = name@;
        proof {
            assert(sd_def(old(self).suffix(), old(self).st()) == (match sd_strings_n(
                cnt as nat,
                b1,
                st1,
            ) {
                Ok((fs, r3, st3)) => Ok::<(DState, Seq<u8>), DeErr>(
                    (
                        DState {
                            types: st3.types,
                            defs: st3.defs.push((DefView { name: nm, fields: fs })),
                        },
                        r3,
                    ),
                ),
                Err(e) => Err::<(DState, Seq<u8>), DeErr>(e),
            }));
        }
        let mut fields: Vec<String> = Vec::new();
        let mut k: usize = 0;
        while k < cnt
            invariant
                self.wf(),
                self.input() == old(self).input(),
                self.suffix().len() <= b1.len(),
                b1.len() < old(self).suffix().len(),
                nm == name@,
                k <= cnt,
                sd_def(old(self).suffix(), old(self).st()) == (match sd_strings_n(
                    cnt as nat,
                    b1,
                    st1,
                ) {
                    Ok((fs, r3, st3)) => Ok::<(DState, Seq<u8>), DeErr>(
                        (
                            DState {
                                types: st3.types,
                                defs: st3.defs.push((DefView { name: nm, fields: fs })),
                            },
                            r3,
                        ),
                    ),
                    Err(e) => Err::<(DState, Seq<u8>), DeErr>(e),
                }),
                match sd_strings_n((cnt - k) as nat, self.suffix(), self.st()) {
                    Ok(pr) => sd_strings_n(cnt as nat, b1, st1) == Ok::<
                        (Seq<Seq<char>>, Seq<u8>, DState),
                        DeErr,
                    >((string_views(fields@) + pr.0, pr.1, pr.2)),
                    Err(e) => sd_strings_n(cnt as nat, b1, st1) == Err::<
                        (Seq<Seq<char>>, Seq<u8>, DState),
                        DeErr,
                    >(e),
                },
            decreases cnt - k,
        {
            let ghost fv0 = string_views(fields@);
            let fv = match self.read_value() {
                Ok(v) => v,
                Err(e) => {
                    return Err(e);
                },
            };
            match fv {
                Value::String(fs) => {
                    fields.push(fs);
                    proof {
                        assert(string_views(fields@) =~= fv0.push(fields@.last()@));
                        let res = sd_strings_n((cnt - (k + 1)) as nat, self.suffix(), self.st());
                        match res {
                            Ok((ss, r2, st2)) => {
                                assert(fv0 + (seq![fields@.last()@] + ss) =~= string_views(
                                    fields@,
                                ) + ss);
                            },
                            Err(_) => {},
                        }
                    }
                },
                other => {
                    return Err(Error::SyntaxError(ErrorKind::UnexpectedType(kind_name(&other))));
                },
            }
            k = k + 1;
        }
        let ghost st3 = self.st();
        let ghost defv = (DefView { name: name@, fields: string_views(fields@) });
        self.class_references.push(Definition { name: name, fields: fields });
        proof {
            assert(string_views(fields@) + Seq::<Seq<char>>::empty() =~= string_views(fields@));
            assert(self.class_references@.last()@ =~= defv);
            assert(Seq::new(
                self.class_references@.len(),
                |i: int| self.class_references@[i]@,
            ) =~= st3.defs.push(defv));
            assert(self.st() =~= (DState { types: st3.types, defs: st3.defs.push(defv) }));
        }
        Ok(())
    }

    /// Read exactly `length` values.
    pub fn read_exact_length_list_internal(&mut self, length: u64) -> (r: Result<
        Vec<Value>,
        Error,
    >)
        requires
            old(self).wf(),
        ensures
            final(self).wf(),
            final(self).input() == old(self).input(),
            final(self).suffix().len() <= old(self).suffix().len(),
            match sd_vals_n(length as nat, old(self).suffix(), old(self).st()) {
                Ok((vs, rest, st2)) => r matches Ok(v) && views_of(v@) == vs && final(self).suffix() == rest && final(self).st() == st2,
                Err(k) => r matches Err(e) && e@ == k,
            },
        decreases old(self).suffix().len(), 1int,
    {
        let ghost b0 = old(self).suffix();
        let ghost st0 = old(self).st();
        let mut list: Vec<Value> = Vec::new();
        let mut k: u64 = 0;
        while k < length
            invariant
                self.wf(),
                self.input() == old(self).input(),
                self.suffix().len() <= b0.len(),
                b0 == old(self).suffix(),
                st0 == old(self).st(),
                k <= length,
                match sd_vals_n((length - k) as nat, self.suffix(), self.st()) {
                    Ok(pr) => sd_vals_n(length as nat, b0, st0) == Ok::<
                        (Seq<ValView>, Seq<u8>, DState),
                        DeErr,
                    >((views_of(list@) + pr.0, pr.1, pr.2)),
                    Err(e) => sd_vals_n(length as nat, b0, st0) == Err::<
                        (Seq<ValView>, Seq<u8>, DState),
                        DeErr,
                    >(e),
                },
            decreases length - k,
        {
            let ghost lv0 = views_of(list@);
            let v = match self.read_value() {
                Ok(v) => v,
                Err(e) => {
                    return Err(e);
                },
            };
            list.push(v);
            proof {
                assert(views_of(list@) =~= lv0.push(value_view(list@.last())));
                let res = sd_vals_n((length - (k + 1)) as nat, self.suffix(), self.st());
                match res {
                    Ok((vs, r2, st2)) => {
                        assert(lv0 + (seq![value_view(list@.last())] + vs) =~= views_of(list@)
                            + vs);
                    },
                    Err(_) => {},
                }
            }
            k = k + 1;
        }
        proof {
            assert(views_of(list@) + Seq::<ValView>::empty() =~= views_of(list@));
        }
        Ok(list)
    }

    /// Read values until the `'Z'` terminator.
    pub fn read_varlength_list_internal(&mut self) -> (r: Result<Vec<Value>, Error>)
        requires
            old(self).wf(),
        ensures
            final(self).wf(),
            final(self).input() == old(self).input(),
            final(self).suffix().len() <= old(self).suffix().len(),
            match sd_vals_z(old(self).suffix(), old(self).st()) {
                Ok((vs, rest, st2)) => r matches Ok(v) && views_of(v@) == vs && final(self).suffix() == rest && final(self).st() == st2,
                Err(k) => r matches Err(e) && e@ == k,
            },
        decreases old(self).suffix().len(), 1int,
    {
        let ghost b0 = old(self).suffix();
        let ghost st0 = old(self).st();
        let mut list: Vec<Value> = Vec::new();
        loop
            invariant
                self.wf(),
                self.input() == old(self).input(),
                self.suffix().len() <= b0.len(),
                b0 == old(self).suffix(),
                st0 == old(self).st(),
                match sd_vals_z(self.suffix(), self.st()) {
                    Ok(pr) => sd_vals_z(b0, st0) == Ok::<(Seq<ValView>, Seq<u8>, DState), DeErr>(
                        (views_of(list@) + pr.0, pr.1, pr.2),
                    ),
                    Err(e) => sd_vals_z(b0, st0) == Err::<(Seq<ValView>, Seq<u8>, DState), DeErr>(
                        e,
                    ),
                },
            decreases self.suffix().len(),
        {
            let t = match self.peek_byte() {
                Ok(t) => t,
                Err(e) => {
                    return Err(e);
                },
            };
            if t == 0x5a {
                let ghost pre = self.suffix();
                match self.read_byte() {
                    Ok(u) => (),
                    Err(e) => {
                        return Err(e);
                    },
                }
                proof {
                    assert(views_of(list@) + Seq::<ValView>::empty() =~= views_of(list@));
                }
                return Ok(list);
            }
            let ghost lv0 = views_of(list@);
            let v = match self.read_value() {
                Ok(v) => v,
                Err(e) => {
                    return Err(e);
                },
            };
            list.push(v);
            proof {
                assert(views_of(list@) =~= lv0.push(value_view(list@.last())));
                let res = sd_vals_z(self.suffix(), self.st());
                match res {
                    Ok((vs, r2, st2)) => {
                        assert(lv0 + (seq![value_view(list@.last())] + vs) =~= views_of(list@)
                            + vs);
                    },
                    Err(_) => {},
                }
            }
        }
    }

    /// Read key/value pairs until the `'Z'` terminator.
    pub fn read_varlength_map_internal(&mut self) -> (r: Result<Vec<(Value, Value)>, Error>)
        requires
            old(self).wf(),
        ensures
            final(self).wf(),
            final(self).input() == old(self).input(),
            final(self).suffix().len() <= old(self).suffix().len(),
            match sd_pairs_z(old(self).suffix(), old(self).st()) {
                Ok((ps, rest, st2)) => r matches Ok(v) && pair_views_of(v@) == dedup_pairs(ps)
                    && final(self).suffix() == rest && final(self).st() == st2,
                Err(k) => r matches Err(e) && e@ == k,
            },
        decreases old(self).suffix().len(), 1int,
    {
        let ghost b0 = old(self).suffix();
        let ghost st0 = old(self).st();
        let mut map: Vec<(Value, Value)> = Vec::new();
        let ghost mut graw: Seq<(ValView, ValView)> = Seq::empty();
        proof {
            assert(dedup_pairs(graw) =~= pair_views_of(map@));
        }
        loop
            invariant
                self.wf(),
                self.input() == old(self).input(),
                self.suffix().len() <= b0.len(),
                b0 == old(self).suffix(),
                st0 == old(self).st(),
                pair_views_of(map@) == dedup_pairs(graw),
                match sd_pairs_z(self.suffix(), self.st()) {
                    Ok(pr) => sd_pairs_z(b0, st0) == Ok::<
                        (Seq<(ValView, ValView)>, Seq<u8>, DState),
                        DeErr,
                    >((graw + pr.0, pr.1, pr.2)),
                    Err(e) => sd_pairs_z(b0, st0) == Err::<
                        (Seq<(ValView, ValView)>, Seq<u8>, DState),
                        DeErr,
                    >(e),
                },
            decreases self.suffix().len(),
        {
            let t = match self.peek_byte() {
                Ok(t) => t,
                Err(e) => {
                    return Err(e);
                },
            };
            if t == 0x5a {
                match self.read_byte() {
                    Ok(u) => (),
                    Err(e) => {
                        return Err(e);
                    },
                }
                proof {
                    assert(graw + Seq::<(ValView, ValView)>::empty() =~= graw);
                }
                return Ok(map);
            }
            let ghost graw0 = graw;
            let key = match self.read_value() {
                Ok(v) => v,
                Err(e) => {
                    return Err(e);
                },
            };
            let val = match self.read_value() {
                Ok(v) => v,
                Err(e) => {
                    return Err(e);
                },
            };
            let ghost kv = value_view(key);
            let ghost vv = value_view(val);
            upsert_pair(&mut map, key, val);
            proof {
                graw = graw0.push((kv, vv));
                crate::model::lemma_dedup_push(graw0, kv, vv);
                let res = sd_pairs_z(self.suffix(), self.st());
                match res {
                    Ok((ps, r3, st3)) => {
                        assert(graw0 + (seq![(kv, vv)] + ps) =~= graw + ps);
                    },
                    Err(_) => {},
                }
            }
        }
    }

    /// Read a list whose form the tag gave.
    pub fn read_list(&mut self, l: ListTag) -> (r: Result<Value, Error>)
        requires
            old(self).wf(),
        ensures
            final(self).wf(),
            final(self).input() == old(self).input(),
            final(self).suffix().len() <= old(self).suffix().len(),
            match sd_list(l, old(self).suffix(), old(self).st()) {
                Ok((v, rest, st2)) => r matches Ok(val) && val@ == v && final(self).suffix()
                    == rest && final(self).st() == st2,
                Err(k) => r matches Err(e) && e@ == k,
            },
        decreases old(self).suffix().len(), 2int,
    {
        match l {
            ListTag::ShortFixedLength(typed, n) => {
                if typed {
                    let typ = match self.read_type() {
                        Ok(t) => t,
                        Err(e) => {
                            return Err(e);
                        },
                    };
                    let val = match self.read_exact_length_list_internal(n as u64) {
                        Ok(v) => v,
                        Err(e) => {
                            return Err(e);
                        },
                    };
                    Ok(Value::List(List::Typed(typ, val)))
                } else {
                    let val = match self.read_exact_length_list_internal(n as u64) {
                        Ok(v) => v,
                        Err(e) => {
                            return Err(e);
                        },
                    };
                    Ok(Value::List(List::Untyped(val)))
                }
            },
            ListTag::VarLength(typed) => {
                if typed {
                    let typ = match self.read_type() {
                        Ok(t) => t,
                        Err(e) => {
                            return Err(e);
                        },
                    };
                    let val = match self.read_varlength_list_internal() {
                        Ok(v) => v,
                        Err(e) => {
                            return Err(e);
                        },
                    };
                    Ok(Value::List(List::Typed(typ, val)))
                } else {
                    let val = match self.read_varlength_list_internal() {
                        Ok(v) => v,
                        Err(e) => {
                            return Err(e);
                        },
                    };
                    Ok(Value::List(List::Untyped(val)))
                }
            },
            ListTag::FixedLength(typed) => {
                if typed {
                    let typ = match self.read_type() {
                        Ok(t) => t,
                        Err(e) => {
                            return Err(e);
                        },
                    };
                    let lv = match self.read_value() {
                        Ok(v) => v,
                        Err(e) => {
                            return Err(e);
                        },
                    };
                    let n = match lv {
                        Value::Int(n) => n,
                        other => {
                            return Err(
                                Error::SyntaxError(ErrorKind::UnexpectedType(kind_name(&other))),
                            );
                        },
                    };
                    let cnt: u64 = if n >= 0 {
                        n as u64
                    } else {
                        0xffff_ffff_ffff_ffff - ((-(n as i64)) as u64) + 1
                    };
                    let val = match self.read_exact_length_list_internal(cnt) {
                        Ok(v) => v,
                        Err(e) => {
                            return Err(e);
                        },
                    };
                    Ok(Value::List(List::Typed(typ, val)))
                } else {
                    let lv = match self.read_value() {
                        Ok(v) => v,
                        Err(e) => {
                            return Err(e);
                        },
                    };
                    let n = match lv {
                        Value::Int(n) => n,
                        other => {
                            return Err(
                                Error::SyntaxError(ErrorKind::UnexpectedType(kind_name(&other))),
                            );
                        },
                    };
                    let cnt: u64 = if n >= 0 {
                        n as u64
                    } else {
                        0xffff_ffff_ffff_ffff - ((-(n as i64)) as u64) + 1
                    };
                    let val = match self.read_exact_length_list_internal(cnt) {
                        Ok(v) => v,
                        Err(e) => {
                            return Err(e);
                        },
                    };
                    Ok(Value::List(List::Untyped(val)))
                }
            },
        }
    }

    /// Read a map whose form the tag gave.
    pub fn read_map(&mut self, typed: bool) -> (r: Result<Value, Error>)
        requires
            old(self).wf(),
        ensures
            final(self).wf(),
            final(self).input() == old(self).input(),
            final(self).suffix().len() <= old(self).suffix().len(),
            match sd_dict(typed, old(self).suffix(), old(self).st()) {
                Ok((v, rest, st2)) => r matches Ok(val) && val@ == v && final(self).suffix()
                    == rest && final(self).st() == st2,
                Err(k) => r matches Err(e) && e@ == k,
            },
        decreases old(self).suffix().len(), 2int,
    {
        if typed {
            let typ = match self.read_type() {
                Ok(t) => t,
                Err(e) => {
                    return Err(e);
                },
            };
            let val = match self.read_varlength_map_internal() {
                Ok(v) => v,
                Err(e) => {
                    return Err(e);
                },
            };
            Ok(Value::Dict(MapValue::Typed(typ, val)))
        } else {
            let val = match self.read_varlength_map_internal() {
                Ok(v) => v,
                Err(e) => {
                    return Err(e);
                },
            };
            Ok(Value::Dict(MapValue::Untyped(val)))
        }
    }

    /// Read the fields of an object instantiation whose definition index is
    /// known, yielding a typed map named after the definition.
    pub fn read_object_with_index(&mut self, i: i32) -> (r: Result<Value, Error>)
        requires
            old(self).wf(),
        ensures
            final(self).wf(),
            final(self).input() == old(self).input(),
            final(self).suffix().len() <= old(self).suffix().len(),
            match sd_object_idx(i as int, old(self).suffix(), old(self).st()) {
                Ok((v, rest, st2)) => r matches Ok(val) && val@ == v && final(self).suffix()
                    == rest && final(self).st() == st2,
                Err(k) => r matches Err(e) && e@ == k,
            },
        decreases old(self).suffix().len(), 2int,
    {
        if !(i >= 0 && (i as usize) < self.class_references.len()) {
            let u: u32 = if i >= 0 {
                i as u32
            } else {
                ((i as i64) + 0x1_0000_0000) as u32
            };
            return Err(Error::SyntaxError(ErrorKind::OutOfDefinitionRange(u as usize)));
        }
        let idx: usize = i as usize;
        let ghost b0 = old(self).suffix();
        let ghost st0 = old(self).st();
        let ghost dv = st0.defs[i as int];
        let name: String = self.class_references[idx].name.clone();
        let nfields: usize = self.class_references[idx].fields.len();
        let mut fields: Vec<String> = Vec::new();
        let mut k: usize = 0;
        while k < nfields
            invariant
                self.wf(),
                *self == *old(self),
                0 <= i,
                (i as int) < self.class_references@.len(),
                idx == i as usize,
                dv == old(self).st().defs[i as int],
                nfields == self.class_references@[i as int].fields@.len(),
                nfields == dv.fields.len(),
                k <= nfields,
                fields@.len() == k,
                string_views(fields@) =~= dv.fields.take(k as int),
            decreases nfields - k,
        {
            let f = self.class_references[idx].fields[k].clone();
            let ghost fvs0 = fields@;
            proof {
                assert(dv == self.class_references@[i as int]@);
                assert(dv.fields == string_views(self.class_references@[i as int].fields@));
                assert(f@ == dv.fields[k as int]);
            }
            fields.push(f);
            proof {
                assert(fields@.len() == k + 1);
                assert(fields@.last()@ == dv.fields[k as int]);
                assert forall|m: int| 0 <= m < k + 1 implies string_views(fields@)[m]
                    == dv.fields.take(k + 1 as int)[m] by {
                    if m < k {
                        assert(fields@[m] == fvs0[m]);
                        assert(string_views(fvs0)[m] == fvs0[m]@);
                        assert(string_views(fvs0)[m] == dv.fields.take(k as int)[m]);
                    } else {
                        assert(fields@[m] == fields@.last());
                    }
                }
                assert(string_views(fields@) =~= dv.fields.take(k + 1 as int));
            }
            k = k + 1;
        }
        proof {
            assert(dv.fields.take(nfields as int) =~= dv.fields);
        }
        let mut pairs: Vec<(Value, Value)> = Vec::new();
        let ghost mut gvs: Seq<ValView> = Seq::empty();
        let ghost mut gzip: Seq<(ValView, ValView)> = Seq::empty();
        let mut j: usize = 0;
        proof {
            assert(dedup_pairs(gzip) =~= pair_views_of(pairs@));
            assert(gzip =~= Seq::new(0, |m: int| (ValView::Str(dv.fields[m]), gvs[m])));
        }
        while j < nfields
            invariant
                self.wf(),
                self.input() == old(self).input(),
                self.suffix().len() <= b0.len(),
                b0 == old(self).suffix(),
                st0 == old(self).st(),
                dv == st0.defs[i as int],
                0 <= i < st0.defs.len(),
                nfields == dv.fields.len(),
                string_views(fields@) == dv.fields,
                fields@.len() == nfields,
                j <= nfields,
                gzip == Seq::new(j as nat, |m: int| (ValView::Str(dv.fields[m]), gvs[m])),
                pair_views_of(pairs@) == dedup_pairs(gzip),
                gvs.len() == j,
                match sd_vals_n((nfields - j) as nat, self.suffix(), self.st()) {
                    Ok(pr) => sd_vals_n(nfields as nat, b0, st0) == Ok::<
                        (Seq<ValView>, Seq<u8>, DState),
                        DeErr,
                    >((gvs + pr.0, pr.1, pr.2)),
                    Err(e) => sd_vals_n(nfields as nat, b0, st0) == Err::<
                        (Seq<ValView>, Seq<u8>, DState),
                        DeErr,
                    >(e),
                },
            decreases nfields - j,
        {
            let ghost gvs0 = gvs;
            let v = match self.read_value() {
                Ok(v) => v,
                Err(e) => {
                    return Err(e);
                },
            };
            let fk = fields[j].clone();
            let ghost fkv = fk@;
            let ghost vv = value_view(v);
            let ghost gzip0 = gzip;
            proof {
                assert(fkv == dv.fields[j as int]);
            }
            upsert_pair(&mut pairs, Value::String(fk), v);
            proof {
                gvs = gvs0.push(vv);
                gzip = gzip0.push((ValView::Str(fkv), vv));
                crate::model::lemma_dedup_push(gzip0, ValView::Str(fkv), vv);
                assert(gzip =~= Seq::new(
                    (j + 1) as nat,
                    |m: int| (ValView::Str(dv.fields[m]), gvs[m]),
                ));
                let res = sd_vals_n((nfields - (j + 1)) as nat, self.suffix(), self.st());
                match res {
                    Ok((vs, r2, st2)) => {
                        assert(gvs0 + (seq![vv] + vs) =~= gvs + vs);
                    },
                    Err(_) => {},
                }
            }
            j = j + 1;
        }
        proof {
            assert(gvs + Seq::<ValView>::empty() =~= gvs);
            assert(gzip =~= Seq::new(
                dv.fields.len(),
                |m: int| (ValView::Str(dv.fields[m]), gvs[m]),
            ));
        }
        Ok(Value::Dict(MapValue::Typed(name, pairs)))
    }

    /// Read an object instantiation: an int definition index, then the
    /// fields.
    pub fn read_object(&mut self) -> (r: Result<Value, Error>)
        requires
            old(self).wf(),
        ensures
            final(self).wf(),
            final(self).input() == old(self).input(),
            final(self).suffix().len() <= old(self).suffix().len(),
            match sd_object(old(self).suffix(), old(self).st()) {
                Ok((v, rest, st2)) => r matches Ok(val) && val@ == v && final(self).suffix()
                    == rest && final(self).st() == st2,
                Err(k) => r matches Err(e) && e@ == k,
            },
        decreases old(self).suffix().len(), 3int,
    {
        let v = match self.read_value() {
            Ok(v) => v,
            Err(e) => {
                return Err(e);
            },
        };
        match v {
            Value::Int(i) => self.read_object_with_index(i),
            other => Err(Error::SyntaxError(ErrorKind::UnexpectedType(kind_name(&other)))),
        }
    }

    /// Read one value.
    pub fn read_value(&mut self) -> (r: Result<Value, Error>)
        requires
            old(self).wf(),
        ensures
            final(self).wf(),
            final(self).input() == old(self).input(),
            final(self).suffix().len() <= old(self).suffix().len(),
            match sd_value(old(self).suffix(), old(self).st()) {
                Ok((v, rest, st2)) => r matches Ok(val) && val@ == v && final(self).suffix()
                    == rest && final(self).st() == st2 && final(self).suffix().len() < old(self).suffix().len(),
                Err(k) => r matches Err(e) && e@ == k,
            },
        decreases old(self).suffix().len(), 0int,
    {
        let tag = match self.read_byte() {
            Ok(t) => t,
            Err(e) => {
                return Err(e);
            },
        };
        match ByteCodecType::from(tag) {
            ByteCodecType::Int(i) => self.read_int(i),
            ByteCodecType::Long(l) => self.read_long(l),
            ByteCodecType::Double(d) => self.read_double(d),
            ByteCodecType::Date(d) => self.read_date(d),
            ByteCodecType::Binary(bin) => self.read_binary(bin),
            ByteCodecType::Str(_) => self.read_string(tag),
            ByteCodecType::List(l) => self.read_list(l),
            ByteCodecType::Dict(typed) => self.read_map(typed),
            ByteCodecType::True => Ok(Value::Bool(true)),
            ByteCodecType::False => Ok(Value::Bool(false)),
            ByteCodecType::Null => Ok(Value::Null),
            ByteCodecType::Definition => {
                match self.read_definition() {
                    Ok(u) => (),
                    Err(e) => {
                        return Err(e);
                    },
                }
                self.read_value()
            },
            ByteCodecType::Ref => self.read_ref(),
            ByteCodecType::Object(o) => match o {
                Object::Normal => self.read_object(),
                Object::Compact(c) => self.read_object_with_index((c as i32) - 0x60),
            },
            ByteCodecType::Unknown => self.error(ErrorKind::UnknownType),
        }
    }

}

/// Relies on `String::from_utf8`: it succeeds exactly on valid UTF-8 and
/// the string then wraps the given bytes unchanged.
#[verifier::external_body]
fn bytes_to_string(v: Vec<u8>) -> (r: Option<String>)
    ensures
        r is Some <==> valid_utf8(v@),
        r matches Some(s) ==> s@ == decode_utf8(v@),
{
    match String::from_utf8(v) {
        Ok(s) => Some(s),
        Err(_) => None,
    }
}

/// A signed big-endian read lies in the symmetric range of its width.
proof fn lemma_sint_range(s: Seq<u8>)
    requires
        s.len() >= 1,
    ensures
        -(p2(8 * s.len() as int - 8) * 128) <= be_sint(s) < p2(8 * s.len() as int - 8) * 128,
{
    crate::wire::lemma_be_uint_bound(s);
    crate::wire::lemma_be_first_byte_high(s);
    vstd::arithmetic::power2::lemma_pow2_adds((8 * (s.len() - 1)) as nat, 8);
    vstd::arithmetic::power2::lemma_pow2_pos((8 * (s.len() - 1)) as nat);
    lemma2_to64();
}

/// One map insertion: a key already present keeps its place and takes the
/// new value, a new key goes to the end.
fn upsert_pair(map: &mut Vec<(Value, Value)>, k: Value, v: Value)
    ensures
        pair_views_of(final(map)@) == crate::model::upsert(
            pair_views_of(old(map)@),
            value_view(k),
            value_view(v),
        ),
{
    let ghost ps = pair_views_of(map@);
    let ghost kv = value_view(k);
    let ghost vv = value_view(v);
    let mut j: usize = 0;
    while j < map.len()
        invariant
            *map == *old(map),
            ps == pair_views_of(map@),
            kv == value_view(k),
            vv == value_view(v),
            j <= map@.len(),
            forall|m: int| 0 <= m < j ==> (#[trigger] ps[m]).0 != kv,
        decreases map@.len() - j,
    {
        proof {
            assert(ps[j as int] == (
                value_view(map@[j as int].0),
                value_view(map@[j as int].1),
            ));
        }
        if rep_eq(&map[j].0, &k) {
            proof {
                crate::model::lemma_find_key_at(ps, kv, j as int);
            }
            map[j] = (k, v);
            proof {
                assert(pair_views_of(map@) =~= ps.update(j as int, (kv, vv)));
            }
            return ;
        }
        j = j + 1;
    }
    proof {
        crate::model::lemma_find_key_none(ps, kv);
    }
    map.push((k, v));
    proof {
        assert(pair_views_of(map@) =~= ps.push((kv, vv)));
    }
}

/// The name of a value's kind, for error messages.
fn kind_name(v: &Value) -> String {
    match v {
        Value::Null => "null".to_owned(),
        Value::Bool(_) => "bool".to_owned(),
        Value::Int(_) => "int".to_owned(),
        Value::Long(_) => "long".to_owned(),
        Value::Double(_) => "double".to_owned(),
        Value::Date(_) => "date".to_owned(),
        Value::Bytes(_) => "binary".to_owned(),
        Value::String(_) => "string".to_owned(),
        Value::Ref(_) => "ref".to_owned(),
        Value::List(_) => "list".to_owned(),
        Value::Dict(_) => "map".to_owned(),
    }
}

/// Read one value from a byte slice.
pub fn from_slice(v: &[u8]) -> (r: Result<Value, Error>)
    ensures
        match sd_value(v@, DState::empty()) {
            Ok((sv, rest, st2)) => r matches Ok(val) && val@ == sv,
            Err(k) => r matches Err(e) && e@ == k,
        },
{
    let mut de = Deserializer::new(slice_to_vec(v));
    de.read_value()
}

/// Copy a slice into a vector.
fn slice_to_vec(v: &[u8]) -> (r: Vec<u8>)
    ensures
        r@ == v@,
{
    let mut out: Vec<u8> = Vec::new();
    let mut i: usize = 0;
    while i < v.len()
        invariant
            i <= v@.len(),
            out@ =~= v@.take(i as int),
        decreases v@.len() - i,
    {
        out.push(v[i]);
        proof {
            assert(out@ =~= v@.take(i + 1 as int));
        }
        i = i + 1;
    }
    proof {
        assert(v@.take(v@.len() as int) =~= v@);
    }
    out
}

} // verus!
