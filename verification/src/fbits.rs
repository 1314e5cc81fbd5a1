//! Integer arithmetic on IEEE-754 double bit patterns.
//!
//! The codec carries a double as its 64-bit pattern, so the compact double
//! forms of the wire format reduce to three conversions, all exact integer
//! computations: the bit pattern of a small integer, the small integer a
//! pattern stands for (if any), and the bit pattern of `n * 0.001` rounded
//! to nearest-even as IEEE-754 multiplication rounds it.

use vstd::arithmetic::power2::{
    lemma2_to64, lemma2_to64_rest, lemma_pow2_adds, lemma_pow2_pos, lemma_pow2_strictly_increases,
    lemma_pow2_unfold, pow2,
};
use vstd::prelude::*;

verus! {

/// `pow2` over `int`, zero below zero.
pub open spec fn p2(k: int) -> int {
    if k < 0 {
        0
    } else {
        pow2(k as nat) as int
    }
}

/// The number of binary digits of `n` (zero for zero).
pub open spec fn bitlen(n: nat) -> nat
    decreases n,
{
    if n == 0 {
        0
    } else {
        1 + bitlen(n / 2)
    }
}

pub proof fn lemma_bitlen_bounds(a: nat)
    requires
        a > 0,
    ensures
        pow2((bitlen(a) - 1) as nat) <= a < pow2(bitlen(a)),
    decreases a,
{
    assert(bitlen(0) == 0);
    if a == 1 {
        lemma2_to64();
        assert(bitlen(1) == 1 + bitlen(0));
    } else {
        lemma_bitlen_bounds(a / 2);
        let bl = bitlen(a / 2);
        assert(bitlen(a) == 1 + bl);
        lemma_pow2_unfold((bl + 1) as nat);
        lemma_pow2_unfold(bl);
        assert(2 * (a / 2) <= a < 2 * (a / 2) + 2);
    }
}

/// Everything below a power of two has at most that many digits.
pub proof fn lemma_bitlen_le(n: nat, k: nat)
    requires
        n < pow2(k),
    ensures
        bitlen(n) <= k,
{
    if n > 0 {
        lemma_bitlen_bounds(n);
        if bitlen(n) > k {
            if k < bitlen(n) - 1 {
                lemma_pow2_strictly_increases(k, (bitlen(n) - 1) as nat);
            }
            assert(pow2(k) <= pow2((bitlen(n) - 1) as nat));
            assert(false);
        }
    }
}

/// The IEEE-754 bit pattern whose value is exactly the integer `n`.
/// Exact for `|n| <= 0x8000_0000`; `0` maps to the pattern of `+0.0`.
pub open spec fn i64_to_f64_bits(n: int) -> u64 {
    if n == 0 {
        0u64
    } else {
        let a = if n < 0 {
            -n
        } else {
            n
        };
        let e = bitlen(a as nat) - 1;
        let sig = a * p2(52 - e);
        let sign = if n < 0 {
            0x8000_0000_0000_0000int
        } else {
            0int
        };
        (sign + (1023 + e) * p2(52) + (sig - p2(52))) as u64
    }
}

/// The small integer (in `(-2^31, 2^31)`) that a bit pattern may stand for
/// exactly; `None` when the value is fractional, too large, `-0.0`, or not
/// finite.
pub open spec fn f64_bits_small_int(bits: u64) -> Option<int> {
    if bits == 0 {
        Some(0int)
    } else {
        let neg = bits as int >= p2(63);
        let mag = (bits as int) % p2(63);
        let ef = mag / p2(52);
        let m = mag % p2(52);
        if 1023 <= ef <= 1053 {
            let e = ef - 1023;
            if m % p2(52 - e) == 0 {
                let a = (p2(52) + m) / p2(52 - e);
                Some(
                    if neg {
                        -a
                    } else {
                        a
                    },
                )
            } else {
                None
            }
        } else {
            None
        }
    }
}

/// The significand (with the implicit bit) of the pattern of `0.001`, whose
/// value is this constant times `2^-62`.
pub open spec fn thousandth_sig() -> int {
    0x10624DD2F1A9FC
}

/// The bit pattern of `(c as f64) * 0.001`: the exact product rounded to 53
/// significant bits, ties to even, as the IEEE-754 multiplication rounds.
/// Meaningful for `|c| <= 0x8000_0000`.
pub open spec fn mul_001_bits(c: int) -> u64 {
    if c == 0 {
        0u64
    } else {
        let a = if c < 0 {
            -c
        } else {
            c
        };
        let p = a * thousandth_sig();
        let l = bitlen(p as nat) as int;
        let sh = l - 53;
        let q = p / p2(sh);
        let r = p % p2(sh);
        let q2 = if sh == 0 {
            q
        } else {
            if r > p2(sh - 1) || (r == p2(sh - 1) && q % 2 == 1) {
                q + 1
            } else {
                q
            }
        };
        let sig = if q2 == p2(53) {
            p2(52)
        } else {
            q2
        };
        let l2 = if q2 == p2(53) {
            l + 1
        } else {
            l
        };
        let ef = 1013 + (l2 - 53);
        let sign = if c < 0 {
            p2(63)
        } else {
            0int
        };
        (sign + ef * p2(52) + (sig - p2(52))) as u64
    }
}

/// The integer part of `1000` times the value of a finite bit pattern,
/// truncated toward zero.
pub open spec fn f5_trunc(bits: u64) -> int {
    let neg = bits as int >= p2(63);
    let mag = (bits as int) % p2(63);
    let ef = mag / p2(52);
    let m = mag % p2(52);
    let s = if ef == 0 {
        m
    } else {
        p2(52) + m
    };
    let e = (if ef == 0 {
        1int
    } else {
        ef
    }) - 1075;
    let t = if e >= 0 {
        s * 1000 * p2(e)
    } else {
        (s * 1000) / p2(-e)
    };
    if neg {
        -t
    } else {
        t
    }
}

/// `c` is a 32-bit int whose scaled decoding reproduces `bits` exactly.
pub open spec fn f5_ok(bits: u64, c: int) -> bool {
    &&& -0x8000_0000 <= c <= 0x7fff_ffff
    &&& mul_001_bits(c) == bits
}

/// The scale factor the encoder may write after the `0x5f` tag: the first
/// of `t`, `t+1`, `t-1` (for `t` the truncation of the value times `1000`)
/// that decodes back to `bits` exactly, if one does.
pub open spec fn f5_pick(bits: u64) -> Option<int> {
    let mag = (bits as int) % p2(63);
    let ef = mag / p2(52);
    if ef == 0x7ff {
        None
    } else {
        let t = f5_trunc(bits);
        if f5_ok(bits, t) {
            Some(t)
        } else if f5_ok(bits, t + 1) {
            Some(t + 1)
        } else if f5_ok(bits, t - 1) {
            Some(t - 1)
        } else {
            None
        }
    }
}

/// `2^k` as a 64-bit integer.
pub fn pow2_u64(k: u64) -> (r: u64)
    requires
        k <= 63,
    ensures
        r as nat == pow2(k as nat),
{
    let mut i: u64 = 0;
    let mut r: u64 = 1;
    proof {
        lemma2_to64();
        lemma2_to64_rest();
    }
    while i < k
        invariant
            i <= k <= 63,
            r as nat == pow2(i as nat),
        decreases k - i,
    {
        proof {
            lemma_pow2_unfold((i + 1) as nat);
            if (i + 1) < 64 {
                lemma_pow2_strictly_increases((i + 1) as nat, 64);
            }
            lemma2_to64_rest();
        }
        r = r * 2;
        i = i + 1;
    }
    r
}

/// The number of binary digits of a 128-bit integer.
pub fn bitlen_u128(x: u128) -> (r: u64)
    ensures
        r as nat == bitlen(x as nat),
        r <= 128,
{
    let mut n: u128 = x;
    let mut r: u64 = 0;
    proof {
        lemma_u128_fits(x);
        lemma_bitlen_le(x as nat, 128);
    }
    while n > 0
        invariant
            bitlen(x as nat) == r + bitlen(n as nat),
            r + bitlen(n as nat) <= 128,
        decreases n,
    {
        n = n / 2;
        r = r + 1;
    }
    r
}

proof fn lemma_u128_fits(x: u128)
    ensures
        (x as nat) < pow2(128),
{
    lemma2_to64_rest();
    lemma_pow2_adds(64, 64);
    assert((x as nat) < pow2(64) * pow2(64)) by (nonlinear_arith)
        requires
            x <= 0xffff_ffff_ffff_ffff_ffff_ffff_ffff_ffff,
            pow2(64) == 0x1_0000_0000_0000_0000,
    ;
}

/// The bit pattern of the double whose value is exactly `n`.
pub fn int_bits(n: i64) -> (r: u64)
    requires
        -0x8000_0000 <= n <= 0x7fff_ffff,
    ensures
        r == i64_to_f64_bits(n as int),
{
    if n == 0 {
        return 0;
    }
    let a: u64 = if n < 0 {
        (-n) as u64
    } else {
        n as u64
    };
    proof {
        lemma2_to64();
        lemma2_to64_rest();
        lemma_bitlen_le(a as nat, 32);
        lemma_bitlen_bounds(a as nat);
        assert(bitlen(a as nat) >= 1);
    }
    let l: u64 = bitlen_u64_small(a);
    let e: u64 = l - 1;
    let pe: u64 = pow2_u64(52 - e);
    proof {
        lemma_pow2_unfold((e + 1) as nat);
        lemma_pow2_adds((52 - e) as nat, e as nat);
        let x = pow2(e as nat) as int;
        let y = pow2((52 - e) as nat) as int;
        lemma_pow2_pos(e as nat);
        lemma_pow2_pos((52 - e) as nat);
        assert((a as int) * (pe as int) < 2 * (y * x)) by (nonlinear_arith)
            requires
                0 <= (a as int) < 2 * x,
                pe as int == y,
                x >= 1,
                y >= 1,
        ;
        assert((a as int) * (pe as int) >= pow2(e as nat) * pow2((52 - e) as nat)) by (
        nonlinear_arith)
            requires
                (a as nat) >= pow2(e as nat),
                pe as nat == pow2((52 - e) as nat),
        ;
        lemma_pow2_adds(e as nat, (52 - e) as nat);
    }
    let sig: u64 = a * pe;
    let sign: u64 = if n < 0 {
        0x8000_0000_0000_0000
    } else {
        0
    };
    sign + (1023 + e) * 0x10_0000_0000_0000 + (sig - 0x10_0000_0000_0000)
}

/// The number of binary digits of a 64-bit integer.
pub fn bitlen_u64_small(x: u64) -> (r: u64)
    ensures
        r as nat == bitlen(x as nat),
        r <= 64,
{
    let r: u64 = bitlen_u128(x as u128);
    proof {
        lemma2_to64_rest();
        lemma_bitlen_le(x as nat, 64);
    }
    r
}

/// The small integer a bit pattern stands for exactly, if any.
pub fn small_int_of_bits(bits: u64) -> (r: Option<i64>)
    ensures
        match f64_bits_small_int(bits) {
            Some(n) => r matches Some(v) && v as int == n && -0x8000_0000 <= v <= 0x7fff_ffff,
            None => r is None,
        },
{
    proof {
        lemma2_to64();
        lemma2_to64_rest();
    }
    if bits == 0 {
        return Some(0);
    }
    let neg: bool = bits >= 0x8000_0000_0000_0000;
    let mag: u64 = bits % 0x8000_0000_0000_0000;
    let ef: u64 = mag / 0x10_0000_0000_0000;
    let m: u64 = mag % 0x10_0000_0000_0000;
    if ef < 1023 || ef > 1053 {
        return None;
    }
    let e: u64 = ef - 1023;
    let d: u64 = pow2_u64(52 - e);
    if m % d != 0 {
        return None;
    }
    let a: u64 = (0x10_0000_0000_0000 + m) / d;
    proof {
        lemma_pow2_adds((e + 1) as nat, (52 - e) as nat);
        assert((0x10_0000_0000_0000 + m as int) / (d as int) < pow2((e + 1) as nat)) by (
        nonlinear_arith)
            requires
                0x10_0000_0000_0000 + m < pow2((e + 1) as nat) * (d as int),
                d >= 1,
        ;
        assert(pow2((e + 1) as nat) <= pow2(32)) by {
            if e + 1 < 32 {
                lemma_pow2_strictly_increases((e + 1) as nat, 32);
            }
        }
    }
    if neg {
        Some(-(a as i64))
    } else {
        Some(a as i64)
    }
}

/// The bit pattern of `(c as f64) * 0.001`.
pub fn mul_001(c: i32) -> (r: u64)
    ensures
        r == mul_001_bits(c as int),
{
    if c == 0 {
        return 0;
    }
    let a: u64 = if c < 0 {
        (-(c as i64)) as u64
    } else {
        c as u64
    };
    let p: u128 = (a as u128) * 0x10624DD2F1A9FC;
    proof {
        lemma2_to64();
        lemma2_to64_rest();
        lemma_pow2_adds(31, 53);
        assert(p < pow2(31) * pow2(53)) by (nonlinear_arith)
            requires
                a <= 0x8000_0000,
                p == (a as int) * 0x10624DD2F1A9FC,
                pow2(31) == 0x8000_0000,
                pow2(53) == 0x20_0000_0000_0000,
        ;
        assert(p >= 0x10624DD2F1A9FC) by (nonlinear_arith)
            requires
                a >= 1,
                p == (a as int) * 0x10624DD2F1A9FC,
        ;
        assert(bitlen(p as nat) >= 53) by {
            lemma_bitlen_bounds(p as nat);
            if bitlen(p as nat) <= 52 {
                if bitlen(p as nat) < 52 {
                    lemma_pow2_strictly_increases(bitlen(p as nat), 52);
                }
                assert(pow2(52) == 0x10_0000_0000_0000);
                assert(false);
            }
        }
        assert(bitlen(p as nat) <= 84) by {
            lemma_bitlen_bounds(p as nat);
            if bitlen(p as nat) > 84 {
                if 84 < bitlen(p as nat) - 1 {
                    lemma_pow2_strictly_increases(84, (bitlen(p as nat) - 1) as nat);
                }
                assert(false);
            }
        }
    }
    let l: u64 = bitlen_u128(p);
    let sh: u64 = l - 53;
    let q2: u128;
    proof {
        lemma_bitlen_bounds(p as nat);
        lemma_pow2_adds(sh as nat, 53);
        if (l as int) < 84 {
            lemma_pow2_strictly_increases(l as nat, 84);
        }
        if sh >= 1 && (sh as int) < 63 {
            lemma_pow2_strictly_increases(sh as nat, 63);
        }
    }
    if sh == 0 {
        q2 = p;
    } else {
        let d: u128 = pow2_u64(sh) as u128;
        let q: u128 = p / d;
        let r: u128 = p % d;
        let half: u128 = d / 2;
        proof {
            lemma_pow2_unfold(sh as nat);
            assert((p as int) / (d as int) < pow2(53)) by (nonlinear_arith)
                requires
                    (p as nat) < pow2(sh as nat) * pow2(53),
                    d as nat == pow2(sh as nat),
                    d >= 1,
            ;
        }
        let round_up: bool = r > half || (r == half && q % 2 == 1);
        q2 = if round_up {
            q + 1
        } else {
            q
        };
    }
    let sig: u64;
    let l2: u64;
    proof {
        assert(pow2(53) == 0x20_0000_0000_0000);
    }
    if q2 == 0x20_0000_0000_0000 {
        sig = 0x10_0000_0000_0000;
        l2 = l + 1;
    } else {
        proof {
            assert(q2 < 0x20_0000_0000_0000) by {
                if sh == 0 {
                    lemma_bitlen_bounds(p as nat);
                    if (l as int) < 53 {
                        lemma_pow2_strictly_increases(l as nat, 53);
                    }
                }
            }
        }
        sig = q2 as u64;
        l2 = l;
    }
    let ef: u64 = 1013 + (l2 - 53);
    let sign: u64 = if c < 0 {
        0x8000_0000_0000_0000
    } else {
        0
    };
    proof {
        assert(sig >= 0x10_0000_0000_0000) by {
            if q2 != 0x20_0000_0000_0000 && sh > 0 {
                lemma_pow2_adds(sh as nat, 52);
                assert((p as int) / (pow2(sh as nat) as int) >= pow2(52)) by (nonlinear_arith)
                    requires
                        (p as nat) >= pow2(sh as nat) * pow2(52),
                        pow2(sh as nat) >= 1,
                ;
            }
        }
    }
    sign + ef * 0x10_0000_0000_0000 + (sig - 0x10_0000_0000_0000)
}

/// Whether `c` is an in-range scale factor whose decoding reproduces
/// `bits`.
fn f5_try(bits: u64, c: i64) -> (r: bool)
    ensures
        r == f5_ok(bits, c as int),
{
    if -0x8000_0000 <= c && c <= 0x7fff_ffff {
        mul_001(c as i32) == bits
    } else {
        false
    }
}

/// The scale factor to write after the `0x5f` tag, if the value has one.
pub fn f5_pick_exec(bits: u64) -> (r: Option<i32>)
    ensures
        match f5_pick(bits) {
            Some(c) => r matches Some(v) && v as int == c,
            None => r is None,
        },
{
    proof {
        lemma2_to64();
        lemma2_to64_rest();
    }
    let neg: bool = bits >= 0x8000_0000_0000_0000;
    let mag: u64 = bits % 0x8000_0000_0000_0000;
    let ef: u64 = mag / 0x10_0000_0000_0000;
    if ef == 0x7ff {
        return None;
    }
    let m: u64 = mag % 0x10_0000_0000_0000;
    let s: u64 = if ef == 0 {
        m
    } else {
        0x10_0000_0000_0000 + m
    };
    let e: i64 = (if ef == 0 {
        1
    } else {
        ef as i64
    }) - 1075;
    let prod: u64 = s * 1000;
    proof {
        assert(s <= 0x1f_ffff_ffff_ffff);
        assert(s * 1000 <= 0x1f_ffff_ffff_ffff * 1000) by (nonlinear_arith)
            requires
                s <= 0x1f_ffff_ffff_ffff,
        ;
    }
    let ta: u64;
    if s == 0 {
        ta = 0;
        proof {
            assert(0 * 1000 == 0) by (nonlinear_arith);
            assert(0int * p2(e as int) == 0) by (nonlinear_arith);
            if e < 0 {
                lemma_pow2_pos((-(e as int)) as nat);
                vstd::arithmetic::div_mod::lemma_div_of0(p2(-(e as int)));
            }
            assert(f5_trunc(bits) == 0);
        }
    } else if e >= 0 {
        proof {
            lemma_pow2_pos(e as nat);
            assert(s * 1000 * p2(e as int) > 0x1_0000_0001) by (nonlinear_arith)
                requires
                    s >= 1,
                    s * 1000 >= 1000,
                    s >= 0x10_0000_0000_0000 || ef == 0,
                    ef != 0,
                    p2(e as int) >= 1,
                    s >= 0x10_0000_0000_0000,
            ;
            let tt = f5_trunc(bits);
            assert(tt == s * 1000 * p2(e as int) || tt == -(s * 1000 * p2(e as int)));
            assert(!f5_ok(bits, tt) && !f5_ok(bits, tt + 1) && !f5_ok(bits, tt - 1));
            assert(f5_pick(bits) is None);
        }
        return None;
    } else {
        let d: u64 = (-e) as u64;
        if d >= 63 {
            proof {
                if d > 63 {
                    lemma_pow2_strictly_increases(63, d as nat);
                }
                assert(prod < pow2(63));
                assert(p2(d as int) >= pow2(63));
                vstd::arithmetic::div_mod::lemma_basic_div(prod as int, p2(d as int));
                assert(f5_trunc(bits) == 0 || f5_trunc(bits) == -((prod as int) / p2(
                    d as int,
                )));
            }
            ta = 0;
        } else {
            let pd: u64 = pow2_u64(d);
            ta = prod / pd;
        }
    }
    let t: i64 = if neg {
        -(ta as i64)
    } else {
        ta as i64
    };
    proof {
        assert(ta <= 0x7d00_0000_0000_0000);
        assert(t as int == f5_trunc(bits));
    }
    if f5_try(bits, t) {
        Some(t as i32)
    } else if t < 0x7fff_ffff_ffff_ffff && f5_try(bits, t + 1) {
        Some((t + 1) as i32)
    } else if t > -0x7fff_ffff_ffff_ffff && f5_try(bits, t - 1) {
        Some((t - 1) as i32)
    } else {
        proof {
            assert(!f5_ok(bits, t as int + 1));
            assert(!f5_ok(bits, t as int - 1));
        }
        None
    }
}

} // verus!
