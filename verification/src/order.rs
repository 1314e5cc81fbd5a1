//! The canonical total order on values.
//!
//! Kinds order as Null, then the numeric kinds together, then Bytes,
//! String, Ref, List, Map.  Numeric kinds compare by numeric value across
//! kinds, exactly: a double takes part by the real number its bit pattern
//! denotes, with the two zeros equal and every NaN below every number.
//! Text compares in code-point order (the byte order of its UTF-8), byte
//! strings and containers lexicographically; a typed container sorts
//! before an untyped one and by its type name first.  Map entries take
//! part in a canonical key-sorted arrangement, so the order of a map does
//! not depend on the order its entries were inserted or decoded in.
//! The order's laws are proved here: it reverses under argument swap
//! (`lemma_cmp_val_reverse`), it is transitive with `Equal` values
//! interchangeable (`lemma_cmp_val_trans`), and equal values rank `Equal`
//! (`lemma_veq_cmp_equal`).

use vstd::arithmetic::power2::{lemma2_to64, lemma2_to64_rest, lemma_pow2_adds, lemma_pow2_pos,
    lemma_pow2_strictly_increases, pow2};
use vstd::prelude::*;
use core::cmp::Ordering;

use crate::fbits::{p2, pow2_u64};
use crate::model::ValView;
use crate::value::{pair_views_of, value_view, views_of, List, MapValue, Value};

verus! {

broadcast use {vstd::std_specs::vec::group_vec_axioms, vstd::seq::group_seq_axioms};

/// The order of two integers.
pub open spec fn ord_of(a: int, b: int) -> Ordering {
    if a < b {
        Ordering::Less
    } else if a == b {
        Ordering::Equal
    } else {
        Ordering::Greater
    }
}

/// The reverse of an order.
pub open spec fn rev_ord(o: Ordering) -> Ordering {
    match o {
        Ordering::Less => Ordering::Greater,
        Ordering::Equal => Ordering::Equal,
        Ordering::Greater => Ordering::Less,
    }
}

/// Whether a bit pattern denotes a NaN.
pub open spec fn dbl_is_nan(bits: u64) -> bool {
    let mag = (bits as int) % p2(63);
    mag / p2(52) == 0x7ff && mag % p2(52) != 0
}

/// Whether a bit pattern denotes an infinity.
pub open spec fn dbl_is_inf(bits: u64) -> bool {
    let mag = (bits as int) % p2(63);
    mag / p2(52) == 0x7ff && mag % p2(52) == 0
}

/// The significand of a finite pattern, without its sign.
pub open spec fn dbl_sig(bits: u64) -> int {
    let mag = (bits as int) % p2(63);
    let ef = mag / p2(52);
    let m = mag % p2(52);
    if ef == 0 {
        m
    } else {
        p2(52) + m
    }
}

/// The binary exponent that scales the significand.
pub open spec fn dbl_exp(bits: u64) -> int {
    let mag = (bits as int) % p2(63);
    let ef = mag / p2(52);
    (if ef == 0 {
        1int
    } else {
        ef
    }) - 1075
}

/// The signed significand: the finite value is this times `2^dbl_exp`.
pub open spec fn dbl_sv(bits: u64) -> int {
    if bits >= 0x8000_0000_0000_0000 {
        -dbl_sig(bits)
    } else {
        dbl_sig(bits)
    }
}

/// An integer against a double bit pattern, by exact value; a NaN is below
/// every integer.
pub open spec fn cmp_int_dbl(n: int, bits: u64) -> Ordering {
    if dbl_is_nan(bits) {
        Ordering::Greater
    } else if dbl_is_inf(bits) {
        if bits >= 0x8000_0000_0000_0000 {
            Ordering::Greater
        } else {
            Ordering::Less
        }
    } else {
        let e = dbl_exp(bits);
        if e >= 0 {
            ord_of(n, dbl_sv(bits) * p2(e))
        } else {
            ord_of(n * p2(-e), dbl_sv(bits))
        }
    }
}

/// Two double bit patterns, by exact value; NaNs are below every number
/// and equal to each other, and the two zeros are equal.
pub open spec fn cmp_dbl_dbl(a: u64, b: u64) -> Ordering {
    if dbl_is_nan(a) && dbl_is_nan(b) {
        Ordering::Equal
    } else if dbl_is_nan(a) {
        Ordering::Less
    } else if dbl_is_nan(b) {
        Ordering::Greater
    } else {
        ord_of(dbl_key(a), dbl_key(b))
    }
}

/// A signed-magnitude key whose integer order is the numeric order of the
/// non-NaN patterns.
pub open spec fn dbl_key(bits: u64) -> int {
    let mag = (bits as int) % p2(63);
    if bits >= 0x8000_0000_0000_0000 {
        -mag
    } else {
        mag
    }
}

/// Byte strings, lexicographically.
pub open spec fn cmp_bytes(a: Seq<u8>, b: Seq<u8>) -> Ordering
    decreases a.len(),
{
    if a.len() == 0 && b.len() == 0 {
        Ordering::Equal
    } else if a.len() == 0 {
        Ordering::Less
    } else if b.len() == 0 {
        Ordering::Greater
    } else if a.first() < b.first() {
        Ordering::Less
    } else if a.first() > b.first() {
        Ordering::Greater
    } else {
        cmp_bytes(a.drop_first(), b.drop_first())
    }
}

/// Text, in code-point order: the byte order of the UTF-8 encodings.
pub open spec fn cmp_text(a: Seq<char>, b: Seq<char>) -> Ordering {
    cmp_bytes(vstd::utf8::encode_utf8(a), vstd::utf8::encode_utf8(b))
}


/// The rank of a kind in the fixed structural key order.
pub open spec fn key_rank(v: ValView) -> int {
    match v {
        ValView::Null => 0,
        ValView::Bool(_) => 1,
        ValView::Int(_) => 2,
        ValView::Long(_) => 3,
        ValView::Double(_) => 4,
        ValView::Date(_) => 5,
        ValView::Bytes(_) => 6,
        ValView::Str(_) => 7,
        ValView::Ref(_) => 8,
        ValView::List(_, _) => 9,
        ValView::Dict(_, _) => 10,
    }
}

/// A fixed structural order on values, used only to put the entries of a
/// map into one canonical arrangement before walking them: every kind is
/// its own rank, fields compare lexicographically, a double by its raw
/// bit pattern.
pub open spec fn cmp_key(a: ValView, b: ValView) -> Ordering
    decreases a, 0int,
{
    if key_rank(a) != key_rank(b) {
        ord_of(key_rank(a), key_rank(b))
    } else {
        match (a, b) {
            (ValView::Bool(x), ValView::Bool(y)) => ord_of(
                if x {
                    1int
                } else {
                    0int
                },
                if y {
                    1int
                } else {
                    0int
                },
            ),
            (ValView::Int(x), ValView::Int(y)) => ord_of(x, y),
            (ValView::Long(x), ValView::Long(y)) => ord_of(x, y),
            (ValView::Double(x), ValView::Double(y)) => ord_of(x as int, y as int),
            (ValView::Date(x), ValView::Date(y)) => ord_of(x, y),
            (ValView::Bytes(x), ValView::Bytes(y)) => cmp_bytes(x, y),
            (ValView::Str(x), ValView::Str(y)) => cmp_text(x, y),
            (ValView::Ref(x), ValView::Ref(y)) => ord_of(x, y),
            (ValView::List(ta, xs), ValView::List(tb, ys)) => match (ta, tb) {
                (Some(x), Some(y)) => {
                    let t = cmp_text(x, y);
                    if t != Ordering::Equal {
                        t
                    } else {
                        cmp_key_vals(xs, ys)
                    }
                },
                (Some(_), None) => Ordering::Less,
                (None, Some(_)) => Ordering::Greater,
                (None, None) => cmp_key_vals(xs, ys),
            },
            (ValView::Dict(ta, xs), ValView::Dict(tb, ys)) => match (ta, tb) {
                (Some(x), Some(y)) => {
                    let t = cmp_text(x, y);
                    if t != Ordering::Equal {
                        t
                    } else {
                        cmp_key_pairs(xs, ys)
                    }
                },
                (Some(_), None) => Ordering::Less,
                (None, Some(_)) => Ordering::Greater,
                (None, None) => cmp_key_pairs(xs, ys),
            },
            _ => Ordering::Equal,
        }
    }
}

/// Two value sequences under the structural key order.
pub open spec fn cmp_key_vals(a: Seq<ValView>, b: Seq<ValView>) -> Ordering
    decreases a, 1int,
{
    if a.len() == 0 && b.len() == 0 {
        Ordering::Equal
    } else if a.len() == 0 {
        Ordering::Less
    } else if b.len() == 0 {
        Ordering::Greater
    } else {
        let h = cmp_key(a.first(), b.first());
        if h != Ordering::Equal {
            h
        } else {
            cmp_key_vals(a.drop_first(), b.drop_first())
        }
    }
}

/// Two pair sequences under the structural key order.
pub open spec fn cmp_key_pairs(a: Seq<(ValView, ValView)>, b: Seq<(ValView, ValView)>) -> Ordering
    decreases a, 1int,
{
    if a.len() == 0 && b.len() == 0 {
        Ordering::Equal
    } else if a.len() == 0 {
        Ordering::Less
    } else if b.len() == 0 {
        Ordering::Greater
    } else {
        let hk = cmp_key(a.first().0, b.first().0);
        if hk != Ordering::Equal {
            hk
        } else {
            let hv = cmp_key(a.first().1, b.first().1);
            if hv != Ordering::Equal {
                hv
            } else {
                cmp_key_pairs(a.drop_first(), b.drop_first())
            }
        }
    }
}

/// Where an entry index sorts into a run of indices already ordered by
/// key: before the first entry with a strictly greater key.
pub open spec fn insert_idx(ps: Seq<(ValView, ValView)>, s: Seq<int>, x: int) -> Seq<int>
    decreases s.len(),
{
    if s.len() == 0 {
        seq![x]
    } else if cmp_key(ps[x].0, ps[s.first()].0) == Ordering::Less {
        seq![x] + s
    } else {
        seq![s.first()] + insert_idx(ps, s.drop_first(), x)
    }
}

/// The first `k` entry indices of a pair sequence, ordered by key.
pub open spec fn sort_idx(ps: Seq<(ValView, ValView)>, k: nat) -> Seq<int>
    decreases k,
{
    if k == 0 {
        Seq::empty()
    } else {
        insert_idx(ps, sort_idx(ps, (k - 1) as nat), k - 1)
    }
}


/// The index views of an index vector.
pub open spec fn idxs_of(v: Seq<usize>) -> Seq<int> {
    Seq::new(v.len(), |i: int| v[i] as int)
}

/// Insertion at the characterized position is one sequence insertion.
pub proof fn lemma_insert_idx_split(
    ps: Seq<(ValView, ValView)>,
    s: Seq<int>,
    x: int,
    m: int,
)
    requires
        0 <= m <= s.len(),
        forall|q: int| 0 <= q < m ==> cmp_key(ps[x].0, ps[#[trigger] s[q]].0) != Ordering::Less,
        m == s.len() || cmp_key(ps[x].0, ps[s[m]].0) == Ordering::Less,
    ensures
        insert_idx(ps, s, x) == s.insert(m, x),
    decreases m,
{
    if s.len() == 0 {
        assert(insert_idx(ps, s, x) =~= s.insert(0, x));
    } else if m == 0 {
        assert(cmp_key(ps[x].0, ps[s[0]].0) == Ordering::Less);
        assert(seq![x] + s =~= s.insert(0, x));
    } else {
        assert(cmp_key(ps[x].0, ps[s[0]].0) != Ordering::Less);
        let d = s.drop_first();
        assert forall|q: int| 0 <= q < m - 1 implies cmp_key(
            ps[x].0,
            ps[#[trigger] d[q]].0,
        ) != Ordering::Less by {
            assert(d[q] == s[q + 1]);
        }
        if m - 1 < d.len() {
            assert(d[m - 1] == s[m]);
        }
        lemma_insert_idx_split(ps, d, x, m - 1);
        assert(seq![s.first()] + d.insert(m - 1, x) =~= s.insert(m, x));
    }
}

/// A sorted index run holds exactly the first `k` indices, all in range.
pub proof fn lemma_sort_idx_range(ps: Seq<(ValView, ValView)>, k: nat)
    ensures
        sort_idx(ps, k).len() == k,
        forall|i: int| 0 <= i < k ==> 0 <= #[trigger] sort_idx(ps, k)[i] < k,
    decreases k,
{
    if k > 0 {
        lemma_sort_idx_range(ps, (k - 1) as nat);
        lemma_insert_idx_bounds(ps, sort_idx(ps, (k - 1) as nat), k - 1, k as int);
    }
}

/// Insertion keeps indices within a bound that also covers the new one.
pub proof fn lemma_insert_idx_bounds(
    ps: Seq<(ValView, ValView)>,
    s: Seq<int>,
    x: int,
    bound: int,
)
    requires
        forall|q: int| 0 <= q < s.len() ==> 0 <= #[trigger] s[q] < bound,
        0 <= x < bound,
    ensures
        insert_idx(ps, s, x).len() == s.len() + 1,
        forall|i: int|
            0 <= i < s.len() + 1 ==> 0 <= #[trigger] insert_idx(ps, s, x)[i] < bound,
    decreases s.len(),
{
    if s.len() > 0 && cmp_key(ps[x].0, ps[s.first()].0) != Ordering::Less {
        let d = s.drop_first();
        assert forall|q: int| 0 <= q < d.len() implies 0 <= #[trigger] d[q] < bound by {
            assert(d[q] == s[q + 1]);
        }
        lemma_insert_idx_bounds(ps, d, x, bound);
        let r = seq![s.first()] + insert_idx(ps, d, x);
        assert forall|i: int| 0 <= i < s.len() + 1 implies 0 <= #[trigger] r[i] < bound by {
            if i > 0 {
                assert(r[i] == insert_idx(ps, d, x)[i - 1]);
            }
        }
    }
}

/// The rank of a kind in the canonical kind order.
pub open spec fn kind_rank(v: ValView) -> int {
    match v {
        ValView::Null => 0,
        ValView::Bool(_) => 1,
        ValView::Int(_) => 1,
        ValView::Long(_) => 1,
        ValView::Double(_) => 1,
        ValView::Date(_) => 1,
        ValView::Bytes(_) => 2,
        ValView::Str(_) => 3,
        ValView::Ref(_) => 4,
        ValView::List(_, _) => 5,
        ValView::Dict(_, _) => 6,
    }
}

/// The numeric value of a non-double numeric kind.
pub open spec fn num_val(v: ValView) -> int {
    match v {
        ValView::Bool(b) => if b {
            1int
        } else {
            0int
        },
        ValView::Int(n) => n,
        ValView::Long(n) => n,
        ValView::Date(n) => n,
        _ => 0,
    }
}

/// Two values in the canonical total order.
pub open spec fn cmp_val(a: ValView, b: ValView) -> Ordering
    decreases a, 0int, 0int,
{
    if kind_rank(a) != kind_rank(b) {
        ord_of(kind_rank(a), kind_rank(b))
    } else {
        match (a, b) {
            (ValView::Double(x), ValView::Double(y)) => cmp_dbl_dbl(x, y),
            (ValView::Double(x), _) => rev_ord(cmp_int_dbl(num_val(b), x)),
            (_, ValView::Double(y)) => cmp_int_dbl(num_val(a), y),
            (ValView::Bytes(x), ValView::Bytes(y)) => cmp_bytes(x, y),
            (ValView::Str(x), ValView::Str(y)) => cmp_text(x, y),
            (ValView::Ref(x), ValView::Ref(y)) => ord_of(x, y),
            (ValView::List(ta, xs), ValView::List(tb, ys)) => match (ta, tb) {
                (Some(x), Some(y)) => {
                    let t = cmp_text(x, y);
                    if t != Ordering::Equal {
                        t
                    } else {
                        cmp_vals(xs, ys)
                    }
                },
                (Some(_), None) => Ordering::Less,
                (None, Some(_)) => Ordering::Greater,
                (None, None) => cmp_vals(xs, ys),
            },
            (ValView::Dict(ta, xs), ValView::Dict(tb, ys)) => match (ta, tb) {
                (Some(x), Some(y)) => {
                    let t = cmp_text(x, y);
                    if t != Ordering::Equal {
                        t
                    } else {
                        cmp_pairs_idx(xs, ys, sort_idx(xs, xs.len()), sort_idx(ys, ys.len()))
                    }
                },
                (Some(_), None) => Ordering::Less,
                (None, Some(_)) => Ordering::Greater,
                (None, None) => cmp_pairs_idx(
                    xs,
                    ys,
                    sort_idx(xs, xs.len()),
                    sort_idx(ys, ys.len()),
                ),
            },
            _ => ord_of(num_val(a), num_val(b)),
        }
    }
}

/// Two value sequences, lexicographically.
pub open spec fn cmp_vals(a: Seq<ValView>, b: Seq<ValView>) -> Ordering
    decreases a, 1int, 0int,
{
    if a.len() == 0 && b.len() == 0 {
        Ordering::Equal
    } else if a.len() == 0 {
        Ordering::Less
    } else if b.len() == 0 {
        Ordering::Greater
    } else {
        let h = cmp_val(a.first(), b.first());
        if h != Ordering::Equal {
            h
        } else {
            cmp_vals(a.drop_first(), b.drop_first())
        }
    }
}

/// The entries of two maps in their canonical key-sorted arrangements,
/// lexicographically, each entry by key then value.
pub open spec fn cmp_pairs_idx(
    xs: Seq<(ValView, ValView)>,
    ys: Seq<(ValView, ValView)>,
    si: Seq<int>,
    sj: Seq<int>,
) -> Ordering
    decreases xs, 1int, si.len(),
{
    if si.len() == 0 && sj.len() == 0 {
        Ordering::Equal
    } else if si.len() == 0 {
        Ordering::Less
    } else if sj.len() == 0 {
        Ordering::Greater
    } else if 0 <= si.first() < xs.len() && 0 <= sj.first() < ys.len() {
        let hk = cmp_val(xs[si.first()].0, ys[sj.first()].0);
        if hk != Ordering::Equal {
            hk
        } else {
            let hv = cmp_val(xs[si.first()].1, ys[sj.first()].1);
            if hv != Ordering::Equal {
                hv
            } else {
                cmp_pairs_idx(xs, ys, si.drop_first(), sj.drop_first())
            }
        }
    } else {
        Ordering::Equal
    }
}

/// Compare two byte slices lexicographically.
fn bytes_cmp(a: &[u8], b: &[u8]) -> (r: Ordering)
    ensures
        r == cmp_bytes(a@, b@),
{
    let mut i: usize = 0;
    proof {
        assert(a@.skip(0) =~= a@);
        assert(b@.skip(0) =~= b@);
    }
    loop
        invariant
            i <= a@.len(),
            i <= b@.len(),
            cmp_bytes(a@, b@) == cmp_bytes(a@.skip(i as int), b@.skip(i as int)),
        decreases a@.len() - i,
    {
        let ghost sa = a@.skip(i as int);
        let ghost sb = b@.skip(i as int);
        if i == a.len() && i == b.len() {
            return Ordering::Equal;
        }
        if i == a.len() {
            return Ordering::Less;
        }
        if i == b.len() {
            return Ordering::Greater;
        }
        if a[i] < b[i] {
            proof {
                assert(sa.first() == a@[i as int]);
                assert(sb.first() == b@[i as int]);
            }
            return Ordering::Less;
        }
        if a[i] > b[i] {
            proof {
                assert(sa.first() == a@[i as int]);
                assert(sb.first() == b@[i as int]);
            }
            return Ordering::Greater;
        }
        proof {
            assert(sa.first() == a@[i as int]);
            assert(sb.first() == b@[i as int]);
            assert(sa.drop_first() =~= a@.skip(i + 1 as int));
            assert(sb.drop_first() =~= b@.skip(i + 1 as int));
        }
        i = i + 1;
    }
}

/// Compare two string slices in code-point order.
fn text_cmp(a: &str, b: &str) -> (r: Ordering)
    ensures
        r == cmp_text(a@, b@),
{
    bytes_cmp(a.as_bytes(), b.as_bytes())
}

/// Compare an integer with a double bit pattern, by exact value.
#[verifier::rlimit(100)]
fn int_dbl_cmp(n: i64, bits: u64) -> (r: Ordering)
    ensures
        r == cmp_int_dbl(n as int, bits),
{
    proof {
        lemma2_to64();
        lemma2_to64_rest();
    }
    let neg: bool = bits >= 0x8000_0000_0000_0000;
    let mag: u64 = bits % 0x8000_0000_0000_0000;
    let ef: u64 = mag / 0x10_0000_0000_0000;
    let m: u64 = mag % 0x10_0000_0000_0000;
    if ef == 0x7ff {
        if m != 0 {
            return Ordering::Greater;
        }
        if neg {
            return Ordering::Greater;
        }
        return Ordering::Less;
    }
    let s: u64 = if ef == 0 {
        m
    } else {
        0x10_0000_0000_0000 + m
    };
    let e: i64 = (if ef == 0 {
        1
    } else {
        ef as i64
    }) - 1075;
    proof {
        assert(s == dbl_sig(bits));
        assert(e as int == dbl_exp(bits));
        if e >= 0 {
            lemma_pow2_pos(e as nat);
        } else {
            lemma_pow2_pos((-(e as int)) as nat);
        }
    }
    if s == 0 {
        // an exact zero, whatever the sign bit
        proof {
            if e >= 0 {
                assert(0int * p2(e as int) == 0) by (nonlinear_arith);
            } else {
                assert((n as int) * p2(-(e as int)) > 0 <==> n > 0) by (nonlinear_arith)
                    requires
                        p2(-(e as int)) > 0,
                ;
                assert((n as int) * p2(-(e as int)) < 0 <==> n < 0) by (nonlinear_arith)
                    requires
                        p2(-(e as int)) > 0,
                ;
            }
        }
        if n == 0 {
            return Ordering::Equal;
        }
        if n > 0 {
            return Ordering::Greater;
        }
        return Ordering::Less;
    }
    // the value is nonzero; settle differing signs first
    if n == 0 || (n > 0) != !neg {
        proof {
            let sv = dbl_sv(bits);
            if e >= 0 {
                assert(sv * p2(e as int) > 0 <==> sv > 0) by (nonlinear_arith)
                    requires
                        p2(e as int) > 0,
                ;
                assert(sv * p2(e as int) < 0 <==> sv < 0) by (nonlinear_arith)
                    requires
                        p2(e as int) > 0,
                ;
            } else {
                assert((n as int) * p2(-(e as int)) > 0 <==> n > 0) by (nonlinear_arith)
                    requires
                        p2(-(e as int)) > 0,
                ;
                assert((n as int) * p2(-(e as int)) < 0 <==> n < 0) by (nonlinear_arith)
                    requires
                        p2(-(e as int)) > 0,
                ;
                assert((n as int) * p2(-(e as int)) == 0 <==> n == 0) by (nonlinear_arith)
                    requires
                        p2(-(e as int)) > 0,
                ;
            }
        }
        if neg {
            return Ordering::Greater;
        }
        return Ordering::Less;
    }
    // same nonzero sign: compare magnitudes
    let an: u64 = if n >= 0 {
        n as u64
    } else {
        (-(n as i128)) as u64
    };
    let mag_ord: Ordering;
    if e >= 0 {
        if e >= 64 {
            proof {
                if e > 64 {
                    lemma_pow2_strictly_increases(64, e as nat);
                }
                assert((s as int) * p2(e as int) > an) by (nonlinear_arith)
                    requires
                        s >= 1,
                        p2(e as int) >= pow2(64),
                        pow2(64) > an,
                ;
            }
            mag_ord = Ordering::Less;
        } else {
            let pe: u128 = pow2_u64(e as u64) as u128;
            proof {
                lemma_pow2_adds(64, 64);
                assert((s as int) * (pe as int) < pow2(64) * pow2(64)) by (nonlinear_arith)
                    requires
                        0 <= (s as int) < pow2(64),
                        0 <= (pe as int) < pow2(64),
                ;
            }
            let av: u128 = (s as u128) * pe;
            proof {
                assert((s as int) * (pe as int) == (s as int) * p2(e as int));
            }
            mag_ord = if (an as u128) < av {
                Ordering::Less
            } else if (an as u128) == av {
                Ordering::Equal
            } else {
                Ordering::Greater
            };
        }
    } else {
        let d: u64 = (-e) as u64;
        if d >= 64 {
            proof {
                if d > 64 {
                    lemma_pow2_strictly_increases(64, d as nat);
                }
                assert((an as int) * p2(d as int) > s) by (nonlinear_arith)
                    requires
                        an >= 1,
                        p2(d as int) >= pow2(64),
                        pow2(64) > s,
                ;
            }
            mag_ord = Ordering::Greater;
        } else {
            let pd: u128 = pow2_u64(d) as u128;
            proof {
                lemma_pow2_adds(64, 64);
                assert((an as int) * (pd as int) < pow2(64) * pow2(64)) by (nonlinear_arith)
                    requires
                        0 <= (an as int) < pow2(64),
                        0 <= (pd as int) < pow2(64),
                ;
            }
            let sn: u128 = (an as u128) * pd;
            proof {
                assert((an as int) * (pd as int) == (an as int) * p2(d as int));
            }
            mag_ord = if sn < (s as u128) {
                Ordering::Less
            } else if sn == (s as u128) {
                Ordering::Equal
            } else {
                Ordering::Greater
            };
        }
    }
    proof {
        let sv = dbl_sv(bits);
        let nn = n as int;
        if e >= 0 {
            let av = (s as int) * p2(e as int);
            if neg {
                assert(sv * p2(e as int) == -av) by (nonlinear_arith)
                    requires
                        sv == -(s as int),
                        av == (s as int) * p2(e as int),
                ;
                assert(nn == -(an as int));
            } else {
                assert(sv * p2(e as int) == av);
                assert(nn == an as int);
            }
        } else {
            let d = -(e as int);
            if neg {
                assert(nn * p2(d) == -((an as int) * p2(d))) by (nonlinear_arith)
                    requires
                        nn == -(an as int),
                ;
            } else {
                assert(nn == an as int);
            }
        }
    }
    if neg {
        match mag_ord {
            Ordering::Less => Ordering::Greater,
            Ordering::Equal => Ordering::Equal,
            Ordering::Greater => Ordering::Less,
        }
    } else {
        mag_ord
    }
}

/// Compare two double bit patterns, by exact value.
fn dbl_dbl_cmp(a: u64, b: u64) -> (r: Ordering)
    ensures
        r == cmp_dbl_dbl(a, b),
{
    proof {
        lemma2_to64();
        lemma2_to64_rest();
    }
    let mag_a: u64 = a % 0x8000_0000_0000_0000;
    let mag_b: u64 = b % 0x8000_0000_0000_0000;
    let nan_a: bool = mag_a / 0x10_0000_0000_0000 == 0x7ff && mag_a % 0x10_0000_0000_0000 != 0;
    let nan_b: bool = mag_b / 0x10_0000_0000_0000 == 0x7ff && mag_b % 0x10_0000_0000_0000 != 0;
    if nan_a && nan_b {
        return Ordering::Equal;
    }
    if nan_a {
        return Ordering::Less;
    }
    if nan_b {
        return Ordering::Greater;
    }
    let neg_a: bool = a >= 0x8000_0000_0000_0000;
    let neg_b: bool = b >= 0x8000_0000_0000_0000;
    if neg_a && neg_b {
        if mag_a < mag_b {
            Ordering::Greater
        } else if mag_a == mag_b {
            Ordering::Equal
        } else {
            Ordering::Less
        }
    } else if !neg_a && !neg_b {
        if mag_a < mag_b {
            Ordering::Less
        } else if mag_a == mag_b {
            Ordering::Equal
        } else {
            Ordering::Greater
        }
    } else if neg_a {
        if mag_a == 0 && mag_b == 0 {
            Ordering::Equal
        } else {
            Ordering::Less
        }
    } else {
        if mag_a == 0 && mag_b == 0 {
            Ordering::Equal
        } else {
            Ordering::Greater
        }
    }
}

impl Value {
    /// Compare two values in the canonical total order.
    pub fn compare(&self, other: &Value) -> (r: Ordering)
        ensures
            r == cmp_val(self@, other@),
        decreases self,
    {
        match (self, other) {
            (Value::Null, Value::Null) => Ordering::Equal,
            (Value::Double(x), Value::Double(y)) => dbl_dbl_cmp(*x, *y),
            (Value::Double(x), Value::Bool(bv)) => rev(int_dbl_cmp(
                if *bv {
                    1
                } else {
                    0
                },
                *x,
            )),
            (Value::Double(x), Value::Int(nv)) => rev(int_dbl_cmp(*nv as i64, *x)),
            (Value::Double(x), Value::Long(nv)) => rev(int_dbl_cmp(*nv, *x)),
            (Value::Double(x), Value::Date(nv)) => rev(int_dbl_cmp(*nv, *x)),
            (Value::Bool(bv), Value::Double(y)) => int_dbl_cmp(
                if *bv {
                    1
                } else {
                    0
                },
                *y,
            ),
            (Value::Int(nv), Value::Double(y)) => int_dbl_cmp(*nv as i64, *y),
            (Value::Long(nv), Value::Double(y)) => int_dbl_cmp(*nv, *y),
            (Value::Date(nv), Value::Double(y)) => int_dbl_cmp(*nv, *y),
            (Value::Bytes(x), Value::Bytes(y)) => bytes_cmp(x.as_slice(), y.as_slice()),
            (Value::String(x), Value::String(y)) => text_cmp(x.as_str(), y.as_str()),
            (Value::Ref(x), Value::Ref(y)) => ord_exec(*x as i64, *y as i64),
            (Value::List(la), Value::List(lb)) => {
                let ta = la.typ();
                let tb = lb.typ();
                match (ta, tb) {
                    (Some(x), Some(y)) => {
                        let t = text_cmp(x.as_str(), y.as_str());
                        if !matches!(t, Ordering::Equal) {
                            t
                        } else {
                            vals_cmp(la.value(), lb.value())
                        }
                    },
                    (Some(_), None) => Ordering::Less,
                    (None, Some(_)) => Ordering::Greater,
                    (None, None) => vals_cmp(la.value(), lb.value()),
                }
            },
            (Value::Dict(ma), Value::Dict(mb)) => {
                let ta = ma.typ();
                let tb = mb.typ();
                match (ta, tb) {
                    (Some(x), Some(y)) => {
                        let t = text_cmp(x.as_str(), y.as_str());
                        if !matches!(t, Ordering::Equal) {
                            t
                        } else {
                            pairs_cmp(ma.value(), mb.value())
                        }
                    },
                    (Some(_), None) => Ordering::Less,
                    (None, Some(_)) => Ordering::Greater,
                    (None, None) => pairs_cmp(ma.value(), mb.value()),
                }
            },
            (a, b) => {
                let ra = rank_exec(a);
                let rb = rank_exec(b);
                if ra != rb {
                    ord_exec(ra, rb)
                } else {
                    ord_exec(num_exec(a), num_exec(b))
                }
            },
        }
    }
}

/// The reverse of an order.
fn rev(o: Ordering) -> (r: Ordering)
    ensures
        r == rev_ord(o),
{
    match o {
        Ordering::Less => Ordering::Greater,
        Ordering::Equal => Ordering::Equal,
        Ordering::Greater => Ordering::Less,
    }
}

/// The order of two machine integers.
fn ord_exec(a: i64, b: i64) -> (r: Ordering)
    ensures
        r == ord_of(a as int, b as int),
{
    if a < b {
        Ordering::Less
    } else if a == b {
        Ordering::Equal
    } else {
        Ordering::Greater
    }
}

/// The kind rank of a value.
fn rank_exec(v: &Value) -> (r: i64)
    ensures
        r as int == kind_rank(v@),
{
    match v {
        Value::Null => 0,
        Value::Bool(_) => 1,
        Value::Int(_) => 1,
        Value::Long(_) => 1,
        Value::Double(_) => 1,
        Value::Date(_) => 1,
        Value::Bytes(_) => 2,
        Value::String(_) => 3,
        Value::Ref(_) => 4,
        Value::List(_) => 5,
        Value::Dict(_) => 6,
    }
}

/// The numeric value of a non-double numeric kind.
fn num_exec(v: &Value) -> (r: i64)
    requires
        v is Bool || v is Int || v is Long || v is Date || v is Null,
    ensures
        r as int == num_val(v@),
{
    match v {
        Value::Bool(b) => if *b {
            1
        } else {
            0
        },
        Value::Int(n) => *n as i64,
        Value::Long(n) => *n,
        Value::Date(n) => *n,
        _ => 0,
    }
}

/// Compare two element vectors lexicographically.
fn vals_cmp(a: &Vec<Value>, b: &Vec<Value>) -> (r: Ordering)
    ensures
        r == cmp_vals(views_of(a@), views_of(b@)),
    decreases a,
{
    let mut i: usize = 0;
    proof {
        assert(views_of(a@).skip(0) =~= views_of(a@));
        assert(views_of(b@).skip(0) =~= views_of(b@));
    }
    loop
        invariant
            i <= a@.len(),
            i <= b@.len(),
            cmp_vals(views_of(a@), views_of(b@)) == cmp_vals(
                views_of(a@).skip(i as int),
                views_of(b@).skip(i as int),
            ),
        decreases a@.len() - i,
    {
        let ghost sa = views_of(a@).skip(i as int);
        let ghost sb = views_of(b@).skip(i as int);
        if i == a.len() && i == b.len() {
            return Ordering::Equal;
        }
        if i == a.len() {
            return Ordering::Less;
        }
        if i == b.len() {
            return Ordering::Greater;
        }
        let h = a[i].compare(&b[i]);
        proof {
            assert(sa.first() == views_of(a@)[i as int]);
            assert(sb.first() == views_of(b@)[i as int]);
            assert(sa.first() == value_view(a@[i as int]));
            assert(sb.first() == value_view(b@[i as int]));
        }
        if !matches!(h, Ordering::Equal) {
            return h;
        }
        proof {
            assert(sa.drop_first() =~= views_of(a@).skip(i + 1 as int));
            assert(sb.drop_first() =~= views_of(b@).skip(i + 1 as int));
        }
        i = i + 1;
    }
}

/// Value equality: both values are the same kind with equal content, a
/// double by its exact bit pattern — except that the entries of a map
/// take part in their canonical key-sorted arrangements, so equality of
/// maps does not depend on the order their entries were inserted or
/// decoded in.
pub open spec fn veq(a: ValView, b: ValView) -> bool
    decreases a, 0int, 0int,
{
    match (a, b) {
        (ValView::Null, ValView::Null) => true,
        (ValView::Bool(x), ValView::Bool(y)) => x == y,
        (ValView::Int(x), ValView::Int(y)) => x == y,
        (ValView::Long(x), ValView::Long(y)) => x == y,
        (ValView::Double(x), ValView::Double(y)) => x == y,
        (ValView::Date(x), ValView::Date(y)) => x == y,
        (ValView::Bytes(x), ValView::Bytes(y)) => x == y,
        (ValView::Str(x), ValView::Str(y)) => x == y,
        (ValView::Ref(x), ValView::Ref(y)) => x == y,
        (ValView::List(ta, xs), ValView::List(tb, ys)) => ta == tb && veq_vals(xs, ys),
        (ValView::Dict(ta, xs), ValView::Dict(tb, ys)) => ta == tb && veq_pairs_idx(
            xs,
            ys,
            sort_idx(xs, xs.len()),
            sort_idx(ys, ys.len()),
        ),
        _ => false,
    }
}

/// Two value sequences hold equal values, in order.
pub open spec fn veq_vals(a: Seq<ValView>, b: Seq<ValView>) -> bool
    decreases a, 1int, 0int,
{
    if a.len() != b.len() {
        false
    } else if a.len() == 0 {
        true
    } else {
        veq(a.first(), b.first()) && veq_vals(a.drop_first(), b.drop_first())
    }
}

/// The entries of two maps, walked in their key-sorted arrangements, are
/// pairwise equal.
pub open spec fn veq_pairs_idx(
    xs: Seq<(ValView, ValView)>,
    ys: Seq<(ValView, ValView)>,
    si: Seq<int>,
    sj: Seq<int>,
) -> bool
    decreases xs, 1int, si.len(),
{
    if si.len() != sj.len() {
        false
    } else if si.len() == 0 {
        true
    } else if 0 <= si.first() < xs.len() && 0 <= sj.first() < ys.len() {
        veq(xs[si.first()].0, ys[sj.first()].0) && veq(xs[si.first()].1, ys[sj.first()].1)
            && veq_pairs_idx(xs, ys, si.drop_first(), sj.drop_first())
    } else {
        false
    }
}

/// Compare two values under the structural key order.
fn key_cmp(a: &Value, b: &Value) -> (r: Ordering)
    ensures
        r == cmp_key(a@, b@),
    decreases a, 0int,
{
    match (a, b) {
        (Value::Bool(x), Value::Bool(y)) => {
            let xi: i64 = if *x {
                1
            } else {
                0
            };
            let yi: i64 = if *y {
                1
            } else {
                0
            };
            ord_exec(xi, yi)
        },
        (Value::Int(x), Value::Int(y)) => ord_exec(*x as i64, *y as i64),
        (Value::Long(x), Value::Long(y)) => ord_exec(*x, *y),
        (Value::Double(x), Value::Double(y)) => {
            if *x < *y {
                Ordering::Less
            } else if *x == *y {
                Ordering::Equal
            } else {
                Ordering::Greater
            }
        },
        (Value::Date(x), Value::Date(y)) => ord_exec(*x, *y),
        (Value::Bytes(x), Value::Bytes(y)) => bytes_cmp(x.as_slice(), y.as_slice()),
        (Value::String(x), Value::String(y)) => text_cmp(x.as_str(), y.as_str()),
        (Value::Ref(x), Value::Ref(y)) => ord_exec(*x as i64, *y as i64),
        (Value::List(la), Value::List(lb)) => {
            let ta = la.typ();
            let tb = lb.typ();
            match (ta, tb) {
                (Some(x), Some(y)) => {
                    let t = text_cmp(x.as_str(), y.as_str());
                    if !matches!(t, Ordering::Equal) {
                        t
                    } else {
                        key_vals_cmp(la.value(), lb.value())
                    }
                },
                (Some(_), None) => Ordering::Less,
                (None, Some(_)) => Ordering::Greater,
                (None, None) => key_vals_cmp(la.value(), lb.value()),
            }
        },
        (Value::Dict(ma), Value::Dict(mb)) => {
            let ta = ma.typ();
            let tb = mb.typ();
            match (ta, tb) {
                (Some(x), Some(y)) => {
                    let t = text_cmp(x.as_str(), y.as_str());
                    if !matches!(t, Ordering::Equal) {
                        t
                    } else {
                        key_pairs_cmp(ma.value(), mb.value())
                    }
                },
                (Some(_), None) => Ordering::Less,
                (None, Some(_)) => Ordering::Greater,
                (None, None) => key_pairs_cmp(ma.value(), mb.value()),
            }
        },
        (x, y) => {
            let ra = key_rank_exec(x);
            let rb = key_rank_exec(y);
            ord_exec(ra, rb)
        },
    }
}

/// The structural key rank of a value.
fn key_rank_exec(v: &Value) -> (r: i64)
    ensures
        r as int == key_rank(v@),
{
    match v {
        Value::Null => 0,
        Value::Bool(_) => 1,
        Value::Int(_) => 2,
        Value::Long(_) => 3,
        Value::Double(_) => 4,
        Value::Date(_) => 5,
        Value::Bytes(_) => 6,
        Value::String(_) => 7,
        Value::Ref(_) => 8,
        Value::List(_) => 9,
        Value::Dict(_) => 10,
    }
}

/// Compare two element vectors under the structural key order.
fn key_vals_cmp(a: &Vec<Value>, b: &Vec<Value>) -> (r: Ordering)
    ensures
        r == cmp_key_vals(views_of(a@), views_of(b@)),
    decreases a, 1int,
{
    let mut i: usize = 0;
    proof {
        assert(views_of(a@).skip(0) =~= views_of(a@));
        assert(views_of(b@).skip(0) =~= views_of(b@));
    }
    loop
        invariant
            i <= a@.len(),
            i <= b@.len(),
            cmp_key_vals(views_of(a@), views_of(b@)) == cmp_key_vals(
                views_of(a@).skip(i as int),
                views_of(b@).skip(i as int),
            ),
        decreases a@.len() - i,
    {
        let ghost sa = views_of(a@).skip(i as int);
        let ghost sb = views_of(b@).skip(i as int);
        if i == a.len() && i == b.len() {
            return Ordering::Equal;
        }
        if i == a.len() {
            return Ordering::Less;
        }
        if i == b.len() {
            return Ordering::Greater;
        }
        let h = key_cmp(&a[i], &b[i]);
        proof {
            assert(sa.first() == views_of(a@)[i as int]);
            assert(sb.first() == views_of(b@)[i as int]);
            assert(sa.first() == value_view(a@[i as int]));
            assert(sb.first() == value_view(b@[i as int]));
        }
        if !matches!(h, Ordering::Equal) {
            return h;
        }
        proof {
            assert(sa.drop_first() =~= views_of(a@).skip(i + 1 as int));
            assert(sb.drop_first() =~= views_of(b@).skip(i + 1 as int));
        }
        i = i + 1;
    }
}

/// Compare two pair vectors under the structural key order.
fn key_pairs_cmp(a: &Vec<(Value, Value)>, b: &Vec<(Value, Value)>) -> (r: Ordering)
    ensures
        r == cmp_key_pairs(pair_views_of(a@), pair_views_of(b@)),
    decreases a, 1int,
{
    let mut i: usize = 0;
    proof {
        assert(pair_views_of(a@).skip(0) =~= pair_views_of(a@));
        assert(pair_views_of(b@).skip(0) =~= pair_views_of(b@));
    }
    loop
        invariant
            i <= a@.len(),
            i <= b@.len(),
            cmp_key_pairs(pair_views_of(a@), pair_views_of(b@)) == cmp_key_pairs(
                pair_views_of(a@).skip(i as int),
                pair_views_of(b@).skip(i as int),
            ),
        decreases a@.len() - i,
    {
        let ghost sa = pair_views_of(a@).skip(i as int);
        let ghost sb = pair_views_of(b@).skip(i as int);
        if i == a.len() && i == b.len() {
            return Ordering::Equal;
        }
        if i == a.len() {
            return Ordering::Less;
        }
        if i == b.len() {
            return Ordering::Greater;
        }
        proof {
            assert(sa.first() == pair_views_of(a@)[i as int]);
            assert(sb.first() == pair_views_of(b@)[i as int]);
        }
        let hk = key_cmp(&a[i].0, &b[i].0);
        if !matches!(hk, Ordering::Equal) {
            return hk;
        }
        let hv = key_cmp(&a[i].1, &b[i].1);
        if !matches!(hv, Ordering::Equal) {
            return hv;
        }
        proof {
            assert(sa.drop_first() =~= pair_views_of(a@).skip(i + 1 as int));
            assert(sb.drop_first() =~= pair_views_of(b@).skip(i + 1 as int));
        }
        i = i + 1;
    }
}

/// The canonical key-sorted arrangement of a pair vector, as indices into
/// it.
fn sort_pair_idx(ps: &Vec<(Value, Value)>) -> (r: Vec<usize>)
    ensures
        idxs_of(r@) == sort_idx(pair_views_of(ps@), ps@.len()),
        r@.len() == ps@.len(),
        forall|i: int| 0 <= i < r@.len() ==> (#[trigger] r@[i]) < ps@.len(),
{
    let ghost pv = pair_views_of(ps@);
    let mut r: Vec<usize> = Vec::new();
    let mut k: usize = 0;
    proof {
        assert(idxs_of(r@) =~= sort_idx(pv, 0));
    }
    while k < ps.len()
        invariant
            k <= ps@.len(),
            pv == pair_views_of(ps@),
            idxs_of(r@) == sort_idx(pv, k as nat),
            r@.len() == k,
            forall|i: int| 0 <= i < r@.len() ==> (#[trigger] r@[i]) < k,
        decreases ps@.len() - k,
    {
        let ghost s0 = idxs_of(r@);
        let mut m: usize = 0;
        while m < r.len()
            invariant_except_break
                m <= r@.len(),
                r@.len() == k <= ps@.len(),
                pv == pair_views_of(ps@),
                s0 == idxs_of(r@),
                forall|i: int| 0 <= i < r@.len() ==> (#[trigger] r@[i]) < k,
                k < ps@.len(),
                forall|q: int|
                    0 <= q < m ==> cmp_key(pv[k as int].0, pv[#[trigger] s0[q]].0)
                        != Ordering::Less,
            ensures
                m <= r@.len(),
                r@.len() == k,
                s0 == idxs_of(r@),
                forall|q: int|
                    0 <= q < m ==> cmp_key(pv[k as int].0, pv[#[trigger] s0[q]].0)
                        != Ordering::Less,
                m == r@.len() || cmp_key(pv[k as int].0, pv[s0[m as int]].0) == Ordering::Less,
            decreases r@.len() - m,
        {
            proof {
                assert(s0[m as int] == r@[m as int] as int);
                assert(pv[r@[m as int] as int] == (
                    value_view(ps@[r@[m as int] as int].0),
                    value_view(ps@[r@[m as int] as int].1),
                ));
                assert(pv[k as int] == (
                    value_view(ps@[k as int].0),
                    value_view(ps@[k as int].1),
                ));
            }
            let c = key_cmp(&ps[k].0, &ps[r[m]].0);
            if matches!(c, Ordering::Less) {
                break ;
            }
            m = m + 1;
        }
        proof {
            lemma_insert_idx_split(pv, s0, k as int, m as int);
        }
        r.insert(m, k);
        proof {
            assert(idxs_of(r@) =~= s0.insert(m as int, k as int));
            assert(idxs_of(r@) =~= sort_idx(pv, (k + 1) as nat));
        }
        k = k + 1;
    }
    r
}

/// Compare two pair vectors as maps: their entries in the canonical
/// key-sorted arrangement, each entry by key then value.
fn pairs_cmp(a: &Vec<(Value, Value)>, b: &Vec<(Value, Value)>) -> (r: Ordering)
    ensures
        r == cmp_pairs_idx(
            pair_views_of(a@),
            pair_views_of(b@),
            sort_idx(pair_views_of(a@), a@.len()),
            sort_idx(pair_views_of(b@), b@.len()),
        ),
    decreases a, 2int,
{
    let ghost pa = pair_views_of(a@);
    let ghost pb = pair_views_of(b@);
    let ia = sort_pair_idx(a);
    let ib = sort_pair_idx(b);
    let ghost sa = sort_idx(pa, a@.len());
    let ghost sb = sort_idx(pb, b@.len());
    let mut i: usize = 0;
    proof {
        assert(sa.skip(0) =~= sa);
        assert(sb.skip(0) =~= sb);
    }
    loop
        invariant
            i <= ia@.len(),
            i <= ib@.len(),
            pa == pair_views_of(a@),
            pb == pair_views_of(b@),
            sa == sort_idx(pa, a@.len()),
            sb == sort_idx(pb, b@.len()),
            idxs_of(ia@) == sa,
            idxs_of(ib@) == sb,
            ia@.len() == a@.len(),
            ib@.len() == b@.len(),
            forall|q: int| 0 <= q < ia@.len() ==> (#[trigger] ia@[q]) < a@.len(),
            forall|q: int| 0 <= q < ib@.len() ==> (#[trigger] ib@[q]) < b@.len(),
            cmp_pairs_idx(pa, pb, sa, sb) == cmp_pairs_idx(
                pa,
                pb,
                sa.skip(i as int),
                sb.skip(i as int),
            ),
        decreases ia@.len() - i,
    {
        let ghost ra = sa.skip(i as int);
        let ghost rb = sb.skip(i as int);
        if i == ia.len() && i == ib.len() {
            return Ordering::Equal;
        }
        if i == ia.len() {
            return Ordering::Less;
        }
        if i == ib.len() {
            return Ordering::Greater;
        }
        proof {
            assert(ra.first() == sa[i as int]);
            assert(rb.first() == sb[i as int]);
            assert(sa[i as int] == ia@[i as int] as int);
            assert(sb[i as int] == ib@[i as int] as int);
            assert(pa[ia@[i as int] as int] == (
                value_view(a@[ia@[i as int] as int].0),
                value_view(a@[ia@[i as int] as int].1),
            ));
            assert(pb[ib@[i as int] as int] == (
                value_view(b@[ib@[i as int] as int].0),
                value_view(b@[ib@[i as int] as int].1),
            ));
        }
        let ja = ia[i];
        let jb = ib[i];
        let hk = a[ja].0.compare(&b[jb].0);
        if !matches!(hk, Ordering::Equal) {
            return hk;
        }
        let hv = a[ja].1.compare(&b[jb].1);
        if !matches!(hv, Ordering::Equal) {
            return hv;
        }
        proof {
            assert(ra.drop_first() =~= sa.skip(i + 1 as int));
            assert(rb.drop_first() =~= sb.skip(i + 1 as int));
        }
        i = i + 1;
    }
}

/// Whether two values are equal: same kind, same content, a double by its
/// exact bit pattern; the entries of a map compare in their canonical
/// key-sorted arrangements, so insertion order does not matter.
pub fn value_eq(a: &Value, b: &Value) -> (r: bool)
    ensures
        r == veq(a@, b@),
    decreases a, 2int,
{
    match (a, b) {
        (Value::Null, Value::Null) => true,
        (Value::Bool(x), Value::Bool(y)) => x == y,
        (Value::Int(x), Value::Int(y)) => x == y,
        (Value::Long(x), Value::Long(y)) => x == y,
        (Value::Double(x), Value::Double(y)) => x == y,
        (Value::Date(x), Value::Date(y)) => x == y,
        (Value::Ref(x), Value::Ref(y)) => x == y,
        (Value::Bytes(x), Value::Bytes(y)) => crate::value::bytes_vec_eq(x, y),
        (Value::String(x), Value::String(y)) => crate::value::str_eq(x.as_str(), y.as_str()),
        (Value::List(la), Value::List(lb)) => match (la, lb) {
            (List::Typed(tx, xs), List::Typed(ty, ys)) => {
                let te = crate::value::str_eq(tx.as_str(), ty.as_str());
                te && elems_veq(xs, ys)
            },
            (List::Untyped(xs), List::Untyped(ys)) => elems_veq(xs, ys),
            _ => false,
        },
        (Value::Dict(ma), Value::Dict(mb)) => match (ma, mb) {
            (MapValue::Typed(tx, xs), MapValue::Typed(ty, ys)) => {
                let te = crate::value::str_eq(tx.as_str(), ty.as_str());
                te && pairs_veq(xs, ys)
            },
            (MapValue::Untyped(xs), MapValue::Untyped(ys)) => pairs_veq(xs, ys),
            _ => false,
        },
        _ => false,
    }
}

/// Whether two element vectors hold equal values, in order.
fn elems_veq(a: &Vec<Value>, b: &Vec<Value>) -> (r: bool)
    ensures
        r == veq_vals(views_of(a@), views_of(b@)),
    decreases a, 1int,
{
    if a.len() != b.len() {
        return false;
    }
    let mut i: usize = 0;
    proof {
        assert(views_of(a@).skip(0) =~= views_of(a@));
        assert(views_of(b@).skip(0) =~= views_of(b@));
    }
    while i < a.len()
        invariant
            a@.len() == b@.len(),
            i <= a@.len(),
            veq_vals(views_of(a@), views_of(b@)) == veq_vals(
                views_of(a@).skip(i as int),
                views_of(b@).skip(i as int),
            ),
        decreases a@.len() - i,
    {
        let ghost sa = views_of(a@).skip(i as int);
        let ghost sb = views_of(b@).skip(i as int);
        proof {
            assert(sa.first() == views_of(a@)[i as int]);
            assert(sb.first() == views_of(b@)[i as int]);
            assert(sa.first() == value_view(a@[i as int]));
            assert(sb.first() == value_view(b@[i as int]));
        }
        if !value_eq(&a[i], &b[i]) {
            return false;
        }
        proof {
            assert(sa.drop_first() =~= views_of(a@).skip(i + 1 as int));
            assert(sb.drop_first() =~= views_of(b@).skip(i + 1 as int));
        }
        i = i + 1;
    }
    proof {
        assert(views_of(a@).skip(a@.len() as int) =~= Seq::<ValView>::empty());
        assert(views_of(b@).skip(b@.len() as int) =~= Seq::<ValView>::empty());
    }
    true
}

/// Whether two pair vectors hold one mapping: their entries, walked in the
/// canonical key-sorted arrangements, are pairwise equal.
fn pairs_veq(a: &Vec<(Value, Value)>, b: &Vec<(Value, Value)>) -> (r: bool)
    ensures
        r == veq_pairs_idx(
            pair_views_of(a@),
            pair_views_of(b@),
            sort_idx(pair_views_of(a@), a@.len()),
            sort_idx(pair_views_of(b@), b@.len()),
        ),
    decreases a, 1int,
{
    let ghost pa = pair_views_of(a@);
    let ghost pb = pair_views_of(b@);
    let ia = sort_pair_idx(a);
    let ib = sort_pair_idx(b);
    let ghost sa = sort_idx(pa, a@.len());
    let ghost sb = sort_idx(pb, b@.len());
    if ia.len() != ib.len() {
        return false;
    }
    let mut i: usize = 0;
    proof {
        assert(sa.skip(0) =~= sa);
        assert(sb.skip(0) =~= sb);
    }
    while i < ia.len()
        invariant
            i <= ia@.len(),
            ia@.len() == ib@.len(),
            pa == pair_views_of(a@),
            pb == pair_views_of(b@),
            sa == sort_idx(pa, a@.len()),
            sb == sort_idx(pb, b@.len()),
            idxs_of(ia@) == sa,
            idxs_of(ib@) == sb,
            ia@.len() == a@.len(),
            ib@.len() == b@.len(),
            forall|q: int| 0 <= q < ia@.len() ==> (#[trigger] ia@[q]) < a@.len(),
            forall|q: int| 0 <= q < ib@.len() ==> (#[trigger] ib@[q]) < b@.len(),
            veq_pairs_idx(pa, pb, sa, sb) == veq_pairs_idx(
                pa,
                pb,
                sa.skip(i as int),
                sb.skip(i as int),
            ),
        decreases ia@.len() - i,
    {
        let ghost ra = sa.skip(i as int);
        let ghost rb = sb.skip(i as int);
        proof {
            assert(ra.first() == sa[i as int]);
            assert(rb.first() == sb[i as int]);
            assert(sa[i as int] == ia@[i as int] as int);
            assert(sb[i as int] == ib@[i as int] as int);
            assert(pa[ia@[i as int] as int] == (
                value_view(a@[ia@[i as int] as int].0),
                value_view(a@[ia@[i as int] as int].1),
            ));
            assert(pb[ib@[i as int] as int] == (
                value_view(b@[ib@[i as int] as int].0),
                value_view(b@[ib@[i as int] as int].1),
            ));
        }
        let ja = ia[i];
        let jb = ib[i];
        let ke = value_eq(&a[ja].0, &b[jb].0);
        if !ke {
            return false;
        }
        let ve = value_eq(&a[ja].1, &b[jb].1);
        if !ve {
            return false;
        }
        proof {
            assert(ra.drop_first() =~= sa.skip(i + 1 as int));
            assert(rb.drop_first() =~= sb.skip(i + 1 as int));
        }
        i = i + 1;
    }
    proof {
        assert(sa.skip(sa.len() as int) =~= Seq::<int>::empty());
        assert(sb.skip(sb.len() as int) =~= Seq::<int>::empty());
    }
    true
}

/// Reversal holds of byte-string comparison.
pub proof fn lemma_cmp_bytes_reverse(a: Seq<u8>, b: Seq<u8>)
    ensures
        cmp_bytes(b, a) == rev_ord(cmp_bytes(a, b)),
    decreases a.len(),
{
    if a.len() > 0 && b.len() > 0 && a.first() == b.first() {
        lemma_cmp_bytes_reverse(a.drop_first(), b.drop_first());
    }
}

/// The canonical order reverses under argument swap: swapping the values
/// flips `Less` and `Greater` and keeps `Equal`.
pub proof fn lemma_cmp_val_reverse(a: ValView, b: ValView)
    ensures
        cmp_val(b, a) == rev_ord(cmp_val(a, b)),
    decreases a, 0int, 0int,
{
    match (a, b) {
        (ValView::Bytes(x), ValView::Bytes(y)) => {
            lemma_cmp_bytes_reverse(x, y);
        },
        (ValView::Str(x), ValView::Str(y)) => {
            lemma_cmp_bytes_reverse(
                vstd::utf8::encode_utf8(x),
                vstd::utf8::encode_utf8(y),
            );
        },
        (ValView::List(ta, xs), ValView::List(tb, ys)) => {
            match (ta, tb) {
                (Some(x), Some(y)) => {
                    lemma_cmp_bytes_reverse(
                        vstd::utf8::encode_utf8(x),
                        vstd::utf8::encode_utf8(y),
                    );
                    if cmp_text(x, y) == Ordering::Equal {
                        lemma_cmp_vals_reverse(xs, ys);
                    }
                },
                (None, None) => {
                    lemma_cmp_vals_reverse(xs, ys);
                },
                _ => {},
            }
        },
        (ValView::Dict(ta, xs), ValView::Dict(tb, ys)) => {
            match (ta, tb) {
                (Some(x), Some(y)) => {
                    lemma_cmp_bytes_reverse(
                        vstd::utf8::encode_utf8(x),
                        vstd::utf8::encode_utf8(y),
                    );
                    if cmp_text(x, y) == Ordering::Equal {
                        lemma_cmp_pairs_idx_reverse(
                            xs,
                            ys,
                            sort_idx(xs, xs.len()),
                            sort_idx(ys, ys.len()),
                        );
                    }
                },
                (None, None) => {
                    lemma_cmp_pairs_idx_reverse(
                        xs,
                        ys,
                        sort_idx(xs, xs.len()),
                        sort_idx(ys, ys.len()),
                    );
                },
                _ => {},
            }
        },
        _ => {},
    }
}

/// Reversal holds of element-sequence comparison.
pub proof fn lemma_cmp_vals_reverse(a: Seq<ValView>, b: Seq<ValView>)
    ensures
        cmp_vals(b, a) == rev_ord(cmp_vals(a, b)),
    decreases a, 1int, 0int,
{
    if a.len() > 0 && b.len() > 0 {
        lemma_cmp_val_reverse(a.first(), b.first());
        if cmp_val(a.first(), b.first()) == Ordering::Equal {
            lemma_cmp_vals_reverse(a.drop_first(), b.drop_first());
        }
    }
}

/// Reversal holds of the key-sorted entry walk.
pub proof fn lemma_cmp_pairs_idx_reverse(
    xs: Seq<(ValView, ValView)>,
    ys: Seq<(ValView, ValView)>,
    si: Seq<int>,
    sj: Seq<int>,
)
    ensures
        cmp_pairs_idx(ys, xs, sj, si) == rev_ord(cmp_pairs_idx(xs, ys, si, sj)),
    decreases xs, 1int, si.len(),
{
    if si.len() > 0 && sj.len() > 0 && 0 <= si.first() < xs.len() && 0 <= sj.first()
        < ys.len() {
        lemma_cmp_val_reverse(xs[si.first()].0, ys[sj.first()].0);
        if cmp_val(xs[si.first()].0, ys[sj.first()].0) == Ordering::Equal {
            lemma_cmp_val_reverse(xs[si.first()].1, ys[sj.first()].1);
            if cmp_val(xs[si.first()].1, ys[sj.first()].1) == Ordering::Equal {
                lemma_cmp_pairs_idx_reverse(xs, ys, si.drop_first(), sj.drop_first());
            }
        }
    }
}

/// The ordering class of a numeric value: every NaN, then negative
/// infinity, then the finite values, then positive infinity.
pub open spec fn num_class(v: ValView) -> int {
    match v {
        ValView::Double(bits) => if dbl_is_nan(bits) {
            0
        } else if dbl_is_inf(bits) {
            if bits >= 0x8000_0000_0000_0000 {
                1int
            } else {
                3int
            }
        } else {
            2
        },
        _ => 2,
    }
}

/// The exact value of a finite numeric, scaled by `2^1075` to an integer;
/// zero for the non-finite classes.
pub open spec fn num_scaled(v: ValView) -> int {
    match v {
        ValView::Double(bits) => if dbl_is_nan(bits) || dbl_is_inf(bits) {
            0
        } else {
            dbl_sv(bits) * p2(dbl_exp(bits) + 1075)
        },
        _ => num_val(v) * p2(1075),
    }
}

/// The class-then-scaled-value order.
pub open spec fn ord_num(a: ValView, b: ValView) -> Ordering {
    if num_class(a) != num_class(b) {
        ord_of(num_class(a), num_class(b))
    } else {
        ord_of(num_scaled(a), num_scaled(b))
    }
}

/// The magnitude of a finite pattern orders exactly as its scaled value.
proof fn lemma_dbl_mag_mono(a: u64, b: u64)
    requires
        !dbl_is_nan(a) && !dbl_is_inf(a),
        !dbl_is_nan(b) && !dbl_is_inf(b),
        (a as int) % p2(63) < (b as int) % p2(63),
    ensures
        dbl_sig(a) * p2(dbl_exp(a) + 1075) < dbl_sig(b) * p2(dbl_exp(b) + 1075),
{
    lemma2_to64();
    lemma2_to64_rest();
    let maga = (a as int) % p2(63);
    let magb = (b as int) % p2(63);
    let efa = maga / p2(52);
    let efb = magb / p2(52);
    let ma = maga % p2(52);
    let mb = magb % p2(52);
    let sa = dbl_sig(a);
    let sb = dbl_sig(b);
    let ea = if efa == 0 {
        1int
    } else {
        efa
    };
    let eb = if efb == 0 {
        1int
    } else {
        efb
    };
    assert(dbl_exp(a) + 1075 == ea);
    assert(dbl_exp(b) + 1075 == eb);
    assert(maga == p2(52) * efa + ma) by {
        vstd::arithmetic::div_mod::lemma_fundamental_div_mod(maga, p2(52));
    }
    assert(magb == p2(52) * efb + mb) by {
        vstd::arithmetic::div_mod::lemma_fundamental_div_mod(magb, p2(52));
    }
    assert(0 <= ma < p2(52));
    assert(0 <= mb < p2(52));
    assert(efa <= efb) by (nonlinear_arith)
        requires
            p2(52) * efa + ma < p2(52) * efb + mb,
            0 <= ma < p2(52),
            0 <= mb < p2(52),
            p2(52) > 0,
    ;
    if efa == efb {
        assert(ma < mb);
        assert(sa < sb);
        assert(ea == eb);
        lemma_pow2_pos(ea as nat);
        assert(sa * p2(ea) < sb * p2(eb)) by (nonlinear_arith)
            requires
                sa < sb,
                ea == eb,
                p2(ea) > 0,
    ;
    } else if efa == 0 {
        // a subnormal, b normal: a's value is below one binade of b's
        assert(efb >= 1);
        assert(ea == 1);
        assert(eb == efb);
        assert(sa == ma);
        assert(sb == p2(52) + mb);
        lemma_pow2_adds(52, 1);
        lemma_pow2_pos(eb as nat);
        assert(sa * p2(1) < p2(53)) by (nonlinear_arith)
            requires
                sa < p2(52),
                p2(53) == p2(52) * 2,
                p2(1) == 2,
        ;
        assert(p2(eb) >= 2) by {
            if eb > 1 {
                lemma_pow2_strictly_increases(1, eb as nat);
            }
        }
        assert(p2(53) <= sb * p2(eb)) by (nonlinear_arith)
            requires
                sb >= p2(52),
                p2(eb) >= 2,
                p2(53) == p2(52) * 2,
        ;
    } else {
        // both normal, in different binades
        assert(1 <= efa < efb);
        assert(ea == efa && eb == efb);
        assert(sa < p2(53));
        assert(sb >= p2(52));
        lemma_pow2_adds(53, efa as nat);
        lemma_pow2_adds(52, efb as nat);
        lemma_pow2_pos(efa as nat);
        lemma_pow2_pos(efb as nat);
        assert(sa * p2(ea) < p2(53) * p2(efa)) by (nonlinear_arith)
            requires
                0 <= sa < p2(53),
                p2(efa) > 0,
                ea == efa,
        ;
        assert(p2(53 + efa) <= p2(52 + efb)) by {
            if 53 + efa < 52 + efb {
                lemma_pow2_strictly_increases((53 + efa) as nat, (52 + efb) as nat);
            }
        }
        assert(p2(52) * p2(efb) <= sb * p2(eb)) by (nonlinear_arith)
            requires
                sb >= p2(52),
                p2(efb) > 0,
                eb == efb,
        ;
    }
}

/// The signed-magnitude key of a finite pattern orders exactly as its
/// scaled value.
proof fn lemma_dbl_key_scaled(a: u64, b: u64)
    requires
        !dbl_is_nan(a) && !dbl_is_inf(a),
        !dbl_is_nan(b) && !dbl_is_inf(b),
    ensures
        ord_of(dbl_key(a), dbl_key(b)) == ord_of(
            dbl_sv(a) * p2(dbl_exp(a) + 1075),
            dbl_sv(b) * p2(dbl_exp(b) + 1075),
        ),
{
    lemma2_to64();
    lemma2_to64_rest();
    let maga = (a as int) % p2(63);
    let magb = (b as int) % p2(63);
    let nega = a >= 0x8000_0000_0000_0000;
    let negb = b >= 0x8000_0000_0000_0000;
    let va = dbl_sv(a) * p2(dbl_exp(a) + 1075);
    let vb = dbl_sv(b) * p2(dbl_exp(b) + 1075);
    lemma_pow2_pos((dbl_exp(a) + 1075) as nat);
    lemma_pow2_pos((dbl_exp(b) + 1075) as nat);
    assert(dbl_sig(a) == 0 <==> maga == 0) by {
        vstd::arithmetic::div_mod::lemma_fundamental_div_mod(maga, p2(52));
        assert(p2(52) > 0);
    }
    assert(dbl_sig(b) == 0 <==> magb == 0) by {
        vstd::arithmetic::div_mod::lemma_fundamental_div_mod(magb, p2(52));
        assert(p2(52) > 0);
    }
    assert(va == 0 <==> dbl_sig(a) == 0) by (nonlinear_arith)
        requires
            va == dbl_sv(a) * p2(dbl_exp(a) + 1075),
            dbl_sv(a) == if nega {
                -dbl_sig(a)
            } else {
                dbl_sig(a)
            },
            p2(dbl_exp(a) + 1075) > 0,
            nega == (a >= 0x8000_0000_0000_0000),
    ;
    assert(vb == 0 <==> dbl_sig(b) == 0) by (nonlinear_arith)
        requires
            vb == dbl_sv(b) * p2(dbl_exp(b) + 1075),
            dbl_sv(b) == if negb {
                -dbl_sig(b)
            } else {
                dbl_sig(b)
            },
            p2(dbl_exp(b) + 1075) > 0,
            negb == (b >= 0x8000_0000_0000_0000),
    ;
    assert(va > 0 <==> (!nega && dbl_sig(a) > 0)) by (nonlinear_arith)
        requires
            va == dbl_sv(a) * p2(dbl_exp(a) + 1075),
            dbl_sv(a) == if nega {
                -dbl_sig(a)
            } else {
                dbl_sig(a)
            },
            dbl_sig(a) >= 0,
            p2(dbl_exp(a) + 1075) > 0,
    ;
    assert(vb > 0 <==> (!negb && dbl_sig(b) > 0)) by (nonlinear_arith)
        requires
            vb == dbl_sv(b) * p2(dbl_exp(b) + 1075),
            dbl_sv(b) == if negb {
                -dbl_sig(b)
            } else {
                dbl_sig(b)
            },
            dbl_sig(b) >= 0,
            p2(dbl_exp(b) + 1075) > 0,
    ;
    assert(dbl_sig(a) >= 0 && dbl_sig(b) >= 0) by {
        vstd::arithmetic::div_mod::lemma_fundamental_div_mod(maga, p2(52));
        vstd::arithmetic::div_mod::lemma_fundamental_div_mod(magb, p2(52));
    }
    let ava = dbl_sig(a) * p2(dbl_exp(a) + 1075);
    let avb = dbl_sig(b) * p2(dbl_exp(b) + 1075);
    if maga < magb {
        lemma_dbl_mag_mono(a, b);
        assert(ava < avb);
    } else if magb < maga {
        lemma_dbl_mag_mono(b, a);
        assert(avb < ava);
    } else {
        assert(ava == avb);
    }
    assert(ava >= 0) by (nonlinear_arith)
        requires
            dbl_sig(a) >= 0,
            p2(dbl_exp(a) + 1075) > 0,
            ava == dbl_sig(a) * p2(dbl_exp(a) + 1075),
    ;
    assert(avb >= 0) by (nonlinear_arith)
        requires
            dbl_sig(b) >= 0,
            p2(dbl_exp(b) + 1075) > 0,
            avb == dbl_sv(b) * p2(dbl_exp(b) + 1075) || avb == dbl_sig(b) * p2(
                dbl_exp(b) + 1075,
            ),
            avb == dbl_sig(b) * p2(dbl_exp(b) + 1075),
    ;
    assert(va == if nega {
        -ava
    } else {
        ava
    }) by (nonlinear_arith)
        requires
            va == dbl_sv(a) * p2(dbl_exp(a) + 1075),
            ava == dbl_sig(a) * p2(dbl_exp(a) + 1075),
            dbl_sv(a) == if nega {
                -dbl_sig(a)
            } else {
                dbl_sig(a)
            },
    ;
    assert(vb == if negb {
        -avb
    } else {
        avb
    }) by (nonlinear_arith)
        requires
            vb == dbl_sv(b) * p2(dbl_exp(b) + 1075),
            avb == dbl_sig(b) * p2(dbl_exp(b) + 1075),
            dbl_sv(b) == if negb {
                -dbl_sig(b)
            } else {
                dbl_sig(b)
            },
    ;
    assert(ava == 0 <==> maga == 0);
    assert(avb == 0 <==> magb == 0);
    assert(dbl_key(a) == if nega {
        -maga
    } else {
        maga
    });
    assert(dbl_key(b) == if negb {
        -magb
    } else {
        magb
    });
}

/// Scaling by a positive factor keeps the order of two integers.
proof fn lemma_ord_scale(x: int, y: int, k: int)
    requires
        k > 0,
    ensures
        ord_of(x * k, y * k) == ord_of(x, y),
{
    assert(x < y <==> x * k < y * k) by (nonlinear_arith)
        requires
            k > 0,
    ;
    assert(x == y <==> x * k == y * k) by (nonlinear_arith)
        requires
            k > 0,
    ;
}

/// Every comparison within the numeric kinds is the class-then-scaled-
/// value order: the one exact number a numeric value denotes decides it.
pub proof fn lemma_num_char(a: ValView, b: ValView)
    requires
        kind_rank(a) == 1,
        kind_rank(b) == 1,
    ensures
        cmp_val(a, b) == ord_num(a, b),
{
    lemma2_to64();
    lemma_pow2_pos(1075);
    match (a, b) {
        (ValView::Double(x), ValView::Double(y)) => {
            if !dbl_is_nan(x) && !dbl_is_nan(y) {
                if !dbl_is_inf(x) && !dbl_is_inf(y) {
                    lemma_dbl_key_scaled(x, y);
                } else {
                    lemma_dbl_inf_key(x);
                    lemma_dbl_inf_key(y);
                }
            }
        },
        (ValView::Double(x), _) => {
            lemma_int_dbl_char(num_val(b), x);
        },
        (_, ValView::Double(y)) => {
            lemma_int_dbl_char(num_val(a), y);
        },
        _ => {
            lemma_ord_scale(num_val(a), num_val(b), p2(1075));
        },
    }
}

/// An infinite pattern's key lies beyond every finite key.
proof fn lemma_dbl_inf_key(x: u64)
    ensures
        dbl_is_inf(x) && x < 0x8000_0000_0000_0000 ==> forall|y: u64|
            !dbl_is_nan(y) && !dbl_is_inf(y) ==> #[trigger] dbl_key(y) < dbl_key(x),
        dbl_is_inf(x) && x >= 0x8000_0000_0000_0000 ==> forall|y: u64|
            !dbl_is_nan(y) && !dbl_is_inf(y) ==> dbl_key(x) < #[trigger] dbl_key(y),
        dbl_is_inf(x) ==> dbl_key(x) == (if x >= 0x8000_0000_0000_0000 {
            -(0x7ff * p2(52))
        } else {
            0x7ff * p2(52)
        }),
        0x7ff * p2(52) > 0,
{
    lemma2_to64();
    lemma2_to64_rest();
    assert(0x7ff * p2(52) > 0) by (nonlinear_arith)
        requires
            p2(52) > 0,
    ;
    if dbl_is_inf(x) {
        let magx = (x as int) % p2(63);
        assert(magx == 0x7ff * p2(52)) by {
            vstd::arithmetic::div_mod::lemma_fundamental_div_mod(magx, p2(52));
        }
        assert(0x7ff * p2(52) > 0) by (nonlinear_arith)
            requires
                p2(52) > 0,
        ;
        assert forall|y: u64| !dbl_is_nan(y) && !dbl_is_inf(y) implies #[trigger] dbl_key(y)
            < magx && -magx < dbl_key(y) by {
            let magy = (y as int) % p2(63);
            let efy = magy / p2(52);
            assert(magy == p2(52) * efy + magy % p2(52)) by {
                vstd::arithmetic::div_mod::lemma_fundamental_div_mod(magy, p2(52));
            }
            assert(efy < 0x7ff);
            assert(magy < magx) by (nonlinear_arith)
                requires
                    magy == p2(52) * efy + magy % p2(52),
                    0 <= magy % p2(52) < p2(52),
                    efy < 0x7ff,
                    magx == 0x7ff * p2(52),
                    p2(52) > 0,
            ;
        }
    }
}


/// The scaling exponent of a pattern stays above the subnormal floor.
proof fn proof_dbl_exp_bounds(bits: u64)
    ensures
        dbl_exp(bits) >= -1074,
{
    lemma2_to64();
    lemma2_to64_rest();
    let mag = (bits as int) % p2(63);
    vstd::arithmetic::div_mod::lemma_fundamental_div_mod(mag, p2(52));
    assert(mag / p2(52) >= 0) by (nonlinear_arith)
        requires
            mag >= 0,
            p2(52) > 0,
            mag == p2(52) * (mag / p2(52)) + mag % p2(52),
            0 <= mag % p2(52) < p2(52),
    ;
}

/// An integer against a double is the class-then-scaled-value order.
proof fn lemma_int_dbl_char(n: int, bits: u64)
    ensures
        cmp_int_dbl(n, bits) == (if dbl_is_nan(bits) {
            Ordering::Greater
        } else if dbl_is_inf(bits) {
            if bits >= 0x8000_0000_0000_0000 {
                Ordering::Greater
            } else {
                Ordering::Less
            }
        } else {
            ord_of(n * p2(1075), dbl_sv(bits) * p2(dbl_exp(bits) + 1075))
        }),
{
    lemma2_to64();
    lemma2_to64_rest();
    lemma_pow2_pos(1075);
    if !dbl_is_nan(bits) && !dbl_is_inf(bits) {
        let e = dbl_exp(bits);
        let sv = dbl_sv(bits);
        proof_dbl_exp_bounds(bits);
        if e >= 0 {
            lemma_ord_scale(n, sv * p2(e), p2(1075));
            lemma_pow2_adds(e as nat, 1075);
            assert((sv * p2(e)) * p2(1075) == sv * p2(e + 1075)) by (nonlinear_arith)
                requires
                    p2(e) * p2(1075) == p2(e + 1075),
            ;
        } else {
            lemma_pow2_pos((e + 1075) as nat);
            lemma_ord_scale(n * p2(-e), sv, p2(e + 1075));
            lemma_pow2_adds((-e) as nat, (e + 1075) as nat);
            assert((n * p2(-e)) * p2(e + 1075) == n * p2(1075)) by (nonlinear_arith)
                requires
                    p2(-e) * p2(e + 1075) == p2(1075),
            ;
        }
    }
}

/// Byte strings that compare `Equal` are equal.
pub proof fn lemma_cmp_bytes_eq(a: Seq<u8>, b: Seq<u8>)
    requires
        cmp_bytes(a, b) == Ordering::Equal,
    ensures
        a == b,
    decreases a.len(),
{
    if a.len() > 0 && b.len() > 0 && a.first() == b.first() {
        lemma_cmp_bytes_eq(a.drop_first(), b.drop_first());
        assert(a =~= seq![a.first()] + a.drop_first());
        assert(b =~= seq![b.first()] + b.drop_first());
    }
}

/// Byte-string comparison is transitive.
pub proof fn lemma_cmp_bytes_trans(a: Seq<u8>, b: Seq<u8>, c: Seq<u8>)
    requires
        cmp_bytes(a, b) == Ordering::Less,
        cmp_bytes(b, c) == Ordering::Less,
    ensures
        cmp_bytes(a, c) == Ordering::Less,
    decreases a.len(), b.len(),
{
    if a.len() > 0 && b.len() > 0 && c.len() > 0 {
        if a.first() == b.first() && b.first() == c.first() {
            lemma_cmp_bytes_trans(a.drop_first(), b.drop_first(), c.drop_first());
        }
    }
}

/// Texts that compare `Equal` are equal.
pub proof fn lemma_cmp_text_eq(a: Seq<char>, b: Seq<char>)
    requires
        cmp_text(a, b) == Ordering::Equal,
    ensures
        a == b,
{
    lemma_cmp_bytes_eq(vstd::utf8::encode_utf8(a), vstd::utf8::encode_utf8(b));
    vstd::utf8::encode_utf8_decode_utf8(a);
    vstd::utf8::encode_utf8_decode_utf8(b);
}

/// The canonical order is transitive: strictly smaller through a middle
/// value stays strictly smaller, and a value that compares `Equal` to
/// another takes its place in any comparison.  With the reversal law this
/// makes `cmp_val` a total order on values.
#[verifier::rlimit(100)]
pub proof fn lemma_cmp_val_trans(a: ValView, b: ValView, c: ValView)
    ensures
        cmp_val(a, b) == Ordering::Equal ==> cmp_val(a, c) == cmp_val(b, c),
        cmp_val(b, c) == Ordering::Equal ==> cmp_val(a, c) == cmp_val(a, b),
        cmp_val(a, b) == Ordering::Less && cmp_val(b, c) == Ordering::Less ==> cmp_val(a, c)
            == Ordering::Less,
    decreases a, 0int, 0int,
{
    if kind_rank(a) == 1 && kind_rank(b) == 1 && kind_rank(c) == 1 {
        lemma_num_char(a, b);
        lemma_num_char(b, c);
        lemma_num_char(a, c);
    } else if kind_rank(a) == kind_rank(b) && kind_rank(b) == kind_rank(c) {
        match (a, b, c) {
            (ValView::Bytes(x), ValView::Bytes(y), ValView::Bytes(z)) => {
                if cmp_bytes(x, y) == Ordering::Equal {
                    lemma_cmp_bytes_eq(x, y);
                }
                if cmp_bytes(y, z) == Ordering::Equal {
                    lemma_cmp_bytes_eq(y, z);
                }
                if cmp_bytes(x, y) == Ordering::Less && cmp_bytes(y, z) == Ordering::Less {
                    lemma_cmp_bytes_trans(x, y, z);
                }
            },
            (ValView::Str(x), ValView::Str(y), ValView::Str(z)) => {
                if cmp_text(x, y) == Ordering::Equal {
                    lemma_cmp_text_eq(x, y);
                }
                if cmp_text(y, z) == Ordering::Equal {
                    lemma_cmp_text_eq(y, z);
                }
                if cmp_text(x, y) == Ordering::Less && cmp_text(y, z) == Ordering::Less {
                    lemma_cmp_bytes_trans(
                        vstd::utf8::encode_utf8(x),
                        vstd::utf8::encode_utf8(y),
                        vstd::utf8::encode_utf8(z),
                    );
                }
            },
            (ValView::List(ta, xs), ValView::List(tb, ys), ValView::List(tc, zs)) => {
                if ta is Some && tb is Some && cmp_text(ta->0, tb->0) == Ordering::Equal {
                    lemma_cmp_text_eq(ta->0, tb->0);
                }
                if tb is Some && tc is Some && cmp_text(tb->0, tc->0) == Ordering::Equal {
                    lemma_cmp_text_eq(tb->0, tc->0);
                }
                if ta is Some && tb is Some && tc is Some && cmp_text(ta->0, tb->0)
                    == Ordering::Less && cmp_text(tb->0, tc->0) == Ordering::Less {
                    lemma_cmp_bytes_trans(
                        vstd::utf8::encode_utf8(ta->0),
                        vstd::utf8::encode_utf8(tb->0),
                        vstd::utf8::encode_utf8(tc->0),
                    );
                }
                lemma_cmp_vals_trans(xs, ys, zs);
            },
            (ValView::Dict(ta, xs), ValView::Dict(tb, ys), ValView::Dict(tc, zs)) => {
                if ta is Some && tb is Some && cmp_text(ta->0, tb->0) == Ordering::Equal {
                    lemma_cmp_text_eq(ta->0, tb->0);
                }
                if tb is Some && tc is Some && cmp_text(tb->0, tc->0) == Ordering::Equal {
                    lemma_cmp_text_eq(tb->0, tc->0);
                }
                if ta is Some && tb is Some && tc is Some && cmp_text(ta->0, tb->0)
                    == Ordering::Less && cmp_text(tb->0, tc->0) == Ordering::Less {
                    lemma_cmp_bytes_trans(
                        vstd::utf8::encode_utf8(ta->0),
                        vstd::utf8::encode_utf8(tb->0),
                        vstd::utf8::encode_utf8(tc->0),
                    );
                }
                lemma_sort_idx_range(xs, xs.len());
                lemma_sort_idx_range(ys, ys.len());
                lemma_sort_idx_range(zs, zs.len());
                lemma_cmp_pairs_idx_trans(
                    xs,
                    ys,
                    zs,
                    sort_idx(xs, xs.len()),
                    sort_idx(ys, ys.len()),
                    sort_idx(zs, zs.len()),
                );
            },
            _ => {},
        }
    }
}

/// Transitivity and interchange hold of element-sequence comparison.
#[verifier::rlimit(100)]
pub proof fn lemma_cmp_vals_trans(a: Seq<ValView>, b: Seq<ValView>, c: Seq<ValView>)
    ensures
        cmp_vals(a, b) == Ordering::Equal ==> cmp_vals(a, c) == cmp_vals(b, c),
        cmp_vals(b, c) == Ordering::Equal ==> cmp_vals(a, c) == cmp_vals(a, b),
        cmp_vals(a, b) == Ordering::Less && cmp_vals(b, c) == Ordering::Less ==> cmp_vals(a, c)
            == Ordering::Less,
    decreases a, 1int, 0int,
{
    if a.len() > 0 && b.len() > 0 && c.len() > 0 {
        lemma_cmp_val_trans(a.first(), b.first(), c.first());
        lemma_cmp_vals_trans(a.drop_first(), b.drop_first(), c.drop_first());
    }
}

/// Transitivity and interchange hold of the key-sorted entry walk.
#[verifier::rlimit(100)]
pub proof fn lemma_cmp_pairs_idx_trans(
    xs: Seq<(ValView, ValView)>,
    ys: Seq<(ValView, ValView)>,
    zs: Seq<(ValView, ValView)>,
    si: Seq<int>,
    sj: Seq<int>,
    sk: Seq<int>,
)
    requires
        forall|q: int| 0 <= q < si.len() ==> 0 <= #[trigger] si[q] < xs.len(),
        forall|q: int| 0 <= q < sj.len() ==> 0 <= #[trigger] sj[q] < ys.len(),
        forall|q: int| 0 <= q < sk.len() ==> 0 <= #[trigger] sk[q] < zs.len(),
    ensures
        cmp_pairs_idx(xs, ys, si, sj) == Ordering::Equal ==> cmp_pairs_idx(xs, zs, si, sk)
            == cmp_pairs_idx(ys, zs, sj, sk),
        cmp_pairs_idx(ys, zs, sj, sk) == Ordering::Equal ==> cmp_pairs_idx(xs, zs, si, sk)
            == cmp_pairs_idx(xs, ys, si, sj),
        cmp_pairs_idx(xs, ys, si, sj) == Ordering::Less && cmp_pairs_idx(ys, zs, sj, sk)
            == Ordering::Less ==> cmp_pairs_idx(xs, zs, si, sk) == Ordering::Less,
    decreases xs, 1int, si.len(),
{
    if si.len() > 0 && sj.len() > 0 && sk.len() > 0 {
        lemma_cmp_val_trans(xs[si.first()].0, ys[sj.first()].0, zs[sk.first()].0);
        lemma_cmp_val_trans(xs[si.first()].1, ys[sj.first()].1, zs[sk.first()].1);
        assert forall|q: int| 0 <= q < si.drop_first().len() implies 0 <= #[trigger] si.drop_first()[q] < xs.len() by {
            assert(si.drop_first()[q] == si[q + 1]);
        }
        assert forall|q: int| 0 <= q < sj.drop_first().len() implies 0 <= #[trigger] sj.drop_first()[q] < ys.len() by {
            assert(sj.drop_first()[q] == sj[q + 1]);
        }
        assert forall|q: int| 0 <= q < sk.drop_first().len() implies 0 <= #[trigger] sk.drop_first()[q] < zs.len() by {
            assert(sk.drop_first()[q] == sk[q + 1]);
        }
        lemma_cmp_pairs_idx_trans(
            xs,
            ys,
            zs,
            si.drop_first(),
            sj.drop_first(),
            sk.drop_first(),
        );
    }
}

/// Comparing a byte string with itself gives `Equal`.
proof fn lemma_cmp_bytes_refl(a: Seq<u8>)
    ensures
        cmp_bytes(a, a) == Ordering::Equal,
    decreases a.len(),
{
    if a.len() > 0 {
        lemma_cmp_bytes_refl(a.drop_first());
    }
}

/// Equal values are ranked `Equal` by the canonical order: `value_eq`
/// refines `compare`.
pub proof fn lemma_veq_cmp_equal(a: ValView, b: ValView)
    requires
        veq(a, b),
    ensures
        cmp_val(a, b) == Ordering::Equal,
    decreases a, 0int, 0int,
{
    match (a, b) {
        (ValView::Double(x), ValView::Double(y)) => {
        },
        (ValView::Bytes(x), ValView::Bytes(y)) => {
            lemma_cmp_bytes_refl(x);
        },
        (ValView::Str(x), ValView::Str(y)) => {
            lemma_cmp_bytes_refl(vstd::utf8::encode_utf8(x));
        },
        (ValView::List(ta, xs), ValView::List(tb, ys)) => {
            if ta is Some {
                lemma_cmp_bytes_refl(vstd::utf8::encode_utf8(ta->0));
            }
            lemma_veq_vals_cmp_equal(xs, ys);
        },
        (ValView::Dict(ta, xs), ValView::Dict(tb, ys)) => {
            if ta is Some {
                lemma_cmp_bytes_refl(vstd::utf8::encode_utf8(ta->0));
            }
            lemma_veq_pairs_cmp_equal(
                xs,
                ys,
                sort_idx(xs, xs.len()),
                sort_idx(ys, ys.len()),
            );
        },
        _ => {},
    }
}

/// Equal element sequences compare `Equal`.
proof fn lemma_veq_vals_cmp_equal(a: Seq<ValView>, b: Seq<ValView>)
    requires
        veq_vals(a, b),
    ensures
        cmp_vals(a, b) == Ordering::Equal,
    decreases a, 1int, 0int,
{
    if a.len() > 0 {
        lemma_veq_cmp_equal(a.first(), b.first());
        lemma_veq_vals_cmp_equal(a.drop_first(), b.drop_first());
    }
}

/// Equal entry walks compare `Equal`.
proof fn lemma_veq_pairs_cmp_equal(
    xs: Seq<(ValView, ValView)>,
    ys: Seq<(ValView, ValView)>,
    si: Seq<int>,
    sj: Seq<int>,
)
    requires
        veq_pairs_idx(xs, ys, si, sj),
    ensures
        cmp_pairs_idx(xs, ys, si, sj) == Ordering::Equal,
    decreases xs, 1int, si.len(),
{
    if si.len() > 0 {
        lemma_veq_cmp_equal(xs[si.first()].0, ys[sj.first()].0);
        lemma_veq_cmp_equal(xs[si.first()].1, ys[sj.first()].1);
        lemma_veq_pairs_cmp_equal(xs, ys, si.drop_first(), sj.drop_first());
    }
}

/// Value equality is reflexive.
pub proof fn lemma_veq_refl(a: ValView)
    ensures
        veq(a, a),
    decreases a, 0int, 0int,
{
    match a {
        ValView::List(ta, xs) => {
            lemma_veq_vals_refl(xs);
        },
        ValView::Dict(ta, xs) => {
            lemma_sort_idx_range(xs, xs.len());
            lemma_veq_pairs_refl(xs, sort_idx(xs, xs.len()));
        },
        _ => {},
    }
}

/// Reflexivity holds of element sequences.
proof fn lemma_veq_vals_refl(a: Seq<ValView>)
    ensures
        veq_vals(a, a),
    decreases a, 1int, 0int,
{
    if a.len() > 0 {
        lemma_veq_refl(a.first());
        lemma_veq_vals_refl(a.drop_first());
    }
}

/// Reflexivity holds of an in-range entry walk against itself.
proof fn lemma_veq_pairs_refl(xs: Seq<(ValView, ValView)>, si: Seq<int>)
    requires
        forall|q: int| 0 <= q < si.len() ==> 0 <= #[trigger] si[q] < xs.len(),
    ensures
        veq_pairs_idx(xs, xs, si, si),
    decreases xs, 1int, si.len(),
{
    if si.len() > 0 {
        lemma_veq_refl(xs[si.first()].0);
        lemma_veq_refl(xs[si.first()].1);
        assert forall|q: int| 0 <= q < si.drop_first().len() implies 0 <= #[trigger] si.drop_first()[q] < xs.len() by {
            assert(si.drop_first()[q] == si[q + 1]);
        }
        lemma_veq_pairs_refl(xs, si.drop_first());
    }
}

/// Value equality is symmetric.
pub proof fn lemma_veq_sym(a: ValView, b: ValView)
    requires
        veq(a, b),
    ensures
        veq(b, a),
    decreases a, 0int, 0int,
{
    match (a, b) {
        (ValView::List(ta, xs), ValView::List(tb, ys)) => {
            lemma_veq_vals_sym(xs, ys);
        },
        (ValView::Dict(ta, xs), ValView::Dict(tb, ys)) => {
            lemma_veq_pairs_sym(xs, ys, sort_idx(xs, xs.len()), sort_idx(ys, ys.len()));
        },
        _ => {},
    }
}

/// Symmetry holds of element sequences.
proof fn lemma_veq_vals_sym(a: Seq<ValView>, b: Seq<ValView>)
    requires
        veq_vals(a, b),
    ensures
        veq_vals(b, a),
    decreases a, 1int, 0int,
{
    if a.len() > 0 {
        lemma_veq_sym(a.first(), b.first());
        lemma_veq_vals_sym(a.drop_first(), b.drop_first());
    }
}

/// Symmetry holds of entry walks.
proof fn lemma_veq_pairs_sym(
    xs: Seq<(ValView, ValView)>,
    ys: Seq<(ValView, ValView)>,
    si: Seq<int>,
    sj: Seq<int>,
)
    requires
        veq_pairs_idx(xs, ys, si, sj),
    ensures
        veq_pairs_idx(ys, xs, sj, si),
    decreases xs, 1int, si.len(),
{
    if si.len() > 0 {
        lemma_veq_sym(xs[si.first()].0, ys[sj.first()].0);
        lemma_veq_sym(xs[si.first()].1, ys[sj.first()].1);
        lemma_veq_pairs_sym(xs, ys, si.drop_first(), sj.drop_first());
    }
}

} // verus!
