//! The mathematical model of the value space and of the codec state.
//!
//! Contracts throughout the crate speak of these ghost types: a `ValView` is
//! the abstract content of a `Value`, a `DState` is the abstract content of
//! the per-session tables (type names and class definitions) that both the
//! encoder and the decoder maintain.

use vstd::prelude::*;

verus! {

/// Abstract view of a value: integers widen to `int`, byte strings and text
/// become sequences, a double is identified by its IEEE-754 bit pattern.
#[verifier::ext_equal]
pub enum ValView {
    Null,
    Bool(bool),
    Int(int),
    Long(int),
    Double(u64),
    Date(int),
    Bytes(Seq<u8>),
    Str(Seq<char>),
    Ref(int),
    List(Option<Seq<char>>, Seq<ValView>),
    Dict(Option<Seq<char>>, Seq<(ValView, ValView)>),
}

/// Abstract view of a class definition: a name and an ordered sequence of
/// field names.
#[verifier::ext_equal]
pub struct DefView {
    pub name: Seq<char>,
    pub fields: Seq<Seq<char>>,
}

/// Abstract view of the per-session codec state: the type names and the
/// class definitions registered so far, in registration order.
#[verifier::ext_equal]
pub struct DState {
    pub types: Seq<Seq<char>>,
    pub defs: Seq<DefView>,
}

impl DState {
    pub open spec fn empty() -> DState {
        DState { types: Seq::empty(), defs: Seq::empty() }
    }
}

/// Abstract view of a decode failure: the discriminant, and for the two
/// range errors the offending index.  The human-readable message carried by
/// the executable error type is not part of the model.
#[verifier::ext_equal]
pub enum DeErr {
    Eof,
    UnknownTag,
    Unexpected,
    TypeRef(int),
    DefRef(int),
    Utf8,
}

/// Every key and every value of a pair sequence is representable.
pub open spec fn encodable_pairs(pairs: Seq<(ValView, ValView)>) -> bool
    decreases pairs,
{
    pairs.len() == 0 || (encodable(pairs.first().0) && encodable(pairs.first().1)
        && encodable_pairs(pairs.drop_first()))
}

/// No two entries of a pair sequence share a key.
pub open spec fn distinct_keys(pairs: Seq<(ValView, ValView)>) -> bool {
    forall|i: int, j: int|
        0 <= i < j < pairs.len() ==> (#[trigger] pairs[i]).0 != (#[trigger] pairs[j]).0
}

/// The first index holding this key, or a negative value.
pub open spec fn find_key(ps: Seq<(ValView, ValView)>, k: ValView) -> int
    decreases ps.len(),
{
    if ps.len() == 0 {
        -1
    } else if ps.first().0 == k {
        0
    } else {
        let r = find_key(ps.drop_first(), k);
        if r < 0 {
            -1
        } else {
            1 + r
        }
    }
}

/// One insertion with map semantics: a known key keeps its place and takes
/// the new value, a new key goes to the end.
pub open spec fn upsert(ps: Seq<(ValView, ValView)>, k: ValView, v: ValView) -> Seq<
    (ValView, ValView),
> {
    let i = find_key(ps, k);
    if i >= 0 {
        ps.update(i, (k, v))
    } else {
        ps.push((k, v))
    }
}

/// The mapping a raw wire pair sequence denotes: pairs fold in order, a
/// duplicate key keeps the place of its first occurrence and the value of
/// its last.
pub open spec fn dedup_pairs(raw: Seq<(ValView, ValView)>) -> Seq<(ValView, ValView)>
    decreases raw.len(),
{
    if raw.len() == 0 {
        Seq::empty()
    } else {
        upsert(dedup_pairs(raw.drop_last()), raw.last().0, raw.last().1)
    }
}

/// A value lies within the set the encoder can represent on the wire: every
/// (possibly nested) list is short enough for its length to be written as a
/// 32-bit int.  All other bounds are enforced by the field types themselves.
pub open spec fn encodable(v: ValView) -> bool
    decreases v,
{
    match v {
        ValView::List(_, elems) => {
            &&& elems.len() <= 0x7fff_ffff
            &&& forall|i: int| 0 <= i < elems.len() ==> encodable(#[trigger] elems[i])
        },
        ValView::Dict(_, pairs) => encodable_pairs(pairs) && distinct_keys(pairs),
        _ => true,
    }
}

/// Dropping leading pairs keeps a pair sequence representable.
pub proof fn lemma_encodable_pairs_skip(pairs: Seq<(ValView, ValView)>, k: int)
    requires
        encodable_pairs(pairs),
        0 <= k <= pairs.len(),
    ensures
        encodable_pairs(pairs.skip(k)),
    decreases k,
{
    if k == 0 {
        assert(pairs.skip(0) =~= pairs);
    } else {
        assert(pairs.drop_first() =~= pairs.skip(1));
        lemma_encodable_pairs_skip(pairs.skip(1), k - 1);
        assert(pairs.skip(1).skip(k - 1) =~= pairs.skip(k));
    }
}

/// What a found key index points at, that nothing earlier holds the key,
/// and what absence means.
pub proof fn lemma_find_key_props(ps: Seq<(ValView, ValView)>, k: ValView)
    ensures
        find_key(ps, k) >= 0 ==> find_key(ps, k) < ps.len() && ps[find_key(ps, k)].0 == k && (
        forall|m: int| 0 <= m < find_key(ps, k) ==> (#[trigger] ps[m]).0 != k),
        find_key(ps, k) < 0 ==> forall|m: int| 0 <= m < ps.len() ==> (#[trigger] ps[m]).0 != k,
    decreases ps.len(),
{
    if ps.len() > 0 && ps.first().0 != k {
        lemma_find_key_props(ps.drop_first(), k);
        assert forall|m: int| 0 <= m < ps.len() && m >= 1 implies ps[m]
            == ps.drop_first()[m - 1] by {}
    }
}

/// A first match at `j` is what the key search finds.
pub proof fn lemma_find_key_at(ps: Seq<(ValView, ValView)>, k: ValView, j: int)
    requires
        0 <= j < ps.len(),
        ps[j].0 == k,
        forall|m: int| 0 <= m < j ==> (#[trigger] ps[m]).0 != k,
    ensures
        find_key(ps, k) == j,
    decreases j,
{
    if j > 0 {
        assert(ps.drop_first()[j - 1] == ps[j]);
        assert forall|m: int| 0 <= m < j - 1 implies (#[trigger] ps.drop_first()[m]).0 != k by {
            assert(ps.drop_first()[m] == ps[m + 1]);
        }
        lemma_find_key_at(ps.drop_first(), k, j - 1);
    }
}

/// No match anywhere means the key search fails.
pub proof fn lemma_find_key_none(ps: Seq<(ValView, ValView)>, k: ValView)
    requires
        forall|m: int| 0 <= m < ps.len() ==> (#[trigger] ps[m]).0 != k,
    ensures
        find_key(ps, k) < 0,
{
    lemma_find_key_props(ps, k);
}

/// Insertion keeps keys distinct.
pub proof fn lemma_upsert_distinct(ps: Seq<(ValView, ValView)>, k: ValView, v: ValView)
    requires
        distinct_keys(ps),
    ensures
        distinct_keys(upsert(ps, k, v)),
{
    lemma_find_key_props(ps, k);
    let i = find_key(ps, k);
    let r = upsert(ps, k, v);
    if i >= 0 {
        assert forall|a: int, b: int| 0 <= a < b < r.len() implies (#[trigger] r[a]).0 != (
        #[trigger] r[b]).0 by {
            assert(r[a].0 == ps[a].0);
            assert(r[b].0 == ps[b].0);
        }
    } else {
        assert forall|a: int, b: int| 0 <= a < b < r.len() implies (#[trigger] r[a]).0 != (
        #[trigger] r[b]).0 by {
            if b < ps.len() {
                assert(r[a] == ps[a]);
                assert(r[b] == ps[b]);
            } else {
                assert(r[a] == ps[a]);
                assert(r[b] == (k, v));
            }
        }
    }
}

/// A folded mapping has distinct keys.
pub proof fn lemma_dedup_distinct(raw: Seq<(ValView, ValView)>)
    ensures
        distinct_keys(dedup_pairs(raw)),
    decreases raw.len(),
{
    if raw.len() == 0 {
        assert(distinct_keys(Seq::<(ValView, ValView)>::empty()));
    } else {
        lemma_dedup_distinct(raw.drop_last());
        lemma_upsert_distinct(dedup_pairs(raw.drop_last()), raw.last().0, raw.last().1);
    }
}

/// Folding one more raw pair is one insertion.
pub proof fn lemma_dedup_push(raw: Seq<(ValView, ValView)>, k: ValView, v: ValView)
    ensures
        dedup_pairs(raw.push((k, v))) == upsert(dedup_pairs(raw), k, v),
{
    assert(raw.push((k, v)).drop_last() =~= raw);
    assert(raw.push((k, v)).last() == (k, v));
}

/// A pair sequence with distinct keys already is a mapping: folding leaves
/// it unchanged.
pub proof fn lemma_dedup_id(ps: Seq<(ValView, ValView)>)
    requires
        distinct_keys(ps),
    ensures
        dedup_pairs(ps) == ps,
    decreases ps.len(),
{
    if ps.len() > 0 {
        let pre = ps.drop_last();
        assert forall|i: int, j: int| 0 <= i < j < pre.len() implies (#[trigger] pre[i]).0 != (
        #[trigger] pre[j]).0 by {
            assert(pre[i] == ps[i]);
            assert(pre[j] == ps[j]);
        }
        lemma_dedup_id(pre);
        assert forall|m: int| 0 <= m < pre.len() implies (#[trigger] pre[m]).0
            != ps.last().0 by {
            assert(pre[m] == ps[m]);
            assert(ps.last() == ps[ps.len() - 1]);
        }
        lemma_find_key_none(pre, ps.last().0);
        assert(upsert(pre, ps.last().0, ps.last().1) =~= ps);
    } else {
        assert(dedup_pairs(ps) =~= ps);
    }
}

/// Both halves of every entry of an encodable map are encodable, pointwise.
pub proof fn lemma_pairs_rec_to_pointwise(ps: Seq<(ValView, ValView)>)
    requires
        encodable_pairs(ps),
    ensures
        forall|i: int|
            0 <= i < ps.len() ==> encodable((#[trigger] ps[i]).0) && encodable(ps[i].1),
    decreases ps.len(),
{
    if ps.len() > 0 {
        lemma_pairs_rec_to_pointwise(ps.drop_first());
        assert forall|i: int| 0 <= i < ps.len() implies encodable((#[trigger] ps[i]).0)
            && encodable(ps[i].1) by {
            if i == 0 {
                assert(ps[0] == ps.first());
            } else {
                assert(ps.drop_first()[i - 1] == ps[i]);
            }
        }
    }
}

/// Pointwise encodability gives the recursive form.
pub proof fn lemma_pairs_pointwise_to_rec(ps: Seq<(ValView, ValView)>)
    requires
        forall|i: int|
            0 <= i < ps.len() ==> encodable((#[trigger] ps[i]).0) && encodable(ps[i].1),
    ensures
        encodable_pairs(ps),
    decreases ps.len(),
{
    if ps.len() > 0 {
        assert(ps[0] == ps.first());
        assert forall|i: int| 0 <= i < ps.drop_first().len() implies encodable(
            (#[trigger] ps.drop_first()[i]).0,
        ) && encodable(ps.drop_first()[i].1) by {
            assert(ps.drop_first()[i] == ps[i + 1]);
        }
        lemma_pairs_pointwise_to_rec(ps.drop_first());
    }
}

/// Folding keeps every entry encodable.
pub proof fn lemma_dedup_encodable(raw: Seq<(ValView, ValView)>)
    requires
        forall|i: int|
            0 <= i < raw.len() ==> encodable((#[trigger] raw[i]).0) && encodable(raw[i].1),
    ensures
        forall|i: int|
            0 <= i < dedup_pairs(raw).len() ==> encodable((#[trigger] dedup_pairs(raw)[i]).0)
                && encodable(dedup_pairs(raw)[i].1),
    decreases raw.len(),
{
    if raw.len() > 0 {
        let pre = raw.drop_last();
        assert forall|i: int| 0 <= i < pre.len() implies encodable((#[trigger] pre[i]).0)
            && encodable(pre[i].1) by {
            assert(pre[i] == raw[i]);
        }
        lemma_dedup_encodable(pre);
        let d = dedup_pairs(pre);
        let k = raw.last().0;
        let v = raw.last().1;
        assert(raw.last() == raw[raw.len() - 1]);
        lemma_find_key_props(d, k);
        let r = dedup_pairs(raw);
        assert(r == upsert(d, k, v));
        assert forall|i: int| 0 <= i < r.len() implies encodable((#[trigger] r[i]).0)
            && encodable(r[i].1) by {
            if find_key(d, k) >= 0 {
                if i == find_key(d, k) {
                    assert(r[i] == (k, v));
                } else {
                    assert(r[i] == d[i]);
                }
            } else {
                if i < d.len() {
                    assert(r[i] == d[i]);
                } else {
                    assert(r[i] == (k, v));
                }
            }
        }
    } else {
        assert(dedup_pairs(raw) =~= Seq::<(ValView, ValView)>::empty());
    }
}

/// The entries of an encodable map have distinct keys.
pub proof fn lemma_dict_distinct(p: Seq<(ValView, ValView)>, tv: Option<Seq<char>>)
    requires
        encodable(ValView::Dict(tv, p)),
    ensures
        distinct_keys(p),
        encodable_pairs(p),
{
}

} // verus!
