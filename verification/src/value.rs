//! The value model: the sum type of every representable Hessian value,
//! container wrappers carrying an optional type name, and class definitions.

use vstd::prelude::*;
use vstd::string::StringSliceAdditionalSpecFns;

use crate::model::{DefView, ValView};

verus! {

broadcast use {vstd::std_specs::vec::group_vec_axioms, vstd::seq::group_seq_axioms};

/// A class definition: a type name together with the ordered field names
/// shared by the object instances that reference it.
#[derive(Debug, Clone, PartialEq, Eq)]
pub struct Definition {
    pub name: String,
    pub fields: Vec<String>,
}

impl View for Definition {
    type V = DefView;

    open spec fn view(&self) -> DefView {
        DefView { name: self.name@, fields: string_views(self.fields@) }
    }
}

/// The views of a sequence of strings.
pub open spec fn string_views(s: Seq<String>) -> Seq<Seq<char>> {
    Seq::new(s.len(), |i: int| s[i]@)
}

/// A Hessian list: an ordered sequence of values, optionally tagged with an
/// opaque type name.
#[derive(Debug, PartialEq, Eq, Hash)]
pub enum List {
    Typed(String, Vec<Value>),
    Untyped(Vec<Value>),
}

/// A Hessian map: key/value pairs in insertion order, optionally tagged with
/// an opaque type name.  The decoder never produces two entries for one
/// key.  Derived `==` compares the entries in their stored order — it is
/// representation equality; value equality is `order::value_eq`, which,
/// like the canonical order (`Value::compare`), arranges the entries by
/// key first, so two maps holding one mapping in different insertion
/// orders are equal values even though `==` distinguishes them.
#[derive(Debug, PartialEq, Eq, Hash)]
pub enum MapValue {
    Typed(String, Vec<(Value, Value)>),
    Untyped(Vec<(Value, Value)>),
}

/// A Hessian value.  A double is held as its IEEE-754 bit pattern, so that
/// the codec's arithmetic stays in the integers; text is held as UTF-8.
#[derive(Debug, PartialEq, Eq, Hash)]
pub enum Value {
    /// null
    Null,
    /// boolean
    Bool(bool),
    /// 32-bit int
    Int(i32),
    /// 64-bit int
    Long(i64),
    /// 64-bit double, by its IEEE-754 bit pattern
    Double(u64),
    /// 64-bit millisecond date
    Date(i64),
    /// raw binary data
    Bytes(Vec<u8>),
    /// UTF-8 encoded string
    String(String),
    /// shared and circular object references
    Ref(u32),
    /// lists and arrays
    List(List),
    /// maps and dictionaries
    Dict(MapValue),
}

/// The view of each value of a sequence.
pub open spec fn views_of(s: Seq<Value>) -> Seq<ValView>
    decreases s,
{
    Seq::new(
        s.len(),
        |i: int|
            if 0 <= i < s.len() {
                value_view(s[i])
            } else {
                ValView::Null
            },
    )
}

/// The view of each pair of a sequence of pairs.
pub open spec fn pair_views_of(s: Seq<(Value, Value)>) -> Seq<(ValView, ValView)>
    decreases s,
{
    Seq::new(
        s.len(),
        |i: int|
            if 0 <= i < s.len() {
                (value_view(s[i].0), value_view(s[i].1))
            } else {
                (ValView::Null, ValView::Null)
            },
    )
}

/// The view of a value, defined structurally.
pub open spec fn value_view(v: Value) -> ValView
    decreases v,
{
    match v {
        Value::Null => ValView::Null,
        Value::Bool(b) => ValView::Bool(b),
        Value::Int(i) => ValView::Int(i as int),
        Value::Long(l) => ValView::Long(l as int),
        Value::Double(d) => ValView::Double(d),
        Value::Date(d) => ValView::Date(d as int),
        Value::Bytes(b) => ValView::Bytes(b@),
        Value::String(s) => ValView::Str(s@),
        Value::Ref(r) => ValView::Ref(r as int),
        Value::List(l) => match l {
            List::Typed(t, elems) => ValView::List(Some(t@), views_of(elems@)),
            List::Untyped(elems) => ValView::List(None, views_of(elems@)),
        },
        Value::Dict(m) => match m {
            MapValue::Typed(t, pairs) => ValView::Dict(Some(t@), pair_views_of(pairs@)),
            MapValue::Untyped(pairs) => ValView::Dict(None, pair_views_of(pairs@)),
        },
    }
}

impl View for Value {
    type V = ValView;

    open spec fn view(&self) -> ValView {
        value_view(*self)
    }
}

impl List {
    pub open spec fn spec_typ(self) -> Option<String> {
        match self {
            List::Typed(t, _) => Some(t),
            List::Untyped(_) => None,
        }
    }

    pub open spec fn spec_value(self) -> Vec<Value> {
        match self {
            List::Typed(_, v) => v,
            List::Untyped(v) => v,
        }
    }

    /// The type name of a typed list, if any.
    pub fn typ(&self) -> (r: Option<&String>)
        ensures
            match self {
                List::Typed(t, _) => r == Some(t),
                List::Untyped(_) => r is None,
            },
    {
        match self {
            List::Typed(t, _) => Some(t),
            List::Untyped(_) => None,
        }
    }

    /// The elements of the list.
    pub fn value(&self) -> (r: &Vec<Value>)
        ensures
            match self {
                List::Typed(_, v) => r == v,
                List::Untyped(v) => r == v,
            },
    {
        match self {
            List::Typed(_, v) => v,
            List::Untyped(v) => v,
        }
    }

    /// The elements of the list, mutably.
    pub fn value_mut(&mut self) -> (r: &mut Vec<Value>)
        ensures
            *r == old(self).spec_value(),
            final(self).spec_value() == *final(r),
            final(self).spec_typ() == old(self).spec_typ(),
    {
        match self {
            List::Typed(_, v) => v,
            List::Untyped(v) => v,
        }
    }
}

impl MapValue {
    pub open spec fn spec_typ(self) -> Option<String> {
        match self {
            MapValue::Typed(t, _) => Some(t),
            MapValue::Untyped(_) => None,
        }
    }

    pub open spec fn spec_value(self) -> Vec<(Value, Value)> {
        match self {
            MapValue::Typed(_, v) => v,
            MapValue::Untyped(v) => v,
        }
    }

    /// The type name of a typed map, if any.
    pub fn typ(&self) -> (r: Option<&String>)
        ensures
            match self {
                MapValue::Typed(t, _) => r == Some(t),
                MapValue::Untyped(_) => r is None,
            },
    {
        match self {
            MapValue::Typed(t, _) => Some(t),
            MapValue::Untyped(_) => None,
        }
    }

    /// The key/value pairs of the map, in insertion order.
    pub fn value(&self) -> (r: &Vec<(Value, Value)>)
        ensures
            match self {
                MapValue::Typed(_, v) => r == v,
                MapValue::Untyped(v) => r == v,
            },
    {
        match self {
            MapValue::Typed(_, v) => v,
            MapValue::Untyped(v) => v,
        }
    }

    /// The key/value pairs of the map, mutably.
    pub fn value_mut(&mut self) -> (r: &mut Vec<(Value, Value)>)
        ensures
            *r == old(self).spec_value(),
            final(self).spec_value() == *final(r),
            final(self).spec_typ() == old(self).spec_typ(),
    {
        match self {
            MapValue::Typed(_, v) => v,
            MapValue::Untyped(v) => v,
        }
    }
}

impl Value {
    /// Takes the value out, leaving a `Null` in its place.
    pub fn take(&mut self) -> (r: Value)
        ensures
            r == *old(self),
            *final(self) == Value::Null,
    {
        let mut v = Value::Null;
        core::mem::swap(self, &mut v);
        v
    }

    /// If the value is a `Null`, returns `()`.
    pub fn as_null(&self) -> (r: Option<()>)
        ensures
            r is Some <==> self is Null,
    {
        match self {
            Value::Null => Some(()),
            _ => None,
        }
    }

    pub fn is_null(&self) -> (r: bool)
        ensures
            r <==> self is Null,
    {
        matches!(self, Value::Null)
    }

    pub fn as_bool(&self) -> (r: Option<bool>)
        ensures
            match self {
                Value::Bool(b) => r == Some(*b),
                _ => r is None,
            },
    {
        match self {
            Value::Bool(b) => Some(*b),
            _ => None,
        }
    }

    pub fn is_bool(&self) -> (r: bool)
        ensures
            r <==> self is Bool,
    {
        matches!(self, Value::Bool(_))
    }

    pub fn as_int(&self) -> (r: Option<i32>)
        ensures
            match self {
                Value::Int(i) => r == Some(*i),
                _ => r is None,
            },
    {
        match self {
            Value::Int(i) => Some(*i),
            _ => None,
        }
    }

    pub fn is_int(&self) -> (r: bool)
        ensures
            r <==> self is Int,
    {
        matches!(self, Value::Int(_))
    }

    pub fn as_long(&self) -> (r: Option<i64>)
        ensures
            match self {
                Value::Long(l) => r == Some(*l),
                _ => r is None,
            },
    {
        match self {
            Value::Long(l) => Some(*l),
            _ => None,
        }
    }

    pub fn is_long(&self) -> (r: bool)
        ensures
            r <==> self is Long,
    {
        matches!(self, Value::Long(_))
    }

    /// The IEEE-754 bit pattern of a double value.
    pub fn as_double(&self) -> (r: Option<u64>)
        ensures
            match self {
                Value::Double(d) => r == Some(*d),
                _ => r is None,
            },
    {
        match self {
            Value::Double(d) => Some(*d),
            _ => None,
        }
    }

    pub fn is_double(&self) -> (r: bool)
        ensures
            r <==> self is Double,
    {
        matches!(self, Value::Double(_))
    }

    pub fn as_date(&self) -> (r: Option<i64>)
        ensures
            match self {
                Value::Date(d) => r == Some(*d),
                _ => r is None,
            },
    {
        match self {
            Value::Date(d) => Some(*d),
            _ => None,
        }
    }

    pub fn is_date(&self) -> (r: bool)
        ensures
            r <==> self is Date,
    {
        matches!(self, Value::Date(_))
    }

    pub fn as_bytes(&self) -> (r: Option<&Vec<u8>>)
        ensures
            match self {
                Value::Bytes(b) => r == Some(b),
                _ => r is None,
            },
    {
        match self {
            Value::Bytes(b) => Some(b),
            _ => None,
        }
    }

    pub fn is_bytes(&self) -> (r: bool)
        ensures
            r <==> self is Bytes,
    {
        matches!(self, Value::Bytes(_))
    }

    pub fn as_str(&self) -> (r: Option<&String>)
        ensures
            match self {
                Value::String(s) => r == Some(s),
                _ => r is None,
            },
    {
        match self {
            Value::String(s) => Some(s),
            _ => None,
        }
    }

    pub fn is_str(&self) -> (r: bool)
        ensures
            r <==> self is String,
    {
        matches!(self, Value::String(_))
    }

    pub fn as_ref(&self) -> (r: Option<u32>)
        ensures
            match self {
                Value::Ref(i) => r == Some(*i),
                _ => r is None,
            },
    {
        match self {
            Value::Ref(i) => Some(*i),
            _ => None,
        }
    }

    pub fn is_ref(&self) -> (r: bool)
        ensures
            r <==> self is Ref,
    {
        matches!(self, Value::Ref(_))
    }

    pub fn as_list(&self) -> (r: Option<&List>)
        ensures
            match self {
                Value::List(l) => r == Some(l),
                _ => r is None,
            },
    {
        match self {
            Value::List(l) => Some(l),
            _ => None,
        }
    }

    pub fn as_list_mut(&mut self) -> (r: Option<&mut List>)
        ensures
            match r {
                Some(l) => *old(self) is List && *l == (*old(self))->List_0 && *final(self)
                    == Value::List(*final(l)),
                None => !(*old(self) is List) && *final(self) == *old(self),
            },
    {
        match self {
            Value::List(l) => Some(l),
            _ => None,
        }
    }

    pub fn is_list(&self) -> (r: bool)
        ensures
            r <==> self is List,
    {
        matches!(self, Value::List(_))
    }

    pub fn as_map(&self) -> (r: Option<&MapValue>)
        ensures
            match self {
                Value::Dict(m) => r == Some(m),
                _ => r is None,
            },
    {
        match self {
            Value::Dict(m) => Some(m),
            _ => None,
        }
    }

    pub fn as_map_mut(&mut self) -> (r: Option<&mut MapValue>)
        ensures
            match r {
                Some(m) => *old(self) is Dict && *m == (*old(self))->Dict_0 && *final(self)
                    == Value::Dict(*final(m)),
                None => !(*old(self) is Dict) && *final(self) == *old(self),
            },
    {
        match self {
            Value::Dict(m) => Some(m),
            _ => None,
        }
    }

    pub fn is_map(&self) -> (r: bool)
        ensures
            r <==> self is Dict,
    {
        matches!(self, Value::Dict(_))
    }
}

/// Whether two string slices hold the same characters.
pub(crate) fn str_eq(a: &str, b: &str) -> (r: bool)
    ensures
        r == (a@ == b@),
{
    let ab = a.as_bytes();
    let bb = b.as_bytes();
    proof {
        if a@ == b@ {
            assert(ab@ == bb@);
        }
        vstd::utf8::encode_utf8_decode_utf8(a@);
        vstd::utf8::encode_utf8_decode_utf8(b@);
    }
    if ab.len() != bb.len() {
        return false;
    }
    let mut i: usize = 0;
    while i < ab.len()
        invariant
            ab@.len() == bb@.len(),
            i <= ab@.len(),
            forall|m: int| 0 <= m < i ==> ab@[m] == bb@[m],
            ab@ == a.spec_bytes(),
            bb@ == b.spec_bytes(),
        decreases ab@.len() - i,
    {
        if ab[i] != bb[i] {
            proof {
                assert(ab@ != bb@);
                assert(a@ != b@);
            }
            return false;
        }
        i = i + 1;
    }
    proof {
        assert(ab@ =~= bb@);
        vstd::utf8::encode_utf8_decode_utf8(a@);
        vstd::utf8::encode_utf8_decode_utf8(b@);
        assert(vstd::utf8::decode_utf8(a.spec_bytes()) == a@);
        assert(vstd::utf8::decode_utf8(b.spec_bytes()) == b@);
        assert(a@ == b@);
    }
    true
}

/// Whether two byte vectors hold the same octets.
pub(crate) fn bytes_vec_eq(a: &Vec<u8>, b: &Vec<u8>) -> (r: bool)
    ensures
        r == (a@ == b@),
{
    if a.len() != b.len() {
        return false;
    }
    let mut i: usize = 0;
    while i < a.len()
        invariant
            a@.len() == b@.len(),
            i <= a@.len(),
            forall|m: int| 0 <= m < i ==> a@[m] == b@[m],
        decreases a@.len() - i,
    {
        if a[i] != b[i] {
            return false;
        }
        i = i + 1;
    }
    proof {
        assert(a@ =~= b@);
    }
    true
}

/// Whether two values are equal value representations: same kind, same
/// content in stored order, a double by its exact bit pattern.  The
/// decoder's duplicate-key collapse matches keys by this relation; the
/// entry-order-insensitive value equality is `order::value_eq`.
pub(crate) fn rep_eq(a: &Value, b: &Value) -> (r: bool)
    ensures
        r == (a@ == b@),
    decreases a, 1int,
{
    match (a, b) {
        (Value::Null, Value::Null) => true,
        (Value::Bool(x), Value::Bool(y)) => x == y,
        (Value::Int(x), Value::Int(y)) => x == y,
        (Value::Long(x), Value::Long(y)) => x == y,
        (Value::Double(x), Value::Double(y)) => x == y,
        (Value::Date(x), Value::Date(y)) => x == y,
        (Value::Ref(x), Value::Ref(y)) => x == y,
        (Value::Bytes(x), Value::Bytes(y)) => bytes_vec_eq(x, y),
        (Value::String(x), Value::String(y)) => str_eq(x.as_str(), y.as_str()),
        (Value::List(la), Value::List(lb)) => match (la, lb) {
            (List::Typed(tx, xs), List::Typed(ty, ys)) => {
                let te = str_eq(tx.as_str(), ty.as_str());
                te && elems_eq(xs, ys)
            },
            (List::Untyped(xs), List::Untyped(ys)) => elems_eq(xs, ys),
            _ => false,
        },
        (Value::Dict(ma), Value::Dict(mb)) => match (ma, mb) {
            (MapValue::Typed(tx, xs), MapValue::Typed(ty, ys)) => {
                let te = str_eq(tx.as_str(), ty.as_str());
                te && pairs_eq(xs, ys)
            },
            (MapValue::Untyped(xs), MapValue::Untyped(ys)) => pairs_eq(xs, ys),
            _ => false,
        },
        _ => false,
    }
}

/// Whether two element vectors hold equal values, in order.
fn elems_eq(a: &Vec<Value>, b: &Vec<Value>) -> (r: bool)
    ensures
        r == (views_of(a@) == views_of(b@)),
    decreases a, 0int,
{
    if a.len() != b.len() {
        proof {
            assert(views_of(a@).len() != views_of(b@).len());
        }
        return false;
    }
    let mut i: usize = 0;
    while i < a.len()
        invariant
            a@.len() == b@.len(),
            i <= a@.len(),
            forall|m: int| 0 <= m < i ==> views_of(a@)[m] == views_of(b@)[m],
        decreases a@.len() - i,
    {
        if !rep_eq(&a[i], &b[i]) {
            proof {
                assert(views_of(a@)[i as int] == value_view(a@[i as int]));
                assert(views_of(b@)[i as int] == value_view(b@[i as int]));
            }
            return false;
        }
        proof {
            assert(views_of(a@)[i as int] == value_view(a@[i as int]));
            assert(views_of(b@)[i as int] == value_view(b@[i as int]));
        }
        i = i + 1;
    }
    proof {
        assert(views_of(a@) =~= views_of(b@));
    }
    true
}

/// Whether two pair vectors hold equal pairs, in order.
fn pairs_eq(a: &Vec<(Value, Value)>, b: &Vec<(Value, Value)>) -> (r: bool)
    ensures
        r == (pair_views_of(a@) == pair_views_of(b@)),
    decreases a, 0int,
{
    if a.len() != b.len() {
        proof {
            assert(pair_views_of(a@).len() != pair_views_of(b@).len());
        }
        return false;
    }
    let mut i: usize = 0;
    while i < a.len()
        invariant
            a@.len() == b@.len(),
            i <= a@.len(),
            forall|m: int| 0 <= m < i ==> pair_views_of(a@)[m] == pair_views_of(b@)[m],
        decreases a@.len() - i,
    {
        let ke = rep_eq(&a[i].0, &b[i].0);
        if !ke {
            proof {
                assert(pair_views_of(a@)[i as int] == (
                    value_view(a@[i as int].0),
                    value_view(a@[i as int].1),
                ));
                assert(pair_views_of(b@)[i as int] == (
                    value_view(b@[i as int].0),
                    value_view(b@[i as int].1),
                ));
            }
            return false;
        }
        let ve = rep_eq(&a[i].1, &b[i].1);
        if !ve {
            proof {
                assert(pair_views_of(a@)[i as int] == (
                    value_view(a@[i as int].0),
                    value_view(a@[i as int].1),
                ));
                assert(pair_views_of(b@)[i as int] == (
                    value_view(b@[i as int].0),
                    value_view(b@[i as int].1),
                ));
            }
            return false;
        }
        proof {
            assert(pair_views_of(a@)[i as int] == (
                value_view(a@[i as int].0),
                value_view(a@[i as int].1),
            ));
            assert(pair_views_of(b@)[i as int] == (
                value_view(b@[i as int].0),
                value_view(b@[i as int].1),
            ));
        }
        i = i + 1;
    }
    proof {
        assert(pair_views_of(a@) =~= pair_views_of(b@));
    }
    true
}


} // verus!
