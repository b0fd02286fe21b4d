//! Operations on values: equality, copying, and a type's default.
use crate::schema::{FloatMode, Schema, Val, Value};
use crate::wire::default_of;
use vstd::prelude::*;

verus! {

broadcast use vstd::std_specs::vec::group_vec_axioms;

/// The model of an optional borrowed value.
pub open spec fn opt_view(p: Option<&Value>) -> Option<Val> {
    match p {
        Some(v) => Some(v@),
        None => None,
    }
}

/// The models of a sequence of values.
pub open spec fn items_view(xs: Seq<Value>) -> Seq<Val> {
    Seq::new(xs.len(), |i: int| xs[i]@)
}

/// The model of a list of items is the list of their models.
pub proof fn lemma_items_view(v: Value)
    requires
        v is Items,
    ensures
        v@ == Val::Items(items_view(v->Items_0@)),
{
    let m = v@;
    assert(m->Items_0 =~= items_view(v->Items_0@));
}

/// Structural equality of two values.
pub fn same_value(a: &Value, b: &Value) -> (r: bool)
    ensures
        r == (a@ == b@),
    decreases a,
{
    match (a, b) {
        (Value::Bool(x), Value::Bool(y)) => *x == *y,
        (Value::Int(x), Value::Int(y)) => *x == *y,
        (Value::Float(x), Value::Float(y)) => *x == *y,
        (Value::Real { bits: x, scaled: s }, Value::Real { bits: y, scaled: t }) => *x == *y && *s
            == *t,
        (Value::Fixed(x), Value::Fixed(y)) => *x == *y,
        (Value::Items(xs), Value::Items(ys)) => {
            if xs.len() != ys.len() {
                proof {
                    let (ma, mb) = (a@, b@);
                    assert(ma->Items_0.len() != mb->Items_0.len());
                }
                return false;
            }
            let mut i: usize = 0;
            while i < xs.len()
                invariant
                    *a == Value::Items(*xs),
                    *b == Value::Items(*ys),
                    xs.len() == ys.len(),
                    0 <= i <= xs.len(),
                    forall|j: int| 0 <= j < i ==> xs@[j]@ == ys@[j]@,
                decreases xs.len() - i,
            {
                if !same_value(&xs[i], &ys[i]) {
                    proof {
                        let (ma, mb) = (a@, b@);
                        assert(ma->Items_0[i as int] != mb->Items_0[i as int]);
                    }
                    return false;
                }
                i = i + 1;
            }
            proof {
                let (ma, mb) = (a@, b@);
                assert(ma->Items_0 =~= mb->Items_0);
            }
            true
        },
        (Value::Variant(i, x), Value::Variant(j, y)) => *i == *j && same_value(x, y),
        (Value::Opt(None), Value::Opt(None)) => true,
        (Value::Opt(Some(x)), Value::Opt(Some(y))) => same_value(x, y),
        _ => false,
    }
}

/// A copy of a value.
pub fn copy_value(a: &Value) -> (r: Value)
    ensures
        r@ == a@,
    decreases a,
{
    match a {
        Value::Bool(x) => Value::Bool(*x),
        Value::Int(x) => Value::Int(*x),
        Value::Float(x) => Value::Float(*x),
        Value::Real { bits, scaled } => Value::Real { bits: *bits, scaled: *scaled },
        Value::Fixed(x) => Value::Fixed(*x),
        Value::Items(xs) => {
            let mut out: Vec<Value> = Vec::new();
            let mut i: usize = 0;
            while i < xs.len()
                invariant
                    *a == Value::Items(*xs),
                    0 <= i <= xs.len(),
                    out.len() == i,
                    forall|j: int| 0 <= j < i ==> out@[j]@ == xs@[j]@,
                decreases xs.len() - i,
            {
                proof {
                    assert(decreases_to!(*a => (*a)->Items_0));
                }
                let x = copy_value(&xs[i]);
                out.push(x);
                i = i + 1;
            }
            let r = Value::Items(out);
            proof {
                let (mr, ma) = (r@, a@);
                assert(mr->Items_0 =~= ma->Items_0);
            }
            r
        },
        Value::Variant(i, x) => Value::Variant(*i, Box::new(copy_value(x))),
        Value::Opt(None) => Value::Opt(None),
        Value::Opt(Some(x)) => Value::Opt(Some(Box::new(copy_value(x)))),
    }
}

/// The value that a `default` field of this schema reads back as.
pub fn default_value(s: &Schema) -> (r: Value)
    ensures
        r@ == default_of(*s),
    decreases s,
{
    match s {
        Schema::Bool => Value::Bool(false),
        Schema::Int(_) => Value::Int(0),
        Schema::Float(c) => match c.mode {
            FloatMode::Raw => Value::Float(0),
            _ => Value::Real { bits: 0, scaled: 0 },
        },
        Schema::Record { complete, fields } => {
            let mut out: Vec<Value> = Vec::new();
            let mut i: usize = 0;
            while i < fields.len()
                invariant
                    *s == (Schema::Record { complete: *complete, fields: *fields }),
                    0 <= i <= fields.len(),
                    out.len() == i,
                    forall|j: int| 0 <= j < i ==> out@[j]@ == default_of(fields@[j]),
                decreases fields.len() - i,
            {
                proof {
                    assert(decreases_to!(*s => (*s)->Record_fields));
                }
                let x = default_value(&fields[i]);
                out.push(x);
                i = i + 1;
            }
            let r = Value::Items(out);
            proof {
                let (mr, md) = (r@, default_of(*s));
                assert(mr->Items_0 =~= md->Items_0);
            }
            r
        },
        Schema::Union { variants, .. } => {
            if variants.len() > 0 {
                Value::Variant(0, Box::new(default_value(&variants[0])))
            } else {
                Value::Bool(false)
            }
        },
        Schema::Array { len, elem } => {
            let mut out: Vec<Value> = Vec::new();
            let mut i: usize = 0;
            while i < *len
                invariant
                    *s == (Schema::Array { len: *len, elem: *elem }),
                    0 <= i <= *len,
                    out.len() == i,
                    forall|j: int| 0 <= j < i ==> out@[j]@ == default_of(**elem),
                decreases *len - i,
            {
                proof {
                    assert(decreases_to!(*s => (*s)->Array_elem));
                }
                let x = default_value(elem);
                out.push(x);
                i = i + 1;
            }
            let r = Value::Items(out);
            proof {
                let (mr, md) = (r@, default_of(*s));
                assert(mr->Items_0 =~= md->Items_0);
            }
            r
        },
        Schema::Opt(_) => Value::Opt(None),
        Schema::List { .. } => {
            let r = Value::Items(Vec::new());
            proof {
                let (mr, md) = (r@, default_of(*s));
                assert(mr->Items_0 =~= md->Items_0);
            }
            r
        },
        Schema::Default(inner) => default_value(inner),
    }
}

} // verus!
