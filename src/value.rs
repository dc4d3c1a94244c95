use vstd::prelude::*;

verus! {

/// A cell value: a scalar, or a nested list or struct (geometry, attribute records).
#[derive(Debug, PartialEq)]
pub enum Value {
    Null,
    Bool(bool),
    Int(i64),
    /// The exact fraction `numerator / denominator`; operations take it only with a
    /// positive denominator.
    Frac(i128, i128),
    Str(String),
    List(Vec<Value>),
    /// Named members, in order.
    Struct(Vec<(String, Value)>),
}

/// The whole content of a value, nested lists and structs included.
pub enum ValueView {
    Null,
    Bool(bool),
    Int(int),
    Frac(int, int),
    Str(Seq<char>),
    List(Seq<ValueView>),
    Struct(Seq<(Seq<char>, ValueView)>),
}

/// What a value holds, all the way down.
pub open spec fn deep_view(v: Value) -> ValueView
    decreases v,
{
    match v {
        Value::Null => ValueView::Null,
        Value::Bool(b) => ValueView::Bool(b),
        Value::Int(i) => ValueView::Int(i as int),
        Value::Frac(n, d) => ValueView::Frac(n as int, d as int),
        Value::Str(s) => ValueView::Str(s@),
        Value::List(items) => ValueView::List(
            Seq::new(items@.len(), |i: int| if 0 <= i < items@.len() { deep_view(items@[i]) } else { ValueView::Null }),
        ),
        Value::Struct(fs) => ValueView::Struct(
            Seq::new(fs@.len(), |i: int| if 0 <= i < fs@.len() { (fs@[i].0@, deep_view(fs@[i].1)) } else { (Seq::empty(), ValueView::Null) }),
        ),
    }
}

/// What the query contracts see of a cell: scalars exactly, nested values by content.
pub enum CellView {
    Null,
    Bool(bool),
    Int(int),
    Frac(int, int),
    Str(Seq<char>),
    Nested(ValueView),
}

pub open spec fn cell_view(v: Value) -> CellView {
    match v {
        Value::Null => CellView::Null,
        Value::Bool(b) => CellView::Bool(b),
        Value::Int(i) => CellView::Int(i as int),
        Value::Frac(n, d) => CellView::Frac(n as int, d as int),
        Value::Str(s) => CellView::Str(s@),
        Value::List(_) => CellView::Nested(deep_view(v)),
        Value::Struct(_) => CellView::Nested(deep_view(v)),
    }
}

pub open spec fn is_scalar(c: CellView) -> bool {
    !(c is Nested)
}

pub open spec fn is_scalar_value(v: Value) -> bool {
    is_scalar(cell_view(v))
}

/// Two values that look the same as cells have the same content.
pub proof fn lemma_cell_view_content(a: Value, b: Value)
    requires
        cell_view(a) == cell_view(b),
    ensures
        deep_view(a) == deep_view(b),
{
}

/// A deep copy of a value.
pub fn copy_value(v: &Value) -> (r: Value)
    ensures
        deep_view(r) == deep_view(*v),
        cell_view(r) == cell_view(*v),
    decreases v,
{
    match v {
        Value::Null => Value::Null,
        Value::Bool(b) => Value::Bool(*b),
        Value::Int(i) => Value::Int(*i),
        Value::Frac(n, d) => Value::Frac(*n, *d),
        Value::Str(s) => Value::Str(s.clone()),
        Value::List(items) => {
            let mut out: Vec<Value> = Vec::new();
            let mut i: usize = 0;
            while i < items.len()
                invariant
                    *v == Value::List(*items),
                    i <= items@.len(),
                    out@.len() == i,
                    forall|k: int| 0 <= k < i ==> deep_view(#[trigger] out@[k]) == deep_view(items@[k]),
                decreases items.len() - i,
            {
                proof {
                    assert(decreases_to!(*v => (*v)->List_0));
                    assert(decreases_to!(*items => items[i as int]));
                    assert(decreases_to!(*v => items[i as int]));
                }
                out.push(copy_value(&items[i]));
                i = i + 1;
            }
            let ghost a = Seq::new(
                out@.len(),
                |i: int|
                    if 0 <= i < out@.len() {
                        deep_view(out@[i])
                    } else {
                        ValueView::Null
                    },
            );
            let ghost b = Seq::new(
                items@.len(),
                |i: int|
                    if 0 <= i < items@.len() {
                        deep_view(items@[i])
                    } else {
                        ValueView::Null
                    },
            );
            assert(a =~= b);
            let r = Value::List(out);
            assert(deep_view(r) is List);
            assert(deep_view(r)->List_0.len() == a.len());
            assert(deep_view(r)->List_0 =~= a);
            assert(deep_view(*v)->List_0 =~= b);
            r
        },
        Value::Struct(fields) => {
            let mut out: Vec<(String, Value)> = Vec::new();
            let mut i: usize = 0;
            while i < fields.len()
                invariant
                    *v == Value::Struct(*fields),
                    i <= fields@.len(),
                    out@.len() == i,
                    forall|k: int| 0 <= k < i ==> (#[trigger] out@[k]).0@ == fields@[k].0@ && deep_view(out@[k].1) == deep_view(fields@[k].1),
                decreases fields.len() - i,
            {
                proof {
                    assert(decreases_to!(*v => (*v)->Struct_0));
                    assert(decreases_to!(*fields => fields[i as int]));
                    assert(decreases_to!(fields[i as int] => fields[i as int].1));
                    assert(decreases_to!(*v => fields[i as int].1));
                }
                let name = fields[i].0.clone();
                out.push((name, copy_value(&fields[i].1)));
                i = i + 1;
            }
            let ghost a = Seq::new(
                out@.len(),
                |i: int|
                    if 0 <= i < out@.len() {
                        (out@[i].0@, deep_view(out@[i].1))
                    } else {
                        (Seq::<char>::empty(), ValueView::Null)
                    },
            );
            let ghost b = Seq::new(
                fields@.len(),
                |i: int|
                    if 0 <= i < fields@.len() {
                        (fields@[i].0@, deep_view(fields@[i].1))
                    } else {
                        (Seq::<char>::empty(), ValueView::Null)
                    },
            );
            assert(a =~= b);
            let r = Value::Struct(out);
            assert(deep_view(r)->Struct_0 =~= a);
            assert(deep_view(*v)->Struct_0 =~= b);
            r
        },
    }
}

/// Equality of two scalar cells, as `cell_view` shows them.
pub fn same_scalar(a: &Value, b: &Value) -> (r: bool)
    requires
        is_scalar(cell_view(*a)),
        is_scalar(cell_view(*b)),
    ensures
        r == (cell_view(*a) == cell_view(*b)),
{
    match (a, b) {
        (Value::Null, Value::Null) => true,
        (Value::Bool(x), Value::Bool(y)) => *x == *y,
        (Value::Int(x), Value::Int(y)) => *x == *y,
        (Value::Frac(a, b), Value::Frac(c, d)) => *a == *c && *b == *d,
        (Value::Str(x), Value::Str(y)) => *x == *y,
        _ => false,
    }
}

} // verus!
