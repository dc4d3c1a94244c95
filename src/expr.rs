use vstd::prelude::*;
use crate::bucket::{bucket_label, bucket_label_frac, bucket_label_of, floor_div, frac_label_of};
use crate::table::{
    QueryError, Table, column_cells, find_column, has_column, row_count, table_wf,
};
use crate::geometry::{
    centroid_point, centroid_point_view, content_centroid, geometry_centroid, null_point,
    null_point_view,
    lemma_centroid_depends_on_content,
};
use crate::number::{
    RATIO_LIMIT, is_number, lemma_ratio_products, ratio_le, ratio_le_exec, ratio_of, ratio_value,
};
use crate::temporal::{parse_timestamp_year, timestamp_year};
use crate::text::{lower_of, to_lower, to_upper, upper_of};
use crate::value::{CellView, Value, cell_view, copy_value, deep_view};

verus! {

#[derive(Clone, Copy, Debug, PartialEq, Eq, Structural)]
pub enum ArithOp {
    Add,
    Sub,
    Mul,
    /// Division rounded toward negative infinity; division by zero gives null.
    FloorDiv,
}

/// An expression over the columns of a table, evaluated row by row.
#[derive(Debug)]
pub enum Expr {
    /// The cell of the named column.
    Col(String),
    /// An integer constant.
    Lit(i64),
    /// Exact arithmetic on integers and fractions; an integer result outside the `i64`
    /// range is null.
    Arith(ArithOp, Box<Expr>, Box<Expr>),
    /// `left > right` on integers and fractions.
    Gt(Box<Expr>, Box<Expr>),
    /// Whether the value is not null.
    IsNotNull(Box<Expr>),
    /// The label of the bucket of the given width that holds the integer value.
    Bucket(Box<Expr>, i64),
    /// The year of a timestamp text `YYYY-MM-DDTHH:MM:SSZ`.
    Year(Box<Expr>),
    /// The text in lower case.
    Lowercase(Box<Expr>),
    /// The text in upper case.
    Uppercase(Box<Expr>),
    /// The area-weighted centroid of a geometry, as a struct `{x, y}` of exact
    /// fractions; both parts null for a degenerate geometry; null for null.
    Centroid(Box<Expr>),
}

pub open spec fn arith_of(op: ArithOp, a: int, b: int) -> int {
    match op {
        ArithOp::Add => a + b,
        ArithOp::Sub => a - b,
        ArithOp::Mul => a * b,
        ArithOp::FloorDiv => if b > 0 {
            a / b
        } else {
            (-a) / (-b)
        },
    }
}

/// What the schema says of an expression before any row is read: the first
/// unknown column or non-positive bucket width, from the left, or none.
pub open spec fn expr_error(t: Seq<crate::table::ColView>, e: Expr) -> Option<QueryError>
    decreases e,
{
    match e {
        Expr::Col(n) => if has_column(t, n@) {
            None
        } else {
            Some(QueryError::UnknownColumn)
        },
        Expr::Lit(_) => None,
        Expr::Arith(_, a, b) => if expr_error(t, *a) is Some {
            expr_error(t, *a)
        } else {
            expr_error(t, *b)
        },
        Expr::Gt(a, b) => if expr_error(t, *a) is Some {
            expr_error(t, *a)
        } else {
            expr_error(t, *b)
        },
        Expr::IsNotNull(a) => expr_error(t, *a),
        Expr::Bucket(a, w) => if w <= 0 {
            Some(QueryError::InvalidWidth)
        } else {
            expr_error(t, *a)
        },
        Expr::Year(a) => expr_error(t, *a),
        Expr::Lowercase(a) => expr_error(t, *a),
        Expr::Uppercase(a) => expr_error(t, *a),
        Expr::Centroid(a) => expr_error(t, *a),
    }
}

pub open spec fn arith_cell(op: ArithOp, x: CellView, y: CellView) -> Result<CellView, QueryError> {
    if x is Null || y is Null {
        Ok(CellView::Null)
    } else if x is Int && y is Int {
        let r = arith_of(op, x->Int_0, y->Int_0);
        if op == ArithOp::FloorDiv && y->Int_0 == 0 {
            Ok(CellView::Null)
        } else if i64::MIN <= r <= i64::MAX {
            Ok(CellView::Int(r))
        } else {
            Ok(CellView::Null)
        }
    } else if is_number(x) && is_number(y) {
        match (ratio_of(x), ratio_of(y)) {
            (Some(a), Some(b)) => Ok(ratio_arith(op, a, b)),
            _ => Ok(CellView::Null),
        }
    } else {
        Err(QueryError::TypeMismatch)
    }
}

/// Exact arithmetic on fractions with positive denominators: sums, differences and
/// products as fractions; floor division as an integer, null when dividing by zero or
/// when the quotient leaves the range of `i64`.
pub open spec fn ratio_arith(op: ArithOp, a: (int, int), b: (int, int)) -> CellView {
    match op {
        ArithOp::Add => CellView::Frac(a.0 * b.1 + b.0 * a.1, a.1 * b.1),
        ArithOp::Sub => CellView::Frac(a.0 * b.1 - b.0 * a.1, a.1 * b.1),
        ArithOp::Mul => CellView::Frac(a.0 * b.0, a.1 * b.1),
        ArithOp::FloorDiv => if b.0 == 0 {
            CellView::Null
        } else {
            let q = arith_of(ArithOp::FloorDiv, a.0 * b.1, a.1 * b.0);
            if i64::MIN <= q <= i64::MAX {
                CellView::Int(q)
            } else {
                CellView::Null
            }
        },
    }
}


pub open spec fn gt_cell(x: CellView, y: CellView) -> Result<CellView, QueryError> {
    if x is Null || y is Null {
        Ok(CellView::Null)
    } else if is_number(x) && is_number(y) {
        match (ratio_of(x), ratio_of(y)) {
            (Some(a), Some(b)) => Ok(CellView::Bool(!ratio_le(a, b))),
            _ => Ok(CellView::Null),
        }
    } else {
        Err(QueryError::TypeMismatch)
    }
}

pub open spec fn bucket_cell(x: CellView, w: int) -> Result<CellView, QueryError> {
    match x {
        CellView::Null => Ok(CellView::Null),
        CellView::Int(v) => Ok(CellView::Str(bucket_label_of(v, w))),
        CellView::Frac(n, d) => if d > 0 {
            match frac_label_of(n, d, w) {
                Some(l) => Ok(CellView::Str(l)),
                None => Ok(CellView::Null),
            }
        } else {
            Err(QueryError::TypeMismatch)
        },
        _ => Err(QueryError::TypeMismatch),
    }
}

pub open spec fn year_cell(x: CellView) -> Result<CellView, QueryError> {
    match x {
        CellView::Null => Ok(CellView::Null),
        CellView::Str(s) => match timestamp_year(s) {
            Some(y) => Ok(CellView::Int(y)),
            None => Err(QueryError::ParseError),
        },
        _ => Err(QueryError::TypeMismatch),
    }
}

pub open spec fn case_cell(x: CellView, upper: bool) -> Result<CellView, QueryError> {
    match x {
        CellView::Null => Ok(CellView::Null),
        CellView::Str(s) => Ok(
            CellView::Str(
                if upper {
                    upper_of(s)
                } else {
                    lower_of(s)
                },
            ),
        ),
        _ => Err(QueryError::TypeMismatch),
    }
}

/// The centroid of a geometry cell: null for null, `{x: null, y: null}` for a geometry
/// without a centroid, an error for a scalar.
pub open spec fn centroid_cell(x: CellView) -> Result<CellView, QueryError> {
    match x {
        CellView::Null => Ok(CellView::Null),
        CellView::Nested(dv) => match content_centroid(dv) {
            Err(e) => Err(e),
            Ok(None) => Ok(CellView::Nested(null_point_view())),
            Ok(Some(c)) => Ok(CellView::Nested(centroid_point_view(c))),
        },
        _ => Err(QueryError::ParseError),
    }
}

/// The value of `e` at row `row` of `t`; the left operand's error comes first.
pub open spec fn eval_spec(t: Seq<crate::table::ColView>, e: Expr, row: int) -> Result<
    CellView,
    QueryError,
>
    decreases e,
{
    match e {
        Expr::Col(n) => Ok(column_cells(t, n@)[row]),
        Expr::Lit(v) => Ok(CellView::Int(v as int)),
        Expr::Arith(op, a, b) => match eval_spec(t, *a, row) {
            Err(x) => Err(x),
            Ok(x) => match eval_spec(t, *b, row) {
                Err(y) => Err(y),
                Ok(y) => arith_cell(op, x, y),
            },
        },
        Expr::Gt(a, b) => match eval_spec(t, *a, row) {
            Err(x) => Err(x),
            Ok(x) => match eval_spec(t, *b, row) {
                Err(y) => Err(y),
                Ok(y) => gt_cell(x, y),
            },
        },
        Expr::IsNotNull(a) => match eval_spec(t, *a, row) {
            Err(x) => Err(x),
            Ok(x) => Ok(CellView::Bool(!(x is Null))),
        },
        Expr::Bucket(a, w) => match eval_spec(t, *a, row) {
            Err(x) => Err(x),
            Ok(x) => bucket_cell(x, w as int),
        },
        Expr::Year(a) => match eval_spec(t, *a, row) {
            Err(x) => Err(x),
            Ok(x) => year_cell(x),
        },
        Expr::Lowercase(a) => match eval_spec(t, *a, row) {
            Err(x) => Err(x),
            Ok(x) => case_cell(x, false),
        },
        Expr::Uppercase(a) => match eval_spec(t, *a, row) {
            Err(x) => Err(x),
            Ok(x) => case_cell(x, true),
        },
        Expr::Centroid(a) => match eval_spec(t, *a, row) {
            Err(x) => Err(x),
            Ok(x) => centroid_cell(x),
        },
    }
}

/// The values of `e` on the first `k` rows, or the error of the first row that fails.
pub open spec fn eval_rows(t: Seq<crate::table::ColView>, e: Expr, k: int) -> Result<
    Seq<CellView>,
    QueryError,
>
    decreases k,
{
    if k <= 0 {
        Ok(seq![])
    } else {
        match eval_rows(t, e, k - 1) {
            Err(x) => Err(x),
            Ok(s) => match eval_spec(t, e, k - 1) {
                Err(x) => Err(x),
                Ok(c) => Ok(s.push(c)),
            },
        }
    }
}

proof fn lemma_eval_rows_error_stays(t: Seq<crate::table::ColView>, e: Expr, k: int, m: int)
    requires
        k <= m,
        eval_rows(t, e, k) is Err,
    ensures
        eval_rows(t, e, m) == eval_rows(t, e, k),
    decreases m - k,
{
    if k < m {
        lemma_eval_rows_error_stays(t, e, k, m - 1);
    }
}

/// An executable value agrees with a specified outcome.
pub open spec fn value_outcome(r: Result<Value, QueryError>, s: Result<CellView, QueryError>) -> bool {
    match r {
        Ok(v) => s == Ok::<CellView, QueryError>(cell_view(v)),
        Err(x) => s == Err::<CellView, QueryError>(x),
    }
}

/// Checks `e` against the columns of `t` before any row is read.
pub fn check_expr(t: &Table, e: &Expr) -> (r: Option<QueryError>)
    requires
        table_wf(t@),
    ensures
        r == expr_error(t@, *e),
    decreases e,
{
    match e {
        Expr::Col(n) => match find_column(t, n) {
            Some(_) => None,
            None => Some(QueryError::UnknownColumn),
        },
        Expr::Lit(_) => None,
        Expr::Arith(_, a, b) => {
            let ea = check_expr(t, a);
            if ea.is_some() {
                ea
            } else {
                check_expr(t, b)
            }
        },
        Expr::Gt(a, b) => {
            let ea = check_expr(t, a);
            if ea.is_some() {
                ea
            } else {
                check_expr(t, b)
            }
        },
        Expr::IsNotNull(a) => check_expr(t, a),
        Expr::Bucket(a, w) => if *w <= 0 {
            Some(QueryError::InvalidWidth)
        } else {
            check_expr(t, a)
        },
        Expr::Year(a) => check_expr(t, a),
        Expr::Lowercase(a) => check_expr(t, a),
        Expr::Uppercase(a) => check_expr(t, a),
        Expr::Centroid(a) => check_expr(t, a),
    }
}

fn arith_value(op: ArithOp, x: Value, y: Value) -> (r: Result<Value, QueryError>)
    ensures
        value_outcome(r, arith_cell(op, cell_view(x), cell_view(y))),
{
    match (x, y) {
        (Value::Null, _) => Ok(Value::Null),
        (_, Value::Null) => Ok(Value::Null),
        (Value::Int(a), Value::Int(b)) => {
            let wa = a as i128;
            let wb = b as i128;
            let w: i128 = match op {
                ArithOp::Add => wa + wb,
                ArithOp::Sub => wa - wb,
                ArithOp::FloorDiv => {
                    if wb == 0 {
                        return Ok(Value::Null);
                    } else if wb > 0 {
                        floor_div(wa, wb)
                    } else {
                        floor_div(-wa, -wb)
                    }
                },
                ArithOp::Mul => {
                    assert(-0x4000_0000_0000_0000_0000_0000_0000_0000 <= wa * wb
                        <= 0x4000_0000_0000_0000_0000_0000_0000_0000) by (nonlinear_arith)
                        requires
                            -0x8000_0000_0000_0000 <= wa <= 0x8000_0000_0000_0000,
                            -0x8000_0000_0000_0000 <= wb <= 0x8000_0000_0000_0000,
                    ;
                    wa * wb
                },
            };
            if i64::MIN as i128 <= w && w <= i64::MAX as i128 {
                Ok(Value::Int(w as i64))
            } else {
                Ok(Value::Null)
            }
        },
        (x, y) => {
            if !(is_number_value(&x) && is_number_value(&y)) {
                return Err(QueryError::TypeMismatch);
            }
            match (ratio_value(&x), ratio_value(&y)) {
                (Some(a), Some(b)) => Ok(ratio_arith_value(op, a, b)),
                _ => Ok(Value::Null),
            }
        },
    }
}

fn is_number_value(v: &Value) -> (r: bool)
    ensures
        r == is_number(cell_view(*v)),
{
    matches!(v, Value::Int(_) | Value::Frac(_, _))
}

fn ratio_arith_value(op: ArithOp, a: (i128, i128), b: (i128, i128)) -> (r: Value)
    requires
        -RATIO_LIMIT - 1 <= a.0 <= RATIO_LIMIT,
        -RATIO_LIMIT - 1 <= b.0 <= RATIO_LIMIT,
        0 < a.1 <= RATIO_LIMIT,
        0 < b.1 <= RATIO_LIMIT,
    ensures
        cell_view(r) == ratio_arith(op, (a.0 as int, a.1 as int), (b.0 as int, b.1 as int)),
{
    proof {
        lemma_ratio_products(a, b);
    }
    let (an, ad) = a;
    let (bn, bd) = b;
    match op {
        ArithOp::Add => Value::Frac(an * bd + bn * ad, ad * bd),
        ArithOp::Sub => Value::Frac(an * bd - bn * ad, ad * bd),
        ArithOp::Mul => Value::Frac(an * bn, ad * bd),
        ArithOp::FloorDiv => {
            if bn == 0 {
                return Value::Null;
            }
            let num = an * bd;
            assert(ad * bn != 0) by (nonlinear_arith)
                requires
                    ad > 0,
                    bn != 0,
            ;
            assert(-0x4000_0000_0000_0000_0000_0000_0000_0000 <= ad * bn <= 0x4000_0000_0000_0000_0000_0000_0000_0000) by (nonlinear_arith)
                requires
                    0 < ad <= 0x7fff_ffff_ffff_ffff,
                    -0x8000_0000_0000_0000 <= bn <= 0x7fff_ffff_ffff_ffff,
            ;
            let den = ad * bn;
            let q = if den > 0 {
                floor_div(num, den)
            } else {
                floor_div(-num, -den)
            };
            if i64::MIN as i128 <= q && q <= i64::MAX as i128 {
                Value::Int(q as i64)
            } else {
                Value::Null
            }
        },
    }
}

fn gt_value(x: Value, y: Value) -> (r: Result<Value, QueryError>)
    ensures
        value_outcome(r, gt_cell(cell_view(x), cell_view(y))),
{
    match (x, y) {
        (Value::Null, _) => Ok(Value::Null),
        (_, Value::Null) => Ok(Value::Null),
        (x, y) => {
            if !(is_number_value(&x) && is_number_value(&y)) {
                return Err(QueryError::TypeMismatch);
            }
            match (ratio_value(&x), ratio_value(&y)) {
                (Some(a), Some(b)) => Ok(Value::Bool(!ratio_le_exec(a, b))),
                _ => Ok(Value::Null),
            }
        },
    }
}

/// The value of `e` at row `row` of `t`.
pub fn eval_row(t: &Table, e: &Expr, row: usize) -> (r: Result<Value, QueryError>)
    requires
        table_wf(t@),
        expr_error(t@, *e) is None,
        row < row_count(t@),
    ensures
        value_outcome(r, eval_spec(t@, *e, row as int)),
    decreases e,
{
    match e {
        Expr::Col(n) => {
            let i = find_column(t, n).unwrap();
            assert(t@[i as int].cells.len() == row_count(t@));
            Ok(copy_value(&t.columns[i].values[row]))
        },
        Expr::Lit(v) => Ok(Value::Int(*v)),
        Expr::Arith(op, a, b) => {
            let x = eval_row(t, a, row)?;
            let y = eval_row(t, b, row)?;
            arith_value(*op, x, y)
        },
        Expr::Gt(a, b) => {
            let x = eval_row(t, a, row)?;
            let y = eval_row(t, b, row)?;
            gt_value(x, y)
        },
        Expr::IsNotNull(a) => {
            let x = eval_row(t, a, row)?;
            Ok(Value::Bool(!matches!(x, Value::Null)))
        },
        Expr::Bucket(a, w) => {
            let x = eval_row(t, a, row)?;
            match x {
                Value::Null => Ok(Value::Null),
                Value::Int(v) => Ok(Value::Str(bucket_label(v, *w))),
                Value::Frac(n, d) => if d > 0 {
                    match bucket_label_frac(n, d, *w) {
                        Some(l) => Ok(Value::Str(l)),
                        None => Ok(Value::Null),
                    }
                } else {
                    Err(QueryError::TypeMismatch)
                },
                _ => Err(QueryError::TypeMismatch),
            }
        },
        Expr::Year(a) => {
            let x = eval_row(t, a, row)?;
            match x {
                Value::Null => Ok(Value::Null),
                Value::Str(s) => match parse_timestamp_year(s.as_str()) {
                    Some(y) => Ok(Value::Int(y)),
                    None => Err(QueryError::ParseError),
                },
                _ => Err(QueryError::TypeMismatch),
            }
        },
        Expr::Lowercase(a) => {
            let x = eval_row(t, a, row)?;
            match x {
                Value::Null => Ok(Value::Null),
                Value::Str(s) => Ok(Value::Str(to_lower(&s))),
                _ => Err(QueryError::TypeMismatch),
            }
        },
        Expr::Uppercase(a) => {
            let x = eval_row(t, a, row)?;
            match x {
                Value::Null => Ok(Value::Null),
                Value::Str(s) => Ok(Value::Str(to_upper(&s))),
                _ => Err(QueryError::TypeMismatch),
            }
        },
        Expr::Centroid(a) => {
            let x = eval_row(t, a, row)?;
            proof {
                if cell_view(x) is Nested {
                    assert(deep_view(x) == deep_view(x));
                    let g = choose|g: Value| deep_view(g) == deep_view(x);
                    lemma_centroid_depends_on_content(x, g);
                }
            }
            if matches!(x, Value::Null) {
                return Ok(Value::Null);
            }
            match geometry_centroid(&x) {
                Err(e) => Err(e),
                Ok(None) => Ok(null_point()),
                Ok(Some(c)) => Ok(centroid_point(c)),
            }
        },
    }
}

/// The values of `e` on every row of `t`, or the error of the first row that fails.
pub fn eval_column(t: &Table, e: &Expr) -> (r: Result<Vec<Value>, QueryError>)
    requires
        table_wf(t@),
        expr_error(t@, *e) is None,
    ensures
        r is Ok ==> r->Ok_0@.len() == row_count(t@),
        match r {
            Ok(vals) => eval_rows(t@, *e, row_count(t@)) == Ok::<Seq<CellView>, QueryError>(
                vals@.map_values(|v: Value| cell_view(v)),
            ),
            Err(x) => eval_rows(t@, *e, row_count(t@)) == Err::<Seq<CellView>, QueryError>(x),
        },
{
    let n = t.height();
    let mut out: Vec<Value> = Vec::new();
    let mut i: usize = 0;
    assert(out@.map_values(|v: Value| cell_view(v)) =~= Seq::<CellView>::empty());
    while i < n
        invariant
            table_wf(t@),
            expr_error(t@, *e) is None,
            n == row_count(t@),
            i <= n,
            out@.len() == i,
            eval_rows(t@, *e, i as int) == Ok::<Seq<CellView>, QueryError>(
                out@.map_values(|v: Value| cell_view(v)),
            ),
        decreases n - i,
    {
        let v = eval_row(t, e, i);
        let ghost before = out@.map_values(|v: Value| cell_view(v));
        match v {
            Ok(v) => {
                let ghost c = cell_view(v);
                out.push(v);
                proof {
                    assert(out@.map_values(|v: Value| cell_view(v)) =~= before.push(c));
                }
            },
            Err(x) => {
                proof {
                    lemma_eval_rows_error_stays(t@, *e, i as int + 1, n as int);
                }
                return Err(x);
            },
        }
        i = i + 1;
    }
    Ok(out)
}

/// A null operand gives a null result, never a default value: for arithmetic and
/// comparison on either side, for bucketing, year extraction, case mapping and centroids.
pub proof fn lemma_null_propagates(t: Seq<crate::table::ColView>, e: Expr, row: int)
    requires
        match e {
            Expr::Arith(_, a, b) => (eval_spec(t, *a, row) == Ok::<CellView, QueryError>(
                CellView::Null,
            ) && eval_spec(t, *b, row) is Ok) || (eval_spec(t, *a, row) is Ok && eval_spec(
                t,
                *b,
                row,
            ) == Ok::<CellView, QueryError>(CellView::Null)),
            Expr::Gt(a, b) => (eval_spec(t, *a, row) == Ok::<CellView, QueryError>(CellView::Null)
                && eval_spec(t, *b, row) is Ok) || (eval_spec(t, *a, row) is Ok && eval_spec(
                t,
                *b,
                row,
            ) == Ok::<CellView, QueryError>(CellView::Null)),
            Expr::Bucket(a, _) => eval_spec(t, *a, row) == Ok::<CellView, QueryError>(
                CellView::Null,
            ),
            Expr::Year(a) => eval_spec(t, *a, row) == Ok::<CellView, QueryError>(CellView::Null),
            Expr::Lowercase(a) => eval_spec(t, *a, row) == Ok::<CellView, QueryError>(CellView::Null),
            Expr::Uppercase(a) => eval_spec(t, *a, row) == Ok::<CellView, QueryError>(CellView::Null),
            Expr::Centroid(a) => eval_spec(t, *a, row) == Ok::<CellView, QueryError>(CellView::Null),
            _ => false,
        },
    ensures
        eval_spec(t, e, row) == Ok::<CellView, QueryError>(CellView::Null),
{
}

} // verus!
