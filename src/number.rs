use vstd::prelude::*;
use crate::value::{CellView, Value, cell_view};

verus! {

/// Largest magnitude of a numerator or denominator that exact number operations take.
pub const RATIO_LIMIT: i128 = 0x7fff_ffff_ffff_ffff;

/// A number cell as a fraction `(numerator, denominator)` with a positive denominator:
/// an integer over one, or a fraction whose parts are within the range of `i64`.
pub open spec fn ratio_of(c: CellView) -> Option<(int, int)> {
    match c {
        CellView::Int(x) => Some((x, 1)),
        CellView::Frac(n, d) => if 0 < d <= RATIO_LIMIT && -RATIO_LIMIT - 1 <= n <= RATIO_LIMIT {
            Some((n, d))
        } else {
            None
        },
        _ => None,
    }
}

/// An integer or a fraction.
pub open spec fn is_number(c: CellView) -> bool {
    c is Int || c is Frac
}

/// `a <= b` for fractions with positive denominators.
pub open spec fn ratio_le(a: (int, int), b: (int, int)) -> bool {
    a.0 * b.1 <= b.0 * a.1
}

/// The fraction that a number value stands for.
pub fn ratio_value(v: &Value) -> (r: Option<(i128, i128)>)
    ensures
        r is Some <==> ratio_of(cell_view(*v)) is Some,
        r matches Some((n, d)) ==> -RATIO_LIMIT - 1 <= n <= RATIO_LIMIT && 0 < d <= RATIO_LIMIT,
        r matches Some((n, d)) ==> ratio_of(cell_view(*v)) == Some((n as int, d as int)),
{
    match v {
        Value::Int(x) => Some((*x as i128, 1)),
        Value::Frac(n, d) => if 0 < *d && *d <= RATIO_LIMIT && -RATIO_LIMIT - 1 <= *n && *n <= RATIO_LIMIT {
            Some((*n, *d))
        } else {
            None
        },
        _ => None,
    }
}

/// `a <= b` for fractions within `RATIO_LIMIT` with positive denominators.
pub fn ratio_le_exec(a: (i128, i128), b: (i128, i128)) -> (r: bool)
    requires
        -RATIO_LIMIT - 1 <= a.0 <= RATIO_LIMIT,
        -RATIO_LIMIT - 1 <= b.0 <= RATIO_LIMIT,
        0 < a.1 <= RATIO_LIMIT,
        0 < b.1 <= RATIO_LIMIT,
    ensures
        r == ratio_le((a.0 as int, a.1 as int), (b.0 as int, b.1 as int)),
{
    proof {
        lemma_ratio_products(a, b);
    }
    a.0 * b.1 <= b.0 * a.1
}

pub proof fn lemma_ratio_products(a: (i128, i128), b: (i128, i128))
    requires
        -RATIO_LIMIT - 1 <= a.0 <= RATIO_LIMIT,
        -RATIO_LIMIT - 1 <= b.0 <= RATIO_LIMIT,
        0 < a.1 <= RATIO_LIMIT,
        0 < b.1 <= RATIO_LIMIT,
    ensures
        -0x4000_0000_0000_0000_0000_0000_0000_0000 < a.0 * b.1 < 0x4000_0000_0000_0000_0000_0000_0000_0000,
        -0x4000_0000_0000_0000_0000_0000_0000_0000 < b.0 * a.1 < 0x4000_0000_0000_0000_0000_0000_0000_0000,
        -0x4000_0000_0000_0000_0000_0000_0000_0000 <= a.0 * b.0 <= 0x4000_0000_0000_0000_0000_0000_0000_0000,
        0 < a.1 * b.1 < 0x4000_0000_0000_0000_0000_0000_0000_0000,
{
    let l = RATIO_LIMIT as int;
    assert(-0x4000_0000_0000_0000_0000_0000_0000_0000 < a.0 * b.1 < 0x4000_0000_0000_0000_0000_0000_0000_0000) by (nonlinear_arith)
        requires -l - 1 <= a.0 <= l, 0 < b.1 <= l, l == 0x7fff_ffff_ffff_ffffint;
    assert(-0x4000_0000_0000_0000_0000_0000_0000_0000 < b.0 * a.1 < 0x4000_0000_0000_0000_0000_0000_0000_0000) by (nonlinear_arith)
        requires -l - 1 <= b.0 <= l, 0 < a.1 <= l, l == 0x7fff_ffff_ffff_ffffint;
    assert(-0x4000_0000_0000_0000_0000_0000_0000_0000 <= a.0 * b.0 <= 0x4000_0000_0000_0000_0000_0000_0000_0000) by (nonlinear_arith)
        requires -l - 1 <= a.0 <= l, -l - 1 <= b.0 <= l, l == 0x7fff_ffff_ffff_ffffint;
    assert(0 < a.1 * b.1 < 0x4000_0000_0000_0000_0000_0000_0000_0000) by (nonlinear_arith)
        requires 0 < a.1 <= l, 0 < b.1 <= l, l == 0x7fff_ffff_ffff_ffffint;
}

/// The order of fractions with positive denominators is total and transitive.
pub proof fn lemma_ratio_le_order(a: (int, int), b: (int, int), c: (int, int))
    requires
        a.1 > 0,
        b.1 > 0,
        c.1 > 0,
    ensures
        ratio_le(a, b) || ratio_le(b, a),
        ratio_le(a, b) && ratio_le(b, c) ==> ratio_le(a, c),
{
    if ratio_le(a, b) && ratio_le(b, c) {
        assert(a.0 * c.1 <= c.0 * a.1) by (nonlinear_arith)
            requires
                a.0 * b.1 <= b.0 * a.1,
                b.0 * c.1 <= c.0 * b.1,
                a.1 > 0,
                b.1 > 0,
                c.1 > 0,
        {
            assert(a.0 * b.1 * c.1 <= b.0 * a.1 * c.1);
            assert(b.0 * c.1 * a.1 <= c.0 * b.1 * a.1);
            assert(a.0 * c.1 * b.1 <= c.0 * a.1 * b.1);
        }
    }
}

} // verus!
