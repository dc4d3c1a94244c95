use vstd::prelude::*;
use crate::text::{append_int, int_text};

verus! {

/// Index of the bucket of width `w` that holds `v`: `v / w` rounded toward negative infinity.
pub open spec fn bucket_index_of(v: int, w: int) -> int {
    v / w
}

/// Lower bound of the bucket of width `w` that holds `v`.
pub open spec fn bucket_low(v: int, w: int) -> int {
    bucket_index_of(v, w) * w
}

/// Label of the bucket of width `w` that holds `v`: "{low}-{low + w}".
pub open spec fn bucket_label_of(v: int, w: int) -> Seq<char> {
    int_text(bucket_low(v, w)) + seq!['-'] + int_text(bucket_low(v, w) + w)
}

/// Floor division of `v` by the bin width `w`.
pub fn bucket_index(v: i64, w: i64) -> (r: i64)
    requires
        w > 0,
    ensures
        r == bucket_index_of(v as int, w as int),
{
    if v >= 0 {
        let q = (v as u64) / (w as u64);
        q as i64
    } else {
        let a: u64 = (-(v + 1)) as u64;
        let q = a / (w as u64);
        proof {
            let k = -(q as int) - 1;
            let r = a as int % w as int;
            assert(a as int == q as int * w as int + r) by (nonlinear_arith)
                requires
                    q as int == a as int / w as int,
                    r == a as int % w as int,
                    w > 0,
            ;
            assert(k * w <= v < k * w + w) by (nonlinear_arith)
                requires
                    k == -(q as int) - 1,
                    a as int == q as int * w as int + r,
                    0 <= r < w,
                    a as int == -(v + 1),
            ;
            lemma_bucket_contains(v as int, w as int);
        }
        -(q as i64) - 1
    }
}

/// The label "{low}-{high}" of the bucket of width `w` that holds `v`.
pub fn bucket_label(v: i64, w: i64) -> (r: String)
    requires
        w > 0,
    ensures
        r@ == bucket_label_of(v as int, w as int),
{
    let idx = bucket_index(v, w);
    proof {
        lemma_bucket_contains(v as int, w as int);
    }
    let low: i128 = idx as i128 * w as i128;
    let high: i128 = low + w as i128;
    let mut s = String::new();
    append_int(&mut s, low);
    proof {
        reveal_strlit("-");
    }
    s.append("-");
    append_int(&mut s, high);
    s
}

/// Every value lies in the bucket that `bucket_index_of` names, and in no other:
/// buckets of one width are contiguous and never overlap.
pub proof fn lemma_bucket_contains(v: int, w: int)
    requires
        w > 0,
    ensures
        bucket_low(v, w) <= v < bucket_low(v, w) + w,
        forall|k: int| #[trigger] (k * w) <= v < k * w + w ==> k == bucket_index_of(v, w),
{
    let q = v / w;
    assert(q * w <= v < q * w + w) by (nonlinear_arith)
        requires
            q == v / w,
            w > 0,
    ;
    assert forall|k: int| #[trigger] (k * w) <= v < k * w + w implies k == bucket_index_of(v, w) by {
        if k < q {
            assert(k * w + w <= q * w) by (nonlinear_arith)
                requires
                    k < q,
                    w > 0,
            ;
        } else if k > q {
            assert(q * w + w <= k * w) by (nonlinear_arith)
                requires
                    k > q,
                    w > 0,
            ;
        }
    }
}

/// `num / d` rounded toward negative infinity.
pub(crate) fn floor_div(num: i128, d: i128) -> (r: i128)
    requires
        d > 0,
    ensures
        r == num as int / d as int,
{
    if num >= 0 {
        ((num as u128) / (d as u128)) as i128
    } else {
        let a: u128 = (-(num + 1)) as u128;
        let q = a / (d as u128);
        proof {
            let k = -(q as int) - 1;
            let rm = a as int % d as int;
            assert(a as int == q as int * d as int + rm) by (nonlinear_arith)
                requires
                    q as int == a as int / d as int,
                    rm == a as int % d as int,
                    d > 0,
            ;
            assert(k * d <= num < k * d + d) by (nonlinear_arith)
                requires
                    k == -(q as int) - 1,
                    a as int == q as int * d as int + rm,
                    0 <= rm < d,
                    a as int == -(num + 1),
            ;
            lemma_bucket_contains(num as int, d as int);
        }
        -(q as i128) - 1
    }
}

/// Largest magnitude of a fraction's numerator that bucketing takes.
pub const FRAC_LIMIT: i128 = 0x4000_0000_0000_0000_0000_0000_0000_0000;

/// The label "{k*w}-{k*w + w}" of bucket `k` of width `w`.
pub open spec fn index_label(k: int, w: int) -> Seq<char> {
    int_text(k * w) + seq!['-'] + int_text(k * w + w)
}

/// The label of the bucket of width `w` that holds the fraction `n / d` (with `d > 0`):
/// bucket `floor(n / (d * w))`; none when the numerator or the denominator is out of
/// range.
pub open spec fn frac_label_of(n: int, d: int, w: int) -> Option<Seq<char>> {
    if -FRAC_LIMIT <= n <= FRAC_LIMIT && d <= i64::MAX {
        Some(index_label(n / (d * w), w))
    } else {
        None
    }
}

/// The label of the bucket of width `w` that holds the fraction `n / d`; none when
/// the numerator or the denominator is out of range.
pub fn bucket_label_frac(n: i128, d: i128, w: i64) -> (r: Option<String>)
    requires
        d > 0,
        w > 0,
    ensures
        r is Some <==> frac_label_of(n as int, d as int, w as int) is Some,
        r is Some ==> r->0@ == frac_label_of(n as int, d as int, w as int)->0,
{
    if n < -FRAC_LIMIT || n > FRAC_LIMIT || d > 0x7fff_ffff_ffff_ffff {
        return None;
    }
    assert(0 < d as int * w as int <= 0x4000_0000_0000_0000_0000_0000_0000_0000) by (nonlinear_arith)
        requires
            0 < d <= 0x7fff_ffff_ffff_ffff,
            0 < w <= 0x7fff_ffff_ffff_ffff,
    ;
    let dw: i128 = d as i128 * w as i128;
    let idx = floor_div(n, dw);
    proof {
        lemma_bucket_contains(n as int, dw as int);
        assert(idx * dw <= n) by {
            assert(bucket_low(n as int, dw as int) == idx * dw);
        }
        assert(n < idx * dw + dw) by {
            assert(bucket_low(n as int, dw as int) == idx * dw);
        }
        assert(-0x8000_0000_0000_0000_0000_0000_0000_0000 < idx * w <= 0x4000_0000_0000_0000_0000_0000_0000_0000)
            by (nonlinear_arith)
            requires
                dw == d as int * w as int,
                d >= 1,
                w >= 1,
                idx * dw <= n,
                n < idx * dw + dw,
                -0x4000_0000_0000_0000_0000_0000_0000_0000 <= n <= 0x4000_0000_0000_0000_0000_0000_0000_0000,
                0 < dw <= 0x4000_0000_0000_0000_0000_0000_0000_0000,
        {
            if idx >= 0 {
                assert(idx * w <= idx * w * d);
            } else {
                assert(idx * w * d <= idx * w);
            }
        }
    }
    let low: i128 = idx * w as i128;
    let high: i128 = low + w as i128;
    let mut s = String::new();
    append_int(&mut s, low);
    proof {
        reveal_strlit("-");
    }
    s.append("-");
    append_int(&mut s, high);
    Some(s)
}

/// A fraction `n / d` lies in the bucket that `frac_label_of` names, and in no other:
/// with `k = floor(n / (d * w))`, `k * w <= n / d < k * w + w`.
pub proof fn lemma_fraction_bucket_contains(n: int, d: int, w: int)
    requires
        d > 0,
        w > 0,
    ensures
        (n / (d * w)) * w * d <= n < ((n / (d * w)) * w + w) * d,
        forall|k: int| #[trigger] (k * w * d) <= n < (k * w + w) * d ==> k == n / (d * w),
{
    assert(d * w > 0) by (nonlinear_arith)
        requires
            d > 0,
            w > 0,
    ;
    lemma_bucket_contains(n, d * w);
    let q = n / (d * w);
    assert(q * w * d == q * (d * w) && (q * w + w) * d == q * (d * w) + d * w) by (nonlinear_arith);
    assert forall|k: int| #[trigger] (k * w * d) <= n < (k * w + w) * d implies k == n / (d * w) by {
        assert(k * w * d == k * (d * w) && (k * w + w) * d == k * (d * w) + d * w) by (nonlinear_arith);
    }
}

} // verus!
