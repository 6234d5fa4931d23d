//! Fixed-point embedding vectors.
//!
//! Every embedding has dimension `EMBED_DIM`. A component value of `SCALE`
//! stands for the real number 1.0, so a unit vector is one whose sum of
//! squared components is close to `SCALE * SCALE`. All arithmetic is exact
//! integer arithmetic; `normalize` divides by the integer square root of the
//! squared magnitude and the error this introduces is bounded by
//! `lemma_normalized_magnitude`.

use vstd::prelude::*;
use vstd::arithmetic::div_mod::{lemma_fundamental_div_mod, lemma_mod_division_less_than_divisor};

verus! {

/// Fixed dimension of every embedding vector.
pub const EMBED_DIM: usize = 384;

/// Fixed-point scale: a component value of `SCALE` stands for 1.0.
/// This is 2^27, large enough that the normalization error bound
/// `NORM_TOL` stays below a relative tolerance of 1e-5.
pub const SCALE: i64 = 134217728;

/// Bound on `|sum_sq(normalize(v)) - SCALE * SCALE|` for vectors whose
/// magnitude is at least `SCALE`; `NORM_TOL / (SCALE * SCALE)` is about
/// 5.7e-6.
pub const NORM_TOL: i64 = 768 * SCALE + 384;

/// Every component lies in [-SCALE, SCALE].
pub open spec fn in_range(s: Seq<i64>) -> bool {
    forall|i: int| 0 <= i < s.len() ==> -SCALE <= #[trigger] s[i] <= SCALE
}

/// A well-formed embedding: full dimension, components in range.
pub open spec fn is_embedding(s: Seq<i64>) -> bool {
    s.len() == EMBED_DIM && in_range(s)
}

/// Sum of the squares of the first `n` components.
pub open spec fn sum_sq(s: Seq<i64>, n: int) -> int
    decreases n,
{
    if n <= 0 {
        0
    } else {
        sum_sq(s, n - 1) + s[n - 1] * s[n - 1]
    }
}

/// Dot product of the first `n` components.
pub open spec fn dot(a: Seq<i64>, b: Seq<i64>, n: int) -> int
    decreases n,
{
    if n <= 0 {
        0
    } else {
        dot(a, b, n - 1) + a[n - 1] * b[n - 1]
    }
}

/// Integer square root, rounded down.
pub open spec fn spec_isqrt(n: int) -> int
    decreases n,
{
    if n <= 0 {
        0
    } else {
        let r = spec_isqrt(n - 1);
        if (r + 1) * (r + 1) <= n {
            r + 1
        } else {
            r
        }
    }
}

pub proof fn lemma_isqrt_props(n: int)
    requires
        n >= 0,
    ensures
        spec_isqrt(n) >= 0,
        spec_isqrt(n) * spec_isqrt(n) <= n,
        n < (spec_isqrt(n) + 1) * (spec_isqrt(n) + 1),
    decreases n,
{
    if n == 0 {
    } else {
        lemma_isqrt_props(n - 1);
        let r = spec_isqrt(n - 1);
        if (r + 1) * (r + 1) <= n {
            assert(n - 1 < (r + 1) * (r + 1));
            assert(n == (r + 1) * (r + 1));
            assert((r + 1 + 1) * (r + 1 + 1) > (r + 1) * (r + 1)) by (nonlinear_arith)
                requires r >= 0;
        }
    }
}

pub proof fn lemma_isqrt_unique(n: int, r: int)
    requires
        n >= 0,
        r >= 0,
        r * r <= n,
        n < (r + 1) * (r + 1),
    ensures
        r == spec_isqrt(n),
{
    lemma_isqrt_props(n);
    let s = spec_isqrt(n);
    assert(r == s) by (nonlinear_arith)
        requires
            r >= 0,
            s >= 0,
            r * r <= n,
            n < (r + 1) * (r + 1),
            s * s <= n,
            n < (s + 1) * (s + 1);
}

/// Sum of squares is monotone and nonnegative.
pub proof fn lemma_sum_sq_nonneg(s: Seq<i64>, n: int)
    ensures
        sum_sq(s, n) >= 0,
    decreases n,
{
    if n > 0 {
        lemma_sum_sq_nonneg(s, n - 1);
        assert(s[n - 1] * s[n - 1] >= 0) by (nonlinear_arith);
    }
}

/// Each squared component is at most the sum of squares.
pub proof fn lemma_sq_le_sum(s: Seq<i64>, i: int, n: int)
    requires
        0 <= i < n,
    ensures
        s[i] * s[i] <= sum_sq(s, n),
    decreases n,
{
    if i == n - 1 {
        lemma_sum_sq_nonneg(s, n - 1);
    } else {
        lemma_sq_le_sum(s, i, n - 1);
        assert(s[n - 1] * s[n - 1] >= 0) by (nonlinear_arith);
    }
}

/// A component's absolute value is at most the magnitude.
pub proof fn lemma_component_le_magnitude(s: Seq<i64>, i: int, n: int, m: int)
    requires
        0 <= i < n,
        m == spec_isqrt(sum_sq(s, n)),
    ensures
        -m <= s[i] <= m,
{
    lemma_sum_sq_nonneg(s, n);
    lemma_sq_le_sum(s, i, n);
    lemma_isqrt_props(sum_sq(s, n));
    assert(-m <= s[i] <= m) by (nonlinear_arith)
        requires
            m >= 0,
            s[i] * s[i] <= sum_sq(s, n),
            sum_sq(s, n) < (m + 1) * (m + 1);
}

/// Division that rounds toward zero, for a positive divisor.
pub open spec fn trunc_div(a: int, b: int) -> int {
    if a >= 0 {
        a / b
    } else {
        -((-a) / b)
    }
}

/// A component scaled by `SCALE / m`, rounded toward zero.
pub open spec fn scaled_div(a: int, m: int) -> int {
    trunc_div(a * SCALE, m)
}

/// Normalization: divide every component by the integer square root of the
/// squared magnitude, in `SCALE` units. A zero-magnitude vector is returned
/// unchanged (the documented defensive fallback).
pub open spec fn normalize_spec(s: Seq<i64>) -> Seq<i64> {
    let m = spec_isqrt(sum_sq(s, s.len() as int));
    if m == 0 {
        s
    } else {
        Seq::new(s.len(), |i: int| scaled_div(s[i] as int, m) as i64)
    }
}

/// The vector is the normalization of some full-dimension, in-range draw:
/// what every generated embedding is. Its squared length is near
/// `SCALE * SCALE` whenever the draw's magnitude was at least one unit
/// (`lemma_normalized_magnitude`); a zero draw comes back unchanged.
pub open spec fn is_normalized_draw(e: Seq<i64>) -> bool {
    exists|d: Seq<i64>| in_range(d) && d.len() == EMBED_DIM && e == normalize_spec(d)
}

/// Integer square root of a `u64`.
pub fn isqrt64(n: u64) -> (r: u64)
    ensures
        r as int == spec_isqrt(n as int),
        (r as int) * (r as int) <= n as int,
        (n as int) < (r as int + 1) * (r as int + 1),
{
    let mut lo: u64 = 0;
    let mut hi: u64 = 4294967296;
    assert((n as int) < (hi as int) * (hi as int)) by (nonlinear_arith)
        requires n < 18446744073709551616 && hi == 4294967296;
    while lo + 1 < hi
        invariant
            lo < hi,
            hi <= 4294967296,
            (lo as int) * (lo as int) <= n as int,
            (n as int) < (hi as int) * (hi as int),
        decreases hi - lo,
    {
        let mid: u64 = lo + (hi - lo) / 2;
        proof {
            assert((mid as int) * (mid as int) <= 4294967296int * 4294967296int)
                by (nonlinear_arith)
                requires 0 <= mid as int <= 4294967296int;
        }
        let sq: u128 = (mid as u128) * (mid as u128);
        if sq <= n as u128 {
            lo = mid;
        } else {
            hi = mid;
        }
    }
    proof {
        lemma_isqrt_unique(n as int, lo as int);
    }
    lo
}

/// Sum of squared components, exact.
pub fn vec_sum_sq(v: &Vec<i64>) -> (s: u64)
    requires
        in_range(v@),
        v@.len() <= EMBED_DIM,
    ensures
        s as int == sum_sq(v@, v@.len() as int),
{
    let mut acc: u64 = 0;
    let mut i: usize = 0;
    while i < v.len()
        invariant
            in_range(v@),
            v@.len() <= EMBED_DIM,
            i <= v@.len(),
            acc as int == sum_sq(v@, i as int),
            acc as int <= (i as int) * (SCALE as int) * (SCALE as int),
        decreases v@.len() - i,
    {
        let x = v[i];
        proof {
            assert(0 <= x * x <= SCALE * SCALE) by (nonlinear_arith)
                requires -SCALE <= x <= SCALE;
            assert((i as int) * (SCALE as int) * (SCALE as int) + SCALE * SCALE
                <= 384 * (SCALE as int) * (SCALE as int)) by (nonlinear_arith)
                requires 0 <= i as int <= 383;
        }
        let sq: i64 = x * x;
        acc = acc + (sq as u64);
        i = i + 1;
        proof {
            assert(acc as int <= (i as int) * (SCALE as int) * (SCALE as int)) by (nonlinear_arith)
                requires
                    acc as int <= ((i as int) - 1) * (SCALE as int) * (SCALE as int) + SCALE * SCALE,
                    SCALE == 134217728,
                    i >= 1;
        }
    }
    acc
}

/// The magnitude of a vector: integer square root of the sum of squares.
pub fn magnitude(v: &Vec<i64>) -> (m: u64)
    requires
        in_range(v@),
        v@.len() <= EMBED_DIM,
    ensures
        m as int == spec_isqrt(sum_sq(v@, v@.len() as int)),
{
    let ssq = vec_sum_sq(v);
    isqrt64(ssq)
}

/// Normalize a vector to length `SCALE`, returning a zero-magnitude vector
/// unchanged.
pub fn normalize(v: Vec<i64>) -> (r: Vec<i64>)
    requires
        in_range(v@),
        v@.len() == EMBED_DIM,
    ensures
        r@ == normalize_spec(v@),
        is_embedding(r@),
{
    let ghost n = v@.len() as int;
    let m = magnitude(&v);
    if m == 0 {
        assert(normalize_spec(v@) == v@);
        return v;
    }
    let mut out: Vec<i64> = Vec::new();
    let mut i: usize = 0;
    while i < v.len()
        invariant
            in_range(v@),
            v@.len() == EMBED_DIM,
            i <= v@.len(),
            1 <= m as int,
            m as int == spec_isqrt(sum_sq(v@, v@.len() as int)),
            out@.len() == i,
            forall|j: int| 0 <= j < i as int ==> #[trigger] out@[j] as int
                == scaled_div(v@[j] as int, m as int),
            forall|j: int| 0 <= j < i as int ==> -SCALE <= #[trigger] out@[j] <= SCALE,
        decreases v@.len() - i,
    {
        let x = v[i];
        proof {
            lemma_component_le_magnitude(v@, i as int, v@.len() as int, m as int);
        }
        let xa: u64 = if x < 0 {
            (-x) as u64
        } else {
            x as u64
        };
        proof {
            assert((xa as int) * (SCALE as int) <= (m as int) * (SCALE as int))
                by (nonlinear_arith)
                requires xa as int <= m as int && SCALE >= 0;
            assert((m as int) * (SCALE as int) < 340282366920938463463374607431768211456int)
                by (nonlinear_arith)
                requires m as int <= 18446744073709551615 && SCALE == 134217728;
        }
        let prod: u128 = (xa as u128) * (SCALE as u128);
        let q: u128 = prod / (m as u128);
        proof {
            // q <= SCALE, since xa <= m
            assert(prod as int / (m as int) <= ((m as int) * (SCALE as int)) / (m as int))
                by (nonlinear_arith)
                requires
                    prod as int <= (m as int) * (SCALE as int),
                    m as int >= 1;
            assert(((m as int) * (SCALE as int)) / (m as int) == SCALE as int) by {
                vstd::arithmetic::div_mod::lemma_div_multiples_vanish(SCALE as int, m as int);
            }
            lemma_sum_sq_nonneg(v@, v@.len() as int);
        }
        let qi: i64 = if x < 0 {
            -(q as i64)
        } else {
            q as i64
        };
        assert(qi as int == scaled_div(x as int, m as int));
        out.push(qi);
        i = i + 1;
    }
    proof {
        assert(out@ =~= normalize_spec(v@));
    }
    out
}

/// Error of one scaled component: `0 <= a^2 S^2 - m^2 u^2 <= (2 S + 1) m^2`
/// where `u = scaled_div(a, m)`.
proof fn lemma_component_err(a: int, m: int)
    requires
        1 <= m,
        -m <= a <= m,
    ensures
        0 <= a * a * SCALE * SCALE - m * m * scaled_div(a, m) * scaled_div(a, m),
        a * a * SCALE * SCALE - m * m * scaled_div(a, m) * scaled_div(a, m)
            <= (2 * SCALE + 1) * (m * m),
{
    let x = if a >= 0 { a } else { -a };
    let q = (x * SCALE) / m;
    assert(scaled_div(a, m) == q || scaled_div(a, m) == -q);
    assert(x * SCALE >= 0) by (nonlinear_arith)
        requires x >= 0 && SCALE >= 0;
    lemma_fundamental_div_mod(x * SCALE, m);
    lemma_mod_division_less_than_divisor(x * SCALE, m);
    let r = (x * SCALE) % m;
    assert(x * SCALE == m * q + r);
    assert(0 <= r < m);
    assert(q >= 0) by (nonlinear_arith)
        requires x * SCALE >= 0 && m >= 1 && x * SCALE == m * q + r && r < m;
    // q <= SCALE
    assert(q <= SCALE) by (nonlinear_arith)
        requires
            x <= m,
            SCALE >= 0,
            m >= 1,
            x * SCALE == m * q + r,
            0 <= r;
    // the error identity and bound
    assert(x * x * SCALE * SCALE - m * m * q * q == 2 * q * m * r + r * r) by (nonlinear_arith)
        requires x * SCALE == m * q + r;
    assert(0 <= 2 * q * m * r + r * r) by (nonlinear_arith)
        requires q >= 0 && m >= 1 && r >= 0;
    assert(2 * q * m * r + r * r <= (2 * SCALE + 1) * (m * m)) by (nonlinear_arith)
        requires
            0 <= q <= SCALE,
            0 <= r < m,
            m >= 1;
    assert(a * a == x * x) by (nonlinear_arith)
        requires x == a || x == -a;
    assert(scaled_div(a, m) * scaled_div(a, m) == q * q) by (nonlinear_arith)
        requires scaled_div(a, m) == q || scaled_div(a, m) == -q;
    assert(a * a * SCALE * SCALE == x * x * SCALE * SCALE) by (nonlinear_arith)
        requires a * a == x * x;
    assert(m * m * scaled_div(a, m) * scaled_div(a, m) == m * m * (q * q)) by (nonlinear_arith)
        requires scaled_div(a, m) * scaled_div(a, m) == q * q;
    assert(m * m * (q * q) == m * m * q * q) by (nonlinear_arith);
    assert(x * x * SCALE * SCALE == x * x * SCALE * SCALE);
}

/// Accumulated error over the first `n` components of the normalized vector.
proof fn lemma_norm_err_sum(s: Seq<i64>, m: int, n: int)
    requires
        in_range(s),
        m == spec_isqrt(sum_sq(s, s.len() as int)),
        1 <= m,
        0 <= n <= s.len(),
    ensures
        0 <= SCALE * SCALE * sum_sq(s, n) - m * m * sum_sq(normalize_spec(s), n),
        SCALE * SCALE * sum_sq(s, n) - m * m * sum_sq(normalize_spec(s), n)
            <= n * ((2 * SCALE + 1) * (m * m)),
    decreases n,
{
    let u = normalize_spec(s);
    if n == 0 {
        assert(m * m * sum_sq(u, 0) == 0) by (nonlinear_arith);
    } else {
        lemma_norm_err_sum(s, m, n - 1);
        lemma_component_le_magnitude(s, n - 1, s.len() as int, m);
        lemma_component_err(s[n - 1] as int, m);
        let a = s[n - 1] as int;
        let d = scaled_div(a, m);
        assert(u[n - 1] as int == d);
        assert(sum_sq(u, n) == sum_sq(u, n - 1) + d * d);
        assert(sum_sq(s, n) == sum_sq(s, n - 1) + a * a);
        let e_prev = SCALE * SCALE * sum_sq(s, n - 1) - m * m * sum_sq(u, n - 1);
        let e_comp = a * a * SCALE * SCALE - m * m * d * d;
        assert(m * m * (d * d) == m * m * d * d) by (nonlinear_arith);
        assert(SCALE * SCALE * sum_sq(s, n) - m * m * sum_sq(u, n) == e_prev + e_comp)
            by (nonlinear_arith)
            requires
                sum_sq(u, n) == sum_sq(u, n - 1) + d * d,
                sum_sq(s, n) == sum_sq(s, n - 1) + a * a,
                e_prev == SCALE * SCALE * sum_sq(s, n - 1) - m * m * sum_sq(u, n - 1),
                e_comp == a * a * SCALE * SCALE - m * m * (d * d),
                m * m * (d * d) == m * m * d * d;
        assert(e_prev + e_comp <= (n - 1) * ((2 * SCALE + 1) * (m * m)) + (2 * SCALE + 1) * (m * m)
            ==> e_prev + e_comp <= n * ((2 * SCALE + 1) * (m * m))) by (nonlinear_arith);
    }
}

/// The squared magnitude of a normalized vector is within `NORM_TOL` of
/// `SCALE * SCALE`, provided the input's magnitude was at least `SCALE`
/// (one full unit). Near-zero inputs keep a larger relative error; the
/// zero-magnitude fallback is excluded by the premise.
pub proof fn lemma_normalized_magnitude(s: Seq<i64>)
    requires
        is_embedding(s),
        spec_isqrt(sum_sq(s, s.len() as int)) >= SCALE,
    ensures
        SCALE * SCALE - NORM_TOL <= sum_sq(normalize_spec(s), s.len() as int),
        sum_sq(normalize_spec(s), s.len() as int) <= SCALE * SCALE + NORM_TOL,
{
    let n = s.len() as int;
    let m = spec_isqrt(sum_sq(s, n));
    let big_m = sum_sq(s, n);
    let u = normalize_spec(s);
    lemma_sum_sq_nonneg(s, n);
    lemma_isqrt_props(big_m);
    lemma_norm_err_sum(s, m, n);
    // m^2 <= M <= m^2 + 2m
    assert(big_m <= m * m + 2 * m) by (nonlinear_arith)
        requires big_m < (m + 1) * (m + 1);
    // lower bound: m^2 * sum_sq(u) >= S^2 M - n (2S+1) m^2 >= m^2 (S^2 - n(2S+1))
    assert(m * m * sum_sq(u, n) >= m * m * (SCALE * SCALE - 384 * (2 * SCALE + 1)))
        by (nonlinear_arith)
        requires
            SCALE * SCALE * big_m - m * m * sum_sq(u, n) <= n * ((2 * SCALE + 1) * (m * m)),
            big_m >= m * m,
            n == 384,
            m >= 1,
            SCALE >= 1;
    assert(sum_sq(u, n) >= SCALE * SCALE - 384 * (2 * SCALE + 1)) by (nonlinear_arith)
        requires
            m * m * sum_sq(u, n) >= m * m * (SCALE * SCALE - 384 * (2 * SCALE + 1)),
            m >= 1;
    // upper bound: m^2 sum_sq(u) <= S^2 M <= S^2 m^2 + 2 S^2 m <= m^2 (S^2 + 2 S) for m >= S
    assert(m * m * sum_sq(u, n) <= m * m * (SCALE * SCALE + 2 * SCALE)) by (nonlinear_arith)
        requires
            0 <= SCALE * SCALE * big_m - m * m * sum_sq(u, n),
            big_m <= m * m + 2 * m,
            m >= SCALE,
            SCALE >= 1;
    assert(sum_sq(u, n) <= SCALE * SCALE + 2 * SCALE) by (nonlinear_arith)
        requires
            m * m * sum_sq(u, n) <= m * m * (SCALE * SCALE + 2 * SCALE),
            m >= 1;
}

} // verus!
