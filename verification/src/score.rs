//! The opposition score.
//!
//! For a requester R and candidate C the composite score is
//! `0.5 * userTerm + 0.3 * tagTerm + 0.2 * overlapTerm`, in `SCALE` units:
//! a term value of `SCALE` stands for 1.0, and the weighted combination is
//! computed as `(5 u + 3 t + 2 o) / 10`, clamped defensively to `[0, SCALE]`.
//!
//! - `userTerm = (1 + cos(C.embedding, -R.embedding)) / 2`: 1.0 means C is
//!   maximally opposite to R.
//! - `tagTerm`: the average of `(1 + cos(a, b)) / 2` over every pair of an
//!   R tag embedding and a C tag embedding, or the neutral 0.5 when either
//!   side has none.
//! - `overlapTerm = 1 - |R.tags and C.tags| / max(|C.tags|, 1)`.

use vstd::prelude::*;
use crate::embedding::{
    EMBED_DIM, SCALE, dot, in_range, is_embedding, magnitude, spec_isqrt, sum_sq, trunc_div,
};
use crate::profile::{all_embeddings, views_of};

verus! {

/// Clamp `x` into `[lo, hi]`.
pub open spec fn clamp_spec(x: int, lo: int, hi: int) -> int {
    if x < lo {
        lo
    } else if x > hi {
        hi
    } else {
        x
    }
}

/// Componentwise negation.
pub open spec fn neg_spec(s: Seq<i64>) -> Seq<i64> {
    Seq::new(s.len(), |i: int| (-(s[i] as int)) as i64)
}

/// The views of a sequence of strings.
pub open spec fn names_of(s: Seq<String>) -> Seq<Seq<char>> {
    s.map_values(|x: String| x@)
}

/// Cosine similarity in `SCALE` units: `dot(a, b) * SCALE / (|a| |b|)`,
/// rounded toward zero and clamped to `[-SCALE, SCALE]` (the clamp guards
/// against rounding in the integer square roots). Zero if either magnitude
/// is zero.
pub open spec fn cos_sim_spec(a: Seq<i64>, b: Seq<i64>) -> int {
    let ma = spec_isqrt(sum_sq(a, a.len() as int));
    let mb = spec_isqrt(sum_sq(b, b.len() as int));
    if ma == 0 || mb == 0 {
        0
    } else {
        clamp_spec(trunc_div(dot(a, b, a.len() as int) * SCALE, ma * mb), -SCALE as int, SCALE as int)
    }
}

/// `(1 + cos(a, b)) / 2` in `SCALE` units; always in `[0, SCALE]`.
pub open spec fn half_cos_spec(a: Seq<i64>, b: Seq<i64>) -> int {
    (SCALE + cos_sim_spec(a, b)) / 2
}

/// How opposite the candidate's profile embedding is to the requester's.
pub open spec fn user_term_spec(r_emb: Seq<i64>, c_emb: Seq<i64>) -> int {
    half_cos_spec(c_emb, neg_spec(r_emb))
}

/// Sum of `half_cos` of `a` against the first `k` candidate tag embeddings.
pub open spec fn pair_row_sum(a: Seq<i64>, ct: Seq<Seq<i64>>, k: int) -> int
    decreases k,
{
    if k <= 0 {
        0
    } else {
        pair_row_sum(a, ct, k - 1) + half_cos_spec(a, ct[k - 1])
    }
}

/// Sum of `half_cos` over all pairs from the first `k` requester tag
/// embeddings and all candidate tag embeddings.
pub open spec fn pair_total(rt: Seq<Seq<i64>>, ct: Seq<Seq<i64>>, k: int) -> int
    decreases k,
{
    if k <= 0 {
        0
    } else {
        pair_total(rt, ct, k - 1) + pair_row_sum(rt[k - 1], ct, ct.len() as int)
    }
}

/// The tag term: the average pair similarity to the negated space, or the
/// neutral `SCALE / 2` when either side has no tag embeddings.
pub open spec fn tag_term_spec(rt: Seq<Seq<i64>>, ct: Seq<Seq<i64>>) -> int {
    if rt.len() == 0 || ct.len() == 0 {
        SCALE / 2
    } else {
        pair_total(rt, ct, rt.len() as int) / (rt.len() * ct.len()) as int
    }
}

/// Number of the first `k` candidate tag names that the requester also has.
pub open spec fn overlap_count(cn: Seq<Seq<char>>, rn: Seq<Seq<char>>, k: int) -> int
    decreases k,
{
    if k <= 0 {
        0
    } else {
        overlap_count(cn, rn, k - 1) + if rn.contains(cn[k - 1]) {
            1int
        } else {
            0int
        }
    }
}

/// The overlap term: `SCALE - |overlap| * SCALE / max(|C.tags|, 1)`. A
/// candidate with no tags scores the full `SCALE` (denominator guard).
pub open spec fn overlap_term_spec(rn: Seq<Seq<char>>, cn: Seq<Seq<char>>) -> int {
    let denom: int = if cn.len() == 0 {
        1
    } else {
        cn.len() as int
    };
    SCALE - (overlap_count(cn, rn, cn.len() as int) * SCALE) / denom
}

/// The composite opposition score in `SCALE` units, clamped to `[0, SCALE]`.
pub open spec fn score_spec(
    r_emb: Seq<i64>,
    rt: Seq<Seq<i64>>,
    rn: Seq<Seq<char>>,
    c_emb: Seq<i64>,
    ct: Seq<Seq<i64>>,
    cn: Seq<Seq<char>>,
) -> int {
    clamp_spec(
        (5 * user_term_spec(r_emb, c_emb) + 3 * tag_term_spec(rt, ct) + 2 * overlap_term_spec(
            rn,
            cn,
        )) / 10,
        0,
        SCALE as int,
    )
}

/// Dot product of two embeddings.
fn vec_dot(a: &Vec<i64>, b: &Vec<i64>) -> (d: i64)
    requires
        is_embedding(a@),
        is_embedding(b@),
    ensures
        d as int == dot(a@, b@, a@.len() as int),
        -384 * SCALE * SCALE <= d as int <= 384 * SCALE * SCALE,
{
    let mut acc: i64 = 0;
    let mut i: usize = 0;
    while i < EMBED_DIM
        invariant
            is_embedding(a@),
            is_embedding(b@),
            i <= EMBED_DIM,
            acc as int == dot(a@, b@, i as int),
            -(i as int) * (SCALE as int) * (SCALE as int) <= acc as int
                <= (i as int) * (SCALE as int) * (SCALE as int),
        decreases EMBED_DIM - i,
    {
        let x = a[i];
        let y = b[i];
        proof {
            assert(-SCALE * SCALE <= x * y <= SCALE * SCALE) by (nonlinear_arith)
                requires -SCALE <= x <= SCALE && -SCALE <= y <= SCALE;
            assert(-((i + 1) as int) * (SCALE as int) * (SCALE as int) <= acc as int + x * y
                <= ((i + 1) as int) * (SCALE as int) * (SCALE as int)) by (nonlinear_arith)
                requires
                    -(i as int) * (SCALE as int) * (SCALE as int) <= acc as int
                        <= (i as int) * (SCALE as int) * (SCALE as int),
                    -SCALE * SCALE <= x * y <= SCALE * SCALE;
            assert(((i + 1) as int) * (SCALE as int) * (SCALE as int)
                <= 384 * (SCALE as int) * (SCALE as int)) by (nonlinear_arith)
                requires 0 <= i as int <= 383;
        }
        acc = acc + x * y;
        i = i + 1;
    }
    acc
}

/// Cosine similarity of two embeddings, in `SCALE` units.
pub fn cos_sim(a: &Vec<i64>, b: &Vec<i64>) -> (c: i64)
    requires
        is_embedding(a@),
        is_embedding(b@),
    ensures
        c as int == cos_sim_spec(a@, b@),
        -SCALE <= c <= SCALE,
{
    let ma = magnitude(a);
    let mb = magnitude(b);
    proof {
        crate::embedding::lemma_sum_sq_nonneg(a@, a@.len() as int);
        crate::embedding::lemma_sum_sq_nonneg(b@, b@.len() as int);
        crate::embedding::lemma_isqrt_props(sum_sq(a@, a@.len() as int));
        crate::embedding::lemma_isqrt_props(sum_sq(b@, b@.len() as int));
    }
    if ma == 0 || mb == 0 {
        return 0;
    }
    let d = vec_dot(a, b);
    proof {
        // magnitudes stay below 2^32, so their product fits in u64
        assert(sum_sq(a@, a@.len() as int) <= 384 * SCALE * SCALE) by {
            lemma_sum_sq_bound(a@, a@.len() as int);
        }
        assert(sum_sq(b@, b@.len() as int) <= 384 * SCALE * SCALE) by {
            lemma_sum_sq_bound(b@, b@.len() as int);
        }
        assert(ma as int <= 4294967295int) by (nonlinear_arith)
            requires
                (ma as int) * (ma as int) <= 384 * SCALE * SCALE,
                SCALE == 134217728,
                ma as int >= 0;
        assert(mb as int <= 4294967295int) by (nonlinear_arith)
            requires
                (mb as int) * (mb as int) <= 384 * SCALE * SCALE,
                SCALE == 134217728,
                mb as int >= 0;
        assert((ma as int) * (mb as int) <= 4294967295int * 4294967295int) by (nonlinear_arith)
            requires 0 <= ma as int <= 4294967295int && 0 <= mb as int <= 4294967295int;
    }
    let mm: u64 = ma * mb;
    proof {
        assert(mm as int >= 1) by (nonlinear_arith)
            requires ma as int >= 1 && mb as int >= 1 && mm as int == (ma as int) * (mb as int);
    }
    let neg = d < 0;
    let da: u128 = if neg {
        (-d) as u128
    } else {
        d as u128
    };
    proof {
        assert((da as int) * (SCALE as int) <= 384 * SCALE * SCALE * SCALE) by (nonlinear_arith)
            requires
                0 <= da as int <= 384 * SCALE * SCALE,
                SCALE >= 1;
        assert(384 * SCALE * SCALE * SCALE < 340282366920938463463374607431768211455int)
            by (nonlinear_arith)
            requires SCALE == 134217728;
    }
    let prod: u128 = da * (SCALE as u128);
    let q: u128 = prod / (mm as u128);
    let qc: i64 = if q >= SCALE as u128 {
        SCALE
    } else if neg {
        -(q as i64)
    } else {
        q as i64
    };
    let qc: i64 = if neg && q >= SCALE as u128 {
        -SCALE
    } else {
        qc
    };
    proof {
        let dv = dot(a@, b@, a@.len() as int);
        let t = trunc_div(dv * SCALE, (ma as int) * (mb as int));
        if neg {
            assert(da as int == -dv);
            assert((-dv) * SCALE == -(dv * SCALE)) by (nonlinear_arith);
            assert(t == -((da as int * SCALE) / (mm as int)));
            assert(q as int == (da as int * SCALE) / (mm as int));
            if q >= SCALE as u128 {
                assert(clamp_spec(t, -SCALE as int, SCALE as int) == -SCALE as int);
            } else {
                assert(clamp_spec(t, -SCALE as int, SCALE as int) == t);
            }
        } else {
            assert(da as int == dv);
            assert(q as int == (dv * SCALE) / (mm as int));
            if q >= SCALE as u128 {
                assert(clamp_spec(t, -SCALE as int, SCALE as int) == SCALE as int);
            } else {
                assert(clamp_spec(t, -SCALE as int, SCALE as int) == t);
            }
        }
    }
    qc
}

/// The sum of squares of an embedding is at most `384 * SCALE^2`.
proof fn lemma_sum_sq_bound(s: Seq<i64>, n: int)
    requires
        in_range(s),
        0 <= n <= s.len(),
        n <= 384,
    ensures
        sum_sq(s, n) <= n * (SCALE as int) * (SCALE as int),
        sum_sq(s, n) <= 384 * SCALE * SCALE,
    decreases n,
{
    crate::embedding::lemma_sum_sq_nonneg(s, n);
    if n <= 0 {
        assert(sum_sq(s, n) == 0);
        assert(0 <= 384 * SCALE * SCALE);
    } else {
        lemma_sum_sq_bound(s, n - 1);
        assert(s[n - 1] * s[n - 1] <= SCALE * SCALE) by (nonlinear_arith)
            requires -SCALE <= s[n - 1] <= SCALE;
        assert((n - 1) * (SCALE as int) * (SCALE as int) + SCALE * SCALE
            == n * (SCALE as int) * (SCALE as int)) by (nonlinear_arith);
        assert(n * (SCALE as int) * (SCALE as int) <= 384 * SCALE * SCALE) by (nonlinear_arith)
            requires n <= 384 && SCALE >= 0;
    }
}

/// Negate an embedding.
pub fn negate(v: &Vec<i64>) -> (r: Vec<i64>)
    requires
        is_embedding(v@),
    ensures
        r@ == neg_spec(v@),
        is_embedding(r@),
{
    let mut out: Vec<i64> = Vec::new();
    let mut i: usize = 0;
    while i < EMBED_DIM
        invariant
            is_embedding(v@),
            i <= EMBED_DIM,
            out@.len() == i,
            forall|j: int| 0 <= j < i as int ==> #[trigger] out@[j] as int == -(v@[j] as int),
        decreases EMBED_DIM - i,
    {
        out.push(-v[i]);
        i = i + 1;
    }
    proof {
        assert(out@ =~= neg_spec(v@));
    }
    out
}

/// `half_cos` lies in `[0, SCALE]`.
proof fn lemma_half_cos_range(a: Seq<i64>, b: Seq<i64>)
    ensures
        0 <= half_cos_spec(a, b) <= SCALE,
{
}

/// The user term of two embeddings.
pub fn user_term(r_emb: &Vec<i64>, c_emb: &Vec<i64>) -> (t: i64)
    requires
        is_embedding(r_emb@),
        is_embedding(c_emb@),
    ensures
        t as int == user_term_spec(r_emb@, c_emb@),
        0 <= t <= SCALE,
{
    let nr = negate(r_emb);
    let c = cos_sim(c_emb, &nr);
    (SCALE + c) / 2
}

/// The tag term of two tag-embedding sets. The bound on the number of
/// pairs is a machine limit: no terminating computation visits more.
pub fn tag_term(rt: &Vec<Vec<i64>>, ct: &Vec<Vec<i64>>) -> (t: i64)
    requires
        all_embeddings(views_of(rt@)),
        all_embeddings(views_of(ct@)),
        rt@.len() * ct@.len() <= 18446744073709551615,
    ensures
        t as int == tag_term_spec(views_of(rt@), views_of(ct@)),
        0 <= t <= SCALE,
{
    let nr = rt.len();
    let nc = ct.len();
    if nr == 0 || nc == 0 {
        return SCALE / 2;
    }
    let ghost rts = views_of(rt@);
    let ghost cts = views_of(ct@);
    let mut total: u128 = 0;
    let mut i: usize = 0;
    while i < nr
        invariant
            nr == rt@.len(),
            nc == ct@.len(),
            nc >= 1,
            rts == views_of(rt@),
            cts == views_of(ct@),
            all_embeddings(rts),
            all_embeddings(cts),
            i <= nr,
            (nr as int) * (nc as int) <= 18446744073709551615int,
            total as int == pair_total(rts, cts, i as int),
            0 <= total as int <= (i as int) * (nc as int) * (SCALE as int),
        decreases nr - i,
    {
        let a = &rt[i];
        assert(views_of(rt@)[i as int] == rt@[i as int]@);
        let mut row: u128 = 0;
        let mut k: usize = 0;
        while k < nc
            invariant
                nr == rt@.len(),
                nc == ct@.len(),
                rts == views_of(rt@),
                cts == views_of(ct@),
                all_embeddings(rts),
                all_embeddings(cts),
                i < nr,
                a@ == rts[i as int],
                k <= nc,
                row as int == pair_row_sum(a@, cts, k as int),
                0 <= row as int <= (k as int) * (SCALE as int),
            decreases nc - k,
        {
            assert(cts[k as int] == ct@[k as int]@);
            let c = cos_sim(a, &ct[k]);
            let p = (SCALE + c) / 2;
            proof {
                assert(0 <= p as int <= SCALE);
                assert((k as int) * (SCALE as int) + SCALE == ((k + 1) as int) * (SCALE as int))
                    by (nonlinear_arith);
            }
            row = row + (p as u128);
            k = k + 1;
        }
        proof {
            assert(total as int + row as int <= ((i + 1) as int) * (nc as int) * (SCALE as int))
                by (nonlinear_arith)
                requires
                    total as int <= (i as int) * (nc as int) * (SCALE as int),
                    row as int <= (nc as int) * (SCALE as int);
            assert((i as int + 1) * (nc as int) <= (nr as int) * (nc as int)) by (nonlinear_arith)
                requires i as int + 1 <= nr as int && nc as int >= 0;
            assert(((i + 1) as int) * (nc as int) * (SCALE as int)
                < 340282366920938463463374607431768211455int) by (nonlinear_arith)
                requires
                    (i as int + 1) * (nc as int) <= 18446744073709551615int,
                    SCALE == 134217728;
        }
        total = total + row;
        i = i + 1;
    }
    proof {
        assert((nr as int) * (nc as int) < 340282366920938463463374607431768211455int)
            by (nonlinear_arith)
            requires (nr as int) * (nc as int) <= 18446744073709551615int;
    }
    let cnt: u128 = (nr as u128) * (nc as u128);
    proof {
        assert(cnt as int >= 1) by (nonlinear_arith)
            requires nr as int >= 1 && nc as int >= 1
                && cnt as int == (nr as int) * (nc as int);
        assert(total as int <= cnt as int * (SCALE as int)) by (nonlinear_arith)
            requires
                total as int <= (nr as int) * (nc as int) * (SCALE as int),
                cnt as int == (nr as int) * (nc as int);
        assert((total as int) / (cnt as int) <= (cnt as int * (SCALE as int)) / (cnt as int))
            by (nonlinear_arith)
            requires total as int <= cnt as int * (SCALE as int), cnt as int >= 1;
        vstd::arithmetic::div_mod::lemma_div_multiples_vanish(SCALE as int, cnt as int);
        vstd::arithmetic::div_mod::lemma_div_pos_is_pos(total as int, cnt as int);
    }
    let avg: u128 = total / cnt;
    avg as i64
}

/// Whether a name occurs in a list of names.
pub fn contains_name(names: &Vec<String>, x: &String) -> (r: bool)
    ensures
        r == names_of(names@).contains(x@),
{
    let mut i: usize = 0;
    while i < names.len()
        invariant
            i <= names@.len(),
            forall|j: int| 0 <= j < i as int ==> names_of(names@)[j] != x@,
        decreases names@.len() - i,
    {
        assert(names_of(names@)[i as int] == names@[i as int]@);
        if x.eq(&names[i]) {
            return true;
        }
        i = i + 1;
    }
    false
}

/// The overlap term of two tag-name lists.
pub fn overlap_term(rn: &Vec<String>, cn: &Vec<String>) -> (t: i64)
    ensures
        t as int == overlap_term_spec(names_of(rn@), names_of(cn@)),
        0 <= t <= SCALE,
{
    let nc = cn.len();
    let mut count: usize = 0;
    let mut i: usize = 0;
    while i < nc
        invariant
            nc == cn@.len(),
            i <= nc,
            count as int == overlap_count(names_of(cn@), names_of(rn@), i as int),
            count <= i,
        decreases nc - i,
    {
        if contains_name(rn, &cn[i]) {
            assert(names_of(cn@)[i as int] == cn@[i as int]@);
            count = count + 1;
        }
        i = i + 1;
    }
    let denom: u64 = if nc == 0 {
        1
    } else {
        nc as u64
    };
    proof {
        assert(count as int * (SCALE as int) <= denom as int * (SCALE as int)) by (nonlinear_arith)
            requires 0 <= count as int <= denom as int && SCALE >= 0;
        assert(denom as int * (SCALE as int) < 340282366920938463463374607431768211455int)
            by (nonlinear_arith)
            requires denom as int <= 18446744073709551615int && SCALE == 134217728;
    }
    let prod: u128 = (count as u128) * (SCALE as u128);
    let q: u128 = prod / (denom as u128);
    proof {
        assert((prod as int) / (denom as int) <= ((denom as int) * (SCALE as int)) / (denom as int))
            by (nonlinear_arith)
            requires prod as int <= (denom as int) * (SCALE as int), denom as int >= 1;
        vstd::arithmetic::div_mod::lemma_div_multiples_vanish(SCALE as int, denom as int);
        vstd::arithmetic::div_mod::lemma_div_pos_is_pos(prod as int, denom as int);
    }
    SCALE - (q as i64)
}

/// The composite opposition score of a candidate for a requester. The
/// bound on the number of tag pairs is a machine limit: no terminating
/// computation visits more.
pub fn score(
    r_emb: &Vec<i64>,
    rt: &Vec<Vec<i64>>,
    rn: &Vec<String>,
    c_emb: &Vec<i64>,
    ct: &Vec<Vec<i64>>,
    cn: &Vec<String>,
) -> (s: i64)
    requires
        is_embedding(r_emb@),
        is_embedding(c_emb@),
        all_embeddings(views_of(rt@)),
        all_embeddings(views_of(ct@)),
        rt@.len() * ct@.len() <= 18446744073709551615,
    ensures
        s as int == score_spec(
            r_emb@,
            views_of(rt@),
            names_of(rn@),
            c_emb@,
            views_of(ct@),
            names_of(cn@),
        ),
        0 <= s <= SCALE,
{
    let u = user_term(r_emb, c_emb);
    let t = tag_term(rt, ct);
    let o = overlap_term(rn, cn);
    let raw = (5 * u + 3 * t + 2 * o) / 10;
    if raw < 0 {
        0
    } else if raw > SCALE {
        SCALE
    } else {
        raw
    }
}

/// The overlap count over the first `k` candidate names lies in `[0, k]`.
proof fn lemma_overlap_count_range(cn: Seq<Seq<char>>, rn: Seq<Seq<char>>, k: int)
    requires
        k >= 0,
    ensures
        0 <= overlap_count(cn, rn, k) <= k,
    decreases k,
{
    if k > 0 {
        lemma_overlap_count_range(cn, rn, k - 1);
    }
}

/// A candidate with no tags has the full overlap term: the denominator
/// guard makes the shared fraction zero.
pub proof fn lemma_overlap_no_tags(rn: Seq<Seq<char>>, cn: Seq<Seq<char>>)
    requires
        cn.len() == 0,
    ensures
        overlap_term_spec(rn, cn) == SCALE,
{
    assert(overlap_count(cn, rn, 0) == 0);
    assert((0int * SCALE) / 1int == 0);
}

/// A candidate sharing no tag with the requester has the full overlap term.
pub proof fn lemma_overlap_disjoint(rn: Seq<Seq<char>>, cn: Seq<Seq<char>>)
    requires
        forall|i: int| 0 <= i < cn.len() ==> !rn.contains(#[trigger] cn[i]),
    ensures
        overlap_term_spec(rn, cn) == SCALE,
{
    assert forall|k: int| 0 <= k <= cn.len() implies overlap_count(cn, rn, k) == 0 by {
        lemma_overlap_count_zero(cn, rn, k);
    }
    let denom: int = if cn.len() == 0 {
        1
    } else {
        cn.len() as int
    };
    vstd::arithmetic::div_mod::lemma_div_of0(denom);
    assert(0int * SCALE == 0) by (nonlinear_arith);
}

proof fn lemma_overlap_count_zero(cn: Seq<Seq<char>>, rn: Seq<Seq<char>>, k: int)
    requires
        forall|i: int| 0 <= i < cn.len() ==> !rn.contains(#[trigger] cn[i]),
        k <= cn.len(),
    ensures
        overlap_count(cn, rn, k) == 0,
    decreases k,
{
    if k > 0 {
        lemma_overlap_count_zero(cn, rn, k - 1);
    }
}

proof fn lemma_overlap_count_full(cn: Seq<Seq<char>>, rn: Seq<Seq<char>>, k: int)
    requires
        forall|i: int| 0 <= i < cn.len() ==> rn.contains(#[trigger] cn[i]),
        0 <= k <= cn.len(),
    ensures
        overlap_count(cn, rn, k) == k,
    decreases k,
{
    if k > 0 {
        lemma_overlap_count_full(cn, rn, k - 1);
    }
}

/// A candidate whose tags the requester all shares has overlap term zero:
/// the shared fraction is the whole of the candidate's tag set.
pub proof fn lemma_overlap_identical(rn: Seq<Seq<char>>, cn: Seq<Seq<char>>)
    requires
        cn.len() > 0,
        forall|i: int| 0 <= i < cn.len() ==> rn.contains(#[trigger] cn[i]),
    ensures
        overlap_term_spec(rn, cn) == 0,
{
    let n = cn.len() as int;
    lemma_overlap_count_full(cn, rn, n);
    assert(n * SCALE == SCALE * n) by (nonlinear_arith);
    vstd::arithmetic::div_mod::lemma_div_multiples_vanish(SCALE as int, n);
}

/// The overlap term always lies in `[0, SCALE]`.
pub proof fn lemma_overlap_term_range(rn: Seq<Seq<char>>, cn: Seq<Seq<char>>)
    ensures
        0 <= overlap_term_spec(rn, cn) <= SCALE,
{
    let n = cn.len() as int;
    let denom: int = if n == 0 {
        1
    } else {
        n
    };
    let c = overlap_count(cn, rn, n);
    lemma_overlap_count_range(cn, rn, n);
    assert(c <= denom);
    assert(c * SCALE <= denom * SCALE) by (nonlinear_arith)
        requires c <= denom && SCALE >= 0;
    assert(c * SCALE >= 0) by (nonlinear_arith)
        requires c >= 0 && SCALE >= 0;
    vstd::arithmetic::div_mod::lemma_div_pos_is_pos(c * SCALE, denom);
    vstd::arithmetic::div_mod::lemma_div_is_ordered(c * SCALE, denom * SCALE, denom);
    assert(denom * SCALE == SCALE * denom) by (nonlinear_arith);
    vstd::arithmetic::div_mod::lemma_div_multiples_vanish(SCALE as int, denom);
}

proof fn lemma_pair_row_sum_range(a: Seq<i64>, ct: Seq<Seq<i64>>, k: int)
    requires
        k >= 0,
    ensures
        0 <= pair_row_sum(a, ct, k) <= k * (SCALE as int),
    decreases k,
{
    if k > 0 {
        lemma_pair_row_sum_range(a, ct, k - 1);
        assert((k - 1) * (SCALE as int) + SCALE == k * (SCALE as int)) by (nonlinear_arith);
    } else {
        assert(k * (SCALE as int) == 0) by (nonlinear_arith)
            requires k == 0;
    }
}

proof fn lemma_pair_total_range(rt: Seq<Seq<i64>>, ct: Seq<Seq<i64>>, k: int)
    requires
        k >= 0,
    ensures
        0 <= pair_total(rt, ct, k) <= k * (ct.len() as int) * (SCALE as int),
    decreases k,
{
    let nc = ct.len() as int;
    if k > 0 {
        lemma_pair_total_range(rt, ct, k - 1);
        lemma_pair_row_sum_range(rt[k - 1], ct, nc);
        assert((k - 1) * nc * (SCALE as int) + nc * (SCALE as int) == k * nc * (SCALE as int))
            by (nonlinear_arith);
    } else {
        assert(k * nc * (SCALE as int) == 0) by (nonlinear_arith)
            requires k == 0;
    }
}

/// The tag term always lies in `[0, SCALE]`.
pub proof fn lemma_tag_term_range(rt: Seq<Seq<i64>>, ct: Seq<Seq<i64>>)
    ensures
        0 <= tag_term_spec(rt, ct) <= SCALE,
{
    let nr = rt.len() as int;
    let nc = ct.len() as int;
    if nr == 0 || nc == 0 {
    } else {
        let total = pair_total(rt, ct, nr);
        let cnt = nr * nc;
        lemma_pair_total_range(rt, ct, nr);
        assert(cnt >= 1) by (nonlinear_arith)
            requires nr >= 1 && nc >= 1 && cnt == nr * nc;
        assert(total <= cnt * (SCALE as int)) by (nonlinear_arith)
            requires total <= nr * nc * (SCALE as int) && cnt == nr * nc;
        vstd::arithmetic::div_mod::lemma_div_pos_is_pos(total, cnt);
        vstd::arithmetic::div_mod::lemma_div_is_ordered(total, cnt * (SCALE as int), cnt);
        assert(cnt * (SCALE as int) == (SCALE as int) * cnt) by (nonlinear_arith);
        vstd::arithmetic::div_mod::lemma_div_multiples_vanish(SCALE as int, cnt);
    }
}

/// A candidate whose embedding is the exact negation of the requester's and
/// who shares no tag scores strictly higher than an otherwise identical
/// candidate (same embedding, same tag term) whose tags the requester all
/// shares. The equal-tag-term premise is what "otherwise identical" needs:
/// without it a sufficiently different tag term could outweigh the overlap.
pub proof fn lemma_negation_beats_full_overlap(
    r_emb: Seq<i64>,
    rt: Seq<Seq<i64>>,
    rn: Seq<Seq<char>>,
    c_emb: Seq<i64>,
    ct1: Seq<Seq<i64>>,
    cn1: Seq<Seq<char>>,
    ct2: Seq<Seq<i64>>,
    cn2: Seq<Seq<char>>,
)
    requires
        c_emb == neg_spec(r_emb),
        tag_term_spec(rt, ct1) == tag_term_spec(rt, ct2),
        forall|i: int| 0 <= i < cn1.len() ==> !rn.contains(#[trigger] cn1[i]),
        cn2.len() > 0,
        forall|i: int| 0 <= i < cn2.len() ==> rn.contains(#[trigger] cn2[i]),
    ensures
        score_spec(r_emb, rt, rn, c_emb, ct1, cn1) > score_spec(r_emb, rt, rn, c_emb, ct2, cn2),
{
    let u = user_term_spec(r_emb, c_emb);
    let t = tag_term_spec(rt, ct1);
    lemma_half_cos_range(c_emb, neg_spec(r_emb));
    lemma_tag_term_range(rt, ct1);
    lemma_overlap_disjoint(rn, cn1);
    lemma_overlap_identical(rn, cn2);
    let x2 = 5 * u + 3 * t;
    let x1 = x2 + 2 * SCALE;
    assert(0 <= x2 <= 8 * SCALE);
    // both quotients stay inside [0, SCALE], so the clamp is the identity
    vstd::arithmetic::div_mod::lemma_div_pos_is_pos(x2, 10);
    vstd::arithmetic::div_mod::lemma_div_pos_is_pos(x1, 10);
    vstd::arithmetic::div_mod::lemma_div_is_ordered(x1, 10 * (SCALE as int), 10);
    vstd::arithmetic::div_mod::lemma_div_is_ordered(x2, 10 * (SCALE as int), 10);
    vstd::arithmetic::div_mod::lemma_div_multiples_vanish(SCALE as int, 10);
    // x1 / 10 >= x2 / 10 + 2 * SCALE / 10 > x2 / 10
    vstd::arithmetic::div_mod::lemma_fundamental_div_mod(x2, 10);
    vstd::arithmetic::div_mod::lemma_mod_division_less_than_divisor(x2, 10);
    let q2 = x2 / 10;
    assert(x1 >= 10 * q2 + 2 * SCALE);
    vstd::arithmetic::div_mod::lemma_div_is_ordered(10 * q2 + 2 * SCALE, x1, 10);
    vstd::arithmetic::div_mod::lemma_hoist_over_denominator(2 * SCALE as int, q2, 10);
    assert(q2 * 10 == 10 * q2) by (nonlinear_arith);
    assert((2 * SCALE as int) / 10 == 26843545);
    assert(x1 / 10 >= q2 + 26843545);
}

} // verus!
