//! Profile aggregation: a user's profile embedding is the normalized
//! componentwise mean of the user's tag embeddings. A user with no tag
//! embeddings gets a fresh random embedding instead. The mean does not
//! depend on the order the embeddings are supplied in.

use vstd::prelude::*;
use crate::embedding::{
    EMBED_DIM, SCALE, in_range, is_embedding, is_normalized_draw, normalize, normalize_spec,
    trunc_div,
};
use crate::generator::generate_random_embedding;

verus! {

/// The views of a sequence of vectors.
pub open spec fn views_of(s: Seq<Vec<i64>>) -> Seq<Seq<i64>> {
    s.map_values(|v: Vec<i64>| v@)
}

/// Every vector in the set is a well-formed embedding.
pub open spec fn all_embeddings(vs: Seq<Seq<i64>>) -> bool {
    forall|k: int| 0 <= k < vs.len() ==> is_embedding(#[trigger] vs[k])
}

/// Sum of component `j` over the first `k` vectors.
pub open spec fn col_sum(vs: Seq<Seq<i64>>, j: int, k: int) -> int
    decreases k,
{
    if k <= 0 {
        0
    } else {
        col_sum(vs, j, k - 1) + vs[k - 1][j]
    }
}

/// Sum of component `j` over all vectors.
pub open spec fn col_sum_full(vs: Seq<Seq<i64>>, j: int) -> int {
    col_sum(vs, j, vs.len() as int)
}

/// Componentwise arithmetic mean, rounded toward zero. Only meaningful for
/// a non-empty set.
pub open spec fn mean_spec(vs: Seq<Seq<i64>>) -> Seq<i64> {
    Seq::new(EMBED_DIM as nat, |j: int| trunc_div(col_sum_full(vs, j), vs.len() as int) as i64)
}

/// The profile of a non-empty set of tag embeddings: the normalized mean.
pub open spec fn profile_spec(vs: Seq<Seq<i64>>) -> Seq<i64> {
    normalize_spec(mean_spec(vs))
}

/// `col_sum` only looks at the first `k` vectors.
proof fn lemma_col_sum_congruent(a: Seq<Seq<i64>>, b: Seq<Seq<i64>>, j: int, k: int)
    requires
        forall|i: int| 0 <= i < k ==> a[i] == b[i],
    ensures
        col_sum(a, j, k) == col_sum(b, j, k),
    decreases k,
{
    if k > 0 {
        lemma_col_sum_congruent(a, b, j, k - 1);
    }
}

/// Removing one vector removes exactly its contribution to a column sum.
proof fn lemma_col_sum_remove(vs: Seq<Seq<i64>>, j: int, i: int)
    requires
        0 <= i < vs.len(),
    ensures
        col_sum_full(vs, j) == col_sum_full(vs.remove(i), j) + vs[i][j],
    decreases vs.len(),
{
    let n = vs.len() as int;
    if i == n - 1 {
        lemma_col_sum_congruent(vs, vs.remove(i), j, n - 1);
    } else {
        let prefix = vs.take(n - 1);
        lemma_col_sum_congruent(vs, prefix, j, n - 1);
        lemma_col_sum_remove(prefix, j, i);
        assert(prefix.remove(i) =~= vs.remove(i).take(n - 2));
        lemma_col_sum_congruent(vs.remove(i), vs.remove(i).take(n - 2), j, n - 2);
        assert(vs.remove(i)[n - 2] == vs[n - 1]);
    }
}

/// Column sums are invariant under permutation.
proof fn lemma_col_sum_permutation(a: Seq<Seq<i64>>, b: Seq<Seq<i64>>, j: int)
    requires
        a.to_multiset() == b.to_multiset(),
    ensures
        col_sum_full(a, j) == col_sum_full(b, j),
    decreases a.len(),
{
    broadcast use vstd::seq_lib::group_to_multiset_ensures;

    a.to_multiset_ensures();
    b.to_multiset_ensures();
    if a.len() == 0 {
        assert(b.len() == 0);
    } else {
        let n = a.len() as int;
        let x = a[n - 1];
        assert(a.to_multiset().count(x) > 0);
        assert(b.to_multiset().count(x) > 0);
        assert(b.contains(x));
        let i = choose|i: int| 0 <= i < b.len() && b[i] == x;
        assert(a.remove(n - 1).to_multiset() =~= a.to_multiset().remove(x));
        assert(b.remove(i).to_multiset() =~= b.to_multiset().remove(x));
        lemma_col_sum_permutation(a.remove(n - 1), b.remove(i), j);
        lemma_col_sum_remove(a, j, n - 1);
        lemma_col_sum_remove(b, j, i);
    }
}

/// The mean, and so the profile, is invariant under permutation: supplying
/// the same embeddings in another order yields the same profile.
pub proof fn lemma_profile_order_invariant(a: Seq<Seq<i64>>, b: Seq<Seq<i64>>)
    requires
        a.to_multiset() == b.to_multiset(),
    ensures
        profile_spec(a) == profile_spec(b),
{
    broadcast use vstd::seq_lib::group_to_multiset_ensures;

    a.to_multiset_ensures();
    b.to_multiset_ensures();
    assert(a.len() == b.len());
    assert forall|j: int| 0 <= j < EMBED_DIM implies col_sum_full(a, j) == col_sum_full(b, j) by {
        lemma_col_sum_permutation(a, b, j);
    }
    assert(mean_spec(a) =~= mean_spec(b));
}

/// The profile of a single embedding is that embedding normalized: the mean
/// of one vector is the vector itself.
pub proof fn lemma_profile_singleton(v: Seq<i64>)
    requires
        is_embedding(v),
    ensures
        profile_spec(seq![v]) == normalize_spec(v),
{
    let vs = seq![v];
    assert forall|j: int| 0 <= j < EMBED_DIM implies mean_spec(vs)[j] == v[j] by {
        assert(col_sum_full(vs, j) == col_sum(vs, j, 0) + vs[0][j]);
        assert(trunc_div(v[j] as int, 1) == v[j]) by {
            assert(v[j] / 1 == v[j]);
            assert((-(v[j] as int)) / 1 == -(v[j] as int));
        }
    }
    assert(mean_spec(vs) =~= v);
}

/// Compute a user's profile embedding. For a non-empty set this is the
/// normalized componentwise mean, independent of input order; for an empty
/// set it is a freshly drawn random embedding (so two calls for a tagless
/// user need not agree).
pub fn compute_profile(embs: &Vec<Vec<i64>>) -> (r: Vec<i64>)
    requires
        all_embeddings(views_of(embs@)),
    ensures
        is_embedding(r@),
        embs@.len() > 0 ==> r@ == profile_spec(views_of(embs@)),
        is_normalized_draw(r@),
{
    let n = embs.len();
    if n == 0 {
        return generate_random_embedding();
    }
    let ghost vs = views_of(embs@);
    let mut mean: Vec<i64> = Vec::new();
    let mut j: usize = 0;
    while j < EMBED_DIM
        invariant
            n == embs@.len(),
            n > 0,
            vs == views_of(embs@),
            all_embeddings(vs),
            j <= EMBED_DIM,
            mean@.len() == j,
            forall|p: int| 0 <= p < j as int ==> #[trigger] mean@[p] as int
                == trunc_div(col_sum_full(vs, p), n as int),
            forall|p: int| 0 <= p < j as int ==> -SCALE <= #[trigger] mean@[p] <= SCALE,
        decreases EMBED_DIM - j,
    {
        let mut acc: i128 = 0;
        let mut k: usize = 0;
        while k < n
            invariant
                n == embs@.len(),
                vs == views_of(embs@),
                all_embeddings(vs),
                j < EMBED_DIM,
                k <= n,
                acc as int == col_sum(vs, j as int, k as int),
                -(k as int) * (SCALE as int) <= acc as int <= (k as int) * (SCALE as int),
            decreases n - k,
        {
            let row = &embs[k];
            assert(vs[k as int] == row@);
            assert(row@.len() == EMBED_DIM && -SCALE <= row@[j as int] <= SCALE);
            let x = row[j];
            proof {
                assert(-((k + 1) as int) * (SCALE as int) <= acc as int + x as int
                    <= ((k + 1) as int) * (SCALE as int)) by (nonlinear_arith)
                    requires
                        -(k as int) * (SCALE as int) <= acc as int <= (k as int) * (SCALE as int),
                        -SCALE <= x as int <= SCALE;
                assert((n as int) * (SCALE as int) < 170141183460469231731687303715884105727int)
                    by (nonlinear_arith)
                    requires n as int <= 18446744073709551615 && SCALE == 134217728;
                assert(((k + 1) as int) * (SCALE as int) <= (n as int) * (SCALE as int))
                    by (nonlinear_arith)
                    requires k as int + 1 <= n as int && SCALE >= 0;
            }
            acc = acc + (x as i128);
            k = k + 1;
        }
        let neg = acc < 0;
        let mag: u128 = if neg {
            (-acc) as u128
        } else {
            acc as u128
        };
        proof {
            assert(mag as int <= (n as int) * (SCALE as int)) by (nonlinear_arith)
                requires
                    -(n as int) * (SCALE as int) <= acc as int <= (n as int) * (SCALE as int),
                    mag as int == -(acc as int) || mag as int == acc as int;
            assert((mag as int) / (n as int) <= ((n as int) * (SCALE as int)) / (n as int))
                by (nonlinear_arith)
                requires mag as int <= (n as int) * (SCALE as int), n as int >= 1;
            vstd::arithmetic::div_mod::lemma_div_multiples_vanish(SCALE as int, n as int);
            vstd::arithmetic::div_mod::lemma_div_pos_is_pos(mag as int, n as int);
        }
        let q: u128 = mag / (n as u128);
        let val: i64 = if neg {
            -(q as i64)
        } else {
            q as i64
        };
        assert(val as int == trunc_div(col_sum_full(vs, j as int), n as int));
        mean.push(val);
        j = j + 1;
    }
    assert(mean@ =~= mean_spec(vs));
    normalize(mean)
}

} // verus!
