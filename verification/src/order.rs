//! Deterministic ranking.
//!
//! Discovery results are ordered by descending score; scores tie often
//! enough that a deterministic secondary key is needed, and none is
//! documented for the store's ordering, so ties are broken by the byte
//! order of the candidate id (an explicit, documented addition). The sort
//! is a spec-level insertion sort, so a ranked list is a pure function of
//! its input and pagination windows compose.

use vstd::prelude::*;
use vstd::utf8::encode_utf8;

verus! {

/// Byte-lexicographic `<=` on byte strings.
pub open spec fn bytes_le(a: Seq<u8>, b: Seq<u8>) -> bool
    decreases a.len(),
{
    if a.len() == 0 {
        true
    } else if b.len() == 0 {
        false
    } else if a[0] < b[0] {
        true
    } else if a[0] > b[0] {
        false
    } else {
        bytes_le(a.drop_first(), b.drop_first())
    }
}

/// `<=` on strings, by the byte order of their UTF-8 encodings.
pub open spec fn str_le_spec(a: Seq<char>, b: Seq<char>) -> bool {
    bytes_le(encode_utf8(a), encode_utf8(b))
}

pub proof fn lemma_bytes_le_total(a: Seq<u8>, b: Seq<u8>)
    ensures
        bytes_le(a, b) || bytes_le(b, a),
    decreases a.len(),
{
    if a.len() > 0 && b.len() > 0 && a[0] == b[0] {
        lemma_bytes_le_total(a.drop_first(), b.drop_first());
    }
}

pub proof fn lemma_bytes_le_trans(a: Seq<u8>, b: Seq<u8>, c: Seq<u8>)
    requires
        bytes_le(a, b),
        bytes_le(b, c),
    ensures
        bytes_le(a, c),
    decreases a.len(),
{
    if a.len() > 0 && b.len() > 0 && c.len() > 0 && a[0] == b[0] && b[0] == c[0] {
        lemma_bytes_le_trans(a.drop_first(), b.drop_first(), c.drop_first());
    }
}

pub proof fn lemma_bytes_le_antisym(a: Seq<u8>, b: Seq<u8>)
    requires
        bytes_le(a, b),
        bytes_le(b, a),
    ensures
        a == b,
    decreases a.len(),
{
    if a.len() > 0 && b.len() > 0 && a[0] == b[0] {
        lemma_bytes_le_antisym(a.drop_first(), b.drop_first());
        assert(a =~= seq![a[0]] + a.drop_first());
        assert(b =~= seq![b[0]] + b.drop_first());
    } else {
        assert(a.len() == 0 && b.len() == 0);
        assert(a =~= b);
    }
}

/// Decide `bytes_le` on two byte slices.
fn bytes_le_exec(a: &[u8], b: &[u8]) -> (r: bool)
    ensures
        r == bytes_le(a@, b@),
{
    let mut i: usize = 0;
    let na = a.len();
    let nb = b.len();
    proof {
        assert(a@.skip(0) =~= a@);
        assert(b@.skip(0) =~= b@);
    }
    while i < na && i < nb
        invariant
            i <= a@.len(),
            i <= b@.len(),
            na == a@.len(),
            nb == b@.len(),
            forall|j: int| 0 <= j < i as int ==> a@[j] == b@[j],
            bytes_le(a@, b@) == bytes_le(a@.skip(i as int), b@.skip(i as int)),
        decreases a@.len() - i,
    {
        let x = a[i];
        let y = b[i];
        proof {
            let sa = a@.skip(i as int);
            let sb = b@.skip(i as int);
            assert(sa[0] == a@[i as int] && sb[0] == b@[i as int]);
            assert(sa.drop_first() =~= a@.skip(i as int + 1));
            assert(sb.drop_first() =~= b@.skip(i as int + 1));
        }
        if x < y {
            return true;
        }
        if x > y {
            return false;
        }
        i = i + 1;
    }
    proof {
        let sa = a@.skip(i as int);
        let sb = b@.skip(i as int);
        assert(sa.len() == 0 || sb.len() == 0);
    }
    na <= nb
}

/// Decide the byte order of two strings.
pub fn str_le(a: &str, b: &str) -> (r: bool)
    ensures
        r == str_le_spec(a@, b@),
{
    bytes_le_exec(a.as_bytes(), b.as_bytes())
}

/// A total, transitive ranking; what discovery sorts by.
pub trait RankOrd: Sized {
    /// The order relation.
    spec fn rle(&self, other: &Self) -> bool;

    /// The order is total.
    proof fn lemma_rle_total(a: &Self, b: &Self)
        ensures
            a.rle(b) || b.rle(a),
    ;

    /// The order is transitive.
    proof fn lemma_rle_trans(a: &Self, b: &Self, c: &Self)
        requires
            a.rle(b),
            b.rle(c),
        ensures
            a.rle(c),
    ;

    /// Decide the order.
    fn rle_exec(&self, other: &Self) -> (r: bool)
        ensures
            r == self.rle(other),
    ;
}

/// Where an element lands when inserted into a ranked list: before the
/// first element it ranks no later than.
pub open spec fn insert_sorted<T: RankOrd>(x: T, s: Seq<T>) -> Seq<T>
    decreases s.len(),
{
    if s.len() == 0 {
        seq![x]
    } else if x.rle(&s[0]) {
        seq![x] + s
    } else {
        seq![s[0]] + insert_sorted(x, s.drop_first())
    }
}

/// Insertion sort, as a pure function: the unique ranked order of a list.
pub open spec fn sort_spec<T: RankOrd>(s: Seq<T>) -> Seq<T>
    decreases s.len(),
{
    if s.len() == 0 {
        s
    } else {
        insert_sorted(s[0], sort_spec(s.drop_first()))
    }
}

/// The list is ranked.
pub open spec fn sorted<T: RankOrd>(s: Seq<T>) -> bool {
    forall|i: int, j: int| 0 <= i < j < s.len() ==> #[trigger] s[i].rle(&s[j])
}

pub proof fn lemma_insert_sorted_props<T: RankOrd>(x: T, s: Seq<T>)
    requires
        sorted(s),
    ensures
        sorted(insert_sorted(x, s)),
        insert_sorted(x, s).to_multiset() == s.to_multiset().insert(x),
        insert_sorted(x, s).len() == s.len() + 1,
    decreases s.len(),
{
    broadcast use vstd::seq_lib::group_to_multiset_ensures;

    let r = insert_sorted(x, s);
    if s.len() == 0 {
        assert(r =~= s.push(x));
        assert(r.to_multiset() =~= s.to_multiset().insert(x));
    } else if x.rle(&s[0]) {
        assert(r == seq![x] + s);
        assert forall|i: int, j: int| 0 <= i < j < r.len() implies #[trigger] r[i].rle(&r[j]) by {
            if i == 0 {
                if j == 1 {
                    assert(r[j] == s[0]);
                } else {
                    assert(r[j] == s[j - 1]);
                    assert(s[0].rle(&s[j - 1]));
                    T::lemma_rle_trans(&x, &s[0], &s[j - 1]);
                }
            } else {
                assert(r[i] == s[i - 1] && r[j] == s[j - 1]);
            }
        }
        assert(r =~= s.insert(0, x));
        lemma_insert_multiset(s, x, 0);
    } else {
        T::lemma_rle_total(&x, &s[0]);
        assert(s[0].rle(&x));
        let tail = s.drop_first();
        assert(sorted::<T>(tail)) by {
            assert forall|i: int, j: int| 0 <= i < j < tail.len() implies #[trigger] tail[i].rle(&tail[j]) by {
                assert(tail[i] == s[i + 1] && tail[j] == s[j + 1]);
            }
        }
        lemma_insert_sorted_props(x, tail);
        let rt = insert_sorted(x, tail);
        assert(r == seq![s[0]] + rt);
        assert forall|i: int, j: int| 0 <= i < j < r.len() implies #[trigger] r[i].rle(&r[j]) by {
            if i == 0 {
                assert(r[j] == rt[j - 1]);
                assert(rt.to_multiset().count(rt[j - 1]) > 0);
                assert(rt.to_multiset() == tail.to_multiset().insert(x));
                if rt[j - 1] == x {
                    assert(s[0].rle(&x));
                } else {
                    assert(tail.to_multiset().count(rt[j - 1]) > 0);
                    assert(tail.contains(rt[j - 1]));
                    let k = choose|k: int| 0 <= k < tail.len() && tail[k] == rt[j - 1];
                    assert(s[0].rle(&s[k + 1]));
                }
            } else {
                assert(r[i] == rt[i - 1] && r[j] == rt[j - 1]);
            }
        }
        assert(r.to_multiset() =~= s.to_multiset().insert(x)) by {
            assert(r =~= rt.insert(0, s[0]));
            lemma_insert_multiset(rt, s[0], 0);
            assert(s =~= tail.insert(0, s[0]));
            lemma_insert_multiset(tail, s[0], 0);
            assert(rt.to_multiset() == tail.to_multiset().insert(x));
        }
    }
}

/// `Seq::insert` adds one occurrence to the multiset.
proof fn lemma_insert_multiset<T>(s: Seq<T>, x: T, i: int)
    requires
        0 <= i <= s.len(),
    ensures
        s.insert(i, x).to_multiset() =~= s.to_multiset().insert(x),
{
    broadcast use vstd::seq_lib::group_to_multiset_ensures;

    let r = s.insert(i, x);
    assert(r.remove(i) =~= s);
    assert(r.remove(i).to_multiset() =~= r.to_multiset().remove(r[i]));
    assert(r[i] == x);
    assert(r.to_multiset().count(x) >= 1) by {
        assert(r.contains(x));
    }
    assert forall|y: T| true implies r.to_multiset().count(y) == s.to_multiset().insert(x).count(y)
        by {
        if y == x {
            assert(s.to_multiset().count(x) == r.to_multiset().remove(x).count(x));
        } else {
            assert(s.to_multiset().count(y) == r.to_multiset().remove(x).count(y));
        }
    }
}

/// The spec sort is ranked and keeps exactly the input's elements.
pub proof fn lemma_sort_spec_props<T: RankOrd>(s: Seq<T>)
    ensures
        sorted(sort_spec(s)),
        sort_spec(s).to_multiset() == s.to_multiset(),
        sort_spec(s).len() == s.len(),
    decreases s.len(),
{
    broadcast use vstd::seq_lib::group_to_multiset_ensures;

    if s.len() > 0 {
        let tail = s.drop_first();
        lemma_sort_spec_props(tail);
        lemma_insert_sorted_props(s[0], sort_spec(tail));
        assert(s =~= tail.insert(0, s[0]));
        lemma_insert_multiset(tail, s[0], 0);
    }
}

/// The first position whose element the new one ranks no later than.
fn find_insert_pos<T: RankOrd>(v: &Vec<T>, x: &T) -> (p: usize)
    ensures
        p <= v@.len(),
        forall|j: int| 0 <= j < p as int ==> !(#[trigger] x.rle(&v@[j])),
        (p as int) < v@.len() ==> x.rle(&v@[p as int]),
{
    let mut idx: usize = 0;
    while idx < v.len()
        invariant
            idx <= v@.len(),
            forall|j: int| 0 <= j < idx as int ==> !(#[trigger] x.rle(&v@[j])),
        decreases v@.len() - idx,
    {
        if x.rle_exec(&v[idx]) {
            return idx;
        }
        idx = idx + 1;
    }
    idx
}

/// Insert one element into a ranked vector, keeping it ranked.
pub fn insert_ranked<T: RankOrd>(v: &mut Vec<T>, x: T)
    ensures
        final(v)@ == insert_sorted(x, old(v)@),
{
    let ghost s = v@;
    let idx = find_insert_pos(v, &x);
    proof {
        lemma_insert_sorted_position(x, s, idx as int);
    }
    v.insert(idx, x);
}

/// Where the scan stops is where `insert_sorted` puts the element.
proof fn lemma_insert_sorted_position<T: RankOrd>(x: T, s: Seq<T>, p: int)
    requires
        0 <= p <= s.len(),
        forall|j: int| 0 <= j < p ==> !(#[trigger] x.rle(&s[j])),
        p < s.len() ==> x.rle(&s[p]),
    ensures
        insert_sorted(x, s) == s.insert(p, x),
    decreases p,
{
    if p == 0 {
        if s.len() == 0 {
            assert(insert_sorted(x, s) =~= s.insert(0, x));
        } else {
            assert(insert_sorted(x, s) == seq![x] + s);
            assert(seq![x] + s =~= s.insert(0, x));
        }
    } else {
        let tail = s.drop_first();
        assert(!x.rle(&s[0]));
        assert forall|j: int| 0 <= j < p - 1 implies !(#[trigger] x.rle(&tail[j])) by {
            assert(tail[j] == s[j + 1]);
        }
        assert(p - 1 < tail.len() ==> x.rle(&tail[p - 1]));
        lemma_insert_sorted_position(x, tail, p - 1);
        assert(insert_sorted(x, s) == seq![s[0]] + tail.insert(p - 1, x));
        assert(seq![s[0]] + tail.insert(p - 1, x) =~= s.insert(p, x));
    }
}

/// Sort a vector by rank: the result is exactly `sort_spec` of the input.
pub fn sort_ranked<T: RankOrd>(v: Vec<T>) -> (r: Vec<T>)
    ensures
        r@ == sort_spec(v@),
        sorted(r@),
        r@.to_multiset() == v@.to_multiset(),
        r@.len() == v@.len(),
{
    let ghost orig = v@;
    let mut src = v;
    let mut out: Vec<T> = Vec::new();
    proof {
        assert(orig.take(orig.len() as int) =~= orig);
        assert(orig.skip(orig.len() as int) =~= Seq::<T>::empty());
        assert(sort_spec(orig.skip(orig.len() as int)) =~= Seq::<T>::empty());
    }
    while src.len() > 0
        invariant
            src@.len() <= orig.len(),
            src@ == orig.take(src@.len() as int),
            out@ == sort_spec(orig.skip(src@.len() as int)),
        decreases src@.len(),
    {
        let ghost k = src@.len() as int;
        let x = match src.pop() {
            Some(x) => x,
            None => {
                proof {
                    assert(false);
                }
                unreached()
            },
        };
        proof {
            assert(orig.take(k)[k - 1] == orig[k - 1]);
            assert(src@ =~= orig.take(k - 1));
            let suf = orig.skip(k - 1);
            assert(suf[0] == orig[k - 1]);
            assert(suf.drop_first() =~= orig.skip(k));
            assert(sort_spec(suf) == insert_sorted(orig[k - 1], sort_spec(orig.skip(k))));
        }
        insert_ranked(&mut out, x);
    }
    proof {
        assert(orig.skip(0) =~= orig);
        lemma_sort_spec_props(orig);
    }
    out
}

/// A ranking key: a string view and an integer.
pub open spec fn asc_rank_le(a: (Seq<char>, i64), b: (Seq<char>, i64)) -> bool {
    a.1 < b.1 || (a.1 == b.1 && str_le_spec(a.0, b.0))
}

/// Descending by the integer, ties by the string's byte order.
pub open spec fn desc_rank_le(a: (Seq<char>, i64), b: (Seq<char>, i64)) -> bool {
    a.1 > b.1 || (a.1 == b.1 && str_le_spec(a.0, b.0))
}

/// `asc_rank_le` as a spec-function value.
pub open spec fn asc_rank() -> spec_fn((Seq<char>, i64), (Seq<char>, i64)) -> bool {
    |a: (Seq<char>, i64), b: (Seq<char>, i64)| asc_rank_le(a, b)
}

/// `desc_rank_le` as a spec-function value.
pub open spec fn desc_rank() -> spec_fn((Seq<char>, i64), (Seq<char>, i64)) -> bool {
    |a: (Seq<char>, i64), b: (Seq<char>, i64)| desc_rank_le(a, b)
}

/// Insertion into a view-level ranked list.
pub open spec fn vinsert(
    le: spec_fn((Seq<char>, i64), (Seq<char>, i64)) -> bool,
    x: (Seq<char>, i64),
    s: Seq<(Seq<char>, i64)>,
) -> Seq<(Seq<char>, i64)>
    decreases s.len(),
{
    if s.len() == 0 {
        seq![x]
    } else if le(x, s[0]) {
        seq![x] + s
    } else {
        seq![s[0]] + vinsert(le, x, s.drop_first())
    }
}

/// View-level insertion sort: the ranked order of a list of keys, as a
/// pure function of the keys alone.
pub open spec fn vsort(
    le: spec_fn((Seq<char>, i64), (Seq<char>, i64)) -> bool,
    s: Seq<(Seq<char>, i64)>,
) -> Seq<(Seq<char>, i64)>
    decreases s.len(),
{
    if s.len() == 0 {
        s
    } else {
        vinsert(le, s[0], vsort(le, s.drop_first()))
    }
}

proof fn lemma_vinsert_commute<T: RankOrd>(
    x: T,
    s: Seq<T>,
    vw: spec_fn(T) -> (Seq<char>, i64),
    le: spec_fn((Seq<char>, i64), (Seq<char>, i64)) -> bool,
)
    requires
        forall|a: T, b: T| (#[trigger] a.rle(&b)) == le(vw(a), vw(b)),
    ensures
        insert_sorted(x, s).map_values(vw) == vinsert(le, vw(x), s.map_values(vw)),
    decreases s.len(),
{
    let m = s.map_values(vw);
    if s.len() == 0 {
        assert(insert_sorted(x, s).map_values(vw) =~= seq![vw(x)]);
    } else if x.rle(&s[0]) {
        assert(le(vw(x), m[0]));
        assert((seq![x] + s).map_values(vw) =~= seq![vw(x)] + m);
    } else {
        assert(!le(vw(x), m[0]));
        lemma_vinsert_commute(x, s.drop_first(), vw, le);
        assert(s.drop_first().map_values(vw) =~= m.drop_first());
        assert((seq![s[0]] + insert_sorted(x, s.drop_first())).map_values(vw) =~= seq![m[0]]
            + insert_sorted(x, s.drop_first()).map_values(vw));
    }
}

/// Sorting commutes with taking views: the view of the exec sort's result
/// is the view-level sort of the views, so a ranked list is a pure
/// function of the data's view.
pub proof fn lemma_sort_view_commute<T: RankOrd>(
    s: Seq<T>,
    vw: spec_fn(T) -> (Seq<char>, i64),
    le: spec_fn((Seq<char>, i64), (Seq<char>, i64)) -> bool,
)
    requires
        forall|a: T, b: T| (#[trigger] a.rle(&b)) == le(vw(a), vw(b)),
    ensures
        sort_spec(s).map_values(vw) == vsort(le, s.map_values(vw)),
    decreases s.len(),
{
    let m = s.map_values(vw);
    if s.len() == 0 {
        assert(sort_spec(s).map_values(vw) =~= vsort(le, m));
    } else {
        lemma_sort_view_commute(s.drop_first(), vw, le);
        lemma_vinsert_commute(s[0], sort_spec(s.drop_first()), vw, le);
        assert(s.drop_first().map_values(vw) =~= m.drop_first());
        assert(m[0] == vw(s[0]));
    }
}

} // verus!
