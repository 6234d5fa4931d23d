//! Embedding generation.
//!
//! A tag's embedding is a pure function of its name: a 64-bit FNV-1a hash of
//! the name's UTF-8 bytes seeds a deterministic generator, whose draws are
//! normalized. A user's initial embedding is drawn from a non-deterministic
//! generator and normalized the same way. The hash is part of this library's
//! pinned format: changing it would change every existing tag embedding.

use vstd::prelude::*;
use vstd::string::StringExecFns;
use vstd::utf8::encode_utf8;
use crate::embedding::{EMBED_DIM, SCALE, in_range, is_embedding, is_normalized_draw, normalize, normalize_spec};
use rand::Rng;
use rand::SeedableRng;

verus! {

/// FNV-1a 64-bit offset basis.
pub const FNV_OFFSET: u64 = 0xcbf29ce484222325;

/// FNV-1a 64-bit prime.
pub const FNV_PRIME: u64 = 0x100000001b3;

/// FNV-1a over the first `n` bytes of `s`.
pub open spec fn fnv1a_spec(s: Seq<u8>, n: int) -> u64
    decreases n,
{
    if n <= 0 {
        FNV_OFFSET
    } else {
        (fnv1a_spec(s, n - 1) ^ (s[n - 1] as u64)).wrapping_mul(FNV_PRIME)
    }
}

/// The seed a byte string derives: its full FNV-1a hash.
pub open spec fn name_seed(bytes: Seq<u8>) -> u64 {
    fnv1a_spec(bytes, bytes.len() as int)
}

/// FNV-1a hash of a string's UTF-8 bytes.
pub fn fnv1a_hash(s: &str) -> (h: u64)
    ensures
        h == name_seed(encode_utf8(s@)),
{
    let bytes: &[u8] = s.as_bytes();
    let mut h: u64 = 0xcbf29ce484222325;
    let mut i: usize = 0;
    while i < bytes.len()
        invariant
            bytes@ == encode_utf8(s@),
            i <= bytes@.len(),
            h == fnv1a_spec(bytes@, i as int),
        decreases bytes@.len() - i,
    {
        h = (h ^ (bytes[i] as u64)).wrapping_mul(0x100000001b3);
        i = i + 1;
    }
    h
}

/// The fixed sequence of `n` values in `[-bound, bound]` that a generator
/// seeded with `seed` draws. A pure function of its arguments: the seeded
/// generator is reproducible across processes and machines.
pub uninterp spec fn seeded_draws(seed: u64, n: int, bound: i64) -> Seq<i64>;

/// Relies on rand's `StdRng`: `SeedableRng::seed_from_u64` builds the same
/// generator state for the same seed, and `Rng::random_range` on an
/// inclusive integer range returns a value inside that range, so the whole
/// sequence of draws is a function of the seed alone (named `seeded_draws`).
#[verifier::external_body]
fn draw_seeded(seed: u64, n: usize, bound: i64) -> (v: Vec<i64>)
    requires
        1 <= bound,
    ensures
        v@ == seeded_draws(seed, n as int, bound),
        v@.len() == n,
        forall|i: int| 0 <= i < v@.len() ==> -bound <= #[trigger] v@[i] <= bound,
{
    let mut rng = rand::rngs::StdRng::seed_from_u64(seed);
    let mut out: Vec<i64> = Vec::with_capacity(n);
    for _ in 0..n {
        out.push(rng.random_range(-bound..=bound));
    }
    out
}

/// Relies on rand's `rng()` (the thread-local generator) and
/// `Rng::random_range` on an inclusive integer range: each draw lies inside
/// the range. Nothing more is promised: the draws are not reproducible.
#[verifier::external_body]
fn draw_random(n: usize, bound: i64) -> (v: Vec<i64>)
    requires
        1 <= bound,
    ensures
        v@.len() == n,
        forall|i: int| 0 <= i < v@.len() ==> -bound <= #[trigger] v@[i] <= bound,
{
    let mut rng = rand::rng();
    let mut out: Vec<i64> = Vec::with_capacity(n);
    for _ in 0..n {
        out.push(rng.random_range(-bound..=bound));
    }
    out
}

/// The embedding a tag name determines: the normalized draws of a generator
/// seeded with the FNV-1a hash of the name's UTF-8 bytes.
pub open spec fn tag_embedding_of(name: Seq<char>) -> Seq<i64> {
    normalize_spec(seeded_draws(name_seed(encode_utf8(name)), EMBED_DIM as int, SCALE))
}

/// Generate the embedding for a tag name. The contract pins the result to
/// `tag_embedding_of`, a function of the name alone, so two calls with the
/// same name yield bit-identical vectors, across runs and processes.
pub fn generate_tag_embedding(tag_name: &str) -> (r: Vec<i64>)
    ensures
        r@ == tag_embedding_of(tag_name@),
        is_embedding(r@),
        is_normalized_draw(r@),
{
    let seed = fnv1a_hash(tag_name);
    let draws = draw_seeded(seed, EMBED_DIM, SCALE);
    let ghost d = draws@;
    let r = normalize(draws);
    proof {
        assert(in_range(d) && d.len() == EMBED_DIM && r@ == normalize_spec(d));
    }
    r
}

/// Generate a fresh random embedding. Not deterministic: two calls may
/// return different vectors. The result is always the normalization of some
/// in-range draw, so it is a well-formed, near-unit embedding.
pub fn generate_random_embedding() -> (r: Vec<i64>)
    ensures
        is_embedding(r@),
        is_normalized_draw(r@),
{
    let draws = draw_random(EMBED_DIM, SCALE);
    let ghost d = draws@;
    let r = normalize(draws);
    proof {
        assert(in_range(d) && d.len() == EMBED_DIM && r@ == normalize_spec(d));
    }
    r
}

/// One lowercase hex character.
pub open spec fn is_hex_char(c: char) -> bool {
    ('0' <= c && c <= '9') || ('a' <= c && c <= 'f')
}

/// Relies on uuid's `Uuid::new_v4` and its `simple` formatter: the simple
/// form of a UUID is exactly 32 lowercase hexadecimal digits.
#[verifier::external_body]
fn fresh_uuid_simple() -> (r: String)
    ensures
        r@.len() == 32,
        forall|i: int| 0 <= i < r@.len() ==> is_hex_char(#[trigger] r@[i]),
{
    let id = uuid::Uuid::new_v4();
    format!("{}", id.simple())
}

/// A fresh random username: `user_` followed by 32 random hex digits.
pub fn generate_random_username() -> (r: String)
    ensures
        r@.len() == 37,
        r@.take(5) == "user_"@,
        forall|i: int| 5 <= i < r@.len() ==> is_hex_char(#[trigger] r@[i]),
{
    let suffix = fresh_uuid_simple();
    let mut s = "user_".to_owned();
    proof {
        reveal_strlit("user_");
    }
    s.append(suffix.as_str());
    proof {
        assert(s@.take(5) =~= "user_"@);
    }
    s
}

} // verus!
