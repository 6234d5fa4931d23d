use archenemy::embedding::{normalize, EMBED_DIM, NORM_TOL, SCALE};
use archenemy::generator::{
    generate_random_embedding, generate_random_username, generate_tag_embedding,
};
use archenemy::profile::compute_profile;

fn sum_sq(v: &Vec<i64>) -> i128 {
    let mut acc: i128 = 0;
    for x in v {
        acc += (*x as i128) * (*x as i128);
    }
    acc
}

fn unit_target() -> i128 {
    (SCALE as i128) * (SCALE as i128)
}

#[test]
fn generated_tag_vectors_are_unit_length() {
    for name in ["introvert", "coffee", "a", "rust-lang"] {
        let v = generate_tag_embedding(name);
        assert_eq!(v.len(), EMBED_DIM);
        let err = (sum_sq(&v) - unit_target()).abs();
        assert!(err <= NORM_TOL as i128);
    }
}

#[test]
fn generated_random_vectors_are_unit_length() {
    for _ in 0..4 {
        let v = generate_random_embedding();
        assert_eq!(v.len(), EMBED_DIM);
        let err = (sum_sq(&v) - unit_target()).abs();
        assert!(err <= NORM_TOL as i128);
    }
}

#[test]
fn tag_embedding_is_deterministic() {
    let a = generate_tag_embedding("introvert");
    let b = generate_tag_embedding("introvert");
    assert_eq!(a, b);
    let c = generate_tag_embedding("extrovert");
    assert_ne!(a, c);
}

#[test]
fn normalize_zero_vector_is_unchanged() {
    let zero = vec![0i64; EMBED_DIM];
    let out = normalize(zero.clone());
    assert_eq!(out, zero);
}

#[test]
fn normalize_scales_to_unit() {
    let mut v = vec![0i64; EMBED_DIM];
    v[0] = 3 * SCALE;
    let out = normalize(v);
    assert_eq!(out[0], SCALE);
    for x in out.iter().skip(1) {
        assert_eq!(*x, 0);
    }
}

#[test]
fn profile_of_single_tag_is_its_normalization() {
    let e = generate_tag_embedding("solo");
    let profile = compute_profile(&vec![e.clone()]);
    assert_eq!(profile, normalize(e));
}

#[test]
fn profile_is_order_invariant() {
    let a = generate_tag_embedding("alpha");
    let b = generate_tag_embedding("beta");
    let c = generate_tag_embedding("gamma");
    let p1 = compute_profile(&vec![a.clone(), b.clone(), c.clone()]);
    let p2 = compute_profile(&vec![c, a, b]);
    assert_eq!(p1, p2);
}

#[test]
fn profile_of_empty_set_is_random_unit_vector() {
    let p = compute_profile(&Vec::new());
    assert_eq!(p.len(), EMBED_DIM);
    let err = (sum_sq(&p) - unit_target()).abs();
    assert!(err <= NORM_TOL as i128);
}

#[test]
fn random_usernames_have_prefix_and_vary() {
    let a = generate_random_username();
    let b = generate_random_username();
    assert_eq!(a.len(), 37);
    assert!(a.starts_with("user_"));
    assert!(b.starts_with("user_"));
    assert_ne!(a, b);
}
