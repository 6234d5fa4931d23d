use archenemy::embedding::SCALE;
use archenemy::generator::generate_tag_embedding;
use archenemy::score::{negate, overlap_term, score, tag_term, user_term};

fn names(list: &[&str]) -> Vec<String> {
    list.iter().map(|s| s.to_string()).collect()
}

#[test]
fn overlap_term_disjoint_is_full() {
    let r = names(&["a", "b"]);
    let c = names(&["x", "y"]);
    assert_eq!(overlap_term(&r, &c), SCALE);
}

#[test]
fn overlap_term_identical_is_zero() {
    let r = names(&["a", "b"]);
    let c = names(&["a", "b"]);
    assert_eq!(overlap_term(&r, &c), 0);
}

#[test]
fn overlap_term_of_tagless_candidate_is_full() {
    let r = names(&["a", "b"]);
    let c = names(&[]);
    assert_eq!(overlap_term(&r, &c), SCALE);
}

#[test]
fn overlap_term_half_shared() {
    let r = names(&["a", "b"]);
    let c = names(&["a", "z"]);
    assert_eq!(overlap_term(&r, &c), SCALE - SCALE / 2);
}

#[test]
fn tag_term_is_neutral_without_tags() {
    let none: Vec<Vec<i64>> = Vec::new();
    let some = vec![generate_tag_embedding("a")];
    assert_eq!(tag_term(&none, &none), SCALE / 2);
    assert_eq!(tag_term(&some, &none), SCALE / 2);
    assert_eq!(tag_term(&none, &some), SCALE / 2);
}

#[test]
fn user_term_is_maximal_for_exact_negation() {
    let r = generate_tag_embedding("anchor");
    let c = negate(&r);
    assert_eq!(user_term(&r, &c), SCALE);
}

#[test]
fn negated_candidate_without_overlap_beats_full_overlap() {
    let r_emb = generate_tag_embedding("anchor");
    let c_emb = negate(&r_emb);
    let r_names = names(&["a", "b"]);
    let no_overlap = names(&["x", "y"]);
    let full_overlap = names(&["a", "b"]);
    let no_tags: Vec<Vec<i64>> = Vec::new();
    let s1 = score(&r_emb, &no_tags, &r_names, &c_emb, &no_tags, &no_overlap);
    let s2 = score(&r_emb, &no_tags, &r_names, &c_emb, &no_tags, &full_overlap);
    assert!(s1 > s2);
}

#[test]
fn score_stays_in_range() {
    let r_emb = generate_tag_embedding("one");
    let c_emb = generate_tag_embedding("two");
    let rt = vec![generate_tag_embedding("a"), generate_tag_embedding("b")];
    let ct = vec![generate_tag_embedding("x")];
    let s = score(
        &r_emb,
        &rt,
        &names(&["a", "b"]),
        &c_emb,
        &ct,
        &names(&["x"]),
    );
    assert!(0 <= s && s <= SCALE);
}
