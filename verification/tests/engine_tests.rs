use archenemy::engine::Engine;
use archenemy::types::Error;
use archenemy::user_types::{AddTagRequest, AddTagsRequest, CreateUserRequest, UpdateUserRequest};

fn new_user(id: &str) -> CreateUserRequest {
    CreateUserRequest {
        id: id.to_string(),
        username: format!("name-{}", id),
        display_name: None,
        avatar_url: None,
        bio: String::new(),
    }
}

fn engine_with_users(ids: &[&str]) -> Engine {
    let mut e = Engine::new();
    for id in ids {
        e.create_user(&new_user(id)).unwrap();
    }
    e
}

#[test]
fn create_and_get_user() {
    let mut e = Engine::new();
    let u = e.create_user(&new_user("alice")).unwrap();
    assert_eq!(u.id, "alice");
    assert!(u.embedding.is_some());
    assert_eq!(
        u.avatar_url.as_str(),
        "https://archenemy.nyc3.digitaloceanspaces.com/default.jpeg"
    );
    let got = e.get_user_by_id("alice").unwrap();
    assert_eq!(got.username, "name-alice");
    assert!(e.get_user_by_id("bob").is_none());
}

#[test]
fn duplicate_create_is_rejected() {
    let mut e = engine_with_users(&["alice"]);
    let err = e.create_user(&new_user("alice")).unwrap_err();
    assert!(matches!(err, Error::Database { .. }));
}

#[test]
fn get_or_create_creates_once() {
    let mut e = Engine::new();
    let first = e.get_or_create_current_user("zed");
    assert!(first.username.starts_with("user_"));
    let second = e.get_or_create_current_user("zed");
    assert_eq!(first.username, second.username);
    assert_eq!(e.users.len(), 1);
}

#[test]
fn update_user_changes_only_given_fields() {
    let mut e = engine_with_users(&["alice"]);
    let update = UpdateUserRequest {
        username: Some("fresh".to_string()),
        display_name: None,
        avatar_url: None,
        bio: Some("hello".to_string()),
    };
    let u = e.update_user("alice", &update).unwrap();
    assert_eq!(u.username, "fresh");
    assert_eq!(u.bio, "hello");
    let err = e.update_user("nobody", &update).unwrap_err();
    assert!(matches!(err, Error::NotFound { .. }));
}

#[test]
fn update_current_user_rejects_empty_username() {
    let mut e = engine_with_users(&["alice"]);
    let update = UpdateUserRequest {
        username: Some(String::new()),
        display_name: None,
        avatar_url: None,
        bio: None,
    };
    let err = e.update_current_user("alice", &update).unwrap_err();
    match err {
        Error::Validation { field, message } => {
            assert_eq!(field, "username");
            assert_eq!(message, "Username cannot be empty");
        }
        _ => panic!("expected a validation error"),
    }
}

#[test]
fn add_tag_creates_embedding_and_rejects_duplicates() {
    let mut e = engine_with_users(&["alice"]);
    let row = e.add_user_tag("alice", "introvert").unwrap();
    assert_eq!(row.user_id, "alice");
    assert_eq!(row.tag_name, "introvert");
    assert_eq!(e.tags.len(), 1);
    assert!(e.tags[0].embedding.is_some());
    let err = e.add_user_tag("alice", "introvert").unwrap_err();
    assert!(matches!(err, Error::NotFound { .. }));
}

#[test]
fn add_current_user_tag_rejects_empty_name() {
    let mut e = engine_with_users(&["alice"]);
    let err = e
        .add_current_user_tag("alice", &AddTagRequest { tag_name: String::new() })
        .unwrap_err();
    match err {
        Error::Validation { field, message } => {
            assert_eq!(field, "tag_name");
            assert_eq!(message, "Tag name cannot be empty");
        }
        _ => panic!("expected a validation error"),
    }
}

#[test]
fn user_tags_are_listed_most_recent_first() {
    let mut e = engine_with_users(&["alice"]);
    e.add_user_tag("alice", "one").unwrap();
    e.add_user_tag("alice", "two").unwrap();
    e.add_user_tag("alice", "three").unwrap();
    let tags: Vec<String> = e
        .get_user_tags("alice")
        .into_iter()
        .map(|t| t.tag_name)
        .collect();
    assert_eq!(tags, vec!["three", "two", "one"]);
}

#[test]
fn remove_user_tags_batch() {
    let mut e = engine_with_users(&["alice"]);
    e.add_user_tag("alice", "one").unwrap();
    e.add_user_tag("alice", "two").unwrap();
    e.add_user_tag("alice", "three").unwrap();
    e.remove_user_tag("alice", &vec!["one".to_string(), "three".to_string()])
        .unwrap();
    let tags: Vec<String> = e
        .get_user_tags("alice")
        .into_iter()
        .map(|t| t.tag_name)
        .collect();
    assert_eq!(tags, vec!["two"]);
}

#[test]
fn likes_and_dislikes_are_idempotent() {
    let mut e = engine_with_users(&["alice", "bob"]);
    e.add_like("alice", "bob").unwrap();
    e.add_like("alice", "bob").unwrap();
    assert_eq!(e.likes.len(), 1);
    e.add_dislike("alice", "bob").unwrap();
    e.add_dislike("alice", "bob").unwrap();
    assert_eq!(e.dislikes.len(), 1);
}

#[test]
fn like_user_checks_target_and_self() {
    let mut e = engine_with_users(&["alice", "bob"]);
    assert!(matches!(
        e.like_user("alice", "ghost").unwrap_err(),
        Error::NotFound { .. }
    ));
    match e.like_user("alice", "alice").unwrap_err() {
        Error::Validation { message, .. } => assert_eq!(message, "Cannot like yourself"),
        _ => panic!("expected a validation error"),
    }
    assert!(e.like_user("alice", "bob").is_ok());
}

#[test]
fn dislike_user_with_tags_records_reasons() {
    let mut e = engine_with_users(&["alice", "bob"]);
    let rows = e
        .dislike_user_with_tags(
            "alice",
            "bob",
            &AddTagsRequest {
                tag_names: vec!["boring".to_string(), String::new(), "rude".to_string()],
            },
        )
        .unwrap();
    let names: Vec<String> = rows
        .iter()
        .map(|r| r.tag_name.as_str().to_string())
        .collect();
    assert_eq!(names, vec!["boring", "rude"]);
    assert_eq!(e.dislikes.len(), 1);
    let stored = e.get_dislike_tags("alice", "bob");
    assert_eq!(stored.len(), 2);
}

#[test]
fn liked_users_listing_pages() {
    let mut e = engine_with_users(&["alice", "b1", "b2", "b3"]);
    e.add_like("alice", "b1").unwrap();
    e.add_like("alice", "b2").unwrap();
    e.add_like("alice", "b3").unwrap();
    let page = e.get_liked_users("alice", 2, 0);
    let ids: Vec<String> = page.iter().map(|(u, _)| u.id.clone()).collect();
    assert_eq!(ids, vec!["b3", "b2"]);
    let rest = e.get_liked_users("alice", 2, 2);
    let ids: Vec<String> = rest.iter().map(|(u, _)| u.id.clone()).collect();
    assert_eq!(ids, vec!["b1"]);
}

#[test]
fn discovery_excludes_self_liked_and_disliked() {
    let mut e = engine_with_users(&["me", "liked", "disliked", "fresh1", "fresh2"]);
    e.add_like("me", "liked").unwrap();
    e.add_dislike("me", "disliked").unwrap();
    let found = e.get_potential_nemeses("me", 100, 0).unwrap();
    let mut ids: Vec<String> = found.iter().map(|(u, _)| u.id.clone()).collect();
    ids.sort();
    assert_eq!(ids, vec!["fresh1", "fresh2"]);
}

#[test]
fn discovery_requires_known_requester() {
    let mut e = engine_with_users(&["somebody"]);
    let err = e.get_potential_nemeses("ghost", 10, 0).unwrap_err();
    match err {
        Error::NotFound { resource } => assert_eq!(resource, "User with ID ghost"),
        _ => panic!("expected not-found"),
    }
}

#[test]
fn discovery_pages_compose() {
    let mut e = engine_with_users(&["me", "c1", "c2", "c3", "c4"]);
    let all = e.get_potential_nemeses("me", 4, 0).unwrap();
    let first = e.get_potential_nemeses("me", 2, 0).unwrap();
    let second = e.get_potential_nemeses("me", 2, 2).unwrap();
    let glued: Vec<(String, i64)> = first
        .iter()
        .chain(second.iter())
        .map(|(u, s)| (u.id.clone(), *s))
        .collect();
    let whole: Vec<(String, i64)> = all.iter().map(|(u, s)| (u.id.clone(), *s)).collect();
    assert_eq!(glued, whole);
}

#[test]
fn discovery_lazily_creates_embedding_and_is_stable() {
    let mut e = Engine::new();
    e.create_user(&new_user("a")).unwrap();
    e.create_user(&new_user("b")).unwrap();
    e.create_user(&new_user("c")).unwrap();
    // strip the requester's embedding to exercise the lazy path
    e.users[0].embedding = None;
    assert!(e.get_user_by_id("a").unwrap().embedding.is_none());
    let first = e.get_potential_nemeses("a", 10, 0).unwrap();
    assert!(e.get_user_by_id("a").unwrap().embedding.is_some());
    let second = e.get_potential_nemeses("a", 10, 0).unwrap();
    let ids1: Vec<(String, i64)> = first.iter().map(|(u, s)| (u.id.clone(), *s)).collect();
    let ids2: Vec<(String, i64)> = second.iter().map(|(u, s)| (u.id.clone(), *s)).collect();
    assert_eq!(ids1, ids2);
}

#[test]
fn discovery_with_tags_attaches_tags() {
    let mut e = engine_with_users(&["me", "other"]);
    e.add_user_tag("other", "loud").unwrap();
    let found = e.get_potential_nemeses_with_tags("me", 10, 0).unwrap();
    assert_eq!(found.len(), 1);
    assert_eq!(found[0].user.id, "other");
    assert_eq!(found[0].tags.len(), 1);
    assert_eq!(found[0].tags[0].tag_name, "loud");
    assert!(found[0].compatibility_score.is_some());
}

#[test]
fn nemesis_tags_rank_by_opposition() {
    let mut e = engine_with_users(&["alice"]);
    e.add_user_tag("alice", "anchor").unwrap();
    e.add_user_tag("alice", "other1").unwrap();
    e.add_user_tag("alice", "other2").unwrap();
    let ranked = e.get_nemesis_tags("anchor", 10);
    assert_eq!(ranked.len(), 2);
    // distances ascend
    assert!(ranked[0].1 <= ranked[1].1);
    for (name, _) in &ranked {
        assert_ne!(name, "anchor");
    }
    assert!(e.get_nemesis_tags("missing", 10).is_empty());
    let limited = e.get_nemesis_tags("anchor", 1);
    assert_eq!(limited.len(), 1);
}

#[test]
fn all_tags_count_users_and_rank_by_popularity() {
    let mut e = engine_with_users(&["a", "b", "c"]);
    e.add_user_tag("a", "popular").unwrap();
    e.add_user_tag("b", "popular").unwrap();
    e.add_user_tag("c", "rare").unwrap();
    let counts = e.get_all_tags();
    assert_eq!(counts.len(), 2);
    assert_eq!(counts[0].tag_name.as_str(), "popular");
    assert_eq!(counts[0].user_count, 2);
    assert_eq!(counts[1].tag_name.as_str(), "rare");
    assert_eq!(counts[1].user_count, 1);
}

#[test]
fn tag_mutations_recompute_profile_embedding() {
    let mut e = engine_with_users(&["alice"]);
    e.add_user_tag("alice", "solo").unwrap();
    let got = e.get_user_by_id("alice").unwrap().embedding.unwrap();
    let expected = archenemy::embedding::normalize(
        archenemy::generator::generate_tag_embedding("solo"),
    );
    assert_eq!(got, expected);
}

#[test]
fn get_user_reports_not_found() {
    let mut e = engine_with_users(&["alice"]);
    assert!(e.get_user("alice").is_ok());
    match e.get_user("ghost").unwrap_err() {
        Error::NotFound { resource } => assert_eq!(resource, "User with ID ghost"),
        _ => panic!("expected not-found"),
    }
    match e.get_user_tags_checked("ghost").unwrap_err() {
        Error::NotFound { resource } => assert_eq!(resource, "User with ID ghost"),
        _ => panic!("expected not-found"),
    }
    e.add_user_tag("alice", "one").unwrap();
    assert_eq!(e.get_user_tags_checked("alice").unwrap().len(), 1);
}

#[test]
fn tag_embedding_is_created_once_and_never_overwritten() {
    let mut e = engine_with_users(&["alice", "bob"]);
    e.add_user_tag("alice", "shared").unwrap();
    let first = e.tags[0].embedding.clone().unwrap();
    e.add_user_tag("bob", "shared").unwrap();
    assert_eq!(e.tags.len(), 1);
    assert_eq!(e.tags[0].embedding.clone().unwrap(), first);
}

#[test]
fn update_user_refreshes_stored_updated_at() {
    let mut e = engine_with_users(&["alice"]);
    let before = e.get_user_by_id("alice").unwrap().updated_at;
    let update = UpdateUserRequest {
        username: None,
        display_name: None,
        avatar_url: None,
        bio: Some("new bio".to_string()),
    };
    e.update_user("alice", &update).unwrap();
    let after = e.get_user_by_id("alice").unwrap().updated_at;
    assert!(after > before);
}
