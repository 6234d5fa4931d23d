//! The records the engine stores and serves: users, tags, the rows that
//! link them, and the request/response shapes around them. Timestamps are
//! logical ticks handed out by the engine's clock; row ids are handed out
//! by its row counter.

use vstd::prelude::*;
use crate::embedding::is_embedding;
use crate::validate::{TagName, Url, Wrapped};

verus! {

/// A stored user profile.
#[derive(Debug, Clone)]
pub struct User {
    pub id: String,
    pub username: String,
    pub display_name: Option<String>,
    pub avatar_url: Url,
    pub bio: String,
    pub embedding: Option<Vec<i64>>,
    pub created_at: u64,
    pub updated_at: u64,
}

/// What a new user is created from.
#[derive(Debug, Clone)]
pub struct CreateUserRequest {
    pub id: String,
    pub username: String,
    pub display_name: Option<String>,
    pub avatar_url: Option<Url>,
    pub bio: String,
}

/// A partial profile update; only the present fields change.
#[derive(Debug, Clone)]
pub struct UpdateUserRequest {
    pub username: Option<String>,
    pub display_name: Option<String>,
    pub avatar_url: Option<Url>,
    pub bio: Option<String>,
}

/// A user-to-tag association.
#[derive(Debug, Clone)]
pub struct UserTag {
    pub id: u64,
    pub user_id: String,
    pub tag_name: String,
    pub created_at: u64,
}

/// A Like edge.
#[derive(Debug, Clone)]
pub struct UserLike {
    pub id: u64,
    pub user_id: String,
    pub target_user_id: String,
    pub created_at: u64,
}

/// A Dislike edge.
#[derive(Debug, Clone)]
pub struct UserDislike {
    pub id: u64,
    pub user_id: String,
    pub target_user_id: String,
    pub created_at: u64,
}

/// A tag attached to a Dislike edge.
#[derive(Debug, Clone)]
pub struct UserDislikeTag {
    pub id: u64,
    pub user_id: String,
    pub target_user_id: String,
    pub tag_name: TagName,
    pub created_at: u64,
}

/// A stored tag; its embedding is created lazily on first use.
#[derive(Debug, Clone)]
pub struct Tag {
    pub name: String,
    pub embedding: Option<Vec<i64>>,
}

/// A tag name with the number of users carrying it.
#[derive(Debug, Clone)]
pub struct TagCount {
    pub tag_name: TagName,
    pub user_count: i64,
}

/// A user together with their tags and an opposition score.
#[derive(Debug, Clone)]
pub struct UserWithTags {
    pub user: User,
    pub tags: Vec<UserTag>,
    pub compatibility_score: Option<i64>,
}

/// Pagination window of a list request.
#[derive(Debug, Clone)]
pub struct PaginationParams {
    pub limit: Option<i64>,
    pub offset: Option<i64>,
}

impl PaginationParams {
    /// The limit to use: the given one, or 10.
    pub open spec fn spec_limit(&self) -> int {
        match self.limit {
            Some(l) => l as int,
            None => 10,
        }
    }

    /// The offset to use: the given one, or 0.
    pub open spec fn spec_offset(&self) -> int {
        match self.offset {
            Some(o) => o as int,
            None => 0,
        }
    }

    pub fn limit_or_default(&self) -> (r: i64)
        ensures
            r as int == self.spec_limit(),
    {
        match self.limit {
            Some(l) => l,
            None => 10,
        }
    }

    pub fn offset_or_default(&self) -> (r: i64)
        ensures
            r as int == self.spec_offset(),
    {
        match self.offset {
            Some(o) => o,
            None => 0,
        }
    }
}

/// Request to add one tag.
#[derive(Debug, Clone)]
pub struct AddTagRequest {
    pub tag_name: String,
}

/// Request to add several tags.
#[derive(Debug, Clone)]
pub struct AddTagsRequest {
    pub tag_names: Vec<String>,
}

/// The view of an optional string.
pub open spec fn opt_str_view(o: Option<String>) -> Option<Seq<char>> {
    match o {
        Some(s) => Some(s@),
        None => None,
    }
}

/// The view of an optional embedding.
pub open spec fn opt_emb_view(o: Option<Vec<i64>>) -> Option<Seq<i64>> {
    match o {
        Some(v) => Some(v@),
        None => None,
    }
}

/// Two users carry the same data.
pub open spec fn user_view_eq(a: User, b: User) -> bool {
    &&& a.id@ == b.id@
    &&& a.username@ == b.username@
    &&& opt_str_view(a.display_name) == opt_str_view(b.display_name)
    &&& a.avatar_url.content() == b.avatar_url.content()
    &&& a.bio@ == b.bio@
    &&& opt_emb_view(a.embedding) == opt_emb_view(b.embedding)
    &&& a.created_at == b.created_at
    &&& a.updated_at == b.updated_at
}

/// Two user-tag rows carry the same data.
pub open spec fn user_tag_view_eq(a: UserTag, b: UserTag) -> bool {
    &&& a.id == b.id
    &&& a.user_id@ == b.user_id@
    &&& a.tag_name@ == b.tag_name@
    &&& a.created_at == b.created_at
}

/// Two like rows carry the same data.
pub open spec fn like_view_eq(a: UserLike, b: UserLike) -> bool {
    &&& a.id == b.id
    &&& a.user_id@ == b.user_id@
    &&& a.target_user_id@ == b.target_user_id@
    &&& a.created_at == b.created_at
}

/// Two dislike rows carry the same data.
pub open spec fn dislike_view_eq(a: UserDislike, b: UserDislike) -> bool {
    &&& a.id == b.id
    &&& a.user_id@ == b.user_id@
    &&& a.target_user_id@ == b.target_user_id@
    &&& a.created_at == b.created_at
}

/// Two dislike-tag rows carry the same data.
pub open spec fn dislike_tag_view_eq(a: UserDislikeTag, b: UserDislikeTag) -> bool {
    &&& a.id == b.id
    &&& a.user_id@ == b.user_id@
    &&& a.target_user_id@ == b.target_user_id@
    &&& a.tag_name.content() == b.tag_name.content()
    &&& a.created_at == b.created_at
}

/// Copy an optional string.
pub fn copy_opt_string(o: &Option<String>) -> (r: Option<String>)
    ensures
        opt_str_view(r) == opt_str_view(*o),
{
    match o {
        Some(s) => Some(s.clone()),
        None => None,
    }
}

/// Copy an embedding vector.
pub fn copy_embedding(v: &Vec<i64>) -> (r: Vec<i64>)
    ensures
        r@ == v@,
{
    let mut out: Vec<i64> = Vec::new();
    let mut i: usize = 0;
    while i < v.len()
        invariant
            i <= v@.len(),
            out@ == v@.take(i as int),
        decreases v@.len() - i,
    {
        out.push(v[i]);
        proof {
            assert(out@ =~= v@.take(i as int + 1));
        }
        i = i + 1;
    }
    proof {
        assert(v@.take(v@.len() as int) =~= v@);
    }
    out
}

/// Copy an optional embedding.
pub fn copy_opt_embedding(o: &Option<Vec<i64>>) -> (r: Option<Vec<i64>>)
    ensures
        opt_emb_view(r) == opt_emb_view(*o),
{
    match o {
        Some(v) => Some(copy_embedding(v)),
        None => None,
    }
}

/// Copy a user record.
pub fn copy_user(u: &User) -> (r: User)
    ensures
        user_view_eq(r, *u),
{
    User {
        id: u.id.clone(),
        username: u.username.clone(),
        display_name: copy_opt_string(&u.display_name),
        avatar_url: Url::raw(u.avatar_url.as_str().to_owned()),
        bio: u.bio.clone(),
        embedding: copy_opt_embedding(&u.embedding),
        created_at: u.created_at,
        updated_at: u.updated_at,
    }
}

/// Copy a user-tag row.
pub fn copy_user_tag(t: &UserTag) -> (r: UserTag)
    ensures
        user_tag_view_eq(r, *t),
{
    UserTag {
        id: t.id,
        user_id: t.user_id.clone(),
        tag_name: t.tag_name.clone(),
        created_at: t.created_at,
    }
}

/// Copy a like row.
pub fn copy_like(t: &UserLike) -> (r: UserLike)
    ensures
        like_view_eq(r, *t),
{
    UserLike {
        id: t.id,
        user_id: t.user_id.clone(),
        target_user_id: t.target_user_id.clone(),
        created_at: t.created_at,
    }
}

/// Copy a dislike row.
pub fn copy_dislike(t: &UserDislike) -> (r: UserDislike)
    ensures
        dislike_view_eq(r, *t),
{
    UserDislike {
        id: t.id,
        user_id: t.user_id.clone(),
        target_user_id: t.target_user_id.clone(),
        created_at: t.created_at,
    }
}

/// Copy a dislike-tag row.
pub fn copy_dislike_tag(t: &UserDislikeTag) -> (r: UserDislikeTag)
    ensures
        dislike_tag_view_eq(r, *t),
{
    UserDislikeTag {
        id: t.id,
        user_id: t.user_id.clone(),
        target_user_id: t.target_user_id.clone(),
        tag_name: TagName::raw(t.tag_name.as_str().to_owned()),
        created_at: t.created_at,
    }
}

/// A stored user is well-formed when its embedding, if present, is one.
pub open spec fn user_wf(u: User) -> bool {
    match u.embedding {
        Some(e) => is_embedding(e@),
        None => true,
    }
}

/// A stored tag is well-formed when its embedding, if present, is one.
pub open spec fn tag_wf(t: Tag) -> bool {
    match t.embedding {
        Some(e) => is_embedding(e@),
        None => true,
    }
}

} // verus!
