//! The in-process store and the operations the service exposes over it.
//!
//! The engine holds the users, tags, user-tag rows and relationship edges
//! in insertion order, hands out logical timestamps from a clock, and
//! keeps these invariants: ids and names are unique, every stored
//! embedding is well-formed, relationship edges are unique per pair, and
//! every tag a user carries exists in the tag table with an embedding.

use vstd::prelude::*;
use vstd::string::StringExecFns;
use vstd::utf8::encode_utf8;
use crate::embedding::{is_embedding, is_normalized_draw, SCALE};
use crate::generator::{
    generate_random_embedding, generate_random_username, generate_tag_embedding, is_hex_char,
    tag_embedding_of,
};
use crate::types::Error;
use crate::user_types::{
    copy_opt_string, copy_user, opt_emb_view, opt_str_view, user_view_eq, user_wf, tag_wf,
    CreateUserRequest, Tag, TagCount, UpdateUserRequest, User, UserTag,
};
use crate::order::{
    asc_rank, asc_rank_le, desc_rank, desc_rank_le, sort_ranked, str_le, vsort, RankOrd,
};
use crate::score::{cos_sim, cos_sim_spec, neg_spec, negate};
use crate::validate::TagName;
use crate::validate::{Url, Wrapped};

verus! {

/// Decide whether two strings are equal.
pub fn str_eq(a: &str, b: &str) -> (r: bool)
    ensures
        r == (a@ == b@),
{
    let ab: &[u8] = a.as_bytes();
    let bb: &[u8] = b.as_bytes();
    let n = ab.len();
    if n != bb.len() {
        proof {
            assert(a@ != b@);
        }
        return false;
    }
    let mut i: usize = 0;
    while i < n
        invariant
            n == ab@.len(),
            n == bb@.len(),
            i <= n,
            ab@ == encode_utf8(a@),
            bb@ == encode_utf8(b@),
            forall|j: int| 0 <= j < i as int ==> ab@[j] == bb@[j],
        decreases n - i,
    {
        if ab[i] != bb[i] {
            proof {
                assert(encode_utf8(a@) != encode_utf8(b@));
            }
            return false;
        }
        i = i + 1;
    }
    proof {
        assert(ab@ =~= bb@);
        broadcast use vstd::utf8::encode_utf8_decode_utf8;

        assert(vstd::utf8::decode_utf8(encode_utf8(a@)) == a@);
        assert(vstd::utf8::decode_utf8(encode_utf8(b@)) == b@);
    }
    true
}

/// Index of the user with this id, or -1.
pub open spec fn find_user_idx(users: Seq<User>, id: Seq<char>) -> int
    decreases users.len(),
{
    if users.len() == 0 {
        -1
    } else if users[0].id@ == id {
        0
    } else {
        let r = find_user_idx(users.drop_first(), id);
        if r == -1 {
            -1
        } else {
            r + 1
        }
    }
}

pub proof fn lemma_find_user_idx(users: Seq<User>, id: Seq<char>)
    ensures
        ({
            let f = find_user_idx(users, id);
            &&& f >= -1
            &&& f == -1 ==> forall|i: int| 0 <= i < users.len() ==> (#[trigger] users[i].id@) != id
            &&& f >= 0 ==> f < users.len() && users[f].id@ == id && forall|i: int|
                0 <= i < f ==> (#[trigger] users[i].id@) != id
        }),
    decreases users.len(),
{
    if users.len() > 0 && users[0].id@ != id {
        let tail = users.drop_first();
        lemma_find_user_idx(tail, id);
        let f = find_user_idx(users, id);
        let ft = find_user_idx(tail, id);
        if ft == -1 {
            assert forall|i: int| 0 <= i < users.len() implies (#[trigger] users[i].id@) != id by {
                if i > 0 {
                    assert(users[i] == tail[i - 1]);
                }
            }
        } else {
            assert(users[f] == tail[ft]);
            assert forall|i: int| 0 <= i < f implies (#[trigger] users[i].id@) != id by {
                if i > 0 {
                    assert(users[i] == tail[i - 1]);
                }
            }
        }
    }
}

/// Index of the tag with this name, or -1.
pub open spec fn find_tag_idx(tags: Seq<Tag>, name: Seq<char>) -> int
    decreases tags.len(),
{
    if tags.len() == 0 {
        -1
    } else if tags[0].name@ == name {
        0
    } else {
        let r = find_tag_idx(tags.drop_first(), name);
        if r == -1 {
            -1
        } else {
            r + 1
        }
    }
}

pub proof fn lemma_find_tag_idx(tags: Seq<Tag>, name: Seq<char>)
    ensures
        ({
            let f = find_tag_idx(tags, name);
            &&& f >= -1
            &&& f == -1 ==> forall|i: int| 0 <= i < tags.len() ==> (#[trigger] tags[i].name@)
                != name
            &&& f >= 0 ==> f < tags.len() && tags[f].name@ == name && forall|i: int|
                0 <= i < f ==> (#[trigger] tags[i].name@) != name
        }),
    decreases tags.len(),
{
    if tags.len() > 0 && tags[0].name@ != name {
        let tail = tags.drop_first();
        lemma_find_tag_idx(tail, name);
        let f = find_tag_idx(tags, name);
        let ft = find_tag_idx(tail, name);
        if ft == -1 {
            assert forall|i: int| 0 <= i < tags.len() implies (#[trigger] tags[i].name@) != name by {
                if i > 0 {
                    assert(tags[i] == tail[i - 1]);
                }
            }
        } else {
            assert(tags[f] == tail[ft]);
            assert forall|i: int| 0 <= i < f implies (#[trigger] tags[i].name@) != name by {
                if i > 0 {
                    assert(tags[i] == tail[i - 1]);
                }
            }
        }
    }
}

/// The rows matching `pred`, most recently inserted first.
pub open spec fn filter_desc<A>(s: Seq<A>, pred: spec_fn(A) -> bool) -> Seq<A>
    decreases s.len(),
{
    if s.len() == 0 {
        Seq::empty()
    } else {
        let rest = filter_desc(s.drop_last(), pred);
        if pred(s.last()) {
            seq![s.last()] + rest
        } else {
            rest
        }
    }
}

/// Peeling the oldest row off the front appends it, if kept, at the back.
pub proof fn lemma_filter_desc_cons<A>(x: A, t: Seq<A>, pred: spec_fn(A) -> bool)
    ensures
        filter_desc(seq![x] + t, pred) == filter_desc(t, pred) + (if pred(x) {
            seq![x]
        } else {
            Seq::<A>::empty()
        }),
    decreases t.len(),
{
    let s = seq![x] + t;
    let tail = if pred(x) {
        seq![x]
    } else {
        Seq::<A>::empty()
    };
    if t.len() == 0 {
        assert(s =~= seq![x]);
        assert(s.drop_last() =~= Seq::<A>::empty());
        assert(s.drop_last().len() == 0);
        assert(filter_desc(s.drop_last(), pred) == Seq::<A>::empty());
        assert(s.last() == x);
        assert(filter_desc(t, pred) == Seq::<A>::empty());
        if pred(x) {
            assert(filter_desc(s, pred) == seq![x] + Seq::<A>::empty());
            assert(seq![x] + Seq::<A>::empty() =~= Seq::<A>::empty() + tail);
        } else {
            assert(filter_desc(s, pred) == Seq::<A>::empty());
            assert(Seq::<A>::empty() =~= Seq::<A>::empty() + tail);
        }
    } else {
        assert(s.last() == t.last());
        assert(s.drop_last() =~= seq![x] + t.drop_last());
        lemma_filter_desc_cons(x, t.drop_last(), pred);
        if pred(t.last()) {
            assert(filter_desc(s, pred) == seq![t.last()] + filter_desc(s.drop_last(), pred));
            assert(seq![t.last()] + (filter_desc(t.drop_last(), pred) + tail) =~= (seq![t.last()]
                + filter_desc(t.drop_last(), pred)) + tail);
        }
    }
}

/// Every kept row satisfies the predicate and came from the table.
pub proof fn lemma_filter_desc_pred<A>(s: Seq<A>, pred: spec_fn(A) -> bool)
    ensures
        forall|i: int| 0 <= i < filter_desc(s, pred).len() ==> pred(
            #[trigger] filter_desc(s, pred)[i],
        ),
        filter_desc(s, pred).len() <= s.len(),
    decreases s.len(),
{
    if s.len() > 0 {
        lemma_filter_desc_pred(s.drop_last(), pred);
    }
}

/// The page `[offset, offset + limit)` of a list, with negative values
/// treated as zero and the end clamped to the list.
pub open spec fn page_window<A>(s: Seq<A>, offset: int, limit: int) -> Seq<A> {
    let o = if offset < 0 {
        0
    } else if offset > s.len() {
        s.len() as int
    } else {
        offset
    };
    let l = if limit < 0 {
        0
    } else {
        limit
    };
    let e = if o + l > s.len() {
        s.len() as int
    } else {
        o + l
    };
    s.subrange(o, e)
}

/// Restrict a vector to one page, in place.
pub fn apply_window<T>(v: &mut Vec<T>, offset: i64, limit: i64)
    ensures
        final(v)@ == page_window(old(v)@, offset as int, limit as int),
{
    let n = v.len();
    let o: usize = if offset < 0 {
        0
    } else if (offset as u128) >= (n as u128) {
        n
    } else {
        offset as usize
    };
    let l: usize = if limit < 0 {
        0
    } else if (limit as u128) >= ((n - o) as u128) {
        n - o
    } else {
        limit as usize
    };
    proof {
        assert(o + l <= n);
    }
    v.truncate(o + l);
    proof {
        assert(v@ == old(v)@.subrange(0, (o + l) as int));
    }
    let mut removed: usize = 0;
    while removed < o
        invariant
            n == old(v)@.len(),
            o + l <= n,
            o <= n,
            removed <= o,
            v@ == old(v)@.subrange(removed as int, (o + l) as int),
        decreases o - removed,
    {
        proof {
            assert(v@.len() == o + l - removed);
        }
        let _ = v.remove(0);
        proof {
            assert(v@ =~= old(v)@.subrange(removed as int + 1, (o + l) as int));
        }
        removed = removed + 1;
    }
    proof {
        assert(v@ =~= page_window(old(v)@, offset as int, limit as int));
    }
}

/// A user-tag row for this pair exists.
pub open spec fn has_user_tag(tab: Seq<UserTag>, uid: Seq<char>, name: Seq<char>) -> bool {
    exists|i: int|
        0 <= i < tab.len() && (#[trigger] tab[i]).user_id@ == uid && tab[i].tag_name@ == name
}

/// The tag exists and already carries an embedding.
pub open spec fn tag_resolved(tags: Seq<Tag>, name: Seq<char>) -> bool {
    exists|j: int|
        0 <= j < tags.len() && (#[trigger] tags[j]).name@ == name && tags[j].embedding is Some
}

/// The nemesis-matching engine over an in-process store.
pub struct Engine {
    pub users: Vec<User>,
    pub tags: Vec<Tag>,
    pub user_tags: Vec<UserTag>,
    pub likes: Vec<crate::user_types::UserLike>,
    pub dislikes: Vec<crate::user_types::UserDislike>,
    pub dislike_tags: Vec<crate::user_types::UserDislikeTag>,
    pub clock: u64,
    pub next_row_id: u64,
}

impl Engine {
    /// The store's invariants.
    pub open spec fn wf(self) -> bool {
        &&& forall|i: int, j: int|
            0 <= i < j < self.users@.len() ==> (#[trigger] self.users@[i].id@) != (
            #[trigger] self.users@[j].id@)
        &&& forall|i: int, j: int|
            0 <= i < j < self.tags@.len() ==> (#[trigger] self.tags@[i].name@) != (
            #[trigger] self.tags@[j].name@)
        &&& forall|i: int| 0 <= i < self.users@.len() ==> user_wf(#[trigger] self.users@[i])
        &&& forall|i: int| 0 <= i < self.tags@.len() ==> tag_wf(#[trigger] self.tags@[i])
        &&& forall|i: int, j: int|
            0 <= i < j < self.user_tags@.len() ==> !((#[trigger] self.user_tags@[i]).user_id@
                == (#[trigger] self.user_tags@[j]).user_id@ && self.user_tags@[i].tag_name@
                == self.user_tags@[j].tag_name@)
        &&& forall|i: int, j: int|
            0 <= i < j < self.likes@.len() ==> !((#[trigger] self.likes@[i]).user_id@ == (
            #[trigger] self.likes@[j]).user_id@ && self.likes@[i].target_user_id@
                == self.likes@[j].target_user_id@)
        &&& forall|i: int, j: int|
            0 <= i < j < self.dislikes@.len() ==> !((#[trigger] self.dislikes@[i]).user_id@ == (
            #[trigger] self.dislikes@[j]).user_id@ && self.dislikes@[i].target_user_id@
                == self.dislikes@[j].target_user_id@)
        &&& forall|i: int, j: int|
            0 <= i < j < self.dislike_tags@.len() ==> !((
            #[trigger] self.dislike_tags@[i]).user_id@ == (
            #[trigger] self.dislike_tags@[j]).user_id@ && self.dislike_tags@[i].target_user_id@
                == self.dislike_tags@[j].target_user_id@ && self.dislike_tags@[i].tag_name.content()
                == self.dislike_tags@[j].tag_name.content())
        &&& forall|i: int|
            0 <= i < self.user_tags@.len() ==> tag_resolved(
                self.tags@,
                (#[trigger] self.user_tags@[i]).tag_name@,
            )
    }

    /// A fresh, empty store.
    pub fn new() -> (r: Engine)
        ensures
            r.wf(),
            r.users@.len() == 0,
            r.tags@.len() == 0,
            r.user_tags@.len() == 0,
            r.likes@.len() == 0,
            r.dislikes@.len() == 0,
            r.dislike_tags@.len() == 0,
    {
        Engine {
            users: Vec::new(),
            tags: Vec::new(),
            user_tags: Vec::new(),
            likes: Vec::new(),
            dislikes: Vec::new(),
            dislike_tags: Vec::new(),
            clock: 0,
            next_row_id: 0,
        }
    }

    /// Advance the logical clock, saturating at its maximum.
    fn tick(&mut self)
        ensures
            final(self).users == old(self).users,
            final(self).tags == old(self).tags,
            final(self).user_tags == old(self).user_tags,
            final(self).likes == old(self).likes,
            final(self).dislikes == old(self).dislikes,
            final(self).dislike_tags == old(self).dislike_tags,
            final(self).next_row_id == old(self).next_row_id,
            old(self).wf() ==> final(self).wf(),
    {
        if self.clock < 18446744073709551615 {
            self.clock = self.clock + 1;
        }
    }

    /// Hand out the next row id, saturating at its maximum.
    fn fresh_row_id(&mut self) -> (r: u64)
        ensures
            final(self).users == old(self).users,
            final(self).tags == old(self).tags,
            final(self).user_tags == old(self).user_tags,
            final(self).likes == old(self).likes,
            final(self).dislikes == old(self).dislikes,
            final(self).dislike_tags == old(self).dislike_tags,
            final(self).clock == old(self).clock,
            old(self).wf() ==> final(self).wf(),
    {
        let r = self.next_row_id;
        if self.next_row_id < 18446744073709551615 {
            self.next_row_id = self.next_row_id + 1;
        }
        r
    }

    /// Position of the user with this id.
    fn find_user(&self, id: &str) -> (r: Option<usize>)
        ensures
            match r {
                Some(i) => find_user_idx(self.users@, id@) == i as int,
                None => find_user_idx(self.users@, id@) == -1,
            },
    {
        let n = self.users.len();
        let mut i: usize = 0;
        while i < n
            invariant
                n == self.users@.len(),
                i <= n,
                forall|j: int| 0 <= j < i as int ==> (#[trigger] self.users@[j].id@) != id@,
            decreases n - i,
        {
            if str_eq(self.users[i].id.as_str(), id) {
                proof {
                    lemma_find_user_idx(self.users@, id@);
                    let f = find_user_idx(self.users@, id@);
                    assert(f >= 0);
                    assert(!(f < i as int));
                    assert(!(f > i as int)) by {
                        if f > i as int {
                            assert(self.users@[i as int].id@ != id@);
                        }
                    }
                }
                return Some(i);
            }
            i = i + 1;
        }
        proof {
            lemma_find_user_idx(self.users@, id@);
            let f = find_user_idx(self.users@, id@);
            if f >= 0 {
                assert(self.users@[f].id@ != id@);
            }
        }
        None
    }

    /// Position of the tag with this name.
    fn find_tag(&self, name: &str) -> (r: Option<usize>)
        ensures
            match r {
                Some(i) => find_tag_idx(self.tags@, name@) == i as int,
                None => find_tag_idx(self.tags@, name@) == -1,
            },
    {
        let n = self.tags.len();
        let mut i: usize = 0;
        while i < n
            invariant
                n == self.tags@.len(),
                i <= n,
                forall|j: int| 0 <= j < i as int ==> (#[trigger] self.tags@[j].name@) != name@,
            decreases n - i,
        {
            if str_eq(self.tags[i].name.as_str(), name) {
                proof {
                    lemma_find_tag_idx(self.tags@, name@);
                    let f = find_tag_idx(self.tags@, name@);
                    assert(f >= 0);
                    assert(!(f > i as int)) by {
                        if f > i as int {
                            assert(self.tags@[i as int].name@ != name@);
                        }
                    }
                }
                return Some(i);
            }
            i = i + 1;
        }
        proof {
            lemma_find_tag_idx(self.tags@, name@);
            let f = find_tag_idx(self.tags@, name@);
            if f >= 0 {
                assert(self.tags@[f].name@ != name@);
            }
        }
        None
    }

    /// Fetch a user by id; `None` when no such user exists.
    pub fn get_user_by_id(&self, id: &str) -> (r: Option<User>)
        ensures
            match r {
                Some(u) => ({
                    let f = find_user_idx(self.users@, id@);
                    f >= 0 && user_view_eq(u, self.users@[f])
                }),
                None => find_user_idx(self.users@, id@) == -1,
            },
    {
        proof {
            lemma_find_user_idx(self.users@, id@);
        }
        match self.find_user(id) {
            Some(i) => Some(copy_user(&self.users[i])),
            None => None,
        }
    }

    /// Create a user. The id must be new; the new profile gets the default
    /// avatar when none is supplied, and a fresh random embedding.
    pub fn create_user(&mut self, req: &CreateUserRequest) -> (r: Result<User, Error>)
        requires
            old(self).wf(),
        ensures
            final(self).wf(),
            r is Ok <==> find_user_idx(old(self).users@, req.id@) == -1,
            r is Err ==> *final(self) == *old(self) && (r matches Err(Error::Database { .. })),
            r is Ok ==> ({
                let u = final(self).users@.last();
                &&& final(self).users@.len() == old(self).users@.len() + 1
                &&& final(self).users@.take(old(self).users@.len() as int) == old(self).users@
                &&& u.id@ == req.id@
                &&& u.username@ == req.username@
                &&& opt_str_view(u.display_name) == opt_str_view(req.display_name)
                &&& u.avatar_url.content() == (match req.avatar_url {
                    Some(a) => a.content(),
                    None => "https://archenemy.nyc3.digitaloceanspaces.com/default.jpeg"@,
                })
                &&& u.bio@ == req.bio@
                &&& u.embedding is Some && is_embedding(opt_emb_view(u.embedding)->0)
                &&& is_normalized_draw(opt_emb_view(u.embedding)->0)
                &&& u.created_at == old(self).clock && u.updated_at == old(self).clock
                &&& (r matches Ok(v) && user_view_eq(v, u))
                &&& final(self).tags == old(self).tags
                &&& final(self).user_tags == old(self).user_tags
                &&& final(self).likes == old(self).likes
                &&& final(self).dislikes == old(self).dislikes
                &&& final(self).dislike_tags == old(self).dislike_tags
            }),
    {
        proof {
            lemma_find_user_idx(self.users@, req.id@);
        }
        if self.find_user(req.id.as_str()).is_some() {
            return Err(
                Error::Database { message: "duplicate key value violates unique constraint".to_owned() },
            );
        }
        let avatar_url = match &req.avatar_url {
            Some(a) => Url::raw(a.as_str().to_owned()),
            None => Url::raw("https://archenemy.nyc3.digitaloceanspaces.com/default.jpeg".to_owned()),
        };
        let embedding = generate_random_embedding();
        let now = self.clock;
        let u = User {
            id: req.id.clone(),
            username: req.username.clone(),
            display_name: copy_opt_string(&req.display_name),
            avatar_url,
            bio: req.bio.clone(),
            embedding: Some(embedding),
            created_at: now,
            updated_at: now,
        };
        let out = copy_user(&u);
        self.users.push(u);
        self.tick();
        proof {
            let users = final(self).users@;
            assert(users.take(old(self).users@.len() as int) =~= old(self).users@);
            assert forall|i: int, j: int| 0 <= i < j < users.len() implies (
            #[trigger] users[i].id@) != (#[trigger] users[j].id@) by {
                if j == users.len() - 1 {
                    assert(users[i] == old(self).users@[i]);
                }
            }
        }
        Ok(out)
    }

    /// Fetch the profile for an authenticated id, creating it on first
    /// sight with a random username, empty bio, and the default avatar.
    pub fn get_or_create_current_user(&mut self, id: &str) -> (r: User)
        requires
            old(self).wf(),
        ensures
            final(self).wf(),
            find_user_idx(old(self).users@, id@) >= 0 ==> *final(self) == *old(self)
                && user_view_eq(r, old(self).users@[find_user_idx(old(self).users@, id@)]),
            find_user_idx(old(self).users@, id@) == -1 ==> ({
                &&& final(self).users@.len() == old(self).users@.len() + 1
                &&& final(self).users@.take(old(self).users@.len() as int) == old(self).users@
                &&& user_view_eq(r, final(self).users@.last())
                &&& r.id@ == id@
                &&& r.bio@ == ""@
                &&& opt_str_view(r.display_name) is None
                &&& r.username@.len() == 37
                &&& r.username@.take(5) == "user_"@
                &&& (forall|i: int| 5 <= i < r.username@.len() ==> is_hex_char(
                    #[trigger] r.username@[i],
                ))
                &&& r.avatar_url.content()
                    == "https://archenemy.nyc3.digitaloceanspaces.com/default.jpeg"@
                &&& r.embedding is Some
                &&& is_normalized_draw(opt_emb_view(r.embedding)->0)
                &&& final(self).tags == old(self).tags
                &&& final(self).user_tags == old(self).user_tags
                &&& final(self).likes == old(self).likes
                &&& final(self).dislikes == old(self).dislikes
                &&& final(self).dislike_tags == old(self).dislike_tags
            }),
    {
        proof {
            lemma_find_user_idx(self.users@, id@);
        }
        match self.get_user_by_id(id) {
            Some(u) => u,
            None => {
                let req = CreateUserRequest {
                    id: id.to_owned(),
                    username: generate_random_username(),
                    display_name: None,
                    avatar_url: None,
                    bio: "".to_owned(),
                };
                match self.create_user(&req) {
                    Ok(u) => u,
                    Err(_) => {
                        proof {
                            assert(false);
                        }
                        unreached()
                    },
                }
            },
        }
    }
}

impl Engine {
    /// All tags of a user, most recently added first.
    pub fn get_user_tags(&self, user_id: &str) -> (r: Vec<UserTag>)
        ensures
            ({
                let rows = filter_desc(
                    self.user_tags@,
                    |t: UserTag| t.user_id@ == user_id@,
                );
                &&& r@.len() == rows.len()
                &&& forall|m: int| 0 <= m < rows.len() ==> crate::user_types::user_tag_view_eq(
                    #[trigger] r@[m],
                    rows[m],
                )
            }),
    {
        let ghost pred = |t: UserTag| t.user_id@ == user_id@;
        let n = self.user_tags.len();
        let mut out: Vec<UserTag> = Vec::new();
        let mut k: usize = n;
        proof {
            assert(self.user_tags@.skip(n as int) =~= Seq::<UserTag>::empty());
        }
        while k > 0
            invariant
                n == self.user_tags@.len(),
                k <= n,
                pred == (|t: UserTag| t.user_id@ == user_id@),
                out@.len() == filter_desc(self.user_tags@.skip(k as int), pred).len(),
                forall|m: int| 0 <= m < out@.len() ==> crate::user_types::user_tag_view_eq(
                    #[trigger] out@[m],
                    filter_desc(self.user_tags@.skip(k as int), pred)[m],
                ),
            decreases k,
        {
            k = k - 1;
            let row = &self.user_tags[k];
            proof {
                assert(self.user_tags@.skip(k as int) =~= seq![self.user_tags@[k as int]]
                    + self.user_tags@.skip(k as int + 1));
                lemma_filter_desc_cons(
                    self.user_tags@[k as int],
                    self.user_tags@.skip(k as int + 1),
                    pred,
                );
            }
            if str_eq(row.user_id.as_str(), user_id) {
                out.push(crate::user_types::copy_user_tag(row));
            }
        }
        proof {
            assert(self.user_tags@.skip(0) =~= self.user_tags@);
        }
        out
    }

    /// A like edge for this pair exists.
    pub open spec fn spec_has_like(self, uid: Seq<char>, tid: Seq<char>) -> bool {
        exists|i: int|
            0 <= i < self.likes@.len() && (#[trigger] self.likes@[i]).user_id@ == uid
                && self.likes@[i].target_user_id@ == tid
    }

    /// A dislike edge for this pair exists.
    pub open spec fn spec_has_dislike(self, uid: Seq<char>, tid: Seq<char>) -> bool {
        exists|i: int|
            0 <= i < self.dislikes@.len() && (#[trigger] self.dislikes@[i]).user_id@ == uid
                && self.dislikes@[i].target_user_id@ == tid
    }

    /// Record a Like edge. Idempotent: a duplicate attempt is silently
    /// ignored and the existing edge is returned.
    pub fn add_like(&mut self, user_id: &str, target_user_id: &str) -> (r: Result<
        crate::user_types::UserLike,
        Error,
    >)
        requires
            old(self).wf(),
        ensures
            final(self).wf(),
            r is Ok,
            old(self).spec_has_like(user_id@, target_user_id@) ==> *final(self) == *old(self),
            !old(self).spec_has_like(user_id@, target_user_id@) ==> ({
                &&& final(self).likes@.len() == old(self).likes@.len() + 1
                &&& final(self).likes@.take(old(self).likes@.len() as int) == old(self).likes@
                &&& final(self).likes@.last().user_id@ == user_id@
                &&& final(self).likes@.last().target_user_id@ == target_user_id@
                &&& final(self).likes@.last().created_at == old(self).clock
                &&& final(self).users == old(self).users
                &&& final(self).tags == old(self).tags
                &&& final(self).user_tags == old(self).user_tags
                &&& final(self).dislikes == old(self).dislikes
                &&& final(self).dislike_tags == old(self).dislike_tags
            }),
            r matches Ok(v) ==> v.user_id@ == user_id@ && v.target_user_id@ == target_user_id@,
            final(self).spec_has_like(user_id@, target_user_id@),
    {
        let n = self.likes.len();
        let mut i: usize = 0;
        while i < n
            invariant
                *self == *old(self),
                self.wf(),
                n == self.likes@.len(),
                i <= n,
                forall|j: int|
                    0 <= j < i as int ==> !((#[trigger] self.likes@[j]).user_id@ == user_id@
                        && self.likes@[j].target_user_id@ == target_user_id@),
            decreases n - i,
        {
            let row = &self.likes[i];
            if str_eq(row.user_id.as_str(), user_id) && str_eq(
                row.target_user_id.as_str(),
                target_user_id,
            ) {
                return Ok(crate::user_types::copy_like(row));
            }
            i = i + 1;
        }
        let id = self.fresh_row_id();
        let row = crate::user_types::UserLike {
            id,
            user_id: user_id.to_owned(),
            target_user_id: target_user_id.to_owned(),
            created_at: self.clock,
        };
        let out = crate::user_types::copy_like(&row);
        let ghost oldlikes = self.likes@;
        self.likes.push(row);
        self.tick();
        proof {
            assert(final(self).likes@.take(oldlikes.len() as int) =~= oldlikes);
            assert forall|p: int, q: int| 0 <= p < q < final(self).likes@.len() implies !((
            #[trigger] final(self).likes@[p]).user_id@ == (
            #[trigger] final(self).likes@[q]).user_id@
                && final(self).likes@[p].target_user_id@
                == final(self).likes@[q].target_user_id@) by {
                if q == final(self).likes@.len() - 1 {
                    assert(final(self).likes@[p] == oldlikes[p]);
                }
            }
            assert((#[trigger] final(self).likes@[final(self).likes@.len() - 1]).user_id@
                == user_id@);
        }
        Ok(out)
    }

    /// Record a Dislike edge. Idempotent: a duplicate attempt is silently
    /// ignored and the existing edge is returned.
    pub fn add_dislike(&mut self, user_id: &str, target_user_id: &str) -> (r: Result<
        crate::user_types::UserDislike,
        Error,
    >)
        requires
            old(self).wf(),
        ensures
            final(self).wf(),
            r is Ok,
            old(self).spec_has_dislike(user_id@, target_user_id@) ==> *final(self) == *old(self),
            !old(self).spec_has_dislike(user_id@, target_user_id@) ==> ({
                &&& final(self).dislikes@.len() == old(self).dislikes@.len() + 1
                &&& final(self).dislikes@.take(old(self).dislikes@.len() as int) == old(self).dislikes@
                &&& final(self).dislikes@.last().user_id@ == user_id@
                &&& final(self).dislikes@.last().target_user_id@ == target_user_id@
                &&& final(self).dislikes@.last().created_at == old(self).clock
                &&& final(self).users == old(self).users
                &&& final(self).tags == old(self).tags
                &&& final(self).user_tags == old(self).user_tags
                &&& final(self).likes == old(self).likes
                &&& final(self).dislike_tags == old(self).dislike_tags
            }),
            r matches Ok(v) ==> v.user_id@ == user_id@ && v.target_user_id@ == target_user_id@,
            final(self).spec_has_dislike(user_id@, target_user_id@),
    {
        let n = self.dislikes.len();
        let mut i: usize = 0;
        while i < n
            invariant
                *self == *old(self),
                self.wf(),
                n == self.dislikes@.len(),
                i <= n,
                forall|j: int|
                    0 <= j < i as int ==> !((#[trigger] self.dislikes@[j]).user_id@ == user_id@
                        && self.dislikes@[j].target_user_id@ == target_user_id@),
            decreases n - i,
        {
            let row = &self.dislikes[i];
            if str_eq(row.user_id.as_str(), user_id) && str_eq(
                row.target_user_id.as_str(),
                target_user_id,
            ) {
                return Ok(crate::user_types::copy_dislike(row));
            }
            i = i + 1;
        }
        let id = self.fresh_row_id();
        let row = crate::user_types::UserDislike {
            id,
            user_id: user_id.to_owned(),
            target_user_id: target_user_id.to_owned(),
            created_at: self.clock,
        };
        let out = crate::user_types::copy_dislike(&row);
        let ghost oldrows = self.dislikes@;
        self.dislikes.push(row);
        self.tick();
        proof {
            assert(final(self).dislikes@.take(oldrows.len() as int) =~= oldrows);
            assert forall|p: int, q: int| 0 <= p < q < final(self).dislikes@.len() implies !((
            #[trigger] final(self).dislikes@[p]).user_id@ == (
            #[trigger] final(self).dislikes@[q]).user_id@
                && final(self).dislikes@[p].target_user_id@
                == final(self).dislikes@[q].target_user_id@) by {
                if q == final(self).dislikes@.len() - 1 {
                    assert(final(self).dislikes@[p] == oldrows[p]);
                }
            }
            assert((#[trigger] final(self).dislikes@[final(self).dislikes@.len() - 1]).user_id@
                == user_id@);
        }
        Ok(out)
    }
}


/// Target references carried by like rows: (target id, timestamp).
pub open spec fn like_refs(rows: Seq<crate::user_types::UserLike>) -> Seq<(Seq<char>, u64)> {
    rows.map_values(|r: crate::user_types::UserLike| (r.target_user_id@, r.created_at))
}

/// Target references carried by dislike rows.
pub open spec fn dislike_refs(rows: Seq<crate::user_types::UserDislike>) -> Seq<(Seq<char>, u64)> {
    rows.map_values(|r: crate::user_types::UserDislike| (r.target_user_id@, r.created_at))
}

/// Join target references against the user table, keeping order and
/// dropping references to missing users.
pub open spec fn join_targets(refs: Seq<(Seq<char>, u64)>, users: Seq<User>) -> Seq<(User, u64)>
    decreases refs.len(),
{
    if refs.len() == 0 {
        Seq::empty()
    } else {
        let rest = join_targets(refs.drop_first(), users);
        let f = find_user_idx(users, refs[0].0);
        if f >= 0 {
            seq![(users[f], refs[0].1)] + rest
        } else {
            rest
        }
    }
}

/// Appending a reference appends, if its user exists, one joined pair.
pub proof fn lemma_join_targets_snoc(
    refs: Seq<(Seq<char>, u64)>,
    x: (Seq<char>, u64),
    users: Seq<User>,
)
    ensures
        join_targets(refs.push(x), users) == join_targets(refs, users) + (if find_user_idx(
            users,
            x.0,
        ) >= 0 {
            seq![(users[find_user_idx(users, x.0)], x.1)]
        } else {
            Seq::<(User, u64)>::empty()
        }),
    decreases refs.len(),
{
    let s = refs.push(x);
    let tail = if find_user_idx(users, x.0) >= 0 {
        seq![(users[find_user_idx(users, x.0)], x.1)]
    } else {
        Seq::<(User, u64)>::empty()
    };
    if refs.len() == 0 {
        assert(s.drop_first() =~= Seq::<(Seq<char>, u64)>::empty());
        assert(s[0] == x);
        assert(join_targets(s.drop_first(), users) == Seq::<(User, u64)>::empty());
        assert(join_targets(refs, users) == Seq::<(User, u64)>::empty());
        let f = find_user_idx(users, x.0);
        if f >= 0 {
            assert(join_targets(s, users) == seq![(users[f], x.1)] + Seq::<(User, u64)>::empty());
            assert(seq![(users[f], x.1)] + Seq::<(User, u64)>::empty() =~= Seq::<(
                User,
                u64,
            )>::empty() + tail);
        } else {
            assert(join_targets(s, users) == Seq::<(User, u64)>::empty());
            assert(Seq::<(User, u64)>::empty() =~= Seq::<(User, u64)>::empty() + tail);
        }
    } else {
        assert(s[0] == refs[0]);
        assert(s.drop_first() =~= refs.drop_first().push(x));
        lemma_join_targets_snoc(refs.drop_first(), x, users);
        let f = find_user_idx(users, refs[0].0);
        if f >= 0 {
            assert(seq![(users[f], refs[0].1)] + (join_targets(refs.drop_first(), users) + tail)
                =~= (seq![(users[f], refs[0].1)] + join_targets(refs.drop_first(), users)) + tail);
        }
    }
}

impl Engine {
    /// Users this user has liked, most recently liked first, paginated.
    pub fn get_liked_users(&self, user_id: &str, limit: i64, offset: i64) -> (r: Vec<(User, u64)>)
        ensures
            ({
                let rows = filter_desc(
                    self.likes@,
                    |t: crate::user_types::UserLike| t.user_id@ == user_id@,
                );
                let win = page_window(
                    join_targets(like_refs(rows), self.users@),
                    offset as int,
                    limit as int,
                );
                &&& r@.len() == win.len()
                &&& forall|m: int|
                    0 <= m < win.len() ==> user_view_eq((#[trigger] r@[m]).0, win[m].0) && r@[m].1
                        == win[m].1
            }),
    {
        let ghost pred = |t: crate::user_types::UserLike| t.user_id@ == user_id@;
        let n = self.likes.len();
        let mut full: Vec<(User, u64)> = Vec::new();
        let mut k: usize = n;
        proof {
            assert(self.likes@.skip(n as int) =~= Seq::<crate::user_types::UserLike>::empty());
            assert(like_refs(Seq::<crate::user_types::UserLike>::empty())
                =~= Seq::<(Seq<char>, u64)>::empty());
        }
        while k > 0
            invariant
                n == self.likes@.len(),
                k <= n,
                pred == (|t: crate::user_types::UserLike| t.user_id@ == user_id@),
                ({
                    let cur = join_targets(
                        like_refs(filter_desc(self.likes@.skip(k as int), pred)),
                        self.users@,
                    );
                    &&& full@.len() == cur.len()
                    &&& forall|m: int|
                        0 <= m < cur.len() ==> user_view_eq((#[trigger] full@[m]).0, cur[m].0)
                            && full@[m].1 == cur[m].1
                }),
            decreases k,
        {
            k = k - 1;
            let row = &self.likes[k];
            proof {
                assert(self.likes@.skip(k as int) =~= seq![self.likes@[k as int]]
                    + self.likes@.skip(k as int + 1));
                lemma_filter_desc_cons(
                    self.likes@[k as int],
                    self.likes@.skip(k as int + 1),
                    pred,
                );
                let fd1 = filter_desc(self.likes@.skip(k as int + 1), pred);
                if pred(self.likes@[k as int]) {
                    assert(like_refs(fd1 + seq![self.likes@[k as int]]) =~= like_refs(fd1).push(
                        (self.likes@[k as int].target_user_id@, self.likes@[k as int].created_at),
                    ));
                    lemma_join_targets_snoc(
                        like_refs(fd1),
                        (self.likes@[k as int].target_user_id@, self.likes@[k as int].created_at),
                        self.users@,
                    );
                } else {
                    assert(filter_desc(self.likes@.skip(k as int), pred) == fd1);
                }
            }
            if str_eq(row.user_id.as_str(), user_id) {
                match self.find_user(row.target_user_id.as_str()) {
                    Some(f) => {
                        proof {
                            lemma_find_user_idx(self.users@, row.target_user_id@);
                        }
                        full.push((copy_user(&self.users[f]), row.created_at));
                    },
                    None => {
                    },
                }
            }
        }
        proof {
            assert(self.likes@.skip(0) =~= self.likes@);
        }
        let ghost pre = full@;
        apply_window(&mut full, offset, limit);
        proof {
            let rows = filter_desc(self.likes@, pred);
            let all = join_targets(like_refs(rows), self.users@);
            let win = page_window(all, offset as int, limit as int);
            assert(full@.len() == win.len());
            assert forall|m: int| 0 <= m < win.len() implies user_view_eq(
                (#[trigger] full@[m]).0,
                win[m].0,
            ) && full@[m].1 == win[m].1 by {
                assert(full@[m] == page_window(pre, offset as int, limit as int)[m]);
            }
        }
        full
    }

    /// Users this user has disliked, most recently disliked first, paginated.
    pub fn get_disliked_users(&self, user_id: &str, limit: i64, offset: i64) -> (r: Vec<
        (User, u64),
    >)
        ensures
            ({
                let rows = filter_desc(
                    self.dislikes@,
                    |t: crate::user_types::UserDislike| t.user_id@ == user_id@,
                );
                let win = page_window(
                    join_targets(dislike_refs(rows), self.users@),
                    offset as int,
                    limit as int,
                );
                &&& r@.len() == win.len()
                &&& forall|m: int|
                    0 <= m < win.len() ==> user_view_eq((#[trigger] r@[m]).0, win[m].0) && r@[m].1
                        == win[m].1
            }),
    {
        let ghost pred = |t: crate::user_types::UserDislike| t.user_id@ == user_id@;
        let n = self.dislikes.len();
        let mut full: Vec<(User, u64)> = Vec::new();
        let mut k: usize = n;
        proof {
            assert(self.dislikes@.skip(n as int) =~= Seq::<crate::user_types::UserDislike>::empty());
            assert(dislike_refs(Seq::<crate::user_types::UserDislike>::empty())
                =~= Seq::<(Seq<char>, u64)>::empty());
        }
        while k > 0
            invariant
                n == self.dislikes@.len(),
                k <= n,
                pred == (|t: crate::user_types::UserDislike| t.user_id@ == user_id@),
                ({
                    let cur = join_targets(
                        dislike_refs(filter_desc(self.dislikes@.skip(k as int), pred)),
                        self.users@,
                    );
                    &&& full@.len() == cur.len()
                    &&& forall|m: int|
                        0 <= m < cur.len() ==> user_view_eq((#[trigger] full@[m]).0, cur[m].0)
                            && full@[m].1 == cur[m].1
                }),
            decreases k,
        {
            k = k - 1;
            let row = &self.dislikes[k];
            proof {
                assert(self.dislikes@.skip(k as int) =~= seq![self.dislikes@[k as int]]
                    + self.dislikes@.skip(k as int + 1));
                lemma_filter_desc_cons(
                    self.dislikes@[k as int],
                    self.dislikes@.skip(k as int + 1),
                    pred,
                );
                let fd1 = filter_desc(self.dislikes@.skip(k as int + 1), pred);
                if pred(self.dislikes@[k as int]) {
                    assert(dislike_refs(fd1 + seq![self.dislikes@[k as int]]) =~= dislike_refs(
                        fd1,
                    ).push(
                        (
                            self.dislikes@[k as int].target_user_id@,
                            self.dislikes@[k as int].created_at,
                        ),
                    ));
                    lemma_join_targets_snoc(
                        dislike_refs(fd1),
                        (
                            self.dislikes@[k as int].target_user_id@,
                            self.dislikes@[k as int].created_at,
                        ),
                        self.users@,
                    );
                } else {
                    assert(filter_desc(self.dislikes@.skip(k as int), pred) == fd1);
                }
            }
            if str_eq(row.user_id.as_str(), user_id) {
                match self.find_user(row.target_user_id.as_str()) {
                    Some(f) => {
                        proof {
                            lemma_find_user_idx(self.users@, row.target_user_id@);
                        }
                        full.push((copy_user(&self.users[f]), row.created_at));
                    },
                    None => {
                    },
                }
            }
        }
        proof {
            assert(self.dislikes@.skip(0) =~= self.dislikes@);
        }
        let ghost pre = full@;
        apply_window(&mut full, offset, limit);
        proof {
            let rows = filter_desc(self.dislikes@, pred);
            let all = join_targets(dislike_refs(rows), self.users@);
            let win = page_window(all, offset as int, limit as int);
            assert(full@.len() == win.len());
            assert forall|m: int| 0 <= m < win.len() implies user_view_eq(
                (#[trigger] full@[m]).0,
                win[m].0,
            ) && full@[m].1 == win[m].1 by {
                assert(full@[m] == page_window(pre, offset as int, limit as int)[m]);
            }
        }
        full
    }

    /// The tags attached to this user's dislike of the target, most recent
    /// first.
    pub fn get_dislike_tags(&self, user_id: &str, target_user_id: &str) -> (r: Vec<
        crate::user_types::UserDislikeTag,
    >)
        ensures
            ({
                let rows = filter_desc(
                    self.dislike_tags@,
                    |t: crate::user_types::UserDislikeTag|
                        t.user_id@ == user_id@ && t.target_user_id@ == target_user_id@,
                );
                &&& r@.len() == rows.len()
                &&& forall|m: int|
                    0 <= m < rows.len() ==> crate::user_types::dislike_tag_view_eq(
                        #[trigger] r@[m],
                        rows[m],
                    )
            }),
    {
        let ghost pred = |t: crate::user_types::UserDislikeTag|
            t.user_id@ == user_id@ && t.target_user_id@ == target_user_id@;
        let n = self.dislike_tags.len();
        let mut out: Vec<crate::user_types::UserDislikeTag> = Vec::new();
        let mut k: usize = n;
        proof {
            assert(self.dislike_tags@.skip(n as int)
                =~= Seq::<crate::user_types::UserDislikeTag>::empty());
        }
        while k > 0
            invariant
                n == self.dislike_tags@.len(),
                k <= n,
                pred == (|t: crate::user_types::UserDislikeTag|
                    t.user_id@ == user_id@ && t.target_user_id@ == target_user_id@),
                out@.len() == filter_desc(self.dislike_tags@.skip(k as int), pred).len(),
                forall|m: int|
                    0 <= m < out@.len() ==> crate::user_types::dislike_tag_view_eq(
                        #[trigger] out@[m],
                        filter_desc(self.dislike_tags@.skip(k as int), pred)[m],
                    ),
            decreases k,
        {
            k = k - 1;
            let row = &self.dislike_tags[k];
            proof {
                assert(self.dislike_tags@.skip(k as int) =~= seq![self.dislike_tags@[k as int]]
                    + self.dislike_tags@.skip(k as int + 1));
                lemma_filter_desc_cons(
                    self.dislike_tags@[k as int],
                    self.dislike_tags@.skip(k as int + 1),
                    pred,
                );
            }
            if str_eq(row.user_id.as_str(), user_id) && str_eq(
                row.target_user_id.as_str(),
                target_user_id,
            ) {
                out.push(crate::user_types::copy_dislike_tag(row));
            }
        }
        proof {
            assert(self.dislike_tags@.skip(0) =~= self.dislike_tags@);
        }
        out
    }
}

/// The row should be deleted: it belongs to the user and names its tag.
pub open spec fn removal_cond(r: UserTag, uid: Seq<char>, names: Seq<Seq<char>>) -> bool {
    r.user_id@ == uid && names.contains(r.tag_name@)
}

/// The rows that survive a batch tag removal, in table order.
pub open spec fn keep_rows(tab: Seq<UserTag>, uid: Seq<char>, names: Seq<Seq<char>>) -> Seq<UserTag>
    decreases tab.len(),
{
    if tab.len() == 0 {
        Seq::empty()
    } else {
        let rest = keep_rows(tab.drop_first(), uid, names);
        if removal_cond(tab[0], uid, names) {
            rest
        } else {
            seq![tab[0]] + rest
        }
    }
}

/// The tag names of a user, most recently added first.
pub open spec fn names_desc(tab: Seq<UserTag>, uid: Seq<char>) -> Seq<Seq<char>> {
    filter_desc(tab, |t: UserTag| t.user_id@ == uid).map_values(|t: UserTag| t.tag_name@)
}

/// The embedding a tag name resolves to: the stored one when present,
/// else the deterministic one its name generates.
pub open spec fn resolved_emb(tags: Seq<Tag>, name: Seq<char>) -> Seq<i64> {
    let f = find_tag_idx(tags, name);
    if f >= 0 && tags[f].embedding is Some {
        tags[f].embedding->0@
    } else {
        tag_embedding_of(name)
    }
}

/// The embeddings a list of tag names resolves to.
pub open spec fn resolved_embs(tags: Seq<Tag>, names: Seq<Seq<char>>) -> Seq<Seq<i64>> {
    names.map_values(|n: Seq<char>| resolved_emb(tags, n))
}

/// How attaching a tag leaves the tag table: a new tag gets exactly the
/// deterministic embedding its name generates, a missing embedding is
/// filled with it, and an embedding already present is never overwritten
/// (a tag embedding is created once and never mutated once present).
pub open spec fn tags_upserted(pre: Seq<Tag>, post: Seq<Tag>, name: Seq<char>) -> bool {
    let f = find_tag_idx(pre, name);
    &&& (f == -1 ==> post.len() == pre.len() + 1 && post.take(pre.len() as int) == pre
        && post.last().name@ == name && opt_emb_view(post.last().embedding) == Some(
        tag_embedding_of(name),
    ))
    &&& (f >= 0 && pre[f].embedding is Some ==> post == pre)
    &&& (f >= 0 && pre[f].embedding is None ==> post.len() == pre.len() && (forall|j: int|
        0 <= j < pre.len() && j != f ==> (#[trigger] post[j]) == pre[j]) && post[f].name@ == name
        && opt_emb_view(post[f].embedding) == Some(tag_embedding_of(name)))
}

/// How a successful tag attachment leaves the store: one new user-tag row
/// at the end of the table, and the user's profile embedding recomputed
/// from the new tag set.
pub open spec fn user_tag_added(pre: Engine, post: Engine, uid: Seq<char>, name: Seq<char>) -> bool {
    let newrow = post.user_tags@.last();
    &&& post.user_tags@.len() == pre.user_tags@.len() + 1
    &&& post.user_tags@.take(pre.user_tags@.len() as int) == pre.user_tags@
    &&& newrow.user_id@ == uid
    &&& newrow.tag_name@ == name
    &&& (find_user_idx(pre.users@, uid) == -1 ==> post.users == pre.users)
    &&& (find_user_idx(pre.users@, uid) >= 0 ==> ({
        let f = find_user_idx(pre.users@, uid);
        let names = names_desc(post.user_tags@, uid);
        &&& post.users@.len() == pre.users@.len()
        &&& (forall|j: int|
            0 <= j < pre.users@.len() && j != f ==> (#[trigger] post.users@[j]) == pre.users@[j])
        &&& post.users@[f].id@ == pre.users@[f].id@
        &&& post.users@[f].embedding is Some
        &&& (names.len() > 0 ==> opt_emb_view(post.users@[f].embedding) == Some(
            crate::profile::profile_spec(resolved_embs(post.tags@, names)),
        ))
    }))
}

impl Engine {
    /// Make sure the tag table holds this tag with an embedding: insert it
    /// with its deterministic embedding, or fill a missing embedding in.
    fn upsert_tag_with_embedding(&mut self, name: &str)
        requires
            old(self).wf(),
        ensures
            final(self).wf(),
            final(self).users == old(self).users,
            final(self).user_tags == old(self).user_tags,
            final(self).likes == old(self).likes,
            final(self).dislikes == old(self).dislikes,
            final(self).dislike_tags == old(self).dislike_tags,
            final(self).clock == old(self).clock,
            tag_resolved(final(self).tags@, name@),
            tags_upserted(old(self).tags@, final(self).tags@, name@),
    {
        proof {
            lemma_find_tag_idx(self.tags@, name@);
        }
        match self.find_tag(name) {
            Some(i) => {
                let present = match &self.tags[i].embedding {
                    Some(_) => true,
                    None => false,
                };
                if !present {
                    let e = generate_tag_embedding(name);
                    let newtag = Tag { name: name.to_owned(), embedding: Some(e) };
                    let ghost oldtags = self.tags@;
                    vstd::pervasive::VecAdditionalExecFns::set(&mut self.tags, i, newtag);
                    proof {
                        assert(final(self).tags@[i as int].name@ == name@);
                        assert forall|p: int, q: int|
                            0 <= p < q < final(self).tags@.len() implies (
                        #[trigger] final(self).tags@[p].name@) != (
                        #[trigger] final(self).tags@[q].name@) by {
                            assert(final(self).tags@[p].name@ == oldtags[p].name@);
                            assert(final(self).tags@[q].name@ == oldtags[q].name@);
                        }
                        assert forall|r: int|
                            0 <= r < final(self).user_tags@.len() implies tag_resolved(
                            final(self).tags@,
                            (#[trigger] final(self).user_tags@[r]).tag_name@,
                        ) by {
                            assert(tag_resolved(oldtags, final(self).user_tags@[r].tag_name@));
                            let j = choose|j: int|
                                0 <= j < oldtags.len() && (#[trigger] oldtags[j]).name@
                                    == final(self).user_tags@[r].tag_name@ && oldtags[j].embedding
                                    is Some;
                            if j == i as int {
                                assert(final(self).tags@[i as int].embedding is Some);
                            } else {
                                assert(final(self).tags@[j] == oldtags[j]);
                            }
                        }
                        assert(final(self).tags@[i as int].embedding is Some);
                    }
                }
            },
            None => {
                let e = generate_tag_embedding(name);
                let ghost oldtags = self.tags@;
                self.tags.push(Tag { name: name.to_owned(), embedding: Some(e) });
                proof {
                    assert(final(self).tags@.take(oldtags.len() as int) =~= oldtags);
                    assert forall|p: int, q: int|
                        0 <= p < q < final(self).tags@.len() implies (
                    #[trigger] final(self).tags@[p].name@) != (
                    #[trigger] final(self).tags@[q].name@) by {
                        if q == final(self).tags@.len() - 1 {
                            assert(final(self).tags@[p] == oldtags[p]);
                        }
                    }
                    assert forall|r: int|
                        0 <= r < final(self).user_tags@.len() implies tag_resolved(
                        final(self).tags@,
                        (#[trigger] final(self).user_tags@[r]).tag_name@,
                    ) by {
                        assert(tag_resolved(oldtags, final(self).user_tags@[r].tag_name@));
                        let j = choose|j: int|
                            0 <= j < oldtags.len() && (#[trigger] oldtags[j]).name@
                                == final(self).user_tags@[r].tag_name@ && oldtags[j].embedding
                                is Some;
                        assert(final(self).tags@[j] == oldtags[j]);
                    }
                    assert((#[trigger] final(self).tags@[final(self).tags@.len() - 1]).name@
                        == name@);
                }
            },
        }
    }

    /// Recompute and persist the user's profile embedding from their
    /// current tag set: the normalized mean of the tags' embeddings, or a
    /// fresh random embedding for a tagless user. A missing user is left
    /// untouched. This is the consistency maintainer; callers invoke it
    /// after every tag-set or profile mutation and must not let its
    /// failure fail the mutation (here it always succeeds).
    pub fn update_user_embedding(&mut self, user_id: &str) -> (r: Result<(), Error>)
        requires
            old(self).wf(),
        ensures
            final(self).wf(),
            r is Ok,
            final(self).tags == old(self).tags,
            final(self).user_tags == old(self).user_tags,
            final(self).likes == old(self).likes,
            final(self).dislikes == old(self).dislikes,
            final(self).dislike_tags == old(self).dislike_tags,
            ({
                let f = find_user_idx(old(self).users@, user_id@);
                let names = names_desc(old(self).user_tags@, user_id@);
                &&& (f == -1 ==> *final(self) == *old(self))
                &&& (f >= 0 ==> final(self).users@.len() == old(self).users@.len() && (forall|
                    j: int,
                |
                    0 <= j < old(self).users@.len() && j != f ==> (#[trigger] final(self).users@[j])
                        == old(self).users@[j]) && ({
                    let u = final(self).users@[f];
                    let o = old(self).users@[f];
                    &&& u.id@ == o.id@
                    &&& u.username@ == o.username@
                    &&& opt_str_view(u.display_name) == opt_str_view(o.display_name)
                    &&& u.avatar_url.content() == o.avatar_url.content()
                    &&& u.bio@ == o.bio@
                    &&& u.created_at == o.created_at
                    &&& u.updated_at == old(self).clock
                    &&& u.embedding is Some
                    &&& is_normalized_draw(opt_emb_view(u.embedding)->0)
                    &&& (names.len() > 0 ==> opt_emb_view(u.embedding) == Some(
                        crate::profile::profile_spec(resolved_embs(old(self).tags@, names)),
                    ))
                    &&& (names.len() == 0 ==> is_embedding(opt_emb_view(u.embedding)->0))
                }))
            }),
    {
        let ghost names = names_desc(old(self).user_tags@, user_id@);
        let rows = self.get_user_tags(user_id);
        let ghost fd = filter_desc(
            self.user_tags@,
            |t: UserTag| t.user_id@ == user_id@,
        );
        let mut embs: Vec<Vec<i64>> = Vec::new();
        let mut m: usize = 0;
        proof {
            lemma_filter_desc_from(self.user_tags@, |t: UserTag| t.user_id@ == user_id@);
        }
        while m < rows.len()
            invariant
                *self == *old(self),
                self.wf(),
                fd == filter_desc(self.user_tags@, |t: UserTag| t.user_id@ == user_id@),
                names == names_desc(self.user_tags@, user_id@),
                rows@.len() == fd.len(),
                forall|q: int|
                    0 <= q < fd.len() ==> crate::user_types::user_tag_view_eq(
                        #[trigger] rows@[q],
                        fd[q],
                    ),
                forall|q: int|
                    0 <= q < fd.len() ==> exists|j: int|
                        0 <= j < self.user_tags@.len() && (#[trigger] self.user_tags@[j]) == (
                        #[trigger] fd[q]),
                m <= rows@.len(),
                embs@.len() == m,
                forall|q: int|
                    0 <= q < m as int ==> (#[trigger] embs@[q])@ == resolved_emb(
                        self.tags@,
                        names[q],
                    ),
                forall|q: int| 0 <= q < m as int ==> is_embedding((#[trigger] embs@[q])@),
            decreases rows@.len() - m,
        {
            proof {
                assert(names[m as int] == fd[m as int].tag_name@);
                let fdm = fd[m as int];
                assert(tag_resolved(self.tags@, fdm.tag_name@)) by {
                    let j = choose|j: int|
                        0 <= j < self.user_tags@.len() && (#[trigger] self.user_tags@[j]) == fdm;
                    assert(tag_resolved(self.tags@, self.user_tags@[j].tag_name@));
                }
                lemma_find_tag_idx(self.tags@, fd[m as int].tag_name@);
            }
            // The store invariant says every tag a user carries exists in
            // the tag table with an embedding, so there is nothing to
            // generate or fill in here; the other arms cannot run.
            match self.find_tag(rows[m].tag_name.as_str()) {
                Some(i) => {
                    proof {
                        let name = fd[m as int].tag_name@;
                        let j = choose|j: int|
                            0 <= j < self.tags@.len() && (#[trigger] self.tags@[j]).name@ == name
                                && self.tags@[j].embedding is Some;
                        if j != i as int {
                            assert(self.tags@[j].name@ == self.tags@[i as int].name@);
                            assert(false);
                        }
                    }
                    match &self.tags[i].embedding {
                        Some(e) => {
                            embs.push(crate::user_types::copy_embedding(e));
                        },
                        None => {
                            proof {
                                assert(false);
                            }
                            unreached()
                        },
                    }
                },
                None => {
                    proof {
                        let name = fd[m as int].tag_name@;
                        let j = choose|j: int|
                            0 <= j < self.tags@.len() && (#[trigger] self.tags@[j]).name@ == name
                                && self.tags@[j].embedding is Some;
                        assert(false);
                    }
                    unreached()
                },
            }
            m = m + 1;
        }
        proof {
            assert(crate::profile::views_of(embs@) =~= resolved_embs(self.tags@, names));
        }
        let new_emb = crate::profile::compute_profile(&embs);
        proof {
            lemma_find_user_idx(self.users@, user_id@);
        }
        match self.find_user(user_id) {
            Some(f) => {
                let o = &self.users[f];
                let newu = User {
                    id: o.id.clone(),
                    username: o.username.clone(),
                    display_name: copy_opt_string(&o.display_name),
                    avatar_url: Url::raw(o.avatar_url.as_str().to_owned()),
                    bio: o.bio.clone(),
                    embedding: Some(new_emb),
                    created_at: o.created_at,
                    updated_at: self.clock,
                };
                let ghost oldusers = self.users@;
                vstd::pervasive::VecAdditionalExecFns::set(&mut self.users, f, newu);
                self.tick();
                proof {
                    assert forall|p: int, q: int|
                        0 <= p < q < final(self).users@.len() implies (
                    #[trigger] final(self).users@[p].id@) != (
                    #[trigger] final(self).users@[q].id@) by {
                        assert(final(self).users@[p].id@ == oldusers[p].id@);
                        assert(final(self).users@[q].id@ == oldusers[q].id@);
                    }
                }
                Ok(())
            },
            None => Ok(()),
        }
    }
}

/// Every filtered row is one of the table's rows.
pub proof fn lemma_filter_desc_from<A>(s: Seq<A>, pred: spec_fn(A) -> bool)
    ensures
        forall|i: int|
            0 <= i < filter_desc(s, pred).len() ==> exists|j: int|
                0 <= j < s.len() && (#[trigger] s[j]) == (#[trigger] filter_desc(s, pred)[i]),
    decreases s.len(),
{
    if s.len() > 0 {
        lemma_filter_desc_from(s.drop_last(), pred);
        let fd = filter_desc(s, pred);
        let rest = filter_desc(s.drop_last(), pred);
        assert forall|i: int| 0 <= i < fd.len() implies exists|j: int|
            0 <= j < s.len() && (#[trigger] s[j]) == (#[trigger] fd[i]) by {
            if pred(s.last()) {
                if i == 0 {
                    assert(fd[0] == s.last());
                    assert((#[trigger] s[s.len() - 1]) == fd[0]);
                } else {
                    assert(fd[i] == rest[i - 1]);
                    let j = choose|j: int|
                        0 <= j < s.drop_last().len() && (#[trigger] s.drop_last()[j]) == rest[i
                            - 1];
                    assert((#[trigger] s[j]) == fd[i]);
                }
            } else {
                assert(fd[i] == rest[i]);
                let j = choose|j: int|
                    0 <= j < s.drop_last().len() && (#[trigger] s.drop_last()[j]) == rest[i];
                assert((#[trigger] s[j]) == fd[i]);
            }
        }
    }
}

impl Engine {
    /// A dislike-tag row for this triple exists.
    pub open spec fn spec_has_dislike_tag(
        self,
        uid: Seq<char>,
        tid: Seq<char>,
        name: Seq<char>,
    ) -> bool {
        exists|i: int|
            0 <= i < self.dislike_tags@.len() && (#[trigger] self.dislike_tags@[i]).user_id@ == uid
                && self.dislike_tags@[i].target_user_id@ == tid
                && self.dislike_tags@[i].tag_name.content() == name
    }

    /// Attach a tag to the user's profile. The tag is created, with its
    /// deterministic embedding, if it is new; a missing embedding is
    /// filled in. A duplicate attachment is reported as `NotFound` (the
    /// conflict leaves no row to return). On success the user's profile
    /// embedding is recomputed eagerly.
    pub fn add_user_tag(&mut self, user_id: &str, tag_name: &str) -> (r: Result<UserTag, Error>)
        requires
            old(self).wf(),
        ensures
            final(self).wf(),
            r is Ok <==> !has_user_tag(old(self).user_tags@, user_id@, tag_name@),
            tag_resolved(final(self).tags@, tag_name@),
            tags_upserted(old(self).tags@, final(self).tags@, tag_name@),
            final(self).likes == old(self).likes,
            final(self).dislikes == old(self).dislikes,
            final(self).dislike_tags == old(self).dislike_tags,
            r is Err ==> final(self).user_tags == old(self).user_tags && final(self).users == old(self).users && (r matches Err(Error::NotFound { resource }) && resource@
                == "database record"@),
            r is Ok ==> user_tag_added(*old(self), *final(self), user_id@, tag_name@),
            r matches Ok(v) ==> crate::user_types::user_tag_view_eq(
                v,
                final(self).user_tags@.last(),
            ),
    {
        self.upsert_tag_with_embedding(tag_name);
        let ghost mid = *self;
        let n = self.user_tags.len();
        let mut i: usize = 0;
        while i < n
            invariant
                *self == mid,
                self.wf(),
                self.users == old(self).users,
                self.user_tags == old(self).user_tags,
                self.likes == old(self).likes,
                self.dislikes == old(self).dislikes,
                self.dislike_tags == old(self).dislike_tags,
                tag_resolved(self.tags@, tag_name@),
                tags_upserted(old(self).tags@, self.tags@, tag_name@),
                n == self.user_tags@.len(),
                i <= n,
                forall|j: int|
                    0 <= j < i as int ==> !((#[trigger] self.user_tags@[j]).user_id@ == user_id@
                        && self.user_tags@[j].tag_name@ == tag_name@),
            decreases n - i,
        {
            let row = &self.user_tags[i];
            if str_eq(row.user_id.as_str(), user_id) && str_eq(row.tag_name.as_str(), tag_name) {
                proof {
                    assert((#[trigger] old(self).user_tags@[i as int]).user_id@ == user_id@);
                    assert(has_user_tag(old(self).user_tags@, user_id@, tag_name@));
                }
                return Err(Error::NotFound { resource: "database record".to_owned() });
            }
            i = i + 1;
        }
        proof {
            assert(!has_user_tag(old(self).user_tags@, user_id@, tag_name@));
        }
        let id = self.fresh_row_id();
        let row = UserTag {
            id,
            user_id: user_id.to_owned(),
            tag_name: tag_name.to_owned(),
            created_at: self.clock,
        };
        let out = crate::user_types::copy_user_tag(&row);
        let ghost oldrows = self.user_tags@;
        self.user_tags.push(row);
        self.tick();
        proof {
            assert(self.user_tags@.take(oldrows.len() as int) =~= oldrows);
            assert forall|p: int, q: int| 0 <= p < q < self.user_tags@.len() implies !((
            #[trigger] self.user_tags@[p]).user_id@ == (#[trigger] self.user_tags@[q]).user_id@
                && self.user_tags@[p].tag_name@ == self.user_tags@[q].tag_name@) by {
                if q == self.user_tags@.len() - 1 {
                    assert(self.user_tags@[p] == oldrows[p]);
                }
            }
            assert forall|rr: int| 0 <= rr < self.user_tags@.len() implies tag_resolved(
                self.tags@,
                (#[trigger] self.user_tags@[rr]).tag_name@,
            ) by {
                if rr < self.user_tags@.len() - 1 {
                    assert(self.user_tags@[rr] == oldrows[rr]);
                    assert(tag_resolved(mid.tags@, mid.user_tags@[rr].tag_name@));
                } else {
                    assert(self.user_tags@[rr].tag_name@ == tag_name@);
                }
            }
        }
        let _ = self.update_user_embedding(user_id);
        proof {
            lemma_find_user_idx(old(self).users@, user_id@);
        }
        Ok(out)
    }

    /// Detach a batch of tags from the user's profile; names not on the
    /// profile are ignored. The profile embedding is recomputed eagerly.
    pub fn remove_user_tag(&mut self, user_id: &str, names: &Vec<String>) -> (r: Result<(), Error>)
        requires
            old(self).wf(),
        ensures
            final(self).wf(),
            r is Ok,
            final(self).tags == old(self).tags,
            final(self).likes == old(self).likes,
            final(self).dislikes == old(self).dislikes,
            final(self).dislike_tags == old(self).dislike_tags,
            final(self).user_tags@ == keep_rows(
                old(self).user_tags@,
                user_id@,
                crate::score::names_of(names@),
            ),
            ({
                let f = find_user_idx(old(self).users@, user_id@);
                let newnames = names_desc(final(self).user_tags@, user_id@);
                &&& (f == -1 ==> final(self).users == old(self).users)
                &&& (f >= 0 ==> final(self).users@.len() == old(self).users@.len() && (forall|
                    j: int,
                |
                    0 <= j < old(self).users@.len() && j != f ==> (#[trigger] final(self).users@[j])
                        == old(self).users@[j]) && final(self).users@[f].id@ == old(self).users@[f].id@ && final(self).users@[f].embedding is Some && (newnames.len() > 0
                    ==> opt_emb_view(final(self).users@[f].embedding) == Some(
                    crate::profile::profile_spec(resolved_embs(old(self).tags@, newnames)),
                )))
            }),
    {
        let ghost nameset = crate::score::names_of(names@);
        let ghost orig = self.user_tags@;
        let mut k: usize = self.user_tags.len();
        proof {
            assert(orig.skip(k as int) =~= Seq::<UserTag>::empty());
            assert(orig.take(k as int) =~= orig);
        }
        while k > 0
            invariant
                old(self).wf(),
                self.users == old(self).users,
                self.tags == old(self).tags,
                self.likes == old(self).likes,
                self.dislikes == old(self).dislikes,
                self.dislike_tags == old(self).dislike_tags,
                self.clock == old(self).clock,
                self.next_row_id == old(self).next_row_id,
                orig == old(self).user_tags@,
                nameset == crate::score::names_of(names@),
                k <= orig.len(),
                self.user_tags@ == orig.take(k as int) + keep_rows(
                    orig.skip(k as int),
                    user_id@,
                    nameset,
                ),
                self.wf(),
            decreases k,
        {
            k = k - 1;
            proof {
                assert(orig.skip(k as int) =~= seq![orig[k as int]] + orig.skip(k as int + 1));
                lemma_keep_rows_cons(orig[k as int], orig.skip(k as int + 1), user_id@, nameset);
                assert(self.user_tags@[k as int] == orig[k as int]);
            }
            let row_uid_matches = str_eq(self.user_tags[k].user_id.as_str(), user_id);
            let mut in_names = false;
            if row_uid_matches {
                in_names = crate::score::contains_name(names, &self.user_tags[k].tag_name);
            }
            if row_uid_matches && in_names {
                let ghost pre = self.user_tags@;
                let _ = self.user_tags.remove(k);
                proof {
                    assert(self.user_tags@ =~= orig.take(k as int) + keep_rows(
                        orig.skip(k as int),
                        user_id@,
                        nameset,
                    ));
                    assert forall|p: int, q: int|
                        0 <= p < q < self.user_tags@.len() implies !((
                    #[trigger] self.user_tags@[p]).user_id@ == (
                    #[trigger] self.user_tags@[q]).user_id@ && self.user_tags@[p].tag_name@
                        == self.user_tags@[q].tag_name@) by {
                        let p2: int = if p < k as int {
                            p
                        } else {
                            p + 1
                        };
                        let q2: int = if q < k as int {
                            q
                        } else {
                            q + 1
                        };
                        assert(self.user_tags@[p] == pre[p2]);
                        assert(self.user_tags@[q] == pre[q2]);
                    }
                    assert forall|rr: int| 0 <= rr < self.user_tags@.len() implies tag_resolved(
                        self.tags@,
                        (#[trigger] self.user_tags@[rr]).tag_name@,
                    ) by {
                        let rr2: int = if rr < k as int {
                            rr
                        } else {
                            rr + 1
                        };
                        assert(self.user_tags@[rr] == pre[rr2]);
                        assert(tag_resolved(self.tags@, pre[rr2].tag_name@));
                    }
                }
            } else {
                proof {
                    assert(self.user_tags@ =~= orig.take(k as int) + keep_rows(
                        orig.skip(k as int),
                        user_id@,
                        nameset,
                    ));
                }
            }
        }
        proof {
            assert(orig.take(0) =~= Seq::<UserTag>::empty());
            assert(orig.skip(0) =~= orig);
            assert(self.user_tags@ =~= keep_rows(orig, user_id@, nameset));
        }
        let _ = self.update_user_embedding(user_id);
        proof {
            lemma_find_user_idx(old(self).users@, user_id@);
        }
        Ok(())
    }

    /// Record a tag on a Dislike edge, creating the tag (without an
    /// embedding) if it is new. Idempotent on the triple.
    pub fn add_dislike_tag(&mut self, user_id: &str, target_user_id: &str, tag_name: &str) -> (r:
        Result<crate::user_types::UserDislikeTag, Error>)
        requires
            old(self).wf(),
        ensures
            final(self).wf(),
            r is Ok,
            final(self).users == old(self).users,
            final(self).user_tags == old(self).user_tags,
            final(self).likes == old(self).likes,
            final(self).dislikes == old(self).dislikes,
            find_tag_idx(old(self).tags@, tag_name@) >= 0 ==> final(self).tags == old(self).tags,
            find_tag_idx(old(self).tags@, tag_name@) == -1 ==> final(self).tags@.len() == old(self).tags@.len() + 1 && final(self).tags@.take(old(self).tags@.len() as int) == old(self).tags@ && final(self).tags@.last().name@ == tag_name@
                && final(self).tags@.last().embedding is None,
            old(self).spec_has_dislike_tag(user_id@, target_user_id@, tag_name@) ==> final(self).dislike_tags == old(self).dislike_tags,
            !old(self).spec_has_dislike_tag(user_id@, target_user_id@, tag_name@) ==> ({
                &&& final(self).dislike_tags@.len() == old(self).dislike_tags@.len() + 1
                &&& final(self).dislike_tags@.take(old(self).dislike_tags@.len() as int) == old(self).dislike_tags@
                &&& final(self).dislike_tags@.last().user_id@ == user_id@
                &&& final(self).dislike_tags@.last().target_user_id@ == target_user_id@
                &&& final(self).dislike_tags@.last().tag_name.content() == tag_name@
            }),
            r matches Ok(v) ==> v.user_id@ == user_id@ && v.target_user_id@ == target_user_id@
                && v.tag_name.content() == tag_name@,
    {
        proof {
            lemma_find_tag_idx(self.tags@, tag_name@);
        }
        if self.find_tag(tag_name).is_none() {
            let ghost oldtags = self.tags@;
            self.tags.push(Tag { name: tag_name.to_owned(), embedding: None });
            proof {
                assert(self.tags@.take(oldtags.len() as int) =~= oldtags);
                assert forall|p: int, q: int| 0 <= p < q < self.tags@.len() implies (
                #[trigger] self.tags@[p].name@) != (#[trigger] self.tags@[q].name@) by {
                    if q == self.tags@.len() - 1 {
                        assert(self.tags@[p] == oldtags[p]);
                    }
                }
                assert forall|rr: int| 0 <= rr < self.user_tags@.len() implies tag_resolved(
                    self.tags@,
                    (#[trigger] self.user_tags@[rr]).tag_name@,
                ) by {
                    assert(tag_resolved(oldtags, self.user_tags@[rr].tag_name@));
                    let j = choose|j: int|
                        0 <= j < oldtags.len() && (#[trigger] oldtags[j]).name@
                            == self.user_tags@[rr].tag_name@ && oldtags[j].embedding is Some;
                    assert(self.tags@[j] == oldtags[j]);
                }
            }
        }
        let ghost mid = *self;
        let n = self.dislike_tags.len();
        let mut i: usize = 0;
        while i < n
            invariant
                *self == mid,
                self.wf(),
                self.users == old(self).users,
                self.user_tags == old(self).user_tags,
                self.likes == old(self).likes,
                self.dislikes == old(self).dislikes,
                self.dislike_tags == old(self).dislike_tags,
                find_tag_idx(old(self).tags@, tag_name@) >= 0 ==> self.tags == old(self).tags,
                find_tag_idx(old(self).tags@, tag_name@) == -1 ==> self.tags@.len() == old(self).tags@.len() + 1 && self.tags@.take(old(self).tags@.len() as int) == old(self).tags@ && self.tags@.last().name@ == tag_name@
                    && self.tags@.last().embedding is None,
                n == self.dislike_tags@.len(),
                i <= n,
                forall|j: int|
                    0 <= j < i as int ==> !((#[trigger] self.dislike_tags@[j]).user_id@ == user_id@
                        && self.dislike_tags@[j].target_user_id@ == target_user_id@
                        && self.dislike_tags@[j].tag_name.content() == tag_name@),
            decreases n - i,
        {
            let row = &self.dislike_tags[i];
            if str_eq(row.user_id.as_str(), user_id) && str_eq(
                row.target_user_id.as_str(),
                target_user_id,
            ) && str_eq(row.tag_name.as_str(), tag_name) {
                return Ok(crate::user_types::copy_dislike_tag(row));
            }
            i = i + 1;
        }
        let id = self.fresh_row_id();
        let row = crate::user_types::UserDislikeTag {
            id,
            user_id: user_id.to_owned(),
            target_user_id: target_user_id.to_owned(),
            tag_name: crate::validate::TagName::raw(tag_name.to_owned()),
            created_at: self.clock,
        };
        let out = crate::user_types::copy_dislike_tag(&row);
        let ghost oldrows = self.dislike_tags@;
        self.dislike_tags.push(row);
        self.tick();
        proof {
            assert(self.dislike_tags@.take(oldrows.len() as int) =~= oldrows);
            assert forall|p: int, q: int| 0 <= p < q < self.dislike_tags@.len() implies !((
            #[trigger] self.dislike_tags@[p]).user_id@ == (
            #[trigger] self.dislike_tags@[q]).user_id@
                && self.dislike_tags@[p].target_user_id@ == self.dislike_tags@[q].target_user_id@
                && self.dislike_tags@[p].tag_name.content()
                == self.dislike_tags@[q].tag_name.content()) by {
                if q == self.dislike_tags@.len() - 1 {
                    assert(self.dislike_tags@[p] == oldrows[p]);
                }
            }
        }
        Ok(out)
    }
}

/// Peeling the oldest row off the front keeps it unless it is removed.
pub proof fn lemma_keep_rows_cons(x: UserTag, t: Seq<UserTag>, uid: Seq<char>, names: Seq<Seq<char>>)
    ensures
        keep_rows(seq![x] + t, uid, names) == (if removal_cond(x, uid, names) {
            keep_rows(t, uid, names)
        } else {
            seq![x] + keep_rows(t, uid, names)
        }),
{
    let s = seq![x] + t;
    assert(s[0] == x);
    assert(s.drop_first() =~= t);
}

/// Two user tables carry the same ids, position by position.
pub proof fn lemma_find_user_idx_congruent(a: Seq<User>, b: Seq<User>, id: Seq<char>)
    requires
        a.len() == b.len(),
        forall|i: int| 0 <= i < a.len() ==> (#[trigger] a[i].id@) == (#[trigger] b[i].id@),
    ensures
        find_user_idx(a, id) == find_user_idx(b, id),
    decreases a.len(),
{
    if a.len() > 0 {
        assert(a[0].id@ == b[0].id@);
        if a[0].id@ != id {
            let ta = a.drop_first();
            let tb = b.drop_first();
            assert(forall|i: int|
                0 <= i < ta.len() ==> (#[trigger] ta[i].id@) == a[i + 1].id@);
            assert(forall|i: int|
                0 <= i < tb.len() ==> (#[trigger] tb[i].id@) == b[i + 1].id@);
            lemma_find_user_idx_congruent(ta, tb, id);
        }
    }
}

/// The profile fields of the user at `f` were updated from the request,
/// everything else kept, and the profile embedding recomputed from the
/// user's tags.
pub open spec fn user_updated(pre: Engine, post: Engine, id: Seq<char>, update: UpdateUserRequest) -> bool {
    let f = find_user_idx(pre.users@, id);
    let o = pre.users@[f];
    let u = post.users@[f];
    let names = names_desc(pre.user_tags@, id);
    &&& post.users@.len() == pre.users@.len()
    &&& (forall|j: int|
        0 <= j < pre.users@.len() && j != f ==> (#[trigger] post.users@[j]) == pre.users@[j])
    &&& u.id@ == o.id@
    &&& u.username@ == (match update.username {
        Some(s) => s@,
        None => o.username@,
    })
    &&& opt_str_view(u.display_name) == (match update.display_name {
        Some(s) => Some(s@),
        None => opt_str_view(o.display_name),
    })
    &&& u.avatar_url.content() == (match update.avatar_url {
        Some(a) => a.content(),
        None => o.avatar_url.content(),
    })
    &&& u.bio@ == (match update.bio {
        Some(s) => s@,
        None => o.bio@,
    })
    &&& u.created_at == o.created_at
    &&& u.updated_at == pre.clock
    &&& u.embedding is Some
    &&& is_normalized_draw(opt_emb_view(u.embedding)->0)
    &&& (names.len() > 0 ==> opt_emb_view(u.embedding) == Some(
        crate::profile::profile_spec(resolved_embs(pre.tags@, names)),
    ))
    &&& (names.len() == 0 ==> is_embedding(opt_emb_view(u.embedding)->0))
}

impl Engine {
    /// Apply a partial profile update; only the present fields change.
    /// The profile embedding is recomputed eagerly afterwards; the
    /// returned record shows the updated fields with the embedding as it
    /// was before the recompute.
    pub fn update_user(&mut self, id: &str, update: &UpdateUserRequest) -> (r: Result<User, Error>)
        requires
            old(self).wf(),
        ensures
            final(self).wf(),
            final(self).tags == old(self).tags,
            final(self).user_tags == old(self).user_tags,
            final(self).likes == old(self).likes,
            final(self).dislikes == old(self).dislikes,
            final(self).dislike_tags == old(self).dislike_tags,
            r is Ok <==> find_user_idx(old(self).users@, id@) >= 0,
            r is Err ==> *final(self) == *old(self) && (r matches Err(Error::NotFound {
                resource,
            }) && resource@ == "database record"@),
            r is Ok ==> user_updated(*old(self), *final(self), id@, *update),
            r matches Ok(v) ==> ({
                let f = find_user_idx(old(self).users@, id@);
                let o = old(self).users@[f];
                &&& v.id@ == o.id@
                &&& v.username@ == final(self).users@[f].username@
                &&& opt_str_view(v.display_name) == opt_str_view(final(self).users@[f].display_name)
                &&& v.avatar_url.content() == final(self).users@[f].avatar_url.content()
                &&& v.bio@ == final(self).users@[f].bio@
                &&& opt_emb_view(v.embedding) == opt_emb_view(o.embedding)
                &&& v.created_at == o.created_at
                &&& v.updated_at == old(self).clock
            }),
    {
        proof {
            lemma_find_user_idx(self.users@, id@);
        }
        let f = match self.find_user(id) {
            Some(f) => f,
            None => {
                return Err(Error::NotFound { resource: "database record".to_owned() });
            },
        };
        let o = &self.users[f];
        let username = match &update.username {
            Some(s) => s.clone(),
            None => o.username.clone(),
        };
        let display_name = match &update.display_name {
            Some(s) => Some(s.clone()),
            None => copy_opt_string(&o.display_name),
        };
        let avatar_url = match &update.avatar_url {
            Some(a) => Url::raw(a.as_str().to_owned()),
            None => Url::raw(o.avatar_url.as_str().to_owned()),
        };
        let bio = match &update.bio {
            Some(s) => s.clone(),
            None => o.bio.clone(),
        };
        let newu = User {
            id: o.id.clone(),
            username,
            display_name,
            avatar_url,
            bio,
            embedding: crate::user_types::copy_opt_embedding(&o.embedding),
            created_at: o.created_at,
            updated_at: self.clock,
        };
        let out = copy_user(&newu);
        let ghost oldusers = self.users@;
        vstd::pervasive::VecAdditionalExecFns::set(&mut self.users, f, newu);
        proof {
            assert forall|p: int, q: int| 0 <= p < q < self.users@.len() implies (
            #[trigger] self.users@[p].id@) != (#[trigger] self.users@[q].id@) by {
                assert(self.users@[p].id@ == oldusers[p].id@);
                assert(self.users@[q].id@ == oldusers[q].id@);
            }
            assert(forall|i: int|
                0 <= i < self.users@.len() ==> (#[trigger] self.users@[i].id@)
                    == oldusers[i].id@);
            lemma_find_user_idx_congruent(self.users@, oldusers, id@);
        }
        let _ = self.update_user_embedding(id);
        Ok(out)
    }

    /// The profile-update operation as the service exposes it: an empty
    /// username is rejected before anything changes.
    pub fn update_current_user(&mut self, id: &str, update: &UpdateUserRequest) -> (r: Result<
        User,
        Error,
    >)
        requires
            old(self).wf(),
        ensures
            final(self).wf(),
            ({
                let empty_username = match update.username {
                    Some(s) => s@.len() == 0,
                    None => false,
                };
                &&& (empty_username ==> *final(self) == *old(self) && (r matches Err(
                    Error::Validation { field, message },
                ) && field@ == "username"@ && message@ == "Username cannot be empty"@))
                &&& (!empty_username ==> (r is Ok <==> find_user_idx(old(self).users@, id@) >= 0)
                    && (r is Ok ==> user_updated(*old(self), *final(self), id@, *update)) && (r
                    is Err ==> *final(self) == *old(self)))
                &&& (!empty_username ==> (r matches Ok(v) ==> ({
                    let f = find_user_idx(old(self).users@, id@);
                    let o = old(self).users@[f];
                    &&& v.id@ == o.id@
                    &&& v.username@ == final(self).users@[f].username@
                    &&& opt_str_view(v.display_name) == opt_str_view(
                        final(self).users@[f].display_name,
                    )
                    &&& v.avatar_url.content() == final(self).users@[f].avatar_url.content()
                    &&& v.bio@ == final(self).users@[f].bio@
                    &&& opt_emb_view(v.embedding) == opt_emb_view(o.embedding)
                    &&& v.created_at == o.created_at
                    &&& v.updated_at == old(self).clock
                })))
            }),
    {
        let reject = match &update.username {
            Some(s) => s.as_str().is_empty(),
            None => false,
        };
        if reject {
            return Err(
                Error::Validation {
                    field: "username".to_owned(),
                    message: "Username cannot be empty".to_owned(),
                },
            );
        }
        self.update_user(id, update)
    }
}

impl RankOrd for (User, i64) {
    open spec fn rle(&self, other: &Self) -> bool {
        desc_rank_le((self.0.id@, self.1), (other.0.id@, other.1))
    }

    proof fn lemma_rle_total(a: &Self, b: &Self) {
        crate::order::lemma_bytes_le_total(encode_utf8(a.0.id@), encode_utf8(b.0.id@));
    }

    proof fn lemma_rle_trans(a: &Self, b: &Self, c: &Self) {
        if a.1 == b.1 && b.1 == c.1 {
            crate::order::lemma_bytes_le_trans(
                encode_utf8(a.0.id@),
                encode_utf8(b.0.id@),
                encode_utf8(c.0.id@),
            );
        }
    }

    fn rle_exec(&self, other: &Self) -> (r: bool) {
        if self.1 != other.1 {
            self.1 > other.1
        } else {
            str_le(self.0.id.as_str(), other.0.id.as_str())
        }
    }
}

impl RankOrd for (String, i64) {
    open spec fn rle(&self, other: &Self) -> bool {
        asc_rank_le((self.0@, self.1), (other.0@, other.1))
    }

    proof fn lemma_rle_total(a: &Self, b: &Self) {
        crate::order::lemma_bytes_le_total(encode_utf8(a.0@), encode_utf8(b.0@));
    }

    proof fn lemma_rle_trans(a: &Self, b: &Self, c: &Self) {
        if a.1 == b.1 && b.1 == c.1 {
            crate::order::lemma_bytes_le_trans(
                encode_utf8(a.0@),
                encode_utf8(b.0@),
                encode_utf8(c.0@),
            );
        }
    }

    fn rle_exec(&self, other: &Self) -> (r: bool) {
        if self.1 != other.1 {
            self.1 < other.1
        } else {
            str_le(self.0.as_str(), other.0.as_str())
        }
    }
}

impl RankOrd for TagCount {
    open spec fn rle(&self, other: &Self) -> bool {
        desc_rank_le(
            (self.tag_name.content(), self.user_count),
            (other.tag_name.content(), other.user_count),
        )
    }

    proof fn lemma_rle_total(a: &Self, b: &Self) {
        crate::order::lemma_bytes_le_total(
            encode_utf8(a.tag_name.content()),
            encode_utf8(b.tag_name.content()),
        );
    }

    proof fn lemma_rle_trans(a: &Self, b: &Self, c: &Self) {
        if a.user_count == b.user_count && b.user_count == c.user_count {
            crate::order::lemma_bytes_le_trans(
                encode_utf8(a.tag_name.content()),
                encode_utf8(b.tag_name.content()),
                encode_utf8(c.tag_name.content()),
            );
        }
    }

    fn rle_exec(&self, other: &Self) -> (r: bool) {
        if self.user_count != other.user_count {
            self.user_count > other.user_count
        } else {
            str_le(self.tag_name.as_str(), other.tag_name.as_str())
        }
    }
}

/// The keys of the tags semantically opposite to a target: every other
/// tag with an embedding, keyed by its cosine distance to the negated
/// target embedding (lower means more opposite).
pub open spec fn nemesis_entries(tags: Seq<Tag>, name: Seq<char>, opp: Seq<i64>, k: int) -> Seq<
    (Seq<char>, i64),
>
    decreases k,
{
    if k <= 0 {
        Seq::empty()
    } else {
        let rest = nemesis_entries(tags, name, opp, k - 1);
        let t = tags[k - 1];
        if t.name@ != name && t.embedding is Some {
            rest.push((t.name@, (SCALE - cos_sim_spec(t.embedding->0@, opp)) as i64))
        } else {
            rest
        }
    }
}

/// The number of users carrying this tag.
pub open spec fn tag_user_count(tab: Seq<UserTag>, name: Seq<char>, k: int) -> int
    decreases k,
{
    if k <= 0 {
        0
    } else {
        tag_user_count(tab, name, k - 1) + if tab[k - 1].tag_name@ == name {
            1int
        } else {
            0int
        }
    }
}

/// Row `i` is the first row carrying its tag name.
pub open spec fn first_occurrence(tab: Seq<UserTag>, i: int) -> bool {
    forall|j: int| 0 <= j < i ==> (#[trigger] tab[j].tag_name@) != tab[i].tag_name@
}

/// A count squeezed into an `i64`, saturating at its maximum.
pub open spec fn count_to_i64(c: int) -> i64 {
    if c > 9223372036854775807 {
        9223372036854775807i64
    } else {
        c as i64
    }
}

/// One key per distinct tag name in use, with its user count.
pub open spec fn tag_count_entries(tab: Seq<UserTag>, k: int) -> Seq<(Seq<char>, i64)>
    decreases k,
{
    if k <= 0 {
        Seq::empty()
    } else {
        let rest = tag_count_entries(tab, k - 1);
        if first_occurrence(tab, k - 1) {
            rest.push(
                (
                    tab[k - 1].tag_name@,
                    count_to_i64(tag_user_count(tab, tab[k - 1].tag_name@, tab.len() as int)),
                ),
            )
        } else {
            rest
        }
    }
}

impl Engine {
    /// Tags that are semantically opposite to the given tag: every other
    /// tag with an embedding, ranked by rising cosine distance to the
    /// negation of the given tag's embedding (ties by name), cut to
    /// `limit`. Empty when the tag is unknown or has no embedding yet.
    pub fn get_nemesis_tags(&self, tag_name: &str, limit: i64) -> (r: Vec<(String, i64)>)
        requires
            self.wf(),
        ensures
            ({
                let f = find_tag_idx(self.tags@, tag_name@);
                &&& ((f == -1 || (f >= 0 && self.tags@[f].embedding is None)) ==> r@.len() == 0)
                &&& ((f >= 0 && self.tags@[f].embedding is Some) ==> ({
                    let opp = neg_spec(self.tags@[f].embedding->0@);
                    let full = vsort(
                        asc_rank(),
                        nemesis_entries(self.tags@, tag_name@, opp, self.tags@.len() as int),
                    );
                    let lim: int = if limit < 0 {
                        0
                    } else {
                        limit as int
                    };
                    let cnt: int = if lim > full.len() {
                        full.len() as int
                    } else {
                        lim
                    };
                    &&& r@.len() == cnt
                    &&& forall|m: int|
                        0 <= m < cnt ==> (((#[trigger] r@[m]).0@, r@[m].1)) == full[m]
                }))
            }),
    {
        proof {
            lemma_find_tag_idx(self.tags@, tag_name@);
        }
        let i = match self.find_tag(tag_name) {
            Some(i) => i,
            None => {
                return Vec::new();
            },
        };
        let target_emb = match &self.tags[i].embedding {
            Some(e) => e,
            None => {
                return Vec::new();
            },
        };
        let opp = negate(target_emb);
        let ghost vw = |p: (String, i64)| (p.0@, p.1);
        let n = self.tags.len();
        let mut built: Vec<(String, i64)> = Vec::new();
        let mut k: usize = 0;
        proof {
            assert(built@.map_values(vw) =~= nemesis_entries(self.tags@, tag_name@, opp@, 0));
        }
        while k < n
            invariant
                self.wf(),
                n == self.tags@.len(),
                k <= n,
                i < n,
                self.tags@[i as int].name@ == tag_name@,
                is_embedding(opp@),
                opp@ == neg_spec(self.tags@[i as int].embedding->0@),
                self.tags@[i as int].embedding is Some,
                vw == (|p: (String, i64)| (p.0@, p.1)),
                built@.map_values(vw) == nemesis_entries(
                    self.tags@,
                    tag_name@,
                    opp@,
                    k as int,
                ),
            decreases n - k,
        {
            let ghost pre = built@.map_values(vw);
            if k != i {
                proof {
                    if k < i {
                        assert(self.tags@[k as int].name@ != self.tags@[i as int].name@);
                    } else {
                        assert(self.tags@[i as int].name@ != self.tags@[k as int].name@);
                    }
                }
                match &self.tags[k].embedding {
                    Some(e2) => {
                        proof {
                            assert(tag_wf(self.tags@[k as int]));
                        }
                        let c = cos_sim(e2, &opp);
                        built.push((self.tags[k].name.clone(), SCALE - c));
                        proof {
                            assert(built@.map_values(vw) =~= pre.push(
                                (
                                    self.tags@[k as int].name@,
                                    (SCALE - cos_sim_spec(
                                        self.tags@[k as int].embedding->0@,
                                        opp@,
                                    )) as i64,
                                ),
                            ));
                        }
                    },
                    None => {
                    },
                }
            } else {
                proof {
                    assert(self.tags@[k as int].name@ == tag_name@);
                }
            }
            k = k + 1;
        }
        let ghost prebuilt = built@;
        let mut sorted = sort_ranked(built);
        proof {
            crate::order::lemma_sort_view_commute(prebuilt, vw, asc_rank());
        }
        let lim: usize = if limit < 0 {
            0
        } else if (limit as u128) >= (sorted.len() as u128) {
            sorted.len()
        } else {
            limit as usize
        };
        let ghost presort = sorted@;
        sorted.truncate(lim);
        proof {
            assert(sorted@ =~= presort.take(lim as int));
            let full = vsort(
                asc_rank(),
                nemesis_entries(
                    self.tags@,
                    tag_name@,
                    neg_spec(self.tags@[i as int].embedding->0@),
                    self.tags@.len() as int,
                ),
            );
            assert(presort.map_values(vw) == full);
            assert forall|m: int| 0 <= m < sorted@.len() implies (((#[trigger] sorted@[m]).0@,
            sorted@[m].1)) == full[m] by {
                assert(sorted@[m] == presort[m]);
                assert(presort.map_values(vw)[m] == vw(presort[m]));
            }
        }
        sorted
    }

    /// Every tag in use, with how many users carry it, ranked by falling
    /// user count (ties by name).
    pub fn get_all_tags(&self) -> (r: Vec<TagCount>)
        requires
            self.wf(),
        ensures
            ({
                let full = vsort(
                    desc_rank(),
                    tag_count_entries(self.user_tags@, self.user_tags@.len() as int),
                );
                &&& r@.len() == full.len()
                &&& forall|m: int|
                    0 <= m < full.len() ==> (((#[trigger] r@[m]).tag_name.content(),
                    r@[m].user_count)) == full[m]
            }),
    {
        let ghost vw = |t: TagCount| (t.tag_name.content(), t.user_count);
        let n = self.user_tags.len();
        let mut built: Vec<TagCount> = Vec::new();
        let mut k: usize = 0;
        proof {
            assert(built@.map_values(vw) =~= tag_count_entries(self.user_tags@, 0));
        }
        while k < n
            invariant
                n == self.user_tags@.len(),
                k <= n,
                vw == (|t: TagCount| (t.tag_name.content(), t.user_count)),
                built@.map_values(vw) == tag_count_entries(self.user_tags@, k as int),
            decreases n - k,
        {
            let ghost pre = built@.map_values(vw);
            let name = &self.user_tags[k].tag_name;
            let mut fresh = true;
            let mut j: usize = 0;
            while j < k
                invariant
                    n == self.user_tags@.len(),
                    k <= n,
                    k < n,
                    j <= k,
                    name@ == self.user_tags@[k as int].tag_name@,
                    fresh ==> forall|p: int|
                        0 <= p < j as int ==> (#[trigger] self.user_tags@[p].tag_name@) != name@,
                    !fresh ==> !first_occurrence(self.user_tags@, k as int),
                decreases k - j,
            {
                if str_eq(self.user_tags[j].tag_name.as_str(), name.as_str()) {
                    proof {
                        assert((#[trigger] self.user_tags@[j as int].tag_name@) == name@);
                    }
                    fresh = false;
                }
                j = j + 1;
            }
            if fresh {
                proof {
                    assert(first_occurrence(self.user_tags@, k as int));
                }
                let mut cnt: usize = 0;
                let mut t: usize = 0;
                while t < n
                    invariant
                        n == self.user_tags@.len(),
                        t <= n,
                        cnt <= t,
                        name@ == self.user_tags@[k as int].tag_name@,
                        k < n,
                        cnt as int == tag_user_count(self.user_tags@, name@, t as int),
                    decreases n - t,
                {
                    if str_eq(self.user_tags[t].tag_name.as_str(), name.as_str()) {
                        cnt = cnt + 1;
                    }
                    t = t + 1;
                }
                let cnt_i: i64 = if (cnt as u128) > 9223372036854775806u128 {
                    9223372036854775807i64
                } else {
                    cnt as i64
                };
                built.push(TagCount { tag_name: TagName::raw(name.clone()), user_count: cnt_i });
                proof {
                    assert(built@.map_values(vw) =~= pre.push(
                        (
                            self.user_tags@[k as int].tag_name@,
                            count_to_i64(
                                tag_user_count(
                                    self.user_tags@,
                                    self.user_tags@[k as int].tag_name@,
                                    n as int,
                                ),
                            ),
                        ),
                    ));
                }
            }
            k = k + 1;
        }
        let ghost prebuilt = built@;
        let sorted = sort_ranked(built);
        proof {
            crate::order::lemma_sort_view_commute(prebuilt, vw, desc_rank());
            let full = vsort(
                desc_rank(),
                tag_count_entries(self.user_tags@, self.user_tags@.len() as int),
            );
            assert(sorted@.map_values(vw) == full);
            assert forall|m: int| 0 <= m < full.len() implies (((
            #[trigger] sorted@[m]).tag_name.content(), sorted@[m].user_count)) == full[m] by {
                assert(sorted@.map_values(vw)[m] == vw(sorted@[m]));
            }
        }
        sorted
    }
}

/// An id the requester must never be shown: their own, or one they have
/// already liked or disliked.
pub open spec fn excluded_id(e: Engine, uid: Seq<char>, id: Seq<char>) -> bool {
    id == uid || e.spec_has_like(uid, id) || e.spec_has_dislike(uid, id)
}

/// The ranked-view keys of a discovery request: one entry per eligible
/// candidate (not excluded, with an embedding), keyed by id and
/// opposition score.
pub open spec fn candidate_entries(e: Engine, uid: Seq<char>, r_emb: Seq<i64>, k: int) -> Seq<
    (Seq<char>, i64),
>
    decreases k,
{
    if k <= 0 {
        Seq::empty()
    } else {
        let rest = candidate_entries(e, uid, r_emb, k - 1);
        let u = e.users@[k - 1];
        if !excluded_id(e, uid, u.id@) && u.embedding is Some {
            rest.push(
                (
                    u.id@,
                    crate::score::score_spec(
                        r_emb,
                        resolved_embs(e.tags@, names_desc(e.user_tags@, uid)),
                        names_desc(e.user_tags@, uid),
                        u.embedding->0@,
                        resolved_embs(e.tags@, names_desc(e.user_tags@, u.id@)),
                        names_desc(e.user_tags@, u.id@),
                    ) as i64,
                ),
            )
        } else {
            rest
        }
    }
}

impl Engine {
    /// A user's tag names (most recent first) with the embeddings they
    /// resolve to.
    fn user_tag_data(&self, user_id: &str) -> (r: (Vec<String>, Vec<Vec<i64>>))
        requires
            self.wf(),
        ensures
            ({
                let names = names_desc(self.user_tags@, user_id@);
                &&& crate::score::names_of(r.0@) == names
                &&& crate::profile::views_of(r.1@) == resolved_embs(self.tags@, names)
                &&& r.0@.len() == names.len()
                &&& r.1@.len() == names.len()
                &&& crate::profile::all_embeddings(crate::profile::views_of(r.1@))
                &&& r.1@.len() <= self.user_tags@.len()
            }),
    {
        let ghost names = names_desc(self.user_tags@, user_id@);
        let rows = self.get_user_tags(user_id);
        let ghost fd = filter_desc(self.user_tags@, |t: UserTag| t.user_id@ == user_id@);
        proof {
            lemma_filter_desc_from(self.user_tags@, |t: UserTag| t.user_id@ == user_id@);
            lemma_filter_desc_pred(self.user_tags@, |t: UserTag| t.user_id@ == user_id@);
        }
        let mut out_names: Vec<String> = Vec::new();
        let mut out_embs: Vec<Vec<i64>> = Vec::new();
        let mut m: usize = 0;
        while m < rows.len()
            invariant
                self.wf(),
                fd == filter_desc(self.user_tags@, |t: UserTag| t.user_id@ == user_id@),
                names == names_desc(self.user_tags@, user_id@),
                fd.len() <= self.user_tags@.len(),
                rows@.len() == fd.len(),
                forall|q: int|
                    0 <= q < fd.len() ==> crate::user_types::user_tag_view_eq(
                        #[trigger] rows@[q],
                        fd[q],
                    ),
                forall|q: int|
                    0 <= q < fd.len() ==> exists|j: int|
                        0 <= j < self.user_tags@.len() && (#[trigger] self.user_tags@[j]) == (
                        #[trigger] fd[q]),
                m <= rows@.len(),
                out_names@.len() == m,
                out_embs@.len() == m,
                forall|q: int|
                    0 <= q < m as int ==> (#[trigger] out_names@[q])@ == names[q],
                forall|q: int|
                    0 <= q < m as int ==> (#[trigger] out_embs@[q])@ == resolved_emb(
                        self.tags@,
                        names[q],
                    ),
                forall|q: int| 0 <= q < m as int ==> is_embedding((#[trigger] out_embs@[q])@),
            decreases rows@.len() - m,
        {
            proof {
                assert(names[m as int] == fd[m as int].tag_name@);
                let fdm = fd[m as int];
                assert(tag_resolved(self.tags@, fdm.tag_name@)) by {
                    let j = choose|j: int|
                        0 <= j < self.user_tags@.len() && (#[trigger] self.user_tags@[j]) == fdm;
                    assert(tag_resolved(self.tags@, self.user_tags@[j].tag_name@));
                }
                lemma_find_tag_idx(self.tags@, fd[m as int].tag_name@);
            }
            out_names.push(rows[m].tag_name.clone());
            // As in the maintainer: the store invariant makes the lookup
            // always succeed with an embedding present.
            match self.find_tag(rows[m].tag_name.as_str()) {
                Some(i) => {
                    proof {
                        let name = fd[m as int].tag_name@;
                        let j = choose|j: int|
                            0 <= j < self.tags@.len() && (#[trigger] self.tags@[j]).name@ == name
                                && self.tags@[j].embedding is Some;
                        if j != i as int {
                            assert(self.tags@[j].name@ == self.tags@[i as int].name@);
                            assert(false);
                        }
                    }
                    match &self.tags[i].embedding {
                        Some(e) => {
                            out_embs.push(crate::user_types::copy_embedding(e));
                        },
                        None => {
                            proof {
                                assert(false);
                            }
                            unreached()
                        },
                    }
                },
                None => {
                    proof {
                        let name = fd[m as int].tag_name@;
                        let j = choose|j: int|
                            0 <= j < self.tags@.len() && (#[trigger] self.tags@[j]).name@ == name
                                && self.tags@[j].embedding is Some;
                        assert(false);
                    }
                    unreached()
                },
            }
            m = m + 1;
        }
        proof {
            assert(crate::score::names_of(out_names@) =~= names);
            assert(crate::profile::views_of(out_embs@) =~= resolved_embs(self.tags@, names));
        }
        (out_names, out_embs)
    }

    /// Whether a like edge for this pair exists.
    fn has_like_exec(&self, uid: &str, tid: &str) -> (r: bool)
        ensures
            r == self.spec_has_like(uid@, tid@),
    {
        let n = self.likes.len();
        let mut i: usize = 0;
        while i < n
            invariant
                n == self.likes@.len(),
                i <= n,
                forall|j: int|
                    0 <= j < i as int ==> !((#[trigger] self.likes@[j]).user_id@ == uid@
                        && self.likes@[j].target_user_id@ == tid@),
            decreases n - i,
        {
            let row = &self.likes[i];
            if str_eq(row.user_id.as_str(), uid) && str_eq(row.target_user_id.as_str(), tid) {
                return true;
            }
            i = i + 1;
        }
        false
    }

    /// Whether a dislike edge for this pair exists.
    fn has_dislike_exec(&self, uid: &str, tid: &str) -> (r: bool)
        ensures
            r == self.spec_has_dislike(uid@, tid@),
    {
        let n = self.dislikes.len();
        let mut i: usize = 0;
        while i < n
            invariant
                n == self.dislikes@.len(),
                i <= n,
                forall|j: int|
                    0 <= j < i as int ==> !((#[trigger] self.dislikes@[j]).user_id@ == uid@
                        && self.dislikes@[j].target_user_id@ == tid@),
            decreases n - i,
        {
            let row = &self.dislikes[i];
            if str_eq(row.user_id.as_str(), uid) && str_eq(row.target_user_id.as_str(), tid) {
                return true;
            }
            i = i + 1;
        }
        false
    }

    /// Discover potential nemeses for a requester: every other user the
    /// requester has not liked or disliked, with an embedding, ranked by
    /// falling opposition score (ties by id), then the page
    /// `[offset, offset + limit)` of that ranking. A requester without a
    /// profile embedding first gets one computed and persisted; the
    /// ranking is a pure function of the store afterwards, so repeated
    /// calls page consistently. Unknown requesters get `NotFound`.
    pub fn get_potential_nemeses(&mut self, user_id: &str, limit: i64, offset: i64) -> (r: Result<
        Vec<(User, i64)>,
        Error,
    >)
        requires
            old(self).wf(),
        ensures
            final(self).wf(),
            final(self).tags == old(self).tags,
            final(self).user_tags == old(self).user_tags,
            final(self).likes == old(self).likes,
            final(self).dislikes == old(self).dislikes,
            final(self).dislike_tags == old(self).dislike_tags,
            find_user_idx(old(self).users@, user_id@) == -1 ==> *final(self) == *old(self) && (r
                matches Err(Error::NotFound { resource }) && resource@ == "User with ID "@
                + user_id@),
            find_user_idx(old(self).users@, user_id@) >= 0 ==> ({
                let f = find_user_idx(old(self).users@, user_id@);
                &&& (old(self).users@[f].embedding is Some ==> final(self).users == old(
                    self,
                ).users)
                &&& (old(self).users@[f].embedding is None ==> final(self).users@.len() == old(
                    self,
                ).users@.len() && (forall|j: int|
                    0 <= j < old(self).users@.len() && j != f ==> (#[trigger] final(self).users@[j])
                        == old(self).users@[j]) && final(self).users@[f].id@ == old(
                    self,
                ).users@[f].id@ && final(self).users@[f].embedding is Some)
                &&& (old(self).user_tags@.len() > 0xFFFFFFFF ==> (r matches Err(Error::Unknown {
                    ..
                })))
                &&& (old(self).user_tags@.len() <= 0xFFFFFFFF ==> r is Ok)
            }),
            r matches Ok(v) ==> ({
                let f = find_user_idx(final(self).users@, user_id@);
                let entries = candidate_entries(
                    *final(self),
                    user_id@,
                    final(self).users@[f].embedding->0@,
                    final(self).users@.len() as int,
                );
                let win = page_window(
                    vsort(desc_rank(), entries),
                    offset as int,
                    limit as int,
                );
                &&& f >= 0
                &&& v@.len() == win.len()
                &&& (forall|m: int|
                    0 <= m < win.len() ==> (((#[trigger] v@[m]).0.id@, v@[m].1)) == win[m])
                &&& (forall|m: int|
                    0 <= m < v@.len() ==> !excluded_id(
                        *final(self),
                        user_id@,
                        (#[trigger] v@[m]).0.id@,
                    ))
                &&& (forall|m: int|
                    0 <= m < v@.len() ==> exists|j: int|
                        0 <= j < final(self).users@.len() && user_view_eq(
                            (#[trigger] v@[m]).0,
                            final(self).users@[j],
                        ))
            }),
    {
        proof {
            lemma_find_user_idx(self.users@, user_id@);
        }
        let f = match self.find_user(user_id) {
            Some(f) => f,
            None => {
                return Err(
                    Error::NotFound { resource: "User with ID ".to_owned().concat(user_id) },
                );
            },
        };
        let needs_init = match &self.users[f].embedding {
            Some(_) => false,
            None => true,
        };
        if needs_init {
            let ghost before = *self;
            let _ = self.update_user_embedding(user_id);
            proof {
                lemma_find_user_idx_congruent(self.users@, before.users@, user_id@);
            }
        }
        if self.user_tags.len() > 0xFFFFFFFFusize {
            return Err(
                Error::Unknown { msg: "tag table too large to score in process".to_owned() },
            );
        }
        let ghost primed = *self;
        proof {
            lemma_find_user_idx(self.users@, user_id@);
        }
        let r_emb = match &self.users[f].embedding {
            Some(e) => crate::user_types::copy_embedding(e),
            None => {
                proof {
                    assert(false);
                }
                unreached()
            },
        };
        let (rn, rt) = self.user_tag_data(user_id);
        let ghost uvw = |p: (User, i64)| (p.0.id@, p.1);
        let n = self.users.len();
        let mut cands: Vec<(User, i64)> = Vec::new();
        let mut k: usize = 0;
        proof {
            assert(cands@.map_values(uvw) =~= candidate_entries(*self, user_id@, r_emb@, 0));
        }
        while k < n
            invariant
                *self == primed,
                self.wf(),
                n == self.users@.len(),
                k <= n,
                f < n,
                self.users@[f as int].id@ == user_id@,
                self.users@[f as int].embedding is Some,
                r_emb@ == self.users@[f as int].embedding->0@,
                is_embedding(r_emb@),
                self.user_tags@.len() <= 0xFFFFFFFF,
                crate::score::names_of(rn@) == names_desc(self.user_tags@, user_id@),
                crate::profile::views_of(rt@) == resolved_embs(
                    self.tags@,
                    names_desc(self.user_tags@, user_id@),
                ),
                rt@.len() <= self.user_tags@.len(),
                crate::profile::all_embeddings(crate::profile::views_of(rt@)),
                uvw == (|p: (User, i64)| (p.0.id@, p.1)),
                cands@.map_values(uvw) == candidate_entries(*self, user_id@, r_emb@, k as int),
                forall|m: int|
                    0 <= m < cands@.len() ==> !excluded_id(
                        *self,
                        user_id@,
                        (#[trigger] cands@[m]).0.id@,
                    ),
                forall|m: int|
                    0 <= m < cands@.len() ==> exists|j: int|
                        0 <= j < self.users@.len() && user_view_eq(
                            (#[trigger] cands@[m]).0,
                            self.users@[j],
                        ),
            decreases n - k,
        {
            let ghost pre = cands@.map_values(uvw);
            let u = &self.users[k];
            let is_self = str_eq(u.id.as_str(), user_id);
            let liked = self.has_like_exec(user_id, u.id.as_str());
            let disliked = self.has_dislike_exec(user_id, u.id.as_str());
            if !is_self && !liked && !disliked {
                match &self.users[k].embedding {
                    Some(c_emb) => {
                        let (cn, ct) = self.user_tag_data(self.users[k].id.as_str());
                        proof {
                            assert(user_wf(self.users@[k as int]));
                            assert(rt@.len() * ct@.len() <= 18446744073709551615int)
                                by (nonlinear_arith)
                                requires
                                    rt@.len() <= 0xFFFFFFFFint,
                                    ct@.len() <= 0xFFFFFFFFint;
                        }
                        let s = crate::score::score(&r_emb, &rt, &rn, c_emb, &ct, &cn);
                        cands.push((copy_user(&self.users[k]), s));
                        proof {
                            assert((#[trigger] cands@[cands@.len() - 1]).0.id@
                                == self.users@[k as int].id@);
                            assert(user_view_eq(
                                cands@[cands@.len() - 1].0,
                                self.users@[k as int],
                            ));
                            assert(cands@.map_values(uvw) =~= pre.push(
                                (
                                    self.users@[k as int].id@,
                                    crate::score::score_spec(
                                        r_emb@,
                                        resolved_embs(
                                            self.tags@,
                                            names_desc(self.user_tags@, user_id@),
                                        ),
                                        names_desc(self.user_tags@, user_id@),
                                        self.users@[k as int].embedding->0@,
                                        resolved_embs(
                                            self.tags@,
                                            names_desc(
                                                self.user_tags@,
                                                self.users@[k as int].id@,
                                            ),
                                        ),
                                        names_desc(self.user_tags@, self.users@[k as int].id@),
                                    ) as i64,
                                ),
                            ));
                        }
                    },
                    None => {
                    },
                }
            }
            k = k + 1;
        }
        let ghost precands = cands@;
        let mut sorted = sort_ranked(cands);
        proof {
            crate::order::lemma_sort_view_commute(precands, uvw, desc_rank());
            crate::order::lemma_sort_spec_props(precands);
            broadcast use vstd::seq_lib::group_to_multiset_ensures;

        }
        let ghost presort = sorted@;
        apply_window(&mut sorted, offset, limit);
        proof {
            let entries = candidate_entries(*self, user_id@, r_emb@, n as int);
            let full = vsort(desc_rank(), entries);
            let win = page_window(full, offset as int, limit as int);
            assert(presort.map_values(uvw) == full);
            assert(sorted@ == page_window(presort, offset as int, limit as int));
            assert(full.len() == presort.len());
            assert forall|m: int| 0 <= m < win.len() implies (((#[trigger] sorted@[m]).0.id@,
            sorted@[m].1)) == win[m] by {
                let st = page_window_start(presort.len() as int, offset as int);
                assert(sorted@[m] == presort[st + m]);
                assert(win[m] == full[st + m]);
                assert(full[st + m] == uvw(presort[st + m]));
            }
            assert forall|m: int| 0 <= m < sorted@.len() implies !excluded_id(
                *final(self),
                user_id@,
                (#[trigger] sorted@[m]).0.id@,
            ) && exists|j: int|
                0 <= j < final(self).users@.len() && user_view_eq(
                    sorted@[m].0,
                    final(self).users@[j],
                ) by {
                let st = page_window_start(presort.len() as int, offset as int);
                assert(sorted@[m] == presort[st + m]);
                assert(presort.to_multiset().count(presort[st + m]) > 0);
                assert(precands.to_multiset().count(presort[st + m]) > 0);
                assert(precands.contains(presort[st + m]));
                let j = choose|j: int|
                    0 <= j < precands.len() && precands[j] == presort[st + m];
                assert(!excluded_id(*self, user_id@, precands[j].0.id@));
            }
        }
        Ok(sorted)
    }
}

/// Where a page starts: the clamped offset.
pub open spec fn page_window_start(len: int, offset: int) -> int {
    if offset < 0 {
        0
    } else if offset > len {
        len
    } else {
        offset
    }
}

impl Engine {
    /// Like a user: the target must exist and must not be the requester.
    pub fn like_user(&mut self, user_id: &str, target_user_id: &str) -> (r: Result<
        crate::user_types::UserLike,
        Error,
    >)
        requires
            old(self).wf(),
        ensures
            final(self).wf(),
            find_user_idx(old(self).users@, target_user_id@) == -1 ==> *final(self) == *old(self)
                && (r matches Err(Error::NotFound { resource }) && resource@ == "User with ID "@
                + target_user_id@),
            find_user_idx(old(self).users@, target_user_id@) >= 0 && user_id@ == target_user_id@
                ==> *final(self) == *old(self) && (r matches Err(Error::Validation {
                field,
                message,
            }) && field@ == "target_user_id"@ && message@ == "Cannot like yourself"@),
            find_user_idx(old(self).users@, target_user_id@) >= 0 && user_id@ != target_user_id@
                ==> r is Ok && final(self).spec_has_like(user_id@, target_user_id@) && (r matches
            Ok(v) && v.user_id@ == user_id@ && v.target_user_id@ == target_user_id@),
    {
        proof {
            lemma_find_user_idx(self.users@, target_user_id@);
        }
        if self.find_user(target_user_id).is_none() {
            return Err(
                Error::NotFound { resource: "User with ID ".to_owned().concat(target_user_id) },
            );
        }
        if str_eq(user_id, target_user_id) {
            return Err(
                Error::Validation {
                    field: "target_user_id".to_owned(),
                    message: "Cannot like yourself".to_owned(),
                },
            );
        }
        self.add_like(user_id, target_user_id)
    }

    /// Dislike a user: the target must exist and must not be the requester.
    pub fn dislike_user(&mut self, user_id: &str, target_user_id: &str) -> (r: Result<
        crate::user_types::UserDislike,
        Error,
    >)
        requires
            old(self).wf(),
        ensures
            final(self).wf(),
            find_user_idx(old(self).users@, target_user_id@) == -1 ==> *final(self) == *old(self)
                && (r matches Err(Error::NotFound { resource }) && resource@ == "User with ID "@
                + target_user_id@),
            find_user_idx(old(self).users@, target_user_id@) >= 0 && user_id@ == target_user_id@
                ==> *final(self) == *old(self) && (r matches Err(Error::Validation {
                field,
                message,
            }) && field@ == "target_user_id"@ && message@ == "Cannot dislike yourself"@),
            find_user_idx(old(self).users@, target_user_id@) >= 0 && user_id@ != target_user_id@
                ==> r is Ok && final(self).spec_has_dislike(user_id@, target_user_id@) && (r
            matches Ok(v) && v.user_id@ == user_id@ && v.target_user_id@ == target_user_id@),
    {
        proof {
            lemma_find_user_idx(self.users@, target_user_id@);
        }
        if self.find_user(target_user_id).is_none() {
            return Err(
                Error::NotFound { resource: "User with ID ".to_owned().concat(target_user_id) },
            );
        }
        if str_eq(user_id, target_user_id) {
            return Err(
                Error::Validation {
                    field: "target_user_id".to_owned(),
                    message: "Cannot dislike yourself".to_owned(),
                },
            );
        }
        self.add_dislike(user_id, target_user_id)
    }

    /// Dislike a user and record the reasons: after the same checks as
    /// `dislike_user`, a dislike edge is ensured and one dislike-tag row
    /// per non-empty requested name is returned, in request order.
    pub fn dislike_user_with_tags(
        &mut self,
        user_id: &str,
        target_user_id: &str,
        request: &crate::user_types::AddTagsRequest,
    ) -> (r: Result<Vec<crate::user_types::UserDislikeTag>, Error>)
        requires
            old(self).wf(),
        ensures
            final(self).wf(),
            find_user_idx(old(self).users@, target_user_id@) == -1 ==> *final(self) == *old(self)
                && (r matches Err(Error::NotFound { resource }) && resource@ == "User with ID "@
                + target_user_id@),
            find_user_idx(old(self).users@, target_user_id@) >= 0 && user_id@ == target_user_id@
                ==> *final(self) == *old(self) && (r matches Err(Error::Validation {
                field,
                message,
            }) && field@ == "target_user_id"@ && message@ == "Cannot dislike yourself"@),
            find_user_idx(old(self).users@, target_user_id@) >= 0 && user_id@ != target_user_id@
                ==> r is Ok && final(self).spec_has_dislike(user_id@, target_user_id@),
            r matches Ok(v) ==> ({
                let wanted = nonempty_names(request.tag_names@);
                &&& v@.len() == wanted.len()
                &&& forall|m: int|
                    0 <= m < wanted.len() ==> (#[trigger] v@[m]).tag_name.content() == wanted[m]
                        && v@[m].user_id@ == user_id@ && v@[m].target_user_id@ == target_user_id@
            }),
            final(self).users == old(self).users,
            final(self).user_tags == old(self).user_tags,
            final(self).likes == old(self).likes,
            // what may change: at most one new dislike edge, only appended
            // dislike-tag rows for this pair with requested names, and only
            // appended (embedding-less) tags
            old(self).spec_has_dislike(user_id@, target_user_id@) ==> final(self).dislikes == old(self).dislikes,
            !old(self).spec_has_dislike(user_id@, target_user_id@) ==> final(self).dislikes@.len()
                <= old(self).dislikes@.len() + 1 && final(self).dislikes@.take(
                old(self).dislikes@.len() as int,
            ) == old(self).dislikes@ && (final(self).dislikes@.len() == old(self).dislikes@.len()
                + 1 ==> final(self).dislikes@.last().user_id@ == user_id@
                && final(self).dislikes@.last().target_user_id@ == target_user_id@),
            final(self).dislike_tags@.len() >= old(self).dislike_tags@.len(),
            final(self).dislike_tags@.take(old(self).dislike_tags@.len() as int) == old(self).dislike_tags@,
            forall|j: int|
                old(self).dislike_tags@.len() <= j < final(self).dislike_tags@.len() ==> ((
                #[trigger] final(self).dislike_tags@[j]).user_id@ == user_id@
                    && final(self).dislike_tags@[j].target_user_id@ == target_user_id@ && exists|
                    q: int,
                |
                    0 <= q < request.tag_names@.len()
                        && final(self).dislike_tags@[j].tag_name.content() == (
                    #[trigger] request.tag_names@[q])@ && request.tag_names@[q]@.len() > 0),
            final(self).tags@.len() >= old(self).tags@.len(),
            final(self).tags@.take(old(self).tags@.len() as int) == old(self).tags@,
    {
        proof {
            lemma_find_user_idx(self.users@, target_user_id@);
        }
        if self.find_user(target_user_id).is_none() {
            return Err(
                Error::NotFound { resource: "User with ID ".to_owned().concat(target_user_id) },
            );
        }
        if str_eq(user_id, target_user_id) {
            return Err(
                Error::Validation {
                    field: "target_user_id".to_owned(),
                    message: "Cannot dislike yourself".to_owned(),
                },
            );
        }
        let _ = self.add_dislike(user_id, target_user_id);
        let ghost wanted = nonempty_names(request.tag_names@);
        let mut out: Vec<crate::user_types::UserDislikeTag> = Vec::new();
        let mut i: usize = 0;
        proof {
            lemma_nonempty_names_empty(request.tag_names@);
        }
        while i < request.tag_names.len()
            invariant
                old(self).wf(),
                self.wf(),
                self.users == old(self).users,
                self.user_tags == old(self).user_tags,
                self.likes == old(self).likes,
                self.spec_has_dislike(user_id@, target_user_id@),
                old(self).spec_has_dislike(user_id@, target_user_id@) ==> self.dislikes == old(self).dislikes,
                !old(self).spec_has_dislike(user_id@, target_user_id@) ==> self.dislikes@.len()
                    <= old(self).dislikes@.len() + 1 && self.dislikes@.take(
                    old(self).dislikes@.len() as int,
                ) == old(self).dislikes@ && (self.dislikes@.len() == old(self).dislikes@.len() + 1
                    ==> self.dislikes@.last().user_id@ == user_id@
                    && self.dislikes@.last().target_user_id@ == target_user_id@),
                self.dislike_tags@.len() >= old(self).dislike_tags@.len(),
                self.dislike_tags@.take(old(self).dislike_tags@.len() as int) == old(self).dislike_tags@,
                forall|j: int|
                    old(self).dislike_tags@.len() <= j < self.dislike_tags@.len() ==> ((
                    #[trigger] self.dislike_tags@[j]).user_id@ == user_id@
                        && self.dislike_tags@[j].target_user_id@ == target_user_id@ && exists|
                        q: int,
                    |
                        0 <= q < request.tag_names@.len()
                            && self.dislike_tags@[j].tag_name.content() == (
                        #[trigger] request.tag_names@[q])@ && request.tag_names@[q]@.len() > 0),
                self.tags@.len() >= old(self).tags@.len(),
                self.tags@.take(old(self).tags@.len() as int) == old(self).tags@,
                wanted == nonempty_names(request.tag_names@),
                i <= request.tag_names@.len(),
                out@.len() == nonempty_names(request.tag_names@.take(i as int)).len(),
                forall|m: int|
                    0 <= m < out@.len() ==> (#[trigger] out@[m]).tag_name.content()
                        == nonempty_names(request.tag_names@.take(i as int))[m] && out@[m].user_id@
                        == user_id@ && out@[m].target_user_id@ == target_user_id@,
            decreases request.tag_names@.len() - i,
        {
            let name = &request.tag_names[i];
            proof {
                lemma_nonempty_names_snoc(request.tag_names@, i as int);
            }
            if !name.as_str().is_empty() {
                let ghost pre_tags = self.tags@;
                let ghost pre_dt = self.dislike_tags@;
                match self.add_dislike_tag(user_id, target_user_id, name.as_str()) {
                    Ok(row) => {
                        out.push(row);
                    },
                    Err(_) => {
                        proof {
                            assert(false);
                        }
                        unreached()
                    },
                }
                proof {
                    lemma_find_tag_idx(pre_tags, name@);
                    assert(self.tags@.take(old(self).tags@.len() as int) =~= pre_tags.take(
                        old(self).tags@.len() as int,
                    ));
                    assert(self.dislike_tags@.take(old(self).dislike_tags@.len() as int)
                        =~= pre_dt.take(old(self).dislike_tags@.len() as int));
                    assert forall|j: int|
                        old(self).dislike_tags@.len() <= j < self.dislike_tags@.len() implies ((
                    #[trigger] self.dislike_tags@[j]).user_id@ == user_id@
                        && self.dislike_tags@[j].target_user_id@ == target_user_id@ && exists|
                        q: int,
                    |
                        0 <= q < request.tag_names@.len()
                            && self.dislike_tags@[j].tag_name.content() == (
                        #[trigger] request.tag_names@[q])@ && request.tag_names@[q]@.len() > 0) by {
                        if j < pre_dt.len() {
                            assert(self.dislike_tags@[j] == pre_dt[j]);
                        } else {
                            assert(self.dislike_tags@[j].tag_name.content() == (
                            #[trigger] request.tag_names@[i as int])@);
                        }
                    }
                }
            }
            i = i + 1;
        }
        proof {
            assert(request.tag_names@.take(request.tag_names@.len() as int)
                =~= request.tag_names@);
        }
        Ok(out)
    }

    /// Attach a tag to the requester's profile, as the service exposes
    /// it: an empty tag name is rejected first.
    pub fn add_current_user_tag(
        &mut self,
        user_id: &str,
        request: &crate::user_types::AddTagRequest,
    ) -> (r: Result<UserTag, Error>)
        requires
            old(self).wf(),
        ensures
            final(self).wf(),
            request.tag_name@.len() == 0 ==> *final(self) == *old(self) && (r matches Err(
                Error::Validation { field, message },
            ) && field@ == "tag_name"@ && message@ == "Tag name cannot be empty"@),
            request.tag_name@.len() > 0 ==> (r is Ok <==> !has_user_tag(
                old(self).user_tags@,
                user_id@,
                request.tag_name@,
            )) && (r matches Ok(v) ==> v.user_id@ == user_id@ && v.tag_name@
                == request.tag_name@),
            request.tag_name@.len() > 0 ==> ({
                &&& tags_upserted(old(self).tags@, final(self).tags@, request.tag_name@)
                &&& final(self).likes == old(self).likes
                &&& final(self).dislikes == old(self).dislikes
                &&& final(self).dislike_tags == old(self).dislike_tags
                &&& (r is Ok ==> user_tag_added(
                    *old(self),
                    *final(self),
                    user_id@,
                    request.tag_name@,
                ))
                &&& (r is Err ==> final(self).user_tags == old(self).user_tags
                    && final(self).users == old(self).users)
            }),
    {
        if request.tag_name.as_str().is_empty() {
            return Err(
                Error::Validation {
                    field: "tag_name".to_owned(),
                    message: "Tag name cannot be empty".to_owned(),
                },
            );
        }
        self.add_user_tag(user_id, request.tag_name.as_str())
    }
}

/// The non-empty names in a request, in order.
pub open spec fn nonempty_names(s: Seq<String>) -> Seq<Seq<char>>
    decreases s.len(),
{
    if s.len() == 0 {
        Seq::empty()
    } else {
        let rest = nonempty_names(s.drop_last());
        if s.last()@.len() > 0 {
            rest.push(s.last()@)
        } else {
            rest
        }
    }
}

proof fn lemma_nonempty_names_empty(s: Seq<String>)
    ensures
        nonempty_names(s.take(0)) == Seq::<Seq<char>>::empty(),
{
    assert(s.take(0) =~= Seq::<String>::empty());
}

proof fn lemma_nonempty_names_snoc(s: Seq<String>, i: int)
    requires
        0 <= i < s.len(),
    ensures
        nonempty_names(s.take(i + 1)) == (if s[i]@.len() > 0 {
            nonempty_names(s.take(i)).push(s[i]@)
        } else {
            nonempty_names(s.take(i))
        }),
{
    let t = s.take(i + 1);
    assert(t.last() == s[i]);
    assert(t.drop_last() =~= s.take(i));
}

/// Adjacent pages compose: the first page of length `l` followed by the
/// next page of length `l` is exactly the first page of length `2 l`, for
/// any fixed ranked list.
pub proof fn lemma_pages_compose<A>(s: Seq<A>, l: int)
    requires
        l >= 0,
    ensures
        page_window(s, 0, l) + page_window(s, l, l) == page_window(s, 0, 2 * l),
{
    assert(page_window(s, 0, l) + page_window(s, l, l) =~= page_window(s, 0, 2 * l));
}

impl Engine {
    /// Discovery as the service exposes it: each ranked candidate together
    /// with their tags and their opposition score.
    pub fn get_potential_nemeses_with_tags(
        &mut self,
        user_id: &str,
        limit: i64,
        offset: i64,
    ) -> (r: Result<Vec<crate::user_types::UserWithTags>, Error>)
        requires
            old(self).wf(),
        ensures
            final(self).wf(),
            final(self).tags == old(self).tags,
            final(self).user_tags == old(self).user_tags,
            final(self).likes == old(self).likes,
            final(self).dislikes == old(self).dislikes,
            final(self).dislike_tags == old(self).dislike_tags,
            find_user_idx(old(self).users@, user_id@) == -1 ==> *final(self) == *old(self) && (r
                matches Err(Error::NotFound { .. })),
            r matches Ok(v) ==> ({
                let f = find_user_idx(final(self).users@, user_id@);
                let entries = candidate_entries(
                    *final(self),
                    user_id@,
                    final(self).users@[f].embedding->0@,
                    final(self).users@.len() as int,
                );
                let win = page_window(
                    vsort(desc_rank(), entries),
                    offset as int,
                    limit as int,
                );
                &&& f >= 0
                &&& v@.len() == win.len()
                &&& (forall|m: int|
                    0 <= m < win.len() ==> (((#[trigger] v@[m]).user.id@,
                    v@[m].compatibility_score->0)) == win[m] && v@[m].compatibility_score
                        is Some)
                &&& (forall|m: int|
                    0 <= m < v@.len() ==> !excluded_id(
                        *final(self),
                        user_id@,
                        (#[trigger] v@[m]).user.id@,
                    ))
                &&& (forall|m: int|
                    0 <= m < v@.len() ==> ({
                        let rows = filter_desc(
                            final(self).user_tags@,
                            |t: UserTag| t.user_id@ == (#[trigger] v@[m]).user.id@,
                        );
                        &&& v@[m].tags@.len() == rows.len()
                        &&& forall|q: int|
                            0 <= q < rows.len() ==> crate::user_types::user_tag_view_eq(
                                #[trigger] v@[m].tags@[q],
                                rows[q],
                            )
                    }))
            }),
    {
        let scored = match self.get_potential_nemeses(user_id, limit, offset) {
            Ok(s) => s,
            Err(e) => {
                return Err(e);
            },
        };
        let ghost orig = scored@;
        let ghost cur = *self;
        let mut rest = scored;
        let mut out: Vec<crate::user_types::UserWithTags> = Vec::new();
        while rest.len() > 0
            invariant
                *self == cur,
                self.wf(),
                out@.len() + rest@.len() == orig.len(),
                rest@ == orig.skip(out@.len() as int),
                forall|m: int|
                    0 <= m < out@.len() ==> (#[trigger] out@[m]).user == orig[m].0
                        && out@[m].compatibility_score == Some(orig[m].1),
                forall|m: int|
                    0 <= m < out@.len() ==> ({
                        let rows = filter_desc(
                            self.user_tags@,
                            |t: UserTag| t.user_id@ == (#[trigger] out@[m]).user.id@,
                        );
                        &&& out@[m].tags@.len() == rows.len()
                        &&& forall|q: int|
                            0 <= q < rows.len() ==> crate::user_types::user_tag_view_eq(
                                #[trigger] out@[m].tags@[q],
                                rows[q],
                            )
                    }),
            decreases rest@.len(),
        {
            let ghost k = out@.len() as int;
            let pair = rest.remove(0);
            proof {
                assert(pair == orig[k]);
                assert(rest@ =~= orig.skip(k + 1));
            }
            let tags = self.get_user_tags(pair.0.id.as_str());
            out.push(
                crate::user_types::UserWithTags {
                    user: pair.0,
                    tags,
                    compatibility_score: Some(pair.1),
                },
            );
        }
        proof {
            assert(out@.len() == orig.len());
        }
        Ok(out)
    }
}

impl Engine {
    /// Fetch a user, reporting `NotFound` when no such user exists.
    pub fn get_user(&self, id: &str) -> (r: Result<User, Error>)
        ensures
            r is Ok <==> find_user_idx(self.users@, id@) >= 0,
            r matches Ok(u) ==> user_view_eq(u, self.users@[find_user_idx(self.users@, id@)]),
            r matches Err(e) ==> (e matches Error::NotFound { resource } && resource@
                == "User with ID "@ + id@),
    {
        match self.get_user_by_id(id) {
            Some(u) => Ok(u),
            None => Err(Error::NotFound { resource: "User with ID ".to_owned().concat(id) }),
        }
    }

    /// A user's tags, after checking the user exists: `NotFound` otherwise.
    pub fn get_user_tags_checked(&self, user_id: &str) -> (r: Result<Vec<UserTag>, Error>)
        ensures
            r is Ok <==> find_user_idx(self.users@, user_id@) >= 0,
            r matches Ok(v) ==> ({
                let rows = filter_desc(
                    self.user_tags@,
                    |t: UserTag| t.user_id@ == user_id@,
                );
                &&& v@.len() == rows.len()
                &&& forall|m: int| 0 <= m < rows.len() ==> crate::user_types::user_tag_view_eq(
                    #[trigger] v@[m],
                    rows[m],
                )
            }),
            r matches Err(e) ==> (e matches Error::NotFound { resource } && resource@
                == "User with ID "@ + user_id@),
    {
        if self.find_user(user_id).is_none() {
            return Err(Error::NotFound { resource: "User with ID ".to_owned().concat(user_id) });
        }
        Ok(self.get_user_tags(user_id))
    }
}

} // verus!
