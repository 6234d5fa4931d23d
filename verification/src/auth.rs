//! Bearer-token authentication.
//!
//! The service authenticates a request by its `Authorization` header: the
//! header must read `Bearer <token>`, and the token, with surrounding
//! whitespace trimmed, is taken as the user id. Each failure carries the
//! exact message the service reports.

use vstd::prelude::*;
use vstd::string::StrSliceExecFns;

verus! {

/// An authenticated user, extracted from the authorization header.
#[derive(Debug, Clone)]
pub struct AuthUser {
    /// The id of the authenticated user.
    pub user_id: String,
}

/// Why authentication was rejected.
#[derive(Debug, Clone)]
pub struct AuthError {
    pub message: String,
}

/// The whitespace trimmed around a token: ASCII blanks and line breaks.
pub open spec fn is_trim_char(c: char) -> bool {
    c == ' ' || c == '\t' || c == '\r' || c == '\n'
}

/// Drop leading trim characters.
pub open spec fn trim_front(s: Seq<char>) -> Seq<char>
    decreases s.len(),
{
    if s.len() > 0 && is_trim_char(s[0]) {
        trim_front(s.drop_first())
    } else {
        s
    }
}

/// Drop trailing trim characters.
pub open spec fn trim_back(s: Seq<char>) -> Seq<char>
    decreases s.len(),
{
    if s.len() > 0 && is_trim_char(s[s.len() - 1]) {
        trim_back(s.drop_last())
    } else {
        s
    }
}

/// A token with its surrounding whitespace dropped.
pub open spec fn trimmed(s: Seq<char>) -> Seq<char> {
    trim_back(trim_front(s))
}

/// The header starts with the `Bearer ` scheme.
pub open spec fn has_bearer_prefix(s: Seq<char>) -> bool {
    s.len() >= 7 && s.subrange(0, 7) == "Bearer "@
}

proof fn lemma_trim_front_skip(s: Seq<char>, k: int)
    requires
        0 <= k <= s.len(),
        forall|j: int| 0 <= j < k ==> is_trim_char(#[trigger] s[j]),
        k < s.len() ==> !is_trim_char(s[k]),
    ensures
        trim_front(s) == s.skip(k),
    decreases k,
{
    if k == 0 {
        assert(s.skip(0) =~= s);
    } else {
        assert(is_trim_char(s[0]));
        let t = s.drop_first();
        assert(forall|j: int| 0 <= j < k - 1 ==> #[trigger] t[j] == s[j + 1]);
        lemma_trim_front_skip(t, k - 1);
        assert(t.skip(k - 1) =~= s.skip(k));
    }
}

proof fn lemma_trim_back_take(s: Seq<char>, k: int)
    requires
        0 <= k <= s.len(),
        forall|j: int| k <= j < s.len() ==> is_trim_char(#[trigger] s[j]),
        k > 0 ==> !is_trim_char(s[k - 1]),
    ensures
        trim_back(s) == s.take(k),
    decreases s.len() - k,
{
    if k == s.len() as int {
        assert(s.take(k) =~= s);
    } else {
        assert(is_trim_char(s[s.len() - 1]));
        let t = s.drop_last();
        lemma_trim_back_take(t, k);
        assert(t.take(k) =~= s.take(k));
    }
}

/// Whether the character at `i` is trimmed whitespace.
fn trim_char_at(h: &str, i: usize) -> (r: bool)
    requires
        i < h@.len(),
    ensures
        r == is_trim_char(h@[i as int]),
{
    let c = h.get_char(i);
    c == ' ' || c == '\t' || c == '\r' || c == '\n'
}

/// Extract the authenticated user from an `Authorization` header. The
/// header must be present and carry the `Bearer ` scheme with a non-blank
/// token; the trimmed token is the user id.
pub fn parse_bearer(header: Option<&str>) -> (r: Result<AuthUser, AuthError>)
    ensures
        header is None ==> (r matches Err(e) && e.message@ == "Authorization header required"@),
        header matches Some(h) && !has_bearer_prefix(h@) ==> (r matches Err(e) && e.message@
            == "Invalid authentication header format. Expected Bearer token."@),
        header matches Some(h) && has_bearer_prefix(h@) && trimmed(h@.skip(7)).len() == 0 ==> (r
            matches Err(e) && e.message@ == "Invalid Bearer token"@),
        header matches Some(h) ==> (has_bearer_prefix(h@) && trimmed(h@.skip(7)).len() > 0 ==> (r
            matches Ok(u) && u.user_id@ == trimmed(h@.skip(7)))),
{
    let h = match header {
        Some(h) => h,
        None => {
            return Err(AuthError { message: "Authorization header required".to_owned() });
        },
    };
    let n = h.unicode_len();
    proof {
        reveal_strlit("Bearer ");
    }
    let prefix_ok = n >= 7 && h.get_char(0) == 'B' && h.get_char(1) == 'e' && h.get_char(2) == 'a'
        && h.get_char(3) == 'r' && h.get_char(4) == 'e' && h.get_char(5) == 'r' && h.get_char(6)
        == ' ';
    proof {
        if prefix_ok {
            assert(h@.subrange(0, 7) =~= "Bearer "@);
        } else {
            if h@.len() >= 7 && h@.subrange(0, 7) == "Bearer "@ {
                assert(h@.subrange(0, 7)[0] == 'B');
                assert(h@.subrange(0, 7)[1] == 'e');
                assert(h@.subrange(0, 7)[2] == 'a');
                assert(h@.subrange(0, 7)[3] == 'r');
                assert(h@.subrange(0, 7)[4] == 'e');
                assert(h@.subrange(0, 7)[5] == 'r');
                assert(h@.subrange(0, 7)[6] == ' ');
            }
        }
    }
    if !prefix_ok {
        return Err(
            AuthError {
                message: "Invalid authentication header format. Expected Bearer token.".to_owned(),
            },
        );
    }
    let ghost tok = h@.skip(7);
    // scan the trimmed bounds of the token
    let mut lo: usize = 7;
    while lo < n && trim_char_at(h, lo)
        invariant
            7 <= lo <= n,
            n == h@.len(),
            forall|j: int| 7 <= j < lo as int ==> is_trim_char(#[trigger] h@[j]),
        decreases n - lo,
    {
        lo = lo + 1;
    }
    let mut hi: usize = n;
    while hi > lo && trim_char_at(h, hi - 1)
        invariant
            lo <= hi <= n,
            n == h@.len(),
            lo >= 7,
            forall|j: int| 7 <= j < lo as int ==> is_trim_char(#[trigger] h@[j]),
            lo < n ==> !is_trim_char(h@[lo as int]),
            forall|j: int| hi as int <= j < n ==> is_trim_char(#[trigger] h@[j]),
        decreases hi,
    {
        hi = hi - 1;
    }
    proof {
        assert(forall|j: int| 0 <= j < lo - 7 ==> is_trim_char(#[trigger] tok[j]));
        lemma_trim_front_skip(tok, lo as int - 7);
        let tf = tok.skip(lo as int - 7);
        assert(forall|j: int|
            hi as int - lo as int <= j < tf.len() ==> is_trim_char(#[trigger] tf[j]));
        lemma_trim_back_take(tf, hi as int - lo as int);
        assert(trimmed(tok) =~= h@.subrange(lo as int, hi as int));
    }
    if hi == lo {
        return Err(AuthError { message: "Invalid Bearer token".to_owned() });
    }
    let token = h.substring_char(lo, hi);
    Ok(AuthUser { user_id: token.to_owned() })
}

} // verus!
