//! Validated wrapper types for the strings the service accepts: email
//! addresses, URLs, and tag names. Validation works on the UTF-8 bytes of
//! the string, and each failure reports the exact field and message.

use vstd::prelude::*;
use vstd::utf8::encode_utf8;
use crate::types::Error;

verus! {

/// An ASCII digit or letter.
pub open spec fn is_alnum_byte(b: u8) -> bool {
    (48 <= b && b <= 57) || (65 <= b && b <= 90) || (97 <= b && b <= 122)
}

/// A byte allowed in an email domain: alphanumeric, dot, or hyphen.
pub open spec fn is_email_domain_byte(b: u8) -> bool {
    is_alnum_byte(b) || b == 46 || b == 45
}

/// A byte allowed in a tag name: alphanumeric or hyphen.
pub open spec fn is_tag_byte(b: u8) -> bool {
    is_alnum_byte(b) || b == 45
}

/// Index of the first occurrence of `t` in `s`, or -1.
pub open spec fn find_first(s: Seq<u8>, t: u8) -> int
    decreases s.len(),
{
    if s.len() == 0 {
        -1
    } else if s[0] == t {
        0
    } else {
        let r = find_first(s.drop_first(), t);
        if r == -1 {
            -1
        } else {
            r + 1
        }
    }
}

proof fn lemma_find_first_from(s: Seq<u8>, t: u8, i: int)
    requires
        0 <= i <= s.len(),
        forall|j: int| 0 <= j < i ==> s[j] != t,
    ensures
        (i < s.len() && s[i] == t) ==> find_first(s, t) == i,
        i == s.len() ==> find_first(s, t) == -1,
    decreases s.len(),
{
    if s.len() > 0 && s[0] != t && i > 0 {
        let tail = s.drop_first();
        assert(forall|j: int| 0 <= j < i - 1 ==> #[trigger] tail[j] == s[j + 1]);
        lemma_find_first_from(tail, t, i - 1);
    }
}

/// Find the first occurrence of a byte.
fn find_byte(b: &[u8], t: u8) -> (r: Option<usize>)
    ensures
        match r {
            Some(i) => i < b@.len() && find_first(b@, t) == i as int,
            None => find_first(b@, t) == -1,
        },
{
    let n = b.len();
    let mut i: usize = 0;
    while i < n
        invariant
            n == b@.len(),
            i <= n,
            forall|j: int| 0 <= j < i as int ==> b@[j] != t,
        decreases n - i,
    {
        if b[i] == t {
            proof {
                lemma_find_first_from(b@, t, i as int);
            }
            return Some(i);
        }
        i = i + 1;
    }
    proof {
        lemma_find_first_from(b@, t, n as int);
    }
    None
}

/// Build the `Validation` error for a field.
fn validation_error(field: &str, message: &str) -> (e: Error)
    ensures
        (e matches Error::Validation { field: f, message: m } && f@ == field@ && m@
            == message@),
{
    Error::Validation { field: field.to_owned(), message: message.to_owned() }
}

/// A value that can be validated, reporting an exact field and message.
pub trait Validate: Sized {
    /// Whether the value passes validation.
    spec fn valid(&self) -> bool;

    /// The field named in the error when validation fails.
    spec fn error_field(&self) -> Seq<char>;

    /// The message in the error when validation fails.
    spec fn error_message(&self) -> Seq<char>;

    /// Validate the value.
    fn validate(&self) -> (r: Result<(), Error>)
        ensures
            r is Ok <==> self.valid(),
            !self.valid() ==> (r matches Err(Error::Validation { field, message }) && field@
                == self.error_field() && message@ == self.error_message()),
    ;
}

/// A validated wrapper around a string.
pub trait Wrapped: Sized + Validate {
    type Error;

    /// The wrapped string.
    spec fn content(&self) -> Seq<char>;

    /// Whether a string may be wrapped.
    spec fn valid_content(s: Seq<char>) -> bool;

    /// Wrap after validating.
    fn new(inner: String) -> (r: Result<Self, Self::Error>)
        ensures
            r is Ok <==> Self::valid_content(inner@),
            r matches Ok(v) ==> v.content() == inner@,
    ;

    /// Wrap without validating, for input that is already known good.
    fn raw(inner: String) -> (r: Self)
        ensures
            r.content() == inner@,
    ;
}

// ---------------------------------------------------------------- email

pub open spec fn domain_ok(d: Seq<u8>) -> bool {
    &&& d.len() > 0
    &&& find_first(d, 46) >= 0
    &&& d[0] != 46
    &&& d[d.len() - 1] != 46
    &&& forall|i: int| 0 <= i < d.len() ==> is_email_domain_byte(#[trigger] d[i])
}

/// A valid email: bounded length, a non-initial `@`, and a domain with a
/// dot, no edge dots, and a restricted charset.
pub open spec fn valid_email(s: Seq<u8>) -> bool {
    let p = find_first(s, 64);
    &&& 0 < s.len() <= 254
    &&& p >= 1
    &&& domain_ok(s.skip(p + 1))
}

/// The message for the first failing email check, in validation order.
pub open spec fn email_error_message(s: Seq<u8>) -> Seq<char> {
    let p = find_first(s, 64);
    if !(0 < s.len() <= 254) {
        "Email must not be empty and under 254 characters"@
    } else if p == -1 {
        "Email must contain @ symbol"@
    } else if p == 0 {
        "Email must have at least one character before @"@
    } else {
        let d = s.skip(p + 1);
        if d.len() == 0 {
            "Email domain cannot be empty"@
        } else if find_first(d, 46) == -1 {
            "Email domain must contain at least one dot"@
        } else if d[0] == 46 || d[d.len() - 1] == 46 {
            "Email domain cannot start or end with a dot"@
        } else {
            "Email domain can only contain alphanumeric characters, dots, and hyphens"@
        }
    }
}

/// Validate an email address.
#[verifier::loop_isolation(false)]
pub fn validate_email_str(s: &str) -> (r: Result<(), Error>)
    ensures
        r is Ok <==> valid_email(encode_utf8(s@)),
        !valid_email(encode_utf8(s@)) ==> (r matches Err(Error::Validation { field, message })
            && field@ == "email"@ && message@ == email_error_message(encode_utf8(s@))),
{
    let b: &[u8] = s.as_bytes();
    let n = b.len();
    if n == 0 || n > 254 {
        return Err(validation_error("email", "Email must not be empty and under 254 characters"));
    }
    let p = match find_byte(b, 64) {
        Some(p) => p,
        None => {
            return Err(validation_error("email", "Email must contain @ symbol"));
        },
    };
    if p == 0 {
        return Err(validation_error("email", "Email must have at least one character before @"));
    }
    let d: &[u8] = &b[p + 1..n];
    proof {
        assert(d@ =~= b@.skip(p as int + 1));
    }
    let dn = d.len();
    if dn == 0 {
        return Err(validation_error("email", "Email domain cannot be empty"));
    }
    if find_byte(d, 46).is_none() {
        return Err(validation_error("email", "Email domain must contain at least one dot"));
    }
    if d[0] == 46 || d[dn - 1] == 46 {
        return Err(validation_error("email", "Email domain cannot start or end with a dot"));
    }
    let mut i: usize = 0;
    while i < dn
        invariant
            dn == d@.len(),
            i <= dn,
            forall|j: int| 0 <= j < i as int ==> is_email_domain_byte(#[trigger] d@[j]),
        decreases dn - i,
    {
        let c = d[i];
        let ok = (48 <= c && c <= 57) || (65 <= c && c <= 90) || (97 <= c && c <= 122) || c == 46
            || c == 45;
        if !ok {
            proof {
                assert(!is_email_domain_byte(d@[i as int]));
                assert(!domain_ok(d@));
            }
            return Err(
                validation_error(
                    "email",
                    "Email domain can only contain alphanumeric characters, dots, and hyphens",
                ),
            );
        }
        i = i + 1;
    }
    Ok(())
}

/// A validated email address.
#[derive(Debug, Clone)]
pub struct Email(String);

impl Email {
    /// The wrapped string, as a spec value.
    pub closed spec fn inner(&self) -> Seq<char> {
        self.0@
    }

    /// The wrapped string.
    pub fn as_str(&self) -> (r: &str)
        ensures
            r@ == self.content(),
    {
        self.0.as_str()
    }
}

impl Validate for Email {
    open spec fn valid(&self) -> bool {
        valid_email(encode_utf8(self.inner()))
    }

    open spec fn error_field(&self) -> Seq<char> {
        "email"@
    }

    open spec fn error_message(&self) -> Seq<char> {
        email_error_message(encode_utf8(self.inner()))
    }

    fn validate(&self) -> (r: Result<(), Error>) {
        validate_email_str(self.0.as_str())
    }
}

impl Wrapped for Email {
    type Error = Error;

    open spec fn content(&self) -> Seq<char> {
        self.inner()
    }

    open spec fn valid_content(s: Seq<char>) -> bool {
        valid_email(encode_utf8(s))
    }

    fn new(inner: String) -> (r: Result<Self, Self::Error>) {
        let v = Email(inner);
        match v.validate() {
            Ok(()) => Ok(v),
            Err(e) => Err(e),
        }
    }

    fn raw(inner: String) -> (r: Self) {
        Email(inner)
    }
}

// ------------------------------------------------------------------ url

/// The bytes of `http://`.
pub open spec fn has_http_prefix(s: Seq<u8>) -> bool {
    s.len() >= 7 && s[0] == 104 && s[1] == 116 && s[2] == 116 && s[3] == 112 && s[4] == 58
        && s[5] == 47 && s[6] == 47
}

/// The bytes of `https://`.
pub open spec fn has_https_prefix(s: Seq<u8>) -> bool {
    s.len() >= 8 && s[0] == 104 && s[1] == 116 && s[2] == 116 && s[3] == 112 && s[4] == 115
        && s[5] == 58 && s[6] == 47 && s[7] == 47
}

/// A valid URL: non-empty, bounded, and starting with a known scheme.
pub open spec fn valid_url(s: Seq<u8>) -> bool {
    &&& 0 < s.len() <= 2048
    &&& (has_http_prefix(s) || has_https_prefix(s))
}

/// The message for the first failing URL check, in validation order.
pub open spec fn url_error_message(s: Seq<u8>) -> Seq<char> {
    if s.len() == 0 {
        "URL cannot be empty"@
    } else if s.len() > 2048 {
        "URL length exceeds 2048 characters"@
    } else {
        "URL must start with http:// or https://"@
    }
}

/// Validate a URL.
pub fn validate_url_str(s: &str) -> (r: Result<(), Error>)
    ensures
        r is Ok <==> valid_url(encode_utf8(s@)),
        !valid_url(encode_utf8(s@)) ==> (r matches Err(Error::Validation { field, message })
            && field@ == "url"@ && message@ == url_error_message(encode_utf8(s@))),
{
    let b: &[u8] = s.as_bytes();
    let n = b.len();
    if n == 0 {
        return Err(validation_error("url", "URL cannot be empty"));
    }
    if n > 2048 {
        return Err(validation_error("url", "URL length exceeds 2048 characters"));
    }
    let http = n >= 7 && b[0] == 104 && b[1] == 116 && b[2] == 116 && b[3] == 112 && b[4] == 58
        && b[5] == 47 && b[6] == 47;
    let https = n >= 8 && b[0] == 104 && b[1] == 116 && b[2] == 116 && b[3] == 112 && b[4] == 115
        && b[5] == 58 && b[6] == 47 && b[7] == 47;
    if !http && !https {
        return Err(validation_error("url", "URL must start with http:// or https://"));
    }
    Ok(())
}

/// A validated URL.
#[derive(Debug, Clone)]
pub struct Url(String);

impl Url {
    /// The wrapped string, as a spec value.
    pub closed spec fn inner(&self) -> Seq<char> {
        self.0@
    }

    /// The wrapped string.
    pub fn as_str(&self) -> (r: &str)
        ensures
            r@ == self.content(),
    {
        self.0.as_str()
    }
}

impl Validate for Url {
    open spec fn valid(&self) -> bool {
        valid_url(encode_utf8(self.inner()))
    }

    open spec fn error_field(&self) -> Seq<char> {
        "url"@
    }

    open spec fn error_message(&self) -> Seq<char> {
        url_error_message(encode_utf8(self.inner()))
    }

    fn validate(&self) -> (r: Result<(), Error>) {
        validate_url_str(self.0.as_str())
    }
}

impl Wrapped for Url {
    type Error = Error;

    open spec fn content(&self) -> Seq<char> {
        self.inner()
    }

    open spec fn valid_content(s: Seq<char>) -> bool {
        valid_url(encode_utf8(s))
    }

    fn new(inner: String) -> (r: Result<Self, Self::Error>) {
        let v = Url(inner);
        match v.validate() {
            Ok(()) => Ok(v),
            Err(e) => Err(e),
        }
    }

    fn raw(inner: String) -> (r: Self) {
        Url(inner)
    }
}

// ------------------------------------------------------------- tag name

/// A valid tag name: non-empty, at most 64 bytes, alphanumerics and
/// hyphens only. Names are case-sensitive.
pub open spec fn valid_tag_name(s: Seq<u8>) -> bool {
    &&& 0 < s.len() <= 64
    &&& forall|i: int| 0 <= i < s.len() ==> is_tag_byte(#[trigger] s[i])
}

/// The message for the first failing tag-name check, in validation order.
pub open spec fn tag_name_error_message(s: Seq<u8>) -> Seq<char> {
    if s.len() == 0 {
        "Tag name cannot be empty"@
    } else if s.len() > 64 {
        "Tag name length exceeds 64 characters"@
    } else {
        "Tag name can only contain alphanumeric characters and hyphens"@
    }
}

/// Validate a tag name.
#[verifier::loop_isolation(false)]
pub fn validate_tag_name_str(s: &str) -> (r: Result<(), Error>)
    ensures
        r is Ok <==> valid_tag_name(encode_utf8(s@)),
        !valid_tag_name(encode_utf8(s@)) ==> (r matches Err(Error::Validation { field, message })
            && field@ == "tag_name"@ && message@ == tag_name_error_message(encode_utf8(s@))),
{
    let b: &[u8] = s.as_bytes();
    let n = b.len();
    if n == 0 {
        return Err(validation_error("tag_name", "Tag name cannot be empty"));
    }
    if n > 64 {
        return Err(validation_error("tag_name", "Tag name length exceeds 64 characters"));
    }
    let mut i: usize = 0;
    while i < n
        invariant
            n == b@.len(),
            i <= n,
            forall|j: int| 0 <= j < i as int ==> is_tag_byte(#[trigger] b@[j]),
        decreases n - i,
    {
        let c = b[i];
        let ok = (48 <= c && c <= 57) || (65 <= c && c <= 90) || (97 <= c && c <= 122) || c == 45;
        if !ok {
            proof {
                assert(!is_tag_byte(b@[i as int]));
                assert(!valid_tag_name(b@));
            }
            return Err(
                validation_error(
                    "tag_name",
                    "Tag name can only contain alphanumeric characters and hyphens",
                ),
            );
        }
        i = i + 1;
    }
    Ok(())
}

/// A validated tag name.
#[derive(Debug, Clone)]
pub struct TagName(String);

impl TagName {
    /// The wrapped string, as a spec value.
    pub closed spec fn inner(&self) -> Seq<char> {
        self.0@
    }

    /// The wrapped string.
    pub fn as_str(&self) -> (r: &str)
        ensures
            r@ == self.content(),
    {
        self.0.as_str()
    }
}

impl Validate for TagName {
    open spec fn valid(&self) -> bool {
        valid_tag_name(encode_utf8(self.inner()))
    }

    open spec fn error_field(&self) -> Seq<char> {
        "tag_name"@
    }

    open spec fn error_message(&self) -> Seq<char> {
        tag_name_error_message(encode_utf8(self.inner()))
    }

    fn validate(&self) -> (r: Result<(), Error>) {
        validate_tag_name_str(self.0.as_str())
    }
}

impl Wrapped for TagName {
    type Error = Error;

    open spec fn content(&self) -> Seq<char> {
        self.inner()
    }

    open spec fn valid_content(s: Seq<char>) -> bool {
        valid_tag_name(encode_utf8(s))
    }

    fn new(inner: String) -> (r: Result<Self, Self::Error>) {
        let v = TagName(inner);
        match v.validate() {
            Ok(()) => Ok(v),
            Err(e) => Err(e),
        }
    }

    fn raw(inner: String) -> (r: Self) {
        TagName(inner)
    }
}

} // verus!
