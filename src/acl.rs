//! Which requests of the web front-end pass without a login, and where a
//! login token is found in a request.
use vstd::prelude::*;
use vstd::string::StringSliceAdditionalSpecFns;

verus! {

/// The request methods that the access rules tell apart.
#[derive(Debug, Clone, Copy, PartialEq, Eq, Structural)]
pub enum HttpMethod {
    Get,
    Post,
    Other,
}

/// `pre` is the start of `s`.
pub open spec fn has_prefix_spec(s: Seq<u8>, pre: Seq<u8>) -> bool {
    pre.len() <= s.len() && s.take(pre.len() as int) == pre
}

/// `suf` is the end of `s`.
pub open spec fn has_suffix_spec(s: Seq<u8>, suf: Seq<u8>) -> bool {
    suf.len() <= s.len() && s.skip(s.len() - suf.len()) == suf
}

/// The paths that need no login: the root, the session endpoint, signing up,
/// the event list, and a user's authentication endpoint.
pub open spec fn anonymous_spec(method: HttpMethod, path: Seq<u8>) -> bool {
    if path == "/".spec_bytes() || path == "/session".spec_bytes() {
        true
    } else if path == "/user".spec_bytes() {
        method == HttpMethod::Post
    } else if path == "/event".spec_bytes() {
        method == HttpMethod::Get
    } else {
        has_prefix_spec(path, "/user/".spec_bytes()) && has_suffix_spec(
            path,
            "/authentication".spec_bytes(),
        )
    }
}

fn same_bytes(a: &[u8], b: &[u8]) -> (r: bool)
    ensures
        r == (a@ == b@),
{
    if a.len() != b.len() {
        return false;
    }
    let mut i: usize = 0;
    while i < a.len()
        invariant
            a@.len() == b@.len(),
            i <= a@.len(),
            a@.take(i as int) == b@.take(i as int),
        decreases a@.len() - i,
    {
        if a[i] != b[i] {
            return false;
        }
        assert(a@.take(i as int + 1) =~= a@.take(i as int).push(a@[i as int]));
        assert(b@.take(i as int + 1) =~= b@.take(i as int).push(b@[i as int]));
        i += 1;
    }
    assert(a@ =~= a@.take(i as int));
    assert(b@ =~= b@.take(i as int));
    true
}

fn has_prefix(s: &[u8], pre: &[u8]) -> (r: bool)
    ensures
        r == has_prefix_spec(s@, pre@),
{
    if pre.len() > s.len() {
        return false;
    }
    let mut i: usize = 0;
    while i < pre.len()
        invariant
            pre@.len() <= s@.len(),
            i <= pre@.len(),
            forall|j: int| 0 <= j < i ==> s@[j] == pre@[j],
        decreases pre@.len() - i,
    {
        if s[i] != pre[i] {
            assert(s@.take(pre@.len() as int)[i as int] == s@[i as int]);
            return false;
        }
        i += 1;
    }
    assert(s@.take(pre@.len() as int) =~= pre@);
    true
}

fn has_suffix(s: &[u8], suf: &[u8]) -> (r: bool)
    ensures
        r == has_suffix_spec(s@, suf@),
{
    if suf.len() > s.len() {
        return false;
    }
    let off = s.len() - suf.len();
    let mut i: usize = 0;
    while i < suf.len()
        invariant
            suf@.len() <= s@.len(),
            off + suf.len() == s.len(),
            i <= suf@.len(),
            forall|j: int| 0 <= j < i ==> s@[off + j] == suf@[j],
        decreases suf@.len() - i,
    {
        if s[off + i] != suf[i] {
            assert(s@.skip(off as int)[i as int] == s@[off + i]);
            return false;
        }
        i += 1;
    }
    assert(s@.skip(off as int) =~= suf@);
    true
}

/// Whether a request with `method` on `path` may go through without a login.
pub fn check_anonymous_list(method: HttpMethod, path: &str) -> (r: bool)
    ensures
        r == anonymous_spec(method, path.spec_bytes()),
{
    let p = path.as_bytes();
    if same_bytes(p, "/".as_bytes()) || same_bytes(p, "/session".as_bytes()) {
        true
    } else if same_bytes(p, "/user".as_bytes()) {
        method == HttpMethod::Post
    } else if same_bytes(p, "/event".as_bytes()) {
        method == HttpMethod::Get
    } else {
        has_prefix(p, "/user/".as_bytes()) && has_suffix(p, "/authentication".as_bytes())
    }
}

/// The credentials of an `Authorization` header of type `Bearer`: what
/// follows `"Bearer "`.
pub fn get_auth_bearer_value(auth: &str) -> (r: Option<&str>)
    ensures
        r is Some <==> has_prefix_spec(auth.spec_bytes(), "Bearer ".spec_bytes()),
        r matches Some(t) ==> t.spec_bytes() == auth.spec_bytes().skip(7),
{
    let pre = "Bearer ".as_bytes();
    proof {
        lemma_bearer_bytes();
        vstd::utf8::encode_utf8_valid_utf8(auth@);
        if has_prefix_spec(auth.spec_bytes(), "Bearer ".spec_bytes()) {
            lemma_boundary_after_bearer(auth.spec_bytes());
        }
    }
    if has_prefix(auth.as_bytes(), pre) && auth.is_char_boundary(pre.len()) {
        let (_, rest) = auth.split_at(pre.len());
        assert(rest.spec_bytes() =~= auth.spec_bytes().skip(pre@.len() as int));
        Some(rest)
    } else {
        None
    }
}

proof fn lemma_bearer_bytes()
    ensures
        "Bearer ".spec_bytes() == seq![66u8, 101u8, 97u8, 114u8, 101u8, 114u8, 32u8],
{
    reveal_strlit("Bearer ");
    assert(vstd::string::is_ascii("Bearer "));
    vstd::string::is_ascii_spec_bytes("Bearer ");
    assert("Bearer ".spec_bytes() =~= seq![66u8, 101u8, 97u8, 114u8, 101u8, 114u8, 32u8]);
}

/// Bytes of a string that start with `"Bearer "` have a character boundary
/// right after it.
proof fn lemma_boundary_after_bearer(b: Seq<u8>)
    requires
        vstd::utf8::valid_utf8(b),
        has_prefix_spec(b, "Bearer ".spec_bytes()),
    ensures
        vstd::utf8::is_char_boundary(b, 7),
{
    lemma_bearer_bytes();
    assert(b[6] == b.take(7)[6]);
    if b.len() == 7 {
        vstd::utf8::is_char_boundary_start_end_of_seq(b);
    } else {
        vstd::utf8::is_char_boundary_iff_is_leading_byte(b, 6);
        vstd::utf8::valid_utf8_split(b, 6);
        let t = b.subrange(6, b.len() as int);
        assert(t[0] == 32u8);
        reveal_with_fuel(vstd::utf8::is_char_boundary, 2);
        assert(vstd::utf8::is_char_boundary(t, 1));
        vstd::utf8::is_char_boundary_iff_not_is_continuation_byte(t, 1);
        vstd::utf8::is_char_boundary_iff_not_is_continuation_byte(b, 7);
    }
}

/// What the login check decides for a request.
#[derive(Debug, Clone, Copy, PartialEq, Eq)]
pub enum Admission<'a> {
    /// The request needs no login.
    Anonymous,
    /// The request carries this token; it passes if the token is valid.
    Token(&'a str),
    /// The request needs a login and carries no bearer token.
    Denied,
}

/// The login check put in front of the services.
pub struct Auth;

/// The login check wrapped around `service`.
pub struct AuthMiddleware<S> {
    pub service: S,
}

impl Auth {
    /// Puts the login check in front of `service`.
    pub fn new_transform<S>(&self, service: S) -> (r: AuthMiddleware<S>)
        ensures
            r.service == service,
    {
        AuthMiddleware { service }
    }
}

impl<S> AuthMiddleware<S> {
    /// Decides whether a request passes: requests that need no login pass,
    /// others need an `Authorization` header with a bearer token, whose
    /// validity the caller checks.
    pub fn screen<'a>(&self, method: HttpMethod, path: &str, authorization: Option<&'a str>) -> (r:
        Admission<'a>)
        ensures
            anonymous_spec(method, path.spec_bytes()) ==> r == Admission::<'a>::Anonymous,
            !anonymous_spec(method, path.spec_bytes()) ==> match authorization {
                Some(a) => if has_prefix_spec(a.spec_bytes(), "Bearer ".spec_bytes()) {
                    r matches Admission::Token(t) && t.spec_bytes() == a.spec_bytes().skip(7)
                } else {
                    r == Admission::<'a>::Denied
                },
                None => r == Admission::<'a>::Denied,
            },
    {
        if check_anonymous_list(method, path) {
            return Admission::Anonymous;
        }
        match authorization {
            Some(a) => match get_auth_bearer_value(a) {
                Some(t) => Admission::Token(t),
                None => Admission::Denied,
            },
            None => Admission::Denied,
        }
    }
}

} // verus!
