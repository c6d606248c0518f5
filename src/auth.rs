//! Bearer-token authentication of administrative requests.

use vstd::prelude::*;
use vstd::string::*;
use crate::error::AppError;
use crate::json::text_eq;

verus! {

/// The identity of an authenticated caller.
#[derive(Debug, PartialEq)]
pub struct AuthenticationInfo(pub String);

/// The identity given to a caller that presents the admin token.
pub const ADMIN_EMAIL: &'static str = "cac.admin@juspay.in";

/// Index of the first `c` in `s`, or its length.
pub open spec fn index_of_char(s: Seq<char>, c: char) -> int
    decreases s.len(),
{
    if s.len() == 0 {
        0
    } else if s[0] == c {
        0
    } else {
        1 + index_of_char(s.drop_first(), c)
    }
}

proof fn lemma_index_of_char(s: Seq<char>, c: char)
    ensures
        0 <= index_of_char(s, c) <= s.len(),
    decreases s.len(),
{
    if s.len() > 0 && s[0] != c {
        lemma_index_of_char(s.drop_first(), c);
    }
}

/// The token of an `Authorization` header: it must start with `Bearer`, and the
/// token is the second of its space-separated pieces.
pub open spec fn bearer_token(h: Seq<char>) -> Option<Seq<char>> {
    if h.len() >= 6 && h.subrange(0, 6) == "Bearer"@ {
        let i = index_of_char(h, ' ');
        if i < h.len() {
            let rest = h.subrange(i + 1, h.len() as int);
            Some(rest.subrange(0, index_of_char(rest, ' ')))
        } else {
            None
        }
    } else {
        None
    }
}

fn find_char(s: &str, c: char) -> (r: usize)
    ensures
        r as int == index_of_char(s@, c),
        r <= s@.len(),
{
    let n = s.unicode_len();
    let mut i: usize = 0;
    assert(s@.subrange(0, n as int) =~= s@);
    while i < n
        invariant
            n == s@.len(),
            i <= n,
            index_of_char(s@, c) == i + index_of_char(s@.subrange(i as int, n as int), c),
        decreases n - i,
    {
        assert(s@.subrange(i as int, n as int).drop_first() =~= s@.subrange(i + 1, n as int));
        if s.get_char(i) == c {
            return i;
        }
        i += 1;
    }
    i
}

/// The bearer token of an `Authorization` header.
pub fn extract_bearer_token(header: &str) -> (r: Option<String>)
    ensures
        opt_text(r) == bearer_token(header@),
{
    let n = header.unicode_len();
    if n < 6 {
        return None;
    }
    let head = header.substring_char(0, 6);
    proof {
        reveal_strlit("Bearer");
    }
    if !text_eq(head, "Bearer") {
        return None;
    }
    let i = find_char(header, ' ');
    if i >= n {
        return None;
    }
    let rest = header.substring_char(i + 1, n);
    let j = find_char(rest, ' ');
    proof {
        lemma_index_of_char(rest@, ' ');
    }
    let token = rest.substring_char(0, j);
    Some(token.to_string())
}

pub open spec fn opt_text(o: Option<String>) -> Option<Seq<char>> {
    match o {
        Some(s) => Some(s@),
        None => None,
    }
}

/// Outcome of authentication for a request with `authorization` header when the
/// service's admin token is `admin_token`.
pub open spec fn auth_outcome(authorization: Option<Seq<char>>, admin_token: Option<Seq<char>>) -> Option<bool> {
    match admin_token {
        None => None,
        Some(admin) => match authorization {
            Some(h) => match bearer_token(h) {
                Some(t) => Some(t == admin),
                None => Some(false),
            },
            None => Some(false),
        },
    }
}

impl AuthenticationInfo {
    /// Authenticates a request: a missing admin token is an internal error; a
    /// missing or mismatched bearer token is unauthorized; a matching one gives
    /// the admin identity.
    pub fn from_request(authorization: Option<&str>, admin_token: Option<&str>) -> (r: Result<AuthenticationInfo, AppError>)
        ensures
            admin_token is None ==> (r matches Err(e) && e is Unexpected),
            admin_token matches Some(a) ==> match authorization {
                Some(h) => match bearer_token(h@) {
                    Some(t) => if t == a@ {
                        r matches Ok(info) && info.0@ == ADMIN_EMAIL@
                    } else {
                        r matches Err(e) && e is Unauthorized
                    },
                    None => r matches Err(e) && e is Unauthorized,
                },
                None => r matches Err(e) && e is Unauthorized,
            },
    {
        let token = match authorization {
            Some(h) => extract_bearer_token(h),
            None => None,
        };
        match admin_token {
            None => Err(AppError::Unexpected(String::new())),
            Some(admin) => match token {
                None => Err(AppError::Unauthorized("Bearer token required.".to_string())),
                Some(t) => {
                    if !text_eq(t.as_str(), admin) {
                        Err(AppError::Unauthorized(String::new()))
                    } else {
                        Ok(AuthenticationInfo(ADMIN_EMAIL.to_string()))
                    }
                },
            },
        }
    }
}

} // verus!
