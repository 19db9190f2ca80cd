//! Request-level input rules of the score server: e-mail normalisation,
//! the default display name and the bearer-token header.

use crate::error::{error_is, ApiError, ApiStatus};
use crate::text::{
    ascii_lower, is_ascii_alnum, is_ascii_alphanumeric, push_char, to_ascii_lowercase, trim,
    trimmed,
};
use vstd::prelude::*;
use vstd::utf8::encode_utf8;

verus! {

/// The e-mail address as the server stores it: trimmed, ASCII lower case.
pub open spec fn normalized_email(input: Seq<char>) -> Seq<char> {
    ascii_lower(trimmed(input))
}

/// A normalised address is accepted when it is at least 5 bytes long and
/// holds an '@' that is neither its first nor its last character.
pub open spec fn email_acceptable(e: Seq<char>) -> bool {
    &&& encode_utf8(e).len() >= 5
    &&& e.contains('@')
    &&& e.len() > 0
    &&& e[0] != '@'
    &&& e.last() != '@'
}

/// Whether `s` holds the character `c`.
pub fn contains_char(s: &str, c: char) -> (b: bool)
    ensures
        b == s@.contains(c),
{
    let n: usize = s.unicode_len();
    let mut i: usize = 0;
    while i < n
        invariant
            n == s@.len(),
            i <= n,
            forall|j: int| 0 <= j < i ==> s@[j] != c,
        decreases n - i,
    {
        if s.get_char(i) == c {
            return true;
        }
        i = i + 1;
    }
    false
}

/// Trims and lower-cases an e-mail address and checks its shape.
pub fn normalize_email(input: &str) -> (r: Result<String, ApiError>)
    ensures
        match r {
            Ok(email) => email@ == normalized_email(input@) && email_acceptable(email@),
            Err(e) => !email_acceptable(normalized_email(input@)) && error_is(
                e,
                ApiStatus::BadRequest,
                "invalid email address"@,
            ),
        },
{
    let email = to_ascii_lowercase(trim(input));
    let text: &str = email.as_str();
    let n: usize = text.unicode_len();
    let byte_len: usize = text.as_bytes().len();
    assert(byte_len == encode_utf8(email@).len());
    if byte_len < 5 || !contains_char(text, '@') || n == 0 || text.get_char(0) == '@'
        || text.get_char(n - 1) == '@' {
        return Err(ApiError::bad_request("invalid email address"));
    }
    Ok(email)
}

/// Characters a display name may hold.
pub open spec fn is_name_char(c: char) -> bool {
    is_ascii_alnum(c) || c == '_' || c == '-'
}

/// The part of an address before its first '@' (all of it without one).
pub open spec fn local_part(s: Seq<char>) -> Seq<char>
    decreases s.len(),
{
    if s.len() == 0 {
        s
    } else if s.last() == '@' && !s.drop_last().contains('@') {
        s.drop_last()
    } else if s.drop_last().contains('@') {
        local_part(s.drop_last())
    } else {
        s
    }
}

/// The characters of `s` that a display name may hold, in order.
pub open spec fn name_chars(s: Seq<char>) -> Seq<char>
    decreases s.len(),
{
    if s.len() == 0 {
        s
    } else if is_name_char(s.last()) {
        name_chars(s.drop_last()).push(s.last())
    } else {
        name_chars(s.drop_last())
    }
}

/// The first `n` elements of `s` (all of them when it is shorter).
pub open spec fn at_most<A>(s: Seq<A>, n: nat) -> Seq<A> {
    if s.len() <= n {
        s
    } else {
        s.take(n as int)
    }
}

/// The name given to a new player: the first 16 allowed characters of the
/// local part of the address, or "pilot" when none is left.
pub open spec fn display_name_for(email: Seq<char>) -> Seq<char> {
    let kept = at_most(name_chars(local_part(email)), 16);
    if kept.len() == 0 {
        seq!['p', 'i', 'l', 'o', 't']
    } else {
        kept
    }
}

proof fn lemma_local_part_at(s: Seq<char>, i: int)
    requires
        0 <= i <= s.len(),
        forall|j: int| 0 <= j < i ==> s[j] != '@',
        i == s.len() || s[i] == '@',
    ensures
        local_part(s) == s.subrange(0, i),
    decreases s.len(),
{
    if s.len() == 0 {
        assert(s.subrange(0, 0) =~= s);
    } else if i == s.len() {
        assert(!s.drop_last().contains('@'));
        if s.last() == '@' {
            assert(s[i - 1] == s.last());
        }
        assert(s.subrange(0, i) =~= s);
    } else {
        let t = s.drop_last();
        if i == s.len() - 1 {
            assert(!t.contains('@'));
            assert(t =~= s.subrange(0, i));
        } else {
            assert(t.contains('@')) by {
                assert(t[i] == '@');
            }
            lemma_local_part_at(t, i);
            assert(t.subrange(0, i) =~= s.subrange(0, i));
        }
    }
}

/// Returns `text`, or `fallback` when `text` is empty.
pub fn if_empty_then(text: String, fallback: &str) -> (r: String)
    ensures
        r@ == (if text@.len() == 0 {
            fallback@
        } else {
            text@
        }),
{
    if text.as_str().is_empty() {
        fallback.to_owned()
    } else {
        text
    }
}

/// The display name a new player gets from an e-mail address.
pub fn default_display_name(email: &str) -> (name: String)
    ensures
        name@ == display_name_for(email@),
{
    let n: usize = email.unicode_len();
    let mut out = String::new();
    let mut count: usize = 0;
    let mut i: usize = 0;
    while i < n && email.get_char(i) != '@'
        invariant
            n == email@.len(),
            i <= n,
            forall|j: int| 0 <= j < i ==> email@[j] != '@',
            count == out@.len(),
            out@ == at_most(name_chars(email@.subrange(0, i as int)), 16),
        decreases n - i,
    {
        let c = email.get_char(i);
        let ghost before = email@.subrange(0, i as int);
        proof {
            assert(email@.subrange(0, i + 1).drop_last() =~= before);
        }
        if is_ascii_alphanumeric(c) || c == '_' || c == '-' {
            if count < 16 {
                push_char(&mut out, c);
                count = count + 1;
                proof {
                    assert(name_chars(before).len() < 16);
                }
            } else {
                proof {
                    assert(name_chars(before).push(c).take(16) =~= at_most(name_chars(before), 16));
                }
            }
        }
        i = i + 1;
    }
    proof {
        lemma_local_part_at(email@, i as int);
    }
    let pilot = "pilot";
    proof {
        reveal_strlit("pilot");
    }
    if_empty_then(out, pilot)
}

/// The authorization scheme prefix "Bearer ".
pub open spec fn bearer_prefix() -> Seq<char> {
    seq!['B', 'e', 'a', 'r', 'e', 'r', ' ']
}

/// `v` starts with "Bearer ".
pub open spec fn has_bearer_prefix(v: Seq<char>) -> bool {
    v.len() >= 7 && v.subrange(0, 7) == bearer_prefix()
}

/// The token that an `authorization` header carries: what follows
/// "Bearer ", trimmed.
pub open spec fn bearer_of<'a>(header: Option<Option<&'a str>>) -> Option<Seq<char>> {
    match header {
        Some(Some(value)) => if has_bearer_prefix(value@) {
            Some(trimmed(value@.subrange(7, value@.len() as int)))
        } else {
            None
        },
        _ => None,
    }
}

/// Why an `authorization` header carries no token.
pub open spec fn bearer_refusal<'a>(header: Option<Option<&'a str>>) -> Seq<char> {
    match header {
        None => "missing authorization header"@,
        Some(None) => "invalid authorization header"@,
        Some(Some(_)) => "expected bearer token"@,
    }
}

/// The bearer token in an `authorization` header value. The header is
/// given as `None` when it is absent and as `Some(None)` when its value is
/// not visible ASCII text.
pub fn bearer_token<'a>(header: Option<Option<&'a str>>) -> (r: Result<&'a str, ApiError>)
    ensures
        match bearer_of(header) {
            Some(t) => r matches Ok(token) && token@ == t,
            None => r matches Err(e) && error_is(e, ApiStatus::Unauthorized, bearer_refusal(header)),
        },
{
    match header {
        None => {
            let r = Err(ApiError::unauthorized("missing authorization header"));
            proof {
                reveal_strlit("missing authorization header");
            }
            r
        },
        Some(None) => {
            let r = Err(ApiError::unauthorized("invalid authorization header"));
            proof {
                reveal_strlit("invalid authorization header");
            }
            r
        },
        Some(Some(value)) => {
            let n: usize = value.unicode_len();
            if n >= 7 && value.get_char(0) == 'B' && value.get_char(1) == 'e' && value.get_char(2)
                == 'a' && value.get_char(3) == 'r' && value.get_char(4) == 'e' && value.get_char(5)
                == 'r' && value.get_char(6) == ' ' {
                proof {
                    assert(value@.subrange(0, 7) =~= bearer_prefix());
                }
                let rest = value.substring_char(7, n);
                Ok(trim(rest))
            } else {
                proof {
                    if n >= 7 && value@.subrange(0, 7) == bearer_prefix() {
                        assert(value@[0] == value@.subrange(0, 7)[0]);
                        assert(value@[1] == value@.subrange(0, 7)[1]);
                        assert(value@[2] == value@.subrange(0, 7)[2]);
                        assert(value@[3] == value@.subrange(0, 7)[3]);
                        assert(value@[4] == value@.subrange(0, 7)[4]);
                        assert(value@[5] == value@.subrange(0, 7)[5]);
                        assert(value@[6] == value@.subrange(0, 7)[6]);
                    }
                }
                Err(ApiError::unauthorized("expected bearer token"))
            }
        },
    }
}

} // verus!
