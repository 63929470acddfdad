//! The bearer-token guard: which requests are let through.

use crate::text;
use std::sync::Arc;
use subtle::ConstantTimeEq;
use vstd::prelude::*;

verus! {

/// What the guard asks for.
#[derive(Clone)]
pub struct AuthConfig {
    /// The token to present. `None` lets every request through.
    pub token: Option<Arc<String>>,
}

impl AuthConfig {
    /// The token to present, as text.
    pub open spec fn expected(&self) -> Option<Seq<char>> {
        match self.token {
            Some(t) => Some((*t)@),
            None => None,
        }
    }

    /// A guard that lets every request through.
    pub fn open() -> (cfg: AuthConfig)
        ensures
            cfg.expected() is None,
    {
        AuthConfig { token: None }
    }

    /// A guard that asks for `token`.
    pub fn with_token<T: Into<String>>(token: T) -> (cfg: AuthConfig)
        ensures
            cfg.token matches Some(t) && call_ensures(<T as Into<String>>::into, (token,), *t),
    {
        AuthConfig { token: Some(Arc::new(token.into())) }
    }
}

/// The white space of Unicode.
pub open spec fn is_white_space(c: char) -> bool {
    let code = c as u32;
    ||| 0x9 <= code <= 0xd
    ||| code == 0x20
    ||| code == 0x85
    ||| code == 0xa0
    ||| code == 0x1680
    ||| 0x2000 <= code <= 0x200a
    ||| code == 0x2028
    ||| code == 0x2029
    ||| code == 0x202f
    ||| code == 0x205f
    ||| code == 0x3000
}

/// Whether `c` is white space.
fn white_space(c: char) -> (white: bool)
    ensures
        white == is_white_space(c),
{
    let code: u32 = c as u32;
    (0x9 <= code && code <= 0xd) || code == 0x20 || code == 0x85 || code == 0xa0 || code == 0x1680 || (0x2000 <= code
        && code <= 0x200a) || code == 0x2028 || code == 0x2029 || code == 0x202f || code == 0x205f || code == 0x3000
}

/// `s` without white space at its ends.
pub open spec fn trimmed(s: Seq<char>) -> Seq<char>
    decreases s.len(),
{
    if s.len() > 0 && is_white_space(s.first()) {
        trimmed(s.skip(1))
    } else if s.len() > 0 && is_white_space(s.last()) {
        trimmed(s.drop_last())
    } else {
        s
    }
}

/// The token in the text of an `Authorization` header: what follows `Bearer `, trimmed. Empty where the
/// header does not start so.
pub open spec fn presented_token(header: Seq<char>) -> Seq<char> {
    if "Bearer "@.is_prefix_of(header) {
        trimmed(header.skip("Bearer "@.len() as int))
    } else {
        Seq::empty()
    }
}

/// The token in the text of an `Authorization` header.
fn token_in(header: &str) -> (token: String)
    ensures
        token@ == presented_token(header@),
{
    let chars = text::chars_of(header);
    let prefix = text::chars_of("Bearer ");
    let n = prefix.len();
    if chars.len() < n {
        let token = String::new();
        assert(token@ =~= Seq::<char>::empty());
        return token;
    }
    let mut i: usize = 0;
    while i < n
        invariant
            chars@ == header@,
            prefix@ == "Bearer "@,
            n == prefix@.len(),
            n <= chars@.len(),
            i <= n,
            forall|j: int| 0 <= j < i ==> chars@[j] == prefix@[j],
        decreases n - i,
    {
        if chars[i] != prefix[i] {
            assert(!"Bearer "@.is_prefix_of(header@)) by {
                assert("Bearer "@[i as int] != header@[i as int]);
            }
            let token = String::new();
            assert(token@ =~= Seq::<char>::empty());
            return token;
        }
        i = i + 1;
    }
    assert("Bearer "@.is_prefix_of(header@)) by {
        assert("Bearer "@ =~= header@.take(n as int));
    }
    let ghost rest = header@.skip(n as int);
    let mut from: usize = n;
    let mut to: usize = chars.len();
    assert(rest =~= header@.subrange(from as int, to as int));
    while from < to && white_space(chars[from])
        invariant
            chars@ == header@,
            from <= to == chars@.len(),
            trimmed(rest) == trimmed(header@.subrange(from as int, to as int)),
        decreases to - from,
    {
        assert(header@.subrange(from as int, to as int).skip(1) =~= header@.subrange(from + 1, to as int));
        from = from + 1;
    }
    while from < to && white_space(chars[to - 1])
        invariant
            chars@ == header@,
            from <= to <= chars@.len(),
            from < to ==> !is_white_space(header@[from as int]),
            trimmed(rest) == trimmed(header@.subrange(from as int, to as int)),
        decreases to,
    {
        assert(header@.subrange(from as int, to as int).drop_last() =~= header@.subrange(from as int, to - 1));
        to = to - 1;
    }
    let mut token = String::new();
    text::push_chars(&mut token, &chars, from, to);
    assert(token@ =~= header@.subrange(from as int, to as int));
    token
}

/// `subtle::ConstantTimeEq` for slices of bytes: its answer, as a `bool`, is whether the two are equal.
/// How long it takes is not stated.
#[verifier::external_body]
fn ct_eq(a: &[u8], b: &[u8]) -> (same: bool)
    ensures
        same == (a@ == b@),
{
    a.ct_eq(b).into()
}

/// Whether the presented bytes are the expected ones, compared over as many bytes as are expected
/// whatever was presented.
pub fn constant_time_eq(presented: &[u8], expected: &[u8]) -> (same: bool)
    ensures
        same == (presented@ == expected@),
{
    let n = expected.len();
    let mut padded: Vec<u8> = Vec::new();
    let mut i: usize = 0;
    while i < n
        invariant
            i <= n,
            padded@.len() == i,
            forall|j: int|
                0 <= j < i ==> #[trigger] padded@[j] == (if j < presented@.len() {
                    presented@[j]
                } else {
                    0u8
                }),
        decreases n - i,
    {
        if i < presented.len() {
            padded.push(presented[i]);
        } else {
            padded.push(0u8);
        }
        i = i + 1;
    }
    let bytes_match: bool = ct_eq(padded.as_slice(), expected);
    let same_len: bool = presented.len() == n;
    let both: u8 = (bytes_match as u8) & (same_len as u8);
    assert(1u8 & 1u8 == 1u8 && 1u8 & 0u8 == 0u8 && 0u8 & 1u8 == 0u8 && 0u8 & 0u8 == 0u8) by (bit_vector);
    proof {
        if presented@.len() == n {
            assert(padded@ =~= presented@);
        }
    }
    both == 1
}

/// What becomes of a request.
#[derive(Clone, Copy, PartialEq, Eq, Debug)]
pub enum Verdict {
    /// It is let through.
    Forward,
    /// It is turned away: it presents no token.
    MissingToken,
    /// It is turned away: it presents another token.
    InvalidToken,
}

impl Verdict {
    /// The status of the answer to a request that is turned away, `None` for one that is let through.
    pub fn status(&self) -> (status: Option<u16>)
        ensures
            status == (if *self is Forward {
                None::<u16>
            } else {
                Some(401u16)
            }),
    {
        match self {
            Verdict::Forward => None,
            Verdict::MissingToken => Some(401),
            Verdict::InvalidToken => Some(401),
        }
    }

    /// What the answer to a request that is turned away says, empty for one that is let through.
    pub fn message(&self) -> (message: &'static str)
        ensures
            message@ == (match *self {
                Verdict::Forward => ""@,
                Verdict::MissingToken => "missing bearer token"@,
                Verdict::InvalidToken => "invalid bearer token"@,
            }),
    {
        match self {
            Verdict::Forward => "",
            Verdict::MissingToken => "missing bearer token",
            Verdict::InvalidToken => "invalid bearer token",
        }
    }
}

/// What becomes of a request for `path` with that text in its `Authorization` header.
pub open spec fn verdict(expected: Option<Seq<char>>, path: Seq<char>, header: Option<Seq<char>>) -> Verdict {
    let presented = match header {
        Some(h) => presented_token(h),
        None => Seq::empty(),
    };
    if path == "/healthz"@ {
        Verdict::Forward
    } else {
        match expected {
            None => Verdict::Forward,
            Some(token) => if presented.len() == 0 {
                Verdict::MissingToken
            } else if presented != token {
                Verdict::InvalidToken
            } else {
                Verdict::Forward
            },
        }
    }
}

/// Decides on a request. `path` is the path of its address, `authorization` the text of its
/// `Authorization` header, `None` where there is none or it is no text.
pub fn require_token(cfg: &AuthConfig, path: &str, authorization: Option<&str>) -> (v: Verdict)
    ensures
        v == verdict(
            cfg.expected(),
            path@,
            match authorization {
                Some(h) => Some(h@),
                None => None,
            },
        ),
{
    if text::same_text(path, "/healthz") {
        return Verdict::Forward;
    }
    let expected = match &cfg.token {
        Some(t) => t,
        None => {
            return Verdict::Forward;
        },
    };
    let presented = match authorization {
        Some(h) => token_in(h),
        None => String::new(),
    };
    assert(authorization is None ==> presented@ =~= Seq::<char>::empty());
    let bytes = presented.as_str().as_bytes();
    proof {
        vstd::utf8::encode_utf8_decode_utf8(presented@);
        vstd::utf8::encode_utf8_decode_utf8((*expected)@);
    }
    if text::chars_of(presented.as_str()).len() == 0 {
        return Verdict::MissingToken;
    }
    if !constant_time_eq(bytes, expected.as_str().as_bytes()) {
        return Verdict::InvalidToken;
    }
    Verdict::Forward
}

/// With a token asked for, any path but `/healthz` is open to those alone who present that very token,
/// and an empty token opens to nobody.
pub proof fn law_only_the_token_opens(token: Seq<char>, path: Seq<char>, header: Option<Seq<char>>)
    requires
        path != "/healthz"@,
    ensures
        verdict(Some(token), path, header) is Forward <==> {
            &&& header is Some
            &&& presented_token(header->0) == token
            &&& token.len() > 0
        },
{
}

/// Health checks are let through whatever is asked for, and everything is where nothing is asked for.
pub proof fn law_health_is_open(expected: Option<Seq<char>>, path: Seq<char>, header: Option<Seq<char>>)
    ensures
        verdict(expected, "/healthz"@, header) is Forward,
        verdict(None, path, header) is Forward,
{
}

/// Whether `c` is white space, by its code: the tabs, line breaks and spaces of ASCII, and those of Unicode.
pub open spec fn is_blank(c: char) -> bool {
    let code = c as u32;
    ||| 9 <= code <= 13
    ||| 8192 <= code <= 8202
    ||| set![32u32, 133, 160, 5760, 8232, 8233, 8239, 8287, 12288].contains(code)
}

/// Whether all of `s` is white space.
pub open spec fn are_blank(s: Seq<char>) -> bool {
    forall|i: int| 0 <= i < s.len() ==> is_blank(#[trigger] s[i])
}

/// Whether `rest` is `token` with white space round it, or white space alone where there is no token.
pub open spec fn is_padded(rest: Seq<char>, token: Seq<char>) -> bool {
    &&& token.len() > 0 ==> !is_blank(token[0]) && !is_blank(token.last())
    &&& exists|left: Seq<char>, right: Seq<char>|
        rest == #[trigger] (left + token + right) && are_blank(left) && are_blank(right)
}

proof fn lemma_blanks(c: char)
    ensures
        is_white_space(c) <==> is_blank(c),
{
}

proof fn lemma_trimmed(left: Seq<char>, token: Seq<char>, right: Seq<char>)
    requires
        are_blank(left),
        are_blank(right),
        token.len() > 0 ==> !is_blank(token[0]) && !is_blank(token.last()),
    ensures
        trimmed(left + token + right) == token,
    decreases left.len() + right.len(),
{
    let all = left + token + right;
    if left.len() > 0 {
        assert(is_blank(left[0]));
        lemma_blanks(left[0]);
        assert(all[0] == left[0]);
        let shorter = left.skip(1);
        assert forall|i: int| 0 <= i < shorter.len() implies is_blank(#[trigger] shorter[i]) by {
            assert(shorter[i] == left[i + 1]);
        }
        lemma_trimmed(shorter, token, right);
        assert(all.skip(1) =~= shorter + token + right);
    } else if token.len() == 0 {
        if right.len() > 0 {
            assert(is_blank(right[0]));
            lemma_blanks(right[0]);
            assert(all[0] == right[0]);
            let shorter = right.skip(1);
            assert forall|i: int| 0 <= i < shorter.len() implies is_blank(#[trigger] shorter[i]) by {
                assert(shorter[i] == right[i + 1]);
            }
            lemma_trimmed(left, token, shorter);
            assert(all.skip(1) =~= left + token + shorter);
        } else {
            assert(all =~= token);
        }
    } else {
        assert(all[0] == token[0]);
        lemma_blanks(token[0]);
        if right.len() > 0 {
            assert(is_blank(right[right.len() - 1]));
            lemma_blanks(right.last());
            assert(all.last() == right.last());
            let shorter = right.drop_last();
            assert forall|i: int| 0 <= i < shorter.len() implies is_blank(#[trigger] shorter[i]) by {
                assert(shorter[i] == right[i]);
            }
            lemma_trimmed(left, token, shorter);
            assert(all.drop_last() =~= left + token + shorter);
        } else {
            lemma_blanks(token.last());
            assert(all =~= token);
        }
    }
}

proof fn lemma_padded_left(c: char, rest: Seq<char>, token: Seq<char>)
    requires
        is_blank(c),
        is_padded(rest, token),
    ensures
        is_padded(seq![c] + rest, token),
{
    let (left, right) = choose|left: Seq<char>, right: Seq<char>|
        rest == #[trigger] (left + token + right) && are_blank(left) && are_blank(right);
    let more = seq![c] + left;
    assert forall|i: int| 0 <= i < more.len() implies is_blank(#[trigger] more[i]) by {
        if i > 0 {
            assert(more[i] == left[i - 1]);
        }
    }
    assert(seq![c] + rest =~= more + token + right);
}

proof fn lemma_padded_right(rest: Seq<char>, c: char, token: Seq<char>)
    requires
        is_blank(c),
        is_padded(rest, token),
    ensures
        is_padded(rest.push(c), token),
{
    let (left, right) = choose|left: Seq<char>, right: Seq<char>|
        rest == #[trigger] (left + token + right) && are_blank(left) && are_blank(right);
    let more = right.push(c);
    assert forall|i: int| 0 <= i < more.len() implies is_blank(#[trigger] more[i]) by {
        if i < right.len() {
            assert(more[i] == right[i]);
        }
    }
    assert(rest.push(c) =~= left + token + more);
}

/// Each text is some token with white space round it.
proof fn lemma_padded(rest: Seq<char>)
    ensures
        is_padded(rest, trimmed(rest)),
    decreases rest.len(),
{
    if rest.len() > 0 && is_white_space(rest.first()) {
        lemma_blanks(rest[0]);
        lemma_padded(rest.skip(1));
        lemma_padded_left(rest[0], rest.skip(1), trimmed(rest.skip(1)));
        assert(rest =~= seq![rest[0]] + rest.skip(1));
    } else if rest.len() > 0 && is_white_space(rest.last()) {
        lemma_blanks(rest.last());
        lemma_padded(rest.drop_last());
        lemma_padded_right(rest.drop_last(), rest.last(), trimmed(rest.drop_last()));
        assert(rest =~= rest.drop_last().push(rest.last()));
    } else {
        if rest.len() > 0 {
            lemma_blanks(rest[0]);
            lemma_blanks(rest.last());
        }
        let none = Seq::<char>::empty();
        assert(rest =~= none + rest + none);
    }
}

/// Where a token is asked for, a request for any path but `/healthz` is let through if and only if the text
/// of its header is `Bearer `, then that token, with white space round it or without. One that presents
/// another token that way is told that it is not the right one, and one that presents none, that it is
/// missing.
pub proof fn law_bearer_of_the_token_is_let_through(cfg: &AuthConfig, path: &str, header: Option<&str>, v: Verdict)
    requires
        call_ensures(require_token, (cfg, path, header), v),
    ensures
        path@ == "/healthz"@ || cfg.token is None ==> v is Forward,
        path@ != "/healthz"@ && cfg.token is Some ==> {
            let expected = (*cfg.token->0)@;
            let bears = |token: Seq<char>|
                {
                    &&& header matches Some(h)
                    &&& h@.len() >= 7
                    &&& h@.take(7) == seq!['B', 'e', 'a', 'r', 'e', 'r', ' ']
                    &&& token.len() > 0
                    &&& is_padded(h@.skip(7), token)
                };
            &&& v is Forward <==> bears(expected)
            &&& v is InvalidToken <==> exists|token: Seq<char>| #[trigger] bears(token) && token != expected
            &&& v is MissingToken <==> forall|token: Seq<char>| !#[trigger] bears(token)
        },
{
    reveal_strlit("Bearer ");
    let prefix = seq!['B', 'e', 'a', 'r', 'e', 'r', ' '];
    assert("Bearer "@ =~= prefix);
    if path@ != "/healthz"@ && cfg.token is Some {
        let expected = (*cfg.token->0)@;
        let bears = |token: Seq<char>|
            {
                &&& header matches Some(h)
                &&& h@.len() >= 7
                &&& h@.take(7) == seq!['B', 'e', 'a', 'r', 'e', 'r', ' ']
                &&& token.len() > 0
                &&& is_padded(h@.skip(7), token)
            };
        if let Some(h) = header {
            if h@.len() >= 7 && h@.take(7) == prefix {
                assert(prefix.is_prefix_of(h@));
                let rest = h@.skip(7);
                lemma_padded(rest);
                assert forall|token: Seq<char>| #[trigger] bears(token) implies token == trimmed(rest) by {
                    let (left, right) = choose|left: Seq<char>, right: Seq<char>|
                        rest == #[trigger] (left + token + right) && are_blank(left) && are_blank(right);
                    lemma_trimmed(left, token, right);
                }
                if trimmed(rest).len() > 0 {
                    assert(bears(trimmed(rest)));
                }
            } else {
                if prefix.is_prefix_of(h@) {
                    assert(h@.take(7) =~= prefix);
                }
            }
        }
    }
}

/// A request that is turned away is answered with 401 and why; one that is let through is not answered here.
pub proof fn law_turned_away_is_unauthorized(v: Verdict, status: Option<u16>, message: &'static str)
    requires
        call_ensures(Verdict::status, (&v,), status),
        call_ensures(Verdict::message, (&v,), message),
    ensures
        v is Forward ==> status is None && message@ == ""@,
        v !is Forward ==> status == Some(401u16),
        v is MissingToken ==> message@ == "missing bearer token"@,
        v is InvalidToken ==> message@ == "invalid bearer token"@,
{
}

/// Bytes are the expected ones if and only if they are as many and each is the same.
pub proof fn law_equal_bytes_are_recognized(presented: &[u8], expected: &[u8], same: bool)
    requires
        call_ensures(constant_time_eq, (presented, expected), same),
    ensures
        same <==> {
            &&& presented@.len() == expected@.len()
            &&& forall|i: int| 0 <= i < expected@.len() ==> presented@[i] == #[trigger] expected@[i]
        },
{
    if presented@.len() == expected@.len() && forall|i: int|
        0 <= i < expected@.len() ==> presented@[i] == #[trigger] expected@[i] {
        assert(presented@ =~= expected@);
    }
}

/// A guard is open, or asks for the token it was given.
pub proof fn law_guards_are_as_made(open: AuthConfig, token: String, closed: AuthConfig)
    requires
        call_ensures(AuthConfig::open, (), open),
        call_ensures(AuthConfig::with_token::<String>, (token,), closed),
    ensures
        open.token is None,
        closed.token matches Some(t) && call_ensures(<String as Into<String>>::into, (token,), *t),
{
}

} // verus!
