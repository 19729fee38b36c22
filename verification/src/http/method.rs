//! The nine HTTP/1.1 request methods (RFC 7231 and RFC 5789).
use vstd::prelude::*;
use vstd::string::*;
use vstd::utf8::*;

use crate::text::bytes_equal;

verus! {

broadcast use vstd::utf8::group_utf8_lib;

/// An HTTP request method.
#[derive(Clone, Copy, Debug, PartialEq, Eq, Structural)]
pub enum Method {
    Get,
    Post,
    Put,
    Delete,
    Patch,
    Head,
    Options,
    Connect,
    Trace,
}

/// The error of a method name that names none of the nine methods.
#[derive(Clone, Copy, Debug, PartialEq, Eq, Structural)]
pub struct MethodError;

/// The bytes of a method's name as it appears on the request line.
pub open spec fn method_name(m: Method) -> Seq<u8> {
    match m {
        Method::Get => encode_utf8("GET"@),
        Method::Post => encode_utf8("POST"@),
        Method::Put => encode_utf8("PUT"@),
        Method::Delete => encode_utf8("DELETE"@),
        Method::Patch => encode_utf8("PATCH"@),
        Method::Head => encode_utf8("HEAD"@),
        Method::Options => encode_utf8("OPTIONS"@),
        Method::Connect => encode_utf8("CONNECT"@),
        Method::Trace => encode_utf8("TRACE"@),
    }
}

/// The method whose name is exactly `word` (case-sensitive), if any.
pub open spec fn method_from_name(word: Seq<u8>) -> Option<Method> {
    if word == method_name(Method::Get) {
        Some(Method::Get)
    } else if word == method_name(Method::Post) {
        Some(Method::Post)
    } else if word == method_name(Method::Put) {
        Some(Method::Put)
    } else if word == method_name(Method::Delete) {
        Some(Method::Delete)
    } else if word == method_name(Method::Patch) {
        Some(Method::Patch)
    } else if word == method_name(Method::Head) {
        Some(Method::Head)
    } else if word == method_name(Method::Options) {
        Some(Method::Options)
    } else if word == method_name(Method::Connect) {
        Some(Method::Connect)
    } else if word == method_name(Method::Trace) {
        Some(Method::Trace)
    } else {
        None
    }
}

/// Methods that typically carry a request body.
pub open spec fn body_expected(m: Method) -> bool {
    m == Method::Post || m == Method::Put || m == Method::Patch
}

impl Method {
    /// Returns true for methods that typically carry a request body
    /// (POST, PUT and PATCH).
    pub fn expects_body(&self) -> (res: bool)
        ensures
            res == body_expected(*self),
    {
        match self {
            Method::Post | Method::Put | Method::Patch => true,
            _ => false,
        }
    }

    /// The name of the method as written on a request line.
    pub fn name(&self) -> (res: &'static str)
        ensures
            res.spec_bytes() == method_name(*self),
    {
        match self {
            Method::Get => "GET",
            Method::Post => "POST",
            Method::Put => "PUT",
            Method::Delete => "DELETE",
            Method::Patch => "PATCH",
            Method::Head => "HEAD",
            Method::Options => "OPTIONS",
            Method::Connect => "CONNECT",
            Method::Trace => "TRACE",
        }
    }

    /// Parses a method name; only the nine upper-case names are accepted.
    pub fn from_str(raw: &str) -> (res: Result<Method, MethodError>)
        ensures
            res == match method_from_name(raw.spec_bytes()) {
                Some(m) => Ok::<Method, MethodError>(m),
                None => Err(MethodError),
            },
    {
        let word = raw.as_bytes();
        let candidates = [
            Method::Get,
            Method::Post,
            Method::Put,
            Method::Delete,
            Method::Patch,
            Method::Head,
            Method::Options,
            Method::Connect,
            Method::Trace,
        ];
        let mut i: usize = 0;
        while i < 9
            invariant
                i <= 9,
                candidates@ == seq![
                    Method::Get,
                    Method::Post,
                    Method::Put,
                    Method::Delete,
                    Method::Patch,
                    Method::Head,
                    Method::Options,
                    Method::Connect,
                    Method::Trace,
                ],
                word@ == raw.spec_bytes(),
                forall|j: int| 0 <= j < i ==> word@ != #[trigger] method_name(candidates@[j]),
            decreases 9 - i,
        {
            let candidate = candidates[i];
            if bytes_equal(word, candidate.name().as_bytes()) {
                proof {
                    lemma_names_distinct();
                }
                return Ok(candidate);
            }
            i = i + 1;
        }
        assert forall|m: Method| word@ != #[trigger] method_name(m) by {
            let j: int = match m {
                Method::Get => 0,
                Method::Post => 1,
                Method::Put => 2,
                Method::Delete => 3,
                Method::Patch => 4,
                Method::Head => 5,
                Method::Options => 6,
                Method::Connect => 7,
                Method::Trace => 8,
            };
            assert(candidates@[j] == m);
        }
        Err(MethodError)
    }
}

impl std::str::FromStr for Method {
    type Err = MethodError;

    fn from_str(raw: &str) -> (res: Result<Method, MethodError>)
        ensures
            res == match method_from_name(raw.spec_bytes()) {
                Some(m) => Ok::<Method, MethodError>(m),
                None => Err(MethodError),
            },
    {
        Method::from_str(raw)
    }
}

/// The bytes of each method name.
pub proof fn lemma_method_name_bytes()
    ensures
        method_name(Method::Get) == seq![71u8, 69, 84],
        method_name(Method::Post) == seq![80u8, 79, 83, 84],
        method_name(Method::Put) == seq![80u8, 85, 84],
        method_name(Method::Delete) == seq![68u8, 69, 76, 69, 84, 69],
        method_name(Method::Patch) == seq![80u8, 65, 84, 67, 72],
        method_name(Method::Head) == seq![72u8, 69, 65, 68],
        method_name(Method::Options) == seq![79u8, 80, 84, 73, 79, 78, 83],
        method_name(Method::Connect) == seq![67u8, 79, 78, 78, 69, 67, 84],
        method_name(Method::Trace) == seq![84u8, 82, 65, 67, 69],
{
    reveal_strlit("GET");
    reveal_strlit("POST");
    reveal_strlit("PUT");
    reveal_strlit("DELETE");
    reveal_strlit("PATCH");
    reveal_strlit("HEAD");
    reveal_strlit("OPTIONS");
    reveal_strlit("CONNECT");
    reveal_strlit("TRACE");
    assert(is_ascii_chars("GET"@));
    assert(is_ascii_chars("POST"@));
    assert(is_ascii_chars("PUT"@));
    assert(is_ascii_chars("DELETE"@));
    assert(is_ascii_chars("PATCH"@));
    assert(is_ascii_chars("HEAD"@));
    assert(is_ascii_chars("OPTIONS"@));
    assert(is_ascii_chars("CONNECT"@));
    assert(is_ascii_chars("TRACE"@));
    assert(method_name(Method::Get) =~= seq![71u8, 69, 84]);
    assert(method_name(Method::Post) =~= seq![80u8, 79, 83, 84]);
    assert(method_name(Method::Put) =~= seq![80u8, 85, 84]);
    assert(method_name(Method::Delete) =~= seq![68u8, 69, 76, 69, 84, 69]);
    assert(method_name(Method::Patch) =~= seq![80u8, 65, 84, 67, 72]);
    assert(method_name(Method::Head) =~= seq![72u8, 69, 65, 68]);
    assert(method_name(Method::Options) =~= seq![79u8, 80, 84, 73, 79, 78, 83]);
    assert(method_name(Method::Connect) =~= seq![67u8, 79, 78, 78, 69, 67, 84]);
    assert(method_name(Method::Trace) =~= seq![84u8, 82, 65, 67, 69]);
}

/// No two methods share a name.
pub proof fn lemma_names_distinct()
    ensures
        forall|m1: Method, m2: Method|
            #[trigger] method_name(m1) == #[trigger] method_name(m2) ==> m1 == m2,
{
    lemma_method_name_bytes();
}

/// Parsing the name of any method gives that method back.
pub proof fn lemma_method_name_roundtrip(m: Method)
    ensures
        method_from_name(method_name(m)) == Some(m),
{
    lemma_names_distinct();
}

} // verus!
