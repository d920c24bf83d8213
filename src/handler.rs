//! Routing by path, and the whole exchange for one connection.
use vstd::prelude::*;
use vstd::utf8::decode_utf8;

use crate::request::{
    has_three_tokens, lemma_short_request_line_rejected, parse_error, path_token, request_line,
    Request,
};
use crate::response::{wire, Response};

verus! {

pub open spec fn is_echo_path(path: Seq<char>) -> bool {
    path.len() >= 6 && path.subrange(0, 6) == "/echo/"@
}

/// The status that a request for `path` gets.
pub open spec fn route_status(path: Seq<char>) -> Seq<char> {
    if path == "/"@ || path == "/echo"@ || is_echo_path(path) {
        "200 OK"@
    } else {
        "404 Not Found"@
    }
}

/// The body that a request for `path` gets: what follows the leading `/echo/`
/// on an echo path, else nothing.
pub open spec fn route_body(path: Seq<char>) -> Seq<char> {
    if path != "/"@ && path != "/echo"@ && is_echo_path(path) {
        path.subrange(6, path.len() as int)
    } else {
        ""@
    }
}

/// The decoded path of a request that parses.
pub open spec fn request_path(input: Seq<u8>) -> Seq<char> {
    decode_utf8(path_token(request_line(input)))
}

/// What goes back on a connection whose peer sent `input`.
pub open spec fn reply(input: Seq<u8>) -> Seq<char> {
    if parse_error(input) is Some {
        wire("400 Bad Request"@, ""@)
    } else {
        wire(route_status(request_path(input)), route_body(request_path(input)))
    }
}

fn has_prefix(s: &str, pre: &str) -> (r: bool)
    ensures
        r == (pre@.len() <= s@.len() && s@.subrange(0, pre@.len() as int) == pre@),
{
    let n = s.unicode_len();
    let m = pre.unicode_len();
    if m > n {
        return false;
    }
    let mut k: usize = 0;
    while k < m
        invariant
            k <= m <= n,
            n == s@.len(),
            m == pre@.len(),
            forall|x: int| 0 <= x < k ==> s@[x] == pre@[x],
        decreases m - k,
    {
        if s.get_char(k) != pre.get_char(k) {
            assert(s@.subrange(0, m as int)[k as int] != pre@[k as int]);
            return false;
        }
        k = k + 1;
    }
    assert(s@.subrange(0, m as int) =~= pre@);
    true
}

fn str_eq(s: &str, t: &str) -> (r: bool)
    ensures
        r == (s@ == t@),
{
    let same = s.unicode_len() == t.unicode_len() && has_prefix(s, t);
    proof {
        if s@.len() == t@.len() {
            assert(s@.subrange(0, t@.len() as int) =~= s@);
        }
    }
    same
}

/// Chooses the response for a request by its path alone: `/` and `/echo`
/// give an empty `200 OK`, `/echo/<rest>` gives `<rest>`, anything else `404`.
pub fn handle_request(request: &Request) -> (r: Response)
    ensures
        r.status@ == route_status(request.path@),
        r.body@ == route_body(request.path@),
{
    let path = request.path.as_str();
    proof {
        reveal_strlit("/echo/");
    }
    if str_eq(path, "/") || str_eq(path, "/echo") {
        Response::new("200 OK", "")
    } else if has_prefix(path, "/echo/") {
        let n = path.unicode_len();
        Response::new("200 OK", path.substring_char(6, n))
    } else {
        Response::new("404 Not Found", "")
    }
}

/// Parses what the peer sent, routes it, and gives the bytes to send back;
/// input that does not parse gets an empty `400 Bad Request`.
pub fn handle_client(input: &[u8]) -> (r: String)
    ensures
        r@ == reply(input@),
{
    match Request::new(input) {
        Ok(request) => handle_request(&request).to_string(),
        Err(_) => Response::new("400 Bad Request", "").to_string(),
    }
}

/// A request for `/` gets `200 OK` with an empty body.
pub proof fn lemma_root_is_ok(path: Seq<char>)
    requires
        path == "/"@,
    ensures
        route_status(path) == "200 OK"@,
        route_body(path) == ""@,
{
}

/// A path that starts with `/echo/` gets `200 OK`, and its body is the path
/// with that leading `/echo/` removed once; later occurrences stay.
pub proof fn lemma_echo_strips_prefix_once(path: Seq<char>)
    requires
        is_echo_path(path),
    ensures
        route_status(path) == "200 OK"@,
        route_body(path) == path.subrange(6, path.len() as int),
        "/echo/"@ + route_body(path) == path,
{
    reveal_strlit("/");
    reveal_strlit("/echo");
    reveal_strlit("/echo/");
    assert(path.len() != 1 && path.len() != 5);
    assert(path =~= path.subrange(0, 6) + path.subrange(6, path.len() as int));
}

/// Every path other than `/`, `/echo` and `/echo/...` gets `404 Not Found`
/// with an empty body.
pub proof fn lemma_other_paths_not_found(path: Seq<char>)
    requires
        path != "/"@,
        path != "/echo"@,
        !is_echo_path(path),
    ensures
        route_status(path) == "404 Not Found"@,
        route_body(path) == ""@,
{
}

/// A request line with fewer than three tokens gets an empty `400 Bad
/// Request` back: the failure is an ordinary reply, not a fault.
pub proof fn lemma_short_request_line_gets_bad_request(input: Seq<u8>)
    requires
        !has_three_tokens(request_line(input)),
    ensures
        reply(input) == wire("400 Bad Request"@, ""@),
{
    lemma_short_request_line_rejected(input);
}

/// A connection whose request parses with the path `/echo/` followed by an
/// id gets back exactly that id as the body of a `200 OK`; the reply depends
/// on that connection's own bytes alone.
pub proof fn lemma_echo_reply(input: Seq<u8>, id: Seq<char>)
    requires
        parse_error(input) is None,
        request_path(input) == "/echo/"@ + id,
    ensures
        reply(input) == wire("200 OK"@, id),
{
    reveal_strlit("/echo/");
    let path = request_path(input);
    assert(path.subrange(0, 6) =~= "/echo/"@);
    lemma_echo_strips_prefix_once(path);
    assert(path.subrange(6, path.len() as int) =~= id);
}

} // verus!
