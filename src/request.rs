//! Parsing of one HTTP/1.1 request from the bytes of a connection.
use vstd::prelude::*;
use vstd::slice::slice_subrange;
use vstd::utf8::{decode_utf8, valid_utf8};

use crate::text::{
    lower, lowercase, matches_at, parse_decimal, parse_usize, remove_all, remove_occurrences,
    starts_with, trim, trim_end, trim_start, trimmed,
};

verus! {

/// The smallest index at or after `i` that holds byte `b`, or the length.
pub open spec fn find_from(s: Seq<u8>, b: u8, i: int) -> int
    decreases s.len() - i,
{
    if i >= s.len() {
        s.len() as int
    } else if s[i] == b {
        i
    } else {
        find_from(s, b, i + 1)
    }
}

/// The index just past the line that starts at `i`: past its `\n`, or the end.
pub open spec fn line_end(s: Seq<u8>, i: int) -> int {
    let k = find_from(s, 0x0au8, i);
    if k < s.len() {
        k + 1
    } else {
        s.len() as int
    }
}

pub proof fn lemma_find_from_bounds(s: Seq<u8>, b: u8, i: int)
    requires
        0 <= i <= s.len(),
    ensures
        i <= find_from(s, b, i) <= s.len(),
        find_from(s, b, i) < s.len() ==> s[find_from(s, b, i)] == b,
        forall|j: int| i <= j < find_from(s, b, i) ==> s[j] != b,
    decreases s.len() - i,
{
    if i < s.len() && s[i] != b {
        lemma_find_from_bounds(s, b, i + 1);
    }
}

/// Finds `b` at or after `i`.
pub fn find_byte(s: &[u8], b: u8, i: usize) -> (r: usize)
    requires
        i <= s@.len(),
    ensures
        r == find_from(s@, b, i as int),
{
    let n = s.len();
    let mut j: usize = i;
    while j < n && s[j] != b
        invariant
            i <= j <= n == s@.len(),
            find_from(s@, b, i as int) == find_from(s@, b, j as int),
        decreases n - j,
    {
        j = j + 1;
    }
    j
}

pub fn find_line_end(s: &[u8], i: usize) -> (r: usize)
    requires
        i <= s@.len(),
    ensures
        r == line_end(s@, i as int),
        i < s@.len() ==> i < r,
        r <= s@.len(),
{
    proof {
        lemma_find_from_bounds(s@, 0x0au8, i as int);
    }
    let k = find_byte(s, 0x0au8, i);
    if k < s.len() {
        k + 1
    } else {
        s.len()
    }
}

/// A line without its terminator, `\r\n` or `\n`.
pub open spec fn strip_eol(line: Seq<u8>) -> Seq<u8> {
    if line.len() >= 2 && line[line.len() - 2] == 0x0du8 && line[line.len() - 1] == 0x0au8 {
        line.subrange(0, line.len() - 2)
    } else if line.len() >= 1 && line[line.len() - 1] == 0x0au8 {
        line.subrange(0, line.len() - 1)
    } else {
        line
    }
}

/// The request line: the first line of the input, without its terminator.
pub open spec fn request_line(s: Seq<u8>) -> Seq<u8> {
    strip_eol(s.subrange(0, line_end(s, 0)))
}

pub open spec fn first_space(line: Seq<u8>) -> int {
    find_from(line, 0x20u8, 0)
}

pub open spec fn second_space(line: Seq<u8>) -> int {
    find_from(line, 0x20u8, first_space(line) + 1)
}

/// The line splits on single spaces into at least three tokens.
pub open spec fn has_three_tokens(line: Seq<u8>) -> bool {
    first_space(line) < line.len() && second_space(line) < line.len()
}

pub open spec fn method_token(line: Seq<u8>) -> Seq<u8> {
    line.subrange(0, first_space(line))
}

pub open spec fn path_token(line: Seq<u8>) -> Seq<u8> {
    line.subrange(first_space(line) + 1, second_space(line))
}

pub open spec fn version_token(line: Seq<u8>) -> Seq<u8> {
    line.subrange(second_space(line) + 1, find_from(line, 0x20u8, second_space(line) + 1))
}

/// A request line is well formed when it has three tokens, each valid UTF-8.
pub open spec fn request_line_ok(line: Seq<u8>) -> bool {
    &&& has_three_tokens(line)
    &&& valid_utf8(method_token(line))
    &&& valid_utf8(path_token(line))
    &&& valid_utf8(version_token(line))
}

/// Relies on String::from_utf8: it succeeds exactly on valid UTF-8 and then
/// holds the decoded characters.
#[verifier::external_body]
fn utf8_string(b: &[u8]) -> (r: Option<String>)
    ensures
        r is Some <==> valid_utf8(b@),
        r matches Some(t) ==> t@ == decode_utf8(b@),
{
    match String::from_utf8(b.to_vec()) {
        Ok(t) => Some(t),
        Err(_) => None,
    }
}

fn copy_range(s: &[u8], from: usize, to: usize) -> (r: Vec<u8>)
    requires
        from <= to <= s@.len(),
    ensures
        r@ == s@.subrange(from as int, to as int),
{
    let mut r: Vec<u8> = Vec::new();
    let mut k: usize = from;
    while k < to
        invariant
            from <= k <= to <= s@.len(),
            r@ == s@.subrange(from as int, k as int),
        decreases to - k,
    {
        r.push(s[k]);
        k = k + 1;
        assert(r@ =~= s@.subrange(from as int, k as int));
    }
    r
}

/// Reads the header lines that start at `p`, one per line, each trimmed,
/// skipping lines that are empty without their terminator, until a line
/// that is exactly `\r\n` or the end of the input. Gives the lines, the
/// index where the body starts, and whether a blank line ended them.
pub open spec fn head_from(s: Seq<u8>, p: int) -> (Seq<Seq<u8>>, int, bool)
    decreases s.len() - p,
{
    if p >= s.len() {
        (seq![], s.len() as int, false)
    } else {
        let e = line_end(s, p);
        if e <= p {
            (seq![], s.len() as int, false)
        } else if e == p + 2 && s[p] == 0x0du8 && s[p + 1] == 0x0au8 {
            (seq![], e, true)
        } else if e == p + 1 && s[p] == 0x0au8 {
            head_from(s, e)
        } else {
            let rest = head_from(s, e);
            (seq![trim(s.subrange(p, e))] + rest.0, rest.1, rest.2)
        }
    }
}

pub open spec fn head_headers(s: Seq<u8>) -> Seq<Seq<u8>> {
    head_from(s, line_end(s, 0)).0
}

pub open spec fn body_start(s: Seq<u8>) -> int {
    head_from(s, line_end(s, 0)).1
}

/// A blank line has ended the header lines.
pub open spec fn head_complete(s: Seq<u8>) -> bool {
    head_from(s, line_end(s, 0)).2
}

/// The name of a header line, folded: its text before the first `:` (the
/// whole line where there is none), lower-cased and trimmed.
pub open spec fn header_name(line: Seq<u8>) -> Seq<u8> {
    trim(lower(line).subrange(0, find_from(lower(line), 0x3au8, 0)))
}

/// Case-insensitive lookup of `t` (already folded and trimmed) among header
/// lines: the first line whose name is `t` gives its folded text with every
/// `t:` removed, trimmed; no such line gives the empty value.
pub open spec fn header_value(headers: Seq<Seq<u8>>, t: Seq<u8>) -> Seq<u8>
    decreases headers.len(),
{
    if headers.len() == 0 {
        seq![]
    } else if header_name(headers[0]) == t {
        trim(remove_all(lower(headers[0]), t.push(0x3au8)))
    } else {
        header_value(headers.drop_first(), t)
    }
}

/// The folded, trimmed form of a header name asked for.
pub open spec fn lookup_key(target: Seq<u8>) -> Seq<u8> {
    trim(lower(target))
}

/// `content-length`
pub open spec fn content_length_key() -> Seq<u8> {
    seq![0x63u8, 0x6fu8, 0x6eu8, 0x74u8, 0x65u8, 0x6eu8, 0x74u8, 0x2du8, 0x6cu8, 0x65u8, 0x6eu8, 0x67u8, 0x74u8, 0x68u8]
}

/// The body length that header lines declare: the `Content-Length` value,
/// or zero where it is absent or not a number.
pub open spec fn declared_length(headers: Seq<Seq<u8>>) -> nat {
    match parse_usize(header_value(headers, content_length_key())) {
        Some(n) => n,
        None => 0,
    }
}

pub open spec fn input_length(s: Seq<u8>) -> nat {
    declared_length(head_headers(s))
}

/// The input ends before the declared body does.
pub open spec fn body_truncated(s: Seq<u8>) -> bool {
    input_length(s) > 0 && s.len() - body_start(s) < input_length(s)
}

/// The body read: the declared number of bytes after the head, where that
/// number is positive.
pub open spec fn expected_body(s: Seq<u8>) -> Option<Seq<u8>> {
    if input_length(s) > 0 {
        Some(s.subrange(body_start(s), body_start(s) + input_length(s)))
    } else {
        None
    }
}

#[derive(Debug, Clone, Copy, PartialEq, Eq, Structural)]
pub enum ParseError {
    /// The request line has fewer than three space-separated tokens, or a
    /// token is not UTF-8.
    MalformedRequestLine,
    /// The input ends before the body that `Content-Length` declares.
    TruncatedBody,
}

/// The error that parsing `s` ends in, if any.
pub open spec fn parse_error(s: Seq<u8>) -> Option<ParseError> {
    if !request_line_ok(request_line(s)) {
        Some(ParseError::MalformedRequestLine)
    } else if body_truncated(s) {
        Some(ParseError::TruncatedBody)
    } else {
        None
    }
}

/// The contents of a sequence of header lines.
pub open spec fn header_lines_of(hs: Seq<Vec<u8>>) -> Seq<Seq<u8>> {
    hs.map_values(|h: Vec<u8>| h@)
}

fn bytes_equal(a: &[u8], b: &[u8]) -> (r: bool)
    ensures
        r == (a@ == b@),
{
    if a.len() != b.len() {
        return false;
    }
    let same = matches_at(a, 0, b);
    assert(a@.subrange(0, a@.len() as int) =~= a@);
    same
}

/// Looks up a header by name, ignoring ASCII case; the empty value where
/// no header matches. The value comes back lower-cased; case folding covers
/// ASCII letters only, and bytes outside ASCII are kept as received.
pub fn find_header(headers: &Vec<Vec<u8>>, target: &[u8]) -> (r: Vec<u8>)
    ensures
        r@ == header_value(header_lines_of(headers@), lookup_key(target@)),
{
    let folded = lowercase(target);
    let key = trimmed(folded.as_slice());
    let mut pat = trimmed(folded.as_slice());
    pat.push(0x3au8);
    let ghost hs = header_lines_of(headers@);
    let n = headers.len();
    let mut i: usize = 0;
    assert(hs.subrange(0, n as int) =~= hs);
    while i < n
        invariant
            i <= n == hs.len(),
            hs == header_lines_of(headers@),
            key@ == lookup_key(target@),
            pat@ == key@.push(0x3au8),
            header_value(hs, key@) == header_value(hs.subrange(i as int, n as int), key@),
        decreases n - i,
    {
        let ghost rest = hs.subrange(i as int, n as int);
        assert(rest[0] == headers@[i as int]@);
        let lh = lowercase(headers[i].as_slice());
        proof {
            lemma_find_from_bounds(lh@, 0x3au8, 0);
        }
        let colon = find_byte(lh.as_slice(), 0x3au8, 0);
        let name = trimmed(slice_subrange(lh.as_slice(), 0, colon));
        if bytes_equal(name.as_slice(), key.as_slice()) {
            let v = remove_occurrences(lh.as_slice(), pat.as_slice());
            return trimmed(v.as_slice());
        }
        assert(rest.drop_first() =~= hs.subrange(i + 1, n as int));
        i = i + 1;
    }
    Vec::new()
}

/// Reads the header lines that start at `from`.
pub fn read_head(input: &[u8], from: usize) -> (r: (Vec<Vec<u8>>, usize, bool))
    requires
        from <= input@.len(),
    ensures
        header_lines_of(r.0@) == head_from(input@, from as int).0,
        r.1 == head_from(input@, from as int).1,
        r.2 == head_from(input@, from as int).2,
        r.1 <= input@.len(),
{
    let ghost s = input@;
    let n = input.len();
    let mut done = false;
    let mut headers: Vec<Vec<u8>> = Vec::new();
    let mut p: usize = from;
    let mut start: usize = n;
    loop
        invariant_except_break
            !done,
        invariant
            from <= p <= n == s.len(),
            s == input@,
            head_from(s, from as int).0 == header_lines_of(headers@) + head_from(s, p as int).0,
            head_from(s, from as int).1 == head_from(s, p as int).1,
            head_from(s, from as int).2 == head_from(s, p as int).2,
        ensures
            head_from(s, from as int).0 == header_lines_of(headers@),
            head_from(s, from as int).1 == start,
            head_from(s, from as int).2 == done,
            start <= n,
        decreases n - p,
    {
        if p >= n {
            assert(header_lines_of(headers@) + Seq::<Seq<u8>>::empty() =~= header_lines_of(headers@));
            start = n;
            break;
        }
        let e = find_line_end(input, p);
        if e - p == 2 && input[p] == 0x0du8 && input[p + 1] == 0x0au8 {
            assert(header_lines_of(headers@) + Seq::<Seq<u8>>::empty() =~= header_lines_of(headers@));
            start = e;
            done = true;
            break;
        }
        if !(e - p == 1 && input[p] == 0x0au8) {
            let t = trimmed(slice_subrange(input, p, e));
            let ghost before = header_lines_of(headers@);
            headers.push(t);
            assert(header_lines_of(headers@) =~= before.push(t@));
            assert(before + (seq![t@] + head_from(s, e as int).0) =~= before.push(t@) + head_from(s, e as int).0);
        }
        p = e;
    }

    (headers, start, done)
}

/// The body length that header lines declare: the `Content-Length` value
/// where it parses as a number, else zero.
pub fn content_length(headers: &Vec<Vec<u8>>) -> (r: usize)
    ensures
        r == declared_length(header_lines_of(headers@)),
{
    let key: Vec<u8> = vec![0x63u8, 0x6fu8, 0x6eu8, 0x74u8, 0x65u8, 0x6eu8, 0x74u8, 0x2du8, 0x6cu8, 0x65u8, 0x6eu8, 0x67u8, 0x74u8, 0x68u8];
    let value = find_header(headers, key.as_slice());
    proof {
        assert(key@ =~= content_length_key());
        assert(lower(key@) =~= key@);
        assert(trim_start(key@) == key@);
        assert(trim_end(key@) == key@);
    }
    match parse_decimal(value.as_slice()) {
        Some(v) => v,
        None => 0,
    }
}

/// Whether `input` holds a whole request: the header lines have ended with a
/// blank line and the declared body has arrived.
pub fn request_complete(input: &[u8]) -> (r: bool)
    ensures
        r == (head_complete(input@) && input@.len() - body_start(input@) >= input_length(input@)),
{
    let e0 = find_line_end(input, 0);
    let (headers, start, done) = read_head(input, e0);
    let length = content_length(&headers);
    done && input.len() - start >= length
}

pub struct Request {
    pub method: String,
    pub path: String,
    pub version: String,
    /// Raw header lines, trimmed, in the order received.
    pub headers: Vec<Vec<u8>>,
    pub body: Option<Vec<u8>>,
}

impl Request {
    pub open spec fn header_lines(&self) -> Seq<Seq<u8>> {
        header_lines_of(self.headers@)
    }

    pub open spec fn body_bytes(&self) -> Option<Seq<u8>> {
        match self.body {
            Some(b) => Some(b@),
            None => None,
        }
    }

    fn bytes_equal(a: &[u8], b: &[u8]) -> (r: bool)
    ensures
        r == (a@ == b@),
{
    if a.len() != b.len() {
        return false;
    }
    let same = matches_at(a, 0, b);
    assert(a@.subrange(0, a@.len() as int) =~= a@);
    same
}

/// Looks up a header by name, ignoring ASCII case; the empty value where
    /// no header matches.
    pub fn get_header(&self, target: &[u8]) -> (r: Vec<u8>)
        ensures
            r@ == header_value(self.header_lines(), lookup_key(target@)),
    {
        find_header(&self.headers, target)
    }

    /// Parses one request from the bytes of a connection, up to where the
    /// peer stopped sending. Bytes past the declared body are left unread.
    pub fn new(input: &[u8]) -> (r: Result<Request, ParseError>)
        ensures
            match r {
                Ok(req) => {
                    &&& parse_error(input@) is None
                    &&& req.method@ == decode_utf8(method_token(request_line(input@)))
                    &&& req.path@ == decode_utf8(path_token(request_line(input@)))
                    &&& req.version@ == decode_utf8(version_token(request_line(input@)))
                    &&& req.header_lines() == head_headers(input@)
                    &&& req.body_bytes() == expected_body(input@)
                },
                Err(e) => parse_error(input@) == Some(e),
            },
    {
        let ghost s = input@;
        let n = input.len();
        let e0 = find_line_end(input, 0);
        let mut l: usize = e0;
        if l >= 2 && input[l - 2] == 0x0du8 && input[l - 1] == 0x0au8 {
            l = l - 2;
        } else if l >= 1 && input[l - 1] == 0x0au8 {
            l = l - 1;
        }
        let line = slice_subrange(input, 0, l);
        assert(line@ =~= request_line(s));
        let a = find_byte(line, 0x20u8, 0);
        proof {
            lemma_find_from_bounds(line@, 0x20u8, 0);
        }
        if a == l {
            return Err(ParseError::MalformedRequestLine);
        }
        let b = find_byte(line, 0x20u8, a + 1);
        if b == l {
            return Err(ParseError::MalformedRequestLine);
        }
        proof {
            lemma_find_from_bounds(line@, 0x20u8, (a + 1) as int);
            lemma_find_from_bounds(line@, 0x20u8, (b + 1) as int);
        }
        let c = find_byte(line, 0x20u8, b + 1);
        let method = utf8_string(slice_subrange(line, 0, a));
        let path = utf8_string(slice_subrange(line, a + 1, b));
        let version = utf8_string(slice_subrange(line, b + 1, c));
        let (method, path, version) = match (method, path, version) {
            (Some(m), Some(p), Some(v)) => (m, p, v),
            _ => {
                return Err(ParseError::MalformedRequestLine);
            },
        };

        let (headers, start, _) = read_head(input, e0);

        let mut request = Request { method, path, version, headers, body: None };
        assert(request.header_lines() == head_headers(s));
        let length = content_length(&request.headers);
        assert(length == input_length(s));
        if length > 0 {
            if n - start < length {
                return Err(ParseError::TruncatedBody);
            }
            request.body = Some(copy_range(input, start, start + length));
        }
        Ok(request)
    }
}

proof fn lemma_find_from_extend(s: Seq<u8>, t: Seq<u8>, b: u8, i: int)
    requires
        0 <= i,
        find_from(s, b, i) < s.len(),
    ensures
        find_from(s + t, b, i) == find_from(s, b, i),
    decreases s.len() - i,
{
    if i < s.len() && s[i] != b {
        lemma_find_from_extend(s, t, b, i + 1);
    }
}

proof fn lemma_head_from_extend(s: Seq<u8>, t: Seq<u8>, p: int)
    requires
        0 <= p,
        head_from(s, p).2,
    ensures
        head_from(s + t, p) == head_from(s, p),
    decreases s.len() - p,
{
    let e = line_end(s, p);
    lemma_find_from_bounds(s, 0x0au8, p);
    if find_from(s, 0x0au8, p) < s.len() {
        lemma_find_from_extend(s, t, 0x0au8, p);
        assert(line_end(s + t, p) == e);
        assert((s + t).subrange(p, e) =~= s.subrange(p, e));
        assert(p < e <= s.len());
        if e == p + 2 && s[p] == 0x0du8 && s[p + 1] == 0x0au8 {
            assert((s + t)[p] == s[p] && (s + t)[p + 1] == s[p + 1]);
        } else {
            if e == p + 2 {
                assert((s + t)[p] == s[p] && (s + t)[p + 1] == s[p + 1]);
            }
            lemma_head_from_extend(s, t, e);
            assert(head_from(s + t, p) == head_from(s, p));
        }
    } else {
        if p < s.len() && e == p + 2 && s[p] == 0x0du8 {
            assert(s[p + 1] != 0x0au8);
        }
        assert(!head_from(s, s.len() as int).2);
        assert(false);
    }
}

proof fn lemma_head_from_bounds(s: Seq<u8>, p: int)
    requires
        0 <= p,
    ensures
        0 <= head_from(s, p).1 <= s.len(),
    decreases s.len() - p,
{
    if p < s.len() {
        lemma_find_from_bounds(s, 0x0au8, p);
        let e = line_end(s, p);
        if e > p {
            lemma_head_from_bounds(s, e);
        }
    }
}

/// Bytes that follow a whole request change nothing that parsing gives: the
/// request line, the header lines, the error if any, and the body, which is
/// exactly the declared number of bytes after the head.
pub proof fn lemma_trailing_bytes_ignored(s: Seq<u8>, t: Seq<u8>)
    requires
        head_complete(s),
        s.len() - body_start(s) >= input_length(s),
    ensures
        request_line(s + t) == request_line(s),
        head_headers(s + t) == head_headers(s),
        parse_error(s + t) == parse_error(s),
        expected_body(s + t) == expected_body(s),
{
    let e0 = line_end(s, 0);
    lemma_find_from_bounds(s, 0x0au8, 0);
    assert(find_from(s, 0x0au8, 0) < s.len());
    lemma_find_from_extend(s, t, 0x0au8, 0);
    assert((s + t).subrange(0, e0) =~= s.subrange(0, e0));
    lemma_head_from_extend(s, t, e0);
    let bs = body_start(s);
    let n = input_length(s);
    lemma_head_from_bounds(s, e0);
    assert((s + t).subrange(bs, bs + n) =~= s.subrange(bs, bs + n));
}

proof fn lemma_header_value_absent(headers: Seq<Seq<u8>>, key: Seq<u8>)
    requires
        forall|i: int| 0 <= i < headers.len() ==> header_name(#[trigger] headers[i]) != key,
    ensures
        header_value(headers, key) == Seq::<u8>::empty(),
    decreases headers.len(),
{
    if headers.len() > 0 {
        assert(header_name(headers[0]) != key);
        assert forall|i: int| 0 <= i < headers.drop_first().len() implies header_name(
            #[trigger] headers.drop_first()[i],
        ) != key by {
            assert(headers.drop_first()[i] == headers[i + 1]);
        }
        lemma_header_value_absent(headers.drop_first(), key);
    }
}

/// Where no header line is named `Content-Length`, in any case, no body is
/// read and the request cannot be cut short, whatever bytes follow the head.
pub proof fn lemma_no_length_no_body(s: Seq<u8>)
    requires
        forall|i: int|
            0 <= i < head_headers(s).len() ==> header_name(#[trigger] head_headers(s)[i])
                != content_length_key(),
    ensures
        input_length(s) == 0,
        expected_body(s) is None,
        !body_truncated(s),
{
    lemma_header_value_absent(head_headers(s), content_length_key());
}

/// A request line with fewer than three space-separated tokens ends parsing
/// in `MalformedRequestLine`, whatever follows it.
pub proof fn lemma_short_request_line_rejected(s: Seq<u8>)
    requires
        !has_three_tokens(request_line(s)),
    ensures
        parse_error(s) == Some(ParseError::MalformedRequestLine),
{
}

} // verus!
