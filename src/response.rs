//! Responses and their wire form.
use vstd::prelude::*;
use vstd::utf8::encode_utf8;

use crate::request::{
    content_length_key, declared_length, find_from, header_name, header_value,
    lemma_find_from_bounds,
};
use crate::text::{
    decimal, is_digit, lemma_decimal_digits, lemma_remove_all_absent, lower, remove_all, starts_with,
    trim_end, trim_start, unsigned_digits,
};

verus! {

/// Bytes of ASCII characters.
pub open spec fn ascii_bytes(c: Seq<char>) -> Seq<u8> {
    c.map_values(|x: char| x as u8)
}

/// Characters of ASCII bytes.
pub open spec fn ascii_chars(b: Seq<u8>) -> Seq<char> {
    b.map_values(|x: u8| x as char)
}

/// The number of bytes that `body` takes in UTF-8, as the machine word that
/// `str::len` reports.
pub open spec fn byte_len(body: Seq<char>) -> nat {
    (encode_utf8(body).len() as usize) as nat
}

/// `Content-Length: <n>` for the body's byte length.
pub open spec fn length_line(body: Seq<char>) -> Seq<u8> {
    ascii_bytes("Content-Length: "@) + decimal(byte_len(body))
}

/// `Content-Type: text/plain`
pub open spec fn type_line() -> Seq<u8> {
    ascii_bytes("Content-Type: text/plain"@)
}

/// The header lines a response carries.
pub open spec fn response_header_lines(body: Seq<char>) -> Seq<Seq<u8>> {
    seq![length_line(body), type_line()]
}

/// The wire form: status line, the two header lines, a blank line, the body.
pub open spec fn wire(status: Seq<char>, body: Seq<char>) -> Seq<char> {
    "HTTP/1.1 "@ + status + "\r\n"@ + ascii_chars(length_line(body)) + "\r\n"@
        + ascii_chars(type_line()) + "\r\n\r\n"@ + body
}

pub open spec fn digit_char(d: nat) -> char {
    ((0x30 + d) as u8) as char
}

fn digit_str(d: usize) -> (r: &'static str)
    requires
        d < 10,
    ensures
        r@ == seq![digit_char(d as nat)],
{
    proof {
        reveal_strlit("0");
        reveal_strlit("1");
        reveal_strlit("2");
        reveal_strlit("3");
        reveal_strlit("4");
        reveal_strlit("5");
        reveal_strlit("6");
        reveal_strlit("7");
        reveal_strlit("8");
        reveal_strlit("9");
    }
    if d == 0 {
        "0"
    } else if d == 1 {
        "1"
    } else if d == 2 {
        "2"
    } else if d == 3 {
        "3"
    } else if d == 4 {
        "4"
    } else if d == 5 {
        "5"
    } else if d == 6 {
        "6"
    } else if d == 7 {
        "7"
    } else if d == 8 {
        "8"
    } else {
        "9"
    }
}

/// Appends the decimal digits of `n`.
fn push_decimal(out: &mut String, n: usize)
    ensures
        final(out)@ == old(out)@ + ascii_chars(decimal(n as nat)),
    decreases n,
{
    if n >= 10 {
        push_decimal(out, n / 10);
    }
    out.append(digit_str(n % 10));
    proof {
        if n >= 10 {
            assert(ascii_chars(decimal(n as nat)) =~= ascii_chars(decimal((n / 10) as nat)) + seq![
                digit_char((n % 10) as nat),
            ]);
        } else {
            assert(ascii_chars(decimal(n as nat)) =~= seq![digit_char(n as nat)]);
        }
    }
}

pub struct Response {
    /// Status code and reason, such as `200 OK`.
    pub status: String,
    pub body: String,
}

impl Response {
    pub fn new(status: &str, body: &str) -> (r: Response)
        ensures
            r.status@ == status@,
            r.body@ == body@,
    {
        Response { status: String::from_str(status), body: String::from_str(body) }
    }

    /// The response as it goes on the wire, with a `Content-Length` that is the
    /// body's byte length and a `text/plain` content type.
    pub fn to_string(&self) -> (r: String)
        ensures
            r@ == wire(self.status@, self.body@),
    {
        let content_length = self.body.as_str().len();
        let mut out = String::from_str("HTTP/1.1 ");
        out.append(self.status.as_str());
        out.append("\r\nContent-Length: ");
        push_decimal(&mut out, content_length);
        out.append("\r\nContent-Type: text/plain\r\n\r\n");
        out.append(self.body.as_str());
        proof {
            reveal_strlit("\r\nContent-Length: ");
            reveal_strlit("Content-Length: ");
            reveal_strlit("\r\nContent-Type: text/plain\r\n\r\n");
            reveal_strlit("Content-Type: text/plain");
            reveal_strlit("\r\n");
            reveal_strlit("\r\n\r\n");
            assert(ascii_chars(length_line(self.body@)) =~= "Content-Length: "@ + ascii_chars(
                decimal(byte_len(self.body@)),
            ));
            assert(wire(self.status@, self.body@) =~= out@);
        }
        out
    }
}

/// Reading `Content-Length` back from the header lines that `to_string`
/// writes, with the same lookup and number parsing that requests go through,
/// gives the body's byte length, for every body.
pub proof fn lemma_content_length_round_trip(body: Seq<char>)
    ensures
        declared_length(response_header_lines(body)) == byte_len(body),
{
    let n = byte_len(body);
    let d = decimal(n);
    let key = content_length_key();
    let pat = key.push(0x3au8);
    let line = length_line(body);
    let rest = seq![0x20u8] + d;
    reveal_strlit("Content-Length: ");
    lemma_decimal_digits(n);
    assert(lower(d) =~= d);
    assert(lower(ascii_bytes("Content-Length: "@)) =~= pat.push(0x20u8));
    assert(lower(line) =~= lower(ascii_bytes("Content-Length: "@)) + lower(d));
    assert(lower(line) =~= pat + rest);
    assert((pat + rest).subrange(0, 14) =~= key);
    lemma_find_from_bounds(pat + rest, 0x3au8, 0);
    assert((pat + rest)[14] == 0x3au8);
    assert(find_from(pat + rest, 0x3au8, 0) == 14);
    assert(trim_start(key) == key);
    assert(trim_end(key) == key);
    assert(header_name(line) == key);
    assert(starts_with(pat + rest, pat)) by {
        assert((pat + rest).subrange(0, 15) =~= pat);
    }
    assert((pat + rest).subrange(15, (pat + rest).len() as int) =~= rest);
    assert(remove_all(lower(line), pat) == remove_all(rest, pat));
    assert forall|i: int| 0 <= i < rest.len() implies rest[i] != pat[0] by {
        if i > 0 {
            assert(rest[i] == d[i - 1]);
            assert(is_digit(d[i - 1]));
        }
    }
    lemma_remove_all_absent(rest, pat);
    assert(rest.drop_first() =~= d);
    assert(is_digit(d[0]));
    assert(trim_start(rest) == trim_start(d));
    assert(trim_start(d) == d);
    assert(is_digit(d.last()));
    assert(trim_end(d) == d);
    assert(header_value(response_header_lines(body), key) == d);
    assert(unsigned_digits(d) == d);
}

} // verus!
