//! The decisions of a plain-text HTTP responder that echoes the visitor's
//! address: how a request's first line is answered, and the body of the
//! answer to `GET /`.

use vstd::prelude::*;
use vstd::string::{StrSliceExecFns, StringExecFns};

verus! {

/// How a request is answered.
#[derive(PartialEq, Eq, Structural, Clone, Copy, Debug)]
pub enum Route {
    /// `GET /`: answered with the visitor's address.
    Index,
    /// `GET` of any other path: 404.
    NotFound,
    /// Anything else: 400.
    BadRequest,
}

/// The decimal digits of `n`, most significant first.
pub open spec fn decimal(n: nat) -> Seq<char>
    decreases n,
{
    if n < 10 {
        seq![digit_char(n)]
    } else {
        decimal(n / 10) + seq![digit_char(n % 10)]
    }
}

pub open spec fn digit_char(d: nat) -> char {
    if d == 0 { '0' } else if d == 1 { '1' } else if d == 2 { '2' } else if d == 3 { '3' } else if d == 4 { '4' }
    else if d == 5 { '5' } else if d == 6 { '6' } else if d == 7 { '7' } else if d == 8 { '8' } else { '9' }
}

/// The response to `GET /` carrying `content`, whose length in bytes is
/// `byte_len`.
pub open spec fn index_response(content: Seq<char>, byte_len: nat) -> Seq<char> {
    "HTTP/1.1 200 OK\r\nContent-Length: "@ + decimal(byte_len)
        + "\r\nConnection: keep-alive\r\nContent-Type: text/plain\r\n\r\n"@ + content
}

/// The answer to a `GET` of a path that does not exist.
pub open spec fn not_found_text() -> Seq<char> {
    "HTTP/1.1 404 Not Found\r\nContent-Length: 0\r\nConnection: keep-alive\r\n\r\n"@
}

/// The answer to a request that is not a `GET`.
pub open spec fn bad_request_text() -> Seq<char> {
    "HTTP/1.1 400 Bad Request\r\nContent-Length: 0\r\nConnection: keep-alive\r\n\r\n"@
}

/// The text of the answer by `route` to a visitor whose address reads
/// `visitor`.
pub open spec fn answer(route: Route, visitor: Seq<char>) -> Seq<char> {
    match route {
        Route::Index => index_response(visitor, (vstd::utf8::encode_utf8(visitor).len() as usize) as nat),
        Route::NotFound => not_found_text(),
        Route::BadRequest => bad_request_text(),
    }
}

/// How a request whose first line, lowercased, is `lower` is answered.
pub open spec fn route_of(lower: Seq<char>) -> Route {
    if "get / "@.is_prefix_of(lower) {
        Route::Index
    } else if "get /"@.is_prefix_of(lower) {
        Route::NotFound
    } else {
        Route::BadRequest
    }
}

/// The number a string of decimal digits reads as, most significant first.
pub open spec fn digits_value(s: Seq<char>) -> int
    decreases s.len(),
{
    if s.len() == 0 {
        0
    } else {
        digits_value(s.drop_last()) * 10 + (s.last() as int - '0' as int)
    }
}

/// A character is one of the decimal digits `0` to `9`.
pub open spec fn is_digit(c: char) -> bool {
    '0' <= c && c <= '9'
}

proof fn lemma_digit_char(d: nat)
    requires
        d < 10,
    ensures
        digit_char(d) as int - '0' as int == d,
        is_digit(digit_char(d)),
{
    assert('0' as int == 48);
    assert('1' as int == 49);
    assert('2' as int == 50);
    assert('3' as int == 51);
    assert('4' as int == 52);
    assert('5' as int == 53);
    assert('6' as int == 54);
    assert('7' as int == 55);
    assert('8' as int == 56);
    assert('9' as int == 57);
}

/// Writing `n` in decimal and reading it back gives `n`: every character
/// written is a digit, the text is not empty, and its value is `n`.
pub proof fn law_decimal_reads_back(n: nat)
    ensures
        decimal(n).len() > 0,
        forall|i: int| 0 <= i < decimal(n).len() ==> is_digit(#[trigger] decimal(n)[i]),
        digits_value(decimal(n)) == n,
    decreases n,
{
    if n < 10 {
        lemma_digit_char(n);
        assert(decimal(n).drop_last() =~= Seq::<char>::empty());
        assert(digits_value(Seq::<char>::empty()) == 0);
        assert(digits_value(decimal(n)) == digits_value(decimal(n).drop_last()) * 10 + (decimal(n).last() as int - '0' as int));
    } else {
        lemma_digit_char(n % 10);
        law_decimal_reads_back(n / 10);
        let d = decimal(n);
        assert(d.drop_last() =~= decimal(n / 10));
        assert(d.last() == digit_char(n % 10));
        assert((n / 10) * 10 + n % 10 == n);
        assert(digits_value(d) == digits_value(decimal(n / 10)) * 10 + (n % 10));
        assert forall|i: int| 0 <= i < d.len() implies is_digit(#[trigger] d[i]) by {
            if i < d.len() - 1 {
                assert(d[i] == decimal(n / 10)[i]);
            }
        }
    }
}

/// The `Content-Length` header of the answer to `GET /` states the body's
/// length: the characters after `Content-Length: ` up to the line end are
/// digits that read as `byte_len`.
pub proof fn law_content_length_reads_back(content: Seq<char>, byte_len: nat)
    ensures
        ({
            let r = index_response(content, byte_len);
            let p = "HTTP/1.1 200 OK\r\nContent-Length: "@.len() as int;
            let e = p + decimal(byte_len).len();
            &&& "HTTP/1.1 200 OK\r\nContent-Length: "@.is_prefix_of(r)
            &&& forall|i: int| p <= i < e ==> is_digit(#[trigger] r[i])
            &&& r[e] == '\r'
            &&& digits_value(r.subrange(p, e)) == byte_len
        }),
{
    law_decimal_reads_back(byte_len);
    reveal_strlit("HTTP/1.1 200 OK\r\nContent-Length: ");
    reveal_strlit("\r\nConnection: keep-alive\r\nContent-Type: text/plain\r\n\r\n");
    let pre = "HTTP/1.1 200 OK\r\nContent-Length: "@;
    let r = index_response(content, byte_len);
    let p = pre.len() as int;
    let e = p + decimal(byte_len).len();
    assert(r.subrange(0, p) =~= pre);
    assert(r.subrange(p, e) =~= decimal(byte_len));
    assert forall|i: int| p <= i < e implies is_digit(#[trigger] r[i]) by {
        assert(r[i] == decimal(byte_len)[i - p]);
    }
}

/// The lowercase form of a string, as `str::to_lowercase` gives it.
pub uninterp spec fn lowercase(s: Seq<char>) -> Seq<char>;

/// `str::to_lowercase`: the lowercase equivalent of the string.
#[verifier::external_body]
fn to_lowercase(s: &str) -> (r: String)
    ensures
        r@ == lowercase(s@),
{
    s.to_lowercase()
}

fn digit_str(d: usize) -> (s: &'static str)
    requires
        d < 10,
    ensures
        s@ == seq![digit_char(d as nat)],
{
    proof {
        reveal_strlit("0");
        reveal_strlit("1");
        reveal_strlit("2");
        reveal_strlit("3");
        reveal_strlit("4");
        reveal_strlit("5");
        reveal_strlit("6");
        reveal_strlit("7");
        reveal_strlit("8");
        reveal_strlit("9");
    }
    if d == 0 {
        "0"
    } else if d == 1 {
        "1"
    } else if d == 2 {
        "2"
    } else if d == 3 {
        "3"
    } else if d == 4 {
        "4"
    } else if d == 5 {
        "5"
    } else if d == 6 {
        "6"
    } else if d == 7 {
        "7"
    } else if d == 8 {
        "8"
    } else {
        "9"
    }
}

/// Appends the decimal digits of `n` to `out`.
fn push_decimal(out: &mut String, n: usize)
    ensures
        final(out)@ == old(out)@ + decimal(n as nat),
    decreases n,
{
    if n >= 10 {
        push_decimal(out, n / 10);
    }
    out.append(digit_str(n % 10));
    proof {
        assert(decimal(n as nat) =~= if n < 10 { seq![digit_char(n as nat)] } else { decimal((n / 10) as nat) + seq![digit_char((n % 10) as nat)] });
    }
}

/// The response to `GET /`: an HTTP 200 with `content` as a plain-text body.
pub fn generate_index(content: String) -> (r: String)
    ensures
        r@ == index_response(content@, (vstd::utf8::encode_utf8(content@).len() as usize) as nat),
{
    let mut s = String::from_str("HTTP/1.1 200 OK\r\nContent-Length: ");
    push_decimal(&mut s, content.as_str().len());
    s.append("\r\nConnection: keep-alive\r\nContent-Type: text/plain\r\n\r\n");
    s.append(content.as_str());
    proof {
        reveal_strlit("HTTP/1.1 200 OK\r\nContent-Length: ");
        reveal_strlit("\r\nConnection: keep-alive\r\nContent-Type: text/plain\r\n\r\n");
        assert(s@ =~= index_response(content@, (vstd::utf8::encode_utf8(content@).len() as usize) as nat));
    }
    s
}

/// `p` is a prefix of `s`.
fn has_prefix(s: &str, p: &str) -> (r: bool)
    ensures
        r == p@.is_prefix_of(s@),
{
    let n = p.unicode_len();
    if n > s.unicode_len() {
        return false;
    }
    let mut i: usize = 0;
    while i < n
        invariant
            n == p@.len(),
            n <= s@.len(),
            i <= n,
            forall|j: int| 0 <= j < i ==> s@[j] == p@[j],
        decreases n - i,
    {
        if s.get_char(i) != p.get_char(i) {
            return false;
        }
        i += 1;
    }
    assert(p@ =~= s@.subrange(0, n as int));
    true
}

/// How a request whose lowercased first line is `lower` is answered.
pub fn classify_request(lower: &str) -> (r: Route)
    ensures
        r == route_of(lower@),
{
    if has_prefix(lower, "get / ") {
        Route::Index
    } else if has_prefix(lower, "get /") {
        Route::NotFound
    } else {
        Route::BadRequest
    }
}

/// How a request whose first line is `first_line` is answered; the line is
/// compared without regard to case.
pub fn route_request(first_line: &str) -> (r: Route)
    ensures
        r == route_of(lowercase(first_line@)),
{
    let lower = to_lowercase(first_line);
    classify_request(lower.as_str())
}

/// The answer to a `GET` of a path that does not exist.
pub fn not_found() -> (r: &'static str)
    ensures
        r@ == not_found_text(),
{
    "HTTP/1.1 404 Not Found\r\nContent-Length: 0\r\nConnection: keep-alive\r\n\r\n"
}

/// The answer to a request that is not a `GET`.
pub fn bad_request() -> (r: &'static str)
    ensures
        r@ == bad_request_text(),
{
    "HTTP/1.1 400 Bad Request\r\nContent-Length: 0\r\nConnection: keep-alive\r\n\r\n"
}

/// The bytes that answer a request whose first line is `first_line`, from a
/// visitor whose address reads `visitor`.
pub fn respond(first_line: &str, visitor: String) -> (r: Vec<u8>)
    ensures
        r@ == vstd::utf8::encode_utf8(answer(route_of(lowercase(first_line@)), visitor@)),
{
    match route_request(first_line) {
        Route::Index => generate_index(visitor).as_str().as_bytes_vec(),
        Route::NotFound => not_found().as_bytes_vec(),
        Route::BadRequest => bad_request().as_bytes_vec(),
    }
}

} // verus!
