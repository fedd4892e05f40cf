//! HTTP/1.1 message types: wire grammar, request parsing, response building
//! and serialization.
use vstd::prelude::*;

verus! {

use vstd::string::StrSliceExecFns;
use vstd::string::StringExecFns;
use vstd::pervasive::VecAdditionalExecFns;
use crate::text::{
    count_digits, count_name, count_spaces, eq_ic, find_pattern, find_sub, is_digit_char,
    is_name_char, is_space_char, scan_digits, scan_name, scan_spaces, starts_ic, starts_with_ic,
};

/// Failure of the request parser: the bytes do not form a complete,
/// well-shaped request.
#[derive(Debug, PartialEq, Eq, Structural, Clone, Copy)]
pub enum ParseError {
    Malformed,
}

/// Mathematical value of a header: its name and value character sequences.
pub ghost struct HeaderView {
    pub name: Seq<char>,
    pub value: Seq<char>,
}

/// One `name: value` pair. Names are matched case-sensitively at storage
/// time; duplicates are permitted and kept in arrival order.
#[derive(Debug)]
pub struct HttpHeader {
    pub name: String,
    pub value: String,
}

impl View for HttpHeader {
    type V = HeaderView;

    open spec fn view(&self) -> HeaderView {
        HeaderView { name: self.name@, value: self.value@ }
    }
}

impl PartialEq for HttpHeader {
    fn eq(&self, other: &HttpHeader) -> (r: bool) {
        self.name == other.name && self.value == other.value
    }
}

impl vstd::std_specs::cmp::PartialEqSpecImpl for HttpHeader {
    open spec fn obeys_eq_spec() -> bool {
        true
    }

    open spec fn eq_spec(&self, other: &HttpHeader) -> bool {
        self@ == other@
    }
}

/// The line terminator of the wire grammar.
pub open spec fn crlf() -> Seq<char> {
    seq!['\r', '\n']
}

/// Serialized form of a header line: `name: value` followed by CRLF.
pub open spec fn header_emit_chars(h: HeaderView) -> Seq<char> {
    h.name + seq![':', ' '] + h.value + crlf()
}

/// Grammar of one header line: a non-empty name of name-characters, optional
/// spaces, a colon, optional spaces, then the value up to the first CRLF.
pub open spec fn parse_header_spec(s: Seq<char>) -> Option<(HeaderView, Seq<char>)> {
    let n = count_name(s);
    if n == 0 {
        None
    } else {
        let s1 = s.skip(n);
        let s2 = s1.skip(count_spaces(s1));
        if s2.len() == 0 || s2[0] != ':' {
            None
        } else {
            let s3 = s2.skip(1);
            let s4 = s3.skip(count_spaces(s3));
            match find_sub(s4, crlf()) {
                Some(i) => Some(
                    (HeaderView { name: s.take(n), value: s4.take(i) }, s4.skip(i + 2)),
                ),
                None => None,
            }
        }
    }
}

impl HttpHeader {
    /// Pair a name with a value, stored verbatim.
    pub fn new(name: &str, value: &str) -> (r: HttpHeader)
        ensures
            r@.name == name@,
            r@.value == value@,
    {
        HttpHeader { name: name.to_owned(), value: value.to_owned() }
    }

    /// Parse one header line off the front of `src`; returns the remaining
    /// input and the header exactly as `parse_header_spec` describes.
    pub fn parse<'a>(src: &'a str) -> (r: Result<(&'a str, HttpHeader), ParseError>)
        ensures
            match r {
                Ok(p) => parse_header_spec(src@) == Some((p.1@, p.0@)),
                Err(_) => parse_header_spec(src@) is None,
            },
    {
        proof {
            reveal_strlit("\r\n");
            assert("\r\n"@ =~= crlf());
        }
        let len = src.unicode_len();
        let n = scan_name(src, 0);
        proof {
            assert(src@.skip(0) =~= src@);
        }
        if n == 0 {
            return Err(ParseError::Malformed);
        }
        let p1 = scan_spaces(src, n);
        proof {
            assert(src@.skip(n as int).skip(p1 - n) =~= src@.skip(p1 as int));
        }
        if p1 == len {
            return Err(ParseError::Malformed);
        }
        if src.get_char(p1) != ':' {
            proof {
                assert(src@.skip(p1 as int)[0] == src@[p1 as int]);
            }
            return Err(ParseError::Malformed);
        }
        proof {
            assert(src@.skip(p1 as int)[0] == src@[p1 as int]);
        }
        let p2 = p1 + 1;
        let p3 = scan_spaces(src, p2);
        proof {
            assert(src@.skip(p1 as int).skip(1) =~= src@.skip(p2 as int));
            assert(src@.skip(p2 as int).skip(p3 - p2) =~= src@.skip(p3 as int));
        }
        match find_pattern(src, p3, "\r\n") {
            None => {
                return Err(ParseError::Malformed);
            },
            Some(i) => {
                let name = src.substring_char(0, n).to_owned();
                let value = src.substring_char(p3, i).to_owned();
                let rest = src.substring_char(i + 2, len);
                proof {
                    let s4 = src@.skip(p3 as int);
                    assert(name@ =~= src@.take(n as int));
                    assert(value@ =~= s4.take(i - p3));
                    assert(rest@ =~= s4.skip((i - p3) + 2));
                }
                return Ok((rest, HttpHeader { name, value }));
            },
        }
    }

    /// The serialized header line `name: value` CRLF, as a string.
    pub fn emit_text(&self) -> (r: String)
        ensures
            r@ == header_emit_chars(self@),
    {
        let mut s = self.name.clone();
        s.append(": ");
        s.append(self.value.as_str());
        s.append("\r\n");
        proof {
            reveal_strlit(": ");
            reveal_strlit("\r\n");
            assert(s@ =~= header_emit_chars(self@));
        }
        s
    }

    /// Serialize as `name: value` CRLF, in UTF-8.
    pub fn emit(&self) -> (r: Vec<u8>)
        ensures
            r@ == vstd::utf8::encode_utf8(header_emit_chars(self@)),
    {
        self.emit_text().as_str().as_bytes_vec()
    }
}

/// A response status code, restricted to the registry this engine knows.
pub open spec fn valid_status(v: int) -> bool {
    v == 200 || v == 301 || v == 400 || v == 404
}

/// Canonical `code reason` text of a status code; empty off the registry.
pub open spec fn reason_chars(v: int) -> Seq<char> {
    if v == 200 {
        "200 Ok"@
    } else if v == 301 {
        "301 Moved Permanently"@
    } else if v == 400 {
        "400 Bad Request"@
    } else if v == 404 {
        "404 Not Found"@
    } else {
        Seq::empty()
    }
}

/// A status code from the registry together with its canonical reason phrase.
#[derive(Debug, PartialEq, Eq, Structural, Clone, Copy)]
pub struct HttpStatus {
    pub value: usize,
}

impl HttpStatus {
    /// Accept exactly the registry codes; anything else is an error.
    pub fn new(value: usize) -> (r: Result<HttpStatus, ()>)
        ensures
            valid_status(value as int) ==> r == Ok::<HttpStatus, ()>((HttpStatus { value })),
            !valid_status(value as int) ==> r is Err,
    {
        match value {
            200 | 301 | 400 | 404 => Ok(HttpStatus { value }),
            _ => Err(()),
        }
    }

    /// The `code reason` text as a string slice.
    pub fn reason_text(&self) -> (r: &'static str)
        ensures
            r@ == reason_chars(self.value as int),
    {
        proof {
            reveal_strlit("");
            assert(""@ =~= Seq::<char>::empty());
        }
        match self.value {
            200 => "200 Ok",
            301 => "301 Moved Permanently",
            400 => "400 Bad Request",
            404 => "404 Not Found",
            _ => "",
        }
    }

    /// Serialize the `code reason` text in UTF-8.
    pub fn emit(&self) -> (r: Vec<u8>)
        ensures
            r@ == vstd::utf8::encode_utf8(reason_chars(self.value as int)),
    {
        self.reason_text().as_bytes_vec()
    }
}

/// The nine request methods of the grammar.
#[derive(Debug, PartialEq, Eq, Structural, Clone, Copy)]
pub enum HttpMethod {
    Get,
    Head,
    Post,
    Put,
    Delete,
    Connect,
    Options,
    Trace,
    Patch,
}

/// The keyword of a method, upper case.
pub open spec fn method_token(m: HttpMethod) -> Seq<char> {
    match m {
        HttpMethod::Get => seq!['G', 'E', 'T'],
        HttpMethod::Head => seq!['H', 'E', 'A', 'D'],
        HttpMethod::Post => seq!['P', 'O', 'S', 'T'],
        HttpMethod::Put => seq!['P', 'U', 'T'],
        HttpMethod::Delete => seq!['D', 'E', 'L', 'E', 'T', 'E'],
        HttpMethod::Connect => seq!['C', 'O', 'N', 'N', 'E', 'C', 'T'],
        HttpMethod::Options => seq!['O', 'P', 'T', 'I', 'O', 'N', 'S'],
        HttpMethod::Trace => seq!['T', 'R', 'A', 'C', 'E'],
        HttpMethod::Patch => seq!['P', 'A', 'T', 'C', 'H'],
    }
}

/// Grammar of the method token: the first keyword, tried in a fixed order,
/// that is an ASCII-case-insensitive prefix of the input.
pub open spec fn parse_method_spec(s: Seq<char>) -> Option<(HttpMethod, Seq<char>)> {
    if starts_ic(s, method_token(HttpMethod::Get)) {
        Some((HttpMethod::Get, s.skip(3)))
    } else if starts_ic(s, method_token(HttpMethod::Head)) {
        Some((HttpMethod::Head, s.skip(4)))
    } else if starts_ic(s, method_token(HttpMethod::Post)) {
        Some((HttpMethod::Post, s.skip(4)))
    } else if starts_ic(s, method_token(HttpMethod::Put)) {
        Some((HttpMethod::Put, s.skip(3)))
    } else if starts_ic(s, method_token(HttpMethod::Delete)) {
        Some((HttpMethod::Delete, s.skip(6)))
    } else if starts_ic(s, method_token(HttpMethod::Connect)) {
        Some((HttpMethod::Connect, s.skip(7)))
    } else if starts_ic(s, method_token(HttpMethod::Options)) {
        Some((HttpMethod::Options, s.skip(7)))
    } else if starts_ic(s, method_token(HttpMethod::Trace)) {
        Some((HttpMethod::Trace, s.skip(5)))
    } else if starts_ic(s, method_token(HttpMethod::Patch)) {
        Some((HttpMethod::Patch, s.skip(5)))
    } else {
        None
    }
}

impl HttpMethod {
    /// Recognize a method keyword at the front of `value`; an input whose
    /// first token is no keyword is rejected, never defaulted.
    pub fn new(value: &str) -> (r: Result<HttpMethod, ()>)
        ensures
            match parse_method_spec(value@) {
                Some(p) => r == Ok::<HttpMethod, ()>(p.0),
                None => r is Err,
            },
    {
        match HttpMethod::parse(value) {
            Ok((_rest, m)) => Ok(m),
            Err(_) => Err(()),
        }
    }

    /// Parse the method keyword off the front of `src`, case-insensitively,
    /// exactly as `parse_method_spec` describes.
    pub fn parse<'a>(src: &'a str) -> (r: Result<(&'a str, HttpMethod), ParseError>)
        ensures
            match r {
                Ok(p) => parse_method_spec(src@) == Some((p.1, p.0@)),
                Err(_) => parse_method_spec(src@) is None,
            },
    {
        proof {
            reveal_strlit("GET");
            reveal_strlit("HEAD");
            reveal_strlit("POST");
            reveal_strlit("PUT");
            reveal_strlit("DELETE");
            reveal_strlit("CONNECT");
            reveal_strlit("OPTIONS");
            reveal_strlit("TRACE");
            reveal_strlit("PATCH");
            assert("GET"@ =~= method_token(HttpMethod::Get));
            assert("HEAD"@ =~= method_token(HttpMethod::Head));
            assert("POST"@ =~= method_token(HttpMethod::Post));
            assert("PUT"@ =~= method_token(HttpMethod::Put));
            assert("DELETE"@ =~= method_token(HttpMethod::Delete));
            assert("CONNECT"@ =~= method_token(HttpMethod::Connect));
            assert("OPTIONS"@ =~= method_token(HttpMethod::Options));
            assert("TRACE"@ =~= method_token(HttpMethod::Trace));
            assert("PATCH"@ =~= method_token(HttpMethod::Patch));
            assert(src@.skip(0) =~= src@);
        }
        let len = src.unicode_len();
        if starts_with_ic(src, 0, "GET") {
            let rest = src.substring_char(3, len);
            proof {
                assert(rest@ =~= src@.skip(3));
            }
            Ok((rest, HttpMethod::Get))
        } else if starts_with_ic(src, 0, "HEAD") {
            let rest = src.substring_char(4, len);
            proof {
                assert(rest@ =~= src@.skip(4));
            }
            Ok((rest, HttpMethod::Head))
        } else if starts_with_ic(src, 0, "POST") {
            let rest = src.substring_char(4, len);
            proof {
                assert(rest@ =~= src@.skip(4));
            }
            Ok((rest, HttpMethod::Post))
        } else if starts_with_ic(src, 0, "PUT") {
            let rest = src.substring_char(3, len);
            proof {
                assert(rest@ =~= src@.skip(3));
            }
            Ok((rest, HttpMethod::Put))
        } else if starts_with_ic(src, 0, "DELETE") {
            let rest = src.substring_char(6, len);
            proof {
                assert(rest@ =~= src@.skip(6));
            }
            Ok((rest, HttpMethod::Delete))
        } else if starts_with_ic(src, 0, "CONNECT") {
            let rest = src.substring_char(7, len);
            proof {
                assert(rest@ =~= src@.skip(7));
            }
            Ok((rest, HttpMethod::Connect))
        } else if starts_with_ic(src, 0, "OPTIONS") {
            let rest = src.substring_char(7, len);
            proof {
                assert(rest@ =~= src@.skip(7));
            }
            Ok((rest, HttpMethod::Options))
        } else if starts_with_ic(src, 0, "TRACE") {
            let rest = src.substring_char(5, len);
            proof {
                assert(rest@ =~= src@.skip(5));
            }
            Ok((rest, HttpMethod::Trace))
        } else if starts_with_ic(src, 0, "PATCH") {
            let rest = src.substring_char(5, len);
            proof {
                assert(rest@ =~= src@.skip(5));
            }
            Ok((rest, HttpMethod::Patch))
        } else {
            Err(ParseError::Malformed)
        }
    }

    /// The upper-case keyword as a string slice.
    pub fn token_text(&self) -> (r: &'static str)
        ensures
            r@ == method_token(*self),
    {
        let s: &'static str = match self {
            HttpMethod::Get => "GET",
            HttpMethod::Head => "HEAD",
            HttpMethod::Post => "POST",
            HttpMethod::Put => "PUT",
            HttpMethod::Delete => "DELETE",
            HttpMethod::Connect => "CONNECT",
            HttpMethod::Options => "OPTIONS",
            HttpMethod::Trace => "TRACE",
            HttpMethod::Patch => "PATCH",
        };
        proof {
            reveal_strlit("GET");
            reveal_strlit("HEAD");
            reveal_strlit("POST");
            reveal_strlit("PUT");
            reveal_strlit("DELETE");
            reveal_strlit("CONNECT");
            reveal_strlit("OPTIONS");
            reveal_strlit("TRACE");
            reveal_strlit("PATCH");
            assert(s@ =~= method_token(*self));
        }
        s
    }

    /// Serialize the upper-case keyword in UTF-8.
    pub fn emit(&self) -> (r: Vec<u8>)
        ensures
            r@ == vstd::utf8::encode_utf8(method_token(*self)),
    {
        self.token_text().as_bytes_vec()
    }
}

/// The views of a sequence of stored headers.
pub open spec fn header_views(hs: Seq<HttpHeader>) -> Seq<HeaderView> {
    Seq::new(hs.len(), |i: int| hs[i]@)
}

/// The marker that terminates the request target: literally ` HTTP/`.
pub open spec fn http_marker() -> Seq<char> {
    seq![' ', 'H', 'T', 'T', 'P', '/']
}

/// A header block in order: headers parsed greedily until a line that is no
/// header, together with the input that remains.
pub open spec fn parse_headers_spec(s: Seq<char>) -> (Seq<HeaderView>, Seq<char>)
    decreases s.len(),
{
    match parse_header_spec(s) {
        Some(p) => {
            if p.1.len() < s.len() {
                let rec = parse_headers_spec(p.1);
                (seq![p.0] + rec.0, rec.1)
            } else {
                (Seq::empty(), s)
            }
        },
        None => (Seq::empty(), s),
    }
}

/// A successfully parsed header line consumes at least one character.
pub proof fn lemma_parse_header_consumes(s: Seq<char>)
    ensures
        parse_header_spec(s) matches Some(p) ==> p.1.len() < s.len(),
{
    crate::text::lemma_count_name_le(s);
    let n = count_name(s);
    if 0 < n <= s.len() {
        let s1 = s.skip(n);
        crate::text::lemma_count_spaces_le(s1);
        let s2 = s1.skip(count_spaces(s1));
        if s2.len() > 0 && s2[0] == ':' {
            let s3 = s2.skip(1);
            crate::text::lemma_count_spaces_le(s3);
            let s4 = s3.skip(count_spaces(s3));
            crate::text::lemma_find_sub_props(s4, crlf());
        }
    }
}

/// Mathematical value of a request line and header block before the target
/// is resolved: the raw target as it stood on the wire.
pub ghost struct RawRequestView {
    pub method: HttpMethod,
    pub target: Seq<char>,
    pub version: Seq<char>,
    pub headers: Seq<HeaderView>,
}

/// Grammar of a whole request: method, a single space, target up to
/// ` HTTP/`, dotted numeric version, CRLF, header block, terminating blank
/// line.
pub open spec fn parse_raw_request_spec(s: Seq<char>) -> Option<(RawRequestView, Seq<char>)> {
    match parse_method_spec(s) {
        None => None,
        Some(m) => {
            let s1 = m.1;
            if s1.len() == 0 || s1[0] != ' ' {
                None
            } else {
                let s2 = s1.skip(1);
                match find_sub(s2, http_marker()) {
                    None => None,
                    Some(i) => {
                        let target = s2.take(i);
                        let s3 = s2.skip(i + 6);
                        let d1 = count_digits(s3);
                        if d1 == 0 {
                            None
                        } else {
                            let major = s3.take(d1);
                            let s4 = s3.skip(d1);
                            if s4.len() == 0 || s4[0] != '.' {
                                None
                            } else {
                                let s5 = s4.skip(1);
                                let d2 = count_digits(s5);
                                if d2 == 0 {
                                    None
                                } else {
                                    let minor = s5.take(d2);
                                    let s6 = s5.skip(d2);
                                    if s6.len() < 2 || s6[0] != '\r' || s6[1] != '\n' {
                                        None
                                    } else {
                                        let s7 = s6.skip(2);
                                        let hr = parse_headers_spec(s7);
                                        if hr.1.len() < 2 || hr.1[0] != '\r' || hr.1[1] != '\n' {
                                            None
                                        } else {
                                            Some(
                                                (
                                                    RawRequestView {
                                                        method: m.0,
                                                        target,
                                                        version: major + seq!['.'] + minor,
                                                        headers: hr.0,
                                                    },
                                                    hr.1.skip(2),
                                                ),
                                            )
                                        }
                                    }
                                }
                            }
                        }
                    },
                }
            }
        },
    }
}

/// Mathematical value of a request whose target has been resolved into an
/// absolute path.
pub ghost struct RequestView {
    pub method: HttpMethod,
    pub path: Seq<char>,
    pub version: Seq<char>,
    pub headers: Seq<HeaderView>,
}

/// The full request grammar: the raw grammar, then resolution of the target
/// against the fixed authority. A target that cannot be joined, or whose
/// joined path is not a wire-safe absolute path (a target carrying its own
/// opaque scheme), is rejected.
pub open spec fn parse_request_spec(s: Seq<char>) -> Option<(RequestView, Seq<char>)> {
    match parse_raw_request_spec(s) {
        None => None,
        Some(p) => match crate::net::joined_path(p.0.target) {
            Some(path) => if crate::net::wire_safe_path(path) {
                Some(
                    (
                        RequestView {
                            method: p.0.method,
                            path,
                            version: p.0.version,
                            headers: p.0.headers,
                        },
                        p.1,
                    ),
                )
            } else {
                None
            },
            None => None,
        },
    }
}

/// A parsed request: method, normalized absolute path, protocol version and
/// headers in arrival order. Immutable once parsed.
#[derive(Debug)]
pub struct HttpRequest {
    pub method: HttpMethod,
    pub path: String,
    pub version: String,
    pub headers: Vec<HttpHeader>,
}

impl View for HttpRequest {
    type V = RequestView;

    open spec fn view(&self) -> RequestView {
        RequestView {
            method: self.method,
            path: self.path@,
            version: self.version@,
            headers: header_views(self.headers@),
        }
    }
}

/// Parse a header block greedily off the front of `src`.
fn parse_header_block<'a>(src: &'a str) -> (r: (Vec<HttpHeader>, &'a str))
    ensures
        parse_headers_spec(src@).0 == header_views(r.0@),
        parse_headers_spec(src@).1 == r.1@,
{
    let ghost s0 = src@;
    let mut cur = src;
    let mut headers: Vec<HttpHeader> = Vec::new();
    proof {
        assert(header_views(headers@) =~= Seq::<HeaderView>::empty());
    }
    loop
        invariant
            s0 == src@,
            parse_headers_spec(s0).0 =~= header_views(headers@) + parse_headers_spec(cur@).0,
            parse_headers_spec(s0).1 == parse_headers_spec(cur@).1,
        decreases cur@.len(),
    {
        match HttpHeader::parse(cur) {
            Ok(p) => {
                proof {
                    lemma_parse_header_consumes(cur@);
                }
                let ghost before = headers@;
                headers.push(p.1);
                proof {
                    assert(header_views(headers@) =~= header_views(before) + seq![p.1@]);
                    assert(header_views(before) + (seq![p.1@] + parse_headers_spec(p.0@).0)
                        =~= (header_views(before) + seq![p.1@]) + parse_headers_spec(p.0@).0);
                }
                cur = p.0;
            },
            Err(_) => {
                proof {
                    assert(parse_headers_spec(cur@).0 =~= Seq::<HeaderView>::empty());
                    assert(parse_headers_spec(cur@).1 == cur@);
                    assert(header_views(headers@) + Seq::<HeaderView>::empty() =~= header_views(
                        headers@,
                    ));
                    assert(parse_headers_spec(s0).0 == header_views(headers@));
                    assert(parse_headers_spec(s0).1 == cur@);
                    assert(parse_headers_spec(s0) == (header_views(headers@), cur@));
                }
                return (headers, cur);
            },
        }
    }
}

impl HttpRequest {
    /// Parse a whole request from `value`, discarding whatever follows it.
    pub fn new(value: &str) -> (r: Result<HttpRequest, ()>)
        ensures
            match parse_request_spec(value@) {
                Some(p) => r matches Ok(req) && req@ == p.0,
                None => r is Err,
            },
            r matches Ok(req) ==> crate::net::wire_safe_path(req@.path),
    {
        match HttpRequest::parse(value) {
            Ok(p) => Ok(p.1),
            Err(_) => Err(()),
        }
    }

    /// Parse a request off the front of `src`, exactly as
    /// `parse_request_spec` describes: grammar first, then resolution of the
    /// target against the fixed authority.
    #[verifier::rlimit(100)]
    #[verifier::spinoff_prover]
    pub fn parse<'a>(src: &'a str) -> (r: Result<(&'a str, HttpRequest), ParseError>)
        ensures
            match r {
                Ok(p) => parse_request_spec(src@) == Some((p.1@, p.0@)),
                Err(_) => parse_request_spec(src@) is None,
            },
            r matches Ok(p) ==> crate::net::wire_safe_path(p.1@.path),
    {
        proof {
            reveal_strlit(" HTTP/");
            assert(" HTTP/"@ =~= http_marker());
        }
        let (after_m, method) = match HttpMethod::parse(src) {
            Ok(p) => p,
            Err(_) => {
                return Err(ParseError::Malformed);
            },
        };
        let alen = after_m.unicode_len();
        if alen == 0 {
            return Err(ParseError::Malformed);
        }
        if after_m.get_char(0) != ' ' {
            return Err(ParseError::Malformed);
        }
        let sp: usize = 1;
        let ghost s2 = after_m@.skip(sp as int);
        let i = match find_pattern(after_m, sp, " HTTP/") {
            Some(i) => i,
            None => {
                return Err(ParseError::Malformed);
            },
        };
        let target = after_m.substring_char(sp, i);
        proof {
            assert(target@ =~= s2.take(i - sp));
        }
        let p_ver = i + 6;
        proof {
            assert(s2.skip((i - sp) + 6) =~= after_m@.skip(p_ver as int));
        }
        let d1e = scan_digits(after_m, p_ver);
        if d1e == p_ver {
            return Err(ParseError::Malformed);
        }
        let ghost s3 = after_m@.skip(p_ver as int);
        let ghost s4 = s3.skip(d1e - p_ver);
        proof {
            assert(s4 =~= after_m@.skip(d1e as int));
        }
        if d1e == alen {
            return Err(ParseError::Malformed);
        }
        if after_m.get_char(d1e) != '.' {
            proof {
                assert(s4[0] == after_m@[d1e as int]);
            }
            return Err(ParseError::Malformed);
        }
        proof {
            assert(s4[0] == after_m@[d1e as int]);
        }
        let d2s = d1e + 1;
        proof {
            assert(s4.skip(1) =~= after_m@.skip(d2s as int));
        }
        let d2e = scan_digits(after_m, d2s);
        if d2e == d2s {
            return Err(ParseError::Malformed);
        }
        let ghost s5 = after_m@.skip(d2s as int);
        let ghost s6 = s5.skip(d2e - d2s);
        proof {
            assert(s6 =~= after_m@.skip(d2e as int));
        }
        if alen - d2e < 2 {
            return Err(ParseError::Malformed);
        }
        if after_m.get_char(d2e) != '\r' || after_m.get_char(d2e + 1) != '\n' {
            proof {
                assert(s6[0] == after_m@[d2e as int]);
                assert(s6[1] == after_m@[d2e + 1]);
            }
            return Err(ParseError::Malformed);
        }
        proof {
            assert(s6[0] == after_m@[d2e as int]);
            assert(s6[1] == after_m@[d2e + 1]);
        }
        let hstart = d2e + 2;
        let block = after_m.substring_char(hstart, alen);
        proof {
            assert(block@ =~= s6.skip(2));
        }
        let (headers, after_h) = parse_header_block(block);
        let hlen = after_h.unicode_len();
        if hlen < 2 {
            return Err(ParseError::Malformed);
        }
        if after_h.get_char(0) != '\r' || after_h.get_char(1) != '\n' {
            return Err(ParseError::Malformed);
        }
        let rest = after_h.substring_char(2, hlen);
        proof {
            assert(rest@ =~= after_h@.skip(2));
        }
        let mut version = after_m.substring_char(p_ver, d1e).to_owned();
        version.append(".");
        let minor = after_m.substring_char(d2s, d2e);
        version.append(minor);
        proof {
            reveal_strlit(".");
            assert(after_m@.subrange(p_ver as int, d1e as int) =~= s3.take(d1e - p_ver));
            assert(minor@ =~= s5.take(d2e - d2s));
            assert(version@ =~= s3.take(d1e - p_ver) + seq!['.'] + s5.take(d2e - d2s));
        }
        match crate::net::resolve_target(target) {
            Some(path) => {
                if !crate::net::wire_safe_check(path.as_str()) {
                    return Err(ParseError::Malformed);
                }
                let req = HttpRequest { method, path, version, headers };
                proof {
                    let spec_req = parse_request_spec(src@)->Some_0.0;
                    assert(req@ == spec_req);
                }
                Ok((rest, req))
            },
            None => Err(ParseError::Malformed),
        }
    }

    /// Serialize: request line, headers in order, a blank line; in UTF-8.
    pub fn emit(&self) -> (r: Vec<u8>)
        ensures
            r@ == vstd::utf8::encode_utf8(request_emit_chars(self@)),
    {
        let mut s = String::from_str(self.method.token_text());
        s.append(" ");
        s.append(self.path.as_str());
        s.append(" HTTP/");
        s.append(self.version.as_str());
        s.append("\r\n");
        proof {
            reveal_strlit(" ");
            reveal_strlit(" HTTP/");
            reveal_strlit("\r\n");
        }
        let ghost head = method_token(self.method) + seq![' '] + self.path@ + http_marker()
            + self.version@ + crlf();
        proof {
            assert(s@ =~= head);
        }
        let mut k: usize = 0;
        while k < self.headers.len()
            invariant
                0 <= k <= self.headers@.len(),
                s@ == head + headers_emit_chars(header_views(self.headers@.take(k as int))),
            decreases self.headers@.len() - k,
        {
            let line = self.headers[k].emit_text();
            s.append(line.as_str());
            proof {
                lemma_headers_emit_push(
                    header_views(self.headers@.take(k as int)),
                    self.headers@[k as int]@,
                );
                assert(header_views(self.headers@.take(k + 1)) =~= header_views(
                    self.headers@.take(k as int),
                ).push(self.headers@[k as int]@));
            }
            k += 1;
        }
        s.append("\r\n");
        proof {
            assert(self.headers@.take(self.headers@.len() as int) =~= self.headers@);
            assert(s@ =~= request_emit_chars(self@));
        }
        s.as_str().as_bytes_vec()
    }
}

/// Serialized form of a header block: the lines in order.
pub open spec fn headers_emit_chars(hs: Seq<HeaderView>) -> Seq<char>
    decreases hs.len(),
{
    if hs.len() == 0 {
        Seq::empty()
    } else {
        header_emit_chars(hs[0]) + headers_emit_chars(hs.drop_first())
    }
}

/// Emitting one more header appends one more line.
pub proof fn lemma_headers_emit_push(hs: Seq<HeaderView>, h: HeaderView)
    ensures
        headers_emit_chars(hs.push(h)) == headers_emit_chars(hs) + header_emit_chars(h),
    decreases hs.len(),
{
    if hs.len() == 0 {
        let x = hs.push(h);
        assert(x.drop_first() =~= Seq::<HeaderView>::empty());
        assert(x[0] == h);
        assert(headers_emit_chars(Seq::<HeaderView>::empty()) == Seq::<char>::empty());
        assert(headers_emit_chars(x) == header_emit_chars(h) + Seq::<char>::empty());
        assert(headers_emit_chars(x) =~= headers_emit_chars(hs) + header_emit_chars(h));
    } else {
        lemma_headers_emit_push(hs.drop_first(), h);
        assert(hs.push(h).drop_first() =~= hs.drop_first().push(h));
        assert(hs.push(h)[0] == hs[0]);
        assert(header_emit_chars(hs[0]) + (headers_emit_chars(hs.drop_first())
            + header_emit_chars(h)) =~= (header_emit_chars(hs[0]) + headers_emit_chars(
            hs.drop_first(),
        )) + header_emit_chars(h));
        assert(headers_emit_chars(hs.push(h)) == header_emit_chars(hs[0]) + headers_emit_chars(
            hs.drop_first().push(h),
        ));
        assert(headers_emit_chars(hs.push(h)) =~= headers_emit_chars(hs) + header_emit_chars(h));
    }
}

/// Serialized form of a whole request.
pub open spec fn request_emit_chars(r: RequestView) -> Seq<char> {
    method_token(r.method) + seq![' '] + r.path + http_marker() + r.version + crlf()
        + headers_emit_chars(r.headers) + crlf()
}

/// Mathematical value of a response or of a builder: protocol version,
/// status code, headers in stored order, body bytes.
pub ghost struct ResponseView {
    pub version: Seq<char>,
    pub status: int,
    pub headers: Seq<HeaderView>,
    pub body: Seq<u8>,
}

/// The value stored under `name`, scanning headers in stored order.
pub open spec fn header_lookup(hs: Seq<HeaderView>, name: Seq<char>) -> Option<Seq<char>>
    decreases hs.len(),
{
    if hs.len() == 0 {
        None
    } else if hs[0].name == name {
        Some(hs[0].value)
    } else {
        header_lookup(hs.drop_first(), name)
    }
}

/// Overwrite-by-name: replace the value of the first header with this name,
/// keeping its position; append a new header when the name is absent.
pub open spec fn header_upsert(hs: Seq<HeaderView>, name: Seq<char>, value: Seq<char>) -> Seq<
    HeaderView,
>
    decreases hs.len(),
{
    if hs.len() == 0 {
        seq![HeaderView { name, value }]
    } else if hs[0].name == name {
        seq![HeaderView { name, value }] + hs.drop_first()
    } else {
        seq![hs[0]] + header_upsert(hs.drop_first(), name, value)
    }
}

/// A lookup that stops at index `i` returns the value stored there.
pub proof fn lemma_header_lookup_at(hs: Seq<HeaderView>, name: Seq<char>, i: int)
    requires
        0 <= i < hs.len(),
        hs[i].name == name,
        forall|j: int| 0 <= j < i ==> (#[trigger] hs[j]).name != name,
    ensures
        header_lookup(hs, name) == Some(hs[i].value),
    decreases i,
{
    if i > 0 {
        let t = hs.drop_first();
        assert forall|j: int| 0 <= j < i - 1 implies (#[trigger] t[j]).name != name by {
            assert(t[j] == hs[j + 1]);
        }
        assert(t[i - 1] == hs[i]);
        lemma_header_lookup_at(t, name, i - 1);
    }
}

/// A name stored nowhere is not found.
pub proof fn lemma_header_lookup_none(hs: Seq<HeaderView>, name: Seq<char>)
    requires
        forall|j: int| 0 <= j < hs.len() ==> (#[trigger] hs[j]).name != name,
    ensures
        header_lookup(hs, name) is None,
    decreases hs.len(),
{
    if hs.len() > 0 {
        let t = hs.drop_first();
        assert forall|j: int| 0 <= j < t.len() implies (#[trigger] t[j]).name != name by {
            assert(t[j] == hs[j + 1]);
        }
        lemma_header_lookup_none(t, name);
    }
}

/// What a lookup sees after an upsert: the written value under the written
/// name, everything else unchanged.
pub proof fn lemma_header_upsert_lookup(
    hs: Seq<HeaderView>,
    name: Seq<char>,
    value: Seq<char>,
    n2: Seq<char>,
)
    ensures
        header_lookup(header_upsert(hs, name, value), n2) == if n2 == name {
            Some(value)
        } else {
            header_lookup(hs, n2)
        },
    decreases hs.len(),
{
    let up = header_upsert(hs, name, value);
    if hs.len() == 0 {
        assert(up[0] == (HeaderView { name, value }));
        assert(up.drop_first() =~= Seq::<HeaderView>::empty());
        assert(header_lookup(Seq::<HeaderView>::empty(), n2) is None);
        assert(header_lookup(hs, n2) is None);
    } else if hs[0].name == name {
        assert(up[0] == (HeaderView { name, value }));
        assert(up.drop_first() =~= hs.drop_first());
        if n2 != name && n2 != hs[0].name {
        }
    } else {
        lemma_header_upsert_lookup(hs.drop_first(), name, value, n2);
        assert(up[0] == hs[0]);
        assert(up.drop_first() =~= header_upsert(hs.drop_first(), name, value));
    }
}

/// When the name sits at index `i` and nowhere earlier, an upsert is an
/// update in place.
pub proof fn lemma_header_upsert_at(hs: Seq<HeaderView>, name: Seq<char>, value: Seq<char>, i: int)
    requires
        0 <= i < hs.len(),
        hs[i].name == name,
        forall|j: int| 0 <= j < i ==> (#[trigger] hs[j]).name != name,
    ensures
        header_upsert(hs, name, value) == hs.update(i, HeaderView { name, value }),
    decreases i,
{
    if i == 0 {
        assert(seq![HeaderView { name, value }] + hs.drop_first() =~= hs.update(
            0,
            HeaderView { name, value },
        ));
    } else {
        let t = hs.drop_first();
        assert forall|j: int| 0 <= j < i - 1 implies (#[trigger] t[j]).name != name by {
            assert(t[j] == hs[j + 1]);
        }
        assert(t[i - 1] == hs[i]);
        lemma_header_upsert_at(t, name, value, i - 1);
        assert(seq![hs[0]] + t.update(i - 1, HeaderView { name, value }) =~= hs.update(
            i,
            HeaderView { name, value },
        ));
    }
}

/// When the name is absent, an upsert is an append.
pub proof fn lemma_header_upsert_append(hs: Seq<HeaderView>, name: Seq<char>, value: Seq<char>)
    requires
        forall|j: int| 0 <= j < hs.len() ==> (#[trigger] hs[j]).name != name,
    ensures
        header_upsert(hs, name, value) == hs.push(HeaderView { name, value }),
    decreases hs.len(),
{
    if hs.len() == 0 {
        assert(header_upsert(hs, name, value) =~= hs.push(HeaderView { name, value }));
    } else {
        let t = hs.drop_first();
        assert forall|j: int| 0 <= j < t.len() implies (#[trigger] t[j]).name != name by {
            assert(t[j] == hs[j + 1]);
        }
        lemma_header_upsert_append(t, name, value);
        assert(seq![hs[0]] + t.push(HeaderView { name, value }) =~= hs.push(
            HeaderView { name, value },
        ));
    }
}

/// Overwrite the first header named `name` in place, or append a new one.
fn upsert_header(headers: &mut Vec<HttpHeader>, name: &str, value: &str)
    ensures
        header_views(final(headers)@) == header_upsert(header_views(old(headers)@), name@, value@),
{
    let mut i: usize = 0;
    while i < headers.len()
        invariant
            0 <= i <= headers@.len(),
            headers@ == old(headers)@,
            forall|j: int| 0 <= j < i ==> (#[trigger] header_views(headers@)[j]).name != name@,
        decreases headers@.len() - i,
    {
        if crate::text::str_eq(headers[i].name.as_str(), name) {
            headers.set(i, HttpHeader::new(name, value));
            proof {
                lemma_header_upsert_at(header_views(old(headers)@), name@, value@, i as int);
                assert(header_views(headers@) =~= header_views(old(headers)@).update(
                    i as int,
                    HeaderView { name: name@, value: value@ },
                ));
            }
            return ;
        }
        i += 1;
    }
    headers.push(HttpHeader::new(name, value));
    proof {
        lemma_header_upsert_append(header_views(old(headers)@), name@, value@);
        assert(header_views(headers@) =~= header_views(old(headers)@).push(
            HeaderView { name: name@, value: value@ },
        ));
    }
}

/// The stored value under `name`, cloned out.
fn get_header(headers: &Vec<HttpHeader>, name: &str) -> (r: Option<String>)
    ensures
        match r {
            Some(v) => header_lookup(header_views(headers@), name@) == Some(v@),
            None => header_lookup(header_views(headers@), name@) is None,
        },
{
    let mut i: usize = 0;
    while i < headers.len()
        invariant
            0 <= i <= headers@.len(),
            forall|j: int| 0 <= j < i ==> (#[trigger] header_views(headers@)[j]).name != name@,
        decreases headers@.len() - i,
    {
        if crate::text::str_eq(headers[i].name.as_str(), name) {
            proof {
                lemma_header_lookup_at(header_views(headers@), name@, i as int);
            }
            return Some(headers[i].value.clone());
        }
        i += 1;
    }
    proof {
        lemma_header_lookup_none(header_views(headers@), name@);
    }
    None
}

/// What `build` produces: `Content-Length` set from the exact body length,
/// and a default `Content-Type` injected when none was set.
pub open spec fn build_spec(b: ResponseView) -> ResponseView {
    let hs1 = header_upsert(
        b.headers,
        "Content-Length"@,
        crate::text::dec_chars(b.body.len() as int),
    );
    let hs2 = if header_lookup(hs1, "Content-Type"@) is Some {
        hs1
    } else {
        header_upsert(hs1, "Content-Type"@, "application/octet-stream"@)
    };
    ResponseView { version: b.version, status: b.status, headers: hs2, body: b.body }
}

/// A mutable accumulator for a response; `build` freezes it into an
/// immutable `HttpResponse` and computes the framing headers.
#[derive(Debug)]
pub struct HttpResponseBuilder {
    version: String,
    status: HttpStatus,
    headers: Vec<HttpHeader>,
    body: Vec<u8>,
}

impl View for HttpResponseBuilder {
    type V = ResponseView;

    closed spec fn view(&self) -> ResponseView {
        ResponseView {
            version: self.version@,
            status: self.status.value as int,
            headers: header_views(self.headers@),
            body: self.body@,
        }
    }
}

impl HttpResponseBuilder {
    /// A fresh accumulator: version 1.1, status 200, no headers, empty body.
    pub fn new() -> (r: HttpResponseBuilder)
        ensures
            r@ == (ResponseView {
                version: "1.1"@,
                status: 200,
                headers: Seq::empty(),
                body: Seq::empty(),
            }),
    {
        let r = HttpResponseBuilder {
            version: "1.1".to_owned(),
            status: HttpStatus { value: 200 },
            headers: Vec::new(),
            body: Vec::new(),
        };
        proof {
            assert(header_views(r.headers@) =~= Seq::<HeaderView>::empty());
        }
        r
    }

    /// Set the protocol version.
    pub fn version(&mut self, version: &str)
        ensures
            final(self)@ == (ResponseView { version: version@, ..old(self)@ }),
    {
        self.version = version.to_owned();
    }

    /// Set the status; codes off the registry are the caller's error.
    pub fn status(&mut self, status: usize)
        requires
            valid_status(status as int),
        ensures
            final(self)@ == (ResponseView { status: status as int, ..old(self)@ }),
    {
        self.status = HttpStatus { value: status };
    }

    /// Set a header, overwriting by name.
    pub fn header(&mut self, header_name: &str, header_value: &str)
        ensures
            final(self)@ == (ResponseView {
                headers: header_upsert(old(self)@.headers, header_name@, header_value@),
                ..old(self)@
            }),
    {
        upsert_header(&mut self.headers, header_name, header_value);
    }

    /// Set the body bytes.
    pub fn body(&mut self, body: Vec<u8>)
        ensures
            final(self)@ == (ResponseView { body: body@, ..old(self)@ }),
    {
        self.body = body;
    }

    /// Freeze into an immutable response: stamp `Content-Length` with the
    /// exact body length and inject a default `Content-Type` if none is set.
    pub fn build(self) -> (r: HttpResponse)
        ensures
            r@ == build_spec(self@),
            header_lookup(r@.headers, "Content-Length"@) == Some(
                crate::text::dec_chars(self@.body.len() as int),
            ),
            header_lookup(r@.headers, "Content-Type"@) is Some,
            r@.body == self@.body,
            r@.status == self@.status,
            r@.version == self@.version,
    {
        let ghost b0 = self@;
        let len_str = crate::text::usize_to_string(self.body.len());
        let mut b = self;
        upsert_header(&mut b.headers, "Content-Length", len_str.as_str());
        let ghost hs1 = header_views(b.headers@);
        let ct = get_header(&b.headers, "Content-Type");
        if ct.is_none() {
            upsert_header(&mut b.headers, "Content-Type", "application/octet-stream");
        }
        let r = HttpResponse { version: b.version, status: b.status, headers: b.headers, body: b.body };
        proof {
            reveal_strlit("Content-Length");
            reveal_strlit("Content-Type");
            assert("Content-Length"@.len() == 14);
            assert("Content-Type"@.len() == 12);
            lemma_header_upsert_lookup(
                b0.headers,
                "Content-Length"@,
                crate::text::dec_chars(b0.body.len() as int),
                "Content-Length"@,
            );
            if header_lookup(hs1, "Content-Type"@) is None {
                lemma_header_upsert_lookup(
                    hs1,
                    "Content-Type"@,
                    "application/octet-stream"@,
                    "Content-Type"@,
                );
                lemma_header_upsert_lookup(
                    hs1,
                    "Content-Type"@,
                    "application/octet-stream"@,
                    "Content-Length"@,
                );
            }
        }
        r
    }
}

/// Serialized head of a response: status line, headers in stored order, and
/// the blank line.
pub open spec fn response_head_chars(v: ResponseView) -> Seq<char> {
    "HTTP/"@ + v.version + seq![' '] + reason_chars(v.status) + crlf() + headers_emit_chars(
        v.headers,
    ) + crlf()
}

/// Serialized response: the head in UTF-8 followed by the raw body bytes.
pub open spec fn response_emit_bytes(v: ResponseView) -> Seq<u8> {
    vstd::utf8::encode_utf8(response_head_chars(v)) + v.body
}

/// An immutable response. Every built response carries a `Content-Length`
/// equal to its exact body length and a `Content-Type`.
#[derive(Debug)]
pub struct HttpResponse {
    version: String,
    status: HttpStatus,
    headers: Vec<HttpHeader>,
    body: Vec<u8>,
}

impl View for HttpResponse {
    type V = ResponseView;

    closed spec fn view(&self) -> ResponseView {
        ResponseView {
            version: self.version@,
            status: self.status.value as int,
            headers: header_views(self.headers@),
            body: self.body@,
        }
    }
}

impl HttpResponse {
    /// Start building a response.
    pub fn new() -> (r: HttpResponseBuilder)
        ensures
            r@ == (ResponseView {
                version: "1.1"@,
                status: 200,
                headers: Seq::empty(),
                body: Seq::empty(),
            }),
    {
        HttpResponseBuilder::new()
    }

    /// Overwrite a header by name after the response was built; used to stamp
    /// the uniform server identification on every outgoing response.
    pub fn set_header(&mut self, header_name: &str, header_value: &str)
        ensures
            final(self)@ == (ResponseView {
                headers: header_upsert(old(self)@.headers, header_name@, header_value@),
                ..old(self)@
            }),
    {
        upsert_header(&mut self.headers, header_name, header_value);
    }

    /// The status code.
    pub fn status_code(&self) -> (r: usize)
        ensures
            r as int == self@.status,
    {
        self.status.value
    }

    /// The body bytes.
    pub fn body_bytes(&self) -> (r: &Vec<u8>)
        ensures
            r@ == self@.body,
    {
        &self.body
    }

    /// The stored value under a header name, if any.
    pub fn header_value(&self, name: &str) -> (r: Option<String>)
        ensures
            match r {
                Some(v) => header_lookup(self@.headers, name@) == Some(v@),
                None => header_lookup(self@.headers, name@) is None,
            },
    {
        get_header(&self.headers, name)
    }

    /// Serialize: status line, headers in stored order, blank line, body.
    pub fn emit(&self) -> (r: Vec<u8>)
        ensures
            r@ == response_emit_bytes(self@),
    {
        let mut s = String::from_str("HTTP/");
        s.append(self.version.as_str());
        s.append(" ");
        s.append(self.status.reason_text());
        s.append("\r\n");
        proof {
            reveal_strlit(" ");
            reveal_strlit("\r\n");
        }
        let ghost head = "HTTP/"@ + self.version@ + seq![' '] + reason_chars(
            self.status.value as int,
        ) + crlf();
        proof {
            assert(s@ =~= head);
        }
        let mut k: usize = 0;
        while k < self.headers.len()
            invariant
                0 <= k <= self.headers@.len(),
                s@ == head + headers_emit_chars(header_views(self.headers@.take(k as int))),
            decreases self.headers@.len() - k,
        {
            let line = self.headers[k].emit_text();
            s.append(line.as_str());
            proof {
                lemma_headers_emit_push(
                    header_views(self.headers@.take(k as int)),
                    self.headers@[k as int]@,
                );
                assert(header_views(self.headers@.take(k + 1)) =~= header_views(
                    self.headers@.take(k as int),
                ).push(self.headers@[k as int]@));
            }
            k += 1;
        }
        s.append("\r\n");
        proof {
            assert(self.headers@.take(self.headers@.len() as int) =~= self.headers@);
            assert(s@ =~= response_head_chars(self@));
        }
        let mut out = s.as_str().as_bytes_vec();
        let mut j: usize = 0;
        while j < self.body.len()
            invariant
                0 <= j <= self.body@.len(),
                out@ == vstd::utf8::encode_utf8(response_head_chars(self@)) + self.body@.take(
                    j as int,
                ),
            decreases self.body@.len() - j,
        {
            out.push(self.body[j]);
            proof {
                assert(self.body@.take(j + 1) =~= self.body@.take(j as int).push(
                    self.body@[j as int],
                ));
                assert(out@ =~= vstd::utf8::encode_utf8(response_head_chars(self@))
                    + self.body@.take(j + 1));
            }
            j += 1;
        }
        proof {
            assert(self.body@.take(self.body@.len() as int) =~= self.body@);
        }
        out
    }
}

/// A header the grammar can emit and re-read: a non-empty name of
/// name-characters, and a value that does not begin with a space or tab and
/// holds no CRLF.
pub open spec fn header_wf(h: HeaderView) -> bool {
    &&& h.name.len() >= 1
    &&& forall|i: int| 0 <= i < h.name.len() ==> is_name_char(#[trigger] h.name[i])
    &&& h.value.len() == 0 || !is_space_char(h.value[0])
    &&& forall|j: int|
        0 <= j && j + 2 <= h.value.len() ==> #[trigger] h.value.subrange(j, j + 2) != crlf()
}

/// A version the grammar can emit and re-read: one dot, digits on both sides.
pub open spec fn version_wf(v: Seq<char>) -> bool {
    exists|k: int|
        {
            &&& 0 < k < v.len() - 1
            &&& #[trigger] v[k] == '.'
            &&& forall|j: int| 0 <= j < k ==> is_digit_char(#[trigger] v[j])
            &&& forall|j: int| k < j < v.len() ==> is_digit_char(#[trigger] v[j])
        }
}

/// A request the grammar can emit and re-read: a wire-safe path, a dotted
/// numeric version, and well-formed headers.
pub open spec fn request_wf(r: RequestView) -> bool {
    &&& crate::net::wire_safe_path(r.path)
    &&& version_wf(r.version)
    &&& forall|i: int| 0 <= i < r.headers.len() ==> header_wf(#[trigger] r.headers[i])
}

/// A keyword is a case-insensitive prefix of itself followed by anything.
proof fn lemma_starts_ic_self(tok: Seq<char>, rest: Seq<char>)
    ensures
        starts_ic(tok + rest, tok),
{
    assert forall|i: int| 0 <= i < tok.len() implies eq_ic((tok + rest)[i], tok[i]) by {
        assert((tok + rest)[i] == tok[i]);
    }
}

/// A keyword whose character at `j` cannot match is no prefix.
proof fn lemma_not_prefix(s: Seq<char>, kw: Seq<char>, j: int)
    requires
        0 <= j < kw.len(),
        j < s.len() ==> !eq_ic(s[j], kw[j]),
    ensures
        !starts_ic(s, kw),
{
}

/// Parsing a serialized method keyword yields that method and the rest.
pub proof fn lemma_method_round_trip(m: HttpMethod, rest: Seq<char>)
    ensures
        parse_method_spec(method_token(m) + rest) == Some((m, rest)),
{
    let s = method_token(m) + rest;
    lemma_starts_ic_self(method_token(m), rest);
    assert(s.skip(method_token(m).len() as int) =~= rest);
    match m {
        HttpMethod::Get => {},
        HttpMethod::Head => {
            lemma_not_prefix(s, method_token(HttpMethod::Get), 0);
        },
        HttpMethod::Post => {
            lemma_not_prefix(s, method_token(HttpMethod::Get), 0);
            lemma_not_prefix(s, method_token(HttpMethod::Head), 0);
        },
        HttpMethod::Put => {
            lemma_not_prefix(s, method_token(HttpMethod::Get), 0);
            lemma_not_prefix(s, method_token(HttpMethod::Head), 0);
            lemma_not_prefix(s, method_token(HttpMethod::Post), 1);
        },
        HttpMethod::Delete => {
            lemma_not_prefix(s, method_token(HttpMethod::Get), 0);
            lemma_not_prefix(s, method_token(HttpMethod::Head), 0);
            lemma_not_prefix(s, method_token(HttpMethod::Post), 0);
            lemma_not_prefix(s, method_token(HttpMethod::Put), 0);
        },
        HttpMethod::Connect => {
            lemma_not_prefix(s, method_token(HttpMethod::Get), 0);
            lemma_not_prefix(s, method_token(HttpMethod::Head), 0);
            lemma_not_prefix(s, method_token(HttpMethod::Post), 0);
            lemma_not_prefix(s, method_token(HttpMethod::Put), 0);
            lemma_not_prefix(s, method_token(HttpMethod::Delete), 0);
        },
        HttpMethod::Options => {
            lemma_not_prefix(s, method_token(HttpMethod::Get), 0);
            lemma_not_prefix(s, method_token(HttpMethod::Head), 0);
            lemma_not_prefix(s, method_token(HttpMethod::Post), 0);
            lemma_not_prefix(s, method_token(HttpMethod::Put), 0);
            lemma_not_prefix(s, method_token(HttpMethod::Delete), 0);
            lemma_not_prefix(s, method_token(HttpMethod::Connect), 0);
        },
        HttpMethod::Trace => {
            lemma_not_prefix(s, method_token(HttpMethod::Get), 0);
            lemma_not_prefix(s, method_token(HttpMethod::Head), 0);
            lemma_not_prefix(s, method_token(HttpMethod::Post), 0);
            lemma_not_prefix(s, method_token(HttpMethod::Put), 0);
            lemma_not_prefix(s, method_token(HttpMethod::Delete), 0);
            lemma_not_prefix(s, method_token(HttpMethod::Connect), 0);
            lemma_not_prefix(s, method_token(HttpMethod::Options), 0);
        },
        HttpMethod::Patch => {
            lemma_not_prefix(s, method_token(HttpMethod::Get), 0);
            lemma_not_prefix(s, method_token(HttpMethod::Head), 0);
            lemma_not_prefix(s, method_token(HttpMethod::Post), 1);
            lemma_not_prefix(s, method_token(HttpMethod::Put), 1);
            lemma_not_prefix(s, method_token(HttpMethod::Delete), 0);
            lemma_not_prefix(s, method_token(HttpMethod::Connect), 0);
            lemma_not_prefix(s, method_token(HttpMethod::Options), 0);
            lemma_not_prefix(s, method_token(HttpMethod::Trace), 0);
        },
    }
}

/// Parsing a serialized header line yields that header and the rest.
pub proof fn lemma_header_round_trip(h: HeaderView, tail: Seq<char>)
    requires
        header_wf(h),
    ensures
        parse_header_spec(header_emit_chars(h) + tail) == Some((h, tail)),
{
    let s = header_emit_chars(h) + tail;
    let n = h.name.len() as int;
    assert forall|j: int| 0 <= j < n implies is_name_char(s[j]) by {
        assert(s[j] == h.name[j]);
    }
    assert(s[n] == ':');
    assert(!is_name_char(':'));
    crate::text::lemma_count_name_is(s, n);
    let s1 = s.skip(n);
    assert(s1[0] == ':');
    crate::text::lemma_count_spaces_is(s1, 0);
    let s2 = s1.skip(count_spaces(s1));
    assert(s2 =~= s1);
    let s3 = s2.skip(1);
    assert(s3 =~= seq![' '] + h.value + crlf() + tail);
    assert(s3[0] == ' ');
    if h.value.len() > 0 {
        assert(s3[1] == h.value[0]);
    } else {
        assert(s3[1] == '\r');
    }
    crate::text::lemma_count_spaces_is(s3, 1);
    let s4 = s3.skip(1);
    assert(s4 =~= h.value + crlf() + tail);
    let v = h.value.len() as int;
    assert(s4.subrange(v, v + 2) =~= crlf());
    assert forall|j: int| 0 <= j < v implies #[trigger] s4.subrange(j, j + 2) != crlf() by {
        if j + 2 <= v {
            assert(s4.subrange(j, j + 2) =~= h.value.subrange(j, j + 2));
        } else {
            assert(s4.subrange(j, j + 2)[1] == s4[j + 1]);
            assert(s4[j + 1] == '\r');
            assert(crlf()[1] == '\n');
        }
    }
    crate::text::lemma_find_sub_at(s4, crlf(), v);
    assert(s.take(n) =~= h.name);
    assert(s4.take(v) =~= h.value);
    assert(s4.skip(v + 2) =~= tail);
    assert(parse_header_spec(s) == Some((HeaderView { name: s.take(n), value: s4.take(v) }, s4.skip(v + 2))));
    assert(HeaderView { name: s.take(n), value: s4.take(v) } == h);
}

/// Parsing a serialized header block yields those headers and the rest,
/// whenever the rest does not begin like another header.
pub proof fn lemma_headers_round_trip(hs: Seq<HeaderView>, tail: Seq<char>)
    requires
        forall|i: int| 0 <= i < hs.len() ==> header_wf(#[trigger] hs[i]),
        tail.len() == 0 || !is_name_char(tail[0]),
    ensures
        parse_headers_spec(headers_emit_chars(hs) + tail) == (hs, tail),
    decreases hs.len(),
{
    let s = headers_emit_chars(hs) + tail;
    if hs.len() == 0 {
        assert(s =~= tail);
        crate::text::lemma_count_name_is(tail, 0);
        assert(parse_header_spec(tail) is None);
        assert(parse_headers_spec(s) == (Seq::<HeaderView>::empty(), tail));
        assert(Seq::<HeaderView>::empty() =~= hs);
    } else {
        let h = hs[0];
        let rest = headers_emit_chars(hs.drop_first()) + tail;
        assert(s =~= header_emit_chars(h) + rest);
        lemma_header_round_trip(h, rest);
        assert(parse_header_spec(s) == Some((h, rest)));
        assert(header_emit_chars(h).len() >= 5);
        assert(rest.len() < s.len());
        assert forall|i: int| 0 <= i < hs.drop_first().len() implies header_wf(
            #[trigger] hs.drop_first()[i],
        ) by {
            assert(hs.drop_first()[i] == hs[i + 1]);
        }
        lemma_headers_round_trip(hs.drop_first(), tail);
        assert(parse_headers_spec(s) == (seq![h] + hs.drop_first(), tail));
        assert(seq![h] + hs.drop_first() =~= hs);
    }
}

/// Parsing a serialized dotted version followed by a CR yields its two digit
/// runs, which reassemble into the version, and leaves the rest untouched.
proof fn lemma_version_segment(v: Seq<char>, t: Seq<char>)
    requires
        version_wf(v),
        t.len() >= 1,
        t[0] == '\r',
    ensures
        ({
            let s3 = v + t;
            let d1 = count_digits(s3);
            let s4 = s3.skip(d1);
            &&& d1 >= 1
            &&& s4.len() > 0
            &&& s4[0] == '.'
            &&& ({
                let s5 = s4.skip(1);
                let d2 = count_digits(s5);
                &&& d2 >= 1
                &&& s3.take(d1) + seq!['.'] + s5.take(d2) == v
                &&& s5.skip(d2) == t
            })
        }),
{
    let s3 = v + t;
    let k = choose|k: int|
        {
            &&& 0 < k < v.len() - 1
            &&& #[trigger] v[k] == '.'
            &&& forall|j: int| 0 <= j < k ==> is_digit_char(#[trigger] v[j])
            &&& forall|j: int| k < j < v.len() ==> is_digit_char(#[trigger] v[j])
        };
    assert forall|j: int| 0 <= j < k implies is_digit_char(s3[j]) by {
        assert(s3[j] == v[j]);
    }
    assert(s3[k] == v[k]);
    assert(!is_digit_char('.'));
    crate::text::lemma_count_digits_is(s3, k);
    let s4 = s3.skip(k);
    assert(s4[0] == '.');
    let s5 = s4.skip(1);
    assert(s5 =~= v.skip(k + 1) + t);
    let k2 = v.len() - k - 1;
    assert forall|j: int| 0 <= j < k2 implies is_digit_char(s5[j]) by {
        assert(s5[j] == v[k + 1 + j]);
    }
    assert(s5[k2] == '\r');
    assert(!is_digit_char('\r'));
    crate::text::lemma_count_digits_is(s5, k2);
    assert(s3.take(k) + seq!['.'] + s5.take(k2) =~= v);
    assert(s5.skip(k2) =~= t);
}

/// Parsing the serialized request line up to the version: the method comes
/// back, the single space is consumed, and the target ends at the marker.
proof fn lemma_request_line_prefix(m: HttpMethod, path: Seq<char>, t: Seq<char>)
    requires
        crate::net::wire_safe_path(path),
    ensures
        ({
            let s = method_token(m) + seq![' '] + path + http_marker() + t;
            let tail1 = seq![' '] + path + http_marker() + t;
            &&& parse_method_spec(s) == Some((m, tail1))
            &&& tail1.len() > 0
            &&& tail1[0] == ' '
            &&& find_sub(tail1.skip(1), http_marker()) == Some(path.len() as int)
            &&& tail1.skip(1).take(path.len() as int) == path
            &&& tail1.skip(1).skip(path.len() as int + 6) == t
        }),
{
    let s = method_token(m) + seq![' '] + path + http_marker() + t;
    let tail1 = seq![' '] + path + http_marker() + t;
    assert(s =~= method_token(m) + tail1);
    lemma_method_round_trip(m, tail1);
    assert(tail1[0] == ' ');
    let s2 = tail1.skip(1);
    assert(s2 =~= path + http_marker() + t);
    let plen = path.len() as int;
    assert(s2.subrange(plen, plen + 6) =~= http_marker());
    assert forall|j: int| 0 <= j < plen implies #[trigger] s2.subrange(j, j + 6)
        != http_marker() by {
        assert(s2.subrange(j, j + 6)[0] == s2[j]);
        assert(s2[j] == path[j]);
        assert(crate::net::is_wire_char(path[j]));
        assert(http_marker()[0] == ' ');
    }
    crate::text::lemma_find_sub_at(s2, http_marker(), plen);
    assert(s2.take(plen) =~= path);
    assert(s2.skip(plen + 6) =~= t);
}

/// Round trip of the raw wire grammar: a well-formed request, serialized and
/// re-parsed, yields its exact raw value with no input left over.
#[verifier::spinoff_prover]
pub proof fn lemma_raw_request_round_trip(r: RequestView)
    requires
        request_wf(r),
    ensures
        parse_raw_request_spec(request_emit_chars(r)) == Some(
            (
                RawRequestView {
                    method: r.method,
                    target: r.path,
                    version: r.version,
                    headers: r.headers,
                },
                Seq::<char>::empty(),
            ),
        ),
{
    let s = request_emit_chars(r);
    let t = r.version + crlf() + headers_emit_chars(r.headers) + crlf();
    assert(s =~= method_token(r.method) + seq![' '] + r.path + http_marker() + t);
    lemma_request_line_prefix(r.method, r.path, t);
    let tail1 = seq![' '] + r.path + http_marker() + t;
    let s2 = tail1.skip(1);
    let s3 = s2.skip(r.path.len() as int + 6);
    let t2 = crlf() + headers_emit_chars(r.headers) + crlf();
    assert(t =~= r.version + t2);
    assert(t2[0] == '\r');
    lemma_version_segment(r.version, t2);
    let d1 = count_digits(s3);
    let s4 = s3.skip(d1);
    let s5 = s4.skip(1);
    let d2 = count_digits(s5);
    let s6 = s5.skip(d2);
    assert(s6 == t2);
    assert(s6[0] == '\r');
    assert(s6[1] == '\n');
    let s7 = s6.skip(2);
    assert(s7 =~= headers_emit_chars(r.headers) + crlf());
    assert(crlf()[0] == '\r');
    assert(!is_name_char('\r'));
    lemma_headers_round_trip(r.headers, crlf());
    assert(parse_headers_spec(s7) == (r.headers, crlf()));
    let s8 = crlf();
    assert(s8.len() == 2 && s8[0] == '\r' && s8[1] == '\n');
    assert(s8.skip(2) =~= Seq::<char>::empty());
}

/// Round trip of the wire grammar: a well-formed request, serialized and
/// re-parsed, yields the same structured value with no input left over,
/// whenever its normalized path is a fixed point of target resolution.
pub proof fn lemma_request_round_trip(r: RequestView)
    requires
        request_wf(r),
    ensures
        crate::net::joined_path(r.path) == Some(r.path) ==> parse_request_spec(
            request_emit_chars(r),
        ) == Some((r, Seq::<char>::empty())),
{
    lemma_raw_request_round_trip(r);
    if crate::net::joined_path(r.path) == Some(r.path) {
        assert(parse_request_spec(request_emit_chars(r)) == Some((r, Seq::<char>::empty())));
    }
}

/// A header the grammar accepts is well-formed: what the parser produces,
/// the serializer can carry back to the wire.
pub proof fn lemma_parsed_header_is_wf(s: Seq<char>)
    ensures
        parse_header_spec(s) matches Some(p) ==> header_wf(p.0),
{
    if parse_header_spec(s) is Some {
        let n = count_name(s);
        crate::text::lemma_count_name_props(s);
        let s1 = s.skip(n);
        crate::text::lemma_count_spaces_le(s1);
        let s2 = s1.skip(count_spaces(s1));
        let s3 = s2.skip(1);
        crate::text::lemma_count_spaces_props(s3);
        let s4 = s3.skip(count_spaces(s3));
        crate::text::lemma_find_sub_props(s4, crlf());
        let i = find_sub(s4, crlf())->0;
        let h = (parse_header_spec(s)->0).0;
        assert forall|j: int| 0 <= j < h.name.len() implies is_name_char(
            #[trigger] h.name[j],
        ) by {
            assert(h.name[j] == s[j]);
        }
        if h.value.len() > 0 {
            assert(h.value[0] == s4[0]);
            assert(s4[0] == s3[count_spaces(s3)]);
        }
        assert forall|j: int| 0 <= j && j + 2 <= h.value.len() implies #[trigger] h.value.subrange(
            j,
            j + 2,
        ) != crlf() by {
            assert(h.value.subrange(j, j + 2) =~= s4.subrange(j, j + 2));
        }
    }
}

/// Every header of an accepted header block is well-formed.
pub proof fn lemma_parsed_headers_are_wf(s: Seq<char>)
    ensures
        forall|i: int|
            0 <= i < parse_headers_spec(s).0.len() ==> header_wf(
                #[trigger] parse_headers_spec(s).0[i],
            ),
    decreases s.len(),
{
    lemma_parsed_header_is_wf(s);
    match parse_header_spec(s) {
        Some(p) => {
            if p.1.len() < s.len() {
                lemma_parsed_headers_are_wf(p.1);
                let rec = parse_headers_spec(p.1);
                assert forall|i: int|
                    0 <= i < parse_headers_spec(s).0.len() implies header_wf(
                    #[trigger] parse_headers_spec(s).0[i],
                ) by {
                    if i > 0 {
                        assert(parse_headers_spec(s).0[i] == rec.0[i - 1]);
                    }
                }
            }
        },
        None => {},
    }
}

/// A request the grammar accepts is well-formed — its path is wire-safe,
/// its version dotted digits, its headers re-serializable — so only the
/// fixed-point condition on target resolution separates any accepted
/// request from the round-trip law.
pub proof fn lemma_parsed_request_grammar_is_wf(s: Seq<char>)
    ensures
        parse_request_spec(s) matches Some(p) ==> request_wf(p.0),
{
    if parse_request_spec(s) is Some {
        let m = parse_method_spec(s)->0;
        let s1 = m.1;
        let s2 = s1.skip(1);
        let i = find_sub(s2, http_marker())->0;
        let s3 = s2.skip(i + 6);
        let d1 = count_digits(s3);
        crate::text::lemma_count_digits_props(s3);
        let s4 = s3.skip(d1);
        let s5 = s4.skip(1);
        let d2 = count_digits(s5);
        crate::text::lemma_count_digits_props(s5);
        let s6 = s5.skip(d2);
        let s7 = s6.skip(2);
        lemma_parsed_headers_are_wf(s7);
        let v = s3.take(d1) + seq!['.'] + s5.take(d2);
        assert(v[d1] == '.');
        assert forall|j: int| 0 <= j < d1 implies is_digit_char(#[trigger] v[j]) by {
            assert(v[j] == s3[j]);
        }
        assert forall|j: int| d1 < j < v.len() implies is_digit_char(#[trigger] v[j]) by {
            assert(v[j] == s5[j - d1 - 1]);
        }
        assert(version_wf(v));
        let p = parse_request_spec(s)->0;
        assert(crate::net::wire_safe_path(p.0.path));
    }
}

} // verus!
