//! The request parser: from the bytes of one connection to a `Request`.
use crate::headers::Headers;
use crate::text::bytes_eq;
use crate::text::find;
use crate::text::first_match;
use crate::text::has_match;
use crate::text::lit;
use crate::text::lit_bytes;
use crate::text::lower;
use crate::text::parse_number;
use crate::text::parse_number_bytes;
use crate::text::parts_view;
use crate::text::split;
use crate::text::split_bytes;
use crate::text::trim;
use crate::text::trim_bytes;
use crate::tuples::collect_pair;
use crate::tuples::collect_triple;
use vstd::prelude::*;
use vstd::slice::slice_subrange;
use vstd::slice::slice_to_vec;
use vstd::utf8::valid_utf8;

verus! {

/// Why the bytes of a connection are not a request.
#[derive(Debug, Clone, Copy, PartialEq, Eq, Structural)]
pub enum ParseError {
    /// The first line does not consist of three fields separated by single
    /// spaces.
    MalformedRequestLine,
    /// A header line does not consist of a name and a value separated by one
    /// colon and space.
    MalformedHeaderLine,
    /// The connection ended before the announced number of body bytes.
    TruncatedBody,
    /// The body is not UTF-8 text.
    InvalidBody,
}

/// The method of a request.
#[derive(Debug, Clone, Copy, PartialEq, Eq, Structural)]
pub enum Method {
    Get,
    Post,
    /// Any method that the server does not serve.
    Other,
}

/// A parsed request.
pub struct Request {
    /// The method as it was sent.
    pub ty: Vec<u8>,
    /// The path as it was sent.
    pub path: Vec<u8>,
    /// The headers, by lower-case name.
    pub headers: Headers,
    /// The body: absent unless the request announced a length, and then
    /// possibly empty.
    pub body: Option<Vec<u8>>,
}

/// What a request holds.
pub struct RequestView {
    pub ty: Seq<u8>,
    pub path: Seq<u8>,
    pub headers: Map<Seq<u8>, Seq<u8>>,
    pub body: Option<Seq<u8>>,
}

/// The head of a request: everything before the body.
pub struct HeadView {
    pub ty: Seq<u8>,
    pub path: Seq<u8>,
    pub headers: Map<Seq<u8>, Seq<u8>>,
    /// Where the body starts in the input.
    pub body_start: int,
}

impl View for Request {
    type V = RequestView;

    open spec fn view(&self) -> RequestView {
        RequestView {
            ty: self.ty@,
            path: self.path@,
            headers: self.headers@,
            body: match self.body {
                Some(b) => Some(b@),
                None => None,
            },
        }
    }
}

/// The line feed that ends a line.
pub open spec fn line_feed() -> Seq<u8> {
    seq![10u8]
}

/// The position just behind the line that starts at `from`: behind its line
/// feed, or at the end of the input where no line feed follows.
pub open spec fn line_end(s: Seq<u8>, from: int) -> int {
    if 0 <= from <= s.len() {
        let rest = s.subrange(from, s.len() as int);
        if has_match(rest, line_feed()) {
            from + first_match(rest, line_feed()) + 1
        } else {
            s.len() as int
        }
    } else {
        s.len() as int
    }
}

/// A line without its terminator: a line feed at its end is left out, and
/// with it the carriage return that stands before it.
pub open spec fn line_content(line: Seq<u8>) -> Seq<u8> {
    if line.len() > 0 && line.last() == 10 {
        let body = line.drop_last();
        if body.len() > 0 && body.last() == 13 {
            body.drop_last()
        } else {
            body
        }
    } else {
        line
    }
}

/// The method that the bytes of a request's first field name.
pub open spec fn method_of(ty: Seq<u8>) -> Method {
    if ty == lit("GET") {
        Method::Get
    } else if ty == lit("POST") {
        Method::Post
    } else {
        Method::Other
    }
}

/// The header lines from position `pos` on, added to `acc`, and the position
/// behind the line that ends them. A line that holds nothing but its
/// terminator, or the end of the input, ends the headers. Any other line is
/// split at each colon and space into a name and a value, which are stored
/// without the white space around them.
pub open spec fn parse_headers(s: Seq<u8>, pos: int, acc: Map<Seq<u8>, Seq<u8>>) -> Result<
    (Map<Seq<u8>, Seq<u8>>, int),
    ParseError,
>
    decreases s.len() - pos,
{
    let end = line_end(s, pos);
    if 0 <= pos < end <= s.len() {
        let line = line_content(s.subrange(pos, end));
        if line.len() == 0 {
            Ok((acc, end))
        } else {
            let parts = split(line, lit(": "));
            if parts.len() != 2 {
                Err(ParseError::MalformedHeaderLine)
            } else {
                parse_headers(s, end, acc.insert(lower(trim(parts[0])), trim(parts[1])))
            }
        }
    } else {
        Ok((acc, end))
    }
}

/// The head of the request that `s` starts with.
pub open spec fn parse_head(s: Seq<u8>) -> Result<HeadView, ParseError> {
    let end = line_end(s, 0);
    let fields = split(line_content(s.subrange(0, end)), lit(" "));
    if fields.len() != 3 {
        Err(ParseError::MalformedRequestLine)
    } else {
        match parse_headers(s, end, Map::empty()) {
            Err(e) => Err(e),
            Ok((headers, body_start)) => Ok(
                HeadView { ty: fields[0], path: fields[1], headers, body_start },
            ),
        }
    }
}

/// The number of body bytes that the headers announce: the value of
/// `content-length` where it is a number, and zero where the header is
/// missing or its value is not a number.
pub open spec fn announced_length(headers: Map<Seq<u8>, Seq<u8>>) -> usize {
    if headers.contains_key(lit("content-length")) {
        match parse_number(headers[lit("content-length")]) {
            Some(n) => n,
            None => 0,
        }
    } else {
        0
    }
}

/// The body of a request whose head ends at `pos`.
pub open spec fn parse_body(s: Seq<u8>, pos: int, headers: Map<Seq<u8>, Seq<u8>>) -> Result<
    Option<Seq<u8>>,
    ParseError,
> {
    let n = announced_length(headers);
    if !headers.contains_key(lit("content-length")) {
        Ok(None)
    } else if n == 0 {
        Ok(Some(Seq::empty()))
    } else if pos < 0 || s.len() - pos < n {
        Err(ParseError::TruncatedBody)
    } else if !valid_utf8(s.subrange(pos, pos + n)) {
        Err(ParseError::InvalidBody)
    } else {
        Ok(Some(s.subrange(pos, pos + n)))
    }
}

/// The request that the bytes `s` of a connection hold, or the reason why
/// they hold none.
pub open spec fn parse(s: Seq<u8>) -> Result<RequestView, ParseError> {
    match parse_head(s) {
        Err(e) => Err(e),
        Ok(head) => match parse_body(s, head.body_start, head.headers) {
            Err(e) => Err(e),
            Ok(body) => Ok(
                RequestView { ty: head.ty, path: head.path, headers: head.headers, body },
            ),
        },
    }
}

/// Not verified: calls `std::str::from_utf8` and reports whether it
/// succeeded, which the standard library documents to be the case exactly
/// for well-formed UTF-8.
#[verifier::external_body]
fn is_utf8(bytes: &[u8]) -> (r: bool)
    ensures
        r == valid_utf8(bytes@),
{
    std::str::from_utf8(bytes).is_ok()
}

/// The end of the line that starts at `from`.
fn line_end_at(s: &[u8], from: usize) -> (r: usize)
    requires
        from <= s@.len(),
    ensures
        r == line_end(s@, from as int),
        from <= r <= s@.len(),
        from < s@.len() ==> from < r,
{
    let rest = slice_subrange(s, from, s.len());
    let feed: [u8; 1] = [10];
    assert(feed@ =~= line_feed());
    match find(rest, feed.as_slice()) {
        Some(i) => from + i + 1,
        None => s.len(),
    }
}

/// Takes the terminator off a line.
fn content_of(line: &[u8]) -> (r: &[u8])
    ensures
        r@ == line_content(line@),
{
    let n = line.len();
    if n > 0 && line[n - 1] == 10 {
        if n > 1 && line[n - 2] == 13 {
            assert(line@.drop_last().drop_last() =~= line@.subrange(0, n - 2));
            slice_subrange(line, 0, n - 2)
        } else {
            assert(line@.drop_last() =~= line@.subrange(0, n - 1));
            slice_subrange(line, 0, n - 1)
        }
    } else {
        line
    }
}

/// Whether a line holds nothing but its terminator. Such a line, or the
/// end of the input, ends the head of a request.
pub fn is_blank_line(line: &[u8]) -> (r: bool)
    ensures
        r == (line_content(line@).len() == 0),
{
    content_of(line).len() == 0
}

struct Head {
    ty: Vec<u8>,
    path: Vec<u8>,
    headers: Headers,
    body_start: usize,
}

impl View for Head {
    type V = HeadView;

    closed spec fn view(&self) -> HeadView {
        HeadView {
            ty: self.ty@,
            path: self.path@,
            headers: self.headers@,
            body_start: self.body_start as int,
        }
    }
}

fn read_head(input: &[u8]) -> (r: Result<Head, ParseError>)
    ensures
        match r {
            Ok(head) => parse_head(input@) == Ok::<HeadView, ParseError>(head@)
                && head.body_start <= input@.len() && head.headers.wf(),
            Err(e) => parse_head(input@) == Err::<HeadView, ParseError>(e),
        },
{
    let first_end = line_end_at(input, 0);
    proof {
        reveal_strlit(" ");
        reveal_strlit(": ");
    }
    let fields = split_bytes(content_of(slice_subrange(input, 0, first_end)), lit_bytes(" "));
    let ghost field_views = parts_view(fields@);
    let (ty, path) = match collect_triple(fields) {
        Some((ty, path, _protocol)) => (ty, path),
        None => {
            return Err(ParseError::MalformedRequestLine);
        },
    };
    assert(ty@ == field_views[0] && path@ == field_views[1]);
    let mut headers = Headers::new();
    let mut pos: usize = first_end;
    loop
        invariant_except_break
            parse_headers(input@, first_end as int, Map::empty()) == parse_headers(
                input@,
                pos as int,
                headers@,
            ),
        invariant
            first_end == line_end(input@, 0),
            split(line_content(input@.subrange(0, first_end as int)), lit(" ")).len() == 3,
            first_end <= pos <= input@.len(),
            headers.wf(),
        ensures
            parse_headers(input@, first_end as int, Map::empty()) == Ok::<
                (Map<Seq<u8>, Seq<u8>>, int),
                ParseError,
            >((headers@, pos as int)),
        decreases input@.len() - pos,
    {
        proof {
            reveal_strlit(": ");
        }
        let end = line_end_at(input, pos);
        if end == pos {
            break ;
        }
        let line = content_of(slice_subrange(input, pos, end));
        if line.len() == 0 {
            pos = end;
            break ;
        }
        let parts = split_bytes(line, lit_bytes(": "));
        let ghost part_views = parts_view(parts@);
        match collect_pair(parts) {
            Some((name, value)) => {
                assert(name@ == part_views[0] && value@ == part_views[1]);
                let name = trim_bytes(name.as_slice());
                let value = trim_bytes(value.as_slice());
                headers.insert(name, value);
            },
            None => {
                return Err(ParseError::MalformedHeaderLine);
            },
        }
        pos = end;
    }
    Ok(Head { ty, path, headers, body_start: pos })
}

fn read_length(headers: &Headers) -> (r: usize)
    ensures
        r == announced_length(headers@),
{
    proof {
        reveal_strlit("content-length");
        assert(lower(lit("content-length")) =~= lit("content-length"));
    }
    match headers.get(lit_bytes("content-length")) {
        Some(value) => match parse_number_bytes(value.as_slice()) {
            Some(n) => n,
            None => 0,
        },
        None => 0,
    }
}

impl Request {
    /// Parses the bytes of one connection.
    ///
    /// The first line holds the method, the path and the protocol version,
    /// separated by single spaces. Header lines follow, each a name and a
    /// value separated by a colon and a space, up to an empty line. Lines
    /// end with a line feed, with or without a carriage return before it.
    /// Where a `content-length` header is present, the body is the number
    /// of bytes that it announces (none where its value is no number).
    pub fn new(input: &[u8]) -> (r: Result<Request, ParseError>)
        ensures
            match r {
                Ok(request) => parse(input@) == Ok::<RequestView, ParseError>(request@)
                    && request.headers.wf(),
                Err(e) => parse(input@) == Err::<RequestView, ParseError>(e),
            },
    {
        let head = match read_head(input) {
            Ok(head) => head,
            Err(e) => {
                return Err(e);
            },
        };
        proof {
            reveal_strlit("content-length");
            assert(lower(lit("content-length")) =~= lit("content-length"));
        }
        let body = if head.headers.contains_key(lit_bytes("content-length")) {
            let n = read_length(&head.headers);
            if n == 0 {
                Some(Vec::new())
            } else if input.len() - head.body_start < n {
                return Err(ParseError::TruncatedBody);
            } else {
                let bytes = slice_subrange(input, head.body_start, head.body_start + n);
                if !is_utf8(bytes) {
                    return Err(ParseError::InvalidBody);
                }
                Some(slice_to_vec(bytes))
            }
        } else {
            None
        };
        Ok(Request { ty: head.ty, path: head.path, headers: head.headers, body })
    }

    /// The number of body bytes that the head of a request announces, for a
    /// reader that has the head and must fetch the body.
    pub fn body_length(input: &[u8]) -> (r: Result<usize, ParseError>)
        ensures
            match r {
                Ok(n) => parse_head(input@).is_ok() && n == announced_length(
                    parse_head(input@)->Ok_0.headers,
                ),
                Err(e) => parse_head(input@) == Err::<HeadView, ParseError>(e),
            },
    {
        match read_head(input) {
            Ok(head) => Ok(read_length(&head.headers)),
            Err(e) => Err(e),
        }
    }

    /// The method of the request.
    pub fn method(&self) -> (r: Method)
        ensures
            r == method_of(self.ty@),
    {
        proof {
            reveal_strlit("GET");
            reveal_strlit("POST");
        }
        if bytes_eq(self.ty.as_slice(), lit_bytes("GET")) {
            Method::Get
        } else if bytes_eq(self.ty.as_slice(), lit_bytes("POST")) {
            Method::Post
        } else {
            Method::Other
        }
    }
}

/// Header lines add only lower-case names: where every name in `acc` is in
/// lower case, so is every name in what `parse_headers` gives.
proof fn lemma_headers_lowercase(s: Seq<u8>, pos: int, acc: Map<Seq<u8>, Seq<u8>>)
    requires
        forall|name: Seq<u8>| acc.contains_key(name) ==> lower(name) == name,
    ensures
        parse_headers(s, pos, acc) matches Ok(found) ==> forall|name: Seq<u8>|
            found.0.contains_key(name) ==> lower(name) == name,
    decreases s.len() - pos,
{
    let end = line_end(s, pos);
    if 0 <= pos < end <= s.len() {
        let line = line_content(s.subrange(pos, end));
        let parts = split(line, lit(": "));
        if line.len() != 0 && parts.len() == 2 {
            let name = lower(trim(parts[0]));
            crate::text::lemma_lower_idempotent(trim(parts[0]));
            lemma_headers_lowercase(s, end, acc.insert(name, trim(parts[1])));
        }
    }
}

/// The headers of a parsed request are stored under lower-case names,
/// however the names were spelled on the wire.
pub proof fn lemma_parsed_names_lowercase(s: Seq<u8>, name: Seq<u8>)
    requires
        parse(s).is_ok(),
        parse(s)->Ok_0.headers.contains_key(name),
    ensures
        lower(name) == name,
{
    lemma_headers_lowercase(s, line_end(s, 0), Map::empty());
}

/// A parsed request has a body exactly if it has a `content-length`
/// header; the body may then be empty.
pub proof fn lemma_body_iff_length(s: Seq<u8>)
    requires
        parse(s).is_ok(),
    ensures
        parse(s)->Ok_0.body.is_some() <==> parse(s)->Ok_0.headers.contains_key(
            lit("content-length"),
        ),
        parse(s)->Ok_0.body matches Some(body) ==> body.len() == announced_length(
            parse(s)->Ok_0.headers,
        ),
{
}

} // verus!
