//! One connection from end to end: the bytes that came in are parsed and
//! routed, and what comes out is the next thing for the server to do.
use crate::request::line_content;
use crate::request::line_end;
use crate::request::line_feed;
use crate::request::parse;
use crate::request::parse_head;
use crate::request::parse_headers;
use crate::request::HeadView;
use crate::request::ParseError;
use crate::request::Request;
use crate::request::RequestView;
use crate::response::bare_response;
use crate::response::content_response;
use crate::response::header_lines;
use crate::response::wire;
use crate::response::Status;
use crate::gzip::gzip_of;
use crate::router::accepts_gzip;
use crate::router::lemma_echo_compressed;
use crate::router::lemma_echo_plain;
use crate::router::lemma_root;
use crate::router::route;
use crate::router::route_of;
use crate::router::RouteError;
use crate::router::Step;
use crate::router::StepView;
use crate::text::decimal;
use crate::text::lemma_byte_match;
use crate::text::lemma_first_match_unique;
use crate::text::lemma_split_at_byte;
use crate::text::lemma_split_without_byte;
use crate::text::lit;
use crate::text::lower;
use crate::text::matches_at;
use crate::text::split;
use crate::text::trim;
use vstd::prelude::*;

verus! {

/// Why a connection gets no regular answer.
#[derive(Debug, Clone, Copy, PartialEq, Eq, Structural)]
pub enum Failure {
    /// Its bytes are not a request.
    Parse(ParseError),
    /// Its request cannot be routed.
    Route(RouteError),
}

/// What the server does for the bytes of a connection.
pub open spec fn handle_of(input: Seq<u8>, has_directory: bool) -> Result<StepView, Failure> {
    match parse(input) {
        Err(e) => Err(Failure::Parse(e)),
        Ok(request) => match route_of(request, has_directory) {
            Err(e) => Err(Failure::Route(e)),
            Ok(step) => Ok(step),
        },
    }
}

/// The view of what `handle` returns.
pub open spec fn handled_view(r: Result<Step, Failure>) -> Result<StepView, Failure> {
    match r {
        Ok(step) => Ok(step@),
        Err(e) => Err(e),
    }
}

/// Parses the bytes of a connection and routes the request.
///
/// `has_directory` says whether a directory to serve files from is
/// configured.
pub fn handle(input: &[u8], has_directory: bool) -> (r: Result<Step, Failure>)
    ensures
        handled_view(r) == handle_of(input@, has_directory),
{
    match Request::new(input) {
        Err(e) => Err(Failure::Parse(e)),
        Ok(request) => match route(&request, has_directory) {
            Err(e) => Err(Failure::Route(e)),
            Ok(step) => Ok(step),
        },
    }
}

/// A header line as a client writes it, without its line end: it is not
/// empty, holds no line feed, and splits at colon and space into a name
/// and a value.
pub open spec fn is_header_line(line: Seq<u8>) -> bool {
    &&& line.len() > 0
    &&& forall|i: int| 0 <= i < line.len() ==> line[i] != 10
    &&& split(line, lit(": ")).len() == 2
}

/// The header lines on the wire, each followed by a carriage return and a
/// line feed.
pub open spec fn header_text(lines: Seq<Seq<u8>>) -> Seq<u8>
    decreases lines.len(),
{
    if lines.len() == 0 {
        Seq::empty()
    } else {
        lines[0] + lit("\r\n") + header_text(lines.drop_first())
    }
}

/// The headers that the lines give, added to `acc` in their order.
pub open spec fn headers_from(lines: Seq<Seq<u8>>, acc: Map<Seq<u8>, Seq<u8>>) -> Map<
    Seq<u8>,
    Seq<u8>,
>
    decreases lines.len(),
{
    if lines.len() == 0 {
        acc
    } else {
        let parts = split(lines[0], lit(": "));
        headers_from(lines.drop_first(), acc.insert(lower(trim(parts[0])), trim(parts[1])))
    }
}

/// The bytes of the literals that frame a request.
proof fn lemma_framing()
    ensures
        lit(" ") == seq![32u8],
        lit("\r\n") == seq![13u8, 10u8],
        lit(" HTTP/1.1\r\n") == seq![32u8] + seq![
            72u8,
            84u8,
            84u8,
            80u8,
            47u8,
            49u8,
            46u8,
            49u8,
        ] + seq![13u8, 10u8],
{
    reveal_strlit(" ");
    reveal_strlit("\r\n");
    reveal_strlit(" HTTP/1.1\r\n");
    assert(lit(" ") =~= seq![32u8]);
    assert(lit("\r\n") =~= seq![13u8, 10u8]);
    assert(lit(" HTTP/1.1\r\n") =~= seq![32u8] + seq![
        72u8,
        84u8,
        84u8,
        80u8,
        47u8,
        49u8,
        46u8,
        49u8,
    ] + seq![13u8, 10u8]);
}

/// The line that starts at `from` ends behind the line feed at `feed`
/// where no line feed stands between the two.
proof fn lemma_line_end_at_feed(s: Seq<u8>, from: int, feed: int)
    requires
        0 <= from <= feed < s.len(),
        s[feed] == 10,
        forall|j: int| from <= j < feed ==> s[j] != 10,
    ensures
        line_end(s, from) == feed + 1,
{
    let rest = s.subrange(from, s.len() as int);
    lemma_byte_match(rest, 10, feed - from);
    assert forall|j: int| 0 <= j < feed - from implies !matches_at(rest, seq![10u8], j) by {
        lemma_byte_match(rest, 10, j);
    }
    lemma_first_match_unique(rest, seq![10u8], feed - from);
    assert(line_feed() =~= seq![10u8]);
}

/// A line without a line feed, followed by a carriage return and a line
/// feed and then by more, is the first line, and it is its own content.
proof fn lemma_first_line(s: Seq<u8>, pos: int, line: Seq<u8>, rest: Seq<u8>)
    requires
        0 <= pos <= s.len(),
        s.subrange(pos, s.len() as int) == line + seq![13u8, 10u8] + rest,
        forall|i: int| 0 <= i < line.len() ==> line[i] != 10,
    ensures
        line_end(s, pos) == pos + line.len() + 2,
        line_content(s.subrange(pos, pos + line.len() + 2)) == line,
        s.subrange(pos + line.len() + 2, s.len() as int) == rest,
{
    let tail = s.subrange(pos, s.len() as int);
    let feed = pos + line.len() + 1;
    assert(tail.len() == line.len() + 2 + rest.len());
    assert forall|j: int| pos <= j <= feed implies s[j] == tail[j - pos] by {}
    assert(s[feed] == 10);
    assert forall|j: int| pos <= j < feed implies s[j] != 10 by {
        assert(s[j] == tail[j - pos]);
        if j - pos < line.len() {
            assert(tail[j - pos] == line[j - pos]);
        }
    }
    lemma_line_end_at_feed(s, pos, feed);
    let whole = s.subrange(pos, feed + 1);
    assert(whole =~= line + seq![13u8, 10u8]);
    assert(whole.drop_last() =~= line + seq![13u8]);
    assert(whole.drop_last().drop_last() =~= line);
    assert(s.subrange(feed + 1, s.len() as int) =~= tail.subrange(
        line.len() as int + 2,
        tail.len() as int,
    ));
    assert(tail.subrange(line.len() as int + 2, tail.len() as int) =~= rest);
}

/// A piece without a space, followed by a space and more, is the first
/// field.
proof fn lemma_first_field(a: Seq<u8>, rest: Seq<u8>)
    requires
        forall|i: int| 0 <= i < a.len() ==> a[i] != 32,
    ensures
        split(a + seq![32u8] + rest, seq![32u8]) == seq![a] + split(rest, seq![32u8]),
{
    let line = a + seq![32u8] + rest;
    assert(line[a.len() as int] == 32);
    assert forall|j: int| 0 <= j < a.len() implies line[j] != 32 by {
        assert(line[j] == a[j]);
    }
    lemma_split_at_byte(line, 32, a.len() as int);
    assert(line.subrange(0, a.len() as int) =~= a);
    assert(line.subrange(a.len() as int + 1, line.len() as int) =~= rest);
}

/// Three pieces without a space, joined by single spaces, split into
/// themselves.
proof fn lemma_three_fields(a: Seq<u8>, b: Seq<u8>, c: Seq<u8>)
    requires
        forall|i: int| 0 <= i < a.len() ==> a[i] != 32,
        forall|i: int| 0 <= i < b.len() ==> b[i] != 32,
        forall|i: int| 0 <= i < c.len() ==> c[i] != 32,
    ensures
        split(a + seq![32u8] + b + seq![32u8] + c, seq![32u8]) == seq![a, b, c],
{
    let tail = b + seq![32u8] + c;
    lemma_first_field(a, tail);
    lemma_first_field(b, c);
    lemma_split_without_byte(c, 32);
    assert(a + seq![32u8] + b + seq![32u8] + c =~= a + seq![32u8] + tail);
    let fields = seq![a] + (seq![b] + seq![c]);
    assert(fields.len() == 3 && fields[0] == a && fields[1] == b && fields[2] == c);
    assert(fields =~= seq![a, b, c]);
}

/// The request line without its line end: it holds no line feed and has
/// three fields.
proof fn lemma_request_line(ty: Seq<u8>, path: Seq<u8>)
    requires
        forall|i: int| 0 <= i < ty.len() ==> ty[i] != 32 && ty[i] != 10,
        forall|i: int| 0 <= i < path.len() ==> path[i] != 32 && path[i] != 10,
    ensures
        ({
            let version = seq![72u8, 84u8, 84u8, 80u8, 47u8, 49u8, 46u8, 49u8];
            let line = ty + seq![32u8] + path + seq![32u8] + version;
            &&& forall|i: int| 0 <= i < line.len() ==> line[i] != 10
            &&& split(line, seq![32u8]) == seq![ty, path, version]
        }),
{
    let version = seq![72u8, 84u8, 84u8, 80u8, 47u8, 49u8, 46u8, 49u8];
    let line = ty + seq![32u8] + path + seq![32u8] + version;
    assert forall|i: int| 0 <= i < line.len() implies line[i] != 10 by {
        if i < ty.len() {
            assert(line[i] == ty[i]);
        } else if i == ty.len() {
            assert(line[i] == 32);
        } else if i < ty.len() + 1 + path.len() {
            assert(line[i] == path[i - ty.len() - 1]);
        } else if i == ty.len() + 1 + path.len() {
            assert(line[i] == 32);
        } else {
            assert(line[i] == version[i - ty.len() - path.len() - 2]);
        }
    }
    lemma_three_fields(ty, path, version);
}

/// Header lines that are followed by an empty line are read one by one,
/// and the empty line ends them.
proof fn lemma_parse_header_block(
    s: Seq<u8>,
    pos: int,
    lines: Seq<Seq<u8>>,
    acc: Map<Seq<u8>, Seq<u8>>,
)
    requires
        0 <= pos <= s.len(),
        s.subrange(pos, s.len() as int) == header_text(lines) + lit("\r\n"),
        forall|i: int| 0 <= i < lines.len() ==> is_header_line(#[trigger] lines[i]),
    ensures
        parse_headers(s, pos, acc) == Ok::<(Map<Seq<u8>, Seq<u8>>, int), ParseError>(
            (headers_from(lines, acc), s.len() as int),
        ),
    decreases lines.len(),
{
    lemma_framing();
    let none = Seq::<u8>::empty();
    if lines.len() == 0 {
        assert(s.subrange(pos, s.len() as int) =~= none + seq![13u8, 10u8] + none);
        lemma_first_line(s, pos, none, none);
    } else {
        let line = lines[0];
        let later = lines.drop_first();
        let rest = header_text(later) + lit("\r\n");
        assert(is_header_line(line));
        assert(s.subrange(pos, s.len() as int) =~= line + seq![13u8, 10u8] + rest);
        lemma_first_line(s, pos, line, rest);
        let end = pos + line.len() + 2;
        let parts = split(line, lit(": "));
        assert forall|i: int| 0 <= i < later.len() implies is_header_line(
            #[trigger] later[i],
        ) by {
            assert(later[i] == lines[i + 1]);
        }
        lemma_parse_header_block(
            s,
            end,
            later,
            acc.insert(lower(trim(parts[0])), trim(parts[1])),
        );
    }
}

/// A request that consists of a request line, header lines and the empty
/// line: method and path are the first two fields of the request line, the
/// headers are those of the lines, and there is no body unless a
/// `content-length` header announces one.
pub proof fn lemma_parse_request(ty: Seq<u8>, path: Seq<u8>, lines: Seq<Seq<u8>>)
    requires
        forall|i: int| 0 <= i < ty.len() ==> ty[i] != 32 && ty[i] != 10,
        forall|i: int| 0 <= i < path.len() ==> path[i] != 32 && path[i] != 10,
        forall|i: int| 0 <= i < lines.len() ==> is_header_line(#[trigger] lines[i]),
        !headers_from(lines, Map::empty()).contains_key(lit("content-length")),
    ensures
        parse(ty + lit(" ") + path + lit(" HTTP/1.1\r\n") + header_text(lines) + lit("\r\n"))
            == Ok::<RequestView, ParseError>(
            RequestView {
                ty,
                path,
                headers: headers_from(lines, Map::empty()),
                body: None,
            },
        ),
{
    lemma_framing();
    let version = seq![72u8, 84u8, 84u8, 80u8, 47u8, 49u8, 46u8, 49u8];
    let s = ty + lit(" ") + path + lit(" HTTP/1.1\r\n") + header_text(lines) + lit("\r\n");
    let line = ty + seq![32u8] + path + seq![32u8] + version;
    let rest = header_text(lines) + lit("\r\n");
    assert(s =~= line + seq![13u8, 10u8] + rest);
    assert(s.subrange(0, s.len() as int) =~= s);
    lemma_request_line(ty, path);
    lemma_first_line(s, 0, line, rest);
    let end: int = line.len() as int + 2;
    lemma_parse_header_block(s, end, lines, Map::empty());
    assert(parse_head(s) == Ok::<HeadView, ParseError>(
        HeadView {
            ty,
            path,
            headers: headers_from(lines, Map::empty()),
            body_start: s.len() as int,
        },
    ));
}

/// A client that sends `GET /echo/` and a value without slash, space or
/// line feed, with any header lines that neither name an encoding it
/// accepts nor announce a body, is sent `200 OK` with the value as the
/// body, its type `text/plain` and its length in `Content-Length`.
pub proof fn lemma_echo_on_the_wire(value: Seq<u8>, lines: Seq<Seq<u8>>, has_directory: bool)
    requires
        forall|i: int| 0 <= i < value.len() ==> value[i] != 47 && value[i] != 32 && value[i] != 10,
        forall|i: int| 0 <= i < lines.len() ==> is_header_line(#[trigger] lines[i]),
        !headers_from(lines, Map::empty()).contains_key(lit("accept-encoding")),
        !headers_from(lines, Map::empty()).contains_key(lit("content-length")),
    ensures
        handle_of(
            lit("GET /echo/") + value + lit(" HTTP/1.1\r\n") + header_text(lines) + lit("\r\n"),
            has_directory,
        ) == Ok::<StepView, Failure>(
            StepView::Respond(content_response(lit("text/plain"), false, value)),
        ),
        wire(content_response(lit("text/plain"), false, value)) == lit(
            "HTTP/1.1 200 OK\r\nContent-Type: text/plain\r\nContent-Length: ",
        ) + decimal(value.len()) + lit("\r\n\r\n") + value,
{
    reveal_strlit("GET");
    reveal_strlit(" ");
    reveal_strlit("/echo/");
    reveal_strlit("GET /echo/");
    let ty = lit("GET");
    let path = lit("/echo/") + value;
    let input = lit("GET /echo/") + value + lit(" HTTP/1.1\r\n") + header_text(lines) + lit(
        "\r\n",
    );
    assert(input =~= ty + lit(" ") + path + lit(" HTTP/1.1\r\n") + header_text(lines) + lit(
        "\r\n",
    ));
    lemma_parse_request(ty, path, lines);
    let request = RequestView {
        ty,
        path,
        headers: headers_from(lines, Map::empty()),
        body: None,
    };
    lemma_echo_plain(request, value, has_directory);
    lemma_plain_wire(value);
}

/// A client that sends `GET /echo/` and a value without slash, space or
/// line feed, with header lines that announce no body and among which
/// `accept-encoding` holds `gzip`, is sent `200 OK` with the gzip stream of
/// the value, announced in `Content-Encoding`.
pub proof fn lemma_echo_compressed_on_the_wire(
    value: Seq<u8>,
    lines: Seq<Seq<u8>>,
    has_directory: bool,
)
    requires
        forall|i: int| 0 <= i < value.len() ==> value[i] != 47 && value[i] != 32 && value[i] != 10,
        forall|i: int| 0 <= i < lines.len() ==> is_header_line(#[trigger] lines[i]),
        accepts_gzip(headers_from(lines, Map::empty())),
        !headers_from(lines, Map::empty()).contains_key(lit("content-length")),
    ensures
        handle_of(
            lit("GET /echo/") + value + lit(" HTTP/1.1\r\n") + header_text(lines) + lit("\r\n"),
            has_directory,
        ) == Ok::<StepView, Failure>(
            StepView::Respond(content_response(lit("text/plain"), true, gzip_of(value))),
        ),
{
    reveal_strlit("GET");
    reveal_strlit(" ");
    reveal_strlit("/echo/");
    reveal_strlit("GET /echo/");
    let ty = lit("GET");
    let path = lit("/echo/") + value;
    let input = lit("GET /echo/") + value + lit(" HTTP/1.1\r\n") + header_text(lines) + lit(
        "\r\n",
    );
    assert(input =~= ty + lit(" ") + path + lit(" HTTP/1.1\r\n") + header_text(lines) + lit(
        "\r\n",
    ));
    lemma_parse_request(ty, path, lines);
    let request = RequestView {
        ty,
        path,
        headers: headers_from(lines, Map::empty()),
        body: None,
    };
    lemma_echo_compressed(request, value, has_directory);
}

/// A client that sends `GET /`, with any header lines that announce no
/// body, is sent `200 OK` without headers or body: the same bytes whatever
/// the headers.
pub proof fn lemma_root_on_the_wire(lines: Seq<Seq<u8>>, has_directory: bool)
    requires
        forall|i: int| 0 <= i < lines.len() ==> is_header_line(#[trigger] lines[i]),
        !headers_from(lines, Map::empty()).contains_key(lit("content-length")),
    ensures
        handle_of(
            lit("GET / HTTP/1.1\r\n") + header_text(lines) + lit("\r\n"),
            has_directory,
        ) == Ok::<StepView, Failure>(StepView::Respond(bare_response(Status::Success))),
        wire(bare_response(Status::Success)) == lit("HTTP/1.1 200 OK\r\n\r\n"),
{
    reveal_strlit("GET");
    reveal_strlit(" ");
    reveal_strlit("/");
    reveal_strlit(" HTTP/1.1\r\n");
    reveal_strlit("GET / HTTP/1.1\r\n");
    let ty = lit("GET");
    let path = lit("/");
    let input = lit("GET / HTTP/1.1\r\n") + header_text(lines) + lit("\r\n");
    assert(lit("GET / HTTP/1.1\r\n") =~= ty + lit(" ") + path + lit(" HTTP/1.1\r\n"));
    assert(input =~= ty + lit(" ") + path + lit(" HTTP/1.1\r\n") + header_text(lines) + lit(
        "\r\n",
    ));
    lemma_parse_request(ty, path, lines);
    let request = RequestView {
        ty,
        path,
        headers: headers_from(lines, Map::empty()),
        body: None,
    };
    lemma_root(request, has_directory);
    reveal_strlit("HTTP/1.1 200 OK\r\n");
    reveal_strlit("\r\n");
    reveal_strlit("HTTP/1.1 200 OK\r\n\r\n");
    assert(wire(bare_response(Status::Success)) =~= lit("HTTP/1.1 200 OK\r\n\r\n"));
}

proof fn lemma_plain_wire(value: Seq<u8>)
    ensures
        wire(content_response(lit("text/plain"), false, value)) == lit(
            "HTTP/1.1 200 OK\r\nContent-Type: text/plain\r\nContent-Length: ",
        ) + decimal(value.len()) + lit("\r\n\r\n") + value,
{
    reveal_strlit("HTTP/1.1 200 OK\r\nContent-Type: text/plain\r\nContent-Length: ");
    reveal_strlit("HTTP/1.1 200 OK\r\n");
    reveal_strlit("Content-Type");
    reveal_strlit("Content-Length");
    reveal_strlit("text/plain");
    reveal_strlit(": ");
    reveal_strlit("\r\n");
    reveal_strlit("\r\n\r\n");
    let response = content_response(lit("text/plain"), false, value);
    let headers = response.headers;
    let first = headers.drop_last();
    assert(first.drop_last() =~= Seq::empty());
    assert(first.last() == (lit("Content-Type"), lit("text/plain")));
    reveal_with_fuel(header_lines, 3);
    assert(header_lines(headers) =~= lit("Content-Type") + lit(": ") + lit("text/plain") + lit(
        "\r\n",
    ) + lit("Content-Length") + lit(": ") + decimal(value.len()) + lit("\r\n"));
    assert(wire(response) =~= lit(
        "HTTP/1.1 200 OK\r\nContent-Type: text/plain\r\nContent-Length: ",
    ) + decimal(value.len()) + lit("\r\n\r\n") + value);
}

} // verus!
