//! Responses and their framing on the wire.
use crate::text::append;
use crate::text::bytes_eq;
use crate::text::decimal;
use crate::text::decimal_bytes;
use crate::text::lit;
use crate::text::lit_bytes;
use vstd::prelude::*;

verus! {

/// The status of a response.
#[derive(Debug, Clone, Copy, PartialEq, Eq, Structural)]
pub enum Status {
    /// `200 OK`
    Success,
    /// `201 Created`
    Created,
    /// `400 Bad Request`
    BadRequest,
    /// `404 Not Found`
    NotFound,
}

/// A response: a status, headers in the order in which they are written,
/// and a body.
pub struct Response {
    status: Status,
    headers: Vec<(Vec<u8>, Vec<u8>)>,
    body: Vec<u8>,
}

/// What a response holds.
pub struct ResponseView {
    pub status: Status,
    pub headers: Seq<(Seq<u8>, Seq<u8>)>,
    pub body: Seq<u8>,
}

impl View for Response {
    type V = ResponseView;

    closed spec fn view(&self) -> ResponseView {
        ResponseView {
            status: self.status,
            headers: Seq::new(
                self.headers@.len(),
                |i: int| (self.headers@[i].0@, self.headers@[i].1@),
            ),
            body: self.body@,
        }
    }
}

/// The first line of a response with the given status, line end included.
pub open spec fn status_line(status: Status) -> Seq<u8> {
    match status {
        Status::Success => lit("HTTP/1.1 200 OK\r\n"),
        Status::Created => lit("HTTP/1.1 201 Created\r\n"),
        Status::BadRequest => lit("HTTP/1.1 400 Bad Request\r\n"),
        Status::NotFound => lit("HTTP/1.1 404 Not Found\r\n"),
    }
}

/// The header lines of a response, each ended by a line end.
pub open spec fn header_lines(headers: Seq<(Seq<u8>, Seq<u8>)>) -> Seq<u8>
    decreases headers.len(),
{
    if headers.len() == 0 {
        Seq::empty()
    } else {
        header_lines(headers.drop_last()) + headers.last().0 + lit(": ") + headers.last().1 + lit(
            "\r\n",
        )
    }
}

/// The bytes of a response on the wire: the status line, the header lines,
/// an empty line and the body.
pub open spec fn wire(response: ResponseView) -> Seq<u8> {
    status_line(response.status) + header_lines(response.headers) + lit("\r\n") + response.body
}

/// The value of the first header called `name`, if there is one.
pub open spec fn header_value(headers: Seq<(Seq<u8>, Seq<u8>)>, name: Seq<u8>) -> Option<Seq<u8>>
    decreases headers.len(),
{
    if headers.len() == 0 {
        None
    } else if headers[0].0 == name {
        Some(headers[0].1)
    } else {
        header_value(headers.drop_first(), name)
    }
}

/// A well-formed response names no header twice, and a `Content-Length`
/// header, where there is one, gives the length of the body in decimal.
pub open spec fn well_formed(response: ResponseView) -> bool {
    &&& forall|i: int, j: int|
        0 <= i < j < response.headers.len() ==> response.headers[i].0 != response.headers[j].0
    &&& forall|i: int|
        0 <= i < response.headers.len() && #[trigger] response.headers[i].0 == lit(
            "Content-Length",
        ) ==> response.headers[i].1 == decimal(response.body.len())
}

/// A response with neither headers nor body.
pub open spec fn bare_response(status: Status) -> ResponseView {
    ResponseView { status, headers: Seq::empty(), body: Seq::empty() }
}

/// A response without a body that says so in `Content-Length`.
pub open spec fn empty_response(status: Status) -> ResponseView {
    ResponseView {
        status,
        headers: seq![(lit("Content-Length"), lit("0"))],
        body: Seq::empty(),
    }
}

/// A `200 OK` response with a body of the given type. Where `gzip` is set
/// the body is announced as gzip-compressed.
pub open spec fn content_response(content_type: Seq<u8>, gzip: bool, body: Seq<u8>)
    -> ResponseView {
    let described = seq![
        (lit("Content-Type"), content_type),
        (lit("Content-Length"), decimal(body.len())),
    ];
    ResponseView {
        status: Status::Success,
        headers: if gzip {
            seq![(lit("Content-Encoding"), lit("gzip"))] + described
        } else {
            described
        },
        body,
    }
}

fn header(name: &str, value: &[u8]) -> (r: (Vec<u8>, Vec<u8>))
    requires
        vstd::string::is_ascii(name),
    ensures
        r.0@ == lit(name),
        r.1@ == value@,
{
    (vstd::slice::slice_to_vec(lit_bytes(name)), vstd::slice::slice_to_vec(value))
}

impl Response {
    /// A response with neither headers nor body.
    pub fn bare(status: Status) -> (r: Response)
        ensures
            r@ == bare_response(status),
    {
        let r = Response { status, headers: Vec::new(), body: Vec::new() };
        assert(r@.headers =~= Seq::empty());
        r
    }

    /// A response without a body, with `Content-Length: 0`.
    pub fn empty(status: Status) -> (r: Response)
        ensures
            r@ == empty_response(status),
    {
        proof {
            reveal_strlit("Content-Length");
            reveal_strlit("0");
        }
        let mut headers: Vec<(Vec<u8>, Vec<u8>)> = Vec::new();
        headers.push(header("Content-Length", lit_bytes("0")));
        let r = Response { status, headers, body: Vec::new() };
        assert(r@.headers =~= empty_response(status).headers);
        r
    }

    /// `404 Not Found`, without a body.
    pub fn not_found() -> (r: Response)
        ensures
            r@ == empty_response(Status::NotFound),
    {
        Response::empty(Status::NotFound)
    }

    /// `400 Bad Request`, without a body.
    pub fn bad_request() -> (r: Response)
        ensures
            r@ == empty_response(Status::BadRequest),
    {
        Response::empty(Status::BadRequest)
    }

    /// `200 OK` with a body of the given type, announced as
    /// gzip-compressed where `gzip` is set.
    pub fn content(content_type: &[u8], gzip: bool, body: Vec<u8>) -> (r: Response)
        ensures
            r@ == content_response(content_type@, gzip, body@),
    {
        proof {
            reveal_strlit("Content-Encoding");
            reveal_strlit("Content-Type");
            reveal_strlit("Content-Length");
            reveal_strlit("gzip");
        }
        let mut headers: Vec<(Vec<u8>, Vec<u8>)> = Vec::new();
        if gzip {
            headers.push(header("Content-Encoding", lit_bytes("gzip")));
        }
        headers.push(header("Content-Type", content_type));
        let length = decimal_bytes(body.len());
        headers.push(header("Content-Length", length.as_slice()));
        let r = Response { status: Status::Success, headers, body };
        assert(r@.headers =~= content_response(content_type@, gzip, body@).headers);
        r
    }

    /// The status.
    pub fn status(&self) -> (r: Status)
        ensures
            r == self@.status,
    {
        self.status
    }

    /// The body.
    pub fn body(&self) -> (r: &Vec<u8>)
        ensures
            r@ == self@.body,
    {
        &self.body
    }

    /// The value of the first header called `name`, if there is one. The
    /// name is compared byte for byte.
    pub fn header(&self, name: &[u8]) -> (r: Option<&Vec<u8>>)
        ensures
            match r {
                Some(v) => header_value(self@.headers, name@) == Some(v@),
                None => header_value(self@.headers, name@) == None::<Seq<u8>>,
            },
    {
        let mut i: usize = 0;
        assert(self@.headers.subrange(0, self@.headers.len() as int) =~= self@.headers);
        while i < self.headers.len()
            invariant
                i <= self.headers@.len(),
                self@.headers.len() == self.headers@.len(),
                header_value(self@.headers, name@) == header_value(
                    self@.headers.subrange(i as int, self@.headers.len() as int),
                    name@,
                ),
            decreases self.headers@.len() - i,
        {
            let ghost rest = self@.headers.subrange(i as int, self@.headers.len() as int);
            proof {
                assert(rest.drop_first() =~= self@.headers.subrange(
                    i + 1,
                    self@.headers.len() as int,
                ));
                assert(rest[0] == (self.headers@[i as int].0@, self.headers@[i as int].1@));
            }
            if bytes_eq(self.headers[i].0.as_slice(), name) {
                return Some(&self.headers[i].1);
            }
            i = i + 1;
        }
        None
    }

    /// The bytes to send: the status line, one line for each header, an
    /// empty line, and the body.
    pub fn to_bytes(&self) -> (r: Vec<u8>)
        ensures
            r@ == wire(self@),
    {
        proof {
            reveal_strlit("HTTP/1.1 200 OK\r\n");
            reveal_strlit("HTTP/1.1 201 Created\r\n");
            reveal_strlit("HTTP/1.1 400 Bad Request\r\n");
            reveal_strlit("HTTP/1.1 404 Not Found\r\n");
            reveal_strlit("\r\n");
        }
        let mut out: Vec<u8> = Vec::new();
        let first = match self.status {
            Status::Success => lit_bytes("HTTP/1.1 200 OK\r\n"),
            Status::Created => lit_bytes("HTTP/1.1 201 Created\r\n"),
            Status::BadRequest => lit_bytes("HTTP/1.1 400 Bad Request\r\n"),
            Status::NotFound => lit_bytes("HTTP/1.1 404 Not Found\r\n"),
        };
        append(&mut out, first);
        assert(out@ =~= status_line(self@.status));
        let mut i: usize = 0;
        assert(self@.headers.subrange(0, 0) =~= Seq::empty());
        assert(out@ =~= status_line(self@.status) + header_lines(self@.headers.subrange(0, 0)));
        while i < self.headers.len()
            invariant
                i <= self.headers@.len(),
                self@.headers.len() == self.headers@.len(),
                out@ == status_line(self@.status) + header_lines(
                    self@.headers.subrange(0, i as int),
                ),
            decreases self.headers@.len() - i,
        {
            proof {
                reveal_strlit(": ");
                reveal_strlit("\r\n");
                let next = self@.headers.subrange(0, i + 1);
                assert(next.drop_last() =~= self@.headers.subrange(0, i as int));
                assert(next.last() == (self.headers@[i as int].0@, self.headers@[i as int].1@));
            }
            let ghost before = out@;
            append(&mut out, self.headers[i].0.as_slice());
            append(&mut out, lit_bytes(": "));
            append(&mut out, self.headers[i].1.as_slice());
            append(&mut out, lit_bytes("\r\n"));
            proof {
                let head = header_lines(self@.headers.subrange(0, i as int));
                let entry = self@.headers[i as int];
                assert(out@ =~= status_line(self@.status) + (head + entry.0 + lit(": ") + entry.1
                    + lit("\r\n")));
            }
            i = i + 1;
        }
        assert(self@.headers.subrange(0, i as int) =~= self@.headers);
        append(&mut out, lit_bytes("\r\n"));
        append(&mut out, self.body.as_slice());
        out
    }
}

/// The responses that the constructors build are well formed: their
/// `Content-Length`, where they have one, is the length of the body.
pub proof fn lemma_built_well_formed(
    status: Status,
    content_type: Seq<u8>,
    gzip: bool,
    body: Seq<u8>,
)
    ensures
        well_formed(bare_response(status)),
        well_formed(empty_response(status)),
        well_formed(content_response(content_type, gzip, body)),
{
    reveal_strlit("Content-Encoding");
    reveal_strlit("Content-Type");
    reveal_strlit("Content-Length");
    reveal_strlit("0");
    assert(decimal(0) =~= lit("0"));
    assert(lit("Content-Encoding").len() == 16);
    assert(lit("Content-Type").len() == 12);
    assert(lit("Content-Length").len() == 14);
}

} // verus!
