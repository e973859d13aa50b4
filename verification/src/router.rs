//! The router: from a request to a response, or to the file operation that
//! has to come first.
use crate::gzip::compress;
use crate::gzip::gzip_of;
use crate::request::method_of;
use crate::request::Method;
use crate::request::Request;
use crate::request::RequestView;
use crate::response::bare_response;
use crate::response::content_response;
use crate::response::empty_response;
use crate::response::lemma_built_well_formed;
use crate::response::well_formed;
use crate::response::Response;
use crate::response::ResponseView;
use crate::response::Status;
use crate::text::bytes_eq;
use crate::text::decimal;
use crate::text::lemma_split_at_byte;
use crate::text::lemma_split_without_byte;
use crate::text::lit;
use crate::text::lit_bytes;
use crate::text::lower;
use crate::text::parts_view;
use crate::text::split;
use crate::text::split_bytes;
use vstd::prelude::*;
use vstd::slice::slice_to_vec;

verus! {

/// What the server does next for a request.
pub enum Step {
    /// Send this response.
    Respond(Response),
    /// Read the file of this name in the served directory, then answer with
    /// `after_read`.
    ReadFile { name: Vec<u8> },
    /// Write `content` to the file of this name in the served directory,
    /// then answer with `after_write`.
    WriteFile { name: Vec<u8>, content: Vec<u8> },
}

/// What a step holds.
pub enum StepView {
    Respond(ResponseView),
    ReadFile { name: Seq<u8> },
    WriteFile { name: Seq<u8>, content: Seq<u8> },
}

impl View for Step {
    type V = StepView;

    open spec fn view(&self) -> StepView {
        match self {
            Step::Respond(response) => StepView::Respond(response@),
            Step::ReadFile { name } => StepView::ReadFile { name: name@ },
            Step::WriteFile { name, content } => StepView::WriteFile {
                name: name@,
                content: content@,
            },
        }
    }
}

/// Why a request cannot be routed.
#[derive(Debug, Clone, Copy, PartialEq, Eq, Structural)]
pub enum RouteError {
    /// The request asks for its `User-Agent` header and has none.
    MissingUserAgent,
}

/// How the server treats a request that cannot be parsed or routed.
#[derive(Debug, Clone, Copy, PartialEq, Eq, Structural)]
pub enum FailurePolicy {
    /// The worker that handles the connection stops for good.
    AbortWorker,
    /// The client is sent `400 Bad Request` and the worker goes on.
    BadRequest,
}

/// The fragments of a path: the pieces between its slashes.
pub open spec fn fragments(path: Seq<u8>) -> Seq<Seq<u8>> {
    split(path, lit("/"))
}

/// Whether the request accepts a gzip-compressed body: its
/// `accept-encoding` header, split at each comma and space, holds `gzip`.
pub open spec fn accepts_gzip(headers: Map<Seq<u8>, Seq<u8>>) -> bool {
    headers.contains_key(lit("accept-encoding")) && split(
        headers[lit("accept-encoding")],
        lit(", "),
    ).contains(lit("gzip"))
}

/// The answer to an echo request for `value`. `compressed` is the
/// gzip-compressed value where the client accepts gzip.
pub open spec fn echo_response(value: Seq<u8>, compressed: Option<Seq<u8>>) -> ResponseView {
    match compressed {
        Some(bytes) => content_response(lit("text/plain"), true, bytes),
        None => content_response(lit("text/plain"), false, value),
    }
}

/// The answer to a request for a file, given what reading it gave.
pub open spec fn read_response(content: Option<Seq<u8>>) -> ResponseView {
    match content {
        Some(bytes) => content_response(lit("application/octet-stream"), false, bytes),
        None => empty_response(Status::NotFound),
    }
}

/// The answer to a request to store a file, given whether writing it
/// succeeded.
pub open spec fn write_response(written: bool) -> ResponseView {
    if written {
        bare_response(Status::Created)
    } else {
        empty_response(Status::NotFound)
    }
}

/// Whether the path has a second fragment called `family` and an argument
/// behind it.
pub open spec fn in_family(path: Seq<u8>, family: Seq<u8>) -> bool {
    fragments(path).len() >= 3 && fragments(path)[1] == family
}

/// The route table.
pub open spec fn route_of(request: RequestView, has_directory: bool) -> Result<
    StepView,
    RouteError,
> {
    let method = method_of(request.ty);
    let argument = fragments(request.path)[2];
    if method == Method::Get && in_family(request.path, lit("echo")) {
        Ok(
            StepView::Respond(
                echo_response(
                    argument,
                    if accepts_gzip(request.headers) {
                        Some(gzip_of(argument))
                    } else {
                        None
                    },
                ),
            ),
        )
    } else if method == Method::Get && request.path == lit("/user-agent") {
        if request.headers.contains_key(lit("user-agent")) {
            Ok(
                StepView::Respond(
                    content_response(lit("text/plain"), false, request.headers[lit("user-agent")]),
                ),
            )
        } else {
            Err(RouteError::MissingUserAgent)
        }
    } else if method == Method::Get && request.path == lit("/") {
        Ok(StepView::Respond(bare_response(Status::Success)))
    } else if method == Method::Get && in_family(request.path, lit("files")) && has_directory {
        Ok(StepView::ReadFile { name: argument })
    } else if method == Method::Post && in_family(request.path, lit("files")) && has_directory
        && request.body.is_some() {
        Ok(StepView::WriteFile { name: argument, content: request.body.unwrap() })
    } else {
        Ok(StepView::Respond(empty_response(Status::NotFound)))
    }
}

/// The view of a routing result.
pub open spec fn outcome_view(r: Result<Step, RouteError>) -> Result<StepView, RouteError> {
    match r {
        Ok(step) => Ok(step@),
        Err(e) => Err(e),
    }
}

/// Answers an echo request for `value`: with the compressed bytes where
/// there are any, announced as gzip, and with the value itself otherwise.
pub fn echo(value: &[u8], compressed: Option<Vec<u8>>) -> (r: Response)
    ensures
        r@ == echo_response(
            value@,
            match compressed {
                Some(bytes) => Some(bytes@),
                None => None,
            },
        ),
{
    proof {
        reveal_strlit("text/plain");
    }
    match compressed {
        Some(bytes) => Response::content(lit_bytes("text/plain"), true, bytes),
        None => Response::content(lit_bytes("text/plain"), false, slice_to_vec(value)),
    }
}

/// Answers a request for a file once it was read: with its content, or
/// with `404 Not Found` where it could not be read.
pub fn after_read(content: Option<Vec<u8>>) -> (r: Response)
    ensures
        r@ == read_response(
            match content {
                Some(bytes) => Some(bytes@),
                None => None,
            },
        ),
{
    proof {
        reveal_strlit("application/octet-stream");
    }
    match content {
        Some(bytes) => Response::content(lit_bytes("application/octet-stream"), false, bytes),
        None => Response::not_found(),
    }
}

/// Answers a request to store a file once that was tried: with
/// `201 Created`, or with `404 Not Found` where it could not be written.
pub fn after_write(written: bool) -> (r: Response)
    ensures
        r@ == write_response(written),
{
    if written {
        Response::bare(Status::Created)
    } else {
        Response::not_found()
    }
}

/// What the server does about a failed request under `policy`: the
/// response to send, or none where the worker is to stop.
pub fn on_failure(policy: FailurePolicy) -> (r: Option<Response>)
    ensures
        match policy {
            FailurePolicy::AbortWorker => r.is_none(),
            FailurePolicy::BadRequest => r.is_some() && r.unwrap()@ == empty_response(
                Status::BadRequest,
            ),
        },
{
    match policy {
        FailurePolicy::AbortWorker => None,
        FailurePolicy::BadRequest => Some(Response::bad_request()),
    }
}

/// Whether the request accepts a gzip-compressed body.
pub fn gzip_accepted(request: &Request) -> (r: bool)
    ensures
        r == accepts_gzip(request@.headers),
{
    proof {
        reveal_strlit("accept-encoding");
        reveal_strlit(", ");
        reveal_strlit("gzip");
        assert(lower(lit("accept-encoding")) =~= lit("accept-encoding"));
    }
    match request.headers.get(lit_bytes("accept-encoding")) {
        Some(value) => {
            let tokens = split_bytes(value.as_slice(), lit_bytes(", "));
            let mut i: usize = 0;
            while i < tokens.len()
                invariant
                    i <= tokens@.len(),
                    request@.headers.contains_key(lit("accept-encoding")),
                    parts_view(tokens@) == split(
                        request@.headers[lit("accept-encoding")],
                        lit(", "),
                    ),
                    forall|k: int| 0 <= k < i ==> parts_view(tokens@)[k] != lit("gzip"),
                decreases tokens@.len() - i,
            {
                proof {
                    reveal_strlit("gzip");
                }
                if bytes_eq(tokens[i].as_slice(), lit_bytes("gzip")) {
                    assert(parts_view(tokens@)[i as int] == lit("gzip"));
                    return true;
                }
                i = i + 1;
            }
            false
        },
        None => false,
    }
}

/// Routes a request.
///
/// `has_directory` says whether a directory to serve files from is
/// configured. An echo request that accepts gzip is answered with the
/// compressed value.
pub fn route(request: &Request, has_directory: bool) -> (r: Result<Step, RouteError>)
    ensures
        outcome_view(r) == route_of(request@, has_directory),
{
    proof {
        reveal_strlit("/");
        reveal_strlit("echo");
        reveal_strlit("files");
        reveal_strlit("/user-agent");
        reveal_strlit("user-agent");
        assert(lower(lit("user-agent")) =~= lit("user-agent"));
    }
    let method = request.method();
    let pieces = split_bytes(request.path.as_slice(), lit_bytes("/"));
    assert(parts_view(pieces@) == fragments(request@.path));
    let has_argument = pieces.len() >= 3;
    if has_argument {
        assert(parts_view(pieces@)[1] == pieces@[1]@);
        assert(parts_view(pieces@)[2] == pieces@[2]@);
    }
    let is_get = match method {
        Method::Get => true,
        _ => false,
    };
    let is_post = match method {
        Method::Post => true,
        _ => false,
    };
    if is_get && has_argument && bytes_eq(pieces[1].as_slice(), lit_bytes("echo")) {
        let value = pieces[2].as_slice();
        let compressed = if gzip_accepted(request) {
            compress(value)
        } else {
            None
        };
        Ok(Step::Respond(echo(value, compressed)))
    } else if is_get && bytes_eq(request.path.as_slice(), lit_bytes("/user-agent")) {
        match request.headers.get(lit_bytes("user-agent")) {
            Some(agent) => {
                proof {
                    reveal_strlit("text/plain");
                }
                Ok(
                    Step::Respond(
                        Response::content(lit_bytes("text/plain"), false, agent.clone()),
                    ),
                )
            },
            None => Err(RouteError::MissingUserAgent),
        }
    } else if is_get && bytes_eq(request.path.as_slice(), lit_bytes("/")) {
        Ok(Step::Respond(Response::bare(Status::Success)))
    } else if is_get && has_argument && has_directory && bytes_eq(
        pieces[1].as_slice(),
        lit_bytes("files"),
    ) {
        Ok(Step::ReadFile { name: pieces[2].clone() })
    } else if is_post && has_argument && has_directory && bytes_eq(
        pieces[1].as_slice(),
        lit_bytes("files"),
    ) {
        match &request.body {
            Some(body) => Ok(Step::WriteFile { name: pieces[2].clone(), content: body.clone() }),
            None => Ok(Step::Respond(Response::not_found())),
        }
    } else {
        Ok(Step::Respond(Response::not_found()))
    }
}

/// The fragments of `/echo/` followed by a value without a slash: an empty
/// one, `echo`, and the value.
pub proof fn lemma_echo_fragments(value: Seq<u8>)
    requires
        forall|i: int| 0 <= i < value.len() ==> value[i] != 47,
    ensures
        fragments(lit("/echo/") + value) == seq![Seq::<u8>::empty(), lit("echo"), value],
{
    reveal_strlit("/");
    reveal_strlit("/echo/");
    reveal_strlit("echo");
    let slash = seq![47u8];
    assert(lit("/") =~= slash);
    let path = lit("/echo/") + value;
    let rest = path.subrange(1, path.len() as int);
    lemma_split_at_byte(path, 47, 0);
    lemma_split_at_byte(rest, 47, 4);
    lemma_split_without_byte(value, 47);
    assert(path.subrange(0, 0) =~= Seq::<u8>::empty());
    assert(rest.subrange(0, 4) =~= lit("echo"));
    assert(rest.subrange(5, rest.len() as int) =~= value);
    assert(seq![Seq::<u8>::empty()] + (seq![lit("echo")] + seq![value]) =~= seq![
        Seq::<u8>::empty(),
        lit("echo"),
        value,
    ]);
}

/// A `GET` request for `/echo/` followed by a value without a slash, from
/// a client that names no encoding it accepts, is answered `200 OK` with
/// the value itself as the body, its type `text/plain`, and its length in
/// `Content-Length`.
pub proof fn lemma_echo_plain(request: RequestView, value: Seq<u8>, has_directory: bool)
    requires
        request.ty == lit("GET"),
        request.path == lit("/echo/") + value,
        forall|i: int| 0 <= i < value.len() ==> value[i] != 47,
        !request.headers.contains_key(lit("accept-encoding")),
    ensures
        route_of(request, has_directory) == Ok::<StepView, RouteError>(
            StepView::Respond(
                ResponseView {
                    status: Status::Success,
                    headers: seq![
                        (lit("Content-Type"), lit("text/plain")),
                        (lit("Content-Length"), decimal(value.len())),
                    ],
                    body: value,
                },
            ),
        ),
{
    lemma_echo_fragments(value);
}

/// A `GET` request for `/echo/` followed by a value without a slash, from
/// a client whose `accept-encoding` header holds `gzip`, is answered
/// `200 OK` with the gzip stream of the value as the body, announced in
/// `Content-Encoding`, and with the length of that stream in
/// `Content-Length`.
pub proof fn lemma_echo_compressed(request: RequestView, value: Seq<u8>, has_directory: bool)
    requires
        request.ty == lit("GET"),
        request.path == lit("/echo/") + value,
        forall|i: int| 0 <= i < value.len() ==> value[i] != 47,
        accepts_gzip(request.headers),
    ensures
        route_of(request, has_directory) == Ok::<StepView, RouteError>(
            StepView::Respond(
                ResponseView {
                    status: Status::Success,
                    headers: seq![
                        (lit("Content-Encoding"), lit("gzip")),
                        (lit("Content-Type"), lit("text/plain")),
                        (lit("Content-Length"), decimal(gzip_of(value).len())),
                    ],
                    body: gzip_of(value),
                },
            ),
        ),
{
    lemma_echo_fragments(value);
    let described = seq![
        (lit("Content-Type"), lit("text/plain")),
        (lit("Content-Length"), decimal(gzip_of(value).len())),
    ];
    assert(seq![(lit("Content-Encoding"), lit("gzip"))] + described =~= seq![
        (lit("Content-Encoding"), lit("gzip")),
        (lit("Content-Type"), lit("text/plain")),
        (lit("Content-Length"), decimal(gzip_of(value).len())),
    ]);
}

/// A `GET` request for `/` is answered `200 OK` without headers or body,
/// whatever headers and body it was sent with.
pub proof fn lemma_root(request: RequestView, has_directory: bool)
    requires
        request.ty == lit("GET"),
        request.path == lit("/"),
    ensures
        route_of(request, has_directory) == Ok::<StepView, RouteError>(
            StepView::Respond(bare_response(Status::Success)),
        ),
{
    reveal_strlit("/");
    reveal_strlit("/user-agent");
    let slash = seq![47u8];
    assert(lit("/") =~= slash);
    lemma_split_at_byte(slash, 47, 0);
    lemma_split_without_byte(slash.subrange(1, 1), 47);
    assert(fragments(request.path).len() == 2);
    assert(lit("/user-agent").len() == 11);
}

/// Every response that the router gives, at once or after a file was read
/// or written, is well formed: a `Content-Length` header gives the length
/// of the body as it is sent, compressed or not.
pub proof fn lemma_responses_well_formed(
    request: RequestView,
    has_directory: bool,
    content: Option<Seq<u8>>,
    written: bool,
)
    ensures
        route_of(request, has_directory) matches Ok(StepView::Respond(response))
            ==> well_formed(response),
        well_formed(read_response(content)),
        well_formed(write_response(written)),
{
    let argument = fragments(request.path)[2];
    lemma_built_well_formed(Status::Success, lit("text/plain"), false, argument);
    lemma_built_well_formed(Status::NotFound, lit("text/plain"), false, argument);
    lemma_built_well_formed(Status::Created, lit("text/plain"), false, argument);
    lemma_built_well_formed(Status::Success, lit("text/plain"), true, gzip_of(argument));
    if request.headers.contains_key(lit("user-agent")) {
        lemma_built_well_formed(
            Status::Success,
            lit("text/plain"),
            false,
            request.headers[lit("user-agent")],
        );
    }
    if content.is_some() {
        lemma_built_well_formed(
            Status::Success,
            lit("application/octet-stream"),
            false,
            content.unwrap(),
        );
    }
}

} // verus!
