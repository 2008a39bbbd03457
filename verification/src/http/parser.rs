//! Requests and responses, and their form on the wire.

use vstd::prelude::*;
use vstd::slice::{slice_subrange, slice_to_vec};
use vstd::utf8::is_ascii_chars;
use crate::assoc::{distinct_keys, lookup};
use crate::decimal::{
    decimal_digits, decimal_value, is_digit, lemma_decimal_round_trip, parse_usize, render_decimal,
    usize_value,
};
use crate::fields::{collect, lemma_collect_distinct, list_entries, parse_list, Fields, Pairs};
use crate::json::{decode, json_document};
use crate::text::{
    after_first_line, append, bytes_equal, bytes_of, contains, find_byte, find_subslice,
    first_line, first_match, index_of, is_blank, lemma_ascii_bytes, lemma_blank_iff_trimmed_empty,
    lemma_first_line, lemma_first_match_from_unique, lemma_index_of, lemma_index_of_unique,
    next_token, occurs_at, on_one_line, sides, split_line, to_bytes, tokens, trim, AMPERSAND, CR,
    LF, QUESTION_MARK, SEMICOLON,
};

verus! {

/// Why a request could not be read.
#[derive(Debug, Clone, Copy, PartialEq, Eq, Structural)]
pub enum ParseError {
    /// The request holds no byte at all.
    EmptyRequest,
    /// The first line holds fewer than three words.
    MalformedStartLine,
    /// The body is announced as JSON and is not a JSON document.
    InvalidJsonBody,
}

/// The text that describes `error`.
pub open spec fn error_text(error: ParseError) -> Seq<char> {
    match error {
        ParseError::EmptyRequest => "[Error]: Empty petition"@,
        ParseError::MalformedStartLine => "[Error]: Invalid initial line"@,
        ParseError::InvalidJsonBody => "[Error]: Error parsing JSON"@,
    }
}

impl ParseError {
    /// A description of this error for the client.
    pub fn description(&self) -> (text: &'static str)
        ensures
            text@ == error_text(*self),
    {
        match self {
            ParseError::EmptyRequest => "[Error]: Empty petition",
            ParseError::MalformedStartLine => "[Error]: Invalid initial line",
            ParseError::InvalidJsonBody => "[Error]: Error parsing JSON",
        }
    }
}

/// The body of a request.
#[derive(Debug)]
pub enum Body {
    /// A body of no known type, as it came.
    Text(Vec<u8>),
    /// A body that was announced as JSON and read as such.
    Json(serde_json::Value),
}

/// What a `Body` stands for.
pub enum BodyModel {
    Text(Seq<u8>),
    Json(serde_json::Value),
}

impl View for Body {
    type V = BodyModel;

    open spec fn view(&self) -> BodyModel {
        match self {
            Body::Text(text) => BodyModel::Text(text@),
            Body::Json(value) => BodyModel::Json(*value),
        }
    }
}

/// What an optional `Body` stands for.
pub open spec fn body_view(body: Option<Body>) -> Option<BodyModel> {
    match body {
        Some(body) => Some(body@),
        None => None,
    }
}

/// A request, as read from the wire.
#[derive(Debug)]
pub struct Request {
    /// The verb, as the first word of the request.
    pub method: Vec<u8>,
    /// The path, without host and without query.
    pub path: Vec<u8>,
    /// The header fields, names as they came.
    pub headers: Fields,
    /// The body, unless it was empty or blank.
    pub body: Option<Body>,
    /// The parameters of the query.
    pub params: Fields,
    /// The cookies of the `Cookie` header.
    pub cookies: Fields,
}

/// What a `Request` stands for.
pub struct RequestModel {
    pub method: Seq<u8>,
    pub path: Seq<u8>,
    pub headers: Pairs,
    pub body: Option<BodyModel>,
    pub params: Pairs,
    pub cookies: Pairs,
}

impl View for Request {
    type V = RequestModel;

    open spec fn view(&self) -> RequestModel {
        RequestModel {
            method: self.method@,
            path: self.path@,
            headers: self.headers@,
            body: body_view(self.body),
            params: self.params@,
            cookies: self.cookies@,
        }
    }
}

/// The header lines at the start of `s`: its lines up to the first empty
/// line, or up to the end of `s` if no line is empty.
pub open spec fn header_lines(s: Seq<u8>) -> Seq<Seq<u8>>
    decreases s.len(),
{
    if s.len() == 0 || first_line(s).len() == 0 {
        Seq::empty()
    } else {
        seq![first_line(s)] + header_lines(after_first_line(s))
    }
}

/// What follows the header lines of `s` and the empty line that ends them.
pub open spec fn payload(s: Seq<u8>) -> Seq<u8>
    decreases s.len(),
{
    if s.len() == 0 {
        s
    } else if first_line(s).len() == 0 {
        after_first_line(s)
    } else {
        payload(after_first_line(s))
    }
}

/// Whether `s` is made of complete lines only, none of them empty: each line
/// ends with a line feed.
pub open spec fn complete_lines(s: Seq<u8>) -> bool
    decreases s.len(),
{
    s.len() == 0 || (0 <= index_of(s, LF) < s.len() && first_line(s).len() > 0 && complete_lines(
        after_first_line(s),
    ))
}

/// Behind complete lines that are not empty, the header lines go on and the
/// payload is found as if those lines were not there.
pub proof fn lemma_lines_then_more(lines: Seq<u8>, more: Seq<u8>)
    requires
        complete_lines(lines),
    ensures
        header_lines(lines + more) == header_lines(lines) + header_lines(more),
        payload(lines + more) == payload(more),
        lines.len() > 0 ==> first_line(lines + more) == first_line(lines) && after_first_line(
            lines + more,
        ) == after_first_line(lines) + more,
    decreases lines.len(),
{
    if lines.len() == 0 {
        assert(lines + more =~= more);
        assert(header_lines(lines) + header_lines(more) =~= header_lines(more));
    } else {
        let i = index_of(lines, LF);
        let s = lines + more;
        lemma_index_of(lines, LF);
        assert forall|j: int| 0 <= j < i implies s[j] != LF by {
            assert(s[j] == lines[j]);
        }
        assert(s[i] == lines[i]);
        lemma_index_of_unique(s, LF, i);
        if i > 0 {
            assert(s[i - 1] == lines[i - 1]);
        }
        assert(s.take(i) =~= lines.take(i));
        assert(s.take(i - 1) =~= lines.take(i - 1));
        assert(s.skip(i + 1) =~= lines.skip(i + 1) + more);
        lemma_lines_then_more(after_first_line(lines), more);
        assert(header_lines(s) =~= header_lines(lines) + header_lines(more));
    }
}

/// The end of a line is a carriage return and a line feed.
pub proof fn lemma_line_end()
    ensures
        line_end() == seq![CR, LF],
{
    reveal_strlit("\r\n");
    assert(is_ascii_chars("\r\n"@));
    lemma_ascii_bytes("\r\n"@);
    assert(line_end() =~= seq![CR, LF]);
}

/// The header fields of the request `raw`: each header line sets the field
/// named before its first `": "`; a line without `": "` sets nothing.
pub open spec fn request_headers(raw: Seq<u8>) -> Pairs {
    collect(header_lines(after_first_line(raw)), bytes_of(": "@))
}

/// The body length that `headers` declare: the number in `Content-Length`,
/// and 0 where that header is missing or holds no number that fits.
pub open spec fn declared_length(headers: Pairs) -> usize {
    match lookup(headers, bytes_of("Content-Length"@)) {
        Some(value) => match usize_value(value) {
            Some(n) => n,
            None => 0,
        },
        None => 0,
    }
}

/// The bytes of `payload` that count as the body: no more than `headers`
/// declare.
pub open spec fn kept_body(headers: Pairs, payload: Seq<u8>) -> Seq<u8> {
    if payload.len() > declared_length(headers) {
        payload.take(declared_length(headers) as int)
    } else {
        payload
    }
}

/// Whether `headers` announce a JSON body: `Content-Type` is set and holds
/// `application/json`.
pub open spec fn announces_json(headers: Pairs) -> bool {
    match lookup(headers, bytes_of("Content-Type"@)) {
        Some(value) => contains(value, bytes_of("application/json"@)),
        None => false,
    }
}

/// The body of a request with the given headers and payload: absent where
/// the kept bytes are blank; else the JSON document that they are, where the
/// headers announce JSON; else the kept bytes themselves.
pub open spec fn body_of(headers: Pairs, payload: Seq<u8>) -> Result<
    Option<BodyModel>,
    ParseError,
> {
    let kept = kept_body(headers, payload);
    if is_blank(kept) {
        Ok(None)
    } else if announces_json(headers) {
        match json_document(kept) {
            Some(value) => Ok(Some(BodyModel::Json(value))),
            None => Err(ParseError::InvalidJsonBody),
        }
    } else {
        Ok(Some(BodyModel::Text(kept)))
    }
}

/// The request target without the host: where `headers` name a `Host` that
/// stands in `target`, what follows its first occurrence.
pub open spec fn without_host(target: Seq<u8>, headers: Pairs) -> Seq<u8> {
    match lookup(headers, bytes_of("Host"@)) {
        Some(host) => match first_match(target, host) {
            Some(i) => target.skip(i + host.len()),
            None => target,
        },
        None => target,
    }
}

/// The path of `target`: what stands before its first `?`.
pub open spec fn path_of(target: Seq<u8>) -> Seq<u8> {
    target.take(index_of(target, QUESTION_MARK))
}

/// The parameters of `target`: what follows its first `?`, read as
/// `name=value` entries with `&` between them.
pub open spec fn params_of(target: Seq<u8>) -> Pairs {
    let q = index_of(target, QUESTION_MARK);
    if 0 <= q < target.len() {
        collect(list_entries(target.skip(q + 1), AMPERSAND, false), bytes_of("="@))
    } else {
        Pairs::empty()
    }
}

/// The cookies that `headers` carry: the `Cookie` header, read as
/// `name=value` entries with `;` between them, each entry trimmed.
pub open spec fn cookies_of(headers: Pairs) -> Pairs {
    match lookup(headers, bytes_of("Cookie"@)) {
        Some(value) => collect(list_entries(value, SEMICOLON, true), bytes_of("="@)),
        None => Pairs::empty(),
    }
}

/// What the bytes `raw` mean as a request.
pub open spec fn parse(raw: Seq<u8>) -> Result<RequestModel, ParseError> {
    let words = tokens(first_line(raw));
    let headers = request_headers(raw);
    if raw.len() == 0 {
        Err(ParseError::EmptyRequest)
    } else if words.len() < 3 {
        Err(ParseError::MalformedStartLine)
    } else {
        match body_of(headers, payload(after_first_line(raw))) {
            Err(error) => Err(error),
            Ok(body) => {
                let target = without_host(words[1], headers);
                Ok(
                    RequestModel {
                        method: words[0],
                        path: path_of(target),
                        headers,
                        body,
                        params: params_of(target),
                        cookies: cookies_of(headers),
                    },
                )
            },
        }
    }
}

/// The body that a request keeps is never longer than its headers declare,
/// and where the payload holds at least as many bytes as they declare, it is
/// exactly that long. A text body is these kept bytes; a JSON body is the
/// document that they are; and the body is absent only where they are blank.
pub proof fn lemma_body_has_declared_length(raw: Seq<u8>)
    requires
        parse(raw) is Ok,
    ensures
        ({
            let headers = request_headers(raw);
            let payload = payload(after_first_line(raw));
            let kept = kept_body(headers, payload);
            &&& kept.len() <= declared_length(headers)
            &&& payload.len() >= declared_length(headers) ==> kept.len() == declared_length(
                headers,
            )
            &&& payload.len() == declared_length(headers) ==> kept == payload
            &&& match parse(raw)->Ok_0.body {
                Some(BodyModel::Text(text)) => text == kept,
                Some(BodyModel::Json(value)) => json_document(kept) == Some(value),
                None => is_blank(kept),
            }
        }),
{
}

/// Whether the body that a request with the given headers and payload keeps
/// is announced as JSON and is neither blank nor a JSON document.
pub open spec fn has_invalid_json(headers: Pairs, payload: Seq<u8>) -> bool {
    &&& announces_json(headers)
    &&& !is_blank(kept_body(headers, payload))
    &&& json_document(kept_body(headers, payload)) is None
}

/// When a request is refused, and why: as empty if and only if it holds no
/// byte; for its start line if and only if it is not empty and its first line
/// has fewer than three words; and for its body if and only if neither of
/// these holds and the body that it keeps is announced as JSON and is neither
/// blank nor a JSON document. Such a body is never taken as text. Every other
/// request is read.
pub proof fn lemma_refusals(raw: Seq<u8>)
    ensures
        parse(raw) == Err::<RequestModel, ParseError>(ParseError::EmptyRequest) <==> raw.len() == 0,
        parse(raw) == Err::<RequestModel, ParseError>(ParseError::MalformedStartLine) <==> raw.len()
            > 0 && tokens(first_line(raw)).len() < 3,
        parse(raw) == Err::<RequestModel, ParseError>(ParseError::InvalidJsonBody) <==> raw.len()
            > 0 && tokens(first_line(raw)).len() >= 3 && has_invalid_json(
            request_headers(raw),
            payload(after_first_line(raw)),
        ),
        parse(raw) is Ok <==> raw.len() > 0 && tokens(first_line(raw)).len() >= 3
            && !has_invalid_json(request_headers(raw), payload(after_first_line(raw))),
{
}

/// No name occurs twice among the headers, the parameters or the cookies of
/// a request.
pub proof fn lemma_request_fields_distinct(raw: Seq<u8>)
    requires
        parse(raw) is Ok,
    ensures
        distinct_keys(parse(raw)->Ok_0.headers),
        distinct_keys(parse(raw)->Ok_0.params),
        distinct_keys(parse(raw)->Ok_0.cookies),
{
    let headers = request_headers(raw);
    lemma_collect_distinct(header_lines(after_first_line(raw)), bytes_of(": "@));
    let target = without_host(tokens(first_line(raw))[1], headers);
    let q = index_of(target, QUESTION_MARK);
    lemma_collect_distinct(list_entries(target.skip(q + 1), AMPERSAND, false), bytes_of("="@));
    match lookup(headers, bytes_of("Cookie"@)) {
        Some(value) => {
            lemma_collect_distinct(list_entries(value, SEMICOLON, true), bytes_of("="@));
        },
        None => {},
    }
}

/// Reads the header lines at the start of `s`; returns the fields they set
/// and what follows them.
fn read_headers(s: &[u8]) -> (r: (Fields, &[u8]))
    ensures
        r.0@ == collect(header_lines(s@), bytes_of(": "@)),
        r.1@ == payload(s@),
{
    let mut headers = Fields::new();
    let mut rest: &[u8] = s;
    let ghost mut done: Seq<Seq<u8>> = Seq::empty();
    assert(done + header_lines(rest@) =~= header_lines(s@));
    loop
        invariant_except_break
            header_lines(s@) == done + header_lines(rest@),
            payload(s@) == payload(rest@),
            headers@ == collect(done, bytes_of(": "@)),
        ensures
            headers@ == collect(header_lines(s@), bytes_of(": "@)),
            rest@ == payload(s@),
        decreases rest@.len(),
    {
        if rest.len() == 0 {
            assert(done + header_lines(rest@) =~= done);
            break;
        }
        let (line, next) = split_line(rest);
        proof {
            lemma_index_of(rest@, LF);
        }
        if line.len() == 0 {
            assert(done + header_lines(rest@) =~= done);
            rest = next;
            break;
        }
        headers.insert_piece(line, ": ".as_bytes());
        proof {
            let before = done;
            done = done.push(line@);
            assert(done.drop_last() =~= before);
            assert(before + header_lines(rest@) =~= done + header_lines(next@));
        }
        rest = next;
    }
    (headers, rest)
}

/// Reads the body of a request with the given headers out of `payload`.
fn read_body(headers: &Fields, payload: &[u8]) -> (r: Result<Option<Body>, ParseError>)
    ensures
        match r {
            Ok(body) => body_of(headers@, payload@) == Ok::<Option<BodyModel>, ParseError>(
                body_view(body),
            ),
            Err(error) => body_of(headers@, payload@) == Err::<Option<BodyModel>, ParseError>(
                error,
            ),
        },
{
    let declared: usize = match headers.get("Content-Length".as_bytes()) {
        Some(value) => match parse_usize(value.as_slice()) {
            Some(n) => n,
            None => 0,
        },
        None => 0,
    };
    let kept: &[u8] = if payload.len() > declared {
        slice_subrange(payload, 0, declared)
    } else {
        payload
    };
    proof {
        lemma_blank_iff_trimmed_empty(kept@);
    }
    if trim(kept).len() == 0 {
        return Ok(None);
    }
    let json: bool = match headers.get("Content-Type".as_bytes()) {
        Some(value) => find_subslice(value.as_slice(), "application/json".as_bytes()).is_some(),
        None => false,
    };
    if json {
        match decode(kept) {
            Ok(value) => Ok(Some(Body::Json(value))),
            Err(_) => Err(ParseError::InvalidJsonBody),
        }
    } else {
        Ok(Some(Body::Text(slice_to_vec(kept))))
    }
}

/// Reads a request: the start line, the header lines, an empty line and the
/// body.
pub fn parse_request(request: &[u8]) -> (r: Result<Request, ParseError>)
    ensures
        match r {
            Ok(parsed) => parse(request@) == Ok::<RequestModel, ParseError>(parsed@),
            Err(error) => parse(request@) == Err::<RequestModel, ParseError>(error),
        },
{
    if request.len() == 0 {
        return Err(ParseError::EmptyRequest);
    }
    let (start_line, rest) = split_line(request);
    let (method, after_method) = match next_token(start_line) {
        Some(found) => found,
        None => {
            return Err(ParseError::MalformedStartLine);
        },
    };
    let (target, after_target) = match next_token(after_method) {
        Some(found) => found,
        None => {
            return Err(ParseError::MalformedStartLine);
        },
    };
    if next_token(after_target).is_none() {
        return Err(ParseError::MalformedStartLine);
    }
    let ghost words = tokens(start_line@);
    assert(words.len() >= 3 && words[0] == method@ && words[1] == target@);
    let (headers, payload) = read_headers(rest);
    let body = match read_body(&headers, payload) {
        Ok(body) => body,
        Err(error) => {
            return Err(error);
        },
    };
    let target_len: usize = target.len();
    let target: &[u8] = match headers.get("Host".as_bytes()) {
        Some(host) => match find_subslice(target, host.as_slice()) {
            Some(i) => slice_subrange(target, i + host.len(), target_len),
            None => target,
        },
        None => target,
    };
    let q = find_byte(target, QUESTION_MARK);
    proof {
        lemma_index_of(target@, QUESTION_MARK);
    }
    let params = if q < target.len() {
        parse_list(slice_subrange(target, q + 1, target.len()), AMPERSAND, "=".as_bytes(), false)
    } else {
        Fields::new()
    };
    let cookies = match headers.get("Cookie".as_bytes()) {
        Some(value) => parse_list(value.as_slice(), SEMICOLON, "=".as_bytes(), true),
        None => Fields::new(),
    };
    Ok(
        Request {
            method: slice_to_vec(method),
            path: slice_to_vec(slice_subrange(target, 0, q)),
            headers,
            body,
            params,
            cookies,
        },
    )
}

/// A response, as a handler builds it.
#[derive(Debug)]
pub struct Response {
    /// The status code.
    pub status_code: u16,
    /// The header fields.
    pub headers: Fields,
    /// The body, if there is one.
    pub body: Option<Vec<u8>>,
    /// The cookies to set, if there are any.
    pub cookies: Option<Fields>,
}

/// What a `Response` stands for.
pub struct ResponseModel {
    pub status_code: u16,
    pub headers: Pairs,
    pub body: Option<Seq<u8>>,
    pub cookies: Option<Pairs>,
}

impl View for Response {
    type V = ResponseModel;

    open spec fn view(&self) -> ResponseModel {
        ResponseModel {
            status_code: self.status_code,
            headers: self.headers@,
            body: match self.body {
                Some(body) => Some(body@),
                None => None,
            },
            cookies: match self.cookies {
                Some(cookies) => Some(cookies@),
                None => None,
            },
        }
    }
}

/// The response with the given status and body and nothing else: a
/// `Content-Length` header with the length of the body if there is a body, no
/// other header and no cookies.
pub open spec fn plain_response(status_code: u16, body: Option<Seq<u8>>) -> ResponseModel {
    ResponseModel {
        status_code,
        headers: match body {
            Some(body) => seq![(bytes_of("Content-Length"@), decimal_digits(body.len()))],
            None => Pairs::empty(),
        },
        body,
        cookies: None,
    }
}

/// Builds a response with the given status and body.
pub fn create_response(status_code: u16, body: Option<Vec<u8>>) -> (response: Response)
    ensures
        response@ == plain_response(
            status_code,
            match body {
                Some(body) => Some(body@),
                None => None,
            },
        ),
{
    let mut headers = Fields::new();
    match &body {
        Some(body) => {
            headers.insert(to_bytes("Content-Length"), render_decimal(body.len() as u64));
            assert(headers@ =~= seq![
                (bytes_of("Content-Length"@), decimal_digits(body@.len())),
            ]);
        },
        None => {},
    }
    Response { status_code, headers, body, cookies: None }
}

/// The reason phrase that goes with `status_code` on the status line.
pub open spec fn reason_phrase(status_code: u16) -> Seq<char> {
    if status_code == 200 {
        "OK"@
    } else if status_code == 400 {
        "BAD REQUEST"@
    } else if status_code == 404 {
        "NOT FOUND"@
    } else {
        "INTERNAL SERVER ERROR"@
    }
}

/// The end of a line on the wire.
pub open spec fn line_end() -> Seq<u8> {
    bytes_of("\r\n"@)
}

/// The status line for `status_code`, with its line end.
pub open spec fn status_line(status_code: u16) -> Seq<u8> {
    bytes_of("HTTP/1.1 "@) + decimal_digits(status_code as nat) + bytes_of(" "@) + bytes_of(
        reason_phrase(status_code),
    ) + line_end()
}

/// The `Content-Length` line for a body of `length` bytes, with its line end.
pub open spec fn content_length_line(length: nat) -> Seq<u8> {
    bytes_of("Content-Length: "@) + decimal_digits(length) + line_end()
}

/// The line for one header field, with its line end. A field named
/// `Content-Length` gets no line: the length of the body is written in its
/// place.
pub open spec fn header_line(field: (Seq<u8>, Seq<u8>)) -> Seq<u8> {
    if field.0 == bytes_of("Content-Length"@) {
        Seq::empty()
    } else {
        field.0 + bytes_of(": "@) + field.1 + line_end()
    }
}

/// The lines for the header fields `headers`, in their order.
pub open spec fn header_block(headers: Pairs) -> Seq<u8>
    decreases headers.len(),
{
    if headers.len() == 0 {
        Seq::empty()
    } else {
        header_block(headers.drop_last()) + header_line(headers.last())
    }
}

/// The `Set-Cookie` line for one cookie, with its line end.
pub open spec fn cookie_line(cookie: (Seq<u8>, Seq<u8>)) -> Seq<u8> {
    bytes_of("Set-Cookie: "@) + cookie.0 + bytes_of("="@) + cookie.1 + line_end()
}

/// The `Set-Cookie` lines for `cookies`, in their order.
pub open spec fn cookie_block(cookies: Pairs) -> Seq<u8>
    decreases cookies.len(),
{
    if cookies.len() == 0 {
        Seq::empty()
    } else {
        cookie_block(cookies.drop_last()) + cookie_line(cookies.last())
    }
}

/// The body that goes on the wire for `response`: empty if it has none.
pub open spec fn wire_body(response: ResponseModel) -> Seq<u8> {
    match response.body {
        Some(body) => body,
        None => Seq::empty(),
    }
}

/// What stands before the body on the wire: the status line, the
/// `Content-Length` line, the other header lines, the `Set-Cookie` lines and
/// an empty line.
pub open spec fn wire_head(response: ResponseModel) -> Seq<u8> {
    status_line(response.status_code) + content_length_line(wire_body(response).len())
        + header_block(response.headers) + cookie_block(
        match response.cookies {
            Some(cookies) => cookies,
            None => Pairs::empty(),
        },
    ) + line_end()
}

/// The bytes that go on the wire for `response`.
pub open spec fn wire(response: ResponseModel) -> Seq<u8> {
    wire_head(response) + wire_body(response)
}

/// The reason phrase for `status_code`.
fn reason(status_code: u16) -> (text: &'static str)
    ensures
        text@ == reason_phrase(status_code),
{
    if status_code == 200 {
        "OK"
    } else if status_code == 400 {
        "BAD REQUEST"
    } else if status_code == 404 {
        "NOT FOUND"
    } else {
        "INTERNAL SERVER ERROR"
    }
}

/// Appends the header lines of `headers` to `out`.
fn write_headers(out: &mut Vec<u8>, headers: &Fields)
    ensures
        final(out)@ == old(out)@ + header_block(headers@),
{
    let mut i: usize = 0;
    assert(headers@.take(0) =~= Pairs::empty());
    assert(out@ =~= old(out)@ + header_block(headers@.take(0)));
    while i < headers.len()
        invariant
            i <= headers@.len(),
            out@ == old(out)@ + header_block(headers@.take(i as int)),
        decreases headers@.len() - i,
    {
        let name = headers.name_at(i);
        let ghost before = out@;
        if !bytes_equal(name.as_slice(), "Content-Length".as_bytes()) {
            append(out, name.as_slice());
            append(out, ": ".as_bytes());
            append(out, headers.value_at(i).as_slice());
            append(out, "\r\n".as_bytes());
        }
        proof {
            assert(headers@.take(i + 1).drop_last() =~= headers@.take(i as int));
            assert(headers@.take(i + 1).last() == headers@[i as int]);
            assert(out@ =~= before + header_line(headers@[i as int]));
            assert(out@ =~= old(out)@ + header_block(headers@.take(i + 1)));
        }
        i += 1;
    }
    assert(headers@.take(i as int) =~= headers@);
}

/// Appends the `Set-Cookie` lines of `cookies` to `out`.
fn write_cookies(out: &mut Vec<u8>, cookies: &Fields)
    ensures
        final(out)@ == old(out)@ + cookie_block(cookies@),
{
    let mut i: usize = 0;
    assert(cookies@.take(0) =~= Pairs::empty());
    assert(out@ =~= old(out)@ + cookie_block(cookies@.take(0)));
    while i < cookies.len()
        invariant
            i <= cookies@.len(),
            out@ == old(out)@ + cookie_block(cookies@.take(i as int)),
        decreases cookies@.len() - i,
    {
        let ghost before = out@;
        append(out, "Set-Cookie: ".as_bytes());
        append(out, cookies.name_at(i).as_slice());
        append(out, "=".as_bytes());
        append(out, cookies.value_at(i).as_slice());
        append(out, "\r\n".as_bytes());
        proof {
            assert(cookies@.take(i + 1).drop_last() =~= cookies@.take(i as int));
            assert(cookies@.take(i + 1).last() == cookies@[i as int]);
            assert(out@ =~= before + cookie_line(cookies@[i as int]));
            assert(out@ =~= old(out)@ + cookie_block(cookies@.take(i + 1)));
        }
        i += 1;
    }
    assert(cookies@.take(i as int) =~= cookies@);
}

/// Writes `response` as it goes on the wire.
pub fn format_response(response: &Response) -> (bytes: Vec<u8>)
    ensures
        bytes@ == wire(response@),
{
    let mut out: Vec<u8> = Vec::new();
    append(&mut out, "HTTP/1.1 ".as_bytes());
    append(&mut out, render_decimal(response.status_code as u64).as_slice());
    append(&mut out, " ".as_bytes());
    append(&mut out, reason(response.status_code).as_bytes());
    append(&mut out, "\r\n".as_bytes());
    assert(out@ =~= status_line(response.status_code));
    let length: usize = match &response.body {
        Some(body) => body.len(),
        None => 0,
    };
    append(&mut out, "Content-Length: ".as_bytes());
    append(&mut out, render_decimal(length as u64).as_slice());
    append(&mut out, "\r\n".as_bytes());
    assert(out@ =~= status_line(response.status_code) + content_length_line(
        wire_body(response@).len(),
    ));
    write_headers(&mut out, &response.headers);
    match &response.cookies {
        Some(cookies) => {
            write_cookies(&mut out, cookies);
        },
        None => {
            assert(cookie_block(Pairs::empty()) =~= Seq::<u8>::empty());
            assert(out@ =~= out@ + cookie_block(Pairs::empty()));
        },
    }
    append(&mut out, "\r\n".as_bytes());
    assert(out@ == wire_head(response@));
    match &response.body {
        Some(body) => {
            append(&mut out, body.as_slice());
        },
        None => {
            assert(out@ =~= out@ + Seq::<u8>::empty());
        },
    }
    out
}

/// A response with a body and nothing else goes on the wire as its status
/// line, the `Content-Length` line, an empty line and the body, byte for
/// byte; and the number on the `Content-Length` line, read back, is the
/// length of the body.
pub proof fn lemma_wire_of_plain_response(status_code: u16, body: Seq<u8>)
    ensures
        wire(plain_response(status_code, Some(body))) == status_line(status_code)
            + content_length_line(body.len()) + line_end() + body,
        decimal_value(decimal_digits(body.len())) == Some(body.len()),
{
    let response = plain_response(status_code, Some(body));
    assert(response.headers.drop_last() =~= Pairs::empty());
    assert(header_block(response.headers.drop_last()) =~= Seq::<u8>::empty());
    assert(header_line(response.headers.last()) =~= Seq::<u8>::empty());
    assert(header_block(response.headers) =~= Seq::<u8>::empty());
    assert(cookie_block(Pairs::empty()) =~= Seq::<u8>::empty());
    assert(wire(response) =~= status_line(status_code) + content_length_line(body.len())
        + line_end() + body);
    lemma_decimal_round_trip(body.len());
}

/// On the wire a response ends with its body, whatever its headers and
/// cookies are, and the `Content-Length` line that precedes them holds the
/// length of that body.
pub proof fn lemma_wire_ends_with_body(response: ResponseModel)
    ensures
        wire(response).len() == wire_head(response).len() + wire_body(response).len(),
        wire(response).skip(wire_head(response).len() as int) == wire_body(response),
        wire(response).take(
            (status_line(response.status_code) + content_length_line(
                wire_body(response).len(),
            )).len() as int,
        ) == status_line(response.status_code) + content_length_line(wire_body(response).len()),
{
    let head = wire_head(response);
    let body = wire_body(response);
    assert(wire(response).skip(head.len() as int) =~= body);
    let start = status_line(response.status_code) + content_length_line(body.len());
    assert(wire(response).take(start.len() as int) =~= start);
}

/// The decimal notation of a number stands on one line.
proof fn lemma_digits_on_one_line(n: nat)
    ensures
        on_one_line(decimal_digits(n)),
        decimal_digits(n).len() > 0,
{
    lemma_decimal_round_trip(n);
    assert forall|i: int| 0 <= i < decimal_digits(n).len() implies #[trigger] decimal_digits(n)[i]
        != LF && decimal_digits(n)[i] != CR by {
        assert(is_digit(decimal_digits(n)[i]));
    }
}

/// The status line is one line with its line end: what precedes the line
/// end is not empty and stands on one line.
proof fn lemma_status_line(status_code: u16) -> (content: Seq<u8>)
    ensures
        status_line(status_code) == content + seq![CR, LF],
        on_one_line(content),
        content.len() > 0,
{
    reveal_strlit("HTTP/1.1 ");
    reveal_strlit(" ");
    reveal_strlit("OK");
    reveal_strlit("BAD REQUEST");
    reveal_strlit("NOT FOUND");
    reveal_strlit("INTERNAL SERVER ERROR");
    assert(is_ascii_chars("HTTP/1.1 "@));
    assert(is_ascii_chars(" "@));
    assert(is_ascii_chars(reason_phrase(status_code)));
    lemma_ascii_bytes("HTTP/1.1 "@);
    lemma_ascii_bytes(" "@);
    lemma_ascii_bytes(reason_phrase(status_code));
    lemma_digits_on_one_line(status_code as nat);
    lemma_line_end();
    let content = bytes_of("HTTP/1.1 "@) + decimal_digits(status_code as nat) + bytes_of(" "@)
        + bytes_of(reason_phrase(status_code));
    assert(on_one_line(bytes_of("HTTP/1.1 "@)));
    assert(on_one_line(bytes_of(" "@)));
    assert(on_one_line(bytes_of(reason_phrase(status_code))));
    content
}

/// The `Content-Length` line is one line with its line end, and it sets the
/// field `Content-Length` to the decimal notation of the length.
proof fn lemma_content_length_line(length: nat) -> (content: Seq<u8>)
    ensures
        content_length_line(length) == content + seq![CR, LF],
        on_one_line(content),
        content.len() > 0,
        sides(content, bytes_of(": "@)) == Some(
            (bytes_of("Content-Length"@), decimal_digits(length)),
        ),
{
    reveal_strlit("Content-Length: ");
    reveal_strlit("Content-Length");
    reveal_strlit(": ");
    assert(is_ascii_chars("Content-Length: "@));
    assert(is_ascii_chars("Content-Length"@));
    assert(is_ascii_chars(": "@));
    lemma_ascii_bytes("Content-Length: "@);
    lemma_ascii_bytes("Content-Length"@);
    lemma_ascii_bytes(": "@);
    lemma_digits_on_one_line(length);
    lemma_line_end();
    let label = bytes_of("Content-Length: "@);
    let sep = bytes_of(": "@);
    let content = label + decimal_digits(length);
    assert(on_one_line(label));
    assert(content.subrange(14, 16) =~= sep);
    assert forall|j: int| 0 <= j < 14 implies !occurs_at(content, sep, j) by {
        assert(content.subrange(j, j + 2)[0] == content[j]);
        assert(content[j] == label[j]);
        assert(label[j] != sep[0]);
    }
    lemma_first_match_from_unique(content, sep, 0, 14);
    assert(content.take(14) =~= bytes_of("Content-Length"@));
    assert(content.skip(16) =~= decimal_digits(length));
    content
}

/// What is written for a response with a body and nothing else is read back
/// as it was meant: the first line is the status line, the only header is
/// `Content-Length` with the length of the body, and the payload is the body.
pub proof fn lemma_plain_response_reads_back(status_code: u16, body: Seq<u8>)
    ensures
        ({
            let bytes = wire(plain_response(status_code, Some(body)));
            &&& first_line(bytes) + line_end() == status_line(status_code)
            &&& request_headers(bytes) == plain_response(status_code, Some(body)).headers
            &&& payload(after_first_line(bytes)) == body
            &&& body.len() <= usize::MAX ==> declared_length(request_headers(bytes)) == body.len()
        }),
{
    let bytes = wire(plain_response(status_code, Some(body)));
    lemma_wire_of_plain_response(status_code, body);
    lemma_line_end();
    let status = lemma_status_line(status_code);
    let length = lemma_content_length_line(body.len());
    let empty = Seq::<u8>::empty();
    let tail = empty + seq![CR, LF] + body;
    let rest = length + seq![CR, LF] + tail;
    assert(bytes =~= status + seq![CR, LF] + rest);
    lemma_first_line(status, rest);
    lemma_first_line(length, tail);
    lemma_first_line(empty, body);
    assert(header_lines(tail) =~= Seq::<Seq<u8>>::empty());
    assert(header_lines(rest) =~= seq![length]);
    assert(payload(tail) == body);
    assert(payload(rest) == payload(tail));
    let lines = header_lines(rest);
    assert(lines.drop_last() =~= Seq::<Seq<u8>>::empty());
    assert(collect(lines.drop_last(), bytes_of(": "@)) =~= Pairs::empty());
    assert(collect(lines, bytes_of(": "@)) =~= seq![
        (bytes_of("Content-Length"@), decimal_digits(body.len())),
    ]);
    lemma_decimal_round_trip(body.len());
}

} // verus!
