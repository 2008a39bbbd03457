//! The HTTP layer: messages on the wire, routes and the server that answers.

pub mod parser;
pub mod router;

use vstd::prelude::*;
use crate::assoc::{distinct_keys, lemma_key_index, lemma_put, lookup, put};
use crate::decimal::{parse_usize, usize_value};
use crate::http::parser::{
    complete_lines, create_response, error_text, format_response, header_lines, lemma_line_end,
    lemma_lines_then_more, line_end, parse, parse_request, payload, plain_response,
    request_headers, wire, ParseError, Request, RequestModel, Response, ResponseModel,
};
use crate::http::router::{Route, Router, RouterKey};
use crate::text::{
    after_first_line, append, bytes_of, first_line, lemma_first_line, lemma_index_of, next_token,
    split_line, to_bytes, tokens, CR, LF,
};

verus! {

/// The route that a request asks for: its path and its method.
pub open spec fn route_of(request: RequestModel) -> Route {
    (request.path, request.method)
}

/// The response to a request for which there is no route.
pub open spec fn not_found() -> ResponseModel {
    plain_response(404, Some(bytes_of("[Error]: Route not found"@)))
}

/// The response to a request that could not be read because of `error`.
pub open spec fn bad_request(error: ParseError) -> ResponseModel {
    plain_response(
        400,
        Some(bytes_of("[Error]: Error parsing request: "@) + bytes_of(error_text(error))),
    )
}

/// Whether each handler of `routes` may be called with whatever request.
pub open spec fn accept_every_request<H: Fn(Request) -> Response>(routes: Seq<(Route, H)>) -> bool {
    forall|i: int, request: Request|
        0 <= i < routes.len() ==> #[trigger] call_requires(routes[i].1, (request,))
}

/// Whether `bytes` answer the request `raw` as a server with the routes
/// `routes` does: with the `bad_request` response if `raw` cannot be read,
/// with the `not_found` response if no route has exactly the path and the
/// method of the request, and else with a response that the handler of that
/// route gives to the request.
pub open spec fn answers<H: Fn(Request) -> Response>(
    routes: Seq<(Route, H)>,
    raw: Seq<u8>,
    bytes: Seq<u8>,
) -> bool {
    match parse(raw) {
        Err(error) => bytes == wire(bad_request(error)),
        Ok(model) => {
            let handler = lookup(routes, route_of(model));
            if handler is Some {
                exists|request: Request, response: Response|
                    request@ == model && #[trigger] call_ensures(
                        handler->Some_0,
                        (request,),
                        response,
                    ) && bytes == wire(response@)
            } else {
                bytes == wire(not_found())
            }
        },
    }
}

/// A route answers only requests with exactly its path and its method: to
/// set a route changes nothing for a request that asks for another path or
/// another method.
pub proof fn lemma_routes_match_exactly<H>(
    routes: Seq<(Route, H)>,
    route: Route,
    handler: H,
    asked: Route,
)
    requires
        distinct_keys(routes),
        asked != route,
    ensures
        lookup(put(routes, route, handler), asked) == lookup(routes, asked),
        lookup(put(routes, route, handler), route) == Some(handler),
{
    lemma_put(routes, route, handler);
}

/// A request is answered with `not_found` where no route of the table has
/// both its path and its method, whatever routes there are for the same path
/// with another method or for the same method with another path.
pub proof fn lemma_unrouted_is_not_found<H: Fn(Request) -> Response>(
    routes: Seq<(Route, H)>,
    raw: Seq<u8>,
    bytes: Seq<u8>,
)
    requires
        parse(raw) is Ok,
        forall|i: int| 0 <= i < routes.len() ==> (#[trigger] routes[i]).0 != route_of(parse(raw)->Ok_0),
        answers(routes, raw, bytes),
    ensures
        bytes == wire(not_found()),
{
    lemma_key_index(routes, route_of(parse(raw)->Ok_0));
}

/// Where each handler of a routing table may be called with whatever
/// request, and so may a new handler, the same holds of the table once the
/// new handler is set for a route.
pub proof fn lemma_put_keeps_acceptance<H: Fn(Request) -> Response>(
    routes: Seq<(Route, H)>,
    route: Route,
    handler: H,
)
    requires
        accept_every_request(routes),
        forall|request: Request| #[trigger] call_requires(handler, (request,)),
    ensures
        accept_every_request(put(routes, route, handler)),
{
    lemma_key_index(routes, route);
}

/// A server: a routing table, and the number of workers that serve it.
pub struct HttpServer<H> {
    pool_size: usize,
    router: Router<H>,
}

impl<H> View for HttpServer<H> {
    type V = Seq<(Route, H)>;

    closed spec fn view(&self) -> Seq<(Route, H)> {
        self.router@
    }
}

impl<H> HttpServer<H> {
    /// The number of workers that this server was made for.
    pub closed spec fn workers(&self) -> usize {
        self.pool_size
    }

    /// A server for `pool_size` workers, without routes.
    pub fn new(pool_size: usize) -> (server: HttpServer<H>)
        ensures
            server@ == Seq::<(Route, H)>::empty(),
            server.workers() == pool_size,
    {
        HttpServer { pool_size, router: Router::new() }
    }

    /// The number of workers that this server was made for.
    pub fn pool_size(&self) -> (n: usize)
        ensures
            n == self.workers(),
    {
        self.pool_size
    }

    /// Gives the route with the path `path` and the method `method` the
    /// handler `controller`.
    fn register(&mut self, path: &str, method: &str, controller: H)
        ensures
            final(self)@ == put(old(self)@, (bytes_of(path@), bytes_of(method@)), controller),
            final(self).workers() == old(self).workers(),
            distinct_keys(final(self)@),
    {
        let key = RouterKey { path: to_bytes(path), method: to_bytes(method) };
        self.router.insert(key, controller);
    }

    /// Lets `controller` handle `GET` requests for exactly the path `path`.
    pub fn get(&mut self, path: &str, controller: H)
        ensures
            final(self)@ == put(old(self)@, (bytes_of(path@), bytes_of("GET"@)), controller),
            final(self).workers() == old(self).workers(),
            distinct_keys(final(self)@),
    {
        self.register(path, "GET", controller);
    }

    /// Lets `controller` handle `POST` requests for exactly the path `path`.
    pub fn post(&mut self, path: &str, controller: H)
        ensures
            final(self)@ == put(old(self)@, (bytes_of(path@), bytes_of("POST"@)), controller),
            final(self).workers() == old(self).workers(),
            distinct_keys(final(self)@),
    {
        self.register(path, "POST", controller);
    }

    /// Lets `controller` handle `PUT` requests for exactly the path `path`.
    pub fn put(&mut self, path: &str, controller: H)
        ensures
            final(self)@ == put(old(self)@, (bytes_of(path@), bytes_of("PUT"@)), controller),
            final(self).workers() == old(self).workers(),
            distinct_keys(final(self)@),
    {
        self.register(path, "PUT", controller);
    }

    /// Lets `controller` handle `PATCH` requests for exactly the path `path`.
    pub fn patch(&mut self, path: &str, controller: H)
        ensures
            final(self)@ == put(old(self)@, (bytes_of(path@), bytes_of("PATCH"@)), controller),
            final(self).workers() == old(self).workers(),
            distinct_keys(final(self)@),
    {
        self.register(path, "PATCH", controller);
    }

    /// Lets `controller` handle `DELETE` requests for exactly the path `path`.
    pub fn delete(&mut self, path: &str, controller: H)
        ensures
            final(self)@ == put(old(self)@, (bytes_of(path@), bytes_of("DELETE"@)), controller),
            final(self).workers() == old(self).workers(),
            distinct_keys(final(self)@),
    {
        self.register(path, "DELETE", controller);
    }
}

impl<H: Fn(Request) -> Response> HttpServer<H> {
    /// Hands `request` to the handler of its route. Without such a route the
    /// response is `not_found`, and no handler is called.
    pub fn dispatch(&self, request: Request) -> (response: Response)
        requires
            match lookup(self@, route_of(request@)) {
                Some(handler) => call_requires(handler, (request,)),
                None => true,
            },
        ensures
            match lookup(self@, route_of(request@)) {
                Some(handler) => call_ensures(handler, (request,), response),
                None => response@ == not_found(),
            },
    {
        let key = RouterKey { path: request.path.clone(), method: request.method.clone() };
        match self.router.get(&key) {
            Some(handler) => (*handler)(request),
            None => create_response(404, Some(to_bytes("[Error]: Route not found"))),
        }
    }

    /// Answers the request `raw`: reads it, hands it to the handler of its
    /// route and writes the response as it goes on the wire.
    pub fn respond(&self, raw: &[u8]) -> (bytes: Vec<u8>)
        requires
            accept_every_request(self@),
        ensures
            answers(self@, raw@, bytes@),
    {
        match parse_request(raw) {
            Ok(request) => {
                proof {
                    lemma_key_index(self@, route_of(request@));
                }
                let response = self.dispatch(request);
                format_response(&response)
            },
            Err(error) => {
                let mut body = to_bytes("[Error]: Error parsing request: ");
                append(&mut body, error.description().as_bytes());
                let response = create_response(400, Some(body));
                format_response(&response)
            },
        }
    }
}

/// `b` in lower case, if it is an ASCII capital letter; else `b`.
pub open spec fn lowered(b: u8) -> u8 {
    if 65 <= b && b <= 90 {
        (b + 32) as u8
    } else {
        b
    }
}

/// Whether `line` begins with `prefix`, capital letters of `line` taken as
/// their small letters.
pub open spec fn begins_with_lowered(line: Seq<u8>, prefix: Seq<u8>) -> bool {
    prefix.len() <= line.len() && forall|i: int|
        0 <= i < prefix.len() ==> lowered(#[trigger] line[i]) == prefix[i]
}

/// The body length that one line of a header block announces: the number
/// that is the second word of a line which begins with `content-length:` in
/// any case of letters.
pub open spec fn announced_length(line: Seq<u8>) -> Option<usize> {
    if begins_with_lowered(line, bytes_of("content-length:"@)) && tokens(line).len() >= 2 {
        usize_value(tokens(line)[1])
    } else {
        None
    }
}

/// The number of body bytes to expect after the header block `head`: what
/// its first line that announces a length announces, and 0 if no line does.
pub open spec fn expected_body_length(head: Seq<u8>) -> usize
    decreases head.len(),
{
    if head.len() == 0 {
        0
    } else {
        match announced_length(first_line(head)) {
            Some(n) => n,
            None => expected_body_length(after_first_line(head)),
        }
    }
}

/// Whether `line` begins with `prefix`, capital letters of `line` taken as
/// their small letters.
fn has_prefix_lowered(line: &[u8], prefix: &[u8]) -> (r: bool)
    ensures
        r == begins_with_lowered(line@, prefix@),
{
    if prefix.len() > line.len() {
        return false;
    }
    let mut i: usize = 0;
    while i < prefix.len()
        invariant
            i <= prefix.len() <= line.len(),
            forall|j: int| 0 <= j < i ==> lowered(#[trigger] line@[j]) == prefix@[j],
        decreases prefix.len() - i,
    {
        let b: u8 = line[i];
        let low: u8 = if 65 <= b && b <= 90 {
            b + 32
        } else {
            b
        };
        if low != prefix[i] {
            return false;
        }
        i += 1;
    }
    true
}

/// The body length that `line` announces.
fn line_length(line: &[u8]) -> (r: Option<usize>)
    ensures
        r == announced_length(line@),
{
    if !has_prefix_lowered(line, "content-length:".as_bytes()) {
        return None;
    }
    let after_first = match next_token(line) {
        Some((_, rest)) => rest,
        None => {
            return None;
        },
    };
    match next_token(after_first) {
        Some((second, _)) => parse_usize(second),
        None => None,
    }
}

/// Reads off a header block how many body bytes follow it.
pub fn body_length(head: &[u8]) -> (n: usize)
    ensures
        n == expected_body_length(head@),
{
    let mut rest: &[u8] = head;
    while rest.len() > 0
        invariant
            expected_body_length(head@) == expected_body_length(rest@),
        decreases rest@.len(),
    {
        let (line, next) = split_line(rest);
        proof {
            lemma_index_of(rest@, LF);
        }
        match line_length(line) {
            Some(n) => {
                return n;
            },
            None => {},
        }
        rest = next;
    }
    0
}

/// A header block and a body as one request: the header block, an empty
/// line, the body.
pub open spec fn framed(head: Seq<u8>, body: Seq<u8>) -> Seq<u8> {
    head + line_end() + body
}

/// Puts a header block and a body together as one request.
pub fn frame(head: &[u8], body: &[u8]) -> (request: Vec<u8>)
    ensures
        request@ == framed(head@, body@),
{
    let mut request: Vec<u8> = Vec::new();
    append(&mut request, head);
    append(&mut request, "\r\n".as_bytes());
    append(&mut request, body);
    assert(request@ =~= framed(head@, body@));
    request
}

/// A request that is framed from a header block of complete lines, none of
/// them empty, and a body is read back as it was put together: its start line
/// and its header lines are those of the header block, and its payload is the
/// body.
pub proof fn lemma_framed_request(head: Seq<u8>, body: Seq<u8>)
    requires
        head.len() > 0,
        complete_lines(head),
    ensures
        first_line(framed(head, body)) == first_line(head),
        request_headers(framed(head, body)) == request_headers(head),
        payload(after_first_line(framed(head, body))) == body,
{
    let tail = line_end() + body;
    lemma_line_end();
    assert(framed(head, body) =~= head + tail);
    lemma_lines_then_more(head, tail);
    let rest = after_first_line(head);
    lemma_lines_then_more(rest, tail);
    lemma_first_line(Seq::<u8>::empty(), body);
    assert(Seq::<u8>::empty() + seq![CR, LF] + body =~= tail);
    assert(header_lines(tail) =~= Seq::<Seq<u8>>::empty());
    assert(header_lines(rest) + header_lines(tail) =~= header_lines(rest));
    lemma_lines_then_more(rest, Seq::<u8>::empty());
    assert(rest + Seq::<u8>::empty() =~= rest);
}

} // verus!
