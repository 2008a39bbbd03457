use std::cell::{Cell, RefCell};

use http_server::controllers::{
    get_message_by_id_controller, login_controller, post_message_controller,
};
use http_server::http::parser::{create_response, Request, Response};
use http_server::http::router::{Router, RouterKey};
use http_server::http::{body_length, frame, HttpServer};
use http_server::store::MessageStore;

type Handler<'a> = Box<dyn Fn(Request) -> Response + 'a>;

fn key(path: &str, method: &str) -> RouterKey {
    RouterKey { path: path.as_bytes().to_vec(), method: method.as_bytes().to_vec() }
}

#[test]
fn router_keys_are_equal_if_both_parts_are() {
    assert_eq!(key("/msg", "GET"), key("/msg", "GET"));
    assert_ne!(key("/msg", "GET"), key("/msg", "POST"));
    assert_ne!(key("/msg", "GET"), key("/msg/", "GET"));
    assert_ne!(key("/msg", "GET"), key("/msg", "get"));
    assert_ne!(key("/msg", "GET"), key("/Msg", "GET"));
    assert_ne!(key("GET", "/msg"), key("/msg", "GET"));
}

#[test]
fn router_finds_exact_matches_only() {
    let mut router: Router<u32> = Router::new();
    assert_eq!(router.len(), 0);
    router.insert(key("/msg", "POST"), 1);
    router.insert(key("/msg/:id", "GET"), 2);
    assert_eq!(router.len(), 2);
    assert_eq!(router.get(&key("/msg", "POST")), Some(&1));
    assert_eq!(router.get(&key("/msg/:id", "GET")), Some(&2));
    assert_eq!(router.get(&key("/msg", "GET")), None);
    assert_eq!(router.get(&key("/msg/7", "GET")), None);
    assert_eq!(router.get(&key("/msg/", "POST")), None);
    assert_eq!(router.get(&key("/ms", "POST")), None);
    assert_eq!(router.get(&key("", "")), None);
}

#[test]
fn router_replaces_the_handler_of_a_route() {
    let mut router: Router<u32> = Router::new();
    router.insert(key("/a", "GET"), 1);
    router.insert(key("/b", "GET"), 2);
    router.insert(key("/a", "GET"), 3);
    assert_eq!(router.len(), 2);
    assert_eq!(router.get(&key("/a", "GET")), Some(&3));
    assert_eq!(router.get(&key("/b", "GET")), Some(&2));
}

#[test]
fn server_remembers_its_pool_size() {
    let server: HttpServer<Handler> = HttpServer::new(10);
    assert_eq!(server.pool_size(), 10);
}

#[test]
fn request_without_route_is_not_found() {
    let server: HttpServer<Handler> = HttpServer::new(1);
    assert_eq!(
        server.respond(b"GET /nothing HTTP/1.1\r\n\r\n"),
        b"HTTP/1.1 404 NOT FOUND\r\nContent-Length: 24\r\n\r\n[Error]: Route not found".to_vec()
    );
}

#[test]
fn other_method_on_a_registered_path_is_not_found_and_calls_no_handler() {
    let calls = Cell::new(0u32);
    let mut server: HttpServer<Handler> = HttpServer::new(1);
    server.post(
        "/msg",
        Box::new(|_request| {
            calls.set(calls.get() + 1);
            create_response(200, Some(b"posted".to_vec()))
        }),
    );
    assert_eq!(
        server.respond(b"GET /msg HTTP/1.1\r\n\r\n"),
        b"HTTP/1.1 404 NOT FOUND\r\nContent-Length: 24\r\n\r\n[Error]: Route not found".to_vec()
    );
    assert_eq!(calls.get(), 0);
    assert_eq!(
        server.respond(b"POST /msg HTTP/1.1\r\n\r\n"),
        b"HTTP/1.1 200 OK\r\nContent-Length: 6\r\n\r\nposted".to_vec()
    );
    assert_eq!(calls.get(), 1);
    assert_eq!(
        server.respond(b"POST /msg/ HTTP/1.1\r\n\r\n"),
        b"HTTP/1.1 404 NOT FOUND\r\nContent-Length: 24\r\n\r\n[Error]: Route not found".to_vec()
    );
    assert_eq!(
        server.respond(b"post /msg HTTP/1.1\r\n\r\n"),
        b"HTTP/1.1 404 NOT FOUND\r\nContent-Length: 24\r\n\r\n[Error]: Route not found".to_vec()
    );
    assert_eq!(calls.get(), 1);
}

#[test]
fn each_verb_registers_its_own_route() {
    let mut server: HttpServer<Handler> = HttpServer::new(1);
    server.get("/r", Box::new(|_| create_response(200, Some(b"get".to_vec()))));
    server.post("/r", Box::new(|_| create_response(200, Some(b"post".to_vec()))));
    server.put("/r", Box::new(|_| create_response(200, Some(b"put".to_vec()))));
    server.patch("/r", Box::new(|_| create_response(200, Some(b"patch".to_vec()))));
    server.delete("/r", Box::new(|_| create_response(200, Some(b"delete".to_vec()))));
    for (method, length) in [("GET", 3), ("POST", 4), ("PUT", 3), ("PATCH", 5), ("DELETE", 6)] {
        let raw = format!("{} /r?x=1 HTTP/1.1\r\n\r\n", method);
        let expected =
            format!("HTTP/1.1 200 OK\r\nContent-Length: {}\r\n\r\n{}", length, method.to_lowercase());
        assert_eq!(server.respond(raw.as_bytes()), expected.into_bytes());
    }
    assert_eq!(
        server.respond(b"HEAD /r HTTP/1.1\r\n\r\n"),
        b"HTTP/1.1 404 NOT FOUND\r\nContent-Length: 24\r\n\r\n[Error]: Route not found".to_vec()
    );
}

#[test]
fn later_registration_replaces_the_earlier_one() {
    let mut server: HttpServer<Handler> = HttpServer::new(1);
    server.get("/r", Box::new(|_| create_response(200, Some(b"first".to_vec()))));
    server.get("/r", Box::new(|_| create_response(200, Some(b"second".to_vec()))));
    assert_eq!(
        server.respond(b"GET /r HTTP/1.1\r\n\r\n"),
        b"HTTP/1.1 200 OK\r\nContent-Length: 6\r\n\r\nsecond".to_vec()
    );
}

#[test]
fn unreadable_requests_are_bad_requests() {
    let server: HttpServer<Handler> = HttpServer::new(1);
    assert_eq!(
        server.respond(b""),
        b"HTTP/1.1 400 BAD REQUEST\r\nContent-Length: 55\r\n\r\n[Error]: Error parsing request: [Error]: Empty petition"
            .to_vec()
    );
    assert_eq!(
        server.respond(b"GET\r\n\r\n"),
        b"HTTP/1.1 400 BAD REQUEST\r\nContent-Length: 61\r\n\r\n[Error]: Error parsing request: [Error]: Invalid initial line"
            .to_vec()
    );
    assert_eq!(
        server.respond(
            b"POST /login HTTP/1.1\r\nContent-Type: application/json\r\nContent-Length: 1\r\n\r\n{"
        ),
        b"HTTP/1.1 400 BAD REQUEST\r\nContent-Length: 59\r\n\r\n[Error]: Error parsing request: [Error]: Error parsing JSON"
            .to_vec()
    );
}

#[test]
fn login_end_to_end() {
    let mut server: HttpServer<Handler> = HttpServer::new(2);
    server.post("/login", Box::new(login_controller));
    let wire = server.respond(
        b"POST /login HTTP/1.1\r\nHost: localhost:8080\r\nContent-Type: application/json\r\nContent-Length: 20\r\n\r\n{\"username\":\"alice\"}",
    );
    assert_eq!(
        wire,
        b"HTTP/1.1 200 OK\r\nContent-Length: 15\r\nSet-Cookie: username=alice\r\n\r\nWelcome, alice!"
            .to_vec()
    );
}

#[test]
fn post_then_get_end_to_end() {
    let store = RefCell::new(MessageStore::new());
    let mut server: HttpServer<Handler> = HttpServer::new(2);
    server.post("/msg", Box::new(|request| post_message_controller(&mut store.borrow_mut(), request)));
    server.get("/msg/:id", Box::new(|request| get_message_by_id_controller(&store.borrow(), request)));
    let wire = server.respond(
        b"POST /msg HTTP/1.1\r\nCookie: username=bob\r\nContent-Type: application/json\r\nContent-Length: 16\r\n\r\n{\"message\":\"hi\"}",
    );
    assert_eq!(
        wire,
        b"HTTP/1.1 201 INTERNAL SERVER ERROR\r\nContent-Length: 39\r\n\r\nMessage created with ID: 1 by user: bob"
            .to_vec()
    );
    let wire = server.respond(b"GET /msg/:id?id=1 HTTP/1.1\r\nCookie: username=eve\r\n\r\n");
    assert_eq!(wire, b"HTTP/1.1 200 OK\r\nContent-Length: 14\r\n\r\n1: hi (by bob)".to_vec());
    let wire = server.respond(b"GET /msg/:id?id=2 HTTP/1.1\r\n\r\n");
    assert_eq!(wire, b"HTTP/1.1 404 NOT FOUND\r\nContent-Length: 17\r\n\r\nMessage not found".to_vec());
}

#[test]
fn body_length_is_read_off_the_header_block() {
    assert_eq!(body_length(b"POST / HTTP/1.1\r\nContent-Length: 12\r\n"), 12);
    assert_eq!(body_length(b"POST / HTTP/1.1\r\ncontent-length: 7\r\n"), 7);
    assert_eq!(body_length(b"POST / HTTP/1.1\r\nCONTENT-LENGTH:   9  \r\nHost: a\r\n"), 9);
    assert_eq!(body_length(b"POST / HTTP/1.1\nHost: a\nContent-Length: 3"), 3);
}

#[test]
fn body_length_is_zero_where_none_is_announced() {
    assert_eq!(body_length(b""), 0);
    assert_eq!(body_length(b"GET / HTTP/1.1\r\nHost: a\r\n"), 0);
    assert_eq!(body_length(b"GET / HTTP/1.1\r\nContent-Length:5\r\n"), 0);
    assert_eq!(body_length(b"GET / HTTP/1.1\r\nContent-Length: x\r\n"), 0);
    assert_eq!(body_length(b"GET / HTTP/1.1\r\nX-Content-Length: 5\r\n"), 0);
    assert_eq!(body_length(b"GET / HTTP/1.1\r\n Content-Length: 5\r\n"), 0);
}

#[test]
fn first_line_that_announces_a_length_wins() {
    assert_eq!(body_length(b"P / H\r\nContent-Length: x\r\nContent-Length: 4\r\nContent-Length: 8\r\n"), 4);
}

#[test]
fn framed_request_is_read_back() {
    let head = b"POST /msg HTTP/1.1\r\nContent-Length: 5\r\n";
    let request = frame(head, b"a\r\n\r\n");
    assert_eq!(request, b"POST /msg HTTP/1.1\r\nContent-Length: 5\r\n\r\na\r\n\r\n".to_vec());
    let parsed = http_server::http::parser::parse_request(&request).unwrap();
    match parsed.body {
        Some(http_server::http::parser::Body::Text(text)) => assert_eq!(text, b"a\r\n\r\n".to_vec()),
        other => panic!("expected a text body, found {:?}", other),
    }
}
