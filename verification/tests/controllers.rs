use http_server::controllers::{
    delete_message_by_id_controller, edit_existing_message_controller,
    edit_or_create_message_controller, get_message_by_id_controller, get_messages_controller,
    login_controller, post_message_controller,
};
use http_server::http::parser::{format_response, parse_request, Request, Response};
use http_server::store::{add_message, get_message, get_messages, MessageStore};

fn request(raw: &str) -> Request {
    parse_request(raw.as_bytes()).expect("the request is well formed")
}

fn json_request(start_line: &str, extra_headers: &str, body: &str) -> Request {
    request(&format!(
        "{}\r\nContent-Type: application/json\r\nContent-Length: {}\r\n{}\r\n{}",
        start_line,
        body.len(),
        extra_headers,
        body
    ))
}

fn text_request(start_line: &str, extra_headers: &str, body: &str) -> Request {
    request(&format!(
        "{}\r\nContent-Length: {}\r\n{}\r\n{}",
        start_line,
        body.len(),
        extra_headers,
        body
    ))
}

fn body(response: &Response) -> &[u8] {
    response.body.as_deref().expect("the response has a body")
}

fn cookie<'a>(response: &'a Response, name: &str) -> Option<&'a [u8]> {
    response.cookies.as_ref().and_then(|c| c.get(name.as_bytes())).map(|v| v.as_slice())
}

#[test]
fn login_with_json_body_welcomes_and_sets_the_cookie() {
    let response = login_controller(json_request("POST /login HTTP/1.1", "", "{\"username\":\"alice\"}"));
    assert_eq!(response.status_code, 200);
    assert_eq!(body(&response), b"Welcome, alice!");
    assert_eq!(cookie(&response, "username"), Some(&b"alice"[..]));
    assert_eq!(response.cookies.as_ref().unwrap().len(), 1);
    assert_eq!(
        format_response(&response),
        b"HTTP/1.1 200 OK\r\nContent-Length: 15\r\nSet-Cookie: username=alice\r\n\r\nWelcome, alice!"
            .to_vec()
    );
}

#[test]
fn login_with_text_body_takes_the_body_as_the_name() {
    let response = login_controller(text_request("POST /login HTTP/1.1", "", "carol"));
    assert_eq!(response.status_code, 200);
    assert_eq!(body(&response), b"Welcome, carol!");
    assert_eq!(cookie(&response, "username"), Some(&b"carol"[..]));
}

#[test]
fn login_with_json_escapes_takes_the_decoded_name() {
    let response =
        login_controller(json_request("POST /login HTTP/1.1", "", "{\"username\":\"a\\u00e9\\\"b\"}"));
    assert_eq!(body(&response), "Welcome, a\u{e9}\"b!".as_bytes());
    assert_eq!(cookie(&response, "username"), Some("a\u{e9}\"b".as_bytes()));
}

#[test]
fn login_without_username_member_is_a_bad_request() {
    let response = login_controller(json_request("POST /login HTTP/1.1", "", "{\"user\":\"alice\"}"));
    assert_eq!(response.status_code, 400);
    assert_eq!(body(&response), b"Missing 'username' in JSON body");
    assert!(response.cookies.is_none());
    let response = login_controller(json_request("POST /login HTTP/1.1", "", "[\"username\"]"));
    assert_eq!(response.status_code, 400);
    assert_eq!(body(&response), b"Missing 'username' in JSON body");
}

#[test]
fn login_with_a_username_that_is_no_string_takes_the_empty_name() {
    let response = login_controller(json_request("POST /login HTTP/1.1", "", "{\"username\":17}"));
    assert_eq!(response.status_code, 200);
    assert_eq!(body(&response), b"Welcome, !");
    assert_eq!(cookie(&response, "username"), Some(&b""[..]));
}

#[test]
fn login_without_body_is_a_bad_request() {
    let response = login_controller(request("POST /login HTTP/1.1\r\n\r\n"));
    assert_eq!(response.status_code, 400);
    assert_eq!(body(&response), b"Invalid request body");
    assert!(response.cookies.is_none());
}

#[test]
fn post_keeps_the_message_and_get_shows_it() {
    let mut store = MessageStore::new();
    let response = post_message_controller(
        &mut store,
        json_request("POST /msg HTTP/1.1", "Cookie: username=bob\r\n", "{\"message\":\"hi\"}"),
    );
    assert_eq!(response.status_code, 201);
    assert_eq!(body(&response), b"Message created with ID: 1 by user: bob");
    let message = get_message(&store, 1).unwrap();
    assert_eq!(message.content, b"hi".to_vec());
    assert_eq!(message.username, b"bob".to_vec());
    let response = get_message_by_id_controller(&store, request("GET /msg/:id?id=1 HTTP/1.1\r\n\r\n"));
    assert_eq!(response.status_code, 200);
    assert_eq!(body(&response), b"1: hi (by bob)");
}

#[test]
fn post_with_text_body_keeps_the_body() {
    let mut store = MessageStore::new();
    let response = post_message_controller(
        &mut store,
        text_request("POST /msg HTTP/1.1", "Cookie: a=b; username=eve\r\n", "plain words"),
    );
    assert_eq!(response.status_code, 201);
    assert_eq!(body(&response), b"Message created with ID: 1 by user: eve");
    assert_eq!(get_message(&store, 1).unwrap().content, b"plain words".to_vec());
}

#[test]
fn post_without_cookie_is_a_bad_request() {
    let mut store = MessageStore::new();
    let response =
        post_message_controller(&mut store, json_request("POST /msg HTTP/1.1", "", "{\"message\":\"hi\"}"));
    assert_eq!(response.status_code, 400);
    assert_eq!(body(&response), b"Missing username in cookies");
    assert!(get_messages(&store).is_empty());
}

#[test]
fn post_without_message_member_is_a_bad_request() {
    let mut store = MessageStore::new();
    let response = post_message_controller(
        &mut store,
        json_request("POST /msg HTTP/1.1", "Cookie: username=bob\r\n", "{\"text\":\"hi\"}"),
    );
    assert_eq!(response.status_code, 400);
    assert_eq!(body(&response), b"Missing 'message' in JSON body");
    assert!(get_messages(&store).is_empty());
}

#[test]
fn post_without_body_is_a_bad_request() {
    let mut store = MessageStore::new();
    let response =
        post_message_controller(&mut store, request("POST /msg HTTP/1.1\r\nCookie: username=bob\r\n\r\n"));
    assert_eq!(response.status_code, 400);
    assert_eq!(body(&response), b"Invalid request body");
    assert!(get_messages(&store).is_empty());
}

#[test]
fn list_of_an_empty_store_is_empty() {
    let store = MessageStore::new();
    let response = get_messages_controller(&store, request("GET /msg HTTP/1.1\r\n\r\n"));
    assert_eq!(response.status_code, 200);
    assert_eq!(body(&response), b"");
}

#[test]
fn list_shows_one_message_per_line() {
    let mut store = MessageStore::new();
    add_message(&mut store, b"a".to_vec(), b"x".to_vec());
    let response = get_messages_controller(&store, request("GET /msg HTTP/1.1\r\n\r\n"));
    assert_eq!(body(&response), b"1: a (by x)");
    add_message(&mut store, b"b".to_vec(), b"y".to_vec());
    add_message(&mut store, b"c".to_vec(), b"z".to_vec());
    let response = get_messages_controller(&store, request("GET /msg HTTP/1.1\r\n\r\n"));
    assert_eq!(response.status_code, 200);
    let text = String::from_utf8(body(&response).to_vec()).unwrap();
    let mut lines: Vec<&str> = text.split('\n').collect();
    lines.sort();
    assert_eq!(lines, vec!["1: a (by x)", "2: b (by y)", "3: c (by z)"]);
}

#[test]
fn get_of_a_missing_message_is_not_found() {
    let mut store = MessageStore::new();
    add_message(&mut store, b"a".to_vec(), b"x".to_vec());
    for raw in [
        "GET /msg?id=2 HTTP/1.1\r\n\r\n",
        "GET /msg HTTP/1.1\r\n\r\n",
        "GET /msg?id=one HTTP/1.1\r\n\r\n",
        "GET /msg?id=4294967296 HTTP/1.1\r\n\r\n",
        "GET /msg?id=0 HTTP/1.1\r\n\r\n",
    ] {
        let response = get_message_by_id_controller(&store, request(raw));
        assert_eq!(response.status_code, 404);
        assert_eq!(body(&response), b"Message not found");
    }
}

#[test]
fn patch_changes_an_existing_message() {
    let mut store = MessageStore::new();
    add_message(&mut store, b"old".to_vec(), b"bob".to_vec());
    let response = edit_existing_message_controller(
        &mut store,
        json_request("PATCH /msg?id=1 HTTP/1.1", "", "{\"message\":\"new\"}"),
    );
    assert_eq!(response.status_code, 200);
    assert_eq!(body(&response), b"Message with ID 1 updated");
    let message = get_message(&store, 1).unwrap();
    assert_eq!(message.content, b"new".to_vec());
    assert_eq!(message.username, b"bob".to_vec());
}

#[test]
fn patch_of_a_missing_message_is_not_found() {
    let mut store = MessageStore::new();
    let response = edit_existing_message_controller(
        &mut store,
        text_request("PATCH /msg?id=5 HTTP/1.1", "", "new"),
    );
    assert_eq!(response.status_code, 404);
    assert_eq!(body(&response), b"Message with ID 5 not found");
    let response =
        edit_existing_message_controller(&mut store, text_request("PATCH /msg HTTP/1.1", "", "new"));
    assert_eq!(response.status_code, 404);
    assert_eq!(body(&response), b"Message with ID 0 not found");
    assert!(get_messages(&store).is_empty());
}

#[test]
fn patch_without_body_is_a_bad_request() {
    let mut store = MessageStore::new();
    add_message(&mut store, b"old".to_vec(), b"bob".to_vec());
    let response = edit_existing_message_controller(&mut store, request("PATCH /msg?id=1 HTTP/1.1\r\n\r\n"));
    assert_eq!(response.status_code, 400);
    assert_eq!(body(&response), b"Invalid request body");
    let response = edit_existing_message_controller(
        &mut store,
        json_request("PATCH /msg?id=1 HTTP/1.1", "", "{\"m\":1}"),
    );
    assert_eq!(response.status_code, 400);
    assert_eq!(body(&response), b"Missing 'message' in JSON body");
    assert_eq!(get_message(&store, 1).unwrap().content, b"old".to_vec());
}

#[test]
fn put_changes_an_existing_message() {
    let mut store = MessageStore::new();
    add_message(&mut store, b"old".to_vec(), b"bob".to_vec());
    let response = edit_or_create_message_controller(
        &mut store,
        text_request("PUT /msg?id=1 HTTP/1.1", "Cookie: username=eve\r\n", "new"),
    );
    assert_eq!(response.status_code, 200);
    assert_eq!(body(&response), b"Message with ID 1 updated");
    let message = get_message(&store, 1).unwrap();
    assert_eq!(message.content, b"new".to_vec());
    assert_eq!(message.username, b"bob".to_vec());
    assert_eq!(get_messages(&store).len(), 1);
}

#[test]
fn put_keeps_a_new_message_where_there_is_none() {
    let mut store = MessageStore::new();
    add_message(&mut store, b"old".to_vec(), b"bob".to_vec());
    let response = edit_or_create_message_controller(
        &mut store,
        text_request("PUT /msg?id=7 HTTP/1.1", "Cookie: username=eve\r\n", "new"),
    );
    assert_eq!(response.status_code, 201);
    assert_eq!(body(&response), b"Message created with ID: 2 by user: eve");
    assert!(get_message(&store, 7).is_none());
    let message = get_message(&store, 2).unwrap();
    assert_eq!(message.content, b"new".to_vec());
    assert_eq!(message.username, b"eve".to_vec());
}

#[test]
fn put_without_id_is_not_found() {
    let mut store = MessageStore::new();
    let response = edit_or_create_message_controller(
        &mut store,
        text_request("PUT /msg HTTP/1.1", "Cookie: username=eve\r\n", "new"),
    );
    assert_eq!(response.status_code, 404);
    assert_eq!(body(&response), b"Message not found");
    assert!(get_messages(&store).is_empty());
}

#[test]
fn delete_removes_and_says_so() {
    let mut store = MessageStore::new();
    add_message(&mut store, b"a".to_vec(), b"x".to_vec());
    let response =
        delete_message_by_id_controller(&mut store, request("DELETE /msg?id=1 HTTP/1.1\r\n\r\n"));
    assert_eq!(response.status_code, 200);
    assert_eq!(body(&response), b"Message with ID 1 deleted");
    assert!(get_messages(&store).is_empty());
    let response =
        delete_message_by_id_controller(&mut store, request("DELETE /msg?id=1 HTTP/1.1\r\n\r\n"));
    assert_eq!(response.status_code, 404);
    assert_eq!(body(&response), b"Message not found");
}
