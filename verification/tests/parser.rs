use http_server::fields::Fields;
use http_server::http::parser::{parse_request, Body, ParseError, Request};

fn field<'a>(fields: &'a Fields, name: &str) -> Option<&'a [u8]> {
    fields.get(name.as_bytes()).map(|v| v.as_slice())
}

fn parsed(raw: &[u8]) -> Request {
    parse_request(raw).expect("the request is well formed")
}

fn text_body(request: &Request) -> &[u8] {
    match &request.body {
        Some(Body::Text(text)) => text.as_slice(),
        other => panic!("expected a text body, found {:?}", other),
    }
}

#[test]
fn reads_method_path_and_headers() {
    let request = parsed(b"GET /msg HTTP/1.1\r\nHost: localhost:8080\r\nAccept: */*\r\n\r\n");
    assert_eq!(request.method, b"GET".to_vec());
    assert_eq!(request.path, b"/msg".to_vec());
    assert_eq!(request.headers.len(), 2);
    assert_eq!(field(&request.headers, "Host"), Some(&b"localhost:8080"[..]));
    assert_eq!(field(&request.headers, "Accept"), Some(&b"*/*"[..]));
    assert!(request.body.is_none());
    assert_eq!(request.params.len(), 0);
    assert_eq!(request.cookies.len(), 0);
}

#[test]
fn empty_request_is_refused() {
    assert_eq!(parse_request(b"").unwrap_err(), ParseError::EmptyRequest);
}

#[test]
fn start_line_with_two_words_is_refused() {
    assert_eq!(parse_request(b"GET /msg\r\n\r\n").unwrap_err(), ParseError::MalformedStartLine);
}

#[test]
fn blank_start_line_is_refused() {
    assert_eq!(parse_request(b"\r\nGET / HTTP/1.1\r\n").unwrap_err(), ParseError::MalformedStartLine);
    assert_eq!(parse_request(b"   \t ").unwrap_err(), ParseError::MalformedStartLine);
}

#[test]
fn start_line_words_may_be_separated_by_any_whitespace() {
    let request = parsed(b"  PUT \t /a   HTTP/1.1 extra\n\n");
    assert_eq!(request.method, b"PUT".to_vec());
    assert_eq!(request.path, b"/a".to_vec());
}

#[test]
fn header_names_keep_their_case() {
    let request = parsed(b"GET / HTTP/1.1\r\ncontent-length: 3\r\n\r\nabc");
    assert_eq!(field(&request.headers, "content-length"), Some(&b"3"[..]));
    assert_eq!(field(&request.headers, "Content-Length"), None);
    assert!(request.body.is_none());
}

#[test]
fn header_line_without_separator_is_ignored() {
    let request = parsed(b"GET / HTTP/1.1\r\nBroken:line\r\nNoColon\r\nA: 1\r\n\r\n");
    assert_eq!(request.headers.len(), 1);
    assert_eq!(field(&request.headers, "A"), Some(&b"1"[..]));
}

#[test]
fn header_is_split_at_the_first_separator_only() {
    let request = parsed(b"GET / HTTP/1.1\r\nX: a: b\r\n\r\n");
    assert_eq!(field(&request.headers, "X"), Some(&b"a: b"[..]));
}

#[test]
fn repeated_header_keeps_its_place_and_takes_the_last_value() {
    let request = parsed(b"GET / HTTP/1.1\r\nA: 1\r\nB: 2\r\nA: 3\r\n\r\n");
    assert_eq!(request.headers.len(), 2);
    assert_eq!(request.headers.name_at(0), &b"A".to_vec());
    assert_eq!(request.headers.value_at(0), &b"3".to_vec());
    assert_eq!(request.headers.name_at(1), &b"B".to_vec());
    assert_eq!(request.headers.value_at(1), &b"2".to_vec());
}

#[test]
fn body_has_the_declared_length() {
    let request = parsed(b"POST /msg HTTP/1.1\r\nContent-Length: 5\r\n\r\nhello");
    assert_eq!(text_body(&request), b"hello");
    assert_eq!(text_body(&request).len(), 5);
}

#[test]
fn body_keeps_line_breaks_as_they_came() {
    let request = parsed(b"POST /msg HTTP/1.1\r\nContent-Length: 7\r\n\r\na\r\nb\n\nc");
    assert_eq!(text_body(&request), b"a\r\nb\n\nc");
}

#[test]
fn body_is_cut_to_the_declared_length() {
    let request = parsed(b"POST /msg HTTP/1.1\r\nContent-Length: 3\r\n\r\nabcdef");
    assert_eq!(text_body(&request), b"abc");
}

#[test]
fn shorter_payload_is_kept_whole() {
    let request = parsed(b"POST /msg HTTP/1.1\r\nContent-Length: 10\r\n\r\nabc");
    assert_eq!(text_body(&request), b"abc");
}

#[test]
fn body_without_declared_length_is_absent() {
    let request = parsed(b"POST /msg HTTP/1.1\r\nHost: a\r\n\r\nhello");
    assert!(request.body.is_none());
}

#[test]
fn unreadable_declared_length_counts_as_zero() {
    let request = parsed(b"POST /msg HTTP/1.1\r\nContent-Length: five\r\n\r\nhello");
    assert!(request.body.is_none());
    let request = parsed(b"POST /msg HTTP/1.1\r\nContent-Length: -1\r\n\r\nhello");
    assert!(request.body.is_none());
    let request = parsed(b"POST /msg HTTP/1.1\r\nContent-Length: 5 \r\n\r\nhello");
    assert!(request.body.is_none());
}

#[test]
fn declared_length_may_carry_a_plus_sign() {
    let request = parsed(b"POST /msg HTTP/1.1\r\nContent-Length: +2\r\n\r\nhello");
    assert_eq!(text_body(&request), b"he");
}

#[test]
fn blank_body_is_absent() {
    let request = parsed(b"POST /msg HTTP/1.1\r\nContent-Length: 4\r\n\r\n \t\r\n");
    assert!(request.body.is_none());
    let request = parsed(b"POST /msg HTTP/1.1\r\nContent-Length: 0\r\n\r\n");
    assert!(request.body.is_none());
}

#[test]
fn blank_json_body_is_absent_and_no_error() {
    let request =
        parsed(b"POST /msg HTTP/1.1\r\nContent-Type: application/json\r\nContent-Length: 2\r\n\r\n  ");
    assert!(request.body.is_none());
}

#[test]
fn request_without_empty_line_has_no_body() {
    let request = parsed(b"GET / HTTP/1.1\r\nContent-Length: 3\r\nabc");
    assert!(request.body.is_none());
    assert_eq!(request.headers.len(), 1);
}

#[test]
fn json_body_is_decoded() {
    let request = parsed(
        b"POST /login HTTP/1.1\r\nContent-Type: application/json\r\nContent-Length: 20\r\n\r\n{\"username\":\"alice\"}",
    );
    match request.body {
        Some(Body::Json(value)) => {
            assert_eq!(value.get("username").and_then(|name| name.as_str()), Some("alice"));
            assert!(value.is_object());
        },
        other => panic!("expected a JSON body, found {:?}", other),
    }
}

#[test]
fn json_content_type_may_carry_parameters() {
    let request = parsed(
        b"POST / HTTP/1.1\r\nContent-Type: application/json; charset=utf-8\r\nContent-Length: 4\r\n\r\n[1] ",
    );
    match request.body {
        Some(Body::Json(value)) => assert_eq!(value, serde_json::Value::from(vec![1])),
        other => panic!("expected a JSON body, found {:?}", other),
    }
}

#[test]
fn invalid_json_body_is_refused() {
    let result = parse_request(
        b"POST /msg HTTP/1.1\r\nContent-Type: application/json\r\nContent-Length: 5\r\n\r\n{oops",
    );
    assert_eq!(result.unwrap_err(), ParseError::InvalidJsonBody);
}

#[test]
fn json_body_cut_short_by_the_declared_length_is_refused() {
    let result = parse_request(
        b"POST /msg HTTP/1.1\r\nContent-Type: application/json\r\nContent-Length: 6\r\n\r\n{\"a\":1}",
    );
    assert_eq!(result.unwrap_err(), ParseError::InvalidJsonBody);
}

#[test]
fn json_document_followed_by_more_is_refused() {
    let result = parse_request(
        b"POST /msg HTTP/1.1\r\nContent-Type: application/json\r\nContent-Length: 6\r\n\r\n{} {} ",
    );
    assert_eq!(result.unwrap_err(), ParseError::InvalidJsonBody);
}

#[test]
fn other_content_type_gives_a_text_body() {
    let request =
        parsed(b"POST /msg HTTP/1.1\r\nContent-Type: text/plain\r\nContent-Length: 5\r\n\r\n{oops");
    assert_eq!(text_body(&request), b"{oops");
}

#[test]
fn host_is_taken_out_of_the_path() {
    let request = parsed(b"GET http://example.com/msg HTTP/1.1\r\nHost: example.com\r\n\r\n");
    assert_eq!(request.path, b"/msg".to_vec());
}

#[test]
fn host_that_is_not_in_the_path_changes_nothing() {
    let request = parsed(b"GET /msg HTTP/1.1\r\nHost: example.com\r\n\r\n");
    assert_eq!(request.path, b"/msg".to_vec());
}

#[test]
fn path_is_cut_after_the_first_host_only() {
    let request = parsed(b"GET /a/h/b/h/c HTTP/1.1\r\nHost: h\r\n\r\n");
    assert_eq!(request.path, b"/b/h/c".to_vec());
}

#[test]
fn query_is_split_off_the_path() {
    let request = parsed(b"GET /msg?id=7&x=1&flag&y=a=b HTTP/1.1\r\n\r\n");
    assert_eq!(request.path, b"/msg".to_vec());
    assert_eq!(request.params.len(), 3);
    assert_eq!(field(&request.params, "id"), Some(&b"7"[..]));
    assert_eq!(field(&request.params, "x"), Some(&b"1"[..]));
    assert_eq!(field(&request.params, "y"), Some(&b"a=b"[..]));
    assert_eq!(field(&request.params, "flag"), None);
}

#[test]
fn empty_query_gives_no_parameters() {
    let request = parsed(b"GET /msg? HTTP/1.1\r\n\r\n");
    assert_eq!(request.path, b"/msg".to_vec());
    assert_eq!(request.params.len(), 0);
}

#[test]
fn second_question_mark_belongs_to_the_query() {
    let request = parsed(b"GET /a?b=c?d HTTP/1.1\r\n\r\n");
    assert_eq!(request.path, b"/a".to_vec());
    assert_eq!(field(&request.params, "b"), Some(&b"c?d"[..]));
}

#[test]
fn host_and_query_together() {
    let request = parsed(b"GET http://h:80/msg?id=3 HTTP/1.1\r\nHost: h:80\r\n\r\n");
    assert_eq!(request.path, b"/msg".to_vec());
    assert_eq!(field(&request.params, "id"), Some(&b"3"[..]));
}

#[test]
fn cookies_are_read_from_the_cookie_header() {
    let request = parsed(b"GET / HTTP/1.1\r\nCookie: username=bob;  theme=dark ; broken; k=v=w\r\n\r\n");
    assert_eq!(request.cookies.len(), 3);
    assert_eq!(field(&request.cookies, "username"), Some(&b"bob"[..]));
    assert_eq!(field(&request.cookies, "theme"), Some(&b"dark"[..]));
    assert_eq!(field(&request.cookies, "k"), Some(&b"v=w"[..]));
    assert_eq!(request.cookies.name_at(0), &b"username".to_vec());
    assert_eq!(request.cookies.name_at(1), &b"theme".to_vec());
    assert_eq!(request.cookies.name_at(2), &b"k".to_vec());
}

#[test]
fn lines_may_end_with_a_bare_line_feed() {
    let request = parsed(b"POST /msg HTTP/1.1\nContent-Length: 2\n\nhi");
    assert_eq!(request.method, b"POST".to_vec());
    assert_eq!(field(&request.headers, "Content-Length"), Some(&b"2"[..]));
    assert_eq!(text_body(&request), b"hi");
}

#[test]
fn error_descriptions() {
    assert_eq!(ParseError::EmptyRequest.description(), "[Error]: Empty petition");
    assert_eq!(ParseError::MalformedStartLine.description(), "[Error]: Invalid initial line");
    assert_eq!(ParseError::InvalidJsonBody.description(), "[Error]: Error parsing JSON");
}
