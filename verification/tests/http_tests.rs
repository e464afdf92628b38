use cloudplay::http::{
    empty_response, get_body_and_headers, is_websocket_upgrade, page_response, Headers, HttpTypes,
};

fn parse(text: &str) -> Option<(HttpTypes, String, String, Headers)> {
    get_body_and_headers(text.as_bytes().to_vec()).map(|(r, b, h)| (r.http_type, r.request, b, h))
}

fn header(h: &Headers, name: &str) -> Option<String> {
    h.get(&name.to_string()).cloned()
}

#[test]
fn get_request_with_headers_and_body() {
    let (t, target, body, h) = parse(
        "GET /index HTTP/1.1\r\nHost: example\r\nUpgrade: websocket\r\n\r\nfirst\r\nsecond",
    )
    .unwrap();
    assert_eq!(t, HttpTypes::Get);
    assert_eq!(target, "/index");
    assert_eq!(body, "firstsecond");
    assert_eq!(header(&h, "Host"), Some("example".to_string()));
    assert_eq!(header(&h, "Upgrade"), Some("websocket".to_string()));
    assert_eq!(header(&h, "Accept"), None);
    assert!(is_websocket_upgrade(&h));
}

#[test]
fn post_request() {
    let (t, target, body, h) = parse("POST /send x\nA: 1\n\nbody").unwrap();
    assert_eq!(t, HttpTypes::Post);
    assert_eq!(target, "/send");
    assert_eq!(body, "body");
    assert_eq!(header(&h, "A"), Some("1".to_string()));
    assert!(!is_websocket_upgrade(&h));
}

#[test]
fn request_without_end_of_headers_is_refused() {
    assert!(parse("GET / HTTP/1.1\r\nHost: example\r\n").is_none());
    assert!(parse("").is_none());
}

#[test]
fn bytes_that_are_not_utf8_are_refused() {
    assert!(get_body_and_headers(vec![b'G', b'E', b'T', 0xff, b'\n', b'\n']).is_none());
}

#[test]
fn unknown_method_is_refused() {
    assert!(parse("PUT / HTTP/1.1\r\n\r\n").is_none());
    assert!(parse("get / HTTP/1.1\r\n\r\n").is_none());
}

#[test]
fn request_line_without_target_is_refused() {
    assert!(parse("GET\r\n\r\n").is_none());
}

#[test]
fn empty_first_line_gives_a_default_request() {
    let (t, target, body, h) = parse("\r\nrest").unwrap();
    assert_eq!(t, HttpTypes::Get);
    assert_eq!(target, "");
    assert_eq!(body, "rest");
    assert_eq!(header(&h, "rest"), None);
}

#[test]
fn later_header_replaces_earlier_and_odd_lines_are_skipped() {
    let (_, _, _, h) =
        parse("GET / HTTP/1.1\r\nX: 1\r\nlonely\r\nX: 2\r\nY:  3\r\nZ: 4 5\r\n\r\n").unwrap();
    assert_eq!(header(&h, "X"), Some("2".to_string()));
    assert_eq!(header(&h, "lonel"), None);
    assert_eq!(header(&h, "Y"), None);
    assert_eq!(header(&h, "Z"), Some("4".to_string()));
}

#[test]
fn short_lines_are_counted_in_bytes() {
    // "é" takes two bytes: the line ends the header part.
    let (_, _, body, _) = parse("GET / x\né\nafter").unwrap();
    assert_eq!(body, "after");
    // "éa" takes three bytes: it is a header line.
    let (_, _, body, h) = parse("GET / x\néa b\n\nafter").unwrap();
    assert_eq!(body, "after");
    assert_eq!(header(&h, "é"), Some("b".to_string()));
}

#[test]
fn headers_map_basics() {
    let mut h = Headers::new();
    assert_eq!(h.get(&"k".to_string()), None);
    h.insert("k".to_string(), "v".to_string());
    h.insert("k".to_string(), "w".to_string());
    assert_eq!(h.get(&"k".to_string()), Some(&"w".to_string()));
}

#[test]
fn responses() {
    assert_eq!(page_response("hi"), "HTTP/1.1 200 OK\r\nContent-Length: 2\r\n\r\nhi");
    assert_eq!(page_response("é"), "HTTP/1.1 200 OK\r\nContent-Length: 2\r\n\r\né");
    let long = "x".repeat(1234);
    assert_eq!(page_response(&long), format!("HTTP/1.1 200 OK\r\nContent-Length: 1234\r\n\r\n{}", long));
    assert_eq!(empty_response(), "HTTP/1.1 200 OK\r\nContent-Length: 0\r\n\r\n");
}
