use http_client::header::HttpHeader;
use http_client::{HttpError, HttpStatus, Method, Request, Url};

#[test]
fn header_lookup_ignores_case() {
    let mut h = HttpHeader::new();
    h.add_header("Content-Type".to_string(), " text/plain ".to_string());
    h.add_header("CONTENT-TYPE".to_string(), "text/html".to_string());
    assert_eq!(h.get_value("content-type".to_string()), Some("text/plain".to_string()));
    assert_eq!(h.get_value("Content-Type".to_string()), Some("text/plain".to_string()));
    assert_eq!(h.get_value("CONTENT-type".to_string()), Some("text/plain".to_string()));
    assert_eq!(h.get_value("accept".to_string()), None);
}

#[test]
fn header_set_replaces_and_set_if_empty_keeps() {
    let mut h = HttpHeader::new();
    h.add_header("x-a".to_string(), "1".to_string());
    h.add_header("x-a".to_string(), "2".to_string());
    h.set_header("X-A".to_string(), "3".to_string());
    assert_eq!(h.get_value("x-a".to_string()), Some("3".to_string()));
    h.set_header_if_empty("x-a".to_string(), "4".to_string());
    assert_eq!(h.get_value("x-a".to_string()), Some("3".to_string()));
    h.set_header_if_empty("x-b".to_string(), "5".to_string());
    assert_eq!(h.get_value("x-b".to_string()), Some("5".to_string()));
}

#[test]
fn header_to_vec_exact() {
    let mut h = HttpHeader::new();
    h.set_status_line(&HttpStatus::new(200));
    h.set_header("authorization".to_owned(), "Bearer token".to_owned());
    let b = h.to_vec();
    assert_eq!(b, b"HTTP/1.1 200 OK\r\nauthorization: Bearer token\r\n\r\n".to_vec());
}

#[test]
fn header_to_vec_multi_values_consecutive() {
    let mut h = HttpHeader::new();
    h.line = "L".to_string();
    h.add_header("a".to_string(), "1".to_string());
    h.add_header("b".to_string(), "2".to_string());
    h.add_header("a".to_string(), "3".to_string());
    assert_eq!(h.to_vec(), b"L\r\na: 1\r\na: 3\r\nb: 2\r\n\r\n".to_vec());
}

#[test]
fn header_from_bytes_parses() {
    let h = HttpHeader::from_bytes(b"HTTP/1.1 200 OK\r\nAuthorization:  Bearer token \r\nX-N: 1\r\nx-n: 2\r\n\r\n").unwrap();
    assert_eq!(h.line, "HTTP/1.1 200 OK");
    assert_eq!(h.get_value("authorization".to_string()), Some("Bearer token".to_string()));
    assert_eq!(h.get_value("x-n".to_string()), Some("1".to_string()));
}

#[test]
fn header_round_trip() {
    let src = b"POST / HTTP/1.1\r\nHost: a.com\r\nX-N: 1\r\nx-n: 2\r\nEmpty:\r\n\r\n";
    let h = HttpHeader::from_bytes(src).unwrap();
    let again = HttpHeader::from_bytes(&h.to_vec()).unwrap();
    assert_eq!(again.line, h.line);
    assert_eq!(again.to_vec(), h.to_vec());
    assert_eq!(again.get_value("x-n".to_string()), Some("1".to_string()));
    assert_eq!(again.get_value("empty".to_string()), Some("".to_string()));
}

#[test]
fn header_from_bytes_errors() {
    assert!(matches!(HttpHeader::from_bytes(b"L\r\nno colon here\r\n\r\n"), Err(HttpError::HeaderLineWithoutColon)));
    assert!(matches!(HttpHeader::from_bytes(b"L\r\na: 1\r\n\r\nb: 2\r\n"), Err(HttpError::HeaderDataAfterEnd)));
    assert!(matches!(HttpHeader::from_bytes(&[b'L', 0xff, 0xfe]), Err(HttpError::HeaderNotUtf8)));
}

#[test]
fn header_first_line_only() {
    let h = HttpHeader::from_bytes(b"just a line").unwrap();
    assert_eq!(h.line, "just a line");
    assert_eq!(h.to_vec(), b"just a line\r\n\r\n".to_vec());
}

#[test]
fn request_line_of_request() {
    let req = Request::new(Method::Post, Url::new("http://localhost:10643/path/is/here?abc=1&def=2"));
    assert_eq!(req.header.line, "POST /path/is/here?abc=1&def=2 HTTP/1.1");
    let get = Request::new(Method::Get, Url::new("http://a.com"));
    assert_eq!(get.header.line, "GET / HTTP/1.1");
    assert_eq!(Method::Delete.as_str(), "DELETE");
    assert_eq!(Method::Patch.as_str(), "PATCH");
    assert_eq!(Method::Head.as_str(), "HEAD");
    assert_eq!(Method::Put.as_str(), "PUT");
}

#[test]
fn header_names_fold_beyond_ascii() {
    let mut h = HttpHeader::new();
    h.add_header("\u{c9}tag".to_string(), "1".to_string());
    assert_eq!(h.get_value("\u{e9}tag".to_string()), Some("1".to_string()));
    assert_eq!(h.get_value("\u{c9}TAG".to_string()), Some("1".to_string()));
    h.set_header("\u{c9}TAG".to_string(), "2".to_string());
    assert_eq!(h.get_value("\u{e9}tag".to_string()), Some("2".to_string()));
    let p = HttpHeader::from_bytes("L\r\nX-\u{c4}: 1\r\n\r\n".as_bytes()).unwrap();
    assert_eq!(p.entries[0].key, "x-\u{e4}");
    assert_eq!(p.get_value("X-\u{c4}".to_string()), Some("1".to_string()));
}
