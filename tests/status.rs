use http_client::{HttpError, HttpStatus};

#[test]
fn status_new_buckets() {
    assert_eq!(HttpStatus::new(101).status_msg, "Information");
    assert_eq!(HttpStatus::new(200).status_msg, "OK");
    assert_eq!(HttpStatus::new(302).status_msg, "Redirect");
    assert_eq!(HttpStatus::new(404).status_msg, "Client error");
    assert_eq!(HttpStatus::new(503).status_msg, "Server error");
    assert_eq!(HttpStatus::new(404).to_string(), "HTTP/1.1 404 Client error");
    assert_eq!(HttpStatus::new(200).proto, "HTTP/1.1");
}

#[test]
fn status_from_string_ok() {
    let s = HttpStatus::from_string(&"HTTP/1.1 200 OK".to_string()).unwrap();
    assert_eq!(s.proto, "HTTP/1.1");
    assert_eq!(s.status_code, 200);
    assert_eq!(s.status_msg, "OK");
    let t = HttpStatus::from_string(&"HTTP/1.1 599 X".to_string()).unwrap();
    assert_eq!(t.status_code, 599);
    let u = HttpStatus::from_string(&"HTTP/1.1 100 Continue".to_string()).unwrap();
    assert_eq!(u.status_code, 100);
}

#[test]
fn status_from_string_errors() {
    assert!(matches!(HttpStatus::from_string(&"HTTP/1.1 404 Not Found".to_string()), Err(HttpError::StatusLineShape)));
    assert!(matches!(HttpStatus::from_string(&"HTTP/1.1 200".to_string()), Err(HttpError::StatusLineShape)));
    assert!(matches!(HttpStatus::from_string(&"HTTP/1.1 abc OK".to_string()), Err(HttpError::StatusCodeNotNumber)));
    assert!(matches!(HttpStatus::from_string(&"HTTP/1.1 600 OK".to_string()), Err(HttpError::StatusCodeOutOfRange)));
    assert!(matches!(HttpStatus::from_string(&"HTTP/1.1 99 OK".to_string()), Err(HttpError::StatusCodeOutOfRange)));
}

#[test]
fn status_line_of_large_code() {
    let mut s = HttpStatus::new(599);
    assert_eq!(s.to_string(), "HTTP/1.1 599 Server error");
    s.status_code = usize::MAX;
    assert_eq!(s.to_string(), format!("HTTP/1.1 {} Server error", usize::MAX));
    s.status_code = 0;
    assert_eq!(s.to_string(), "HTTP/1.1 0 Server error");
}
