use http_client::Url;

#[test]
fn test_url_parser() {
    let u = Url::new("http://www.my-test.com:8080/whatever?a=1&b=2#test");
    assert!(u.scheme == "http");
    assert!(u.hostname == "www.my-test.com");
    assert!(u.port == "8080");
    assert!(u.path == "/whatever");
    assert!(u.query == "a=1&b=2");
    assert!(u.fragment == "test")
}

#[test]
fn url_without_parts() {
    let u = Url::new("example.com");
    assert_eq!(u.scheme, "");
    assert_eq!(u.hostname, "example.com");
    assert_eq!(u.port, "");
    assert_eq!(u.path, "");
    assert_eq!(u.query, "");
    assert_eq!(u.fragment, "");
    assert_eq!(u.resource(), "/");
    assert_eq!(u.host(), "example.com");
}

#[test]
fn url_host_and_resource() {
    let u = Url::new("http://localhost:10643/path/is/here?abc=1&def=2");
    assert_eq!(u.host(), "localhost:10643");
    assert_eq!(u.resource(), "/path/is/here?abc=1&def=2");
    let v = Url::new("http://a.com/x/y");
    assert_eq!(v.host(), "a.com");
    assert_eq!(v.resource(), "/x/y");
}

#[test]
fn url_round_trip_string() {
    let s = "http://www.my-test.com:8080/whatever?a=1&b=2#test";
    let u = Url::new(s);
    assert_eq!(u.to_string(), s);
    let again = Url::new(&u.to_string());
    assert_eq!(again.scheme, u.scheme);
    assert_eq!(again.hostname, u.hostname);
    assert_eq!(again.port, u.port);
    assert_eq!(again.path, u.path);
    assert_eq!(again.query, u.query);
    assert_eq!(again.fragment, u.fragment);
}

#[test]
fn url_fragment_and_query_split_first() {
    let u = Url::new("s://h/p?q?r#f#g");
    assert_eq!(u.fragment, "f#g");
    assert_eq!(u.query, "q?r");
    assert_eq!(u.path, "/p");
    assert_eq!(u.to_string(), "s://h/p?q?r#f#g");
}
