use gruznet::http::{build_request, response_body};

#[test]
fn plain_request() {
    let request = build_request("http://a.com/x?y", &None);
    assert_eq!(request.host, "a.com");
    assert_eq!(request.address, "a.com:80");
    assert!(!request.is_secure);
    assert_eq!(
        request.text,
        "GET /x?y HTTP/1.0\r\nHost: a.com\r\nConnection: close\r\nUser-Agent: Gruz_Engine/3.1\r\n\r\n"
    );
}

#[test]
fn encrypted_request_with_a_cookie() {
    let request = build_request(" https://a.com ", &Some("__test=1".to_string()));
    assert_eq!(request.host, "a.com");
    assert_eq!(request.address, "a.com:443");
    assert!(request.is_secure);
    assert_eq!(
        request.text,
        "GET / HTTP/1.0\r\nHost: a.com\r\nConnection: close\r\nUser-Agent: Gruz_Engine/3.1\r\n\
         Cookie: __test=1\r\n\r\n"
    );
}

#[test]
fn requests_end_with_an_empty_line() {
    for cookie in [None, Some(String::new()), Some("a=b".to_string())] {
        assert!(build_request("a.com", &cookie).text.ends_with("\r\n\r\n"));
    }
}

#[test]
fn the_body_follows_the_headers() {
    let response = b"HTTP/1.0 200 OK\r\nServer: x\r\n\r\nhello\r\n\r\nworld".to_vec();
    assert_eq!(response_body(&response), b"hello\r\n\r\nworld".to_vec());
}

#[test]
fn a_body_can_be_empty() {
    assert_eq!(response_body(&b"HTTP/1.0 204\r\n\r\n".to_vec()), Vec::<u8>::new());
    assert_eq!(response_body(&b"\r\n\r\n".to_vec()), Vec::<u8>::new());
}

#[test]
fn without_headers_all_is_body() {
    for response in [&b""[..], &b"\r"[..], &b"\r\n\r"[..], &b"hello\n\nworld"[..], &b"a\r\nb\r\nc"[..]] {
        assert_eq!(response_body(&response.to_vec()), response.to_vec());
    }
}

#[test]
fn the_empty_line_is_found_after_a_false_start() {
    assert_eq!(response_body(&b"a\r\n\r\r\n\r\nb".to_vec()), b"b".to_vec());
    assert_eq!(response_body(&b"\r\n\r\n\r\nb".to_vec()), b"\r\nb".to_vec());
}
