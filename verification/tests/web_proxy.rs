use rbac_proxy::web_proxy::{
    log_line, read_request, request_from_parts, request_from_text, request_message, upstream_address, Clock, Header, Request,
};
use rbac_proxy::web_server::page_response;

fn buffer(text: &str) -> Vec<u8> {
    let mut buf = vec![0u8; 1024];
    buf[..text.len()].copy_from_slice(text.as_bytes());
    buf
}

#[test]
fn proxied_request_is_read() {
    let buf = buffer("GET http://example.com/index.html HTTP/1.1\r\nHost: example.com\r\nAccept: */*\r\nnot a header\r\n\r\n");
    let r = read_request(&buf).unwrap();
    assert_eq!(r.verb, "GET");
    assert_eq!(r.hostname, "example.com");
    assert_eq!(r.path, "index.html");
    assert_eq!(r.protocol, "http");
    assert_eq!(r.client_headers.len(), 2);
    assert_eq!(r.client_headers[0].key, "Host");
    assert_eq!(r.client_headers[0].value, "example.com");
    assert_eq!(r.client_headers[1].key, "Accept");
    assert_eq!(r.client_headers[1].value, "*/*");
}

#[test]
fn short_request_line_or_bad_url_is_refused() {
    assert!(read_request(&buffer("GET /\r\n")).is_none());
    assert!(read_request(b"GET http://example.com/ HTTP/1.1").is_some());
    assert!(read_request(b"GET example.com HTTP/1.1\r\n").is_none());
    assert!(read_request(b"").is_none());
}

#[test]
fn request_is_written_for_upstream() {
    let r = Request {
        verb: "GET".to_string(),
        hostname: "example.com".to_string(),
        path: "a/b".to_string(),
        protocol: "http".to_string(),
        client_headers: vec![Header { key: "Host".to_string(), value: "example.com".to_string() }],
    };
    assert_eq!(
        request_message(&r),
        "GET /a/b HTTP/1.1\r\nHost: example.com\r\nConnection: close\r\n\r\n"
    );
    assert_eq!(upstream_address(&r), "example.com:8888");
}

#[test]
fn written_headers_are_read_back() {
    let r = Request {
        verb: "POST".to_string(),
        hostname: "h".to_string(),
        path: "p".to_string(),
        protocol: "http".to_string(),
        client_headers: vec![
            Header { key: "A".to_string(), value: "1: 2".to_string() },
            Header { key: "B:".to_string(), value: "".to_string() },
        ],
    };
    let text = request_message(&r).replace("POST /p", "POST http://h/p");
    let back = read_request(text.as_bytes()).unwrap();
    assert_eq!(back.client_headers.len(), 3);
    assert_eq!(back.client_headers[0].key, "A");
    assert_eq!(back.client_headers[0].value, "1: 2");
    assert_eq!(back.client_headers[1].key, "B:");
    assert_eq!(back.client_headers[1].value, "");
    assert_eq!(back.client_headers[2].key, "Connection");
}

#[test]
fn log_line_pads_fields() {
    let r = Request {
        verb: "GET".to_string(),
        hostname: "example.com".to_string(),
        path: "x".to_string(),
        protocol: "http".to_string(),
        client_headers: Vec::new(),
    };
    let t = Clock { tm_year: 124, tm_mon: 0, tm_mday: 5, tm_hour: 7, tm_min: 3, tm_sec: 9, tm_nsec: 12 };
    assert_eq!(log_line(&t, &r), "[2024-01-05 07:03:09.0012] GET example.com \"/x\"");
    let t = Clock { tm_year: -1901, tm_mon: -2, tm_mday: 31, tm_hour: 23, tm_min: 59, tm_sec: 60, tm_nsec: 999999999 };
    let expected = format!(
        "[{}-{:02}-{:02} {:02}:{:02}:{:02}.{:04}] {} {} \"/{}\"",
        t.tm_year + 1900, t.tm_mon + 1, t.tm_mday, t.tm_hour, t.tm_min, t.tm_sec, t.tm_nsec,
        r.verb, r.hostname, r.path
    );
    assert_eq!(log_line(&t, &r), expected);
    assert_eq!(expected, "[-1--1-31 23:59:60.999999999] GET example.com \"/x\"");
}

#[test]
fn page_response_serves_contents() {
    assert_eq!(page_response("<p>hi</p>"), "HTTP/1.1 200 OK\r\n\r\n<p>hi</p>");
}

#[test]
fn invalid_bytes_are_replaced() {
    let mut buf = b"GET http://h/p HTTP/1.1\r\nX: a".to_vec();
    buf.push(0xff);
    buf.extend_from_slice(b"b\r\n");
    let r = read_request(&buf).unwrap();
    assert_eq!(r.client_headers.len(), 1);
    assert_eq!(r.client_headers[0].value, "a\u{fffd}b");
}

#[test]
fn request_is_read_from_text_and_parts() {
    let r = request_from_text("PUT https://h.io/a/b HTTP/1.0\r\nK: V\r\n").unwrap();
    assert_eq!((r.verb.as_str(), r.protocol.as_str(), r.hostname.as_str(), r.path.as_str()), ("PUT", "https", "h.io", "a/b"));
    assert_eq!(r.client_headers.len(), 1);
    let lines = vec!["first".to_string(), "A: 1".to_string(), "".to_string(), "B:2".to_string(), "C: ".to_string()];
    let r = request_from_parts("GET".to_string(), "http".to_string(), "h".to_string(), "p".to_string(), &lines);
    assert_eq!(r.client_headers.len(), 2);
    assert_eq!(r.client_headers[0].key, "A");
    assert_eq!(r.client_headers[1].key, "C");
    assert_eq!(r.client_headers[1].value, "");
    let r = request_from_parts("GET".to_string(), "http".to_string(), "h".to_string(), "p".to_string(), &Vec::new());
    assert!(r.client_headers.is_empty());
}
