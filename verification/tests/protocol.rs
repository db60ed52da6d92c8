use blobshare::gate::Gate;
use blobshare::parse::Method;
use blobshare::parse::find_header_end;
use blobshare::parse::find_line_end;
use blobshare::parse::parse_request_line;
use blobshare::service::handle;
use blobshare::service::handle_fresh;
use blobshare::store::Store;

const WINDOW: u64 = 3600;

#[test]
fn request_line_parses_three_tokens() {
    let req = parse_request_line(b"PUT /x HTTP/1.1").expect("valid line");
    assert_eq!(req.method, Method::Put);
    assert_eq!(req.path, b"/x".to_vec());
    assert_eq!(req.version, b"/1.1".to_vec());
    let req = parse_request_line(b"GET /abc HTTP/1.0").expect("valid line");
    assert_eq!(req.method, Method::Get);
    let req = parse_request_line(b"DELETE /abc HTTP/1.1").expect("valid line");
    assert_eq!(req.method, Method::Delete);
}

#[test]
fn request_line_tolerates_extra_spaces() {
    let req = parse_request_line(b"GET   /x  \tHTTP/1.1").expect("valid line");
    assert_eq!(req.method, Method::Get);
    assert_eq!(req.path, b"/x".to_vec());
}

#[test]
fn unknown_method_is_other() {
    let req = parse_request_line(b"BREW /x HTTP/1.1").expect("valid line");
    assert_eq!(req.method, Method::Other);
    let req = parse_request_line(b"put /x HTTP/1.1").expect("valid line");
    assert_eq!(req.method, Method::Other);
}

#[test]
fn short_or_shapeless_lines_fail() {
    assert!(parse_request_line(b"").is_none());
    assert!(parse_request_line(b"PUT").is_none());
    assert!(parse_request_line(b"PUT /x").is_none());
    assert!(parse_request_line(b"PUT /x XTTP/1.1").is_none());
    assert!(parse_request_line(b"PUT /x HTT").is_none());
    assert!(parse_request_line(b"PUT /x HTTP/1.1 extra").is_none());
}

#[test]
fn line_end_is_first_line_feed() {
    assert_eq!(find_line_end(b"abc\ndef\n"), Some(3));
    assert_eq!(find_line_end(b"\n"), Some(0));
    assert_eq!(find_line_end(b"abc"), None);
}

#[test]
fn header_scan_finds_terminator() {
    assert_eq!(find_header_end(b"X: 1\r\n\r\nBODY", 0, 0), Some(8));
    assert_eq!(find_header_end(b"\r\n\r\n", 0, 0), Some(4));
    assert_eq!(find_header_end(b"\r\n", 0, 2), Some(2));
}

#[test]
fn header_scan_resets_on_mismatch() {
    // the scan starts the sequence over rather than resuming mid-way
    assert_eq!(find_header_end(b"\r\r\n\r\n", 0, 0), None);
    assert_eq!(find_header_end(b"no terminator", 0, 0), None);
}

#[test]
fn cap_admits_at_most_the_cap() {
    let mut gate = Gate::new(16);
    let mut admitted = 0;
    for _ in 0..17 {
        if gate.try_admit() {
            admitted += 1;
        }
    }
    assert_eq!(admitted, 16);
    assert_eq!(gate.active(), 16);
    gate.release();
    assert!(gate.try_admit());
    assert!(!gate.try_admit());
}

#[test]
fn malformed_requests_get_no_reply() {
    let mut s = Store::new(WINDOW);
    // no line feed at all: the stream ended before the request line
    assert!(handle(&mut s, b"PUT /x HTTP/1.1", "h", 1, 0).is_none());
    // fewer than three tokens
    assert!(handle(&mut s, b"PUT /x\r\n\r\n", "h", 1, 0).is_none());
    // no recognized verb
    assert!(handle(&mut s, b"BREW /x HTTP/1.1\r\n\r\n", "h", 1, 0).is_none());
    // third token not beginning with HTTP
    assert!(handle(&mut s, b"PUT /x SPDY/1.1\r\n\r\n", "h", 1, 0).is_none());
}

#[test]
fn upload_without_terminator_gets_no_reply() {
    let mut s = Store::new(WINDOW);
    assert!(handle(&mut s, b"PUT /x HTTP/1.1\r\nX: 1\r\nstuck", "h", 1, 0).is_none());
}

fn key_from_put_head(head: &str, host: &str) -> Vec<u8> {
    let marker = format!("http://{}/", host);
    let at = head.find(&marker).expect("URL in reply") + marker.len();
    let tail = &head[at..];
    let end = tail.find('"').expect("quoted URL");
    tail[..end].as_bytes().to_vec()
}

#[test]
fn full_lifecycle_over_the_wire() {
    let mut s = Store::new(WINDOW);
    let host = "10.0.0.1:80";

    let put_reply = handle(&mut s, b"PUT /x HTTP/1.1\r\n\r\nhello", host, 1, 0)
        .expect("upload acknowledged");
    assert!(put_reply.head.starts_with("HTTP/1.1 200 "));
    assert!(put_reply.body.is_empty());
    let key = key_from_put_head(&put_reply.head, host);
    assert!(!key.is_empty());

    let mut get_line = b"GET /".to_vec();
    get_line.extend_from_slice(&key);
    get_line.extend_from_slice(b" HTTP/1.1\r\n\r\n");
    let get_reply = handle(&mut s, &get_line, host, 2, 0).expect("download served");
    assert_eq!(
        get_reply.head,
        "HTTP/1.1 200 OK\r\nContent-Length: 5\r\n\r\n".to_string()
    );
    assert_eq!(get_reply.body, b"hello".to_vec());

    let mut delete_line = b"DELETE /".to_vec();
    delete_line.extend_from_slice(&key);
    delete_line.extend_from_slice(b" HTTP/1.1\r\n\r\n");
    let delete_reply = handle(&mut s, &delete_line, host, 3, 0).expect("deletion served");
    assert!(delete_reply.head.starts_with("HTTP/1.1 200 "));

    let gone_reply = handle(&mut s, &get_line, host, 4, 0).expect("miss reported");
    assert!(gone_reply.head.starts_with("HTTP/1.1 404 "));
    assert!(gone_reply.body.is_empty());
}

#[test]
fn colliding_upload_gets_no_reply_and_keeps_first_blob() {
    let mut s = Store::new(WINDOW);
    let host = "h";
    let first = handle(&mut s, b"PUT /x HTTP/1.1\r\n\r\nhello", host, 1, 0)
        .expect("upload acknowledged");
    let key = key_from_put_head(&first.head, host);
    // the same path, body and salt force the same key
    assert!(handle(&mut s, b"PUT /x HTTP/1.1\r\n\r\nhello", host, 1, 9).is_none());
    assert_eq!(s.get(&key), Some(b"hello".to_vec()));
}

#[test]
fn fresh_salt_upload_round_trips() {
    let mut s = Store::new(WINDOW);
    let host = "h";
    let reply = handle_fresh(&mut s, b"PUT /x HTTP/1.1\r\n\r\nhello", host, 0)
        .expect("upload acknowledged");
    let key = key_from_put_head(&reply.head, host);
    assert_eq!(s.get(&key), Some(b"hello".to_vec()));
}
