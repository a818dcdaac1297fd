use cache_node::http::{dechunk, read_reply, read_response, request, HttpError};

#[test]
fn request_is_written() {
    assert_eq!(
        request("h:9910", "/manifest"),
        "GET /manifest HTTP/1.1\r\nHost: h:9910\r\nConnection: close\r\n\r\n"
    );
}

#[test]
fn chunks_are_put_together() {
    assert_eq!(dechunk(b"4\r\nWiki\r\n5\r\npedia\r\n0\r\n\r\n"), b"Wikipedia");
    assert_eq!(dechunk(b"A;name=x\r\n0123456789\r\n0\r\n\r\n"), b"0123456789");
    assert_eq!(dechunk(b" +3 \r\nabc"), b"abc");
}

#[test]
fn sizes_come_in_either_case_and_trailers_are_left_out() {
    let data = vec![b'x'; 0xab];
    for size in ["ab", "AB", "aB", "00Ab", "AB;ext=\"1\""] {
        let mut body = format!("{size}\r\n").into_bytes();
        body.extend_from_slice(&data);
        body.extend_from_slice(b"\r\n000\r\nTrailer: 1\r\n\r\n5\r\nabcde\r\n");
        assert_eq!(dechunk(&body), data);
    }
}

#[test]
fn broken_chunks_end_the_body() {
    assert_eq!(dechunk(b""), b"");
    assert_eq!(dechunk(b"3\r\nab"), b"");
    assert_eq!(dechunk(b"3\r\nabc\r\nzz\r\nmore\r\n"), b"abc");
    assert_eq!(dechunk(b"3\r\nabc\r\n\xff\r\nmore\r\n"), b"abc");
    assert_eq!(dechunk(b"ffffffffffffffff\r\nabc"), b"");
    assert_eq!(dechunk(b"fffffffffffffffffff\r\nabc"), b"");
}

#[test]
fn plain_reply_is_read() {
    let raw = b"HTTP/1.1 200 OK\r\nContent-Length: 3\r\n\r\na\r\n\r\nb";
    assert_eq!(read_response(raw).ok(), Some(b"a\r\n\r\nb".to_vec()));
}

#[test]
fn chunked_reply_is_read() {
    let raw = b"HTTP/1.1 200 OK\r\nTransfer-Encoding: Chunked\r\n\r\n3\r\nabc\r\n0\r\n\r\n";
    assert_eq!(read_response(raw).ok(), Some(b"abc".to_vec()));
}

#[test]
fn head_that_is_no_utf8_is_read() {
    let raw = b"HTTP/1.1 200 \xff\r\nX: \xc3\x89\r\n\r\nbody";
    assert_eq!(read_response(raw).ok(), Some(b"body".to_vec()));
}

#[test]
fn bad_replies_are_told() {
    let words = |raw: &[u8]| match read_response(raw) {
        Ok(_) => panic!("read"),
        Err(e) => e.message(),
    };
    assert_eq!(words(b"HTTP/1.1 200 OK\r\n"), "bad http: no header terminator");
    assert_eq!(words(b"HTTP/1.1\r\n\r\n"), "bad http: status line");
    assert_eq!(words(b"HTTP/1.1 abc\r\n\r\n"), "bad http: status line");
    assert_eq!(words(b"HTTP/1.1 65536\r\n\r\n"), "bad http: status line");
    assert_eq!(words(b"HTTP/1.1 404 Not Found\r\n\r\n"), "peer http 404");
}

#[test]
fn reply_without_its_head_is_read() {
    assert_eq!(read_reply("http/1.1 200", b"x").ok(), Some(b"x".to_vec()));
    assert!(matches!(read_reply("http/1.1 500 no", b"x"), Err(HttpError::Peer(500))));
    assert!(matches!(read_reply("", b"x"), Err(HttpError::BadStatus)));
}
