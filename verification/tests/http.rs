use almanac::http::{
    json_response, read_request, read_request_with, response_head, ReadError, Request, Response,
    MAX_BODY, MAX_HEADERS,
};

fn read(raw: &[u8]) -> Result<Request, ReadError> {
    read_request(raw)
}

#[test]
fn expect_continue_fires_only_when_the_body_is_missing() {
    let mut fired = 0;
    let head = b"POST /x HTTP/1.1\r\nExpect: 100-continue\r\nContent-Length: 2\r\n\r\n";
    let mut raw = head.to_vec();
    let (_, went_ahead) = read_request_with(&raw);
    if went_ahead {
        fired += 1;
    }
    raw.extend_from_slice(b"hi");
    let (req, went_ahead) = read_request_with(&raw);
    if went_ahead {
        fired += 1;
    }
    assert_eq!(req.unwrap().body, b"hi");
    assert_eq!(fired, 1);
}

#[test]
fn reads_a_request_with_a_body() {
    let req = read(b"POST /x HTTP/1.1\r\nContent-Length: 2\r\n\r\nhi").unwrap();
    assert_eq!((req.method.as_str(), req.path.as_str()), ("POST", "/x"));
    assert_eq!(req.body, b"hi");
    assert_eq!(req.header("CONTENT-length"), "2");
}

#[test]
fn rejects_an_oversized_body_by_its_header() {
    let raw = format!("POST /x HTTP/1.1\r\nContent-Length: {}\r\n\r\n", MAX_BODY + 1);
    assert_eq!(read(raw.as_bytes()).unwrap_err(), ReadError::Reject(413, "body too large"));
    let huge = b"POST /x HTTP/1.1\r\nContent-Length: 99999999999999999999999\r\n\r\n";
    assert_eq!(read(huge).unwrap_err(), ReadError::Reject(413, "body too large"));
}

#[test]
fn rejects_oversized_headers() {
    let mut raw = b"GET / HTTP/1.1\r\nX: ".to_vec();
    raw.resize(raw.len() + MAX_HEADERS + 10, b'a');
    assert_eq!(read(&raw).unwrap_err(), ReadError::Reject(431, "headers too large"));
}

#[test]
fn rejects_chunked_and_bad_lengths() {
    let chunked = b"POST /x HTTP/1.1\r\nTransfer-Encoding: chunked\r\n\r\n0\r\n\r\n";
    assert!(matches!(read(chunked), Err(ReadError::Reject(411, _))));
    let dup = b"POST /x HTTP/1.1\r\nContent-Length: 1\r\nContent-Length: 2\r\n\r\nab";
    assert!(matches!(read(dup), Err(ReadError::Reject(400, _))));
    for bad in ["-1", "+1", "1x", "0x10"] {
        let raw = format!("POST /x HTTP/1.1\r\nContent-Length: {bad}\r\n\r\n");
        assert!(matches!(read(raw.as_bytes()), Err(ReadError::Reject(400, _))), "{bad}");
    }
}

#[test]
fn a_short_body_is_closed_not_served_truncated() {
    let raw = b"POST /x HTTP/1.1\r\nContent-Length: 10\r\n\r\nhi";
    assert!(matches!(read(raw), Err(ReadError::Closed(_))));
}

#[test]
fn an_empty_stream_is_closed() {
    assert_eq!(read(b"").unwrap_err(), ReadError::Closed("empty request".into()));
    assert_eq!(read(b"GET / HT").unwrap_err(), ReadError::Closed("closed mid-headers".into()));
}

#[test]
fn a_response_head_names_its_length_and_closes() {
    let res = json_response(200, "{}");
    assert_eq!(
        response_head(&res),
        "HTTP/1.1 200 OK\r\ncontent-type: application/json; charset=utf-8\r\ncontent-length: 2\r\nconnection: close\r\n\r\n"
    );
    let res = Response::new(404).header("Content-Length", "0");
    assert_eq!(
        response_head(&res),
        "HTTP/1.1 404 Not Found\r\nContent-Length: 0\r\nconnection: close\r\n\r\n"
    );
    assert_eq!(res.header_value("content-LENGTH"), Some("0"));
}

#[test]
fn a_later_header_replaces_an_earlier_one() {
    let req = Request::new("GET", "/").with_header("Accept", "a").with_header("ACCEPT", "b");
    assert_eq!(req.header("accept"), "b");
    assert_eq!(req.header("missing"), "");
}

#[test]
fn a_timed_out_read_asks_for_408() {
    assert_eq!(
        almanac::http::io_error(true, "timed out".into()),
        ReadError::Reject(408, "request timeout")
    );
    assert_eq!(
        almanac::http::io_error(false, "reset".into()),
        ReadError::Closed("reset".into())
    );
}
