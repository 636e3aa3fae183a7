use http_client::client::{HttpClient, MAX_HEADER_SIZE};
use http_client::header::HttpHeader;
use http_client::response::{BodyStep, Response};
use http_client::session::{parse_chunk_size, RecvUntil, TcpSession};
use http_client::{HttpError, HttpStatus, Method, Request, Url};

const BODY_SIZE: usize = 96000;

fn pattern() -> Vec<u8> {
    let mut body: Vec<u8> = vec![];
    let mut v: u8 = 0;
    for _ in 0..BODY_SIZE {
        body.push(v);
        if v == 255 {
            v = 0;
        } else {
            v += 1;
        }
    }
    body
}

fn recv_until(s: &mut TcpSession<u32>, pat: &[u8], max: usize) -> Result<Vec<u8>, HttpError> {
    let acc = s.start_recv_until();
    match s.recv_until_step(acc, pat, max, true) {
        RecvUntil::Found(head) => Ok(head),
        RecvUntil::Failed(e) => Err(e),
        RecvUntil::NeedMore(_) => unreachable!(),
    }
}

/// Reads a whole body from bytes already received on the session.
fn read_all(resp: &mut Response<u32>) -> Vec<u8> {
    let mut out = vec![];
    loop {
        match resp.next_step(4096) {
            BodyStep::Done => return out,
            BodyStep::ChunkHeader(after_payload) => {
                if after_payload {
                    recv_until(&mut resp.session, b"\r\n", 2).unwrap();
                }
                let line = recv_until(&mut resp.session, b"\r\n", 100).unwrap();
                resp.chunk_started(parse_chunk_size(&line).unwrap());
            }
            BodyStep::Read(k) => {
                let got = resp.session.take_buffered(k);
                assert!(!got.is_empty());
                resp.record_read(got.len());
                out.extend_from_slice(&got);
            }
        }
    }
}

fn response_for(wire: &[u8]) -> Response<u32> {
    let mut s: TcpSession<u32> = TcpSession::from_stream(1, "peer".to_string());
    s.buffer = wire.to_vec();
    let head = recv_until(&mut s, b"\r\n\r\n", MAX_HEADER_SIZE).unwrap();
    let h = HttpHeader::from_bytes(&head).unwrap();
    Response::from_http_header(s, h).unwrap()
}

#[test]
fn bodyless_round_trip() {
    let client: HttpClient<u32> = HttpClient::new();
    let req = Request::new(Method::Post, Url::new("http://localhost:10643/path/is/here?abc=1&def=2"));
    let sent = client.request_header(&req, 0).to_vec();
    let seen = HttpHeader::from_bytes(&sent[..sent.len() - 2]).unwrap();
    assert_eq!(seen.line, "POST /path/is/here?abc=1&def=2 HTTP/1.1");
    assert_eq!(seen.get_value("content-length".to_string()), Some("0".to_string()));
    assert_eq!(seen.get_value("host".to_string()), Some("localhost:10643".to_string()));
    assert_eq!(seen.get_value("content-type".to_string()), None);

    let mut reply = HttpHeader::new();
    reply.set_status_line(&HttpStatus::new(200));
    reply.set_header("authorization".to_owned(), "Bearer token".to_owned());
    let mut resp = response_for(&reply.to_vec());
    assert!(resp.status.status_code == 200);
    assert!(!resp.has_body());
    assert_eq!(resp.next_step(4096), BodyStep::Done);
    assert_eq!(read_all(&mut resp), Vec::<u8>::new());
}

#[test]
fn connection_reused_for_second_request() {
    let mut client: HttpClient<u32> = HttpClient::new();
    let host = Url::new("http://localhost:10644/path/is/here?abc=1&def=2").host();
    let mut first = client.pool.acquire(&host, 0);
    assert!(first.stream.is_none());
    first.connected(42);
    assert!(client.pool.release(first, 1));
    let second = client.pool.acquire(&host, 2);
    assert_eq!(second.stream, Some(42));
    assert!(!second.is_fresh_conn);
}

#[test]
fn fixed_length_upload_header() {
    let client: HttpClient<u32> = HttpClient::new();
    let req = Request::new(Method::Post, Url::new("http://localhost:10645/path/is/here?abc=1&def=2"));
    let body = pattern();
    let mut wire = client.request_header(&req, body.len()).to_vec();
    wire.extend_from_slice(&body);
    let mut server: TcpSession<u32> = TcpSession::from_stream(1, "client".to_string());
    server.buffer = wire;
    let head = recv_until(&mut server, b"\r\n\r\n", MAX_HEADER_SIZE).unwrap();
    let seen = HttpHeader::from_bytes(&head).unwrap();
    let content_length = seen.get_value("content-length".to_owned()).unwrap().parse::<usize>().unwrap();
    assert!(content_length == BODY_SIZE);
    assert_eq!(seen.get_value("content-type".to_string()), Some("application/octet-stream".to_string()));
    let mut received = vec![];
    while received.len() < content_length {
        received.extend_from_slice(&server.take_buffered(4096));
    }
    assert!(received == body);
}

#[test]
fn fixed_length_download() {
    let mut reply = HttpHeader::new();
    reply.set_status_line(&HttpStatus::new(200));
    reply.set_header("authorization".to_owned(), "Bearer token".to_owned());
    reply.set_header("content-length".to_owned(), format!("{}", BODY_SIZE));
    let mut wire = reply.to_vec();
    wire.extend_from_slice(&pattern());
    wire.extend_from_slice(b"HTTP/1.1 200 OK\r\n\r\n");
    let mut resp = response_for(&wire);
    assert!(resp.status.status_code == 200);
    assert!(resp.has_body());
    let body = read_all(&mut resp);
    assert_eq!(body.len(), BODY_SIZE);
    assert!(body == pattern());
    assert_eq!(resp.next_step(4096), BodyStep::Done);
    assert_eq!(resp.session.buffer, b"HTTP/1.1 200 OK\r\n\r\n".to_vec());
}

#[test]
fn chunked_download() {
    let wire = b"HTTP/1.1 200 OK\r\nTransfer-Encoding: chunked\r\n\r\n5\r\nhello\r\n6\r\n world\r\n0\r\n\r\n";
    let mut resp = response_for(wire);
    assert!(resp.has_body());
    assert_eq!(resp.next_step(4096), BodyStep::ChunkHeader(false));
    assert_eq!(read_all(&mut resp), b"hello world".to_vec());
    assert_eq!(resp.next_step(4096), BodyStep::Done);
}

#[test]
fn unsupported_framing_is_rejected() {
    let h = HttpHeader::from_bytes(b"HTTP/1.1 200 OK\r\ntransfer-encoding: gzip\r\n\r\n").unwrap();
    let s: TcpSession<u32> = TcpSession::new("h".to_string());
    assert!(matches!(Response::from_http_header(s, h), Err(HttpError::TransferEncodingUnsupported)));
    let h2 = HttpHeader::from_bytes(b"HTTP/1.1 200 OK\r\ncontent-length: x\r\n\r\n").unwrap();
    let s2: TcpSession<u32> = TcpSession::new("h".to_string());
    assert!(matches!(Response::from_http_header(s2, h2), Err(HttpError::ContentLengthInvalid)));
    let h3 = HttpHeader::from_bytes(b"HTTP/1.1 700 OK\r\n\r\n").unwrap();
    let s3: TcpSession<u32> = TcpSession::new("h".to_string());
    assert!(matches!(Response::from_http_header(s3, h3), Err(HttpError::StatusCodeOutOfRange)));
}

#[test]
fn read_plan_limits_to_buffer_and_remaining() {
    let mut resp = response_for(b"HTTP/1.1 200 OK\r\ncontent-length: 10\r\n\r\n0123456789");
    assert_eq!(resp.next_step(4), BodyStep::Read(4));
    resp.record_read(4);
    assert_eq!(resp.next_step(100), BodyStep::Read(6));
    resp.record_read(6);
    assert_eq!(resp.next_step(100), BodyStep::Done);
}
