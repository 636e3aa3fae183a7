use http_client::pool::SessionPool;
use http_client::session::{parse_chunk_size, RecvUntil, TcpSession, WriteFailure};
use http_client::HttpError;

fn feed(s: &mut TcpSession<u32>, pieces: &[&[u8]], pat: &[u8], max: usize) -> Result<Vec<u8>, HttpError> {
    let mut acc = s.start_recv_until();
    let mut next = 0;
    loop {
        match s.recv_until_step(acc, pat, max, false) {
            RecvUntil::Found(head) => return Ok(head),
            RecvUntil::Failed(e) => return Err(e),
            RecvUntil::NeedMore(mut back) => {
                if next == pieces.len() {
                    return s_end(s, back, pat, max);
                }
                back.extend_from_slice(pieces[next]);
                next += 1;
                acc = back;
            }
        }
    }
}

fn s_end(s: &mut TcpSession<u32>, acc: Vec<u8>, pat: &[u8], max: usize) -> Result<Vec<u8>, HttpError> {
    match s.recv_until_step(acc, pat, max, true) {
        RecvUntil::Found(head) => Ok(head),
        RecvUntil::Failed(e) => Err(e),
        RecvUntil::NeedMore(_) => unreachable!(),
    }
}

#[test]
fn recv_until_keeps_bytes_past_the_match() {
    let mut s: TcpSession<u32> = TcpSession::new("h".to_string());
    let head = feed(&mut s, &[b"HTTP/1.1 200 OK\r\n\r", b"\nbody"], b"\r\n\r\n", 100).unwrap();
    assert_eq!(head, b"HTTP/1.1 200 OK\r\n\r\n".to_vec());
    assert_eq!(s.buffer, b"body".to_vec());
    let first = s.take_buffered(3);
    assert_eq!(first, b"bod".to_vec());
    assert_eq!(s.take_buffered(10), b"y".to_vec());
    assert_eq!(s.take_buffered(10), Vec::<u8>::new());
}

#[test]
fn recv_until_uses_buffered_bytes_first() {
    let mut s: TcpSession<u32> = TcpSession::new("h".to_string());
    s.buffer = b"5\r\nhello\r\n0\r\n\r\n".to_vec();
    let line = feed(&mut s, &[], b"\r\n", 100).unwrap();
    assert_eq!(line, b"5\r\n".to_vec());
    assert_eq!(parse_chunk_size(&line), Ok(5));
    assert_eq!(s.buffer, b"hello\r\n0\r\n\r\n".to_vec());
}

#[test]
fn recv_until_errors() {
    let mut s: TcpSession<u32> = TcpSession::new("h".to_string());
    assert_eq!(feed(&mut s, &[b"abc"], b"\r\n", 100), Err(HttpError::StreamEnded));
    let mut t: TcpSession<u32> = TcpSession::new("h".to_string());
    assert_eq!(feed(&mut t, &[b"abcdef"], b"\r\n", 4), Err(HttpError::SequenceTooFar));
}

#[test]
fn chunk_size_is_decimal() {
    assert_eq!(parse_chunk_size(b" 12 \r\n"), Ok(12));
    assert_eq!(parse_chunk_size(b"0\r\n"), Ok(0));
    assert_eq!(parse_chunk_size(b"a\r\n"), Err(HttpError::ChunkSizeInvalid));
    assert_eq!(parse_chunk_size(&[0xff, b'\r', b'\n']), Err(HttpError::ChunkSizeInvalid));
}

#[test]
fn write_failure_on_fresh_session_is_reported() {
    let mut s: TcpSession<u32> = TcpSession::from_stream(7, "h:1".to_string());
    assert_eq!(s.write_failed(), WriteFailure::Fail);
    assert_eq!(s.stream, Some(7));
}

#[test]
fn write_failure_on_reused_session_reconnects() {
    let mut s: TcpSession<u32> = TcpSession::from_stream(7, "h:1".to_string());
    s.set_idle(1000);
    s.buffer = b"stale".to_vec();
    assert_eq!(s.write_failed(), WriteFailure::Reconnect);
    assert_eq!(s.stream, None);
    s.connected(8);
    assert!(s.is_fresh_conn);
    assert_eq!(s.stream, Some(8));
    assert!(s.buffer.is_empty());
    assert_eq!(s.idle_from, None);
    assert_eq!(s.write_failed(), WriteFailure::Fail);
}

#[test]
fn session_expiry() {
    let mut s: TcpSession<u32> = TcpSession::new("h".to_string());
    assert!(!s.is_expired(1_000_000));
    s.set_idle(1000);
    assert!(!s.is_fresh_conn);
    assert!(!s.is_expired(16000));
    assert!(s.is_expired(16001));
    assert!(!s.is_expired(500));
}

#[test]
fn pool_reuses_released_session_in_order() {
    let mut pool: SessionPool<u32> = SessionPool::new();
    let a = pool.acquire(&"a.com:80".to_string(), 10);
    assert!(a.stream.is_none());
    assert!(a.is_fresh_conn);
    let mut b: TcpSession<u32> = TcpSession::from_stream(2, "a.com:80".to_string());
    let mut c: TcpSession<u32> = TcpSession::from_stream(3, "a.com:80".to_string());
    b.is_fresh_conn = true;
    c.is_fresh_conn = true;
    assert!(pool.release(b, 20));
    assert!(!pool.release(c, 30));
    let other = pool.acquire(&"a.com".to_string(), 40);
    assert!(other.stream.is_none());
    let first = pool.acquire(&"a.com:80".to_string(), 50);
    assert_eq!(first.stream, Some(2));
    assert_eq!(first.idle_from, Some(20));
    assert!(!first.is_fresh_conn);
    let second = pool.acquire(&"a.com:80".to_string(), 60);
    assert_eq!(second.stream, Some(3));
    let fresh = pool.acquire(&"a.com:80".to_string(), 70);
    assert!(fresh.stream.is_none());
    assert_eq!(pool.last_interaction, 70);
}

#[test]
fn pool_evicts_expired_sessions() {
    let mut pool: SessionPool<u32> = SessionPool::new();
    pool.release(TcpSession::from_stream(1, "x".to_string()), 0);
    pool.release(TcpSession::from_stream(2, "x".to_string()), 10_000);
    pool.release(TcpSession::from_stream(3, "y".to_string()), 1_000);
    assert!(!pool.remove_expired(20_000));
    let kept = pool.acquire(&"x".to_string(), 20_000);
    assert_eq!(kept.stream, Some(2));
    let none = pool.acquire(&"y".to_string(), 20_000);
    assert!(none.stream.is_none());
    assert!(!pool.remove_expired(40_000));
    assert!(pool.host_lookup.is_empty());
    assert!(pool.evicting);
    assert!(pool.remove_expired(50_001));
    assert!(!pool.evicting);
}

#[test]
fn chunk_size_limits() {
    assert_eq!(parse_chunk_size(b"+7\r\n"), Ok(7));
    assert_eq!(parse_chunk_size(b"+\r\n"), Err(HttpError::ChunkSizeInvalid));
    assert_eq!(parse_chunk_size(b"\r\n"), Err(HttpError::ChunkSizeInvalid));
    assert_eq!(parse_chunk_size(b"-1\r\n"), Err(HttpError::ChunkSizeInvalid));
    let max = format!("{}\r\n", usize::MAX);
    assert_eq!(parse_chunk_size(max.as_bytes()), Ok(usize::MAX));
    let over = format!("{}0\r\n", usize::MAX);
    assert_eq!(parse_chunk_size(over.as_bytes()), Err(HttpError::ChunkSizeInvalid));
}
