//! The bookkeeping of one connection: its host, idle time, whether it is
//! fresh, and the bytes received past a delimiter. The connection itself is
//! the type parameter `C`; reading and writing it is left to the caller,
//! which hands the outcome back to these methods.
use vstd::prelude::*;
use vstd::utf8::{decode_utf8, valid_utf8};
use crate::error::HttpError;
use crate::text::{
    chars_of, first_from, lemma_first_from_bounds, occurs_at, parse_usize, parse_usize_chars,
    trim, trim_chars, utf8_string,
};

verus! {

/// Milliseconds that a released session may stay idle before it expires.
pub const IDLE_EXPIRY_MS: u64 = 15000;

/// One connection to `host` and what is known about it.
pub struct TcpSession<C> {
    pub idle_from: Option<u64>,
    pub host: String,
    pub is_fresh_conn: bool,
    pub stream: Option<C>,
    pub buffer: Vec<u8>,
}

/// What to do after a write on the connection failed.
#[derive(Debug, Clone, Copy, PartialEq, Eq, Structural)]
pub enum WriteFailure {
    /// Report the error.
    Fail,
    /// Connect again and retry the write once; the retry's outcome is final.
    Reconnect,
}

/// Where a `recv_until` stands after the bytes received so far.
pub enum RecvUntil {
    /// The bytes through the end of the awaited sequence.
    Found(Vec<u8>),
    /// More bytes are needed; the bytes so far are handed back.
    NeedMore(Vec<u8>),
    Failed(HttpError),
}

/// One past the end of the first occurrence of `pat` in `b`, or -1.
pub open spec fn match_end(b: Seq<u8>, pat: Seq<u8>) -> int {
    let k = first_from(b, pat, 0);
    if k < 0 {
        -1
    } else {
        k + pat.len()
    }
}

/// The decimal chunk size on a chunk-size line, whitespace around it ignored.
pub open spec fn chunk_size_of(b: Seq<u8>) -> Result<usize, HttpError> {
    if !valid_utf8(b) {
        Err(HttpError::ChunkSizeInvalid)
    } else {
        match parse_usize(trim(decode_utf8(b))) {
            Some(n) => Ok(n),
            None => Err(HttpError::ChunkSizeInvalid),
        }
    }
}

/// Parses a chunk-size line.
pub fn parse_chunk_size(b: &[u8]) -> (r: Result<usize, HttpError>)
    ensures
        r == chunk_size_of(b@),
{
    match utf8_string(b) {
        None => Err(HttpError::ChunkSizeInvalid),
        Some(s) => match parse_usize_chars(&trim_chars(&chars_of(s.as_str()))) {
            Some(n) => Ok(n),
            None => Err(HttpError::ChunkSizeInvalid),
        },
    }
}

/// Whether `pat` stands in `s` at index `i`.
pub fn bytes_match_at(s: &[u8], pat: &[u8], i: usize) -> (r: bool)
    ensures
        r == occurs_at(s@, pat@, i as int),
{
    if i > s.len() || pat.len() > s.len() - i {
        return false;
    }
    let mut j: usize = 0;
    while j < pat.len()
        invariant
            i + pat@.len() <= s@.len(),
            s@.len() == s.len(),
            j <= pat@.len(),
            forall|k: int| 0 <= k < j ==> s@[i + k] == pat@[k],
        decreases pat@.len() - j,
    {
        if s[i + j] != pat[j] {
            assert(s@.subrange(i as int, i + pat@.len())[j as int] != pat@[j as int]);
            return false;
        }
        j = j + 1;
    }
    assert(s@.subrange(i as int, i + pat@.len()) =~= pat@);
    true
}

/// The first index where `pat` stands in `s`.
pub fn find_bytes(s: &[u8], pat: &[u8]) -> (r: Option<usize>)
    ensures
        match r {
            Some(k) => first_from(s@, pat@, 0) == k as int,
            None => first_from(s@, pat@, 0) == -1,
        },
{
    let mut i: usize = 0;
    while i <= s.len() && pat.len() <= s.len() - i
        invariant
            i <= s@.len() + 1,
            i < s@.len() + 1 || pat@.len() > 0 || i == 0,
            first_from(s@, pat@, 0) == first_from(s@, pat@, i as int),
        decreases s@.len() + 1 - i,
    {
        if bytes_match_at(s, pat, i) {
            return Some(i);
        }
        proof {
            if pat@.len() == 0 {
                assert(s@.subrange(i as int, i as int) =~= pat@);
            }
        }
        i = i + 1;
    }
    None
}

/// The bytes of `b` from `a` up to `e`.
pub fn sub_bytes(b: &[u8], a: usize, e: usize) -> (r: Vec<u8>)
    requires
        a <= e <= b@.len(),
    ensures
        r@ == b@.subrange(a as int, e as int),
{
    let mut r: Vec<u8> = Vec::new();
    let mut i: usize = a;
    while i < e
        invariant
            a <= i <= e <= b@.len(),
            r@ == b@.subrange(a as int, i as int),
        decreases e - i,
    {
        r.push(b[i]);
        i = i + 1;
    }
    r
}

impl<C> TcpSession<C> {
    /// A session for `host` that is not connected yet.
    pub fn new(host: String) -> (r: TcpSession<C>)
        ensures
            r.host@ == host@,
            r.idle_from.is_none(),
            r.is_fresh_conn,
            r.stream.is_none(),
            r.buffer@.len() == 0,
    {
        TcpSession { idle_from: None, host, is_fresh_conn: true, stream: None, buffer: Vec::new() }
    }

    /// A session on a connection that is already open, with peer `host`.
    pub fn from_stream(tcp_stream: C, host: String) -> (r: TcpSession<C>)
        ensures
            r.host@ == host@,
            r.idle_from.is_none(),
            r.is_fresh_conn,
            r.stream == Some(tcp_stream),
            r.buffer@.len() == 0,
    {
        TcpSession {
            idle_from: None,
            host,
            is_fresh_conn: true,
            stream: Some(tcp_stream),
            buffer: Vec::new(),
        }
    }

    /// Installs a newly opened connection: the session is fresh, not idle,
    /// and holds no received bytes.
    pub fn connected(&mut self, stream: C)
        ensures
            final(self).host == old(self).host,
            final(self).stream == Some(stream),
            final(self).is_fresh_conn,
            final(self).idle_from.is_none(),
            final(self).buffer@.len() == 0,
    {
        self.stream = Some(stream);
        self.is_fresh_conn = true;
        self.idle_from = None;
        self.buffer = Vec::new();
    }

    /// Marks the session idle from `now` (milliseconds); it is no longer fresh.
    pub fn set_idle(&mut self, now: u64)
        ensures
            final(self).idle_from == Some(now),
            !final(self).is_fresh_conn,
            final(self).host == old(self).host,
            final(self).stream == old(self).stream,
            final(self).buffer == old(self).buffer,
    {
        self.idle_from = Some(now);
        self.is_fresh_conn = false;
    }

    /// Idle for more than fifteen seconds at `now` (milliseconds).
    pub open spec fn expired_at(&self, now: u64) -> bool {
        match self.idle_from {
            Some(t) => now > t && now - t > IDLE_EXPIRY_MS,
            None => false,
        }
    }

    pub fn is_expired(&self, now: u64) -> (r: bool)
        ensures
            r == self.expired_at(now),
    {
        match self.idle_from {
            Some(t) => now > t && now - t > IDLE_EXPIRY_MS,
            None => false,
        }
    }

    /// Decides what follows a failed write: a fresh session reports it; a
    /// reused one drops its connection so that it can connect again and retry.
    pub fn write_failed(&mut self) -> (r: WriteFailure)
        ensures
            old(self).is_fresh_conn ==> r == WriteFailure::Fail && *final(self) == *old(self),
            !old(self).is_fresh_conn ==> r == WriteFailure::Reconnect && final(self).stream.is_none()
                && final(self).host == old(self).host && final(self).buffer == old(self).buffer
                && final(self).idle_from == old(self).idle_from && final(self).is_fresh_conn
                == old(self).is_fresh_conn,
    {
        if self.is_fresh_conn {
            WriteFailure::Fail
        } else {
            self.stream = None;
            WriteFailure::Reconnect
        }
    }

    /// Takes up to `max` bytes from the head of the bytes received earlier.
    pub fn take_buffered(&mut self, max: usize) -> (r: Vec<u8>)
        ensures
            ({
                let k = if old(self).buffer@.len() < max {
                    old(self).buffer@.len()
                } else {
                    max as nat
                };
                &&& r@ == old(self).buffer@.subrange(0, k as int)
                &&& final(self).buffer@ == old(self).buffer@.subrange(
                    k as int,
                    old(self).buffer@.len() as int,
                )
            }),
            final(self).host == old(self).host,
            final(self).stream == old(self).stream,
            final(self).is_fresh_conn == old(self).is_fresh_conn,
            final(self).idle_from == old(self).idle_from,
    {
        let n = self.buffer.len();
        let k = if n < max {
            n
        } else {
            max
        };
        let r = sub_bytes(&self.buffer, 0, k);
        self.buffer = sub_bytes(&self.buffer, k, n);
        r
    }

    /// Starts a `recv_until`: the bytes received earlier come first.
    pub fn start_recv_until(&mut self) -> (r: Vec<u8>)
        ensures
            r@ == old(self).buffer@,
            final(self).buffer@.len() == 0,
            final(self).host == old(self).host,
            final(self).stream == old(self).stream,
            final(self).is_fresh_conn == old(self).is_fresh_conn,
            final(self).idle_from == old(self).idle_from,
    {
        let mut r: Vec<u8> = Vec::new();
        std::mem::swap(&mut r, &mut self.buffer);
        r
    }

    /// Continues a `recv_until` for `pat` with `received`, everything received
    /// for it so far; `ended` tells that the last read returned no bytes.
    /// Where `pat` occurs, the bytes through its first occurrence are
    /// returned and the rest kept for the next receive. The cut is at the
    /// first occurrence, not at the last one that a read brought in: bytes of
    /// the next message that happen to hold `pat` stay with that message. Otherwise it fails
    /// when more than `max` bytes came, or the stream ended.
    pub fn recv_until_step(&mut self, received: Vec<u8>, pat: &[u8], max: usize, ended: bool) -> (r:
        RecvUntil)
        requires
            old(self).buffer@.len() == 0,
        ensures
            final(self).host == old(self).host,
            final(self).stream == old(self).stream,
            final(self).is_fresh_conn == old(self).is_fresh_conn,
            final(self).idle_from == old(self).idle_from,
            ({
                let e = match_end(received@, pat@);
                match r {
                    RecvUntil::Found(head) => e >= 0 && head@ == received@.subrange(0, e)
                        && final(self).buffer@ == received@.subrange(e, received@.len() as int),
                    RecvUntil::NeedMore(back) => e < 0 && received@.len() <= max && !ended
                        && back@ == received@ && final(self).buffer@.len() == 0,
                    RecvUntil::Failed(err) => e < 0 && final(self).buffer@.len() == 0 && (
                    if received@.len() > max {
                        err == HttpError::SequenceTooFar
                    } else {
                        ended && err == HttpError::StreamEnded
                    }),
                }
            }),
    {
        let n = received.len();
        match find_bytes(&received, pat) {
            Some(k) => {
                proof {
                    lemma_first_from_bounds(received@, pat@, 0);
                }
                assert(k + pat@.len() <= n);
                let e = k + pat.len();
                self.buffer = sub_bytes(&received, e, n);
                RecvUntil::Found(sub_bytes(&received, 0, e))
            },
            None => {
                if n > max {
                    RecvUntil::Failed(HttpError::SequenceTooFar)
                } else if ended {
                    RecvUntil::Failed(HttpError::StreamEnded)
                } else {
                    RecvUntil::NeedMore(received)
                }
            },
        }
    }
}

} // verus!
