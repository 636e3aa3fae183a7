//! Status lines, and the reading of a response body in its framing.
use vstd::prelude::*;
use crate::error::HttpError;
use crate::header::{first_value, HeaderView, HttpHeader};
use crate::session::TcpSession;
use crate::text::{
    chars_of, find_from, first_from, parse_usize, parse_usize_chars, push_all, push_decimal,
    string_of, sub_chars, decimal, lemma_first_from_bounds, lower_of,
};

verus! {

/// A parsed status line.
pub struct HttpStatus {
    pub proto: String,
    pub status_msg: String,
    pub status_code: usize,
}

pub struct StatusView {
    pub proto: Seq<char>,
    pub status_msg: Seq<char>,
    pub status_code: usize,
}

impl View for HttpStatus {
    type V = StatusView;

    open spec fn view(&self) -> StatusView {
        StatusView {
            proto: self.proto@,
            status_msg: self.status_msg@,
            status_code: self.status_code,
        }
    }
}

pub open spec fn http11() -> Seq<char> {
    seq!['H', 'T', 'T', 'P', '/', '1', '.', '1']
}

/// The coarse reason text of a status code, by its hundreds.
pub open spec fn reason_of(code: usize) -> Seq<char> {
    if code < 200 {
        seq!['I', 'n', 'f', 'o', 'r', 'm', 'a', 't', 'i', 'o', 'n']
    } else if code < 300 {
        seq!['O', 'K']
    } else if code < 400 {
        seq!['R', 'e', 'd', 'i', 'r', 'e', 'c', 't']
    } else if code < 500 {
        seq!['C', 'l', 'i', 'e', 'n', 't', ' ', 'e', 'r', 'r', 'o', 'r']
    } else {
        seq!['S', 'e', 'r', 'v', 'e', 'r', ' ', 'e', 'r', 'r', 'o', 'r']
    }
}

/// `<proto> <code> <reason>`.
pub open spec fn status_text(s: StatusView) -> Seq<char> {
    s.proto + seq![' '] + decimal(s.status_code as nat) + seq![' '] + s.status_msg
}

/// A status line split at its two spaces; the code must be a number in
/// `[100, 600)`.
pub open spec fn parse_status(s: Seq<char>) -> Result<StatusView, HttpError> {
    let i = first_from(s, seq![' '], 0);
    let j = first_from(s, seq![' '], i + 1);
    if i < 0 || j < 0 || first_from(s, seq![' '], j + 1) >= 0 {
        Err(HttpError::StatusLineShape)
    } else {
        match parse_usize(s.subrange(i + 1, j)) {
            None => Err(HttpError::StatusCodeNotNumber),
            Some(c) => if c < 100 || c >= 600 {
                Err(HttpError::StatusCodeOutOfRange)
            } else {
                Ok(
                    StatusView {
                        proto: s.subrange(0, i),
                        status_code: c,
                        status_msg: s.subrange(j + 1, s.len() as int),
                    },
                )
            },
        }
    }
}

impl HttpStatus {
    /// A status of protocol `HTTP/1.1` with the reason text of the code's
    /// hundreds.
    pub fn new(status_code: usize) -> (r: HttpStatus)
        ensures
            r@ == (StatusView {
                proto: http11(),
                status_code,
                status_msg: reason_of(status_code),
            }),
    {
        let msg: Vec<char> = if status_code < 200 {
            vec!['I', 'n', 'f', 'o', 'r', 'm', 'a', 't', 'i', 'o', 'n']
        } else if status_code < 300 {
            vec!['O', 'K']
        } else if status_code < 400 {
            vec!['R', 'e', 'd', 'i', 'r', 'e', 'c', 't']
        } else if status_code < 500 {
            vec!['C', 'l', 'i', 'e', 'n', 't', ' ', 'e', 'r', 'r', 'o', 'r']
        } else {
            vec!['S', 'e', 'r', 'v', 'e', 'r', ' ', 'e', 'r', 'r', 'o', 'r']
        };
        assert(msg@ =~= reason_of(status_code));
        let proto: Vec<char> = vec!['H', 'T', 'T', 'P', '/', '1', '.', '1'];
        assert(proto@ =~= http11());
        HttpStatus { proto: string_of(&proto), status_code, status_msg: string_of(&msg) }
    }

    /// The status line.
    pub fn to_string(&self) -> (r: String)
        ensures
            r@ == status_text(self@),
    {
        let mut out = chars_of(self.proto.as_str());
        out.push(' ');
        push_decimal(self.status_code, &mut out);
        out.push(' ');
        push_all(&mut out, &chars_of(self.status_msg.as_str()));
        assert(out@ =~= status_text(self@));
        string_of(&out)
    }

    /// Parses a status line such as `HTTP/1.1 200 OK`.
    pub fn from_string(status: &String) -> (r: Result<HttpStatus, HttpError>)
        ensures
            match r {
                Ok(st) => parse_status(status@) == Ok::<StatusView, HttpError>(st@),
                Err(e) => parse_status(status@) == Err::<StatusView, HttpError>(e),
            },
    {
        let s = chars_of(status.as_str());
        let n = s.len();
        let sp: Vec<char> = vec![' '];
        assert(sp@ =~= seq![' ']);
        let i = match find_from(&s, &sp, 0) {
            Some(i) => i,
            None => {
                return Err(HttpError::StatusLineShape);
            },
        };
        proof {
            lemma_first_from_bounds(s@, seq![' '], 0);
        }
        let j = match find_from(&s, &sp, i + 1) {
            Some(j) => j,
            None => {
                return Err(HttpError::StatusLineShape);
            },
        };
        proof {
            lemma_first_from_bounds(s@, seq![' '], i + 1);
        }
        if find_from(&s, &sp, j + 1).is_some() {
            return Err(HttpError::StatusLineShape);
        }
        let code = match parse_usize_chars(&sub_chars(&s, i + 1, j)) {
            Some(c) => c,
            None => {
                return Err(HttpError::StatusCodeNotNumber);
            },
        };
        if code < 100 || code >= 600 {
            return Err(HttpError::StatusCodeOutOfRange);
        }
        let r = HttpStatus {
            proto: string_of(&sub_chars(&s, 0, i)),
            status_code: code,
            status_msg: string_of(&sub_chars(&s, j + 1, n)),
        };
        assert(r@ == parse_status(status@).unwrap());
        Ok(r)
    }
}

pub open spec fn content_length_key() -> Seq<char> {
    seq!['c', 'o', 'n', 't', 'e', 'n', 't', '-', 'l', 'e', 'n', 'g', 't', 'h']
}

pub open spec fn transfer_encoding_key() -> Seq<char> {
    seq!['t', 'r', 'a', 'n', 's', 'f', 'e', 'r', '-', 'e', 'n', 'c', 'o', 'd', 'i', 'n', 'g']
}

pub open spec fn chunked_name() -> Seq<char> {
    seq!['c', 'h', 'u', 'n', 'k', 'e', 'd']
}

/// The framing of a response body: its length, and whether it is chunked.
/// Names are looked up lower-cased, as `get_value` does. A `content-length`
/// decides; else a `transfer-encoding`, which must be
/// `chunked`; else there is no body.
pub open spec fn framing_of(h: HeaderView) -> Result<(usize, bool), HttpError> {
    match first_value(h.entries, lower_of(content_length_key())) {
        Some(v) => match parse_usize(v) {
            Some(n) => Ok((n, false)),
            None => Err(HttpError::ContentLengthInvalid),
        },
        None => match first_value(h.entries, lower_of(transfer_encoding_key())) {
            Some(v) => if v == chunked_name() {
                Ok((0, true))
            } else {
                Err(HttpError::TransferEncodingUnsupported)
            },
            None => Ok((0, false)),
        },
    }
}

/// What a body read has to do next.
#[derive(Debug, Clone, Copy, PartialEq, Eq, Structural)]
pub enum BodyStep {
    /// The body is over: the read returns 0.
    Done,
    /// Receive a chunk-size line (after the CR LF that ends the previous
    /// chunk's payload, where the flag is set) and hand the size to
    /// `chunk_started`.
    ChunkHeader(bool),
    /// Receive at most this many body bytes and hand the count to
    /// `record_read`.
    Read(usize),
}

/// A response: its status and header block, the session it came on, and how
/// much of its body was read.
pub struct Response<C> {
    pub status: HttpStatus,
    pub session: TcpSession<C>,
    pub header: HttpHeader,
    pub has_chunked_body: bool,
    pub awaiting_first_chunk: bool,
    pub next_chunk_bytes_available: usize,
    pub next_chunk_bytes_read: usize,
    pub body_bytes_available: usize,
    pub body_bytes_read: usize,
}

pub open spec fn min_len(a: usize, b: usize) -> usize {
    if a < b {
        a
    } else {
        b
    }
}

impl<C> Response<C> {
    pub open spec fn wf(&self) -> bool {
        &&& self.next_chunk_bytes_read <= self.next_chunk_bytes_available
        &&& self.body_bytes_read <= self.body_bytes_available
        &&& self.header.wf()
    }

    /// The next step of a body read into a buffer of `buf_len` bytes.
    pub open spec fn step_for(&self, buf_len: usize) -> BodyStep {
        if self.has_chunked_body {
            if self.awaiting_first_chunk {
                BodyStep::ChunkHeader(false)
            } else if self.next_chunk_bytes_read == self.next_chunk_bytes_available {
                if self.next_chunk_bytes_available == 0 {
                    BodyStep::Done
                } else {
                    BodyStep::ChunkHeader(true)
                }
            } else {
                BodyStep::Read(
                    min_len(
                        (self.next_chunk_bytes_available - self.next_chunk_bytes_read) as usize,
                        buf_len,
                    ),
                )
            }
        } else if self.body_bytes_read < self.body_bytes_available {
            BodyStep::Read(
                min_len((self.body_bytes_available - self.body_bytes_read) as usize, buf_len),
            )
        } else {
            BodyStep::Done
        }
    }

    /// Reads the status from the header block's first line and the framing
    /// from its headers.
    pub fn from_http_header(session: TcpSession<C>, header: HttpHeader) -> (r: Result<
        Response<C>,
        HttpError,
    >)
        requires
            header.wf(),
        ensures
            match r {
                Ok(resp) => {
                    &&& parse_status(header@.line) == Ok::<StatusView, HttpError>(resp.status@)
                    &&& framing_of(header@) == Ok::<(usize, bool), HttpError>(
                        (resp.body_bytes_available, resp.has_chunked_body),
                    )
                    &&& resp.session == session
                    &&& resp.header@ == header@
                    &&& resp.awaiting_first_chunk == resp.has_chunked_body
                    &&& resp.next_chunk_bytes_available == 0
                    &&& resp.next_chunk_bytes_read == 0
                    &&& resp.body_bytes_read == 0
                    &&& resp.wf()
                },
                Err(e) => match parse_status(header@.line) {
                    Err(se) => e == se,
                    Ok(_) => framing_of(header@) == Err::<(usize, bool), HttpError>(e),
                },
            },
    {
        let status = match HttpStatus::from_string(&header.line) {
            Ok(s) => s,
            Err(e) => {
                return Err(e);
            },
        };
        proof {
            reveal_strlit("content-length");
            reveal_strlit("transfer-encoding");
            reveal_strlit("chunked");
        }
        let cl_key = "content-length".to_owned();
        assert(cl_key@ =~= content_length_key());
        let te_key = "transfer-encoding".to_owned();
        assert(te_key@ =~= transfer_encoding_key());
        let (available, chunked) = match header.get_value(cl_key) {
            Some(v) => match parse_usize_chars(&chars_of(v.as_str())) {
                Some(n) => (n, false),
                None => {
                    return Err(HttpError::ContentLengthInvalid);
                },
            },
            None => match header.get_value(te_key) {
                Some(v) => {
                    let chunked = "chunked".to_owned();
                    assert(chunked@ =~= chunked_name());
                    if v == chunked {
                        (0, true)
                    } else {
                        return Err(HttpError::TransferEncodingUnsupported);
                    }
                },
                None => (0, false),
            },
        };
        Ok(
            Response {
                status,
                session,
                header,
                has_chunked_body: chunked,
                awaiting_first_chunk: chunked,
                next_chunk_bytes_available: 0,
                next_chunk_bytes_read: 0,
                body_bytes_available: available,
                body_bytes_read: 0,
            },
        )
    }

    /// A body is to be read: a non-zero length, or chunks.
    pub fn has_body(&self) -> (r: bool)
        ensures
            r == (self.body_bytes_available > 0 || self.has_chunked_body),
    {
        self.body_bytes_available > 0 || self.has_chunked_body
    }

    /// The next step of a body read into a buffer of `buf_len` bytes. Once the
    /// body is over this stays `Done`.
    pub fn next_step(&self, buf_len: usize) -> (r: BodyStep)
        requires
            self.wf(),
        ensures
            r == self.step_for(buf_len),
    {
        if self.has_chunked_body {
            if self.awaiting_first_chunk {
                BodyStep::ChunkHeader(false)
            } else if self.next_chunk_bytes_read == self.next_chunk_bytes_available {
                if self.next_chunk_bytes_available == 0 {
                    BodyStep::Done
                } else {
                    BodyStep::ChunkHeader(true)
                }
            } else {
                let left = self.next_chunk_bytes_available - self.next_chunk_bytes_read;
                BodyStep::Read(
                    if left < buf_len {
                        left
                    } else {
                        buf_len
                    },
                )
            }
        } else if self.body_bytes_read < self.body_bytes_available {
            let left = self.body_bytes_available - self.body_bytes_read;
            BodyStep::Read(
                if left < buf_len {
                    left
                } else {
                    buf_len
                },
            )
        } else {
            BodyStep::Done
        }
    }

    /// A chunk of `size` payload bytes begins; a size of 0 ends the body.
    pub fn chunk_started(&mut self, size: usize)
        requires
            old(self).wf(),
            old(self).has_chunked_body,
        ensures
            final(self).wf(),
            final(self).next_chunk_bytes_available == size,
            final(self).next_chunk_bytes_read == 0,
            !final(self).awaiting_first_chunk,
            final(self).has_chunked_body,
            final(self).body_bytes_available == old(self).body_bytes_available,
            final(self).body_bytes_read == old(self).body_bytes_read,
            final(self).session == old(self).session,
    {
        self.next_chunk_bytes_available = size;
        self.next_chunk_bytes_read = 0;
        self.awaiting_first_chunk = false;
    }

    /// `n` body bytes were received after a `Read` step.
    pub fn record_read(&mut self, n: usize)
        requires
            old(self).wf(),
            old(self).step_for(n) == BodyStep::Read(n),
        ensures
            final(self).wf(),
            old(self).has_chunked_body ==> final(self).next_chunk_bytes_read
                == old(self).next_chunk_bytes_read + n && final(self).body_bytes_read
                == old(self).body_bytes_read,
            !old(self).has_chunked_body ==> final(self).body_bytes_read
                == old(self).body_bytes_read + n && final(self).next_chunk_bytes_read
                == old(self).next_chunk_bytes_read,
            final(self).next_chunk_bytes_available == old(self).next_chunk_bytes_available,
            final(self).body_bytes_available == old(self).body_bytes_available,
            final(self).has_chunked_body == old(self).has_chunked_body,
            final(self).awaiting_first_chunk == old(self).awaiting_first_chunk,
            final(self).session == old(self).session,
    {
        if self.has_chunked_body {
            self.next_chunk_bytes_read = self.next_chunk_bytes_read + n;
        } else {
            self.body_bytes_read = self.body_bytes_read + n;
        }
    }
}

/// With a fixed length, a body read never asks for a byte past the body and
/// is over exactly when all of it was read: the bytes handed out are the
/// `content-length` bytes that follow the header block.
pub proof fn lemma_fixed_body_read_exactly<C>(resp: Response<C>, buf_len: usize)
    requires
        resp.wf(),
        !resp.has_chunked_body,
        buf_len > 0,
    ensures
        (resp.step_for(buf_len) == BodyStep::Done) == (resp.body_bytes_read
            == resp.body_bytes_available),
        resp.step_for(buf_len) matches BodyStep::Read(k) ==> 0 < k && k <= buf_len
            && resp.body_bytes_read + k <= resp.body_bytes_available,
{
}

} // verus!
