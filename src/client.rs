//! The client: the pool of idle sessions it owns, and the header block that
//! it sends for a request.
use vstd::prelude::*;
use crate::header::{key_index, norm_key, set_value, EntryView, HttpHeader};
use crate::pool::SessionPool;
use crate::request::Request;
use crate::text::{decimal, push_decimal, string_of, trim};
use crate::url::host_of;

verus! {

/// The most bytes that a response's header block may take.
pub const MAX_HEADER_SIZE: usize = 32768;

/// The most bytes that a chunk-size line may take.
pub const CHUNK_HEADER_MAX: usize = 100;

/// The size of the buffer that bodies are sent and received through.
pub const SEND_CHUNK: usize = 4096;

/// Milliseconds between two runs of the eviction task.
pub const EVICTION_TICK_MS: u64 = 5000;

pub open spec fn content_length_name() -> Seq<char> {
    seq!['c', 'o', 'n', 't', 'e', 'n', 't', '-', 'l', 'e', 'n', 'g', 't', 'h']
}

pub open spec fn host_name() -> Seq<char> {
    seq!['h', 'o', 's', 't']
}

pub open spec fn content_type_name() -> Seq<char> {
    seq!['c', 'o', 'n', 't', 'e', 'n', 't', '-', 't', 'y', 'p', 'e']
}

pub open spec fn octet_stream() -> Seq<char> {
    seq![
        'a', 'p', 'p', 'l', 'i', 'c', 'a', 't', 'i', 'o', 'n', '/', 'o', 'c', 't', 'e', 't', '-',
        's', 't', 'r', 'e', 'a', 'm'
    ]
}

/// The headers sent with a request whose body has `body_size` bytes: the
/// request's own, with `content-length` and `host` set, and with a
/// `content-type` of `application/octet-stream` where there is a body and the
/// request has none.
pub open spec fn sent_entries(es: Seq<EntryView>, host: Seq<char>, body_size: usize) -> Seq<
    EntryView,
> {
    let es1 = set_value(es, norm_key(content_length_name()), trim(decimal(body_size as nat)));
    let es2 = set_value(es1, norm_key(host_name()), trim(host));
    if body_size > 0 && key_index(es2, norm_key(content_type_name())) < 0 {
        set_value(es2, norm_key(content_type_name()), trim(octet_stream()))
    } else {
        es2
    }
}

/// A client and the idle sessions it keeps; `C` is the connection type.
pub struct HttpClient<C> {
    pub pool: SessionPool<C>,
}

impl<C> HttpClient<C> {
    /// A client with an empty pool.
    pub fn new() -> (r: HttpClient<C>)
        ensures
            r.pool.wf(),
            r.pool.queues().len() == 0,
            !r.pool.evicting,
    {
        HttpClient { pool: SessionPool::new() }
    }

    /// The header block to send for `req` with a body of `body_size` bytes.
    pub fn request_header(&self, req: &Request, body_size: usize) -> (r: HttpHeader)
        requires
            req.header.wf(),
        ensures
            r.wf(),
            r@.line == req.header@.line,
            r@.entries == sent_entries(req.header@.entries, host_of(req.url@), body_size),
    {
        proof {
            reveal_strlit("content-length");
            reveal_strlit("host");
            reveal_strlit("content-type");
            reveal_strlit("application/octet-stream");
        }
        let mut h = req.header.duplicate();
        let mut size: Vec<char> = Vec::new();
        push_decimal(body_size, &mut size);
        assert(size@ =~= decimal(body_size as nat));
        let cl = "content-length".to_owned();
        assert(cl@ =~= content_length_name());
        h.set_header(cl, string_of(&size));
        let host = "host".to_owned();
        assert(host@ =~= host_name());
        h.set_header(host, req.url.host());
        if body_size > 0 {
            let ct = "content-type".to_owned();
            assert(ct@ =~= content_type_name());
            let os = "application/octet-stream".to_owned();
            assert(os@ =~= octet_stream());
            h.set_header_if_empty(ct, os);
        }
        h
    }
}

} // verus!
