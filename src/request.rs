//! Request methods and requests.
use vstd::prelude::*;
use crate::header::HttpHeader;
use crate::text::{chars_of, push_all, string_of};
use crate::url::{resource_of, Url, UrlView};

verus! {

/// The request methods.
#[derive(Debug, Clone, Copy, PartialEq, Eq, Structural)]
pub enum Method {
    Get,
    Post,
    Put,
    Head,
    Patch,
    Delete,
}

/// The upper-case name of a method on the wire.
pub open spec fn method_name(m: Method) -> Seq<char> {
    match m {
        Method::Get => seq!['G', 'E', 'T'],
        Method::Post => seq!['P', 'O', 'S', 'T'],
        Method::Put => seq!['P', 'U', 'T'],
        Method::Head => seq!['H', 'E', 'A', 'D'],
        Method::Patch => seq!['P', 'A', 'T', 'C', 'H'],
        Method::Delete => seq!['D', 'E', 'L', 'E', 'T', 'E'],
    }
}

/// `<METHOD> <resource> HTTP/1.1`.
pub open spec fn request_line(m: Method, u: UrlView) -> Seq<char> {
    method_name(m) + seq![' '] + resource_of(u) + seq![' ', 'H', 'T', 'T', 'P', '/', '1', '.', '1']
}

impl Method {
    pub fn as_str(&self) -> (r: &'static str)
        ensures
            r@ == method_name(*self),
    {
        match self {
            Method::Get => {
                proof {
                    reveal_strlit("GET");
                }
                "GET"
            },
            Method::Post => {
                proof {
                    reveal_strlit("POST");
                }
                "POST"
            },
            Method::Patch => {
                proof {
                    reveal_strlit("PATCH");
                }
                "PATCH"
            },
            Method::Put => {
                proof {
                    reveal_strlit("PUT");
                }
                "PUT"
            },
            Method::Head => {
                proof {
                    reveal_strlit("HEAD");
                }
                "HEAD"
            },
            Method::Delete => {
                proof {
                    reveal_strlit("DELETE");
                }
                "DELETE"
            },
        }
    }
}

/// The request line for `method` and `url`.
pub fn request_line_string(method: &Method, url: &Url) -> (r: String)
    ensures
        r@ == request_line(*method, url@),
{
    let mut out = chars_of(method.as_str());
    out.push(' ');
    push_all(&mut out, &chars_of(url.resource().as_str()));
    let proto: Vec<char> = vec![' ', 'H', 'T', 'T', 'P', '/', '1', '.', '1'];
    assert(proto@ =~= seq![' ', 'H', 'T', 'T', 'P', '/', '1', '.', '1']);
    push_all(&mut out, &proto);
    assert(out@ =~= request_line(*method, url@));
    string_of(&out)
}

/// A method, a URL and the header block that goes with them.
pub struct Request {
    pub method: Method,
    pub header: HttpHeader,
    pub url: Url,
}

impl Request {
    /// A request whose header block holds the request line and no headers.
    pub fn new(method: Method, url: Url) -> (r: Request)
        ensures
            r.method == method,
            r.url@ == url@,
            r.header.wf(),
            r.header@.line == request_line(method, url@),
            r.header@.entries.len() == 0,
    {
        let mut header = HttpHeader::new();
        header.set_req_line(&method, &url);
        Request { method, header, url }
    }
}

} // verus!
