//! URLs of the form `scheme://host[:port]/path[?query][#fragment]`.
use vstd::prelude::*;
use crate::text::{
    chars_of, first_from, lemma_first_from_bounds, push_all, split_chars, split_once, string_of,
};

verus! {

/// A URL split into its parts; an absent part is the empty string.
pub struct Url {
    pub query: String,
    pub scheme: String,
    pub path: String,
    pub fragment: String,
    pub hostname: String,
    pub port: String,
}

/// The parts of a URL as character sequences.
pub struct UrlView {
    pub scheme: Seq<char>,
    pub hostname: Seq<char>,
    pub port: Seq<char>,
    pub path: Seq<char>,
    pub query: Seq<char>,
    pub fragment: Seq<char>,
}

impl View for Url {
    type V = UrlView;

    open spec fn view(&self) -> UrlView {
        UrlView {
            scheme: self.scheme@,
            hostname: self.hostname@,
            port: self.port@,
            path: self.path@,
            query: self.query@,
            fragment: self.fragment@,
        }
    }
}

/// The part of `s` after the first `pat`, and what precedes it; `s` and the
/// empty string where `pat` does not occur.
pub open spec fn split_suffix(s: Seq<char>, pat: Seq<char>) -> (Seq<char>, Seq<char>) {
    match split_once(s, pat) {
        Some(p) => p,
        None => (s, Seq::empty()),
    }
}

/// As `split_suffix`, but the empty string and `s` where `pat` does not occur.
pub open spec fn split_prefix(s: Seq<char>, pat: Seq<char>) -> (Seq<char>, Seq<char>) {
    match split_once(s, pat) {
        Some(p) => p,
        None => (Seq::empty(), s),
    }
}

pub open spec fn scheme_sep() -> Seq<char> {
    seq![':', '/', '/']
}

/// Splits `u` by successive split-offs: the fragment after `#`, the query
/// after `?`, the scheme before `://`, the path from the first `/` (which it
/// keeps), the port after `:`; what remains is the host name.
pub open spec fn parse_url(u: Seq<char>) -> UrlView {
    let (b1, fragment) = split_suffix(u, seq!['#']);
    let (b2, query) = split_suffix(b1, seq!['?']);
    let (scheme, b3) = split_prefix(b2, scheme_sep());
    let (hostport, path) = match split_once(b3, seq!['/']) {
        Some((a, b)) => (a, seq!['/'] + b),
        None => (b3, Seq::empty()),
    };
    let (hostname, port) = split_suffix(hostport, seq![':']);
    UrlView { scheme, hostname, port, path, query, fragment }
}

/// `pre + s` where `s` is not empty, else the empty string.
pub open spec fn prefixed(pre: Seq<char>, s: Seq<char>) -> Seq<char> {
    if s.len() > 0 {
        pre + s
    } else {
        Seq::empty()
    }
}

/// `hostname[:port]`.
pub open spec fn host_of(v: UrlView) -> Seq<char> {
    v.hostname + prefixed(seq![':'], v.port)
}

/// The origin-form request target `path[?query]`, with `/` for an empty path.
pub open spec fn resource_of(v: UrlView) -> Seq<char> {
    (if v.path.len() > 0 {
        v.path
    } else {
        seq!['/']
    }) + prefixed(seq!['?'], v.query)
}

/// The URL written out again from its parts.
pub open spec fn url_string(v: UrlView) -> Seq<char> {
    (if v.scheme.len() > 0 {
        v.scheme + scheme_sep()
    } else {
        Seq::empty()
    }) + host_of(v) + v.path + prefixed(seq!['?'], v.query) + prefixed(seq!['#'], v.fragment)
}

/// Appends `pre` and the characters of `s` to `out` where `s` is not empty.
fn push_prefixed(out: &mut Vec<char>, pre: char, s: &str)
    ensures
        final(out)@ == old(out)@ + prefixed(seq![pre], s@),
{
    let cs = chars_of(s);
    if cs.len() > 0 {
        out.push(pre);
        push_all(out, &cs);
        assert(final(out)@ =~= old(out)@ + prefixed(seq![pre], s@));
    } else {
        assert(old(out)@ + prefixed(seq![pre], s@) =~= old(out)@);
    }
}

impl Url {
    /// Parses `url` by successive split-offs; never fails.
    pub fn new(url: &str) -> (r: Url)
        ensures
            r@ == parse_url(url@),
    {
        let u = chars_of(url);
        let hash: Vec<char> = vec!['#'];
        let question: Vec<char> = vec!['?'];
        let sep: Vec<char> = vec![':', '/', '/'];
        let slash: Vec<char> = vec!['/'];
        let colon: Vec<char> = vec![':'];
        assert(hash@ =~= seq!['#']);
        assert(question@ =~= seq!['?']);
        assert(sep@ =~= scheme_sep());
        assert(slash@ =~= seq!['/']);
        assert(colon@ =~= seq![':']);
        let (b1, fragment) = match split_chars(&u, &hash) {
            Some(p) => p,
            None => (u, Vec::new()),
        };
        let (b2, query) = match split_chars(&b1, &question) {
            Some(p) => p,
            None => (b1, Vec::new()),
        };
        let (scheme, b3) = match split_chars(&b2, &sep) {
            Some(p) => p,
            None => (Vec::new(), b2),
        };
        let (hostport, path) = match split_chars(&b3, &slash) {
            Some((a, b)) => {
                let mut p: Vec<char> = Vec::new();
                p.push('/');
                push_all(&mut p, &b);
                (a, p)
            },
            None => (b3, Vec::new()),
        };
        let (hostname, port) = match split_chars(&hostport, &colon) {
            Some(p) => p,
            None => (hostport, Vec::new()),
        };
        let r = Url {
            query: string_of(&query),
            scheme: string_of(&scheme),
            path: string_of(&path),
            fragment: string_of(&fragment),
            hostname: string_of(&hostname),
            port: string_of(&port),
        };
        assert(r@.scheme =~= parse_url(url@).scheme);
        assert(r@.path =~= parse_url(url@).path);
        assert(r@.hostname =~= parse_url(url@).hostname);
        assert(r@.port =~= parse_url(url@).port);
        assert(r@.query =~= parse_url(url@).query);
        assert(r@.fragment =~= parse_url(url@).fragment);
        r
    }

    /// The URL written out from its parts.
    pub fn to_string(&self) -> (r: String)
        ensures
            r@ == url_string(self@),
    {
        let mut out: Vec<char> = Vec::new();
        let scheme = chars_of(self.scheme.as_str());
        if scheme.len() > 0 {
            push_all(&mut out, &scheme);
            let sep: Vec<char> = vec![':', '/', '/'];
            assert(sep@ =~= scheme_sep());
            push_all(&mut out, &sep);
        }
        push_all(&mut out, &chars_of(self.hostname.as_str()));
        push_prefixed(&mut out, ':', self.port.as_str());
        push_all(&mut out, &chars_of(self.path.as_str()));
        push_prefixed(&mut out, '?', self.query.as_str());
        push_prefixed(&mut out, '#', self.fragment.as_str());
        assert(out@ =~= url_string(self@));
        string_of(&out)
    }

    /// The authority, `hostname[:port]`.
    pub fn host(&self) -> (r: String)
        ensures
            r@ == host_of(self@),
    {
        let mut out = chars_of(self.hostname.as_str());
        push_prefixed(&mut out, ':', self.port.as_str());
        string_of(&out)
    }

    /// The request target `path[?query]`, with `/` for an empty path.
    pub fn resource(&self) -> (r: String)
        ensures
            r@ == resource_of(self@),
    {
        let mut out = chars_of(self.path.as_str());
        if out.len() == 0 {
            out.push('/');
        }
        push_prefixed(&mut out, '?', self.query.as_str());
        string_of(&out)
    }
}

/// `c` does not occur in `s`.
pub open spec fn no_char(s: Seq<char>, c: char) -> bool {
    forall|i: int| 0 <= i < s.len() ==> s[i] != c
}

/// What searching for one character finds.
pub proof fn lemma_char_search(s: Seq<char>, c: char, i: int)
    requires
        0 <= i,
    ensures
        ({
            let k = first_from(s, seq![c], i);
            &&& k >= 0 ==> i <= k < s.len() && s[k] == c && forall|j: int|
                i <= j < k ==> s[j] != c
            &&& k < 0 ==> forall|j: int| i <= j < s.len() ==> s[j] != c
        }),
    decreases s.len() - i,
{
    if i < s.len() {
        assert(s.subrange(i, i + 1) =~= seq![s[i]]);
        if s[i] != c {
            assert(s.subrange(i, i + 1)[0] != seq![c][0]);
            lemma_char_search(s, c, i + 1);
        }
    }
}

/// Splitting `a + [c] + b` at its first `c`, where `a` holds no `c`, gives
/// `a` and `b`.
pub proof fn lemma_split_char_at(a: Seq<char>, c: char, b: Seq<char>)
    requires
        no_char(a, c),
    ensures
        split_once(a + seq![c] + b, seq![c]) == Some((a, b)),
{
    let s = a + seq![c] + b;
    lemma_char_search(s, c, 0);
    let k = first_from(s, seq![c], 0);
    assert(s[a.len() as int] == c);
    if k >= 0 && k < a.len() {
        assert(s[k] == a[k]);
    }
    assert(k == a.len());
    assert(s.subrange(0, k) =~= a);
    assert(s.subrange(k + 1, s.len() as int) =~= b);
}

/// Splitting a string that holds no `c` at `c` finds nothing.
pub proof fn lemma_split_char_none(s: Seq<char>, c: char)
    requires
        no_char(s, c),
    ensures
        split_once(s, seq![c]).is_none(),
{
    lemma_char_search(s, c, 0);
}

/// A string split at its first `c` is what precedes it, which holds no `c`,
/// and what follows it.
pub proof fn lemma_split_char_found(s: Seq<char>, c: char)
    ensures
        split_once(s, seq![c]) matches Some((a, b)) ==> no_char(a, c) && s == a + seq![c] + b,
        split_once(s, seq![c]).is_none() ==> no_char(s, c),
{
    lemma_char_search(s, c, 0);
    let k = first_from(s, seq![c], 0);
    if k >= 0 {
        assert(s =~= s.subrange(0, k) + seq![c] + s.subrange(k + 1, s.len() as int));
    }
}

/// The first occurrence of a pattern depends only on the text up to its end.
pub proof fn lemma_first_from_prefix(s1: Seq<char>, s2: Seq<char>, pat: Seq<char>, i: int)
    requires
        0 <= i,
        first_from(s1, pat, i) >= 0,
        first_from(s1, pat, i) + pat.len() <= s2.len(),
        s1.subrange(0, first_from(s1, pat, i) + pat.len()) == s2.subrange(
            0,
            first_from(s1, pat, i) + pat.len(),
        ),
    ensures
        first_from(s2, pat, i) == first_from(s1, pat, i),
    decreases s1.len() + 1 - i,
{
    let k = first_from(s1, pat, i);
    lemma_first_from_bounds(s1, pat, i);
    let e = k + pat.len();
    assert(s1.subrange(i, i + pat.len()) =~= s1.subrange(0, e).subrange(i, i + pat.len()));
    assert(s2.subrange(i, i + pat.len()) =~= s2.subrange(0, e).subrange(i, i + pat.len()));
    if k > i {
        lemma_first_from_prefix(s1, s2, pat, i + 1);
    }
}

proof fn lemma_no_char_concat(a: Seq<char>, b: Seq<char>, c: char)
    requires
        no_char(a, c),
        no_char(b, c),
    ensures
        no_char(a + b, c),
{
    assert forall|i: int| 0 <= i < (a + b).len() implies (a + b)[i] != c by {
        if i < a.len() {
            assert((a + b)[i] == a[i]);
        } else {
            assert((a + b)[i] == b[i - a.len()]);
        }
    }
}

pub proof fn lemma_no_char_sub(s: Seq<char>, c: char, x: int, y: int)
    requires
        no_char(s, c),
        0 <= x <= y <= s.len(),
    ensures
        no_char(s.subrange(x, y), c),
{
    assert forall|i: int| 0 <= i < y - x implies s.subrange(x, y)[i] != c by {
        assert(s.subrange(x, y)[i] == s[x + i]);
    }
}

/// Writing out a parsed URL and parsing it again gives the same parts, where
/// the URL had a scheme, a host name, a path, a query and a fragment.
pub proof fn lemma_url_reparse(u: Seq<char>)
    requires
        parse_url(u).scheme.len() > 0,
        parse_url(u).hostname.len() > 0,
        parse_url(u).path.len() > 0,
        parse_url(u).query.len() > 0,
        parse_url(u).fragment.len() > 0,
    ensures
        parse_url(url_string(parse_url(u))) == parse_url(u),
{
    let v = parse_url(u);
    let sep = scheme_sep();
    // the parts of `u`
    lemma_split_char_found(u, '#');
    let (b1, fr) = split_suffix(u, seq!['#']);
    lemma_split_char_found(b1, '?');
    let (b2, q) = split_suffix(b1, seq!['?']);
    let m = first_from(b2, sep, 0);
    lemma_first_from_bounds(b2, sep, 0);
    let (sc, b3) = split_prefix(b2, sep);
    lemma_split_char_found(b3, '/');
    let (hp, pth) = split_suffix(b3, seq!['/']);
    lemma_split_char_found(hp, ':');
    let (hn, port) = split_suffix(hp, seq![':']);
    assert(m >= 0);
    assert(b2 =~= sc + sep + b3);
    assert(v.path =~= seq!['/'] + pth);
    // what holds no `#`, `?`, `/` or `:`
    assert(b1.subrange(0, b2.len() as int) =~= b2);
    assert(b1.subrange(b2.len() as int + 1, b1.len() as int) =~= q);
    lemma_no_char_sub(b1, '#', 0, b2.len() as int);
    lemma_no_char_sub(b1, '#', b2.len() as int + 1, b1.len() as int);
    assert(b2.subrange(0, m) =~= sc);
    assert(b2.subrange(m + 3, b2.len() as int) =~= b3);
    lemma_no_char_sub(b2, '#', 0, m);
    lemma_no_char_sub(b2, '?', 0, m);
    lemma_no_char_sub(b2, '#', m + 3, b2.len() as int);
    lemma_no_char_sub(b2, '?', m + 3, b2.len() as int);
    assert(b3.subrange(0, hp.len() as int) =~= hp);
    assert(b3.subrange(hp.len() as int + 1, b3.len() as int) =~= pth);
    lemma_no_char_sub(b3, '#', 0, hp.len() as int);
    lemma_no_char_sub(b3, '?', 0, hp.len() as int);
    lemma_no_char_sub(b3, '#', hp.len() as int + 1, b3.len() as int);
    lemma_no_char_sub(b3, '?', hp.len() as int + 1, b3.len() as int);
    match split_once(hp, seq![':']) {
        Some((x, y)) => {
            assert(hp.subrange(0, hn.len() as int) =~= hn);
            assert(hp.subrange(hn.len() as int + 1, hp.len() as int) =~= port);
            lemma_no_char_sub(hp, '#', 0, hn.len() as int);
            lemma_no_char_sub(hp, '?', 0, hn.len() as int);
            lemma_no_char_sub(hp, '/', 0, hn.len() as int);
            lemma_no_char_sub(hp, '#', hn.len() as int + 1, hp.len() as int);
            lemma_no_char_sub(hp, '?', hn.len() as int + 1, hp.len() as int);
            lemma_no_char_sub(hp, '/', hn.len() as int + 1, hp.len() as int);
        },
        None => {
            assert(hn == hp);
            assert(port.len() == 0);
        },
    }
    let h = host_of(v);
    if port.len() > 0 {
        assert(h =~= hn + seq![':'] + port);
        lemma_split_char_at(hn, ':', port);
        lemma_no_char_concat(hn, seq![':'], '#');
        lemma_no_char_concat(hn + seq![':'], port, '#');
        lemma_no_char_concat(hn, seq![':'], '?');
        lemma_no_char_concat(hn + seq![':'], port, '?');
        lemma_no_char_concat(hn, seq![':'], '/');
        lemma_no_char_concat(hn + seq![':'], port, '/');
    } else {
        assert(h =~= hn);
        lemma_split_char_none(h, ':');
    }
    assert(no_char(h, '#'));
    assert(no_char(h, '?'));
    assert(no_char(h, '/'));
    // the written form, from the inside out
    let p = v.path;
    let hpth = h + p;
    assert(hpth =~= h + seq!['/'] + pth);
    lemma_split_char_at(h, '/', pth);
    lemma_no_char_concat(seq!['/'], pth, '#');
    lemma_no_char_concat(seq!['/'], pth, '?');
    lemma_no_char_concat(h, p, '#');
    lemma_no_char_concat(h, p, '?');
    let bb = sc + sep + hpth;
    assert(bb.subrange(0, m + 3) =~= b2.subrange(0, m + 3));
    lemma_first_from_prefix(b2, bb, sep, 0);
    assert(bb.subrange(0, m) =~= sc);
    assert(bb.subrange(m + 3, bb.len() as int) =~= hpth);
    lemma_no_char_concat(sc, sep, '?');
    lemma_no_char_concat(sc + sep, hpth, '?');
    lemma_no_char_concat(sc, sep, '#');
    lemma_no_char_concat(sc + sep, hpth, '#');
    lemma_split_char_at(bb, '?', q);
    let aa = bb + seq!['?'] + q;
    lemma_no_char_concat(bb, seq!['?'], '#');
    lemma_no_char_concat(bb + seq!['?'], q, '#');
    lemma_split_char_at(aa, '#', fr);
    let r = url_string(v);
    assert(r =~= aa + seq!['#'] + fr);
    assert(split_suffix(r, seq!['#']) == (aa, fr));
    assert(split_suffix(aa, seq!['?']) == (bb, q));
    assert(split_once(bb, sep) == Some((sc, hpth)));
    assert(split_prefix(bb, sep) == (sc, hpth));
    assert(split_once(hpth, seq!['/']) == Some((h, pth)));
    assert(split_suffix(h, seq![':']) == (hn, port));
    let w = parse_url(r);
    assert(w.fragment == v.fragment);
    assert(w.query == v.query);
    assert(w.scheme == v.scheme);
    assert(w.path == v.path);
    assert(w.hostname == v.hostname);
    assert(w.port == v.port);
}

} // verus!
