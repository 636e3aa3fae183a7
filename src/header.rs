//! A header block: its first line and a case-insensitive, multi-valued map
//! from header names to values.
use vstd::prelude::*;
use vstd::utf8::{decode_utf8, encode_utf8, valid_utf8};
use crate::error::HttpError;
use crate::text::{
    chars_of, find_from, first_from, lemma_first_from_bounds, lemma_first_from_shift, lower_of,
    lowercase, push_all, split_chars, split_once, string_of, sub_chars, trim, trim_chars,
};

verus! {

/// The values of one header name, in the order they came.
pub struct HeaderEntry {
    pub key: String,
    pub values: Vec<String>,
}

/// The first line and the header lines of a request or a response.
pub struct HttpHeader {
    pub line: String,
    pub entries: Vec<HeaderEntry>,
}

/// A name and its values.
pub type EntryView = (Seq<char>, Seq<Seq<char>>);

pub struct HeaderView {
    pub line: Seq<char>,
    pub entries: Seq<EntryView>,
}

pub open spec fn strings_view(v: Seq<String>) -> Seq<Seq<char>> {
    v.map_values(|s: String| s@)
}

impl View for HeaderEntry {
    type V = EntryView;

    open spec fn view(&self) -> EntryView {
        (self.key@, strings_view(self.values@))
    }
}

pub open spec fn entries_view(v: Seq<HeaderEntry>) -> Seq<EntryView> {
    v.map_values(|e: HeaderEntry| e@)
}

impl View for HttpHeader {
    type V = HeaderView;

    open spec fn view(&self) -> HeaderView {
        HeaderView { line: self.line@, entries: entries_view(self.entries@) }
    }
}

pub open spec fn crlf() -> Seq<char> {
    seq!['\r', '\n']
}

/// How a header name is stored: lower-cased, then trimmed.
pub open spec fn norm_key(k: Seq<char>) -> Seq<char> {
    trim(lower_of(k))
}

/// The index of the entry for name `k` at or after `i`, or -1.
pub open spec fn key_index_from(es: Seq<EntryView>, k: Seq<char>, i: int) -> int
    decreases es.len() - i,
{
    if i < 0 || i >= es.len() {
        -1
    } else if es[i].0 == k {
        i
    } else {
        key_index_from(es, k, i + 1)
    }
}

pub open spec fn key_index(es: Seq<EntryView>, k: Seq<char>) -> int {
    key_index_from(es, k, 0)
}

/// `v` appended to the values of name `k`, which is added where it is new.
pub open spec fn add_value(es: Seq<EntryView>, k: Seq<char>, v: Seq<char>) -> Seq<EntryView> {
    let j = key_index(es, k);
    if j >= 0 {
        es.update(j, (k, es[j].1.push(v)))
    } else {
        es.push((k, seq![v]))
    }
}

/// The values of name `k` replaced by the single value `v`.
pub open spec fn set_value(es: Seq<EntryView>, k: Seq<char>, v: Seq<char>) -> Seq<EntryView> {
    let j = key_index(es, k);
    if j >= 0 {
        es.update(j, (k, seq![v]))
    } else {
        es.push((k, seq![v]))
    }
}

/// The first value of name `k`, if it has one.
pub open spec fn first_value(es: Seq<EntryView>, k: Seq<char>) -> Option<Seq<char>> {
    let j = key_index(es, k);
    if j >= 0 && es[j].1.len() > 0 {
        Some(es[j].1[0])
    } else {
        None
    }
}

/// Every name has at least one value.
pub open spec fn entries_wf(es: Seq<EntryView>) -> bool {
    forall|i: int| 0 <= i < es.len() ==> (#[trigger] es[i]).1.len() > 0
}

/// What one header line does to the state of a parse: whether the blank line
/// was seen, and the entries so far.
pub open spec fn parse_line(line: Seq<char>, ended: bool, es: Seq<EntryView>) -> Result<
    (bool, Seq<EntryView>),
    HttpError,
> {
    if line.len() == 0 {
        Ok((true, es))
    } else if ended {
        Err(HttpError::HeaderDataAfterEnd)
    } else {
        match split_once(line, seq![':']) {
            None => Err(HttpError::HeaderLineWithoutColon),
            Some((k, v)) => Ok((ended, add_value(es, norm_key(k), trim(v)))),
        }
    }
}

/// Parses the lines of `rest`, separated by CR LF, after the first line.
pub open spec fn parse_lines(rest: Seq<char>, ended: bool, es: Seq<EntryView>) -> Result<
    Seq<EntryView>,
    HttpError,
>
    decreases rest.len(),
{
    let k = first_from(rest, crlf(), 0);
    let line = if k < 0 {
        rest
    } else {
        rest.subrange(0, k)
    };
    match parse_line(line, ended, es) {
        Err(e) => Err(e),
        Ok((ended2, es2)) => if k < 0 || k + 2 > rest.len() {
            Ok(es2)
        } else {
            parse_lines(rest.subrange(k + 2, rest.len() as int), ended2, es2)
        },
    }
}

/// A header block as text: the first line up to the first CR LF, then the
/// header lines.
pub open spec fn parse_header(s: Seq<char>) -> Result<HeaderView, HttpError> {
    let k = first_from(s, crlf(), 0);
    if k < 0 {
        Ok(HeaderView { line: s, entries: Seq::empty() })
    } else {
        match parse_lines(s.subrange(k + 2, s.len() as int), false, Seq::empty()) {
            Ok(es) => Ok(HeaderView { line: s.subrange(0, k), entries: es }),
            Err(e) => Err(e),
        }
    }
}

/// A header block as bytes: UTF-8 text, parsed by `parse_header`.
pub open spec fn parse_header_bytes(b: Seq<u8>) -> Result<HeaderView, HttpError> {
    if valid_utf8(b) {
        parse_header(decode_utf8(b))
    } else {
        Err(HttpError::HeaderNotUtf8)
    }
}

/// The lines `k: v` for each value `v`, each ended by CR LF.
pub open spec fn values_text(k: Seq<char>, vs: Seq<Seq<char>>) -> Seq<char>
    decreases vs.len(),
{
    if vs.len() == 0 {
        Seq::empty()
    } else {
        values_text(k, vs.drop_last()) + k + seq![':', ' '] + vs.last() + crlf()
    }
}

/// The header lines of all entries, in order.
pub open spec fn entries_text(es: Seq<EntryView>) -> Seq<char>
    decreases es.len(),
{
    if es.len() == 0 {
        Seq::empty()
    } else {
        entries_text(es.drop_last()) + values_text(es.last().0, es.last().1)
    }
}

/// The header block as text: first line, header lines, blank line.
pub open spec fn header_text(h: HeaderView) -> Seq<char> {
    h.line + crlf() + entries_text(h.entries) + crlf()
}

/// A found index holds the name looked for.
pub proof fn lemma_key_index_found(es: Seq<EntryView>, k: Seq<char>, i: int)
    ensures
        key_index_from(es, k, i) >= 0 ==> key_index_from(es, k, i) < es.len() && es[key_index_from(
            es,
            k,
            i,
        )].0 == k && key_index_from(es, k, i) >= i,
    decreases es.len() - i,
{
    if i < 0 || i >= es.len() {
    } else if es[i].0 == k {
    } else {
        lemma_key_index_found(es, k, i + 1);
    }
}

/// The stored form of the name `key`.
fn stored_name(key: &str) -> (r: String)
    ensures
        r@ == norm_key(key@),
{
    string_of(&trim_chars(&chars_of(lowercase(key).as_str())))
}

impl HttpHeader {
    pub open spec fn wf(&self) -> bool {
        entries_wf(self@.entries)
    }

    /// An empty first line and no headers.
    pub fn new() -> (r: HttpHeader)
        ensures
            r@.line.len() == 0,
            r@.entries.len() == 0,
            r.wf(),
    {
        let r = HttpHeader { line: String::new(), entries: Vec::new() };
        assert(r@.entries =~= Seq::<EntryView>::empty());
        r
    }

    /// The index of the entry for the stored name `k`.
    fn index_of(&self, k: &String) -> (r: Option<usize>)
        ensures
            match r {
                Some(j) => key_index(self@.entries, k@) == j as int && j < self.entries@.len(),
                None => key_index(self@.entries, k@) == -1,
            },
    {
        let mut i: usize = 0;
        while i < self.entries.len()
            invariant
                i <= self.entries@.len(),
                key_index(self@.entries, k@) == key_index_from(self@.entries, k@, i as int),
            decreases self.entries@.len() - i,
        {
            if self.entries[i].key == *k {
                return Some(i);
            }
            i = i + 1;
        }
        None
    }

    /// Appends `v` to the values of the stored name `k`.
    fn add_stored(&mut self, k: String, v: String)
        requires
            old(self).wf(),
        ensures
            final(self).wf(),
            final(self)@.line == old(self)@.line,
            final(self)@.entries == add_value(old(self)@.entries, k@, v@),
    {
        let ghost es = self@.entries;
        let ghost kv = k@;
        let ghost vv = v@;
        match self.index_of(&k) {
            Some(j) => {
                let mut e = self.entries.remove(j);
                let ghost before = e@;
                e.values.push(v);
                assert(strings_view(e.values@) =~= before.1.push(vv));
                self.entries.insert(j, e);
                assert(es[j as int].0 == kv) by {
                    lemma_key_index_found(es, kv, 0);
                }
                assert(self@.entries =~= add_value(es, kv, vv));
            },
            None => {
                let mut values: Vec<String> = Vec::new();
                values.push(v);
                let e = HeaderEntry { key: k, values };
                assert(strings_view(e.values@) =~= seq![vv]);
                self.entries.push(e);
                assert(self@.entries =~= add_value(es, kv, vv));
            },
        }
    }

    /// Replaces the values of the stored name `k` with `v`.
    fn set_stored(&mut self, k: String, v: String)
        requires
            old(self).wf(),
        ensures
            final(self).wf(),
            final(self)@.line == old(self)@.line,
            final(self)@.entries == set_value(old(self)@.entries, k@, v@),
    {
        let ghost es = self@.entries;
        let ghost kv = k@;
        let ghost vv = v@;
        let mut values: Vec<String> = Vec::new();
        values.push(v);
        let e = HeaderEntry { key: k, values };
        assert(strings_view(e.values@) =~= seq![vv]);
        match self.index_of(&e.key) {
            Some(j) => {
                self.entries.set(j, e);
                assert(self@.entries =~= set_value(es, kv, vv));
            },
            None => {
                self.entries.push(e);
                assert(self@.entries =~= set_value(es, kv, vv));
            },
        }
    }

    /// Adds a value for `key`; the name is lower-cased and trimmed, the value
    /// trimmed.
    pub fn add_header(&mut self, key: String, value: String)
        requires
            old(self).wf(),
        ensures
            final(self).wf(),
            final(self)@.line == old(self)@.line,
            final(self)@.entries == add_value(old(self)@.entries, norm_key(key@), trim(value@)),
    {
        let k = stored_name(key.as_str());
        let v = string_of(&trim_chars(&chars_of(value.as_str())));
        self.add_stored(k, v);
    }

    /// Makes `value` (trimmed) the only value of `key` (lower-cased, trimmed).
    pub fn set_header(&mut self, key: String, value: String)
        requires
            old(self).wf(),
        ensures
            final(self).wf(),
            final(self)@.line == old(self)@.line,
            final(self)@.entries == set_value(old(self)@.entries, norm_key(key@), trim(value@)),
    {
        let k = stored_name(key.as_str());
        let v = string_of(&trim_chars(&chars_of(value.as_str())));
        self.set_stored(k, v);
    }

    /// As `set_header`, but only where `key` has no value yet.
    pub fn set_header_if_empty(&mut self, key: String, value: String)
        requires
            old(self).wf(),
        ensures
            final(self).wf(),
            final(self)@.line == old(self)@.line,
            final(self)@.entries == if key_index(old(self)@.entries, norm_key(key@)) >= 0 {
                old(self)@.entries
            } else {
                set_value(old(self)@.entries, norm_key(key@), trim(value@))
            },
    {
        let k = stored_name(key.as_str());
        if self.index_of(&k).is_none() {
            let v = string_of(&trim_chars(&chars_of(value.as_str())));
            self.set_stored(k, v);
        }
    }

    /// The first value received for `key`, looked up lower-cased (not
    /// trimmed).
    pub fn get_value(&self, key: String) -> (r: Option<String>)
        requires
            self.wf(),
        ensures
            match r {
                Some(v) => first_value(self@.entries, lower_of(key@)) == Some(v@),
                None => first_value(self@.entries, lower_of(key@)).is_none(),
            },
    {
        let k = lowercase(key.as_str());
        match self.index_of(&k) {
            Some(j) => {
                assert(self@.entries[j as int].1.len() > 0);
                assert(self.entries@[j as int].values@.len() > 0);
                Some(self.entries[j].values[0].clone())
            },
            None => None,
        }
    }

    /// Parses a header block: UTF-8 text whose lines are separated by CR LF;
    /// the first line is kept as it is, each further line up to a blank one
    /// is `name: value`.
    pub fn from_bytes(b: &[u8]) -> (r: Result<HttpHeader, HttpError>)
        ensures
            match r {
                Ok(h) => h.wf() && parse_header_bytes(b@) == Ok::<HeaderView, HttpError>(h@),
                Err(e) => parse_header_bytes(b@) == Err::<HeaderView, HttpError>(e),
            },
    {
        let s = match crate::text::utf8_string(b) {
            Some(s) => s,
            None => {
                return Err(HttpError::HeaderNotUtf8);
            },
        };
        let u = chars_of(s.as_str());
        let n = u.len();
        let sep: Vec<char> = vec!['\r', '\n'];
        assert(sep@ =~= crlf());
        let mut h = HttpHeader::new();
        let k0 = match find_from(&u, &sep, 0) {
            Some(k) => k,
            None => {
                h.line = string_of(&u);
                assert(h@.entries =~= Seq::<EntryView>::empty());
                return Ok(h);
            },
        };
        proof {
            lemma_first_from_bounds(u@, crlf(), 0);
        }
        h.line = string_of(&sub_chars(&u, 0, k0));
        let ghost start = u@.subrange(k0 + 2, n as int);
        let mut p: usize = k0 + 2;
        let mut ended = false;
        assert(h@.entries =~= Seq::<EntryView>::empty());
        loop
            invariant
                k0 + 2 <= p <= n == u@.len(),
                sep@ == crlf(),
                h.wf(),
                h@.line == u@.subrange(0, k0 as int),
                first_from(u@, crlf(), 0) == k0,
                parse_lines(start, false, Seq::empty()) == parse_lines(
                    u@.subrange(p as int, n as int),
                    ended,
                    h@.entries,
                ),
                start == u@.subrange(k0 + 2, n as int),
                s@ == decode_utf8(b@),
                u@ == s@,
                valid_utf8(b@),
            decreases n - p,
        {
            let ghost rest = u@.subrange(p as int, n as int);
            let ghost kr = first_from(rest, crlf(), 0);
            let ghost es0 = h@.entries;
            let ghost ended0 = ended;
            proof {
                lemma_first_from_shift(u@, crlf(), p as int, 0);
                lemma_first_from_bounds(rest, crlf(), 0);
                lemma_first_from_bounds(u@, crlf(), p as int);
            }
            let found = find_from(&u, &sep, p);
            let line_end: usize = match found {
                Some(k) => k,
                None => n,
            };
            assert(p <= line_end <= n);
            assert(kr >= 0 ==> line_end == p + kr);
            assert(kr < 0 ==> found.is_none());
            let line = sub_chars(&u, p, line_end);
            let ghost lv = if kr < 0 {
                rest
            } else {
                rest.subrange(0, kr)
            };
            assert(line@ =~= lv);
            if line.len() == 0 {
                ended = true;
            } else if ended {
                assert(parse_line(lv, ended0, es0) is Err);
                return Err(HttpError::HeaderDataAfterEnd);
            } else {
                let colon: Vec<char> = vec![':'];
                assert(colon@ =~= seq![':']);
                match split_chars(&line, &colon) {
                    None => {
                        assert(parse_line(lv, ended0, es0) is Err);
                        return Err(HttpError::HeaderLineWithoutColon);
                    },
                    Some((kc, vc)) => {
                        let key = stored_name(string_of(&kc).as_str());
                        let value = string_of(&trim_chars(&vc));
                        h.add_stored(key, value);
                    },
                }
            }
            assert(parse_line(lv, ended0, es0) == Ok::<(bool, Seq<EntryView>), HttpError>(
                (ended, h@.entries),
            ));
            match found {
                None => {
                    return Ok(h);
                },
                Some(k) => {
                    assert(k + 2 <= n);
                    assert(rest.subrange(kr + 2, rest.len() as int) =~= u@.subrange(
                        k + 2,
                        n as int,
                    ));
                    p = k + 2;
                },
            }
        }
    }

    /// The header block as bytes: the first line, one `name: value` line per
    /// value, and a blank line, each ended by CR LF.
    pub fn to_vec(&self) -> (r: Vec<u8>)
        ensures
            r@ == encode_utf8(header_text(self@)),
    {
        let mut out = chars_of(self.line.as_str());
        out.push('\r');
        out.push('\n');
        let ghost base = out@;
        let mut i: usize = 0;
        while i < self.entries.len()
            invariant
                i <= self.entries@.len(),
                base == self@.line + crlf(),
                out@ == base + entries_text(self@.entries.subrange(0, i as int)),
            decreases self.entries@.len() - i,
        {
            let e = &self.entries[i];
            let key = chars_of(e.key.as_str());
            let ghost before = out@;
            let mut j: usize = 0;
            while j < e.values.len()
                invariant
                    j <= e.values@.len(),
                    key@ == e.key@,
                    out@ == before + values_text(e.key@, strings_view(e.values@).subrange(
                        0,
                        j as int,
                    )),
                decreases e.values@.len() - j,
            {
                push_all(&mut out, &key);
                out.push(':');
                out.push(' ');
                push_all(&mut out, &chars_of(e.values[j].as_str()));
                out.push('\r');
                out.push('\n');
                assert(strings_view(e.values@).subrange(0, j + 1).drop_last() =~= strings_view(
                    e.values@,
                ).subrange(0, j as int));
                j = j + 1;
                assert(out@ =~= before + values_text(e.key@, strings_view(e.values@).subrange(
                    0,
                    j as int,
                )));
            }
            assert(strings_view(e.values@).subrange(0, j as int) =~= strings_view(e.values@));
            assert(self@.entries.subrange(0, i + 1).drop_last() =~= self@.entries.subrange(
                0,
                i as int,
            ));
            i = i + 1;
            assert(out@ =~= base + entries_text(self@.entries.subrange(0, i as int)));
        }
        assert(self@.entries.subrange(0, i as int) =~= self@.entries);
        out.push('\r');
        out.push('\n');
        assert(out@ =~= header_text(self@));
        let text = string_of(&out);
        vstd::slice::slice_to_vec(text.as_str().as_bytes())
    }

    /// Whether every name has a value, as the methods that take `&self`
    /// require.
    pub fn is_well_formed(&self) -> (r: bool)
        ensures
            r == self.wf(),
    {
        let mut i: usize = 0;
        while i < self.entries.len()
            invariant
                i <= self.entries@.len(),
                forall|k: int| 0 <= k < i ==> (#[trigger] self@.entries[k]).1.len() > 0,
            decreases self.entries@.len() - i,
        {
            if self.entries[i].values.len() == 0 {
                assert(self@.entries[i as int].1.len() == 0);
                return false;
            }
            i = i + 1;
        }
        true
    }

    /// A copy of this header block.
    pub fn duplicate(&self) -> (r: HttpHeader)
        ensures
            r@ == self@,
    {
        let mut entries: Vec<HeaderEntry> = Vec::new();
        let mut i: usize = 0;
        while i < self.entries.len()
            invariant
                i <= self.entries@.len(),
                entries_view(entries@) == self@.entries.subrange(0, i as int),
            decreases self.entries@.len() - i,
        {
            let e = &self.entries[i];
            let mut values: Vec<String> = Vec::new();
            let mut j: usize = 0;
            while j < e.values.len()
                invariant
                    j <= e.values@.len(),
                    strings_view(values@) == strings_view(e.values@).subrange(0, j as int),
                decreases e.values@.len() - j,
            {
                let c = e.values[j].clone();
                assert(c@ == e.values@[j as int]@);
                let ghost prev = values@;
                values.push(c);
                assert(strings_view(values@) =~= strings_view(prev).push(c@));
                assert(strings_view(e.values@).subrange(0, j + 1) =~= strings_view(
                    e.values@,
                ).subrange(0, j as int).push(c@));
                j = j + 1;
                assert(strings_view(values@) =~= strings_view(e.values@).subrange(0, j as int));
            }
            assert(strings_view(e.values@).subrange(0, j as int) =~= strings_view(e.values@));
            let k = e.key.clone();
            assert(k@ == e.key@);
            let copy = HeaderEntry { key: k, values };
            assert(copy@ == self@.entries[i as int]);
            let ghost prev_entries = entries@;
            entries.push(copy);
            assert(entries_view(entries@) =~= entries_view(prev_entries).push(copy@));
            assert(self@.entries.subrange(0, i + 1) =~= self@.entries.subrange(0, i as int).push(
                copy@,
            ));
            i = i + 1;
            assert(entries_view(entries@) =~= self@.entries.subrange(0, i as int));
        }
        assert(self@.entries.subrange(0, i as int) =~= self@.entries);
        HttpHeader { line: self.line.clone(), entries }
    }

    /// Sets the first line to a request line for `method` and `url`.
    pub fn set_req_line(&mut self, method: &crate::request::Method, url: &crate::url::Url)
        ensures
            final(self)@.line == crate::request::request_line(*method, url@),
            final(self)@.entries == old(self)@.entries,
    {
        self.line = crate::request::request_line_string(method, url);
    }

    /// Sets the first line to the status line of `status`.
    pub fn set_status_line(&mut self, status: &crate::response::HttpStatus)
        ensures
            final(self)@.line == crate::response::status_text(status@),
            final(self)@.entries == old(self)@.entries,
    {
        self.line = status.to_string();
    }
}

/// Changing the values of entries, and no name, leaves every name's index.
pub proof fn lemma_key_index_same_keys(a: Seq<EntryView>, b: Seq<EntryView>, k: Seq<char>, i: int)
    requires
        a.len() == b.len(),
        forall|n: int| 0 <= n < a.len() ==> a[n].0 == b[n].0,
    ensures
        key_index_from(a, k, i) == key_index_from(b, k, i),
    decreases a.len() - i,
{
    if 0 <= i < a.len() {
        lemma_key_index_same_keys(a, b, k, i + 1);
    }
}

/// Where no entry before the end has name `k`, an entry appended with it is
/// the one found.
pub proof fn lemma_key_index_pushed(es: Seq<EntryView>, e: EntryView, k: Seq<char>, i: int)
    requires
        0 <= i <= es.len(),
        key_index_from(es, k, i) < 0,
        e.0 == k,
    ensures
        key_index_from(es.push(e), k, i) == es.len(),
    decreases es.len() - i,
{
    if i < es.len() {
        lemma_key_index_pushed(es, e, k, i + 1);
    }
}

/// Lookups ignore case: two names with the same lower case find the same
/// value.
pub proof fn lemma_lookup_ignores_case(h: HeaderView, k1: Seq<char>, k2: Seq<char>)
    requires
        lower_of(k1) == lower_of(k2),
    ensures
        first_value(h.entries, lower_of(k1)) == first_value(h.entries, lower_of(k2)),
{
}

/// A lookup finds the first value ever added for the name: adding a value
/// under `key` leaves the value found for any `q` whose lower case is the
/// stored name, unless the name was new, in which case the added value is
/// found.
pub proof fn lemma_lookup_finds_first_added(
    es: Seq<EntryView>,
    key: Seq<char>,
    value: Seq<char>,
    q: Seq<char>,
)
    requires
        entries_wf(es),
        lower_of(q) == norm_key(key),
    ensures
        first_value(add_value(es, norm_key(key), trim(value)), lower_of(q)) == if key_index(
            es,
            norm_key(key),
        ) >= 0 {
            first_value(es, lower_of(q))
        } else {
            Some(trim(value))
        },
{
    let k = norm_key(key);
    let v = trim(value);
    let after = add_value(es, k, v);
    lemma_key_index_found(es, k, 0);
    let j = key_index(es, k);
    if j >= 0 {
        lemma_key_index_same_keys(after, es, k, 0);
        assert(es[j].1.len() > 0);
        assert(es[j].1.push(v)[0] == es[j].1[0]);
    } else {
        lemma_key_index_pushed(es, (k, seq![v]), k, 0);
    }
}

} // verus!
