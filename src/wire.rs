//! The written form of a header block parses back to the block it came from.
use vstd::prelude::*;
use vstd::utf8::{decode_utf8, encode_utf8, encode_utf8_decode_utf8, encode_utf8_valid_utf8};
use crate::header::{
    add_value, crlf, entries_text, entries_wf, header_text, key_index, key_index_from,
    lemma_key_index_found, lemma_key_index_pushed, norm_key, parse_header, parse_header_bytes,
    parse_line, parse_lines, values_text, EntryView, HeaderView,
};
use crate::text::{
    first_from, is_ws, lemma_first_from_bounds, split_once, trim, trim_end, trim_start,
};
use crate::url::{lemma_no_char_sub, lemma_split_char_at, lemma_split_char_found, no_char};

verus! {

/// No CR is directly followed by LF in `s`.
pub open spec fn no_crlf(s: Seq<char>) -> bool {
    forall|j: int| 0 <= j && j + 1 < s.len() ==> !(s[j] == '\r' && #[trigger] s[j + 1] == '\n')
}

/// A header name that is its own stored form and holds no `:` or CR LF.
pub open spec fn good_key(k: Seq<char>) -> bool {
    no_char(k, ':') && no_crlf(k) && norm_key(k) == k
}

/// A stored header value: trimmed, without CR LF.
pub open spec fn good_value(v: Seq<char>) -> bool {
    no_crlf(v) && trim(v) == v
}

/// Entries as parsing leaves them: distinct names, each with at least one
/// value, every value trimmed and without CR LF.
pub open spec fn parsed_entries(es: Seq<EntryView>) -> bool {
    &&& entries_wf(es)
    &&& forall|i: int, j: int|
        0 <= i < es.len() && 0 <= j < es[i].1.len() ==> good_value(#[trigger] es[i].1[j])
    &&& forall|i: int, j: int| 0 <= i < j < es.len() ==> es[i].0 != es[j].0
}

/// Parsed entries whose names are all good names.
pub open spec fn good_entries(es: Seq<EntryView>) -> bool {
    &&& parsed_entries(es)
    &&& forall|i: int| 0 <= i < es.len() ==> good_key(#[trigger] es[i].0)
}

pub open spec fn line_of(k: Seq<char>, v: Seq<char>) -> Seq<char> {
    k + seq![':', ' '] + v
}

/// `v` added under `k` for each of the values, in order.
pub open spec fn fold_values(acc: Seq<EntryView>, k: Seq<char>, vs: Seq<Seq<char>>) -> Seq<
    EntryView,
>
    decreases vs.len(),
{
    if vs.len() == 0 {
        acc
    } else {
        add_value(fold_values(acc, k, vs.drop_last()), k, vs.last())
    }
}

/// The values of each entry added in order.
pub open spec fn fold_entries(acc: Seq<EntryView>, es: Seq<EntryView>) -> Seq<EntryView>
    decreases es.len(),
{
    if es.len() == 0 {
        acc
    } else {
        fold_values(fold_entries(acc, es.drop_last()), es.last().0, es.last().1)
    }
}

proof fn lemma_trim_start_shape(s: Seq<char>)
    ensures
        trim_start(s).len() <= s.len(),
        trim_start(s) == s.subrange(s.len() - trim_start(s).len(), s.len() as int),
        trim_start(s).len() > 0 ==> !is_ws(trim_start(s)[0]),
    decreases s.len(),
{
    if s.len() > 0 && is_ws(s[0]) {
        lemma_trim_start_shape(s.drop_first());
        assert(s.drop_first().subrange(
            s.drop_first().len() - trim_start(s).len(),
            s.drop_first().len() as int,
        ) =~= s.subrange(s.len() - trim_start(s).len(), s.len() as int));
    } else {
        assert(s.subrange(0, s.len() as int) =~= s);
    }
}

proof fn lemma_trim_end_shape(s: Seq<char>)
    ensures
        trim_end(s).len() <= s.len(),
        trim_end(s) == s.subrange(0, trim_end(s).len() as int),
        trim_end(s).len() > 0 ==> !is_ws(trim_end(s).last()),
    decreases s.len(),
{
    if s.len() > 0 && is_ws(s.last()) {
        lemma_trim_end_shape(s.drop_last());
        assert(s.drop_last().subrange(0, trim_end(s).len() as int) =~= s.subrange(
            0,
            trim_end(s).len() as int,
        ));
    } else {
        assert(s.subrange(0, s.len() as int) =~= s);
    }
}

/// Trimming twice is trimming once; the result is a piece of the input.
pub proof fn lemma_trim_idem(s: Seq<char>)
    ensures
        trim(trim(s)) == trim(s),
        exists|a: int, b: int| 0 <= a <= b <= s.len() && trim(s) == s.subrange(a, b),
{
    let t0 = trim_start(s);
    lemma_trim_start_shape(s);
    lemma_trim_end_shape(t0);
    let t = trim(s);
    let a = s.len() - t0.len();
    assert(t == s.subrange(a, a + t.len()));
    if t.len() > 0 {
        assert(t[0] == t0[0]);
        assert(trim_start(t) == t);
        assert(trim_end(t) == t);
    } else {
        assert(trim_start(t) == t);
    }
}

/// A space before a trimmed string is trimmed away.
pub proof fn lemma_trim_space(v: Seq<char>)
    requires
        trim(v) == v,
    ensures
        trim(seq![' '] + v) == v,
{
    let s = seq![' '] + v;
    assert(is_ws(' '));
    assert(s.drop_first() =~= v);
    assert(trim_start(s) == trim_start(v));
}

/// What searching for CR LF finds.
pub proof fn lemma_crlf_search(s: Seq<char>, i: int)
    requires
        0 <= i,
    ensures
        ({
            let k = first_from(s, crlf(), i);
            &&& k >= 0 ==> i <= k && k + 1 < s.len() && s[k] == '\r' && s[k + 1] == '\n'
                && forall|j: int| i <= j < k ==> !(s[j] == '\r' && #[trigger] s[j + 1] == '\n')
            &&& k < 0 ==> forall|j: int|
                i <= j && j + 1 < s.len() ==> !(s[j] == '\r' && #[trigger] s[j + 1] == '\n')
        }),
    decreases s.len() - i,
{
    if i + 2 <= s.len() {
        assert(s.subrange(i, i + 2) =~= seq![s[i], s[i + 1]]);
        if !(s[i] == '\r' && s[i + 1] == '\n') {
            assert(s.subrange(i, i + 2)[0] != crlf()[0] || s.subrange(i, i + 2)[1] != crlf()[1]);
            lemma_crlf_search(s, i + 1);
        }
    }
}

/// In `line + CR LF + rest`, where `line` holds no CR LF, the first CR LF
/// ends the line.
pub proof fn lemma_first_crlf(line: Seq<char>, rest: Seq<char>)
    requires
        no_crlf(line),
    ensures
        first_from(line + crlf() + rest, crlf(), 0) == line.len(),
{
    let s = line + crlf() + rest;
    lemma_crlf_search(s, 0);
    let k = first_from(s, crlf(), 0);
    assert(s[line.len() as int] == '\r');
    assert(s[line.len() as int + 1] == '\n');
    if k >= 0 && k < line.len() {
        if k + 1 < line.len() {
            assert(s[k] == line[k] && s[k + 1] == line[k + 1]);
        } else {
            assert(s[k + 1] == '\r');
        }
    }
}

/// The text before the first CR LF holds none.
pub proof fn lemma_before_crlf(s: Seq<char>)
    ensures
        first_from(s, crlf(), 0) >= 0 ==> no_crlf(s.subrange(0, first_from(s, crlf(), 0))),
        first_from(s, crlf(), 0) < 0 ==> no_crlf(s),
{
    lemma_crlf_search(s, 0);
    let k = first_from(s, crlf(), 0);
    if k >= 0 {
        let t = s.subrange(0, k);
        assert forall|j: int| 0 <= j && j + 1 < t.len() implies !(t[j] == '\r' && #[trigger] t[j
            + 1] == '\n') by {
            assert(t[j] == s[j] && t[j + 1] == s[j + 1]);
        }
    }
}

proof fn lemma_no_crlf_sub(s: Seq<char>, a: int, b: int)
    requires
        no_crlf(s),
        0 <= a <= b <= s.len(),
    ensures
        no_crlf(s.subrange(a, b)),
{
    let t = s.subrange(a, b);
    assert forall|j: int| 0 <= j && j + 1 < t.len() implies !(t[j] == '\r' && #[trigger] t[j + 1]
        == '\n') by {
        assert(t[j] == s[a + j] && t[j + 1] == s[a + j + 1]);
    }
}

proof fn lemma_line_no_crlf(k: Seq<char>, v: Seq<char>)
    requires
        no_crlf(k),
        no_crlf(v),
    ensures
        no_crlf(line_of(k, v)),
{
    let s = line_of(k, v);
    assert forall|j: int| 0 <= j && j + 1 < s.len() implies !(s[j] == '\r' && #[trigger] s[j + 1]
        == '\n') by {
        if j + 1 < k.len() {
            assert(s[j] == k[j] && s[j + 1] == k[j + 1]);
        } else if j + 1 == k.len() {
            assert(s[j + 1] == ':');
        } else if j == k.len() {
            assert(s[j] == ':');
        } else if j == k.len() + 1 {
            assert(s[j] == ' ');
        } else {
            let jj = j - k.len() - 2;
            assert(s[j] == v[jj] && s[j + 1] == v[jj + 1]);
            assert(!(v[jj] == '\r' && v[jj + 1] == '\n'));
        }
    }
}

/// A written header line adds its value back under its name.
pub proof fn lemma_parse_written_line(
    k: Seq<char>,
    v: Seq<char>,
    rest: Seq<char>,
    acc: Seq<EntryView>,
)
    requires
        good_key(k),
        good_value(v),
    ensures
        parse_lines(line_of(k, v) + crlf() + rest, false, acc) == parse_lines(
            rest,
            false,
            add_value(acc, k, v),
        ),
{
    let line = line_of(k, v);
    let s = line + crlf() + rest;
    lemma_line_no_crlf(k, v);
    lemma_first_crlf(line, rest);
    assert(s.subrange(0, line.len() as int) =~= line);
    assert(s.subrange(line.len() as int + 2, s.len() as int) =~= rest);
    assert(line =~= k + seq![':'] + (seq![' '] + v));
    lemma_split_char_at(k, ':', seq![' '] + v);
    lemma_trim_space(v);
    assert(parse_line(line, false, acc) == Ok::<(bool, Seq<EntryView>), crate::error::HttpError>(
        (false, add_value(acc, k, v)),
    ));
}

/// The written lines of one name add its values back in order.
pub proof fn lemma_parse_written_values(
    k: Seq<char>,
    vs: Seq<Seq<char>>,
    rest: Seq<char>,
    acc: Seq<EntryView>,
)
    requires
        good_key(k),
        forall|j: int| 0 <= j < vs.len() ==> good_value(#[trigger] vs[j]),
    ensures
        parse_lines(values_text(k, vs) + rest, false, acc) == parse_lines(
            rest,
            false,
            fold_values(acc, k, vs),
        ),
    decreases vs.len(),
{
    if vs.len() == 0 {
        assert(values_text(k, vs) + rest =~= rest);
    } else {
        let front = vs.drop_last();
        let tail = line_of(k, vs.last()) + crlf() + rest;
        assert(values_text(k, vs) + rest =~= values_text(k, front) + tail);
        lemma_parse_written_values(k, front, tail, acc);
        lemma_parse_written_line(k, vs.last(), rest, fold_values(acc, k, front));
    }
}

/// The written lines of all entries add them back in order.
pub proof fn lemma_parse_written_entries(es: Seq<EntryView>, rest: Seq<char>, acc: Seq<EntryView>)
    requires
        good_entries(es),
    ensures
        parse_lines(entries_text(es) + rest, false, acc) == parse_lines(
            rest,
            false,
            fold_entries(acc, es),
        ),
    decreases es.len(),
{
    if es.len() == 0 {
        assert(entries_text(es) + rest =~= rest);
    } else {
        let front = es.drop_last();
        let last = es.last();
        let tail = values_text(last.0, last.1) + rest;
        assert(entries_text(es) + rest =~= entries_text(front) + tail);
        assert(good_entries(front));
        lemma_parse_written_entries(front, tail, acc);
        assert(good_key(es[es.len() - 1].0));
        assert forall|j: int| 0 <= j < last.1.len() implies good_value(#[trigger] last.1[j]) by {
            assert(good_value(es[es.len() - 1].1[j]));
        }
        lemma_parse_written_values(last.0, last.1, rest, fold_entries(acc, front));
    }
}

/// The blank line ends the block and keeps the entries.
pub proof fn lemma_parse_blank(acc: Seq<EntryView>)
    ensures
        parse_lines(crlf(), false, acc) == Ok::<Seq<EntryView>, crate::error::HttpError>(acc),
{
    let e = Seq::<char>::empty();
    lemma_first_crlf(e, e);
    assert(e + crlf() + e =~= crlf());
    assert(first_from(crlf(), crlf(), 0) == 0);
    assert(crlf().subrange(0, 0) =~= e);
    assert(crlf().subrange(2, 2) =~= e);
    assert(first_from(e, crlf(), 0) == -1);
    assert(parse_line(e, true, acc) == Ok::<(bool, Seq<EntryView>), crate::error::HttpError>(
        (true, acc),
    ));
    assert(parse_lines(e, true, acc) == Ok::<Seq<EntryView>, crate::error::HttpError>(acc));
    assert(parse_line(e, false, acc) == Ok::<(bool, Seq<EntryView>), crate::error::HttpError>(
        (true, acc),
    ));
}

/// Adding the values of a new name appends its entry.
pub proof fn lemma_fold_new_name(es: Seq<EntryView>, k: Seq<char>, vs: Seq<Seq<char>>)
    requires
        key_index(es, k) < 0,
        vs.len() > 0,
    ensures
        fold_values(es, k, vs) == es.push((k, vs)),
    decreases vs.len(),
{
    let front = vs.drop_last();
    if front.len() == 0 {
        assert(fold_values(es, k, front) == es);
        assert(seq![vs.last()] =~= vs);
    } else {
        lemma_fold_new_name(es, k, front);
        lemma_key_index_pushed(es, (k, front), k, 0);
        assert(front.push(vs.last()) =~= vs);
        assert(es.push((k, front)).update(es.len() as int, (k, front.push(vs.last()))) =~= es.push(
            (k, vs),
        ));
    }
}

proof fn lemma_key_absent(es: Seq<EntryView>, k: Seq<char>)
    requires
        forall|i: int| 0 <= i < es.len() ==> es[i].0 != k,
    ensures
        key_index(es, k) < 0,
{
    lemma_key_index_found(es, k, 0);
}

/// Adding all values of good entries to nothing rebuilds them.
pub proof fn lemma_fold_rebuilds(es: Seq<EntryView>)
    requires
        good_entries(es),
    ensures
        fold_entries(Seq::empty(), es) == es,
    decreases es.len(),
{
    if es.len() > 0 {
        let front = es.drop_last();
        assert(good_entries(front));
        lemma_fold_rebuilds(front);
        let last = es.last();
        assert forall|i: int| 0 <= i < front.len() implies front[i].0 != last.0 by {
            assert(es[i].0 != es[es.len() - 1].0);
        }
        lemma_key_absent(front, last.0);
        assert(last.1.len() > 0);
        lemma_fold_new_name(front, last.0, last.1);
        assert(front.push(last) =~= es);
    }
}

proof fn lemma_trim_good(v: Seq<char>)
    requires
        no_crlf(v),
    ensures
        good_value(trim(v)),
{
    lemma_trim_idem(v);
    let (a, b) = choose|a: int, b: int| 0 <= a <= b <= v.len() && trim(v) == v.subrange(a, b);
    lemma_no_crlf_sub(v, a, b);
}

proof fn lemma_add_parsed(acc: Seq<EntryView>, k: Seq<char>, v: Seq<char>)
    requires
        parsed_entries(acc),
        good_value(v),
    ensures
        parsed_entries(add_value(acc, k, v)),
{
    lemma_key_index_found(acc, k, 0);
    let j = key_index(acc, k);
    let r = add_value(acc, k, v);
    if j >= 0 {
        assert forall|i: int, n: int|
            0 <= i < r.len() && 0 <= n < r[i].1.len() implies good_value(#[trigger] r[i].1[n]) by {
            if i == j && n == acc[j].1.len() {
                assert(r[i].1[n] == v);
            } else {
                assert(r[i].1[n] == acc[i].1[n]);
            }
        }
    } else {
        assert forall|i: int| 0 <= i < acc.len() implies acc[i].0 != k by {
            if acc[i].0 == k {
                lemma_key_first_at_or_before(acc, k, 0, i);
            }
        }
        assert forall|i: int, n: int|
            0 <= i < r.len() && 0 <= n < r[i].1.len() implies good_value(#[trigger] r[i].1[n]) by {
            if i < acc.len() {
                assert(r[i].1[n] == acc[i].1[n]);
            }
        }
    }
}

proof fn lemma_key_first_at_or_before(es: Seq<EntryView>, k: Seq<char>, i: int, j: int)
    requires
        0 <= i <= j < es.len(),
        es[j].0 == k,
    ensures
        0 <= key_index_from(es, k, i) <= j,
    decreases j - i,
{
    if es[i].0 != k {
        lemma_key_first_at_or_before(es, k, i + 1, j);
    }
}

/// Parsing header lines leaves parsed entries.
pub proof fn lemma_parse_lines_parsed(rest: Seq<char>, ended: bool, acc: Seq<EntryView>)
    requires
        parsed_entries(acc),
    ensures
        parse_lines(rest, ended, acc) matches Ok(es) ==> parsed_entries(es),
    decreases rest.len(),
{
    let k = first_from(rest, crlf(), 0);
    lemma_before_crlf(rest);
    lemma_first_from_bounds(rest, crlf(), 0);
    let line = if k < 0 {
        rest
    } else {
        rest.subrange(0, k)
    };
    match parse_line(line, ended, acc) {
        Err(_) => {},
        Ok((ended2, es2)) => {
            if line.len() > 0 {
                lemma_split_char_found(line, ':');
                let (k0, v0) = split_once(line, seq![':']).unwrap();
                assert(line.subrange(0, k0.len() as int) =~= k0);
                assert(line.subrange(k0.len() as int + 1, line.len() as int) =~= v0);
                lemma_no_crlf_sub(line, k0.len() as int + 1, line.len() as int);
                lemma_trim_good(v0);
                lemma_add_parsed(acc, norm_key(k0), trim(v0));
            }
            if k >= 0 && k + 2 <= rest.len() {
                lemma_parse_lines_parsed(rest.subrange(k + 2, rest.len() as int), ended2, es2);
            }
        },
    }
}

/// A header block parsed from bytes, written out and parsed again, is the
/// same block: the same first line and the same values under the same names.
/// Shown for blocks whose stored names are good names: each is its own
/// stored form and holds no `:` or CR LF.
pub proof fn lemma_header_round_trip(b: Seq<u8>)
    requires
        parse_header_bytes(b) is Ok,
        forall|i: int|
            0 <= i < parse_header_bytes(b)->Ok_0.entries.len() ==> good_key(
                #[trigger] parse_header_bytes(b)->Ok_0.entries[i].0,
            ),
    ensures
        parse_header_bytes(encode_utf8(header_text(parse_header_bytes(b)->Ok_0))) == parse_header_bytes(b),
{
    let h = parse_header_bytes(b)->Ok_0;
    let s = decode_utf8(b);
    let t = header_text(h);
    encode_utf8_valid_utf8(t);
    encode_utf8_decode_utf8(t);
    let k = first_from(s, crlf(), 0);
    lemma_before_crlf(s);
    let e = Seq::<EntryView>::empty();
    assert(parsed_entries(e));
    if k >= 0 {
        lemma_parse_lines_parsed(s.subrange(k + 2, s.len() as int), false, e);
    }
    assert(good_entries(h.entries));
    let body = entries_text(h.entries) + crlf();
    lemma_first_crlf(h.line, body);
    assert(t =~= h.line + crlf() + body);
    assert(t.subrange(0, h.line.len() as int) =~= h.line);
    assert(t.subrange(h.line.len() as int + 2, t.len() as int) =~= body);
    lemma_parse_written_entries(h.entries, crlf(), e);
    lemma_parse_blank(fold_entries(e, h.entries));
    lemma_fold_rebuilds(h.entries);
    assert(parse_header(t) == Ok::<HeaderView, crate::error::HttpError>(h));
}

} // verus!
