//! Search: whether a record matches a pattern, and the styled record that
//! marks the named groups of the first match in each field.
use vstd::prelude::*;
use vstd::string::StringSliceAdditionalSpecFns;
use vstd::utf8::*;

use crate::log_line::{LogLine, Span, SpanView};
use crate::pattern::{capture_result, group_names, is_match, spans_within, Pattern};
use crate::styled::{spans_text, LogLineStyled};

verus! {

/// A named group of a match: its name and its byte span.
pub type Group = (Seq<char>, int, int);

/// The named groups that took part in a match, by group number.
pub open spec fn named_groups(names: Seq<Option<Seq<char>>>, caps: Seq<Option<(usize, usize)>>) -> Seq<Group>
    decreases names.len(),
{
    if names.len() == 0 {
        Seq::empty()
    } else {
        let i = names.len() - 1;
        let rest = named_groups(names.drop_last(), caps);
        if names[i] is Some && i < caps.len() && caps[i] is Some {
            let (s, e) = caps[i]->0;
            rest.push((names[i]->0, s as int, e as int))
        } else {
            rest
        }
    }
}

/// An unmarked span for the bytes `from..to`, or nothing when that is empty.
pub open spec fn gap(bytes: Seq<u8>, from: int, to: int) -> Seq<SpanView> {
    if from < to {
        seq![(None, decode_utf8(bytes.subrange(from, to)))]
    } else {
        Seq::empty()
    }
}

/// Spans of `bytes` from `offset` on: for each group in turn that starts at
/// or after the end of the previous one, the unmarked text before it and the
/// group itself; then the unmarked rest. A group that starts inside the
/// previous one is left out.
pub open spec fn thread_groups(bytes: Seq<u8>, groups: Seq<Group>, offset: int) -> Seq<SpanView>
    decreases groups.len(),
{
    if groups.len() == 0 {
        gap(bytes, offset, bytes.len() as int)
    } else {
        let (name, s, e) = groups[0];
        if s < offset {
            thread_groups(bytes, groups.drop_first(), offset)
        } else {
            gap(bytes, offset, s) + seq![(Some(name), decode_utf8(bytes.subrange(s, e)))]
                + thread_groups(bytes, groups.drop_first(), e)
        }
    }
}

/// The span list of one field: the whole text as one unmarked span when the
/// pattern does not match or no named group took part, else the threaded
/// groups.
pub open spec fn field_spans(
    text: Seq<char>,
    names: Seq<Option<Seq<char>>>,
    caps: Option<Seq<Option<(usize, usize)>>>,
) -> Seq<SpanView> {
    match caps {
        None => seq![(None, text)],
        Some(c) => {
            let g = named_groups(names, c);
            if g.len() == 0 {
                seq![(None, text)]
            } else {
                thread_groups(encode_utf8(text), g, 0)
            }
        },
    }
}

/// Whether any field of the record matches the pattern.
pub open spec fn line_matches(pattern: Seq<char>, fields: Seq<Seq<char>>) -> bool {
    exists|i: int| 0 <= i < 8 && is_match(pattern, #[trigger] fields[i])
}

pub open spec fn groups_view(v: Seq<(String, usize, usize)>) -> Seq<Group> {
    v.map_values(|g: (String, usize, usize)| (g.0@, g.1 as int, g.2 as int))
}

pub open spec fn groups_within(bytes: Seq<u8>, groups: Seq<Group>) -> bool {
    forall|k: int| 0 <= k < groups.len() ==> {
        let (_, s, e) = #[trigger] groups[k];
        &&& 0 <= s <= e <= bytes.len()
        &&& is_char_boundary(bytes, s)
        &&& is_char_boundary(bytes, e)
    }
}

pub open spec fn caps_view(caps: &Option<Vec<Option<(usize, usize)>>>) -> Option<Seq<Option<(usize, usize)>>> {
    match caps {
        Some(c) => Some(c@),
        None => None,
    }
}

pub(crate) proof fn lemma_str_decode(s: &str)
    ensures
        s@ == decode_utf8(s.spec_bytes()),
{
    encode_utf8_decode_utf8(s@);
}

pub(crate) proof fn lemma_boundary_in_suffix(bytes: Seq<u8>, a: int, b: int)
    requires
        valid_utf8(bytes),
        is_char_boundary(bytes, a),
        is_char_boundary(bytes, b),
        0 <= a <= b <= bytes.len(),
    ensures
        valid_utf8(bytes.subrange(a, bytes.len() as int)),
        is_char_boundary(bytes.subrange(a, bytes.len() as int), b - a),
{
    valid_utf8_split(bytes, a);
    let suf = bytes.subrange(a, bytes.len() as int);
    if b == bytes.len() {
        is_char_boundary_start_end_of_seq(suf);
    } else {
        is_char_boundary_iff_not_is_continuation_byte(bytes, b);
        is_char_boundary_iff_not_is_continuation_byte(suf, b - a);
        assert(suf[b - a] == bytes[b]);
    }
}

proof fn lemma_decode_split(bytes: Seq<u8>, a: int, b: int)
    requires
        valid_utf8(bytes),
        is_char_boundary(bytes, a),
        is_char_boundary(bytes, b),
        0 <= a <= b <= bytes.len(),
    ensures
        decode_utf8(bytes.subrange(a, bytes.len() as int)) == decode_utf8(bytes.subrange(a, b))
            + decode_utf8(bytes.subrange(b, bytes.len() as int)),
{
    lemma_boundary_in_suffix(bytes, a, b);
    let suf = bytes.subrange(a, bytes.len() as int);
    decode_utf8_split(suf, b - a);
    assert(suf.subrange(0, b - a) =~= bytes.subrange(a, b));
    assert(suf.subrange(b - a, suf.len() as int) =~= bytes.subrange(b, bytes.len() as int));
}

proof fn lemma_spans_text_concat(a: Seq<SpanView>, b: Seq<SpanView>)
    ensures
        spans_text(a + b) == spans_text(a) + spans_text(b),
    decreases b.len(),
{
    if b.len() == 0 {
        assert(a + b =~= a);
        assert(spans_text(a) + spans_text(b) =~= spans_text(a));
    } else {
        lemma_spans_text_concat(a, b.drop_last());
        assert((a + b).drop_last() =~= a + b.drop_last());
    }
}

proof fn lemma_single_span_text(x: SpanView)
    ensures
        spans_text(seq![x]) == x.1,
{
    let one = seq![x];
    assert(one.drop_last() =~= Seq::<SpanView>::empty());
    assert(spans_text(Seq::<SpanView>::empty()) == Seq::<char>::empty());
    assert(spans_text(one) == spans_text(one.drop_last()) + one.last().1);
    assert(Seq::<char>::empty() + x.1 =~= x.1);
}

proof fn lemma_gap_text(bytes: Seq<u8>, from: int, to: int)
    requires
        0 <= from <= to <= bytes.len(),
    ensures
        spans_text(gap(bytes, from, to)) == decode_utf8(bytes.subrange(from, to)),
{
    if from < to {
        lemma_single_span_text((None, decode_utf8(bytes.subrange(from, to))));
    } else {
        assert(bytes.subrange(from, to) =~= Seq::<u8>::empty());
        assert(decode_utf8(Seq::<u8>::empty()) =~= Seq::<char>::empty());
        assert(spans_text(Seq::<SpanView>::empty()) == Seq::<char>::empty());
    }
}

proof fn lemma_thread_text(bytes: Seq<u8>, groups: Seq<Group>, offset: int)
    requires
        valid_utf8(bytes),
        groups_within(bytes, groups),
        0 <= offset <= bytes.len(),
        is_char_boundary(bytes, offset),
    ensures
        spans_text(thread_groups(bytes, groups, offset)) == decode_utf8(bytes.subrange(offset, bytes.len() as int)),
    decreases groups.len(),
{
    if groups.len() == 0 {
        lemma_gap_text(bytes, offset, bytes.len() as int);
    } else {
        let (name, s, e) = groups[0];
        let rest = groups.drop_first();
        assert(groups_within(bytes, rest)) by {
            assert forall|k: int| 0 <= k < rest.len() implies {
                let (_, s, e) = #[trigger] rest[k];
                &&& 0 <= s <= e <= bytes.len()
                &&& is_char_boundary(bytes, s)
                &&& is_char_boundary(bytes, e)
            } by {
                assert(rest[k] == groups[k + 1]);
            }
        }
        assert(groups[0] == (name, s, e));
        if s < offset {
            lemma_thread_text(bytes, rest, offset);
        } else {
            lemma_thread_text(bytes, rest, e);
            let named: Seq<SpanView> = seq![(Some(name), decode_utf8(bytes.subrange(s, e)))];
            let g = gap(bytes, offset, s);
            lemma_spans_text_concat(g + named, thread_groups(bytes, rest, e));
            lemma_spans_text_concat(g, named);
            lemma_gap_text(bytes, offset, s);
            lemma_single_span_text((Some(name), decode_utf8(bytes.subrange(s, e))));
            lemma_decode_split(bytes, offset, s);
            lemma_decode_split(bytes, s, e);
        }
    }
}

proof fn lemma_named_groups_within(names: Seq<Option<Seq<char>>>, caps: Seq<Option<(usize, usize)>>, text: Seq<char>)
    requires
        spans_within(caps, text),
    ensures
        groups_within(encode_utf8(text), named_groups(names, caps)),
    decreases names.len(),
{
    if names.len() > 0 {
        lemma_named_groups_within(names.drop_last(), caps, text);
        let i = names.len() - 1;
        if i < caps.len() && caps[i] is Some {
            let (s, e) = caps[i]->0;
            assert(s <= e);
        }
    }
}

/// Putting the span texts of a field back together gives the field, for any
/// group spans that lie on character boundaries of the field.
pub proof fn lemma_field_spans_round_trip(
    text: Seq<char>,
    names: Seq<Option<Seq<char>>>,
    caps: Option<Seq<Option<(usize, usize)>>>,
)
    requires
        caps matches Some(c) ==> spans_within(c, text),
    ensures
        spans_text(field_spans(text, names, caps)) == text,
{
    lemma_single_span_text((None, text));
    if let Some(c) = caps {
        let g = named_groups(names, c);
        if g.len() > 0 {
            let bytes = encode_utf8(text);
            lemma_named_groups_within(names, c, text);
            encode_utf8_valid_utf8(text);
            is_char_boundary_start_end_of_seq(bytes);
            lemma_thread_text(bytes, g, 0);
            assert(bytes.subrange(0, bytes.len() as int) =~= bytes);
            encode_utf8_decode_utf8(text);
        }
    }
}

fn collect_named(names: &Vec<Option<String>>, caps: &Vec<Option<(usize, usize)>>) -> (r: Vec<(String, usize, usize)>)
    ensures
        groups_view(r@) == named_groups(names.deep_view(), caps@),
{
    let mut r: Vec<(String, usize, usize)> = Vec::new();
    let mut i: usize = 0;
    while i < names.len()
        invariant
            i <= names@.len(),
            groups_view(r@) == named_groups(names.deep_view().subrange(0, i as int), caps@),
        decreases names@.len() - i,
    {
        let ghost before = r@;
        let ghost sub = names.deep_view().subrange(0, i + 1);
        assert(sub.drop_last() =~= names.deep_view().subrange(0, i as int));
        if i < caps.len() {
            match (&names[i], caps[i]) {
                (Some(n), Some((s, e))) => {
                    r.push((n.clone(), s, e));
                    assert(groups_view(r@) =~= groups_view(before).push((n@, s as int, e as int)));
                },
                _ => {},
            }
        }
        i = i + 1;
    }
    assert(names.deep_view().subrange(0, i as int) =~= names.deep_view());
    r
}

fn thread_spans(text: &str, groups: &Vec<(String, usize, usize)>) -> (r: Vec<Span>)
    requires
        groups_within(text.spec_bytes(), groups_view(groups@)),
    ensures
        r.deep_view() == thread_groups(text.spec_bytes(), groups_view(groups@), 0),
{
    let ghost bytes = text.spec_bytes();
    let ghost g = groups_view(groups@);
    proof {
        encode_utf8_valid_utf8(text@);
        is_char_boundary_start_end_of_seq(bytes);
        assert(bytes.subrange(0, bytes.len() as int) =~= bytes);
        assert(g.subrange(0, g.len() as int) =~= g);
        assert(Seq::<SpanView>::empty() + thread_groups(bytes, g, 0) =~= thread_groups(bytes, g, 0));
    }
    let mut out: Vec<Span> = Vec::new();
    let mut rest: &str = text;
    let mut offset: usize = 0;
    let mut k: usize = 0;
    while k < groups.len()
        invariant
            bytes == text.spec_bytes(),
            g == groups_view(groups@),
            groups_within(bytes, g),
            valid_utf8(bytes),
            k <= groups@.len(),
            offset <= bytes.len(),
            is_char_boundary(bytes, offset as int),
            rest.spec_bytes() == bytes.subrange(offset as int, bytes.len() as int),
            out.deep_view() + thread_groups(bytes, g.subrange(k as int, g.len() as int), offset as int)
                == thread_groups(bytes, g, 0),
        decreases groups@.len() - k,
    {
        let s = groups[k].1;
        let e = groups[k].2;
        let ghost gk = g.subrange(k as int, g.len() as int);
        let ghost before = out.deep_view();
        assert(gk.drop_first() =~= g.subrange(k + 1, g.len() as int));
        assert(gk[0] == g[k as int]);
        assert(g[k as int] == (groups@[k as int].0@, s as int, e as int));
        if s >= offset {
            proof {
                lemma_boundary_in_suffix(bytes, offset as int, s as int);
            }
            let (pre, after) = rest.split_at(s - offset);
            assert(pre.spec_bytes() =~= bytes.subrange(offset as int, s as int));
            assert(after.spec_bytes() =~= bytes.subrange(s as int, bytes.len() as int));
            proof {
                lemma_boundary_in_suffix(bytes, s as int, e as int);
            }
            let (mid, tail) = after.split_at(e - s);
            assert(mid.spec_bytes() =~= bytes.subrange(s as int, e as int));
            assert(tail.spec_bytes() =~= bytes.subrange(e as int, bytes.len() as int));
            proof {
                lemma_str_decode(pre);
                lemma_str_decode(mid);
            }
            if s > offset {
                out.push((None, pre.to_owned()));
            }
            let ghost mid_dv = out.deep_view();
            assert(mid_dv =~= before + gap(bytes, offset as int, s as int));
            out.push((Some(groups[k].0.clone()), mid.to_owned()));
            assert(out.deep_view() =~= before + gap(bytes, offset as int, s as int)
                + seq![(Some(g[k as int].0), decode_utf8(bytes.subrange(s as int, e as int)))]);
            rest = tail;
            offset = e;
        }
        k = k + 1;
    }
    assert(g.subrange(k as int, g.len() as int) =~= Seq::<Group>::empty());
    let ghost done = out.deep_view();
    proof {
        lemma_str_decode(rest);
        assert(decode_utf8(Seq::<u8>::empty()) =~= Seq::<char>::empty());
        if offset as int == bytes.len() {
            assert(rest.spec_bytes() =~= Seq::<u8>::empty());
        }
    }
    if !rest.is_empty() {
        out.push((None, rest.to_owned()));
        assert(out.deep_view() =~= done + gap(bytes, offset as int, bytes.len() as int));
    } else {
        assert(encode_utf8(rest@) =~= Seq::<u8>::empty());
        assert(rest.spec_bytes().len() == 0);
        assert(gap(bytes, offset as int, bytes.len() as int) =~= Seq::<SpanView>::empty());
        assert(done + gap(bytes, offset as int, bytes.len() as int) =~= done);
    }
    out
}

/// The span list of `text` for a search whose group names are `names` and
/// whose outcome on `text` is `caps`.
pub fn spans_from_captures(
    text: &str,
    names: &Vec<Option<String>>,
    caps: &Option<Vec<Option<(usize, usize)>>>,
) -> (r: Vec<Span>)
    requires
        caps matches Some(c) ==> spans_within(c@, text@),
    ensures
        r.deep_view() == field_spans(text@, names.deep_view(), caps_view(caps)),
{
    let whole = || -> (w: Vec<Span>)
        ensures
            w.deep_view() == seq![(None::<Seq<char>>, text@)],
    {
        let mut w: Vec<Span> = Vec::new();
        w.push((None, text.to_owned()));
        assert(w.deep_view() =~= seq![(None::<Seq<char>>, text@)]);
        w
    };
    match caps {
        None => whole(),
        Some(c) => {
            let groups = collect_named(names, c);
            if groups.len() == 0 {
                whole()
            } else {
                proof {
                    lemma_named_groups_within(names.deep_view(), c@, text@);
                }
                thread_spans(text, &groups)
            }
        },
    }
}

/// Whether the pattern matches any field of the record. The payload is
/// tried first, as it is the field most likely to match.
pub fn apply_search(search: &Pattern, log_line: &LogLine) -> (r: bool)
    ensures
        r == line_matches(search@, log_line@.fields),
{
    let mut i: usize = 8;
    while i > 0
        invariant
            i <= 8,
            forall|j: int| i <= j < 8 ==> !is_match(search@, #[trigger] log_line@.fields[j]),
        decreases i,
    {
        i = i - 1;
        if search.is_match(log_line.field(i).as_str()) {
            return true;
        }
    }
    false
}

/// Span list of every field when no search is in force: the whole field,
/// unmarked.
pub fn plain_styled(log_line: &LogLine) -> (r: LogLineStyled)
    ensures
        forall|i: int| 0 <= i < 8 ==> (#[trigger] r@.fields[i]) == field_spans(log_line@.fields[i], Seq::empty(), None),
        r@.fields.len() == 8,
        r@.color == log_line@.color,
{
    let one = |t: &String| -> (w: Vec<Span>)
        ensures
            w.deep_view() == seq![(None::<Seq<char>>, t@)],
    {
        let mut w: Vec<Span> = Vec::new();
        w.push((None, t.clone()));
        assert(w.deep_view() =~= seq![(None::<Seq<char>>, t@)]);
        w
    };
    LogLineStyled {
        log: one(&log_line.log),
        index: one(&log_line.index),
        date: one(&log_line.date),
        timestamp: one(&log_line.timestamp),
        app: one(&log_line.app),
        severity: one(&log_line.severity),
        function: one(&log_line.function),
        payload: one(&log_line.payload),
        color: log_line.color,
    }
}

/// The styled record that marks, in every field, the named groups of the
/// first match of `search`. The colour is kept, and the span texts of each
/// field put together give the field back.
pub fn format_search(search: &Pattern, log_line: &LogLine) -> (r: LogLineStyled)
    ensures
        forall|i: int| 0 <= i < 8 ==> (#[trigger] r@.fields[i]) == field_spans(
            log_line@.fields[i],
            group_names(search@),
            capture_result(search@, log_line@.fields[i]),
        ),
        forall|i: int| 0 <= i < 8 ==> spans_text(#[trigger] r@.fields[i]) == log_line@.fields[i],
        r@.fields.len() == 8,
        r@.color == log_line@.color,
{
    let names = search.group_names();
    let mut columns: Vec<Vec<Span>> = Vec::new();
    let mut i: usize = 0;
    while i < 8
        invariant
            i <= 8,
            names.deep_view() == group_names(search@),
            columns@.len() == i,
            forall|j: int| 0 <= j < i ==> (#[trigger] columns@[j]).deep_view() == field_spans(
                log_line@.fields[j],
                group_names(search@),
                capture_result(search@, log_line@.fields[j]),
            ),
            forall|j: int| 0 <= j < i ==> spans_text((#[trigger] columns@[j]).deep_view()) == log_line@.fields[j],
        decreases 8 - i,
    {
        let text = log_line.field(i).as_str();
        let caps = search.captures(text);
        let spans = spans_from_captures(text, &names, &caps);
        proof {
            lemma_field_spans_round_trip(text@, names.deep_view(), caps_view(&caps));
        }
        columns.push(spans);
        i = i + 1;
    }
    let payload = columns.pop().unwrap();
    let function = columns.pop().unwrap();
    let severity = columns.pop().unwrap();
    let app = columns.pop().unwrap();
    let timestamp = columns.pop().unwrap();
    let date = columns.pop().unwrap();
    let index = columns.pop().unwrap();
    let log = columns.pop().unwrap();
    let r = LogLineStyled { log, index, date, timestamp, app, severity, function, payload, color: log_line.color };
    r
}

} // verus!
