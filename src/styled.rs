//! The styled variant of a record: every field is an ordered list of
//! `(group, text)` spans whose texts, put together, give the field back.
use vstd::prelude::*;

use crate::log_line::{column_names, column_position, value_positions, Color, LogLine, Span, SpanView, INDEX};
use crate::text::{push_text, same_text};

verus! {

/// A record whose fields are span lists.
#[derive(Clone, Debug)]
pub struct LogLineStyled {
    pub log: Vec<Span>,
    pub index: Vec<Span>,
    pub date: Vec<Span>,
    pub timestamp: Vec<Span>,
    pub app: Vec<Span>,
    pub severity: Vec<Span>,
    pub function: Vec<Span>,
    pub payload: Vec<Span>,
    pub color: Option<Color>,
}

/// A styled record as values.
pub struct StyledView {
    pub fields: Seq<Seq<SpanView>>,
    pub color: Option<Color>,
}

impl View for LogLineStyled {
    type V = StyledView;

    open spec fn view(&self) -> StyledView {
        StyledView {
            fields: seq![
                self.log.deep_view(),
                self.index.deep_view(),
                self.date.deep_view(),
                self.timestamp.deep_view(),
                self.app.deep_view(),
                self.severity.deep_view(),
                self.function.deep_view(),
                self.payload.deep_view(),
            ],
            color: self.color,
        }
    }
}

/// The texts of `spans`, one after the other.
pub open spec fn spans_text(spans: Seq<SpanView>) -> Seq<char>
    decreases spans.len(),
{
    if spans.len() == 0 {
        Seq::empty()
    } else {
        spans_text(spans.drop_last()) + spans.last().1
    }
}

/// Concatenation of the span texts of one field.
pub fn join_spans(spans: &Vec<Span>) -> (r: String)
    ensures
        r@ == spans_text(spans.deep_view()),
{
    let mut r = String::new();
    let mut i: usize = 0;
    while i < spans.len()
        invariant
            i <= spans@.len(),
            r@ == spans_text(spans.deep_view().subrange(0, i as int)),
        decreases spans@.len() - i,
    {
        push_text(&mut r, spans[i].1.as_str());
        let ghost d = spans.deep_view();
        assert(d.subrange(0, i + 1).drop_last() =~= d.subrange(0, i as int));
        i = i + 1;
    }
    assert(spans.deep_view().subrange(0, i as int) =~= spans.deep_view());
    r
}

impl LogLineStyled {
    /// The field names, in the fixed field order.
    pub fn columns() -> (r: Vec<String>)
        ensures
            r@.len() == 8,
            forall|i: int| 0 <= i < 8 ==> (#[trigger] r@[i])@ == column_names()[i],
    {
        LogLine::columns()
    }

    /// Reference to the span list at `i` in the fixed order.
    pub fn field(&self, i: usize) -> (r: &Vec<Span>)
        requires
            i < 8,
        ensures
            r.deep_view() == self@.fields[i as int],
    {
        if i == 0 { &self.log }
        else if i == 1 { &self.index }
        else if i == 2 { &self.date }
        else if i == 3 { &self.timestamp }
        else if i == 4 { &self.app }
        else if i == 5 { &self.severity }
        else if i == 6 { &self.function }
        else { &self.payload }
    }

    /// The span list called `key`; `None` for a name that is not a column.
    pub fn get(&self, key: &str) -> (r: Option<&Vec<Span>>)
        ensures
            match column_position(key@) {
                Some(i) => r matches Some(v) && v.deep_view() == self@.fields[i],
                None => r is None,
            },
    {
        let mut i: usize = 0;
        while i < 8
            invariant
                i <= 8,
                forall|j: int| 0 <= j < i ==> column_names()[j] != key@,
            decreases 8 - i,
        {
            if same_text(key, crate::log_line::column_literal(i)) {
                proof { crate::log_line::lemma_column_position(key@, i as int); }
                return Some(self.field(i));
            }
            i = i + 1;
        }
        None
    }

    /// `(name, spans)` for every field but `Index`, in the fixed order.
    pub fn values(&self) -> (r: Vec<(&'static str, &Vec<Span>)>)
        ensures
            r@.len() == 7,
            forall|k: int| 0 <= k < 7 ==> (#[trigger] r@[k]).0@ == column_names()[value_positions()[k]]
                && r@[k].1.deep_view() == self@.fields[value_positions()[k]],
    {
        let mut r: Vec<(&'static str, &Vec<Span>)> = Vec::new();
        let mut i: usize = 0;
        while i < 8
            invariant
                i <= 8,
                r@.len() == if i <= 1 { i as int } else { i - 1 },
                forall|k: int| 0 <= k < r@.len() ==> (#[trigger] r@[k]).0@ == column_names()[value_positions()[k]]
                    && r@[k].1.deep_view() == self@.fields[value_positions()[k]],
            decreases 8 - i,
        {
            if i != INDEX {
                r.push((crate::log_line::column_literal(i), self.field(i)));
            }
            i = i + 1;
        }
        r
    }

    /// The plain record whose fields are the concatenated span texts; the
    /// colour is kept.
    pub fn unformat(&self) -> (r: LogLine)
        ensures
            forall|i: int| 0 <= i < 8 ==> (#[trigger] r@.fields[i]) == spans_text(self@.fields[i]),
            r@.fields.len() == 8,
            r@.color == self@.color,
    {
        LogLine {
            log: join_spans(&self.log),
            index: join_spans(&self.index),
            date: join_spans(&self.date),
            timestamp: join_spans(&self.timestamp),
            app: join_spans(&self.app),
            severity: join_spans(&self.severity),
            function: join_spans(&self.function),
            payload: join_spans(&self.payload),
            color: self.color,
        }
    }
}

} // verus!
