//! The structured record produced from one raw line, and its styled variant
//! in which every field is a list of `(group, text)` spans.
use vstd::prelude::*;

use crate::text::{number_value, parse_number, same_text};

verus! {

/// A 24-bit colour, as `(red, green, blue)`.
pub type Color = (u8, u8, u8);

/// One piece of a styled field: the name of the capture group that produced
/// it, if any, and its text.
pub type Span = (Option<String>, String);

/// What a span is, mathematically.
pub type SpanView = (Option<Seq<char>>, Seq<char>);

/// Number of text fields of a record.
pub const FIELD_COUNT: usize = 8;

/// Position of each field in `columns()` and in `LineView::fields`.
pub const LOG: usize = 0;
pub const INDEX: usize = 1;
pub const DATE: usize = 2;
pub const TIMESTAMP: usize = 3;
pub const APP: usize = 4;
pub const SEVERITY: usize = 5;
pub const FUNCTION: usize = 6;
pub const PAYLOAD: usize = 7;

/// A log record: eight text fields in fixed order and an optional colour.
///
/// `log` is the id of the source the line came from and `index` the decimal
/// ordinal the line was given when it was ingested.
#[derive(Clone, Debug)]
pub struct LogLine {
    pub log: String,
    pub index: String,
    pub date: String,
    pub timestamp: String,
    pub app: String,
    pub severity: String,
    pub function: String,
    pub payload: String,
    pub color: Option<Color>,
}

/// A record as values: its fields in the order of `columns()`, and its colour.
pub struct LineView {
    pub fields: Seq<Seq<char>>,
    pub color: Option<Color>,
}

impl View for LogLine {
    type V = LineView;

    open spec fn view(&self) -> LineView {
        LineView {
            fields: seq![
                self.log@,
                self.index@,
                self.date@,
                self.timestamp@,
                self.app@,
                self.severity@,
                self.function@,
                self.payload@,
            ],
            color: self.color,
        }
    }
}

/// The field names, in order.
pub open spec fn column_names() -> Seq<Seq<char>> {
    seq![
        seq!['L', 'o', 'g'],
        seq!['I', 'n', 'd', 'e', 'x'],
        seq!['D', 'a', 't', 'e'],
        seq!['T', 'i', 'm', 'e', 's', 't', 'a', 'm', 'p'],
        seq!['A', 'p', 'p'],
        seq!['S', 'e', 'v', 'e', 'r', 'i', 't', 'y'],
        seq!['F', 'u', 'n', 'c', 't', 'i', 'o', 'n'],
        seq!['P', 'a', 'y', 'l', 'o', 'a', 'd'],
    ]
}

/// The fields that filters look at and that `values` lists: all but `Index`.
pub open spec fn value_positions() -> Seq<int> {
    seq![0, 2, 3, 4, 5, 6, 7]
}

/// Position of the field called `key`, if there is one.
pub open spec fn column_position(key: Seq<char>) -> Option<int> {
    if exists|i: int| 0 <= i < 8 && column_names()[i] == key {
        Some(choose|i: int| 0 <= i < 8 && column_names()[i] == key)
    } else {
        None
    }
}

pub(crate) proof fn lemma_column_position(key: Seq<char>, i: int)
    requires
        0 <= i < 8,
        column_names()[i] == key,
    ensures
        column_position(key) == Some(i),
{
    let j = choose|j: int| 0 <= j < 8 && column_names()[j] == key;
    assert(column_names()[j] == column_names()[i]);
    if j != i {
        assert(column_names()[j].len() != column_names()[i].len()
            || column_names()[j][0] != column_names()[i][0]
            || column_names()[j][1] != column_names()[i][1]);
    }
}

/// Literal text of a field name, with its value made known to the prover.
pub(crate) fn column_literal(i: usize) -> (r: &'static str)
    requires
        i < 8,
    ensures
        r@ == column_names()[i as int],
{
    if i == 0 {
        proof { reveal_strlit("Log"); }
        assert("Log"@ =~= column_names()[0]);
        "Log"
    } else if i == 1 {
        proof { reveal_strlit("Index"); }
        assert("Index"@ =~= column_names()[1]);
        "Index"
    } else if i == 2 {
        proof { reveal_strlit("Date"); }
        assert("Date"@ =~= column_names()[2]);
        "Date"
    } else if i == 3 {
        proof { reveal_strlit("Timestamp"); }
        assert("Timestamp"@ =~= column_names()[3]);
        "Timestamp"
    } else if i == 4 {
        proof { reveal_strlit("App"); }
        assert("App"@ =~= column_names()[4]);
        "App"
    } else if i == 5 {
        proof { reveal_strlit("Severity"); }
        assert("Severity"@ =~= column_names()[5]);
        "Severity"
    } else if i == 6 {
        proof { reveal_strlit("Function"); }
        assert("Function"@ =~= column_names()[6]);
        "Function"
    } else {
        proof { reveal_strlit("Payload"); }
        assert("Payload"@ =~= column_names()[7]);
        "Payload"
    }
}

fn column_list() -> (r: Vec<String>)
    ensures
        r@.len() == 8,
        forall|i: int| 0 <= i < 8 ==> (#[trigger] r@[i])@ == column_names()[i],
{
    let mut r: Vec<String> = Vec::new();
    let mut i: usize = 0;
    while i < 8
        invariant
            i <= 8,
            r@.len() == i,
            forall|j: int| 0 <= j < i ==> (#[trigger] r@[j])@ == column_names()[j],
        decreases 8 - i,
    {
        r.push(column_literal(i).to_owned());
        i = i + 1;
    }
    r
}

impl LogLine {
    /// The field names, in the fixed field order.
    pub fn columns() -> (r: Vec<String>)
        ensures
            r@.len() == 8,
            forall|i: int| 0 <= i < 8 ==> (#[trigger] r@[i])@ == column_names()[i],
    {
        column_list()
    }

    /// Reference to the field at `i` in the fixed order.
    pub fn field(&self, i: usize) -> (r: &String)
        requires
            i < 8,
        ensures
            r@ == self@.fields[i as int],
    {
        if i == 0 { &self.log }
        else if i == 1 { &self.index }
        else if i == 2 { &self.date }
        else if i == 3 { &self.timestamp }
        else if i == 4 { &self.app }
        else if i == 5 { &self.severity }
        else if i == 6 { &self.function }
        else { &self.payload }
    }

    /// The field called `key`; `None` for a name that is not a column.
    pub fn get(&self, key: &str) -> (r: Option<&String>)
        ensures
            match column_position(key@) {
                Some(i) => r matches Some(v) && v@ == self@.fields[i],
                None => r is None,
            },
    {
        let mut i: usize = 0;
        while i < 8
            invariant
                i <= 8,
                forall|j: int| 0 <= j < i ==> column_names()[j] != key@,
            decreases 8 - i,
        {
            if same_text(key, column_literal(i)) {
                proof { lemma_column_position(key@, i as int); }
                return Some(self.field(i));
            }
            i = i + 1;
        }
        None
    }

    /// `(name, field)` for every field but `Index`, in the fixed order.
    pub fn values(&self) -> (r: Vec<(&'static str, &String)>)
        ensures
            r@.len() == 7,
            forall|k: int| 0 <= k < 7 ==> (#[trigger] r@[k]).0@ == column_names()[value_positions()[k]]
                && r@[k].1@ == self@.fields[value_positions()[k]],
    {
        let mut r: Vec<(&'static str, &String)> = Vec::new();
        let mut i: usize = 0;
        while i < 8
            invariant
                i <= 8,
                r@.len() == if i <= 1 { i as int } else { i - 1 },
                forall|k: int| 0 <= k < r@.len() ==> (#[trigger] r@[k]).0@ == column_names()[value_positions()[k]]
                    && r@[k].1@ == self@.fields[value_positions()[k]],
            decreases 8 - i,
        {
            if i != INDEX {
                r.push((column_literal(i), self.field(i)));
            }
            i = i + 1;
        }
        r
    }

    /// A copy with the same fields and colour.
    pub fn duplicate(&self) -> (r: LogLine)
        ensures
            r@ == self@,
    {
        let r = LogLine {
            log: self.log.clone(),
            index: self.index.clone(),
            date: self.date.clone(),
            timestamp: self.timestamp.clone(),
            app: self.app.clone(),
            severity: self.severity.clone(),
            function: self.function.clone(),
            payload: self.payload.clone(),
            color: self.color,
        };
        assert(r@.fields =~= self@.fields);
        r
    }
}

impl Default for LogLine {
    fn default() -> (r: LogLine)
        ensures
            forall|i: int| 0 <= i < 8 ==> (#[trigger] r@.fields[i]).len() == 0,
            r@.color is None,
    {
        LogLine {
            log: String::new(),
            index: String::new(),
            date: String::new(),
            timestamp: String::new(),
            app: String::new(),
            severity: String::new(),
            function: String::new(),
            payload: String::new(),
            color: None,
        }
    }
}

/// Two records are equal when all eight fields and the colour are.
impl PartialEq for LogLine {
    fn eq(&self, other: &LogLine) -> (r: bool)
        ensures
            r == (self@ == other@),
    {
        let same = self.log == other.log && self.index == other.index && self.date == other.date
            && self.timestamp == other.timestamp && self.app == other.app
            && self.severity == other.severity && self.function == other.function
            && self.payload == other.payload && self.color == other.color;
        if same {
            assert(self@.fields =~= other@.fields);
        } else {
            assert(self@ != other@ || self@.fields != other@.fields);
        }
        same
    }
}

impl vstd::std_specs::cmp::PartialEqSpecImpl for LogLine {
    open spec fn obeys_eq_spec() -> bool {
        true
    }

    open spec fn eq_spec(&self, other: &LogLine) -> bool {
        self@ == other@
    }
}

/// The numeric value of a record's `index`, when it is a number that fits a
/// `usize`.
pub open spec fn index_number(l: LineView) -> Option<nat> {
    match number_value(l.fields[1]) {
        Some(v) => if v <= usize::MAX { Some(v) } else { None },
        None => None,
    }
}

/// Records are ordered by the numeric value of `index`; a record without one
/// is not comparable.
pub open spec fn index_order(a: LineView, b: LineView) -> Option<core::cmp::Ordering> {
    match (index_number(a), index_number(b)) {
        (Some(x), Some(y)) => Some(
            if x < y {
                core::cmp::Ordering::Less
            } else if x == y {
                core::cmp::Ordering::Equal
            } else {
                core::cmp::Ordering::Greater
            },
        ),
        _ => None,
    }
}

/// Records compare by the numeric value of `index`.
impl PartialOrd for LogLine {
    fn partial_cmp(&self, other: &LogLine) -> (r: Option<core::cmp::Ordering>)
        ensures
            r == index_order(self@, other@),
    {
        match (parse_number(self.index.as_str(), usize::MAX), parse_number(other.index.as_str(), usize::MAX)) {
            (Some(x), Some(y)) => Some(
                if x < y {
                    core::cmp::Ordering::Less
                } else if x == y {
                    core::cmp::Ordering::Equal
                } else {
                    core::cmp::Ordering::Greater
                },
            ),
            _ => None,
        }
    }
}

impl vstd::std_specs::cmp::PartialOrdSpecImpl for LogLine {
    open spec fn obeys_partial_cmp_spec() -> bool {
        true
    }

    open spec fn partial_cmp_spec(&self, other: &LogLine) -> Option<core::cmp::Ordering> {
        index_order(self@, other@)
    }
}

} // verus!
