//! Filters and their priority rules: INCLUDE keeps, EXCLUDE drops, MARKER
//! only colours.
use vstd::prelude::*;

use crate::log_line::{value_positions, Color, LineView, LogLine};
use crate::pattern::{compiles, is_match, Pattern};

verus! {

/// What a filter does with the records it matches.
#[allow(non_camel_case_types)]
#[derive(Clone, Copy, Debug, PartialEq, Eq, Structural)]
pub enum FilterAction {
    /// Only colour the record.
    MARKER,
    /// Keep the record; with any INCLUDE filter present, records that match
    /// none of them are dropped.
    INCLUDE,
    /// Drop the record, unless an INCLUDE filter keeps it.
    EXCLUDE,
}

impl FilterAction {
    /// The action for a selector position: 0 is INCLUDE, 1 is EXCLUDE and
    /// anything else MARKER.
    pub fn from(v: usize) -> (r: FilterAction)
        ensures
            r == (if v == 0 {
                FilterAction::INCLUDE
            } else if v == 1 {
                FilterAction::EXCLUDE
            } else {
                FilterAction::MARKER
            }),
    {
        if v == 0 {
            FilterAction::INCLUDE
        } else if v == 1 {
            FilterAction::EXCLUDE
        } else {
            FilterAction::MARKER
        }
    }
}

impl Default for FilterAction {
    fn default() -> (r: FilterAction)
        ensures
            r == FilterAction::MARKER,
    {
        FilterAction::MARKER
    }
}

/// A filter as the user defines it: the fields of `filter` hold the
/// patterns, one per field, and its colour the colour to paint.
#[derive(Clone, Debug)]
pub struct Filter {
    pub alias: String,
    pub action: FilterAction,
    pub filter: LogLine,
}

impl Default for Filter {
    fn default() -> (r: Filter)
        ensures
            r.alias@.len() == 0,
            r.action == FilterAction::MARKER,
            forall|i: int| 0 <= i < 8 ==> (#[trigger] r.filter@.fields[i]).len() == 0,
            r.filter@.color is None,
    {
        Filter { alias: String::new(), action: FilterAction::MARKER, filter: LogLine::default() }
    }
}

/// The compiled patterns of the first `k` filterable fields: a field takes
/// part when its pattern is not empty and compiles.
pub open spec fn compiled_upto(f: LineView, k: int) -> Seq<(int, Seq<char>)>
    decreases k,
{
    if k <= 0 {
        Seq::empty()
    } else {
        let rest = compiled_upto(f, k - 1);
        let pos = value_positions()[k - 1];
        let p = f.fields[pos];
        if p.len() > 0 && compiles(p) {
            rest.push((pos, p))
        } else {
            rest
        }
    }
}

/// The `(field position, pattern)` pairs a filter definition compiles to.
pub open spec fn compiled_patterns(f: LineView) -> Seq<(int, Seq<char>)> {
    compiled_upto(f, 7)
}

/// A filter ready to be applied.
pub struct LogFilter {
    pub action: FilterAction,
    /// `(field position, compiled pattern)` pairs.
    pub filters: Vec<(usize, Pattern)>,
    pub color: Option<Color>,
}

/// A compiled filter as values.
pub struct FilterView {
    pub action: FilterAction,
    pub patterns: Seq<(int, Seq<char>)>,
    pub color: Option<Color>,
}

pub open spec fn patterns_view(v: Seq<(usize, Pattern)>) -> Seq<(int, Seq<char>)> {
    v.map_values(|p: (usize, Pattern)| (p.0 as int, p.1@))
}

impl View for LogFilter {
    type V = FilterView;

    open spec fn view(&self) -> FilterView {
        FilterView { action: self.action, patterns: patterns_view(self.filters@), color: self.color }
    }
}

/// The compiled form of a filter definition.
pub open spec fn compile_filter(f: Filter) -> FilterView {
    FilterView { action: f.action, patterns: compiled_patterns(f.filter@), color: f.filter@.color }
}

impl Filter {
    /// Compiles the non-empty field patterns; those that do not compile are
    /// left out.
    pub fn get_filters(&self) -> (r: Vec<(usize, Pattern)>)
        ensures
            patterns_view(r@) == compiled_patterns(self.filter@),
            forall|k: int| 0 <= k < r@.len() ==> (#[trigger] r@[k]).0 < 8,
    {
        let values = self.filter.values();
        let mut r: Vec<(usize, Pattern)> = Vec::new();
        let mut k: usize = 0;
        while k < 7
            invariant
                k <= 7,
                values@.len() == 7,
                forall|j: int| 0 <= j < 7 ==> (#[trigger] values@[j]).1@ == self.filter@.fields[value_positions()[j]],
                patterns_view(r@) == compiled_upto(self.filter@, k as int),
                forall|j: int| 0 <= j < r@.len() ==> (#[trigger] r@[j]).0 < 8,
            decreases 7 - k,
        {
            let pos: usize = if k == 0 { 0 } else { k + 1 };
            assert(pos as int == value_positions()[k as int]);
            let text = values[k].1;
            if !text.as_str().is_empty() {
                match Pattern::new(text.as_str()) {
                    Some(p) => {
                        let ghost before = r@;
                        r.push((pos, p));
                        assert(patterns_view(r@) =~= patterns_view(before).push((pos as int, text@)));
                    },
                    None => {},
                }
            }
            k = k + 1;
        }
        r
    }
}

impl LogFilter {
    /// Compiles a filter definition.
    pub fn from(f: Filter) -> (r: LogFilter)
        ensures
            r@ == compile_filter(f),
            forall|k: int| 0 <= k < r.filters@.len() ==> (#[trigger] r.filters@[k]).0 < 8,
    {
        let filters = f.get_filters();
        LogFilter { action: f.action, filters, color: f.filter.color }
    }
}

/// Whether the filter matches the record: it has at least one pattern, and
/// every pattern matches its field.
pub open spec fn filter_matches(f: FilterView, fields: Seq<Seq<char>>) -> bool {
    &&& f.patterns.len() > 0
    &&& forall|k: int| 0 <= k < f.patterns.len() ==> is_match(
        (#[trigger] f.patterns[k]).1,
        fields[f.patterns[k].0],
    )
}

/// The colour after a matching filter is applied: the filter's, if it has one.
pub open spec fn paint(f: FilterView, color: Option<Color>) -> Option<Color> {
    match f.color {
        Some(c) => Some(c),
        None => color,
    }
}

/// Position of the first filter with `action` that matches the record.
pub open spec fn first_match(fs: Seq<FilterView>, action: FilterAction, r: Seq<Seq<char>>) -> Option<int>
    decreases fs.len(),
{
    if fs.len() == 0 {
        None
    } else {
        match first_match(fs.drop_last(), action, r) {
            Some(i) => Some(i),
            None => if fs.last().action == action && filter_matches(fs.last(), r) {
                Some(fs.len() - 1)
            } else {
                None
            },
        }
    }
}

/// Whether some filter has the given action.
pub open spec fn has_action(fs: Seq<FilterView>, action: FilterAction) -> bool {
    exists|i: int| 0 <= i < fs.len() && (#[trigger] fs[i]).action == action
}

/// The colour after every matching MARKER is applied in order to a record
/// coloured `color`.
pub open spec fn mark(fs: Seq<FilterView>, color: Option<Color>, r: Seq<Seq<char>>) -> Option<Color>
    decreases fs.len(),
{
    if fs.len() == 0 {
        color
    } else {
        let c = mark(fs.drop_last(), color, r);
        if fs.last().action == FilterAction::MARKER && filter_matches(fs.last(), r) {
            paint(fs.last(), c)
        } else {
            c
        }
    }
}

pub open spec fn with_color(r: LineView, color: Option<Color>) -> LineView {
    LineView { fields: r.fields, color }
}

/// What the filter set `fs` does with record `r`: kept, possibly recoloured,
/// or dropped.
pub open spec fn filtered(fs: Seq<FilterView>, r: LineView) -> Option<LineView> {
    match first_match(fs, FilterAction::INCLUDE, r.fields) {
        Some(i) => Some(with_color(r, mark(fs, paint(fs[i], r.color), r.fields))),
        None => if first_match(fs, FilterAction::EXCLUDE, r.fields) is Some {
            None
        } else if !has_action(fs, FilterAction::INCLUDE) {
            Some(with_color(r, mark(fs, r.color, r.fields)))
        } else {
            None
        },
    }
}

pub open spec fn filters_view(fs: Seq<LogFilter>) -> Seq<FilterView> {
    fs.map_values(|f: LogFilter| f@)
}

pub open spec fn well_placed(fs: Seq<LogFilter>) -> bool {
    forall|i: int, k: int| 0 <= i < fs.len() && 0 <= k < fs[i].filters@.len() ==> (#[trigger] fs[i].filters@[k]).0 < 8
}

fn matches_record(f: &LogFilter, log_line: &LogLine) -> (r: bool)
    requires
        forall|k: int| 0 <= k < f.filters@.len() ==> (#[trigger] f.filters@[k]).0 < 8,
    ensures
        r == filter_matches(f@, log_line@.fields),
{
    if f.filters.len() == 0 {
        return false;
    }
    let mut k: usize = 0;
    while k < f.filters.len()
        invariant
            k <= f.filters@.len(),
            forall|k: int| 0 <= k < f.filters@.len() ==> (#[trigger] f.filters@[k]).0 < 8,
            forall|j: int| 0 <= j < k ==> is_match(
                (#[trigger] f@.patterns[j]).1,
                log_line@.fields[f@.patterns[j].0],
            ),
        decreases f.filters@.len() - k,
    {
        let (pos, p) = (f.filters[k].0, &f.filters[k].1);
        if !p.is_match(log_line.field(pos).as_str()) {
            assert(f@.patterns[k as int] == (pos as int, p@));
            return false;
        }
        k = k + 1;
    }
    true
}

/// Whether the filter matches the record; when it does, the record takes
/// the filter's colour, if it has one.
pub fn filter_line(filtering: &LogFilter, log_line: &mut LogLine) -> (r: bool)
    requires
        forall|k: int| 0 <= k < filtering.filters@.len() ==> (#[trigger] filtering.filters@[k]).0 < 8,
    ensures
        r == filter_matches(filtering@, old(log_line)@.fields),
        final(log_line)@ == with_color(
            old(log_line)@,
            if r { paint(filtering@, old(log_line)@.color) } else { old(log_line)@.color },
        ),
{
    let r = matches_record(filtering, log_line);
    if r {
        match filtering.color {
            Some(c) => {
                log_line.color = Some(c);
            },
            None => {},
        }
    }
    r
}

fn apply_markers(filters: &[LogFilter], log_line: &mut LogLine)
    requires
        well_placed(filters@),
    ensures
        final(log_line)@ == with_color(
            old(log_line)@,
            mark(filters_view(filters@), old(log_line)@.color, old(log_line)@.fields),
        ),
{
    let ghost start = log_line@;
    let mut i: usize = 0;
    while i < filters.len()
        invariant
            well_placed(filters@),
            i <= filters@.len(),
            log_line@ == with_color(start, mark(filters_view(filters@).subrange(0, i as int), start.color, start.fields)),
        decreases filters@.len() - i,
    {
        let ghost sub = filters_view(filters@).subrange(0, i + 1);
        assert(sub.drop_last() =~= filters_view(filters@).subrange(0, i as int));
        assert(sub.last() == filters[i as int]@);
        if filters[i].action == FilterAction::MARKER {
            filter_line(&filters[i], log_line);
        }
        i = i + 1;
    }
    assert(filters_view(filters@).subrange(0, i as int) =~= filters_view(filters@));
}

fn find_first(filters: &[LogFilter], action: FilterAction, log_line: &LogLine) -> (r: Option<usize>)
    requires
        well_placed(filters@),
    ensures
        match first_match(filters_view(filters@), action, log_line@.fields) {
            Some(i) => r == Some(i as usize),
            None => r is None,
        },
        r matches Some(i) ==> i < filters@.len() && first_match(filters_view(filters@), action, log_line@.fields) == Some(
            i as int,
        ),
{
    let mut i: usize = 0;
    while i < filters.len()
        invariant
            well_placed(filters@),
            i <= filters@.len(),
            first_match(filters_view(filters@).subrange(0, i as int), action, log_line@.fields) is None,
        decreases filters@.len() - i,
    {
        let ghost sub = filters_view(filters@).subrange(0, i + 1);
        assert(sub.drop_last() =~= filters_view(filters@).subrange(0, i as int));
        assert(sub.last() == filters[i as int]@);
        if filters[i].action == action && matches_record(&filters[i], log_line) {
            proof { lemma_first_match_prefix(filters_view(filters@), action, log_line@.fields, i as int + 1); }
            return Some(i);
        }
        i = i + 1;
    }
    assert(filters_view(filters@).subrange(0, i as int) =~= filters_view(filters@));
    None
}

proof fn lemma_first_match_is_match(fs: Seq<FilterView>, action: FilterAction, r: Seq<Seq<char>>)
    ensures
        first_match(fs, action, r) matches Some(i) ==> 0 <= i < fs.len() && fs[i].action == action
            && filter_matches(fs[i], r),
    decreases fs.len(),
{
    if fs.len() > 0 {
        lemma_first_match_is_match(fs.drop_last(), action, r);
    }
}

/// A first match within a prefix is the first match of the whole sequence.
proof fn lemma_first_match_prefix(fs: Seq<FilterView>, action: FilterAction, r: Seq<Seq<char>>, n: int)
    requires
        0 <= n <= fs.len(),
        first_match(fs.subrange(0, n), action, r) is Some,
    ensures
        first_match(fs, action, r) == first_match(fs.subrange(0, n), action, r),
    decreases fs.len() - n,
{
    if n < fs.len() {
        let sub = fs.subrange(0, n + 1);
        assert(sub.drop_last() =~= fs.subrange(0, n));
        lemma_first_match_prefix(fs, action, r, n + 1);
    } else {
        assert(fs.subrange(0, n) =~= fs);
    }
}

fn any_action(filters: &[LogFilter], action: FilterAction) -> (r: bool)
    ensures
        r == has_action(filters_view(filters@), action),
{
    let mut i: usize = 0;
    while i < filters.len()
        invariant
            i <= filters@.len(),
            forall|j: int| 0 <= j < i ==> (#[trigger] filters_view(filters@)[j]).action != action,
        decreases filters@.len() - i,
    {
        if filters[i].action == action {
            assert(filters_view(filters@)[i as int].action == action);
            return true;
        }
        i = i + 1;
    }
    false
}

/// Applies the priority rules of the (enabled) filters to a record: kept
/// with the colour of the first matching INCLUDE and then of every matching
/// MARKER in order; dropped when it matches an EXCLUDE and no INCLUDE; kept
/// with MARKER colours when no INCLUDE exists; dropped otherwise.
pub fn apply_filters(filters: &[LogFilter], log_line: LogLine) -> (r: Option<LogLine>)
    requires
        well_placed(filters@),
    ensures
        match r {
            Some(l) => filtered(filters_view(filters@), log_line@) == Some(l@),
            None => filtered(filters_view(filters@), log_line@) is None,
        },
{
    let mut log_line = log_line;
    let ghost start = log_line@;
    let has_include = any_action(filters, FilterAction::INCLUDE);
    match find_first(filters, FilterAction::INCLUDE, &log_line) {
        Some(i) => {
            proof { lemma_first_match_is_match(filters_view(filters@), FilterAction::INCLUDE, start.fields); }
            filter_line(&filters[i], &mut log_line);
            assert(log_line@.fields == start.fields);
            apply_markers(filters, &mut log_line);
            return Some(log_line);
        },
        None => {},
    }
    if find_first(filters, FilterAction::EXCLUDE, &log_line).is_some() {
        return None;
    }
    if !has_include {
        apply_markers(filters, &mut log_line);
        return Some(log_line);
    }
    None
}

proof fn lemma_first_match_exists(fs: Seq<FilterView>, action: FilterAction, r: Seq<Seq<char>>)
    ensures
        first_match(fs, action, r) is Some <==> exists|i: int|
            0 <= i < fs.len() && (#[trigger] fs[i]).action == action && filter_matches(fs[i], r),
    decreases fs.len(),
{
    if fs.len() > 0 {
        let prefix = fs.drop_last();
        lemma_first_match_exists(prefix, action, r);
        if exists|i: int| 0 <= i < prefix.len() && (#[trigger] prefix[i]).action == action && filter_matches(prefix[i], r) {
            let i = choose|i: int| 0 <= i < prefix.len() && (#[trigger] prefix[i]).action == action && filter_matches(prefix[i], r);
            assert(fs[i] == prefix[i]);
        }
        if exists|i: int| 0 <= i < fs.len() && (#[trigger] fs[i]).action == action && filter_matches(fs[i], r) {
            let i = choose|i: int| 0 <= i < fs.len() && (#[trigger] fs[i]).action == action && filter_matches(fs[i], r);
            if i < prefix.len() {
                assert(prefix[i] == fs[i]);
            }
        }
    }
}

/// A record is kept exactly when some INCLUDE filter matches it, or when
/// there is no INCLUDE filter and no EXCLUDE filter matches it; a kept record
/// differs from the original in its colour at most.
pub proof fn lemma_filter_priority(fs: Seq<FilterView>, r: LineView)
    ensures
        filtered(fs, r) is Some <==> (exists|i: int|
            0 <= i < fs.len() && (#[trigger] fs[i]).action == FilterAction::INCLUDE && filter_matches(fs[i], r.fields))
            || (!has_action(fs, FilterAction::INCLUDE) && !(exists|i: int|
            0 <= i < fs.len() && (#[trigger] fs[i]).action == FilterAction::EXCLUDE && filter_matches(fs[i], r.fields))),
        filtered(fs, r) matches Some(k) ==> k.fields == r.fields,
{
    lemma_first_match_exists(fs, FilterAction::INCLUDE, r.fields);
    lemma_first_match_exists(fs, FilterAction::EXCLUDE, r.fields);
    if first_match(fs, FilterAction::INCLUDE, r.fields) is None
        && (exists|i: int| 0 <= i < fs.len() && (#[trigger] fs[i]).action == FilterAction::INCLUDE) {
        let i = choose|i: int| 0 <= i < fs.len() && (#[trigger] fs[i]).action == FilterAction::INCLUDE;
        assert(has_action(fs, FilterAction::INCLUDE));
    }
}

proof fn lemma_no_patterns(f: LineView, k: int)
    requires
        0 <= k <= 7,
        forall|j: int| 0 <= j < 7 ==> (#[trigger] f.fields[value_positions()[j]]).len() == 0,
    ensures
        compiled_upto(f, k).len() == 0,
    decreases k,
{
    if k > 0 {
        lemma_no_patterns(f, k - 1);
        assert(f.fields[value_positions()[k - 1]].len() == 0);
    }
}

/// A filter whose field patterns are all empty never matches: as the only
/// filter, an INCLUDE drops every record, an EXCLUDE keeps every record as it
/// is, and a MARKER leaves every record as it is.
pub proof fn lemma_empty_filter(f: Filter, r: LineView)
    requires
        forall|j: int| 0 <= j < 7 ==> (#[trigger] f.filter@.fields[value_positions()[j]]).len() == 0,
    ensures
        !filter_matches(compile_filter(f), r.fields),
        f.action == FilterAction::INCLUDE ==> filtered(seq![compile_filter(f)], r) is None,
        f.action != FilterAction::INCLUDE ==> filtered(seq![compile_filter(f)], r) == Some(r),
{
    lemma_no_patterns(f.filter@, 7);
    let fs = seq![compile_filter(f)];
    lemma_first_match_exists(fs, FilterAction::INCLUDE, r.fields);
    lemma_first_match_exists(fs, FilterAction::EXCLUDE, r.fields);
    assert(fs.drop_last() =~= Seq::<FilterView>::empty());
    if f.action == FilterAction::INCLUDE {
        assert(has_action(fs, FilterAction::INCLUDE)) by {
            assert(fs[0].action == FilterAction::INCLUDE);
        }
    } else {
        assert(!has_action(fs, FilterAction::INCLUDE)) by {
            assert forall|i: int| 0 <= i < fs.len() implies (#[trigger] fs[i]).action != FilterAction::INCLUDE by {
                assert(fs[i] == fs[0]);
            }
        }
        assert(mark(Seq::<FilterView>::empty(), r.color, r.fields) == r.color);
        assert(!filter_matches(fs.last(), r.fields));
        assert(mark(fs, r.color, r.fields) == mark(fs.drop_last(), r.color, r.fields));
        assert(with_color(r, r.color) == r);
    }
}

} // verus!
