//! The processed side: the filtered log, the search log and the current
//! search query, with windowed and centred range queries.
use vstd::prelude::*;

use crate::log_line::{LineView, LogLine};
use crate::text::{number_value, parse_number};

verus! {

/// The views of a list of records.
pub open spec fn lines_view(v: Seq<LogLine>) -> Seq<LineView> {
    v.map_values(|l: LogLine| l@)
}

/// The numeric value of a record's `index` (0 when it is not a number).
pub open spec fn index_value(l: LineView) -> nat {
    match number_value(l.fields[1]) {
        Some(v) => v,
        None => 0,
    }
}

/// Whether a record's `index` is a number that fits a `usize`.
pub open spec fn has_index(l: LineView) -> bool {
    number_value(l.fields[1]) matches Some(v) && v <= usize::MAX
}

/// Every record has a numeric `index`.
pub open spec fn all_indexed(s: Seq<LineView>) -> bool {
    forall|i: int| 0 <= i < s.len() ==> has_index(#[trigger] s[i])
}

/// Records are in strictly ascending order of `index`.
pub open spec fn sorted_by_index(s: Seq<LineView>) -> bool {
    forall|i: int, j: int| 0 <= i < j < s.len() ==> index_value(#[trigger] s[i]) < index_value(#[trigger] s[j])
}

/// The half-open slice `from..to` of `s`, both ends clamped to its length;
/// empty when `from` is not below `to`.
pub open spec fn clamped(s: Seq<LineView>, from: int, to: int) -> Seq<LineView> {
    let f = if from < s.len() { from } else { s.len() as int };
    let t = if to < s.len() { to } else { s.len() as int };
    if f < t {
        s.subrange(f, t)
    } else {
        Seq::empty()
    }
}

/// Start of the window of `elements` records centred on position `p`.
pub open spec fn window_start(p: int, elements: int) -> int {
    if elements / 2 < p { p - elements / 2 } else { 0 }
}

/// End of the window of `elements` records centred on position `p` in a log
/// of `len` records.
pub open spec fn window_end(p: int, elements: int, len: int) -> int {
    if p + elements / 2 < len { p + elements / 2 } else { len }
}

/// The processed lines.
pub struct InMemmoryAnalysisStore {
    log: Vec<LogLine>,
    search_query: Option<String>,
    search_log: Vec<LogLine>,
}

fn parse_index(l: &LogLine) -> (r: usize)
    requires
        has_index(l@),
    ensures
        r as nat == index_value(l@),
{
    parse_number(l.index.as_str(), usize::MAX).unwrap()
}

/// Position of the first record whose `index` is not below the target's:
/// where the target is, or where it would be inserted, in a sorted log.
pub fn find_sorted_index(source: &[LogLine], element: &LogLine) -> (r: usize)
    requires
        all_indexed(lines_view(source@)),
        has_index(element@),
    ensures
        r <= source@.len(),
        sorted_by_index(lines_view(source@)) ==> (forall|j: int| 0 <= j < r ==> index_value(
            #[trigger] lines_view(source@)[j],
        ) < index_value(element@)) && (forall|j: int| r <= j < source@.len() ==> index_value(element@)
            <= index_value(#[trigger] lines_view(source@)[j])),
{
    let target = parse_index(element);
    let ghost s = lines_view(source@);
    let mut lo: usize = 0;
    let mut hi: usize = source.len();
    while lo < hi
        invariant
            s == lines_view(source@),
            all_indexed(s),
            lo <= hi <= source@.len(),
            target as nat == index_value(element@),
            sorted_by_index(s) ==> forall|j: int| 0 <= j < lo ==> index_value(#[trigger] s[j]) < target,
            sorted_by_index(s) ==> forall|j: int| hi <= j < s.len() ==> target <= index_value(#[trigger] s[j]),
        decreases hi - lo,
    {
        let mid = lo + (hi - lo) / 2;
        assert(s[mid as int] == source@[mid as int]@);
        let v = parse_index(&source[mid]);
        if v < target {
            proof {
                if sorted_by_index(s) {
                    assert forall|j: int| 0 <= j < mid + 1 implies index_value(#[trigger] s[j]) < target by {
                        if j < mid {
                            assert(index_value(s[j]) < index_value(s[mid as int]));
                        }
                    }
                }
            }
            lo = mid + 1;
        } else {
            proof {
                if sorted_by_index(s) {
                    assert forall|j: int| mid <= j < s.len() implies target <= index_value(#[trigger] s[j]) by {
                        if j > mid {
                            assert(index_value(s[mid as int]) < index_value(s[j]));
                        }
                    }
                }
            }
            hi = mid;
        }
    }
    lo
}

fn copy_range(source: &[LogLine], from: usize, to: usize) -> (r: Vec<LogLine>)
    requires
        from <= to <= source@.len(),
    ensures
        lines_view(r@) == lines_view(source@).subrange(from as int, to as int),
{
    let mut r: Vec<LogLine> = Vec::new();
    let mut i: usize = from;
    while i < to
        invariant
            from <= i <= to,
            to <= source@.len(),
            lines_view(r@) == lines_view(source@).subrange(from as int, i as int),
        decreases to - i,
    {
        let ghost before = r@;
        let x = source[i].duplicate();
        r.push(x);
        assert(lines_view(r@) =~= lines_view(before).push(source@[i as int]@));
        assert(lines_view(source@).subrange(from as int, i + 1) =~= lines_view(source@).subrange(
            from as int,
            i as int,
        ).push(source@[i as int]@));
        i = i + 1;
    }
    r
}

/// Copy of the clamped slice `from..to` of `source`.
pub fn clamped_lines(source: &[LogLine], from: usize, to: usize) -> (r: Vec<LogLine>)
    ensures
        lines_view(r@) == clamped(lines_view(source@), from as int, to as int),
{
    let len = source.len();
    let f = if from < len { from } else { len };
    let t = if to < len { to } else { len };
    if f < t {
        copy_range(source, f, t)
    } else {
        let r: Vec<LogLine> = Vec::new();
        assert(lines_view(r@) =~= Seq::<LineView>::empty());
        r
    }
}

/// The window of `elements` records centred on the position of `line`
/// (found by binary search on `index`): the records, the position of the
/// first of them, and the position of `line` inside the window.
pub fn find_rolling_window(source: &[LogLine], line: &LogLine, elements: usize) -> (r: (Vec<LogLine>, usize, usize))
    requires
        all_indexed(lines_view(source@)),
        has_index(line@),
    ensures
        exists|p: int| #![auto]
            0 <= p <= source@.len() && r.1 == window_start(p, elements as int) && lines_view(r.0@)
                == lines_view(source@).subrange(
                window_start(p, elements as int),
                window_end(p, elements as int, source@.len() as int),
            ) && (sorted_by_index(lines_view(source@)) ==> (forall|j: int| 0 <= j < p ==> index_value(
                #[trigger] lines_view(source@)[j],
            ) < index_value(line@)) && (forall|j: int| p <= j < source@.len() ==> index_value(line@)
                <= index_value(#[trigger] lines_view(source@)[j])) && r.2 == p - r.1),
        r.2 <= r.0@.len(),
{
    let closest = find_sorted_index(source, line);
    let half = elements / 2;
    let from = if half < closest { closest - half } else { 0 };
    let to = if half < source.len() - closest { closest + half } else { source.len() };
    let lines = copy_range(source, from, to);
    proof {
        let s = lines_view(source@);
        let w = lines_view(lines@);
        assert forall|j: int| 0 <= j < w.len() implies has_index(#[trigger] w[j]) by {
            assert(w[j] == s[from + j]);
        }
        if sorted_by_index(s) {
            assert forall|i: int, j: int| 0 <= i < j < w.len() implies index_value(#[trigger] w[i]) < index_value(
                #[trigger] w[j],
            ) by {
                assert(w[i] == s[from + i]);
                assert(w[j] == s[from + j]);
            }
        }
    }
    let index = find_sorted_index(lines.as_slice(), line);
    proof {
        let s = lines_view(source@);
        let w = lines_view(lines@);
        assert(from == window_start(closest as int, elements as int));
        assert(to == window_end(closest as int, elements as int, s.len() as int));
        if sorted_by_index(s) {
            assert(sorted_by_index(w));
            // both searches find the same record: the window is a slice of
            // the log that holds position `closest`
            if index + from < closest {
                assert(index_value(w[index as int]) == index_value(s[index + from]));
            }
            if index + from > closest {
                assert(index_value(w[index - 1]) == index_value(s[index - 1 + from]));
            }
            assert(index == closest - from);
        }
        let p = closest as int;
        assert(0 <= p <= source@.len() && from == window_start(p, elements as int) && w == s.subrange(
            window_start(p, elements as int),
            window_end(p, elements as int, source@.len() as int),
        ) && (sorted_by_index(s) ==> (forall|j: int| 0 <= j < p ==> index_value(#[trigger] s[j]) < index_value(line@))
            && (forall|j: int| p <= j < source@.len() ==> index_value(line@) <= index_value(#[trigger] s[j]))
            && index == p - from));
    }
    (lines, from, index)
}

impl InMemmoryAnalysisStore {
    /// An empty store with no search query.
    pub fn new() -> (r: InMemmoryAnalysisStore)
        ensures
            r.log_view().len() == 0,
            r.search_view().len() == 0,
            r.query_view() is None,
    {
        InMemmoryAnalysisStore { log: Vec::new(), search_query: None, search_log: Vec::new() }
    }

    /// The filtered log.
    pub closed spec fn log_view(&self) -> Seq<LineView> {
        lines_view(self.log@)
    }

    /// The search log.
    pub closed spec fn search_view(&self) -> Seq<LineView> {
        lines_view(self.search_log@)
    }

    /// The current search query.
    pub closed spec fn query_view(&self) -> Option<Seq<char>> {
        match self.search_query {
            Some(q) => Some(q@),
            None => None,
        }
    }

    /// Appends records to the filtered log, in order.
    pub fn add_lines(&mut self, lines: &[LogLine])
        ensures
            final(self).log_view() == old(self).log_view() + lines_view(lines@),
            final(self).search_view() == old(self).search_view(),
            final(self).query_view() == old(self).query_view(),
    {
        append_lines(&mut self.log, lines);
    }

    /// Appends records to the search log, in order.
    pub fn add_search_lines(&mut self, lines: &[LogLine])
        ensures
            final(self).search_view() == old(self).search_view() + lines_view(lines@),
            final(self).log_view() == old(self).log_view(),
            final(self).query_view() == old(self).query_view(),
    {
        append_lines(&mut self.search_log, lines);
    }

    /// Replaces the search query.
    pub fn add_search_query(&mut self, query: &String)
        ensures
            final(self).query_view() == Some(query@),
            final(self).log_view() == old(self).log_view(),
            final(self).search_view() == old(self).search_view(),
    {
        self.search_query = Some(query.clone());
    }

    /// The current search query.
    pub fn get_search_query(&self) -> (r: Option<String>)
        ensures
            match r {
                Some(q) => self.query_view() == Some(q@),
                None => self.query_view() is None,
            },
    {
        match &self.search_query {
            Some(q) => Some(q.clone()),
            None => None,
        }
    }

    /// Empties the filtered log.
    pub fn reset_log(&mut self)
        ensures
            final(self).log_view().len() == 0,
            final(self).search_view() == old(self).search_view(),
            final(self).query_view() == old(self).query_view(),
    {
        self.log.clear();
    }

    /// Empties the search log.
    pub fn reset_search(&mut self)
        ensures
            final(self).search_view().len() == 0,
            final(self).log_view() == old(self).log_view(),
            final(self).query_view() == old(self).query_view(),
    {
        self.search_log.clear();
    }

    /// The filtered log itself.
    pub fn fetch_log(&self) -> (r: &[LogLine])
        ensures
            lines_view(r@) == self.log_view(),
    {
        self.log.as_slice()
    }

    /// The search log itself.
    pub fn fetch_search(&self) -> (r: &[LogLine])
        ensures
            lines_view(r@) == self.search_view(),
    {
        self.search_log.as_slice()
    }

    /// Copy of the filtered records `from..to`, clamped to the log; never
    /// fails.
    pub fn get_log_lines(&self, from: usize, to: usize) -> (r: Vec<LogLine>)
        ensures
            lines_view(r@) == clamped(self.log_view(), from as int, to as int),
    {
        clamped_lines(self.log.as_slice(), from, to)
    }

    /// Copy of the searched records `from..to`, clamped to the log; never
    /// fails.
    pub fn get_search_lines(&self, from: usize, to: usize) -> (r: Vec<LogLine>)
        ensures
            lines_view(r@) == clamped(self.search_view(), from as int, to as int),
    {
        clamped_lines(self.search_log.as_slice(), from, to)
    }

    /// Window of `elements` filtered records around `line` (see
    /// `find_rolling_window`).
    pub fn get_log_lines_containing(&self, line: &LogLine, elements: usize) -> (r: (Vec<LogLine>, usize, usize))
        requires
            all_indexed(self.log_view()),
            has_index(line@),
        ensures
            exists|p: int| #![auto]
                0 <= p <= self.log_view().len() && r.1 == window_start(p, elements as int) && lines_view(r.0@)
                    == self.log_view().subrange(
                    window_start(p, elements as int),
                    window_end(p, elements as int, self.log_view().len() as int),
                ) && (sorted_by_index(self.log_view()) ==> (forall|j: int| 0 <= j < p ==> index_value(
                    #[trigger] self.log_view()[j],
                ) < index_value(line@)) && (forall|j: int| p <= j < self.log_view().len() ==> index_value(line@)
                    <= index_value(#[trigger] self.log_view()[j])) && r.2 == p - r.1),
    {
        find_rolling_window(self.log.as_slice(), line, elements)
    }

    /// Window of `elements` searched records around `line` (see
    /// `find_rolling_window`).
    pub fn get_search_lines_containing(&self, line: &LogLine, elements: usize) -> (r: (Vec<LogLine>, usize, usize))
        requires
            all_indexed(self.search_view()),
            has_index(line@),
        ensures
            exists|p: int| #![auto]
                0 <= p <= self.search_view().len() && r.1 == window_start(p, elements as int) && lines_view(r.0@)
                    == self.search_view().subrange(
                    window_start(p, elements as int),
                    window_end(p, elements as int, self.search_view().len() as int),
                ) && (sorted_by_index(self.search_view()) ==> (forall|j: int| 0 <= j < p ==> index_value(
                    #[trigger] self.search_view()[j],
                ) < index_value(line@)) && (forall|j: int| p <= j < self.search_view().len() ==> index_value(line@)
                    <= index_value(#[trigger] self.search_view()[j])) && r.2 == p - r.1),
    {
        find_rolling_window(self.search_log.as_slice(), line, elements)
    }

    /// Number of filtered records.
    pub fn get_total_filtered_lines(&self) -> (r: usize)
        ensures
            r == self.log_view().len(),
    {
        self.log.len()
    }

    /// Number of searched records.
    pub fn get_total_searched_lines(&self) -> (r: usize)
        ensures
            r == self.search_view().len(),
    {
        self.search_log.len()
    }
}

fn append_lines(v: &mut Vec<LogLine>, lines: &[LogLine])
    ensures
        lines_view(final(v)@) == lines_view(old(v)@) + lines_view(lines@),
{
    let ghost start = lines_view(v@);
    let mut i: usize = 0;
    while i < lines.len()
        invariant
            i <= lines@.len(),
            lines_view(v@) == start + lines_view(lines@).subrange(0, i as int),
        decreases lines@.len() - i,
    {
        let ghost before = v@;
        let x = lines[i].duplicate();
        v.push(x);
        assert(lines_view(v@) =~= lines_view(before).push(lines@[i as int]@));
        assert(lines_view(lines@).subrange(0, i + 1) =~= lines_view(lines@).subrange(0, i as int).push(
            lines@[i as int]@,
        ));
        i = i + 1;
    }
    assert(lines_view(lines@).subrange(0, i as int) =~= lines_view(lines@));
}

} // verus!
