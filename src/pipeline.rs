//! The processing pipeline: what a batch of raw lines becomes, chunk by
//! chunk, and the events that announce it.
use vstd::prelude::*;

use crate::analysis_store::{index_value, sorted_by_index};
use crate::filter::{apply_filters, filtered, filters_view, well_placed, FilterView, LogFilter};
use crate::format::{apply_format, format_line};
use crate::log_line::{LineView, LogLine};
use crate::pattern::Pattern;
use crate::search::{apply_search, line_matches};
use crate::text::{decimal_text, lemma_decimal_round_trip};

verus! {

/// What the pipeline announces to its subscribers.
#[derive(Clone, Copy, Debug, PartialEq, Eq, Structural)]
pub enum Event {
    /// Lines `from..=to` of a batch are being processed.
    Processing(usize, usize),
    /// Lines `from..=to` of a batch are in the filtered log.
    NewLines(usize, usize),
    /// Lines `from..=to` of a batch have been searched.
    NewSearchLines(usize, usize),
    /// A filter change is being replayed over a source.
    Filtering,
    /// The replay over a source is done.
    FilterFinished,
    /// A new search runs over the filtered log.
    Searching,
    /// The search is done.
    SearchFinished,
}

/// The record line `line` of source `log` becomes, if the filters keep it.
pub open spec fn keep(
    fs: Seq<FilterView>,
    fmt: Option<Seq<char>>,
    log: Seq<char>,
    line: Seq<char>,
    index: nat,
) -> Seq<LineView> {
    match filtered(fs, format_line(fmt, log, line, index)) {
        Some(r) => seq![r],
        None => Seq::empty(),
    }
}

/// The records a batch of raw lines becomes when its first line has ordinal
/// `start`: each line formatted with its ordinal, then filtered, in order.
pub open spec fn kept(
    fs: Seq<FilterView>,
    fmt: Option<Seq<char>>,
    log: Seq<char>,
    lines: Seq<Seq<char>>,
    start: nat,
) -> Seq<LineView>
    decreases lines.len(),
{
    if lines.len() == 0 {
        Seq::empty()
    } else {
        kept(fs, fmt, log, lines.drop_last(), start) + keep(
            fs,
            fmt,
            log,
            lines.last(),
            (start + lines.len() - 1) as nat,
        )
    }
}

/// The records of `rs` that the search pattern, if there is one, matches.
pub open spec fn searched(query: Option<Seq<char>>, rs: Seq<LineView>) -> Seq<LineView>
    decreases rs.len(),
{
    if rs.len() == 0 {
        Seq::empty()
    } else {
        searched(query, rs.drop_last()) + match query {
            Some(p) => if line_matches(p, rs.last().fields) {
                seq![rs.last()]
            } else {
                Seq::empty()
            },
            None => Seq::empty(),
        }
    }
}

pub open spec fn opt_pattern(p: Option<&Pattern>) -> Option<Seq<char>> {
    match p {
        Some(p) => Some(p@),
        None => None,
    }
}

pub open spec fn owned_pattern(p: Option<Pattern>) -> Option<Seq<char>> {
    match p {
        Some(p) => Some(p@),
        None => None,
    }
}

/// Size of the chunks a batch of `len` lines is cut into for `workers`
/// parallel workers.
pub fn chunk_size(len: usize, workers: usize) -> (r: usize)
    requires
        workers > 0,
    ensures
        r == if len / workers > workers { len / workers } else { workers },
        r > 0,
{
    let per = len / workers;
    if per > workers { per } else { workers }
}

pub proof fn lemma_kept_concat(
    fs: Seq<FilterView>,
    fmt: Option<Seq<char>>,
    log: Seq<char>,
    a: Seq<Seq<char>>,
    b: Seq<Seq<char>>,
    start: nat,
)
    ensures
        kept(fs, fmt, log, a + b, start) == kept(fs, fmt, log, a, start) + kept(fs, fmt, log, b, start + a.len()),
    decreases b.len(),
{
    if b.len() == 0 {
        assert(a + b =~= a);
        assert(kept(fs, fmt, log, a, start) + Seq::<LineView>::empty() =~= kept(fs, fmt, log, a, start));
    } else {
        lemma_kept_concat(fs, fmt, log, a, b.drop_last(), start);
        assert((a + b).drop_last() =~= a + b.drop_last());
        assert((a + b).last() == b.last());
    }
}

pub proof fn lemma_searched_concat(query: Option<Seq<char>>, a: Seq<LineView>, b: Seq<LineView>)
    ensures
        searched(query, a + b) == searched(query, a) + searched(query, b),
    decreases b.len(),
{
    if b.len() == 0 {
        assert(a + b =~= a);
        assert(searched(query, a) + Seq::<LineView>::empty() =~= searched(query, a));
    } else {
        lemma_searched_concat(query, a, b.drop_last());
        assert((a + b).drop_last() =~= a + b.drop_last());
        assert((a + b).last() == b.last());
    }
}

/// Formats, filters and searches the lines `from..to` of a batch whose
/// first line has ordinal `start`. Returns the kept records and, among them,
/// those the search pattern matches, both in line order.
pub fn process_chunk(
    format: &Option<&Pattern>,
    filters: &[LogFilter],
    search: &Option<&Pattern>,
    log: &str,
    lines: &[String],
    start: usize,
    from: usize,
    to: usize,
) -> (r: (Vec<LogLine>, Vec<LogLine>))
    requires
        well_placed(filters@),
        from <= to <= lines@.len(),
        start + lines@.len() <= usize::MAX + 1,
    ensures
        crate::analysis_store::lines_view(r.0@) == kept(
            filters_view(filters@),
            opt_pattern(*format),
            log@,
            lines.deep_view().subrange(from as int, to as int),
            (start + from) as nat,
        ),
        crate::analysis_store::lines_view(r.1@) == searched(
            opt_pattern(*search),
            crate::analysis_store::lines_view(r.0@),
        ),
{
    let ghost fs = filters_view(filters@);
    let ghost fmt = opt_pattern(*format);
    let ghost q = opt_pattern(*search);
    let mut kept_lines: Vec<LogLine> = Vec::new();
    let mut found: Vec<LogLine> = Vec::new();
    let mut k: usize = from;
    proof {
        assert(lines.deep_view().subrange(from as int, from as int) =~= Seq::<Seq<char>>::empty());
        assert(crate::analysis_store::lines_view(kept_lines@) =~= Seq::<LineView>::empty());
        assert(crate::analysis_store::lines_view(found@) =~= Seq::<LineView>::empty());
    }
    while k < to
        invariant
            well_placed(filters@),
            fs == filters_view(filters@),
            fmt == opt_pattern(*format),
            q == opt_pattern(*search),
            from <= k <= to <= lines@.len(),
            start + lines@.len() <= usize::MAX + 1,
            crate::analysis_store::lines_view(kept_lines@) == kept(
                fs,
                fmt,
                log@,
                lines.deep_view().subrange(from as int, k as int),
                (start + from) as nat,
            ),
            crate::analysis_store::lines_view(found@) == searched(q, crate::analysis_store::lines_view(kept_lines@)),
        decreases to - k,
    {
        let ghost sub = lines.deep_view().subrange(from as int, k + 1);
        assert(sub.drop_last() =~= lines.deep_view().subrange(from as int, k as int));
        assert(sub.last() == lines@[k as int]@);
        let ghost kept_before = crate::analysis_store::lines_view(kept_lines@);
        let ghost found_before = crate::analysis_store::lines_view(found@);
        let record = apply_format(format, log, lines[k].as_str(), start + k);
        match apply_filters(filters, record) {
            Some(l) => {
                let hit = match search {
                    Some(p) => apply_search(p, &l),
                    None => false,
                };
                if hit {
                    found.push(l.duplicate());
                }
                kept_lines.push(l);
                proof {
                    assert(crate::analysis_store::lines_view(kept_lines@) =~= kept_before.push(l@));
                    lemma_searched_concat(q, kept_before, seq![l@]);
                    assert(seq![l@].drop_last() =~= Seq::<LineView>::empty());
                    assert(searched(q, Seq::<LineView>::empty()) == Seq::<LineView>::empty());
                    assert(kept_before.push(l@) =~= kept_before + seq![l@]);
                    if hit {
                        assert(crate::analysis_store::lines_view(found@) =~= found_before + seq![l@]);
                    } else {
                        assert(crate::analysis_store::lines_view(found@) =~= found_before + Seq::<LineView>::empty());
                    }
                }
            },
            None => {
                proof {
                    assert(kept_before + Seq::<LineView>::empty() =~= kept_before);
                }
            },
        }
        k = k + 1;
    }
    (kept_lines, found)
}

/// A kept record carries the batch's source id and an ordinal of the batch,
/// and kept records come in strictly ascending order of ordinal.
pub proof fn lemma_batch_indices(
    fs: Seq<FilterView>,
    fmt: Option<Seq<char>>,
    log: Seq<char>,
    lines: Seq<Seq<char>>,
    start: nat,
)
    ensures
        forall|k: int| 0 <= k < kept(fs, fmt, log, lines, start).len() ==> {
            let r = #[trigger] kept(fs, fmt, log, lines, start)[k];
            &&& r.fields[0] == log
            &&& number_of(r) is Some
            &&& start <= index_value(r) < start + lines.len()
        },
        sorted_by_index(kept(fs, fmt, log, lines, start)),
    decreases lines.len(),
{
    if lines.len() > 0 {
        let prefix = lines.drop_last();
        let i = (start + lines.len() - 1) as nat;
        lemma_batch_indices(fs, fmt, log, prefix, start);
        let a = kept(fs, fmt, log, prefix, start);
        let b = keep(fs, fmt, log, lines.last(), i);
        let all = kept(fs, fmt, log, lines, start);
        assert(all == a + b);
        if b.len() > 0 {
            let r = b[0];
            lemma_format_line_fields(fmt, log, lines.last(), i);
            crate::filter::lemma_filter_priority(fs, format_line(fmt, log, lines.last(), i));
            assert(r.fields == format_line(fmt, log, lines.last(), i).fields);
            lemma_decimal_round_trip(i);
        }
        assert forall|k: int| 0 <= k < all.len() implies {
            let r = #[trigger] all[k];
            &&& r.fields[0] == log
            &&& number_of(r) is Some
            &&& start <= index_value(r) < start + lines.len()
        } by {
            if k < a.len() {
                assert(all[k] == a[k]);
            } else {
                assert(all[k] == b[k - a.len()]);
            }
        }
        assert forall|x: int, y: int| 0 <= x < y < all.len() implies index_value(#[trigger] all[x]) < index_value(
            #[trigger] all[y],
        ) by {
            if y < a.len() {
                assert(all[x] == a[x] && all[y] == a[y]);
            } else {
                assert(all[x] == a[x]);
                assert(all[y] == b[0]);
            }
        }
    }
}

/// A log that is in ascending order of ordinal and whose ordinals are all
/// below `start` stays in ascending order when the records of a batch of the
/// same source starting at `start` are appended. So the records of one
/// source, fed batch after batch, are always in ascending order.
pub proof fn lemma_append_batch_sorted(
    log_so_far: Seq<LineView>,
    fs: Seq<FilterView>,
    fmt: Option<Seq<char>>,
    source: Seq<char>,
    lines: Seq<Seq<char>>,
    start: nat,
)
    requires
        sorted_by_index(log_so_far),
        forall|k: int| 0 <= k < log_so_far.len() ==> index_value(#[trigger] log_so_far[k]) < start,
    ensures
        sorted_by_index(log_so_far + kept(fs, fmt, source, lines, start)),
{
    lemma_batch_indices(fs, fmt, source, lines, start);
    let b = kept(fs, fmt, source, lines, start);
    let all = log_so_far + b;
    assert forall|x: int, y: int| 0 <= x < y < all.len() implies index_value(#[trigger] all[x]) < index_value(
        #[trigger] all[y],
    ) by {
        if y < log_so_far.len() {
            assert(all[x] == log_so_far[x] && all[y] == log_so_far[y]);
        } else if x < log_so_far.len() {
            assert(all[x] == log_so_far[x] && all[y] == b[y - log_so_far.len()]);
        } else {
            assert(all[x] == b[x - log_so_far.len()] && all[y] == b[y - log_so_far.len()]);
        }
    }
}

/// With no filter at all, every line of a batch is kept, as formatted.
pub proof fn lemma_no_filters_keep_all(fmt: Option<Seq<char>>, log: Seq<char>, lines: Seq<Seq<char>>, start: nat)
    ensures
        kept(Seq::empty(), fmt, log, lines, start).len() == lines.len(),
        forall|k: int| 0 <= k < lines.len() ==> #[trigger] kept(Seq::empty(), fmt, log, lines, start)[k]
            == format_line(fmt, log, lines[k], (start + k) as nat),
    decreases lines.len(),
{
    if lines.len() > 0 {
        let prefix = lines.drop_last();
        lemma_no_filters_keep_all(fmt, log, prefix, start);
        let i = (start + lines.len() - 1) as nat;
        let r = format_line(fmt, log, lines.last(), i);
        let fs = Seq::<FilterView>::empty();
        assert(kept_as_is(fs, r)) by {
            assert(crate::filter::first_match(fs, crate::filter::FilterAction::INCLUDE, r.fields) is None);
            assert(crate::filter::first_match(fs, crate::filter::FilterAction::EXCLUDE, r.fields) is None);
            assert(!crate::filter::has_action(fs, crate::filter::FilterAction::INCLUDE));
            assert(crate::filter::mark(fs, r.color, r.fields) == r.color);
        }
        assert(filtered(fs, r) == Some(r));
        let all = kept(fs, fmt, log, lines, start);
        assert forall|k: int| 0 <= k < lines.len() implies #[trigger] all[k] == format_line(
            fmt,
            log,
            lines[k],
            (start + k) as nat,
        ) by {
            if k < prefix.len() {
                assert(lines[k] == prefix[k]);
            }
        }
    }
}

/// The filters keep the record exactly as it is.
spec fn kept_as_is(fs: Seq<FilterView>, r: LineView) -> bool {
    filtered(fs, r) == Some(r)
}

/// Without a search pattern nothing is searched.
pub proof fn lemma_no_search(rs: Seq<LineView>)
    ensures
        searched(None, rs).len() == 0,
    decreases rs.len(),
{
    if rs.len() > 0 {
        lemma_no_search(rs.drop_last());
    }
}

/// Positions in `rs` of the records that `searched` keeps.
pub open spec fn searched_positions(query: Option<Seq<char>>, rs: Seq<LineView>) -> Seq<int>
    decreases rs.len(),
{
    if rs.len() == 0 {
        Seq::empty()
    } else {
        searched_positions(query, rs.drop_last()) + match query {
            Some(p) => if line_matches(p, rs.last().fields) {
                seq![rs.len() - 1]
            } else {
                Seq::empty()
            },
            None => Seq::empty(),
        }
    }
}

/// `a` is `b` with some records left out: strictly increasing positions of
/// `b` hold the records of `a`.
pub open spec fn is_subsequence(a: Seq<LineView>, b: Seq<LineView>) -> bool {
    exists|pos: Seq<int>|
        pos.len() == a.len() && (forall|i: int| 0 <= i < pos.len() ==> 0 <= #[trigger] pos[i] < b.len() && b[pos[i]]
            == a[i]) && (forall|i: int, j: int| 0 <= i < j < pos.len() ==> #[trigger] pos[i] < #[trigger] pos[j])
}

proof fn lemma_searched_positions(query: Option<Seq<char>>, rs: Seq<LineView>)
    ensures
        searched_positions(query, rs).len() == searched(query, rs).len(),
        forall|i: int| 0 <= i < searched_positions(query, rs).len() ==> 0 <= #[trigger] searched_positions(query, rs)[i] < rs.len()
            && rs[searched_positions(query, rs)[i]] == searched(query, rs)[i],
        forall|i: int, j: int| 0 <= i < j < searched_positions(query, rs).len() ==> #[trigger] searched_positions(query, rs)[i]
            < #[trigger] searched_positions(query, rs)[j],
    decreases rs.len(),
{
    if rs.len() > 0 {
        let prefix = rs.drop_last();
        lemma_searched_positions(query, prefix);
        let p = searched_positions(query, rs);
        let s = searched(query, rs);
        let pp = searched_positions(query, prefix);
        let ps = searched(query, prefix);
        assert forall|i: int| 0 <= i < p.len() implies 0 <= #[trigger] p[i] < rs.len() && rs[p[i]] == s[i] by {
            if i < pp.len() {
                assert(p[i] == pp[i]);
                assert(s[i] == ps[i]);
                assert(rs[pp[i]] == prefix[pp[i]]);
            }
        }
        assert forall|i: int, j: int| 0 <= i < j < p.len() implies #[trigger] p[i] < #[trigger] p[j] by {
            if j < pp.len() {
                assert(p[i] == pp[i] && p[j] == pp[j]);
            } else {
                assert(p[i] == pp[i]);
            }
        }
    }
}

/// What a search keeps of a list of records is a subsequence of it.
pub proof fn lemma_searched_subsequence(query: Option<Seq<char>>, rs: Seq<LineView>)
    ensures
        is_subsequence(searched(query, rs), rs),
{
    lemma_searched_positions(query, rs);
    let pos = searched_positions(query, rs);
    assert(pos.len() == searched(query, rs).len());
}

pub open spec fn number_of(r: LineView) -> Option<nat> {
    crate::text::number_value(r.fields[1])
}

proof fn lemma_format_line_fields(fmt: Option<Seq<char>>, log: Seq<char>, line: Seq<char>, index: nat)
    ensures
        format_line(fmt, log, line, index).fields[0] == log,
        format_line(fmt, log, line, index).fields[1] == decimal_text(index),
        format_line(fmt, log, line, index).fields.len() == 8,
{
}

} // verus!
