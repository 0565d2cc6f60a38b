//! The engine behind the front end: ingestion of raw batches, filter
//! changes replayed over the retained raw lines, searches, and queries.
use vstd::prelude::*;

use crate::analysis_store::{
    all_indexed, clamped, has_index, index_value, lines_view, sorted_by_index, window_end, window_start,
    InMemmoryAnalysisStore,
};
use crate::filter::{compiled_patterns, filters_view, well_placed, Filter, FilterView, LogFilter};
use crate::format::{Format, FormatError};
use crate::log_line::{LineView, LogLine};
use crate::log_store::{lines_of, opt_text, position, registered, unique_ids, with_lines, with_registration, EntryView, InMemmoryLogStore};
use crate::pattern::{compiles, Pattern};
use crate::pipeline::{chunk_size, kept, lemma_searched_concat, owned_pattern, process_chunk, searched, Event};
use crate::processing_store::{format_of, with_filter, with_format, with_toggled, FilterEntryView, InMemmoryProcessingStore};
use crate::pattern::{capture_result, group_names};
use crate::search::{apply_search, field_spans, format_search, plain_styled};
use crate::styled::LogLineStyled;

verus! {

/// Kind of a log source, as chosen by its selector position.
#[allow(non_camel_case_types)]
#[derive(Clone, Copy, Debug, PartialEq, Eq, Structural)]
pub enum SourceType {
    /// A file, tailed from where it was left.
    FILE,
    /// A TCP line stream.
    WS,
}

impl SourceType {
    /// 0 is a file, 1 a TCP stream; any other code is refused.
    pub fn try_from(value: usize) -> (r: Result<SourceType, ()>)
        ensures
            value == 0 ==> r == Ok::<SourceType, ()>(SourceType::FILE),
            value == 1 ==> r == Ok::<SourceType, ()>(SourceType::WS),
            value > 1 ==> r is Err,
    {
        if value == 0 {
            Ok(SourceType::FILE)
        } else if value == 1 {
            Ok(SourceType::WS)
        } else {
            Err(())
        }
    }

    /// The selector position of this kind.
    pub fn code(&self) -> (r: usize)
        ensures
            r == (match self {
                SourceType::FILE => 0usize,
                SourceType::WS => 1usize,
            }),
    {
        match self {
            SourceType::FILE => 0,
            SourceType::WS => 1,
        }
    }
}

/// The compiled filters of the enabled entries, in order.
pub open spec fn active_filters(fs: Seq<FilterEntryView>) -> Seq<FilterView>
    decreases fs.len(),
{
    if fs.len() == 0 {
        Seq::empty()
    } else {
        let rest = active_filters(fs.drop_last());
        let (_, action, f, enabled) = fs.last();
        if enabled {
            rest.push(FilterView { action, patterns: compiled_patterns(f), color: f.color })
        } else {
            rest
        }
    }
}

/// The search pattern in force: the query, when it compiles.
pub open spec fn active_query(q: Option<Seq<char>>) -> Option<Seq<char>> {
    match q {
        Some(p) => if compiles(p) { Some(p) } else { None },
        None => None,
    }
}

/// The pattern that lines of source `id` are parsed with: the pattern of
/// the format bound to it, when that compiles.
pub open spec fn source_format<S>(es: Seq<EntryView<S>>, formats: Seq<(Seq<char>, Seq<char>)>, id: Seq<char>) -> Option<Seq<char>> {
    let alias = match position(es, id) {
        Some(i) => es[i].format,
        None => None,
    };
    match alias {
        Some(a) => active_query(format_of(formats, a)),
        None => None,
    }
}

/// The filtered log a filter replay builds: for each registered source in
/// order that is enabled, its retained raw lines processed afresh from
/// ordinal 0.
pub open spec fn replay<S>(
    fs: Seq<FilterView>,
    regs: Seq<(bool, Seq<char>, Option<Seq<char>>)>,
    es: Seq<EntryView<S>>,
    formats: Seq<(Seq<char>, Seq<char>)>,
) -> Seq<LineView>
    decreases regs.len(),
{
    if regs.len() == 0 {
        Seq::empty()
    } else {
        let (enabled, id, _) = regs.last();
        replay(fs, regs.drop_last(), es, formats) + if enabled {
            kept(fs, source_format(es, formats, id), id, lines_of(es, id), 0)
        } else {
            Seq::empty()
        }
    }
}

/// The events of a batch of `n` lines whose first ordinal is `first`.
pub open spec fn batch_events(first: nat, n: nat) -> Seq<Event> {
    if n == 0 {
        Seq::empty()
    } else {
        let last = (first + n - 1) as usize;
        seq![
            Event::Processing(first as usize, last),
            Event::NewLines(first as usize, last),
            Event::NewSearchLines(first as usize, last),
        ]
    }
}

/// The events of a filter replay: per enabled source, `FilterFinished`
/// alone when it holds no lines, else `Filtering`, the batch events of its
/// lines from ordinal 0, and `FilterFinished`.
pub open spec fn replay_events<S>(regs: Seq<(bool, Seq<char>, Option<Seq<char>>)>, es: Seq<EntryView<S>>) -> Seq<Event>
    decreases regs.len(),
{
    if regs.len() == 0 {
        Seq::empty()
    } else {
        let (enabled, id, _) = regs.last();
        let n = lines_of(es, id).len();
        replay_events(regs.drop_last(), es) + if !enabled {
            Seq::empty()
        } else if n == 0 {
            seq![Event::FilterFinished]
        } else {
            seq![Event::Filtering] + batch_events(0, n) + seq![Event::FilterFinished]
        }
    }
}

/// Every record carries a numeric ordinal below the number of raw lines
/// held for its source, and the records of each source are in strictly
/// ascending order of ordinal.
pub open spec fn ordered_by_source<S>(log: Seq<LineView>, es: Seq<EntryView<S>>) -> bool {
    &&& forall|i: int| 0 <= i < log.len() ==> has_index(#[trigger] log[i]) && index_value(log[i]) < lines_of(
        es,
        log[i].fields[0],
    ).len()
    &&& forall|i: int, j: int| 0 <= i < j < log.len() && (#[trigger] log[i]).fields[0] == (#[trigger] log[j]).fields[0]
        ==> index_value(log[i]) < index_value(log[j])
}

/// The order is kept when raw lines only grow.
proof fn lemma_ordered_lines_grow<S>(log: Seq<LineView>, es: Seq<EntryView<S>>, es2: Seq<EntryView<S>>)
    requires
        ordered_by_source(log, es),
        forall|t: Seq<char>| lines_of(es, t).len() <= #[trigger] lines_of(es2, t).len(),
    ensures
        ordered_by_source(log, es2),
{
    assert forall|i: int| 0 <= i < log.len() implies has_index(#[trigger] log[i]) && index_value(log[i]) < lines_of(
        es2,
        log[i].fields[0],
    ).len() by {
        assert(lines_of(es, log[i].fields[0]).len() <= lines_of(es2, log[i].fields[0]).len());
    }
}

/// Appending the records of a batch of `source` whose first ordinal is the
/// number of lines held before it keeps the order.
proof fn lemma_ordered_after_batch<S>(
    log: Seq<LineView>,
    es: Seq<EntryView<S>>,
    fs: Seq<FilterView>,
    fmt: Option<Seq<char>>,
    source: Seq<char>,
    lines: Seq<Seq<char>>,
)
    requires
        ordered_by_source(log, es),
        unique_ids(es),
        lines_of(es, source).len() + lines.len() <= usize::MAX,
    ensures
        ordered_by_source(
            log + kept(fs, fmt, source, lines, lines_of(es, source).len()),
            with_lines(es, source, lines),
        ),
{
    let start = lines_of(es, source).len();
    let k = kept(fs, fmt, source, lines, start);
    let es2 = with_lines(es, source, lines);
    let all = log + k;
    crate::pipeline::lemma_batch_indices(fs, fmt, source, lines, start);
    assert forall|t: Seq<char>| lines_of(es, t).len() <= #[trigger] lines_of(es2, t).len() by {
        crate::log_store::lemma_lines_of_with_lines(es, source, lines, t);
    }
    crate::log_store::lemma_lines_of_with_lines(es, source, lines, source);
    lemma_ordered_lines_grow(log, es, es2);
    assert forall|i: int| 0 <= i < all.len() implies has_index(#[trigger] all[i]) && index_value(all[i]) < lines_of(
        es2,
        all[i].fields[0],
    ).len() by {
        if i >= log.len() {
            assert(all[i] == k[i - log.len()]);
        } else {
            assert(all[i] == log[i]);
        }
    }
    assert forall|i: int, j: int| 0 <= i < j < all.len() && (#[trigger] all[i]).fields[0] == (#[trigger] all[j]).fields[0]
        implies index_value(all[i]) < index_value(all[j]) by {
        if j < log.len() {
            assert(all[i] == log[i] && all[j] == log[j]);
        } else if i < log.len() {
            assert(all[i] == log[i] && all[j] == k[j - log.len()]);
        } else {
            assert(all[i] == k[i - log.len()] && all[j] == k[j - log.len()]);
        }
    }
}

/// Lines held per id after the buffer of `id` is emptied.
proof fn lemma_lines_of_extracted<S>(es: Seq<EntryView<S>>, id: Seq<char>, t: Seq<char>)
    requires
        unique_ids(es),
    ensures
        ({
            let es2 = match position(es, id) {
                Some(i) => es.update(i, EntryView { lines: Seq::empty(), ..es[i] }),
                None => es,
            };
            &&& unique_ids(es2)
            &&& lines_of(es2, t) == if t == id { Seq::<Seq<char>>::empty() } else { lines_of(es, t) }
        }),
{
    crate::log_store::lemma_position_facts(es, id);
    match position(es, id) {
        Some(i) => {
            let es2 = es.update(i, EntryView { lines: Seq::empty(), ..es[i] });
            assert forall|k: int| 0 <= k < es.len() implies (#[trigger] es2[k]).id == es[k].id by {}
            crate::log_store::lemma_same_ids(es, es2, t);
            crate::log_store::lemma_same_ids(es, es2, id);
        },
        None => {},
    }
}

/// The engine: raw-line store, processing definitions and processed logs.
/// `S` is the runtime handle kept for each source.
pub struct LogService<S> {
    log_store: InMemmoryLogStore<S>,
    processing_store: InMemmoryProcessingStore,
    analysis_store: InMemmoryAnalysisStore,
    /// Number of workers a batch is partitioned for.
    workers: usize,
}

impl<S> LogService<S> {
    /// Raw lines and source registrations.
    pub closed spec fn raw(&self) -> Seq<EntryView<S>> {
        self.log_store@
    }

    /// `(alias, pattern)` of every format.
    pub closed spec fn formats(&self) -> Seq<(Seq<char>, Seq<char>)> {
        self.processing_store.formats_view()
    }

    /// Every filter with its enabled flag.
    pub closed spec fn filter_entries(&self) -> Seq<FilterEntryView> {
        self.processing_store.filters_view()
    }

    /// The filtered log.
    pub closed spec fn filtered_log(&self) -> Seq<LineView> {
        self.analysis_store.log_view()
    }

    /// The search log.
    pub closed spec fn search_log(&self) -> Seq<LineView> {
        self.analysis_store.search_view()
    }

    /// The search query.
    pub closed spec fn query(&self) -> Option<Seq<char>> {
        self.analysis_store.query_view()
    }

    /// The engine's invariant: the stores are well formed, and the search log
    /// is exactly the part of the filtered log that the search in force
    /// matches.
    pub closed spec fn wf(&self) -> bool {
        &&& self.workers > 0
        &&& self.log_store.wf()
        &&& self.processing_store.wf()
        &&& self.search_log() == searched(active_query(self.query()), self.filtered_log())
        &&& ordered_by_source(self.filtered_log(), self.raw())
    }

    closed spec fn wf_stores(&self) -> bool {
        &&& self.workers > 0
        &&& self.log_store.wf()
        &&& self.processing_store.wf()
    }

    /// An engine with nothing registered, that partitions batches for
    /// `workers` workers.
    pub fn with_workers(workers: usize) -> (r: LogService<S>)
        requires
            workers > 0,
        ensures
            r.wf(),
            r.raw().len() == 0,
            r.formats().len() == 0,
            r.filter_entries().len() == 0,
            r.filtered_log().len() == 0,
            r.search_log().len() == 0,
            r.query() is None,
    {
        let mut r = LogService::new();
        r.workers = workers;
        r
    }

    /// An engine with nothing registered.
    pub fn new() -> (r: LogService<S>)
        ensures
            r.wf(),
            r.raw().len() == 0,
            r.formats().len() == 0,
            r.filter_entries().len() == 0,
            r.filtered_log().len() == 0,
            r.search_log().len() == 0,
            r.query() is None,
    {
        let r = LogService {
            log_store: InMemmoryLogStore::new(),
            processing_store: InMemmoryProcessingStore::new(),
            analysis_store: InMemmoryAnalysisStore::new(),
            workers: 1,
        };
        assert(r.filtered_log() =~= Seq::<LineView>::empty());
        assert(r.search_log() =~= Seq::<LineView>::empty());
        assert(searched(active_query(r.query()), Seq::<LineView>::empty()) == Seq::<LineView>::empty());
        r
    }

    fn pattern_of(&self, alias: &Option<String>) -> (r: Option<Pattern>)
        requires
            self.processing_store.wf(),
        ensures
            owned_pattern(r) == match opt_text(*alias) {
                Some(a) => active_query(format_of(self.formats(), a)),
                None => None,
            },
    {
        match alias {
            Some(a) => match self.processing_store.get_format(a.as_str()) {
                Some(p) => Pattern::new(p.as_str()),
                None => None,
            },
            None => None,
        }
    }

    fn search_pattern(&self) -> (r: Option<Pattern>)
        ensures
            owned_pattern(r) == active_query(self.query()),
    {
        match self.analysis_store.get_search_query() {
            Some(q) => Pattern::new(q.as_str()),
            None => None,
        }
    }

    fn enabled_filters(&self) -> (r: Vec<LogFilter>)
        ensures
            filters_view(r@) == active_filters(self.filter_entries()),
            well_placed(r@),
    {
        let all = self.processing_store.get_filters();
        let ghost fes = self.filter_entries();
        let mut r: Vec<LogFilter> = Vec::new();
        let mut i: usize = 0;
        while i < all.len()
            invariant
                i <= all@.len(),
                all@.len() == fes.len(),
                forall|k: int| 0 <= k < all@.len() ==> {
                    let (e, f) = #[trigger] all@[k];
                    fes[k] == (f.alias@, f.action, f.filter@, e)
                },
                filters_view(r@) == active_filters(fes.subrange(0, i as int)),
                well_placed(r@),
            decreases all@.len() - i,
        {
            let ghost sub = fes.subrange(0, i + 1);
            assert(sub.drop_last() =~= fes.subrange(0, i as int));
            assert(sub.last() == fes[i as int]);
            let (enabled, f) = (all[i].0, &all[i].1);
            if enabled {
                let ghost before = r@;
                let lf = LogFilter::from(Filter { alias: f.alias.clone(), action: f.action, filter: f.filter.duplicate() });
                r.push(lf);
                assert(filters_view(r@) =~= filters_view(before).push(lf@));
            }
            i = i + 1;
        }
        assert(fes.subrange(0, i as int) =~= fes);
        r
    }

    /// Takes in a batch of raw lines of source `source`: the lines are kept
    /// in its raw buffer and get the next ordinals; each is formatted,
    /// filtered and searched, and the results are appended in order. Returns
    /// the batch's events (none for an empty batch).
    pub fn ingest(&mut self, source: &str, lines: Vec<String>) -> (events: Vec<Event>)
        requires
            old(self).wf(),
        ensures
            final(self).wf(),
            final(self).raw() == with_lines(old(self).raw(), source@, lines.deep_view()),
            final(self).filtered_log() == old(self).filtered_log() + kept(
                active_filters(old(self).filter_entries()),
                source_format(old(self).raw(), old(self).formats(), source@),
                source@,
                lines.deep_view(),
                lines_of(old(self).raw(), source@).len(),
            ),
            final(self).formats() == old(self).formats(),
            final(self).filter_entries() == old(self).filter_entries(),
            final(self).query() == old(self).query(),
            events@ == batch_events(lines_of(old(self).raw(), source@).len(), lines@.len() as nat),
    {
        let ghost old_raw = self.log_store@;
        let range = self.log_store.add_lines(source, lines.as_slice());
        proof {
            assert(lines_of(self.log_store@, source@) == lines_of(old_raw, source@) + lines.deep_view()) by {
                let es = self.log_store@;
                match position(old_raw, source@) {
                    Some(i) => {
                        crate::log_store::lemma_position(es, source@, i);
                    },
                    None => {
                        crate::log_store::lemma_position(es, source@, old_raw.len() as int);
                        assert(Seq::<Seq<char>>::empty() + lines.deep_view() =~= lines.deep_view());
                    },
                }
            }
        }
        let alias = self.log_store.get_format(source);
        proof {
            assert(opt_text(alias) == match position(old_raw, source@) {
                Some(i) => old_raw[i].format,
                None => None,
            }) by {
                let es = self.log_store@;
                match position(old_raw, source@) {
                    Some(i) => {
                        crate::log_store::lemma_position(es, source@, i);
                    },
                    None => {
                        crate::log_store::lemma_position(es, source@, old_raw.len() as int);
                    },
                }
            }
        }
        let mut events: Vec<Event> = Vec::new();
        if lines.len() == 0 {
            assert(lines.deep_view() =~= Seq::<Seq<char>>::empty());
            assert(self.filtered_log() =~= self.filtered_log() + Seq::<LineView>::empty());
            proof {
                assert forall|t: Seq<char>| lines_of(old_raw, t).len() <= #[trigger] lines_of(self.raw(), t).len() by {
                    crate::log_store::lemma_lines_of_with_lines(old_raw, source@, lines.deep_view(), t);
                }
                lemma_ordered_lines_grow(self.filtered_log(), old_raw, self.raw());
            }
            return events;
        }
        let first = range.start;
        let last = range.end - 1;
        events.push(Event::Processing(first, last));
        let format = self.pattern_of(&alias);
        let filters = self.enabled_filters();
        let search = self.search_pattern();
        let ghost q = active_query(self.query());
        let ghost fs = active_filters(self.filter_entries());
        let ghost fmt = source_format(old_raw, self.formats(), source@);
        let ghost all = lines.deep_view();
        let ghost log_before = self.filtered_log();
        let n = lines.len();
        let size = chunk_size(n, self.workers);
        let mut pos: usize = 0;
        proof {
            assert(all.subrange(0, 0) =~= Seq::<Seq<char>>::empty());
            assert(log_before + Seq::<LineView>::empty() =~= log_before);
        }
        // Chunks are processed and committed in order.
        while pos < n
            invariant
                pos <= n,
                n == lines@.len(),
                all == lines.deep_view(),
                size > 0,
                first as int == lines_of(old_raw, source@).len(),
                first + n <= usize::MAX + 1,
                self.wf_stores(),
                self.query() == old(self).query(),
                self.formats() == old(self).formats(),
                self.filter_entries() == old(self).filter_entries(),
                self.log_store@ == with_lines(old_raw, source@, lines.deep_view()),
                q == active_query(self.query()),
                fs == active_filters(self.filter_entries()),
                filters_view(filters@) == fs,
                well_placed(filters@),
                owned_pattern(format) == fmt,
                owned_pattern(search) == q,
                self.filtered_log() == log_before + kept(fs, fmt, source@, all.subrange(0, pos as int), first as nat),
                self.search_log() == searched(q, self.filtered_log()),
            decreases n - pos,
        {
            let end = if size < n - pos { pos + size } else { n };
            let (chunk_kept, chunk_found) = process_chunk(
                &format.as_ref(),
                filters.as_slice(),
                &search.as_ref(),
                source,
                lines.as_slice(),
                first,
                pos,
                end,
            );
            let ghost log_mid = self.filtered_log();
            self.analysis_store.add_lines(chunk_kept.as_slice());
            self.analysis_store.add_search_lines(chunk_found.as_slice());
            proof {
                lemma_searched_concat(q, log_mid, lines_view(chunk_kept@));
                crate::pipeline::lemma_kept_concat(
                    fs,
                    fmt,
                    source@,
                    all.subrange(0, pos as int),
                    all.subrange(pos as int, end as int),
                    first as nat,
                );
                assert(all.subrange(0, pos as int) + all.subrange(pos as int, end as int) =~= all.subrange(0, end as int));
                assert(log_before + kept(fs, fmt, source@, all.subrange(0, pos as int), first as nat) + lines_view(chunk_kept@)
                    =~= log_before + (kept(fs, fmt, source@, all.subrange(0, pos as int), first as nat) + lines_view(chunk_kept@)));
            }
            pos = end;
        }
        assert(all.subrange(0, n as int) =~= all);
        proof {
            crate::log_store::lemma_lines_of_with_lines(old_raw, source@, lines.deep_view(), source@);
            lemma_ordered_after_batch(log_before, old_raw, fs, fmt, source@, lines.deep_view());
        }
        events.push(Event::NewLines(first, last));
        events.push(Event::NewSearchLines(first, last));
        assert(events@ =~= batch_events(lines_of(old_raw, source@).len(), lines@.len() as nat));
        events
    }

    /// Flips filter `id` and rebuilds the processed logs: both are cleared,
    /// then every enabled source's retained raw lines are taken out and fed
    /// again through the pipeline, from ordinal 0. The raw lines end as they
    /// were.
    pub fn toggle_filter(&mut self, id: &str) -> (events: Vec<Event>)
        requires
            old(self).wf(),
        ensures
            final(self).wf(),
            final(self).raw() == old(self).raw(),
            final(self).filter_entries() == with_toggled(old(self).filter_entries(), id@),
            final(self).formats() == old(self).formats(),
            final(self).query() == old(self).query(),
            final(self).filtered_log() == replay(
                active_filters(final(self).filter_entries()),
                registered(old(self).raw()),
                old(self).raw(),
                old(self).formats(),
            ),
            events@ == replay_events(registered(old(self).raw()), old(self).raw()),
    {
        self.processing_store.toggle_filter(id);
        self.analysis_store.reset_log();
        self.analysis_store.reset_search();
        assert(self.filtered_log() =~= Seq::<LineView>::empty());
        assert(self.search_log() =~= Seq::<LineView>::empty());
        assert(searched(active_query(self.query()), Seq::<LineView>::empty()) == Seq::<LineView>::empty());
        let logs = self.log_store.get_logs();
        let ghost raw0 = self.raw();
        let ghost regs = registered(raw0);
        let ghost fs = active_filters(self.filter_entries());
        let ghost entries0 = self.filter_entries();
        let ghost formats0 = self.formats();
        let ghost query0 = self.query();
        let mut events: Vec<Event> = Vec::new();
        let mut k: usize = 0;
        proof {
            assert(regs.subrange(0, 0) =~= Seq::<(bool, Seq<char>, Option<Seq<char>>)>::empty());
            crate::log_store::lemma_registered_distinct(raw0, raw0.len() as int);
        }
        while k < logs.len()
            invariant
                self.wf(),
                self.raw() == raw0,
                self.filter_entries() == entries0,
                self.formats() == formats0,
                self.query() == query0,
                fs == active_filters(entries0),
                regs == registered(raw0),
                k <= logs@.len(),
                logs@.len() == regs.len(),
                forall|j: int| 0 <= j < logs@.len() ==> {
                    let (e, i, f) = #[trigger] logs@[j];
                    regs[j] == (e, i@, opt_text(f))
                },
                self.filtered_log() == replay(fs, regs.subrange(0, k as int), raw0, formats0),
                events@ == replay_events(regs.subrange(0, k as int), raw0),
                unique_ids(raw0),
                forall|a: int, b: int| 0 <= a < b < regs.len() ==> (#[trigger] regs[a]).1 != (#[trigger] regs[b]).1,
                forall|i: int, j: int| 0 <= i < self.filtered_log().len() && k <= j < regs.len() ==> (
                #[trigger] self.filtered_log()[i]).fields[0] != (#[trigger] regs[j]).1,
            decreases logs@.len() - k,
        {
            let ghost sub = regs.subrange(0, k + 1);
            assert(sub.drop_last() =~= regs.subrange(0, k as int));
            assert(sub.last() == regs[k as int]);
            let enabled = logs[k].0;
            let src = logs[k].1.as_str();
            let ghost log_before = self.filtered_log();
            let ghost events_before = events@;
            if enabled {
                let lines = self.log_store.extract_lines(src);
                let ghost raw1 = self.raw();
                proof {
                    match position(raw0, src@) {
                        Some(i) => {
                            crate::log_store::lemma_position(raw1, src@, i);
                        },
                        None => {},
                    }
                    let log = self.filtered_log();
                    assert forall|i: int| 0 <= i < log.len() implies has_index(#[trigger] log[i]) && index_value(log[i])
                        < lines_of(raw1, log[i].fields[0]).len() by {
                        lemma_lines_of_extracted(raw0, src@, log[i].fields[0]);
                        assert(log[i].fields[0] != regs[k as int].1);
                    }
                }
                if lines.len() == 0 {
                    proof {
                        match position(raw0, src@) {
                            Some(i) => {
                                assert(raw0[i].lines =~= Seq::<Seq<char>>::empty());
                                assert(raw1 =~= raw0);
                            },
                            None => {},
                        }
                        assert(lines.deep_view() =~= Seq::<Seq<char>>::empty());
                        assert(self.filtered_log() =~= log_before + Seq::<LineView>::empty());
                    }
                    events.push(Event::FilterFinished);
                } else {
                    events.push(Event::Filtering);
                    let mut batch = self.ingest(src, lines);
                    events.append(&mut batch);
                    events.push(Event::FilterFinished);
                    proof {
                        lemma_lines_of_extracted(raw0, src@, src@);
                        let added = kept(fs, source_format(raw1, formats0, src@), src@, lines_of(raw0, src@), 0);
                        crate::pipeline::lemma_batch_indices(fs, source_format(raw1, formats0, src@), src@, lines_of(raw0, src@), 0);
                        let log = self.filtered_log();
                        assert forall|i: int, j: int| 0 <= i < log.len() && k + 1 <= j < regs.len() implies (
                            #[trigger] log[i]).fields[0] != (#[trigger] regs[j]).1 by {
                            if i >= log_before.len() {
                                assert(log[i] == added[i - log_before.len()]);
                                assert(regs[k as int].1 != regs[j].1);
                            } else {
                                assert(log[i] == log_before[i]);
                            }
                        }
                        match position(raw0, src@) {
                            Some(i) => {
                                assert(Seq::<Seq<char>>::empty() + raw0[i].lines =~= raw0[i].lines);
                                assert(self.raw() =~= raw0);
                            },
                            None => {},
                        }
                    }
                }
            } else {
                assert(self.filtered_log() =~= log_before + Seq::<LineView>::empty());
                assert(events@ =~= events_before + Seq::<Event>::empty());
            }
            k = k + 1;
        }
        assert(regs.subrange(0, k as int) =~= regs);
        events
    }

    /// Starts a search for `regex`. A pattern that does not compile changes
    /// nothing. Otherwise it becomes the query, and the search log is
    /// rebuilt from the filtered records it matches.
    pub fn add_search(&mut self, regex: &String) -> (events: Vec<Event>)
        requires
            old(self).wf(),
        ensures
            final(self).wf(),
            final(self).raw() == old(self).raw(),
            final(self).formats() == old(self).formats(),
            final(self).filter_entries() == old(self).filter_entries(),
            final(self).filtered_log() == old(self).filtered_log(),
            !compiles(regex@) ==> final(self).query() == old(self).query() && final(self).search_log()
                == old(self).search_log(),
            compiles(regex@) ==> final(self).query() == Some(regex@) && final(self).search_log() == searched(
                Some(regex@),
                old(self).filtered_log(),
            ),
            events@ == if compiles(regex@) && old(self).filtered_log().len() > 0 {
                seq![Event::Searching, Event::SearchFinished]
            } else {
                Seq::empty()
            },
    {
        let mut events: Vec<Event> = Vec::new();
        match Pattern::new(regex.as_str()) {
            None => {
                assert(events@ =~= Seq::<Event>::empty());
                events
            },
            Some(p) => {
                self.analysis_store.add_search_query(regex);
                self.analysis_store.reset_search();
                let found = search_lines(&p, self.analysis_store.fetch_log());
                if found.len() == 0 && self.analysis_store.get_total_filtered_lines() == 0 {
                    assert(self.search_log() =~= searched(Some(regex@), self.filtered_log()));
                    assert(events@ =~= Seq::<Event>::empty());
                    return events;
                }
                events.push(Event::Searching);
                self.analysis_store.add_search_lines(found.as_slice());
                assert(self.search_log() =~= searched(Some(regex@), self.filtered_log()));
                events.push(Event::SearchFinished);
                assert(events@ =~= seq![Event::Searching, Event::SearchFinished]);
                events
            },
        }
    }

    /// Registers a format. Fails when the alias or the pattern is empty, or
    /// the pattern does not compile.
    pub fn add_format(&mut self, alias: &String, regex: &String) -> (r: Result<(), FormatError>)
        requires
            old(self).wf(),
        ensures
            final(self).wf(),
            (alias@.len() == 0 || regex@.len() == 0) ==> r == Err::<(), FormatError>(FormatError::Empty),
            (alias@.len() > 0 && regex@.len() > 0 && !compiles(regex@)) ==> r == Err::<(), FormatError>(
                FormatError::InvalidPattern,
            ),
            r is Ok <==> alias@.len() > 0 && regex@.len() > 0 && compiles(regex@),
            r is Ok ==> final(self).formats() == with_format(old(self).formats(), alias@, regex@),
            r is Err ==> final(self).formats() == old(self).formats(),
            final(self).raw() == old(self).raw(),
            final(self).filter_entries() == old(self).filter_entries(),
            final(self).filtered_log() == old(self).filtered_log(),
            final(self).search_log() == old(self).search_log(),
            final(self).query() == old(self).query(),
    {
        match Format::new(alias, regex) {
            Ok(format) => {
                self.processing_store.add_format(format.alias, format.regex);
                Ok(())
            },
            Err(e) => Err(e),
        }
    }

    /// Stores a filter definition, disabled.
    pub fn add_filter(&mut self, filter: Filter)
        requires
            old(self).wf(),
        ensures
            final(self).wf(),
            final(self).filter_entries() == with_filter(
                old(self).filter_entries(),
                (filter.alias@, filter.action, filter.filter@, false),
            ),
            final(self).raw() == old(self).raw(),
            final(self).formats() == old(self).formats(),
            final(self).filtered_log() == old(self).filtered_log(),
            final(self).search_log() == old(self).search_log(),
            final(self).query() == old(self).query(),
    {
        self.processing_store.add_filter(filter.alias, filter.filter, filter.action, false);
    }

    /// Registers source `id` as enabled, with its runtime handle and the
    /// alias of the format its lines are parsed with.
    pub fn add_log(&mut self, id: &str, handle: S, format: Option<&String>)
        requires
            old(self).wf(),
        ensures
            final(self).wf(),
            final(self).raw() == with_registration(
                old(self).raw(),
                id@,
                handle,
                match format {
                    Some(f) => Some(f@),
                    None => None,
                },
                true,
            ),
            final(self).formats() == old(self).formats(),
            final(self).filter_entries() == old(self).filter_entries(),
            final(self).filtered_log() == old(self).filtered_log(),
            final(self).search_log() == old(self).search_log(),
            final(self).query() == old(self).query(),
    {
        let ghost old_raw = self.raw();
        let ghost fmt = match format {
            Some(f) => Some(f@),
            None => None,
        };
        self.log_store.add_log(id, handle, format, true);
        proof {
            assert forall|t: Seq<char>| lines_of(old_raw, t).len() <= #[trigger] lines_of(self.raw(), t).len() by {
                crate::log_store::lemma_lines_of_with_registration(old_raw, id@, handle, fmt, true, t);
            }
            lemma_ordered_lines_grow(self.filtered_log(), old_raw, self.raw());
        }
    }

    /// Flips the enabled flag of source `id`.
    pub fn toggle_source(&mut self, id: &str)
        requires
            old(self).wf(),
        ensures
            final(self).wf(),
            final(self).raw() == match position(old(self).raw(), id@) {
                Some(i) => match old(self).raw()[i].enabled {
                    Some(e) => old(self).raw().update(i, EntryView { enabled: Some(!e), ..old(self).raw()[i] }),
                    None => old(self).raw(),
                },
                None => old(self).raw(),
            },
            final(self).formats() == old(self).formats(),
            final(self).filter_entries() == old(self).filter_entries(),
            final(self).filtered_log() == old(self).filtered_log(),
            final(self).search_log() == old(self).search_log(),
            final(self).query() == old(self).query(),
    {
        let ghost old_raw = self.raw();
        self.log_store.toggle_log(id);
        proof {
            let es2 = self.raw();
            crate::log_store::lemma_position_facts(old_raw, id@);
            assert forall|t: Seq<char>| lines_of(old_raw, t).len() <= #[trigger] lines_of(es2, t).len() by {
                assert forall|k: int| 0 <= k < old_raw.len() implies (#[trigger] es2[k]).id == old_raw[k].id by {}
                crate::log_store::lemma_same_ids(old_raw, es2, t);
                crate::log_store::lemma_position_facts(old_raw, t);
            }
            lemma_ordered_lines_grow(self.filtered_log(), old_raw, es2);
        }
    }

    /// The runtime handle of source `id`.
    pub fn get_source(&self, id: &str) -> (r: Option<&S>)
        requires
            self.wf(),
        ensures
            match position(self.raw(), id@) {
                Some(i) => match self.raw()[i].source {
                    Some(s) => r == Some(&s),
                    None => r is None,
                },
                None => r is None,
            },
    {
        self.log_store.get_source(id)
    }

    /// Filtered records `from..to`, clamped; never fails.
    pub fn get_log_lines(&self, from: usize, to: usize) -> (r: Vec<LogLine>)
        ensures
            lines_view(r@) == clamped(self.filtered_log(), from as int, to as int),
    {
        self.analysis_store.get_log_lines(from, to)
    }

    /// Searched records `from..to`, clamped; never fails.
    pub fn get_search_lines(&self, from: usize, to: usize) -> (r: Vec<LogLine>)
        ensures
            lines_view(r@) == clamped(self.search_log(), from as int, to as int),
    {
        self.analysis_store.get_search_lines(from, to)
    }

    /// Searched records `from..to`, clamped, each annotated with the named
    /// groups of the search in force (whole fields when there is none).
    pub fn get_search_lines_styled(&self, from: usize, to: usize) -> (r: Vec<LogLineStyled>)
        ensures
            r@.len() == clamped(self.search_log(), from as int, to as int).len(),
            forall|k: int, i: int| 0 <= k < r@.len() && 0 <= i < 8 ==> (#[trigger] r@[k]@.fields[i]) == match active_query(self.query()) {
                Some(p) => field_spans(
                    clamped(self.search_log(), from as int, to as int)[k].fields[i],
                    group_names(p),
                    capture_result(p, clamped(self.search_log(), from as int, to as int)[k].fields[i]),
                ),
                None => field_spans(clamped(self.search_log(), from as int, to as int)[k].fields[i], Seq::empty(), None),
            },
            forall|k: int| 0 <= k < r@.len() ==> (#[trigger] r@[k]@).color == clamped(self.search_log(), from as int, to as int)[k].color,
    {
        let lines = self.analysis_store.get_search_lines(from, to);
        let search = self.search_pattern();
        let ghost want = clamped(self.search_log(), from as int, to as int);
        let mut r: Vec<LogLineStyled> = Vec::new();
        let mut k: usize = 0;
        while k < lines.len()
            invariant
                k <= lines@.len(),
                lines_view(lines@) == want,
                owned_pattern(search) == active_query(self.query()),
                r@.len() == k,
                forall|j: int, i: int| 0 <= j < k && 0 <= i < 8 ==> (#[trigger] r@[j]@.fields[i]) == match active_query(self.query()) {
                    Some(p) => field_spans(want[j].fields[i], group_names(p), capture_result(p, want[j].fields[i])),
                    None => field_spans(want[j].fields[i], Seq::empty(), None),
                },
                forall|j: int| 0 <= j < k ==> (#[trigger] r@[j]@).color == want[j].color,
            decreases lines@.len() - k,
        {
            assert(want[k as int] == lines@[k as int]@);
            let styled = match &search {
                Some(p) => format_search(p, &lines[k]),
                None => plain_styled(&lines[k]),
            };
            r.push(styled);
            k = k + 1;
        }
        r
    }

    /// Window of `elements` filtered records around `line`.
    pub fn get_log_lines_containing(&self, line: &LogLine, elements: usize) -> (r: (Vec<LogLine>, usize, usize))
        requires
            self.wf(),
            has_index(line@),
        ensures
            exists|p: int| #![auto]
                0 <= p <= self.filtered_log().len() && r.1 == window_start(p, elements as int) && lines_view(r.0@)
                    == self.filtered_log().subrange(
                    window_start(p, elements as int),
                    window_end(p, elements as int, self.filtered_log().len() as int),
                ) && (sorted_by_index(self.filtered_log()) ==> (forall|j: int| 0 <= j < p ==> crate::analysis_store::index_value(
                    #[trigger] self.filtered_log()[j],
                ) < crate::analysis_store::index_value(line@)) && (forall|j: int| p <= j < self.filtered_log().len()
                    ==> crate::analysis_store::index_value(line@) <= crate::analysis_store::index_value(
                    #[trigger] self.filtered_log()[j],
                )) && r.2 == p - r.1),
    {
        proof {
            lemma_logs_indexed(self);
        }
        self.analysis_store.get_log_lines_containing(line, elements)
    }

    /// Window of `elements` searched records around `line`.
    pub fn get_search_lines_containing(&self, line: &LogLine, elements: usize) -> (r: (Vec<LogLine>, usize, usize))
        requires
            self.wf(),
            has_index(line@),
        ensures
            exists|p: int| #![auto]
                0 <= p <= self.search_log().len() && r.1 == window_start(p, elements as int) && lines_view(r.0@)
                    == self.search_log().subrange(
                    window_start(p, elements as int),
                    window_end(p, elements as int, self.search_log().len() as int),
                ) && (sorted_by_index(self.search_log()) ==> (forall|j: int| 0 <= j < p ==> crate::analysis_store::index_value(
                    #[trigger] self.search_log()[j],
                ) < crate::analysis_store::index_value(line@)) && (forall|j: int| p <= j < self.search_log().len()
                    ==> crate::analysis_store::index_value(line@) <= crate::analysis_store::index_value(
                    #[trigger] self.search_log()[j],
                )) && r.2 == p - r.1),
    {
        proof {
            lemma_logs_indexed(self);
        }
        self.analysis_store.get_search_lines_containing(line, elements)
    }

    /// `(enabled, id, format)` of every registered source.
    pub fn get_logs(&self) -> (r: Vec<(bool, String, Option<String>)>)
        ensures
            r@.len() == registered(self.raw()).len(),
            forall|k: int| 0 <= k < r@.len() ==> {
                let (e, id, f) = #[trigger] r@[k];
                registered(self.raw())[k] == (e, id@, opt_text(f))
            },
    {
        self.log_store.get_logs()
    }

    /// Every format.
    pub fn get_formats(&self) -> (r: Vec<Format>)
        ensures
            r@.len() == self.formats().len(),
            forall|k: int| 0 <= k < r@.len() ==> ((#[trigger] r@[k]).alias@, r@[k].regex@) == self.formats()[k],
    {
        self.processing_store.get_formats()
    }

    /// Every filter with its enabled flag.
    pub fn get_filters(&self) -> (r: Vec<(bool, Filter)>)
        ensures
            r@.len() == self.filter_entries().len(),
            forall|k: int| 0 <= k < r@.len() ==> {
                let (e, f) = #[trigger] r@[k];
                self.filter_entries()[k] == (f.alias@, f.action, f.filter@, e)
            },
    {
        self.processing_store.get_filters()
    }

    /// Number of raw lines held, over all sources (at most `usize::MAX`).
    pub fn get_total_raw_lines(&self) -> (r: usize)
        ensures
            r == if crate::log_store::total_upto(self.raw(), self.raw().len() as int) <= usize::MAX {
                crate::log_store::total_upto(self.raw(), self.raw().len() as int)
            } else {
                usize::MAX as nat
            },
    {
        self.log_store.get_total_lines()
    }

    /// Number of filtered records.
    pub fn get_total_filtered_lines(&self) -> (r: usize)
        ensures
            r == self.filtered_log().len(),
    {
        self.analysis_store.get_total_filtered_lines()
    }

    /// Number of searched records.
    pub fn get_total_searched_lines(&self) -> (r: usize)
        ensures
            r == self.search_log().len(),
    {
        self.analysis_store.get_total_searched_lines()
    }
}

/// The search log is always a subsequence of the filtered log: the records
/// of the filtered log that the search in force matches, in order.
pub proof fn lemma_search_log_subsequence<S>(svc: &LogService<S>)
    requires
        svc.wf(),
    ensures
        svc.search_log() == searched(active_query(svc.query()), svc.filtered_log()),
        crate::pipeline::is_subsequence(svc.search_log(), svc.filtered_log()),
{
    crate::pipeline::lemma_searched_subsequence(active_query(svc.query()), svc.filtered_log());
}

/// Every record of the filtered and search logs has a numeric ordinal.
pub proof fn lemma_logs_indexed<S>(svc: &LogService<S>)
    requires
        svc.wf(),
    ensures
        all_indexed(svc.filtered_log()),
        all_indexed(svc.search_log()),
{
    let log = svc.filtered_log();
    let q = active_query(svc.query());
    crate::pipeline::lemma_searched_subsequence(q, log);
    let found = searched(q, log);
    let pos = choose|pos: Seq<int>|
        pos.len() == found.len() && (forall|i: int| 0 <= i < pos.len() ==> 0 <= #[trigger] pos[i] < log.len() && log[pos[i]]
            == found[i]) && (forall|i: int, j: int| 0 <= i < j < pos.len() ==> #[trigger] pos[i] < #[trigger] pos[j]);
    assert forall|i: int| 0 <= i < found.len() implies has_index(#[trigger] found[i]) by {
        assert(log[pos[i]] == found[i]);
    }
}

/// The records of each source are in strictly ascending order of ordinal;
/// so when all records come from one source, the whole filtered log is.
pub proof fn lemma_filtered_log_sorted<S>(svc: &LogService<S>, source: Seq<char>)
    requires
        svc.wf(),
        forall|i: int| 0 <= i < svc.filtered_log().len() ==> (#[trigger] svc.filtered_log()[i]).fields[0] == source,
    ensures
        sorted_by_index(svc.filtered_log()),
{
    let log = svc.filtered_log();
    assert forall|i: int, j: int| 0 <= i < j < log.len() implies index_value(#[trigger] log[i]) < index_value(
        #[trigger] log[j],
    ) by {
        assert(log[i].fields[0] == source && log[j].fields[0] == source);
    }
}

/// With no enabled filter and no search in force, the search log is empty;
/// and a batch then adds every one of its lines to the filtered log, each
/// as formatted (see `ingest` and `lemma_no_filters_keep_all`).
pub proof fn lemma_no_filters_no_search<S>(svc: &LogService<S>)
    requires
        svc.wf(),
        active_filters(svc.filter_entries()).len() == 0,
        active_query(svc.query()) is None,
    ensures
        svc.search_log().len() == 0,
        active_filters(svc.filter_entries()) == Seq::<FilterView>::empty(),
{
    crate::pipeline::lemma_no_search(svc.filtered_log());
    assert(active_filters(svc.filter_entries()) =~= Seq::<FilterView>::empty());
}

/// The records of `lines` that `search` matches, in order.
pub fn search_lines(search: &Pattern, lines: &[LogLine]) -> (r: Vec<LogLine>)
    ensures
        lines_view(r@) == searched(Some(search@), lines_view(lines@)),
{
    let mut r: Vec<LogLine> = Vec::new();
    let mut i: usize = 0;
    while i < lines.len()
        invariant
            i <= lines@.len(),
            lines_view(r@) == searched(Some(search@), lines_view(lines@).subrange(0, i as int)),
        decreases lines@.len() - i,
    {
        let ghost sub = lines_view(lines@).subrange(0, i + 1);
        assert(sub.drop_last() =~= lines_view(lines@).subrange(0, i as int));
        assert(sub.last() == lines@[i as int]@);
        let ghost before = lines_view(r@);
        if apply_search(search, &lines[i]) {
            r.push(lines[i].duplicate());
            assert(lines_view(r@) =~= before + seq![lines@[i as int]@]);
        } else {
            assert(lines_view(r@) =~= before + Seq::<LineView>::empty());
        }
        i = i + 1;
    }
    assert(lines_view(lines@).subrange(0, i as int) =~= lines_view(lines@));
    r
}

} // verus!
