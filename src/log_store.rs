//! The raw side: per-source buffers of raw lines, and each source's format
//! alias, enabled flag and runtime handle.
use vstd::prelude::*;

use crate::text::same_text;

verus! {

/// What the store knows of one source id.
pub struct EntryView<S> {
    pub id: Seq<char>,
    pub lines: Seq<Seq<char>>,
    pub format: Option<Seq<char>>,
    /// `None` until the source is registered with `add_log`.
    pub enabled: Option<bool>,
    pub source: Option<S>,
}

struct LogEntry<S> {
    id: String,
    lines: Vec<String>,
    format: Option<String>,
    enabled: Option<bool>,
    source: Option<S>,
}

pub open spec fn opt_text(o: Option<String>) -> Option<Seq<char>> {
    match o {
        Some(s) => Some(s@),
        None => None,
    }
}

impl<S> LogEntry<S> {
    spec fn view(&self) -> EntryView<S> {
        EntryView {
            id: self.id@,
            lines: self.lines.deep_view(),
            format: opt_text(self.format),
            enabled: self.enabled,
            source: self.source,
        }
    }
}

/// Raw lines and source registrations, by source id.
pub struct InMemmoryLogStore<S> {
    entries: Vec<LogEntry<S>>,
}

impl<S> View for InMemmoryLogStore<S> {
    type V = Seq<EntryView<S>>;

    closed spec fn view(&self) -> Seq<EntryView<S>> {
        self.entries@.map_values(|e: LogEntry<S>| e.view())
    }
}

/// No two entries share an id.
pub open spec fn unique_ids<S>(es: Seq<EntryView<S>>) -> bool {
    forall|i: int, j: int| 0 <= i < es.len() && 0 <= j < es.len() && (#[trigger] es[i]).id == (#[trigger] es[j]).id ==> i == j
}

/// Position of the entry for `id`.
pub open spec fn position<S>(es: Seq<EntryView<S>>, id: Seq<char>) -> Option<int> {
    if exists|i: int| 0 <= i < es.len() && (#[trigger] es[i]).id == id {
        Some(choose|i: int| 0 <= i < es.len() && (#[trigger] es[i]).id == id)
    } else {
        None
    }
}

/// The raw lines held for `id`.
pub open spec fn lines_of<S>(es: Seq<EntryView<S>>, id: Seq<char>) -> Seq<Seq<char>> {
    match position(es, id) {
        Some(i) => es[i].lines,
        None => Seq::empty(),
    }
}

/// The entries after `more` lines are appended for `id`; the buffer is made
/// when there is none.
pub open spec fn with_lines<S>(es: Seq<EntryView<S>>, id: Seq<char>, more: Seq<Seq<char>>) -> Seq<EntryView<S>> {
    match position(es, id) {
        Some(i) => es.update(i, EntryView { lines: es[i].lines + more, ..es[i] }),
        None => es.push(EntryView { id, lines: more, format: None, enabled: None, source: None }),
    }
}

/// The entries after `id` is registered with a handle, a format alias (an
/// absent one keeps the previous alias) and an enabled flag.
pub open spec fn with_registration<S>(
    es: Seq<EntryView<S>>,
    id: Seq<char>,
    source: S,
    format: Option<Seq<char>>,
    enabled: bool,
) -> Seq<EntryView<S>> {
    match position(es, id) {
        Some(i) => es.update(
            i,
            EntryView {
                format: if format is Some { format } else { es[i].format },
                enabled: Some(enabled),
                source: Some(source),
                ..es[i]
            },
        ),
        None => es.push(EntryView { id, lines: Seq::empty(), format, enabled: Some(enabled), source: Some(source) }),
    }
}

/// Sum of the buffer lengths of the first `n` entries.
pub open spec fn total_upto<S>(es: Seq<EntryView<S>>, n: int) -> nat
    decreases n,
{
    if n <= 0 {
        0
    } else {
        total_upto(es, n - 1) + es[n - 1].lines.len()
    }
}

/// `(enabled, id, format)` of the registered sources among the first `n`
/// entries, in order.
pub open spec fn registered_upto<S>(es: Seq<EntryView<S>>, n: int) -> Seq<(bool, Seq<char>, Option<Seq<char>>)>
    decreases n,
{
    if n <= 0 {
        Seq::empty()
    } else {
        let rest = registered_upto(es, n - 1);
        match es[n - 1].enabled {
            Some(e) => rest.push((e, es[n - 1].id, es[n - 1].format)),
            None => rest,
        }
    }
}

pub open spec fn registered<S>(es: Seq<EntryView<S>>) -> Seq<(bool, Seq<char>, Option<Seq<char>>)> {
    registered_upto(es, es.len() as int)
}

/// With unique ids, the entry at `i` is the one for its id.
pub proof fn lemma_position<S>(es: Seq<EntryView<S>>, id: Seq<char>, i: int)
    requires
        unique_ids(es),
        0 <= i < es.len(),
        es[i].id == id,
    ensures
        position(es, id) == Some(i),
{
}

proof fn lemma_push_unique<S>(es: Seq<EntryView<S>>, e: EntryView<S>)
    requires
        unique_ids(es),
        position(es, e.id) is None,
    ensures
        unique_ids(es.push(e)),
{
    let n = es.push(e);
    assert forall|i: int, j: int| 0 <= i < n.len() && 0 <= j < n.len() && (#[trigger] n[i]).id == (#[trigger] n[j]).id implies i == j by {
        if i < es.len() && j == es.len() {
            assert(es[i].id == e.id);
        }
        if j < es.len() && i == es.len() {
            assert(es[j].id == e.id);
        }
    }
}

/// Entries with the same ids in the same places find ids at the same
/// positions.
pub proof fn lemma_same_ids<S>(es: Seq<EntryView<S>>, es2: Seq<EntryView<S>>, t: Seq<char>)
    requires
        unique_ids(es),
        es.len() == es2.len(),
        forall|i: int| 0 <= i < es.len() ==> (#[trigger] es2[i]).id == es[i].id,
    ensures
        unique_ids(es2),
        position(es2, t) == position(es, t),
{
    assert(unique_ids(es2)) by {
        assert forall|i: int, j: int| 0 <= i < es2.len() && 0 <= j < es2.len() && (#[trigger] es2[i]).id == (#[trigger] es2[j]).id implies i == j by {
            assert(es[i].id == es2[i].id && es[j].id == es2[j].id);
        }
    }
    if exists|i: int| 0 <= i < es.len() && (#[trigger] es[i]).id == t {
        let i = choose|i: int| 0 <= i < es.len() && (#[trigger] es[i]).id == t;
        lemma_position(es, t, i);
        assert(es2[i].id == t);
        lemma_position(es2, t, i);
    } else {
        assert forall|i: int| 0 <= i < es2.len() implies (#[trigger] es2[i]).id != t by {
            assert(es[i].id == es2[i].id);
        }
    }
}

/// Appending an entry with a new id finds it at the end and every other id
/// where it was.
pub proof fn lemma_push_position<S>(es: Seq<EntryView<S>>, e: EntryView<S>, t: Seq<char>)
    requires
        unique_ids(es),
        position(es, e.id) is None,
    ensures
        unique_ids(es.push(e)),
        position(es.push(e), t) == if t == e.id { Some(es.len() as int) } else { position(es, t) },
{
    lemma_push_unique(es, e);
    let n = es.push(e);
    if t == e.id {
        lemma_position(n, t, es.len() as int);
    } else if exists|i: int| 0 <= i < es.len() && (#[trigger] es[i]).id == t {
        let i = choose|i: int| 0 <= i < es.len() && (#[trigger] es[i]).id == t;
        lemma_position(es, t, i);
        assert(n[i] == es[i]);
        lemma_position(n, t, i);
    } else {
        assert forall|i: int| 0 <= i < n.len() implies (#[trigger] n[i]).id != t by {
            if i < es.len() {
                assert(n[i] == es[i]);
            }
        }
    }
}

/// How appending lines changes the lines held for each id.
pub proof fn lemma_lines_of_with_lines<S>(es: Seq<EntryView<S>>, id: Seq<char>, more: Seq<Seq<char>>, t: Seq<char>)
    requires
        unique_ids(es),
    ensures
        unique_ids(with_lines(es, id, more)),
        lines_of(with_lines(es, id, more), t) == if t == id { lines_of(es, id) + more } else { lines_of(es, t) },
{
    let es2 = with_lines(es, id, more);
    match position(es, id) {
        Some(i) => {
            lemma_position_facts(es, id);
            assert forall|k: int| 0 <= k < es.len() implies (#[trigger] es2[k]).id == es[k].id by {}
            lemma_same_ids(es, es2, t);
            lemma_same_ids(es, es2, id);
        },
        None => {
            let e = EntryView { id, lines: more, format: None, enabled: None, source: None };
            lemma_push_position(es, e, t);
            lemma_push_position(es, e, id);
            assert(Seq::<Seq<char>>::empty() + more =~= more);
        },
    }
}

/// Registering a source leaves the lines held for each id as they were.
pub proof fn lemma_lines_of_with_registration<S>(
    es: Seq<EntryView<S>>,
    id: Seq<char>,
    source: S,
    format: Option<Seq<char>>,
    enabled: bool,
    t: Seq<char>,
)
    requires
        unique_ids(es),
    ensures
        unique_ids(with_registration(es, id, source, format, enabled)),
        lines_of(with_registration(es, id, source, format, enabled), t) == lines_of(es, t),
{
    let es2 = with_registration(es, id, source, format, enabled);
    match position(es, id) {
        Some(i) => {
            lemma_position_facts(es, id);
            assert forall|k: int| 0 <= k < es.len() implies (#[trigger] es2[k]).id == es[k].id by {}
            lemma_same_ids(es, es2, t);
        },
        None => {
            let e = EntryView { id, lines: Seq::empty(), format, enabled: Some(enabled), source: Some(source) };
            lemma_push_position(es, e, t);
        },
    }
}

/// What `position` finds is an entry with that id.
pub proof fn lemma_position_facts<S>(es: Seq<EntryView<S>>, id: Seq<char>)
    ensures
        position(es, id) matches Some(i) ==> 0 <= i < es.len() && es[i].id == id,
        position(es, id) is None ==> forall|i: int| 0 <= i < es.len() ==> (#[trigger] es[i]).id != id,
{
}

/// The ids of registered sources are distinct.
pub proof fn lemma_registered_distinct<S>(es: Seq<EntryView<S>>, n: int)
    requires
        unique_ids(es),
        0 <= n <= es.len(),
    ensures
        forall|a: int, b: int| 0 <= a < b < registered_upto(es, n).len() ==> (#[trigger] registered_upto(es, n)[a]).1
            != (#[trigger] registered_upto(es, n)[b]).1,
        forall|a: int| 0 <= a < registered_upto(es, n).len() ==> exists|k: int| 0 <= k < n && (#[trigger] registered_upto(es, n)[a]).1 == es[k].id,
    decreases n,
{
    if n > 0 {
        lemma_registered_distinct(es, n - 1);
        let r = registered_upto(es, n);
        let p = registered_upto(es, n - 1);
        assert forall|a: int| 0 <= a < r.len() implies exists|k: int| 0 <= k < n && (#[trigger] r[a]).1 == es[k].id by {
            if a < p.len() {
                assert(r[a] == p[a]);
                let k = choose|k: int| 0 <= k < n - 1 && (#[trigger] p[a]).1 == es[k].id;
                assert(r[a].1 == es[k].id);
            } else {
                assert(r[a].1 == es[n - 1].id);
            }
        }
        assert forall|a: int, b: int| 0 <= a < b < r.len() implies (#[trigger] r[a]).1 != (#[trigger] r[b]).1 by {
            if b < p.len() {
                assert(r[a] == p[a] && r[b] == p[b]);
            } else {
                assert(r[a] == p[a]);
                assert(r[b].1 == es[n - 1].id);
                let k = choose|k: int| 0 <= k < n - 1 && (#[trigger] p[a]).1 == es[k].id;
                assert(es[k].id != es[n - 1].id);
            }
        }
    }
}

impl<S> InMemmoryLogStore<S> {
    /// An empty store.
    pub fn new() -> (r: InMemmoryLogStore<S>)
        ensures
            r@.len() == 0,
    {
        let r = InMemmoryLogStore { entries: Vec::new() };
        assert(r@ =~= Seq::<EntryView<S>>::empty());
        r
    }

    /// The store's invariant: one entry per id.
    pub open spec fn wf(&self) -> bool {
        unique_ids(self@)
    }

    fn find(&self, id: &str) -> (r: Option<usize>)
        requires
            self.wf(),
        ensures
            match position(self@, id@) {
                Some(i) => r == Some(i as usize),
                None => r is None,
            },
            r matches Some(i) ==> i < self@.len() && self@[i as int].id == id@,
    {
        let mut i: usize = 0;
        while i < self.entries.len()
            invariant
                i <= self@.len(),
                self@.len() == self.entries@.len(),
                self.wf(),
                forall|j: int| 0 <= j < i ==> (#[trigger] self@[j]).id != id@,
            decreases self@.len() - i,
        {
            assert(self@[i as int] == self.entries@[i as int].view());
            if same_text(self.entries[i].id.as_str(), id) {
                proof { lemma_position(self@, id@, i as int); }
                return Some(i);
            }
            i = i + 1;
        }
        None
    }

    /// Registers source `log_id` with its handle, format alias and enabled
    /// flag. The raw-line buffer is left as it is.
    pub fn add_log(&mut self, log_id: &str, log_source: S, format: Option<&String>, enabled: bool)
        requires
            old(self).wf(),
        ensures
            final(self).wf(),
            final(self)@ == with_registration(
                old(self)@,
                log_id@,
                log_source,
                match format {
                    Some(f) => Some(f@),
                    None => None,
                },
                enabled,
            ),
    {
        let ghost fmt = match format {
            Some(f) => Some(f@),
            None => None::<Seq<char>>,
        };
        match self.find(log_id) {
            Some(i) => {
                let ghost old_view = self@;
                let mut entry = self.entries.remove(i);
                entry.enabled = Some(enabled);
                entry.source = Some(log_source);
                match format {
                    Some(f) => {
                        entry.format = Some(f.clone());
                    },
                    None => {},
                }
                self.entries.insert(i, entry);
                assert(self@ =~= with_registration(old_view, log_id@, log_source, fmt, enabled));
            },
            None => {
                let ghost old_view = self@;
                let entry = LogEntry {
                    id: log_id.to_owned(),
                    lines: Vec::new(),
                    format: match format {
                        Some(f) => Some(f.clone()),
                        None => None,
                    },
                    enabled: Some(enabled),
                    source: Some(log_source),
                };
                self.entries.push(entry);
                assert(entry.lines.deep_view() =~= Seq::<Seq<char>>::empty());
                assert(self@ =~= with_registration(old_view, log_id@, log_source, fmt, enabled));
            },
        }
    }

    /// Appends one raw line for `log_id`.
    pub fn add_line(&mut self, log_id: &str, line: &str)
        requires
            old(self).wf(),
        ensures
            final(self).wf(),
            final(self)@ == with_lines(old(self)@, log_id@, seq![line@]),
    {
        let mut one: Vec<String> = Vec::new();
        one.push(line.to_owned());
        assert(one.deep_view() =~= seq![line@]);
        let _ = self.add_lines(log_id, one.as_slice());
    }

    /// Appends a batch of raw lines for `log_id` and returns the positions
    /// they were given: from the previous length to the new one.
    pub fn add_lines(&mut self, log_id: &str, lines: &[String]) -> (r: std::ops::Range<usize>)
        requires
            old(self).wf(),
        ensures
            final(self).wf(),
            final(self)@ == with_lines(old(self)@, log_id@, lines.deep_view()),
            r.start == lines_of(old(self)@, log_id@).len(),
            r.end == lines_of(final(self)@, log_id@).len(),
    {
        let ghost old_view = self@;
        let i = match self.find(log_id) {
            Some(i) => i,
            None => {
                let entry = LogEntry { id: log_id.to_owned(), lines: Vec::new(), format: None, enabled: None, source: None };
                self.entries.push(entry);
                assert(entry.lines.deep_view() =~= Seq::<Seq<char>>::empty());
                proof {
                    lemma_push_unique(old_view, entry.view());
                    assert(self@ =~= old_view.push(entry.view()));
                }
                proof { lemma_position(self@, log_id@, self@.len() - 1); }
                self.entries.len() - 1
            },
        };
        let ghost mid_view = self@;
        let mut entry = self.entries.remove(i);
        let start = entry.lines.len();
        let mut k: usize = 0;
        while k < lines.len()
            invariant
                k <= lines@.len(),
                entry.lines.deep_view() == mid_view[i as int].lines + lines.deep_view().subrange(0, k as int),
                entry.id@ == mid_view[i as int].id,
                opt_text(entry.format) == mid_view[i as int].format,
                entry.enabled == mid_view[i as int].enabled,
                entry.source == mid_view[i as int].source,
            decreases lines@.len() - k,
        {
            let ghost before = entry.lines.deep_view();
            entry.lines.push(lines[k].clone());
            assert(entry.lines.deep_view() =~= before.push(lines@[k as int]@));
            assert(lines.deep_view().subrange(0, k + 1) =~= lines.deep_view().subrange(0, k as int).push(lines@[k as int]@));
            k = k + 1;
        }
        assert(lines.deep_view().subrange(0, k as int) =~= lines.deep_view());
        let end = entry.lines.len();
        self.entries.insert(i, entry);
        assert(self@ =~= with_lines(old_view, log_id@, lines.deep_view()));
        proof { lemma_position(self@, log_id@, i as int); }
        start..end
    }

    /// Takes the whole buffer of `log_id`, leaving it empty.
    pub fn extract_lines(&mut self, log_id: &str) -> (r: Vec<String>)
        requires
            old(self).wf(),
        ensures
            final(self).wf(),
            r.deep_view() == lines_of(old(self)@, log_id@),
            final(self)@ == match position(old(self)@, log_id@) {
                Some(i) => old(self)@.update(i, EntryView { lines: Seq::empty(), ..old(self)@[i] }),
                None => old(self)@,
            },
    {
        match self.find(log_id) {
            Some(i) => {
                let ghost old_view = self@;
                let LogEntry { id, lines, format, enabled, source } = self.entries.remove(i);
                let entry = LogEntry { id, lines: Vec::new(), format, enabled, source };
                assert(entry.lines.deep_view() =~= Seq::<Seq<char>>::empty());
                self.entries.insert(i, entry);
                assert(self@ =~= old_view.update(i as int, EntryView { lines: Seq::empty(), ..old_view[i as int] }));
                lines
            },
            None => {
                let r: Vec<String> = Vec::new();
                assert(r.deep_view() =~= Seq::<Seq<char>>::empty());
                r
            },
        }
    }

    /// Copy of the buffer of `log_id`.
    pub fn get_lines(&self, log_id: &str) -> (r: Vec<String>)
        requires
            self.wf(),
        ensures
            r.deep_view() == lines_of(self@, log_id@),
    {
        let mut r: Vec<String> = Vec::new();
        match self.find(log_id) {
            Some(i) => {
                let src = &self.entries[i].lines;
                assert(self@[i as int] == self.entries@[i as int].view());
                let mut k: usize = 0;
                while k < src.len()
                    invariant
                        k <= src@.len(),
                        r.deep_view() == src.deep_view().subrange(0, k as int),
                    decreases src@.len() - k,
                {
                    let ghost before = r.deep_view();
                    r.push(src[k].clone());
                    assert(r.deep_view() =~= before.push(src@[k as int]@));
                    assert(src.deep_view().subrange(0, k + 1) =~= src.deep_view().subrange(0, k as int).push(src@[k as int]@));
                    k = k + 1;
                }
                assert(src.deep_view().subrange(0, k as int) =~= src.deep_view());
            },
            None => {
                assert(r.deep_view() =~= Seq::<Seq<char>>::empty());
            },
        }
        r
    }

    /// Number of raw lines over all sources (at most `usize::MAX`).
    pub fn get_total_lines(&self) -> (r: usize)
        ensures
            r == if total_upto(self@, self@.len() as int) <= usize::MAX {
                total_upto(self@, self@.len() as int)
            } else {
                usize::MAX as nat
            },
    {
        let mut total: usize = 0;
        let mut i: usize = 0;
        while i < self.entries.len()
            invariant
                i <= self@.len(),
                self@.len() == self.entries@.len(),
                total == if total_upto(self@, i as int) <= usize::MAX {
                    total_upto(self@, i as int)
                } else {
                    usize::MAX as nat
                },
            decreases self@.len() - i,
        {
            assert(self@[i as int] == self.entries@[i as int].view());
            let n = self.entries[i].lines.len();
            total = if total <= usize::MAX - n { total + n } else { usize::MAX };
            i = i + 1;
        }
        total
    }

    /// `(enabled, id, format)` of every registered source, in registration
    /// order.
    pub fn get_logs(&self) -> (r: Vec<(bool, String, Option<String>)>)
        ensures
            r@.len() == registered(self@).len(),
            forall|k: int| 0 <= k < r@.len() ==> {
                let (e, id, f) = #[trigger] r@[k];
                registered(self@)[k] == (e, id@, opt_text(f))
            },
    {
        let mut r: Vec<(bool, String, Option<String>)> = Vec::new();
        let mut i: usize = 0;
        while i < self.entries.len()
            invariant
                i <= self@.len(),
                self@.len() == self.entries@.len(),
                r@.len() == registered_upto(self@, i as int).len(),
                forall|k: int| 0 <= k < r@.len() ==> {
                    let (e, id, f) = #[trigger] r@[k];
                    registered_upto(self@, i as int)[k] == (e, id@, opt_text(f))
                },
            decreases self@.len() - i,
        {
            assert(self@[i as int] == self.entries@[i as int].view());
            let entry = &self.entries[i];
            match entry.enabled {
                Some(e) => {
                    let f = match &entry.format {
                        Some(f) => Some(f.clone()),
                        None => None,
                    };
                    r.push((e, entry.id.clone(), f));
                },
                None => {},
            }
            i = i + 1;
        }
        r
    }

    /// The format alias bound to `log_id`.
    pub fn get_format(&self, log_id: &str) -> (r: Option<String>)
        requires
            self.wf(),
        ensures
            opt_text(r) == match position(self@, log_id@) {
                Some(i) => self@[i].format,
                None => None,
            },
    {
        match self.find(log_id) {
            Some(i) => {
                assert(self@[i as int] == self.entries@[i as int].view());
                match &self.entries[i].format {
                    Some(f) => Some(f.clone()),
                    None => None,
                }
            },
            None => None,
        }
    }

    /// The handle of `log_id`.
    pub fn get_source(&self, id: &str) -> (r: Option<&S>)
        requires
            self.wf(),
        ensures
            match position(self@, id@) {
                Some(i) => match self@[i].source {
                    Some(s) => r == Some(&s),
                    None => r is None,
                },
                None => r is None,
            },
    {
        match self.find(id) {
            Some(i) => {
                assert(self@[i as int] == self.entries@[i as int].view());
                match &self.entries[i].source {
                    Some(s) => Some(s),
                    None => None,
                }
            },
            None => None,
        }
    }

    /// Flips the enabled flag of a registered source.
    pub fn toggle_log(&mut self, log_id: &str)
        requires
            old(self).wf(),
        ensures
            final(self).wf(),
            final(self)@ == match position(old(self)@, log_id@) {
                Some(i) => match old(self)@[i].enabled {
                    Some(e) => old(self)@.update(i, EntryView { enabled: Some(!e), ..old(self)@[i] }),
                    None => old(self)@,
                },
                None => old(self)@,
            },
    {
        match self.find(log_id) {
            Some(i) => {
                let ghost old_view = self@;
                let mut entry = self.entries.remove(i);
                match entry.enabled {
                    Some(e) => {
                        entry.enabled = Some(!e);
                    },
                    None => {},
                }
                self.entries.insert(i, entry);
                assert(self@ =~= match old_view[i as int].enabled {
                    Some(e) => old_view.update(i as int, EntryView { enabled: Some(!e), ..old_view[i as int] }),
                    None => old_view,
                });
            },
            None => {},
        }
    }
}

} // verus!
