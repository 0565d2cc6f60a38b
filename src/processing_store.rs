//! Named formats and named filters, each filter with its enabled flag.
use vstd::prelude::*;

use crate::filter::{Filter, FilterAction};
use crate::format::Format;
use crate::log_line::{LineView, LogLine};
use crate::text::same_text;

verus! {

/// A stored filter as values: alias, action, pattern record, enabled flag.
pub type FilterEntryView = (Seq<char>, FilterAction, LineView, bool);

struct FilterEntry {
    alias: String,
    action: FilterAction,
    filter: LogLine,
    enabled: bool,
}

impl FilterEntry {
    spec fn view(&self) -> FilterEntryView {
        (self.alias@, self.action, self.filter@, self.enabled)
    }
}

/// Formats `alias -> pattern` and filters `alias -> (action, patterns,
/// enabled)`, in the order they were first added.
pub struct InMemmoryProcessingStore {
    formats: Vec<(String, String)>,
    filters: Vec<FilterEntry>,
}

pub open spec fn format_keys_unique(fs: Seq<(Seq<char>, Seq<char>)>) -> bool {
    forall|i: int, j: int| 0 <= i < fs.len() && 0 <= j < fs.len() && (#[trigger] fs[i]).0 == (#[trigger] fs[j]).0 ==> i == j
}

pub open spec fn filter_keys_unique(fs: Seq<FilterEntryView>) -> bool {
    forall|i: int, j: int| 0 <= i < fs.len() && 0 <= j < fs.len() && (#[trigger] fs[i]).0 == (#[trigger] fs[j]).0 ==> i == j
}

/// The formats after `alias` is set to `pattern`.
pub open spec fn with_format(fs: Seq<(Seq<char>, Seq<char>)>, alias: Seq<char>, pattern: Seq<char>) -> Seq<(Seq<char>, Seq<char>)> {
    if exists|i: int| 0 <= i < fs.len() && (#[trigger] fs[i]).0 == alias {
        let i = choose|i: int| 0 <= i < fs.len() && (#[trigger] fs[i]).0 == alias;
        fs.update(i, (alias, pattern))
    } else {
        fs.push((alias, pattern))
    }
}

/// The pattern of format `alias`.
pub open spec fn format_of(fs: Seq<(Seq<char>, Seq<char>)>, alias: Seq<char>) -> Option<Seq<char>> {
    if exists|i: int| 0 <= i < fs.len() && (#[trigger] fs[i]).0 == alias {
        let i = choose|i: int| 0 <= i < fs.len() && (#[trigger] fs[i]).0 == alias;
        Some(fs[i].1)
    } else {
        None
    }
}

/// The filters after `e` is stored under its alias.
pub open spec fn with_filter(fs: Seq<FilterEntryView>, e: FilterEntryView) -> Seq<FilterEntryView> {
    if exists|i: int| 0 <= i < fs.len() && (#[trigger] fs[i]).0 == e.0 {
        let i = choose|i: int| 0 <= i < fs.len() && (#[trigger] fs[i]).0 == e.0;
        fs.update(i, e)
    } else {
        fs.push(e)
    }
}

/// The filters after the enabled flag of `alias` is flipped.
pub open spec fn with_toggled(fs: Seq<FilterEntryView>, alias: Seq<char>) -> Seq<FilterEntryView> {
    if exists|i: int| 0 <= i < fs.len() && (#[trigger] fs[i]).0 == alias {
        let i = choose|i: int| 0 <= i < fs.len() && (#[trigger] fs[i]).0 == alias;
        fs.update(i, (fs[i].0, fs[i].1, fs[i].2, !fs[i].3))
    } else {
        fs
    }
}

impl InMemmoryProcessingStore {
    /// An empty store.
    pub fn new() -> (r: InMemmoryProcessingStore)
        ensures
            r.wf(),
            r.formats_view().len() == 0,
            r.filters_view().len() == 0,
    {
        let r = InMemmoryProcessingStore { formats: Vec::new(), filters: Vec::new() };
        assert(r.formats_view() =~= Seq::<(Seq<char>, Seq<char>)>::empty());
        assert(r.filters_view() =~= Seq::<FilterEntryView>::empty());
        r
    }

    /// `(alias, pattern)` of every format.
    pub closed spec fn formats_view(&self) -> Seq<(Seq<char>, Seq<char>)> {
        self.formats@.map_values(|f: (String, String)| (f.0@, f.1@))
    }

    /// `(alias, action, patterns, enabled)` of every filter.
    pub closed spec fn filters_view(&self) -> Seq<FilterEntryView> {
        self.filters@.map_values(|f: FilterEntry| f.view())
    }

    /// Aliases are unique among formats and among filters.
    pub open spec fn wf(&self) -> bool {
        format_keys_unique(self.formats_view()) && filter_keys_unique(self.filters_view())
    }

    fn find_format(&self, id: &str) -> (r: Option<usize>)
        requires
            self.wf(),
        ensures
            r matches Some(i) ==> i < self.formats_view().len() && self.formats_view()[i as int].0 == id@,
            r is None ==> !exists|i: int| 0 <= i < self.formats_view().len() && (#[trigger] self.formats_view()[i]).0 == id@,
    {
        let mut i: usize = 0;
        while i < self.formats.len()
            invariant
                i <= self.formats@.len(),
                forall|j: int| 0 <= j < i ==> (#[trigger] self.formats_view()[j]).0 != id@,
            decreases self.formats@.len() - i,
        {
            if same_text(self.formats[i].0.as_str(), id) {
                return Some(i);
            }
            i = i + 1;
        }
        None
    }

    fn find_filter(&self, id: &str) -> (r: Option<usize>)
        requires
            self.wf(),
        ensures
            r matches Some(i) ==> i < self.filters_view().len() && self.filters_view()[i as int].0 == id@,
            r is None ==> !exists|i: int| 0 <= i < self.filters_view().len() && (#[trigger] self.filters_view()[i]).0 == id@,
    {
        let mut i: usize = 0;
        while i < self.filters.len()
            invariant
                i <= self.filters@.len(),
                forall|j: int| 0 <= j < i ==> (#[trigger] self.filters_view()[j]).0 != id@,
            decreases self.filters@.len() - i,
        {
            assert(self.filters_view()[i as int] == self.filters@[i as int].view());
            if same_text(self.filters[i].alias.as_str(), id) {
                return Some(i);
            }
            i = i + 1;
        }
        None
    }

    /// Sets the pattern of format `id`.
    pub fn add_format(&mut self, id: String, format: String)
        requires
            old(self).wf(),
        ensures
            final(self).wf(),
            final(self).formats_view() == with_format(old(self).formats_view(), id@, format@),
            final(self).filters_view() == old(self).filters_view(),
    {
        let ghost before = self.formats_view();
        match self.find_format(id.as_str()) {
            Some(i) => {
                self.formats.set(i, (id, format));
                assert(self.formats_view() =~= before.update(i as int, (id@, format@)));
            },
            None => {
                self.formats.push((id, format));
                assert(self.formats_view() =~= before.push((id@, format@)));
            },
        }
    }

    /// The pattern of format `id`.
    pub fn get_format(&self, id: &str) -> (r: Option<String>)
        requires
            self.wf(),
        ensures
            match r {
                Some(p) => format_of(self.formats_view(), id@) == Some(p@),
                None => format_of(self.formats_view(), id@) is None,
            },
    {
        match self.find_format(id) {
            Some(i) => Some(self.formats[i].1.clone()),
            None => None,
        }
    }

    /// Every format.
    pub fn get_formats(&self) -> (r: Vec<Format>)
        ensures
            r@.len() == self.formats_view().len(),
            forall|k: int| 0 <= k < r@.len() ==> ((#[trigger] r@[k]).alias@, r@[k].regex@) == self.formats_view()[k],
    {
        let mut r: Vec<Format> = Vec::new();
        let mut i: usize = 0;
        while i < self.formats.len()
            invariant
                i <= self.formats@.len(),
                r@.len() == i,
                forall|k: int| 0 <= k < i ==> ((#[trigger] r@[k]).alias@, r@[k].regex@) == self.formats_view()[k],
            decreases self.formats@.len() - i,
        {
            r.push(Format { alias: self.formats[i].0.clone(), regex: self.formats[i].1.clone() });
            i = i + 1;
        }
        r
    }

    /// Stores a filter under `id`, replacing one of the same alias.
    pub fn add_filter(&mut self, id: String, filter: LogLine, action: FilterAction, enabled: bool)
        requires
            old(self).wf(),
        ensures
            final(self).wf(),
            final(self).filters_view() == with_filter(old(self).filters_view(), (id@, action, filter@, enabled)),
            final(self).formats_view() == old(self).formats_view(),
    {
        let ghost before = self.filters_view();
        let ghost e = (id@, action, filter@, enabled);
        match self.find_filter(id.as_str()) {
            Some(i) => {
                self.filters.set(i, FilterEntry { alias: id, action, filter, enabled });
                assert(self.filters_view() =~= before.update(i as int, e));
            },
            None => {
                self.filters.push(FilterEntry { alias: id, action, filter, enabled });
                assert(self.filters_view() =~= before.push(e));
            },
        }
    }

    /// Every filter with its enabled flag, in order.
    pub fn get_filters(&self) -> (r: Vec<(bool, Filter)>)
        ensures
            r@.len() == self.filters_view().len(),
            forall|k: int| 0 <= k < r@.len() ==> {
                let (e, f) = #[trigger] r@[k];
                self.filters_view()[k] == (f.alias@, f.action, f.filter@, e)
            },
    {
        let mut r: Vec<(bool, Filter)> = Vec::new();
        let mut i: usize = 0;
        while i < self.filters.len()
            invariant
                i <= self.filters@.len(),
                r@.len() == i,
                forall|k: int| 0 <= k < i ==> {
                    let (e, f) = #[trigger] r@[k];
                    self.filters_view()[k] == (f.alias@, f.action, f.filter@, e)
                },
            decreases self.filters@.len() - i,
        {
            let entry = &self.filters[i];
            assert(self.filters_view()[i as int] == entry.view());
            r.push((entry.enabled, Filter { alias: entry.alias.clone(), action: entry.action, filter: entry.filter.duplicate() }));
            i = i + 1;
        }
        r
    }

    /// Flips the enabled flag of filter `id`.
    pub fn toggle_filter(&mut self, id: &str)
        requires
            old(self).wf(),
        ensures
            final(self).wf(),
            final(self).filters_view() == with_toggled(old(self).filters_view(), id@),
            final(self).formats_view() == old(self).formats_view(),
    {
        let ghost before = self.filters_view();
        match self.find_filter(id) {
            Some(i) => {
                let FilterEntry { alias, action, filter, enabled } = self.filters.remove(i);
                self.filters.insert(i, FilterEntry { alias, action, filter, enabled: !enabled });
                assert(self.filters_view() =~= before.update(
                    i as int,
                    (before[i as int].0, before[i as int].1, before[i as int].2, !before[i as int].3),
                ));
            },
            None => {},
        }
    }
}

} // verus!
