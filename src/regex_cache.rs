//! Compiled patterns kept by their text, so that each is compiled once.
use vstd::prelude::*;

use crate::pattern::{compiles, Pattern};
use crate::text::same_text;

verus! {

/// Patterns compiled so far, by pattern text.
pub struct RegexCache {
    cache: Vec<Pattern>,
}

impl RegexCache {
    /// An empty cache.
    pub fn new() -> (r: RegexCache)
        ensures
            r.patterns().len() == 0,
    {
        RegexCache { cache: Vec::new() }
    }

    /// Texts of the cached patterns.
    pub closed spec fn patterns(&self) -> Seq<Seq<char>> {
        self.cache@.map_values(|p: Pattern| p@)
    }

    /// The cached pattern compiled from `text`, if any.
    pub fn get(&self, text: &String) -> (r: Option<&Pattern>)
        ensures
            r is Some <==> self.patterns().contains(text@),
            r matches Some(p) ==> p@ == text@,
    {
        let mut i: usize = 0;
        while i < self.cache.len()
            invariant
                i <= self.cache@.len(),
                forall|j: int| 0 <= j < i ==> (#[trigger] self.patterns()[j]) != text@,
            decreases self.cache@.len() - i,
        {
            assert(self.patterns()[i as int] == self.cache@[i as int]@);
            if same_text(self.cache[i].as_str(), text.as_str()) {
                return Some(&self.cache[i]);
            }
            i = i + 1;
        }
        None
    }

    /// Compiles `text`, keeps the result and returns a copy of it; `None`
    /// when it does not compile, and then nothing is kept.
    pub fn put(&mut self, text: &String) -> (r: Option<Pattern>)
        ensures
            r is Some <==> compiles(text@),
            r matches Some(p) ==> p@ == text@,
            r is Some ==> final(self).patterns() == old(self).patterns().push(text@),
            r is None ==> final(self).patterns() == old(self).patterns(),
    {
        match Pattern::new(text.as_str()) {
            Some(p) => {
                let ghost before = self.patterns();
                let copy = p.duplicate();
                self.cache.push(p);
                assert(self.patterns() =~= before.push(text@));
                Some(copy)
            },
            None => None,
        }
    }
}

} // verus!
