//! Compiled regular expressions. The matching itself is done by the `regex`
//! crate; what it computes is named here and related to the pattern text.
use vstd::prelude::*;
use vstd::utf8::is_char_boundary;

verus! {

/// The compiled regular expression of the `regex` crate, carried opaquely.
#[verifier::external_type_specification]
#[verifier::external_body]
pub struct ExRegex(regex::Regex);

/// Whether the `regex` crate accepts `pattern`.
pub uninterp spec fn compiles(pattern: Seq<char>) -> bool;

/// Whether `pattern` matches somewhere in `text`.
pub uninterp spec fn is_match(pattern: Seq<char>, text: Seq<char>) -> bool;

/// Byte spans of every capture group (group 0 first) in the leftmost-first
/// match of `pattern` in `text`; `None` for a group that took no part.
pub uninterp spec fn first_captures(pattern: Seq<char>, text: Seq<char>) -> Seq<Option<(usize, usize)>>;

/// Names of the capture groups of `pattern` by group number; `None` for an
/// unnamed group (group 0 is always unnamed).
pub uninterp spec fn group_names(pattern: Seq<char>) -> Seq<Option<Seq<char>>>;

/// What searching `pattern` in `text` gives: no match, or the group spans.
pub open spec fn capture_result(pattern: Seq<char>, text: Seq<char>) -> Option<Seq<Option<(usize, usize)>>> {
    if is_match(pattern, text) {
        Some(first_captures(pattern, text))
    } else {
        None
    }
}

/// Every span lies inside `text` and starts and ends on a character boundary
/// of its UTF-8 encoding.
pub open spec fn spans_within(spans: Seq<Option<(usize, usize)>>, text: Seq<char>) -> bool {
    forall|i: int| 0 <= i < spans.len() && (#[trigger] spans[i]) is Some ==> {
        let (s, e) = spans[i]->0;
        &&& s <= e <= encode_utf8(text).len()
        &&& is_char_boundary(encode_utf8(text), s as int)
        &&& is_char_boundary(encode_utf8(text), e as int)
    }
}

/// The UTF-8 bytes of `text`, in which the `regex` crate reports offsets.
pub open spec fn encode_utf8(text: Seq<char>) -> Seq<u8> {
    vstd::utf8::encode_utf8(text)
}

/// A regular expression together with the text it was compiled from.
///
/// Values are made only by `compile_regex` and `copy_pattern`, so `re` is
/// always the compilation of `source`; the wrappers below rely on that.
pub struct Pattern {
    source: String,
    re: regex::Regex,
}

impl View for Pattern {
    type V = Seq<char>;

    closed spec fn view(&self) -> Seq<char> {
        self.source@
    }
}

/// Relies on `regex::Regex::new`: compiles `pattern`, or fails on text the
/// crate rejects.
#[verifier::external_body]
fn compile_regex(pattern: &str) -> (r: Option<Pattern>)
    ensures
        r is Some <==> compiles(pattern@),
        r matches Some(p) ==> p@ == pattern@,
{
    match regex::Regex::new(pattern) {
        Ok(re) => Some(Pattern { source: pattern.to_string(), re }),
        Err(_) => None,
    }
}

/// Relies on `regex::Regex::is_match`: whether the pattern matches anywhere
/// in `text`.
#[verifier::external_body]
fn regex_is_match(p: &Pattern, text: &str) -> (r: bool)
    ensures
        r == is_match(p@, text@),
{
    p.re.is_match(text)
}

/// Relies on `regex::Regex::captures_read` (with `capture_locations` and
/// `CaptureLocations::get`): the group spans of the first match, if there is
/// one. Its documentation gives that a match exists exactly when `is_match`
/// holds, and that every span starts no later than it ends and falls on
/// character boundaries of the text.
#[verifier::external_body]
fn regex_captures(p: &Pattern, text: &str) -> (r: Option<Vec<Option<(usize, usize)>>>)
    ensures
        r is Some <==> is_match(p@, text@),
        r matches Some(v) ==> v@ == first_captures(p@, text@) && spans_within(v@, text@),
{
    let mut locs = p.re.capture_locations();
    match p.re.captures_read(&mut locs, text) {
        Some(_) => Some((0..locs.len()).map(|i| locs.get(i)).collect()),
        None => None,
    }
}

/// Relies on `regex::Regex::capture_names`: the group names by group number.
#[verifier::external_body]
fn regex_group_names(p: &Pattern) -> (r: Vec<Option<String>>)
    ensures
        r.deep_view() == group_names(p@),
{
    p.re.capture_names().map(|n| n.map(|s| s.to_string())).collect()
}

/// Relies on `Clone` for `regex::Regex`: a copy compiled from the same text.
#[verifier::external_body]
fn copy_pattern(p: &Pattern) -> (r: Pattern)
    ensures
        r@ == p@,
{
    Pattern { source: p.source.clone(), re: p.re.clone() }
}

impl Pattern {
    /// A copy of this pattern.
    pub fn duplicate(&self) -> (r: Pattern)
        ensures
            r@ == self@,
    {
        copy_pattern(self)
    }

    /// Compiles `pattern`; `None` when it is not a valid regular expression.
    pub fn new(pattern: &str) -> (r: Option<Pattern>)
        ensures
            r is Some <==> compiles(pattern@),
            r matches Some(p) ==> p@ == pattern@,
    {
        compile_regex(pattern)
    }

    /// The text the pattern was compiled from.
    pub fn as_str(&self) -> (r: &str)
        ensures
            r@ == self@,
    {
        self.source.as_str()
    }

    /// Whether the pattern matches somewhere in `text`.
    pub fn is_match(&self, text: &str) -> (r: bool)
        ensures
            r == is_match(self@, text@),
    {
        regex_is_match(self, text)
    }

    /// Group spans of the first match in `text`, or `None` without a match.
    pub fn captures(&self, text: &str) -> (r: Option<Vec<Option<(usize, usize)>>>)
        ensures
            r matches Some(v) ==> spans_within(v@, text@),
            match r {
                Some(v) => capture_result(self@, text@) == Some(v@),
                None => capture_result(self@, text@) is None,
            },
    {
        regex_captures(self, text)
    }

    /// Names of the capture groups by group number.
    pub fn group_names(&self) -> (r: Vec<Option<String>>)
        ensures
            r.deep_view() == group_names(self@),
    {
        regex_group_names(self)
    }
}

} // verus!
