//! Formats: named patterns that split a raw line into the fields of a record.
use vstd::prelude::*;
use vstd::string::StringSliceAdditionalSpecFns;
use vstd::utf8::*;

use crate::log_line::{LineView, LogLine};
use crate::pattern::{capture_result, compiles, encode_utf8, group_names, spans_within, Pattern};
use crate::text::{decimal_string, decimal_text, same_text};

verus! {

/// A named pattern that lines of a source can be parsed with.
#[derive(Clone, Debug)]
pub struct Format {
    pub alias: String,
    pub regex: String,
}

/// Why a format cannot be registered.
#[derive(Clone, Copy, Debug, PartialEq, Eq)]
pub enum FormatError {
    /// The alias or the pattern is empty.
    Empty,
    /// The pattern is not a valid regular expression.
    InvalidPattern,
}

impl FormatError {
    /// A message for the user.
    pub fn message(&self) -> (r: String) {
        match self {
            FormatError::Empty => "Error when creating new format.\nPlease review alias and regex are not empty".to_owned(),
            FormatError::InvalidPattern => "Could not compile regex.\nPlease review regex syntax".to_owned(),
        }
    }
}

impl Format {
    /// A format with the given alias and pattern. Fails when either is empty
    /// or the pattern does not compile.
    pub fn new(alias: &String, regex: &String) -> (r: Result<Format, FormatError>)
        ensures
            (alias@.len() == 0 || regex@.len() == 0) ==> r == Err::<Format, FormatError>(FormatError::Empty),
            (alias@.len() > 0 && regex@.len() > 0 && !compiles(regex@)) ==> r == Err::<Format, FormatError>(
                FormatError::InvalidPattern,
            ),
            r is Ok <==> alias@.len() > 0 && regex@.len() > 0 && compiles(regex@),
            r matches Ok(f) ==> f.alias@ == alias@ && f.regex@ == regex@,
    {
        if alias.as_str().is_empty() || regex.as_str().is_empty() {
            return Err(FormatError::Empty);
        }
        match Pattern::new(regex.as_str()) {
            Some(_) => Ok(Format { alias: alias.clone(), regex: regex.clone() }),
            None => Err(FormatError::InvalidPattern),
        }
    }
}

/// Group names that fill a field, by field position (`LOG` and `INDEX` have
/// none).
pub open spec fn group_key(field: int) -> Seq<char> {
    if field == 2 { seq!['D', 'A', 'T', 'E'] }
    else if field == 3 { seq!['T', 'I', 'M', 'E', 'S', 'T', 'A', 'M', 'P'] }
    else if field == 4 { seq!['A', 'P', 'P'] }
    else if field == 5 { seq!['S', 'E', 'V', 'E', 'R', 'I', 'T', 'Y'] }
    else if field == 6 { seq!['F', 'U', 'N', 'C', 'T', 'I', 'O', 'N'] }
    else { seq!['P', 'A', 'Y', 'L', 'O', 'A', 'D'] }
}

fn group_key_literal(field: usize) -> (r: &'static str)
    requires
        2 <= field < 8,
    ensures
        r@ == group_key(field as int),
{
    if field == 2 {
        proof { reveal_strlit("DATE"); }
        assert("DATE"@ =~= group_key(2));
        "DATE"
    } else if field == 3 {
        proof { reveal_strlit("TIMESTAMP"); }
        assert("TIMESTAMP"@ =~= group_key(3));
        "TIMESTAMP"
    } else if field == 4 {
        proof { reveal_strlit("APP"); }
        assert("APP"@ =~= group_key(4));
        "APP"
    } else if field == 5 {
        proof { reveal_strlit("SEVERITY"); }
        assert("SEVERITY"@ =~= group_key(5));
        "SEVERITY"
    } else if field == 6 {
        proof { reveal_strlit("FUNCTION"); }
        assert("FUNCTION"@ =~= group_key(6));
        "FUNCTION"
    } else {
        proof { reveal_strlit("PAYLOAD"); }
        assert("PAYLOAD"@ =~= group_key(7));
        "PAYLOAD"
    }
}

/// The group number that carries `name` (the last one, should there be
/// several).
pub open spec fn named_position(names: Seq<Option<Seq<char>>>, name: Seq<char>) -> Option<int>
    decreases names.len(),
{
    if names.len() == 0 {
        None
    } else if names.last() == Some(name) {
        Some(names.len() - 1)
    } else {
        named_position(names.drop_last(), name)
    }
}

/// Text of the group called `name` in a match of `text`; empty when there is
/// no such group or it took no part in the match.
pub open spec fn projected(
    text: Seq<char>,
    names: Seq<Option<Seq<char>>>,
    caps: Seq<Option<(usize, usize)>>,
    name: Seq<char>,
) -> Seq<char> {
    match named_position(names, name) {
        Some(i) => if i < caps.len() && caps[i] is Some {
            let (s, e) = caps[i]->0;
            decode_utf8(encode_utf8(text).subrange(s as int, e as int))
        } else {
            Seq::empty()
        },
        None => Seq::empty(),
    }
}

/// The record made of `line` when the format's outcome on it is `caps`: the
/// recognised groups fill their fields, or, without a match, the whole line
/// is the payload. `log` and `index` are set in every case.
pub open spec fn formatted(
    log: Seq<char>,
    line: Seq<char>,
    index: nat,
    names: Seq<Option<Seq<char>>>,
    caps: Option<Seq<Option<(usize, usize)>>>,
) -> LineView {
    match caps {
        Some(c) => LineView {
            fields: seq![
                log,
                decimal_text(index),
                projected(line, names, c, group_key(2)),
                projected(line, names, c, group_key(3)),
                projected(line, names, c, group_key(4)),
                projected(line, names, c, group_key(5)),
                projected(line, names, c, group_key(6)),
                projected(line, names, c, group_key(7)),
            ],
            color: None,
        },
        None => LineView {
            fields: seq![log, decimal_text(index), seq![], seq![], seq![], seq![], seq![], line],
            color: None,
        },
    }
}

/// The record `apply_format` makes of `line`.
pub open spec fn format_line(pattern: Option<Seq<char>>, log: Seq<char>, line: Seq<char>, index: nat) -> LineView {
    match pattern {
        Some(p) => formatted(log, line, index, group_names(p), capture_result(p, line)),
        None => formatted(log, line, index, Seq::empty(), None),
    }
}

fn find_group(names: &Vec<Option<String>>, key: &str) -> (r: Option<usize>)
    ensures
        match named_position(names.deep_view(), key@) {
            Some(i) => r == Some(i as usize),
            None => r is None,
        },
        r matches Some(i) ==> named_position(names.deep_view(), key@) == Some(i as int),
{
    let mut i: usize = names.len();
    proof {
        assert(names.deep_view().subrange(0, i as int) =~= names.deep_view());
    }
    while i > 0
        invariant
            i <= names@.len(),
            named_position(names.deep_view(), key@) == named_position(
                names.deep_view().subrange(0, i as int),
                key@,
            ),
        decreases i,
    {
        let ghost sub = names.deep_view().subrange(0, i as int);
        assert(sub.drop_last() =~= names.deep_view().subrange(0, i - 1));
        assert(sub.last() == names.deep_view()[i - 1]);
        i = i - 1;
        match &names[i] {
            Some(n) => {
                if same_text(n.as_str(), key) {
                    return Some(i);
                }
            },
            None => {},
        }
    }
    None
}

fn group_text(
    line: &str,
    names: &Vec<Option<String>>,
    caps: &Vec<Option<(usize, usize)>>,
    key: &str,
) -> (r: String)
    requires
        spans_within(caps@, line@),
    ensures
        r@ == projected(line@, names.deep_view(), caps@, key@),
{
    match find_group(names, key) {
        Some(i) => {
            if i < caps.len() {
                match caps[i] {
                    Some((s, e)) => {
                        let ghost bytes = line.spec_bytes();
                        proof {
                            encode_utf8_valid_utf8(line@);
                            is_char_boundary_start_end_of_seq(bytes);
                            assert(spans_within(caps@, line@) && caps@[i as int] is Some);
                            crate::search::lemma_boundary_in_suffix(bytes, 0, s as int);
                            assert(bytes.subrange(0, bytes.len() as int) =~= bytes);
                        }
                        let (_, after) = line.split_at(s);
                        proof {
                            crate::search::lemma_boundary_in_suffix(bytes, s as int, e as int);
                        }
                        assert(after.spec_bytes() =~= bytes.subrange(s as int, bytes.len() as int));
                        let (mid, _) = after.split_at(e - s);
                        assert(mid.spec_bytes() =~= bytes.subrange(s as int, e as int));
                        proof {
                            crate::search::lemma_str_decode(mid);
                        }
                        mid.to_owned()
                    },
                    None => String::new(),
                }
            } else {
                String::new()
            }
        },
        None => String::new(),
    }
}

/// The record made of `line` when the format's group names are `names` and
/// its outcome on `line` is `caps` (see `formatted`).
pub fn project_captures(
    log: &str,
    line: &str,
    index: usize,
    names: &Vec<Option<String>>,
    caps: &Option<Vec<Option<(usize, usize)>>>,
) -> (r: LogLine)
    requires
        caps matches Some(c) ==> spans_within(c@, line@),
    ensures
        r@ == formatted(log@, line@, index as nat, names.deep_view(), crate::search::caps_view(caps)),
{
    match caps {
        Some(c) => {
            let r = LogLine {
                log: log.to_owned(),
                index: decimal_string(index),
                date: group_text(line, names, c, group_key_literal(2)),
                timestamp: group_text(line, names, c, group_key_literal(3)),
                app: group_text(line, names, c, group_key_literal(4)),
                severity: group_text(line, names, c, group_key_literal(5)),
                function: group_text(line, names, c, group_key_literal(6)),
                payload: group_text(line, names, c, group_key_literal(7)),
                color: None,
            };
            assert(r@.fields =~= formatted(log@, line@, index as nat, names.deep_view(), Some(c@)).fields);
            r
        },
        None => {
            let r = default_log_line(log, line, index);
            assert(r@.fields =~= formatted(log@, line@, index as nat, names.deep_view(), None).fields);
            r
        },
    }
}

/// The record holding the whole line as its payload.
fn default_log_line(log: &str, line: &str, index: usize) -> (r: LogLine)
    ensures
        r@ == formatted(log@, line@, index as nat, Seq::empty(), None),
{
    let r = LogLine {
        log: log.to_owned(),
        index: decimal_string(index),
        date: String::new(),
        timestamp: String::new(),
        app: String::new(),
        severity: String::new(),
        function: String::new(),
        payload: line.to_owned(),
        color: None,
    };
    assert(r@.fields =~= formatted(log@, line@, index as nat, Seq::empty(), None).fields);
    r
}

/// Parses `line` of source `log` with the format pattern, if any, and gives
/// the record the ordinal `index`. Never fails: without a pattern, or when
/// it does not match, the whole line becomes the payload.
pub fn apply_format(format: &Option<&Pattern>, log: &str, line: &str, index: usize) -> (r: LogLine)
    ensures
        r@ == format_line(
            match format {
                Some(p) => Some(p@),
                None => None,
            },
            log@,
            line@,
            index as nat,
        ),
{
    match format {
        Some(p) => {
            let names = p.group_names();
            let caps = p.captures(line);
            project_captures(log, line, index, &names, &caps)
        },
        None => default_log_line(log, line, index),
    }
}

} // verus!
