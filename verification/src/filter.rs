use vstd::prelude::*;
use crate::pattern::{Pattern, Refused, escaped};

verus! {

/// The filter settings of one column: an optional regular expression and one switch per
/// log level.
pub struct Filter {
    pub id: usize,
    pub regex: Option<Pattern>,
    pub trace: bool,
    pub debug: bool,
    pub info: bool,
    pub warn: bool,
    pub error: bool,
}

/// The source of the pattern of an optional regex, `None` when there is none.
pub open spec fn pattern_src(regex: Option<Pattern>) -> Option<Seq<char>> {
    match regex {
        Some(p) => Some(p.src()),
        None => None,
    }
}

/// The regex source that a column builds from the text in its filter box: the text itself
/// when it is to be read as a regex, else the text with every meta character escaped; then,
/// unless the search is case sensitive, prefixed with `(?i)`.
pub open spec fn filter_source(input: Seq<char>, use_regex: bool, case_sensitive: bool) -> Seq<char> {
    let body = if use_regex { input } else { escaped(input) };
    if case_sensitive { body } else { "(?i)"@ + body }
}

impl Filter {
    /// Two filters agree when they have the same id, the same switches and a regex with the
    /// same source (or both none).
    pub open spec fn same_as(&self, other: &Filter) -> bool {
        &&& self.id == other.id
        &&& pattern_src(self.regex) == pattern_src(other.regex)
        &&& self.trace == other.trace
        &&& self.debug == other.debug
        &&& self.info == other.info
        &&& self.warn == other.warn
        &&& self.error == other.error
    }

    /// A filter that shows everything: no regex, every level switched on.
    pub fn new(id: usize) -> (res: Self)
        ensures
            res.id == id,
            res.regex is None,
            res.trace && res.debug && res.info && res.warn && res.error,
    {
        Filter { id, regex: None, trace: true, debug: true, info: true, warn: true, error: true }
    }

    /// Compile the regex for the text of a filter box: `filter_source` is handed to the regex
    /// crate; a refusal carries that source back.
    pub fn compile(input: &str, use_regex: bool, case_sensitive: bool) -> (res: Result<Pattern, Refused>)
        ensures
            match res {
                Ok(p) => p.src() == filter_source(input@, use_regex, case_sensitive),
                Err(r) => r.source@ == filter_source(input@, use_regex, case_sensitive),
            },
    {
        let body: String = if use_regex { input.to_string() } else { crate::pattern::regex_escape(input) };
        proof { reveal_strlit("(?i)"); }
        let source: String = if case_sensitive { body } else { "(?i)".to_string().concat(body.as_str()) };
        Pattern::compile(source.as_str())
    }
}

impl Clone for Filter {
    fn clone(&self) -> (res: Self)
        ensures
            res.same_as(self),
    {
        let regex = match &self.regex {
            Some(p) => Some(p.clone()),
            None => None,
        };
        Filter {
            id: self.id,
            regex,
            trace: self.trace,
            debug: self.debug,
            info: self.info,
            warn: self.warn,
            error: self.error,
        }
    }
}

} // verus!
