use vstd::prelude::*;
use regex::Regex;

verus! {

/// `regex::Regex`, a compiled regular expression; opaque here.
#[verifier::external_type_specification]
#[verifier::external_body]
pub struct ExRegex(regex::Regex);

/// Whether the regular expression compiled from `pattern` matches somewhere in `haystack`.
pub uninterp spec fn regex_is_match(pattern: Seq<char>, haystack: Seq<char>) -> bool;

/// Whether `c` is one of the characters that `regex::escape` prefixes with a backslash.
pub open spec fn is_meta_character(c: char) -> bool {
    c == '\\' || c == '.' || c == '+' || c == '*' || c == '?' || c == '(' || c == ')' || c == '|'
        || c == '[' || c == ']' || c == '{' || c == '}' || c == '^' || c == '$' || c == '#'
        || c == '&' || c == '-' || c == '~'
}

/// The text that `regex::escape` produces for `text`: every meta character is preceded by a
/// backslash, every other character is kept.
pub open spec fn escaped(text: Seq<char>) -> Seq<char>
    decreases text.len(),
{
    if text.len() == 0 {
        Seq::empty()
    } else {
        let c = text.last();
        let prefix = escaped(text.drop_last());
        if is_meta_character(c) {
            prefix.push('\\').push(c)
        } else {
            prefix.push(c)
        }
    }
}

/// `regex::escape`: the regex-syntax source escapes exactly the characters of
/// `is_meta_character` with a backslash and copies all others.
#[verifier::external_body]
pub(crate) fn regex_escape(text: &str) -> (res: String)
    ensures
        res@ == escaped(text@),
{
    regex::escape(text)
}

/// A regular expression source that the regex crate refused to compile.
#[derive(Debug, PartialEq, Eq)]
pub struct Refused {
    pub source: String,
}

/// A compiled regular expression together with the source it was compiled from.
pub struct Pattern {
    source: String,
    re: Regex,
}

/// `regex::Regex::clone`: nothing about the compiled automaton is stated; the source that a
/// `Pattern` keeps beside it is what the contracts speak of.
pub assume_specification[ <regex::Regex as Clone>::clone ](re: &Regex) -> Regex;

impl Clone for Pattern {
    fn clone(&self) -> (res: Self)
        ensures
            res.src() == self.src(),
    {
        Pattern { source: self.source.clone(), re: self.re.clone() }
    }
}

impl Pattern {
    /// The source text of the regular expression.
    pub closed spec fn src(&self) -> Seq<char> {
        self.source@
    }

    /// `regex::Regex::new`: compiles `source`. Whether it is accepted is left open: besides the
    /// syntax, the crate refuses automata above a size limit counted in bytes, which depends on
    /// the machine. Whatever comes back holds the source that was handed over: the pattern
    /// remembers it, a refusal carries it.
    #[verifier::external_body]
    pub(crate) fn compile(source: &str) -> (res: Result<Pattern, Refused>)
        ensures
            match res {
                Ok(p) => p.src() == source@,
                Err(r) => r.source@ == source@,
            },
    {
        match Regex::new(source) {
            Ok(re) => Ok(Pattern { source: source.to_string(), re }),
            Err(_) => Err(Refused { source: source.to_string() }),
        }
    }

    /// `regex::Regex::is_match`: whether the compiled expression matches somewhere in `haystack`.
    #[verifier::external_body]
    pub(crate) fn is_match(&self, haystack: &str) -> (res: bool)
        ensures
            res == regex_is_match(self.src(), haystack@),
    {
        self.re.is_match(haystack)
    }

    /// The source text the pattern was compiled from.
    pub fn as_str(&self) -> (res: &str)
        ensures
            res@ == self.src(),
    {
        self.source.as_str()
    }
}

} // verus!
