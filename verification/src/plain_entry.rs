use vstd::prelude::*;
use crate::filter::Filter;
use crate::text::{contains, contains_text};
use crate::html::{Element, ElementV, leaf, texts_view};

verus! {

/// The level of a plain text log line.
#[derive(Debug, Copy, Clone, PartialEq, Eq, Structural)]
pub enum LogLevel {
    Trace,
    Debug,
    Info,
    Warn,
    Error,
    Unknown,
}

/// The level of a plain line: the first of `"TRACE "`, `"DEBUG "`, `"INFO "`, `"WARN "`,
/// `"ERROR "` (in that order) that occurs in it, else `Unknown`.
pub open spec fn plain_level(txt: Seq<char>) -> LogLevel {
    if contains_text(txt, "TRACE "@) {
        LogLevel::Trace
    } else if contains_text(txt, "DEBUG "@) {
        LogLevel::Debug
    } else if contains_text(txt, "INFO "@) {
        LogLevel::Info
    } else if contains_text(txt, "WARN "@) {
        LogLevel::Warn
    } else if contains_text(txt, "ERROR "@) {
        LogLevel::Error
    } else {
        LogLevel::Unknown
    }
}

/// Whether the level switches of `filter` let a line of level `lvl` through. Lines of
/// unknown level always pass.
pub open spec fn level_passes(lvl: LogLevel, filter: &Filter) -> bool {
    match lvl {
        LogLevel::Trace => filter.trace,
        LogLevel::Debug => filter.debug,
        LogLevel::Info => filter.info,
        LogLevel::Warn => filter.warn,
        LogLevel::Error => filter.error,
        LogLevel::Unknown => true,
    }
}

/// Whether the regex of `filter`, if it has one, matches `text`.
pub open spec fn regex_passes(filter: &Filter, text: Seq<char>) -> bool {
    match filter.regex {
        Some(p) => crate::pattern::regex_is_match(p.src(), text),
        None => true,
    }
}

/// The CSS class that shows a level.
pub open spec fn level_class(lvl: LogLevel) -> Seq<char> {
    match lvl {
        LogLevel::Trace => "trace"@,
        LogLevel::Debug => "debug"@,
        LogLevel::Info => "info"@,
        LogLevel::Warn => "warn"@,
        LogLevel::Error => "error"@,
        LogLevel::Unknown => "unknown_loglvl"@,
    }
}

/// The CSS class of a level, as a string.
fn level_class_str(lvl: LogLevel) -> (res: &'static str)
    ensures
        res@ == level_class(lvl),
{
    match lvl {
        LogLevel::Trace => "trace",
        LogLevel::Debug => "debug",
        LogLevel::Info => "info",
        LogLevel::Warn => "warn",
        LogLevel::Error => "error",
        LogLevel::Unknown => "unknown_loglvl",
    }
}

/// One line of a plain text log.
pub struct PlainEntry {
    pub lvl: LogLevel,
    pub txt: String,
}

impl PlainEntry {
    /// Whether this line is shown under `filter`.
    pub open spec fn shown_by(&self, filter: &Filter) -> bool {
        regex_passes(filter, self.txt@) && level_passes(self.lvl, filter)
    }

    /// The element that shows this line: a `div` with classes `entry` and the level's class,
    /// holding a `p` with the text.
    pub open spec fn html_view(&self) -> ElementV {
        ElementV {
            tag: "div"@,
            classes: seq!["entry"@, level_class(self.lvl)],
            attributes: Seq::empty(),
            text: None,
            children: seq![leaf("p"@, Seq::empty(), Some(self.txt@))],
        }
    }

    /// Build the element that shows this line.
    pub fn html(&self) -> (res: Element)
        ensures
            res@ == self.html_view(),
    {
        let p = Element::new("p", Vec::new(), Vec::new(), Some(self.txt.clone()), Vec::new());
        proof {
            assert(p@.children =~= Seq::empty());
            assert(p@.classes =~= Seq::empty());
            assert(p@.attributes =~= Seq::empty());
        }
        let classes = vec!["entry".to_string(), level_class_str(self.lvl).to_string()];
        let div = Element::new("div", classes, Vec::new(), None, vec![p]);
        proof {
            assert(div@.classes =~= seq!["entry"@, level_class(self.lvl)]);
            assert(div@.attributes =~= Seq::empty());
            assert(div@.children =~= seq![leaf("p"@, Seq::empty(), Some(self.txt@))]);
        }
        div
    }

    /// Detect the level of a line.
    pub fn new(txt: String) -> (res: Self)
        ensures
            res.txt@ == txt@,
            res.lvl == plain_level(txt@),
    {
        let lvl = if contains(txt.as_str(), "TRACE ") {
            LogLevel::Trace
        } else if contains(txt.as_str(), "DEBUG ") {
            LogLevel::Debug
        } else if contains(txt.as_str(), "INFO ") {
            LogLevel::Info
        } else if contains(txt.as_str(), "WARN ") {
            LogLevel::Warn
        } else if contains(txt.as_str(), "ERROR ") {
            LogLevel::Error
        } else {
            LogLevel::Unknown
        };
        PlainEntry { lvl, txt }
    }

    /// Should this line be shown for the given filter?
    pub fn matches(&self, filter: &Filter) -> (res: bool)
        ensures
            res == self.shown_by(filter),
    {
        let mut show = true;
        if let Some(regex) = &filter.regex {
            if !regex.is_match(self.txt.as_str()) {
                show = false;
            }
        }
        match self.lvl {
            LogLevel::Trace => if !filter.trace { show = false },
            LogLevel::Debug => if !filter.debug { show = false },
            LogLevel::Info => if !filter.info { show = false },
            LogLevel::Warn => if !filter.warn { show = false },
            LogLevel::Error => if !filter.error { show = false },
            LogLevel::Unknown => {},
        }
        show
    }
}

/// `m` occurs nowhere in `t`.
pub open spec fn absent(t: Seq<char>, m: Seq<char>) -> bool {
    forall|i: int| 0 <= i && i + m.len() <= t.len() ==> #[trigger] t.subrange(i, i + m.len()) != m
}

/// If `m` stands in `t` at position `i`, `t` contains it; if it occurs nowhere, it does not.
proof fn lemma_found_or_absent(t: Seq<char>, m: Seq<char>, i: int)
    ensures
        0 <= i && i + m.len() <= t.len() && t.subrange(i, i + m.len()) == m ==> contains_text(t, m),
        absent(t, m) ==> !contains_text(t, m),
{
    if 0 <= i && i + m.len() <= t.len() && t.subrange(i, i + m.len()) == m {
        assert(crate::text::occurs_at(t, m, i));
    }
    if absent(t, m) && contains_text(t, m) {
        let j = choose|j: int| crate::text::occurs_at(t, m, j);
        assert(t.subrange(j, j + m.len()) == m);
    }
}

/// The level of a plain line is named by a marker that may stand anywhere in it (after a
/// timestamp, say): the first of `TRACE `, `DEBUG `, `INFO `, `WARN `, `ERROR `, in that
/// order, that the line contains decides the level.
pub proof fn lemma_level_marker_anywhere(pre: Seq<char>, post: Seq<char>)
    ensures
        plain_level(pre + "TRACE "@ + post) == LogLevel::Trace,
        ({
            let t = pre + "DEBUG "@ + post;
            absent(t, "TRACE "@) ==> plain_level(t) == LogLevel::Debug
        }),
        ({
            let t = pre + "INFO "@ + post;
            absent(t, "TRACE "@) && absent(t, "DEBUG "@) ==> plain_level(t) == LogLevel::Info
        }),
        ({
            let t = pre + "WARN "@ + post;
            absent(t, "TRACE "@) && absent(t, "DEBUG "@) && absent(t, "INFO "@) ==> plain_level(t) == LogLevel::Warn
        }),
        ({
            let t = pre + "ERROR "@ + post;
            absent(t, "TRACE "@) && absent(t, "DEBUG "@) && absent(t, "INFO "@) && absent(t, "WARN "@)
                ==> plain_level(t) == LogLevel::Error
        }),
{
    reveal_strlit("TRACE ");
    reveal_strlit("DEBUG ");
    reveal_strlit("INFO ");
    reveal_strlit("WARN ");
    reveal_strlit("ERROR ");
    let p = pre.len() as int;
    let t = pre + "TRACE "@ + post;
    assert(t.subrange(p, p + 6) =~= "TRACE "@);
    lemma_found_or_absent(t, "TRACE "@, p);
    let t = pre + "DEBUG "@ + post;
    assert(t.subrange(p, p + 6) =~= "DEBUG "@);
    lemma_found_or_absent(t, "DEBUG "@, p);
    lemma_found_or_absent(t, "TRACE "@, p);
    let t = pre + "INFO "@ + post;
    assert(t.subrange(p, p + 5) =~= "INFO "@);
    lemma_found_or_absent(t, "INFO "@, p);
    lemma_found_or_absent(t, "TRACE "@, p);
    lemma_found_or_absent(t, "DEBUG "@, p);
    let t = pre + "WARN "@ + post;
    assert(t.subrange(p, p + 5) =~= "WARN "@);
    lemma_found_or_absent(t, "WARN "@, p);
    lemma_found_or_absent(t, "TRACE "@, p);
    lemma_found_or_absent(t, "DEBUG "@, p);
    lemma_found_or_absent(t, "INFO "@, p);
    let t = pre + "ERROR "@ + post;
    assert(t.subrange(p, p + 6) =~= "ERROR "@);
    lemma_found_or_absent(t, "ERROR "@, p);
    lemma_found_or_absent(t, "TRACE "@, p);
    lemma_found_or_absent(t, "DEBUG "@, p);
    lemma_found_or_absent(t, "INFO "@, p);
    lemma_found_or_absent(t, "WARN "@, p);
}

/// A line without any of the markers has an unknown level.
pub proof fn lemma_no_marker_unknown(t: Seq<char>)
    ensures
        absent(t, "TRACE "@) && absent(t, "DEBUG "@) && absent(t, "INFO "@) && absent(t, "WARN "@)
            && absent(t, "ERROR "@) ==> plain_level(t) == LogLevel::Unknown,
{
    lemma_found_or_absent(t, "TRACE "@, 0);
    lemma_found_or_absent(t, "DEBUG "@, 0);
    lemma_found_or_absent(t, "INFO "@, 0);
    lemma_found_or_absent(t, "WARN "@, 0);
    lemma_found_or_absent(t, "ERROR "@, 0);
}

/// A line of a known level is hidden when the switch named after its level is off, whatever
/// the other switches say, and shown when that switch is on and there is no regex. A line of
/// unknown level is shown under any switches when there is no regex.
pub proof fn lemma_level_switch(e: PlainEntry, f: Filter)
    ensures
        e.lvl == LogLevel::Trace ==> (!f.trace ==> !e.shown_by(&f)) && (f.trace && f.regex is None ==> e.shown_by(&f)),
        e.lvl == LogLevel::Debug ==> (!f.debug ==> !e.shown_by(&f)) && (f.debug && f.regex is None ==> e.shown_by(&f)),
        e.lvl == LogLevel::Info ==> (!f.info ==> !e.shown_by(&f)) && (f.info && f.regex is None ==> e.shown_by(&f)),
        e.lvl == LogLevel::Warn ==> (!f.warn ==> !e.shown_by(&f)) && (f.warn && f.regex is None ==> e.shown_by(&f)),
        e.lvl == LogLevel::Error ==> (!f.error ==> !e.shown_by(&f)) && (f.error && f.regex is None ==> e.shown_by(&f)),
        e.lvl == LogLevel::Unknown ==> (f.regex is None ==> e.shown_by(&f)),
{
}

/// The lowercase of a text: the letters `A` to `Z` become `a` to `z`, the rest stays.
pub open spec fn ascii_lower(s: Seq<char>) -> Seq<char> {
    Seq::new(s.len(), |i: int| if 'A' <= s[i] <= 'Z' { (s[i] as int + 32) as char } else { s[i] })
}

/// A line is styled by a class named after its level: the level's name in lowercase
/// (`unknown_loglvl` for a line without one); each level has its own class.
pub proof fn lemma_level_class_names()
    ensures
        level_class(LogLevel::Trace) == ascii_lower("TRACE"@),
        level_class(LogLevel::Debug) == ascii_lower("DEBUG"@),
        level_class(LogLevel::Info) == ascii_lower("INFO"@),
        level_class(LogLevel::Warn) == ascii_lower("WARN"@),
        level_class(LogLevel::Error) == ascii_lower("ERROR"@),
        level_class(LogLevel::Unknown) == "unknown_loglvl"@,
        forall|a: LogLevel, b: LogLevel| #[trigger] level_class(a) == #[trigger] level_class(b) ==> a == b,
{
    reveal_strlit("TRACE");
    reveal_strlit("DEBUG");
    reveal_strlit("INFO");
    reveal_strlit("WARN");
    reveal_strlit("ERROR");
    reveal_strlit("trace");
    reveal_strlit("debug");
    reveal_strlit("info");
    reveal_strlit("warn");
    reveal_strlit("error");
    reveal_strlit("unknown_loglvl");
    assert(level_class(LogLevel::Trace) =~= ascii_lower("TRACE"@));
    assert(level_class(LogLevel::Debug) =~= ascii_lower("DEBUG"@));
    assert(level_class(LogLevel::Info) =~= ascii_lower("INFO"@));
    assert(level_class(LogLevel::Warn) =~= ascii_lower("WARN"@));
    assert(level_class(LogLevel::Error) =~= ascii_lower("ERROR"@));
    assert forall|a: LogLevel, b: LogLevel| #[trigger] level_class(a) == #[trigger] level_class(b) implies a == b by {
        assert(level_class(a)[0] == level_class(b)[0]);
    }
}

} // verus!
