use vstd::prelude::*;
use crate::Show;
use crate::entry::TextFormat;
use crate::filter::{Filter, filter_source, pattern_src};
use crate::pattern::{Pattern, Refused};

verus! {

/// Ask a column to remove itself; the id is that of the column.
#[derive(Debug, Default, Copy, Clone, PartialEq, Eq, Structural)]
pub struct DelColumn {
    pub id: usize,
}

/// Register a new column (by its id) with the control.
#[derive(Debug, Copy, Clone, PartialEq, Eq, Structural)]
pub struct InitColumn(pub usize);

/// The text of a column's filter box (or the regex switches) changed.
#[derive(Debug, Default, Copy, Clone, PartialEq, Eq, Structural)]
pub struct ChangeFilter;

/// Fold or unfold a column.
#[derive(Debug, Default, Copy, Clone, PartialEq, Eq, Structural)]
pub struct Collapse;

/// Build a column's controls and register it.
#[derive(Debug, Default, Copy, Clone, PartialEq, Eq, Structural)]
pub struct Render;

/// Switch trace lines on or off in a column.
#[derive(Debug, Default, Copy, Clone, PartialEq, Eq, Structural)]
pub struct ToggleTrace;

/// Switch debug lines on or off in a column.
#[derive(Debug, Default, Copy, Clone, PartialEq, Eq, Structural)]
pub struct ToggleDebug;

/// Switch info lines on or off in a column.
#[derive(Debug, Default, Copy, Clone, PartialEq, Eq, Structural)]
pub struct ToggleInfo;

/// Switch warn lines on or off in a column.
#[derive(Debug, Default, Copy, Clone, PartialEq, Eq, Structural)]
pub struct ToggleWarn;

/// Switch error lines on or off in a column.
#[derive(Debug, Default, Copy, Clone, PartialEq, Eq, Structural)]
pub struct ToggleError;

/// Add a column.
#[derive(Debug, Default, Copy, Clone, PartialEq, Eq, Structural)]
pub struct AddColumn;

/// Show the time of the entry under the mouse.
pub struct CurrentTime {
    pub time: String,
}

/// Expand or fold the field table of the entry with the given element id.
#[derive(Debug)]
pub struct ToggleEntry {
    pub id: String,
}

impl Clone for ToggleEntry {
    fn clone(&self) -> (res: Self)
        ensures
            res.id@ == self.id@,
    {
        ToggleEntry { id: self.id.clone() }
    }
}

/// What a column is told to do with its log view: take a fresh copy of the text block
/// (`block`), and apply a show vector to its lines (`filter`).
pub struct Update {
    pub block: bool,
    pub filter: Option<Vec<Show>>,
    pub format: TextFormat,
}

/// The classes a line of the log view gets: `hidden` and `display_none` are set or removed;
/// `odd` is set (`Some(true)`), removed (`Some(false)`) or left as it is (`None`).
#[derive(Debug, Copy, Clone, PartialEq, Eq, Structural)]
pub struct LineStyle {
    pub hidden: bool,
    pub display_none: bool,
    pub odd: Option<bool>,
}

/// The number of lines among the first `i` that are displayed (not display:none).
pub open spec fn displayed_before(filter: Seq<Show>, i: int) -> nat
    decreases i,
{
    if i <= 0 {
        0
    } else {
        displayed_before(filter, i - 1) + if filter[i - 1] == Show::NoDisplay { 0nat } else { 1nat }
    }
}

/// The style of line `i`: display:none lines are hidden and not displayed, their `odd` class
/// untouched; the other lines are displayed, hidden unless visible, and alternate odd/even
/// among themselves, starting with odd.
pub open spec fn line_style(filter: Seq<Show>, i: int) -> LineStyle {
    match filter[i] {
        Show::NoDisplay => LineStyle { hidden: true, display_none: true, odd: None },
        Show::Visible => LineStyle { hidden: false, display_none: false, odd: Some(displayed_before(filter, i) % 2 == 0) },
        Show::Hidden => LineStyle { hidden: true, display_none: false, odd: Some(displayed_before(filter, i) % 2 == 0) },
    }
}

/// The state of a column that its decisions depend on: its filter.
pub struct Column {
    pub filter: Filter,
}

/// What a change of the filter box led to.
#[derive(Debug, PartialEq, Eq)]
pub enum FilterChange {
    /// The text does not compile as a regex (the refused source is kept): the box is marked,
    /// nothing else changes.
    WrongRegex(Refused),
    /// Same regex as before: nothing to do.
    Unchanged,
    /// The filter has a new regex; the control has to hear of it.
    Changed,
}

/// What a node on the way from an event's target up to the document is, as far as finding the
/// clicked entry goes.
#[derive(Debug, Copy, Clone, PartialEq, Eq, Structural)]
pub struct NodeClasses {
    pub logview: bool,
    pub entry: bool,
}

/// The entry an event on `chain[0]` belongs to, `chain[k + 1]` being the parent of
/// `chain[k]`: the target itself when it is an entry; else the first ancestor that is an entry,
/// unless the walk meets the log view first (`None`), or runs out of ancestors (the last one).
/// An event on the log view itself belongs to no entry.
pub open spec fn entry_of(chain: Seq<NodeClasses>) -> Option<int> {
    if chain[0].logview {
        None
    } else if chain[0].entry {
        Some(0)
    } else {
        walk_up(chain, 0)
    }
}

/// Walking up from `chain[t]`, which is not an entry.
pub open spec fn walk_up(chain: Seq<NodeClasses>, t: int) -> Option<int>
    decreases chain.len() - t,
{
    if t + 1 >= chain.len() || t < 0 {
        Some(t)
    } else if chain[t].logview {
        None
    } else if chain[t + 1].entry {
        Some(t + 1)
    } else {
        walk_up(chain, t + 1)
    }
}

/// Lines that are displayed alternate between odd and even: of two displayed lines with only
/// display:none lines between them, exactly one is odd.
pub proof fn lemma_displayed_lines_alternate(filter: Seq<Show>, i: int, j: int)
    requires
        0 <= i < j < filter.len(),
        filter[i] != Show::NoDisplay,
        filter[j] != Show::NoDisplay,
        forall|t: int| i < t < j ==> filter[t] == Show::NoDisplay,
    ensures
        line_style(filter, i).odd is Some,
        line_style(filter, j).odd is Some,
        line_style(filter, i).odd != line_style(filter, j).odd,
    decreases j - i,
{
    lemma_displayed_between(filter, i, j);
}

/// Between a displayed line and the next displayed one, the count of displayed lines grows
/// by one.
proof fn lemma_displayed_between(filter: Seq<Show>, i: int, j: int)
    requires
        0 <= i < j <= filter.len(),
        filter[i] != Show::NoDisplay,
        forall|t: int| i < t < j ==> filter[t] == Show::NoDisplay,
    ensures
        displayed_before(filter, j) == displayed_before(filter, i) + 1,
    decreases j - i,
{
    if j > i + 1 {
        lemma_displayed_between(filter, i, j - 1);
    }
}

impl Column {
    /// A column showing everything.
    pub fn new(id: usize) -> (res: Self)
        ensures
            res.filter.id == id,
            res.filter.regex is None,
            res.filter.trace && res.filter.debug && res.filter.info && res.filter.warn && res.filter.error,
    {
        Column { filter: Filter::new(id) }
    }

    /// The classes to set on each line of the log view for the show vector `filter`.
    pub fn filter(filter: &[Show]) -> (res: Vec<LineStyle>)
        ensures
            res@.len() == filter@.len(),
            forall|i: int| 0 <= i < filter@.len() ==> #[trigger] res@[i] == line_style(filter@, i),
    {
        let mut res: Vec<LineStyle> = Vec::new();
        let mut odd = true;
        let mut i: usize = 0;
        while i < filter.len()
            invariant
                i <= filter@.len(),
                res@.len() == i,
                odd == (displayed_before(filter@, i as int) % 2 == 0),
                forall|t: int| 0 <= t < i ==> #[trigger] res@[t] == line_style(filter@, t),
            decreases filter@.len() - i,
        {
            let style = match filter[i] {
                Show::NoDisplay => LineStyle { hidden: true, display_none: true, odd: None },
                Show::Visible => {
                    let s = LineStyle { hidden: false, display_none: false, odd: Some(odd) };
                    odd = !odd;
                    s
                },
                Show::Hidden => {
                    let s = LineStyle { hidden: true, display_none: false, odd: Some(odd) };
                    odd = !odd;
                    s
                },
            };
            res.push(style);
            i += 1;
        }
        res
    }

    /// The `odd` class of each of `n` lines when no show vector applies: odd, even, odd, ...
    pub fn alternate(n: usize) -> (res: Vec<bool>)
        ensures
            res@.len() == n,
            forall|i: int| 0 <= i < n ==> #[trigger] res@[i] == (i % 2 == 0),
    {
        let mut res: Vec<bool> = Vec::new();
        let mut odd = true;
        let mut i: usize = 0;
        while i < n
            invariant
                i <= n,
                res@.len() == i,
                odd == (i % 2 == 0),
                forall|t: int| 0 <= t < i ==> #[trigger] res@[t] == (t % 2 == 0),
            decreases n - i,
        {
            res.push(odd);
            odd = !odd;
            i += 1;
        }
        res
    }

    /// Switch trace lines; returns whether they are now shown.
    pub fn on_toggle_trace(&mut self, msg: ToggleTrace) -> (res: bool)
        ensures
            final(self).filter.trace == !old(self).filter.trace,
            res == final(self).filter.trace,
            final(self).filter.id == old(self).filter.id,
            pattern_src(final(self).filter.regex) == pattern_src(old(self).filter.regex),
            final(self).filter.debug == old(self).filter.debug && final(self).filter.info == old(self).filter.info
                && final(self).filter.warn == old(self).filter.warn && final(self).filter.error == old(self).filter.error,
    {
        self.filter.trace = !self.filter.trace;
        self.filter.trace
    }

    /// Switch debug lines; returns whether they are now shown.
    pub fn on_toggle_debug(&mut self, msg: ToggleDebug) -> (res: bool)
        ensures
            final(self).filter.debug == !old(self).filter.debug,
            res == final(self).filter.debug,
            final(self).filter.id == old(self).filter.id,
            pattern_src(final(self).filter.regex) == pattern_src(old(self).filter.regex),
            final(self).filter.trace == old(self).filter.trace && final(self).filter.info == old(self).filter.info
                && final(self).filter.warn == old(self).filter.warn && final(self).filter.error == old(self).filter.error,
    {
        self.filter.debug = !self.filter.debug;
        self.filter.debug
    }

    /// Switch info lines; returns whether they are now shown.
    pub fn on_toggle_info(&mut self, msg: ToggleInfo) -> (res: bool)
        ensures
            final(self).filter.info == !old(self).filter.info,
            res == final(self).filter.info,
            final(self).filter.id == old(self).filter.id,
            pattern_src(final(self).filter.regex) == pattern_src(old(self).filter.regex),
            final(self).filter.trace == old(self).filter.trace && final(self).filter.debug == old(self).filter.debug
                && final(self).filter.warn == old(self).filter.warn && final(self).filter.error == old(self).filter.error,
    {
        self.filter.info = !self.filter.info;
        self.filter.info
    }

    /// Switch warn lines; returns whether they are now shown.
    pub fn on_toggle_warn(&mut self, msg: ToggleWarn) -> (res: bool)
        ensures
            final(self).filter.warn == !old(self).filter.warn,
            res == final(self).filter.warn,
            final(self).filter.id == old(self).filter.id,
            pattern_src(final(self).filter.regex) == pattern_src(old(self).filter.regex),
            final(self).filter.trace == old(self).filter.trace && final(self).filter.debug == old(self).filter.debug
                && final(self).filter.info == old(self).filter.info && final(self).filter.error == old(self).filter.error,
    {
        self.filter.warn = !self.filter.warn;
        self.filter.warn
    }

    /// Switch error lines; returns whether they are now shown.
    pub fn on_toggle_error(&mut self, msg: ToggleError) -> (res: bool)
        ensures
            final(self).filter.error == !old(self).filter.error,
            res == final(self).filter.error,
            final(self).filter.id == old(self).filter.id,
            pattern_src(final(self).filter.regex) == pattern_src(old(self).filter.regex),
            final(self).filter.trace == old(self).filter.trace && final(self).filter.debug == old(self).filter.debug
                && final(self).filter.info == old(self).filter.info && final(self).filter.warn == old(self).filter.warn,
    {
        self.filter.error = !self.filter.error;
        self.filter.error
    }

    /// The filter box holds `input`: build the regex (escaped unless `use_regex`, matching any
    /// case unless `case_sensitive`) and take it when it compiles and differs from the current
    /// one. Whether the regex crate accepts the source is its own decision; `take_pattern`
    /// says what follows from each outcome.
    pub fn on_change_filter(&mut self, msg: ChangeFilter, input: &str, use_regex: bool, case_sensitive: bool) -> (res: FilterChange)
        ensures
            final(self).filter.id == old(self).filter.id,
            final(self).filter.trace == old(self).filter.trace && final(self).filter.debug == old(self).filter.debug
                && final(self).filter.info == old(self).filter.info && final(self).filter.warn == old(self).filter.warn
                && final(self).filter.error == old(self).filter.error,
            ({
                let source = filter_source(input@, use_regex, case_sensitive);
                match res {
                    FilterChange::WrongRegex(r) => r.source@ == source
                        && pattern_src(final(self).filter.regex) == pattern_src(old(self).filter.regex),
                    FilterChange::Unchanged => pattern_src(old(self).filter.regex) == Some(source)
                        && pattern_src(final(self).filter.regex) == Some(source),
                    FilterChange::Changed => pattern_src(old(self).filter.regex) != Some(source)
                        && pattern_src(final(self).filter.regex) == Some(source),
                }
            }),
    {
        let compiled = Filter::compile(input, use_regex, case_sensitive);
        self.take_pattern(compiled)
    }

    /// Take the outcome of compiling the filter box: a refusal marks the box as wrong; a
    /// pattern with the source of the current one changes nothing; any other pattern becomes
    /// the column's regex.
    pub fn take_pattern(&mut self, compiled: Result<Pattern, Refused>) -> (res: FilterChange)
        ensures
            final(self).filter.id == old(self).filter.id,
            final(self).filter.trace == old(self).filter.trace && final(self).filter.debug == old(self).filter.debug
                && final(self).filter.info == old(self).filter.info && final(self).filter.warn == old(self).filter.warn
                && final(self).filter.error == old(self).filter.error,
            match compiled {
                Err(r) => res == FilterChange::WrongRegex(r) && pattern_src(final(self).filter.regex) == pattern_src(old(self).filter.regex),
                Ok(p) => if pattern_src(old(self).filter.regex) == Some(p.src()) {
                    res == FilterChange::Unchanged && pattern_src(final(self).filter.regex) == pattern_src(old(self).filter.regex)
                } else {
                    res == FilterChange::Changed && pattern_src(final(self).filter.regex) == Some(p.src())
                },
            },
    {
        match compiled {
            Err(r) => FilterChange::WrongRegex(r),
            Ok(re) => {
                let same = match &self.filter.regex {
                    Some(cur) => cur.as_str().to_string() == re.as_str().to_string(),
                    None => false,
                };
                if same {
                    FilterChange::Unchanged
                } else {
                    self.filter.regex = Some(re);
                    FilterChange::Changed
                }
            },
        }
    }

    /// The entry (as a position in `chain`) whose fields a click toggles: none while text is
    /// selected on the page (the type of the selection is `Range`), else the entry the click
    /// belongs to.
    pub fn clicked_entry(selection_type: Option<&str>, chain: &[NodeClasses]) -> (res: Option<usize>)
        requires
            chain@.len() > 0,
        ensures
            match res {
                Some(i) => !(selection_type matches Some(t) && t@ == "Range"@) && entry_of(chain@) == Some(i as int),
                None => (selection_type matches Some(t) && t@ == "Range"@) || entry_of(chain@) is None,
            },
    {
        if crate::util::is_text_selected(selection_type) {
            return None;
        }
        Self::find_entry(chain)
    }

    /// The entry (as a position in `chain`) an event belongs to; see `entry_of`.
    pub fn find_entry(chain: &[NodeClasses]) -> (res: Option<usize>)
        requires
            chain@.len() > 0,
        ensures
            match res {
                Some(i) => entry_of(chain@) == Some(i as int),
                None => entry_of(chain@) is None,
            },
    {
        if chain[0].logview {
            return None;
        }
        if chain[0].entry {
            return Some(0);
        }
        let mut t: usize = 0;
        while t < chain.len() - 1
            invariant
                t < chain@.len(),
                !chain@[0].logview,
                !chain@[0].entry,
                walk_up(chain@, t as int) == walk_up(chain@, 0),
            decreases chain@.len() - t,
        {
            if chain[t].logview {
                return None;
            }
            if chain[t + 1].entry {
                return Some(t + 1);
            }
            t += 1;
        }
        Some(t)
    }
}

} // verus!
