use vstd::prelude::*;
use crate::filter::Filter;
use crate::json_entry::JsonEntry;
use crate::plain_entry::PlainEntry;
use crate::html::{Element, ElementV};
use crate::json_entry::{sorted_keys, object_members};

verus! {

/// The format of the log text that was loaded.
#[derive(Debug, Copy, Clone, PartialEq, Eq, Hash, Structural)]
pub enum TextFormat {
    Plain,
    Json,
}

/// One line of the log, in either format.
pub enum Entry {
    Plain(PlainEntry),
    Json(JsonEntry),
}

impl Entry {
    /// Whether this line is shown under `filter`.
    pub open spec fn shown_by(&self, filter: &Filter) -> bool {
        match self {
            Entry::Plain(e) => e.shown_by(filter),
            Entry::Json(e) => e.shown_by(filter),
        }
    }

    /// The line can be shown: a JSON record is an object whose keys, trimmed, resolve.
    pub open spec fn renders(&self) -> bool {
        match self {
            Entry::Plain(_) => true,
            Entry::Json(e) => e.value@ is Object && e.keys_resolve(),
        }
    }

    /// The element that shows this line.
    pub open spec fn html_view(&self) -> ElementV {
        match self {
            Entry::Plain(e) => e.html_view(),
            Entry::Json(e) => e.html_view(sorted_keys(object_members(e.value@))),
        }
    }

    /// Whether the line can be shown.
    pub fn can_render(&self) -> (res: bool)
        ensures
            res == self.renders(),
    {
        match self {
            Entry::Plain(_) => true,
            Entry::Json(e) => {
                let is_object = match &e.value {
                    crate::json::Json::Object(_) => true,
                    _ => false,
                };
                is_object && e.resolves_keys()
            },
        }
    }

    /// Build the element that shows this line.
    pub fn html(&self) -> (res: Element)
        requires
            self.renders(),
        ensures
            res@ == self.html_view(),
    {
        match self {
            Entry::Plain(e) => e.html(),
            Entry::Json(e) => e.html(),
        }
    }

    /// Should this line be shown for the given filter?
    pub fn matches(&mut self, filter: &Filter) -> (res: bool)
        ensures
            *final(self) == *old(self),
            res == old(self).shown_by(filter),
    {
        self.passes(filter)
    }

    pub(crate) fn passes(&self, filter: &Filter) -> (res: bool)
        ensures
            res == self.shown_by(filter),
    {
        match self {
            Entry::Plain(e) => e.matches(filter),
            Entry::Json(e) => e.passes(filter),
        }
    }
}

} // verus!
