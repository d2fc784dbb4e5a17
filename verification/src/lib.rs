use vstd::prelude::*;

pub mod json;
pub mod pattern;
pub mod filter;
pub mod text;
pub mod plain_entry;
pub mod json_entry;
pub mod entry;
pub mod control;
pub mod column;
pub mod html;
pub mod util;

verus! {

/// Whether a line is shown in a column.
#[derive(Debug, Copy, Clone, PartialEq, Eq, Structural)]
pub enum Show {
    /// display: none
    NoDisplay,
    /// visibility: hidden, display: block
    Hidden,
    /// visibility: visible, display: block
    Visible,
}

} // verus!
