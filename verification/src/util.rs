use vstd::prelude::*;

verus! {

/// Whether the page has text selected, given the type of its selection (`None` when there is
/// no selection object): only a selection of type `Range` selects text.
pub fn is_text_selected(selection_type: Option<&str>) -> (res: bool)
    ensures
        res == (selection_type matches Some(t) && t@ == "Range"@),
{
    match selection_type {
        Some(t) => {
            let range: String = "Range".to_string();
            t.to_string() == range
        },
        None => false,
    }
}

} // verus!
