use tracing_prism::Show;
use tracing_prism::column::{ChangeFilter, Column, FilterChange, LineStyle, NodeClasses, ToggleDebug, ToggleError, ToggleInfo, ToggleTrace, ToggleWarn};
use tracing_prism::util::is_text_selected;
use tracing_prism::filter::Filter;
use tracing_prism::pattern::Refused;

#[test]
fn line_styles_alternate_over_displayed_lines() {
    let styles = Column::filter(&[Show::Visible, Show::NoDisplay, Show::Hidden, Show::Visible]);
    assert_eq!(styles[0], LineStyle { hidden: false, display_none: false, odd: Some(true) });
    assert_eq!(styles[1], LineStyle { hidden: true, display_none: true, odd: None });
    assert_eq!(styles[2], LineStyle { hidden: true, display_none: false, odd: Some(false) });
    assert_eq!(styles[3], LineStyle { hidden: false, display_none: false, odd: Some(true) });
}

#[test]
fn alternate_without_filter() {
    assert_eq!(Column::alternate(4), vec![true, false, true, false]);
    assert!(Column::alternate(0).is_empty());
}

#[test]
fn toggles_flip_one_switch() {
    let mut c = Column::new(3);
    assert!(!c.on_toggle_trace(ToggleTrace));
    assert!(!c.filter.trace && c.filter.debug);
    assert!(c.on_toggle_trace(ToggleTrace));
    assert!(!c.on_toggle_debug(ToggleDebug));
    assert!(!c.on_toggle_info(ToggleInfo));
    assert!(!c.on_toggle_warn(ToggleWarn));
    assert!(!c.on_toggle_error(ToggleError));
    assert!(c.filter.trace && !c.filter.debug && !c.filter.info && !c.filter.warn && !c.filter.error);
    assert_eq!(c.filter.id, 3);
}

#[test]
fn change_filter_outcomes() {
    let mut c = Column::new(0);
    assert_eq!(c.on_change_filter(ChangeFilter, "(", true, true), FilterChange::WrongRegex(Refused { source: "(".to_string() }));
    assert!(c.filter.regex.is_none());
    assert_eq!(c.on_change_filter(ChangeFilter, "x", false, false), FilterChange::Changed);
    assert_eq!(c.filter.regex.as_ref().unwrap().as_str(), "(?i)x");
    assert_eq!(c.on_change_filter(ChangeFilter, "x", false, false), FilterChange::Unchanged);
    assert_eq!(c.on_change_filter(ChangeFilter, "x", false, true), FilterChange::Changed);
    assert_eq!(c.filter.regex.as_ref().unwrap().as_str(), "x");
    // a wrong regex keeps the last good one
    assert_eq!(c.on_change_filter(ChangeFilter, "[", false, true), FilterChange::Changed);
    assert_eq!(c.on_change_filter(ChangeFilter, "[", true, false), FilterChange::WrongRegex(Refused { source: "(?i)[".to_string() }));
    assert_eq!(c.filter.regex.as_ref().unwrap().as_str(), "\\[");
    assert_eq!(c.on_change_filter(ChangeFilter, "x", false, true), FilterChange::Changed);
    assert_eq!(c.filter.regex.as_ref().unwrap().as_str(), "x");
}

#[test]
fn take_pattern_outcomes() {
    let mut c = Column::new(3);
    let refused = Filter::compile("(", true, true).err().unwrap();
    assert_eq!(c.take_pattern(Err(refused)), FilterChange::WrongRegex(Refused { source: "(".to_string() }));
    assert!(c.filter.regex.is_none());
    assert_eq!(c.take_pattern(Filter::compile("a.b", true, true)), FilterChange::Changed);
    assert_eq!(c.filter.regex.as_ref().unwrap().as_str(), "a.b");
    assert_eq!(c.take_pattern(Filter::compile("a.b", true, true)), FilterChange::Unchanged);
    assert_eq!(c.take_pattern(Err(Refused { source: "[".to_string() })), FilterChange::WrongRegex(Refused { source: "[".to_string() }));
    assert_eq!(c.filter.regex.as_ref().unwrap().as_str(), "a.b");
    assert_eq!(c.filter.id, 3);
}

fn node(logview: bool, entry: bool) -> NodeClasses {
    NodeClasses { logview, entry }
}

#[test]
fn find_entry_walks_up() {
    // click on the entry itself
    assert_eq!(Column::find_entry(&[node(false, true), node(true, false)]), Some(0));
    // click on the log view between entries
    assert_eq!(Column::find_entry(&[node(true, false), node(false, false)]), None);
    // click on a span inside a p inside the entry
    assert_eq!(Column::find_entry(&[node(false, false), node(false, false), node(false, true), node(true, false)]), Some(2));
    // no entry before the log view
    assert_eq!(Column::find_entry(&[node(false, false), node(true, false), node(false, false), node(false, false)]), None);
    // ran out of ancestors
    assert_eq!(Column::find_entry(&[node(false, false), node(false, false)]), Some(1));
    assert_eq!(Column::find_entry(&[node(false, false)]), Some(0));
}

#[test]
fn text_selection() {
    assert!(is_text_selected(Some("Range")));
    assert!(!is_text_selected(Some("Caret")));
    assert!(!is_text_selected(None));
}

#[test]
fn click_with_selected_text_toggles_nothing() {
    let chain = [node(false, false), node(false, true), node(true, false)];
    assert_eq!(Column::clicked_entry(Some("Range"), &chain), None);
    assert_eq!(Column::clicked_entry(Some("Caret"), &chain), Some(1));
    assert_eq!(Column::clicked_entry(None, &chain), Some(1));
    assert_eq!(Column::clicked_entry(None, &[node(true, false), node(false, false)]), None);
}
