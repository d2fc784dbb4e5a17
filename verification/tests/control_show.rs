use std::collections::HashMap;
use tracing_prism::Show;
use tracing_prism::column::{DelColumn, InitColumn, ToggleEntry};
use tracing_prism::control::{Control, SetText};
use tracing_prism::entry::{Entry, TextFormat};
use tracing_prism::filter::Filter;
use tracing_prism::plain_entry::PlainEntry;

fn plain(lines: &[&str]) -> Option<Vec<Entry>> {
    Some(lines.iter().map(|l| Entry::Plain(PlainEntry::new(l.to_string()))).collect())
}

fn regex_filter(id: usize, re: &str) -> Filter {
    let mut f = Filter::new(id);
    f.regex = Filter::compile(re, true, true).ok();
    f
}

use Show::{Hidden, NoDisplay, Visible};

#[test]
fn filter_without_text_does_nothing() {
    let mut lines: Option<Vec<Entry>> = None;
    let mut show = HashMap::new();
    let mut f = regex_filter(0, "a");
    assert!(Control::filter(&mut lines, &mut show, &mut f, true).is_empty());
    assert!(show.is_empty());
}

#[test]
fn filter_marks_own_row() {
    let mut lines = plain(&["a", "b", "ab"]);
    let mut show = HashMap::new();
    let mut f = regex_filter(0, "a");
    // not every column has a filter: non-matching lines are only hidden
    assert!(Control::filter(&mut lines, &mut show, &mut f, false).is_empty());
    assert_eq!(show[&0], vec![Visible, Hidden, Visible]);
    // every column has a filter and no other column shows "b": display none
    let mut show = HashMap::new();
    assert!(Control::filter(&mut lines, &mut show, &mut f, true).is_empty());
    assert_eq!(show[&0], vec![Visible, NoDisplay, Visible]);
}

#[test]
fn filter_updates_other_columns() {
    let mut lines = plain(&["a", "b", "c"]);
    let mut show = HashMap::new();
    let mut fa = regex_filter(0, "a");
    let mut fb = regex_filter(1, "b");
    let _ = Control::filter(&mut lines, &mut show, &mut fa, true);
    assert_eq!(show[&0], vec![Visible, NoDisplay, NoDisplay]);
    // column 1 shows "b": column 0 must give its space back to it
    assert_eq!(Control::filter(&mut lines, &mut show, &mut fb, true), vec![0]);
    assert_eq!(show[&1], vec![Hidden, Visible, NoDisplay]);
    assert_eq!(show[&0], vec![Visible, Hidden, NoDisplay]);
    // column 1 now shows nothing but "c": "b" disappears everywhere
    let mut fc = regex_filter(1, "c");
    assert_eq!(Control::filter(&mut lines, &mut show, &mut fc, true), vec![0]);
    assert_eq!(show[&1], vec![Hidden, NoDisplay, Visible]);
    assert_eq!(show[&0], vec![Visible, NoDisplay, Hidden]);
    // the same filter again changes nothing elsewhere
    assert!(Control::filter(&mut lines, &mut show, &mut fc, true).is_empty());
}

#[test]
fn filter_keeps_rows_past_the_text() {
    let mut lines = plain(&["a", "b"]);
    let mut show = HashMap::new();
    show.insert(0, vec![Hidden, Hidden, NoDisplay]);
    // a row of another column, of any length, is untouched when not every column has a filter
    show.insert(1, vec![NoDisplay]);
    let mut f = regex_filter(0, "a");
    assert!(Control::filter(&mut lines, &mut show, &mut f, false).is_empty());
    assert_eq!(show[&0], vec![Visible, Hidden, NoDisplay]);
    assert_eq!(show[&1], vec![NoDisplay]);
    // every column has a filter: the first entries of the other rows are rewritten, the rest kept
    let mut show = HashMap::new();
    show.insert(1, vec![NoDisplay, Visible, Hidden]);
    assert_eq!(Control::filter(&mut lines, &mut show, &mut f, true), vec![1]);
    assert_eq!(show[&1], vec![Hidden, Visible, Hidden]);
    assert_eq!(show[&0], vec![Visible, Hidden]);
}

fn ready_control(cols: &[usize]) -> Control {
    let mut c = Control::new();
    for id in cols {
        let _ = c.on_init_column(InitColumn(*id));
    }
    c
}

#[test]
fn control_starts_empty() {
    let c = Control::new();
    assert!(c.lines.is_none());
    assert!(c.format.is_none());
    assert!(c.all_have_filters());
}

#[test]
fn set_text_sends_block_to_every_column() {
    let mut c = ready_control(&[0, 1]);
    assert!(!c.all_have_filters());
    let ups = c.on_set_text(SetText { text: "INFO a\nWARN b".to_string() });
    assert_eq!(c.format, Some(TextFormat::Plain));
    assert_eq!(ups.len(), 2);
    let mut cols: Vec<usize> = ups.iter().map(|u| u.column).collect();
    cols.sort();
    assert_eq!(cols, vec![0, 1]);
    for u in &ups {
        assert!(u.update.block);
        assert!(u.update.filter.is_none());
        assert_eq!(u.update.format, TextFormat::Plain);
    }
    let block = c.render_block().unwrap();
    assert_eq!(block.classes, vec!["logview".to_string()]);
    assert_eq!(block.children.len(), 2);
    assert_eq!(block.children[1].attributes, vec![("id".to_string(), "e1".to_string())]);
    assert_eq!(block.children[0].classes, vec!["entry".to_string(), "info".to_string()]);
}

#[test]
fn filter_message_updates_columns() {
    let mut c = ready_control(&[0, 1]);
    let _ = c.on_set_text(SetText { text: "a\nb\nc".to_string() });
    let ups = c.on_filter(regex_filter(0, "a"));
    assert_eq!(ups.len(), 1);
    assert_eq!(ups[0].column, 0);
    assert_eq!(ups[0].update.filter, Some(vec![Visible, Hidden, Hidden]));
    assert!(!ups[0].update.block);
    // now every column has a filter: lines nobody shows disappear in both columns
    let ups = c.on_filter(regex_filter(1, "b"));
    assert!(c.all_have_filters());
    assert_eq!(ups[0].column, 1);
    assert_eq!(ups[0].update.filter, Some(vec![Hidden, Visible, NoDisplay]));
    assert_eq!(ups.len(), 2);
    assert_eq!(ups[1].column, 0);
    assert_eq!(ups[1].update.filter, Some(vec![Visible, Hidden, NoDisplay]));
}

#[test]
fn filter_before_text_only_remembers() {
    let mut c = ready_control(&[4]);
    let ups = c.on_filter(regex_filter(4, "a"));
    assert!(ups.is_empty());
    assert!(c.show.is_empty());
    assert!(c.filters.contains_key(&4));
    // the text comes later: the filter is applied then
    let ups = c.on_set_text(SetText { text: "a\nb".to_string() });
    assert_eq!(ups.len(), 1);
    assert_eq!(ups[0].update.filter, Some(vec![Visible, NoDisplay]));
}

#[test]
fn new_column_removes_display_none() {
    let mut c = ready_control(&[0]);
    let _ = c.on_set_text(SetText { text: "a\nb".to_string() });
    let _ = c.on_filter(regex_filter(0, "a"));
    assert_eq!(c.show[&0], vec![Visible, NoDisplay]);
    let ups = c.on_init_column(InitColumn(9));
    assert_eq!(c.show[&0], vec![Visible, Hidden]);
    assert_eq!(ups.len(), 2);
    assert_eq!(ups[0].column, 0);
    assert_eq!(ups[0].update.filter, Some(vec![Visible, Hidden]));
    assert_eq!(ups[1].column, 9);
    assert!(ups[1].update.block);
    assert!(ups[1].update.filter.is_none());
}

#[test]
fn deleting_a_column_reapplies_filters() {
    let mut c = ready_control(&[0, 1]);
    let _ = c.on_set_text(SetText { text: "a\nb\nc".to_string() });
    let _ = c.on_filter(regex_filter(0, "a"));
    let _ = c.on_filter(regex_filter(1, "b"));
    assert_eq!(c.show[&0], vec![Visible, Hidden, NoDisplay]);
    let ups = c.on_del_column(DelColumn { id: 1 });
    assert_eq!(ups.len(), 1);
    assert_eq!(ups[0].column, 0);
    assert!(ups[0].update.block);
    // "b" was only shown by the deleted column
    assert_eq!(c.show[&0], vec![Visible, NoDisplay, NoDisplay]);
    assert_eq!(ups[0].update.filter, Some(vec![Visible, NoDisplay, NoDisplay]));
    assert!(!c.filters.contains_key(&1));
}

#[test]
fn toggle_entry_goes_to_every_column() {
    let c = ready_control(&[2, 5, 7]);
    let mut cols = c.on_toggle_entry(&ToggleEntry { id: "e3".to_string() });
    cols.sort();
    assert_eq!(cols, vec![2, 5, 7]);
}

#[test]
fn json_text_is_detected() {
    let mut c = ready_control(&[0]);
    let _ = c.on_set_text(SetText { text: r#"{"message":"hi","target":"t","level":"WARN"}"#.to_string() });
    assert_eq!(c.format, Some(TextFormat::Json));
    let block = c.render_block().unwrap();
    assert_eq!(block.children[0].classes, vec!["entry".to_string(), "warn".to_string()]);
    assert_eq!(block.children[0].attributes, vec![("id".to_string(), "e0".to_string())]);
}

#[test]
fn unrenderable_json_gives_no_block() {
    let mut c = ready_control(&[0]);
    let _ = c.on_set_text(SetText { text: r#"{"message":"hi","target":"t"," x":1}"#.to_string() });
    assert_eq!(c.format, Some(TextFormat::Json));
    assert!(c.render_block().is_none());
}
