use tracing_prism::filter::Filter;
use tracing_prism::plain_entry::{LogLevel, PlainEntry};
use tracing_prism::text::{contains, lines, trim};

#[test]
fn level_is_first_marker_found() {
    assert_eq!(PlainEntry::new("2020 TRACE something".to_string()).lvl, LogLevel::Trace);
    assert_eq!(PlainEntry::new("DEBUG x".to_string()).lvl, LogLevel::Debug);
    assert_eq!(PlainEntry::new(" INFO ok".to_string()).lvl, LogLevel::Info);
    assert_eq!(PlainEntry::new("WARN careful".to_string()).lvl, LogLevel::Warn);
    assert_eq!(PlainEntry::new("ERROR boom".to_string()).lvl, LogLevel::Error);
    // the marker needs its trailing space
    assert_eq!(PlainEntry::new("INFO".to_string()).lvl, LogLevel::Unknown);
    // TRACE is looked for before ERROR
    assert_eq!(PlainEntry::new("ERROR TRACE ".to_string()).lvl, LogLevel::Trace);
}

#[test]
fn plain_entry_keeps_text() {
    let e = PlainEntry::new("hello WARN world".to_string());
    assert_eq!(e.txt, "hello WARN world");
}

#[test]
fn unknown_level_always_passes_level_switches() {
    let mut f = Filter::new(3);
    f.trace = false;
    f.debug = false;
    f.info = false;
    f.warn = false;
    f.error = false;
    assert!(PlainEntry::new("no level here".to_string()).matches(&f));
    assert!(!PlainEntry::new("INFO here".to_string()).matches(&f));
}

#[test]
fn level_switch_hides_its_level_only() {
    let mut f = Filter::new(0);
    f.debug = false;
    assert!(!PlainEntry::new("DEBUG a".to_string()).matches(&f));
    assert!(PlainEntry::new("INFO a".to_string()).matches(&f));
}

#[test]
fn regex_filter_on_plain_lines() {
    let mut f = Filter::new(0);
    f.regex = Filter::compile("wor", false, true).ok();
    assert!(f.regex.is_some());
    assert!(PlainEntry::new("INFO hello world".to_string()).matches(&f));
    assert!(!PlainEntry::new("INFO hello WORLD".to_string()).matches(&f));
    // case insensitive
    f.regex = Filter::compile("wor", false, false).ok();
    assert!(PlainEntry::new("INFO hello WORLD".to_string()).matches(&f));
}

#[test]
fn escaped_input_is_literal() {
    let mut f = Filter::new(0);
    f.regex = Filter::compile("a.b", false, true).ok();
    assert!(PlainEntry::new("a.b".to_string()).matches(&f));
    assert!(!PlainEntry::new("axb".to_string()).matches(&f));
    f.regex = Filter::compile("a.b", true, true).ok();
    assert!(PlainEntry::new("axb".to_string()).matches(&f));
}

#[test]
fn compile_source_text() {
    let p = Filter::compile("a+b", false, false).ok().unwrap();
    assert_eq!(p.as_str(), "(?i)a\\+b");
    let p = Filter::compile("a+b", true, true).ok().unwrap();
    assert_eq!(p.as_str(), "a+b");
    let refused = Filter::compile("(", true, true).err().unwrap();
    assert_eq!(refused.source, "(");
    assert_eq!(Filter::compile("(", false, false).ok().unwrap().as_str(), "(?i)\\(");
}

#[test]
fn new_filter_shows_everything() {
    let f = Filter::new(7);
    assert_eq!(f.id, 7);
    assert!(f.regex.is_none());
    assert!(f.trace && f.debug && f.info && f.warn && f.error);
    for l in ["TRACE a", "DEBUG b", "INFO c", "WARN d", "ERROR e", "x"] {
        assert!(PlainEntry::new(l.to_string()).matches(&f));
    }
}

#[test]
fn lines_split_like_std() {
    for text in ["", "a", "a\n", "a\nb", "a\r\nb\r\n", "\n\n", "a\r", "x\ny\n\nz"] {
        let ours = lines(text);
        let std: Vec<String> = text.lines().map(|l| l.to_string()).collect();
        assert_eq!(ours, std, "text {:?}", text);
    }
}

#[test]
fn trim_like_std() {
    for s in ["", "  a b ", "\t\nx\u{3000}", "   ", "plain"] {
        assert_eq!(trim(s), s.trim());
    }
}

#[test]
fn contains_like_std() {
    assert!(contains("hello", "ell"));
    assert!(contains("hello", ""));
    assert!(!contains("hello", "hello!"));
    assert!(!contains("", "a"));
    assert!(contains("aab", "ab"));
}
