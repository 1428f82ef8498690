use log_analyzer::Level;
use log_analyzer::LogStats;

#[test]
fn unmarked_line_only_counts() {
    let mut s = LogStats::new();
    s.analyze_line("just an ordinary line");
    assert_eq!(s.total_lines, 1);
    assert!(s.levels.is_empty());
    assert!(s.errors.is_empty());
    assert!(s.warnings.is_empty());
}

#[test]
fn error_line_goes_to_errors_never_warnings() {
    let mut s = LogStats::new();
    s.analyze_line("Error: disk failing");
    assert_eq!(s.levels, vec![(Level::Error, 1usize)]);
    assert_eq!(s.errors, vec!["Error: disk failing".to_string()]);
    assert!(s.warnings.is_empty());
}

#[test]
fn error_wins_over_warn_on_the_same_line() {
    let mut s = LogStats::new();
    s.analyze_line("warning before error on this line");
    assert_eq!(s.levels, vec![(Level::Error, 1usize)]);
    assert_eq!(s.errors.len(), 1);
    assert!(s.warnings.is_empty());
}

#[test]
fn warning_line_is_classified_once_as_warn() {
    let mut s = LogStats::new();
    s.analyze_line("WARNING: overheating");
    assert_eq!(s.levels, vec![(Level::Warn, 1usize)]);
    assert_eq!(s.warnings, vec!["WARNING: overheating".to_string()]);
    assert!(s.errors.is_empty());
}

#[test]
fn classification_is_case_insensitive() {
    let mut s = LogStats::new();
    s.analyze_line("debug trace follows");
    s.analyze_line("Info: started");
    assert_eq!(s.levels, vec![(Level::Debug, 1usize), (Level::Info, 1usize)]);
}

#[test]
fn classification_follows_unicode_uppercasing() {
    // U+0131 (dotless i) upper-cases to an ASCII I, completing "INFO".
    let mut s = LogStats::new();
    s.analyze_line("\u{131}nfo: started");
    assert_eq!(s.levels, vec![(Level::Info, 1usize)]);

    // U+FB01 (fi ligature) upper-cases to "FI", whose I starts "INFO".
    let mut t = LogStats::new();
    t.analyze_line("\u{fb01}nfo");
    assert_eq!(t.levels, vec![(Level::Info, 1usize)]);
}

#[test]
fn fold_model_matches_std_uppercase() {
    // The classifier's case fold mirrors str::to_uppercase on every
    // character whose uppercase contains ASCII; check those against std.
    assert_eq!("\u{131}".to_uppercase(), "I");
    assert_eq!("\u{17f}".to_uppercase(), "S");
    assert_eq!("\u{df}".to_uppercase(), "SS");
    assert_eq!("\u{149}".to_uppercase(), "\u{2bc}N");
    assert_eq!("\u{1f0}".to_uppercase(), "J\u{30c}");
    assert_eq!("\u{1e96}".to_uppercase(), "H\u{331}");
    assert_eq!("\u{1e97}".to_uppercase(), "T\u{308}");
    assert_eq!("\u{1e98}".to_uppercase(), "W\u{30a}");
    assert_eq!("\u{1e99}".to_uppercase(), "Y\u{30a}");
    assert_eq!("\u{1e9a}".to_uppercase(), "A\u{2be}");
    assert_eq!("\u{fb00}".to_uppercase(), "FF");
    assert_eq!("\u{fb01}".to_uppercase(), "FI");
    assert_eq!("\u{fb02}".to_uppercase(), "FL");
    assert_eq!("\u{fb03}".to_uppercase(), "FFI");
    assert_eq!("\u{fb04}".to_uppercase(), "FFL");
    assert_eq!("\u{fb05}".to_uppercase(), "ST");
    assert_eq!("\u{fb06}".to_uppercase(), "ST");
}

#[test]
fn tokens_split_on_unicode_whitespace() {
    // U+00A0 (no-break space) is Unicode whitespace, so it separates tokens.
    let mut s = LogStats::new();
    s.analyze_line("\u{a0}10.0.0.7\u{a0}503\u{a0}");
    assert_eq!(s.ip_addresses, vec![("10.0.0.7".to_string(), 1usize)]);
    assert_eq!(s.status_codes, vec![(503u16, 1usize)]);
}

#[test]
fn end_to_end_three_lines() {
    let mut s = LogStats::new();
    s.analyze_line("ERROR 500 at 10.0.0.1");
    s.analyze_line("INFO 200 at 10.0.0.1");
    s.analyze_line("WARN 404 at 10.0.0.2");
    assert_eq!(s.total_lines, 3);
    assert_eq!(
        s.levels,
        vec![(Level::Error, 1usize), (Level::Info, 1usize), (Level::Warn, 1usize)]
    );
    assert_eq!(
        s.status_codes,
        vec![(500u16, 1usize), (200u16, 1usize), (404u16, 1usize)]
    );
    assert_eq!(
        s.ip_addresses,
        vec![("10.0.0.1".to_string(), 2usize), ("10.0.0.2".to_string(), 1usize)]
    );
    assert_eq!(s.errors, vec!["ERROR 500 at 10.0.0.1".to_string()]);
    assert_eq!(s.warnings, vec!["WARN 404 at 10.0.0.2".to_string()]);
}
