use log_analyzer::analyze_lines;
use log_analyzer::Level;
use log_analyzer::LogStats;

#[test]
fn percentage_is_permille_of_total() {
    let mut s = LogStats::new();
    s.analyze_line("ERROR one");
    s.analyze_line("plain");
    s.analyze_line("plain");
    s.analyze_line("plain");
    let r = s.build_report();
    assert_eq!(r.total_lines, 4);
    assert_eq!(r.levels.len(), 1);
    assert_eq!(r.levels[0].level, Level::Error);
    assert_eq!(r.levels[0].count, 1);
    // 1 of 4 lines: 25.0 percent, reported as 250 thousandths.
    assert_eq!(r.levels[0].permille, 250);
}

#[test]
fn percentage_rounds_to_nearest() {
    let mut s = LogStats::new();
    s.analyze_line("error a");
    s.analyze_line("error b");
    s.analyze_line("info c");
    let r = s.build_report();
    // 2 of 3 lines: 66.666... percent rounds to 66.7; 1 of 3 to 33.3.
    assert_eq!(r.levels[0].level, Level::Error);
    assert_eq!(r.levels[0].permille, 667);
    assert_eq!(r.levels[1].level, Level::Info);
    assert_eq!(r.levels[1].permille, 333);
}

#[test]
fn recent_lines_trim_unicode_whitespace() {
    let mut s = LogStats::new();
    s.analyze_line("\u{a0}error spaced\u{a0}");
    let r = s.build_report();
    assert_eq!(r.recent_errors, vec!["error spaced".to_string()]);
}

#[test]
fn levels_sort_descending_with_stable_ties() {
    let mut s = LogStats::new();
    s.analyze_line("info a");
    s.analyze_line("info b");
    s.analyze_line("error c");
    s.analyze_line("debug d");
    let r = s.build_report();
    let order: Vec<(Level, usize)> = r.levels.iter().map(|e| (e.level, e.count)).collect();
    // Info leads with two; Error and Debug tie and keep encounter order.
    assert_eq!(
        order,
        vec![(Level::Info, 2), (Level::Error, 1), (Level::Debug, 1)]
    );
}

#[test]
fn status_codes_sort_ascending() {
    let mut s = LogStats::new();
    s.analyze_line("a 500");
    s.analyze_line("b 200");
    s.analyze_line("c 404");
    s.analyze_line("d 200");
    let r = s.build_report();
    let order: Vec<(u16, usize)> = r.status_codes.iter().map(|e| (e.code, e.count)).collect();
    assert_eq!(order, vec![(200, 2), (404, 1), (500, 1)]);
}

#[test]
fn top_ips_keeps_ten_of_fifteen() {
    let mut s = LogStats::new();
    for i in 0..15 {
        s.analyze_line(&format!("visit 10.0.0.{}", i));
    }
    let r = s.build_report();
    assert_eq!(r.top_ips.len(), 10);
    for e in &r.top_ips {
        assert_eq!(e.count, 1);
    }
}

#[test]
fn top_ips_sorts_by_count_descending() {
    let mut s = LogStats::new();
    s.analyze_line("x 10.0.0.1");
    s.analyze_line("x 10.0.0.2");
    s.analyze_line("x 10.0.0.2");
    let r = s.build_report();
    assert_eq!(r.top_ips.len(), 2);
    assert_eq!(r.top_ips[0].ip, "10.0.0.2");
    assert_eq!(r.top_ips[0].count, 2);
    assert_eq!(r.top_ips[1].ip, "10.0.0.1");
}

#[test]
fn recent_errors_are_last_five_reversed_and_trimmed() {
    let mut s = LogStats::new();
    for i in 1..=7 {
        s.analyze_line(&format!("  error number {}  ", i));
    }
    let r = s.build_report();
    assert_eq!(r.error_total, 7);
    assert_eq!(
        r.recent_errors,
        vec![
            "error number 7".to_string(),
            "error number 6".to_string(),
            "error number 5".to_string(),
            "error number 4".to_string(),
            "error number 3".to_string(),
        ]
    );
}

#[test]
fn recent_warnings_follow_the_same_policy() {
    let mut s = LogStats::new();
    s.analyze_line(" warn alpha ");
    s.analyze_line(" warn beta ");
    let r = s.build_report();
    assert_eq!(r.warning_total, 2);
    assert_eq!(
        r.recent_warnings,
        vec!["warn beta".to_string(), "warn alpha".to_string()]
    );
}

#[test]
fn analysis_is_deterministic_across_runs() {
    let lines = [
        "ERROR 500 at 10.0.0.1",
        "INFO 200 at 10.0.0.1",
        "WARN 404 at 10.0.0.2",
        "plain line",
        "debug 302 from 192.168.0.9",
    ];
    let mut a = LogStats::new();
    let mut b = LogStats::new();
    for line in lines.iter() {
        a.analyze_line(line);
    }
    for line in lines.iter() {
        b.analyze_line(line);
    }
    assert_eq!(a.build_report(), b.build_report());
}

#[test]
fn analyze_lines_matches_per_line_analysis() {
    let lines: Vec<String> = vec![
        "ERROR 500 at 10.0.0.1".to_string(),
        "plain line".to_string(),
        "warn 301 from 10.0.0.2".to_string(),
    ];
    let a = analyze_lines(&lines);
    let mut b = LogStats::new();
    for line in &lines {
        b.analyze_line(line);
    }
    assert_eq!(a.build_report(), b.build_report());
}

#[test]
fn empty_input_gives_empty_sections() {
    let s = LogStats::new();
    let r = s.build_report();
    assert_eq!(r.total_lines, 0);
    assert!(r.levels.is_empty());
    assert!(r.status_codes.is_empty());
    assert!(r.top_ips.is_empty());
    assert!(r.recent_errors.is_empty());
    assert!(r.recent_warnings.is_empty());
}
