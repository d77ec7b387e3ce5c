use reth2030::baseline::{baseline_verdict, diff_summary, join_lines, text_lines};

#[test]
fn compare_with_baseline_reports_line_level_diff() {
    let err = baseline_verdict(
        "snapshot",
        "baseline.json",
        Some("{\n  \"value\": 1\n}\n"),
        "{\n  \"value\": 2\n}\n",
    )
    .expect_err("must detect baseline drift");
    assert!(err.contains("snapshot regression detected"));
    assert!(err.contains("line 2:"));
    assert!(err.contains("expected:   \"value\": 1"));
    assert!(err.contains("actual:     \"value\": 2"));
}

#[test]
fn baseline_verdict_passes_equal_text_and_reports_missing_file() {
    assert_eq!(baseline_verdict("scorecard", "a.json", Some("x\n"), "x\n"), Ok(()));
    assert_eq!(
        baseline_verdict("scorecard", "a.json", None, "x\n"),
        Err("missing baseline scorecard at a.json".to_string())
    );
    assert_eq!(
        baseline_verdict("snapshot", "b.json", Some("a\nb"), "a\nc"),
        Err("snapshot regression detected against b.json\nline 2:\n  expected: b\n  actual:   c"
            .to_string())
    );
}

#[test]
fn lines_split_like_str_lines() {
    for text in ["", "a", "a\n", "a\r\nb", "a\n\nb\n", "\n", "a\r", "x\ry\n z", "\r\n\r\n"] {
        let expected: Vec<&str> = text.lines().collect();
        assert_eq!(text_lines(text), expected, "text {:?}", text);
    }
}

#[test]
fn diff_summary_marks_missing_lines() {
    assert_eq!(
        diff_summary("a\nb\n", "a\n"),
        "line 2:\n  expected: b\n  actual:   <missing>"
    );
    assert_eq!(
        diff_summary("a", "a\nc"),
        "line 2:\n  expected: <missing>\n  actual:   c"
    );
    assert_eq!(diff_summary("same\ntext", "same\ntext"), "");
}

#[test]
fn diff_summary_stops_after_twenty_differences() {
    let expected: String = (0..25).map(|i| format!("e{}\n", i)).collect();
    let actual: String = (0..25).map(|i| format!("a{}\n", i)).collect();
    let summary = diff_summary(&expected, &actual);
    let entries = summary.matches("line ").count();
    assert_eq!(entries, 20);
    assert!(summary.ends_with("line 20:\n  expected: e19\n  actual:   a19\n... truncated to first 20 differences ..."));
}

#[test]
fn join_lines_separates_with_line_feeds() {
    assert_eq!(join_lines(&Vec::new()), "");
    assert_eq!(join_lines(&vec!["a".to_string()]), "a");
    assert_eq!(join_lines(&vec!["a".to_string(), "".to_string(), "b".to_string()]), "a\n\nb");
}
