use sdiff::diff::{ChangeType, DiffStats};
use sdiff::output::{format_change_plain, format_lines, shown_when_quiet};
use sdiff::terminal::{assemble_line, format_change_terminal, format_terminal};

#[test]
fn plain_lines() {
    assert_eq!(format_change_plain(ChangeType::Added, "a.b", "", "1"), "+ a.b: 1");
    assert_eq!(format_change_plain(ChangeType::Removed, "a[0]", "\"x\"", ""), "- a[0]: \"x\"");
    assert_eq!(format_change_plain(ChangeType::Modified, "(root)", "1", "2"), "• (root): 1 → 2");
    assert_eq!(format_change_plain(ChangeType::Unchanged, "k", "null", ""), "  k: null");
}

#[test]
fn a_report_is_lines_an_empty_line_and_the_summary() {
    let stats = DiffStats { added: 1, removed: 0, modified: 1, unchanged: 0 };
    let lines = vec!["+ a: 1".to_string(), "• b: 1 → 2".to_string()];
    assert_eq!(
        format_lines(&lines, &stats),
        "+ a: 1\n• b: 1 → 2\n\nSummary: 1 added, 1 modified"
    );
    assert_eq!(format_lines(&[], &stats), "No changes detected.");
    assert_eq!(format_lines(&["".to_string()], &DiffStats::new()), "\n\nSummary: No changes");
}

#[test]
fn lines_are_put_together_from_their_parts() {
    assert_eq!(assemble_line(ChangeType::Added, "M", "P", "O", "A", "N"), "M P: N");
    assert_eq!(assemble_line(ChangeType::Removed, "M", "P", "O", "A", "N"), "M P: O");
    assert_eq!(assemble_line(ChangeType::Modified, "M", "P", "O", "A", "N"), "M P: O A N");
    assert_eq!(assemble_line(ChangeType::Unchanged, "M", "P", "O", "A", "N"), "  P: O");
}

#[test]
fn terminal_lines_are_painted_when_colours_are_on() {
    colored::control::set_override(true);
    assert_eq!(
        format_change_terminal(ChangeType::Added, "a.b", "", "1"),
        "\u{1b}[92m+\u{1b}[0m \u{1b}[32ma.b\u{1b}[0m: \u{1b}[32m1\u{1b}[0m"
    );
    assert_eq!(
        format_change_terminal(ChangeType::Removed, "a", "x", ""),
        "\u{1b}[91m-\u{1b}[0m \u{1b}[31ma\u{1b}[0m: \u{1b}[31mx\u{1b}[0m"
    );
    assert_eq!(
        format_change_terminal(ChangeType::Modified, "a", "1", "2"),
        "\u{1b}[93m•\u{1b}[0m \u{1b}[33ma\u{1b}[0m: \u{1b}[33m1\u{1b}[0m \u{1b}[93m→\u{1b}[0m \u{1b}[33m2\u{1b}[0m"
    );
    assert_eq!(
        format_change_terminal(ChangeType::Unchanged, "a", "1", ""),
        "  \u{1b}[2ma\u{1b}[0m: \u{1b}[2m1\u{1b}[0m"
    );
    assert_eq!(
        format_terminal(&[], &DiffStats::new()),
        "\u{1b}[2mNo changes detected.\u{1b}[0m"
    );
}

#[test]
fn terminal_lines_are_plain_when_colours_are_off() {
    colored::control::set_override(false);
    assert_eq!(format_change_terminal(ChangeType::Added, "a.b", "", "1"), "+ a.b: 1");
    assert_eq!(format_change_terminal(ChangeType::Removed, "a", "x", ""), "- a: x");
    assert_eq!(format_change_terminal(ChangeType::Modified, "a", "1", "2"), "• a: 1 → 2");
    assert_eq!(format_change_terminal(ChangeType::Unchanged, "a", "1", ""), "  a: 1");
    assert_eq!(format_terminal(&[], &DiffStats::new()), "No changes detected.");
    let stats = DiffStats { added: 1, removed: 0, modified: 0, unchanged: 0 };
    assert_eq!(
        format_terminal(&["+ a: 1".to_string()], &stats),
        "+ a: 1\n\nSummary: 1 added"
    );
}

#[test]
fn quiet_mode_leaves_out_the_summary_and_empty_lines() {
    let reference = |line: &str| !line.starts_with("Summary:") && !line.trim().is_empty();
    for line in [
        "",
        " ",
        "\t \u{2003}",
        "Summary: 1 added",
        "Summary:",
        "Summary",
        "Summar",
        "summary: x",
        " Summary: x",
        "Summary :",
        "SummaryX",
        "+ a: 1",
        "  k: null",
        "• b: 1 → 2",
        "S",
        "x",
        "Summary:\u{e9}",
        "\u{e9}",
    ] {
        assert_eq!(shown_when_quiet(line), reference(line), "{:?}", line);
    }
    assert!(shown_when_quiet("+ a: 1"));
    assert!(!shown_when_quiet("Summary: No changes"));
    assert!(!shown_when_quiet("   "));
}
