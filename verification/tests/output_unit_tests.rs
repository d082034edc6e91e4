use sdiff::diff::{Change, ChangeType, DiffStats};
use sdiff::output::{
    format_change_plain, format_path, format_summary, should_show_change, OutputOptions,
};
use sdiff::terminal::format_terminal;
use sdiff::tree::Node;

#[test]
fn output_test_format_path_simple() {
    assert_eq!(format_path(&["name".to_string()]), "name");
    assert_eq!(
        format_path(&["user".to_string(), "name".to_string()]),
        "user.name"
    );
}

#[test]
fn output_test_format_path_array() {
    assert_eq!(format_path(&["[0]".to_string()]), "[0]");
    assert_eq!(
        format_path(&["items".to_string(), "[0]".to_string()]),
        "items[0]"
    );
    assert_eq!(
        format_path(&["items".to_string(), "[0]".to_string(), "id".to_string()]),
        "items[0].id"
    );
}

#[test]
fn test_format_path_empty() {
    assert_eq!(format_path(&[]), "(root)");
}

#[test]
fn output_test_should_show_change_compact() {
    let options = OutputOptions {
        compact: true,
        ..Default::default()
    };

    let added = Change {
        path: vec!["test".to_string()],
        change_type: ChangeType::Added,
        old_value: None,
        new_value: Some(Node::Null),
    };
    assert!(should_show_change(&added, &options));

    let unchanged = Change {
        path: vec!["test".to_string()],
        change_type: ChangeType::Unchanged,
        old_value: Some(Node::Null),
        new_value: Some(Node::Null),
    };
    assert!(!should_show_change(&unchanged, &options));
}

#[test]
fn output_test_should_show_change_non_compact() {
    let options = OutputOptions {
        compact: false,
        ..Default::default()
    };

    let unchanged = Change {
        path: vec!["test".to_string()],
        change_type: ChangeType::Unchanged,
        old_value: Some(Node::Null),
        new_value: Some(Node::Null),
    };
    assert!(should_show_change(&unchanged, &options));
}

#[test]
fn output_test_format_summary_empty() {
    let stats = DiffStats::new();
    assert_eq!(format_summary(&stats), "Summary: No changes");
}

#[test]
fn output_test_format_summary_with_changes() {
    let stats = DiffStats {
        added: 2,
        removed: 1,
        modified: 3,
        unchanged: 5,
    };
    let summary = format_summary(&stats);
    assert!(summary.contains("2 added"));
    assert!(summary.contains("1 removed"));
    assert!(summary.contains("3 modified"));
    assert!(summary.contains("5 unchanged"));
}

#[test]
fn output_test_format_change_types() {
    // Added
    let output = format_change_plain(ChangeType::Added, "new_field", "", "\"value\"");
    assert!(output.starts_with('+'));
    assert!(output.contains("new_field"));

    // Removed
    let output = format_change_plain(ChangeType::Removed, "old_field", "\"value\"", "");
    assert!(output.starts_with('-'));
    assert!(output.contains("old_field"));

    // Modified
    let output = format_change_plain(ChangeType::Modified, "field", "1", "2");
    assert!(output.contains("→"));
    assert!(output.contains("1"));
    assert!(output.contains("2"));
}

#[test]
fn output_test_format_terminal_no_changes() {
    let output = format_terminal(&[], &DiffStats::new());
    assert!(output.contains("No changes"));
}
