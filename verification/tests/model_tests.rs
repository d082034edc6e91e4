use sdiff::diff::{Diff, DiffConfig, DiffStats};
use sdiff::filter::{FilterConfig, PathPattern, PatternSegment};
use sdiff::git::{detect_git_diff_driver_args, is_git_hash, GitError};
use sdiff::lcs::{lcs_edit_script, lcs_table, EditOp};
use sdiff::output::{format_path, format_summary, OutputFormat, OutputOptions};
use sdiff::tree::{Node, NodeMap};
use sdiff::ArrayDiffStrategy;

fn num(x: f64) -> Node {
    Node::Number(x.to_bits())
}

fn path(segments: &[&str]) -> Vec<String> {
    segments.iter().map(|s| s.to_string()).collect()
}

#[test]
fn a_map_keeps_its_entries_in_key_order() {
    let mut map = NodeMap::new();
    assert!(map.is_empty());
    assert_eq!(map.insert("m".to_string(), num(1.0)), None);
    assert_eq!(map.insert("z".to_string(), num(2.0)), None);
    assert_eq!(map.insert("a".to_string(), num(3.0)), None);
    assert_eq!(map.insert("é".to_string(), num(4.0)), None);
    assert_eq!(map.len(), 4);
    let keys: Vec<&str> = (0..map.len()).map(|i| map.key_at(i).as_str()).collect();
    assert_eq!(keys, vec!["a", "m", "z", "é"]);
    assert_eq!(map.value_at(0), &num(3.0));
    assert_eq!(map.position_of("z"), Some(2));
    assert_eq!(map.position_of("y"), None);
    assert!(map.contains_key("m"));
    assert!(!map.contains_key("M"));
    assert_eq!(map.get("é"), Some(&num(4.0)));
    assert_eq!(map.get(""), None);
}

#[test]
fn inserting_under_a_key_again_replaces_the_value() {
    let mut map = NodeMap::new();
    map.insert("k".to_string(), num(1.0));
    map.insert("j".to_string(), num(0.0));
    assert_eq!(map.insert("k".to_string(), Node::Null), Some(num(1.0)));
    assert_eq!(map.len(), 2);
    assert_eq!(map.get("k"), Some(&Node::Null));
    assert_eq!(map.get("j"), Some(&num(0.0)));
}

#[test]
fn a_copy_is_equal_and_independent() {
    let mut map = NodeMap::new();
    map.insert("k".to_string(), Node::Array(vec![num(1.0), Node::String("s".to_string())]));
    let tree = Node::Object(map);
    let mut copy = tree.clone();
    assert_eq!(copy, tree);
    if let Node::Object(m) = &mut copy {
        m.insert("k".to_string(), Node::Null);
    }
    assert_ne!(copy, tree);
    assert!(tree.semantic_equals(&tree.clone()));
}

#[test]
fn objects_of_different_size_are_not_equal() {
    let mut small = NodeMap::new();
    small.insert("a".to_string(), num(1.0));
    let mut large = NodeMap::new();
    large.insert("a".to_string(), num(1.0));
    large.insert("b".to_string(), num(1.0));
    assert!(!Node::Object(small.clone()).semantic_equals(&Node::Object(large.clone())));
    assert!(!Node::Object(large).semantic_equals(&Node::Object(small)));
}

#[test]
fn kind_names() {
    assert_eq!(Node::Null.kind_name(), "null");
    assert_eq!(Node::Bool(false).kind_name(), "boolean");
    assert_eq!(num(1.0).kind_name(), "number");
    assert_eq!(Node::String(String::new()).kind_name(), "string");
    assert_eq!(Node::Object(NodeMap::new()).kind_name(), "object");
    assert_eq!(Node::Array(vec![]).kind_name(), "array");
}

#[test]
fn defaults() {
    let config = DiffConfig::default();
    assert!(!config.ignore_whitespace);
    assert!(!config.treat_null_as_missing);
    assert_eq!(config.array_diff_strategy, ArrayDiffStrategy::Positional);
    assert_eq!(ArrayDiffStrategy::default(), ArrayDiffStrategy::Positional);
    assert_eq!(DiffStats::default(), DiffStats::new());
    let diff = Diff::default();
    assert!(diff.changes.is_empty());
    assert!(diff.is_empty());
    let diff = Diff::new();
    assert!(diff.changes.is_empty());
    assert_eq!(diff.stats, DiffStats { added: 0, removed: 0, modified: 0, unchanged: 0 });
    let options = OutputOptions::default();
    assert!(options.compact);
    assert!(!options.show_values);
    assert_eq!(options.max_value_length, 80);
    assert_eq!(options.context_lines, 0);
    assert_ne!(OutputFormat::Plain, OutputFormat::Json);
    let filter = FilterConfig::default();
    assert!(!filter.has_filters());
    assert!(FilterConfig::new().ignore("a").has_filters());
    assert!(FilterConfig::new().only("a").has_filters());
}

#[test]
fn unchanged_counts_do_not_make_a_diff_non_empty() {
    let stats = DiffStats { added: 0, removed: 0, modified: 0, unchanged: 3 };
    assert!(stats.is_empty());
    assert_eq!(stats.total_changes(), 0);
    let stats = DiffStats { added: 0, removed: 0, modified: 1, unchanged: 0 };
    assert!(!stats.is_empty());
}

#[test]
fn patterns_split_at_every_dot() {
    let literal = |s: &str| PatternSegment::Literal(s.to_string());
    assert_eq!(PathPattern::parse("").segments, vec![literal("")]);
    assert_eq!(PathPattern::parse(".").segments, vec![literal(""), literal("")]);
    assert_eq!(PathPattern::parse("a..b").segments, vec![literal("a"), literal(""), literal("b")]);
    assert_eq!(PathPattern::parse("a.").segments, vec![literal("a"), literal("")]);
    assert_eq!(
        PathPattern::parse("***.*.**.x*").segments,
        vec![
            literal("***"),
            PatternSegment::SingleWildcard,
            PatternSegment::DoubleWildcard,
            literal("x*"),
        ]
    );
    assert_eq!(PathPattern::parse("[0]").segments, vec![literal("[0]")]);
}

#[test]
fn double_wildcards_take_any_number_of_segments() {
    let any = PathPattern::parse("**");
    assert!(any.matches(&[]));
    assert!(any.matches(&path(&["a"])));
    assert!(any.matches(&path(&["a", "b", "c"])));

    let one = PathPattern::parse("*");
    assert!(!one.matches(&[]));
    assert!(one.matches(&path(&["a"])));
    assert!(!one.matches(&path(&["a", "b"])));

    let between = PathPattern::parse("a.**.b");
    assert!(between.matches(&path(&["a", "b"])));
    assert!(between.matches(&path(&["a", "x", "b"])));
    assert!(between.matches(&path(&["a", "b", "x", "b"])));
    assert!(!between.matches(&path(&["a", "b", "x"])));
    assert!(!between.matches(&path(&["a"])));

    let twice = PathPattern::parse("**.**");
    assert!(twice.matches(&[]));
    assert!(twice.matches(&path(&["q"])));

    let tail = PathPattern::parse("**.*");
    assert!(!tail.matches(&[]));
    assert!(tail.matches(&path(&["q"])));

    let empty_literal = PathPattern::parse("");
    assert!(!empty_literal.matches(&[]));
    assert!(empty_literal.matches(&path(&[""])));

    let index = PathPattern::parse("items.[0].id");
    assert!(index.matches(&path(&["items", "[0]", "id"])));
    assert!(!index.matches(&path(&["items", "[1]", "id"])));
}

#[test]
fn object_names_have_forty_hexadecimal_digits() {
    assert!(is_git_hash("ABCDEF0123456789abcdef0123456789ABCDEF01"));
    assert!(!is_git_hash("abcdef0123456789abcdef0123456789abcdef0"));
    assert!(!is_git_hash("abcdef0123456789abcdef0123456789abcdef012"));
    assert!(!is_git_hash("abcdef0123456789abcdef0123456789abcdef0g"));
    assert!(!is_git_hash("abcdef0123456789abcdef0123456789abcdef0/"));
    assert!(!is_git_hash("abcdef0123456789abcdef0123456789abcdef0:"));
    assert!(!is_git_hash("abcdef0123456789abcdef0123456789abcdef0@"));
    assert!(!is_git_hash("abcdef0123456789abcdef0123456789abcdef0`"));
    // forty characters of which one is not a digit, and forty bytes that are
    // fewer characters
    assert!(!is_git_hash("abcdef0123456789abcdef0123456789abcdef0é"));
    assert!(!is_git_hash("abcdef0123456789abcdef0123456789abcdefé"));
}

#[test]
fn driver_arguments_need_both_object_names() {
    let hash = "a1b2c3d4e5f6a1b2c3d4e5f6a1b2c3d4e5f6a1b2";
    let args = |old_hex: &str, new_hex: &str| {
        path(&["file.json", "/tmp/old", old_hex, "100644", "/tmp/new", new_hex, "100644"])
    };
    assert_eq!(
        detect_git_diff_driver_args(&args(hash, hash)),
        Some(("/tmp/old".to_string(), "/tmp/new".to_string()))
    );
    assert_eq!(detect_git_diff_driver_args(&args(hash, "x")), None);
    assert_eq!(detect_git_diff_driver_args(&args("x", hash)), None);
    assert_eq!(detect_git_diff_driver_args(&[]), None);
}

#[test]
fn what_the_errors_say() {
    assert_eq!(
        GitError::CommandFailed("boom".to_string()).message(),
        "Failed to execute git command: boom"
    );
    assert_eq!(GitError::GitNotFound.message(), "Git is not installed or not in PATH");
    assert_eq!(
        GitError::ExecutableNotFound.message(),
        "Failed to determine sdiff executable path"
    );
    assert_eq!(
        GitError::GitError("fatal".to_string()).message(),
        "Git command returned error: fatal"
    );
}

#[test]
fn summaries() {
    let stats = |added, removed, modified, unchanged| DiffStats { added, removed, modified, unchanged };
    assert_eq!(format_summary(&stats(0, 0, 0, 0)), "Summary: No changes");
    assert_eq!(format_summary(&stats(0, 0, 0, 4)), "Summary: No changes");
    assert_eq!(format_summary(&stats(2, 0, 0, 0)), "Summary: 2 added");
    assert_eq!(format_summary(&stats(0, 1, 0, 0)), "Summary: 1 removed");
    assert_eq!(format_summary(&stats(0, 0, 12, 0)), "Summary: 12 modified");
    assert_eq!(
        format_summary(&stats(2, 1, 3, 5)),
        "Summary: 2 added, 1 removed, 3 modified, 5 unchanged"
    );
    assert_eq!(format_summary(&stats(0, 10, 0, 100)), "Summary: 10 removed, 100 unchanged");
}

#[test]
fn display_paths() {
    assert_eq!(format_path(&path(&["a", "b", "c"])), "a.b.c");
    assert_eq!(format_path(&path(&["[0]", "a"])), "[0].a");
    assert_eq!(format_path(&path(&["a", "[1]", "[2]", "b"])), "a[1][2].b");
    assert_eq!(format_path(&path(&["a", "", "b"])), "a..b");
    assert_eq!(format_path(&path(&[""])), "");
}

#[test]
fn the_table_holds_the_lengths_of_common_subsequences() {
    let config = DiffConfig::default();
    let old: Vec<Node> = [1.0, 2.0, 3.0].iter().map(|x| num(*x)).collect();
    let new: Vec<Node> = [3.0, 1.0, 2.0].iter().map(|x| num(*x)).collect();
    let table = lcs_table(&old, &new, &config);
    assert_eq!(
        table,
        vec![vec![0, 0, 0, 0], vec![0, 0, 1, 1], vec![0, 0, 1, 2], vec![0, 1, 1, 2]]
    );
    let script = lcs_edit_script(&old, &new, &config);
    assert_eq!(
        script,
        vec![EditOp::Insert(0), EditOp::Keep(0, 1), EditOp::Keep(1, 2), EditOp::Delete(2)]
    );
    assert_eq!(lcs_edit_script(&Vec::new(), &Vec::new(), &config), Vec::<EditOp>::new());
    assert_eq!(
        lcs_edit_script(&old, &Vec::new(), &config),
        vec![EditOp::Delete(0), EditOp::Delete(1), EditOp::Delete(2)]
    );
    assert_eq!(
        lcs_edit_script(&Vec::new(), &new, &config),
        vec![EditOp::Insert(0), EditOp::Insert(1), EditOp::Insert(2)]
    );
}

#[test]
fn what_the_difftool_is_configured_with() {
    assert_eq!(
        sdiff::git::difftool_command("/usr/bin/sdiff"),
        "/usr/bin/sdiff \"$LOCAL\" \"$REMOTE\""
    );
    assert!(sdiff::git::unset_succeeded(true, Some(0)));
    assert!(sdiff::git::unset_succeeded(false, Some(5)));
    assert!(!sdiff::git::unset_succeeded(false, Some(1)));
    assert!(!sdiff::git::unset_succeeded(false, None));
    assert!(sdiff::git::unset_succeeded(true, None));
}
