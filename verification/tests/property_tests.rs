use sdiff::diff::{compute_diff, ArrayDiffStrategy, Change, ChangeType, Diff, DiffConfig};
use sdiff::filter::{filter_diff, FilterConfig};
use sdiff::tree::{Node, NodeMap};

fn num(x: f64) -> Node {
    Node::Number(x.to_bits())
}

fn text(s: &str) -> Node {
    Node::String(s.to_string())
}

fn object(entries: Vec<(&str, Node)>) -> Node {
    let mut map = NodeMap::new();
    for (key, value) in entries {
        map.insert(key.to_string(), value);
    }
    Node::Object(map)
}

fn lcs() -> DiffConfig {
    DiffConfig {
        array_diff_strategy: ArrayDiffStrategy::Lcs,
        ..Default::default()
    }
}

fn sample_tree() -> Node {
    object(vec![
        ("name", text("Alice")),
        ("age", num(30.0)),
        ("tags", Node::Array(vec![text("a"), text("b"), Node::Null])),
        (
            "nested",
            object(vec![
                ("flag", Node::Bool(true)),
                ("list", Node::Array(vec![num(1.0), num(2.5), object(vec![("x", num(-0.0))])])),
            ]),
        ),
        ("empty", object(vec![])),
    ])
}

fn other_tree() -> Node {
    object(vec![
        ("name", text("Alicia")),
        ("age", num(30.0)),
        ("tags", Node::Array(vec![text("a"), text("c"), Node::Null, text("d")])),
        (
            "nested",
            object(vec![
                ("flag", Node::Bool(false)),
                ("list", Node::Array(vec![num(1.0), object(vec![("x", num(1.0))])])),
                ("more", Node::Null),
            ]),
        ),
        ("extra", Node::Array(vec![])),
    ])
}

fn mirrored(c: &Change) -> (Vec<String>, ChangeType, Option<Node>, Option<Node>) {
    let kind = match c.change_type {
        ChangeType::Added => ChangeType::Removed,
        ChangeType::Removed => ChangeType::Added,
        ChangeType::Modified => ChangeType::Modified,
        ChangeType::Unchanged => ChangeType::Unchanged,
    };
    (c.path.clone(), kind, c.new_value.clone(), c.old_value.clone())
}

fn holds(diff: &Diff, wanted: &(Vec<String>, ChangeType, Option<Node>, Option<Node>)) -> bool {
    diff.changes.iter().any(|c| {
        c.path == wanted.0
            && c.change_type == wanted.1
            && c.old_value == wanted.2
            && c.new_value == wanted.3
    })
}

#[test]
fn a_tree_does_not_differ_from_itself() {
    for config in [DiffConfig::default(), lcs()] {
        for tree in [sample_tree(), other_tree(), Node::Null, num(0.5), Node::Array(vec![])] {
            let diff = compute_diff(&tree, &tree.clone(), &config);
            assert!(diff.changes.is_empty());
            assert_eq!(diff.stats.added, 0);
            assert_eq!(diff.stats.removed, 0);
            assert_eq!(diff.stats.modified, 0);
            assert_eq!(diff.stats.unchanged, 0);
            assert!(diff.is_empty());
        }
    }
}

#[test]
fn a_number_that_is_not_finite_differs_from_itself() {
    let config = DiffConfig::default();
    for x in [f64::NAN, f64::INFINITY, f64::NEG_INFINITY] {
        let diff = compute_diff(&num(x), &num(x), &config);
        assert_eq!(diff.changes.len(), 1);
        assert_eq!(diff.changes[0].change_type, ChangeType::Modified);
        assert_eq!(diff.stats.modified, 1);
    }
}

#[test]
fn a_diff_read_backwards_is_the_diff_of_the_exchanged_trees() {
    let config = DiffConfig::default();
    let old = sample_tree();
    let new = other_tree();
    let forward = compute_diff(&old, &new, &config);
    let backward = compute_diff(&new, &old, &config);
    assert!(!forward.changes.is_empty());
    assert_eq!(forward.changes.len(), backward.changes.len());
    for c in forward.changes.iter() {
        assert!(holds(&backward, &mirrored(c)), "missing the mirror of {:?}", c);
    }
    for c in backward.changes.iter() {
        assert!(holds(&forward, &mirrored(c)), "missing the mirror of {:?}", c);
    }
    assert_eq!(forward.stats.added, backward.stats.removed);
    assert_eq!(forward.stats.removed, backward.stats.added);
    assert_eq!(forward.stats.modified, backward.stats.modified);
}

#[test]
fn aligned_arrays_are_not_symmetric() {
    let old = Node::Array(vec![num(1.0), num(2.0)]);
    let new = Node::Array(vec![]);
    let forward = compute_diff(&old, &new, &lcs());
    let backward = compute_diff(&new, &old, &lcs());
    let paths = |d: &Diff| d.changes.iter().map(|c| c.path.clone()).collect::<Vec<_>>();
    assert_eq!(paths(&forward), vec![vec!["[0]".to_string()], vec!["[0]".to_string()]]);
    assert_eq!(paths(&backward), vec![vec!["[0]".to_string()], vec!["[1]".to_string()]]);
    assert!(!holds(&backward, &mirrored(&forward.changes[1])));
}

#[test]
fn the_order_of_insertion_leaves_no_trace() {
    let pairs = vec![
        ("delta", num(4.0)),
        ("alpha", num(1.0)),
        ("charlie", object(vec![("z", Node::Null), ("a", Node::Bool(true))])),
        ("bravo", text("two")),
    ];
    let orders: Vec<Vec<usize>> = vec![
        vec![0, 1, 2, 3],
        vec![3, 2, 1, 0],
        vec![1, 3, 0, 2],
        vec![2, 0, 3, 1],
    ];
    let build = |order: &Vec<usize>| {
        let mut map = NodeMap::new();
        for &i in order {
            map.insert(pairs[i].0.to_string(), pairs[i].1.clone());
        }
        Node::Object(map)
    };
    let reference = build(&orders[0]);
    let other = object(vec![("alpha", num(2.0)), ("echo", Node::Null), ("bravo", text("two"))]);
    let expected = compute_diff(&reference, &other, &DiffConfig::default());
    let expected_back = compute_diff(&other, &reference, &DiffConfig::default());
    for order in orders.iter() {
        let tree = build(order);
        assert_eq!(tree, reference);
        let diff = compute_diff(&tree, &other, &DiffConfig::default());
        assert_eq!(diff.changes.len(), expected.changes.len());
        for (a, b) in diff.changes.iter().zip(expected.changes.iter()) {
            assert_eq!(a.path, b.path);
            assert_eq!(a.change_type, b.change_type);
            assert_eq!(a.old_value, b.old_value);
            assert_eq!(a.new_value, b.new_value);
        }
        assert_eq!(diff.stats, expected.stats);
        let back = compute_diff(&other, &tree, &DiffConfig::default());
        assert_eq!(back.changes.len(), expected_back.changes.len());
        for (a, b) in back.changes.iter().zip(expected_back.changes.iter()) {
            assert_eq!(a.path, b.path);
            assert_eq!(a.change_type, b.change_type);
        }
    }
}

#[test]
fn the_counts_are_those_of_the_changes() {
    for config in [DiffConfig::default(), lcs()] {
        let diff = compute_diff(&sample_tree(), &other_tree(), &config);
        let count = |kind: ChangeType| diff.changes.iter().filter(|c| c.change_type == kind).count();
        assert_eq!(diff.stats.added, count(ChangeType::Added));
        assert_eq!(diff.stats.removed, count(ChangeType::Removed));
        assert_eq!(diff.stats.modified, count(ChangeType::Modified));
        assert_eq!(diff.stats.unchanged, 0);
        let changed = diff
            .changes
            .iter()
            .filter(|c| c.change_type != ChangeType::Unchanged)
            .count();
        assert_eq!(diff.stats.added + diff.stats.removed + diff.stats.modified, changed);
        assert_eq!(diff.stats.total_changes(), changed);

        let filtered = filter_diff(&diff, &FilterConfig::new().only("nested.**"));
        let count = |kind: ChangeType| {
            filtered.changes.iter().filter(|c| c.change_type == kind).count()
        };
        assert!(filtered.changes.len() < diff.changes.len());
        assert_eq!(filtered.stats.added, count(ChangeType::Added));
        assert_eq!(filtered.stats.removed, count(ChangeType::Removed));
        assert_eq!(filtered.stats.modified, count(ChangeType::Modified));
    }
}

#[test]
fn every_change_has_the_values_of_its_kind() {
    for config in [DiffConfig::default(), lcs()] {
        let diff = compute_diff(&sample_tree(), &other_tree(), &config);
        for c in diff.changes.iter() {
            match c.change_type {
                ChangeType::Added => assert!(c.old_value.is_none() && c.new_value.is_some()),
                ChangeType::Removed => assert!(c.old_value.is_some() && c.new_value.is_none()),
                ChangeType::Modified => assert!(c.old_value.is_some() && c.new_value.is_some()),
                ChangeType::Unchanged => panic!("the engine reports no unchanged value"),
            }
        }
    }
}

#[test]
fn epsilon_tolerance() {
    let config = DiffConfig::default();
    let diff = compute_diff(&num(1.0), &num(1.0 + 1e-15), &config);
    assert!(diff.changes.is_empty());
    let diff = compute_diff(&num(1.0), &num(1.1), &config);
    assert_eq!(diff.changes.len(), 1);
    assert_eq!(diff.changes[0].change_type, ChangeType::Modified);
    assert_eq!(diff.changes[0].path, Vec::<String>::new());
    assert_eq!(diff.changes[0].old_value, Some(num(1.0)));
    assert_eq!(diff.changes[0].new_value, Some(num(1.1)));
}

#[test]
fn the_tolerance_is_absolute() {
    // far apart in absolute terms, close in relative terms: still a change
    let config = DiffConfig::default();
    let diff = compute_diff(&num(1e15), &num(1e15 + 1.0), &config);
    assert_eq!(diff.stats.modified, 1);
}

#[test]
fn lcs_reports_one_insertion_where_positional_reports_three_changes() {
    let old = Node::Array(vec![num(1.0), num(2.0), num(3.0)]);
    let new = Node::Array(vec![num(1.0), num(4.0), num(2.0), num(3.0)]);

    let aligned = compute_diff(&old, &new, &lcs());
    assert_eq!(aligned.changes.len(), 1);
    assert_eq!(aligned.changes[0].change_type, ChangeType::Added);
    assert_eq!(aligned.changes[0].path, vec!["[1]"]);
    assert_eq!(aligned.changes[0].old_value, None);
    assert_eq!(aligned.changes[0].new_value, Some(num(4.0)));
    assert_eq!(aligned.stats.added, 1);
    assert_eq!(aligned.stats.removed, 0);
    assert_eq!(aligned.stats.modified, 0);

    let positional = compute_diff(&old, &new, &DiffConfig::default());
    assert_eq!(positional.stats.modified, 2);
    assert_eq!(positional.stats.added, 1);
    assert_eq!(positional.stats.removed, 0);
    let paths: Vec<Vec<String>> = positional.changes.iter().map(|c| c.path.clone()).collect();
    assert_eq!(paths, vec![vec!["[1]"], vec!["[2]"], vec!["[3]"]]);
    assert_eq!(positional.changes[0].old_value, Some(num(2.0)));
    assert_eq!(positional.changes[0].new_value, Some(num(4.0)));
    assert_eq!(positional.changes[2].change_type, ChangeType::Added);
    assert_eq!(positional.changes[2].new_value, Some(num(3.0)));
}

#[test]
fn an_added_key_is_one_addition() {
    let old = object(vec![]);
    let new = object(vec![("name", text("Alice"))]);
    let diff = compute_diff(&old, &new, &DiffConfig::default());
    assert_eq!(diff.changes.len(), 1);
    assert_eq!(diff.changes[0].change_type, ChangeType::Added);
    assert_eq!(diff.changes[0].path, vec!["name"]);
    assert_eq!(diff.changes[0].old_value, None);
    assert_eq!(diff.changes[0].new_value, Some(text("Alice")));
}

#[test]
fn lcs_reports_one_removal() {
    let old = Node::Array(vec![num(1.0), num(2.0), num(3.0), num(4.0)]);
    let new = Node::Array(vec![num(1.0), num(3.0), num(4.0)]);
    let diff = compute_diff(&old, &new, &lcs());
    assert_eq!(diff.changes.len(), 1);
    assert_eq!(diff.changes[0].change_type, ChangeType::Removed);
    assert_eq!(diff.changes[0].old_value, Some(num(2.0)));
    assert_eq!(diff.changes[0].new_value, None);
    // the removed item is reported where the new array has got to
    assert_eq!(diff.changes[0].path, vec!["[1]"]);
    assert_eq!(diff.stats.removed, 1);
    assert_eq!(diff.stats.added, 0);
    assert_eq!(diff.stats.modified, 0);
}

#[test]
fn lcs_breaks_ties_towards_insertion() {
    let old = Node::Array(vec![num(1.0), num(2.0), num(3.0)]);
    let new = Node::Array(vec![num(3.0), num(1.0), num(2.0)]);
    let diff = compute_diff(&old, &new, &lcs());
    assert_eq!(diff.changes.len(), 2);
    assert_eq!(diff.changes[0].change_type, ChangeType::Added);
    assert_eq!(diff.changes[0].path, vec!["[0]"]);
    assert_eq!(diff.changes[0].new_value, Some(num(3.0)));
    assert_eq!(diff.changes[1].change_type, ChangeType::Removed);
    assert_eq!(diff.changes[1].path, vec!["[3]"]);
    assert_eq!(diff.changes[1].old_value, Some(num(3.0)));

    // with nothing in common the walk back meets the insertions first, so
    // the script begins with the deletions
    let old = Node::Array(vec![text("a"), text("b")]);
    let new = Node::Array(vec![text("x"), text("y")]);
    let diff = compute_diff(&old, &new, &lcs());
    let seen: Vec<(ChangeType, Vec<String>)> =
        diff.changes.iter().map(|c| (c.change_type, c.path.clone())).collect();
    assert_eq!(
        seen,
        vec![
            (ChangeType::Removed, vec!["[0]".to_string()]),
            (ChangeType::Removed, vec!["[0]".to_string()]),
            (ChangeType::Added, vec!["[0]".to_string()]),
            (ChangeType::Added, vec!["[1]".to_string()]),
        ]
    );
}

#[test]
fn lcs_compares_kept_items_where_they_stand_in_the_new_array() {
    // the two strings match once their whitespace is ignored, and are kept
    let config = DiffConfig {
        ignore_whitespace: true,
        array_diff_strategy: ArrayDiffStrategy::Lcs,
        ..Default::default()
    };
    let old = Node::Array(vec![text("a  b"), num(1.0)]);
    let new = Node::Array(vec![num(0.0), text("a b"), num(1.0)]);
    let diff = compute_diff(&old, &new, &config);
    assert_eq!(diff.changes.len(), 1);
    assert_eq!(diff.changes[0].change_type, ChangeType::Added);
    assert_eq!(diff.changes[0].path, vec!["[0]"]);
}

#[test]
fn whitespace_is_not_ignored_inside_containers_that_are_compared_as_a_whole() {
    let config = DiffConfig {
        ignore_whitespace: true,
        array_diff_strategy: ArrayDiffStrategy::Lcs,
        ..Default::default()
    };
    // as items of an aligned array the two objects are compared
    // semantically, where the strings differ
    let old = Node::Array(vec![object(vec![("k", text("a  b"))])]);
    let new = Node::Array(vec![object(vec![("k", text("a b"))])]);
    let diff = compute_diff(&old, &new, &config);
    assert_eq!(diff.stats.removed, 1);
    assert_eq!(diff.stats.added, 1);
    // index by index the walk reaches the strings themselves
    let config = DiffConfig {
        ignore_whitespace: true,
        ..Default::default()
    };
    let diff = compute_diff(&old, &new, &config);
    assert!(diff.changes.is_empty());
}

#[test]
fn positional_reports_the_tail_of_the_longer_array() {
    let old = Node::Array((0..12).map(|i| num(i as f64)).collect());
    let new = Node::Array((0..9).map(|i| num(i as f64)).collect());
    let diff = compute_diff(&old, &new, &DiffConfig::default());
    let seen: Vec<(ChangeType, Vec<String>)> =
        diff.changes.iter().map(|c| (c.change_type, c.path.clone())).collect();
    assert_eq!(
        seen,
        vec![
            (ChangeType::Removed, vec!["[9]".to_string()]),
            (ChangeType::Removed, vec!["[10]".to_string()]),
            (ChangeType::Removed, vec!["[11]".to_string()]),
        ]
    );
    assert_eq!(diff.changes[1].old_value, Some(num(10.0)));
}

#[test]
fn objects_report_additions_then_removals_then_what_lies_under_common_keys() {
    let old = object(vec![("b", num(1.0)), ("d", num(2.0)), ("a", num(3.0)), ("e", num(9.0))]);
    let new = object(vec![("c", num(4.0)), ("b", num(5.0)), ("z", num(6.0)), ("e", num(9.0))]);
    let diff = compute_diff(&old, &new, &DiffConfig::default());
    let seen: Vec<(ChangeType, Vec<String>)> =
        diff.changes.iter().map(|c| (c.change_type, c.path.clone())).collect();
    assert_eq!(
        seen,
        vec![
            (ChangeType::Added, vec!["c".to_string()]),
            (ChangeType::Added, vec!["z".to_string()]),
            (ChangeType::Removed, vec!["a".to_string()]),
            (ChangeType::Removed, vec!["d".to_string()]),
            (ChangeType::Modified, vec!["b".to_string()]),
        ]
    );
}

#[test]
fn a_change_of_kind_is_one_modification_of_the_whole_value() {
    let old = object(vec![("v", object(vec![("deep", num(1.0))]))]);
    let new = object(vec![("v", Node::Array(vec![num(1.0)]))]);
    let diff = compute_diff(&old, &new, &DiffConfig::default());
    assert_eq!(diff.changes.len(), 1);
    assert_eq!(diff.changes[0].change_type, ChangeType::Modified);
    assert_eq!(diff.changes[0].path, vec!["v"]);
    assert_eq!(diff.changes[0].old_value, Some(object(vec![("deep", num(1.0))])));
    assert_eq!(diff.changes[0].new_value, Some(Node::Array(vec![num(1.0)])));
}

#[test]
fn treat_null_as_missing_changes_nothing() {
    let old = object(vec![("a", Node::Null)]);
    let new = object(vec![]);
    let plain = compute_diff(&old, &new, &DiffConfig::default());
    let config = DiffConfig {
        treat_null_as_missing: true,
        ..Default::default()
    };
    let with_option = compute_diff(&old, &new, &config);
    assert_eq!(plain.stats, with_option.stats);
    assert_eq!(with_option.stats.removed, 1);
}

#[test]
fn ignore_wins_over_only() {
    let change = |path: Vec<&str>| Change {
        path: path.into_iter().map(|s| s.to_string()).collect(),
        change_type: ChangeType::Modified,
        old_value: Some(num(1.0)),
        new_value: Some(num(2.0)),
    };
    let changes = vec![
        change(vec!["metadata", "timestamp"]),
        change(vec!["spec", "replicas"]),
        change(vec!["spec", "internal"]),
        change(vec!["spec", "internal", "deep"]),
    ];
    let stats = sdiff::diff::count_changes(&changes);
    let diff = Diff { changes, stats };

    let kept = filter_diff(&diff, &FilterConfig::new().ignore("metadata.**"));
    let paths: Vec<Vec<String>> = kept.changes.iter().map(|c| c.path.clone()).collect();
    assert_eq!(
        paths,
        vec![vec!["spec", "replicas"], vec!["spec", "internal"], vec!["spec", "internal", "deep"]]
    );
    assert_eq!(kept.stats.modified, 3);

    let config = FilterConfig::new().only("spec.**").ignore("spec.internal");
    let kept = filter_diff(&diff, &config);
    let paths: Vec<Vec<String>> = kept.changes.iter().map(|c| c.path.clone()).collect();
    assert_eq!(paths, vec![vec!["spec", "replicas"], vec!["spec", "internal", "deep"]]);
    assert_eq!(kept.stats.modified, 2);
    assert!(!config.should_include(&["spec".to_string(), "internal".to_string()]));

    // the input is left as it was
    assert_eq!(diff.changes.len(), 4);
    assert_eq!(diff.stats.modified, 4);
}

#[test]
fn a_filter_without_patterns_gives_a_copy() {
    let diff = compute_diff(&sample_tree(), &other_tree(), &DiffConfig::default());
    let odd = Diff {
        changes: diff.changes.clone(),
        stats: sdiff::diff::DiffStats { added: 7, removed: 7, modified: 7, unchanged: 7 },
    };
    let copy = filter_diff(&odd, &FilterConfig::new());
    assert_eq!(copy.changes.len(), odd.changes.len());
    assert_eq!(copy.stats, odd.stats);
    for (a, b) in copy.changes.iter().zip(odd.changes.iter()) {
        assert_eq!(a.path, b.path);
        assert_eq!(a.change_type, b.change_type);
        assert_eq!(a.old_value, b.old_value);
        assert_eq!(a.new_value, b.new_value);
    }
}

#[test]
fn a_key_that_looks_like_an_index_is_shown_as_one() {
    let old = object(vec![("items", object(vec![("[0]", num(1.0))]))]);
    let new = object(vec![("items", object(vec![("[0]", num(2.0))]))]);
    let by_key = compute_diff(&old, &new, &DiffConfig::default());
    let old = object(vec![("items", Node::Array(vec![num(1.0)]))]);
    let new = object(vec![("items", Node::Array(vec![num(2.0)]))]);
    let by_index = compute_diff(&old, &new, &DiffConfig::default());
    assert_eq!(by_key.changes.len(), 1);
    assert_eq!(by_key.changes[0].path, by_index.changes[0].path);
    assert_eq!(sdiff::output::format_path(&by_key.changes[0].path), "items[0]");
}
