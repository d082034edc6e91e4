//! The diff engine: walks two value trees side by side and reports where
//! they differ.
//!
//! Two objects are compared key by key and two arrays by the configured
//! strategy; any other pair of nodes is one modification unless the two are
//! equal.

use crate::lcs::{lcs_edit_script, lcs_script, script_within, steps_view, EditOp, EditStep};
use crate::text::{
    char_is_whitespace, decimal, is_whitespace, lemma_join_extend_last,
    lemma_join_new_word, lemma_words_nonempty, normalized, push_decimal, str_eq, words,
};
use crate::tree::{
    has_key, lemma_array_view, lemma_item_smaller, lemma_value_smaller, lookup, semantic_eq,
    view_all, Entries, Node, NodeMap, NodeView,
};
use vstd::prelude::*;

verus! {

/// The kind of a change.
#[derive(Debug, Clone, Copy, PartialEq, Eq, Structural)]
pub enum ChangeType {
    /// Present in the new tree only.
    Added,
    /// Present in the old tree only.
    Removed,
    /// Present in both, with different values.
    Modified,
    /// Present in both, with the same value.
    Unchanged,
}

/// One difference between two trees.
#[derive(Debug)]
pub struct Change {
    /// Where the value stands: object keys and bracketed array indices, from
    /// the root down.
    pub path: Vec<String>,
    pub change_type: ChangeType,
    /// The value in the old tree; none for an addition.
    pub old_value: Option<Node>,
    /// The value in the new tree; none for a removal.
    pub new_value: Option<Node>,
}

/// The mathematical value of a change.
pub struct ChangeView {
    pub path: Seq<Seq<char>>,
    pub change_type: ChangeType,
    pub old_value: Option<NodeView>,
    pub new_value: Option<NodeView>,
}

/// The segments of a path.
pub open spec fn path_view(path: Seq<String>) -> Seq<Seq<char>> {
    Seq::new(path.len(), |i: int| path[i]@)
}

/// The value of a node that may be absent.
pub open spec fn option_view(node: Option<Node>) -> Option<NodeView> {
    match node {
        Some(n) => Some(n@),
        None => None,
    }
}

impl View for Change {
    type V = ChangeView;

    open spec fn view(&self) -> ChangeView {
        ChangeView {
            path: path_view(self.path@),
            change_type: self.change_type,
            old_value: option_view(self.old_value),
            new_value: option_view(self.new_value),
        }
    }
}

/// The values of a list of changes.
pub open spec fn changes_view(changes: Seq<Change>) -> Seq<ChangeView> {
    Seq::new(changes.len(), |i: int| changes[i]@)
}

/// An independent copy of a path.
pub fn clone_path(path: &Vec<String>) -> (r: Vec<String>)
    ensures
        path_view(r@) == path_view(path@),
{
    let mut out: Vec<String> = Vec::new();
    let mut i: usize = 0;
    while i < path.len()
        invariant
            i <= path.len(),
            out@.len() == i,
            forall|k: int| 0 <= k < i ==> (#[trigger] out@[k])@ == path@[k]@,
        decreases path.len() - i,
    {
        out.push(path[i].clone());
        i += 1;
    }
    assert(path_view(out@) =~= path_view(path@));
    out
}

fn clone_option(node: &Option<Node>) -> (r: Option<Node>)
    ensures
        option_view(r) == option_view(*node),
{
    match node {
        Some(n) => Some(n.clone()),
        None => None,
    }
}

impl Clone for Change {
    /// An independent copy.
    fn clone(&self) -> (r: Change)
        ensures
            r@ == self@,
    {
        Change {
            path: clone_path(&self.path),
            change_type: self.change_type,
            old_value: clone_option(&self.old_value),
            new_value: clone_option(&self.new_value),
        }
    }
}

/// How many changes of each kind a list holds.
#[derive(Debug, Clone, Copy, PartialEq, Eq, Structural)]
pub struct DiffStats {
    pub added: usize,
    pub removed: usize,
    pub modified: usize,
    pub unchanged: usize,
}

impl DiffStats {
    /// All counts at zero.
    pub fn new() -> (r: DiffStats)
        ensures
            r == (DiffStats { added: 0, removed: 0, modified: 0, unchanged: 0 }),
    {
        DiffStats { added: 0, removed: 0, modified: 0, unchanged: 0 }
    }

    /// The number of changes, the unchanged left out.
    pub fn total_changes(&self) -> (r: usize)
        requires
            self.added + self.removed + self.modified <= usize::MAX,
        ensures
            r == self.added + self.removed + self.modified,
    {
        self.added + self.removed + self.modified
    }

    /// Whether nothing was added, removed or modified.
    pub fn is_empty(&self) -> (r: bool)
        ensures
            r == (self.added + self.removed + self.modified == 0),
    {
        self.added == 0 && self.removed == 0 && self.modified == 0
    }
}

impl Default for DiffStats {
    fn default() -> (r: DiffStats)
        ensures
            r == (DiffStats { added: 0, removed: 0, modified: 0, unchanged: 0 }),
    {
        DiffStats::new()
    }
}

/// The number of changes of one kind among the first `k`.
pub open spec fn count_of(changes: Seq<ChangeView>, kind: ChangeType, k: int) -> nat
    decreases k,
{
    if k <= 0 {
        0
    } else if changes[k - 1].change_type == kind {
        count_of(changes, kind, k - 1) + 1
    } else {
        count_of(changes, kind, k - 1)
    }
}

/// The counts of a list of changes hold, kind by kind, the number of
/// changes of that kind.
pub open spec fn stats_match(stats: DiffStats, changes: Seq<ChangeView>) -> bool {
    &&& stats.added == count_of(changes, ChangeType::Added, changes.len() as int)
    &&& stats.removed == count_of(changes, ChangeType::Removed, changes.len() as int)
    &&& stats.modified == count_of(changes, ChangeType::Modified, changes.len() as int)
    &&& stats.unchanged == count_of(changes, ChangeType::Unchanged, changes.len() as int)
}

/// The four counts of a prefix add up to its length.
pub proof fn lemma_counts_total(changes: Seq<ChangeView>, k: int)
    requires
        0 <= k,
    ensures
        count_of(changes, ChangeType::Added, k) + count_of(changes, ChangeType::Removed, k)
            + count_of(changes, ChangeType::Modified, k) + count_of(
            changes,
            ChangeType::Unchanged,
            k,
        ) == k,
    decreases k,
{
    if k > 0 {
        lemma_counts_total(changes, k - 1);
    }
}

/// Counts the changes of each kind.
pub fn count_changes(changes: &Vec<Change>) -> (stats: DiffStats)
    ensures
        stats_match(stats, changes_view(changes@)),
{
    let ghost all = changes_view(changes@);
    let mut stats = DiffStats::new();
    let mut i: usize = 0;
    while i < changes.len()
        invariant
            i <= changes.len(),
            all == changes_view(changes@),
            stats.added == count_of(all, ChangeType::Added, i as int),
            stats.removed == count_of(all, ChangeType::Removed, i as int),
            stats.modified == count_of(all, ChangeType::Modified, i as int),
            stats.unchanged == count_of(all, ChangeType::Unchanged, i as int),
        decreases changes.len() - i,
    {
        proof {
            lemma_counts_total(all, i as int);
            assert(all[i as int] == changes@[i as int]@);
        }
        match changes[i].change_type {
            ChangeType::Added => {
                stats.added += 1;
            },
            ChangeType::Removed => {
                stats.removed += 1;
            },
            ChangeType::Modified => {
                stats.modified += 1;
            },
            ChangeType::Unchanged => {
                stats.unchanged += 1;
            },
        }
        i += 1;
    }
    stats
}

/// The outcome of comparing two trees: the changes in the order in which
/// they were found, and their counts.
#[derive(Debug)]
pub struct Diff {
    pub changes: Vec<Change>,
    pub stats: DiffStats,
}

/// The mathematical value of a diff.
pub struct DiffView {
    pub changes: Seq<ChangeView>,
    pub stats: DiffStats,
}

impl DiffView {
    /// The counts are those of the changes.
    pub open spec fn consistent(self) -> bool {
        stats_match(self.stats, self.changes)
    }
}

impl View for Diff {
    type V = DiffView;

    open spec fn view(&self) -> DiffView {
        DiffView { changes: changes_view(self.changes@), stats: self.stats }
    }
}

/// An independent copy of a list of changes.
pub fn clone_changes(changes: &Vec<Change>) -> (r: Vec<Change>)
    ensures
        changes_view(r@) == changes_view(changes@),
{
    let mut out: Vec<Change> = Vec::new();
    let mut i: usize = 0;
    while i < changes.len()
        invariant
            i <= changes.len(),
            out@.len() == i,
            forall|k: int| 0 <= k < i ==> (#[trigger] out@[k])@ == changes@[k]@,
        decreases changes.len() - i,
    {
        out.push(changes[i].clone());
        i += 1;
    }
    assert(changes_view(out@) =~= changes_view(changes@));
    out
}

impl Clone for Diff {
    /// An independent copy.
    fn clone(&self) -> (r: Diff)
        ensures
            r@ == self@,
    {
        Diff { changes: clone_changes(&self.changes), stats: self.stats }
    }
}

impl Diff {
    /// A diff without changes.
    pub fn new() -> (r: Diff)
        ensures
            r@.changes == Seq::<ChangeView>::empty(),
            r@.stats == (DiffStats { added: 0, removed: 0, modified: 0, unchanged: 0 }),
            r@.consistent(),
    {
        let r = Diff { changes: Vec::new(), stats: DiffStats::new() };
        assert(r@.changes =~= Seq::<ChangeView>::empty());
        r
    }

    /// Whether the counts show no addition, removal or modification.
    pub fn is_empty(&self) -> (r: bool)
        ensures
            r == (self.stats.added + self.stats.removed + self.stats.modified == 0),
    {
        self.stats.is_empty()
    }
}

impl Default for Diff {
    fn default() -> (r: Diff)
        ensures
            r@.changes == Seq::<ChangeView>::empty(),
            r@.stats == (DiffStats { added: 0, removed: 0, modified: 0, unchanged: 0 }),
    {
        Diff::new()
    }
}

/// How two arrays are compared.
#[derive(Debug, Clone, Copy, PartialEq, Eq, Structural)]
pub enum ArrayDiffStrategy {
    /// Index by index.
    Positional,
    /// Aligned by a longest common subsequence.
    Lcs,
}

impl Default for ArrayDiffStrategy {
    fn default() -> (r: ArrayDiffStrategy)
        ensures
            r == ArrayDiffStrategy::Positional,
    {
        ArrayDiffStrategy::Positional
    }
}

/// The options of a comparison.
#[derive(Debug, Clone, Copy)]
pub struct DiffConfig {
    /// Compare two strings after collapsing their whitespace.
    pub ignore_whitespace: bool,
    /// Part of the configuration; the comparison does not consult it.
    pub treat_null_as_missing: bool,
    pub array_diff_strategy: ArrayDiffStrategy,
}

/// The configuration that `DiffConfig::default()` gives.
pub open spec fn default_config() -> DiffConfig {
    DiffConfig {
        ignore_whitespace: false,
        treat_null_as_missing: false,
        array_diff_strategy: ArrayDiffStrategy::Positional,
    }
}

impl Default for DiffConfig {
    fn default() -> (r: DiffConfig)
        ensures
            r == default_config(),
    {
        DiffConfig {
            ignore_whitespace: false,
            treat_null_as_missing: false,
            array_diff_strategy: ArrayDiffStrategy::Positional,
        }
    }
}

/// Collapses every run of whitespace to one space and trims both ends.
pub fn normalize_whitespace(s: &str) -> (r: String)
    ensures
        r@ == normalized(s@),
{
    let mut out = String::new();
    let mut in_word = false;
    let mut any = false;
    for c in it: s.chars()
        invariant
            it.seq() == s@,
            out@ == normalized(s@.take(it.index() as int)),
            any == (words(s@.take(it.index() as int)).len() > 0),
            in_word == (it.index() > 0 && !is_whitespace(s@[it.index() - 1])),
    {
        let ghost prefix = s@.take(it.index() as int);
        let ghost next = s@.take(it.index() + 1);
        proof {
            assert(next.drop_last() =~= prefix);
            assert(next.last() == c);
            if prefix.len() > 0 {
                assert(prefix.last() == s@[it.index() - 1]);
                if !is_whitespace(prefix.last()) {
                    lemma_words_nonempty(prefix);
                }
            }
        }
        if char_is_whitespace(c) {
            in_word = false;
        } else {
            if in_word {
                proof {
                    lemma_join_extend_last(words(prefix), c);
                }
                out.push(c);
            } else {
                proof {
                    lemma_join_new_word(words(prefix), c);
                }
                if any {
                    out.push(' ');
                }
                out.push(c);
                any = true;
            }
            in_word = true;
        }
    }
    proof {
        assert(s@.take(s@.len() as int) =~= s@);
    }
    out
}

/// Equality under a configuration: two strings are compared after
/// whitespace normalisation where the configuration asks for it; every
/// other pair is compared semantically.
pub open spec fn nodes_equal_spec(old: NodeView, new: NodeView, cfg: DiffConfig) -> bool {
    if cfg.ignore_whitespace && old is String && new is String {
        normalized(old->String_0) == normalized(new->String_0)
    } else {
        semantic_eq(old, new)
    }
}

/// Whether two trees are equal under the configuration.
pub fn nodes_equal(old: &Node, new: &Node, cfg: &DiffConfig) -> (r: bool)
    ensures
        r == nodes_equal_spec(old@, new@, *cfg),
{
    if cfg.ignore_whitespace {
        match (old, new) {
            (Node::String(a), Node::String(b)) => {
                let x = normalize_whitespace(a.as_str());
                let y = normalize_whitespace(b.as_str());
                return str_eq(x.as_str(), y.as_str());
            },
            _ => {},
        }
    }
    old.semantic_equals(new)
}

/// The path segment of an array index: the index in decimal between square
/// brackets.
pub open spec fn index_segment(i: nat) -> Seq<char> {
    seq!['['] + decimal(i) + seq![']']
}

pub open spec fn added(path: Seq<Seq<char>>, value: NodeView) -> ChangeView {
    ChangeView { path, change_type: ChangeType::Added, old_value: None, new_value: Some(value) }
}

pub open spec fn removed(path: Seq<Seq<char>>, value: NodeView) -> ChangeView {
    ChangeView { path, change_type: ChangeType::Removed, old_value: Some(value), new_value: None }
}

pub open spec fn modified(path: Seq<Seq<char>>, old: NodeView, new: NodeView) -> ChangeView {
    ChangeView {
        path,
        change_type: ChangeType::Modified,
        old_value: Some(old),
        new_value: Some(new),
    }
}

/// One addition for each of the first `k` entries of `new` whose key `old`
/// lacks.
pub open spec fn added_entries(new: Entries, old: Entries, path: Seq<Seq<char>>, k: int) -> Seq<
    ChangeView,
>
    decreases k,
{
    if k <= 0 {
        Seq::empty()
    } else if has_key(old, new[k - 1].0) {
        added_entries(new, old, path, k - 1)
    } else {
        added_entries(new, old, path, k - 1).push(added(path.push(new[k - 1].0), new[k - 1].1))
    }
}

/// One removal for each of the first `k` entries of `old` whose key `new`
/// lacks.
pub open spec fn removed_entries(old: Entries, new: Entries, path: Seq<Seq<char>>, k: int) -> Seq<
    ChangeView,
>
    decreases k,
{
    if k <= 0 {
        Seq::empty()
    } else if has_key(new, old[k - 1].0) {
        removed_entries(old, new, path, k - 1)
    } else {
        removed_entries(old, new, path, k - 1).push(
            removed(path.push(old[k - 1].0), old[k - 1].1),
        )
    }
}

/// One removal for each old item from `from` up to `to`, at its own index.
pub open spec fn removed_items(old: Seq<NodeView>, path: Seq<Seq<char>>, from: int, to: int) -> Seq<
    ChangeView,
>
    decreases to - from,
{
    if to <= from || from < 0 {
        Seq::empty()
    } else {
        removed_items(old, path, from, to - 1).push(
            removed(path.push(index_segment((to - 1) as nat)), old[to - 1]),
        )
    }
}

/// One addition for each new item from `from` up to `to`, at its own index.
pub open spec fn added_items(new: Seq<NodeView>, path: Seq<Seq<char>>, from: int, to: int) -> Seq<
    ChangeView,
>
    decreases to - from,
{
    if to <= from || from < 0 {
        Seq::empty()
    } else {
        added_items(new, path, from, to - 1).push(
            added(path.push(index_segment((to - 1) as nat)), new[to - 1]),
        )
    }
}

/// The position in the new array that the script has reached after `k`
/// steps: one past the last new item kept or inserted.
pub open spec fn cursor_after(script: Seq<EditStep>, k: int) -> int
    decreases k,
{
    if k <= 0 {
        0
    } else {
        match script[k - 1] {
            EditStep::Keep(_, ni) => ni + 1,
            EditStep::Insert(ni) => ni + 1,
            EditStep::Delete(_) => cursor_after(script, k - 1),
        }
    }
}

/// The changes between two trees, `path` being where they stand.
pub open spec fn diff_nodes_spec(
    old: NodeView,
    new: NodeView,
    cfg: DiffConfig,
    path: Seq<Seq<char>>,
) -> Seq<ChangeView>
    decreases old, 2nat, 0nat,
{
    match (old, new) {
        (NodeView::Object(o), NodeView::Object(n)) => diff_objects_spec(old, n, cfg, path),
        (NodeView::Array(o), NodeView::Array(n)) => diff_arrays_spec(old, n, cfg, path),
        _ => if nodes_equal_spec(old, new, cfg) {
            Seq::empty()
        } else {
            seq![modified(path, old, new)]
        },
    }
}

/// The changes between the object `old` and an object with the entries
/// `new`: the additions, then the removals, then the changes under the keys
/// that both have.
pub open spec fn diff_objects_spec(
    old: NodeView,
    new: Entries,
    cfg: DiffConfig,
    path: Seq<Seq<char>>,
) -> Seq<ChangeView>
    recommends
        old is Object,
    decreases old, 1nat, 0nat,
{
    let o = old->Object_0;
    added_entries(new, o, path, new.len() as int) + removed_entries(o, new, path, o.len() as int)
        + common_entries(old, new, cfg, path, o.len() as int)
}

/// The changes under the keys that both objects have, for the first `k`
/// entries of `old`.
pub open spec fn common_entries(
    old: NodeView,
    new: Entries,
    cfg: DiffConfig,
    path: Seq<Seq<char>>,
    k: int,
) -> Seq<ChangeView>
    recommends
        old is Object,
    decreases old, 0nat, k,
{
    if k <= 0 || !(old is Object) || k > old->Object_0.len() {
        Seq::empty()
    } else {
        let e = old->Object_0[k - 1];
        common_entries(old, new, cfg, path, k - 1) + match lookup(new, e.0) {
            Some(v) => diff_nodes_spec(e.1, v, cfg, path.push(e.0)),
            None => Seq::empty(),
        }
    }
}

/// The changes between the array `old` and an array with the items `new`.
pub open spec fn diff_arrays_spec(
    old: NodeView,
    new: Seq<NodeView>,
    cfg: DiffConfig,
    path: Seq<Seq<char>>,
) -> Seq<ChangeView>
    recommends
        old is Array,
    decreases old, 1nat, 0nat,
{
    let o = old->Array_0;
    match cfg.array_diff_strategy {
        ArrayDiffStrategy::Positional => {
            let shared = if o.len() <= new.len() {
                o.len() as int
            } else {
                new.len() as int
            };
            paired_items(old, new, cfg, path, shared) + removed_items(
                o,
                path,
                shared,
                o.len() as int,
            ) + added_items(new, path, shared, new.len() as int)
        },
        ArrayDiffStrategy::Lcs => {
            let script = lcs_script(o, new, cfg);
            applied_script(old, new, cfg, path, script, script.len() as int)
        },
    }
}

/// The changes between the first `k` items of the array `old` and the items
/// of `new` at the same indices.
pub open spec fn paired_items(
    old: NodeView,
    new: Seq<NodeView>,
    cfg: DiffConfig,
    path: Seq<Seq<char>>,
    k: int,
) -> Seq<ChangeView>
    recommends
        old is Array,
    decreases old, 0nat, k,
{
    if k <= 0 || !(old is Array) || k > old->Array_0.len() {
        Seq::empty()
    } else {
        paired_items(old, new, cfg, path, k - 1) + diff_nodes_spec(
            old->Array_0[k - 1],
            new[k - 1],
            cfg,
            path.push(index_segment((k - 1) as nat)),
        )
    }
}

/// The changes that the first `k` steps of an edit script report. A kept
/// pair is compared at the index of its new item; an inserted item is an
/// addition at its index; a deleted item is a removal at the position that
/// the script has reached in the new array.
pub open spec fn applied_script(
    old: NodeView,
    new: Seq<NodeView>,
    cfg: DiffConfig,
    path: Seq<Seq<char>>,
    script: Seq<EditStep>,
    k: int,
) -> Seq<ChangeView>
    recommends
        old is Array,
    decreases old, 0nat, k,
{
    if k <= 0 || !(old is Array) {
        Seq::empty()
    } else {
        let o = old->Array_0;
        let before = applied_script(old, new, cfg, path, script, k - 1);
        match script[k - 1] {
            EditStep::Keep(oi, ni) => before + if 0 <= oi < o.len() {
                diff_nodes_spec(o[oi], new[ni], cfg, path.push(index_segment(ni as nat)))
            } else {
                Seq::empty()
            },
            EditStep::Insert(ni) => before.push(added(path.push(index_segment(ni as nat)), new[ni])),
            EditStep::Delete(oi) => before.push(
                removed(path.push(index_segment(cursor_after(script, k - 1) as nat)), o[oi]),
            ),
        }
    }
}

/// The path of a child under `path`.
fn child_path(path: &Vec<String>, segment: String) -> (r: Vec<String>)
    ensures
        path_view(r@) == path_view(path@).push(segment@),
{
    let mut out = clone_path(path);
    let ghost before = out@;
    out.push(segment);
    assert(path_view(out@) =~= path_view(before).push(segment@));
    out
}

/// The path of the item at index `i` under `path`.
fn item_path(path: &Vec<String>, i: usize) -> (r: Vec<String>)
    ensures
        path_view(r@) == path_view(path@).push(index_segment(i as nat)),
{
    let mut segment = String::new();
    segment.push('[');
    push_decimal(&mut segment, i);
    segment.push(']');
    assert(segment@ =~= index_segment(i as nat));
    child_path(path, segment)
}

fn push_change(changes: &mut Vec<Change>, change: Change)
    ensures
        changes_view(final(changes)@) == changes_view(old(changes)@).push(change@),
{
    changes.push(change);
    assert(changes_view(changes@) =~= changes_view(old(changes)@).push(change@));
}

/// Appends to `changes` the changes between two trees that stand at `path`.
fn diff_nodes(
    old_node: &Node,
    new_node: &Node,
    path: &Vec<String>,
    changes: &mut Vec<Change>,
    cfg: &DiffConfig,
)
    ensures
        changes_view(final(changes)@) == changes_view(old(changes)@) + diff_nodes_spec(
            old_node@,
            new_node@,
            *cfg,
            path_view(path@),
        ),
    decreases old_node@, 2nat, 0nat,
{
    match (old_node, new_node) {
        (Node::Object(old_map), Node::Object(new_map)) => {
            diff_objects(old_node, old_map, new_map, path, changes, cfg);
        },
        (Node::Array(old_items), Node::Array(new_items)) => {
            proof {
                lemma_array_view(*old_items);
                lemma_array_view(*new_items);
            }
            diff_arrays(old_node, old_items, new_items, path, changes, cfg);
        },
        _ => {
            if !nodes_equal(old_node, new_node, cfg) {
                let change = Change {
                    path: clone_path(path),
                    change_type: ChangeType::Modified,
                    old_value: Some(old_node.clone()),
                    new_value: Some(new_node.clone()),
                };
                push_change(changes, change);
                proof {
                    let c = modified(path_view(path@), old_node@, new_node@);
                    assert(changes_view(old(changes)@).push(c) =~= changes_view(old(changes)@)
                        + seq![c]);
                }
            } else {
                assert(changes_view(changes@) + Seq::<ChangeView>::empty() =~= changes_view(
                    changes@,
                ));
            }
        },
    }
}

/// Appends to `changes` the changes between two objects.
fn diff_objects(
    parent: &Node,
    old_map: &NodeMap,
    new_map: &NodeMap,
    path: &Vec<String>,
    changes: &mut Vec<Change>,
    cfg: &DiffConfig,
)
    requires
        parent@ == NodeView::Object(old_map@),
    ensures
        changes_view(final(changes)@) == changes_view(old(changes)@) + diff_objects_spec(
            parent@,
            new_map@,
            *cfg,
            path_view(path@),
        ),
    decreases parent@, 1nat, 0nat,
{
    let ghost start = changes_view(changes@);
    let ghost p = path_view(path@);
    let ghost o = old_map@;
    let ghost n = new_map@;
    let mut i: usize = 0;
    while i < new_map.len()
        invariant
            i <= n.len(),
            n == new_map@,
            o == old_map@,
            p == path_view(path@),
            changes_view(changes@) == start + added_entries(n, o, p, i as int),
        decreases n.len() - i,
    {
        let key = new_map.key_at(i);
        if !old_map.contains_key(key.as_str()) {
            let ghost before = changes_view(changes@);
            let change = Change {
                path: child_path(path, key.clone()),
                change_type: ChangeType::Added,
                old_value: None,
                new_value: Some(new_map.value_at(i).clone()),
            };
            push_change(changes, change);
            proof {
                let c = added(p.push(n[i as int].0), n[i as int].1);
                assert(change@ == c);
                assert((start + added_entries(n, o, p, i as int)).push(c) =~= start
                    + added_entries(n, o, p, i as int).push(c));
            }
        }
        i += 1;
    }
    let ghost after_added = changes_view(changes@);
    let mut i: usize = 0;
    while i < old_map.len()
        invariant
            i <= o.len(),
            n == new_map@,
            o == old_map@,
            p == path_view(path@),
            changes_view(changes@) == after_added + removed_entries(o, n, p, i as int),
        decreases o.len() - i,
    {
        let key = old_map.key_at(i);
        if !new_map.contains_key(key.as_str()) {
            let change = Change {
                path: child_path(path, key.clone()),
                change_type: ChangeType::Removed,
                old_value: Some(old_map.value_at(i).clone()),
                new_value: None,
            };
            push_change(changes, change);
            proof {
                let c = removed(p.push(o[i as int].0), o[i as int].1);
                assert(change@ == c);
                assert((after_added + removed_entries(o, n, p, i as int)).push(c) =~= after_added
                    + removed_entries(o, n, p, i as int).push(c));
            }
        }
        i += 1;
    }
    let ghost after_removed = changes_view(changes@);
    let mut i: usize = 0;
    while i < old_map.len()
        invariant
            i <= o.len(),
            n == new_map@,
            o == old_map@,
            p == path_view(path@),
            parent@ == NodeView::Object(o),
            changes_view(changes@) == after_removed + common_entries(parent@, n, *cfg, p, i as int),
        decreases o.len() - i,
    {
        let key = old_map.key_at(i);
        let ghost before = changes_view(changes@);
        match new_map.get(key.as_str()) {
            Some(new_value) => {
                proof {
                    lemma_value_smaller(parent@, i as int);
                }
                let child = child_path(path, key.clone());
                diff_nodes(old_map.value_at(i), new_value, &child, changes, cfg);
                proof {
                    let d = diff_nodes_spec(o[i as int].1, new_value@, *cfg, p.push(o[i as int].0));
                    assert(changes_view(changes@) == before + d);
                    assert((after_removed + common_entries(parent@, n, *cfg, p, i as int)) + d
                        =~= after_removed + (common_entries(parent@, n, *cfg, p, i as int) + d));
                }
            },
            None => {
                proof {
                    let c = common_entries(parent@, n, *cfg, p, i as int);
                    assert(c + Seq::<ChangeView>::empty() =~= c);
                }
            },
        }
        i += 1;
    }
    proof {
        let a = added_entries(n, o, p, n.len() as int);
        let r = removed_entries(o, n, p, o.len() as int);
        let c = common_entries(parent@, n, *cfg, p, o.len() as int);
        assert(((start + a) + r) + c =~= start + (a + r + c));
    }
}

/// Appends to `changes` the changes between two arrays.
fn diff_arrays(
    parent: &Node,
    old_items: &Vec<Node>,
    new_items: &Vec<Node>,
    path: &Vec<String>,
    changes: &mut Vec<Change>,
    cfg: &DiffConfig,
)
    requires
        parent@ == NodeView::Array(view_all(old_items@)),
    ensures
        changes_view(final(changes)@) == changes_view(old(changes)@) + diff_arrays_spec(
            parent@,
            view_all(new_items@),
            *cfg,
            path_view(path@),
        ),
    decreases parent@, 1nat, 0nat,
{
    let ghost start = changes_view(changes@);
    let ghost p = path_view(path@);
    let ghost o = view_all(old_items@);
    let ghost n = view_all(new_items@);
    match cfg.array_diff_strategy {
        ArrayDiffStrategy::Positional => {
            let shared = if old_items.len() <= new_items.len() {
                old_items.len()
            } else {
                new_items.len()
            };
            let mut i: usize = 0;
            while i < shared
                invariant
                    i <= shared,
                    shared <= old_items@.len(),
                    shared <= new_items@.len(),
                    o == view_all(old_items@),
                    n == view_all(new_items@),
                    p == path_view(path@),
                    parent@ == NodeView::Array(o),
                    changes_view(changes@) == start + paired_items(parent@, n, *cfg, p, i as int),
                decreases shared - i,
            {
                proof {
                    lemma_item_smaller(parent@, i as int);
                    assert(o[i as int] == old_items@[i as int]@);
                    assert(n[i as int] == new_items@[i as int]@);
                }
                let child = item_path(path, i);
                let ghost before = paired_items(parent@, n, *cfg, p, i as int);
                diff_nodes(&old_items[i], &new_items[i], &child, changes, cfg);
                proof {
                    let d = diff_nodes_spec(o[i as int], n[i as int], *cfg, path_view(child@));
                    assert((start + before) + d =~= start + (before + d));
                }
                i += 1;
            }
            let ghost after_paired = changes_view(changes@);
            let mut i: usize = shared;
            while i < old_items.len()
                invariant
                    shared <= i <= old_items@.len(),
                    o == view_all(old_items@),
                    p == path_view(path@),
                    changes_view(changes@) == after_paired + removed_items(
                        o,
                        p,
                        shared as int,
                        i as int,
                    ),
                decreases old_items.len() - i,
            {
                let change = Change {
                    path: item_path(path, i),
                    change_type: ChangeType::Removed,
                    old_value: Some(old_items[i].clone()),
                    new_value: None,
                };
                push_change(changes, change);
                proof {
                    let c = removed(p.push(index_segment(i as nat)), o[i as int]);
                    assert(change@ == c);
                    let r = removed_items(o, p, shared as int, i as int);
                    assert((after_paired + r).push(c) =~= after_paired + r.push(c));
                }
                i += 1;
            }
            let ghost after_removed = changes_view(changes@);
            let mut i: usize = shared;
            while i < new_items.len()
                invariant
                    shared <= i <= new_items@.len(),
                    n == view_all(new_items@),
                    p == path_view(path@),
                    changes_view(changes@) == after_removed + added_items(
                        n,
                        p,
                        shared as int,
                        i as int,
                    ),
                decreases new_items.len() - i,
            {
                let change = Change {
                    path: item_path(path, i),
                    change_type: ChangeType::Added,
                    old_value: None,
                    new_value: Some(new_items[i].clone()),
                };
                push_change(changes, change);
                proof {
                    let c = added(p.push(index_segment(i as nat)), n[i as int]);
                    assert(change@ == c);
                    let a = added_items(n, p, shared as int, i as int);
                    assert((after_removed + a).push(c) =~= after_removed + a.push(c));
                }
                i += 1;
            }
            proof {
                let a = paired_items(parent@, n, *cfg, p, shared as int);
                let b = removed_items(o, p, shared as int, o.len() as int);
                let c = added_items(n, p, shared as int, n.len() as int);
                assert(((start + a) + b) + c =~= start + (a + b + c));
            }
        },
        ArrayDiffStrategy::Lcs => {
            let script = lcs_edit_script(old_items, new_items, cfg);
            let ghost steps = steps_view(script@);
            let limit = new_items.len();
            let mut cursor: usize = 0;
            let mut k: usize = 0;
            while k < script.len()
                invariant
                    k <= script@.len(),
                    steps == steps_view(script@),
                    script_within(steps, old_items@.len() as int, new_items@.len() as int),
                    o == view_all(old_items@),
                    n == view_all(new_items@),
                    p == path_view(path@),
                    parent@ == NodeView::Array(o),
                    cursor == cursor_after(steps, k as int),
                    limit == new_items@.len(),
                    cursor <= limit,
                    changes_view(changes@) == start + applied_script(
                        parent@,
                        n,
                        *cfg,
                        p,
                        steps,
                        k as int,
                    ),
                decreases script@.len() - k,
            {
                let ghost before = applied_script(parent@, n, *cfg, p, steps, k as int);
                let op = script[k];
                assert(op@ == steps[k as int]);
                match op {
                    EditOp::Keep(oi, ni) => {
                        proof {
                            lemma_item_smaller(parent@, oi as int);
                            assert(o[oi as int] == old_items@[oi as int]@);
                            assert(n[ni as int] == new_items@[ni as int]@);
                        }
                        let child = item_path(path, ni);
                        diff_nodes(&old_items[oi], &new_items[ni], &child, changes, cfg);
                        proof {
                            let d = diff_nodes_spec(
                                o[oi as int],
                                n[ni as int],
                                *cfg,
                                path_view(child@),
                            );
                            assert((start + before) + d =~= start + (before + d));
                        }
                        cursor = ni + 1;
                    },
                    EditOp::Insert(ni) => {
                        let change = Change {
                            path: item_path(path, ni),
                            change_type: ChangeType::Added,
                            old_value: None,
                            new_value: Some(new_items[ni].clone()),
                        };
                        push_change(changes, change);
                        proof {
                            let c = added(p.push(index_segment(ni as nat)), n[ni as int]);
                            assert(change@ == c);
                            assert((start + before).push(c) =~= start + before.push(c));
                        }
                        cursor = ni + 1;
                    },
                    EditOp::Delete(oi) => {
                        let change = Change {
                            path: item_path(path, cursor),
                            change_type: ChangeType::Removed,
                            old_value: Some(old_items[oi].clone()),
                            new_value: None,
                        };
                        push_change(changes, change);
                        proof {
                            let c = removed(p.push(index_segment(cursor as nat)), o[oi as int]);
                            assert(change@ == c);
                            assert((start + before).push(c) =~= start + before.push(c));
                        }
                    },
                }
                k += 1;
            }
        },
    }
}

/// Compares two trees: the changes between them, from the root, and their
/// counts.
pub fn compute_diff(old: &Node, new: &Node, config: &DiffConfig) -> (diff: Diff)
    ensures
        diff@.changes == diff_nodes_spec(old@, new@, *config, Seq::empty()),
        diff@.consistent(),
{
    let mut changes: Vec<Change> = Vec::new();
    let path: Vec<String> = Vec::new();
    proof {
        assert(path_view(path@) =~= Seq::<Seq<char>>::empty());
        assert(changes_view(changes@) =~= Seq::<ChangeView>::empty());
    }
    diff_nodes(old, new, &path, &mut changes, config);
    proof {
        let d = diff_nodes_spec(old@, new@, *config, Seq::empty());
        assert(Seq::<ChangeView>::empty() + d =~= d);
    }
    let stats = count_changes(&changes);
    Diff { changes, stats }
}

} // verus!
