//! Every change that the engine reports has the values of its kind and
//! stands at or below the place where the two trees stand.

use crate::diff::{
    added_entries, added_items, applied_script, common_entries, count_of, diff_nodes_spec,
    paired_items, removed_entries, removed_items, ChangeType, ChangeView, DiffConfig,
};
use crate::lcs::EditStep;
use crate::tree::{Entries, NodeView};
use vstd::prelude::*;

verus! {

/// The change has the values of its kind: an addition a new value only, a
/// removal an old value only, a modification both; and it is none that
/// reports no change.
pub open spec fn well_formed(c: ChangeView) -> bool {
    match c.change_type {
        ChangeType::Added => c.old_value is None && c.new_value is Some,
        ChangeType::Removed => c.old_value is Some && c.new_value is None,
        ChangeType::Modified => c.old_value is Some && c.new_value is Some,
        ChangeType::Unchanged => false,
    }
}

/// Every change is well formed and stands at `path` or below it.
pub open spec fn all_under(changes: Seq<ChangeView>, path: Seq<Seq<char>>) -> bool {
    forall|i: int|
        0 <= i < changes.len() ==> well_formed(#[trigger] changes[i]) && path.is_prefix_of(
            changes[i].path,
        )
}

proof fn lemma_under_child(changes: Seq<ChangeView>, path: Seq<Seq<char>>, segment: Seq<char>)
    requires
        all_under(changes, path.push(segment)),
    ensures
        all_under(changes, path),
{
    assert forall|i: int| 0 <= i < changes.len() implies path.is_prefix_of(
        (#[trigger] changes[i]).path,
    ) by {
        let longer = path.push(segment);
        assert(longer.is_prefix_of(changes[i].path));
        assert(path =~= longer.subrange(0, path.len() as int));
        assert(path =~= changes[i].path.subrange(0, path.len() as int));
    }
}

proof fn lemma_under_concat(a: Seq<ChangeView>, b: Seq<ChangeView>, path: Seq<Seq<char>>)
    requires
        all_under(a, path),
        all_under(b, path),
    ensures
        all_under(a + b, path),
{
    assert forall|i: int| 0 <= i < (a + b).len() implies well_formed(#[trigger] (a + b)[i])
        && path.is_prefix_of((a + b)[i].path) by {
        if i < a.len() {
            assert((a + b)[i] == a[i]);
        } else {
            assert((a + b)[i] == b[i - a.len()]);
        }
    }
}

proof fn lemma_under_push(a: Seq<ChangeView>, c: ChangeView, path: Seq<Seq<char>>)
    requires
        all_under(a, path),
        well_formed(c),
        path.is_prefix_of(c.path),
    ensures
        all_under(a.push(c), path),
{
    assert forall|i: int| 0 <= i < a.push(c).len() implies well_formed(#[trigger] a.push(c)[i])
        && path.is_prefix_of(a.push(c)[i].path) by {
        if i < a.len() {
            assert(a.push(c)[i] == a[i]);
        }
    }
}

proof fn lemma_prefix_of_child(path: Seq<Seq<char>>, segment: Seq<char>)
    ensures
        path.is_prefix_of(path.push(segment)),
{
    assert(path =~= path.push(segment).subrange(0, path.len() as int));
}

proof fn lemma_entries_under(a: Entries, b: Entries, path: Seq<Seq<char>>, k: int)
    ensures
        all_under(added_entries(a, b, path, k), path),
        all_under(removed_entries(a, b, path, k), path),
    decreases k,
{
    if k > 0 {
        lemma_entries_under(a, b, path, k - 1);
        lemma_prefix_of_child(path, a[k - 1].0);
        if !crate::tree::has_key(b, a[k - 1].0) {
            lemma_under_push(
                added_entries(a, b, path, k - 1),
                crate::diff::added(path.push(a[k - 1].0), a[k - 1].1),
                path,
            );
            lemma_under_push(
                removed_entries(a, b, path, k - 1),
                crate::diff::removed(path.push(a[k - 1].0), a[k - 1].1),
                path,
            );
        }
    }
}

proof fn lemma_items_under(items: Seq<NodeView>, path: Seq<Seq<char>>, from: int, to: int)
    ensures
        all_under(removed_items(items, path, from, to), path),
        all_under(added_items(items, path, from, to), path),
    decreases to - from,
{
    if to > from && from >= 0 {
        lemma_items_under(items, path, from, to - 1);
        let segment = crate::diff::index_segment((to - 1) as nat);
        lemma_prefix_of_child(path, segment);
        lemma_under_push(
            removed_items(items, path, from, to - 1),
            crate::diff::removed(path.push(segment), items[to - 1]),
            path,
        );
        lemma_under_push(
            added_items(items, path, from, to - 1),
            crate::diff::added(path.push(segment), items[to - 1]),
            path,
        );
    }
}

/// Every change between two trees is well formed, and stands at the path of
/// the trees or below it.
pub proof fn lemma_changes_well_formed(
    old: NodeView,
    new: NodeView,
    cfg: DiffConfig,
    path: Seq<Seq<char>>,
)
    ensures
        all_under(diff_nodes_spec(old, new, cfg, path), path),
    decreases old, 1nat, 0nat,
{
    match (old, new) {
        (NodeView::Object(o), NodeView::Object(n)) => {
            let a = added_entries(n, o, path, n.len() as int);
            let r = removed_entries(o, n, path, o.len() as int);
            let c = common_entries(old, n, cfg, path, o.len() as int);
            lemma_entries_under(n, o, path, n.len() as int);
            lemma_entries_under(o, n, path, o.len() as int);
            lemma_common_under(old, n, cfg, path, o.len() as int);
            lemma_under_concat(a, r, path);
            lemma_under_concat(a + r, c, path);
        },
        (NodeView::Array(o), NodeView::Array(n)) => {
            match cfg.array_diff_strategy {
                crate::diff::ArrayDiffStrategy::Positional => {
                    let shared = if o.len() <= n.len() {
                        o.len() as int
                    } else {
                        n.len() as int
                    };
                    let p = paired_items(old, n, cfg, path, shared);
                    let r = removed_items(o, path, shared, o.len() as int);
                    let a = added_items(n, path, shared, n.len() as int);
                    lemma_paired_under(old, n, cfg, path, shared);
                    lemma_items_under(o, path, shared, o.len() as int);
                    lemma_items_under(n, path, shared, n.len() as int);
                    lemma_under_concat(p, r, path);
                    lemma_under_concat(p + r, a, path);
                },
                crate::diff::ArrayDiffStrategy::Lcs => {
                    let script = crate::lcs::lcs_script(o, n, cfg);
                    lemma_applied_under(old, n, cfg, path, script, script.len() as int);
                },
            }
        },
        _ => {
            assert(path.is_prefix_of(path));
        },
    }
}

proof fn lemma_common_under(
    old: NodeView,
    new: Entries,
    cfg: DiffConfig,
    path: Seq<Seq<char>>,
    k: int,
)
    requires
        old is Object,
    ensures
        all_under(common_entries(old, new, cfg, path, k), path),
    decreases old, 0nat, k,
{
    if k > 0 && k <= old->Object_0.len() {
        let e = old->Object_0[k - 1];
        lemma_common_under(old, new, cfg, path, k - 1);
        let before = common_entries(old, new, cfg, path, k - 1);
        match crate::tree::lookup(new, e.0) {
            Some(v) => {
                let here = diff_nodes_spec(e.1, v, cfg, path.push(e.0));
                lemma_changes_well_formed(e.1, v, cfg, path.push(e.0));
                lemma_under_child(here, path, e.0);
                lemma_under_concat(before, here, path);
            },
            None => {
                lemma_under_concat(before, Seq::empty(), path);
            },
        }
    }
}

proof fn lemma_paired_under(
    old: NodeView,
    new: Seq<NodeView>,
    cfg: DiffConfig,
    path: Seq<Seq<char>>,
    k: int,
)
    requires
        old is Array,
    ensures
        all_under(paired_items(old, new, cfg, path, k), path),
    decreases old, 0nat, k,
{
    if k > 0 && k <= old->Array_0.len() {
        lemma_paired_under(old, new, cfg, path, k - 1);
        let segment = crate::diff::index_segment((k - 1) as nat);
        let here = diff_nodes_spec(old->Array_0[k - 1], new[k - 1], cfg, path.push(segment));
        lemma_changes_well_formed(old->Array_0[k - 1], new[k - 1], cfg, path.push(segment));
        lemma_under_child(here, path, segment);
        lemma_under_concat(paired_items(old, new, cfg, path, k - 1), here, path);
    }
}

proof fn lemma_applied_under(
    old: NodeView,
    new: Seq<NodeView>,
    cfg: DiffConfig,
    path: Seq<Seq<char>>,
    script: Seq<EditStep>,
    k: int,
)
    requires
        old is Array,
    ensures
        all_under(applied_script(old, new, cfg, path, script, k), path),
    decreases old, 0nat, k,
{
    if k > 0 {
        let o = old->Array_0;
        lemma_applied_under(old, new, cfg, path, script, k - 1);
        let before = applied_script(old, new, cfg, path, script, k - 1);
        match script[k - 1] {
            EditStep::Keep(oi, ni) => {
                let segment = crate::diff::index_segment(ni as nat);
                if 0 <= oi < o.len() {
                    let here = diff_nodes_spec(o[oi], new[ni], cfg, path.push(segment));
                    lemma_changes_well_formed(o[oi], new[ni], cfg, path.push(segment));
                    lemma_under_child(here, path, segment);
                    lemma_under_concat(before, here, path);
                } else {
                    lemma_under_concat(before, Seq::empty(), path);
                }
            },
            EditStep::Insert(ni) => {
                let segment = crate::diff::index_segment(ni as nat);
                lemma_prefix_of_child(path, segment);
                lemma_under_push(before, crate::diff::added(path.push(segment), new[ni]), path);
            },
            EditStep::Delete(oi) => {
                let segment = crate::diff::index_segment(
                    crate::diff::cursor_after(script, k - 1) as nat,
                );
                lemma_prefix_of_child(path, segment);
                lemma_under_push(before, crate::diff::removed(path.push(segment), o[oi]), path);
            },
        }
    }
}

/// Among changes that are well formed none is counted as unchanged.
pub proof fn lemma_none_unchanged(changes: Seq<ChangeView>, path: Seq<Seq<char>>, k: int)
    requires
        all_under(changes, path),
        0 <= k <= changes.len(),
    ensures
        count_of(changes, ChangeType::Unchanged, k) == 0,
    decreases k,
{
    if k > 0 {
        lemma_none_unchanged(changes, path, k - 1);
        assert(well_formed(changes[k - 1]));
    }
}

} // verus!
