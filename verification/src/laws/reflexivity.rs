//! A tree does not differ from itself.

use crate::diff::{
    added_entries, applied_script, common_entries, diff_nodes_spec, index_segment,
    nodes_equal_spec, paired_items, removed_entries, ArrayDiffStrategy, ChangeView, DiffConfig,
    DiffStats, DiffView,
};
use crate::lcs::{script_upto, EditStep};
use crate::number::{is_finite, numbers_close};
use crate::tree::{entries_sorted, lemma_position_of_entry, lookup, semantic_eq, Entries, NodeView};
use vstd::prelude::*;

verus! {

/// A finite number is close to itself.
pub proof fn lemma_number_close_reflexive(bits: u64)
    requires
        is_finite(bits),
    ensures
        numbers_close(bits, bits),
{
}

/// A tree whose numbers are finite is semantically equal to itself.
pub proof fn lemma_semantic_eq_reflexive(x: NodeView)
    requires
        x.wf(),
        x.all_finite(),
    ensures
        semantic_eq(x, x),
    decreases x,
{
    match x {
        NodeView::Number(bits) => {
            lemma_number_close_reflexive(bits);
        },
        NodeView::Object(entries) => {
            assert forall|i: int| 0 <= i < entries.len() implies match lookup(
                entries,
                (#[trigger] entries[i]).0,
            ) {
                Some(v) => semantic_eq(entries[i].1, v),
                None => false,
            } by {
                lemma_position_of_entry(entries, i);
                lemma_semantic_eq_reflexive(entries[i].1);
            }
        },
        NodeView::Array(items) => {
            assert forall|i: int| 0 <= i < items.len() implies semantic_eq(
                #[trigger] items[i],
                items[i],
            ) by {
                lemma_semantic_eq_reflexive(items[i]);
            }
        },
        _ => {},
    }
}

/// An object has all of its own keys: nothing is added or removed.
proof fn lemma_no_entries_added_or_removed(entries: Entries, path: Seq<Seq<char>>, k: int)
    requires
        entries_sorted(entries),
        0 <= k <= entries.len(),
    ensures
        added_entries(entries, entries, path, k) == Seq::<ChangeView>::empty(),
        removed_entries(entries, entries, path, k) == Seq::<ChangeView>::empty(),
    decreases k,
{
    if k > 0 {
        lemma_position_of_entry(entries, k - 1);
        lemma_no_entries_added_or_removed(entries, path, k - 1);
    }
}

/// Aligning an array with itself keeps every item in place.
proof fn lemma_script_of_same(items: Seq<NodeView>, cfg: DiffConfig, i: int)
    requires
        0 <= i <= items.len(),
        forall|k: int| 0 <= k < items.len() ==> nodes_equal_spec(#[trigger] items[k], items[k], cfg),
    ensures
        script_upto(items, items, cfg, i, i) == Seq::new(i as nat, |k: int| EditStep::Keep(k, k)),
    decreases i,
{
    let expected = Seq::new(i as nat, |k: int| EditStep::Keep(k, k));
    if i > 0 {
        lemma_script_of_same(items, cfg, i - 1);
        assert(nodes_equal_spec(items[i - 1], items[i - 1], cfg));
        assert(script_upto(items, items, cfg, i, i) =~= expected);
    } else {
        assert(script_upto(items, items, cfg, i, i) =~= expected);
    }
}

/// A tree whose numbers are finite is equal to itself under any
/// configuration.
pub proof fn lemma_nodes_equal_reflexive(x: NodeView, cfg: DiffConfig)
    requires
        x.wf(),
        x.all_finite(),
    ensures
        nodes_equal_spec(x, x, cfg),
{
    lemma_semantic_eq_reflexive(x);
}

/// Reflexivity: a tree whose numbers are finite does not differ from itself,
/// under any configuration and wherever it stands.
pub proof fn lemma_diff_reflexive(x: NodeView, cfg: DiffConfig, path: Seq<Seq<char>>)
    requires
        x.wf(),
        x.all_finite(),
    ensures
        diff_nodes_spec(x, x, cfg, path) == Seq::<ChangeView>::empty(),
    decreases x, 1nat, 0nat,
{
    match x {
        NodeView::Object(entries) => {
            lemma_no_entries_added_or_removed(entries, path, entries.len() as int);
            lemma_common_of_same(x, cfg, path, entries.len() as int);
        },
        NodeView::Array(items) => {
            match cfg.array_diff_strategy {
                ArrayDiffStrategy::Positional => {
                    lemma_paired_of_same(x, cfg, path, items.len() as int);
                },
                ArrayDiffStrategy::Lcs => {
                    assert forall|k: int| 0 <= k < items.len() implies nodes_equal_spec(
                        #[trigger] items[k],
                        items[k],
                        cfg,
                    ) by {
                        lemma_nodes_equal_reflexive(items[k], cfg);
                    }
                    lemma_script_of_same(items, cfg, items.len() as int);
                    lemma_applied_of_same(x, cfg, path, items.len() as int);
                },
            }
        },
        _ => {
            lemma_nodes_equal_reflexive(x, cfg);
        },
    }
}

/// A diff of a tree with itself, its numbers being finite, has no change
/// and counts none.
pub proof fn lemma_diff_of_same_is_empty(x: NodeView, cfg: DiffConfig, diff: DiffView)
    requires
        x.wf(),
        x.all_finite(),
        diff.changes == diff_nodes_spec(x, x, cfg, Seq::empty()),
        diff.consistent(),
    ensures
        diff.changes.len() == 0,
        diff.stats == (DiffStats { added: 0, removed: 0, modified: 0, unchanged: 0 }),
{
    lemma_diff_reflexive(x, cfg, Seq::empty());
}

proof fn lemma_common_of_same(x: NodeView, cfg: DiffConfig, path: Seq<Seq<char>>, k: int)
    requires
        x is Object,
        x.wf(),
        x.all_finite(),
        0 <= k <= x->Object_0.len(),
    ensures
        common_entries(x, x->Object_0, cfg, path, k) == Seq::<ChangeView>::empty(),
    decreases x, 0nat, k,
{
    if k > 0 {
        let entries = x->Object_0;
        lemma_common_of_same(x, cfg, path, k - 1);
        lemma_position_of_entry(entries, k - 1);
        let e = entries[k - 1];
        lemma_diff_reflexive(e.1, cfg, path.push(e.0));
    }
}

proof fn lemma_paired_of_same(x: NodeView, cfg: DiffConfig, path: Seq<Seq<char>>, k: int)
    requires
        x is Array,
        x.wf(),
        x.all_finite(),
        0 <= k <= x->Array_0.len(),
    ensures
        paired_items(x, x->Array_0, cfg, path, k) == Seq::<ChangeView>::empty(),
    decreases x, 0nat, k,
{
    if k > 0 {
        let items = x->Array_0;
        lemma_paired_of_same(x, cfg, path, k - 1);
        lemma_diff_reflexive(items[k - 1], cfg, path.push(index_segment((k - 1) as nat)));
    }
}

proof fn lemma_applied_of_same(x: NodeView, cfg: DiffConfig, path: Seq<Seq<char>>, k: int)
    requires
        x is Array,
        x.wf(),
        x.all_finite(),
        0 <= k <= x->Array_0.len(),
    ensures
        applied_script(
            x,
            x->Array_0,
            cfg,
            path,
            Seq::new(x->Array_0.len(), |i: int| EditStep::Keep(i, i)),
            k,
        ) == Seq::<ChangeView>::empty(),
    decreases x, 0nat, k,
{
    if k > 0 {
        let items = x->Array_0;
        lemma_applied_of_same(x, cfg, path, k - 1);
        lemma_diff_reflexive(items[k - 1], cfg, path.push(index_segment((k - 1) as nat)));
    }
}

} // verus!
