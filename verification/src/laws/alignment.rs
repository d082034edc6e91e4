//! The table holds the lengths of longest common subsequences, and the edit
//! script keeps one of them.

use crate::diff::{nodes_equal_spec, DiffConfig};
use crate::lcs::{lcs_len, script_upto, EditStep};
use crate::tree::NodeView;
use vstd::prelude::*;

verus! {

/// A common subsequence of the first `i` old and the first `j` new items:
/// pairs of an old and a new index, ascending in both, whose items match.
pub open spec fn is_common_subsequence(
    old: Seq<NodeView>,
    new: Seq<NodeView>,
    cfg: DiffConfig,
    pairs: Seq<(int, int)>,
    i: int,
    j: int,
) -> bool {
    &&& forall|k: int|
        0 <= k < pairs.len() ==> {
            &&& 0 <= (#[trigger] pairs[k]).0 < i
            &&& 0 <= pairs[k].1 < j
            &&& nodes_equal_spec(old[pairs[k].0], new[pairs[k].1], cfg)
        }
    &&& forall|k: int, l: int|
        0 <= k < l < pairs.len() ==> (#[trigger] pairs[k]).0 < (#[trigger] pairs[l]).0
            && pairs[k].1 < pairs[l].1
}

/// The pairs that a script keeps, in its order.
pub open spec fn kept_pairs(script: Seq<EditStep>) -> Seq<(int, int)>
    decreases script.len(),
{
    if script.len() == 0 {
        Seq::empty()
    } else {
        match script.last() {
            EditStep::Keep(a, b) => kept_pairs(script.drop_last()).push((a, b)),
            _ => kept_pairs(script.drop_last()),
        }
    }
}

/// The old items that a script passes, kept or deleted, in its order.
pub open spec fn old_indices(script: Seq<EditStep>) -> Seq<int>
    decreases script.len(),
{
    if script.len() == 0 {
        Seq::empty()
    } else {
        match script.last() {
            EditStep::Keep(a, _) => old_indices(script.drop_last()).push(a),
            EditStep::Delete(a) => old_indices(script.drop_last()).push(a),
            EditStep::Insert(_) => old_indices(script.drop_last()),
        }
    }
}

/// The new items that a script passes, kept or inserted, in its order.
pub open spec fn new_indices(script: Seq<EditStep>) -> Seq<int>
    decreases script.len(),
{
    if script.len() == 0 {
        Seq::empty()
    } else {
        match script.last() {
            EditStep::Keep(_, b) => new_indices(script.drop_last()).push(b),
            EditStep::Insert(b) => new_indices(script.drop_last()).push(b),
            EditStep::Delete(_) => new_indices(script.drop_last()),
        }
    }
}

/// No common subsequence of the first `i` old and the first `j` new items is
/// longer than the table says.
pub proof fn lemma_lcs_len_is_longest(
    old: Seq<NodeView>,
    new: Seq<NodeView>,
    cfg: DiffConfig,
    pairs: Seq<(int, int)>,
    i: int,
    j: int,
)
    requires
        0 <= i,
        0 <= j,
        is_common_subsequence(old, new, cfg, pairs, i, j),
    ensures
        pairs.len() <= lcs_len(old, new, cfg, i, j),
    decreases i + j,
{
    if pairs.len() == 0 {
    } else if i == 0 || j == 0 {
        assert(0 <= pairs[0].0 < i && 0 <= pairs[0].1 < j);
    } else {
        let last = pairs.last();
        let rest = pairs.drop_last();
        assert(0 <= last.0 < i && 0 <= last.1 < j);
        if nodes_equal_spec(old[i - 1], new[j - 1], cfg) {
            assert forall|k: int| 0 <= k < rest.len() implies 0 <= (#[trigger] rest[k]).0 < i - 1
                && 0 <= rest[k].1 < j - 1 && nodes_equal_spec(
                old[rest[k].0],
                new[rest[k].1],
                cfg,
            ) by {
                assert(rest[k] == pairs[k]);
                assert(pairs[k].0 < pairs[pairs.len() - 1].0);
            }
            assert forall|k: int, l: int| 0 <= k < l < rest.len() implies (#[trigger] rest[k]).0 < (
            #[trigger] rest[l]).0 && rest[k].1 < rest[l].1 by {
                assert(rest[k] == pairs[k]);
                assert(rest[l] == pairs[l]);
            }
            lemma_lcs_len_is_longest(old, new, cfg, rest, i - 1, j - 1);
        } else if last.0 < i - 1 {
            assert forall|k: int| 0 <= k < pairs.len() implies 0 <= (#[trigger] pairs[k]).0 < i - 1
                && 0 <= pairs[k].1 < j && nodes_equal_spec(old[pairs[k].0], new[pairs[k].1], cfg) by {
                if k < pairs.len() - 1 {
                    assert(pairs[k].0 < pairs[pairs.len() - 1].0);
                }
            }
            lemma_lcs_len_is_longest(old, new, cfg, pairs, i - 1, j);
        } else {
            assert(last.1 < j - 1);
            assert forall|k: int| 0 <= k < pairs.len() implies 0 <= (#[trigger] pairs[k]).0 < i
                && 0 <= pairs[k].1 < j - 1 && nodes_equal_spec(old[pairs[k].0], new[pairs[k].1], cfg) by {
                if k < pairs.len() - 1 {
                    assert(pairs[k].1 < pairs[pairs.len() - 1].1);
                }
            }
            lemma_lcs_len_is_longest(old, new, cfg, pairs, i, j - 1);
        }
    }
}

/// The pairs that the script keeps are a common subsequence of the first `i`
/// old and the first `j` new items, as long as the table says: a longest
/// one.
pub proof fn lemma_script_keeps_longest(
    old: Seq<NodeView>,
    new: Seq<NodeView>,
    cfg: DiffConfig,
    i: int,
    j: int,
)
    requires
        0 <= i,
        0 <= j,
    ensures
        is_common_subsequence(old, new, cfg, kept_pairs(script_upto(old, new, cfg, i, j)), i, j),
        kept_pairs(script_upto(old, new, cfg, i, j)).len() == lcs_len(old, new, cfg, i, j),
    decreases i + j,
{
    let script = script_upto(old, new, cfg, i, j);
    if i == 0 && j == 0 {
    } else if i > 0 && j > 0 && nodes_equal_spec(old[i - 1], new[j - 1], cfg) {
        let before = script_upto(old, new, cfg, i - 1, j - 1);
        lemma_script_keeps_longest(old, new, cfg, i - 1, j - 1);
        assert(script.drop_last() =~= before);
        let kept = kept_pairs(script);
        let rest = kept_pairs(before);
        assert(kept == rest.push((i - 1, j - 1)));
        assert forall|k: int| 0 <= k < kept.len() implies 0 <= (#[trigger] kept[k]).0 < i && 0
            <= kept[k].1 < j && nodes_equal_spec(old[kept[k].0], new[kept[k].1], cfg) by {
            if k < rest.len() {
                assert(kept[k] == rest[k]);
            }
        }
        assert forall|k: int, l: int| 0 <= k < l < kept.len() implies (#[trigger] kept[k]).0 < (
        #[trigger] kept[l]).0 && kept[k].1 < kept[l].1 by {
            assert(kept[k] == rest[k]);
            if l < rest.len() {
                assert(kept[l] == rest[l]);
            }
        }
    } else if j > 0 && (i == 0 || lcs_len(old, new, cfg, i, j - 1) >= lcs_len(
        old,
        new,
        cfg,
        i - 1,
        j,
    )) {
        let before = script_upto(old, new, cfg, i, j - 1);
        lemma_script_keeps_longest(old, new, cfg, i, j - 1);
        assert(script.drop_last() =~= before);
        assert(kept_pairs(script) == kept_pairs(before));
    } else {
        let before = script_upto(old, new, cfg, i - 1, j);
        lemma_script_keeps_longest(old, new, cfg, i - 1, j);
        assert(script.drop_last() =~= before);
        assert(kept_pairs(script) == kept_pairs(before));
    }
}

/// The script passes every old item once, in order, and every new item
/// once, in order.
pub proof fn lemma_script_covers(
    old: Seq<NodeView>,
    new: Seq<NodeView>,
    cfg: DiffConfig,
    i: int,
    j: int,
)
    requires
        0 <= i,
        0 <= j,
    ensures
        old_indices(script_upto(old, new, cfg, i, j)) == Seq::new(i as nat, |k: int| k),
        new_indices(script_upto(old, new, cfg, i, j)) == Seq::new(j as nat, |k: int| k),
    decreases i + j,
{
    let script = script_upto(old, new, cfg, i, j);
    if i == 0 && j == 0 {
        assert(old_indices(script) =~= Seq::new(i as nat, |k: int| k));
        assert(new_indices(script) =~= Seq::new(j as nat, |k: int| k));
    } else if i > 0 && j > 0 && nodes_equal_spec(old[i - 1], new[j - 1], cfg) {
        lemma_script_covers(old, new, cfg, i - 1, j - 1);
        assert(script.drop_last() =~= script_upto(old, new, cfg, i - 1, j - 1));
        assert(old_indices(script) =~= Seq::new(i as nat, |k: int| k));
        assert(new_indices(script) =~= Seq::new(j as nat, |k: int| k));
    } else if j > 0 && (i == 0 || lcs_len(old, new, cfg, i, j - 1) >= lcs_len(
        old,
        new,
        cfg,
        i - 1,
        j,
    )) {
        lemma_script_covers(old, new, cfg, i, j - 1);
        assert(script.drop_last() =~= script_upto(old, new, cfg, i, j - 1));
        assert(old_indices(script) =~= Seq::new(i as nat, |k: int| k));
        assert(new_indices(script) =~= Seq::new(j as nat, |k: int| k));
    } else {
        lemma_script_covers(old, new, cfg, i - 1, j);
        assert(script.drop_last() =~= script_upto(old, new, cfg, i - 1, j));
        assert(old_indices(script) =~= Seq::new(i as nat, |k: int| k));
        assert(new_indices(script) =~= Seq::new(j as nat, |k: int| k));
    }
}

} // verus!
