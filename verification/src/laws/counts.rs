//! The counts of a diff are those of its changes.

use crate::diff::{count_of, ChangeType, ChangeView, DiffView};
use vstd::prelude::*;

verus! {

/// The number of changes among the first `k` that are not `Unchanged`.
pub open spec fn count_changed(changes: Seq<ChangeView>, k: int) -> nat
    decreases k,
{
    if k <= 0 {
        0
    } else if changes[k - 1].change_type != ChangeType::Unchanged {
        count_changed(changes, k - 1) + 1
    } else {
        count_changed(changes, k - 1)
    }
}

proof fn lemma_count_changed(changes: Seq<ChangeView>, k: int)
    ensures
        count_of(changes, ChangeType::Added, k) + count_of(changes, ChangeType::Removed, k)
            + count_of(changes, ChangeType::Modified, k) == count_changed(changes, k),
    decreases k,
{
    if k > 0 {
        lemma_count_changed(changes, k - 1);
    }
}

/// In a diff whose counts are those of its changes, the added, the removed
/// and the modified together are as many as the changes that are not
/// `Unchanged`.
pub proof fn lemma_stats_consistency(diff: DiffView)
    requires
        diff.consistent(),
    ensures
        diff.stats.added + diff.stats.removed + diff.stats.modified == count_changed(
            diff.changes,
            diff.changes.len() as int,
        ),
{
    lemma_count_changed(diff.changes, diff.changes.len() as int);
}

} // verus!
