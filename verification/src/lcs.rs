//! Alignment of two sequences of nodes by a longest common subsequence.
//!
//! Two items match when they are equal under the configuration. The table of
//! subsequence lengths is filled by dynamic programming; walking it back from
//! its last cell gives an edit script of kept, inserted and deleted items.

use crate::diff::{nodes_equal, nodes_equal_spec, DiffConfig};
use crate::tree::{view_all, Node, NodeView};
use vstd::prelude::*;

verus! {

/// One step of an edit script.
#[derive(Debug, Clone, Copy, PartialEq, Eq, Structural)]
pub enum EditOp {
    /// The old item at the first index matches the new item at the second.
    Keep(usize, usize),
    /// The new item at the index has no partner.
    Insert(usize),
    /// The old item at the index has no partner.
    Delete(usize),
}

/// One step of an edit script, as its model has it.
pub enum EditStep {
    Keep(int, int),
    Insert(int),
    Delete(int),
}

impl View for EditOp {
    type V = EditStep;

    open spec fn view(&self) -> EditStep {
        match self {
            EditOp::Keep(a, b) => EditStep::Keep(*a as int, *b as int),
            EditOp::Insert(b) => EditStep::Insert(*b as int),
            EditOp::Delete(a) => EditStep::Delete(*a as int),
        }
    }
}

/// The steps of a script.
pub open spec fn steps_view(script: Seq<EditOp>) -> Seq<EditStep> {
    Seq::new(script.len(), |i: int| script[i]@)
}

/// The length of a longest common subsequence of the first `i` old items and
/// the first `j` new items.
pub open spec fn lcs_len(
    old: Seq<NodeView>,
    new: Seq<NodeView>,
    cfg: DiffConfig,
    i: int,
    j: int,
) -> nat
    decreases i + j,
{
    if i <= 0 || j <= 0 {
        0
    } else if nodes_equal_spec(old[i - 1], new[j - 1], cfg) {
        lcs_len(old, new, cfg, i - 1, j - 1) + 1
    } else if lcs_len(old, new, cfg, i, j - 1) >= lcs_len(old, new, cfg, i - 1, j) {
        lcs_len(old, new, cfg, i, j - 1)
    } else {
        lcs_len(old, new, cfg, i - 1, j)
    }
}

/// The edit script that takes the first `i` old items to the first `j` new
/// items. Its last step is decided at the cell `(i, j)` of the table: a match
/// of the two last items is kept; otherwise the new item is inserted unless
/// leaving out the old one gives the longer subsequence.
pub open spec fn script_upto(
    old: Seq<NodeView>,
    new: Seq<NodeView>,
    cfg: DiffConfig,
    i: int,
    j: int,
) -> Seq<EditStep>
    decreases i + j,
{
    if i < 0 || j < 0 || (i == 0 && j == 0) {
        Seq::empty()
    } else if i > 0 && j > 0 && nodes_equal_spec(old[i - 1], new[j - 1], cfg) {
        script_upto(old, new, cfg, i - 1, j - 1).push(EditStep::Keep(i - 1, j - 1))
    } else if j > 0 && (i == 0 || lcs_len(old, new, cfg, i, j - 1) >= lcs_len(
        old,
        new,
        cfg,
        i - 1,
        j,
    )) {
        script_upto(old, new, cfg, i, j - 1).push(EditStep::Insert(j - 1))
    } else {
        script_upto(old, new, cfg, i - 1, j).push(EditStep::Delete(i - 1))
    }
}

/// The edit script that takes `old` to `new`.
pub open spec fn lcs_script(old: Seq<NodeView>, new: Seq<NodeView>, cfg: DiffConfig) -> Seq<
    EditStep,
> {
    script_upto(old, new, cfg, old.len() as int, new.len() as int)
}

/// Every step names an old item below `i` and a new item below `j`.
pub open spec fn script_within(script: Seq<EditStep>, i: int, j: int) -> bool {
    forall|k: int|
        0 <= k < script.len() ==> match #[trigger] script[k] {
            EditStep::Keep(a, b) => 0 <= a < i && 0 <= b < j,
            EditStep::Insert(b) => 0 <= b < j,
            EditStep::Delete(a) => 0 <= a < i,
        }
}

/// A common subsequence is never longer than either sequence.
pub proof fn lemma_lcs_len_bound(
    old: Seq<NodeView>,
    new: Seq<NodeView>,
    cfg: DiffConfig,
    i: int,
    j: int,
)
    requires
        0 <= i,
        0 <= j,
    ensures
        lcs_len(old, new, cfg, i, j) <= i,
        lcs_len(old, new, cfg, i, j) <= j,
    decreases i + j,
{
    if i > 0 && j > 0 {
        lemma_lcs_len_bound(old, new, cfg, i - 1, j - 1);
        lemma_lcs_len_bound(old, new, cfg, i, j - 1);
        lemma_lcs_len_bound(old, new, cfg, i - 1, j);
    }
}

/// The script for the cell `(i, j)` has between `max(i, j)` and `i + j`
/// steps, all within the two prefixes.
pub proof fn lemma_script_within(
    old: Seq<NodeView>,
    new: Seq<NodeView>,
    cfg: DiffConfig,
    i: int,
    j: int,
)
    requires
        0 <= i,
        0 <= j,
    ensures
        script_within(script_upto(old, new, cfg, i, j), i, j),
        script_upto(old, new, cfg, i, j).len() <= i + j,
    decreases i + j,
{
    if i == 0 && j == 0 {
    } else if i > 0 && j > 0 && nodes_equal_spec(old[i - 1], new[j - 1], cfg) {
        lemma_script_within(old, new, cfg, i - 1, j - 1);
    } else if j > 0 && (i == 0 || lcs_len(old, new, cfg, i, j - 1) >= lcs_len(
        old,
        new,
        cfg,
        i - 1,
        j,
    )) {
        lemma_script_within(old, new, cfg, i, j - 1);
    } else {
        lemma_script_within(old, new, cfg, i - 1, j);
    }
}

/// A row of `width + 1` zeros.
fn zero_row(width: usize) -> (row: Vec<usize>)
    ensures
        row@.len() == width + 1,
        forall|j: int| 0 <= j <= width ==> row@[j] == 0,
{
    let mut row: Vec<usize> = Vec::new();
    row.push(0);
    let mut j: usize = 0;
    while j < width
        invariant
            j <= width,
            row@.len() == j + 1,
            forall|k: int| 0 <= k <= j ==> row@[k] == 0,
        decreases width - j,
    {
        row.push(0);
        j += 1;
    }
    row
}

/// The table of subsequence lengths: the cell `(i, j)` holds the length of a
/// longest common subsequence of the first `i` old and the first `j` new
/// items.
pub fn lcs_table(old: &Vec<Node>, new: &Vec<Node>, cfg: &DiffConfig) -> (table: Vec<Vec<usize>>)
    ensures
        table@.len() == old@.len() + 1,
        forall|i: int| 0 <= i <= old@.len() ==> (#[trigger] table@[i])@.len() == new@.len() + 1,
        forall|i: int, j: int|
            0 <= i <= old@.len() && 0 <= j <= new@.len() ==> (#[trigger] table@[i]@[j]) == lcs_len(
                view_all(old@),
                view_all(new@),
                *cfg,
                i,
                j,
            ),
{
    let n = old.len();
    let m = new.len();
    let ghost o = view_all(old@);
    let ghost w = view_all(new@);
    let mut table: Vec<Vec<usize>> = Vec::new();
    table.push(zero_row(m));
    let mut i: usize = 0;
    while i < n
        invariant
            i <= n,
            n == old@.len(),
            m == new@.len(),
            o == view_all(old@),
            w == view_all(new@),
            table@.len() == i + 1,
            forall|a: int| 0 <= a <= i ==> (#[trigger] table@[a])@.len() == m + 1,
            forall|a: int, b: int|
                0 <= a <= i && 0 <= b <= m ==> (#[trigger] table@[a]@[b]) == lcs_len(
                    o,
                    w,
                    *cfg,
                    a,
                    b,
                ),
        decreases n - i,
    {
        let mut row: Vec<usize> = Vec::new();
        row.push(0);
        let mut j: usize = 0;
        while j < m
            invariant
                j <= m,
                i < n,
                n == old@.len(),
                m == new@.len(),
                o == view_all(old@),
                w == view_all(new@),
                table@.len() == i + 1,
                table@[i as int]@.len() == m + 1,
                forall|b: int|
                    0 <= b <= m ==> (#[trigger] table@[i as int]@[b]) == lcs_len(
                        o,
                        w,
                        *cfg,
                        i as int,
                        b,
                    ),
                row@.len() == j + 1,
                forall|b: int|
                    0 <= b <= j ==> (#[trigger] row@[b]) == lcs_len(o, w, *cfg, i + 1, b),
            decreases m - j,
        {
            proof {
                lemma_lcs_len_bound(o, w, *cfg, i as int, j as int);
                assert(o[i as int] == old@[i as int]@);
                assert(w[j as int] == new@[j as int]@);
            }
            let cell: usize = if nodes_equal(&old[i], &new[j], cfg) {
                table[i][j] + 1
            } else if row[j] >= table[i][j + 1] {
                row[j]
            } else {
                table[i][j + 1]
            };
            row.push(cell);
            j += 1;
        }
        table.push(row);
        i += 1;
    }
    table
}

/// The edit script that takes `old` to `new`.
pub fn lcs_edit_script(old: &Vec<Node>, new: &Vec<Node>, cfg: &DiffConfig) -> (script: Vec<EditOp>)
    ensures
        steps_view(script@) == lcs_script(view_all(old@), view_all(new@), *cfg),
        script_within(steps_view(script@), old@.len() as int, new@.len() as int),
{
    let ghost o = view_all(old@);
    let ghost w = view_all(new@);
    let table = lcs_table(old, new, cfg);
    let mut backward: Vec<EditOp> = Vec::new();
    let mut i: usize = old.len();
    let mut j: usize = new.len();
    while i > 0 || j > 0
        invariant
            i <= old@.len(),
            j <= new@.len(),
            o == view_all(old@),
            w == view_all(new@),
            table@.len() == old@.len() + 1,
            forall|a: int| 0 <= a <= old@.len() ==> (#[trigger] table@[a])@.len() == new@.len() + 1,
            forall|a: int, b: int|
                0 <= a <= old@.len() && 0 <= b <= new@.len() ==> (#[trigger] table@[a]@[b])
                    == lcs_len(o, w, *cfg, a, b),
            lcs_script(o, w, *cfg) == script_upto(o, w, *cfg, i as int, j as int) + steps_view(
                backward@,
            ).reverse(),
        decreases i + j,
    {
        let ghost before = steps_view(backward@);
        proof {
            if i > 0 {
                assert(o[i - 1] == old@[i - 1]@);
            }
            if j > 0 {
                assert(w[j - 1] == new@[j - 1]@);
            }
        }
        let op = if i > 0 && j > 0 && nodes_equal(&old[i - 1], &new[j - 1], cfg) {
            i -= 1;
            j -= 1;
            EditOp::Keep(i, j)
        } else if j > 0 && (i == 0 || table[i][j - 1] >= table[i - 1][j]) {
            j -= 1;
            EditOp::Insert(j)
        } else {
            i -= 1;
            EditOp::Delete(i)
        };
        backward.push(op);
        proof {
            let rest = script_upto(o, w, *cfg, i as int, j as int);
            assert(steps_view(backward@) =~= before.push(op@));
            assert(rest.push(op@) + before.reverse() =~= rest + before.push(op@).reverse());
        }
    }
    let mut script: Vec<EditOp> = Vec::new();
    let mut k: usize = backward.len();
    while k > 0
        invariant
            k <= backward@.len(),
            script@.len() == backward@.len() - k,
            forall|a: int|
                0 <= a < script@.len() ==> (#[trigger] script@[a])@ == steps_view(
                    backward@,
                ).reverse()[a],
        decreases k,
    {
        k -= 1;
        script.push(backward[k]);
    }
    proof {
        let back = steps_view(backward@).reverse();
        assert(steps_view(script@) =~= back);
        assert(script_upto(o, w, *cfg, 0, 0) + back =~= back);
        lemma_script_within(o, w, *cfg, old@.len() as int, new@.len() as int);
    }
    script
}

} // verus!
