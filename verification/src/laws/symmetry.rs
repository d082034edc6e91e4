//! A diff read backwards is the diff of the trees exchanged.
//!
//! This holds where arrays are compared index by index, or one of the trees
//! has no array. Aligned arrays are left out: a deleted item is reported at
//! the position reached in the new array, which the exchange does not
//! preserve.

use crate::diff::{
    added, added_entries, added_items, common_entries, count_of, diff_nodes_spec, index_segment,
    modified, nodes_equal_spec, paired_items, removed, removed_entries, removed_items,
    ArrayDiffStrategy, ChangeType, ChangeView, DiffConfig,
};
use crate::laws::key_order::lemma_position_identity;
use crate::number::numbers_close;
use crate::text::{key_lt, lemma_key_lt_irreflexive, lemma_key_lt_total, lemma_key_lt_transitive};
use crate::tree::{
    entries_sorted, has_key, lemma_position_from, lemma_position_of_entry, lookup, position,
    semantic_eq, Entries, NodeView,
};
use vstd::prelude::*;

verus! {

/// The change read backwards: an addition is a removal and a removal an
/// addition, and the two values change places.
pub open spec fn mirrored(c: ChangeView) -> ChangeView {
    ChangeView {
        path: c.path,
        change_type: match c.change_type {
            ChangeType::Added => ChangeType::Removed,
            ChangeType::Removed => ChangeType::Added,
            ChangeType::Modified => ChangeType::Modified,
            ChangeType::Unchanged => ChangeType::Unchanged,
        },
        old_value: c.new_value,
        new_value: c.old_value,
    }
}

/// How often a change occurs in a list.
pub open spec fn occurrences(changes: Seq<ChangeView>, c: ChangeView) -> nat
    decreases changes.len(),
{
    if changes.len() == 0 {
        0
    } else {
        occurrences(changes.drop_last(), c) + if changes.last() == c {
            1nat
        } else {
            0nat
        }
    }
}

/// Reading backwards twice gives the change back.
pub proof fn lemma_mirrored_twice(c: ChangeView)
    ensures
        mirrored(mirrored(c)) == c,
{
}

/// Two changes with the same mirror image are the same.
proof fn lemma_mirrored_same(x: ChangeView, c: ChangeView)
    ensures
        (mirrored(x) == mirrored(c)) == (x == c),
{
    lemma_mirrored_twice(x);
    lemma_mirrored_twice(c);
}

proof fn lemma_occurrences_push(s: Seq<ChangeView>, x: ChangeView, c: ChangeView)
    ensures
        occurrences(s.push(x), c) == occurrences(s, c) + if x == c {
            1nat
        } else {
            0nat
        },
{
    assert(s.push(x).drop_last() =~= s);
}

proof fn lemma_occurrences_concat(a: Seq<ChangeView>, b: Seq<ChangeView>, c: ChangeView)
    ensures
        occurrences(a + b, c) == occurrences(a, c) + occurrences(b, c),
    decreases b.len(),
{
    if b.len() == 0 {
        assert(a + b =~= a);
    } else {
        assert((a + b).drop_last() =~= a + b.drop_last());
        lemma_occurrences_concat(a, b.drop_last(), c);
    }
}

/// A list holds a change just where the change occurs in it at least once.
pub proof fn lemma_occurrences_contains(s: Seq<ChangeView>, c: ChangeView)
    ensures
        (occurrences(s, c) > 0) == s.contains(c),
    decreases s.len(),
{
    if s.len() > 0 {
        lemma_occurrences_contains(s.drop_last(), c);
        if s.drop_last().contains(c) {
            let i = choose|i: int| 0 <= i < s.drop_last().len() && s.drop_last()[i] == c;
            assert(s[i] == c);
        }
        if s.contains(c) && s.last() != c {
            let i = choose|i: int| 0 <= i < s.len() && s[i] == c;
            assert(s.drop_last()[i] == c);
        }
        if s.last() == c {
            assert(s[s.len() - 1] == c);
        }
    }
}

/// Closeness of numbers does not depend on their order.
pub proof fn lemma_numbers_close_symmetric(a: u64, b: u64)
    ensures
        numbers_close(a, b) == numbers_close(b, a),
{
}

/// Semantic equality of well-formed trees does not depend on their order.
pub proof fn lemma_semantic_eq_symmetric(a: NodeView, b: NodeView)
    requires
        a.wf(),
        b.wf(),
        semantic_eq(a, b),
    ensures
        semantic_eq(b, a),
    decreases a,
{
    match (a, b) {
        (NodeView::Number(x), NodeView::Number(y)) => {
            lemma_numbers_close_symmetric(x, y);
        },
        (NodeView::Object(x), NodeView::Object(y)) => {
            assert forall|k: int| 0 <= k < x.len() implies has_key(y, (#[trigger] x[k]).0) by {}
            assert forall|j: int| 0 <= j < y.len() implies match lookup(x, (#[trigger] y[j]).0) {
                Some(v) => semantic_eq(y[j].1, v),
                None => false,
            } by {
                lemma_position_identity(x, y, j);
                lemma_position_of_entry(x, j);
                assert(lookup(y, x[j].0) == Some(y[j].1));
                lemma_semantic_eq_symmetric(x[j].1, y[j].1);
            }
        },
        (NodeView::Array(x), NodeView::Array(y)) => {
            assert forall|i: int| 0 <= i < y.len() implies semantic_eq(#[trigger] y[i], x[i]) by {
                assert(semantic_eq(x[i], y[i]));
                lemma_semantic_eq_symmetric(x[i], y[i]);
            }
        },
        _ => {},
    }
}

/// Equality under a configuration does not depend on the order of the two
/// trees.
pub proof fn lemma_nodes_equal_symmetric(a: NodeView, b: NodeView, cfg: DiffConfig)
    requires
        a.wf(),
        b.wf(),
    ensures
        nodes_equal_spec(a, b, cfg) == nodes_equal_spec(b, a, cfg),
{
    if semantic_eq(a, b) {
        lemma_semantic_eq_symmetric(a, b);
    }
    if semantic_eq(b, a) {
        lemma_semantic_eq_symmetric(b, a);
    }
}

/// The removals for the entries of one object that another lacks are the
/// additions for the same entries, read backwards.
proof fn lemma_entries_mirrored(a: Entries, b: Entries, path: Seq<Seq<char>>, k: int, c: ChangeView)
    ensures
        occurrences(removed_entries(a, b, path, k), mirrored(c)) == occurrences(
            added_entries(a, b, path, k),
            c,
        ),
        occurrences(added_entries(a, b, path, k), mirrored(c)) == occurrences(
            removed_entries(a, b, path, k),
            c,
        ),
    decreases k,
{
    if k > 0 {
        lemma_entries_mirrored(a, b, path, k - 1, c);
        if !has_key(b, a[k - 1].0) {
            let x = added(path.push(a[k - 1].0), a[k - 1].1);
            let y = removed(path.push(a[k - 1].0), a[k - 1].1);
            assert(mirrored(x) == y);
            assert(mirrored(y) == x);
            lemma_mirrored_same(x, c);
            lemma_mirrored_same(y, c);
            lemma_occurrences_push(added_entries(a, b, path, k - 1), x, c);
            lemma_occurrences_push(added_entries(a, b, path, k - 1), x, mirrored(c));
            lemma_occurrences_push(removed_entries(a, b, path, k - 1), y, c);
            lemma_occurrences_push(removed_entries(a, b, path, k - 1), y, mirrored(c));
        }
    }
}

/// The removals of a tail are the additions of the same tail, read
/// backwards.
proof fn lemma_items_mirrored(
    items: Seq<NodeView>,
    path: Seq<Seq<char>>,
    from: int,
    to: int,
    c: ChangeView,
)
    ensures
        occurrences(removed_items(items, path, from, to), mirrored(c)) == occurrences(
            added_items(items, path, from, to),
            c,
        ),
        occurrences(added_items(items, path, from, to), mirrored(c)) == occurrences(
            removed_items(items, path, from, to),
            c,
        ),
    decreases to - from,
{
    if to > from && from >= 0 {
        lemma_items_mirrored(items, path, from, to - 1, c);
        let segment = index_segment((to - 1) as nat);
        let x = added(path.push(segment), items[to - 1]);
        let y = removed(path.push(segment), items[to - 1]);
        assert(mirrored(x) == y);
        assert(mirrored(y) == x);
        lemma_mirrored_same(x, c);
        lemma_mirrored_same(y, c);
        lemma_occurrences_push(added_items(items, path, from, to - 1), x, c);
        lemma_occurrences_push(added_items(items, path, from, to - 1), x, mirrored(c));
        lemma_occurrences_push(removed_items(items, path, from, to - 1), y, c);
        lemma_occurrences_push(removed_items(items, path, from, to - 1), y, mirrored(c));
    }
}

/// The changes under the keys that the first `a` entries of `o` share with
/// the first `b` entries of `n`.
pub open spec fn common_within(
    o: Entries,
    n: Entries,
    cfg: DiffConfig,
    path: Seq<Seq<char>>,
    a: int,
    b: int,
) -> Seq<ChangeView>
    decreases a,
{
    if a <= 0 {
        Seq::empty()
    } else {
        let e = o[a - 1];
        common_within(o, n, cfg, path, a - 1, b) + match position(n, e.0) {
            Some(j) => if j < b {
                diff_nodes_spec(e.1, n[j].1, cfg, path.push(e.0))
            } else {
                Seq::empty()
            },
            None => Seq::empty(),
        }
    }
}

/// With all of the other object in view, these are the changes under the
/// common keys.
proof fn lemma_common_within_all(
    old: NodeView,
    n: Entries,
    cfg: DiffConfig,
    path: Seq<Seq<char>>,
    k: int,
)
    requires
        old is Object,
        0 <= k <= old->Object_0.len(),
    ensures
        common_entries(old, n, cfg, path, k) == common_within(
            old->Object_0,
            n,
            cfg,
            path,
            k,
            n.len() as int,
        ),
    decreases k,
{
    if k > 0 {
        lemma_common_within_all(old, n, cfg, path, k - 1);
        lemma_position_from(n, old->Object_0[k - 1].0, 0);
    }
}

/// With nothing of the other object in view there is no common key.
proof fn lemma_common_within_none(
    o: Entries,
    n: Entries,
    cfg: DiffConfig,
    path: Seq<Seq<char>>,
    a: int,
)
    requires
        0 <= a <= o.len(),
    ensures
        common_within(o, n, cfg, path, a, 0) == Seq::<ChangeView>::empty(),
    decreases a,
{
    if a > 0 {
        lemma_common_within_none(o, n, cfg, path, a - 1);
        lemma_position_from(n, o[a - 1].0, 0);
    }
}

/// An entry of the other object whose key none of the first `a` entries has
/// can be left out of view.
proof fn lemma_common_within_shrink(
    o: Entries,
    n: Entries,
    cfg: DiffConfig,
    path: Seq<Seq<char>>,
    a: int,
    b: int,
)
    requires
        0 <= a <= o.len(),
        0 < b <= n.len(),
        forall|i: int| 0 <= i < a ==> (#[trigger] o[i]).0 != n[b - 1].0,
    ensures
        common_within(o, n, cfg, path, a, b) == common_within(o, n, cfg, path, a, b - 1),
    decreases a,
{
    if a > 0 {
        lemma_common_within_shrink(o, n, cfg, path, a - 1, b);
        lemma_position_from(n, o[a - 1].0, 0);
        assert(o[a - 1].0 != n[b - 1].0);
    }
}

/// In sorted entries the keys before an index differ from the key at it, and
/// all keys up to the index differ from a key that comes after it.
proof fn lemma_earlier_keys_differ(s: Entries, a: int, key: Seq<char>)
    requires
        entries_sorted(s),
        0 < a <= s.len(),
        s[a - 1].0 == key || key_lt(s[a - 1].0, key),
    ensures
        forall|i: int| 0 <= i < a - 1 ==> (#[trigger] s[i]).0 != key,
        key_lt(s[a - 1].0, key) ==> forall|i: int| 0 <= i < a ==> (#[trigger] s[i]).0 != key,
{
    lemma_key_lt_irreflexive(key);
    assert forall|i: int| 0 <= i < a - 1 implies (#[trigger] s[i]).0 != key by {
        assert(key_lt(s[i].0, s[a - 1].0));
        if s[a - 1].0 != key {
            lemma_key_lt_transitive(s[i].0, s[a - 1].0, key);
        }
    }
}

/// The changes under common keys, counted: what the one object has against
/// the other is, read backwards, what the other has against the one.
proof fn lemma_common_mirrored(
    old: NodeView,
    new: NodeView,
    cfg: DiffConfig,
    path: Seq<Seq<char>>,
    a: int,
    b: int,
    c: ChangeView,
)
    requires
        old is Object,
        new is Object,
        old.wf(),
        new.wf(),
        cfg.array_diff_strategy == ArrayDiffStrategy::Positional || old.array_free()
            || new.array_free(),
        0 <= a <= old->Object_0.len(),
        0 <= b <= new->Object_0.len(),
    ensures
        occurrences(
            common_within(new->Object_0, old->Object_0, cfg, path, b, a),
            mirrored(c),
        ) == occurrences(common_within(old->Object_0, new->Object_0, cfg, path, a, b), c),
    decreases old, 0nat, a + b,
{
    let o = old->Object_0;
    let n = new->Object_0;
    if a == 0 {
        lemma_common_within_none(n, o, cfg, path, b);
    } else if b == 0 {
        lemma_common_within_none(o, n, cfg, path, a);
    } else {
        let ka = o[a - 1].0;
        let kb = n[b - 1].0;
        if ka == kb {
            lemma_earlier_keys_differ(o, a, kb);
            lemma_earlier_keys_differ(n, b, ka);
            lemma_common_within_shrink(o, n, cfg, path, a - 1, b);
            lemma_common_within_shrink(n, o, cfg, path, b - 1, a);
            lemma_position_of_entry(n, b - 1);
            lemma_position_of_entry(o, a - 1);
            let d1 = diff_nodes_spec(o[a - 1].1, n[b - 1].1, cfg, path.push(ka));
            let d2 = diff_nodes_spec(n[b - 1].1, o[a - 1].1, cfg, path.push(ka));
            lemma_common_mirrored(old, new, cfg, path, a - 1, b - 1, c);
            lemma_diff_mirrored(o[a - 1].1, n[b - 1].1, cfg, path.push(ka), c);
            lemma_occurrences_concat(common_within(o, n, cfg, path, a - 1, b), d1, c);
            lemma_occurrences_concat(common_within(n, o, cfg, path, b - 1, a), d2, mirrored(c));
        } else {
            lemma_key_lt_total(ka, kb);
            if key_lt(ka, kb) {
                lemma_earlier_keys_differ(o, a, kb);
                lemma_common_within_shrink(o, n, cfg, path, a, b);
                lemma_position_from(o, kb, 0);
                let before = common_within(n, o, cfg, path, b - 1, a);
                assert(common_within(n, o, cfg, path, b, a) =~= before);
                lemma_common_mirrored(old, new, cfg, path, a, b - 1, c);
            } else {
                lemma_earlier_keys_differ(n, b, ka);
                lemma_common_within_shrink(n, o, cfg, path, b, a);
                lemma_position_from(n, ka, 0);
                let before = common_within(o, n, cfg, path, a - 1, b);
                assert(common_within(o, n, cfg, path, a, b) =~= before);
                lemma_common_mirrored(old, new, cfg, path, a - 1, b, c);
            }
        }
    }
}

/// The changes between the items at the same indices, counted.
proof fn lemma_paired_mirrored(
    old: NodeView,
    new: NodeView,
    cfg: DiffConfig,
    path: Seq<Seq<char>>,
    k: int,
    c: ChangeView,
)
    requires
        old is Array,
        new is Array,
        old.wf(),
        new.wf(),
        cfg.array_diff_strategy == ArrayDiffStrategy::Positional,
        0 <= k <= old->Array_0.len(),
        k <= new->Array_0.len(),
    ensures
        occurrences(paired_items(new, old->Array_0, cfg, path, k), mirrored(c)) == occurrences(
            paired_items(old, new->Array_0, cfg, path, k),
            c,
        ),
    decreases old, 0nat, k,
{
    if k > 0 {
        let o = old->Array_0;
        let n = new->Array_0;
        let segment = index_segment((k - 1) as nat);
        lemma_paired_mirrored(old, new, cfg, path, k - 1, c);
        lemma_diff_mirrored(o[k - 1], n[k - 1], cfg, path.push(segment), c);
        lemma_occurrences_concat(
            paired_items(old, n, cfg, path, k - 1),
            diff_nodes_spec(o[k - 1], n[k - 1], cfg, path.push(segment)),
            c,
        );
        lemma_occurrences_concat(
            paired_items(new, o, cfg, path, k - 1),
            diff_nodes_spec(n[k - 1], o[k - 1], cfg, path.push(segment)),
            mirrored(c),
        );
    }
}

/// Add/remove symmetry, counted: where arrays are compared index by index,
/// or one of the trees has no array, every change occurs between `old` and
/// `new` as often as its mirror image occurs between `new` and `old`. The
/// diff of the exchanged trees is the diff read backwards, in another order
/// at most.
pub proof fn lemma_diff_mirrored(
    old: NodeView,
    new: NodeView,
    cfg: DiffConfig,
    path: Seq<Seq<char>>,
    c: ChangeView,
)
    requires
        old.wf(),
        new.wf(),
        cfg.array_diff_strategy == ArrayDiffStrategy::Positional || old.array_free()
            || new.array_free(),
    ensures
        occurrences(diff_nodes_spec(new, old, cfg, path), mirrored(c)) == occurrences(
            diff_nodes_spec(old, new, cfg, path),
            c,
        ),
    decreases old, 1nat, 0nat,
{
    let m = mirrored(c);
    match (old, new) {
        (NodeView::Object(o), NodeView::Object(n)) => {
            let a = added_entries(n, o, path, n.len() as int);
            let r = removed_entries(o, n, path, o.len() as int);
            let s = common_entries(old, n, cfg, path, o.len() as int);
            let a2 = added_entries(o, n, path, o.len() as int);
            let r2 = removed_entries(n, o, path, n.len() as int);
            let s2 = common_entries(new, o, cfg, path, n.len() as int);
            lemma_occurrences_concat(a + r, s, c);
            lemma_occurrences_concat(a, r, c);
            lemma_occurrences_concat(a2 + r2, s2, m);
            lemma_occurrences_concat(a2, r2, m);
            lemma_entries_mirrored(n, o, path, n.len() as int, c);
            lemma_entries_mirrored(o, n, path, o.len() as int, c);
            lemma_common_within_all(old, n, cfg, path, o.len() as int);
            lemma_common_within_all(new, o, cfg, path, n.len() as int);
            lemma_common_mirrored(old, new, cfg, path, o.len() as int, n.len() as int, c);
        },
        (NodeView::Array(o), NodeView::Array(n)) => {
            let shared = if o.len() <= n.len() {
                o.len() as int
            } else {
                n.len() as int
            };
            let p = paired_items(old, n, cfg, path, shared);
            let r = removed_items(o, path, shared, o.len() as int);
            let a = added_items(n, path, shared, n.len() as int);
            let p2 = paired_items(new, o, cfg, path, shared);
            let r2 = removed_items(n, path, shared, n.len() as int);
            let a2 = added_items(o, path, shared, o.len() as int);
            lemma_occurrences_concat(p + r, a, c);
            lemma_occurrences_concat(p, r, c);
            lemma_occurrences_concat(p2 + r2, a2, m);
            lemma_occurrences_concat(p2, r2, m);
            lemma_paired_mirrored(old, new, cfg, path, shared, c);
            lemma_items_mirrored(o, path, shared, o.len() as int, c);
            lemma_items_mirrored(n, path, shared, n.len() as int, c);
        },
        _ => {
            lemma_nodes_equal_symmetric(old, new, cfg);
            if !nodes_equal_spec(old, new, cfg) {
                let x = modified(path, old, new);
                let y = modified(path, new, old);
                assert(mirrored(x) == y);
                lemma_mirrored_same(x, c);
                lemma_occurrences_push(Seq::empty(), x, c);
                lemma_occurrences_push(Seq::empty(), y, m);
                assert(Seq::<ChangeView>::empty().push(x) =~= seq![x]);
                assert(Seq::<ChangeView>::empty().push(y) =~= seq![y]);
            }
        },
    }
}

/// Add/remove symmetry: under the same conditions, every change between
/// `old` and `new` is, read backwards, a change between `new` and `old`: an
/// addition at a path is a removal of the same value at that path, and a
/// modification has its two values exchanged.
pub proof fn lemma_diff_symmetric(
    old: NodeView,
    new: NodeView,
    cfg: DiffConfig,
    path: Seq<Seq<char>>,
    c: ChangeView,
)
    requires
        old.wf(),
        new.wf(),
        cfg.array_diff_strategy == ArrayDiffStrategy::Positional || old.array_free()
            || new.array_free(),
        diff_nodes_spec(old, new, cfg, path).contains(c),
    ensures
        diff_nodes_spec(new, old, cfg, path).contains(mirrored(c)),
{
    lemma_diff_mirrored(old, new, cfg, path, c);
    lemma_occurrences_contains(diff_nodes_spec(old, new, cfg, path), c);
    lemma_occurrences_contains(diff_nodes_spec(new, old, cfg, path), mirrored(c));
}

/// The kind of a change read backwards.
pub open spec fn mirrored_kind(kind: ChangeType) -> ChangeType {
    match kind {
        ChangeType::Added => ChangeType::Removed,
        ChangeType::Removed => ChangeType::Added,
        ChangeType::Modified => ChangeType::Modified,
        ChangeType::Unchanged => ChangeType::Unchanged,
    }
}

proof fn lemma_count_of_prefix(s: Seq<ChangeView>, t: Seq<ChangeView>, kind: ChangeType, k: int)
    requires
        0 <= k <= s.len(),
        k <= t.len(),
        forall|i: int| 0 <= i < k ==> s[i] == t[i],
    ensures
        count_of(s, kind, k) == count_of(t, kind, k),
    decreases k,
{
    if k > 0 {
        lemma_count_of_prefix(s, t, kind, k - 1);
    }
}

/// Taking a change out of a list takes one from the number of its
/// occurrences and from the count of its kind.
proof fn lemma_take_out(s: Seq<ChangeView>, i: int, c: ChangeView, kind: ChangeType)
    requires
        0 <= i < s.len(),
    ensures
        occurrences(s, c) == occurrences(s.remove(i), c) + if s[i] == c {
            1nat
        } else {
            0nat
        },
        count_of(s, kind, s.len() as int) == count_of(s.remove(i), kind, s.len() - 1)
            + if s[i].change_type == kind {
            1nat
        } else {
            0nat
        },
    decreases s.len(),
{
    let shorter = s.remove(i);
    if i == s.len() - 1 {
        assert(shorter =~= s.drop_last());
        lemma_count_of_prefix(s, shorter, kind, s.len() - 1);
    } else {
        assert(shorter.drop_last() =~= s.drop_last().remove(i));
        assert(shorter.last() == s.last());
        lemma_take_out(s.drop_last(), i, c, kind);
        lemma_count_of_prefix(s, s.drop_last(), kind, s.len() - 1);
        lemma_count_of_prefix(shorter, shorter.drop_last(), kind, s.len() - 2);
    }
}

/// Two lists in which every change occurs equally often have the same
/// count of every kind.
proof fn lemma_counts_of_rearranged(s: Seq<ChangeView>, t: Seq<ChangeView>, kind: ChangeType)
    requires
        forall|c: ChangeView| occurrences(s, c) == occurrences(t, c),
    ensures
        s.len() == t.len(),
        count_of(s, kind, s.len() as int) == count_of(t, kind, t.len() as int),
    decreases s.len(),
{
    if s.len() == 0 {
        if t.len() > 0 {
            lemma_occurrences_contains(t, t[0]);
            assert(t.contains(t[0]));
            assert(occurrences(s, t[0]) == 0);
        }
    } else {
        let x = s.last();
        lemma_occurrences_contains(s, x);
        assert(s[s.len() - 1] == x);
        lemma_occurrences_contains(t, x);
        let i = choose|i: int| 0 <= i < t.len() && t[i] == x;
        let s2 = s.drop_last();
        let t2 = t.remove(i);
        assert(s2 =~= s.remove(s.len() - 1));
        assert forall|c: ChangeView| occurrences(s2, c) == occurrences(t2, c) by {
            lemma_take_out(s, s.len() - 1, c, kind);
            lemma_take_out(t, i, c, kind);
        }
        lemma_counts_of_rearranged(s2, t2, kind);
        lemma_take_out(s, s.len() - 1, x, kind);
        lemma_take_out(t, i, x, kind);
    }
}

proof fn lemma_mirrored_list(s: Seq<ChangeView>, c: ChangeView, kind: ChangeType)
    ensures
        occurrences(s.map_values(|x: ChangeView| mirrored(x)), mirrored(c)) == occurrences(s, c),
        count_of(
            s.map_values(|x: ChangeView| mirrored(x)),
            mirrored_kind(kind),
            s.len() as int,
        ) == count_of(s, kind, s.len() as int),
    decreases s.len(),
{
    let m = s.map_values(|x: ChangeView| mirrored(x));
    if s.len() > 0 {
        let s2 = s.drop_last();
        let m2 = s2.map_values(|x: ChangeView| mirrored(x));
        assert(m.drop_last() =~= m2);
        assert(m.last() == mirrored(s.last()));
        lemma_mirrored_list(s2, c, kind);
        lemma_mirrored_same(s.last(), c);
        lemma_count_of_prefix(m, m2, mirrored_kind(kind), s.len() - 1);
        lemma_count_of_prefix(s, s2, kind, s.len() - 1);
    }
}

/// Add/remove symmetry of the counts: under the same conditions the two
/// diffs are equally long, and the one counts as many changes of a kind as
/// the other counts of the mirrored kind: as many additions as the other
/// removals, and as many modifications.
pub proof fn lemma_counts_mirrored(
    old: NodeView,
    new: NodeView,
    cfg: DiffConfig,
    path: Seq<Seq<char>>,
    kind: ChangeType,
)
    requires
        old.wf(),
        new.wf(),
        cfg.array_diff_strategy == ArrayDiffStrategy::Positional || old.array_free()
            || new.array_free(),
    ensures
        diff_nodes_spec(new, old, cfg, path).len() == diff_nodes_spec(old, new, cfg, path).len(),
        count_of(
            diff_nodes_spec(new, old, cfg, path),
            mirrored_kind(kind),
            diff_nodes_spec(new, old, cfg, path).len() as int,
        ) == count_of(
            diff_nodes_spec(old, new, cfg, path),
            kind,
            diff_nodes_spec(old, new, cfg, path).len() as int,
        ),
{
    let forward = diff_nodes_spec(old, new, cfg, path);
    let backward = diff_nodes_spec(new, old, cfg, path);
    let read_back = forward.map_values(|x: ChangeView| mirrored(x));
    assert forall|c: ChangeView| occurrences(backward, c) == occurrences(read_back, c) by {
        lemma_mirrored_twice(c);
        lemma_diff_mirrored(old, new, cfg, path, mirrored(c));
        lemma_mirrored_list(forward, mirrored(c), kind);
    }
    lemma_counts_of_rearranged(backward, read_back, mirrored_kind(kind));
    lemma_mirrored_list(forward, forward[0], kind);
}

} // verus!
