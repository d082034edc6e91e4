//! An object is the mapping it holds: the order in which its entries were
//! inserted leaves no trace.

use crate::diff::{diff_nodes_spec, DiffConfig};
use crate::text::lemma_key_lt_asymmetric;
use crate::tree::{
    entries_sorted, has_key, insert_entry, lemma_insert_sorted, lemma_lower_bound,
    lemma_position_from, lemma_position_none, lemma_position_of_entry, lemma_position_sorted,
    lookup, lower_bound_from, position, Entries, NodeView,
};
use vstd::prelude::*;

verus! {

/// Where sorted entries `b` have every key of sorted entries `a`, the key of
/// the `i`-th entry of `a` stands in `b` at `i` or later.
pub proof fn lemma_position_at_least(a: Entries, b: Entries, i: int)
    requires
        entries_sorted(a),
        entries_sorted(b),
        forall|k: int| 0 <= k < a.len() ==> has_key(b, (#[trigger] a[k]).0),
        0 <= i < a.len(),
    ensures
        position(b, a[i].0) is Some,
        i <= position(b, a[i].0)->0 < b.len(),
        b[position(b, a[i].0)->0].0 == a[i].0,
    decreases i,
{
    assert(has_key(b, a[i].0));
    lemma_position_from(b, a[i].0, 0);
    if i > 0 {
        lemma_position_at_least(a, b, i - 1);
        let p = position(b, a[i - 1].0)->0;
        let q = position(b, a[i].0)->0;
        assert(crate::text::key_lt(a[i - 1].0, a[i].0));
        if q <= p {
            lemma_key_lt_asymmetric(a[i - 1].0, a[i].0);
            if q < p {
                assert(crate::text::key_lt(b[q].0, b[p].0));
            }
        }
    }
}

/// Where two sorted lists of entries are equally long and the second has
/// every key of the first, the keys stand at the same places.
pub proof fn lemma_position_identity(a: Entries, b: Entries, i: int)
    requires
        entries_sorted(a),
        entries_sorted(b),
        a.len() == b.len(),
        forall|k: int| 0 <= k < a.len() ==> has_key(b, (#[trigger] a[k]).0),
        0 <= i < a.len(),
    ensures
        position(b, a[i].0) == Some(i),
        b[i].0 == a[i].0,
    decreases a.len() - i,
{
    lemma_position_at_least(a, b, i);
    if i + 1 < a.len() {
        lemma_position_identity(a, b, i + 1);
        let q = position(b, a[i].0)->0;
        assert(crate::text::key_lt(a[i].0, a[i + 1].0));
        if q > i {
            lemma_key_lt_asymmetric(a[i].0, a[i + 1].0);
            if q > i + 1 {
                assert(crate::text::key_lt(b[i + 1].0, b[q].0));
            }
        }
    }
}

/// Two sorted lists of entries that bind the same keys to the same values
/// are the same list.
pub proof fn lemma_entries_determined(a: Entries, b: Entries)
    requires
        entries_sorted(a),
        entries_sorted(b),
        forall|key: Seq<char>| lookup(a, key) == lookup(b, key),
    ensures
        a == b,
{
    assert forall|k: int| 0 <= k < a.len() implies has_key(b, (#[trigger] a[k]).0) by {
        lemma_position_of_entry(a, k);
        assert(lookup(a, a[k].0) == lookup(b, a[k].0));
    }
    assert forall|k: int| 0 <= k < b.len() implies has_key(a, (#[trigger] b[k]).0) by {
        lemma_position_of_entry(b, k);
        assert(lookup(a, b[k].0) == lookup(b, b[k].0));
    }
    if a.len() > 0 {
        lemma_position_at_least(a, b, a.len() - 1);
    }
    if b.len() > 0 {
        lemma_position_at_least(b, a, b.len() - 1);
    }
    assert(a.len() == b.len());
    assert forall|i: int| 0 <= i < a.len() implies a[i] == b[i] by {
        lemma_position_identity(a, b, i);
        lemma_position_of_entry(a, i);
        assert(lookup(a, a[i].0) == lookup(b, a[i].0));
    }
    assert(a =~= b);
}

/// After an insertion the key is bound to the value, and every other key to
/// what it was bound to.
pub proof fn lemma_lookup_insert(s: Entries, key: Seq<char>, value: NodeView, q: Seq<char>)
    requires
        entries_sorted(s),
    ensures
        lookup(insert_entry(s, key, value), q) == if q == key {
            Some(value)
        } else {
            lookup(s, q)
        },
{
    let i = lower_bound_from(s, key, 0);
    let r = insert_entry(s, key, value);
    lemma_lower_bound(s, key, 0);
    lemma_position_sorted(s, key, i);
    lemma_insert_sorted(s, key, value);
    let replaced = i < s.len() && s[i].0 == key;
    assert(r[i] == (key, value));
    if q == key {
        lemma_position_of_entry(r, i);
    } else {
        lemma_position_from(s, q, 0);
        match position(s, q) {
            Some(j) => {
                let at = if replaced || j < i {
                    j
                } else {
                    j + 1
                };
                assert(r[at] == s[j]);
                lemma_position_of_entry(r, at);
            },
            None => {
                assert forall|k: int| 0 <= k < r.len() implies (#[trigger] r[k]).0 != q by {
                    if k != i {
                        let from = if replaced || k < i {
                            k
                        } else {
                            k - 1
                        };
                        assert(r[k] == s[from]);
                    }
                }
                lemma_position_none(r, q, 0);
            },
        }
    }
}

/// Key-order independence: two entries with different keys can be inserted
/// in either order; the object is the same, and so is every diff that it
/// takes part in.
pub proof fn lemma_insertion_order_irrelevant(
    s: Entries,
    k1: Seq<char>,
    v1: NodeView,
    k2: Seq<char>,
    v2: NodeView,
)
    requires
        entries_sorted(s),
        k1 != k2,
    ensures
        insert_entry(insert_entry(s, k1, v1), k2, v2) == insert_entry(
            insert_entry(s, k2, v2),
            k1,
            v1,
        ),
        forall|other: NodeView, cfg: DiffConfig, path: Seq<Seq<char>>| #[trigger]
            diff_nodes_spec(
                NodeView::Object(insert_entry(insert_entry(s, k1, v1), k2, v2)),
                other,
                cfg,
                path,
            ) == diff_nodes_spec(
                NodeView::Object(insert_entry(insert_entry(s, k2, v2), k1, v1)),
                other,
                cfg,
                path,
            ),
        forall|other: NodeView, cfg: DiffConfig, path: Seq<Seq<char>>| #[trigger]
            diff_nodes_spec(
                other,
                NodeView::Object(insert_entry(insert_entry(s, k1, v1), k2, v2)),
                cfg,
                path,
            ) == diff_nodes_spec(
                other,
                NodeView::Object(insert_entry(insert_entry(s, k2, v2), k1, v1)),
                cfg,
                path,
            ),
{
    let a1 = insert_entry(s, k1, v1);
    let a2 = insert_entry(a1, k2, v2);
    let b1 = insert_entry(s, k2, v2);
    let b2 = insert_entry(b1, k1, v1);
    lemma_insert_sorted(s, k1, v1);
    lemma_insert_sorted(a1, k2, v2);
    lemma_insert_sorted(s, k2, v2);
    lemma_insert_sorted(b1, k1, v1);
    assert forall|key: Seq<char>| lookup(a2, key) == lookup(b2, key) by {
        lemma_lookup_insert(s, k1, v1, key);
        lemma_lookup_insert(a1, k2, v2, key);
        lemma_lookup_insert(s, k2, v2, key);
        lemma_lookup_insert(b1, k1, v1, key);
    }
    lemma_entries_determined(a2, b2);
}

/// The entries that come of inserting the pairs one after the other, from
/// the first to the last, into an object without entries.
pub open spec fn inserted_all(pairs: Entries) -> Entries
    decreases pairs.len(),
{
    if pairs.len() == 0 {
        Seq::empty()
    } else {
        insert_entry(inserted_all(pairs.drop_last()), pairs.last().0, pairs.last().1)
    }
}

/// No key occurs in two of the pairs.
pub open spec fn distinct_keys(pairs: Entries) -> bool {
    forall|i: int, j: int|
        0 <= i < j < pairs.len() ==> (#[trigger] pairs[i]).0 != (#[trigger] pairs[j]).0
}

/// Inserting one pair after the other keeps the entries in key order.
pub proof fn lemma_inserted_all_sorted(pairs: Entries)
    ensures
        entries_sorted(inserted_all(pairs)),
    decreases pairs.len(),
{
    if pairs.len() > 0 {
        lemma_inserted_all_sorted(pairs.drop_last());
        lemma_insert_sorted(inserted_all(pairs.drop_last()), pairs.last().0, pairs.last().1);
    }
}

/// After pairs with distinct keys were inserted, a key is bound to the
/// value that it was paired with, and to nothing where it was in no pair.
pub proof fn lemma_lookup_inserted_all(pairs: Entries, key: Seq<char>)
    requires
        distinct_keys(pairs),
    ensures
        match lookup(inserted_all(pairs), key) {
            Some(v) => pairs.contains((key, v)),
            None => forall|i: int| 0 <= i < pairs.len() ==> (#[trigger] pairs[i]).0 != key,
        },
    decreases pairs.len(),
{
    if pairs.len() > 0 {
        let rest = pairs.drop_last();
        let last = pairs.last();
        assert forall|i: int, j: int| 0 <= i < j < rest.len() implies (#[trigger] rest[i]).0 != (
        #[trigger] rest[j]).0 by {
            assert(rest[i] == pairs[i]);
            assert(rest[j] == pairs[j]);
        }
        lemma_lookup_inserted_all(rest, key);
        lemma_inserted_all_sorted(rest);
        lemma_lookup_insert(inserted_all(rest), last.0, last.1, key);
        if key == last.0 {
            assert(pairs[pairs.len() - 1] == (key, last.1));
        } else {
            match lookup(inserted_all(rest), key) {
                Some(v) => {
                    let i = choose|i: int| 0 <= i < rest.len() && rest[i] == (key, v);
                    assert(pairs[i] == (key, v));
                },
                None => {
                    assert forall|i: int| 0 <= i < pairs.len() implies (#[trigger] pairs[i]).0
                        != key by {
                        if i < rest.len() {
                            assert(rest[i] == pairs[i]);
                        }
                    }
                },
            }
        }
    }
}

/// Key-order independence: pairs with distinct keys give the same object in
/// whatever order they are inserted.
pub proof fn lemma_permuted_insertions(a: Entries, b: Entries)
    requires
        distinct_keys(a),
        distinct_keys(b),
        forall|p: (Seq<char>, NodeView)| a.contains(p) == b.contains(p),
    ensures
        inserted_all(a) == inserted_all(b),
{
    lemma_inserted_all_sorted(a);
    lemma_inserted_all_sorted(b);
    assert forall|key: Seq<char>| lookup(inserted_all(a), key) == lookup(
        inserted_all(b),
        key,
    ) by {
        lemma_lookup_inserted_all(a, key);
        lemma_lookup_inserted_all(b, key);
        lemma_same_binding(a, b, key);
        lemma_same_binding(b, a, key);
    }
    lemma_entries_determined(inserted_all(a), inserted_all(b));
}

/// What one list of pairs binds a key to, the other binds it to as well.
proof fn lemma_same_binding(a: Entries, b: Entries, key: Seq<char>)
    requires
        distinct_keys(b),
        forall|p: (Seq<char>, NodeView)| a.contains(p) == b.contains(p),
        match lookup(inserted_all(a), key) {
            Some(v) => a.contains((key, v)),
            None => forall|i: int| 0 <= i < a.len() ==> (#[trigger] a[i]).0 != key,
        },
        match lookup(inserted_all(b), key) {
            Some(v) => b.contains((key, v)),
            None => forall|i: int| 0 <= i < b.len() ==> (#[trigger] b[i]).0 != key,
        },
    ensures
        lookup(inserted_all(a), key) is Some ==> lookup(inserted_all(b), key) == lookup(
            inserted_all(a),
            key,
        ),
{
    if let Some(v) = lookup(inserted_all(a), key) {
        assert(b.contains((key, v)));
        let i = choose|i: int| 0 <= i < b.len() && b[i] == (key, v);
        match lookup(inserted_all(b), key) {
            Some(w) => {
                let j = choose|j: int| 0 <= j < b.len() && b[j] == (key, w);
                if i != j {
                    assert(b[i].0 == b[j].0);
                }
            },
            None => {
                assert(b[i].0 == key);
            },
        }
    }
}

} // verus!
