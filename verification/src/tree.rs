//! The value tree: the common form of a parsed document, and its semantic
//! equality.
//!
//! A tree is one of six kinds of node. An object keeps its entries in key
//! order, so that an object is determined by the mapping it holds and by
//! nothing else.

use crate::number::{close, numbers_close};
use crate::text::{
    key_less, key_lt, lemma_key_lt_irreflexive, lemma_key_lt_total, lemma_key_lt_transitive, str_eq,
};
use vstd::prelude::*;

verus! {

/// The mathematical value of a tree.
pub enum NodeView {
    Null,
    Bool(bool),
    /// The bit pattern of a binary64 number.
    Number(u64),
    String(Seq<char>),
    /// The entries, as pairs of key and value.
    Object(Seq<(Seq<char>, NodeView)>),
    Array(Seq<NodeView>),
}

/// The entries of an object, as its model has them.
pub type Entries = Seq<(Seq<char>, NodeView)>;

/// The keys ascend strictly: no key occurs twice, and the order of the
/// entries is fixed by the keys alone.
pub open spec fn entries_sorted(s: Entries) -> bool {
    forall|i: int, j: int| 0 <= i < j < s.len() ==> key_lt(#[trigger] s[i].0, #[trigger] s[j].0)
}

/// The index of the first entry from `i` on that has the key, if any.
pub open spec fn position_from(s: Entries, key: Seq<char>, i: int) -> Option<int>
    decreases s.len() - i,
{
    if i < 0 || i >= s.len() {
        None
    } else if s[i].0 == key {
        Some(i)
    } else {
        position_from(s, key, i + 1)
    }
}

/// The index of the entry with the key, if there is one.
pub open spec fn position(s: Entries, key: Seq<char>) -> Option<int> {
    position_from(s, key, 0)
}

pub open spec fn has_key(s: Entries, key: Seq<char>) -> bool {
    position(s, key) is Some
}

/// The value under the key, if there is one.
pub open spec fn lookup(s: Entries, key: Seq<char>) -> Option<NodeView> {
    match position(s, key) {
        Some(i) => Some(s[i].1),
        None => None,
    }
}

/// The number of entries from `i` on whose key comes before `key`, counted
/// up to the first that does not: where the key belongs among sorted entries.
pub open spec fn lower_bound_from(s: Entries, key: Seq<char>, i: int) -> int
    decreases s.len() - i,
{
    if i < 0 || i >= s.len() {
        s.len() as int
    } else if key_lt(s[i].0, key) {
        lower_bound_from(s, key, i + 1)
    } else {
        i
    }
}

/// The entries with `key` bound to `value`: in place of the entry with that
/// key if there is one, else at the place that keeps the keys in order.
pub open spec fn insert_entry(s: Entries, key: Seq<char>, value: NodeView) -> Entries {
    let i = lower_bound_from(s, key, 0);
    if i < s.len() && s[i].0 == key {
        s.update(i, (key, value))
    } else {
        s.insert(i, (key, value))
    }
}

impl NodeView {
    /// Every object in the tree has its keys in strictly ascending order.
    pub open spec fn wf(self) -> bool
        decreases self,
    {
        match self {
            NodeView::Object(entries) => {
                &&& entries_sorted(entries)
                &&& forall|i: int| 0 <= i < entries.len() ==> (#[trigger] entries[i]).1.wf()
            },
            NodeView::Array(items) => forall|i: int|
                0 <= i < items.len() ==> (#[trigger] items[i]).wf(),
            _ => true,
        }
    }

    /// There is no array anywhere in the tree.
    pub open spec fn array_free(self) -> bool
        decreases self,
    {
        match self {
            NodeView::Object(entries) => forall|i: int|
                0 <= i < entries.len() ==> (#[trigger] entries[i]).1.array_free(),
            NodeView::Array(_) => false,
            _ => true,
        }
    }

    /// Every number in the tree is finite.
    pub open spec fn all_finite(self) -> bool
        decreases self,
    {
        match self {
            NodeView::Number(bits) => crate::number::is_finite(bits),
            NodeView::Object(entries) => forall|i: int|
                0 <= i < entries.len() ==> (#[trigger] entries[i]).1.all_finite(),
            NodeView::Array(items) => forall|i: int|
                0 <= i < items.len() ==> (#[trigger] items[i]).all_finite(),
            _ => true,
        }
    }
}

/// Semantic equality: numbers up to the tolerance, objects as mappings,
/// arrays element by element, and nothing across kinds.
pub open spec fn semantic_eq(a: NodeView, b: NodeView) -> bool
    decreases a,
{
    match (a, b) {
        (NodeView::Null, NodeView::Null) => true,
        (NodeView::Bool(x), NodeView::Bool(y)) => x == y,
        (NodeView::Number(x), NodeView::Number(y)) => numbers_close(x, y),
        (NodeView::String(x), NodeView::String(y)) => x == y,
        (NodeView::Object(x), NodeView::Object(y)) => {
            &&& x.len() == y.len()
            &&& forall|i: int|
                0 <= i < x.len() ==> match lookup(y, (#[trigger] x[i]).0) {
                    Some(v) => semantic_eq(x[i].1, v),
                    None => false,
                }
        },
        (NodeView::Array(x), NodeView::Array(y)) => {
            &&& x.len() == y.len()
            &&& forall|i: int| 0 <= i < x.len() ==> semantic_eq(#[trigger] x[i], y[i])
        },
        _ => false,
    }
}

/// An item of an array is a smaller tree than the array.
pub proof fn lemma_item_smaller(parent: NodeView, i: int)
    requires
        parent is Array,
        0 <= i < parent->Array_0.len(),
    ensures
        decreases_to!(parent => parent->Array_0[i]),
{
    assert(decreases_to!(parent => parent->Array_0));
    assert(decreases_to!(parent->Array_0 => parent->Array_0[i]));
}

/// A value of an object is a smaller tree than the object.
pub proof fn lemma_value_smaller(parent: NodeView, i: int)
    requires
        parent is Object,
        0 <= i < parent->Object_0.len(),
    ensures
        decreases_to!(parent => parent->Object_0[i].1),
        decreases_to!(parent->Object_0 => parent->Object_0[i].1),
{
    assert(decreases_to!(parent => parent->Object_0));
    assert(decreases_to!(parent->Object_0 => parent->Object_0[i]));
    assert(decreases_to!(parent->Object_0[i] => parent->Object_0[i].1));
}

/// The name of a node's kind.
pub open spec fn kind_name_of(v: NodeView) -> Seq<char> {
    match v {
        NodeView::Null => "null"@,
        NodeView::Bool(_) => "boolean"@,
        NodeView::Number(_) => "number"@,
        NodeView::String(_) => "string"@,
        NodeView::Object(_) => "object"@,
        NodeView::Array(_) => "array"@,
    }
}

/// A node of the value tree.
#[derive(Debug, PartialEq)]
pub enum Node {
    /// No value.
    Null,
    Bool(bool),
    /// A number, as the bit pattern of its binary64 value.
    Number(u64),
    String(String),
    /// A mapping from keys to nodes.
    Object(NodeMap),
    /// A sequence of nodes.
    Array(Vec<Node>),
}

/// The entries of an object: a mapping from keys to nodes, kept in key order.
#[derive(Debug, PartialEq)]
pub struct NodeMap {
    entries: Vec<(String, Node)>,
}

/// The values of a sequence of nodes.
pub open spec fn view_all(items: Seq<Node>) -> Seq<NodeView> {
    Seq::new(items.len(), |i: int| items[i]@)
}

impl View for Node {
    type V = NodeView;

    open spec fn view(&self) -> NodeView
        decreases self,
    {
        match self {
            Node::Null => NodeView::Null,
            Node::Bool(b) => NodeView::Bool(*b),
            Node::Number(bits) => NodeView::Number(*bits),
            Node::String(s) => NodeView::String(s@),
            Node::Object(map) => NodeView::Object(map.view()),
            Node::Array(items) => NodeView::Array(
                Seq::new(
                    items@.len(),
                    |i: int|
                        if 0 <= i < items@.len() {
                            items@[i].view()
                        } else {
                            NodeView::Null
                        },
                ),
            ),
        }
    }
}

impl View for NodeMap {
    type V = Entries;

    closed spec fn view(&self) -> Entries
        decreases self,
    {
        entries_view(self.entries@)
    }
}

/// The model of stored entries.
spec fn entries_view(v: Seq<(String, Node)>) -> Entries
    decreases v,
{
    Seq::new(
        v.len(),
        |i: int|
            if 0 <= i < v.len() {
                (v[i].0@, v[i].1.view())
            } else {
                (Seq::empty(), NodeView::Null)
            },
    )
}

/// The value of an array node is the values of its items.
pub proof fn lemma_array_view(items: Vec<Node>)
    ensures
        Node::Array(items)@ == NodeView::Array(view_all(items@)),
{
    let a = Node::Array(items);
    reveal_with_fuel(<Node as View>::view, 2);
    assert(a@ is Array);
    assert(a.view()->Array_0.len() == items.view().len());
    assert(a@->Array_0 =~= view_all(items@));
}

impl NodeMap {
    #[verifier::type_invariant]
    spec fn sorted(&self) -> bool {
        entries_sorted(self@)
    }

    /// An object without entries.
    pub fn new() -> (r: NodeMap)
        ensures
            r@ == Seq::<(Seq<char>, NodeView)>::empty(),
    {
        let r = NodeMap { entries: Vec::new() };
        assert(r@ =~= Seq::<(Seq<char>, NodeView)>::empty());
        r
    }

    /// The number of entries.
    pub fn len(&self) -> (r: usize)
        ensures
            r == self@.len(),
    {
        self.entries.len()
    }

    pub fn is_empty(&self) -> (r: bool)
        ensures
            r == (self@.len() == 0),
    {
        self.entries.len() == 0
    }

    /// The key of the `i`-th entry in key order.
    pub fn key_at(&self, i: usize) -> (r: &String)
        requires
            i < self@.len(),
        ensures
            r@ == self@[i as int].0,
    {
        &self.entries[i].0
    }

    /// The value of the `i`-th entry in key order.
    pub fn value_at(&self, i: usize) -> (r: &Node)
        requires
            i < self@.len(),
        ensures
            r@ == self@[i as int].1,
    {
        &self.entries[i].1
    }

    /// The keys ascend strictly.
    pub fn keys_ascend(&self)
        ensures
            entries_sorted(self@),
    {
        proof {
            use_type_invariant(self);
        }
    }

    /// The index of the entry with the key.
    pub fn position_of(&self, key: &str) -> (r: Option<usize>)
        ensures
            match r {
                Some(i) => position(self@, key@) == Some(i as int) && i < self@.len(),
                None => position(self@, key@) is None,
            },
    {
        proof {
            use_type_invariant(self);
        }
        let ghost s = self@;
        let mut lo: usize = 0;
        let mut hi: usize = self.entries.len();
        while lo < hi
            invariant
                lo <= hi <= self.entries.len(),
                self.entries.len() == s.len(),
                s == self@,
                entries_sorted(s),
                forall|k: int| 0 <= k < lo ==> key_lt(#[trigger] s[k].0, key@),
                forall|k: int| hi <= k < s.len() ==> !key_lt(#[trigger] s[k].0, key@),
            decreases hi - lo,
        {
            let mid = lo + (hi - lo) / 2;
            if key_less(self.entries[mid].0.as_str(), key) {
                proof {
                    assert forall|k: int| 0 <= k < mid + 1 implies key_lt(
                        #[trigger] s[k].0,
                        key@,
                    ) by {
                        if k < mid {
                            assert(key_lt(s[k].0, s[mid as int].0));
                            lemma_key_lt_transitive(s[k].0, s[mid as int].0, key@);
                        }
                    }
                }
                lo = mid + 1;
            } else {
                proof {
                    assert forall|k: int| mid <= k < s.len() implies !key_lt(
                        #[trigger] s[k].0,
                        key@,
                    ) by {
                        if k > mid && key_lt(s[k].0, key@) {
                            assert(key_lt(s[mid as int].0, s[k].0));
                            lemma_key_lt_transitive(s[mid as int].0, s[k].0, key@);
                        }
                    }
                }
                hi = mid;
            }
        }
        proof {
            lemma_position_sorted(s, key@, lo as int);
        }
        if lo < self.entries.len() && str_eq(self.entries[lo].0.as_str(), key) {
            Some(lo)
        } else {
            None
        }
    }

    pub fn contains_key(&self, key: &str) -> (r: bool)
        ensures
            r == has_key(self@, key@),
    {
        self.position_of(key).is_some()
    }

    /// The value under the key.
    pub fn get(&self, key: &str) -> (r: Option<&Node>)
        ensures
            match r {
                Some(v) => lookup(self@, key@) == Some(v@),
                None => lookup(self@, key@) is None,
            },
    {
        match self.position_of(key) {
            Some(i) => Some(&self.entries[i].1),
            None => None,
        }
    }

    /// Binds `key` to `value`, and hands back the value that the key had.
    pub fn insert(&mut self, key: String, value: Node) -> (r: Option<Node>)
        ensures
            final(self)@ == insert_entry(old(self)@, key@, value@),
            entries_sorted(final(self)@),
            match r {
                Some(v) => lookup(old(self)@, key@) == Some(v@),
                None => lookup(old(self)@, key@) is None,
            },
    {
        proof {
            use_type_invariant(&*self);
        }
        let ghost before = self@;
        let mut entries: Vec<(String, Node)> = Vec::new();
        proof {
            assert(entries_view(entries@) =~= Seq::empty());
        }
        core::mem::swap(&mut self.entries, &mut entries);
        let mut i: usize = 0;
        while i < entries.len() && key_less(entries[i].0.as_str(), key.as_str())
            invariant
                i <= entries.len(),
                entries_view(entries@) == before,
                lower_bound_from(before, key@, 0) == lower_bound_from(before, key@, i as int),
                forall|k: int| 0 <= k < i ==> key_lt(#[trigger] before[k].0, key@),
            decreases entries.len() - i,
        {
            i += 1;
        }
        proof {
            lemma_position_sorted(before, key@, i as int);
            lemma_insert_sorted(before, key@, value@);
        }
        let mut previous: Option<Node> = None;
        if i < entries.len() && str_eq(entries[i].0.as_str(), key.as_str()) {
            let old_entry = entries.remove(i);
            previous = Some(old_entry.1);
            entries.insert(i, (key, value));
            proof {
                assert(entries_view(entries@) =~= before.update(i as int, (key@, value@)));
            }
        } else {
            entries.insert(i, (key, value));
            proof {
                assert(entries_view(entries@) =~= before.insert(i as int, (key@, value@)));
            }
        }
        self.entries = entries;
        previous
    }
}

/// In sorted entries the key can only stand at its lower bound.
pub proof fn lemma_position_sorted(s: Entries, key: Seq<char>, i: int)
    requires
        entries_sorted(s),
        0 <= i <= s.len(),
        forall|k: int| 0 <= k < i ==> key_lt(#[trigger] s[k].0, key),
        i < s.len() ==> !key_lt(s[i].0, key),
    ensures
        position(s, key) == if i < s.len() && s[i].0 == key {
            Some(i)
        } else {
            None::<int>
        },
        i < s.len() && s[i].0 != key ==> key_lt(key, s[i].0),
{
    lemma_position_scan(s, key, 0, i);
    if i < s.len() && s[i].0 != key {
        lemma_key_lt_total(key, s[i].0);
        assert forall|k: int| i <= k < s.len() implies s[k].0 != key by {
            if k > i {
                assert(key_lt(s[i].0, s[k].0));
                lemma_key_lt_transitive(key, s[i].0, s[k].0);
            }
            lemma_key_lt_irreflexive(key);
        }
        lemma_position_none(s, key, i);
    }
}

/// Entries whose key comes before `key` are passed over by the search.
proof fn lemma_position_scan(s: Entries, key: Seq<char>, from: int, to: int)
    requires
        0 <= from <= to <= s.len(),
        forall|k: int| from <= k < to ==> key_lt(#[trigger] s[k].0, key),
    ensures
        position_from(s, key, from) == position_from(s, key, to),
    decreases to - from,
{
    if from < to {
        lemma_key_lt_irreflexive(key);
        assert(key_lt(s[from].0, key));
        lemma_position_scan(s, key, from + 1, to);
    }
}

/// The search finds nothing where no entry has the key.
pub proof fn lemma_position_none(s: Entries, key: Seq<char>, from: int)
    requires
        0 <= from,
        forall|k: int| from <= k < s.len() ==> (#[trigger] s[k]).0 != key,
    ensures
        position_from(s, key, from) is None,
    decreases s.len() - from,
{
    if from < s.len() {
        assert(s[from].0 != key);
        lemma_position_none(s, key, from + 1);
    }
}

/// What the search returns: the first entry with the key.
pub proof fn lemma_position_from(s: Entries, key: Seq<char>, from: int)
    requires
        0 <= from,
    ensures
        match position_from(s, key, from) {
            Some(i) => from <= i < s.len() && s[i].0 == key && forall|k: int|
                from <= k < i ==> (#[trigger] s[k]).0 != key,
            None => forall|k: int| from <= k < s.len() ==> (#[trigger] s[k]).0 != key,
        },
    decreases s.len() - from,
{
    if from < s.len() && s[from].0 != key {
        lemma_position_from(s, key, from + 1);
    }
}

/// In sorted entries every entry is found under its own key.
pub proof fn lemma_position_of_entry(s: Entries, i: int)
    requires
        entries_sorted(s),
        0 <= i < s.len(),
    ensures
        position(s, s[i].0) == Some(i),
{
    lemma_position_from(s, s[i].0, 0);
    let p = position(s, s[i].0);
    if p != Some(i) {
        let j = p->0;
        assert(j < i);
        assert(key_lt(s[j].0, s[i].0));
        lemma_key_lt_irreflexive(s[i].0);
    }
}

/// The lower bound lies past the keys that come before, and at a key that
/// does not.
pub proof fn lemma_lower_bound(s: Entries, key: Seq<char>, from: int)
    requires
        0 <= from <= s.len(),
    ensures
        from <= lower_bound_from(s, key, from) <= s.len(),
        forall|k: int|
            from <= k < lower_bound_from(s, key, from) ==> key_lt(#[trigger] s[k].0, key),
        lower_bound_from(s, key, from) < s.len() ==> !key_lt(
            s[lower_bound_from(s, key, from)].0,
            key,
        ),
    decreases s.len() - from,
{
    if from < s.len() && key_lt(s[from].0, key) {
        lemma_lower_bound(s, key, from + 1);
    }
}

/// Inserting into sorted entries leaves them sorted.
pub proof fn lemma_insert_sorted(s: Entries, key: Seq<char>, value: NodeView)
    requires
        entries_sorted(s),
    ensures
        entries_sorted(insert_entry(s, key, value)),
{
    let i = lower_bound_from(s, key, 0);
    lemma_lower_bound(s, key, 0);
    lemma_position_sorted(s, key, i);
    let r = insert_entry(s, key, value);
    if i < s.len() && s[i].0 == key {
        assert forall|a: int, b: int| 0 <= a < b < r.len() implies key_lt(
            #[trigger] r[a].0,
            #[trigger] r[b].0,
        ) by {
            assert(key_lt(s[a].0, s[b].0));
        }
    } else {
        assert forall|a: int, b: int| 0 <= a < b < r.len() implies key_lt(
            #[trigger] r[a].0,
            #[trigger] r[b].0,
        ) by {
            if b < i {
                assert(key_lt(s[a].0, s[b].0));
            } else if b == i {
                assert(key_lt(s[a].0, key));
            } else if a < i {
                assert(key_lt(s[a].0, s[b - 1].0));
            } else if a == i {
                if b - 1 > i {
                    assert(key_lt(s[i].0, s[b - 1].0));
                    lemma_key_lt_transitive(key, s[i].0, s[b - 1].0);
                }
            } else {
                assert(key_lt(s[a - 1].0, s[b - 1].0));
            }
        }
    }
}

impl Clone for NodeMap {
    /// An independent copy.
    fn clone(&self) -> (r: NodeMap)
        ensures
            r@ == self@,
        decreases self@,
    {
        proof {
            use_type_invariant(self);
        }
        let mut out: Vec<(String, Node)> = Vec::new();
        let mut i: usize = 0;
        while i < self.entries.len()
            invariant
                i <= self.entries.len(),
                self.entries.len() == self@.len(),
                out@.len() == i,
                forall|k: int|
                    0 <= k < i ==> (#[trigger] out@[k]).0@ == self@[k].0 && out@[k].1@
                        == self@[k].1,
            decreases self.entries.len() - i,
        {
            proof {
                lemma_value_smaller(NodeView::Object(self@), i as int);
            }
            let k = self.entries[i].0.clone();
            let v = self.entries[i].1.clone();
            out.push((k, v));
            i += 1;
        }
        let ghost target = self@;
        let r = NodeMap { entries: out };
        proof {
            assert(r@ =~= target);
        }
        r
    }
}

impl Clone for Node {
    /// An independent copy.
    fn clone(&self) -> (r: Node)
        ensures
            r@ == self@,
        decreases self@,
    {
        match self {
            Node::Null => Node::Null,
            Node::Bool(b) => Node::Bool(*b),
            Node::Number(bits) => Node::Number(*bits),
            Node::String(s) => Node::String(s.clone()),
            Node::Object(map) => {
                assert(decreases_to!(self@ => self@->Object_0));
                Node::Object(map.clone())
            },
            Node::Array(items) => {
                let mut out: Vec<Node> = Vec::new();
                let mut i: usize = 0;
                proof {
                    lemma_array_view(*items);
                }
                while i < items.len()
                    invariant
                        i <= items.len(),
                        self@ == NodeView::Array(view_all(items@)),
                        out@.len() == i,
                        forall|k: int| 0 <= k < i ==> (#[trigger] out@[k])@ == items@[k]@,
                    decreases items.len() - i,
                {
                    proof {
                        lemma_item_smaller(self@, i as int);
                    }
                    let v = items[i].clone();
                    out.push(v);
                    i += 1;
                }
                let r = Node::Array(out);
                proof {
                    lemma_array_view(out);
                    assert(view_all(out@) =~= view_all(items@));
                }
                r
            },
        }
    }
}

impl Node {
    /// The name of the node's kind.
    pub fn kind_name(&self) -> (r: &'static str)
        ensures
            r@ == kind_name_of(self@),
    {
        match self {
            Node::Null => "null",
            Node::Bool(_) => "boolean",
            Node::Number(_) => "number",
            Node::String(_) => "string",
            Node::Object(_) => "object",
            Node::Array(_) => "array",
        }
    }

    /// Every tree that can be built is well formed: each of its objects
    /// keeps its keys in order. Walking the tree shows it.
    pub fn well_formed(&self)
        ensures
            self@.wf(),
        decreases self@,
    {
        match self {
            Node::Object(map) => {
                map.keys_ascend();
                let mut i: usize = 0;
                while i < map.len()
                    invariant
                        i <= map@.len(),
                        self@ == NodeView::Object(map@),
                        forall|k: int| 0 <= k < i ==> (#[trigger] map@[k]).1.wf(),
                    decreases map@.len() - i,
                {
                    proof {
                        lemma_value_smaller(self@, i as int);
                    }
                    map.value_at(i).well_formed();
                    i += 1;
                }
            },
            Node::Array(items) => {
                proof {
                    lemma_array_view(*items);
                }
                let mut i: usize = 0;
                while i < items.len()
                    invariant
                        i <= items@.len(),
                        self@ == NodeView::Array(view_all(items@)),
                        forall|k: int| 0 <= k < i ==> (#[trigger] view_all(items@)[k]).wf(),
                    decreases items@.len() - i,
                {
                    proof {
                        lemma_item_smaller(self@, i as int);
                        assert(view_all(items@)[i as int] == items@[i as int]@);
                    }
                    items[i].well_formed();
                    i += 1;
                }
            },
            _ => {},
        }
    }

    /// Whether two trees are semantically equal.
    pub fn semantic_equals(&self, other: &Node) -> (r: bool)
        ensures
            r == semantic_eq(self@, other@),
        decreases self@,
    {
        match (self, other) {
            (Node::Null, Node::Null) => true,
            (Node::Bool(x), Node::Bool(y)) => *x == *y,
            (Node::Number(x), Node::Number(y)) => close(*x, *y),
            (Node::String(x), Node::String(y)) => str_eq(x.as_str(), y.as_str()),
            (Node::Object(x), Node::Object(y)) => {
                if x.len() != y.len() {
                    return false;
                }
                let mut i: usize = 0;
                while i < x.len()
                    invariant
                        i <= x@.len(),
                        x@.len() == y@.len(),
                        self@ == NodeView::Object(x@),
                        other@ == NodeView::Object(y@),
                        forall|k: int|
                            0 <= k < i ==> match lookup(y@, (#[trigger] x@[k]).0) {
                                Some(v) => semantic_eq(x@[k].1, v),
                                None => false,
                            },
                    decreases x@.len() - i,
                {
                    proof {
                        lemma_value_smaller(self@, i as int);
                    }
                    let found = y.get(x.key_at(i).as_str());
                    let ok = match found {
                        Some(v) => x.value_at(i).semantic_equals(v),
                        None => false,
                    };
                    if !ok {
                        proof {
                            let e = x@[i as int];
                            assert(match lookup(y@, e.0) {
                                Some(v) => !semantic_eq(e.1, v),
                                None => true,
                            });
                        }
                        return false;
                    }
                    i += 1;
                }
                true
            },
            (Node::Array(x), Node::Array(y)) => {
                proof {
                    lemma_array_view(*x);
                    lemma_array_view(*y);
                }
                if x.len() != y.len() {
                    return false;
                }
                let mut i: usize = 0;
                while i < x.len()
                    invariant
                        i <= x.len(),
                        x@.len() == y@.len(),
                        self@ == NodeView::Array(view_all(x@)),
                        other@ == NodeView::Array(view_all(y@)),
                        forall|k: int|
                            0 <= k < i ==> semantic_eq(#[trigger] view_all(x@)[k], view_all(y@)[k]),
                    decreases x.len() - i,
                {
                    proof {
                        lemma_item_smaller(self@, i as int);
                    }
                    if !x[i].semantic_equals(&y[i]) {
                        proof {
                            let a = view_all(x@);
                            let b = view_all(y@);
                            assert(a[i as int] == x@[i as int]@);
                            assert(b[i as int] == y@[i as int]@);
                            assert(!semantic_eq(a[i as int], b[i as int]));
                        }
                        return false;
                    }
                    i += 1;
                }
                true
            },
            _ => false,
        }
    }
}

} // verus!
