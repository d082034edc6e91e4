//! What a node tells about itself: a short text for display, and an estimate
//! of the memory it takes.

use crate::text::{decimal, push_decimal};
use crate::tree::{lemma_array_view, lemma_item_smaller, lemma_value_smaller, view_all};
use crate::tree::{Node, NodeMap, NodeView};
use vstd::layout::size_of;
use vstd::prelude::*;
use vstd::utf8::*;

verus! {

/// A count of things between brackets: the brackets alone for none, else the
/// number and the noun, in the plural for more than one.
pub open spec fn counted(n: nat, open: char, noun: Seq<char>, close: char) -> Seq<char> {
    if n == 0 {
        seq![open, close]
    } else if n == 1 {
        seq![open, ' '] + decimal(n) + seq![' '] + noun + seq![' ', close]
    } else {
        seq![open, ' '] + decimal(n) + seq![' '] + noun + seq!['s', ' ', close]
    }
}

/// The text that stands for a node before it is cut to length: the word for
/// null and for a truth value, a string between quotes, the number of keys
/// of an object and of items of an array. For a number it is `number`, the
/// numeral that the caller has for it.
pub open spec fn preview_text(v: NodeView, number: Seq<char>) -> Seq<char> {
    match v {
        NodeView::Null => "null"@,
        NodeView::Bool(b) => if b {
            "true"@
        } else {
            "false"@
        },
        NodeView::Number(_) => number,
        NodeView::String(s) => seq!['"'] + s + seq!['"'],
        NodeView::Object(entries) => counted(entries.len(), '{', "key"@, '}'),
        NodeView::Array(items) => counted(items.len(), '[', "item"@, ']'),
    }
}

/// The number of bytes that are kept of a text that is too long.
pub open spec fn cut_point(max_len: nat) -> nat {
    if max_len >= 3 {
        (max_len - 3) as nat
    } else {
        0
    }
}

/// Whether the text fits, or can be cut without splitting a character.
pub open spec fn can_cut(text: Seq<char>, max_len: nat) -> bool {
    encode_utf8(text).len() <= max_len || is_char_boundary(
        encode_utf8(text),
        cut_point(max_len) as int,
    )
}

/// The text as it is where its UTF-8 form has at most `max_len` bytes; else
/// the characters of its first `max_len - 3` bytes, and three dots.
pub open spec fn cut_text(text: Seq<char>, max_len: nat) -> Seq<char> {
    if encode_utf8(text).len() <= max_len {
        text
    } else {
        decode_utf8(encode_utf8(text).subrange(0, cut_point(max_len) as int)) + "..."@
    }
}

fn push_counted(out: &mut String, n: usize, open: char, noun: &str, close: char)
    ensures
        final(out)@ == old(out)@ + counted(n as nat, open, noun@, close),
{
    out.push(open);
    if n > 0 {
        out.push(' ');
        push_decimal(out, n);
        out.push(' ');
        out.append(noun);
        if n > 1 {
            out.push('s');
        }
        out.push(' ');
    }
    out.push(close);
    assert(out@ =~= old(out)@ + counted(n as nat, open, noun@, close));
}

fn full_text(node: &Node, number: &str) -> (r: String)
    ensures
        r@ == preview_text(node@, number@),
{
    let mut out = String::new();
    match node {
        Node::Null => {
            out.append("null");
        },
        Node::Bool(b) => {
            if *b {
                out.append("true");
            } else {
                out.append("false");
            }
        },
        Node::Number(_) => {
            out.append(number);
        },
        Node::String(s) => {
            out.push('"');
            out.append(s.as_str());
            out.push('"');
        },
        Node::Object(map) => {
            push_counted(&mut out, map.len(), '{', "key", '}');
        },
        Node::Array(items) => {
            proof {
                lemma_array_view(*items);
            }
            push_counted(&mut out, items.len(), '[', "item", ']');
        },
    }
    assert(out@ =~= preview_text(node@, number@));
    out
}

fn fits_or_cuts(text: &str, max_len: usize) -> (r: bool)
    ensures
        r == can_cut(text@, max_len as nat),
{
    text.as_bytes().len() <= max_len || text.is_char_boundary(max_len.saturating_sub(3))
}

fn cut(text: String, max_len: usize) -> (r: String)
    requires
        can_cut(text@, max_len as nat),
    ensures
        r@ == cut_text(text@, max_len as nat),
{
    if text.as_str().as_bytes().len() <= max_len {
        return text;
    }
    let at = max_len.saturating_sub(3);
    let (head, _) = text.as_str().split_at(at);
    let mut out = String::from_str(head);
    out.append("...");
    proof {
        encode_utf8_decode_utf8(head@);
    }
    out
}

impl Node {
    /// A short text for the node, of at most `max_len` bytes and three dots.
    /// `number` is the numeral that the caller has for the node where it is
    /// a number.
    pub fn preview(&self, max_len: usize, number: &str) -> (r: String)
        requires
            can_cut(preview_text(self@, number@), max_len as nat),
        ensures
            r@ == cut_text(preview_text(self@, number@), max_len as nat),
    {
        cut(full_text(self, number), max_len)
    }

    /// The preview, or nothing where the cut would split a character.
    pub fn preview_checked(&self, max_len: usize, number: &str) -> (r: Option<String>)
        ensures
            match r {
                Some(s) => can_cut(preview_text(self@, number@), max_len as nat) && s@ == cut_text(
                    preview_text(self@, number@),
                    max_len as nat,
                ),
                None => !can_cut(preview_text(self@, number@), max_len as nat),
            },
    {
        let text = full_text(self, number);
        if fits_or_cuts(text.as_str(), max_len) {
            Some(cut(text, max_len))
        } else {
            None
        }
    }
}

/// The bytes that the keys and the values of the first `k` entries take.
pub open spec fn entries_size(parent: NodeView, k: int) -> nat
    recommends
        parent is Object,
    decreases parent, 0nat, k,
{
    if k <= 0 || !(parent is Object) || k > parent->Object_0.len() {
        0
    } else {
        let e = parent->Object_0[k - 1];
        entries_size(parent, k - 1) + encode_utf8(e.0).len() + node_size(e.1)
    }
}

/// The bytes that the first `k` items take.
pub open spec fn items_size(parent: NodeView, k: int) -> nat
    recommends
        parent is Array,
    decreases parent, 0nat, k,
{
    if k <= 0 || !(parent is Array) || k > parent->Array_0.len() {
        0
    } else {
        items_size(parent, k - 1) + node_size(parent->Array_0[k - 1])
    }
}

/// An estimate of the bytes that a tree takes: a node for each value, the
/// bytes of each string and key, and a collection for each object and array.
pub open spec fn node_size(v: NodeView) -> nat
    decreases v, 1nat, 0nat,
{
    size_of::<Node>() + match v {
        NodeView::String(s) => encode_utf8(s).len(),
        NodeView::Object(entries) => size_of::<NodeMap>() + entries_size(v, entries.len() as int),
        NodeView::Array(items) => size_of::<Vec<Node>>() + items_size(v, items.len() as int),
        _ => 0,
    }
}

proof fn lemma_entries_size_grows(parent: NodeView, k: int, n: int)
    requires
        parent is Object,
        0 <= k <= n <= parent->Object_0.len(),
    ensures
        entries_size(parent, k) <= entries_size(parent, n),
    decreases n - k,
{
    if k < n {
        lemma_entries_size_grows(parent, k, n - 1);
    }
}

proof fn lemma_items_size_grows(parent: NodeView, k: int, n: int)
    requires
        parent is Array,
        0 <= k <= n <= parent->Array_0.len(),
    ensures
        items_size(parent, k) <= items_size(parent, n),
    decreases n - k,
{
    if k < n {
        lemma_items_size_grows(parent, k, n - 1);
    }
}

impl Node {
    /// An estimate of the bytes that the tree takes.
    pub fn size(&self) -> (r: usize)
        requires
            node_size(self@) <= usize::MAX,
        ensures
            r == node_size(self@),
        decreases self@,
    {
        let base = core::mem::size_of::<Node>();
        match self {
            Node::String(s) => base + s.as_str().len(),
            Node::Object(map) => {
                let n = map.len();
                let mut total: usize = base + core::mem::size_of::<NodeMap>();
                let mut i: usize = 0;
                while i < n
                    invariant
                        i <= n,
                        n == map@.len(),
                        self@ == NodeView::Object(map@),
                        node_size(self@) <= usize::MAX,
                        total == size_of::<Node>() + size_of::<NodeMap>() + entries_size(
                            self@,
                            i as int,
                        ),
                    decreases n - i,
                {
                    proof {
                        lemma_value_smaller(self@, i as int);
                        lemma_entries_size_grows(self@, i + 1, n as int);
                    }
                    let key_len = map.key_at(i).as_str().len();
                    let value_size = map.value_at(i).size();
                    total = total + key_len + value_size;
                    i += 1;
                }
                total
            },
            Node::Array(items) => {
                proof {
                    lemma_array_view(*items);
                }
                let n = items.len();
                let mut total: usize = base + core::mem::size_of::<Vec<Node>>();
                let mut i: usize = 0;
                while i < n
                    invariant
                        i <= n,
                        n == items@.len(),
                        self@ == NodeView::Array(view_all(items@)),
                        node_size(self@) <= usize::MAX,
                        total == size_of::<Node>() + size_of::<Vec<Node>>() + items_size(
                            self@,
                            i as int,
                        ),
                    decreases n - i,
                {
                    proof {
                        lemma_item_smaller(self@, i as int);
                        lemma_items_size_grows(self@, i + 1, n as int);
                        assert(view_all(items@)[i as int] == items@[i as int]@);
                    }
                    let item_size = items[i].size();
                    total = total + item_size;
                    i += 1;
                }
                total
            },
            _ => base,
        }
    }
}

} // verus!
