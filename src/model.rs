//! The mathematical model of a tree and the pre-order operations on it.
use vstd::prelude::*;

verus! {

/// The value of a node: its key, its payload and its children in order.
pub struct NodeModel {
    pub id: Seq<char>,
    pub data: Seq<char>,
    pub children: Seq<NodeModel>,
}

/// A node without children.
pub open spec fn leaf(id: Seq<char>, data: Seq<char>) -> NodeModel {
    NodeModel { id, data, children: Seq::empty() }
}

/// The first node of `t`, in pre-order, whose key is `id`.
pub open spec fn find(t: NodeModel, id: Seq<char>) -> Option<NodeModel>
    decreases t,
{
    if t.id == id {
        Some(t)
    } else {
        find_in(t.children, id)
    }
}

/// The first node, in pre-order over the trees of `s` taken in turn, whose key is `id`.
pub open spec fn find_in(s: Seq<NodeModel>, id: Seq<char>) -> Option<NodeModel>
    decreases s,
{
    if s.len() == 0 {
        None
    } else {
        match find(s[0], id) {
            Some(n) => Some(n),
            None => find_in(s.drop_first(), id),
        }
    }
}

} // verus!

verus! {

/// Whether some node of `t` has key `id`.
pub open spec fn contains(t: NodeModel, id: Seq<char>) -> bool {
    find(t, id) is Some
}

/// `t` with `c` appended as the last child of the first node, in pre-order, whose key is `pid`.
pub open spec fn append_under(t: NodeModel, pid: Seq<char>, c: NodeModel) -> NodeModel
    decreases t,
{
    if t.id == pid {
        NodeModel { id: t.id, data: t.data, children: t.children.push(c) }
    } else {
        NodeModel { id: t.id, data: t.data, children: append_in(t.children, pid, c) }
    }
}

/// The trees of `s`, with `c` appended under the first node, in pre-order over them, whose key is `pid`.
pub open spec fn append_in(s: Seq<NodeModel>, pid: Seq<char>, c: NodeModel) -> Seq<NodeModel>
    decreases s,
{
    if s.len() == 0 {
        s
    } else if find(s[0], pid) is Some {
        s.update(0, append_under(s[0], pid, c))
    } else {
        seq![s[0]] + append_in(s.drop_first(), pid, c)
    }
}

/// `t` without the subtree of its first proper descendant, in pre-order, whose key is `id`.
pub open spec fn remove_below(t: NodeModel, id: Seq<char>) -> NodeModel
    decreases t,
{
    NodeModel { id: t.id, data: t.data, children: remove_in(t.children, id) }
}

/// The trees of `s` without the subtree of the first node, in pre-order over them, whose key is `id`.
pub open spec fn remove_in(s: Seq<NodeModel>, id: Seq<char>) -> Seq<NodeModel>
    decreases s,
{
    if s.len() == 0 {
        s
    } else if s[0].id == id {
        s.drop_first()
    } else if find(s[0], id) is Some {
        s.update(0, remove_below(s[0], id))
    } else {
        seq![s[0]] + remove_in(s.drop_first(), id)
    }
}

/// Lookup in a tree that may be empty.
pub open spec fn tree_find(t: Option<NodeModel>, id: Seq<char>) -> Option<NodeModel> {
    match t {
        Some(r) => find(r, id),
        None => None,
    }
}

/// A tree that may be empty, after appending `c` under the first node whose key is `pid`;
/// unchanged where there is none.
pub open spec fn tree_append(t: Option<NodeModel>, pid: Seq<char>, c: NodeModel) -> Option<NodeModel> {
    match t {
        Some(r) => if contains(r, pid) {
            Some(append_under(r, pid, c))
        } else {
            t
        },
        None => None,
    }
}

/// A tree that may be empty, after removing the subtree of the first node whose key is `id`:
/// empty where that node is the root, unchanged where there is none.
pub open spec fn tree_remove(t: Option<NodeModel>, id: Seq<char>) -> Option<NodeModel> {
    match t {
        Some(r) => if r.id == id {
            None
        } else if contains(r, id) {
            Some(remove_below(r, id))
        } else {
            t
        },
        None => None,
    }
}

} // verus!

verus! {

/// Each child of a tree lies strictly below it, so recursion into children terminates.
pub proof fn lemma_child_decreases(t: NodeModel, i: int)
    requires
        0 <= i < t.children.len(),
    ensures
        decreases_to!(t => t.children[i]),
{
    assert(decreases_to!(t => t.children));
    vstd::seq::axiom_seq_index_decreases(t.children, i);
}

} // verus!
