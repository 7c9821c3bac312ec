//! The executable node type and the pre-order traversals over it.
use vstd::prelude::*;

use crate::model::{
    NodeModel,
    append_in,
    append_under,
    contains,
    find,
    find_in,
    leaf,
    lemma_child_decreases,
    remove_below,
    remove_in,
};

verus! {

/// A node that owns its children, kept in insertion order.
#[derive(Debug)]
pub struct TreeNode {
    pub id: String,
    pub data: String,
    pub children: Vec<TreeNode>,
}

/// The values of a sequence of nodes.
pub open spec fn view_nodes(s: Seq<TreeNode>) -> Seq<NodeModel>
    decreases s,
{
    Seq::new(
        s.len(),
        |i: int|
            if 0 <= i < s.len() {
                view_node(s[i])
            } else {
                NodeModel { id: Seq::empty(), data: Seq::empty(), children: Seq::empty() }
            },
    )
}

/// The value of a node.
pub open spec fn view_node(n: TreeNode) -> NodeModel
    decreases n,
{
    NodeModel { id: n.id@, data: n.data@, children: view_nodes(n.children@) }
}

/// The value of a node that may be absent.
pub open spec fn view_opt(o: Option<TreeNode>) -> Option<NodeModel> {
    match o {
        Some(n) => Some(n@),
        None => None,
    }
}

impl View for TreeNode {
    type V = NodeModel;

    open spec fn view(&self) -> NodeModel {
        view_node(*self)
    }
}

/// The node with key `id` and payload `data`, without children.
pub fn new_leaf(id: &String, data: &String) -> (r: TreeNode)
    ensures
        r@ == leaf(id@, data@),
{
    let r = TreeNode { id: id.clone(), data: data.clone(), children: Vec::new() };
    assert(r@.children =~= Seq::<NodeModel>::empty());
    r
}

/// A copy of `n` and its whole subtree.
pub fn copy_node(n: &TreeNode) -> (r: TreeNode)
    ensures
        r@ == n@,
    decreases n,
{
    let mut children: Vec<TreeNode> = Vec::new();
    let mut i: usize = 0;
    while i < n.children.len()
        invariant
            0 <= i <= n.children.len(),
            children@.len() == i,
            forall|k: int| 0 <= k < i ==> (#[trigger] children@[k])@ == n.children@[k]@,
        decreases n.children.len() - i,
    {
        let c = copy_node(&n.children[i]);
        children.push(c);
        i += 1;
    }
    let r = TreeNode { id: n.id.clone(), data: n.data.clone(), children };
    assert(r@.children =~= n@.children);
    r
}

/// The first node of `node`, in pre-order, whose key is `id`.
pub fn find_first<'a>(node: &'a TreeNode, id: &String) -> (r: Option<&'a TreeNode>)
    ensures
        find(node@, id@) == match r {
            Some(m) => Some(m@),
            None => None,
        },
    decreases node,
{
    if node.id == *id {
        return Some(node);
    }
    let mut i: usize = 0;
    assert(node@.children.subrange(0, node@.children.len() as int) =~= node@.children);
    while i < node.children.len()
        invariant
            0 <= i <= node.children.len(),
            node@.id != id@,
            find_in(node@.children, id@) == find_in(
                node@.children.subrange(i as int, node@.children.len() as int),
                id@,
            ),
        decreases node.children.len() - i,
    {
        let ghost rest = node@.children.subrange(i as int, node@.children.len() as int);
        assert(rest.drop_first() =~= node@.children.subrange(i + 1, node@.children.len() as int));
        match find_first(&node.children[i], id) {
            Some(m) => {
                return Some(m);
            },
            None => {},
        }
        i += 1;
    }
    None
}

/// Appends a new leaf with key `cid` and payload `cdata` as the last child of the first node
/// of `node`, in pre-order, whose key is `pid`; leaves `node` as it was where there is none.
pub fn append_first(node: &mut TreeNode, pid: &String, cid: &String, cdata: &String) -> (r: bool)
    ensures
        r == contains(old(node)@, pid@),
        final(node)@ == if r {
            append_under(old(node)@, pid@, leaf(cid@, cdata@))
        } else {
            old(node)@
        },
    decreases old(node)@,
{
    let ghost c = leaf(cid@, cdata@);
    let ghost t0 = node@;
    if node.id == *pid {
        node.children.push(new_leaf(cid, cdata));
        assert(node@.children =~= old(node)@.children.push(c));
        return true;
    }
    let ghost s0 = t0.children;
    let ghost len = s0.len() as int;
    assert(s0.subrange(0, len) =~= s0);
    assert(s0.subrange(0, 0) + append_in(s0.subrange(0, len), pid@, c) =~= append_in(
        s0,
        pid@,
        c,
    ));
    let mut i: usize = 0;
    while i < node.children.len()
        invariant
            0 <= i <= node.children.len(),
            node.children@.len() == len,
            s0.len() == len,
            s0 == t0.children,
            t0 == old(node)@,
            c == leaf(cid@, cdata@),
            node.id@ == t0.id,
            node.data@ == t0.data,
            view_nodes(node.children@) == s0,
            t0.id != pid@,
            find_in(s0, pid@) == find_in(s0.subrange(i as int, len), pid@),
            append_in(s0, pid@, c) == s0.subrange(0, i as int) + append_in(
                s0.subrange(i as int, len),
                pid@,
                c,
            ),
        decreases len - i,
    {
        let ghost rest = s0.subrange(i as int, len);
        assert(rest.drop_first() =~= s0.subrange(i + 1, len));
        assert(rest[0] == s0[i as int]);
        proof {
            lemma_child_decreases(t0, i as int);
        }
        let found = append_first(&mut node.children[i], pid, cid, cdata);
        assert(node@.children =~= s0.update(i as int, node.children@[i as int]@));
        if found {
            let ghost x = append_under(s0[i as int], pid@, c);
            assert(append_in(rest, pid@, c) == rest.update(0, x));
            assert(s0.subrange(0, i as int) + rest.update(0, x) =~= s0.update(i as int, x));
            assert(append_in(s0, pid@, c) =~= node@.children);
            return true;
        }
        assert(node@.children =~= s0);
        assert(s0.subrange(0, i as int) + seq![s0[i as int]] =~= s0.subrange(0, i + 1));
        assert(s0.subrange(0, i as int) + append_in(rest, pid@, c) =~= s0.subrange(0, i + 1)
            + append_in(s0.subrange(i + 1, len), pid@, c));
        i += 1;
    }
    false
}


/// Removes the subtree of the first proper descendant of `node`, in pre-order, whose key is
/// `id`; leaves `node` as it was where there is none.
pub fn remove_first_below(node: &mut TreeNode, id: &String) -> (r: bool)
    ensures
        r == find_in(old(node)@.children, id@) is Some,
        final(node)@ == if r {
            remove_below(old(node)@, id@)
        } else {
            old(node)@
        },
    decreases old(node)@,
{
    let ghost t0 = node@;
    let ghost s0 = t0.children;
    let ghost len = s0.len() as int;
    assert(s0.subrange(0, len) =~= s0);
    assert(s0.subrange(0, 0) + remove_in(s0.subrange(0, len), id@) =~= remove_in(s0, id@));
    let mut i: usize = 0;
    while i < node.children.len()
        invariant
            0 <= i <= node.children.len(),
            node.children@.len() == len,
            s0.len() == len,
            s0 == t0.children,
            t0 == old(node)@,
            node.id@ == t0.id,
            node.data@ == t0.data,
            view_nodes(node.children@) == s0,
            find_in(s0, id@) == find_in(s0.subrange(i as int, len), id@),
            remove_in(s0, id@) == s0.subrange(0, i as int) + remove_in(
                s0.subrange(i as int, len),
                id@,
            ),
        decreases len - i,
    {
        let ghost rest = s0.subrange(i as int, len);
        assert(rest.drop_first() =~= s0.subrange(i + 1, len));
        assert(rest[0] == s0[i as int]);
        if node.children[i].id == *id {
            node.children.remove(i);
            assert(node@.children =~= s0.remove(i as int));
            assert(s0.subrange(0, i as int) + rest.drop_first() =~= s0.remove(i as int));
            return true;
        }
        proof {
            lemma_child_decreases(t0, i as int);
        }
        let found = remove_first_below(&mut node.children[i], id);
        assert(node@.children =~= s0.update(i as int, node.children@[i as int]@));
        if found {
            let ghost x = remove_below(s0[i as int], id@);
            assert(remove_in(rest, id@) == rest.update(0, x));
            assert(s0.subrange(0, i as int) + rest.update(0, x) =~= s0.update(i as int, x));
            return true;
        }
        assert(node@.children =~= s0);
        assert(s0.subrange(0, i as int) + seq![s0[i as int]] =~= s0.subrange(0, i + 1));
        assert(s0.subrange(0, i as int) + remove_in(rest, id@) =~= s0.subrange(0, i + 1)
            + remove_in(s0.subrange(i + 1, len), id@));
        i += 1;
    }
    false
}

} // verus!
