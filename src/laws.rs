//! Properties that relate the tree operations to one another.
use vstd::prelude::*;

use crate::model::{
    NodeModel,
    append_in,
    append_under,
    find,
    find_in,
    leaf,
    remove_below,
    remove_in,
    tree_append,
    tree_find,
    tree_remove,
};
use crate::node::{TreeNode, view_opt};
use vstd::seq_lib::lemma_seq_concat_contains_all_elements;

verus! {

/// A fresh root is found under its own key, with its payload and no children.
pub proof fn lemma_find_after_set_root(id: Seq<char>, data: Seq<char>)
    ensures
        tree_find(Some(leaf(id, data)), id) == Some(leaf(id, data)),
{
}

/// Appending under a key that no node carries leaves the tree, and so every lookup, as it was.
pub proof fn lemma_append_missing_parent(t: Option<NodeModel>, pid: Seq<char>, c: NodeModel)
    requires
        tree_find(t, pid) is None,
    ensures
        tree_append(t, pid, c) == t,
        forall|id: Seq<char>| #[trigger] tree_find(tree_append(t, pid, c), id) == tree_find(t, id),
{
}

/// Removing the root's key empties the tree: afterwards no key is found.
pub proof fn lemma_remove_root(r: NodeModel)
    ensures
        tree_remove(Some(r), r.id) is None,
        forall|id: Seq<char>| #[trigger] tree_find(tree_remove(Some(r), r.id), id) is None,
{
}

/// Two lookups of one key in one tree give structurally equal copies.
pub proof fn lemma_find_repeatable(
    t: Option<NodeModel>,
    id: Seq<char>,
    first: Option<TreeNode>,
    second: Option<TreeNode>,
)
    requires
        view_opt(first) == tree_find(t, id),
        view_opt(second) == tree_find(t, id),
    ensures
        view_opt(first) == view_opt(second),
{
}

/// The first node keyed `pid` stays first after a leaf is appended under it, and gains
/// that leaf as its last child.
pub proof fn lemma_find_after_append(t: NodeModel, pid: Seq<char>, c: NodeModel, p: NodeModel)
    requires
        find(t, pid) == Some(p),
    ensures
        find(append_under(t, pid, c), pid) == Some(
            NodeModel { id: p.id, data: p.data, children: p.children.push(c) },
        ),
    decreases t,
{
    if t.id != pid {
        lemma_find_in_after_append(t.children, pid, c, p);
    }
}

/// Over a sequence of trees, as `lemma_find_after_append` over one.
pub proof fn lemma_find_in_after_append(
    s: Seq<NodeModel>,
    pid: Seq<char>,
    c: NodeModel,
    p: NodeModel,
)
    requires
        find_in(s, pid) == Some(p),
    ensures
        find_in(append_in(s, pid, c), pid) == Some(
            NodeModel { id: p.id, data: p.data, children: p.children.push(c) },
        ),
    decreases s,
{
    if find(s[0], pid) is Some {
        lemma_find_after_append(s[0], pid, c, p);
    } else {
        let rest = append_in(s.drop_first(), pid, c);
        assert((seq![s[0]] + rest).drop_first() =~= rest);
        lemma_find_in_after_append(s.drop_first(), pid, c, p);
    }
}

/// The leaves made from pairs of key and payload, in order.
pub open spec fn leaves(cs: Seq<(Seq<char>, Seq<char>)>) -> Seq<NodeModel> {
    cs.map_values(|kd: (Seq<char>, Seq<char>)| leaf(kd.0, kd.1))
}

/// The tree after appending, one after another, a leaf for each pair of key and payload in
/// `cs` under the first node keyed `pid`.
pub open spec fn append_all(
    t: Option<NodeModel>,
    pid: Seq<char>,
    cs: Seq<(Seq<char>, Seq<char>)>,
) -> Option<NodeModel>
    decreases cs.len(),
{
    if cs.len() == 0 {
        t
    } else {
        append_all(tree_append(t, pid, leaf(cs[0].0, cs[0].1)), pid, cs.drop_first())
    }
}

/// Children appended one after another under an existing node are found under it in the
/// order in which they were appended, after the children it had.
pub proof fn lemma_children_in_order(
    t: Option<NodeModel>,
    pid: Seq<char>,
    cs: Seq<(Seq<char>, Seq<char>)>,
    p: NodeModel,
)
    requires
        tree_find(t, pid) == Some(p),
    ensures
        tree_find(append_all(t, pid, cs), pid) == Some(
            NodeModel { id: p.id, data: p.data, children: p.children + leaves(cs) },
        ),
    decreases cs.len(),
{
    if cs.len() == 0 {
        assert(p.children + leaves(cs) =~= p.children);
    } else {
        let c = leaf(cs[0].0, cs[0].1);
        let r = t->Some_0;
        lemma_find_after_append(r, pid, c, p);
        let p1 = NodeModel { id: p.id, data: p.data, children: p.children.push(c) };
        lemma_children_in_order(tree_append(t, pid, c), pid, cs.drop_first(), p1);
        assert(p1.children + leaves(cs.drop_first()) =~= p.children + leaves(cs));
    }
}

/// The keys of `t` in pre-order.
pub open spec fn keys(t: NodeModel) -> Seq<Seq<char>>
    decreases t,
{
    seq![t.id] + keys_in(t.children)
}

/// The keys of the trees of `s`, each tree in pre-order, the trees in turn.
pub open spec fn keys_in(s: Seq<NodeModel>) -> Seq<Seq<char>>
    decreases s,
{
    if s.len() == 0 {
        Seq::empty()
    } else {
        keys(s[0]) + keys_in(s.drop_first())
    }
}

/// A key is found in a tree exactly when some node of it carries that key.
pub proof fn lemma_found_iff_key(t: NodeModel, k: Seq<char>)
    ensures
        (find(t, k) is Some) == keys(t).contains(k),
    decreases t,
{
    lemma_seq_concat_contains_all_elements(seq![t.id], keys_in(t.children), k);
    assert(seq![t.id].contains(k) == (t.id == k)) by {
        if t.id == k {
            assert(seq![t.id][0] == k);
        }
    }
    lemma_found_in_iff_key(t.children, k);
}

/// Over a sequence of trees, as `lemma_found_iff_key` over one.
pub proof fn lemma_found_in_iff_key(s: Seq<NodeModel>, k: Seq<char>)
    ensures
        (find_in(s, k) is Some) == keys_in(s).contains(k),
    decreases s,
{
    if s.len() > 0 {
        lemma_seq_concat_contains_all_elements(keys(s[0]), keys_in(s.drop_first()), k);
        lemma_found_iff_key(s[0], k);
        lemma_found_in_iff_key(s.drop_first(), k);
    }
}

/// Removing the first proper descendant keyed `id` takes its keys, and only those, out of the
/// keys of `t`: they form one contiguous run.
pub proof fn lemma_keys_after_remove(t: NodeModel, id: Seq<char>, n: NodeModel) -> (ab: (
    Seq<Seq<char>>,
    Seq<Seq<char>>,
))
    requires
        find_in(t.children, id) == Some(n),
    ensures
        keys(t) == ab.0 + keys(n) + ab.1,
        keys(remove_below(t, id)) == ab.0 + ab.1,
    decreases t,
{
    let (a, b) = lemma_keys_in_after_remove(t.children, id, n);
    assert(keys(t) =~= (seq![t.id] + a) + keys(n) + b);
    assert(keys(remove_below(t, id)) =~= (seq![t.id] + a) + b);
    (seq![t.id] + a, b)
}

/// Over a sequence of trees, as `lemma_keys_after_remove` over one.
pub proof fn lemma_keys_in_after_remove(s: Seq<NodeModel>, id: Seq<char>, n: NodeModel) -> (ab: (
    Seq<Seq<char>>,
    Seq<Seq<char>>,
))
    requires
        find_in(s, id) == Some(n),
    ensures
        keys_in(s) == ab.0 + keys(n) + ab.1,
        keys_in(remove_in(s, id)) == ab.0 + ab.1,
    decreases s,
{
    let rest = s.drop_first();
    if s[0].id == id {
        assert(keys_in(s) =~= Seq::empty() + keys(n) + keys_in(rest));
        assert(keys_in(remove_in(s, id)) =~= Seq::empty() + keys_in(rest));
        (Seq::empty(), keys_in(rest))
    } else if find(s[0], id) is Some {
        let (a, b) = lemma_keys_after_remove(s[0], id, n);
        let u = s.update(0, remove_below(s[0], id));
        assert(u.drop_first() =~= rest);
        assert(keys_in(s) =~= a + keys(n) + (b + keys_in(rest)));
        assert(keys_in(u) =~= a + (b + keys_in(rest)));
        (a, b + keys_in(rest))
    } else {
        let (a, b) = lemma_keys_in_after_remove(rest, id, n);
        let u = seq![s[0]] + remove_in(rest, id);
        assert(u.drop_first() =~= remove_in(rest, id));
        assert(keys_in(s) =~= (keys(s[0]) + a) + keys(n) + b);
        assert(keys_in(u) =~= (keys(s[0]) + a) + b);
        (keys(s[0]) + a, b)
    }
}

/// Where `a + m + b` has no repeated element, no element of `m` occurs in `a + b`.
proof fn lemma_middle_disjoint(a: Seq<Seq<char>>, m: Seq<Seq<char>>, b: Seq<Seq<char>>, x: Seq<char>)
    requires
        (a + m + b).no_duplicates(),
        m.contains(x),
    ensures
        !(a + b).contains(x),
{
    let all = a + m + b;
    let im = choose|i: int| 0 <= i < m.len() && m[i] == x;
    assert(all[a.len() + im] == x);
    if (a + b).contains(x) {
        let i = choose|i: int| 0 <= i < (a + b).len() && (a + b)[i] == x;
        if i < a.len() {
            assert(all[i] == x);
        } else {
            assert(all[m.len() + i] == x);
        }
    }
}

/// In a tree whose keys are distinct, removing a node other than the root takes out exactly
/// that node and its descendants: none of their keys is found afterwards, and every other
/// key still is.
pub proof fn lemma_remove_subtree(r: NodeModel, id: Seq<char>, n: NodeModel)
    requires
        keys(r).no_duplicates(),
        r.id != id,
        find(r, id) == Some(n),
    ensures
        forall|k: Seq<char>|
            #![trigger keys(n).contains(k)]
            keys(n).contains(k) ==> tree_find(tree_remove(Some(r), id), k) is None,
        forall|k: Seq<char>|
            #![trigger keys(r).contains(k)]
            keys(r).contains(k) && !keys(n).contains(k) ==> tree_find(
                tree_remove(Some(r), id),
                k,
            ) is Some,
{
    let (a, b) = lemma_keys_after_remove(r, id, n);
    let r2 = remove_below(r, id);
    assert(tree_remove(Some(r), id) == Some(r2));
    assert forall|k: Seq<char>| keys(n).contains(k) implies tree_find(Some(r2), k) is None by {
        lemma_middle_disjoint(a, keys(n), b, k);
        lemma_found_iff_key(r2, k);
    }
    assert forall|k: Seq<char>| keys(r).contains(k) && !keys(n).contains(k) implies tree_find(
        Some(r2),
        k,
    ) is Some by {
        lemma_seq_concat_contains_all_elements(a + keys(n), b, k);
        lemma_seq_concat_contains_all_elements(a, keys(n), k);
        lemma_seq_concat_contains_all_elements(a, b, k);
        lemma_found_iff_key(r2, k);
    }
}

/// A key of a node that a lookup in `t` reaches is a key of `t`.
proof fn lemma_found_keys(t: NodeModel, x: Seq<char>, p: NodeModel, y: Seq<char>)
    requires
        find(t, x) == Some(p),
        keys(p).contains(y),
    ensures
        keys(t).contains(y),
    decreases t,
{
    if t.id != x {
        lemma_found_in_keys(t.children, x, p, y);
        lemma_seq_concat_contains_all_elements(seq![t.id], keys_in(t.children), y);
    }
}

/// Over a sequence of trees, as `lemma_found_keys` over one.
proof fn lemma_found_in_keys(s: Seq<NodeModel>, x: Seq<char>, p: NodeModel, y: Seq<char>)
    requires
        find_in(s, x) == Some(p),
        keys(p).contains(y),
    ensures
        keys_in(s).contains(y),
    decreases s,
{
    lemma_seq_concat_contains_all_elements(keys(s[0]), keys_in(s.drop_first()), y);
    if find(s[0], x) is Some {
        lemma_found_keys(s[0], x, p, y);
    } else {
        lemma_found_in_keys(s.drop_first(), x, p, y);
    }
}

/// The keys of each tree of `s` are keys of `s`.
proof fn lemma_member_keys(s: Seq<NodeModel>, j: int, y: Seq<char>)
    requires
        0 <= j < s.len(),
        keys(s[j]).contains(y),
    ensures
        keys_in(s).contains(y),
    decreases j,
{
    lemma_seq_concat_contains_all_elements(keys(s[0]), keys_in(s.drop_first()), y);
    if j > 0 {
        lemma_member_keys(s.drop_first(), j - 1, y);
    }
}

/// The key of a child is a key of its parent.
proof fn lemma_child_key(p: NodeModel, j: int)
    requires
        0 <= j < p.children.len(),
    ensures
        keys(p).contains(p.children[j].id),
{
    let c = p.children[j];
    assert(keys(c)[0] == c.id);
    lemma_member_keys(p.children, j, c.id);
    lemma_seq_concat_contains_all_elements(seq![p.id], keys_in(p.children), c.id);
}

/// Where `a + b` has no repeated element, neither part has one, and they share none.
proof fn lemma_split_distinct(a: Seq<Seq<char>>, b: Seq<Seq<char>>)
    requires
        (a + b).no_duplicates(),
    ensures
        a.no_duplicates(),
        b.no_duplicates(),
        forall|x: Seq<char>| #[trigger] a.contains(x) ==> !b.contains(x),
{
    let all = a + b;
    assert forall|i: int, j: int| 0 <= i < b.len() && 0 <= j < b.len() && i != j implies b[i]
        != b[j] by {
        assert(all[a.len() + i] == b[i]);
        assert(all[a.len() + j] == b[j]);
    }
    assert forall|i: int, j: int| 0 <= i < a.len() && 0 <= j < a.len() && i != j implies a[i]
        != a[j] by {
        assert(all[i] == a[i]);
        assert(all[j] == a[j]);
    }
    assert forall|x: Seq<char>| #[trigger] a.contains(x) implies !b.contains(x) by {
        let i = choose|i: int| 0 <= i < a.len() && a[i] == x;
        if b.contains(x) {
            let j = choose|j: int| 0 <= j < b.len() && b[j] == x;
            assert(all[i] == x);
            assert(all[a.len() + j] == x);
        }
    }
}

/// Among trees with distinct keys, removing the key of tree `j` removes that tree alone.
proof fn lemma_remove_member(s: Seq<NodeModel>, j: int)
    requires
        keys_in(s).no_duplicates(),
        0 <= j < s.len(),
    ensures
        remove_in(s, s[j].id) == s.remove(j),
        find_in(s, s[j].id) is Some,
    decreases j,
{
    let id = s[j].id;
    let rest = s.drop_first();
    if j == 0 {
        assert(s.drop_first() =~= s.remove(0));
    } else {
        lemma_split_distinct(keys(s[0]), keys_in(rest));
        assert(keys(rest[j - 1])[0] == id);
        lemma_member_keys(rest, j - 1, id);
        assert(keys(s[0])[0] == s[0].id);
        lemma_found_iff_key(s[0], id);
        lemma_remove_member(rest, j - 1);
        assert(seq![s[0]] + rest.remove(j - 1) =~= s.remove(j));
    }
}

/// In a tree with distinct keys, removing a proper descendant keyed `p.children[j].id` of a
/// node `p` that a lookup reaches leaves that lookup reaching `p` without child `j`.
proof fn lemma_parent_after_remove(t: NodeModel, p: NodeModel, j: int)
    requires
        keys(t).no_duplicates(),
        find(t, p.id) == Some(p),
        0 <= j < p.children.len(),
        t.id != p.children[j].id,
    ensures
        find_in(t.children, p.children[j].id) is Some,
        find(remove_below(t, p.children[j].id), p.id) == Some(
            NodeModel { id: p.id, data: p.data, children: p.children.remove(j) },
        ),
    decreases t,
{
    lemma_split_distinct(seq![t.id], keys_in(t.children));
    if t.id == p.id {
        lemma_remove_member(t.children, j);
    } else {
        lemma_parent_in_after_remove(t.children, p, j);
    }
}

/// Over a sequence of trees, as `lemma_parent_after_remove` over one.
proof fn lemma_parent_in_after_remove(s: Seq<NodeModel>, p: NodeModel, j: int)
    requires
        keys_in(s).no_duplicates(),
        find_in(s, p.id) == Some(p),
        0 <= j < p.children.len(),
    ensures
        find_in(s, p.children[j].id) is Some,
        find_in(remove_in(s, p.children[j].id), p.id) == Some(
            NodeModel { id: p.id, data: p.data, children: p.children.remove(j) },
        ),
    decreases s,
{
    let id = p.children[j].id;
    let s0 = s[0];
    let rest = s.drop_first();
    lemma_split_distinct(keys(s0), keys_in(rest));
    lemma_child_key(p, j);
    assert(keys(s0)[0] == s0.id);
    if find(s0, p.id) is Some {
        lemma_found_keys(s0, p.id, p, id);
        lemma_split_distinct(seq![s0.id], keys_in(s0.children));
        if s0.id == id {
            if s0.id == p.id {
                assert(keys(p.children[j])[0] == id);
                assert(keys(p.children[j]).contains(id));
                lemma_member_keys(s0.children, j, id);
            } else {
                lemma_found_in_keys(s0.children, p.id, p, id);
            }
            assert(seq![s0.id][0] == id);
            assert(seq![s0.id].contains(id));
        }
        lemma_found_iff_key(s0, id);
        lemma_parent_after_remove(s0, p, j);
    } else {
        lemma_found_in_keys(rest, p.id, p, id);
        lemma_found_iff_key(s0, id);
        lemma_parent_in_after_remove(rest, p, j);
        let u = seq![s0] + remove_in(rest, id);
        assert(u.drop_first() =~= remove_in(rest, id));
    }
}

/// In a tree whose keys are distinct, removing a node other than the root drops it from the
/// children of its parent, and leaves the parent's other children as they were, in their order.
pub proof fn lemma_remove_from_parent(r: NodeModel, p: NodeModel, j: int)
    requires
        keys(r).no_duplicates(),
        find(r, p.id) == Some(p),
        0 <= j < p.children.len(),
        r.id != p.children[j].id,
    ensures
        tree_find(tree_remove(Some(r), p.children[j].id), p.id) == Some(
            NodeModel { id: p.id, data: p.data, children: p.children.remove(j) },
        ),
{
    lemma_parent_after_remove(r, p, j);
}

} // verus!
