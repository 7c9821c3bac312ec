//! The tree as a whole: a root that may be absent, and the operations on it.
use vstd::prelude::*;

use crate::model::{NodeModel, leaf, tree_append, tree_find, tree_remove};
use crate::node::{
    TreeNode,
    append_first,
    copy_node,
    find_first,
    new_leaf,
    remove_first_below,
    view_opt,
};

verus! {

/// A single ordered tree, empty or with a root. Every query hands out a copy, never a
/// reference into the tree.
pub struct NodeTree {
    root: Option<TreeNode>,
}

impl View for NodeTree {
    type V = Option<NodeModel>;

    closed spec fn view(&self) -> Option<NodeModel> {
        view_opt(self.root)
    }
}

impl NodeTree {
    /// An empty tree.
    pub fn new() -> (r: NodeTree)
        ensures
            r@ is None,
    {
        NodeTree { root: None }
    }

    /// A detached node with key `id`, payload `data` and no children; the tree is untouched.
    pub fn create_node(&mut self, id: &str, data: &str) -> (r: TreeNode)
        ensures
            r@ == leaf(id@, data@),
            final(self)@ == old(self)@,
    {
        new_leaf(&id.to_owned(), &data.to_owned())
    }

    /// Appends a leaf with key `child_id` and payload `child_data` as the last child of the
    /// first node, in pre-order, whose key is `parent_id`. Returns whether there was such a
    /// node; where there was none, the tree is unchanged.
    pub fn add_child(&mut self, parent_id: &str, child_id: &str, child_data: &str) -> (r: bool)
        ensures
            r == tree_find(old(self)@, parent_id@) is Some,
            final(self)@ == tree_append(old(self)@, parent_id@, leaf(child_id@, child_data@)),
    {
        let pid = parent_id.to_owned();
        let cid = child_id.to_owned();
        let cdata = child_data.to_owned();
        match &mut self.root {
            Some(root) => append_first(root, &pid, &cid, &cdata),
            None => false,
        }
    }

    /// Replaces the whole tree by a single root with key `id` and payload `data`.
    pub fn set_root(&mut self, id: &str, data: &str)
        ensures
            final(self)@ == Some(leaf(id@, data@)),
    {
        self.root = Some(new_leaf(&id.to_owned(), &data.to_owned()));
    }

    /// A copy of the whole tree, or `None` where it is empty.
    pub fn get_tree(&self) -> (r: Option<TreeNode>)
        ensures
            view_opt(r) == self@,
    {
        match &self.root {
            Some(root) => Some(copy_node(root)),
            None => None,
        }
    }

    /// A copy of the first node, in pre-order, whose key is `id`, with its whole subtree;
    /// `None` where there is no such node.
    pub fn find_node(&self, id: &str) -> (r: Option<TreeNode>)
        ensures
            view_opt(r) == tree_find(self@, id@),
    {
        let key = id.to_owned();
        match &self.root {
            Some(root) => match find_first(root, &key) {
                Some(n) => Some(copy_node(n)),
                None => None,
            },
            None => None,
        }
    }

    /// Removes the first node, in pre-order, whose key is `id`, with its whole subtree: the
    /// tree becomes empty where that node is the root. At most one node is taken out, even
    /// where several share the key. Returns whether there was such a node; where there was
    /// none, the tree is unchanged.
    pub fn remove_node(&mut self, id: &str) -> (r: bool)
        ensures
            r == tree_find(old(self)@, id@) is Some,
            final(self)@ == tree_remove(old(self)@, id@),
    {
        let key = id.to_owned();
        let at_root = match &self.root {
            Some(root) => root.id == key,
            None => false,
        };
        if at_root {
            self.root = None;
            return true;
        }
        match &mut self.root {
            Some(root) => remove_first_below(root, &key),
            None => false,
        }
    }
}

} // verus!
