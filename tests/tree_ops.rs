use node_tree::node::TreeNode;
use node_tree::tree::NodeTree;

/// Renders a node and its subtree as `id:data(child,child)`.
fn shape(n: &TreeNode) -> String {
    let mut s = format!("{}:{}", n.id, n.data);
    if !n.children.is_empty() {
        let parts: Vec<String> = n.children.iter().map(shape).collect();
        s.push('(');
        s.push_str(&parts.join(","));
        s.push(')');
    }
    s
}

fn sample() -> NodeTree {
    let mut t = NodeTree::new();
    t.set_root("A", "root");
    assert!(t.add_child("A", "B", "b1"));
    assert!(t.add_child("A", "C", "c1"));
    assert!(t.add_child("B", "D", "d1"));
    t
}

#[test]
fn new_tree_is_empty() {
    let t = NodeTree::new();
    assert!(t.get_tree().is_none());
    assert!(t.find_node("A").is_none());
    assert!(t.find_node("").is_none());
}

#[test]
fn set_root_then_find() {
    let mut t = NodeTree::new();
    t.set_root("root", "payload");
    let n = t.find_node("root").unwrap();
    assert_eq!(n.id, "root");
    assert_eq!(n.data, "payload");
    assert!(n.children.is_empty());
}

#[test]
fn set_root_replaces_tree() {
    let mut t = sample();
    t.set_root("X", "x");
    assert!(t.find_node("A").is_none());
    assert!(t.find_node("B").is_none());
    assert_eq!(shape(&t.get_tree().unwrap()), "X:x");
}

#[test]
fn children_keep_insertion_order() {
    let mut t = NodeTree::new();
    t.set_root("P", "p");
    for (k, d) in [("c3", "3"), ("c1", "1"), ("c2", "2")] {
        assert!(t.add_child("P", k, d));
    }
    assert_eq!(shape(&t.find_node("P").unwrap()), "P:p(c3:3,c1:1,c2:2)");
}

#[test]
fn add_child_to_missing_parent() {
    let mut t = sample();
    let before = shape(&t.get_tree().unwrap());
    assert!(!t.add_child("Z", "E", "e1"));
    assert_eq!(shape(&t.get_tree().unwrap()), before);
    for k in ["A", "B", "C", "D"] {
        assert!(t.find_node(k).is_some());
    }
    assert!(t.find_node("E").is_none());
}

#[test]
fn add_child_to_empty_tree() {
    let mut t = NodeTree::new();
    assert!(!t.add_child("A", "B", "b"));
    assert!(t.get_tree().is_none());
}

#[test]
fn add_child_deep() {
    let mut t = sample();
    assert!(t.add_child("D", "E", "e1"));
    assert_eq!(shape(&t.get_tree().unwrap()), "A:root(B:b1(D:d1(E:e1)),C:c1)");
}

#[test]
fn add_child_allows_duplicate_keys_and_uses_first() {
    let mut t = sample();
    assert!(t.add_child("C", "B", "second"));
    assert!(t.add_child("B", "F", "f1"));
    assert_eq!(
        shape(&t.get_tree().unwrap()),
        "A:root(B:b1(D:d1,F:f1),C:c1(B:second))"
    );
    assert_eq!(t.find_node("B").unwrap().data, "b1");
}

#[test]
fn remove_root_empties_tree() {
    let mut t = sample();
    assert!(t.remove_node("A"));
    assert!(t.get_tree().is_none());
    for k in ["A", "B", "C", "D"] {
        assert!(t.find_node(k).is_none());
    }
}

#[test]
fn remove_from_empty_tree() {
    let mut t = NodeTree::new();
    assert!(!t.remove_node("A"));
    assert!(t.get_tree().is_none());
}

#[test]
fn remove_missing_key_leaves_tree() {
    let mut t = sample();
    let before = shape(&t.get_tree().unwrap());
    assert!(!t.remove_node("Q"));
    assert_eq!(shape(&t.get_tree().unwrap()), before);
}

#[test]
fn remove_subtree_keeps_siblings_in_order() {
    let mut t = NodeTree::new();
    t.set_root("R", "r");
    for k in ["a", "b", "c", "d"] {
        assert!(t.add_child("R", k, k));
    }
    assert!(t.add_child("b", "b1", "x"));
    assert!(t.add_child("b1", "b2", "y"));
    assert!(t.remove_node("b"));
    assert!(t.find_node("b").is_none());
    assert!(t.find_node("b1").is_none());
    assert!(t.find_node("b2").is_none());
    assert_eq!(shape(&t.find_node("R").unwrap()), "R:r(a:a,c:c,d:d)");
}

#[test]
fn remove_takes_only_first_of_duplicates() {
    let mut t = NodeTree::new();
    t.set_root("R", "r");
    assert!(t.add_child("R", "x", "1"));
    assert!(t.add_child("R", "y", "2"));
    assert!(t.add_child("y", "x", "3"));
    assert!(t.remove_node("x"));
    assert_eq!(shape(&t.get_tree().unwrap()), "R:r(y:2(x:3))");
    assert!(t.remove_node("x"));
    assert_eq!(shape(&t.get_tree().unwrap()), "R:r(y:2)");
    assert!(!t.remove_node("x"));
}

#[test]
fn concrete_scenario() {
    let mut t = sample();
    assert_eq!(shape(&t.find_node("A").unwrap()), "A:root(B:b1(D:d1),C:c1)");
    assert!(t.remove_node("B"));
    assert!(t.find_node("B").is_none());
    assert!(t.find_node("D").is_none());
    assert_eq!(shape(&t.find_node("A").unwrap()), "A:root(C:c1)");
}

#[test]
fn find_twice_gives_equal_copies() {
    let t = sample();
    let a = t.find_node("B").unwrap();
    let b = t.find_node("B").unwrap();
    assert_eq!(shape(&a), shape(&b));
    assert_eq!(shape(&a), "B:b1(D:d1)");
}

#[test]
fn found_copy_is_detached() {
    let t = sample();
    let mut copy = t.find_node("A").unwrap();
    copy.children.clear();
    copy.id = String::from("changed");
    assert_eq!(shape(&t.find_node("A").unwrap()), "A:root(B:b1(D:d1),C:c1)");
}

#[test]
fn empty_strings_are_ordinary_keys() {
    let mut t = NodeTree::new();
    t.set_root("", "");
    assert!(t.add_child("", "k", ""));
    assert_eq!(shape(&t.find_node("").unwrap()), ":(k:)");
    assert!(t.remove_node("k"));
    assert_eq!(shape(&t.get_tree().unwrap()), ":");
}

#[test]
fn create_node_leaves_tree_alone() {
    let mut t = sample();
    let n = t.create_node("N", "n1");
    assert_eq!(n.id, "N");
    assert_eq!(n.data, "n1");
    assert!(n.children.is_empty());
    assert!(t.find_node("N").is_none());
    assert_eq!(shape(&t.get_tree().unwrap()), "A:root(B:b1(D:d1),C:c1)");
}
