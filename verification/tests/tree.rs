//! The arena and its cursor.
use markdown::tree::Tree;

#[test]
fn new_tree_is_empty() {
    let tree: Tree<u32> = Tree::new();
    assert!(tree.nodes.is_empty());
    assert!(tree.ancestors.is_empty());
    assert_eq!(tree.current, None);
    let tree: Tree<u32> = Tree::default();
    assert!(tree.nodes.is_empty());
    assert_eq!(tree.current, None);
}

#[test]
fn append_links_siblings() {
    let mut tree = Tree::new();
    tree.append(10);
    assert_eq!(tree.current, Some(0));
    tree.append(20);
    assert_eq!(tree.current, Some(1));
    assert_eq!(tree.nodes.len(), 2);
    assert_eq!(tree.nodes[0].next, Some(1));
    assert_eq!(tree.nodes[0].child, None);
    assert_eq!(tree.nodes[0].item, 10);
    assert_eq!(tree.nodes[1].next, None);
    assert_eq!(tree.nodes[1].item, 20);
}

#[test]
fn append_after_descent_links_first_child() {
    let mut tree = Tree::new();
    tree.append(1);
    tree.go_to_child();
    assert_eq!(tree.current, None);
    assert_eq!(tree.ancestors, vec![0]);
    tree.append(2);
    assert_eq!(tree.nodes[0].child, Some(1));
    assert_eq!(tree.nodes[0].next, None);
    tree.append(3);
    assert_eq!(tree.nodes[1].next, Some(2));
    tree.go_to_parent();
    assert_eq!(tree.current, Some(0));
    assert!(tree.ancestors.is_empty());
    tree.append(4);
    assert_eq!(tree.nodes[0].next, Some(3));
    assert_eq!(tree.nodes[0].child, Some(1));
}

#[test]
fn cursor_moves_along_the_links() {
    let mut tree = Tree::new();
    tree.append('a');
    tree.go_to_child();
    tree.append('b');
    tree.append('c');
    tree.go_to_parent();
    tree.append('d');
    tree.go_to_first();
    assert_eq!(tree.current, Some(0));
    tree.go_to_child();
    assert_eq!(tree.current, Some(1));
    assert_eq!(tree.ancestors, vec![0]);
    tree.go_to_next_sibling();
    assert_eq!(tree.current, Some(2));
    tree.go_to_next_sibling();
    assert_eq!(tree.current, None);
    tree.go_to_parent();
    assert_eq!(tree.current, Some(0));
    tree.go_to_next_sibling();
    assert_eq!(tree.current, Some(3));
    tree.go_to_next_sibling();
    assert_eq!(tree.current, None);
    tree.go_to_parent();
    assert_eq!(tree.current, None);
}

#[test]
fn go_to_first_on_an_empty_tree() {
    let mut tree: Tree<u8> = Tree::new();
    tree.go_to_first();
    assert_eq!(tree.current, None);
}
