use toolbox::binary_search_tree::{BinarySearchTree, TreeNode};

fn sample() -> BinarySearchTree {
    let mut tree = BinarySearchTree::new();
    for value in [50, 30, 70, 20, 40, 60, 80] {
        tree.insert(value);
    }
    tree
}

#[test]
fn empty_tree() {
    let tree = BinarySearchTree::new();
    assert!(tree.is_empty());
    assert_eq!(tree.size(), 0);
    assert_eq!(tree.height(), 0);
    assert_eq!(tree.find_min(), None);
    assert_eq!(tree.find_max(), None);
    assert!(!tree.search(&1));
    assert_eq!(tree.inorder_traversal(), Vec::<i32>::new());
    let node = TreeNode::new(7);
    assert_eq!(node.value, 7);
    assert!(node.left.is_none() && node.right.is_none());
}

#[test]
fn traversals_follow_the_shape() {
    let tree = sample();
    assert_eq!(tree.inorder_traversal(), vec![20, 30, 40, 50, 60, 70, 80]);
    assert_eq!(tree.preorder_traversal(), vec![50, 30, 20, 40, 70, 60, 80]);
    assert_eq!(tree.postorder_traversal(), vec![20, 40, 30, 60, 80, 70, 50]);
    assert_eq!(tree.height(), 3);
    assert_eq!(tree.size(), 7);
    assert!(!tree.is_empty());
    assert_eq!(tree.find_min(), Some(&20));
    assert_eq!(tree.find_max(), Some(&80));
}

#[test]
fn search_finds_what_was_put_in() {
    let tree = sample();
    for value in [50, 30, 70, 20, 40, 60, 80] {
        assert!(tree.search(&value));
    }
    for value in [10, 35, 55, 90, i32::MIN, i32::MAX] {
        assert!(!tree.search(&value));
    }
}

#[test]
fn a_value_put_in_twice_stands_once_and_counts_twice() {
    let mut tree = sample();
    tree.insert(40);
    assert_eq!(tree.inorder_traversal(), vec![20, 30, 40, 50, 60, 70, 80]);
    assert_eq!(tree.size(), 8);
}

#[test]
fn delete_takes_leaves_and_inner_nodes_out() {
    let mut tree = sample();
    assert!(!tree.delete(&55));
    assert_eq!(tree.size(), 7);
    assert!(tree.delete(&20));
    assert_eq!(tree.preorder_traversal(), vec![50, 30, 40, 70, 60, 80]);
    assert!(tree.delete(&30));
    assert_eq!(tree.preorder_traversal(), vec![50, 40, 70, 60, 80]);
    assert!(tree.delete(&50));
    assert_eq!(tree.preorder_traversal(), vec![60, 40, 70, 80]);
    assert_eq!(tree.inorder_traversal(), vec![40, 60, 70, 80]);
    assert_eq!(tree.size(), 4);
    assert!(!tree.search(&50));
    assert!(tree.delete(&70));
    assert!(tree.delete(&80));
    assert!(tree.delete(&60));
    assert!(tree.delete(&40));
    assert!(tree.is_empty());
    assert_eq!(tree.size(), 0);
    assert!(!tree.delete(&40));
}

#[test]
fn a_sorted_run_makes_a_chain() {
    let mut tree = BinarySearchTree::new();
    for value in 1..=10 {
        tree.insert(value);
    }
    assert_eq!(tree.height(), 10);
    assert_eq!(tree.find_min(), Some(&1));
    assert_eq!(tree.find_max(), Some(&10));
    assert_eq!(tree.postorder_traversal(), vec![10, 9, 8, 7, 6, 5, 4, 3, 2, 1]);
}

#[test]
fn helpers_work_on_bare_nodes() {
    let node = BinarySearchTree::insert_recursive(None, 5);
    let node = BinarySearchTree::insert_recursive(node, 3);
    let node = BinarySearchTree::insert_recursive(node, 8);
    assert!(BinarySearchTree::search_recursive(&node, &8));
    assert_eq!(BinarySearchTree::height_recursive(&node), 2);
    assert_eq!(BinarySearchTree::find_min_recursive(&node), Some(&3));
    assert_eq!(BinarySearchTree::find_max_recursive(&node), Some(&8));
    let mut walk = vec![0];
    BinarySearchTree::inorder_recursive(&node, &mut walk);
    BinarySearchTree::preorder_recursive(&node, &mut walk);
    BinarySearchTree::postorder_recursive(&node, &mut walk);
    assert_eq!(walk, vec![0, 3, 5, 8, 5, 3, 8, 3, 8, 5]);
    let (least, rest) = BinarySearchTree::extract_min(node);
    assert_eq!(least, 3);
    let (rest, deleted) = BinarySearchTree::delete_recursive(rest, &5);
    assert!(deleted);
    let (rest, deleted) = BinarySearchTree::delete_recursive(rest, &5);
    assert!(!deleted);
    assert_eq!(rest.unwrap().value, 8);
}

#[test]
fn the_tree_is_shown_level_by_level() {
    let empty = BinarySearchTree::new();
    assert_eq!(empty.display_tree(), vec!["Tree is empty"]);
    let mut tree = BinarySearchTree::new();
    for value in [50, 30, 70, -20] {
        tree.insert(value);
    }
    assert_eq!(
        tree.display_tree(),
        vec![
            "Tree structure:",
            "Root: 50",
            "  L--- 30",
            "    L--- -20",
            "  R--- 70"
        ]
    );
}
