use algorithms::binary_tree::{
    breadth_first_search, compare, depth_first_search, dfs_recursion, in_order_search,
    post_order_search, pre_order_search, BinaryNode, BinaryTree,
};

fn tree() -> BinaryTree<isize> {
    let mut tree = BinaryTree::new();
    tree.set_head(BinaryNode::new(
        20,
        Some(BinaryNode::boxed(
            50,
            Some(BinaryNode::boxed(100, None, None)),
            Some(BinaryNode::boxed(
                30,
                Some(BinaryNode::boxed(45, None, None)),
                Some(BinaryNode::boxed(29, None, None)),
            )),
        )),
        Some(BinaryNode::boxed(
            10,
            Some(BinaryNode::boxed(15, None, None)),
            Some(BinaryNode::boxed(
                5,
                Some(BinaryNode::boxed(7, None, None)),
                None,
            )),
        )),
    ));
    tree
}

fn tree2() -> BinaryTree<isize> {
    let mut tree = BinaryTree::new();
    tree.set_head(BinaryNode::new(
        20,
        Some(BinaryNode::boxed(
            50,
            Some(BinaryNode::boxed(
                30,
                Some(BinaryNode::boxed(
                    45,
                    Some(BinaryNode::boxed(49, None, None)),
                    None,
                )),
                Some(BinaryNode::boxed(
                    29,
                    None,
                    Some(BinaryNode::boxed(21, None, None)),
                )),
            )),
            None,
        )),
        Some(BinaryNode::boxed(
            10,
            Some(BinaryNode::boxed(15, None, None)),
            Some(BinaryNode::boxed(
                5,
                Some(BinaryNode::boxed(7, None, None)),
                None,
            )),
        )),
    ));
    tree
}

fn sorted_tree() -> BinaryTree<isize> {
    let mut tree = BinaryTree::new();
    tree.set_head(BinaryNode::new(
        20,
        Some(BinaryNode::boxed(
            10,
            Some(BinaryNode::boxed(5, None, None)),
            Some(BinaryNode::boxed(15, None, None)),
        )),
        Some(BinaryNode::boxed(
            50,
            Some(BinaryNode::boxed(30, None, None)),
            Some(BinaryNode::boxed(100, None, None)),
        )),
    ));
    tree
}

#[test]
fn test_binary_tree() {
    let tree = tree();
    assert_eq!(
        pre_order_search(tree.clone()),
        vec![20, 50, 100, 30, 45, 29, 10, 15, 5, 7]
    );
    assert_eq!(
        in_order_search(tree.clone()),
        vec![100, 50, 45, 30, 29, 20, 15, 10, 7, 5]
    );
    assert_eq!(
        post_order_search(tree),
        vec![100, 45, 29, 30, 50, 15, 7, 5, 10, 20]
    );
}

#[test]
fn binary_tree_test_bfs() {
    let tree = tree();
    assert_eq!(breadth_first_search(tree.clone(), 45), true);
    assert_eq!(breadth_first_search(tree.clone(), 7), true);
    assert_eq!(breadth_first_search(tree.clone(), 69), false);
}

#[test]
fn test_compare() {
    let tree = tree();
    let tree2 = self::tree();
    assert_eq!(tree, tree2);

    let tree3 = self::tree2();
    assert_ne!(tree, tree3);
}

#[test]
fn test_dfs() {
    let tree = sorted_tree();
    assert_eq!(depth_first_search(tree.clone(), 15), true);
    assert_eq!(depth_first_search(tree.clone(), 7), false);
    assert_eq!(depth_first_search(tree.clone(), 69), false);
}

#[test]
fn binary_tree_empty_tree() {
    let tree: BinaryTree<isize> = BinaryTree::new();
    assert_eq!(pre_order_search(tree.clone()), vec![]);
    assert_eq!(in_order_search(tree.clone()), vec![]);
    assert_eq!(post_order_search(tree.clone()), vec![]);
    assert_eq!(breadth_first_search(tree.clone(), 1), false);
    assert_eq!(depth_first_search(tree.clone(), 1), false);
    assert_eq!(dfs_recursion(None, 1), false);
    assert_eq!(tree, BinaryTree::new());
}

#[test]
fn binary_tree_compare_tells_shape_and_values() {
    let a = Some(BinaryNode::boxed(1, Some(BinaryNode::boxed(2, None, None)), None));
    let b = Some(BinaryNode::boxed(1, None, Some(BinaryNode::boxed(2, None, None))));
    let c = Some(BinaryNode::boxed(1, Some(BinaryNode::boxed(3, None, None)), None));
    assert!(compare(&a, &a.clone()));
    assert!(!compare(&a, &b));
    assert!(!compare(&a, &c));
    assert!(!compare(&a, &None));
    assert!(compare::<isize>(&None, &None));
}

#[test]
fn binary_tree_descent_misses_what_is_out_of_order() {
    // 7 is in the tree, but not where the descent by comparison looks for it
    let tree = tree();
    assert_eq!(breadth_first_search(tree.clone(), 7), true);
    assert_eq!(depth_first_search(tree, 7), false);
}
