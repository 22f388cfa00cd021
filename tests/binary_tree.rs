use ds::binary_tree::{BinaryTree, BinaryTreeNode};

fn sample() -> BinaryTree<i32> {
    BinaryTree {
        root: BinaryTreeNode::Node {
            value: 0,
            children: (
                BinaryTreeNode::Node {
                    value: 1,
                    children: (
                        BinaryTreeNode::new(3).into(),
                        BinaryTreeNode::new(4).into(),
                    ),
                }.into(),
                BinaryTreeNode::new(2).into()
            ),
        }
    }
}

fn collect(tree: &BinaryTree<i32>) -> Vec<i32> {
    let mut out = Vec::new();
    let mut it = tree.dfs();
    while let Some(v) = it.next() {
        out.push(*v);
    }
    out
}

#[test]
fn dfs() {
    let root = sample();

    println!("{:?}", root);

    let mut it = root.dfs();
    while let Some(node) = it.next() {
        println!("{:?}", node);
    }
}

#[test]
fn dfs_order_and_repeat() {
    let tree = sample();
    assert_eq!(collect(&tree), vec![0, 1, 3, 4, 2]);
    assert_eq!(collect(&tree), vec![0, 1, 3, 4, 2]);
}

#[test]
fn dfs_single_node_and_end() {
    let tree = BinaryTree::new(7);
    let mut it = tree.dfs();
    assert_eq!(it.next(), Some(&7));
    assert_eq!(it.next(), None);
    assert_eq!(it.next(), None);
}

#[test]
fn dfs_leaf_root_is_empty() {
    let tree: BinaryTree<i32> = BinaryTree { root: BinaryTreeNode::Leaf };
    assert_eq!(collect(&tree), Vec::<i32>::new());
}

#[test]
fn node_accessors() {
    let tree = sample();
    assert_eq!(tree.root.value(), Some(&0));
    assert_eq!(tree.root.left().value(), Some(&1));
    assert_eq!(tree.root.right().value(), Some(&2));
    assert_eq!(tree.root.left().left().value(), Some(&3));
    assert_eq!(tree.root.left().right().value(), Some(&4));
    let leaf = tree.root.right().left();
    assert_eq!(leaf.value(), None);
    assert_eq!(leaf.left().value(), None);
    assert_eq!(leaf.right().value(), None);
}
