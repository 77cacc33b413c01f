//! Levels, interning, and DAG sizes over hand-built subtrees.

use a_tree::atree::ATree;
use a_tree::nodes::add_children;
use a_tree::nodes::InnerNode;
use a_tree::nodes::LeafNode;
use a_tree::nodes::NodeType;
use a_tree::nodes::RootNode;
use a_tree::nodes::RootNodeBuilder;

#[test]
fn calculate_level_for_three_nodes() {
    let leaf = NodeType::new_leaf(LeafNode::new(1));

    let mut inner = NodeType::new_inner(InnerNode::and());
    add_children(&mut inner, leaf);

    let mut root = NodeType::new_root(RootNode::and());
    add_children(&mut root, inner);

    let _ = root.get_children().unwrap();

    assert_eq!(root.get_level(0), 3);
}

#[test]
fn calculate_level_for_a_depth_of_four() {
    let leaf = NodeType::new_leaf(LeafNode::new(1));

    let mut inner = NodeType::new_inner(InnerNode::and());
    add_children(&mut inner, leaf);

    let leaf_two = NodeType::new_leaf(LeafNode::new(2));

    let mut inner_two = NodeType::new_inner(InnerNode::and());
    add_children(&mut inner_two, leaf_two);

    add_children(&mut inner, inner_two);

    let mut root = NodeType::new_root(RootNode::and());
    add_children(&mut root, inner);

    let _ = root.get_children().unwrap();

    assert_eq!(root.get_level(0), 4);
}

#[test]
fn insert_three_nodes() {
    let mut tree = ATree::new();
    {
        let leaf = NodeType::new_leaf(LeafNode::new(1));

        let mut inner = NodeType::new_inner(InnerNode::and());
        add_children(&mut inner, leaf);

        let mut root = NodeType::new_root(RootNode::and());
        add_children(&mut root, inner);

        tree.insert(&root);
    }

    assert_eq!(1, tree.len())
}

#[test]
fn insert_two_nodes() {
    let mut tree = ATree::new();
    {
        let leaf = NodeType::new_leaf(LeafNode::new(1));
        let leaf_two = NodeType::new_leaf(LeafNode::new(2));

        let mut root = NodeType::new_root(RootNode::and());
        add_children(&mut root, leaf);
        add_children(&mut root, leaf_two);

        tree.insert(&root);
    }

    assert_eq!(3, tree.len());
    assert_eq!(2, tree.get_m());
}

#[test]
fn insert_two_same_root_nodes() {
    let mut tree = ATree::new();
    {
        let leaf = NodeType::new_leaf(LeafNode::new(1));
        let leaf_two = NodeType::new_leaf(LeafNode::new(2));

        let mut inner = NodeType::new_inner(InnerNode::and());
        add_children(&mut inner, leaf);
        add_children(&mut inner, leaf_two);

        let mut root = NodeType::new_root(RootNode::and());
        add_children(&mut root, inner);

        tree.insert(&root);
    }

    {
        let leaf = NodeType::new_leaf(LeafNode::new(1));
        let leaf_two = NodeType::new_leaf(LeafNode::new(2));

        let mut inner = NodeType::new_inner(InnerNode::and());
        add_children(&mut inner, leaf);
        add_children(&mut inner, leaf_two);

        let mut root = NodeType::new_root(RootNode::and());
        add_children(&mut root, inner);

        tree.insert(&root);
    }

    assert_eq!(3, tree.len());
    assert_eq!(3, tree.get_m());
}

#[test]
fn insert_two_dif_root_nodes() {
    let mut tree = ATree::new();
    {
        let leaf = NodeType::new_leaf(LeafNode::new(4));
        let leaf_two = NodeType::new_leaf(LeafNode::new(6));

        let mut inner = NodeType::new_inner(InnerNode::and());
        add_children(&mut inner, leaf);
        add_children(&mut inner, leaf_two);

        let mut root = NodeType::new_root(RootNode::and());
        add_children(&mut root, inner);

        tree.insert(&root);
    }

    {
        let leaf = NodeType::new_leaf(LeafNode::new(8));
        let leaf_two = NodeType::new_leaf(LeafNode::new(2));

        let mut inner = NodeType::new_inner(InnerNode::or());
        add_children(&mut inner, leaf);
        add_children(&mut inner, leaf_two);

        let mut root = NodeType::new_root(RootNode::and());
        add_children(&mut root, inner);

        tree.insert(&root);
    }

    assert_eq!(6, tree.len());
    assert_eq!(3, tree.get_m());
}

#[test]
fn insert_two_dif_root_and_m_4_nodes() {
    let mut tree = ATree::new();
    {
        let mut root_inner_1_inner_1 = NodeType::new_inner(InnerNode::and());
        add_children(&mut root_inner_1_inner_1, NodeType::new_leaf(LeafNode::new(4)));
        add_children(&mut root_inner_1_inner_1, NodeType::new_leaf(LeafNode::new(6)));
        let mut root_inner_1_inner_2 = NodeType::new_inner(InnerNode::or());
        add_children(&mut root_inner_1_inner_2, NodeType::new_leaf(LeafNode::new(4)));
        add_children(&mut root_inner_1_inner_2, NodeType::new_leaf(LeafNode::new(6)));

        let mut root_inner_2_inner_1 = NodeType::new_inner(InnerNode::and());
        add_children(&mut root_inner_2_inner_1, NodeType::new_leaf(LeafNode::new(4)));
        add_children(&mut root_inner_2_inner_1, NodeType::new_leaf(LeafNode::new(6)));
        let mut root_inner_2_inner_2 = NodeType::new_inner(InnerNode::and());
        add_children(&mut root_inner_2_inner_2, NodeType::new_leaf(LeafNode::new(4)));
        add_children(&mut root_inner_2_inner_2, NodeType::new_leaf(LeafNode::new(6)));

        let mut root_inner_1 = NodeType::new_inner(InnerNode::and());
        add_children(&mut root_inner_1, root_inner_1_inner_1);
        add_children(&mut root_inner_1, root_inner_1_inner_2);
        let mut root_inner_2 = NodeType::new_inner(InnerNode::and());
        add_children(&mut root_inner_2, root_inner_2_inner_1);
        add_children(&mut root_inner_2, root_inner_2_inner_2);

        let mut root = NodeType::new_root(RootNode::and());
        add_children(&mut root, root_inner_1);
        add_children(&mut root, root_inner_2);

        tree.insert(&root);
    }

    assert_eq!(4, tree.get_m());
}

#[test]
fn insert_twice_returns_same_handle_and_keeps_len() {
    let mut tree = ATree::new();
    let mut root = NodeType::new_root(RootNode::and());
    let mut inner = NodeType::new_inner(InnerNode::and());
    add_children(&mut inner, NodeType::new_leaf(LeafNode::new(7)));
    add_children(&mut inner, NodeType::new_leaf(LeafNode::new(9)));
    add_children(&mut root, inner);

    let h1 = tree.insert(&root);
    let len_after_first = tree.len();
    let h2 = tree.insert(&root);

    assert_eq!(h1, h2);
    assert_eq!(len_after_first, tree.len());
}

#[test]
fn shared_subtrees_grow_len_by_new_ids_only() {
    // Two expressions over the same two leaves: the second insertion may
    // add at most its own new identifiers (here: one inner, one root).
    let mut tree = ATree::new();
    {
        let mut inner = NodeType::new_inner(InnerNode::and());
        add_children(&mut inner, NodeType::new_leaf(LeafNode::new(11)));
        add_children(&mut inner, NodeType::new_leaf(LeafNode::new(13)));
        let mut root = NodeType::new_root(RootNode::or());
        add_children(&mut root, inner);
        tree.insert(&root);
    }
    let before = tree.len();
    {
        let mut inner = NodeType::new_inner(InnerNode::or());
        add_children(&mut inner, NodeType::new_leaf(LeafNode::new(11)));
        add_children(&mut inner, NodeType::new_leaf(LeafNode::new(13)));
        let mut root = NodeType::new_root(RootNode::or());
        add_children(&mut root, inner);
        tree.insert(&root);
    }
    // The leaves 11 and 13 are shared; only the new inner and the new
    // root can enter the table.
    assert!(tree.len() <= before + 2);
    assert_eq!(before, 3);
}

#[test]
fn builder_collects_children_in_order() {
    let mut inner = InnerNode::or();
    {
        let mut as_node = NodeType::new_inner(inner);
        add_children(&mut as_node, NodeType::new_leaf(LeafNode::new(21)));
        add_children(&mut as_node, NodeType::new_leaf(LeafNode::new(2)));
        // Or-node identifier: fold from 1 by wrapping multiplication.
        assert_eq!(as_node.get_id(), 42);
        inner = match as_node {
            NodeType::InnerNodeType(i) => i,
            _ => unreachable!(),
        };
    }
    let root = RootNodeBuilder::and()
        .with_inner_node(inner)
        .with_leaf_node(LeafNode::new(8))
        .build();
    // And-root identifier: fold from 0 by wrapping addition: 42 + 8.
    assert_eq!(root.get_id(), 50);
    assert_eq!(root.get_level(0), 3);
}

#[test]
fn sibling_order_does_not_change_the_id() {
    let mut a = NodeType::new_inner(InnerNode::and());
    add_children(&mut a, NodeType::new_leaf(LeafNode::new(4)));
    add_children(&mut a, NodeType::new_leaf(LeafNode::new(6)));
    let mut b = NodeType::new_inner(InnerNode::and());
    add_children(&mut b, NodeType::new_leaf(LeafNode::new(6)));
    add_children(&mut b, NodeType::new_leaf(LeafNode::new(4)));
    assert_eq!(a.get_id(), b.get_id());

    let mut c = NodeType::new_inner(InnerNode::or());
    add_children(&mut c, NodeType::new_leaf(LeafNode::new(4)));
    add_children(&mut c, NodeType::new_leaf(LeafNode::new(6)));
    let mut d = NodeType::new_inner(InnerNode::or());
    add_children(&mut d, NodeType::new_leaf(LeafNode::new(6)));
    add_children(&mut d, NodeType::new_leaf(LeafNode::new(4)));
    assert_eq!(c.get_id(), d.get_id());
}
