//! The matching engine: seeding, three-valued propagation, emitted roots.

use a_tree::atree::evaluate_operands;
use a_tree::atree::ATree;
use a_tree::atree::PredResult;
use a_tree::nodes::add_children;
use a_tree::nodes::InnerNode;
use a_tree::nodes::LeafNode;
use a_tree::nodes::LogOperation;
use a_tree::nodes::NodeType;
use a_tree::nodes::RootNode;
use a_tree::predicates::equal;
use a_tree::predicates::greater;
use a_tree::predicates::Predicate;
use a_tree::predicates::Value;

/// Root(And) over Inner(And) over the two predicate leaves; returns the
/// tree and the identifiers (eq leaf, gt leaf, root).
fn and_over_and_tree() -> (ATree, u64, u64, u64) {
    let eq = equal(Value::Int(10));
    let gt = greater(Value::Int(5));

    let mut tree = ATree::new();
    let leaf = NodeType::new_leaf(LeafNode::new(eq.id()));
    let leaf_two = NodeType::new_leaf(LeafNode::new(gt.id()));

    let mut inner = NodeType::new_inner(InnerNode::and());
    add_children(&mut inner, leaf);
    add_children(&mut inner, leaf_two);

    let mut root = NodeType::new_root(RootNode::and());
    add_children(&mut root, inner);

    let root_id = root.get_id();
    tree.insert(&root);
    (tree, eq.id(), gt.id(), root_id)
}

#[test]
fn match_both_true_fires_root() {
    let (mut tree, eq_id, gt_id, root_id) = and_over_and_tree();
    let preds = vec![
        PredResult { id: eq_id, result: Some(true) },
        PredResult { id: gt_id, result: Some(true) },
    ];
    let out = tree.matches(&preds);
    assert!(out.contains(&root_id));
}

#[test]
fn match_undetermined_under_and_fires_nothing() {
    let (mut tree, eq_id, gt_id, _root_id) = and_over_and_tree();
    let preds = vec![
        PredResult { id: eq_id, result: Some(true) },
        PredResult { id: gt_id, result: None },
    ];
    let out = tree.matches(&preds);
    assert!(out.is_empty());
}

#[test]
fn match_undetermined_under_or_fires_root() {
    let eq = equal(Value::Int(10));
    let gt = greater(Value::Int(5));

    let mut tree = ATree::new();
    let mut root = NodeType::new_root(RootNode::or());
    add_children(&mut root, NodeType::new_leaf(LeafNode::new(eq.id())));
    add_children(&mut root, NodeType::new_leaf(LeafNode::new(gt.id())));
    let root_id = root.get_id();
    tree.insert(&root);

    let preds = vec![
        PredResult { id: eq.id(), result: Some(true) },
        PredResult { id: gt.id(), result: None },
    ];
    let out = tree.matches(&preds);
    assert!(out.contains(&root_id));
}

#[test]
fn match_false_under_and_fires_nothing() {
    let (mut tree, eq_id, gt_id, _root_id) = and_over_and_tree();
    let preds = vec![
        PredResult { id: eq_id, result: Some(true) },
        PredResult { id: gt_id, result: Some(false) },
    ];
    let out = tree.matches(&preds);
    assert!(out.is_empty());
}

#[test]
fn match_is_deterministic_across_calls() {
    let (mut tree, eq_id, gt_id, _root_id) = and_over_and_tree();
    let preds = vec![
        PredResult { id: eq_id, result: Some(true) },
        PredResult { id: gt_id, result: Some(true) },
    ];
    let first = tree.matches(&preds);
    let second = tree.matches(&preds);
    assert_eq!(first, second);
    // The DAG is untouched between the calls.
    assert_eq!(tree.len(), 3);
    assert_eq!(tree.get_m(), 3);
}

#[test]
fn match_unknown_seed_id_is_ignored() {
    let (mut tree, eq_id, gt_id, root_id) = and_over_and_tree();
    let preds = vec![
        PredResult { id: 0xDEAD, result: Some(true) },
        PredResult { id: eq_id, result: Some(true) },
        PredResult { id: gt_id, result: Some(true) },
    ];
    let out = tree.matches(&preds);
    assert_eq!(out, vec![root_id]);
}

#[test]
fn match_non_leaf_seed_id_is_ignored() {
    // Root(And) directly over two leaves: the root's identifier is the
    // wrapping sum of the leaves'.  Seeding the root's own identifier
    // must do nothing, since that identifier does not map to a leaf.
    let mut tree = ATree::new();
    let mut root = NodeType::new_root(RootNode::and());
    add_children(&mut root, NodeType::new_leaf(LeafNode::new(1)));
    add_children(&mut root, NodeType::new_leaf(LeafNode::new(2)));
    let root_id = root.get_id();
    assert_eq!(root_id, 3);
    tree.insert(&root);

    let preds = vec![PredResult { id: root_id, result: Some(true) }];
    let out = tree.matches(&preds);
    assert!(out.is_empty());
}

#[test]
fn match_later_seed_for_same_leaf_wins() {
    let mut tree = ATree::new();
    let mut root = NodeType::new_root(RootNode::and());
    add_children(&mut root, NodeType::new_leaf(LeafNode::new(1)));
    add_children(&mut root, NodeType::new_leaf(LeafNode::new(2)));
    let root_id = root.get_id();
    tree.insert(&root);

    let preds = vec![
        PredResult { id: 1, result: Some(true) },
        PredResult { id: 2, result: Some(true) },
        PredResult { id: 1, result: Some(false) },
    ];
    let out = tree.matches(&preds);
    assert!(out.is_empty());

    let preds = vec![
        PredResult { id: 1, result: Some(false) },
        PredResult { id: 2, result: Some(true) },
        PredResult { id: 1, result: Some(true) },
    ];
    let out = tree.matches(&preds);
    assert_eq!(out, vec![root_id]);
}

#[test]
fn three_valued_and_table() {
    let and = LogOperation::And;
    assert_eq!(evaluate_operands(and, &vec![None, Some(false)]), Some(false));
    assert_eq!(evaluate_operands(and, &vec![Some(false), None]), Some(false));
    assert_eq!(evaluate_operands(and, &vec![None, Some(true)]), None);
    assert_eq!(evaluate_operands(and, &vec![Some(true), None]), None);
    assert_eq!(evaluate_operands(and, &vec![Some(true), Some(true)]), Some(true));
    assert_eq!(evaluate_operands(and, &vec![Some(true), Some(false)]), Some(false));
    assert_eq!(evaluate_operands(and, &vec![None, None]), None);
}

#[test]
fn three_valued_or_table() {
    let or = LogOperation::Or;
    assert_eq!(evaluate_operands(or, &vec![None, Some(true)]), Some(true));
    assert_eq!(evaluate_operands(or, &vec![Some(true), None]), Some(true));
    assert_eq!(evaluate_operands(or, &vec![None, Some(false)]), None);
    assert_eq!(evaluate_operands(or, &vec![Some(false), None]), None);
    assert_eq!(evaluate_operands(or, &vec![Some(false), Some(false)]), Some(false));
    assert_eq!(evaluate_operands(or, &vec![Some(true), Some(false)]), Some(true));
    assert_eq!(evaluate_operands(or, &vec![None, None]), None);
}

#[test]
fn match_shared_leaf_feeds_both_expressions() {
    // Two roots sharing one leaf: a single seeded outcome reaches both.
    let mut tree = ATree::new();

    let mut root_a = NodeType::new_root(RootNode::and());
    add_children(&mut root_a, NodeType::new_leaf(LeafNode::new(5)));
    add_children(&mut root_a, NodeType::new_leaf(LeafNode::new(6)));
    let id_a = root_a.get_id();
    tree.insert(&root_a);

    let mut root_b = NodeType::new_root(RootNode::or());
    add_children(&mut root_b, NodeType::new_leaf(LeafNode::new(5)));
    add_children(&mut root_b, NodeType::new_leaf(LeafNode::new(6)));
    let id_b = root_b.get_id();
    tree.insert(&root_b);

    assert_eq!(tree.len(), 4);
    let preds = vec![
        PredResult { id: 5, result: Some(true) },
        PredResult { id: 6, result: Some(true) },
    ];
    let out = tree.matches(&preds);
    assert!(out.contains(&id_a));
    assert!(out.contains(&id_b));
}
