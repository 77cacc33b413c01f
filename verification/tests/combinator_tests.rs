//! Predicate combinators and the attribute-keyed predicate store.

use a_tree::atree::ATree;
use a_tree::nodes::add_children;
use a_tree::nodes::InnerNode;
use a_tree::nodes::LeafNode;
use a_tree::nodes::NodeType;
use a_tree::nodes::RootNode;
use a_tree::predicates::equal;
use a_tree::predicates::greater;
use a_tree::predicates::less;
use a_tree::predicates::Predicate;
use a_tree::predicates::Value;
use a_tree::predicates::Value::Int;
use a_tree::logical_operations::Ands;
use a_tree::logical_operations::Ors;
use a_tree::logical_operations::PredicateOperationExt;
use a_tree::store::Event;
use a_tree::store::EventValue;
use a_tree::store::PredicateStore;
use a_tree::store::Predicates;

#[test]
fn and_combinator_is_conjunction() {
    let p = greater(Int(5)).and(less(Int(10)));
    assert!(p.evaluate(&Int(7)));
    assert!(!p.evaluate(&Int(5)));
    assert!(!p.evaluate(&Int(10)));
}

#[test]
fn or_combinator_is_disjunction() {
    let p = less(Int(5)).or(greater(Int(10)));
    assert!(p.evaluate(&Int(4)));
    assert!(p.evaluate(&Int(11)));
    assert!(!p.evaluate(&Int(7)));
}

#[test]
fn not_combinator_negates() {
    let p = equal(Int(5)).not();
    assert!(p.evaluate(&Int(6)));
    assert!(!p.evaluate(&Int(5)));
}

#[test]
fn and_id_multiplies_and_or_id_adds() {
    let a = greater(Int(5));
    let b = less(Int(10));
    let and_id = a.id().wrapping_mul(b.id());
    let or_id = a.id().wrapping_add(b.id());
    assert_eq!(greater(Int(5)).and(less(Int(10))).id(), and_id);
    assert_eq!(greater(Int(5)).or(less(Int(10))).id(), or_id);
    // The folds are commutative: swapping the sides keeps the identifier.
    assert_eq!(less(Int(10)).and(greater(Int(5))).id(), and_id);
    assert_eq!(less(Int(10)).or(greater(Int(5))).id(), or_id);
}

#[test]
fn not_id_is_bitwise_complement() {
    let a = greater(Int(5));
    assert_eq!(a.not().id(), !greater(Int(5)).id());
}

#[test]
fn ands_requires_every_component() {
    let mut p = Ands::new();
    p.with(greater(Int(0)));
    p.with(less(Int(10)));
    assert!(p.evaluate(&Int(5)));
    assert!(!p.evaluate(&Int(10)));
    assert_eq!(p.id(), 1u64.wrapping_mul(greater(Int(0)).id()).wrapping_mul(less(Int(10)).id()));
}

#[test]
fn empty_ands_holds_of_everything() {
    let p: Ands<a_tree::predicates::OrdPredicate> = Ands::new();
    assert!(p.evaluate(&Int(5)));
    assert_eq!(p.id(), 1);
}

#[test]
fn ors_requires_some_component() {
    let mut p = Ors::new();
    p.with(less(Int(0)));
    p.with(greater(Int(10)));
    assert!(p.evaluate(&Int(-1)));
    assert!(p.evaluate(&Int(11)));
    assert!(!p.evaluate(&Int(5)));
    assert_eq!(p.id(), less(Int(0)).id().wrapping_add(greater(Int(10)).id()));
}

#[test]
fn empty_ors_holds_of_nothing() {
    let p: Ors<a_tree::predicates::OrdPredicate> = Ors::new();
    assert!(!p.evaluate(&Int(5)));
    assert_eq!(p.id(), 0);
}

#[test]
fn store_evaluates_predicates_for_known_attributes() {
    let mut store = PredicateStore::new();
    let age_gt = greater(Int(18));
    let age_lt = less(Int(65));
    let size_eq = equal(Int(42));
    let gt_id = age_gt.id();
    let lt_id = age_lt.id();
    let eq_id = size_eq.id();
    store.add(String::from("age"), Predicates::OrdPredicate(age_gt));
    store.add(String::from("age"), Predicates::OrdPredicate(age_lt));
    store.add(String::from("size"), Predicates::EqualPredicate(size_eq));

    let event = Event::new(vec![
        EventValue { name: String::from("age"), value: Int(30) },
        EventValue { name: String::from("colour"), value: Value::String(String::from("red")) },
        EventValue { name: String::from("size"), value: Int(41) },
    ]);
    let results = store.evaluate(&event);
    assert_eq!(results.len(), 3);
    assert_eq!(results[0].id, gt_id);
    assert_eq!(results[0].result, Some(true));
    assert_eq!(results[1].id, lt_id);
    assert_eq!(results[1].result, Some(true));
    assert_eq!(results[2].id, eq_id);
    assert_eq!(results[2].result, Some(false));
}

#[test]
fn store_ignores_unknown_attributes() {
    let store = PredicateStore::new();
    let event = Event::new(vec![EventValue { name: String::from("age"), value: Int(30) }]);
    let results = store.evaluate(&event);
    assert!(results.is_empty());
}

#[test]
fn store_outcomes_drive_matching() {
    // Registered expression: age > 18 and size == 42.
    let age_gt = greater(Int(18));
    let size_eq = equal(Int(42));

    let mut tree = ATree::new();
    let mut inner = NodeType::new_inner(InnerNode::and());
    add_children(&mut inner, NodeType::new_leaf(LeafNode::new(age_gt.id())));
    add_children(&mut inner, NodeType::new_leaf(LeafNode::new(size_eq.id())));
    let mut root = NodeType::new_root(RootNode::and());
    add_children(&mut root, inner);
    let root_id = root.get_id();
    tree.insert(&root);

    let mut store = PredicateStore::new();
    store.add(String::from("age"), Predicates::OrdPredicate(age_gt));
    store.add(String::from("size"), Predicates::EqualPredicate(size_eq));

    let hit = Event::new(vec![
        EventValue { name: String::from("age"), value: Int(30) },
        EventValue { name: String::from("size"), value: Int(42) },
    ]);
    let out = tree.matches(&store.evaluate(&hit));
    assert_eq!(out, vec![root_id]);

    let miss = Event::new(vec![
        EventValue { name: String::from("age"), value: Int(10) },
        EventValue { name: String::from("size"), value: Int(42) },
    ]);
    let out = tree.matches(&store.evaluate(&miss));
    assert!(out.is_empty());

    // An event that never mentions the age leaves the conjunction
    // undetermined: nothing fires.
    let silent = Event::new(vec![EventValue { name: String::from("size"), value: Int(42) }]);
    let out = tree.matches(&store.evaluate(&silent));
    assert!(out.is_empty());
}
