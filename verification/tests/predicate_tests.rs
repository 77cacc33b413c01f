//! Leaf predicates: equality, ordering, membership, ranges, identifiers.

use a_tree::predicates::between;
use a_tree::predicates::element_of;
use a_tree::predicates::equal;
use a_tree::predicates::greater;
use a_tree::predicates::greater_equal;
use a_tree::predicates::less;
use a_tree::predicates::less_equal;
use a_tree::predicates::not_element_of;
use a_tree::predicates::not_equal;
use a_tree::predicates::Predicate;
use a_tree::predicates::Value;
use a_tree::predicates::Value::Bool;
use a_tree::predicates::Value::Int;

#[test]
fn not_equal_evaluation_for_same_value_is_false() {
    let values = vec![
        (Int(10), Int(10)),
        (Value::String(String::from("10")), Value::String(String::from("10"))),
        (Bool(true), Bool(true)),
    ];
    for value in values {
        assert!(!not_equal(value.0).evaluate(&value.1))
    }
}

#[test]
fn equal_evaluation_for_not_the_same_value_is_true() {
    let values = vec![
        (Int(10), Int(11)),
        (Int(10), Value::String(String::from("10"))),
        (Int(10), Value::Bool(true)),
        (Value::String(String::from("10")), Value::String(String::from("11"))),
        (Value::String(String::from("10")), Int(10)),
        (Value::String(String::from("10")), Value::Bool(true)),
        (Value::Bool(true), Value::Bool(false)),
        (Value::Bool(true), Value::String(String::from("10"))),
        (Value::Bool(true), Int(10)),
    ];
    for value in values {
        assert!(not_equal(value.0).evaluate(&value.1))
    }
}

#[test]
fn not_equal_evaluation_for_same_value_is_correct() {
    let values = vec![
        (Int(10), Int(10)),
        (Value::String(String::from("10")), Value::String(String::from("10"))),
        (Bool(true), Bool(true)),
    ];
    for value in values {
        assert!(equal(value.0).evaluate(&value.1))
    }
}

#[test]
fn not_equal_evaluation_for_not_the_same_value_is_not_correct() {
    let values = vec![(Int(10), Value::String(String::from("10"))), (Int(10), Value::Bool(true))];
    for value in values {
        println!("Testing {:?} and {:?}", &value.0, &value.1);
        assert_eq!(not_equal(value.0).evaluate(&value.1), true)
    }
}

#[test]
fn ordering_on_integers() {
    assert!(greater(Int(5)).evaluate(&Int(6)));
    assert!(!greater(Int(5)).evaluate(&Int(5)));
    assert!(greater_equal(Int(5)).evaluate(&Int(5)));
    assert!(!greater_equal(Int(5)).evaluate(&Int(4)));
    assert!(less(Int(5)).evaluate(&Int(4)));
    assert!(!less(Int(5)).evaluate(&Int(5)));
    assert!(less_equal(Int(5)).evaluate(&Int(5)));
    assert!(!less_equal(Int(5)).evaluate(&Int(6)));
    assert!(greater(Int(-3)).evaluate(&Int(0)));
}

#[test]
fn ordering_on_strings_is_lexicographic() {
    let gt_abc = greater(Value::String(String::from("abc")));
    assert!(gt_abc.evaluate(&Value::String(String::from("abd"))));
    assert!(gt_abc.evaluate(&Value::String(String::from("abca"))));
    assert!(!gt_abc.evaluate(&Value::String(String::from("abc"))));
    assert!(!gt_abc.evaluate(&Value::String(String::from("ab"))));
    let le_b = less_equal(Value::String(String::from("b")));
    assert!(le_b.evaluate(&Value::String(String::from("azzz"))));
    assert!(le_b.evaluate(&Value::String(String::from("b"))));
    assert!(!le_b.evaluate(&Value::String(String::from("ba"))));
    assert!(le_b.evaluate(&Value::String(String::new())));
}

#[test]
fn ordering_on_booleans_false_below_true() {
    assert!(greater(Bool(false)).evaluate(&Bool(true)));
    assert!(!greater(Bool(true)).evaluate(&Bool(true)));
    assert!(less(Bool(true)).evaluate(&Bool(false)));
    assert!(less_equal(Bool(false)).evaluate(&Bool(false)));
}

#[test]
fn ordering_on_mismatched_tags_is_false() {
    assert!(!greater(Int(1)).evaluate(&Value::String(String::from("2"))));
    assert!(!less(Int(1)).evaluate(&Value::String(String::from("0"))));
    assert!(!greater_equal(Value::String(String::from("a"))).evaluate(&Int(100)));
    assert!(!less_equal(Bool(true)).evaluate(&Int(0)));
}

#[test]
fn between_is_inclusive_on_both_sides() {
    let p = between(Int(3), Int(7));
    assert!(!p.evaluate(&Int(2)));
    assert!(p.evaluate(&Int(3)));
    assert!(p.evaluate(&Int(5)));
    assert!(p.evaluate(&Int(7)));
    assert!(!p.evaluate(&Int(8)));
}

#[test]
fn between_fails_closed_with_reversed_bounds() {
    let p = between(Int(7), Int(3));
    assert!(!p.evaluate(&Int(2)));
    assert!(!p.evaluate(&Int(5)));
    assert!(!p.evaluate(&Int(8)));
}

#[test]
fn between_fails_on_mismatched_tag() {
    let p = between(Int(3), Int(7));
    assert!(!p.evaluate(&Value::String(String::from("5"))));
    assert!(!p.evaluate(&Bool(true)));
}

#[test]
fn element_of_checks_membership() {
    let p = element_of(vec![Int(1), Int(3), Int(5)]);
    assert!(p.evaluate(&Int(3)));
    assert!(!p.evaluate(&Int(2)));
    assert!(!p.evaluate(&Value::String(String::from("3"))));

    let n = not_element_of(vec![Int(1), Int(3), Int(5)]);
    assert!(!n.evaluate(&Int(3)));
    assert!(n.evaluate(&Int(2)));
}

#[test]
fn set_predicate_push_extends_the_list() {
    let mut p = element_of(vec![Int(1)]);
    assert!(!p.evaluate(&Int(9)));
    p.push(Int(9));
    assert!(p.evaluate(&Int(9)));
}

#[test]
fn equal_operator_and_operand_bits_give_equal_ids() {
    assert_eq!(equal(Int(10)).id(), equal(Int(10)).id());
    assert_eq!(
        greater(Value::String(String::from("x"))).id(),
        greater(Value::String(String::from("x"))).id()
    );
    assert_eq!(between(Int(1), Int(2)).id(), between(Int(1), Int(2)).id());
}

#[test]
fn different_operators_or_operands_give_different_ids() {
    assert_ne!(equal(Int(10)).id(), not_equal(Int(10)).id());
    assert_ne!(equal(Int(10)).id(), equal(Int(11)).id());
    assert_ne!(greater(Int(10)).id(), greater_equal(Int(10)).id());
    assert_ne!(
        equal(Value::String(String::from("a"))).id(),
        equal(Value::String(String::from("b"))).id()
    );
    assert_ne!(equal(Int(1)).id(), equal(Bool(true)).id());
}

#[test]
fn membership_ids_hash_list_and_operation() {
    // Equal operator and operand bits give equal identifiers; the two
    // membership operations over one list keep distinct identifiers, and
    // the hash is order-sensitive, so callers canonicalise their lists.
    let list_a = vec![Int(1), Int(2)];
    let list_b = vec![Int(1), Int(2)];
    assert_eq!(element_of(list_a).id(), element_of(list_b).id());
    assert_ne!(
        element_of(vec![Int(1), Int(2)]).id(),
        not_element_of(vec![Int(1), Int(2)]).id()
    );
    assert_ne!(
        element_of(vec![Int(1), Int(2)]).id(),
        element_of(vec![Int(2), Int(1)]).id()
    );
    assert_ne!(between(Int(1), Int(2)).id(), element_of(vec![Int(1), Int(2)]).id());
}
