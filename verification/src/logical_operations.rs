//! Boolean combinators over leaf predicates.
//!
//! These compose predicates while an expression is being constructed,
//! before any DAG is involved: the combined test is itself a predicate,
//! and its identifier folds the components' identifiers with wrapping
//! arithmetic (multiplication for conjunction, addition for disjunction,
//! bitwise complement for negation), so that reordering two sides of a
//! conjunction or disjunction keeps the identifier.

use crate::predicates::Predicate;
use crate::predicates::Value;
use vstd::prelude::*;

verus! {

/// The conjunction of two predicates.
pub struct And<L, R> {
    pub lhs: L,
    pub rhs: R,
}

impl<L: Predicate, R: Predicate> And<L, R> {
    /// Conjunction of the two component predicates.
    fn new(lhs: L, rhs: R) -> (p: And<L, R>)
        ensures
            p.lhs == lhs,
            p.rhs == rhs,
    {
        And { lhs, rhs }
    }
}

impl<L: Predicate, R: Predicate> Predicate for And<L, R> {
    open spec fn spec_id(&self) -> u64 {
        self.lhs.spec_id().wrapping_mul(self.rhs.spec_id())
    }

    open spec fn spec_evaluate(&self, value: &Value) -> bool {
        self.lhs.spec_evaluate(value) && self.rhs.spec_evaluate(value)
    }

    fn id(&self) -> (r: u64) {
        self.lhs.id().wrapping_mul(self.rhs.id())
    }

    fn evaluate(&self, value: &Value) -> (r: bool) {
        self.lhs.evaluate(value) && self.rhs.evaluate(value)
    }
}

/// The disjunction of two predicates.
pub struct Or<L, R> {
    pub lhs: L,
    pub rhs: R,
}

impl<L: Predicate, R: Predicate> Or<L, R> {
    /// Disjunction of the two component predicates.
    fn new(lhs: L, rhs: R) -> (p: Or<L, R>)
        ensures
            p.lhs == lhs,
            p.rhs == rhs,
    {
        Or { lhs, rhs }
    }
}

impl<L: Predicate, R: Predicate> Predicate for Or<L, R> {
    open spec fn spec_id(&self) -> u64 {
        self.lhs.spec_id().wrapping_add(self.rhs.spec_id())
    }

    open spec fn spec_evaluate(&self, value: &Value) -> bool {
        self.lhs.spec_evaluate(value) || self.rhs.spec_evaluate(value)
    }

    fn id(&self) -> (r: u64) {
        self.lhs.id().wrapping_add(self.rhs.id())
    }

    fn evaluate(&self, value: &Value) -> (r: bool) {
        self.lhs.evaluate(value) || self.rhs.evaluate(value)
    }
}

/// The negation of a predicate.
pub struct Not<P> {
    pub pred: P,
}

impl<P: Predicate> Not<P> {
    /// Negation of the component predicate.
    fn new(pred: P) -> (p: Not<P>)
        ensures
            p.pred == pred,
    {
        Not { pred }
    }
}

impl<P: Predicate> Predicate for Not<P> {
    open spec fn spec_id(&self) -> u64 {
        !self.pred.spec_id()
    }

    open spec fn spec_evaluate(&self, value: &Value) -> bool {
        !self.pred.spec_evaluate(value)
    }

    fn id(&self) -> (r: u64) {
        !self.pred.id()
    }

    fn evaluate(&self, value: &Value) -> (r: bool) {
        !self.pred.evaluate(value)
    }
}

/// Folds the identifiers of `ps[k..]` into `acc` by wrapping
/// multiplication.
pub open spec fn mul_ids_from<P: Predicate>(ps: Seq<P>, k: int, acc: u64) -> u64
    decreases ps.len() - k,
{
    if k < 0 || k >= ps.len() {
        acc
    } else {
        mul_ids_from(ps, k + 1, acc.wrapping_mul(ps[k].spec_id()))
    }
}

/// Folds the identifiers of `ps[k..]` into `acc` by wrapping addition.
pub open spec fn add_ids_from<P: Predicate>(ps: Seq<P>, k: int, acc: u64) -> u64
    decreases ps.len() - k,
{
    if k < 0 || k >= ps.len() {
        acc
    } else {
        add_ids_from(ps, k + 1, acc.wrapping_add(ps[k].spec_id()))
    }
}

/// The n-ary conjunction of a list of predicates; true of a value when
/// every component is.
pub struct Ands<P> {
    pub predicates: Vec<P>,
}

impl<P: Predicate> Ands<P> {
    /// An empty conjunction; with no components it holds of everything.
    pub fn new() -> (p: Ands<P>)
        ensures
            p.predicates@.len() == 0,
    {
        Ands { predicates: Vec::new() }
    }

    /// Adds one more component.
    pub fn with(&mut self, other: P)
        ensures
            final(self).predicates@ == old(self).predicates@.push(other),
    {
        self.predicates.push(other)
    }
}

impl<P: Predicate> Predicate for Ands<P> {
    open spec fn spec_id(&self) -> u64 {
        mul_ids_from(self.predicates@, 0, 1u64)
    }

    open spec fn spec_evaluate(&self, value: &Value) -> bool {
        forall|j: int|
            0 <= j < self.predicates@.len() ==> (#[trigger] self.predicates@[j]).spec_evaluate(
                value,
            )
    }

    fn id(&self) -> (r: u64) {
        let mut acc: u64 = 1;
        let mut k: usize = 0;
        while k < self.predicates.len()
            invariant
                k <= self.predicates@.len(),
                mul_ids_from(self.predicates@, k as int, acc) == mul_ids_from(
                    self.predicates@,
                    0,
                    1u64,
                ),
            decreases self.predicates@.len() - k,
        {
            acc = acc.wrapping_mul(self.predicates[k].id());
            k += 1;
        }
        acc
    }

    fn evaluate(&self, value: &Value) -> (r: bool) {
        let mut k: usize = 0;
        while k < self.predicates.len()
            invariant
                k <= self.predicates@.len(),
                forall|j: int|
                    0 <= j < k ==> (#[trigger] self.predicates@[j]).spec_evaluate(value),
            decreases self.predicates@.len() - k,
        {
            if !self.predicates[k].evaluate(value) {
                return false;
            }
            k += 1;
        }
        true
    }
}

/// The n-ary disjunction of a list of predicates; true of a value when
/// some component is.
pub struct Ors<P> {
    pub predicates: Vec<P>,
}

impl<P: Predicate> Ors<P> {
    /// An empty disjunction; with no components it holds of nothing.
    pub fn new() -> (p: Ors<P>)
        ensures
            p.predicates@.len() == 0,
    {
        Ors { predicates: Vec::new() }
    }

    /// Adds one more component.
    pub fn with(&mut self, predicate: P)
        ensures
            final(self).predicates@ == old(self).predicates@.push(predicate),
    {
        self.predicates.push(predicate)
    }
}

impl<P: Predicate> Predicate for Ors<P> {
    open spec fn spec_id(&self) -> u64 {
        add_ids_from(self.predicates@, 0, 0u64)
    }

    open spec fn spec_evaluate(&self, value: &Value) -> bool {
        exists|j: int|
            0 <= j < self.predicates@.len() && (#[trigger] self.predicates@[j]).spec_evaluate(
                value,
            )
    }

    fn id(&self) -> (r: u64) {
        let mut acc: u64 = 0;
        let mut k: usize = 0;
        while k < self.predicates.len()
            invariant
                k <= self.predicates@.len(),
                add_ids_from(self.predicates@, k as int, acc) == add_ids_from(
                    self.predicates@,
                    0,
                    0u64,
                ),
            decreases self.predicates@.len() - k,
        {
            acc = acc.wrapping_add(self.predicates[k].id());
            k += 1;
        }
        acc
    }

    fn evaluate(&self, value: &Value) -> (r: bool) {
        let mut k: usize = 0;
        while k < self.predicates.len()
            invariant
                k <= self.predicates@.len(),
                forall|j: int|
                    0 <= j < k ==> !(#[trigger] self.predicates@[j]).spec_evaluate(value),
            decreases self.predicates@.len() - k,
        {
            if self.predicates[k].evaluate(value) {
                return true;
            }
            k += 1;
        }
        false
    }
}

/// Combinator methods every predicate offers: conjoin, disjoin or negate
/// it with others while building an expression.
pub trait PredicateOperationExt: Predicate + Sized {
    /// The conjunction of this predicate and `other`.
    fn and<O: Predicate>(self, other: O) -> (r: And<Self, O>)
        ensures
            r.lhs == self,
            r.rhs == other,
    ;

    /// The disjunction of this predicate and `other`.
    fn or<O: Predicate>(self, other: O) -> (r: Or<Self, O>)
        ensures
            r.lhs == self,
            r.rhs == other,
    ;

    /// The negation of this predicate.
    fn not(self) -> (r: Not<Self>)
        ensures
            r.pred == self,
    ;
}

impl<P: Predicate + Sized> PredicateOperationExt for P {
    fn and<O: Predicate>(self, other: O) -> (r: And<Self, O>) {
        And::new(self, other)
    }

    fn or<O: Predicate>(self, other: O) -> (r: Or<Self, O>) {
        Or::new(self, other)
    }

    fn not(self) -> (r: Not<Self>) {
        Not::new(self)
    }
}

} // verus!
