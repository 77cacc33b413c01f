//! Predicates filed by attribute name, and events matched against them.
//!
//! The store groups predicates under attribute names.  Given an event (a
//! bag of attribute-value pairs), it walks the event's values in order,
//! looks the attribute up, evaluates each filed predicate against the
//! value, and emits one outcome per predicate for the matcher to seed.

use crate::atree::PredResult;
use crate::predicates::BetweenPredicate;
use crate::predicates::EqualPredicate;
use crate::predicates::OrdPredicate;
use crate::predicates::Predicate;
use crate::predicates::SetPredicate;
use crate::predicates::Value;
use vstd::prelude::*;

verus! {

/// Any of the four leaf predicate shapes, as one storable value.
#[derive(Clone, Debug)]
pub enum Predicates {
    OrdPredicate(OrdPredicate),
    EqualPredicate(EqualPredicate),
    SetPredicate(SetPredicate),
    BetweenPredicate(BetweenPredicate),
}

impl Predicate for Predicates {
    open spec fn spec_id(&self) -> u64 {
        match self {
            Predicates::OrdPredicate(p) => p.spec_id(),
            Predicates::EqualPredicate(p) => p.spec_id(),
            Predicates::SetPredicate(p) => p.spec_id(),
            Predicates::BetweenPredicate(p) => p.spec_id(),
        }
    }

    open spec fn spec_evaluate(&self, value: &Value) -> bool {
        match self {
            Predicates::OrdPredicate(p) => p.spec_evaluate(value),
            Predicates::EqualPredicate(p) => p.spec_evaluate(value),
            Predicates::SetPredicate(p) => p.spec_evaluate(value),
            Predicates::BetweenPredicate(p) => p.spec_evaluate(value),
        }
    }

    fn id(&self) -> (r: u64) {
        match self {
            Predicates::OrdPredicate(p) => p.id(),
            Predicates::EqualPredicate(p) => p.id(),
            Predicates::SetPredicate(p) => p.id(),
            Predicates::BetweenPredicate(p) => p.id(),
        }
    }

    fn evaluate(&self, value: &Value) -> (r: bool) {
        match self {
            Predicates::OrdPredicate(p) => p.evaluate(value),
            Predicates::EqualPredicate(p) => p.evaluate(value),
            Predicates::SetPredicate(p) => p.evaluate(value),
            Predicates::BetweenPredicate(p) => p.evaluate(value),
        }
    }
}

/// One attribute-value pair of an event.
#[derive(Clone, Debug)]
pub struct EventValue {
    pub name: String,
    pub value: Value,
}

/// A bag of attribute-value pairs, matched as one unit.
#[derive(Clone, Debug)]
pub struct Event {
    pub values: Vec<EventValue>,
}

impl Event {
    /// An event over the given attribute-value pairs.
    pub fn new(values: Vec<EventValue>) -> (e: Event)
        ensures
            e.values == values,
    {
        Event { values }
    }
}

/// Whether the store has an entry for this attribute name.
pub open spec fn contains_name(entries: Seq<(String, Vec<Predicates>)>, name: Seq<char>) -> bool {
    exists|k: int| 0 <= k < entries.len() && entries[k].0@ == name
}

/// The position of the entry for this attribute name.
pub open spec fn name_pos(entries: Seq<(String, Vec<Predicates>)>, name: Seq<char>) -> int {
    choose|k: int| 0 <= k < entries.len() && entries[k].0@ == name
}

/// The predicates filed under this attribute name.
pub open spec fn preds_of(entries: Seq<(String, Vec<Predicates>)>, name: Seq<char>) -> Seq<
    Predicates,
> {
    entries[name_pos(entries, name)].1@
}

/// Attribute names appear in at most one entry.
pub open spec fn names_unique(entries: Seq<(String, Vec<Predicates>)>) -> bool {
    forall|k1: int, k2: int|
        0 <= k1 < k2 < entries.len() ==> (#[trigger] entries[k1].0)@ != (
        #[trigger] entries[k2].0)@
}

/// The outcomes of the predicates `ps[0..k]` against one value, in order:
/// each predicate contributes its identifier and its determined result.
pub open spec fn outcomes_upto(ps: Seq<Predicates>, v: Value, k: int) -> Seq<PredResult>
    decreases k,
{
    if k <= 0 {
        Seq::empty()
    } else {
        outcomes_upto(ps, v, k - 1).push(
            PredResult { id: ps[k - 1].spec_id(), result: Some(ps[k - 1].spec_evaluate(&v)) },
        )
    }
}

/// The outcomes a store produces for the first `k` values of an event:
/// for each value, in order, the outcomes of the predicates filed under
/// its attribute name; values of unknown attributes contribute nothing.
pub open spec fn results_upto(
    entries: Seq<(String, Vec<Predicates>)>,
    values: Seq<EventValue>,
    k: int,
) -> Seq<PredResult>
    decreases k,
{
    if k <= 0 {
        Seq::empty()
    } else {
        results_upto(entries, values, k - 1) + (if contains_name(entries, values[k - 1].name@) {
            let ps = preds_of(entries, values[k - 1].name@);
            outcomes_upto(ps, values[k - 1].value, ps.len() as int)
        } else {
            Seq::empty()
        })
    }
}

/// Predicates grouped by the attribute name they test.
#[derive(Debug)]
pub struct PredicateStore {
    pub predicates: Vec<(String, Vec<Predicates>)>,
}

impl PredicateStore {
    /// The store's invariant: one entry per attribute name.
    pub open spec fn wf(self) -> bool {
        names_unique(self.predicates@)
    }

    /// An empty store.
    pub fn new() -> (s: PredicateStore)
        ensures
            s.wf(),
            s.predicates@.len() == 0,
    {
        PredicateStore { predicates: Vec::new() }
    }

    /// Files a predicate under an attribute name, extending the
    /// attribute's entry or opening a new one.
    pub fn add(&mut self, attribute: String, predicate: Predicates)
        requires
            old(self).wf(),
        ensures
            final(self).wf(),
            contains_name(final(self).predicates@, attribute@),
            preds_of(final(self).predicates@, attribute@) == if contains_name(
                old(self).predicates@,
                attribute@,
            ) {
                preds_of(old(self).predicates@, attribute@).push(predicate)
            } else {
                Seq::empty().push(predicate)
            },
            // Entries for other names are untouched.
            forall|k: int|
                0 <= k < old(self).predicates@.len() && (#[trigger] old(
                    self,
                ).predicates@[k].0)@ != attribute@ ==> final(self).predicates@[k] == old(
                    self,
                ).predicates@[k],
            forall|n: Seq<char>|
                n != attribute@ ==> #[trigger] contains_name(final(self).predicates@, n)
                    == contains_name(old(self).predicates@, n),
    {
        let ghost pre = self.predicates@;
        let mut k: usize = 0;
        while k < self.predicates.len()
            invariant
                self.predicates@ == pre,
                old(self).wf(),
                pre == old(self).predicates@,
                k <= pre.len(),
                forall|k2: int| 0 <= k2 < k ==> (#[trigger] pre[k2].0)@ != attribute@,
            decreases pre.len() - k,
        {
            if self.predicates[k].0 == attribute {
                proof {
                    assert(contains_name(pre, attribute@)) by {
                        assert(pre[k as int].0@ == attribute@);
                    }
                }
                self.predicates[k].1.push(predicate);
                proof {
                    let post = self.predicates@;
                    assert(post =~= pre.update(
                        k as int,
                        (pre[k as int].0, post[k as int].1),
                    ));
                    assert(names_unique(post)) by {
                        assert forall|k1: int, k2: int|
                            0 <= k1 < k2 < post.len() implies (#[trigger] post[k1].0)@ != (
                        #[trigger] post[k2].0)@ by {
                            assert(post[k1].0 == pre[k1].0 && post[k2].0 == pre[k2].0);
                        }
                    }
                    assert(name_pos(post, attribute@) == k) by {
                        let p = name_pos(post, attribute@);
                        assert(post[k as int].0@ == attribute@);
                        assert(0 <= p < post.len() && post[p].0@ == attribute@);
                        if p != k {
                            assert(false);
                        }
                    }
                    assert(name_pos(pre, attribute@) == k) by {
                        let p = name_pos(pre, attribute@);
                        assert(0 <= p < pre.len() && pre[p].0@ == attribute@);
                        if p != k {
                            assert(false);
                        }
                    }
                    assert forall|n: Seq<char>|
                        n != attribute@ implies #[trigger] contains_name(post, n)
                        == contains_name(pre, n) by {
                        assert forall|k2: int|
                            0 <= k2 < post.len() implies post[k2].0@ == pre[k2].0@ by {}
                    }
                }
                return ;
            }
            k += 1;
        }
        proof {
            assert(!contains_name(pre, attribute@));
        }
        let mut fresh: Vec<Predicates> = Vec::new();
        fresh.push(predicate);
        self.predicates.push((attribute, fresh));
        proof {
            let post = self.predicates@;
            assert(post =~= pre.push(post[pre.len() as int]));
            assert(post[pre.len() as int].0@ == attribute@);
            assert(names_unique(post)) by {
                assert forall|k1: int, k2: int|
                    0 <= k1 < k2 < post.len() implies (#[trigger] post[k1].0)@ != (
                #[trigger] post[k2].0)@ by {
                    if k2 < pre.len() {
                        assert(post[k1].0 == pre[k1].0 && post[k2].0 == pre[k2].0);
                    } else {
                        assert(post[k1].0 == pre[k1].0);
                        assert(post[k2].0@ == attribute@);
                    }
                }
            }
            assert(contains_name(post, attribute@));
            assert(name_pos(post, attribute@) == pre.len()) by {
                let p = name_pos(post, attribute@);
                assert(0 <= p < post.len() && post[p].0@ == attribute@);
                if p < pre.len() {
                    assert(pre[p].0@ == attribute@);
                    assert(false);
                }
            }
            assert(preds_of(post, attribute@) == Seq::<Predicates>::empty().push(predicate)) by {
                assert(post[pre.len() as int].1@ =~= Seq::<Predicates>::empty().push(predicate));
            }
            assert forall|n: Seq<char>|
                n != attribute@ implies #[trigger] contains_name(post, n) == contains_name(
                pre,
                n,
            ) by {
                if contains_name(post, n) {
                    let p = choose|p: int| 0 <= p < post.len() && post[p].0@ == n;
                    assert(p < pre.len());
                    assert(pre[p].0@ == n);
                }
                if contains_name(pre, n) {
                    let p = choose|p: int| 0 <= p < pre.len() && pre[p].0@ == n;
                    assert(post[p].0@ == n);
                }
            }
        }
    }

    /// Evaluates every filed predicate that an event's attributes reach,
    /// producing one outcome per predicate in event order.
    pub fn evaluate(&self, event: &Event) -> (r: Vec<PredResult>)
        requires
            self.wf(),
        ensures
            r@ == results_upto(self.predicates@, event.values@, event.values@.len() as int),
    {
        let mut r: Vec<PredResult> = Vec::new();
        let mut k: usize = 0;
        while k < event.values.len()
            invariant
                self.wf(),
                k <= event.values@.len(),
                r@ == results_upto(self.predicates@, event.values@, k as int),
            decreases event.values@.len() - k,
        {
            let name = &event.values[k].name;
            let ghost pre_r = r@;
            let mut e: usize = 0;
            let mut found = false;
            while e < self.predicates.len() && !found
                invariant
                    self.wf(),
                    k < event.values@.len(),
                    name == &event.values@[k as int].name,
                    e <= self.predicates@.len(),
                    !found ==> forall|k2: int|
                        0 <= k2 < e ==> (#[trigger] self.predicates@[k2].0)@ != name@,
                    found ==> e < self.predicates@.len() && self.predicates@[e as int].0@
                        == name@,
                decreases self.predicates@.len() - e, (if found {
                    0int
                } else {
                    1int
                }),
            {
                if self.predicates[e].0 == *name {
                    found = true;
                } else {
                    e += 1;
                }
            }
            if found {
                proof {
                    assert(contains_name(self.predicates@, name@));
                    assert(name_pos(self.predicates@, name@) == e) by {
                        let p = name_pos(self.predicates@, name@);
                        assert(0 <= p < self.predicates@.len() && self.predicates@[p].0@
                            == name@);
                        if p != e {
                            assert(false);
                        }
                    }
                }
                let ps = &self.predicates[e].1;
                let v = &event.values[k].value;
                let mut j: usize = 0;
                while j < ps.len()
                    invariant
                        k < event.values@.len(),
                        e < self.predicates@.len(),
                        ps == &self.predicates@[e as int].1,
                        v == &event.values@[k as int].value,
                        j <= ps@.len(),
                        r@ == pre_r + outcomes_upto(ps@, event.values@[k as int].value, j as int),
                    decreases ps@.len() - j,
                {
                    let id = ps[j].id();
                    let res = ps[j].evaluate(v);
                    r.push(PredResult { id, result: Some(res) });
                    j += 1;
                }
                proof {
                    assert(r@ == pre_r + outcomes_upto(
                        self.predicates@[e as int].1@,
                        event.values@[k as int].value,
                        self.predicates@[e as int].1@.len() as int,
                    ));
                }
            } else {
                proof {
                    assert(!contains_name(self.predicates@, name@));
                    assert(r@ =~= pre_r + Seq::<PredResult>::empty());
                }
            }
            k += 1;
            proof {
                assert(r@ == results_upto(self.predicates@, event.values@, k as int));
            }
        }
        r
    }
}

} // verus!
