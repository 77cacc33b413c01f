//! Typed values and the leaf predicates over them.
//!
//! A `Value` is a tagged scalar; equality and ordering are defined only
//! between values of the same tag, and any cross-tag comparison is false.
//! Strings order lexicographically by the bytes of their UTF-8 encoding,
//! which coincides with code-point order.  Each predicate carries a
//! stable 64-bit identifier derived from its operator and operands by a
//! fixed byte-level hash, so that predicates built from equal operator
//! and operand bits always collide on the same identifier.

use vstd::prelude::*;
use vstd::utf8::encode_utf8;

verus! {

/// A tagged scalar value.
#[derive(Clone, Debug)]
pub enum Value {
    Int(i32),
    String(String),
    Bool(bool),
}

/// Equality of values: same tag and equal payload; false across tags.
pub open spec fn value_eq(a: Value, b: Value) -> bool {
    match (a, b) {
        (Value::Int(x), Value::Int(y)) => x == y,
        (Value::String(x), Value::String(y)) => x@ == y@,
        (Value::Bool(x), Value::Bool(y)) => x == y,
        _ => false,
    }
}

/// Lexicographic strictly-less on byte sequences: a proper prefix is
/// smaller, otherwise the first differing byte decides.
pub open spec fn bytes_lt(a: Seq<u8>, b: Seq<u8>) -> bool {
    ||| (a.len() < b.len() && a == b.subrange(0, a.len() as int))
    ||| (exists|k: int|
        0 <= k < a.len() && k < b.len() && a.subrange(0, k) == b.subrange(0, k) && a[k] < b[k])
}

/// Strict order on values: integers numerically, strings by the bytes of
/// their UTF-8 encoding (code-point order), booleans with false below
/// true; false across tags.
pub open spec fn value_lt(a: Value, b: Value) -> bool {
    match (a, b) {
        (Value::Int(x), Value::Int(y)) => x < y,
        (Value::String(x), Value::String(y)) => bytes_lt(encode_utf8(x@), encode_utf8(y@)),
        (Value::Bool(x), Value::Bool(y)) => !x && y,
        _ => false,
    }
}

/// Non-strict order on values: within one tag the negation of the
/// reversed strict order; false across tags.
pub open spec fn value_le(a: Value, b: Value) -> bool {
    match (a, b) {
        (Value::Int(x), Value::Int(y)) => x <= y,
        (Value::String(x), Value::String(y)) => !bytes_lt(encode_utf8(y@), encode_utf8(x@)),
        (Value::Bool(x), Value::Bool(y)) => !(x && !y),
        _ => false,
    }
}

/// `a` strictly above `b`.
pub open spec fn value_gt(a: Value, b: Value) -> bool {
    value_lt(b, a)
}

/// `a` at or above `b`.
pub open spec fn value_ge(a: Value, b: Value) -> bool {
    value_le(b, a)
}

/// The offset basis of the 64-bit FNV-1a hash.
pub const FNV_OFFSET: u64 = 0xcbf29ce484222325;

/// The prime of the 64-bit FNV-1a hash.
pub const FNV_PRIME: u64 = 0x100000001b3;

/// One FNV-1a step: fold one byte into the running hash.
pub open spec fn fnv_step(h: u64, b: u8) -> u64 {
    (h ^ (b as u64)).wrapping_mul(FNV_PRIME)
}

/// Folds the bytes `s[k..]` into the running hash.
pub open spec fn fnv_from(s: Seq<u8>, k: int, h: u64) -> u64
    decreases s.len() - k,
{
    if k < 0 || k >= s.len() {
        h
    } else {
        fnv_from(s, k + 1, fnv_step(h, s[k]))
    }
}

/// The two's-complement bit pattern of a 32-bit integer, as a number.
pub open spec fn int_bits(x: i32) -> int {
    (x as int) % 0x100000000
}

/// Folds the four little-endian bytes of `u` into the running hash.
pub open spec fn hash_quad(h: u64, u: int) -> u64 {
    fnv_step(
        fnv_step(
            fnv_step(fnv_step(h, (u % 256) as u8), ((u / 256) % 256) as u8),
            ((u / 65536) % 256) as u8,
        ),
        ((u / 16777216) % 256) as u8,
    )
}

/// Folds one value into the running hash: a tag byte, then the payload
/// (an integer as four bytes, a string as its UTF-8 bytes closed by a
/// byte that UTF-8 never produces, a boolean as one byte).
pub open spec fn value_hash(h: u64, v: Value) -> u64 {
    match v {
        Value::Int(x) => hash_quad(fnv_step(h, 0), int_bits(x)),
        Value::String(s) => fnv_step(fnv_from(encode_utf8(s@), 0, fnv_step(h, 1)), 255),
        Value::Bool(b) => fnv_step(
            fnv_step(h, 2),
            if b {
                1
            } else {
                0
            },
        ),
    }
}

/// Compares two values for equality, tag and payload.
pub fn values_equal(a: &Value, b: &Value) -> (r: bool)
    ensures
        r == value_eq(*a, *b),
{
    match a {
        Value::Int(x) => match b {
            Value::Int(y) => *x == *y,
            _ => false,
        },
        Value::String(x) => match b {
            Value::String(y) => *x == *y,
            _ => false,
        },
        Value::Bool(x) => match b {
            Value::Bool(y) => *x == *y,
            _ => false,
        },
    }
}

/// Lexicographic strictly-less on byte slices.
fn bytes_less(a: &[u8], b: &[u8]) -> (r: bool)
    ensures
        r == bytes_lt(a@, b@),
{
    let mut k: usize = 0;
    while k < a.len() && k < b.len()
        invariant
            k <= a@.len(),
            k <= b@.len(),
            forall|j: int| 0 <= j < k ==> a@[j] == b@[j],
        decreases a@.len() - k,
    {
        if a[k] < b[k] {
            proof {
                assert(a@.subrange(0, k as int) =~= b@.subrange(0, k as int));
            }
            return true;
        }
        if a[k] > b[k] {
            proof {
                if bytes_lt(a@, b@) {
                    if a@.len() < b@.len() && a@ == b@.subrange(0, a@.len() as int) {
                        assert(a@[k as int] == b@.subrange(0, a@.len() as int)[k as int]);
                    } else {
                        let w = choose|w: int|
                            0 <= w < a@.len() && w < b@.len() && a@.subrange(0, w) == b@.subrange(
                                0,
                                w,
                            ) && a@[w] < b@[w];
                        if w < k {
                            assert(a@[w] == b@[w]);
                        } else if w > k {
                            assert(a@.subrange(0, w)[k as int] == b@.subrange(0, w)[k as int]);
                        }
                    }
                }
            }
            return false;
        }
        k += 1;
    }
    let r = a.len() < b.len();
    proof {
        if r {
            assert(a@ =~= b@.subrange(0, a@.len() as int));
        } else {
            if bytes_lt(a@, b@) {
                if a@.len() < b@.len() && a@ == b@.subrange(0, a@.len() as int) {
                } else {
                    let w = choose|w: int|
                        0 <= w < a@.len() && w < b@.len() && a@.subrange(0, w) == b@.subrange(0, w)
                            && a@[w] < b@[w];
                    assert(a@[w] == b@[w]);
                }
            }
        }
    }
    r
}

/// Strict order on values; false across tags.
pub fn value_less(a: &Value, b: &Value) -> (r: bool)
    ensures
        r == value_lt(*a, *b),
{
    match a {
        Value::Int(x) => match b {
            Value::Int(y) => *x < *y,
            _ => false,
        },
        Value::String(x) => match b {
            Value::String(y) => bytes_less(x.as_str().as_bytes(), y.as_str().as_bytes()),
            _ => false,
        },
        Value::Bool(x) => match b {
            Value::Bool(y) => !*x && *y,
            _ => false,
        },
    }
}

/// Non-strict order on values; false across tags.
pub fn value_less_eq(a: &Value, b: &Value) -> (r: bool)
    ensures
        r == value_le(*a, *b),
{
    match a {
        Value::Int(x) => match b {
            Value::Int(y) => *x <= *y,
            _ => false,
        },
        Value::String(x) => match b {
            Value::String(y) => !bytes_less(y.as_str().as_bytes(), x.as_str().as_bytes()),
            _ => false,
        },
        Value::Bool(x) => match b {
            Value::Bool(y) => !(*x && !*y),
            _ => false,
        },
    }
}

/// One FNV-1a step over a byte.
fn fnv_step_exec(h: u64, b: u8) -> (r: u64)
    ensures
        r == fnv_step(h, b),
{
    (h ^ (b as u64)).wrapping_mul(FNV_PRIME)
}

/// The two's-complement bit pattern of a 32-bit integer.
fn int_bits_exec(x: i32) -> (u: u64)
    ensures
        u as int == int_bits(x),
{
    if x >= 0 {
        x as u64
    } else {
        proof {
            assert((x as int) % 0x100000000 == (x as int) + 0x100000000);
        }
        (x as i64 + 0x100000000) as u64
    }
}

/// Folds one value into the running hash.
pub fn hash_value(h: u64, v: &Value) -> (r: u64)
    ensures
        r == value_hash(h, *v),
{
    match v {
        Value::Int(x) => {
            let mut acc = fnv_step_exec(h, 0);
            let u = int_bits_exec(*x);
            acc = fnv_step_exec(acc, (u % 256) as u8);
            acc = fnv_step_exec(acc, ((u / 256) % 256) as u8);
            acc = fnv_step_exec(acc, ((u / 65536) % 256) as u8);
            acc = fnv_step_exec(acc, ((u / 16777216) % 256) as u8);
            acc
        },
        Value::String(s) => {
            let bs = s.as_str().as_bytes();
            let mut acc = fnv_step_exec(h, 1);
            let mut k: usize = 0;
            while k < bs.len()
                invariant
                    k <= bs@.len(),
                    fnv_from(bs@, k as int, acc) == fnv_from(bs@, 0, fnv_step(h, 1)),
                decreases bs@.len() - k,
            {
                acc = fnv_step_exec(acc, bs[k]);
                k += 1;
            }
            fnv_step_exec(acc, 255)
        },
        Value::Bool(b) => {
            let acc = fnv_step_exec(h, 2);
            if *b {
                fnv_step_exec(acc, 1)
            } else {
                fnv_step_exec(acc, 0)
            }
        },
    }
}

/// A leaf test over one event value: a stable identifier and an
/// evaluator.
pub trait Predicate {
    /// The identifier the predicate derives from its operator and
    /// operands.
    spec fn spec_id(&self) -> u64;

    /// What the predicate holds of a value.
    spec fn spec_evaluate(&self, value: &Value) -> bool;

    /// The stable 64-bit identifier.
    fn id(&self) -> (r: u64)
        ensures
            r == self.spec_id(),
    ;

    /// Evaluates the predicate against one value.
    fn evaluate(&self, value: &Value) -> (r: bool)
        ensures
            r == self.spec_evaluate(value),
    ;
}

/// Equality or inequality against a constant.
#[derive(Clone, Copy, Debug)]
pub enum EqOperation {
    Equal,
    NotEqual,
}

/// The tag byte an equality operation hashes to.
pub open spec fn eq_op_tag(op: EqOperation) -> u8 {
    match op {
        EqOperation::Equal => 0u8,
        EqOperation::NotEqual => 1u8,
    }
}

/// Tests a value for (in)equality against a constant.
#[derive(Clone, Debug)]
pub struct EqualPredicate {
    pub constant: Value,
    pub operation: EqOperation,
}

impl EqualPredicate {
    /// A predicate testing against this constant with this operation.
    pub fn new(constant: Value, operation: EqOperation) -> (p: EqualPredicate)
        ensures
            p.constant == constant,
            p.operation == operation,
    {
        EqualPredicate { constant, operation }
    }
}

impl Predicate for EqualPredicate {
    open spec fn spec_id(&self) -> u64 {
        fnv_step(value_hash(FNV_OFFSET, self.constant), eq_op_tag(self.operation))
    }

    open spec fn spec_evaluate(&self, value: &Value) -> bool {
        match self.operation {
            EqOperation::Equal => value_eq(*value, self.constant),
            EqOperation::NotEqual => !value_eq(*value, self.constant),
        }
    }

    fn id(&self) -> (r: u64) {
        let h = hash_value(FNV_OFFSET, &self.constant);
        let tag: u8 = match self.operation {
            EqOperation::Equal => 0,
            EqOperation::NotEqual => 1,
        };
        fnv_step_exec(h, tag)
    }

    fn evaluate(&self, value: &Value) -> (r: bool) {
        match self.operation {
            EqOperation::Equal => values_equal(value, &self.constant),
            EqOperation::NotEqual => !values_equal(value, &self.constant),
        }
    }
}

/// A predicate holding exactly of values equal to `value`.
pub fn equal(value: Value) -> (p: EqualPredicate)
    ensures
        p.constant == value,
        p.operation is Equal,
{
    EqualPredicate::new(value, EqOperation::Equal)
}

/// A predicate holding exactly of values not equal to `value`.
pub fn not_equal(value: Value) -> (p: EqualPredicate)
    ensures
        p.constant == value,
        p.operation is NotEqual,
{
    EqualPredicate::new(value, EqOperation::NotEqual)
}

/// An ordering comparison against a constant.
#[derive(Clone, Copy, Debug)]
pub enum OrdOperation {
    Greater,
    GreaterEqual,
    LessEqual,
    Less,
}

/// The tag byte an ordering operation hashes to.
pub open spec fn ord_op_tag(op: OrdOperation) -> u8 {
    match op {
        OrdOperation::Greater => 2u8,
        OrdOperation::GreaterEqual => 3u8,
        OrdOperation::LessEqual => 4u8,
        OrdOperation::Less => 5u8,
    }
}

/// Tests a value against a constant under an ordering operation.
#[derive(Clone, Debug)]
pub struct OrdPredicate {
    pub constant: Value,
    pub operation: OrdOperation,
}

impl OrdPredicate {
    /// A predicate comparing against this constant with this operation.
    pub fn new(constant: Value, operation: OrdOperation) -> (p: OrdPredicate)
        ensures
            p.constant == constant,
            p.operation == operation,
    {
        OrdPredicate { constant, operation }
    }
}

impl Predicate for OrdPredicate {
    open spec fn spec_id(&self) -> u64 {
        fnv_step(value_hash(FNV_OFFSET, self.constant), ord_op_tag(self.operation))
    }

    open spec fn spec_evaluate(&self, value: &Value) -> bool {
        match self.operation {
            OrdOperation::Greater => value_gt(*value, self.constant),
            OrdOperation::GreaterEqual => value_ge(*value, self.constant),
            OrdOperation::LessEqual => value_le(*value, self.constant),
            OrdOperation::Less => value_lt(*value, self.constant),
        }
    }

    fn id(&self) -> (r: u64) {
        let h = hash_value(FNV_OFFSET, &self.constant);
        let tag: u8 = match self.operation {
            OrdOperation::Greater => 2,
            OrdOperation::GreaterEqual => 3,
            OrdOperation::LessEqual => 4,
            OrdOperation::Less => 5,
        };
        fnv_step_exec(h, tag)
    }

    fn evaluate(&self, value: &Value) -> (r: bool) {
        match self.operation {
            OrdOperation::Greater => value_less(&self.constant, value),
            OrdOperation::GreaterEqual => value_less_eq(&self.constant, value),
            OrdOperation::LessEqual => value_less_eq(value, &self.constant),
            OrdOperation::Less => value_less(value, &self.constant),
        }
    }
}

/// A predicate holding of values strictly above `value`.
pub fn greater(value: Value) -> (p: OrdPredicate)
    ensures
        p.constant == value,
        p.operation is Greater,
{
    OrdPredicate::new(value, OrdOperation::Greater)
}

/// A predicate holding of values at or above `value`.
pub fn greater_equal(value: Value) -> (p: OrdPredicate)
    ensures
        p.constant == value,
        p.operation is GreaterEqual,
{
    OrdPredicate::new(value, OrdOperation::GreaterEqual)
}

/// A predicate holding of values at or below `value`.
pub fn less_equal(value: Value) -> (p: OrdPredicate)
    ensures
        p.constant == value,
        p.operation is LessEqual,
{
    OrdPredicate::new(value, OrdOperation::LessEqual)
}

/// A predicate holding of values strictly below `value`.
pub fn less(value: Value) -> (p: OrdPredicate)
    ensures
        p.constant == value,
        p.operation is Less,
{
    OrdPredicate::new(value, OrdOperation::Less)
}

/// Membership or non-membership in a list of constants.
#[derive(Clone, Copy, Debug)]
pub enum SetOperation {
    ElementOf,
    NotElementOf,
}

/// The tag byte a membership operation hashes to.
pub open spec fn set_op_tag(op: SetOperation) -> u8 {
    match op {
        SetOperation::ElementOf => 6u8,
        SetOperation::NotElementOf => 7u8,
    }
}

/// Whether some constant in `cs` equals `v`.
pub open spec fn contains_value(cs: Seq<Value>, v: Value) -> bool {
    exists|j: int| 0 <= j < cs.len() && value_eq(cs[j], v)
}

/// Folds the constants `cs[k..]` into the running hash.
pub open spec fn set_hash_from(cs: Seq<Value>, k: int, h: u64) -> u64
    decreases cs.len() - k,
{
    if k < 0 || k >= cs.len() {
        h
    } else {
        set_hash_from(cs, k + 1, value_hash(h, cs[k]))
    }
}

/// Tests a value for membership in a list of constants.  The identifier
/// hashes the constants in order and then the operation's tag, so the two
/// membership operations over one list keep distinct identifiers.
#[derive(Clone, Debug)]
pub struct SetPredicate {
    pub constants: Vec<Value>,
    pub operation: SetOperation,
}

impl SetPredicate {
    /// A predicate over this constant list with this operation.
    pub fn new(constants: Vec<Value>, operation: SetOperation) -> (p: SetPredicate)
        ensures
            p.constants == constants,
            p.operation == operation,
    {
        SetPredicate { constants, operation }
    }

    /// Appends one more constant to the list.
    pub fn push(&mut self, value: Value)
        ensures
            final(self).constants@ == old(self).constants@.push(value),
            final(self).operation == old(self).operation,
    {
        self.constants.push(value)
    }
}

impl Predicate for SetPredicate {
    open spec fn spec_id(&self) -> u64 {
        fnv_step(set_hash_from(self.constants@, 0, FNV_OFFSET), set_op_tag(self.operation))
    }

    open spec fn spec_evaluate(&self, value: &Value) -> bool {
        match self.operation {
            SetOperation::ElementOf => contains_value(self.constants@, *value),
            SetOperation::NotElementOf => !contains_value(self.constants@, *value),
        }
    }

    fn id(&self) -> (r: u64) {
        let mut h: u64 = FNV_OFFSET;
        let mut k: usize = 0;
        while k < self.constants.len()
            invariant
                k <= self.constants@.len(),
                set_hash_from(self.constants@, k as int, h) == set_hash_from(
                    self.constants@,
                    0,
                    FNV_OFFSET,
                ),
            decreases self.constants@.len() - k,
        {
            h = hash_value(h, &self.constants[k]);
            k += 1;
        }
        let tag: u8 = match self.operation {
            SetOperation::ElementOf => 6,
            SetOperation::NotElementOf => 7,
        };
        fnv_step_exec(h, tag)
    }

    fn evaluate(&self, value: &Value) -> (r: bool) {
        let mut found = false;
        let mut k: usize = 0;
        while k < self.constants.len()
            invariant
                k <= self.constants@.len(),
                found == (exists|j: int| 0 <= j < k && value_eq(self.constants@[j], *value)),
            decreases self.constants@.len() - k,
        {
            if values_equal(&self.constants[k], value) {
                found = true;
            }
            k += 1;
        }
        match self.operation {
            SetOperation::ElementOf => found,
            SetOperation::NotElementOf => !found,
        }
    }
}

/// A predicate holding of values equal to some element of `values`.
pub fn element_of(values: Vec<Value>) -> (p: SetPredicate)
    ensures
        p.constants == values,
        p.operation is ElementOf,
{
    SetPredicate::new(values, SetOperation::ElementOf)
}

/// A predicate holding of values equal to no element of `values`.
pub fn not_element_of(values: Vec<Value>) -> (p: SetPredicate)
    ensures
        p.constants == values,
        p.operation is NotElementOf,
{
    SetPredicate::new(values, SetOperation::NotElementOf)
}

/// The tag byte a range test hashes to.
pub open spec fn between_op_tag() -> u8 {
    8u8
}

/// Tests a value for lying in a closed range.  When the bounds are out of
/// order, or the value's tag differs from a bound's, no value satisfies
/// the test: the predicate fails closed.
#[derive(Clone, Debug)]
pub struct BetweenPredicate {
    pub start_constant: Value,
    pub end_constant: Value,
}

impl BetweenPredicate {
    /// A predicate over the closed range from `start_constant` to
    /// `end_constant`.
    fn new(start_constant: Value, end_constant: Value) -> (p: BetweenPredicate)
        ensures
            p.start_constant == start_constant,
            p.end_constant == end_constant,
    {
        BetweenPredicate { start_constant, end_constant }
    }
}

impl Predicate for BetweenPredicate {
    open spec fn spec_id(&self) -> u64 {
        fnv_step(
            value_hash(value_hash(FNV_OFFSET, self.start_constant), self.end_constant),
            between_op_tag(),
        )
    }

    open spec fn spec_evaluate(&self, value: &Value) -> bool {
        value_ge(*value, self.start_constant) && value_le(*value, self.end_constant)
    }

    fn id(&self) -> (r: u64) {
        let h = hash_value(FNV_OFFSET, &self.start_constant);
        fnv_step_exec(hash_value(h, &self.end_constant), 8)
    }

    fn evaluate(&self, value: &Value) -> (r: bool) {
        value_less_eq(&self.start_constant, value) && value_less_eq(value, &self.end_constant)
    }
}

/// A predicate holding of values between `start` and `end`, inclusive.
pub fn between(start: Value, end: Value) -> (p: BetweenPredicate)
    ensures
        p.start_constant == start,
        p.end_constant == end,
{
    BetweenPredicate::new(start, end)
}

} // verus!
