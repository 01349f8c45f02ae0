//! Binary expression trees whose equality is the equality of their
//! fingerprints.
use std::collections::hash_map::DefaultHasher;
use std::hash::{Hash, Hasher};
use vstd::prelude::*;
use crate::hashing::{digest, hash_str, str_writes, u64_writes, write_u64};

verus! {

/// An expression over named variables and IEEE-754 double constants, the
/// constants held by their bit patterns (`f64::to_bits`).
#[derive(Debug)]
pub enum Function {
    Constant(u64),
    Variable(String),
    Add(Box<Function>, Box<Function>),
    Sub(Box<Function>, Box<Function>),
    Mul(Box<Function>, Box<Function>),
    Div(Box<Function>, Box<Function>),
}

/// Position of a variant in the declaration of `Function`.
pub open spec fn variant_index(f: &Function) -> nat {
    match *f {
        Function::Constant(_) => 0,
        Function::Variable(_) => 1,
        Function::Add(_, _) => 2,
        Function::Sub(_, _) => 3,
        Function::Mul(_, _) => 4,
        Function::Div(_, _) => 5,
    }
}

/// What hashing `std::mem::discriminant` of a `Function` of the given variant
/// writes into a hasher.
pub uninterp spec fn discriminant_writes(variant: nat) -> Seq<Seq<u8>>;

/// Calls `std::mem::discriminant(f)` and hashes the result into `h`.
/// Claimed: the writes appended to `h` depend on the variant of `f` alone,
/// which is what `std::mem::discriminant` identifies.
#[verifier::external_body]
pub(crate) fn hash_discriminant(h: &mut DefaultHasher, f: &Function)
    ensures
        final(h)@ == old(h)@ + discriminant_writes(variant_index(f)),
{
    std::mem::discriminant(f).hash(h);
}

/// Digest of a fresh hasher after the discriminant of a variant alone.
pub open spec fn class_of(variant: nat) -> u64 {
    digest(discriminant_writes(variant))
}

/// The fingerprint of an expression.
pub open spec fn fingerprint(f: Function) -> u64
    decreases f,
{
    match f {
        Function::Constant(c) => class_of(0) ^ c,
        Function::Variable(v) => digest(discriminant_writes(1) + str_writes(v@)),
        Function::Add(l, r) => class_of(2) ^ fingerprint(*l) ^ fingerprint(*r),
        Function::Mul(l, r) => class_of(4) ^ fingerprint(*l) ^ fingerprint(*r),
        Function::Sub(l, r) => digest(
            discriminant_writes(3) + u64_writes(fingerprint(*l)) + u64_writes(fingerprint(*r)),
        ),
        Function::Div(l, r) => digest(
            discriminant_writes(5) + u64_writes(fingerprint(*l)) + u64_writes(fingerprint(*r)),
        ),
    }
}

/// Computes the fingerprint of `function`.
pub fn freeze(function: &Function) -> (r: u64)
    ensures
        r == fingerprint(*function),
    decreases function,
{
    let mut hasher = DefaultHasher::new();
    hash_discriminant(&mut hasher, function);
    match function {
        Function::Constant(c) => {
            let mut class = hasher.finish();
            class = class ^ *c;
            class
        },
        Function::Variable(v) => {
            hash_str(&mut hasher, v.as_str());
            hasher.finish()
        },
        Function::Add(l, r) | Function::Mul(l, r) => {
            let mut class = hasher.finish();
            class = class ^ freeze(l);
            class = class ^ freeze(r);
            class
        },
        Function::Sub(l, r) | Function::Div(l, r) => {
            let left_hash = freeze(l);
            let right_hash = freeze(r);
            write_u64(&mut hasher, left_hash);
            write_u64(&mut hasher, right_hash);
            hasher.finish()
        },
    }
}


/// The fingerprint of a difference `l - r` is the digest of a hasher fed
/// the discriminant of a difference, then the fingerprint of `l`, and only
/// then that of `r`: unlike a sum, the order of the operands counts.
pub proof fn lemma_difference_fingerprint_ordered(l: Function, r: Function)
    ensures
        fingerprint(Function::Sub(Box::new(l), Box::new(r))) == digest(
            discriminant_writes(3) + u64_writes(fingerprint(l)) + u64_writes(fingerprint(r)),
        ),
{
}

/// The fingerprint of a quotient `l / r` is the digest of a hasher fed the
/// discriminant of a quotient, then the fingerprint of the numerator `l`,
/// and only then that of the denominator `r`: unlike a product, the order
/// of the operands counts.
pub proof fn lemma_quotient_fingerprint_ordered(l: Function, r: Function)
    ensures
        fingerprint(Function::Div(Box::new(l), Box::new(r))) == digest(
            discriminant_writes(5) + u64_writes(fingerprint(l)) + u64_writes(fingerprint(r)),
        ),
{
}

impl Clone for Function {
    fn clone(&self) -> (r: Self)
        ensures
            r == *self,
        decreases self,
    {
        match self {
            Function::Constant(c) => Function::Constant(*c),
            Function::Variable(v) => Function::Variable(v.clone()),
            Function::Add(l, r) => Function::Add(Box::new((**l).clone()), Box::new((**r).clone())),
            Function::Sub(l, r) => Function::Sub(Box::new((**l).clone()), Box::new((**r).clone())),
            Function::Mul(l, r) => Function::Mul(Box::new((**l).clone()), Box::new((**r).clone())),
            Function::Div(l, r) => Function::Div(Box::new((**l).clone()), Box::new((**r).clone())),
        }
    }
}

impl PartialEq for Function {
    /// Two expressions are equal when their fingerprints are.
    fn eq(&self, other: &Self) -> (r: bool) {
        freeze(self) == freeze(other)
    }
}

impl vstd::std_specs::cmp::PartialEqSpecImpl for Function {
    open spec fn obeys_eq_spec() -> bool {
        true
    }

    open spec fn eq_spec(&self, other: &Self) -> bool {
        fingerprint(*self) == fingerprint(*other)
    }
}

impl Eq for Function {}

proof fn lemma_xor_swap(t: u64, x: u64, y: u64)
    ensures
        t ^ x ^ y == t ^ y ^ x,
{
    assert(t ^ x ^ y == t ^ y ^ x) by (bit_vector);
}

proof fn lemma_xor_regroup(t: u64, x: u64, y: u64, z: u64)
    ensures
        t ^ (t ^ x ^ y) ^ z == t ^ x ^ (t ^ y ^ z),
{
    assert(t ^ (t ^ x ^ y) ^ z == t ^ x ^ (t ^ y ^ z)) by (bit_vector);
}

/// The fingerprint of a sum does not depend on the order of its operands.
pub proof fn lemma_add_commutative(a: Function, b: Function)
    ensures
        fingerprint(Function::Add(Box::new(a), Box::new(b))) == fingerprint(
            Function::Add(Box::new(b), Box::new(a)),
        ),
{
    lemma_xor_swap(class_of(2), fingerprint(a), fingerprint(b));
}

/// The fingerprint of a product does not depend on the order of its operands.
pub proof fn lemma_mul_commutative(a: Function, b: Function)
    ensures
        fingerprint(Function::Mul(Box::new(a), Box::new(b))) == fingerprint(
            Function::Mul(Box::new(b), Box::new(a)),
        ),
{
    lemma_xor_swap(class_of(4), fingerprint(a), fingerprint(b));
}

/// The fingerprint of a sum of three terms does not depend on how the sum is
/// bracketed.
pub proof fn lemma_add_associative(a: Function, b: Function, c: Function)
    ensures
        fingerprint(
            Function::Add(Box::new(Function::Add(Box::new(a), Box::new(b))), Box::new(c)),
        ) == fingerprint(
            Function::Add(Box::new(a), Box::new(Function::Add(Box::new(b), Box::new(c)))),
        ),
{
    let ab = Function::Add(Box::new(a), Box::new(b));
    let bc = Function::Add(Box::new(b), Box::new(c));
    assert(fingerprint(ab) == class_of(2) ^ fingerprint(a) ^ fingerprint(b));
    assert(fingerprint(bc) == class_of(2) ^ fingerprint(b) ^ fingerprint(c));
    lemma_xor_regroup(class_of(2), fingerprint(a), fingerprint(b), fingerprint(c));
}

/// The fingerprint of a product of three factors does not depend on how the
/// product is bracketed.
pub proof fn lemma_mul_associative(a: Function, b: Function, c: Function)
    ensures
        fingerprint(
            Function::Mul(Box::new(Function::Mul(Box::new(a), Box::new(b))), Box::new(c)),
        ) == fingerprint(
            Function::Mul(Box::new(a), Box::new(Function::Mul(Box::new(b), Box::new(c)))),
        ),
{
    let ab = Function::Mul(Box::new(a), Box::new(b));
    let bc = Function::Mul(Box::new(b), Box::new(c));
    assert(fingerprint(ab) == class_of(4) ^ fingerprint(a) ^ fingerprint(b));
    assert(fingerprint(bc) == class_of(4) ^ fingerprint(b) ^ fingerprint(c));
    lemma_xor_regroup(class_of(4), fingerprint(a), fingerprint(b), fingerprint(c));
}

/// Two constants have the same fingerprint exactly when their bit patterns
/// are the same (so `0.0`, `-0.0`, NaN and the infinities are told apart).
pub proof fn lemma_constant_fingerprint_injective(a: u64, b: u64)
    ensures
        fingerprint(Function::Constant(a)) == fingerprint(Function::Constant(b)) <==> a == b,
{
    let t = class_of(0);
    assert(t ^ a == t ^ b <==> a == b) by (bit_vector);
}

} // verus!
