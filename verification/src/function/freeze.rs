//! Fingerprints of functions: equal for sums (and products) that differ only
//! in the order of their terms.
use std::collections::hash_map::DefaultHasher;
use std::hash::{Hash, Hasher};
use vstd::prelude::*;
use crate::function::function::{lemma_terms_of_vec, variant_index, Function, Term};
use crate::hashing::{digest, hash_str, str_writes, u64_writes, write_u64};

verus! {

/// What hashing `std::mem::discriminant` of a `Function` of the given variant
/// writes into a hasher.
pub uninterp spec fn discriminant_writes(variant: nat) -> Seq<Seq<u8>>;

/// Calls `std::mem::discriminant(f)` and hashes the result into `h`.
/// Claimed: the writes appended to `h` depend on the variant of `f` alone,
/// which is what `std::mem::discriminant` identifies.
#[verifier::external_body]
pub(crate) fn hash_discriminant(h: &mut DefaultHasher, f: &Function)
    ensures
        final(h)@ == old(h)@ + discriminant_writes(variant_index(f@)),
{
    std::mem::discriminant(f).hash(h);
}

/// Digest of a fresh hasher after the discriminant of a variant alone.
pub open spec fn class_of(variant: nat) -> u64 {
    digest(discriminant_writes(variant))
}

/// The digest of a hasher after a discriminant and two `u64` values.
pub open spec fn pair_digest(variant: nat, left: u64, right: u64) -> u64 {
    digest(discriminant_writes(variant) + u64_writes(left) + u64_writes(right))
}

/// The fingerprint of a term.  That of a sum or a product is the class of
/// its kind combined (by exclusive or) with the fingerprints of its terms.
pub open spec fn fingerprint(t: Term) -> u64
    decreases t,
{
    match t {
        Term::Variable(v) => digest(discriminant_writes(0) + str_writes(v)),
        Term::Constant(c) => class_of(1) ^ c,
        Term::S { f, m, p } => class_of(2) ^ fingerprint(*f) ^ m ^ p,
        Term::Add(s) => class_of(3) ^ xor_of(s),
        Term::Mul(s) => class_of(5) ^ xor_of(s),
        Term::Sub { lhs, rhs } => pair_digest(4, fingerprint(*lhs), fingerprint(*rhs)),
        Term::Div { num, den } => pair_digest(6, fingerprint(*den), fingerprint(*num)),
    }
}

/// The exclusive or of the fingerprints of a sequence of terms.
pub open spec fn xor_of(s: Seq<Term>) -> u64
    decreases s,
{
    if s.len() == 0 {
        0
    } else {
        xor_of(s.drop_last()) ^ fingerprint(s.last())
    }
}

proof fn lemma_xor_assoc(a: u64, b: u64, c: u64)
    ensures
        (a ^ b) ^ c == a ^ (b ^ c),
{
    assert((a ^ b) ^ c == a ^ (b ^ c)) by (bit_vector);
}

/// Computes the fingerprint of `function`.
pub fn freeze(function: &Function) -> (r: u64)
    ensures
        r == fingerprint(function@),
    decreases function,
{
    let mut hasher = DefaultHasher::new();
    hash_discriminant(&mut hasher, function);
    match function {
        Function::Constant(c) => {
            let mut class = hasher.finish();
            class = class ^ *c;
            class
        },
        Function::Variable(v) => {
            hash_str(&mut hasher, v);
            hasher.finish()
        },
        Function::S { f, m, p } => {
            let mut class = hasher.finish();
            class = class ^ freeze(&**f);
            class = class ^ *m;
            class = class ^ *p;
            class
        },
        Function::Add { vec } | Function::Mul { vec } => {
            let mut class = hasher.finish();
            let ghost start = class;
            let ghost t = crate::function::function::terms_of(vec@);
            proof {
                lemma_terms_of_vec(*vec);
                assert(start ^ 0u64 == start) by (bit_vector);
                assert(t.take(0) =~= Seq::<Term>::empty());
            }
            let mut i: usize = 0;
            while i < vec.len()
                invariant
                    i <= vec@.len(),
                    t == crate::function::function::terms_of(vec@),
                    *function == (Function::Add { vec: *vec }) || *function == (Function::Mul {
                        vec: *vec,
                    }),
                    class == start ^ xor_of(t.take(i as int)),
                decreases vec@.len() - i,
            {
                proof {
                    if *function is Add {
                        assert(decreases_to!(*function => function->Add_vec));
                    } else {
                        assert(decreases_to!(*function => function->Mul_vec));
                    }
                    assert(decreases_to!(vec => vec@));
                    assert(decreases_to!(vec@ => vec@[i as int]));
                }
                let h = freeze(&*vec[i]);
                proof {
                    lemma_xor_assoc(start, xor_of(t.take(i as int)), h);
                    assert(t.take(i as int + 1).drop_last() =~= t.take(i as int));
                }
                class = class ^ h;
                i = i + 1;
            }
            proof {
                assert(t.take(vec@.len() as int) =~= t);
            }
            class
        },
        Function::Sub { lhs: l, rhs: r } | Function::Div { den: l, num: r } => {
            let left_hash = freeze(&**l);
            let right_hash = freeze(&**r);
            write_u64(&mut hasher, left_hash);
            write_u64(&mut hasher, right_hash);
            hasher.finish()
        },
    }
}

proof fn lemma_xor_swap_last(a: u64, b: u64, c: u64)
    ensures
        (a ^ b) ^ c == (a ^ c) ^ b,
{
    assert((a ^ b) ^ c == (a ^ c) ^ b) by (bit_vector);
}

/// Taking one term out of a sequence takes its fingerprint out of the
/// exclusive or.
proof fn lemma_xor_of_remove(s: Seq<Term>, j: int)
    requires
        0 <= j < s.len(),
    ensures
        xor_of(s) == xor_of(s.remove(j)) ^ fingerprint(s[j]),
    decreases s.len(),
{
    if j < s.len() - 1 {
        let d = s.drop_last();
        lemma_xor_of_remove(d, j);
        assert(s.remove(j).drop_last() =~= d.remove(j));
        assert(s.remove(j).last() == s.last());
        lemma_xor_swap_last(xor_of(d.remove(j)), fingerprint(s[j]), fingerprint(s.last()));
    } else {
        assert(s.remove(j) =~= s.drop_last());
    }
}

/// Sequences with the same terms, in whatever order, have the same
/// exclusive or of fingerprints.
proof fn lemma_xor_of_permutation(s1: Seq<Term>, s2: Seq<Term>)
    requires
        s1.to_multiset() == s2.to_multiset(),
    ensures
        xor_of(s1) == xor_of(s2),
    decreases s1.len(),
{
    broadcast use vstd::seq_lib::group_to_multiset_ensures;

    if s1.len() == 0 {
        vstd::seq_lib::to_multiset_len(s1);
        vstd::seq_lib::to_multiset_len(s2);
        assert(s2 =~= s1);
    } else {
        let x = s1.last();
        assert(s1.drop_last().push(x) =~= s1);
        assert(s1.to_multiset().count(x) > 0);
        assert(s2.contains(x));
        let j = choose|j: int| 0 <= j < s2.len() && s2[j] == x;
        assert(s2.remove(j).to_multiset() == s2.to_multiset().remove(x));
        assert(s1.drop_last().to_multiset() =~= s1.to_multiset().remove(x));
        lemma_xor_of_permutation(s1.drop_last(), s2.remove(j));
        lemma_xor_of_remove(s2, j);
    }
}

/// The fingerprint of a sum, and that of a product, do not depend on the
/// order of the terms or factors.
pub proof fn lemma_fingerprint_order_free(s1: Seq<Term>, s2: Seq<Term>)
    requires
        s1.to_multiset() == s2.to_multiset(),
    ensures
        fingerprint(Term::Add(s1)) == fingerprint(Term::Add(s2)),
        fingerprint(Term::Mul(s1)) == fingerprint(Term::Mul(s2)),
{
    lemma_xor_of_permutation(s1, s2);
}

/// The fingerprint of a difference is the digest of a hasher fed the
/// discriminant of a difference, then the fingerprint of the left side, and
/// only then that of the right side: the order of the two sides counts.
pub proof fn lemma_difference_fingerprint_ordered(lhs: Term, rhs: Term)
    ensures
        fingerprint((Term::Sub { lhs: Box::new(lhs), rhs: Box::new(rhs) })) == digest(
            discriminant_writes(4) + u64_writes(fingerprint(lhs)) + u64_writes(fingerprint(rhs)),
        ),
{
}

/// The fingerprint of a quotient is the digest of a hasher fed the
/// discriminant of a quotient, then the fingerprint of the denominator, and
/// only then that of the numerator: the two sides are not interchangeable.
pub proof fn lemma_quotient_fingerprint_ordered(num: Term, den: Term)
    ensures
        fingerprint((Term::Div { num: Box::new(num), den: Box::new(den) })) == digest(
            discriminant_writes(6) + u64_writes(fingerprint(den)) + u64_writes(fingerprint(num)),
        ),
{
}

/// Two constants have the same fingerprint exactly when their bit patterns
/// are the same.
pub proof fn lemma_constant_fingerprint_injective(a: u64, b: u64)
    ensures
        fingerprint(Term::Constant(a)) == fingerprint(Term::Constant(b)) <==> a == b,
{
    let t = class_of(1);
    assert(t ^ a == t ^ b <==> a == b) by (bit_vector);
}

} // verus!
