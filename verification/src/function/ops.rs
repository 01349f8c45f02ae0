//! The algebraic constructors: sums and products gather their terms into
//! one flat list, and an operation on two constants is folded into one.
//!
//! Numbers are bit patterns of doubles, and the arithmetic on them is handed
//! in by the caller (`fold`), since the library itself does no floating-point
//! arithmetic.
use std::sync::Arc;
use vstd::prelude::*;
use crate::function::equality::{eq_by, lemma_variable_sums_equal};
use crate::function::freeze::{fingerprint, lemma_fingerprint_order_free};
use crate::function::function::{lemma_terms_of_vec, terms_of, Function, Term};

verus! {

/// The terms a term contributes to a sum: those of a sum, or itself.
pub open spec fn summands(t: Term) -> Seq<Term> {
    match t {
        Term::Add(s) => s,
        _ => seq![t],
    }
}

/// The factors a term contributes to a product: those of a product, or
/// itself.
pub open spec fn factors(t: Term) -> Seq<Term> {
    match t {
        Term::Mul(s) => s,
        _ => seq![t],
    }
}

/// The terms of `a + b`, in the order the sum lists them, when the two are
/// not both constants: the terms of two sums are joined, a term joins a sum
/// at its end, and two other terms make a sum of two.
pub open spec fn sum_terms(a: Term, b: Term) -> Seq<Term> {
    match (a, b) {
        (Term::Add(l), Term::Add(r)) => l + r,
        (Term::Add(l), _) => l.push(b),
        (_, Term::Add(r)) => r.push(a),
        _ => seq![a, b],
    }
}

/// The factors of `a * b`, in the order the product lists them, when the
/// two are not both constants.
pub open spec fn product_terms(a: Term, b: Term) -> Seq<Term> {
    match (a, b) {
        (Term::Mul(l), Term::Mul(r)) => l + r,
        (Term::Mul(l), _) => l.push(b),
        (_, Term::Mul(r)) => r.push(a),
        _ => seq![a, b],
    }
}

/// Both are constants.
pub open spec fn both_constant(a: Term, b: Term) -> bool {
    a is Constant && b is Constant
}

/// `r` is the constant that `fold` makes of the two constants `a` and `b`.
pub open spec fn folded<F: Fn(u64, u64) -> u64>(a: Term, b: Term, fold: F, r: Term) -> bool {
    r matches Term::Constant(c) && fold.ensures((a->Constant_0, b->Constant_0), c)
}

proof fn lemma_join(l: Seq<Arc<Function>>, r: Seq<Arc<Function>>)
    ensures
        terms_of(l + r) == terms_of(l) + terms_of(r),
{
    assert(terms_of(l + r) =~= terms_of(l) + terms_of(r));
}

proof fn lemma_push(l: Seq<Arc<Function>>, x: Arc<Function>)
    ensures
        terms_of(l.push(x)) == terms_of(l).push(x@),
{
    assert(terms_of(l.push(x)) =~= terms_of(l).push(x@));
}

impl<'f> Function<'f> {
    /// `self + rhs`: two constants are folded into one by `fold` (the
    /// addition of doubles); otherwise the result is the sum of
    /// `sum_terms(self, rhs)`.
    pub fn add<F: Fn(u64, u64) -> u64>(self, rhs: Function<'f>, fold: &F) -> (r: Function<'f>)
        requires
            forall|a: u64, b: u64| fold.requires((a, b)),
        ensures
            both_constant(self@, rhs@) ==> folded(self@, rhs@, *fold, r@),
            !both_constant(self@, rhs@) ==> r@ == Term::Add(sum_terms(self@, rhs@)),
    {
        let ghost a = self@;
        let ghost b = rhs@;
        match (self, rhs) {
            (Function::Constant(x), Function::Constant(y)) => Function::Constant(fold(x, y)),
            (Function::Add { vec: mut l }, Function::Add { vec: mut r }) => {
                proof {
                    lemma_terms_of_vec(l);
                    lemma_terms_of_vec(r);
                    lemma_join(l@, r@);
                }
                l.append(&mut r);
                proof {
                    lemma_terms_of_vec(l);
                }
                Function::Add { vec: l }
            },
            (Function::Add { vec: mut l }, other) => {
                proof {
                    lemma_terms_of_vec(l);
                }
                let x = Arc::new(other);
                proof {
                    lemma_push(l@, x);
                }
                l.push(x);
                proof {
                    lemma_terms_of_vec(l);
                }
                Function::Add { vec: l }
            },
            (other, Function::Add { vec: mut r }) => {
                proof {
                    lemma_terms_of_vec(r);
                }
                let x = Arc::new(other);
                proof {
                    lemma_push(r@, x);
                }
                r.push(x);
                proof {
                    lemma_terms_of_vec(r);
                }
                Function::Add { vec: r }
            },
            (lhs, rhs) => {
                let v = vec![Arc::new(lhs), Arc::new(rhs)];
                proof {
                    lemma_terms_of_vec(v);
                    assert(terms_of(v@) =~= seq![a, b]);
                }
                Function::Add { vec: v }
            },
        }
    }

    /// `self - rhs`: two constants are folded into one by `fold` (the
    /// subtraction of doubles); otherwise the result is the difference of the
    /// two.
    pub fn sub<F: Fn(u64, u64) -> u64>(self, rhs: Function<'f>, fold: &F) -> (r: Function<'f>)
        requires
            forall|a: u64, b: u64| fold.requires((a, b)),
        ensures
            both_constant(self@, rhs@) ==> folded(self@, rhs@, *fold, r@),
            !both_constant(self@, rhs@) ==> r@ == (Term::Sub {
                lhs: Box::new(self@),
                rhs: Box::new(rhs@),
            }),
    {
        match (self, rhs) {
            (Function::Constant(x), Function::Constant(y)) => Function::Constant(fold(x, y)),
            (lhs, rhs) => Function::Sub { lhs: Arc::new(lhs), rhs: Arc::new(rhs) },
        }
    }

    /// `self * rhs`: two constants are folded into one by `fold` (the
    /// multiplication of doubles); otherwise the result is the product of
    /// `product_terms(self, rhs)`.
    pub fn mul<F: Fn(u64, u64) -> u64>(self, rhs: Function<'f>, fold: &F) -> (r: Function<'f>)
        requires
            forall|a: u64, b: u64| fold.requires((a, b)),
        ensures
            both_constant(self@, rhs@) ==> folded(self@, rhs@, *fold, r@),
            !both_constant(self@, rhs@) ==> r@ == Term::Mul(product_terms(self@, rhs@)),
    {
        let ghost a = self@;
        let ghost b = rhs@;
        match (self, rhs) {
            (Function::Constant(x), Function::Constant(y)) => Function::Constant(fold(x, y)),
            (Function::Mul { vec: mut l }, Function::Mul { vec: mut r }) => {
                proof {
                    lemma_terms_of_vec(l);
                    lemma_terms_of_vec(r);
                    lemma_join(l@, r@);
                }
                l.append(&mut r);
                proof {
                    lemma_terms_of_vec(l);
                }
                Function::Mul { vec: l }
            },
            (Function::Mul { vec: mut l }, other) => {
                proof {
                    lemma_terms_of_vec(l);
                }
                let x = Arc::new(other);
                proof {
                    lemma_push(l@, x);
                }
                l.push(x);
                proof {
                    lemma_terms_of_vec(l);
                }
                Function::Mul { vec: l }
            },
            (other, Function::Mul { vec: mut r }) => {
                proof {
                    lemma_terms_of_vec(r);
                }
                let x = Arc::new(other);
                proof {
                    lemma_push(r@, x);
                }
                r.push(x);
                proof {
                    lemma_terms_of_vec(r);
                }
                Function::Mul { vec: r }
            },
            (lhs, rhs) => {
                let v = vec![Arc::new(lhs), Arc::new(rhs)];
                proof {
                    lemma_terms_of_vec(v);
                    assert(terms_of(v@) =~= seq![a, b]);
                }
                Function::Mul { vec: v }
            },
        }
    }

    /// `self / rhs`: two constants are folded into one by `fold` (the
    /// division of doubles); otherwise the result is the quotient of the two.
    pub fn div<F: Fn(u64, u64) -> u64>(self, rhs: Function<'f>, fold: &F) -> (r: Function<'f>)
        requires
            forall|a: u64, b: u64| fold.requires((a, b)),
        ensures
            both_constant(self@, rhs@) ==> folded(self@, rhs@, *fold, r@),
            !both_constant(self@, rhs@) ==> r@ == (Term::Div {
                num: Box::new(self@),
                den: Box::new(rhs@),
            }),
    {
        match (self, rhs) {
            (Function::Constant(x), Function::Constant(y)) => Function::Constant(fold(x, y)),
            (lhs, rhs) => Function::Div { num: Arc::new(lhs), den: Arc::new(rhs) },
        }
    }
}

/// A sum lists the summands of both operands, and a product the factors of
/// both, each exactly once.
pub proof fn lemma_terms_gathered(a: Term, b: Term)
    ensures
        sum_terms(a, b).to_multiset() == summands(a).to_multiset().add(summands(b).to_multiset()),
        product_terms(a, b).to_multiset() == factors(a).to_multiset().add(
            factors(b).to_multiset(),
        ),
{
    broadcast use vstd::seq_lib::group_to_multiset_ensures;
    broadcast use vstd::multiset::group_multiset_axioms;

    vstd::seq_lib::lemma_multiset_commutative(summands(a), summands(b));
    vstd::seq_lib::lemma_multiset_commutative(factors(a), factors(b));
    match (a, b) {
        (Term::Add(l), Term::Add(r)) => {},
        (Term::Add(l), _) => {
            assert(sum_terms(a, b) =~= l + seq![b]);
        },
        (_, Term::Add(r)) => {
            assert(sum_terms(a, b) =~= r + seq![a]);
            vstd::seq_lib::lemma_multiset_commutative(r, seq![a]);
        },
        _ => {
            assert(sum_terms(a, b) =~= seq![a] + seq![b]);
        },
    }
    match (a, b) {
        (Term::Mul(l), Term::Mul(r)) => {},
        (Term::Mul(l), _) => {
            assert(product_terms(a, b) =~= l + seq![b]);
        },
        (_, Term::Mul(r)) => {
            assert(product_terms(a, b) =~= r + seq![a]);
            vstd::seq_lib::lemma_multiset_commutative(r, seq![a]);
        },
        _ => {
            assert(product_terms(a, b) =~= seq![a] + seq![b]);
        },
    }
}

/// `a + b` and `b + a` have the same fingerprint (where they are sums, that
/// is where `a` and `b` are not both constants).
pub proof fn lemma_sum_commutative(a: Term, b: Term)
    ensures
        fingerprint(Term::Add(sum_terms(a, b))) == fingerprint(Term::Add(sum_terms(b, a))),
{
    broadcast use vstd::multiset::group_multiset_axioms;

    lemma_terms_gathered(a, b);
    lemma_terms_gathered(b, a);
    assert(sum_terms(a, b).to_multiset() =~= sum_terms(b, a).to_multiset());
    lemma_fingerprint_order_free(sum_terms(a, b), sum_terms(b, a));
}

/// `a * b` and `b * a` have the same fingerprint (where they are products).
pub proof fn lemma_product_commutative(a: Term, b: Term)
    ensures
        fingerprint(Term::Mul(product_terms(a, b))) == fingerprint(
            Term::Mul(product_terms(b, a)),
        ),
{
    broadcast use vstd::multiset::group_multiset_axioms;

    lemma_terms_gathered(a, b);
    lemma_terms_gathered(b, a);
    assert(product_terms(a, b).to_multiset() =~= product_terms(b, a).to_multiset());
    lemma_fingerprint_order_free(product_terms(a, b), product_terms(b, a));
}

/// `(a + b) + c` and `a + (b + c)` have the same fingerprint (where all the
/// sums are built, that is where no two neighbouring operands are both
/// constants).
pub proof fn lemma_sum_associative(a: Term, b: Term, c: Term)
    ensures
        fingerprint(Term::Add(sum_terms(Term::Add(sum_terms(a, b)), c))) == fingerprint(
            Term::Add(sum_terms(a, Term::Add(sum_terms(b, c)))),
        ),
{
    broadcast use vstd::multiset::group_multiset_axioms;

    let ab = Term::Add(sum_terms(a, b));
    let bc = Term::Add(sum_terms(b, c));
    lemma_terms_gathered(a, b);
    lemma_terms_gathered(b, c);
    lemma_terms_gathered(ab, c);
    lemma_terms_gathered(a, bc);
    assert(sum_terms(ab, c).to_multiset() =~= sum_terms(a, bc).to_multiset());
    lemma_fingerprint_order_free(sum_terms(ab, c), sum_terms(a, bc));
}

/// `(a * b) * c` and `a * (b * c)` have the same fingerprint (where all the
/// products are built).
pub proof fn lemma_product_associative(a: Term, b: Term, c: Term)
    ensures
        fingerprint(Term::Mul(product_terms(Term::Mul(product_terms(a, b)), c))) == fingerprint(
            Term::Mul(product_terms(a, Term::Mul(product_terms(b, c)))),
        ),
{
    broadcast use vstd::multiset::group_multiset_axioms;

    let ab = Term::Mul(product_terms(a, b));
    let bc = Term::Mul(product_terms(b, c));
    lemma_terms_gathered(a, b);
    lemma_terms_gathered(b, c);
    lemma_terms_gathered(ab, c);
    lemma_terms_gathered(a, bc);
    assert(product_terms(ab, c).to_multiset() =~= product_terms(a, bc).to_multiset());
    lemma_fingerprint_order_free(product_terms(ab, c), product_terms(a, bc));
}


/// For variables, `a + b == b + a` and `(a + b) + c == a + (b + c)` under
/// `==`, and likewise for products.
pub proof fn lemma_variable_sums_commute_and_associate(a: Term, b: Term, c: Term, sharing: bool)
    requires
        a is Variable,
        b is Variable,
        c is Variable,
    ensures
        eq_by(Term::Add(sum_terms(a, b)), Term::Add(sum_terms(b, a)), sharing),
        eq_by(
            Term::Add(sum_terms(Term::Add(sum_terms(a, b)), c)),
            Term::Add(sum_terms(a, Term::Add(sum_terms(b, c)))),
            sharing,
        ),
        eq_by(Term::Mul(product_terms(a, b)), Term::Mul(product_terms(b, a)), sharing),
        eq_by(
            Term::Mul(product_terms(Term::Mul(product_terms(a, b)), c)),
            Term::Mul(product_terms(a, Term::Mul(product_terms(b, c)))),
            sharing,
        ),
{
    broadcast use vstd::seq_lib::group_to_multiset_ensures;

    let ab = seq![a, b];
    let ba = seq![b, a];
    assert(ab =~= Seq::<Term>::empty().push(a).push(b));
    assert(ba =~= Seq::<Term>::empty().push(b).push(a));
    assert(ab.to_multiset() =~= ba.to_multiset());
    let abc = ab.push(c);
    let bca = seq![b, c].push(a);
    assert(seq![b, c] =~= Seq::<Term>::empty().push(b).push(c));
    assert(abc.to_multiset() =~= bca.to_multiset());
    assert(sum_terms(a, b) == ab);
    assert(sum_terms(b, a) == ba);
    assert(sum_terms(Term::Add(ab), c) == abc);
    assert(sum_terms(a, Term::Add(seq![b, c])) == bca);
    assert(product_terms(a, b) == ab);
    assert(product_terms(b, a) == ba);
    assert(product_terms(Term::Mul(ab), c) == abc);
    assert(product_terms(a, Term::Mul(seq![b, c])) == bca);
    lemma_variable_sums_equal(ab, ba, sharing);
    lemma_variable_sums_equal(abc, bca, sharing);
}

} // verus!
