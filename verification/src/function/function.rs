//! The expression type and its mathematical form.
use std::sync::Arc;
use vstd::prelude::*;

verus! {

/// A symbolic function of named variables.
///
/// Numbers (constants, and the multiplier `m` and power `p` of a scaled term
/// `S`, which stands for `m * f^p`) are IEEE-754 doubles held by their bit
/// patterns (`f64::to_bits`).
#[derive(Debug)]
pub enum Function<'f> {
    Variable(&'f str),
    Constant(u64),
    S { f: Arc<Function<'f>>, m: u64, p: u64 },
    Add { vec: Vec<Arc<Function<'f>>> },
    Sub { lhs: Arc<Function<'f>>, rhs: Arc<Function<'f>> },
    Mul { vec: Vec<Arc<Function<'f>>> },
    Div { num: Arc<Function<'f>>, den: Arc<Function<'f>> },
}

/// The mathematical form of a function: a variable's name as characters,
/// and sequences in place of vectors of `Arc`s.
pub enum Term {
    Variable(Seq<char>),
    Constant(u64),
    S { f: Box<Term>, m: u64, p: u64 },
    Add(Seq<Term>),
    Sub { lhs: Box<Term>, rhs: Box<Term> },
    Mul(Seq<Term>),
    Div { num: Box<Term>, den: Box<Term> },
}

/// The term a function stands for.
pub open spec fn term_of(f: Function) -> Term
    decreases f,
{
    match f {
        Function::Variable(v) => Term::Variable(v@),
        Function::Constant(c) => Term::Constant(c),
        Function::S { f, m, p } => Term::S { f: Box::new(term_of(*f)), m, p },
        Function::Add { vec } => Term::Add(
            Seq::new(
                vec@.len(),
                |i: int|
                    if 0 <= i < vec@.len() {
                        term_of(*vec@[i])
                    } else {
                        Term::Constant(0)
                    },
            ),
        ),
        Function::Sub { lhs, rhs } => Term::Sub {
            lhs: Box::new(term_of(*lhs)),
            rhs: Box::new(term_of(*rhs)),
        },
        Function::Mul { vec } => Term::Mul(
            Seq::new(
                vec@.len(),
                |i: int|
                    if 0 <= i < vec@.len() {
                        term_of(*vec@[i])
                    } else {
                        Term::Constant(0)
                    },
            ),
        ),
        Function::Div { num, den } => Term::Div {
            num: Box::new(term_of(*num)),
            den: Box::new(term_of(*den)),
        },
    }
}

/// The terms of a sequence of functions.
pub open spec fn terms_of(s: Seq<Arc<Function>>) -> Seq<Term> {
    Seq::new(s.len(), |i: int| term_of(*s[i]))
}

impl<'f> View for Function<'f> {
    type V = Term;

    open spec fn view(&self) -> Term {
        term_of(*self)
    }
}

/// The terms of a sum or a product are those of its vector.
pub proof fn lemma_terms_of_vec<'f>(vec: Vec<Arc<Function<'f>>>)
    ensures
        (Function::Add { vec })@ == Term::Add(terms_of(vec@)),
        (Function::Mul { vec })@ == Term::Mul(terms_of(vec@)),
{
    assert((Function::Add { vec })@->Add_0 =~= terms_of(vec@));
    assert((Function::Mul { vec })@->Mul_0 =~= terms_of(vec@));
}

/// Position of a variant in the declaration of `Function` (and of `Term`).
pub open spec fn variant_index(t: Term) -> nat {
    match t {
        Term::Variable(_) => 0,
        Term::Constant(_) => 1,
        Term::S { .. } => 2,
        Term::Add(_) => 3,
        Term::Sub { .. } => 4,
        Term::Mul(_) => 5,
        Term::Div { .. } => 6,
    }
}

/// The number of nodes of a term.
pub open spec fn size(t: Term) -> nat
    decreases t,
{
    match t {
        Term::Variable(_) => 1,
        Term::Constant(_) => 1,
        Term::S { f, .. } => 1 + size(*f),
        Term::Add(s) => 1 + size_of(s),
        Term::Mul(s) => 1 + size_of(s),
        Term::Sub { lhs, rhs } => 1 + size(*lhs) + size(*rhs),
        Term::Div { num, den } => 1 + size(*num) + size(*den),
    }
}

/// The number of nodes of a sequence of terms.
pub open spec fn size_of(s: Seq<Term>) -> nat
    decreases s,
{
    if s.len() == 0 {
        0
    } else {
        size_of(s.drop_last()) + size(s.last())
    }
}

/// A term of a sequence is no larger than the whole sequence.
pub proof fn lemma_size_of_member(s: Seq<Term>, j: int)
    requires
        0 <= j < s.len(),
    ensures
        size(s[j]) <= size_of(s),
    decreases s.len(),
{
    if j < s.len() - 1 {
        lemma_size_of_member(s.drop_last(), j);
    }
}

/// Calls `Arc::clone`.
/// Claimed: the new `Arc` points to the same allocation, so to the same value.
#[verifier::external_body]
pub(crate) fn clone_arc<'f>(a: &Arc<Function<'f>>) -> (r: Arc<Function<'f>>)
    ensures
        r == *a,
{
    a.clone()
}

/// Copies a vector of `Arc`s, each copy pointing to the same allocation.
pub(crate) fn clone_terms<'f>(v: &Vec<Arc<Function<'f>>>) -> (r: Vec<Arc<Function<'f>>>)
    ensures
        r@ == v@,
{
    let mut r: Vec<Arc<Function<'f>>> = Vec::new();
    let mut i: usize = 0;
    while i < v.len()
        invariant
            i <= v@.len(),
            r@ == v@.take(i as int),
        decreases v@.len() - i,
    {
        r.push(clone_arc(&v[i]));
        proof {
            assert(v@.take(i + 1) =~= v@.take(i as int).push(v@[i as int]));
        }
        i = i + 1;
    }
    proof {
        assert(v@.take(v@.len() as int) =~= v@);
    }
    r
}

impl<'f> Clone for Function<'f> {
    /// A copy sharing the subterms (`Arc`s) of `self`.
    fn clone(&self) -> (r: Self)
        ensures
            r@ == self@,
    {
        match self {
            Function::Variable(v) => Function::Variable(*v),
            Function::Constant(c) => Function::Constant(*c),
            Function::S { f, m, p } => Function::S { f: clone_arc(f), m: *m, p: *p },
            Function::Add { vec } => {
                let r = Function::Add { vec: clone_terms(vec) };
                proof {
                    assert(r@->Add_0 =~= self@->Add_0);
                }
                r
            },
            Function::Sub { lhs, rhs } => Function::Sub { lhs: clone_arc(lhs), rhs: clone_arc(rhs) },
            Function::Mul { vec } => {
                let r = Function::Mul { vec: clone_terms(vec) };
                proof {
                    assert(r@->Mul_0 =~= self@->Mul_0);
                }
                r
            },
            Function::Div { num, den } => Function::Div { num: clone_arc(num), den: clone_arc(den) },
        }
    }
}

} // verus!
