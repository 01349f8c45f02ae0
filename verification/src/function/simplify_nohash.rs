//! Simplification: every variable becomes a scaled term `1 * x^1`, and the
//! terms of a sum (or the factors of a product) that can be combined are
//! combined, each sum and product becoming a scaled term `1 * (...)^1`.
//!
//! The arithmetic on the numbers (bit patterns of doubles) is handed in by
//! the caller: `plus` and `times`, the addition and multiplication of doubles.
use std::sync::Arc;
use vstd::prelude::*;
use crate::function::equality::{eq_by, eq_defined};
use crate::function::function::{
    clone_arc, lemma_size_of_member, lemma_terms_of_vec, size, size_of, terms_of, Function, Term,
};
use crate::ieee::{bits_eq, float_eq, is_nan};

verus! {

/// The bit pattern of the double `1.0`.
pub const ONE: u64 = 0x3ff0_0000_0000_0000u64;

/// An operation on bit patterns handed in by a caller is a function: it can
/// be called on any pair, and gives one result for each pair.
pub open spec fn is_operation<F: Fn(u64, u64) -> u64>(op: F) -> bool {
    &&& forall|a: u64, b: u64| #[trigger] op.requires((a, b))
    &&& forall|a: u64, b: u64, r1: u64, r2: u64|
        #[trigger] op.ensures((a, b), r1) && #[trigger] op.ensures((a, b), r2) ==> r1 == r2
}

/// The result of the operation `op` on `a` and `b`.
pub open spec fn apply<F: Fn(u64, u64) -> u64>(op: F, a: u64, b: u64) -> u64 {
    choose|r: u64| op.ensures((a, b), r)
}

/// The first of a sequence of decisions (false when there is none).
pub open spec fn next_decision(ds: Seq<bool>) -> bool {
    ds.len() > 0 && ds[0]
}

/// The decisions after the first.
pub open spec fn later_decisions(ds: Seq<bool>) -> Seq<bool> {
    if ds.len() > 0 {
        ds.drop_first()
    } else {
        ds
    }
}

/// What a test `x == y` reports when `d` says how it comes out where the
/// answer depends on shared subterms: true when the terms are equal without
/// sharing, false when they are not equal even with sharing, and `d` in
/// between.
pub open spec fn decided(x: Term, y: Term, d: bool) -> bool {
    eq_by(x, y, false) || (d && eq_by(x, y, true))
}

/// Merging the simplified term `c` into the terms `entries` of a sum,
/// looking from position `j` on: a constant is added to the first constant;
/// a scaled term `m * g^p` is added to the first scaled term with an equal
/// function and an equal power (each test of the functions taking one
/// decision); a term that matches none is appended.  `None` where a test
/// panics.
pub open spec fn add_scan<F: Fn(u64, u64) -> u64>(
    entries: Seq<Term>,
    j: int,
    c: Term,
    plus: F,
    ds: Seq<bool>,
) -> Option<(Seq<Term>, Seq<bool>)>
    decreases entries.len() - j,
{
    if j < 0 || j >= entries.len() {
        Some((entries.push(c), ds))
    } else {
        match (entries[j], c) {
            (Term::Constant(v0), Term::Constant(v)) => Some(
                (entries.update(j, Term::Constant(apply(plus, v0, v))), ds),
            ),
            (Term::S { f: g0, m: m0, p: p0 }, Term::S { f: g, m, p }) => {
                if !eq_defined(*g0, *g) {
                    None
                } else if decided(*g0, *g, next_decision(ds)) && float_eq(p0, p) {
                    Some(
                        (
                            entries.update(j, Term::S { f: g0, m: apply(plus, m0, m), p: p0 }),
                            later_decisions(ds),
                        ),
                    )
                } else {
                    add_scan(entries, j + 1, c, plus, later_decisions(ds))
                }
            },
            _ => add_scan(entries, j + 1, c, plus, ds),
        }
    }
}

/// Merging the simplified term `c` into the factors `entries` of a
/// product, from position `j` on: a constant is multiplied into the first
/// constant; a scaled term `m * g^p` into the first scaled term with an
/// equal function, multiplying the multipliers and adding the powers.
pub open spec fn mul_scan<F: Fn(u64, u64) -> u64, M: Fn(u64, u64) -> u64>(
    entries: Seq<Term>,
    j: int,
    c: Term,
    plus: F,
    times: M,
    ds: Seq<bool>,
) -> Option<(Seq<Term>, Seq<bool>)>
    decreases entries.len() - j,
{
    if j < 0 || j >= entries.len() {
        Some((entries.push(c), ds))
    } else {
        match (entries[j], c) {
            (Term::Constant(v0), Term::Constant(v)) => Some(
                (entries.update(j, Term::Constant(apply(times, v0, v))), ds),
            ),
            (Term::S { f: g0, m: m0, p: p0 }, Term::S { f: g, m, p }) => {
                if !eq_defined(*g0, *g) {
                    None
                } else if decided(*g0, *g, next_decision(ds)) {
                    Some(
                        (
                            entries.update(
                                j,
                                Term::S { f: g0, m: apply(times, m0, m), p: apply(plus, p0, p) },
                            ),
                            later_decisions(ds),
                        ),
                    )
                } else {
                    mul_scan(entries, j + 1, c, plus, times, later_decisions(ds))
                }
            },
            _ => mul_scan(entries, j + 1, c, plus, times, ds),
        }
    }
}

/// Simplified terms are constants or scaled terms.
pub open spec fn mergeable(c: Term) -> bool {
    c is Constant || c is S
}

/// The simplification of `t` with the decisions `ds`, and the decisions
/// left over; `None` where it panics (a difference or a quotient to be
/// simplified, or a comparison that panics).
pub open spec fn simplified<F: Fn(u64, u64) -> u64, M: Fn(u64, u64) -> u64>(
    t: Term,
    plus: F,
    times: M,
    ds: Seq<bool>,
) -> Option<(Term, Seq<bool>)>
    decreases t,
{
    match t {
        Term::Variable(_) => Some((Term::S { f: Box::new(t), m: ONE, p: ONE }, ds)),
        Term::Constant(_) => Some((t, ds)),
        Term::S { .. } => Some((t, ds)),
        Term::Add(s) => match sum_entries(s, plus, times, ds) {
            Some((e, rest)) => Some((Term::S { f: Box::new(Term::Add(e)), m: ONE, p: ONE }, rest)),
            None => None,
        },
        Term::Mul(s) => match product_entries(s, plus, times, ds) {
            Some((e, rest)) => Some((Term::S { f: Box::new(Term::Mul(e)), m: ONE, p: ONE }, rest)),
            None => None,
        },
        _ => None,
    }
}

/// What simplification gives is always a constant or a scaled term, so
/// that it can be combined into a sum or a product.
pub proof fn lemma_simplified_is_mergeable<F: Fn(u64, u64) -> u64, M: Fn(u64, u64) -> u64>(
    t: Term,
    plus: F,
    times: M,
    ds: Seq<bool>,
)
    ensures
        simplified(t, plus, times, ds) matches Some((r, _)) ==> mergeable(r),
{
}

/// Simplifying a simplified term gives it back unchanged.
pub proof fn lemma_simplified_idempotent<F: Fn(u64, u64) -> u64, M: Fn(u64, u64) -> u64>(
    t: Term,
    plus: F,
    times: M,
    ds: Seq<bool>,
)
    ensures
        simplified(t, plus, times, ds) matches Some((r, ds1)) ==> simplified(r, plus, times, ds1)
            == Some((r, ds1)),
{
    lemma_simplified_is_mergeable(t, plus, times, ds);
}

/// The combined terms of a sum of the terms `s`.
pub open spec fn sum_entries<F: Fn(u64, u64) -> u64, M: Fn(u64, u64) -> u64>(
    s: Seq<Term>,
    plus: F,
    times: M,
    ds: Seq<bool>,
) -> Option<(Seq<Term>, Seq<bool>)>
    decreases s,
{
    if s.len() == 0 {
        Some((Seq::empty(), ds))
    } else {
        match sum_entries(s.drop_last(), plus, times, ds) {
            Some((e, ds1)) => match simplified(s.last(), plus, times, ds1) {
                Some((c, ds2)) => if mergeable(c) {
                    add_scan(e, 0, c, plus, ds2)
                } else {
                    None
                },
                None => None,
            },
            None => None,
        }
    }
}

/// The combined factors of a product of the terms `s`.
pub open spec fn product_entries<F: Fn(u64, u64) -> u64, M: Fn(u64, u64) -> u64>(
    s: Seq<Term>,
    plus: F,
    times: M,
    ds: Seq<bool>,
) -> Option<(Seq<Term>, Seq<bool>)>
    decreases s,
{
    if s.len() == 0 {
        Some((Seq::empty(), ds))
    } else {
        match product_entries(s.drop_last(), plus, times, ds) {
            Some((e, ds1)) => match simplified(s.last(), plus, times, ds1) {
                Some((c, ds2)) => if mergeable(c) {
                    mul_scan(e, 0, c, plus, times, ds2)
                } else {
                    None
                },
                None => None,
            },
            None => None,
        }
    }
}

/// The terms of a sequence of functions.
pub open spec fn views(s: Seq<Function>) -> Seq<Term> {
    Seq::new(s.len(), |i: int| s[i]@)
}

/// What a call of an operation returns is its result (`apply`).
proof fn lemma_apply<F: Fn(u64, u64) -> u64>(op: F, a: u64, b: u64, r: u64)
    requires
        is_operation(op),
        op.ensures((a, b), r),
    ensures
        r == apply(op, a, b),
{
    let c = apply(op, a, b);
    assert(op.ensures((a, b), c));
}

/// Merges the simplified term `c` into the terms of a sum, as `add_scan`
/// says; returns the decisions its tests took.
fn merge_into_sum<'f, F: Fn(u64, u64) -> u64>(
    entries: &mut Vec<Function<'f>>,
    c: Function<'f>,
    plus: &F,
) -> (dec: Ghost<Seq<bool>>)
    requires
        is_operation(*plus),
        mergeable(c@),
        forall|ds: Seq<bool>| #[trigger] add_scan(views(old(entries)@), 0, c@, *plus, ds) is Some,
    ensures
        forall|ds: Seq<bool>|
            #[trigger] add_scan(views(old(entries)@), 0, c@, *plus, dec@ + ds) == Some(
                (views(final(entries)@), ds),
            ),
{
    let ghost e = views(entries@);
    let ghost tc = c@;
    let ghost mut dec: Seq<bool> = Seq::empty();
    let mut j: usize = 0;
    let mut found = false;
    proof {
        assert forall|ds: Seq<bool>| #[trigger]
            add_scan(e, 0, tc, *plus, dec + ds) == add_scan(e, j as int, tc, *plus, ds) by {
            assert(dec + ds =~= ds);
        }
    }
    while j < entries.len() && !found
        invariant
            j <= entries@.len(),
            e.len() == entries@.len(),
            tc == c@,
            mergeable(tc),
            is_operation(*plus),
            !found ==> views(entries@) == e,
            !found ==> forall|ds: Seq<bool>| #[trigger]
                add_scan(e, 0, tc, *plus, dec + ds) == add_scan(e, j as int, tc, *plus, ds),
            found ==> forall|ds: Seq<bool>| #[trigger]
                add_scan(e, 0, tc, *plus, dec + ds) == Some((views(entries@), ds)),
            forall|ds: Seq<bool>| #[trigger] add_scan(e, 0, tc, *plus, ds) is Some,
        decreases entries@.len() - j + (if found {
            0int
        } else {
            1int
        }),
    {
        proof {
            assert(e[j as int] == entries@[j as int]@);
        }
        match (&entries[j], &c) {
            (Function::Constant(v0), Function::Constant(v)) => {
                let x = plus(*v0, *v);
                proof {
                    lemma_apply(*plus, *v0, *v, x);
                }
                entries[j] = Function::Constant(x);
                proof {
                    assert(views(entries@) =~= e.update(j as int, Term::Constant(x)));
                }
                found = true;
            },
            (Function::S { f: g0, m: m0, p: p0 }, Function::S { f: g, m, p }) => {
                proof {
                    assert(add_scan(e, 0, tc, *plus, dec + Seq::<bool>::empty()) is Some);
                    assert(eq_defined(g0@, g@));
                }
                let same = (**g0).eq(&**g);
                proof {
                    assert(decided(g0@, g@, same) == same);
                    assert forall|ds: Seq<bool>| #[trigger]
                        add_scan(e, 0, tc, *plus, dec.push(same) + ds) == add_scan(
                            e,
                            j as int,
                            tc,
                            *plus,
                            seq![same] + ds,
                        ) by {
                        assert(dec.push(same) + ds =~= dec + (seq![same] + ds));
                    }
                    assert forall|ds: Seq<bool>|
                        next_decision(#[trigger] (seq![same] + ds)) == same && later_decisions(
                            seq![same] + ds,
                        ) == ds by {
                        assert((seq![same] + ds).drop_first() =~= ds);
                    }
                    dec = dec.push(same);
                }
                if same && bits_eq(*p0, *p) {
                    let g0c = clone_arc(g0);
                    let p0v = *p0;
                    let x = plus(*m0, *m);
                    proof {
                        lemma_apply(*plus, *m0, *m, x);
                    }
                    entries[j] = Function::S { f: g0c, m: x, p: p0v };
                    proof {
                        assert(views(entries@) =~= e.update(
                            j as int,
                            Term::S { f: Box::new(g0c@), m: x, p: p0v },
                        ));
                    }
                    found = true;
                } else {
                    j = j + 1;
                }
            },
            _ => {
                j = j + 1;
            },
        }
    }
    if !found {
        let ghost before = entries@;
        entries.push(c);
        proof {
            assert(views(entries@) =~= e.push(tc));
        }
    }
    Ghost(dec)
}

/// Merges the simplified term `c` into the factors of a product, as
/// `mul_scan` says; returns the decisions its tests took.
fn merge_into_product<'f, F: Fn(u64, u64) -> u64, M: Fn(u64, u64) -> u64>(
    entries: &mut Vec<Function<'f>>,
    c: Function<'f>,
    plus: &F,
    times: &M,
) -> (dec: Ghost<Seq<bool>>)
    requires
        is_operation(*plus),
        is_operation(*times),
        mergeable(c@),
        forall|ds: Seq<bool>| #[trigger] mul_scan(views(old(entries)@), 0, c@, *plus, *times, ds) is Some,
    ensures
        forall|ds: Seq<bool>|
            #[trigger] mul_scan(views(old(entries)@), 0, c@, *plus, *times, dec@ + ds) == Some(
                (views(final(entries)@), ds),
            ),
{
    let ghost e = views(entries@);
    let ghost tc = c@;
    let ghost mut dec: Seq<bool> = Seq::empty();
    let mut j: usize = 0;
    let mut found = false;
    proof {
        assert forall|ds: Seq<bool>| #[trigger]
            mul_scan(e, 0, tc, *plus, *times, dec + ds) == mul_scan(e, j as int, tc, *plus, *times, ds) by {
            assert(dec + ds =~= ds);
        }
    }
    while j < entries.len() && !found
        invariant
            j <= entries@.len(),
            e.len() == entries@.len(),
            tc == c@,
            mergeable(tc),
            is_operation(*plus),
            is_operation(*times),
            !found ==> views(entries@) == e,
            !found ==> forall|ds: Seq<bool>| #[trigger]
                mul_scan(e, 0, tc, *plus, *times, dec + ds) == mul_scan(e, j as int, tc, *plus, *times, ds),
            found ==> forall|ds: Seq<bool>| #[trigger]
                mul_scan(e, 0, tc, *plus, *times, dec + ds) == Some((views(entries@), ds)),
            forall|ds: Seq<bool>| #[trigger] mul_scan(e, 0, tc, *plus, *times, ds) is Some,
        decreases entries@.len() - j + (if found {
            0int
        } else {
            1int
        }),
    {
        proof {
            assert(e[j as int] == entries@[j as int]@);
        }
        match (&entries[j], &c) {
            (Function::Constant(v0), Function::Constant(v)) => {
                let x = times(*v0, *v);
                proof {
                    lemma_apply(*times, *v0, *v, x);
                }
                entries[j] = Function::Constant(x);
                proof {
                    assert(views(entries@) =~= e.update(j as int, Term::Constant(x)));
                }
                found = true;
            },
            (Function::S { f: g0, m: m0, p: p0 }, Function::S { f: g, m, p }) => {
                proof {
                    assert(mul_scan(e, 0, tc, *plus, *times, dec + Seq::<bool>::empty()) is Some);
                    assert(eq_defined(g0@, g@));
                }
                let same = (**g0).eq(&**g);
                proof {
                    assert(decided(g0@, g@, same) == same);
                    assert forall|ds: Seq<bool>| #[trigger]
                        mul_scan(e, 0, tc, *plus, *times, dec.push(same) + ds) == mul_scan(
                            e,
                            j as int,
                            tc,
                            *plus,
                            *times,
                            seq![same] + ds,
                        ) by {
                        assert(dec.push(same) + ds =~= dec + (seq![same] + ds));
                    }
                    assert forall|ds: Seq<bool>|
                        next_decision(#[trigger] (seq![same] + ds)) == same && later_decisions(
                            seq![same] + ds,
                        ) == ds by {
                        assert((seq![same] + ds).drop_first() =~= ds);
                    }
                    dec = dec.push(same);
                }
                if same {
                    let g0c = clone_arc(g0);
                    let x = times(*m0, *m);
                    let y = plus(*p0, *p);
                    proof {
                        lemma_apply(*times, *m0, *m, x);
                        lemma_apply(*plus, *p0, *p, y);
                    }
                    entries[j] = Function::S { f: g0c, m: x, p: y };
                    proof {
                        assert(views(entries@) =~= e.update(
                            j as int,
                            Term::S { f: Box::new(g0c@), m: x, p: y },
                        ));
                    }
                    found = true;
                } else {
                    j = j + 1;
                }
            },
            _ => {
                j = j + 1;
            },
        }
    }
    if !found {
        entries.push(c);
        proof {
            assert(views(entries@) =~= e.push(tc));
        }
    }
    Ghost(dec)
}

/// Wraps each function in an `Arc`.
fn into_arcs<'f>(v: Vec<Function<'f>>) -> (r: Vec<Arc<Function<'f>>>)
    ensures
        terms_of(r@) == views(v@),
{
    let mut v = v;
    let ghost orig = views(v@);
    let mut r: Vec<Arc<Function<'f>>> = Vec::new();
    proof {
        assert(terms_of(r@) + views(v@) =~= orig);
    }
    while v.len() > 0
        invariant
            terms_of(r@) + views(v@) == orig,
        decreases v@.len(),
    {
        let ghost before = views(v@);
        let ghost rb = terms_of(r@);
        let x = v.remove(0);
        let ghost tx = x@;
        r.push(Arc::new(x));
        proof {
            assert(before[0] == tx);
            assert(views(v@) =~= before.drop_first());
            assert(terms_of(r@) =~= rb.push(tx));
            assert(terms_of(r@) + views(v@) =~= rb + before);
        }
    }
    proof {
        assert(views(v@) =~= Seq::<Term>::empty());
        assert(terms_of(r@) + views(v@) =~= terms_of(r@));
    }
    r
}

/// A prefix of the terms of a sum is merged without a panic when all of
/// them are.
proof fn lemma_sum_entries_prefix<F: Fn(u64, u64) -> u64, M: Fn(u64, u64) -> u64>(
    s: Seq<Term>,
    n: int,
    plus: F,
    times: M,
    ds: Seq<bool>,
)
    requires
        0 <= n <= s.len(),
        sum_entries(s, plus, times, ds) is Some,
    ensures
        sum_entries(s.take(n), plus, times, ds) is Some,
    decreases s.len(),
{
    if n == s.len() {
        assert(s.take(n) =~= s);
    } else {
        assert(s.drop_last().take(n) =~= s.take(n));
        lemma_sum_entries_prefix(s.drop_last(), n, plus, times, ds);
    }
}

/// A prefix of the factors of a product is merged without a panic when all
/// of them are.
proof fn lemma_product_entries_prefix<F: Fn(u64, u64) -> u64, M: Fn(u64, u64) -> u64>(
    s: Seq<Term>,
    n: int,
    plus: F,
    times: M,
    ds: Seq<bool>,
)
    requires
        0 <= n <= s.len(),
        product_entries(s, plus, times, ds) is Some,
    ensures
        product_entries(s.take(n), plus, times, ds) is Some,
    decreases s.len(),
{
    if n == s.len() {
        assert(s.take(n) =~= s);
    } else {
        assert(s.drop_last().take(n) =~= s.take(n));
        lemma_product_entries_prefix(s.drop_last(), n, plus, times, ds);
    }
}

/// Simplifies `function`; returns the decisions its tests took.
fn simplify_helper<'f, F: Fn(u64, u64) -> u64, M: Fn(u64, u64) -> u64>(
    function: Function<'f>,
    plus: &F,
    times: &M,
) -> (res: (Function<'f>, Ghost<Seq<bool>>))
    requires
        is_operation(*plus),
        is_operation(*times),
        forall|ds: Seq<bool>| #[trigger] simplified(function@, *plus, *times, ds) is Some,
    ensures
        forall|ds: Seq<bool>| #[trigger]
            simplified(function@, *plus, *times, res.1@ + ds) == Some((res.0@, ds)),
    decreases size(function@),
{
    let ghost t = function@;
    match function {
        Function::Variable(name) => {
            let r = Function::S { f: Arc::new(Function::Variable(name)), m: ONE, p: ONE };
            proof {
                assert forall|ds: Seq<bool>| #[trigger]
                    simplified(t, *plus, *times, Seq::<bool>::empty() + ds) == Some((r@, ds)) by {
                    assert(Seq::<bool>::empty() + ds =~= ds);
                }
            }
            (r, Ghost(Seq::empty()))
        },
        Function::Add { vec } => {
            let ghost s = terms_of(vec@);
            proof {
                lemma_terms_of_vec(vec);
                assert(t == Term::Add(s));
                assert forall|ds: Seq<bool>| #[trigger] sum_entries(s, *plus, *times, ds) is Some by {
                    assert(simplified(t, *plus, *times, ds) is Some);
                }
            }
            let mut entries: Vec<Function<'f>> = Vec::new();
            let ghost mut dec: Seq<bool> = Seq::empty();
            let mut i: usize = 0;
            proof {
                assert forall|ds: Seq<bool>| #[trigger]
                    sum_entries(s.take(0), *plus, *times, dec + ds) == Some((views(entries@), ds)) by {
                    assert(s.take(0) =~= Seq::<Term>::empty());
                    assert(dec + ds =~= ds);
                    assert(views(entries@) =~= Seq::<Term>::empty());
                }
            }
            while i < vec.len()
                invariant
                    i <= vec@.len(),
                    t == function@,
                    s == terms_of(vec@),
                    t == Term::Add(s),
                    is_operation(*plus),
                    is_operation(*times),
                    forall|ds: Seq<bool>| #[trigger] sum_entries(s, *plus, *times, ds) is Some,
                    forall|ds: Seq<bool>| #[trigger]
                        sum_entries(s.take(i as int), *plus, *times, dec + ds) == Some(
                            (views(entries@), ds),
                        ),
                decreases vec@.len() - i,
            {
                let child = (*vec[i]).clone();
                let ghost before = views(entries@);
                proof {
                    let u = s.take(i as int + 1);
                    assert(u.drop_last() =~= s.take(i as int));
                    assert(u.last() == s[i as int]);
                    assert(child@ == s[i as int]);
                    lemma_size_of_member(s, i as int);
                    assert(size(t) == 1 + size_of(s));
                    assert(size(child@) < size(t));
                    assert forall|d2: Seq<bool>| #[trigger]
                        simplified(child@, *plus, *times, d2) is Some by {
                        lemma_sum_entries_prefix(s, i as int + 1, *plus, *times, dec + d2);
                        assert(sum_entries(s.take(i as int), *plus, *times, dec + d2) == Some(
                            (before, d2),
                        ));
                    }
                }
                let (c, Ghost(cdec)) = simplify_helper(child, plus, times);
                proof {
                    let u = s.take(i as int + 1);
                    assert forall|d3: Seq<bool>| #[trigger] add_scan(before, 0, c@, *plus, d3) is Some by {
                        let dd = dec + (cdec + d3);
                        lemma_sum_entries_prefix(s, i as int + 1, *plus, *times, dd);
                        assert(sum_entries(s.take(i as int), *plus, *times, dd) == Some(
                            (before, cdec + d3),
                        ));
                        assert(simplified(s[i as int], *plus, *times, cdec + d3) == Some((c@, d3)));
                    }
                    let d0 = Seq::<bool>::empty();
                    lemma_sum_entries_prefix(s, i as int + 1, *plus, *times, dec + (cdec + d0));
                    assert(sum_entries(s.take(i as int), *plus, *times, dec + (cdec + d0)) == Some(
                        (before, cdec + d0),
                    ));
                    assert(simplified(s[i as int], *plus, *times, cdec + d0) == Some((c@, d0)));
                    assert(mergeable(c@));
                }
                let ghost tc = c@;
                let Ghost(mdec) = merge_into_sum(&mut entries, c, plus);
                proof {
                    let u = s.take(i as int + 1);
                    assert forall|ds: Seq<bool>| #[trigger]
                        sum_entries(u, *plus, *times, dec + cdec + mdec + ds) == Some(
                            (views(entries@), ds),
                        ) by {
                        assert(dec + cdec + mdec + ds =~= dec + (cdec + (mdec + ds)));
                        assert(sum_entries(s.take(i as int), *plus, *times, dec + (cdec + (mdec + ds)))
                            == Some((before, cdec + (mdec + ds))));
                        assert(simplified(s[i as int], *plus, *times, cdec + (mdec + ds)) == Some(
                            (tc, mdec + ds),
                        ));
                    }
                    dec = dec + cdec + mdec;
                }
                i = i + 1;
            }
            proof {
                assert(s.take(vec@.len() as int) =~= s);
            }
            let arcs = into_arcs(entries);
            let r = Function::S { f: Arc::new(Function::Add { vec: arcs }), m: ONE, p: ONE };
            proof {
                lemma_terms_of_vec(arcs);
                assert forall|ds: Seq<bool>| #[trigger]
                    simplified(t, *plus, *times, dec + ds) == Some((r@, ds)) by {
                    assert(sum_entries(s, *plus, *times, dec + ds) == Some((terms_of(arcs@), ds)));
                }
            }
            (r, Ghost(dec))
        },
        Function::Mul { vec } => {
            let ghost s = terms_of(vec@);
            proof {
                lemma_terms_of_vec(vec);
                assert(t == Term::Mul(s));
                assert forall|ds: Seq<bool>| #[trigger] product_entries(s, *plus, *times, ds) is Some by {
                    assert(simplified(t, *plus, *times, ds) is Some);
                }
            }
            let mut entries: Vec<Function<'f>> = Vec::new();
            let ghost mut dec: Seq<bool> = Seq::empty();
            let mut i: usize = 0;
            proof {
                assert forall|ds: Seq<bool>| #[trigger]
                    product_entries(s.take(0), *plus, *times, dec + ds) == Some((views(entries@), ds)) by {
                    assert(s.take(0) =~= Seq::<Term>::empty());
                    assert(dec + ds =~= ds);
                    assert(views(entries@) =~= Seq::<Term>::empty());
                }
            }
            while i < vec.len()
                invariant
                    i <= vec@.len(),
                    t == function@,
                    s == terms_of(vec@),
                    t == Term::Mul(s),
                    is_operation(*plus),
                    is_operation(*times),
                    forall|ds: Seq<bool>| #[trigger] product_entries(s, *plus, *times, ds) is Some,
                    forall|ds: Seq<bool>| #[trigger]
                        product_entries(s.take(i as int), *plus, *times, dec + ds) == Some(
                            (views(entries@), ds),
                        ),
                decreases vec@.len() - i,
            {
                let child = (*vec[i]).clone();
                let ghost before = views(entries@);
                proof {
                    let u = s.take(i as int + 1);
                    assert(u.drop_last() =~= s.take(i as int));
                    assert(u.last() == s[i as int]);
                    assert(child@ == s[i as int]);
                    lemma_size_of_member(s, i as int);
                    assert(size(t) == 1 + size_of(s));
                    assert(size(child@) < size(t));
                    assert forall|d2: Seq<bool>| #[trigger]
                        simplified(child@, *plus, *times, d2) is Some by {
                        lemma_product_entries_prefix(s, i as int + 1, *plus, *times, dec + d2);
                        assert(product_entries(s.take(i as int), *plus, *times, dec + d2) == Some(
                            (before, d2),
                        ));
                    }
                }
                let (c, Ghost(cdec)) = simplify_helper(child, plus, times);
                proof {
                    let u = s.take(i as int + 1);
                    assert forall|d3: Seq<bool>| #[trigger] mul_scan(before, 0, c@, *plus, *times, d3) is Some by {
                        let dd = dec + (cdec + d3);
                        lemma_product_entries_prefix(s, i as int + 1, *plus, *times, dd);
                        assert(product_entries(s.take(i as int), *plus, *times, dd) == Some(
                            (before, cdec + d3),
                        ));
                        assert(simplified(s[i as int], *plus, *times, cdec + d3) == Some((c@, d3)));
                    }
                    let d0 = Seq::<bool>::empty();
                    lemma_product_entries_prefix(s, i as int + 1, *plus, *times, dec + (cdec + d0));
                    assert(product_entries(s.take(i as int), *plus, *times, dec + (cdec + d0)) == Some(
                        (before, cdec + d0),
                    ));
                    assert(simplified(s[i as int], *plus, *times, cdec + d0) == Some((c@, d0)));
                    assert(mergeable(c@));
                }
                let ghost tc = c@;
                let Ghost(mdec) = merge_into_product(&mut entries, c, plus, times);
                proof {
                    let u = s.take(i as int + 1);
                    assert forall|ds: Seq<bool>| #[trigger]
                        product_entries(u, *plus, *times, dec + cdec + mdec + ds) == Some(
                            (views(entries@), ds),
                        ) by {
                        assert(dec + cdec + mdec + ds =~= dec + (cdec + (mdec + ds)));
                        assert(product_entries(s.take(i as int), *plus, *times, dec + (cdec + (mdec + ds)))
                            == Some((before, cdec + (mdec + ds))));
                        assert(simplified(s[i as int], *plus, *times, cdec + (mdec + ds)) == Some(
                            (tc, mdec + ds),
                        ));
                    }
                    dec = dec + cdec + mdec;
                }
                i = i + 1;
            }
            proof {
                assert(s.take(vec@.len() as int) =~= s);
            }
            let arcs = into_arcs(entries);
            let r = Function::S { f: Arc::new(Function::Mul { vec: arcs }), m: ONE, p: ONE };
            proof {
                lemma_terms_of_vec(arcs);
                assert forall|ds: Seq<bool>| #[trigger]
                    simplified(t, *plus, *times, dec + ds) == Some((r@, ds)) by {
                    assert(product_entries(s, *plus, *times, dec + ds) == Some((terms_of(arcs@), ds)));
                }
            }
            (r, Ghost(dec))
        },
        other => {
            proof {
                assert(simplified(t, *plus, *times, Seq::<bool>::empty()) is Some);
                assert forall|ds: Seq<bool>| #[trigger]
                    simplified(t, *plus, *times, Seq::<bool>::empty() + ds) == Some((t, ds)) by {
                    assert(Seq::<bool>::empty() + ds =~= ds);
                }
            }
            (other, Ghost(Seq::empty()))
        },
    }
}

/// The term a simplification gives, if it does not panic.
pub open spec fn outcome(o: Option<(Term, Seq<bool>)>) -> Option<Term> {
    match o {
        Some((r, _)) => Some(r),
        None => None,
    }
}

/// The combined terms, if merging does not panic.
pub open spec fn entries_of(o: Option<(Seq<Term>, Seq<bool>)>) -> Option<Seq<Term>> {
    match o {
        Some((e, _)) => Some(e),
        None => None,
    }
}

/// The terms of a scaled sum `1 * (...)^1`; none for another term.
pub open spec fn summands_of(r: Term) -> Seq<Term> {
    match r {
        Term::S { f, .. } => match *f {
            Term::Add(v) => v,
            _ => Seq::empty(),
        },
        _ => Seq::empty(),
    }
}

/// The scaled term `m * g^p`.
pub open spec fn scaled(g: Term, m: u64, p: u64) -> Term {
    Term::S { f: Box::new(g), m, p }
}

/// The numbers `ms` combined from the left with the operation `op`:
/// `((ms[0] op ms[1]) op ms[2]) op ...`; `0` when there is none.
pub open spec fn left_fold<F: Fn(u64, u64) -> u64>(op: F, ms: Seq<u64>) -> u64
    decreases ms.len(),
{
    if ms.len() == 0 {
        0
    } else if ms.len() == 1 {
        ms[0]
    } else {
        apply(op, left_fold(op, ms.drop_last()), ms.last())
    }
}

/// Two terms of a sum that are like terms: two constants, or two scaled
/// terms whose functions are equal (without counting shared subterms) and
/// whose powers are equal, whatever their multipliers.
pub open spec fn like_terms(a: Term, b: Term) -> bool {
    match (a, b) {
        (Term::Constant(_), Term::Constant(_)) => true,
        (Term::S { f: g0, p: p0, .. }, Term::S { f: g, p, .. }) => eq_by(*g0, *g, false) && float_eq(
            p0,
            p,
        ),
        _ => false,
    }
}

/// No two of the terms are like terms.
pub open spec fn no_like_terms(v: Seq<Term>) -> bool {
    forall|a: int, b: int| 0 <= a < b < v.len() ==> !like_terms(#[trigger] v[a], #[trigger] v[b])
}

/// Merging a term into terms without like terms leaves none, where the
/// term is like none of those before the position the scan starts at.
proof fn lemma_add_scan_unlike<F: Fn(u64, u64) -> u64>(
    e: Seq<Term>,
    j: int,
    c: Term,
    plus: F,
    ds: Seq<bool>,
)
    requires
        0 <= j,
        no_like_terms(e),
        forall|a: int| 0 <= a < j && a < e.len() ==> !like_terms(#[trigger] e[a], c),
    ensures
        (match entries_of(add_scan(e, j, c, plus, ds)) {
            Some(e2) => no_like_terms(e2),
            None => true,
        }),
    decreases e.len() - j,
{
    if j >= e.len() {
        let e2 = e.push(c);
        assert forall|a: int, b: int| 0 <= a < b < e2.len() implies !like_terms(
            #[trigger] e2[a],
            #[trigger] e2[b],
        ) by {
            if b < e.len() {
                assert(e2[a] == e[a] && e2[b] == e[b]);
            } else {
                assert(e2[a] == e[a] && e2[b] == c);
            }
        }
    } else {
        match (e[j], c) {
            (Term::Constant(v0), Term::Constant(v)) => {
                let e2 = e.update(j, Term::Constant(apply(plus, v0, v)));
                assert forall|a: int, b: int| 0 <= a < b < e2.len() implies !like_terms(
                    #[trigger] e2[a],
                    #[trigger] e2[b],
                ) by {
                    assert(like_terms(e2[a], e2[b]) == like_terms(e[a], e[b]));
                }
            },
            (Term::S { f: g0, m: m0, p: p0 }, Term::S { f: g, m, p }) => {
                if !eq_defined(*g0, *g) {
                } else if decided(*g0, *g, next_decision(ds)) && float_eq(p0, p) {
                    let e2 = e.update(j, Term::S { f: g0, m: apply(plus, m0, m), p: p0 });
                    assert forall|a: int, b: int| 0 <= a < b < e2.len() implies !like_terms(
                        #[trigger] e2[a],
                        #[trigger] e2[b],
                    ) by {
                        assert(like_terms(e2[a], e2[b]) == like_terms(e[a], e[b]));
                    }
                } else {
                    assert(!like_terms(e[j], c));
                    lemma_add_scan_unlike(e, j + 1, c, plus, later_decisions(ds));
                }
            },
            _ => {
                assert(!like_terms(e[j], c));
                lemma_add_scan_unlike(e, j + 1, c, plus, ds);
            },
        }
    }
}

/// The combined terms of a sum hold no like terms.
proof fn lemma_sum_entries_unlike<F: Fn(u64, u64) -> u64, M: Fn(u64, u64) -> u64>(
    s: Seq<Term>,
    plus: F,
    times: M,
    ds: Seq<bool>,
)
    ensures
        (match entries_of(sum_entries(s, plus, times, ds)) {
            Some(e) => no_like_terms(e),
            None => true,
        }),
    decreases s.len(),
{
    if s.len() > 0 {
        lemma_sum_entries_unlike(s.drop_last(), plus, times, ds);
        if let Some((e, ds1)) = sum_entries(s.drop_last(), plus, times, ds) {
            if let Some((c, ds2)) = simplified(s.last(), plus, times, ds1) {
                lemma_add_scan_unlike(e, 0, c, plus, ds2);
            }
        }
    }
}

/// A simplified sum keeps no like terms: whatever the outcome of the
/// sharing tests, it holds at most one constant, and no two scaled terms
/// with equal functions and equal powers (such terms are always combined,
/// whatever their multipliers).
pub proof fn lemma_simplified_sum_has_no_like_terms<F: Fn(u64, u64) -> u64, M: Fn(u64, u64) -> u64>(
    s: Seq<Term>,
    plus: F,
    times: M,
    ds: Seq<bool>,
)
    ensures
        (match outcome(simplified(Term::Add(s), plus, times, ds)) {
            Some(r) => no_like_terms(summands_of(r)),
            None => true,
        }),
{
    lemma_sum_entries_unlike(s, plus, times, ds);
}

/// Each of the terms `s` simplifies, without a decision, to the scaled term
/// `ms[i] * gs[i]^ps[i]`, and all of these are like the first: the
/// functions equal to the first (without counting shared subterms, and
/// without a panic in the comparison), the powers equal to the first.
pub open spec fn like_first<F: Fn(u64, u64) -> u64, M: Fn(u64, u64) -> u64>(
    s: Seq<Term>,
    gs: Seq<Term>,
    ms: Seq<u64>,
    ps: Seq<u64>,
    plus: F,
    times: M,
) -> bool {
    &&& gs.len() == s.len()
    &&& ms.len() == s.len()
    &&& ps.len() == s.len()
    &&& forall|i: int, d: Seq<bool>|
        0 <= i < s.len() ==> #[trigger] simplified(s[i], plus, times, d) == Some(
            (scaled(gs[i], ms[i], ps[i]), d),
        )
    &&& forall|i: int|
        1 <= i < s.len() ==> eq_defined(gs[0], #[trigger] gs[i]) && eq_by(gs[0], gs[i], false)
            && float_eq(ps[0], ps[i])
}

/// Like terms combine into the first of them, which keeps its function and
/// power and takes the sum of all the multipliers.
proof fn lemma_sum_entries_add_up<F: Fn(u64, u64) -> u64, M: Fn(u64, u64) -> u64>(
    s: Seq<Term>,
    gs: Seq<Term>,
    ms: Seq<u64>,
    ps: Seq<u64>,
    plus: F,
    times: M,
    ds: Seq<bool>,
)
    requires
        s.len() > 0,
        like_first(s, gs, ms, ps, plus, times),
    ensures
        entries_of(sum_entries(s, plus, times, ds)) == Some(seq![scaled(gs[0], left_fold(plus, ms), ps[0])]),
    decreases s.len(),
{
    let n = s.len() - 1;
    let c = scaled(gs[n], ms[n], ps[n]);
    if s.len() == 1 {
        assert(s.drop_last() =~= Seq::<Term>::empty());
        assert(simplified(s[0], plus, times, ds) == Some((c, ds)));
        assert(Seq::<Term>::empty().push(c) =~= seq![c]);
    } else {
        let s1 = s.drop_last();
        let gs1 = gs.drop_last();
        let ms1 = ms.drop_last();
        let ps1 = ps.drop_last();
        assert forall|i: int, d: Seq<bool>| 0 <= i < s1.len() implies #[trigger] simplified(
            s1[i],
            plus,
            times,
            d,
        ) == Some((scaled(gs1[i], ms1[i], ps1[i]), d)) by {
            assert(s1[i] == s[i]);
            assert(simplified(s[i], plus, times, d) == Some((scaled(gs[i], ms[i], ps[i]), d)));
        }
        assert forall|i: int| 1 <= i < s1.len() implies eq_defined(gs1[0], #[trigger] gs1[i]) && eq_by(
            gs1[0],
            gs1[i],
            false,
        ) && float_eq(ps1[0], ps1[i]) by {
            assert(gs1[i] == gs[i]);
        }
        lemma_sum_entries_add_up(s1, gs1, ms1, ps1, plus, times, ds);
        let (e1, d1) = sum_entries(s1, plus, times, ds)->0;
        let a = left_fold(plus, ms1);
        assert(e1 == seq![scaled(gs[0], a, ps[0])]);
        assert(simplified(s[n], plus, times, d1) == Some((c, d1)));
        assert(eq_defined(gs[0], gs[n]) && eq_by(gs[0], gs[n], false) && float_eq(ps[0], ps[n]));
        assert(decided(gs[0], gs[n], next_decision(d1)));
        assert(add_scan(e1, 0, c, plus, d1) == Some(
            (e1.update(0, scaled(gs[0], apply(plus, a, ms[n]), ps[0])), later_decisions(d1)),
        ));
        assert(e1.update(0, scaled(gs[0], apply(plus, a, ms[n]), ps[0])) =~= seq![
            scaled(gs[0], left_fold(plus, ms), ps[0]),
        ]);
    }
}

/// Like terms add up: a sum of terms that each simplify, without a
/// decision, to a scaled term `ms[i] * gs[i]^ps[i]`, all with functions and
/// powers equal to those of the first, simplifies to a single scaled term
/// `m * gs[0]^ps[0]`: the function and power of the first such term, and a
/// multiplier `m` that is the sum of all the `ms[i]`, whatever those
/// multipliers are.
pub proof fn lemma_like_terms_add_up<F: Fn(u64, u64) -> u64, M: Fn(u64, u64) -> u64>(
    s: Seq<Term>,
    gs: Seq<Term>,
    ms: Seq<u64>,
    ps: Seq<u64>,
    plus: F,
    times: M,
    ds: Seq<bool>,
)
    requires
        s.len() > 0,
        like_first(s, gs, ms, ps, plus, times),
    ensures
        outcome(simplified(Term::Add(s), plus, times, ds)) == Some(
            scaled(Term::Add(seq![scaled(gs[0], left_fold(plus, ms), ps[0])]), ONE, ONE),
        ),
{
    lemma_sum_entries_add_up(s, gs, ms, ps, plus, times, ds);
}

/// A sum of `n` copies of one variable `x` simplifies to a single scaled
/// term `m * x^1`, where `m` is `n` ones added up: `x + x + x` gives
/// `(1 + 1 + 1) * x^1`.
pub proof fn lemma_repeated_variable_adds_up<F: Fn(u64, u64) -> u64, M: Fn(u64, u64) -> u64>(
    x: Seq<char>,
    n: nat,
    plus: F,
    times: M,
    ds: Seq<bool>,
)
    requires
        n > 0,
    ensures
        outcome(simplified(Term::Add(Seq::new(n, |i: int| Term::Variable(x))), plus, times, ds)) == Some(
            scaled(
                Term::Add(seq![scaled(Term::Variable(x), left_fold(plus, Seq::new(n, |i: int| ONE)), ONE)]),
                ONE,
                ONE,
            ),
        ),
{
    let s = Seq::new(n, |i: int| Term::Variable(x));
    let gs = Seq::new(n, |i: int| Term::Variable(x));
    let ms = Seq::new(n, |i: int| ONE);
    assert(!is_nan(ONE)) by (bit_vector);
    assert forall|i: int, d: Seq<bool>| 0 <= i < s.len() implies #[trigger] simplified(
        s[i],
        plus,
        times,
        d,
    ) == Some((scaled(gs[i], ms[i], ms[i]), d)) by {
        assert(s[i] == Term::Variable(x));
    }
    lemma_like_terms_add_up(s, gs, ms, ms, plus, times, ds);
}

/// The factors of a scaled product `1 * (...)^1`; none for another term.
pub open spec fn factors_of(r: Term) -> Seq<Term> {
    match r {
        Term::S { f, .. } => match *f {
            Term::Mul(v) => v,
            _ => Seq::empty(),
        },
        _ => Seq::empty(),
    }
}

/// Two factors of a product that are like factors: two constants, or two
/// scaled terms whose functions are equal (without counting shared
/// subterms), whatever their multipliers and powers.
pub open spec fn like_factors(a: Term, b: Term) -> bool {
    match (a, b) {
        (Term::Constant(_), Term::Constant(_)) => true,
        (Term::S { f: g0, .. }, Term::S { f: g, .. }) => eq_by(*g0, *g, false),
        _ => false,
    }
}

/// No two of the factors are like factors.
pub open spec fn no_like_factors(v: Seq<Term>) -> bool {
    forall|a: int, b: int| 0 <= a < b < v.len() ==> !like_factors(#[trigger] v[a], #[trigger] v[b])
}

/// Merging a factor into factors without like factors leaves none, where
/// the factor is like none of those before the position the scan starts
/// at.
proof fn lemma_mul_scan_unlike<F: Fn(u64, u64) -> u64, M: Fn(u64, u64) -> u64>(
    e: Seq<Term>,
    j: int,
    c: Term,
    plus: F,
    times: M,
    ds: Seq<bool>,
)
    requires
        0 <= j,
        no_like_factors(e),
        forall|a: int| 0 <= a < j && a < e.len() ==> !like_factors(#[trigger] e[a], c),
    ensures
        (match entries_of(mul_scan(e, j, c, plus, times, ds)) {
            Some(e2) => no_like_factors(e2),
            None => true,
        }),
    decreases e.len() - j,
{
    if j >= e.len() {
        let e2 = e.push(c);
        assert forall|a: int, b: int| 0 <= a < b < e2.len() implies !like_factors(
            #[trigger] e2[a],
            #[trigger] e2[b],
        ) by {
            if b < e.len() {
                assert(e2[a] == e[a] && e2[b] == e[b]);
            } else {
                assert(e2[a] == e[a] && e2[b] == c);
            }
        }
    } else {
        match (e[j], c) {
            (Term::Constant(v0), Term::Constant(v)) => {
                let e2 = e.update(j, Term::Constant(apply(times, v0, v)));
                assert forall|a: int, b: int| 0 <= a < b < e2.len() implies !like_factors(
                    #[trigger] e2[a],
                    #[trigger] e2[b],
                ) by {
                    assert(like_factors(e2[a], e2[b]) == like_factors(e[a], e[b]));
                }
            },
            (Term::S { f: g0, m: m0, p: p0 }, Term::S { f: g, m, p }) => {
                if !eq_defined(*g0, *g) {
                } else if decided(*g0, *g, next_decision(ds)) {
                    let e2 = e.update(j, Term::S { f: g0, m: apply(times, m0, m), p: apply(plus, p0, p) });
                    assert forall|a: int, b: int| 0 <= a < b < e2.len() implies !like_factors(
                        #[trigger] e2[a],
                        #[trigger] e2[b],
                    ) by {
                        assert(like_factors(e2[a], e2[b]) == like_factors(e[a], e[b]));
                    }
                } else {
                    assert(!like_factors(e[j], c));
                    lemma_mul_scan_unlike(e, j + 1, c, plus, times, later_decisions(ds));
                }
            },
            _ => {
                assert(!like_factors(e[j], c));
                lemma_mul_scan_unlike(e, j + 1, c, plus, times, ds);
            },
        }
    }
}

/// The combined factors of a product hold no like factors.
proof fn lemma_product_entries_unlike<F: Fn(u64, u64) -> u64, M: Fn(u64, u64) -> u64>(
    s: Seq<Term>,
    plus: F,
    times: M,
    ds: Seq<bool>,
)
    ensures
        (match entries_of(product_entries(s, plus, times, ds)) {
            Some(e) => no_like_factors(e),
            None => true,
        }),
    decreases s.len(),
{
    if s.len() > 0 {
        lemma_product_entries_unlike(s.drop_last(), plus, times, ds);
        if let Some((e, ds1)) = product_entries(s.drop_last(), plus, times, ds) {
            if let Some((c, ds2)) = simplified(s.last(), plus, times, ds1) {
                lemma_mul_scan_unlike(e, 0, c, plus, times, ds2);
            }
        }
    }
}

/// A simplified product keeps no like factors: whatever the outcome of the
/// sharing tests, it holds at most one constant, and no two scaled terms
/// with equal functions (such factors are always combined, whatever their
/// multipliers and powers).
pub proof fn lemma_simplified_product_has_no_like_factors<F: Fn(u64, u64) -> u64, M: Fn(u64, u64) -> u64>(
    s: Seq<Term>,
    plus: F,
    times: M,
    ds: Seq<bool>,
)
    ensures
        (match outcome(simplified(Term::Mul(s), plus, times, ds)) {
            Some(r) => no_like_factors(factors_of(r)),
            None => true,
        }),
{
    lemma_product_entries_unlike(s, plus, times, ds);
}

/// Each of the factors `s` simplifies, without a decision, to the scaled
/// term `ms[i] * gs[i]^ps[i]`, and all the functions are equal to the first
/// (without counting shared subterms, and without a panic in the
/// comparison).
pub open spec fn like_first_factor<F: Fn(u64, u64) -> u64, M: Fn(u64, u64) -> u64>(
    s: Seq<Term>,
    gs: Seq<Term>,
    ms: Seq<u64>,
    ps: Seq<u64>,
    plus: F,
    times: M,
) -> bool {
    &&& gs.len() == s.len()
    &&& ms.len() == s.len()
    &&& ps.len() == s.len()
    &&& forall|i: int, d: Seq<bool>|
        0 <= i < s.len() ==> #[trigger] simplified(s[i], plus, times, d) == Some(
            (scaled(gs[i], ms[i], ps[i]), d),
        )
    &&& forall|i: int| 1 <= i < s.len() ==> eq_defined(gs[0], #[trigger] gs[i]) && eq_by(gs[0], gs[i], false)
}

/// Like factors combine into the first of them, which keeps its function,
/// takes the product of all the multipliers and the sum of all the powers.
proof fn lemma_product_entries_multiply<F: Fn(u64, u64) -> u64, M: Fn(u64, u64) -> u64>(
    s: Seq<Term>,
    gs: Seq<Term>,
    ms: Seq<u64>,
    ps: Seq<u64>,
    plus: F,
    times: M,
    ds: Seq<bool>,
)
    requires
        s.len() > 0,
        like_first_factor(s, gs, ms, ps, plus, times),
    ensures
        entries_of(product_entries(s, plus, times, ds)) == Some(
            seq![scaled(gs[0], left_fold(times, ms), left_fold(plus, ps))],
        ),
    decreases s.len(),
{
    let n = s.len() - 1;
    let c = scaled(gs[n], ms[n], ps[n]);
    if s.len() == 1 {
        assert(s.drop_last() =~= Seq::<Term>::empty());
        assert(simplified(s[0], plus, times, ds) == Some((c, ds)));
        assert(Seq::<Term>::empty().push(c) =~= seq![c]);
    } else {
        let s1 = s.drop_last();
        let gs1 = gs.drop_last();
        let ms1 = ms.drop_last();
        let ps1 = ps.drop_last();
        assert forall|i: int, d: Seq<bool>| 0 <= i < s1.len() implies #[trigger] simplified(
            s1[i],
            plus,
            times,
            d,
        ) == Some((scaled(gs1[i], ms1[i], ps1[i]), d)) by {
            assert(s1[i] == s[i]);
            assert(simplified(s[i], plus, times, d) == Some((scaled(gs[i], ms[i], ps[i]), d)));
        }
        assert forall|i: int| 1 <= i < s1.len() implies eq_defined(gs1[0], #[trigger] gs1[i]) && eq_by(
            gs1[0],
            gs1[i],
            false,
        ) by {
            assert(gs1[i] == gs[i]);
        }
        lemma_product_entries_multiply(s1, gs1, ms1, ps1, plus, times, ds);
        let (e1, d1) = product_entries(s1, plus, times, ds)->0;
        let a = left_fold(times, ms1);
        let b = left_fold(plus, ps1);
        assert(e1 == seq![scaled(gs[0], a, b)]);
        assert(simplified(s[n], plus, times, d1) == Some((c, d1)));
        assert(eq_defined(gs[0], gs[n]) && eq_by(gs[0], gs[n], false));
        assert(decided(gs[0], gs[n], next_decision(d1)));
        let v = scaled(gs[0], apply(times, a, ms[n]), apply(plus, b, ps[n]));
        assert(mul_scan(e1, 0, c, plus, times, d1) == Some((e1.update(0, v), later_decisions(d1))));
        assert(e1.update(0, v) =~= seq![scaled(gs[0], left_fold(times, ms), left_fold(plus, ps))]);
    }
}

/// Like factors multiply: a product of factors that each simplify, without
/// a decision, to a scaled term `ms[i] * gs[i]^ps[i]`, all with functions
/// equal to the first, simplifies to a single scaled term `m * gs[0]^p`:
/// the function of the first such factor, a multiplier `m` that is the
/// product of all the `ms[i]` and a power `p` that is the sum of all the
/// `ps[i]`.
pub proof fn lemma_like_factors_multiply<F: Fn(u64, u64) -> u64, M: Fn(u64, u64) -> u64>(
    s: Seq<Term>,
    gs: Seq<Term>,
    ms: Seq<u64>,
    ps: Seq<u64>,
    plus: F,
    times: M,
    ds: Seq<bool>,
)
    requires
        s.len() > 0,
        like_first_factor(s, gs, ms, ps, plus, times),
    ensures
        outcome(simplified(Term::Mul(s), plus, times, ds)) == Some(
            scaled(Term::Mul(seq![scaled(gs[0], left_fold(times, ms), left_fold(plus, ps))]), ONE, ONE),
        ),
{
    lemma_product_entries_multiply(s, gs, ms, ps, plus, times, ds);
}

/// Constants combine into one: added up in a sum, multiplied in a product.
proof fn lemma_constant_entries<F: Fn(u64, u64) -> u64, M: Fn(u64, u64) -> u64>(
    s: Seq<Term>,
    vs: Seq<u64>,
    plus: F,
    times: M,
    ds: Seq<bool>,
)
    requires
        s.len() > 0,
        vs.len() == s.len(),
        forall|i: int| 0 <= i < s.len() ==> #[trigger] s[i] == Term::Constant(vs[i]),
    ensures
        entries_of(sum_entries(s, plus, times, ds)) == Some(seq![Term::Constant(left_fold(plus, vs))]),
        entries_of(product_entries(s, plus, times, ds)) == Some(seq![Term::Constant(left_fold(times, vs))]),
    decreases s.len(),
{
    if s.len() == 1 {
        assert(s.drop_last() =~= Seq::<Term>::empty());
        let c = Term::Constant(vs[0]);
        assert(s.last() == c);
        assert(simplified(c, plus, times, ds) == Some((c, ds)));
        assert(mergeable(c));
        assert(add_scan(Seq::empty(), 0, c, plus, ds) == Some((Seq::<Term>::empty().push(c), ds)));
        assert(mul_scan(Seq::empty(), 0, c, plus, times, ds) == Some((Seq::<Term>::empty().push(c), ds)));
        assert(Seq::<Term>::empty().push(c) =~= seq![c]);
    } else {
        let s1 = s.drop_last();
        let v1 = vs.drop_last();
        assert forall|i: int| 0 <= i < s1.len() implies #[trigger] s1[i] == Term::Constant(v1[i]) by {
            assert(s1[i] == s[i]);
        }
        lemma_constant_entries(s1, v1, plus, times, ds);
        let c = Term::Constant(vs.last());
        assert(s.last() == c);
        let (e1, d1) = sum_entries(s1, plus, times, ds)->0;
        assert(e1 == seq![Term::Constant(left_fold(plus, v1))]);
        assert(simplified(c, plus, times, d1) == Some((c, d1)));
        assert(mergeable(c));
        assert(add_scan(e1, 0, c, plus, d1) == Some(
            (e1.update(0, Term::Constant(apply(plus, left_fold(plus, v1), vs.last()))), d1),
        ));
        assert(e1.update(0, Term::Constant(apply(plus, left_fold(plus, v1), vs.last()))) =~= seq![
            Term::Constant(left_fold(plus, vs)),
        ]);
        let (f1, h1) = product_entries(s1, plus, times, ds)->0;
        assert(f1 == seq![Term::Constant(left_fold(times, v1))]);
        assert(simplified(c, plus, times, h1) == Some((c, h1)));
        assert(mul_scan(f1, 0, c, plus, times, h1) == Some(
            (f1.update(0, Term::Constant(apply(times, left_fold(times, v1), vs.last()))), h1),
        ));
        assert(f1.update(0, Term::Constant(apply(times, left_fold(times, v1), vs.last()))) =~= seq![
            Term::Constant(left_fold(times, vs)),
        ]);
    }
}

/// Constants combine: the constants `vs` of a sum are added up into one
/// constant, and those of a product multiplied into one.
pub proof fn lemma_constants_combine<F: Fn(u64, u64) -> u64, M: Fn(u64, u64) -> u64>(
    vs: Seq<u64>,
    plus: F,
    times: M,
    ds: Seq<bool>,
)
    requires
        vs.len() > 0,
    ensures
        outcome(simplified(Term::Add(Seq::new(vs.len(), |i: int| Term::Constant(vs[i]))), plus, times, ds))
            == Some(scaled(Term::Add(seq![Term::Constant(left_fold(plus, vs))]), ONE, ONE)),
        outcome(simplified(Term::Mul(Seq::new(vs.len(), |i: int| Term::Constant(vs[i]))), plus, times, ds))
            == Some(scaled(Term::Mul(seq![Term::Constant(left_fold(times, vs))]), ONE, ONE)),
{
    let s = Seq::new(vs.len(), |i: int| Term::Constant(vs[i]));
    lemma_constant_entries(s, vs, plus, times, ds);
}

/// Simplifies `function`: a variable `x` becomes `1 * x^1`; constants and
/// scaled terms stay as they are; the terms of a sum are simplified and
/// combined (constants added together, scaled terms of equal function and
/// power added together), the sum becoming `1 * (sum)^1`; likewise the
/// factors of a product (constants multiplied together, scaled terms of
/// equal function multiplied together, their powers added).
///
/// `plus` and `times` are the addition and multiplication of doubles on
/// bit patterns.  Whether two functions are equal can depend on whether
/// some of their subterms share an allocation (see `Function::eq`); the
/// result is the simplification for some outcome of those tests.
pub fn simplify<'f, F: Fn(u64, u64) -> u64, M: Fn(u64, u64) -> u64>(
    function: Function<'f>,
    plus: &F,
    times: &M,
) -> (r: Function<'f>)
    requires
        is_operation(*plus),
        is_operation(*times),
        forall|ds: Seq<bool>| #[trigger] simplified(function@, *plus, *times, ds) is Some,
    ensures
        exists|ds: Seq<bool>| #[trigger]
            simplified(function@, *plus, *times, ds) == Some((r@, Seq::<bool>::empty())),
{
    let ghost t = function@;
    let (r, Ghost(dec)) = simplify_helper(function, plus, times);
    proof {
        assert(simplified(t, *plus, *times, dec + Seq::<bool>::empty()) == Some(
            (r@, Seq::<bool>::empty()),
        ));
        assert(dec + Seq::<bool>::empty() =~= dec);
    }
    r
}

} // verus!
