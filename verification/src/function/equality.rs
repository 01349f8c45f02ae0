//! Equality of functions, as `==` computes it.
use std::cmp::Ordering;
use std::sync::Arc;
use vstd::prelude::*;
use vstd::string::StringSliceAdditionalSpecFns;
use crate::function::function::{lemma_terms_of_vec, size, size_of, term_of, terms_of, Function, Term};
use crate::function::order::{
    comparable, compare_bytes, comparable_terms, in_order, lemma_in_order_unique, lemma_sorted_terms_in_order, not_after,
    lemma_sorted_terms_member, lemma_sorted_terms_multiset, lex_order, order, sort_terms, sorted_terms,
};
use crate::ieee::{bits_eq, float_eq, is_nan, is_negative, lemma_bits_split, magnitude, rank};

verus! {

/// Equality of terms as `==` computes it.  With `sharing`, two subterms
/// held by `Arc`s also count as equal whenever they are the same term, as
/// `==` on two `Arc`s reports for two pointers to one allocation without
/// looking inside.
///
/// Sums and products are equal when they have as many terms and their terms,
/// each sorted by `order`, are equal pairwise.  Two quotients are never
/// equal, nor are terms of different kinds.
pub open spec fn eq_by(a: Term, b: Term, sharing: bool) -> bool
    decreases size(a),
    via eq_by_terminates
{
    match (a, b) {
        (Term::Variable(x), Term::Variable(y)) => x == y,
        (Term::Constant(x), Term::Constant(y)) => float_eq(x, y),
        (Term::S { f: f1, m: m1, p: p1 }, Term::S { f: f2, m: m2, p: p2 }) => {
            &&& (sharing && f1 == f2) || eq_by(*f1, *f2, sharing)
            &&& float_eq(m1, m2)
            &&& float_eq(p1, p2)
        },
        (Term::Add(v1), Term::Add(v2)) => {
            &&& v1.len() == v2.len()
            &&& forall|i: int|
                #![trigger sorted_terms(v1)[i]]
                0 <= i < v1.len() ==> (sharing && sorted_terms(v1)[i] == sorted_terms(v2)[i])
                    || eq_by(sorted_terms(v1)[i], sorted_terms(v2)[i], sharing)
        },
        (Term::Mul(v1), Term::Mul(v2)) => {
            &&& v1.len() == v2.len()
            &&& forall|i: int|
                #![trigger sorted_terms(v1)[i]]
                0 <= i < v1.len() ==> (sharing && sorted_terms(v1)[i] == sorted_terms(v2)[i])
                    || eq_by(sorted_terms(v1)[i], sorted_terms(v2)[i], sharing)
        },
        (Term::Sub { lhs: l1, rhs: r1 }, Term::Sub { lhs: l2, rhs: r2 }) => {
            &&& (sharing && l1 == l2) || eq_by(*l1, *l2, sharing)
            &&& (sharing && r1 == r2) || eq_by(*r1, *r2, sharing)
        },
        _ => false,
    }
}

#[via_fn]
proof fn eq_by_terminates(a: Term, b: Term, sharing: bool) {
    match (a, b) {
        (Term::Add(v1), Term::Add(v2)) => {
            assert forall|i: int| 0 <= i < v1.len() implies size(sorted_terms(v1)[i]) < size(a) by {
                lemma_sorted_terms_member(v1, i);
            }
        },
        (Term::Mul(v1), Term::Mul(v2)) => {
            assert forall|i: int| 0 <= i < v1.len() implies size(sorted_terms(v1)[i]) < size(a) by {
                lemma_sorted_terms_member(v1, i);
            }
        },
        _ => {},
    }
}

/// What `==` on two `Arc`s may report true for: the same term, or terms
/// equal with sharing counted.
pub open spec fn loosely_equal(x: Term, y: Term) -> bool {
    x == y || eq_by(x, y, true)
}

/// Comparing two terms with `==` does not panic: every sort it makes (of
/// the terms of two sums or two products) sorts terms that can be compared,
/// and so do the comparisons it goes on to make.
pub open spec fn eq_defined(a: Term, b: Term) -> bool
    decreases size(a),
    via eq_defined_terminates
{
    match (a, b) {
        (Term::S { f: f1, .. }, Term::S { f: f2, .. }) => eq_defined(*f1, *f2),
        (Term::Add(v1), Term::Add(v2)) => {
            &&& comparable_terms(v1)
            &&& comparable_terms(v2)
            &&& v1.len() == v2.len() ==> forall|i: int|
                #![trigger sorted_terms(v1)[i]]
                0 <= i < v1.len() && (forall|k: int|
                    #![trigger sorted_terms(v1)[k]]
                    0 <= k < i ==> loosely_equal(sorted_terms(v1)[k], sorted_terms(v2)[k]))
                    ==> eq_defined(sorted_terms(v1)[i], sorted_terms(v2)[i])
        },
        (Term::Mul(v1), Term::Mul(v2)) => {
            &&& comparable_terms(v1)
            &&& comparable_terms(v2)
            &&& v1.len() == v2.len() ==> forall|i: int|
                #![trigger sorted_terms(v1)[i]]
                0 <= i < v1.len() && (forall|k: int|
                    #![trigger sorted_terms(v1)[k]]
                    0 <= k < i ==> loosely_equal(sorted_terms(v1)[k], sorted_terms(v2)[k]))
                    ==> eq_defined(sorted_terms(v1)[i], sorted_terms(v2)[i])
        },
        (Term::Sub { lhs: l1, rhs: r1 }, Term::Sub { lhs: l2, rhs: r2 }) => {
            &&& eq_defined(*l1, *l2)
            &&& loosely_equal(*l1, *l2) ==> eq_defined(*r1, *r2)
        },
        _ => true,
    }
}

#[via_fn]
proof fn eq_defined_terminates(a: Term, b: Term) {
    match (a, b) {
        (Term::Add(v1), Term::Add(v2)) => {
            assert forall|i: int| 0 <= i < v1.len() implies size(sorted_terms(v1)[i]) < size(a) by {
                lemma_sorted_terms_member(v1, i);
            }
        },
        (Term::Mul(v1), Term::Mul(v2)) => {
            assert forall|i: int| 0 <= i < v1.len() implies size(sorted_terms(v1)[i]) < size(a) by {
                lemma_sorted_terms_member(v1, i);
            }
        },
        _ => {},
    }
}

/// A term that `==` reports equal to itself: one without a quotient and
/// without a NaN among its numbers.
pub open spec fn self_equal(t: Term) -> bool
    decreases t,
{
    match t {
        Term::Variable(_) => true,
        Term::Constant(c) => !is_nan(c),
        Term::S { f, m, p } => !is_nan(m) && !is_nan(p) && self_equal(*f),
        Term::Add(s) => forall|i: int| 0 <= i < s.len() ==> self_equal(#[trigger] s[i]),
        Term::Mul(s) => forall|i: int| 0 <= i < s.len() ==> self_equal(#[trigger] s[i]),
        Term::Sub { lhs, rhs } => self_equal(*lhs) && self_equal(*rhs),
        Term::Div { .. } => false,
    }
}

/// `==` is reflexive on terms without a quotient and without a NaN: every
/// such term is equal to itself.
pub proof fn lemma_eq_reflexive(a: Term, sharing: bool)
    requires
        self_equal(a),
    ensures
        eq_by(a, a, sharing),
    decreases size(a),
{
    match a {
        Term::S { f, .. } => {
            lemma_eq_reflexive(*f, sharing);
        },
        Term::Add(v) => {
            assert forall|i: int| #![trigger sorted_terms(v)[i]] 0 <= i < v.len() implies eq_by(
                sorted_terms(v)[i],
                sorted_terms(v)[i],
                sharing,
            ) by {
                let j = lemma_sorted_terms_member(v, i);
                lemma_eq_reflexive(sorted_terms(v)[i], sharing);
            }
        },
        Term::Mul(v) => {
            assert forall|i: int| #![trigger sorted_terms(v)[i]] 0 <= i < v.len() implies eq_by(
                sorted_terms(v)[i],
                sorted_terms(v)[i],
                sharing,
            ) by {
                let j = lemma_sorted_terms_member(v, i);
                lemma_eq_reflexive(sorted_terms(v)[i], sharing);
            }
        },
        Term::Sub { lhs, rhs } => {
            lemma_eq_reflexive(*lhs, sharing);
            lemma_eq_reflexive(*rhs, sharing);
        },
        _ => {},
    }
}

/// `==` is symmetric: `a == b` exactly when `b == a`.
pub proof fn lemma_eq_symmetric(a: Term, b: Term, sharing: bool)
    ensures
        eq_by(a, b, sharing) == eq_by(b, a, sharing),
    decreases size(a),
{
    match (a, b) {
        (Term::S { f: f1, .. }, Term::S { f: f2, .. }) => {
            lemma_eq_symmetric(*f1, *f2, sharing);
        },
        (Term::Add(v1), Term::Add(v2)) => {
            if v1.len() == v2.len() {
                lemma_sorted_terms_multiset(v1);
                lemma_sorted_terms_multiset(v2);
                assert forall|i: int| 0 <= i < v1.len() implies eq_by(
                    sorted_terms(v1)[i],
                    sorted_terms(v2)[i],
                    sharing,
                ) == eq_by(sorted_terms(v2)[i], sorted_terms(v1)[i], sharing) by {
                    let j = lemma_sorted_terms_member(v1, i);
                    lemma_eq_symmetric(sorted_terms(v1)[i], sorted_terms(v2)[i], sharing);
                }
                assert(eq_by(a, b, sharing) == eq_by(b, a, sharing));
            }
        },
        (Term::Mul(v1), Term::Mul(v2)) => {
            if v1.len() == v2.len() {
                lemma_sorted_terms_multiset(v1);
                lemma_sorted_terms_multiset(v2);
                assert forall|i: int| 0 <= i < v1.len() implies eq_by(
                    sorted_terms(v1)[i],
                    sorted_terms(v2)[i],
                    sharing,
                ) == eq_by(sorted_terms(v2)[i], sorted_terms(v1)[i], sharing) by {
                    let j = lemma_sorted_terms_member(v1, i);
                    lemma_eq_symmetric(sorted_terms(v1)[i], sorted_terms(v2)[i], sharing);
                }
                assert(eq_by(a, b, sharing) == eq_by(b, a, sharing));
            }
        },
        (Term::Sub { lhs: l1, rhs: r1 }, Term::Sub { lhs: l2, rhs: r2 }) => {
            lemma_eq_symmetric(*l1, *l2, sharing);
            lemma_eq_symmetric(*r1, *r2, sharing);
        },
        _ => {},
    }
}

/// `==` is transitive: `a == b` and `b == c` give `a == c`.
pub proof fn lemma_eq_transitive(a: Term, b: Term, c: Term, sharing: bool)
    requires
        eq_by(a, b, sharing),
        eq_by(b, c, sharing),
    ensures
        eq_by(a, c, sharing),
    decreases size(a),
{
    match (a, b, c) {
        (Term::S { f: f1, .. }, Term::S { f: f2, .. }, Term::S { f: f3, .. }) => {
            if !(sharing && f1 == f2) && !(sharing && f2 == f3) {
                lemma_eq_transitive(*f1, *f2, *f3, sharing);
            }
        },
        (Term::Add(v1), Term::Add(v2), Term::Add(v3)) => {
            lemma_sorted_terms_multiset(v1);
            lemma_sorted_terms_multiset(v2);
            lemma_sorted_terms_multiset(v3);
            assert forall|i: int| #![trigger sorted_terms(v1)[i]] 0 <= i < v1.len() implies (sharing
                && sorted_terms(v1)[i] == sorted_terms(v3)[i]) || eq_by(
                sorted_terms(v1)[i],
                sorted_terms(v3)[i],
                sharing,
            ) by {
                let x = sorted_terms(v1)[i];
                let y = sorted_terms(v2)[i];
                let z = sorted_terms(v3)[i];
                assert((sharing && y == z) || eq_by(y, z, sharing));
                if !(sharing && x == y) && !(sharing && y == z) {
                    let j = lemma_sorted_terms_member(v1, i);
                    lemma_eq_transitive(x, y, z, sharing);
                }
            }
        },
        (Term::Mul(v1), Term::Mul(v2), Term::Mul(v3)) => {
            lemma_sorted_terms_multiset(v1);
            lemma_sorted_terms_multiset(v2);
            lemma_sorted_terms_multiset(v3);
            assert forall|i: int| #![trigger sorted_terms(v1)[i]] 0 <= i < v1.len() implies (sharing
                && sorted_terms(v1)[i] == sorted_terms(v3)[i]) || eq_by(
                sorted_terms(v1)[i],
                sorted_terms(v3)[i],
                sharing,
            ) by {
                let x = sorted_terms(v1)[i];
                let y = sorted_terms(v2)[i];
                let z = sorted_terms(v3)[i];
                assert((sharing && y == z) || eq_by(y, z, sharing));
                if !(sharing && x == y) && !(sharing && y == z) {
                    let j = lemma_sorted_terms_member(v1, i);
                    lemma_eq_transitive(x, y, z, sharing);
                }
            }
        },
        (
            Term::Sub { lhs: l1, rhs: r1 },
            Term::Sub { lhs: l2, rhs: r2 },
            Term::Sub { lhs: l3, rhs: r3 },
        ) => {
            if !(sharing && l1 == l2) && !(sharing && l2 == l3) {
                lemma_eq_transitive(*l1, *l2, *l3, sharing);
            }
            if !(sharing && r1 == r2) && !(sharing && r2 == r3) {
                lemma_eq_transitive(*r1, *r2, *r3, sharing);
            }
        },
        _ => {},
    }
}

/// A term compared with itself, where that does not panic, compares level.
proof fn lemma_order_self(t: Term)
    requires
        order(t, t) is Some,
    ensures
        order(t, t) == Some(Ordering::Equal),
    decreases t,
{
    match t {
        Term::Variable(x) => {
            lemma_lex_order_equal(vstd::utf8::encode_utf8(x), vstd::utf8::encode_utf8(x));
        },
        Term::S { f, .. } => {
            lemma_order_self(*f);
        },
        _ => {},
    }
}

/// Equal terms compare level: where `cmp` does not panic, `a == b` gives
/// `a.cmp(b) == Equal`.
pub proof fn lemma_eq_orders_level(a: Term, b: Term, sharing: bool)
    requires
        eq_by(a, b, sharing),
        order(a, b) is Some,
    ensures
        order(a, b) == Some(Ordering::Equal),
    decreases a,
{
    match (a, b) {
        (Term::Variable(x), Term::Variable(y)) => {
            lemma_lex_order_equal(vstd::utf8::encode_utf8(x), vstd::utf8::encode_utf8(y));
        },
        (Term::S { f: f1, .. }, Term::S { f: f2, .. }) => {
            if sharing && f1 == f2 {
                lemma_order_self(*f1);
            } else {
                lemma_eq_orders_level(*f1, *f2, sharing);
            }
        },
        _ => {},
    }
}

/// Two sums (or two products) whose terms are the same up to their order
/// are equal under `==`, where the terms of each can be compared with one
/// another, only equal terms compare level, and every term is equal to
/// itself.
pub proof fn lemma_eq_order_free(v1: Seq<Term>, v2: Seq<Term>, sharing: bool)
    requires
        v1.to_multiset() == v2.to_multiset(),
        comparable_terms(v1),
        comparable_terms(v2),
        forall|i: int, j: int|
            0 <= i < v1.len() && 0 <= j < v1.len() && #[trigger] order(v1[i], v1[j]) == Some(
                Ordering::Equal,
            ) ==> v1[i] == v1[j],
        forall|i: int| 0 <= i < v1.len() ==> self_equal(#[trigger] v1[i]),
    ensures
        eq_by(Term::Add(v1), Term::Add(v2), sharing),
        eq_by(Term::Mul(v1), Term::Mul(v2), sharing),
{
    broadcast use vstd::seq_lib::group_to_multiset_ensures;

    lemma_sorted_terms_multiset(v1);
    lemma_sorted_terms_multiset(v2);
    lemma_sorted_terms_in_order(v1);
    lemma_sorted_terms_in_order(v2);
    let p = sorted_terms(v1);
    let q = sorted_terms(v2);
    assert forall|x: Term| p.contains(x) implies v1.contains(x) by {
        assert(p.to_multiset().count(x) > 0);
    }
    assert forall|x: Term, y: Term| p.contains(x) && p.contains(y) && x != y implies #[trigger] comparable(
        x,
        y,
    ) by {
        assert(v1.contains(x));
        assert(v1.contains(y));
        let i = choose|i: int| 0 <= i < v1.len() && v1[i] == x;
        let j = choose|j: int| 0 <= j < v1.len() && v1[j] == y;
        assert(comparable(v1[i], v1[j]));
    }
    assert forall|x: Term, y: Term|
        p.contains(x) && p.contains(y) && #[trigger] order(x, y) == Some(Ordering::Equal) implies x
        == y by {
        assert(v1.contains(x));
        assert(v1.contains(y));
        let i = choose|i: int| 0 <= i < v1.len() && v1[i] == x;
        let j = choose|j: int| 0 <= j < v1.len() && v1[j] == y;
        assert(order(v1[i], v1[j]) == Some(Ordering::Equal));
    }
    lemma_in_order_unique(p, q);
    assert forall|i: int| #![trigger sorted_terms(v1)[i]] 0 <= i < v1.len() implies eq_by(
        sorted_terms(v1)[i],
        sorted_terms(v2)[i],
        sharing,
    ) by {
        let j = lemma_sorted_terms_member(v1, i);
        lemma_eq_reflexive(sorted_terms(v1)[i], sharing);
    }
}

/// Two variables compare level only when they are the same variable.
proof fn lemma_variables_level(x: Seq<char>, y: Seq<char>)
    requires
        order(Term::Variable(x), Term::Variable(y)) == Some(Ordering::Equal),
    ensures
        x == y,
{
    lemma_lex_order_equal(vstd::utf8::encode_utf8(x), vstd::utf8::encode_utf8(y));
    vstd::utf8::encode_utf8_decode_utf8(x);
    vstd::utf8::encode_utf8_decode_utf8(y);
}

/// Sums (and products) of variables holding the same variables, each as
/// often, are equal under `==`, whatever the order of their terms.
pub proof fn lemma_variable_sums_equal(v1: Seq<Term>, v2: Seq<Term>, sharing: bool)
    requires
        v1.to_multiset() == v2.to_multiset(),
        forall|i: int| 0 <= i < v1.len() ==> #[trigger] v1[i] is Variable,
    ensures
        eq_by(Term::Add(v1), Term::Add(v2), sharing),
        eq_by(Term::Mul(v1), Term::Mul(v2), sharing),
{
    broadcast use vstd::seq_lib::group_to_multiset_ensures;

    assert forall|j: int| 0 <= j < v2.len() implies #[trigger] v2[j] is Variable by {
        assert(v2.contains(v2[j]));
        assert(v1.to_multiset().count(v2[j]) > 0);
        assert(v1.contains(v2[j]));
    }
    assert forall|i: int, j: int|
        0 <= i < v1.len() && 0 <= j < v1.len() && i != j implies #[trigger] comparable(v1[i], v1[j]) by {
        assert(v1[i] is Variable);
        assert(v1[j] is Variable);
    }
    assert forall|i: int, j: int|
        0 <= i < v2.len() && 0 <= j < v2.len() && i != j implies #[trigger] comparable(v2[i], v2[j]) by {
        assert(v2[i] is Variable);
        assert(v2[j] is Variable);
    }
    assert forall|i: int, j: int|
        0 <= i < v1.len() && 0 <= j < v1.len() && #[trigger] order(v1[i], v1[j]) == Some(
            Ordering::Equal,
        ) implies v1[i] == v1[j] by {
        assert(v1[i] is Variable);
        assert(v1[j] is Variable);
        lemma_variables_level(v1[i]->Variable_0, v1[j]->Variable_0);
    }
    assert forall|i: int| 0 <= i < v1.len() implies self_equal(#[trigger] v1[i]) by {
        assert(v1[i] is Variable);
    }
    lemma_eq_order_free(v1, v2, sharing);
}

/// A variable, or a constant that is not NaN: a leaf that `==` reports
/// equal to itself and that compares with any other such leaf.
pub open spec fn plain_leaf(t: Term) -> bool {
    ||| t is Variable
    ||| (t is Constant && !is_nan(t->Constant_0))
}

/// A leaf as `==` sees it: the constant `-0.0` read as `0.0`.
pub open spec fn normal(t: Term) -> Term {
    match t {
        Term::Constant(c) => if rank(c) == 0 {
            Term::Constant(0)
        } else {
            t
        },
        _ => t,
    }
}

/// The leaves of `v` as `==` sees them.
pub open spec fn normals(v: Seq<Term>) -> Seq<Term> {
    v.map_values(|t: Term| normal(t))
}

proof fn lemma_zero_bits()
    ensures
        !is_nan(0),
        rank(0) == 0,
{
    assert(0u64 & 0x7ff0_0000_0000_0000u64 == 0) by (bit_vector);
    assert(0u64 & 0x7fff_ffff_ffff_ffffu64 == 0) by (bit_vector);
    assert(0u64 & 0x8000_0000_0000_0000u64 == 0) by (bit_vector);
}

/// Two plain leaves are equal under `==` exactly when they are the same
/// once `-0.0` is read as `0.0`; and a leaf compares with others as its
/// normal form does.
proof fn lemma_leaf_eq(x: Term, y: Term, sharing: bool)
    requires
        plain_leaf(x),
        plain_leaf(y),
    ensures
        eq_by(x, y, sharing) <==> normal(x) == normal(y),
        plain_leaf(normal(x)),
        normal(normal(x)) == normal(x),
        order(normal(x), normal(y)) == order(x, y),
        order(x, y) is Some,
{
    lemma_zero_bits();
    if let (Term::Constant(a), Term::Constant(b)) = (x, y) {
        lemma_bits_split(a, b);
        if rank(a) == rank(b) && rank(a) != 0 {
            assert(is_negative(a) == is_negative(b));
            assert(magnitude(a) == magnitude(b));
        }
        if a == 0 {
            assert(rank(a) == 0);
        }
        if b == 0 {
            assert(rank(b) == 0);
        }
    }
}

/// `s` and `t` hold the same terms, each as often, so do their normal
/// forms.
proof fn lemma_normals_multiset(s: Seq<Term>, t: Seq<Term>)
    requires
        s.to_multiset() == t.to_multiset(),
    ensures
        normals(s).to_multiset() == normals(t).to_multiset(),
    decreases s.len(),
{
    broadcast use vstd::seq_lib::group_to_multiset_ensures;

    if s.len() == 0 {
        assert(t.to_multiset().len() == 0);
        assert(t =~= Seq::<Term>::empty());
        assert(normals(s) =~= normals(t));
    } else {
        let x = s.last();
        let s1 = s.drop_last();
        assert(s1.push(x) =~= s);
        assert(t.to_multiset().count(x) > 0);
        assert(t.contains(x));
        let i = choose|i: int| 0 <= i < t.len() && t[i] == x;
        let t1 = t.remove(i);
        assert(t1.to_multiset() =~= t.to_multiset().remove(x));
        assert(s1.to_multiset() =~= s.to_multiset().remove(x));
        lemma_normals_multiset(s1, t1);
        assert(normals(s) =~= normals(s1).push(normal(x)));
        assert(normals(t).remove(i) =~= normals(t1));
        assert(normals(t)[i] == normal(x));
        assert(normals(t1).to_multiset() =~= normals(t).to_multiset().remove(normal(x)));
        assert(normals(t).to_multiset().count(normal(x)) > 0) by {
            assert(normals(t).contains(normal(x)));
        }
        assert(normals(t).to_multiset() =~= normals(t1).to_multiset().insert(normal(x)));
    }
}

/// For sums (and products) of variables and constants that are not NaN,
/// `==` holds exactly when the terms of one are those of the other, each
/// as often, with `-0.0` read as `0.0`: a permutation up to `==`.
pub proof fn lemma_leaf_sums_eq(v1: Seq<Term>, v2: Seq<Term>, sharing: bool)
    requires
        forall|i: int| 0 <= i < v1.len() ==> plain_leaf(#[trigger] v1[i]),
        forall|i: int| 0 <= i < v2.len() ==> plain_leaf(#[trigger] v2[i]),
    ensures
        eq_by(Term::Add(v1), Term::Add(v2), sharing) <==> normals(v1).to_multiset() == normals(
            v2,
        ).to_multiset(),
        eq_by(Term::Mul(v1), Term::Mul(v2), sharing) <==> normals(v1).to_multiset() == normals(
            v2,
        ).to_multiset(),
        !eq_by(Term::Add(v1), Term::Mul(v2), sharing),
{
    broadcast use vstd::seq_lib::group_to_multiset_ensures;

    let p = sorted_terms(v1);
    let q = sorted_terms(v2);
    lemma_sorted_terms_multiset(v1);
    lemma_sorted_terms_multiset(v2);
    assert forall|i: int| 0 <= i < p.len() implies plain_leaf(#[trigger] p[i]) by {
        let j = lemma_sorted_terms_member(v1, i);
    }
    assert forall|i: int| 0 <= i < q.len() implies plain_leaf(#[trigger] q[i]) by {
        let j = lemma_sorted_terms_member(v2, i);
    }
    lemma_normals_multiset(p, v1);
    lemma_normals_multiset(q, v2);
    let np = normals(p);
    let nq = normals(q);
    if normals(v1).to_multiset() == normals(v2).to_multiset() {
        assert(comparable_terms(v1)) by {
            assert forall|i: int, j: int|
                0 <= i < v1.len() && 0 <= j < v1.len() && i != j implies #[trigger] comparable(
                v1[i],
                v1[j],
            ) by {
                lemma_leaf_eq(v1[i], v1[j], sharing);
            }
        }
        assert(comparable_terms(v2)) by {
            assert forall|i: int, j: int|
                0 <= i < v2.len() && 0 <= j < v2.len() && i != j implies #[trigger] comparable(
                v2[i],
                v2[j],
            ) by {
                lemma_leaf_eq(v2[i], v2[j], sharing);
            }
        }
        lemma_sorted_terms_in_order(v1);
        lemma_sorted_terms_in_order(v2);
        assert(in_order(np)) by {
            assert forall|i: int, j: int| 0 <= i < j < np.len() implies #[trigger] not_after(
                np[i],
                np[j],
            ) by {
                assert(not_after(p[i], p[j]));
                lemma_leaf_eq(p[i], p[j], sharing);
            }
        }
        assert(in_order(nq)) by {
            assert forall|i: int, j: int| 0 <= i < j < nq.len() implies #[trigger] not_after(
                nq[i],
                nq[j],
            ) by {
                assert(not_after(q[i], q[j]));
                lemma_leaf_eq(q[i], q[j], sharing);
            }
        }
        assert forall|x: Term, y: Term| np.contains(x) && np.contains(y) && x != y implies #[trigger] comparable(
            x,
            y,
        ) by {
            let i = choose|i: int| 0 <= i < np.len() && np[i] == x;
            let j = choose|j: int| 0 <= j < np.len() && np[j] == y;
            lemma_leaf_eq(p[i], p[j], sharing);
        }
        assert forall|x: Term, y: Term|
            np.contains(x) && np.contains(y) && #[trigger] order(x, y) == Some(Ordering::Equal) implies x
            == y by {
            let i = choose|i: int| 0 <= i < np.len() && np[i] == x;
            let j = choose|j: int| 0 <= j < np.len() && np[j] == y;
            lemma_leaf_eq(p[i], p[j], sharing);
            lemma_leaf_eq(x, y, sharing);
            if x is Variable && y is Variable {
                lemma_variables_level(x->Variable_0, y->Variable_0);
            }
        }
        lemma_in_order_unique(np, nq);
        assert(p.len() == q.len());
        assert forall|i: int| #![trigger sorted_terms(v1)[i]] 0 <= i < v1.len() implies eq_by(
            sorted_terms(v1)[i],
            sorted_terms(v2)[i],
            sharing,
        ) by {
            assert(np[i] == nq[i]);
            lemma_leaf_eq(p[i], q[i], sharing);
        }
    }
    if eq_by(Term::Add(v1), Term::Add(v2), sharing) || eq_by(Term::Mul(v1), Term::Mul(v2), sharing) {
        assert(p.len() == q.len());
        assert forall|i: int| 0 <= i < np.len() implies np[i] == nq[i] by {
            assert(p[i] == sorted_terms(v1)[i]);
            lemma_leaf_eq(p[i], q[i], sharing);
        }
        assert(np =~= nq);
    }
}

/// Calls `Arc::ptr_eq`.
/// Claimed: when it returns true, both point to one allocation, so to the
/// same value.  When it returns false nothing is claimed: the answer depends
/// on where the values were allocated.
#[verifier::external_body]
pub(crate) fn same_allocation<'f>(a: &Arc<Function<'f>>, b: &Arc<Function<'f>>) -> (r: bool)
    ensures
        r ==> *a == *b,
{
    Arc::ptr_eq(a, b)
}

proof fn lemma_lex_order_equal(a: Seq<u8>, b: Seq<u8>)
    ensures
        lex_order(a, b) == Ordering::Equal <==> a == b,
    decreases a.len(),
{
    if a.len() > 0 && b.len() > 0 && a[0] == b[0] {
        lemma_lex_order_equal(a.drop_first(), b.drop_first());
        if a.drop_first() == b.drop_first() {
            assert(a =~= seq![a[0]] + a.drop_first());
            assert(b =~= seq![b[0]] + b.drop_first());
        }
    } else if a.len() == 0 && b.len() == 0 {
        assert(a =~= b);
    }
}

/// `==` on two strings.
fn str_equal(a: &str, b: &str) -> (r: bool)
    ensures
        r == (a@ == b@),
{
    let o = compare_bytes(a.as_bytes(), b.as_bytes());
    proof {
        lemma_lex_order_equal(a.spec_bytes(), b.spec_bytes());
        vstd::utf8::encode_utf8_decode_utf8(a@);
        vstd::utf8::encode_utf8_decode_utf8(b@);
    }
    match o {
        Ordering::Equal => true,
        _ => false,
    }
}

impl<'f> Function<'f> {
    /// `==` on functions (see `eq_by`).  Where two subterms are held by
    /// `Arc`s pointing to one allocation they count as equal without being
    /// compared, so the answer lies between equality without sharing and
    /// equality with sharing.
    pub fn eq(&self, other: &Self) -> (r: bool)
        requires
            eq_defined(self@, other@),
        ensures
            eq_by(self@, other@, false) ==> r,
            r ==> eq_by(self@, other@, true),
        decreases size(self@), 1nat,
    {
        match (self, other) {
            (Function::Variable(x), Function::Variable(y)) => str_equal(x, y),
            (Function::Constant(x), Function::Constant(y)) => bits_eq(*x, *y),
            (
                Function::S { f: lhs, m: lhs_mul, p: lhs_pow },
                Function::S { f: rhs, m: rhs_mul, p: rhs_pow },
            ) => arc_eq(lhs, rhs) && bits_eq(*lhs_mul, *rhs_mul) && bits_eq(*lhs_pow, *rhs_pow),
            (Function::Add { vec: lhs }, Function::Add { vec: rhs }) => {
                proof {
                    lemma_terms_of_vec(*lhs);
                    lemma_terms_of_vec(*rhs);
                }
                terms_eq(lhs, rhs)
            },
            (Function::Mul { vec: lhs }, Function::Mul { vec: rhs }) => {
                proof {
                    lemma_terms_of_vec(*lhs);
                    lemma_terms_of_vec(*rhs);
                    assert(eq_defined(Term::Add(terms_of(lhs@)), Term::Add(terms_of(rhs@))));
                }
                let r = terms_eq(lhs, rhs);
                proof {
                    assert(eq_by(self@, other@, false) == eq_by(
                        Term::Add(terms_of(lhs@)),
                        Term::Add(terms_of(rhs@)),
                        false,
                    ));
                    assert(eq_by(self@, other@, true) == eq_by(
                        Term::Add(terms_of(lhs@)),
                        Term::Add(terms_of(rhs@)),
                        true,
                    ));
                }
                r
            },
            (Function::Sub { lhs: lhs1, rhs: rhs1 }, Function::Sub { lhs: lhs2, rhs: rhs2 }) => {
                arc_eq(lhs1, lhs2) && arc_eq(rhs1, rhs2)
            },
            _ => false,
        }
    }
}

/// `==` on two `Arc<Function>`s, which reports two pointers to one
/// allocation equal without comparing the functions.
pub(crate) fn arc_eq<'f>(a: &Arc<Function<'f>>, b: &Arc<Function<'f>>) -> (r: bool)
    requires
        eq_defined(term_of(**a), term_of(**b)),
    ensures
        eq_by(term_of(**a), term_of(**b), false) ==> r,
        r ==> loosely_equal(term_of(**a), term_of(**b)),
    decreases size(term_of(**a)), 2nat,
{
    same_allocation(a, b) || (**a).eq(&**b)
}

/// Equality of the terms of two sums (or products): both are sorted, then
/// compared pairwise.
fn terms_eq<'f>(lhs: &Vec<Arc<Function<'f>>>, rhs: &Vec<Arc<Function<'f>>>) -> (r: bool)
    requires
        eq_defined(Term::Add(terms_of(lhs@)), Term::Add(terms_of(rhs@))),
    ensures
        eq_by(Term::Add(terms_of(lhs@)), Term::Add(terms_of(rhs@)), false) ==> r,
        r ==> eq_by(Term::Add(terms_of(lhs@)), Term::Add(terms_of(rhs@)), true),
    decreases size_of(terms_of(lhs@)) + 1, 0nat,
{
    let ghost tl = terms_of(lhs@);
    let ghost tr = terms_of(rhs@);
    let lhs_sorted = sort_terms(lhs);
    let rhs_sorted = sort_terms(rhs);
    proof {
        lemma_sorted_terms_multiset(tl);
        lemma_sorted_terms_multiset(tr);
    }
    if lhs.len() != rhs.len() {
        return false;
    }
    let mut i: usize = 0;
    while i < lhs_sorted.len()
        invariant
            tl == terms_of(lhs@),
            tr == terms_of(rhs@),
            terms_of(lhs_sorted@) == sorted_terms(tl),
            terms_of(rhs_sorted@) == sorted_terms(tr),
            sorted_terms(tl).len() == tl.len(),
            sorted_terms(tr).len() == tr.len(),
            tl.len() == tr.len(),
            i <= tl.len(),
            eq_defined(Term::Add(tl), Term::Add(tr)),
            forall|k: int|
                #![trigger sorted_terms(tl)[k]]
                0 <= k < i ==> loosely_equal(sorted_terms(tl)[k], sorted_terms(tr)[k]),
        decreases tl.len() - i,
    {
        proof {
            lemma_sorted_terms_member(tl, i as int);
            assert(sorted_terms(tl)[i as int] == term_of(*lhs_sorted@[i as int]));
            assert(sorted_terms(tr)[i as int] == term_of(*rhs_sorted@[i as int]));
            assert(eq_defined(sorted_terms(tl)[i as int], sorted_terms(tr)[i as int]));
        }
        if !arc_eq(&lhs_sorted[i], &rhs_sorted[i]) {
            proof {
                assert(!((false && sorted_terms(tl)[i as int] == sorted_terms(tr)[i as int])
                    || eq_by(sorted_terms(tl)[i as int], sorted_terms(tr)[i as int], false)));
            }
            return false;
        }
        i = i + 1;
    }
    true
}

} // verus!
