//! The order of functions, and sorting the terms of a sum or a product.
use std::cmp::Ordering;
use std::sync::Arc;
use vstd::prelude::*;
use crate::function::function::{lemma_size_of_member, size, size_of, term_of, terms_of, Function, Term};
use crate::ieee::{bits_partial_cmp, float_order};

verus! {

/// Lexicographic order of byte strings: `str`'s `Ord`, which orders strings
/// by their UTF-8 bytes.
pub open spec fn lex_order(a: Seq<u8>, b: Seq<u8>) -> Ordering
    decreases a.len(),
{
    if a.len() == 0 {
        if b.len() == 0 {
            Ordering::Equal
        } else {
            Ordering::Less
        }
    } else if b.len() == 0 {
        Ordering::Greater
    } else if a[0] < b[0] {
        Ordering::Less
    } else if a[0] > b[0] {
        Ordering::Greater
    } else {
        lex_order(a.drop_first(), b.drop_first())
    }
}

/// Order of two lengths.
pub open spec fn len_order(a: nat, b: nat) -> Ordering {
    if a < b {
        Ordering::Less
    } else if a == b {
        Ordering::Equal
    } else {
        Ordering::Greater
    }
}

/// The order of two terms, or `None` where comparing them panics (a NaN
/// number, or two terms of different kinds among `S`, `Add`, `Sub`, `Mul`
/// and `Div`, or two `Sub`s, or two `Div`s).
///
/// Variables come first, ordered by name (as UTF-8 bytes), then constants,
/// ordered by value; scaled terms are ordered by function, then multiplier,
/// then power; sums and products by their number of terms.
pub open spec fn order(a: Term, b: Term) -> Option<Ordering>
    decreases a,
{
    match (a, b) {
        (Term::Variable(x), Term::Variable(y)) => Some(
            lex_order(vstd::utf8::encode_utf8(x), vstd::utf8::encode_utf8(y)),
        ),
        (Term::Variable(_), _) => Some(Ordering::Less),
        (_, Term::Variable(_)) => Some(Ordering::Greater),
        (Term::Constant(x), Term::Constant(y)) => float_order(x, y),
        (Term::Constant(_), _) => Some(Ordering::Less),
        (_, Term::Constant(_)) => Some(Ordering::Greater),
        (Term::S { f: f1, m: m1, p: p1 }, Term::S { f: f2, m: m2, p: p2 }) => {
            match order(*f1, *f2) {
                Some(Ordering::Equal) => match float_order(m1, m2) {
                    Some(Ordering::Equal) => float_order(p1, p2),
                    other => other,
                },
                other => other,
            }
        },
        (Term::Add(v1), Term::Add(v2)) => Some(len_order(v1.len(), v2.len())),
        (Term::Mul(v1), Term::Mul(v2)) => Some(len_order(v1.len(), v2.len())),
        _ => None,
    }
}

/// An order read the other way round.
pub open spec fn reversed(o: Option<Ordering>) -> Option<Ordering> {
    match o {
        Some(Ordering::Less) => Some(Ordering::Greater),
        Some(Ordering::Greater) => Some(Ordering::Less),
        other => other,
    }
}

proof fn lemma_lex_order_reversed(a: Seq<u8>, b: Seq<u8>)
    ensures
        Some(lex_order(a, b)) == reversed(Some(lex_order(b, a))),
    decreases a.len(),
{
    if a.len() > 0 && b.len() > 0 && a[0] == b[0] {
        lemma_lex_order_reversed(a.drop_first(), b.drop_first());
    }
}

proof fn lemma_lex_order_transitive(a: Seq<u8>, b: Seq<u8>, c: Seq<u8>)
    requires
        lex_order(a, b) != Ordering::Greater,
        lex_order(b, c) != Ordering::Greater,
    ensures
        lex_order(a, c) == (if lex_order(a, b) == Ordering::Equal && lex_order(b, c)
            == Ordering::Equal {
            Ordering::Equal
        } else {
            Ordering::Less
        }),
    decreases a.len(),
{
    if a.len() > 0 && b.len() > 0 && c.len() > 0 && a[0] == b[0] && b[0] == c[0] {
        lemma_lex_order_transitive(a.drop_first(), b.drop_first(), c.drop_first());
    }
}

/// A byte string comes before every longer string that it begins, and
/// after it the other way round: a proper prefix is ordered first.
pub proof fn lemma_lex_prefix_first(a: Seq<u8>, b: Seq<u8>)
    requires
        b.len() > 0,
    ensures
        lex_order(a, a + b) == Ordering::Less,
        lex_order(a + b, a) == Ordering::Greater,
    decreases a.len(),
{
    if a.len() > 0 {
        assert((a + b).drop_first() =~= a.drop_first() + b);
        lemma_lex_prefix_first(a.drop_first(), b);
    }
}

/// Two byte strings are ordered by their first differing byte: where they
/// agree before position `i` and `a[i] < b[i]`, `a` comes first, whatever
/// follows.
pub proof fn lemma_lex_first_difference(a: Seq<u8>, b: Seq<u8>, i: int)
    requires
        0 <= i < a.len(),
        i < b.len(),
        a.take(i) == b.take(i),
        a[i] < b[i],
    ensures
        lex_order(a, b) == Ordering::Less,
        lex_order(b, a) == Ordering::Greater,
    decreases i,
{
    if i > 0 {
        assert(a[0] == a.take(i)[0]);
        assert(b[0] == b.take(i)[0]);
        assert(a.drop_first().take(i - 1) =~= a.take(i).drop_first());
        assert(b.drop_first().take(i - 1) =~= b.take(i).drop_first());
        lemma_lex_first_difference(a.drop_first(), b.drop_first(), i - 1);
    }
}

/// The UTF-8 bytes of two strings joined are the bytes of the first
/// followed by those of the second.
proof fn lemma_encode_joined(x: Seq<char>, y: Seq<char>)
    ensures
        vstd::utf8::encode_utf8(x + y) == vstd::utf8::encode_utf8(x) + vstd::utf8::encode_utf8(y),
    decreases x.len(),
{
    if x.len() == 0 {
        assert(x + y =~= y);
        assert(vstd::utf8::encode_utf8(x) + vstd::utf8::encode_utf8(y) =~= vstd::utf8::encode_utf8(y));
    } else {
        assert((x + y).drop_first() =~= x.drop_first() + y);
        assert((x + y)[0] == x[0]);
        lemma_encode_joined(x.drop_first(), y);
        let e = vstd::utf8::encode_utf8(x);
        let t = vstd::utf8::encode_utf8(x.drop_first());
        let u = vstd::utf8::encode_utf8(y);
        assert(e + u =~= (e.take(e.len() - t.len()) + t) + u) by {
            assert(e =~= e.take(e.len() - t.len()) + t);
        }
    }
}

/// Variables are ordered by name as `str` orders names: a name that begins
/// a longer one comes before it.
pub proof fn lemma_variable_prefix_first(x: Seq<char>, y: Seq<char>)
    requires
        y.len() > 0,
    ensures
        order(Term::Variable(x), Term::Variable(x + y)) == Some(Ordering::Less),
        order(Term::Variable(x + y), Term::Variable(x)) == Some(Ordering::Greater),
{
    lemma_encode_joined(x, y);
    assert(vstd::utf8::encode_utf8(y).len() > 0);
    lemma_lex_prefix_first(vstd::utf8::encode_utf8(x), vstd::utf8::encode_utf8(y));
}

/// Variables come before every other kind of term, and constants before
/// every kind but variables.
pub proof fn lemma_kinds_ordered(a: Term, b: Term)
    ensures
        (a is Variable && !(b is Variable)) ==> order(a, b) == Some(Ordering::Less),
        (a is Constant && !(b is Variable) && !(b is Constant)) ==> order(a, b) == Some(Ordering::Less),
{
}

/// Scaled terms are ordered by their functions first; only between equal
/// functions do the multipliers decide, and only between equal functions
/// and equal multipliers the powers.
pub proof fn lemma_scaled_order(f1: Term, m1: u64, p1: u64, f2: Term, m2: u64, p2: u64)
    ensures
        order(f1, f2) != Some(Ordering::Equal) ==> order(
            (Term::S { f: Box::new(f1), m: m1, p: p1 }),
            (Term::S { f: Box::new(f2), m: m2, p: p2 }),
        ) == order(f1, f2),
        order(f1, f2) == Some(Ordering::Equal) && float_order(m1, m2) != Some(Ordering::Equal) ==> order(
            (Term::S { f: Box::new(f1), m: m1, p: p1 }),
            (Term::S { f: Box::new(f2), m: m2, p: p2 }),
        ) == float_order(m1, m2),
        order(f1, f2) == Some(Ordering::Equal) && float_order(m1, m2) == Some(Ordering::Equal) ==> order(
            (Term::S { f: Box::new(f1), m: m1, p: p1 }),
            (Term::S { f: Box::new(f2), m: m2, p: p2 }),
        ) == float_order(p1, p2),
{
}

/// Sums are ordered by their number of terms alone, whatever the terms, and
/// so are products.
pub proof fn lemma_sums_ordered_by_length(v1: Seq<Term>, v2: Seq<Term>)
    ensures
        v1.len() < v2.len() ==> order(Term::Add(v1), Term::Add(v2)) == Some(Ordering::Less)
            && order(Term::Mul(v1), Term::Mul(v2)) == Some(Ordering::Less),
        v1.len() == v2.len() ==> order(Term::Add(v1), Term::Add(v2)) == Some(Ordering::Equal)
            && order(Term::Mul(v1), Term::Mul(v2)) == Some(Ordering::Equal),
        v1.len() > v2.len() ==> order(Term::Add(v1), Term::Add(v2)) == Some(Ordering::Greater)
            && order(Term::Mul(v1), Term::Mul(v2)) == Some(Ordering::Greater),
{
}

/// Comparing two terms the other way round gives the reverse order (and a
/// panic exactly when the comparison panics).
pub proof fn lemma_order_reversed(a: Term, b: Term)
    ensures
        order(a, b) == reversed(order(b, a)),
    decreases a,
{
    match (a, b) {
        (Term::Variable(x), Term::Variable(y)) => {
            lemma_lex_order_reversed(vstd::utf8::encode_utf8(x), vstd::utf8::encode_utf8(y));
        },
        (Term::S { f: f1, .. }, Term::S { f: f2, .. }) => {
            lemma_order_reversed(*f1, *f2);
        },
        _ => {},
    }
}

/// The order is transitive where it is defined: a term not after a second
/// that is not after a third is not after the third, and before it unless
/// all three compare equal.
pub proof fn lemma_order_transitive(a: Term, b: Term, c: Term)
    requires
        order(a, b) == Some(Ordering::Less) || order(a, b) == Some(Ordering::Equal),
        order(b, c) == Some(Ordering::Less) || order(b, c) == Some(Ordering::Equal),
    ensures
        order(a, c) == (if order(a, b) == Some(Ordering::Equal) && order(b, c) == Some(
            Ordering::Equal,
        ) {
            Some(Ordering::Equal)
        } else {
            Some(Ordering::Less)
        }),
    decreases a,
{
    match (a, b, c) {
        (Term::Variable(x), Term::Variable(y), Term::Variable(z)) => {
            lemma_lex_order_transitive(
                vstd::utf8::encode_utf8(x),
                vstd::utf8::encode_utf8(y),
                vstd::utf8::encode_utf8(z),
            );
        },
        (Term::S { f: f1, .. }, Term::S { f: f2, .. }, Term::S { f: f3, .. }) => {
            lemma_order_transitive(*f1, *f2, *f3);
        },
        _ => {},
    }
}

/// The bytes of `s` from position `i` on.
pub open spec fn suffix(s: Seq<u8>, i: usize) -> Seq<u8> {
    s.skip(i as int)
}

proof fn lemma_suffix_step(s: Seq<u8>, i: usize)
    requires
        i < s.len(),
        i < usize::MAX,
    ensures
        suffix(s, i).len() > 0,
        suffix(s, i)[0] == s[i as int],
        suffix(s, i).drop_first() =~= suffix(s, (i + 1) as usize),
{
    assert(suffix(s, i).drop_first() =~= suffix(s, (i + 1) as usize));
}

proof fn lemma_suffix_zero(s: Seq<u8>)
    ensures
        suffix(s, 0) == s,
{
    assert(suffix(s, 0) =~= s);
}

/// Compares two byte strings lexicographically.
pub fn compare_bytes(a: &[u8], b: &[u8]) -> (r: Ordering)
    ensures
        r == lex_order(a@, b@),
{
    let mut i: usize = 0;
    proof {
        lemma_suffix_zero(a@);
        lemma_suffix_zero(b@);
    }
    while i < a.len() && i < b.len()
        invariant
            i <= a@.len(),
            i <= b@.len(),
            lex_order(a@, b@) == lex_order(suffix(a@, i), suffix(b@, i)),
        decreases a@.len() - i,
    {
        if a[i] < b[i] {
            return Ordering::Less;
        } else if a[i] > b[i] {
            return Ordering::Greater;
        }
        proof {
            lemma_suffix_step(a@, i);
            lemma_suffix_step(b@, i);
        }
        i = i + 1;
    }
    if i < a.len() {
        Ordering::Greater
    } else if i < b.len() {
        Ordering::Less
    } else {
        Ordering::Equal
    }
}

/// Compares the lengths of two vectors.
fn compare_lengths<T>(x: &Vec<T>, y: &Vec<T>) -> (r: Ordering)
    ensures
        r == len_order(x@.len(), y@.len()),
{
    let a = x.len();
    let b = y.len();
    if a < b {
        Ordering::Less
    } else if a == b {
        Ordering::Equal
    } else {
        Ordering::Greater
    }
}

impl<'f> Function<'f> {
    /// Compares two functions (see `order`).
    pub fn cmp(&self, other: &Self) -> (r: Ordering)
        requires
            order(self@, other@) is Some,
        ensures
            Some(r) == order(self@, other@),
        decreases self,
    {
        match (self, other) {
            (Function::Variable(x), Function::Variable(y)) => compare_bytes(x.as_bytes(), y.as_bytes()),
            (Function::Variable(_), _) => Ordering::Less,
            (_, Function::Variable(_)) => Ordering::Greater,
            (Function::Constant(x), Function::Constant(y)) => bits_partial_cmp(*x, *y).unwrap(),
            (Function::Constant(_), _) => Ordering::Less,
            (_, Function::Constant(_)) => Ordering::Greater,
            (
                Function::S { f: lhs, m: lhs_mul, p: lhs_pow },
                Function::S { f: rhs, m: rhs_mul, p: rhs_pow },
            ) => {
                match (&**lhs).cmp(&**rhs) {
                    Ordering::Equal => {
                        match bits_partial_cmp(*lhs_mul, *rhs_mul).unwrap() {
                            Ordering::Equal => bits_partial_cmp(*lhs_pow, *rhs_pow).unwrap(),
                            other => other,
                        }
                    },
                    other => other,
                }
            },
            (Function::Add { vec: lhs }, Function::Add { vec: rhs }) => compare_lengths(lhs, rhs),
            (Function::Mul { vec: lhs }, Function::Mul { vec: rhs }) => compare_lengths(lhs, rhs),
            _ => {
                proof {
                    assert(order(self@, other@) is None);
                }
                Ordering::Equal
            },
        }
    }

    /// `Some(self.cmp(other))`.
    pub fn partial_cmp(&self, other: &Self) -> (r: Option<Ordering>)
        requires
            order(self@, other@) is Some,
        ensures
            r == order(self@, other@),
    {
        Some(self.cmp(other))
    }
}

/// `a` and `b` can be compared without a panic.
pub open spec fn comparable(a: Term, b: Term) -> bool {
    order(a, b) is Some
}

/// `order` places `a` after `b`.
pub open spec fn after(a: Term, b: Term) -> bool {
    order(a, b) == Some(Ordering::Greater)
}

/// Whether `order` places `a` after `b`.
fn goes_after(a: &Function, b: &Function) -> (r: bool)
    requires
        comparable(a@, b@),
    ensures
        r == after(a@, b@),
{
    match a.cmp(b) {
        Ordering::Greater => true,
        _ => false,
    }
}

/// `s` with `x` inserted as insertion sort inserts it: after every term
/// that `order` does not place after `x`.
pub open spec fn insert_in_order(s: Seq<Term>, x: Term) -> Seq<Term>
    decreases s.len(),
{
    if s.len() == 0 {
        seq![x]
    } else if after(s.last(), x) {
        insert_in_order(s.drop_last(), x).push(s.last())
    } else {
        s.push(x)
    }
}

/// The terms of `s` sorted by `order`, those that compare equal keeping
/// their order (a stable sort).
pub open spec fn sorted_terms(s: Seq<Term>) -> Seq<Term>
    decreases s.len(),
{
    if s.len() == 0 {
        s
    } else {
        insert_in_order(sorted_terms(s.drop_last()), s.last())
    }
}

/// Any two terms at different positions of `s` can be compared without a
/// panic.
pub open spec fn comparable_terms(s: Seq<Term>) -> bool {
    forall|i: int, j: int|
        0 <= i < s.len() && 0 <= j < s.len() && i != j ==> #[trigger] comparable(s[i], s[j])
}

proof fn lemma_insert_in_order_multiset(s: Seq<Term>, x: Term)
    ensures
        insert_in_order(s, x).to_multiset() == s.to_multiset().insert(x),
        insert_in_order(s, x).len() == s.len() + 1,
    decreases s.len(),
{
    broadcast use vstd::seq_lib::group_to_multiset_ensures;

    if s.len() == 0 {
        assert(seq![x] =~= s.push(x));
    } else if after(s.last(), x) {
        lemma_insert_in_order_multiset(s.drop_last(), x);
        assert(s.drop_last().push(s.last()) =~= s);
        assert(insert_in_order(s, x).to_multiset() =~= s.to_multiset().insert(x));
    }
}

/// Sorting keeps every term, as often as it occurs.
pub proof fn lemma_sorted_terms_multiset(s: Seq<Term>)
    ensures
        sorted_terms(s).to_multiset() == s.to_multiset(),
        sorted_terms(s).len() == s.len(),
    decreases s.len(),
{
    broadcast use vstd::seq_lib::group_to_multiset_ensures;

    if s.len() > 0 {
        lemma_sorted_terms_multiset(s.drop_last());
        lemma_insert_in_order_multiset(sorted_terms(s.drop_last()), s.last());
        assert(s.drop_last().push(s.last()) =~= s);
    }
}

/// Every term of the sorted sequence stands somewhere in the unsorted one.
pub proof fn lemma_sorted_terms_member(s: Seq<Term>, i: int) -> (j: int)
    requires
        0 <= i < s.len(),
    ensures
        0 <= j < s.len(),
        sorted_terms(s).len() == s.len(),
        s[j] == sorted_terms(s)[i],
        size(sorted_terms(s)[i]) <= size_of(s),
{
    broadcast use vstd::seq_lib::group_to_multiset_ensures;

    lemma_sorted_terms_multiset(s);
    let x = sorted_terms(s)[i];
    assert(sorted_terms(s).contains(x));
    assert(sorted_terms(s).to_multiset().count(x) > 0);
    assert(s.contains(x));
    let j = choose|j: int| 0 <= j < s.len() && s[j] == x;
    lemma_size_of_member(s, j);
    j
}

/// `order` places `a` before `b` or level with it.
pub open spec fn not_after(a: Term, b: Term) -> bool {
    order(a, b) == Some(Ordering::Less) || order(a, b) == Some(Ordering::Equal)
}

/// The terms of `s` stand in order: none after a term that follows it.
pub open spec fn in_order(s: Seq<Term>) -> bool {
    forall|i: int, j: int| 0 <= i < j < s.len() ==> #[trigger] not_after(s[i], s[j])
}

/// Inserting a term into terms in order keeps them in order, where the
/// term can be compared with each of them.
proof fn lemma_insert_in_order_sorted(s: Seq<Term>, x: Term)
    requires
        in_order(s),
        forall|k: int| 0 <= k < s.len() ==> #[trigger] comparable(s[k], x),
    ensures
        in_order(insert_in_order(s, x)),
    decreases s.len(),
{
    broadcast use vstd::seq_lib::group_to_multiset_ensures;

    if s.len() == 0 {
    } else if after(s.last(), x) {
        let t = s.drop_last();
        let y = s.last();
        lemma_insert_in_order_sorted(t, x);
        lemma_insert_in_order_multiset(t, x);
        let u = insert_in_order(t, x);
        lemma_order_reversed(y, x);
        assert forall|k: int| 0 <= k < u.len() implies not_after(u[k], y) by {
            assert(u.contains(u[k]));
            assert(u.to_multiset().count(u[k]) > 0);
            if u[k] != x {
                assert(t.to_multiset().count(u[k]) > 0);
                assert(t.contains(u[k]));
                let m = choose|m: int| 0 <= m < t.len() && t[m] == u[k];
                assert(not_after(s[m], s[s.len() - 1]));
            }
        }
        assert forall|i: int, j: int| 0 <= i < j < u.push(y).len() implies #[trigger] not_after(
            u.push(y)[i],
            u.push(y)[j],
        ) by {
            if j < u.len() {
                assert(not_after(u[i], u[j]));
            } else {
                assert(not_after(u[i], y));
            }
        }
    } else {
        let y = s.last();
        assert(comparable(y, x));
        assert forall|i: int, j: int| 0 <= i < j < s.push(x).len() implies #[trigger] not_after(
            s.push(x)[i],
            s.push(x)[j],
        ) by {
            if j == s.len() {
                if i < s.len() - 1 {
                    assert(not_after(s[i], s[s.len() - 1]));
                    lemma_order_transitive(s[i], y, x);
                }
            } else {
                assert(not_after(s[i], s[j]));
            }
        }
    }
}

/// Sorting puts terms that can all be compared in order.
pub proof fn lemma_sorted_terms_in_order(s: Seq<Term>)
    requires
        comparable_terms(s),
    ensures
        in_order(sorted_terms(s)),
    decreases s.len(),
{
    if s.len() > 0 {
        let t = s.drop_last();
        assert(comparable_terms(t)) by {
            assert forall|i: int, j: int|
                0 <= i < t.len() && 0 <= j < t.len() && i != j implies #[trigger] comparable(
                t[i],
                t[j],
            ) by {
                assert(comparable(s[i], s[j]));
            }
        }
        lemma_sorted_terms_in_order(t);
        let u = sorted_terms(t);
        lemma_sorted_terms_multiset(t);
        assert forall|k: int| 0 <= k < u.len() implies #[trigger] comparable(u[k], s.last()) by {
            let j = lemma_sorted_terms_member(t, k);
            assert(comparable(s[j], s[s.len() - 1]));
        }
        lemma_insert_in_order_sorted(u, s.last());
    }
}

/// Two sequences in order with the same terms are the same, where any two
/// different terms among them can be compared and only equal terms compare
/// level.
pub proof fn lemma_in_order_unique(p: Seq<Term>, q: Seq<Term>)
    requires
        in_order(p),
        in_order(q),
        p.to_multiset() == q.to_multiset(),
        forall|x: Term, y: Term|
            p.contains(x) && p.contains(y) && x != y ==> #[trigger] comparable(x, y),
        forall|x: Term, y: Term|
            p.contains(x) && p.contains(y) && #[trigger] order(x, y) == Some(Ordering::Equal)
                ==> x == y,
    ensures
        p == q,
    decreases p.len(),
{
    broadcast use vstd::seq_lib::group_to_multiset_ensures;

    if p.len() == 0 {
        assert(q.to_multiset().len() == 0);
        assert(q =~= p);
    } else {
        assert(q.to_multiset().len() == p.len());
        let x = p[0];
        let y = q[0];
        assert(p.contains(x));
        assert(q.contains(y));
        assert(p.to_multiset().count(y) > 0);
        assert(p.contains(y));
        if x != y {
            assert(q.to_multiset().count(x) > 0);
            let k = choose|k: int| 0 <= k < q.len() && q[k] == x;
            let l = choose|l: int| 0 <= l < p.len() && p[l] == y;
            assert(k != 0);
            assert(l != 0);
            assert(not_after(q[0], q[k]));
            assert(not_after(p[0], p[l]));
            lemma_order_reversed(x, y);
            assert(comparable(x, y));
            assert(order(x, y) == Some(Ordering::Equal));
        }
        let p1 = p.drop_first();
        let q1 = q.drop_first();
        assert(p =~= seq![x] + p1);
        assert(q =~= seq![x] + q1);
        assert(p1.to_multiset() =~= p.to_multiset().remove(x)) by {
            assert(p1.to_multiset() == (seq![x] + p1).to_multiset().remove(x)) by {
                vstd::seq_lib::lemma_multiset_commutative(seq![x], p1);
                assert((seq![x] + p1).to_multiset() == seq![x].to_multiset().add(p1.to_multiset()));
                assert(seq![x].to_multiset() =~= vstd::multiset::Multiset::singleton(x)) by {
                    assert(seq![x] =~= Seq::<Term>::empty().push(x));
                }
            }
        }
        assert(q1.to_multiset() =~= q.to_multiset().remove(x)) by {
            assert(q1.to_multiset() == (seq![x] + q1).to_multiset().remove(x)) by {
                vstd::seq_lib::lemma_multiset_commutative(seq![x], q1);
                assert((seq![x] + q1).to_multiset() == seq![x].to_multiset().add(q1.to_multiset()));
                assert(seq![x].to_multiset() =~= vstd::multiset::Multiset::singleton(x)) by {
                    assert(seq![x] =~= Seq::<Term>::empty().push(x));
                }
            }
        }
        assert(in_order(p1)) by {
            assert forall|i: int, j: int| 0 <= i < j < p1.len() implies #[trigger] not_after(
                p1[i],
                p1[j],
            ) by {
                assert(not_after(p[i + 1], p[j + 1]));
            }
        }
        assert(in_order(q1)) by {
            assert forall|i: int, j: int| 0 <= i < j < q1.len() implies #[trigger] not_after(
                q1[i],
                q1[j],
            ) by {
                assert(not_after(q[i + 1], q[j + 1]));
            }
        }
        assert forall|a: Term| p1.contains(a) implies p.contains(a) by {
            let i = choose|i: int| 0 <= i < p1.len() && p1[i] == a;
            assert(p[i + 1] == a);
        }
        lemma_in_order_unique(p1, q1);
    }
}

/// Inserts `x` into `sorted` as `insert_in_order` does.
fn insert_into_sorted<'f>(sorted: &mut Vec<Arc<Function<'f>>>, x: Arc<Function<'f>>)
    requires
        forall|k: int|
            0 <= k < old(sorted)@.len() ==> #[trigger] comparable(
                terms_of(old(sorted)@)[k],
                x@,
            ),
    ensures
        terms_of(final(sorted)@) == insert_in_order(terms_of(old(sorted)@), x@),
{
    let ghost s = sorted@;
    let ghost t = terms_of(s);
    let ghost tx = x@;
    let mut j = sorted.len();
    let mut found = false;
    proof {
        assert(t.take(j as int) =~= t);
        assert(t.skip(j as int) =~= Seq::<Term>::empty());
    }
    while j > 0 && !found
        invariant
            j <= s.len(),
            sorted@ == s,
            t == terms_of(s),
            tx == x@,
            forall|k: int| 0 <= k < s.len() ==> #[trigger] comparable(t[k], tx),
            insert_in_order(t, tx) == insert_in_order(t.take(j as int), tx) + t.skip(j as int),
            found ==> j > 0 && !after(t[j - 1], tx),
        decreases j + (if found {
            0int
        } else {
            1int
        }),
    {
        proof {
            assert(comparable(t[j - 1], tx));
        }
        if goes_after(&*sorted[j - 1], &*x) {
            proof {
                let u = t.take(j as int);
                assert(u.drop_last() =~= t.take(j - 1));
                assert(u.last() == t[j - 1]);
                assert(insert_in_order(u, tx) == insert_in_order(t.take(j - 1), tx).push(t[j - 1]));
                assert(t.skip(j - 1) =~= seq![t[j - 1]] + t.skip(j as int));
                assert(insert_in_order(t.take(j - 1), tx).push(t[j - 1]) + t.skip(j as int)
                    =~= insert_in_order(t.take(j - 1), tx) + t.skip(j - 1));
            }
            j = j - 1;
        } else {
            found = true;
        }
    }
    proof {
        let u = t.take(j as int);
        if j == 0 {
            assert(u =~= Seq::<Term>::empty());
            assert(insert_in_order(u, tx) == seq![tx]);
            assert(seq![tx] + t.skip(0) =~= t.insert(0, tx));
        } else {
            assert(u.last() == t[j - 1]);
            assert(insert_in_order(u, tx) == u.push(tx));
            assert(u.push(tx) + t.skip(j as int) =~= t.insert(j as int, tx));
        }
        assert(terms_of(s.insert(j as int, x)) =~= t.insert(j as int, tx));
    }
    sorted.insert(j, x);
}

/// A copy of `v` sorted by `order` (stably), as `sort` on a clone of `v`
/// produces it.
pub(crate) fn sort_terms<'f>(v: &Vec<Arc<Function<'f>>>) -> (r: Vec<Arc<Function<'f>>>)
    requires
        comparable_terms(terms_of(v@)),
    ensures
        terms_of(r@) == sorted_terms(terms_of(v@)),
{
    let ghost t = terms_of(v@);
    let mut r: Vec<Arc<Function<'f>>> = Vec::new();
    let mut i: usize = 0;
    proof {
        assert(terms_of(r@) =~= sorted_terms(t.take(0)));
    }
    while i < v.len()
        invariant
            i <= v@.len(),
            t == terms_of(v@),
            comparable_terms(t),
            terms_of(r@) == sorted_terms(t.take(i as int)),
        decreases v@.len() - i,
    {
        let x = crate::function::function::clone_arc(&v[i]);
        proof {
            let u = t.take(i as int);
            assert forall|k: int| 0 <= k < r@.len() implies #[trigger] comparable(
                terms_of(r@)[k],
                x@,
            ) by {
                lemma_sorted_terms_multiset(u);
                let j = lemma_sorted_terms_member(u, k);
                assert(comparable(t[j], t[i as int]));
            }
            assert(t.take(i + 1).drop_last() =~= u);
            assert(t.take(i + 1).last() == x@);
        }
        insert_into_sorted(&mut r, x);
        i = i + 1;
    }
    proof {
        assert(t.take(v@.len() as int) =~= t);
    }
    r
}

} // verus!
