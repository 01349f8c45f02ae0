//! Simplification through a table of filed terms.
//!
//! Every simplified term is filed under the node it is a term of (its
//! parent, told apart by its allocation) and under a type saying which
//! terms it can be combined with.  A term meeting one filed under the same
//! parent and type is combined with it in place; the terms a node files
//! first make up its simplified form.
//!
//! The arithmetic on doubles is handed in by the caller, as is the decimal
//! form of a power (the byte form of `Decimal::from_f64_retain`).
use std::sync::Arc;
use rust_decimal::Decimal;
use vstd::prelude::*;
use vstd::arithmetic::power::pow;
use crate::function::equality::{
    arc_eq, eq_by, eq_defined, lemma_eq_reflexive, loosely_equal, same_allocation, self_equal,
};
use crate::function::freeze::{fingerprint, freeze};
use crate::function::function::{
    clone_arc, clone_terms, lemma_size_of_member, lemma_terms_of_vec, size, size_of, terms_of, Function,
    Term,
};
use crate::function::simplify_nohash::{later_decisions, next_decision, scaled, ONE};
use crate::ieee::{bits_eq, float_eq, is_nan};

verus! {

/// An arithmetic operation on doubles.
#[derive(Clone, Copy, Debug)]
pub enum Op {
    Plus,
    Minus,
    Times,
    Divide,
}

/// The type a simplified term is filed as.  `SAdd` holds the fingerprint
/// of a scaled term's function and the byte form of its power as a
/// decimal; `SMul` the fingerprint alone.
#[derive(Clone, Copy, Debug)]
pub enum FunctionType {
    Parent,
    Constant,
    SAdd(u64, [u8; 16]),
    SMul(u64),
    Add,
    Mul,
    Other,
}

/// The scale of the decimal with the byte form `b`.
pub open spec fn decimal_scale(b: Seq<u8>) -> int {
    (b[2] & 0x1fu8) as int
}

/// The 96-bit mantissa of the decimal with the byte form `b`.
pub open spec fn decimal_mantissa(b: Seq<u8>) -> int {
    b[4] + 0x100 * (b[5] + 0x100 * (b[6] + 0x100 * (b[7] + 0x100 * (b[8] + 0x100 * (b[9]
        + 0x100 * (b[10] + 0x100 * (b[11] + 0x100 * (b[12] + 0x100 * (b[13] + 0x100 * (b[14]
        + 0x100 * b[15]))))))))))
}

/// The number the byte form `b` stands for, times `10^28`, where its scale
/// is at most 28.
pub open spec fn decimal_value(b: Seq<u8>) -> int {
    let magnitude = decimal_mantissa(b) * pow(10, (28 - decimal_scale(b)) as nat);
    if b[3] >= 0x80u8 {
        -magnitude
    } else {
        magnitude
    }
}

/// Calls `Decimal::deserialize` on both byte forms and compares the two
/// decimals with `==`.
/// Claimed: for byte forms of scale at most 28 (those of every decimal),
/// `==` holds exactly when the two numbers are equal, zero being equal to
/// negative zero.
#[verifier::external_body]
fn decimal_eq(a: &[u8; 16], b: &[u8; 16]) -> (r: bool)
    requires
        decimal_scale(a@) <= 28,
        decimal_scale(b@) <= 28,
    ensures
        r == (decimal_value(a@) == decimal_value(b@)),
{
    Decimal::deserialize(*a) == Decimal::deserialize(*b)
}

/// A type whose decimal, if it has one, has a scale of at most 28.
pub open spec fn valid_type(k: FunctionType) -> bool {
    match k {
        FunctionType::SAdd(_, d) => decimal_scale(d@) <= 28,
        _ => true,
    }
}

/// `==` on types: the same variant, with equal fingerprints and equal
/// decimals.
pub open spec fn same_type(a: FunctionType, b: FunctionType) -> bool {
    match (a, b) {
        (FunctionType::Parent, FunctionType::Parent) => true,
        (FunctionType::Constant, FunctionType::Constant) => true,
        (FunctionType::SAdd(x, d), FunctionType::SAdd(y, e)) => x == y && decimal_value(d@)
            == decimal_value(e@),
        (FunctionType::SMul(x), FunctionType::SMul(y)) => x == y,
        (FunctionType::Add, FunctionType::Add) => true,
        (FunctionType::Mul, FunctionType::Mul) => true,
        (FunctionType::Other, FunctionType::Other) => true,
        _ => false,
    }
}

/// `==` on two types.
fn types_equal(a: &FunctionType, b: &FunctionType) -> (r: bool)
    requires
        valid_type(*a),
        valid_type(*b),
    ensures
        r == same_type(*a, *b),
{
    match (a, b) {
        (FunctionType::Parent, FunctionType::Parent) => true,
        (FunctionType::Constant, FunctionType::Constant) => true,
        (FunctionType::SAdd(x, d), FunctionType::SAdd(y, e)) => *x == *y && decimal_eq(d, e),
        (FunctionType::SMul(x), FunctionType::SMul(y)) => *x == *y,
        (FunctionType::Add, FunctionType::Add) => true,
        (FunctionType::Mul, FunctionType::Mul) => true,
        (FunctionType::Other, FunctionType::Other) => true,
        _ => false,
    }
}

/// A slot of the table: the parent a term is filed under, the type it is
/// filed as, and the term.
#[derive(Debug)]
pub struct Slot<'f> {
    pub parent: Arc<Function<'f>>,
    pub kind: FunctionType,
    pub value: Function<'f>,
}

/// The slots of a table as terms.
pub open spec fn slot_views(t: Seq<Slot>) -> Seq<(Term, FunctionType, Term)> {
    Seq::new(t.len(), |i: int| (t[i].parent@, t[i].kind, t[i].value@))
}

/// Every slot of the table has a valid type.
pub open spec fn valid_slots(t: Seq<Slot>) -> bool {
    forall|i: int| 0 <= i < t.len() ==> valid_type(#[trigger] t[i].kind)
}

/// The first slot at a position from `j` up to `end`, filed under
/// `parent` as a type equal to `k`.  Each slot looked at takes one
/// decision: whether its parent is the very allocation of `parent` (which
/// it can only be when they are the same term).
pub open spec fn find_slot(
    tab: Seq<(Term, FunctionType, Term)>,
    j: int,
    end: int,
    parent: Term,
    k: FunctionType,
    ds: Seq<bool>,
) -> (Option<int>, Seq<bool>)
    decreases end - j,
{
    if j < 0 || j >= end || j >= tab.len() {
        (None, ds)
    } else if next_decision(ds) && tab[j].0 == parent && same_type(tab[j].1, k) {
        (Some(j), later_decisions(ds))
    } else {
        find_slot(tab, j + 1, end, parent, k, later_decisions(ds))
    }
}

/// The first of the slots `own[i..]` filed as a type equal to `k`.
pub open spec fn find_own(tab: Seq<(Term, FunctionType, Term)>, own: Seq<int>, i: int, k: FunctionType) -> Option<
    int,
>
    decreases own.len() - i,
{
    if i < 0 || i >= own.len() {
        None
    } else if same_type(tab[own[i]].1, k) {
        Some(own[i])
    } else {
        find_own(tab, own, i + 1, k)
    }
}

/// The slot filed under the node `parent` as a type equal to `k`.  The
/// slots `own` that the node filed itself are its own for certain, and are
/// looked at first, with no decision.  Otherwise the slots before `start`,
/// filed before the node's turn, are looked at as `find_slot` says: one of
/// them is the node's only where the node is shared and was simplified
/// before.
pub open spec fn find_filed(
    tab: Seq<(Term, FunctionType, Term)>,
    own: Seq<int>,
    start: int,
    parent: Term,
    k: FunctionType,
    ds: Seq<bool>,
) -> (Option<int>, Seq<bool>) {
    match find_own(tab, own, 0, k) {
        Some(j) => (Some(j), ds),
        None => find_slot(tab, 0, start, parent, k, ds),
    }
}

/// Looks up the slot filed under `parent` as a type equal to `k`, as
/// `find_filed` says; returns the decisions its tests took.
fn lookup<'f>(
    table: &Vec<Slot<'f>>,
    own: &Vec<usize>,
    start: usize,
    parent: &Arc<Function<'f>>,
    k: &FunctionType,
) -> (res: (Option<usize>, Ghost<Seq<bool>>))
    requires
        valid_slots(table@),
        valid_type(*k),
        in_table(own@, table@.len()),
        start <= table@.len(),
    ensures
        forall|ds: Seq<bool>| #[trigger]
            find_filed(slot_views(table@), positions(own@), start as int, parent@, *k, res.1@ + ds)
                == (
                match res.0 {
                    Some(j) => Some(j as int),
                    None => None,
                },
                ds,
            ),
        match res.0 {
            Some(j) => j < table@.len(),
            None => true,
        },
{
    let ghost tab = slot_views(table@);
    let ghost o = positions(own@);
    let ghost none: Seq<bool> = Seq::empty();
    proof {
        assert forall|ds: Seq<bool>| #[trigger] (none + ds) == ds by {
            assert(none + ds =~= ds);
        }
    }
    let mut i: usize = 0;
    while i < own.len()
        invariant
            i <= own@.len(),
            tab == slot_views(table@),
            o == positions(own@),
            valid_slots(table@),
            valid_type(*k),
            in_table(own@, table@.len()),
            find_own(tab, o, 0, *k) == find_own(tab, o, i as int, *k),
            forall|ds: Seq<bool>| #[trigger] (none + ds) == ds,
        decreases own@.len() - i,
    {
        let j = own[i];
        proof {
            assert(j < table@.len());
            assert(valid_type(table@[j as int].kind));
            assert(tab[o[i as int]] == (table@[j as int].parent@, table@[j as int].kind, table@[j as int].value@));
        }
        if types_equal(&table[j].kind, k) {
            proof {
                assert(find_own(tab, o, i as int, *k) == Some(j as int));
            }
            return (Some(j), Ghost(none));
        }
        i = i + 1;
    }
    let ghost mut dec: Seq<bool> = Seq::empty();
    let mut j: usize = 0;
    proof {
        assert(find_own(tab, o, 0, *k) is None);
        assert forall|ds: Seq<bool>| #[trigger] find_slot(tab, 0, start as int, parent@, *k, dec + ds)
            == find_slot(tab, j as int, start as int, parent@, *k, ds) by {
            assert(dec + ds =~= ds);
        }
    }
    while j < start
        invariant
            j <= start <= table@.len(),
            tab == slot_views(table@),
            o == positions(own@),
            find_own(tab, o, 0, *k) is None,
            valid_slots(table@),
            valid_type(*k),
            forall|ds: Seq<bool>| #[trigger]
                find_slot(tab, 0, start as int, parent@, *k, dec + ds) == find_slot(
                    tab,
                    j as int,
                    start as int,
                    parent@,
                    *k,
                    ds,
                ),
        decreases start - j,
    {
        let same = same_allocation(&table[j].parent, parent);
        let hit = same && types_equal(&table[j].kind, k);
        proof {
            assert(tab[j as int] == (table@[j as int].parent@, table@[j as int].kind, table@[j as int].value@));
            assert(valid_type(table@[j as int].kind));
            lemma_decision_front(same);
            assert forall|ds: Seq<bool>| #[trigger]
                find_slot(tab, 0, start as int, parent@, *k, dec.push(same) + ds) == find_slot(
                    tab,
                    j as int,
                    start as int,
                    parent@,
                    *k,
                    seq![same] + ds,
                ) by {
                assert(dec.push(same) + ds =~= dec + (seq![same] + ds));
            }
            dec = dec.push(same);
        }
        if hit {
            return (Some(j), Ghost(dec));
        }
        j = j + 1;
    }
    (None, Ghost(dec))
}

/// The arithmetic handed in by a caller is a function: it can be called on
/// any operation and pair of bit patterns, and gives one result for each.
pub open spec fn is_arithmetic<A: Fn(Op, u64, u64) -> u64>(arith: A) -> bool {
    &&& forall|o: Op, a: u64, b: u64| #[trigger] arith.requires((o, a, b))
    &&& forall|o: Op, a: u64, b: u64, r1: u64, r2: u64|
        #[trigger] arith.ensures((o, a, b), r1) && #[trigger] arith.ensures((o, a, b), r2) ==> r1
            == r2
}

/// The results of the arithmetic handed in by a caller.
pub open spec fn arithmetic<A: Fn(Op, u64, u64) -> u64>(arith: A) -> spec_fn(Op, u64, u64) -> u64 {
    |o: Op, a: u64, b: u64| choose|r: u64| arith.ensures((o, a, b), r)
}

/// The decimal forms handed in by a caller are a function, giving for each
/// power either nothing or the byte form of a decimal (of scale at most 28).
pub open spec fn is_power_key<K: Fn(u64) -> Option<[u8; 16]>>(key: K) -> bool {
    &&& forall|p: u64| #[trigger] key.requires((p,))
    &&& forall|p: u64, r1: Option<[u8; 16]>, r2: Option<[u8; 16]>|
        #[trigger] key.ensures((p,), r1) && #[trigger] key.ensures((p,), r2) ==> r1 == r2
    &&& forall|p: u64, r: Option<[u8; 16]>|
        #[trigger] key.ensures((p,), r) && r is Some ==> decimal_scale(r->0@) <= 28
}

/// The decimal forms handed in by a caller.
pub open spec fn power_keys<K: Fn(u64) -> Option<[u8; 16]>>(key: K) -> spec_fn(u64) -> Option<[u8; 16]> {
    |p: u64| choose|r: Option<[u8; 16]>| key.ensures((p,), r)
}

/// The bit pattern of the double `-1.0`.
pub const NEG_ONE: u64 = 0xbff0_0000_0000_0000u64;

/// The bit pattern of the double `0.0`.
pub const ZERO: u64 = 0u64;

/// The negation of a double: its sign bit flipped.
pub open spec fn negated(x: u64) -> u64 {
    x ^ 0x8000_0000_0000_0000u64
}

/// The slots of a table as terms: parent, type, filed term.
pub type Filed = Seq<(Term, FunctionType, Term)>;

/// The type a simplified term of a sum (or of a quotient) is filed as;
/// `None` where a power has no decimal form.
pub open spec fn sum_type(c: Term, key: spec_fn(u64) -> Option<[u8; 16]>) -> Option<FunctionType> {
    match c {
        Term::Constant(_) => Some(FunctionType::Constant),
        Term::S { f, p, .. } => match key(p) {
            Some(d) => Some(FunctionType::SAdd(fingerprint(*f), d)),
            None => None,
        },
        _ => Some(FunctionType::Other),
    }
}

/// The type a term of a difference is filed as: as in a sum, except that
/// every scaled sum or difference shares the fingerprint of the empty sum.
pub open spec fn difference_type(c: Term, key: spec_fn(u64) -> Option<[u8; 16]>) -> Option<
    FunctionType,
> {
    match c {
        Term::Constant(_) => Some(FunctionType::Constant),
        Term::S { f, p, .. } => match key(p) {
            Some(d) => Some(
                FunctionType::SAdd(
                    if (*f is Add) || (*f is Sub) {
                        fingerprint(Term::Add(Seq::empty()))
                    } else {
                        fingerprint(*f)
                    },
                    d,
                ),
            ),
            None => None,
        },
        _ => Some(FunctionType::Other),
    }
}

/// The type a simplified factor of a product is filed as.
pub open spec fn product_type(c: Term) -> FunctionType {
    match c {
        Term::Constant(_) => FunctionType::Constant,
        Term::S { f, .. } => FunctionType::SMul(fingerprint(*f)),
        _ => FunctionType::Other,
    }
}

/// Adding the term `c` of a sum into the term `e` filed under the same
/// type: constants are added; scaled terms are added, or cancel to `0` when
/// the multipliers are opposite.  `None` where the two do not fit.
pub open spec fn sum_merge(e: Term, c: Term, ar: spec_fn(Op, u64, u64) -> u64) -> Option<Term> {
    match (e, c) {
        (Term::Constant(v), Term::Constant(w)) => Some(Term::Constant(ar(Op::Plus, v, w))),
        (Term::S { m: em, .. }, Term::S { f, m, p }) => if float_eq(em, negated(m)) {
            Some(Term::Constant(ZERO))
        } else {
            Some(Term::S { f, m: ar(Op::Plus, em, m), p })
        },
        _ => None,
    }
}

/// Subtracting the term `c` of a difference's second sum from the term `e`
/// filed under the same type: to `0` when the multipliers are equal.
pub open spec fn difference_merge(e: Term, c: Term, ar: spec_fn(Op, u64, u64) -> u64) -> Option<
    Term,
> {
    match (e, c) {
        (Term::Constant(v), Term::Constant(w)) => Some(Term::Constant(ar(Op::Minus, v, w))),
        (Term::S { m: em, .. }, Term::S { f, m, p }) => if float_eq(em, m) {
            Some(Term::Constant(ZERO))
        } else {
            Some(Term::S { f, m: ar(Op::Minus, em, m), p })
        },
        _ => None,
    }
}

/// Subtracting the term `c`, taken with the sign `sign`, from the term `e`
/// filed under the same type.
pub open spec fn signed_merge(e: Term, c: Term, sign: u64, ar: spec_fn(Op, u64, u64) -> u64) -> Option<
    Term,
> {
    match (e, c) {
        (Term::Constant(v), Term::Constant(w)) => Some(
            Term::Constant(ar(Op::Minus, v, ar(Op::Times, w, sign))),
        ),
        (Term::S { m: em, .. }, Term::S { f, m, p }) => if float_eq(em, m) {
            Some(Term::Constant(ZERO))
        } else {
            Some(Term::S { f, m: ar(Op::Minus, em, ar(Op::Times, m, sign)), p })
        },
        _ => None,
    }
}

/// The term `c` of a difference taken with the sign `sign`, where nothing
/// is filed under its type yet.
pub open spec fn signed(c: Term, sign: u64, ar: spec_fn(Op, u64, u64) -> u64) -> Option<Term> {
    match c {
        Term::Constant(v) => Some(Term::Constant(ar(Op::Times, v, sign))),
        Term::S { f, m, p } => Some(Term::S { f, m: ar(Op::Times, m, negated(sign)), p }),
        _ => None,
    }
}

/// What `==` on two `Arc`s reports when `d` says how it comes out where
/// the answer depends on shared allocations.
pub open spec fn arc_decided(x: Term, y: Term, d: bool) -> bool {
    eq_by(x, y, false) || (d && loosely_equal(x, y))
}

/// Multiplying the factor `c` into the factor `e` filed under the same
/// type: constants are multiplied; scaled terms whose functions compare
/// equal (one decision) and whose powers are equal have their multipliers
/// multiplied and their powers added, and otherwise `e` stays as it is.
/// `None` where the two do not fit or the comparison panics.
pub open spec fn product_merge(
    e: Term,
    c: Term,
    ar: spec_fn(Op, u64, u64) -> u64,
    ds: Seq<bool>,
) -> Option<(Term, Seq<bool>)> {
    match (e, c) {
        (Term::Constant(v), Term::Constant(w)) => Some((Term::Constant(ar(Op::Times, v, w)), ds)),
        (Term::S { f: g, m: em, p: ep }, Term::S { f, m, p }) => if !eq_defined(*g, *f) {
            None
        } else if arc_decided(*g, *f, next_decision(ds)) && float_eq(ep, p) {
            Some(
                (
                    Term::S { f, m: ar(Op::Times, em, m), p: ar(Op::Plus, ep, p) },
                    later_decisions(ds),
                ),
            )
        } else {
            Some((e, later_decisions(ds)))
        },
        _ => None,
    }
}

/// The terms in the slots `idx`, in order.
pub open spec fn filed(tab: Filed, idx: Seq<int>) -> Seq<Term> {
    Seq::new(idx.len(), |k: int| tab[idx[k]].2)
}

/// The scaled sum `1 * (...)^1` of the terms in the slots `idx`.
pub open spec fn as_sum(tab: Filed, idx: Seq<int>) -> Term {
    Term::S { f: Box::new(Term::Add(filed(tab, idx))), m: ONE, p: ONE }
}

/// The scaled product `1 * (...)^1` of the factors in the slots `idx`.
pub open spec fn as_product(tab: Filed, idx: Seq<int>) -> Term {
    Term::S { f: Box::new(Term::Mul(filed(tab, idx))), m: ONE, p: ONE }
}

/// The simplification of `t` with the table `tab` and the decisions `ds`:
/// the result, the table after it and the decisions left; `None` where it
/// panics.
pub open spec fn hashed(
    t: Term,
    tab: Filed,
    ar: spec_fn(Op, u64, u64) -> u64,
    key: spec_fn(u64) -> Option<[u8; 16]>,
    ds: Seq<bool>,
) -> Option<(Term, Filed, Seq<bool>)>
    decreases size(t), 0int,
{
    match t {
        Term::Variable(_) => Some((Term::S { f: Box::new(t), m: ONE, p: ONE }, tab, ds)),
        Term::Constant(_) => Some((t, tab, ds)),
        Term::S { .. } => Some((t, tab, ds)),
        Term::Add(s) => match sum_from(s, 0, t, tab, tab.len() as int, Seq::empty(), ar, key, ds) {
            Some((tab1, idx, ds1)) => Some((as_sum(tab1, idx), tab1, ds1)),
            None => None,
        },
        Term::Mul(s) => match product_from(s, 0, t, tab, tab.len() as int, Seq::empty(), ar, key, ds) {
            Some((tab1, idx, ds1)) => Some((as_product(tab1, idx), tab1, ds1)),
            None => None,
        },
        Term::Sub { lhs, rhs } => match hashed(*lhs, tab, ar, key, ds) {
            Some((l, tab1, ds1)) => match hashed(*rhs, tab1, ar, key, ds1) {
                Some((r, tab2, ds2)) => difference(t, l, r, tab2, ar, key, ds2),
                None => None,
            },
            None => None,
        },
        Term::Div { num, den } => match hashed(*num, tab, ar, key, ds) {
            Some((n, tab1, ds1)) => match hashed(*den, tab1, ar, key, ds1) {
                Some((d, tab2, ds2)) => match quotient(n, d, ar, key) {
                    Some(q) => Some((q, tab2, ds2)),
                    None => None,
                },
                None => None,
            },
            None => None,
        },
    }
}

/// Simplifying the terms `s[i..]` of the sum `parent` and filing each: a
/// term meeting one filed under `parent` as an equal type (`find_filed`,
/// with the slots `idx` the sum filed itself, and `start` the size of the
/// table when the sum's turn began) is added into it (`sum_merge`); any
/// other takes a new slot, recorded in `idx`.
pub open spec fn sum_from(
    s: Seq<Term>,
    i: int,
    parent: Term,
    tab: Filed,
    start: int,
    idx: Seq<int>,
    ar: spec_fn(Op, u64, u64) -> u64,
    key: spec_fn(u64) -> Option<[u8; 16]>,
    ds: Seq<bool>,
) -> Option<(Filed, Seq<int>, Seq<bool>)>
    decreases size_of(s), s.len() - i + 1,
{
    if i < 0 || i >= s.len() {
        Some((tab, idx, ds))
    } else {
        proof {
            lemma_size_of_member(s, i);
        }
        match hashed(s[i], tab, ar, key, ds) {
            Some((c, tab1, ds1)) => match sum_type(c, key) {
                Some(k) => {
                    let (found, ds2) = find_filed(tab1, idx, start, parent, k, ds1);
                    match found {
                        Some(j) => match sum_merge(tab1[j].2, c, ar) {
                            Some(v) => sum_from(
                                s,
                                i + 1,
                                parent,
                                tab1.update(j, (tab1[j].0, tab1[j].1, v)),
                                start,
                                idx,
                                ar,
                                key,
                                ds2,
                            ),
                            None => None,
                        },
                        None => sum_from(
                            s,
                            i + 1,
                            parent,
                            tab1.push((parent, k, c)),
                            start,
                            idx.push(tab1.len() as int),
                            ar,
                            key,
                            ds2,
                        ),
                    }
                },
                None => None,
            },
            None => None,
        }
    }
}

/// Simplifying the factors `s[i..]` of the product `parent` and filing
/// each: a factor meeting one filed under `parent` as an equal type
/// (`find_filed`) is multiplied into it (`product_merge`), any other takes
/// a new slot.
pub open spec fn product_from(
    s: Seq<Term>,
    i: int,
    parent: Term,
    tab: Filed,
    start: int,
    idx: Seq<int>,
    ar: spec_fn(Op, u64, u64) -> u64,
    key: spec_fn(u64) -> Option<[u8; 16]>,
    ds: Seq<bool>,
) -> Option<(Filed, Seq<int>, Seq<bool>)>
    decreases size_of(s), s.len() - i + 1,
{
    if i < 0 || i >= s.len() {
        Some((tab, idx, ds))
    } else {
        proof {
            lemma_size_of_member(s, i);
        }
        match hashed(s[i], tab, ar, key, ds) {
            Some((c, tab1, ds1)) => {
                let k = product_type(c);
                let (found, ds2) = find_filed(tab1, idx, start, parent, k, ds1);
                match found {
                    Some(j) => match product_merge(tab1[j].2, c, ar, ds2) {
                        Some((v, ds3)) => product_from(
                            s,
                            i + 1,
                            parent,
                            tab1.update(j, (tab1[j].0, tab1[j].1, v)),
                            start,
                            idx,
                            ar,
                            key,
                            ds3,
                        ),
                        None => None,
                    },
                    None => product_from(
                        s,
                        i + 1,
                        parent,
                        tab1.push((parent, k, c)),
                        start,
                        idx.push(tab1.len() as int),
                        ar,
                        key,
                        ds2,
                    ),
                }
            },
            None => None,
        }
    }
}

/// Filing the terms `s[i..]` of a difference's first sum under `parent`:
/// each replaces the term filed under `parent` as an equal type
/// (`find_filed`, with the slots `own` the difference filed itself), or
/// takes a new slot, added to `own`; `idx` records the slot of each.
pub open spec fn file_from(
    s: Seq<Term>,
    i: int,
    parent: Term,
    tab: Filed,
    start: int,
    idx: Seq<int>,
    own: Seq<int>,
    key: spec_fn(u64) -> Option<[u8; 16]>,
    ds: Seq<bool>,
) -> Option<(Filed, Seq<int>, Seq<int>, Seq<bool>)>
    decreases s.len() - i,
{
    if i < 0 || i >= s.len() {
        Some((tab, idx, own, ds))
    } else {
        match difference_type(s[i], key) {
            Some(k) => {
                let (found, ds1) = find_filed(tab, own, start, parent, k, ds);
                match found {
                    Some(j) => file_from(
                        s,
                        i + 1,
                        parent,
                        tab.update(j, (tab[j].0, tab[j].1, s[i])),
                        start,
                        idx.push(j),
                        own,
                        key,
                        ds1,
                    ),
                    None => file_from(
                        s,
                        i + 1,
                        parent,
                        tab.push((parent, k, s[i])),
                        start,
                        idx.push(tab.len() as int),
                        own.push(tab.len() as int),
                        key,
                        ds1,
                    ),
                }
            },
            None => None,
        }
    }
}

/// Filing the terms `s[i..]` of a difference's second sum under `parent`:
/// each is subtracted from the term filed as an equal type
/// (`difference_merge`), or takes a new slot as it is.
pub open spec fn subtract_from(
    s: Seq<Term>,
    i: int,
    parent: Term,
    tab: Filed,
    start: int,
    idx: Seq<int>,
    own: Seq<int>,
    ar: spec_fn(Op, u64, u64) -> u64,
    key: spec_fn(u64) -> Option<[u8; 16]>,
    ds: Seq<bool>,
) -> Option<(Filed, Seq<int>, Seq<int>, Seq<bool>)>
    decreases s.len() - i,
{
    if i < 0 || i >= s.len() {
        Some((tab, idx, own, ds))
    } else {
        match difference_type(s[i], key) {
            Some(k) => {
                let (found, ds1) = find_filed(tab, own, start, parent, k, ds);
                match found {
                    Some(j) => match difference_merge(tab[j].2, s[i], ar) {
                        Some(v) => subtract_from(
                            s,
                            i + 1,
                            parent,
                            tab.update(j, (tab[j].0, tab[j].1, v)),
                            start,
                            idx,
                            own,
                            ar,
                            key,
                            ds1,
                        ),
                        None => None,
                    },
                    None => subtract_from(
                        s,
                        i + 1,
                        parent,
                        tab.push((parent, k, s[i])),
                        start,
                        idx.push(tab.len() as int),
                        own.push(tab.len() as int),
                        ar,
                        key,
                        ds1,
                    ),
                }
            },
            None => None,
        }
    }
}

/// Filing the term `c` of a difference, taken with the sign `sign`, under
/// `parent`: subtracted from the term filed as an equal type
/// (`signed_merge`), or given the sign and a new slot (`signed`).
pub open spec fn signed_step(
    c: Term,
    sign: u64,
    parent: Term,
    tab: Filed,
    start: int,
    idx: Seq<int>,
    own: Seq<int>,
    ar: spec_fn(Op, u64, u64) -> u64,
    key: spec_fn(u64) -> Option<[u8; 16]>,
    ds: Seq<bool>,
) -> Option<(Filed, Seq<int>, Seq<int>, Seq<bool>)> {
    match difference_type(c, key) {
        Some(k) => {
            let (found, ds1) = find_filed(tab, own, start, parent, k, ds);
            match found {
                Some(j) => match signed_merge(tab[j].2, c, sign, ar) {
                    Some(v) => Some((tab.update(j, (tab[j].0, tab[j].1, v)), idx, own, ds1)),
                    None => None,
                },
                None => match signed(c, sign, ar) {
                    Some(v) => Some(
                        (
                            tab.push((parent, k, v)),
                            idx.push(tab.len() as int),
                            own.push(tab.len() as int),
                            ds1,
                        ),
                    ),
                    None => None,
                },
            }
        },
        None => None,
    }
}

/// The difference of two scaled terms of one function: `0` when the
/// multipliers are equal, else the multipliers subtracted.
pub open spec fn scaled_difference(
    f: Term,
    lm: u64,
    rm: u64,
    lp: u64,
    ar: spec_fn(Op, u64, u64) -> u64,
) -> Term {
    if float_eq(lm, rm) {
        Term::Constant(ZERO)
    } else {
        Term::S { f: Box::new(f), m: ar(Op::Minus, lm, rm), p: lp }
    }
}

/// The simplification of the difference `parent` of the simplified terms
/// `l` and `r`.  Terms of unequal types stay a difference; two constants
/// are subtracted; a scaled sum minus another (unequal) scaled sum files
/// the terms of both under `parent`; a scaled sum minus a scaled difference
/// files the first sum and then the two terms of the difference with their
/// signs; other scaled terms have their multipliers subtracted.
pub open spec fn difference(
    parent: Term,
    l: Term,
    r: Term,
    tab: Filed,
    ar: spec_fn(Op, u64, u64) -> u64,
    key: spec_fn(u64) -> Option<[u8; 16]>,
    ds: Seq<bool>,
) -> Option<(Term, Filed, Seq<bool>)> {
    let start = tab.len() as int;
    let none = Seq::<int>::empty();
    match (difference_type(l, key), difference_type(r, key)) {
        (Some(lt), Some(rt)) => if same_type(lt, rt) {
            match (l, r) {
                (Term::Constant(a), Term::Constant(b)) => Some(
                    (Term::Constant(ar(Op::Minus, a, b)), tab, ds),
                ),
                (Term::S { f: lf, m: lm, p: lp }, Term::S { f: rf, m: rm, .. }) => match (*lf, *rf) {
                    (Term::Add(lv), Term::Add(rv)) => if !eq_defined(*lf, *rf) {
                        None
                    } else if !arc_decided(*lf, *rf, next_decision(ds)) {
                        match file_from(lv, 0, parent, tab, start, none, none, key, later_decisions(ds)) {
                            Some((tab1, idx1, own1, ds1)) => match subtract_from(
                                rv,
                                0,
                                parent,
                                tab1,
                                start,
                                idx1,
                                own1,
                                ar,
                                key,
                                ds1,
                            ) {
                                Some((tab2, idx2, _, ds2)) => Some((as_sum(tab2, idx2), tab2, ds2)),
                                None => None,
                            },
                            None => None,
                        }
                    } else {
                        Some((scaled_difference(*lf, lm, rm, lp, ar), tab, later_decisions(ds)))
                    },
                    (Term::Add(lv), Term::Sub { lhs: a, rhs: b }) => match file_from(
                        lv,
                        0,
                        parent,
                        tab,
                        start,
                        none,
                        none,
                        key,
                        ds,
                    ) {
                        Some((tab1, idx1, own1, ds1)) => match signed_step(
                            *a,
                            ONE,
                            parent,
                            tab1,
                            start,
                            idx1,
                            own1,
                            ar,
                            key,
                            ds1,
                        ) {
                            Some((tab2, idx2, own2, ds2)) => match signed_step(
                                *b,
                                NEG_ONE,
                                parent,
                                tab2,
                                start,
                                idx2,
                                own2,
                                ar,
                                key,
                                ds2,
                            ) {
                                Some((tab3, idx3, _, ds3)) => Some((as_sum(tab3, idx3), tab3, ds3)),
                                None => None,
                            },
                            None => None,
                        },
                        None => None,
                    },
                    _ => Some((scaled_difference(*lf, lm, rm, lp, ar), tab, ds)),
                },
                _ => None,
            }
        } else {
            Some(
                (
                    Term::S {
                        f: Box::new(Term::Sub { lhs: Box::new(l), rhs: Box::new(r) }),
                        m: ONE,
                        p: ONE,
                    },
                    tab,
                    ds,
                ),
            )
        },
        _ => None,
    }
}

/// The simplification of a quotient of the simplified terms `n` and `d`:
/// two constants are divided; two scaled terms of equal types have their
/// multipliers divided and their powers subtracted; terms of unequal types
/// stay a quotient, each scaled by `1 * (...)^1`.
pub open spec fn quotient(
    n: Term,
    d: Term,
    ar: spec_fn(Op, u64, u64) -> u64,
    key: spec_fn(u64) -> Option<[u8; 16]>,
) -> Option<Term> {
    match (sum_type(n, key), sum_type(d, key)) {
        (Some(nt), Some(dt)) => if same_type(nt, dt) {
            match (n, d) {
                (Term::Constant(a), Term::Constant(b)) => Some(
                    Term::Constant(ar(Op::Divide, a, b)),
                ),
                (Term::S { f, m: nm, p: np }, Term::S { m: dm, p: dp, .. }) => Some(
                    Term::S { f, m: ar(Op::Divide, nm, dm), p: ar(Op::Minus, np, dp) },
                ),
                _ => None,
            }
        } else {
            Some(
                Term::S {
                    f: Box::new(
                        Term::Div {
                            num: Box::new(Term::S { f: Box::new(n), m: ONE, p: ONE }),
                            den: Box::new(Term::S { f: Box::new(d), m: ONE, p: ONE }),
                        },
                    ),
                    m: ONE,
                    p: ONE,
                },
            )
        },
        _ => None,
    }
}


/// A result of the arithmetic handed in is the one `arithmetic` names.
proof fn lemma_arithmetic<A: Fn(Op, u64, u64) -> u64>(arith: A, o: Op, a: u64, b: u64, r: u64)
    requires
        is_arithmetic(arith),
        arith.ensures((o, a, b), r),
    ensures
        r == arithmetic(arith)(o, a, b),
{
    let c = arithmetic(arith)(o, a, b);
    assert(arith.ensures((o, a, b), c));
}

/// Applies the operation `o` of the arithmetic handed in.
fn calc<A: Fn(Op, u64, u64) -> u64>(arith: &A, o: Op, a: u64, b: u64) -> (r: u64)
    requires
        is_arithmetic(*arith),
    ensures
        r == arithmetic(*arith)(o, a, b),
{
    let r = arith(o, a, b);
    proof {
        lemma_arithmetic(*arith, o, a, b, r);
    }
    r
}

/// The decimal form of the power `p`, from the forms handed in.
fn key_of<K: Fn(u64) -> Option<[u8; 16]>>(power_key: &K, p: u64) -> (r: Option<[u8; 16]>)
    requires
        is_power_key(*power_key),
    ensures
        r == power_keys(*power_key)(p),
        r matches Some(d) ==> decimal_scale(d@) <= 28,
{
    let r = power_key(p);
    proof {
        let c = power_keys(*power_key)(p);
        assert(power_key.ensures((p,), c));
    }
    r
}

/// A function, if there is one, as a term.
pub open spec fn view_of(r: Option<Function>) -> Option<Term> {
    match r {
        Some(v) => Some(v@),
        None => None,
    }
}

/// The type the simplified term `c` of a sum is filed as.
fn sum_type_of<'f, K: Fn(u64) -> Option<[u8; 16]>>(c: &Function<'f>, power_key: &K) -> (r: Option<
    FunctionType,
>)
    requires
        is_power_key(*power_key),
    ensures
        r == sum_type(c@, power_keys(*power_key)),
        r matches Some(k) ==> valid_type(k),
{
    match c {
        Function::Constant(_) => Some(FunctionType::Constant),
        Function::S { f, p, .. } => match key_of(power_key, *p) {
            Some(d) => Some(FunctionType::SAdd(freeze(f), d)),
            None => None,
        },
        _ => Some(FunctionType::Other),
    }
}

/// The type the term `c` of a difference is filed as.
fn difference_type_of<'f, K: Fn(u64) -> Option<[u8; 16]>>(c: &Function<'f>, power_key: &K) -> (r:
    Option<FunctionType>)
    requires
        is_power_key(*power_key),
    ensures
        r == difference_type(c@, power_keys(*power_key)),
        r matches Some(k) ==> valid_type(k),
{
    match c {
        Function::Constant(_) => Some(FunctionType::Constant),
        Function::S { f, p, .. } => {
            let class = match &**f {
                Function::Add { .. } | Function::Sub { .. } => {
                    let none: Vec<Arc<Function<'f>>> = Vec::new();
                    proof {
                        lemma_terms_of_vec(none);
                        assert(terms_of(none@) =~= Seq::<Term>::empty());
                    }
                    proof {
                        assert(f@ is Add || f@ is Sub);
                    }
                    freeze(&Function::Add { vec: none })
                },
                _ => {
                    proof {
                        assert(!(f@ is Add) && !(f@ is Sub));
                    }
                    freeze(f)
                },
            };
            match key_of(power_key, *p) {
                Some(d) => Some(FunctionType::SAdd(class, d)),
                None => None,
            }
        },
        _ => Some(FunctionType::Other),
    }
}

/// The type the simplified factor `c` of a product is filed as.
fn product_type_of<'f>(c: &Function<'f>) -> (r: FunctionType)
    ensures
        r == product_type(c@),
        valid_type(r),
{
    match c {
        Function::Constant(_) => FunctionType::Constant,
        Function::S { f, .. } => FunctionType::SMul(freeze(f)),
        _ => FunctionType::Other,
    }
}

/// Adds the term `c` of a sum into the term `e` filed under its type
/// (`sum_merge`).
fn merge_sum<'f, A: Fn(Op, u64, u64) -> u64>(e: &Function<'f>, c: &Function<'f>, arith: &A) -> (r:
    Option<Function<'f>>)
    requires
        is_arithmetic(*arith),
    ensures
        view_of(r) == sum_merge(e@, c@, arithmetic(*arith)),
{
    match (e, c) {
        (Function::Constant(v), Function::Constant(w)) => Some(
            Function::Constant(calc(arith, Op::Plus, *v, *w)),
        ),
        (Function::S { m: em, .. }, Function::S { f, m, p }) => {
            if bits_eq(*em, *m ^ 0x8000_0000_0000_0000u64) {
                Some(Function::Constant(ZERO))
            } else {
                Some(Function::S { f: clone_arc(f), m: calc(arith, Op::Plus, *em, *m), p: *p })
            }
        },
        _ => None,
    }
}

/// Subtracts the term `c` from the term `e` filed under its type
/// (`difference_merge`).
fn merge_difference<'f, A: Fn(Op, u64, u64) -> u64>(
    e: &Function<'f>,
    c: &Function<'f>,
    arith: &A,
) -> (r: Option<Function<'f>>)
    requires
        is_arithmetic(*arith),
    ensures
        view_of(r) == difference_merge(e@, c@, arithmetic(*arith)),
{
    match (e, c) {
        (Function::Constant(v), Function::Constant(w)) => Some(
            Function::Constant(calc(arith, Op::Minus, *v, *w)),
        ),
        (Function::S { m: em, .. }, Function::S { f, m, p }) => {
            if bits_eq(*em, *m) {
                Some(Function::Constant(ZERO))
            } else {
                Some(Function::S { f: clone_arc(f), m: calc(arith, Op::Minus, *em, *m), p: *p })
            }
        },
        _ => None,
    }
}

/// Subtracts the term `c`, taken with the sign `sign`, from the term `e`
/// filed under its type (`signed_merge`).
fn merge_signed<'f, A: Fn(Op, u64, u64) -> u64>(
    e: &Function<'f>,
    c: &Function<'f>,
    sign: u64,
    arith: &A,
) -> (r: Option<Function<'f>>)
    requires
        is_arithmetic(*arith),
    ensures
        view_of(r) == signed_merge(e@, c@, sign, arithmetic(*arith)),
{
    match (e, c) {
        (Function::Constant(v), Function::Constant(w)) => {
            let x = calc(arith, Op::Times, *w, sign);
            Some(Function::Constant(calc(arith, Op::Minus, *v, x)))
        },
        (Function::S { m: em, .. }, Function::S { f, m, p }) => {
            if bits_eq(*em, *m) {
                Some(Function::Constant(ZERO))
            } else {
                let x = calc(arith, Op::Times, *m, sign);
                Some(Function::S { f: clone_arc(f), m: calc(arith, Op::Minus, *em, x), p: *p })
            }
        },
        _ => None,
    }
}

/// The term `c` taken with the sign `sign` (`signed`).
fn with_sign<'f, A: Fn(Op, u64, u64) -> u64>(c: &Function<'f>, sign: u64, arith: &A) -> (r: Option<
    Function<'f>,
>)
    requires
        is_arithmetic(*arith),
    ensures
        view_of(r) == signed(c@, sign, arithmetic(*arith)),
{
    match c {
        Function::Constant(v) => Some(Function::Constant(calc(arith, Op::Times, *v, sign))),
        Function::S { f, m, p } => Some(
            Function::S {
                f: clone_arc(f),
                m: calc(arith, Op::Times, *m, sign ^ 0x8000_0000_0000_0000u64),
                p: *p,
            },
        ),
        _ => None,
    }
}

/// Multiplies the factor `c` into the factor `e` filed under its type
/// (`product_merge`); returns the decisions its test took.
fn merge_product<'f, A: Fn(Op, u64, u64) -> u64>(e: &Function<'f>, c: &Function<'f>, arith: &A) -> (res: (
    Function<'f>,
    Ghost<Seq<bool>>,
))
    requires
        is_arithmetic(*arith),
        forall|ds: Seq<bool>| #[trigger] product_merge(e@, c@, arithmetic(*arith), ds) is Some,
    ensures
        forall|ds: Seq<bool>| #[trigger]
            product_merge(e@, c@, arithmetic(*arith), res.1@ + ds) == Some((res.0@, ds)),
{
    let ghost ar = arithmetic(*arith);
    match (e, c) {
        (Function::Constant(v), Function::Constant(w)) => {
            let r = Function::Constant(calc(arith, Op::Times, *v, *w));
            proof {
                assert forall|ds: Seq<bool>| #[trigger]
                    product_merge(e@, c@, ar, Seq::<bool>::empty() + ds) == Some((r@, ds)) by {
                    assert(Seq::<bool>::empty() + ds =~= ds);
                }
            }
            (r, Ghost(Seq::empty()))
        },
        (Function::S { f: g, m: em, p: ep }, Function::S { f, m, p }) => {
            proof {
                assert(product_merge(e@, c@, ar, Seq::<bool>::empty()) is Some);
            }
            let same = arc_eq(g, f);
            proof {
                assert forall|ds: Seq<bool>|
                    next_decision(#[trigger] (seq![same] + ds)) == same && later_decisions(
                        seq![same] + ds,
                    ) == ds by {
                    assert((seq![same] + ds).drop_first() =~= ds);
                }
                assert(arc_decided(g@, f@, same) == same);
            }
            let ghost d = seq![same];
            if same && bits_eq(*ep, *p) {
                let x = calc(arith, Op::Times, *em, *m);
                let y = calc(arith, Op::Plus, *ep, *p);
                let r = Function::S { f: clone_arc(f), m: x, p: y };
                (r, Ghost(d))
            } else {
                let r = Function::S { f: clone_arc(g), m: *em, p: *ep };
                (r, Ghost(d))
            }
        },
        _ => {
            proof {
                assert(product_merge(e@, c@, ar, Seq::<bool>::empty()) is Some);
            }
            unreached()
        },
    }
}


/// What simplification gives is always a constant or a scaled term, so
/// that it can be filed under the type of a sum, a product or a difference.
pub proof fn lemma_hashed_is_scaled(
    t: Term,
    tab: Filed,
    ar: spec_fn(Op, u64, u64) -> u64,
    key: spec_fn(u64) -> Option<[u8; 16]>,
    ds: Seq<bool>,
)
    ensures
        hashed(t, tab, ar, key, ds) matches Some((r, _, _)) ==> (r is Constant || r is S),
{
}

/// Simplifying a simplified term gives it back unchanged, leaving the
/// table and the decisions as they are.
pub proof fn lemma_hashed_idempotent(
    t: Term,
    tab: Filed,
    ar: spec_fn(Op, u64, u64) -> u64,
    key: spec_fn(u64) -> Option<[u8; 16]>,
    ds: Seq<bool>,
)
    ensures
        hashed(t, tab, ar, key, ds) matches Some((r, tab1, ds1)) ==> hashed(r, tab1, ar, key, ds1)
            == Some((r, tab1, ds1)),
{
    lemma_hashed_is_scaled(t, tab, ar, key, ds);
}

/// The term a simplification gives, if it does not panic.
pub open spec fn result_of(o: Option<(Term, Filed, Seq<bool>)>) -> Option<Term> {
    match o {
        Some((r, _, _)) => Some(r),
        None => None,
    }
}

/// The scaled sum `1 * (m * x^1)^1` of the variable `name`.
pub open spec fn scaled_single(name: Seq<char>, m: u64) -> Term {
    Term::S {
        f: Box::new(Term::Add(seq![Term::S { f: Box::new(Term::Variable(name)), m, p: ONE }])),
        m: ONE,
        p: ONE,
    }
}

/// A sum of a variable with itself simplifies to one scaled term of
/// multiplier `1 + 1`, whatever the outcome of the allocation tests: the
/// second term always finds the slot the first one filed.
pub proof fn lemma_like_terms_combine(
    name: Seq<char>,
    ar: spec_fn(Op, u64, u64) -> u64,
    key: spec_fn(u64) -> Option<[u8; 16]>,
    ds: Seq<bool>,
)
    requires
        key(ONE) is Some,
    ensures
        result_of(hashed(Term::Add(seq![Term::Variable(name), Term::Variable(name)]), Seq::empty(), ar, key, ds))
            == Some(scaled_single(name, ar(Op::Plus, ONE, ONE))),
{
    let x = Term::Variable(name);
    let sx = Term::S { f: Box::new(x), m: ONE, p: ONE };
    let s = seq![x, x];
    let t = Term::Add(s);
    let e: Filed = Seq::empty();
    let k = FunctionType::SAdd(fingerprint(x), key(ONE)->0);
    let tab1 = e.push((t, k, sx));
    assert(hashed(x, e, ar, key, ds) == Some((sx, e, ds)));
    assert(find_filed(e, Seq::empty(), 0, t, k, ds) == (Option::<int>::None, ds));
    assert(hashed(x, tab1, ar, key, ds) == Some((sx, tab1, ds)));
    assert(find_own(tab1, seq![0int], 0, k) == Some(0int));
    assert(find_filed(tab1, seq![0int], 0, t, k, ds) == (Some(0int), ds));
    assert(sum_type(sx, key) == Some(k));
    assert(0x3ff0_0000_0000_0000u64 ^ 0x8000_0000_0000_0000u64 == 0xbff0_0000_0000_0000u64) by (bit_vector);
    assert(0xbff0_0000_0000_0000u64 & 0x8000_0000_0000_0000u64 != 0) by (bit_vector);
    assert(0x3ff0_0000_0000_0000u64 & 0x8000_0000_0000_0000u64 == 0) by (bit_vector);
    assert(0xbff0_0000_0000_0000u64 & 0x7fff_ffff_ffff_ffffu64 == 0x3ff0_0000_0000_0000u64) by (bit_vector);
    assert(0x3ff0_0000_0000_0000u64 & 0x7fff_ffff_ffff_ffffu64 == 0x3ff0_0000_0000_0000u64) by (bit_vector);
    assert(!float_eq(ONE, negated(ONE)));
    let v = Term::S { f: Box::new(x), m: ar(Op::Plus, ONE, ONE), p: ONE };
    assert(sum_merge(sx, sx, ar) == Some(v));
    let tab2 = tab1.update(0, (t, k, v));
    assert(sum_from(s, 2, t, tab2, 0, seq![0int], ar, key, ds) == Some((tab2, seq![0int], ds)));
    assert(sum_from(s, 1, t, tab1, 0, seq![0int], ar, key, ds) == Some((tab2, seq![0int], ds)));
    assert(seq![0int] == Seq::<int>::empty().push(e.len() as int));
    assert(sum_from(s, 0, t, e, 0, Seq::empty(), ar, key, ds) == Some((tab2, seq![0int], ds)));
    assert(filed(tab2, seq![0int]) =~= seq![v]);
}

/// The numbers `ms` combined from the left with the operation `o` of the
/// arithmetic `ar`: `((ms[0] o ms[1]) o ms[2]) o ...`; `0` when there is
/// none.
pub open spec fn left_fold_by(ar: spec_fn(Op, u64, u64) -> u64, o: Op, ms: Seq<u64>) -> u64
    decreases ms.len(),
{
    if ms.len() == 0 {
        0
    } else if ms.len() == 1 {
        ms[0]
    } else {
        ar(o, left_fold_by(ar, o, ms.drop_last()), ms.last())
    }
}

/// No running sum of the multipliers `ms` is the opposite of the multiplier
/// that comes next (where it is, the two cancel to `0`).
pub open spec fn no_cancelling(ar: spec_fn(Op, u64, u64) -> u64, ms: Seq<u64>) -> bool {
    forall|a: int| 1 <= a < ms.len() ==> !float_eq(left_fold_by(ar, Op::Plus, #[trigger] ms.take(a)), negated(ms[a]))
}

/// Each of the terms `s` simplifies, leaving the table and the decisions
/// as they are, to the scaled term `ms[i] * gs[i]^ps[i]`, and all are of
/// the type of the first: the power has a decimal form equal to that of the
/// first power, and the function the fingerprint of the first function.
pub open spec fn alike(
    s: Seq<Term>,
    gs: Seq<Term>,
    ms: Seq<u64>,
    ps: Seq<u64>,
    ar: spec_fn(Op, u64, u64) -> u64,
    key: spec_fn(u64) -> Option<[u8; 16]>,
) -> bool {
    &&& gs.len() == s.len()
    &&& ms.len() == s.len()
    &&& ps.len() == s.len()
    &&& forall|i: int, tb: Filed, d: Seq<bool>|
        0 <= i < s.len() ==> #[trigger] hashed(s[i], tb, ar, key, d) == Some(
            (scaled(gs[i], ms[i], ps[i]), tb, d),
        )
    &&& forall|i: int|
        0 <= i < s.len() ==> key(#[trigger] ps[i]) is Some && fingerprint(gs[i]) == fingerprint(gs[0])
            && decimal_value(key(ps[i])->0@) == decimal_value(key(ps[0])->0@)
}

/// The type the first of the terms is filed as.
pub open spec fn first_type(gs: Seq<Term>, ps: Seq<u64>, key: spec_fn(u64) -> Option<[u8; 16]>) -> FunctionType {
    FunctionType::SAdd(fingerprint(gs[0]), key(ps[0])->0)
}

/// Once the first `i` like terms are filed in the slot `l` of the sum, the
/// others are added into that slot one after the other.
proof fn lemma_sum_from_adds_up(
    s: Seq<Term>,
    i: int,
    parent: Term,
    tab: Filed,
    start: int,
    l: int,
    gs: Seq<Term>,
    ms: Seq<u64>,
    ps: Seq<u64>,
    ar: spec_fn(Op, u64, u64) -> u64,
    key: spec_fn(u64) -> Option<[u8; 16]>,
    ds: Seq<bool>,
)
    requires
        1 <= i <= s.len(),
        alike(s, gs, ms, ps, ar, key),
        no_cancelling(ar, ms),
        0 <= l < tab.len(),
        tab[l] == (parent, first_type(gs, ps, key), scaled(gs[i - 1], left_fold_by(ar, Op::Plus, ms.take(i)), ps[i - 1])),
    ensures
        sum_from(s, i, parent, tab, start, seq![l], ar, key, ds) == Some(
            (
                tab.update(
                    l,
                    (
                        parent,
                        first_type(gs, ps, key),
                        scaled(gs[s.len() - 1], left_fold_by(ar, Op::Plus, ms), ps[s.len() - 1]),
                    ),
                ),
                seq![l],
                ds,
            ),
        ),
    decreases s.len() - i,
{
    let k = first_type(gs, ps, key);
    if i == s.len() {
        assert(ms.take(i) =~= ms);
        assert(tab.update(l, tab[l]) =~= tab);
    } else {
        let a = left_fold_by(ar, Op::Plus, ms.take(i));
        let c = scaled(gs[i], ms[i], ps[i]);
        let ki = FunctionType::SAdd(fingerprint(gs[i]), key(ps[i])->0);
        assert(key(ps[i]) is Some && key(ps[0]) is Some);
        assert(hashed(s[i], tab, ar, key, ds) == Some((c, tab, ds)));
        assert(sum_type(c, key) == Some(ki));
        assert(same_type(k, ki));
        assert(find_own(tab, seq![l], 0, ki) == Some(l));
        assert(find_filed(tab, seq![l], start, parent, ki, ds) == (Some(l), ds));
        assert(!float_eq(a, negated(ms[i])));
        let m = ar(Op::Plus, a, ms[i]);
        assert(sum_merge(tab[l].2, c, ar) == Some(scaled(gs[i], m, ps[i])));
        assert(ms.take(i + 1).drop_last() =~= ms.take(i));
        assert(left_fold_by(ar, Op::Plus, ms.take(i + 1)) == m);
        let tab1 = tab.update(l, (parent, k, scaled(gs[i], m, ps[i])));
        lemma_sum_from_adds_up(s, i + 1, parent, tab1, start, l, gs, ms, ps, ar, key, ds);
        let n = s.len() - 1;
        assert(tab1.update(l, (parent, k, scaled(gs[n], left_fold_by(ar, Op::Plus, ms), ps[n]))) =~= tab.update(
            l,
            (parent, k, scaled(gs[n], left_fold_by(ar, Op::Plus, ms), ps[n])),
        ));
    }
}

/// Like terms add up: a sum of terms that each simplify, leaving the table
/// and the decisions as they are, to a scaled term `ms[i] * gs[i]^ps[i]`, all
/// of one type (functions of one fingerprint, powers of one decimal value),
/// simplifies to a single scaled term `m * g^p` whose multiplier `m` is the
/// sum of all the `ms[i]`: each term meeting the filed one adds its
/// multiplier to the filed multiplier, and the function `g` and power `p`
/// are those of the last term.  This holds where no running sum cancels
/// the next multiplier (the two then give `0`) and no slot is filed under
/// the sum yet, whatever the outcome of the allocation tests.
pub proof fn lemma_like_terms_add_up_in_table(
    s: Seq<Term>,
    gs: Seq<Term>,
    ms: Seq<u64>,
    ps: Seq<u64>,
    tab: Filed,
    ar: spec_fn(Op, u64, u64) -> u64,
    key: spec_fn(u64) -> Option<[u8; 16]>,
    ds: Seq<bool>,
)
    requires
        s.len() > 0,
        alike(s, gs, ms, ps, ar, key),
        no_cancelling(ar, ms),
        forall|j: int| 0 <= j < tab.len() ==> (#[trigger] tab[j]).0 != Term::Add(s),
    ensures
        result_of(hashed(Term::Add(s), tab, ar, key, ds)) == Some(
            scaled(
                Term::Add(seq![scaled(gs[s.len() - 1], left_fold_by(ar, Op::Plus, ms), ps[s.len() - 1])]),
                ONE,
                ONE,
            ),
        ),
{
    let t = Term::Add(s);
    let k = first_type(gs, ps, key);
    let c = scaled(gs[0], ms[0], ps[0]);
    let none: Seq<int> = Seq::empty();
    let l = tab.len() as int;
    let n = s.len() - 1;
    assert(key(ps[0]) is Some);
    assert(hashed(s[0], tab, ar, key, ds) == Some((c, tab, ds)));
    assert(sum_type(c, key) == Some(k));
    assert(find_own(tab, none, 0, k) is None);
    lemma_find_slot_parent(tab, 0, l, t, k, ds);
    let d1 = find_slot(tab, 0, l, t, k, ds).1;
    assert(find_filed(tab, none, l, t, k, ds) == (Option::<int>::None, d1));
    let tab1 = tab.push((t, k, c));
    assert(none.push(l) =~= seq![l]);
    assert(ms.take(1) =~= seq![ms[0]]);
    lemma_sum_from_adds_up(s, 1, t, tab1, l, l, gs, ms, ps, ar, key, d1);
    let v = scaled(gs[n], left_fold_by(ar, Op::Plus, ms), ps[n]);
    let tab2 = tab1.update(l, (t, k, v));
    assert(sum_from(s, 0, t, tab, l, none, ar, key, ds) == Some((tab2, seq![l], d1)));
    assert(filed(tab2, seq![l]) =~= seq![v]);
}

/// A sum of `n` copies of one variable `x`, where no slot is filed under it
/// yet, simplifies to a single scaled term `m * x^1` whose multiplier `m` is
/// `n` ones added up: `x + x + x` gives `(1 + 1 + 1) * x^1` (where no running
/// sum of ones is `-1`).
pub proof fn lemma_repeated_variable_adds_up_in_table(
    x: Seq<char>,
    n: nat,
    tab: Filed,
    ar: spec_fn(Op, u64, u64) -> u64,
    key: spec_fn(u64) -> Option<[u8; 16]>,
    ds: Seq<bool>,
)
    requires
        n > 0,
        key(ONE) is Some,
        no_cancelling(ar, Seq::new(n, |i: int| ONE)),
        forall|j: int|
            0 <= j < tab.len() ==> (#[trigger] tab[j]).0 != Term::Add(Seq::new(n, |i: int| Term::Variable(x))),
    ensures
        result_of(hashed(Term::Add(Seq::new(n, |i: int| Term::Variable(x))), tab, ar, key, ds)) == Some(
            scaled(
                Term::Add(seq![scaled(Term::Variable(x), left_fold_by(ar, Op::Plus, Seq::new(n, |i: int| ONE)), ONE)]),
                ONE,
                ONE,
            ),
        ),
{
    let s = Seq::new(n, |i: int| Term::Variable(x));
    let ms = Seq::new(n, |i: int| ONE);
    let gs = Seq::new(n, |i: int| Term::Variable(x));
    assert forall|i: int, tb: Filed, d: Seq<bool>| 0 <= i < s.len() implies #[trigger] hashed(
        s[i],
        tb,
        ar,
        key,
        d,
    ) == Some((scaled(gs[i], ms[i], ms[i]), tb, d)) by {
        assert(s[i] == Term::Variable(x));
    }
    assert forall|i: int| 0 <= i < s.len() implies key(#[trigger] ms[i]) is Some && fingerprint(gs[i])
        == fingerprint(gs[0]) && decimal_value(key(ms[i])->0@) == decimal_value(key(ms[0])->0@) by {
        assert(ms[i] == ONE && ms[0] == ONE && gs[i] == gs[0]);
    }
    lemma_like_terms_add_up_in_table(s, gs, ms, ms, tab, ar, key, ds);
}

/// Once the first `i` constants are filed in the slot `l` of the sum (or
/// product), the others are added (or multiplied) into that slot one after
/// the other.
proof fn lemma_from_constants(
    s: Seq<Term>,
    i: int,
    parent: Term,
    tab: Filed,
    tab_p: Filed,
    start: int,
    l: int,
    vs: Seq<u64>,
    ar: spec_fn(Op, u64, u64) -> u64,
    key: spec_fn(u64) -> Option<[u8; 16]>,
    ds: Seq<bool>,
)
    requires
        1 <= i <= s.len(),
        vs.len() == s.len(),
        forall|a: int| 0 <= a < s.len() ==> #[trigger] s[a] == Term::Constant(vs[a]),
        0 <= l < tab.len(),
        tab.len() == tab_p.len(),
        tab[l] == (parent, FunctionType::Constant, Term::Constant(left_fold_by(ar, Op::Plus, vs.take(i)))),
        tab_p[l] == (parent, FunctionType::Constant, Term::Constant(left_fold_by(ar, Op::Times, vs.take(i)))),
    ensures
        sum_from(s, i, parent, tab, start, seq![l], ar, key, ds) == Some(
            (
                tab.update(l, (parent, FunctionType::Constant, Term::Constant(left_fold_by(ar, Op::Plus, vs)))),
                seq![l],
                ds,
            ),
        ),
        product_from(s, i, parent, tab_p, start, seq![l], ar, key, ds) == Some(
            (
                tab_p.update(l, (parent, FunctionType::Constant, Term::Constant(left_fold_by(ar, Op::Times, vs)))),
                seq![l],
                ds,
            ),
        ),
    decreases s.len() - i,
{
    let k = FunctionType::Constant;
    if i == s.len() {
        assert(vs.take(i) =~= vs);
        assert(tab.update(l, tab[l]) =~= tab);
        assert(tab_p.update(l, tab_p[l]) =~= tab_p);
    } else {
        let c = Term::Constant(vs[i]);
        assert(s[i] == c);
        assert(hashed(c, tab, ar, key, ds) == Some((c, tab, ds)));
        assert(hashed(c, tab_p, ar, key, ds) == Some((c, tab_p, ds)));
        assert(find_own(tab, seq![l], 0, k) == Some(l));
        assert(find_own(tab_p, seq![l], 0, k) == Some(l));
        assert(vs.take(i + 1).drop_last() =~= vs.take(i));
        let a = ar(Op::Plus, left_fold_by(ar, Op::Plus, vs.take(i)), vs[i]);
        let b = ar(Op::Times, left_fold_by(ar, Op::Times, vs.take(i)), vs[i]);
        assert(left_fold_by(ar, Op::Plus, vs.take(i + 1)) == a);
        assert(left_fold_by(ar, Op::Times, vs.take(i + 1)) == b);
        let tab1 = tab.update(l, (parent, k, Term::Constant(a)));
        let tab1_p = tab_p.update(l, (parent, k, Term::Constant(b)));
        lemma_from_constants(s, i + 1, parent, tab1, tab1_p, start, l, vs, ar, key, ds);
        assert(tab1.update(l, (parent, k, Term::Constant(left_fold_by(ar, Op::Plus, vs)))) =~= tab.update(
            l,
            (parent, k, Term::Constant(left_fold_by(ar, Op::Plus, vs))),
        ));
        assert(tab1_p.update(l, (parent, k, Term::Constant(left_fold_by(ar, Op::Times, vs)))) =~= tab_p.update(
            l,
            (parent, k, Term::Constant(left_fold_by(ar, Op::Times, vs))),
        ));
    }
}

/// Constants combine: the constants `vs` of a sum are added up into one
/// constant, and those of a product multiplied into one, where no slot is
/// filed under the sum (or the product) yet, whatever the outcome of the
/// allocation tests.
pub proof fn lemma_constants_combine_in_table(
    s: Seq<Term>,
    vs: Seq<u64>,
    tab: Filed,
    ar: spec_fn(Op, u64, u64) -> u64,
    key: spec_fn(u64) -> Option<[u8; 16]>,
    ds: Seq<bool>,
)
    requires
        s.len() > 0,
        vs.len() == s.len(),
        forall|a: int| 0 <= a < s.len() ==> #[trigger] s[a] == Term::Constant(vs[a]),
        forall|j: int| 0 <= j < tab.len() ==> (#[trigger] tab[j]).0 != Term::Add(s) && tab[j].0 != Term::Mul(s),
    ensures
        result_of(hashed(Term::Add(s), tab, ar, key, ds)) == Some(
            scaled(Term::Add(seq![Term::Constant(left_fold_by(ar, Op::Plus, vs))]), ONE, ONE),
        ),
        result_of(hashed(Term::Mul(s), tab, ar, key, ds)) == Some(
            scaled(Term::Mul(seq![Term::Constant(left_fold_by(ar, Op::Times, vs))]), ONE, ONE),
        ),
{
    let k = FunctionType::Constant;
    let c = Term::Constant(vs[0]);
    let none: Seq<int> = Seq::empty();
    let l = tab.len() as int;
    assert(s[0] == c);
    assert(hashed(c, tab, ar, key, ds) == Some((c, tab, ds)));
    assert(find_own(tab, none, 0, k) is None);
    assert(none.push(l) =~= seq![l]);
    assert(vs.take(1) =~= seq![vs[0]]);
    let t = Term::Add(s);
    lemma_find_slot_parent(tab, 0, l, t, k, ds);
    let d1 = find_slot(tab, 0, l, t, k, ds).1;
    let u = Term::Mul(s);
    lemma_find_slot_parent(tab, 0, l, u, k, ds);
    let e1 = find_slot(tab, 0, l, u, k, ds).1;
    lemma_from_constants(s, 1, t, tab.push((t, k, c)), tab.push((t, k, c)), l, l, vs, ar, key, d1);
    lemma_from_constants(s, 1, u, tab.push((u, k, c)), tab.push((u, k, c)), l, l, vs, ar, key, e1);
    let tab2 = tab.push((t, k, c)).update(l, (t, k, Term::Constant(left_fold_by(ar, Op::Plus, vs))));
    assert(sum_from(s, 0, t, tab, l, none, ar, key, ds) == Some((tab2, seq![l], d1)));
    assert(filed(tab2, seq![l]) =~= seq![Term::Constant(left_fold_by(ar, Op::Plus, vs))]);
    let tab3 = tab.push((u, k, c)).update(l, (u, k, Term::Constant(left_fold_by(ar, Op::Times, vs))));
    assert(product_from(s, 0, u, tab, l, none, ar, key, ds) == Some((tab3, seq![l], e1)));
    assert(filed(tab3, seq![l]) =~= seq![Term::Constant(left_fold_by(ar, Op::Times, vs))]);
}

/// Two like factors of equal powers multiply: a product of two factors
/// that simplify, leaving the table and the decisions as they are, to
/// `m1 * g^p` and `m2 * g^p` (one function `g`, equal to itself, and one
/// power `p`, not NaN) simplifies to the single factor `(m1 * m2) * g^(p + p)`,
/// where no slot is filed under the product yet, whatever the outcome of
/// the allocation tests.
pub proof fn lemma_like_factors_multiply_in_table(
    a: Term,
    b: Term,
    g: Term,
    m1: u64,
    m2: u64,
    p: u64,
    tab: Filed,
    ar: spec_fn(Op, u64, u64) -> u64,
    key: spec_fn(u64) -> Option<[u8; 16]>,
    ds: Seq<bool>,
)
    requires
        self_equal(g),
        eq_defined(g, g),
        !is_nan(p),
        forall|tb: Filed, d: Seq<bool>| #[trigger] hashed(a, tb, ar, key, d) == Some((scaled(g, m1, p), tb, d)),
        forall|tb: Filed, d: Seq<bool>| #[trigger] hashed(b, tb, ar, key, d) == Some((scaled(g, m2, p), tb, d)),
        forall|j: int| 0 <= j < tab.len() ==> (#[trigger] tab[j]).0 != Term::Mul(seq![a, b]),
    ensures
        result_of(hashed(Term::Mul(seq![a, b]), tab, ar, key, ds)) == Some(
            scaled(Term::Mul(seq![scaled(g, ar(Op::Times, m1, m2), ar(Op::Plus, p, p))]), ONE, ONE),
        ),
{
    let s = seq![a, b];
    let t = Term::Mul(s);
    let c1 = scaled(g, m1, p);
    let c2 = scaled(g, m2, p);
    let k = FunctionType::SMul(fingerprint(g));
    let none: Seq<int> = Seq::empty();
    let l = tab.len() as int;
    assert(hashed(s[0], tab, ar, key, ds) == Some((c1, tab, ds)));
    assert(product_type(c1) == k);
    assert(find_own(tab, none, 0, k) is None);
    lemma_find_slot_parent(tab, 0, l, t, k, ds);
    let d1 = find_slot(tab, 0, l, t, k, ds).1;
    assert(find_filed(tab, none, l, t, k, ds) == (Option::<int>::None, d1));
    let tab1 = tab.push((t, k, c1));
    assert(none.push(l) =~= seq![l]);
    assert(hashed(s[1], tab1, ar, key, d1) == Some((c2, tab1, d1)));
    assert(product_type(c2) == k);
    assert(find_own(tab1, seq![l], 0, k) == Some(l));
    assert(find_filed(tab1, seq![l], l, t, k, d1) == (Some(l), d1));
    lemma_eq_reflexive(g, false);
    assert(arc_decided(g, g, next_decision(d1)));
    assert(float_eq(p, p));
    let v = scaled(g, ar(Op::Times, m1, m2), ar(Op::Plus, p, p));
    assert(product_merge(c1, c2, ar, d1) == Some((v, later_decisions(d1))));
    let tab2 = tab1.update(l, (t, k, v));
    assert(product_from(s, 2, t, tab2, l, seq![l], ar, key, later_decisions(d1)) == Some(
        (tab2, seq![l], later_decisions(d1)),
    ));
    assert(product_from(s, 1, t, tab1, l, seq![l], ar, key, d1) == Some(
        (tab2, seq![l], later_decisions(d1)),
    ));
    assert(product_from(s, 0, t, tab, l, none, ar, key, ds) == Some((tab2, seq![l], later_decisions(d1))));
    assert(filed(tab2, seq![l]) =~= seq![v]);
}

/// Opposite like terms cancel: a sum of two terms that simplify, leaving
/// the table and the decisions as they are, to `m1 * g^p` and `m2 * g^p`
/// (one function `g`, one power `p` that has a decimal form), where `m1` is
/// the opposite of `m2`, simplifies to the constant `0` alone, where no slot
/// is filed under the sum yet, whatever the outcome of the allocation tests.
pub proof fn lemma_opposite_terms_cancel(
    a: Term,
    b: Term,
    g: Term,
    m1: u64,
    m2: u64,
    p: u64,
    tab: Filed,
    ar: spec_fn(Op, u64, u64) -> u64,
    key: spec_fn(u64) -> Option<[u8; 16]>,
    ds: Seq<bool>,
)
    requires
        key(p) is Some,
        float_eq(m1, negated(m2)),
        forall|tb: Filed, d: Seq<bool>| #[trigger] hashed(a, tb, ar, key, d) == Some((scaled(g, m1, p), tb, d)),
        forall|tb: Filed, d: Seq<bool>| #[trigger] hashed(b, tb, ar, key, d) == Some((scaled(g, m2, p), tb, d)),
        forall|j: int| 0 <= j < tab.len() ==> (#[trigger] tab[j]).0 != Term::Add(seq![a, b]),
    ensures
        result_of(hashed(Term::Add(seq![a, b]), tab, ar, key, ds)) == Some(
            scaled(Term::Add(seq![Term::Constant(ZERO)]), ONE, ONE),
        ),
{
    let s = seq![a, b];
    let t = Term::Add(s);
    let c1 = scaled(g, m1, p);
    let c2 = scaled(g, m2, p);
    let k = FunctionType::SAdd(fingerprint(g), key(p)->0);
    let none: Seq<int> = Seq::empty();
    let l = tab.len() as int;
    assert(hashed(s[0], tab, ar, key, ds) == Some((c1, tab, ds)));
    assert(sum_type(c1, key) == Some(k));
    assert(find_own(tab, none, 0, k) is None);
    lemma_find_slot_parent(tab, 0, l, t, k, ds);
    let d1 = find_slot(tab, 0, l, t, k, ds).1;
    assert(find_filed(tab, none, l, t, k, ds) == (Option::<int>::None, d1));
    let tab1 = tab.push((t, k, c1));
    assert(none.push(l) =~= seq![l]);
    assert(hashed(s[1], tab1, ar, key, d1) == Some((c2, tab1, d1)));
    assert(sum_type(c2, key) == Some(k));
    assert(find_own(tab1, seq![l], 0, k) == Some(l));
    assert(find_filed(tab1, seq![l], l, t, k, d1) == (Some(l), d1));
    assert(sum_merge(c1, c2, ar) == Some(Term::Constant(ZERO)));
    let tab2 = tab1.update(l, (t, k, Term::Constant(ZERO)));
    assert(sum_from(s, 2, t, tab2, l, seq![l], ar, key, d1) == Some((tab2, seq![l], d1)));
    assert(sum_from(s, 1, t, tab1, l, seq![l], ar, key, d1) == Some((tab2, seq![l], d1)));
    assert(sum_from(s, 0, t, tab, l, none, ar, key, ds) == Some((tab2, seq![l], d1)));
    assert(filed(tab2, seq![l]) =~= seq![Term::Constant(ZERO)]);
}

/// Like terms subtract: a difference of two terms that simplify, leaving
/// the table and the decisions as they are, to `m1 * g^p` and `m2 * g^p`
/// (one function `g` that is not a sum, one power `p` that has a decimal
/// form) simplifies to `0` where the multipliers are equal, and otherwise to
/// `(m1 - m2) * g^p`.  A difference of two constants `a` and `b` simplifies
/// to the constant `a - b`.
pub proof fn lemma_like_terms_subtract(
    lhs: Term,
    rhs: Term,
    g: Term,
    m1: u64,
    m2: u64,
    p: u64,
    tab: Filed,
    ar: spec_fn(Op, u64, u64) -> u64,
    key: spec_fn(u64) -> Option<[u8; 16]>,
    ds: Seq<bool>,
)
    requires
        key(p) is Some,
        !(g is Add),
        hashed(lhs, tab, ar, key, ds) == Some((scaled(g, m1, p), tab, ds)),
        hashed(rhs, tab, ar, key, ds) == Some((scaled(g, m2, p), tab, ds)),
    ensures
        result_of(hashed((Term::Sub { lhs: Box::new(lhs), rhs: Box::new(rhs) }), tab, ar, key, ds)) == Some(
            (if float_eq(m1, m2) {
                Term::Constant(ZERO)
            } else {
                scaled(g, ar(Op::Minus, m1, m2), p)
            }),
        ),
{
    let t = Term::Sub { lhs: Box::new(lhs), rhs: Box::new(rhs) };
    let l = scaled(g, m1, p);
    let r = scaled(g, m2, p);
    let k = difference_type(l, key)->0;
    assert(difference_type(r, key) == Some(k));
    lemma_same_type_equivalence(k, k, k);
    assert(difference(t, l, r, tab, ar, key, ds) == Some((scaled_difference(g, m1, m2, p, ar), tab, ds)));
}

/// Constants subtract and divide: the difference of two terms that
/// simplify, leaving the table and the decisions as they are, to the
/// constants `a` and `b` simplifies to `a - b`, and their quotient to
/// `a / b`.
pub proof fn lemma_constants_subtract_and_divide(
    x: Term,
    y: Term,
    a: u64,
    b: u64,
    tab: Filed,
    ar: spec_fn(Op, u64, u64) -> u64,
    key: spec_fn(u64) -> Option<[u8; 16]>,
    ds: Seq<bool>,
)
    requires
        hashed(x, tab, ar, key, ds) == Some((Term::Constant(a), tab, ds)),
        hashed(y, tab, ar, key, ds) == Some((Term::Constant(b), tab, ds)),
    ensures
        result_of(hashed((Term::Sub { lhs: Box::new(x), rhs: Box::new(y) }), tab, ar, key, ds)) == Some(
            Term::Constant(ar(Op::Minus, a, b)),
        ),
        result_of(hashed((Term::Div { num: Box::new(x), den: Box::new(y) }), tab, ar, key, ds)) == Some(
            Term::Constant(ar(Op::Divide, a, b)),
        ),
{
}

/// Like terms divide: a quotient of two terms that simplify, leaving the
/// table and the decisions as they are, to `m1 * g^p` and `m2 * g^p` (one
/// function `g`, one power `p` that has a decimal form) simplifies to
/// `(m1 / m2) * g^(p - p)`: the multipliers divided, the powers subtracted.
pub proof fn lemma_like_terms_divide(
    num: Term,
    den: Term,
    g: Term,
    m1: u64,
    m2: u64,
    p: u64,
    tab: Filed,
    ar: spec_fn(Op, u64, u64) -> u64,
    key: spec_fn(u64) -> Option<[u8; 16]>,
    ds: Seq<bool>,
)
    requires
        key(p) is Some,
        hashed(num, tab, ar, key, ds) == Some((scaled(g, m1, p), tab, ds)),
        hashed(den, tab, ar, key, ds) == Some((scaled(g, m2, p), tab, ds)),
    ensures
        result_of(hashed((Term::Div { num: Box::new(num), den: Box::new(den) }), tab, ar, key, ds)) == Some(
            scaled(g, ar(Op::Divide, m1, m2), ar(Op::Minus, p, p)),
        ),
{
    let n = scaled(g, m1, p);
    let d = scaled(g, m2, p);
    let k = sum_type(n, key)->0;
    assert(sum_type(d, key) == Some(k));
    lemma_same_type_equivalence(k, k, k);
    assert(quotient(n, d, ar, key) == Some(scaled(g, ar(Op::Divide, m1, m2), ar(Op::Minus, p, p))));
}

/// The table `after` keeps every slot of `before`, under its parent and
/// type (only the filed terms may change, and slots may be added).
pub open spec fn keeps_slots(before: Filed, after: Filed) -> bool {
    &&& before.len() <= after.len()
    &&& forall|j: int|
        0 <= j < before.len() ==> (#[trigger] after[j]).0 == before[j].0 && after[j].1 == before[j].1
}

/// Every position of `own` is a slot of the table.
pub open spec fn own_in_table(own: Seq<int>, len: int) -> bool {
    forall|i: int| 0 <= i < own.len() ==> 0 <= #[trigger] own[i] < len
}

proof fn lemma_find_slot_in_table(
    tab: Filed,
    j: int,
    end: int,
    parent: Term,
    k: FunctionType,
    ds: Seq<bool>,
)
    requires
        0 <= j,
    ensures
        find_slot(tab, j, end, parent, k, ds).0 matches Some(x) ==> 0 <= x < tab.len(),
    decreases end - j,
{
    if j < end && j < tab.len() {
        lemma_find_slot_in_table(tab, j + 1, end, parent, k, later_decisions(ds));
    }
}

proof fn lemma_find_own_in_table(tab: Filed, own: Seq<int>, i: int, k: FunctionType)
    requires
        own_in_table(own, tab.len() as int),
    ensures
        find_own(tab, own, i, k) matches Some(x) ==> 0 <= x < tab.len(),
    decreases own.len() - i,
{
    if 0 <= i < own.len() {
        lemma_find_own_in_table(tab, own, i + 1, k);
    }
}

/// The slot `find_filed` finds is one of the table's.
proof fn lemma_find_filed_in_table(
    tab: Filed,
    own: Seq<int>,
    start: int,
    parent: Term,
    k: FunctionType,
    ds: Seq<bool>,
)
    requires
        own_in_table(own, tab.len() as int),
    ensures
        find_filed(tab, own, start, parent, k, ds).0 matches Some(x) ==> 0 <= x < tab.len(),
{
    lemma_find_own_in_table(tab, own, 0, k);
    lemma_find_slot_in_table(tab, 0, start, parent, k, ds);
}

proof fn lemma_keeps_slots_trans(a: Filed, b: Filed, c: Filed)
    requires
        keeps_slots(a, b),
        keeps_slots(b, c),
    ensures
        keeps_slots(a, c),
{
    assert forall|j: int| 0 <= j < a.len() implies (#[trigger] c[j]).0 == a[j].0 && c[j].1 == a[j].1 by {
        assert(b[j].0 == a[j].0);
    }
}

proof fn lemma_file_from_keeps(
    s: Seq<Term>,
    i: int,
    parent: Term,
    tab: Filed,
    start: int,
    idx: Seq<int>,
    own: Seq<int>,
    key: spec_fn(u64) -> Option<[u8; 16]>,
    ds: Seq<bool>,
)
    requires
        own_in_table(own, tab.len() as int),
    ensures
        file_from(s, i, parent, tab, start, idx, own, key, ds) matches Some((tab2, _, _, _))
            ==> keeps_slots(tab, tab2),
    decreases s.len() - i,
{
    if 0 <= i < s.len() {
        if let Some(k) = difference_type(s[i], key) {
            let (found, ds1) = find_filed(tab, own, start, parent, k, ds);
            lemma_find_filed_in_table(tab, own, start, parent, k, ds);
            match found {
                Some(j) => {
                    let tab1 = tab.update(j, (tab[j].0, tab[j].1, s[i]));
                    lemma_file_from_keeps(s, i + 1, parent, tab1, start, idx.push(j), own, key, ds1);
                    if let Some((tab2, _, _, _)) = file_from(s, i + 1, parent, tab1, start, idx.push(j), own, key, ds1) {
                        lemma_keeps_slots_trans(tab, tab1, tab2);
                    }
                },
                None => {
                    let tab1 = tab.push((parent, k, s[i]));
                    let idx1 = idx.push(tab.len() as int);
                    let own1 = own.push(tab.len() as int);
                    lemma_file_from_keeps(s, i + 1, parent, tab1, start, idx1, own1, key, ds1);
                    if let Some((tab2, _, _, _)) = file_from(s, i + 1, parent, tab1, start, idx1, own1, key, ds1) {
                        lemma_keeps_slots_trans(tab, tab1, tab2);
                    }
                },
            }
        }
    }
}

proof fn lemma_subtract_from_keeps(
    s: Seq<Term>,
    i: int,
    parent: Term,
    tab: Filed,
    start: int,
    idx: Seq<int>,
    own: Seq<int>,
    ar: spec_fn(Op, u64, u64) -> u64,
    key: spec_fn(u64) -> Option<[u8; 16]>,
    ds: Seq<bool>,
)
    requires
        own_in_table(own, tab.len() as int),
    ensures
        subtract_from(s, i, parent, tab, start, idx, own, ar, key, ds) matches Some((tab2, _, _, _))
            ==> keeps_slots(tab, tab2),
    decreases s.len() - i,
{
    if 0 <= i < s.len() {
        if let Some(k) = difference_type(s[i], key) {
            let (found, ds1) = find_filed(tab, own, start, parent, k, ds);
            lemma_find_filed_in_table(tab, own, start, parent, k, ds);
            match found {
                Some(j) => {
                    if let Some(v) = difference_merge(tab[j].2, s[i], ar) {
                        let tab1 = tab.update(j, (tab[j].0, tab[j].1, v));
                        lemma_subtract_from_keeps(s, i + 1, parent, tab1, start, idx, own, ar, key, ds1);
                        if let Some((tab2, _, _, _)) = subtract_from(s, i + 1, parent, tab1, start, idx, own, ar, key, ds1) {
                            lemma_keeps_slots_trans(tab, tab1, tab2);
                        }
                    }
                },
                None => {
                    let tab1 = tab.push((parent, k, s[i]));
                    let idx1 = idx.push(tab.len() as int);
                    let own1 = own.push(tab.len() as int);
                    lemma_subtract_from_keeps(s, i + 1, parent, tab1, start, idx1, own1, ar, key, ds1);
                    if let Some((tab2, _, _, _)) = subtract_from(s, i + 1, parent, tab1, start, idx1, own1, ar, key, ds1) {
                        lemma_keeps_slots_trans(tab, tab1, tab2);
                    }
                },
            }
        }
    }
}

proof fn lemma_signed_step_keeps(
    c: Term,
    sign: u64,
    parent: Term,
    tab: Filed,
    start: int,
    idx: Seq<int>,
    own: Seq<int>,
    ar: spec_fn(Op, u64, u64) -> u64,
    key: spec_fn(u64) -> Option<[u8; 16]>,
    ds: Seq<bool>,
)
    requires
        own_in_table(own, tab.len() as int),
    ensures
        signed_step(c, sign, parent, tab, start, idx, own, ar, key, ds) matches Some((tab2, _, own2, _))
            ==> keeps_slots(tab, tab2) && own_in_table(own2, tab2.len() as int),
{
    if let Some(k) = difference_type(c, key) {
        lemma_find_filed_in_table(tab, own, start, parent, k, ds);
    }
}

proof fn lemma_file_from_own(
    s: Seq<Term>,
    i: int,
    parent: Term,
    tab: Filed,
    start: int,
    idx: Seq<int>,
    own: Seq<int>,
    key: spec_fn(u64) -> Option<[u8; 16]>,
    ds: Seq<bool>,
)
    requires
        own_in_table(own, tab.len() as int),
    ensures
        file_from(s, i, parent, tab, start, idx, own, key, ds) matches Some((tab2, _, own2, _))
            ==> own_in_table(own2, tab2.len() as int),
    decreases s.len() - i,
{
    if 0 <= i < s.len() {
        if let Some(k) = difference_type(s[i], key) {
            let (found, ds1) = find_filed(tab, own, start, parent, k, ds);
            lemma_find_filed_in_table(tab, own, start, parent, k, ds);
            match found {
                Some(j) => {
                    let tab1 = tab.update(j, (tab[j].0, tab[j].1, s[i]));
                    lemma_file_from_own(s, i + 1, parent, tab1, start, idx.push(j), own, key, ds1);
                },
                None => {
                    let tab1 = tab.push((parent, k, s[i]));
                    lemma_file_from_own(
                        s,
                        i + 1,
                        parent,
                        tab1,
                        start,
                        idx.push(tab.len() as int),
                        own.push(tab.len() as int),
                        key,
                        ds1,
                    );
                },
            }
        }
    }
}

proof fn lemma_difference_keeps(
    parent: Term,
    l: Term,
    r: Term,
    tab: Filed,
    ar: spec_fn(Op, u64, u64) -> u64,
    key: spec_fn(u64) -> Option<[u8; 16]>,
    ds: Seq<bool>,
)
    ensures
        difference(parent, l, r, tab, ar, key, ds) matches Some((_, tab2, _)) ==> keeps_slots(tab, tab2),
{
    let none: Seq<int> = Seq::empty();
    let start = tab.len() as int;
    assert(keeps_slots(tab, tab));
    assert(own_in_table(none, tab.len() as int));
    if let (Term::S { f: lf, .. }, Term::S { f: rf, .. }) = (l, r) {
        match (*lf, *rf) {
            (Term::Add(lv), Term::Add(rv)) => {
                let d = later_decisions(ds);
                lemma_file_from_keeps(lv, 0, parent, tab, start, none, none, key, d);
                lemma_file_from_own(lv, 0, parent, tab, start, none, none, key, d);
                if let Some((tab1, idx1, own1, ds1)) = file_from(lv, 0, parent, tab, start, none, none, key, d) {
                    lemma_subtract_from_keeps(rv, 0, parent, tab1, start, idx1, own1, ar, key, ds1);
                    if let Some((tab2, _, _, _)) = subtract_from(rv, 0, parent, tab1, start, idx1, own1, ar, key, ds1) {
                        lemma_keeps_slots_trans(tab, tab1, tab2);
                    }
                }
            },
            (Term::Add(lv), Term::Sub { lhs: a, rhs: b }) => {
                lemma_file_from_keeps(lv, 0, parent, tab, start, none, none, key, ds);
                lemma_file_from_own(lv, 0, parent, tab, start, none, none, key, ds);
                if let Some((tab1, idx1, own1, ds1)) = file_from(lv, 0, parent, tab, start, none, none, key, ds) {
                    lemma_signed_step_keeps(*a, ONE, parent, tab1, start, idx1, own1, ar, key, ds1);
                    if let Some((tab2, idx2, own2, ds2)) = signed_step(*a, ONE, parent, tab1, start, idx1, own1, ar, key, ds1) {
                        lemma_keeps_slots_trans(tab, tab1, tab2);
                        lemma_signed_step_keeps(*b, NEG_ONE, parent, tab2, start, idx2, own2, ar, key, ds2);
                        if let Some((tab3, _, _, _)) = signed_step(*b, NEG_ONE, parent, tab2, start, idx2, own2, ar, key, ds2) {
                            lemma_keeps_slots_trans(tab, tab2, tab3);
                        }
                    }
                }
            },
            _ => {},
        }
    }
}

proof fn lemma_sum_from_keeps(
    s: Seq<Term>,
    i: int,
    parent: Term,
    tab: Filed,
    start: int,
    idx: Seq<int>,
    ar: spec_fn(Op, u64, u64) -> u64,
    key: spec_fn(u64) -> Option<[u8; 16]>,
    ds: Seq<bool>,
)
    requires
        own_in_table(idx, tab.len() as int),
    ensures
        sum_from(s, i, parent, tab, start, idx, ar, key, ds) matches Some((tab2, _, _)) ==> keeps_slots(
            tab,
            tab2,
        ),
    decreases size_of(s), s.len() - i + 1,
{
    if 0 <= i < s.len() {
        lemma_size_of_member(s, i);
        lemma_hashed_keeps(s[i], tab, ar, key, ds);
        if let Some((c, tab1, ds1)) = hashed(s[i], tab, ar, key, ds) {
            if let Some(k) = sum_type(c, key) {
                let (found, ds2) = find_filed(tab1, idx, start, parent, k, ds1);
                lemma_find_filed_in_table(tab1, idx, start, parent, k, ds1);
                match found {
                    Some(j) => {
                        if let Some(v) = sum_merge(tab1[j].2, c, ar) {
                            let tab2 = tab1.update(j, (tab1[j].0, tab1[j].1, v));
                            lemma_sum_from_keeps(s, i + 1, parent, tab2, start, idx, ar, key, ds2);
                            lemma_keeps_slots_trans(tab, tab1, tab2);
                            if let Some((tab3, _, _)) = sum_from(s, i + 1, parent, tab2, start, idx, ar, key, ds2) {
                                lemma_keeps_slots_trans(tab, tab2, tab3);
                            }
                        }
                    },
                    None => {
                        let tab2 = tab1.push((parent, k, c));
                        let idx2 = idx.push(tab1.len() as int);
                        lemma_sum_from_keeps(s, i + 1, parent, tab2, start, idx2, ar, key, ds2);
                        lemma_keeps_slots_trans(tab, tab1, tab2);
                        if let Some((tab3, _, _)) = sum_from(s, i + 1, parent, tab2, start, idx2, ar, key, ds2) {
                            lemma_keeps_slots_trans(tab, tab2, tab3);
                        }
                    },
                }
            }
        }
    }
}

proof fn lemma_product_from_keeps(
    s: Seq<Term>,
    i: int,
    parent: Term,
    tab: Filed,
    start: int,
    idx: Seq<int>,
    ar: spec_fn(Op, u64, u64) -> u64,
    key: spec_fn(u64) -> Option<[u8; 16]>,
    ds: Seq<bool>,
)
    requires
        own_in_table(idx, tab.len() as int),
    ensures
        product_from(s, i, parent, tab, start, idx, ar, key, ds) matches Some((tab2, _, _)) ==> keeps_slots(
            tab,
            tab2,
        ),
    decreases size_of(s), s.len() - i + 1,
{
    if 0 <= i < s.len() {
        lemma_size_of_member(s, i);
        lemma_hashed_keeps(s[i], tab, ar, key, ds);
        if let Some((c, tab1, ds1)) = hashed(s[i], tab, ar, key, ds) {
            let k = product_type(c);
            let (found, ds2) = find_filed(tab1, idx, start, parent, k, ds1);
            lemma_find_filed_in_table(tab1, idx, start, parent, k, ds1);
            match found {
                Some(j) => {
                    if let Some((v, ds3)) = product_merge(tab1[j].2, c, ar, ds2) {
                        let tab2 = tab1.update(j, (tab1[j].0, tab1[j].1, v));
                        lemma_product_from_keeps(s, i + 1, parent, tab2, start, idx, ar, key, ds3);
                        lemma_keeps_slots_trans(tab, tab1, tab2);
                        if let Some((tab3, _, _)) = product_from(s, i + 1, parent, tab2, start, idx, ar, key, ds3) {
                            lemma_keeps_slots_trans(tab, tab2, tab3);
                        }
                    }
                },
                None => {
                    let tab2 = tab1.push((parent, k, c));
                    let idx2 = idx.push(tab1.len() as int);
                    lemma_product_from_keeps(s, i + 1, parent, tab2, start, idx2, ar, key, ds2);
                    lemma_keeps_slots_trans(tab, tab1, tab2);
                    if let Some((tab3, _, _)) = product_from(s, i + 1, parent, tab2, start, idx2, ar, key, ds2) {
                        lemma_keeps_slots_trans(tab, tab2, tab3);
                    }
                },
            }
        }
    }
}

/// Simplification never drops a slot of the table nor changes the parent
/// or the type of one: only filed terms are combined in place, and new
/// slots are added.
pub proof fn lemma_hashed_keeps(
    t: Term,
    tab: Filed,
    ar: spec_fn(Op, u64, u64) -> u64,
    key: spec_fn(u64) -> Option<[u8; 16]>,
    ds: Seq<bool>,
)
    ensures
        hashed(t, tab, ar, key, ds) matches Some((_, tab2, _)) ==> keeps_slots(tab, tab2),
    decreases size(t), 0int,
{
    let none: Seq<int> = Seq::empty();
    assert(own_in_table(none, tab.len() as int));
    match t {
        Term::Add(s) => {
            lemma_sum_from_keeps(s, 0, t, tab, tab.len() as int, none, ar, key, ds);
        },
        Term::Mul(s) => {
            lemma_product_from_keeps(s, 0, t, tab, tab.len() as int, none, ar, key, ds);
        },
        Term::Sub { lhs, rhs } => {
            lemma_hashed_keeps(*lhs, tab, ar, key, ds);
            if let Some((l, tab1, ds1)) = hashed(*lhs, tab, ar, key, ds) {
                lemma_hashed_keeps(*rhs, tab1, ar, key, ds1);
                if let Some((r, tab2, ds2)) = hashed(*rhs, tab1, ar, key, ds1) {
                    lemma_keeps_slots_trans(tab, tab1, tab2);
                    lemma_difference_keeps(t, l, r, tab2, ar, key, ds2);
                    if let Some((_, tab3, _)) = difference(t, l, r, tab2, ar, key, ds2) {
                        lemma_keeps_slots_trans(tab, tab2, tab3);
                    }
                }
            }
        },
        Term::Div { num, den } => {
            lemma_hashed_keeps(*num, tab, ar, key, ds);
            if let Some((n, tab1, ds1)) = hashed(*num, tab, ar, key, ds) {
                lemma_hashed_keeps(*den, tab1, ar, key, ds1);
                if let Some((d, tab2, ds2)) = hashed(*den, tab1, ar, key, ds1) {
                    lemma_keeps_slots_trans(tab, tab1, tab2);
                }
            }
        },
        _ => {},
    }
}

/// The slots `own` are filed under `parent`.
pub open spec fn own_of(tab: Filed, own: Seq<int>, parent: Term) -> bool {
    forall|a: int| 0 <= a < own.len() ==> (#[trigger] tab[own[a]]).0 == parent
}

/// Every slot of `before` whose parent is larger than `n` nodes stands in
/// `after` unchanged.
pub open spec fn untouched_above(before: Filed, after: Filed, n: nat) -> bool {
    forall|j: int| 0 <= j < before.len() && size(before[j].0) > n ==> #[trigger] after[j] == before[j]
}

proof fn lemma_untouched_trans(a: Filed, b: Filed, c: Filed, n: nat, m: nat)
    requires
        untouched_above(a, b, n),
        untouched_above(b, c, m),
        keeps_slots(a, b),
        n <= m,
    ensures
        untouched_above(a, c, m),
{
    assert forall|j: int| 0 <= j < a.len() && size(a[j].0) > m implies #[trigger] c[j] == a[j] by {
        assert(b[j] == a[j]);
    }
}

/// A slot `find_slot` finds is filed under `parent`.
proof fn lemma_find_slot_parent(tab: Filed, j: int, end: int, parent: Term, k: FunctionType, ds: Seq<bool>)
    requires
        0 <= j,
    ensures
        find_slot(tab, j, end, parent, k, ds).0 matches Some(x) ==> 0 <= x < tab.len() && x < end
            && tab[x].0 == parent && same_type(tab[x].1, k),
    decreases end - j,
{
    if j < end && j < tab.len() {
        lemma_find_slot_parent(tab, j + 1, end, parent, k, later_decisions(ds));
    }
}

/// What `find_own` finds is one of the slots `own` of an equal type; where
/// it finds none, none of them is of an equal type.
proof fn lemma_find_own_member(tab: Filed, own: Seq<int>, i: int, k: FunctionType)
    requires
        0 <= i,
    ensures
        find_own(tab, own, i, k) matches Some(x) ==> exists|a: int|
            i <= a < own.len() && own[a] == x && same_type(tab[x].1, k),
        find_own(tab, own, i, k) is None ==> forall|a: int|
            i <= a < own.len() ==> !same_type(#[trigger] tab[own[a]].1, k),
    decreases own.len() - i,
{
    if i < own.len() {
        lemma_find_own_member(tab, own, i + 1, k);
    }
}

/// A slot `find_filed` finds is filed under `parent`.
proof fn lemma_find_filed_parent(
    tab: Filed,
    own: Seq<int>,
    start: int,
    parent: Term,
    k: FunctionType,
    ds: Seq<bool>,
)
    requires
        own_of(tab, own, parent),
    ensures
        find_filed(tab, own, start, parent, k, ds).0 matches Some(x) ==> tab[x].0 == parent,
{
    lemma_find_own_member(tab, own, 0, k);
    lemma_find_slot_parent(tab, 0, start, parent, k, ds);
}

proof fn lemma_file_from_frames(
    s: Seq<Term>,
    i: int,
    parent: Term,
    tab: Filed,
    start: int,
    idx: Seq<int>,
    own: Seq<int>,
    key: spec_fn(u64) -> Option<[u8; 16]>,
    ds: Seq<bool>,
)
    requires
        own_in_table(own, tab.len() as int),
        own_of(tab, own, parent),
    ensures
        file_from(s, i, parent, tab, start, idx, own, key, ds) matches Some((tab2, _, own2, _))
            ==> untouched_above(tab, tab2, size(parent)) && keeps_slots(tab, tab2) && own_of(tab2, own2, parent)
            && own_in_table(own2, tab2.len() as int),
    decreases s.len() - i,
{
    if 0 <= i < s.len() {
        if let Some(k) = difference_type(s[i], key) {
            let (found, ds1) = find_filed(tab, own, start, parent, k, ds);
            lemma_find_filed_in_table(tab, own, start, parent, k, ds);
            lemma_find_filed_parent(tab, own, start, parent, k, ds);
            match found {
                Some(j) => {
                    let tab1 = tab.update(j, (tab[j].0, tab[j].1, s[i]));
                    lemma_file_from_frames(s, i + 1, parent, tab1, start, idx.push(j), own, key, ds1);
                    if let Some((tab2, _, _, _)) = file_from(s, i + 1, parent, tab1, start, idx.push(j), own, key, ds1) {
                        lemma_untouched_trans(tab, tab1, tab2, size(parent), size(parent));
                        lemma_keeps_slots_trans(tab, tab1, tab2);
                    }
                },
                None => {
                    let tab1 = tab.push((parent, k, s[i]));
                    let idx1 = idx.push(tab.len() as int);
                    let own1 = own.push(tab.len() as int);
                    lemma_file_from_frames(s, i + 1, parent, tab1, start, idx1, own1, key, ds1);
                    if let Some((tab2, _, _, _)) = file_from(s, i + 1, parent, tab1, start, idx1, own1, key, ds1) {
                        lemma_untouched_trans(tab, tab1, tab2, size(parent), size(parent));
                        lemma_keeps_slots_trans(tab, tab1, tab2);
                    }
                },
            }
        }
    }
}

proof fn lemma_subtract_from_frames(
    s: Seq<Term>,
    i: int,
    parent: Term,
    tab: Filed,
    start: int,
    idx: Seq<int>,
    own: Seq<int>,
    ar: spec_fn(Op, u64, u64) -> u64,
    key: spec_fn(u64) -> Option<[u8; 16]>,
    ds: Seq<bool>,
)
    requires
        own_in_table(own, tab.len() as int),
        own_of(tab, own, parent),
    ensures
        subtract_from(s, i, parent, tab, start, idx, own, ar, key, ds) matches Some((tab2, _, _, _))
            ==> untouched_above(tab, tab2, size(parent)),
    decreases s.len() - i,
{
    if 0 <= i < s.len() {
        if let Some(k) = difference_type(s[i], key) {
            let (found, ds1) = find_filed(tab, own, start, parent, k, ds);
            lemma_find_filed_in_table(tab, own, start, parent, k, ds);
            lemma_find_filed_parent(tab, own, start, parent, k, ds);
            match found {
                Some(j) => {
                    if let Some(v) = difference_merge(tab[j].2, s[i], ar) {
                        let tab1 = tab.update(j, (tab[j].0, tab[j].1, v));
                        lemma_subtract_from_frames(s, i + 1, parent, tab1, start, idx, own, ar, key, ds1);
                        if let Some((tab2, _, _, _)) = subtract_from(s, i + 1, parent, tab1, start, idx, own, ar, key, ds1) {
                            lemma_untouched_trans(tab, tab1, tab2, size(parent), size(parent));
                        }
                    }
                },
                None => {
                    let tab1 = tab.push((parent, k, s[i]));
                    let idx1 = idx.push(tab.len() as int);
                    let own1 = own.push(tab.len() as int);
                    lemma_subtract_from_frames(s, i + 1, parent, tab1, start, idx1, own1, ar, key, ds1);
                    if let Some((tab2, _, _, _)) = subtract_from(s, i + 1, parent, tab1, start, idx1, own1, ar, key, ds1) {
                        lemma_untouched_trans(tab, tab1, tab2, size(parent), size(parent));
                    }
                },
            }
        }
    }
}

proof fn lemma_signed_step_frames(
    c: Term,
    sign: u64,
    parent: Term,
    tab: Filed,
    start: int,
    idx: Seq<int>,
    own: Seq<int>,
    ar: spec_fn(Op, u64, u64) -> u64,
    key: spec_fn(u64) -> Option<[u8; 16]>,
    ds: Seq<bool>,
)
    requires
        own_in_table(own, tab.len() as int),
        own_of(tab, own, parent),
    ensures
        signed_step(c, sign, parent, tab, start, idx, own, ar, key, ds) matches Some((tab2, _, own2, _))
            ==> untouched_above(tab, tab2, size(parent)) && keeps_slots(tab, tab2) && own_of(tab2, own2, parent)
            && own_in_table(own2, tab2.len() as int),
{
    if let Some(k) = difference_type(c, key) {
        lemma_find_filed_in_table(tab, own, start, parent, k, ds);
        lemma_find_filed_parent(tab, own, start, parent, k, ds);
    }
}

proof fn lemma_difference_frames(
    parent: Term,
    l: Term,
    r: Term,
    tab: Filed,
    ar: spec_fn(Op, u64, u64) -> u64,
    key: spec_fn(u64) -> Option<[u8; 16]>,
    ds: Seq<bool>,
)
    ensures
        difference(parent, l, r, tab, ar, key, ds) matches Some((_, tab2, _)) ==> untouched_above(
            tab,
            tab2,
            size(parent),
        ),
{
    let none: Seq<int> = Seq::empty();
    let start = tab.len() as int;
    assert(own_in_table(none, tab.len() as int));
    assert(own_of(tab, none, parent));
    if let (Term::S { f: lf, .. }, Term::S { f: rf, .. }) = (l, r) {
        match (*lf, *rf) {
            (Term::Add(lv), Term::Add(rv)) => {
                let d = later_decisions(ds);
                lemma_file_from_frames(lv, 0, parent, tab, start, none, none, key, d);
                if let Some((tab1, idx1, own1, ds1)) = file_from(lv, 0, parent, tab, start, none, none, key, d) {
                    lemma_subtract_from_frames(rv, 0, parent, tab1, start, idx1, own1, ar, key, ds1);
                    if let Some((tab2, _, _, _)) = subtract_from(rv, 0, parent, tab1, start, idx1, own1, ar, key, ds1) {
                        lemma_untouched_trans(tab, tab1, tab2, size(parent), size(parent));
                    }
                }
            },
            (Term::Add(lv), Term::Sub { lhs: a, rhs: b }) => {
                lemma_file_from_frames(lv, 0, parent, tab, start, none, none, key, ds);
                if let Some((tab1, idx1, own1, ds1)) = file_from(lv, 0, parent, tab, start, none, none, key, ds) {
                    lemma_signed_step_frames(*a, ONE, parent, tab1, start, idx1, own1, ar, key, ds1);
                    if let Some((tab2, idx2, own2, ds2)) = signed_step(*a, ONE, parent, tab1, start, idx1, own1, ar, key, ds1) {
                        lemma_untouched_trans(tab, tab1, tab2, size(parent), size(parent));
                        lemma_keeps_slots_trans(tab, tab1, tab2);
                        lemma_signed_step_frames(*b, NEG_ONE, parent, tab2, start, idx2, own2, ar, key, ds2);
                        if let Some((tab3, _, _, _)) = signed_step(*b, NEG_ONE, parent, tab2, start, idx2, own2, ar, key, ds2) {
                            lemma_untouched_trans(tab, tab2, tab3, size(parent), size(parent));
                        }
                    }
                }
            },
            _ => {},
        }
    }
}

proof fn lemma_sum_from_frames(
    s: Seq<Term>,
    i: int,
    parent: Term,
    tab: Filed,
    start: int,
    idx: Seq<int>,
    ar: spec_fn(Op, u64, u64) -> u64,
    key: spec_fn(u64) -> Option<[u8; 16]>,
    ds: Seq<bool>,
)
    requires
        own_in_table(idx, tab.len() as int),
        own_of(tab, idx, parent),
        size_of(s) < size(parent),
    ensures
        sum_from(s, i, parent, tab, start, idx, ar, key, ds) matches Some((tab2, _, _)) ==> untouched_above(
            tab,
            tab2,
            size(parent),
        ),
    decreases size_of(s), s.len() - i + 1,
{
    if 0 <= i < s.len() {
        lemma_size_of_member(s, i);
        lemma_hashed_keeps(s[i], tab, ar, key, ds);
        lemma_hashed_frames(s[i], tab, ar, key, ds);
        if let Some((c, tab1, ds1)) = hashed(s[i], tab, ar, key, ds) {
            assert(untouched_above(tab, tab1, size(parent)));
            if let Some(k) = sum_type(c, key) {
                let (found, ds2) = find_filed(tab1, idx, start, parent, k, ds1);
                lemma_find_filed_in_table(tab1, idx, start, parent, k, ds1);
                lemma_find_filed_parent(tab1, idx, start, parent, k, ds1);
                match found {
                    Some(j) => {
                        if let Some(v) = sum_merge(tab1[j].2, c, ar) {
                            let tab2 = tab1.update(j, (tab1[j].0, tab1[j].1, v));
                            lemma_sum_from_frames(s, i + 1, parent, tab2, start, idx, ar, key, ds2);
                            lemma_keeps_slots_trans(tab, tab1, tab2);
                            lemma_untouched_trans(tab, tab1, tab2, size(parent), size(parent));
                            if let Some((tab3, _, _)) = sum_from(s, i + 1, parent, tab2, start, idx, ar, key, ds2) {
                                lemma_untouched_trans(tab, tab2, tab3, size(parent), size(parent));
                            }
                        }
                    },
                    None => {
                        let tab2 = tab1.push((parent, k, c));
                        let idx2 = idx.push(tab1.len() as int);
                        lemma_sum_from_frames(s, i + 1, parent, tab2, start, idx2, ar, key, ds2);
                        lemma_keeps_slots_trans(tab, tab1, tab2);
                        lemma_untouched_trans(tab, tab1, tab2, size(parent), size(parent));
                        if let Some((tab3, _, _)) = sum_from(s, i + 1, parent, tab2, start, idx2, ar, key, ds2) {
                            lemma_untouched_trans(tab, tab2, tab3, size(parent), size(parent));
                        }
                    },
                }
            }
        }
    }
}

proof fn lemma_product_from_frames(
    s: Seq<Term>,
    i: int,
    parent: Term,
    tab: Filed,
    start: int,
    idx: Seq<int>,
    ar: spec_fn(Op, u64, u64) -> u64,
    key: spec_fn(u64) -> Option<[u8; 16]>,
    ds: Seq<bool>,
)
    requires
        own_in_table(idx, tab.len() as int),
        own_of(tab, idx, parent),
        size_of(s) < size(parent),
    ensures
        product_from(s, i, parent, tab, start, idx, ar, key, ds) matches Some((tab2, _, _))
            ==> untouched_above(tab, tab2, size(parent)),
    decreases size_of(s), s.len() - i + 1,
{
    if 0 <= i < s.len() {
        lemma_size_of_member(s, i);
        lemma_hashed_keeps(s[i], tab, ar, key, ds);
        lemma_hashed_frames(s[i], tab, ar, key, ds);
        if let Some((c, tab1, ds1)) = hashed(s[i], tab, ar, key, ds) {
            assert(untouched_above(tab, tab1, size(parent)));
            let k = product_type(c);
            let (found, ds2) = find_filed(tab1, idx, start, parent, k, ds1);
            lemma_find_filed_in_table(tab1, idx, start, parent, k, ds1);
            lemma_find_filed_parent(tab1, idx, start, parent, k, ds1);
            match found {
                Some(j) => {
                    if let Some((v, ds3)) = product_merge(tab1[j].2, c, ar, ds2) {
                        let tab2 = tab1.update(j, (tab1[j].0, tab1[j].1, v));
                        lemma_product_from_frames(s, i + 1, parent, tab2, start, idx, ar, key, ds3);
                        lemma_keeps_slots_trans(tab, tab1, tab2);
                        lemma_untouched_trans(tab, tab1, tab2, size(parent), size(parent));
                        if let Some((tab3, _, _)) = product_from(s, i + 1, parent, tab2, start, idx, ar, key, ds3) {
                            lemma_untouched_trans(tab, tab2, tab3, size(parent), size(parent));
                        }
                    }
                },
                None => {
                    let tab2 = tab1.push((parent, k, c));
                    let idx2 = idx.push(tab1.len() as int);
                    lemma_product_from_frames(s, i + 1, parent, tab2, start, idx2, ar, key, ds2);
                    lemma_keeps_slots_trans(tab, tab1, tab2);
                    lemma_untouched_trans(tab, tab1, tab2, size(parent), size(parent));
                    if let Some((tab3, _, _)) = product_from(s, i + 1, parent, tab2, start, idx2, ar, key, ds2) {
                        lemma_untouched_trans(tab, tab2, tab3, size(parent), size(parent));
                    }
                },
            }
        }
    }
}

/// Simplifying `t` changes no slot filed under a node larger than `t`:
/// only `t` and the nodes below it look slots up.
pub proof fn lemma_hashed_frames(
    t: Term,
    tab: Filed,
    ar: spec_fn(Op, u64, u64) -> u64,
    key: spec_fn(u64) -> Option<[u8; 16]>,
    ds: Seq<bool>,
)
    ensures
        hashed(t, tab, ar, key, ds) matches Some((_, tab2, _)) ==> untouched_above(tab, tab2, size(t)),
    decreases size(t), 0int,
{
    let none: Seq<int> = Seq::empty();
    assert(own_in_table(none, tab.len() as int));
    assert(own_of(tab, none, t));
    match t {
        Term::Add(s) => {
            lemma_sum_from_frames(s, 0, t, tab, tab.len() as int, none, ar, key, ds);
        },
        Term::Mul(s) => {
            lemma_product_from_frames(s, 0, t, tab, tab.len() as int, none, ar, key, ds);
        },
        Term::Sub { lhs, rhs } => {
            lemma_hashed_keeps(*lhs, tab, ar, key, ds);
            lemma_hashed_frames(*lhs, tab, ar, key, ds);
            if let Some((l, tab1, ds1)) = hashed(*lhs, tab, ar, key, ds) {
                lemma_hashed_keeps(*rhs, tab1, ar, key, ds1);
                lemma_hashed_frames(*rhs, tab1, ar, key, ds1);
                if let Some((r, tab2, ds2)) = hashed(*rhs, tab1, ar, key, ds1) {
                    lemma_untouched_trans(tab, tab1, tab2, size(*lhs), size(t));
                    lemma_keeps_slots_trans(tab, tab1, tab2);
                    lemma_difference_frames(t, l, r, tab2, ar, key, ds2);
                    lemma_hashed_keeps(t, tab, ar, key, ds);
                    if let Some((_, tab3, _)) = difference(t, l, r, tab2, ar, key, ds2) {
                        lemma_untouched_trans(tab, tab2, tab3, size(t), size(t));
                    }
                }
            }
        },
        Term::Div { num, den } => {
            lemma_hashed_keeps(*num, tab, ar, key, ds);
            lemma_hashed_frames(*num, tab, ar, key, ds);
            if let Some((n, tab1, ds1)) = hashed(*num, tab, ar, key, ds) {
                lemma_hashed_frames(*den, tab1, ar, key, ds1);
                if let Some((d, tab2, ds2)) = hashed(*den, tab1, ar, key, ds1) {
                    lemma_untouched_trans(tab, tab1, tab2, size(*num), size(t));
                }
            }
        },
        _ => {},
    }
}

/// The slots `idx` are of pairwise unlike types: a node files at most one
/// slot for each type.
pub open spec fn distinct_types(tab: Filed, idx: Seq<int>) -> bool {
    forall|a: int, b: int|
        #![trigger idx[a], idx[b]]
        0 <= a < idx.len() && 0 <= b < idx.len() && a != b ==> !same_type(tab[idx[a]].1, tab[idx[b]].1)
}

/// The slot holds a constant, or a scaled term of the type it is filed as
/// among the terms of a sum.
pub open spec fn fits_sum(slot: (Term, FunctionType, Term), key: spec_fn(u64) -> Option<[u8; 16]>) -> bool {
    ||| slot.2 is Constant
    ||| (sum_type(slot.2, key) matches Some(k) && same_type(k, slot.1))
}

/// The slot holds a factor of the type it is filed as in a product.
pub open spec fn fits_product(slot: (Term, FunctionType, Term)) -> bool {
    same_type(product_type(slot.2), slot.1)
}

/// `==` on types is an equivalence.
proof fn lemma_same_type_equivalence(a: FunctionType, b: FunctionType, c: FunctionType)
    ensures
        same_type(a, a),
        same_type(a, b) == same_type(b, a),
        same_type(a, b) && same_type(b, c) ==> same_type(a, c),
{
}

proof fn lemma_sum_from_distinct(
    s: Seq<Term>,
    i: int,
    parent: Term,
    tab: Filed,
    start: int,
    idx: Seq<int>,
    ar: spec_fn(Op, u64, u64) -> u64,
    key: spec_fn(u64) -> Option<[u8; 16]>,
    ds: Seq<bool>,
)
    requires
        own_in_table(idx, tab.len() as int),
        own_of(tab, idx, parent),
        size_of(s) < size(parent),
        start <= tab.len(),
        forall|a: int| 0 <= a < idx.len() ==> start <= #[trigger] idx[a],
        distinct_types(tab, idx),
        forall|a: int| 0 <= a < idx.len() ==> fits_sum(#[trigger] tab[idx[a]], key),
    ensures
        sum_from(s, i, parent, tab, start, idx, ar, key, ds) matches Some((tab2, idx2, _)) ==> (
        distinct_types(tab2, idx2) && forall|a: int|
            0 <= a < idx2.len() ==> fits_sum(#[trigger] tab2[idx2[a]], key)),
    decreases size_of(s), s.len() - i + 1,
{
    if 0 <= i < s.len() {
        lemma_size_of_member(s, i);
        lemma_hashed_keeps(s[i], tab, ar, key, ds);
        lemma_hashed_frames(s[i], tab, ar, key, ds);
        if let Some((c, tab1, ds1)) = hashed(s[i], tab, ar, key, ds) {
            assert forall|a: int| 0 <= a < idx.len() implies #[trigger] tab1[idx[a]] == tab[idx[a]] by {
                assert(tab[idx[a]].0 == parent);
            }
            assert(distinct_types(tab1, idx));
            if let Some(k) = sum_type(c, key) {
                let (found, ds2) = find_filed(tab1, idx, start, parent, k, ds1);
                lemma_find_filed_in_table(tab1, idx, start, parent, k, ds1);
                lemma_find_own_member(tab1, idx, 0, k);
                lemma_find_slot_parent(tab1, 0, start, parent, k, ds1);
                match found {
                    Some(j) => {
                        if let Some(v) = sum_merge(tab1[j].2, c, ar) {
                            let tab2 = tab1.update(j, (tab1[j].0, tab1[j].1, v));
                            lemma_same_type_equivalence(tab1[j].1, k, k);
                            assert forall|a: int| 0 <= a < idx.len() implies fits_sum(
                                #[trigger] tab2[idx[a]],
                                key,
                            ) by {
                                if idx[a] != j {
                                    assert(fits_sum(tab1[idx[a]], key));
                                }
                            }
                            assert(distinct_types(tab2, idx));
                            lemma_sum_from_distinct(s, i + 1, parent, tab2, start, idx, ar, key, ds2);
                        }
                    },
                    None => {
                        let tab2 = tab1.push((parent, k, c));
                        let n = tab1.len() as int;
                        let idx2 = idx.push(n);
                        lemma_same_type_equivalence(k, k, k);
                        assert forall|a: int| 0 <= a < idx2.len() implies fits_sum(
                            #[trigger] tab2[idx2[a]],
                            key,
                        ) by {
                            if a < idx.len() {
                                assert(fits_sum(tab1[idx[a]], key));
                            }
                        }
                        assert forall|a: int, b: int|
                            #![trigger idx2[a], idx2[b]]
                            0 <= a < idx2.len() && 0 <= b < idx2.len() && a != b implies !same_type(
                            tab2[idx2[a]].1,
                            tab2[idx2[b]].1,
                        ) by {
                            if a < idx.len() && b < idx.len() {
                                assert(!same_type(tab1[idx[a]].1, tab1[idx[b]].1));
                            } else if a < idx.len() {
                                assert(!same_type(tab1[idx[a]].1, k));
                                lemma_same_type_equivalence(tab1[idx[a]].1, k, k);
                            } else {
                                assert(!same_type(tab1[idx[b]].1, k));
                                lemma_same_type_equivalence(tab1[idx[b]].1, k, k);
                            }
                        }
                        lemma_sum_from_distinct(s, i + 1, parent, tab2, start, idx2, ar, key, ds2);
                    },
                }
            }
        }
    }
}

proof fn lemma_product_from_distinct(
    s: Seq<Term>,
    i: int,
    parent: Term,
    tab: Filed,
    start: int,
    idx: Seq<int>,
    ar: spec_fn(Op, u64, u64) -> u64,
    key: spec_fn(u64) -> Option<[u8; 16]>,
    ds: Seq<bool>,
)
    requires
        own_in_table(idx, tab.len() as int),
        own_of(tab, idx, parent),
        size_of(s) < size(parent),
        start <= tab.len(),
        forall|a: int| 0 <= a < idx.len() ==> start <= #[trigger] idx[a],
        distinct_types(tab, idx),
        forall|a: int| 0 <= a < idx.len() ==> fits_product(#[trigger] tab[idx[a]]),
    ensures
        product_from(s, i, parent, tab, start, idx, ar, key, ds) matches Some((tab2, idx2, _)) ==> (
        distinct_types(tab2, idx2) && forall|a: int|
            0 <= a < idx2.len() ==> fits_product(#[trigger] tab2[idx2[a]])),
    decreases size_of(s), s.len() - i + 1,
{
    if 0 <= i < s.len() {
        lemma_size_of_member(s, i);
        lemma_hashed_keeps(s[i], tab, ar, key, ds);
        lemma_hashed_frames(s[i], tab, ar, key, ds);
        if let Some((c, tab1, ds1)) = hashed(s[i], tab, ar, key, ds) {
            assert forall|a: int| 0 <= a < idx.len() implies #[trigger] tab1[idx[a]] == tab[idx[a]] by {
                assert(tab[idx[a]].0 == parent);
            }
            assert(distinct_types(tab1, idx));
            let k = product_type(c);
            let (found, ds2) = find_filed(tab1, idx, start, parent, k, ds1);
            lemma_find_filed_in_table(tab1, idx, start, parent, k, ds1);
            lemma_find_own_member(tab1, idx, 0, k);
            lemma_find_slot_parent(tab1, 0, start, parent, k, ds1);
            match found {
                Some(j) => {
                    if let Some((v, ds3)) = product_merge(tab1[j].2, c, ar, ds2) {
                        let tab2 = tab1.update(j, (tab1[j].0, tab1[j].1, v));
                        lemma_same_type_equivalence(tab1[j].1, k, k);
                        lemma_same_type_equivalence(product_type(tab1[j].2), tab1[j].1, k);
                        assert forall|a: int| 0 <= a < idx.len() implies fits_product(
                            #[trigger] tab2[idx[a]],
                        ) by {
                            if idx[a] != j {
                                assert(fits_product(tab1[idx[a]]));
                            }
                        }
                        assert(distinct_types(tab2, idx));
                        lemma_product_from_distinct(s, i + 1, parent, tab2, start, idx, ar, key, ds3);
                    }
                },
                None => {
                    let tab2 = tab1.push((parent, k, c));
                    let n = tab1.len() as int;
                    let idx2 = idx.push(n);
                    lemma_same_type_equivalence(k, k, k);
                    assert forall|a: int| 0 <= a < idx2.len() implies fits_product(
                        #[trigger] tab2[idx2[a]],
                    ) by {
                        if a < idx.len() {
                            assert(fits_product(tab1[idx[a]]));
                        }
                    }
                    assert forall|a: int, b: int|
                        #![trigger idx2[a], idx2[b]]
                        0 <= a < idx2.len() && 0 <= b < idx2.len() && a != b implies !same_type(
                        tab2[idx2[a]].1,
                        tab2[idx2[b]].1,
                    ) by {
                        if a < idx.len() && b < idx.len() {
                            assert(!same_type(tab1[idx[a]].1, tab1[idx[b]].1));
                        } else if a < idx.len() {
                            assert(!same_type(tab1[idx[a]].1, k));
                            lemma_same_type_equivalence(tab1[idx[a]].1, k, k);
                        } else {
                            assert(!same_type(tab1[idx[b]].1, k));
                            lemma_same_type_equivalence(tab1[idx[b]].1, k, k);
                        }
                    }
                    lemma_product_from_distinct(s, i + 1, parent, tab2, start, idx2, ar, key, ds2);
                },
            }
        }
    }
}

/// The terms of a scaled sum or product `1 * (...)^1`; none for another
/// term.
pub open spec fn inner_terms(r: Term) -> Seq<Term> {
    match r {
        Term::S { f, .. } => match *f {
            Term::Add(v) => v,
            Term::Mul(v) => v,
            _ => Seq::empty(),
        },
        _ => Seq::empty(),
    }
}

/// No two of the terms are scaled terms of equal types (the same
/// fingerprint of the function and equal powers): no like terms are left.
pub open spec fn unlike_terms(v: Seq<Term>, key: spec_fn(u64) -> Option<[u8; 16]>) -> bool {
    forall|a: int, b: int|
        #![trigger v[a], v[b]]
        0 <= a < v.len() && 0 <= b < v.len() && a != b && v[a] is S && v[b] is S ==> sum_type(v[a], key)
            is Some && sum_type(v[b], key) is Some && !same_type(
            sum_type(v[a], key)->0,
            sum_type(v[b], key)->0,
        )
}

/// No two of the factors are of equal types: at most one constant, and no
/// two scaled terms of the same fingerprint of the function.
pub open spec fn unlike_factors(v: Seq<Term>) -> bool {
    forall|a: int, b: int|
        #![trigger v[a], v[b]]
        0 <= a < v.len() && 0 <= b < v.len() && a != b ==> !same_type(product_type(v[a]), product_type(v[b]))
}

/// A simplified sum keeps no like terms: whatever the outcome of the
/// allocation tests, no two of its terms are scaled terms of equal types.
/// (Constants can remain side by side: terms that cancel leave `0` in the
/// slot of their type.)
pub proof fn lemma_sum_has_no_like_terms(
    s: Seq<Term>,
    tab: Filed,
    ar: spec_fn(Op, u64, u64) -> u64,
    key: spec_fn(u64) -> Option<[u8; 16]>,
    ds: Seq<bool>,
)
    ensures
        (match result_of(hashed(Term::Add(s), tab, ar, key, ds)) {
            Some(r) => unlike_terms(inner_terms(r), key),
            None => true,
        }),
{
    let t = Term::Add(s);
    let none: Seq<int> = Seq::empty();
    assert(own_of(tab, none, t));
    lemma_sum_from_distinct(s, 0, t, tab, tab.len() as int, none, ar, key, ds);
    if let Some((tab2, idx, _)) = sum_from(s, 0, t, tab, tab.len() as int, none, ar, key, ds) {
        let v = filed(tab2, idx);
        assert(inner_terms(as_sum(tab2, idx)) == v);
        assert forall|a: int, b: int|
            #![trigger v[a], v[b]]
            0 <= a < v.len() && 0 <= b < v.len() && a != b && v[a] is S && v[b] is S implies sum_type(
            v[a],
            key,
        ) is Some && sum_type(v[b], key) is Some && !same_type(
            sum_type(v[a], key)->0,
            sum_type(v[b], key)->0,
        ) by {
            assert(fits_sum(tab2[idx[a]], key));
            assert(fits_sum(tab2[idx[b]], key));
            assert(!same_type(tab2[idx[a]].1, tab2[idx[b]].1));
            let ka = sum_type(v[a], key)->0;
            let kb = sum_type(v[b], key)->0;
            lemma_same_type_equivalence(tab2[idx[a]].1, ka, kb);
            lemma_same_type_equivalence(ka, tab2[idx[a]].1, kb);
            lemma_same_type_equivalence(tab2[idx[a]].1, kb, tab2[idx[b]].1);
            lemma_same_type_equivalence(kb, tab2[idx[b]].1, kb);
        }
    }
}

/// A simplified product keeps no like factors: whatever the outcome of the
/// allocation tests, no two of its factors are of equal types, so it holds
/// at most one constant and no two scaled terms of one function.
pub proof fn lemma_product_has_no_like_factors(
    s: Seq<Term>,
    tab: Filed,
    ar: spec_fn(Op, u64, u64) -> u64,
    key: spec_fn(u64) -> Option<[u8; 16]>,
    ds: Seq<bool>,
)
    ensures
        (match result_of(hashed(Term::Mul(s), tab, ar, key, ds)) {
            Some(r) => unlike_factors(inner_terms(r)),
            None => true,
        }),
{
    let t = Term::Mul(s);
    let none: Seq<int> = Seq::empty();
    assert(own_of(tab, none, t));
    lemma_product_from_distinct(s, 0, t, tab, tab.len() as int, none, ar, key, ds);
    if let Some((tab2, idx, _)) = product_from(s, 0, t, tab, tab.len() as int, none, ar, key, ds) {
        let v = filed(tab2, idx);
        assert(inner_terms(as_product(tab2, idx)) == v);
        assert forall|a: int, b: int|
            #![trigger v[a], v[b]]
            0 <= a < v.len() && 0 <= b < v.len() && a != b implies !same_type(
            product_type(v[a]),
            product_type(v[b]),
        ) by {
            assert(fits_product(tab2[idx[a]]));
            assert(fits_product(tab2[idx[b]]));
            assert(!same_type(tab2[idx[a]].1, tab2[idx[b]].1));
            let ka = product_type(v[a]);
            let kb = product_type(v[b]);
            lemma_same_type_equivalence(tab2[idx[a]].1, ka, kb);
            lemma_same_type_equivalence(ka, tab2[idx[a]].1, kb);
            lemma_same_type_equivalence(tab2[idx[a]].1, kb, tab2[idx[b]].1);
            lemma_same_type_equivalence(kb, tab2[idx[b]].1, kb);
        }
    }
}

/// The slots a sum or a product files are of pairwise unlike types: at
/// most one slot for each (node, type), whatever the outcome of the
/// allocation tests.
pub proof fn lemma_one_slot_per_type(
    s: Seq<Term>,
    tab: Filed,
    ar: spec_fn(Op, u64, u64) -> u64,
    key: spec_fn(u64) -> Option<[u8; 16]>,
    ds: Seq<bool>,
)
    ensures
        (match sum_from(s, 0, Term::Add(s), tab, tab.len() as int, Seq::empty(), ar, key, ds) {
            Some((tab2, idx, _)) => distinct_types(tab2, idx),
            None => true,
        }),
        (match product_from(s, 0, Term::Mul(s), tab, tab.len() as int, Seq::empty(), ar, key, ds) {
            Some((tab2, idx, _)) => distinct_types(tab2, idx),
            None => true,
        }),
{
    let none: Seq<int> = Seq::empty();
    assert(own_of(tab, none, Term::Add(s)));
    assert(own_of(tab, none, Term::Mul(s)));
    lemma_sum_from_distinct(s, 0, Term::Add(s), tab, tab.len() as int, none, ar, key, ds);
    lemma_product_from_distinct(s, 0, Term::Mul(s), tab, tab.len() as int, none, ar, key, ds);
}

/// Positions held as `usize`, as integers.
pub open spec fn positions(v: Seq<usize>) -> Seq<int> {
    Seq::new(v.len(), |k: int| v[k] as int)
}

/// Every position of `idx` is a slot of the table.
pub open spec fn in_table(idx: Seq<usize>, len: nat) -> bool {
    forall|k: int| 0 <= k < idx.len() ==> #[trigger] idx[k] < len
}

/// Copies the terms in the slots `idx`, each into an `Arc`.
fn filed_arcs<'f>(table: &Vec<Slot<'f>>, idx: &Vec<usize>) -> (r: Vec<Arc<Function<'f>>>)
    requires
        in_table(idx@, table@.len()),
    ensures
        terms_of(r@) == filed(slot_views(table@), positions(idx@)),
{
    let ghost want = filed(slot_views(table@), positions(idx@));
    let mut r: Vec<Arc<Function<'f>>> = Vec::new();
    let mut k: usize = 0;
    while k < idx.len()
        invariant
            k <= idx@.len(),
            in_table(idx@, table@.len()),
            want == filed(slot_views(table@), positions(idx@)),
            terms_of(r@) == want.take(k as int),
        decreases idx@.len() - k,
    {
        let v = table[idx[k]].value.clone();
        let ghost before = terms_of(r@);
        r.push(Arc::new(v));
        proof {
            assert(idx@[k as int] < table@.len());
            assert(want[k as int] == table@[idx@[k as int] as int].value@);
            assert(terms_of(r@) =~= before.push(v@));
            assert(want.take(k + 1) =~= want.take(k as int).push(want[k as int]));
        }
        k = k + 1;
    }
    proof {
        assert(want.take(idx@.len() as int) =~= want);
    }
    r
}

/// The difference of two scaled terms of the function `f`
/// (`scaled_difference`).
fn scaled_difference_of<'f, A: Fn(Op, u64, u64) -> u64>(
    f: &Arc<Function<'f>>,
    lm: u64,
    rm: u64,
    lp: u64,
    arith: &A,
) -> (r: Function<'f>)
    requires
        is_arithmetic(*arith),
    ensures
        r@ == scaled_difference(f@, lm, rm, lp, arithmetic(*arith)),
{
    if bits_eq(lm, rm) {
        Function::Constant(ZERO)
    } else {
        Function::S { f: clone_arc(f), m: calc(arith, Op::Minus, lm, rm), p: lp }
    }
}

/// The simplification of the quotient of the simplified terms `n` and `d`
/// (`quotient`).
fn quotient_of<'f, A: Fn(Op, u64, u64) -> u64, K: Fn(u64) -> Option<[u8; 16]>>(
    n: Function<'f>,
    d: Function<'f>,
    arith: &A,
    power_key: &K,
) -> (r: Option<Function<'f>>)
    requires
        is_arithmetic(*arith),
        is_power_key(*power_key),
    ensures
        view_of(r) == quotient(n@, d@, arithmetic(*arith), power_keys(*power_key)),
{
    let ghost tn = n@;
    let ghost td = d@;
    let ghost ar = arithmetic(*arith);
    let ghost key = power_keys(*power_key);
    let nt = sum_type_of(&n, power_key);
    let dt = sum_type_of(&d, power_key);
    match (nt, dt) {
        (Some(nt), Some(dt)) => {
            if types_equal(&nt, &dt) {
                match (&n, &d) {
                    (Function::Constant(a), Function::Constant(b)) => Some(
                        Function::Constant(calc(arith, Op::Divide, *a, *b)),
                    ),
                    (Function::S { f, m: nm, p: np }, Function::S { m: dm, p: dp, .. }) => {
                        let x = calc(arith, Op::Divide, *nm, *dm);
                        let y = calc(arith, Op::Minus, *np, *dp);
                        Some(Function::S { f: clone_arc(f), m: x, p: y })
                    },
                    _ => None,
                }
            } else {
                let num = Function::S { f: Arc::new(n), m: ONE, p: ONE };
                let den = Function::S { f: Arc::new(d), m: ONE, p: ONE };
                proof {
                    assert(num@ == Term::S { f: Box::new(tn), m: ONE, p: ONE });
                    assert(den@ == Term::S { f: Box::new(td), m: ONE, p: ONE });
                }
                let q = Function::Div { num: Arc::new(num), den: Arc::new(den) };
                proof {
                    assert(q@ == Term::Div { num: Box::new(num@), den: Box::new(den@) });
                }
                let r = Function::S { f: Arc::new(q), m: ONE, p: ONE };
                Some(r)
            }
        },
        _ => None,
    }
}


/// Files the terms of a difference's first sum under `parent`, as
/// `file_from` says; returns the decisions its lookups took.
fn file_terms<'f, K: Fn(u64) -> Option<[u8; 16]>>(
    parent: &Arc<Function<'f>>,
    terms: &Vec<Arc<Function<'f>>>,
    table: &mut Vec<Slot<'f>>,
    start: usize,
    idx: &mut Vec<usize>,
    own: &mut Vec<usize>,
    power_key: &K,
) -> (dec: Ghost<Seq<bool>>)
    requires
        is_power_key(*power_key),
        valid_slots(old(table)@),
        start <= old(table)@.len(),
        in_table(old(idx)@, old(table)@.len()),
        in_table(old(own)@, old(table)@.len()),
        forall|ds: Seq<bool>| #[trigger]
            file_from(
                terms_of(terms@),
                0,
                parent@,
                slot_views(old(table)@),
                start as int,
                positions(old(idx)@),
                positions(old(own)@),
                power_keys(*power_key),
                ds,
            ) is Some,
    ensures
        valid_slots(final(table)@),
        final(table)@.len() >= old(table)@.len(),
        in_table(final(idx)@, final(table)@.len()),
        in_table(final(own)@, final(table)@.len()),
        forall|ds: Seq<bool>| #[trigger]
            file_from(
                terms_of(terms@),
                0,
                parent@,
                slot_views(old(table)@),
                start as int,
                positions(old(idx)@),
                positions(old(own)@),
                power_keys(*power_key),
                dec@ + ds,
            ) == Some((slot_views(final(table)@), positions(final(idx)@), positions(final(own)@), ds)),
{
    let ghost s = terms_of(terms@);
    let ghost key = power_keys(*power_key);
    let ghost tab0 = slot_views(table@);
    let ghost pos0 = positions(idx@);
    let ghost own0 = positions(own@);
    let ghost st = start as int;
    let ghost mut dec: Seq<bool> = Seq::empty();
    let mut i: usize = 0;
    proof {
        assert forall|ds: Seq<bool>| #[trigger] file_from(s, 0, parent@, tab0, st, pos0, own0, key, dec + ds)
            == file_from(s, i as int, parent@, slot_views(table@), st, positions(idx@), positions(own@), key, ds) by {
            assert(dec + ds =~= ds);
        }
    }
    while i < terms.len()
        invariant
            i <= terms@.len(),
            s == terms_of(terms@),
            st == start as int,
            key == power_keys(*power_key),
            is_power_key(*power_key),
            valid_slots(table@),
            table@.len() >= tab0.len(),
            start <= table@.len(),
            in_table(idx@, table@.len()),
            in_table(own@, table@.len()),
            forall|ds: Seq<bool>| #[trigger] file_from(s, 0, parent@, tab0, st, pos0, own0, key, ds) is Some,
            forall|ds: Seq<bool>| #[trigger]
                file_from(s, 0, parent@, tab0, st, pos0, own0, key, dec + ds) == file_from(
                    s,
                    i as int,
                    parent@,
                    slot_views(table@),
                    st,
                    positions(idx@),
                    positions(own@),
                    key,
                    ds,
                ),
        decreases terms@.len() - i,
    {
        let ghost tab = slot_views(table@);
        let ghost pos = positions(idx@);
        let ghost ow = positions(own@);
        proof {
            assert(s[i as int] == terms@[i as int]@);
            assert(file_from(s, 0, parent@, tab0, st, pos0, own0, key, dec + Seq::<bool>::empty()) is Some);
        }
        let k = match difference_type_of(&*terms[i], power_key) {
            Some(k) => k,
            None => unreached(),
        };
        let (found, Ghost(fdec)) = lookup(table, own, start, parent, &k);
        let v = (*terms[i]).clone();
        match found {
            Some(j) => {
                let slot = Slot { parent: clone_arc(&table[j].parent), kind: table[j].kind, value: v };
                table[j] = slot;
                idx.push(j);
                proof {
                    assert(slot_views(table@) =~= tab.update(
                        j as int,
                        (tab[j as int].0, tab[j as int].1, s[i as int]),
                    ));
                    assert(positions(idx@) =~= pos.push(j as int));
                    assert(positions(own@) == ow);
                }
            },
            None => {
                idx.push(table.len());
                own.push(table.len());
                table.push(Slot { parent: clone_arc(parent), kind: k, value: v });
                proof {
                    assert(slot_views(table@) =~= tab.push((parent@, k, s[i as int])));
                    assert(positions(idx@) =~= pos.push(tab.len() as int));
                    assert(positions(own@) =~= ow.push(tab.len() as int));
                }
            },
        }
        proof {
            assert forall|ds: Seq<bool>| #[trigger]
                file_from(s, 0, parent@, tab0, st, pos0, own0, key, dec + fdec + ds) == file_from(
                    s,
                    i + 1,
                    parent@,
                    slot_views(table@),
                    st,
                    positions(idx@),
                    positions(own@),
                    key,
                    ds,
                ) by {
                assert(dec + fdec + ds =~= dec + (fdec + ds));
                assert(find_filed(tab, ow, st, parent@, k, fdec + ds).1 == ds);
            }
            dec = dec + fdec;
        }
        i = i + 1;
    }
    proof {
        assert forall|ds: Seq<bool>| #[trigger] file_from(s, 0, parent@, tab0, st, pos0, own0, key, dec + ds)
            == Some((slot_views(table@), positions(idx@), positions(own@), ds)) by {
            assert(file_from(s, i as int, parent@, slot_views(table@), st, positions(idx@), positions(own@), key, ds)
                == Some((slot_views(table@), positions(idx@), positions(own@), ds)));
        }
    }
    Ghost(dec)
}

/// Files the terms of a difference's second sum under `parent`, as
/// `subtract_from` says; returns the decisions its lookups took.
fn subtract_terms<'f, A: Fn(Op, u64, u64) -> u64, K: Fn(u64) -> Option<[u8; 16]>>(
    parent: &Arc<Function<'f>>,
    terms: &Vec<Arc<Function<'f>>>,
    table: &mut Vec<Slot<'f>>,
    start: usize,
    idx: &mut Vec<usize>,
    own: &mut Vec<usize>,
    arith: &A,
    power_key: &K,
) -> (dec: Ghost<Seq<bool>>)
    requires
        is_arithmetic(*arith),
        is_power_key(*power_key),
        valid_slots(old(table)@),
        start <= old(table)@.len(),
        in_table(old(idx)@, old(table)@.len()),
        in_table(old(own)@, old(table)@.len()),
        forall|ds: Seq<bool>| #[trigger]
            subtract_from(
                terms_of(terms@),
                0,
                parent@,
                slot_views(old(table)@),
                start as int,
                positions(old(idx)@),
                positions(old(own)@),
                arithmetic(*arith),
                power_keys(*power_key),
                ds,
            ) is Some,
    ensures
        valid_slots(final(table)@),
        final(table)@.len() >= old(table)@.len(),
        in_table(final(idx)@, final(table)@.len()),
        in_table(final(own)@, final(table)@.len()),
        forall|ds: Seq<bool>| #[trigger]
            subtract_from(
                terms_of(terms@),
                0,
                parent@,
                slot_views(old(table)@),
                start as int,
                positions(old(idx)@),
                positions(old(own)@),
                arithmetic(*arith),
                power_keys(*power_key),
                dec@ + ds,
            ) == Some((slot_views(final(table)@), positions(final(idx)@), positions(final(own)@), ds)),
{
    let ghost s = terms_of(terms@);
    let ghost ar = arithmetic(*arith);
    let ghost key = power_keys(*power_key);
    let ghost tab0 = slot_views(table@);
    let ghost pos0 = positions(idx@);
    let ghost own0 = positions(own@);
    let ghost st = start as int;
    let ghost mut dec: Seq<bool> = Seq::empty();
    let mut i: usize = 0;
    proof {
        assert forall|ds: Seq<bool>| #[trigger]
            subtract_from(s, 0, parent@, tab0, st, pos0, own0, ar, key, dec + ds) == subtract_from(
                s,
                i as int,
                parent@,
                slot_views(table@),
                st,
                positions(idx@),
                positions(own@),
                ar,
                key,
                ds,
            ) by {
            assert(dec + ds =~= ds);
        }
    }
    while i < terms.len()
        invariant
            i <= terms@.len(),
            s == terms_of(terms@),
            st == start as int,
            ar == arithmetic(*arith),
            key == power_keys(*power_key),
            is_arithmetic(*arith),
            is_power_key(*power_key),
            valid_slots(table@),
            table@.len() >= tab0.len(),
            start <= table@.len(),
            in_table(idx@, table@.len()),
            in_table(own@, table@.len()),
            forall|ds: Seq<bool>| #[trigger] subtract_from(s, 0, parent@, tab0, st, pos0, own0, ar, key, ds) is Some,
            forall|ds: Seq<bool>| #[trigger]
                subtract_from(s, 0, parent@, tab0, st, pos0, own0, ar, key, dec + ds) == subtract_from(
                    s,
                    i as int,
                    parent@,
                    slot_views(table@),
                    st,
                    positions(idx@),
                    positions(own@),
                    ar,
                    key,
                    ds,
                ),
        decreases terms@.len() - i,
    {
        let ghost tab = slot_views(table@);
        let ghost pos = positions(idx@);
        let ghost ow = positions(own@);
        proof {
            assert(s[i as int] == terms@[i as int]@);
            assert(subtract_from(s, 0, parent@, tab0, st, pos0, own0, ar, key, dec + Seq::<bool>::empty()) is Some);
        }
        let k = match difference_type_of(&*terms[i], power_key) {
            Some(k) => k,
            None => unreached(),
        };
        let (found, Ghost(fdec)) = lookup(table, own, start, parent, &k);
        proof {
            assert(subtract_from(s, 0, parent@, tab0, st, pos0, own0, ar, key, dec + (fdec + Seq::<bool>::empty()))
                is Some);
            assert(find_filed(tab, ow, st, parent@, k, fdec + Seq::<bool>::empty()).1 == Seq::<bool>::empty());
        }
        match found {
            Some(j) => {
                let v = match merge_difference(&table[j].value, &*terms[i], arith) {
                    Some(v) => v,
                    None => unreached(),
                };
                let slot = Slot { parent: clone_arc(&table[j].parent), kind: table[j].kind, value: v };
                table[j] = slot;
                proof {
                    assert(slot_views(table@) =~= tab.update(
                        j as int,
                        (tab[j as int].0, tab[j as int].1, v@),
                    ));
                }
            },
            None => {
                let v = (*terms[i]).clone();
                idx.push(table.len());
                own.push(table.len());
                table.push(Slot { parent: clone_arc(parent), kind: k, value: v });
                proof {
                    assert(slot_views(table@) =~= tab.push((parent@, k, s[i as int])));
                    assert(positions(idx@) =~= pos.push(tab.len() as int));
                    assert(positions(own@) =~= ow.push(tab.len() as int));
                }
            },
        }
        proof {
            assert forall|ds: Seq<bool>| #[trigger]
                subtract_from(s, 0, parent@, tab0, st, pos0, own0, ar, key, dec + fdec + ds) == subtract_from(
                    s,
                    i + 1,
                    parent@,
                    slot_views(table@),
                    st,
                    positions(idx@),
                    positions(own@),
                    ar,
                    key,
                    ds,
                ) by {
                assert(dec + fdec + ds =~= dec + (fdec + ds));
                assert(find_filed(tab, ow, st, parent@, k, fdec + ds).1 == ds);
            }
            dec = dec + fdec;
        }
        i = i + 1;
    }
    proof {
        assert forall|ds: Seq<bool>| #[trigger]
            subtract_from(s, 0, parent@, tab0, st, pos0, own0, ar, key, dec + ds) == Some(
                (slot_views(table@), positions(idx@), positions(own@), ds),
            ) by {
            assert(subtract_from(s, i as int, parent@, slot_views(table@), st, positions(idx@), positions(own@), ar, key, ds)
                == Some((slot_views(table@), positions(idx@), positions(own@), ds)));
        }
    }
    Ghost(dec)
}

/// Files the term `c` of a difference, taken with the sign `sign`, under
/// `parent`, as `signed_step` says; returns the decisions its lookup took.
fn file_signed<'f, A: Fn(Op, u64, u64) -> u64, K: Fn(u64) -> Option<[u8; 16]>>(
    parent: &Arc<Function<'f>>,
    c: &Arc<Function<'f>>,
    sign: u64,
    table: &mut Vec<Slot<'f>>,
    start: usize,
    idx: &mut Vec<usize>,
    own: &mut Vec<usize>,
    arith: &A,
    power_key: &K,
) -> (dec: Ghost<Seq<bool>>)
    requires
        is_arithmetic(*arith),
        is_power_key(*power_key),
        valid_slots(old(table)@),
        start <= old(table)@.len(),
        in_table(old(idx)@, old(table)@.len()),
        in_table(old(own)@, old(table)@.len()),
        forall|ds: Seq<bool>| #[trigger]
            signed_step(
                c@,
                sign,
                parent@,
                slot_views(old(table)@),
                start as int,
                positions(old(idx)@),
                positions(old(own)@),
                arithmetic(*arith),
                power_keys(*power_key),
                ds,
            ) is Some,
    ensures
        valid_slots(final(table)@),
        final(table)@.len() >= old(table)@.len(),
        in_table(final(idx)@, final(table)@.len()),
        in_table(final(own)@, final(table)@.len()),
        forall|ds: Seq<bool>| #[trigger]
            signed_step(
                c@,
                sign,
                parent@,
                slot_views(old(table)@),
                start as int,
                positions(old(idx)@),
                positions(old(own)@),
                arithmetic(*arith),
                power_keys(*power_key),
                dec@ + ds,
            ) == Some((slot_views(final(table)@), positions(final(idx)@), positions(final(own)@), ds)),
{
    let ghost ar = arithmetic(*arith);
    let ghost key = power_keys(*power_key);
    let ghost tab = slot_views(table@);
    let ghost pos = positions(idx@);
    let ghost ow = positions(own@);
    let ghost st = start as int;
    proof {
        assert(signed_step(c@, sign, parent@, tab, st, pos, ow, ar, key, Seq::<bool>::empty()) is Some);
    }
    let k = match difference_type_of(&**c, power_key) {
        Some(k) => k,
        None => unreached(),
    };
    let (found, Ghost(fdec)) = lookup(table, own, start, parent, &k);
    proof {
        assert(signed_step(c@, sign, parent@, tab, st, pos, ow, ar, key, fdec + Seq::<bool>::empty()) is Some);
        assert(find_filed(tab, ow, st, parent@, k, fdec + Seq::<bool>::empty()).1 == Seq::<bool>::empty());
    }
    match found {
        Some(j) => {
            let v = match merge_signed(&table[j].value, &**c, sign, arith) {
                Some(v) => v,
                None => unreached(),
            };
            let slot = Slot { parent: clone_arc(&table[j].parent), kind: table[j].kind, value: v };
            table[j] = slot;
            proof {
                assert(slot_views(table@) =~= tab.update(
                    j as int,
                    (tab[j as int].0, tab[j as int].1, v@),
                ));
            }
        },
        None => {
            let v = match with_sign(&**c, sign, arith) {
                Some(v) => v,
                None => unreached(),
            };
            idx.push(table.len());
            own.push(table.len());
            table.push(Slot { parent: clone_arc(parent), kind: k, value: v });
            proof {
                assert(slot_views(table@) =~= tab.push((parent@, k, v@)));
                assert(positions(idx@) =~= pos.push(tab.len() as int));
                assert(positions(own@) =~= ow.push(tab.len() as int));
            }
        },
    }
    proof {
        assert forall|ds: Seq<bool>| #[trigger]
            signed_step(c@, sign, parent@, tab, st, pos, ow, ar, key, fdec + ds) == Some(
                (slot_views(table@), positions(idx@), positions(own@), ds),
            ) by {
            assert(find_filed(tab, ow, st, parent@, k, fdec + ds).1 == ds);
        }
    }
    Ghost(fdec)
}

/// First and later decisions of a sequence starting with `d`.
proof fn lemma_decision_front(d: bool)
    ensures
        forall|ds: Seq<bool>|
            next_decision(#[trigger] (seq![d] + ds)) == d && later_decisions(seq![d] + ds) == ds,
{
    assert forall|ds: Seq<bool>|
        next_decision(#[trigger] (seq![d] + ds)) == d && later_decisions(seq![d] + ds) == ds by {
        assert((seq![d] + ds).drop_first() =~= ds);
    }
}

/// Simplifies the difference `parent` of the simplified terms `l` and `r`,
/// as `difference` says; returns the decisions its tests took.
#[verifier::spinoff_prover]
#[verifier::rlimit(60)]
fn difference_of<'f, A: Fn(Op, u64, u64) -> u64, K: Fn(u64) -> Option<[u8; 16]>>(
    parent: &Arc<Function<'f>>,
    l: Function<'f>,
    r: Function<'f>,
    table: &mut Vec<Slot<'f>>,
    arith: &A,
    power_key: &K,
) -> (res: (Function<'f>, Ghost<Seq<bool>>))
    requires
        is_arithmetic(*arith),
        is_power_key(*power_key),
        valid_slots(old(table)@),
        forall|ds: Seq<bool>| #[trigger]
            difference(
                parent@,
                l@,
                r@,
                slot_views(old(table)@),
                arithmetic(*arith),
                power_keys(*power_key),
                ds,
            ) is Some,
    ensures
        valid_slots(final(table)@),
        final(table)@.len() >= old(table)@.len(),
        forall|ds: Seq<bool>| #[trigger]
            difference(
                parent@,
                l@,
                r@,
                slot_views(old(table)@),
                arithmetic(*arith),
                power_keys(*power_key),
                res.1@ + ds,
            ) == Some((res.0@, slot_views(final(table)@), ds)),
{
    let ghost tl = l@;
    let ghost tr = r@;
    let ghost ar = arithmetic(*arith);
    let ghost key = power_keys(*power_key);
    let ghost tab = slot_views(table@);
    let ghost none: Seq<bool> = Seq::empty();
    proof {
        assert(difference(parent@, tl, tr, tab, ar, key, none) is Some);
        assert forall|ds: Seq<bool>| #[trigger] (none + ds) == ds by {
            assert(none + ds =~= ds);
        }
    }
    let lt = match difference_type_of(&l, power_key) {
        Some(k) => k,
        None => unreached(),
    };
    let rt = match difference_type_of(&r, power_key) {
        Some(k) => k,
        None => unreached(),
    };
    if types_equal(&lt, &rt) {
        match (&l, &r) {
            (Function::Constant(a), Function::Constant(b)) => {
                let res = Function::Constant(calc(arith, Op::Minus, *a, *b));
                (res, Ghost(none))
            },
            (Function::S { f: lf, m: lm, p: lp }, Function::S { f: rf, m: rm, .. }) => {
                match (&**lf, &**rf) {
                    (Function::Add { vec: lv }, Function::Add { vec: rv }) => {
                        proof {
                            lemma_terms_of_vec(*lv);
                            lemma_terms_of_vec(*rv);
                            assert(lf@ == Term::Add(terms_of(lv@)));
                            assert(rf@ == Term::Add(terms_of(rv@)));
                            assert(eq_defined(lf@, rf@));
                        }
                        let same = arc_eq(lf, rf);
                        let ghost d0 = seq![same];
                        proof {
                            lemma_decision_front(same);
                            assert(arc_decided(lf@, rf@, same) == same);
                        }
                        if !same {
                            let start = table.len();
                            let ghost st = start as int;
                            let ghost nowhere = Seq::<int>::empty();
                            let mut idx: Vec<usize> = Vec::new();
                            let mut own: Vec<usize> = Vec::new();
                            proof {
                                assert(positions(idx@) =~= nowhere);
                                assert(positions(own@) =~= nowhere);
                                assert forall|ds: Seq<bool>| #[trigger]
                                    file_from(terms_of(lv@), 0, parent@, tab, st, nowhere, nowhere, key, ds)
                                        is Some by {
                                    assert(difference(parent@, tl, tr, tab, ar, key, d0 + ds) is Some);
                                }
                            }
                            let Ghost(d1) = file_terms(parent, lv, table, start, &mut idx, &mut own, power_key);
                            let ghost tab1 = slot_views(table@);
                            let ghost pos1 = positions(idx@);
                            let ghost own1 = positions(own@);
                            proof {
                                assert forall|ds: Seq<bool>| #[trigger]
                                    subtract_from(terms_of(rv@), 0, parent@, tab1, st, pos1, own1, ar, key, ds)
                                        is Some by {
                                    assert(difference(parent@, tl, tr, tab, ar, key, d0 + (d1 + ds))
                                        is Some);
                                    assert(file_from(terms_of(lv@), 0, parent@, tab, st, nowhere, nowhere, key, d1 + ds)
                                        == Some((tab1, pos1, own1, ds)));
                                }
                            }
                            let Ghost(d2) = subtract_terms(
                                parent,
                                rv,
                                table,
                                start,
                                &mut idx,
                                &mut own,
                                arith,
                                power_key,
                            );
                            let arcs = filed_arcs(table, &idx);
                            let res = Function::S {
                                f: Arc::new(Function::Add { vec: arcs }),
                                m: ONE,
                                p: ONE,
                            };
                            proof {
                                lemma_terms_of_vec(arcs);
                                assert(res@ == as_sum(slot_views(table@), positions(idx@)));
                                assert forall|ds: Seq<bool>| #[trigger]
                                    difference(parent@, tl, tr, tab, ar, key, d0 + d1 + d2 + ds)
                                        == Some((res@, slot_views(table@), ds)) by {
                                    assert(d0 + d1 + d2 + ds =~= d0 + (d1 + (d2 + ds)));
                                    assert(file_from(
                                        terms_of(lv@),
                                        0,
                                        parent@,
                                        tab,
                                        st,
                                        nowhere,
                                        nowhere,
                                        key,
                                        d1 + (d2 + ds),
                                    ) == Some((tab1, pos1, own1, d2 + ds)));
                                }
                            }
                            (res, Ghost(d0 + d1 + d2))
                        } else {
                            let res = scaled_difference_of(lf, *lm, *rm, *lp, arith);
                            (res, Ghost(d0))
                        }
                    },
                    (Function::Add { vec: lv }, Function::Sub { lhs: a, rhs: b }) => {
                        proof {
                            lemma_terms_of_vec(*lv);
                            assert(lf@ == Term::Add(terms_of(lv@)));
                            assert(rf@ == Term::Sub { lhs: Box::new(a@), rhs: Box::new(b@) });
                        }
                        let start = table.len();
                        let ghost st = start as int;
                        let ghost nowhere = Seq::<int>::empty();
                        let mut idx: Vec<usize> = Vec::new();
                        let mut own: Vec<usize> = Vec::new();
                        proof {
                            assert(positions(idx@) =~= nowhere);
                            assert(positions(own@) =~= nowhere);
                            assert forall|ds: Seq<bool>| #[trigger]
                                file_from(terms_of(lv@), 0, parent@, tab, st, nowhere, nowhere, key, ds)
                                    is Some by {
                                assert(difference(parent@, tl, tr, tab, ar, key, ds) is Some);
                            }
                        }
                        let Ghost(d1) = file_terms(parent, lv, table, start, &mut idx, &mut own, power_key);
                        let ghost tab1 = slot_views(table@);
                        let ghost pos1 = positions(idx@);
                        let ghost own1 = positions(own@);
                        proof {
                            assert forall|ds: Seq<bool>| #[trigger]
                                signed_step(a@, ONE, parent@, tab1, st, pos1, own1, ar, key, ds) is Some by {
                                assert(difference(parent@, tl, tr, tab, ar, key, d1 + ds) is Some);
                            }
                        }
                        let Ghost(d2) = file_signed(
                            parent,
                            a,
                            ONE,
                            table,
                            start,
                            &mut idx,
                            &mut own,
                            arith,
                            power_key,
                        );
                        let ghost tab2 = slot_views(table@);
                        let ghost pos2 = positions(idx@);
                        let ghost own2 = positions(own@);
                        proof {
                            assert forall|ds: Seq<bool>| #[trigger]
                                signed_step(b@, NEG_ONE, parent@, tab2, st, pos2, own2, ar, key, ds) is Some by {
                                assert(difference(parent@, tl, tr, tab, ar, key, d1 + (d2 + ds)) is Some);
                                assert(file_from(
                                    terms_of(lv@),
                                    0,
                                    parent@,
                                    tab,
                                    st,
                                    nowhere,
                                    nowhere,
                                    key,
                                    d1 + (d2 + ds),
                                ) == Some((tab1, pos1, own1, d2 + ds)));
                            }
                        }
                        let Ghost(d3) = file_signed(
                            parent,
                            b,
                            NEG_ONE,
                            table,
                            start,
                            &mut idx,
                            &mut own,
                            arith,
                            power_key,
                        );
                        let arcs = filed_arcs(table, &idx);
                        let res = Function::S { f: Arc::new(Function::Add { vec: arcs }), m: ONE, p: ONE };
                        proof {
                            lemma_terms_of_vec(arcs);
                            assert(res@ == as_sum(slot_views(table@), positions(idx@)));
                            assert forall|ds: Seq<bool>| #[trigger]
                                difference(parent@, tl, tr, tab, ar, key, d1 + d2 + d3 + ds) == Some(
                                    (res@, slot_views(table@), ds),
                                ) by {
                                assert(d1 + d2 + d3 + ds =~= d1 + (d2 + (d3 + ds)));
                                assert(file_from(
                                    terms_of(lv@),
                                    0,
                                    parent@,
                                    tab,
                                    st,
                                    nowhere,
                                    nowhere,
                                    key,
                                    d1 + (d2 + (d3 + ds)),
                                ) == Some((tab1, pos1, own1, d2 + (d3 + ds))));
                                assert(signed_step(a@, ONE, parent@, tab1, st, pos1, own1, ar, key, d2 + (d3 + ds))
                                    == Some((tab2, pos2, own2, d3 + ds)));
                            }
                        }
                        (res, Ghost(d1 + d2 + d3))
                    },
                    _ => {
                        proof {
                            assert(!(lf@ is Add && rf@ is Add));
                            assert(!(lf@ is Add && rf@ is Sub));
                        }
                        let res = scaled_difference_of(lf, *lm, *rm, *lp, arith);
                        (res, Ghost(none))
                    },
                }
            },
            _ => unreached(),
        }
    } else {
        let sub = Function::Sub { lhs: Arc::new(l), rhs: Arc::new(r) };
        proof {
            assert(sub@ == Term::Sub { lhs: Box::new(tl), rhs: Box::new(tr) });
        }
        let res = Function::S { f: Arc::new(sub), m: ONE, p: ONE };
        (res, Ghost(none))
    }
}


/// Simplifies the function `function` points to, filing terms in `table`,
/// as `hashed` says; returns the decisions its tests took.
fn simplify_hash2<'f, A: Fn(Op, u64, u64) -> u64, K: Fn(u64) -> Option<[u8; 16]>>(
    function: &Arc<Function<'f>>,
    table: &mut Vec<Slot<'f>>,
    arith: &A,
    power_key: &K,
) -> (res: (Function<'f>, Ghost<Seq<bool>>))
    requires
        is_arithmetic(*arith),
        is_power_key(*power_key),
        valid_slots(old(table)@),
        forall|ds: Seq<bool>| #[trigger]
            hashed(
                function@,
                slot_views(old(table)@),
                arithmetic(*arith),
                power_keys(*power_key),
                ds,
            ) is Some,
    ensures
        valid_slots(final(table)@),
        final(table)@.len() >= old(table)@.len(),
        forall|ds: Seq<bool>| #[trigger]
            hashed(
                function@,
                slot_views(old(table)@),
                arithmetic(*arith),
                power_keys(*power_key),
                res.1@ + ds,
            ) == Some((res.0@, slot_views(final(table)@), ds)),
    decreases size(function@), 1nat,
{
    let ghost t = function@;
    let ghost ar = arithmetic(*arith);
    let ghost key = power_keys(*power_key);
    let ghost tab0 = slot_views(table@);
    let ghost none: Seq<bool> = Seq::empty();
    let ghost nowhere: Seq<int> = Seq::empty();
    proof {
        assert forall|ds: Seq<bool>| #[trigger] (none + ds) == ds by {
            assert(none + ds =~= ds);
        }
    }
    match &**function {
        Function::Variable(name) => {
            let res = Function::S { f: Arc::new(Function::Variable(*name)), m: ONE, p: ONE };
            (res, Ghost(none))
        },
        Function::Constant(c) => (Function::Constant(*c), Ghost(none)),
        Function::S { f, m, p } => (Function::S { f: clone_arc(f), m: *m, p: *p }, Ghost(none)),
        Function::Add { vec } => {
            proof {
                lemma_terms_of_vec(*vec);
            }
            file_sum(function, vec, table, arith, power_key)
        },
        Function::Mul { vec } => {
            proof {
                lemma_terms_of_vec(*vec);
            }
            file_product(function, vec, table, arith, power_key)
        },
        Function::Sub { lhs, rhs } => simplify_difference(function, lhs, rhs, table, arith, power_key),
        Function::Div { num, den } => simplify_quotient(function, num, den, table, arith, power_key),
    }
}

/// Simplifies the sum `function` points to (`sum_from`); returns the
/// decisions its tests took.
fn file_sum<'f, A: Fn(Op, u64, u64) -> u64, K: Fn(u64) -> Option<[u8; 16]>>(
    function: &Arc<Function<'f>>,
    vec: &Vec<Arc<Function<'f>>>,
    table: &mut Vec<Slot<'f>>,
    arith: &A,
    power_key: &K,
) -> (res: (Function<'f>, Ghost<Seq<bool>>))
    requires
        function@ == Term::Add(terms_of(vec@)),
        is_arithmetic(*arith),
        is_power_key(*power_key),
        valid_slots(old(table)@),
        forall|ds: Seq<bool>| #[trigger]
            hashed(
                function@,
                slot_views(old(table)@),
                arithmetic(*arith),
                power_keys(*power_key),
                ds,
            ) is Some,
    ensures
        valid_slots(final(table)@),
        final(table)@.len() >= old(table)@.len(),
        forall|ds: Seq<bool>| #[trigger]
            hashed(
                function@,
                slot_views(old(table)@),
                arithmetic(*arith),
                power_keys(*power_key),
                res.1@ + ds,
            ) == Some((res.0@, slot_views(final(table)@), ds)),
    decreases size(function@), 0nat,
{
    let ghost t = function@;
    let ghost ar = arithmetic(*arith);
    let ghost key = power_keys(*power_key);
    let ghost tab0 = slot_views(table@);
    let ghost none: Seq<bool> = Seq::empty();
    let ghost nowhere: Seq<int> = Seq::empty();
    proof {
        assert forall|ds: Seq<bool>| #[trigger] (none + ds) == ds by {
            assert(none + ds =~= ds);
        }
    }
    let ghost s = terms_of(vec@);
    proof {
        lemma_terms_of_vec(*vec);
        assert(t == Term::Add(s));
    }
    let start = table.len();
    let ghost st = start as int;
    let mut idx: Vec<usize> = Vec::new();
    let ghost mut dec: Seq<bool> = Seq::empty();
    let mut i: usize = 0;
    proof {
        assert(positions(idx@) =~= nowhere);
        assert forall|ds: Seq<bool>| #[trigger] sum_from(s, 0, t, tab0, st, nowhere, ar, key, ds) is Some by {
            assert(hashed(t, tab0, ar, key, ds) is Some);
        }
    }
    while i < vec.len()
        invariant
            i <= vec@.len(),
            s == terms_of(vec@),
            t == Term::Add(s),
            t == function@,
            ar == arithmetic(*arith),
            key == power_keys(*power_key),
            is_arithmetic(*arith),
            is_power_key(*power_key),
            valid_slots(table@),
            table@.len() >= tab0.len(),
            in_table(idx@, table@.len()),
            st == start as int,
            st == tab0.len(),
            forall|ds: Seq<bool>| #[trigger] (none + ds) == ds,
            forall|ds: Seq<bool>| #[trigger] sum_from(s, 0, t, tab0, st, nowhere, ar, key, ds) is Some,
            forall|ds: Seq<bool>| #[trigger]
                sum_from(s, 0, t, tab0, st, nowhere, ar, key, dec + ds) == sum_from(
                    s,
                    i as int,
                    t,
                    slot_views(table@),
                    st,
                    positions(idx@),
                    ar,
                    key,
                    ds,
                ),
        decreases vec@.len() - i,
    {
        let ghost tab = slot_views(table@);
        let ghost pos = positions(idx@);
        proof {
            assert(s[i as int] == vec@[i as int]@);
            lemma_size_of_member(s, i as int);
            assert forall|d2: Seq<bool>| #[trigger] hashed(s[i as int], tab, ar, key, d2) is Some by {
                assert(sum_from(s, 0, t, tab0, st, nowhere, ar, key, dec + d2) is Some);
            }
        }
        let (c, Ghost(cdec)) = simplify_hash2(&vec[i], table, arith, power_key);
        let ghost tab1 = slot_views(table@);
        let ghost tc = c@;
        proof {
            assert(sum_from(s, 0, t, tab0, st, nowhere, ar, key, dec + (cdec + none)) is Some);
            assert(hashed(s[i as int], tab, ar, key, cdec + none) == Some((tc, tab1, none)));
        }
        let k = match sum_type_of(&c, power_key) {
            Some(k) => k,
            None => unreached(),
        };
        let (found, Ghost(fdec)) = lookup(table, &idx, start, function, &k);
        proof {
            assert(sum_from(s, 0, t, tab0, st, nowhere, ar, key, dec + (cdec + (fdec + none)))
                is Some);
            assert(hashed(s[i as int], tab, ar, key, cdec + (fdec + none)) == Some(
                (tc, tab1, fdec + none),
            ));
            assert(find_filed(tab1, pos, st, t, k, fdec + none).1 == none);
        }
        match found {
            Some(j) => {
                let v = match merge_sum(&table[j].value, &c, arith) {
                    Some(v) => v,
                    None => unreached(),
                };
                let slot = Slot {
                    parent: clone_arc(&table[j].parent),
                    kind: table[j].kind,
                    value: v,
                };
                table[j] = slot;
                proof {
                    assert(slot_views(table@) =~= tab1.update(
                        j as int,
                        (tab1[j as int].0, tab1[j as int].1, v@),
                    ));
                    assert(positions(idx@) == pos);
                }
            },
            None => {
                idx.push(table.len());
                table.push(Slot { parent: clone_arc(function), kind: k, value: c });
                proof {
                    assert(slot_views(table@) =~= tab1.push((t, k, tc)));
                    assert(positions(idx@) =~= pos.push(tab1.len() as int));
                }
            },
        }
        proof {
            assert forall|ds: Seq<bool>| #[trigger]
                sum_from(s, 0, t, tab0, st, nowhere, ar, key, dec + cdec + fdec + ds) == sum_from(
                    s,
                    i + 1,
                    t,
                    slot_views(table@),
                    st,
                    positions(idx@),
                    ar,
                    key,
                    ds,
                ) by {
                assert(dec + cdec + fdec + ds =~= dec + (cdec + (fdec + ds)));
                assert(hashed(s[i as int], tab, ar, key, cdec + (fdec + ds)) == Some(
                    (tc, tab1, fdec + ds),
                ));
                assert(find_filed(tab1, pos, st, t, k, fdec + ds).1 == ds);
            }
            dec = dec + cdec + fdec;
        }
        i = i + 1;
    }
    let arcs = filed_arcs(table, &idx);
    let res = Function::S { f: Arc::new(Function::Add { vec: arcs }), m: ONE, p: ONE };
    proof {
        lemma_terms_of_vec(arcs);
        assert(res@ == as_sum(slot_views(table@), positions(idx@)));
        assert forall|ds: Seq<bool>| #[trigger] hashed(t, tab0, ar, key, dec + ds) == Some(
            (res@, slot_views(table@), ds),
        ) by {
            assert(sum_from(s, i as int, t, slot_views(table@), st, positions(idx@), ar, key, ds)
                == Some((slot_views(table@), positions(idx@), ds)));
            assert(sum_from(s, 0, t, tab0, st, nowhere, ar, key, dec + ds) == Some(
                (slot_views(table@), positions(idx@), ds),
            ));
        }
    }
    (res, Ghost(dec))
}

/// Simplifies the product `function` points to (`product_from`); returns
/// the decisions its tests took.
fn file_product<'f, A: Fn(Op, u64, u64) -> u64, K: Fn(u64) -> Option<[u8; 16]>>(
    function: &Arc<Function<'f>>,
    vec: &Vec<Arc<Function<'f>>>,
    table: &mut Vec<Slot<'f>>,
    arith: &A,
    power_key: &K,
) -> (res: (Function<'f>, Ghost<Seq<bool>>))
    requires
        function@ == Term::Mul(terms_of(vec@)),
        is_arithmetic(*arith),
        is_power_key(*power_key),
        valid_slots(old(table)@),
        forall|ds: Seq<bool>| #[trigger]
            hashed(
                function@,
                slot_views(old(table)@),
                arithmetic(*arith),
                power_keys(*power_key),
                ds,
            ) is Some,
    ensures
        valid_slots(final(table)@),
        final(table)@.len() >= old(table)@.len(),
        forall|ds: Seq<bool>| #[trigger]
            hashed(
                function@,
                slot_views(old(table)@),
                arithmetic(*arith),
                power_keys(*power_key),
                res.1@ + ds,
            ) == Some((res.0@, slot_views(final(table)@), ds)),
    decreases size(function@), 0nat,
{
    let ghost t = function@;
    let ghost ar = arithmetic(*arith);
    let ghost key = power_keys(*power_key);
    let ghost tab0 = slot_views(table@);
    let ghost none: Seq<bool> = Seq::empty();
    let ghost nowhere: Seq<int> = Seq::empty();
    proof {
        assert forall|ds: Seq<bool>| #[trigger] (none + ds) == ds by {
            assert(none + ds =~= ds);
        }
    }
    let ghost s = terms_of(vec@);
    proof {
        lemma_terms_of_vec(*vec);
        assert(t == Term::Mul(s));
    }
    let start = table.len();
    let ghost st = start as int;
    let mut idx: Vec<usize> = Vec::new();
    let ghost mut dec: Seq<bool> = Seq::empty();
    let mut i: usize = 0;
    proof {
        assert(positions(idx@) =~= nowhere);
        assert forall|ds: Seq<bool>| #[trigger]
            product_from(s, 0, t, tab0, st, nowhere, ar, key, ds) is Some by {
            assert(hashed(t, tab0, ar, key, ds) is Some);
        }
    }
    while i < vec.len()
        invariant
            i <= vec@.len(),
            s == terms_of(vec@),
            t == Term::Mul(s),
            t == function@,
            ar == arithmetic(*arith),
            key == power_keys(*power_key),
            is_arithmetic(*arith),
            is_power_key(*power_key),
            valid_slots(table@),
            table@.len() >= tab0.len(),
            in_table(idx@, table@.len()),
            st == start as int,
            st == tab0.len(),
            forall|ds: Seq<bool>| #[trigger] (none + ds) == ds,
            forall|ds: Seq<bool>| #[trigger]
                product_from(s, 0, t, tab0, st, nowhere, ar, key, ds) is Some,
            forall|ds: Seq<bool>| #[trigger]
                product_from(s, 0, t, tab0, st, nowhere, ar, key, dec + ds) == product_from(
                    s,
                    i as int,
                    t,
                    slot_views(table@),
                    st,
                    positions(idx@),
                    ar,
                    key,
                    ds,
                ),
        decreases vec@.len() - i,
    {
        let ghost tab = slot_views(table@);
        let ghost pos = positions(idx@);
        proof {
            assert(s[i as int] == vec@[i as int]@);
            lemma_size_of_member(s, i as int);
            assert forall|d2: Seq<bool>| #[trigger] hashed(s[i as int], tab, ar, key, d2) is Some by {
                assert(product_from(s, 0, t, tab0, st, nowhere, ar, key, dec + d2) is Some);
            }
        }
        let (c, Ghost(cdec)) = simplify_hash2(&vec[i], table, arith, power_key);
        let ghost tab1 = slot_views(table@);
        let ghost tc = c@;
        let k = product_type_of(&c);
        let (found, Ghost(fdec)) = lookup(table, &idx, start, function, &k);
        match found {
            Some(j) => {
                proof {
                    assert forall|d3: Seq<bool>| #[trigger]
                        product_merge(tab1[j as int].2, tc, ar, d3) is Some by {
                        assert(product_from(
                            s,
                            0,
                            t,
                            tab0,
                            st,
                            nowhere,
                            ar,
                            key,
                            dec + (cdec + (fdec + d3)),
                        ) is Some);
                        assert(hashed(s[i as int], tab, ar, key, cdec + (fdec + d3)) == Some(
                            (tc, tab1, fdec + d3),
                        ));
                        assert(find_filed(tab1, pos, st, t, k, fdec + d3).1 == d3);
                    }
                }
                let (v, Ghost(mdec)) = merge_product(&table[j].value, &c, arith);
                let slot = Slot {
                    parent: clone_arc(&table[j].parent),
                    kind: table[j].kind,
                    value: v,
                };
                table[j] = slot;
                proof {
                    assert(slot_views(table@) =~= tab1.update(
                        j as int,
                        (tab1[j as int].0, tab1[j as int].1, v@),
                    ));
                    assert(positions(idx@) == pos);
                    assert forall|ds: Seq<bool>| #[trigger]
                        product_from(s, 0, t, tab0, st, nowhere, ar, key, dec + cdec + fdec + mdec + ds)
                            == product_from(
                            s,
                            i + 1,
                            t,
                            slot_views(table@),
                            st,
                            positions(idx@),
                            ar,
                            key,
                            ds,
                        ) by {
                        assert(dec + cdec + fdec + mdec + ds =~= dec + (cdec + (fdec + (mdec
                            + ds))));
                        assert(hashed(s[i as int], tab, ar, key, cdec + (fdec + (mdec + ds)))
                            == Some((tc, tab1, fdec + (mdec + ds))));
                        assert(find_filed(tab1, pos, st, t, k, fdec + (mdec + ds)).1 == mdec + ds);
                    }
                    dec = dec + cdec + fdec + mdec;
                }
            },
            None => {
                idx.push(table.len());
                table.push(Slot { parent: clone_arc(function), kind: k, value: c });
                proof {
                    assert(slot_views(table@) =~= tab1.push((t, k, tc)));
                    assert(positions(idx@) =~= pos.push(tab1.len() as int));
                    assert forall|ds: Seq<bool>| #[trigger]
                        product_from(s, 0, t, tab0, st, nowhere, ar, key, dec + cdec + fdec + ds)
                            == product_from(
                            s,
                            i + 1,
                            t,
                            slot_views(table@),
                            st,
                            positions(idx@),
                            ar,
                            key,
                            ds,
                        ) by {
                        assert(dec + cdec + fdec + ds =~= dec + (cdec + (fdec + ds)));
                        assert(hashed(s[i as int], tab, ar, key, cdec + (fdec + ds)) == Some(
                            (tc, tab1, fdec + ds),
                        ));
                        assert(find_filed(tab1, pos, st, t, k, fdec + ds).1 == ds);
                    }
                    dec = dec + cdec + fdec;
                }
            },
        }
        i = i + 1;
    }
    let arcs = filed_arcs(table, &idx);
    let res = Function::S { f: Arc::new(Function::Mul { vec: arcs }), m: ONE, p: ONE };
    proof {
        lemma_terms_of_vec(arcs);
        assert(res@ == as_product(slot_views(table@), positions(idx@)));
        assert forall|ds: Seq<bool>| #[trigger] hashed(t, tab0, ar, key, dec + ds) == Some(
            (res@, slot_views(table@), ds),
        ) by {
            assert(product_from(
                s,
                i as int,
                t,
                slot_views(table@),
                st,
                positions(idx@),
                ar,
                key,
                ds,
            ) == Some((slot_views(table@), positions(idx@), ds)));
            assert(product_from(s, 0, t, tab0, st, nowhere, ar, key, dec + ds) == Some(
                (slot_views(table@), positions(idx@), ds),
            ));
        }
    }
    (res, Ghost(dec))
}

/// Simplifies the difference `function` points to (`difference`); returns
/// the decisions its tests took.
fn simplify_difference<'f, A: Fn(Op, u64, u64) -> u64, K: Fn(u64) -> Option<[u8; 16]>>(
    function: &Arc<Function<'f>>,
    lhs: &Arc<Function<'f>>,
    rhs: &Arc<Function<'f>>,
    table: &mut Vec<Slot<'f>>,
    arith: &A,
    power_key: &K,
) -> (res: (Function<'f>, Ghost<Seq<bool>>))
    requires
        function@ == (Term::Sub { lhs: Box::new(lhs@), rhs: Box::new(rhs@) }),
        is_arithmetic(*arith),
        is_power_key(*power_key),
        valid_slots(old(table)@),
        forall|ds: Seq<bool>| #[trigger]
            hashed(
                function@,
                slot_views(old(table)@),
                arithmetic(*arith),
                power_keys(*power_key),
                ds,
            ) is Some,
    ensures
        valid_slots(final(table)@),
        final(table)@.len() >= old(table)@.len(),
        forall|ds: Seq<bool>| #[trigger]
            hashed(
                function@,
                slot_views(old(table)@),
                arithmetic(*arith),
                power_keys(*power_key),
                res.1@ + ds,
            ) == Some((res.0@, slot_views(final(table)@), ds)),
    decreases size(function@), 0nat,
{
    let ghost t = function@;
    let ghost ar = arithmetic(*arith);
    let ghost key = power_keys(*power_key);
    let ghost tab0 = slot_views(table@);
    let ghost none: Seq<bool> = Seq::empty();
    let ghost nowhere: Seq<int> = Seq::empty();
    proof {
        assert forall|ds: Seq<bool>| #[trigger] (none + ds) == ds by {
            assert(none + ds =~= ds);
        }
    }
    proof {
        assert(t == Term::Sub { lhs: Box::new(lhs@), rhs: Box::new(rhs@) });
        assert forall|ds: Seq<bool>| #[trigger] hashed(lhs@, tab0, ar, key, ds) is Some by {
            assert(hashed(t, tab0, ar, key, ds) is Some);
        }
    }
    let (l, Ghost(d1)) = simplify_hash2(lhs, table, arith, power_key);
    let ghost tab1 = slot_views(table@);
    let ghost tl = l@;
    proof {
        assert forall|ds: Seq<bool>| #[trigger] hashed(rhs@, tab1, ar, key, ds) is Some by {
            assert(hashed(t, tab0, ar, key, d1 + ds) is Some);
            assert(hashed(lhs@, tab0, ar, key, d1 + ds) == Some((tl, tab1, ds)));
        }
    }
    let (r, Ghost(d2)) = simplify_hash2(rhs, table, arith, power_key);
    let ghost tab2 = slot_views(table@);
    let ghost tr = r@;
    proof {
        assert forall|ds: Seq<bool>| #[trigger] difference(t, tl, tr, tab2, ar, key, ds) is Some by {
            assert(hashed(t, tab0, ar, key, d1 + (d2 + ds)) is Some);
            assert(hashed(lhs@, tab0, ar, key, d1 + (d2 + ds)) == Some((tl, tab1, d2 + ds)));
            assert(hashed(rhs@, tab1, ar, key, d2 + ds) == Some((tr, tab2, ds)));
        }
    }
    let (res, Ghost(d3)) = difference_of(function, l, r, table, arith, power_key);
    proof {
        assert forall|ds: Seq<bool>| #[trigger] hashed(t, tab0, ar, key, d1 + d2 + d3 + ds)
            == Some((res@, slot_views(table@), ds)) by {
            assert(d1 + d2 + d3 + ds =~= d1 + (d2 + (d3 + ds)));
            assert(hashed(lhs@, tab0, ar, key, d1 + (d2 + (d3 + ds))) == Some(
                (tl, tab1, d2 + (d3 + ds)),
            ));
            assert(hashed(rhs@, tab1, ar, key, d2 + (d3 + ds)) == Some((tr, tab2, d3 + ds)));
        }
    }
    (res, Ghost(d1 + d2 + d3))
}

/// Simplifies the quotient `function` points to (`quotient`); returns the
/// decisions its tests took.
fn simplify_quotient<'f, A: Fn(Op, u64, u64) -> u64, K: Fn(u64) -> Option<[u8; 16]>>(
    function: &Arc<Function<'f>>,
    num: &Arc<Function<'f>>,
    den: &Arc<Function<'f>>,
    table: &mut Vec<Slot<'f>>,
    arith: &A,
    power_key: &K,
) -> (res: (Function<'f>, Ghost<Seq<bool>>))
    requires
        function@ == (Term::Div { num: Box::new(num@), den: Box::new(den@) }),
        is_arithmetic(*arith),
        is_power_key(*power_key),
        valid_slots(old(table)@),
        forall|ds: Seq<bool>| #[trigger]
            hashed(
                function@,
                slot_views(old(table)@),
                arithmetic(*arith),
                power_keys(*power_key),
                ds,
            ) is Some,
    ensures
        valid_slots(final(table)@),
        final(table)@.len() >= old(table)@.len(),
        forall|ds: Seq<bool>| #[trigger]
            hashed(
                function@,
                slot_views(old(table)@),
                arithmetic(*arith),
                power_keys(*power_key),
                res.1@ + ds,
            ) == Some((res.0@, slot_views(final(table)@), ds)),
    decreases size(function@), 0nat,
{
    let ghost t = function@;
    let ghost ar = arithmetic(*arith);
    let ghost key = power_keys(*power_key);
    let ghost tab0 = slot_views(table@);
    let ghost none: Seq<bool> = Seq::empty();
    let ghost nowhere: Seq<int> = Seq::empty();
    proof {
        assert forall|ds: Seq<bool>| #[trigger] (none + ds) == ds by {
            assert(none + ds =~= ds);
        }
    }
    proof {
        assert(t == Term::Div { num: Box::new(num@), den: Box::new(den@) });
        assert forall|ds: Seq<bool>| #[trigger] hashed(num@, tab0, ar, key, ds) is Some by {
            assert(hashed(t, tab0, ar, key, ds) is Some);
        }
    }
    let (n, Ghost(d1)) = simplify_hash2(num, table, arith, power_key);
    let ghost tab1 = slot_views(table@);
    let ghost tn = n@;
    proof {
        assert forall|ds: Seq<bool>| #[trigger] hashed(den@, tab1, ar, key, ds) is Some by {
            assert(hashed(t, tab0, ar, key, d1 + ds) is Some);
            assert(hashed(num@, tab0, ar, key, d1 + ds) == Some((tn, tab1, ds)));
        }
    }
    let (d, Ghost(d2)) = simplify_hash2(den, table, arith, power_key);
    let ghost tab2 = slot_views(table@);
    let ghost td = d@;
    proof {
        assert(hashed(t, tab0, ar, key, d1 + (d2 + none)) is Some);
        assert(hashed(num@, tab0, ar, key, d1 + (d2 + none)) == Some((tn, tab1, d2 + none)));
        assert(hashed(den@, tab1, ar, key, d2 + none) == Some((td, tab2, none)));
    }
    let q = match quotient_of(n, d, arith, power_key) {
        Some(q) => q,
        None => unreached(),
    };
    proof {
        assert forall|ds: Seq<bool>| #[trigger] hashed(t, tab0, ar, key, d1 + d2 + ds) == Some(
            (q@, tab2, ds),
        ) by {
            assert(d1 + d2 + ds =~= d1 + (d2 + ds));
            assert(hashed(num@, tab0, ar, key, d1 + (d2 + ds)) == Some((tn, tab1, d2 + ds)));
            assert(hashed(den@, tab1, ar, key, d2 + ds) == Some((td, tab2, ds)));
        }
    }
    (q, Ghost(d1 + d2))
}


/// A simplification that ends with the term `r` and no decision left over.
pub open spec fn simplifies_to(o: Option<(Term, Filed, Seq<bool>)>, r: Term) -> bool {
    match o {
        Some((u, _, rest)) => u == r && rest.len() == 0,
        None => false,
    }
}

/// Simplifies `function` with a table of filed terms (see `hashed`): a
/// variable `x` becomes `1 * x^1`; constants and scaled terms stay; the
/// simplified terms of a sum (or the factors of a product) are filed under
/// the sum by type, those meeting a term of an equal type combined with it,
/// the sum becoming `1 * (...)^1` of the terms it filed first; a difference
/// or a quotient of two simplified terms of equal types is worked out, and
/// of unequal types stays as it is, scaled by `1 * (...)^1`.
///
/// `arith` is the arithmetic of doubles on bit patterns, `power_key` the
/// byte form of a power as a decimal (`Decimal::from_f64_retain`).  Terms
/// of one node filed as equal types are always combined.  Whether two
/// nodes are the same allocation decides the rest: where a node is shared,
/// whether its earlier slots are found, and the pointer test of `==` on two
/// `Arc`s; the result is the simplification for some outcome of those
/// tests.
pub fn simplify_h<'f, A: Fn(Op, u64, u64) -> u64, K: Fn(u64) -> Option<[u8; 16]>>(
    function: Function<'f>,
    arith: &A,
    power_key: &K,
) -> (r: Function<'f>)
    requires
        is_arithmetic(*arith),
        is_power_key(*power_key),
        forall|ds: Seq<bool>| #[trigger]
            hashed(function@, Seq::empty(), arithmetic(*arith), power_keys(*power_key), ds) is Some,
    ensures
        exists|ds: Seq<bool>|
            simplifies_to(
                #[trigger] hashed(function@, Seq::empty(), arithmetic(*arith), power_keys(*power_key), ds),
                r@,
            ),
{
    let (r, _) = simplify_with_table(function, arith, power_key);
    r
}

/// `simplify_h`, also handing back the table of filed terms it built.
pub fn simplify_with_table<'f, A: Fn(Op, u64, u64) -> u64, K: Fn(u64) -> Option<[u8; 16]>>(
    function: Function<'f>,
    arith: &A,
    power_key: &K,
) -> (r: (Function<'f>, Vec<Slot<'f>>))
    requires
        is_arithmetic(*arith),
        is_power_key(*power_key),
        forall|ds: Seq<bool>| #[trigger]
            hashed(function@, Seq::empty(), arithmetic(*arith), power_keys(*power_key), ds) is Some,
    ensures
        exists|ds: Seq<bool>| #[trigger]
            hashed(function@, Seq::empty(), arithmetic(*arith), power_keys(*power_key), ds) == Some(
                (r.0@, slot_views(r.1@), Seq::<bool>::empty()),
            ),
{
    let mut table: Vec<Slot<'f>> = Vec::new();
    let ghost t = function@;
    proof {
        assert(slot_views(table@) =~= Seq::<(Term, FunctionType, Term)>::empty());
    }
    let root = Arc::new(function);
    let (r, Ghost(dec)) = simplify_hash2(&root, &mut table, arith, power_key);
    proof {
        let none = Seq::<bool>::empty();
        assert(dec + none =~= dec);
        assert(hashed(t, Seq::empty(), arithmetic(*arith), power_keys(*power_key), dec + none) == Some(
            (r@, slot_views(table@), none),
        ));
    }
    (r, table)
}


/// An entry of the graph of nodes: a node and the terms it is made of.
pub struct Link<'f> {
    pub node: Arc<Function<'f>>,
    pub children: Vec<Arc<Function<'f>>>,
}

/// The entries of a graph as terms.
pub open spec fn link_views(g: Seq<Link>) -> Seq<(Term, Seq<Term>)> {
    Seq::new(g.len(), |i: int| (g[i].node@, terms_of(g[i].children@)))
}

/// Whether an entry from position `j` on records the node `t`: each entry
/// looked at takes one decision, whether it is the very allocation of `t`
/// (which it can only be when they are the same term).
pub open spec fn recorded(g: Seq<(Term, Seq<Term>)>, j: int, t: Term, ds: Seq<bool>) -> (
    bool,
    Seq<bool>,
)
    decreases g.len() - j,
{
    if j < 0 || j >= g.len() {
        (false, ds)
    } else if next_decision(ds) && g[j].0 == t {
        (true, later_decisions(ds))
    } else {
        recorded(g, j + 1, t, later_decisions(ds))
    }
}

/// The graph `g` after recording the node `t` and, through sums and
/// products, every node below it, each unless it is recorded already; and
/// the decisions left.
pub open spec fn linked(t: Term, g: Seq<(Term, Seq<Term>)>, ds: Seq<bool>) -> (
    Seq<(Term, Seq<Term>)>,
    Seq<bool>,
)
    decreases size(t), 0int,
{
    let (known, ds1) = recorded(g, 0, t, ds);
    if known {
        (g, ds1)
    } else {
        match t {
            Term::Add(s) => link_from(s, 0, g.push((t, s)), ds1),
            Term::Mul(s) => link_from(s, 0, g.push((t, s)), ds1),
            _ => (g.push((t, Seq::empty())), ds1),
        }
    }
}

/// The graph `g` after recording the terms `s[i..]` in turn (`linked`).
pub open spec fn link_from(s: Seq<Term>, i: int, g: Seq<(Term, Seq<Term>)>, ds: Seq<bool>) -> (
    Seq<(Term, Seq<Term>)>,
    Seq<bool>,
)
    decreases size_of(s), s.len() - i + 1,
{
    if i < 0 || i >= s.len() {
        (g, ds)
    } else {
        proof {
            lemma_size_of_member(s, i);
        }
        let (g1, ds1) = linked(s[i], g, ds);
        link_from(s, i + 1, g1, ds1)
    }
}

/// Recording a node never drops or changes an entry: the graph before is
/// a prefix of the graph after.
pub proof fn lemma_linked_keeps(t: Term, g: Seq<(Term, Seq<Term>)>, ds: Seq<bool>)
    ensures
        g.is_prefix_of(linked(t, g, ds).0),
    decreases size(t), 0int,
{
    let (known, ds1) = recorded(g, 0, t, ds);
    if !known {
        match t {
            Term::Add(s) => {
                lemma_link_from_keeps(s, 0, g.push((t, s)), ds1);
            },
            Term::Mul(s) => {
                lemma_link_from_keeps(s, 0, g.push((t, s)), ds1);
            },
            _ => {},
        }
    }
}

/// Recording the terms `s[i..]` keeps the graph as a prefix.
pub proof fn lemma_link_from_keeps(s: Seq<Term>, i: int, g: Seq<(Term, Seq<Term>)>, ds: Seq<bool>)
    ensures
        g.is_prefix_of(link_from(s, i, g, ds).0),
    decreases size_of(s), s.len() - i + 1,
{
    if 0 <= i < s.len() {
        lemma_size_of_member(s, i);
        let (g1, ds1) = linked(s[i], g, ds);
        lemma_linked_keeps(s[i], g, ds);
        lemma_link_from_keeps(s, i + 1, g1, ds1);
    }
}

/// Whether the graph records the allocation `function` points to, as
/// `recorded` says; returns the decisions its tests took.
fn is_recorded<'f>(graph: &Vec<Link<'f>>, function: &Arc<Function<'f>>) -> (res: (
    bool,
    Ghost<Seq<bool>>,
))
    ensures
        forall|ds: Seq<bool>| #[trigger]
            recorded(link_views(graph@), 0, function@, res.1@ + ds) == (res.0, ds),
{
    let ghost g = link_views(graph@);
    let ghost mut dec: Seq<bool> = Seq::empty();
    let mut j: usize = 0;
    proof {
        assert forall|ds: Seq<bool>| #[trigger] recorded(g, 0, function@, dec + ds) == recorded(
            g,
            j as int,
            function@,
            ds,
        ) by {
            assert(dec + ds =~= ds);
        }
    }
    let mut found = false;
    while j < graph.len() && !found
        invariant
            j <= graph@.len(),
            g == link_views(graph@),
            !found ==> forall|ds: Seq<bool>| #[trigger]
                recorded(g, 0, function@, dec + ds) == recorded(g, j as int, function@, ds),
            found ==> forall|ds: Seq<bool>| #[trigger] recorded(g, 0, function@, dec + ds) == (true, ds),
        decreases graph@.len() - j + (if found {
            0int
        } else {
            1int
        }),
    {
        let same = same_allocation(&graph[j].node, function);
        proof {
            assert(g[j as int].0 == graph@[j as int].node@);
            lemma_decision_front(same);
            assert forall|ds: Seq<bool>| #[trigger]
                recorded(g, 0, function@, dec.push(same) + ds) == recorded(
                    g,
                    j as int,
                    function@,
                    seq![same] + ds,
                ) by {
                assert(dec.push(same) + ds =~= dec + (seq![same] + ds));
            }
            dec = dec.push(same);
        }
        if same {
            found = true;
        } else {
            j = j + 1;
        }
    }
    (found, Ghost(dec))
}

/// Records the node `function` points to and the nodes below it, as
/// `linked` says; returns the decisions its tests took.
fn link<'f>(function: &Arc<Function<'f>>, graph: &mut Vec<Link<'f>>) -> (dec: Ghost<Seq<bool>>)
    ensures
        forall|ds: Seq<bool>| #[trigger]
            linked(function@, link_views(old(graph)@), dec@ + ds) == (link_views(final(graph)@), ds),
    decreases size(function@), 1nat,
{
    let ghost t = function@;
    let ghost g0 = link_views(graph@);
    let (known, Ghost(d0)) = is_recorded(graph, function);
    if known {
        Ghost(d0)
    } else {
        match &**function {
            Function::Add { vec } => {
                proof {
                    lemma_terms_of_vec(*vec);
                }
                graph.push(Link { node: clone_arc(function), children: clone_terms(vec) });
                let ghost g1 = link_views(graph@);
                proof {
                    assert(g1 =~= g0.push((t, terms_of(vec@))));
                }
                let Ghost(d1) = link_children(function, vec, graph);
                proof {
                    assert forall|ds: Seq<bool>| #[trigger]
                        linked(t, g0, d0 + d1 + ds) == (link_views(graph@), ds) by {
                        assert(d0 + d1 + ds =~= d0 + (d1 + ds));
                        assert(recorded(g0, 0, t, d0 + (d1 + ds)) == (false, d1 + ds));
                        assert(link_from(terms_of(vec@), 0, g1, d1 + ds) == (link_views(graph@), ds));
                    }
                }
                Ghost(d0 + d1)
            },
            Function::Mul { vec } => {
                proof {
                    lemma_terms_of_vec(*vec);
                }
                graph.push(Link { node: clone_arc(function), children: clone_terms(vec) });
                let ghost g1 = link_views(graph@);
                proof {
                    assert(g1 =~= g0.push((t, terms_of(vec@))));
                }
                let Ghost(d1) = link_children(function, vec, graph);
                proof {
                    assert forall|ds: Seq<bool>| #[trigger]
                        linked(t, g0, d0 + d1 + ds) == (link_views(graph@), ds) by {
                        assert(d0 + d1 + ds =~= d0 + (d1 + ds));
                        assert(recorded(g0, 0, t, d0 + (d1 + ds)) == (false, d1 + ds));
                        assert(link_from(terms_of(vec@), 0, g1, d1 + ds) == (link_views(graph@), ds));
                    }
                }
                Ghost(d0 + d1)
            },
            _ => {
                let none: Vec<Arc<Function<'f>>> = Vec::new();
                graph.push(Link { node: clone_arc(function), children: none });
                proof {
                    assert(terms_of(none@) =~= Seq::<Term>::empty());
                    assert(link_views(graph@) =~= g0.push((t, Seq::empty())));
                }
                Ghost(d0)
            },
        }
    }
}

/// Records the terms of the sum or product `function` points to in turn
/// (`link_from`); returns the decisions its tests took.
fn link_children<'f>(
    function: &Arc<Function<'f>>,
    vec: &Vec<Arc<Function<'f>>>,
    graph: &mut Vec<Link<'f>>,
) -> (dec: Ghost<Seq<bool>>)
    requires
        function@ == Term::Add(terms_of(vec@)) || function@ == Term::Mul(terms_of(vec@)),
    ensures
        forall|ds: Seq<bool>| #[trigger]
            link_from(terms_of(vec@), 0, link_views(old(graph)@), dec@ + ds) == (
                link_views(final(graph)@),
                ds,
            ),
    decreases size(function@), 0nat,
{
    let ghost s = terms_of(vec@);
    let ghost g0 = link_views(graph@);
    let ghost mut dec: Seq<bool> = Seq::empty();
    let mut i: usize = 0;
    proof {
        assert forall|ds: Seq<bool>| #[trigger] link_from(s, 0, g0, dec + ds) == link_from(
            s,
            i as int,
            link_views(graph@),
            ds,
        ) by {
            assert(dec + ds =~= ds);
        }
    }
    while i < vec.len()
        invariant
            i <= vec@.len(),
            s == terms_of(vec@),
            function@ == Term::Add(s) || function@ == Term::Mul(s),
            forall|ds: Seq<bool>| #[trigger]
                link_from(s, 0, g0, dec + ds) == link_from(s, i as int, link_views(graph@), ds),
        decreases vec@.len() - i,
    {
        let ghost g = link_views(graph@);
        proof {
            assert(s[i as int] == vec@[i as int]@);
            lemma_size_of_member(s, i as int);
        }
        let Ghost(d1) = link(&vec[i], graph);
        proof {
            assert forall|ds: Seq<bool>| #[trigger]
                link_from(s, 0, g0, dec + d1 + ds) == link_from(
                    s,
                    i + 1,
                    link_views(graph@),
                    ds,
                ) by {
                assert(dec + d1 + ds =~= dec + (d1 + ds));
                assert(linked(s[i as int], g, d1 + ds) == (link_views(graph@), ds));
            }
            dec = dec + d1;
        }
        i = i + 1;
    }
    Ghost(dec)
}

/// Records in `graph` the node `function` points to and, through sums and
/// products, every node below it, with the terms each is made of; a node
/// whose allocation is recorded already is left, with what lies below it.
/// Which allocations are one decides which nodes are left; the graph is the
/// one `linked` gives for some outcome of those tests.
pub fn simplify_hash<'f>(function: &Arc<Function<'f>>, graph: &mut Vec<Link<'f>>)
    ensures
        exists|ds: Seq<bool>| #[trigger]
            linked(function@, link_views(old(graph)@), ds) == (
                link_views(final(graph)@),
                Seq::<bool>::empty(),
            ),
{
    let ghost g0 = link_views(graph@);
    let Ghost(dec) = link(function, graph);
    proof {
        let none = Seq::<bool>::empty();
        assert(dec + none =~= dec);
        assert(linked(function@, g0, dec + none) == (link_views(graph@), none));
    }
}

} // verus!
