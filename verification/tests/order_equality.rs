use std::cmp::Ordering;
use std::sync::Arc;
use symbolic::function::function::Function;

fn constant(value: f64) -> Function<'static> {
    Function::Constant(value.to_bits())
}

fn scaled(f: Function<'static>, m: f64, p: f64) -> Function<'static> {
    Function::S { f: Arc::new(f), m: m.to_bits(), p: p.to_bits() }
}

#[test]
fn variables_come_first_then_constants() {
    let x = Function::Variable("x");
    let y = Function::Variable("y");
    assert_eq!(x.cmp(&y), Ordering::Less);
    assert_eq!(y.cmp(&x), Ordering::Greater);
    assert_eq!(x.cmp(&x.clone()), Ordering::Equal);
    assert_eq!(x.cmp(&constant(1.0)), Ordering::Less);
    assert_eq!(constant(1.0).cmp(&x), Ordering::Greater);
    assert_eq!(constant(1.0).cmp(&scaled(Function::Variable("x"), 1.0, 1.0)), Ordering::Less);
    assert_eq!(x.partial_cmp(&y), Some(Ordering::Less));
}

#[test]
fn constants_compare_by_value() {
    assert_eq!(constant(-2.0).cmp(&constant(1.0)), Ordering::Less);
    assert_eq!(constant(0.0).cmp(&constant(-0.0)), Ordering::Equal);
    assert_eq!(constant(3.0).cmp(&constant(f64::INFINITY)), Ordering::Less);
    assert_eq!(constant(-1.0).cmp(&constant(-3.0)), Ordering::Greater);
}

#[test]
fn scaled_terms_compare_by_function_then_multiplier_then_power() {
    let a = scaled(Function::Variable("a"), 5.0, 1.0);
    let b = scaled(Function::Variable("b"), 1.0, 1.0);
    assert_eq!(a.cmp(&b), Ordering::Less);
    let a2 = scaled(Function::Variable("a"), 2.0, 1.0);
    assert_eq!(a.cmp(&a2), Ordering::Greater);
    let a3 = scaled(Function::Variable("a"), 5.0, 3.0);
    assert_eq!(a.cmp(&a3), Ordering::Less);
}

#[test]
fn sums_compare_by_length() {
    let s2 = Function::Add { vec: vec![Arc::new(constant(9.0)), Arc::new(constant(8.0))] };
    let s1 = Function::Add { vec: vec![Arc::new(constant(1.0))] };
    assert_eq!(s1.cmp(&s2), Ordering::Less);
}

#[test]
fn equality_of_leaves() {
    assert!(Function::Variable("x").eq(&Function::Variable("x")));
    assert!(!Function::Variable("x").eq(&Function::Variable("y")));
    assert!(constant(0.0).eq(&constant(-0.0)));
    assert!(!constant(f64::NAN).eq(&constant(f64::NAN)));
    assert!(!Function::Variable("x").eq(&constant(1.0)));
}

#[test]
fn sums_are_equal_whatever_the_order_of_their_terms() {
    let a = Function::Add {
        vec: vec![Arc::new(Function::Variable("x")), Arc::new(constant(2.0))],
    };
    let b = Function::Add {
        vec: vec![Arc::new(constant(2.0)), Arc::new(Function::Variable("x"))],
    };
    assert!(a.eq(&b));
    let c = Function::Add {
        vec: vec![Arc::new(constant(3.0)), Arc::new(Function::Variable("x"))],
    };
    assert!(!a.eq(&c));
    let d = Function::Add { vec: vec![Arc::new(Function::Variable("x"))] };
    assert!(!a.eq(&d));
}

#[test]
fn quotients_are_never_equal() {
    let q = Function::Div { num: Arc::new(Function::Variable("x")), den: Arc::new(constant(2.0)) };
    assert!(!q.eq(&q.clone()));
}

#[test]
fn shared_subterms_count_as_equal() {
    let nan = Arc::new(constant(f64::NAN));
    let a = Function::S { f: nan.clone(), m: 1.0f64.to_bits(), p: 1.0f64.to_bits() };
    let b = Function::S { f: nan.clone(), m: 1.0f64.to_bits(), p: 1.0f64.to_bits() };
    assert!(a.eq(&b));
    let c = Function::S { f: Arc::new(constant(f64::NAN)), m: 1.0f64.to_bits(), p: 1.0f64.to_bits() };
    assert!(!a.eq(&c));
}

#[test]
fn differences_compare_both_sides() {
    let d1 = Function::Sub { lhs: Arc::new(Function::Variable("x")), rhs: Arc::new(constant(1.0)) };
    let d2 = Function::Sub { lhs: Arc::new(Function::Variable("x")), rhs: Arc::new(constant(1.0)) };
    let d3 = Function::Sub { lhs: Arc::new(Function::Variable("x")), rhs: Arc::new(constant(2.0)) };
    assert!(d1.eq(&d2));
    assert!(!d1.eq(&d3));
}

#[test]
fn comparing_the_other_way_round_reverses_the_order() {
    let terms = vec![
        Function::Variable("x"),
        Function::Variable("y"),
        constant(-1.0),
        constant(2.0),
        scaled(Function::Variable("x"), 2.0, 1.0),
        scaled(Function::Variable("x"), 2.0, 3.0),
    ];
    for a in &terms {
        for b in &terms {
            assert_eq!(a.cmp(b), b.cmp(a).reverse());
        }
    }
}

#[test]
fn the_order_is_transitive() {
    let x = Function::Variable("x");
    let c = constant(4.0);
    let s = scaled(Function::Variable("a"), 1.0, 1.0);
    assert_eq!(x.cmp(&c), Ordering::Less);
    assert_eq!(c.cmp(&s), Ordering::Less);
    assert_eq!(x.cmp(&s), Ordering::Less);
    let s1 = scaled(Function::Variable("a"), 1.0, 1.0);
    let s2 = scaled(Function::Variable("a"), 1.0, 2.0);
    let s3 = scaled(Function::Variable("b"), 0.5, 1.0);
    assert_eq!(s1.cmp(&s2), Ordering::Less);
    assert_eq!(s2.cmp(&s3), Ordering::Less);
    assert_eq!(s1.cmp(&s3), Ordering::Less);
}

#[test]
fn equality_is_symmetric_and_transitive() {
    let a = Function::Add { vec: vec![Arc::new(Function::Variable("x")), Arc::new(constant(0.0))] };
    let b = Function::Add { vec: vec![Arc::new(constant(-0.0)), Arc::new(Function::Variable("x"))] };
    let c = Function::Add { vec: vec![Arc::new(Function::Variable("x")), Arc::new(constant(-0.0))] };
    assert!(a.eq(&b) && b.eq(&a));
    assert!(b.eq(&c));
    assert!(a.eq(&c));
    assert!(a.eq(&a));
}

#[test]
fn equal_terms_compare_level() {
    let a = scaled(Function::Variable("x"), 2.0, 0.0);
    let b = scaled(Function::Variable("x"), 2.0, -0.0);
    assert!(a.eq(&b));
    assert_eq!(a.cmp(&b), Ordering::Equal);
    // the converse does not hold: sums of as many terms compare level
    let s = Function::Add { vec: vec![Arc::new(Function::Variable("x"))] };
    let t = Function::Add { vec: vec![Arc::new(Function::Variable("y"))] };
    assert_eq!(s.cmp(&t), Ordering::Equal);
    assert!(!s.eq(&t));
}

#[test]
fn sums_of_variables_commute_and_associate() {
    let fold = |a: u64, b: u64| (f64::from_bits(a) + f64::from_bits(b)).to_bits();
    let (a, b, c) = (Function::Variable("a"), Function::Variable("b"), Function::Variable("c"));
    assert!(a.clone().add(b.clone(), &fold).eq(&b.clone().add(a.clone(), &fold)));
    let left = a.clone().add(b.clone(), &fold).add(c.clone(), &fold);
    let right = a.clone().add(b.clone().add(c.clone(), &fold), &fold);
    assert!(left.eq(&right));
}

#[test]
fn sums_of_leaves_are_equal_exactly_up_to_permutation() {
    let a = Function::Add {
        vec: vec![Arc::new(Function::Variable("x")), Arc::new(constant(0.0)), Arc::new(constant(2.0))],
    };
    let b = Function::Add {
        vec: vec![Arc::new(constant(2.0)), Arc::new(constant(-0.0)), Arc::new(Function::Variable("x"))],
    };
    assert!(a.eq(&b));
    let c = Function::Add {
        vec: vec![Arc::new(constant(3.0)), Arc::new(constant(0.0)), Arc::new(Function::Variable("x"))],
    };
    assert!(!a.eq(&c));
    let m = Function::Mul {
        vec: vec![Arc::new(Function::Variable("x")), Arc::new(constant(0.0)), Arc::new(constant(2.0))],
    };
    assert!(!a.eq(&m));
}
