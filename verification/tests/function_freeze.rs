use std::sync::Arc;
use symbolic::function::freeze::freeze;
use symbolic::function::function::Function;

fn plus(a: u64, b: u64) -> u64 {
    (f64::from_bits(a) + f64::from_bits(b)).to_bits()
}

fn times(a: u64, b: u64) -> u64 {
    (f64::from_bits(a) * f64::from_bits(b)).to_bits()
}

fn minus(a: u64, b: u64) -> u64 {
    (f64::from_bits(a) - f64::from_bits(b)).to_bits()
}

fn divide(a: u64, b: u64) -> u64 {
    (f64::from_bits(a) / f64::from_bits(b)).to_bits()
}

fn constant(value: f64) -> Function<'static> {
    Function::Constant(value.to_bits())
}

#[test]
fn test_freeze() {
    let x = Function::Variable("x");
    let y = Function::Variable("y");
    let z = x.clone().mul(y.clone(), &times);
    let z2 = y.clone().mul(x.clone(), &times);
    let z_simple = freeze(&z);
    let z2_simple = freeze(&z2);
    println!("{:?}", z);
    println!("{:?}", z_simple);
    assert_eq!(z_simple, z2_simple);
}

#[test]
fn sums_are_flattened_and_commute() {
    let x = Function::Variable("x");
    let y = Function::Variable("y");
    let z = Function::Variable("z");
    let left = x.clone().add(y.clone(), &plus).add(z.clone(), &plus);
    let right = x.clone().add(y.clone().add(z.clone(), &plus), &plus);
    match &left {
        Function::Add { vec } => assert_eq!(vec.len(), 3),
        _ => panic!("a sum was expected"),
    }
    match &right {
        Function::Add { vec } => assert_eq!(vec.len(), 3),
        _ => panic!("a sum was expected"),
    }
    assert_eq!(freeze(&left), freeze(&right));
    let yx = y.clone().add(x.clone(), &plus);
    let xy = x.clone().add(y.clone(), &plus);
    assert_eq!(freeze(&xy), freeze(&yx));
}

#[test]
fn products_are_flattened_and_associate() {
    let x = Function::Variable("x");
    let y = Function::Variable("y");
    let z = Function::Variable("z");
    let left = x.clone().mul(y.clone(), &times).mul(z.clone(), &times);
    let right = x.clone().mul(y.clone().mul(z.clone(), &times), &times);
    assert_eq!(freeze(&left), freeze(&right));
}

#[test]
fn two_constants_are_folded() {
    match constant(1.5).add(constant(2.0), &plus) {
        Function::Constant(c) => assert_eq!(f64::from_bits(c), 3.5),
        _ => panic!("a constant was expected"),
    }
    match constant(1.5).sub(constant(2.0), &minus) {
        Function::Constant(c) => assert_eq!(f64::from_bits(c), -0.5),
        _ => panic!("a constant was expected"),
    }
    match constant(1.5).mul(constant(2.0), &times) {
        Function::Constant(c) => assert_eq!(f64::from_bits(c), 3.0),
        _ => panic!("a constant was expected"),
    }
    match constant(3.0).div(constant(2.0), &divide) {
        Function::Constant(c) => assert_eq!(f64::from_bits(c), 1.5),
        _ => panic!("a constant was expected"),
    }
}

#[test]
fn difference_and_quotient_keep_their_operands() {
    let x = Function::Variable("x");
    match x.clone().sub(constant(1.0), &minus) {
        Function::Sub { lhs, rhs } => {
            assert!(matches!(*lhs, Function::Variable("x")));
            assert!(matches!(*rhs, Function::Constant(_)));
        },
        _ => panic!("a difference was expected"),
    }
    match x.clone().div(constant(2.0), &divide) {
        Function::Div { num, den } => {
            assert!(matches!(*num, Function::Variable("x")));
            assert!(matches!(*den, Function::Constant(_)));
        },
        _ => panic!("a quotient was expected"),
    }
}

#[test]
fn a_term_joins_a_sum_at_its_end() {
    let x = Function::Variable("x");
    let y = Function::Variable("y");
    let z = Function::Variable("z");
    let sum = x.clone().add(y.clone(), &plus);
    match z.clone().add(sum, &plus) {
        Function::Add { vec } => {
            assert_eq!(vec.len(), 3);
            assert!(matches!(*vec[0], Function::Variable("x")));
            assert!(matches!(*vec[1], Function::Variable("y")));
            assert!(matches!(*vec[2], Function::Variable("z")));
        },
        _ => panic!("a sum was expected"),
    }
}

#[test]
fn constants_with_other_bits_have_other_fingerprints() {
    assert_ne!(freeze(&constant(0.0)), freeze(&constant(-0.0)));
    assert_eq!(freeze(&constant(2.0)), freeze(&constant(2.0)));
}

#[test]
fn names_and_kinds_change_fingerprints() {
    let a = Function::Variable("a");
    let b = Function::Variable("b");
    assert_ne!(freeze(&a), freeze(&b));
    let d1 = Function::Div { num: Arc::new(a.clone()), den: Arc::new(b.clone()) };
    let d2 = Function::Div { num: Arc::new(b.clone()), den: Arc::new(a.clone()) };
    assert_ne!(freeze(&d1), freeze(&d2));
    let s = Function::S { f: Arc::new(a.clone()), m: 2.0f64.to_bits(), p: 1.0f64.to_bits() };
    assert_eq!(freeze(&s), freeze(&s.clone()));
}
