use std::sync::Arc;
use symbolic::function::function::Function;
use symbolic::function::simplify_nohash::simplify;

fn plus(a: u64, b: u64) -> u64 {
    (f64::from_bits(a) + f64::from_bits(b)).to_bits()
}

fn times(a: u64, b: u64) -> u64 {
    (f64::from_bits(a) * f64::from_bits(b)).to_bits()
}

fn one() -> u64 {
    1.0f64.to_bits()
}

fn terms<'f>(f: &Function<'f>) -> Vec<Function<'f>> {
    match f {
        Function::S { f, m, p } => {
            assert_eq!(*m, one());
            assert_eq!(*p, one());
            match &**f {
                Function::Add { vec } | Function::Mul { vec } => vec.iter().map(|t| (**t).clone()).collect(),
                _ => panic!("a sum or a product was expected"),
            }
        },
        _ => panic!("a scaled term was expected"),
    }
}

#[test]
fn hi() {
    let x = Function::Variable("x");
    let y = Function::Variable("y");
    let z = x.clone().add(y.clone(), &plus).mul(x.clone(), &times);
    let z_simple = simplify(z.clone(), &plus, &times);
    println!("{:?}", z);
    println!("{:?}", z_simple);
}

#[test]
fn a_variable_becomes_a_scaled_term() {
    match simplify(Function::Variable("x"), &plus, &times) {
        Function::S { f, m, p } => {
            assert!(matches!(*f, Function::Variable("x")));
            assert_eq!(m, one());
            assert_eq!(p, one());
        },
        _ => panic!("a scaled term was expected"),
    }
    match simplify(Function::Constant(2.0f64.to_bits()), &plus, &times) {
        Function::Constant(c) => assert_eq!(f64::from_bits(c), 2.0),
        _ => panic!("a constant was expected"),
    }
}

#[test]
fn like_terms_of_a_sum_are_combined() {
    let x = Function::Variable("x");
    let y = Function::Variable("y");
    let two = Function::Constant(2.0f64.to_bits());
    let three = Function::Constant(3.0f64.to_bits());
    let sum = Function::Add {
        vec: vec![
            Arc::new(x.clone()),
            Arc::new(two),
            Arc::new(y.clone()),
            Arc::new(x.clone()),
            Arc::new(three),
        ],
    };
    let s = simplify(sum, &plus, &times);
    let t = terms(&s);
    assert_eq!(t.len(), 3);
    match &t[0] {
        Function::S { f, m, p } => {
            assert!(matches!(**f, Function::Variable("x")));
            assert_eq!(f64::from_bits(*m), 2.0);
            assert_eq!(*p, one());
        },
        _ => panic!("x was expected"),
    }
    match &t[1] {
        Function::Constant(c) => assert_eq!(f64::from_bits(*c), 5.0),
        _ => panic!("a constant was expected"),
    }
    match &t[2] {
        Function::S { f, m, .. } => {
            assert!(matches!(**f, Function::Variable("y")));
            assert_eq!(f64::from_bits(*m), 1.0);
        },
        _ => panic!("y was expected"),
    }
}

#[test]
fn like_factors_of_a_product_are_combined() {
    let x = Function::Variable("x");
    let product = Function::Mul {
        vec: vec![
            Arc::new(x.clone()),
            Arc::new(Function::Constant(2.0f64.to_bits())),
            Arc::new(x.clone()),
            Arc::new(Function::Constant(4.0f64.to_bits())),
        ],
    };
    let s = simplify(product, &plus, &times);
    let t = terms(&s);
    assert_eq!(t.len(), 2);
    match &t[0] {
        Function::S { f, m, p } => {
            assert!(matches!(**f, Function::Variable("x")));
            assert_eq!(f64::from_bits(*m), 1.0);
            assert_eq!(f64::from_bits(*p), 2.0);
        },
        _ => panic!("x was expected"),
    }
    match &t[1] {
        Function::Constant(c) => assert_eq!(f64::from_bits(*c), 8.0),
        _ => panic!("a constant was expected"),
    }
}

#[test]
fn powers_must_match_in_a_sum() {
    let x = Arc::new(Function::Variable("x"));
    let square = Function::S { f: x.clone(), m: 3.0f64.to_bits(), p: 2.0f64.to_bits() };
    let cube = Function::S { f: x.clone(), m: 3.0f64.to_bits(), p: 3.0f64.to_bits() };
    let sum = Function::Add { vec: vec![Arc::new(square.clone()), Arc::new(cube), Arc::new(square)] };
    let t = terms(&simplify(sum, &plus, &times));
    assert_eq!(t.len(), 2);
    match &t[0] {
        Function::S { m, p, .. } => {
            assert_eq!(f64::from_bits(*m), 6.0);
            assert_eq!(f64::from_bits(*p), 2.0);
        },
        _ => panic!("a scaled term was expected"),
    }
}
