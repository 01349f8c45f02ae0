use symbolic::binary::{freeze, Function};

fn var(name: &str) -> Function {
    Function::Variable(name.to_string())
}

fn constant(value: f64) -> Function {
    Function::Constant(value.to_bits())
}

#[test]
fn test_freeze_simple() {
    let a = var("x");
    let b = var("y");
    let c = constant(3.0);

    let d = Function::Add(Box::new(a.clone()), Box::new(b.clone()));
    let e = Function::Sub(Box::new(d.clone()), Box::new(c.clone()));

    let a_uuid = freeze(&a);
    let b_uuid = freeze(&b);
    let _c_uuid = freeze(&c);
    let d_uuid = freeze(&d);
    let e_uuid = freeze(&e);

    assert_ne!(a_uuid, b_uuid);
    assert_eq!(a_uuid, freeze(&a));
    assert_eq!(b_uuid, freeze(&b));
    assert_ne!(d_uuid, e_uuid);
}

#[test]
fn test_freeze_large_tree() {
    let x = var("x");
    let y = var("y");
    let z = var("z");
    let c1 = constant(5.0);
    let c2 = constant(2.0);

    let expr1 = Function::Add(
        Box::new(Function::Mul(Box::new(x.clone()), Box::new(y.clone()))),
        Box::new(Function::Sub(Box::new(z.clone()), Box::new(c1.clone()))),
    );

    let expr2 = Function::Div(
        Box::new(Function::Add(
            Box::new(Function::Mul(Box::new(y.clone()), Box::new(c2.clone()))),
            Box::new(Function::Sub(Box::new(z.clone()), Box::new(x.clone()))),
        )),
        Box::new(Function::Add(Box::new(c1.clone()), Box::new(c2.clone()))),
    );

    let expr1_uuid = freeze(&expr1);
    let expr2_uuid = freeze(&expr2);

    assert_ne!(expr1_uuid, expr2_uuid);
    assert_eq!(expr1_uuid, freeze(&expr1));
    assert_eq!(expr2_uuid, freeze(&expr2));
}

#[test]
fn test_freeze_identical_trees() {
    let x = var("x");
    let y = var("y");
    let z = var("z");
    let c1 = constant(5.0);

    let expr1 = Function::Add(
        Box::new(Function::Mul(Box::new(x.clone()), Box::new(y.clone()))),
        Box::new(Function::Sub(Box::new(z.clone()), Box::new(c1.clone()))),
    );

    let expr1_clone = Function::Add(
        Box::new(Function::Mul(Box::new(x.clone()), Box::new(y.clone()))),
        Box::new(Function::Sub(Box::new(z.clone()), Box::new(c1.clone()))),
    );

    let expr1_uuid = freeze(&expr1);
    let expr1_clone_uuid = freeze(&expr1_clone);

    assert_eq!(expr1_uuid, expr1_clone_uuid);
}

#[test]
fn test_freeze_deep_nesting() {
    let x = var("x");

    let expr = (0..100).fold(x.clone(), |acc, _| Function::Add(Box::new(acc), Box::new(x.clone())));

    let expr_uuid = freeze(&expr);

    assert_eq!(expr_uuid, freeze(&expr));
}

#[test]
fn test_freeze_commutativity() {
    let x = var("x");
    let y = var("y");

    let expr1 = Function::Add(Box::new(x.clone()), Box::new(y.clone()));
    let expr2 = Function::Add(Box::new(y.clone()), Box::new(x.clone()));

    let expr1_uuid = freeze(&expr1);
    let expr2_uuid = freeze(&expr2);

    assert_eq!(expr1_uuid, expr2_uuid);

    let expr3 = Function::Mul(Box::new(x.clone()), Box::new(y.clone()));
    let expr4 = Function::Mul(Box::new(y.clone()), Box::new(x.clone()));

    let expr3_uuid = freeze(&expr3);
    let expr4_uuid = freeze(&expr4);

    assert_eq!(expr3_uuid, expr4_uuid);
}

#[test]
fn test_freeze_associativity() {
    let x = var("x");
    let y = var("y");
    let z = var("z");

    let expr1 = Function::Add(Box::new(Function::Add(Box::new(x.clone()), Box::new(y.clone()))), Box::new(z.clone()));
    let expr2 = Function::Add(Box::new(x.clone()), Box::new(Function::Add(Box::new(y.clone()), Box::new(z.clone()))));

    let expr1_uuid = freeze(&expr1);
    let expr2_uuid = freeze(&expr2);

    assert_eq!(expr1_uuid, expr2_uuid);

    let expr3 = Function::Sub(Box::new(Function::Sub(Box::new(x.clone()), Box::new(y.clone()))), Box::new(z.clone()));
    let expr4 = Function::Sub(Box::new(x.clone()), Box::new(Function::Sub(Box::new(y.clone()), Box::new(z.clone()))));

    let expr3_uuid = freeze(&expr3);
    let expr4_uuid = freeze(&expr4);

    assert_ne!(expr3_uuid, expr4_uuid);
}

#[test]
fn test_freeze_floating_point_edge_cases() {
    let c1 = constant(0.0);
    let c2 = constant(-0.0);
    let c3 = constant(f64::NAN);
    let c4 = constant(f64::INFINITY);
    let c5 = constant(f64::NEG_INFINITY);

    assert_ne!(freeze(&c1), freeze(&c2));
    assert_ne!(freeze(&c1), freeze(&c3));
    assert_ne!(freeze(&c1), freeze(&c4));
    assert_ne!(freeze(&c1), freeze(&c5));
    assert_ne!(freeze(&c2), freeze(&c3));
    assert_ne!(freeze(&c2), freeze(&c4));
    assert_ne!(freeze(&c2), freeze(&c5));
    assert_ne!(freeze(&c3), freeze(&c4));
    assert_ne!(freeze(&c3), freeze(&c5));
    assert_ne!(freeze(&c4), freeze(&c5));
}

#[test]
fn equality_is_equality_of_fingerprints() {
    let x = var("x");
    let y = var("y");
    let xy = Function::Mul(Box::new(x.clone()), Box::new(y.clone()));
    let yx = Function::Mul(Box::new(y.clone()), Box::new(x.clone()));
    assert!(xy == yx);
    assert!(x != y);
    let q1 = Function::Div(Box::new(x.clone()), Box::new(y.clone()));
    let q2 = Function::Div(Box::new(y.clone()), Box::new(x.clone()));
    assert_eq!(q1 == q2, freeze(&q1) == freeze(&q2));
}

#[test]
fn product_associativity_of_fingerprints() {
    let x = var("x");
    let y = var("y");
    let z = var("z");
    let left = Function::Mul(Box::new(Function::Mul(Box::new(x.clone()), Box::new(y.clone()))), Box::new(z.clone()));
    let right = Function::Mul(Box::new(x.clone()), Box::new(Function::Mul(Box::new(y.clone()), Box::new(z.clone()))));
    assert_eq!(freeze(&left), freeze(&right));
}

#[test]
fn clone_keeps_the_fingerprint() {
    let e = Function::Div(Box::new(var("a")), Box::new(constant(2.5)));
    assert_eq!(freeze(&e), freeze(&e.clone()));
}
