use std::sync::Arc;
use rust_decimal::Decimal;
use symbolic::function::function::Function;
use symbolic::function::simplify_hash::{simplify_h, simplify_hash, simplify_with_table, Link, Op};

fn arith(o: Op, a: u64, b: u64) -> u64 {
    let (x, y) = (f64::from_bits(a), f64::from_bits(b));
    let r = match o {
        Op::Plus => x + y,
        Op::Minus => x - y,
        Op::Times => x * y,
        Op::Divide => x / y,
    };
    r.to_bits()
}

fn power_key(p: u64) -> Option<[u8; 16]> {
    Decimal::from_f64_retain(f64::from_bits(p)).map(|d| d.serialize())
}

fn fold_plus(a: u64, b: u64) -> u64 {
    arith(Op::Plus, a, b)
}

fn fold_minus(a: u64, b: u64) -> u64 {
    arith(Op::Minus, a, b)
}

fn num(x: f64) -> u64 {
    x.to_bits()
}

fn c(x: f64) -> Function<'static> {
    Function::Constant(num(x))
}

fn s<'f>(f: Function<'f>, m: f64, p: f64) -> Function<'f> {
    Function::S { f: Arc::new(f), m: num(m), p: num(p) }
}

fn sum<'f>(v: Vec<Function<'f>>) -> Function<'f> {
    Function::Add { vec: v.into_iter().map(Arc::new).collect() }
}

fn product<'f>(v: Vec<Function<'f>>) -> Function<'f> {
    Function::Mul { vec: v.into_iter().map(Arc::new).collect() }
}

fn sub<'f>(l: Function<'f>, r: Function<'f>) -> Function<'f> {
    Function::Sub { lhs: Arc::new(l), rhs: Arc::new(r) }
}

/// The terms of a scaled sum or product `1 * (...)^1`.
fn inner<'f>(f: &Function<'f>) -> Vec<Function<'f>> {
    match f {
        Function::S { f, m, p } => {
            assert_eq!(*m, num(1.0));
            assert_eq!(*p, num(1.0));
            match &**f {
                Function::Add { vec } | Function::Mul { vec } => vec.iter().map(|t| (**t).clone()).collect(),
                _ => panic!("a sum or a product was expected"),
            }
        },
        _ => panic!("a scaled term was expected"),
    }
}

fn is_scaled(f: &Function, name: &str, m: f64, p: f64) -> bool {
    match f {
        Function::S { f, m: fm, p: fp } => {
            matches!(**f, Function::Variable(v) if v == name) && *fm == num(m) && *fp == num(p)
        },
        _ => false,
    }
}

fn is_constant(f: &Function, x: f64) -> bool {
    matches!(f, Function::Constant(v) if *v == num(x))
}

#[test]
fn test_simplify_hash() {
    let x = Function::Variable("x");
    let y = Function::Variable("y");
    let z = Function::Variable("z");
    let a = Function::Variable("a");

    let f = z.clone().add(a.clone(), &fold_plus).sub(x.clone().sub(y.clone(), &fold_minus), &fold_minus);
    let f_simple = simplify_h(f.clone(), &arith, &power_key);
    println!("Input: {:?}", f);
    println!("Simpl: {:?}", f_simple);
}

#[test]
fn a_sum_minus_a_difference_files_all_four_terms() {
    let f = sub(
        sum(vec![Function::Variable("z"), Function::Variable("a")]),
        sub(Function::Variable("x"), Function::Variable("y")),
    );
    let t = inner(&simplify_h(f, &arith, &power_key));
    assert_eq!(t.len(), 4);
    assert!(is_scaled(&t[0], "z", 1.0, 1.0));
    assert!(is_scaled(&t[1], "a", 1.0, 1.0));
    assert!(is_scaled(&t[2], "x", -1.0, 1.0));
    assert!(is_scaled(&t[3], "y", 1.0, 1.0));
}

#[test]
fn variables_constants_and_scaled_terms() {
    assert!(is_scaled(&simplify_h(Function::Variable("x"), &arith, &power_key), "x", 1.0, 1.0));
    assert!(is_constant(&simplify_h(c(2.5), &arith, &power_key), 2.5));
    assert!(is_scaled(&simplify_h(s(Function::Variable("x"), 3.0, 2.0), &arith, &power_key), "x", 3.0, 2.0));
}

#[test]
fn like_terms_of_a_sum_are_added() {
    let f = sum(vec![Function::Variable("x"), c(2.0), Function::Variable("x"), c(3.0), Function::Variable("y")]);
    let t = inner(&simplify_h(f, &arith, &power_key));
    assert_eq!(t.len(), 3);
    assert!(is_scaled(&t[0], "x", 2.0, 1.0));
    assert!(is_constant(&t[1], 5.0));
    assert!(is_scaled(&t[2], "y", 1.0, 1.0));
}

#[test]
fn opposite_terms_of_a_sum_cancel() {
    let f = sum(vec![s(Function::Variable("x"), 1.0, 1.0), s(Function::Variable("x"), -1.0, 1.0)]);
    let t = inner(&simplify_h(f, &arith, &power_key));
    assert_eq!(t.len(), 1);
    assert!(is_constant(&t[0], 0.0));
}

#[test]
fn terms_of_unequal_powers_stay_apart() {
    let f = sum(vec![s(Function::Variable("x"), 1.0, 2.0), Function::Variable("x")]);
    let t = inner(&simplify_h(f, &arith, &power_key));
    assert_eq!(t.len(), 2);
    assert!(is_scaled(&t[0], "x", 1.0, 2.0));
    assert!(is_scaled(&t[1], "x", 1.0, 1.0));
}

#[test]
fn powers_are_compared_as_decimals() {
    // 0.0 and -0.0 have different byte forms as decimals but are equal.
    let f = sum(vec![s(Function::Variable("x"), 1.0, 0.0), s(Function::Variable("x"), 1.0, -0.0)]);
    let t = inner(&simplify_h(f, &arith, &power_key));
    assert_eq!(t.len(), 1);
    match &t[0] {
        Function::S { m, .. } => assert_eq!(*m, num(2.0)),
        _ => panic!("a scaled term was expected"),
    }
}

#[test]
fn like_factors_of_a_product_are_multiplied() {
    let f = product(vec![Function::Variable("x"), c(2.0), Function::Variable("x"), c(3.0)]);
    let t = inner(&simplify_h(f, &arith, &power_key));
    assert_eq!(t.len(), 2);
    assert!(is_scaled(&t[0], "x", 1.0, 2.0));
    assert!(is_constant(&t[1], 6.0));
}

#[test]
fn differences_of_constants_and_of_equal_terms() {
    assert!(is_constant(&simplify_h(sub(c(5.0), c(3.0)), &arith, &power_key), 2.0));
    assert!(is_constant(&simplify_h(sub(Function::Variable("x"), Function::Variable("x")), &arith, &power_key), 0.0));
    let f = sub(s(Function::Variable("x"), 5.0, 1.0), s(Function::Variable("x"), 2.0, 1.0));
    assert!(is_scaled(&simplify_h(f, &arith, &power_key), "x", 3.0, 1.0));
    let xy = || sum(vec![Function::Variable("x"), Function::Variable("y")]);
    assert!(is_constant(&simplify_h(sub(xy(), xy()), &arith, &power_key), 0.0));
}

#[test]
fn a_difference_of_two_sums_files_the_second_unnegated() {
    let f = sub(
        sum(vec![Function::Variable("x"), Function::Variable("y")]),
        sum(vec![Function::Variable("x"), Function::Variable("z")]),
    );
    let t = inner(&simplify_h(f, &arith, &power_key));
    assert_eq!(t.len(), 3);
    assert!(is_constant(&t[0], 0.0));
    assert!(is_scaled(&t[1], "y", 1.0, 1.0));
    assert!(is_scaled(&t[2], "z", 1.0, 1.0));
}

#[test]
fn a_difference_of_unlike_terms_stays() {
    match simplify_h(sub(Function::Variable("x"), c(1.0)), &arith, &power_key) {
        Function::S { f, m, p } => {
            assert_eq!((m, p), (num(1.0), num(1.0)));
            match &*f {
                Function::Sub { lhs, rhs } => {
                    assert!(is_scaled(lhs, "x", 1.0, 1.0));
                    assert!(is_constant(rhs, 1.0));
                },
                _ => panic!("a difference was expected"),
            }
        },
        _ => panic!("a scaled term was expected"),
    }
}

#[test]
fn quotients() {
    let f = Function::Div { num: Arc::new(c(6.0)), den: Arc::new(c(3.0)) };
    assert!(is_constant(&simplify_h(f, &arith, &power_key), 2.0));
    let f = Function::Div { num: Arc::new(Function::Variable("x")), den: Arc::new(Function::Variable("x")) };
    assert!(is_scaled(&simplify_h(f, &arith, &power_key), "x", 1.0, 0.0));
    let f = Function::Div { num: Arc::new(Function::Variable("x")), den: Arc::new(c(2.0)) };
    match simplify_h(f, &arith, &power_key) {
        Function::S { f, .. } => match &*f {
            Function::Div { num, den } => {
                match &**num {
                    Function::S { f, .. } => assert!(is_scaled(f, "x", 1.0, 1.0)),
                    _ => panic!("a scaled numerator was expected"),
                }
                match &**den {
                    Function::S { f, .. } => assert!(is_constant(f, 2.0)),
                    _ => panic!("a scaled denominator was expected"),
                }
            },
            _ => panic!("a quotient was expected"),
        },
        _ => panic!("a scaled term was expected"),
    }
}

#[test]
fn the_graph_records_each_node_with_its_terms() {
    let f = Arc::new(sum(vec![
        Function::Variable("x"),
        product(vec![Function::Variable("y"), Function::Variable("z")]),
        sub(Function::Variable("u"), Function::Variable("v")),
    ]));
    let mut graph: Vec<Link> = Vec::new();
    simplify_hash(&f, &mut graph);
    let sizes: Vec<usize> = graph.iter().map(|l| l.children.len()).collect();
    assert_eq!(sizes, vec![3, 0, 2, 0, 0, 0]);
    assert!(Arc::ptr_eq(&graph[0].node, &f));
    assert!(matches!(*graph[1].node, Function::Variable("x")));
    assert!(matches!(*graph[3].node, Function::Variable("y")));
    assert!(matches!(*graph[4].node, Function::Variable("z")));
    assert!(matches!(*graph[5].node, Function::Sub { .. }));
}

#[test]
fn a_shared_node_is_recorded_once() {
    let m = Arc::new(product(vec![Function::Variable("y"), Function::Variable("z")]));
    let f = Arc::new(Function::Add { vec: vec![m.clone(), m.clone()] });
    let mut graph: Vec<Link> = Vec::new();
    simplify_hash(&f, &mut graph);
    assert_eq!(graph.len(), 4);
    assert!(Arc::ptr_eq(&graph[1].node, &m));
    // recording again leaves the graph as it is
    simplify_hash(&f, &mut graph);
    assert_eq!(graph.len(), 4);
    // an equal node held elsewhere is another allocation
    let g = Arc::new(product(vec![Function::Variable("y"), Function::Variable("z")]));
    simplify_hash(&g, &mut graph);
    assert_eq!(graph.len(), 7);
}

#[test]
fn the_table_holds_the_terms_a_sum_filed() {
    let f = sum(vec![Function::Variable("x"), Function::Variable("x"), c(1.0)]);
    let (r, table) = simplify_with_table(f, &arith, &power_key);
    assert_eq!(inner(&r).len(), 2);
    assert_eq!(table.len(), 2);
    assert!(is_scaled(&table[0].value, "x", 2.0, 1.0));
    assert!(is_constant(&table[1].value, 1.0));
}

#[test]
fn a_cancellation_leaves_a_zero_beside_the_constant() {
    let f = sum(vec![Function::Variable("x"), s(Function::Variable("x"), -1.0, 1.0), c(5.0)]);
    let t = inner(&simplify_h(f, &arith, &power_key));
    assert_eq!(t.len(), 2);
    assert!(is_constant(&t[0], 0.0));
    assert!(is_constant(&t[1], 5.0));
}
