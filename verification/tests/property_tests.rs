use std::str::FromStr;

use latex_equivalencer::exec;
use latex_equivalencer::formula::Formula;
use latex_equivalencer::operator::Operator;

fn ts(s: &str) -> Formula {
    Formula::TS(s.chars().collect())
}

fn same_tree(a: &Formula, b: &Formula) -> bool {
    match (a, b) {
        (Formula::TS(x), Formula::TS(y)) => x == y,
        (Formula::Add(xs), Formula::Add(ys)) | (Formula::Mul(xs), Formula::Mul(ys)) => {
            xs.len() == ys.len() && xs.iter().zip(ys.iter()).all(|(p, q)| same_tree(p, q))
        }
        (Formula::Empty, Formula::Empty) => true,
        _ => false,
    }
}

#[test]
fn no_cross_operator_merge_test() {
    assert!(!exec("a+(b*c)", "(a+b)*c").unwrap());
}

#[test]
fn terminal_exactness_test() {
    assert!(exec("1", "1").unwrap());
    assert!(!exec("x", "y").unwrap());
}

#[test]
fn implicit_multiplication_commutes_test() {
    assert!(exec("2x", "2*x").unwrap());
    assert!(exec("2xy", "2*x*y").unwrap());
    assert!(exec("2*x*y", "y*2*x").unwrap());
}

#[test]
fn flatten_idempotent_test() {
    let tree = Formula::Add(vec![
        Formula::Add(vec![Formula::Add(vec![ts("x"), ts("y")]), ts("z")]),
        Formula::Mul(vec![Formula::Mul(vec![ts("a"), ts("b")]), ts("c")]),
        ts("1"),
    ]);
    let once = Formula::expand_paren(tree.duplicate());
    let twice = Formula::expand_paren(Formula::expand_paren(tree));
    assert!(same_tree(&once, &twice));
}

#[test]
fn commuted_products_inside_sum_test() {
    // Commutativity holds under the sum even where the commuted
    // children are structurally far apart.
    assert!(exec("x*y + x*z", "y*x + x*z").unwrap());
    assert!(exec("a*b + c*d + e", "d*c + e + b*a").unwrap());
}

#[test]
fn collapse_single_term_test() {
    // A sum whose other term vanishes collapses to its lone child.
    assert!(exec("x + ()", "x").unwrap());
    assert!(exec("x * ()", "x").unwrap());
}

#[test]
fn paren_only_input_test() {
    // Balanced strings of parentheses alone are vacuous groups; an
    // unbalanced input never yields a formula, parentheses-only or not.
    assert!(Formula::parse("(())").unwrap().is_empty());
    assert!(Formula::parse("((").is_err());
    assert!(Formula::parse(")(").is_err());
    assert!(Formula::parse("())(").is_err());
}

#[test]
fn deep_nesting_test() {
    assert!(exec("((((x))))", "x").unwrap());
    assert!(exec("(((x + y)))", "y + x").unwrap());
}

#[test]
fn is_empty_test() {
    assert!(Formula::parse("()").unwrap().is_empty());
    assert!(Formula::parse("   ").unwrap().is_empty());
    assert!(!Formula::parse("x").unwrap().is_empty());
}

#[test]
fn parse_error_message_test() {
    let err = Formula::parse("(x").unwrap_err();
    assert_eq!(err.message(), "Failed to parse a formula");
}

#[test]
fn operator_from_str_test() {
    assert!(matches!(Operator::from_str("+"), Ok(Operator::Add)));
    assert!(Operator::from_str("-").is_err());
    assert!(Operator::from_str("++").is_err());
}

#[test]
fn implicit_multiplication_with_paren_test() {
    // A parenthesis inside an implicitly multiplied run is re-parsed on
    // its own and dissolves into the empty expression.
    assert!(exec("x(y)", "x*y").unwrap());
}

#[test]
fn subtraction_is_opaque_test() {
    // `-` is no operator here: it survives as an opaque factor.
    assert!(exec("x - 1", "x-1").unwrap());
    assert!(!exec("x - 1", "x - 2").unwrap());
}
