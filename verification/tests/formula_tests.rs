use latex_equivalencer::formula::Formula;

fn ts(s: &str) -> Formula {
    Formula::TS(s.chars().collect())
}

#[test]
fn formula_empty_test() {
    assert!(Formula::eq_without_expand(&Formula::parse("").unwrap(), &Formula::Empty));
    assert!(Formula::eq_without_expand(&Formula::parse("    ").unwrap(), &Formula::Empty));
}

#[test]
fn ts_test() {
    let input = Formula::parse("x").unwrap();
    let expect = ts("x");
    assert!(Formula::eq_without_expand(&input, &expect));
}

#[test]
fn ts_remove_paren_test() {
    let input = Formula::parse("(x)").unwrap();
    let expect = ts("x");
    assert!(Formula::eq_without_expand(&input, &expect));
}

#[test]
fn add_2_terms_test() {
    let input = Formula::parse("x + 1").unwrap();
    let expect = Formula::Add(vec![ts("x"), ts("1")]);
    assert!(Formula::eq_without_expand(&input, &expect));
}

#[test]
fn add_3_terms_test() {
    let input = Formula::parse("x + y + 1").unwrap();
    let expect = Formula::Add(vec![ts("x"), ts("y"), ts("1")]);
    assert!(Formula::eq_without_expand(&input, &expect));
}

#[test]
fn formula_add_trim_test() {
    let input_no_spaces = Formula::parse("x+1").unwrap();
    let input_many_spaces = Formula::parse(" x  +  1 ").unwrap();
    let expect = Formula::Add(vec![ts("x"), ts("1")]);
    assert!(Formula::eq_without_expand(&input_no_spaces, &expect));
    assert!(Formula::eq_without_expand(&input_many_spaces, &expect));
}

#[test]
fn mul_2_terms_test() {
    let input = Formula::parse("x * 1").unwrap();
    let expect = Formula::Mul(vec![ts("x"), ts("1")]);
    assert!(Formula::eq_without_expand(&input, &expect));
}

#[test]
fn mul_3_terms_test() {
    let input = Formula::parse("x * y * 1").unwrap();
    let expect = Formula::Mul(vec![ts("x"), ts("y"), ts("1")]);
    assert!(Formula::eq_without_expand(&input, &expect));
}

#[test]
fn mul_2_terms_abbreviate_test() {
    let input = Formula::parse("2 x").unwrap();
    let expect = Formula::Mul(vec![ts("2"), ts("x")]);
    assert!(Formula::eq_without_expand(&input, &expect));
}

#[test]
fn mul_3_terms_abbreviate_test() {
    let input = Formula::parse("2 x y").unwrap();
    let expect = Formula::Mul(vec![ts("2"), ts("x"), ts("y")]);
    assert!(Formula::eq_without_expand(&input, &expect));
}

#[test]
fn mul_2_terms_abbreviate_no_spaces_test() {
    let input = Formula::parse("2x").unwrap();
    let expect = Formula::Mul(vec![ts("2"), ts("x")]);
    assert!(Formula::eq_without_expand(&input, &expect));
}

#[test]
fn mul_3_terms_abbreviate_no_spaces_test() {
    let input = Formula::parse("2xy").unwrap();
    let expect = Formula::Mul(vec![ts("2"), ts("x"), ts("y")]);
    assert!(Formula::eq_without_expand(&input, &expect));
}

#[test]
fn formula_mul_trim_test() {
    let input_no_spaces = Formula::parse("x*1").unwrap();
    let input_many_spaces = Formula::parse(" x  *  1 ").unwrap();
    let expect = Formula::Mul(vec![ts("x"), ts("1")]);
    assert!(Formula::eq_without_expand(&input_no_spaces, &expect));
    assert!(Formula::eq_without_expand(&input_many_spaces, &expect));
}

#[test]
fn empty_paren_test() {
    assert!(Formula::eq_without_expand(&Formula::parse("()").unwrap(), &Formula::Empty));
    assert!(Formula::eq_without_expand(&Formula::parse(" + ").unwrap(), &Formula::Empty));
    assert!(Formula::eq_without_expand(&Formula::parse("(()+())").unwrap(), &Formula::Empty));
    assert!(Formula::eq_without_expand(&Formula::parse(" * ").unwrap(), &Formula::Empty));
    assert!(Formula::eq_without_expand(&Formula::parse("(()())").unwrap(), &Formula::Empty));
}

#[test]
fn paren_fail_test() {
    assert!(Formula::parse("(x").is_err());
    assert!(Formula::parse("x)").is_err());
    assert!(Formula::parse(")x(").is_err());
    assert!(Formula::parse("(x))(").is_err());
    assert!(Formula::parse("(x + 1))").is_err());
    assert!(Formula::parse("((x + 1)").is_err());
}

#[test]
fn paren_add_test() {
    let input = Formula::parse("(x + y) + 1").unwrap();
    let expect = Formula::Add(vec![Formula::Add(vec![ts("x"), ts("y")]), ts("1")]);
    assert!(Formula::eq_without_expand(&input, &expect));
}

#[test]
fn paren_mul_test() {
    let input = Formula::parse("(x * y) * 1").unwrap();
    let expect = Formula::Mul(vec![Formula::Mul(vec![ts("x"), ts("y")]), ts("1")]);
    assert!(Formula::eq_without_expand(&input, &expect));
}

#[test]
fn formula_true_test() {
    assert!(Formula::eq_without_expand(&ts("x"), &ts("x")));
}

#[test]
fn formula_false_test() {
    assert!(!Formula::eq_without_expand(&ts("x"), &ts("y")));
}

#[test]
fn no_paren_ts_test() {
    let input = ts("x");
    let expect = ts("x");
    assert!(Formula::eq_without_expand(&Formula::expand_paren(input), &expect));
}

#[test]
fn no_paren_add_test() {
    let input = Formula::Add(vec![ts("x"), ts("y"), ts("1")]);
    let expect = input.duplicate();
    assert!(Formula::eq_without_expand(&Formula::expand_paren(input), &expect));
}

#[test]
fn no_paren_mul_test() {
    let input = Formula::Mul(vec![ts("x"), ts("y"), ts("1")]);
    let expect = input.duplicate();
    assert!(Formula::eq_without_expand(&Formula::expand_paren(input), &expect));
}

#[test]
fn no_paren_test() {
    let input = Formula::Add(vec![Formula::Mul(vec![ts("2"), ts("x")]), ts("y")]);
    let expect = input.duplicate();
    assert!(Formula::eq_without_expand(&Formula::expand_paren(input), &expect));
}

#[test]
fn not_expand_paren_test() {
    let input = Formula::Add(vec![
        Formula::Mul(vec![ts("2"), Formula::Add(vec![ts("x"), ts("y")])]),
        ts("1"),
    ]);
    let expect = input.duplicate();
    assert!(Formula::eq_without_expand(&Formula::expand_paren(input), &expect));
}

#[test]
fn expand_add_paren_test() {
    let input = Formula::Add(vec![
        Formula::Add(vec![ts("x"), ts("y")]),
        Formula::Add(vec![ts("a"), ts("b")]),
        ts("1"),
    ]);
    let expect = Formula::Add(vec![ts("x"), ts("y"), ts("a"), ts("b"), ts("1")]);
    assert!(Formula::eq_without_expand(&Formula::expand_paren(input), &expect));
}

#[test]
fn expand_recursive_add_paren_test() {
    let input = Formula::Add(vec![
        Formula::Add(vec![Formula::Add(vec![ts("x"), ts("y")]), ts("z")]),
        ts("1"),
    ]);
    let expect = Formula::Add(vec![ts("x"), ts("y"), ts("z"), ts("1")]);
    assert!(Formula::eq_without_expand(&Formula::expand_paren(input), &expect));
}

#[test]
fn expand_mul_paren_test() {
    let input = Formula::Mul(vec![
        Formula::Mul(vec![ts("x"), ts("y")]),
        Formula::Mul(vec![ts("a"), ts("b")]),
        ts("1"),
    ]);
    let expect = Formula::Mul(vec![ts("x"), ts("y"), ts("a"), ts("b"), ts("1")]);
    assert!(Formula::eq_without_expand(&Formula::expand_paren(input), &expect));
}

#[test]
fn expand_recursive_mul_paren_test() {
    let input = Formula::Mul(vec![
        Formula::Mul(vec![Formula::Mul(vec![ts("x"), ts("y")]), ts("z")]),
        ts("1"),
    ]);
    let expect = Formula::Mul(vec![ts("x"), ts("y"), ts("z"), ts("1")]);
    assert!(Formula::eq_without_expand(&Formula::expand_paren(input), &expect));
}
