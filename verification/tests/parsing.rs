use exprcalc::engine::Calc;
use exprcalc::grammar::{Expected, Rule};
use exprcalc::parser::{parse, Pair};
use exprcalc::position::SyntaxError;

fn error(source: &str) -> SyntaxError {
    match Calc::new(source) {
        Ok(_) => panic!("{:?} was accepted", source),
        Err(e) => e,
    }
}

fn at(position: usize, line: usize, column: usize, expected: Expected) -> SyntaxError {
    SyntaxError { position, line, column, expected }
}

fn shape(pair: &Pair) -> String {
    let inner: Vec<String> = pair.inner.iter().map(shape).collect();
    format!("{:?}[{}..{}]({})", pair.rule, pair.start, pair.end, inner.join(" "))
}

#[test]
fn tree_of_a_sum() {
    let root = parse("1 + 5.5".as_bytes()).unwrap();
    assert_eq!(
        shape(&root),
        "Calc[0..7](Expr[0..7](Term[0..1](Number[0..1]()) Add[2..3]() Term[4..7](Number[4..7]())))"
    );
}

#[test]
fn tree_of_a_group() {
    let root = parse("(a+2)*b".as_bytes()).unwrap();
    assert_eq!(
        shape(&root),
        "Calc[0..7](Expr[0..7](Term[0..5](Expr[1..4](Term[1..2](Var[1..2]()) Add[2..3]() \
         Term[3..4](Number[3..4]()))) Mul[5..6]() Term[6..7](Var[6..7]())))"
    );
}

#[test]
fn tree_keeps_the_order_of_the_source() {
    let root = parse("a - b / c".as_bytes()).unwrap();
    let expr = &root.inner[0];
    let rules: Vec<Rule> = expr.inner.iter().map(|pair| pair.rule).collect();
    assert_eq!(rules, vec![Rule::Term, Rule::Sub, Rule::Term, Rule::Div, Rule::Term]);
    let starts: Vec<usize> = expr.inner.iter().map(|pair| pair.start).collect();
    assert_eq!(starts, vec![0, 2, 4, 6, 8]);
}

#[test]
fn blanks_around_tokens_are_skipped() {
    let root = parse(" \t( 1\n+\r\n2 )  ".as_bytes()).unwrap();
    assert_eq!(
        shape(&root),
        "Calc[0..14](Expr[2..12](Term[2..12](Expr[4..10](Term[4..5](Number[4..5]()) Add[6..7]() \
         Term[9..10](Number[9..10]())))))"
    );
}

#[test]
fn calc_exposes_source_and_tree() {
    let calc = Calc::new("x*2").unwrap();
    assert_eq!(calc.source(), "x*2");
    assert_eq!(
        shape(calc.root()),
        "Calc[0..3](Expr[0..3](Term[0..1](Var[0..1]()) Mul[1..2]() Term[2..3](Number[2..3]())))"
    );
}

#[test]
fn numbers() {
    for source in ["0", "007", "12.50", "-3", "+3", "-0.5", "3.14159"] {
        let root = parse(source.as_bytes()).unwrap();
        let number = &root.inner[0].inner[0].inner[0];
        assert_eq!(number.rule, Rule::Number);
        assert_eq!((number.start, number.end), (0, source.len()));
    }
}

#[test]
fn names() {
    for source in ["x", "_", "_1", "a_variable", "b2", "CamelCase", "__x__9"] {
        let root = parse(source.as_bytes()).unwrap();
        let name = &root.inner[0].inner[0].inner[0];
        assert_eq!(name.rule, Rule::Var);
        assert_eq!((name.start, name.end), (0, source.len()));
    }
}

#[test]
fn a_sign_after_an_operand_is_an_operator() {
    let root = parse("2 -3".as_bytes()).unwrap();
    assert_eq!(
        shape(&root),
        "Calc[0..4](Expr[0..4](Term[0..1](Number[0..1]()) Sub[2..3]() Term[3..4](Number[3..4]())))"
    );
}

#[test]
fn a_sign_after_an_operator_belongs_to_the_number() {
    let root = parse("2--3".as_bytes()).unwrap();
    assert_eq!(
        shape(&root),
        "Calc[0..4](Expr[0..4](Term[0..1](Number[0..1]()) Sub[1..2]() Term[2..4](Number[2..4]())))"
    );
}

#[test]
fn missing_operand() {
    assert_eq!(error("2 +"), at(3, 1, 4, Expected::Term));
}

#[test]
fn missing_close() {
    assert_eq!(error("(1 + 2"), at(6, 1, 7, Expected::OperatorOrClose));
}

#[test]
fn unknown_character() {
    assert_eq!(error("1 $ 2"), at(2, 1, 3, Expected::OperatorOrEnd));
}

#[test]
fn empty_text() {
    assert_eq!(error(""), at(0, 1, 1, Expected::Term));
    assert_eq!(error("   "), at(3, 1, 4, Expected::Term));
}

#[test]
fn two_operands_in_a_row() {
    assert_eq!(error("1 2"), at(2, 1, 3, Expected::OperatorOrEnd));
    assert_eq!(error("1a"), at(1, 1, 2, Expected::OperatorOrEnd));
    assert_eq!(error("(1)(2)"), at(3, 1, 4, Expected::OperatorOrEnd));
}

#[test]
fn two_operators_in_a_row() {
    assert_eq!(error("1 * / 2"), at(4, 1, 5, Expected::Term));
    assert_eq!(error("* 2"), at(0, 1, 1, Expected::Term));
}

#[test]
fn a_sign_needs_its_digits() {
    assert_eq!(error("- 5"), at(0, 1, 1, Expected::Term));
    assert_eq!(error("-x"), at(0, 1, 1, Expected::Term));
    assert_eq!(error("1 - -(2)"), at(4, 1, 5, Expected::Term));
}

#[test]
fn a_point_needs_digits_on_both_sides() {
    assert_eq!(error("1."), at(1, 1, 2, Expected::OperatorOrEnd));
    assert_eq!(error(".5"), at(0, 1, 1, Expected::Term));
    assert_eq!(error("1.2.3"), at(3, 1, 4, Expected::OperatorOrEnd));
}

#[test]
fn unbalanced_parentheses() {
    assert_eq!(error("1 + 2)"), at(5, 1, 6, Expected::OperatorOrEnd));
    assert_eq!(error("()"), at(1, 1, 2, Expected::Term));
    assert_eq!(error("((1)"), at(4, 1, 5, Expected::OperatorOrClose));
    assert_eq!(error("(1 2)"), at(3, 1, 4, Expected::OperatorOrClose));
}

#[test]
fn text_that_is_not_ascii() {
    assert_eq!(error("é"), at(0, 1, 1, Expected::Term));
    assert_eq!(error("1 + é"), at(4, 1, 5, Expected::Term));
    assert_eq!(error("x\u{a0}+ 1"), at(1, 1, 2, Expected::OperatorOrEnd));
}

#[test]
fn line_and_column_of_an_error() {
    assert_eq!(error("1 +\n2 *\n  $"), at(10, 3, 3, Expected::Term));
    assert_eq!(error("1\n\n\n)"), at(4, 4, 1, Expected::OperatorOrEnd));
    assert_eq!(error("(1\r\n+ 2\r\n"), at(9, 3, 1, Expected::OperatorOrClose));
    assert_eq!(error("1 +\r2 2"), at(6, 1, 7, Expected::OperatorOrEnd));
}

#[test]
fn the_parser_reports_where_it_stopped() {
    let failure = parse("2 * (3 + ".as_bytes()).unwrap_err();
    assert_eq!(failure.at, 9);
    assert_eq!(failure.expected, Expected::Term);
}
