use exprcalc::climber::{arrange, operators, Shape, Side, Token};
use exprcalc::engine::Calc;
use exprcalc::grammar::Rule;
use exprcalc::plan::{EvalError, Operation, Plan};

fn number(start: usize, end: usize) -> Plan {
    Plan::Number { start, end }
}

fn variable(slot: usize) -> Plan {
    Plan::Variable { slot }
}

fn apply(op: Operation, lhs: Plan, rhs: Plan) -> Plan {
    Plan::Apply { op, lhs: Box::new(lhs), rhs: Box::new(rhs) }
}

fn token(rule: Rule, start: usize, end: usize) -> Token {
    Token { rule, start, end }
}

fn leaf(at: usize) -> Shape {
    Shape::Leaf { at }
}

fn node(at: usize, lhs: Shape, rhs: Shape) -> Shape {
    Shape::Node { at, lhs: Box::new(lhs), rhs: Box::new(rhs) }
}

#[test]
fn a_number_resolves_to_its_span() {
    let calc = Calc::new("  42.5 ").unwrap();
    assert_eq!(calc.eval(), Ok(number(2, 6)));
}

#[test]
fn product_binds_tighter_on_the_right() {
    let calc = Calc::new("2 + 3 * 3").unwrap();
    let expected = apply(
        Operation::Add,
        number(0, 1),
        apply(Operation::Mul, number(4, 5), number(8, 9)),
    );
    assert_eq!(calc.eval(), Ok(expected));
}

#[test]
fn product_binds_tighter_on_the_left() {
    let calc = Calc::new("2 * 3 + 3").unwrap();
    let expected = apply(
        Operation::Add,
        apply(Operation::Mul, number(0, 1), number(4, 5)),
        number(8, 9),
    );
    assert_eq!(calc.eval(), Ok(expected));
}

#[test]
fn parentheses_make_one_operand() {
    let calc = Calc::new("(2 + 3) * 3").unwrap();
    let expected = apply(
        Operation::Mul,
        apply(Operation::Add, number(1, 2), number(5, 6)),
        number(10, 11),
    );
    assert_eq!(calc.eval(), Ok(expected));
}

#[test]
fn equal_precedence_groups_to_the_left() {
    let calc = Calc::new("10 - 2 - 3").unwrap();
    let expected = apply(
        Operation::Sub,
        apply(Operation::Sub, number(0, 2), number(5, 6)),
        number(9, 10),
    );
    assert_eq!(calc.eval(), Ok(expected));
}

#[test]
fn sums_and_differences_mix_to_the_left() {
    let calc = Calc::new("1-2+3-4").unwrap();
    let expected = apply(
        Operation::Sub,
        apply(
            Operation::Add,
            apply(Operation::Sub, number(0, 1), number(2, 3)),
            number(4, 5),
        ),
        number(6, 7),
    );
    assert_eq!(calc.eval(), Ok(expected));
}

#[test]
fn products_and_quotients_mix_to_the_left() {
    let calc = Calc::new("8/4*2").unwrap();
    let expected = apply(
        Operation::Mul,
        apply(Operation::Div, number(0, 1), number(2, 3)),
        number(4, 5),
    );
    assert_eq!(calc.eval(), Ok(expected));
}

#[test]
fn long_mixed_chain() {
    let calc = Calc::new("1+2*3*4-5/6").unwrap();
    let expected = apply(
        Operation::Sub,
        apply(
            Operation::Add,
            number(0, 1),
            apply(
                Operation::Mul,
                apply(Operation::Mul, number(2, 3), number(4, 5)),
                number(6, 7),
            ),
        ),
        apply(Operation::Div, number(8, 9), number(10, 11)),
    );
    assert_eq!(calc.eval(), Ok(expected));
}

#[test]
fn variables_resolve_to_their_slots() {
    let calc = Calc::new("(a_variable + 2) * (3 + b2/0.01)").unwrap();
    let names = vec!["b2", "a_variable"];
    let expected = apply(
        Operation::Mul,
        apply(Operation::Add, variable(1), number(14, 15)),
        apply(
            Operation::Add,
            number(20, 21),
            apply(Operation::Div, variable(0), number(27, 31)),
        ),
    );
    assert_eq!(calc.eval_in_context(&names), Ok(expected));
}

#[test]
fn the_first_of_two_equal_names_is_taken() {
    let calc = Calc::new("x").unwrap();
    let names = vec!["y", "x", "x"];
    assert_eq!(calc.eval_in_context(&names), Ok(variable(1)));
}

#[test]
fn names_are_compared_whole() {
    let calc = Calc::new("xy").unwrap();
    let names = vec!["x", "y", "xyz", "xy"];
    assert_eq!(calc.eval_in_context(&names), Ok(variable(3)));
}

#[test]
fn names_are_case_sensitive() {
    let calc = Calc::new("Total").unwrap();
    let names = vec!["total"];
    assert_eq!(
        calc.eval_in_context(&names),
        Err(EvalError::UndefinedVariable { start: 0, end: 5 })
    );
}

#[test]
fn missing_variable_is_an_error() {
    let calc = Calc::new("x + 1").unwrap();
    assert_eq!(calc.eval(), Err(EvalError::UndefinedVariable { start: 0, end: 1 }));
    let names: Vec<&str> = Vec::new();
    assert_eq!(
        calc.eval_in_context(&names),
        Err(EvalError::UndefinedVariable { start: 0, end: 1 })
    );
}

#[test]
fn the_leftmost_missing_variable_is_named() {
    let calc = Calc::new("1 + (a * bb) - ccc").unwrap();
    let names = vec!["a"];
    assert_eq!(
        calc.eval_in_context(&names),
        Err(EvalError::UndefinedVariable { start: 9, end: 11 })
    );
}

#[test]
fn a_table_name_that_is_not_ascii_is_never_found() {
    let calc = Calc::new("e").unwrap();
    let names = vec!["é"];
    assert_eq!(
        calc.eval_in_context(&names),
        Err(EvalError::UndefinedVariable { start: 0, end: 1 })
    );
}

#[test]
fn resolving_twice_gives_the_same_plan() {
    let calc = Calc::new("a * (b + 1) - 2 / c").unwrap();
    let names = vec!["a", "b", "c"];
    assert_eq!(calc.eval_in_context(&names), calc.eval_in_context(&names));
    assert_eq!(calc.eval(), calc.eval());
}

#[test]
fn parsing_twice_gives_the_same_plan() {
    let source = "a * (b + 1) - 2 / c";
    let names = vec!["c", "b", "a"];
    let first = Calc::new(source).unwrap().eval_in_context(&names);
    let second = Calc::new(source).unwrap().eval_in_context(&names);
    assert_eq!(first, second);
}

#[test]
fn a_plan_can_be_duplicated() {
    let plan = Calc::new("1 + 2 * x").unwrap().eval_in_context(&vec!["x"]).unwrap();
    assert_eq!(plan.duplicate(), plan);
}

#[test]
fn the_operator_table_has_two_levels() {
    let table = operators();
    assert_eq!(
        table,
        vec![
            vec![(Rule::Add, Side::Left), (Rule::Sub, Side::Left)],
            vec![(Rule::Mul, Side::Left), (Rule::Div, Side::Left)],
        ]
    );
}

#[test]
fn arrange_takes_the_grouping_by_precedence() {
    // 1 + 2 * 3
    let tokens = vec![
        token(Rule::Term, 0, 1),
        token(Rule::Add, 2, 3),
        token(Rule::Term, 4, 5),
        token(Rule::Mul, 6, 7),
        token(Rule::Term, 8, 9),
    ];
    let plans = vec![number(0, 1), number(4, 5), number(8, 9)];
    let shape = node(2, leaf(0), node(6, leaf(4), leaf(8)));
    let expected = apply(
        Operation::Add,
        number(0, 1),
        apply(Operation::Mul, number(4, 5), number(8, 9)),
    );
    assert_eq!(arrange(&shape, &tokens, &plans), Some(expected));
}

#[test]
fn arrange_refuses_a_grouping_against_precedence() {
    // 1 + 2 * 3 grouped as (1 + 2) * 3
    let tokens = vec![
        token(Rule::Term, 0, 1),
        token(Rule::Add, 2, 3),
        token(Rule::Term, 4, 5),
        token(Rule::Mul, 6, 7),
        token(Rule::Term, 8, 9),
    ];
    let plans = vec![number(0, 1), number(4, 5), number(8, 9)];
    let shape = node(6, node(2, leaf(0), leaf(4)), leaf(8));
    assert_eq!(arrange(&shape, &tokens, &plans), None);
}

#[test]
fn arrange_refuses_a_grouping_to_the_right() {
    // 1 - 2 - 3 grouped as 1 - (2 - 3)
    let tokens = vec![
        token(Rule::Term, 0, 1),
        token(Rule::Sub, 2, 3),
        token(Rule::Term, 4, 5),
        token(Rule::Sub, 6, 7),
        token(Rule::Term, 8, 9),
    ];
    let plans = vec![number(0, 1), number(4, 5), number(8, 9)];
    let right = node(2, leaf(0), node(6, leaf(4), leaf(8)));
    assert_eq!(arrange(&right, &tokens, &plans), None);
    let left = node(6, node(2, leaf(0), leaf(4)), leaf(8));
    let expected = apply(
        Operation::Sub,
        apply(Operation::Sub, number(0, 1), number(4, 5)),
        number(8, 9),
    );
    assert_eq!(arrange(&left, &tokens, &plans), Some(expected));
}

#[test]
fn arrange_refuses_a_shape_that_drops_tokens() {
    let tokens = vec![
        token(Rule::Term, 0, 1),
        token(Rule::Add, 2, 3),
        token(Rule::Term, 4, 5),
    ];
    let plans = vec![number(0, 1), number(4, 5)];
    assert_eq!(arrange(&leaf(0), &tokens, &plans), None);
    assert_eq!(arrange(&node(2, leaf(0), leaf(0)), &tokens, &plans), None);
    assert_eq!(arrange(&node(3, leaf(0), leaf(4)), &tokens, &plans), None);
}

#[test]
fn arrange_of_one_operand_is_its_plan() {
    let tokens = vec![token(Rule::Term, 3, 4)];
    let plans = vec![variable(7)];
    assert_eq!(arrange(&leaf(3), &tokens, &plans), Some(variable(7)));
    assert_eq!(arrange(&leaf(2), &tokens, &plans), None);
}

#[test]
fn arrange_refuses_what_is_no_run() {
    let tokens = vec![token(Rule::Term, 0, 1), token(Rule::Add, 2, 3)];
    let plans = vec![number(0, 1)];
    assert_eq!(arrange(&leaf(0), &tokens, &plans), None);
    let none: Vec<Token> = Vec::new();
    assert_eq!(arrange(&leaf(0), &none, &Vec::new()), None);
    let short = vec![token(Rule::Term, 0, 1)];
    assert_eq!(arrange(&leaf(0), &short, &vec![number(0, 1), number(4, 5)]), None);
}

#[test]
fn a_long_chain_groups_to_the_left() {
    let mut source = String::from("x");
    for _ in 0..400 {
        source.push_str(" - x");
    }
    let calc = Calc::new(&source).unwrap();
    let mut plan = calc.eval_in_context(&vec!["x"]).unwrap();
    let mut depth = 0;
    while let Plan::Apply { op, lhs, rhs } = plan {
        assert_eq!(op, Operation::Sub);
        assert_eq!(*rhs, variable(0));
        plan = *lhs;
        depth += 1;
    }
    assert_eq!(depth, 400);
    assert_eq!(plan, variable(0));
}

#[test]
fn deep_parentheses() {
    let mut source = String::new();
    for _ in 0..200 {
        source.push('(');
    }
    source.push('7');
    for _ in 0..200 {
        source.push_str(" )");
    }
    let calc = Calc::new(&source).unwrap();
    assert_eq!(calc.eval(), Ok(number(200, 201)));
}
