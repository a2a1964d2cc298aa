use flowgraph::parser::lex;
use flowgraph::parser::ParseError;
use flowgraph::parser::Prs;
use flowgraph::parser::Step;
use flowgraph::parser::Tok;
use flowgraph::parser::TokType;

fn texts(input: &str) -> Vec<(String, usize, TokType)> {
    lex(input).iter().map(|t: &Tok| (t.val.clone(), t.pos, t.typ)).collect()
}

fn tok(val: &str, pos: usize, typ: TokType) -> (String, usize, TokType) {
    (val.to_string(), pos, typ)
}

#[test]
fn lex_of_nothing_is_empty() {
    assert_eq!(texts(""), vec![]);
    assert_eq!(texts("  ( ) ,"), vec![]);
}

#[test]
fn lex_splits_numbers_names_and_operators() {
    assert_eq!(
        texts("12+ab_3*4.5"),
        vec![
            tok("12", 2, TokType::Num),
            tok("+", 2, TokType::Op),
            tok("ab_3", 7, TokType::Id),
            tok("*", 7, TokType::Op),
            tok("4.5", 11, TokType::Num),
        ]
    );
}

#[test]
fn lex_knows_all_five_operators() {
    assert_eq!(
        texts("+-*/^"),
        vec![
            tok("+", 0, TokType::Op),
            tok("-", 1, TokType::Op),
            tok("*", 2, TokType::Op),
            tok("/", 3, TokType::Op),
            tok("^", 4, TokType::Op),
        ]
    );
}

#[test]
fn lex_takes_points_into_a_number() {
    assert_eq!(texts("1.2.3"), vec![tok("1.2.3", 5, TokType::Num)]);
    assert_eq!(texts("7."), vec![tok("7.", 2, TokType::Num)]);
}

#[test]
fn lex_passes_over_a_leading_point() {
    assert_eq!(texts(".5"), vec![tok("5", 2, TokType::Num)]);
}

#[test]
fn lex_ends_a_number_at_a_letter() {
    assert_eq!(texts("2x"), vec![tok("2", 1, TokType::Num), tok("x", 2, TokType::Id)]);
}

#[test]
fn lex_lets_a_name_begin_with_an_underscore() {
    assert_eq!(texts("_a1 B"), vec![tok("_a1", 3, TokType::Id), tok("B", 5, TokType::Id)]);
}

#[test]
fn lex_counts_positions_in_characters() {
    assert_eq!(texts("\u{e9}\u{e9}+1"), vec![tok("+", 2, TokType::Op), tok("1", 4, TokType::Num)]);
}

#[test]
fn new_parser_stands_at_the_first_token() {
    let p = Prs::new("1 + 2");
    assert_eq!(p.len(), 3);
    assert_eq!(p.pos(), 0);
    assert_eq!(p.tok(1).unwrap().val, "+");
    assert!(p.tok(3).is_none());
}

#[test]
fn parse_gives_the_steps_of_a_sum_of_products() {
    let mut p = Prs::new("1 + 2 * x - 4 / 5");
    let plan = p.parse();
    assert!(plan.fault.is_none());
    assert_eq!(
        plan.steps,
        vec![
            Step::Num(0),
            Step::Num(2),
            Step::Var(4),
            Step::Mul,
            Step::Add,
            Step::Num(6),
            Step::Num(8),
            Step::Div,
            Step::Sub,
        ]
    );
    assert_eq!(p.pos(), 9);
}

#[test]
fn parse_of_one_number() {
    let mut p = Prs::new("42");
    let plan = p.parse();
    assert!(plan.fault.is_none());
    assert_eq!(plan.steps, vec![Step::Num(0)]);
    assert_eq!(p.pos(), 1);
}

#[test]
fn parse_of_nothing_meets_the_end() {
    let mut p = Prs::new("");
    let plan = p.parse();
    assert!(matches!(plan.fault, Some(ParseError::UnexpectedEOF)));
    assert_eq!(plan.steps, vec![]);
    assert_eq!(p.pos(), 0);
}

#[test]
fn parse_meets_the_end_behind_an_operator() {
    let mut p = Prs::new("1 / 0 +");
    let plan = p.parse();
    assert!(matches!(plan.fault, Some(ParseError::UnexpectedEOF)));
    assert_eq!(plan.steps, vec![Step::Num(0), Step::Num(2), Step::Div]);
    assert_eq!(p.pos(), 4);
}

#[test]
fn parse_rejects_an_operator_in_place_of_a_factor() {
    let mut p = Prs::new("3 * + 4");
    let plan = p.parse();
    match plan.fault {
        Some(ParseError::InvalidToken(m)) => assert_eq!(m, "unexpected token: +"),
        _ => panic!("wrong fault"),
    }
    assert_eq!(plan.steps, vec![Step::Num(0)]);
    assert_eq!(p.pos(), 3);
}

#[test]
fn parse_rejects_a_number_with_two_points() {
    let mut p = Prs::new("2 + 1.2.3");
    let plan = p.parse();
    match plan.fault {
        Some(ParseError::InvalidToken(m)) => assert_eq!(m, "invalid number: 1.2.3"),
        _ => panic!("wrong fault"),
    }
    assert_eq!(plan.steps, vec![Step::Num(0)]);
    assert_eq!(p.pos(), 3);
}

#[test]
fn parse_reads_a_power() {
    let mut p = Prs::new("2 ^ 3");
    let plan = p.parse();
    assert!(plan.fault.is_none());
    assert_eq!(plan.steps, vec![Step::Num(0), Step::Num(2), Step::Pow]);
    assert_eq!(p.pos(), 3);
}

#[test]
fn parse_groups_powers_to_the_right() {
    let mut p = Prs::new("2 ^ x ^ 2");
    let plan = p.parse();
    assert!(plan.fault.is_none());
    assert_eq!(
        plan.steps,
        vec![Step::Num(0), Step::Var(2), Step::Num(4), Step::Pow, Step::Pow]
    );
    assert_eq!(p.pos(), 5);
}

#[test]
fn parse_binds_a_power_tighter_than_a_product() {
    let mut p = Prs::new("2 * 3 ^ 2 / 4 ^ 5 + 1");
    let plan = p.parse();
    assert!(plan.fault.is_none());
    assert_eq!(
        plan.steps,
        vec![
            Step::Num(0),
            Step::Num(2),
            Step::Num(4),
            Step::Pow,
            Step::Mul,
            Step::Num(6),
            Step::Num(8),
            Step::Pow,
            Step::Div,
            Step::Num(10),
            Step::Add,
        ]
    );
    assert_eq!(p.pos(), 11);
}

#[test]
fn parse_takes_a_power_as_the_first_factor() {
    let mut p = Prs::new("2 ^ 3 * 4 - 1");
    let plan = p.parse();
    assert!(plan.fault.is_none());
    assert_eq!(
        plan.steps,
        vec![
            Step::Num(0),
            Step::Num(2),
            Step::Pow,
            Step::Num(4),
            Step::Mul,
            Step::Num(6),
            Step::Sub,
        ]
    );
    assert_eq!(p.pos(), 7);
}

#[test]
fn parse_meets_the_end_behind_a_power_sign() {
    let mut p = Prs::new("2 ^");
    let plan = p.parse();
    assert!(matches!(plan.fault, Some(ParseError::UnexpectedEOF)));
    assert_eq!(plan.steps, vec![Step::Num(0)]);
    assert_eq!(p.pos(), 2);
}

#[test]
fn parse_keeps_the_steps_before_a_bad_exponent() {
    let mut p = Prs::new("1 + 2 ^ 3 ^ * 4");
    let plan = p.parse();
    match plan.fault {
        Some(ParseError::InvalidToken(m)) => assert_eq!(m, "unexpected token: *"),
        _ => panic!("wrong fault"),
    }
    assert_eq!(plan.steps, vec![Step::Num(0), Step::Num(2), Step::Num(4)]);
    assert_eq!(p.pos(), 7);
}

#[test]
fn parse_rejects_a_power_sign_in_place_of_a_factor() {
    let mut p = Prs::new("^ 2");
    let plan = p.parse();
    match plan.fault {
        Some(ParseError::InvalidToken(m)) => assert_eq!(m, "unexpected token: ^"),
        _ => panic!("wrong fault"),
    }
    assert_eq!(plan.steps, vec![]);
    assert_eq!(p.pos(), 1);
}

#[test]
fn parse_reads_a_long_chain_of_powers() {
    let mut text = String::from("1");
    for _ in 0..20000 {
        text.push_str("^1");
    }
    let mut p = Prs::new(&text);
    let plan = p.parse();
    assert!(plan.fault.is_none());
    assert_eq!(plan.steps.len(), 40001);
    assert_eq!(plan.steps[20000], Step::Num(40000));
    assert_eq!(plan.steps[20001], Step::Pow);
    assert_eq!(plan.steps[40000], Step::Pow);
    assert_eq!(p.pos(), 40001);
}

#[test]
fn parse_stops_before_what_continues_nothing() {
    let mut p = Prs::new("2 3 ^ 4");
    let plan = p.parse();
    assert!(plan.fault.is_none());
    assert_eq!(plan.steps, vec![Step::Num(0)]);
    assert_eq!(p.pos(), 1);
    let next = p.parse();
    assert!(next.fault.is_none());
    assert_eq!(next.steps, vec![Step::Num(1), Step::Num(3), Step::Pow]);
    assert_eq!(p.pos(), 4);
}

#[test]
fn parse_reads_two_expressions_one_after_the_other() {
    let mut p = Prs::new("1 2");
    assert_eq!(p.parse().steps, vec![Step::Num(0)]);
    assert_eq!(p.parse().steps, vec![Step::Num(1)]);
    assert!(matches!(p.parse().fault, Some(ParseError::UnexpectedEOF)));
}

#[test]
fn message_puts_the_kind_before_the_detail() {
    assert_eq!(
        ParseError::InvalidToken("unexpected token: +".to_string()).message(),
        "invalid token sequence: unexpected token: +"
    );
    assert_eq!(ParseError::UnexpectedEOF.message(), "unexpected end of input");
    assert_eq!(
        ParseError::Syntax("division by zero".to_string()).message(),
        "syntax error: division by zero"
    );
}

#[test]
fn clone_of_a_token_keeps_its_fields() {
    let toks = lex("abc");
    let t = toks[0].clone();
    assert_eq!(t.val, "abc");
    assert_eq!(t.pos, 3);
    assert_eq!(t.typ, TokType::Id);
}
