use exprlang::lexer::Lexer;
use exprlang::parser::{BinaryVariant, Error, Expr, Parser};

fn parse(text: &str) -> Result<Expr, Error> {
    let lexer = Lexer::new(text.chars().collect::<Vec<_>>());
    let mut parser = Parser::new(text, lexer);
    parser.parse()
}

fn num(i: i64) -> Expr {
    Expr::Int(i)
}

fn id(name: &str) -> Expr {
    Expr::Id(name.to_string())
}

fn bin(v: BinaryVariant, l: Expr, r: Expr) -> Expr {
    Expr::Binary(v, Box::new(l), Box::new(r))
}

fn expr_eq(a: &Expr, b: &Expr) -> bool {
    match (a, b) {
        (Expr::Int(x), Expr::Int(y)) => x == y,
        (Expr::Float(x), Expr::Float(y)) => x == y,
        (Expr::Id(x), Expr::Id(y)) => x == y,
        (Expr::Binary(v1, l1, r1), Expr::Binary(v2, l2, r2)) => {
            v1 == v2 && expr_eq(l1, l2) && expr_eq(r1, r2)
        }
        _ => false,
    }
}

fn render(e: &Expr) -> String {
    match e {
        Expr::Int(i) => format!("{}", i),
        Expr::Float(s) => s.clone(),
        Expr::Id(s) => s.clone(),
        Expr::Binary(BinaryVariant::Fn, l, r) => {
            format!("(fn {} {})", render(l), render(r))
        }
        Expr::Binary(v, l, r) => {
            let op = match v {
                BinaryVariant::Add => "+",
                BinaryVariant::Sub => "-",
                BinaryVariant::Mul => "*",
                BinaryVariant::Div => "/",
                BinaryVariant::Eq => "=",
                BinaryVariant::Fn => unreachable!(),
            };
            format!("({}{}{})", render(l), op, render(r))
        }
    }
}

#[test]
fn multiplication_binds_tighter_than_addition() {
    let e = parse("1+2*3").unwrap();
    let expected = bin(BinaryVariant::Add, num(1), bin(BinaryVariant::Mul, num(2), num(3)));
    assert!(expr_eq(&e, &expected));
}

#[test]
fn subtraction_is_left_associative() {
    let e = parse("1-2-3").unwrap();
    let expected = bin(BinaryVariant::Sub, bin(BinaryVariant::Sub, num(1), num(2)), num(3));
    assert!(expr_eq(&e, &expected));
}

#[test]
fn function_binding() {
    let e = parse("fn x x+1").unwrap();
    let expected = bin(
        BinaryVariant::Fn,
        id("x"),
        bin(BinaryVariant::Add, id("x"), num(1)),
    );
    assert!(expr_eq(&e, &expected));
}

#[test]
fn chained_equality_is_rejected() {
    let err = parse("1=2=3").unwrap_err();
    assert_eq!((err.from, err.to), (3, 3));
    assert_eq!(err.message, "expected end of input got Equal");
}

#[test]
fn lone_operator_is_rejected_with_operand_kinds() {
    let err = parse("+").unwrap_err();
    assert_eq!((err.from, err.to), (0, 0));
    assert_eq!(err.message, "expected Int | Float | Id | LParen | Fn got 'Add'");
}

#[test]
fn parentheses_group_and_close_with_rparen() {
    let e = parse("(1+2)*3").unwrap();
    let expected = bin(BinaryVariant::Mul, bin(BinaryVariant::Add, num(1), num(2)), num(3));
    assert!(expr_eq(&e, &expected));
}

#[test]
fn single_equality() {
    let e = parse("1=2").unwrap();
    assert!(expr_eq(&e, &bin(BinaryVariant::Eq, num(1), num(2))));
}

#[test]
fn division_is_left_associative() {
    let e = parse("8/4/2").unwrap();
    let expected = bin(BinaryVariant::Div, bin(BinaryVariant::Div, num(8), num(4)), num(2));
    assert!(expr_eq(&e, &expected));
}

#[test]
fn float_literal_carries_its_text() {
    let e = parse("123.4").unwrap();
    assert!(expr_eq(&e, &Expr::Float("123.4".to_string())));
}

#[test]
fn largest_integer_literal() {
    let e = parse("9223372036854775807").unwrap();
    assert!(expr_eq(&e, &num(i64::MAX)));
}

#[test]
fn empty_input_is_a_premature_end() {
    let err = parse("").unwrap_err();
    assert_eq!((err.from, err.to), (0, 0));
    assert_eq!(err.message, "expected Int | Float | Id | LParen | Fn got None");
}

#[test]
fn missing_identifier_after_fn() {
    let err = parse("fn").unwrap_err();
    assert_eq!((err.from, err.to), (0, 0));
    assert_eq!(err.message, "expected Id got None");
}

#[test]
fn missing_closing_parenthesis() {
    let err = parse("(1+2").unwrap_err();
    assert_eq!((err.from, err.to), (0, 0));
    assert_eq!(err.message, "expected RParen got None");
}

#[test]
fn mismatched_closing_delimiter() {
    let err = parse("(1+2(").unwrap_err();
    assert_eq!((err.from, err.to), (4, 4));
    assert_eq!(err.message, "expected RParen got LParen");
}

#[test]
fn power_has_no_grammar_rule_yet() {
    let err = parse("2^3").unwrap_err();
    assert_eq!((err.from, err.to), (1, 1));
    assert_eq!(err.message, "expected end of input got Pow");
}

#[test]
fn invalid_token_is_rejected_in_operand_position() {
    let err = parse("1.2.3").unwrap_err();
    assert_eq!((err.from, err.to), (0, 3));
    assert_eq!(err.message, "expected Int | Float | Id | LParen | Fn got 'Invalid'");
}

#[test]
fn render_and_reparse_reproduces_the_tree() {
    for text in ["1+2*3", "1-2-3", "fn x x+1", "(1+2)*3", "1=2", "fn f fn x f", "12.5/x"] {
        let e = parse(text).unwrap();
        let printed = render(&e);
        let again = parse(&printed).unwrap();
        assert!(expr_eq(&e, &again), "{} -> {}", text, printed);
    }
}
