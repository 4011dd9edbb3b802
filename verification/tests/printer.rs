use slippy::ast::{Builtin, Expr, Literal};
use slippy::decimal::Decimal;
use slippy::reader::read_program;

fn num(n: i32) -> Expr {
    Expr::Literal(Literal::Number(n))
}

fn sym(name: &str) -> Expr {
    Expr::Var(name.to_string())
}

fn float(text: &str) -> Literal {
    Literal::Float(Decimal::parse(text).expect("a decimal"))
}

#[test]
fn literals_print() {
    assert_eq!(Literal::Number(0).print(), "0");
    assert_eq!(Literal::Number(42).print(), "42");
    assert_eq!(Literal::Number(-17).print(), "-17");
    assert_eq!(Literal::Number(i32::MAX).print(), "2147483647");
    assert_eq!(Literal::Number(i32::MIN).print(), "-2147483648");
    assert_eq!(Literal::Bool(true).print(), "#t");
    assert_eq!(Literal::Bool(false).print(), "#f");
    assert_eq!(Literal::String("a b".to_string()).print(), "\"a b\"");
    assert_eq!(Literal::String(String::new()).print(), "\"\"");
}

#[test]
fn decimals_print_with_a_digit_on_each_side() {
    assert_eq!(float("3.25").print(), "3.25");
    assert_eq!(float("003.2500").print(), "3.25");
    assert_eq!(float("1.").print(), "1.0");
    assert_eq!(float("1.0").print(), "1.0");
    assert_eq!(float("0.5").print(), "0.5");
    assert_eq!(float("0.0").print(), "0.0");
    assert_eq!(float("10.01").print(), "10.01");
}

#[test]
fn lists_print_between_parentheses() {
    assert_eq!(Expr::List(vec![]).to_string(), "()");
    assert_eq!(Expr::List(vec![sym("a")]).to_string(), "(a)");
    assert_eq!(Expr::List(vec![sym("a"), sym("b"), sym("c")]).to_string(), "(a b c)");
    assert_eq!(
        Expr::List(vec![num(1), Expr::List(vec![num(2), num(3)]), Expr::List(vec![])]).to_string(),
        "(1 (2 3) ())"
    );
}

#[test]
fn dotted_pairs_print_with_a_dot() {
    assert_eq!(
        Expr::DottedPair(vec![sym("a"), sym("b")], Box::new(sym("c"))).to_string(),
        "(a b . c)"
    );
    assert_eq!(Expr::DottedPair(vec![num(1)], Box::new(num(2))).to_string(), "(1 . 2)");
}

#[test]
fn procedures_and_unspecified_print_as_markers() {
    assert_eq!(Expr::Lambda(vec![], vec![], 0).to_string(), "#<procedure>");
    assert_eq!(Expr::Builtin(Builtin::Car).to_string(), "#<built-in procedure>");
    assert_eq!(Expr::Unspecified.to_string(), "#unspecified");
}

#[test]
fn printed_literals_read_back() {
    let literals = vec![
        Literal::Number(0),
        Literal::Number(7),
        Literal::Number(i32::MAX),
        Literal::Bool(true),
        Literal::Bool(false),
        Literal::String("hello world".to_string()),
        Literal::String(String::new()),
        float("3.25"),
        float("0.5"),
        float("12.0"),
    ];
    for l in literals {
        let text = l.print();
        let program = read_program(&text).expect("the text reads");
        assert_eq!(program, vec![Expr::Literal(l)]);
    }
}

#[test]
fn printed_negative_integer_reads_as_an_identifier() {
    let text = Literal::Number(-5).print();
    assert_eq!(read_program(&text).unwrap(), vec![sym("-5")]);
}

#[test]
fn printed_data_read_back() {
    for source in ["(a b c)", "(a b . c)", "(1 (2 3) \"x\" #t 4.5)", "()"] {
        let program = read_program(source).unwrap();
        assert_eq!(program[0].to_string(), source);
    }
}

#[test]
fn a_quote_prints_as_a_form() {
    let program = read_program("''x '(a 'b)").unwrap();
    assert_eq!(program[0].to_string(), "(quote (quote x))");
    assert_eq!(program[1].to_string(), "(quote (a (quote b)))");
}
