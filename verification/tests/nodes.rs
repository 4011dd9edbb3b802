use slippy::ast::{Builtin, Expr, Literal, Token, TokenType};
use slippy::decimal::Decimal;

fn num(n: i32) -> Expr {
    Expr::Literal(Literal::Number(n))
}

fn sym(name: &str) -> Expr {
    Expr::Var(name.to_string())
}

#[test]
fn literal_tells_whether_it_is_a_string() {
    assert!(Literal::String("a".to_string()).is_string());
    assert!(!Literal::Number(1).is_string());
    assert!(!Literal::Bool(true).is_string());
    assert_eq!(Literal::String("a".to_string()).to_string(), Some("a".to_string()));
    assert_eq!(Literal::Number(1).to_string(), None);
}

#[test]
fn literals_are_equal_by_kind_and_value() {
    assert_eq!(Literal::Number(1), Literal::Number(1));
    assert_ne!(Literal::Number(1), Literal::Number(2));
    assert_ne!(Literal::Number(1), Literal::Bool(true));
    assert_ne!(Literal::Number(1), Literal::Float(Decimal::parse("1.0").unwrap()));
    assert_eq!(
        Literal::Float(Decimal::parse("1.50").unwrap()),
        Literal::Float(Decimal::parse("1.5").unwrap())
    );
    assert_eq!(Literal::String("x".to_string()), Literal::String("x".to_string()));
    assert_ne!(Literal::String("x".to_string()), Literal::String("y".to_string()));
    assert_eq!(Literal::Bool(true).clone(), Literal::Bool(true));
}

#[test]
fn token_holds_what_it_was_made_of() {
    let t = Token::new(
        TokenType::Number,
        "12".to_string(),
        3,
        Some(Literal::Number(12)),
    );
    assert_eq!(t.ttype, TokenType::Number);
    assert_eq!(t.lexeme, "12");
    assert_eq!(t.line, 3);
    assert_eq!(t.literal, Some(Literal::Number(12)));
    let copy = t.clone();
    assert_eq!(copy.lexeme, "12");
    assert_eq!(copy.literal, Some(Literal::Number(12)));
}

#[test]
fn node_tells_its_kind() {
    let list = Expr::List(vec![num(1)]);
    let pair = Expr::DottedPair(vec![num(1)], Box::new(num(2)));
    assert!(list.is_list());
    assert!(!pair.is_list());
    assert!(pair.is_dotted_pair());
    assert!(!list.is_dotted_pair());
    assert!(num(1).is_literal());
    assert!(!sym("a").is_literal());
    assert!(sym("a").is_var());
    assert!(!num(1).is_var());
    assert!(Expr::Unspecified.is_unspecified());
    assert!(!num(1).is_unspecified());
}

#[test]
fn node_hands_out_what_it_holds() {
    let list = Expr::List(vec![num(1), sym("a")]);
    let pair = Expr::DottedPair(vec![num(1)], Box::new(num(2)));
    assert_eq!(list.to_vec(), Some(vec![num(1), sym("a")]));
    assert_eq!(pair.to_vec(), None);
    assert_eq!(num(7).to_literal(), Some(Literal::Number(7)));
    assert_eq!(sym("a").to_literal(), None);
    assert_eq!(sym("a").from_var(), Some("a".to_string()));
    assert_eq!(num(1).from_var(), None);
    assert_eq!(pair.from_dotted_pair(), Some((vec![num(1)], Box::new(num(2)))));
    assert_eq!(list.from_dotted_pair(), None);
}

#[test]
fn only_false_counts_as_false() {
    assert!(!Expr::Literal(Literal::Bool(false)).is_true());
    assert!(Expr::Literal(Literal::Bool(true)).is_true());
    assert!(num(0).is_true());
    assert!(Expr::List(vec![]).is_true());
    assert!(Expr::Literal(Literal::String(String::new())).is_true());
    assert!(Expr::Unspecified.is_true());
    assert!(Expr::Builtin(Builtin::Car).is_true());
}

#[test]
fn nodes_are_equal_by_structure() {
    assert_eq!(sym("a"), sym("a"));
    assert_ne!(sym("a"), sym("b"));
    assert_ne!(sym("a"), num(1));
    assert_eq!(
        Expr::List(vec![num(1), Expr::List(vec![sym("x")])]),
        Expr::List(vec![num(1), Expr::List(vec![sym("x")])])
    );
    assert_ne!(Expr::List(vec![num(1), num(2)]), Expr::List(vec![num(3), num(4)]));
    assert_ne!(Expr::List(vec![num(1), num(2)]), Expr::List(vec![num(2), num(1)]));
    assert_ne!(Expr::List(vec![num(1)]), Expr::List(vec![num(1), num(1)]));
    assert_ne!(
        Expr::List(vec![num(1)]),
        Expr::DottedPair(vec![num(1)], Box::new(Expr::List(vec![])))
    );
    assert_eq!(
        Expr::DottedPair(vec![num(1)], Box::new(num(2))),
        Expr::DottedPair(vec![num(1)], Box::new(num(2)))
    );
    assert_ne!(
        Expr::DottedPair(vec![num(1)], Box::new(num(2))),
        Expr::DottedPair(vec![num(1)], Box::new(num(3)))
    );
    assert_ne!(
        Expr::DottedPair(vec![num(1)], Box::new(num(2))),
        Expr::DottedPair(vec![num(0)], Box::new(num(2)))
    );
}

#[test]
fn a_copy_of_a_node_is_equal_to_it() {
    let e = Expr::List(vec![
        num(1),
        Expr::DottedPair(vec![sym("a")], Box::new(sym("b"))),
        Expr::Literal(Literal::String("s".to_string())),
    ]);
    assert_eq!(e.clone(), e);
}

#[test]
fn literals_order_by_kind_then_value() {
    let dec = |t: &str| Literal::Float(Decimal::parse(t).unwrap());
    let text = |t: &str| Literal::String(t.to_string());
    assert!(Literal::Number(1) < Literal::Number(2));
    assert!(Literal::Number(2) > Literal::Number(1));
    assert!(Literal::Number(-3) <= Literal::Number(-3));
    assert!(!(Literal::Number(2) < Literal::Number(2)));
    assert!(dec("1.5") < dec("1.75"));
    assert!(dec("10.0") > dec("9.99"));
    assert!(dec("99.0") < Literal::Number(1));
    assert!(Literal::Number(1) > dec("99.0"));
    assert!(Literal::Number(100) < Literal::Bool(false));
    assert!(Literal::Bool(false) < Literal::Bool(true));
    assert!(Literal::Bool(true) < text(""));
    assert!(text("abc") < text("abd"));
    assert!(text("ab") < text("abc"));
    assert!(text("b") > text("abc"));
    assert!(text("abc") >= text("abc"));
    assert_eq!(
        Literal::Number(1).partial_cmp(&Literal::Number(1)),
        Some(std::cmp::Ordering::Equal)
    );
}
