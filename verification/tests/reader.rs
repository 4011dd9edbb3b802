use slippy::ast::{Expr, Literal, TokenType};
use slippy::decimal::Decimal;
use slippy::error::ReadErrorKind;
use slippy::lexer::Lexer;
use slippy::parser::Parser;
use slippy::reader::read_program;

fn num(n: i32) -> Expr {
    Expr::Literal(Literal::Number(n))
}

fn sym(name: &str) -> Expr {
    Expr::Var(name.to_string())
}

fn kinds(source: &str) -> Vec<TokenType> {
    let mut lexer = Lexer::new(source);
    lexer.scan();
    lexer.tokens.iter().map(|t| t.ttype).collect()
}

fn lexemes(source: &str) -> Vec<String> {
    let mut lexer = Lexer::new(source);
    lexer.scan();
    lexer.tokens.iter().map(|t| t.lexeme.clone()).collect()
}

fn read_one(source: &str) -> Expr {
    let mut program = read_program(source).expect("the source reads");
    assert_eq!(program.len(), 1);
    program.pop().unwrap()
}

#[test]
fn scanner_finds_the_tokens_of_a_call() {
    assert_eq!(
        kinds("(+ 1 2)"),
        vec![
            TokenType::LParen,
            TokenType::Identifier,
            TokenType::Number,
            TokenType::Number,
            TokenType::RParen,
            TokenType::EOF
        ]
    );
    assert_eq!(lexemes("(+ 1 2)"), vec!["(", "+", "1", "2", ")", ""]);
}

#[test]
fn scanner_of_nothing_gives_the_end_marker() {
    assert_eq!(kinds(""), vec![TokenType::EOF]);
    assert_eq!(kinds("  \t\r\n "), vec![TokenType::EOF]);
}

#[test]
fn scanner_tells_integers_from_decimals() {
    let mut lexer = Lexer::new("12 3.75 7.");
    lexer.scan();
    assert_eq!(lexer.tokens[0].ttype, TokenType::Number);
    assert_eq!(lexer.tokens[0].literal, Some(Literal::Number(12)));
    assert_eq!(lexer.tokens[1].ttype, TokenType::Float);
    assert_eq!(lexer.tokens[1].lexeme, "3.75");
    assert_eq!(
        lexer.tokens[1].literal,
        Some(Literal::Float(Decimal::parse("3.75").unwrap()))
    );
    assert_eq!(lexer.tokens[2].ttype, TokenType::Float);
    assert_eq!(lexer.tokens[2].lexeme, "7.");
    assert_eq!(lexer.tokens[3].ttype, TokenType::EOF);
}

#[test]
fn scanner_reads_an_integer_that_does_not_fit_as_zero() {
    let mut lexer = Lexer::new("2147483647 2147483648 99999999999999999999999");
    lexer.scan();
    assert_eq!(lexer.tokens[0].literal, Some(Literal::Number(2147483647)));
    assert_eq!(lexer.tokens[1].literal, Some(Literal::Number(0)));
    assert_eq!(lexer.tokens[2].literal, Some(Literal::Number(0)));
}

#[test]
fn scanner_reads_booleans_and_strings() {
    let mut lexer = Lexer::new("#t #f \"a b\"");
    lexer.scan();
    assert_eq!(lexer.tokens[0].literal, Some(Literal::Bool(true)));
    assert_eq!(lexer.tokens[1].literal, Some(Literal::Bool(false)));
    assert_eq!(lexer.tokens[2].ttype, TokenType::String);
    assert_eq!(lexer.tokens[2].lexeme, "\"a b\"");
    assert_eq!(lexer.tokens[2].literal, Some(Literal::String("a b".to_string())));
    assert!(lexer.errors.is_empty());
}

#[test]
fn scanner_reads_identifiers() {
    assert_eq!(
        lexemes("set! make-counter <= x1 ... -5"),
        vec!["set!", "make-counter", "<=", "x1", "...", "-5", ""]
    );
    assert_eq!(
        kinds("set! make-counter <= x1 ... -5"),
        vec![
            TokenType::Identifier,
            TokenType::Identifier,
            TokenType::Identifier,
            TokenType::Identifier,
            TokenType::Identifier,
            TokenType::Identifier,
            TokenType::EOF
        ]
    );
}

#[test]
fn scanner_tells_a_dot_from_an_identifier() {
    assert_eq!(
        kinds("(a . b)"),
        vec![
            TokenType::LParen,
            TokenType::Identifier,
            TokenType::Dot,
            TokenType::Identifier,
            TokenType::RParen,
            TokenType::EOF
        ]
    );
    assert_eq!(kinds(".5"), vec![TokenType::Dot, TokenType::Number, TokenType::EOF]);
    assert_eq!(kinds(".a"), vec![TokenType::Identifier, TokenType::EOF]);
}

#[test]
fn scanner_counts_lines() {
    let mut lexer = Lexer::new("a\nb\n\nc");
    lexer.scan();
    let lines: Vec<u32> = lexer.tokens.iter().map(|t| t.line).collect();
    assert_eq!(lines, vec![1, 2, 4, 4]);
}

#[test]
fn scanner_records_an_unexpected_symbol() {
    let mut lexer = Lexer::new("a\n[");
    lexer.scan();
    assert_eq!(lexer.errors.len(), 1);
    assert_eq!(lexer.errors[0].kind, ReadErrorKind::UnexpectedSymbol);
    assert_eq!(lexer.errors[0].line, 2);
    assert_eq!(lexer.errors[0].lexeme, "[");
    assert_eq!(lexer.errors[0].position, 2);
    assert_eq!(ReadErrorKind::UnexpectedSymbol.message(), "unexpected symbol");
}

#[test]
fn scanner_records_a_stray_hash() {
    let mut lexer = Lexer::new("#x");
    lexer.scan();
    assert_eq!(lexer.errors.len(), 1);
    assert_eq!(lexer.errors[0].kind, ReadErrorKind::UnexpectedSymbol);
    assert_eq!(lexer.errors[0].lexeme, "#");
}

#[test]
fn scanner_records_an_unterminated_string() {
    let mut lexer = Lexer::new("\"abc");
    lexer.scan();
    assert_eq!(lexer.errors.len(), 1);
    assert_eq!(lexer.errors[0].kind, ReadErrorKind::UnterminatedString);
    assert_eq!(lexer.errors[0].lexeme, "\"abc");
    assert_eq!(ReadErrorKind::UnterminatedString.message(), "unterminated string.");

    let mut lexer = Lexer::new("\"ab\ncd\"");
    lexer.scan();
    assert_eq!(lexer.errors[0].kind, ReadErrorKind::UnterminatedString);
    assert_eq!(lexer.errors[0].lexeme, "\"ab");
    assert_eq!(lexer.errors[0].line, 1);
}

#[test]
fn scanning_twice_adds_only_an_end_marker() {
    let mut lexer = Lexer::new("a");
    lexer.scan();
    lexer.scan();
    let kinds: Vec<TokenType> = lexer.tokens.iter().map(|t| t.ttype).collect();
    assert_eq!(kinds, vec![TokenType::Identifier, TokenType::EOF, TokenType::EOF]);
}

#[test]
fn reader_reads_atoms() {
    assert_eq!(read_one("42"), num(42));
    assert_eq!(read_one("foo"), sym("foo"));
    assert_eq!(read_one("#t"), Expr::Literal(Literal::Bool(true)));
    assert_eq!(read_one("\"s\""), Expr::Literal(Literal::String("s".to_string())));
}

#[test]
fn reader_reads_lists() {
    assert_eq!(read_one("()"), Expr::List(vec![]));
    assert_eq!(read_one("(1 2 3)"), Expr::List(vec![num(1), num(2), num(3)]));
    assert_eq!(
        read_one("(a (b c) ())"),
        Expr::List(vec![
            sym("a"),
            Expr::List(vec![sym("b"), sym("c")]),
            Expr::List(vec![])
        ])
    );
}

#[test]
fn reader_reads_a_program_in_order() {
    let program = read_program("1 (a) b").unwrap();
    assert_eq!(program, vec![num(1), Expr::List(vec![sym("a")]), sym("b")]);
    assert_eq!(read_program("").unwrap(), vec![]);
}

#[test]
fn quote_mark_reads_as_a_quote_form() {
    assert_eq!(read_one("'x"), Expr::List(vec![sym("quote"), sym("x")]));
    assert_eq!(
        read_one("''x"),
        Expr::List(vec![sym("quote"), Expr::List(vec![sym("quote"), sym("x")])])
    );
    assert_eq!(
        read_one("'(1 2)"),
        Expr::List(vec![sym("quote"), Expr::List(vec![num(1), num(2)])])
    );
}

#[test]
fn dotted_pair_is_read_as_such() {
    assert_eq!(read_one("(1 . 2)"), Expr::DottedPair(vec![num(1)], Box::new(num(2))));
    assert_eq!(
        read_one("(1 2 . x)"),
        Expr::DottedPair(vec![num(1), num(2)], Box::new(sym("x")))
    );
}

#[test]
fn dotted_list_tail_is_spliced() {
    assert_eq!(read_one("(1 2 . (3 4))"), read_one("(1 2 3 4)"));
    assert_eq!(
        read_one("(1 2 . (3 4))"),
        Expr::List(vec![num(1), num(2), num(3), num(4)])
    );
    assert_eq!(read_one("(1 . ())"), Expr::List(vec![num(1)]));
    assert_eq!(read_one("(1 . (2 . (3 . ())))"), Expr::List(vec![num(1), num(2), num(3)]));
    assert_eq!(
        read_one("(1 . (2 . 3))"),
        Expr::DottedPair(vec![num(1)], Box::new(Expr::DottedPair(vec![num(2)], Box::new(num(3)))))
    );
}

#[test]
fn unmatched_parenthesis_is_a_failure() {
    let e = read_program("(1 2").unwrap_err();
    assert_eq!(e.kind, ReadErrorKind::ExpectingList);
    assert_eq!(e.position, 3);
    assert_eq!(ReadErrorKind::ExpectingList.message(), "expecting a list");

    let e = read_program(")").unwrap_err();
    assert_eq!(e.kind, ReadErrorKind::ExpectingList);
    assert_eq!(e.position, 0);
    assert_eq!(e.line, 1);
}

#[test]
fn malformed_dotted_tail_is_a_failure() {
    let e = read_program("(1 . 2 3)").unwrap_err();
    assert_eq!(e.kind, ReadErrorKind::ExpectingRightParen);
    assert_eq!(e.position, 4);
    assert_eq!(ReadErrorKind::ExpectingRightParen.message(), "expecting right paren");

    let e = read_program("(1 . )").unwrap_err();
    assert_eq!(e.kind, ReadErrorKind::ExpectingList);

    let e = read_program("(. 1)").unwrap_err();
    assert_eq!(e.kind, ReadErrorKind::ExpectingList);
    assert_eq!(e.position, 1);
}

#[test]
fn a_failure_returns_no_partial_result() {
    assert!(read_program("1 2 (3").is_err());
    let e = read_program("1 2 [").unwrap_err();
    assert_eq!(e.kind, ReadErrorKind::UnexpectedSymbol);
    assert_eq!(e.position, 4);
    assert_eq!(e.line, 1);
}

#[test]
fn quote_mark_at_the_end_is_a_failure() {
    let e = read_program("'").unwrap_err();
    assert_eq!(e.kind, ReadErrorKind::ExpectingList);
    assert_eq!(e.position, 1);
}

#[test]
fn parser_exposes_its_cursor() {
    let mut lexer = Lexer::new("a b )");
    lexer.scan();
    let mut parser = Parser::new(lexer.tokens);
    assert_eq!(parser.parse(), Err(ReadErrorKind::ExpectingList));
    assert_eq!(parser.current, 2);
}

#[test]
fn parser_stops_where_the_tokens_stop() {
    let mut parser = Parser::new(vec![]);
    assert_eq!(parser.parse(), Ok(vec![]));
    let mut lexer = Lexer::new("(a");
    lexer.scan();
    let mut tokens = lexer.tokens;
    tokens.pop();
    let mut parser = Parser::new(tokens);
    assert_eq!(parser.parse(), Err(ReadErrorKind::ExpectingList));
}

#[test]
fn literal_token_without_a_literal_is_malformed() {
    let mut lexer = Lexer::new("1");
    lexer.scan();
    let mut tokens = lexer.tokens;
    tokens[0].literal = None;
    let mut parser = Parser::new(tokens);
    assert_eq!(parser.parse(), Err(ReadErrorKind::MalformedToken));
}
