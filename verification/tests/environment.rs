use slippy::ast::{Builtin, Expr, Literal};
use slippy::builtins;
use slippy::env::{Env, GLOBAL};
use slippy::error::EvalError;
use slippy::eval::eval;
use slippy::reader::read_program;

const DEPTH: usize = 200;

fn num(n: i32) -> Expr {
    Expr::Literal(Literal::Number(n))
}

fn text(s: &str) -> Expr {
    Expr::Literal(Literal::String(s.to_string()))
}

fn name(s: &str) -> String {
    s.to_string()
}

fn run(env: &mut Env, source: &str) -> Vec<Result<Expr, EvalError>> {
    let program = read_program(source).expect("the source reads");
    let mut results = Vec::new();
    for expr in program.iter() {
        results.push(eval(expr, GLOBAL, env, DEPTH));
    }
    results
}

#[test]
fn a_new_environment_binds_the_native_procedures() {
    let env = Env::new();
    assert!(env.has_frame(GLOBAL));
    assert!(!env.has_frame(1));
    for n in [
        "=", "<", "<=", ">", ">=", "+", "-", "*", "list", "car", "cdr", "cons", "append",
        "length", "reverse", "equal?", "list?", "null?", "number?", "procedure?", "symbol?",
        "pair?", "apply", "load", "read", "display",
    ] {
        assert!(matches!(env.get(GLOBAL, &name(n)), Some(Expr::Builtin(_))), "{}", n);
    }
    assert!(matches!(env.get(GLOBAL, &name("car")), Some(Expr::Builtin(Builtin::Car))));
    assert!(matches!(env.get(GLOBAL, &name("equal?")), Some(Expr::Builtin(Builtin::Equalp))));
    assert!(env.get(GLOBAL, &name("nope")).is_none());
}

#[test]
fn insert_binds_in_the_given_frame_only() {
    let mut env = Env::new();
    let child = env.extend_env(GLOBAL);
    assert_eq!(child, 1);
    env.insert(child, name("x"), num(1));
    assert_eq!(env.get(child, &name("x")), Some(num(1)));
    assert_eq!(env.get(GLOBAL, &name("x")), None);
}

#[test]
fn insert_overwrites() {
    let mut env = Env::new();
    env.insert(GLOBAL, name("x"), num(1));
    env.insert(GLOBAL, name("x"), num(2));
    assert_eq!(env.get(GLOBAL, &name("x")), Some(num(2)));
}

#[test]
fn lookup_goes_outward() {
    let mut env = Env::new();
    env.insert(GLOBAL, name("x"), num(1));
    let a = env.extend_env(GLOBAL);
    let b = env.extend_env(a);
    assert_eq!(env.get(b, &name("x")), Some(num(1)));
    env.insert(a, name("x"), num(2));
    assert_eq!(env.get(b, &name("x")), Some(num(2)));
    assert_eq!(env.get(GLOBAL, &name("x")), Some(num(1)));
    assert_eq!(env.get(9, &name("x")), None);
}

#[test]
fn sibling_frames_are_apart() {
    let mut env = Env::new();
    let a = env.extend_env(GLOBAL);
    let b = env.extend_env(GLOBAL);
    env.insert(a, name("x"), num(1));
    assert_eq!(env.get(b, &name("x")), None);
}

#[test]
fn set_overwrites_the_innermost_binding() {
    let mut env = Env::new();
    env.insert(GLOBAL, name("x"), num(1));
    let a = env.extend_env(GLOBAL);
    let b = env.extend_env(a);
    assert_eq!(env.set(b, name("x"), num(5)), Ok(()));
    assert_eq!(env.get(GLOBAL, &name("x")), Some(num(5)));
    env.insert(a, name("x"), num(2));
    assert_eq!(env.set(b, name("x"), num(7)), Ok(()));
    assert_eq!(env.get(a, &name("x")), Some(num(7)));
    assert_eq!(env.get(GLOBAL, &name("x")), Some(num(5)));
}

#[test]
fn set_fails_on_an_unbound_name() {
    let mut env = Env::new();
    let a = env.extend_env(GLOBAL);
    assert_eq!(env.set(a, name("x"), num(1)), Err(EvalError::KeyNotFound));
    assert_eq!(env.set(9, name("car"), num(1)), Err(EvalError::KeyNotFound));
    assert_eq!(EvalError::KeyNotFound.message(), "key not found");
}

#[test]
fn display_writes_a_line() {
    let mut env = Env::new();
    let results = run(&mut env, "(display '(1 \"a\" b)) (display 2.50) (display car)");
    assert!(matches!(results[0], Ok(Expr::Unspecified)));
    assert_eq!(
        env.take_output(),
        vec!["(1 \"a\" b)".to_string(), "2.5".to_string(), "#<built-in procedure>".to_string()]
    );
    assert!(env.take_output().is_empty());
}

#[test]
fn display_takes_one_argument() {
    let mut env = Env::new();
    let results = run(&mut env, "(display) (display 1 2)");
    assert_eq!(results[0], Err(EvalError::OutputPortsUnsupported));
    assert_eq!(results[1], Err(EvalError::OutputPortsUnsupported));
    assert!(env.take_output().is_empty());
    assert_eq!(builtins::display(&[num(1)], &mut env).is_ok(), true);
    assert_eq!(env.take_output(), vec!["1".to_string()]);
}

#[test]
fn read_asks_for_a_line_where_none_waits() {
    let mut env = Env::new();
    let results = run(&mut env, "(read)");
    assert_eq!(results[0], Err(EvalError::InputRequired));
    assert!(EvalError::InputRequired.needs_host());
    assert!(!EvalError::ReadFailed.needs_host());
}

#[test]
fn read_yields_the_datum_of_the_next_line() {
    let mut env = Env::new();
    env.push_input(name("(a b 3)"));
    env.push_input(name("hello"));
    let results = run(&mut env, "(read) (read) (read)");
    assert_eq!(
        results[0],
        Ok(Expr::List(vec![Expr::Var(name("a")), Expr::Var(name("b")), num(3)]))
    );
    assert_eq!(results[1], Ok(Expr::Var(name("hello"))));
    assert_eq!(results[2], Err(EvalError::InputRequired));
}

#[test]
fn read_reports_a_line_that_does_not_read() {
    let mut env = Env::new();
    env.push_input(name("(a"));
    env.push_input(name(""));
    let results = run(&mut env, "(read) (read) (read 1)");
    assert_eq!(results[0], Err(EvalError::ReadFailed));
    assert_eq!(results[1], Err(EvalError::ReadFailed));
    assert_eq!(results[2], Err(EvalError::InputPortsUnsupported));
    assert_eq!(
        env.take_output(),
        vec![
            "expecting a list".to_string(),
            "pos: 3".to_string(),
            "expecting a list".to_string(),
            "pos: 1".to_string()
        ]
    );
    assert_eq!(EvalError::ReadFailed.message(), "read error");
}

#[test]
fn load_asks_for_a_text_where_none_was_supplied() {
    let mut env = Env::new();
    let results = run(&mut env, "(load \"lib.scm\")");
    assert_eq!(results[0], Err(EvalError::SourceRequired));
    assert!(EvalError::SourceRequired.needs_host());
    assert_eq!(env.wanted_source(), Some(name("lib.scm")));
}

#[test]
fn load_evaluates_the_supplied_text() {
    let mut env = Env::new();
    env.add_source(name("lib.scm"), name("(define x 41) (display x) (define (inc n) (+ n 1))"));
    let results = run(&mut env, "(load \"lib.scm\") (inc x)");
    assert!(matches!(results[0], Ok(Expr::Unspecified)));
    assert_eq!(results[1], Ok(num(42)));
    assert_eq!(env.take_output(), vec!["41".to_string()]);
}

#[test]
fn load_takes_the_text_supplied_last() {
    let mut env = Env::new();
    env.add_source(name("a"), name("(define x 1)"));
    env.add_source(name("b"), name("(define x 3)"));
    env.add_source(name("a"), name("(define x 2)"));
    assert_eq!(env.source(&name("a")), Some(name("(define x 2)")));
    assert_eq!(env.source(&name("c")), None);
    let results = run(&mut env, "(load \"a\") x");
    assert_eq!(results[1], Ok(num(2)));
}

#[test]
fn load_writes_out_failures_and_goes_on() {
    let mut env = Env::new();
    env.add_source(name("f"), name("(car '()) (define y 2) nope"));
    let results = run(&mut env, "(load \"f\") y");
    assert!(matches!(results[0], Ok(Expr::Unspecified)));
    assert_eq!(results[1], Ok(num(2)));
    assert_eq!(
        env.take_output(),
        vec!["called with incorrect type ()".to_string(), "undefined variable".to_string()]
    );
}

#[test]
fn load_reports_a_text_that_does_not_read() {
    let mut env = Env::new();
    env.add_source(name("f"), name("(define y 2) (oops"));
    let results = run(&mut env, "(load \"f\") y");
    assert!(matches!(results[0], Ok(Expr::Unspecified)));
    assert_eq!(results[1], Err(EvalError::UndefinedVariable));
    assert_eq!(
        env.take_output(),
        vec!["expecting a list".to_string(), "pos: 7".to_string()]
    );
}

#[test]
fn load_passes_on_a_request_from_within() {
    let mut env = Env::new();
    env.add_source(name("outer"), name("(define a 1) (load \"inner\") (define b 2)"));
    let results = run(&mut env, "(load \"outer\")");
    assert_eq!(results[0], Err(EvalError::SourceRequired));
    assert_eq!(env.wanted_source(), Some(name("inner")));
}

#[test]
fn load_needs_one_path() {
    let mut env = Env::new();
    let results = run(&mut env, "(load) (load 1) (load \"a\" \"b\")");
    assert_eq!(results[0], Err(EvalError::IncorrectArgumentCount));
    assert_eq!(results[1], Err(EvalError::LoadIncorrectType));
    assert_eq!(results[2], Err(EvalError::IncorrectArgumentCount));
    assert_eq!(builtins::load(&[text("p")], GLOBAL, &mut env, 0), Err(EvalError::TooDeep));
    assert_eq!(builtins::read(&[], GLOBAL, &mut env, 0), Err(EvalError::TooDeep));
}

#[test]
fn evaluate_keeps_nothing_of_a_form_that_waits() {
    let mut env = Env::new();
    let program = read_program("(begin (define x 1) (display x) (read))").unwrap();
    assert_eq!(
        slippy::eval::evaluate(&program[0], GLOBAL, &mut env, DEPTH),
        Err(EvalError::InputRequired)
    );
    assert_eq!(env.get(GLOBAL, &name("x")), None);
    assert!(env.take_output().is_empty());
    env.push_input(name("42"));
    assert_eq!(
        slippy::eval::evaluate(&program[0], GLOBAL, &mut env, DEPTH),
        Ok(num(42))
    );
    assert_eq!(env.get(GLOBAL, &name("x")), Some(num(1)));
    assert_eq!(env.take_output(), vec!["1".to_string()]);
}

#[test]
fn evaluate_notes_the_path_that_is_asked_for() {
    let mut env = Env::new();
    let program = read_program("(begin (define x 1) (load \"lib\"))").unwrap();
    assert_eq!(
        slippy::eval::evaluate(&program[0], GLOBAL, &mut env, DEPTH),
        Err(EvalError::SourceRequired)
    );
    assert_eq!(env.wanted_source(), Some(name("lib")));
    assert_eq!(env.get(GLOBAL, &name("x")), None);
    env.add_source(name("lib"), name("(define y 2)"));
    assert!(slippy::eval::evaluate(&program[0], GLOBAL, &mut env, DEPTH).is_ok());
    assert_eq!(env.get(GLOBAL, &name("y")), Some(num(2)));
}

#[test]
fn evaluate_keeps_what_a_failed_form_did() {
    let mut env = Env::new();
    let program = read_program("(begin (define x 1) (car '()))").unwrap();
    assert_eq!(
        slippy::eval::evaluate(&program[0], GLOBAL, &mut env, DEPTH),
        Err(EvalError::EmptyList)
    );
    assert_eq!(env.get(GLOBAL, &name("x")), Some(num(1)));
}

#[test]
fn a_copy_of_the_environment_is_apart() {
    let mut env = Env::new();
    env.insert(GLOBAL, name("x"), num(1));
    let mut copy = env.clone();
    copy.insert(GLOBAL, name("x"), num(2));
    assert_eq!(env.get(GLOBAL, &name("x")), Some(num(1)));
    assert_eq!(copy.get(GLOBAL, &name("x")), Some(num(2)));
}

#[test]
fn a_call_gives_its_frame_up() {
    let mut env = Env::new();
    let results = run(
        &mut env,
        "(define (inc n) (+ n 1))
         (inc 1)
         (inc (inc 2))
         (let ((a 1) (b 2)) (+ a b))
         (define (fact n) (if (= n 0) 1 (* n (fact (- n 1)))))
         (fact 6)",
    );
    assert_eq!(results[2], Ok(num(4)));
    assert_eq!(results[3], Ok(num(3)));
    assert_eq!(results[5], Ok(num(720)));
    assert_eq!(env.frame_count(), 1);
}

#[test]
fn a_failed_call_gives_its_frame_up() {
    let mut env = Env::new();
    let results = run(&mut env, "(define (f x) (car x)) (f '())");
    assert_eq!(results[1], Err(EvalError::EmptyList));
    assert_eq!(env.frame_count(), 1);
}

#[test]
fn a_captured_frame_stays() {
    let mut env = Env::new();
    let results = run(
        &mut env,
        "(define (adder n) (lambda (x) (+ x n)))
         (define add2 (adder 2))
         (define add5 (adder 5))
         (add2 1)
         (add5 1)
         (add2 10)",
    );
    assert_eq!(results[3], Ok(num(3)));
    assert_eq!(results[4], Ok(num(6)));
    assert_eq!(results[5], Ok(num(12)));
    assert_eq!(env.frame_count(), 3);
}

#[test]
fn a_frame_before_a_captured_one_stays() {
    let mut env = Env::new();
    let results = run(
        &mut env,
        "(define (outer a)
           (let ((b (* a 2)))
             (lambda () (+ a b))))
         (define f (outer 5))
         (f)
         (f)",
    );
    assert_eq!(results[2], Ok(num(15)));
    assert_eq!(results[3], Ok(num(15)));
    assert_eq!(env.frame_count(), 3);
}

#[test]
fn pin_and_release_by_hand() {
    let mut env = Env::new();
    let a = env.extend_env(GLOBAL);
    let b = env.extend_env(a);
    assert_eq!(env.frame_count(), 3);
    env.release(b);
    assert_eq!(env.frame_count(), 2);
    let b = env.extend_env(a);
    let c = env.extend_env(b);
    env.pin(b);
    env.release(c);
    assert_eq!(env.frame_count(), 3);
    env.release(a);
    assert_eq!(env.frame_count(), 3);
    env.release(9);
    assert_eq!(env.frame_count(), 3);
    env.pin(9);
    env.release(GLOBAL);
    assert_eq!(env.frame_count(), 3);
}

#[test]
fn the_default_environment_binds_nothing() {
    let mut env = Env::default();
    assert!(env.has_frame(GLOBAL));
    assert_eq!(env.frame_count(), 1);
    assert_eq!(env.get(GLOBAL, &name("car")), None);
    let results = run(&mut env, "(define x 1) x (car x)");
    assert_eq!(results[1], Ok(num(1)));
    assert_eq!(results[2], Err(EvalError::UndefinedVariable));
}

#[test]
fn insert_into_no_frame_binds_nothing() {
    let mut env = Env::new();
    env.insert(7, name("x"), num(1));
    assert_eq!(env.frame_count(), 1);
    assert_eq!(env.get(GLOBAL, &name("x")), None);
    assert_eq!(env.get(7, &name("x")), None);
}
