use slippy::ast::{Expr, Literal};
use slippy::decimal::Decimal;
use slippy::env::{Env, GLOBAL};
use slippy::error::EvalError;
use slippy::eval::{apply, eval};
use slippy::reader::read_program;

const DEPTH: usize = 200;

fn run(env: &mut Env, source: &str) -> Vec<Result<Expr, EvalError>> {
    let program = read_program(source).expect("the source reads");
    let mut results = Vec::new();
    for expr in program.iter() {
        results.push(eval(expr, GLOBAL, env, DEPTH));
    }
    results
}

fn last(source: &str) -> Result<Expr, EvalError> {
    let mut env = Env::new();
    run(&mut env, source).pop().expect("at least one form")
}

fn num(n: i32) -> Expr {
    Expr::Literal(Literal::Number(n))
}

fn boolean(b: bool) -> Expr {
    Expr::Literal(Literal::Bool(b))
}

fn sym(name: &str) -> Expr {
    Expr::Var(name.to_string())
}

#[test]
fn literals_evaluate_to_themselves() {
    assert_eq!(last("42"), Ok(num(42)));
    assert_eq!(last("#t"), Ok(boolean(true)));
    assert_eq!(last("#f"), Ok(boolean(false)));
    assert_eq!(last("\"hi\""), Ok(Expr::Literal(Literal::String("hi".to_string()))));
    assert_eq!(
        last("2.50"),
        Ok(Expr::Literal(Literal::Float(Decimal::parse("2.5").unwrap())))
    );
}

#[test]
fn empty_list_evaluates_to_itself() {
    assert_eq!(last("()"), Ok(Expr::List(vec![])));
}

#[test]
fn undefined_variable_is_reported() {
    assert_eq!(last("nope"), Err(EvalError::UndefinedVariable));
}

#[test]
fn literal_in_head_position_is_not_applicable() {
    assert_eq!(last("(1 2 3)"), Err(EvalError::NotApplicable));
    assert_eq!(last("(\"f\" 2)"), Err(EvalError::NotApplicable));
}

#[test]
fn closures_capture_distinct_frames() {
    let mut env = Env::new();
    let results = run(
        &mut env,
        "(define (make-counter)
           (define n 0)
           (lambda () (set! n (+ n 1)) n))
         (define c (make-counter))
         (c) (c) (c)
         (define d (make-counter))
         (d)
         (c)",
    );
    assert_eq!(results[2], Ok(num(1)));
    assert_eq!(results[3], Ok(num(2)));
    assert_eq!(results[4], Ok(num(3)));
    assert_eq!(results[6], Ok(num(1)));
    assert_eq!(results[7], Ok(num(4)));
}

#[test]
fn set_mutates_the_captured_frame_not_the_callers() {
    let mut env = Env::new();
    let results = run(
        &mut env,
        "(define n 100)
         (define (make)
           (define n 0)
           (lambda () (set! n (+ n 1)) n))
         (define c (make))
         (c)
         n",
    );
    assert_eq!(results[3], Ok(num(1)));
    assert_eq!(results[4], Ok(num(100)));
}

#[test]
fn scoping_is_lexical_not_dynamic() {
    let mut env = Env::new();
    let results = run(
        &mut env,
        "(define x 1)
         (define (show) x)
         (define (shadow x) (show))
         (shadow 2)",
    );
    assert_eq!(results[3], Ok(num(1)));
}

#[test]
fn let_bindings_do_not_see_each_other() {
    assert_eq!(last("(let ((x 1) (y x)) y)"), Err(EvalError::UndefinedVariable));
}

#[test]
fn let_binds_in_a_fresh_frame() {
    let mut env = Env::new();
    let results = run(&mut env, "(define x 5) (let ((x 1) (y 2)) (+ x y)) x");
    assert_eq!(results[1], Ok(num(3)));
    assert_eq!(results[2], Ok(num(5)));
}

#[test]
fn let_sees_the_enclosing_scope() {
    let mut env = Env::new();
    let results = run(&mut env, "(define x 5) (let ((y x)) (* y 2))");
    assert_eq!(results[1], Ok(num(10)));
}

#[test]
fn malformed_let_is_rejected() {
    assert_eq!(last("(let x 1)"), Err(EvalError::ExpectingDeclarations));
    assert_eq!(last("(let)"), Err(EvalError::ExpectingDeclarations));
    assert_eq!(last("(let (x) 1)"), Err(EvalError::ExpectingPair));
    assert_eq!(last("(let ((x)) 1)"), Err(EvalError::ExpectingPair));
    assert_eq!(last("(let ((1 2)) 1)"), Err(EvalError::ExpectingAtom));
}

#[test]
fn car_of_empty_list_fails() {
    assert_eq!(last("(car '())"), Err(EvalError::EmptyList));
    assert_eq!(EvalError::EmptyList.message(), "called with incorrect type ()");
}

#[test]
fn wrong_arity_fails() {
    assert_eq!(last("((lambda (a b) a) 1)"), Err(EvalError::WrongArgumentCount));
    assert_eq!(
        EvalError::WrongArgumentCount.message(),
        "applied to incorrect number of args"
    );
}

#[test]
fn adding_a_string_fails() {
    assert_eq!(last("(+ 1 \"x\")"), Err(EvalError::CannotAdd));
    assert_eq!(EvalError::CannotAdd.message(), "cannot add a non-number");
}

#[test]
fn only_false_is_falsey() {
    assert_eq!(last("(if 0 'yes 'no)"), Ok(sym("yes")));
    assert_eq!(last("(if '() 'yes 'no)"), Ok(sym("yes")));
    assert_eq!(last("(if \"\" 'yes 'no)"), Ok(sym("yes")));
    assert_eq!(last("(if #f 'yes 'no)"), Ok(sym("no")));
    assert_eq!(last("(if #t 'yes 'no)"), Ok(sym("yes")));
}

#[test]
fn if_without_alternative_is_unspecified() {
    assert!(matches!(last("(if #f 1)"), Ok(Expr::Unspecified)));
    assert_eq!(last("(if #t 1)"), Ok(num(1)));
    assert_eq!(last("(if #t)"), Err(EvalError::InvalidIf));
}

#[test]
fn cond_takes_the_first_truthy_clause() {
    assert_eq!(last("(cond (#f 1) (0 2) (else 3))"), Ok(num(2)));
    assert_eq!(last("(cond (#f 1) (else 3))"), Ok(num(3)));
    assert!(matches!(last("(cond (#f 1))"), Ok(Expr::Unspecified)));
    assert_eq!(last("(cond ((= 1 1) 'same) (else 'other))"), Ok(sym("same")));
}

#[test]
fn cond_evaluates_a_variable_test() {
    let mut env = Env::new();
    let results = run(&mut env, "(define t #t) (cond (t 1) (else 2))");
    assert_eq!(results[1], Ok(num(1)));
}

#[test]
fn malformed_cond_is_rejected() {
    assert_eq!(last("(cond 1)"), Err(EvalError::ExpectingListInCond));
    assert_eq!(last("(cond (#t 1 2))"), Err(EvalError::InvalidCond));
}

#[test]
fn arguments_are_evaluated_left_to_right_before_the_call() {
    let mut env = Env::new();
    let results = run(&mut env, "(list (begin (display 1) 1) (begin (display 2) 2))");
    assert_eq!(results[0], Ok(Expr::List(vec![num(1), num(2)])));
    assert_eq!(env.take_output(), vec!["1".to_string(), "2".to_string()]);
}

#[test]
fn head_is_evaluated_before_the_operands() {
    assert_eq!(last("(nope (car '()))"), Err(EvalError::UndefinedVariable));
}

#[test]
fn a_failure_ends_the_evaluation_at_once() {
    let mut env = Env::new();
    let results = run(&mut env, "(begin (display 1) (car '()) (display 2))");
    assert_eq!(results[0], Err(EvalError::EmptyList));
    assert_eq!(env.take_output(), vec!["1".to_string()]);
}

#[test]
fn begin_yields_the_last_value() {
    assert_eq!(last("(begin 1 2 3)"), Ok(num(3)));
    assert!(matches!(last("(begin)"), Ok(Expr::Unspecified)));
}

#[test]
fn define_binds_in_the_current_frame() {
    let mut env = Env::new();
    let results = run(
        &mut env,
        "(define x 1)
         (define (f) (define x 2) x)
         (f)
         x",
    );
    assert!(matches!(results[0], Ok(Expr::Unspecified)));
    assert_eq!(results[2], Ok(num(2)));
    assert_eq!(results[3], Ok(num(1)));
}

#[test]
fn define_rejects_an_unspecified_value() {
    assert_eq!(last("(define x (define y 1))"), Err(EvalError::UnspecifiedValue));
    assert_eq!(last("(define x)"), Err(EvalError::InvalidDefine));
    assert_eq!(last("(define () 1)"), Err(EvalError::EmptyDefine));
    assert_eq!(last("(define 1 2)"), Err(EvalError::InvalidDefine));
}

#[test]
fn set_needs_a_bound_variable() {
    assert_eq!(last("(set! x 1)"), Err(EvalError::UnboundVariable));
    assert_eq!(last("(set! 1 1)"), Err(EvalError::SetTargetNotAtom));
    assert_eq!(last("(set! x)"), Err(EvalError::InvalidSet));
    let mut env = Env::new();
    let results = run(&mut env, "(define x 1) (set! x 2) x");
    assert!(matches!(results[1], Ok(Expr::Unspecified)));
    assert_eq!(results[2], Ok(num(2)));
}

#[test]
fn quote_returns_the_datum_unevaluated() {
    assert_eq!(last("'(a b)"), Ok(Expr::List(vec![sym("a"), sym("b")])));
    assert_eq!(last("(quote x)"), Ok(sym("x")));
    assert_eq!(last("(quote)"), Err(EvalError::InvalidQuote));
}

#[test]
fn lambda_makes_a_procedure() {
    assert!(matches!(last("(lambda (x) x)"), Ok(Expr::Lambda(_, _, 0))));
    assert_eq!(last("((lambda (x y) (+ x y)) 3 4)"), Ok(num(7)));
    assert_eq!(last("(lambda)"), Err(EvalError::NotImplemented));
    assert_eq!(last("((lambda (1) 1) 2)"), Err(EvalError::InvalidParameter));
    assert!(matches!(last("((lambda ()))"), Ok(Expr::Unspecified)));
}

#[test]
fn compound_head_is_evaluated() {
    assert_eq!(last("((if #t + -) 5 3)"), Ok(num(8)));
}

#[test]
fn applying_a_non_procedure_fails() {
    let mut env = Env::new();
    let results = run(&mut env, "(define x 5) (x 1)");
    assert_eq!(results[1], Err(EvalError::UnableToApply));
}

#[test]
fn recursion_works_within_the_depth() {
    let mut env = Env::new();
    let results = run(
        &mut env,
        "(define (fact n) (if (= n 0) 1 (* n (fact (- n 1)))))
         (fact 10)",
    );
    assert_eq!(results[1], Ok(num(3628800)));
}

#[test]
fn runaway_recursion_is_cut_off() {
    let mut env = Env::new();
    let results = run(&mut env, "(define (loop) (loop)) (loop)");
    assert_eq!(results[1], Err(EvalError::TooDeep));
}

#[test]
fn depth_zero_evaluates_nothing() {
    let mut env = Env::new();
    assert_eq!(eval(&num(1), GLOBAL, &mut env, 0), Err(EvalError::TooDeep));
    assert_eq!(eval(&num(1), GLOBAL, &mut env, 1), Ok(num(1)));
}

#[test]
fn unknown_frame_is_reported() {
    let mut env = Env::new();
    assert_eq!(eval(&num(1), 7, &mut env, DEPTH), Err(EvalError::UnknownFrame));
    let stray = Expr::Lambda(vec![], vec![num(1)], 7);
    assert_eq!(apply(&stray, vec![], GLOBAL, &mut env, DEPTH), Err(EvalError::UnknownFrame));
}

#[test]
fn apply_calls_a_builtin_directly() {
    let mut env = Env::new();
    let plus = env.get(GLOBAL, &"+".to_string()).unwrap();
    assert_eq!(apply(&plus, vec![num(1), num(2)], GLOBAL, &mut env, DEPTH), Ok(num(3)));
    assert_eq!(apply(&num(1), vec![], GLOBAL, &mut env, DEPTH), Err(EvalError::UnableToApply));
}

#[test]
fn nodes_that_are_no_programs_are_not_implemented() {
    let mut env = Env::new();
    assert_eq!(eval(&Expr::Unspecified, GLOBAL, &mut env, DEPTH), Err(EvalError::NotImplemented));
    let pair = Expr::DottedPair(vec![num(1)], Box::new(num(2)));
    assert_eq!(eval(&pair, GLOBAL, &mut env, DEPTH), Err(EvalError::NotImplemented));
}

#[test]
fn the_last_expression_of_a_body_is_its_value() {
    assert_eq!(last("((lambda (x) 1 2 x) 5)"), Ok(num(5)));
    assert_eq!(last("(let ((x 1)) 7 (+ x 1))"), Ok(num(2)));
    assert!(matches!(last("(let ((x 1)))"), Ok(Expr::Unspecified)));
}

#[test]
fn closures_over_one_frame_share_its_bindings() {
    let mut env = Env::new();
    let results = run(
        &mut env,
        "(define (make)
           (define n 0)
           (list (lambda () (set! n (+ n 1))) (lambda () n)))
         (define pair (make))
         (define bump (car pair))
         (define peek (car (cdr pair)))
         (bump) (bump)
         (peek)",
    );
    assert_eq!(results[6], Ok(num(2)));
}

#[test]
fn parameters_shadow_outer_bindings() {
    let mut env = Env::new();
    let results = run(
        &mut env,
        "(define x 1)
         (define (f x) (set! x (+ x 1)) x)
         (f 10)
         x",
    );
    assert_eq!(results[2], Ok(num(11)));
    assert_eq!(results[3], Ok(num(1)));
}

#[test]
fn a_procedure_can_be_passed_and_returned() {
    let mut env = Env::new();
    let results = run(
        &mut env,
        "(define (twice f) (lambda (x) (f (f x))))
         (define (inc n) (+ n 1))
         ((twice inc) 5)
         ((twice (twice inc)) 5)
         (define (map f l) (if (null? l) '() (cons (f (car l)) (map f (cdr l)))))
         (map (lambda (n) (* n n)) '(1 2 3))",
    );
    assert_eq!(results[2], Ok(num(7)));
    assert_eq!(results[3], Ok(num(9)));
    assert_eq!(results[5], Ok(Expr::List(vec![num(1), num(4), num(9)])));
}

#[test]
fn special_form_names_are_not_looked_up() {
    let mut env = Env::new();
    let results = run(&mut env, "(define if 5) (if #t 1 2) if");
    assert_eq!(results[1], Ok(num(1)));
    assert_eq!(results[2], Ok(num(5)));
}

#[test]
fn tree_recursion_runs_and_leaves_no_frames() {
    let mut env = Env::new();
    let results = run(
        &mut env,
        "(define (fib n) (if (< n 2) n (+ (fib (- n 1)) (fib (- n 2)))))
         (fib 18)",
    );
    assert_eq!(results[1], Ok(num(2584)));
    assert_eq!(env.frame_count(), 1);
}
