use slippy::ast::{Builtin, Expr, Literal};
use slippy::builtins;
use slippy::decimal::Decimal;
use slippy::env::{Env, GLOBAL};
use slippy::error::EvalError;
use slippy::eval::eval;
use slippy::reader::read_program;

const DEPTH: usize = 200;

fn last(source: &str) -> Result<Expr, EvalError> {
    let mut env = Env::new();
    let program = read_program(source).expect("the source reads");
    let mut result = Ok(Expr::Unspecified);
    for expr in program.iter() {
        result = eval(expr, GLOBAL, &mut env, DEPTH);
    }
    result
}

fn num(n: i32) -> Expr {
    Expr::Literal(Literal::Number(n))
}

fn float(text: &str) -> Expr {
    Expr::Literal(Literal::Float(Decimal::parse(text).expect("a decimal")))
}

fn boolean(b: bool) -> Expr {
    Expr::Literal(Literal::Bool(b))
}

fn sym(name: &str) -> Expr {
    Expr::Var(name.to_string())
}

fn list(items: Vec<Expr>) -> Expr {
    Expr::List(items)
}

#[test]
fn addition_sums_its_arguments() {
    assert_eq!(last("(+)"), Ok(num(0)));
    assert_eq!(last("(+ 5)"), Ok(num(5)));
    assert_eq!(last("(+ 1 2 3)"), Ok(num(6)));
    assert_eq!(last("(+ 1 2.9)"), Ok(num(3)));
}

#[test]
fn multiplication_multiplies_its_arguments() {
    assert_eq!(last("(*)"), Ok(num(1)));
    assert_eq!(last("(* 2 3 4)"), Ok(num(24)));
    assert_eq!(last("(* 2 (- 3))"), Ok(num(-6)));
    assert_eq!(last("(* 2 \"x\")"), Err(EvalError::CannotMultiply));
}

#[test]
fn subtraction_negates_a_single_argument() {
    assert_eq!(last("(- 5)"), Ok(num(-5)));
    assert_eq!(last("(- 10 3 2)"), Ok(num(5)));
    assert_eq!(last("(-)"), Err(EvalError::SubNeedsArgument));
    assert_eq!(last("(- 'a)"), Err(EvalError::CannotSubtract));
    assert_eq!(last("(- 1 'a)"), Err(EvalError::CannotSubtract));
    assert_eq!(EvalError::SubNeedsArgument.message(), "- requires at least one argument");
}

#[test]
fn arithmetic_that_leaves_the_range_fails() {
    let env = Env::new();
    assert_eq!(
        builtins::add(&[num(i32::MAX), num(1)], &env),
        Err(EvalError::Overflow)
    );
    assert_eq!(builtins::add(&[num(i32::MAX), num(0)], &env), Ok(num(i32::MAX)));
    assert_eq!(
        builtins::sub(&[num(i32::MIN), num(1)], &env),
        Err(EvalError::Overflow)
    );
    assert_eq!(builtins::sub(&[num(i32::MIN)], &env), Err(EvalError::Overflow));
    assert_eq!(
        builtins::mul(&[num(65536), num(65536)], &env),
        Err(EvalError::Overflow)
    );
    assert_eq!(
        builtins::mul(&[num(65536), num(-32768)], &env),
        Ok(num(i32::MIN))
    );
}

#[test]
fn a_decimal_counts_as_its_whole_part() {
    assert_eq!(last("(+ 0.9 0.9)"), Ok(num(0)));
    assert_eq!(last("(* 2.5 2)"), Ok(num(4)));
    assert_eq!(last("(- 7.9)"), Ok(num(-7)));
    assert_eq!(last("(+ 99999999999.5 0)"), Ok(num(i32::MAX)));
}

#[test]
fn comparisons_hold_every_argument_against_the_first() {
    assert_eq!(last("(= 1 1 1)"), Ok(boolean(true)));
    assert_eq!(last("(= 1 1 2)"), Ok(boolean(false)));
    assert_eq!(last("(< 1 2 3)"), Ok(boolean(true)));
    assert_eq!(last("(< 1 3 2)"), Ok(boolean(true)));
    assert_eq!(last("(< 2 1)"), Ok(boolean(false)));
    assert_eq!(last("(<= 2 2)"), Ok(boolean(true)));
    assert_eq!(last("(> 2 1)"), Ok(boolean(true)));
    assert_eq!(last("(> 1 2)"), Ok(boolean(false)));
    assert_eq!(last("(>= 2 2 1)"), Ok(boolean(true)));
    assert_eq!(last("(>= 1 2)"), Ok(boolean(false)));
    assert_eq!(last("(= 5)"), Ok(boolean(true)));
}

#[test]
fn comparisons_need_numbers() {
    assert_eq!(last("(=)"), Err(EvalError::IncorrectArgumentCount));
    assert_eq!(last("(= 'a 1)"), Err(EvalError::MustBeNumber));
    assert_eq!(last("(= 1 'a)"), Err(EvalError::MustBeNumber));
    assert_eq!(last("(= 1 2 'a)"), Ok(boolean(false)));
    assert_eq!(last("(< 1 2 'a)"), Err(EvalError::MustBeNumber));
}

#[test]
fn decimals_compare_by_value() {
    assert_eq!(last("(= 1.5 1.50)"), Ok(boolean(true)));
    assert_eq!(last("(= 01.5 1.5)"), Ok(boolean(true)));
    assert_eq!(last("(< 1.5 1.75)"), Ok(boolean(true)));
    assert_eq!(last("(< 1.5 1.25)"), Ok(boolean(false)));
    assert_eq!(last("(< 9.5 10.5)"), Ok(boolean(true)));
    assert_eq!(last("(> 10.5 9.5)"), Ok(boolean(true)));
    assert_eq!(last("(< 0.5 0.55)"), Ok(boolean(true)));
    assert_eq!(last("(<= 2.0 2.)"), Ok(boolean(true)));
}

#[test]
fn a_decimal_orders_before_an_integer() {
    assert_eq!(last("(< 5.5 1)"), Ok(boolean(true)));
    assert_eq!(last("(> 1 5.5)"), Ok(boolean(true)));
    assert_eq!(last("(= 1 1.0)"), Ok(boolean(false)));
}

#[test]
fn list_collects_its_arguments() {
    assert_eq!(last("(list)"), Ok(list(vec![])));
    assert_eq!(last("(list 1 'a)"), Ok(list(vec![num(1), sym("a")])));
}

#[test]
fn car_and_cdr_take_lists_apart() {
    assert_eq!(last("(car '(1 2 3))"), Ok(num(1)));
    assert_eq!(last("(cdr '(1 2 3))"), Ok(list(vec![num(2), num(3)])));
    assert_eq!(last("(cdr '(1))"), Ok(list(vec![])));
    assert_eq!(last("(cdr '())"), Err(EvalError::EmptyList));
    assert_eq!(last("(car 1)"), Err(EvalError::IncorrectType));
    assert_eq!(last("(cdr 1)"), Err(EvalError::IncorrectType));
    assert_eq!(last("(car)"), Err(EvalError::IncorrectArgumentCount));
    assert_eq!(last("(car '(1) '(2))"), Err(EvalError::IncorrectArgumentCount));
}

#[test]
fn car_and_cdr_take_dotted_pairs_apart() {
    assert_eq!(last("(car '(1 . 2))"), Ok(num(1)));
    assert_eq!(last("(cdr '(1 . 2))"), Ok(num(2)));
    assert_eq!(
        last("(cdr '(1 2 . 3))"),
        Ok(Expr::DottedPair(vec![num(2)], Box::new(num(3))))
    );
    let env = Env::new();
    let hollow = Expr::DottedPair(vec![], Box::new(num(1)));
    assert_eq!(builtins::car(&[hollow.clone()], &env), Err(EvalError::IncorrectType));
    assert_eq!(builtins::cdr(&[hollow], &env), Err(EvalError::IncorrectType));
}

#[test]
fn cons_puts_a_value_in_front() {
    assert_eq!(last("(cons 1 '(2 3))"), Ok(list(vec![num(1), num(2), num(3)])));
    assert_eq!(last("(cons 1 '())"), Ok(list(vec![num(1)])));
    assert_eq!(last("(cons 1 2)"), Ok(Expr::DottedPair(vec![num(1)], Box::new(num(2)))));
    assert_eq!(
        last("(cons 0 (cons 1 2))"),
        Ok(Expr::DottedPair(vec![num(0), num(1)], Box::new(num(2))))
    );
    assert_eq!(last("(cons 1)"), Err(EvalError::IncorrectArgumentCount));
}

#[test]
fn append_joins_lists() {
    assert_eq!(
        last("(append '(1) '(2 3) '() '(4))"),
        Ok(list(vec![num(1), num(2), num(3), num(4)]))
    );
    assert_eq!(last("(append '(1))"), Err(EvalError::IncorrectArgumentCount));
    assert_eq!(last("(append 1 '(2))"), Err(EvalError::AppendIncorrectType));
    assert_eq!(last("(append '(1) 2)"), Err(EvalError::ArgumentMustBeList));
}

#[test]
fn length_counts_items() {
    assert_eq!(last("(length '())"), Ok(num(0)));
    assert_eq!(last("(length '(a b c))"), Ok(num(3)));
    assert_eq!(last("(length 1)"), Err(EvalError::LengthIncorrectType));
    assert_eq!(last("(length)"), Err(EvalError::IncorrectArgumentCount));
}

#[test]
fn reverse_turns_a_list_round() {
    assert_eq!(last("(reverse '(1 2 3))"), Ok(list(vec![num(3), num(2), num(1)])));
    assert_eq!(last("(reverse '())"), Ok(list(vec![])));
    assert_eq!(last("(reverse 1)"), Err(EvalError::ReverseIncorrectType));
}

#[test]
fn equalp_compares_structure() {
    assert_eq!(last("(equal? '(1 (2 3)) '(1 (2 3)))"), Ok(boolean(true)));
    assert_eq!(last("(equal? '(1 2) '(3 4))"), Ok(boolean(false)));
    assert_eq!(last("(equal? '(1 2) '(1 2 3))"), Ok(boolean(false)));
    assert_eq!(last("(equal? '(1 . 2) '(1 . 2))"), Ok(boolean(true)));
    assert_eq!(last("(equal? '(1 . 2) '(1 . 3))"), Ok(boolean(false)));
    assert_eq!(last("(equal? 'a 'a)"), Ok(boolean(true)));
    assert_eq!(last("(equal? \"a\" \"a\")"), Ok(boolean(true)));
    assert_eq!(last("(equal? 1 1.0)"), Ok(boolean(false)));
    assert_eq!(last("(equal? car car)"), Ok(boolean(false)));
    assert_eq!(last("(equal? (lambda () 1) (lambda () 1))"), Ok(boolean(false)));
    assert_eq!(last("(equal? 1)"), Err(EvalError::IncorrectArgumentCount));
}

#[test]
fn procedures_are_equal_to_nothing() {
    let f = Expr::Builtin(Builtin::Car);
    assert!(f != f.clone());
    let g = Expr::Lambda(vec![], vec![], 0);
    assert!(g != g.clone());
    assert!(Expr::Unspecified != Expr::Unspecified);
    assert!(Expr::List(vec![f.clone()]) != Expr::List(vec![f]));
}

#[test]
fn predicates_test_the_kind_of_a_value() {
    assert_eq!(last("(list? '(1))"), Ok(boolean(true)));
    assert_eq!(last("(list? '())"), Ok(boolean(true)));
    assert_eq!(last("(list? '(1 . 2))"), Ok(boolean(false)));
    assert_eq!(last("(null? '())"), Ok(boolean(true)));
    assert_eq!(last("(null? '(1))"), Ok(boolean(false)));
    assert_eq!(last("(null? 0)"), Ok(boolean(false)));
    assert_eq!(last("(number? 1)"), Ok(boolean(true)));
    assert_eq!(last("(number? 1.5)"), Ok(boolean(true)));
    assert_eq!(last("(number? 'a)"), Ok(boolean(false)));
    assert_eq!(last("(procedure? car)"), Ok(boolean(true)));
    assert_eq!(last("(procedure? (lambda (x) x))"), Ok(boolean(true)));
    assert_eq!(last("(procedure? 'car)"), Ok(boolean(false)));
    assert_eq!(last("(symbol? 'a)"), Ok(boolean(true)));
    assert_eq!(last("(symbol? \"a\")"), Ok(boolean(false)));
    assert_eq!(last("(pair? '(1))"), Ok(boolean(true)));
    assert_eq!(last("(pair? '(1 . 2))"), Ok(boolean(true)));
    assert_eq!(last("(pair? '())"), Ok(boolean(false)));
    assert_eq!(last("(pair? 1)"), Ok(boolean(false)));
    assert_eq!(last("(pair?)"), Err(EvalError::IncorrectArgumentCount));
}

#[test]
fn apply_spreads_its_last_argument() {
    assert_eq!(last("(apply + '(1 2 3))"), Ok(num(6)));
    assert_eq!(last("(apply + 1 2 '(3 4))"), Ok(num(10)));
    assert_eq!(last("(apply (lambda (a b) (- a b)) 5 '(3))"), Ok(num(2)));
    assert_eq!(last("(apply car '((a b)))"), Ok(sym("a")));
    assert_eq!(last("(apply +)"), Err(EvalError::IncorrectArgumentCount));
    assert_eq!(last("(apply + 1)"), Err(EvalError::ApplyExpectingList));
    assert_eq!(last("(apply 1 '(2))"), Err(EvalError::UnableToApply));
}

#[test]
fn apply_does_not_evaluate_its_arguments_again() {
    assert_eq!(last("(apply list '(a b))"), Ok(list(vec![sym("a"), sym("b")])));
    assert_eq!(last("(apply cons '(a (b)))"), Ok(list(vec![sym("a"), sym("b")])));
}

#[test]
fn native_procedures_take_evaluated_arguments() {
    let env = Env::new();
    assert_eq!(builtins::add(&[num(1), float("2.5")], &env), Ok(num(3)));
    assert_eq!(builtins::add(&[sym("x")], &env), Err(EvalError::CannotAdd));
    assert_eq!(builtins::equal(&[num(1), num(1)], &env), Ok(boolean(true)));
    assert_eq!(builtins::lt(&[num(1), num(2)], &env), Ok(boolean(true)));
    assert_eq!(builtins::lte(&[num(3), num(2)], &env), Ok(boolean(false)));
    assert_eq!(builtins::gt(&[num(3), num(2)], &env), Ok(boolean(true)));
    assert_eq!(builtins::gte(&[num(1), num(2)], &env), Ok(boolean(false)));
    assert_eq!(builtins::list(&[num(1)], &env), Ok(list(vec![num(1)])));
    assert_eq!(builtins::cons(&[num(1), list(vec![])], &env), Ok(list(vec![num(1)])));
    assert_eq!(builtins::append(&[list(vec![num(1)]), list(vec![num(2)])], &env), Ok(list(vec![num(1), num(2)])));
    assert_eq!(builtins::length(&[list(vec![num(1)])], &env), Ok(num(1)));
    assert_eq!(builtins::reverse(&[list(vec![num(1), num(2)])], &env), Ok(list(vec![num(2), num(1)])));
    assert_eq!(builtins::equalp(&[num(1), num(1)], &env), Ok(boolean(true)));
    assert_eq!(builtins::listp(&[num(1)], &env), Ok(boolean(false)));
    assert_eq!(builtins::nullp(&[list(vec![])], &env), Ok(boolean(true)));
    assert_eq!(builtins::procedurep(&[Expr::Builtin(Builtin::Add)], &env), Ok(boolean(true)));
    assert_eq!(builtins::numberp(&[float("1.5")], &env), Ok(boolean(true)));
    assert_eq!(builtins::symbolp(&[sym("a")], &env), Ok(boolean(true)));
    assert_eq!(builtins::pairp(&[list(vec![num(1)])], &env), Ok(boolean(true)));
}

#[test]
fn apply_as_a_native_procedure() {
    let mut env = Env::new();
    let args = [Expr::Builtin(Builtin::Add), num(1), list(vec![num(2)])];
    assert_eq!(builtins::apply(&args, GLOBAL, &mut env, DEPTH), Ok(num(3)));
    assert_eq!(builtins::apply(&args, GLOBAL, &mut env, 0), Err(EvalError::TooDeep));
}
