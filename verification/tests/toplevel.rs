use slippy::env::{Env, GLOBAL};
use slippy::error::EvalError;
use slippy::repl::{read_source, run_forms, Progress};

const DEPTH: usize = 200;

fn lines(items: &[&str]) -> Vec<String> {
    items.iter().map(|s| s.to_string()).collect()
}

#[test]
fn every_form_is_shown_in_order() {
    let mut env = Env::new();
    let program = read_source("(define x 2) (* x 21) nope \"s\" '(a . b)", &mut env).unwrap();
    assert_eq!(run_forms(&program, 0, GLOBAL, &mut env, DEPTH), Progress::Done);
    assert_eq!(
        env.take_output(),
        lines(&["#unspecified", "42", "undefined variable", "\"s\"", "(a . b)"])
    );
}

#[test]
fn a_text_that_does_not_read_is_reported() {
    let mut env = Env::new();
    assert!(read_source("(+ 1 2) (", &mut env).is_none());
    assert_eq!(env.take_output(), lines(&["expecting a list", "pos: 6"]));
    assert!(read_source("[", &mut env).is_none());
    assert_eq!(env.take_output(), lines(&["unexpected symbol", "pos: 0"]));
}

#[test]
fn a_run_waits_for_the_host_and_goes_on() {
    let mut env = Env::new();
    let program = read_source("(display 1) (display (read)) (display 3)", &mut env).unwrap();
    assert_eq!(
        run_forms(&program, 0, GLOBAL, &mut env, DEPTH),
        Progress::Waiting(1, EvalError::InputRequired)
    );
    assert_eq!(env.take_output(), lines(&["1", "#unspecified"]));
    env.push_input("two".to_string());
    assert_eq!(run_forms(&program, 1, GLOBAL, &mut env, DEPTH), Progress::Done);
    assert_eq!(env.take_output(), lines(&["two", "#unspecified", "3", "#unspecified"]));
}

#[test]
fn a_run_from_past_the_end_is_done() {
    let mut env = Env::new();
    let program = read_source("1", &mut env).unwrap();
    assert_eq!(run_forms(&program, 5, GLOBAL, &mut env, DEPTH), Progress::Done);
    assert!(env.take_output().is_empty());
}

#[test]
fn the_three_examples_of_enforcement_are_described() {
    let mut env = Env::new();
    let program =
        read_source("(car '()) ((lambda (a b) a) 1) (+ 1 \"x\")", &mut env).unwrap();
    assert_eq!(run_forms(&program, 0, GLOBAL, &mut env, DEPTH), Progress::Done);
    assert_eq!(
        env.take_output(),
        lines(&[
            "called with incorrect type ()",
            "applied to incorrect number of args",
            "cannot add a non-number"
        ])
    );
}
