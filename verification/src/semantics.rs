//! What evaluation means: for a node, a frame, a state and a bound on the
//! nesting depth, the result and the state after.
//!
//! Evaluation is recursive and need not end, so every function here takes a
//! depth. Each nested evaluation gets one less, and with none left the result
//! is `TooDeep`. A failure ends the evaluation at once; the state it leaves
//! is the state at the point of failure.

use crate::ast::{is_truthy, Atom, Builtin, Sexp};
use crate::builtins::{
    add_sem, append_sem, car_sem, cdr_sem, compare_sem, cons_sem, equalp_sem, length_sem,
    list_sem, mul_sem, predicate_sem, reverse_sem, sub_sem,
};
use crate::env::{
    assign, define, emit, extend, find_source, lookup, pin, release, EnvModel,
};
use crate::error::EvalError;
use crate::print::print_sexp;
use crate::reader::{read_sem, ReadError};
use crate::text::nat_digits;
use vstd::prelude::*;

verus! {

/// The special forms.
#[derive(Clone, Copy, Debug, PartialEq, Eq, Structural)]
pub enum Keyword {
    Lambda,
    Define,
    If,
    Quote,
    Assign,
    Begin,
    Let,
    Cond,
}

/// The special form that an identifier in head position names.
pub open spec fn keyword_of(name: Seq<char>) -> Option<Keyword> {
    if name == "lambda"@ {
        Some(Keyword::Lambda)
    } else if name == "define"@ {
        Some(Keyword::Define)
    } else if name == "if"@ {
        Some(Keyword::If)
    } else if name == "quote"@ {
        Some(Keyword::Quote)
    } else if name == "set!"@ {
        Some(Keyword::Assign)
    } else if name == "begin"@ {
        Some(Keyword::Begin)
    } else if name == "let"@ {
        Some(Keyword::Let)
    } else if name == "cond"@ {
        Some(Keyword::Cond)
    } else {
        None
    }
}

/// Each special form is known by its name, and by no other.
pub proof fn lemma_keywords()
    ensures
        keyword_of("lambda"@) == Some(Keyword::Lambda),
        keyword_of("define"@) == Some(Keyword::Define),
        keyword_of("if"@) == Some(Keyword::If),
        keyword_of("quote"@) == Some(Keyword::Quote),
        keyword_of("set!"@) == Some(Keyword::Assign),
        keyword_of("begin"@) == Some(Keyword::Begin),
        keyword_of("let"@) == Some(Keyword::Let),
        keyword_of("cond"@) == Some(Keyword::Cond),
        forall|name: Seq<char>|
            keyword_of(name) is Some ==> name == "lambda"@ || name == "define"@ || name == "if"@
                || name == "quote"@ || name == "set!"@ || name == "begin"@ || name == "let"@
                || name == "cond"@,
{
    reveal_strlit("lambda");
    assert("lambda"@.len() == 6 && "lambda"@[0] == 'l');
    reveal_strlit("define");
    assert("define"@.len() == 6 && "define"@[0] == 'd');
    reveal_strlit("if");
    assert("if"@.len() == 2 && "if"@[0] == 'i');
    reveal_strlit("quote");
    assert("quote"@.len() == 5 && "quote"@[0] == 'q');
    reveal_strlit("set!");
    assert("set!"@.len() == 4 && "set!"@[0] == 's');
    reveal_strlit("begin");
    assert("begin"@.len() == 5 && "begin"@[0] == 'b');
    reveal_strlit("let");
    assert("let"@.len() == 3 && "let"@[0] == 'l');
    reveal_strlit("cond");
    assert("cond"@.len() == 4 && "cond"@[0] == 'c');
}

/// The state after binding the first `n` of `names` to the first `n` of
/// `values` in `frame`, in order.
pub open spec fn bind_all(
    env: EnvModel,
    frame: nat,
    names: Seq<Seq<char>>,
    values: Seq<Sexp>,
    n: nat,
) -> EnvModel
    decreases n,
{
    if n == 0 {
        env
    } else {
        define(
            bind_all(env, frame, names, values, (n - 1) as nat),
            frame,
            names[n - 1],
            values[n - 1],
        )
    }
}

/// Whether every parameter is an identifier.
pub open spec fn all_vars(params: Seq<Sexp>) -> bool {
    forall|i: int| 0 <= i < params.len() ==> #[trigger] params[i] is Var
}

/// The names of a parameter list.
pub open spec fn param_names(params: Seq<Sexp>) -> Seq<Seq<char>> {
    Seq::new(
        params.len(),
        |i: int|
            match params[i] {
                Sexp::Var(name) => name,
                _ => Seq::empty(),
            },
    )
}

/// The value of a node in a frame.
///
/// A literal and the empty list are their own value. An identifier has the
/// value that the frame, or the nearest enclosing frame that binds it, gives
/// it. A non-empty list is a special form or a call. Nothing else can be
/// evaluated.
pub open spec fn eval_sem(e: Sexp, frame: nat, env: EnvModel, depth: nat) -> (
    Result<Sexp, EvalError>,
    EnvModel,
)
    decreases depth, 10nat, 0nat,
{
    if depth == 0 {
        (Err(EvalError::TooDeep), env)
    } else if frame >= env.frames.len() {
        (Err(EvalError::UnknownFrame), env)
    } else {
        match e {
            Sexp::Literal(_) => (Ok(e), env),
            Sexp::Var(name) => match lookup(env, frame, name) {
                Some(v) => (Ok(v), env),
                None => (Err(EvalError::UndefinedVariable), env),
            },
            Sexp::List(items) => if items.len() == 0 {
                (Ok(e), env)
            } else {
                form_sem(items, frame, env, depth)
            },
            _ => (Err(EvalError::NotImplemented), env),
        }
    }
}

/// The value of a non-empty list: the special form that its head names, or
/// else a call where the head is an identifier or a list. Any other head
/// cannot be applied.
pub open spec fn form_sem(items: Seq<Sexp>, frame: nat, env: EnvModel, depth: nat) -> (
    Result<Sexp, EvalError>,
    EnvModel,
)
    decreases depth, 9nat, 0nat,
{
    if depth == 0 {
        (Err(EvalError::TooDeep), env)
    } else if items.len() == 0 {
        (Ok(Sexp::List(items)), env)
    } else {
        match items[0] {
            Sexp::Var(name) => match keyword_of(name) {
                Some(Keyword::Lambda) => lambda_sem(items, frame, env),
                Some(Keyword::Define) => define_sem(items, frame, env, depth),
                Some(Keyword::If) => if_sem(items, frame, env, depth),
                Some(Keyword::Quote) => quote_sem(items, env),
                Some(Keyword::Assign) => set_sem(items, frame, env, depth),
                Some(Keyword::Begin) => body_sem(
                    items,
                    1,
                    frame,
                    env,
                    (depth - 1) as nat,
                    Sexp::Unspecified,
                ),
                Some(Keyword::Let) => let_sem(items, frame, env, depth),
                Some(Keyword::Cond) => cond_sem(items, 1, frame, env, (depth - 1) as nat),
                None => call_sem(items, frame, env, depth),
            },
            Sexp::List(_) => call_sem(items, frame, env, depth),
            _ => (Err(EvalError::NotApplicable), env),
        }
    }
}

/// A call: the head is evaluated, then the operands from left to right, all
/// in the caller's frame, and the value of the head is applied to theirs.
pub open spec fn call_sem(items: Seq<Sexp>, frame: nat, env: EnvModel, depth: nat) -> (
    Result<Sexp, EvalError>,
    EnvModel,
)
    decreases depth, 8nat, 0nat,
{
    if depth == 0 {
        (Err(EvalError::TooDeep), env)
    } else if items.len() == 0 {
        (Err(EvalError::NotApplicable), env)
    } else {
        let (head, env1) = eval_sem(items[0], frame, env, (depth - 1) as nat);
        match head {
            Err(e) => (Err(e), env1),
            Ok(procedure) => {
                let (operands, env2) = args_sem(
                    items,
                    1,
                    frame,
                    env1,
                    (depth - 1) as nat,
                    Seq::empty(),
                );
                match operands {
                    Err(e) => (Err(e), env2),
                    Ok(args) => apply_sem(procedure, args, frame, env2, depth),
                }
            },
        }
    }
}

/// The values of the items from `i` on, in order, after those in `acc`.
pub open spec fn args_sem(
    items: Seq<Sexp>,
    i: int,
    frame: nat,
    env: EnvModel,
    depth: nat,
    acc: Seq<Sexp>,
) -> (Result<Seq<Sexp>, EvalError>, EnvModel)
    decreases depth, 11nat, items.len() - i,
{
    if i < 0 || i >= items.len() {
        (Ok(acc), env)
    } else {
        let (r, env1) = eval_sem(items[i], frame, env, depth);
        match r {
            Err(e) => (Err(e), env1),
            Ok(v) => args_sem(items, i + 1, frame, env1, depth, acc.push(v)),
        }
    }
}

/// The items from `i` on evaluated in order: the value of the last one, or
/// `last` where there is none.
pub open spec fn body_sem(
    items: Seq<Sexp>,
    i: int,
    frame: nat,
    env: EnvModel,
    depth: nat,
    last: Sexp,
) -> (Result<Sexp, EvalError>, EnvModel)
    decreases depth, 11nat, items.len() - i,
{
    if i < 0 || i >= items.len() {
        (Ok(last), env)
    } else {
        let (r, env1) = eval_sem(items[i], frame, env, depth);
        match r {
            Err(e) => (Err(e), env1),
            Ok(v) => body_sem(items, i + 1, frame, env1, depth, v),
        }
    }
}

/// `(lambda (params...) body...)`: a closure over the current frame, which
/// is pinned from then on.
pub open spec fn lambda_sem(items: Seq<Sexp>, frame: nat, env: EnvModel) -> (
    Result<Sexp, EvalError>,
    EnvModel,
) {
    if items.len() < 2 {
        (Err(EvalError::NotImplemented), env)
    } else {
        match items[1] {
            Sexp::List(params) => (
                Ok(Sexp::Lambda(params, items.skip(2), frame)),
                pin(env, frame),
            ),
            _ => (Err(EvalError::NotImplemented), env),
        }
    }
}

/// `(define name expr)` binds the value of `expr` in the current frame;
/// `(define (name params...) body...)` binds a closure there.
pub open spec fn define_sem(items: Seq<Sexp>, frame: nat, env: EnvModel, depth: nat) -> (
    Result<Sexp, EvalError>,
    EnvModel,
)
    decreases depth, 8nat, 0nat,
{
    if depth == 0 {
        (Err(EvalError::TooDeep), env)
    } else if items.len() < 3 {
        (Err(EvalError::InvalidDefine), env)
    } else {
        match items[1] {
            Sexp::List(vars) => if vars.len() == 0 {
                (Err(EvalError::EmptyDefine), env)
            } else {
                match vars[0] {
                    Sexp::Var(name) => (
                        Ok(Sexp::Unspecified),
                        define(
                            pin(env, frame),
                            frame,
                            name,
                            Sexp::Lambda(vars.skip(1), items.skip(2), frame),
                        ),
                    ),
                    _ => (Err(EvalError::InvalidDefine), env),
                }
            },
            Sexp::Var(name) => {
                let (r, env1) = eval_sem(items[2], frame, env, (depth - 1) as nat);
                match r {
                    Err(e) => (Err(e), env1),
                    Ok(v) => if v is Unspecified {
                        (Err(EvalError::UnspecifiedValue), env1)
                    } else {
                        (Ok(Sexp::Unspecified), define(env1, frame, name, v))
                    },
                }
            },
            _ => (Err(EvalError::InvalidDefine), env),
        }
    }
}

/// `(if test conseq [alt])`: the consequent where the test is truthy, else
/// the alternative, or the unspecified value where there is none.
pub open spec fn if_sem(items: Seq<Sexp>, frame: nat, env: EnvModel, depth: nat) -> (
    Result<Sexp, EvalError>,
    EnvModel,
)
    decreases depth, 8nat, 0nat,
{
    if depth == 0 {
        (Err(EvalError::TooDeep), env)
    } else if items.len() < 3 {
        (Err(EvalError::InvalidIf), env)
    } else {
        let (r, env1) = eval_sem(items[1], frame, env, (depth - 1) as nat);
        match r {
            Err(e) => (Err(e), env1),
            Ok(test) => if is_truthy(test) {
                eval_sem(items[2], frame, env1, (depth - 1) as nat)
            } else if items.len() == 3 {
                (Ok(Sexp::Unspecified), env1)
            } else {
                eval_sem(items[3], frame, env1, (depth - 1) as nat)
            },
        }
    }
}

/// `(quote datum)`: the datum, not evaluated.
pub open spec fn quote_sem(items: Seq<Sexp>, env: EnvModel) -> (Result<Sexp, EvalError>, EnvModel) {
    if items.len() != 2 {
        (Err(EvalError::InvalidQuote), env)
    } else {
        (Ok(items[1]), env)
    }
}

/// `(set! name expr)`: overwrites the innermost binding of `name`.
pub open spec fn set_sem(items: Seq<Sexp>, frame: nat, env: EnvModel, depth: nat) -> (
    Result<Sexp, EvalError>,
    EnvModel,
)
    decreases depth, 8nat, 0nat,
{
    if depth == 0 {
        (Err(EvalError::TooDeep), env)
    } else if items.len() != 3 {
        (Err(EvalError::InvalidSet), env)
    } else {
        match items[1] {
            Sexp::Var(name) => {
                let (r, env1) = eval_sem(items[2], frame, env, (depth - 1) as nat);
                match r {
                    Err(e) => (Err(e), env1),
                    Ok(v) => match assign(env1, frame, name, v) {
                        Some(env2) => (Ok(Sexp::Unspecified), env2),
                        None => (Err(EvalError::UnboundVariable), env1),
                    },
                }
            },
            _ => (Err(EvalError::SetTargetNotAtom), env),
        }
    }
}

/// The declarations of a `let` from `i` on: each is a pair of a name and an
/// expression, and every expression is evaluated in the enclosing frame.
pub open spec fn bindings_sem(
    decs: Seq<Sexp>,
    i: int,
    frame: nat,
    env: EnvModel,
    depth: nat,
    names: Seq<Seq<char>>,
    values: Seq<Sexp>,
) -> (Result<(Seq<Seq<char>>, Seq<Sexp>), EvalError>, EnvModel)
    decreases depth, 11nat, decs.len() - i,
{
    if i < 0 || i >= decs.len() {
        (Ok((names, values)), env)
    } else {
        match decs[i] {
            Sexp::List(dec) => if dec.len() != 2 {
                (Err(EvalError::ExpectingPair), env)
            } else {
                let (r, env1) = eval_sem(dec[1], frame, env, depth);
                match r {
                    Err(e) => (Err(e), env1),
                    Ok(v) => match dec[0] {
                        Sexp::Var(name) => bindings_sem(
                            decs,
                            i + 1,
                            frame,
                            env1,
                            depth,
                            names.push(name),
                            values.push(v),
                        ),
                        _ => (Err(EvalError::ExpectingAtom), env1),
                    },
                }
            },
            _ => (Err(EvalError::ExpectingPair), env),
        }
    }
}

/// `(let ((name expr)...) body...)`: the body evaluated in a fresh frame
/// inside the current one, which binds every name to the value that its
/// expression has in the current frame. The fresh frame is given up after
/// the body, unless a closure has captured it or a later one.
pub open spec fn let_sem(items: Seq<Sexp>, frame: nat, env: EnvModel, depth: nat) -> (
    Result<Sexp, EvalError>,
    EnvModel,
)
    decreases depth, 8nat, 0nat,
{
    if depth == 0 {
        (Err(EvalError::TooDeep), env)
    } else if items.len() < 2 {
        (Err(EvalError::ExpectingDeclarations), env)
    } else {
        match items[1] {
            Sexp::List(decs) => {
                let (r, env1) = bindings_sem(
                    decs,
                    0,
                    frame,
                    env,
                    (depth - 1) as nat,
                    Seq::empty(),
                    Seq::empty(),
                );
                match r {
                    Err(e) => (Err(e), env1),
                    Ok((names, values)) => {
                        let child = env1.frames.len();
                        let env2 = bind_all(extend(env1, frame), child, names, values, names.len());
                        let (value, env3) = body_sem(
                            items,
                            2,
                            child,
                            env2,
                            (depth - 1) as nat,
                            Sexp::Unspecified,
                        );
                        (value, release(env3, child))
                    },
                }
            },
            _ => (Err(EvalError::ExpectingDeclarations), env),
        }
    }
}

/// The clauses of a `cond` from `i` on: the expression of the first clause
/// whose test is `else` or has a truthy value, or the unspecified value where
/// there is none.
pub open spec fn cond_sem(items: Seq<Sexp>, i: int, frame: nat, env: EnvModel, depth: nat) -> (
    Result<Sexp, EvalError>,
    EnvModel,
)
    decreases depth, 11nat, items.len() - i,
{
    if i < 0 || i >= items.len() {
        (Ok(Sexp::Unspecified), env)
    } else {
        match items[i] {
            Sexp::List(clause) => if clause.len() != 2 {
                (Err(EvalError::InvalidCond), env)
            } else if clause[0] == Sexp::Var("else"@) {
                eval_sem(clause[1], frame, env, depth)
            } else {
                let (r, env1) = eval_sem(clause[0], frame, env, depth);
                match r {
                    Err(e) => (Err(e), env1),
                    Ok(test) => if is_truthy(test) {
                        eval_sem(clause[1], frame, env1, depth)
                    } else {
                        cond_sem(items, i + 1, frame, env1, depth)
                    },
                }
            },
            _ => (Err(EvalError::ExpectingListInCond), env),
        }
    }
}

/// Applying a procedure to values.
///
/// A closure takes as many arguments as it has parameters. Its body is
/// evaluated in a fresh frame inside the frame that the closure captured,
/// which binds each parameter to its argument. That frame is given up after
/// the body, unless a closure has captured it or a later one. A native
/// procedure receives the arguments and the frame of the call. Nothing else
/// can be applied.
pub open spec fn apply_sem(
    procedure: Sexp,
    args: Seq<Sexp>,
    frame: nat,
    env: EnvModel,
    depth: nat,
) -> (Result<Sexp, EvalError>, EnvModel)
    decreases depth, 5nat, 0nat,
{
    if depth == 0 {
        (Err(EvalError::TooDeep), env)
    } else {
        match procedure {
            Sexp::Lambda(params, body, captured) => if params.len() != args.len() {
                (Err(EvalError::WrongArgumentCount), env)
            } else if captured >= env.frames.len() {
                (Err(EvalError::UnknownFrame), env)
            } else if !all_vars(params) {
                (Err(EvalError::InvalidParameter), env)
            } else {
                let child = env.frames.len();
                let env1 = bind_all(
                    extend(env, captured),
                    child,
                    param_names(params),
                    args,
                    params.len(),
                );
                let (value, env2) = body_sem(
                    body,
                    0,
                    child,
                    env1,
                    (depth - 1) as nat,
                    Sexp::Unspecified,
                );
                (value, release(env2, child))
            },
            Sexp::Builtin(b) => builtin_sem(b, args, frame, env, depth),
            _ => (Err(EvalError::UnableToApply), env),
        }
    }
}

/// What each native procedure does with its arguments.
pub open spec fn builtin_sem(b: Builtin, args: Seq<Sexp>, frame: nat, env: EnvModel, depth: nat) -> (
    Result<Sexp, EvalError>,
    EnvModel,
)
    decreases depth, 4nat, 0nat,
{
    match b {
        Builtin::Equal | Builtin::Lt | Builtin::Lte | Builtin::Gt | Builtin::Gte => (
            compare_sem(b, args),
            env,
        ),
        Builtin::Add => (add_sem(args), env),
        Builtin::Sub => (sub_sem(args), env),
        Builtin::Mul => (mul_sem(args), env),
        Builtin::List => (list_sem(args), env),
        Builtin::Car => (car_sem(args), env),
        Builtin::Cdr => (cdr_sem(args), env),
        Builtin::Cons => (cons_sem(args), env),
        Builtin::Append => (append_sem(args), env),
        Builtin::Length => (length_sem(args), env),
        Builtin::Reverse => (reverse_sem(args), env),
        Builtin::Equalp => (equalp_sem(args), env),
        Builtin::Listp | Builtin::Nullp | Builtin::Procedurep | Builtin::Numberp | Builtin::Symbolp | Builtin::Pairp => (
            predicate_sem(b, args),
            env,
        ),
        Builtin::Apply => apply_builtin_sem(args, frame, env, depth),
        Builtin::Display => display_sem(args, env),
        Builtin::Load => load_sem(args, frame, env, depth),
        Builtin::Read => read_builtin_sem(args, frame, env, depth),
    }
}

/// `(apply proc obj... list)`: `proc` applied to the objects followed by the
/// items of the list.
pub open spec fn apply_builtin_sem(args: Seq<Sexp>, frame: nat, env: EnvModel, depth: nat) -> (
    Result<Sexp, EvalError>,
    EnvModel,
)
    decreases depth, 3nat, 0nat,
{
    if args.len() < 2 {
        (Err(EvalError::IncorrectArgumentCount), env)
    } else if depth == 0 {
        (Err(EvalError::TooDeep), env)
    } else {
        match args.last() {
            Sexp::List(rest) => apply_sem(
                args[0],
                args.subrange(1, args.len() - 1) + rest,
                frame,
                env,
                (depth - 1) as nat,
            ),
            _ => (Err(EvalError::ApplyExpectingList), env),
        }
    }
}

/// `(display value)`: writes the value on a line of its own.
pub open spec fn display_sem(args: Seq<Sexp>, env: EnvModel) -> (Result<Sexp, EvalError>, EnvModel) {
    if args.len() != 1 {
        (Err(EvalError::OutputPortsUnsupported), env)
    } else {
        (Ok(Sexp::Unspecified), emit(env, print_sexp(args[0])))
    }
}

/// The line that tells where reading failed.
pub open spec fn position_line(position: nat) -> Seq<char> {
    "pos: "@ + nat_digits(position)
}

/// The state after reporting a failure to read: its wording on one line and
/// its position on the next.
pub open spec fn report(env: EnvModel, e: ReadError) -> EnvModel {
    emit(emit(env, e.kind.text()), position_line(e.position as nat))
}

/// The items from `i` on evaluated in order, as `load` does it: a value is
/// dropped, a failure is written out and the next item is taken up. Only a
/// request to the host ends the run early.
pub open spec fn run_sem(items: Seq<Sexp>, i: int, frame: nat, env: EnvModel, depth: nat) -> (
    Result<Sexp, EvalError>,
    EnvModel,
)
    decreases depth, 11nat, items.len() - i,
{
    if i < 0 || i >= items.len() {
        (Ok(Sexp::Unspecified), env)
    } else {
        let (r, env1) = eval_sem(items[i], frame, env, depth);
        match r {
            Err(e) => if e.is_request() {
                (Err(e), env1)
            } else {
                run_sem(items, i + 1, frame, emit(env1, e.text()), depth)
            },
            Ok(_) => run_sem(items, i + 1, frame, env1, depth),
        }
    }
}

/// `(load path)`: reads the text that the host supplied for `path` and
/// evaluates what it spells in the frame of the call. A text that cannot be
/// read is reported and nothing of it is evaluated. Where the host has
/// supplied no text, the path is noted and the host is asked for it.
pub open spec fn load_sem(args: Seq<Sexp>, frame: nat, env: EnvModel, depth: nat) -> (
    Result<Sexp, EvalError>,
    EnvModel,
)
    decreases depth, 3nat, 0nat,
{
    if args.len() != 1 {
        (Err(EvalError::IncorrectArgumentCount), env)
    } else if depth == 0 {
        (Err(EvalError::TooDeep), env)
    } else {
        match args[0] {
            Sexp::Literal(Atom::String(path)) => match find_source(env.sources, path) {
                None => (Err(EvalError::SourceRequired), EnvModel { wanted: Some(path), ..env }),
                Some(text) => match read_sem(text) {
                    Ok(program) => run_sem(program, 0, frame, env, (depth - 1) as nat),
                    Err(e) => (Ok(Sexp::Unspecified), report(env, e)),
                },
            },
            _ => (Err(EvalError::LoadIncorrectType), env),
        }
    }
}

/// `(read)`: takes the next line that waits, reads it as one quoted datum
/// and yields that datum. Where no line waits the host is asked for one.
pub open spec fn read_builtin_sem(args: Seq<Sexp>, frame: nat, env: EnvModel, depth: nat) -> (
    Result<Sexp, EvalError>,
    EnvModel,
)
    decreases depth, 3nat, 0nat,
{
    if args.len() != 0 {
        (Err(EvalError::InputPortsUnsupported), env)
    } else if depth == 0 {
        (Err(EvalError::TooDeep), env)
    } else if env.input.len() == 0 {
        (Err(EvalError::InputRequired), env)
    } else {
        let env1 = EnvModel { input: env.input.drop_first(), ..env };
        match read_sem(seq!['\''] + env.input[0]) {
            Ok(program) => if program.len() == 0 {
                (Err(EvalError::ReadFailed), env1)
            } else {
                eval_sem(program[0], frame, env1, (depth - 1) as nat)
            },
            Err(e) => (Err(EvalError::ReadFailed), report(env1, e)),
        }
    }
}

/// One form evaluated as a whole, as the host has it done.
///
/// Where the evaluation ends in a request to the host, nothing of what it
/// did up to there is kept: the state is the state before, but for the path
/// that `load` asks for. The host supplies what is asked and has the form
/// evaluated anew. In every other case the result and the state are those of
/// `eval_sem`.
pub open spec fn evaluate_sem(e: Sexp, frame: nat, env: EnvModel, depth: nat) -> (
    Result<Sexp, EvalError>,
    EnvModel,
) {
    let (r, after) = eval_sem(e, frame, env, depth);
    match r {
        Err(err) => if err.is_request() {
            (
                r,
                match after.wanted {
                    Some(path) => EnvModel { wanted: Some(path), ..env },
                    None => env,
                },
            )
        } else {
            (r, after)
        },
        Ok(_) => (r, after),
    }
}

} // verus!
