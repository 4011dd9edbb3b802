//! The evaluator: special forms, calls, and the application of procedures.

use crate::ast::{copy_all, copy_expr, lemma_views, views, Expr, Sexp};
use crate::builtins::{call_builtin, copy_range, outcome};
use crate::env::Env;
use crate::error::EvalError;
use crate::semantics::{
    all_vars, apply_sem, args_sem, bind_all, bindings_sem, body_sem, call_sem, cond_sem,
    define_sem, eval_sem, evaluate_sem, form_sem, if_sem, keyword_of, lambda_sem, let_sem, param_names,
    quote_sem, set_sem, Keyword,
};
use vstd::prelude::*;

verus! {

/// The special form that `name` names in head position.
pub fn keyword(name: &String) -> (r: Option<Keyword>)
    ensures
        r == keyword_of(name@),
{
    let s = name.as_str();
    if *s == *"lambda" {
        Some(Keyword::Lambda)
    } else if *s == *"define" {
        Some(Keyword::Define)
    } else if *s == *"if" {
        Some(Keyword::If)
    } else if *s == *"quote" {
        Some(Keyword::Quote)
    } else if *s == *"set!" {
        Some(Keyword::Assign)
    } else if *s == *"begin" {
        Some(Keyword::Begin)
    } else if *s == *"let" {
        Some(Keyword::Let)
    } else if *s == *"cond" {
        Some(Keyword::Cond)
    } else {
        None
    }
}

/// Evaluates `program` in `frame`, nesting at most `depth` evaluations.
pub fn eval(program: &Expr, frame: usize, env: &mut Env, depth: usize) -> (r: Result<
    Expr,
    EvalError,
>)
    requires
        old(env).wf(),
    ensures
        final(env).wf(),
        final(env)@.frames.len() >= old(env)@.frames.len(),
        (outcome(r), final(env)@) == eval_sem(program@, frame as nat, old(env)@, depth as nat),
    decreases depth, 10nat,
{
    if depth == 0 {
        return Err(EvalError::TooDeep);
    }
    if !env.has_frame(frame) {
        return Err(EvalError::UnknownFrame);
    }
    match program {
        Expr::List(list) => {
            proof {
                lemma_views(list@);
            }
            if list.len() == 0 {
                let items: Vec<Expr> = Vec::new();
                proof {
                    assert(views(items@) =~= views(list@));
                }
                return Ok(Expr::List(items));
            }
            form(list, frame, env, depth)
        },
        Expr::Var(atom) => match env.get(frame, atom) {
            Some(val) => Ok(val),
            None => Err(EvalError::UndefinedVariable),
        },
        Expr::Literal(l) => Ok(Expr::Literal(l.clone())),
        _ => Err(EvalError::NotImplemented),
    }
}

/// Evaluates a non-empty list: a special form or a call.
fn form(list: &Vec<Expr>, frame: usize, env: &mut Env, depth: usize) -> (r: Result<
    Expr,
    EvalError,
>)
    requires
        old(env).wf(),
        list.len() > 0,
        depth > 0,
        frame < old(env)@.frames.len(),
    ensures
        final(env).wf(),
        final(env)@.frames.len() >= old(env)@.frames.len(),
        (outcome(r), final(env)@) == form_sem(
            views(list@),
            frame as nat,
            old(env)@,
            depth as nat,
        ),
    decreases depth, 9nat,
{
    proof {
        lemma_views(list@);
    }
    match &list[0] {
        Expr::Var(atom) => match keyword(atom) {
            Some(Keyword::Lambda) => lambda(list, frame, env),
            Some(Keyword::Define) => define(list, frame, env, depth),
            Some(Keyword::If) => ifexpr(list, frame, env, depth),
            Some(Keyword::Quote) => quote(list, env),
            Some(Keyword::Assign) => set(list, frame, env, depth),
            Some(Keyword::Begin) => begin(list, 1, frame, env, depth - 1),
            Some(Keyword::Let) => let_(list, frame, env, depth),
            Some(Keyword::Cond) => cond(list, frame, env, depth - 1),
            None => call(list, frame, env, depth),
        },
        Expr::List(_) => call(list, frame, env, depth),
        _ => Err(EvalError::NotApplicable),
    }
}

/// Evaluates the head and the operands of a call and applies the one to the
/// others.
fn call(list: &Vec<Expr>, frame: usize, env: &mut Env, depth: usize) -> (r: Result<
    Expr,
    EvalError,
>)
    requires
        old(env).wf(),
        list.len() > 0,
        depth > 0,
    ensures
        final(env).wf(),
        final(env)@.frames.len() >= old(env)@.frames.len(),
        (outcome(r), final(env)@) == call_sem(
            views(list@),
            frame as nat,
            old(env)@,
            depth as nat,
        ),
    decreases depth, 8nat,
{
    proof {
        lemma_views(list@);
    }
    let procedure = match eval(&list[0], frame, env, depth - 1) {
        Ok(p) => p,
        Err(e) => {
            return Err(e);
        },
    };
    let args = match arguments(list, 1, frame, env, depth - 1) {
        Ok(a) => a,
        Err(e) => {
            return Err(e);
        },
    };
    apply(&procedure, args, frame, env, depth)
}

/// Evaluates the items from `from` on, left to right.
fn arguments(list: &Vec<Expr>, from: usize, frame: usize, env: &mut Env, depth: usize) -> (r:
    Result<Vec<Expr>, EvalError>)
    requires
        old(env).wf(),
        from <= list.len(),
    ensures
        final(env).wf(),
        final(env)@.frames.len() >= old(env)@.frames.len(),
        match r {
            Ok(args) => (Ok::<Seq<Sexp>, EvalError>(views(args@)), final(env)@) == args_sem(
                views(list@),
                from as int,
                frame as nat,
                old(env)@,
                depth as nat,
                Seq::empty(),
            ),
            Err(e) => (Err::<Seq<Sexp>, EvalError>(e), final(env)@) == args_sem(
                views(list@),
                from as int,
                frame as nat,
                old(env)@,
                depth as nat,
                Seq::empty(),
            ),
        },
    decreases depth, 11nat,
{
    let ghost start = env@;
    let mut args: Vec<Expr> = Vec::new();
    let mut i: usize = from;
    proof {
        lemma_views(list@);
        assert(views(args@) =~= Seq::<Sexp>::empty());
    }
    while i < list.len()
        invariant
            env.wf(),
            from <= i <= list.len(),
            views(list@).len() == list.len(),
            start == old(env)@,
            env@.frames.len() >= start.frames.len(),
            args_sem(views(list@), from as int, frame as nat, start, depth as nat, Seq::empty())
                == args_sem(
                views(list@),
                i as int,
                frame as nat,
                env@,
                depth as nat,
                views(args@),
            ),
        decreases list.len() - i,
    {
        let ghost before = args@;
        match eval(&list[i], frame, env, depth) {
            Ok(v) => {
                args.push(v);
                proof {
                    assert(views(args@) =~= views(before).push(v@));
                }
            },
            Err(e) => {
                return Err(e);
            },
        }
        i += 1;
    }
    Ok(args)
}

/// Evaluates the items from `from` on in order and yields the value of the
/// last one.
fn begin(list: &Vec<Expr>, from: usize, frame: usize, env: &mut Env, depth: usize) -> (r: Result<
    Expr,
    EvalError,
>)
    requires
        old(env).wf(),
        from <= list.len(),
    ensures
        final(env).wf(),
        final(env)@.frames.len() >= old(env)@.frames.len(),
        (outcome(r), final(env)@) == body_sem(
            views(list@),
            from as int,
            frame as nat,
            old(env)@,
            depth as nat,
            Sexp::Unspecified,
        ),
    decreases depth, 11nat,
{
    let ghost start = env@;
    let mut result = Expr::Unspecified;
    let mut i: usize = from;
    proof {
        lemma_views(list@);
    }
    while i < list.len()
        invariant
            env.wf(),
            from <= i <= list.len(),
            views(list@).len() == list.len(),
            start == old(env)@,
            env@.frames.len() >= start.frames.len(),
            body_sem(
                views(list@),
                from as int,
                frame as nat,
                start,
                depth as nat,
                Sexp::Unspecified,
            ) == body_sem(views(list@), i as int, frame as nat, env@, depth as nat, result@),
        decreases list.len() - i,
    {
        match eval(&list[i], frame, env, depth) {
            Ok(v) => {
                result = v;
            },
            Err(e) => {
                return Err(e);
            },
        }
        i += 1;
    }
    Ok(result)
}

/// `(lambda (params...) body...)`.
fn lambda(list: &Vec<Expr>, frame: usize, env: &mut Env) -> (r: Result<Expr, EvalError>)
    requires
        old(env).wf(),
    ensures
        final(env).wf(),
        final(env)@.frames.len() == old(env)@.frames.len(),
        (outcome(r), final(env)@) == lambda_sem(views(list@), frame as nat, old(env)@),
{
    proof {
        lemma_views(list@);
    }
    if list.len() < 2 {
        return Err(EvalError::NotImplemented);
    }
    match &list[1] {
        Expr::List(args) => {
            let body = copy_range(list.as_slice(), 2, list.len());
            proof {
                assert(views(list@).subrange(2, list.len() as int) =~= views(list@).skip(2));
            }
            env.pin(frame);
            Ok(Expr::Lambda(copy_all(args), body, frame))
        },
        _ => Err(EvalError::NotImplemented),
    }
}

/// `(define name expr)` and `(define (name params...) body...)`.
fn define(list: &Vec<Expr>, frame: usize, env: &mut Env, depth: usize) -> (r: Result<
    Expr,
    EvalError,
>)
    requires
        old(env).wf(),
        depth > 0,
        frame < old(env)@.frames.len(),
    ensures
        final(env).wf(),
        final(env)@.frames.len() >= old(env)@.frames.len(),
        (outcome(r), final(env)@) == define_sem(
            views(list@),
            frame as nat,
            old(env)@,
            depth as nat,
        ),
    decreases depth, 8nat,
{
    proof {
        lemma_views(list@);
    }
    if list.len() < 3 {
        return Err(EvalError::InvalidDefine);
    }
    match &list[1] {
        Expr::List(vars) => {
            proof {
                lemma_views(vars@);
            }
            if vars.len() == 0 {
                return Err(EvalError::EmptyDefine);
            }
            match &vars[0] {
                Expr::Var(name) => {
                    let params = copy_range(vars.as_slice(), 1, vars.len());
                    let body = copy_range(list.as_slice(), 2, list.len());
                    proof {
                        assert(views(vars@).subrange(1, vars.len() as int) =~= views(vars@).skip(
                            1,
                        ));
                        assert(views(list@).subrange(2, list.len() as int) =~= views(list@).skip(
                            2,
                        ));
                    }
                    env.pin(frame);
                    env.insert(frame, name.clone(), Expr::Lambda(params, body, frame));
                    Ok(Expr::Unspecified)
                },
                _ => Err(EvalError::InvalidDefine),
            }
        },
        Expr::Var(atom) => {
            let val = match eval(&list[2], frame, env, depth - 1) {
                Ok(v) => v,
                Err(e) => {
                    return Err(e);
                },
            };
            if val.is_unspecified() {
                return Err(EvalError::UnspecifiedValue);
            }
            env.insert(frame, atom.clone(), val);
            Ok(Expr::Unspecified)
        },
        _ => Err(EvalError::InvalidDefine),
    }
}

/// `(if test conseq [alt])`.
fn ifexpr(list: &Vec<Expr>, frame: usize, env: &mut Env, depth: usize) -> (r: Result<
    Expr,
    EvalError,
>)
    requires
        old(env).wf(),
        depth > 0,
    ensures
        final(env).wf(),
        final(env)@.frames.len() >= old(env)@.frames.len(),
        (outcome(r), final(env)@) == if_sem(views(list@), frame as nat, old(env)@, depth as nat),
    decreases depth, 8nat,
{
    proof {
        lemma_views(list@);
    }
    if list.len() < 3 {
        return Err(EvalError::InvalidIf);
    }
    let test = match eval(&list[1], frame, env, depth - 1) {
        Ok(v) => v,
        Err(e) => {
            return Err(e);
        },
    };
    if test.is_true() {
        eval(&list[2], frame, env, depth - 1)
    } else if list.len() == 3 {
        Ok(Expr::Unspecified)
    } else {
        eval(&list[3], frame, env, depth - 1)
    }
}

/// `(quote datum)`.
fn quote(list: &Vec<Expr>, env: &mut Env) -> (r: Result<Expr, EvalError>)
    ensures
        *final(env) == *old(env),
        (outcome(r), final(env)@) == quote_sem(views(list@), old(env)@),
{
    proof {
        lemma_views(list@);
    }
    if list.len() != 2 {
        return Err(EvalError::InvalidQuote);
    }
    Ok(copy_expr(&list[1]))
}

/// `(set! name expr)`.
fn set(list: &Vec<Expr>, frame: usize, env: &mut Env, depth: usize) -> (r: Result<
    Expr,
    EvalError,
>)
    requires
        old(env).wf(),
        depth > 0,
    ensures
        final(env).wf(),
        final(env)@.frames.len() >= old(env)@.frames.len(),
        (outcome(r), final(env)@) == set_sem(views(list@), frame as nat, old(env)@, depth as nat),
    decreases depth, 8nat,
{
    proof {
        lemma_views(list@);
    }
    if list.len() != 3 {
        return Err(EvalError::InvalidSet);
    }
    match &list[1] {
        Expr::Var(atom) => {
            let val = match eval(&list[2], frame, env, depth - 1) {
                Ok(v) => v,
                Err(e) => {
                    return Err(e);
                },
            };
            match env.set(frame, atom.clone(), val) {
                Ok(()) => Ok(Expr::Unspecified),
                Err(_) => Err(EvalError::UnboundVariable),
            }
        },
        _ => Err(EvalError::SetTargetNotAtom),
    }
}

/// Binds `names` to `values`, pair by pair, in `frame`.
fn bind(env: &mut Env, frame: usize, names: &Vec<String>, values: &Vec<Expr>)
    requires
        old(env).wf(),
        frame < old(env)@.frames.len(),
        names.len() == values.len(),
    ensures
        final(env).wf(),
        final(env)@.frames.len() == old(env)@.frames.len(),
        final(env)@ == bind_all(
            old(env)@,
            frame as nat,
            crate::env::texts(names@),
            views(values@),
            names.len() as nat,
        ),
{
    let ghost start = env@;
    let mut k: usize = 0;
    while k < names.len()
        invariant
            env.wf(),
            k <= names.len(),
            names.len() == values.len(),
            frame < env@.frames.len(),
            env@.frames.len() == start.frames.len(),
            env@ == bind_all(
                start,
                frame as nat,
                crate::env::texts(names@),
                views(values@),
                k as nat,
            ),
        decreases names.len() - k,
    {
        env.insert(frame, names[k].clone(), copy_expr(&values[k]));
        k += 1;
    }
}

/// `(let ((name expr)...) body...)`.
fn let_(list: &Vec<Expr>, frame: usize, env: &mut Env, depth: usize) -> (r: Result<
    Expr,
    EvalError,
>)
    requires
        old(env).wf(),
        depth > 0,
        frame < old(env)@.frames.len(),
    ensures
        final(env).wf(),
        final(env)@.frames.len() >= old(env)@.frames.len(),
        (outcome(r), final(env)@) == let_sem(views(list@), frame as nat, old(env)@, depth as nat),
    decreases depth, 8nat,
{
    proof {
        lemma_views(list@);
    }
    if list.len() < 2 {
        return Err(EvalError::ExpectingDeclarations);
    }
    let decs = match &list[1] {
        Expr::List(decs) => decs,
        _ => {
            return Err(EvalError::ExpectingDeclarations);
        },
    };
    let ghost start = env@;
    let mut names: Vec<String> = Vec::new();
    let mut values: Vec<Expr> = Vec::new();
    let mut i: usize = 0;
    proof {
        lemma_views(decs@);
        assert(crate::env::texts(names@) =~= Seq::<Seq<char>>::empty());
        assert(views(values@) =~= Seq::<Sexp>::empty());
    }
    while i < decs.len()
        invariant
            env.wf(),
            i <= decs.len(),
            depth > 0,
            list.len() >= 2,
            views(list@).len() == list.len(),
            views(list@)[1] == Sexp::List(views(decs@)),
            views(decs@).len() == decs.len(),
            names.len() == values.len(),
            start == old(env)@,
            env@.frames.len() >= start.frames.len(),
            bindings_sem(
                views(decs@),
                0,
                frame as nat,
                start,
                (depth - 1) as nat,
                Seq::empty(),
                Seq::empty(),
            ) == bindings_sem(
                views(decs@),
                i as int,
                frame as nat,
                env@,
                (depth - 1) as nat,
                crate::env::texts(names@),
                views(values@),
            ),
        decreases decs.len() - i,
    {
        let dec = match &decs[i] {
            Expr::List(dec) => dec,
            _ => {
                return Err(EvalError::ExpectingPair);
            },
        };
        proof {
            lemma_views(dec@);
        }
        if dec.len() != 2 {
            return Err(EvalError::ExpectingPair);
        }
        let val = match eval(&dec[1], frame, env, depth - 1) {
            Ok(v) => v,
            Err(e) => {
                return Err(e);
            },
        };
        let name = match &dec[0] {
            Expr::Var(name) => name.clone(),
            _ => {
                return Err(EvalError::ExpectingAtom);
            },
        };
        let ghost names_before = names@;
        let ghost values_before = values@;
        names.push(name);
        values.push(val);
        proof {
            assert(crate::env::texts(names@) =~= crate::env::texts(names_before).push(name@));
            assert(views(values@) =~= views(values_before).push(val@));
        }
        i += 1;
    }
    let let_env = env.extend_env(frame);
    bind(env, let_env, &names, &values);
    let result = begin(list, 2, let_env, env, depth - 1);
    env.release(let_env);
    result
}

/// `(cond (test expr)... (else expr))`, from the first clause on.
fn cond(list: &Vec<Expr>, frame: usize, env: &mut Env, depth: usize) -> (r: Result<
    Expr,
    EvalError,
>)
    requires
        old(env).wf(),
        list.len() > 0,
    ensures
        final(env).wf(),
        final(env)@.frames.len() >= old(env)@.frames.len(),
        (outcome(r), final(env)@) == cond_sem(
            views(list@),
            1,
            frame as nat,
            old(env)@,
            depth as nat,
        ),
    decreases depth, 11nat,
{
    let ghost start = env@;
    let mut i: usize = 1;
    proof {
        lemma_views(list@);
    }
    while i < list.len()
        invariant
            env.wf(),
            1 <= i <= list.len(),
            views(list@).len() == list.len(),
            start == old(env)@,
            env@.frames.len() >= start.frames.len(),
            cond_sem(views(list@), 1, frame as nat, start, depth as nat) == cond_sem(
                views(list@),
                i as int,
                frame as nat,
                env@,
                depth as nat,
            ),
        decreases list.len() - i,
    {
        let clause = match &list[i] {
            Expr::List(clause) => clause,
            _ => {
                return Err(EvalError::ExpectingListInCond);
            },
        };
        proof {
            lemma_views(clause@);
        }
        if clause.len() != 2 {
            return Err(EvalError::InvalidCond);
        }
        let is_else = match &clause[0] {
            Expr::Var(name) => *name.as_str() == *"else",
            _ => false,
        };
        if is_else {
            return eval(&clause[1], frame, env, depth);
        }
        let test = match eval(&clause[0], frame, env, depth) {
            Ok(v) => v,
            Err(e) => {
                return Err(e);
            },
        };
        if test.is_true() {
            return eval(&clause[1], frame, env, depth);
        }
        i += 1;
    }
    Ok(Expr::Unspecified)
}

/// The names of a parameter list, where every parameter is an identifier.
fn parameter_names(params: &Vec<Expr>) -> (r: Option<Vec<String>>)
    ensures
        match r {
            Some(names) => all_vars(views(params@)) && crate::env::texts(names@) == param_names(
                views(params@),
            ),
            None => !all_vars(views(params@)),
        },
{
    let mut names: Vec<String> = Vec::new();
    let mut k: usize = 0;
    proof {
        lemma_views(params@);
    }
    while k < params.len()
        invariant
            k <= params.len(),
            names.len() == k,
            views(params@).len() == params.len(),
            forall|j: int| 0 <= j < k ==> #[trigger] views(params@)[j] is Var,
            forall|j: int| 0 <= j < k ==> (#[trigger] names@[j])@ == param_names(views(params@))[j],
        decreases params.len() - k,
    {
        match &params[k] {
            Expr::Var(name) => {
                names.push(name.clone());
            },
            _ => {
                proof {
                    assert(!(views(params@)[k as int] is Var));
                }
                return None;
            },
        }
        k += 1;
    }
    proof {
        assert(crate::env::texts(names@) =~= param_names(views(params@)));
    }
    Some(names)
}

/// Applies `procedure` to `args`; `frame` is the frame of the call.
pub fn apply(procedure: &Expr, args: Vec<Expr>, frame: usize, env: &mut Env, depth: usize) -> (r:
    Result<Expr, EvalError>)
    requires
        old(env).wf(),
    ensures
        final(env).wf(),
        final(env)@.frames.len() >= old(env)@.frames.len(),
        (outcome(r), final(env)@) == apply_sem(
            procedure@,
            views(args@),
            frame as nat,
            old(env)@,
            depth as nat,
        ),
    decreases depth, 5nat,
{
    if depth == 0 {
        return Err(EvalError::TooDeep);
    }
    match procedure {
        Expr::Lambda(parms, body, captured) => {
            proof {
                lemma_views(parms@);
                lemma_views(args@);
            }
            if parms.len() != args.len() {
                return Err(EvalError::WrongArgumentCount);
            }
            if !env.has_frame(*captured) {
                return Err(EvalError::UnknownFrame);
            }
            let names = match parameter_names(parms) {
                Some(names) => names,
                None => {
                    return Err(EvalError::InvalidParameter);
                },
            };
            proof {
                assert(names.len() == crate::env::texts(names@).len());
            }
            let proc_env = env.extend_env(*captured);
            bind(env, proc_env, &names, &args);
            let result = begin(body, 0, proc_env, env, depth - 1);
            env.release(proc_env);
            result
        },
        Expr::Builtin(builtin) => call_builtin(*builtin, &args, frame, env, depth),
        _ => Err(EvalError::UnableToApply),
    }
}

/// Evaluates one top-level form in `frame`, all of it or none of it.
///
/// Where the form needs a line of input or the text of a file that the host
/// has not supplied yet, the result is `InputRequired` or `SourceRequired`
/// and the state is left as it was, but for the path that is asked for. The
/// host then supplies what is missing and calls again.
pub fn evaluate(program: &Expr, frame: usize, env: &mut Env, depth: usize) -> (r: Result<
    Expr,
    EvalError,
>)
    requires
        old(env).wf(),
    ensures
        final(env).wf(),
        (outcome(r), final(env)@) == evaluate_sem(
            program@,
            frame as nat,
            old(env)@,
            depth as nat,
        ),
{
    let mut trial = env.clone();
    let r = eval(program, frame, &mut trial, depth);
    match r {
        Err(e) => {
            if e.needs_host() {
                match trial.wanted_source() {
                    Some(path) => {
                        env.want_source(path);
                    },
                    None => {},
                }
                Err(e)
            } else {
                *env = trial;
                Err(e)
            }
        },
        Ok(v) => {
            *env = trial;
            Ok(v)
        },
    }
}

} // verus!
