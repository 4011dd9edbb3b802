//! The normal form is kept: where the node and every value held in the state
//! are in normal form, so is every value that evaluation yields or stores.
//! A dotted pair that ends in a list never comes into being.

use crate::ast::{Atom, Builtin, Sexp};
use crate::builtins::{compare_from, fold_from};
use crate::env::{assign, binding_frame, define, emit, extend, lookup, EnvModel};
use crate::laws::lemma_list_procedures_keep_normal;
use crate::parser::{
    all_normal, is_normal, lemma_all_normal, lemma_all_normal_concat, lemma_all_normal_push,
};
use crate::reader::{lemma_read_normal, read_sem};
use crate::semantics::{
    apply_builtin_sem, apply_sem, args_sem, bind_all, bindings_sem, body_sem, builtin_sem,
    call_sem, cond_sem, define_sem, eval_sem, evaluate_sem, form_sem, if_sem, keyword_of, let_sem,
    load_sem, read_builtin_sem, run_sem, set_sem, Keyword,
};
use vstd::prelude::*;

verus! {

/// Whether every value that a frame of the state binds is in normal form.
pub open spec fn normal_env(env: EnvModel) -> bool {
    forall|f: int, name: Seq<char>|
        0 <= f < env.frames.len() && env.frames[f].bindings.contains_key(name) ==> is_normal(
            #[trigger] env.frames[f].bindings[name],
        )
}

/// Whether a result, where it is a value, is in normal form, and the state
/// with it.
pub open spec fn normal_outcome(out: (Result<Sexp, crate::error::EvalError>, EnvModel)) -> bool {
    &&& normal_env(out.1)
    &&& (out.0 matches Ok(v) ==> is_normal(v))
}

// What the operations on the state keep.

proof fn lemma_lookup_normal(env: EnvModel, frame: nat, name: Seq<char>)
    requires
        normal_env(env),
    ensures
        lookup(env, frame, name) matches Some(v) ==> is_normal(v),
    decreases frame,
{
    if frame < env.frames.len() {
        if env.frames[frame as int].bindings.contains_key(name) {
            assert(is_normal(env.frames[frame as int].bindings[name]));
        } else {
            match env.frames[frame as int].parent {
                Some(p) => {
                    if p < frame {
                        lemma_lookup_normal(env, p, name);
                    }
                },
                None => {},
            }
        }
    }
}

proof fn lemma_define_normal(env: EnvModel, frame: nat, name: Seq<char>, value: Sexp)
    requires
        normal_env(env),
        is_normal(value),
    ensures
        normal_env(define(env, frame, name, value)),
{
    let after = define(env, frame, name, value);
    assert forall|f: int, n: Seq<char>|
        0 <= f < after.frames.len() && after.frames[f].bindings.contains_key(n) implies is_normal(
        #[trigger] after.frames[f].bindings[n],
    ) by {
        if f == frame && n == name {
        } else {
            assert(env.frames[f].bindings.contains_key(n));
            assert(after.frames[f].bindings[n] == env.frames[f].bindings[n]);
        }
    }
}

proof fn lemma_assign_normal(env: EnvModel, frame: nat, name: Seq<char>, value: Sexp)
    requires
        normal_env(env),
        is_normal(value),
    ensures
        assign(env, frame, name, value) matches Some(after) ==> normal_env(after),
{
    match binding_frame(env, frame, name) {
        Some(f) => {
            lemma_define_normal(env, f, name, value);
        },
        None => {},
    }
}

proof fn lemma_extend_normal(env: EnvModel, parent: nat)
    requires
        normal_env(env),
    ensures
        normal_env(extend(env, parent)),
{
    let after = extend(env, parent);
    assert forall|f: int, n: Seq<char>|
        0 <= f < after.frames.len() && after.frames[f].bindings.contains_key(n) implies is_normal(
        #[trigger] after.frames[f].bindings[n],
    ) by {
        if f < env.frames.len() {
            assert(after.frames[f] == env.frames[f]);
            assert(is_normal(env.frames[f].bindings[n]));
        }
    }
}

proof fn lemma_bind_all_normal(
    env: EnvModel,
    frame: nat,
    names: Seq<Seq<char>>,
    values: Seq<Sexp>,
    n: nat,
)
    requires
        normal_env(env),
        all_normal(values),
        n <= values.len(),
    ensures
        normal_env(bind_all(env, frame, names, values, n)),
    decreases n,
{
    if n > 0 {
        lemma_bind_all_normal(env, frame, names, values, (n - 1) as nat);
        lemma_all_normal(values);
        lemma_define_normal(
            bind_all(env, frame, names, values, (n - 1) as nat),
            frame,
            names[n - 1],
            values[n - 1],
        );
    }
}

proof fn lemma_compare_normal(op: Builtin, first: Atom, args: Seq<Sexp>, i: int)
    ensures
        compare_from(op, first, args, i) matches Ok(v) ==> is_normal(v),
    decreases args.len() - i,
{
    if 0 <= i < args.len() {
        lemma_compare_normal(op, first, args, i + 1);
    }
}

proof fn lemma_fold_normal(op: Builtin, args: Seq<Sexp>, i: int, acc: int)
    ensures
        fold_from(op, args, i, acc) matches Ok(v) ==> is_normal(v),
    decreases args.len() - i,
{
    if 0 <= i < args.len() {
        match crate::builtins::integer_of(args[i]) {
            Some(n) => {
                lemma_fold_normal(op, args, i + 1, crate::builtins::combine(op, acc, n));
            },
            None => {},
        }
    }
}

/// Evaluation keeps the normal form.
pub proof fn lemma_eval_normal(e: Sexp, frame: nat, env: EnvModel, depth: nat)
    requires
        is_normal(e),
        normal_env(env),
    ensures
        normal_outcome(eval_sem(e, frame, env, depth)),
    decreases depth, 10nat, 0nat,
{
    if depth > 0 && frame < env.frames.len() {
        match e {
            Sexp::Var(name) => {
                lemma_lookup_normal(env, frame, name);
            },
            Sexp::List(items) => {
                if items.len() > 0 {
                    lemma_form_normal(items, frame, env, depth);
                }
            },
            _ => {},
        }
    }
}

// The steps of the induction, one for each function of the semantics.

proof fn lemma_form_normal(items: Seq<Sexp>, frame: nat, env: EnvModel, depth: nat)
    requires
        all_normal(items),
        normal_env(env),
    ensures
        normal_outcome(form_sem(items, frame, env, depth)),
    decreases depth, 9nat, 0nat,
{
    lemma_all_normal(items);
    if depth > 0 && items.len() > 0 {
        match items[0] {
            Sexp::Var(name) => match keyword_of(name) {
                Some(Keyword::Lambda) => {
                    if items.len() >= 2 {
                        assert(is_normal(items[1]));
                        lemma_all_normal(items.skip(2));
                    }
                },
                Some(Keyword::Define) => {
                    lemma_define_form_normal(items, frame, env, depth);
                },
                Some(Keyword::If) => {
                    lemma_if_normal(items, frame, env, depth);
                },
                Some(Keyword::Quote) => {
                    if items.len() == 2 {
                        assert(is_normal(items[1]));
                    }
                },
                Some(Keyword::Assign) => {
                    lemma_set_normal(items, frame, env, depth);
                },
                Some(Keyword::Begin) => {
                    lemma_body_normal(items, 1, frame, env, (depth - 1) as nat, Sexp::Unspecified);
                },
                Some(Keyword::Let) => {
                    lemma_let_normal(items, frame, env, depth);
                },
                Some(Keyword::Cond) => {
                    lemma_cond_normal(items, 1, frame, env, (depth - 1) as nat);
                },
                None => {
                    lemma_call_normal(items, frame, env, depth);
                },
            },
            Sexp::List(_) => {
                lemma_call_normal(items, frame, env, depth);
            },
            _ => {},
        }
    }
}

proof fn lemma_call_normal(items: Seq<Sexp>, frame: nat, env: EnvModel, depth: nat)
    requires
        all_normal(items),
        normal_env(env),
    ensures
        normal_outcome(call_sem(items, frame, env, depth)),
    decreases depth, 8nat, 0nat,
{
    lemma_all_normal(items);
    if depth > 0 && items.len() > 0 {
        lemma_eval_normal(items[0], frame, env, (depth - 1) as nat);
        let (head, env1) = eval_sem(items[0], frame, env, (depth - 1) as nat);
        match head {
            Ok(procedure) => {
                lemma_args_normal(items, 1, frame, env1, (depth - 1) as nat, Seq::empty());
                let (operands, env2) = args_sem(
                    items,
                    1,
                    frame,
                    env1,
                    (depth - 1) as nat,
                    Seq::empty(),
                );
                match operands {
                    Ok(args) => {
                        lemma_apply_normal(procedure, args, frame, env2, depth);
                    },
                    Err(_) => {},
                }
            },
            Err(_) => {},
        }
    }
}

proof fn lemma_args_normal(
    items: Seq<Sexp>,
    i: int,
    frame: nat,
    env: EnvModel,
    depth: nat,
    acc: Seq<Sexp>,
)
    requires
        all_normal(items),
        all_normal(acc),
        normal_env(env),
    ensures
        normal_env(args_sem(items, i, frame, env, depth, acc).1),
        args_sem(items, i, frame, env, depth, acc).0 matches Ok(args) ==> all_normal(args),
    decreases depth, 11nat, items.len() - i,
{
    lemma_all_normal(items);
    if 0 <= i < items.len() {
        lemma_eval_normal(items[i], frame, env, depth);
        let (r, env1) = eval_sem(items[i], frame, env, depth);
        match r {
            Ok(v) => {
                lemma_all_normal_push(acc, v);
                lemma_args_normal(items, i + 1, frame, env1, depth, acc.push(v));
            },
            Err(_) => {},
        }
    }
}

proof fn lemma_body_normal(
    items: Seq<Sexp>,
    i: int,
    frame: nat,
    env: EnvModel,
    depth: nat,
    last: Sexp,
)
    requires
        all_normal(items),
        is_normal(last),
        normal_env(env),
    ensures
        normal_outcome(body_sem(items, i, frame, env, depth, last)),
    decreases depth, 11nat, items.len() - i,
{
    lemma_all_normal(items);
    if 0 <= i < items.len() {
        lemma_eval_normal(items[i], frame, env, depth);
        let (r, env1) = eval_sem(items[i], frame, env, depth);
        match r {
            Ok(v) => {
                lemma_body_normal(items, i + 1, frame, env1, depth, v);
            },
            Err(_) => {},
        }
    }
}

proof fn lemma_define_form_normal(items: Seq<Sexp>, frame: nat, env: EnvModel, depth: nat)
    requires
        all_normal(items),
        normal_env(env),
    ensures
        normal_outcome(define_sem(items, frame, env, depth)),
    decreases depth, 8nat, 0nat,
{
    lemma_all_normal(items);
    if depth > 0 && items.len() >= 3 {
        assert(is_normal(items[1]));
        match items[1] {
            Sexp::List(vars) => {
                if vars.len() > 0 {
                    lemma_all_normal(vars);
                    lemma_all_normal(vars.skip(1));
                    lemma_all_normal(items.skip(2));
                    match vars[0] {
                        Sexp::Var(name) => {
                            lemma_define_normal(
                                env,
                                frame,
                                name,
                                Sexp::Lambda(vars.skip(1), items.skip(2), frame),
                            );
                        },
                        _ => {},
                    }
                }
            },
            Sexp::Var(name) => {
                lemma_eval_normal(items[2], frame, env, (depth - 1) as nat);
                let (r, env1) = eval_sem(items[2], frame, env, (depth - 1) as nat);
                match r {
                    Ok(v) => {
                        lemma_define_normal(env1, frame, name, v);
                    },
                    Err(_) => {},
                }
            },
            _ => {},
        }
    }
}

proof fn lemma_if_normal(items: Seq<Sexp>, frame: nat, env: EnvModel, depth: nat)
    requires
        all_normal(items),
        normal_env(env),
    ensures
        normal_outcome(if_sem(items, frame, env, depth)),
    decreases depth, 8nat, 0nat,
{
    lemma_all_normal(items);
    if depth > 0 && items.len() >= 3 {
        lemma_eval_normal(items[1], frame, env, (depth - 1) as nat);
        let (r, env1) = eval_sem(items[1], frame, env, (depth - 1) as nat);
        match r {
            Ok(_) => {
                lemma_eval_normal(items[2], frame, env1, (depth - 1) as nat);
                if items.len() > 3 {
                    lemma_eval_normal(items[3], frame, env1, (depth - 1) as nat);
                }
            },
            Err(_) => {},
        }
    }
}

proof fn lemma_set_normal(items: Seq<Sexp>, frame: nat, env: EnvModel, depth: nat)
    requires
        all_normal(items),
        normal_env(env),
    ensures
        normal_outcome(set_sem(items, frame, env, depth)),
    decreases depth, 8nat, 0nat,
{
    lemma_all_normal(items);
    if depth > 0 && items.len() == 3 {
        match items[1] {
            Sexp::Var(name) => {
                lemma_eval_normal(items[2], frame, env, (depth - 1) as nat);
                let (r, env1) = eval_sem(items[2], frame, env, (depth - 1) as nat);
                match r {
                    Ok(v) => {
                        lemma_assign_normal(env1, frame, name, v);
                    },
                    Err(_) => {},
                }
            },
            _ => {},
        }
    }
}

proof fn lemma_bindings_normal(
    decs: Seq<Sexp>,
    i: int,
    frame: nat,
    env: EnvModel,
    depth: nat,
    names: Seq<Seq<char>>,
    values: Seq<Sexp>,
)
    requires
        all_normal(decs),
        all_normal(values),
        names.len() == values.len(),
        normal_env(env),
    ensures
        normal_env(bindings_sem(decs, i, frame, env, depth, names, values).1),
        bindings_sem(decs, i, frame, env, depth, names, values).0 matches Ok(found)
            ==> all_normal(found.1) && found.0.len() == found.1.len(),
    decreases depth, 11nat, decs.len() - i,
{
    lemma_all_normal(decs);
    if 0 <= i < decs.len() {
        assert(is_normal(decs[i]));
        match decs[i] {
            Sexp::List(dec) => {
                if dec.len() == 2 {
                    lemma_all_normal(dec);
                    lemma_eval_normal(dec[1], frame, env, depth);
                    let (r, env1) = eval_sem(dec[1], frame, env, depth);
                    match r {
                        Ok(v) => match dec[0] {
                            Sexp::Var(name) => {
                                lemma_all_normal_push(values, v);
                                lemma_bindings_normal(
                                    decs,
                                    i + 1,
                                    frame,
                                    env1,
                                    depth,
                                    names.push(name),
                                    values.push(v),
                                );
                            },
                            _ => {},
                        },
                        Err(_) => {},
                    }
                }
            },
            _ => {},
        }
    }
}

proof fn lemma_let_normal(items: Seq<Sexp>, frame: nat, env: EnvModel, depth: nat)
    requires
        all_normal(items),
        normal_env(env),
    ensures
        normal_outcome(let_sem(items, frame, env, depth)),
    decreases depth, 8nat, 0nat,
{
    lemma_all_normal(items);
    if depth > 0 && items.len() >= 2 {
        assert(is_normal(items[1]));
        match items[1] {
            Sexp::List(decs) => {
                assert(all_normal(Seq::<Sexp>::empty()));
                lemma_bindings_normal(
                    decs,
                    0,
                    frame,
                    env,
                    (depth - 1) as nat,
                    Seq::empty(),
                    Seq::empty(),
                );
                let (r, env1) = bindings_sem(
                    decs,
                    0,
                    frame,
                    env,
                    (depth - 1) as nat,
                    Seq::empty(),
                    Seq::empty(),
                );
                match r {
                    Ok((names, values)) => {
                        let child = env1.frames.len();
                        lemma_extend_normal(env1, frame);
                        lemma_bind_all_normal(
                            extend(env1, frame),
                            child,
                            names,
                            values,
                            names.len(),
                        );
                        let env2 = bind_all(extend(env1, frame), child, names, values, names.len());
                        lemma_body_normal(
                            items,
                            2,
                            child,
                            env2,
                            (depth - 1) as nat,
                            Sexp::Unspecified,
                        );
                    },
                    Err(_) => {},
                }
            },
            _ => {},
        }
    }
}

proof fn lemma_cond_normal(items: Seq<Sexp>, i: int, frame: nat, env: EnvModel, depth: nat)
    requires
        all_normal(items),
        normal_env(env),
    ensures
        normal_outcome(cond_sem(items, i, frame, env, depth)),
    decreases depth, 11nat, items.len() - i,
{
    lemma_all_normal(items);
    if 0 <= i < items.len() {
        assert(is_normal(items[i]));
        match items[i] {
            Sexp::List(clause) => {
                if clause.len() == 2 {
                    lemma_all_normal(clause);
                    lemma_eval_normal(clause[1], frame, env, depth);
                    lemma_eval_normal(clause[0], frame, env, depth);
                    let (r, env1) = eval_sem(clause[0], frame, env, depth);
                    match r {
                        Ok(_) => {
                            lemma_eval_normal(clause[1], frame, env1, depth);
                            lemma_cond_normal(items, i + 1, frame, env1, depth);
                        },
                        Err(_) => {},
                    }
                }
            },
            _ => {},
        }
    }
}

/// Applying a procedure keeps the normal form.
pub proof fn lemma_apply_normal(
    procedure: Sexp,
    args: Seq<Sexp>,
    frame: nat,
    env: EnvModel,
    depth: nat,
)
    requires
        is_normal(procedure),
        all_normal(args),
        normal_env(env),
    ensures
        normal_outcome(apply_sem(procedure, args, frame, env, depth)),
    decreases depth, 5nat, 0nat,
{
    if depth > 0 {
        match procedure {
            Sexp::Lambda(params, body, captured) => {
                if params.len() == args.len() && captured < env.frames.len() {
                    let child = env.frames.len();
                    lemma_extend_normal(env, captured);
                    lemma_bind_all_normal(
                        extend(env, captured),
                        child,
                        crate::semantics::param_names(params),
                        args,
                        params.len(),
                    );
                    let env1 = bind_all(
                        extend(env, captured),
                        child,
                        crate::semantics::param_names(params),
                        args,
                        params.len(),
                    );
                    lemma_body_normal(body, 0, child, env1, (depth - 1) as nat, Sexp::Unspecified);
                }
            },
            Sexp::Builtin(b) => {
                lemma_builtin_normal(b, args, frame, env, depth);
            },
            _ => {},
        }
    }
}

proof fn lemma_builtin_normal(b: Builtin, args: Seq<Sexp>, frame: nat, env: EnvModel, depth: nat)
    requires
        all_normal(args),
        normal_env(env),
    ensures
        normal_outcome(builtin_sem(b, args, frame, env, depth)),
    decreases depth, 4nat, 0nat,
{
    lemma_list_procedures_keep_normal(args);
    match b {
        Builtin::Equal | Builtin::Lt | Builtin::Lte | Builtin::Gt | Builtin::Gte => {
            if args.len() > 0 {
                match crate::builtins::number_of(args[0]) {
                    Some(first) => {
                        lemma_compare_normal(b, first, args, 1);
                    },
                    None => {},
                }
            }
        },
        Builtin::Add => {
            lemma_fold_normal(Builtin::Add, args, 0, 0);
        },
        Builtin::Mul => {
            lemma_fold_normal(Builtin::Mul, args, 0, 1);
        },
        Builtin::Sub => {
            if args.len() > 1 {
                match crate::builtins::integer_of(args[0]) {
                    Some(first) => {
                        lemma_fold_normal(Builtin::Sub, args, 1, first);
                    },
                    None => {},
                }
            }
        },
        Builtin::Apply => {
            lemma_apply_builtin_normal(args, frame, env, depth);
        },
        Builtin::Load => {
            lemma_load_normal(args, frame, env, depth);
        },
        Builtin::Read => {
            lemma_read_builtin_normal(args, frame, env, depth);
        },
        _ => {},
    }
}

proof fn lemma_apply_builtin_normal(args: Seq<Sexp>, frame: nat, env: EnvModel, depth: nat)
    requires
        all_normal(args),
        normal_env(env),
    ensures
        normal_outcome(apply_builtin_sem(args, frame, env, depth)),
    decreases depth, 3nat, 0nat,
{
    lemma_all_normal(args);
    if args.len() >= 2 && depth > 0 {
        assert(is_normal(args[args.len() - 1]));
        assert(is_normal(args[0]));
        match args.last() {
            Sexp::List(rest) => {
                lemma_all_normal(args.subrange(1, args.len() - 1));
                lemma_all_normal_concat(args.subrange(1, args.len() - 1), rest);
                lemma_apply_normal(
                    args[0],
                    args.subrange(1, args.len() - 1) + rest,
                    frame,
                    env,
                    (depth - 1) as nat,
                );
            },
            _ => {},
        }
    }
}

proof fn lemma_run_normal(items: Seq<Sexp>, i: int, frame: nat, env: EnvModel, depth: nat)
    requires
        all_normal(items),
        normal_env(env),
    ensures
        normal_outcome(run_sem(items, i, frame, env, depth)),
    decreases depth, 11nat, items.len() - i,
{
    lemma_all_normal(items);
    if 0 <= i < items.len() {
        lemma_eval_normal(items[i], frame, env, depth);
        let (r, env1) = eval_sem(items[i], frame, env, depth);
        match r {
            Err(e) => {
                if !e.is_request() {
                    lemma_run_normal(items, i + 1, frame, emit(env1, e.text()), depth);
                }
            },
            Ok(_) => {
                lemma_run_normal(items, i + 1, frame, env1, depth);
            },
        }
    }
}

proof fn lemma_load_normal(args: Seq<Sexp>, frame: nat, env: EnvModel, depth: nat)
    requires
        all_normal(args),
        normal_env(env),
    ensures
        normal_outcome(load_sem(args, frame, env, depth)),
    decreases depth, 3nat, 0nat,
{
    if args.len() == 1 && depth > 0 {
        match args[0] {
            Sexp::Literal(Atom::String(path)) => {
                match crate::env::find_source(env.sources, path) {
                    Some(text) => {
                        lemma_read_normal(text);
                        match read_sem(text) {
                            Ok(program) => {
                                lemma_run_normal(program, 0, frame, env, (depth - 1) as nat);
                            },
                            Err(_) => {},
                        }
                    },
                    None => {},
                }
            },
            _ => {},
        }
    }
}

proof fn lemma_read_builtin_normal(args: Seq<Sexp>, frame: nat, env: EnvModel, depth: nat)
    requires
        all_normal(args),
        normal_env(env),
    ensures
        normal_outcome(read_builtin_sem(args, frame, env, depth)),
    decreases depth, 3nat, 0nat,
{
    if args.len() == 0 && depth > 0 && env.input.len() > 0 {
        let env1 = EnvModel { input: env.input.drop_first(), ..env };
        let text = seq!['\''] + env.input[0];
        lemma_read_normal(text);
        match read_sem(text) {
            Ok(program) => {
                if program.len() > 0 {
                    lemma_all_normal(program);
                    lemma_eval_normal(program[0], frame, env1, (depth - 1) as nat);
                }
            },
            Err(_) => {},
        }
    }
}

/// A form that the host has evaluated as a whole keeps the normal form.
pub proof fn lemma_evaluate_normal(e: Sexp, frame: nat, env: EnvModel, depth: nat)
    requires
        is_normal(e),
        normal_env(env),
    ensures
        normal_outcome(evaluate_sem(e, frame, env, depth)),
{
    lemma_eval_normal(e, frame, env, depth);
}

/// At the start every value that the state holds is in normal form.
pub proof fn lemma_initial_normal()
    ensures
        normal_env(crate::env::initial_env()),
{
    let env = crate::env::initial_env();
    assert forall|f: int, name: Seq<char>|
        0 <= f < env.frames.len() && env.frames[f].bindings.contains_key(name) implies is_normal(
        #[trigger] env.frames[f].bindings[name],
    ) by {
        crate::env::lemma_initial_procedures(name);
    }
}


} // verus!
