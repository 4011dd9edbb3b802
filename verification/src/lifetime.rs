//! The lifetime of frames: a frame is given up only when no closure can
//! refer to it.
//!
//! A closure pins the frame it captures, and with it all frames before it.
//! What is pinned is never given up. This module shows that every closure
//! that evaluation yields or stores has captured a pinned frame, so the frame
//! of a closure is there, unchanged in its place, for as long as the closure
//! is.

use crate::ast::{Atom, Builtin, Sexp, TokenModel, TokenType};
use crate::builtins::{
    append_from, append_sem, car_sem, cdr_sem, combine, compare_from, cons_sem, fold_from,
    integer_of, list_sem, number_of, reverse_sem,
};
use crate::env::{
    assign, binding_frame, define, emit, extend, find_source, lookup, pin, release, EnvModel,
};
use crate::error::EvalError;
use crate::lexer::lex_tokens;
use crate::parser::{
    at_end, holds, parse_all, parse_datum, parse_items, parse_quote, parse_simple,
};
use crate::reader::read_sem;
use crate::semantics::{
    apply_builtin_sem, apply_sem, args_sem, bind_all, bindings_sem, body_sem, builtin_sem,
    call_sem, cond_sem, define_sem, eval_sem, evaluate_sem, form_sem, if_sem, keyword_of,
    let_sem, load_sem, param_names, read_builtin_sem, run_sem, set_sem, Keyword,
};
use vstd::prelude::*;

verus! {

/// Whether every closure in a value has captured one of the first `limit`
/// frames.
pub open spec fn is_closed(v: Sexp, limit: nat) -> bool
    decreases v, 1nat,
{
    match v {
        Sexp::DottedPair(items, tail) => all_closed(items, limit) && is_closed(*tail, limit),
        Sexp::List(items) => all_closed(items, limit),
        Sexp::Lambda(params, body, captured) => captured < limit && all_closed(params, limit)
            && all_closed(body, limit),
        _ => true,
    }
}

/// Whether every closure in a run of values has captured one of the first
/// `limit` frames.
pub open spec fn all_closed(items: Seq<Sexp>, limit: nat) -> bool
    decreases items, 0nat,
{
    items.len() == 0 || (is_closed(items.last(), limit) && all_closed(items.drop_last(), limit))
}

/// Whether the pinned frames exist and every closure that a frame binds has
/// captured a pinned frame.
pub open spec fn sound_env(env: EnvModel) -> bool {
    &&& env.pinned <= env.frames.len()
    &&& forall|f: int, name: Seq<char>|
        0 <= f < env.frames.len() && env.frames[f].bindings.contains_key(name) ==> is_closed(
            #[trigger] env.frames[f].bindings[name],
            env.pinned,
        )
}

/// Whether evaluation has left things in order: the state after is sound,
/// pins no less and holds no fewer frames than the state `before`, the result
/// is not the failure to find a frame, and where it is a value it holds only
/// closures over pinned frames.
pub open spec fn sound_outcome(out: (Result<Sexp, EvalError>, EnvModel), before: EnvModel) -> bool {
    &&& sound_env(out.1)
    &&& out.1.pinned >= before.pinned
    &&& out.1.frames.len() >= before.frames.len()
    &&& out.0 != Err::<Sexp, EvalError>(EvalError::UnknownFrame)
    &&& (out.0 matches Ok(v) ==> is_closed(v, out.1.pinned))
}

/// What holds below a limit holds below every larger one.
pub proof fn lemma_closed_grows(v: Sexp, a: nat, b: nat)
    requires
        is_closed(v, a),
        a <= b,
    ensures
        is_closed(v, b),
    decreases v, 1nat,
{
    match v {
        Sexp::DottedPair(items, tail) => {
            lemma_all_closed_grows(items, a, b);
            lemma_closed_grows(*tail, a, b);
        },
        Sexp::List(items) => {
            lemma_all_closed_grows(items, a, b);
        },
        Sexp::Lambda(params, body, _) => {
            lemma_all_closed_grows(params, a, b);
            lemma_all_closed_grows(body, a, b);
        },
        _ => {},
    }
}

/// What holds of a run below a limit holds below every larger one.
pub proof fn lemma_all_closed_grows(items: Seq<Sexp>, a: nat, b: nat)
    requires
        all_closed(items, a),
        a <= b,
    ensures
        all_closed(items, b),
    decreases items, 0nat,
{
    if items.len() > 0 {
        lemma_closed_grows(items.last(), a, b);
        lemma_all_closed_grows(items.drop_last(), a, b);
    }
}

/// A run is closed exactly when each of its values is.
pub proof fn lemma_all_closed(items: Seq<Sexp>, limit: nat)
    ensures
        all_closed(items, limit) <==> forall|i: int|
            0 <= i < items.len() ==> is_closed(#[trigger] items[i], limit),
    decreases items.len(),
{
    if items.len() > 0 {
        lemma_all_closed(items.drop_last(), limit);
        if all_closed(items, limit) {
            assert forall|i: int| 0 <= i < items.len() implies is_closed(
                #[trigger] items[i],
                limit,
            ) by {
                if i < items.len() - 1 {
                    assert(items.drop_last()[i] == items[i]);
                }
            }
        }
        if forall|i: int| 0 <= i < items.len() ==> is_closed(#[trigger] items[i], limit) {
            assert forall|i: int| 0 <= i < items.len() - 1 implies is_closed(
                #[trigger] items.drop_last()[i],
                limit,
            ) by {
                assert(items.drop_last()[i] == items[i]);
            }
            assert(is_closed(items[items.len() - 1], limit));
        }
    }
}

proof fn lemma_all_closed_push(items: Seq<Sexp>, v: Sexp, limit: nat)
    ensures
        all_closed(items.push(v), limit) == (all_closed(items, limit) && is_closed(v, limit)),
{
    assert(items.push(v).drop_last() =~= items);
    assert(items.push(v).last() == v);
}

proof fn lemma_all_closed_concat(a: Seq<Sexp>, b: Seq<Sexp>, limit: nat)
    ensures
        all_closed(a + b, limit) == (all_closed(a, limit) && all_closed(b, limit)),
    decreases b.len(),
{
    if b.len() == 0 {
        assert(a + b =~= a);
    } else {
        lemma_all_closed_concat(a, b.drop_last(), limit);
        assert((a + b).drop_last() =~= a + b.drop_last());
        assert((a + b).last() == b.last());
    }
}

// What the operations on the state keep.

proof fn lemma_lookup_closed(env: EnvModel, frame: nat, name: Seq<char>)
    requires
        sound_env(env),
    ensures
        lookup(env, frame, name) matches Some(v) ==> is_closed(v, env.pinned),
    decreases frame,
{
    if frame < env.frames.len() {
        if env.frames[frame as int].bindings.contains_key(name) {
            assert(is_closed(env.frames[frame as int].bindings[name], env.pinned));
        } else {
            match env.frames[frame as int].parent {
                Some(p) => {
                    if p < frame {
                        lemma_lookup_closed(env, p, name);
                    }
                },
                None => {},
            }
        }
    }
}

proof fn lemma_define_sound(env: EnvModel, frame: nat, name: Seq<char>, value: Sexp)
    requires
        sound_env(env),
        is_closed(value, env.pinned),
    ensures
        sound_env(define(env, frame, name, value)),
        define(env, frame, name, value).pinned == env.pinned,
        define(env, frame, name, value).frames.len() == env.frames.len(),
{
    let after = define(env, frame, name, value);
    assert forall|f: int, n: Seq<char>|
        0 <= f < after.frames.len() && after.frames[f].bindings.contains_key(n) implies is_closed(
        #[trigger] after.frames[f].bindings[n],
        after.pinned,
    ) by {
        if f == frame && n == name {
        } else {
            assert(env.frames[f].bindings.contains_key(n));
            assert(after.frames[f].bindings[n] == env.frames[f].bindings[n]);
        }
    }
}

proof fn lemma_assign_sound(env: EnvModel, frame: nat, name: Seq<char>, value: Sexp)
    requires
        sound_env(env),
        is_closed(value, env.pinned),
    ensures
        assign(env, frame, name, value) matches Some(after) ==> sound_env(after) && after.pinned
            == env.pinned && after.frames.len() == env.frames.len(),
{
    match binding_frame(env, frame, name) {
        Some(f) => {
            lemma_define_sound(env, f, name, value);
        },
        None => {},
    }
}

proof fn lemma_extend_sound(env: EnvModel, parent: nat)
    requires
        sound_env(env),
    ensures
        sound_env(extend(env, parent)),
{
    let after = extend(env, parent);
    assert forall|f: int, n: Seq<char>|
        0 <= f < after.frames.len() && after.frames[f].bindings.contains_key(n) implies is_closed(
        #[trigger] after.frames[f].bindings[n],
        after.pinned,
    ) by {
        if f < env.frames.len() {
            assert(after.frames[f] == env.frames[f]);
            assert(is_closed(env.frames[f].bindings[n], env.pinned));
        }
    }
}

proof fn lemma_bind_all_sound(
    env: EnvModel,
    frame: nat,
    names: Seq<Seq<char>>,
    values: Seq<Sexp>,
    n: nat,
)
    requires
        sound_env(env),
        all_closed(values, env.pinned),
        n <= values.len(),
    ensures
        sound_env(bind_all(env, frame, names, values, n)),
        bind_all(env, frame, names, values, n).pinned == env.pinned,
        bind_all(env, frame, names, values, n).frames.len() == env.frames.len(),
    decreases n,
{
    if n > 0 {
        lemma_bind_all_sound(env, frame, names, values, (n - 1) as nat);
        lemma_all_closed(values, env.pinned);
        lemma_define_sound(
            bind_all(env, frame, names, values, (n - 1) as nat),
            frame,
            names[n - 1],
            values[n - 1],
        );
    }
}

proof fn lemma_pin_sound(env: EnvModel, frame: nat)
    requires
        sound_env(env),
    ensures
        sound_env(pin(env, frame)),
        pin(env, frame).pinned >= env.pinned,
        frame < env.frames.len() ==> frame < pin(env, frame).pinned,
{
    let after = pin(env, frame);
    assert forall|f: int, n: Seq<char>|
        0 <= f < after.frames.len() && after.frames[f].bindings.contains_key(n) implies is_closed(
        #[trigger] after.frames[f].bindings[n],
        after.pinned,
    ) by {
        assert(is_closed(env.frames[f].bindings[n], env.pinned));
        lemma_closed_grows(env.frames[f].bindings[n], env.pinned, after.pinned);
    }
}

proof fn lemma_release_sound(env: EnvModel, child: nat)
    requires
        sound_env(env),
    ensures
        sound_env(release(env, child)),
        release(env, child).pinned == env.pinned,
{
    let after = release(env, child);
    assert forall|f: int, n: Seq<char>|
        0 <= f < after.frames.len() && after.frames[f].bindings.contains_key(n) implies is_closed(
        #[trigger] after.frames[f].bindings[n],
        after.pinned,
    ) by {
        assert(after.frames[f] == env.frames[f]);
        assert(is_closed(env.frames[f].bindings[n], env.pinned));
    }
}

/// What is read holds no closure: a datum with its quote marks.
proof fn lemma_quote_closed(tokens: Seq<TokenModel>, pos: int)
    ensures
        parse_quote(tokens, pos).0 matches Ok(v) ==> is_closed(v, 0),
    decreases tokens.len() - pos, 3nat,
{
    if holds(tokens, pos, TokenType::Quote) {
        lemma_quote_closed(tokens, pos + 1);
        match parse_quote(tokens, pos + 1).0 {
            Ok(datum) => {
                let mark = Sexp::Var("quote"@);
                lemma_all_closed_push(Seq::empty(), mark, 0);
                lemma_all_closed_push(seq![mark], datum, 0);
                assert(Seq::<Sexp>::empty().push(mark) =~= seq![mark]);
                assert(seq![mark].push(datum) =~= seq![mark, datum]);
            },
            Err(_) => {},
        }
    } else {
        lemma_datum_closed(tokens, pos);
    }
}

/// What is read holds no closure: a literal, an identifier or a list.
proof fn lemma_datum_closed(tokens: Seq<TokenModel>, pos: int)
    ensures
        parse_datum(tokens, pos).0 matches Ok(v) ==> is_closed(v, 0),
    decreases tokens.len() - pos, 2nat,
{
    if parse_simple(tokens, pos) is None {
        if holds(tokens, pos, TokenType::LParen) {
            if holds(tokens, pos + 1, TokenType::RParen) {
                assert(all_closed(Seq::<Sexp>::empty(), 0));
            } else {
                lemma_items_closed(tokens, pos + 1, Seq::empty());
            }
        }
    }
}

/// What is read holds no closure: the items of a list and its dotted tail.
proof fn lemma_items_closed(tokens: Seq<TokenModel>, pos: int, acc: Seq<Sexp>)
    requires
        all_closed(acc, 0),
    ensures
        parse_items(tokens, pos, acc).0 matches Ok(v) ==> is_closed(v, 0),
    decreases tokens.len() - pos, 4nat,
{
    lemma_quote_closed(tokens, pos);
    let (r, next) = parse_quote(tokens, pos);
    match r {
        Ok(datum) => {
            lemma_all_closed_push(acc, datum, 0);
            if pos < next <= tokens.len() {
                if holds(tokens, next, TokenType::Dot) {
                    lemma_quote_closed(tokens, next + 1);
                    match parse_quote(tokens, next + 1).0 {
                        Ok(tail) => {
                            match tail {
                                Sexp::List(rest) => {
                                    lemma_all_closed_concat(acc.push(datum), rest, 0);
                                },
                                _ => {},
                            }
                        },
                        Err(_) => {},
                    }
                } else if holds(tokens, next, TokenType::RParen) {
                } else {
                    lemma_items_closed(tokens, next, acc.push(datum));
                }
            }
        },
        Err(_) => {},
    }
}

proof fn lemma_program_closed(tokens: Seq<TokenModel>, pos: int, acc: Seq<Sexp>)
    requires
        all_closed(acc, 0),
    ensures
        parse_all(tokens, pos, acc).0 matches Ok(program) ==> all_closed(program, 0),
    decreases tokens.len() - pos,
{
    if !at_end(tokens, pos) {
        lemma_quote_closed(tokens, pos);
        let (r, next) = parse_quote(tokens, pos);
        match r {
            Ok(datum) => {
                lemma_all_closed_push(acc, datum, 0);
                if pos < next <= tokens.len() {
                    lemma_program_closed(tokens, next, acc.push(datum));
                }
            },
            Err(_) => {},
        }
    }
}

/// What a text reads as holds no closure.
pub proof fn lemma_read_closed(text: Seq<char>)
    ensures
        read_sem(text) matches Ok(program) ==> all_closed(program, 0),
{
    lemma_program_closed(lex_tokens(text, 0, 1), 0, Seq::empty());
}

proof fn lemma_compare_closed(op: Builtin, first: Atom, args: Seq<Sexp>, i: int, limit: nat)
    ensures
        compare_from(op, first, args, i) matches Ok(v) ==> is_closed(v, limit),
        compare_from(op, first, args, i) != Err::<Sexp, EvalError>(EvalError::UnknownFrame),
    decreases args.len() - i,
{
    if 0 <= i < args.len() {
        lemma_compare_closed(op, first, args, i + 1, limit);
    }
}

proof fn lemma_fold_closed(op: Builtin, args: Seq<Sexp>, i: int, acc: int, limit: nat)
    ensures
        fold_from(op, args, i, acc) matches Ok(v) ==> is_closed(v, limit),
        fold_from(op, args, i, acc) != Err::<Sexp, EvalError>(EvalError::UnknownFrame),
    decreases args.len() - i,
{
    if 0 <= i < args.len() {
        match integer_of(args[i]) {
            Some(n) => {
                lemma_fold_closed(op, args, i + 1, combine(op, acc, n), limit);
            },
            None => {},
        }
    }
}

proof fn lemma_append_closed(args: Seq<Sexp>, i: int, acc: Seq<Sexp>, limit: nat)
    requires
        all_closed(args, limit),
        all_closed(acc, limit),
        0 <= i,
    ensures
        append_from(args, i, acc) matches Ok(v) ==> is_closed(v, limit),
        append_from(args, i, acc) != Err::<Sexp, EvalError>(EvalError::UnknownFrame),
    decreases args.len() - i,
{
    if i < args.len() {
        lemma_all_closed(args, limit);
        assert(is_closed(args[i], limit));
        match args[i] {
            Sexp::List(l) => {
                lemma_all_closed_concat(acc, l, limit);
                lemma_append_closed(args, i + 1, acc + l, limit);
            },
            _ => {},
        }
    }
}

proof fn lemma_list_procedures_closed(args: Seq<Sexp>, limit: nat)
    requires
        all_closed(args, limit),
    ensures
        list_sem(args) matches Ok(v) ==> is_closed(v, limit),
        car_sem(args) matches Ok(v) ==> is_closed(v, limit),
        cdr_sem(args) matches Ok(v) ==> is_closed(v, limit),
        cons_sem(args) matches Ok(v) ==> is_closed(v, limit),
        append_sem(args) matches Ok(v) ==> is_closed(v, limit),
        reverse_sem(args) matches Ok(v) ==> is_closed(v, limit),
        append_sem(args) != Err::<Sexp, EvalError>(EvalError::UnknownFrame),
{
    lemma_all_closed(args, limit);
    if args.len() >= 1 {
        assert(is_closed(args[0], limit));
        match args[0] {
            Sexp::List(l) => {
                lemma_all_closed(l, limit);
                lemma_all_closed(l.skip(1), limit);
                lemma_all_closed(l.reverse(), limit);
                if args.len() >= 2 {
                    lemma_append_closed(args, 1, l, limit);
                }
            },
            Sexp::DottedPair(l, r) => {
                lemma_all_closed(l, limit);
                lemma_all_closed(l.skip(1), limit);
            },
            _ => {},
        }
    }
    if args.len() == 2 {
        assert(is_closed(args[1], limit));
        lemma_all_closed_push(Seq::empty(), args[0], limit);
        assert(Seq::<Sexp>::empty().push(args[0]) =~= seq![args[0]]);
        match args[1] {
            Sexp::List(l) => {
                lemma_all_closed_concat(seq![args[0]], l, limit);
            },
            Sexp::DottedPair(l, end) => {
                lemma_all_closed_concat(seq![args[0]], l, limit);
            },
            _ => {},
        }
    }
}

/// Evaluation keeps the state sound: of a node whose closures are over
/// pinned frames, in a sound state and a frame that exists, it yields a
/// value whose closures are over pinned frames, in a sound state that pins
/// no less. Every closure it applies finds its frame: the failure to find a
/// frame does not arise.
pub proof fn lemma_eval_sound(e: Sexp, frame: nat, env: EnvModel, depth: nat)
    requires
        is_closed(e, env.pinned),
        sound_env(env),
        frame < env.frames.len(),
    ensures
        sound_outcome(eval_sem(e, frame, env, depth), env),
    decreases depth, 10nat, 0nat,
{
    if depth > 0 && frame < env.frames.len() {
        match e {
            Sexp::Var(name) => {
                lemma_lookup_closed(env, frame, name);
            },
            Sexp::List(items) => {
                if items.len() > 0 {
                    lemma_form_sound(items, frame, env, depth);
                }
            },
            _ => {},
        }
    }
}

// The steps of the induction, one for each function of the semantics.

proof fn lemma_form_sound(items: Seq<Sexp>, frame: nat, env: EnvModel, depth: nat)
    requires
        all_closed(items, env.pinned),
        sound_env(env),
        frame < env.frames.len(),
    ensures
        sound_outcome(form_sem(items, frame, env, depth), env),
    decreases depth, 9nat, 0nat,
{
    lemma_all_closed(items, env.pinned);
    if depth > 0 && items.len() > 0 {
        match items[0] {
            Sexp::Var(name) => match keyword_of(name) {
                Some(Keyword::Lambda) => {
                    if items.len() >= 2 {
                        assert(is_closed(items[1], env.pinned));
                        lemma_all_closed(items.skip(2), env.pinned);
                        lemma_pin_sound(env, frame);
                        match items[1] {
                            Sexp::List(params) => {
                                lemma_all_closed_grows(params, env.pinned, pin(env, frame).pinned);
                                lemma_all_closed_grows(
                                    items.skip(2),
                                    env.pinned,
                                    pin(env, frame).pinned,
                                );
                            },
                            _ => {},
                        }
                    }
                },
                Some(Keyword::Define) => {
                    lemma_define_form_sound(items, frame, env, depth);
                },
                Some(Keyword::If) => {
                    lemma_if_sound(items, frame, env, depth);
                },
                Some(Keyword::Quote) => {
                    if items.len() == 2 {
                        assert(is_closed(items[1], env.pinned));
                    }
                },
                Some(Keyword::Assign) => {
                    lemma_set_sound(items, frame, env, depth);
                },
                Some(Keyword::Begin) => {
                    lemma_body_sound(items, 1, frame, env, (depth - 1) as nat, Sexp::Unspecified);
                },
                Some(Keyword::Let) => {
                    lemma_let_sound(items, frame, env, depth);
                },
                Some(Keyword::Cond) => {
                    lemma_cond_sound(items, 1, frame, env, (depth - 1) as nat);
                },
                None => {
                    lemma_call_sound(items, frame, env, depth);
                },
            },
            Sexp::List(_) => {
                lemma_call_sound(items, frame, env, depth);
            },
            _ => {},
        }
    }
}

proof fn lemma_call_sound(items: Seq<Sexp>, frame: nat, env: EnvModel, depth: nat)
    requires
        all_closed(items, env.pinned),
        sound_env(env),
        frame < env.frames.len(),
    ensures
        sound_outcome(call_sem(items, frame, env, depth), env),
    decreases depth, 8nat, 0nat,
{
    lemma_all_closed(items, env.pinned);
    if depth > 0 && items.len() > 0 {
        lemma_eval_sound(items[0], frame, env, (depth - 1) as nat);
        let (head, env1) = eval_sem(items[0], frame, env, (depth - 1) as nat);
        match head {
            Ok(procedure) => {
                lemma_all_closed_grows(items, env.pinned, env1.pinned);
                assert(all_closed(Seq::<Sexp>::empty(), env1.pinned));
                lemma_args_sound(items, 1, frame, env1, (depth - 1) as nat, Seq::empty());
                let (operands, env2) = args_sem(
                    items,
                    1,
                    frame,
                    env1,
                    (depth - 1) as nat,
                    Seq::empty(),
                );
                match operands {
                    Ok(args) => {
                        lemma_closed_grows(procedure, env1.pinned, env2.pinned);
                        lemma_apply_sound(procedure, args, frame, env2, depth);
                    },
                    Err(_) => {},
                }
            },
            Err(_) => {},
        }
    }
}

proof fn lemma_args_sound(
    items: Seq<Sexp>,
    i: int,
    frame: nat,
    env: EnvModel,
    depth: nat,
    acc: Seq<Sexp>,
)
    requires
        all_closed(items, env.pinned),
        all_closed(acc, env.pinned),
        sound_env(env),
        frame < env.frames.len(),
    ensures
        sound_env(args_sem(items, i, frame, env, depth, acc).1),
        args_sem(items, i, frame, env, depth, acc).1.pinned >= env.pinned,
        args_sem(items, i, frame, env, depth, acc).1.frames.len() >= env.frames.len(),
        args_sem(items, i, frame, env, depth, acc).0 != Err::<Seq<Sexp>, EvalError>(
            EvalError::UnknownFrame,
        ),
        args_sem(items, i, frame, env, depth, acc).0 matches Ok(args) ==> all_closed(
            args,
            args_sem(items, i, frame, env, depth, acc).1.pinned,
        ),
    decreases depth, 11nat, items.len() - i,
{
    lemma_all_closed(items, env.pinned);
    if 0 <= i < items.len() {
        lemma_eval_sound(items[i], frame, env, depth);
        let (r, env1) = eval_sem(items[i], frame, env, depth);
        match r {
            Ok(v) => {
                lemma_all_closed_grows(items, env.pinned, env1.pinned);
                lemma_all_closed_grows(acc, env.pinned, env1.pinned);
                lemma_all_closed_push(acc, v, env1.pinned);
                lemma_args_sound(items, i + 1, frame, env1, depth, acc.push(v));
            },
            Err(_) => {},
        }
    }
}

proof fn lemma_body_sound(
    items: Seq<Sexp>,
    i: int,
    frame: nat,
    env: EnvModel,
    depth: nat,
    last: Sexp,
)
    requires
        all_closed(items, env.pinned),
        is_closed(last, env.pinned),
        sound_env(env),
        frame < env.frames.len(),
    ensures
        sound_outcome(body_sem(items, i, frame, env, depth, last), env),
    decreases depth, 11nat, items.len() - i,
{
    lemma_all_closed(items, env.pinned);
    if 0 <= i < items.len() {
        lemma_eval_sound(items[i], frame, env, depth);
        let (r, env1) = eval_sem(items[i], frame, env, depth);
        match r {
            Ok(v) => {
                lemma_all_closed_grows(items, env.pinned, env1.pinned);
                lemma_body_sound(items, i + 1, frame, env1, depth, v);
            },
            Err(_) => {},
        }
    }
}

proof fn lemma_define_form_sound(items: Seq<Sexp>, frame: nat, env: EnvModel, depth: nat)
    requires
        all_closed(items, env.pinned),
        sound_env(env),
        frame < env.frames.len(),
    ensures
        sound_outcome(define_sem(items, frame, env, depth), env),
    decreases depth, 8nat, 0nat,
{
    lemma_all_closed(items, env.pinned);
    if depth > 0 && items.len() >= 3 {
        assert(is_closed(items[1], env.pinned));
        match items[1] {
            Sexp::List(vars) => {
                if vars.len() > 0 {
                    lemma_all_closed(vars, env.pinned);
                    lemma_all_closed(vars.skip(1), env.pinned);
                    lemma_all_closed(items.skip(2), env.pinned);
                    match vars[0] {
                        Sexp::Var(name) => {
                            lemma_pin_sound(env, frame);
                            let pinned = pin(env, frame);
                            lemma_all_closed_grows(vars.skip(1), env.pinned, pinned.pinned);
                            lemma_all_closed_grows(items.skip(2), env.pinned, pinned.pinned);
                            lemma_define_sound(
                                pinned,
                                frame,
                                name,
                                Sexp::Lambda(vars.skip(1), items.skip(2), frame),
                            );
                        },
                        _ => {},
                    }
                }
            },
            Sexp::Var(name) => {
                lemma_eval_sound(items[2], frame, env, (depth - 1) as nat);
                let (r, env1) = eval_sem(items[2], frame, env, (depth - 1) as nat);
                match r {
                    Ok(v) => {
                        lemma_define_sound(env1, frame, name, v);
                    },
                    Err(_) => {},
                }
            },
            _ => {},
        }
    }
}

proof fn lemma_if_sound(items: Seq<Sexp>, frame: nat, env: EnvModel, depth: nat)
    requires
        all_closed(items, env.pinned),
        sound_env(env),
        frame < env.frames.len(),
    ensures
        sound_outcome(if_sem(items, frame, env, depth), env),
    decreases depth, 8nat, 0nat,
{
    lemma_all_closed(items, env.pinned);
    if depth > 0 && items.len() >= 3 {
        lemma_eval_sound(items[1], frame, env, (depth - 1) as nat);
        let (r, env1) = eval_sem(items[1], frame, env, (depth - 1) as nat);
        match r {
            Ok(_) => {
                lemma_all_closed_grows(items, env.pinned, env1.pinned);
                lemma_all_closed(items, env1.pinned);
                lemma_eval_sound(items[2], frame, env1, (depth - 1) as nat);
                if items.len() > 3 {
                    lemma_eval_sound(items[3], frame, env1, (depth - 1) as nat);
                }
            },
            Err(_) => {},
        }
    }
}

proof fn lemma_set_sound(items: Seq<Sexp>, frame: nat, env: EnvModel, depth: nat)
    requires
        all_closed(items, env.pinned),
        sound_env(env),
        frame < env.frames.len(),
    ensures
        sound_outcome(set_sem(items, frame, env, depth), env),
    decreases depth, 8nat, 0nat,
{
    lemma_all_closed(items, env.pinned);
    if depth > 0 && items.len() == 3 {
        match items[1] {
            Sexp::Var(name) => {
                lemma_eval_sound(items[2], frame, env, (depth - 1) as nat);
                let (r, env1) = eval_sem(items[2], frame, env, (depth - 1) as nat);
                match r {
                    Ok(v) => {
                        lemma_assign_sound(env1, frame, name, v);
                    },
                    Err(_) => {},
                }
            },
            _ => {},
        }
    }
}

proof fn lemma_bindings_sound(
    decs: Seq<Sexp>,
    i: int,
    frame: nat,
    env: EnvModel,
    depth: nat,
    names: Seq<Seq<char>>,
    values: Seq<Sexp>,
)
    requires
        all_closed(decs, env.pinned),
        all_closed(values, env.pinned),
        names.len() == values.len(),
        sound_env(env),
        frame < env.frames.len(),
    ensures
        sound_env(bindings_sem(decs, i, frame, env, depth, names, values).1),
        bindings_sem(decs, i, frame, env, depth, names, values).1.pinned >= env.pinned,
        bindings_sem(decs, i, frame, env, depth, names, values).1.frames.len()
            >= env.frames.len(),
        bindings_sem(decs, i, frame, env, depth, names, values).0 != Err::<
            (Seq<Seq<char>>, Seq<Sexp>),
            EvalError,
        >(EvalError::UnknownFrame),
        bindings_sem(decs, i, frame, env, depth, names, values).0 matches Ok(found)
            ==> all_closed(
            found.1,
            bindings_sem(decs, i, frame, env, depth, names, values).1.pinned,
        ) && found.0.len() == found.1.len(),
    decreases depth, 11nat, decs.len() - i,
{
    lemma_all_closed(decs, env.pinned);
    if 0 <= i < decs.len() {
        assert(is_closed(decs[i], env.pinned));
        match decs[i] {
            Sexp::List(dec) => {
                if dec.len() == 2 {
                    lemma_all_closed(dec, env.pinned);
                    lemma_eval_sound(dec[1], frame, env, depth);
                    let (r, env1) = eval_sem(dec[1], frame, env, depth);
                    match r {
                        Ok(v) => match dec[0] {
                            Sexp::Var(name) => {
                                lemma_all_closed_grows(decs, env.pinned, env1.pinned);
                                lemma_all_closed_grows(values, env.pinned, env1.pinned);
                                lemma_all_closed_push(values, v, env1.pinned);
                                lemma_bindings_sound(
                                    decs,
                                    i + 1,
                                    frame,
                                    env1,
                                    depth,
                                    names.push(name),
                                    values.push(v),
                                );
                            },
                            _ => {},
                        },
                        Err(_) => {},
                    }
                }
            },
            _ => {},
        }
    }
}

proof fn lemma_let_sound(items: Seq<Sexp>, frame: nat, env: EnvModel, depth: nat)
    requires
        all_closed(items, env.pinned),
        sound_env(env),
        frame < env.frames.len(),
    ensures
        sound_outcome(let_sem(items, frame, env, depth), env),
    decreases depth, 8nat, 0nat,
{
    lemma_all_closed(items, env.pinned);
    if depth > 0 && items.len() >= 2 {
        assert(is_closed(items[1], env.pinned));
        match items[1] {
            Sexp::List(decs) => {
                assert(all_closed(Seq::<Sexp>::empty(), env.pinned));
                lemma_bindings_sound(
                    decs,
                    0,
                    frame,
                    env,
                    (depth - 1) as nat,
                    Seq::empty(),
                    Seq::empty(),
                );
                let (r, env1) = bindings_sem(
                    decs,
                    0,
                    frame,
                    env,
                    (depth - 1) as nat,
                    Seq::empty(),
                    Seq::empty(),
                );
                match r {
                    Ok((names, values)) => {
                        let child = env1.frames.len();
                        lemma_extend_sound(env1, frame);
                        lemma_bind_all_sound(
                            extend(env1, frame),
                            child,
                            names,
                            values,
                            names.len(),
                        );
                        let env2 = bind_all(extend(env1, frame), child, names, values, names.len());
                        lemma_all_closed_grows(items, env.pinned, env2.pinned);
                        lemma_body_sound(
                            items,
                            2,
                            child,
                            env2,
                            (depth - 1) as nat,
                            Sexp::Unspecified,
                        );
                        let (value, env3) = body_sem(
                            items,
                            2,
                            child,
                            env2,
                            (depth - 1) as nat,
                            Sexp::Unspecified,
                        );
                        lemma_release_sound(env3, child);
                    },
                    Err(_) => {},
                }
            },
            _ => {},
        }
    }
}

proof fn lemma_cond_sound(items: Seq<Sexp>, i: int, frame: nat, env: EnvModel, depth: nat)
    requires
        all_closed(items, env.pinned),
        sound_env(env),
        frame < env.frames.len(),
    ensures
        sound_outcome(cond_sem(items, i, frame, env, depth), env),
    decreases depth, 11nat, items.len() - i,
{
    lemma_all_closed(items, env.pinned);
    if 0 <= i < items.len() {
        assert(is_closed(items[i], env.pinned));
        match items[i] {
            Sexp::List(clause) => {
                if clause.len() == 2 {
                    lemma_all_closed(clause, env.pinned);
                    lemma_eval_sound(clause[1], frame, env, depth);
                    lemma_eval_sound(clause[0], frame, env, depth);
                    let (r, env1) = eval_sem(clause[0], frame, env, depth);
                    match r {
                        Ok(_) => {
                            lemma_closed_grows(clause[1], env.pinned, env1.pinned);
                            lemma_all_closed_grows(items, env.pinned, env1.pinned);
                            lemma_eval_sound(clause[1], frame, env1, depth);
                            lemma_cond_sound(items, i + 1, frame, env1, depth);
                        },
                        Err(_) => {},
                    }
                }
            },
            _ => {},
        }
    }
}

/// Applying a procedure keeps the state sound.
pub proof fn lemma_apply_sound(
    procedure: Sexp,
    args: Seq<Sexp>,
    frame: nat,
    env: EnvModel,
    depth: nat,
)
    requires
        is_closed(procedure, env.pinned),
        all_closed(args, env.pinned),
        sound_env(env),
        frame < env.frames.len(),
    ensures
        sound_outcome(apply_sem(procedure, args, frame, env, depth), env),
    decreases depth, 5nat, 0nat,
{
    if depth > 0 {
        match procedure {
            Sexp::Lambda(params, body, captured) => {
                if params.len() == args.len() && captured < env.frames.len() {
                    let child = env.frames.len();
                    lemma_extend_sound(env, captured);
                    lemma_bind_all_sound(
                        extend(env, captured),
                        child,
                        param_names(params),
                        args,
                        params.len(),
                    );
                    let env1 = bind_all(
                        extend(env, captured),
                        child,
                        param_names(params),
                        args,
                        params.len(),
                    );
                    lemma_body_sound(body, 0, child, env1, (depth - 1) as nat, Sexp::Unspecified);
                    let (value, env2) = body_sem(
                        body,
                        0,
                        child,
                        env1,
                        (depth - 1) as nat,
                        Sexp::Unspecified,
                    );
                    lemma_release_sound(env2, child);
                }
            },
            Sexp::Builtin(b) => {
                lemma_builtin_sound(b, args, frame, env, depth);
            },
            _ => {},
        }
    }
}

proof fn lemma_builtin_sound(b: Builtin, args: Seq<Sexp>, frame: nat, env: EnvModel, depth: nat)
    requires
        all_closed(args, env.pinned),
        sound_env(env),
        frame < env.frames.len(),
    ensures
        sound_outcome(builtin_sem(b, args, frame, env, depth), env),
    decreases depth, 4nat, 0nat,
{
    lemma_list_procedures_closed(args, env.pinned);
    match b {
        Builtin::Equal | Builtin::Lt | Builtin::Lte | Builtin::Gt | Builtin::Gte => {
            if args.len() > 0 {
                match number_of(args[0]) {
                    Some(first) => {
                        lemma_compare_closed(b, first, args, 1, env.pinned);
                    },
                    None => {},
                }
            }
        },
        Builtin::Add => {
            lemma_fold_closed(Builtin::Add, args, 0, 0, env.pinned);
        },
        Builtin::Mul => {
            lemma_fold_closed(Builtin::Mul, args, 0, 1, env.pinned);
        },
        Builtin::Sub => {
            if args.len() > 1 {
                match integer_of(args[0]) {
                    Some(first) => {
                        lemma_fold_closed(Builtin::Sub, args, 1, first, env.pinned);
                    },
                    None => {},
                }
            }
        },
        Builtin::Apply => {
            lemma_apply_builtin_sound(args, frame, env, depth);
        },
        Builtin::Load => {
            lemma_load_sound(args, frame, env, depth);
        },
        Builtin::Read => {
            lemma_read_builtin_sound(args, frame, env, depth);
        },
        _ => {},
    }
}

proof fn lemma_apply_builtin_sound(args: Seq<Sexp>, frame: nat, env: EnvModel, depth: nat)
    requires
        all_closed(args, env.pinned),
        sound_env(env),
        frame < env.frames.len(),
    ensures
        sound_outcome(apply_builtin_sem(args, frame, env, depth), env),
    decreases depth, 3nat, 0nat,
{
    lemma_all_closed(args, env.pinned);
    if args.len() >= 2 && depth > 0 {
        assert(is_closed(args[args.len() - 1], env.pinned));
        assert(is_closed(args[0], env.pinned));
        match args.last() {
            Sexp::List(rest) => {
                lemma_all_closed(args.subrange(1, args.len() - 1), env.pinned);
                lemma_all_closed_concat(args.subrange(1, args.len() - 1), rest, env.pinned);
                lemma_apply_sound(
                    args[0],
                    args.subrange(1, args.len() - 1) + rest,
                    frame,
                    env,
                    (depth - 1) as nat,
                );
            },
            _ => {},
        }
    }
}

proof fn lemma_run_sound(items: Seq<Sexp>, i: int, frame: nat, env: EnvModel, depth: nat)
    requires
        all_closed(items, env.pinned),
        sound_env(env),
        frame < env.frames.len(),
    ensures
        sound_outcome(run_sem(items, i, frame, env, depth), env),
    decreases depth, 11nat, items.len() - i,
{
    lemma_all_closed(items, env.pinned);
    if 0 <= i < items.len() {
        lemma_eval_sound(items[i], frame, env, depth);
        let (r, env1) = eval_sem(items[i], frame, env, depth);
        lemma_all_closed_grows(items, env.pinned, env1.pinned);
        match r {
            Err(e) => {
                if !e.is_request() {
                    lemma_run_sound(items, i + 1, frame, emit(env1, e.text()), depth);
                }
            },
            Ok(_) => {
                lemma_run_sound(items, i + 1, frame, env1, depth);
            },
        }
    }
}

proof fn lemma_load_sound(args: Seq<Sexp>, frame: nat, env: EnvModel, depth: nat)
    requires
        all_closed(args, env.pinned),
        sound_env(env),
        frame < env.frames.len(),
    ensures
        sound_outcome(load_sem(args, frame, env, depth), env),
    decreases depth, 3nat, 0nat,
{
    if args.len() == 1 && depth > 0 {
        match args[0] {
            Sexp::Literal(Atom::String(path)) => {
                match find_source(env.sources, path) {
                    Some(text) => {
                        lemma_read_closed(text);
                        match read_sem(text) {
                            Ok(program) => {
                                lemma_all_closed_grows(program, 0, env.pinned);
                                lemma_run_sound(program, 0, frame, env, (depth - 1) as nat);
                            },
                            Err(_) => {},
                        }
                    },
                    None => {},
                }
            },
            _ => {},
        }
    }
}

proof fn lemma_read_builtin_sound(args: Seq<Sexp>, frame: nat, env: EnvModel, depth: nat)
    requires
        all_closed(args, env.pinned),
        sound_env(env),
        frame < env.frames.len(),
    ensures
        sound_outcome(read_builtin_sem(args, frame, env, depth), env),
    decreases depth, 3nat, 0nat,
{
    if args.len() == 0 && depth > 0 && env.input.len() > 0 {
        let env1 = EnvModel { input: env.input.drop_first(), ..env };
        let text = seq!['\''] + env.input[0];
        lemma_read_closed(text);
        match read_sem(text) {
            Ok(program) => {
                if program.len() > 0 {
                    lemma_all_closed_grows(program, 0, env.pinned);
                    lemma_all_closed(program, env.pinned);
                    lemma_eval_sound(program[0], frame, env1, (depth - 1) as nat);
                }
            },
            Err(_) => {},
        }
    }
}

/// A form that the host has evaluated as a whole keeps the state sound.
pub proof fn lemma_evaluate_sound(e: Sexp, frame: nat, env: EnvModel, depth: nat)
    requires
        is_closed(e, env.pinned),
        sound_env(env),
        frame < env.frames.len(),
    ensures
        sound_outcome(evaluate_sem(e, frame, env, depth), env),
{
    lemma_eval_sound(e, frame, env, depth);
}

/// At the start the state is sound.
pub proof fn lemma_initial_sound()
    ensures
        sound_env(crate::env::initial_env()),
{
    let env = crate::env::initial_env();
    assert forall|f: int, name: Seq<char>|
        0 <= f < env.frames.len() && env.frames[f].bindings.contains_key(name) implies is_closed(
        #[trigger] env.frames[f].bindings[name],
        env.pinned,
    ) by {
        crate::env::lemma_initial_procedures(name);
    }
}


/// The frame of a closure stays: in a sound state the frame that a stored
/// or yielded closure captured exists, and giving up frames neither removes
/// nor changes it.
pub proof fn lemma_captured_frame_stays(
    env: EnvModel,
    params: Seq<Sexp>,
    body: Seq<Sexp>,
    captured: nat,
    child: nat,
)
    requires
        sound_env(env),
        is_closed(Sexp::Lambda(params, body, captured), env.pinned),
    ensures
        captured < env.frames.len(),
        captured < release(env, child).frames.len(),
        release(env, child).frames[captured as int] == env.frames[captured as int],
{
}

} // verus!
