//! What holds of reading, writing and evaluating, whatever the input.

use crate::ast::{all_sexp_equal, is_truthy, sexp_equal, Atom, Builtin, Sexp, TokenModel, TokenType};
use crate::builtins::{
    append_from, append_sem, car_sem, cdr_sem, combine, compare_from, cons_sem, fits, fold_from,
    integer_of, list_sem, number, number_of, order_numbers, relation_holds, reverse_sem, truth,
};
use crate::parser::{
    all_normal, is_normal, lemma_all_normal, lemma_all_normal_concat, lemma_all_normal_push,
};
use crate::decimal::{is_canonical, lemma_decimal_round_trip};
use crate::env::{assign, binding_frame, define, extend, lookup, EnvModel};
use crate::error::EvalError;
use crate::lexer::{
    end_token, lex_errors, lex_one, lex_tokens, number_value, string_end, Lexed,
};
use crate::parser::{parse_all, parse_datum, parse_quote, parse_simple};
use crate::print::print_atom;
use crate::reader::read_sem;
use crate::semantics::{
    apply_sem, args_sem, bindings_sem, call_sem, cond_sem, eval_sem, if_sem,
};
use crate::text::{is_digit_char, lemma_digits_end, lemma_nat_digits_value, nat_digits};
use vstd::prelude::*;

verus! {

/// The literals whose written form reads back: an integer that is not
/// negative, a canonical decimal, a boolean, and a string that holds neither
/// a double quote nor a line break.
pub open spec fn reads_back(a: Atom) -> bool {
    match a {
        Atom::Number(n) => 0 <= n <= i32::MAX,
        Atom::Float(d) => is_canonical(d),
        Atom::Bool(_) => true,
        Atom::String(s) => forall|i: int| 0 <= i < s.len() ==> s[i] != '"' && s[i] != '\n',
    }
}

/// A text that is one token from its first character to its last reads as
/// that token and the end marker, without a failure.
proof fn lemma_one_token(text: Seq<char>, t: TokenModel)
    requires
        text.len() > 0,
        lex_one(text, 0, 1) == (Lexed {
            next: text.len() as int,
            line: 1,
            token: Some(t),
            error: None,
        }),
    ensures
        lex_tokens(text, 0, 1) == seq![t, end_token(1)],
        lex_errors(text, 0, 1) == Seq::<crate::lexer::LexErrorModel>::empty(),
{
    assert(lex_tokens(text, text.len() as int, 1) == seq![end_token(1)]);
    assert(lex_errors(text, text.len() as int, 1) == Seq::<crate::lexer::LexErrorModel>::empty());
    assert(lex_tokens(text, 0, 1) =~= seq![t, end_token(1)]);
    assert(lex_errors(text, 0, 1) =~= Seq::<crate::lexer::LexErrorModel>::empty());
}

/// A literal token and the end marker read as that literal.
proof fn lemma_one_literal(t: TokenModel, a: Atom)
    requires
        t.ttype == TokenType::Number || t.ttype == TokenType::Float || t.ttype == TokenType::Bool
            || t.ttype == TokenType::String,
        t.literal == Some(a),
    ensures
        parse_all(seq![t, end_token(1)], 0, Seq::empty()) == (
            Ok::<Seq<Sexp>, crate::error::ReadErrorKind>(seq![Sexp::Literal(a)]),
            1int,
        ),
{
    let tokens = seq![t, end_token(1)];
    assert(tokens[0] == t);
    assert(tokens[1] == end_token(1));
    assert(parse_simple(tokens, 0) == Some(
        (Ok::<Sexp, crate::error::ReadErrorKind>(Sexp::Literal(a)), 1int),
    ));
    assert(parse_datum(tokens, 0) == (
        Ok::<Sexp, crate::error::ReadErrorKind>(Sexp::Literal(a)),
        1int,
    ));
    assert(parse_quote(tokens, 0) == (
        Ok::<Sexp, crate::error::ReadErrorKind>(Sexp::Literal(a)),
        1int,
    ));
    assert(Seq::<Sexp>::empty().push(Sexp::Literal(a)) =~= seq![Sexp::Literal(a)]);
    assert(parse_all(tokens, 1, seq![Sexp::Literal(a)]) == (
        Ok::<Seq<Sexp>, crate::error::ReadErrorKind>(seq![Sexp::Literal(a)]),
        1int,
    ));
}

/// The text of a string without double quote and line break ends where the
/// closing quote stands.
proof fn lemma_string_end_at(s: Seq<char>, from: int, to: int)
    requires
        0 <= from <= to <= s.len(),
        forall|i: int| from <= i < to ==> s[i] != '"' && s[i] != '\n',
        to < s.len() ==> s[to] == '"' || s[to] == '\n',
    ensures
        string_end(s, from) == to,
    decreases to - from,
{
    if from < to {
        lemma_string_end_at(s, from + 1, to);
    }
}

/// Round trip: the written form of a literal reads as that literal and
/// nothing else, the literal evaluates to itself in any frame, and it is
/// structurally equal to itself.
///
/// This holds of the literals that `reads_back` admits. A negative integer is
/// written with a minus sign in front and so reads as an identifier, and a
/// string that holds a double quote or a line break is cut short when read.
pub proof fn lemma_literal_round_trip(a: Atom, frame: nat, env: EnvModel, depth: nat)
    requires
        reads_back(a),
        depth > 0,
        frame < env.frames.len(),
    ensures
        read_sem(print_atom(a)) == Ok::<Seq<Sexp>, crate::reader::ReadError>(
            seq![Sexp::Literal(a)],
        ),
        eval_sem(Sexp::Literal(a), frame, env, depth) == (
            Ok::<Sexp, EvalError>(Sexp::Literal(a)),
            env,
        ),
        sexp_equal(Sexp::Literal(a), Sexp::Literal(a)),
{
    let text = print_atom(a);
    match a {
        Atom::Number(n) => {
            lemma_nat_digits_value(n as nat);
            assert(text == nat_digits(n as nat));
            lemma_digits_end(text, 0, text.len() as int);
            assert(text.subrange(0, text.len() as int) =~= text);
            assert(number_value(text) == n);
            let t = TokenModel {
                ttype: TokenType::Number,
                lexeme: text,
                line: 1,
                literal: Some(a),
            };
            assert(is_digit_char(text[0]));
            lemma_one_token(text, t);
            lemma_one_literal(t, a);
        },
        Atom::Float(d) => {
            lemma_decimal_round_trip(d);
            let w = if d.whole.len() == 0 {
                seq!['0']
            } else {
                d.whole
            };
            let f = if d.frac.len() == 0 {
                seq!['0']
            } else {
                d.frac
            };
            let dot = w.len() as int;
            assert(text =~= w + seq!['.'] + f);
            assert forall|i: int| 0 <= i < dot implies is_digit_char(#[trigger] text[i]) by {
                assert(text[i] == w[i]);
            }
            assert(text[dot] == '.');
            lemma_digits_end(text, 0, dot);
            assert forall|i: int| dot + 1 <= i < text.len() implies is_digit_char(
                #[trigger] text[i],
            ) by {
                assert(text[i] == f[i - dot - 1]);
            }
            lemma_digits_end(text, dot + 1, text.len() as int);
            assert(text.subrange(0, text.len() as int) =~= text);
            let t = TokenModel {
                ttype: TokenType::Float,
                lexeme: text,
                line: 1,
                literal: Some(a),
            };
            assert(is_digit_char(text[0]));
            lemma_one_token(text, t);
            lemma_one_literal(t, a);
        },
        Atom::Bool(b) => {
            assert(text.len() == 2);
            assert(text[0] == '#');
            assert(text.subrange(0, 2) =~= text);
            let t = TokenModel {
                ttype: TokenType::Bool,
                lexeme: text,
                line: 1,
                literal: Some(a),
            };
            lemma_one_token(text, t);
            lemma_one_literal(t, a);
        },
        Atom::String(s) => {
            let end: int = s.len() as int + 1;
            assert(text =~= seq!['"'] + s + seq!['"']);
            assert(text.len() == s.len() + 2);
            assert(text[0] == '"');
            assert(text[end] == '"');
            assert forall|i: int| 1 <= i < end implies text[i] != '"' && text[i] != '\n' by {
                assert(text[i] == s[i - 1]);
            }
            lemma_string_end_at(text, 1, end);
            assert(text.subrange(1, end) =~= s);
            assert(text.subrange(0, end + 1) =~= text);
            let t = TokenModel {
                ttype: TokenType::String,
                lexeme: text,
                line: 1,
                literal: Some(a),
            };
            lemma_one_token(text, t);
            lemma_one_literal(t, a);
        },
    }
}

/// Truthiness: in `(if test conseq alt)` every value of the test but the
/// boolean false selects the consequent. So do zero, the empty list and the
/// empty string.
pub proof fn lemma_if_truthiness(items: Seq<Sexp>, frame: nat, env: EnvModel, depth: nat)
    requires
        depth > 0,
        items.len() >= 3,
        eval_sem(items[1], frame, env, (depth - 1) as nat).0 is Ok,
    ensures
        ({
            let (test, env1) = eval_sem(items[1], frame, env, (depth - 1) as nat);
            let conseq = eval_sem(items[2], frame, env1, (depth - 1) as nat);
            let alt = if items.len() == 3 {
                (Ok::<Sexp, EvalError>(Sexp::Unspecified), env1)
            } else {
                eval_sem(items[3], frame, env1, (depth - 1) as nat)
            };
            if_sem(items, frame, env, depth) == (if test == Ok::<Sexp, EvalError>(
                Sexp::Literal(Atom::Bool(false)),
            ) {
                alt
            } else {
                conseq
            })
        }),
        is_truthy(Sexp::Literal(Atom::Number(0))),
        is_truthy(Sexp::List(Seq::empty())),
        is_truthy(Sexp::Literal(Atom::String(Seq::empty()))),
        is_truthy(Sexp::Literal(Atom::Bool(true))),
        !is_truthy(Sexp::Literal(Atom::Bool(false))),
{
}

/// Truthiness: a clause of `cond` whose test has any value but the boolean
/// false is the clause that is taken.
pub proof fn lemma_cond_truthiness(
    items: Seq<Sexp>,
    i: int,
    frame: nat,
    env: EnvModel,
    depth: nat,
    test: Sexp,
    expr: Sexp,
)
    requires
        0 <= i < items.len(),
        items[i] == Sexp::List(seq![test, expr]),
        test != Sexp::Var("else"@),
        eval_sem(test, frame, env, depth).0 is Ok,
    ensures
        ({
            let (value, env1) = eval_sem(test, frame, env, depth);
            cond_sem(items, i, frame, env, depth) == (if value == Ok::<Sexp, EvalError>(
                Sexp::Literal(Atom::Bool(false)),
            ) {
                cond_sem(items, i + 1, frame, env1, depth)
            } else {
                eval_sem(expr, frame, env1, depth)
            })
        }),
{
    let clause = seq![test, expr];
    assert(clause.len() == 2);
    assert(clause[0] == test);
    assert(clause[1] == expr);
}

/// A binding is found in the frame it was made in.
pub proof fn lemma_define_then_lookup(env: EnvModel, frame: nat, name: Seq<char>, value: Sexp)
    requires
        frame < env.frames.len(),
    ensures
        lookup(define(env, frame, name, value), frame, name) == Some(value),
{
}

/// Binding a name changes no other frame and no other name of the frame.
pub proof fn lemma_define_is_local(
    env: EnvModel,
    frame: nat,
    name: Seq<char>,
    value: Sexp,
    other: nat,
    other_name: Seq<char>,
)
    requires
        frame < env.frames.len(),
        other < env.frames.len(),
    ensures
        define(env, frame, name, value).frames.len() == env.frames.len(),
        other != frame ==> define(env, frame, name, value).frames[other as int]
            == env.frames[other as int],
        other_name != name ==> define(
            env,
            frame,
            name,
            value,
        ).frames[frame as int].bindings.contains_key(other_name)
            == env.frames[frame as int].bindings.contains_key(other_name),
        other_name != name && env.frames[frame as int].bindings.contains_key(other_name)
            ==> define(env, frame, name, value).frames[frame as int].bindings[other_name]
            == env.frames[frame as int].bindings[other_name],
{
}

/// Opening a frame changes what no earlier frame sees.
pub proof fn lemma_extend_keeps(env: EnvModel, parent: nat, frame: nat, name: Seq<char>)
    requires
        frame < env.frames.len(),
    ensures
        lookup(extend(env, parent), frame, name) == lookup(env, frame, name),
    decreases frame,
{
    match env.frames[frame as int].parent {
        Some(p) => {
            if p < frame {
                lemma_extend_keeps(env, parent, p, name);
            }
        },
        None => {},
    }
}

/// A fresh frame binds nothing itself and sees what its parent sees.
pub proof fn lemma_child_sees_parent(env: EnvModel, parent: nat, name: Seq<char>)
    requires
        parent < env.frames.len(),
    ensures
        lookup(extend(env, parent), env.frames.len(), name) == lookup(env, parent, name),
{
    lemma_extend_keeps(env, parent, parent, name);
    let child = env.frames.len();
    let after = extend(env, parent);
    assert(after.frames[child as int].parent == Some(parent));
    assert(!after.frames[child as int].bindings.contains_key(name));
}

/// The frame that binds a name, as seen from `frame`, is `frame` or one made
/// before it, and a lookup yields that frame's binding.
pub proof fn lemma_binding_frame(env: EnvModel, frame: nat, name: Seq<char>)
    ensures
        match binding_frame(env, frame, name) {
            Some(f) => f <= frame && f < env.frames.len() && env.frames[f as int].bindings.contains_key(
                name,
            ) && lookup(env, frame, name) == Some(env.frames[f as int].bindings[name]),
            None => lookup(env, frame, name) is None,
        },
    decreases frame,
{
    if frame < env.frames.len() && !env.frames[frame as int].bindings.contains_key(name) {
        match env.frames[frame as int].parent {
            Some(p) => {
                if p < frame {
                    lemma_binding_frame(env, p, name);
                }
            },
            None => {},
        }
    }
}

/// Assignment succeeds exactly where the name is bound, and overwrites the
/// binding that a lookup finds: afterwards the lookup yields the new value.
pub proof fn lemma_assign_then_lookup(env: EnvModel, frame: nat, name: Seq<char>, value: Sexp)
    ensures
        assign(env, frame, name, value) is Some <==> lookup(env, frame, name) is Some,
        assign(env, frame, name, value) matches Some(after) ==> lookup(after, frame, name) == Some(
            value,
        ) && after.frames.len() == env.frames.len(),
    decreases frame,
{
    lemma_binding_frame(env, frame, name);
    if frame < env.frames.len() {
        if env.frames[frame as int].bindings.contains_key(name) {
        } else {
            match env.frames[frame as int].parent {
                Some(p) => {
                    if p < frame {
                        lemma_assign_then_lookup(env, p, name, value);
                        lemma_binding_frame(env, p, name);
                        match binding_frame(env, p, name) {
                            Some(f) => {
                                let after = define(env, f, name, value);
                                assert(after.frames[frame as int] == env.frames[frame as int]);
                            },
                            None => {},
                        }
                    }
                },
                None => {},
            }
        }
    }
}

/// Lexical scoping: what a closure comes to does not depend on the frame it
/// is called from. Its body sees the frame that the closure captured, never
/// the frame of the caller.
pub proof fn lemma_closure_ignores_caller(
    params: Seq<Sexp>,
    body: Seq<Sexp>,
    captured: nat,
    args: Seq<Sexp>,
    caller: nat,
    other: nat,
    env: EnvModel,
    depth: nat,
)
    ensures
        apply_sem(Sexp::Lambda(params, body, captured), args, caller, env, depth) == apply_sem(
            Sexp::Lambda(params, body, captured),
            args,
            other,
            env,
            depth,
        ),
{
}

/// Lexical scoping: every call opens a frame of its own. The frame is
/// empty, lies inside the frame that the closure captured, and comes after
/// all frames there are, which it leaves as they were. So two closures made
/// by two calls capture two frames, and what one binds or assigns there the
/// other does not see.
pub proof fn lemma_calls_open_fresh_frames(env: EnvModel, parent: nat)
    requires
        parent < env.frames.len(),
    ensures
        extend(env, parent).frames.len() == env.frames.len() + 1,
        extend(env, parent).frames[env.frames.len() as int].parent == Some(parent),
        extend(env, parent).frames[env.frames.len() as int].bindings == Map::<
            Seq<char>,
            Sexp,
        >::empty(),
        forall|f: int|
            0 <= f < env.frames.len() ==> extend(env, parent).frames[f] == env.frames[f],
{
}

/// The bindings of a `let` do not see each other: the expression of every
/// declaration is evaluated in the enclosing frame, in a state in which none
/// of the names of the `let` is bound yet. The names are bound only when all
/// the expressions have their values.
pub proof fn lemma_let_bindings_apart(
    decs: Seq<Sexp>,
    i: int,
    frame: nat,
    env: EnvModel,
    depth: nat,
    names: Seq<Seq<char>>,
    values: Seq<Sexp>,
    name: Seq<char>,
    expr: Sexp,
)
    requires
        0 <= i < decs.len(),
        decs[i] == Sexp::List(seq![Sexp::Var(name), expr]),
    ensures
        ({
            let (r, env1) = eval_sem(expr, frame, env, depth);
            bindings_sem(decs, i, frame, env, depth, names, values) == (match r {
                Err(e) => (Err::<(Seq<Seq<char>>, Seq<Sexp>), EvalError>(e), env1),
                Ok(v) => bindings_sem(
                    decs,
                    i + 1,
                    frame,
                    env1,
                    depth,
                    names.push(name),
                    values.push(v),
                ),
            })
        }),
{
    let dec = seq![Sexp::Var(name), expr];
    assert(dec.len() == 2);
    assert(dec[0] == Sexp::Var(name));
    assert(dec[1] == expr);
}

/// Arity is enforced: a closure applied to more or fewer arguments than it
/// has parameters fails, and nothing is changed.
pub proof fn lemma_arity_enforced(
    params: Seq<Sexp>,
    body: Seq<Sexp>,
    captured: nat,
    args: Seq<Sexp>,
    frame: nat,
    env: EnvModel,
    depth: nat,
)
    requires
        depth > 0,
        params.len() != args.len(),
    ensures
        apply_sem(Sexp::Lambda(params, body, captured), args, frame, env, depth) == (
            Err::<Sexp, EvalError>(EvalError::WrongArgumentCount),
            env,
        ),
{
}

/// Types are enforced: `+`, `-` and `*` fail where one of the arguments
/// that they come to is no number.
pub proof fn lemma_non_number_fails(op: Builtin, args: Seq<Sexp>, i: int, acc: int, j: int)
    requires
        0 <= i <= j < args.len(),
        integer_of(args[j]) is None,
    ensures
        fold_from(op, args, i, acc) is Err,
    decreases args.len() - i,
{
    if i < j {
        match integer_of(args[i]) {
            Some(n) => {
                lemma_non_number_fails(op, args, i + 1, crate::builtins::combine(op, acc, n), j);
            },
            None => {},
        }
    }
}

/// The arguments from `i` up to `j`, taken as integers and combined one by
/// one into `acc` by `+`, `-` or `*`.
pub open spec fn combined(op: Builtin, args: Seq<Sexp>, i: int, j: int, acc: int) -> int
    decreases j - i,
{
    if j <= i {
        acc
    } else {
        combine(
            op,
            combined(op, args, i, j - 1, acc),
            match integer_of(args[j - 1]) {
                Some(n) => n,
                None => 0,
            },
        )
    }
}

proof fn lemma_combined_shift(op: Builtin, args: Seq<Sexp>, i: int, j: int, acc: int)
    requires
        0 <= i < j <= args.len(),
        integer_of(args[i]) is Some,
    ensures
        combined(op, args, i, j, acc) == combined(
            op,
            args,
            i + 1,
            j,
            combine(op, acc, integer_of(args[i])->0),
        ),
    decreases j - i,
{
    if j > i + 1 {
        lemma_combined_shift(op, args, i, j - 1, acc);
    } else {
        assert(combined(op, args, i, i, acc) == acc);
        assert(combined(op, args, i + 1, i + 1, combine(op, acc, integer_of(args[i])->0))
            == combine(op, acc, integer_of(args[i])->0));
    }
}

/// When arithmetic succeeds: `+`, `-` and `*` yield a result exactly where
/// every argument is a number and every intermediate result can be held in
/// an `i32`, and the result is then all the arguments combined.
pub proof fn lemma_arithmetic_succeeds_exactly(op: Builtin, args: Seq<Sexp>, i: int, acc: int)
    requires
        0 <= i <= args.len(),
    ensures
        fold_from(op, args, i, acc) is Ok <==> (forall|j: int|
            i <= j < args.len() ==> integer_of(#[trigger] args[j]) is Some) && (forall|j: int|
            i < j <= args.len() ==> fits(#[trigger] combined(op, args, i, j, acc))),
        fold_from(op, args, i, acc) is Ok ==> fold_from(op, args, i, acc) == Ok::<
            Sexp,
            EvalError,
        >(number(combined(op, args, i, args.len() as int, acc))),
    decreases args.len() - i,
{
    if i < args.len() {
        match integer_of(args[i]) {
            Some(n) => {
                let next = combine(op, acc, n);
                assert(combined(op, args, i, i, acc) == acc);
                assert(combined(op, args, i, i + 1, acc) == next);
                lemma_arithmetic_succeeds_exactly(op, args, i + 1, next);
                assert forall|j: int| i < j <= args.len() implies combined(op, args, i, j, acc)
                    == combined(op, args, i + 1, j, next) by {
                    lemma_combined_shift(op, args, i, j, acc);
                }
                if fits(next) {
                    if fold_from(op, args, i, acc) is Ok {
                        assert forall|j: int| i <= j < args.len() implies integer_of(
                            #[trigger] args[j],
                        ) is Some by {
                            if j > i {
                                assert(integer_of(args[j]) is Some);
                            }
                        }
                        assert forall|j: int| i < j <= args.len() implies fits(
                            #[trigger] combined(op, args, i, j, acc),
                        ) by {
                            if j > i + 1 {
                                assert(fits(combined(op, args, i + 1, j, next)));
                            }
                        }
                    }
                    if (forall|j: int|
                        i <= j < args.len() ==> integer_of(#[trigger] args[j]) is Some) && (
                    forall|j: int|
                        i < j <= args.len() ==> fits(#[trigger] combined(op, args, i, j, acc))) {
                        assert forall|j: int| i + 1 < j <= args.len() implies fits(
                            #[trigger] combined(op, args, i + 1, j, next),
                        ) by {
                            assert(fits(combined(op, args, i, j, acc)));
                        }
                    }
                } else {
                    assert(!fits(combined(op, args, i, i + 1, acc)));
                }
            },
            None => {
                assert(integer_of(args[i]) is None);
            },
        }
    } else {
        assert(combined(op, args, i, args.len() as int, acc) == acc);
    }
}

/// When a comparison is true: exactly where every later argument is a
/// number that stands in the named relation to the first.
pub proof fn lemma_comparison_true_exactly(op: Builtin, first: Atom, args: Seq<Sexp>, i: int)
    requires
        0 <= i <= args.len(),
    ensures
        compare_from(op, first, args, i) == Ok::<Sexp, EvalError>(truth(true)) <==> forall|
            j: int,
        |
            i <= j < args.len() ==> number_of(#[trigger] args[j]) is Some && relation_holds(
                op,
                order_numbers(first, number_of(args[j])->0),
            ),
    decreases args.len() - i,
{
    if i < args.len() {
        lemma_comparison_true_exactly(op, first, args, i + 1);
        match number_of(args[i]) {
            Some(n) => {
                if relation_holds(op, order_numbers(first, n)) {
                    if forall|j: int|
                        i + 1 <= j < args.len() ==> number_of(#[trigger] args[j]) is Some
                            && relation_holds(op, order_numbers(first, number_of(args[j])->0)) {
                        assert forall|j: int| i <= j < args.len() implies number_of(
                            #[trigger] args[j],
                        ) is Some && relation_holds(
                            op,
                            order_numbers(first, number_of(args[j])->0),
                        ) by {
                            if j > i {
                                assert(i + 1 <= j);
                            }
                        }
                    }
                } else {
                    assert(number_of(args[i]) is Some);
                }
            },
            None => {
                assert(number_of(args[i]) is None);
            },
        }
    }
}

/// Applicative order: the operands of a call are evaluated from left to
/// right, each in the state that the one before has left, and the first
/// failure ends the call before anything is applied.
pub proof fn lemma_operands_in_order(
    items: Seq<Sexp>,
    i: int,
    frame: nat,
    env: EnvModel,
    depth: nat,
    acc: Seq<Sexp>,
)
    requires
        0 <= i < items.len(),
    ensures
        ({
            let (r, env1) = eval_sem(items[i], frame, env, depth);
            args_sem(items, i, frame, env, depth, acc) == (match r {
                Err(e) => (Err::<Seq<Sexp>, EvalError>(e), env1),
                Ok(v) => args_sem(items, i + 1, frame, env1, depth, acc.push(v)),
            })
        }),
{
}

/// Applicative order: the procedure is applied only after the head and
/// every operand have been evaluated, to their values, in the state that the
/// last of them has left.
pub proof fn lemma_call_after_operands(items: Seq<Sexp>, frame: nat, env: EnvModel, depth: nat)
    requires
        depth > 0,
        items.len() > 0,
    ensures
        ({
            let (head, env1) = eval_sem(items[0], frame, env, (depth - 1) as nat);
            let (operands, env2) = args_sem(
                items,
                1,
                frame,
                env1,
                (depth - 1) as nat,
                Seq::empty(),
            );
            call_sem(items, frame, env, depth) == (match (head, operands) {
                (Err(e), _) => (Err::<Sexp, EvalError>(e), env1),
                (Ok(_), Err(e)) => (Err::<Sexp, EvalError>(e), env2),
                (Ok(procedure), Ok(args)) => apply_sem(procedure, args, frame, env2, depth),
            })
        }),
{
}

/// Whether a value is plain data: it holds no procedure and not the
/// unspecified value.
pub open spec fn is_data(v: Sexp) -> bool
    decreases v, 1nat,
{
    match v {
        Sexp::DottedPair(items, tail) => all_data(items) && is_data(*tail),
        Sexp::List(items) => all_data(items),
        Sexp::Var(_) => true,
        Sexp::Literal(_) => true,
        _ => false,
    }
}

/// Whether every value of a run is plain data.
pub open spec fn all_data(items: Seq<Sexp>) -> bool
    decreases items, 0nat,
{
    items.len() == 0 || (is_data(items.last()) && all_data(items.drop_last()))
}

/// Values that are structurally equal are the same value.
pub proof fn lemma_equal_is_same(a: Sexp, b: Sexp)
    requires
        sexp_equal(a, b),
    ensures
        a == b,
    decreases a, 1nat,
{
    match (a, b) {
        (Sexp::List(x), Sexp::List(y)) => {
            lemma_all_equal_is_same(x, y);
        },
        (Sexp::DottedPair(x, s), Sexp::DottedPair(y, t)) => {
            lemma_all_equal_is_same(x, y);
            lemma_equal_is_same(*s, *t);
        },
        _ => {},
    }
}

/// Runs that are equal item by item are the same run.
pub proof fn lemma_all_equal_is_same(xs: Seq<Sexp>, ys: Seq<Sexp>)
    requires
        all_sexp_equal(xs, ys),
    ensures
        xs == ys,
    decreases xs, 0nat,
{
    if xs.len() > 0 {
        lemma_equal_is_same(xs.last(), ys.last());
        lemma_all_equal_is_same(xs.drop_last(), ys.drop_last());
        assert(xs =~= xs.drop_last().push(xs.last()));
        assert(ys =~= ys.drop_last().push(ys.last()));
    } else {
        assert(xs =~= ys);
    }
}

/// Plain data is structurally equal to itself; a procedure and the
/// unspecified value are equal to nothing.
pub proof fn lemma_data_equals_itself(a: Sexp)
    ensures
        is_data(a) ==> sexp_equal(a, a),
        a is Lambda || a is Builtin || a is Unspecified ==> forall|b: Sexp|
            !sexp_equal(a, b) && !sexp_equal(b, a),
    decreases a, 1nat,
{
    if is_data(a) {
        match a {
            Sexp::List(x) => {
                lemma_all_data_equal(x);
            },
            Sexp::DottedPair(x, s) => {
                lemma_all_data_equal(x);
                lemma_data_equals_itself(*s);
            },
            _ => {},
        }
    }
}

/// A run of plain data is equal to itself item by item.
pub proof fn lemma_all_data_equal(xs: Seq<Sexp>)
    requires
        all_data(xs),
    ensures
        all_sexp_equal(xs, xs),
    decreases xs, 0nat,
{
    if xs.len() > 0 {
        lemma_data_equals_itself(xs.last());
        lemma_all_data_equal(xs.drop_last());
    }
}

/// The procedures that build and take apart lists keep the normal form: of
/// arguments in normal form they make a value in normal form.
pub proof fn lemma_list_procedures_keep_normal(args: Seq<Sexp>)
    requires
        all_normal(args),
    ensures
        list_sem(args) matches Ok(v) ==> is_normal(v),
        car_sem(args) matches Ok(v) ==> is_normal(v),
        cdr_sem(args) matches Ok(v) ==> is_normal(v),
        cons_sem(args) matches Ok(v) ==> is_normal(v),
        append_sem(args) matches Ok(v) ==> is_normal(v),
        reverse_sem(args) matches Ok(v) ==> is_normal(v),
{
    lemma_all_normal(args);
    if args.len() >= 1 {
        assert(is_normal(args[0]));
        match args[0] {
            Sexp::List(l) => {
                lemma_all_normal(l);
                lemma_all_normal(l.skip(1));
                lemma_all_normal(l.reverse());
                if args.len() >= 2 {
                    lemma_append_normal(args, 1, l);
                }
            },
            Sexp::DottedPair(l, r) => {
                lemma_all_normal(l);
                lemma_all_normal(l.skip(1));
            },
            _ => {},
        }
    }
    if args.len() == 2 {
        assert(is_normal(args[1]));
        lemma_all_normal_push(Seq::empty(), args[0]);
        assert(Seq::<Sexp>::empty().push(args[0]) =~= seq![args[0]]);
        match args[1] {
            Sexp::List(l) => {
                lemma_all_normal_concat(seq![args[0]], l);
            },
            Sexp::DottedPair(l, end) => {
                lemma_all_normal_concat(seq![args[0]], l);
            },
            _ => {},
        }
    }
}

proof fn lemma_append_normal(args: Seq<Sexp>, i: int, acc: Seq<Sexp>)
    requires
        all_normal(args),
        all_normal(acc),
        0 <= i,
    ensures
        append_from(args, i, acc) matches Ok(v) ==> is_normal(v),
    decreases args.len() - i,
{
    if i < args.len() {
        lemma_all_normal(args);
        assert(is_normal(args[i]));
        match args[i] {
            Sexp::List(l) => {
                lemma_all_normal_concat(acc, l);
                lemma_append_normal(args, i + 1, acc + l);
            },
            _ => {},
        }
    }
}

} // verus!
