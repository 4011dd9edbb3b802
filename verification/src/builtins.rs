//! The native procedures. Each receives its arguments already evaluated.

use crate::ast::{
    atom_order, copy_expr, lemma_views, literal_order, sexp_equal, views, Atom, Builtin, Expr,
    Literal, Sexp,
};
use crate::decimal::{decimal_trunc, Comparison};
use crate::env::Env;
use crate::error::EvalError;
use crate::reader::read_program;
use crate::repl::report_failure;
use crate::semantics::{
    apply_builtin_sem, builtin_sem, display_sem, load_sem, read_builtin_sem, run_sem,
};
use crate::text::string_of;
use vstd::prelude::*;

verus! {

/// The value of a result: that of the node it holds, or the failure.
pub open spec fn outcome(r: Result<Expr, EvalError>) -> Result<Sexp, EvalError> {
    match r {
        Ok(v) => Ok(v@),
        Err(e) => Err(e),
    }
}

/// The boolean value `b`.
pub open spec fn truth(b: bool) -> Sexp {
    Sexp::Literal(Atom::Bool(b))
}

/// The integer value `n`.
pub open spec fn number(n: int) -> Sexp {
    Sexp::Literal(Atom::Number(n))
}

/// The number that a value is, where it is one.
pub open spec fn number_of(v: Sexp) -> Option<Atom> {
    match v {
        Sexp::Literal(Atom::Number(n)) => Some(Atom::Number(n)),
        Sexp::Literal(Atom::Float(d)) => Some(Atom::Float(d)),
        _ => None,
    }
}

/// How two numbers order. Integers order by value and decimals by value; a
/// decimal comes before every integer.
pub open spec fn order_numbers(a: Atom, b: Atom) -> Comparison {
    atom_order(a, b)
}

/// Whether the relation that `op` names holds of an ordering. Of a procedure
/// that names no relation it never holds.
pub open spec fn relation_holds(op: Builtin, c: Comparison) -> bool {
    match op {
        Builtin::Equal => c == Comparison::Equal,
        Builtin::Lt => c == Comparison::Less,
        Builtin::Lte => c != Comparison::Greater,
        Builtin::Gt => c == Comparison::Greater,
        Builtin::Gte => c != Comparison::Less,
        _ => false,
    }
}

/// The arguments from `i` on, each held against `first`: the first one that
/// is no number is an error, the first one of which the relation fails makes
/// the result false, and with neither the result is true.
pub open spec fn compare_from(op: Builtin, first: Atom, args: Seq<Sexp>, i: int) -> Result<
    Sexp,
    EvalError,
>
    decreases args.len() - i,
{
    if i < 0 || i >= args.len() {
        Ok(truth(true))
    } else {
        match number_of(args[i]) {
            None => Err(EvalError::MustBeNumber),
            Some(n) => if relation_holds(op, order_numbers(first, n)) {
                compare_from(op, first, args, i + 1)
            } else {
                Ok(truth(false))
            },
        }
    }
}

/// A comparison (`=`, `<`, `<=`, `>`, `>=`): every later argument is held
/// against the first.
pub open spec fn compare_sem(op: Builtin, args: Seq<Sexp>) -> Result<Sexp, EvalError> {
    if args.len() == 0 {
        Err(EvalError::IncorrectArgumentCount)
    } else {
        match number_of(args[0]) {
            None => Err(EvalError::MustBeNumber),
            Some(first) => compare_from(op, first, args, 1),
        }
    }
}

/// The integer that a number counts as in arithmetic: a decimal counts as
/// its whole part.
pub open spec fn integer_of(v: Sexp) -> Option<int> {
    match v {
        Sexp::Literal(Atom::Number(n)) => Some(n),
        Sexp::Literal(Atom::Float(d)) => Some(decimal_trunc(d)),
        _ => None,
    }
}

/// Whether `n` can be held in an `i32`.
pub open spec fn fits(n: int) -> bool {
    i32::MIN <= n <= i32::MAX
}

/// One step of `+`, `-` or `*`.
pub open spec fn combine(op: Builtin, acc: int, n: int) -> int {
    match op {
        Builtin::Add => acc + n,
        Builtin::Sub => acc - n,
        _ => acc * n,
    }
}

/// The failure of `+`, `-` or `*` on an argument that is no number.
pub open spec fn not_a_number(op: Builtin) -> EvalError {
    match op {
        Builtin::Add => EvalError::CannotAdd,
        Builtin::Sub => EvalError::CannotSubtract,
        _ => EvalError::CannotMultiply,
    }
}

/// The arguments from `i` on, combined one by one into `acc`. An argument
/// that is no number is an error, and so is a result that leaves the range
/// of `i32`.
pub open spec fn fold_from(op: Builtin, args: Seq<Sexp>, i: int, acc: int) -> Result<
    Sexp,
    EvalError,
>
    decreases args.len() - i,
{
    if i < 0 || i >= args.len() {
        Ok(number(acc))
    } else {
        match integer_of(args[i]) {
            None => Err(not_a_number(op)),
            Some(n) => if fits(combine(op, acc, n)) {
                fold_from(op, args, i + 1, combine(op, acc, n))
            } else {
                Err(EvalError::Overflow)
            },
        }
    }
}

/// `+`: the sum of the arguments, zero for none.
pub open spec fn add_sem(args: Seq<Sexp>) -> Result<Sexp, EvalError> {
    fold_from(Builtin::Add, args, 0, 0)
}

/// `*`: the product of the arguments, one for none.
pub open spec fn mul_sem(args: Seq<Sexp>) -> Result<Sexp, EvalError> {
    fold_from(Builtin::Mul, args, 0, 1)
}

/// `-`: the first argument less all the others, or its negation where it is
/// the only one.
pub open spec fn sub_sem(args: Seq<Sexp>) -> Result<Sexp, EvalError> {
    if args.len() == 0 {
        Err(EvalError::SubNeedsArgument)
    } else {
        match integer_of(args[0]) {
            None => Err(EvalError::CannotSubtract),
            Some(first) => if args.len() == 1 {
                if fits(-first) {
                    Ok(number(-first))
                } else {
                    Err(EvalError::Overflow)
                }
            } else {
                fold_from(Builtin::Sub, args, 1, first)
            },
        }
    }
}

/// `list`: the arguments as a list.
pub open spec fn list_sem(args: Seq<Sexp>) -> Result<Sexp, EvalError> {
    Ok(Sexp::List(args))
}

/// `car`: the first item of a list or of a dotted pair.
pub open spec fn car_sem(args: Seq<Sexp>) -> Result<Sexp, EvalError> {
    if args.len() != 1 {
        Err(EvalError::IncorrectArgumentCount)
    } else {
        match args[0] {
            Sexp::List(l) => if l.len() == 0 {
                Err(EvalError::EmptyList)
            } else {
                Ok(l[0])
            },
            Sexp::DottedPair(l, _) => if l.len() == 0 {
                Err(EvalError::IncorrectType)
            } else {
                Ok(l[0])
            },
            _ => Err(EvalError::IncorrectType),
        }
    }
}

/// `cdr`: what follows the first item. Of a dotted pair with one item that
/// is its tail.
pub open spec fn cdr_sem(args: Seq<Sexp>) -> Result<Sexp, EvalError> {
    if args.len() != 1 {
        Err(EvalError::IncorrectArgumentCount)
    } else {
        match args[0] {
            Sexp::List(l) => if l.len() == 0 {
                Err(EvalError::EmptyList)
            } else {
                Ok(Sexp::List(l.skip(1)))
            },
            Sexp::DottedPair(l, r) => if l.len() == 0 {
                Err(EvalError::IncorrectType)
            } else if l.len() == 1 {
                Ok(*r)
            } else {
                Ok(Sexp::DottedPair(l.skip(1), r))
            },
            _ => Err(EvalError::IncorrectType),
        }
    }
}

/// `cons`: the second argument with the first put in front. Onto anything
/// but a list or a dotted pair this makes a dotted pair.
pub open spec fn cons_sem(args: Seq<Sexp>) -> Result<Sexp, EvalError> {
    if args.len() != 2 {
        Err(EvalError::IncorrectArgumentCount)
    } else {
        match args[1] {
            Sexp::List(l) => Ok(Sexp::List(seq![args[0]] + l)),
            Sexp::DottedPair(l, end) => Ok(Sexp::DottedPair(seq![args[0]] + l, end)),
            cell => Ok(Sexp::DottedPair(seq![args[0]], Box::new(cell))),
        }
    }
}

/// The items of the lists from `i` on, appended to `acc`.
pub open spec fn append_from(args: Seq<Sexp>, i: int, acc: Seq<Sexp>) -> Result<Sexp, EvalError>
    decreases args.len() - i,
{
    if i < 0 || i >= args.len() {
        Ok(Sexp::List(acc))
    } else {
        match args[i] {
            Sexp::List(l) => append_from(args, i + 1, acc + l),
            _ => Err(EvalError::ArgumentMustBeList),
        }
    }
}

/// `append`: the items of two or more lists, in order, as one list.
pub open spec fn append_sem(args: Seq<Sexp>) -> Result<Sexp, EvalError> {
    if args.len() < 2 {
        Err(EvalError::IncorrectArgumentCount)
    } else {
        match args[0] {
            Sexp::List(l) => append_from(args, 1, l),
            _ => Err(EvalError::AppendIncorrectType),
        }
    }
}

/// `length`: the number of items of a list.
pub open spec fn length_sem(args: Seq<Sexp>) -> Result<Sexp, EvalError> {
    if args.len() != 1 {
        Err(EvalError::IncorrectArgumentCount)
    } else {
        match args[0] {
            Sexp::List(l) => if fits(l.len() as int) {
                Ok(number(l.len() as int))
            } else {
                Err(EvalError::Overflow)
            },
            _ => Err(EvalError::LengthIncorrectType),
        }
    }
}

/// `reverse`: the items of a list, the last one first.
pub open spec fn reverse_sem(args: Seq<Sexp>) -> Result<Sexp, EvalError> {
    if args.len() != 1 {
        Err(EvalError::IncorrectArgumentCount)
    } else {
        match args[0] {
            Sexp::List(l) => Ok(Sexp::List(l.reverse())),
            _ => Err(EvalError::ReverseIncorrectType),
        }
    }
}

/// `equal?`: whether two values are structurally equal.
pub open spec fn equalp_sem(args: Seq<Sexp>) -> Result<Sexp, EvalError> {
    if args.len() != 2 {
        Err(EvalError::IncorrectArgumentCount)
    } else {
        Ok(truth(sexp_equal(args[0], args[1])))
    }
}

/// What each predicate on one value tests.
pub open spec fn predicate_holds(op: Builtin, v: Sexp) -> bool {
    match op {
        Builtin::Listp => v is List,
        Builtin::Nullp => v matches Sexp::List(l) && l.len() == 0,
        Builtin::Procedurep => v is Lambda || v is Builtin,
        Builtin::Numberp => number_of(v) is Some,
        Builtin::Symbolp => v is Var,
        Builtin::Pairp => v is DottedPair || (v matches Sexp::List(l) && l.len() > 0),
        _ => false,
    }
}

/// A predicate on one value (`list?`, `null?`, `procedure?`, `number?`,
/// `symbol?`, `pair?`).
pub open spec fn predicate_sem(op: Builtin, args: Seq<Sexp>) -> Result<Sexp, EvalError> {
    if args.len() != 1 {
        Err(EvalError::IncorrectArgumentCount)
    } else {
        Ok(truth(predicate_holds(op, args[0])))
    }
}

/// The node for a boolean.
fn boolean(b: bool) -> (e: Expr)
    ensures
        e@ == truth(b),
{
    Expr::Literal(Literal::Bool(b))
}

/// The node for an integer.
fn integer(n: i32) -> (e: Expr)
    ensures
        e@ == number(n as int),
{
    Expr::Literal(Literal::Number(n))
}

/// Appends deep copies of `items[from..to]` to `out`.
pub(crate) fn extend_copies(out: &mut Vec<Expr>, items: &[Expr], from: usize, to: usize)
    requires
        from <= to <= items.len(),
    ensures
        views(final(out)@) == views(old(out)@) + views(items@).subrange(from as int, to as int),
{
    let mut i: usize = from;
    proof {
        assert(views(out@) =~= views(old(out)@) + views(items@).subrange(from as int, i as int));
    }
    while i < to
        invariant
            from <= i <= to <= items.len(),
            views(out@) == views(old(out)@) + views(items@).subrange(from as int, i as int),
        decreases to - i,
    {
        let ghost before = out@;
        let c = copy_expr(&items[i]);
        out.push(c);
        proof {
            assert(views(out@) =~= views(before).push(c@));
            assert(views(out@) =~= views(old(out)@) + views(items@).subrange(
                from as int,
                i + 1,
            ));
        }
        i += 1;
    }
}

/// Deep copies of `items[from..to]`.
pub(crate) fn copy_range(items: &[Expr], from: usize, to: usize) -> (out: Vec<Expr>)
    requires
        from <= to <= items.len(),
    ensures
        views(out@) == views(items@).subrange(from as int, to as int),
{
    let mut out: Vec<Expr> = Vec::new();
    extend_copies(&mut out, items, from, to);
    proof {
        assert(views(out@) =~= views(items@).subrange(from as int, to as int));
    }
    out
}

/// The number that a node is, where it is one.
fn operand(e: &Expr) -> (r: Option<&Literal>)
    ensures
        match r {
            Some(l) => number_of(e@) == Some(l@),
            None => number_of(e@) is None,
        },
{
    match e {
        Expr::Literal(l) => match l {
            Literal::Number(_) => Some(l),
            Literal::Float(_) => Some(l),
            _ => None,
        },
        _ => None,
    }
}

/// Whether the relation that `op` names holds of an ordering.
fn holds(op: Builtin, c: Comparison) -> (r: bool)
    ensures
        r == relation_holds(op, c),
{
    match op {
        Builtin::Equal => match c {
            Comparison::Equal => true,
            _ => false,
        },
        Builtin::Lt => match c {
            Comparison::Less => true,
            _ => false,
        },
        Builtin::Lte => match c {
            Comparison::Greater => false,
            _ => true,
        },
        Builtin::Gt => match c {
            Comparison::Greater => true,
            _ => false,
        },
        Builtin::Gte => match c {
            Comparison::Less => false,
            _ => true,
        },
        _ => false,
    }
}

/// A comparison of the arguments under the relation that `op` names.
pub fn compare(op: Builtin, list: &[Expr]) -> (r: Result<Expr, EvalError>)
    ensures
        outcome(r) == compare_sem(op, views(list@)),
{
    if list.len() == 0 {
        return Err(EvalError::IncorrectArgumentCount);
    }
    let first = match operand(&list[0]) {
        Some(o) => o,
        None => {
            return Err(EvalError::MustBeNumber);
        },
    };
    let mut i: usize = 1;
    while i < list.len()
        invariant
            1 <= i <= list.len(),
            number_of(list@[0]@) == Some(first@),
            compare_sem(op, views(list@)) == compare_from(op, first@, views(list@), i as int),
        decreases list.len() - i,
    {
        let current = match operand(&list[i]) {
            Some(o) => o,
            None => {
                return Err(EvalError::MustBeNumber);
            },
        };
        if !holds(op, literal_order(first, current)) {
            return Ok(boolean(false));
        }
        i += 1;
    }
    Ok(boolean(true))
}

/// `=`: whether every later argument is the same number as the first.
pub fn equal(list: &[Expr], _env: &Env) -> (r: Result<Expr, EvalError>)
    ensures
        outcome(r) == compare_sem(Builtin::Equal, views(list@)),
{
    compare(Builtin::Equal, list)
}

/// `<`: whether the first argument is less than every later one.
pub fn lt(list: &[Expr], _env: &Env) -> (r: Result<Expr, EvalError>)
    ensures
        outcome(r) == compare_sem(Builtin::Lt, views(list@)),
{
    compare(Builtin::Lt, list)
}

/// `<=`: whether the first argument is at most every later one.
pub fn lte(list: &[Expr], _env: &Env) -> (r: Result<Expr, EvalError>)
    ensures
        outcome(r) == compare_sem(Builtin::Lte, views(list@)),
{
    compare(Builtin::Lte, list)
}

/// `>`: whether the first argument is greater than every later one.
pub fn gt(list: &[Expr], _env: &Env) -> (r: Result<Expr, EvalError>)
    ensures
        outcome(r) == compare_sem(Builtin::Gt, views(list@)),
{
    compare(Builtin::Gt, list)
}

/// `>=`: whether the first argument is at least every later one.
pub fn gte(list: &[Expr], _env: &Env) -> (r: Result<Expr, EvalError>)
    ensures
        outcome(r) == compare_sem(Builtin::Gte, views(list@)),
{
    compare(Builtin::Gte, list)
}

/// The integer that a node counts as in arithmetic, where it is a number.
fn as_integer(e: &Expr) -> (r: Option<i32>)
    ensures
        match r {
            Some(n) => integer_of(e@) == Some(n as int),
            None => integer_of(e@) is None,
        },
{
    match e {
        Expr::Literal(Literal::Number(n)) => Some(*n),
        Expr::Literal(Literal::Float(d)) => Some(d.trunc()),
        _ => None,
    }
}

/// One step of `+`, `-` or `*`, where the result can be held in an `i32`.
fn step(op: Builtin, acc: i32, n: i32) -> (r: Option<i32>)
    ensures
        match r {
            Some(v) => fits(combine(op, acc as int, n as int)) && v == combine(
                op,
                acc as int,
                n as int,
            ),
            None => !fits(combine(op, acc as int, n as int)),
        },
{
    let wide: i64 = match op {
        Builtin::Add => acc as i64 + n as i64,
        Builtin::Sub => acc as i64 - n as i64,
        _ => {
            assert(-2147483648 * 2147483648 <= (acc as int) * (n as int) <= 2147483648
                * 2147483648) by (nonlinear_arith)
                requires
                    -2147483648 <= acc <= 2147483647,
                    -2147483648 <= n <= 2147483647,
            ;
            acc as i64 * n as i64
        },
    };
    if wide < -2147483648i64 || wide > 2147483647i64 {
        None
    } else {
        Some(wide as i32)
    }
}

/// The arguments from `from` on, combined one by one into `start`.
fn fold(op: Builtin, list: &[Expr], from: usize, start: i32) -> (r: Result<Expr, EvalError>)
    requires
        from <= list.len(),
    ensures
        outcome(r) == fold_from(op, views(list@), from as int, start as int),
{
    let mut acc: i32 = start;
    let mut i: usize = from;
    while i < list.len()
        invariant
            from <= i <= list.len(),
            fold_from(op, views(list@), from as int, start as int) == fold_from(
                op,
                views(list@),
                i as int,
                acc as int,
            ),
        decreases list.len() - i,
    {
        let n = match as_integer(&list[i]) {
            Some(n) => n,
            None => {
                return Err(
                    match op {
                        Builtin::Add => EvalError::CannotAdd,
                        Builtin::Sub => EvalError::CannotSubtract,
                        _ => EvalError::CannotMultiply,
                    },
                );
            },
        };
        acc = match step(op, acc, n) {
            Some(v) => v,
            None => {
                return Err(EvalError::Overflow);
            },
        };
        i += 1;
    }
    Ok(integer(acc))
}

/// `+`: the sum of the arguments.
pub fn add(list: &[Expr], _env: &Env) -> (r: Result<Expr, EvalError>)
    ensures
        outcome(r) == add_sem(views(list@)),
{
    fold(Builtin::Add, list, 0, 0)
}

/// `*`: the product of the arguments.
pub fn mul(list: &[Expr], _env: &Env) -> (r: Result<Expr, EvalError>)
    ensures
        outcome(r) == mul_sem(views(list@)),
{
    fold(Builtin::Mul, list, 0, 1)
}

/// `-`: the first argument less the others, or its negation.
pub fn sub(list: &[Expr], _env: &Env) -> (r: Result<Expr, EvalError>)
    ensures
        outcome(r) == sub_sem(views(list@)),
{
    if list.len() == 0 {
        return Err(EvalError::SubNeedsArgument);
    }
    let first = match as_integer(&list[0]) {
        Some(n) => n,
        None => {
            return Err(EvalError::CannotSubtract);
        },
    };
    if list.len() == 1 {
        if first == i32::MIN {
            return Err(EvalError::Overflow);
        }
        return Ok(integer(-first));
    }
    fold(Builtin::Sub, list, 1, first)
}

/// `list`: the arguments as a list.
pub fn list(args: &[Expr], _env: &Env) -> (r: Result<Expr, EvalError>)
    ensures
        outcome(r) == list_sem(views(args@)),
{
    let items = copy_range(args, 0, args.len());
    proof {
        assert(views(args@).subrange(0, args.len() as int) =~= views(args@));
    }
    Ok(Expr::List(items))
}

/// `car`: the first item of a list or of a dotted pair.
pub fn car(list: &[Expr], _env: &Env) -> (r: Result<Expr, EvalError>)
    ensures
        outcome(r) == car_sem(views(list@)),
{
    if list.len() != 1 {
        return Err(EvalError::IncorrectArgumentCount);
    }
    match &list[0] {
        Expr::List(l) => {
            proof {
                lemma_views(l@);
            }
            if l.len() == 0 {
                return Err(EvalError::EmptyList);
            }
            Ok(copy_expr(&l[0]))
        },
        Expr::DottedPair(l, _) => {
            proof {
                lemma_views(l@);
            }
            if l.len() == 0 {
                return Err(EvalError::IncorrectType);
            }
            Ok(copy_expr(&l[0]))
        },
        _ => Err(EvalError::IncorrectType),
    }
}

/// `cdr`: what follows the first item of a list or of a dotted pair.
pub fn cdr(list: &[Expr], _env: &Env) -> (r: Result<Expr, EvalError>)
    ensures
        outcome(r) == cdr_sem(views(list@)),
{
    if list.len() != 1 {
        return Err(EvalError::IncorrectArgumentCount);
    }
    match &list[0] {
        Expr::List(l) => {
            proof {
                lemma_views(l@);
            }
            if l.len() == 0 {
                return Err(EvalError::EmptyList);
            }
            let rest = copy_range(l.as_slice(), 1, l.len());
            proof {
                assert(views(l@).subrange(1, l.len() as int) =~= views(l@).skip(1));
            }
            Ok(Expr::List(rest))
        },
        Expr::DottedPair(l, r) => {
            proof {
                lemma_views(l@);
            }
            if l.len() == 0 {
                return Err(EvalError::IncorrectType);
            }
            if l.len() == 1 {
                return Ok(copy_expr(r));
            }
            let rest = copy_range(l.as_slice(), 1, l.len());
            proof {
                assert(views(l@).subrange(1, l.len() as int) =~= views(l@).skip(1));
            }
            let tail = copy_expr(r);
            Ok(Expr::DottedPair(rest, Box::new(tail)))
        },
        _ => Err(EvalError::IncorrectType),
    }
}

/// `cons`: the second argument with the first put in front.
pub fn cons(list: &[Expr], _env: &Env) -> (r: Result<Expr, EvalError>)
    ensures
        outcome(r) == cons_sem(views(list@)),
{
    if list.len() != 2 {
        return Err(EvalError::IncorrectArgumentCount);
    }
    let mut items: Vec<Expr> = Vec::new();
    items.push(copy_expr(&list[0]));
    proof {
        assert(views(items@) =~= seq![list@[0]@]);
    }
    match &list[1] {
        Expr::List(l) => {
            extend_copies(&mut items, l.as_slice(), 0, l.len());
            proof {
                assert(views(l@).subrange(0, l.len() as int) =~= views(l@));
            }
            Ok(Expr::List(items))
        },
        Expr::DottedPair(l, end) => {
            extend_copies(&mut items, l.as_slice(), 0, l.len());
            proof {
                assert(views(l@).subrange(0, l.len() as int) =~= views(l@));
            }
            let tail = copy_expr(end);
            Ok(Expr::DottedPair(items, Box::new(tail)))
        },
        cell => {
            let tail = copy_expr(cell);
            Ok(Expr::DottedPair(items, Box::new(tail)))
        },
    }
}

/// `append`: the items of two or more lists as one list.
pub fn append(list: &[Expr], _env: &Env) -> (r: Result<Expr, EvalError>)
    ensures
        outcome(r) == append_sem(views(list@)),
{
    if list.len() < 2 {
        return Err(EvalError::IncorrectArgumentCount);
    }
    let mut items: Vec<Expr> = match &list[0] {
        Expr::List(l) => {
            proof {
                assert(views(l@).subrange(0, l.len() as int) =~= views(l@));
            }
            copy_range(l.as_slice(), 0, l.len())
        },
        _ => {
            return Err(EvalError::AppendIncorrectType);
        },
    };
    let mut i: usize = 1;
    while i < list.len()
        invariant
            1 <= i <= list.len(),
            append_sem(views(list@)) == append_from(views(list@), i as int, views(items@)),
        decreases list.len() - i,
    {
        match &list[i] {
            Expr::List(l) => {
                extend_copies(&mut items, l.as_slice(), 0, l.len());
                proof {
                    assert(views(l@).subrange(0, l.len() as int) =~= views(l@));
                }
            },
            _ => {
                return Err(EvalError::ArgumentMustBeList);
            },
        }
        i += 1;
    }
    Ok(Expr::List(items))
}

/// `length`: the number of items of a list.
pub fn length(list: &[Expr], _env: &Env) -> (r: Result<Expr, EvalError>)
    ensures
        outcome(r) == length_sem(views(list@)),
{
    if list.len() != 1 {
        return Err(EvalError::IncorrectArgumentCount);
    }
    match &list[0] {
        Expr::List(l) => {
            proof {
                lemma_views(l@);
            }
            if l.len() > 2147483647 {
                return Err(EvalError::Overflow);
            }
            Ok(integer(l.len() as i32))
        },
        _ => Err(EvalError::LengthIncorrectType),
    }
}

/// `reverse`: the items of a list, the last one first.
pub fn reverse(list: &[Expr], _env: &Env) -> (r: Result<Expr, EvalError>)
    ensures
        outcome(r) == reverse_sem(views(list@)),
{
    if list.len() != 1 {
        return Err(EvalError::IncorrectArgumentCount);
    }
    match &list[0] {
        Expr::List(l) => {
            let mut out: Vec<Expr> = Vec::new();
            let mut i: usize = l.len();
            while i > 0
                invariant
                    i <= l.len(),
                    out.len() == l.len() - i,
                    forall|k: int|
                        0 <= k < out.len() ==> (#[trigger] out@[k])@ == l@[l.len() - 1 - k]@,
                decreases i,
            {
                i -= 1;
                out.push(copy_expr(&l[i]));
            }
            proof {
                assert(views(out@) =~= views(l@).reverse());
            }
            Ok(Expr::List(out))
        },
        _ => Err(EvalError::ReverseIncorrectType),
    }
}

/// `equal?`: whether two values are structurally equal.
pub fn equalp(list: &[Expr], _env: &Env) -> (r: Result<Expr, EvalError>)
    ensures
        outcome(r) == equalp_sem(views(list@)),
{
    if list.len() != 2 {
        return Err(EvalError::IncorrectArgumentCount);
    }
    Ok(boolean(list[0] == list[1]))
}

/// `list?`: whether the argument is a list.
pub fn listp(list: &[Expr], _env: &Env) -> (r: Result<Expr, EvalError>)
    ensures
        outcome(r) == predicate_sem(Builtin::Listp, views(list@)),
{
    if list.len() != 1 {
        return Err(EvalError::IncorrectArgumentCount);
    }
    match &list[0] {
        Expr::List(_) => Ok(boolean(true)),
        _ => Ok(boolean(false)),
    }
}

/// `null?`: whether the argument is the empty list.
pub fn nullp(list: &[Expr], _env: &Env) -> (r: Result<Expr, EvalError>)
    ensures
        outcome(r) == predicate_sem(Builtin::Nullp, views(list@)),
{
    if list.len() != 1 {
        return Err(EvalError::IncorrectArgumentCount);
    }
    match &list[0] {
        Expr::List(l) => {
            proof {
                lemma_views(l@);
            }
            Ok(boolean(l.len() == 0))
        },
        _ => Ok(boolean(false)),
    }
}

/// `procedure?`: whether the argument is a closure or a native procedure.
pub fn procedurep(list: &[Expr], _env: &Env) -> (r: Result<Expr, EvalError>)
    ensures
        outcome(r) == predicate_sem(Builtin::Procedurep, views(list@)),
{
    if list.len() != 1 {
        return Err(EvalError::IncorrectArgumentCount);
    }
    match &list[0] {
        Expr::Lambda(_, _, _) => Ok(boolean(true)),
        Expr::Builtin(_) => Ok(boolean(true)),
        _ => Ok(boolean(false)),
    }
}

/// `number?`: whether the argument is an integer or a decimal.
pub fn numberp(list: &[Expr], _env: &Env) -> (r: Result<Expr, EvalError>)
    ensures
        outcome(r) == predicate_sem(Builtin::Numberp, views(list@)),
{
    if list.len() != 1 {
        return Err(EvalError::IncorrectArgumentCount);
    }
    match &list[0] {
        Expr::Literal(Literal::Number(_)) => Ok(boolean(true)),
        Expr::Literal(Literal::Float(_)) => Ok(boolean(true)),
        _ => Ok(boolean(false)),
    }
}

/// `symbol?`: whether the argument is an identifier.
pub fn symbolp(list: &[Expr], _env: &Env) -> (r: Result<Expr, EvalError>)
    ensures
        outcome(r) == predicate_sem(Builtin::Symbolp, views(list@)),
{
    if list.len() != 1 {
        return Err(EvalError::IncorrectArgumentCount);
    }
    match &list[0] {
        Expr::Var(_) => Ok(boolean(true)),
        _ => Ok(boolean(false)),
    }
}

/// `pair?`: whether the argument is a dotted pair or a list with items.
pub fn pairp(list: &[Expr], _env: &Env) -> (r: Result<Expr, EvalError>)
    ensures
        outcome(r) == predicate_sem(Builtin::Pairp, views(list@)),
{
    if list.len() != 1 {
        return Err(EvalError::IncorrectArgumentCount);
    }
    match &list[0] {
        Expr::DottedPair(_, _) => Ok(boolean(true)),
        Expr::List(l) => {
            proof {
                lemma_views(l@);
            }
            Ok(boolean(l.len() > 0))
        },
        _ => Ok(boolean(false)),
    }
}

/// `(apply proc obj... list)`.
pub fn apply(list: &[Expr], frame: usize, env: &mut Env, depth: usize) -> (r: Result<
    Expr,
    EvalError,
>)
    requires
        old(env).wf(),
    ensures
        final(env).wf(),
        final(env)@.frames.len() >= old(env)@.frames.len(),
        (outcome(r), final(env)@) == apply_builtin_sem(
            views(list@),
            frame as nat,
            old(env)@,
            depth as nat,
        ),
    decreases depth, 3nat,
{
    proof {
        lemma_views(list@);
    }
    if list.len() < 2 {
        return Err(EvalError::IncorrectArgumentCount);
    }
    if depth == 0 {
        return Err(EvalError::TooDeep);
    }
    match &list[list.len() - 1] {
        Expr::List(l) => {
            let mut objlist = copy_range(list, 1, list.len() - 1);
            extend_copies(&mut objlist, l.as_slice(), 0, l.len());
            proof {
                assert(views(l@).subrange(0, l.len() as int) =~= views(l@));
            }
            crate::eval::apply(&list[0], objlist, frame, env, depth - 1)
        },
        _ => Err(EvalError::ApplyExpectingList),
    }
}

/// `(display value)`.
pub fn display(list: &[Expr], env: &mut Env) -> (r: Result<Expr, EvalError>)
    requires
        old(env).wf(),
    ensures
        final(env).wf(),
        final(env)@.frames.len() == old(env)@.frames.len(),
        (outcome(r), final(env)@) == display_sem(views(list@), old(env)@),
{
    proof {
        lemma_views(list@);
    }
    if list.len() != 1 {
        return Err(EvalError::OutputPortsUnsupported);
    }
    env.write_line(list[0].to_string());
    Ok(Expr::Unspecified)
}

/// Evaluates the nodes of a loaded text one after the other.
fn run(program: &Vec<Expr>, frame: usize, env: &mut Env, depth: usize) -> (r: Result<
    Expr,
    EvalError,
>)
    requires
        old(env).wf(),
    ensures
        final(env).wf(),
        final(env)@.frames.len() >= old(env)@.frames.len(),
        (outcome(r), final(env)@) == run_sem(
            views(program@),
            0,
            frame as nat,
            old(env)@,
            depth as nat,
        ),
    decreases depth, 11nat,
{
    let ghost start = env@;
    let mut i: usize = 0;
    proof {
        lemma_views(program@);
    }
    while i < program.len()
        invariant
            env.wf(),
            i <= program.len(),
            views(program@).len() == program.len(),
            start == old(env)@,
            env@.frames.len() >= start.frames.len(),
            run_sem(views(program@), 0, frame as nat, start, depth as nat) == run_sem(
                views(program@),
                i as int,
                frame as nat,
                env@,
                depth as nat,
            ),
        decreases program.len() - i,
    {
        match crate::eval::eval(&program[i], frame, env, depth) {
            Ok(_) => {},
            Err(e) => {
                if e.needs_host() {
                    return Err(e);
                }
                env.write_line(String::from_str(e.message()));
            },
        }
        i += 1;
    }
    Ok(Expr::Unspecified)
}

/// `(load path)`.
pub fn load(list: &[Expr], frame: usize, env: &mut Env, depth: usize) -> (r: Result<
    Expr,
    EvalError,
>)
    requires
        old(env).wf(),
    ensures
        final(env).wf(),
        final(env)@.frames.len() >= old(env)@.frames.len(),
        (outcome(r), final(env)@) == load_sem(views(list@), frame as nat, old(env)@, depth as nat),
    decreases depth, 3nat,
{
    proof {
        lemma_views(list@);
    }
    if list.len() != 1 {
        return Err(EvalError::IncorrectArgumentCount);
    }
    if depth == 0 {
        return Err(EvalError::TooDeep);
    }
    let path = match &list[0] {
        Expr::Literal(Literal::String(path)) => path,
        _ => {
            return Err(EvalError::LoadIncorrectType);
        },
    };
    let source = match env.source(path) {
        Some(text) => text,
        None => {
            env.want_source(path.clone());
            return Err(EvalError::SourceRequired);
        },
    };
    match read_program(source.as_str()) {
        Ok(program) => run(&program, frame, env, depth - 1),
        Err(e) => {
            report_failure(env, &e);
            Ok(Expr::Unspecified)
        },
    }
}

/// `(read)`.
pub fn read(list: &[Expr], frame: usize, env: &mut Env, depth: usize) -> (r: Result<
    Expr,
    EvalError,
>)
    requires
        old(env).wf(),
    ensures
        final(env).wf(),
        final(env)@.frames.len() >= old(env)@.frames.len(),
        (outcome(r), final(env)@) == read_builtin_sem(
            views(list@),
            frame as nat,
            old(env)@,
            depth as nat,
        ),
    decreases depth, 3nat,
{
    proof {
        lemma_views(list@);
    }
    if list.len() != 0 {
        return Err(EvalError::InputPortsUnsupported);
    }
    if depth == 0 {
        return Err(EvalError::TooDeep);
    }
    let line = match env.next_input() {
        Some(line) => line,
        None => {
            return Err(EvalError::InputRequired);
        },
    };
    let mut text: Vec<char> = Vec::new();
    text.push('\'');
    crate::print::push_str(&mut text, line.as_str());
    proof {
        assert(text@ =~= seq!['\''] + line@);
    }
    let quoted = string_of(text.as_slice());
    match read_program(quoted.as_str()) {
        Ok(program) => {
            proof {
                lemma_views(program@);
            }
            if program.len() == 0 {
                return Err(EvalError::ReadFailed);
            }
            crate::eval::eval(&program[0], frame, env, depth - 1)
        },
        Err(e) => {
            report_failure(env, &e);
            Err(EvalError::ReadFailed)
        },
    }
}

/// Calls the native procedure that `b` names on `args`.
pub fn call_builtin(b: Builtin, args: &Vec<Expr>, frame: usize, env: &mut Env, depth: usize) -> (r:
    Result<Expr, EvalError>)
    requires
        old(env).wf(),
    ensures
        final(env).wf(),
        final(env)@.frames.len() >= old(env)@.frames.len(),
        (outcome(r), final(env)@) == builtin_sem(
            b,
            views(args@),
            frame as nat,
            old(env)@,
            depth as nat,
        ),
    decreases depth, 4nat,
{
    let items = args.as_slice();
    match b {
        Builtin::Equal => equal(items, env),
        Builtin::Lt => lt(items, env),
        Builtin::Lte => lte(items, env),
        Builtin::Gt => gt(items, env),
        Builtin::Gte => gte(items, env),
        Builtin::Add => self::add(items, env),
        Builtin::Sub => self::sub(items, env),
        Builtin::Mul => self::mul(items, env),
        Builtin::List => list(items, env),
        Builtin::Car => car(items, env),
        Builtin::Cdr => cdr(items, env),
        Builtin::Cons => cons(items, env),
        Builtin::Append => append(items, env),
        Builtin::Length => length(items, env),
        Builtin::Reverse => reverse(items, env),
        Builtin::Equalp => equalp(items, env),
        Builtin::Listp => listp(items, env),
        Builtin::Nullp => nullp(items, env),
        Builtin::Procedurep => procedurep(items, env),
        Builtin::Numberp => numberp(items, env),
        Builtin::Symbolp => symbolp(items, env),
        Builtin::Pairp => pairp(items, env),
        Builtin::Apply => apply(items, frame, env, depth),
        Builtin::Display => display(items, env),
        Builtin::Load => load(items, frame, env, depth),
        Builtin::Read => read(items, frame, env, depth),
    }
}

} // verus!
