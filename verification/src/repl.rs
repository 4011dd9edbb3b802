//! What the host shows: for every form of a text its value or the failure,
//! in order. The host itself only reads lines and files and prints.

use crate::ast::{views, Expr, Sexp};

use crate::env::{emit, Env, EnvModel};
use crate::error::EvalError;
use crate::eval::evaluate;
use crate::print::print_sexp;
use crate::reader::{read_program, read_sem, ReadError};
use crate::semantics::{evaluate_sem, position_line, report};
use crate::text::{push_nat, string_of};
use vstd::prelude::*;

verus! {

/// How far a run of forms has come.
#[derive(Clone, Copy, Debug, PartialEq, Eq, Structural)]
pub enum Progress {
    /// Every form was evaluated.
    Done,
    /// The form at the given index needs something from the host, which the
    /// failure names. The run is to be taken up again at that form.
    Waiting(usize, EvalError),
}

/// The forms from `i` on evaluated in order, each as a whole. The value of a
/// form is written out, and so is a failure, after which the next form is
/// taken up. A request to the host ends the run at the form that makes it.
pub open spec fn run_forms_sem(items: Seq<Sexp>, i: int, frame: nat, env: EnvModel, depth: nat) -> (
    Progress,
    EnvModel,
)
    decreases items.len() - i,
{
    if i < 0 || i >= items.len() {
        (Progress::Done, env)
    } else {
        let (r, env1) = evaluate_sem(items[i], frame, env, depth);
        match r {
            Err(e) => if e.is_request() {
                (Progress::Waiting(i as usize, e), env1)
            } else {
                run_forms_sem(items, i + 1, frame, emit(env1, e.text()), depth)
            },
            Ok(v) => run_forms_sem(items, i + 1, frame, emit(env1, print_sexp(v)), depth),
        }
    }
}

/// Evaluates the forms of `program` from `from` on and writes out what each
/// comes to.
pub fn run_forms(program: &Vec<Expr>, from: usize, frame: usize, env: &mut Env, depth: usize) -> (p:
    Progress)
    requires
        old(env).wf(),
    ensures
        final(env).wf(),
        (p, final(env)@) == run_forms_sem(
            views(program@),
            from as int,
            frame as nat,
            old(env)@,
            depth as nat,
        ),
{
    let mut i: usize = from;
    proof {
        assert(views(program@).len() == program.len());
    }
    while i < program.len()
        invariant
            env.wf(),
            views(program@).len() == program.len(),
            run_forms_sem(views(program@), from as int, frame as nat, old(env)@, depth as nat)
                == run_forms_sem(views(program@), i as int, frame as nat, env@, depth as nat),
        decreases program.len() - i,
    {
        proof {
            assert(views(program@)[i as int] == program@[i as int]@);
        }
        match evaluate(&program[i], frame, env, depth) {
            Ok(v) => {
                env.write_line(v.to_string());
            },
            Err(e) => {
                if e.needs_host() {
                    return Progress::Waiting(i, e);
                }
                env.write_line(String::from_str(e.message()));
            },
        }
        i += 1;
    }
    Progress::Done
}

/// Writes out why and where reading failed.
pub fn report_failure(env: &mut Env, e: &ReadError)
    requires
        old(env).wf(),
    ensures
        final(env).wf(),
        final(env)@ == report(old(env)@, *e),
{
    env.write_line(String::from_str(e.kind.message()));
    let mut line: Vec<char> = Vec::new();
    crate::print::push_str(&mut line, "pos: ");
    push_nat(&mut line, e.position as u64);
    proof {
        assert(line@ =~= position_line(e.position as nat));
    }
    env.write_line(string_of(line.as_slice()));
}

/// Reads the forms of `source`. Where it cannot be read, the failure is
/// written out and there are no forms.
pub fn read_source(source: &str, env: &mut Env) -> (r: Option<Vec<Expr>>)
    requires
        old(env).wf(),
    ensures
        final(env).wf(),
        match r {
            Some(program) => read_sem(source@) == Ok::<Seq<Sexp>, ReadError>(views(program@))
                && final(env)@ == old(env)@,
            None => read_sem(source@) matches Err(e) && final(env)@ == report(old(env)@, e),
        },
{
    match read_program(source) {
        Ok(program) => Some(program),
        Err(e) => {
            report_failure(env, &e);
            None
        },
    }
}

} // verus!
