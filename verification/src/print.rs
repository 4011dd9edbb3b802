//! The external representation: how a value is written.

use crate::ast::{Atom, Expr, Literal, Sexp};
use crate::decimal::text_of_decimal;
use crate::text::{int_text, push_int, string_of};
use vstd::prelude::*;

verus! {

/// How a literal is written: a decimal with its point, an integer in base
/// ten, `#t` or `#f`, a string between double quotes.
pub open spec fn print_atom(a: Atom) -> Seq<char> {
    match a {
        Atom::Float(d) => text_of_decimal(d),
        Atom::Number(n) => int_text(n),
        Atom::Bool(b) => if b {
            seq!['#', 't']
        } else {
            seq!['#', 'f']
        },
        Atom::String(s) => seq!['"'] + s + seq!['"'],
    }
}

/// How a value is written: a list between parentheses with single spaces
/// between its items, a dotted pair with ` . ` before its tail, an identifier
/// by its name, a procedure and the unspecified value by a marker.
pub open spec fn print_sexp(v: Sexp) -> Seq<char>
    decreases v, 1nat,
{
    match v {
        Sexp::DottedPair(items, tail) => seq!['('] + print_items(items) + seq![' ', '.', ' ']
            + print_sexp(*tail) + seq![')'],
        Sexp::List(items) => seq!['('] + print_items(items) + seq![')'],
        Sexp::Lambda(_, _, _) => "#<procedure>"@,
        Sexp::Var(name) => name,
        Sexp::Literal(a) => print_atom(a),
        Sexp::Builtin(_) => "#<built-in procedure>"@,
        Sexp::Unspecified => "#unspecified"@,
    }
}

/// The items of a list as they are written, separated by single spaces.
pub open spec fn print_items(items: Seq<Sexp>) -> Seq<char>
    decreases items, 0nat,
{
    if items.len() == 0 {
        Seq::empty()
    } else if items.len() == 1 {
        print_sexp(items[0])
    } else {
        print_items(items.drop_last()) + seq![' '] + print_sexp(items.last())
    }
}

/// Appends the characters of `s` to `out`.
pub fn push_str(out: &mut Vec<char>, s: &str)
    ensures
        final(out)@ == old(out)@ + s@,
{
    for c in it: s.chars()
        invariant
            it.seq() == s@,
            out@ == old(out)@ + it.seq().take(it.index() as int),
    {
        out.push(c);
        proof {
            assert(it.seq().take(it.index() + 1) =~= it.seq().take(it.index() as int).push(c));
        }
    }
    proof {
        assert(s@.take(s@.len() as int) =~= s@);
    }
}

/// Appends the written form of a literal to `out`.
pub fn write_literal(l: &Literal, out: &mut Vec<char>)
    ensures
        final(out)@ == old(out)@ + print_atom(l@),
{
    match l {
        Literal::Float(d) => {
            d.write_to(out);
        },
        Literal::Number(n) => {
            push_int(out, *n as i64);
        },
        Literal::Bool(b) => {
            out.push('#');
            if *b {
                out.push('t');
            } else {
                out.push('f');
            }
            proof {
                assert(out@ =~= old(out)@ + print_atom(l@));
            }
        },
        Literal::String(s) => {
            out.push('"');
            push_str(out, s.as_str());
            out.push('"');
            proof {
                assert(out@ =~= old(out)@ + print_atom(l@));
            }
        },
    }
}

/// Appends the written form of a run of nodes, separated by spaces, to `out`.
pub fn write_items(items: &Vec<Expr>, out: &mut Vec<char>)
    ensures
        final(out)@ == old(out)@ + print_items(crate::ast::views(items@)),
    decreases items, 0nat,
{
    let ghost all = crate::ast::views(items@);
    let mut i: usize = 0;
    while i < items.len()
        invariant
            i <= items.len(),
            all == crate::ast::views(items@),
            out@ == old(out)@ + print_items(all.take(i as int)),
        decreases items.len() - i,
    {
        if i > 0 {
            out.push(' ');
        }
        write_expr(&items[i], out);
        proof {
            let next = all.take(i + 1);
            assert(next.drop_last() =~= all.take(i as int));
            assert(next.last() == items@[i as int]@);
            if i == 0 {
                assert(all.take(0).len() == 0);
                assert(print_items(all.take(0)) =~= Seq::<char>::empty());
            }
            assert(out@ =~= old(out)@ + print_items(next));
        }
        i += 1;
    }
    proof {
        assert(all.take(i as int) =~= all);
    }
}

/// Appends the written form of a node to `out`.
pub fn write_expr(e: &Expr, out: &mut Vec<char>)
    ensures
        final(out)@ == old(out)@ + print_sexp(e@),
    decreases e, 1nat,
{
    match e {
        Expr::DottedPair(items, tail) => {
            out.push('(');
            write_items(items, out);
            out.push(' ');
            out.push('.');
            out.push(' ');
            write_expr(tail, out);
            out.push(')');
            proof {
                assert(out@ =~= old(out)@ + print_sexp(e@));
            }
        },
        Expr::List(items) => {
            out.push('(');
            write_items(items, out);
            out.push(')');
            proof {
                assert(out@ =~= old(out)@ + print_sexp(e@));
            }
        },
        Expr::Lambda(_, _, _) => {
            push_str(out, "#<procedure>");
        },
        Expr::Var(name) => {
            push_str(out, name.as_str());
        },
        Expr::Literal(l) => {
            write_literal(l, out);
        },
        Expr::Builtin(_) => {
            push_str(out, "#<built-in procedure>");
        },
        Expr::Unspecified => {
            push_str(out, "#unspecified");
        },
    }
}

impl Literal {
    /// The written form of the literal.
    pub fn print(&self) -> (s: String)
        ensures
            s@ == print_atom(self@),
    {
        let mut out: Vec<char> = Vec::new();
        write_literal(self, &mut out);
        proof {
            assert(out@ =~= print_atom(self@));
        }
        string_of(out.as_slice())
    }
}

impl Expr {
    /// The written form of the node.
    pub fn to_string(&self) -> (s: String)
        ensures
            s@ == print_sexp(self@),
    {
        let mut out: Vec<char> = Vec::new();
        write_expr(self, &mut out);
        proof {
            assert(out@ =~= print_sexp(self@));
        }
        string_of(out.as_slice())
    }
}

} // verus!
