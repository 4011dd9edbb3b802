//! Tokens, literals and the node type that serves both as parsed syntax and
//! as a value at run time, each with the mathematical value the contracts of
//! this crate speak of.

use crate::decimal::{decimal_compare, lex_compare, lex_order, Comparison, Decimal, DecimalModel};
use crate::text::chars_of;
use std::cmp::Ordering;
use vstd::prelude::*;

verus! {

/// The kinds of lexical token.
#[derive(Clone, Copy, Debug, PartialEq, Eq, Structural)]
pub enum TokenType {
    LParen,
    RParen,
    Plus,
    Minus,
    Star,
    Slash,
    Dot,
    Bool,
    Number,
    Float,
    String,
    Identifier,
    Quote,
    EOF,
}

/// The value of a literal.
pub enum Atom {
    Float(DecimalModel),
    Number(int),
    Bool(bool),
    String(Seq<char>),
}

/// A self-evaluating constant.
#[derive(Debug)]
pub enum Literal {
    Float(Decimal),
    Number(i32),
    Bool(bool),
    String(String),
}

impl View for Literal {
    type V = Atom;

    open spec fn view(&self) -> Atom {
        match self {
            Literal::Float(d) => Atom::Float(d@),
            Literal::Number(n) => Atom::Number(*n as int),
            Literal::Bool(b) => Atom::Bool(*b),
            Literal::String(s) => Atom::String(s@),
        }
    }
}

impl Literal {
    /// Whether the literal is a string.
    pub fn is_string(&self) -> (r: bool)
        ensures
            r == (self@ is String),
    {
        match self {
            Literal::String(_) => true,
            _ => false,
        }
    }

    /// The text of a string literal.
    pub fn to_string(&self) -> (r: Option<String>)
        ensures
            match r {
                Some(s) => self@ == Atom::String(s@),
                None => !(self@ is String),
            },
    {
        match self {
            Literal::String(s) => Some(s.clone()),
            _ => None,
        }
    }
}

impl Clone for Literal {
    fn clone(&self) -> (res: Self)
        ensures
            res@ == self@,
    {
        match self {
            Literal::Float(d) => Literal::Float(d.clone()),
            Literal::Number(n) => Literal::Number(*n),
            Literal::Bool(b) => Literal::Bool(*b),
            Literal::String(s) => Literal::String(s.clone()),
        }
    }
}

/// Whether two literals are of the same kind and hold the same value.
fn literal_equal(a: &Literal, b: &Literal) -> (r: bool)
    ensures
        r == (a@ == b@),
{
    match (a, b) {
        (Literal::Float(x), Literal::Float(y)) => *x == *y,
        (Literal::Number(x), Literal::Number(y)) => *x == *y,
        (Literal::Bool(x), Literal::Bool(y)) => *x == *y,
        (Literal::String(x), Literal::String(y)) => *x == *y,
        _ => false,
    }
}

impl PartialEq for Literal {
    fn eq(&self, other: &Self) -> (r: bool) {
        literal_equal(self, other)
    }
}

impl vstd::std_specs::cmp::PartialEqSpecImpl for Literal {
    open spec fn obeys_eq_spec() -> bool {
        true
    }

    /// Literals are equal when they are of the same kind and hold the same value.
    open spec fn eq_spec(&self, other: &Self) -> bool {
        self@ == other@
    }
}

/// How two literals order: by kind first, a decimal before an integer, an
/// integer before a boolean and a boolean before a string; then by value,
/// numbers by size, false before true, and strings as in the dictionary.
pub open spec fn atom_order(a: Atom, b: Atom) -> Comparison {
    match (a, b) {
        (Atom::Float(x), Atom::Float(y)) => decimal_compare(x, y),
        (Atom::Float(_), _) => Comparison::Less,
        (Atom::Number(_), Atom::Float(_)) => Comparison::Greater,
        (Atom::Number(x), Atom::Number(y)) => if x < y {
            Comparison::Less
        } else if x > y {
            Comparison::Greater
        } else {
            Comparison::Equal
        },
        (Atom::Number(_), _) => Comparison::Less,
        (Atom::Bool(_), Atom::String(_)) => Comparison::Less,
        (Atom::Bool(x), Atom::Bool(y)) => if !x && y {
            Comparison::Less
        } else if x && !y {
            Comparison::Greater
        } else {
            Comparison::Equal
        },
        (Atom::Bool(_), _) => Comparison::Greater,
        (Atom::String(x), Atom::String(y)) => lex_compare(x, y),
        (Atom::String(_), _) => Comparison::Greater,
    }
}

/// How two literals order.
pub fn literal_order(a: &Literal, b: &Literal) -> (c: Comparison)
    ensures
        c == atom_order(a@, b@),
{
    match a {
        Literal::Float(x) => match b {
            Literal::Float(y) => x.compare(y),
            _ => Comparison::Less,
        },
        Literal::Number(x) => match b {
            Literal::Float(_) => Comparison::Greater,
            Literal::Number(y) => if *x < *y {
                Comparison::Less
            } else if *x > *y {
                Comparison::Greater
            } else {
                Comparison::Equal
            },
            _ => Comparison::Less,
        },
        Literal::Bool(x) => match b {
            Literal::String(_) => Comparison::Less,
            Literal::Bool(y) => if !*x && *y {
                Comparison::Less
            } else if *x && !*y {
                Comparison::Greater
            } else {
                Comparison::Equal
            },
            _ => Comparison::Greater,
        },
        Literal::String(x) => match b {
            Literal::String(y) => {
                let xs = chars_of(x.as_str());
                let ys = chars_of(y.as_str());
                lex_order(xs.as_slice(), ys.as_slice())
            },
            _ => Comparison::Greater,
        },
    }
}

impl PartialOrd for Literal {
    fn partial_cmp(&self, other: &Self) -> (r: Option<Ordering>) {
        match literal_order(self, other) {
            Comparison::Less => Some(Ordering::Less),
            Comparison::Equal => Some(Ordering::Equal),
            Comparison::Greater => Some(Ordering::Greater),
        }
    }
}

impl vstd::std_specs::cmp::PartialOrdSpecImpl for Literal {
    open spec fn obeys_partial_cmp_spec() -> bool {
        true
    }

    /// Any two literals can be ordered.
    open spec fn partial_cmp_spec(&self, other: &Self) -> Option<Ordering> {
        match atom_order(self@, other@) {
            Comparison::Less => Some(Ordering::Less),
            Comparison::Equal => Some(Ordering::Equal),
            Comparison::Greater => Some(Ordering::Greater),
        }
    }
}

/// The value of a token.
pub struct TokenModel {
    pub ttype: TokenType,
    pub lexeme: Seq<char>,
    pub line: nat,
    pub literal: Option<Atom>,
}

/// One lexical token: its kind, the text it was read from, the line it
/// stands on, and the literal it denotes where it is one.
#[derive(Debug)]
pub struct Token {
    pub ttype: TokenType,
    pub lexeme: String,
    pub line: u32,
    pub literal: Option<Literal>,
}

impl View for Token {
    type V = TokenModel;

    open spec fn view(&self) -> TokenModel {
        TokenModel {
            ttype: self.ttype,
            lexeme: self.lexeme@,
            line: self.line as nat,
            literal: match self.literal {
                Some(l) => Some(l@),
                None => None,
            },
        }
    }
}

impl Token {
    /// A token of the given kind, text, line and literal.
    pub fn new(ttype: TokenType, lexeme: String, line: u32, literal: Option<Literal>) -> (t: Token)
        ensures
            t.ttype == ttype,
            t.lexeme == lexeme,
            t.line == line,
            t.literal == literal,
    {
        Token { ttype, lexeme, line, literal }
    }
}

impl Clone for Token {
    fn clone(&self) -> (res: Self)
        ensures
            res@ == self@,
    {
        Token {
            ttype: self.ttype,
            lexeme: self.lexeme.clone(),
            line: self.line,
            literal: match &self.literal {
                Some(l) => Some(l.clone()),
                None => None,
            },
        }
    }
}

/// The views of a run of tokens.
pub open spec fn token_views(tokens: Seq<Token>) -> Seq<TokenModel> {
    Seq::new(tokens.len(), |i: int| tokens[i]@)
}

/// The native procedures.
#[derive(Clone, Copy, Debug, PartialEq, Eq, Structural)]
pub enum Builtin {
    Equal,
    Lt,
    Lte,
    Gt,
    Gte,
    Add,
    Sub,
    Mul,
    List,
    Car,
    Cdr,
    Cons,
    Append,
    Length,
    Reverse,
    Equalp,
    Listp,
    Nullp,
    Numberp,
    Procedurep,
    Symbolp,
    Pairp,
    Apply,
    Load,
    Read,
    Display,
}

/// The value of a node: the same shape as `Expr`, over sequences and
/// unbounded integers. A closure names the frame it was created in by the
/// frame's index.
pub enum Sexp {
    DottedPair(Seq<Sexp>, Box<Sexp>),
    List(Seq<Sexp>),
    Lambda(Seq<Sexp>, Seq<Sexp>, nat),
    Var(Seq<char>),
    Literal(Atom),
    Builtin(Builtin),
    Unspecified,
}

/// A node: parsed syntax and run-time value alike.
///
/// `Lambda` holds the parameter list, the body, and the handle of the frame
/// that was current when the closure was made. `Builtin` names a native
/// procedure.
#[derive(Debug)]
pub enum Expr {
    DottedPair(Vec<Expr>, Box<Expr>),
    List(Vec<Expr>),
    Lambda(Vec<Expr>, Vec<Expr>, usize),
    Var(String),
    Literal(Literal),
    Builtin(Builtin),
    Unspecified,
}

/// The values of a run of nodes.
pub open spec fn views(s: Seq<Expr>) -> Seq<Sexp>
    decreases s,
{
    Seq::new(
        s.len(),
        |i: int|
            if 0 <= i < s.len() {
                sexp_of(s[i])
            } else {
                Sexp::Unspecified
            },
    )
}

/// The values of a run of nodes are the values of its nodes, one by one.
pub proof fn lemma_views(s: Seq<Expr>)
    ensures
        views(s).len() == s.len(),
        forall|i: int| 0 <= i < s.len() ==> #[trigger] views(s)[i] == s[i]@,
{
}

/// The value of a node.
pub open spec fn sexp_of(e: Expr) -> Sexp
    decreases e,
{
    match e {
        Expr::DottedPair(items, tail) => Sexp::DottedPair(views(items@), Box::new(sexp_of(*tail))),
        Expr::List(items) => Sexp::List(views(items@)),
        Expr::Lambda(params, body, frame) => Sexp::Lambda(
            views(params@),
            views(body@),
            frame as nat,
        ),
        Expr::Var(name) => Sexp::Var(name@),
        Expr::Literal(l) => Sexp::Literal(l@),
        Expr::Builtin(b) => Sexp::Builtin(b),
        Expr::Unspecified => Sexp::Unspecified,
    }
}

impl View for Expr {
    type V = Sexp;

    open spec fn view(&self) -> Sexp {
        sexp_of(*self)
    }
}

/// Structural equality of two values. Literals and identifiers are equal when
/// they hold the same value; lists when they have the same length and equal
/// items in the same order; dotted pairs when, besides, their tails are equal.
/// A procedure and the unspecified value are equal to nothing, themselves
/// included.
pub open spec fn sexp_equal(a: Sexp, b: Sexp) -> bool
    decreases a,
{
    match (a, b) {
        (Sexp::Literal(x), Sexp::Literal(y)) => x == y,
        (Sexp::Var(x), Sexp::Var(y)) => x == y,
        (Sexp::List(x), Sexp::List(y)) => all_sexp_equal(x, y),
        (Sexp::DottedPair(x, s), Sexp::DottedPair(y, t)) => sexp_equal(*s, *t) && all_sexp_equal(
            x,
            y,
        ),
        _ => false,
    }
}

/// Whether two runs have the same length and structurally equal items at
/// every position.
pub open spec fn all_sexp_equal(xs: Seq<Sexp>, ys: Seq<Sexp>) -> bool
    decreases xs,
{
    if xs.len() != ys.len() {
        false
    } else if xs.len() == 0 {
        true
    } else {
        sexp_equal(xs.last(), ys.last()) && all_sexp_equal(xs.drop_last(), ys.drop_last())
    }
}

/// Two runs are equal exactly when they are equally long and equal position
/// by position.
pub proof fn lemma_all_sexp_equal(xs: Seq<Sexp>, ys: Seq<Sexp>)
    ensures
        all_sexp_equal(xs, ys) <==> (xs.len() == ys.len() && forall|i: int|
            0 <= i < xs.len() ==> sexp_equal(#[trigger] xs[i], ys[i])),
    decreases xs.len(),
{
    if xs.len() == ys.len() && xs.len() > 0 {
        lemma_all_sexp_equal(xs.drop_last(), ys.drop_last());
        let n = xs.len() - 1;
        if all_sexp_equal(xs, ys) {
            assert forall|i: int| 0 <= i < xs.len() implies sexp_equal(#[trigger] xs[i], ys[i]) by {
                if i < n {
                    assert(xs.drop_last()[i] == xs[i]);
                    assert(ys.drop_last()[i] == ys[i]);
                }
            }
        }
        if forall|i: int| 0 <= i < xs.len() ==> sexp_equal(#[trigger] xs[i], ys[i]) {
            assert forall|i: int| 0 <= i < n implies sexp_equal(
                #[trigger] xs.drop_last()[i],
                ys.drop_last()[i],
            ) by {
                assert(xs.drop_last()[i] == xs[i]);
                assert(ys.drop_last()[i] == ys[i]);
            }
            assert(sexp_equal(xs[n], ys[n]));
        }
    }
}

/// Whether a value counts as true in a test: everything but the boolean false.
pub open spec fn is_truthy(v: Sexp) -> bool {
    v != Sexp::Literal(Atom::Bool(false))
}

/// A deep copy of a run of nodes.
pub fn copy_all(items: &Vec<Expr>) -> (out: Vec<Expr>)
    ensures
        views(out@) == views(items@),
        out.len() == items.len(),
    decreases items,
{
    let mut out: Vec<Expr> = Vec::new();
    let mut i: usize = 0;
    while i < items.len()
        invariant
            i <= items.len(),
            out.len() == i,
            forall|k: int| 0 <= k < i ==> (#[trigger] out@[k])@ == items@[k]@,
        decreases items.len() - i,
    {
        let c = copy_expr(&items[i]);
        out.push(c);
        i += 1;
    }
    proof {
        assert(views(out@) =~= views(items@));
    }
    out
}

/// A deep copy of a node.
pub fn copy_expr(e: &Expr) -> (res: Expr)
    ensures
        res@ == e@,
    decreases e,
{
    match e {
        Expr::DottedPair(items, tail) => {
            let t = copy_expr(tail);
            Expr::DottedPair(copy_all(items), Box::new(t))
        },
        Expr::List(items) => Expr::List(copy_all(items)),
        Expr::Lambda(params, body, frame) => Expr::Lambda(copy_all(params), copy_all(body), *frame),
        Expr::Var(name) => Expr::Var(name.clone()),
        Expr::Literal(l) => Expr::Literal(l.clone()),
        Expr::Builtin(b) => Expr::Builtin(*b),
        Expr::Unspecified => Expr::Unspecified,
    }
}

impl Clone for Expr {
    fn clone(&self) -> (res: Self)
        ensures
            res@ == self@,
    {
        copy_expr(self)
    }
}

/// Whether two runs of nodes have the same length and pairwise equal items.
fn all_equal(a: &Vec<Expr>, b: &Vec<Expr>) -> (r: bool)
    ensures
        r == all_sexp_equal(views(a@), views(b@)),
    decreases a,
{
    if a.len() != b.len() {
        return false;
    }
    let mut i: usize = 0;
    while i < a.len()
        invariant
            i <= a.len(),
            a.len() == b.len(),
            all_sexp_equal(views(a@).take(i as int), views(b@).take(i as int)),
        decreases a.len() - i,
    {
        let same = expr_equal(&a[i], &b[i]);
        proof {
            let xs = views(a@);
            let ys = views(b@);
            lemma_all_sexp_equal(xs.take(i + 1), ys.take(i + 1));
            lemma_all_sexp_equal(xs.take(i as int), ys.take(i as int));
            lemma_all_sexp_equal(xs, ys);
            assert(xs.take(i + 1)[i as int] == xs[i as int]);
            assert(ys.take(i + 1)[i as int] == ys[i as int]);
            if same {
                assert forall|k: int| 0 <= k < i + 1 implies sexp_equal(
                    #[trigger] xs.take(i + 1)[k],
                    ys.take(i + 1)[k],
                ) by {
                    if k < i {
                        assert(xs.take(i as int)[k] == xs.take(i + 1)[k]);
                        assert(ys.take(i as int)[k] == ys.take(i + 1)[k]);
                    }
                }
            }
        }
        if !same {
            return false;
        }
        i += 1;
    }
    proof {
        assert(views(a@).take(i as int) =~= views(a@));
        assert(views(b@).take(i as int) =~= views(b@));
    }
    true
}

/// Structural equality of two nodes.
fn expr_equal(a: &Expr, b: &Expr) -> (r: bool)
    ensures
        r == sexp_equal(a@, b@),
    decreases a,
{
    match a {
        Expr::Literal(x) => match b {
            Expr::Literal(y) => literal_equal(x, y),
            _ => false,
        },
        Expr::Var(x) => match b {
            Expr::Var(y) => *x == *y,
            _ => false,
        },
        Expr::List(x) => match b {
            Expr::List(y) => all_equal(x, y),
            _ => false,
        },
        Expr::DottedPair(x, s) => match b {
            Expr::DottedPair(y, t) => {
                if !expr_equal(s, t) {
                    false
                } else {
                    all_equal(x, y)
                }
            },
            _ => false,
        },
        _ => false,
    }
}

impl PartialEq for Expr {
    fn eq(&self, other: &Self) -> (r: bool) {
        expr_equal(self, other)
    }
}

impl vstd::std_specs::cmp::PartialEqSpecImpl for Expr {
    open spec fn obeys_eq_spec() -> bool {
        true
    }

    open spec fn eq_spec(&self, other: &Self) -> bool {
        sexp_equal(self@, other@)
    }
}

impl Expr {
    /// Whether the node is a list.
    pub fn is_list(&self) -> (r: bool)
        ensures
            r == (self@ is List),
    {
        match self {
            Expr::List(_) => true,
            _ => false,
        }
    }

    /// The items of a list.
    pub fn to_vec(&self) -> (r: Option<Vec<Expr>>)
        ensures
            match r {
                Some(items) => self@ == Sexp::List(views(items@)),
                None => !(self@ is List),
            },
    {
        match self {
            Expr::List(l) => Some(copy_all(l)),
            _ => None,
        }
    }

    /// Whether the node is a literal.
    pub fn is_literal(&self) -> (r: bool)
        ensures
            r == (self@ is Literal),
    {
        match self {
            Expr::Literal(_) => true,
            _ => false,
        }
    }

    /// The literal that the node wraps.
    pub fn to_literal(&self) -> (r: Option<Literal>)
        ensures
            match r {
                Some(l) => self@ == Sexp::Literal(l@),
                None => !(self@ is Literal),
            },
    {
        match self {
            Expr::Literal(l) => Some(l.clone()),
            _ => None,
        }
    }

    /// Whether the node is an identifier.
    pub fn is_var(&self) -> (r: bool)
        ensures
            r == (self@ is Var),
    {
        match self {
            Expr::Var(_) => true,
            _ => false,
        }
    }

    /// The name of an identifier.
    pub fn from_var(&self) -> (r: Option<String>)
        ensures
            match r {
                Some(name) => self@ == Sexp::Var(name@),
                None => !(self@ is Var),
            },
    {
        match self {
            Expr::Var(v) => Some(v.clone()),
            _ => None,
        }
    }

    /// Whether the node is a dotted pair.
    pub fn is_dotted_pair(&self) -> (r: bool)
        ensures
            r == (self@ is DottedPair),
    {
        match self {
            Expr::DottedPair(_, _) => true,
            _ => false,
        }
    }

    /// The items and the tail of a dotted pair.
    pub fn from_dotted_pair(&self) -> (r: Option<(Vec<Expr>, Box<Expr>)>)
        ensures
            match r {
                Some((items, tail)) => self@ == Sexp::DottedPair(views(items@), Box::new(tail@)),
                None => !(self@ is DottedPair),
            },
    {
        match self {
            Expr::DottedPair(car, cdr) => {
                let tail = copy_expr(cdr);
                Some((copy_all(car), Box::new(tail)))
            },
            _ => None,
        }
    }

    /// Whether the node is the value that side-effecting forms produce.
    pub fn is_unspecified(&self) -> (r: bool)
        ensures
            r == (self@ is Unspecified),
    {
        match self {
            Expr::Unspecified => true,
            _ => false,
        }
    }

    /// Whether the node counts as true in a test.
    pub fn is_true(&self) -> (r: bool)
        ensures
            r == is_truthy(self@),
    {
        match self {
            Expr::Literal(Literal::Bool(false)) => false,
            _ => true,
        }
    }
}

} // verus!
