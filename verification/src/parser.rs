//! The reader: from a run of tokens to the nodes they spell.
//!
//! ```text
//! program := datum*
//! datum   := "'" datum | literal | identifier | list
//! list    := "(" ")" | "(" datum+ ")" | "(" datum+ "." datum ")"
//! ```
//!
//! `'x` reads as the list `(quote x)`. A dotted tail that is itself a list is
//! spliced into the items before it, so that no dotted pair ever ends in a
//! list.

use crate::ast::{token_views, views, Expr, Sexp, Token, TokenModel, TokenType};
use crate::error::ReadErrorKind;
use vstd::prelude::*;

verus! {

/// Whether the tokens are used up at `pos`: there is none there, or the end
/// marker.
pub open spec fn at_end(tokens: Seq<TokenModel>, pos: int) -> bool {
    pos < 0 || pos >= tokens.len() || tokens[pos].ttype == TokenType::EOF
}

/// Whether a token of kind `t` stands at `pos`.
pub open spec fn holds(tokens: Seq<TokenModel>, pos: int, t: TokenType) -> bool {
    !at_end(tokens, pos) && tokens[pos].ttype == t
}

/// Whether a token of one of the kinds `types` stands at `pos`.
pub open spec fn holds_any(tokens: Seq<TokenModel>, pos: int, types: Seq<TokenType>) -> bool {
    exists|k: int| 0 <= k < types.len() && holds(tokens, pos, #[trigger] types[k])
}

/// The value of a result: that of the node it holds, or the failure.
pub open spec fn read_outcome(r: Result<Expr, ReadErrorKind>) -> Result<Sexp, ReadErrorKind> {
    match r {
        Ok(e) => Ok(e@),
        Err(k) => Err(k),
    }
}

/// `(quote datum)`.
pub open spec fn quoted(datum: Sexp) -> Sexp {
    Sexp::List(seq![Sexp::Var("quote"@), datum])
}

/// The datum at `pos` and the position after it: a quote mark and the datum
/// it quotes, or a plain datum.
pub open spec fn parse_quote(tokens: Seq<TokenModel>, pos: int) -> (
    Result<Sexp, ReadErrorKind>,
    int,
)
    decreases tokens.len() - pos, 3nat,
{
    if holds(tokens, pos, TokenType::Quote) {
        let (r, next) = parse_quote(tokens, pos + 1);
        match r {
            Ok(datum) => (Ok(quoted(datum)), next),
            Err(e) => (Err(e), next),
        }
    } else {
        parse_datum(tokens, pos)
    }
}

/// A literal or an identifier where one stands at `pos`, or else a list.
pub open spec fn parse_datum(tokens: Seq<TokenModel>, pos: int) -> (
    Result<Sexp, ReadErrorKind>,
    int,
)
    decreases tokens.len() - pos, 2nat,
{
    match parse_simple(tokens, pos) {
        Some(found) => found,
        None => parse_list(tokens, pos),
    }
}

/// The literal or identifier at `pos`, where one stands there. A literal
/// token that carries no literal is a failure.
pub open spec fn parse_simple(tokens: Seq<TokenModel>, pos: int) -> Option<
    (Result<Sexp, ReadErrorKind>, int),
> {
    if holds(tokens, pos, TokenType::Number) || holds(tokens, pos, TokenType::Float) || holds(
        tokens,
        pos,
        TokenType::Bool,
    ) || holds(tokens, pos, TokenType::String) {
        match tokens[pos].literal {
            Some(a) => Some((Ok(Sexp::Literal(a)), pos + 1)),
            None => Some((Err(ReadErrorKind::MalformedToken), pos + 1)),
        }
    } else if holds(tokens, pos, TokenType::Identifier) {
        Some((Ok(Sexp::Var(tokens[pos].lexeme)), pos + 1))
    } else {
        None
    }
}

/// The list that opens at `pos`.
pub open spec fn parse_list(tokens: Seq<TokenModel>, pos: int) -> (
    Result<Sexp, ReadErrorKind>,
    int,
)
    decreases tokens.len() - pos, 1nat,
{
    if holds(tokens, pos, TokenType::LParen) {
        if holds(tokens, pos + 1, TokenType::RParen) {
            (Ok(Sexp::List(Seq::empty())), pos + 2)
        } else {
            parse_items(tokens, pos + 1, Seq::empty())
        }
    } else {
        (Err(ReadErrorKind::ExpectingList), pos)
    }
}

/// The list with the items `acc` and those that follow from `pos` on, up to
/// its closing parenthesis. After a dot comes exactly one datum and the
/// closing parenthesis; where that datum is a list, its items are spliced in.
pub open spec fn parse_items(tokens: Seq<TokenModel>, pos: int, acc: Seq<Sexp>) -> (
    Result<Sexp, ReadErrorKind>,
    int,
)
    decreases tokens.len() - pos, 4nat,
{
    let (r, next) = parse_quote(tokens, pos);
    match r {
        Err(e) => (Err(e), next),
        Ok(datum) => if !(pos < next <= tokens.len()) {
            (Err(ReadErrorKind::ExpectingList), next)
        } else if holds(tokens, next, TokenType::Dot) {
            let (t, after) = parse_quote(tokens, next + 1);
            match t {
                Err(e) => (Err(e), after),
                Ok(tail) => if holds(tokens, after, TokenType::RParen) {
                    (Ok(dotted(acc.push(datum), tail)), after + 1)
                } else {
                    (Err(ReadErrorKind::ExpectingRightParen), after)
                },
            }
        } else if holds(tokens, next, TokenType::RParen) {
            (Ok(Sexp::List(acc.push(datum))), next + 1)
        } else {
            parse_items(tokens, next, acc.push(datum))
        },
    }
}

/// The items before a dot together with the datum after it: one list where
/// that datum is a list, a dotted pair otherwise.
pub open spec fn dotted(items: Seq<Sexp>, tail: Sexp) -> Sexp {
    match tail {
        Sexp::List(rest) => Sexp::List(items + rest),
        _ => Sexp::DottedPair(items, Box::new(tail)),
    }
}

/// The data from `pos` up to the end of the tokens, after those in `acc`.
pub open spec fn parse_all(tokens: Seq<TokenModel>, pos: int, acc: Seq<Sexp>) -> (
    Result<Seq<Sexp>, ReadErrorKind>,
    int,
)
    decreases tokens.len() - pos,
{
    if at_end(tokens, pos) {
        (Ok(acc), pos)
    } else {
        let (r, next) = parse_quote(tokens, pos);
        match r {
            Err(e) => (Err(e), next),
            Ok(datum) => if !(pos < next <= tokens.len()) {
                (Err(ReadErrorKind::ExpectingList), next)
            } else {
                parse_all(tokens, next, acc.push(datum))
            },
        }
    }
}

/// Whether a value is in normal form: no dotted pair in it is without items
/// or ends in a list.
pub open spec fn is_normal(v: Sexp) -> bool
    decreases v, 1nat,
{
    match v {
        Sexp::DottedPair(items, tail) => items.len() > 0 && !(*tail is List) && all_normal(items)
            && is_normal(*tail),
        Sexp::List(items) => all_normal(items),
        Sexp::Lambda(params, body, _) => all_normal(params) && all_normal(body),
        _ => true,
    }
}

/// Whether every value of a run is in normal form.
pub open spec fn all_normal(items: Seq<Sexp>) -> bool
    decreases items, 0nat,
{
    items.len() == 0 || (is_normal(items.last()) && all_normal(items.drop_last()))
}

/// A run with one more value is normal when the run and the value are.
pub proof fn lemma_all_normal_push(items: Seq<Sexp>, v: Sexp)
    ensures
        all_normal(items.push(v)) == (all_normal(items) && is_normal(v)),
{
    assert(items.push(v).drop_last() =~= items);
    assert(items.push(v).last() == v);
}

/// Two runs joined are normal when both are.
pub proof fn lemma_all_normal_concat(a: Seq<Sexp>, b: Seq<Sexp>)
    ensures
        all_normal(a + b) == (all_normal(a) && all_normal(b)),
    decreases b.len(),
{
    if b.len() == 0 {
        assert(a + b =~= a);
    } else {
        lemma_all_normal_concat(a, b.drop_last());
        assert((a + b).drop_last() =~= a + b.drop_last());
        assert((a + b).last() == b.last());
    }
}

/// A run is normal exactly when each of its values is.
pub proof fn lemma_all_normal(items: Seq<Sexp>)
    ensures
        all_normal(items) <==> forall|i: int| 0 <= i < items.len() ==> is_normal(#[trigger] items[i]),
    decreases items.len(),
{
    if items.len() > 0 {
        lemma_all_normal(items.drop_last());
        if all_normal(items) {
            assert forall|i: int| 0 <= i < items.len() implies is_normal(#[trigger] items[i]) by {
                if i < items.len() - 1 {
                    assert(items.drop_last()[i] == items[i]);
                }
            }
        }
        if forall|i: int| 0 <= i < items.len() ==> is_normal(#[trigger] items[i]) {
            assert forall|i: int| 0 <= i < items.len() - 1 implies is_normal(
                #[trigger] items.drop_last()[i],
            ) by {
                assert(items.drop_last()[i] == items[i]);
            }
            assert(is_normal(items[items.len() - 1]));
        }
    }
}

/// What is read is in normal form: a datum with its quote marks.
pub proof fn lemma_quote_normal(tokens: Seq<TokenModel>, pos: int)
    ensures
        parse_quote(tokens, pos).0 matches Ok(v) ==> is_normal(v),
    decreases tokens.len() - pos, 3nat,
{
    if holds(tokens, pos, TokenType::Quote) {
        lemma_quote_normal(tokens, pos + 1);
        match parse_quote(tokens, pos + 1).0 {
            Ok(datum) => {
                let mark = Sexp::Var("quote"@);
                lemma_all_normal_push(Seq::empty(), mark);
                lemma_all_normal_push(seq![mark], datum);
                assert(Seq::<Sexp>::empty().push(mark) =~= seq![mark]);
                assert(seq![mark].push(datum) =~= seq![mark, datum]);
            },
            Err(_) => {},
        }
    } else {
        lemma_datum_normal(tokens, pos);
    }
}

/// What is read is in normal form: a literal, an identifier or a list.
pub proof fn lemma_datum_normal(tokens: Seq<TokenModel>, pos: int)
    ensures
        parse_datum(tokens, pos).0 matches Ok(v) ==> is_normal(v),
    decreases tokens.len() - pos, 2nat,
{
    if parse_simple(tokens, pos) is None {
        if holds(tokens, pos, TokenType::LParen) {
            if holds(tokens, pos + 1, TokenType::RParen) {
                assert(all_normal(Seq::<Sexp>::empty()));
            } else {
                lemma_items_normal(tokens, pos + 1, Seq::empty());
            }
        }
    }
}

/// What is read is in normal form: the items of a list and its dotted tail.
pub proof fn lemma_items_normal(tokens: Seq<TokenModel>, pos: int, acc: Seq<Sexp>)
    requires
        all_normal(acc),
    ensures
        parse_items(tokens, pos, acc).0 matches Ok(v) ==> is_normal(v),
    decreases tokens.len() - pos, 4nat,
{
    lemma_quote_normal(tokens, pos);
    let (r, next) = parse_quote(tokens, pos);
    match r {
        Ok(datum) => {
            lemma_all_normal_push(acc, datum);
            if pos < next <= tokens.len() {
                if holds(tokens, next, TokenType::Dot) {
                    lemma_quote_normal(tokens, next + 1);
                    match parse_quote(tokens, next + 1).0 {
                        Ok(tail) => {
                            match tail {
                                Sexp::List(rest) => {
                                    lemma_all_normal_concat(acc.push(datum), rest);
                                },
                                _ => {},
                            }
                        },
                        Err(_) => {},
                    }
                } else if holds(tokens, next, TokenType::RParen) {
                } else {
                    lemma_items_normal(tokens, next, acc.push(datum));
                }
            }
        },
        Err(_) => {},
    }
}

/// What is read is in normal form: every datum of a program.
pub proof fn lemma_program_normal(tokens: Seq<TokenModel>, pos: int, acc: Seq<Sexp>)
    requires
        all_normal(acc),
    ensures
        parse_all(tokens, pos, acc).0 matches Ok(program) ==> all_normal(program),
    decreases tokens.len() - pos,
{
    if !at_end(tokens, pos) {
        lemma_quote_normal(tokens, pos);
        let (r, next) = parse_quote(tokens, pos);
        match r {
            Ok(datum) => {
                lemma_all_normal_push(acc, datum);
                if pos < next <= tokens.len() {
                    lemma_program_normal(tokens, next, acc.push(datum));
                }
            },
            Err(_) => {},
        }
    }
}

/// The reader: the tokens and a cursor into them. After a failure the cursor
/// stands at the offending token.
pub struct Parser {
    pub current: usize,
    pub tokens: Vec<Token>,
}

impl Parser {
    /// A reader at the first of `tokens`.
    pub fn new(tokens: Vec<Token>) -> (p: Parser)
        ensures
            p.current == 0,
            p.tokens == tokens,
    {
        Parser { current: 0, tokens }
    }

    /// Reads every datum up to the end of the tokens. Nothing is returned
    /// of a text that holds a failure.
    pub fn parse(&mut self) -> (r: Result<Vec<Expr>, ReadErrorKind>)
        ensures
            final(self).tokens == old(self).tokens,
            match r {
                Ok(program) => (Ok::<Seq<Sexp>, ReadErrorKind>(views(program@)), final(self).current as int) == parse_all(
                    token_views(old(self).tokens@),
                    old(self).current as int,
                    Seq::empty(),
                ) && all_normal(views(program@)),
                Err(e) => (Err::<Seq<Sexp>, ReadErrorKind>(e), final(self).current as int)
                    == parse_all(
                    token_views(old(self).tokens@),
                    old(self).current as int,
                    Seq::empty(),
                ),
            },
    {
        let mut program: Vec<Expr> = Vec::new();
        proof {
            assert(views(program@) =~= Seq::<Sexp>::empty());
        }
        while !self.is_at_end()
            invariant
                self.tokens == old(self).tokens,
                all_normal(views(program@)),
                parse_all(token_views(self.tokens@), self.current as int, views(program@))
                    == parse_all(
                    token_views(old(self).tokens@),
                    old(self).current as int,
                    Seq::empty(),
                ),
            decreases self.tokens.len() - self.current,
        {
            let ghost before = program@;
            match self.quote() {
                Ok(datum) => {
                    program.push(datum);
                    proof {
                        assert(views(program@) =~= views(before).push(datum@));
                        lemma_all_normal_push(views(before), datum@);
                    }
                },
                Err(e) => {
                    return Err(e);
                },
            }
        }
        Ok(program)
    }

    /// A datum, with any quote marks before it.
    fn quote(&mut self) -> (r: Result<Expr, ReadErrorKind>)
        ensures
            final(self).tokens == old(self).tokens,
            (read_outcome(r), final(self).current as int) == parse_quote(
                token_views(old(self).tokens@),
                old(self).current as int,
            ),
            r is Ok ==> old(self).current < final(self).current <= old(self).tokens.len(),
            r matches Ok(e) ==> is_normal(e@),
        decreases old(self).tokens.len() - old(self).current, 3nat,
    {
        let mut marks: Vec<TokenType> = Vec::new();
        marks.push(TokenType::Quote);
        proof {
            assert(marks@[0] == TokenType::Quote);
        }
        if self.match_token(marks) {
            match self.quote() {
                Ok(datum) => {
                    let mut items: Vec<Expr> = Vec::new();
                    items.push(Expr::Var(String::from_str("quote")));
                    items.push(datum);
                    proof {
                        assert(views(items@) =~= seq![Sexp::Var("quote"@), datum@]);
                        lemma_all_normal_push(Seq::empty(), Sexp::Var("quote"@));
                        lemma_all_normal_push(seq![Sexp::Var("quote"@)], datum@);
                        assert(seq![Sexp::Var("quote"@)].push(datum@) =~= views(items@));
                        assert(Seq::<Sexp>::empty().push(Sexp::Var("quote"@)) =~= seq![
                            Sexp::Var("quote"@),
                        ]);
                    }
                    Ok(Expr::List(items))
                },
                Err(e) => Err(e),
            }
        } else {
            self.datum()
        }
    }

    /// A literal, an identifier or a list.
    fn datum(&mut self) -> (r: Result<Expr, ReadErrorKind>)
        ensures
            final(self).tokens == old(self).tokens,
            (read_outcome(r), final(self).current as int) == parse_datum(
                token_views(old(self).tokens@),
                old(self).current as int,
            ),
            r is Ok ==> old(self).current < final(self).current <= old(self).tokens.len(),
            r matches Ok(e) ==> is_normal(e@),
        decreases old(self).tokens.len() - old(self).current, 2nat,
    {
        match self.simple_datum() {
            Some(found) => found,
            None => self.list(),
        }
    }

    /// A list, from its opening parenthesis on.
    fn list(&mut self) -> (r: Result<Expr, ReadErrorKind>)
        ensures
            final(self).tokens == old(self).tokens,
            (read_outcome(r), final(self).current as int) == parse_list(
                token_views(old(self).tokens@),
                old(self).current as int,
            ),
            r is Ok ==> old(self).current < final(self).current <= old(self).tokens.len(),
            r matches Ok(e) ==> is_normal(e@),
        decreases old(self).tokens.len() - old(self).current, 1nat,
    {
        let ghost tokens = token_views(self.tokens@);
        if !self.check(TokenType::LParen) {
            return Err(ReadErrorKind::ExpectingList);
        }
        self.advance();
        let mut lexprs: Vec<Expr> = Vec::new();
        if self.check(TokenType::RParen) {
            self.advance();
            proof {
                assert(views(lexprs@) =~= Seq::<Sexp>::empty());
                assert(all_normal(views(lexprs@)));
            }
            return Ok(Expr::List(lexprs));
        }
        let ghost first = self.current as int;
        proof {
            assert(views(lexprs@) =~= Seq::<Sexp>::empty());
        }
        loop
            invariant
                self.tokens == old(self).tokens,
                tokens == token_views(old(self).tokens@),
                old(self).current < self.current <= self.tokens.len(),
                first == old(self).current + 1,
                parse_list(tokens, old(self).current as int) == parse_items(
                    tokens,
                    first,
                    Seq::empty(),
                ),
                all_normal(views(lexprs@)),
                parse_items(tokens, self.current as int, views(lexprs@)) == parse_items(
                    tokens,
                    first,
                    Seq::empty(),
                ),
            decreases self.tokens.len() - self.current,
        {
            let ghost before = lexprs@;
            let datum = match self.quote() {
                Ok(d) => d,
                Err(e) => {
                    return Err(e);
                },
            };
            lexprs.push(datum);
            proof {
                assert(views(lexprs@) =~= views(before).push(datum@));
                lemma_all_normal_push(views(before), datum@);
            }
            if self.check(TokenType::Dot) {
                self.advance();
                let rexpr = match self.quote() {
                    Ok(d) => d,
                    Err(e) => {
                        return Err(e);
                    },
                };
                match self.expect(TokenType::RParen, ReadErrorKind::ExpectingRightParen) {
                    Ok(()) => {},
                    Err(e) => {
                        return Err(e);
                    },
                }
                match rexpr {
                    Expr::List(mut rest) => {
                        let ghost head = lexprs@;
                        let ghost tail = rest@;
                        lexprs.append(&mut rest);
                        proof {
                            assert(views(lexprs@) =~= views(head) + views(tail));
                            lemma_all_normal_concat(views(head), views(tail));
                        }
                        return Ok(Expr::List(lexprs));
                    },
                    other => {
                        proof {
                            assert(views(lexprs@).len() > 0);
                        }
                        return Ok(Expr::DottedPair(lexprs, Box::new(other)));
                    },
                }
            } else if self.check(TokenType::RParen) {
                self.advance();
                return Ok(Expr::List(lexprs));
            }
        }
    }

    /// A literal or an identifier, where one stands at the cursor.
    fn simple_datum(&mut self) -> (r: Option<Result<Expr, ReadErrorKind>>)
        ensures
            final(self).tokens == old(self).tokens,
            match r {
                Some(found) => Some((read_outcome(found), final(self).current as int))
                    == parse_simple(token_views(old(self).tokens@), old(self).current as int),
                None => parse_simple(token_views(old(self).tokens@), old(self).current as int)
                    is None && final(self).current == old(self).current,
            },
            r matches Some(Ok(e)) ==> old(self).current < final(self).current <= old(self).tokens.len() && is_normal(e@),
    {
        let mut literals: Vec<TokenType> = Vec::new();
        literals.push(TokenType::Number);
        literals.push(TokenType::Float);
        literals.push(TokenType::Bool);
        literals.push(TokenType::String);
        let mut names: Vec<TokenType> = Vec::new();
        names.push(TokenType::Identifier);
        proof {
            assert(literals@[0] == TokenType::Number);
            assert(literals@[1] == TokenType::Float);
            assert(literals@[2] == TokenType::Bool);
            assert(literals@[3] == TokenType::String);
            assert(names@[0] == TokenType::Identifier);
        }
        if self.match_token(literals) {
            match &self.tokens[self.current - 1].literal {
                Some(l) => Some(Ok(Expr::Literal(l.clone()))),
                None => Some(Err(ReadErrorKind::MalformedToken)),
            }
        } else if self.match_token(names) {
            Some(Ok(Expr::Var(self.tokens[self.current - 1].lexeme.clone())))
        } else {
            None
        }
    }

    /// Moves over the token at the cursor where it is of one of the kinds
    /// `tokens`.
    fn match_token(&mut self, tokens: Vec<TokenType>) -> (r: bool)
        ensures
            final(self).tokens == old(self).tokens,
            r == holds_any(token_views(old(self).tokens@), old(self).current as int, tokens@),
            final(self).current == (if r {
                old(self).current + 1
            } else {
                old(self).current as int
            }),
            r ==> old(self).current < old(self).tokens.len(),
    {
        let mut k: usize = 0;
        while k < tokens.len()
            invariant
                k <= tokens.len(),
                *self == *old(self),
                forall|j: int|
                    0 <= j < k ==> !holds(
                        token_views(self.tokens@),
                        self.current as int,
                        #[trigger] tokens@[j],
                    ),
            decreases tokens.len() - k,
        {
            if self.check(tokens[k]) {
                self.advance();
                return true;
            }
            k += 1;
        }
        false
    }

    /// Moves over the token at the cursor where it is of kind `token`, and
    /// fails with `err` where it is not.
    fn expect(&mut self, token: TokenType, err: ReadErrorKind) -> (r: Result<(), ReadErrorKind>)
        ensures
            final(self).tokens == old(self).tokens,
            match r {
                Ok(()) => holds(token_views(old(self).tokens@), old(self).current as int, token)
                    && final(self).current == old(self).current + 1,
                Err(e) => e == err && !holds(
                    token_views(old(self).tokens@),
                    old(self).current as int,
                    token,
                ) && final(self).current == old(self).current,
            },
    {
        if self.check(token) {
            self.advance();
            return Ok(());
        }
        Err(err)
    }

    /// Whether a token of kind `token_type` stands at the cursor.
    fn check(&self, token_type: TokenType) -> (r: bool)
        ensures
            r == holds(token_views(self.tokens@), self.current as int, token_type),
            r ==> self.current < self.tokens.len(),
    {
        if self.is_at_end() {
            return false;
        }
        self.tokens[self.current].ttype == token_type
    }

    /// Moves the cursor over one token, unless the tokens are used up.
    fn advance(&mut self)
        ensures
            final(self).tokens == old(self).tokens,
            final(self).current == (if at_end(
                token_views(old(self).tokens@),
                old(self).current as int,
            ) {
                old(self).current as int
            } else {
                old(self).current + 1
            }),
    {
        proof {
            assert(token_views(self.tokens@).len() == self.tokens.len());
        }
        if !self.is_at_end() {
            self.current = self.current + 1;
        }
    }

    /// Whether the tokens are used up.
    fn is_at_end(&self) -> (r: bool)
        ensures
            r == at_end(token_views(self.tokens@), self.current as int),
    {
        if self.current >= self.tokens.len() {
            return true;
        }
        self.tokens[self.current].ttype == TokenType::EOF
    }
}

} // verus!
