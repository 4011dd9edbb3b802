//! The token stream builder: from source text to a flat run of tokens.

use crate::ast::{token_views, Atom, Literal, Token, TokenModel, TokenType};
use crate::decimal::{decimal_of_text, Decimal};
use crate::error::ReadErrorKind;
use crate::text::{
    all_digits, chars_of, digits_end, digits_in_i32, digits_value, is_digit_char,
    lemma_digits_end_run, string_of,
};
use vstd::prelude::*;

verus! {

/// Whether `c` may stand in an identifier: a letter of the alphabet or one of
/// `! $ % & * + - . / : < = > ? @ ^ _ ~`.
pub open spec fn is_ident_char(c: char) -> bool {
    ||| 'a' <= c <= 'z'
    ||| 'A' <= c <= 'Z'
    ||| c == '!'
    ||| c == '$'
    ||| c == '%'
    ||| c == '&'
    ||| c == '*'
    ||| c == '+'
    ||| c == '-'
    ||| c == '.'
    ||| c == '/'
    ||| c == ':'
    ||| c == '<'
    ||| c == '='
    ||| c == '>'
    ||| c == '?'
    ||| c == '@'
    ||| c == '^'
    ||| c == '_'
    ||| c == '~'
}

/// Where the run of identifier characters and digits that starts at `from` ends.
pub open spec fn ident_end(s: Seq<char>, from: int) -> int
    decreases s.len() - from,
{
    if 0 <= from < s.len() && (is_ident_char(s[from]) || is_digit_char(s[from])) {
        ident_end(s, from + 1)
    } else {
        from
    }
}

/// Where the text of a string that starts at `from` ends: at the first double
/// quote or line break, or at the end of the source.
pub open spec fn string_end(s: Seq<char>, from: int) -> int
    decreases s.len() - from,
{
    if 0 <= from < s.len() && s[from] != '"' && s[from] != '\n' {
        string_end(s, from + 1)
    } else {
        from
    }
}

/// The number that a run of digits denotes as a literal: its value, or zero
/// where that does not fit an `i32`.
pub open spec fn number_value(digits: Seq<char>) -> int {
    if digits_value(digits) <= i32::MAX {
        digits_value(digits) as int
    } else {
        0
    }
}

/// The line after `line`; the count stops at the largest `u32`.
pub open spec fn next_line(line: nat) -> nat {
    if line < u32::MAX {
        line + 1
    } else {
        line
    }
}

/// A lexical failure: its kind, the line it stands on, the text that was
/// read, and where in the source that text starts.
pub struct LexErrorModel {
    pub kind: ReadErrorKind,
    pub line: nat,
    pub lexeme: Seq<char>,
    pub position: nat,
}

/// What the scanner makes of the source at one position: where it goes on,
/// on which line, and the token or the failure that it found, if any.
pub struct Lexed {
    pub next: int,
    pub line: nat,
    pub token: Option<TokenModel>,
    pub error: Option<LexErrorModel>,
}

/// A token without a literal that spans `src[pos..next]`.
pub open spec fn plain(src: Seq<char>, pos: int, next: int, line: nat, ttype: TokenType) -> Lexed {
    Lexed {
        next,
        line,
        token: Some(TokenModel { ttype, lexeme: src.subrange(pos, next), line, literal: None }),
        error: None,
    }
}

/// A token with a literal that spans `src[pos..next]`.
pub open spec fn valued(
    src: Seq<char>,
    pos: int,
    next: int,
    line: nat,
    ttype: TokenType,
    literal: Option<Atom>,
) -> Lexed {
    Lexed {
        next,
        line,
        token: Some(TokenModel { ttype, lexeme: src.subrange(pos, next), line, literal }),
        error: None,
    }
}

/// A failure on the text `src[pos..next]`.
pub open spec fn failed(src: Seq<char>, pos: int, next: int, line: nat, kind: ReadErrorKind) -> Lexed {
    Lexed {
        next,
        line,
        token: None,
        error: Some(
            LexErrorModel { kind, line, lexeme: src.subrange(pos, next), position: pos as nat },
        ),
    }
}

/// Nothing: blank space.
pub open spec fn skipped(next: int, line: nat) -> Lexed {
    Lexed { next, line, token: None, error: None }
}

/// What stands at `pos`, for a position inside the source.
///
/// A parenthesis and the quote mark are tokens of their own, and so is a dot
/// that no identifier character follows. `#t` and `#f` are the booleans. A
/// double quote starts a string that runs to the next double quote on the
/// same line. A digit starts a number: a run of digits is an integer, and a
/// run of digits, a dot and a further run of digits is a decimal. An
/// identifier character starts an identifier, which runs on over identifier
/// characters and digits. Blanks, tabs, carriage returns and line breaks
/// separate tokens, and a line break starts a new line. Anything else is a
/// failure.
pub open spec fn lex_one(src: Seq<char>, pos: int, line: nat) -> Lexed
    recommends
        0 <= pos < src.len(),
{
    let c = src[pos];
    if c == '(' {
        plain(src, pos, pos + 1, line, TokenType::LParen)
    } else if c == ')' {
        plain(src, pos, pos + 1, line, TokenType::RParen)
    } else if c == '.' {
        if pos + 1 < src.len() && is_ident_char(src[pos + 1]) {
            plain(src, pos, ident_end(src, pos + 1), line, TokenType::Identifier)
        } else {
            plain(src, pos, pos + 1, line, TokenType::Dot)
        }
    } else if c == '\'' {
        plain(src, pos, pos + 1, line, TokenType::Quote)
    } else if c == ' ' || c == '\t' || c == '\r' {
        skipped(pos + 1, line)
    } else if c == '\n' {
        skipped(pos + 1, next_line(line))
    } else if c == '#' {
        if pos + 1 < src.len() && src[pos + 1] == 't' {
            valued(src, pos, pos + 2, line, TokenType::Bool, Some(Atom::Bool(true)))
        } else if pos + 1 < src.len() && src[pos + 1] == 'f' {
            valued(src, pos, pos + 2, line, TokenType::Bool, Some(Atom::Bool(false)))
        } else {
            failed(src, pos, pos + 1, line, ReadErrorKind::UnexpectedSymbol)
        }
    } else if c == '"' {
        let end = string_end(src, pos + 1);
        if end < src.len() && src[end] == '"' {
            valued(
                src,
                pos,
                end + 1,
                line,
                TokenType::String,
                Some(Atom::String(src.subrange(pos + 1, end))),
            )
        } else {
            failed(src, pos, end, line, ReadErrorKind::UnterminatedString)
        }
    } else if is_digit_char(c) {
        let end = digits_end(src, pos);
        if end < src.len() && src[end] == '.' {
            let stop = digits_end(src, end + 1);
            valued(
                src,
                pos,
                stop,
                line,
                TokenType::Float,
                match decimal_of_text(src.subrange(pos, stop)) {
                    Some(d) => Some(Atom::Float(d)),
                    None => None,
                },
            )
        } else {
            valued(
                src,
                pos,
                end,
                line,
                TokenType::Number,
                Some(Atom::Number(number_value(src.subrange(pos, end)))),
            )
        }
    } else if is_ident_char(c) {
        plain(src, pos, ident_end(src, pos + 1), line, TokenType::Identifier)
    } else {
        failed(src, pos, pos + 1, line, ReadErrorKind::UnexpectedSymbol)
    }
}

/// The token that ends every run of tokens.
pub open spec fn end_token(line: nat) -> TokenModel {
    TokenModel { ttype: TokenType::EOF, lexeme: Seq::empty(), line, literal: None }
}

/// The tokens of the source from `pos` on, with the end marker after the last.
pub open spec fn lex_tokens(src: Seq<char>, pos: int, line: nat) -> Seq<TokenModel>
    decreases src.len() - pos,
{
    if pos < 0 || pos >= src.len() {
        seq![end_token(line)]
    } else {
        let step = lex_one(src, pos, line);
        if step.next <= pos || step.next > src.len() {
            seq![end_token(line)]
        } else {
            (match step.token {
                Some(t) => seq![t],
                None => Seq::empty(),
            }) + lex_tokens(src, step.next, step.line)
        }
    }
}

/// The lexical failures of the source from `pos` on, in order.
pub open spec fn lex_errors(src: Seq<char>, pos: int, line: nat) -> Seq<LexErrorModel>
    decreases src.len() - pos,
{
    if pos < 0 || pos >= src.len() {
        Seq::empty()
    } else {
        let step = lex_one(src, pos, line);
        if step.next <= pos || step.next > src.len() {
            Seq::empty()
        } else {
            (match step.error {
                Some(e) => seq![e],
                None => Seq::empty(),
            }) + lex_errors(src, step.next, step.line)
        }
    }
}

/// A run that starts inside the source ends inside it or at its end.
pub proof fn lemma_ident_end(s: Seq<char>, from: int)
    requires
        0 <= from <= s.len(),
    ensures
        from <= ident_end(s, from) <= s.len(),
    decreases s.len() - from,
{
    if from < s.len() && (is_ident_char(s[from]) || is_digit_char(s[from])) {
        lemma_ident_end(s, from + 1);
    }
}

/// The text of a string ends inside the source or at its end.
pub proof fn lemma_string_end(s: Seq<char>, from: int)
    requires
        0 <= from <= s.len(),
    ensures
        from <= string_end(s, from) <= s.len(),
    decreases s.len() - from,
{
    if from < s.len() && s[from] != '"' && s[from] != '\n' {
        lemma_string_end(s, from + 1);
    }
}

/// The scanner always moves on, and never past the end of the source.
pub proof fn lemma_lex_one_advances(src: Seq<char>, pos: int, line: nat)
    requires
        0 <= pos < src.len(),
    ensures
        pos < lex_one(src, pos, line).next <= src.len(),
{
    lemma_ident_end(src, pos + 1);
    lemma_string_end(src, pos + 1);
    lemma_digits_end_run(src, pos);
    if is_digit_char(src[pos]) {
        let end = digits_end(src, pos);
        assert(end > pos);
        if end < src.len() {
            lemma_digits_end_run(src, end + 1);
        }
    }
}

/// A lexical failure.
#[derive(Debug)]
pub struct LexError {
    pub kind: ReadErrorKind,
    pub line: u32,
    pub lexeme: String,
    pub position: usize,
}

impl View for LexError {
    type V = LexErrorModel;

    open spec fn view(&self) -> LexErrorModel {
        LexErrorModel {
            kind: self.kind,
            line: self.line as nat,
            lexeme: self.lexeme@,
            position: self.position as nat,
        }
    }
}

/// The views of a run of failures.
pub open spec fn error_views(errors: Seq<LexError>) -> Seq<LexErrorModel> {
    Seq::new(errors.len(), |i: int| errors[i]@)
}

/// The scanner: the source, the tokens and failures found so far, and the
/// place it has come to.
pub struct Lexer {
    pub source: Vec<char>,
    pub tokens: Vec<Token>,
    pub errors: Vec<LexError>,
    /// Where the text that is being read starts.
    pub start: usize,
    /// Where in the source the scanner stands.
    pub current: usize,
    /// The line that the scanner stands on.
    pub line: u32,
}

impl Lexer {
    /// Where in the source the scanner stands.
    pub open spec fn position(&self) -> int {
        self.current as int
    }

    /// The line that the scanner stands on.
    pub open spec fn current_line(&self) -> nat {
        self.line as nat
    }

    /// A scanner at the start of `block`, on line one.
    pub fn new(block: &str) -> (lexer: Lexer)
        ensures
            lexer.source@ == block@,
            lexer.tokens@.len() == 0,
            lexer.errors@.len() == 0,
            lexer.position() == 0,
            lexer.current_line() == 1,
    {
        let source = chars_of(block);
        Lexer { source, tokens: Vec::new(), errors: Vec::new(), start: 0, current: 0, line: 1 }
    }

    /// Reads the rest of the source. The tokens found are added to `tokens`,
    /// the end marker after them, and the failures to `errors`.
    pub fn scan(&mut self)
        ensures
            final(self).source == old(self).source,
            token_views(final(self).tokens@) == token_views(old(self).tokens@) + lex_tokens(
                old(self).source@,
                old(self).position(),
                old(self).current_line(),
            ),
            error_views(final(self).errors@) == error_views(old(self).errors@) + lex_errors(
                old(self).source@,
                old(self).position(),
                old(self).current_line(),
            ),
            final(self).position() >= old(self).source.len(),
    {
        while !self.is_at_end()
            invariant
                self.source == old(self).source,
                token_views(self.tokens@) + lex_tokens(
                    self.source@,
                    self.position(),
                    self.current_line(),
                ) == token_views(old(self).tokens@) + lex_tokens(
                    old(self).source@,
                    old(self).position(),
                    old(self).current_line(),
                ),
                error_views(self.errors@) + lex_errors(
                    self.source@,
                    self.position(),
                    self.current_line(),
                ) == error_views(old(self).errors@) + lex_errors(
                    old(self).source@,
                    old(self).position(),
                    old(self).current_line(),
                ),
            decreases self.source.len() - self.current,
        {
            self.start = self.current;
            let ghost before = *self;
            proof {
                lemma_lex_one_advances(self.source@, self.position(), self.current_line());
            }
            self.scan_token();
            proof {
                let step = lex_one(before.source@, before.position(), before.current_line());
                let rest = lex_tokens(self.source@, self.position(), self.current_line());
                let more = lex_errors(self.source@, self.position(), self.current_line());
                match step.token {
                    Some(t) => {
                        assert(token_views(self.tokens@) + rest =~= token_views(before.tokens@)
                            + (seq![t] + rest));
                    },
                    None => {
                        assert(token_views(self.tokens@) + rest =~= token_views(before.tokens@)
                            + (Seq::<TokenModel>::empty() + rest));
                    },
                }
                match step.error {
                    Some(e) => {
                        assert(error_views(self.errors@) + more =~= error_views(before.errors@)
                            + (seq![e] + more));
                    },
                    None => {
                        assert(error_views(self.errors@) + more =~= error_views(before.errors@)
                            + (Seq::<LexErrorModel>::empty() + more));
                    },
                }
            }
        }
        let ghost before = *self;
        self.tokens.push(Token::new(TokenType::EOF, String::new(), self.line, None));
        proof {
            assert(token_views(self.tokens@) =~= token_views(before.tokens@) + seq![
                end_token(self.current_line()),
            ]);
            assert(error_views(self.errors@) + Seq::<LexErrorModel>::empty() =~= error_views(
                self.errors@,
            ));
        }
    }

    /// Reads what stands at the current position.
    fn scan_token(&mut self)
        requires
            old(self).current < old(self).source.len(),
            old(self).start == old(self).current,
        ensures
            final(self).source == old(self).source,
            final(self).position() == lex_one(
                old(self).source@,
                old(self).position(),
                old(self).current_line(),
            ).next,
            final(self).current_line() == lex_one(
                old(self).source@,
                old(self).position(),
                old(self).current_line(),
            ).line,
            token_views(final(self).tokens@) == token_views(old(self).tokens@) + (match lex_one(
                old(self).source@,
                old(self).position(),
                old(self).current_line(),
            ).token {
                Some(t) => seq![t],
                None => Seq::empty(),
            }),
            error_views(final(self).errors@) == error_views(old(self).errors@) + (match lex_one(
                old(self).source@,
                old(self).position(),
                old(self).current_line(),
            ).error {
                Some(e) => seq![e],
                None => Seq::empty(),
            }),
    {
        let n = self.advance();
        proof {
            assert(token_views(self.tokens@) + Seq::<TokenModel>::empty() =~= token_views(
                self.tokens@,
            ));
            assert(error_views(self.errors@) + Seq::<LexErrorModel>::empty() =~= error_views(
                self.errors@,
            ));
        }
        if n == '(' {
            self.add_token(TokenType::LParen);
        } else if n == ')' {
            self.add_token(TokenType::RParen);
        } else if n == '.' {
            if Lexer::is_ident(self.peek()) {
                self.identifier();
            } else {
                self.add_token(TokenType::Dot);
            }
        } else if n == '\'' {
            self.add_token(TokenType::Quote);
        } else if n == ' ' || n == '\t' || n == '\r' {
        } else if n == '\n' {
            if self.line < u32::MAX {
                self.line = self.line + 1;
            }
        } else if n == '#' {
            if self.match_char('t') {
                self.add_literal_token(TokenType::Bool, Some(Literal::Bool(true)));
            } else if self.match_char('f') {
                self.add_literal_token(TokenType::Bool, Some(Literal::Bool(false)));
            } else {
                self.error(ReadErrorKind::UnexpectedSymbol);
            }
        } else if n == '"' {
            self.string();
        } else if Lexer::is_digit(n) {
            self.number();
        } else if Lexer::is_ident(n) {
            self.identifier();
        } else {
            self.error(ReadErrorKind::UnexpectedSymbol);
        }
    }

    /// Whether `c` is a decimal digit.
    fn is_digit(c: char) -> (r: bool)
        ensures
            r == is_digit_char(c),
    {
        c >= '0' && c <= '9'
    }

    /// Whether `c` is a dot.
    fn is_dot(c: char) -> (r: bool)
        ensures
            r == (c == '.'),
    {
        c == '.'
    }

    /// Whether `c` may stand in an identifier.
    fn is_ident(c: char) -> (r: bool)
        ensures
            r == is_ident_char(c),
    {
        (c >= 'a' && c <= 'z') || (c >= 'A' && c <= 'Z') || c == '!' || c == '$' || c == '%' || c
            == '&' || c == '*' || c == '+' || c == '-' || c == '.' || c == '/' || c == ':' || c
            == '<' || c == '=' || c == '>' || c == '?' || c == '@' || c == '^' || c == '_' || c
            == '~'
    }

    /// Whether nothing of the text but what the scanner has read so far has
    /// changed between two states.
    spec fn steady(&self, before: &Lexer) -> bool {
        &&& self.source == before.source
        &&& self.tokens == before.tokens
        &&& self.errors == before.errors
        &&& self.start == before.start
        &&& self.line == before.line
    }

    /// The fraction of a decimal, after its dot.
    fn float(&mut self)
        requires
            old(self).start <= old(self).current <= old(self).source.len(),
        ensures
            final(self).source == old(self).source,
            final(self).errors == old(self).errors,
            final(self).line == old(self).line,
            final(self).current == digits_end(old(self).source@, old(self).current as int),
            token_views(final(self).tokens@) == token_views(old(self).tokens@).push(
                TokenModel {
                    ttype: TokenType::Float,
                    lexeme: old(self).source@.subrange(
                        old(self).start as int,
                        final(self).current as int,
                    ),
                    line: old(self).line as nat,
                    literal: match decimal_of_text(
                        old(self).source@.subrange(
                            old(self).start as int,
                            final(self).current as int,
                        ),
                    ) {
                        Some(d) => Some(Atom::Float(d)),
                        None => None,
                    },
                },
            ),
    {
        self.digits();
        let literal = match Decimal::from_chars(self.lexeme_slice()) {
            Some(d) => Some(Literal::Float(d)),
            None => None,
        };
        self.add_literal_token(TokenType::Float, literal);
    }

    /// Moves over a run of digits.
    fn digits(&mut self)
        requires
            old(self).current <= old(self).source.len(),
        ensures
            final(self).steady(old(self)),
            final(self).current == digits_end(old(self).source@, old(self).current as int),
            old(self).current <= final(self).current <= final(self).source.len(),
    {
        while Lexer::is_digit(self.peek())
            invariant
                self.steady(old(self)),
                old(self).current <= self.current <= self.source.len(),
                digits_end(self.source@, self.current as int) == digits_end(
                    old(self).source@,
                    old(self).current as int,
                ),
            decreases self.source.len() - self.current,
        {
            self.advance();
        }
    }

    /// A number: an integer, or a decimal where a dot follows the digits.
    fn number(&mut self)
        requires
            0 < old(self).current <= old(self).source.len(),
            old(self).start == old(self).current - 1,
            is_digit_char(old(self).source@[old(self).start as int]),
        ensures
            final(self).source == old(self).source,
            final(self).errors == old(self).errors,
            final(self).line == old(self).line,
            final(self).position() == lex_one(
                old(self).source@,
                old(self).start as int,
                old(self).line as nat,
            ).next,
            token_views(final(self).tokens@) == token_views(old(self).tokens@) + seq![
                lex_one(old(self).source@, old(self).start as int, old(self).line as nat).token->0,
            ],
            lex_one(old(self).source@, old(self).start as int, old(self).line as nat).token is Some,
    {
        self.digits();
        if Lexer::is_dot(self.peek()) {
            self.advance();
            return self.float();
        }
        proof {
            lemma_digits_end_run(self.source@, self.start as int);
            assert(all_digits(self.source@.subrange(self.start as int, self.current as int)));
        }
        let digit: i32 = match digits_in_i32(self.lexeme_slice()) {
            Some(d) => d,
            None => 0,
        };
        self.add_literal_token(TokenType::Number, Some(Literal::Number(digit)));
    }

    /// An identifier, from its second character on.
    fn identifier(&mut self)
        requires
            old(self).start <= old(self).current <= old(self).source.len(),
        ensures
            final(self).source == old(self).source,
            final(self).errors == old(self).errors,
            final(self).line == old(self).line,
            final(self).current == ident_end(old(self).source@, old(self).current as int),
            token_views(final(self).tokens@) == token_views(old(self).tokens@).push(
                TokenModel {
                    ttype: TokenType::Identifier,
                    lexeme: old(self).source@.subrange(
                        old(self).start as int,
                        final(self).current as int,
                    ),
                    line: old(self).line as nat,
                    literal: None,
                },
            ),
    {
        loop
            invariant
                self.steady(old(self)),
                old(self).current <= self.current <= self.source.len(),
                ident_end(self.source@, self.current as int) == ident_end(
                    old(self).source@,
                    old(self).current as int,
                ),
            ensures
                self.current == ident_end(old(self).source@, old(self).current as int),
            decreases self.source.len() - self.current,
        {
            let c = self.peek();
            if !(Lexer::is_ident(c) || Lexer::is_digit(c)) {
                break ;
            }
            self.advance();
        }
        self.add_token(TokenType::Identifier);
    }

    /// A string, from the character after its opening quote on.
    fn string(&mut self)
        requires
            0 < old(self).current <= old(self).source.len(),
            old(self).start == old(self).current - 1,
            old(self).source@[old(self).start as int] == '"',
        ensures
            final(self).source == old(self).source,
            final(self).line == old(self).line,
            final(self).position() == lex_one(
                old(self).source@,
                old(self).start as int,
                old(self).line as nat,
            ).next,
            token_views(final(self).tokens@) == token_views(old(self).tokens@) + (match lex_one(
                old(self).source@,
                old(self).start as int,
                old(self).line as nat,
            ).token {
                Some(t) => seq![t],
                None => Seq::empty(),
            }),
            error_views(final(self).errors@) == error_views(old(self).errors@) + (match lex_one(
                old(self).source@,
                old(self).start as int,
                old(self).line as nat,
            ).error {
                Some(e) => seq![e],
                None => Seq::empty(),
            }),
    {
        loop
            invariant
                self.steady(old(self)),
                old(self).current <= self.current <= self.source.len(),
                string_end(self.source@, self.current as int) == string_end(
                    old(self).source@,
                    old(self).current as int,
                ),
            ensures
                self.current == string_end(old(self).source@, old(self).current as int),
            decreases self.source.len() - self.current,
        {
            if self.is_at_end() {
                break ;
            }
            let c = self.peek();
            if c == '"' || c == '\n' {
                break ;
            }
            self.advance();
        }
        proof {
            assert(token_views(self.tokens@) + Seq::<TokenModel>::empty() =~= token_views(
                self.tokens@,
            ));
            assert(error_views(self.errors@) + Seq::<LexErrorModel>::empty() =~= error_views(
                self.errors@,
            ));
        }
        if self.is_at_end() || self.peek() != '"' {
            self.error(ReadErrorKind::UnterminatedString);
            return ;
        }
        self.advance();
        let text = string_of(slice_of(&self.source, self.start + 1, self.current - 1));
        self.add_literal_token(TokenType::String, Some(Literal::String(text)));
    }

    /// Moves over one character and returns it.
    fn advance(&mut self) -> (c: char)
        requires
            old(self).current < old(self).source.len(),
        ensures
            final(self).steady(old(self)),
            final(self).current == old(self).current + 1,
            c == old(self).source@[old(self).current as int],
    {
        self.current = self.current + 1;
        self.source[self.current - 1]
    }

    /// Whether the source is used up.
    fn is_at_end(&self) -> (r: bool)
        ensures
            r == (self.current >= self.source.len()),
    {
        self.current >= self.source.len()
    }

    /// The character at the current position, or a null character at the end.
    fn peek(&self) -> (c: char)
        ensures
            c == (if self.current < self.source.len() {
                self.source@[self.current as int]
            } else {
                '\0'
            }),
    {
        if self.is_at_end() {
            return '\0';
        }
        self.source[self.current]
    }

    /// Moves over the next character where it is the expected one.
    fn match_char(&mut self, expected: char) -> (r: bool)
        ensures
            final(self).steady(old(self)),
            r == (old(self).current < old(self).source.len() && old(self).source@[old(self).current as int] == expected),
            final(self).current == (if r {
                old(self).current + 1
            } else {
                old(self).current as int
            }),
    {
        if self.is_at_end() {
            return false;
        }
        if self.source[self.current] != expected {
            return false;
        }
        self.current = self.current + 1;
        true
    }

    /// The text between the start of the token and the current position.
    fn lexeme_slice(&self) -> (s: &[char])
        requires
            self.start <= self.current <= self.source.len(),
        ensures
            s@ == self.source@.subrange(self.start as int, self.current as int),
    {
        slice_of(&self.source, self.start, self.current)
    }

    /// Adds a token without a literal for the text that was read.
    fn add_token(&mut self, token: TokenType)
        requires
            old(self).start <= old(self).current <= old(self).source.len(),
        ensures
            final(self).source == old(self).source,
            final(self).errors == old(self).errors,
            final(self).start == old(self).start,
            final(self).current == old(self).current,
            final(self).line == old(self).line,
            token_views(final(self).tokens@) == token_views(old(self).tokens@).push(
                TokenModel {
                    ttype: token,
                    lexeme: old(self).source@.subrange(
                        old(self).start as int,
                        old(self).current as int,
                    ),
                    line: old(self).line as nat,
                    literal: None,
                },
            ),
    {
        self.add_literal_token(token, None);
    }

    /// Adds a token with a literal for the text that was read.
    fn add_literal_token(&mut self, token: TokenType, literal: Option<Literal>)
        requires
            old(self).start <= old(self).current <= old(self).source.len(),
        ensures
            final(self).source == old(self).source,
            final(self).errors == old(self).errors,
            final(self).start == old(self).start,
            final(self).current == old(self).current,
            final(self).line == old(self).line,
            token_views(final(self).tokens@) == token_views(old(self).tokens@).push(
                TokenModel {
                    ttype: token,
                    lexeme: old(self).source@.subrange(
                        old(self).start as int,
                        old(self).current as int,
                    ),
                    line: old(self).line as nat,
                    literal: match literal {
                        Some(l) => Some(l@),
                        None => None,
                    },
                },
            ),
    {
        let lexeme = string_of(self.lexeme_slice());
        let ghost before = self.tokens@;
        let t = Token::new(token, lexeme, self.line, literal);
        self.tokens.push(t);
        proof {
            assert(token_views(self.tokens@) =~= token_views(before).push(t@));
        }
    }

    /// Records a failure on the text that was read.
    fn error(&mut self, kind: ReadErrorKind)
        requires
            old(self).start <= old(self).current <= old(self).source.len(),
        ensures
            final(self).source == old(self).source,
            final(self).tokens == old(self).tokens,
            final(self).start == old(self).start,
            final(self).current == old(self).current,
            final(self).line == old(self).line,
            error_views(final(self).errors@) == error_views(old(self).errors@).push(
                LexErrorModel {
                    kind,
                    line: old(self).line as nat,
                    lexeme: old(self).source@.subrange(
                        old(self).start as int,
                        old(self).current as int,
                    ),
                    position: old(self).start as nat,
                },
            ),
    {
        let lexeme = string_of(self.lexeme_slice());
        let ghost before = self.errors@;
        let e = LexError { kind, line: self.line, lexeme, position: self.start };
        self.errors.push(e);
        proof {
            assert(error_views(self.errors@) =~= error_views(before).push(e@));
        }
    }
}

/// The part of `v` from `from` up to `to`.
fn slice_of(v: &Vec<char>, from: usize, to: usize) -> (s: &[char])
    requires
        from <= to <= v.len(),
    ensures
        s@ == v@.subrange(from as int, to as int),
{
    let all = v.as_slice();
    &all[from..to]
}

} // verus!
