//! From source text to nodes: the scanner and the parser, one after the other.

use crate::ast::{views, Expr, Sexp, TokenModel};
use crate::error::ReadErrorKind;
use crate::lexer::{lex_errors, lex_tokens, Lexer};
use crate::parser::{all_normal, lemma_program_normal, parse_all, Parser};
use vstd::prelude::*;

verus! {

/// Why a text could not be read, and where.
///
/// For a lexical failure `position` is the offset in the text of the first
/// character that was read; for a failure of the grammar it is the index of
/// the offending token. `line` is the line that this character or token
/// stands on, or zero where the tokens are used up.
#[derive(Clone, Copy, Debug, PartialEq, Eq, Structural)]
pub struct ReadError {
    pub kind: ReadErrorKind,
    pub position: usize,
    pub line: u32,
}

/// The line of the token at `pos`, or zero where there is none.
pub open spec fn line_at(tokens: Seq<TokenModel>, pos: int) -> nat {
    if 0 <= pos < tokens.len() {
        tokens[pos].line
    } else {
        0
    }
}

/// The nodes that a text spells. The first lexical failure, if there is one,
/// is the failure of the whole text; else the first failure of the grammar.
pub open spec fn read_sem(text: Seq<char>) -> Result<Seq<Sexp>, ReadError> {
    let errors = lex_errors(text, 0, 1);
    if errors.len() > 0 {
        Err(
            ReadError {
                kind: errors[0].kind,
                position: errors[0].position as usize,
                line: errors[0].line as u32,
            },
        )
    } else {
        let tokens = lex_tokens(text, 0, 1);
        let (r, pos) = parse_all(tokens, 0, Seq::empty());
        match r {
            Ok(program) => Ok(program),
            Err(kind) => Err(
                ReadError { kind, position: pos as usize, line: line_at(tokens, pos) as u32 },
            ),
        }
    }
}

/// Normalization: whatever a text reads as is in normal form. No dotted
/// pair in it ends in a list: `(1 2 . (3 4))` reads as the list `(1 2 3 4)`.
pub proof fn lemma_read_normal(text: Seq<char>)
    ensures
        read_sem(text) matches Ok(program) ==> all_normal(program),
{
    lemma_program_normal(lex_tokens(text, 0, 1), 0, Seq::empty());
}

/// Reads every datum of `text`.
pub fn read_program(text: &str) -> (r: Result<Vec<Expr>, ReadError>)
    ensures
        match r {
            Ok(program) => read_sem(text@) == Ok::<Seq<Sexp>, ReadError>(views(program@))
                && all_normal(views(program@)),
            Err(e) => read_sem(text@) == Err::<Seq<Sexp>, ReadError>(e),
        },
{
    let mut lexer = Lexer::new(text);
    lexer.scan();
    proof {
        assert(crate::ast::token_views(lexer.tokens@) =~= lex_tokens(text@, 0, 1));
        assert(crate::lexer::error_views(lexer.errors@) =~= lex_errors(text@, 0, 1));
    }
    if lexer.errors.len() > 0 {
        let first = &lexer.errors[0];
        proof {
            assert(crate::lexer::error_views(lexer.errors@)[0] == first@);
        }
        return Err(ReadError { kind: first.kind, position: first.position, line: first.line });
    }
    let mut parser = Parser::new(lexer.tokens);
    let ghost tokens = crate::ast::token_views(parser.tokens@);
    match parser.parse() {
        Ok(program) => Ok(program),
        Err(kind) => {
            let line = if parser.current < parser.tokens.len() {
                proof {
                    assert(tokens[parser.current as int] == parser.tokens@[parser.current as int]@);
                }
                parser.tokens[parser.current].line
            } else {
                0
            };
            Err(ReadError { kind, position: parser.current, line })
        },
    }
}

} // verus!
