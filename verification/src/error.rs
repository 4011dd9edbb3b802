//! What can go wrong while reading and while evaluating.

use vstd::prelude::*;

verus! {

/// Why an evaluation failed.
#[derive(Clone, Copy, Debug, PartialEq, Eq, Structural)]
pub enum EvalError {
    UndefinedVariable,
    NotApplicable,
    NotImplemented,
    InvalidDefine,
    EmptyDefine,
    UnspecifiedValue,
    InvalidIf,
    InvalidQuote,
    InvalidSet,
    UnboundVariable,
    SetTargetNotAtom,
    ExpectingDeclarations,
    ExpectingPair,
    ExpectingAtom,
    ExpectingListInCond,
    InvalidCond,
    WrongArgumentCount,
    InvalidParameter,
    UnknownFrame,
    UnableToApply,
    MustBeNumber,
    CannotAdd,
    CannotMultiply,
    SubNeedsArgument,
    CannotSubtract,
    IncorrectArgumentCount,
    EmptyList,
    IncorrectType,
    ArgumentMustBeList,
    AppendIncorrectType,
    LengthIncorrectType,
    ReverseIncorrectType,
    ApplyExpectingList,
    LoadIncorrectType,
    InputPortsUnsupported,
    ReadFailed,
    OutputPortsUnsupported,
    KeyNotFound,
    Overflow,
    TooDeep,
    /// `read` found no line waiting: the host is to supply one and evaluate again.
    InputRequired,
    /// `load` found no text for its path: the host is to supply it and evaluate again.
    SourceRequired,
}

impl EvalError {
    /// The wording of each failure.
    pub open spec fn text(self) -> Seq<char> {
        match self {
            EvalError::UndefinedVariable => "undefined variable"@,
            EvalError::NotApplicable => "not applicable"@,
            EvalError::NotImplemented => "not implemented"@,
            EvalError::InvalidDefine => "invalid define statement"@,
            EvalError::EmptyDefine => "define vars cannot be empty"@,
            EvalError::UnspecifiedValue => "unspecified value cannot be used as an expression"@,
            EvalError::InvalidIf => "invalid if syntax"@,
            EvalError::InvalidQuote => "invalid quote syntax"@,
            EvalError::InvalidSet => "invalid set syntax"@,
            EvalError::UnboundVariable => "variable is not bound"@,
            EvalError::SetTargetNotAtom => "first parameter must be an atom"@,
            EvalError::ExpectingDeclarations => "expecting list of declarations"@,
            EvalError::ExpectingPair => "expecting a pair"@,
            EvalError::ExpectingAtom => "expecting an atom in let declaration pair"@,
            EvalError::ExpectingListInCond => "expecting a list in cond"@,
            EvalError::InvalidCond => "invalid format in cond"@,
            EvalError::WrongArgumentCount => "applied to incorrect number of args"@,
            EvalError::InvalidParameter => "parameter must be an atom"@,
            EvalError::UnknownFrame => "procedure refers to an unknown scope"@,
            EvalError::UnableToApply => "unable to apply"@,
            EvalError::MustBeNumber => "must be a number"@,
            EvalError::CannotAdd => "cannot add a non-number"@,
            EvalError::CannotMultiply => "cannot multiply a non-number"@,
            EvalError::SubNeedsArgument => "- requires at least one argument"@,
            EvalError::CannotSubtract => "cannot subtract a non-number"@,
            EvalError::IncorrectArgumentCount => "called with incorrect number of arguments"@,
            EvalError::EmptyList => "called with incorrect type ()"@,
            EvalError::IncorrectType => "called with incorrect type"@,
            EvalError::ArgumentMustBeList => "argument must be a list"@,
            EvalError::AppendIncorrectType => "incorrect type passed to append"@,
            EvalError::LengthIncorrectType => "length called with incorrect type"@,
            EvalError::ReverseIncorrectType => "reverse called with incorrect type"@,
            EvalError::ApplyExpectingList => "apply expecting a list"@,
            EvalError::LoadIncorrectType => "load called with incorrect type"@,
            EvalError::InputPortsUnsupported => "input ports are not yet supported for read"@,
            EvalError::ReadFailed => "read error"@,
            EvalError::OutputPortsUnsupported => "output ports are not yet supported for display"@,
            EvalError::KeyNotFound => "key not found"@,
            EvalError::Overflow => "integer overflow"@,
            EvalError::TooDeep => "evaluation nested too deeply"@,
            EvalError::InputRequired => "read needs a line of input"@,
            EvalError::SourceRequired => "load needs the text of its file"@,
        }
    }

    /// Whether the failure asks the host to supply something and evaluate again.
    pub open spec fn is_request(self) -> bool {
        self == EvalError::InputRequired || self == EvalError::SourceRequired
    }

    /// The wording of the failure.
    pub fn message(&self) -> (m: &'static str)
        ensures
            m@ == self.text(),
    {
        match self {
            EvalError::UndefinedVariable => "undefined variable",
            EvalError::NotApplicable => "not applicable",
            EvalError::NotImplemented => "not implemented",
            EvalError::InvalidDefine => "invalid define statement",
            EvalError::EmptyDefine => "define vars cannot be empty",
            EvalError::UnspecifiedValue => "unspecified value cannot be used as an expression",
            EvalError::InvalidIf => "invalid if syntax",
            EvalError::InvalidQuote => "invalid quote syntax",
            EvalError::InvalidSet => "invalid set syntax",
            EvalError::UnboundVariable => "variable is not bound",
            EvalError::SetTargetNotAtom => "first parameter must be an atom",
            EvalError::ExpectingDeclarations => "expecting list of declarations",
            EvalError::ExpectingPair => "expecting a pair",
            EvalError::ExpectingAtom => "expecting an atom in let declaration pair",
            EvalError::ExpectingListInCond => "expecting a list in cond",
            EvalError::InvalidCond => "invalid format in cond",
            EvalError::WrongArgumentCount => "applied to incorrect number of args",
            EvalError::InvalidParameter => "parameter must be an atom",
            EvalError::UnknownFrame => "procedure refers to an unknown scope",
            EvalError::UnableToApply => "unable to apply",
            EvalError::MustBeNumber => "must be a number",
            EvalError::CannotAdd => "cannot add a non-number",
            EvalError::CannotMultiply => "cannot multiply a non-number",
            EvalError::SubNeedsArgument => "- requires at least one argument",
            EvalError::CannotSubtract => "cannot subtract a non-number",
            EvalError::IncorrectArgumentCount => "called with incorrect number of arguments",
            EvalError::EmptyList => "called with incorrect type ()",
            EvalError::IncorrectType => "called with incorrect type",
            EvalError::ArgumentMustBeList => "argument must be a list",
            EvalError::AppendIncorrectType => "incorrect type passed to append",
            EvalError::LengthIncorrectType => "length called with incorrect type",
            EvalError::ReverseIncorrectType => "reverse called with incorrect type",
            EvalError::ApplyExpectingList => "apply expecting a list",
            EvalError::LoadIncorrectType => "load called with incorrect type",
            EvalError::InputPortsUnsupported => "input ports are not yet supported for read",
            EvalError::ReadFailed => "read error",
            EvalError::OutputPortsUnsupported => "output ports are not yet supported for display",
            EvalError::KeyNotFound => "key not found",
            EvalError::Overflow => "integer overflow",
            EvalError::TooDeep => "evaluation nested too deeply",
            EvalError::InputRequired => "read needs a line of input",
            EvalError::SourceRequired => "load needs the text of its file",
        }
    }

    /// Whether the failure asks the host to supply something and evaluate again.
    pub fn needs_host(&self) -> (r: bool)
        ensures
            r == self.is_request(),
    {
        match self {
            EvalError::InputRequired => true,
            EvalError::SourceRequired => true,
            _ => false,
        }
    }
}

/// The kinds of failure while reading.
#[derive(Clone, Copy, Debug, PartialEq, Eq, Structural)]
pub enum ReadErrorKind {
    /// A character that starts no token.
    UnexpectedSymbol,
    /// A string that is cut short by the end of its line or of the text.
    UnterminatedString,
    /// A dotted tail that is not closed right after its one datum.
    ExpectingRightParen,
    /// A token that starts no datum, or the end of the text inside a list.
    ExpectingList,
    /// A literal token that carries no literal.
    MalformedToken,
}

impl ReadErrorKind {
    /// The wording of each failure.
    pub open spec fn text(self) -> Seq<char> {
        match self {
            ReadErrorKind::UnexpectedSymbol => "unexpected symbol"@,
            ReadErrorKind::UnterminatedString => "unterminated string."@,
            ReadErrorKind::ExpectingRightParen => "expecting right paren"@,
            ReadErrorKind::ExpectingList => "expecting a list"@,
            ReadErrorKind::MalformedToken => "expecting number, float, boolean, or identifier"@,
        }
    }

    /// The wording of the failure.
    pub fn message(&self) -> (m: &'static str)
        ensures
            m@ == self.text(),
    {
        match self {
            ReadErrorKind::UnexpectedSymbol => "unexpected symbol",
            ReadErrorKind::UnterminatedString => "unterminated string.",
            ReadErrorKind::ExpectingRightParen => "expecting right paren",
            ReadErrorKind::ExpectingList => "expecting a list",
            ReadErrorKind::MalformedToken => "expecting number, float, boolean, or identifier",
        }
    }
}

} // verus!
