use vstd::prelude::*;

verus! {

/// What the parser found wrong.
#[derive(Debug, PartialEq, Clone)]
pub enum ErrorKind {
    Generic,
    ExpectedToken(char),
    ExpectedCharRange { range: String },
    ExpectedMessageField { entry_id: String },
    ExpectedTermField { entry_id: String },
    MissingValue,
    MissingDefaultVariant,
    MultipleDefaultVariants,
    TermAttributeAsPlaceable,
    MessageReferenceAsSelector,
    MessageAttributeAsSelector,
    TermReferenceAsSelector,
    ExpectedSimpleExpressionAsSelector,
    ExpectedInlineExpression,
    InvalidUnicodeEscapeSequence(String),
    UnbalancedClosingBrace,
    ForbiddenCallee,
    DuplicatedNamedArgument(String),
    PositionalArgumentFollowsNamed,
}

/// A recoverable error: its kind, the byte range it points at and, once the
/// parser has recovered, the byte range of the junk it left behind.
#[derive(Debug, PartialEq)]
pub struct ParserError {
    pub pos: (usize, usize),
    pub slice: Option<(usize, usize)>,
    pub kind: ErrorKind,
}

pub ghost enum ErrorKindView {
    Generic,
    ExpectedToken(char),
    ExpectedCharRange { range: Seq<char> },
    ExpectedMessageField { entry_id: Seq<char> },
    ExpectedTermField { entry_id: Seq<char> },
    MissingValue,
    MissingDefaultVariant,
    MultipleDefaultVariants,
    TermAttributeAsPlaceable,
    MessageReferenceAsSelector,
    MessageAttributeAsSelector,
    TermReferenceAsSelector,
    ExpectedSimpleExpressionAsSelector,
    ExpectedInlineExpression,
    InvalidUnicodeEscapeSequence(Seq<char>),
    UnbalancedClosingBrace,
    ForbiddenCallee,
    DuplicatedNamedArgument(Seq<char>),
    PositionalArgumentFollowsNamed,
}

pub ghost struct ParserErrorView {
    pub pos: (int, int),
    pub slice: Option<(int, int)>,
    pub kind: ErrorKindView,
}

impl ErrorKind {
    pub open spec fn view(&self) -> ErrorKindView {
        match self {
            ErrorKind::Generic => ErrorKindView::Generic,
            ErrorKind::ExpectedToken(c) => ErrorKindView::ExpectedToken(*c),
            ErrorKind::ExpectedCharRange { range } => ErrorKindView::ExpectedCharRange {
                range: range@,
            },
            ErrorKind::ExpectedMessageField { entry_id } => ErrorKindView::ExpectedMessageField {
                entry_id: entry_id@,
            },
            ErrorKind::ExpectedTermField { entry_id } => ErrorKindView::ExpectedTermField {
                entry_id: entry_id@,
            },
            ErrorKind::MissingValue => ErrorKindView::MissingValue,
            ErrorKind::MissingDefaultVariant => ErrorKindView::MissingDefaultVariant,
            ErrorKind::MultipleDefaultVariants => ErrorKindView::MultipleDefaultVariants,
            ErrorKind::TermAttributeAsPlaceable => ErrorKindView::TermAttributeAsPlaceable,
            ErrorKind::MessageReferenceAsSelector => ErrorKindView::MessageReferenceAsSelector,
            ErrorKind::MessageAttributeAsSelector => ErrorKindView::MessageAttributeAsSelector,
            ErrorKind::TermReferenceAsSelector => ErrorKindView::TermReferenceAsSelector,
            ErrorKind::ExpectedSimpleExpressionAsSelector => {
                ErrorKindView::ExpectedSimpleExpressionAsSelector
            },
            ErrorKind::ExpectedInlineExpression => ErrorKindView::ExpectedInlineExpression,
            ErrorKind::InvalidUnicodeEscapeSequence(s) => {
                ErrorKindView::InvalidUnicodeEscapeSequence(s@)
            },
            ErrorKind::UnbalancedClosingBrace => ErrorKindView::UnbalancedClosingBrace,
            ErrorKind::ForbiddenCallee => ErrorKindView::ForbiddenCallee,
            ErrorKind::DuplicatedNamedArgument(s) => ErrorKindView::DuplicatedNamedArgument(s@),
            ErrorKind::PositionalArgumentFollowsNamed => {
                ErrorKindView::PositionalArgumentFollowsNamed
            },
        }
    }
}

impl ParserError {
    pub open spec fn view(&self) -> ParserErrorView {
        ParserErrorView {
            pos: (self.pos.0 as int, self.pos.1 as int),
            slice: match self.slice {
                Some(s) => Some((s.0 as int, s.1 as int)),
                None => None,
            },
            kind: self.kind.view(),
        }
    }
}

impl ErrorKind {
    /// A copy of the kind.
    pub fn duplicate(&self) -> (r: ErrorKind)
        ensures
            r.view() == self.view(),
    {
        match self {
            ErrorKind::Generic => ErrorKind::Generic,
            ErrorKind::ExpectedToken(c) => ErrorKind::ExpectedToken(*c),
            ErrorKind::ExpectedCharRange { range } => ErrorKind::ExpectedCharRange {
                range: range.clone(),
            },
            ErrorKind::ExpectedMessageField { entry_id } => ErrorKind::ExpectedMessageField {
                entry_id: entry_id.clone(),
            },
            ErrorKind::ExpectedTermField { entry_id } => ErrorKind::ExpectedTermField {
                entry_id: entry_id.clone(),
            },
            ErrorKind::MissingValue => ErrorKind::MissingValue,
            ErrorKind::MissingDefaultVariant => ErrorKind::MissingDefaultVariant,
            ErrorKind::MultipleDefaultVariants => ErrorKind::MultipleDefaultVariants,
            ErrorKind::TermAttributeAsPlaceable => ErrorKind::TermAttributeAsPlaceable,
            ErrorKind::MessageReferenceAsSelector => ErrorKind::MessageReferenceAsSelector,
            ErrorKind::MessageAttributeAsSelector => ErrorKind::MessageAttributeAsSelector,
            ErrorKind::TermReferenceAsSelector => ErrorKind::TermReferenceAsSelector,
            ErrorKind::ExpectedSimpleExpressionAsSelector => {
                ErrorKind::ExpectedSimpleExpressionAsSelector
            },
            ErrorKind::ExpectedInlineExpression => ErrorKind::ExpectedInlineExpression,
            ErrorKind::InvalidUnicodeEscapeSequence(s) => ErrorKind::InvalidUnicodeEscapeSequence(
                s.clone(),
            ),
            ErrorKind::UnbalancedClosingBrace => ErrorKind::UnbalancedClosingBrace,
            ErrorKind::ForbiddenCallee => ErrorKind::ForbiddenCallee,
            ErrorKind::DuplicatedNamedArgument(s) => ErrorKind::DuplicatedNamedArgument(s.clone()),
            ErrorKind::PositionalArgumentFollowsNamed => ErrorKind::PositionalArgumentFollowsNamed,
        }
    }
}

impl ParserError {
    /// A copy of the error.
    pub fn duplicate(&self) -> (r: ParserError)
        ensures
            r.view() == self.view(),
    {
        ParserError { pos: self.pos, slice: self.slice, kind: self.kind.duplicate() }
    }
}

/// The position after `p`, as far as positions go.
pub open spec fn next_pos(p: int) -> int {
    if p < usize::MAX {
        p + 1
    } else {
        p
    }
}

/// The error of kind `kind` that points at the byte at `p`.
pub open spec fn fail_at(kind: ErrorKindView, p: int) -> ParserErrorView {
    ParserErrorView { pos: (p, next_pos(p)), slice: None, kind }
}

/// The error of kind `kind` that points at the bytes from `start` to `end`.
pub open spec fn fail_over(kind: ErrorKindView, start: int, end: int) -> ParserErrorView {
    ParserErrorView { pos: (start, end), slice: None, kind }
}

/// Builds the error that points at the byte at `p`.
pub fn error_at(kind: ErrorKind, p: usize) -> (e: ParserError)
    ensures
        e.view() == fail_at(kind.view(), p as int),
{
    let end = if p < usize::MAX {
        p + 1
    } else {
        p
    };
    ParserError { pos: (p, end), slice: None, kind }
}

/// Builds the error that points at the bytes from `start` to `end`.
pub fn error_over(kind: ErrorKind, start: usize, end: usize) -> (e: ParserError)
    ensures
        e.view() == fail_over(kind.view(), start as int, end as int),
{
    ParserError { pos: (start, end), slice: None, kind }
}

} // verus!
