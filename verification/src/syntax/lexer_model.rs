use crate::syntax::grammar::{
    ASTERISK, BACKSLASH, blank_inline_end, CLOSE_BRACE, CLOSE_BRACKET, CLOSE_PAREN, COLON, COMMA,
    CR, digits_end, DOLLAR, DOT, EQUALS, GREATER, HASH, hex_end, ident_end, is_alpha, is_at,
    is_digit, LF, LOWER_U, MINUS, OPEN_BRACE, OPEN_BRACKET, OPEN_PAREN, QUOTE, SPACE, UPPER_U,
};
use vstd::prelude::*;

verus! {

/// What the lexer reads next.
#[derive(PartialEq, Eq, Structural, Clone, Copy, Debug)]
pub enum LexerState {
    Resource,
    Pattern,
    PatternContinuation,
    PatternNewLine,
    Message,
    Comment,
    Expression,
}

/// What the lexer cannot read.
#[derive(PartialEq, Eq, Structural, Clone, Copy, Debug)]
pub enum LexerError {
    Unknown,
}

/// A token by its kind and, where it has text, the byte range of its text.
pub ghost enum TokenView {
    Identifier(int, int),
    EqSign,
    CommentSign,
    GroupCommentSign,
    ResourceCommentSign,
    Eol(int),
    Eot,
    Dot,
    MinusSign,
    Indent(int),
    Text(int, int),
    Junk(int, int),
    OpenCurlyBraces,
    CloseCurlyBraces,
    OpenBraces,
    CloseBraces,
    DoubleQuote,
    Number(int, int),
    SelectorArrow,
    Asterisk,
    OpenSquareBracket,
    CloseSquareBracket,
    Comma,
    Colon,
    Dollar,
}

/// Where a lexer stands: what it reads next, at which byte, where the entry
/// under way started, and what it goes back to when a pattern or an
/// expression ends.
pub ghost struct LexerView {
    pub state: LexerState,
    pub ptr: int,
    pub entry_start: int,
    pub stack: Seq<LexerState>,
}

/// One step of a lexer: the token, none at the end of the source or an
/// error, and where the lexer stands behind it.
pub ghost struct Lexed {
    pub token: Result<Option<TokenView>, LexerError>,
    pub after: LexerView,
}

/// The lexer at another byte.
pub open spec fn at(v: LexerView, ptr: int) -> LexerView {
    LexerView { state: v.state, ptr, entry_start: v.entry_start, stack: v.stack }
}

/// The lexer at another byte, reading something else next.
pub open spec fn turned(v: LexerView, ptr: int, state: LexerState) -> LexerView {
    LexerView { state, ptr, entry_start: v.entry_start, stack: v.stack }
}

/// A step that gives a token.
pub open spec fn token(t: TokenView, after: LexerView) -> Lexed {
    Lexed { token: Ok(Some(t)), after }
}

/// A step that gives nothing: the source has ended.
pub open spec fn nothing(after: LexerView) -> Lexed {
    Lexed { token: Ok(None), after }
}

/// A step that fails.
pub open spec fn failure(after: LexerView) -> Lexed {
    Lexed { token: Err(LexerError::Unknown), after }
}

/// The first position from `p` on that holds neither a space nor a line
/// feed.
pub open spec fn ws_end(b: Seq<u8>, p: int) -> int
    decreases b.len() - p,
{
    if is_at(b, p, SPACE) || is_at(b, p, LF) {
        ws_end(b, p + 1)
    } else {
        p
    }
}

/// Whether a carriage return and a line feed stand at `p`.
pub open spec fn is_crlf(b: Seq<u8>, p: int) -> bool {
    is_at(b, p, CR) && is_at(b, p + 1, LF)
}

/// The stack with the pattern to go back to, where the lexer is inside an
/// expression already.
pub open spec fn into_placeable(stack: Seq<LexerState>) -> Seq<LexerState> {
    if stack.len() > 0 {
        stack.push(LexerState::Pattern)
    } else {
        stack
    }
}

/// The state on top of the stack, or `otherwise` where the stack is empty.
pub open spec fn top_or(stack: Seq<LexerState>, otherwise: LexerState) -> LexerState {
    if stack.len() > 0 {
        stack.last()
    } else {
        otherwise
    }
}

/// The stack without its top.
pub open spec fn without_top(stack: Seq<LexerState>) -> Seq<LexerState> {
    if stack.len() > 0 {
        stack.drop_last()
    } else {
        stack
    }
}

/// The step of a lexer that reads a message: behind spaces `=`, `.` or an
/// identifier.
pub open spec fn lex_message(b: Seq<u8>, v: LexerView) -> Lexed {
    let p = blank_inline_end(b, v.ptr);
    if !(0 <= p < b.len()) {
        nothing(at(v, p))
    } else if b[p] == EQUALS {
        token(TokenView::EqSign, turned(v, p + 1, LexerState::Pattern))
    } else if b[p] == DOT {
        token(TokenView::Dot, at(v, p + 1))
    } else if is_alpha(b[p]) {
        token(TokenView::Identifier(p, ident_end(b, p + 1)), at(v, ident_end(b, p + 1)))
    } else {
        failure(at(v, p))
    }
}

/// The step of a lexer that reads a resource: the end of a line, the name of
/// a message, the sigil of a comment or the `-` of a term.
pub open spec fn lex_resource(b: Seq<u8>, v: LexerView) -> Lexed {
    let p = v.ptr;
    let v = LexerView { state: v.state, ptr: p, entry_start: p, stack: v.stack };
    if !(0 <= p < b.len()) {
        nothing(v)
    } else if is_crlf(b, p) {
        token(TokenView::Eol(1), at(v, p + 2))
    } else if b[p] == LF {
        token(TokenView::Eol(1), at(v, p + 1))
    } else if is_alpha(b[p]) {
        token(
            TokenView::Identifier(p, ident_end(b, p + 1)),
            turned(v, ident_end(b, p + 1), LexerState::Message),
        )
    } else if b[p] == HASH {
        let (sigil, q) = if is_at(b, p + 1, HASH) {
            if is_at(b, p + 2, HASH) {
                (TokenView::ResourceCommentSign, p + 3)
            } else {
                (TokenView::GroupCommentSign, p + 2)
            }
        } else {
            (TokenView::CommentSign, p + 1)
        };
        if is_at(b, q, SPACE) {
            token(sigil, turned(v, q + 1, LexerState::Comment))
        } else if is_crlf(b, q) {
            token(sigil, at(v, q + 1))
        } else if is_at(b, q, LF) {
            token(sigil, at(v, q))
        } else {
            failure(at(v, q))
        }
    } else if b[p] == MINUS {
        token(TokenView::MinusSign, turned(v, p + 1, LexerState::Message))
    } else {
        failure(v)
    }
}

/// Where a run of text that starts at `start` ends, seen from `p`: at the
/// end of its line, before a placeable or at the end of the source.
pub open spec fn lex_continuation_from(b: Seq<u8>, v: LexerView, start: int, p: int) -> Lexed
    decreases b.len() - p,
{
    if !(0 <= p < b.len()) {
        if start != p {
            token(TokenView::Text(start, p), at(v, p))
        } else {
            token(TokenView::Eot, turned(v, blank_inline_end(b, p), LexerState::Message))
        }
    } else if is_crlf(b, p) {
        token(TokenView::Text(start, p), at(v, p + 1))
    } else if b[p] == LF {
        token(TokenView::Text(start, p + 1), turned(v, p + 1, LexerState::PatternNewLine))
    } else if b[p] == OPEN_BRACE {
        if start != p {
            token(TokenView::Text(start, p), at(v, p))
        } else {
            token(
                TokenView::OpenCurlyBraces,
                LexerView {
                    state: LexerState::Expression,
                    ptr: ws_end(b, p + 1),
                    entry_start: v.entry_start,
                    stack: into_placeable(v.stack),
                },
            )
        }
    } else if b[p] == CLOSE_BRACE {
        failure(at(v, p))
    } else {
        lex_continuation_from(b, v, start, p + 1)
    }
}

/// The step of a lexer that reads on in a pattern.
pub open spec fn lex_pattern_continuation(b: Seq<u8>, v: LexerView) -> Lexed {
    lex_continuation_from(b, v, v.ptr, v.ptr)
}

/// The step of a lexer that reads the start of a line of a pattern: the
/// pattern goes on where the line is blank or indented, else it has ended.
pub open spec fn lex_pattern_new_line(b: Seq<u8>, v: LexerView) -> Lexed {
    let p = blank_inline_end(b, v.ptr);
    let indent = p - v.ptr;
    if !(0 <= p < b.len()) {
        token(TokenView::Eot, turned(v, p, LexerState::Message))
    } else if b[p] == DOT {
        token(TokenView::Eot, turned(v, p, LexerState::Message))
    } else if is_crlf(b, p) {
        token(TokenView::Eol(1), at(v, p + 2))
    } else if b[p] == LF {
        token(TokenView::Eol(1), at(v, p + 1))
    } else if b[p] == OPEN_BRACE {
        token(TokenView::Indent(indent), turned(v, p, LexerState::PatternContinuation))
    } else if b[p] == ASTERISK || b[p] == OPEN_BRACKET || b[p] == CLOSE_BRACE {
        token(
            TokenView::Eot,
            LexerView {
                state: top_or(v.stack, LexerState::Expression),
                ptr: p,
                entry_start: v.entry_start,
                stack: without_top(v.stack),
            },
        )
    } else if indent > 0 {
        token(TokenView::Indent(indent), turned(v, p, LexerState::PatternContinuation))
    } else if v.stack.len() == 0 {
        token(TokenView::Eot, turned(v, p, LexerState::Resource))
    } else {
        failure(
            LexerView {
                state: LexerState::Resource,
                ptr: p,
                entry_start: v.entry_start,
                stack: Seq::empty(),
            },
        )
    }
}

/// The step of a lexer that reads the start of a pattern.
pub open spec fn lex_pattern(b: Seq<u8>, v: LexerView) -> Lexed {
    let p = blank_inline_end(b, v.ptr);
    if !(0 <= p < b.len()) {
        nothing(turned(v, p, LexerState::Message))
    } else if is_crlf(b, p) {
        lex_pattern_new_line(b, turned(v, p + 2, LexerState::PatternNewLine))
    } else if b[p] == LF {
        lex_pattern_new_line(b, turned(v, p + 1, LexerState::PatternNewLine))
    } else if b[p] == OPEN_BRACE {
        token(
            TokenView::OpenCurlyBraces,
            LexerView {
                state: LexerState::Expression,
                ptr: ws_end(b, p + 1),
                entry_start: v.entry_start,
                stack: into_placeable(v.stack),
            },
        )
    } else if b[p] == CLOSE_BRACE {
        failure(at(v, p))
    } else {
        lex_pattern_continuation(b, turned(v, p, LexerState::PatternContinuation))
    }
}

/// Where the string literal whose content is seen from `p` closes, or where
/// it goes wrong.
pub open spec fn lex_string_from(b: Seq<u8>, p: int) -> Result<int, int>
    decreases b.len() - p,
{
    if !(0 <= p < b.len()) {
        Err(p)
    } else if b[p] == BACKSLASH {
        if is_at(b, p + 1, BACKSLASH) || is_at(b, p + 1, OPEN_BRACE) || is_at(b, p + 1, QUOTE) {
            lex_string_from(b, p + 2)
        } else if is_at(b, p + 1, LOWER_U) || is_at(b, p + 1, UPPER_U) {
            let n: nat = if is_at(b, p + 1, LOWER_U) {
                4
            } else {
                6
            };
            let q = hex_end(b, p + 2, n);
            if q - (p + 2) != n {
                Err(q)
            } else if p < q <= b.len() {
                lex_string_from(b, q)
            } else {
                Err(q)
            }
        } else {
            Err(p)
        }
    } else if b[p] == QUOTE {
        Ok(p)
    } else if b[p] == LF {
        Err(p + 1)
    } else {
        lex_string_from(b, p + 1)
    }
}

/// The step of a lexer that reads an expression.
pub open spec fn lex_expression(b: Seq<u8>, v: LexerView) -> Lexed {
    let p = v.ptr;
    if !(0 <= p < b.len()) {
        failure(v)
    } else if is_digit(b[p]) {
        let q = digits_end(b, p + 1);
        if is_at(b, q, DOT) {
            let q1 = digits_end(b, q + 1);
            if q1 == q + 1 {
                failure(at(v, q1))
            } else {
                token(TokenView::Number(p, q1), at(v, ws_end(b, q1)))
            }
        } else {
            token(TokenView::Number(p, q), at(v, ws_end(b, q)))
        }
    } else if is_alpha(b[p]) {
        token(
            TokenView::Identifier(p, ident_end(b, p + 1)),
            at(v, ws_end(b, ident_end(b, p + 1))),
        )
    } else if b[p] == DOT {
        token(TokenView::Dot, at(v, p + 1))
    } else if b[p] == MINUS && is_at(b, p + 1, GREATER) {
        let q = blank_inline_end(b, p + 2);
        if is_at(b, q, LF) {
            token(TokenView::SelectorArrow, at(v, ws_end(b, q)))
        } else {
            failure(at(v, q))
        }
    } else if b[p] == MINUS {
        token(TokenView::MinusSign, at(v, p + 1))
    } else if b[p] == OPEN_PAREN {
        token(TokenView::OpenBraces, at(v, ws_end(b, p + 1)))
    } else if b[p] == COMMA {
        token(TokenView::Comma, at(v, ws_end(b, p + 1)))
    } else if b[p] == CLOSE_PAREN {
        token(TokenView::CloseBraces, at(v, blank_inline_end(b, p + 1)))
    } else if b[p] == DOLLAR {
        token(TokenView::Dollar, at(v, p + 1))
    } else if b[p] == QUOTE {
        match lex_string_from(b, p + 1) {
            Ok(q) => token(TokenView::Text(p + 1, q), at(v, blank_inline_end(b, q + 1))),
            Err(q) => failure(at(v, q)),
        }
    } else if b[p] == SPACE {
        let q = blank_inline_end(b, p);
        if is_at(b, q, CLOSE_BRACE) {
            token(TokenView::CloseCurlyBraces, turned(v, q + 1, LexerState::PatternContinuation))
        } else {
            failure(at(v, q))
        }
    } else if b[p] == ASTERISK {
        token(TokenView::Asterisk, at(v, p + 1))
    } else if b[p] == OPEN_BRACKET {
        token(TokenView::OpenSquareBracket, at(v, ws_end(b, p + 1)))
    } else if b[p] == CLOSE_BRACKET {
        token(
            TokenView::CloseSquareBracket,
            LexerView {
                state: LexerState::Pattern,
                ptr: p + 1,
                entry_start: v.entry_start,
                stack: v.stack.push(LexerState::Expression),
            },
        )
    } else if b[p] == COLON {
        token(TokenView::Colon, at(v, ws_end(b, p + 1)))
    } else if b[p] == OPEN_BRACE {
        token(
            TokenView::OpenCurlyBraces,
            LexerView {
                state: v.state,
                ptr: ws_end(b, p + 1),
                entry_start: v.entry_start,
                stack: v.stack.push(LexerState::Expression),
            },
        )
    } else if b[p] == CLOSE_BRACE {
        token(
            TokenView::CloseCurlyBraces,
            LexerView {
                state: top_or(v.stack, LexerState::PatternContinuation),
                ptr: p + 1,
                entry_start: v.entry_start,
                stack: without_top(v.stack),
            },
        )
    } else {
        failure(v)
    }
}

/// The first position from `p` on that holds a line feed, or the end of the
/// source.
pub open spec fn feed_at(b: Seq<u8>, p: int) -> int
    decreases b.len() - p,
{
    if 0 <= p < b.len() && b[p] != LF && !is_crlf(b, p) {
        feed_at(b, p + 1)
    } else {
        p
    }
}

/// The step of a lexer that reads the text of a comment: the rest of the
/// line, without its terminator.
pub open spec fn lex_comment(b: Seq<u8>, v: LexerView) -> Lexed {
    let q = feed_at(b, v.ptr);
    let next = if is_at(b, q, LF) {
        q + 1
    } else if is_crlf(b, q) {
        q + 2
    } else {
        q
    };
    token(TokenView::Text(v.ptr, q), turned(v, next, LexerState::Resource))
}

/// One step of a lexer.
pub open spec fn lex(b: Seq<u8>, v: LexerView) -> Lexed {
    match v.state {
        LexerState::Resource => lex_resource(b, v),
        LexerState::Pattern => lex_pattern(b, v),
        LexerState::PatternContinuation => lex_pattern_continuation(b, v),
        LexerState::PatternNewLine => lex_pattern_new_line(b, v),
        LexerState::Message => lex_message(b, v),
        LexerState::Comment => lex_comment(b, v),
        LexerState::Expression => lex_expression(b, v),
    }
}

/// Whether an entry can start at `p`: behind a line feed, with a letter, `#`
/// or `-`.
pub open spec fn is_junk_end(b: Seq<u8>, p: int) -> bool {
    0 < p < b.len() && b[p - 1] == LF && (is_alpha(b[p]) || b[p] == HASH || b[p] == MINUS)
}

/// The first position from `p` on at which an entry can start, or the end of
/// the source.
pub open spec fn junk_stop(b: Seq<u8>, p: int) -> int
    decreases b.len() - p,
{
    if !(0 <= p < b.len()) || is_junk_end(b, p) {
        p
    } else {
        junk_stop(b, p + 1)
    }
}

} // verus!
