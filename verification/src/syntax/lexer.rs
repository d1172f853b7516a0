use crate::syntax::grammar::{
    ASTERISK, BACKSLASH, blank_inline_end, byte_is_alpha, byte_is_digit, byte_is_hex_digit,
    byte_is_ident, CLOSE_BRACE, CLOSE_BRACKET, CLOSE_PAREN, COLON, COMMA, CR, digits_end, DOLLAR,
    DOT, EQUALS, GREATER, HASH, hex_end, ident_end, is_at, LF, LOWER_U, MINUS, OPEN_BRACE,
    OPEN_BRACKET, OPEN_PAREN, QUOTE, SPACE, UPPER_U,
};
use crate::syntax::lexer_model::{
    at, feed_at, into_placeable, is_crlf, junk_stop, lex, lex_comment, lex_continuation_from,
    lex_expression, lex_message, lex_pattern, lex_pattern_continuation, lex_pattern_new_line,
    lex_resource, lex_string_from, Lexed, LexerError, LexerState, LexerView, token, TokenView,
    top_or, without_top, ws_end,
};
use std::ops::Range;
use vstd::prelude::*;

verus! {

/// A token: its kind and, where it has text, the byte range of its text.
#[derive(Debug, PartialEq)]
pub enum Token {
    Identifier(Range<usize>),
    EqSign,
    CommentSign,
    GroupCommentSign,
    ResourceCommentSign,
    /// One or more empty lines.
    Eol(usize),
    /// The end of a run of text.
    Eot,
    Dot,
    MinusSign,
    Indent(usize),
    Text(Range<usize>),
    Junk(Range<usize>),
    OpenCurlyBraces,
    CloseCurlyBraces,
    OpenBraces,
    CloseBraces,
    DoubleQuote,
    Number(Range<usize>),
    SelectorArrow,
    Asterisk,
    OpenSquareBracket,
    CloseSquareBracket,
    Comma,
    Colon,
    Dollar,
}

/// What the line behind a pattern holds.
#[derive(Debug, PartialEq)]
pub enum NextLine {
    TextContinuation(usize),
    Attribute,
    NewEntry,
    Eol(usize),
}

impl Token {
    pub open spec fn view(&self) -> TokenView {
        match self {
            Token::Identifier(r) => TokenView::Identifier(r.start as int, r.end as int),
            Token::EqSign => TokenView::EqSign,
            Token::CommentSign => TokenView::CommentSign,
            Token::GroupCommentSign => TokenView::GroupCommentSign,
            Token::ResourceCommentSign => TokenView::ResourceCommentSign,
            Token::Eol(n) => TokenView::Eol(*n as int),
            Token::Eot => TokenView::Eot,
            Token::Dot => TokenView::Dot,
            Token::MinusSign => TokenView::MinusSign,
            Token::Indent(n) => TokenView::Indent(*n as int),
            Token::Text(r) => TokenView::Text(r.start as int, r.end as int),
            Token::Junk(r) => TokenView::Junk(r.start as int, r.end as int),
            Token::OpenCurlyBraces => TokenView::OpenCurlyBraces,
            Token::CloseCurlyBraces => TokenView::CloseCurlyBraces,
            Token::OpenBraces => TokenView::OpenBraces,
            Token::CloseBraces => TokenView::CloseBraces,
            Token::DoubleQuote => TokenView::DoubleQuote,
            Token::Number(r) => TokenView::Number(r.start as int, r.end as int),
            Token::SelectorArrow => TokenView::SelectorArrow,
            Token::Asterisk => TokenView::Asterisk,
            Token::OpenSquareBracket => TokenView::OpenSquareBracket,
            Token::CloseSquareBracket => TokenView::CloseSquareBracket,
            Token::Comma => TokenView::Comma,
            Token::Colon => TokenView::Colon,
            Token::Dollar => TokenView::Dollar,
        }
    }

    /// Whether the two tokens are of the same kind over the same range.
    pub fn same(&self, other: &Token) -> (r: bool)
        ensures
            r == (self.view() == other.view()),
    {
        match self {
            Token::Identifier(a) => match other {
                Token::Identifier(b) => a.start == b.start && a.end == b.end,
                _ => false,
            },
            Token::EqSign => match other {
                Token::EqSign => true,
                _ => false,
            },
            Token::CommentSign => match other {
                Token::CommentSign => true,
                _ => false,
            },
            Token::GroupCommentSign => match other {
                Token::GroupCommentSign => true,
                _ => false,
            },
            Token::ResourceCommentSign => match other {
                Token::ResourceCommentSign => true,
                _ => false,
            },
            Token::Eol(a) => match other {
                Token::Eol(b) => *a == *b,
                _ => false,
            },
            Token::Eot => match other {
                Token::Eot => true,
                _ => false,
            },
            Token::Dot => match other {
                Token::Dot => true,
                _ => false,
            },
            Token::MinusSign => match other {
                Token::MinusSign => true,
                _ => false,
            },
            Token::Indent(a) => match other {
                Token::Indent(b) => *a == *b,
                _ => false,
            },
            Token::Text(a) => match other {
                Token::Text(b) => a.start == b.start && a.end == b.end,
                _ => false,
            },
            Token::Junk(a) => match other {
                Token::Junk(b) => a.start == b.start && a.end == b.end,
                _ => false,
            },
            Token::OpenCurlyBraces => match other {
                Token::OpenCurlyBraces => true,
                _ => false,
            },
            Token::CloseCurlyBraces => match other {
                Token::CloseCurlyBraces => true,
                _ => false,
            },
            Token::OpenBraces => match other {
                Token::OpenBraces => true,
                _ => false,
            },
            Token::CloseBraces => match other {
                Token::CloseBraces => true,
                _ => false,
            },
            Token::DoubleQuote => match other {
                Token::DoubleQuote => true,
                _ => false,
            },
            Token::Number(a) => match other {
                Token::Number(b) => a.start == b.start && a.end == b.end,
                _ => false,
            },
            Token::SelectorArrow => match other {
                Token::SelectorArrow => true,
                _ => false,
            },
            Token::Asterisk => match other {
                Token::Asterisk => true,
                _ => false,
            },
            Token::OpenSquareBracket => match other {
                Token::OpenSquareBracket => true,
                _ => false,
            },
            Token::CloseSquareBracket => match other {
                Token::CloseSquareBracket => true,
                _ => false,
            },
            Token::Comma => match other {
                Token::Comma => true,
                _ => false,
            },
            Token::Colon => match other {
                Token::Colon => true,
                _ => false,
            },
            Token::Dollar => match other {
                Token::Dollar => true,
                _ => false,
            },
        }
    }
}

pub type LexerResult = Result<Token, LexerError>;

pub type LexerOptionResult = Result<Option<Token>, LexerError>;

/// What a step of the lexer gave, as the model has it.
pub open spec fn outcome(r: LexerOptionResult) -> Result<Option<TokenView>, LexerError> {
    match r {
        Ok(Some(t)) => Ok(Some(t.view())),
        Ok(None) => Ok(None),
        Err(e) => Err(e),
    }
}

/// A lexer over the bytes of a source. What it takes a byte for depends on
/// what it reads: a resource, a message, a pattern, an expression or a
/// comment.
#[derive(Clone, Debug)]
pub struct Lexer<'l> {
    state: LexerState,
    source: &'l [u8],
    ptr: usize,
    entry_start: usize,
    stack: Vec<LexerState>,
}

impl<'l> Lexer<'l> {
    /// The bytes of the source.
    pub closed spec fn bytes(&self) -> Seq<u8> {
        self.source@
    }

    /// Where the lexer stands.
    pub closed spec fn view(&self) -> LexerView {
        LexerView {
            state: self.state,
            ptr: self.ptr as int,
            entry_start: self.entry_start as int,
            stack: self.stack@,
        }
    }

    /// The lexer stands inside its source.
    pub closed spec fn wf(&self) -> bool {
        self.ptr <= self.source@.len() <= usize::MAX
    }

    /// The lexer has made the step `m` from where `before` stood.
    pub closed spec fn stepped(&self, before: Self, m: Lexed) -> bool {
        &&& self.source == before.source
        &&& self.view() == m.after
        &&& self.wf()
    }

    /// A lexer that stands inside its source stands at one of its bytes or at
    /// its end.
    pub proof fn lemma_inside(&self)
        requires
            self.wf(),
        ensures
            0 <= self.view().ptr <= self.bytes().len() <= usize::MAX,
            0 <= self.view().entry_start,
    {
    }

    /// A lexer at the start of `source`, about to read a resource.
    pub fn new(source: &'l [u8]) -> (r: Self)
        ensures
            r.wf(),
            r.bytes() == source@,
            r.view() == (LexerView {
                state: LexerState::Resource,
                ptr: 0,
                entry_start: 0,
                stack: Seq::empty(),
            }),
    {
        let size = source.len();
        Lexer { state: LexerState::Resource, source, ptr: 0, entry_start: 0, stack: Vec::new() }
    }

    fn peek(&self, p: usize) -> (r: Option<u8>)
        ensures
            r == if p < self.source@.len() {
                Some(self.source@[p as int])
            } else {
                None
            },
    {
        if p < self.source.len() {
            Some(self.source[p])
        } else {
            None
        }
    }

    fn is_byte(&self, p: usize, c: u8) -> (r: bool)
        ensures
            r == is_at(self.source@, p as int, c),
    {
        p < self.source.len() && self.source[p] == c
    }

    fn is_byte_after(&self, p: usize, c: u8) -> (r: bool)
        ensures
            r == is_at(self.source@, p + 1, c),
    {
        p < self.source.len() && self.is_byte(p + 1, c)
    }

    fn crlf_at(&self, p: usize) -> (r: bool)
        ensures
            r == is_crlf(self.source@, p as int),
    {
        self.is_byte(p, CR) && self.is_byte_after(p, LF)
    }

    fn get_ident(&mut self) -> (r: Token)
        requires
            old(self).wf(),
            old(self).ptr < old(self).source@.len(),
        ensures
            final(self).source == old(self).source,
            final(self).state == old(self).state,
            final(self).entry_start == old(self).entry_start,
            final(self).stack == old(self).stack,
            final(self).ptr == ident_end(old(self).source@, old(self).ptr + 1),
            old(self).ptr < final(self).ptr <= final(self).source@.len(),
            r.view() == TokenView::Identifier(old(self).ptr as int, final(self).ptr as int),
    {
        let start = self.ptr;
        self.ptr += 1;
        loop
            invariant
                self.source == old(self).source,
                self.source@.len() <= usize::MAX,
                self.state == old(self).state,
                self.entry_start == old(self).entry_start,
                self.stack == old(self).stack,
                start == old(self).ptr,
                start < self.ptr <= self.source@.len(),
                ident_end(self.source@, start + 1) == ident_end(self.source@, self.ptr as int),
            ensures
                self.source == old(self).source,
                self.state == old(self).state,
                self.entry_start == old(self).entry_start,
                self.stack == old(self).stack,
                start < self.ptr <= self.source@.len(),
                self.ptr == ident_end(self.source@, start + 1),
            decreases self.source@.len() - self.ptr,
        {
            match self.peek(self.ptr) {
                Some(b) => {
                    if !byte_is_ident(b) {
                        break ;
                    }
                    self.ptr += 1;
                },
                None => {
                    break ;
                },
            }
        }
        Token::Identifier(start..self.ptr)
    }

    fn skip_inline_ws(&mut self)
        requires
            old(self).wf(),
        ensures
            final(self).source == old(self).source,
            final(self).state == old(self).state,
            final(self).entry_start == old(self).entry_start,
            final(self).stack == old(self).stack,
            final(self).ptr == blank_inline_end(old(self).source@, old(self).ptr as int),
            old(self).ptr <= final(self).ptr <= final(self).source@.len(),
    {
        let ghost start = self.ptr;
        while self.is_byte(self.ptr, SPACE)
            invariant
                self.source == old(self).source,
                self.source@.len() <= usize::MAX,
                self.source@.len() <= usize::MAX,
                self.state == old(self).state,
                self.entry_start == old(self).entry_start,
                self.stack == old(self).stack,
                start == old(self).ptr,
                start <= self.ptr <= self.source@.len(),
                blank_inline_end(self.source@, start as int) == blank_inline_end(
                    self.source@,
                    self.ptr as int,
                ),
            decreases self.source@.len() - self.ptr,
        {
            self.ptr += 1;
        }
    }

    fn skip_ws(&mut self)
        requires
            old(self).wf(),
        ensures
            final(self).source == old(self).source,
            final(self).state == old(self).state,
            final(self).entry_start == old(self).entry_start,
            final(self).stack == old(self).stack,
            final(self).ptr == ws_end(old(self).source@, old(self).ptr as int),
            old(self).ptr <= final(self).ptr <= final(self).source@.len(),
    {
        let ghost start = self.ptr;
        while self.is_byte(self.ptr, SPACE) || self.is_byte(self.ptr, LF)
            invariant
                self.source == old(self).source,
                self.source@.len() <= usize::MAX,
                self.source@.len() <= usize::MAX,
                self.state == old(self).state,
                self.entry_start == old(self).entry_start,
                self.stack == old(self).stack,
                start == old(self).ptr,
                start <= self.ptr <= self.source@.len(),
                ws_end(self.source@, start as int) == ws_end(self.source@, self.ptr as int),
            decreases self.source@.len() - self.ptr,
        {
            self.ptr += 1;
        }
    }

    fn first_after_inline(&mut self) -> (r: Option<u8>)
        requires
            old(self).wf(),
        ensures
            final(self).source == old(self).source,
            final(self).state == old(self).state,
            final(self).entry_start == old(self).entry_start,
            final(self).stack == old(self).stack,
            final(self).ptr == blank_inline_end(old(self).source@, old(self).ptr as int),
            old(self).ptr <= final(self).ptr <= final(self).source@.len(),
            r == if final(self).ptr < final(self).source@.len() {
                Some(final(self).source@[final(self).ptr as int])
            } else {
                None
            },
    {
        self.skip_inline_ws();
        self.peek(self.ptr)
    }

    fn tokenize_message(&mut self) -> (r: LexerOptionResult)
        requires
            old(self).wf(),
        ensures
            outcome(r) == lex_message(old(self).bytes(), old(self).view()).token,
            final(self).stepped(*old(self), lex_message(old(self).bytes(), old(self).view())),
    {
        match self.first_after_inline() {
            Some(c) => {
                if c == EQUALS {
                    self.ptr += 1;
                    self.state = LexerState::Pattern;
                    Ok(Some(Token::EqSign))
                } else if c == DOT {
                    self.ptr += 1;
                    Ok(Some(Token::Dot))
                } else if byte_is_alpha(c) {
                    let ident = self.get_ident();
                    Ok(Some(ident))
                } else {
                    Err(LexerError::Unknown)
                }
            },
            None => Ok(None),
        }
    }

    fn tokenize_resource(&mut self) -> (r: LexerOptionResult)
        requires
            old(self).wf(),
        ensures
            outcome(r) == lex_resource(old(self).bytes(), old(self).view()).token,
            final(self).stepped(*old(self), lex_resource(old(self).bytes(), old(self).view())),
    {
        self.entry_start = self.ptr;
        match self.peek(self.ptr) {
            Some(b) => {
                if b == CR && self.is_byte_after(self.ptr, LF) {
                    self.ptr += 2;
                    Ok(Some(Token::Eol(1)))
                } else if b == LF {
                    self.ptr += 1;
                    Ok(Some(Token::Eol(1)))
                } else if byte_is_alpha(b) {
                    let ident = self.get_ident();
                    self.state = LexerState::Message;
                    Ok(Some(ident))
                } else if b == HASH {
                    let sigil;
                    self.ptr += 1;
                    if self.is_byte(self.ptr, HASH) {
                        self.ptr += 1;
                        if self.is_byte(self.ptr, HASH) {
                            self.ptr += 1;
                            sigil = Token::ResourceCommentSign;
                        } else {
                            sigil = Token::GroupCommentSign;
                        }
                    } else {
                        sigil = Token::CommentSign;
                    }
                    if self.is_byte(self.ptr, SPACE) {
                        self.ptr += 1;
                        self.state = LexerState::Comment;
                        Ok(Some(sigil))
                    } else if self.crlf_at(self.ptr) {
                        self.ptr += 1;
                        Ok(Some(sigil))
                    } else if self.is_byte(self.ptr, LF) {
                        Ok(Some(sigil))
                    } else {
                        Err(LexerError::Unknown)
                    }
                } else if b == MINUS {
                    self.ptr += 1;
                    self.state = LexerState::Message;
                    Ok(Some(Token::MinusSign))
                } else {
                    Err(LexerError::Unknown)
                }
            },
            None => Ok(None),
        }
    }

    fn open_placeable(&mut self) -> (r: Token)
        requires
            old(self).wf(),
            old(self).ptr < old(self).source@.len(),
        ensures
            r.view() == TokenView::OpenCurlyBraces,
            final(self).source == old(self).source,
            final(self).wf(),
            final(self).view() == (LexerView {
                state: LexerState::Expression,
                ptr: ws_end(old(self).source@, old(self).ptr + 1),
                entry_start: old(self).entry_start as int,
                stack: into_placeable(old(self).stack@),
            }),
    {
        self.ptr += 1;
        self.skip_ws();
        self.state = LexerState::Expression;
        if self.stack.len() > 0 {
            self.stack.push(LexerState::Pattern);
        }
        Token::OpenCurlyBraces
    }

    fn tokenize_pattern(&mut self) -> (r: LexerOptionResult)
        requires
            old(self).wf(),
        ensures
            outcome(r) == lex_pattern(old(self).bytes(), old(self).view()).token,
            final(self).stepped(*old(self), lex_pattern(old(self).bytes(), old(self).view())),
    {
        self.skip_inline_ws();
        match self.peek(self.ptr) {
            Some(b) => {
                if b == CR && self.is_byte_after(self.ptr, LF) {
                    self.ptr += 2;
                    self.state = LexerState::PatternNewLine;
                    self.tokenize_pattern_new_line()
                } else if b == LF {
                    self.ptr += 1;
                    self.state = LexerState::PatternNewLine;
                    self.tokenize_pattern_new_line()
                } else if b == OPEN_BRACE {
                    Ok(Some(self.open_placeable()))
                } else if b == CLOSE_BRACE {
                    Err(LexerError::Unknown)
                } else {
                    self.state = LexerState::PatternContinuation;
                    self.tokenize_pattern_continuation()
                }
            },
            None => {
                self.state = LexerState::Message;
                Ok(None)
            },
        }
    }

    fn tokenize_pattern_continuation(&mut self) -> (r: LexerOptionResult)
        requires
            old(self).wf(),
        ensures
            outcome(r) == lex_pattern_continuation(old(self).bytes(), old(self).view()).token,
            final(self).stepped(
                *old(self),
                lex_pattern_continuation(old(self).bytes(), old(self).view()),
            ),
    {
        let start = self.ptr;
        let end;
        let ghost v0 = self.view();
        loop
            invariant_except_break
                self.state == old(self).state,
                lex_continuation_from(self.source@, v0, start as int, start as int)
                    == lex_continuation_from(self.source@, v0, start as int, self.ptr as int),
            invariant
                self.source == old(self).source,
                self.source@.len() <= usize::MAX,
                self.entry_start == old(self).entry_start,
                self.stack == old(self).stack,
                v0 == old(self).view(),
                start == old(self).ptr,
                start <= self.ptr <= self.source@.len(),
            ensures
                outcome(Ok(Some(Token::Text(start..end)))) == lex_pattern_continuation(
                    old(self).bytes(),
                    old(self).view(),
                ).token,
                self.stepped(
                    *old(self),
                    lex_pattern_continuation(old(self).bytes(), old(self).view()),
                ),
            decreases self.source@.len() - self.ptr,
        {
            match self.peek(self.ptr) {
                Some(b) => {
                    if b == CR && self.is_byte_after(self.ptr, LF) {
                        end = self.ptr;
                        self.ptr += 1;
                        break ;
                    } else if b == LF {
                        self.state = LexerState::PatternNewLine;
                        self.ptr += 1;
                        end = self.ptr;
                        break ;
                    } else if b == OPEN_BRACE {
                        end = self.ptr;
                        if start != end {
                            break ;
                        } else {
                            return Ok(Some(self.open_placeable()));
                        }
                    } else if b == CLOSE_BRACE {
                        return Err(LexerError::Unknown);
                    } else {
                        self.ptr += 1;
                    }
                },
                None => {
                    end = self.ptr;
                    if start != end {
                        break ;
                    } else {
                        self.skip_inline_ws();
                        self.state = LexerState::Message;
                        return Ok(Some(Token::Eot));
                    }
                },
            }
        }
        Ok(Some(Token::Text(start..end)))
    }

    fn leave(&mut self, otherwise: LexerState)
        ensures
            final(self).source == old(self).source,
            final(self).ptr == old(self).ptr,
            final(self).entry_start == old(self).entry_start,
            final(self).state == top_or(old(self).stack@, otherwise),
            final(self).stack@ == without_top(old(self).stack@),
    {
        match self.stack.pop() {
            Some(s) => {
                self.state = s;
            },
            None => {
                self.state = otherwise;
            },
        }
    }

    fn tokenize_pattern_new_line(&mut self) -> (r: LexerOptionResult)
        requires
            old(self).wf(),
        ensures
            outcome(r) == lex_pattern_new_line(old(self).bytes(), old(self).view()).token,
            final(self).stepped(
                *old(self),
                lex_pattern_new_line(old(self).bytes(), old(self).view()),
            ),
    {
        let line_start = self.ptr;
        match self.first_after_inline() {
            Some(b) => {
                if b == DOT {
                    self.state = LexerState::Message;
                    Ok(Some(Token::Eot))
                } else if b == CR && self.is_byte_after(self.ptr, LF) {
                    self.ptr += 2;
                    Ok(Some(Token::Eol(1)))
                } else if b == LF {
                    self.ptr += 1;
                    Ok(Some(Token::Eol(1)))
                } else if b == OPEN_BRACE {
                    let indent = self.ptr - line_start;
                    self.state = LexerState::PatternContinuation;
                    Ok(Some(Token::Indent(indent)))
                } else if b == ASTERISK || b == OPEN_BRACKET || b == CLOSE_BRACE {
                    self.leave(LexerState::Expression);
                    Ok(Some(Token::Eot))
                } else {
                    let indent = self.ptr - line_start;
                    if indent > 0 {
                        self.state = LexerState::PatternContinuation;
                        Ok(Some(Token::Indent(indent)))
                    } else {
                        if self.stack.len() == 0 {
                            self.state = LexerState::Resource;
                            Ok(Some(Token::Eot))
                        } else {
                            self.state = LexerState::Resource;
                            self.stack.clear();
                            Err(LexerError::Unknown)
                        }
                    }
                }
            },
            None => {
                self.state = LexerState::Message;
                Ok(Some(Token::Eot))
            },
        }
    }

    fn skip_digits(&mut self)
        requires
            old(self).wf(),
        ensures
            final(self).source == old(self).source,
            final(self).state == old(self).state,
            final(self).entry_start == old(self).entry_start,
            final(self).stack == old(self).stack,
            final(self).ptr == digits_end(old(self).source@, old(self).ptr as int),
            old(self).ptr <= final(self).ptr <= final(self).source@.len(),
    {
        let ghost start = self.ptr;
        loop
            invariant
                self.source == old(self).source,
                self.source@.len() <= usize::MAX,
                self.state == old(self).state,
                self.entry_start == old(self).entry_start,
                self.stack == old(self).stack,
                start == old(self).ptr,
                start <= self.ptr <= self.source@.len(),
                digits_end(self.source@, start as int) == digits_end(
                    self.source@,
                    self.ptr as int,
                ),
            ensures
                self.source == old(self).source,
                self.state == old(self).state,
                self.entry_start == old(self).entry_start,
                self.stack == old(self).stack,
                start <= self.ptr <= self.source@.len(),
                self.ptr == digits_end(self.source@, start as int),
            decreases self.source@.len() - self.ptr,
        {
            match self.peek(self.ptr) {
                Some(b) => {
                    if !byte_is_digit(b) {
                        break ;
                    }
                    self.ptr += 1;
                },
                None => {
                    break ;
                },
            }
        }
    }

    fn skip_unicode_escape_sequence(&mut self, length: usize) -> (r: Result<(), LexerError>)
        requires
            old(self).wf(),
        ensures
            final(self).source == old(self).source,
            final(self).state == old(self).state,
            final(self).entry_start == old(self).entry_start,
            final(self).stack == old(self).stack,
            final(self).ptr == hex_end(old(self).source@, old(self).ptr as int, length as nat),
            old(self).ptr <= final(self).ptr <= final(self).source@.len(),
            r is Ok == (final(self).ptr - old(self).ptr == length),
    {
        let start = self.ptr;
        let mut n: usize = 0;
        while n < length
            invariant
                self.source == old(self).source,
                self.source@.len() <= usize::MAX,
                self.source@.len() <= usize::MAX,
                self.state == old(self).state,
                self.entry_start == old(self).entry_start,
                self.stack == old(self).stack,
                start == old(self).ptr,
                start + n == self.ptr <= self.source@.len(),
                n <= length,
                hex_end(self.source@, start as int, length as nat) == hex_end(
                    self.source@,
                    self.ptr as int,
                    (length - n) as nat,
                ),
            ensures
                self.source == old(self).source,
                self.state == old(self).state,
                self.entry_start == old(self).entry_start,
                self.stack == old(self).stack,
                start <= self.ptr <= self.source@.len(),
                self.ptr == hex_end(self.source@, start as int, length as nat),
                self.ptr - start <= length,
            decreases length - n,
        {
            match self.peek(self.ptr) {
                Some(b) => {
                    if byte_is_hex_digit(b) {
                        self.ptr += 1;
                        n += 1;
                    } else {
                        break ;
                    }
                },
                None => {
                    break ;
                },
            }
        }
        if self.ptr - start != length {
            return Err(LexerError::Unknown);
        }
        Ok(())
    }

    fn tokenize_string(&mut self) -> (r: LexerResult)
        requires
            old(self).wf(),
            is_at(old(self).source@, old(self).ptr as int, QUOTE),
        ensures
            final(self).source == old(self).source,
            final(self).state == old(self).state,
            final(self).entry_start == old(self).entry_start,
            final(self).stack == old(self).stack,
            final(self).wf(),
            match (r, lex_string_from(old(self).source@, old(self).ptr + 1)) {
                (Ok(t), Ok(q)) => t.view() == TokenView::Text(old(self).ptr + 1, q)
                    && final(self).ptr == blank_inline_end(old(self).source@, q + 1),
                (Err(_), Err(q)) => final(self).ptr == q,
                _ => false,
            },
    {
        self.ptr += 1;
        let start = self.ptr;
        loop
            invariant
                self.source == old(self).source,
                self.source@.len() <= usize::MAX,
                self.state == old(self).state,
                self.entry_start == old(self).entry_start,
                self.stack == old(self).stack,
                start == old(self).ptr + 1,
                start <= self.ptr <= self.source@.len(),
                lex_string_from(self.source@, start as int) == lex_string_from(
                    self.source@,
                    self.ptr as int,
                ),
            decreases self.source@.len() - self.ptr,
        {
            match self.peek(self.ptr) {
                Some(b) => {
                    if b == BACKSLASH {
                        if self.is_byte_after(self.ptr, BACKSLASH) || self.is_byte_after(
                            self.ptr,
                            OPEN_BRACE,
                        ) || self.is_byte_after(self.ptr, QUOTE) {
                            self.ptr += 2;
                        } else if self.is_byte_after(self.ptr, LOWER_U) {
                            self.ptr += 2;
                            self.skip_unicode_escape_sequence(4)?;
                        } else if self.is_byte_after(self.ptr, UPPER_U) {
                            self.ptr += 2;
                            self.skip_unicode_escape_sequence(6)?;
                        } else {
                            return Err(LexerError::Unknown);
                        }
                    } else if b == QUOTE {
                        let end = self.ptr;
                        self.ptr += 1;
                        self.skip_inline_ws();
                        return Ok(Token::Text(start..end));
                    } else if b == LF {
                        self.ptr += 1;
                        return Err(LexerError::Unknown);
                    } else {
                        self.ptr += 1;
                    }
                },
                None => {
                    return Err(LexerError::Unknown);
                },
            }
        }
    }

    fn tokenize_number(&mut self) -> (r: LexerResult)
        requires
            old(self).wf(),
            old(self).ptr < old(self).source@.len(),
        ensures
            final(self).source == old(self).source,
            final(self).state == old(self).state,
            final(self).entry_start == old(self).entry_start,
            final(self).stack == old(self).stack,
            final(self).wf(),
            ({
                let b = old(self).source@;
                let p = old(self).ptr as int;
                let q = digits_end(b, p + 1);
                if is_at(b, q, DOT) {
                    let q1 = digits_end(b, q + 1);
                    if q1 == q + 1 {
                        r is Err && final(self).ptr == q1
                    } else {
                        r matches Ok(t) && t.view() == TokenView::Number(p, q1) && final(self).ptr
                            == ws_end(b, q1)
                    }
                } else {
                    r matches Ok(t) && t.view() == TokenView::Number(p, q) && final(self).ptr
                        == ws_end(b, q)
                }
            }),
    {
        let start = self.ptr;
        self.ptr += 1;
        self.skip_digits();
        if self.is_byte(self.ptr, DOT) {
            self.ptr += 1;
            let fraction = self.ptr;
            self.skip_digits();
            if self.ptr == fraction {
                return Err(LexerError::Unknown);
            }
        }
        let end = self.ptr;
        self.skip_ws();
        Ok(Token::Number(start..end))
    }

    fn tokenize_expression(&mut self) -> (r: LexerResult)
        requires
            old(self).wf(),
        ensures
            outcome(
                match r {
                    Ok(t) => Ok(Some(t)),
                    Err(e) => Err(e),
                },
            ) == lex_expression(old(self).bytes(), old(self).view()).token,
            final(self).stepped(*old(self), lex_expression(old(self).bytes(), old(self).view())),
    {
        let b = match self.peek(self.ptr) {
            Some(b) => b,
            None => {
                return Err(LexerError::Unknown);
            },
        };
        if byte_is_digit(b) {
            self.tokenize_number()
        } else if byte_is_alpha(b) {
            let ident = self.get_ident();
            self.skip_ws();
            Ok(ident)
        } else if b == DOT {
            self.ptr += 1;
            Ok(Token::Dot)
        } else if b == MINUS && self.is_byte_after(self.ptr, GREATER) {
            self.ptr += 2;
            self.skip_inline_ws();
            if self.is_byte(self.ptr, LF) {
                self.skip_ws();
                Ok(Token::SelectorArrow)
            } else {
                Err(LexerError::Unknown)
            }
        } else if b == MINUS {
            self.ptr += 1;
            Ok(Token::MinusSign)
        } else if b == OPEN_PAREN {
            self.ptr += 1;
            self.skip_ws();
            Ok(Token::OpenBraces)
        } else if b == COMMA {
            self.ptr += 1;
            self.skip_ws();
            Ok(Token::Comma)
        } else if b == CLOSE_PAREN {
            self.ptr += 1;
            self.skip_inline_ws();
            Ok(Token::CloseBraces)
        } else if b == DOLLAR {
            self.ptr += 1;
            Ok(Token::Dollar)
        } else if b == QUOTE {
            self.tokenize_string()
        } else if b == SPACE {
            match self.first_after_inline() {
                Some(c) => {
                    if c == CLOSE_BRACE {
                        self.ptr += 1;
                        self.state = LexerState::PatternContinuation;
                        Ok(Token::CloseCurlyBraces)
                    } else {
                        Err(LexerError::Unknown)
                    }
                },
                None => Err(LexerError::Unknown),
            }
        } else if b == ASTERISK {
            self.ptr += 1;
            Ok(Token::Asterisk)
        } else if b == OPEN_BRACKET {
            self.ptr += 1;
            self.skip_ws();
            Ok(Token::OpenSquareBracket)
        } else if b == CLOSE_BRACKET {
            self.ptr += 1;
            self.state = LexerState::Pattern;
            self.stack.push(LexerState::Expression);
            Ok(Token::CloseSquareBracket)
        } else if b == COLON {
            self.ptr += 1;
            self.skip_ws();
            Ok(Token::Colon)
        } else if b == OPEN_BRACE {
            self.stack.push(LexerState::Expression);
            self.ptr += 1;
            self.skip_ws();
            Ok(Token::OpenCurlyBraces)
        } else if b == CLOSE_BRACE {
            self.ptr += 1;
            self.leave(LexerState::PatternContinuation);
            Ok(Token::CloseCurlyBraces)
        } else {
            Err(LexerError::Unknown)
        }
    }

    fn tokenize_comment(&mut self) -> (r: LexerResult)
        requires
            old(self).wf(),
        ensures
            outcome(
                match r {
                    Ok(t) => Ok(Some(t)),
                    Err(e) => Err(e),
                },
            ) == lex_comment(old(self).bytes(), old(self).view()).token,
            final(self).stepped(*old(self), lex_comment(old(self).bytes(), old(self).view())),
    {
        let start = self.ptr;
        loop
            invariant
                self.source == old(self).source,
                self.source@.len() <= usize::MAX,
                self.entry_start == old(self).entry_start,
                self.stack == old(self).stack,
                self.state == old(self).state,
                start == old(self).ptr,
                start <= self.ptr <= self.source@.len(),
                feed_at(self.source@, start as int) == feed_at(self.source@, self.ptr as int),
            decreases self.source@.len() - self.ptr,
        {
            match self.peek(self.ptr) {
                Some(b) => {
                    if b == LF {
                        self.ptr += 1;
                        self.state = LexerState::Resource;
                        return Ok(Token::Text(start..self.ptr - 1));
                    }
                    if b == CR && self.is_byte_after(self.ptr, LF) {
                        self.ptr += 2;
                        self.state = LexerState::Resource;
                        return Ok(Token::Text(start..self.ptr - 2));
                    }
                    self.ptr += 1;
                },
                None => {
                    self.state = LexerState::Resource;
                    return Ok(Token::Text(start..self.ptr));
                },
            }
        }
    }

    fn get_token(&mut self) -> (r: LexerOptionResult)
        requires
            old(self).wf(),
        ensures
            outcome(r) == lex(old(self).bytes(), old(self).view()).token,
            final(self).stepped(*old(self), lex(old(self).bytes(), old(self).view())),
    {
        match self.state {
            LexerState::Resource => self.tokenize_resource(),
            LexerState::Pattern => self.tokenize_pattern(),
            LexerState::PatternContinuation => self.tokenize_pattern_continuation(),
            LexerState::PatternNewLine => self.tokenize_pattern_new_line(),
            LexerState::Message => self.tokenize_message(),
            LexerState::Comment => match self.tokenize_comment() {
                Ok(t) => Ok(Some(t)),
                Err(e) => Err(e),
            },
            LexerState::Expression => match self.tokenize_expression() {
                Ok(t) => Ok(Some(t)),
                Err(e) => Err(e),
            },
        }
    }

    fn collect_junk_range(&mut self, start: usize) -> (r: Range<usize>)
        requires
            old(self).wf(),
        ensures
            final(self).source == old(self).source,
            final(self).wf(),
            final(self).view() == (LexerView {
                state: LexerState::Resource,
                ptr: junk_stop(old(self).bytes(), old(self).view().ptr),
                entry_start: old(self).view().entry_start,
                stack: old(self).view().stack,
            }),
            r.start == start,
            r.end == junk_stop(old(self).bytes(), old(self).view().ptr),
    {
        let ghost first = self.ptr;
        loop
            invariant
                self.source == old(self).source,
                self.source@.len() <= usize::MAX,
                self.state == old(self).state,
                self.entry_start == old(self).entry_start,
                self.stack == old(self).stack,
                first == old(self).ptr,
                first <= self.ptr <= self.source@.len(),
                junk_stop(self.source@, first as int) == junk_stop(self.source@, self.ptr as int),
            ensures
                self.source == old(self).source,
                self.state == old(self).state,
                self.entry_start == old(self).entry_start,
                self.stack == old(self).stack,
                self.ptr <= self.source@.len(),
                self.ptr == junk_stop(self.source@, first as int),
            decreases self.source@.len() - self.ptr,
        {
            match self.peek(self.ptr) {
                Some(b) => {
                    if (byte_is_alpha(b) || b == HASH || b == MINUS) && self.ptr > 0
                        && self.source[self.ptr - 1] == LF {
                        break ;
                    }
                    self.ptr += 1;
                },
                None => {
                    break ;
                },
            }
        }
        self.state = LexerState::Resource;
        start..self.ptr
    }

    /// The next token, or none at the end of the source. What cannot be
    /// read is junk, up to where the next entry can start.
    pub fn next(&mut self) -> (r: Option<Token>)
        requires
            old(self).wf(),
        ensures
            final(self).wf(),
            final(self).bytes() == old(self).bytes(),
            ({
                let m = lex(old(self).bytes(), old(self).view());
                match m.token {
                    Ok(t) => final(self).view() == m.after && match (r, t) {
                        (Some(x), Some(y)) => x.view() == y,
                        (None, None) => true,
                        _ => false,
                    },
                    Err(_) => r matches Some(x) && x.view() == TokenView::Junk(
                        m.after.ptr,
                        junk_stop(old(self).bytes(), m.after.ptr),
                    ) && final(self).view() == (LexerView {
                        state: LexerState::Resource,
                        ptr: junk_stop(old(self).bytes(), m.after.ptr),
                        entry_start: m.after.entry_start,
                        stack: m.after.stack,
                    }),
                }
            }),
    {
        match self.get_token() {
            Ok(t) => t,
            Err(_) => {
                let junk_range = self.collect_junk_range(self.ptr);
                Some(Token::Junk(junk_range))
            },
        }
    }

    /// The next token, none at the end of the source, or an error.
    pub fn try_next(&mut self) -> (r: LexerOptionResult)
        requires
            old(self).wf(),
        ensures
            final(self).wf(),
            final(self).bytes() == old(self).bytes(),
            outcome(r) == lex(old(self).bytes(), old(self).view()).token,
            final(self).view() == lex(old(self).bytes(), old(self).view()).after,
    {
        self.get_token()
    }

    /// Reads the next token, which has to be `token`.
    pub fn expect(&mut self, token: Token) -> (r: Result<(), LexerError>)
        requires
            old(self).wf(),
        ensures
            final(self).wf(),
            final(self).bytes() == old(self).bytes(),
            r is Ok == (lex(old(self).bytes(), old(self).view()).token == Ok::<
                Option<TokenView>,
                LexerError,
            >(Some(token.view()))),
            final(self).view() == lex(old(self).bytes(), old(self).view()).after,
    {
        match self.try_next()? {
            Some(t) => {
                if t.same(&token) {
                    Ok(())
                } else {
                    Err(LexerError::Unknown)
                }
            },
            None => Err(LexerError::Unknown),
        }
    }

    /// The next token, with the lexer left where it stood but for its stack.
    pub fn try_peek(&mut self) -> (r: LexerOptionResult)
        requires
            old(self).wf(),
        ensures
            final(self).wf(),
            final(self).bytes() == old(self).bytes(),
            outcome(r) == lex(old(self).bytes(), old(self).view()).token,
            final(self).view() == if r is Ok {
                LexerView {
                    state: old(self).view().state,
                    ptr: old(self).view().ptr,
                    entry_start: old(self).view().entry_start,
                    stack: lex(old(self).bytes(), old(self).view()).after.stack,
                }
            } else {
                lex(old(self).bytes(), old(self).view()).after
            },
    {
        let ptr = self.ptr;
        let state = self.state;
        let entry_start = self.entry_start;
        match self.get_token() {
            Ok(token) => {
                self.ptr = ptr;
                self.state = state;
                self.entry_start = entry_start;
                Ok(token)
            },
            Err(e) => Err(e),
        }
    }

    /// Where the lexer stands: its position, what it reads, where the entry
    /// under way started and the top of its stack.
    pub fn get_state_snapshot(&self) -> (r: (usize, LexerState, usize, Option<LexerState>))
        ensures
            r.0 == self.view().ptr,
            r.1 == self.view().state,
            r.2 == self.view().entry_start,
            r.3 == if self.view().stack.len() > 0 {
                Some(self.view().stack.last())
            } else {
                None
            },
    {
        let ptr = self.ptr;
        let state = self.state;
        let entry_start = self.entry_start;
        let last_on_stack = if self.stack.len() > 0 {
            Some(self.stack[self.stack.len() - 1])
        } else {
            None
        };
        (ptr, state, entry_start, last_on_stack)
    }

    /// Puts the lexer where a snapshot says, with the state that the snapshot
    /// names pushed on its stack. A position behind the end of the source
    /// is its end.
    pub fn set_state(&mut self, input: (usize, LexerState, usize, Option<LexerState>))
        requires
            old(self).wf(),
        ensures
            final(self).wf(),
            final(self).bytes() == old(self).bytes(),
            final(self).view() == (LexerView {
                state: input.1,
                ptr: if input.0 <= old(self).bytes().len() {
                    input.0 as int
                } else {
                    old(self).bytes().len() as int
                },
                entry_start: input.2 as int,
                stack: match input.3 {
                    Some(s) => old(self).view().stack.push(s),
                    None => old(self).view().stack,
                },
            }),
    {
        self.ptr = if input.0 <= self.source.len() {
            input.0
        } else {
            self.source.len()
        };
        self.state = input.1;
        self.entry_start = input.2;
        match input.3 {
            Some(last_on_stack) => {
                self.stack.push(last_on_stack);
            },
            None => {},
        }
    }

    /// Reads the next token where it is `token`; else the lexer goes back to
    /// where it stood.
    pub fn take_if(&mut self, token: Token) -> (r: Result<bool, LexerError>)
        requires
            old(self).wf(),
        ensures
            final(self).wf(),
            final(self).bytes() == old(self).bytes(),
            r matches Ok(taken) && taken == (lex(old(self).bytes(), old(self).view()).token
                == Ok::<Option<TokenView>, LexerError>(Some(token.view()))),
            final(self).view() == if r == Ok::<bool, LexerError>(true) {
                lex(old(self).bytes(), old(self).view()).after
            } else {
                LexerView {
                    state: old(self).view().state,
                    ptr: old(self).view().ptr,
                    entry_start: old(self).view().entry_start,
                    stack: if old(self).view().stack.len() > 0 {
                        lex(old(self).bytes(), old(self).view()).after.stack.push(
                            old(self).view().stack.last(),
                        )
                    } else {
                        lex(old(self).bytes(), old(self).view()).after.stack
                    },
                }
            },
    {
        let state = self.get_state_snapshot();
        match self.get_token() {
            Ok(Some(t)) => {
                if t.same(&token) {
                    Ok(true)
                } else {
                    self.set_state(state);
                    Ok(false)
                }
            },
            _ => {
                self.set_state(state);
                Ok(false)
            },
        }
    }

    /// The range of the junk from the start of the entry under way to where
    /// the next entry can start.
    pub fn get_junk(&mut self) -> (r: Range<usize>)
        requires
            old(self).wf(),
        ensures
            final(self).wf(),
            final(self).bytes() == old(self).bytes(),
            r.start == old(self).view().entry_start,
            r.end == junk_stop(old(self).bytes(), old(self).view().ptr),
            final(self).view() == (LexerView {
                state: LexerState::Resource,
                ptr: junk_stop(old(self).bytes(), old(self).view().ptr),
                entry_start: old(self).view().entry_start,
                stack: old(self).view().stack,
            }),
    {
        self.collect_junk_range(self.entry_start)
    }
}

} // verus!
