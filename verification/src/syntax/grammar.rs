use crate::syntax::errors::{ErrorKindView, fail_at, ParserErrorView};
use vstd::prelude::*;
use vstd::utf8::*;

verus! {

pub const SPACE: u8 = 0x20;
pub const LF: u8 = 0x0a;
pub const CR: u8 = 0x0d;
pub const OPEN_BRACE: u8 = 0x7b;
pub const CLOSE_BRACE: u8 = 0x7d;
pub const DOT: u8 = 0x2e;
pub const ASTERISK: u8 = 0x2a;
pub const OPEN_BRACKET: u8 = 0x5b;
pub const CLOSE_BRACKET: u8 = 0x5d;
pub const EQUALS: u8 = 0x3d;
pub const MINUS: u8 = 0x2d;
pub const HASH: u8 = 0x23;
pub const QUOTE: u8 = 0x22;
pub const BACKSLASH: u8 = 0x5c;
pub const DOLLAR: u8 = 0x24;
pub const OPEN_PAREN: u8 = 0x28;
pub const CLOSE_PAREN: u8 = 0x29;
pub const COMMA: u8 = 0x2c;
pub const COLON: u8 = 0x3a;
pub const GREATER: u8 = 0x3e;
pub const LOWER_U: u8 = 0x75;
pub const UPPER_U: u8 = 0x55;
pub const UNDERSCORE: u8 = 0x5f;

/// Whether the byte at `p` is `c`.
pub open spec fn is_at(b: Seq<u8>, p: int, c: u8) -> bool {
    0 <= p < b.len() && b[p] == c
}

pub open spec fn is_alpha(c: u8) -> bool {
    (0x41 <= c <= 0x5a) || (0x61 <= c <= 0x7a)
}

pub open spec fn is_digit(c: u8) -> bool {
    0x30 <= c <= 0x39
}

pub open spec fn is_hex_digit(c: u8) -> bool {
    is_digit(c) || (0x41 <= c <= 0x46) || (0x61 <= c <= 0x66)
}

pub open spec fn is_upper(c: u8) -> bool {
    0x41 <= c <= 0x5a
}

/// A byte that can follow the first letter of an identifier.
pub open spec fn is_ident_byte(c: u8) -> bool {
    is_alpha(c) || is_digit(c) || c == UNDERSCORE || c == MINUS
}

/// A byte of a function's name: upper case, digit, `_` or `-`.
pub open spec fn is_callee_byte(c: u8) -> bool {
    is_upper(c) || is_digit(c) || c == UNDERSCORE || c == MINUS
}

/// Whether `c` is an ASCII letter.
pub fn byte_is_alpha(c: u8) -> (r: bool)
    ensures
        r == is_alpha(c),
{
    (0x41 <= c && c <= 0x5a) || (0x61 <= c && c <= 0x7a)
}

/// Whether `c` is an ASCII digit.
pub fn byte_is_digit(c: u8) -> (r: bool)
    ensures
        r == is_digit(c),
{
    0x30 <= c && c <= 0x39
}

/// Whether `c` is an ASCII hexadecimal digit.
pub fn byte_is_hex_digit(c: u8) -> (r: bool)
    ensures
        r == is_hex_digit(c),
{
    (0x30 <= c && c <= 0x39) || (0x41 <= c && c <= 0x46) || (0x61 <= c && c <= 0x66)
}

/// Whether `c` can follow the first letter of an identifier.
pub fn byte_is_ident(c: u8) -> (r: bool)
    ensures
        r == is_ident_byte(c),
{
    byte_is_alpha(c) || byte_is_digit(c) || c == UNDERSCORE || c == MINUS
}

/// Whether `c` can stand in the name of a function.
pub fn byte_is_callee(c: u8) -> (r: bool)
    ensures
        r == is_callee_byte(c),
{
    (0x41 <= c && c <= 0x5a) || byte_is_digit(c) || c == UNDERSCORE || c == MINUS
}

/// The text of the bytes from `start` to `end`.
pub open spec fn piece(b: Seq<u8>, start: int, end: int) -> Seq<char> {
    decode_utf8(b.subrange(start, end))
}

/// Length of the line terminator that starts at `p`: 1 for `\n`, 2 for
/// `\r\n`, 0 where none starts.
pub open spec fn eol_len(b: Seq<u8>, p: int) -> int {
    if is_at(b, p, LF) {
        1
    } else if is_at(b, p, CR) && is_at(b, p + 1, LF) {
        2
    } else {
        0
    }
}

/// The first position from `p` on that holds no space.
pub open spec fn blank_inline_end(b: Seq<u8>, p: int) -> int
    decreases b.len() - p,
{
    if is_at(b, p, SPACE) {
        blank_inline_end(b, p + 1)
    } else {
        p
    }
}

/// The first position from `p` on that holds neither a space nor a line
/// terminator.
pub open spec fn blank_end(b: Seq<u8>, p: int) -> int
    decreases b.len() - p,
{
    if is_at(b, p, SPACE) || is_at(b, p, LF) {
        blank_end(b, p + 1)
    } else if is_at(b, p, CR) && is_at(b, p + 1, LF) {
        blank_end(b, p + 2)
    } else {
        p
    }
}

/// Where the blank lines that start at `p` end, and how many they are.
pub open spec fn blank_block(b: Seq<u8>, p: int) -> (int, nat)
    decreases b.len() - p,
{
    let q = blank_inline_end(b, p);
    let n = eol_len(b, q);
    if n > 0 && q >= p {
        let (end, count) = blank_block(b, q + n);
        (end, count + 1)
    } else {
        (p, 0)
    }
}

/// The first position from `p` on that holds no identifier byte.
pub open spec fn ident_end(b: Seq<u8>, p: int) -> int
    decreases b.len() - p,
{
    if 0 <= p < b.len() && is_ident_byte(b[p]) {
        ident_end(b, p + 1)
    } else {
        p
    }
}

/// The first position from `p` on that holds no digit.
pub open spec fn digits_end(b: Seq<u8>, p: int) -> int
    decreases b.len() - p,
{
    if 0 <= p < b.len() && is_digit(b[p]) {
        digits_end(b, p + 1)
    } else {
        p
    }
}

/// The first position from `p` on that holds no `#`.
pub open spec fn sigil_end(b: Seq<u8>, p: int) -> int
    decreases b.len() - p,
{
    if is_at(b, p, HASH) {
        sigil_end(b, p + 1)
    } else {
        p
    }
}

/// The first position from `p` on at which a line terminator starts or the
/// source ends.
pub open spec fn line_end(b: Seq<u8>, p: int) -> int
    decreases b.len() - p,
{
    if 0 <= p < b.len() && eol_len(b, p) == 0 {
        line_end(b, p + 1)
    } else {
        p
    }
}

/// The first position from `p` on, at most `n` further, that holds no
/// hexadecimal digit.
pub open spec fn hex_end(b: Seq<u8>, p: int, n: nat) -> int
    decreases n,
{
    if n > 0 && 0 <= p < b.len() && is_hex_digit(b[p]) {
        hex_end(b, p + 1, (n - 1) as nat)
    } else {
        p
    }
}

/// The first position after `p` at which the source can be cut.
pub open spec fn cut_after(b: Seq<u8>, p: int) -> int
    decreases b.len() - p,
{
    if 0 <= p && p + 1 < b.len() && is_continuation_byte(b[p + 1]) {
        cut_after(b, p + 1)
    } else {
        p + 1
    }
}

pub type Parsed<T> = Result<(T, int), ParserErrorView>;

/// An identifier that starts at `p`: a letter, then letters, digits, `_`, `-`.
pub open spec fn identifier(b: Seq<u8>, p: int) -> Parsed<Seq<char>> {
    if 0 <= p < b.len() && is_alpha(b[p]) {
        Ok((piece(b, p, ident_end(b, p + 1)), ident_end(b, p + 1)))
    } else {
        Err(fail_at(ErrorKindView::ExpectedCharRange { range: "a-zA-Z"@ }, p))
    }
}

/// One or more digits at `p`.
pub open spec fn digits(b: Seq<u8>, p: int) -> Result<int, ParserErrorView> {
    if digits_end(b, p) == p {
        Err(fail_at(ErrorKindView::ExpectedCharRange { range: "0-9"@ }, p))
    } else {
        Ok(digits_end(b, p))
    }
}

/// A number literal that starts at `p`: an optional `-`, digits and an
/// optional fraction.
pub open spec fn number_literal(b: Seq<u8>, p: int) -> Parsed<Seq<char>> {
    let q0 = if is_at(b, p, MINUS) {
        p + 1
    } else {
        p
    };
    match digits(b, q0) {
        Err(e) => Err(e),
        Ok(q1) => if is_at(b, q1, DOT) {
            match digits(b, q1 + 1) {
                Err(e) => Err(e),
                Ok(q2) => Ok((piece(b, p, q2), q2)),
            }
        } else {
            Ok((piece(b, p, q1), q1))
        },
    }
}

/// An escape of `n` hexadecimal digits at `p`.
pub open spec fn unicode_escape(b: Seq<u8>, p: int, n: nat) -> Result<int, ParserErrorView> {
    let q = hex_end(b, p, n);
    if q - p != n {
        let end = if q >= b.len() {
            q
        } else {
            cut_after(b, q)
        };
        Err(fail_at(ErrorKindView::InvalidUnicodeEscapeSequence(piece(b, p, end)), q))
    } else {
        Ok(q)
    }
}

/// The position of the quote that closes the string literal whose content
/// starts at `p`.
pub open spec fn string_end(b: Seq<u8>, p: int) -> Result<int, ParserErrorView>
    decreases b.len() - p,
{
    if !(0 <= p < b.len()) {
        Err(fail_at(ErrorKindView::ExpectedToken('"'), p))
    } else if b[p] == BACKSLASH {
        if is_at(b, p + 1, BACKSLASH) || is_at(b, p + 1, OPEN_BRACE) || is_at(b, p + 1, QUOTE) {
            string_end(b, p + 2)
        } else if is_at(b, p + 1, LOWER_U) {
            match unicode_escape(b, p + 2, 4) {
                Err(e) => Err(e),
                Ok(q) => if p < q <= b.len() {
                    string_end(b, q)
                } else {
                    Err(fail_at(ErrorKindView::Generic, p))
                },
            }
        } else if is_at(b, p + 1, UPPER_U) {
            match unicode_escape(b, p + 2, 6) {
                Err(e) => Err(e),
                Ok(q) => if p < q <= b.len() {
                    string_end(b, q)
                } else {
                    Err(fail_at(ErrorKindView::Generic, p))
                },
            }
        } else {
            Err(fail_at(ErrorKindView::Generic, p))
        }
    } else if b[p] == QUOTE {
        Ok(p)
    } else if b[p] == LF {
        Err(fail_at(ErrorKindView::Generic, p))
    } else {
        string_end(b, p + 1)
    }
}

/// How a run of text ended.
#[derive(PartialEq, Eq, Structural, Clone, Copy, Debug)]
pub enum TextElementTermination {
    LineFeed,
    CRLF,
    PlaceableStart,
    EOF,
}

/// Where a run of text stands in its pattern.
#[derive(PartialEq, Eq, Structural, Clone, Copy, Debug)]
pub enum TextElementPosition {
    InitialLineStart,
    LineStart,
    Continuation,
}

/// Whether a run of text holds anything but spaces.
#[derive(PartialEq, Eq, Structural, Clone, Copy, Debug)]
pub enum TextElementType {
    Blank,
    NonBlank,
}

/// A run of text: where the parser stands after it, where its text ends,
/// whether it is blank and how it ended.
pub ghost struct TextSlice {
    pub ptr: int,
    pub end: int,
    pub kind: TextElementType,
    pub termination: TextElementTermination,
}

/// The run of text that starts at `p`, up to the end of its line, the start of
/// a placeable or the end of the source. The terminator of its line belongs
/// to the run. `kind` says whether anything but
/// spaces was seen before `p`.
pub open spec fn text_slice(b: Seq<u8>, p: int, kind: TextElementType) -> Result<
    TextSlice,
    ParserErrorView,
>
    decreases b.len() - p,
{
    if !(0 <= p < b.len()) {
        Ok(TextSlice { ptr: p, end: p, kind, termination: TextElementTermination::EOF })
    } else if b[p] == SPACE {
        text_slice(b, p + 1, kind)
    } else if b[p] == LF {
        Ok(TextSlice { ptr: p + 1, end: p + 1, kind,
            termination: TextElementTermination::LineFeed })
    } else if b[p] == CR && is_at(b, p + 1, LF) {
        Ok(TextSlice { ptr: p + 2, end: p + 2, kind, termination: TextElementTermination::CRLF })
    } else if b[p] == OPEN_BRACE {
        Ok(TextSlice { ptr: p, end: p, kind, termination: TextElementTermination::PlaceableStart })
    } else if b[p] == CLOSE_BRACE {
        Err(fail_at(ErrorKindView::UnbalancedClosingBrace, p))
    } else {
        text_slice(b, p + 1, TextElementType::NonBlank)
    }
}

/// A byte with which an indented line goes on with its pattern.
pub open spec fn is_pattern_continuation(c: u8) -> bool {
    c != CLOSE_BRACE && c != DOT && c != OPEN_BRACKET && c != ASTERISK
}

} // verus!
