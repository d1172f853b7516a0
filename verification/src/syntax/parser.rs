use crate::syntax::ast;
use crate::syntax::ast::{
    attribute_views, CallArgumentsView, CommentView, element_views, entry_views, inline_views,
    lemma_arguments_view, lemma_pattern_view, lemma_select_view, named_views, NamedArgumentView,
    ResourceEntryView, ResourceView, texts, variant_views, VariantView,
};
use crate::syntax::errors::{
    error_at, error_over, ErrorKind, ErrorKindView, fail_at, ParserError, ParserErrorView,
};
use crate::syntax::grammar::{
    ASTERISK, BACKSLASH, blank_block, blank_end, blank_inline_end, byte_is_alpha, byte_is_callee,
    byte_is_digit, byte_is_hex_digit, byte_is_ident, CLOSE_BRACE, CLOSE_BRACKET, CLOSE_PAREN, COLON,
    COMMA, CR, cut_after, digits, digits_end, DOLLAR, DOT, eol_len, EQUALS, GREATER, HASH, hex_end,
    ident_end, identifier, is_alpha, is_at, is_digit, is_ident_byte, is_pattern_continuation, LF,
    line_end, LOWER_U, MINUS, number_literal, OPEN_BRACE, OPEN_BRACKET, OPEN_PAREN, piece, QUOTE,
    sigil_end, SPACE, string_end, text_slice, TextElementPosition, TextElementTermination,
    TextElementType, TextSlice, unicode_escape, UPPER_U,
};
use crate::syntax::productions::{
    after_junk, after_ok, after_placeable, after_text, arguments_loop, attribute,
    attribute_accessor, attributes_loop, call_arguments, close_arguments, comment, comment_loop,
    comment_of, dedented, entry, expression, finish_element, finish_pattern, finished, has_name,
    inline_expression, is_callee, is_term_attribute, junk_end, message, named_reference,
    next_entry_start, pattern, pattern_loop, PatternState, placeable, PlaceholderView,
    resource_from, resource_loop, ResourceState, select_expression, selector_fault, settled, term,
    term_reference, variant_key, variants_loop,
};
use crate::syntax::slice::{cuts_around_ascii, is_cut, lemma_cuts_around_ascii, Slice, str_eq};
use vstd::prelude::*;
use vstd::string::*;
use vstd::utf8::*;

verus! {

pub type Result<T> = core::result::Result<T, ParserError>;

/// A recursive-descent parser over the bytes of its source.
pub struct Parser<S> {
    source: S,
    ptr: usize,
    length: usize,
}

impl<S: Slice> Parser<S> {
    /// The bytes of the source.
    pub closed spec fn bytes(&self) -> Seq<u8> {
        encode_utf8(self.source.text())
    }

    /// The byte offset at which the parser stands.
    pub closed spec fn position(&self) -> int {
        self.ptr as int
    }

    /// The parser has the same source as `before` and stands inside it.
    pub closed spec fn intact(&self, before: Self) -> bool {
        &&& self.source == before.source
        &&& self.length == before.length
        &&& self.length == self.bytes().len()
        &&& self.ptr <= self.length
    }

    /// The parser stands inside its source, at a position where the source
    /// can be cut.
    pub closed spec fn wf(&self) -> bool {
        &&& self.length == self.bytes().len()
        &&& self.ptr <= self.length
        &&& is_cut(self.bytes(), self.ptr as int)
    }

    /// The parser has the same source as `before` and stands at `p`.
    pub closed spec fn goes_to(&self, before: Self, p: int) -> bool {
        &&& self.intact(before)
        &&& self.ptr == p
        &&& is_cut(self.bytes(), p)
    }

    proof fn lemma_cuts(&self)
        ensures
            cuts_around_ascii(self.bytes()),
            valid_utf8(self.bytes()),
    {
        broadcast use group_utf8_lib;

        lemma_cuts_around_ascii(self.bytes());
    }

    /// A parser that stands at the start of `source`.
    pub fn new(source: S) -> (p: Self)
        ensures
            p.wf(),
            p.position() == 0,
            p.bytes() == encode_utf8(source.text()),
    {
        let length = source.length();
        proof {
            broadcast use group_utf8_lib;

            let bytes = encode_utf8(source.text());
            if bytes.len() > 0 {
                is_char_boundary_iff_not_is_continuation_byte(bytes, 0);
            }
        }
        Self { source, ptr: 0, length }
    }

    /// Whether the byte at which the parser stands is `b`.
    pub fn is_current_byte(&self, b: u8) -> (r: bool)
        ensures
            r == is_at(self.bytes(), self.position(), b),
    {
        match self.source.get_char(self.ptr) {
            Some(c) => c == b,
            None => false,
        }
    }

    fn is_byte_at(&self, b: u8, pos: usize) -> (r: bool)
        ensures
            r == is_at(self.bytes(), pos as int, b),
    {
        match self.source.get_char(pos) {
            Some(c) => c == b,
            None => false,
        }
    }

    fn is_byte_after(&self, b: u8) -> (r: bool)
        requires
            self.ptr <= self.length,
            self.length == self.bytes().len(),
        ensures
            r == is_at(self.bytes(), self.ptr + 1, b),
    {
        if self.ptr < self.length {
            self.is_byte_at(b, self.ptr + 1)
        } else {
            false
        }
    }

    fn skip_eol(&mut self) -> (r: bool)
        requires
            old(self).wf(),
        ensures
            r == (eol_len(old(self).bytes(), old(self).position()) > 0),
            final(self).goes_to(
                *old(self),
                old(self).position() + eol_len(old(self).bytes(), old(self).position()),
            ),
    {
        proof {
            self.lemma_cuts();
        }
        match self.source.get_char(self.ptr) {
            Some(c) => {
                if c == LF {
                    assert(self.bytes()[self.ptr as int] < 0x80);
                    self.ptr += 1;
                    true
                } else if c == CR && self.is_byte_after(LF) {
                    assert(self.bytes()[self.ptr + 1] < 0x80);
                    self.ptr += 2;
                    true
                } else {
                    false
                }
            },
            None => false,
        }
    }

    fn is_eol(&self) -> (r: bool)
        requires
            self.wf(),
        ensures
            r == (eol_len(self.bytes(), self.position()) > 0),
    {
        match self.source.get_char(self.ptr) {
            Some(c) => c == LF || (c == CR && self.is_byte_after(LF)),
            None => false,
        }
    }

    fn is_identifier_start(&self) -> (r: bool)
        ensures
            r == (0 <= self.position() < self.bytes().len() && is_alpha(
                self.bytes()[self.position()],
            )),
    {
        match self.source.get_char(self.ptr) {
            Some(c) => byte_is_alpha(c),
            None => false,
        }
    }

    fn is_number_start(&self) -> (r: bool)
        ensures
            r == (0 <= self.position() < self.bytes().len() && (self.bytes()[self.position()]
                == MINUS || is_digit(self.bytes()[self.position()]))),
    {
        match self.source.get_char(self.ptr) {
            Some(c) => c == MINUS || byte_is_digit(c),
            None => false,
        }
    }

    fn is_byte_pattern_continuation(&self, b: u8) -> (r: bool)
        ensures
            r == is_pattern_continuation(b),
    {
        !(b == CLOSE_BRACE || b == DOT || b == OPEN_BRACKET || b == ASTERISK)
    }

    fn take_byte_if(&mut self, b: u8) -> (r: bool)
        requires
            old(self).wf(),
            b < 0x80,
        ensures
            r == is_at(old(self).bytes(), old(self).position(), b),
            final(self).goes_to(
                *old(self),
                if r {
                    old(self).position() + 1
                } else {
                    old(self).position()
                },
            ),
    {
        proof {
            self.lemma_cuts();
        }
        if self.is_current_byte(b) {
            assert(self.bytes()[self.ptr as int] < 0x80);
            self.ptr += 1;
            true
        } else {
            false
        }
    }

    fn expect_byte(&mut self, b: u8) -> (r: Result<()>)
        requires
            old(self).wf(),
            b < 0x80,
        ensures
            r is Ok == is_at(old(self).bytes(), old(self).position(), b),
            r is Ok ==> final(self).goes_to(*old(self), old(self).position() + 1),
            r matches Err(e) ==> e.view() == fail_at(
                ErrorKindView::ExpectedToken(b as char),
                old(self).position(),
            ) && final(self).goes_to(*old(self), old(self).position()),
    {
        proof {
            self.lemma_cuts();
        }
        if !self.is_current_byte(b) {
            return Err(error_at(ErrorKind::ExpectedToken(b as char), self.ptr));
        }
        assert(self.bytes()[self.ptr as int] < 0x80);
        self.ptr += 1;
        Ok(())
    }

    fn skip_blank_inline(&mut self) -> (n: usize)
        requires
            old(self).wf(),
        ensures
            final(self).goes_to(
                *old(self),
                blank_inline_end(old(self).bytes(), old(self).position()),
            ),
            n == final(self).position() - old(self).position(),
            forall|j: int|
                old(self).position() <= j < final(self).position() ==> old(self).bytes()[j]
                    == SPACE,
    {
        proof {
            self.lemma_cuts();
        }
        let start = self.ptr;
        while self.is_current_byte(SPACE)
            invariant
                self.intact(*old(self)),
                start == old(self).ptr,
                start <= self.ptr,
                is_cut(self.bytes(), self.ptr as int),
                cuts_around_ascii(self.bytes()),
                blank_inline_end(self.bytes(), start as int) == blank_inline_end(
                    self.bytes(),
                    self.ptr as int,
                ),
                forall|j: int| start <= j < self.ptr ==> self.bytes()[j] == SPACE,
            decreases self.length - self.ptr,
        {
            assert(self.bytes()[self.ptr as int] < 0x80);
            self.ptr += 1;
        }
        self.ptr - start
    }

    fn skip_blank(&mut self)
        requires
            old(self).wf(),
        ensures
            final(self).goes_to(*old(self), blank_end(old(self).bytes(), old(self).position())),
            final(self).position() >= old(self).position(),
    {
        proof {
            self.lemma_cuts();
        }
        let ghost start = self.ptr;
        loop
            invariant
                self.intact(*old(self)),
                start == old(self).ptr,
                start <= self.ptr,
                is_cut(self.bytes(), self.ptr as int),
                cuts_around_ascii(self.bytes()),
                blank_end(self.bytes(), start as int) == blank_end(self.bytes(), self.ptr as int),
            ensures
                self.goes_to(*old(self), blank_end(old(self).bytes(), old(self).position())),
                self.ptr >= old(self).ptr,
            decreases self.length - self.ptr,
        {
            match self.source.get_char(self.ptr) {
                Some(c) => {
                    if c == SPACE || c == LF {
                        assert(self.bytes()[self.ptr as int] < 0x80);
                        self.ptr += 1;
                    } else if c == CR && self.is_byte_after(LF) {
                        assert(self.bytes()[self.ptr + 1] < 0x80);
                        self.ptr += 2;
                    } else {
                        break ;
                    }
                },
                None => {
                    break ;
                },
            }
        }
    }

    fn skip_blank_block(&mut self) -> (count: usize)
        requires
            old(self).wf(),
        ensures
            final(self).goes_to(*old(self), blank_block(old(self).bytes(), old(self).position()).0),
            count == blank_block(old(self).bytes(), old(self).position()).1,
            final(self).position() >= old(self).position(),
    {
        let mut count: usize = 0;
        let ghost first = self.ptr as int;
        loop
            invariant
                self.goes_to(*old(self), self.ptr as int),
                first == old(self).ptr,
                first <= self.ptr,
                count <= self.ptr - first,
                blank_block(self.bytes(), first).0 == blank_block(self.bytes(), self.ptr as int).0,
                blank_block(self.bytes(), first).1 == blank_block(self.bytes(), self.ptr as int).1
                    + count,
            ensures
                self.goes_to(
                    *old(self),
                    blank_block(old(self).bytes(), old(self).position()).0,
                ),
                count == blank_block(old(self).bytes(), old(self).position()).1,
                self.ptr >= old(self).ptr,
            decreases self.length - self.ptr,
        {
            let start = self.ptr;
            let ghost before = *self;
            self.skip_blank_inline();
            if !self.skip_eol() {
                self.ptr = start;
                break ;
            }
            count += 1;
        }
        count
    }

    fn skip_digits(&mut self) -> (r: Result<()>)
        requires
            old(self).wf(),
        ensures
            match (r, digits(old(self).bytes(), old(self).position())) {
                (Ok(_), Ok(q)) => final(self).goes_to(*old(self), q) && q > old(self).position(),
                (Err(e), Err(m)) => e.view() == m && final(self).goes_to(
                    *old(self),
                    old(self).position(),
                ),
                _ => false,
            },
    {
        proof {
            self.lemma_cuts();
        }
        let start = self.ptr;
        loop
            invariant
                self.intact(*old(self)),
                start == old(self).ptr,
                start <= self.ptr,
                is_cut(self.bytes(), self.ptr as int),
                cuts_around_ascii(self.bytes()),
                digits_end(self.bytes(), start as int) == digits_end(
                    self.bytes(),
                    self.ptr as int,
                ),
            ensures
                self.goes_to(*old(self), digits_end(old(self).bytes(), old(self).position())),
                start == old(self).ptr,
                start <= self.ptr,
            decreases self.length - self.ptr,
        {
            match self.source.get_char(self.ptr) {
                Some(c) => {
                    if byte_is_digit(c) {
                        assert(self.bytes()[self.ptr as int] < 0x80);
                        self.ptr += 1;
                    } else {
                        break ;
                    }
                },
                None => {
                    break ;
                },
            }
        }
        if start == self.ptr {
            Err(
                error_at(
                    ErrorKind::ExpectedCharRange { range: String::from_str("0-9") },
                    self.ptr,
                ),
            )
        } else {
            Ok(())
        }
    }

    fn skip_unicode_escape_sequence(&mut self, length: usize) -> (r: Result<()>)
        requires
            old(self).wf(),
        ensures
            match (r, unicode_escape(old(self).bytes(), old(self).position(), length as nat)) {
                (Ok(_), Ok(q)) => final(self).goes_to(*old(self), q) && q == old(self).position()
                    + length,
                (Err(e), Err(m)) => e.view() == m && final(self).intact(*old(self)),
                _ => false,
            },
    {
        proof {
            self.lemma_cuts();
        }
        let start = self.ptr;
        let mut n: usize = 0;
        while n < length
            invariant
                self.intact(*old(self)),
                start == old(self).ptr,
                start + n == self.ptr,
                n <= length,
                is_cut(self.bytes(), self.ptr as int),
                cuts_around_ascii(self.bytes()),
                hex_end(self.bytes(), start as int, length as nat) == hex_end(
                    self.bytes(),
                    self.ptr as int,
                    (length - n) as nat,
                ),
            ensures
                self.goes_to(
                    *old(self),
                    hex_end(old(self).bytes(), old(self).position(), length as nat),
                ),
                start == old(self).ptr,
                start <= self.ptr <= start + length,
            decreases length - n,
        {
            match self.source.get_char(self.ptr) {
                Some(c) => {
                    if byte_is_hex_digit(c) {
                        assert(self.bytes()[self.ptr as int] < 0x80);
                        self.ptr += 1;
                        n += 1;
                    } else {
                        break ;
                    }
                },
                None => {
                    break ;
                },
            }
        }
        if self.ptr - start != length {
            let mut end = self.ptr;
            if self.ptr < self.length {
                end = self.ptr + 1;
                while end < self.length && is_continuation(self.source.get_char(end))
                    invariant
                        self.intact(*old(self)),
                        self.ptr < end <= self.length,
                        cut_after(self.bytes(), self.ptr as int) == cut_after(
                            self.bytes(),
                            end - 1,
                        ),
                    decreases self.length - end,
                {
                    end += 1;
                }
            }
            let mut seq = String::new();
            proof {
                broadcast use group_utf8_lib;

                assert(is_cut(self.bytes(), end as int));
            }
            self.source.slice(start, end).write(&mut seq);
            proof {
                broadcast use group_utf8_lib;

                assert(seq@ =~= piece(self.bytes(), start as int, end as int));
            }
            return Err(error_at(ErrorKind::InvalidUnicodeEscapeSequence(seq), self.ptr));
        }
        Ok(())
    }
}

/// A pattern element before the pattern is finished: a placeable, with
/// whether it starts a line, or a run of text by its start, its end, the
/// indent of its line, its place in the pattern and whether it is blank.
pub enum PatternElementPlaceholders<S> {
    Placeable(ast::Expression<S>, bool),
    TextElement(usize, usize, usize, TextElementPosition, TextElementType),
}

impl<S: Slice> PatternElementPlaceholders<S> {
    pub open spec fn view(&self) -> PlaceholderView {
        match self {
            PatternElementPlaceholders::Placeable(e, line_start) => PlaceholderView::Placeable {
                expression: e.view(),
                line_start: *line_start,
            },
            PatternElementPlaceholders::TextElement(start, end, indent, role, kind) => {
                PlaceholderView::TextElement {
                    start: *start as int,
                    end: *end as int,
                    indent: *indent as int,
                    role: *role,
                    kind: *kind,
                }
            },
        }
    }
}

/// The views of a vector of placeholders.
pub open spec fn placeholder_views<S: Slice>(v: Seq<PatternElementPlaceholders<S>>) -> Seq<
    PlaceholderView,
> {
    Seq::new(v.len(), |i: int| v[i].view())
}

/// The views of a vector of errors.
pub open spec fn error_views(v: Seq<ParserError>) -> Seq<ParserErrorView> {
    Seq::new(v.len(), |i: int| v[i].view())
}

/// A run of text can be cut out of `b` wherever the common indent turns out
/// to lie.
pub open spec fn placeholder_ok(b: Seq<u8>, e: PlaceholderView) -> bool {
    match e {
        PlaceholderView::Placeable { .. } => true,
        PlaceholderView::TextElement { start, end, indent, .. } => {
            &&& 0 <= start
            &&& 0 <= indent
            &&& start + indent <= end <= b.len()
            &&& is_cut(b, end)
            &&& forall|j: int| start <= j <= start + indent ==> #[trigger] is_cut(b, j)
        },
    }
}

pub open spec fn as_int(x: Option<usize>) -> Option<int> {
    match x {
        Some(v) => Some(v as int),
        None => None,
    }
}

/// Where the text of a run starts once the pattern's common indent is taken
/// off.
pub fn dedent_start(
    start: usize,
    indent: usize,
    role: TextElementPosition,
    common_indent: Option<usize>,
) -> (r: usize)
    requires
        start + indent <= usize::MAX,
    ensures
        r == dedented(start as int, indent as int, role, as_int(common_indent)),
        start <= r <= start + indent,
{
    if role == TextElementPosition::LineStart {
        match common_indent {
            Some(c) => if indent < c {
                start + indent
            } else {
                start + c
            },
            None => start + indent,
        }
    } else {
        start
    }
}

impl<S: Slice> Parser<S> {
    fn get_identifier(&mut self) -> (r: Result<ast::Identifier<S>>)
        requires
            old(self).wf(),
        ensures
            match (r, identifier(old(self).bytes(), old(self).position())) {
                (Ok(x), Ok((m, q))) => x.view() == m && final(self).goes_to(*old(self), q) && q
                    > old(self).position() && q == ident_end(
                    old(self).bytes(),
                    old(self).position() + 1,
                ) && forall|j: int|
                    old(self).position() <= j < q ==> is_ident_byte(
                        #[trigger] old(self).bytes()[j],
                    ),
                (Err(e), Err(m)) => e.view() == m && final(self).goes_to(
                    *old(self),
                    old(self).position(),
                ),
                _ => false,
            },
    {
        proof {
            self.lemma_cuts();
        }
        let mut ptr = self.ptr;
        match self.source.get_char(ptr) {
            Some(c) => {
                if byte_is_alpha(c) {
                    assert(self.bytes()[ptr as int] < 0x80);
                    ptr += 1;
                } else {
                    return Err(
                        error_at(
                            ErrorKind::ExpectedCharRange { range: String::from_str("a-zA-Z") },
                            ptr,
                        ),
                    );
                }
            },
            None => {
                return Err(
                    error_at(
                        ErrorKind::ExpectedCharRange { range: String::from_str("a-zA-Z") },
                        ptr,
                    ),
                );
            },
        }
        loop
            invariant
                self.wf(),
                self.ptr < ptr <= self.length,
                is_cut(self.bytes(), ptr as int),
                cuts_around_ascii(self.bytes()),
                ident_end(self.bytes(), self.ptr + 1) == ident_end(self.bytes(), ptr as int),
                forall|j: int| self.ptr <= j < ptr ==> is_ident_byte(#[trigger] self.bytes()[j]),
            ensures
                self.ptr < ptr <= self.length,
                is_cut(self.bytes(), ptr as int),
                ptr == ident_end(self.bytes(), self.ptr + 1),
                forall|j: int| self.ptr <= j < ptr ==> is_ident_byte(#[trigger] self.bytes()[j]),
            decreases self.length - ptr,
        {
            match self.source.get_char(ptr) {
                Some(c) => {
                    if byte_is_ident(c) {
                        assert(self.bytes()[ptr as int] < 0x80);
                        ptr += 1;
                    } else {
                        break ;
                    }
                },
                None => {
                    break ;
                },
            }
        }
        let name = self.source.slice(self.ptr, ptr);
        proof {
            broadcast use group_utf8_lib;

            assert(name.text() == piece(self.bytes(), self.ptr as int, ptr as int));
        }
        self.ptr = ptr;
        Ok(ast::Identifier { name })
    }

    fn get_attribute_accessor(&mut self) -> (r: Result<Option<ast::Identifier<S>>>)
        requires
            old(self).wf(),
        ensures
            match (r, attribute_accessor(old(self).bytes(), old(self).position())) {
                (Ok(x), Ok((m, q))) => final(self).goes_to(*old(self), q) && q >= old(
                    self,
                ).position() && match (x, m) {
                    (Some(a), Some(v)) => a.view() == v,
                    (None, None) => true,
                    _ => false,
                },
                (Err(e), Err(m)) => e.view() == m && final(self).intact(*old(self)),
                _ => false,
            },
    {
        if !self.take_byte_if(DOT) {
            Ok(None)
        } else {
            let ident = self.get_identifier()?;
            Ok(Some(ident))
        }
    }

    fn get_number_literal(&mut self) -> (r: Result<S>)
        requires
            old(self).wf(),
        ensures
            match (r, number_literal(old(self).bytes(), old(self).position())) {
                (Ok(x), Ok((m, q))) => x.text() == m && final(self).goes_to(*old(self), q) && q
                    > old(self).position(),
                (Err(e), Err(m)) => e.view() == m && final(self).intact(*old(self)),
                _ => false,
            },
    {
        let start = self.ptr;
        self.take_byte_if(MINUS);
        self.skip_digits()?;
        if self.take_byte_if(DOT) {
            self.skip_digits()?;
        }
        let value = self.source.slice(start, self.ptr);
        proof {
            broadcast use group_utf8_lib;

            assert(value.text() == piece(self.bytes(), start as int, self.ptr as int));
        }
        Ok(value)
    }

    fn get_comment_level(&mut self) -> (chars: usize)
        requires
            old(self).wf(),
        ensures
            final(self).goes_to(*old(self), sigil_end(old(self).bytes(), old(self).position())),
            chars == final(self).position() - old(self).position(),
            is_at(old(self).bytes(), old(self).position(), HASH) ==> chars > 0,
    {
        let mut chars: usize = 0;
        let ghost start = self.ptr;
        while self.take_byte_if(HASH)
            invariant
                self.goes_to(*old(self), self.ptr as int),
                start == old(self).ptr,
                start + chars == self.ptr,
                sigil_end(self.bytes(), start as int) == sigil_end(
                    self.bytes(),
                    self.ptr as int,
                ),
            decreases self.length - self.ptr,
        {
            chars += 1;
        }
        chars
    }

    fn get_comment_line(&mut self) -> (r: Result<S>)
        requires
            old(self).wf(),
        ensures
            r matches Ok(x) && x.text() == piece(
                old(self).bytes(),
                old(self).position(),
                line_end(old(self).bytes(), old(self).position()),
            ) && final(self).goes_to(
                *old(self),
                line_end(old(self).bytes(), old(self).position()),
            ) && final(self).position() >= old(self).position() && (final(self).position()
                == old(self).bytes().len() || eol_len(old(self).bytes(), final(self).position())
                > 0),
    {
        proof {
            self.lemma_cuts();
        }
        let start_pos = self.ptr;
        while self.ptr < self.length && !self.is_eol_here()
            invariant
                self.intact(*old(self)),
                start_pos == old(self).ptr,
                start_pos <= self.ptr,
                cuts_around_ascii(self.bytes()),
                line_end(self.bytes(), start_pos as int) == line_end(
                    self.bytes(),
                    self.ptr as int,
                ),
            decreases self.length - self.ptr,
        {
            self.ptr += 1;
        }
        proof {
            if self.ptr < self.length {
                assert(self.bytes()[self.ptr as int] < 0x80);
            } else {
                broadcast use group_utf8_lib;

            }
            assert(is_cut(self.bytes(), self.ptr as int));
        }
        let line = self.source.slice(start_pos, self.ptr);
        proof {
            broadcast use group_utf8_lib;

            assert(line.text() == piece(self.bytes(), start_pos as int, self.ptr as int));
        }
        Ok(line)
    }

    fn is_eol_here(&self) -> (r: bool)
        requires
            self.ptr <= self.length,
            self.length == self.bytes().len(),
        ensures
            r == (eol_len(self.bytes(), self.position()) > 0),
    {
        match self.source.get_char(self.ptr) {
            Some(c) => c == LF || (c == CR && self.is_byte_after(LF)),
            None => false,
        }
    }

    fn get_text_slice(&mut self) -> (r: Result<
        (usize, usize, TextElementType, TextElementTermination),
    >)
        requires
            old(self).wf(),
        ensures
            match (r, text_slice(old(self).bytes(), old(self).position(), TextElementType::Blank)) {
                (Ok(x), Ok(m)) => {
                    &&& x.0 == old(self).position()
                    &&& x.1 == m.end
                    &&& x.2 == m.kind
                    &&& x.3 == m.termination
                    &&& final(self).goes_to(*old(self), m.ptr)
                    &&& x.0 <= x.1 <= final(self).position()
                    &&& is_cut(old(self).bytes(), m.end)
                    &&& (old(self).position() < old(self).bytes().len() && old(self).bytes()[old(
                        self,
                    ).position()] != OPEN_BRACE ==> m.ptr > old(self).position())
                },
                (Err(e), Err(m)) => e.view() == m && final(self).intact(*old(self)),
                _ => false,
            },
    {
        proof {
            self.lemma_cuts();
        }
        let start_pos = self.ptr;
        let mut text_element_type = TextElementType::Blank;
        loop
            invariant
                self.intact(*old(self)),
                start_pos == old(self).ptr,
                start_pos <= self.ptr,
                cuts_around_ascii(self.bytes()),
                valid_utf8(self.bytes()),
                text_slice(self.bytes(), start_pos as int, TextElementType::Blank) == text_slice(
                    self.bytes(),
                    self.ptr as int,
                    text_element_type,
                ),
                self.ptr == start_pos ==> is_cut(self.bytes(), self.ptr as int),
            decreases self.length - self.ptr,
        {
            match self.source.get_char(self.ptr) {
                Some(c) => {
                    if c == SPACE {
                        self.ptr += 1;
                    } else if c == LF {
                        assert(self.bytes()[self.ptr as int] < 0x80);
                        self.ptr += 1;
                        return Ok(
                            (
                                start_pos,
                                self.ptr,
                                text_element_type,
                                TextElementTermination::LineFeed,
                            ),
                        );
                    } else if c == CR && self.is_byte_after(LF) {
                        assert(self.bytes()[self.ptr + 1] < 0x80);
                        self.ptr += 2;
                        return Ok(
                            (
                                start_pos,
                                self.ptr,
                                text_element_type,
                                TextElementTermination::CRLF,
                            ),
                        );
                    } else if c == OPEN_BRACE {
                        assert(self.bytes()[self.ptr as int] < 0x80);
                        return Ok(
                            (
                                start_pos,
                                self.ptr,
                                text_element_type,
                                TextElementTermination::PlaceableStart,
                            ),
                        );
                    } else if c == CLOSE_BRACE {
                        return Err(error_at(ErrorKind::UnbalancedClosingBrace, self.ptr));
                    } else {
                        text_element_type = TextElementType::NonBlank;
                        self.ptr += 1;
                    }
                },
                None => {
                    proof {
                        broadcast use group_utf8_lib;

                    }
                    return Ok(
                        (start_pos, self.ptr, text_element_type, TextElementTermination::EOF),
                    );
                },
            }
        }
    }

    fn get_variant_key(&mut self) -> (r: Result<ast::VariantKey<S>>)
        requires
            old(self).wf(),
        ensures
            match (r, variant_key(old(self).bytes(), old(self).position())) {
                (Ok(x), Ok((m, q))) => x.view() == m && final(self).goes_to(*old(self), q) && q
                    > old(self).position(),
                (Err(e), Err(m)) => e.view() == m && final(self).intact(*old(self)),
                _ => false,
            },
    {
        if !self.take_byte_if(OPEN_BRACKET) {
            return Err(error_at(ErrorKind::ExpectedToken('['), self.ptr));
        }
        self.skip_blank();
        let key = if self.is_number_start() {
            ast::VariantKey::NumberLiteral { value: self.get_number_literal()? }
        } else {
            ast::VariantKey::Identifier { name: self.get_identifier()?.name }
        };
        self.skip_blank();
        self.expect_byte(CLOSE_BRACKET)?;
        Ok(key)
    }

    fn get_placeable(&mut self) -> (r: Result<ast::Expression<S>>)
        requires
            old(self).wf(),
        ensures
            match (r, placeable(old(self).bytes(), old(self).position())) {
                (Ok(x), Ok((m, q))) => x.view() == m && final(self).goes_to(*old(self), q) && q
                    > old(self).position(),
                (Err(e), Err(m)) => e.view() == m && final(self).intact(*old(self)),
                _ => false,
            },
        decreases old(self).bytes().len() - old(self).position(), 0int,
    {
        self.expect_byte(OPEN_BRACE)?;
        self.skip_blank();
        let exp = self.get_expression()?;
        self.skip_blank_inline();
        self.expect_byte(CLOSE_BRACE)?;
        let invalid_expression_found = match &exp {
            ast::Expression::InlineExpression(
                ast::InlineExpression::TermReference { attribute, .. },
            ) => attribute.is_some(),
            _ => false,
        };
        if invalid_expression_found {
            return Err(error_at(ErrorKind::TermAttributeAsPlaceable, self.ptr));
        }
        Ok(exp)
    }

    fn has_term_attribute(exp: &ast::InlineExpression<S>) -> (r: bool)
        ensures
            r == is_term_attribute(exp.view()),
    {
        match exp {
            ast::InlineExpression::TermReference { attribute, .. } => attribute.is_some(),
            _ => false,
        }
    }

    fn selector_error(exp: &ast::InlineExpression<S>) -> (r: Option<ErrorKind>)
        ensures
            match (r, selector_fault(exp.view())) {
                (Some(k), Some(v)) => k.view() == v,
                (None, None) => true,
                _ => false,
            },
    {
        match exp {
            ast::InlineExpression::MessageReference { attribute, .. } => {
                if attribute.is_none() {
                    Some(ErrorKind::MessageReferenceAsSelector)
                } else {
                    Some(ErrorKind::MessageAttributeAsSelector)
                }
            },
            ast::InlineExpression::TermReference { attribute, .. } => {
                if attribute.is_none() {
                    Some(ErrorKind::TermReferenceAsSelector)
                } else {
                    None
                }
            },
            ast::InlineExpression::Placeable { .. } => Some(
                ErrorKind::ExpectedSimpleExpressionAsSelector,
            ),
            _ => None,
        }
    }

    fn get_select_expression(&mut self, selector: ast::InlineExpression<S>) -> (r: Result<
        ast::Expression<S>,
    >)
        requires
            old(self).wf(),
            is_at(old(self).bytes(), old(self).position(), MINUS),
            is_at(old(self).bytes(), old(self).position() + 1, GREATER),
        ensures
            match (r, select_expression(old(self).bytes(), old(self).position(), selector.view())) {
                (Ok(x), Ok((m, q))) => x.view() == m && final(self).goes_to(*old(self), q) && q
                    > old(self).position(),
                (Err(e), Err(m)) => e.view() == m && final(self).intact(*old(self)),
                _ => false,
            },
        decreases old(self).bytes().len() - old(self).position(), 1int,
    {
        proof {
            self.lemma_cuts();
            assert(self.bytes()[self.ptr as int] < 0x80);
            assert(self.bytes()[self.ptr + 1] < 0x80);
        }
        self.ptr += 2;
        self.skip_blank_inline();
        if !self.skip_eol() {
            return Err(
                error_at(
                    ErrorKind::ExpectedCharRange { range: String::from_str("\n | \r\n") },
                    self.ptr,
                ),
            );
        }
        self.skip_blank();
        let variants = self.get_variants()?;
        let r = ast::Expression::SelectExpression { selector, variants };
        proof {
            lemma_select_view(&r);
        }
        Ok(r)
    }

    fn get_expression(&mut self) -> (r: Result<ast::Expression<S>>)
        requires
            old(self).wf(),
        ensures
            match (r, expression(old(self).bytes(), old(self).position())) {
                (Ok(x), Ok((m, q))) => x.view() == m && final(self).goes_to(*old(self), q) && q
                    > old(self).position(),
                (Err(e), Err(m)) => e.view() == m && final(self).intact(*old(self)),
                _ => false,
            },
        decreases old(self).bytes().len() - old(self).position(), 3int,
    {
        let exp = self.get_inline_expression()?;
        self.skip_blank();
        if !self.is_current_byte(MINUS) || !self.is_byte_after(GREATER) {
            if Self::has_term_attribute(&exp) {
                return Err(error_at(ErrorKind::TermAttributeAsPlaceable, self.ptr));
            }
            return Ok(ast::Expression::InlineExpression(exp));
        }
        match Self::selector_error(&exp) {
            Some(kind) => {
                return Err(error_at(kind, self.ptr));
            },
            None => {},
        }
        self.get_select_expression(exp)
    }

    fn get_variants(&mut self) -> (r: Result<Vec<ast::Variant<S>>>)
        requires
            old(self).wf(),
        ensures
            match (r, variants_loop(old(self).bytes(), old(self).position(), Seq::empty(), false)) {
                (Ok(x), Ok((m, q))) => variant_views(x@) == m && final(self).goes_to(
                    *old(self),
                    q,
                ) && q >= old(self).position(),
                (Err(e), Err(m)) => e.view() == m && final(self).intact(*old(self)),
                _ => false,
            },
        decreases old(self).bytes().len() - old(self).position(), 3int,
    {
        let mut variants: Vec<ast::Variant<S>> = Vec::new();
        let mut has_default = false;
        let ghost origin = self.ptr as int;
        assert(variant_views(variants@) =~= Seq::empty());
        while self.is_current_byte(ASTERISK) || self.is_current_byte(OPEN_BRACKET)
            invariant
                self.goes_to(*old(self), self.ptr as int),
                origin == old(self).ptr,
                origin <= self.ptr,
                variants_loop(self.bytes(), origin, Seq::empty(), false) == variants_loop(
                    self.bytes(),
                    self.ptr as int,
                    variant_views(variants@),
                    has_default,
                ),
            decreases self.length - self.ptr,
        {
            let ghost before = variant_views(variants@);
            let default = self.take_byte_if(ASTERISK);
            if default {
                if has_default {
                    return Err(error_at(ErrorKind::MultipleDefaultVariants, self.ptr));
                } else {
                    has_default = true;
                }
            }
            let key = self.get_variant_key()?;
            let value = self.get_pattern()?;
            match value {
                Some(value) => {
                    variants.push(ast::Variant { key, value, default });
                    assert(variant_views(variants@) =~= before.push(
                        VariantView { key: key.view(), value: value.view(), default },
                    ));
                    self.skip_blank();
                },
                None => {
                    return Err(error_at(ErrorKind::MissingValue, self.ptr));
                },
            }
        }
        if !has_default {
            Err(error_at(ErrorKind::MissingDefaultVariant, self.ptr))
        } else {
            Ok(variants)
        }
    }

    fn is_function_name(&self, start: usize, end: usize) -> (r: bool)
        requires
            start <= end <= self.bytes().len(),
        ensures
            r == is_callee(self.bytes(), start as int, end as int),
    {
        let mut i = start;
        while i < end
            invariant
                start <= i <= end <= self.bytes().len(),
                is_callee(self.bytes(), start as int, i as int),
            decreases end - i,
        {
            match self.source.get_char(i) {
                Some(c) => {
                    if !byte_is_callee(c) {
                        return false;
                    }
                },
                None => {},
            }
            i += 1;
        }
        true
    }

    fn get_string_literal(&mut self) -> (r: Result<S>)
        requires
            old(self).wf(),
            is_at(old(self).bytes(), old(self).position(), QUOTE),
        ensures
            match (r, string_end(old(self).bytes(), old(self).position() + 1)) {
                (Ok(x), Ok(q)) => x.text() == piece(
                    old(self).bytes(),
                    old(self).position() + 1,
                    q,
                ) && final(self).goes_to(*old(self), q + 1) && q > old(self).position(),
                (Err(e), Err(m)) => e.view() == m && final(self).intact(*old(self)),
                _ => false,
            },
    {
        proof {
            self.lemma_cuts();
            assert(self.bytes()[self.ptr as int] < 0x80);
        }
        self.ptr += 1;
        let start = self.ptr;
        loop
            invariant
                self.intact(*old(self)),
                start == old(self).ptr + 1,
                start <= self.ptr,
                is_cut(self.bytes(), start as int),
                cuts_around_ascii(self.bytes()),
                string_end(self.bytes(), start as int) == string_end(
                    self.bytes(),
                    self.ptr as int,
                ),
            ensures
                self.intact(*old(self)),
                start == old(self).ptr + 1,
                start <= self.ptr,
                is_cut(self.bytes(), start as int),
                cuts_around_ascii(self.bytes()),
                string_end(self.bytes(), start as int) == string_end(
                    self.bytes(),
                    self.ptr as int,
                ),
                !(self.ptr < self.length) || self.bytes()[self.ptr as int] == QUOTE,
            decreases self.length - self.ptr,
        {
            match self.source.get_char(self.ptr) {
                Some(c) => {
                    if c == BACKSLASH {
                        if self.is_byte_after(BACKSLASH) || self.is_byte_after(OPEN_BRACE)
                            || self.is_byte_after(QUOTE) {
                            self.ptr += 2;
                        } else if self.is_byte_after(LOWER_U) {
                            assert(self.bytes()[self.ptr + 1] < 0x80);
                            self.ptr += 2;
                            self.skip_unicode_escape_sequence(4)?;
                        } else if self.is_byte_after(UPPER_U) {
                            assert(self.bytes()[self.ptr + 1] < 0x80);
                            self.ptr += 2;
                            self.skip_unicode_escape_sequence(6)?;
                        } else {
                            return Err(error_at(ErrorKind::Generic, self.ptr));
                        }
                    } else if c == QUOTE {
                        break ;
                    } else if c == LF {
                        return Err(error_at(ErrorKind::Generic, self.ptr));
                    } else {
                        self.ptr += 1;
                    }
                },
                None => {
                    break ;
                },
            }
        }
        if !self.is_current_byte(QUOTE) {
            return Err(error_at(ErrorKind::ExpectedToken('"'), self.ptr));
        }
        assert(self.bytes()[self.ptr as int] < 0x80);
        let value = self.source.slice(start, self.ptr);
        proof {
            broadcast use group_utf8_lib;

            assert(value.text() == piece(self.bytes(), start as int, self.ptr as int));
        }
        self.ptr += 1;
        Ok(value)
    }

    fn get_term_reference(&mut self) -> (r: Result<ast::InlineExpression<S>>)
        requires
            old(self).wf(),
        ensures
            match (r, term_reference(old(self).bytes(), old(self).position())) {
                (Ok(x), Ok((m, q))) => x.view() == m && final(self).goes_to(*old(self), q) && q
                    > old(self).position(),
                (Err(e), Err(m)) => e.view() == m && final(self).intact(*old(self)),
                _ => false,
            },
        decreases old(self).bytes().len() - old(self).position(), 4int,
    {
        let id = self.get_identifier()?;
        let attribute = self.get_attribute_accessor()?;
        let arguments = self.get_call_arguments()?;
        Ok(ast::InlineExpression::TermReference { id, attribute, arguments })
    }

    fn get_named_reference(&mut self) -> (r: Result<ast::InlineExpression<S>>)
        requires
            old(self).wf(),
        ensures
            match (r, named_reference(old(self).bytes(), old(self).position())) {
                (Ok(x), Ok((m, q))) => x.view() == m && final(self).goes_to(*old(self), q) && q
                    > old(self).position(),
                (Err(e), Err(m)) => e.view() == m && final(self).intact(*old(self)),
                _ => false,
            },
        decreases old(self).bytes().len() - old(self).position(), 0int,
    {
        let start = self.ptr;
        let id = self.get_identifier()?;
        let end = self.ptr;
        let arguments = self.get_call_arguments()?;
        if arguments.is_some() {
            if !self.is_function_name(start, end) {
                return Err(error_at(ErrorKind::ForbiddenCallee, self.ptr));
            }
            Ok(ast::InlineExpression::FunctionReference { id, arguments })
        } else {
            let attribute = self.get_attribute_accessor()?;
            Ok(ast::InlineExpression::MessageReference { id, attribute })
        }
    }

    fn get_after_minus(&mut self) -> (r: Result<ast::InlineExpression<S>>)
        requires
            old(self).wf(),
            is_at(old(self).bytes(), old(self).position(), MINUS),
        ensures
            match (r, inline_expression(old(self).bytes(), old(self).position())) {
                (Ok(x), Ok((m, q))) => x.view() == m && final(self).goes_to(*old(self), q) && q
                    > old(self).position(),
                (Err(e), Err(m)) => e.view() == m && final(self).intact(*old(self)),
                _ => false,
            },
        decreases old(self).bytes().len() - old(self).position(), 1int,
    {
        proof {
            self.lemma_cuts();
            assert(self.bytes()[self.ptr as int] < 0x80);
        }
        self.ptr += 1;
        if self.is_identifier_start() {
            self.get_term_reference()
        } else {
            self.ptr -= 1;
            let num = self.get_number_literal()?;
            Ok(ast::InlineExpression::NumberLiteral { value: num })
        }
    }

    fn get_variable_reference(&mut self) -> (r: Result<ast::InlineExpression<S>>)
        requires
            old(self).wf(),
            is_at(old(self).bytes(), old(self).position(), DOLLAR),
        ensures
            match (r, inline_expression(old(self).bytes(), old(self).position())) {
                (Ok(x), Ok((m, q))) => x.view() == m && final(self).goes_to(*old(self), q) && q
                    > old(self).position(),
                (Err(e), Err(m)) => e.view() == m && final(self).intact(*old(self)),
                _ => false,
            },
    {
        proof {
            self.lemma_cuts();
            assert(self.bytes()[self.ptr as int] < 0x80);
        }
        self.ptr += 1;
        let id = self.get_identifier()?;
        Ok(ast::InlineExpression::VariableReference { id })
    }

    fn get_literal(&mut self) -> (r: Result<ast::InlineExpression<S>>)
        requires
            old(self).wf(),
            0 <= old(self).position() < old(self).bytes().len(),
            old(self).bytes()[old(self).position()] == QUOTE || is_digit(
                old(self).bytes()[old(self).position()],
            ),
        ensures
            match (r, inline_expression(old(self).bytes(), old(self).position())) {
                (Ok(x), Ok((m, q))) => x.view() == m && final(self).goes_to(*old(self), q) && q
                    > old(self).position(),
                (Err(e), Err(m)) => e.view() == m && final(self).intact(*old(self)),
                _ => false,
            },
    {
        if self.is_current_byte(QUOTE) {
            let value = self.get_string_literal()?;
            Ok(ast::InlineExpression::StringLiteral { value })
        } else {
            let num = self.get_number_literal()?;
            Ok(ast::InlineExpression::NumberLiteral { value: num })
        }
    }

    fn get_nested_placeable(&mut self) -> (r: Result<ast::InlineExpression<S>>)
        requires
            old(self).wf(),
            is_at(old(self).bytes(), old(self).position(), OPEN_BRACE),
        ensures
            match (r, inline_expression(old(self).bytes(), old(self).position())) {
                (Ok(x), Ok((m, q))) => x.view() == m && final(self).goes_to(*old(self), q) && q
                    > old(self).position(),
                (Err(e), Err(m)) => e.view() == m && final(self).intact(*old(self)),
                _ => false,
            },
        decreases old(self).bytes().len() - old(self).position(), 1int,
    {
        let exp = self.get_placeable()?;
        Ok(ast::InlineExpression::Placeable { expression: Box::new(exp) })
    }

    fn get_reference(&mut self) -> (r: Result<ast::InlineExpression<S>>)
        requires
            old(self).wf(),
            0 <= old(self).position() < old(self).bytes().len(),
            is_alpha(old(self).bytes()[old(self).position()]),
        ensures
            match (r, inline_expression(old(self).bytes(), old(self).position())) {
                (Ok(x), Ok((m, q))) => x.view() == m && final(self).goes_to(*old(self), q) && q
                    > old(self).position(),
                (Err(e), Err(m)) => e.view() == m && final(self).intact(*old(self)),
                _ => false,
            },
        decreases old(self).bytes().len() - old(self).position(), 1int,
    {
        self.get_named_reference()
    }

    fn get_inline_expression(&mut self) -> (r: Result<ast::InlineExpression<S>>)
        requires
            old(self).wf(),
        ensures
            match (r, inline_expression(old(self).bytes(), old(self).position())) {
                (Ok(x), Ok((m, q))) => x.view() == m && final(self).goes_to(*old(self), q) && q
                    > old(self).position(),
                (Err(e), Err(m)) => e.view() == m && final(self).intact(*old(self)),
                _ => false,
            },
        decreases old(self).bytes().len() - old(self).position(), 2int,
    {
        match self.source.get_char(self.ptr) {
            Some(first) => {
                if first == QUOTE || byte_is_digit(first) {
                    self.get_literal()
                } else if first == MINUS {
                    self.get_after_minus()
                } else if first == DOLLAR {
                    self.get_variable_reference()
                } else if byte_is_alpha(first) {
                    self.get_reference()
                } else if first == OPEN_BRACE {
                    self.get_nested_placeable()
                } else {
                    Err(error_at(ErrorKind::ExpectedInlineExpression, self.ptr))
                }
            },
            None => Err(error_at(ErrorKind::ExpectedInlineExpression, self.ptr)),
        }
    }

    fn has_named(named: &Vec<ast::NamedArgument<S>>, name: &S) -> (r: bool)
        ensures
            r == has_name(named_views(named@), name.text()),
    {
        let mut i: usize = 0;
        while i < named.len()
            invariant
                i <= named.len(),
                forall|j: int| 0 <= j < i ==> named_views(named@)[j].name != name.text(),
            decreases named.len() - i,
        {
            if str_eq(named[i].name.name.as_str(), name.as_str()) {
                assert(named_views(named@)[i as int].name == name.text());
                return true;
            }
            i += 1;
        }
        false
    }

    fn get_call_arguments(&mut self) -> (r: Result<Option<ast::CallArguments<S>>>)
        requires
            old(self).wf(),
        ensures
            match (r, call_arguments(old(self).bytes(), old(self).position())) {
                (Ok(x), Ok((m, q))) => final(self).goes_to(*old(self), q) && q >= old(
                    self,
                ).position() && match (x, m) {
                    (Some(a), Some(v)) => a.view() == v,
                    (None, None) => true,
                    _ => false,
                },
                (Err(e), Err(m)) => e.view() == m && final(self).intact(*old(self)),
                _ => false,
            },
        decreases old(self).bytes().len() - old(self).position(), 3int,
    {
        self.skip_blank();
        if !self.take_byte_if(OPEN_PAREN) {
            return Ok(None);
        }
        let mut positional: Vec<ast::InlineExpression<S>> = Vec::new();
        let mut named: Vec<ast::NamedArgument<S>> = Vec::new();
        self.skip_blank();
        let ghost origin = old(self).ptr as int;
        let ghost opened = self.ptr as int;
        let ghost empty = CallArgumentsView { positional: Seq::empty(), named: Seq::empty() };
        assert(inline_views(positional@) =~= Seq::empty());
        assert(named_views(named@) =~= Seq::empty());
        while self.ptr < self.length
            invariant
                self.goes_to(*old(self), self.ptr as int),
                origin == old(self).ptr,
                origin < opened <= self.ptr,
                call_arguments(self.bytes(), origin) == close_arguments(
                    self.bytes(),
                    arguments_loop(
                        self.bytes(),
                        self.ptr as int,
                        CallArgumentsView {
                            positional: inline_views(positional@),
                            named: named_views(named@),
                        },
                    ),
                ),
            ensures
                self.goes_to(*old(self), self.ptr as int),
                origin < opened <= self.ptr,
                call_arguments(self.bytes(), origin) == close_arguments(
                    self.bytes(),
                    Ok(
                        (
                            CallArgumentsView {
                                positional: inline_views(positional@),
                                named: named_views(named@),
                            },
                            self.ptr as int,
                        ),
                    ),
                ),
            decreases self.length - self.ptr,
        {
            if self.is_current_byte(CLOSE_PAREN) {
                break ;
            }
            let ghost before_positional = inline_views(positional@);
            let ghost before_named = named_views(named@);
            let expr = self.get_inline_expression()?;
            let is_name = match &expr {
                ast::InlineExpression::MessageReference { id, attribute } => attribute.is_none(),
                _ => false,
            };
            if is_name {
                self.skip_blank();
            }
            if is_name && self.is_current_byte(COLON) {
                match expr {
                    ast::InlineExpression::MessageReference { id, attribute } => {
                        if Self::has_named(&named, &id.name) {
                            let mut id_name = String::new();
                            id.name.write(&mut id_name);
                            assert(id_name@ =~= id.name.text());
                            return Err(
                                error_at(ErrorKind::DuplicatedNamedArgument(id_name), self.ptr),
                            );
                        }
                        proof {
                            self.lemma_cuts();
                            assert(self.bytes()[self.ptr as int] < 0x80);
                        }
                        self.ptr += 1;
                        self.skip_blank();
                        let val = self.get_inline_expression()?;
                        named.push(ast::NamedArgument { name: id, value: val });
                        assert(named_views(named@) =~= before_named.push(
                            NamedArgumentView { name: id.view(), value: val.view() },
                        ));
                    },
                    _ => {},
                }
            } else {
                if named.len() > 0 {
                    return Err(error_at(ErrorKind::PositionalArgumentFollowsNamed, self.ptr));
                }
                positional.push(expr);
                assert(inline_views(positional@) =~= before_positional.push(expr.view()));
            }
            self.skip_blank();
            self.take_byte_if(COMMA);
            self.skip_blank();
        }
        self.expect_byte(CLOSE_PAREN)?;
        let args = ast::CallArguments { positional, named };
        proof {
            lemma_arguments_view(&args);
        }
        Ok(Some(args))
    }

    fn get_pattern(&mut self) -> (r: Result<Option<ast::Pattern<S>>>)
        requires
            old(self).wf(),
        ensures
            match (r, pattern(old(self).bytes(), old(self).position())) {
                (Ok(x), Ok((m, q))) => final(self).goes_to(*old(self), q) && q >= old(
                    self,
                ).position() && match (x, m) {
                    (Some(a), Some(v)) => a.view() == v,
                    (None, None) => true,
                    _ => false,
                },
                (Err(e), Err(m)) => e.view() == m && final(self).intact(*old(self)),
                _ => false,
            },
        decreases old(self).bytes().len() - old(self).position(), 3int,
    {
        self.skip_blank_inline();
        let role = if self.skip_eol() {
            self.skip_blank_block();
            TextElementPosition::LineStart
        } else {
            TextElementPosition::InitialLineStart
        };
        let mut st = PatternBuilder::new(role);
        let ghost origin = old(self).ptr as int;
        while self.ptr < self.length
            invariant
                self.goes_to(*old(self), self.ptr as int),
                origin == old(self).ptr,
                origin <= self.ptr,
                pattern(self.bytes(), origin) == finished(
                    self.bytes(),
                    pattern_loop(self.bytes(), self.ptr as int, st.view()),
                ),
                st.ok(self.bytes()),
            ensures
                self.goes_to(*old(self), self.ptr as int),
                origin <= self.ptr,
                pattern(self.bytes(), origin) == finished(
                    self.bytes(),
                    Ok((st.view(), self.ptr as int)),
                ),
                st.ok(self.bytes()),
            decreases self.length - self.ptr,
        {
            if self.is_current_byte(OPEN_BRACE) {
                let exp = self.get_placeable()?;
                st.add_placeable(Ghost(self.bytes()), exp);
            } else {
                let slice_start = self.ptr;
                let mut indent: usize = 0;
                if st.is_line_start() {
                    indent = self.skip_blank_inline();
                    let b = self.source.get_char(self.ptr);
                    match b {
                        Some(c) => {
                            if indent == 0 {
                                if !self.is_eol() {
                                    break ;
                                }
                            } else if !self.is_byte_pattern_continuation(c) {
                                self.ptr = slice_start;
                                break ;
                            }
                        },
                        None => {
                            break ;
                        },
                    }
                }
                let ghost text_start = self.ptr as int;
                let (start, end, text_element_type, termination_reason) = self.get_text_slice()?;
                proof {
                    self.lemma_cuts();
                    assert forall|j: int| slice_start <= j <= slice_start + indent implies is_cut(
                        self.bytes(),
                        j,
                    ) by {
                        if j < slice_start + indent {
                            assert(self.bytes()[j] < 0x80);
                        }
                    }
                }
                st.add_text(
                    Ghost(self.bytes()),
                    slice_start,
                    indent,
                    start,
                    end,
                    text_element_type,
                    termination_reason,
                );
            }
        }
        Ok(st.finish(&self.source))
    }
}

impl<S: Slice> Parser<S> {
    fn get_attribute(&mut self) -> (r: Result<ast::Attribute<S>>)
        requires
            old(self).wf(),
        ensures
            match (r, attribute(old(self).bytes(), old(self).position())) {
                (Ok(x), Ok((m, q))) => x.view() == m && final(self).goes_to(*old(self), q) && q
                    > old(self).position(),
                (Err(e), Err(m)) => e.view() == m && final(self).intact(*old(self)),
                _ => false,
            },
    {
        self.expect_byte(DOT)?;
        let id = self.get_identifier()?;
        self.skip_blank_inline();
        self.expect_byte(EQUALS)?;
        let pattern = self.get_pattern()?;
        match pattern {
            Some(pattern) => Ok(ast::Attribute { id, value: pattern }),
            None => Err(error_at(ErrorKind::MissingValue, self.ptr)),
        }
    }

    fn get_attributes(&mut self) -> (r: Vec<ast::Attribute<S>>)
        requires
            old(self).wf(),
        ensures
            attribute_views(r@) == attributes_loop(
                old(self).bytes(),
                old(self).position(),
                Seq::empty(),
            ).0,
            final(self).goes_to(
                *old(self),
                attributes_loop(old(self).bytes(), old(self).position(), Seq::empty()).1,
            ),
            final(self).position() >= old(self).position(),
    {
        let mut attributes: Vec<ast::Attribute<S>> = Vec::new();
        let ghost origin = self.ptr as int;
        assert(attribute_views(attributes@) =~= Seq::empty());
        loop
            invariant
                self.goes_to(*old(self), self.ptr as int),
                origin == old(self).ptr,
                origin <= self.ptr,
                attributes_loop(self.bytes(), origin, Seq::empty()) == attributes_loop(
                    self.bytes(),
                    self.ptr as int,
                    attribute_views(attributes@),
                ),
            ensures
                self.goes_to(*old(self), self.ptr as int),
                origin <= self.ptr,
                attributes_loop(self.bytes(), origin, Seq::empty()) == (
                    attribute_views(attributes@),
                    self.ptr as int,
                ),
            decreases self.length - self.ptr,
        {
            let line_start = self.ptr;
            let ghost before = attribute_views(attributes@);
            self.skip_blank_inline();
            if !self.is_current_byte(DOT) {
                self.ptr = line_start;
                break ;
            }
            match self.get_attribute() {
                Ok(attr) => {
                    attributes.push(attr);
                    assert(attribute_views(attributes@) =~= before.push(attr.view()));
                },
                Err(_) => {
                    self.ptr = line_start;
                    break ;
                },
            }
        }
        attributes
    }

    fn get_message(&mut self, entry_start: usize) -> (r: Result<ast::Message<S>>)
        requires
            old(self).wf(),
        ensures
            match (r, message(old(self).bytes(), old(self).position(), entry_start as int)) {
                (Ok(x), Ok((m, q))) => x.view() == m && final(self).goes_to(*old(self), q) && q
                    > old(self).position(),
                (Err(e), Err(m)) => e.view() == m && final(self).intact(*old(self)),
                _ => false,
            },
    {
        let id = self.get_identifier()?;
        self.skip_blank_inline();
        self.expect_byte(EQUALS)?;
        let pattern = self.get_pattern()?;
        self.skip_blank_block();
        let attributes = self.get_attributes();
        if pattern.is_none() && attributes.len() == 0 {
            let mut entry_id = String::new();
            id.name.write(&mut entry_id);
            assert(entry_id@ =~= id.name.text());
            return Err(
                error_over(ErrorKind::ExpectedMessageField { entry_id }, entry_start, self.ptr),
            );
        }
        Ok(ast::Message { id, value: pattern, attributes, comment: None })
    }

    fn get_term(&mut self, entry_start: usize) -> (r: Result<ast::Term<S>>)
        requires
            old(self).wf(),
        ensures
            match (r, term(old(self).bytes(), old(self).position(), entry_start as int)) {
                (Ok(x), Ok((m, q))) => x.view() == m && final(self).goes_to(*old(self), q) && q
                    > old(self).position(),
                (Err(e), Err(m)) => e.view() == m && final(self).intact(*old(self)),
                _ => false,
            },
    {
        self.expect_byte(MINUS)?;
        let id = self.get_identifier()?;
        self.skip_blank_inline();
        self.expect_byte(EQUALS)?;
        self.skip_blank_inline();
        let value = self.get_pattern()?;
        self.skip_blank_block();
        let attributes = self.get_attributes();
        match value {
            Some(value) => Ok(ast::Term { id, value, attributes, comment: None }),
            None => {
                let mut entry_id = String::new();
                id.name.write(&mut entry_id);
                assert(entry_id@ =~= id.name.text());
                Err(error_over(ErrorKind::ExpectedTermField { entry_id }, entry_start, self.ptr))
            },
        }
    }

    fn get_comment(&mut self) -> (r: Result<ast::Comment<S>>)
        requires
            old(self).wf(),
            is_at(old(self).bytes(), old(self).position(), HASH),
        ensures
            match (r, comment(old(self).bytes(), old(self).position())) {
                (Ok(x), Ok((m, q))) => x.view() == m && final(self).goes_to(*old(self), q) && q
                    > old(self).position(),
                (Err(e), Err(m)) => e.view() == m && final(self).intact(*old(self)),
                _ => false,
            },
    {
        let mut level: Option<usize> = None;
        let mut content: Vec<S> = Vec::new();
        let ghost origin = self.ptr as int;
        assert(texts(content@) =~= Seq::empty());
        proof {
            self.lemma_cuts();
        }
        while self.ptr < self.length
            invariant_except_break
                self.ptr == origin ==> level is None && is_at(self.bytes(), origin, HASH),
                origin < self.ptr < self.length ==> self.bytes()[self.ptr - 1] == LF,
                comment(self.bytes(), origin) == wrapped(
                    comment_loop(self.bytes(), self.ptr as int, as_int(level), texts(content@)),
                ),
            invariant
                self.goes_to(*old(self), self.ptr as int),
                origin == old(self).ptr,
                origin <= self.ptr,
                cuts_around_ascii(self.bytes()),
            ensures
                self.goes_to(*old(self), self.ptr as int),
                origin < self.ptr,
                comment(self.bytes(), origin) == Ok::<(CommentView, int), ParserErrorView>(
                    (comment_of(as_int(level), texts(content@)), self.ptr as int),
                ),
            decreases self.length - self.ptr,
        {
            let ghost before = texts(content@);
            let line_level = self.get_comment_level();
            if line_level == 0 {
                assert(self.bytes()[self.ptr - 1] < 0x80);
                self.ptr -= 1;
                break ;
            }
            let differs = match level {
                Some(l) => l != line_level,
                None => false,
            };
            if differs {
                self.ptr -= line_level;
                break ;
            }
            level = Some(line_level);
            if self.ptr == self.length {
                break ;
            } else if self.is_current_byte(LF) {
                let line = self.get_comment_line()?;
                content.push(line);
                assert(texts(content@) =~= before.push(line.text()));
            } else {
                match self.expect_byte(SPACE) {
                    Err(e) => {
                        if content.len() == 0 {
                            return Err(e);
                        } else {
                            self.ptr -= line_level;
                            break ;
                        }
                    },
                    Ok(_) => {},
                }
                let line = self.get_comment_line()?;
                content.push(line);
                assert(texts(content@) =~= before.push(line.text()));
            }
            let ghost line_stop = self.ptr as int;
            let terminated = self.skip_eol();
            proof {
                if self.ptr < self.length {
                    assert(terminated);
                }
            }
        }
        let comment = match level {
            Some(l) => {
                if l == 3 {
                    ast::Comment::ResourceComment { content }
                } else if l == 2 {
                    ast::Comment::GroupComment { content }
                } else {
                    ast::Comment::Comment { content }
                }
            },
            None => ast::Comment::Comment { content },
        };
        Ok(comment)
    }

    fn get_entry(&mut self, entry_start: usize) -> (r: Result<ast::Entry<S>>)
        requires
            old(self).wf(),
            entry_start == old(self).position(),
        ensures
            match (r, entry(old(self).bytes(), old(self).position())) {
                (Ok(x), Ok((m, q))) => x.view() == m && final(self).goes_to(*old(self), q) && q
                    > old(self).position(),
                (Err(e), Err(m)) => e.view() == m && final(self).intact(*old(self)),
                _ => false,
            },
    {
        if self.is_current_byte(HASH) {
            Ok(ast::Entry::Comment(self.get_comment()?))
        } else if self.is_current_byte(MINUS) {
            Ok(ast::Entry::Term(self.get_term(entry_start)?))
        } else {
            Ok(ast::Entry::Message(self.get_message(entry_start)?))
        }
    }

    /// Moves to where the next entry can start: behind `entry_start`, to the
    /// first line that begins with a letter, `#` or `-`, else to the end.
    fn skip_to_next_entry_start(&mut self, entry_start: usize)
        requires
            old(self).intact(*old(self)),
            entry_start < old(self).bytes().len(),
        ensures
            final(self).goes_to(*old(self), junk_end(old(self).bytes(), entry_start as int)),
            final(self).position() > entry_start,
    {
        proof {
            self.lemma_cuts();
        }
        self.ptr = entry_start + 1;
        loop
            invariant
                self.intact(*old(self)),
                entry_start < self.ptr,
                cuts_around_ascii(self.bytes()),
                valid_utf8(self.bytes()),
                next_entry_start(self.bytes(), entry_start + 1) == next_entry_start(
                    self.bytes(),
                    self.ptr as int,
                ),
            ensures
                self.goes_to(*old(self), junk_end(old(self).bytes(), entry_start as int)),
                entry_start < self.ptr,
            decreases self.length - self.ptr,
        {
            match self.source.get_char(self.ptr) {
                Some(b) => {
                    let new_line = self.is_byte_at(LF, self.ptr - 1);
                    if new_line && (byte_is_alpha(b) || b == MINUS || b == HASH) {
                        assert(self.bytes()[self.ptr as int] < 0x80);
                        break ;
                    }
                    self.ptr += 1;
                },
                None => {
                    proof {
                        broadcast use group_utf8_lib;

                    }
                    break ;
                },
            }
        }
    }
}

/// The entries and errors of a resource as the parser gathers them.
pub struct ResourceBuilder<S> {
    body: Vec<ast::ResourceEntry<S>>,
    errors: Vec<ParserError>,
    last_comment: Option<ast::Comment<S>>,
    last_blank_count: usize,
}

impl<S: Slice> ResourceBuilder<S> {
    pub closed spec fn view(&self) -> ResourceState {
        ResourceState {
            body: entry_views(self.body@),
            errors: error_views(self.errors@),
            last_comment: match self.last_comment {
                Some(c) => Some(c.view()),
                None => None,
            },
            last_blank_count: self.last_blank_count as nat,
        }
    }

    fn new() -> (st: Self)
        ensures
            st.view() == (ResourceState {
                body: Seq::empty(),
                errors: Seq::empty(),
                last_comment: None,
                last_blank_count: 0,
            }),
    {
        let st = ResourceBuilder {
            body: Vec::new(),
            errors: Vec::new(),
            last_comment: None,
            last_blank_count: 0,
        };
        assert(entry_views(st.body@) =~= Seq::empty());
        assert(error_views(st.errors@) =~= Seq::empty());
        st
    }

    /// Gives the comment held back its place: none where `attached`, else an
    /// entry of its own.
    fn settle(&mut self, attached: bool)
        ensures
            entry_views(final(self).body@) == settled(old(self).view(), attached),
            final(self).errors == old(self).errors,
            final(self).last_comment is None,
            final(self).last_blank_count == old(self).last_blank_count,
    {
        let ghost before = entry_views(self.body@);
        match self.last_comment.take() {
            Some(c) => {
                if !attached {
                    let e = ast::ResourceEntry::Entry(ast::Entry::Comment(c));
                    self.body.push(e);
                    assert(entry_views(self.body@) =~= before.push(e.view()));
                }
            },
            None => {},
        }
    }

    fn push(&mut self, e: ast::Entry<S>)
        ensures
            entry_views(final(self).body@) == entry_views(old(self).body@).push(
                ResourceEntryView::Entry(e.view()),
            ),
            final(self).errors == old(self).errors,
            final(self).last_comment == old(self).last_comment,
            final(self).last_blank_count == old(self).last_blank_count,
    {
        let ghost before = entry_views(self.body@);
        let entry = ast::ResourceEntry::Entry(e);
        self.body.push(entry);
        assert(entry_views(self.body@) =~= before.push(entry.view()));
    }

    fn add_entry(&mut self, e: ast::Entry<S>)
        ensures
            final(self).view() == after_ok(old(self).view(), e.view()),
    {
        let near = self.last_blank_count < 2;
        match e {
            ast::Entry::Comment(c) => {
                self.settle(false);
                let regular = match &c {
                    ast::Comment::Comment { .. } => true,
                    _ => false,
                };
                if regular {
                    self.last_comment = Some(c);
                } else {
                    self.push(ast::Entry::Comment(c));
                }
            },
            ast::Entry::Message(m) => {
                let comment = if near {
                    self.last_comment.take()
                } else {
                    None
                };
                self.settle(near);
                let ast::Message { id, value, attributes, comment: own } = m;
                self.push(
                    ast::Entry::Message(
                        match comment {
                            Some(c) => ast::Message { id, value, attributes, comment: Some(c) },
                            None => ast::Message { id, value, attributes, comment: own },
                        },
                    ),
                );
            },
            ast::Entry::Term(t) => {
                let comment = if near {
                    self.last_comment.take()
                } else {
                    None
                };
                self.settle(near);
                let ast::Term { id, value, attributes, comment: own } = t;
                self.push(
                    ast::Entry::Term(
                        match comment {
                            Some(c) => ast::Term { id, value, attributes, comment: Some(c) },
                            None => ast::Term { id, value, attributes, comment: own },
                        },
                    ),
                );
            },
        }
    }

    fn add_junk(&mut self, err: ParserError, start: usize, end: usize, content: S)
        ensures
            final(self).view() == after_junk(
                old(self).view(),
                err.view(),
                start as int,
                end as int,
                content.text(),
            ),
    {
        self.settle(false);
        let ghost before = entry_views(self.body@);
        let ghost errors_before = error_views(self.errors@);
        let ParserError { pos, slice: _, kind } = err;
        let e = ParserError { pos, slice: Some((start, end)), kind };
        self.errors.push(e);
        assert(error_views(self.errors@) =~= errors_before.push(e.view()));
        let junk = ast::ResourceEntry::Junk(content);
        self.body.push(junk);
        assert(entry_views(self.body@) =~= before.push(junk.view()));
    }

    fn set_blank_count(&mut self, count: usize)
        ensures
            final(self).view() == (ResourceState {
                body: old(self).view().body,
                errors: old(self).view().errors,
                last_comment: old(self).view().last_comment,
                last_blank_count: count as nat,
            }),
    {
        self.last_blank_count = count;
    }

    fn finish(self) -> (r: core::result::Result<ast::Resource<S>, (ast::Resource<S>,
        Vec<ParserError>)>)
        ensures
            match r {
                Ok(x) => x.view().body == settled(self.view(), false) && self.view().errors.len()
                    == 0,
                Err((x, e)) => x.view().body == settled(self.view(), false) && error_views(e@)
                    == self.view().errors && e@.len() > 0,
            },
    {
        let mut st = self;
        st.settle(false);
        let ResourceBuilder { body, errors, last_comment: _, last_blank_count: _ } = st;
        if errors.len() == 0 {
            Ok(ast::Resource { body })
        } else {
            Err((ast::Resource { body }, errors))
        }
    }
}

impl<S: Slice> Parser<S> {
    /// Parses the source from where the parser stands to its end. The result
    /// is `Ok` where nothing was wrong; else it holds the resource, with the
    /// source that could not be parsed kept as junk, and the errors.
    pub fn parse(&mut self) -> (r: core::result::Result<
        ast::Resource<S>,
        (ast::Resource<S>, Vec<ParserError>),
    >)
        requires
            old(self).wf(),
        ensures
            final(self).wf(),
            final(self).bytes() == old(self).bytes(),
            final(self).position() == old(self).bytes().len() || final(self).position() == old(
                self,
            ).position(),
            match r {
                Ok(x) => x.view() == resource_from(old(self).bytes(), old(self).position()).0
                    && resource_from(old(self).bytes(), old(self).position()).1.len() == 0,
                Err((x, e)) => x.view() == resource_from(
                    old(self).bytes(),
                    old(self).position(),
                ).0 && error_views(e@) == resource_from(old(self).bytes(), old(self).position()).1
                    && e@.len() > 0,
            },
    {
        let mut st = ResourceBuilder::new();
        self.skip_blank_block();
        let ghost origin = old(self).ptr as int;
        while self.ptr < self.length
            invariant
                self.goes_to(*old(self), self.ptr as int),
                origin == old(self).ptr,
                origin <= self.ptr,
                resource_from(self.bytes(), origin) == ({
                    let (body, errors) = resource_loop(self.bytes(), self.ptr as int, st.view());
                    (ResourceView { body }, errors)
                }),
            decreases self.length - self.ptr,
        {
            let entry_start = self.ptr;
            match self.get_entry(entry_start) {
                Ok(e) => {
                    st.add_entry(e);
                },
                Err(err) => {
                    self.skip_to_next_entry_start(entry_start);
                    let content = self.source.slice(entry_start, self.ptr);
                    proof {
                        broadcast use group_utf8_lib;

                        assert(content.text() == piece(
                            self.bytes(),
                            entry_start as int,
                            self.ptr as int,
                        ));
                    }
                    st.add_junk(err, entry_start, self.ptr, content);
                },
            }
            let count = self.skip_blank_block();
            st.set_blank_count(count);
        }
        st.finish()
    }
}

/// The comment that a finished run of comment lines becomes.
pub open spec fn wrapped(
    r: core::result::Result<(Option<int>, Seq<Seq<char>>, int), ParserErrorView>,
) -> core::result::Result<(CommentView, int), ParserErrorView> {
    match r {
        Err(e) => Err(e),
        Ok((level, content, q)) => Ok((comment_of(level, content), q)),
    }
}

/// The elements of a pattern as the parser gathers them.
pub struct PatternBuilder<S> {
    elements: Vec<PatternElementPlaceholders<S>>,
    last_non_blank: Option<usize>,
    common_indent: Option<usize>,
    role: TextElementPosition,
}

impl<S: Slice> PatternBuilder<S> {
    pub closed spec fn view(&self) -> PatternState {
        PatternState {
            elements: placeholder_views(self.elements@),
            last_non_blank: as_int(self.last_non_blank),
            common_indent: as_int(self.common_indent),
            role: self.role,
        }
    }

    /// Every run of text gathered can be cut out of `b`, and the last element
    /// that is not blank is among those gathered.
    pub closed spec fn ok(&self, b: Seq<u8>) -> bool {
        &&& forall|i: int|
            0 <= i < self.elements@.len() ==> placeholder_ok(
                b,
                #[trigger] placeholder_views(self.elements@)[i],
            )
        &&& self.last_non_blank matches Some(n) ==> n < self.elements@.len()
    }

    fn new(role: TextElementPosition) -> (st: Self)
        ensures
            st.view() == (PatternState {
                elements: Seq::empty(),
                last_non_blank: None,
                common_indent: None,
                role,
            }),
            forall|b: Seq<u8>| st.ok(b),
    {
        let st = PatternBuilder {
            elements: Vec::new(),
            last_non_blank: None,
            common_indent: None,
            role,
        };
        assert(placeholder_views(st.elements@) =~= Seq::empty());
        st
    }

    fn is_line_start(&self) -> (r: bool)
        ensures
            r == (self.view().role == TextElementPosition::LineStart),
    {
        self.role == TextElementPosition::LineStart
    }

    fn add_placeable(&mut self, Ghost(b): Ghost<Seq<u8>>, exp: ast::Expression<S>)
        requires
            old(self).ok(b),
        ensures
            final(self).view() == after_placeable(old(self).view(), exp.view()),
            final(self).ok(b),
    {
        let ghost before = placeholder_views(self.elements@);
        let line_start = self.role == TextElementPosition::LineStart;
        if line_start {
            self.common_indent = Some(0);
        }
        self.last_non_blank = Some(self.elements.len());
        self.elements.push(PatternElementPlaceholders::Placeable(exp, line_start));
        self.role = TextElementPosition::Continuation;
        assert(placeholder_views(self.elements@) =~= before.push(
            PlaceholderView::Placeable { expression: exp.view(), line_start },
        ));
    }

    fn add_text(
        &mut self,
        Ghost(b): Ghost<Seq<u8>>,
        slice_start: usize,
        indent: usize,
        start: usize,
        end: usize,
        text_element_type: TextElementType,
        termination_reason: TextElementTermination,
    )
        requires
            old(self).ok(b),
            slice_start + indent == start,
            start <= end <= b.len(),
            is_cut(b, end as int),
            forall|j: int| slice_start <= j <= slice_start + indent ==> is_cut(b, j),
        ensures
            final(self).view() == after_text(
                old(self).view(),
                slice_start as int,
                indent as int,
                start as int,
                TextSlice {
                    ptr: 0,
                    end: end as int,
                    kind: text_element_type,
                    termination: termination_reason,
                },
            ),
            final(self).ok(b),
    {
        let ghost before = placeholder_views(self.elements@);
        if start != end {
            if self.role == TextElementPosition::LineStart && text_element_type
                == TextElementType::NonBlank {
                match self.common_indent {
                    Some(common) => {
                        if indent < common {
                            self.common_indent = Some(indent);
                        }
                    },
                    None => {
                        self.common_indent = Some(indent);
                    },
                }
            }
            if self.role != TextElementPosition::LineStart || text_element_type
                == TextElementType::NonBlank || termination_reason
                == TextElementTermination::LineFeed || termination_reason
                == TextElementTermination::CRLF {
                if text_element_type == TextElementType::NonBlank {
                    self.last_non_blank = Some(self.elements.len());
                }
                self.elements.push(
                    PatternElementPlaceholders::TextElement(
                        slice_start,
                        end,
                        indent,
                        self.role,
                        text_element_type,
                    ),
                );
                assert(placeholder_views(self.elements@) =~= before.push(
                    PlaceholderView::TextElement {
                        start: slice_start as int,
                        end: end as int,
                        indent: indent as int,
                        role: self.role,
                        kind: text_element_type,
                    },
                ));
            }
        }
        self.role = match termination_reason {
            TextElementTermination::LineFeed => TextElementPosition::LineStart,
            TextElementTermination::CRLF => TextElementPosition::LineStart,
            TextElementTermination::PlaceableStart => TextElementPosition::Continuation,
            TextElementTermination::EOF => TextElementPosition::Continuation,
        };
    }

    /// The pattern made of the elements up to the last that is not blank, each
    /// run of text cut out of `source` without the common indent.
    fn finish(self, source: &S) -> (r: Option<ast::Pattern<S>>)
        requires
            self.ok(encode_utf8(source.text())),
        ensures
            match (r, finish_pattern(encode_utf8(source.text()), self.view())) {
                (Some(a), Some(v)) => a.view() == v,
                (None, None) => true,
                _ => false,
            },
    {
        let ghost b = encode_utf8(source.text());
        let ghost st = self.view();
        let common_indent = self.common_indent;
        match self.last_non_blank {
            Some(last_non_blank) => {
                let mut out: Vec<ast::PatternElement<S>> = Vec::new();
                let ghost all = placeholder_views(self.elements@);
                let count = self.elements.len();
                let mut i: usize = 0;
                assert(element_views(out@) =~= Seq::empty());
                for elem in it: self.elements
                    invariant
                        it.seq().len() == all.len(),
                        all.len() == count,
                        placeholder_views(it.seq()) == all,
                        last_non_blank < all.len(),
                        b == encode_utf8(source.text()),
                        forall|k: int| 0 <= k < all.len() ==> placeholder_ok(b, #[trigger] all[k]),
                        i == if it.index() <= last_non_blank {
                            it.index()
                        } else {
                            last_non_blank + 1
                        },
                        out@.len() == i,
                        forall|k: int|
                            0 <= k < out@.len() ==> (#[trigger] element_views(out@)[k])
                                == finish_element(
                                b,
                                all[k],
                                as_int(common_indent),
                                k == last_non_blank,
                            ),
                {
                    if i <= last_non_blank {
                        assert(elem.view() == all[i as int]);
                        assert(placeholder_ok(b, all[i as int]));
                        let ghost before = element_views(out@);
                        let e = match elem {
                            PatternElementPlaceholders::Placeable(exp, _) => {
                                ast::PatternElement::Placeable(exp)
                            },
                            PatternElementPlaceholders::TextElement(start, end, indent, role,
                                _) => {
                                let start = dedent_start(start, indent, role, common_indent);
                                let mut slice = source.slice(start, end);
                                proof {
                                    broadcast use group_utf8_lib;

                                    assert(slice.text() == piece(b, start as int, end as int));
                                }
                                if last_non_blank == i {
                                    slice.trim();
                                }
                                ast::PatternElement::TextElement(slice)
                            },
                        };
                        assert(e.view() == finish_element(
                            b,
                            all[i as int],
                            as_int(common_indent),
                            i == last_non_blank,
                        ));
                        out.push(e);
                        assert(element_views(out@) =~= before.push(e.view()));
                        i += 1;
                    }
                }
                let pattern = ast::Pattern { elements: out };
                proof {
                    lemma_pattern_view(&pattern);
                    assert(element_views(out@) =~= finish_pattern(b, st)->Some_0.elements);
                }
                Some(pattern)
            },
            None => None,
        }
    }
}

/// Whether `c` is a byte that continues a UTF-8 character.
fn is_continuation(c: Option<u8>) -> (r: bool)
    ensures
        r == (c matches Some(x) && is_continuation_byte(x)),
{
    match c {
        Some(x) => 0x80 <= x && x <= 0xbf,
        None => false,
    }
}

} // verus!
