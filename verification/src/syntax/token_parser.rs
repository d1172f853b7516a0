use crate::syntax::ast::{
    Attribute, attribute_views, CallArguments, CallArgumentsView, Comment, element_views, Entry,
    entry_views, Expression, Identifier, inline_views, InlineExpression, lemma_arguments_view,
    lemma_pattern_view, lemma_select_view, Message, named_views, NamedArgument, NamedArgumentView,
    Pattern, PatternElement, PatternElementView, PatternView, Resource, ResourceEntry,
    ResourceEntryView, Term, texts, Variant, variant_views, VariantKey,
};
use crate::syntax::grammar::{byte_is_callee, is_callee_byte};
use crate::syntax::lexer::{Lexer, outcome, Token};
use crate::syntax::lexer_laws::{law_lex_advances, law_resource_step, lemma_junk_stop, no_comment};
use crate::syntax::lexer_model::{junk_stop, lex, LexerError, LexerState, LexerView};
use crate::syntax::slice::{Slice, str_eq, str_slice};
use crate::syntax::token_model::{
    after_take, argument_name, as_arguments, Attributes, can_cut, comment_added, CommentLines, cut,
    dedented_from, ended, entry_added, finished_pattern, flushed, gives, Got, has_argument, inside,
    junk_added, least_indent, lemma_read_arguments, lemma_read_call_arguments, lemma_read_elements,
    lemma_read_expression, lemma_read_inline, lemma_read_more_arguments, lemma_read_pattern,
    lemma_read_placeable, lemma_read_variants, message_added, names_function, pushed,
    read_arguments, read_attribute, read_attributes, read_call_arguments, read_comment,
    read_comment_line, read_elements, read_entries, read_expression, read_identifier, read_inline,
    read_maybe_pattern, read_pattern, read_placeable, read_variant_key, read_variants, Reading,
    scan, started, taken, term_added, text_between, token_resource, with_feeds, with_last_trimmed,
    without_feeds,
};
use vstd::prelude::*;
use vstd::string::*;
use vstd::utf8::*;

verus! {

/// What the parser over tokens cannot read.
#[derive(Debug, PartialEq, Eq, Structural, Clone, Copy)]
pub enum ParserError {
    Unknown,
}

/// The error of the parser that an error of the lexer becomes.
pub fn from_lexer_error(_input: LexerError) -> (r: ParserError)
    ensures
        r == ParserError::Unknown,
{
    ParserError::Unknown
}

pub type ParserResult<T> = Result<T, ParserError>;

/// A parser over the tokens of a lexer. It gathers the entries of its source
/// as it reads them, and keeps what it cannot read as junk.
pub struct Parser<'p> {
    source: &'p str,
    lexer: Lexer<'p>,
    body: Vec<ResourceEntry<&'p str>>,
    last_comment: Option<Comment<&'p str>>,
}

/// Whether the text is a piece of the bytes.
pub open spec fn is_piece(t: &str, b: Seq<u8>) -> bool {
    exists|i: int, j: int| 0 <= i <= j <= b.len() && t.spec_bytes() == #[trigger] b.subrange(i, j)
}

/// Whether every junk among the entries is a piece of the bytes.
pub open spec fn junk_of(body: Seq<ResourceEntry<&str>>, b: Seq<u8>) -> bool {
    forall|k: int|
        0 <= k < body.len() ==> (#[trigger] body[k] matches ResourceEntry::Junk(t) ==> is_piece(
            t,
            b,
        ))
}

/// The bytes of a text cut from a source name a function where the bytes of
/// the source between the offsets do.
proof fn lemma_names_function(b: Seq<u8>, start: int, end: int, t: &str)
    requires
        0 <= start <= end <= b.len(),
        t.spec_bytes() == b.subrange(start, end),
    ensures
        names_function(b, start, end) == (forall|i: int|
            0 <= i < t.spec_bytes().len() ==> is_callee_byte(#[trigger] t.spec_bytes()[i])),
{
    if names_function(b, start, end) {
        assert forall|i: int| 0 <= i < t.spec_bytes().len() implies is_callee_byte(
            #[trigger] t.spec_bytes()[i],
        ) by {
            assert(t.spec_bytes()[i] == b[start + i]);
        }
    }
    if forall|i: int| 0 <= i < t.spec_bytes().len() ==> is_callee_byte(#[trigger] t.spec_bytes()[i]) {
        assert forall|i: int| start <= i < end implies is_callee_byte(#[trigger] b[i]) by {
            assert(t.spec_bytes()[i - start] == b[i]);
        }
    }
}

/// A character boundary lies inside the bytes or at their end.
proof fn lemma_boundary_inside(b: Seq<u8>, i: int)
    requires
        valid_utf8(b),
        is_char_boundary(b, i),
    ensures
        0 <= i <= b.len(),
    decreases b.len(),
{
    if i != 0 {
        lemma_boundary_inside(pop_first_scalar(b), i - length_of_first_scalar(b));
    }
}

/// Whether the token is one that the lexer gives without taking a byte.
fn is_empty_token(t: &Token) -> (r: bool)
    ensures
        r == (t.view() is Eot || t.view() is Indent),
{
    match t {
        Token::Eot => true,
        Token::Indent(_) => true,
        _ => false,
    }
}

impl<'p> Parser<'p> {
    /// The bytes of the source.
    pub closed spec fn bytes(&self) -> Seq<u8> {
        self.source.spec_bytes()
    }

    /// Where the lexer of the parser stands.
    pub closed spec fn lexer_view(&self) -> LexerView {
        self.lexer.view()
    }

    /// What the parser has gathered and where its lexer stands.
    pub closed spec fn view(&self) -> Reading {
        Reading {
            at: self.lexer.view(),
            body: entry_views(self.body@),
            comment: match self.last_comment {
                Some(c) => Some(c.view()),
                None => None,
            },
        }
    }

    /// The parser and its lexer read the same source, the lexer stands inside
    /// it, and the junk gathered so far is made of pieces of it.
    pub closed spec fn wf(&self) -> bool {
        &&& self.lexer.wf()
        &&& self.lexer.bytes() == self.source.spec_bytes()
        &&& no_comment(self.lexer.view().stack)
        &&& junk_of(self.body@, self.source.spec_bytes())
    }

    /// How many bytes are left to read.
    pub closed spec fn remaining(&self) -> int {
        self.source.spec_bytes().len() - self.lexer.view().ptr
    }

    spec fn in_comment(&self) -> int {
        if self.lexer.view().state == LexerState::Comment {
            1
        } else {
            0
        }
    }

    spec fn in_entry(&self) -> int {
        if self.lexer.view().state == LexerState::Resource {
            0
        } else {
            1
        }
    }

    /// The parser reads the same source as `before` and has not gone back.
    pub closed spec fn kept(&self, before: Self) -> bool {
        &&& self.wf()
        &&& self.source == before.source
        &&& 0 <= self.remaining() <= before.remaining()
        &&& self.remaining() == before.remaining() ==> self.in_comment() <= before.in_comment()
    }

    /// The parser reads the same source as `before` and has gone on.
    pub closed spec fn moved(&self, before: Self) -> bool {
        &&& self.kept(before)
        &&& self.remaining() < before.remaining() || self.in_comment() < before.in_comment()
    }

    proof fn lemma_kept_refl(&self)
        requires
            self.wf(),
        ensures
            self.kept(*self),
    {
        self.lexer.lemma_inside();
    }

    /// A parser at the start of `source`.
    pub fn new(source: &'p str) -> (r: Self)
        ensures
            r.wf(),
            r.bytes() == source.spec_bytes(),
            r.remaining() == source.spec_bytes().len(),
            r.view() == started(),
    {
        let r = Parser {
            lexer: Lexer::new(source.as_bytes()),
            source,
            body: Vec::new(),
            last_comment: None,
        };
        assert(entry_views(r.body@) =~= Seq::empty());
        r
    }

    /// The text of the source between two byte offsets, where the source can
    /// be cut there.
    fn text(&self, start: usize, end: usize) -> (r: ParserResult<&'p str>)
        ensures
            r is Ok == can_cut(self.bytes(), start as int, end as int),
            r matches Ok(t) ==> start <= end <= self.bytes().len() && t.spec_bytes()
                == self.bytes().subrange(start as int, end as int) && t@ == text_between(
                self.bytes(),
                start as int,
                end as int,
            ) && is_piece(t, self.bytes()),
    {
        broadcast use group_utf8_lib;

        if start <= end && self.source.is_char_boundary(start) && self.source.is_char_boundary(
            end,
        ) {
            proof {
                let b = self.source.spec_bytes();
                lemma_boundary_inside(b, end as int);
                if start < b.len() {
                    is_char_boundary_iff_not_is_continuation_byte(b, start as int);
                }
                if end < b.len() {
                    is_char_boundary_iff_not_is_continuation_byte(b, end as int);
                }
            }
            let t = str_slice(self.source, start, end);
            proof {
                encode_utf8_decode_utf8(t@);
            }
            Ok(t)
        } else {
            Err(ParserError::Unknown)
        }
    }

    /// The next token of the lexer.
    fn next(&mut self) -> (r: ParserResult<Option<Token>>)
        requires
            old(self).wf(),
        ensures
            final(self).kept(*old(self)),
            final(self).body == old(self).body,
            final(self).last_comment == old(self).last_comment,
            final(self).lexer_view() == scan(old(self).bytes(), old(self).lexer_view()).after,
            match r {
                Ok(t) => outcome(Ok(t)) == scan(old(self).bytes(), old(self).lexer_view()).token,
                Err(_) => scan(old(self).bytes(), old(self).lexer_view()).token is Err,
            },
            r matches Ok(Some(t)) ==> (t.view() is Eot || t.view() is Indent || final(self).moved(
                *old(self),
            )),
            r matches Ok(Some(t)) ==> (t.view() is Eot || t.view() is Indent || t.view() is Text
                || final(self).remaining() < old(self).remaining()),
            r matches Ok(Some(t)) ==> old(self).in_entry() == 0
                ==> final(self).remaining() < old(self).remaining() && (t.view() is Eol
                    || t.view() is Identifier || t.view()
                is CommentSign || t.view() is GroupCommentSign || t.view() is ResourceCommentSign
                || t.view() is MinusSign),
            r is Err && old(self).in_entry() == 0 && final(self).remaining()
                == old(self).remaining() ==> junk_stop(final(self).bytes(),
                    final(self).lexer_view().ptr) > final(self).lexer_view().ptr,
    {
        proof {
            reveal(scan);
            self.lexer.lemma_inside();
            law_lex_advances(self.lexer.bytes(), self.lexer.view());
            if self.lexer.view().state == LexerState::Resource {
                law_resource_step(self.lexer.bytes(), self.lexer.view());
            }
        }
        match self.lexer.try_next() {
            Ok(t) => Ok(t),
            Err(e) => Err(from_lexer_error(e)),
        }
    }

    /// Takes the next token where it is `token`, a token that takes at least
    /// one byte.
    fn take_if(&mut self, token: Token) -> (r: ParserResult<bool>)
        requires
            old(self).wf(),
            !(token.view() is Eot || token.view() is Indent || token.view() is Text),
        ensures
            final(self).kept(*old(self)),
            final(self).body == old(self).body,
            final(self).last_comment == old(self).last_comment,
            r == Ok::<bool, ParserError>(taken(
                old(self).bytes(),
                old(self).lexer_view(),
                token.view(),
            )),
            final(self).lexer_view() == after_take(
                old(self).bytes(),
                old(self).lexer_view(),
                token.view(),
            ),
            r == Ok::<bool, ParserError>(true) ==> final(self).moved(*old(self)),
    {
        proof {
            reveal(scan);
            self.lexer.lemma_inside();
            law_lex_advances(self.lexer.bytes(), self.lexer.view());
            let stack = self.lexer.view().stack;
            let after = lex(self.lexer.bytes(), self.lexer.view()).after.stack;
            if stack.len() > 0 {
                assert forall|i: int| 0 <= i < after.push(stack.last()).len() implies after.push(
                    stack.last(),
                )[i] != LexerState::Comment by {
                    if i < after.len() {
                        assert(after.push(stack.last())[i] == after[i]);
                    } else {
                        assert(stack.last() == stack[stack.len() - 1]);
                    }
                }
            }
        }
        match self.lexer.take_if(token) {
            Ok(taken) => Ok(taken),
            Err(e) => Err(from_lexer_error(e)),
        }
    }

    /// Reads the next token, which has to be `token`.
    fn expect(&mut self, token: Token) -> (r: ParserResult<()>)
        requires
            old(self).wf(),
        ensures
            final(self).kept(*old(self)),
            final(self).body == old(self).body,
            final(self).last_comment == old(self).last_comment,
            r is Ok == taken(old(self).bytes(), old(self).lexer_view(), token.view()),
            final(self).lexer_view() == scan(old(self).bytes(), old(self).lexer_view()).after,
    {
        proof {
            reveal(scan);
            self.lexer.lemma_inside();
            law_lex_advances(self.lexer.bytes(), self.lexer.view());
        }
        match self.lexer.expect(token) {
            Ok(_) => Ok(()),
            Err(e) => Err(from_lexer_error(e)),
        }
    }

    /// Parses the source. What cannot be read is kept as junk, so the result
    /// is always a resource: the entries that `read_entries` gives.
    pub fn parse(self) -> (r: Result<Resource<&'p str>, (Resource<&'p str>, Vec<ParserError>)>)
        requires
            self.wf(),
        ensures
            r matches Ok(resource) && junk_of(resource.body@, self.bytes()) && resource.view().body
                == read_entries(self.bytes(), self.view()).body,
            self.view() == started() ==> (r matches Ok(resource) && resource.view().body
                == token_resource(self.bytes())),
    {
        let mut parser = self;
        let ghost b = self.bytes();
        proof {
            parser.lemma_kept_refl();
        }
        loop
            invariant_except_break
                read_entries(b, self.view()) == read_entries(b, parser.view()),
            invariant
                parser.wf(),
                parser.source == self.source,
                b == self.bytes(),
            ensures
                parser.wf(),
                parser.source == self.source,
                read_entries(b, self.view()) == flushed(parser.view()),
            decreases parser.remaining(), parser.in_entry(),
        {
            match parser.add_entry() {
                Ok(true) => {},
                Ok(false) => {
                    break ;
                },
                Err(_err) => {
                    parser.add_junk();
                },
            }
        }
        parser.flush_comment();
        let Parser { source: _, lexer: _, body, last_comment: _ } = parser;
        let resource = Resource { body };
        assert(resource.view().body =~= entry_views(body@));
        Ok(resource)
    }

    /// Gives the comment held back an entry of its own.
    fn flush_comment(&mut self)
        requires
            old(self).wf(),
        ensures
            final(self).wf(),
            final(self).source == old(self).source,
            final(self).lexer == old(self).lexer,
            final(self).last_comment is None,
            final(self).body@ == match old(self).last_comment {
                Some(comment) => old(self).body@.push(ResourceEntry::Entry(Entry::Comment(comment))),
                None => old(self).body@,
            },
            final(self).view() == flushed(old(self).view()),
    {
        match self.last_comment.take() {
            Some(comment) => {
                self.push_entry(Entry::Comment(comment));
            },
            None => {},
        }
    }

    /// Adds the entry behind those gathered so far.
    fn push_entry(&mut self, entry: Entry<&'p str>)
        requires
            old(self).wf(),
        ensures
            final(self).wf(),
            final(self).source == old(self).source,
            final(self).lexer == old(self).lexer,
            final(self).last_comment == old(self).last_comment,
            final(self).body@ == old(self).body@.push(ResourceEntry::Entry(entry)),
            final(self).view() == pushed(old(self).view(), entry.view()),
    {
        let ghost before = self.body@;
        self.body.push(ResourceEntry::Entry(entry));
        assert(entry_views(self.body@) =~= entry_views(before).push(
            ResourceEntryView::Entry(entry.view()),
        ));
        assert forall|k: int| 0 <= k < self.body@.len() implies (
        #[trigger] self.body@[k] matches ResourceEntry::Junk(t) ==> is_piece(
            t,
            self.source.spec_bytes(),
        )) by {
            if k < before.len() {
                assert(self.body@[k] == before[k]);
            }
        }
    }

    /// Leaves what was read of the entry under way, and what follows up to
    /// where the next entry can start, as junk.
    fn add_junk(&mut self)
        requires
            old(self).wf(),
        ensures
            final(self).wf(),
            final(self).source == old(self).source,
            final(self).remaining() == old(self).bytes().len() - junk_stop(
                old(self).bytes(),
                old(self).lexer_view().ptr,
            ),
            0 <= final(self).remaining() <= old(self).remaining(),
            final(self).in_entry() == 0,
            final(self).view() == junk_added(old(self).bytes(), old(self).view()),
    {
        proof {
            self.lexer.lemma_inside();
            lemma_junk_stop(self.lexer.bytes(), self.lexer.view().ptr);
        }
        let junk = self.lexer.get_junk();
        self.flush_comment();
        let content = match self.text(junk.start, junk.end) {
            Ok(t) => t,
            Err(_) => {
                proof {
                    reveal_strlit("");
                    assert(""@ =~= Seq::<char>::empty());
                    let b = self.source.spec_bytes();
                    assert(b.subrange(0, 0) =~= Seq::<u8>::empty());
                    assert("".spec_bytes() =~= b.subrange(0, 0)) by {
                        broadcast use group_utf8_lib;

                        assert(encode_utf8(Seq::<char>::empty()) =~= Seq::<u8>::empty());
                    }
                }
                ""
            },
        };
        let ghost before = self.body@;
        self.body.push(ResourceEntry::Junk(content));
        assert(entry_views(self.body@) =~= entry_views(before).push(
            ResourceEntryView::Junk(content@),
        ));
        assert forall|k: int| 0 <= k < self.body@.len() implies (
        #[trigger] self.body@[k] matches ResourceEntry::Junk(t) ==> is_piece(
            t,
            self.source.spec_bytes(),
        )) by {
            if k < before.len() {
                assert(self.body@[k] == before[k]);
            }
        }
    }

    fn add_entry(&mut self) -> (r: Result<bool, ParserError>)
        requires
            old(self).wf(),
        ensures
            final(self).kept(*old(self)),
            final(self).view() == entry_added(old(self).bytes(), old(self).view()).to,
            match r {
                Ok(x) => entry_added(old(self).bytes(), old(self).view()).more == Some(x),
                Err(_) => entry_added(old(self).bytes(), old(self).view()).more is None,
            },
            r == Ok::<bool, ParserError>(true) ==> final(self).remaining() < old(self).remaining(),
            r is Err && old(self).in_entry() == 0 && final(self).remaining()
                == old(self).remaining() ==> junk_stop(final(self).bytes(),
                    final(self).lexer_view().ptr) > final(self).lexer_view().ptr,
    {
        let ghost start = *self;
        match self.next()? {
            Some(token) => {
                match token {
                    Token::Identifier(r) => {
                        self.add_message(r.start, r.end)?;
                        Ok(true)
                    },
                    Token::CommentSign => {
                        self.flush_comment();
                        self.add_comment(1)?;
                        Ok(true)
                    },
                    Token::GroupCommentSign => {
                        self.flush_comment();
                        self.add_comment(2)?;
                        Ok(true)
                    },
                    Token::ResourceCommentSign => {
                        self.flush_comment();
                        self.add_comment(3)?;
                        Ok(true)
                    },
                    Token::Eol(_) => {
                        self.flush_comment();
                        Ok(true)
                    },
                    Token::MinusSign => {
                        self.add_term()?;
                        Ok(true)
                    },
                    _ => Err(ParserError::Unknown),
                }
            },
            None => Ok(false),
        }
    }

    fn add_message(&mut self, start: usize, end: usize) -> (r: ParserResult<()>)
        requires
            old(self).wf(),
        ensures
            final(self).kept(*old(self)),
            final(self).view() == message_added(
                old(self).bytes(),
                old(self).view(),
                start as int,
                end as int,
            ).to,
            r is Ok == message_added(
                old(self).bytes(),
                old(self).view(),
                start as int,
                end as int,
            ).ok,
    {
        proof {
            self.lemma_kept_refl();
        }
        let id = Identifier { name: self.text(start, end)? };
        self.expect(Token::EqSign)?;
        let pattern = self.maybe_get_pattern()?;
        let mut attributes: Vec<Attribute<&'p str>> = Vec::new();
        assert(attribute_views(attributes@) =~= Seq::empty());
        let err = match self.get_attributes(&mut attributes) {
            Ok(()) => None,
            Err(err) => Some(err),
        };
        if pattern.is_none() && attributes.len() == 0 {
            return Err(ParserError::Unknown);
        }
        let comment = self.last_comment.take();
        let message = Message { id, value: pattern, attributes, comment };
        self.push_entry(Entry::Message(message));
        match err {
            Some(err) => Err(err),
            None => Ok(()),
        }
    }

    fn add_term(&mut self) -> (r: ParserResult<()>)
        requires
            old(self).wf(),
        ensures
            final(self).kept(*old(self)),
            final(self).view() == term_added(old(self).bytes(), old(self).view()).to,
            r is Ok == term_added(old(self).bytes(), old(self).view()).ok,
    {
        let id = self.get_identifier()?;
        self.expect(Token::EqSign)?;
        let pattern = self.get_pattern()?;
        let mut attributes: Vec<Attribute<&'p str>> = Vec::new();
        assert(attribute_views(attributes@) =~= Seq::empty());
        let err = match self.get_attributes(&mut attributes) {
            Ok(()) => None,
            Err(err) => Some(err),
        };
        let comment = self.last_comment.take();
        let term = Term { id, value: pattern, attributes, comment };
        self.push_entry(Entry::Term(term));
        match err {
            Some(err) => Err(err),
            None => Ok(()),
        }
    }

    /// Reads a placeable behind its opening brace.
    fn get_placeable(&mut self) -> (r: ParserResult<Expression<&'p str>>)
        requires
            old(self).wf(),
        ensures
            final(self).kept(*old(self)),
            final(self).body == old(self).body,
            final(self).last_comment == old(self).last_comment,
            final(self).lexer_view() == read_placeable(old(self).bytes(), old(self).lexer_view()).at,
            match r {
                Ok(x) => read_placeable(old(self).bytes(), old(self).lexer_view()).value == Some(
                    x.view(),
                ),
                Err(_) => read_placeable(old(self).bytes(), old(self).lexer_view()).value is None,
            },
        decreases old(self).remaining(), old(self).in_comment(), 3int,
    {
        proof {
            lemma_read_placeable(self.bytes(), self.lexer_view());
        }
        let exp = self.get_expression()?;
        self.expect(Token::CloseCurlyBraces)?;
        Ok(exp)
    }

    fn maybe_get_pattern(&mut self) -> (r: ParserResult<Option<Pattern<&'p str>>>)
        requires
            old(self).wf(),
        ensures
            final(self).kept(*old(self)),
            final(self).body == old(self).body,
            final(self).last_comment == old(self).last_comment,
            final(self).lexer_view() == read_maybe_pattern(
                old(self).bytes(),
                old(self).lexer_view(),
            ).at,
            match r {
                Ok(Some(x)) => read_maybe_pattern(old(self).bytes(), old(self).lexer_view()).value
                    == Some(Some(x.view())),
                Ok(None) => read_maybe_pattern(old(self).bytes(), old(self).lexer_view()).value
                    == Some(None::<PatternView>),
                Err(_) => read_maybe_pattern(old(self).bytes(), old(self).lexer_view()).value
                    is None,
            },
        decreases old(self).remaining(), old(self).in_comment(), 1int,
    {
        let mut pe: Vec<PatternElement<&'p str>> = Vec::new();
        let mut indents: Vec<(usize, Option<(usize, usize)>, usize)> = Vec::new();
        let ghost b = self.bytes();
        let ghost v0 = self.lexer_view();
        proof {
            self.lemma_kept_refl();
            assert(element_views(pe@) =~= Seq::empty());
        }
        loop
            invariant_except_break
                read_elements(b, v0, Seq::empty(), Seq::empty()) == read_elements(
                    b,
                    self.lexer_view(),
                    element_views(pe@),
                    indents@,
                ),
            invariant
                self.kept(*old(self)),
                self.body == old(self).body,
                self.last_comment == old(self).last_comment,
                b == old(self).bytes(),
                v0 == old(self).lexer_view(),
                forall|k: int| 0 <= k < indents@.len() ==> (#[trigger] indents@[k]).2 < pe@.len(),
            ensures
                self.kept(*old(self)),
                self.body == old(self).body,
                self.last_comment == old(self).last_comment,
                b == old(self).bytes(),
                forall|k: int| 0 <= k < indents@.len() ==> (#[trigger] indents@[k]).2 < pe@.len(),
                read_elements(b, v0, Seq::empty(), Seq::empty()) == ended(
                    b,
                    element_views(pe@),
                    indents@,
                    self.lexer_view(),
                ),
            decreases self.remaining(), self.in_comment(),
        {
            let ghost views = element_views(pe@);
            proof {
                lemma_read_elements(b, self.lexer_view(), views, indents@);
            }
            match self.next()? {
                Some(token) => {
                    match token {
                        Token::Text(r) => {
                            let text = self.text(r.start, r.end)?;
                            pe.push(PatternElement::TextElement(text));
                            proof {
                                assert(element_views(pe@) =~= views.push(
                                    PatternElementView::TextElement(text@),
                                ));
                            }
                        },
                        Token::Indent(i) => match self.next()? {
                            Some(Token::Text(r)) => {
                                let text = self.text(r.start, r.end)?;
                                pe.push(PatternElement::TextElement(text));
                                indents.push((i, Some((r.start, r.end)), pe.len() - 1));
                                proof {
                                    assert(element_views(pe@) =~= views.push(
                                        PatternElementView::TextElement(text@),
                                    ));
                                }
                            },
                            Some(Token::OpenCurlyBraces) => {
                                let exp = self.get_placeable()?;
                                pe.push(PatternElement::Placeable(exp));
                                indents.push((i, None, pe.len() - 1));
                                proof {
                                    assert(element_views(pe@) =~= views.push(
                                        PatternElementView::Placeable(exp.view()),
                                    ));
                                }
                            },
                            _ => {
                                return Err(ParserError::Unknown);
                            },
                        },
                        Token::Eol(eols) => {
                            if pe.len() > 0 {
                                let mut n: usize = 0;
                                proof {
                                    assert(views + Seq::new(
                                        0,
                                        |i: int| PatternElementView::TextElement("\n"@),
                                    ) =~= views);
                                }
                                while n < eols
                                    invariant
                                        n <= eols,
                                        views.len() > 0,
                                        element_views(pe@) == views + Seq::new(
                                            n as nat,
                                            |i: int| PatternElementView::TextElement("\n"@),
                                        ),
                                        forall|k: int|
                                            0 <= k < indents@.len() ==> (#[trigger] indents@[k]).2
                                                < pe@.len(),
                                    decreases eols - n,
                                {
                                    let ghost so_far = element_views(pe@);
                                    pe.push(PatternElement::TextElement("\n"));
                                    proof {
                                        assert(element_views(pe@) =~= so_far.push(
                                            PatternElementView::TextElement("\n"@),
                                        ));
                                        assert(so_far.push(PatternElementView::TextElement("\n"@))
                                            =~= views + Seq::new(
                                            (n + 1) as nat,
                                            |i: int| PatternElementView::TextElement("\n"@),
                                        ));
                                    }
                                    n += 1;
                                }
                            }
                            proof {
                                assert(element_views(pe@) == with_feeds(views, eols as int));
                            }
                        },
                        Token::OpenCurlyBraces => {
                            let exp = self.get_placeable()?;
                            pe.push(PatternElement::Placeable(exp));
                            proof {
                                assert(element_views(pe@) =~= views.push(
                                    PatternElementView::Placeable(exp.view()),
                                ));
                            }
                        },
                        Token::Eot => {
                            break ;
                        },
                        _ => {
                            return Err(ParserError::Unknown);
                        },
                    }
                },
                None => {
                    return Err(ParserError::Unknown);
                },
            }
        }
        self.finish_pattern(pe, indents)
    }

    /// The pattern made of the elements read: each indented line without the
    /// common indent, no line feeds at the end, and the last run of text
    /// without its trailing white space. It fails where an indented line
    /// cannot be cut where its own indent begins.
    fn finish_pattern(
        &self,
        pe: Vec<PatternElement<&'p str>>,
        indents: Vec<(usize, Option<(usize, usize)>, usize)>,
    ) -> (r: ParserResult<Option<Pattern<&'p str>>>)
        requires
            forall|k: int| 0 <= k < indents@.len() ==> (#[trigger] indents@[k]).2 < pe@.len(),
        ensures
            match finished_pattern(self.bytes(), element_views(pe@), indents@) {
                None => r is Err,
                Some(None) => r matches Ok(None),
                Some(Some(elements)) => r matches Ok(Some(p)) && p.view().elements == elements,
            },
    {
        let ghost given = element_views(pe@);
        let mut elements = pe;
        if elements.len() == 0 {
            return Ok(None);
        }
        if indents.len() > 0 {
            let mut min_indent = indents[0].0;
            let mut k: usize = 1;
            while k < indents.len()
                invariant
                    1 <= k <= indents@.len(),
                    min_indent == least_indent(indents@, k as int),
                    forall|j: int| 0 <= j < k ==> min_indent <= (#[trigger] indents@[j]).0,
                decreases indents.len() - k,
            {
                if indents[k].0 < min_indent {
                    min_indent = indents[k].0;
                }
                k += 1;
            }
            let mut k: usize = 0;
            while k < indents.len()
                invariant
                    k <= indents@.len(),
                    given == element_views(pe@),
                    elements@.len() == given.len(),
                    given.len() > 0,
                    indents@.len() > 0,
                    min_indent == least_indent(indents@, indents@.len() as int),
                    forall|j: int| 0 <= j < indents@.len() ==> min_indent <= (
                    #[trigger] indents@[j]).0,
                    forall|j: int|
                        0 <= j < indents@.len() ==> (#[trigger] indents@[j]).2 < elements@.len(),
                    dedented_from(self.bytes(), element_views(elements@), indents@, min_indent as int,
                        k as int) == dedented_from(
                        self.bytes(),
                        given,
                        indents@,
                        min_indent as int,
                        0,
                    ),
                decreases indents.len() - k,
            {
                let (i, r, p) = indents[k];
                let indent = i - min_indent;
                match r {
                    Some((start, end)) => {
                        if start < indent {
                            return Err(ParserError::Unknown);
                        }
                        let is_text = match &elements[p] {
                            PatternElement::TextElement(_) => true,
                            _ => false,
                        };
                        if is_text {
                            let ghost before = element_views(elements@);
                            let s = self.text(start - indent, end)?;
                            elements.set(p, PatternElement::TextElement(s));
                            assert(element_views(elements@) =~= before.update(
                                p as int,
                                PatternElementView::TextElement(
                                    text_between(self.bytes(), start - indent, end as int),
                                ),
                            ));
                        }
                    },
                    None => {},
                }
                k += 1;
            }
        }
        let ghost cut = element_views(elements@);
        if elements.len() > 1 {
            loop
                invariant_except_break
                    without_feeds(element_views(elements@)) == without_feeds(cut),
                ensures
                    element_views(elements@) == without_feeds(cut),
                decreases elements@.len(),
            {
                if elements.len() == 0 {
                    break ;
                }
                let is_feed = match &elements[elements.len() - 1] {
                    PatternElement::TextElement(s) => str_eq(*s, "\n"),
                    _ => false,
                };
                assert(is_feed == (element_views(elements@).last() == PatternElementView::TextElement(
                    "\n"@,
                )));
                if !is_feed {
                    break ;
                }
                let ghost before = element_views(elements@);
                elements.pop();
                assert(element_views(elements@) =~= before.drop_last());
            }
        }
        let ghost kept = element_views(elements@);
        match elements.pop() {
            Some(PatternElement::TextElement(s)) => {
                let mut s = s;
                Slice::trim(&mut s);
                elements.push(PatternElement::TextElement(s));
            },
            Some(other) => {
                elements.push(other);
            },
            None => {},
        }
        assert(element_views(elements@) =~= with_last_trimmed(kept));
        let pattern = Pattern { elements: elements };
        proof {
            lemma_pattern_view(&pattern);
        }
        Ok(Some(pattern))
    }

    fn get_pattern(&mut self) -> (r: ParserResult<Pattern<&'p str>>)
        requires
            old(self).wf(),
        ensures
            final(self).kept(*old(self)),
            final(self).body == old(self).body,
            final(self).last_comment == old(self).last_comment,
            final(self).lexer_view() == read_pattern(old(self).bytes(), old(self).lexer_view()).at,
            match r {
                Ok(x) => read_pattern(old(self).bytes(), old(self).lexer_view()).value == Some(
                    x.view(),
                ),
                Err(_) => read_pattern(old(self).bytes(), old(self).lexer_view()).value is None,
            },
        decreases old(self).remaining(), old(self).in_comment(), 2int,
    {
        let ghost m = read_elements(
            self.bytes(),
            self.lexer_view(),
            Seq::<PatternElementView>::empty(),
            Seq::<(usize, Option<(usize, usize)>, usize)>::empty(),
        );
        proof {
            lemma_read_pattern(self.bytes(), self.lexer_view());
            assert(read_maybe_pattern(self.bytes(), self.lexer_view()) == m);
            assert(read_pattern(self.bytes(), self.lexer_view()) == match m.value {
                Some(Some(p)) => gives(p, m.at),
                _ => Got { value: None::<PatternView>, at: m.at },
            });
        }
        let found = self.maybe_get_pattern()?;
        match found {
            Some(pattern) => Ok(pattern),
            None => Err(ParserError::Unknown),
        }
    }

    fn get_identifier(&mut self) -> (r: ParserResult<Identifier<&'p str>>)
        requires
            old(self).wf(),
        ensures
            final(self).kept(*old(self)),
            final(self).body == old(self).body,
            final(self).last_comment == old(self).last_comment,
            r is Ok ==> final(self).moved(*old(self)),
            final(self).lexer_view() == read_identifier(old(self).bytes(), old(self).lexer_view()).at,
            match r {
                Ok(x) => read_identifier(old(self).bytes(), old(self).lexer_view()).value == Some(
                    x.view(),
                ),
                Err(_) => read_identifier(old(self).bytes(), old(self).lexer_view()).value
                    is None,
            },
    {
        match self.next()? {
            Some(Token::Identifier(r)) => Ok(Identifier { name: self.text(r.start, r.end)? }),
            _ => Err(ParserError::Unknown),
        }
    }

    fn get_attributes(&mut self, attributes: &mut Vec<Attribute<&'p str>>) -> (r: ParserResult<()>)
        requires
            old(self).wf(),
        ensures
            final(self).kept(*old(self)),
            final(self).body == old(self).body,
            final(self).last_comment == old(self).last_comment,
            old(attributes)@.len() <= final(attributes)@.len(),
            ({
                let m = read_attributes(
                    old(self).bytes(),
                    old(self).lexer_view(),
                    old(self).lexer_view(),
                    attribute_views(old(attributes)@),
                );
                final(self).lexer_view() == m.at && attribute_views(final(attributes)@) == m.items
                    && r is Err == m.failed
            }),
    {
        let mut state = self.lexer.get_state_snapshot();
        let ghost b = self.bytes();
        let ghost v0 = self.lexer_view();
        let ghost acc0 = attribute_views(attributes@);
        proof {
            self.lemma_kept_refl();
            self.lexer.lemma_inside();
        }
        loop
            invariant_except_break
                read_attributes(b, v0, v0, acc0) == read_attributes(
                    b,
                    v0,
                    self.lexer_view(),
                    attribute_views(attributes@),
                ),
            invariant
                self.kept(*old(self)),
                self.body == old(self).body,
                self.last_comment == old(self).last_comment,
                old(attributes)@.len() <= attributes@.len(),
                b == old(self).bytes(),
                v0 == old(self).lexer_view(),
                acc0 == attribute_views(old(attributes)@),
                state.0 == v0.ptr,
                0 <= v0.ptr <= b.len(),
                state.1 == v0.state,
                state.3 == if v0.stack.len() > 0 {
                    Some(v0.stack.last())
                } else {
                    None
                },
                state.3 matches Some(s) ==> s != LexerState::Comment,
            ensures
                self.kept(*old(self)),
                self.body == old(self).body,
                self.last_comment == old(self).last_comment,
                old(attributes)@.len() <= attributes@.len(),
                read_attributes(b, v0, v0, acc0) == (Attributes {
                    items: attribute_views(attributes@),
                    failed: false,
                    at: self.lexer_view(),
                }),
            decreases self.remaining(), self.in_comment(),
        {
            let ghost acc = attribute_views(attributes@);
            let ghost v = self.lexer_view();
            match self.take_if(Token::Dot) {
                Ok(true) => {},
                _ => {
                    break ;
                },
            }
            match self.get_attribute() {
                Ok(attr) => {
                    attributes.push(attr);
                    proof {
                        assert(attribute_views(attributes@) =~= acc.push(attr.view()));
                    }
                },
                Err(err) => {
                    state.2 = state.0;
                    proof {
                        self.lexer.lemma_inside();
                        let stack = self.lexer.view().stack;
                        if state.3 is Some {
                            assert forall|i: int|
                                0 <= i < stack.push(state.3.unwrap()).len() implies stack.push(
                                state.3.unwrap(),
                            )[i] != LexerState::Comment by {
                                if i < stack.len() {
                                    assert(stack.push(state.3.unwrap())[i] == stack[i]);
                                }
                            }
                        }
                    }
                    self.lexer.set_state(state);
                    return Err(err);
                },
            }
        }
        Ok(())
    }

    fn get_attribute(&mut self) -> (r: ParserResult<Attribute<&'p str>>)
        requires
            old(self).wf(),
        ensures
            final(self).kept(*old(self)),
            final(self).body == old(self).body,
            final(self).last_comment == old(self).last_comment,
            r is Ok ==> final(self).moved(*old(self)),
            final(self).lexer_view() == read_attribute(old(self).bytes(), old(self).lexer_view()).at,
            match r {
                Ok(x) => read_attribute(old(self).bytes(), old(self).lexer_view()).value == Some(
                    x.view(),
                ),
                Err(_) => read_attribute(old(self).bytes(), old(self).lexer_view()).value is None,
            },
    {
        let id = self.get_identifier()?;
        self.expect(Token::EqSign)?;
        match self.maybe_get_pattern()? {
            Some(value) => Ok(Attribute { id, value }),
            None => Err(ParserError::Unknown),
        }
    }

    /// Reads the lines of a comment of that level: 1 for what follows, 2 for
    /// a group, 3 for the resource.
    fn add_comment(&mut self, level: usize) -> (r: ParserResult<()>)
        requires
            old(self).wf(),
        ensures
            final(self).kept(*old(self)),
            final(self).view() == comment_added(
                old(self).bytes(),
                old(self).view(),
                level as int,
            ).to,
            r is Ok == comment_added(old(self).bytes(), old(self).view(), level as int).ok,
    {
        let mut pe: Vec<&'p str> = Vec::new();
        let mut failed: Option<ParserError> = None;
        let ghost b = self.bytes();
        let ghost v0 = self.lexer_view();
        proof {
            self.lemma_kept_refl();
            assert(texts(pe@) =~= Seq::empty());
        }
        loop
            invariant_except_break
                read_comment(b, v0, level as int, Seq::empty()) == read_comment(
                    b,
                    self.lexer_view(),
                    level as int,
                    texts(pe@),
                ),
                failed is None,
            invariant
                self.kept(*old(self)),
                self.body == old(self).body,
                self.last_comment == old(self).last_comment,
                b == old(self).bytes(),
                v0 == old(self).lexer_view(),
            ensures
                self.kept(*old(self)),
                self.body == old(self).body,
                self.last_comment == old(self).last_comment,
                read_comment(b, v0, level as int, Seq::empty()) == (CommentLines {
                    lines: texts(pe@),
                    more: if failed is None {
                        Some(false)
                    } else {
                        None
                    },
                    at: self.lexer_view(),
                }),
            decreases self.remaining(), self.in_comment(),
        {
            match self.add_comment_line(level, &mut pe) {
                Ok(true) => {},
                Ok(false) => {
                    break ;
                },
                Err(err) => {
                    failed = Some(err);
                    break ;
                },
            }
        }
        if level == 1 {
            self.last_comment = Some(Comment::Comment { content: pe });
        } else if level == 2 {
            self.push_entry(Entry::Comment(Comment::GroupComment { content: pe }));
        } else {
            self.push_entry(Entry::Comment(Comment::ResourceComment { content: pe }));
        }
        match failed {
            Some(err) => Err(err),
            None => Ok(()),
        }
    }

    fn add_comment_line(&mut self, level: usize, pe: &mut Vec<&'p str>) -> (r: ParserResult<bool>)
        requires
            old(self).wf(),
        ensures
            final(self).kept(*old(self)),
            final(self).body == old(self).body,
            final(self).last_comment == old(self).last_comment,
            r == Ok::<bool, ParserError>(true) ==> final(self).moved(*old(self)),
            ({
                let m = read_comment_line(
                    old(self).bytes(),
                    old(self).lexer_view(),
                    level as int,
                    texts(old(pe)@),
                );
                final(self).lexer_view() == m.at && texts(final(pe)@) == m.lines && match r {
                    Ok(x) => m.more == Some(x),
                    Err(_) => m.more is None,
                }
            }),
    {
        let ghost lines = texts(pe@);
        match self.next()? {
            Some(Token::Text(r)) => {
                let text = self.text(r.start, r.end)?;
                pe.push(text);
                proof {
                    assert(texts(pe@) =~= lines.push(text@));
                }
            },
            Some(Token::Eol(_)) => {
                pe.push("");
                proof {
                    reveal_strlit("");
                    assert(""@ =~= Seq::<char>::empty());
                    assert(texts(pe@) =~= lines.push(Seq::empty()));
                }
            },
            None => {},
            _ => {
                return Err(ParserError::Unknown);
            },
        }
        let peeked = self.peek()?;
        let same = match peeked {
            Some(Token::CommentSign) => level == 1,
            Some(Token::GroupCommentSign) => level == 2,
            Some(Token::ResourceCommentSign) => level == 3,
            _ => false,
        };
        if same {
            match self.next()? {
                Some(t) => {
                    if is_empty_token(&t) {
                        return Err(ParserError::Unknown);
                    }
                },
                None => {
                    return Err(ParserError::Unknown);
                },
            }
            Ok(true)
        } else {
            Ok(false)
        }
    }

    /// The next token, with the lexer left where it stood but for its stack.
    fn peek(&mut self) -> (r: ParserResult<Option<Token>>)
        requires
            old(self).wf(),
        ensures
            final(self).kept(*old(self)),
            final(self).body == old(self).body,
            final(self).last_comment == old(self).last_comment,
            match r {
                Ok(t) => outcome(Ok(t)) == scan(old(self).bytes(), old(self).lexer_view()).token
                    && final(self).lexer_view() == (LexerView {
                    state: old(self).lexer_view().state,
                    ptr: old(self).lexer_view().ptr,
                    entry_start: old(self).lexer_view().entry_start,
                    stack: scan(old(self).bytes(), old(self).lexer_view()).after.stack,
                }),
                Err(_) => scan(old(self).bytes(), old(self).lexer_view()).token is Err
                    && final(self).lexer_view() == scan(
                    old(self).bytes(),
                    old(self).lexer_view(),
                ).after,
            },
    {
        proof {
            reveal(scan);
            self.lexer.lemma_inside();
            law_lex_advances(self.lexer.bytes(), self.lexer.view());
        }
        match self.lexer.try_peek() {
            Ok(t) => Ok(t),
            Err(e) => Err(from_lexer_error(e)),
        }
    }

    fn get_expression(&mut self) -> (r: ParserResult<Expression<&'p str>>)
        requires
            old(self).wf(),
        ensures
            final(self).kept(*old(self)),
            final(self).body == old(self).body,
            final(self).last_comment == old(self).last_comment,
            final(self).lexer_view() == read_expression(old(self).bytes(), old(self).lexer_view()).at,
            match r {
                Ok(x) => read_expression(old(self).bytes(), old(self).lexer_view()).value == Some(
                    x.view(),
                ),
                Err(_) => read_expression(old(self).bytes(), old(self).lexer_view()).value
                    is None,
            },
        decreases old(self).remaining(), old(self).in_comment(), 2int,
    {
        proof {
            lemma_read_expression(self.bytes(), self.lexer_view());
        }
        let inline_expression = self.get_inline_expression()?;
        match self.take_if(Token::SelectorArrow) {
            Ok(true) => {},
            _ => {
                match &inline_expression {
                    InlineExpression::TermReference { attribute, .. } => {
                        if attribute.is_some() {
                            return Err(ParserError::Unknown);
                        }
                    },
                    _ => {},
                }
                return Ok(Expression::InlineExpression(inline_expression));
            },
        }
        match &inline_expression {
            InlineExpression::MessageReference { .. } => {
                return Err(ParserError::Unknown);
            },
            InlineExpression::TermReference { attribute, .. } => {
                if attribute.is_none() {
                    return Err(ParserError::Unknown);
                }
            },
            InlineExpression::Placeable { .. } => {
                return Err(ParserError::Unknown);
            },
            _ => {},
        }
        let variants = self.get_variants()?;
        let e = Expression::SelectExpression { selector: inline_expression, variants };
        proof {
            lemma_select_view(&e);
        }
        Ok(e)
    }

    /// Whether the text is the name of a function: upper case letters,
    /// digits, `_` and `-`.
    fn is_function_name(name: &str) -> (r: bool)
        ensures
            r == (forall|i: int|
                0 <= i < name.spec_bytes().len() ==> is_callee_byte(
                    #[trigger] name.spec_bytes()[i],
                )),
    {
        let b = name.as_bytes();
        let mut i: usize = 0;
        while i < b.len()
            invariant
                i <= b@.len(),
                b@ == name.spec_bytes(),
                forall|j: int| 0 <= j < i ==> is_callee_byte(#[trigger] b@[j]),
            decreases b.len() - i,
        {
            if !byte_is_callee(b[i]) {
                return false;
            }
            i += 1;
        }
        true
    }

    fn get_inline_expression(&mut self) -> (r: ParserResult<InlineExpression<&'p str>>)
        requires
            old(self).wf(),
        ensures
            final(self).kept(*old(self)),
            final(self).body == old(self).body,
            final(self).last_comment == old(self).last_comment,
            r is Ok ==> final(self).moved(*old(self)),
            final(self).lexer_view() == read_inline(old(self).bytes(), old(self).lexer_view()).at,
            match r {
                Ok(x) => read_inline(old(self).bytes(), old(self).lexer_view()).value == Some(
                    x.view(),
                ),
                Err(_) => read_inline(old(self).bytes(), old(self).lexer_view()).value is None,
            },
        decreases old(self).remaining(), old(self).in_comment(), 1int,
    {
        proof {
            lemma_read_inline(self.bytes(), self.lexer_view());
        }
        let first = match self.next()? {
            Some(t) => t,
            None => {
                return Err(ParserError::Unknown);
            },
        };
        match first {
            Token::MinusSign => match self.next()? {
                Some(Token::Number(r)) => {
                    let (start, end) = self.get_number(r.start, r.end, true)?;
                    Ok(InlineExpression::NumberLiteral { value: self.text(start, end)? })
                },
                Some(Token::Identifier(r)) => {
                    let id = Identifier { name: self.text(r.start, r.end)? };
                    let attribute = match self.take_if(Token::Dot) {
                        Ok(true) => Some(self.get_identifier()?),
                        _ => None,
                    };
                    let arguments = self.get_call_arguments()?;
                    Ok(InlineExpression::TermReference { id, attribute, arguments })
                },
                _ => Err(ParserError::Unknown),
            },
            Token::Dollar => match self.next()? {
                Some(Token::Identifier(r)) => {
                    let id = Identifier { name: self.text(r.start, r.end)? };
                    Ok(InlineExpression::VariableReference { id })
                },
                _ => Err(ParserError::Unknown),
            },
            Token::Identifier(r) => {
                let id = Identifier { name: self.text(r.start, r.end)? };
                let attribute = match self.take_if(Token::Dot) {
                    Ok(true) => Some(self.get_identifier()?),
                    _ => None,
                };
                let arguments = self.get_call_arguments()?;
                if arguments.is_some() {
                    proof {
                        lemma_names_function(self.bytes(), r.start as int, r.end as int, id.name);
                    }
                    if !Self::is_function_name(id.name) {
                        return Err(ParserError::Unknown);
                    }
                    Ok(InlineExpression::FunctionReference { id, arguments })
                } else {
                    Ok(InlineExpression::MessageReference { id, attribute })
                }
            },
            Token::Number(r) => {
                let (start, end) = self.get_number(r.start, r.end, false)?;
                Ok(InlineExpression::NumberLiteral { value: self.text(start, end)? })
            },
            Token::Text(r) => Ok(
                InlineExpression::StringLiteral { value: self.text(r.start, r.end)? },
            ),
            Token::OpenCurlyBraces => {
                let exp = self.get_placeable()?;
                Ok(InlineExpression::Placeable { expression: Box::new(exp) })
            },
            _ => Err(ParserError::Unknown),
        }
    }

    /// The range of a number: that of its digits, with the sign before them
    /// where it has one.
    fn get_number(&self, start: usize, end: usize, minus: bool) -> (r: ParserResult<(usize, usize)>)
        ensures
            match r {
                Ok((s, e)) => e == end && s == if minus {
                    start - 1
                } else {
                    start as int
                },
                Err(_) => minus && start == 0,
            },
    {
        if minus {
            if start == 0 {
                return Err(ParserError::Unknown);
            }
            Ok((start - 1, end))
        } else {
            Ok((start, end))
        }
    }

    fn has_name(names: &Vec<&'p str>, name: &str) -> (r: bool)
        ensures
            r == exists|i: int| 0 <= i < names@.len() && (#[trigger] names@[i])@ == name@,
    {
        let mut i: usize = 0;
        while i < names.len()
            invariant
                i <= names@.len(),
                forall|j: int| 0 <= j < i ==> (#[trigger] names@[j])@ != name@,
            decreases names.len() - i,
        {
            if str_eq(names[i], name) {
                return true;
            }
            i += 1;
        }
        false
    }

    fn get_call_arguments(&mut self) -> (r: ParserResult<Option<CallArguments<&'p str>>>)
        requires
            old(self).wf(),
        ensures
            final(self).kept(*old(self)),
            final(self).body == old(self).body,
            final(self).last_comment == old(self).last_comment,
            final(self).lexer_view() == read_call_arguments(
                old(self).bytes(),
                old(self).lexer_view(),
            ).at,
            match r {
                Ok(Some(x)) => read_call_arguments(old(self).bytes(), old(self).lexer_view()).value
                    == Some(Some(x.view())),
                Ok(None) => read_call_arguments(old(self).bytes(), old(self).lexer_view()).value
                    == Some(None::<CallArgumentsView>),
                Err(_) => read_call_arguments(old(self).bytes(), old(self).lexer_view()).value
                    is None,
            },
        decreases old(self).remaining(), old(self).in_comment(), 0int,
    {
        let ghost b = self.bytes();
        let ghost v0 = self.lexer_view();
        proof {
            lemma_read_call_arguments(b, v0);
        }
        match self.take_if(Token::OpenBraces) {
            Ok(true) => {},
            _ => {
                return Ok(None);
            },
        }
        let mut positional: Vec<InlineExpression<&'p str>> = Vec::new();
        let mut named: Vec<NamedArgument<&'p str>> = Vec::new();
        let mut argument_names: Vec<&'p str> = Vec::new();
        proof {
            assert(inline_views(positional@) =~= Seq::empty());
            assert(named_views(named@) =~= Seq::empty());
        }
        loop
            invariant_except_break
                read_call_arguments(b, v0) == as_arguments(
                    read_arguments(
                        b,
                        self.lexer_view(),
                        inline_views(positional@),
                        named_views(named@),
                    ),
                ),
            invariant
                self.moved(*old(self)),
                self.body == old(self).body,
                self.last_comment == old(self).last_comment,
                b == old(self).bytes(),
                v0 == old(self).lexer_view(),
                argument_names@.len() == named@.len(),
                forall|i: int|
                    0 <= i < named@.len() ==> (#[trigger] argument_names@[i])@ == named_views(
                        named@,
                    )[i].name,
            ensures
                self.moved(*old(self)),
                self.body == old(self).body,
                self.last_comment == old(self).last_comment,
                read_call_arguments(b, v0) == gives(
                    Some(
                        CallArgumentsView {
                            positional: inline_views(positional@),
                            named: named_views(named@),
                        },
                    ),
                    self.lexer_view(),
                ),
            decreases self.remaining(), self.in_comment(),
        {
            let ghost start = self.lexer_view();
            let ghost pv = inline_views(positional@);
            let ghost nv = named_views(named@);
            proof {
                lemma_read_arguments(b, start, pv, nv);
            }
            match self.take_if(Token::CloseBraces) {
                Ok(true) => {
                    break ;
                },
                _ => {},
            }
            let expr = self.get_inline_expression()?;
            let ghost ev = expr.view();
            let name = match &expr {
                InlineExpression::MessageReference { id, attribute } => {
                    if attribute.is_none() {
                        Some(id.name)
                    } else {
                        None
                    }
                },
                _ => None,
            };
            assert(match name {
                Some(n) => argument_name(ev) == Some(n@),
                None => argument_name(ev) is None,
            });
            let colon = match name {
                Some(_) => match self.take_if(Token::Colon) {
                    Ok(taken) => taken,
                    Err(_) => false,
                },
                None => false,
            };
            match name {
                Some(id_name) => {
                    if colon {
                        proof {
                            if has_argument(nv, id_name@) {
                                let i = choose|i: int|
                                    0 <= i < nv.len() && (#[trigger] nv[i]).name == id_name@;
                                assert(argument_names@[i]@ == id_name@);
                            }
                        }
                        if Self::has_name(&argument_names, id_name) {
                            return Err(ParserError::Unknown);
                        }
                        let val = self.get_inline_expression()?;
                        argument_names.push(id_name);
                        let argument = NamedArgument { name: Identifier { name: id_name }, value: val };
                        named.push(argument);
                        proof {
                            assert(named_views(named@) =~= nv.push(
                                NamedArgumentView { name: id_name@, value: val.view() },
                            ));
                        }
                    } else {
                        if argument_names.len() > 0 {
                            return Err(ParserError::Unknown);
                        }
                        positional.push(expr);
                        proof {
                            assert(inline_views(positional@) =~= pv.push(ev));
                        }
                    }
                },
                None => {
                    if argument_names.len() > 0 {
                        return Err(ParserError::Unknown);
                    }
                    positional.push(expr);
                    proof {
                        assert(inline_views(positional@) =~= pv.push(ev));
                    }
                },
            }
            proof {
                lemma_read_more_arguments(
                    b,
                    start,
                    self.lexer_view(),
                    inline_views(positional@),
                    named_views(named@),
                );
            }
            let comma = match self.take_if(Token::Comma) {
                Ok(taken) => taken,
                Err(_) => false,
            };
            if !comma {
                match self.take_if(Token::CloseBraces) {
                    Ok(true) => {
                        break ;
                    },
                    _ => {},
                }
            }
        }
        let arguments = CallArguments { positional, named };
        proof {
            lemma_arguments_view(&arguments);
        }
        Ok(Some(arguments))
    }

    fn get_variants(&mut self) -> (r: ParserResult<Vec<Variant<&'p str>>>)
        requires
            old(self).wf(),
        ensures
            final(self).kept(*old(self)),
            final(self).body == old(self).body,
            final(self).last_comment == old(self).last_comment,
            final(self).lexer_view() == read_variants(
                old(self).bytes(),
                old(self).lexer_view(),
                Seq::empty(),
            ).at,
            match r {
                Ok(x) => read_variants(old(self).bytes(), old(self).lexer_view(), Seq::empty()).value
                    == Some(variant_views(x@)),
                Err(_) => read_variants(
                    old(self).bytes(),
                    old(self).lexer_view(),
                    Seq::empty(),
                ).value is None,
            },
        decreases old(self).remaining(), old(self).in_comment(), 0int,
    {
        let mut variants: Vec<Variant<&'p str>> = Vec::new();
        let ghost b = self.bytes();
        let ghost v0 = self.lexer_view();
        proof {
            self.lemma_kept_refl();
            assert(variant_views(variants@) =~= Seq::empty());
        }
        loop
            invariant_except_break
                read_variants(b, v0, Seq::empty()) == read_variants(
                    b,
                    self.lexer_view(),
                    variant_views(variants@),
                ),
            invariant
                self.kept(*old(self)),
                self.body == old(self).body,
                self.last_comment == old(self).last_comment,
                b == old(self).bytes(),
                v0 == old(self).lexer_view(),
            ensures
                self.kept(*old(self)),
                self.body == old(self).body,
                self.last_comment == old(self).last_comment,
                read_variants(b, v0, Seq::empty()) == gives(
                    variant_views(variants@),
                    self.lexer_view(),
                ),
            decreases self.remaining(), self.in_comment(),
        {
            let ghost acc = variant_views(variants@);
            let ghost v = self.lexer_view();
            proof {
                lemma_read_variants(b, v, acc);
            }
            let default = match self.take_if(Token::Asterisk) {
                Ok(taken) => taken,
                Err(_) => false,
            };
            match self.take_if(Token::OpenSquareBracket) {
                Ok(true) => {
                    let key = self.get_variant_key()?;
                    self.expect(Token::CloseSquareBracket)?;
                    let value = self.get_pattern()?;
                    let variant = Variant { key, value, default };
                    variants.push(variant);
                    proof {
                        assert(variant_views(variants@) =~= acc.push(variant.view()));
                    }
                },
                _ => {
                    break ;
                },
            }
        }
        Ok(variants)
    }

    fn get_variant_key(&mut self) -> (r: ParserResult<VariantKey<&'p str>>)
        requires
            old(self).wf(),
        ensures
            final(self).kept(*old(self)),
            final(self).body == old(self).body,
            final(self).last_comment == old(self).last_comment,
            final(self).lexer_view() == read_variant_key(
                old(self).bytes(),
                old(self).lexer_view(),
            ).at,
            match r {
                Ok(x) => read_variant_key(old(self).bytes(), old(self).lexer_view()).value == Some(
                    x.view(),
                ),
                Err(_) => read_variant_key(old(self).bytes(), old(self).lexer_view()).value
                    is None,
            },
    {
        match self.next()? {
            Some(Token::Identifier(r)) => Ok(
                VariantKey::Identifier { name: self.text(r.start, r.end)? },
            ),
            Some(Token::Number(r)) => Ok(
                VariantKey::NumberLiteral { value: self.text(r.start, r.end)? },
            ),
            _ => Err(ParserError::Unknown),
        }
    }
}

} // verus!
