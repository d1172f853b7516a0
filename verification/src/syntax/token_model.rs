use crate::syntax::ast::{
    AttributeView, CallArgumentsView, CommentView, EntryView, ExpressionView, InlineExpressionView,
    MessageView, NamedArgumentView, PatternElementView, PatternView, ResourceEntryView, TermView,
    VariantKeyView, VariantView,
};
use crate::syntax::grammar::is_callee_byte;
use crate::syntax::lexer_model::{
    junk_stop, lex, Lexed, LexerError, LexerState, LexerView, TokenView,
};
use crate::syntax::slice::trimmed;
use vstd::prelude::*;
use vstd::utf8::*;

verus! {

/// Whether the bytes can be cut into text at both offsets.
pub open spec fn can_cut(b: Seq<u8>, start: int, end: int) -> bool {
    start <= end && is_char_boundary(b, start) && is_char_boundary(b, end)
}

/// The text that the bytes between the two offsets hold.
pub open spec fn text_between(b: Seq<u8>, start: int, end: int) -> Seq<char> {
    decode_utf8(b.subrange(start, end))
}

/// The least indent among the first `n` indented lines.
pub open spec fn least_indent(indents: Seq<(usize, Option<(usize, usize)>, usize)>, n: int) -> int
    decreases n,
{
    if n <= 1 {
        indents[0].0 as int
    } else {
        let least = least_indent(indents, n - 1);
        if indents[n - 1].0 < least {
            indents[n - 1].0 as int
        } else {
            least
        }
    }
}

/// The elements once each indented line of text from the `k`-th on begins
/// where its own indent does, `least` bytes into the line. None where such a
/// line cannot be cut there.
pub open spec fn dedented_from(
    b: Seq<u8>,
    pe: Seq<PatternElementView>,
    indents: Seq<(usize, Option<(usize, usize)>, usize)>,
    least: int,
    k: int,
) -> Option<Seq<PatternElementView>>
    decreases indents.len() - k,
{
    if k < 0 || k >= indents.len() {
        Some(pe)
    } else {
        let at = indents[k].2 as int;
        match indents[k].1 {
            Some((start, end)) => {
                let from = start - (indents[k].0 - least);
                if from < 0 {
                    None
                } else if pe[at] is TextElement {
                    if can_cut(b, from, end as int) {
                        dedented_from(
                            b,
                            pe.update(
                                at,
                                PatternElementView::TextElement(text_between(b, from, end as int)),
                            ),
                            indents,
                            least,
                            k + 1,
                        )
                    } else {
                        None
                    }
                } else {
                    dedented_from(b, pe, indents, least, k + 1)
                }
            },
            None => dedented_from(b, pe, indents, least, k + 1),
        }
    }
}

/// The elements without the line feeds at their end.
pub open spec fn without_feeds(pe: Seq<PatternElementView>) -> Seq<PatternElementView>
    decreases pe.len(),
{
    if pe.len() > 0 && pe.last() == PatternElementView::TextElement("\n"@) {
        without_feeds(pe.drop_last())
    } else {
        pe
    }
}

/// The elements, the last of them without its trailing white space where it
/// is text.
pub open spec fn with_last_trimmed(pe: Seq<PatternElementView>) -> Seq<PatternElementView> {
    if pe.len() > 0 && pe.last() is TextElement {
        pe.drop_last().push(PatternElementView::TextElement(trimmed(pe.last()->TextElement_0)))
    } else {
        pe
    }
}

/// The pattern that the elements read make: none for no elements, else the
/// elements with each indented line cut back to the common indent, without
/// the line feeds at the end, and the last text without its trailing white
/// space. It fails where an indented line cannot be cut.
pub open spec fn finished_pattern(
    b: Seq<u8>,
    pe: Seq<PatternElementView>,
    indents: Seq<(usize, Option<(usize, usize)>, usize)>,
) -> Option<Option<Seq<PatternElementView>>> {
    if pe.len() == 0 {
        Some(None)
    } else {
        let cut = if indents.len() > 0 {
            dedented_from(b, pe, indents, least_indent(indents, indents.len() as int), 0)
        } else {
            Some(pe)
        };
        match cut {
            None => None,
            Some(d) => Some(
                Some(
                    with_last_trimmed(
                        if d.len() > 1 {
                            without_feeds(d)
                        } else {
                            d
                        },
                    ),
                ),
            ),
        }
    }
}

/// What a step of the parser has read, none where it failed, and where the
/// lexer stands behind it.
pub ghost struct Got<T> {
    pub value: Option<T>,
    pub at: LexerView,
}

/// A step that has read `x`.
pub open spec fn gives<T>(x: T, at: LexerView) -> Got<T> {
    Got { value: Some(x), at }
}

/// A step that has failed.
pub open spec fn fails<T>(at: LexerView) -> Got<T> {
    Got { value: None, at }
}

/// How many bytes the lexer has before it.
pub open spec fn left(b: Seq<u8>, v: LexerView) -> int {
    b.len() - v.ptr
}

/// Whether the lexer reads a comment: 1 where it does.
pub open spec fn commenting(v: LexerView) -> int {
    if v.state == LexerState::Comment {
        1
    } else {
        0
    }
}

/// The lexer has not gone back.
pub open spec fn not_back(b: Seq<u8>, before: LexerView, after: LexerView) -> bool {
    &&& 0 <= left(b, after) <= left(b, before)
    &&& left(b, after) == left(b, before) ==> commenting(after) <= commenting(before)
}

/// The lexer has gone on.
pub open spec fn gone_on(b: Seq<u8>, before: LexerView, after: LexerView) -> bool {
    &&& not_back(b, before, after)
    &&& left(b, after) < left(b, before) || commenting(after) < commenting(before)
}

/// The next step of the lexer.
#[verifier::opaque]
pub open spec fn scan(b: Seq<u8>, v: LexerView) -> Lexed {
    lex(b, v)
}

/// Whether the next token is `t`.
pub open spec fn taken(b: Seq<u8>, v: LexerView, t: TokenView) -> bool {
    scan(b, v).token == Ok::<Option<TokenView>, LexerError>(Some(t))
}

/// Where the lexer stands once the next token was taken if it is `t`: behind
/// it, or where it stood, with the stack that reading the token left.
pub open spec fn after_take(b: Seq<u8>, v: LexerView, t: TokenView) -> LexerView {
    if taken(b, v, t) {
        scan(b, v).after
    } else {
        LexerView {
            state: v.state,
            ptr: v.ptr,
            entry_start: v.entry_start,
            stack: if v.stack.len() > 0 {
                scan(b, v).after.stack.push(v.stack.last())
            } else {
                scan(b, v).after.stack
            },
        }
    }
}

/// The text between the two offsets, where the bytes can be cut there.
pub open spec fn cut(b: Seq<u8>, start: int, end: int) -> Option<Seq<char>> {
    if 0 <= start && can_cut(b, start, end) {
        Some(text_between(b, start, end))
    } else {
        None
    }
}

/// Whether the bytes between the offsets are a name of a function: upper
/// case letters, digits, `_` and `-`.
pub open spec fn names_function(b: Seq<u8>, start: int, end: int) -> bool {
    forall|i: int| start <= i < end ==> is_callee_byte(#[trigger] b[i])
}

/// An identifier.
pub open spec fn read_identifier(b: Seq<u8>, v: LexerView) -> Got<Seq<char>> {
    let l = scan(b, v);
    match l.token {
        Ok(Some(TokenView::Identifier(s, e))) => match cut(b, s, e) {
            Some(x) => gives(x, l.after),
            None => fails(l.after),
        },
        _ => fails(l.after),
    }
}

/// The key of a variant: an identifier or a number.
pub open spec fn read_variant_key(b: Seq<u8>, v: LexerView) -> Got<VariantKeyView> {
    let l = scan(b, v);
    match l.token {
        Ok(Some(TokenView::Identifier(s, e))) => match cut(b, s, e) {
            Some(x) => gives(VariantKeyView::Identifier { name: x }, l.after),
            None => fails(l.after),
        },
        Ok(Some(TokenView::Number(s, e))) => match cut(b, s, e) {
            Some(x) => gives(VariantKeyView::NumberLiteral { value: x }, l.after),
            None => fails(l.after),
        },
        _ => fails(l.after),
    }
}

/// The name of an attribute behind a dot, none where no dot follows.
pub open spec fn read_accessor(b: Seq<u8>, v: LexerView) -> Got<Option<Seq<char>>> {
    if taken(b, v, TokenView::Dot) {
        let id = read_identifier(b, after_take(b, v, TokenView::Dot));
        match id.value {
            Some(x) => gives(Some(x), id.at),
            None => fails(id.at),
        }
    } else {
        gives(None, after_take(b, v, TokenView::Dot))
    }
}

/// The name that an argument gives where a colon follows it: that of a
/// reference to a message without an attribute.
pub open spec fn argument_name(e: InlineExpressionView) -> Option<Seq<char>> {
    match e {
        InlineExpressionView::MessageReference { id, attribute: None } => Some(id),
        _ => None,
    }
}

/// Whether an argument of that name is among `named`.
pub open spec fn has_argument(named: Seq<NamedArgumentView>, name: Seq<char>) -> bool {
    exists|i: int| 0 <= i < named.len() && (#[trigger] named[i]).name == name
}

/// The elements with `n` line feeds behind them, where there are any
/// elements.
pub open spec fn with_feeds(pe: Seq<PatternElementView>, n: int) -> Seq<PatternElementView> {
    if pe.len() > 0 && n > 0 {
        pe + Seq::new(n as nat, |i: int| PatternElementView::TextElement("\n"@))
    } else {
        pe
    }
}

/// The arguments of a call that has some.
pub open spec fn as_arguments(r: Got<CallArgumentsView>) -> Got<Option<CallArgumentsView>> {
    match r.value {
        Some(a) => gives(Some(a), r.at),
        None => fails(r.at),
    }
}

/// An inline expression.
pub open spec fn inline_rule(b: Seq<u8>, v: LexerView) -> Got<InlineExpressionView>
    decreases left(b, v), commenting(v), 1int, 0int,
{
    let l = scan(b, v);
    match l.token {
        Ok(Some(TokenView::MinusSign)) => {
            let l2 = scan(b, l.after);
            match l2.token {
                Ok(Some(TokenView::Number(s, e))) => match cut(b, s - 1, e) {
                    Some(x) => gives(InlineExpressionView::NumberLiteral { value: x }, l2.after),
                    None => fails(l2.after),
                },
                Ok(Some(TokenView::Identifier(s, e))) => match cut(b, s, e) {
                    Some(id) => {
                        let a = read_accessor(b, l2.after);
                        if a.value is None || !gone_on(b, v, a.at) {
                            fails(a.at)
                        } else {
                            let c = read_call_arguments(b, a.at);
                            match c.value {
                                Some(arguments) => gives(
                                    InlineExpressionView::TermReference {
                                        id,
                                        attribute: a.value.unwrap(),
                                        arguments,
                                    },
                                    c.at,
                                ),
                                None => fails(c.at),
                            }
                        }
                    },
                    None => fails(l2.after),
                },
                _ => fails(l2.after),
            }
        },
        Ok(Some(TokenView::Dollar)) => {
            let l2 = scan(b, l.after);
            match l2.token {
                Ok(Some(TokenView::Identifier(s, e))) => match cut(b, s, e) {
                    Some(id) => gives(InlineExpressionView::VariableReference { id }, l2.after),
                    None => fails(l2.after),
                },
                _ => fails(l2.after),
            }
        },
        Ok(Some(TokenView::Identifier(s, e))) => match cut(b, s, e) {
            Some(id) => {
                let a = read_accessor(b, l.after);
                if a.value is None || !gone_on(b, v, a.at) {
                    fails(a.at)
                } else {
                    let c = read_call_arguments(b, a.at);
                    match c.value {
                        Some(Some(arguments)) => if names_function(b, s, e) {
                            gives(
                                InlineExpressionView::FunctionReference {
                                    id,
                                    arguments: Some(arguments),
                                },
                                c.at,
                            )
                        } else {
                            fails(c.at)
                        },
                        Some(None) => gives(
                            InlineExpressionView::MessageReference {
                                id,
                                attribute: a.value.unwrap(),
                            },
                            c.at,
                        ),
                        None => fails(c.at),
                    }
                }
            },
            None => fails(l.after),
        },
        Ok(Some(TokenView::Number(s, e))) => match cut(b, s, e) {
            Some(x) => gives(InlineExpressionView::NumberLiteral { value: x }, l.after),
            None => fails(l.after),
        },
        Ok(Some(TokenView::Text(s, e))) => match cut(b, s, e) {
            Some(x) => gives(InlineExpressionView::StringLiteral { value: x }, l.after),
            None => fails(l.after),
        },
        Ok(Some(TokenView::OpenCurlyBraces)) => if gone_on(b, v, l.after) {
            let p = read_placeable(b, l.after);
            match p.value {
                Some(x) => gives(InlineExpressionView::Placeable { expression: Box::new(x) }, p.at),
                None => fails(p.at),
            }
        } else {
            fails(l.after)
        },
        _ => fails(l.after),
    }
}

/// The same, not unfolded: `lemma_read_inline` unfolds it.
#[verifier::opaque]
pub open spec fn read_inline(b: Seq<u8>, v: LexerView) -> Got<InlineExpressionView>
    decreases left(b, v), commenting(v), 1int, 1int,
{
    inline_rule(b, v)
}

/// What `read_inline` is.
pub proof fn lemma_read_inline(b: Seq<u8>, v: LexerView)
    ensures
        read_inline(b, v) == inline_rule(b, v),
{
    reveal(read_inline);
}

/// The arguments of a call in parentheses, none where no parenthesis
/// follows.
pub open spec fn call_arguments_rule(b: Seq<u8>, v: LexerView) -> Got<Option<CallArgumentsView>>
    decreases left(b, v), commenting(v), 0int, 0int,
{
    let open = after_take(b, v, TokenView::OpenBraces);
    if !taken(b, v, TokenView::OpenBraces) {
        gives(None, open)
    } else if !gone_on(b, v, open) {
        fails(open)
    } else {
        as_arguments(read_arguments(b, open, Seq::empty(), Seq::empty()))
    }
}

/// The same, not unfolded: `lemma_read_call_arguments` unfolds it.
#[verifier::opaque]
pub open spec fn read_call_arguments(b: Seq<u8>, v: LexerView) -> Got<Option<CallArgumentsView>>
    decreases left(b, v), commenting(v), 0int, 1int,
{
    call_arguments_rule(b, v)
}

/// What `read_call_arguments` is.
pub proof fn lemma_read_call_arguments(b: Seq<u8>, v: LexerView)
    ensures
        read_call_arguments(b, v) == call_arguments_rule(b, v),
{
    reveal(read_call_arguments);
}

/// The arguments from where the lexer stands to the closing parenthesis,
/// behind those read already: positional ones, then named ones, no name
/// twice.
pub open spec fn arguments_rule(
    b: Seq<u8>,
    v: LexerView,
    positional: Seq<InlineExpressionView>,
    named: Seq<NamedArgumentView>,
) -> Got<CallArgumentsView>
    decreases left(b, v), commenting(v), 6int, 0int,
{
    let v1 = after_take(b, v, TokenView::CloseBraces);
    if taken(b, v, TokenView::CloseBraces) {
        gives(CallArgumentsView { positional, named }, v1)
    } else if !not_back(b, v, v1) {
        fails(v1)
    } else {
        let e = read_inline(b, v1);
        if e.value is None || !gone_on(b, v, e.at) {
            fails(e.at)
        } else {
            let name = argument_name(e.value.unwrap());
            let colon = name is Some && taken(b, e.at, TokenView::Colon);
            let v2 = if name is Some {
                after_take(b, e.at, TokenView::Colon)
            } else {
                e.at
            };
            if colon {
                if has_argument(named, name.unwrap()) || !gone_on(b, v, v2) {
                    fails(v2)
                } else {
                    let val = read_inline(b, v2);
                    if val.value is None || !gone_on(b, v, val.at) {
                        fails(val.at)
                    } else {
                        read_more_arguments(
                            b,
                            v,
                            val.at,
                            positional,
                            named.push(
                                NamedArgumentView {
                                    name: name.unwrap(),
                                    value: val.value.unwrap(),
                                },
                            ),
                        )
                    }
                }
            } else if named.len() > 0 || !gone_on(b, v, v2) {
                fails(v2)
            } else {
                read_more_arguments(b, v, v2, positional.push(e.value.unwrap()), named)
            }
        }
    }
}

/// The same, not unfolded: `lemma_read_arguments` unfolds it.
#[verifier::opaque]
pub open spec fn read_arguments(
    b: Seq<u8>,
    v: LexerView,
    positional: Seq<InlineExpressionView>,
    named: Seq<NamedArgumentView>,
) -> Got<CallArgumentsView>
    decreases left(b, v), commenting(v), 6int, 1int,
{
    arguments_rule(b, v, positional, named)
}

/// What `read_arguments` is.
pub proof fn lemma_read_arguments(
    b: Seq<u8>,
    v: LexerView,
    positional: Seq<InlineExpressionView>,
    named: Seq<NamedArgumentView>,
)
    ensures
        read_arguments(b, v, positional, named) == arguments_rule(b, v, positional, named),
{
    reveal(read_arguments);
}

/// What follows an argument: a comma, or the closing parenthesis, or the
/// next argument at once.
pub open spec fn more_arguments_rule(
    b: Seq<u8>,
    start: LexerView,
    v: LexerView,
    positional: Seq<InlineExpressionView>,
    named: Seq<NamedArgumentView>,
) -> Got<CallArgumentsView>
    decreases left(b, start), commenting(start), 5int, 0int,
{
    let v1 = after_take(b, v, TokenView::Comma);
    if taken(b, v, TokenView::Comma) {
        if gone_on(b, start, v1) {
            read_arguments(b, v1, positional, named)
        } else {
            fails(v1)
        }
    } else {
        let v2 = after_take(b, v1, TokenView::CloseBraces);
        if taken(b, v1, TokenView::CloseBraces) {
            gives(CallArgumentsView { positional, named }, v2)
        } else if gone_on(b, start, v2) {
            read_arguments(b, v2, positional, named)
        } else {
            fails(v2)
        }
    }
}

/// The same, not unfolded: `lemma_read_more_arguments` unfolds it.
#[verifier::opaque]
pub open spec fn read_more_arguments(
    b: Seq<u8>,
    start: LexerView,
    v: LexerView,
    positional: Seq<InlineExpressionView>,
    named: Seq<NamedArgumentView>,
) -> Got<CallArgumentsView>
    decreases left(b, start), commenting(start), 5int, 1int,
{
    more_arguments_rule(b, start, v, positional, named)
}

/// What `read_more_arguments` is.
pub proof fn lemma_read_more_arguments(
    b: Seq<u8>,
    start: LexerView,
    v: LexerView,
    positional: Seq<InlineExpressionView>,
    named: Seq<NamedArgumentView>,
)
    ensures
        read_more_arguments(b, start, v, positional, named) == more_arguments_rule(
            b,
            start,
            v,
            positional,
            named,
        ),
{
    reveal(read_more_arguments);
}

/// An expression: an inline expression, or a selector with its variants.
pub open spec fn expression_rule(b: Seq<u8>, v: LexerView) -> Got<ExpressionView>
    decreases left(b, v), commenting(v), 2int, 0int,
{
    let i = read_inline(b, v);
    match i.value {
        None => fails(i.at),
        Some(e) => {
            let v1 = after_take(b, i.at, TokenView::SelectorArrow);
            if !taken(b, i.at, TokenView::SelectorArrow) {
                if e matches InlineExpressionView::TermReference { attribute: Some(_), .. } {
                    fails(v1)
                } else {
                    gives(ExpressionView::InlineExpression(e), v1)
                }
            } else if e is MessageReference || e is Placeable || (e matches
                InlineExpressionView::TermReference { attribute: None, .. }) || !gone_on(b, v, v1) {
                fails(v1)
            } else {
                let r = read_variants(b, v1, Seq::empty());
                match r.value {
                    Some(variants) => gives(
                        ExpressionView::SelectExpression { selector: e, variants },
                        r.at,
                    ),
                    None => fails(r.at),
                }
            }
        },
    }
}

/// The same, not unfolded: `lemma_read_expression` unfolds it.
#[verifier::opaque]
pub open spec fn read_expression(b: Seq<u8>, v: LexerView) -> Got<ExpressionView>
    decreases left(b, v), commenting(v), 2int, 1int,
{
    expression_rule(b, v)
}

/// What `read_expression` is.
pub proof fn lemma_read_expression(b: Seq<u8>, v: LexerView)
    ensures
        read_expression(b, v) == expression_rule(b, v),
{
    reveal(read_expression);
}

/// A placeable behind its opening brace.
pub open spec fn placeable_rule(b: Seq<u8>, v: LexerView) -> Got<ExpressionView>
    decreases left(b, v), commenting(v), 3int, 0int,
{
    let e = read_expression(b, v);
    match e.value {
        None => fails(e.at),
        Some(x) => if taken(b, e.at, TokenView::CloseCurlyBraces) {
            gives(x, scan(b, e.at).after)
        } else {
            fails(scan(b, e.at).after)
        },
    }
}

/// The same, not unfolded: `lemma_read_placeable` unfolds it.
#[verifier::opaque]
pub open spec fn read_placeable(b: Seq<u8>, v: LexerView) -> Got<ExpressionView>
    decreases left(b, v), commenting(v), 3int, 1int,
{
    placeable_rule(b, v)
}

/// What `read_placeable` is.
pub proof fn lemma_read_placeable(b: Seq<u8>, v: LexerView)
    ensures
        read_placeable(b, v) == placeable_rule(b, v),
{
    reveal(read_placeable);
}

/// The variants of a select expression, behind those read already.
pub open spec fn variants_rule(b: Seq<u8>, v: LexerView, acc: Seq<VariantView>) -> Got<
    Seq<VariantView>,
>
    decreases left(b, v), commenting(v), 0int, 0int,
{
    let default = taken(b, v, TokenView::Asterisk);
    let v1 = after_take(b, v, TokenView::Asterisk);
    let v2 = after_take(b, v1, TokenView::OpenSquareBracket);
    if !taken(b, v1, TokenView::OpenSquareBracket) {
        gives(acc, v2)
    } else {
        let key = read_variant_key(b, v2);
        if key.value is None {
            fails(key.at)
        } else if !taken(b, key.at, TokenView::CloseSquareBracket) || !gone_on(
            b,
            v,
            scan(b, key.at).after,
        ) {
            fails(scan(b, key.at).after)
        } else {
            let p = read_pattern(b, scan(b, key.at).after);
            if p.value is None || !gone_on(b, v, p.at) {
                fails(p.at)
            } else {
                read_variants(
                    b,
                    p.at,
                    acc.push(
                        VariantView { key: key.value.unwrap(), value: p.value.unwrap(), default },
                    ),
                )
            }
        }
    }
}

/// The same, not unfolded: `lemma_read_variants` unfolds it.
#[verifier::opaque]
pub open spec fn read_variants(b: Seq<u8>, v: LexerView, acc: Seq<VariantView>) -> Got<
    Seq<VariantView>,
>
    decreases left(b, v), commenting(v), 0int, 1int,
{
    variants_rule(b, v, acc)
}

/// What `read_variants` is.
pub proof fn lemma_read_variants(b: Seq<u8>, v: LexerView, acc: Seq<VariantView>)
    ensures
        read_variants(b, v, acc) == variants_rule(b, v, acc),
{
    reveal(read_variants);
}

/// The pattern that the elements read make.
pub open spec fn ended(
    b: Seq<u8>,
    pe: Seq<PatternElementView>,
    indents: Seq<(usize, Option<(usize, usize)>, usize)>,
    at: LexerView,
) -> Got<Option<PatternView>> {
    match finished_pattern(b, pe, indents) {
        Some(Some(elements)) => gives(Some(PatternView { elements }), at),
        Some(None) => gives(None, at),
        None => fails(at),
    }
}

/// A pattern: it has to be there.
pub open spec fn pattern_rule(b: Seq<u8>, v: LexerView) -> Got<PatternView>
    decreases left(b, v), commenting(v), 5int, 0int,
{
    let m = read_elements(b, v, Seq::empty(), Seq::empty());
    match m.value {
        Some(Some(p)) => gives(p, m.at),
        _ => fails(m.at),
    }
}

/// The same, not unfolded: `lemma_read_pattern` unfolds it.
#[verifier::opaque]
pub open spec fn read_pattern(b: Seq<u8>, v: LexerView) -> Got<PatternView>
    decreases left(b, v), commenting(v), 5int, 1int,
{
    pattern_rule(b, v)
}

/// What `read_pattern` is.
pub proof fn lemma_read_pattern(b: Seq<u8>, v: LexerView)
    ensures
        read_pattern(b, v) == pattern_rule(b, v),
{
    reveal(read_pattern);
}

/// A pattern, none where nothing stands before the end of the entry.
pub open spec fn read_maybe_pattern(b: Seq<u8>, v: LexerView) -> Got<Option<PatternView>> {
    read_elements(b, v, Seq::empty(), Seq::empty())
}

/// The pattern made of the elements read already and of those that follow,
/// up to the end of the entry.
pub open spec fn elements_rule(
    b: Seq<u8>,
    v: LexerView,
    pe: Seq<PatternElementView>,
    indents: Seq<(usize, Option<(usize, usize)>, usize)>,
) -> Got<Option<PatternView>>
    decreases left(b, v), commenting(v), 4int, 0int,
{
    let l = scan(b, v);
    match l.token {
        Ok(Some(TokenView::Text(s, e))) => match cut(b, s, e) {
            Some(x) => if gone_on(b, v, l.after) {
                read_elements(b, l.after, pe.push(PatternElementView::TextElement(x)), indents)
            } else {
                fails(l.after)
            },
            None => fails(l.after),
        },
        Ok(Some(TokenView::Indent(n))) => {
            let l2 = scan(b, l.after);
            match l2.token {
                Ok(Some(TokenView::Text(s, e))) => match cut(b, s, e) {
                    Some(x) => if gone_on(b, v, l2.after) {
                        read_elements(
                            b,
                            l2.after,
                            pe.push(PatternElementView::TextElement(x)),
                            indents.push(
                                (n as usize, Some((s as usize, e as usize)), pe.len() as usize),
                            ),
                        )
                    } else {
                        fails(l2.after)
                    },
                    None => fails(l2.after),
                },
                Ok(Some(TokenView::OpenCurlyBraces)) => if gone_on(b, v, l2.after) {
                    let p = read_placeable(b, l2.after);
                    if p.value is None || !gone_on(b, v, p.at) {
                        fails(p.at)
                    } else {
                        read_elements(
                            b,
                            p.at,
                            pe.push(PatternElementView::Placeable(p.value.unwrap())),
                            indents.push((n as usize, None, pe.len() as usize)),
                        )
                    }
                } else {
                    fails(l2.after)
                },
                _ => fails(l2.after),
            }
        },
        Ok(Some(TokenView::Eol(n))) => if gone_on(b, v, l.after) {
            read_elements(b, l.after, with_feeds(pe, n), indents)
        } else {
            fails(l.after)
        },
        Ok(Some(TokenView::OpenCurlyBraces)) => if gone_on(b, v, l.after) {
            let p = read_placeable(b, l.after);
            if p.value is None || !gone_on(b, v, p.at) {
                fails(p.at)
            } else {
                read_elements(
                    b,
                    p.at,
                    pe.push(PatternElementView::Placeable(p.value.unwrap())),
                    indents,
                )
            }
        } else {
            fails(l.after)
        },
        Ok(Some(TokenView::Eot)) => ended(b, pe, indents, l.after),
        _ => fails(l.after),
    }
}

/// The same, not unfolded: `lemma_read_elements` unfolds it.
#[verifier::opaque]
pub open spec fn read_elements(
    b: Seq<u8>,
    v: LexerView,
    pe: Seq<PatternElementView>,
    indents: Seq<(usize, Option<(usize, usize)>, usize)>,
) -> Got<Option<PatternView>>
    decreases left(b, v), commenting(v), 4int, 1int,
{
    elements_rule(b, v, pe, indents)
}

/// What `read_elements` is.
pub proof fn lemma_read_elements(
    b: Seq<u8>,
    v: LexerView,
    pe: Seq<PatternElementView>,
    indents: Seq<(usize, Option<(usize, usize)>, usize)>,
)
    ensures
        read_elements(b, v, pe, indents) == elements_rule(b, v, pe, indents),
{
    reveal(read_elements);
}

/// An attribute behind its dot: a name, `=` and a pattern.
pub open spec fn read_attribute(b: Seq<u8>, v: LexerView) -> Got<AttributeView> {
    let id = read_identifier(b, v);
    match id.value {
        None => fails(id.at),
        Some(name) => if !taken(b, id.at, TokenView::EqSign) {
            fails(scan(b, id.at).after)
        } else {
            let m = read_maybe_pattern(b, scan(b, id.at).after);
            match m.value {
                Some(Some(p)) => gives(AttributeView { id: name, value: p }, m.at),
                _ => fails(m.at),
            }
        },
    }
}

/// Where the lexer stands once it was put back to where the attributes
/// began, above the stack that it had come to.
pub open spec fn restored(from: LexerView, stack: Seq<LexerState>) -> LexerView {
    LexerView {
        state: from.state,
        ptr: from.ptr,
        entry_start: from.ptr,
        stack: if from.stack.len() > 0 {
            stack.push(from.stack.last())
        } else {
            stack
        },
    }
}

/// The attributes read, whether reading them failed, and where the lexer
/// stands.
pub ghost struct Attributes {
    pub items: Seq<AttributeView>,
    pub failed: bool,
    pub at: LexerView,
}

/// The attributes that follow, behind those read already. Where one cannot
/// be read the lexer is put back to where the attributes began.
pub open spec fn read_attributes(
    b: Seq<u8>,
    from: LexerView,
    v: LexerView,
    acc: Seq<AttributeView>,
) -> Attributes
    decreases left(b, v), commenting(v),
{
    if !taken(b, v, TokenView::Dot) {
        Attributes { items: acc, failed: false, at: after_take(b, v, TokenView::Dot) }
    } else {
        let a = read_attribute(b, after_take(b, v, TokenView::Dot));
        match a.value {
            Some(x) => if gone_on(b, v, a.at) {
                read_attributes(b, from, a.at, acc.push(x))
            } else {
                Attributes { items: acc.push(x), failed: true, at: a.at }
            },
            None => Attributes { items: acc, failed: true, at: restored(from, a.at.stack) },
        }
    }
}

/// Whether the token is the sign of a comment of that level.
pub open spec fn is_sign(t: Option<TokenView>, level: int) -> bool {
    match t {
        Some(TokenView::CommentSign) => level == 1,
        Some(TokenView::GroupCommentSign) => level == 2,
        Some(TokenView::ResourceCommentSign) => level == 3,
        _ => false,
    }
}

/// The lines of a comment, whether another line follows, none where reading
/// failed, and where the lexer stands.
pub ghost struct CommentLines {
    pub lines: Seq<Seq<char>>,
    pub more: Option<bool>,
    pub at: LexerView,
}

/// One line of a comment of that level behind those read already, and the
/// sign of the next line where one follows.
pub open spec fn read_comment_line(
    b: Seq<u8>,
    v: LexerView,
    level: int,
    lines: Seq<Seq<char>>,
) -> CommentLines {
    let l = scan(b, v);
    let read = match l.token {
        Ok(Some(TokenView::Text(s, e))) => match cut(b, s, e) {
            Some(x) => Some(lines.push(x)),
            None => None,
        },
        Ok(Some(TokenView::Eol(_))) => Some(lines.push(Seq::empty())),
        Ok(None) => Some(lines),
        _ => None,
    };
    match read {
        None => CommentLines { lines, more: None, at: l.after },
        Some(now) => {
            let p = scan(b, l.after);
            match p.token {
                Err(_) => CommentLines { lines: now, more: None, at: p.after },
                Ok(t) => {
                    let back = LexerView {
                        state: l.after.state,
                        ptr: l.after.ptr,
                        entry_start: l.after.entry_start,
                        stack: p.after.stack,
                    };
                    if is_sign(t, level) {
                        let n = scan(b, back);
                        CommentLines {
                            lines: now,
                            more: match n.token {
                                Ok(Some(x)) => if x is Eot || x is Indent {
                                    None
                                } else {
                                    Some(true)
                                },
                                _ => None,
                            },
                            at: n.after,
                        }
                    } else {
                        CommentLines { lines: now, more: Some(false), at: back }
                    }
                },
            }
        },
    }
}

/// The lines of a comment of that level, behind those read already.
pub open spec fn read_comment(
    b: Seq<u8>,
    v: LexerView,
    level: int,
    lines: Seq<Seq<char>>,
) -> CommentLines
    decreases left(b, v), commenting(v),
{
    let line = read_comment_line(b, v, level, lines);
    if line.more == Some(true) && gone_on(b, v, line.at) {
        read_comment(b, line.at, level, line.lines)
    } else if line.more == Some(true) {
        CommentLines { lines: line.lines, more: None, at: line.at }
    } else {
        line
    }
}

/// What the parser has gathered and where its lexer stands.
pub ghost struct Reading {
    pub at: LexerView,
    pub body: Seq<ResourceEntryView>,
    pub comment: Option<CommentView>,
}

/// The same with the lexer elsewhere.
pub open spec fn moved_to(st: Reading, at: LexerView) -> Reading {
    Reading { at, body: st.body, comment: st.comment }
}

/// The comment held back becomes an entry of its own.
pub open spec fn flushed(st: Reading) -> Reading {
    match st.comment {
        Some(c) => Reading {
            at: st.at,
            body: st.body.push(ResourceEntryView::Entry(EntryView::Comment(c))),
            comment: None,
        },
        None => st,
    }
}

/// The entry is added behind those gathered.
pub open spec fn pushed(st: Reading, e: EntryView) -> Reading {
    Reading { at: st.at, body: st.body.push(ResourceEntryView::Entry(e)), comment: st.comment }
}

/// A comment of that level takes its place: one of the first level is held
/// back for the entry that follows, the others become entries.
pub open spec fn with_comment(st: Reading, level: int, lines: Seq<Seq<char>>) -> Reading {
    if level == 1 {
        Reading { at: st.at, body: st.body, comment: Some(CommentView::Comment { content: lines }) }
    } else if level == 2 {
        pushed(st, EntryView::Comment(CommentView::GroupComment { content: lines }))
    } else {
        pushed(st, EntryView::Comment(CommentView::ResourceComment { content: lines }))
    }
}

/// What a step of the parser leaves, and whether it went well.
pub ghost struct Added {
    pub to: Reading,
    pub ok: bool,
}

/// A comment of that level behind its first sign.
pub open spec fn comment_added(b: Seq<u8>, st: Reading, level: int) -> Added {
    let c = read_comment(b, st.at, level, Seq::empty());
    Added { to: with_comment(moved_to(st, c.at), level, c.lines), ok: c.more == Some(false) }
}

/// A message behind its name, which stands between the two offsets: `=`, a
/// pattern or none, and attributes. It takes the comment held back.
pub open spec fn message_added(b: Seq<u8>, st: Reading, start: int, end: int) -> Added {
    match cut(b, start, end) {
        None => Added { to: st, ok: false },
        Some(id) => if !taken(b, st.at, TokenView::EqSign) {
            Added { to: moved_to(st, scan(b, st.at).after), ok: false }
        } else {
            let m = read_maybe_pattern(b, scan(b, st.at).after);
            match m.value {
                None => Added { to: moved_to(st, m.at), ok: false },
                Some(value) => {
                    let a = read_attributes(b, m.at, m.at, Seq::empty());
                    if value is None && a.items.len() == 0 {
                        Added { to: moved_to(st, a.at), ok: false }
                    } else {
                        Added {
                            to: Reading {
                                at: a.at,
                                body: st.body.push(
                                    ResourceEntryView::Entry(
                                        EntryView::Message(
                                            MessageView {
                                                id,
                                                value,
                                                attributes: a.items,
                                                comment: st.comment,
                                            },
                                        ),
                                    ),
                                ),
                                comment: None,
                            },
                            ok: !a.failed,
                        }
                    }
                },
            }
        },
    }
}

/// A term behind its `-`: a name, `=`, a pattern and attributes. It takes
/// the comment held back.
pub open spec fn term_added(b: Seq<u8>, st: Reading) -> Added {
    let id = read_identifier(b, st.at);
    match id.value {
        None => Added { to: moved_to(st, id.at), ok: false },
        Some(name) => if !taken(b, id.at, TokenView::EqSign) {
            Added { to: moved_to(st, scan(b, id.at).after), ok: false }
        } else {
            let p = read_pattern(b, scan(b, id.at).after);
            match p.value {
                None => Added { to: moved_to(st, p.at), ok: false },
                Some(value) => {
                    let a = read_attributes(b, p.at, p.at, Seq::empty());
                    Added {
                        to: Reading {
                            at: a.at,
                            body: st.body.push(
                                ResourceEntryView::Entry(
                                    EntryView::Term(
                                        TermView {
                                            id: name,
                                            value,
                                            attributes: a.items,
                                            comment: st.comment,
                                        },
                                    ),
                                ),
                            ),
                            comment: None,
                        },
                        ok: !a.failed,
                    }
                },
            }
        },
    }
}

/// What an entry leaves, and whether the source goes on: none where the
/// entry cannot be read.
pub ghost struct Entered {
    pub to: Reading,
    pub more: Option<bool>,
}

/// What follows an entry that was read or not.
pub open spec fn entered(a: Added) -> Entered {
    Entered {
        to: a.to,
        more: if a.ok {
            Some(true)
        } else {
            None
        },
    }
}

/// One entry: a message, a term, a comment or an empty line.
pub open spec fn entry_added(b: Seq<u8>, st: Reading) -> Entered {
    let l = scan(b, st.at);
    let next = moved_to(st, l.after);
    match l.token {
        Ok(Some(TokenView::Identifier(s, e))) => entered(message_added(b, next, s, e)),
        Ok(Some(TokenView::CommentSign)) => entered(comment_added(b, flushed(next), 1)),
        Ok(Some(TokenView::GroupCommentSign)) => entered(comment_added(b, flushed(next), 2)),
        Ok(Some(TokenView::ResourceCommentSign)) => entered(comment_added(b, flushed(next), 3)),
        Ok(Some(TokenView::Eol(_))) => Entered { to: flushed(next), more: Some(true) },
        Ok(Some(TokenView::MinusSign)) => entered(term_added(b, next)),
        Ok(None) => Entered { to: next, more: Some(false) },
        _ => Entered { to: next, more: None },
    }
}

/// What cannot be read is kept as junk: the bytes from the start of the
/// entry under way to where the next entry can start. The comment held back
/// becomes an entry before it.
pub open spec fn junk_added(b: Seq<u8>, st: Reading) -> Reading {
    let stop = junk_stop(b, st.at.ptr);
    let f = flushed(st);
    Reading {
        at: LexerView {
            state: LexerState::Resource,
            ptr: stop,
            entry_start: st.at.entry_start,
            stack: st.at.stack,
        },
        body: f.body.push(
            ResourceEntryView::Junk(
                match cut(b, st.at.entry_start, stop) {
                    Some(x) => x,
                    None => Seq::empty(),
                },
            ),
        ),
        comment: None,
    }
}

/// Whether the lexer is inside an entry: 1 where it is.
pub open spec fn inside(v: LexerView) -> int {
    if v.state == LexerState::Resource {
        0
    } else {
        1
    }
}

/// The entries of the source from where the lexer stands on, behind those
/// gathered.
pub open spec fn read_entries(b: Seq<u8>, st: Reading) -> Reading
    decreases left(b, st.at), inside(st.at),
{
    let e = entry_added(b, st);
    let next = match e.more {
        Some(_) => e.to,
        None => junk_added(b, e.to),
    };
    if e.more == Some(false) {
        flushed(e.to)
    } else if 0 <= left(b, next.at) && (left(b, next.at) < left(b, st.at) || (left(b, next.at) == left(
        b,
        st.at,
    ) && inside(next.at) < inside(st.at))) {
        read_entries(b, next)
    } else {
        flushed(next)
    }
}

/// A parser at the start of a source, with nothing gathered.
pub open spec fn started() -> Reading {
    Reading {
        at: LexerView { state: LexerState::Resource, ptr: 0, entry_start: 0, stack: Seq::empty() },
        body: Seq::empty(),
        comment: None,
    }
}

/// The entries of a source, read from its tokens.
pub open spec fn token_resource(b: Seq<u8>) -> Seq<ResourceEntryView> {
    read_entries(b, started()).body
}

} // verus!
