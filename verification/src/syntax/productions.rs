use crate::syntax::ast::{
    AttributeView, CallArgumentsView, CommentView, EntryView, ExpressionView, InlineExpressionView,
    MessageView, NamedArgumentView, PatternElementView, PatternView, ResourceEntryView,
    ResourceView, TermView, VariantKeyView, VariantView,
};
use crate::syntax::errors::{ErrorKindView, fail_at, fail_over, ParserErrorView};
use crate::syntax::grammar::{
    ASTERISK, blank_block, blank_end, blank_inline_end, CLOSE_BRACE, CLOSE_BRACKET, CLOSE_PAREN,
    COLON, COMMA, DOLLAR, DOT, eol_len, EQUALS, GREATER, HASH, identifier, is_alpha, is_at,
    is_callee_byte, is_digit, is_pattern_continuation, LF, line_end, MINUS, number_literal,
    OPEN_BRACE, OPEN_BRACKET, OPEN_PAREN, Parsed, piece, QUOTE, sigil_end, SPACE, string_end,
    text_slice, TextElementPosition, TextElementTermination, TextElementType, TextSlice,
};
use crate::syntax::slice::trimmed;
use vstd::prelude::*;

verus! {

/// A pattern element before the pattern is finished: a placeable, with
/// whether it starts a line, or a run of text by its offsets, the indent of
/// its line, its place in the pattern and whether it is blank.
pub ghost enum PlaceholderView {
    Placeable { expression: ExpressionView, line_start: bool },
    TextElement {
        start: int,
        end: int,
        indent: int,
        role: TextElementPosition,
        kind: TextElementType,
    },
}

/// What the parser knows in the middle of a pattern.
pub ghost struct PatternState {
    pub elements: Seq<PlaceholderView>,
    pub last_non_blank: Option<int>,
    pub common_indent: Option<int>,
    pub role: TextElementPosition,
}

/// The smaller of a pattern's common indent so far and the indent of one
/// more line.
pub open spec fn narrowed(common: Option<int>, indent: int) -> Option<int> {
    match common {
        Some(c) => if indent < c {
            Some(indent)
        } else {
            Some(c)
        },
        None => Some(indent),
    }
}

/// Where the text of a run starts once the pattern's common indent is taken
/// off: a run at the start of a line loses the common indent, but no more
/// than the indent of its own line.
pub open spec fn dedented(
    start: int,
    indent: int,
    role: TextElementPosition,
    common: Option<int>,
) -> int {
    if role == TextElementPosition::LineStart {
        match common {
            Some(c) => start + if indent < c {
                indent
            } else {
                c
            },
            None => start + indent,
        }
    } else {
        start
    }
}

/// The state after a run of text that started at `slice_start`, with its text
/// from `text_start` on.
pub open spec fn after_text(
    st: PatternState,
    slice_start: int,
    indent: int,
    text_start: int,
    ts: TextSlice,
) -> PatternState {
    let line_start = st.role == TextElementPosition::LineStart;
    let non_blank = ts.kind == TextElementType::NonBlank;
    let ends_line = ts.termination == TextElementTermination::LineFeed || ts.termination
        == TextElementTermination::CRLF;
    let kept = text_start != ts.end && (!line_start || non_blank || ends_line);
    PatternState {
        elements: if kept {
            st.elements.push(
                PlaceholderView::TextElement {
                    start: slice_start,
                    end: ts.end,
                    indent,
                    role: st.role,
                    kind: ts.kind,
                },
            )
        } else {
            st.elements
        },
        last_non_blank: if kept && non_blank {
            Some(st.elements.len() as int)
        } else {
            st.last_non_blank
        },
        common_indent: if text_start != ts.end && line_start && non_blank {
            narrowed(st.common_indent, indent)
        } else {
            st.common_indent
        },
        role: if ends_line {
            TextElementPosition::LineStart
        } else {
            TextElementPosition::Continuation
        },
    }
}

/// The state after a placeable.
pub open spec fn after_placeable(st: PatternState, exp: ExpressionView) -> PatternState {
    PatternState {
        elements: st.elements.push(
            PlaceholderView::Placeable {
                expression: exp,
                line_start: st.role == TextElementPosition::LineStart,
            },
        ),
        last_non_blank: Some(st.elements.len() as int),
        common_indent: if st.role == TextElementPosition::LineStart {
            Some(0)
        } else {
            st.common_indent
        },
        role: TextElementPosition::Continuation,
    }
}

/// The element that a placeholder becomes. The last one loses its trailing
/// white space.
pub open spec fn finish_element(
    b: Seq<u8>,
    e: PlaceholderView,
    common: Option<int>,
    last: bool,
) -> PatternElementView {
    match e {
        PlaceholderView::Placeable { expression, .. } => PatternElementView::Placeable(expression),
        PlaceholderView::TextElement { start, end, indent, role, .. } => {
            let text = piece(b, dedented(start, indent, role, common), end);
            PatternElementView::TextElement(
                if last {
                    trimmed(text)
                } else {
                    text
                },
            )
        },
    }
}

/// The pattern that the placeholders become: those up to the last that is not
/// blank, or none where all are blank.
pub open spec fn finish_pattern(b: Seq<u8>, st: PatternState) -> Option<PatternView> {
    match st.last_non_blank {
        Some(n) => Some(
            PatternView {
                elements: Seq::new(
                    (n + 1) as nat,
                    |i: int| finish_element(b, st.elements[i], st.common_indent, i == n),
                ),
            },
        ),
        None => None,
    }
}

/// The common indent of the first `n` elements: the least indent among the
/// runs of text that start a line and are not blank, where a placeable that
/// starts a line counts with no indent. None where there is no such element.
pub open spec fn common_indent_of(elements: Seq<PlaceholderView>, n: int) -> Option<int>
    decreases n,
{
    if n <= 0 || n > elements.len() {
        None
    } else {
        let before = common_indent_of(elements, n - 1);
        match elements[n - 1] {
            PlaceholderView::Placeable { line_start, .. } => if line_start {
                Some(0)
            } else {
                before
            },
            PlaceholderView::TextElement { indent, role, kind, .. } => if role
                == TextElementPosition::LineStart && kind == TextElementType::NonBlank {
                narrowed(before, indent)
            } else {
                before
            },
        }
    }
}

/// The pattern that a finished run of elements becomes.
pub open spec fn finished(b: Seq<u8>, r: Result<(PatternState, int), ParserErrorView>) -> Parsed<
    Option<PatternView>,
> {
    match r {
        Err(e) => Err(e),
        Ok((st, end)) => Ok((finish_pattern(b, st), end)),
    }
}

/// The arguments of a call once `)` closes them.
pub open spec fn close_arguments(b: Seq<u8>, r: Parsed<CallArgumentsView>) -> Parsed<
    Option<CallArgumentsView>,
> {
    match r {
        Err(e) => Err(e),
        Ok((args, q)) => if is_at(b, q, CLOSE_PAREN) {
            Ok((Some(args), q + 1))
        } else {
            Err(fail_at(ErrorKindView::ExpectedToken(')'), q))
        },
    }
}

/// Whether the expression is a reference to an attribute of a term.
pub open spec fn is_term_attribute(e: InlineExpressionView) -> bool {
    e matches InlineExpressionView::TermReference { attribute: Some(_), .. }
}

/// Whether all the bytes from `start` to `end` can stand in a function's name.
pub open spec fn is_callee(b: Seq<u8>, start: int, end: int) -> bool {
    forall|i: int| start <= i < end ==> is_callee_byte(#[trigger] b[i])
}

/// Whether an argument of that name is among `named`.
pub open spec fn has_name(named: Seq<NamedArgumentView>, name: Seq<char>) -> bool {
    exists|i: int| 0 <= i < named.len() && #[trigger] named[i].name == name
}

/// The name that the expression gives to a named argument, where it can
/// stand before the colon of one: a reference to a message, not to one of its
/// attributes.
pub open spec fn argument_name(e: InlineExpressionView) -> Option<Seq<char>> {
    match e {
        InlineExpressionView::MessageReference { id, attribute: None } => Some(id),
        _ => None,
    }
}

/// Where the next argument of a call starts, after an argument that ended at
/// `q`: behind blank, an optional comma and blank.
pub open spec fn after_argument(b: Seq<u8>, q: int) -> int {
    let q1 = blank_end(b, q);
    let q2 = if is_at(b, q1, COMMA) {
        q1 + 1
    } else {
        q1
    };
    blank_end(b, q2)
}

/// An optional `.` and identifier at `p`.
pub open spec fn attribute_accessor(b: Seq<u8>, p: int) -> Parsed<Option<Seq<char>>> {
    if !is_at(b, p, DOT) {
        Ok((None, p))
    } else {
        match identifier(b, p + 1) {
            Err(e) => Err(e),
            Ok((id, q)) => Ok((Some(id), q)),
        }
    }
}

/// The key of a variant at `p`: `[`, a number or an identifier, `]`.
pub open spec fn variant_key(b: Seq<u8>, p: int) -> Parsed<VariantKeyView> {
    if !is_at(b, p, OPEN_BRACKET) {
        Err(fail_at(ErrorKindView::ExpectedToken('['), p))
    } else {
        let q = blank_end(b, p + 1);
        let key: Parsed<VariantKeyView> = if 0 <= q < b.len() && (b[q] == MINUS || is_digit(
            b[q],
        )) {
            match number_literal(b, q) {
                Err(e) => Err(e),
                Ok((value, q1)) => Ok((VariantKeyView::NumberLiteral { value }, q1)),
            }
        } else {
            match identifier(b, q) {
                Err(e) => Err(e),
                Ok((name, q1)) => Ok((VariantKeyView::Identifier { name }, q1)),
            }
        };
        match key {
            Err(e) => Err(e),
            Ok((k, q1)) => {
                let q2 = blank_end(b, q1);
                if is_at(b, q2, CLOSE_BRACKET) {
                    Ok((k, q2 + 1))
                } else {
                    Err(fail_at(ErrorKindView::ExpectedToken(']'), q2))
                }
            },
        }
    }
}

/// The placeable at `p`: `{`, blank, an expression, spaces, `}`.
pub open spec fn placeable(b: Seq<u8>, p: int) -> Parsed<ExpressionView>
    decreases b.len() - p, 0int,
{
    if !is_at(b, p, OPEN_BRACE) {
        Err(fail_at(ErrorKindView::ExpectedToken('{'), p))
    } else {
        let q = blank_end(b, p + 1);
        if !(p < q <= b.len()) {
            Err(fail_at(ErrorKindView::Generic, p))
        } else {
            match expression(b, q) {
                Err(e) => Err(e),
                Ok((exp, q2)) => {
                    let q3 = blank_inline_end(b, q2);
                    if !is_at(b, q3, CLOSE_BRACE) {
                        Err(fail_at(ErrorKindView::ExpectedToken('}'), q3))
                    } else if exp matches ExpressionView::InlineExpression(i)
                        && is_term_attribute(i) {
                        Err(fail_at(ErrorKindView::TermAttributeAsPlaceable, q3 + 1))
                    } else {
                        Ok((exp, q3 + 1))
                    }
                },
            }
        }
    }
}

/// Why the expression cannot be the selector of a select expression, if it
/// cannot: only literals, variables, functions and attributes of terms can.
pub open spec fn selector_fault(e: InlineExpressionView) -> Option<ErrorKindView> {
    match e {
        InlineExpressionView::MessageReference { attribute: None, .. } => Some(
            ErrorKindView::MessageReferenceAsSelector,
        ),
        InlineExpressionView::MessageReference { attribute: Some(_), .. } => Some(
            ErrorKindView::MessageAttributeAsSelector,
        ),
        InlineExpressionView::TermReference { attribute: None, .. } => Some(
            ErrorKindView::TermReferenceAsSelector,
        ),
        InlineExpressionView::Placeable { .. } => Some(
            ErrorKindView::ExpectedSimpleExpressionAsSelector,
        ),
        _ => None,
    }
}

/// The select expression whose arrow stands at `p`, behind `selector`: the
/// arrow, the end of the line and the variants.
pub open spec fn select_expression(b: Seq<u8>, p: int, selector: InlineExpressionView) -> Parsed<
    ExpressionView,
>
    decreases b.len() - p, 1int,
{
    let q2 = blank_inline_end(b, p + 2);
    if eol_len(b, q2) == 0 {
        Err(fail_at(ErrorKindView::ExpectedCharRange { range: "\n | \r\n"@ }, q2))
    } else {
        let q3 = blank_end(b, q2 + eol_len(b, q2));
        if !(p < q3 <= b.len()) {
            Err(fail_at(ErrorKindView::Generic, p))
        } else {
            match variants_loop(b, q3, Seq::empty(), false) {
                Err(e) => Err(e),
                Ok((variants, q4)) => Ok(
                    (ExpressionView::SelectExpression { selector, variants }, q4),
                ),
            }
        }
    }
}

/// The expression at `p`: an inline expression, or one that selects among
/// variants.
pub open spec fn expression(b: Seq<u8>, p: int) -> Parsed<ExpressionView>
    decreases b.len() - p, 2int,
{
    match inline_expression(b, p) {
        Err(e) => Err(e),
        Ok((exp, q)) => {
            let q1 = blank_end(b, q);
            if !(is_at(b, q1, MINUS) && is_at(b, q1 + 1, GREATER)) {
                if is_term_attribute(exp) {
                    Err(fail_at(ErrorKindView::TermAttributeAsPlaceable, q1))
                } else {
                    Ok((ExpressionView::InlineExpression(exp), q1))
                }
            } else if selector_fault(exp) is Some {
                Err(fail_at(selector_fault(exp).unwrap(), q1))
            } else if !(p <= q1 <= b.len()) {
                Err(fail_at(ErrorKindView::Generic, p))
            } else {
                select_expression(b, q1, exp)
            }
        },
    }
}

/// The variants from `p` on, after those in `acc`. One of them is the default.
pub open spec fn variants_loop(
    b: Seq<u8>,
    p: int,
    acc: Seq<VariantView>,
    has_default: bool,
) -> Parsed<Seq<VariantView>>
    decreases b.len() - p, 3int,
{
    if is_at(b, p, ASTERISK) || is_at(b, p, OPEN_BRACKET) {
        let default = is_at(b, p, ASTERISK);
        let q = if default {
            p + 1
        } else {
            p
        };
        if default && has_default {
            Err(fail_at(ErrorKindView::MultipleDefaultVariants, q))
        } else {
            match variant_key(b, q) {
                Err(e) => Err(e),
                Ok((key, q1)) => if !(p < q1 <= b.len()) {
                    Err(fail_at(ErrorKindView::Generic, p))
                } else {
                    match pattern(b, q1) {
                        Err(e) => Err(e),
                        Ok((None, q2)) => Err(fail_at(ErrorKindView::MissingValue, q2)),
                        Ok((Some(value), q2)) => {
                            let q3 = blank_end(b, q2);
                            if !(p < q3 <= b.len()) {
                                Err(fail_at(ErrorKindView::Generic, p))
                            } else {
                                variants_loop(
                                    b,
                                    q3,
                                    acc.push(VariantView { key, value, default }),
                                    has_default || default,
                                )
                            }
                        },
                    }
                },
            }
        }
    } else if !has_default {
        Err(fail_at(ErrorKindView::MissingDefaultVariant, p))
    } else {
        Ok((acc, p))
    }
}

/// The reference to a term whose name starts at `p`, behind the `-`: the
/// name, an optional attribute and optional arguments.
pub open spec fn term_reference(b: Seq<u8>, p: int) -> Parsed<InlineExpressionView>
    decreases b.len() - p, 4int,
{
    match identifier(b, p) {
        Err(e) => Err(e),
        Ok((id, q)) => match attribute_accessor(b, q) {
            Err(e) => Err(e),
            Ok((attribute, q1)) => if !(p < q1 <= b.len()) {
                Err(fail_at(ErrorKindView::Generic, p))
            } else {
                match call_arguments(b, q1) {
                    Err(e) => Err(e),
                    Ok((arguments, q2)) => Ok(
                        (InlineExpressionView::TermReference { id, attribute, arguments }, q2),
                    ),
                }
            },
        },
    }
}

/// The reference that starts with the name at `p`: to a function where
/// arguments follow, else to a message or to one of its attributes.
pub open spec fn named_reference(b: Seq<u8>, p: int) -> Parsed<InlineExpressionView>
    decreases b.len() - p, 0int,
{
    match identifier(b, p) {
        Err(e) => Err(e),
        Ok((id, q)) => if !(p < q <= b.len()) {
            Err(fail_at(ErrorKindView::Generic, p))
        } else {
            match call_arguments(b, q) {
                Err(e) => Err(e),
                Ok((Some(arguments), q1)) => if !is_callee(b, p, q) {
                    Err(fail_at(ErrorKindView::ForbiddenCallee, q1))
                } else {
                    Ok(
                        (
                            InlineExpressionView::FunctionReference {
                                id,
                                arguments: Some(arguments),
                            },
                            q1,
                        ),
                    )
                },
                Ok((None, q1)) => match attribute_accessor(b, q1) {
                    Err(e) => Err(e),
                    Ok((attribute, q2)) => Ok(
                        (InlineExpressionView::MessageReference { id, attribute }, q2),
                    ),
                },
            }
        },
    }
}

/// The inline expression at `p`.
pub open spec fn inline_expression(b: Seq<u8>, p: int) -> Parsed<InlineExpressionView>
    decreases b.len() - p, 1int,
{
    if !(0 <= p < b.len()) {
        Err(fail_at(ErrorKindView::ExpectedInlineExpression, p))
    } else if b[p] == QUOTE {
        match string_end(b, p + 1) {
            Err(e) => Err(e),
            Ok(q) => Ok((InlineExpressionView::StringLiteral { value: piece(b, p + 1, q) }, q + 1)),
        }
    } else if is_digit(b[p]) {
        match number_literal(b, p) {
            Err(e) => Err(e),
            Ok((value, q)) => Ok((InlineExpressionView::NumberLiteral { value }, q)),
        }
    } else if b[p] == MINUS {
        if p + 1 < b.len() && is_alpha(b[p + 1]) {
            term_reference(b, p + 1)
        } else {
            match number_literal(b, p) {
                Err(e) => Err(e),
                Ok((value, q)) => Ok((InlineExpressionView::NumberLiteral { value }, q)),
            }
        }
    } else if b[p] == DOLLAR {
        match identifier(b, p + 1) {
            Err(e) => Err(e),
            Ok((id, q)) => Ok((InlineExpressionView::VariableReference { id }, q)),
        }
    } else if is_alpha(b[p]) {
        named_reference(b, p)
    } else if b[p] == OPEN_BRACE {
        match placeable(b, p) {
            Err(e) => Err(e),
            Ok((exp, q)) => Ok((InlineExpressionView::Placeable { expression: Box::new(exp) }, q)),
        }
    } else {
        Err(fail_at(ErrorKindView::ExpectedInlineExpression, p))
    }
}

/// The arguments of a call, if `(` follows the blank at `p`.
pub open spec fn call_arguments(b: Seq<u8>, p: int) -> Parsed<Option<CallArgumentsView>>
    decreases b.len() - p, 3int,
{
    let q = blank_end(b, p);
    if !is_at(b, q, OPEN_PAREN) {
        Ok((None, q))
    } else {
        let q1 = blank_end(b, q + 1);
        if !(p < q1 <= b.len()) {
            Err(fail_at(ErrorKindView::Generic, p))
        } else {
            close_arguments(
                b,
                arguments_loop(
                    b,
                    q1,
                    CallArgumentsView { positional: Seq::empty(), named: Seq::empty() },
                ),
            )
        }
    }
}

/// The arguments from `p` on, after those in `acc`: positional ones first,
/// then named ones, no name twice.
pub open spec fn arguments_loop(b: Seq<u8>, p: int, acc: CallArgumentsView) -> Parsed<
    CallArgumentsView,
>
    decreases b.len() - p, 2int,
{
    if !(0 <= p < b.len()) || b[p] == CLOSE_PAREN {
        Ok((acc, p))
    } else {
        match inline_expression(b, p) {
            Err(e) => Err(e),
            Ok((expr, q)) => {
                let q1 = blank_end(b, q);
                if argument_name(expr) is Some && is_at(b, q1, COLON) {
                    let id = argument_name(expr).unwrap();
                    if has_name(acc.named, id) {
                        Err(fail_at(ErrorKindView::DuplicatedNamedArgument(id), q1))
                    } else {
                        let q2 = blank_end(b, q1 + 1);
                        if !(p < q2 <= b.len()) {
                            Err(fail_at(ErrorKindView::Generic, p))
                        } else {
                            match inline_expression(b, q2) {
                                Err(e) => Err(e),
                                Ok((value, q3)) => {
                                    let next = after_argument(b, q3);
                                    if !(p < next <= b.len()) {
                                        Err(fail_at(ErrorKindView::Generic, p))
                                    } else {
                                        arguments_loop(
                                            b,
                                            next,
                                            CallArgumentsView {
                                                positional: acc.positional,
                                                named: acc.named.push(
                                                    NamedArgumentView { name: id, value },
                                                ),
                                            },
                                        )
                                    }
                                },
                            }
                        }
                    }
                } else {
                    let at = if argument_name(expr) is Some {
                        q1
                    } else {
                        q
                    };
                    if acc.named.len() > 0 {
                        Err(fail_at(ErrorKindView::PositionalArgumentFollowsNamed, at))
                    } else {
                        let next = after_argument(b, at);
                        if !(p < next <= b.len()) {
                            Err(fail_at(ErrorKindView::Generic, p))
                        } else {
                            arguments_loop(
                                b,
                                next,
                                CallArgumentsView {
                                    positional: acc.positional.push(expr),
                                    named: acc.named,
                                },
                            )
                        }
                    }
                }
            },
        }
    }
}

/// The elements of a pattern from `p` on, after those in `st`.
pub open spec fn pattern_loop(b: Seq<u8>, p: int, st: PatternState) -> Result<
    (PatternState, int),
    ParserErrorView,
>
    decreases b.len() - p, 1int,
{
    if !(0 <= p < b.len()) {
        Ok((st, p))
    } else if b[p] == OPEN_BRACE {
        match placeable(b, p) {
            Err(e) => Err(e),
            Ok((exp, q)) => if !(p < q <= b.len()) {
                Err(fail_at(ErrorKindView::Generic, p))
            } else {
                pattern_loop(b, q, after_placeable(st, exp))
            },
        }
    } else {
        let line_start = st.role == TextElementPosition::LineStart;
        let q = if line_start {
            blank_inline_end(b, p)
        } else {
            p
        };
        let indent = q - p;
        if line_start && !(0 <= q < b.len()) {
            Ok((st, q))
        } else if line_start && indent == 0 && eol_len(b, q) == 0 {
            Ok((st, q))
        } else if line_start && indent != 0 && !is_pattern_continuation(b[q]) {
            Ok((st, p))
        } else {
            match text_slice(b, q, TextElementType::Blank) {
                Err(e) => Err(e),
                Ok(ts) => if !(p < ts.ptr <= b.len()) {
                    Err(fail_at(ErrorKindView::Generic, p))
                } else {
                    pattern_loop(b, ts.ptr, after_text(st, p, indent, q, ts))
                },
            }
        }
    }
}

/// The pattern that starts behind the spaces at `p`, or none where only blank
/// follows.
pub open spec fn pattern(b: Seq<u8>, p: int) -> Parsed<Option<PatternView>>
    decreases b.len() - p, 2int,
{
    let q = blank_inline_end(b, p);
    let first_line = eol_len(b, q) == 0;
    let start = if first_line {
        q
    } else {
        blank_block(b, q + eol_len(b, q)).0
    };
    if !(p <= start <= b.len()) {
        Err(fail_at(ErrorKindView::Generic, p))
    } else {
        finished(
            b,
            pattern_loop(
                b,
                start,
                PatternState {
                    elements: Seq::empty(),
                    last_non_blank: None,
                    common_indent: None,
                    role: if first_line {
                        TextElementPosition::InitialLineStart
                    } else {
                        TextElementPosition::LineStart
                    },
                },
            ),
        )
    }
}

/// The attribute at `p`: `.`, an identifier, `=` and a pattern.
pub open spec fn attribute(b: Seq<u8>, p: int) -> Parsed<AttributeView> {
    if !is_at(b, p, DOT) {
        Err(fail_at(ErrorKindView::ExpectedToken('.'), p))
    } else {
        match identifier(b, p + 1) {
            Err(e) => Err(e),
            Ok((id, q)) => {
                let q1 = blank_inline_end(b, q);
                if !is_at(b, q1, EQUALS) {
                    Err(fail_at(ErrorKindView::ExpectedToken('='), q1))
                } else {
                    match pattern(b, q1 + 1) {
                        Err(e) => Err(e),
                        Ok((None, q2)) => Err(fail_at(ErrorKindView::MissingValue, q2)),
                        Ok((Some(value), q2)) => Ok((AttributeView { id, value }, q2)),
                    }
                }
            },
        }
    }
}

/// The attributes from `p` on, after those in `acc`, one to a line. The list
/// ends before the first line that holds no attribute.
pub open spec fn attributes_loop(b: Seq<u8>, p: int, acc: Seq<AttributeView>) -> (
    Seq<AttributeView>,
    int,
)
    decreases b.len() - p,
{
    let q = blank_inline_end(b, p);
    if !is_at(b, q, DOT) {
        (acc, p)
    } else {
        match attribute(b, q) {
            Err(_) => (acc, p),
            Ok((a, q1)) => if !(p < q1 <= b.len()) {
                (acc, p)
            } else {
                attributes_loop(b, q1, acc.push(a))
            },
        }
    }
}

/// The message at `p`: an identifier, `=`, then a pattern, attributes or
/// both.
pub open spec fn message(b: Seq<u8>, p: int, entry_start: int) -> Parsed<MessageView> {
    match identifier(b, p) {
        Err(e) => Err(e),
        Ok((id, q)) => {
            let q1 = blank_inline_end(b, q);
            if !is_at(b, q1, EQUALS) {
                Err(fail_at(ErrorKindView::ExpectedToken('='), q1))
            } else {
                match pattern(b, q1 + 1) {
                    Err(e) => Err(e),
                    Ok((value, q2)) => {
                        let (attributes, q3) = attributes_loop(
                            b,
                            blank_block(b, q2).0,
                            Seq::empty(),
                        );
                        if value is None && attributes.len() == 0 {
                            Err(
                                fail_over(
                                    ErrorKindView::ExpectedMessageField { entry_id: id },
                                    entry_start,
                                    q3,
                                ),
                            )
                        } else {
                            Ok((MessageView { id, value, attributes, comment: None }, q3))
                        }
                    },
                }
            }
        },
    }
}

/// The term at `p`: `-`, an identifier, `=`, a pattern and attributes.
pub open spec fn term(b: Seq<u8>, p: int, entry_start: int) -> Parsed<TermView> {
    if !is_at(b, p, MINUS) {
        Err(fail_at(ErrorKindView::ExpectedToken('-'), p))
    } else {
        match identifier(b, p + 1) {
            Err(e) => Err(e),
            Ok((id, q)) => {
                let q1 = blank_inline_end(b, q);
                if !is_at(b, q1, EQUALS) {
                    Err(fail_at(ErrorKindView::ExpectedToken('='), q1))
                } else {
                    match pattern(b, blank_inline_end(b, q1 + 1)) {
                        Err(e) => Err(e),
                        Ok((value, q2)) => {
                            let (attributes, q3) = attributes_loop(
                                b,
                                blank_block(b, q2).0,
                                Seq::empty(),
                            );
                            match value {
                                Some(value) => Ok(
                                    (TermView { id, value, attributes, comment: None }, q3),
                                ),
                                None => Err(
                                    fail_over(
                                        ErrorKindView::ExpectedTermField { entry_id: id },
                                        entry_start,
                                        q3,
                                    ),
                                ),
                            }
                        },
                    }
                }
            },
        }
    }
}

/// The lines of a comment from `p` on, after those in `content`, as long as
/// they have the sigil of `level`.
pub open spec fn comment_loop(
    b: Seq<u8>,
    p: int,
    level: Option<int>,
    content: Seq<Seq<char>>,
) -> Result<(Option<int>, Seq<Seq<char>>, int), ParserErrorView>
    decreases b.len() - p,
{
    if !(0 <= p < b.len()) {
        Ok((level, content, p))
    } else {
        let q = sigil_end(b, p);
        let line_level = q - p;
        if line_level == 0 {
            Ok((level, content, p - 1))
        } else if level is Some && level != Some(line_level) {
            Ok((level, content, p))
        } else if !(0 <= q < b.len()) {
            Ok((Some(line_level), content, q))
        } else {
            let text_start = if b[q] == LF {
                q
            } else {
                q + 1
            };
            if b[q] != LF && b[q] != SPACE {
                if content.len() == 0 {
                    Err(fail_at(ErrorKindView::ExpectedToken(' '), q))
                } else {
                    Ok((Some(line_level), content, p))
                }
            } else {
                let end = line_end(b, text_start);
                let next = end + eol_len(b, end);
                if !(p < next <= b.len()) {
                    Err(fail_at(ErrorKindView::Generic, p))
                } else {
                    comment_loop(
                        b,
                        next,
                        Some(line_level),
                        content.push(piece(b, text_start, end)),
                    )
                }
            }
        }
    }
}

/// The comment of that level with those lines: `###` is for the resource,
/// `##` for a group, any other for what follows.
pub open spec fn comment_of(level: Option<int>, content: Seq<Seq<char>>) -> CommentView {
    if level == Some(3int) {
        CommentView::ResourceComment { content }
    } else if level == Some(2int) {
        CommentView::GroupComment { content }
    } else {
        CommentView::Comment { content }
    }
}

/// The comment at `p`.
pub open spec fn comment(b: Seq<u8>, p: int) -> Parsed<CommentView> {
    match comment_loop(b, p, None, Seq::empty()) {
        Err(e) => Err(e),
        Ok((level, content, q)) => Ok((comment_of(level, content), q)),
    }
}

/// The entry at `p`: a comment after `#`, a term after `-`, else a message.
pub open spec fn entry(b: Seq<u8>, p: int) -> Parsed<EntryView> {
    if is_at(b, p, HASH) {
        match comment(b, p) {
            Err(e) => Err(e),
            Ok((c, q)) => Ok((EntryView::Comment(c), q)),
        }
    } else if is_at(b, p, MINUS) {
        match term(b, p, p) {
            Err(e) => Err(e),
            Ok((t, q)) => Ok((EntryView::Term(t), q)),
        }
    } else {
        match message(b, p, p) {
            Err(e) => Err(e),
            Ok((m, q)) => Ok((EntryView::Message(m), q)),
        }
    }
}

/// Whether an entry can start at `p`: at the start of a line, with a letter,
/// `#` or `-`.
pub open spec fn is_entry_start(b: Seq<u8>, p: int) -> bool {
    0 < p < b.len() && b[p - 1] == LF && (is_alpha(b[p]) || b[p] == HASH || b[p] == MINUS)
}

/// The first position from `p` on at which an entry can start, or the end of
/// the source.
pub open spec fn next_entry_start(b: Seq<u8>, p: int) -> int
    decreases b.len() - p,
{
    if !(0 <= p < b.len()) || is_entry_start(b, p) {
        p
    } else {
        next_entry_start(b, p + 1)
    }
}

/// Where the junk that starts at `entry_start` ends: where the next entry can
/// start, at least one byte on.
pub open spec fn junk_end(b: Seq<u8>, entry_start: int) -> int {
    next_entry_start(b, entry_start + 1)
}

/// What the parser has gathered between two entries.
pub ghost struct ResourceState {
    pub body: Seq<ResourceEntryView>,
    pub errors: Seq<ParserErrorView>,
    pub last_comment: Option<CommentView>,
    pub last_blank_count: nat,
}

/// The entry with the comment before it attached, where it is a message or a
/// term that follows the comment with at most one line terminator between.
pub open spec fn with_comment(e: EntryView, c: CommentView) -> EntryView {
    match e {
        EntryView::Message(m) => EntryView::Message(
            MessageView { id: m.id, value: m.value, attributes: m.attributes, comment: Some(c) },
        ),
        EntryView::Term(t) => EntryView::Term(
            TermView { id: t.id, value: t.value, attributes: t.attributes, comment: Some(c) },
        ),
        EntryView::Comment(_) => e,
    }
}

/// The body once the comment held back has found its place: attached to the
/// entry that follows, or an entry of its own.
pub open spec fn settled(st: ResourceState, attached: bool) -> Seq<ResourceEntryView> {
    match st.last_comment {
        Some(c) => if attached {
            st.body
        } else {
            st.body.push(ResourceEntryView::Entry(EntryView::Comment(c)))
        },
        None => st.body,
    }
}

/// The state after the entry `e`. A comment for what follows is held back; a
/// message or a term takes the comment held back, where at most one line
/// terminator lies between them.
pub open spec fn after_ok(st: ResourceState, e: EntryView) -> ResourceState {
    let attached = !(e is Comment) && st.last_blank_count < 2;
    let body = settled(st, attached);
    match e {
        EntryView::Comment(c) => if c is Comment {
            ResourceState {
                body,
                errors: st.errors,
                last_comment: Some(c),
                last_blank_count: st.last_blank_count,
            }
        } else {
            ResourceState {
                body: body.push(ResourceEntryView::Entry(e)),
                errors: st.errors,
                last_comment: None,
                last_blank_count: st.last_blank_count,
            }
        },
        _ => ResourceState {
            body: body.push(
                ResourceEntryView::Entry(
                    match st.last_comment {
                        Some(c) => if attached {
                            with_comment(e, c)
                        } else {
                            e
                        },
                        None => e,
                    },
                ),
            ),
            errors: st.errors,
            last_comment: None,
            last_blank_count: st.last_blank_count,
        },
    }
}

/// The state after the error `err`, with the source from `start` to `end`
/// left as junk.
pub open spec fn after_junk(
    st: ResourceState,
    err: ParserErrorView,
    start: int,
    end: int,
    text: Seq<char>,
) -> ResourceState {
    ResourceState {
        body: settled(st, false).push(ResourceEntryView::Junk(text)),
        errors: st.errors.push(
            ParserErrorView { pos: err.pos, slice: Some((start, end)), kind: err.kind },
        ),
        last_comment: None,
        last_blank_count: st.last_blank_count,
    }
}

/// The state after the entry, or the error, found at `p`.
pub open spec fn after_entry(
    b: Seq<u8>,
    p: int,
    st: ResourceState,
    parsed: Parsed<EntryView>,
) -> ResourceState {
    match parsed {
        Ok((e, _)) => after_ok(st, e),
        Err(err) => after_junk(st, err, p, junk_end(b, p), piece(b, p, junk_end(b, p))),
    }
}

/// Where the parser stands after the entry, or the junk, found at `p`.
pub open spec fn entry_end(b: Seq<u8>, p: int, parsed: Parsed<EntryView>) -> int {
    match parsed {
        Ok((_, q)) => q,
        Err(_) => junk_end(b, p),
    }
}

/// The body and the errors of the source from `p` on, after what is in `st`.
pub open spec fn resource_loop(b: Seq<u8>, p: int, st: ResourceState) -> (
    Seq<ResourceEntryView>,
    Seq<ParserErrorView>,
)
    decreases b.len() - p,
{
    if !(0 <= p < b.len()) {
        (settled(st, false), st.errors)
    } else {
        let parsed = entry(b, p);
        let st1 = after_entry(b, p, st, parsed);
        let (next, blank_count) = blank_block(b, entry_end(b, p, parsed));
        if !(p < next <= b.len()) {
            (st1.body, st1.errors)
        } else {
            resource_loop(
                b,
                next,
                ResourceState {
                    body: st1.body,
                    errors: st1.errors,
                    last_comment: st1.last_comment,
                    last_blank_count: blank_count,
                },
            )
        }
    }
}

/// The body and the errors of the source from `p` on.
pub open spec fn resource_from(b: Seq<u8>, p: int) -> (ResourceView, Seq<ParserErrorView>) {
    let (body, errors) = resource_loop(
        b,
        blank_block(b, p).0,
        ResourceState {
            body: Seq::empty(),
            errors: Seq::empty(),
            last_comment: None,
            last_blank_count: 0,
        },
    );
    (ResourceView { body }, errors)
}

} // verus!
