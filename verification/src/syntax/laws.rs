use crate::syntax::ast::{
    CallArgumentsView, EntryView, NamedArgumentView, PatternElementView, ResourceEntryView,
    ResourceView,
};
use crate::syntax::errors::{ErrorKindView, fail_at, ParserErrorView};
use crate::syntax::grammar::{
    blank_block, blank_end, blank_inline_end, CLOSE_PAREN, COLON, eol_len, is_at,
    is_pattern_continuation, OPEN_BRACE, OPEN_PAREN, Parsed, piece, text_slice, TextElementPosition,
    TextElementType,
};
use crate::syntax::productions::{
    after_argument, after_entry, after_placeable, after_text, argument_name, arguments_loop,
    call_arguments, common_indent_of, dedented, entry, entry_end, finish_element, has_name,
    inline_expression, pattern_loop, PatternState, placeable, PlaceholderView, resource_from,
    resource_loop, ResourceState, settled,
};
use crate::syntax::slice::trimmed;
use vstd::prelude::*;

verus! {

/// Where the parser stands once it has read the entry, or left the junk, at
/// `p` and the blank lines behind it.
#[verifier::opaque]
pub open spec fn entry_next(b: Seq<u8>, p: int) -> int {
    blank_block(b, entry_end(b, p, entry(b, p))).0
}

/// The byte ranges that the entries and the junk of the source from `p` on
/// are read from, one for each that the parser finds, each with the blank
/// lines behind it.
pub open spec fn entry_spans(b: Seq<u8>, p: int) -> Seq<(int, int)>
    decreases b.len() - p,
{
    if !(0 <= p < b.len()) {
        Seq::empty()
    } else {
        let next = entry_next(b, p);
        if !(p < next <= b.len()) {
            seq![(p, b.len() as int)]
        } else {
            seq![(p, next)] + entry_spans(b, next)
        }
    }
}

/// The bytes of the ranges from the `i`th on, one behind the other.
pub open spec fn joined(b: Seq<u8>, spans: Seq<(int, int)>, i: int) -> Seq<u8>
    decreases spans.len() - i,
{
    if !(0 <= i < spans.len()) {
        Seq::empty()
    } else {
        b.subrange(spans[i].0, spans[i].1) + joined(b, spans, i + 1)
    }
}

/// The ranges that the entries and the junk are read from lie one behind the
/// other, none is empty, and together they are the source from `p` on.
pub proof fn law_spans_tile(b: Seq<u8>, p: int)
    requires
        0 <= p <= b.len(),
    ensures
        joined(b, entry_spans(b, p), 0) == b.subrange(p, b.len() as int),
        forall|i: int|
            0 <= i < entry_spans(b, p).len() ==> 0 <= (#[trigger] entry_spans(b, p)[i]).0
                < entry_spans(b, p)[i].1 <= b.len(),
        forall|i: int|
            0 <= i < entry_spans(b, p).len() - 1 ==> (#[trigger] entry_spans(b, p)[i]).1
                == entry_spans(b, p)[i + 1].0,
        entry_spans(b, p).len() > 0 ==> entry_spans(b, p)[0].0 == p && entry_spans(b, p).last().1
            == b.len(),
    decreases b.len() - p,
{
    let spans = entry_spans(b, p);
    if p < b.len() {
        let next = entry_next(b, p);
        if !(p < next <= b.len()) {
            assert(joined(b, spans, 1) =~= Seq::<u8>::empty());
            assert(joined(b, spans, 0) =~= b.subrange(p, b.len() as int));
        } else {
            law_spans_tile(b, next);
            let rest = entry_spans(b, next);
            lemma_joined_shift(b, seq![(p, next)], rest, 0);
            assert(joined(b, spans, 1) == joined(b, rest, 0));
            assert(b.subrange(p, next) + b.subrange(next, b.len() as int) =~= b.subrange(
                p,
                b.len() as int,
            ));
            assert forall|i: int| 0 <= i < spans.len() - 1 implies (#[trigger] spans[i]).1
                == spans[i + 1].0 by {
                if i > 0 {
                    assert(spans[i] == rest[i - 1]);
                    assert(spans[i + 1] == rest[i]);
                } else {
                    if rest.len() > 0 {
                        assert(spans[1] == rest[0]);
                    }
                }
            }
            assert forall|i: int| 0 <= i < spans.len() implies 0 <= (#[trigger] spans[i]).0
                < spans[i].1 <= b.len() by {
                if i > 0 {
                    assert(spans[i] == rest[i - 1]);
                }
            }
            if rest.len() > 0 {
                assert(spans.last() == rest.last());
            }
        }
    } else {
        assert(b.subrange(p, b.len() as int) =~= Seq::<u8>::empty());
    }
}

/// What the parser gathers from the ranges from the `i`th on, after what is
/// in `st`: from each range the entry, or the junk, that begins it. A comment
/// is held back for the entry of the next range, and stands by itself where
/// none takes it.
pub open spec fn gathered(b: Seq<u8>, spans: Seq<(int, int)>, i: int, st: ResourceState) -> (
    Seq<ResourceEntryView>,
    Seq<ParserErrorView>,
)
    decreases spans.len() - i,
{
    if !(0 <= i < spans.len()) {
        (settled(st, false), st.errors)
    } else {
        let p = spans[i].0;
        let parsed = entry(b, p);
        let st1 = after_entry(b, p, st, parsed);
        if !(p < entry_next(b, p) <= b.len()) {
            (st1.body, st1.errors)
        } else {
            gathered(
                b,
                spans,
                i + 1,
                ResourceState {
                    body: st1.body,
                    errors: st1.errors,
                    last_comment: st1.last_comment,
                    last_blank_count: blank_block(b, entry_end(b, p, parsed)).1,
                },
            )
        }
    }
}

proof fn lemma_gathered_shift(
    b: Seq<u8>,
    head: Seq<(int, int)>,
    rest: Seq<(int, int)>,
    i: int,
    st: ResourceState,
)
    requires
        0 <= i <= rest.len(),
    ensures
        gathered(b, head + rest, head.len() + i, st) == gathered(b, rest, i, st),
    decreases rest.len() - i,
{
    if i < rest.len() {
        assert((head + rest)[head.len() + i] == rest[i]);
        let p = rest[i].0;
        let parsed = entry(b, p);
        let st1 = after_entry(b, p, st, parsed);
        lemma_gathered_shift(
            b,
            head,
            rest,
            i + 1,
            ResourceState {
                body: st1.body,
                errors: st1.errors,
                last_comment: st1.last_comment,
                last_blank_count: blank_block(b, entry_end(b, p, parsed)).1,
            },
        );
    }
}

/// The entries of a resource are what the parser reads from the ranges that
/// tile the source, one range after the other: each range gives the entry or
/// the junk that begins it, and a junk holds the bytes from the start of its
/// range to where the next entry can start.
pub proof fn law_body_by_spans(b: Seq<u8>, p: int, st: ResourceState)
    requires
        0 <= p <= b.len(),
    ensures
        resource_loop(b, p, st) == gathered(b, entry_spans(b, p), 0, st),
    decreases b.len() - p,
{
    reveal(entry_next);
    if p < b.len() {
        let parsed = entry(b, p);
        let st1 = after_entry(b, p, st, parsed);
        let next = entry_next(b, p);
        if p < next <= b.len() {
            let st2 = ResourceState {
                body: st1.body,
                errors: st1.errors,
                last_comment: st1.last_comment,
                last_blank_count: blank_block(b, entry_end(b, p, parsed)).1,
            };
            law_body_by_spans(b, next, st2);
            lemma_gathered_shift(b, seq![(p, next)], entry_spans(b, next), 0, st2);
            assert(entry_spans(b, p) == seq![(p, next)] + entry_spans(b, next));
            assert(entry_spans(b, p)[0] == (p, next));
        } else {
            assert(entry_spans(b, p)[0] == (p, b.len() as int));
        }
    }
}

proof fn lemma_joined_shift(b: Seq<u8>, head: Seq<(int, int)>, rest: Seq<(int, int)>, i: int)
    requires
        0 <= i <= rest.len(),
    ensures
        joined(b, head + rest, head.len() + i) == joined(b, rest, i),
    decreases rest.len() - i,
{
    if i < rest.len() {
        lemma_joined_shift(b, head, rest, i + 1);
        assert((head + rest)[head.len() + i] == rest[i]);
    }
}

/// The parser reads the same resource and the same errors from the same
/// source, whatever the text is held in.
pub proof fn law_ast_stability(
    first: (ResourceView, Seq<ParserErrorView>),
    second: (ResourceView, Seq<ParserErrorView>),
    source: Seq<u8>,
)
    requires
        first == resource_from(source, 0),
        second == resource_from(source, 0),
    ensures
        first == second,
{
}

/// The text of a run that starts a line starts behind the common indent of
/// its pattern, or behind the indent of its own line where that is less.
pub proof fn law_dedent(
    b: Seq<u8>,
    start: int,
    end: int,
    indent: int,
    kind: TextElementType,
    common_indent: int,
    last: bool,
)
    ensures
        dedented(start, indent, TextElementPosition::LineStart, Some(common_indent)) == start
            + if indent
            < common_indent {
            indent
        } else {
            common_indent
        },
        finish_element(
            b,
            PlaceholderView::TextElement {
                start,
                end,
                indent,
                role: TextElementPosition::LineStart,
                kind,
            },
            Some(common_indent),
            last,
        ) == PatternElementView::TextElement(
            if last {
                trimmed(
                    piece(
                        b,
                        start + if indent < common_indent {
                            indent
                        } else {
                            common_indent
                        },
                        end,
                    ),
                )
            } else {
                piece(
                    b,
                    start + if indent < common_indent {
                        indent
                    } else {
                        common_indent
                    },
                    end,
                )
            },
        ),
{
}

/// The state of a pattern holds the common indent of its elements.
pub open spec fn holds_common_indent(st: PatternState) -> bool {
    st.common_indent == common_indent_of(st.elements, st.elements.len() as int)
}

/// The common indent that the parser takes off a pattern is the least indent
/// among its runs of text that start a line and are not blank, where a
/// placeable that starts a line counts with no indent.
pub proof fn law_common_indent(b: Seq<u8>, p: int, st: PatternState)
    requires
        holds_common_indent(st),
    ensures
        pattern_loop(b, p, st) matches Ok((end, _)) ==> holds_common_indent(end),
    decreases b.len() - p,
{
    if 0 <= p < b.len() {
        if b[p] == OPEN_BRACE {
            match placeable(b, p) {
                Ok((exp, q)) => {
                    if p < q <= b.len() {
                        let next = after_placeable(st, exp);
                        assert(next.elements.drop_last() =~= st.elements);
                        lemma_common_prefix(next.elements, st.elements, st.elements.len() as int);
                        law_common_indent(b, q, next);
                    }
                },
                Err(_) => {},
            }
        } else {
            let line_start = st.role == TextElementPosition::LineStart;
            let q = if line_start {
                blank_inline_end(b, p)
            } else {
                p
            };
            if !(line_start && !(0 <= q < b.len())) && !(line_start && q - p == 0
                && eol_len(b, q) == 0) && !(line_start && q - p != 0
                && !is_pattern_continuation(b[q])) {
                match text_slice(b, q, TextElementType::Blank) {
                    Ok(ts) => {
                        if p < ts.ptr <= b.len() {
                            let next = after_text(st, p, q - p, q, ts);
                            if next.elements.len() > st.elements.len() {
                                assert(next.elements.drop_last() =~= st.elements);
                            }
                            lemma_common_prefix(
                                next.elements,
                                st.elements,
                                st.elements.len() as int,
                            );
                            law_common_indent(b, ts.ptr, next);
                        }
                    },
                    Err(_) => {},
                }
            }
        }
    }
}

proof fn lemma_common_prefix(longer: Seq<PlaceholderView>, shorter: Seq<PlaceholderView>, n: int)
    requires
        0 <= n <= shorter.len() <= longer.len(),
        forall|i: int| 0 <= i < shorter.len() ==> longer[i] == shorter[i],
    ensures
        common_indent_of(longer, n) == common_indent_of(shorter, n),
    decreases n,
{
    if n > 0 {
        lemma_common_prefix(longer, shorter, n - 1);
    }
}

/// The common indent is no greater than the indent of any run of text, among
/// the first `n` elements, that starts a line and is not blank.
pub proof fn law_common_indent_least(elements: Seq<PlaceholderView>, n: int, i: int)
    requires
        0 <= i < n <= elements.len(),
        elements[i] matches PlaceholderView::TextElement { role, kind, indent, .. } && role
            == TextElementPosition::LineStart && kind == TextElementType::NonBlank && indent >= 0,
        forall|j: int|
            0 <= j < n ==> (#[trigger] elements[j] matches PlaceholderView::TextElement {
                indent,
                ..
            } ==> indent >= 0),
    ensures
        common_indent_of(elements, n) matches Some(c) && c <= elements[i]->TextElement_indent,
    decreases n,
{
    if i < n - 1 {
        law_common_indent_least(elements, n - 1, i);
    }
}

/// No two of the named arguments have the same name.
pub open spec fn distinct_names(named: Seq<NamedArgumentView>) -> bool {
    forall|i: int, j: int|
        0 <= i < j < named.len() ==> (#[trigger] named[i]).name != (#[trigger] named[j]).name
}

/// The named arguments of a call that the parser accepts have distinct
/// names.
pub proof fn law_named_arguments_distinct(b: Seq<u8>, p: int, acc: CallArgumentsView)
    requires
        distinct_names(acc.named),
    ensures
        arguments_loop(b, p, acc) matches Ok((args, _)) ==> distinct_names(args.named),
    decreases b.len() - p,
{
    if 0 <= p < b.len() && b[p] != CLOSE_PAREN {
        match inline_expression(b, p) {
            Ok((expr, q)) => {
                let q1 = blank_end(b, q);
                if argument_name(expr) is Some && is_at(b, q1, COLON) {
                    let id = argument_name(expr).unwrap();
                    if !has_name(acc.named, id) {
                        let q2 = blank_end(b, q1 + 1);
                        if p < q2 <= b.len() {
                            match inline_expression(b, q2) {
                                Ok((value, q3)) => {
                                    let next = after_argument(b, q3);
                                    if p < next <= b.len() {
                                        let grown = CallArgumentsView {
                                            positional: acc.positional,
                                            named: acc.named.push(
                                                NamedArgumentView { name: id, value },
                                            ),
                                        };
                                        assert forall|i: int, j: int|
                                            0 <= i < j < grown.named.len() implies (
                                        #[trigger] grown.named[i]).name != (
                                        #[trigger] grown.named[j]).name by {
                                            if j == acc.named.len() {
                                                assert(acc.named[i].name != id);
                                            }
                                        }
                                        law_named_arguments_distinct(b, next, grown);
                                    }
                                },
                                Err(_) => {},
                            }
                        }
                    }
                } else {
                    let at = if argument_name(expr) is Some {
                        q1
                    } else {
                        q
                    };
                    if acc.named.len() == 0 {
                        let next = after_argument(b, at);
                        if p < next <= b.len() {
                            law_named_arguments_distinct(
                                b,
                                next,
                                CallArgumentsView {
                                    positional: acc.positional.push(expr),
                                    named: acc.named,
                                },
                            );
                        }
                    }
                }
            },
            Err(_) => {},
        }
    }
}

/// The arguments of a call that the parser accepts have named arguments of
/// distinct names.
pub proof fn law_call_arguments_distinct(b: Seq<u8>, p: int)
    ensures
        call_arguments(b, p) matches Ok((Some(args), _)) ==> distinct_names(args.named),
{
    let q = blank_end(b, p);
    if is_at(b, q, OPEN_PAREN) {
        let q1 = blank_end(b, q + 1);
        law_named_arguments_distinct(
            b,
            q1,
            CallArgumentsView { positional: Seq::empty(), named: Seq::empty() },
        );
    }
}

/// A named argument whose name an earlier argument of the call has makes the
/// call fail: the error is that the name is given twice.
pub proof fn law_duplicate_named_argument(b: Seq<u8>, p: int, acc: CallArgumentsView)
    requires
        0 <= p < b.len(),
        b[p] != CLOSE_PAREN,
        inline_expression(b, p) matches Ok((expr, q)) && argument_name(expr) is Some && is_at(
            b,
            blank_end(b, q),
            COLON,
        ) && has_name(acc.named, argument_name(expr).unwrap()),
    ensures
        arguments_loop(b, p, acc) matches Err(e) && e == fail_at(
            ErrorKindView::DuplicatedNamedArgument(
                argument_name(inline_expression(b, p)->Ok_0.0).unwrap(),
            ),
            blank_end(b, inline_expression(b, p)->Ok_0.1),
        ),
{
}

/// How many of the entries are junk.
pub open spec fn junk_count(body: Seq<ResourceEntryView>) -> nat
    decreases body.len(),
{
    if body.len() == 0 {
        0
    } else {
        junk_count(body.drop_last()) + if body.last() is Junk {
            1nat
        } else {
            0nat
        }
    }
}

proof fn lemma_junk_count_push(
    body: Seq<ResourceEntryView>,
    e: ResourceEntryView,
)
    ensures
        junk_count(body.push(e)) == junk_count(body) + if e is Junk {
            1nat
        } else {
            0nat
        },
{
    assert(body.push(e).drop_last() =~= body);
}

/// The state after an entry or an error has one junk more for one error
/// more, and none else.
proof fn lemma_after_entry_counts(
    b: Seq<u8>,
    p: int,
    st: ResourceState,
    parsed: Parsed<EntryView>,
)
    requires
        junk_count(st.body) == st.errors.len(),
    ensures
        junk_count(after_entry(b, p, st, parsed).body)
            == after_entry(b, p, st, parsed).errors.len(),
        junk_count(settled(st, false)) == st.errors.len(),
{
    let flushed = settled(st, false);
    match st.last_comment {
        Some(c) => {
            lemma_junk_count_push(
                st.body,
                ResourceEntryView::Entry(EntryView::Comment(c)),
            );
        },
        None => {},
    }
    let after = after_entry(b, p, st, parsed);
    match parsed {
        Ok((e, _)) => {
            let attached = !(e is Comment) && st.last_blank_count < 2;
            let body = settled(st, attached);
            assert(junk_count(body) == st.errors.len());
            if after.body.len() > body.len() {
                assert(after.body.drop_last() =~= body);
                lemma_junk_count_push(body, after.body.last());
            }
        },
        Err(err) => {
            lemma_junk_count_push(flushed, after.body.last());
            assert(after.body.drop_last() =~= flushed);
        },
    }
}

/// The parser leaves one junk for each error that it reports, and reports
/// one error for each junk.
pub proof fn law_junk_per_error(
    b: Seq<u8>,
    p: int,
    st: ResourceState,
)
    requires
        junk_count(st.body) == st.errors.len(),
    ensures
        junk_count(resource_loop(b, p, st).0)
            == resource_loop(b, p, st).1.len(),
    decreases b.len() - p,
{
    lemma_after_entry_counts(b, p, st, entry(b, p));
    if 0 <= p < b.len() {
        let parsed = entry(b, p);
        let st1 = after_entry(b, p, st, parsed);
        let (next, blank_count) = blank_block(b, entry_end(b, p, parsed));
        if p < next <= b.len() {
            law_junk_per_error(
                b,
                next,
                ResourceState {
                    body: st1.body,
                    errors: st1.errors,
                    last_comment: st1.last_comment,
                    last_blank_count: blank_count,
                },
            );
        }
    }
}

/// A resource has as many junk entries as the parser reports errors.
pub proof fn law_resource_junk(b: Seq<u8>, p: int)
    ensures
        junk_count(resource_from(b, p).0.body) == resource_from(b, p).1.len(),
{
    law_junk_per_error(
        b,
        blank_block(b, p).0,
        ResourceState {
            body: Seq::empty(),
            errors: Seq::empty(),
            last_comment: None,
            last_blank_count: 0,
        },
    );
}

} // verus!
