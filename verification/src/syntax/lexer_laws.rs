use crate::syntax::grammar::{
    BACKSLASH, blank_inline_end, CLOSE_BRACE, digits_end, hex_end, ident_end, LF, OPEN_BRACE, QUOTE,
};
use crate::syntax::lexer_model::{
    feed_at, into_placeable, is_crlf, junk_stop, lex, lex_continuation_from, lex_pattern_new_line,
    lex_string_from, Lexed, LexerState, LexerView, top_or, turned, without_top, ws_end,
};
use vstd::prelude::*;

verus! {

pub proof fn lemma_blank_inline_end(b: Seq<u8>, p: int)
    requires
        0 <= p <= b.len(),
    ensures
        p <= blank_inline_end(b, p) <= b.len(),
    decreases b.len() - p,
{
    if p < b.len() && blank_inline_end(b, p) != p {
        lemma_blank_inline_end(b, p + 1);
    }
}

pub proof fn lemma_ws_end(b: Seq<u8>, p: int)
    requires
        0 <= p <= b.len(),
    ensures
        p <= ws_end(b, p) <= b.len(),
    decreases b.len() - p,
{
    if p < b.len() && ws_end(b, p) != p {
        lemma_ws_end(b, p + 1);
    }
}

pub proof fn lemma_ident_end(b: Seq<u8>, p: int)
    requires
        0 <= p <= b.len(),
    ensures
        p <= ident_end(b, p) <= b.len(),
    decreases b.len() - p,
{
    if p < b.len() && ident_end(b, p) != p {
        lemma_ident_end(b, p + 1);
    }
}

pub proof fn lemma_digits_end(b: Seq<u8>, p: int)
    requires
        0 <= p <= b.len(),
    ensures
        p <= digits_end(b, p) <= b.len(),
    decreases b.len() - p,
{
    if p < b.len() && digits_end(b, p) != p {
        lemma_digits_end(b, p + 1);
    }
}

pub proof fn lemma_hex_end(b: Seq<u8>, p: int, n: nat)
    requires
        0 <= p <= b.len(),
    ensures
        p <= hex_end(b, p, n) <= b.len(),
    decreases n,
{
    if n > 0 && p < b.len() && hex_end(b, p, n) != p {
        lemma_hex_end(b, p + 1, (n - 1) as nat);
    }
}

pub proof fn lemma_feed_at(b: Seq<u8>, p: int)
    requires
        0 <= p <= b.len(),
    ensures
        p <= feed_at(b, p) <= b.len(),
    decreases b.len() - p,
{
    if p < b.len() && feed_at(b, p) != p {
        lemma_feed_at(b, p + 1);
    }
}

pub proof fn lemma_junk_stop(b: Seq<u8>, p: int)
    requires
        0 <= p <= b.len(),
    ensures
        p <= junk_stop(b, p) <= b.len(),
    decreases b.len() - p,
{
    if p < b.len() && junk_stop(b, p) != p {
        lemma_junk_stop(b, p + 1);
    }
}

pub proof fn lemma_string_from(b: Seq<u8>, p: int)
    requires
        0 <= p <= b.len(),
    ensures
        match lex_string_from(b, p) {
            Ok(q) => p <= q < b.len(),
            Err(q) => p <= q <= b.len(),
        },
    decreases b.len() - p,
{
    if p < b.len() {
        if b[p] == BACKSLASH {
            if p + 2 <= b.len() {
                lemma_hex_end(b, p + 2, 4);
                lemma_hex_end(b, p + 2, 6);
                let q4 = hex_end(b, p + 2, 4);
                let q6 = hex_end(b, p + 2, 6);
                lemma_string_from(b, p + 2);
                lemma_string_from(b, q4);
                lemma_string_from(b, q6);
            }
        } else if b[p] == QUOTE {
        } else if b[p] == LF {
        } else {
            lemma_string_from(b, p + 1);
        }
    }
}

/// A token that takes no byte: the end of a run of text, an indent, or the
/// empty text of a comment at the end of the source.
pub open spec fn takes_nothing(v: LexerView, m: Lexed) -> bool {
    m.token matches Ok(Some(t)) && (t is Eot || t is Indent || (t is Text && v.state
        == LexerState::Comment && m.after.state == LexerState::Resource))
}

/// What a step of a lexer that stands inside its source does to its
/// position.
pub open spec fn advances(b: Seq<u8>, v: LexerView, m: Lexed) -> bool {
    &&& v.ptr <= m.after.ptr <= b.len()
    &&& (m.token is Ok && m.token->Ok_0 is Some && m.after.ptr == v.ptr) ==> takes_nothing(v, m)
}

pub proof fn lemma_continuation_from(b: Seq<u8>, v: LexerView, start: int, p: int)
    requires
        0 <= v.ptr <= b.len(),
        v.ptr == start,
        start <= p <= b.len(),
        v.state != LexerState::Comment,
    ensures
        advances(b, v, lex_continuation_from(b, v, start, p)),
        lex_continuation_from(b, v, start, p).after.state != LexerState::Comment,
        no_comment(v.stack) ==> no_comment(lex_continuation_from(b, v, start, p).after.stack),
    decreases b.len() - p,
{
    lemma_blank_inline_end(b, p);
    if no_comment(v.stack) {
        lemma_stacks(v.stack);
    }
    if p < b.len() {
        lemma_ws_end(b, p + 1);
        if !is_crlf(b, p) && b[p] != LF
            && b[p] != OPEN_BRACE && b[p]
            != CLOSE_BRACE {
            lemma_continuation_from(b, v, start, p + 1);
        }
    }
}

/// The state on top of the stack is no comment.
pub open spec fn no_comment(stack: Seq<LexerState>) -> bool {
    forall|i: int| 0 <= i < stack.len() ==> stack[i] != LexerState::Comment
}

proof fn lemma_stacks(stack: Seq<LexerState>)
    requires
        no_comment(stack),
    ensures
        no_comment(stack.push(LexerState::Pattern)),
        no_comment(stack.push(LexerState::Expression)),
        no_comment(into_placeable(stack)),
        no_comment(without_top(stack)),
        no_comment(Seq::<LexerState>::empty()),
        top_or(stack, LexerState::Expression) != LexerState::Comment,
        top_or(stack, LexerState::PatternContinuation)
            != LexerState::Comment,
{
    if stack.len() > 0 {
        assert(stack.last() == stack[stack.len() - 1]);
        assert forall|i: int| 0 <= i < stack.drop_last().len() implies stack.drop_last()[i]
            != LexerState::Comment by {
            assert(stack.drop_last()[i] == stack[i]);
        }
    }
    assert forall|i: int| 0 <= i < stack.push(LexerState::Pattern).len() implies stack.push(
        LexerState::Pattern,
    )[i] != LexerState::Comment by {
        if i < stack.len() {
            assert(stack.push(LexerState::Pattern)[i] == stack[i]);
        }
    }
    assert forall|i: int| 0 <= i < stack.push(LexerState::Expression).len() implies stack.push(
        LexerState::Expression,
    )[i] != LexerState::Comment by {
        if i < stack.len() {
            assert(stack.push(LexerState::Expression)[i] == stack[i]);
        }
    }
}

/// One step of a lexer never moves it back and leaves it inside its source.
/// It takes at least one byte unless its token is the end of a run of text,
/// an indent or the empty text of a comment at the end of the source.
pub proof fn law_lex_advances(b: Seq<u8>, v: LexerView)
    requires
        0 <= v.ptr <= b.len(),
        no_comment(v.stack),
    ensures
        advances(b, v, lex(b, v)),
        no_comment(lex(b, v).after.stack),
        v.state != LexerState::Resource ==> lex(b, v).after.state != LexerState::Comment,
        lex(b, v).after.state == LexerState::Comment ==> lex(b, v).after.ptr > v.ptr,
{
    let p = v.ptr;
    lemma_blank_inline_end(b, p);
    lemma_stacks(v.stack);
    let q = blank_inline_end(b, p);
    match v.state {
        LexerState::Resource => {
            if p < b.len() {
                lemma_ident_end(b, p + 1);
            }
        },
        LexerState::Pattern => {
            if q < b.len() {
                lemma_ws_end(b, q + 1);
                if is_crlf(b, q) {
                    lemma_new_line(
                        b,
                        turned(v, q + 2, LexerState::PatternNewLine),
                    );
                } else if b[q] == LF {
                    lemma_new_line(
                        b,
                        turned(v, q + 1, LexerState::PatternNewLine),
                    );
                } else if b[q] != OPEN_BRACE && b[q]
                    != CLOSE_BRACE {
                    let v1 = turned(
                        v,
                        q,
                        LexerState::PatternContinuation,
                    );
                    lemma_continuation_from(b, v1, q, q);
                }
            }
        },
        LexerState::PatternContinuation => {
            lemma_continuation_from(b, v, p, p);
        },
        LexerState::PatternNewLine => {
            lemma_new_line(b, v);
        },
        LexerState::Message => {
            if q < b.len() {
                lemma_ident_end(b, q + 1);
            }
        },
        LexerState::Comment => {
            lemma_feed_at(b, p);
        },
        LexerState::Expression => {
            if p < b.len() {
                lemma_digits_end(b, p + 1);
                let d = digits_end(b, p + 1);
                lemma_ws_end(b, d);
                if d < b.len() {
                    lemma_digits_end(b, d + 1);
                    lemma_ws_end(b, digits_end(b, d + 1));
                }
                lemma_ident_end(b, p + 1);
                lemma_ws_end(b, ident_end(b, p + 1));
                lemma_ws_end(b, p + 1);
                lemma_blank_inline_end(b, p + 1);
                if p + 2 <= b.len() {
                    lemma_blank_inline_end(b, p + 2);
                    lemma_ws_end(b, blank_inline_end(b, p + 2));
                }
                lemma_string_from(b, p + 1);
                match lex_string_from(b, p + 1) {
                    Ok(s) => {
                        lemma_blank_inline_end(b, s + 1);
                    },
                    Err(_) => {},
                }
            }
        },
    }
}

proof fn lemma_new_line(b: Seq<u8>, v: LexerView)
    requires
        0 <= v.ptr <= b.len(),
        no_comment(v.stack),
        v.state != LexerState::Comment,
    ensures
        advances(b, v, lex_pattern_new_line(b, v)),
        no_comment(lex_pattern_new_line(b, v).after.stack),
        lex_pattern_new_line(b, v).after.state != LexerState::Comment,
        lex_pattern_new_line(b, v).token matches Ok(Some(t)) ==> t is Eot || t is Indent || t
            is Eol,
{
    lemma_blank_inline_end(b, v.ptr);
    lemma_stacks(v.stack);
}

/// A lexer that reads a resource takes at least one byte with every token,
/// and where it fails without a byte taken, the junk that starts there is not
/// empty.
pub proof fn law_resource_step(b: Seq<u8>, v: LexerView)
    requires
        0 <= v.ptr <= b.len(),
        v.state == LexerState::Resource,
    ensures
        lex(b, v).token matches Ok(Some(t)) ==> lex(b, v).after.ptr > v.ptr && (t is Eol || t
            is Identifier || t is CommentSign || t is GroupCommentSign || t
            is ResourceCommentSign || t is MinusSign),
        lex(b, v).token is Err && lex(b, v).after.ptr == v.ptr ==> junk_stop(b, v.ptr) > v.ptr,
{
    let p = v.ptr;
    if p < b.len() {
        lemma_ident_end(b, p + 1);
        lemma_junk_stop(b, p + 1);
    }
}

} // verus!
