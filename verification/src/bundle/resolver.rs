use crate::bundle::args::FluentArgs;
use crate::bundle::errors::{
    as_fluent_errors, fluent_error_views, FluentError, FluentErrorView, resolver_error_views,
    ResolverError,
};
use crate::bundle::fluent_bundle::{BorrowResource, FluentBundle};
use crate::bundle::rendering::{
    ArgsView, asking, CallView, chosen_variant, find_attribute, first_default, first_match,
    formatted, FSI, key_value, MAX_PLACEABLES, message_pattern, needs_isolation, Outcome, PDI,
    popped, prepend, reference_error, reference_text, resolve_arguments, resolve_inline,
    resolve_named, resolve_positional, result_text, returned, ScopeView, term_pattern, told,
    transformed, unresolved, value_matches, ValueView, variable, write_elements, write_expression,
    write_inline, write_pattern, write_referenced,
};
use crate::bundle::scope::{Scope, travelled_views};
use crate::bundle::types::FluentValue;
use crate::bundle::unicode::{push_char, unescape_unicode, unescape_unicode_to_string};
use crate::syntax::ast::{
    Attribute, attribute_views, CallArguments, Expression, Identifier, inline_views,
    InlineExpression, lemma_arguments_view, lemma_pattern_view, lemma_select_view, named_views,
    Pattern, PatternElement, PatternView, Variant, variant_views, VariantKey,
};
use crate::syntax::slice::{Slice, str_eq};
use vstd::prelude::*;
use vstd::string::*;

verus! {

/// Every function of the bundle, and its transform, can be called on every
/// input.
pub open spec fn callable<R, F, T>(bundle: &FluentBundle<R, F, T>) -> bool where
    F: Fn(&[FluentValue<String>], &FluentArgs<String>) -> FluentValue<String>,
    T: Fn(&str) -> String,
 {
    &&& forall|i: int, p: &[FluentValue<String>], n: &FluentArgs<String>|
        0 <= i < bundle.functions@.len() ==> #[trigger] call_requires(
            bundle.functions@[i].1,
            (p, n),
        )
    &&& bundle.transform matches Some(t) ==> forall|s: &str| #[trigger] call_requires(t, (s,))
}

/// The views of a vector of values.
pub open spec fn value_views(v: Seq<FluentValue<String>>) -> Seq<ValueView> {
    Seq::new(v.len(), |i: int| v[i].view())
}

/// The calls `all` begin with the calls `made`.
pub open spec fn begins(all: Seq<CallView>, made: Seq<CallView>) -> bool {
    made.len() <= all.len() && forall|i: int| 0 <= i < made.len() ==> #[trigger] all[i] == made[i]
}

/// The bundle has answered the call so: a function of that name has
/// returned that result for those arguments, or the transform that text for
/// that text.
pub open spec fn answered<R, F, T>(bundle: &FluentBundle<R, F, T>, c: CallView) -> bool where
    F: Fn(&[FluentValue<String>], &FluentArgs<String>) -> FluentValue<String>,
    T: Fn(&str) -> String,
 {
    match c {
        CallView::Function { name, positional, named, result } => exists|
            i: int,
            p: &[FluentValue<String>],
            n: &FluentArgs<String>,
            r: FluentValue<String>,
        |
            0 <= i < bundle.functions@.len() && bundle.functions@[i].0@ == name && value_views(p@)
                == positional && n.view() == named && r.view() == result && #[trigger] call_ensures(
                bundle.functions@[i].1,
                (p, n),
                r,
            ),
        CallView::Transform { text, result } => match bundle.transform {
            Some(t) => exists|x: &str, r: String|
                x@ == text && r@ == result && #[trigger] call_ensures(t, (x,), r),
            None => false,
        },
    }
}

/// Every one of the calls is one that the bundle has answered so.
pub open spec fn honest<R, F, T>(bundle: &FluentBundle<R, F, T>, calls: Seq<CallView>) -> bool where
    F: Fn(&[FluentValue<String>], &FluentArgs<String>) -> FluentValue<String>,
    T: Fn(&str) -> String,
 {
    forall|k: int| 0 <= k < calls.len() ==> answered(bundle, #[trigger] calls[k])
}

/// The scope after a step of the resolver: within its limits, on the same
/// call, with no fewer placeables counted and no call forgotten, each call
/// answered by the bundle where those before were.
pub open spec fn kept<'s, R: BorrowResource, F, T, A: Slice>(
    before: Scope<'s, R, F, T, A>,
    after: Scope<'s, R, F, T, A>,
) -> bool where
    F: Fn(&[FluentValue<String>], &FluentArgs<String>) -> FluentValue<String>,
    T: Fn(&str) -> String,
 {
    &&& after.ok()
    &&& after.same_call(before)
    &&& before.placeables <= after.placeables
    &&& after.local_args == before.local_args
    &&& begins(after.calls@, before.calls@)
    &&& forall|all: Seq<CallView>| #[trigger]
        begins(all, after.calls@) ==> begins(all, before.calls@)
    &&& honest(before.bundle, before.calls@) ==> honest(after.bundle, after.calls@)
}

/// What was written and the state left are what `m` says, and `m` is
/// decided.
pub open spec fn agrees(m: Outcome, before: Seq<char>, after: Seq<char>, scope: ScopeView) -> bool {
    m.decided && after == before + m.out && scope == m.scope
}

/// Appends a reference as it is written where it cannot be resolved.
pub fn write_reference(w: &mut String, e: &InlineExpression<String>)
    ensures
        final(w)@ == old(w)@ + reference_text(e.view()),
{
    let ghost w0 = w@;
    match e {
        InlineExpression::MessageReference { id, attribute } => {
            w.append(id.name.as_str());
            match attribute {
                Some(a) => {
                    w.append(".");
                    w.append(a.name.as_str());
                    assert(w@ =~= w0 + (id.view() + "."@ + a.view()));
                },
                None => {},
            }
        },
        InlineExpression::TermReference { id, attribute, .. } => {
            w.append("-");
            w.append(id.name.as_str());
            match attribute {
                Some(a) => {
                    w.append(".");
                    w.append(a.name.as_str());
                    assert(w@ =~= w0 + ("-"@ + id.view() + "."@ + a.view()));
                },
                None => {
                    assert(w@ =~= w0 + ("-"@ + id.view()));
                },
            }
        },
        InlineExpression::FunctionReference { id, .. } => {
            w.append(id.name.as_str());
            w.append("()");
            assert(w@ =~= w0 + (id.view() + "()"@));
        },
        InlineExpression::VariableReference { id } => {
            w.append("$");
            w.append(id.name.as_str());
            assert(w@ =~= w0 + ("$"@ + id.view()));
        },
        _ => {
            assert(w@ =~= w0 + Seq::<char>::empty());
        },
    }
}

/// The reference as it is written where it cannot be resolved.
pub fn reference_name(e: &InlineExpression<String>) -> (r: String)
    ensures
        r@ == reference_text(e.view()),
{
    let mut r = String::new();
    write_reference(&mut r, e);
    assert(r@ =~= reference_text(e.view()));
    r
}

/// What the error says of a reference that cannot be resolved.
pub fn resolve_error(e: &InlineExpression<String>) -> (r: String)
    ensures
        r@ == reference_error(e.view()),
{
    let mut r = match e {
        InlineExpression::MessageReference { attribute, .. } => {
            if attribute.is_none() {
                String::from_str("Unknown message: ")
            } else {
                String::from_str("Unknown attribute: ")
            }
        },
        InlineExpression::VariableReference { .. } => String::from_str("Unknown variable: "),
        InlineExpression::TermReference { attribute, .. } => {
            if attribute.is_none() {
                String::from_str("Unknown term: ")
            } else {
                String::from_str("Unknown attribute: ")
            }
        },
        InlineExpression::FunctionReference { .. } => String::from_str("Unknown function: "),
        _ => {
            return String::new();
        },
    };
    write_reference(&mut r, e);
    r
}

/// Appends the reference in braces.
fn write_braced(w: &mut String, e: &InlineExpression<String>)
    ensures
        final(w)@ == old(w)@ + ("{"@ + reference_text(e.view()) + "}"@),
{
    let ghost w0 = w@;
    w.append("{");
    write_reference(w, e);
    w.append("}");
    assert(w@ =~= w0 + ("{"@ + reference_text(e.view()) + "}"@));
}

/// Notes that a reference cannot be resolved and writes it in braces where
/// it stood.
pub fn write_ref_error<'s, R: BorrowResource, F, T, A: Slice>(
    w: &mut String,
    e: &InlineExpression<String>,
    scope: &mut Scope<'s, R, F, T, A>,
) where
    F: Fn(&[FluentValue<String>], &FluentArgs<String>) -> FluentValue<String>,
    T: Fn(&str) -> String,

    requires
        old(scope).ok(),
    ensures
        kept(*old(scope), *final(scope)),
        agrees(unresolved(e.view(), old(scope).view()), old(w)@, final(w)@, final(scope).view()),
{
    scope.add_error(ResolverError::Reference(resolve_error(e)));
    write_braced(w, e);
}

/// What a function of the bundle has returned, written where the call
/// stood: the call itself where the function gave an error, else the value.
pub fn write_function_result(
    w: &mut String,
    result: &FluentValue<String>,
    e: &InlineExpression<String>,
)
    ensures
        final(w)@ == old(w)@ + result_text(e.view(), result.view()),
{
    match result {
        FluentValue::Error => {
            write_reference(w, e);
        },
        _ => {
            result.write(w);
        },
    }
}

/// The value of the argument of that name: among the local arguments where a
/// term is under way, else among the arguments of the call.
fn find_variable<'s, R: BorrowResource, F, T, A: Slice>(
    scope: &Scope<'s, R, F, T, A>,
    id: &str,
) -> (r: Option<FluentValue<String>>)
    ensures
        match (r, variable(scope.env(Seq::empty()), scope.view(), id@)) {
            (Some(v), Some(m)) => v.view() == m,
            (None, None) => true,
            _ => false,
        },
{
    match &scope.local_args {
        Some(args) => match args.get(id) {
            Some(v) => Some(v.to_owned()),
            None => None,
        },
        None => match scope.args {
            Some(args) => match args.get(id) {
                Some(v) => Some(v.to_owned()),
                None => None,
            },
            None => None,
        },
    }
}

/// The index of the variant that the selector chooses.
#[verifier::loop_isolation(false)]
fn choose_variant(variants: &Vec<Variant<String>>, selector: &FluentValue<String>,
    locale: &str) -> (r:
    Option<usize>)
    ensures
        match (r, chosen_variant(variant_views(variants@), selector.view(), locale@)) {
            (Some(i), Some(j)) => i == j && i < variants@.len(),
            (None, None) => true,
            _ => false,
        },
{
    let ghost views = variant_views(variants@);
    let is_value = match selector {
        FluentValue::Error => false,
        _ => true,
    };
    if is_value {
        let mut i: usize = 0;
        while i < variants.len()
            invariant
                i <= variants@.len(),
                views == variant_views(variants@),
                first_match(views, selector.view(), locale@, 0) == first_match(
                    views,
                    selector.view(),
                    locale@,
                    i as int,
                ),
            decreases variants.len() - i,
        {
            let key: FluentValue<&str> = match &variants[i].key {
                VariantKey::Identifier { name } => FluentValue::String(name.as_str()),
                VariantKey::NumberLiteral { value } => FluentValue::try_number(value.as_str()),
            };
            assert(key.view() == key_value(views[i as int].key));
            if key.matches_in(selector, locale) {
                return Some(i);
            }
            i += 1;
        }
    }
    let mut k: usize = 0;
    while k < variants.len()
        invariant
            k <= variants@.len(),
            views == variant_views(variants@),
            first_default(views, 0) == first_default(views, k as int),
        decreases variants.len() - k,
    {
        if variants[k].default {
            return Some(k);
        }
        k += 1;
    }
    None
}

/// What was written behind `before`.
pub open spec fn tail(before: Seq<char>, after: Seq<char>) -> Seq<char> {
    after.subrange(before.len() as int, after.len() as int)
}

/// Writes one element of the pattern. The result says whether the pattern
/// goes on: it does not where the limit of placeables is passed.
fn write_element_to<'s, R: BorrowResource, F, T, A: Slice>(
    w: &mut String,
    pattern: &'s Pattern<String>,
    i: usize,
    scope: &mut Scope<'s, R, F, T, A>,
) -> (go_on: bool) where
    F: Fn(&[FluentValue<String>], &FluentArgs<String>) -> FluentValue<String>,
    T: Fn(&str) -> String,

    requires
        old(scope).ok(),
        !old(scope).dirty,
        callable(old(scope).bundle),
        i < pattern.elements@.len(),
    ensures
        kept(*old(scope), *final(scope)),
        final(w)@ == old(w)@ + tail(old(w)@, final(w)@),
        forall|all: Seq<CallView>| #[trigger]
            begins(all, final(scope).calls@) ==> ({
                let here = write_elements(
                    old(scope).env(all),
                    pattern.view(),
                    i as int,
                    old(scope).view(),
                );
                let next = write_elements(
                    old(scope).env(all),
                    pattern.view(),
                    i + 1,
                    final(scope).view(),
                );
                if go_on {
                    here == prepend(tail(old(w)@, final(w)@), next)
                } else {
                    agrees(here, old(w)@, final(w)@, final(scope).view())
                }
            }),
    decreases MAX_PLACEABLES + 1 - old(scope).placeables, 0int, pattern, 0int,
{
    let ghost w0 = w@;
    let ghost before = scope.view();
    let ghost made = scope.calls@;
    proof {
        lemma_pattern_view(pattern);
    }
    match &pattern.elements[i] {
        PatternElement::TextElement(value) => {
            match &scope.bundle.transform {
                Some(transform) => {
                    let text = transform(value.as_str());
                    w.append(text.as_str());
                    let ghost call = CallView::Transform { text: value@, result: text@ };
                    scope.calls = Ghost(made.push(call));
                    proof {
                        assert(tail(w0, w@) =~= text@);
                        assert(answered(scope.bundle, call));
                        assert(scope.view() == asking(before));
                        assert forall|all: Seq<CallView>| #[trigger]
                            begins(all, scope.calls@) implies transformed(
                            scope.env(all),
                            before,
                            value@,
                        ) == Some(text@) && begins(all, made) by {
                            assert(all[made.len() as int] == call);
                        }
                    }
                },
                None => {
                    w.append(value.as_str());
                    assert(tail(w0, w@) =~= value@);
                },
            }
            true
        },
        PatternElement::Placeable(expression) => {
            scope.placeables += 1;
            if scope.placeables > MAX_PLACEABLES {
                scope.dirty = true;
                scope.add_error(ResolverError::TooManyPlaceables);
                assert(w@ =~= w0 + Seq::<char>::empty());
                assert(tail(w0, w@) =~= Seq::<char>::empty());
                return false;
            }
            let isolate = scope.bundle.use_isolating && pattern.elements.len() > 1
                && match expression {
                Expression::InlineExpression(InlineExpression::MessageReference { .. }) => false,
                Expression::InlineExpression(InlineExpression::TermReference { .. }) => false,
                Expression::InlineExpression(InlineExpression::StringLiteral { .. }) => false,
                _ => true,
            };
            assert(isolate == needs_isolation(
                scope.env(Seq::empty()),
                pattern.view(),
                expression.view(),
            ));
            if isolate {
                push_char(w, FSI);
            }
            if scope.travelled.len() == 0 {
                scope.travelled.push(pattern);
                assert(travelled_views(scope.travelled@) =~= seq![pattern.view()]);
            }
            let ghost entered = scope.view();
            let ghost w1 = w@;
            write_expression_to(w, expression, scope);
            let ghost w2 = w@;
            if isolate {
                push_char(w, PDI);
            }
            proof {
                assert forall|all: Seq<CallView>| #[trigger]
                    begins(all, scope.calls@) implies write_elements(
                    scope.env(all),
                    pattern.view(),
                    i as int,
                    before,
                ) == prepend(
                    tail(w0, w@),
                    write_elements(scope.env(all), pattern.view(), i + 1, scope.view()),
                ) by {
                    let env = scope.env(all);
                    let r = write_expression(env, expression.view(), entered);
                    assert(agrees(r, w1, w2, scope.view()));
                    let rest = write_elements(env, pattern.view(), i + 1, r.scope);
                    if isolate {
                        assert(tail(w0, w@) =~= seq![FSI] + r.out + seq![PDI]);
                        assert(seq![FSI] + r.out + seq![PDI] + rest.out =~= (seq![FSI] + r.out
                            + seq![PDI]) + rest.out);
                    } else {
                        assert(tail(w0, w@) =~= r.out);
                    }
                }
                assert(begins(scope.calls@, scope.calls@));
                assert(w2 =~= w1 + tail(w1, w2));
                if isolate {
                    assert(w@ =~= w0 + (seq![FSI] + tail(w1, w2) + seq![PDI]));
                }
                assert(w@ =~= w0 + tail(w0, w@));
            }
            true
        },
    }
}

/// Writes the pattern: its text as it is, or through the transform of the
/// bundle, and what its placeables resolve to, between isolation marks where
/// the bundle asks for them. Past the limit of placeables the call gives up.
pub fn write_pattern_to<'s, R: BorrowResource, F, T, A: Slice>(
    w: &mut String,
    pattern: &'s Pattern<String>,
    scope: &mut Scope<'s, R, F, T, A>,
) where
    F: Fn(&[FluentValue<String>], &FluentArgs<String>) -> FluentValue<String>,
    T: Fn(&str) -> String,

    requires
        old(scope).ok(),
        callable(old(scope).bundle),
    ensures
        kept(*old(scope), *final(scope)),
        forall|all: Seq<CallView>| #[trigger]
            begins(all, final(scope).calls@) ==> agrees(
                write_pattern(old(scope).env(all), pattern.view(), old(scope).view()),
                old(w)@,
                final(w)@,
                final(scope).view(),
            ),
    decreases MAX_PLACEABLES + 1 - old(scope).placeables, 0int, pattern, 1int,
{
    let len = pattern.elements.len();
    let ghost w0 = w@;
    let ghost sc0 = scope.view();
    let ghost mut written = Seq::<char>::empty();
    let mut i: usize = 0;
    proof {
        assert(w0 + written =~= w0);
        assert forall|all: Seq<CallView>| #[trigger] begins(all, scope.calls@) implies prepend(
            written,
            write_elements(scope.env(all), pattern.view(), 0, sc0),
        ) == write_elements(scope.env(all), pattern.view(), 0, sc0) by {
            assert(written + write_elements(scope.env(all), pattern.view(), 0, sc0).out
                =~= write_elements(scope.env(all), pattern.view(), 0, sc0).out);
        }
    }
    while i < len
        invariant_except_break
            forall|all: Seq<CallView>| #[trigger]
                begins(all, scope.calls@) ==> write_elements(
                    old(scope).env(all),
                    pattern.view(),
                    0,
                    sc0,
                ) == prepend(
                    written,
                    write_elements(old(scope).env(all), pattern.view(), i as int, scope.view()),
                ),
        invariant
            i <= len == pattern.elements@.len(),
            sc0 == old(scope).view(),
            w@ == w0 + written,
            kept(*old(scope), *scope),
            callable(scope.bundle),
        ensures
            kept(*old(scope), *scope),
            w@ == w0 + written,
            forall|all: Seq<CallView>| #[trigger]
                begins(all, scope.calls@) ==> write_elements(
                    old(scope).env(all),
                    pattern.view(),
                    0,
                    sc0,
                ) == (Outcome { out: written, scope: scope.view(), decided: true }),
        decreases len - i,
    {
        if scope.dirty {
            proof {
                assert forall|all: Seq<CallView>| #[trigger]
                    begins(all, scope.calls@) implies write_elements(
                    old(scope).env(all),
                    pattern.view(),
                    0,
                    sc0,
                ) == (Outcome { out: written, scope: scope.view(), decided: true }) by {
                    assert(written + Seq::<char>::empty() =~= written);
                }
            }
            break ;
        }
        let ghost w1 = w@;
        let ghost here_scope = scope.view();
        let ghost earlier = written;
        let go_on = write_element_to(w, pattern, i, scope);
        proof {
            let piece = tail(w1, w@);
            written = earlier + piece;
            assert(w@ =~= w0 + written);
            assert forall|all: Seq<CallView>| #[trigger] begins(all, scope.calls@) implies if go_on {
                write_elements(old(scope).env(all), pattern.view(), 0, sc0) == prepend(
                    written,
                    write_elements(old(scope).env(all), pattern.view(), i + 1, scope.view()),
                )
            } else {
                write_elements(old(scope).env(all), pattern.view(), 0, sc0) == (Outcome {
                    out: written,
                    scope: scope.view(),
                    decided: true,
                })
            } by {
                let env = old(scope).env(all);
                let here = write_elements(env, pattern.view(), i as int, here_scope);
                let next = write_elements(env, pattern.view(), i + 1, scope.view());
                if go_on {
                    assert(earlier + (piece + next.out) =~= (earlier + piece) + next.out);
                } else {
                    assert(here.out == piece);
                }
            }
        }
        if !go_on {
            break ;
        }
        i += 1;
    }
    proof {
        assert forall|all: Seq<CallView>| #[trigger]
            begins(all, scope.calls@) implies write_elements(
            old(scope).env(all),
            pattern.view(),
            0,
            sc0,
        ) == (Outcome { out: written, scope: scope.view(), decided: true }) by {
            assert(written + Seq::<char>::empty() =~= written);
        }
    }
}

/// Writes what the expression resolves to: an inline expression itself, a
/// select expression the variant that its selector chooses.
pub fn write_expression_to<'s, R: BorrowResource, F, T, A: Slice>(
    w: &mut String,
    e: &'s Expression<String>,
    scope: &mut Scope<'s, R, F, T, A>,
) where
    F: Fn(&[FluentValue<String>], &FluentArgs<String>) -> FluentValue<String>,
    T: Fn(&str) -> String,

    requires
        old(scope).ok(),
        callable(old(scope).bundle),
    ensures
        kept(*old(scope), *final(scope)),
        forall|all: Seq<CallView>| #[trigger]
            begins(all, final(scope).calls@) ==> agrees(
                write_expression(old(scope).env(all), e.view(), old(scope).view()),
                old(w)@,
                final(w)@,
                final(scope).view(),
            ),
    decreases MAX_PLACEABLES + 1 - old(scope).placeables, 1int, e, 0int,
{
    match e {
        Expression::InlineExpression(exp) => {
            write_inline_to(w, exp, scope);
        },
        Expression::SelectExpression { selector, variants } => {
            proof {
                lemma_select_view(e);
            }
            let value = resolve_inline_to(selector, scope);
            match choose_variant(variants, &value, scope.bundle.locale()) {
                Some(j) => {
                    write_pattern_to(w, &variants[j].value, scope);
                },
                None => {
                    scope.add_error(ResolverError::MissingDefault);
                    assert(w@ =~= w@ + Seq::<char>::empty());
                },
            }
        },
    }
}

/// Writes the pattern that a reference leads to. Where that pattern is under
/// way already the reference is cyclic: an error, and the reference in braces
/// where it stood. Where there is no pattern the reference cannot be
/// resolved.
pub fn write_referenced_to<'s, R: BorrowResource, F, T, A: Slice>(
    w: &mut String,
    found: Option<&'s Pattern<String>>,
    e: &'s InlineExpression<String>,
    scope: &mut Scope<'s, R, F, T, A>,
) where
    F: Fn(&[FluentValue<String>], &FluentArgs<String>) -> FluentValue<String>,
    T: Fn(&str) -> String,

    requires
        old(scope).ok(),
        callable(old(scope).bundle),
    ensures
        kept(*old(scope), *final(scope)),
        forall|all: Seq<CallView>| #[trigger]
            begins(all, final(scope).calls@) ==> agrees(
                write_referenced(
                    old(scope).env(all),
                    match found {
                        Some(p) => Some(p.view()),
                        None => None,
                    },
                    e.view(),
                    old(scope).view(),
                ),
                old(w)@,
                final(w)@,
                final(scope).view(),
            ),
    decreases MAX_PLACEABLES + 1 - old(scope).placeables, 1int, e, 0int,
{
    match found {
        Some(pattern) => {
            if scope.is_travelled(pattern) {
                scope.add_error(ResolverError::Cyclic(reference_name(e)));
                write_braced(w, e);
            } else {
                let ghost before = travelled_views(scope.travelled@);
                scope.travelled.push(pattern);
                assert(travelled_views(scope.travelled@) =~= before.push(pattern.view()));
                write_pattern_to(w, pattern, scope);
                let ghost after = travelled_views(scope.travelled@);
                scope.travelled.pop();
                assert(travelled_views(scope.travelled@) =~= popped(after));
            }
        },
        None => {
            write_ref_error(w, e, scope);
        },
    }
}

/// The value of the first attribute of that name.
fn find_attribute_of<'a>(attributes: &'a Vec<Attribute<String>>, name: &str) -> (r:
    Option<&'a Pattern<String>>)
    ensures
        match (
            r,
            find_attribute(
                attribute_views(attributes@),
                name@,
                0,
            ),
        ) {
            (Some(p), Some(v)) => p.view() == v,
            (None, None) => true,
            _ => false,
        },
{
    let ghost views = attribute_views(attributes@);
    let mut i: usize = 0;
    while i < attributes.len()
        invariant
            i <= attributes@.len(),
            views == attribute_views(attributes@),
            find_attribute(views, name@, 0)
                == find_attribute(views, name@, i as int),
        decreases attributes.len() - i,
    {
        if str_eq(attributes[i].id.name.as_str(), name) {
            return Some(&attributes[i].value);
        }
        i += 1;
    }
    None
}

/// The pattern that a reference to a message leads to.
fn find_message_pattern<'s, R: BorrowResource, F, T>(
    bundle: &'s FluentBundle<R, F, T>,
    id: &str,
    attribute: &Option<Identifier<String>>,
) -> (r: Option<&'s Pattern<String>>)
    ensures
        match (
            r,
            message_pattern(
                bundle.env(None),
                id@,
                match attribute {
                    Some(a) => Some(a.view()),
                    None => None,
                },
            ),
        ) {
            (Some(p), Some(v)) => p.view() == v,
            (None, None) => true,
            _ => false,
        },
{
    match bundle.get_entry_message(id) {
        Some(msg) => match attribute {
            Some(attr) => find_attribute_of(&msg.attributes, attr.name.as_str()),
            None => match &msg.value {
                Some(p) => Some(p),
                None => None,
            },
        },
        None => None,
    }
}

/// The pattern that a reference to a term leads to.
fn find_term_pattern<'s, R: BorrowResource, F, T>(
    bundle: &'s FluentBundle<R, F, T>,
    id: &str,
    attribute: &Option<Identifier<String>>,
) -> (r: Option<&'s Pattern<String>>)
    ensures
        match (
            r,
            term_pattern(
                bundle.env(None),
                id@,
                match attribute {
                    Some(a) => Some(a.view()),
                    None => None,
                },
            ),
        ) {
            (Some(p), Some(v)) => p.view() == v,
            (None, None) => true,
            _ => false,
        },
{
    match bundle.get_entry_term(id) {
        Some(term) => match attribute {
            Some(attr) => find_attribute_of(&term.attributes, attr.name.as_str()),
            None => Some(&term.value),
        },
        None => None,
    }
}

/// Resolves the arguments of a call: the positional ones, then the named
/// ones.
#[verifier::loop_isolation(false)]
pub fn get_arguments<'s, R: BorrowResource, F, T, A: Slice>(
    scope: &mut Scope<'s, R, F, T, A>,
    arguments: &'s Option<CallArguments<String>>,
) -> (r: (Vec<FluentValue<String>>, FluentArgs<String>)) where
    F: Fn(&[FluentValue<String>], &FluentArgs<String>) -> FluentValue<String>,
    T: Fn(&str) -> String,

    requires
        old(scope).ok(),
        callable(old(scope).bundle),
    ensures
        kept(*old(scope), *final(scope)),
        forall|all: Seq<CallView>| #[trigger]
            begins(all, final(scope).calls@) ==> ({
                let m = resolve_arguments(
                    old(scope).env(all),
                    match arguments {
                        Some(a) => Some(a.view()),
                        None => None,
                    },
                    old(scope).view(),
                );
                m.decided && value_views(r.0@) == m.positional && r.1.view() == m.named
                    && final(scope).view() == m.scope
            }),
    decreases MAX_PLACEABLES + 1 - old(scope).placeables, 1int, arguments, 0int,
{
    let mut positional: Vec<FluentValue<String>> = Vec::new();
    let mut named: FluentArgs<String> = FluentArgs::new();
    let ghost sc0 = scope.view();
    assert(value_views(positional@) =~= Seq::empty());
    match arguments {
        Some(a) => {
            proof {
                lemma_arguments_view(a);
            }
            let ghost pviews = inline_views(a.positional@);
            let ghost nviews = named_views(a.named@);
            let mut i: usize = 0;
            while i < a.positional.len()
                invariant
                    i <= a.positional@.len(),
                    kept(*old(scope), *scope),
                    forall|all: Seq<CallView>| #[trigger]
                        begins(all, scope.calls@) ==> resolve_positional(
                            old(scope).env(all),
                            pviews,
                            0,
                            Seq::empty(),
                            sc0,
                        ) == resolve_positional(
                            old(scope).env(all),
                            pviews,
                            i as int,
                            value_views(positional@),
                            scope.view(),
                        ),
                decreases a.positional.len() - i,
            {
                let ghost acc = value_views(positional@);
                let value = resolve_inline_to(&a.positional[i], scope);
                positional.push(value);
                proof {
                    assert(value_views(positional@) =~= acc.push(value.view()));
                }
                i += 1;
            }
            let ghost sc1 = scope.view();
            let ghost first = value_views(positional@);
            let ghost calls1 = scope.calls@;
            let mut k: usize = 0;
            while k < a.named.len()
                invariant
                    k <= a.named@.len(),
                    kept(*old(scope), *scope),
                    begins(scope.calls@, calls1),
                    forall|all: Seq<CallView>| #[trigger]
                        begins(all, scope.calls@) ==> begins(all, calls1),
                    forall|all: Seq<CallView>| #[trigger]
                        begins(all, scope.calls@) ==> resolve_named(
                            old(scope).env(all),
                            nviews,
                            0,
                            Seq::empty(),
                            sc1,
                        ) == resolve_named(
                            old(scope).env(all),
                            nviews,
                            k as int,
                            named.view(),
                            scope.view(),
                        ),
                decreases a.named.len() - k,
            {
                let value = resolve_inline_to(&a.named[k].value, scope);
                named.add(String::from_str(a.named[k].name.name.as_str()), value);
                k += 1;
            }
        },
        None => {},
    }
    (positional, named)
}

/// Writes what the inline expression resolves to.
pub fn write_inline_to<'s, R: BorrowResource, F, T, A: Slice>(
    w: &mut String,
    e: &'s InlineExpression<String>,
    scope: &mut Scope<'s, R, F, T, A>,
) where
    F: Fn(&[FluentValue<String>], &FluentArgs<String>) -> FluentValue<String>,
    T: Fn(&str) -> String,

    requires
        old(scope).ok(),
        callable(old(scope).bundle),
    ensures
        kept(*old(scope), *final(scope)),
        forall|all: Seq<CallView>| #[trigger]
            begins(all, final(scope).calls@) ==> agrees(
                write_inline(old(scope).env(all), e.view(), old(scope).view()),
                old(w)@,
                final(w)@,
                final(scope).view(),
            ),
    decreases MAX_PLACEABLES + 1 - old(scope).placeables, 1int, e, 1int,
{
    match e {
        InlineExpression::StringLiteral { value } => {
            unescape_unicode(w, value.as_str());
        },
        InlineExpression::NumberLiteral { value } => {
            FluentValue::<&str>::try_number(value.as_str()).write(w);
        },
        InlineExpression::MessageReference { id, attribute } => {
            let found = find_message_pattern(scope.bundle, id.name.as_str(), attribute);
            write_referenced_to(w, found, e, scope);
        },
        InlineExpression::TermReference { id, attribute, arguments } => {
            let (_, named) = get_arguments(scope, arguments);
            let previous = scope.local_args.take();
            scope.local_args = Some(named);
            let found = find_term_pattern(scope.bundle, id.name.as_str(), attribute);
            write_referenced_to(w, found, e, scope);
            scope.local_args = previous;
        },
        InlineExpression::FunctionReference { id, arguments } => {
            let (positional, named) = get_arguments(scope, arguments);
            match scope.bundle.get_entry_function(id.name.as_str()) {
                Some(i) => {
                    let ghost asked = scope.view();
                    let ghost made = scope.calls@;
                    let result = (scope.bundle.functions[i].1)(positional.as_slice(), &named);
                    write_function_result(w, &result, e);
                    let ghost call = CallView::Function {
                        name: id.view(),
                        positional: value_views(positional@),
                        named: named.view(),
                        result: result.view(),
                    };
                    scope.calls = Ghost(made.push(call));
                    proof {
                        assert(answered(scope.bundle, call));
                        assert(scope.view() == asking(asked));
                        assert forall|all: Seq<CallView>| #[trigger]
                            begins(all, scope.calls@) implies returned(
                            scope.env(all),
                            asked,
                            id.view(),
                            value_views(positional@),
                            named.view(),
                        ) == Some(result.view()) && begins(all, made) by {
                            assert(all[made.len() as int] == call);
                        }
                    }
                },
                None => {
                    write_ref_error(w, e, scope);
                },
            }
        },
        InlineExpression::VariableReference { id } => {
            match find_variable(scope, id.name.as_str()) {
                Some(v) => {
                    v.write(w);
                },
                None => {
                    if scope.local_args.is_none() {
                        scope.add_error(ResolverError::Reference(resolve_error(e)));
                    }
                    write_braced(w, e);
                },
            }
        },
        InlineExpression::Placeable { expression } => {
            write_expression_to(w, expression, scope);
        },
    }
}

/// The value of the inline expression: that of a literal or a variable, else
/// the text that the expression writes.
pub fn resolve_inline_to<'s, R: BorrowResource, F, T, A: Slice>(
    e: &'s InlineExpression<String>,
    scope: &mut Scope<'s, R, F, T, A>,
) -> (r: FluentValue<String>) where
    F: Fn(&[FluentValue<String>], &FluentArgs<String>) -> FluentValue<String>,
    T: Fn(&str) -> String,

    requires
        old(scope).ok(),
        callable(old(scope).bundle),
    ensures
        kept(*old(scope), *final(scope)),
        forall|all: Seq<CallView>| #[trigger]
            begins(all, final(scope).calls@) ==> ({
                let m = resolve_inline(old(scope).env(all), e.view(), old(scope).view());
                m.decided && r.view() == m.value && final(scope).view() == m.scope
            }),
    decreases MAX_PLACEABLES + 1 - old(scope).placeables, 1int, e, 2int,
{
    match e {
        InlineExpression::StringLiteral { value } => FluentValue::String(
            unescape_unicode_to_string(value.as_str()),
        ),
        InlineExpression::NumberLiteral { value } => FluentValue::try_number(
            String::from_str(value.as_str()),
        ),
        InlineExpression::VariableReference { id } => {
            match find_variable(scope, id.name.as_str()) {
                Some(v) => v,
                None => {
                    if scope.local_args.is_none() {
                        scope.add_error(ResolverError::Reference(resolve_error(e)));
                    }
                    FluentValue::Error
                },
            }
        },
        _ => {
            let mut result = String::new();
            write_inline_to(&mut result, e, scope);
            assert(result@ =~= Seq::<char>::empty() + result@);
            FluentValue::String(result)
        },
    }
}

/// The value of the pattern: the text that it writes.
pub fn resolve_pattern_to<'s, R: BorrowResource, F, T, A: Slice>(
    pattern: &'s Pattern<String>,
    scope: &mut Scope<'s, R, F, T, A>,
) -> (r: FluentValue<String>) where
    F: Fn(&[FluentValue<String>], &FluentArgs<String>) -> FluentValue<String>,
    T: Fn(&str) -> String,

    requires
        old(scope).ok(),
        callable(old(scope).bundle),
    ensures
        kept(*old(scope), *final(scope)),
        forall|all: Seq<CallView>| #[trigger]
            begins(all, final(scope).calls@) ==> ({
                let m = write_pattern(old(scope).env(all), pattern.view(), old(scope).view());
                m.decided && r.view() == ValueView::String(m.out) && final(scope).view() == m.scope
            }),
{
    let mut result = String::new();
    write_pattern_to(&mut result, pattern, scope);
    assert(result@ =~= Seq::<char>::empty() + result@);
    FluentValue::String(result)
}

/// One call of the resolver on the pattern, in which the calls into the
/// functions and the transform of the bundle were `calls`, has written `out`
/// and met `errors`.
pub open spec fn formats<R: BorrowResource, F, T>(
    bundle: &FluentBundle<R, F, T>,
    p: PatternView,
    args: Option<ArgsView>,
    calls: Seq<CallView>,
    out: Seq<char>,
    errors: Seq<FluentErrorView>,
) -> bool {
    let m = formatted(told(bundle.env(args), calls), p);
    m.decided && m.scope.asked == calls.len() && out == m.out && errors == as_fluent_errors(
        m.scope.errors,
    )
}

/// The arguments of a call as the resolver reads them.
pub open spec fn args_view<A: Slice>(args: Option<&FluentArgs<A>>) -> Option<ArgsView> {
    match args {
        Some(a) => Some(a.view()),
        None => None,
    }
}

impl<R: BorrowResource, F, T> FluentBundle<R, F, T> where
    F: Fn(&[FluentValue<String>], &FluentArgs<String>) -> FluentValue<String>,
    T: Fn(&str) -> String,
 {
    /// Writes the pattern, resolved against this bundle and the arguments,
    /// behind what `w` holds, and the errors met behind those in `errors`.
    /// What is written and the errors are those of `formatted` for the calls
    /// that were made into the functions and the transform of the bundle,
    /// each with what it returned.
    pub fn format_pattern<'s, A: Slice>(
        &'s self,
        w: &mut String,
        pattern: &'s Pattern<String>,
        args: Option<&'s FluentArgs<A>>,
        errors: &mut Vec<FluentError>,
    )
        requires
            callable(self),
        ensures
            exists|calls: Seq<CallView>| #[trigger]
                honest(self, calls) && formats(
                    self,
                    pattern.view(),
                    args_view(args),
                    calls,
                    tail(old(w)@, final(w)@),
                    fluent_error_views(final(errors)@).skip(old(errors)@.len() as int),
                ),
            final(w)@ == old(w)@ + tail(old(w)@, final(w)@),
            fluent_error_views(old(errors)@).is_prefix_of(fluent_error_views(final(errors)@)),
    {
        let ghost w0 = w@;
        let mut scope = Scope::new(self, args);
        write_pattern_to(w, pattern, &mut scope);
        let ghost calls = scope.calls@;
        let ghost m = formatted(told(self.env(args_view(args)), calls), pattern.view());
        proof {
            assert(begins(calls, calls));
            assert(tail(w0, w@) =~= m.out);
            assert(w@ =~= w0 + tail(w0, w@));
        }
        let Scope { bundle: _, args: _, local_args: _, errors: found, placeables: _, travelled: _,
            dirty: _, calls: _ } =
            scope;
        let ghost all = resolver_error_views(found@);
        let ghost before = fluent_error_views(errors@);
        assert(before + as_fluent_errors(all.subrange(0, 0)) =~= before);
        for e in it: found
            invariant
                resolver_error_views(it.seq()) == all,
                it.seq().len() == all.len(),
                fluent_error_views(errors@) == before + as_fluent_errors(
                    all.subrange(0, it.index()),
                ),
        {
            let ghost views = fluent_error_views(errors@);
            let ghost k = it.index();
            assert(e.view() == all[k]);
            let error = FluentError::ResolverError(e);
            errors.push(error);
            assert(fluent_error_views(errors@) =~= views.push(error.view()));
            assert(before + as_fluent_errors(all.subrange(0, k + 1)) =~= (before
                + as_fluent_errors(all.subrange(0, k))).push(error.view()));
        }
        proof {
            assert(all.subrange(0, all.len() as int) =~= all);
            assert(fluent_error_views(errors@).skip(before.len() as int) =~= as_fluent_errors(
                m.scope.errors,
            ));
            assert(formats(
                self,
                pattern.view(),
                args_view(args),
                calls,
                tail(w0, w@),
                fluent_error_views(errors@).skip(before.len() as int),
            ));
        }
    }

    /// The value of the message of that name, resolved against this bundle
    /// and the arguments, with the errors met: none where the bundle has no
    /// message of that name or the message has no value.
    pub fn format<'s, A: Slice>(&'s self, id: &str, args: Option<&'s FluentArgs<A>>) -> (r: Option<
        (String, Vec<FluentError>),
    >)
        requires
            callable(self),
        ensures
            match message_pattern(self.env(None), id@, None) {
                Some(p) => r is Some && exists|calls: Seq<CallView>| #[trigger]
                    honest(self, calls) && formats(
                        self,
                        p,
                        args_view(args),
                        calls,
                        r.unwrap().0@,
                        fluent_error_views(r.unwrap().1@),
                    ),
                None => r is None,
            },
    {
        match find_message_pattern(self, id, &None) {
            Some(pattern) => {
                let mut value = String::new();
                let mut errors: Vec<FluentError> = Vec::new();
                assert(fluent_error_views(errors@) =~= Seq::empty());
                self.format_pattern(&mut value, pattern, args, &mut errors);
                proof {
                    assert(tail(Seq::<char>::empty(), value@) =~= value@);
                    assert(fluent_error_views(errors@).skip(0) =~= fluent_error_views(errors@));
                }
                Some((value, errors))
            },
            None => None,
        }
    }
}

impl FluentValue<String> {
    /// Whether this value, the key of a variant, matches the selector `other`
    /// under the plural rules of the bundle of `scope`.
    pub fn matches<'s, R: BorrowResource, F, T, A: Slice>(
        &self,
        other: &FluentValue<String>,
        scope: &Scope<'s, R, F, T, A>,
    ) -> (r: bool)
        ensures
            r == value_matches(
                self.view(),
                other.view(),
                scope.bundle.locale_text(),
            ),
    {
        self.matches_in(other, scope.bundle.locale())
    }
}

} // verus!
