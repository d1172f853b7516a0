use crate::bundle::errors::FluentErrorView;
use crate::bundle::fluent_bundle::{BorrowResource, FluentBundle};
use crate::bundle::rendering::{
    ArgsView, asking, CallView, chosen_variant, Env, follows, formatted, fresh_scope, FSI,
    MAX_PLACEABLES, message_pattern, Outcome, PDI, reference_error, reference_text,
    resolve_arguments, resolve_inline, resolve_named, resolve_positional, ResolverErrorView,
    ScopeView, term_pattern, transformed, ValueView, with_error, with_local, with_travelled,
    write_elements, write_expression, write_inline, write_referenced,
};
use crate::bundle::resolver::formats;
use crate::syntax::ast::{
    CallArgumentsView, ExpressionView, InlineExpressionView, NamedArgumentView, PatternElementView,
    PatternView,
};
use vstd::prelude::*;

verus! {

/// A placeable is written between isolation marks where the bundle isolates,
/// its pattern has more than one element and it is no bare reference to a
/// message or a term and no string literal; else it is written as it is.
pub proof fn law_isolation(env: Env, p: PatternView, i: int, sc: ScopeView)
    requires
        0 <= i < p.elements.len(),
        p.elements[i] is Placeable,
        !sc.dirty,
        sc.placeables < MAX_PLACEABLES,
    ensures
        ({
            let e = p.elements[i]->Placeable_0;
            let counted = ScopeView {
                errors: sc.errors,
                placeables: sc.placeables + 1,
                travelled: if sc.travelled.len() == 0 {
                    seq![p]
                } else {
                    sc.travelled
                },
                dirty: sc.dirty,
                local_args: sc.local_args,
                asked: sc.asked,
            };
            let r = write_expression(env, e, counted);
            let rest = write_elements(env, p, i + 1, r.scope);
            r.decided && follows(counted, r.scope) ==> write_elements(env, p, i, sc).out
                == if env.use_isolating
                && p.elements.len() > 1 && !(e matches ExpressionView::InlineExpression(x) && (x
                is MessageReference || x is TermReference || x is StringLiteral)) {
                seq![FSI] + r.out + seq![PDI] + rest.out
            } else {
                r.out + rest.out
            }
        }),
{
}

/// A reference to a pattern that is under way is cyclic: it leaves an error
/// and is written in braces, and the pattern is not entered again.
pub proof fn law_cyclic_reference(env: Env, p: PatternView, e: InlineExpressionView, sc: ScopeView)
    requires
        sc.travelled.contains(p),
    ensures
        write_referenced(env, Some(p), e, sc) == (Outcome {
            out: "{"@ + reference_text(e) + "}"@,
            scope: with_error(sc, ResolverErrorView::Cyclic(reference_text(e))),
            decided: true,
        }),
{
}

/// The count of placeables is within its limit, and where it has passed the
/// limit the call has given up and says so.
pub open spec fn bounded(sc: ScopeView) -> bool {
    &&& sc.placeables <= MAX_PLACEABLES + 1
    &&& sc.placeables > MAX_PLACEABLES ==> sc.dirty && sc.errors.contains(
        ResolverErrorView::TooManyPlaceables,
    )
}

/// The state `after` comes from `before` by steps of the resolver: no error
/// is lost and no placeable uncounted.
pub open spec fn grown(before: ScopeView, after: ScopeView) -> bool {
    &&& before.errors.is_prefix_of(after.errors)
    &&& before.placeables <= after.placeables
    &&& bounded(before) ==> bounded(after)
}

proof fn lemma_grown_error(sc: ScopeView, e: ResolverErrorView)
    ensures
        grown(sc, with_error(sc, e)),
{
    if bounded(sc) && sc.placeables > MAX_PLACEABLES {
        let i = choose|i: int|
            0 <= i < sc.errors.len() && sc.errors[i] == ResolverErrorView::TooManyPlaceables;
        assert(sc.errors.push(e)[i] == ResolverErrorView::TooManyPlaceables);
    }
}

/// Writing the elements of a pattern loses no error and keeps the count of
/// placeables within its limit.
pub proof fn law_elements_bounded(env: Env, p: PatternView, i: int, sc: ScopeView)
    ensures
        grown(sc, write_elements(env, p, i, sc).scope),
    decreases MAX_PLACEABLES + 1 - sc.placeables, 0int, p, p.elements.len() - i,
{
    if !(0 <= i < p.elements.len()) || sc.dirty {
    } else if sc.placeables > MAX_PLACEABLES + 1 {
    } else {
        match p.elements[i] {
            PatternElementView::TextElement(t) => {
                if !env.has_transform {
                    law_elements_bounded(env, p, i + 1, sc);
                } else if transformed(env, sc, t) is Some {
                    law_elements_bounded(env, p, i + 1, asking(sc));
                }
            },
            PatternElementView::Placeable(e) => {
                let counted = ScopeView {
                    errors: sc.errors,
                    placeables: sc.placeables + 1,
                    travelled: sc.travelled,
                    dirty: sc.dirty,
                    local_args: sc.local_args,
                    asked: sc.asked,
                };
                if counted.placeables > MAX_PLACEABLES {
                    let last = sc.errors.push(ResolverErrorView::TooManyPlaceables);
                    assert(last[sc.errors.len() as int] == ResolverErrorView::TooManyPlaceables);
                } else {
                    let entered = if counted.travelled.len() == 0 {
                        with_travelled(counted, seq![p])
                    } else {
                        counted
                    };
                    law_expression_bounded(env, e, entered);
                    let r = write_expression(env, e, entered);
                    if r.decided && follows(entered, r.scope) {
                        law_elements_bounded(env, p, i + 1, r.scope);
                    }
                }
            },
        }
    }
}

/// Writing an expression loses no error and keeps the count of placeables
/// within its limit.
pub proof fn law_expression_bounded(env: Env, e: ExpressionView, sc: ScopeView)
    ensures
        grown(sc, write_expression(env, e, sc).scope),
    decreases MAX_PLACEABLES + 1 - sc.placeables, 1int, e, 0int,
{
    if sc.placeables > MAX_PLACEABLES + 1 {
    } else {
        match e {
            ExpressionView::InlineExpression(i) => {
                law_inline_bounded(env, i, sc);
            },
            ExpressionView::SelectExpression { selector, variants } => {
                law_resolve_bounded(env, selector, sc);
                let s = resolve_inline(env, selector, sc);
                if s.decided && follows(sc, s.scope) {
                    match chosen_variant(variants, s.value, env.locale) {
                        Some(j) => {
                            law_elements_bounded(env, variants[j].value, 0, s.scope);
                        },
                        None => {
                            lemma_grown_error(s.scope, ResolverErrorView::MissingDefault);
                        },
                    }
                }
            },
        }
    }
}

/// Writing the pattern that a reference leads to loses no error and keeps
/// the count of placeables within its limit.
pub proof fn law_referenced_bounded(
    env: Env,
    found: Option<PatternView>,
    e: InlineExpressionView,
    sc: ScopeView,
)
    ensures
        grown(sc, write_referenced(env, found, e, sc).scope),
    decreases MAX_PLACEABLES + 1 - sc.placeables, 1int, e, 0int,
{
    match found {
        Some(p) => {
            if sc.travelled.contains(p) {
                lemma_grown_error(sc, ResolverErrorView::Cyclic(reference_text(e)));
            } else if sc.placeables > MAX_PLACEABLES + 1 {
            } else {
                law_elements_bounded(env, p, 0, with_travelled(sc, sc.travelled.push(p)));
            }
        },
        None => {
            lemma_grown_error(
                sc,
                ResolverErrorView::Reference(reference_error(e)),
            );
        },
    }
}

/// Writing an inline expression loses no error and keeps the count of
/// placeables within its limit.
pub proof fn law_inline_bounded(env: Env, e: InlineExpressionView, sc: ScopeView)
    ensures
        grown(sc, write_inline(env, e, sc).scope),
    decreases MAX_PLACEABLES + 1 - sc.placeables, 1int, e, 1int,
{
    if sc.placeables > MAX_PLACEABLES + 1 {
    } else {
        match e {
            InlineExpressionView::StringLiteral { value } => {},
            InlineExpressionView::NumberLiteral { value } => {},
            InlineExpressionView::MessageReference { id, attribute } => {
                law_referenced_bounded(env, message_pattern(env, id, attribute), e, sc);
            },
            InlineExpressionView::TermReference { id, attribute, arguments } => {
                law_arguments_bounded(env, arguments, sc);
                let a = resolve_arguments(env, arguments, sc);
                if a.decided && follows(sc, a.scope) {
                    law_referenced_bounded(
                        env,
                        term_pattern(env, id, attribute),
                        e,
                        with_local(a.scope, Some(a.named)),
                    );
                }
            },
            InlineExpressionView::FunctionReference { id, arguments } => {
                law_arguments_bounded(env, arguments, sc);
                let a = resolve_arguments(env, arguments, sc);
                lemma_grown_error(
                    a.scope,
                    ResolverErrorView::Reference(reference_error(e)),
                );
            },
            InlineExpressionView::VariableReference { id } => {
                lemma_grown_error(
                    sc,
                    ResolverErrorView::Reference(reference_error(e)),
                );
            },
            InlineExpressionView::Placeable { expression } => {
                law_expression_bounded(env, *expression, sc);
            },
        }
    }
}

/// Resolving an inline expression loses no error and keeps the count of
/// placeables within its limit.
pub proof fn law_resolve_bounded(env: Env, e: InlineExpressionView, sc: ScopeView)
    ensures
        grown(sc, resolve_inline(env, e, sc).scope),
    decreases MAX_PLACEABLES + 1 - sc.placeables, 1int, e, 2int,
{
    match e {
        InlineExpressionView::StringLiteral { value } => {},
        InlineExpressionView::NumberLiteral { value } => {},
        InlineExpressionView::VariableReference { id } => {
            lemma_grown_error(
                sc,
                ResolverErrorView::Reference(reference_error(e)),
            );
        },
        _ => {
            if sc.placeables <= MAX_PLACEABLES + 1 {
                law_inline_bounded(env, e, sc);
            }
        },
    }
}

/// Resolving positional arguments loses no error and keeps the count of
/// placeables within its limit.
pub proof fn law_positional_bounded(
    env: Env,
    args: Seq<InlineExpressionView>,
    i: int,
    acc: Seq<ValueView>,
    sc: ScopeView,
)
    ensures
        grown(sc, resolve_positional(env, args, i, acc, sc).1),
    decreases MAX_PLACEABLES + 1 - sc.placeables, 1int, args, args.len() - i,
{
    if !(0 <= i < args.len()) {
    } else if sc.placeables > MAX_PLACEABLES + 1 {
    } else {
        law_resolve_bounded(env, args[i], sc);
        let r = resolve_inline(env, args[i], sc);
        if r.decided && follows(sc, r.scope) {
            law_positional_bounded(env, args, i + 1, acc.push(r.value), r.scope);
        }
    }
}

/// Resolving named arguments loses no error and keeps the count of
/// placeables within its limit.
pub proof fn law_named_bounded(
    env: Env,
    args: Seq<NamedArgumentView>,
    i: int,
    acc: ArgsView,
    sc: ScopeView,
)
    ensures
        grown(sc, resolve_named(env, args, i, acc, sc).1),
    decreases MAX_PLACEABLES + 1 - sc.placeables, 1int, args, args.len() - i,
{
    if !(0 <= i < args.len()) {
    } else if sc.placeables > MAX_PLACEABLES + 1 {
    } else {
        law_resolve_bounded(env, args[i].value, sc);
        let r = resolve_inline(env, args[i].value, sc);
        if r.decided && follows(sc, r.scope) {
            law_named_bounded(env, args, i + 1, acc.push((args[i].name, r.value)), r.scope);
        }
    }
}

/// Resolving the arguments of a call loses no error and keeps the count of
/// placeables within its limit.
pub proof fn law_arguments_bounded(env: Env, arguments: Option<CallArgumentsView>, sc: ScopeView)
    ensures
        grown(sc, resolve_arguments(env, arguments, sc).scope),
    decreases MAX_PLACEABLES + 1 - sc.placeables, 1int, arguments, 0int,
{
    match arguments {
        None => {},
        Some(a) => {
            law_positional_bounded(env, a.positional, 0, Seq::empty(), sc);
            let (positional, sc1, d1) = resolve_positional(env, a.positional, 0, Seq::empty(), sc);
            if d1 && follows(sc, sc1) {
                law_named_bounded(env, a.named, 0, Seq::empty(), sc1);
            }
        },
    }
}

/// One call counts at most one placeable more than the limit, and where it
/// has counted that one it has given up and says that there were too many.
pub proof fn law_placeable_bound(env: Env, p: PatternView)
    ensures
        formatted(env, p).scope.placeables <= MAX_PLACEABLES + 1,
        formatted(env, p).scope.placeables > MAX_PLACEABLES ==> formatted(env, p).scope.dirty
            && formatted(env, p).scope.errors.contains(ResolverErrorView::TooManyPlaceables),
{
    law_elements_bounded(env, p, 0, fresh_scope());
}

/// Two calls of the resolver on the same pattern with the same arguments, in
/// which the functions and the transform of the bundle are called alike and
/// return the same, write the same text and meet the same errors.
pub proof fn law_same_calls<R: BorrowResource, F, T>(
    bundle: &FluentBundle<R, F, T>,
    p: PatternView,
    args: Option<ArgsView>,
    calls: Seq<CallView>,
    first: (Seq<char>, Seq<FluentErrorView>),
    second: (Seq<char>, Seq<FluentErrorView>),
)
    requires
        formats(bundle, p, args, calls, first.0, first.1),
        formats(bundle, p, args, calls, second.0, second.1),
    ensures
        first == second,
{
}

} // verus!
