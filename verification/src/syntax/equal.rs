use crate::syntax::ast::{
    CallArguments, element_views, Expression, Identifier, inline_views, InlineExpression,
    lemma_arguments_view, lemma_pattern_view, lemma_select_view, named_views, Pattern,
    PatternElement, variant_views, VariantKey,
};
use crate::syntax::slice::{Slice, str_eq};
use vstd::prelude::*;

verus! {

/// Whether two slices hold the same text.
pub fn same_text<S: Slice>(a: &S, b: &S) -> (r: bool)
    ensures
        r == (a.text() == b.text()),
{
    str_eq(a.as_str(), b.as_str())
}

/// Whether two identifiers have the same name.
pub fn same_identifier<S: Slice>(a: &Identifier<S>, b: &Identifier<S>) -> (r: bool)
    ensures
        r == (a.view() == b.view()),
{
    same_text(&a.name, &b.name)
}

fn same_optional_identifier<S: Slice>(a: &Option<Identifier<S>>, b: &Option<Identifier<S>>) -> (r:
    bool)
    ensures
        r == match (a, b) {
            (Some(x), Some(y)) => x.view() == y.view(),
            (None, None) => true,
            _ => false,
        },
{
    match a {
        Some(x) => match b {
            Some(y) => same_identifier(x, y),
            None => false,
        },
        None => b.is_none(),
    }
}

/// Whether two keys of variants are the same.
pub fn same_key<S: Slice>(a: &VariantKey<S>, b: &VariantKey<S>) -> (r: bool)
    ensures
        r == (a.view() == b.view()),
{
    match a {
        VariantKey::Identifier { name } => match b {
            VariantKey::Identifier { name: other } => same_text(name, other),
            _ => false,
        },
        VariantKey::NumberLiteral { value } => match b {
            VariantKey::NumberLiteral { value: other } => same_text(value, other),
            _ => false,
        },
    }
}

#[verifier::loop_isolation(false)]
fn same_optional_arguments<S: Slice>(
    a: &Option<CallArguments<S>>,
    b: &Option<CallArguments<S>>,
) -> (r: bool)
    ensures
        r == match (a, b) {
            (Some(x), Some(y)) => x.view() == y.view(),
            (None, None) => true,
            _ => false,
        },
    decreases a,
{
    match a {
        Some(x) => match b {
            Some(y) => {
                proof {
                    lemma_arguments_view(x);
                    lemma_arguments_view(y);
                }
                if x.positional.len() != y.positional.len() {
                    assert(inline_views(x.positional@).len() != inline_views(
                        y.positional@,
                    ).len());
                    return false;
                }
                if x.named.len() != y.named.len() {
                    assert(named_views(x.named@).len() != named_views(y.named@).len());
                    return false;
                }
                let mut i: usize = 0;
                while i < x.positional.len()
                    invariant
                        i <= x.positional.len(),
                        forall|j: int|
                            0 <= j < i ==> x.positional@[j].view() == y.positional@[j].view(),
                    decreases x.positional.len() - i,
                {
                    if !same_inline(&x.positional[i], &y.positional[i]) {
                        assert(inline_views(x.positional@)[i as int] != inline_views(
                            y.positional@,
                        )[i as int]);
                        return false;
                    }
                    i += 1;
                }
                let mut k: usize = 0;
                while k < x.named.len()
                    invariant
                        k <= x.named.len(),
                        forall|j: int| 0 <= j < k ==> x.named@[j].view() == y.named@[j].view(),
                    decreases x.named.len() - k,
                {
                    if !same_identifier(&x.named[k].name, &y.named[k].name) || !same_inline(
                        &x.named[k].value,
                        &y.named[k].value,
                    ) {
                        assert(named_views(x.named@)[k as int] != named_views(y.named@)[k as int]);
                        return false;
                    }
                    k += 1;
                }
                assert(inline_views(x.positional@) =~= inline_views(y.positional@));
                assert(named_views(x.named@) =~= named_views(y.named@));
                true
            },
            None => false,
        },
        None => b.is_none(),
    }
}

/// Whether two inline expressions are the same.
pub fn same_inline<S: Slice>(a: &InlineExpression<S>, b: &InlineExpression<S>) -> (r: bool)
    ensures
        r == (a.view() == b.view()),
    decreases a,
{
    match a {
        InlineExpression::StringLiteral { value } => match b {
            InlineExpression::StringLiteral { value: other } => same_text(value, other),
            _ => false,
        },
        InlineExpression::NumberLiteral { value } => match b {
            InlineExpression::NumberLiteral { value: other } => same_text(value, other),
            _ => false,
        },
        InlineExpression::FunctionReference { id, arguments } => match b {
            InlineExpression::FunctionReference { id: other, arguments: others } => {
                same_identifier(id, other) && same_optional_arguments(arguments, others)
            },
            _ => false,
        },
        InlineExpression::MessageReference { id, attribute } => match b {
            InlineExpression::MessageReference { id: other, attribute: others } => {
                same_identifier(id, other) && same_optional_identifier(attribute, others)
            },
            _ => false,
        },
        InlineExpression::TermReference { id, attribute, arguments } => match b {
            InlineExpression::TermReference { id: i2, attribute: a2, arguments: g2 } => {
                same_identifier(id, i2) && same_optional_identifier(attribute, a2)
                    && same_optional_arguments(arguments, g2)
            },
            _ => false,
        },
        InlineExpression::VariableReference { id } => match b {
            InlineExpression::VariableReference { id: other } => same_identifier(id, other),
            _ => false,
        },
        InlineExpression::Placeable { expression } => match b {
            InlineExpression::Placeable { expression: other } => same_expression(
                expression,
                other,
            ),
            _ => false,
        },
    }
}

/// Whether two expressions are the same.
#[verifier::loop_isolation(false)]
pub fn same_expression<S: Slice>(a: &Expression<S>, b: &Expression<S>) -> (r: bool)
    ensures
        r == (a.view() == b.view()),
    decreases a,
{
    match a {
        Expression::InlineExpression(x) => match b {
            Expression::InlineExpression(y) => same_inline(x, y),
            _ => false,
        },
        Expression::SelectExpression { selector, variants } => match b {
            Expression::SelectExpression { selector: s2, variants: v2 } => {
                proof {
                    lemma_select_view(a);
                    lemma_select_view(b);
                }
                if !same_inline(selector, s2) {
                    return false;
                }
                if variants.len() != v2.len() {
                    assert(variant_views(variants@).len() != variant_views(v2@).len());
                    return false;
                }
                let mut i: usize = 0;
                while i < variants.len()
                    invariant
                        i <= variants.len(),
                        forall|j: int| 0 <= j < i ==> variants@[j].view() == v2@[j].view(),
                    decreases variants.len() - i,
                {
                    let x = &variants[i];
                    let y = &v2[i];
                    if !same_key(&x.key, &y.key) || x.default != y.default || !same_pattern(
                        &x.value,
                        &y.value,
                    ) {
                        assert(variant_views(variants@)[i as int] != variant_views(v2@)[i as int]);
                        return false;
                    }
                    i += 1;
                }
                assert(variant_views(variants@) =~= variant_views(v2@));
                true
            },
            _ => false,
        },
    }
}

/// Whether two patterns are the same.
#[verifier::loop_isolation(false)]
pub fn same_pattern<S: Slice>(a: &Pattern<S>, b: &Pattern<S>) -> (r: bool)
    ensures
        r == (a.view() == b.view()),
    decreases a,
{
    proof {
        lemma_pattern_view(a);
        lemma_pattern_view(b);
    }
    if a.elements.len() != b.elements.len() {
        assert(element_views(a.elements@).len() != element_views(b.elements@).len());
        return false;
    }
    let mut i: usize = 0;
    while i < a.elements.len()
        invariant
            i <= a.elements.len(),
            forall|j: int| 0 <= j < i ==> a.elements@[j].view() == b.elements@[j].view(),
        decreases a.elements.len() - i,
    {
        let same = match &a.elements[i] {
            PatternElement::TextElement(x) => match &b.elements[i] {
                PatternElement::TextElement(y) => same_text(x, y),
                _ => false,
            },
            PatternElement::Placeable(x) => match &b.elements[i] {
                PatternElement::Placeable(y) => same_expression(x, y),
                _ => false,
            },
        };
        if !same {
            assert(element_views(a.elements@)[i as int] != element_views(b.elements@)[i as int]);
            return false;
        }
        i += 1;
    }
    assert(element_views(a.elements@) =~= element_views(b.elements@));
    true
}

} // verus!
