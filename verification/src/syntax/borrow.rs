use crate::syntax::ast::{
    Attribute, attribute_views, CallArguments, Comment, element_views, Expression, Identifier,
    inline_views, InlineExpression, lemma_arguments_view, lemma_pattern_view, lemma_select_view,
    Message, named_views, NamedArgument, Pattern, PatternElement, texts, Variant, variant_views,
    VariantKey,
};
use vstd::prelude::*;

verus! {

/// The lines of a comment, borrowed.
fn borrowed_lines<'s>(content: &'s Vec<String>) -> (r: Vec<&'s str>)
    ensures
        texts(r@) == texts(content@),
{
    let mut out: Vec<&'s str> = Vec::new();
    let mut i: usize = 0;
    while i < content.len()
        invariant
            i <= content.len(),
            out@.len() == i,
            forall|j: int| 0 <= j < i ==> out@[j]@ == content@[j]@,
        decreases content.len() - i,
    {
        out.push(content[i].as_str());
        i += 1;
    }
    assert(texts(out@) =~= texts(content@));
    out
}

impl Identifier<String> {
    /// The same identifier over the borrowed name.
    pub fn borrowed<'s>(&'s self) -> (r: Identifier<&'s str>)
        ensures
            r.view() == self.view(),
    {
        Identifier { name: self.name.as_str() }
    }
}

impl VariantKey<String> {
    /// The same key over the borrowed text.
    pub fn borrowed<'s>(&'s self) -> (r: VariantKey<&'s str>)
        ensures
            r.view() == self.view(),
    {
        match self {
            VariantKey::Identifier { name } => VariantKey::Identifier { name: name.as_str() },
            VariantKey::NumberLiteral { value } => VariantKey::NumberLiteral {
                value: value.as_str(),
            },
        }
    }
}

impl Comment<String> {
    /// The same comment over the borrowed lines.
    pub fn borrowed<'s>(&'s self) -> (r: Comment<&'s str>)
        ensures
            r.view() == self.view(),
    {
        match self {
            Comment::Comment { content } => Comment::Comment { content: borrowed_lines(content) },
            Comment::GroupComment { content } => Comment::GroupComment {
                content: borrowed_lines(content),
            },
            Comment::ResourceComment { content } => Comment::ResourceComment {
                content: borrowed_lines(content),
            },
        }
    }
}

impl CallArguments<String> {
    /// The same arguments over the borrowed text.
    pub fn borrowed<'s>(&'s self) -> (r: CallArguments<&'s str>)
        ensures
            r.view() == self.view(),
        decreases self,
    {
        let mut positional: Vec<InlineExpression<&'s str>> = Vec::new();
        let mut i: usize = 0;
        while i < self.positional.len()
            invariant
                i <= self.positional.len(),
                positional@.len() == i,
                forall|j: int| 0 <= j < i ==> positional@[j].view() == self.positional@[j].view(),
            decreases self.positional.len() - i,
        {
            positional.push(self.positional[i].borrowed());
            i += 1;
        }
        let mut named: Vec<NamedArgument<&'s str>> = Vec::new();
        let mut k: usize = 0;
        while k < self.named.len()
            invariant
                k <= self.named.len(),
                named@.len() == k,
                forall|j: int| 0 <= j < k ==> named@[j].view() == self.named@[j].view(),
            decreases self.named.len() - k,
        {
            let n = &self.named[k];
            named.push(NamedArgument { name: n.name.borrowed(), value: n.value.borrowed() });
            k += 1;
        }
        let r = CallArguments { positional, named };
        proof {
            lemma_arguments_view(&r);
            lemma_arguments_view(self);
            assert(inline_views(r.positional@) =~= inline_views(self.positional@));
            assert(named_views(r.named@) =~= named_views(self.named@));
        }
        r
    }
}

impl InlineExpression<String> {
    /// The same expression over the borrowed text.
    pub fn borrowed<'s>(&'s self) -> (r: InlineExpression<&'s str>)
        ensures
            r.view() == self.view(),
        decreases self,
    {
        match self {
            InlineExpression::StringLiteral { value } => InlineExpression::StringLiteral {
                value: value.as_str(),
            },
            InlineExpression::NumberLiteral { value } => InlineExpression::NumberLiteral {
                value: value.as_str(),
            },
            InlineExpression::FunctionReference { id, arguments } => {
                InlineExpression::FunctionReference {
                    id: id.borrowed(),
                    arguments: match arguments {
                        Some(a) => Some(a.borrowed()),
                        None => None,
                    },
                }
            },
            InlineExpression::MessageReference { id, attribute } => {
                InlineExpression::MessageReference {
                    id: id.borrowed(),
                    attribute: match attribute {
                        Some(a) => Some(a.borrowed()),
                        None => None,
                    },
                }
            },
            InlineExpression::TermReference { id, attribute, arguments } => {
                InlineExpression::TermReference {
                    id: id.borrowed(),
                    attribute: match attribute {
                        Some(a) => Some(a.borrowed()),
                        None => None,
                    },
                    arguments: match arguments {
                        Some(a) => Some(a.borrowed()),
                        None => None,
                    },
                }
            },
            InlineExpression::VariableReference { id } => InlineExpression::VariableReference {
                id: id.borrowed(),
            },
            InlineExpression::Placeable { expression } => InlineExpression::Placeable {
                expression: Box::new(expression.borrowed()),
            },
        }
    }
}

impl Expression<String> {
    /// The same expression over the borrowed text.
    #[verifier::loop_isolation(false)]
    pub fn borrowed<'s>(&'s self) -> (r: Expression<&'s str>)
        ensures
            r.view() == self.view(),
        decreases self,
    {
        match self {
            Expression::InlineExpression(e) => Expression::InlineExpression(e.borrowed()),
            Expression::SelectExpression { selector, variants } => {
                let mut out: Vec<Variant<&'s str>> = Vec::new();
                let mut i: usize = 0;
                while i < variants.len()
                    invariant
                        i <= variants.len(),
                        out@.len() == i,
                        forall|j: int| 0 <= j < i ==> out@[j].view() == variants@[j].view(),
                    decreases variants.len() - i,
                {
                    let v = &variants[i];
                    out.push(
                        Variant {
                            key: v.key.borrowed(),
                            value: v.value.borrowed(),
                            default: v.default,
                        },
                    );
                    i += 1;
                }
                let r = Expression::SelectExpression { selector: selector.borrowed(),
                    variants: out };
                proof {
                    lemma_select_view(&r);
                    lemma_select_view(self);
                    assert(variant_views(out@) =~= variant_views(variants@));
                }
                r
            },
        }
    }
}

impl PatternElement<String> {
    /// The same element over the borrowed text.
    pub fn borrowed<'s>(&'s self) -> (r: PatternElement<&'s str>)
        ensures
            r.view() == self.view(),
        decreases self,
    {
        match self {
            PatternElement::TextElement(s) => PatternElement::TextElement(s.as_str()),
            PatternElement::Placeable(e) => PatternElement::Placeable(e.borrowed()),
        }
    }
}

impl Pattern<String> {
    /// The same pattern over the borrowed text.
    pub fn borrowed<'s>(&'s self) -> (r: Pattern<&'s str>)
        ensures
            r.view() == self.view(),
        decreases self,
    {
        let mut elements: Vec<PatternElement<&'s str>> = Vec::new();
        let mut i: usize = 0;
        while i < self.elements.len()
            invariant
                i <= self.elements.len(),
                elements@.len() == i,
                forall|j: int| 0 <= j < i ==> elements@[j].view() == self.elements@[j].view(),
            decreases self.elements.len() - i,
        {
            elements.push(self.elements[i].borrowed());
            i += 1;
        }
        let r = Pattern { elements };
        proof {
            lemma_pattern_view(&r);
            lemma_pattern_view(self);
            assert(element_views(r.elements@) =~= element_views(self.elements@));
        }
        r
    }
}

impl Attribute<String> {
    /// The same attribute over the borrowed text.
    pub fn borrowed<'s>(&'s self) -> (r: Attribute<&'s str>)
        ensures
            r.view() == self.view(),
    {
        Attribute { id: self.id.borrowed(), value: self.value.borrowed() }
    }
}

impl Message<String> {
    /// The same message over the borrowed text.
    pub fn borrowed<'s>(&'s self) -> (r: Message<&'s str>)
        ensures
            r.view() == self.view(),
    {
        let mut attributes: Vec<Attribute<&'s str>> = Vec::new();
        let mut i: usize = 0;
        while i < self.attributes.len()
            invariant
                i <= self.attributes.len(),
                attributes@.len() == i,
                forall|j: int| 0 <= j < i ==> attributes@[j].view() == self.attributes@[j].view(),
            decreases self.attributes.len() - i,
        {
            attributes.push(self.attributes[i].borrowed());
            i += 1;
        }
        assert(attribute_views(attributes@) =~= attribute_views(self.attributes@));
        Message {
            id: self.id.borrowed(),
            value: match &self.value {
                Some(v) => Some(v.borrowed()),
                None => None,
            },
            attributes,
            comment: match &self.comment {
                Some(c) => Some(c.borrowed()),
                None => None,
            },
        }
    }
}

} // verus!
