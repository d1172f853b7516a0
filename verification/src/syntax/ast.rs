use crate::syntax::slice::Slice;
use vstd::prelude::*;

verus! {

/// A parsed document: entries and junk in the order of the source.
#[derive(Debug, PartialEq)]
pub struct Resource<S> {
    pub body: Vec<ResourceEntry<S>>,
}

#[derive(Debug, PartialEq)]
pub enum ResourceEntry<S> {
    Entry(Entry<S>),
    /// Source text that could not be parsed, kept as it was.
    Junk(S),
}

#[derive(Debug, PartialEq)]
pub enum Entry<S> {
    Message(Message<S>),
    Term(Term<S>),
    Comment(Comment<S>),
}

#[derive(Debug, PartialEq)]
pub struct Message<S> {
    pub id: Identifier<S>,
    pub value: Option<Pattern<S>>,
    pub attributes: Vec<Attribute<S>>,
    pub comment: Option<Comment<S>>,
}

#[derive(Debug, PartialEq)]
pub struct Term<S> {
    pub id: Identifier<S>,
    pub value: Pattern<S>,
    pub attributes: Vec<Attribute<S>>,
    pub comment: Option<Comment<S>>,
}

#[derive(Debug, PartialEq)]
pub struct Pattern<S> {
    pub elements: Vec<PatternElement<S>>,
}

#[derive(Debug, PartialEq)]
pub enum PatternElement<S> {
    TextElement(S),
    Placeable(Expression<S>),
}

#[derive(Debug, PartialEq)]
pub struct Attribute<S> {
    pub id: Identifier<S>,
    pub value: Pattern<S>,
}

#[derive(Debug, PartialEq, Clone)]
pub struct Identifier<S> {
    pub name: S,
}

#[derive(Debug, PartialEq)]
pub struct Variant<S> {
    pub key: VariantKey<S>,
    pub value: Pattern<S>,
    pub default: bool,
}

#[derive(Debug, PartialEq, Clone)]
pub enum VariantKey<S> {
    Identifier { name: S },
    NumberLiteral { value: S },
}

#[allow(inconsistent_fields)]
#[derive(Debug, PartialEq, Clone)]
pub enum Comment<S> {
    Comment { content: Vec<S> },
    GroupComment { content: Vec<S> },
    ResourceComment { content: Vec<S> },
}

#[derive(Debug, PartialEq)]
pub enum InlineExpression<S> {
    StringLiteral { value: S },
    NumberLiteral { value: S },
    FunctionReference { id: Identifier<S>, arguments: Option<CallArguments<S>> },
    MessageReference { id: Identifier<S>, attribute: Option<Identifier<S>> },
    TermReference {
        id: Identifier<S>,
        attribute: Option<Identifier<S>>,
        arguments: Option<CallArguments<S>>,
    },
    VariableReference { id: Identifier<S> },
    Placeable { expression: Box<Expression<S>> },
}

#[derive(Debug, PartialEq)]
pub struct CallArguments<S> {
    pub positional: Vec<InlineExpression<S>>,
    pub named: Vec<NamedArgument<S>>,
}

#[derive(Debug, PartialEq)]
pub struct NamedArgument<S> {
    pub name: Identifier<S>,
    pub value: InlineExpression<S>,
}

#[derive(Debug, PartialEq)]
pub enum Expression<S> {
    InlineExpression(InlineExpression<S>),
    SelectExpression { selector: InlineExpression<S>, variants: Vec<Variant<S>> },
}

/// The content of a comment as one line or as several.
#[allow(inconsistent_fields)]
#[derive(Debug, PartialEq, Clone)]
pub enum CommentDef<S> {
    Single { content: S },
    Multi { content: Vec<S> },
}

// The mathematical content of each node: slices become their text, vectors
// become sequences.

pub ghost struct ResourceView {
    pub body: Seq<ResourceEntryView>,
}

pub ghost enum ResourceEntryView {
    Entry(EntryView),
    Junk(Seq<char>),
}

pub ghost enum EntryView {
    Message(MessageView),
    Term(TermView),
    Comment(CommentView),
}

pub ghost struct MessageView {
    pub id: Seq<char>,
    pub value: Option<PatternView>,
    pub attributes: Seq<AttributeView>,
    pub comment: Option<CommentView>,
}

pub ghost struct TermView {
    pub id: Seq<char>,
    pub value: PatternView,
    pub attributes: Seq<AttributeView>,
    pub comment: Option<CommentView>,
}

pub ghost struct PatternView {
    pub elements: Seq<PatternElementView>,
}

pub ghost enum PatternElementView {
    TextElement(Seq<char>),
    Placeable(ExpressionView),
}

pub ghost struct AttributeView {
    pub id: Seq<char>,
    pub value: PatternView,
}

pub ghost struct VariantView {
    pub key: VariantKeyView,
    pub value: PatternView,
    pub default: bool,
}

pub ghost enum VariantKeyView {
    Identifier { name: Seq<char> },
    NumberLiteral { value: Seq<char> },
}

pub ghost enum CommentView {
    Comment { content: Seq<Seq<char>> },
    GroupComment { content: Seq<Seq<char>> },
    ResourceComment { content: Seq<Seq<char>> },
}

pub ghost enum InlineExpressionView {
    StringLiteral { value: Seq<char> },
    NumberLiteral { value: Seq<char> },
    FunctionReference { id: Seq<char>, arguments: Option<CallArgumentsView> },
    MessageReference { id: Seq<char>, attribute: Option<Seq<char>> },
    TermReference { id: Seq<char>, attribute: Option<Seq<char>>,
        arguments: Option<CallArgumentsView> },
    VariableReference { id: Seq<char> },
    Placeable { expression: Box<ExpressionView> },
}

pub ghost struct CallArgumentsView {
    pub positional: Seq<InlineExpressionView>,
    pub named: Seq<NamedArgumentView>,
}

pub ghost struct NamedArgumentView {
    pub name: Seq<char>,
    pub value: InlineExpressionView,
}

pub ghost enum ExpressionView {
    InlineExpression(InlineExpressionView),
    SelectExpression { selector: InlineExpressionView, variants: Seq<VariantView> },
}

impl<S: Slice> CommentDef<S> {
    /// The comment with that content: one line for the single form, the
    /// lines for the other.
    pub fn into_comment(self) -> (r: Comment<S>)
        ensures
            r.view() == (CommentView::Comment {
                content: match self {
                    CommentDef::Single { content } => seq![content.text()],
                    CommentDef::Multi { content } => texts(content@),
                },
            }),
    {
        match self {
            CommentDef::Single { content } => {
                let mut lines: Vec<S> = Vec::new();
                lines.push(content);
                assert(texts(lines@) =~= seq![content.text()]);
                Comment::Comment { content: lines }
            },
            CommentDef::Multi { content } => Comment::Comment { content },
        }
    }
}

/// The texts of a vector of slices.
pub open spec fn texts<S: Slice>(v: Seq<S>) -> Seq<Seq<char>> {
    Seq::new(v.len(), |i: int| v[i].text())
}

impl<S: Slice> Identifier<S> {
    pub open spec fn view(&self) -> Seq<char> {
        self.name.text()
    }
}

impl<S: Slice> VariantKey<S> {
    pub open spec fn view(&self) -> VariantKeyView {
        match self {
            VariantKey::Identifier { name } => VariantKeyView::Identifier { name: name.text() },
            VariantKey::NumberLiteral { value } => VariantKeyView::NumberLiteral {
                value: value.text(),
            },
        }
    }
}

impl<S: Slice> Comment<S> {
    pub open spec fn view(&self) -> CommentView {
        match self {
            Comment::Comment { content } => CommentView::Comment { content: texts(content@) },
            Comment::GroupComment { content } => CommentView::GroupComment {
                content: texts(content@),
            },
            Comment::ResourceComment { content } => CommentView::ResourceComment {
                content: texts(content@),
            },
        }
    }
}

impl<S: Slice> Expression<S> {
    pub open spec fn view(&self) -> ExpressionView
        decreases self,
    {
        match self {
            Expression::InlineExpression(e) => ExpressionView::InlineExpression(e.view()),
            Expression::SelectExpression { selector,
                variants } => ExpressionView::SelectExpression {
                selector: selector.view(),
                variants: Seq::new(variants@.len(),
                    |i: int| if 0 <= i < variants@.len() { variants@[i].view() } else { arbitrary() }),
            },
        }
    }
}

impl<S: Slice> InlineExpression<S> {
    pub open spec fn view(&self) -> InlineExpressionView
        decreases self,
    {
        match self {
            InlineExpression::StringLiteral { value } => InlineExpressionView::StringLiteral {
                value: value.text(),
            },
            InlineExpression::NumberLiteral { value } => InlineExpressionView::NumberLiteral {
                value: value.text(),
            },
            InlineExpression::FunctionReference { id, arguments } => {
                InlineExpressionView::FunctionReference {
                    id: id.view(),
                    arguments: match arguments {
                        Some(a) => Some(a.view()),
                        None => None,
                    },
                }
            },
            InlineExpression::MessageReference { id, attribute } => {
                InlineExpressionView::MessageReference {
                    id: id.view(),
                    attribute: match attribute {
                        Some(a) => Some(a.view()),
                        None => None,
                    },
                }
            },
            InlineExpression::TermReference { id, attribute, arguments } => {
                InlineExpressionView::TermReference {
                    id: id.view(),
                    attribute: match attribute {
                        Some(a) => Some(a.view()),
                        None => None,
                    },
                    arguments: match arguments {
                        Some(a) => Some(a.view()),
                        None => None,
                    },
                }
            },
            InlineExpression::VariableReference { id } => InlineExpressionView::VariableReference {
                id: id.view(),
            },
            InlineExpression::Placeable { expression } => InlineExpressionView::Placeable {
                expression: Box::new(expression.view()),
            },
        }
    }
}

impl<S: Slice> CallArguments<S> {
    pub open spec fn view(&self) -> CallArgumentsView
        decreases self,
    {
        CallArgumentsView {
            positional: Seq::new(self.positional@.len(),
                |i: int| if 0 <= i < self.positional@.len() { self.positional@[i].view() } else { arbitrary() }),
            named: Seq::new(self.named@.len(),
                |i: int| if 0 <= i < self.named@.len() { self.named@[i].view() } else { arbitrary() }),
        }
    }
}

impl<S: Slice> NamedArgument<S> {
    pub open spec fn view(&self) -> NamedArgumentView
        decreases self,
    {
        NamedArgumentView { name: self.name.view(), value: self.value.view() }
    }
}

impl<S: Slice> Variant<S> {
    pub open spec fn view(&self) -> VariantView
        decreases self,
    {
        VariantView { key: self.key.view(), value: self.value.view(), default: self.default }
    }
}

impl<S: Slice> Pattern<S> {
    pub open spec fn view(&self) -> PatternView
        decreases self,
    {
        PatternView { elements: Seq::new(self.elements@.len(),
            |i: int| if 0 <= i < self.elements@.len() { self.elements@[i].view() } else { arbitrary() }) }
    }
}

impl<S: Slice> PatternElement<S> {
    pub open spec fn view(&self) -> PatternElementView
        decreases self,
    {
        match self {
            PatternElement::TextElement(s) => PatternElementView::TextElement(s.text()),
            PatternElement::Placeable(e) => PatternElementView::Placeable(e.view()),
        }
    }
}

impl<S: Slice> Attribute<S> {
    pub open spec fn view(&self) -> AttributeView {
        AttributeView { id: self.id.view(), value: self.value.view() }
    }
}

/// The views of a vector of inline expressions.
pub open spec fn inline_views<S: Slice>(v: Seq<InlineExpression<S>>) -> Seq<InlineExpressionView> {
    Seq::new(v.len(), |i: int| v[i].view())
}

/// The views of a vector of named arguments.
pub open spec fn named_views<S: Slice>(v: Seq<NamedArgument<S>>) -> Seq<NamedArgumentView> {
    Seq::new(v.len(), |i: int| v[i].view())
}

/// The views of a vector of variants.
pub open spec fn variant_views<S: Slice>(v: Seq<Variant<S>>) -> Seq<VariantView> {
    Seq::new(v.len(), |i: int| v[i].view())
}

/// The views of a vector of pattern elements.
pub open spec fn element_views<S: Slice>(v: Seq<PatternElement<S>>) -> Seq<PatternElementView> {
    Seq::new(v.len(), |i: int| v[i].view())
}

/// The views of a vector of entries.
pub open spec fn entry_views<S: Slice>(v: Seq<ResourceEntry<S>>) -> Seq<ResourceEntryView> {
    Seq::new(v.len(), |i: int| v[i].view())
}

pub proof fn lemma_pattern_view<S: Slice>(p: &Pattern<S>)
    ensures
        p.view().elements == element_views(p.elements@),
{
    assert(p.view().elements =~= element_views(p.elements@));
}

pub proof fn lemma_arguments_view<S: Slice>(a: &CallArguments<S>)
    ensures
        a.view().positional == inline_views(a.positional@),
        a.view().named == named_views(a.named@),
{
    assert(a.view().positional =~= inline_views(a.positional@));
    assert(a.view().named =~= named_views(a.named@));
}

pub proof fn lemma_select_view<S: Slice>(e: &Expression<S>)
    ensures
        e matches Expression::SelectExpression { selector, variants } ==> e.view()
            == (ExpressionView::SelectExpression {
            selector: selector.view(),
            variants: variant_views(variants@),
        }),
{
    match e {
        Expression::SelectExpression { selector, variants } => {
            assert(e.view()->SelectExpression_variants =~= variant_views(variants@));
        },
        _ => {},
    }
}

/// The views of a vector of attributes.
pub open spec fn attribute_views<S: Slice>(v: Seq<Attribute<S>>) -> Seq<AttributeView> {
    Seq::new(v.len(), |i: int| v[i].view())
}

impl<S: Slice> Message<S> {
    pub open spec fn view(&self) -> MessageView {
        MessageView {
            id: self.id.view(),
            value: match self.value {
                Some(p) => Some(p.view()),
                None => None,
            },
            attributes: attribute_views(self.attributes@),
            comment: match self.comment {
                Some(c) => Some(c.view()),
                None => None,
            },
        }
    }
}

impl<S: Slice> Term<S> {
    pub open spec fn view(&self) -> TermView {
        TermView {
            id: self.id.view(),
            value: self.value.view(),
            attributes: attribute_views(self.attributes@),
            comment: match self.comment {
                Some(c) => Some(c.view()),
                None => None,
            },
        }
    }
}

impl<S: Slice> Entry<S> {
    pub open spec fn view(&self) -> EntryView {
        match self {
            Entry::Message(m) => EntryView::Message(m.view()),
            Entry::Term(t) => EntryView::Term(t.view()),
            Entry::Comment(c) => EntryView::Comment(c.view()),
        }
    }
}

impl<S: Slice> ResourceEntry<S> {
    pub open spec fn view(&self) -> ResourceEntryView {
        match self {
            ResourceEntry::Entry(e) => ResourceEntryView::Entry(e.view()),
            ResourceEntry::Junk(s) => ResourceEntryView::Junk(s.text()),
        }
    }
}

impl<S: Slice> Resource<S> {
    pub open spec fn view(&self) -> ResourceView {
        ResourceView { body: entry_views(self.body@) }
    }
}

} // verus!
