use crate::bundle::number::{is_number, same_number};
use crate::bundle::unicode::unescaped;
use crate::syntax::ast::{
    AttributeView, CallArgumentsView, EntryView, ExpressionView, InlineExpressionView, MessageView,
    NamedArgumentView, PatternElementView, PatternView, ResourceEntryView, ResourceView, TermView,
    VariantKeyView, VariantView,
};
use vstd::prelude::*;
use vstd::utf8::*;

verus! {

/// How many placeables one call may resolve.
pub const MAX_PLACEABLES: u8 = 100;

/// A value at run time: text, a number as it was written, or an error.
pub ghost enum ValueView {
    String(Seq<char>),
    Number(Seq<char>),
    Error,
}

/// What the resolver found wrong.
pub ghost enum ResolverErrorView {
    Reference(Seq<char>),
    Cyclic(Seq<char>),
    TooManyPlaceables,
    MissingDefault,
}

/// The plural categories.
#[derive(PartialEq, Eq, Structural, Clone, Copy, Debug)]
pub enum PluralCategory {
    Zero,
    One,
    Two,
    Few,
    Many,
    Other,
}

pub type ArgsView = Seq<(Seq<char>, ValueView)>;

/// One call that the resolver makes into the code of the caller: of a
/// function of the bundle, with what it was handed and what it returned, or
/// of the transform, with the text that it was given and the text that came
/// back.
pub ghost enum CallView {
    Function { name: Seq<char>, positional: Seq<ValueView>, named: ArgsView, result: ValueView },
    Transform { text: Seq<char>, result: Seq<char> },
}

/// The state of one call of the resolver.
pub ghost struct ScopeView {
    pub errors: Seq<ResolverErrorView>,
    pub placeables: nat,
    pub travelled: Seq<PatternView>,
    pub dirty: bool,
    pub local_args: Option<ArgsView>,
    /// How many calls into the code of the caller were made.
    pub asked: nat,
}

/// What the resolver reads and does not change: the resources of the bundle
/// in the order in which they were added, the names of its functions, its
/// flags, its locale, the arguments of the call, and the calls into the code
/// of the caller, in the order in which they are made, with what each
/// returns.
pub ghost struct Env {
    pub resources: Seq<ResourceView>,
    pub functions: Seq<Seq<char>>,
    pub use_isolating: bool,
    pub has_transform: bool,
    pub locale: Seq<char>,
    pub args: Option<ArgsView>,
    pub calls: Seq<CallView>,
}

/// What a node writes and the state it leaves. It is decided where the calls
/// of `Env` hold every call that the node makes.
pub ghost struct Outcome {
    pub out: Seq<char>,
    pub scope: ScopeView,
    pub decided: bool,
}

/// The value of a node and the state it leaves.
pub ghost struct Resolved {
    pub value: ValueView,
    pub scope: ScopeView,
    pub decided: bool,
}

/// The arguments of a call and the state they leave.
pub ghost struct ResolvedArguments {
    pub positional: Seq<ValueView>,
    pub named: ArgsView,
    pub scope: ScopeView,
    pub decided: bool,
}

/// The category that the cardinal plural rules of `locale` give to `number`.
/// None where the locale has no rules or the number cannot be read.
pub uninterp spec fn plural_category(locale: Seq<char>, number: Seq<char>) -> Option<
    PluralCategory,
>;

/// The category that a name stands for.
pub open spec fn category_named(name: Seq<char>) -> Option<PluralCategory> {
    if name == "zero"@ {
        Some(PluralCategory::Zero)
    } else if name == "one"@ {
        Some(PluralCategory::One)
    } else if name == "two"@ {
        Some(PluralCategory::Two)
    } else if name == "few"@ {
        Some(PluralCategory::Few)
    } else if name == "many"@ {
        Some(PluralCategory::Many)
    } else if name == "other"@ {
        Some(PluralCategory::Other)
    } else {
        None
    }
}

/// Whether the key of a variant matches the selector: text matches equal text,
/// a number matches an equal number, the name of a plural category matches a
/// number of that category.
pub open spec fn value_matches(key: ValueView, selector: ValueView, locale: Seq<char>) -> bool {
    match (key, selector) {
        (ValueView::String(a), ValueView::String(b)) => a == b,
        (ValueView::Number(a), ValueView::Number(b)) => same_number(
            encode_utf8(a),
            encode_utf8(b),
        ),
        (ValueView::String(a), ValueView::Number(b)) => category_named(a) is Some
            && plural_category(locale, b) == category_named(a),
        _ => false,
    }
}

/// The text that a value writes.
pub open spec fn value_text(v: ValueView) -> Seq<char> {
    match v {
        ValueView::String(s) => s,
        ValueView::Number(n) => n,
        ValueView::Error => Seq::empty(),
    }
}

/// The number that the text is, where it is a number literal, else the text.
pub open spec fn number_or_text(text: Seq<char>) -> ValueView {
    if is_number(encode_utf8(text)) {
        ValueView::Number(text)
    } else {
        ValueView::String(text)
    }
}

/// The value of the key of a variant.
pub open spec fn key_value(key: VariantKeyView) -> ValueView {
    match key {
        VariantKeyView::Identifier { name } => ValueView::String(name),
        VariantKeyView::NumberLiteral { value } => number_or_text(value),
    }
}

/// The entry as a message, where it is the message of that name.
pub open spec fn named_message(e: ResourceEntryView, id: Seq<char>) -> Option<MessageView> {
    match e {
        ResourceEntryView::Entry(EntryView::Message(m)) => if m.id == id {
            Some(m)
        } else {
            None
        },
        _ => None,
    }
}

/// The entry as a term, where it is the term of that name.
pub open spec fn named_term(e: ResourceEntryView, id: Seq<char>) -> Option<TermView> {
    match e {
        ResourceEntryView::Entry(EntryView::Term(t)) => if t.id == id {
            Some(t)
        } else {
            None
        },
        _ => None,
    }
}

/// The first message of that name among the entries from `i` on.
pub open spec fn message_in(body: Seq<ResourceEntryView>, id: Seq<char>, i: int) -> Option<
    MessageView,
>
    decreases body.len() - i,
{
    if !(0 <= i < body.len()) {
        None
    } else if named_message(body[i], id) is Some {
        named_message(body[i], id)
    } else {
        message_in(body, id, i + 1)
    }
}

/// The first term of that name among the entries from `i` on.
pub open spec fn term_in(body: Seq<ResourceEntryView>, id: Seq<char>, i: int) -> Option<TermView>
    decreases body.len() - i,
{
    if !(0 <= i < body.len()) {
        None
    } else if named_term(body[i], id) is Some {
        named_term(body[i], id)
    } else {
        term_in(body, id, i + 1)
    }
}

/// The message of that name in the first resource, from `r` on, that has one.
pub open spec fn find_message(resources: Seq<ResourceView>, id: Seq<char>, r: int) -> Option<
    MessageView,
>
    decreases resources.len() - r,
{
    if !(0 <= r < resources.len()) {
        None
    } else if message_in(resources[r].body, id, 0) is Some {
        message_in(resources[r].body, id, 0)
    } else {
        find_message(resources, id, r + 1)
    }
}

/// The term of that name in the first resource, from `r` on, that has one.
pub open spec fn find_term(resources: Seq<ResourceView>, id: Seq<char>, r: int) -> Option<
    TermView,
>
    decreases resources.len() - r,
{
    if !(0 <= r < resources.len()) {
        None
    } else if term_in(resources[r].body, id, 0) is Some {
        term_in(resources[r].body, id, 0)
    } else {
        find_term(resources, id, r + 1)
    }
}

/// The value of the first attribute of that name from `i` on.
pub open spec fn find_attribute(attributes: Seq<AttributeView>, name: Seq<char>, i: int) -> Option<
    PatternView,
>
    decreases attributes.len() - i,
{
    if !(0 <= i < attributes.len()) {
        None
    } else if attributes[i].id == name {
        Some(attributes[i].value)
    } else {
        find_attribute(attributes, name, i + 1)
    }
}

/// The value of the first argument of that name from `i` on.
pub open spec fn find_argument(args: ArgsView, name: Seq<char>, i: int) -> Option<ValueView>
    decreases args.len() - i,
{
    if !(0 <= i < args.len()) {
        None
    } else if args[i].0 == name {
        Some(args[i].1)
    } else {
        find_argument(args, name, i + 1)
    }
}

/// Whether a function of that name is among `functions`.
pub open spec fn has_function(functions: Seq<Seq<char>>, name: Seq<char>) -> bool {
    exists|i: int| 0 <= i < functions.len() && #[trigger] functions[i] == name
}

/// The index of the first variant from `i` on whose key matches the selector.
pub open spec fn first_match(
    variants: Seq<VariantView>,
    selector: ValueView,
    locale: Seq<char>,
    i: int,
) -> Option<int>
    decreases variants.len() - i,
{
    if !(0 <= i < variants.len()) {
        None
    } else if value_matches(key_value(variants[i].key), selector, locale) {
        Some(i)
    } else {
        first_match(variants, selector, locale, i + 1)
    }
}

/// The index of the first default variant from `i` on.
pub open spec fn first_default(variants: Seq<VariantView>, i: int) -> Option<int>
    decreases variants.len() - i,
{
    if !(0 <= i < variants.len()) {
        None
    } else if variants[i].default {
        Some(i)
    } else {
        first_default(variants, i + 1)
    }
}

/// The variant that a selector chooses: the first whose key matches where the
/// selector is text or a number, else the default.
pub open spec fn chosen_variant(variants: Seq<VariantView>, selector: ValueView,
    locale: Seq<char>) -> Option<
    int,
> {
    if !(selector is Error) && first_match(variants, selector, locale, 0) is Some {
        first_match(variants, selector, locale, 0)
    } else {
        first_default(variants, 0)
    }
}

/// A reference as it is written where it cannot be resolved.
pub open spec fn reference_text(e: InlineExpressionView) -> Seq<char> {
    match e {
        InlineExpressionView::MessageReference { id, attribute: Some(a) } => id + "."@ + a,
        InlineExpressionView::MessageReference { id, attribute: None } => id,
        InlineExpressionView::TermReference { id, attribute: Some(a), .. } => "-"@ + id + "."@ + a,
        InlineExpressionView::TermReference { id, attribute: None, .. } => "-"@ + id,
        InlineExpressionView::FunctionReference { id, .. } => id + "()"@,
        InlineExpressionView::VariableReference { id } => "$"@ + id,
        _ => Seq::empty(),
    }
}

/// What the error says of a reference that cannot be resolved.
pub open spec fn reference_error(e: InlineExpressionView) -> Seq<char> {
    match e {
        InlineExpressionView::MessageReference { attribute: None, .. } => "Unknown message: "@
            + reference_text(e),
        InlineExpressionView::MessageReference { .. } => "Unknown attribute: "@ + reference_text(
            e,
        ),
        InlineExpressionView::VariableReference { .. } => "Unknown variable: "@ + reference_text(
            e,
        ),
        InlineExpressionView::TermReference { attribute: None, .. } => "Unknown term: "@
            + reference_text(e),
        InlineExpressionView::TermReference { .. } => "Unknown attribute: "@ + reference_text(e),
        InlineExpressionView::FunctionReference { .. } => "Unknown function: "@ + reference_text(
            e,
        ),
        _ => Seq::empty(),
    }
}

/// The scope with one more error.
pub open spec fn with_error(sc: ScopeView, e: ResolverErrorView) -> ScopeView {
    ScopeView {
        errors: sc.errors.push(e),
        placeables: sc.placeables,
        travelled: sc.travelled,
        dirty: sc.dirty,
        local_args: sc.local_args,
        asked: sc.asked,
    }
}

/// The scope with other local arguments.
pub open spec fn with_local(sc: ScopeView, local_args: Option<ArgsView>) -> ScopeView {
    ScopeView {
        errors: sc.errors,
        placeables: sc.placeables,
        travelled: sc.travelled,
        dirty: sc.dirty,
        local_args,
        asked: sc.asked,
    }
}

/// The scope with another list of patterns under way.
pub open spec fn with_travelled(sc: ScopeView, travelled: Seq<PatternView>) -> ScopeView {
    ScopeView {
        errors: sc.errors,
        placeables: sc.placeables,
        travelled,
        dirty: sc.dirty,
        local_args: sc.local_args,
        asked: sc.asked,
    }
}

/// A reference that cannot be resolved: the error, and the reference in
/// braces where it stood.
pub open spec fn unresolved(e: InlineExpressionView, sc: ScopeView) -> Outcome {
    Outcome {
        out: "{"@ + reference_text(e) + "}"@,
        scope: with_error(sc, ResolverErrorView::Reference(reference_error(e))),
        decided: true,
    }
}

/// What is not decided: the calls of `Env` do not hold a call that is made.
pub open spec fn undecided(sc: ScopeView) -> Outcome {
    Outcome { out: Seq::empty(), scope: sc, decided: false }
}

/// The scope after one more call into the code of the caller.
pub open spec fn asking(sc: ScopeView) -> ScopeView {
    ScopeView {
        errors: sc.errors,
        placeables: sc.placeables,
        travelled: sc.travelled,
        dirty: sc.dirty,
        local_args: sc.local_args,
        asked: sc.asked + 1,
    }
}

/// The same with other calls.
pub open spec fn told(env: Env, calls: Seq<CallView>) -> Env {
    Env {
        resources: env.resources,
        functions: env.functions,
        use_isolating: env.use_isolating,
        has_transform: env.has_transform,
        locale: env.locale,
        args: env.args,
        calls,
    }
}

/// What the function of that name returns for those arguments, where the
/// next call is that call.
pub open spec fn returned(
    env: Env,
    sc: ScopeView,
    name: Seq<char>,
    positional: Seq<ValueView>,
    named: ArgsView,
) -> Option<ValueView> {
    if sc.asked < env.calls.len() && env.calls[sc.asked as int] == (CallView::Function {
        name,
        positional,
        named,
        result: env.calls[sc.asked as int]->Function_result,
    }) {
        Some(env.calls[sc.asked as int]->Function_result)
    } else {
        None
    }
}

/// What the transform makes of the text, where the next call is that call.
pub open spec fn transformed(env: Env, sc: ScopeView, text: Seq<char>) -> Option<Seq<char>> {
    if sc.asked < env.calls.len() && env.calls[sc.asked as int] == (CallView::Transform {
        text,
        result: env.calls[sc.asked as int]->Transform_result,
    }) {
        Some(env.calls[sc.asked as int]->Transform_result)
    } else {
        None
    }
}

/// What is written for the value that a function returned: the call itself
/// where the function gave an error, else the value.
pub open spec fn result_text(e: InlineExpressionView, v: ValueView) -> Seq<char> {
    if v is Error {
        reference_text(e)
    } else {
        value_text(v)
    }
}

/// Whether the placeable is set between isolation marks: where the bundle
/// isolates, the pattern has more than one element and the placeable is no
/// bare reference to a message or a term and no string literal.
pub open spec fn needs_isolation(env: Env, p: PatternView, e: ExpressionView) -> bool {
    env.use_isolating && p.elements.len() > 1 && !(e matches ExpressionView::InlineExpression(i)
        && (i is MessageReference || i is TermReference || i is StringLiteral))
}

/// The first strong isolate.
pub const FSI: char = '\u{2068}';

/// The pop directional isolate.
pub const PDI: char = '\u{2069}';

/// Whether the state `after` can follow `before`: the count of placeables has
/// not fallen and has not passed the limit by more than one.
pub open spec fn follows(before: ScopeView, after: ScopeView) -> bool {
    before.placeables <= after.placeables <= MAX_PLACEABLES + 1
}

/// The outcome with `out` written before it.
pub open spec fn prepend(out: Seq<char>, r: Outcome) -> Outcome {
    Outcome { out: out + r.out, scope: r.scope, decided: r.decided }
}

/// What the elements of `p` from `i` on write.
pub open spec fn write_elements(env: Env, p: PatternView, i: int, sc: ScopeView) -> Outcome
    decreases MAX_PLACEABLES + 1 - sc.placeables, 0int, p, p.elements.len() - i,
{
    if !(0 <= i < p.elements.len()) || sc.dirty {
        Outcome { out: Seq::empty(), scope: sc, decided: true }
    } else if sc.placeables > MAX_PLACEABLES + 1 {
        undecided(sc)
    } else {
        match p.elements[i] {
            PatternElementView::TextElement(t) => {
                if env.has_transform {
                    match transformed(env, sc, t) {
                        Some(text) => prepend(text, write_elements(env, p, i + 1, asking(sc))),
                        None => undecided(sc),
                    }
                } else {
                    let rest = write_elements(env, p, i + 1, sc);
                    Outcome { out: t + rest.out, scope: rest.scope, decided: rest.decided }
                }
            },
            PatternElementView::Placeable(e) => {
                let counted = ScopeView {
                    errors: sc.errors,
                    placeables: sc.placeables + 1,
                    travelled: sc.travelled,
                    dirty: sc.dirty,
                    local_args: sc.local_args,
                    asked: sc.asked,
                };
                if counted.placeables > MAX_PLACEABLES {
                    Outcome {
                        out: Seq::empty(),
                        scope: ScopeView {
                            errors: sc.errors.push(ResolverErrorView::TooManyPlaceables),
                            placeables: counted.placeables,
                            travelled: sc.travelled,
                            dirty: true,
                            local_args: sc.local_args,
                            asked: sc.asked,
                        },
                        decided: true,
                    }
                } else {
                    let entered = if counted.travelled.len() == 0 {
                        with_travelled(counted, seq![p])
                    } else {
                        counted
                    };
                    let r = write_expression(env, e, entered);
                    if !r.decided || !follows(entered, r.scope) {
                        undecided(r.scope)
                    } else {
                        let rest = write_elements(env, p, i + 1, r.scope);
                        Outcome {
                            out: if needs_isolation(env, p, e) {
                                seq![FSI] + r.out + seq![PDI] + rest.out
                            } else {
                                r.out + rest.out
                            },
                            scope: rest.scope,
                            decided: rest.decided,
                        }
                    }
                }
            },
        }
    }
}

/// What the pattern writes.
pub open spec fn write_pattern(env: Env, p: PatternView, sc: ScopeView) -> Outcome {
    write_elements(env, p, 0, sc)
}

/// The patterns under way without the last.
pub open spec fn popped(travelled: Seq<PatternView>) -> Seq<PatternView> {
    if travelled.len() > 0 {
        travelled.subrange(0, travelled.len() - 1)
    } else {
        travelled
    }
}

/// What the pattern that a reference stands for writes, unless that pattern
/// is under way already: then the reference is cyclic.
pub open spec fn track(
    env: Env,
    p: PatternView,
    e: InlineExpressionView,
    sc: ScopeView,
    r: Outcome,
) -> Outcome {
    if sc.travelled.contains(p) {
        Outcome {
            out: "{"@ + reference_text(e) + "}"@,
            scope: with_error(sc, ResolverErrorView::Cyclic(reference_text(e))),
            decided: true,
        }
    } else {
        Outcome {
            out: r.out,
            scope: with_travelled(r.scope, popped(r.scope.travelled)),
            decided: r.decided,
        }
    }
}

/// What the expression writes.
pub open spec fn write_expression(env: Env, e: ExpressionView, sc: ScopeView) -> Outcome
    decreases MAX_PLACEABLES + 1 - sc.placeables, 1int, e, 0int,
{
    if sc.placeables > MAX_PLACEABLES + 1 {
        undecided(sc)
    } else {
        match e {
            ExpressionView::InlineExpression(i) => write_inline(env, i, sc),
            ExpressionView::SelectExpression { selector, variants } => {
                let s = resolve_inline(env, selector, sc);
                if !s.decided || !follows(sc, s.scope) {
                    undecided(s.scope)
                } else {
                    match chosen_variant(variants, s.value, env.locale) {
                        Some(j) => write_elements(env, variants[j].value, 0, s.scope),
                        None => Outcome {
                            out: Seq::empty(),
                            scope: with_error(s.scope, ResolverErrorView::MissingDefault),
                            decided: true,
                        },
                    }
                }
            },
        }
    }
}

/// What the pattern of a message, a term or an attribute writes where a
/// reference leads to it.
pub open spec fn write_referenced(
    env: Env,
    found: Option<PatternView>,
    e: InlineExpressionView,
    sc: ScopeView,
) -> Outcome
    decreases MAX_PLACEABLES + 1 - sc.placeables, 1int, e, 0int,
{
    match found {
        Some(p) => track(
            env,
            p,
            e,
            sc,
            if sc.placeables > MAX_PLACEABLES + 1 || sc.travelled.contains(p) {
                undecided(sc)
            } else {
                write_elements(env, p, 0, with_travelled(sc, sc.travelled.push(p)))
            },
        ),
        None => unresolved(e, sc),
    }
}

/// The pattern that a reference to a message leads to.
pub open spec fn message_pattern(env: Env, id: Seq<char>, attribute: Option<Seq<char>>) -> Option<
    PatternView,
> {
    match find_message(env.resources, id, 0) {
        Some(m) => match attribute {
            Some(a) => find_attribute(m.attributes, a, 0),
            None => m.value,
        },
        None => None,
    }
}

/// The pattern that a reference to a term leads to.
pub open spec fn term_pattern(env: Env, id: Seq<char>, attribute: Option<Seq<char>>) -> Option<
    PatternView,
> {
    match find_term(env.resources, id, 0) {
        Some(t) => match attribute {
            Some(a) => find_attribute(t.attributes, a, 0),
            None => Some(t.value),
        },
        None => None,
    }
}

/// The argument of that name: among the local arguments where a term is
/// under way, else among the arguments of the call.
pub open spec fn variable(env: Env, sc: ScopeView, id: Seq<char>) -> Option<ValueView> {
    match sc.local_args {
        Some(args) => find_argument(args, id, 0),
        None => match env.args {
            Some(args) => find_argument(args, id, 0),
            None => None,
        },
    }
}

/// The state after a variable that has no value: an error, unless a term is
/// under way.
pub open spec fn missing_variable(e: InlineExpressionView, sc: ScopeView) -> ScopeView {
    if sc.local_args is None {
        with_error(sc, ResolverErrorView::Reference(reference_error(e)))
    } else {
        sc
    }
}

/// What the inline expression writes.
pub open spec fn write_inline(env: Env, e: InlineExpressionView, sc: ScopeView) -> Outcome
    decreases MAX_PLACEABLES + 1 - sc.placeables, 1int, e, 1int,
{
    if sc.placeables > MAX_PLACEABLES + 1 {
        undecided(sc)
    } else {
        match e {
            InlineExpressionView::StringLiteral { value } => Outcome {
                out: unescaped(encode_utf8(value), 0),
                scope: sc,
                decided: true,
            },
            InlineExpressionView::NumberLiteral { value } => Outcome {
                out: value,
                scope: sc,
                decided: true,
            },
            InlineExpressionView::MessageReference { id, attribute } => write_referenced(
                env,
                message_pattern(env, id, attribute),
                e,
                sc,
            ),
            InlineExpressionView::TermReference { id, attribute, arguments } => {
                let a = resolve_arguments(env, arguments, sc);
                if !a.decided || !follows(sc, a.scope) {
                    undecided(a.scope)
                } else {
                    let r = write_referenced(
                        env,
                        term_pattern(env, id, attribute),
                        e,
                        with_local(a.scope, Some(a.named)),
                    );
                    Outcome {
                        out: r.out,
                        scope: with_local(r.scope, a.scope.local_args),
                        decided: r.decided,
                    }
                }
            },
            InlineExpressionView::FunctionReference { id, arguments } => {
                let a = resolve_arguments(env, arguments, sc);
                if !a.decided {
                    undecided(a.scope)
                } else if !has_function(env.functions, id) {
                    unresolved(e, a.scope)
                } else {
                    match returned(env, a.scope, id, a.positional, a.named) {
                        Some(v) => Outcome {
                            out: result_text(e, v),
                            scope: asking(a.scope),
                            decided: true,
                        },
                        None => undecided(a.scope),
                    }
                }
            },
            InlineExpressionView::VariableReference { id } => match variable(env, sc, id) {
                Some(v) => Outcome { out: value_text(v), scope: sc, decided: true },
                None => Outcome {
                    out: "{"@ + reference_text(e) + "}"@,
                    scope: missing_variable(e, sc),
                    decided: true,
                },
            },
            InlineExpressionView::Placeable { expression } => write_expression(
                env,
                *expression,
                sc,
            ),
        }
    }
}

/// The value of the inline expression: that of a literal or a variable, else
/// the text that the expression writes.
pub open spec fn resolve_inline(env: Env, e: InlineExpressionView, sc: ScopeView) -> Resolved
    decreases MAX_PLACEABLES + 1 - sc.placeables, 1int, e, 2int,
{
    match e {
        InlineExpressionView::StringLiteral { value } => Resolved {
            value: ValueView::String(unescaped(encode_utf8(value), 0)),
            scope: sc,
            decided: true,
        },
        InlineExpressionView::NumberLiteral { value } => Resolved {
            value: number_or_text(value),
            scope: sc,
            decided: true,
        },
        InlineExpressionView::VariableReference { id } => match variable(env, sc, id) {
            Some(v) => Resolved { value: v, scope: sc, decided: true },
            None => Resolved {
                value: ValueView::Error,
                scope: missing_variable(e, sc),
                decided: true,
            },
        },
        _ => if sc.placeables > MAX_PLACEABLES + 1 {
            Resolved { value: ValueView::Error, scope: sc, decided: false }
        } else {
            let r = write_inline(env, e, sc);
            Resolved { value: ValueView::String(r.out), scope: r.scope, decided: r.decided }
        },
    }
}

/// The values of the positional arguments from `i` on, after those in `acc`.
pub open spec fn resolve_positional(
    env: Env,
    args: Seq<InlineExpressionView>,
    i: int,
    acc: Seq<ValueView>,
    sc: ScopeView,
) -> (Seq<ValueView>, ScopeView, bool)
    decreases MAX_PLACEABLES + 1 - sc.placeables, 1int, args, args.len() - i,
{
    if !(0 <= i < args.len()) {
        (acc, sc, true)
    } else if sc.placeables > MAX_PLACEABLES + 1 {
        (acc, sc, false)
    } else {
        let r = resolve_inline(env, args[i], sc);
        if !r.decided || !follows(sc, r.scope) {
            (acc, r.scope, false)
        } else {
            resolve_positional(env, args, i + 1, acc.push(r.value), r.scope)
        }
    }
}

/// The values of the named arguments from `i` on, after those in `acc`.
pub open spec fn resolve_named(
    env: Env,
    args: Seq<NamedArgumentView>,
    i: int,
    acc: ArgsView,
    sc: ScopeView,
) -> (ArgsView, ScopeView, bool)
    decreases MAX_PLACEABLES + 1 - sc.placeables, 1int, args, args.len() - i,
{
    if !(0 <= i < args.len()) {
        (acc, sc, true)
    } else if sc.placeables > MAX_PLACEABLES + 1 {
        (acc, sc, false)
    } else {
        let r = resolve_inline(env, args[i].value, sc);
        if !r.decided || !follows(sc, r.scope) {
            (acc, r.scope, false)
        } else {
            resolve_named(env, args, i + 1, acc.push((args[i].name, r.value)), r.scope)
        }
    }
}

/// The values of the arguments of a call: the positional ones, then the
/// named ones.
pub open spec fn resolve_arguments(
    env: Env,
    arguments: Option<CallArgumentsView>,
    sc: ScopeView,
) -> ResolvedArguments
    decreases MAX_PLACEABLES + 1 - sc.placeables, 1int, arguments, 0int,
{
    match arguments {
        None => ResolvedArguments {
            positional: Seq::empty(),
            named: Seq::empty(),
            scope: sc,
            decided: true,
        },
        Some(a) => {
            let (positional, sc1, d1) = resolve_positional(env, a.positional, 0, Seq::empty(), sc);
            if !d1 || !follows(sc, sc1) {
                ResolvedArguments { positional, named: Seq::empty(), scope: sc1, decided: false }
            } else {
                let (named, sc2, d2) = resolve_named(env, a.named, 0, Seq::empty(), sc1);
                ResolvedArguments { positional, named, scope: sc2, decided: d2 }
            }
        },
    }
}

/// The state at the start of a call.
pub open spec fn fresh_scope() -> ScopeView {
    ScopeView {
        errors: Seq::empty(),
        placeables: 0,
        travelled: Seq::empty(),
        dirty: false,
        local_args: None,
        asked: 0,
    }
}

/// What one call writes for the pattern, and the errors that it meets, where
/// the calls into the code of the caller are those of `env`.
pub open spec fn formatted(env: Env, p: PatternView) -> Outcome {
    write_pattern(env, p, fresh_scope())
}

} // verus!
