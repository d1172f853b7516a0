use fluent::bundle::args::FluentArgs;
use fluent::bundle::errors::{FluentError, ResolverError};
use fluent::bundle::fluent_bundle::FluentBundle;
use fluent::bundle::resource::FluentResource;
use fluent::bundle::types::FluentValue;
use fluent::syntax::ast::{
    Expression, InlineExpression, Pattern, PatternElement, Resource, Variant, VariantKey,
};

type Function = fn(&[FluentValue<String>], &FluentArgs<String>) -> FluentValue<String>;
type Transform = fn(&str) -> String;
type Bundle = FluentBundle<FluentResource, Function, Transform>;

fn bundle_of(source: &str) -> Bundle {
    let mut bundle: Bundle = FluentBundle::new(vec!["en".to_string()]);
    let res = FluentResource::try_new(source.to_string()).expect("the source parses");
    bundle.add_resource(res).expect("no name is taken");
    bundle
}

fn number(text: &str) -> FluentValue<&str> {
    FluentValue::try_number(text)
}

#[test]
fn test_bundle_mix() {
    let mut bundle: Bundle = FluentBundle::new(vec![]);

    let res = FluentResource::try_new("key=Value".to_string()).expect("");

    let ast: Resource<String> = Resource { body: vec![] };
    let res2 = FluentResource::Owned(ast);
    assert!(bundle.add_resource(res).is_ok());
    assert!(bundle.add_resource(res2).is_ok());
    assert!(bundle.has_message("key"));
}

#[test]
fn test_resolve() {
    let mut bundle = bundle_of("key = Hello { $user }. You have { $emailCount } emails.");
    bundle.set_use_isolating(false);

    let msg = bundle.get_message("key").unwrap();

    let mut args = FluentArgs::new();
    args.add("user", FluentValue::String("John"));
    args.add("emailCount", number("5"));
    let mut s = String::new();
    let mut errors = vec![];
    bundle.format_pattern(&mut s, msg.value.unwrap(), Some(&args), &mut errors);
    assert_eq!(s, "Hello John. You have 5 emails.");
    assert!(errors.is_empty());

    let mut args = FluentArgs::new();
    args.add("user".to_string(), FluentValue::String("Amy".to_string()));
    let mut s = String::new();
    bundle.format_pattern(&mut s, msg.value.unwrap(), Some(&args), &mut errors);
    assert_eq!(s, "Hello Amy. You have {$emailCount} emails.");
    assert_eq!(
        errors,
        vec![FluentError::ResolverError(ResolverError::Reference(
            "Unknown variable: $emailCount".to_string()
        ))]
    );
}

#[test]
fn test_plural() {
    let bundle = bundle_of(
        r#"
key = { $emailCount ->
    [one] Hello One
   *[other] Hello Other
}
"#,
    );

    let msg = bundle.get_message("key").unwrap();

    let mut args = FluentArgs::new();
    args.add("emailCount", number("1"));
    let mut s = String::new();
    let mut errors = vec![];
    bundle.format_pattern(&mut s, msg.value.unwrap(), Some(&args), &mut errors);
    assert_eq!(s, "Hello One");
}

#[test]
fn identity_text() {
    let bundle = bundle_of("key = Value");
    let (value, errors) = bundle.format::<&str>("key", None).unwrap();
    assert_eq!(value, "Value");
    assert!(errors.is_empty());
}

#[test]
fn plural_select_other() {
    let bundle = bundle_of("key = { $n ->\n    [one] Hello One\n   *[other] Hello Other\n}\n");
    let mut args = FluentArgs::new();
    args.add("n", number("2"));
    let (value, errors) = bundle.format("key", Some(&args)).unwrap();
    assert_eq!(value, "Hello Other");
    assert!(errors.is_empty());
    let mut args = FluentArgs::new();
    args.add("n", number("1"));
    let (value, _) = bundle.format("key", Some(&args)).unwrap();
    assert_eq!(value, "Hello One");
}

fn hello(_positional: &[FluentValue<String>], _named: &FluentArgs<String>) -> FluentValue<String> {
    FluentValue::String("I'm a function!".to_string())
}

#[test]
fn function_call() {
    let mut bundle = bundle_of("hello-world = Hey there! { HELLO() }");
    bundle.set_use_isolating(false);
    bundle.add_function("HELLO", hello as Function).expect("the name is free");
    let (value, errors) = bundle.format::<&str>("hello-world", None).unwrap();
    assert_eq!(value, "Hey there! I'm a function!");
    assert!(errors.is_empty());
    assert!(bundle.add_function("HELLO", hello as Function).is_err());
}

#[test]
fn isolation_marks() {
    let bundle = bundle_of("key = Hello { $user }!\nbare = { $user }\nlit = a { \"b\" } c\n");
    let mut args = FluentArgs::new();
    args.add("user", FluentValue::String("Ann"));
    let (value, _) = bundle.format("key", Some(&args)).unwrap();
    assert_eq!(value, "Hello \u{2068}Ann\u{2069}!");
    let (value, _) = bundle.format("bare", Some(&args)).unwrap();
    assert_eq!(value, "Ann");
    let (value, _) = bundle.format("lit", Some(&args)).unwrap();
    assert_eq!(value, "a b c");
}

#[test]
fn cyclic_reference() {
    let mut bundle = bundle_of("a = { b }\nb = { a }\n");
    bundle.set_use_isolating(false);
    let (value, errors) = bundle.format::<&str>("a", None).unwrap();
    assert_eq!(value, "{a}");
    assert_eq!(
        errors,
        vec![FluentError::ResolverError(ResolverError::Cyclic("a".to_string()))]
    );
}

#[test]
fn too_many_placeables() {
    let mut source = String::from("key =");
    for _ in 0..101 {
        source.push_str(" { \"x\" }");
    }
    let mut bundle = bundle_of(&source);
    bundle.set_use_isolating(false);
    let (value, errors) = bundle.format::<&str>("key", None).unwrap();
    assert_eq!(value, "x ".repeat(100));
    assert_eq!(
        errors,
        vec![FluentError::ResolverError(ResolverError::TooManyPlaceables)]
    );
}

#[test]
fn missing_references() {
    let mut bundle = bundle_of("a = { b } { -t } { m.x } { F() }\nm = M\n");
    bundle.set_use_isolating(false);
    let (value, errors) = bundle.format::<&str>("a", None).unwrap();
    assert_eq!(value, "{b} {-t} {m.x} {F()}");
    let texts: Vec<String> = errors
        .into_iter()
        .map(|e| match e {
            FluentError::ResolverError(ResolverError::Reference(t)) => t,
            other => panic!("unexpected error {:?}", other),
        })
        .collect();
    assert_eq!(
        texts,
        vec![
            "Unknown message: b",
            "Unknown term: -t",
            "Unknown attribute: m.x",
            "Unknown function: F()"
        ]
    );
}

#[test]
fn term_with_arguments_and_escapes() {
    let mut bundle = bundle_of(
        "-brand = { $case ->\n   *[nominative] Firefox\n    [locative] Firefoksie\n}\nabout = O { -brand(case: \"locative\") } \\ { \"\\u0041\\\"\" }\n",
    );
    bundle.set_use_isolating(false);
    let (value, errors) = bundle.format::<&str>("about", None).unwrap();
    assert_eq!(value, "O Firefoksie \\ A\"");
    assert!(errors.is_empty());
}

#[test]
fn overriding_names() {
    let mut bundle = bundle_of("a = One\n-t = Term\n");
    let res = FluentResource::try_new("a = Two\nb = B\n-t = Other\n".to_string()).unwrap();
    let errors = bundle.add_resource(res).unwrap_err();
    assert_eq!(
        errors,
        vec![
            FluentError::Overriding {
                kind: "message",
                id: "a".to_string()
            },
            FluentError::Overriding {
                kind: "term",
                id: "t".to_string()
            }
        ]
    );
    let (value, _) = bundle.format::<&str>("a", None).unwrap();
    assert_eq!(value, "One");
    let (value, _) = bundle.format::<&str>("b", None).unwrap();
    assert_eq!(value, "B");
}

#[test]
fn select_without_default_leaves_an_error() {
    let bundle = bundle_of("key = Value");
    let pattern = Pattern {
        elements: vec![PatternElement::Placeable(Expression::SelectExpression {
            selector: InlineExpression::StringLiteral {
                value: "x".to_string(),
            },
            variants: vec![Variant {
                key: VariantKey::Identifier {
                    name: "a".to_string(),
                },
                value: Pattern {
                    elements: vec![PatternElement::TextElement("A".to_string())],
                },
                default: false,
            }],
        })],
    };
    let mut out = String::from(">");
    let mut errors = vec![];
    bundle.format_pattern::<&str>(&mut out, &pattern, None, &mut errors);
    assert_eq!(out, ">");
    assert_eq!(
        errors,
        vec![FluentError::ResolverError(ResolverError::MissingDefault)]
    );
}

#[test]
fn selector_picks_the_first_matching_variant() {
    let mut bundle = bundle_of(
        "key = { $v ->\n    [a] First\n    [1.0] Number\n    [a] Second\n   *[z] Default\n}\n",
    );
    bundle.set_use_isolating(false);
    let mut args = FluentArgs::new();
    args.add("v", FluentValue::String("a"));
    assert_eq!(bundle.format("key", Some(&args)).unwrap().0, "First");
    let mut args = FluentArgs::new();
    args.add("v", number("1"));
    assert_eq!(bundle.format("key", Some(&args)).unwrap().0, "Number");
    let mut args = FluentArgs::new();
    args.add("v", FluentValue::String("none"));
    assert_eq!(bundle.format("key", Some(&args)).unwrap().0, "Default");
    assert_eq!(bundle.format::<&str>("key", None).unwrap().0, "Default");
}

fn shout(text: &str) -> String {
    text.to_uppercase()
}

fn failing(_positional: &[FluentValue<String>],
    _named: &FluentArgs<String>) -> FluentValue<String> {
    FluentValue::Error
}

#[test]
fn transform_and_failing_function() {
    let mut bundle = bundle_of("key = text { \"lit\" } { FAIL() }");
    bundle.set_use_isolating(false);
    bundle.set_transform(Some(shout as Transform));
    bundle.add_function("FAIL", failing as Function).unwrap();
    let (value, errors) = bundle.format::<&str>("key", None).unwrap();
    assert_eq!(value, "TEXT lit FAIL()");
    assert!(errors.is_empty());
}

#[test]
fn message_without_value_or_name_is_not_formatted() {
    let bundle = bundle_of("key =\n    .attr = A\n");
    assert!(bundle.format::<&str>("key", None).is_none());
    assert!(bundle.format::<&str>("other", None).is_none());
    assert!(bundle.has_message("key"));
    assert!(!bundle.has_message("other"));
    let message = bundle.get_message("key").unwrap();
    assert!(message.value.is_none());
    assert_eq!(message.attributes[0].id, "attr");
}
