use fluent::bundle::args::FluentArgs;
use fluent::bundle::errors::{FluentError, ResolverError};
use fluent::bundle::fluent_bundle::FluentBundle;
use fluent::bundle::resource::FluentResource;
use fluent::bundle::types::FluentValue;
use fluent::fallback::errors::LocalizationError;
use fluent::fallback::localization::Localization;
use fluent::fallback::messages::format_messages_sync;
use fluent::fallback::types::{L10nAttribute, L10nKey, L10nMessage};
use fluent::fallback::value::{finish_value, FluentBundleResult, format_value_sync};
use fluent::fallback::values::format_values_sync;

type Function = fn(&[FluentValue<String>], &FluentArgs<String>) -> FluentValue<String>;
type Transform = fn(&str) -> String;
type Bundle = FluentBundle<FluentResource, Function, Transform>;
type Bundles = Vec<FluentBundleResult<FluentResource, Function, Transform>>;

fn bundle(locale: &str, source: &str) -> Bundle {
    let mut bundle: Bundle = FluentBundle::new(vec![locale.to_string()]);
    bundle.set_use_isolating(false);
    let res = match FluentResource::try_new(source.to_string()) {
        Ok(res) => res,
        Err((res, _)) => res,
    };
    let _ = bundle.add_resource(res);
    bundle
}

fn chain() -> Bundles {
    vec![
        Ok(bundle("pl", "hello = Cześć\nonly-attr =\n    .a = A\nbroken = { $x }\n")),
        Ok(bundle("en-US", "hello = Hello\nnew = New\nonly-attr = Value\n    .a = EN\n")),
    ]
}

fn key(id: &str) -> L10nKey<&'static str> {
    L10nKey {
        id: id.to_string(),
        args: None,
    }
}

fn missing_message(id: &str, locale: Option<&str>) -> LocalizationError {
    LocalizationError::MissingMessage {
        id: id.to_string(),
        locale: locale.map(|l| l.to_string()),
    }
}

fn missing_value(id: &str, locale: Option<&str>) -> LocalizationError {
    LocalizationError::MissingValue {
        id: id.to_string(),
        locale: locale.map(|l| l.to_string()),
    }
}

#[test]
fn value_of_the_first_locale_that_has_it() {
    let bundles = chain();
    let mut errors = vec![];
    assert_eq!(
        format_value_sync::<_, _, _, &str>(&bundles, "hello", None, &mut errors),
        Some("Cześć".to_string())
    );
    assert!(errors.is_empty());
    assert_eq!(
        format_value_sync::<_, _, _, &str>(&bundles, "new", None, &mut errors),
        Some("New".to_string())
    );
    assert_eq!(errors, vec![missing_message("new", Some("pl"))]);
}

#[test]
fn value_missing_everywhere() {
    let bundles = chain();
    let mut errors = vec![];
    assert_eq!(
        format_value_sync::<_, _, _, &str>(&bundles, "nothing", None, &mut errors),
        None
    );
    assert_eq!(
        errors,
        vec![
            missing_message("nothing", Some("pl")),
            missing_message("nothing", Some("en-US")),
            missing_message("nothing", None),
        ]
    );
    let only_pl: Bundles = vec![Ok(bundle("pl", "only-attr =\n    .a = A\n"))];
    let mut errors = vec![];
    assert_eq!(
        format_value_sync::<_, _, _, &str>(&only_pl, "only-attr", None, &mut errors),
        None
    );
    assert_eq!(
        errors,
        vec![
            missing_value("only-attr", Some("pl")),
            missing_value("only-attr", None)
        ]
    );
}

#[test]
fn lower_locales_do_not_change_what_is_resolved() {
    let mut bundles = chain();
    let mut errors = vec![];
    let before = format_value_sync::<_, _, _, &str>(&bundles, "hello", None, &mut errors);
    bundles.push(Ok(bundle("de", "hello = Hallo\n")));
    let mut more = vec![];
    let after = format_value_sync::<_, _, _, &str>(&bundles, "hello", None, &mut more);
    assert_eq!(before, after);
    assert_eq!(errors, more);
}

#[test]
fn errors_of_the_resolver_and_of_the_bundle_are_passed_on() {
    let bundles: Bundles = vec![Err((
        bundle("pl", "broken = { $x }\n"),
        vec![FluentError::Overriding {
            kind: "message",
            id: "a".to_string(),
        }],
    ))];
    let mut errors = vec![];
    assert_eq!(
        format_value_sync::<_, _, _, &str>(&bundles, "broken", None, &mut errors),
        Some("{$x}".to_string())
    );
    assert_eq!(
        errors,
        vec![
            LocalizationError::Bundle {
                error: FluentError::Overriding {
                    kind: "message",
                    id: "a".to_string()
                }
            },
            LocalizationError::Resolver {
                id: "broken".to_string(),
                locale: "pl".to_string(),
                errors: vec![FluentError::ResolverError(ResolverError::Reference(
                    "Unknown variable: $x".to_string()
                ))]
            }
        ]
    );
}

#[test]
fn values_of_several_keys() {
    let bundles = chain();
    let keys = vec![key("hello"), key("new"), key("only-attr"), key("nothing")];
    let mut errors = vec![];
    assert_eq!(
        format_values_sync(&bundles, &keys, &mut errors),
        vec![
            Some("Cześć".to_string()),
            Some("New".to_string()),
            Some("Value".to_string()),
            None
        ]
    );
    assert_eq!(
        errors,
        vec![
            missing_message("new", Some("pl")),
            missing_value("only-attr", Some("pl")),
            missing_message("nothing", Some("pl")),
            missing_message("nothing", Some("en-US")),
            missing_message("nothing", None),
        ]
    );
}

#[test]
fn messages_of_several_keys() {
    let bundles = chain();
    let keys = vec![key("only-attr"), key("new"), key("nothing")];
    let mut errors = vec![];
    assert_eq!(
        format_messages_sync(&bundles, &keys, &mut errors),
        vec![
            Some(L10nMessage {
                value: None,
                attributes: vec![L10nAttribute {
                    name: "a".to_string(),
                    value: "A".to_string()
                }]
            }),
            Some(L10nMessage {
                value: Some("New".to_string()),
                attributes: vec![]
            }),
            None
        ]
    );
    assert_eq!(
        errors,
        vec![
            missing_message("new", Some("pl")),
            missing_message("nothing", Some("pl")),
            missing_message("nothing", Some("en-US")),
            missing_message("nothing", None),
        ]
    );
}

#[test]
fn localization_forgets_its_bundles_on_change() {
    let mut loc: Localization<Bundles> = Localization::new(vec!["test.ftl".to_string()], true);
    assert!(loc.is_sync());
    assert!(loc.bundles().is_none());
    loc.set_bundles(chain());
    assert!(loc.bundles().is_some());
    loc.add_resource_id("test2.ftl".to_string());
    assert!(loc.bundles().is_none());
    assert_eq!(loc.res_ids(), &vec!["test.ftl".to_string(), "test2.ftl".to_string()]);
    loc.add_resource_ids(vec!["a.ftl".to_string(), "test.ftl".to_string()]);
    assert_eq!(loc.remove_resource_id("test.ftl".to_string()), 2);
    assert_eq!(loc.res_ids(), &vec!["test2.ftl".to_string(), "a.ftl".to_string()]);
    assert_eq!(
        loc.remove_resource_ids(vec!["a.ftl".to_string(), "none".to_string()]),
        1
    );
    loc.set_bundles(chain());
    loc.on_change();
    assert!(loc.bundles().is_none());
}

#[test]
fn localization_formats_or_refuses() {
    let mut loc: Localization<Bundles> = Localization::new(vec!["test.ftl".to_string()], true);
    loc.set_bundles(chain());
    let mut errors = vec![];
    assert_eq!(
        loc.format_value_sync::<&str>("hello", None, &mut errors),
        Ok(Some("Cześć".to_string()))
    );
    assert_eq!(
        loc.format_values_sync(&vec![key("new")], &mut errors),
        Ok(vec![Some("New".to_string())])
    );
    assert!(loc.format_messages_sync(&vec![key("new")], &mut errors).is_ok());
    loc.set_async();
    assert!(!loc.is_sync());
    assert!(loc.bundles().is_none());
    loc.set_bundles(chain());
    assert_eq!(
        loc.format_value_sync::<&str>("hello", None, &mut errors),
        Err(LocalizationError::SyncRequestInAsyncMode)
    );
}

#[test]
fn a_walk_without_a_value_ends_with_what_it_lacked() {
    let mut errors = vec![];
    finish_value("key", true, &mut errors);
    finish_value("key", false, &mut errors);
    assert_eq!(
        errors,
        vec![
            LocalizationError::MissingValue {
                id: "key".to_string(),
                locale: None
            },
            LocalizationError::MissingMessage {
                id: "key".to_string(),
                locale: None
            },
        ]
    );
}
