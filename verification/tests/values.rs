use fluent::bundle::args::FluentArgs;
use fluent::bundle::message::{FluentAttribute, FluentMessage};
use fluent::bundle::number::{FluentNumber, is_number_literal, numeric_eq};
use fluent::bundle::plural::{category_from_name, is_category};
use fluent::bundle::rendering::PluralCategory;
use fluent::bundle::types::{FluentType, FluentValue};
use fluent::bundle::unicode::unescape_unicode_to_string;
use fluent::resmgr::ResourceManagerError;
use fluent::syntax::ast::{Pattern, PatternElement};
use fluent::syntax::slice::Slice;

#[test]
fn slices_of_both_kinds() {
    let owned = "zażółć  \n".to_string();
    let borrowed: &str = "zażółć  \n";
    assert_eq!(owned.length(), 13);
    assert_eq!(borrowed.length(), 13);
    assert_eq!(owned.get_char(0), Some(b'z'));
    assert_eq!(borrowed.get_char(13), None);
    assert_eq!(owned.slice(1, 4), "a\u{17c}".to_string());
    assert_eq!(borrowed.slice(0, 2), "za");
    let mut o = owned.clone();
    Slice::trim(&mut o);
    assert_eq!(o, "zażółć");
    let mut b = borrowed;
    Slice::trim(&mut b);
    assert_eq!(b, "zażółć");
    let mut w = String::from(">");
    b.write(&mut w);
    assert_eq!(w, ">zażółć");
    assert_eq!(Slice::as_str(&owned), borrowed);
    assert!(owned.eq_str(borrowed));
    assert!(!borrowed.eq_str("other"));
    assert_eq!(owned.duplicate(), owned);
}

#[test]
fn number_literals() {
    for text in ["0", "5", "-5", "1.5", "-0.25", "007", "10.0"] {
        assert!(is_number_literal(text.as_bytes()), "{:?}", text);
        assert!(FluentNumber::from_str(text).is_some());
    }
    for text in ["", "-", ".5", "1.", "1e5", "+1", " 1", "1 ", "abc", "1.2.3", "--1"] {
        assert!(!is_number_literal(text.as_bytes()), "{:?}", text);
        assert!(FluentNumber::from_str(text).is_none());
    }
}

#[test]
fn numbers_are_equal_by_value() {
    let same = [("1", "1.0"), ("01", "1"), ("-0", "0"), ("1.50", "1.5"), ("-2.0", "-2"), ("0.0",
        "-0.00")];
    for (a, b) in same {
        assert!(numeric_eq(a.as_bytes(), b.as_bytes()), "{} {}", a, b);
    }
    let different = [("1", "2"), ("1", "-1"), ("1.5", "1.05"), ("10", "1"), ("0.1", "0.10001")];
    for (a, b) in different {
        assert!(!numeric_eq(a.as_bytes(), b.as_bytes()), "{} {}", a, b);
    }
}

#[test]
fn try_number_keeps_what_is_no_number() {
    match FluentValue::try_number("12.5") {
        FluentValue::Number(n) => assert_eq!(n.as_str(), "12.5"),
        other => panic!("unexpected value {:?}", other),
    }
    match FluentValue::try_number("12,5") {
        FluentValue::String(s) => assert_eq!(s, "12,5"),
        other => panic!("unexpected value {:?}", other),
    }
}

#[test]
fn values_write_themselves() {
    let mut w = String::new();
    FluentValue::String("text").write(&mut w);
    FluentValue::<&str>::try_number("5.0").write(&mut w);
    FluentValue::<&str>::Error.write(&mut w);
    assert_eq!(w, "text5.0");
    let owned = FluentValue::String("text".to_string());
    match owned.borrowed() {
        FluentValue::String(s) => assert_eq!(s, "text"),
        other => panic!("unexpected value {:?}", other),
    }
}

#[test]
fn values_match_by_text_number_and_category() {
    let one = FluentValue::<&str>::try_number("1");
    let one_point = FluentValue::<&str>::try_number("1.0");
    let two = FluentValue::<&str>::try_number("2");
    assert!(FluentValue::String("a").matches_in(&FluentValue::String("a"), "en"));
    assert!(!FluentValue::String("a").matches_in(&FluentValue::String("b"), "en"));
    assert!(one.matches_in(&one_point, "en"));
    assert!(!one.matches_in(&two, "en"));
    assert!(FluentValue::String("one").matches_in(&one, "en"));
    assert!(!FluentValue::String("one").matches_in(&two, "en"));
    assert!(FluentValue::String("other").matches_in(&two, "en"));
    assert!(!FluentValue::String("uno").matches_in(&one, "en"));
    assert!(!one.matches_in(&FluentValue::String("one"), "en"));
    assert!(!FluentValue::<&str>::Error.matches_in(&one, "en"));
}

#[test]
fn plural_categories() {
    assert!(is_category("en", "one", "1"));
    assert!(is_category("en", "other", "5"));
    assert!(is_category("pl", "few", "3"));
    assert!(is_category("pl", "many", "5"));
    assert!(!is_category("pl", "other", "5"));
    assert!(!is_category("not a locale", "one", "1"));
    assert!(!is_category("en", "other", "one"));
    assert_eq!(category_from_name("few"), Some(PluralCategory::Few));
    assert_eq!(category_from_name("some"), None);
    assert!(is_category("en", "one", "1"));
    assert!(!is_category("en", "one", "2"));
}

#[test]
fn arguments_are_found_by_name_first_one_first() {
    let mut args = FluentArgs::new();
    args.add("a", FluentValue::String("first"));
    args.add("b", FluentValue::String("other"));
    args.add("a", FluentValue::String("second"));
    match args.get("a") {
        Some(FluentValue::String(s)) => assert_eq!(*s, "first"),
        other => panic!("unexpected value {:?}", other),
    }
    assert!(args.get("c").is_none());
}

#[test]
fn message_attributes_are_found_by_name() {
    let one = Pattern {
        elements: vec![PatternElement::TextElement("One")],
    };
    let two = Pattern {
        elements: vec![PatternElement::TextElement("Two")],
    };
    let message = FluentMessage {
        value: None,
        attributes: vec![
            FluentAttribute { id: "a", value: &one },
            FluentAttribute { id: "b", value: &two },
            FluentAttribute { id: "a", value: &two },
        ],
    };
    assert_eq!(message.get_attribute("a"), Some(&FluentAttribute { id: "a", value: &one }));
    assert_eq!(message.get_attribute("b"), Some(&FluentAttribute { id: "b", value: &two }));
    assert_eq!(message.get_attribute("c"), None);
}

#[test]
fn escapes_are_replaced() {
    assert_eq!(unescape_unicode_to_string("plain"), "plain");
    assert_eq!(unescape_unicode_to_string("a\\\\b\\\"c"), "a\\b\"c");
    assert_eq!(unescape_unicode_to_string("\\u0041\\U01F602!"), "A\u{1F602}!");
    assert_eq!(unescape_unicode_to_string("\\uD800"), "\u{FFFD}");
    assert_eq!(unescape_unicode_to_string("\\U110000"), "\u{FFFD}");
    assert_eq!(unescape_unicode_to_string("\\u00"), "\u{FFFD}");
    assert_eq!(unescape_unicode_to_string("\\q"), "\u{FFFD}");
    assert_eq!(unescape_unicode_to_string("\\é!"), "\u{FFFD}!");
    assert_eq!(unescape_unicode_to_string("end\\"), "end\u{FFFD}");
}

#[test]
fn resource_manager_error_in_words() {
    assert_eq!(
        ResourceManagerError::MissingResource("test.ftl".to_string()).to_string(),
        "Missing resource: test.ftl"
    );
}

#[test]
fn a_number_writes_itself_as_it_was_written() {
    let n = FluentNumber::from_str("-3.50").expect("a number literal");
    let mut w = String::from("n=");
    FluentType::write(&n, &mut w);
    assert_eq!(w, "n=-3.50");
}

#[test]
fn arguments_from_pairs_keep_their_order() {
    let args = FluentArgs::from(vec![
        ("a", FluentValue::String("1")),
        ("b", FluentValue::String("2")),
        ("a", FluentValue::String("3")),
    ]);
    assert!(matches!(args.get("a"), Some(FluentValue::String("1"))));
    assert!(matches!(args.get("b"), Some(FluentValue::String("2"))));
    assert!(args.get("c").is_none());
}

#[test]
fn trimming_takes_white_space_and_nothing_else() {
    let mut s = "a b \t\n\u{a0}\u{2003}\u{3000}";
    Slice::trim(&mut s);
    assert_eq!(s, "a b");
    let mut t = "x\u{200b}";
    Slice::trim(&mut t);
    assert_eq!(t, "x\u{200b}");
}
