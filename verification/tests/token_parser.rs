use fluent::syntax::ast::{
    Comment, Entry, Expression, Identifier, InlineExpression, Message, Pattern, PatternElement,
    Resource, ResourceEntry,
};
use fluent::syntax::token_parser::Parser;

fn parse(source: &'static str) -> Resource<&'static str> {
    match Parser::new(source).parse() {
        Ok(resource) => resource,
        Err(_) => panic!("the parser over tokens always gives a resource"),
    }
}

fn message(
    id: &'static str,
    elements: Vec<PatternElement<&'static str>>,
) -> ResourceEntry<&'static str> {
    ResourceEntry::Entry(Entry::Message(Message {
        id: Identifier { name: id },
        value: Some(Pattern { elements }),
        attributes: vec![],
        comment: None,
    }))
}

#[test]
fn tokens_make_a_message() {
    assert_eq!(
        parse("key = Value").body,
        vec![message("key", vec![PatternElement::TextElement("Value")])]
    );
    assert_eq!(
        parse("key = Value\n").body,
        vec![message("key", vec![PatternElement::TextElement("Value")])]
    );
}

#[test]
fn tokens_make_a_placeable() {
    assert_eq!(
        parse("key = { $n }").body,
        vec![message(
            "key",
            vec![PatternElement::Placeable(Expression::InlineExpression(
                InlineExpression::VariableReference {
                    id: Identifier { name: "n" }
                }
            ))]
        )]
    );
}

#[test]
fn tokens_keep_what_cannot_be_read_as_junk() {
    assert_eq!(
        parse("?? what\nkey = V\n").body,
        vec![
            ResourceEntry::Junk("?? what\n"),
            message("key", vec![PatternElement::TextElement("V")])
        ]
    );
}

#[test]
fn tokens_attach_a_comment_to_its_message() {
    assert_eq!(
        parse("# c\nkey = V").body,
        vec![ResourceEntry::Entry(Entry::Message(Message {
            id: Identifier { name: "key" },
            value: Some(Pattern {
                elements: vec![PatternElement::TextElement("V")]
            }),
            attributes: vec![],
            comment: Some(Comment::Comment { content: vec!["c"] }),
        }))]
    );
}

#[test]
fn tokens_of_any_source_come_to_an_end() {
    for source in [
        "",
        "=",
        "a",
        "a =",
        "a = {",
        "a = { \"x",
        "-t = {\n*[",
        "# c",
        "## c\n### d\n#",
        "a = b\n .c = d\n .e = { f(g: 1, h) }\n",
        "a = { $n ->\n  [one] 1\n *[other] 2\n}\n",
        "\r\n\r\n }{ ]] ** \n-",
    ] {
        let _ = parse(source);
    }
}

#[test]
fn tokens_trim_the_end_of_a_pattern() {
    assert_eq!(
        parse("key = Value   \n\n\nnext = x").body,
        vec![
            message("key", vec![PatternElement::TextElement("Value")]),
            message("next", vec![PatternElement::TextElement("x")]),
        ]
    );
}

#[test]
fn tokens_cut_lines_back_to_the_common_indent() {
    assert_eq!(
        parse("key =\n    One\n      Two\n").body,
        vec![message(
            "key",
            vec![
                PatternElement::TextElement("One\n"),
                PatternElement::TextElement("  Two"),
            ]
        )]
    );
}
