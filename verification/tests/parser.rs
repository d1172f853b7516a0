use fluent::syntax::ast::{
    Attribute, CallArguments, Comment, CommentDef, Entry, Expression, Identifier, InlineExpression,
    Message, NamedArgument, Pattern, PatternElement, ResourceEntry, Term, Variant, VariantKey,
};
use fluent::syntax::errors::ErrorKind;
use fluent::syntax::parser::Parser;

fn text_message(id: &'static str, value: &'static str) -> ResourceEntry<&'static str> {
    ResourceEntry::Entry(Entry::Message(Message {
        id: Identifier { name: id },
        value: Some(Pattern {
            elements: vec![PatternElement::TextElement(value)],
        }),
        attributes: vec![],
        comment: None,
    }))
}

#[test]
fn parser_recovery() {
    let source = "good = A\nbad = \nnext = B\n";
    let (resource, errors) = match Parser::new(source).parse() {
        Ok(_) => panic!("the source holds an entry without a value"),
        Err(found) => found,
    };
    assert_eq!(errors.len(), 1);
    assert_eq!(
        errors[0].kind,
        ErrorKind::ExpectedMessageField {
            entry_id: "bad".to_string()
        }
    );
    assert_eq!(errors[0].slice, Some((9, 16)));
    assert_eq!(
        resource.body,
        vec![
            text_message("good", "A"),
            ResourceEntry::Junk("bad = \n"),
            text_message("next", "B"),
        ]
    );
}

fn parse_ok(source: &'static str) -> fluent::syntax::ast::Resource<&'static str> {
    match Parser::new(source).parse() {
        Ok(resource) => resource,
        Err((_, errors)) => panic!("unexpected errors: {:?}", errors),
    }
}

fn first_error(source: &'static str) -> fluent::syntax::errors::ParserError {
    match Parser::new(source).parse() {
        Ok(_) => panic!("the source has an error"),
        Err((_, mut errors)) => errors.remove(0),
    }
}

fn message_value(source: &'static str) -> Vec<PatternElement<&'static str>> {
    let mut resource = parse_ok(source);
    match resource.body.remove(0) {
        ResourceEntry::Entry(Entry::Message(m)) => m.value.expect("the message has a value").elements,
        other => panic!("unexpected entry {:?}", other),
    }
}

#[test]
fn identity_message() {
    assert_eq!(
        parse_ok("key = Value").body,
        vec![text_message("key", "Value")]
    );
    assert_eq!(
        parse_ok("key=Value").body,
        vec![text_message("key", "Value")]
    );
}

#[test]
fn owned_and_borrowed_sources_parse_alike() {
    let owned = match Parser::new("key = Value\n".to_string()).parse() {
        Ok(resource) => resource,
        Err(_) => panic!("the source parses"),
    };
    match &owned.body[0] {
        ResourceEntry::Entry(Entry::Message(m)) => {
            let borrowed = m.borrowed();
            assert_eq!(borrowed.id.name, "key");
            assert_eq!(
                borrowed.value,
                Some(Pattern {
                    elements: vec![PatternElement::TextElement("Value")]
                })
            );
        }
        other => panic!("unexpected entry {:?}", other),
    }
}

#[test]
fn trailing_white_space_is_trimmed() {
    assert_eq!(
        message_value("key = Value  \n"),
        vec![PatternElement::TextElement("Value")]
    );
}

#[test]
fn multiline_pattern_loses_common_indent() {
    assert_eq!(
        message_value("key =\n    First\n      Second\n    Third\n"),
        vec![
            PatternElement::TextElement("First\n"),
            PatternElement::TextElement("  Second\n"),
            PatternElement::TextElement("Third"),
        ]
    );
}

#[test]
fn indent_is_never_more_than_the_line_has() {
    assert_eq!(
        message_value("key =\n        Deep\n  Shallow\n"),
        vec![
            PatternElement::TextElement("      Deep\n"),
            PatternElement::TextElement("Shallow"),
        ]
    );
}

#[test]
fn pattern_ends_before_an_entry() {
    let resource = parse_ok("a = One\n  more\nb = Two\n");
    assert_eq!(resource.body.len(), 2);
    assert_eq!(resource.body[1], text_message("b", "Two"));
}

#[test]
fn crlf_line_endings_are_kept() {
    assert_eq!(
        message_value("key = A\r\n  B\r\n"),
        vec![
            PatternElement::TextElement("A\r\n"),
            PatternElement::TextElement("B"),
        ]
    );
}

#[test]
fn placeables_and_references() {
    let elements = message_value(
        "key = { $var } { msg.attr } { -term(case: \"x\") } { FUN(1, a: 2) } { \"s\" } { -3.5 }",
    );
    let placeables: Vec<_> = elements
        .into_iter()
        .filter_map(|e| match e {
            PatternElement::Placeable(Expression::InlineExpression(i)) => Some(i),
            _ => None,
        })
        .collect();
    assert_eq!(
        placeables,
        vec![
            InlineExpression::VariableReference {
                id: Identifier { name: "var" }
            },
            InlineExpression::MessageReference {
                id: Identifier { name: "msg" },
                attribute: Some(Identifier { name: "attr" })
            },
            InlineExpression::TermReference {
                id: Identifier { name: "term" },
                attribute: None,
                arguments: Some(CallArguments {
                    positional: vec![],
                    named: vec![NamedArgument {
                        name: Identifier { name: "case" },
                        value: InlineExpression::StringLiteral { value: "x" }
                    }]
                })
            },
            InlineExpression::FunctionReference {
                id: Identifier { name: "FUN" },
                arguments: Some(CallArguments {
                    positional: vec![InlineExpression::NumberLiteral { value: "1" }],
                    named: vec![NamedArgument {
                        name: Identifier { name: "a" },
                        value: InlineExpression::NumberLiteral { value: "2" }
                    }]
                })
            },
            InlineExpression::StringLiteral { value: "s" },
            InlineExpression::NumberLiteral { value: "-3.5" },
        ]
    );
}

#[test]
fn select_expression_with_variants() {
    let elements = message_value("key = { $n ->\n    [one] One\n   *[other] Other { $n }\n    [3] Three\n}\n");
    assert_eq!(
        elements,
        vec![PatternElement::Placeable(Expression::SelectExpression {
            selector: InlineExpression::VariableReference {
                id: Identifier { name: "n" }
            },
            variants: vec![
                Variant {
                    key: VariantKey::Identifier { name: "one" },
                    value: Pattern {
                        elements: vec![PatternElement::TextElement("One")]
                    },
                    default: false
                },
                Variant {
                    key: VariantKey::Identifier { name: "other" },
                    value: Pattern {
                        elements: vec![
                            PatternElement::TextElement("Other "),
                            PatternElement::Placeable(Expression::InlineExpression(
                                InlineExpression::VariableReference {
                                    id: Identifier { name: "n" }
                                }
                            ))
                        ]
                    },
                    default: true
                },
                Variant {
                    key: VariantKey::NumberLiteral { value: "3" },
                    value: Pattern {
                        elements: vec![PatternElement::TextElement("Three")]
                    },
                    default: false
                },
            ]
        })]
    );
}

#[test]
fn terms_attributes_and_comments() {
    let resource = parse_ok(
        "### Resource\n\n## Group\n\n# About the term\n-brand = Firefox\n    .gender = masculine\n\n# Loose\n\n\nkey =\n    .title = Title\n",
    );
    assert_eq!(
        resource.body,
        vec![
            ResourceEntry::Entry(Entry::Comment(Comment::ResourceComment {
                content: vec!["Resource"]
            })),
            ResourceEntry::Entry(Entry::Comment(Comment::GroupComment {
                content: vec!["Group"]
            })),
            ResourceEntry::Entry(Entry::Term(Term {
                id: Identifier { name: "brand" },
                value: Pattern {
                    elements: vec![PatternElement::TextElement("Firefox")]
                },
                attributes: vec![Attribute {
                    id: Identifier { name: "gender" },
                    value: Pattern {
                        elements: vec![PatternElement::TextElement("masculine")]
                    }
                }],
                comment: Some(Comment::Comment {
                    content: vec!["About the term"]
                })
            })),
            ResourceEntry::Entry(Entry::Comment(Comment::Comment {
                content: vec!["Loose"]
            })),
            ResourceEntry::Entry(Entry::Message(Message {
                id: Identifier { name: "key" },
                value: None,
                attributes: vec![Attribute {
                    id: Identifier { name: "title" },
                    value: Pattern {
                        elements: vec![PatternElement::TextElement("Title")]
                    }
                }],
                comment: None
            })),
        ]
    );
}

#[test]
fn multiline_comment_and_empty_lines() {
    let resource = parse_ok("# One\n#\n# Three\n");
    assert_eq!(
        resource.body,
        vec![ResourceEntry::Entry(Entry::Comment(Comment::Comment {
            content: vec!["One", "", "Three"]
        }))]
    );
}

#[test]
fn junk_runs_to_the_next_entry_start() {
    let source = "a = {\nb = B\n  # not a start\n-t = T\n";
    let (resource, errors) = match Parser::new(source).parse() {
        Ok(_) => panic!("the source has an error"),
        Err(found) => found,
    };
    assert_eq!(errors.len(), 1);
    assert_eq!(resource.body[0], ResourceEntry::Junk("a = {\n"));
    assert_eq!(
        resource.body[1],
        ResourceEntry::Entry(Entry::Message(Message {
            id: Identifier { name: "b" },
            value: Some(Pattern {
                elements: vec![
                    PatternElement::TextElement("B\n"),
                    PatternElement::TextElement("# not a start"),
                ],
            }),
            attributes: vec![],
            comment: None,
        }))
    );
    assert_eq!(resource.body.len(), 3);
}

#[test]
fn every_byte_is_in_an_entry_or_in_junk() {
    let source = "ok = 1\n??? junk ???\nmore junk\n# c\nlast = { 2 }";
    let (resource, _) = match Parser::new(source).parse() {
        Ok(_) => panic!("the source has an error"),
        Err(found) => found,
    };
    let junk: Vec<&str> = resource
        .body
        .iter()
        .filter_map(|e| match e {
            ResourceEntry::Junk(s) => Some(*s),
            _ => None,
        })
        .collect();
    assert_eq!(junk, vec!["??? junk ???\n", "more junk\n"]);
}

#[test]
fn parse_errors_by_kind() {
    let cases: Vec<(&'static str, ErrorKind, (usize, usize))> = vec![
        ("key Value", ErrorKind::ExpectedToken('='), (4, 5)),
        (
            "1key = v",
            ErrorKind::ExpectedCharRange {
                range: "a-zA-Z".to_string(),
            },
            (0, 1),
        ),
        (
            "key = { 1. }",
            ErrorKind::ExpectedCharRange {
                range: "0-9".to_string(),
            },
            (10, 11),
        ),
        (
            "-term =\n",
            ErrorKind::ExpectedTermField {
                entry_id: "term".to_string(),
            },
            (0, 8),
        ),
        ("key = { $n ->\n    [one] One\n}\n", ErrorKind::MissingDefaultVariant, (28, 29)),
        (
            "key = { $n ->\n   *[one] One\n   *[two] Two\n}\n",
            ErrorKind::MultipleDefaultVariants,
            (32, 33),
        ),
        ("key = { $n ->\n   *[one]\n}\n", ErrorKind::MissingValue, (24, 25)),
        ("key = { -term.attr }", ErrorKind::TermAttributeAsPlaceable, (19, 20)),
        ("key = { msg ->\n   *[a] A\n}\n", ErrorKind::MessageReferenceAsSelector, (12, 13)),
        ("key = { msg.attr ->\n   *[a] A\n}\n", ErrorKind::MessageAttributeAsSelector, (17, 18)),
        ("key = { -term ->\n   *[a] A\n}\n", ErrorKind::TermReferenceAsSelector, (14, 15)),
        (
            "key = { { 1 } ->\n   *[a] A\n}\n",
            ErrorKind::ExpectedSimpleExpressionAsSelector,
            (14, 15),
        ),
        ("key = { % }", ErrorKind::ExpectedInlineExpression, (8, 9)),
        (
            "key = { \"\\u00zz\" }",
            ErrorKind::InvalidUnicodeEscapeSequence("00z".to_string()),
            (13, 14),
        ),
        ("key = a } b", ErrorKind::UnbalancedClosingBrace, (8, 9)),
        ("key = { fun() }", ErrorKind::ForbiddenCallee, (13, 14)),
        (
            "key = { FUN(a: 1, a: 2) }",
            ErrorKind::DuplicatedNamedArgument("a".to_string()),
            (19, 20),
        ),
        (
            "key = { FUN(a: 1, 2) }",
            ErrorKind::PositionalArgumentFollowsNamed,
            (19, 20),
        ),
        ("key = { \"a\\qb\" }", ErrorKind::Generic, (10, 11)),
    ];
    let mut wrong = vec![];
    for (source, kind, pos) in cases {
        let error = first_error(source);
        if error.kind != kind || error.pos != pos {
            wrong.push(format!("{:?}: {:?} at {:?}", source, error.kind, error.pos));
        }
    }
    assert_eq!(wrong, Vec::<String>::new());
}

#[test]
fn comment_def_becomes_a_comment() {
    assert_eq!(
        CommentDef::Single { content: "one" }.into_comment(),
        Comment::Comment {
            content: vec!["one"]
        }
    );
    assert_eq!(
        CommentDef::Multi {
            content: vec!["a", "b"]
        }
        .into_comment(),
        Comment::Comment {
            content: vec!["a", "b"]
        }
    );
}

#[test]
fn is_current_byte_reads_without_moving() {
    let parser = Parser::new("key = Value");
    assert!(parser.is_current_byte(b'k'));
    assert!(!parser.is_current_byte(b'e'));
    assert!(!Parser::new("").is_current_byte(b'k'));
}

#[test]
fn text_with_characters_of_several_bytes() {
    assert_eq!(
        message_value("key = Zażółć { \"gęślą\" } jaźń\u{a0}\n"),
        vec![
            PatternElement::TextElement("Zażółć "),
            PatternElement::Placeable(Expression::InlineExpression(
                InlineExpression::StringLiteral { value: "gęślą" }
            )),
            PatternElement::TextElement(" jaźń"),
        ]
    );
}

#[test]
fn parsing_twice_gives_the_same() {
    let source = "# c\na = { $x ->\n   *[one] One\n}\n??\n-t = T\n    .a = b\n";
    let first = Parser::new(source).parse();
    let second = Parser::new(source).parse();
    assert_eq!(first, second);
    let owned = Parser::new(source.to_string()).parse();
    match (first, owned) {
        (Err((a, ea)), Err((b, eb))) => {
            assert_eq!(format!("{:?}", a), format!("{:?}", b));
            assert_eq!(ea, eb);
        }
        _ => panic!("the source has junk"),
    }
}
