use fluent::syntax::lexer::{Lexer, Token};
use fluent::syntax::lexer_model::{LexerError, LexerState};

fn tokens(source: &str) -> Vec<Token> {
    let mut lexer = Lexer::new(source.as_bytes());
    let mut found = vec![];
    while let Some(token) = lexer.next() {
        found.push(token);
        assert!(found.len() < 1000, "the lexer does not come to an end");
    }
    found
}

#[test]
fn lexer_reads_a_message() {
    assert_eq!(
        tokens("key = Value"),
        vec![
            Token::Identifier(0..3),
            Token::EqSign,
            Token::Text(6..11),
            Token::Eot
        ]
    );
}

#[test]
fn lexer_reads_a_placeable() {
    assert_eq!(
        tokens("key = A { $user } B\n"),
        vec![
            Token::Identifier(0..3),
            Token::EqSign,
            Token::Text(6..8),
            Token::OpenCurlyBraces,
            Token::Dollar,
            Token::Identifier(11..15),
            Token::CloseCurlyBraces,
            Token::Text(17..20),
            Token::Eot,
        ]
    );
}

#[test]
fn lexer_reads_comments_of_each_level() {
    assert_eq!(
        tokens("# one\n## two\n### three\n"),
        vec![
            Token::CommentSign,
            Token::Text(2..5),
            Token::GroupCommentSign,
            Token::Text(9..12),
            Token::ResourceCommentSign,
            Token::Text(17..22),
        ]
    );
}

#[test]
fn lexer_reads_a_multiline_pattern_and_an_attribute() {
    assert_eq!(
        tokens("key =\n    Line\n    .attr = X\n"),
        vec![
            Token::Identifier(0..3),
            Token::EqSign,
            Token::Indent(4),
            Token::Text(10..15),
            Token::Eot,
            Token::Dot,
            Token::Identifier(20..24),
            Token::EqSign,
            Token::Text(27..29),
            Token::Eot,
        ]
    );
}

#[test]
fn lexer_reads_expressions() {
    assert_eq!(
        tokens("k = { -t.a(1.5, x: \"s\") }"),
        vec![
            Token::Identifier(0..1),
            Token::EqSign,
            Token::OpenCurlyBraces,
            Token::MinusSign,
            Token::Identifier(7..8),
            Token::Dot,
            Token::Identifier(9..10),
            Token::OpenBraces,
            Token::Number(11..14),
            Token::Comma,
            Token::Identifier(16..17),
            Token::Colon,
            Token::Text(20..21),
            Token::CloseBraces,
            Token::CloseCurlyBraces,
            Token::Eot,
        ]
    );
}

#[test]
fn lexer_turns_what_it_cannot_read_into_junk() {
    assert_eq!(
        tokens("?? what\nkey = V\n"),
        vec![
            Token::Junk(0..8),
            Token::Identifier(8..11),
            Token::EqSign,
            Token::Text(14..16),
            Token::Eot,
        ]
    );
}

#[test]
fn lexer_try_next_reports_errors() {
    let mut lexer = Lexer::new(b"= x");
    assert_eq!(lexer.try_next(), Err(LexerError::Unknown));
    assert_eq!(lexer.get_junk(), 0..3);
    assert_eq!(lexer.try_next(), Ok(None));
}

#[test]
fn lexer_expect_peek_and_take() {
    let mut lexer = Lexer::new(b"key = V");
    assert_eq!(lexer.try_peek(), Ok(Some(Token::Identifier(0..3))));
    assert_eq!(lexer.expect(Token::Identifier(0..3)), Ok(()));
    assert_eq!(lexer.take_if(Token::Dot), Ok(false));
    assert_eq!(lexer.take_if(Token::EqSign), Ok(true));
    assert_eq!(lexer.expect(Token::Eot), Err(LexerError::Unknown));
}

#[test]
fn lexer_snapshot_and_restore() {
    let mut lexer = Lexer::new(b"key = V");
    let start = lexer.get_state_snapshot();
    assert_eq!(start, (0, LexerState::Resource, 0, None));
    assert_eq!(lexer.try_next(), Ok(Some(Token::Identifier(0..3))));
    assert_eq!(
        lexer.get_state_snapshot(),
        (3, LexerState::Message, 0, None)
    );
    lexer.set_state(start);
    assert_eq!(lexer.try_next(), Ok(Some(Token::Identifier(0..3))));
}

#[test]
fn junk_ends_where_a_line_begins_with_a_letter() {
    let mut lexer = Lexer::new("\nabc".as_bytes());
    assert_eq!(lexer.get_junk(), 0..1);
    let mut lexer = Lexer::new("?\n#c".as_bytes());
    assert_eq!(lexer.get_junk(), 0..2);
    let mut lexer = Lexer::new("??\n ?".as_bytes());
    assert_eq!(lexer.get_junk(), 0..5);
}

#[test]
fn a_snapshot_behind_the_end_is_the_end() {
    let mut lexer = Lexer::new("ab".as_bytes());
    lexer.set_state((7, LexerState::Resource, 0, None));
    assert_eq!(lexer.get_state_snapshot().0, 2);
    assert_eq!(lexer.next(), None);
}
