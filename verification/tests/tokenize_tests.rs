use vi_lexer::lexer::{keyword, number, single_line_comment, tokenize};
use vi_lexer::render::{render, strip_comments};
use vi_lexer::tokens::{CommentType, Keyword, Number, Operator, Punctuation, Token};

#[test]
fn block_comment_tokenizes_whole_input() {
    let input = b"--- This is a comment ---".to_vec();
    let (tokens, end) = tokenize(&input);
    assert_eq!(
        tokens,
        vec![Token::Comment(
            CommentType::Block,
            b" This is a comment ".to_vec()
        )]
    );
    assert_eq!(end, input.len());
}

#[test]
fn line_comment_tokenizes_whole_input() {
    let input = b"-- Single line comment\n".to_vec();
    let (tokens, end) = tokenize(&input);
    assert_eq!(
        tokens,
        vec![Token::Comment(
            CommentType::Inline,
            b" Single line comment".to_vec()
        )]
    );
    assert_eq!(end, input.len());

    let input = b"-- Single line comment\r\n".to_vec();
    let (tokens, end) = tokenize(&input);
    assert_eq!(
        tokens,
        vec![Token::Comment(
            CommentType::Inline,
            b" Single line comment".to_vec()
        )]
    );
    assert_eq!(end, input.len());
}

#[test]
fn line_comment_closed_by_end_of_input() {
    let input = b"-- no newline".to_vec();
    let (tokens, end) = tokenize(&input);
    assert_eq!(
        tokens,
        vec![Token::Comment(CommentType::Inline, b" no newline".to_vec())]
    );
    assert_eq!(end, input.len());
}

#[test]
fn lone_carriage_return_closes_no_line_comment() {
    let input = b"-- text\rx".to_vec();
    assert!(single_line_comment(&input, 0).is_none());
}

#[test]
fn integer_and_float_shapes() {
    let input = b"123".to_vec();
    let (tokens, end) = tokenize(&input);
    assert_eq!(tokens, vec![Token::Number(Number::Int(123))]);
    assert_eq!(end, 3);

    let input = b"3.14".to_vec();
    let (tokens, end) = tokenize(&input);
    assert_eq!(
        tokens,
        vec![Token::Number(Number::Float(3, b"14".to_vec()))]
    );
    assert_eq!(end, 4);
}

#[test]
fn trailing_point_is_not_a_float() {
    // "3." reads as the integer 3; the number recognizer leaves the
    // point behind.
    let input = b"3.".to_vec();
    assert_eq!(number(&input, 0), Some((Token::Number(Number::Int(3)), 1)));

    // The full tokenizer then reads the point as punctuation.
    let (tokens, end) = tokenize(&input);
    assert_eq!(
        tokens,
        vec![
            Token::Number(Number::Int(3)),
            Token::Punctuation(Punctuation::Period),
        ]
    );
    assert_eq!(end, 2);
}

#[test]
fn integer_overflow_is_a_lexical_failure() {
    let input = b"2147483648".to_vec();
    assert!(number(&input, 0).is_none());
    let (tokens, end) = tokenize(&input);
    assert_eq!(tokens, vec![]);
    assert_eq!(end, 0);

    let input = b"2147483647".to_vec();
    assert_eq!(
        tokenize(&input).0,
        vec![Token::Number(Number::Int(2147483647))]
    );
}

#[test]
fn keyword_never_matches_identifier_prefix() {
    let input = b"fnord".to_vec();
    assert!(keyword(&input, 0).is_none());
    let (tokens, end) = tokenize(&input);
    assert_eq!(tokens, vec![Token::Identifier(b"fnord".to_vec())]);
    assert_eq!(end, input.len());
}

#[test]
fn booleans_are_not_identifiers() {
    let input = b"true truthy false".to_vec();
    let (tokens, end) = tokenize(&input);
    assert_eq!(
        tokens,
        vec![
            Token::Bool(true),
            Token::Identifier(b"truthy".to_vec()),
            Token::Bool(false),
        ]
    );
    assert_eq!(end, input.len());
}

#[test]
fn unterminated_string_fails_at_the_quote() {
    let input = b"\"Invalid string".to_vec();
    let (tokens, end) = tokenize(&input);
    assert_eq!(tokens, vec![]);
    assert_eq!(end, 0);

    // After some valid tokens, the reported remainder starts at the
    // opening quote.
    let input = b"let x = \"oops".to_vec();
    let (tokens, end) = tokenize(&input);
    assert_eq!(
        tokens,
        vec![
            Token::Keyword(Keyword::Let),
            Token::Identifier(b"x".to_vec()),
            Token::Operator(Operator::Equal),
        ]
    );
    assert_eq!(end, 8);
    assert_eq!(&input[end..], b"\"oops");
}

#[test]
fn double_equals_is_one_is_equal_token() {
    let input = b"a == b".to_vec();
    let (tokens, end) = tokenize(&input);
    assert_eq!(
        tokens,
        vec![
            Token::Identifier(b"a".to_vec()),
            Token::Operator(Operator::IsEqual),
            Token::Identifier(b"b".to_vec()),
        ]
    );
    assert_eq!(end, input.len());

    // Separated by whitespace, two Equal tokens are still possible.
    let input = b"a = = b".to_vec();
    let (tokens, _) = tokenize(&input);
    assert_eq!(
        tokens,
        vec![
            Token::Identifier(b"a".to_vec()),
            Token::Operator(Operator::Equal),
            Token::Operator(Operator::Equal),
            Token::Identifier(b"b".to_vec()),
        ]
    );
}

#[test]
fn concat_is_one_token() {
    let input = b"a ++ b + c".to_vec();
    let (tokens, _) = tokenize(&input);
    assert_eq!(
        tokens,
        vec![
            Token::Identifier(b"a".to_vec()),
            Token::Operator(Operator::Concat),
            Token::Identifier(b"b".to_vec()),
            Token::Operator(Operator::Plus),
            Token::Identifier(b"c".to_vec()),
        ]
    );
}

#[test]
fn whitespace_is_invisible() {
    let input = b"  import\t my-module ;\n".to_vec();
    let (tokens, end) = tokenize(&input);
    assert_eq!(
        tokens,
        vec![
            Token::Keyword(Keyword::Import),
            Token::Identifier(b"my-module".to_vec()),
            Token::Punctuation(Punctuation::SemiColon),
        ]
    );
    assert_eq!(end, input.len());
}

#[test]
fn unrecognized_character_stops_tokenization() {
    let input = b"let x @ y".to_vec();
    let (tokens, end) = tokenize(&input);
    assert_eq!(
        tokens,
        vec![
            Token::Keyword(Keyword::Let),
            Token::Identifier(b"x".to_vec()),
        ]
    );
    assert_eq!(end, 6);
    assert_eq!(&input[end..], b"@ y");
}

#[test]
fn render_round_trip_keeps_non_comment_tokens() {
    let input =
        b"--- setup ---\nlet total = 0\nif total == 3.5 { total = \"done\" } -- tail\nreturn total % 2 ++ true"
            .to_vec();
    let (tokens, end) = tokenize(&input);
    assert_eq!(end, input.len());
    let kept = strip_comments(&tokens);
    assert!(kept.len() < tokens.len());
    let rendered = render(&kept);
    let (again, end2) = tokenize(&rendered);
    assert_eq!(end2, rendered.len());
    assert_eq!(again, kept);
}

#[test]
fn render_spells_tokens_canonically() {
    let tokens = vec![
        Token::Keyword(Keyword::Let),
        Token::Identifier(b"x".to_vec()),
        Token::Operator(Operator::Equal),
        Token::Number(Number::Float(3, b"14".to_vec())),
        Token::Punctuation(Punctuation::SemiColon),
    ];
    let rendered = render(&tokens);
    assert_eq!(rendered, b"let x = 3.14 ; ".to_vec());
}
