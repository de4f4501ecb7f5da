use vi_lexer::lexer::{
    boolean, comment, identifier, keyword, multi_line_comment, number, operator, punctuation,
    single_line_comment, string,
};
use vi_lexer::tokens::{CommentType, Keyword, Number, Operator, Punctuation, Token};

#[test]
fn test_comment() {
    let input = b"--- This is a comment ---".to_vec();
    assert_eq!(
        comment(&input, 0),
        Some((
            Token::Comment(CommentType::Block, b" This is a comment ".to_vec()),
            input.len()
        ))
    );
    let input = b"--- This is a\nmultiline comment ---".to_vec();
    assert_eq!(
        comment(&input, 0),
        Some((
            Token::Comment(CommentType::Block, b" This is a\nmultiline comment ".to_vec()),
            input.len()
        ))
    );
    let input = b"-- Single line comment\n".to_vec();
    assert_eq!(
        comment(&input, 0),
        Some((
            Token::Comment(CommentType::Inline, b" Single line comment".to_vec()),
            input.len()
        ))
    );
}

#[test]
fn test_multi_line_comment() {
    let input = b"--- Multi-line\ncomment ---".to_vec();
    assert_eq!(
        multi_line_comment(&input, 0),
        Some((
            Token::Comment(CommentType::Block, b" Multi-line\ncomment ".to_vec()),
            input.len()
        ))
    );
}

#[test]
fn test_single_line_comment() {
    let input = b"-- Single line comment\n".to_vec();
    assert_eq!(
        single_line_comment(&input, 0),
        Some((
            Token::Comment(CommentType::Inline, b" Single line comment".to_vec()),
            input.len()
        ))
    );

    let input = b"-- Single line comment\r\n".to_vec();
    assert_eq!(
        single_line_comment(&input, 0),
        Some((
            Token::Comment(CommentType::Inline, b" Single line comment".to_vec()),
            input.len()
        ))
    );
}

#[test]
fn test_keyword() {
    let input = b"import".to_vec();
    assert_eq!(
        keyword(&input, 0),
        Some((Token::Keyword(Keyword::Import), 6))
    );
    let input = b"fn".to_vec();
    assert_eq!(keyword(&input, 0), Some((Token::Keyword(Keyword::Fn), 2)));
    let input = b"let".to_vec();
    assert_eq!(keyword(&input, 0), Some((Token::Keyword(Keyword::Let), 3)));
    let input = b"const".to_vec();
    assert_eq!(
        keyword(&input, 0),
        Some((Token::Keyword(Keyword::Const), 5))
    );
    let input = b"if".to_vec();
    assert_eq!(keyword(&input, 0), Some((Token::Keyword(Keyword::If), 2)));
    let input = b"else".to_vec();
    assert_eq!(keyword(&input, 0), Some((Token::Keyword(Keyword::Else), 4)));
    let input = b"return".to_vec();
    assert_eq!(
        keyword(&input, 0),
        Some((Token::Keyword(Keyword::Return), 6))
    );

    let input = b"invalid_keyword".to_vec();
    assert!(keyword(&input, 0).is_none());
}

#[test]
fn test_identifier() {
    let cases: [&[u8]; 12] = [
        b"a",
        b"z",
        b"A",
        b"Z",
        b"ab",
        b"Az",
        b"Z1",
        b"a9",
        b"abc_def",
        b"x-y-z",
        b"A0_B1-C2",
        b"test123_abc-xyz",
    ];
    for text in cases {
        let input = text.to_vec();
        assert_eq!(
            identifier(&input, 0),
            Some((Token::Identifier(text.to_vec()), input.len()))
        );
    }
}

#[test]
fn test_punctuation() {
    let cases: [(&[u8], Punctuation); 10] = [
        (b".", Punctuation::Period),
        (b",", Punctuation::Comma),
        (b":", Punctuation::Colon),
        (b";", Punctuation::SemiColon),
        (b"(", Punctuation::RParen),
        (b")", Punctuation::LParen),
        (b"[", Punctuation::RBrack),
        (b"]", Punctuation::LBrack),
        (b"{", Punctuation::RBrace),
        (b"}", Punctuation::LBrace),
    ];
    for (text, kind) in cases {
        let input = text.to_vec();
        assert_eq!(
            punctuation(&input, 0),
            Some((Token::Punctuation(kind), 1))
        );
    }

    let input = b"!".to_vec();
    assert!(punctuation(&input, 0).is_none());
}

#[test]
fn test_operator() {
    let input = b"=".to_vec();
    assert_eq!(
        operator(&input, 0),
        Some((Token::Operator(Operator::Equal), 1))
    );
    let input = b"+".to_vec();
    assert_eq!(
        operator(&input, 0),
        Some((Token::Operator(Operator::Plus), 1))
    );
    let input = b"-".to_vec();
    assert_eq!(
        operator(&input, 0),
        Some((Token::Operator(Operator::Minus), 1))
    );
    let input = b"%".to_vec();
    assert_eq!(
        operator(&input, 0),
        Some((Token::Operator(Operator::Mod), 1))
    );
    let input = b"==".to_vec();
    assert_eq!(
        operator(&input, 0),
        Some((Token::Operator(Operator::IsEqual), 2))
    );
    let input = b"++".to_vec();
    assert_eq!(
        operator(&input, 0),
        Some((Token::Operator(Operator::Concat), 2))
    );

    let input = b"!".to_vec();
    assert!(operator(&input, 0).is_none());
}

#[test]
fn test_string() {
    let input = b"\"Hello, World!\"".to_vec();
    assert_eq!(
        string(&input, 0),
        Some((Token::String(b"Hello, World!".to_vec()), input.len()))
    );

    let input = b"\"Invalid string".to_vec();
    assert!(string(&input, 0).is_none());
}

#[test]
fn test_number() {
    let input = b"123".to_vec();
    assert_eq!(number(&input, 0), Some((Token::Number(Number::Int(123)), 3)));

    let input = b"3.14".to_vec();
    let r = number(&input, 0);
    assert_eq!(
        r,
        Some((Token::Number(Number::Float(3, b"14".to_vec())), 4))
    );
    match r {
        Some((Token::Number(Number::Float(ip, frac)), _)) => {
            let text = format!("{}.{}", ip, String::from_utf8(frac).unwrap());
            let value: f64 = text.parse().unwrap();
            assert_eq!(value, 3.14);
        }
        other => panic!("expected a floating literal, got {:?}", other),
    }

    let input = b"invalid".to_vec();
    assert!(number(&input, 0).is_none());
}

#[test]
fn test_bool() {
    let input = b"true".to_vec();
    assert_eq!(boolean(&input, 0), Some((Token::Bool(true), 4)));
    let input = b"false".to_vec();
    assert_eq!(boolean(&input, 0), Some((Token::Bool(false), 5)));

    let input = b"invalid".to_vec();
    assert!(boolean(&input, 0).is_none());
}
