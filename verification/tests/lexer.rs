use recstore::lexer::{lex, Keyword, Operator, Token};

#[test]
fn select_1() {
    assert_eq!(
        lex("select * from mytable;").unwrap(),
        vec![
            Token::Keyword(Keyword::Select),
            Token::Operator(Operator::Star),
            Token::Keyword(Keyword::From),
            Token::Identifier("mytable".to_owned()),
            Token::Operator(Operator::Semicolon),
        ]
    );
}

#[test]
fn select_2() {
    assert_eq!(
        lex("select -123,4 from foo;").unwrap(),
        vec![
            Token::Keyword(Keyword::Select),
            Token::Operator(Operator::Minus),
            Token::Number(123),
            Token::Operator(Operator::Comma),
            Token::Number(4),
            Token::Keyword(Keyword::From),
            Token::Identifier("foo".to_owned()),
            Token::Operator(Operator::Semicolon),
        ]
    );
}

#[test]
fn random_stream_of_tokens() {
    assert_eq!(
        lex(";;,*   (- +//)
        select, 123.5, ffrom where join GROUP ORDER 
        ")
        .unwrap(),
        vec![
            Token::Operator(Operator::Semicolon),
            Token::Operator(Operator::Semicolon),
            Token::Operator(Operator::Comma),
            Token::Operator(Operator::Star),
            Token::Operator(Operator::Opening),
            Token::Operator(Operator::Minus),
            Token::Operator(Operator::Plus),
            Token::Operator(Operator::Divide),
            Token::Operator(Operator::Divide),
            Token::Operator(Operator::Closing),
            Token::Keyword(Keyword::Select),
            Token::Operator(Operator::Comma),
            Token::Number(123),
            Token::Operator(Operator::Dot),
            Token::Number(5),
            Token::Operator(Operator::Comma),
            Token::Identifier("ffrom".to_owned()),
            Token::Keyword(Keyword::Where),
            Token::Keyword(Keyword::Join),
            Token::Keyword(Keyword::Group),
            Token::Keyword(Keyword::Order),
        ]
    );
}

#[test]
fn empty_input() {
    assert_eq!(lex("").unwrap(), vec![]);
    assert_eq!(lex("   \n\t  ").unwrap(), vec![]);
}

#[test]
fn number_at_i32_limit() {
    assert_eq!(lex("2147483647").unwrap(), vec![Token::Number(2147483647)]);
}

#[test]
fn number_past_i32_limit() {
    assert!(lex("2147483648").is_err());
    assert!(lex("99999999999999999999").is_err());
}

#[test]
fn keywords_fold_case() {
    assert_eq!(
        lex("SeLeCt NOT").unwrap(),
        vec![Token::Keyword(Keyword::Select), Token::Keyword(Keyword::Not)]
    );
}
