use std::cmp::Ordering;

use pbase::common::PBaseError;
use pbase::lexer::{Lexer, Token};
use pbase::parser::Parser;
use pbase::query::{Query, SelectQuery};

#[test]
fn test_simple_select_query() {
    let raw_query = "
        SELECT
        FROM t1
"
    .as_bytes();

    let tokens = Lexer::tokenize(raw_query).unwrap();

    assert_eq!(3, tokens.len());
    assert_eq!(Token::Select, tokens[0]);
    assert_eq!(Token::From, tokens[1]);
    assert_eq!(Token::Identifier("t1".into()), tokens[2]);
}

#[test]
fn test_full_select_query() {
    let raw_query = "
        SELECT
            FROM t1
            JOIN t2 ON t1.id = t2.t1_id
        WHERE
            t1.id = 1 AND
            t2.v < 2
"
    .as_bytes();

    let tokens = Lexer::tokenize(raw_query).unwrap();

    assert_eq!(25, tokens.len());
    assert_eq!(Token::Select, tokens[0]);
    assert_eq!(Token::From, tokens[1]);
    assert_eq!(Token::Identifier("t1".into()), tokens[2]);
    assert_eq!(Token::Join, tokens[3]);
    assert_eq!(Token::Identifier("t2".into()), tokens[4]);
    assert_eq!(Token::Identifier("ON".into()), tokens[5]);
    assert_eq!(Token::Identifier("t1".into()), tokens[6]);
    assert_eq!(Token::Dot, tokens[7]);
    assert_eq!(Token::Identifier("id".into()), tokens[8]);
    assert_eq!(Token::Op(Ordering::Equal), tokens[9]);
    assert_eq!(Token::Identifier("t2".into()), tokens[10]);
    assert_eq!(Token::Dot, tokens[11]);
    assert_eq!(Token::Identifier("t1_id".into()), tokens[12]);
    assert_eq!(Token::Identifier("WHERE".into()), tokens[13]);
    assert_eq!(Token::Identifier("t1".into()), tokens[14]);
    assert_eq!(Token::Dot, tokens[15]);
    assert_eq!(Token::Identifier("id".into()), tokens[16]);
    assert_eq!(Token::Op(Ordering::Equal), tokens[17]);
    assert_eq!(Token::Int(1), tokens[18]);
    assert_eq!(Token::And, tokens[19]);
    assert_eq!(Token::Identifier("t2".into()), tokens[20]);
    assert_eq!(Token::Dot, tokens[21]);
    assert_eq!(Token::Identifier("v".into()), tokens[22]);
    assert_eq!(Token::Op(Ordering::Less), tokens[23]);
    assert_eq!(Token::Int(2), tokens[24]);
}

#[test]
fn test_minimal_select_query() {
    let query = Parser::new(
        &Lexer::tokenize(
            "
        SELECT
        FROM t1
        "
            .as_bytes(),
        )
        .expect("failed to tokenize")[..],
    )
    .parse()
    .expect("failed to parse");

    assert_eq!(
        Query::Select(SelectQuery {
            from: "t1".into(),
            joins: vec![],
            filters: vec![]
        }),
        query,
    );
}

#[test]
fn test_tokenize_rejects_unknown_character() {
    let result = Lexer::tokenize("SELECT ?".as_bytes());
    assert!(matches!(result, Err(PBaseError::BadToken(_))));
}

#[test]
fn test_parse_rejects_missing_table_name() {
    let tokens = Lexer::tokenize("SELECT FROM ,".as_bytes()).unwrap();
    let result = Parser::new(&tokens[..]).parse();
    assert!(matches!(result, Err(PBaseError::UnexpextedToken(_))));
}
