use rust_sql_db::parser::{ParseError, Parser, Query};
use rust_sql_db::tokenizer::{Token, Tokenizer};

fn tokens_of(text: &str) -> Vec<Token> {
    Tokenizer::new(text.to_string()).tokenize()
}

fn parse_text(text: &str) -> Result<Query, ParseError> {
    Parser::new(tokens_of(text)).parse()
}

fn ident(s: &str) -> Token {
    Token::Identifier(s.to_string())
}

fn lit(s: &str) -> Token {
    Token::Literal(s.to_string())
}

fn strings(items: &[&str]) -> Vec<String> {
    items.iter().map(|s| s.to_string()).collect()
}

#[test]
fn keywords_ignore_case() {
    assert_eq!(tokens_of("select"), vec![Token::Select]);
    assert_eq!(tokens_of("SELECT"), vec![Token::Select]);
    assert_eq!(tokens_of("SeLeCt"), vec![Token::Select]);
    assert_eq!(tokens_of("wHeRe"), vec![Token::Where]);
    assert_eq!(tokens_of("SET"), vec![Token::SetKeyword]);
}

#[test]
fn every_keyword_is_recognised() {
    assert_eq!(
        tokens_of("select insert update delete from where into values set"),
        vec![
            Token::Select,
            Token::Insert,
            Token::Update,
            Token::Delete,
            Token::From,
            Token::Where,
            Token::Into,
            Token::Values,
            Token::SetKeyword,
        ]
    );
}

#[test]
fn whitespace_separated_matches_are_counted() {
    let tokens = tokens_of("a1 , _b ; 42 = c");
    assert_eq!(tokens.len(), 7);
    assert_eq!(
        tokens,
        vec![ident("a1"), Token::Comma, ident("_b"), Token::SemiColon, lit("42"), Token::Equals, ident("c")]
    );
}

#[test]
fn unsupported_characters_are_skipped() {
    assert_eq!(tokens_of("SELECT * FROM t"), vec![Token::Select, Token::From, ident("t")]);
    assert_eq!(tokens_of("'a' ( b )"), vec![ident("a"), ident("b")]);
    assert_eq!(tokens_of("*'()"), vec![]);
    assert_eq!(tokens_of(""), vec![]);
}

#[test]
fn skipped_character_splits_the_text() {
    let mut both = tokens_of("ab12");
    both.extend(tokens_of("select"));
    assert_eq!(tokens_of("ab12*select"), both);
    assert_eq!(tokens_of("ab12 select"), both);
}

#[test]
fn keyword_prefix_is_split_off_a_name() {
    assert_eq!(tokens_of("selection"), vec![Token::Select, ident("ion")]);
    assert_eq!(tokens_of("settings"), vec![Token::SetKeyword, ident("tings")]);
    assert_eq!(tokens_of("aselect"), vec![ident("aselect")]);
    assert_eq!(tokens_of("_from"), vec![ident("_from")]);
}

#[test]
fn digits_then_name() {
    assert_eq!(tokens_of("12ab"), vec![lit("12"), ident("ab")]);
    assert_eq!(tokens_of("007"), vec![lit("007")]);
}

#[test]
fn non_ascii_letters_are_skipped() {
    assert_eq!(tokens_of("é1"), vec![lit("1")]);
}

#[test]
fn rendered_tokens_tokenize_the_same() {
    let direct = tokens_of("SELECT id, name FROM users WHERE id");
    let rendered = tokens_of("select id , name from users where id ");
    assert_eq!(rendered, direct);
    let again = tokens_of("UPDATE t SET a = 1, b = 22");
    assert_eq!(tokens_of("update t set a = 1 , b = 22 "), again);
}

#[test]
fn rendered_statement_parses_the_same() {
    assert_eq!(
        parse_text("INSERT INTO users ( id, name ) VALUES ( 1, 2 )"),
        parse_text("insert into users id , name values 1 , 2 ")
    );
}

#[test]
fn select_two_columns() {
    assert_eq!(
        parse_text("SELECT a, b FROM t"),
        Ok(Query::Select { columns: strings(&["a", "b"]), table: "t".to_string(), condition: None })
    );
}

#[test]
fn select_with_condition() {
    assert_eq!(
        parse_text("SELECT a FROM t WHERE c"),
        Ok(Query::Select {
            columns: strings(&["a"]),
            table: "t".to_string(),
            condition: Some("c".to_string()),
        })
    );
}

#[test]
fn insert_columns_and_values() {
    assert_eq!(
        parse_text("INSERT INTO t ( a, b ) VALUES ( 1, 2 )"),
        Ok(Query::Insert {
            table: "t".to_string(),
            columns: strings(&["a", "b"]),
            values: strings(&["1", "2"]),
        })
    );
}

#[test]
fn update_assignments_with_condition() {
    assert_eq!(
        parse_text("UPDATE t SET a = 1, b = 2 WHERE c"),
        Ok(Query::Update {
            table: "t".to_string(),
            assignments: vec![
                ("a".to_string(), "1".to_string()),
                ("b".to_string(), "2".to_string()),
            ],
            condition: Some("c".to_string()),
        })
    );
}

#[test]
fn delete_without_condition() {
    assert_eq!(
        parse_text("DELETE FROM t"),
        Ok(Query::Delete { table: "t".to_string(), condition: None })
    );
}

#[test]
fn delete_with_condition() {
    assert_eq!(
        parse_text("DELETE FROM users WHERE id"),
        Ok(Query::Delete { table: "users".to_string(), condition: Some("id".to_string()) })
    );
}

#[test]
fn empty_and_unknown_commands_are_invalid() {
    assert_eq!(parse_text(""), Err(ParseError::InvalidCommand));
    assert_eq!(parse_text("FOO"), Err(ParseError::InvalidCommand));
    assert_eq!(parse_text("FROM t"), Err(ParseError::InvalidCommand));
}

#[test]
fn assignment_without_value() {
    assert_eq!(parse_text("UPDATE t SET a ="), Err(ParseError::ExpectedLiteral));
    assert_eq!(parse_text("UPDATE t SET a = b"), Err(ParseError::ExpectedLiteral));
}

#[test]
fn assignment_without_equals() {
    assert_eq!(parse_text("UPDATE t SET a 1"), Err(ParseError::ExpectedEquals));
    assert_eq!(parse_text("UPDATE t SET a"), Err(ParseError::ExpectedEquals));
}

#[test]
fn missing_names() {
    assert_eq!(parse_text("SELECT a FROM"), Err(ParseError::ExpectedIdentifier));
    assert_eq!(parse_text("SELECT a FROM t WHERE"), Err(ParseError::ExpectedIdentifier));
    assert_eq!(parse_text("SELECT a FROM t WHERE 1"), Err(ParseError::ExpectedIdentifier));
    assert_eq!(parse_text("UPDATE SET a = 1"), Err(ParseError::ExpectedIdentifier));
    assert_eq!(parse_text("SELECT from FROM t"), Err(ParseError::ExpectedIdentifier));
}

#[test]
fn missing_keywords() {
    assert_eq!(parse_text("SELECT a t"), Err(ParseError::ExpectedFrom));
    assert_eq!(parse_text("DELETE t"), Err(ParseError::ExpectedFrom));
    assert_eq!(parse_text("INSERT t"), Err(ParseError::ExpectedInto));
    assert_eq!(parse_text("INSERT INTO t ( a ) ( 1 )"), Err(ParseError::ExpectedValues));
    assert_eq!(parse_text("UPDATE t a = 1"), Err(ParseError::ExpectedSet));
}

#[test]
fn empty_lists_and_trailing_comma() {
    assert_eq!(
        parse_text("SELECT FROM t"),
        Ok(Query::Select { columns: vec![], table: "t".to_string(), condition: None })
    );
    assert_eq!(
        parse_text("SELECT a, FROM t"),
        Ok(Query::Select { columns: strings(&["a"]), table: "t".to_string(), condition: None })
    );
    assert_eq!(
        parse_text("INSERT INTO t VALUES"),
        Ok(Query::Insert { table: "t".to_string(), columns: vec![], values: vec![] })
    );
    assert_eq!(
        parse_text("UPDATE t SET WHERE c"),
        Ok(Query::Update {
            table: "t".to_string(),
            assignments: vec![],
            condition: Some("c".to_string()),
        })
    );
}

#[test]
fn tokens_after_the_statement_are_left() {
    let mut parser = Parser::new(tokens_of("DELETE FROM t; SELECT a FROM u"));
    assert_eq!(parser.parse(), Ok(Query::Delete { table: "t".to_string(), condition: None }));
    assert_eq!(parser.parse(), Err(ParseError::InvalidCommand));
}

#[test]
fn tokenize_twice_gives_the_same_tokens() {
    let mut tokenizer = Tokenizer::new("SELECT a FROM t".to_string());
    let first = tokenizer.tokenize();
    let second = tokenizer.tokenize();
    assert_eq!(first, second);
}
