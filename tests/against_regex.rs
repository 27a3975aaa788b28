use regex::Regex;
use rust_sql_db::tokenizer::{Token, Tokenizer};

fn grammar_regex() -> Regex {
    Regex::new(
        r"(?i)(select|insert|update|delete|from|where|into|values|set)|([a-zA-Z_][a-zA-Z0-9_]*)|(\d+)|([,;=])",
    )
    .unwrap()
}

/// The token sequence that a scan with the regular expression of the grammar gives.
fn regex_tokens(input: &str) -> Vec<Token> {
    regex_tokens_with(&grammar_regex(), input)
}

fn regex_tokens_with(re: &Regex, input: &str) -> Vec<Token> {
    let mut tokens = Vec::new();
    for cap in re.captures_iter(input) {
        if let Some(keyword) = cap.get(1) {
            match keyword.as_str().to_lowercase().as_str() {
                "select" => tokens.push(Token::Select),
                "insert" => tokens.push(Token::Insert),
                "update" => tokens.push(Token::Update),
                "delete" => tokens.push(Token::Delete),
                "from" => tokens.push(Token::From),
                "where" => tokens.push(Token::Where),
                "into" => tokens.push(Token::Into),
                "values" => tokens.push(Token::Values),
                "set" => tokens.push(Token::SetKeyword),
                _ => {}
            }
        } else if let Some(identifier) = cap.get(2) {
            tokens.push(Token::Identifier(identifier.as_str().to_string()));
        } else if let Some(literal) = cap.get(3) {
            tokens.push(Token::Literal(literal.as_str().to_string()));
        } else if let Some(symbol) = cap.get(4) {
            match symbol.as_str() {
                "," => tokens.push(Token::Comma),
                ";" => tokens.push(Token::SemiColon),
                "=" => tokens.push(Token::Equals),
                _ => {}
            }
        }
    }
    tokens
}

fn scanner_tokens(input: &str) -> Vec<Token> {
    Tokenizer::new(input.to_string()).tokenize()
}

#[test]
fn scanner_agrees_with_regex_on_statements() {
    let inputs = [
        "SELECT id, name FROM users WHERE id",
        "INSERT INTO users ( id, name ) VALUES ( 1, 2 )",
        "UPDATE users SET name = 5 WHERE id",
        "DELETE FROM users WHERE id",
        "select a,b from t;",
        "",
        "   ",
        "*",
    ];
    for input in inputs {
        assert_eq!(scanner_tokens(input), regex_tokens(input), "input {:?}", input);
    }
}

#[test]
fn scanner_agrees_with_regex_on_word_edges() {
    let inputs = [
        "selection settings intoxicated fromage valuesx wherever deleted updates",
        "SELECTx _select x_select select_ SELECT1 1select",
        "12ab ab12 a1b2 __ _ 0 007 9z",
        "into,from;where=set",
        "sel ect se t in to",
        "a=1,b=2;c=3",
        "Values VALUES vAlUeS SeT sEt",
        "x'y'*(z)+w-v/u",
    ];
    for input in inputs {
        assert_eq!(scanner_tokens(input), regex_tokens(input), "input {:?}", input);
    }
}

#[test]
fn scanner_agrees_with_regex_on_every_short_text() {
    let alphabet = ['s', 'E', 't', 'a', '_', '1', ',', ';', '=', ' ', '*'];
    let re = grammar_regex();
    let n = alphabet.len();
    for len in 0..=4u32 {
        for code in 0..n.pow(len) {
            let mut text = String::new();
            let mut c = code;
            for _ in 0..len {
                text.push(alphabet[c % n]);
                c /= n;
            }
            assert_eq!(scanner_tokens(&text), regex_tokens_with(&re, &text), "input {:?}", text);
        }
    }
}
