use regex_nfa::error::BuildError;
use regex_nfa::ids::IDAllocator;
use regex_nfa::nfa::NFA;
use regex_nfa::token::{Token, Tokens};
use std::str::FromStr;

fn tokens_from(text: &str) -> Tokens {
    let table: toml::Table = text.parse().unwrap();
    let mut tokens = Vec::new();
    for entry in table["tokens"].as_array().unwrap() {
        let entry = entry.as_table().unwrap();
        tokens.push(Token {
            kind: entry["kind"].as_str().unwrap().to_string(),
            value: entry["value"].as_str().unwrap().to_string(),
        });
    }
    Tokens { tokens }
}

#[test]
fn test() {
    let file = String::from_str(
        r#"
        tokens = [
            { kind = "INT", value = "[0-9]+" },
            { kind = "ID", value = "[a-zA-Z_][a-zA-Z0-9_]*" },
            { kind = "OP", value = "[+\\-*/]" },
            { kind = "EQ", value = "=" },
            { kind = "WS", value = "[ \t\n]+" },
        ]
        "#,
    )
    .unwrap();
    let tokens: Tokens = tokens_from(file.as_str());
    println!("{:?}", tokens);
    assert_eq!(tokens.tokens.len(), 5);
}

#[test]
fn token_table_builds_or_names_what_is_unsupported() {
    let tokens = tokens_from(
        r#"
        tokens = [
            { kind = "INT", value = "[0-9]+" },
            { kind = "EQ", value = "=" },
            { kind = "KW", value = "if|else" },
        ]
        "#,
    );
    let mut ids = IDAllocator::new();
    let results: Vec<Result<NFA, BuildError>> =
        tokens.tokens.iter().map(|t| NFA::new_from_token(t, &mut ids)).collect();
    assert_eq!(
        results[0].as_ref().unwrap_err(),
        &BuildError::UnsupportedConstruct { index: 0, character: '[' }
    );
    assert_eq!(results[1].as_ref().unwrap().states().len(), 3);
    assert_eq!(results[2].as_ref().unwrap().initial(), 3 + 5 + 9);
    assert_eq!(tokens.tokens[2].kind, "KW");
}
