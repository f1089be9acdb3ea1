use gsc_syntax::error::SyntaxError;
use gsc_syntax::lexer::{Lexer, Token, TokenType};

fn tokens_of(source: &str) -> Result<Vec<Token>, SyntaxError> {
    Lexer::new(source.to_string()).parse_input()
}

fn shape(tokens: &[Token]) -> Vec<(TokenType, String)> {
    tokens.iter().map(|t| (t.token_type, t.content.clone())).collect()
}

fn canonical(tokens: &[Token]) -> String {
    let mut out = String::new();
    for t in tokens {
        if t.token_type == TokenType::String {
            out.push('"');
            out.push_str(&t.content);
            out.push('"');
        } else {
            out.push_str(&t.content);
        }
    }
    out
}

#[test]
fn string_assignment_tokens() {
    let tokens = tokens_of("x = \"hello\";").unwrap();
    assert_eq!(
        shape(&tokens),
        vec![
            (TokenType::Identifier, "x".to_string()),
            (TokenType::Assign, "=".to_string()),
            (TokenType::String, "hello".to_string()),
            (TokenType::Terminator, ";".to_string()),
        ]
    );
}

#[test]
fn unterminated_literal_is_an_error() {
    let result = tokens_of("x = \"unterminated");
    assert_eq!(result.err(), Some(SyntaxError::UnterminatedLiteral(4)));
}

#[test]
fn token_count_matches_lexical_units() {
    let tokens = tokens_of("a = b ; ( c , d ) { e + f }").unwrap();
    assert_eq!(tokens.len(), 14);
    assert!(tokens.iter().all(|t| !t.content.is_empty()));
}

#[test]
fn punctuation_kinds() {
    let tokens = tokens_of("=;(),{}+").unwrap();
    let kinds: Vec<TokenType> = tokens.iter().map(|t| t.token_type).collect();
    assert_eq!(
        kinds,
        vec![
            TokenType::Assign,
            TokenType::Terminator,
            TokenType::LParen,
            TokenType::RParen,
            TokenType::Comma,
            TokenType::LCurly,
            TokenType::RCurly,
            TokenType::Plus,
        ]
    );
    assert_eq!(canonical(&tokens), "=;(),{}+");
}

#[test]
fn round_trip_normalizes_whitespace() {
    let source = "name  =\t\"a b\" ;\n f ( x , y ) ;";
    let tokens = tokens_of(source).unwrap();
    assert_eq!(canonical(&tokens), "name=\"a b\";f(x,y);");
}

#[test]
fn tokenizing_twice_gives_the_same_tokens() {
    let source = "thread t = \"go\"; n = 5;";
    let first = tokens_of(source).unwrap();
    let second = tokens_of(source).unwrap();
    assert_eq!(shape(&first), shape(&second));
}

#[test]
fn thread_is_always_a_keyword() {
    for source in ["thread", "thread;", "x=thread", "(thread)", " thread "] {
        let tokens = tokens_of(source).unwrap();
        let t = tokens.iter().find(|t| t.content == "thread").unwrap();
        assert_eq!(t.token_type, TokenType::KwThread, "in {:?}", source);
    }
    let tokens = tokens_of("threads").unwrap();
    assert_eq!(tokens[0].token_type, TokenType::Identifier);
    let tokens = tokens_of("\"thread\"").unwrap();
    assert_eq!(tokens[0].token_type, TokenType::String);
}

#[test]
fn empty_input_gives_no_tokens() {
    assert_eq!(tokens_of("").unwrap().len(), 0);
    assert_eq!(tokens_of("   \n\t ").unwrap().len(), 0);
}

#[test]
fn trailing_identifier_is_flushed() {
    let tokens = tokens_of("x = 5").unwrap();
    assert_eq!(tokens.len(), 3);
    assert_eq!(tokens[2].content, "5");
}

#[test]
fn newline_and_tab_do_not_end_an_identifier() {
    let tokens = tokens_of("ab\ncd\tef gh").unwrap();
    assert_eq!(
        shape(&tokens),
        vec![
            (TokenType::Identifier, "abcdef".to_string()),
            (TokenType::Identifier, "gh".to_string()),
        ]
    );
}

#[test]
fn empty_string_literal_is_purged() {
    let tokens = tokens_of("x = \"\";").unwrap();
    assert_eq!(tokens.len(), 3);
    assert_eq!(tokens[2].token_type, TokenType::Terminator);
}

#[test]
fn string_literal_keeps_its_content() {
    let tokens = tokens_of("\"a = (b); thread\"").unwrap();
    assert_eq!(shape(&tokens), vec![(TokenType::String, "a = (b); thread".to_string())]);
}

#[test]
fn tokenize_then_get_tokens() {
    let mut lexer = Lexer::new("s=\"\" t".to_string());
    assert_eq!(lexer.tokenize(), Ok(()));
    assert_eq!(lexer.tokens.len(), 4);
    let tokens = lexer.get_tokens();
    assert_eq!(tokens.len(), 3);
    assert_eq!(tokens[2].content, "t");
}

#[test]
fn non_ascii_text_is_scanned_by_character() {
    let tokens = tokens_of("é = \"ü\";").unwrap();
    assert_eq!(tokens[0].content, "é");
    assert_eq!(tokens[2].content, "ü");
}

#[test]
fn reading_past_the_end_is_an_error() {
    let mut lexer = Lexer::new("ab".to_string());
    assert_eq!(lexer.current_character(), Ok('a'));
    lexer.current_index = 2;
    assert_eq!(lexer.current_character(), Err(SyntaxError::UnexpectedEndOfInput(2)));
}

#[test]
fn token_new_keeps_its_fields() {
    let t = Token::new(TokenType::Plus, "+".to_string());
    assert_eq!(t.token_type, TokenType::Plus);
    assert_eq!(t.content, "+");
}
