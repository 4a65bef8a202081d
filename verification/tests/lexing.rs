use monopolang::lexer::{Lexer, TokenType};

fn kinds(source: &str) -> Vec<TokenType> {
    let mut lexer = Lexer::new(source.to_string());
    lexer.scan_tokens().iter().map(|t| t.kind).collect()
}

#[test]
fn scan_tokens_ends_with_eof() {
    assert_eq!(kinds(""), vec![TokenType::Eof]);
    assert_eq!(kinds("   \t\r\n"), vec![TokenType::Eof]);
}

#[test]
fn keywords_and_identifiers() {
    assert_eq!(
        kinds("let x = while whilst"),
        vec![
            TokenType::Let,
            TokenType::Identifier,
            TokenType::Equal,
            TokenType::While,
            TokenType::Identifier,
            TokenType::Eof
        ]
    );
}

#[test]
fn boolean_literals_lex_as_boolean_tokens() {
    let mut lexer = Lexer::new("true false".to_string());
    let tokens = lexer.scan_tokens();
    assert_eq!(tokens[0].kind, TokenType::Boolean);
    assert_eq!(tokens[0].lexeme, "true");
    assert_eq!(tokens[1].kind, TokenType::Boolean);
    assert_eq!(tokens[1].lexeme, "false");
}

#[test]
fn one_and_two_character_operators() {
    assert_eq!(
        kinds("= == ! != < <= > >= + - * / ( ) [ ]"),
        vec![
            TokenType::Equal,
            TokenType::EqualEqual,
            TokenType::Bang,
            TokenType::BangEqual,
            TokenType::Less,
            TokenType::LessEqual,
            TokenType::Greater,
            TokenType::GreaterEqual,
            TokenType::Plus,
            TokenType::Minus,
            TokenType::Star,
            TokenType::Slash,
            TokenType::LeftParen,
            TokenType::RightParen,
            TokenType::LeftBracket,
            TokenType::RightBracket,
            TokenType::Eof
        ]
    );
}

#[test]
fn text_literal_lexeme_drops_the_quotes() {
    let mut lexer = Lexer::new("\"hello there\"".to_string());
    let tokens = lexer.scan_tokens();
    assert_eq!(tokens[0].kind, TokenType::Text);
    assert_eq!(tokens[0].lexeme, "hello there");
}

#[test]
fn unterminated_text_literal_yields_no_token() {
    assert_eq!(kinds("\"oops"), vec![TokenType::Eof]);
}

#[test]
fn number_lexemes_are_digit_runs() {
    let mut lexer = Lexer::new("12 345".to_string());
    let tokens = lexer.scan_tokens();
    assert_eq!(tokens[0].kind, TokenType::Number);
    assert_eq!(tokens[0].lexeme, "12");
    assert_eq!(tokens[1].lexeme, "345");
}

#[test]
fn lines_and_columns_are_tracked() {
    let mut lexer = Lexer::new("let\nx".to_string());
    let tokens = lexer.scan_tokens();
    assert_eq!((tokens[0].line, tokens[0].column), (1, 1));
    assert_eq!((tokens[1].line, tokens[1].column), (2, 1));
}

#[test]
fn unknown_characters_are_skipped() {
    assert_eq!(kinds("# 1 $"), vec![TokenType::Number, TokenType::Eof]);
}
