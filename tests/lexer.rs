use lox::lexer::Lexer;
use lox::token::TokenType;
use lox::token::TokenType as T;

fn kinds(source: &str) -> Vec<(TokenType, String, usize)> {
    let mut lexer = Lexer::new(source);
    let mut out = Vec::new();
    loop {
        let t = lexer.lex_token();
        out.push((t.token_type, t.lexeme.to_string(), t.line));
        if t.token_type == TokenType::EOF {
            return out;
        }
    }
}

fn types(source: &str) -> Vec<TokenType> {
    kinds(source).into_iter().map(|t| t.0).collect()
}

#[test]
fn punctuation_and_two_char_operators() {
    assert_eq!(
        types("(){};,.-+/*! != = == < <= > >="),
        vec![
            T::LeftParen, T::RightParen, T::LeftBrace, T::RightBrace, T::Semicolon, T::Comma, T::Dot, T::Minus, T::Plus,
            T::Slash, T::Star, T::Bang, T::BangEqual, T::Equal, T::EqualEqual, T::Less, T::LessEqual, T::Greater,
            T::GreaterEqual, T::EOF
        ]
    );
}

#[test]
fn keywords_and_identifiers() {
    assert_eq!(
        types("and class else false for fun if nil or print return super this true var while"),
        vec![
            T::And, T::Class, T::Else, T::False, T::For, T::Fun, T::If, T::Nil, T::Or, T::Print, T::Return, T::Super, T::This, T::True, T::Var,
            T::While, T::EOF
        ]
    );
    assert_eq!(
        types("andy classy f t fa thing truest x1 a"),
        vec![
            T::Identifier, T::Identifier, T::Identifier, T::Identifier, T::Identifier, T::Identifier, T::Identifier,
            T::Identifier, T::Identifier, T::EOF
        ]
    );
}

#[test]
fn numbers_with_and_without_fraction() {
    let t = kinds("12 3.5 7. 8.x");
    let lexemes: Vec<&str> = t.iter().map(|x| x.1.as_str()).collect();
    assert_eq!(lexemes, vec!["12", "3.5", "7", ".", "8", ".", "x", ""]);
    assert_eq!(t[0].0, TokenType::Number);
    assert_eq!(t[1].0, TokenType::Number);
    assert_eq!(t[3].0, TokenType::Dot);
}

#[test]
fn strings_span_lines() {
    let t = kinds("\"a\nb\" x");
    assert_eq!(t[0], (TokenType::String, "\"a\nb\"".to_string(), 2));
    assert_eq!(t[1], (TokenType::Identifier, "x".to_string(), 2));
}

#[test]
fn unterminated_string_is_an_error_token() {
    let t = kinds("\"abc");
    assert_eq!(t[0], (TokenType::Error, "Unterminated string".to_string(), 1));
    assert_eq!(t[1].0, TokenType::EOF);
}

#[test]
fn unexpected_character() {
    let t = kinds("1 @ 2");
    assert_eq!(t[1], (TokenType::Error, "Unexpected character".to_string(), 1));
    assert_eq!(t[2].0, TokenType::Number);
}

#[test]
fn comments_and_line_numbers() {
    let t = kinds("// note\n1 // more\n\n+ //\n2");
    assert_eq!(
        t,
        vec![
            (TokenType::Number, "1".to_string(), 2),
            (TokenType::Plus, "+".to_string(), 4),
            (TokenType::Number, "2".to_string(), 5),
            (TokenType::EOF, "".to_string(), 5),
        ]
    );
}

#[test]
fn eof_repeats() {
    let mut lexer = Lexer::new("  ");
    for _ in 0..3 {
        assert_eq!(lexer.lex_token().token_type, TokenType::EOF);
    }
}

#[test]
fn non_ascii_identifiers() {
    let t = kinds("héllo + ünïcode");
    assert_eq!(t[0], (TokenType::Identifier, "héllo".to_string(), 1));
    assert_eq!(t[2], (TokenType::Identifier, "ünïcode".to_string(), 1));
}
