use rloxj::error::LoxError;
use rloxj::scanner::Scanner;
use rloxj::token::{Literal, Token, TokenType};

fn scan(source: &str) -> Result<Vec<Token>, Vec<LoxError>> {
    Scanner::new(source.to_string()).scan_tokens()
}

fn kinds(source: &str) -> Vec<TokenType> {
    scan(source).unwrap().iter().map(|t| t.token_type()).collect()
}

fn lexemes(source: &str) -> Vec<String> {
    scan(source).unwrap().iter().map(|t| t.lexeme()).collect()
}

#[test]
fn empty_source_is_one_end_token() {
    let tokens = scan("").unwrap();
    assert_eq!(tokens, vec![Token::new(TokenType::EOF, String::new(), None, 1, 0)]);
}

#[test]
fn single_character_tokens() {
    assert_eq!(
        kinds("(){},.-+;*/"),
        vec![
            TokenType::LeftParen,
            TokenType::RightParen,
            TokenType::LeftBrace,
            TokenType::RightBrace,
            TokenType::Comma,
            TokenType::Dot,
            TokenType::Minus,
            TokenType::Plus,
            TokenType::Semicolon,
            TokenType::Star,
            TokenType::Slash,
            TokenType::EOF,
        ]
    );
}

#[test]
fn two_character_operators_are_greedy() {
    assert_eq!(
        kinds("! != = == < <= > >= === !=="),
        vec![
            TokenType::Bang,
            TokenType::BangEqual,
            TokenType::Equal,
            TokenType::EqualEqual,
            TokenType::Less,
            TokenType::LessEqual,
            TokenType::Greater,
            TokenType::GreaterEqual,
            TokenType::EqualEqual,
            TokenType::Equal,
            TokenType::BangEqual,
            TokenType::Equal,
            TokenType::EOF,
        ]
    );
}

#[test]
fn every_keyword_is_recognized() {
    assert_eq!(
        kinds("and class else false for fun if nil or print return super this true var while"),
        vec![
            TokenType::And,
            TokenType::Class,
            TokenType::Else,
            TokenType::False,
            TokenType::For,
            TokenType::Fun,
            TokenType::If,
            TokenType::Nil,
            TokenType::Or,
            TokenType::Print,
            TokenType::Return,
            TokenType::Super,
            TokenType::This,
            TokenType::True,
            TokenType::Var,
            TokenType::While,
            TokenType::EOF,
        ]
    );
}

#[test]
fn keywords_function_names_the_reserved_words() {
    let scanner = Scanner::new(String::new());
    assert_eq!(scanner.keywords("while"), Some(TokenType::While));
    assert_eq!(scanner.keywords("nil"), Some(TokenType::Nil));
    assert_eq!(scanner.keywords("While"), None);
    assert_eq!(scanner.keywords("whil"), None);
    assert_eq!(scanner.keywords(""), None);
}

#[test]
fn identifiers_may_hold_digits_and_underscores() {
    assert_eq!(
        kinds("_a a1 a_b2 orchid classy _"),
        vec![
            TokenType::Identifier,
            TokenType::Identifier,
            TokenType::Identifier,
            TokenType::Identifier,
            TokenType::Identifier,
            TokenType::Identifier,
            TokenType::EOF,
        ]
    );
    assert_eq!(lexemes("_a a1 a_b2"), vec!["_a", "a1", "a_b2", ""]);
}

#[test]
fn character_classes() {
    let scanner = Scanner::new(String::new());
    assert!(scanner.is_alpha('a') && scanner.is_alpha('Z') && scanner.is_alpha('_'));
    assert!(!scanner.is_alpha('0') && !scanner.is_alpha('-'));
    assert!(scanner.is_digit('0') && scanner.is_digit('9'));
    assert!(!scanner.is_digit('a') && !scanner.is_digit('.'));
}

#[test]
fn numbers_keep_their_numeral() {
    let tokens = scan("12 3.25 007").unwrap();
    assert_eq!(tokens[0], Token::new(TokenType::Number, "12".to_string(), Some(Literal::Num("12".to_string())), 1, 0));
    assert_eq!(tokens[1], Token::new(TokenType::Number, "3.25".to_string(), Some(Literal::Num("3.25".to_string())), 1, 3));
    assert_eq!(tokens[2].literal(), Literal::Num("007".to_string()));
    assert_eq!(tokens.len(), 4);
}

#[test]
fn trailing_dot_is_not_part_of_a_number() {
    assert_eq!(kinds("1."), vec![TokenType::Number, TokenType::Dot, TokenType::EOF]);
    assert_eq!(lexemes("1."), vec!["1", ".", ""]);
    assert_eq!(
        kinds("1.a"),
        vec![TokenType::Number, TokenType::Dot, TokenType::Identifier, TokenType::EOF]
    );
    assert_eq!(kinds(".5"), vec![TokenType::Dot, TokenType::Number, TokenType::EOF]);
    assert_eq!(lexemes("1.2.3"), vec!["1.2", ".", "3", ""]);
}

#[test]
fn strings_hold_the_text_between_the_quotes() {
    let tokens = scan("\"hi there\"").unwrap();
    assert_eq!(
        tokens[0],
        Token::new(
            TokenType::String,
            "\"hi there\"".to_string(),
            Some(Literal::String("hi there".to_string())),
            1,
            0
        )
    );
    let tokens = scan("\"\"").unwrap();
    assert_eq!(tokens[0].literal(), Literal::String(String::new()));
}

#[test]
fn strings_have_no_escapes() {
    let tokens = scan("\"a\\n\"").unwrap();
    assert_eq!(tokens[0].literal(), Literal::String("a\\n".to_string()));
}

#[test]
fn strings_may_span_lines() {
    let tokens = scan("\"a\nb\nc\" x").unwrap();
    assert_eq!(tokens[0].literal(), Literal::String("a\nb\nc".to_string()));
    assert_eq!(tokens[0].line(), 3);
    assert_eq!(tokens[0].position(), 0);
    assert_eq!(tokens[1].line(), 3);
    assert_eq!(tokens[1].position(), 8);
}

#[test]
fn whitespace_and_comments_are_dropped() {
    assert_eq!(kinds(" \t\r\n// a comment ( with tokens\n+ // another"), vec![TokenType::Plus, TokenType::EOF]);
    assert_eq!(kinds("// only a comment"), vec![TokenType::EOF]);
    assert_eq!(kinds("1 / 2"), vec![TokenType::Number, TokenType::Slash, TokenType::Number, TokenType::EOF]);
}

#[test]
fn lines_are_counted_from_one() {
    let tokens = scan("a\nb\n\nc // x\nd").unwrap();
    let lines: Vec<usize> = tokens.iter().map(|t| t.line()).collect();
    assert_eq!(lines, vec![1, 2, 4, 5, 5]);
}

#[test]
fn end_of_input_is_always_last() {
    for source in ["", "1", "var a = 1;", "// c", "\n\n", "\"s\""] {
        let tokens = scan(source).unwrap();
        assert_eq!(tokens.last().unwrap().token_type(), TokenType::EOF);
        assert_eq!(tokens.last().unwrap().lexeme(), "");
        assert_eq!(tokens.last().unwrap().position(), source.chars().count());
        assert_eq!(
            tokens.iter().filter(|t| t.token_type() == TokenType::EOF).count(),
            1
        );
    }
}

#[test]
fn lexemes_are_slices_of_the_source() {
    let source = "fun add(a, b) {\n  return a + b; // sum\n}\nprint add(1.5, 2) >= \"x\nη\";";
    let chars: Vec<char> = source.chars().collect();
    let tokens = scan(source).unwrap();
    assert_eq!(tokens.len(), 25);
    for t in &tokens {
        let start = t.position();
        let text: String = chars[start..start + t.lexeme().chars().count()].iter().collect();
        assert_eq!(text, t.lexeme());
    }
}

#[test]
fn positions_count_characters_not_bytes() {
    let tokens = scan("\"é\" x").unwrap();
    assert_eq!(tokens[0].lexeme(), "\"é\"");
    assert_eq!(tokens[1].position(), 4);
    assert_eq!(tokens[2].position(), 5);
}

#[test]
fn unexpected_character_is_reported() {
    let errors = scan("1 @ 2").unwrap_err();
    assert_eq!(errors, vec![LoxError::error(1, "Unexpected character.".to_string(), 2)]);
}

#[test]
fn scanning_goes_on_after_an_error() {
    let errors = scan("@\n#\n1 $").unwrap_err();
    assert_eq!(
        errors,
        vec![
            LoxError::error(1, "Unexpected character.".to_string(), 0),
            LoxError::error(2, "Unexpected character.".to_string(), 2),
            LoxError::error(3, "Unexpected character.".to_string(), 6),
        ]
    );
}

#[test]
fn unterminated_string_is_reported_where_it_opens() {
    let errors = scan("x\n \"abc\ndef").unwrap_err();
    assert_eq!(errors, vec![LoxError::error(2, "Unterminated string".to_string(), 3)]);
}

#[test]
fn errors_suppress_the_tokens() {
    assert!(scan("var a = 1; ?").is_err());
    assert!(scan("var a = 1;").is_ok());
}

#[test]
fn scan_token_scans_one_lexeme() {
    let mut scanner = Scanner::new("<= 12".to_string());
    assert!(scanner.scan_token().is_ok());
    assert_eq!(scanner.current, 2);
    assert_eq!(scanner.tokens.len(), 1);
    assert_eq!(scanner.tokens[0].token_type(), TokenType::LessEqual);
    scanner.start = scanner.current;
    assert!(scanner.scan_token().is_ok());
    assert_eq!(scanner.tokens.len(), 1);
    scanner.start = scanner.current;
    assert!(scanner.scan_token().is_ok());
    assert_eq!(scanner.tokens[1].lexeme(), "12");
    assert!(scanner.is_at_end());
}

#[test]
fn cursor_primitives() {
    let mut scanner = Scanner::new("ab".to_string());
    assert_eq!(scanner.peek(), 'a');
    assert_eq!(scanner.peek_max(), 'b');
    assert!(!scanner.next_char('b'));
    assert!(scanner.next_char('a'));
    assert_eq!(scanner.peek(), 'b');
    assert_eq!(scanner.peek_max(), '\0');
    assert_eq!(scanner.advance(), 'b');
    assert!(scanner.is_at_end());
    assert_eq!(scanner.peek(), '\0');
    assert!(!scanner.next_char('b'));
    scanner.add_token(TokenType::Identifier, None);
    assert_eq!(scanner.tokens[0], Token::new(TokenType::Identifier, "ab".to_string(), None, 1, 0));
    assert_eq!(scanner.text(1, 2), "b");
}

#[test]
fn word_number_and_string_scanners() {
    let mut scanner = Scanner::new("while1 ".to_string());
    scanner.advance();
    scanner.identifier();
    assert_eq!(scanner.tokens[0].token_type(), TokenType::Identifier);
    assert_eq!(scanner.tokens[0].lexeme(), "while1");

    let mut scanner = Scanner::new("3.14.".to_string());
    scanner.advance();
    scanner.number();
    assert_eq!(scanner.tokens[0].lexeme(), "3.14");
    assert_eq!(scanner.current, 4);

    let mut scanner = Scanner::new("\"ab\"c".to_string());
    scanner.advance();
    assert!(scanner.string().is_ok());
    assert_eq!(scanner.tokens[0].literal(), Literal::String("ab".to_string()));
    assert_eq!(scanner.current, 4);

    let mut scanner = Scanner::new("\"ab".to_string());
    scanner.advance();
    assert_eq!(
        scanner.string(),
        Err(LoxError::error(1, "Unterminated string".to_string(), 0))
    );
}
