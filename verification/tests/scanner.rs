use rslox::scanner::{is_alpha, is_alpha_numeric, is_digit, Scanner, Token, TokenKind};

fn scan_all(source: &str) -> Vec<Token> {
    let mut scanner = Scanner::new(source);
    let mut tokens = Vec::new();
    loop {
        let token = scanner.scan_token();
        if token.kind == TokenKind::Eof {
            break;
        }
        tokens.push(token);
    }
    tokens
}

fn tok(kind: TokenKind, lexeme: &str, line: usize) -> Token {
    Token { kind, lexeme: lexeme.to_string(), line }
}

#[test]
fn scan() {
    let mut scanner = Scanner::new(
        "
            fun foo() { // comment 
                return 3 * (4 + 5);
            }",
    );
    let mut tokens: Vec<Token> = Vec::new();
    loop {
        let token = scanner.scan_token();
        if token.kind == TokenKind::Eof {
            break;
        }
        tokens.push(token);
    }

    assert_eq!(
        tokens,
        vec![
            Token { kind: TokenKind::Fun, lexeme: "fun".to_string(), line: 2 },
            Token { kind: TokenKind::Identifier, lexeme: "foo".to_string(), line: 2 },
            Token { kind: TokenKind::LeftParen, lexeme: "(".to_string(), line: 2 },
            Token { kind: TokenKind::RightParen, lexeme: ")".to_string(), line: 2 },
            Token { kind: TokenKind::LeftBrace, lexeme: "{".to_string(), line: 2 },
            Token { kind: TokenKind::Return, lexeme: "return".to_string(), line: 3 },
            Token { kind: TokenKind::Number, lexeme: "3".to_string(), line: 3 },
            Token { kind: TokenKind::Star, lexeme: "*".to_string(), line: 3 },
            Token { kind: TokenKind::LeftParen, lexeme: "(".to_string(), line: 3 },
            Token { kind: TokenKind::Number, lexeme: "4".to_string(), line: 3 },
            Token { kind: TokenKind::Plus, lexeme: "+".to_string(), line: 3 },
            Token { kind: TokenKind::Number, lexeme: "5".to_string(), line: 3 },
            Token { kind: TokenKind::RightParen, lexeme: ")".to_string(), line: 3 },
            Token { kind: TokenKind::Semicolon, lexeme: ";".to_string(), line: 3 },
            Token { kind: TokenKind::RightBrace, lexeme: "}".to_string(), line: 4 },
        ]
    );
}

#[test]
fn scan_eof_is_sticky() {
    let mut scanner = Scanner::new("  // only a comment");
    for _ in 0..3 {
        let t = scanner.scan_token();
        assert_eq!(t.kind, TokenKind::Eof);
        assert_eq!(t.lexeme, "");
        assert_eq!(t.line, 1);
    }
}

#[test]
fn scan_operators() {
    let kinds: Vec<TokenKind> = scan_all("! != = == < <= > >= - + / * ; , . ( ) { }")
        .into_iter()
        .map(|t| t.kind)
        .collect();
    assert_eq!(
        kinds,
        vec![
            TokenKind::Bang,
            TokenKind::BangEqual,
            TokenKind::Equal,
            TokenKind::EqualEqual,
            TokenKind::Less,
            TokenKind::LessEqual,
            TokenKind::Greater,
            TokenKind::GreaterEqual,
            TokenKind::Minus,
            TokenKind::Plus,
            TokenKind::Slash,
            TokenKind::Star,
            TokenKind::Semicolon,
            TokenKind::Comma,
            TokenKind::Dot,
            TokenKind::LeftParen,
            TokenKind::RightParen,
            TokenKind::LeftBrace,
            TokenKind::RightBrace,
        ]
    );
}

#[test]
fn scan_keywords_and_identifiers() {
    let tokens = scan_all(
        "and class else false for fun if nil or print return super this true var while \
         andy _x x1 While",
    );
    let kinds: Vec<TokenKind> = tokens.iter().map(|t| t.kind).collect();
    assert_eq!(
        kinds,
        vec![
            TokenKind::And,
            TokenKind::Class,
            TokenKind::Else,
            TokenKind::False,
            TokenKind::For,
            TokenKind::Fun,
            TokenKind::If,
            TokenKind::Nil,
            TokenKind::Or,
            TokenKind::Print,
            TokenKind::Return,
            TokenKind::Super,
            TokenKind::This,
            TokenKind::True,
            TokenKind::Var,
            TokenKind::While,
            TokenKind::Identifier,
            TokenKind::Identifier,
            TokenKind::Identifier,
            TokenKind::Identifier,
        ]
    );
    assert_eq!(tokens[16].lexeme, "andy");
    assert_eq!(tokens[19].lexeme, "While");
}

#[test]
fn scan_numbers() {
    assert_eq!(
        scan_all("12.5 7. 3.x"),
        vec![
            tok(TokenKind::Number, "12.5", 1),
            tok(TokenKind::Number, "7", 1),
            tok(TokenKind::Dot, ".", 1),
            tok(TokenKind::Number, "3", 1),
            tok(TokenKind::Dot, ".", 1),
            tok(TokenKind::Identifier, "x", 1),
        ]
    );
}

#[test]
fn scan_strings_count_lines() {
    assert_eq!(
        scan_all("\"a\nb\" x"),
        vec![tok(TokenKind::String, "\"a\nb\"", 2), tok(TokenKind::Identifier, "x", 2)]
    );
}

#[test]
fn scan_unterminated_string() {
    assert_eq!(
        scan_all("\"abc\n"),
        vec![tok(TokenKind::Error, "Unterminated string.", 2)]
    );
}

#[test]
fn scan_unexpected_character() {
    assert_eq!(
        scan_all("a @ b"),
        vec![
            tok(TokenKind::Identifier, "a", 1),
            tok(TokenKind::Error, "Unexpected character.", 1),
            tok(TokenKind::Identifier, "b", 1),
        ]
    );
}

#[test]
fn scan_unicode_in_strings() {
    assert_eq!(scan_all("\"héllo\""), vec![tok(TokenKind::String, "\"héllo\"", 1)]);
}

#[test]
fn char_classes() {
    assert!(is_digit('0') && is_digit('9') && !is_digit('a'));
    assert!(is_alpha('a') && is_alpha('Z') && is_alpha('_') && !is_alpha('1'));
    assert!(is_alpha_numeric('1') && is_alpha_numeric('q') && !is_alpha_numeric('-'));
}

#[test]
fn lines_count_every_newline_read() {
    let mut scanner = Scanner::new("one\n// c\n\"two\nlines\"\nthree");
    let one = scanner.scan_token();
    assert_eq!((one.kind, one.line), (TokenKind::Identifier, 1));
    let two = scanner.scan_token();
    // A string that spans lines is on the line where it ends.
    assert_eq!((two.kind, two.line), (TokenKind::String, 4));
    assert_eq!(two.lexeme, "\"two\nlines\"");
    let three = scanner.scan_token();
    assert_eq!((three.kind, three.line, three.lexeme.as_str()), (TokenKind::Identifier, 5, "three"));
    let end = scanner.scan_token();
    assert_eq!((end.kind, end.line), (TokenKind::Eof, 5));
}

#[test]
fn source_is_blanks_and_token_texts() {
    let source = "var a = 1; // one\n\tprint a;\n";
    let texts: String = scan_all(source).iter().map(|t| t.lexeme.as_str()).collect();
    assert_eq!(texts, "vara=1;printa;");
}

#[test]
fn end_of_source_is_on_the_last_line() {
    let mut scanner = Scanner::new("a\n\n// note\nb\n");
    loop {
        let token = scanner.scan_token();
        if token.kind == TokenKind::Eof {
            // Four newlines, counted from line 1.
            assert_eq!(token.line, 5);
            break;
        }
    }
}
