use lib::lexer::{Lexer, Token, TokenType};
use lib::text::usize_to_string;

fn lex(src: &str) -> Result<Vec<Token>, String> {
    let mut lexer = Lexer::new(src.to_string());
    lexer.tokenize()
}

fn kinds(tokens: &[Token]) -> Vec<TokenType> {
    tokens.iter().map(|t| t.token_type).collect()
}

fn texts(tokens: &[Token]) -> Vec<String> {
    tokens.iter().map(|t| t.lexeme.clone()).collect()
}

#[test]
fn assignment_tokens_with_positions() {
    let ts = lex("x = 5 + 3;").unwrap();
    assert_eq!(
        kinds(&ts),
        vec![
            TokenType::Identifier,
            TokenType::Assign,
            TokenType::Number,
            TokenType::Plus,
            TokenType::Number,
            TokenType::Semicolon,
            TokenType::Eof
        ]
    );
    assert_eq!(texts(&ts), vec!["x", "=", "5", "+", "3", ";", ""]);
    let cols: Vec<usize> = ts.iter().map(|t| t.column).collect();
    assert_eq!(cols, vec![1, 3, 5, 7, 9, 10, 11]);
    assert!(ts.iter().all(|t| t.line == 1));
}

#[test]
fn two_character_operators() {
    let ts = lex("a==b!=c<=d>=e<f>g=h").unwrap();
    assert_eq!(
        kinds(&ts),
        vec![
            TokenType::Identifier,
            TokenType::Equal,
            TokenType::Identifier,
            TokenType::NotEqual,
            TokenType::Identifier,
            TokenType::LessEqual,
            TokenType::Identifier,
            TokenType::GreaterEqual,
            TokenType::Identifier,
            TokenType::Less,
            TokenType::Identifier,
            TokenType::Greater,
            TokenType::Identifier,
            TokenType::Assign,
            TokenType::Identifier,
            TokenType::Eof
        ]
    );
    assert_eq!(ts[1].lexeme, "==");
    assert_eq!(ts[3].lexeme, "!=");
}

#[test]
fn keywords_and_delimiters() {
    let ts = lex("if (x) { print(y); } else { }").unwrap();
    assert_eq!(
        kinds(&ts),
        vec![
            TokenType::If,
            TokenType::LParen,
            TokenType::Identifier,
            TokenType::RParen,
            TokenType::LBrace,
            TokenType::Print,
            TokenType::LParen,
            TokenType::Identifier,
            TokenType::RParen,
            TokenType::Semicolon,
            TokenType::RBrace,
            TokenType::Else,
            TokenType::LBrace,
            TokenType::RBrace,
            TokenType::Eof
        ]
    );
}

#[test]
fn words_numbers_and_underscores() {
    let ts = lex("_a1 printer 3.14 x_2 año").unwrap();
    assert_eq!(texts(&ts), vec!["_a1", "printer", "3.14", "x_2", "año", ""]);
    assert_eq!(ts[1].token_type, TokenType::Identifier);
    assert_eq!(ts[2].token_type, TokenType::Number);
    assert_eq!(ts[4].token_type, TokenType::Identifier);
}

#[test]
fn number_runs_take_every_digit_and_dot() {
    let ts = lex("1.2.3 42abc").unwrap();
    assert_eq!(texts(&ts), vec!["1.2.3", "42", "abc", ""]);
    assert_eq!(ts[2].token_type, TokenType::Identifier);
}

#[test]
fn unicode_digits_start_a_number() {
    let ts = lex("\u{663}").unwrap();
    assert_eq!(ts[0].token_type, TokenType::Number);
    assert_eq!(ts[0].lexeme, "\u{663}");
}

#[test]
fn lines_and_columns_follow_newlines() {
    let ts = lex("x = 1;\n  y = 2;\n").unwrap();
    let y = &ts[4];
    assert_eq!(y.lexeme, "y");
    assert_eq!((y.line, y.column), (2, 3));
    let eof = ts.last().unwrap();
    assert_eq!(eof.token_type, TokenType::Eof);
    assert_eq!((eof.line, eof.column), (3, 1));
}

#[test]
fn empty_and_blank_sources_give_only_eof() {
    let ts = lex("").unwrap();
    assert_eq!(kinds(&ts), vec![TokenType::Eof]);
    assert_eq!((ts[0].line, ts[0].column), (1, 1));
    let ts = lex(" \t\u{3000}").unwrap();
    assert_eq!(kinds(&ts), vec![TokenType::Eof]);
    assert_eq!(ts[0].column, 4);
}

#[test]
fn unexpected_character_is_an_error() {
    assert_eq!(lex("x = 1 @ 2;").unwrap_err(), "Error léxico: carácter '@' en línea 1");
    assert_eq!(lex("x = 1;\ny = $;").unwrap_err(), "Error léxico: carácter '$' en línea 2");
}

#[test]
fn lone_bang_is_an_error() {
    assert_eq!(lex("x = !y;").unwrap_err(), "Error léxico: carácter '!' inesperado en línea 1");
}

#[test]
fn tokenize_again_after_the_end_gives_eof() {
    let mut lexer = Lexer::new("x".to_string());
    assert_eq!(lexer.tokenize().unwrap().len(), 2);
    let again = lexer.tokenize().unwrap();
    assert_eq!(kinds(&again), vec![TokenType::Eof]);
    assert_eq!(again[0].column, 2);
}

#[test]
fn every_success_ends_with_one_eof() {
    for src in ["", "x", "if (a < b) { print(a); }", "x = (1 + 2) * 3;\n"] {
        let ts = lex(src).unwrap();
        assert_eq!(ts.last().unwrap().token_type, TokenType::Eof);
        assert_eq!(ts.iter().filter(|t| t.token_type == TokenType::Eof).count(), 1);
    }
}

#[test]
fn token_display_text() {
    let t = Token::new(TokenType::Number, "42".to_string(), 1, 5);
    assert_eq!(t.to_string(), "Number '42' [1:5]");
    let t = Token::new(TokenType::GreaterEqual, ">=".to_string(), 12, 30);
    assert_eq!(t.to_string(), "GreaterEqual '>=' [12:30]");
    let t = Token::new(TokenType::Eof, String::new(), 3, 1);
    assert_eq!(t.to_string(), "Eof '' [3:1]");
}

#[test]
fn decimal_rendering() {
    assert_eq!(usize_to_string(0), "0");
    assert_eq!(usize_to_string(7), "7");
    assert_eq!(usize_to_string(10), "10");
    assert_eq!(usize_to_string(12345), "12345");
    assert_eq!(usize_to_string(usize::MAX), usize::MAX.to_string());
}

#[test]
fn tokens_keep_everything_but_whitespace() {
    let src = "  if (x1 >= 10)\t{ print(x1 * 2.5); }\n else { y = 0; }  ";
    let ts = lex(src).unwrap();
    let joined: String = ts.iter().map(|t| t.lexeme.as_str()).collect();
    let stripped: String = src.chars().filter(|c| !c.is_whitespace()).collect();
    assert_eq!(joined, stripped);
}

#[test]
fn token_places_count_newlines_and_columns() {
    let src = "a\n  bb == 3\n\n;";
    let ts = lex(src).unwrap();
    let chars: Vec<char> = src.chars().collect();
    let mut start = 0;
    for t in &ts {
        let n = t.lexeme.chars().count();
        while start < chars.len() && chars[start].is_whitespace() {
            start += 1;
        }
        let text: String = chars[start..start + n].iter().collect();
        assert_eq!(text, t.lexeme);
        let end = start + n;
        let newlines = chars[..end].iter().filter(|c| **c == '\n').count();
        assert_eq!(t.line, 1 + newlines);
        let last_newline = chars[..start].iter().rposition(|c| *c == '\n');
        let column = match last_newline {
            Some(m) => start - m,
            None => start + 1,
        };
        assert_eq!(t.column, column);
        start = end;
    }
    let places: Vec<(usize, usize)> = ts.iter().map(|t| (t.line, t.column)).collect();
    assert_eq!(places, vec![(1, 1), (2, 3), (2, 6), (2, 9), (4, 1), (4, 2)]);
}

#[test]
fn token_texts_fit_their_kinds() {
    let ts = lex("+ - * / == != < > <= >= = ( ) { } ; print if else printx _a1 12.5.").unwrap();
    let symbols = [
        (TokenType::Plus, "+"),
        (TokenType::Minus, "-"),
        (TokenType::Multiply, "*"),
        (TokenType::Divide, "/"),
        (TokenType::Equal, "=="),
        (TokenType::NotEqual, "!="),
        (TokenType::Less, "<"),
        (TokenType::Greater, ">"),
        (TokenType::LessEqual, "<="),
        (TokenType::GreaterEqual, ">="),
        (TokenType::Assign, "="),
        (TokenType::LParen, "("),
        (TokenType::RParen, ")"),
        (TokenType::LBrace, "{"),
        (TokenType::RBrace, "}"),
        (TokenType::Semicolon, ";"),
    ];
    for (i, (kind, text)) in symbols.iter().enumerate() {
        assert_eq!(ts[i].token_type, *kind);
        assert_eq!(ts[i].lexeme, *text);
    }
    assert_eq!(
        kinds(&ts[16..]),
        vec![
            TokenType::Print,
            TokenType::If,
            TokenType::Else,
            TokenType::Identifier,
            TokenType::Identifier,
            TokenType::Number,
            TokenType::Eof
        ]
    );
    assert_eq!(texts(&ts[16..]), vec!["print", "if", "else", "printx", "_a1", "12.5.", ""]);
}

#[test]
fn unicode_whitespace_separates_tokens() {
    let ts = lex("\u{3000}x\u{a0}=\u{2028}1;").unwrap();
    assert_eq!(texts(&ts), vec!["x", "=", "1", ";", ""]);
    assert_eq!((ts[0].line, ts[0].column), (1, 2));
    assert_eq!((ts[2].line, ts[2].column), (1, 6));
    assert!(lex("\u{200b}").is_err());
}

#[test]
fn lexing_succeeds_exactly_on_known_characters() {
    assert!(lex("x_1 = (a + b) * c / 2 - d; if (x <= 1) { y = x >= 2; } z = x == 1 < 2 > 3;").is_ok());
    assert!(lex("\u{3000}ä = 3\t;").is_ok());
    assert!(lex("x = 1 # 2;").is_err());
    assert!(lex("x = 1 ?").is_err());
    assert!(lex("x = '1';").is_err());
    assert!(lex("x != 1;").is_ok());
    assert!(lex("x = !1;").is_err());
    assert!(lex("x = 1.5.;").is_ok());
    assert!(lex("x = .5;").is_err());
}
