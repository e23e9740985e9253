use lib::ast::ASTNode;
use lib::lexer::{Lexer, Token, TokenType};
use lib::literal::is_float_literal_text;
use lib::parser::Parser;

fn parse(src: &str) -> Result<Vec<ASTNode>, String> {
    let mut lexer = Lexer::new(src.to_string());
    let tokens = lexer.tokenize()?;
    let mut parser = Parser::new(tokens);
    parser.parse()
}

fn tree(nodes: &[ASTNode]) -> String {
    let mut s = String::new();
    for n in nodes {
        s.push_str(&n.print_tree(0));
    }
    s
}

fn tok(kind: TokenType, text: &str) -> Token {
    Token::new(kind, text.to_string(), 1, 1)
}

#[test]
fn multiplication_binds_tighter_than_addition() {
    let stmts = parse("x = 1 + 2 * 3;").unwrap();
    assert_eq!(
        tree(&stmts),
        "Assignment: x\n  BinaryOp: +\n    Number: 1\n    BinaryOp: *\n      Number: 2\n      Number: 3\n"
    );
}

#[test]
fn operators_associate_to_the_left() {
    let stmts = parse("x = 8 - 4 - 2;").unwrap();
    assert_eq!(
        tree(&stmts),
        "Assignment: x\n  BinaryOp: -\n    BinaryOp: -\n      Number: 8\n      Number: 4\n    Number: 2\n"
    );
    let stmts = parse("x = 8 / 4 * 2;").unwrap();
    assert_eq!(
        tree(&stmts),
        "Assignment: x\n  BinaryOp: *\n    BinaryOp: /\n      Number: 8\n      Number: 4\n    Number: 2\n"
    );
}

#[test]
fn parentheses_group() {
    let stmts = parse("print((1 + 2) * y);").unwrap();
    assert_eq!(
        tree(&stmts),
        "Print:\n  BinaryOp: *\n    BinaryOp: +\n      Number: 1\n      Number: 2\n    Identifier: y\n"
    );
}

#[test]
fn comparison_takes_one_operator() {
    let stmts = parse("b = x + 1 >= 2 * y;").unwrap();
    assert_eq!(
        tree(&stmts),
        "Assignment: b\n  BinaryOp: >=\n    BinaryOp: +\n      Identifier: x\n      Number: 1\n    BinaryOp: *\n      Number: 2\n      Identifier: y\n"
    );
    assert_eq!(parse("b = 1 < 2 < 3;").unwrap_err(), "Error sintaxis: esperaba ';' en línea 1");
}

#[test]
fn if_with_and_without_else() {
    let stmts = parse("if (x > 5) { print(1); } else { print(0); }").unwrap();
    assert_eq!(
        tree(&stmts),
        "If:\nCondition:\n  BinaryOp: >\n    Identifier: x\n    Number: 5\nThen:\n  Print:\n    Number: 1\nElse:\n  Print:\n    Number: 0\n"
    );
    let stmts = parse("if (x == 1) { y = 2; z = 3; }").unwrap();
    assert_eq!(stmts.len(), 1);
    match &stmts[0] {
        ASTNode::If { then_block, else_block, .. } => {
            assert_eq!(then_block.len(), 2);
            assert!(else_block.is_none());
        }
        _ => panic!("expected an if"),
    }
}

#[test]
fn nested_if_tree_is_indented() {
    let stmts = parse("if (a < b) { if (b < c) { x = 1; } }").unwrap();
    assert_eq!(
        stmts[0].print_tree(2),
        "  If:\n  Condition:\n    BinaryOp: <\n      Identifier: a\n      Identifier: b\n  Then:\n    If:\n    Condition:\n      BinaryOp: <\n        Identifier: b\n        Identifier: c\n    Then:\n      Assignment: x\n        Number: 1\n"
    );
}

#[test]
fn several_statements_in_order() {
    let stmts = parse("x = 10;\ny = x * 2 + 5;\nprint(y);").unwrap();
    let types: Vec<&str> = stmts.iter().map(|s| s.get_node_type()).collect();
    assert_eq!(types, vec!["Assignment", "Assignment", "Print"]);
}

#[test]
fn empty_program_parses_to_nothing() {
    assert_eq!(parse("").unwrap().len(), 0);
    assert_eq!(parse("  \n ").unwrap().len(), 0);
}

#[test]
fn missing_semicolon() {
    assert_eq!(parse("x = 1").unwrap_err(), "Error sintaxis: esperaba ';' en línea 1");
    assert_eq!(parse("print(1)").unwrap_err(), "Error sintaxis: esperaba ';' en línea 1");
}

#[test]
fn missing_parentheses_and_braces() {
    assert_eq!(parse("print 1;").unwrap_err(), "Error sintaxis: esperaba '(' después de print en línea 1");
    assert_eq!(parse("if x { }").unwrap_err(), "Error sintaxis: esperaba '(' después de if en línea 1");
    assert_eq!(parse("print((1);").unwrap_err(), "Error sintaxis: esperaba ')' en línea 1");
    assert_eq!(parse("if (x) print(1);").unwrap_err(), "Error sintaxis: esperaba '{' en línea 1");
    assert_eq!(parse("if (x) { print(1);").unwrap_err(), "Error sintaxis: esperaba '}' en línea 1");
}

#[test]
fn statement_errors_give_the_line() {
    assert_eq!(parse("x = 1;\n5;").unwrap_err(), "Error sintaxis en línea 2");
    assert_eq!(parse("x;").unwrap_err(), "Error sintaxis en línea 1");
    assert_eq!(parse("x = ;").unwrap_err(), "Error sintaxis en línea 1");
    assert_eq!(parse("x = 1;\n\n}").unwrap_err(), "Error sintaxis en línea 3");
}

#[test]
fn malformed_number_is_an_error() {
    assert_eq!(parse("x = 1.2.3;").unwrap_err(), "Error: no se pudo parsear número '1.2.3'");
    assert_eq!(parse("x = \u{663};").unwrap_err(), "Error: no se pudo parsear número '\u{663}'");
}

#[test]
fn numbers_keep_their_literal_text() {
    let stmts = parse("x = 05 + 1.;").unwrap();
    assert_eq!(
        tree(&stmts),
        "Assignment: x\n  BinaryOp: +\n    Number: 05\n    Number: 1.\n"
    );
}

#[test]
fn parser_takes_number_tokens_that_float_parsing_accepts() {
    let tokens = vec![
        tok(TokenType::Print, "print"),
        tok(TokenType::LParen, "("),
        tok(TokenType::Number, "1e5"),
        tok(TokenType::RParen, ")"),
        tok(TokenType::Semicolon, ";"),
        tok(TokenType::Eof, ""),
    ];
    let mut p = Parser::new(tokens);
    assert_eq!(tree(&p.parse().unwrap()), "Print:\n  Number: 1e5\n");
}

#[test]
fn parsing_stops_at_the_first_eof() {
    let tokens = vec![
        tok(TokenType::Identifier, "x"),
        tok(TokenType::Assign, "="),
        tok(TokenType::Number, "1"),
        tok(TokenType::Semicolon, ";"),
        tok(TokenType::Eof, ""),
        tok(TokenType::Identifier, "junk"),
    ];
    let mut p = Parser::new(tokens);
    assert_eq!(p.parse().unwrap().len(), 1);
}

#[test]
fn float_literals() {
    let accepted = ["1", "1.", ".5", "3.14", "1e5", "1E-3", "2.5e+10", "+1", "-0.0", "inf", "-Infinity", "NaN", "nan"];
    for s in accepted {
        assert!(is_float_literal_text(&s.to_string()), "{}", s);
        assert!(s.parse::<f64>().is_ok(), "{}", s);
    }
    let rejected = ["", ".", "1.2.3", "1e", "e5", "+", "1_0", "infinit", "\u{663}", " 1", "1x", ".e1"];
    for s in rejected {
        assert!(!is_float_literal_text(&s.to_string()), "{}", s);
        assert!(s.parse::<f64>().is_err(), "{}", s);
    }
}

#[test]
fn node_type_names() {
    let stmts = parse("x = a + 1; print(x); if (x < 1) { }").unwrap();
    assert_eq!(stmts[0].get_node_type(), "Assignment");
    assert_eq!(stmts[1].get_node_type(), "Print");
    assert_eq!(stmts[2].get_node_type(), "If");
    match &stmts[0] {
        ASTNode::Assignment { expression, .. } => {
            assert_eq!(expression.get_node_type(), "BinaryOp");
            match &**expression {
                ASTNode::BinaryOp { left, right, .. } => {
                    assert_eq!(left.get_node_type(), "Identifier");
                    assert_eq!(right.get_node_type(), "Number");
                }
                _ => panic!("expected an operation"),
            }
        }
        _ => panic!("expected an assignment"),
    }
}

fn tok_at_line(kind: TokenType, text: &str, line: usize) -> Token {
    Token::new(kind, text.to_string(), line, 1)
}

#[test]
fn only_end_of_input_is_empty_program() {
    let mut p = Parser::new(vec![tok(TokenType::Eof, "")]);
    assert_eq!(p.parse().unwrap().len(), 0);
}

#[test]
fn lone_identifier_without_end_token() {
    let mut p = Parser::new(vec![tok(TokenType::Identifier, "x")]);
    assert_eq!(p.parse().unwrap_err(), "Error sintaxis en línea 1");
}

#[test]
fn missing_paren_at_last_token_without_end_token() {
    let mut p = Parser::new(vec![
        tok(TokenType::Print, "print"),
        tok(TokenType::LParen, "("),
        tok_at_line(TokenType::Number, "1", 3),
    ]);
    assert_eq!(p.parse().unwrap_err(), "Error sintaxis: esperaba ')' en línea 3");
}

#[test]
fn brace_as_last_token_without_end_token() {
    let mut p = Parser::new(vec![
        tok(TokenType::If, "if"),
        tok(TokenType::LParen, "("),
        tok(TokenType::Identifier, "x"),
        tok(TokenType::RParen, ")"),
        tok_at_line(TokenType::LBrace, "{", 2),
    ]);
    assert_eq!(p.parse().unwrap_err(), "Error sintaxis en línea 2");
}

#[test]
fn statements_before_last_token_without_end_token() {
    let mut p = Parser::new(vec![
        tok(TokenType::Identifier, "x"),
        tok(TokenType::Assign, "="),
        tok(TokenType::Number, "1"),
        tok(TokenType::Semicolon, ";"),
        tok_at_line(TokenType::Semicolon, ";", 2),
    ]);
    assert_eq!(p.parse().unwrap_err(), "Error sintaxis en línea 2");
}

#[test]
fn indentation_check_before_printing() {
    let stmts = parse("x = 1 + 2;").unwrap();
    assert!(stmts[0].indent_fits_from(0));
    assert!(stmts[0].indent_fits_from(usize::MAX - 4));
    assert!(!stmts[0].indent_fits_from(usize::MAX - 3));
    let number = ASTNode::Number("1".to_string());
    assert!(number.indent_fits_from(usize::MAX));
}
