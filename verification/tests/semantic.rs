use lib::ast::ASTNode;
use lib::lexer::Lexer;
use lib::parser::Parser;
use lib::semantic::{SemanticAnalyzer, SymbolTable};

fn parse(src: &str) -> Vec<ASTNode> {
    let mut lexer = Lexer::new(src.to_string());
    let mut parser = Parser::new(lexer.tokenize().unwrap());
    parser.parse().unwrap()
}

fn symbols(a: &SemanticAnalyzer) -> Vec<(String, String)> {
    a.get_symbol_table().get_symbols().clone()
}

#[test]
fn assignments_define_variables_with_their_types() {
    let mut a = SemanticAnalyzer::new();
    a.analyze(&parse("x = 1; b = x < 2; y = x * 3;")).unwrap();
    assert_eq!(
        symbols(&a),
        vec![
            ("x".to_string(), "number".to_string()),
            ("b".to_string(), "boolean".to_string()),
            ("y".to_string(), "number".to_string())
        ]
    );
    let t = a.get_symbol_table();
    assert_eq!(t.get_type("b").unwrap(), "boolean");
    assert!(t.is_defined("y"));
    assert!(!t.is_defined("z"));
}

#[test]
fn reassignment_replaces_the_type() {
    let mut a = SemanticAnalyzer::new();
    a.analyze(&parse("x = 1; x = 1 == 1;")).unwrap();
    assert_eq!(symbols(&a), vec![("x".to_string(), "boolean".to_string())]);
}

#[test]
fn undefined_variable() {
    let mut a = SemanticAnalyzer::new();
    assert_eq!(
        a.analyze(&parse("print(z);")).unwrap_err(),
        "Error semántico: variable 'z' no definida"
    );
    assert_eq!(
        a.analyze(&parse("y = y + 1;")).unwrap_err(),
        "Error semántico: variable 'y' no definida"
    );
}

#[test]
fn arithmetic_needs_numbers() {
    let mut a = SemanticAnalyzer::new();
    assert_eq!(
        a.analyze(&parse("b = 1 < 2; c = b + 1;")).unwrap_err(),
        "Error semántico: operación aritmética requiere números"
    );
    // the definition made before the error stays
    assert_eq!(symbols(&a), vec![("b".to_string(), "boolean".to_string())]);
}

#[test]
fn comparison_needs_numbers() {
    let mut a = SemanticAnalyzer::new();
    assert_eq!(
        a.analyze(&parse("b = 1 < 2; c = b == 1;")).unwrap_err(),
        "Error semántico: comparación requiere números"
    );
}

#[test]
fn if_condition_must_be_boolean() {
    let mut a = SemanticAnalyzer::new();
    assert_eq!(
        a.analyze(&parse("x = 1; if (x) { print(x); }")).unwrap_err(),
        "Error semántico: la condición del if debe ser booleana"
    );
}

#[test]
fn both_branches_define() {
    let mut a = SemanticAnalyzer::new();
    a.analyze(&parse("x = 1; if (x > 0) { y = 1; } else { z = 1 < 0; } print(y + x);")).unwrap();
    let t = a.get_symbol_table();
    assert_eq!(t.get_type("y").unwrap(), "number");
    assert_eq!(t.get_type("z").unwrap(), "boolean");
}

#[test]
fn error_inside_a_branch_keeps_earlier_definitions() {
    let mut a = SemanticAnalyzer::new();
    let r = a.analyze(&parse("x = 1; if (x > 0) { y = 2; print(w); }"));
    assert_eq!(r.unwrap_err(), "Error semántico: variable 'w' no definida");
    assert!(a.get_symbol_table().is_defined("y"));
}

#[test]
fn statement_and_expression_kinds_are_checked() {
    let mut a = SemanticAnalyzer::new();
    let bare = vec![ASTNode::Number("1".to_string())];
    assert_eq!(a.analyze(&bare).unwrap_err(), "Error semántico: tipo de statement desconocido");
    let odd = vec![ASTNode::Print {
        expression: Box::new(ASTNode::BinaryOp {
            op: "%".to_string(),
            left: Box::new(ASTNode::Number("1".to_string())),
            right: Box::new(ASTNode::Number("2".to_string())),
        }),
    }];
    assert_eq!(a.analyze(&odd).unwrap_err(), "Error semántico: operador desconocido '%'");
    let nested = vec![ASTNode::Print {
        expression: Box::new(ASTNode::Print { expression: Box::new(ASTNode::Number("1".to_string())) }),
    }];
    assert_eq!(a.analyze(&nested).unwrap_err(), "Error semántico: nodo desconocido en expresión");
}

#[test]
fn symbol_table_read_after_write() {
    let mut t = SymbolTable::new();
    assert_eq!(t.get_type("a").unwrap_err(), "Error semántico: variable 'a' no definida");
    t.define("a".to_string(), "number".to_string());
    t.define("b".to_string(), "boolean".to_string());
    assert_eq!(t.get_type("a").unwrap(), "number");
    t.define("a".to_string(), "boolean".to_string());
    assert_eq!(t.get_type("a").unwrap(), "boolean");
    assert_eq!(t.get_type("b").unwrap(), "boolean");
    assert_eq!(t.get_symbols().len(), 2);
}

#[test]
fn symbol_listing_text() {
    let mut a = SemanticAnalyzer::new();
    assert_eq!(a.print_symbol_table(), "");
    a.analyze(&parse("x = 1; ok = x < 2;")).unwrap();
    assert_eq!(a.print_symbol_table(), "  x : number\n  ok : boolean\n");
    assert_eq!(a.get_symbol_table().print(), "  x : number\n  ok : boolean\n");
}

#[test]
fn expression_types_follow_their_shape() {
    let mut a = SemanticAnalyzer::new();
    a.analyze(&parse("n = 1; b = n != 2; c = b; d = (n + 1) * 2; e = n + 1 <= d;")).unwrap();
    assert_eq!(
        symbols(&a),
        vec![
            ("n".to_string(), "number".to_string()),
            ("b".to_string(), "boolean".to_string()),
            ("c".to_string(), "boolean".to_string()),
            ("d".to_string(), "number".to_string()),
            ("e".to_string(), "boolean".to_string())
        ]
    );
    assert!(a.analyze(&parse("f = b + 1;")).is_err());
    assert!(a.analyze(&parse("f = b < 1;")).is_err());
}

#[test]
fn success_defines_every_assigned_variable_at_any_depth() {
    let mut a = SemanticAnalyzer::new();
    a.analyze(&parse("k = 0;")).unwrap();
    a.analyze(&parse("if (k < 1) { if (k < 2) { p = 1; } else { q = 2; } } else { r = k < 3; } s = 4;"))
        .unwrap();
    let mut keys: Vec<String> = symbols(&a).into_iter().map(|(k, _)| k).collect();
    keys.sort();
    assert_eq!(keys, vec!["k", "p", "q", "r", "s"]);
}
