use lib::ast::ASTNode;
use lib::codegen::CodeGenerator;
use lib::session::{classify_line, Command, LineKind, Session};

fn listing(s: &Session) -> Vec<String> {
    s.codegen().instructions().iter().map(|i| i.to_string()).collect()
}

#[test]
fn lines_are_classified() {
    assert_eq!(classify_line("x = 1;"), LineKind::Code);
    assert_eq!(classify_line("  if (x < 1) { print(x); }  \n"), LineKind::Code);
    assert_eq!(classify_line("x = 1"), LineKind::Incomplete);
    assert_eq!(classify_line("   \n"), LineKind::Blank);
    assert_eq!(classify_line(""), LineKind::Blank);
    assert_eq!(classify_line(":help\n"), LineKind::Command(Command::Help));
    assert_eq!(classify_line("  :h"), LineKind::Command(Command::Help));
    assert_eq!(classify_line(":vars"), LineKind::Command(Command::Vars));
    assert_eq!(classify_line(":v"), LineKind::Command(Command::Vars));
    assert_eq!(classify_line(":clear"), LineKind::Command(Command::Clear));
    assert_eq!(classify_line(":c"), LineKind::Command(Command::Clear));
    assert_eq!(classify_line(":exit"), LineKind::Command(Command::Exit));
    assert_eq!(classify_line(":quit"), LineKind::Command(Command::Exit));
    assert_eq!(classify_line(":q\r\n"), LineKind::Command(Command::Exit));
    assert_eq!(classify_line(":foo"), LineKind::Command(Command::Other));
    assert_eq!(classify_line(": help"), LineKind::Command(Command::Other));
}

#[test]
fn unicode_whitespace_around_a_line_is_trimmed() {
    assert_eq!(classify_line("\u{3000} x = 1;\u{2003}\t\n"), LineKind::Code);
    assert_eq!(classify_line("\u{3000}\u{a0}"), LineKind::Blank);
    assert_eq!(classify_line("\u{3000}:q\u{3000}"), LineKind::Command(Command::Exit));
    assert_eq!(classify_line("x = 1;\u{3000}y"), LineKind::Incomplete);
}

#[test]
fn statements_accumulate_across_lines() {
    let mut s = Session::new();
    s.compile("x = 10;".to_string()).unwrap();
    s.compile("y = x * 2 + 5;".to_string()).unwrap();
    s.compile("print(y);".to_string()).unwrap();
    assert_eq!(
        listing(&s),
        vec!["x = 10", "t0 = x * 2", "t1 = t0 + 5", "y = t1", "print y"]
    );
}

#[test]
fn failing_lines_leave_the_program_unchanged() {
    let mut s = Session::new();
    s.compile("x = 1;".to_string()).unwrap();
    assert_eq!(s.compile("x = 1 @;".to_string()).unwrap_err(), "Error léxico: carácter '@' en línea 1");
    assert_eq!(s.compile("x = ;".to_string()).unwrap_err(), "Error sintaxis en línea 1");
    assert_eq!(s.compile("y = 2; print(z);".to_string()).unwrap_err(), "Error semántico: variable 'z' no definida");
    // the check defined y before it failed, but no statement was added
    assert!(s.semantic().get_symbol_table().is_defined("y"));
    assert_eq!(listing(&s), vec!["x = 1"]);
}

#[test]
fn clear_forgets_everything() {
    let mut s = Session::new();
    s.compile("x = 1;".to_string()).unwrap();
    s.clear();
    assert!(!s.semantic().get_symbol_table().is_defined("x"));
    assert_eq!(listing(&s).len(), 0);
    assert_eq!(s.compile("print(x);".to_string()).unwrap_err(), "Error semántico: variable 'x' no definida");
}

#[test]
fn session_code_always_resolves_its_jumps() {
    let mut s = Session::new();
    s.compile("x = 3;".to_string()).unwrap();
    s.compile("if (x > 1) { print(x); } else { if (x < 0) { print(0); } }".to_string()).unwrap();
    let g = s.codegen();
    for pc in 0..g.instructions().len() {
        assert!(g.next_pc(pc, true).is_ok());
        assert!(g.next_pc(pc, false).is_ok());
    }
}

#[test]
fn unknown_operation_stops_the_program() {
    let stmts = vec![ASTNode::Print {
        expression: Box::new(ASTNode::BinaryOp {
            op: "%".to_string(),
            left: Box::new(ASTNode::Number("7".to_string())),
            right: Box::new(ASTNode::Number("2".to_string())),
        }),
    }];
    let mut g = CodeGenerator::new();
    assert_eq!(g.generate(&stmts), "1: t0 = 7 % 2\n2: print t0\n");
    assert_eq!(g.next_pc(0, false).unwrap_err(), "Error: operación desconocida '%'");
}

#[test]
fn unicode_whitespace_is_trimmed_like_std() {
    let all_white: String = [
        '\u{9}', '\u{a}', '\u{b}', '\u{c}', '\u{d}', ' ', '\u{85}', '\u{a0}', '\u{1680}', '\u{2000}',
        '\u{2005}', '\u{200a}', '\u{2028}', '\u{2029}', '\u{202f}', '\u{205f}', '\u{3000}',
    ]
    .iter()
    .collect();
    assert!(all_white.chars().all(|c| c.is_whitespace()));
    assert_eq!(classify_line(&all_white), LineKind::Blank);
    assert_eq!(classify_line(&format!("{}x = 1;{}", all_white, all_white)), LineKind::Code);
    assert_eq!(classify_line("\u{3000}:q\u{85}"), LineKind::Command(Command::Exit));
    // U+200B and U+FEFF are not White_Space: they are kept.
    assert!(!'\u{200b}'.is_whitespace());
    assert_eq!(classify_line("x = 1;\u{200b}"), LineKind::Incomplete);
    assert_eq!(classify_line("\u{feff}:q"), LineKind::Incomplete);
}
