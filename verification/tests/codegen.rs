use lib::ast::ASTNode;
use lib::codegen::{code_size, op_kind, CodeGenerator, Instruction, OpKind};
use lib::lexer::Lexer;
use lib::parser::Parser;

fn parse(src: &str) -> Vec<ASTNode> {
    let mut lexer = Lexer::new(src.to_string());
    let mut parser = Parser::new(lexer.tokenize().unwrap());
    parser.parse().unwrap()
}

fn inst(op: &str, arg1: &str, arg2: &str, result: &str) -> Instruction {
    Instruction { op: op.to_string(), arg1: arg1.to_string(), arg2: arg2.to_string(), result: result.to_string() }
}

#[test]
fn assignment_and_print_listing() {
    let mut g = CodeGenerator::new();
    let listing = g.generate(&parse("x = 5 + 3; print(x);"));
    assert_eq!(listing, "1: t0 = 5 + 3\n2: x = t0\n3: print x\n");
}

#[test]
fn temporaries_follow_evaluation_order() {
    let mut g = CodeGenerator::new();
    let listing = g.generate(&parse("y = (a + b) * (c - 1);"));
    assert_eq!(listing, "1: t0 = a + b\n2: t1 = c - 1\n3: t2 = t0 * t1\n4: y = t2\n");
}

#[test]
fn if_else_listing() {
    let mut g = CodeGenerator::new();
    let listing = g.generate(&parse("if (x > 5) { print(1); } else { print(0); }"));
    assert_eq!(
        listing,
        "1: t0 = x > 5\n2: if_false t0 goto L0\n3: print 1\n4: goto L1\n5: L0:\n6: print 0\n7: L1:\n"
    );
}

#[test]
fn if_without_else_has_no_goto() {
    let mut g = CodeGenerator::new();
    let listing = g.generate(&parse("if (x > 5) { print(1); }"));
    assert_eq!(listing, "1: t0 = x > 5\n2: if_false t0 goto L0\n3: print 1\n4: L0:\n5: L1:\n");
}

#[test]
fn generate_starts_afresh() {
    let mut g = CodeGenerator::new();
    g.generate(&parse("x = 1 + 1; if (x < 1) { }"));
    let listing = g.generate(&parse("y = 2 * 2;"));
    assert_eq!(listing, "1: t0 = 2 * 2\n2: y = t0\n");
    assert_eq!(g.instructions().len(), 2);
}

#[test]
fn nested_ifs_take_labels_in_order() {
    let mut g = CodeGenerator::new();
    let listing = g.generate(&parse("if (a < b) { if (c < d) { print(1); } } else { print(2); }"));
    assert_eq!(
        listing,
        "1: t0 = a < b\n2: if_false t0 goto L0\n3: t1 = c < d\n4: if_false t1 goto L2\n5: print 1\n6: L2:\n7: L3:\n8: goto L1\n9: L0:\n10: print 2\n11: L1:\n"
    );
}

#[test]
fn instruction_text_forms() {
    assert_eq!(inst("=", "t0", "", "x").to_string(), "x = t0");
    assert_eq!(inst("print", "x", "", "").to_string(), "print x");
    assert_eq!(inst("if_false", "t1", "", "L0").to_string(), "if_false t1 goto L0");
    assert_eq!(inst("goto", "", "", "L1").to_string(), "goto L1");
    assert_eq!(inst("label", "", "", "L1").to_string(), "L1:");
    assert_eq!(inst("<=", "a", "b", "t2").to_string(), "t2 = a <= b");
}

#[test]
fn op_kinds() {
    assert_eq!(op_kind(&"=".to_string()), OpKind::Copy);
    assert_eq!(op_kind(&"print".to_string()), OpKind::Print);
    assert_eq!(op_kind(&"/".to_string()), OpKind::Arithmetic);
    assert_eq!(op_kind(&"!=".to_string()), OpKind::Comparison);
    assert_eq!(op_kind(&"if_false".to_string()), OpKind::IfFalse);
    assert_eq!(op_kind(&"goto".to_string()), OpKind::Goto);
    assert_eq!(op_kind(&"label".to_string()), OpKind::Label);
    assert_eq!(op_kind(&"%".to_string()), OpKind::Unknown);
}

#[test]
fn control_flow_of_generated_code() {
    let mut g = CodeGenerator::new();
    g.generate(&parse("if (x > 5) { print(1); } else { print(0); }"));
    // 0: t0 = x > 5, 1: if_false, 2: print 1, 3: goto L1, 4: L0:, 5: print 0, 6: L1:
    assert_eq!(g.next_pc(0, false).unwrap(), 1);
    assert_eq!(g.next_pc(1, false).unwrap(), 2);
    assert_eq!(g.next_pc(1, true).unwrap(), 4);
    assert_eq!(g.next_pc(3, false).unwrap(), 6);
    assert_eq!(g.next_pc(6, true).unwrap(), 7);
}

#[test]
fn code_size_counts_temporaries_and_labels() {
    assert_eq!(code_size(&parse("x = 1 + 2 * 3; if (x < 1) { if (x < 2) { } } else { y = x - 1; }")), Some((5, 4)));
    assert_eq!(code_size(&parse("")), Some((0, 0)));
}

#[test]
fn every_label_is_placed_once() {
    let mut g = CodeGenerator::new();
    g.generate(&parse(
        "if (a < 1) { if (b < 2) { x = 1; } else { x = 2; } } else { if (c < 3) { x = 3; } } if (d < 4) { }",
    ));
    let labels: Vec<String> = g
        .instructions()
        .iter()
        .filter(|i| i.op == "label")
        .map(|i| i.result.clone())
        .collect();
    assert_eq!(labels.len(), 8);
    for (i, a) in labels.iter().enumerate() {
        for b in &labels[i + 1..] {
            assert_ne!(a, b);
        }
    }
    for i in g.instructions() {
        if i.op == "goto" || i.op == "if_false" {
            assert!(labels.contains(&i.result));
        }
    }
}

#[test]
fn every_step_goes_forward() {
    let mut g = CodeGenerator::new();
    g.generate(&parse(
        "x = 0; if (x < 1) { if (x < 2) { print(x); } else { x = x + 1; } } else { print(2); } print(x);",
    ));
    let n = g.instructions().len();
    for pc in 0..n {
        for zero in [false, true] {
            let next = g.next_pc(pc, zero).unwrap();
            assert!(pc < next && next <= n, "{} {}", pc, next);
        }
    }
}

#[test]
fn instruction_counts_per_statement() {
    let mut g = CodeGenerator::new();
    g.generate(&parse("y = (a + b) * (c - 1);"));
    assert_eq!(g.instructions().len(), 4);
    g.generate(&parse("if (x > 5) { print(1); } else { print(0); }"));
    assert_eq!(g.instructions().len(), 7);
    g.generate(&parse("if (x > 5) { print(1); }"));
    assert_eq!(g.instructions().len(), 5);
    g.generate(&parse("print(1); x = 2 + 3 * 4; if (x < 1) { }"));
    assert_eq!(g.instructions().len(), 1 + 3 + 4);
}

#[test]
fn code_of_unchecked_programs_also_steps_forward() {
    let mut g = CodeGenerator::new();
    // `y` and `z` are never defined: the checks would refuse this program.
    g.generate(&parse("if (y > 1) { print(z); } else { if (z) { w = y; } }"));
    let n = g.instructions().len();
    for pc in 0..n {
        for zero in [false, true] {
            let next = g.next_pc(pc, zero).unwrap();
            assert!(pc < next && next <= n);
        }
    }
}
