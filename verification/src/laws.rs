//! Properties that hold across the stages: what the code generated for a
//! program guarantees, and which programs have those guarantees.
use vstd::prelude::*;
use crate::ast::Node;
use crate::codegen::{
    GenState, InstView, OpKind, emit, gen_block, gen_expression, gen_start, gen_statement, inst,
    if_else_state, if_then_state, label_name, label_target, lemma_gen_block_code,
    lemma_label_target, next_pc_of, op_kind_of, temp_name,
};
use crate::semantic::{check_block, check_statement, expr_type, is_arithmetic_op, is_comparison_op};
use crate::text::{decimal, digit_char};
use crate::lexer::lex_from;
use crate::parser::{
    block_shaped, expr_shaped, lemma_lexed_operators_spelled, lemma_parse_shaped, parse_program,
    stmt_shaped,
};

verus! {

/// An expression built of numbers, variables and the ten operators.
pub open spec fn valid_expr(e: Node) -> bool
    decreases e,
{
    match e {
        Node::Number(_) => true,
        Node::Identifier(_) => true,
        Node::BinaryOp(op, l, r) => (is_arithmetic_op(op) || is_comparison_op(op)) && valid_expr(*l)
            && valid_expr(*r),
        _ => false,
    }
}

/// An assignment, a print or an if, with valid expressions and blocks.
pub open spec fn valid_stmt(s: Node) -> bool
    decreases s,
{
    match s {
        Node::Assignment(_, e) => valid_expr(*e),
        Node::Print(e) => valid_expr(*e),
        Node::If(c, th, el) => valid_expr(*c) && valid_block(th) && match el {
            Some(b) => valid_block(b),
            None => true,
        },
        _ => false,
    }
}

pub open spec fn valid_block(b: Seq<Node>) -> bool
    decreases b,
{
    b.len() == 0 || (valid_stmt(b[0]) && valid_block(b.drop_first()))
}

/// Every operation in `n`, at any depth and in any place, uses one of the
/// ten operators.
pub open spec fn ops_known(n: Node) -> bool
    decreases n,
{
    match n {
        Node::Number(_) => true,
        Node::Identifier(_) => true,
        Node::BinaryOp(op, l, r) => (is_arithmetic_op(op) || is_comparison_op(op)) && ops_known(*l)
            && ops_known(*r),
        Node::Assignment(_, e) => ops_known(*e),
        Node::Print(e) => ops_known(*e),
        Node::If(c, th, el) => ops_known(*c) && block_ops_known(th) && match el {
            Some(b) => block_ops_known(b),
            None => true,
        },
    }
}

pub open spec fn block_ops_known(b: Seq<Node>) -> bool
    decreases b,
{
    b.len() == 0 || (ops_known(b[0]) && block_ops_known(b.drop_first()))
}

proof fn lemma_valid_expr_ops_known(e: Node)
    requires
        valid_expr(e),
    ensures
        ops_known(e),
    decreases e,
{
    if let Node::BinaryOp(op, l, r) = e {
        lemma_valid_expr_ops_known(*l);
        lemma_valid_expr_ops_known(*r);
    }
}

proof fn lemma_valid_stmt_ops_known(s: Node)
    requires
        valid_stmt(s),
    ensures
        ops_known(s),
    decreases s,
{
    match s {
        Node::Assignment(_, e) => lemma_valid_expr_ops_known(*e),
        Node::Print(e) => lemma_valid_expr_ops_known(*e),
        Node::If(c, th, el) => {
            lemma_valid_expr_ops_known(*c);
            lemma_valid_block_ops_known(th);
            if let Some(b) = el {
                lemma_valid_block_ops_known(b);
            }
        },
        _ => {},
    }
}

/// Law: the statements of a valid program use only the ten operators.
pub proof fn lemma_valid_block_ops_known(b: Seq<Node>)
    requires
        valid_block(b),
    ensures
        block_ops_known(b),
    decreases b,
{
    if b.len() > 0 {
        lemma_valid_stmt_ops_known(b[0]);
        lemma_valid_block_ops_known(b.drop_first());
    }
}

/// Law: an expression that type-checks is valid.
pub proof fn lemma_typed_expr_valid(tab: Map<Seq<char>, Seq<char>>, e: Node)
    requires
        expr_type(tab, e) is Ok,
    ensures
        valid_expr(e),
    decreases e,
{
    if let Node::BinaryOp(op, l, r) = e {
        lemma_typed_expr_valid(tab, *l);
        lemma_typed_expr_valid(tab, *r);
    }
}

/// Law: statements that pass the checks are valid.
pub proof fn lemma_checked_stmt_valid(tab: Map<Seq<char>, Seq<char>>, s: Node)
    requires
        check_statement(tab, s).1 is Ok,
    ensures
        valid_stmt(s),
    decreases s,
{
    match s {
        Node::Assignment(_, e) => lemma_typed_expr_valid(tab, *e),
        Node::Print(e) => lemma_typed_expr_valid(tab, *e),
        Node::If(c, th, el) => {
            lemma_typed_expr_valid(tab, *c);
            lemma_checked_block_valid(tab, th);
            let t1 = check_block(tab, th).0;
            if let Some(b) = el {
                lemma_checked_block_valid(t1, b);
            }
        },
        _ => {},
    }
}

/// Law: a block that passes the checks is valid.
pub proof fn lemma_checked_block_valid(tab: Map<Seq<char>, Seq<char>>, b: Seq<Node>)
    requires
        check_block(tab, b).1 is Ok,
    ensures
        valid_block(b),
    decreases b,
{
    if b.len() > 0 {
        lemma_checked_stmt_valid(tab, b[0]);
        lemma_checked_block_valid(check_statement(tab, b[0]).0, b.drop_first());
    }
}

pub proof fn lemma_valid_block_concat(a: Seq<Node>, b: Seq<Node>)
    requires
        valid_block(a),
        valid_block(b),
    ensures
        valid_block(a + b),
    decreases a.len(),
{
    if a.len() > 0 {
        lemma_valid_block_concat(a.drop_first(), b);
        assert((a + b).drop_first() =~= a.drop_first() + b);
        assert((a + b)[0] == a[0]);
    } else {
        assert(a + b =~= b);
    }
}

pub open spec fn is_jump(i: InstView) -> bool {
    op_kind_of(i.op) == OpKind::IfFalse || op_kind_of(i.op) == OpKind::Goto
}

/// Every instruction of `c` has a known operation, and every jump's label
/// is placed in `c` after the jump.
pub open spec fn runnable(c: Seq<InstView>) -> bool {
    forall|i: int| 0 <= i < c.len() ==> {
        &&& op_kind_of((#[trigger] c[i]).op) != OpKind::Unknown
        &&& is_jump(c[i]) ==> exists|j: int|
            i < j < c.len() && (#[trigger] c[j]).op == "label"@ && c[j].result == c[i].result
    }
}

/// The instructions of `c` compute values and never jump.
pub open spec fn straight(c: Seq<InstView>) -> bool {
    forall|i: int| 0 <= i < c.len() ==> {
        let k = op_kind_of((#[trigger] c[i]).op);
        k == OpKind::Arithmetic || k == OpKind::Comparison
    }
}

proof fn lemma_runnable_concat(a: Seq<InstView>, b: Seq<InstView>)
    requires
        runnable(a),
        runnable(b),
    ensures
        runnable(a + b),
{
    let c = a + b;
    assert forall|i: int| 0 <= i < c.len() implies {
        &&& op_kind_of((#[trigger] c[i]).op) != OpKind::Unknown
        &&& is_jump(c[i]) ==> exists|j: int|
            i < j < c.len() && (#[trigger] c[j]).op == "label"@ && c[j].result == c[i].result
    } by {
        if i < a.len() {
            assert(c[i] == a[i]);
            if is_jump(c[i]) {
                let j: int = choose|j: int| i < j < a.len() && (#[trigger] a[j]).op == "label"@ && a[j].result == a[i].result;
                assert(c[j] == a[j]);
            }
        } else {
            assert(c[i] == b[i - a.len()]);
            if is_jump(c[i]) {
                let j: int = choose|j: int| i - a.len() < j < b.len() && (#[trigger] b[j]).op == "label"@ && b[j].result == b[i - a.len()].result;
                assert(c[j + a.len()] == b[j]);
            }
        }
    }
}

/// Law: what each operation of the generated code is: `if_false` and `goto`
/// jump, `label` marks a target, `=` copies, `print` prints, `+ - * /`
/// compute arithmetic and `== != < > <= >=` compare.
pub proof fn lemma_op_kinds()
    ensures
        op_kind_of("if_false"@) == OpKind::IfFalse,
        op_kind_of("goto"@) == OpKind::Goto,
        op_kind_of("label"@) == OpKind::Label,
        op_kind_of("="@) == OpKind::Copy,
        op_kind_of("print"@) == OpKind::Print,
        forall|op: Seq<char>| is_arithmetic_op(op) ==> op_kind_of(op) == OpKind::Arithmetic,
        forall|op: Seq<char>| is_comparison_op(op) ==> op_kind_of(op) == OpKind::Comparison,
{
    reveal_strlit("if_false");
    reveal_strlit("goto");
    reveal_strlit("label");
    reveal_strlit("=");
    reveal_strlit("print");
    reveal_strlit("+");
    reveal_strlit("-");
    reveal_strlit("*");
    reveal_strlit("/");
    reveal_strlit("==");
    reveal_strlit("!=");
    reveal_strlit("<");
    reveal_strlit(">");
    reveal_strlit("<=");
    reveal_strlit(">=");
    // Each literal differs from the others in its length or first character.
    assert("if_false"@.len() == 8 && "if_false"@[0] == 'i');
    assert("goto"@.len() == 4 && "goto"@[0] == 'g');
    assert("label"@.len() == 5 && "label"@[0] == 'l');
    assert("="@.len() == 1 && "="@[0] == '=');
    assert("print"@.len() == 5 && "print"@[0] == 'p');
    assert("+"@.len() == 1 && "+"@[0] == '+');
    assert("-"@.len() == 1 && "-"@[0] == '-');
    assert("*"@.len() == 1 && "*"@[0] == '*');
    assert("/"@.len() == 1 && "/"@[0] == '/');
    assert("=="@.len() == 2 && "=="@[0] == '=');
    assert("!="@.len() == 2 && "!="@[0] == '!');
    assert("<"@.len() == 1 && "<"@[0] == '<');
    assert(">"@.len() == 1 && ">"@[0] == '>');
    assert("<="@.len() == 2 && "<="@[0] == '<');
    assert(">="@.len() == 2 && ">="@[0] == '>');
}

/// The code for an expression whose operators are known extends the code so far with
/// instructions that compute values and never jump.
pub proof fn lemma_gen_expression_straight(e: Node, s: GenState) -> (delta: Seq<InstView>)
    requires
        ops_known(e),
    ensures
        gen_expression(e, s).1.code == s.code + delta,
        straight(delta),
    decreases e,
{
    lemma_op_kinds();
    match e {
        Node::BinaryOp(op, l, r) => {
            let d1 = lemma_gen_expression_straight(*l, s);
            let s1 = gen_expression(*l, s).1;
            let d2 = lemma_gen_expression_straight(*r, s1);
            let s2 = gen_expression(*r, s1).1;
            let i = inst(op, gen_expression(*l, s).0, gen_expression(*r, s1).0, crate::codegen::temp_name(s2.temps));
            let delta = d1 + d2 + seq![i];
            assert(s2.code.push(i) =~= s.code + delta);
            assert forall|k: int| 0 <= k < delta.len() implies {
                let kk = op_kind_of((#[trigger] delta[k]).op);
                kk == OpKind::Arithmetic || kk == OpKind::Comparison
            } by {
                if k < d1.len() {
                    assert(delta[k] == d1[k]);
                } else if k < d1.len() + d2.len() {
                    assert(delta[k] == d2[k - d1.len()]);
                } else {
                    assert(delta[k] == i);
                }
            }
            delta
        },
        _ => {
            assert(s.code + Seq::<InstView>::empty() =~= s.code);
            Seq::empty()
        },
    }
}

proof fn lemma_straight_runnable(c: Seq<InstView>)
    requires
        straight(c),
    ensures
        runnable(c),
{
    assert forall|i: int| 0 <= i < c.len() implies {
        &&& op_kind_of((#[trigger] c[i]).op) != OpKind::Unknown
        &&& is_jump(c[i]) ==> exists|j: int|
            i < j < c.len() && (#[trigger] c[j]).op == "label"@ && c[j].result == c[i].result
    } by {
        let k = op_kind_of(c[i].op);
        assert(k == OpKind::Arithmetic || k == OpKind::Comparison);
    }
}

/// The code for a statement whose operators are known extends the code so far with runnable instructions.
#[verifier::spinoff_prover]
pub proof fn lemma_gen_statement_runnable(st: Node, s: GenState) -> (delta: Seq<InstView>)
    requires
        ops_known(st),
    ensures
        gen_statement(st, s).code == s.code + delta,
        runnable(delta),
    decreases st,
{
    lemma_op_kinds();
    match st {
        Node::Assignment(v, e) => {
            let d = lemma_gen_expression_straight(*e, s);
            let (a, s1) = gen_expression(*e, s);
            let i = inst("="@, a, Seq::empty(), v);
            lemma_straight_runnable(d);
            lemma_runnable_concat(d, seq![i]);
            assert(s1.code.push(i) =~= s.code + (d + seq![i]));
            d + seq![i]
        },
        Node::Print(e) => {
            let d = lemma_gen_expression_straight(*e, s);
            let (a, s1) = gen_expression(*e, s);
            let i = inst("print"@, a, Seq::empty(), Seq::empty());
            lemma_straight_runnable(d);
            lemma_runnable_concat(d, seq![i]);
            assert(s1.code.push(i) =~= s.code + (d + seq![i]));
            d + seq![i]
        },
        Node::If(c, th, el) => {
            let dc = lemma_gen_expression_straight(*c, s);
            let (a, s1) = gen_expression(*c, s);
            let else_label = label_name(s1.labels);
            let end_label = label_name(s1.labels + 1);
            let s2 = GenState { code: s1.code, temps: s1.temps, labels: s1.labels + 2 };
            let jf = inst("if_false"@, a, Seq::empty(), else_label);
            let s3 = emit(s2, jf);
            let dt = lemma_gen_block_runnable(th, s3);
            let s4 = gen_block(th, s3);
            let gt = inst("goto"@, Seq::empty(), Seq::empty(), end_label);
            let dg: Seq<InstView> = if el is Some { seq![gt] } else { Seq::empty() };
            let s5 = if el is Some { emit(s4, gt) } else { s4 };
            assert(s5.code =~= s4.code + dg);
            let le = inst("label"@, Seq::empty(), Seq::empty(), else_label);
            let s6 = emit(s5, le);
            let de = match el {
                Some(b) => lemma_gen_block_runnable(b, s6),
                None => Seq::empty(),
            };
            let s7 = match el {
                Some(b) => gen_block(b, s6),
                None => s6,
            };
            assert(s7.code =~= s6.code + de);
            let ln = inst("label"@, Seq::empty(), Seq::empty(), end_label);
            let delta = dc + seq![jf] + dt + dg + seq![le] + de + seq![ln];
            assert(gen_statement(st, s).code =~= s.code + delta);
            assert forall|i: int| 0 <= i < delta.len() implies {
                &&& op_kind_of((#[trigger] delta[i]).op) != OpKind::Unknown
                &&& is_jump(delta[i]) ==> exists|j: int|
                    i < j < delta.len() && (#[trigger] delta[j]).op == "label"@ && delta[j].result
                        == delta[i].result
            } by {
                let n0: int = dc.len() as int;
                let n1: int = n0 + 1;
                let n2: int = n1 + dt.len();
                let n3: int = n2 + dg.len();
                let n4: int = n3 + 1;
                let n5: int = n4 + de.len();
                assert(delta[n3] == le);
                assert(delta[n5] == ln);
                if i < n0 {
                    assert(delta[i] == dc[i]);
                    let k = op_kind_of(dc[i].op);
                    assert(k == OpKind::Arithmetic || k == OpKind::Comparison);
                } else if i < n1 {
                    assert(delta[i] == jf);
                } else if i < n2 {
                    assert(delta[i] == dt[i - n1]);
                    if is_jump(delta[i]) {
                        let j: int = choose|j: int| i - n1 < j < dt.len() && (#[trigger] dt[j]).op == "label"@
                            && dt[j].result == dt[i - n1].result;
                        assert(delta[j + n1] == dt[j]);
                    }
                } else if i < n3 {
                    assert(delta[i] == gt);
                } else if i < n4 {
                    assert(delta[i] == le);
                } else if i < n5 {
                    assert(delta[i] == de[i - n4]);
                    if is_jump(delta[i]) {
                        let j: int = choose|j: int| i - n4 < j < de.len() && (#[trigger] de[j]).op == "label"@
                            && de[j].result == de[i - n4].result;
                        assert(delta[j + n4] == de[j]);
                    }
                } else {
                    assert(delta[i] == ln);
                }
            }
            delta
        },
        _ => Seq::empty(),
    }
}

/// The code for statements whose operators are known extends the code so far with runnable instructions.
pub proof fn lemma_gen_block_runnable(b: Seq<Node>, s: GenState) -> (delta: Seq<InstView>)
    requires
        block_ops_known(b),
    ensures
        gen_block(b, s).code == s.code + delta,
        runnable(delta),
    decreases b,
{
    if b.len() == 0 {
        assert(s.code + Seq::<InstView>::empty() =~= s.code);
        Seq::empty()
    } else {
        let d1 = lemma_gen_statement_runnable(b[0], s);
        let d2 = lemma_gen_block_runnable(b.drop_first(), gen_statement(b[0], s));
        lemma_runnable_concat(d1, d2);
        assert(s.code + d1 + d2 =~= s.code + (d1 + d2));
        d1 + d2
    }
}

/// Law: the code generated for a program whose operations all use the ten
/// operators (as every program the parser reads from the lexer's tokens, and
/// every program the checks accept) never stops on an unknown
/// operation or a missing label, whatever the values it computes, and every
/// step goes forward, so that running it ends after at most as many steps as
/// it has instructions.
pub proof fn lemma_program_runs(b: Seq<Node>)
    requires
        block_ops_known(b),
    ensures
        forall|pc: int, operand_is_zero: bool|
            0 <= pc < gen_block(b, gen_start()).code.len() ==> (#[trigger] next_pc_of(
                gen_block(b, gen_start()).code,
                pc,
                operand_is_zero,
            ) matches Ok(n) && pc < n <= gen_block(b, gen_start()).code.len()),
{
    let d = lemma_gen_block_runnable(b, gen_start());
    let c = gen_block(b, gen_start()).code;
    assert(c =~= d);
    assert forall|pc: int, z: bool| 0 <= pc < c.len() implies (#[trigger] next_pc_of(c, pc, z)
        matches Ok(n) && pc < n <= c.len()) by {
        let i = c[pc];
        assert(op_kind_of(i.op) != OpKind::Unknown);
        if is_jump(i) {
            lemma_label_target(c, i.result);
            let j: int = choose|j: int| pc < j < c.len() && (#[trigger] c[j]).op == "label"@ && c[j].result == i.result;
        }
    }
}

proof fn lemma_decimal_len(n: nat)
    ensures
        decimal(n).len() >= 1,
        n >= 10 ==> decimal(n).len() >= 2,
    decreases n,
{
    if n >= 10 {
        lemma_decimal_len(n / 10);
    }
}

/// Different numbers have different decimal notations.
pub proof fn lemma_decimal_injective(n: nat, m: nat)
    requires
        decimal(n) == decimal(m),
    ensures
        n == m,
    decreases n,
{
    lemma_decimal_len(n);
    lemma_decimal_len(m);
    if n < 10 && m < 10 {
        assert(decimal(n)[0] == digit_char(n));
        assert(decimal(m)[0] == digit_char(m));
        lemma_digit_char_injective(n, m);
    }
    if n >= 10 && m >= 10 {
        let dn = decimal(n);
        assert(dn.drop_last() == decimal(n / 10));
        assert(decimal(m).drop_last() == decimal(m / 10));
        assert(digit_char(n % 10) == dn.last());
        assert(digit_char(m % 10) == decimal(m).last());
        lemma_digit_char_injective(n % 10, m % 10);
        lemma_decimal_injective(n / 10, m / 10);
    }
}

proof fn lemma_digit_char_injective(a: nat, b: nat)
    requires
        a < 10,
        b < 10,
        digit_char(a) == digit_char(b),
    ensures
        a == b,
{
}

proof fn lemma_label_name_injective(n: nat, m: nat)
    requires
        label_name(n) == label_name(m),
    ensures
        n == m,
{
    reveal_strlit("L");
    assert(label_name(n).skip(1) =~= decimal(n));
    assert(label_name(m).skip(1) =~= decimal(m));
    lemma_decimal_injective(n, m);
}

proof fn lemma_temp_name_injective(n: nat, m: nat)
    requires
        temp_name(n) == temp_name(m),
    ensures
        n == m,
{
    reveal_strlit("t");
    assert(temp_name(n).skip(1) =~= decimal(n));
    assert(temp_name(m).skip(1) =~= decimal(m));
    lemma_decimal_injective(n, m);
}

/// `k` is the name of no temporary.
pub open spec fn not_temp(k: Seq<char>) -> bool {
    forall|j: nat| k != #[trigger] temp_name(j)
}

/// The value of operand `x` in `env`: the value stored under it, or else the
/// value of `x` read as a literal by `lit`.
pub open spec fn operand_value<V>(env: Map<Seq<char>, V>, lit: spec_fn(Seq<char>) -> V, x: Seq<char>) -> V {
    if env.contains_key(x) {
        env[x]
    } else {
        lit(x)
    }
}

/// Running straight-line code from `env`: each instruction stores under its
/// result the operation `apply` of its operation and its two operands' values.
pub open spec fn run_straight<V>(
    code: Seq<InstView>,
    env: Map<Seq<char>, V>,
    lit: spec_fn(Seq<char>) -> V,
    apply: spec_fn(Seq<char>, V, V) -> V,
) -> Map<Seq<char>, V>
    decreases code.len(),
{
    if code.len() == 0 {
        env
    } else {
        let i = code.last();
        let e = run_straight(code.drop_last(), env, lit, apply);
        e.insert(i.result, apply(i.op, operand_value(e, lit, i.arg1), operand_value(e, lit, i.arg2)))
    }
}

/// The value of expression `e`: a number is its literal read by `lit`, a
/// variable its value in `env`, and an operation `op` on `l` and `r` is
/// `apply(op, value of l, value of r)`.
pub open spec fn expr_value<V>(
    e: Node,
    env: Map<Seq<char>, V>,
    lit: spec_fn(Seq<char>) -> V,
    apply: spec_fn(Seq<char>, V, V) -> V,
) -> V
    decreases e,
{
    match e {
        Node::Number(t) => lit(t),
        Node::Identifier(n) => operand_value(env, lit, n),
        Node::BinaryOp(op, l, r) => apply(
            op,
            expr_value(*l, env, lit, apply),
            expr_value(*r, env, lit, apply),
        ),
        _ => lit(Seq::empty()),
    }
}

/// An expression of numbers, variables and operations (other than `=` and
/// `print`) whose names are no temporary's, and whose number literals are not
/// names stored in `env`.
pub open spec fn plain_names<V>(e: Node, env: Map<Seq<char>, V>) -> bool
    decreases e,
{
    match e {
        Node::Number(t) => not_temp(t) && !env.contains_key(t),
        Node::Identifier(n) => not_temp(n),
        Node::BinaryOp(op, l, r) => op != "="@ && op != "print"@ && plain_names(*l, env)
            && plain_names(*r, env),
        _ => false,
    }
}

/// `m` holds at `k` what `env` holds there.
pub open spec fn same_at<V>(m: Map<Seq<char>, V>, env: Map<Seq<char>, V>, k: Seq<char>) -> bool {
    &&& m.contains_key(k) == env.contains_key(k)
    &&& env.contains_key(k) ==> m[k] == env[k]
}

proof fn lemma_run_straight_concat<V>(
    a: Seq<InstView>,
    b: Seq<InstView>,
    env: Map<Seq<char>, V>,
    lit: spec_fn(Seq<char>) -> V,
    apply: spec_fn(Seq<char>, V, V) -> V,
)
    ensures
        run_straight(a + b, env, lit, apply) == run_straight(b, run_straight(a, env, lit, apply), lit, apply),
    decreases b.len(),
{
    if b.len() == 0 {
        assert(a + b =~= a);
    } else {
        lemma_run_straight_concat(a, b.drop_last(), env, lit, apply);
        assert((a + b).drop_last() =~= a + b.drop_last());
        assert((a + b).last() == b.last());
    }
}

proof fn lemma_plain_names_env<V>(e: Node, env: Map<Seq<char>, V>, m: Map<Seq<char>, V>)
    requires
        plain_names(e, env),
        forall|k: Seq<char>| not_temp(k) ==> same_at(m, env, k),
    ensures
        plain_names(e, m),
        forall|lit: spec_fn(Seq<char>) -> V, apply: spec_fn(Seq<char>, V, V) -> V|
            #[trigger] expr_value(e, m, lit, apply) == expr_value(e, env, lit, apply),
    decreases e,
{
    match e {
        Node::Number(t) => {
            assert(same_at(m, env, t));
        },
        Node::Identifier(n) => {
            assert(same_at(m, env, n));
        },
        Node::BinaryOp(op, l, r) => {
            lemma_plain_names_env(*l, env, m);
            lemma_plain_names_env(*r, env, m);
            assert forall|lit: spec_fn(Seq<char>) -> V, apply: spec_fn(Seq<char>, V, V) -> V|
                #[trigger] expr_value(e, m, lit, apply) == expr_value(e, env, lit, apply) by {
                assert(expr_value(*l, m, lit, apply) == expr_value(*l, env, lit, apply));
                assert(expr_value(*r, m, lit, apply) == expr_value(*r, env, lit, apply));
            }
        },
        _ => {},
    }
}

/// Law: running the code generated for an expression computes the
/// expression: whatever the values and whatever each operation does (`apply`),
/// the operand it leaves holds `expr_value`, each operation applied to its left
/// operand's value first and its right operand's second. The code writes only
/// new temporaries: every other name keeps its value.
pub proof fn lemma_gen_expression_computes<V>(
    e: Node,
    s: GenState,
    env: Map<Seq<char>, V>,
    lit: spec_fn(Seq<char>) -> V,
    apply: spec_fn(Seq<char>, V, V) -> V,
)
    requires
        plain_names(e, env),
    ensures
        ({
            let (x, t) = gen_expression(e, s);
            let m = run_straight(t.code.skip(s.code.len() as int), env, lit, apply);
            &&& s.code.len() <= t.code.len()
            &&& t.code.take(s.code.len() as int) == s.code
            &&& s.temps <= t.temps
            &&& operand_value(m, lit, x) == expr_value(e, env, lit, apply)
            &&& (not_temp(x) || exists|j: nat| s.temps <= j < t.temps && x == temp_name(j))
            &&& forall|k: Seq<char>| not_temp(k) ==> same_at(m, env, k)
            &&& forall|j: nat| (j < s.temps || t.temps <= j) ==> same_at(m, env, #[trigger] temp_name(j))
            &&& forall|k: int| s.code.len() <= k < t.code.len() ==> (#[trigger] t.code[k]).op != "="@
                && t.code[k].op != "print"@
        }),
    decreases e,
{
    match e {
        Node::BinaryOp(op, l, r) => {
            let (a, s1) = gen_expression(*l, s);
            let (b, s2) = gen_expression(*r, s1);
            lemma_gen_expression_computes(*l, s, env, lit, apply);
            let dl = s1.code.skip(s.code.len() as int);
            let env1 = run_straight(dl, env, lit, apply);
            lemma_plain_names_env(*r, env, env1);
            lemma_gen_expression_computes(*r, s1, env1, lit, apply);
            let dr = s2.code.skip(s1.code.len() as int);
            let env2 = run_straight(dr, env1, lit, apply);
            let tn = temp_name(s2.temps);
            let i = inst(op, a, b, tn);
            let t = gen_expression(e, s).1;
            assert(t.code == s2.code.push(i));
            assert(t.code.skip(s.code.len() as int) =~= dl + dr + seq![i]);
            assert(t.code.take(s.code.len() as int) =~= s.code) by {
                assert(s1.code.take(s.code.len() as int) == s.code);
                assert(s2.code.take(s1.code.len() as int) == s1.code);
            }
            lemma_run_straight_concat(dl, dr, env, lit, apply);
            lemma_run_straight_concat(dl + dr, seq![i], env, lit, apply);
            assert(seq![i].drop_last() =~= Seq::<InstView>::empty());
            let m = run_straight(t.code.skip(s.code.len() as int), env, lit, apply);
            let e12 = run_straight(dl + dr, env, lit, apply);
            assert(e12 == env2);
            assert(run_straight(Seq::<InstView>::empty(), e12, lit, apply) == e12);
            assert(seq![i].last() == i);
            assert(run_straight(seq![i], e12, lit, apply) == e12.insert(
                tn,
                apply(op, operand_value(e12, lit, a), operand_value(e12, lit, b)),
            ));
            assert(m == env2.insert(tn, apply(op, operand_value(env2, lit, a), operand_value(env2, lit, b))));
            // The left operand survives the right operand's code.
            assert(same_at(env2, env1, a)) by {
                if !not_temp(a) {
                    let j: nat = choose|j: nat| s.temps <= j < s1.temps && a == temp_name(j);
                    assert(same_at(env2, env1, temp_name(j)));
                }
            }
            assert(operand_value(env2, lit, a) == operand_value(env1, lit, a));
            assert(expr_value(*r, env1, lit, apply) == expr_value(*r, env, lit, apply));
            assert forall|k: Seq<char>| not_temp(k) implies same_at(m, env, k) by {
                assert(k != tn);
                assert(same_at(env2, env1, k));
                assert(same_at(env1, env, k));
            }
            assert forall|j: nat| (j < s.temps || t.temps <= j) implies same_at(
                m,
                env,
                #[trigger] temp_name(j),
            ) by {
                if temp_name(j) == tn {
                    lemma_temp_name_injective(j, s2.temps);
                }
                assert(same_at(env2, env1, temp_name(j)));
                assert(same_at(env1, env, temp_name(j)));
            }
            assert forall|k: int| s.code.len() <= k < t.code.len() implies (#[trigger] t.code[k]).op
                != "="@ && t.code[k].op != "print"@ by {
                if k < s1.code.len() {
                    assert(t.code[k] == s1.code[k]);
                } else if k < s2.code.len() {
                    assert(t.code[k] == s2.code[k]);
                } else {
                    assert(t.code[k] == i);
                }
            }
            assert(exists|j: nat| s.temps <= j < t.temps && tn == temp_name(j)) by {
                assert(s.temps <= s2.temps < t.temps && tn == temp_name(s2.temps));
            }
        },
        _ => {
            let t = gen_expression(e, s).1;
            assert(t == s);
            assert(t.code.skip(s.code.len() as int) =~= Seq::<InstView>::empty());
            assert(t.code.take(s.code.len() as int) =~= s.code);
        },
    }
}

/// Running code from the variables `env` and the printed values `out`: a
/// copy `=` stores its operand's value under its result, a `print` adds its
/// operand's value to what is printed, and any other instruction stores under
/// its result `apply` of its operation and its two operands' values.
pub open spec fn run_code<V>(
    code: Seq<InstView>,
    env: Map<Seq<char>, V>,
    out: Seq<V>,
    lit: spec_fn(Seq<char>) -> V,
    apply: spec_fn(Seq<char>, V, V) -> V,
) -> (Map<Seq<char>, V>, Seq<V>)
    decreases code.len(),
{
    if code.len() == 0 {
        (env, out)
    } else {
        let (e, o) = run_code(code.drop_last(), env, out, lit, apply);
        let i = code.last();
        if i.op == "="@ {
            (e.insert(i.result, operand_value(e, lit, i.arg1)), o)
        } else if i.op == "print"@ {
            (e, o.push(operand_value(e, lit, i.arg1)))
        } else {
            (e.insert(i.result, apply(i.op, operand_value(e, lit, i.arg1), operand_value(e, lit, i.arg2))), o)
        }
    }
}

/// What a statement without an `if` does: an assignment stores the value of
/// its expression under its variable, a print adds it to what is printed.
pub open spec fn exec_stmt<V>(
    st: Node,
    env: Map<Seq<char>, V>,
    out: Seq<V>,
    lit: spec_fn(Seq<char>) -> V,
    apply: spec_fn(Seq<char>, V, V) -> V,
) -> (Map<Seq<char>, V>, Seq<V>) {
    match st {
        Node::Assignment(v, e) => (env.insert(v, expr_value(*e, env, lit, apply)), out),
        Node::Print(e) => (env, out.push(expr_value(*e, env, lit, apply))),
        _ => (env, out),
    }
}

/// What statements without an `if` do, first to last.
pub open spec fn exec_straight<V>(
    b: Seq<Node>,
    env: Map<Seq<char>, V>,
    out: Seq<V>,
    lit: spec_fn(Seq<char>) -> V,
    apply: spec_fn(Seq<char>, V, V) -> V,
) -> (Map<Seq<char>, V>, Seq<V>)
    decreases b.len(),
{
    if b.len() == 0 {
        (env, out)
    } else {
        let (e1, o1) = exec_stmt(b[0], env, out, lit, apply);
        exec_straight(b.drop_first(), e1, o1, lit, apply)
    }
}

/// Assignments and prints whose expressions have plain names (see
/// `plain_names`) where they stand, each assigned variable being no
/// temporary's name.
pub open spec fn straight_program<V>(
    b: Seq<Node>,
    env: Map<Seq<char>, V>,
    lit: spec_fn(Seq<char>) -> V,
    apply: spec_fn(Seq<char>, V, V) -> V,
) -> bool
    decreases b.len(),
{
    b.len() == 0 || ({
        let ok = match b[0] {
            Node::Assignment(v, e) => not_temp(v) && plain_names(*e, env),
            Node::Print(e) => plain_names(*e, env),
            _ => false,
        };
        ok && straight_program(b.drop_first(), exec_stmt(b[0], env, Seq::empty(), lit, apply).0, lit, apply)
    })
}

proof fn lemma_run_code_concat<V>(
    a: Seq<InstView>,
    b: Seq<InstView>,
    env: Map<Seq<char>, V>,
    out: Seq<V>,
    lit: spec_fn(Seq<char>) -> V,
    apply: spec_fn(Seq<char>, V, V) -> V,
)
    ensures
        run_code(a + b, env, out, lit, apply) == run_code(
            b,
            run_code(a, env, out, lit, apply).0,
            run_code(a, env, out, lit, apply).1,
            lit,
            apply,
        ),
    decreases b.len(),
{
    if b.len() == 0 {
        assert(a + b =~= a);
    } else {
        lemma_run_code_concat(a, b.drop_last(), env, out, lit, apply);
        assert((a + b).drop_last() =~= a + b.drop_last());
        assert((a + b).last() == b.last());
    }
}

proof fn lemma_run_code_straight<V>(
    c: Seq<InstView>,
    env: Map<Seq<char>, V>,
    out: Seq<V>,
    lit: spec_fn(Seq<char>) -> V,
    apply: spec_fn(Seq<char>, V, V) -> V,
)
    requires
        forall|k: int| 0 <= k < c.len() ==> (#[trigger] c[k]).op != "="@ && c[k].op != "print"@,
    ensures
        run_code(c, env, out, lit, apply) == (run_straight(c, env, lit, apply), out),
    decreases c.len(),
{
    if c.len() > 0 {
        assert forall|k: int| 0 <= k < c.drop_last().len() implies (#[trigger] c.drop_last()[k]).op
            != "="@ && c.drop_last()[k].op != "print"@ by {
            assert(c.drop_last()[k] == c[k]);
        }
        lemma_run_code_straight(c.drop_last(), env, out, lit, apply);
        assert(c.last() == c[c.len() - 1]);
    }
}

/// The code of statement `st`, from state `s`, run from the variables `menv`
/// and printed values `out`, against `st` executed from `senv`, which agrees
/// with `menv` on every name that is no temporary's.
proof fn lemma_gen_stmt_computes<V>(
    st: Node,
    s: GenState,
    menv: Map<Seq<char>, V>,
    senv: Map<Seq<char>, V>,
    out: Seq<V>,
    lit: spec_fn(Seq<char>) -> V,
    apply: spec_fn(Seq<char>, V, V) -> V,
)
    requires
        forall|k: Seq<char>| not_temp(k) ==> same_at(menv, senv, k),
        match st {
            Node::Assignment(v, e) => not_temp(v) && plain_names(*e, senv),
            Node::Print(e) => plain_names(*e, senv),
            _ => false,
        },
    ensures
        ({
            let t = gen_statement(st, s);
            let (m, o) = run_code(t.code.skip(s.code.len() as int), menv, out, lit, apply);
            let (m2, o2) = exec_stmt(st, senv, out, lit, apply);
            &&& s.code.len() <= t.code.len()
            &&& t.code.take(s.code.len() as int) == s.code
            &&& o == o2
            &&& forall|k: Seq<char>| not_temp(k) ==> same_at(m, m2, k)
        }),
{
    let e = match st {
        Node::Assignment(_, e) => *e,
        Node::Print(e) => *e,
        _ => st,
    };
    lemma_plain_names_env(e, senv, menv);
    lemma_gen_expression_computes(e, s, menv, lit, apply);
    let (x, s1) = gen_expression(e, s);
    let d = s1.code.skip(s.code.len() as int);
    assert forall|k: int| 0 <= k < d.len() implies (#[trigger] d[k]).op != "="@ && d[k].op
        != "print"@ by {
        assert(d[k] == s1.code[k + s.code.len()]);
    }
    lemma_run_code_straight(d, menv, out, lit, apply);
    let m1 = run_straight(d, menv, lit, apply);
    assert(expr_value(e, menv, lit, apply) == expr_value(e, senv, lit, apply));
    let i = match st {
        Node::Assignment(v, _) => inst("="@, x, Seq::empty(), v),
        _ => inst("print"@, x, Seq::empty(), Seq::empty()),
    };
    let t = gen_statement(st, s);
    assert(t.code == s1.code.push(i));
    assert(t.code.skip(s.code.len() as int) =~= d + seq![i]);
    assert(t.code.take(s.code.len() as int) =~= s.code) by {
        assert(s1.code.take(s.code.len() as int) == s.code);
    }
    lemma_run_code_concat(d, seq![i], menv, out, lit, apply);
    assert(seq![i].drop_last() =~= Seq::<InstView>::empty());
    assert(seq![i].last() == i);
    reveal_strlit("=");
    reveal_strlit("print");
    assert("="@ != "print"@) by {
        assert("="@.len() != "print"@.len());
    }
    assert(run_code(Seq::<InstView>::empty(), m1, out, lit, apply) == (m1, out));
    if let Node::Assignment(v, _) = st {
        let m = m1.insert(v, operand_value(m1, lit, x));
        assert(i == inst("="@, x, Seq::empty(), v));
        assert(run_code(seq![i], m1, out, lit, apply) == (m, out));
        assert forall|k: Seq<char>| not_temp(k) implies same_at(
            m,
            senv.insert(v, expr_value(e, senv, lit, apply)),
            k,
        ) by {
            if k != v {
                assert(same_at(m1, menv, k));
                assert(same_at(menv, senv, k));
            }
        }
    } else {
        assert(i == inst("print"@, x, Seq::empty(), Seq::empty()));
        assert(i.op != "="@);
        assert(run_code(seq![i], m1, out, lit, apply) == (m1, out.push(operand_value(m1, lit, x))));
        assert forall|k: Seq<char>| not_temp(k) implies same_at(m1, senv, k) by {
            assert(same_at(m1, menv, k));
            assert(same_at(menv, senv, k));
        }
    }
}

/// Law: running the code generated for assignments and prints does what the
/// statements say, in order: it prints the same values, each the value of its
/// expression at that point, and leaves every variable with the value the
/// statements give it. This holds whatever the values are and whatever each
/// operation does (`apply`).
pub proof fn lemma_gen_straight_program_computes<V>(
    b: Seq<Node>,
    s: GenState,
    menv: Map<Seq<char>, V>,
    senv: Map<Seq<char>, V>,
    out: Seq<V>,
    lit: spec_fn(Seq<char>) -> V,
    apply: spec_fn(Seq<char>, V, V) -> V,
)
    requires
        forall|k: Seq<char>| not_temp(k) ==> same_at(menv, senv, k),
        straight_program(b, senv, lit, apply),
    ensures
        ({
            let t = gen_block(b, s);
            let (m, o) = run_code(t.code.skip(s.code.len() as int), menv, out, lit, apply);
            let (m2, o2) = exec_straight(b, senv, out, lit, apply);
            &&& s.code.len() <= t.code.len()
            &&& t.code.take(s.code.len() as int) == s.code
            &&& o == o2
            &&& forall|k: Seq<char>| not_temp(k) ==> same_at(m, m2, k)
        }),
    decreases b.len(),
{
    if b.len() == 0 {
        assert(s.code.skip(s.code.len() as int) =~= Seq::<InstView>::empty());
        assert(s.code.take(s.code.len() as int) =~= s.code);
    } else {
        let st = b[0];
        lemma_gen_stmt_computes(st, s, menv, senv, out, lit, apply);
        let s1 = gen_statement(st, s);
        let d1 = s1.code.skip(s.code.len() as int);
        let (m1, o1) = run_code(d1, menv, out, lit, apply);
        let (e1, q1) = exec_stmt(st, senv, out, lit, apply);
        assert(exec_stmt(st, senv, Seq::empty(), lit, apply).0 == e1);
        lemma_gen_straight_program_computes(b.drop_first(), s1, m1, e1, o1, lit, apply);
        let t = gen_block(b, s);
        assert(t == gen_block(b.drop_first(), s1));
        let d2 = t.code.skip(s1.code.len() as int);
        assert(t.code.skip(s.code.len() as int) =~= d1 + d2) by {
            assert(t.code.take(s1.code.len() as int) == s1.code);
            assert(s1.code.take(s.code.len() as int) == s.code);
        }
        assert(t.code.take(s.code.len() as int) =~= s.code) by {
            assert(t.code.take(s1.code.len() as int) == s1.code);
            assert(s1.code.take(s.code.len() as int) == s.code);
        }
        lemma_run_code_concat(d1, d2, menv, out, lit, apply);
    }
}

/// Law: the layout of the code for `if (c) th else el`, from state `s`: the
/// condition's code, then an `if_false` on the condition's operand, then the
/// then-branch's code. With an else-branch there follow a `goto` to the end
/// label, the label that the `if_false` jumps to, the else-branch's code and
/// the end label; without one, the label that the `if_false` jumps to and the
/// end label. The two labels are new and differ.
pub proof fn lemma_gen_if_layout(c: Node, th: Seq<Node>, el: Option<Seq<Node>>, s: GenState)
    ensures
        ({
            let (a, s1) = gen_expression(c, s);
            let else_label = label_name(s1.labels);
            let end_label = label_name(s1.labels + 1);
            let code = gen_statement(Node::If(Box::new(c), th, el), s).code;
            let k = s1.code.len() as int;
            let s4 = gen_block(th, if_then_state(c, s));
            let n = s4.code.len() as int;
            &&& code.take(k) == s1.code
            &&& code[k] == inst("if_false"@, a, Seq::empty(), else_label)
            &&& code.subrange(k + 1, n) == s4.code.skip(k + 1)
            &&& else_label != end_label
            &&& match el {
                Some(b) => {
                    let s6 = if_else_state(c, th, true, s);
                    let s7 = gen_block(b, s6);
                    &&& code[n] == inst("goto"@, Seq::empty(), Seq::empty(), end_label)
                    &&& code[n + 1] == inst("label"@, Seq::empty(), Seq::empty(), else_label)
                    &&& code.subrange(n + 2, s7.code.len() as int) == s7.code.skip(n + 2)
                    &&& code.len() == s7.code.len() + 1
                    &&& code.last() == inst("label"@, Seq::empty(), Seq::empty(), end_label)
                },
                None => {
                    &&& code[n] == inst("label"@, Seq::empty(), Seq::empty(), else_label)
                    &&& code.len() == n + 2
                    &&& code.last() == inst("label"@, Seq::empty(), Seq::empty(), end_label)
                },
            }
        }),
{
    let (a, s1) = gen_expression(c, s);
    let s3 = if_then_state(c, s);
    let s4 = gen_block(th, s3);
    lemma_gen_block_code(th, s3);
    if label_name(s1.labels) == label_name(s1.labels + 1) {
        lemma_label_name_injective(s1.labels, s1.labels + 1);
    }
    let code = gen_statement(Node::If(Box::new(c), th, el), s).code;
    let k = s1.code.len() as int;
    let n = s4.code.len() as int;
    assert(s3.code == s1.code.push(inst("if_false"@, a, Seq::empty(), label_name(s1.labels))));
    match el {
        Some(b) => {
            let s6 = if_else_state(c, th, true, s);
            let s7 = gen_block(b, s6);
            lemma_gen_block_code(b, s6);
            assert(code == s7.code.push(inst("label"@, Seq::empty(), Seq::empty(), label_name(s1.labels + 1))));
            assert(code[k] == s3.code[k]);
            assert(code[n] == s6.code[n]);
            assert(code[n + 1] == s6.code[n + 1]);
            assert(code.take(k) =~= s1.code);
            assert(code.subrange(k + 1, n) =~= s4.code.skip(k + 1));
            assert(code.subrange(n + 2, s7.code.len() as int) =~= s7.code.skip(n + 2));
        },
        None => {
            assert(code[k] == s3.code[k]);
            assert(code.take(k) =~= s1.code);
            assert(code.subrange(k + 1, n) =~= s4.code.skip(k + 1));
        },
    }
}

/// Law: the program moves on to the next instruction after every instruction
/// but a `goto` and an `if_false` whose operand was zero: after a copy, a
/// print, a label, any of the ten operations, and an `if_false` whose operand
/// was not zero. A `goto`, and an `if_false` whose operand was zero, go to the
/// last label of that name, or fail when there is none.
pub proof fn lemma_next_pc_steps(code: Seq<InstView>, pc: int, operand_is_zero: bool)
    requires
        0 <= pc < code.len(),
    ensures
        ({
            let op = code[pc].op;
            (op == "="@ || op == "print"@ || op == "label"@ || op == "+"@ || op == "-"@ || op
                == "*"@ || op == "/"@ || op == "=="@ || op == "!="@ || op == "<"@ || op == ">"@
                || op == "<="@ || op == ">="@ || (op == "if_false"@ && !operand_is_zero))
                ==> next_pc_of(code, pc, operand_is_zero) == Ok::<int, Seq<char>>(pc + 1)
        }),
        (code[pc].op == "goto"@ || (code[pc].op == "if_false"@ && operand_is_zero)) ==> match next_pc_of(
            code,
            pc,
            operand_is_zero,
        ) {
            Ok(t) => 0 <= t < code.len() && code[t].op == "label"@ && code[t].result
                == code[pc].result && forall|j: int|
                t < j < code.len() ==> !(#[trigger] code[j].op == "label"@ && code[j].result
                    == code[pc].result),
            Err(_) => forall|j: int|
                0 <= j < code.len() ==> !(#[trigger] code[j].op == "label"@ && code[j].result
                    == code[pc].result),
        },
{
    lemma_op_kinds();
    lemma_label_target(code, code[pc].result);
}

/// The labels placed in `c` are named `L<k>` for `lo <= k < hi`, and no two
/// of them share a name.
pub open spec fn labels_placed_once(c: Seq<InstView>, lo: nat, hi: nat) -> bool {
    &&& forall|i: int| 0 <= i < c.len() && (#[trigger] c[i]).op == "label"@ ==> exists|k: nat|
        lo <= k < hi && c[i].result == label_name(k)
    &&& forall|i: int, j: int|
        0 <= i < j < c.len() && (#[trigger] c[i]).op == "label"@ && (#[trigger] c[j]).op
            == "label"@ ==> c[i].result != c[j].result
}

proof fn lemma_straight_no_labels(c: Seq<InstView>, lo: nat, hi: nat)
    requires
        straight(c),
    ensures
        labels_placed_once(c, lo, hi),
{
    lemma_op_kinds();
    assert forall|i: int| 0 <= i < c.len() implies (#[trigger] c[i]).op != "label"@ by {
        let k = op_kind_of(c[i].op);
        assert(k == OpKind::Arithmetic || k == OpKind::Comparison);
    }
}

proof fn lemma_labels_concat(a: Seq<InstView>, b: Seq<InstView>, lo: nat, mid: nat, hi: nat)
    requires
        labels_placed_once(a, lo, mid),
        labels_placed_once(b, mid, hi),
        lo <= mid <= hi,
    ensures
        labels_placed_once(a + b, lo, hi),
{
    let c = a + b;
    assert forall|i: int| 0 <= i < c.len() && (#[trigger] c[i]).op == "label"@ implies exists|k: nat|
        lo <= k < hi && c[i].result == label_name(k) by {
        if i < a.len() {
            assert(c[i] == a[i]);
            let k = choose|k: nat| lo <= k < mid && a[i].result == label_name(k);
        } else {
            assert(c[i] == b[i - a.len()]);
            let k = choose|k: nat| mid <= k < hi && b[i - a.len()].result == label_name(k);
        }
    }
    assert forall|i: int, j: int|
        0 <= i < j < c.len() && (#[trigger] c[i]).op == "label"@ && (#[trigger] c[j]).op == "label"@ implies c[i].result
        != c[j].result by {
        if j < a.len() {
            assert(c[i] == a[i] && c[j] == a[j]);
        } else if i >= a.len() {
            assert(c[i] == b[i - a.len()] && c[j] == b[j - a.len()]);
        } else {
            assert(c[i] == a[i] && c[j] == b[j - a.len()]);
            let ki = choose|k: nat| lo <= k < mid && a[i].result == label_name(k);
            let kj = choose|k: nat| mid <= k < hi && b[j - a.len()].result == label_name(k);
            if c[i].result == c[j].result {
                lemma_label_name_injective(ki, kj);
            }
        }
    }
}

proof fn lemma_single_other(i: InstView, lo: nat, hi: nat)
    requires
        i.op != "label"@,
    ensures
        labels_placed_once(seq![i], lo, hi),
{
}

/// The labels that the code for a statement whose operators are known places are new ones, each once.
pub proof fn lemma_gen_statement_labels(st: Node, s: GenState) -> (delta: Seq<InstView>)
    requires
        ops_known(st),
    ensures
        gen_statement(st, s).code == s.code + delta,
        labels_placed_once(delta, s.labels, gen_statement(st, s).labels),
    decreases st,
{
    lemma_op_kinds();
    crate::codegen::lemma_gen_statement_grows(st, s);
    match st {
        Node::Assignment(v, e) => {
            let d = lemma_gen_expression_straight(*e, s);
            crate::codegen::lemma_gen_expression_grows(*e, s);
            let (a, s1) = gen_expression(*e, s);
            let i = inst("="@, a, Seq::empty(), v);
            lemma_straight_no_labels(d, s.labels, s.labels);
            lemma_single_other(i, s.labels, s.labels);
            lemma_labels_concat(d, seq![i], s.labels, s.labels, s.labels);
            assert(s1.code.push(i) =~= s.code + (d + seq![i]));
            d + seq![i]
        },
        Node::Print(e) => {
            let d = lemma_gen_expression_straight(*e, s);
            crate::codegen::lemma_gen_expression_grows(*e, s);
            let (a, s1) = gen_expression(*e, s);
            let i = inst("print"@, a, Seq::empty(), Seq::empty());
            lemma_straight_no_labels(d, s.labels, s.labels);
            lemma_single_other(i, s.labels, s.labels);
            lemma_labels_concat(d, seq![i], s.labels, s.labels, s.labels);
            assert(s1.code.push(i) =~= s.code + (d + seq![i]));
            d + seq![i]
        },
        Node::If(c, th, el) => {
            let dc = lemma_gen_expression_straight(*c, s);
            crate::codegen::lemma_gen_expression_grows(*c, s);
            let (a, s1) = gen_expression(*c, s);
            let lo = s.labels;
            let else_label = label_name(s1.labels);
            let end_label = label_name(s1.labels + 1);
            let s2 = GenState { code: s1.code, temps: s1.temps, labels: s1.labels + 2 };
            let jf = inst("if_false"@, a, Seq::empty(), else_label);
            let s3 = emit(s2, jf);
            let dt = lemma_gen_block_labels(th, s3);
            crate::codegen::lemma_gen_block_grows(th, s3);
            let s4 = gen_block(th, s3);
            let gt = inst("goto"@, Seq::empty(), Seq::empty(), end_label);
            let dg: Seq<InstView> = if el is Some { seq![gt] } else { Seq::empty() };
            let s5 = if el is Some { emit(s4, gt) } else { s4 };
            assert(s5.code =~= s4.code + dg);
            let le = inst("label"@, Seq::empty(), Seq::empty(), else_label);
            let s6 = emit(s5, le);
            let de = match el {
                Some(b) => lemma_gen_block_labels(b, s6),
                None => Seq::empty(),
            };
            if let Some(b) = el {
                crate::codegen::lemma_gen_block_grows(b, s6);
            }
            let s7 = match el {
                Some(b) => gen_block(b, s6),
                None => s6,
            };
            assert(s7.code =~= s6.code + de);
            let ln = inst("label"@, Seq::empty(), Seq::empty(), end_label);
            let hi = s7.labels;
            // the pieces, each with the labels it places
            lemma_straight_no_labels(dc, lo, lo);
            lemma_single_other(jf, lo, lo);
            lemma_labels_concat(dc, seq![jf], lo, lo, lo);
            lemma_labels_concat(dc + seq![jf], dt, lo, s3.labels, s4.labels);
            if el is Some {
                lemma_single_other(gt, s4.labels, s4.labels);
            }
            assert(labels_placed_once(dg, s4.labels, s4.labels));
            lemma_labels_concat(dc + seq![jf] + dt, dg, lo, s4.labels, s4.labels);
            let front = dc + seq![jf] + dt + dg;
            // the else label: its number lies below the then-branch's labels
            let back = seq![le] + de + seq![ln];
            // Place the labels of `back` by their numbers: the else label is
            // s1.labels, the end label s1.labels + 1, the else-branch's lie
            // from s6.labels on; the then-branch's lie in [s1.labels + 2, s4.labels).
            let delta = front + back;
            assert(gen_statement(st, s).code =~= s.code + delta);
            assert(s6.labels == s4.labels);
            assert(s1.labels == s.labels);
            assert forall|i: int| 0 <= i < delta.len() && (#[trigger] delta[i]).op == "label"@ implies exists|k: nat|
                lo <= k < hi + 0 && delta[i].result == label_name(k) by {
                let n3 = front.len() as int;
                if i < n3 {
                    assert(delta[i] == front[i]);
                    let k = choose|k: nat| lo <= k < s4.labels && front[i].result == label_name(k);
                } else if i == n3 {
                    assert(delta[i] == le);
                    assert(delta[i].result == label_name(s1.labels));
                } else if i < n3 + 1 + de.len() {
                    assert(delta[i] == de[i - n3 - 1]);
                    let k = choose|k: nat| s6.labels <= k < s7.labels && de[i - n3 - 1].result == label_name(k);
                } else {
                    assert(delta[i] == ln);
                    assert(delta[i].result == label_name(s1.labels + 1));
                }
            }
            // the labels of `front` are numbered from s1.labels + 2 on
            assert forall|i: int| 0 <= i < front.len() && (#[trigger] front[i]).op == "label"@ implies exists|k: nat|
                s1.labels + 2 <= k < s4.labels && front[i].result == label_name(k) by {
                let n1 = dc.len() + 1;
                if i < n1 {
                    if i < dc.len() {
                        assert(front[i] == dc[i]);
                        let kk = op_kind_of(dc[i].op);
                        assert(kk == OpKind::Arithmetic || kk == OpKind::Comparison);
                    } else {
                        assert(front[i] == jf);
                    }
                } else if i < n1 + dt.len() {
                    assert(front[i] == dt[i - n1]);
                    let k = choose|k: nat| s3.labels <= k < s4.labels && dt[i - n1].result == label_name(k);
                } else {
                    assert(front[i] == gt);
                }
            }
            assert forall|i: int, j: int|
                0 <= i < j < delta.len() && (#[trigger] delta[i]).op == "label"@ && (#[trigger] delta[j]).op
                    == "label"@ implies delta[i].result != delta[j].result by {
                let n3 = front.len() as int;
                let ne = n3 + 1 + de.len();
                let num_of = |x: int| -> nat {
                    if x < n3 {
                        choose|k: nat| s1.labels + 2 <= k < s4.labels && front[x].result == label_name(k)
                    } else if x == n3 {
                        s1.labels
                    } else if x < ne {
                        choose|k: nat| s6.labels <= k < s7.labels && de[x - n3 - 1].result == label_name(k)
                    } else {
                        s1.labels + 1
                    }
                };
                if j < n3 {
                    assert(delta[i] == front[i] && delta[j] == front[j]);
                } else if n3 < i && j < ne {
                    assert(delta[i] == de[i - n3 - 1] && delta[j] == de[j - n3 - 1]);
                } else {
                    if i < n3 {
                        assert(delta[i] == front[i]);
                        assert(front[i].op == "label"@);
                    } else if i == n3 {
                        assert(delta[i] == le);
                    } else {
                        assert(delta[i] == de[i - n3 - 1]);
                        assert(de[i - n3 - 1].op == "label"@);
                    }
                    if j < ne && j > n3 {
                        assert(delta[j] == de[j - n3 - 1]);
                        assert(de[j - n3 - 1].op == "label"@);
                    } else if j == n3 {
                        assert(delta[j] == le);
                    } else if j >= ne {
                        assert(delta[j] == ln);
                    }
                    if delta[i].result == delta[j].result {
                        assert(delta[i].result == label_name(num_of(i)));
                        assert(delta[j].result == label_name(num_of(j)));
                        lemma_label_name_injective(num_of(i), num_of(j));
                    }
                }
            }
            delta
        },
        _ => {
            assert(s.code + Seq::<InstView>::empty() =~= s.code);
            Seq::empty()
        },
    }
}

/// The labels that the code for statements whose operators are known places are new ones, each once.
pub proof fn lemma_gen_block_labels(b: Seq<Node>, s: GenState) -> (delta: Seq<InstView>)
    requires
        block_ops_known(b),
    ensures
        gen_block(b, s).code == s.code + delta,
        labels_placed_once(delta, s.labels, gen_block(b, s).labels),
    decreases b,
{
    if b.len() == 0 {
        assert(s.code + Seq::<InstView>::empty() =~= s.code);
        Seq::empty()
    } else {
        let d1 = lemma_gen_statement_labels(b[0], s);
        let s1 = gen_statement(b[0], s);
        let d2 = lemma_gen_block_labels(b.drop_first(), s1);
        crate::codegen::lemma_gen_statement_grows(b[0], s);
        crate::codegen::lemma_gen_block_grows(b.drop_first(), s1);
        lemma_labels_concat(d1, d2, s.labels, s1.labels, gen_block(b, s).labels);
        assert(s.code + d1 + d2 =~= s.code + (d1 + d2));
        d1 + d2
    }
}

/// Law: in the code generated for a program whose operations all use the
/// ten operators every label is placed
/// exactly once, so each jump has one target.
pub proof fn lemma_program_labels_unique(b: Seq<Node>)
    requires
        block_ops_known(b),
    ensures
        forall|i: int, j: int|
            0 <= i < j < gen_block(b, gen_start()).code.len() && (#[trigger] gen_block(b, gen_start()).code[i]).op
                == "label"@ && (#[trigger] gen_block(b, gen_start()).code[j]).op == "label"@
                ==> gen_block(b, gen_start()).code[i].result != gen_block(b, gen_start()).code[j].result,
{
    let d = lemma_gen_block_labels(b, gen_start());
    assert(gen_block(b, gen_start()).code =~= d);
}

proof fn lemma_shaped_expr_ops_known(e: Node)
    requires
        expr_shaped(e),
    ensures
        ops_known(e),
    decreases e,
{
    if let Node::BinaryOp(op, l, r) = e {
        lemma_shaped_expr_ops_known(*l);
        lemma_shaped_expr_ops_known(*r);
    }
}

proof fn lemma_shaped_stmt_ops_known(s: Node)
    requires
        stmt_shaped(s),
    ensures
        ops_known(s),
    decreases s,
{
    match s {
        Node::Assignment(_, e) => lemma_shaped_expr_ops_known(*e),
        Node::Print(e) => lemma_shaped_expr_ops_known(*e),
        Node::If(c, th, el) => {
            lemma_shaped_expr_ops_known(*c);
            lemma_shaped_block_ops_known(th);
            if let Some(b) = el {
                lemma_shaped_block_ops_known(b);
            }
        },
        _ => {},
    }
}

proof fn lemma_shaped_block_ops_known(b: Seq<Node>)
    requires
        block_shaped(b),
    ensures
        block_ops_known(b),
    decreases b,
{
    if b.len() > 0 {
        assert(stmt_shaped(b[0]));
        lemma_shaped_stmt_ops_known(b[0]);
        assert forall|i: int| 0 <= i < b.drop_first().len() implies stmt_shaped(
            #[trigger] b.drop_first()[i],
        ) by {
            assert(b.drop_first()[i] == b[i + 1]);
        }
        lemma_shaped_block_ops_known(b.drop_first());
    }
}

/// Law: every program the parser reads from the lexer's tokens uses only the
/// ten operators, so its code runs as `lemma_program_runs` says, whether or
/// not it passes the checks.
pub proof fn lemma_lexed_program_ops_known(src: Seq<char>)
    ensures
        lex_from(src, 0) matches Ok(ts) ==> (parse_program(ts, 0, Seq::empty()) matches Ok((b, _))
            ==> block_ops_known(b)),
{
    lemma_lexed_operators_spelled(src);
    if let Ok(ts) = lex_from(src, 0) {
        lemma_parse_shaped(ts, 0, Seq::empty());
        if let Ok((b, _)) = parse_program(ts, 0, Seq::empty()) {
            lemma_shaped_block_ops_known(b);
        }
    }
}

} // verus!
