//! Code generation: the syntax tree becomes three-address instructions.
use vstd::prelude::*;
use crate::ast::{ASTNode, Node, block_view, lemma_block_view};
use crate::text::{decimal, push_decimal, text_is};

verus! {

/// A three-address instruction: `result = arg1 op arg2`, or one of the forms
/// `=`, `print`, `if_false`, `goto` and `label`.
#[derive(Debug, Clone)]
pub struct Instruction {
    pub op: String,
    pub arg1: String,
    pub arg2: String,
    pub result: String,
}

/// The mathematical value of an instruction.
pub struct InstView {
    pub op: Seq<char>,
    pub arg1: Seq<char>,
    pub arg2: Seq<char>,
    pub result: Seq<char>,
}

impl View for Instruction {
    type V = InstView;

    open spec fn view(&self) -> InstView {
        InstView { op: self.op@, arg1: self.arg1@, arg2: self.arg2@, result: self.result@ }
    }
}

/// How an instruction is written in a listing.
pub open spec fn instruction_text(i: InstView) -> Seq<char> {
    if i.op == "="@ {
        i.result + " = "@ + i.arg1
    } else if i.op == "print"@ {
        "print "@ + i.arg1
    } else if i.op == "if_false"@ {
        "if_false "@ + i.arg1 + " goto "@ + i.result
    } else if i.op == "goto"@ {
        "goto "@ + i.result
    } else if i.op == "label"@ {
        i.result + ":"@
    } else {
        i.result + " = "@ + i.arg1 + " "@ + i.op + " "@ + i.arg2
    }
}

impl Instruction {
    pub fn to_string(&self) -> (s: String)
        ensures
            s@ == instruction_text(self@),
    {
        if text_is(&self.op, "=") {
            let mut s = self.result.clone();
            s.append(" = ");
            s.append(self.arg1.as_str());
            s
        } else if text_is(&self.op, "print") {
            let mut s = String::from_str("print ");
            s.append(self.arg1.as_str());
            s
        } else if text_is(&self.op, "if_false") {
            let mut s = String::from_str("if_false ");
            s.append(self.arg1.as_str());
            s.append(" goto ");
            s.append(self.result.as_str());
            s
        } else if text_is(&self.op, "goto") {
            let mut s = String::from_str("goto ");
            s.append(self.result.as_str());
            s
        } else if text_is(&self.op, "label") {
            let mut s = self.result.clone();
            s.append(":");
            s
        } else {
            let mut s = self.result.clone();
            s.append(" = ");
            s.append(self.arg1.as_str());
            s.append(" ");
            s.append(self.op.as_str());
            s.append(" ");
            s.append(self.arg2.as_str());
            s
        }
    }
}

/// The generator's state: the instructions so far and the numbers of
/// temporaries and labels made.
pub struct GenState {
    pub code: Seq<InstView>,
    pub temps: nat,
    pub labels: nat,
}

pub open spec fn temp_name(n: nat) -> Seq<char> {
    "t"@ + decimal(n)
}

pub open spec fn label_name(n: nat) -> Seq<char> {
    "L"@ + decimal(n)
}

pub open spec fn inst(op: Seq<char>, arg1: Seq<char>, arg2: Seq<char>, result: Seq<char>) -> InstView {
    InstView { op, arg1, arg2, result }
}

pub open spec fn emit(s: GenState, i: InstView) -> GenState {
    GenState { code: s.code.push(i), temps: s.temps, labels: s.labels }
}

/// Code for expression `e`: the operand that holds its value, and the state after.
/// A number is its literal; a variable its name; an operation a new temporary.
pub open spec fn gen_expression(e: Node, s: GenState) -> (Seq<char>, GenState)
    decreases e,
{
    match e {
        Node::Number(t) => (t, s),
        Node::Identifier(n) => (n, s),
        Node::BinaryOp(op, l, r) => {
            let (a, s1) = gen_expression(*l, s);
            let (b, s2) = gen_expression(*r, s1);
            let t = temp_name(s2.temps);
            (
                t,
                GenState {
                    code: s2.code.push(inst(op, a, b, t)),
                    temps: s2.temps + 1,
                    labels: s2.labels,
                },
            )
        },
        _ => (Seq::empty(), s),
    }
}

/// Code for statement `st`. An `if` takes two new labels: the else label,
/// which `if_false` jumps to, and the end label, which ends the then-branch
/// with a `goto` when there is an else-branch.
pub open spec fn gen_statement(st: Node, s: GenState) -> GenState
    decreases st,
{
    match st {
        Node::Assignment(v, e) => {
            let (a, s1) = gen_expression(*e, s);
            emit(s1, inst("="@, a, Seq::empty(), v))
        },
        Node::Print(e) => {
            let (a, s1) = gen_expression(*e, s);
            emit(s1, inst("print"@, a, Seq::empty(), Seq::empty()))
        },
        Node::If(c, th, el) => {
            let (a, s1) = gen_expression(*c, s);
            let else_label = label_name(s1.labels);
            let end_label = label_name(s1.labels + 1);
            let s2 = GenState { code: s1.code, temps: s1.temps, labels: s1.labels + 2 };
            let s3 = emit(s2, inst("if_false"@, a, Seq::empty(), else_label));
            let s4 = gen_block(th, s3);
            let s5 = if el is Some {
                emit(s4, inst("goto"@, Seq::empty(), Seq::empty(), end_label))
            } else {
                s4
            };
            let s6 = emit(s5, inst("label"@, Seq::empty(), Seq::empty(), else_label));
            let s7 = match el {
                Some(b) => gen_block(b, s6),
                None => s6,
            };
            emit(s7, inst("label"@, Seq::empty(), Seq::empty(), end_label))
        },
        _ => s,
    }
}

/// The state in which the then-branch of an `if` with condition `c` is
/// generated from `s`: after the condition's code and the `if_false`, with
/// the two labels taken.
pub open spec fn if_then_state(c: Node, s: GenState) -> GenState {
    let (a, s1) = gen_expression(c, s);
    let s2 = GenState { code: s1.code, temps: s1.temps, labels: s1.labels + 2 };
    emit(s2, inst("if_false"@, a, Seq::empty(), label_name(s1.labels)))
}

/// The state in which the else-branch of an `if` is generated from `s`: after
/// the then-branch, the `goto` (when there is an else-branch) and the else label.
pub open spec fn if_else_state(c: Node, th: Seq<Node>, has_else: bool, s: GenState) -> GenState {
    let s1 = gen_expression(c, s).1;
    let s4 = gen_block(th, if_then_state(c, s));
    let s5 = if has_else {
        emit(s4, inst("goto"@, Seq::empty(), Seq::empty(), label_name(s1.labels + 1)))
    } else {
        s4
    };
    emit(s5, inst("label"@, Seq::empty(), Seq::empty(), label_name(s1.labels)))
}

/// Code for statements in order.
pub open spec fn gen_block(b: Seq<Node>, s: GenState) -> GenState
    decreases b,
{
    if b.len() == 0 {
        s
    } else {
        gen_block(b.drop_first(), gen_statement(b[0], s))
    }
}

/// The state before any code is generated.
pub open spec fn gen_start() -> GenState {
    GenState { code: Seq::empty(), temps: 0, labels: 0 }
}

/// The numbered listing of `code`: `n: instruction` on a line each, from 1.
pub open spec fn listing(code: Seq<InstView>) -> Seq<char>
    decreases code.len(),
{
    if code.len() == 0 {
        Seq::empty()
    } else {
        listing(code.drop_last()) + decimal(code.len() as nat) + ": "@ + instruction_text(
            code.last(),
        ) + "\n"@
    }
}

/// The temporaries that the code for expression `e` takes: one per operation.
pub open spec fn expr_temps(e: Node) -> nat
    decreases e,
{
    match e {
        Node::BinaryOp(_, l, r) => expr_temps(*l) + expr_temps(*r) + 1,
        _ => 0,
    }
}

/// The temporaries that the code for statement `st` takes.
pub open spec fn stmt_temps(st: Node) -> nat
    decreases st,
{
    match st {
        Node::Assignment(_, e) => expr_temps(*e),
        Node::Print(e) => expr_temps(*e),
        Node::If(c, th, el) => expr_temps(*c) + block_temps(th) + match el {
            Some(b) => block_temps(b),
            None => 0,
        },
        _ => 0,
    }
}

pub open spec fn block_temps(b: Seq<Node>) -> nat
    decreases b,
{
    if b.len() == 0 {
        0
    } else {
        stmt_temps(b[0]) + block_temps(b.drop_first())
    }
}

/// The labels that the code for statement `st` takes: two per `if`.
pub open spec fn stmt_labels(st: Node) -> nat
    decreases st,
{
    match st {
        Node::If(_, th, el) => 2 + block_labels(th) + match el {
            Some(b) => block_labels(b),
            None => 0,
        },
        _ => 0,
    }
}

pub open spec fn block_labels(b: Seq<Node>) -> nat
    decreases b,
{
    if b.len() == 0 {
        0
    } else {
        stmt_labels(b[0]) + block_labels(b.drop_first())
    }
}

pub proof fn lemma_gen_expression_counts(e: Node, s: GenState)
    ensures
        gen_expression(e, s).1.temps == s.temps + expr_temps(e),
        gen_expression(e, s).1.labels == s.labels,
    decreases e,
{
    if let Node::BinaryOp(op, l, r) = e {
        lemma_gen_expression_counts(*l, s);
        lemma_gen_expression_counts(*r, gen_expression(*l, s).1);
    }
}

pub proof fn lemma_gen_statement_counts(st: Node, s: GenState)
    ensures
        gen_statement(st, s).temps == s.temps + stmt_temps(st),
        gen_statement(st, s).labels == s.labels + stmt_labels(st),
    decreases st,
{
    match st {
        Node::Assignment(v, e) => lemma_gen_expression_counts(*e, s),
        Node::Print(e) => lemma_gen_expression_counts(*e, s),
        Node::If(c, th, el) => {
            lemma_gen_expression_counts(*c, s);
            lemma_gen_block_counts(th, if_then_state(*c, s));
            if let Some(b) = el {
                lemma_gen_block_counts(b, if_else_state(*c, th, true, s));
            }
        },
        _ => {},
    }
}

pub proof fn lemma_gen_block_counts(b: Seq<Node>, s: GenState)
    ensures
        gen_block(b, s).temps == s.temps + block_temps(b),
        gen_block(b, s).labels == s.labels + block_labels(b),
    decreases b,
{
    if b.len() > 0 {
        lemma_gen_statement_counts(b[0], s);
        lemma_gen_block_counts(b.drop_first(), gen_statement(b[0], s));
    }
}

/// The instructions that the code for statement `st` takes: one per
/// operation and one more for an assignment or a print; for an `if`, those
/// of its condition and branches, the `if_false`, the two labels and, with
/// an else-branch, the `goto`.
pub open spec fn stmt_insts(st: Node) -> nat
    decreases st,
{
    match st {
        Node::Assignment(_, e) => expr_temps(*e) + 1,
        Node::Print(e) => expr_temps(*e) + 1,
        Node::If(c, th, el) => expr_temps(*c) + 1 + block_insts(th) + match el {
            Some(b) => 1 + block_insts(b),
            None => 0,
        } + 2,
        _ => 0,
    }
}

pub open spec fn block_insts(b: Seq<Node>) -> nat
    decreases b,
{
    if b.len() == 0 {
        0
    } else {
        stmt_insts(b[0]) + block_insts(b.drop_first())
    }
}

/// The code of `s` stands unchanged at the start of the code of `t`.
pub open spec fn code_extends(s: GenState, t: GenState) -> bool {
    &&& s.code.len() <= t.code.len()
    &&& forall|i: int| 0 <= i < s.code.len() ==> #[trigger] t.code[i] == s.code[i]
}

/// Law: the code for an expression keeps the code before it and adds one
/// instruction per operation.
pub proof fn lemma_gen_expression_code(e: Node, s: GenState)
    ensures
        code_extends(s, gen_expression(e, s).1),
        gen_expression(e, s).1.code.len() == s.code.len() + expr_temps(e),
    decreases e,
{
    if let Node::BinaryOp(op, l, r) = e {
        lemma_gen_expression_code(*l, s);
        lemma_gen_expression_code(*r, gen_expression(*l, s).1);
    }
}

/// Law: the code for a statement keeps the code before it and adds
/// `stmt_insts` instructions.
pub proof fn lemma_gen_statement_code(st: Node, s: GenState)
    ensures
        code_extends(s, gen_statement(st, s)),
        gen_statement(st, s).code.len() == s.code.len() + stmt_insts(st),
    decreases st,
{
    match st {
        Node::Assignment(v, e) => lemma_gen_expression_code(*e, s),
        Node::Print(e) => lemma_gen_expression_code(*e, s),
        Node::If(c, th, el) => {
            lemma_gen_expression_code(*c, s);
            lemma_gen_block_code(th, if_then_state(*c, s));
            if let Some(b) = el {
                lemma_gen_block_code(b, if_else_state(*c, th, true, s));
            }
        },
        _ => {},
    }
}

/// Law: the code for statements keeps the code before it and adds
/// `block_insts` instructions.
pub proof fn lemma_gen_block_code(b: Seq<Node>, s: GenState)
    ensures
        code_extends(s, gen_block(b, s)),
        gen_block(b, s).code.len() == s.code.len() + block_insts(b),
    decreases b,
{
    if b.len() > 0 {
        lemma_gen_statement_code(b[0], s);
        lemma_gen_block_code(b.drop_first(), gen_statement(b[0], s));
    }
}

pub proof fn lemma_gen_expression_grows(e: Node, s: GenState)
    ensures
        gen_expression(e, s).1.temps >= s.temps,
        gen_expression(e, s).1.labels == s.labels,
    decreases e,
{
    if let Node::BinaryOp(op, l, r) = e {
        lemma_gen_expression_grows(*l, s);
        lemma_gen_expression_grows(*r, gen_expression(*l, s).1);
    }
}

pub proof fn lemma_gen_statement_grows(st: Node, s: GenState)
    ensures
        gen_statement(st, s).temps >= s.temps,
        gen_statement(st, s).labels >= s.labels,
    decreases st,
{
    match st {
        Node::Assignment(v, e) => lemma_gen_expression_grows(*e, s),
        Node::Print(e) => lemma_gen_expression_grows(*e, s),
        Node::If(c, th, el) => {
            lemma_gen_expression_grows(*c, s);
            lemma_gen_block_grows(th, if_then_state(*c, s));
            if let Some(b) = el {
                lemma_gen_block_grows(b, if_else_state(*c, th, true, s));
            }
        },
        _ => {},
    }
}

pub proof fn lemma_gen_block_grows(b: Seq<Node>, s: GenState)
    ensures
        gen_block(b, s).temps >= s.temps,
        gen_block(b, s).labels >= s.labels,
    decreases b,
{
    if b.len() > 0 {
        lemma_gen_statement_grows(b[0], s);
        lemma_gen_block_grows(b.drop_first(), gen_statement(b[0], s));
    }
}

pub open spec fn code_view(v: Seq<Instruction>) -> Seq<InstView> {
    v.map_values(|i: Instruction| i@)
}

fn make_inst(op: &str, arg1: String, arg2: String, result: String) -> (i: Instruction)
    ensures
        i@ == inst(op@, arg1@, arg2@, result@),
{
    Instruction { op: String::from_str(op), arg1, arg2, result }
}

/// The code generator: the instructions made so far and the counters that
/// name new temporaries and labels.
pub struct CodeGenerator {
    instructions: Vec<Instruction>,
    temp_counter: usize,
    label_counter: usize,
}

impl View for CodeGenerator {
    type V = GenState;

    closed spec fn view(&self) -> GenState {
        GenState {
            code: code_view(self.instructions@),
            temps: self.temp_counter as nat,
            labels: self.label_counter as nat,
        }
    }
}

impl CodeGenerator {
    pub fn new() -> (g: Self)
        ensures
            g@ == gen_start(),
    {
        let g = CodeGenerator { instructions: Vec::new(), temp_counter: 0, label_counter: 0 };
        assert(g@.code =~= Seq::<InstView>::empty());
        g
    }

    fn push(&mut self, i: Instruction)
        ensures
            final(self)@ == emit(old(self)@, i@),
    {
        self.instructions.push(i);
        assert(final(self)@.code =~= old(self)@.code.push(i@));
    }

    fn new_temp(&mut self) -> (t: String)
        requires
            old(self).temp_counter < usize::MAX,
        ensures
            t@ == temp_name(old(self)@.temps),
            final(self)@ == (GenState { temps: old(self)@.temps + 1, ..old(self)@ }),
    {
        let mut temp = String::from_str("t");
        push_decimal(&mut temp, self.temp_counter);
        self.temp_counter += 1;
        temp
    }

    fn new_label(&mut self) -> (l: String)
        requires
            old(self).label_counter < usize::MAX,
        ensures
            l@ == label_name(old(self)@.labels),
            final(self)@ == (GenState { labels: old(self)@.labels + 1, ..old(self)@ }),
    {
        let mut label = String::from_str("L");
        push_decimal(&mut label, self.label_counter);
        self.label_counter += 1;
        label
    }

    fn generate_expression(&mut self, node: &ASTNode) -> (r: String)
        requires
            gen_expression(node@, old(self)@).1.temps <= usize::MAX,
        ensures
            (r@, final(self)@) == gen_expression(node@, old(self)@),
        decreases node,
    {
        match node {
            ASTNode::Number(text) => text.clone(),
            ASTNode::Identifier(name) => name.clone(),
            ASTNode::BinaryOp { op, left, right } => {
                proof {
                    lemma_gen_expression_grows(right@, gen_expression(left@, self@).1);
                }
                let left_result = self.generate_expression(left);
                let right_result = self.generate_expression(right);
                let temp = self.new_temp();
                self.push(
                    Instruction {
                        op: op.clone(),
                        arg1: left_result,
                        arg2: right_result,
                        result: temp.clone(),
                    },
                );
                temp
            },
            _ => String::new(),
        }
    }

    fn generate_block(&mut self, block: &Vec<ASTNode>)
        requires
            gen_block(block_view(block@), old(self)@).temps <= usize::MAX,
            gen_block(block_view(block@), old(self)@).labels <= usize::MAX,
        ensures
            final(self)@ == gen_block(block_view(block@), old(self)@),
        decreases block,
    {
        let ghost b = block_view(block@);
        proof {
            lemma_block_view(block@);
            assert(b.skip(0) =~= b);
        }
        let mut i: usize = 0;
        while i < block.len()
            invariant
                i <= block@.len(),
                b == block_view(block@),
                b.len() == block@.len(),
                forall|j: int| 0 <= j < b.len() ==> (#[trigger] b[j]) == block@[j]@,
                gen_block(b, old(self)@) == gen_block(b.skip(i as int), self@),
                gen_block(b, old(self)@).temps <= usize::MAX,
                gen_block(b, old(self)@).labels <= usize::MAX,
            decreases block@.len() - i,
        {
            proof {
                assert(b.skip(i as int).drop_first() =~= b.skip(i + 1));
                assert(b.skip(i as int)[0] == b[i as int]);
                lemma_gen_block_grows(b.skip(i + 1), gen_statement(b[i as int], self@));
            }
            self.generate_statement(&block[i]);
            i += 1;
        }
        proof {
            assert(b.skip(i as int) =~= Seq::<Node>::empty());
        }
    }

    fn generate_statement(&mut self, node: &ASTNode)
        requires
            gen_statement(node@, old(self)@).temps <= usize::MAX,
            gen_statement(node@, old(self)@).labels <= usize::MAX,
        ensures
            final(self)@ == gen_statement(node@, old(self)@),
        decreases node,
    {
        proof {
            lemma_gen_statement_grows(node@, self@);
        }
        match node {
            ASTNode::Assignment { variable, expression } => {
                let expr_result = self.generate_expression(expression);
                self.push(make_inst("=", expr_result, String::new(), variable.clone()));
            },
            ASTNode::Print { expression } => {
                let expr_result = self.generate_expression(expression);
                self.push(make_inst("print", expr_result, String::new(), String::new()));
            },
            ASTNode::If { condition, then_block, else_block } => {
                let ghost s0 = self@;
                proof {
                    lemma_gen_expression_grows(condition@, s0);
                    let (a, s1) = gen_expression(condition@, s0);
                    let s2 = GenState { code: s1.code, temps: s1.temps, labels: s1.labels + 2 };
                    let s3 = emit(s2, inst("if_false"@, a, Seq::empty(), label_name(s1.labels)));
                    lemma_gen_block_grows(block_view(then_block@), s3);
                    let s4 = gen_block(block_view(then_block@), s3);
                    let s5 = if else_block is Some {
                        emit(s4, inst("goto"@, Seq::empty(), Seq::empty(), label_name(s1.labels + 1)))
                    } else {
                        s4
                    };
                    let s6 = emit(s5, inst("label"@, Seq::empty(), Seq::empty(), label_name(s1.labels)));
                    if let Some(b) = else_block {
                        lemma_gen_block_grows(block_view(b@), s6);
                    }
                }
                let cond_result = self.generate_expression(condition);
                let else_label = self.new_label();
                let end_label = self.new_label();
                self.push(make_inst("if_false", cond_result, String::new(), else_label.clone()));
                proof {
                    let s3 = self@;
                    lemma_gen_block_grows(block_view(then_block@), s3);
                    let s4 = gen_block(block_view(then_block@), s3);
                    let s5 = if else_block is Some {
                        emit(s4, inst("goto"@, Seq::empty(), Seq::empty(), end_label@))
                    } else {
                        s4
                    };
                    let s6 = emit(s5, inst("label"@, Seq::empty(), Seq::empty(), else_label@));
                    if let Some(b) = else_block {
                        lemma_gen_block_grows(block_view(b@), s6);
                    }
                }
                self.generate_block(then_block);
                if else_block.is_some() {
                    self.push(make_inst("goto", String::new(), String::new(), end_label.clone()));
                }
                self.push(make_inst("label", String::new(), String::new(), else_label));
                match else_block {
                    Some(else_stmts) => self.generate_block(else_stmts),
                    None => {},
                }
                self.push(make_inst("label", String::new(), String::new(), end_label));
            },
            _ => {},
        }
    }

    /// Generates the code for `statements`, starting afresh, and returns its
    /// numbered listing.
    pub fn generate(&mut self, statements: &[ASTNode]) -> (listing_text: String)
        requires
            block_temps(block_view(statements@)) <= usize::MAX,
            block_labels(block_view(statements@)) <= usize::MAX,
        ensures
            final(self)@ == gen_block(block_view(statements@), gen_start()),
            listing_text@ == listing(final(self)@.code),
    {
        proof {
            lemma_gen_block_counts(block_view(statements@), gen_start());
        }
        self.instructions.clear();
        self.temp_counter = 0;
        self.label_counter = 0;
        assert(self@.code =~= Seq::<InstView>::empty());
        let ghost b = block_view(statements@);
        proof {
            lemma_block_view(statements@);
            assert(b.skip(0) =~= b);
        }
        let mut i: usize = 0;
        while i < statements.len()
            invariant
                i <= statements@.len(),
                b == block_view(statements@),
                b.len() == statements@.len(),
                forall|j: int| 0 <= j < b.len() ==> (#[trigger] b[j]) == statements@[j]@,
                gen_block(b, gen_start()) == gen_block(b.skip(i as int), self@),
                gen_block(b, gen_start()).temps <= usize::MAX,
                gen_block(b, gen_start()).labels <= usize::MAX,
            decreases statements@.len() - i,
        {
            proof {
                assert(b.skip(i as int).drop_first() =~= b.skip(i + 1));
                assert(b.skip(i as int)[0] == b[i as int]);
                lemma_gen_block_grows(b.skip(i + 1), gen_statement(b[i as int], self@));
            }
            self.generate_statement(&statements[i]);
            i += 1;
        }
        proof {
            assert(b.skip(i as int) =~= Seq::<Node>::empty());
        }
        let mut output = String::new();
        let mut k: usize = 0;
        while k < self.instructions.len()
            invariant
                k <= self.instructions@.len(),
                output@ == listing(code_view(self.instructions@).take(k as int)),
            decreases self.instructions@.len() - k,
        {
            push_decimal(&mut output, k + 1);
            output.append(": ");
            let line = self.instructions[k].to_string();
            output.append(line.as_str());
            output.append("\n");
            proof {
                let c = code_view(self.instructions@);
                assert(c.take(k + 1).drop_last() =~= c.take(k as int));
            }
            k += 1;
        }
        proof {
            assert(code_view(self.instructions@).take(k as int) =~= code_view(self.instructions@));
        }
        output
    }
}

/// What an instruction does when the program runs.
#[derive(Debug, Clone, Copy, PartialEq, Eq, Structural)]
pub enum OpKind {
    /// `result = arg1`
    Copy,
    /// prints the value of `arg1`
    Print,
    /// `result = arg1 op arg2` for `+ - * /`
    Arithmetic,
    /// `result = arg1 op arg2` for `== != < > <= >=`, 1 when it holds and 0 when not
    Comparison,
    /// jumps to label `result` when `arg1` is zero
    IfFalse,
    /// jumps to label `result`
    Goto,
    /// marks a jump target
    Label,
    /// any other operation, which stops the program with an error
    Unknown,
}

pub open spec fn op_kind_of(op: Seq<char>) -> OpKind {
    if op == "="@ {
        OpKind::Copy
    } else if op == "print"@ {
        OpKind::Print
    } else if op == "+"@ || op == "-"@ || op == "*"@ || op == "/"@ {
        OpKind::Arithmetic
    } else if op == "=="@ || op == "!="@ || op == "<"@ || op == ">"@ || op == "<="@ || op == ">="@ {
        OpKind::Comparison
    } else if op == "if_false"@ {
        OpKind::IfFalse
    } else if op == "goto"@ {
        OpKind::Goto
    } else if op == "label"@ {
        OpKind::Label
    } else {
        OpKind::Unknown
    }
}

/// The kind of the operation `op`.
pub fn op_kind(op: &String) -> (k: OpKind)
    ensures
        k == op_kind_of(op@),
{
    if text_is(op, "=") {
        OpKind::Copy
    } else if text_is(op, "print") {
        OpKind::Print
    } else if text_is(op, "+") || text_is(op, "-") || text_is(op, "*") || text_is(op, "/") {
        OpKind::Arithmetic
    } else if text_is(op, "==") || text_is(op, "!=") || text_is(op, "<") || text_is(op, ">")
        || text_is(op, "<=") || text_is(op, ">=") {
        OpKind::Comparison
    } else if text_is(op, "if_false") {
        OpKind::IfFalse
    } else if text_is(op, "goto") {
        OpKind::Goto
    } else if text_is(op, "label") {
        OpKind::Label
    } else {
        OpKind::Unknown
    }
}

/// Where label `name` stands in `code`: the last `label` instruction that
/// names it, since a later one replaces an earlier one in the label table.
pub open spec fn label_target(code: Seq<InstView>, name: Seq<char>) -> Option<int>
    decreases code.len(),
{
    if code.len() == 0 {
        None
    } else if code.last().op == "label"@ && code.last().result == name {
        Some(code.len() - 1)
    } else {
        label_target(code.drop_last(), name)
    }
}

pub open spec fn label_missing_error(name: Seq<char>) -> Seq<char> {
    "Error: etiqueta '"@ + name + "' no encontrada"@
}

pub open spec fn unknown_op_error(op: Seq<char>) -> Seq<char> {
    "Error: operación desconocida '"@ + op + "'"@
}

/// Where the program goes after instruction `pc`: the next one, or a jump
/// target for `goto`, and for `if_false` when its operand was zero; an error
/// for a missing label or an unknown operation.
pub open spec fn next_pc_of(code: Seq<InstView>, pc: int, operand_is_zero: bool) -> Result<
    int,
    Seq<char>,
> {
    let i = code[pc];
    let k = op_kind_of(i.op);
    if k == OpKind::Unknown {
        Err(unknown_op_error(i.op))
    } else if k == OpKind::Goto || (k == OpKind::IfFalse && operand_is_zero) {
        match label_target(code, i.result) {
            Some(t) => Ok(t),
            None => Err(label_missing_error(i.result)),
        }
    } else {
        Ok(pc + 1)
    }
}

pub proof fn lemma_label_target(code: Seq<InstView>, name: Seq<char>)
    ensures
        match label_target(code, name) {
            Some(t) => 0 <= t < code.len() && code[t].op == "label"@ && code[t].result == name
                && forall|j: int| t < j < code.len() ==> !(#[trigger] code[j].op == "label"@
                    && code[j].result == name),
            None => forall|j: int| 0 <= j < code.len() ==> !(#[trigger] code[j].op == "label"@
                && code[j].result == name),
        },
    decreases code.len(),
{
    if code.len() > 0 {
        lemma_label_target(code.drop_last(), name);
        assert forall|j: int| 0 <= j < code.len() - 1 implies #[trigger] code[j] == code.drop_last()[j] by {}
    }
}

impl CodeGenerator {
    /// The instructions generated.
    pub fn instructions(&self) -> (r: &Vec<Instruction>)
        ensures
            code_view(r@) == self@.code,
    {
        &self.instructions
    }

    fn find_label(&self, name: &String) -> (r: Option<usize>)
        ensures
            match label_target(self@.code, name@) {
                Some(t) => r is Some && r.unwrap() == t,
                None => r is None,
            },
    {
        let ghost c = self@.code;
        let mut i: usize = self.instructions.len();
        assert(c.take(i as int) =~= c);
        while i > 0
            invariant
                i <= self.instructions@.len(),
                c == code_view(self.instructions@),
                label_target(c, name@) == label_target(c.take(i as int), name@),
            decreases i,
        {
            let ghost t = c.take(i as int);
            assert(t.last() == self.instructions@[i - 1]@);
            assert(t.drop_last() =~= c.take(i - 1));
            if text_is(&self.instructions[i - 1].op, "label") && self.instructions[i - 1].result
                == name.clone() {
                return Some(i - 1);
            }
            i -= 1;
        }
        proof {
            assert(c.take(0) =~= Seq::<InstView>::empty());
        }
        None
    }

    /// Where the program goes after instruction `pc`, given whether the
    /// operand of an `if_false` there was zero.
    pub fn next_pc(&self, pc: usize, operand_is_zero: bool) -> (r: Result<usize, String>)
        requires
            pc < self@.code.len(),
        ensures
            match r {
                Ok(n) => next_pc_of(self@.code, pc as int, operand_is_zero) == Ok::<int, Seq<char>>(n as int),
                Err(m) => next_pc_of(self@.code, pc as int, operand_is_zero) == Err::<int, Seq<char>>(m@),
            },
    {
        let inst = &self.instructions[pc];
        assert(self@.code[pc as int] == inst@);
        let k = op_kind(&inst.op);
        if k == OpKind::Unknown {
            let mut m = String::from_str("Error: operación desconocida '");
            m.append(inst.op.as_str());
            m.append("'");
            Err(m)
        } else if k == OpKind::Goto || (k == OpKind::IfFalse && operand_is_zero) {
            match self.find_label(&inst.result) {
                Some(t) => Ok(t),
                None => {
                    let mut m = String::from_str("Error: etiqueta '");
                    m.append(inst.result.as_str());
                    m.append("' no encontrada");
                    Err(m)
                },
            }
        } else {
            // `pc` lies below the length, so the next position fits.
            let next: usize = if pc < self.instructions.len() { pc + 1 } else { pc };
            Ok(next)
        }
    }
}

fn expr_temp_count(node: &ASTNode) -> (r: Option<usize>)
    ensures
        match r {
            Some(n) => n == expr_temps(node@),
            None => expr_temps(node@) > usize::MAX,
        },
    decreases node,
{
    match node {
        ASTNode::BinaryOp { op, left, right } => {
            let a: usize = expr_temp_count(left)?;
            let b: usize = expr_temp_count(right)?;
            let c: usize = a.checked_add(b)?;
            c.checked_add(1)
        },
        _ => Some(0),
    }
}

fn add_counts(a: (usize, usize), b: (usize, usize)) -> (r: Option<(usize, usize)>)
    ensures
        match r {
            Some((t, l)) => t == a.0 + b.0 && l == a.1 + b.1,
            None => a.0 + b.0 > usize::MAX || a.1 + b.1 > usize::MAX,
        },
{
    let t: usize = a.0.checked_add(b.0)?;
    let l: usize = a.1.checked_add(b.1)?;
    Some((t, l))
}

fn stmt_counts(node: &ASTNode) -> (r: Option<(usize, usize)>)
    ensures
        match r {
            Some((t, l)) => t == stmt_temps(node@) && l == stmt_labels(node@),
            None => stmt_temps(node@) > usize::MAX || stmt_labels(node@) > usize::MAX,
        },
    decreases node,
{
    match node {
        ASTNode::Assignment { variable, expression } => {
            let t: usize = expr_temp_count(expression)?;
            Some((t, 0))
        },
        ASTNode::Print { expression } => {
            let t: usize = expr_temp_count(expression)?;
            Some((t, 0))
        },
        ASTNode::If { condition, then_block, else_block } => {
            let c: usize = expr_temp_count(condition)?;
            let th = block_counts(then_block.as_slice())?;
            let el = match else_block {
                Some(b) => block_counts(b.as_slice())?,
                None => (0, 0),
            };
            let x = add_counts((c, 2), th)?;
            add_counts(x, el)
        },
        _ => Some((0, 0)),
    }
}

proof fn lemma_block_counts_suffix(b: Seq<Node>, k: int)
    requires
        0 <= k <= b.len(),
    ensures
        block_temps(b) >= block_temps(b.skip(k)),
        block_labels(b) >= block_labels(b.skip(k)),
    decreases k,
{
    if k > 0 {
        lemma_block_counts_suffix(b.drop_first(), k - 1);
        assert(b.drop_first().skip(k - 1) =~= b.skip(k));
    } else {
        assert(b.skip(0) =~= b);
    }
}

fn block_counts(block: &[ASTNode]) -> (r: Option<(usize, usize)>)
    ensures
        match r {
            Some((t, l)) => t == block_temps(block_view(block@)) && l == block_labels(block_view(block@)),
            None => block_temps(block_view(block@)) > usize::MAX || block_labels(block_view(block@))
                > usize::MAX,
        },
    decreases block@,
{
    let ghost b = block_view(block@);
    proof {
        lemma_block_view(block@);
    }
    let mut total: (usize, usize) = (0, 0);
    let mut i: usize = block.len();
    while i > 0
        invariant
            i <= block@.len(),
            b == block_view(block@),
            b.len() == block@.len(),
            forall|j: int| 0 <= j < b.len() ==> (#[trigger] b[j]) == block@[j]@,
            total.0 == block_temps(b.skip(i as int)),
            total.1 == block_labels(b.skip(i as int)),
        decreases i,
    {
        proof {
            assert(b.skip(i - 1).drop_first() =~= b.skip(i as int));
            assert(b.skip(i - 1)[0] == b[i - 1]);
        }
        proof {
            lemma_block_counts_suffix(b, i - 1);
        }
        let c = stmt_counts(&block[i - 1])?;
        total = add_counts(c, total)?;
        i -= 1;
    }
    proof {
        assert(b.skip(0) =~= b);
    }
    Some(total)
}

/// The numbers of temporaries and of labels that the code for `statements`
/// takes, when both fit in a `usize`.
pub fn code_size(statements: &[ASTNode]) -> (r: Option<(usize, usize)>)
    ensures
        match r {
            Some((t, l)) => t == block_temps(block_view(statements@)) && l == block_labels(
                block_view(statements@),
            ),
            None => block_temps(block_view(statements@)) > usize::MAX || block_labels(
                block_view(statements@),
            ) > usize::MAX,
        },
{
    block_counts(statements)
}

} // verus!
