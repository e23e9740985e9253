//! Semantic analysis: every variable is assigned before it is read, and
//! operators get operands of the types they need.
use vstd::prelude::*;
use crate::ast::{ASTNode, Node, block_view, lemma_block_view};
use crate::text::{text_is};

verus! {

/// The symbols held in `es` are pairwise distinct, and `m` maps each to its type.
pub open spec fn entries_model(es: Seq<(String, String)>, m: Map<Seq<char>, Seq<char>>) -> bool {
    &&& forall|i: int, j: int|
        0 <= i < j < es.len() ==> (#[trigger] es[i]).0@ != (#[trigger] es[j]).0@
    &&& forall|i: int|
        0 <= i < es.len() ==> m.contains_key((#[trigger] es[i]).0@) && m[es[i].0@] == es[i].1@
    &&& forall|k: Seq<char>| #[trigger]
        m.contains_key(k) ==> exists|i: int| 0 <= i < es.len() && (#[trigger] es[i]).0@ == k
}

/// The lines that listing the symbols shows: `  name : type` for each.
pub open spec fn symbols_text(es: Seq<(String, String)>) -> Seq<char>
    decreases es.len(),
{
    if es.len() == 0 {
        Seq::empty()
    } else {
        symbols_text(es.drop_last()) + "  "@ + es.last().0@ + " : "@ + es.last().1@ + "\n"@
    }
}

pub open spec fn undefined_error(name: Seq<char>) -> Seq<char> {
    "Error semántico: variable '"@ + name + "' no definida"@
}

/// The variables in scope with their types (`number` or `boolean`).
#[derive(Clone)]
pub struct SymbolTable {
    entries: Vec<(String, String)>,
    model: Ghost<Map<Seq<char>, Seq<char>>>,
}

impl View for SymbolTable {
    type V = Map<Seq<char>, Seq<char>>;

    closed spec fn view(&self) -> Map<Seq<char>, Seq<char>> {
        self.model@
    }
}

impl SymbolTable {
    /// The entries, in the order the symbols were first defined.
    pub closed spec fn symbols(&self) -> Seq<(String, String)> {
        self.entries@
    }

    pub closed spec fn wf(&self) -> bool {
        entries_model(self.entries@, self.model@)
    }

    pub fn new() -> (t: Self)
        ensures
            t.wf(),
            t@ == Map::<Seq<char>, Seq<char>>::empty(),
            t.symbols().len() == 0,
    {
        SymbolTable { entries: Vec::new(), model: Ghost(Map::empty()) }
    }

    fn find(&self, name: &str) -> (r: Option<usize>)
        requires
            self.wf(),
        ensures
            match r {
                Some(i) => i < self.entries@.len() && self.entries@[i as int].0@ == name@,
                None => !self@.contains_key(name@),
            },
    {
        let mut i: usize = 0;
        while i < self.entries.len()
            invariant
                self.wf(),
                i <= self.entries@.len(),
                forall|j: int| 0 <= j < i ==> (#[trigger] self.entries@[j]).0@ != name@,
            decreases self.entries@.len() - i,
        {
            if text_is(&self.entries[i].0, name) {
                return Some(i);
            }
            i += 1;
        }
        None
    }

    /// Gives `name` the type `symbol_type`, replacing any type it had.
    pub fn define(&mut self, name: String, symbol_type: String)
        requires
            old(self).wf(),
        ensures
            final(self).wf(),
            final(self)@ == old(self)@.insert(name@, symbol_type@),
            old(self)@.contains_key(name@) ==> exists|i: int|
                0 <= i < old(self).symbols().len() && (#[trigger] old(self).symbols()[i]).0@ == name@
                    && final(self).symbols() == old(self).symbols().update(i, (name, symbol_type)),
            !old(self)@.contains_key(name@) ==> final(self).symbols() == old(self).symbols().push(
                (name, symbol_type),
            ),
    {
        let ghost m = self.model@.insert(name@, symbol_type@);
        let ghost old_entries = self.entries@;
        let ghost pair = (name, symbol_type);
        match self.find(name.as_str()) {
            Some(i) => {
                self.entries.set(i, (name, symbol_type));
                self.model = Ghost(m);
                assert(self.entries@ == old_entries.update(i as int, pair));
                assert(old_entries[i as int].0@ == name@);
                assert(old(self).symbols()[i as int].0@ == name@);
                assert(self.symbols() == old(self).symbols().update(i as int, pair));
                assert forall|k: Seq<char>| #[trigger] m.contains_key(k) implies exists|j: int|
                    0 <= j < self.entries@.len() && (#[trigger] self.entries@[j]).0@ == k by {
                    if k != self.entries@[i as int].0@ {
                        let j: int = choose|j: int| 0 <= j < old_entries.len() && (#[trigger] old_entries[j]).0@ == k;
                        assert(self.entries@[j] == old_entries[j]);
                    }
                }
            },
            None => {
                self.entries.push((name, symbol_type));
                self.model = Ghost(m);
                assert forall|k: Seq<char>| #[trigger] m.contains_key(k) implies exists|j: int|
                    0 <= j < self.entries@.len() && (#[trigger] self.entries@[j]).0@ == k by {
                    if k != self.entries@.last().0@ {
                        let j: int = choose|j: int| 0 <= j < old_entries.len() && (#[trigger] old_entries[j]).0@ == k;
                        assert(self.entries@[j] == old_entries[j]);
                    } else {
                        assert(self.entries@[self.entries@.len() - 1].0@ == k);
                    }
                }
            },
        }
    }

    pub fn is_defined(&self, name: &str) -> (r: bool)
        requires
            self.wf(),
        ensures
            r == self@.contains_key(name@),
    {
        self.find(name).is_some()
    }

    pub fn get_type(&self, name: &str) -> (r: Result<String, String>)
        requires
            self.wf(),
        ensures
            match r {
                Ok(t) => self@.contains_key(name@) && t@ == self@[name@],
                Err(e) => !self@.contains_key(name@) && e@ == undefined_error(name@),
            },
    {
        match self.find(name) {
            Some(i) => Ok(self.entries[i].1.clone()),
            None => {
                let mut e = String::from_str("Error semántico: variable '");
                e.append(name);
                e.append("' no definida");
                Err(e)
            },
        }
    }

    /// The text that printing the table shows: `  name : type` on a line for
    /// each symbol.
    pub fn print(&self) -> (s: String)
        ensures
            s@ == symbols_text(self.symbols()),
    {
        let mut s = String::new();
        let mut i: usize = 0;
        while i < self.entries.len()
            invariant
                i <= self.entries@.len(),
                s@ == symbols_text(self.entries@.take(i as int)),
            decreases self.entries@.len() - i,
        {
            s.append("  ");
            s.append(self.entries[i].0.as_str());
            s.append(" : ");
            s.append(self.entries[i].1.as_str());
            s.append("\n");
            assert(self.entries@.take(i + 1).drop_last() =~= self.entries@.take(i as int));
            i += 1;
        }
        assert(self.entries@.take(i as int) =~= self.entries@);
        s
    }

    /// The entries: each symbol once, with its type.
    pub fn get_symbols(&self) -> (r: &Vec<(String, String)>)
        requires
            self.wf(),
        ensures
            r@ == self.symbols(),
            entries_model(r@, self@),
    {
        &self.entries
    }
}

pub open spec fn is_arithmetic_op(op: Seq<char>) -> bool {
    op == "+"@ || op == "-"@ || op == "*"@ || op == "/"@
}

pub open spec fn is_comparison_op(op: Seq<char>) -> bool {
    op == "=="@ || op == "!="@ || op == "<"@ || op == ">"@ || op == "<="@ || op == ">="@
}

/// The type of expression `e` under the symbol types `tab`, or the first error found.
pub open spec fn expr_type(tab: Map<Seq<char>, Seq<char>>, e: Node) -> Result<Seq<char>, Seq<char>>
    decreases e,
{
    match e {
        Node::Number(_) => Ok("number"@),
        Node::Identifier(name) => if tab.contains_key(name) {
            Ok(tab[name])
        } else {
            Err(undefined_error(name))
        },
        Node::BinaryOp(op, l, r) => match expr_type(tab, *l) {
            Err(m) => Err(m),
            Ok(lt) => match expr_type(tab, *r) {
                Err(m) => Err(m),
                Ok(rt) => if is_arithmetic_op(op) {
                    if lt != "number"@ || rt != "number"@ {
                        Err("Error semántico: operación aritmética requiere números"@)
                    } else {
                        Ok("number"@)
                    }
                } else if is_comparison_op(op) {
                    if lt != "number"@ || rt != "number"@ {
                        Err("Error semántico: comparación requiere números"@)
                    } else {
                        Ok("boolean"@)
                    }
                } else {
                    Err("Error semántico: operador desconocido '"@ + op + "'"@)
                },
            },
        },
        _ => Err("Error semántico: nodo desconocido en expresión"@),
    }
}

/// Checking statement `s` against the symbol types `tab`: the symbol types
/// afterwards (an assignment defines its variable) and the first error found.
pub open spec fn check_statement(tab: Map<Seq<char>, Seq<char>>, s: Node) -> (
    Map<Seq<char>, Seq<char>>,
    Result<(), Seq<char>>,
)
    decreases s,
{
    match s {
        Node::Assignment(v, e) => match expr_type(tab, *e) {
            Ok(t) => (tab.insert(v, t), Ok(())),
            Err(m) => (tab, Err(m)),
        },
        Node::Print(e) => match expr_type(tab, *e) {
            Ok(_) => (tab, Ok(())),
            Err(m) => (tab, Err(m)),
        },
        Node::If(c, th, el) => match expr_type(tab, *c) {
            Err(m) => (tab, Err(m)),
            Ok(t) => if t != "boolean"@ {
                (tab, Err("Error semántico: la condición del if debe ser booleana"@))
            } else {
                let (t1, r1) = check_block(tab, th);
                if r1 is Err {
                    (t1, r1)
                } else {
                    match el {
                        Some(b) => check_block(t1, b),
                        None => (t1, Ok(())),
                    }
                }
            },
        },
        _ => (tab, Err("Error semántico: tipo de statement desconocido"@)),
    }
}

/// Checking statements in order, stopping at the first error.
pub open spec fn check_block(tab: Map<Seq<char>, Seq<char>>, b: Seq<Node>) -> (
    Map<Seq<char>, Seq<char>>,
    Result<(), Seq<char>>,
)
    decreases b,
{
    if b.len() == 0 {
        (tab, Ok(()))
    } else {
        let (t1, r1) = check_statement(tab, b[0]);
        if r1 is Err {
            (t1, r1)
        } else {
            check_block(t1, b.drop_first())
        }
    }
}

pub open spec fn string_outcome(r: Result<String, String>) -> Result<Seq<char>, Seq<char>> {
    match r {
        Ok(s) => Ok(s@),
        Err(m) => Err(m@),
    }
}

pub open spec fn unit_outcome(r: Result<(), String>) -> Result<(), Seq<char>> {
    match r {
        Ok(()) => Ok(()),
        Err(m) => Err(m@),
    }
}

/// The analyzer: the symbol table that the statements read so far have built.
pub struct SemanticAnalyzer {
    symbol_table: SymbolTable,
}

impl View for SemanticAnalyzer {
    type V = Map<Seq<char>, Seq<char>>;

    closed spec fn view(&self) -> Map<Seq<char>, Seq<char>> {
        self.symbol_table@
    }
}

impl SemanticAnalyzer {
    pub closed spec fn wf(&self) -> bool {
        self.symbol_table.wf()
    }

    /// The symbol table's entries.
    pub closed spec fn symbols(&self) -> Seq<(String, String)> {
        self.symbol_table.symbols()
    }

    pub fn new() -> (a: Self)
        ensures
            a.wf(),
            a@ == Map::<Seq<char>, Seq<char>>::empty(),
            a.symbols().len() == 0,
    {
        SemanticAnalyzer { symbol_table: SymbolTable::new() }
    }

    fn analyze_expression(&self, node: &ASTNode) -> (r: Result<String, String>)
        requires
            self.wf(),
        ensures
            string_outcome(r) == expr_type(self@, node@),
        decreases node,
    {
        match node {
            ASTNode::Number(_) => Ok(String::from_str("number")),
            ASTNode::Identifier(name) => {
                if !self.symbol_table.is_defined(name.as_str()) {
                    let mut e = String::from_str("Error semántico: variable '");
                    e.append(name.as_str());
                    e.append("' no definida");
                    return Err(e);
                }
                self.symbol_table.get_type(name.as_str())
            },
            ASTNode::BinaryOp { op, left, right } => {
                let left_type = match self.analyze_expression(left) {
                    Ok(t) => t,
                    Err(e) => return Err(e),
                };
                let right_type = match self.analyze_expression(right) {
                    Ok(t) => t,
                    Err(e) => return Err(e),
                };
                if text_is(op, "+") || text_is(op, "-") || text_is(op, "*") || text_is(op, "/") {
                    if !text_is(&left_type, "number") || !text_is(&right_type, "number") {
                        return Err(
                            String::from_str("Error semántico: operación aritmética requiere números"),
                        );
                    }
                    return Ok(String::from_str("number"));
                }
                if text_is(op, "==") || text_is(op, "!=") || text_is(op, "<") || text_is(op, ">")
                    || text_is(op, "<=") || text_is(op, ">=") {
                    if !text_is(&left_type, "number") || !text_is(&right_type, "number") {
                        return Err(String::from_str("Error semántico: comparación requiere números"));
                    }
                    return Ok(String::from_str("boolean"));
                }
                let mut e = String::from_str("Error semántico: operador desconocido '");
                e.append(op.as_str());
                e.append("'");
                Err(e)
            },
            _ => Err(String::from_str("Error semántico: nodo desconocido en expresión")),
        }
    }

    fn analyze_block(&mut self, block: &Vec<ASTNode>) -> (r: Result<(), String>)
        requires
            old(self).wf(),
        ensures
            final(self).wf(),
            (final(self)@, unit_outcome(r)) == check_block(old(self)@, block_view(block@)),
        decreases block,
    {
        let ghost b = block_view(block@);
        proof {
            lemma_block_view(block@);
            assert(b.skip(0) =~= b);
        }
        let mut i: usize = 0;
        while i < block.len()
            invariant
                self.wf(),
                i <= block@.len(),
                b == block_view(block@),
                b.len() == block@.len(),
                forall|j: int| 0 <= j < b.len() ==> (#[trigger] b[j]) == block@[j]@,
                check_block(old(self)@, b) == check_block(self@, b.skip(i as int)),
            decreases block@.len() - i,
        {
            proof {
                assert(b.skip(i as int).drop_first() =~= b.skip(i + 1));
                assert(b.skip(i as int)[0] == b[i as int]);
            }
            match self.analyze_statement(&block[i]) {
                Ok(()) => {},
                Err(e) => return Err(e),
            }
            i += 1;
        }
        Ok(())
    }

    fn analyze_statement(&mut self, node: &ASTNode) -> (r: Result<(), String>)
        requires
            old(self).wf(),
        ensures
            final(self).wf(),
            (final(self)@, unit_outcome(r)) == check_statement(old(self)@, node@),
        decreases node,
    {
        match node {
            ASTNode::Assignment { variable, expression } => {
                let expr_type = match self.analyze_expression(expression) {
                    Ok(t) => t,
                    Err(e) => return Err(e),
                };
                self.symbol_table.define(variable.clone(), expr_type);
                Ok(())
            },
            ASTNode::Print { expression } => {
                match self.analyze_expression(expression) {
                    Ok(_) => Ok(()),
                    Err(e) => Err(e),
                }
            },
            ASTNode::If { condition, then_block, else_block } => {
                let cond_type = match self.analyze_expression(condition) {
                    Ok(t) => t,
                    Err(e) => return Err(e),
                };
                if !text_is(&cond_type, "boolean") {
                    return Err(
                        String::from_str("Error semántico: la condición del if debe ser booleana"),
                    );
                }
                match self.analyze_block(then_block) {
                    Ok(()) => {},
                    Err(e) => return Err(e),
                }
                match else_block {
                    Some(else_stmts) => self.analyze_block(else_stmts),
                    None => Ok(()),
                }
            },
            _ => Err(String::from_str("Error semántico: tipo de statement desconocido")),
        }
    }

    /// Checks the statements in order against the symbol table, which keeps
    /// the definitions made before the first error.
    pub fn analyze(&mut self, statements: &[ASTNode]) -> (r: Result<(), String>)
        requires
            old(self).wf(),
        ensures
            final(self).wf(),
            (final(self)@, unit_outcome(r)) == check_block(old(self)@, block_view(statements@)),
    {
        let ghost b = block_view(statements@);
        proof {
            lemma_block_view(statements@);
            assert(b.skip(0) =~= b);
        }
        let mut i: usize = 0;
        while i < statements.len()
            invariant
                self.wf(),
                i <= statements@.len(),
                b == block_view(statements@),
                b.len() == statements@.len(),
                forall|j: int| 0 <= j < b.len() ==> (#[trigger] b[j]) == statements@[j]@,
                check_block(old(self)@, b) == check_block(self@, b.skip(i as int)),
            decreases statements@.len() - i,
        {
            proof {
                assert(b.skip(i as int).drop_first() =~= b.skip(i + 1));
                assert(b.skip(i as int)[0] == b[i as int]);
            }
            match self.analyze_statement(&statements[i]) {
                Ok(()) => {},
                Err(e) => return Err(e),
            }
            i += 1;
        }
        proof {
            assert(b.skip(i as int) =~= Seq::<Node>::empty());
        }
        Ok(())
    }

    /// The text that printing the symbol table shows: each symbol once, with
    /// its type.
    pub fn print_symbol_table(&self) -> (s: String)
        requires
            self.wf(),
        ensures
            s@ == symbols_text(self.symbols()),
            entries_model(self.symbols(), self@),
    {
        self.symbol_table.print()
    }

    pub fn get_symbol_table(&self) -> (t: &SymbolTable)
        requires
            self.wf(),
        ensures
            t.wf(),
            t@ == self@,
            t.symbols() == self.symbols(),
    {
        &self.symbol_table
    }
}

/// Law: after `define(name, t)` the name is defined with type `t`, and every
/// other name is defined as before, with the type it had.
pub proof fn lemma_define_then_lookup(
    before: SymbolTable,
    after: SymbolTable,
    name: Seq<char>,
    t: Seq<char>,
    other: Seq<char>,
)
    requires
        after@ == before@.insert(name, t),
        other != name,
    ensures
        after@.contains_key(name),
        after@[name] == t,
        after@.contains_key(other) == before@.contains_key(other),
        before@.contains_key(other) ==> after@[other] == before@[other],
{
}

/// The variables that statement `s` assigns, in either branch of an `if`
/// and at any depth.
pub open spec fn stmt_assigns(s: Node) -> Set<Seq<char>>
    decreases s,
{
    match s {
        Node::Assignment(v, _) => set![v],
        Node::If(_, th, el) => block_assigns(th) + match el {
            Some(b) => block_assigns(b),
            None => Set::empty(),
        },
        _ => Set::empty(),
    }
}

pub open spec fn block_assigns(b: Seq<Node>) -> Set<Seq<char>>
    decreases b,
{
    if b.len() == 0 {
        Set::empty()
    } else {
        stmt_assigns(b[0]) + block_assigns(b.drop_first())
    }
}

/// Law: a statement that passes the checks defines exactly the variables it
/// assigns, whichever branch would run, besides those defined before.
pub proof fn lemma_check_statement_defines(tab: Map<Seq<char>, Seq<char>>, s: Node)
    ensures
        check_statement(tab, s).1 is Ok ==> check_statement(tab, s).0.dom() == tab.dom()
            + stmt_assigns(s),
    decreases s,
{
    match s {
        Node::Assignment(v, e) => {
            assert(tab.insert(v, expr_type(tab, *e)->Ok_0).dom() =~= tab.dom() + set![v]);
        },
        Node::If(c, th, el) => {
            lemma_check_block_defines(tab, th);
            let t1 = check_block(tab, th).0;
            match el {
                Some(b) => {
                    lemma_check_block_defines(t1, b);
                    assert(tab.dom() + (block_assigns(th) + block_assigns(b)) =~= tab.dom()
                        + block_assigns(th) + block_assigns(b));
                },
                None => {
                    assert(tab.dom() + (block_assigns(th) + Set::empty()) =~= tab.dom()
                        + block_assigns(th));
                },
            }
        },
        _ => {
            assert(tab.dom() + Set::empty() =~= tab.dom());
        },
    }
}

/// Law: statements that pass the checks define exactly the variables they
/// assign, at any depth, besides those defined before.
pub proof fn lemma_check_block_defines(tab: Map<Seq<char>, Seq<char>>, b: Seq<Node>)
    ensures
        check_block(tab, b).1 is Ok ==> check_block(tab, b).0.dom() == tab.dom() + block_assigns(b),
    decreases b,
{
    if b.len() == 0 {
        assert(tab.dom() + Set::empty() =~= tab.dom());
    } else {
        lemma_check_statement_defines(tab, b[0]);
        let t1 = check_statement(tab, b[0]).0;
        lemma_check_block_defines(t1, b.drop_first());
        assert(tab.dom() + (stmt_assigns(b[0]) + block_assigns(b.drop_first())) =~= tab.dom()
            + stmt_assigns(b[0]) + block_assigns(b.drop_first()));
    }
}

/// Every symbol has the type `number` or `boolean`.
pub open spec fn types_known(tab: Map<Seq<char>, Seq<char>>) -> bool {
    forall|k: Seq<char>| #[trigger] tab.contains_key(k) ==> tab[k] == "number"@ || tab[k] == "boolean"@
}

/// Every variable that `e` reads is in `tab`.
pub open spec fn reads_defined(tab: Map<Seq<char>, Seq<char>>, e: Node) -> bool
    decreases e,
{
    match e {
        Node::Identifier(x) => tab.contains_key(x),
        Node::BinaryOp(_, l, r) => reads_defined(tab, *l) && reads_defined(tab, *r),
        _ => true,
    }
}

/// Law: an expression that type-checks reads only defined variables, and its
/// type is `number` or `boolean` when every symbol's is.
pub proof fn lemma_expr_type_sound(tab: Map<Seq<char>, Seq<char>>, e: Node)
    ensures
        expr_type(tab, e) is Ok ==> reads_defined(tab, e),
        types_known(tab) && expr_type(tab, e) is Ok ==> (expr_type(tab, e)->Ok_0 == "number"@
            || expr_type(tab, e)->Ok_0 == "boolean"@),
    decreases e,
{
    if let Node::BinaryOp(op, l, r) = e {
        lemma_expr_type_sound(tab, *l);
        lemma_expr_type_sound(tab, *r);
    }
}

/// A comparison, or a variable whose type in `tab` is `boolean`.
pub open spec fn is_boolean_expr(tab: Map<Seq<char>, Seq<char>>, e: Node) -> bool {
    match e {
        Node::BinaryOp(op, _, _) => is_comparison_op(op),
        Node::Identifier(name) => tab[name] == "boolean"@,
        _ => false,
    }
}

/// Both operands of every operation in `e` have the type `number`.
pub open spec fn operands_numeric(tab: Map<Seq<char>, Seq<char>>, e: Node) -> bool
    decreases e,
{
    match e {
        Node::BinaryOp(_, l, r) => {
            &&& expr_type(tab, *l) == Ok::<Seq<char>, Seq<char>>("number"@)
            &&& expr_type(tab, *r) == Ok::<Seq<char>, Seq<char>>("number"@)
            &&& operands_numeric(tab, *l)
            &&& operands_numeric(tab, *r)
        },
        _ => true,
    }
}

proof fn lemma_operator_classes_disjoint(op: Seq<char>)
    ensures
        !(is_arithmetic_op(op) && is_comparison_op(op)),
{
    reveal_strlit("+");
    reveal_strlit("-");
    reveal_strlit("*");
    reveal_strlit("/");
    reveal_strlit("==");
    reveal_strlit("!=");
    reveal_strlit("<");
    reveal_strlit(">");
    reveal_strlit("<=");
    reveal_strlit(">=");
    if is_arithmetic_op(op) {
        assert(op.len() == 1);
        assert(op[0] == '+' || op[0] == '-' || op[0] == '*' || op[0] == '/');
    }
}

/// Law: where every symbol's type is `number` or `boolean`, an expression
/// that checks has the type `boolean` exactly when it is a comparison or a
/// variable of type `boolean`, and the type `number` otherwise; and both
/// operands of every operation in it have the type `number`.
pub proof fn lemma_expr_type_result(tab: Map<Seq<char>, Seq<char>>, e: Node)
    requires
        types_known(tab),
    ensures
        expr_type(tab, e) matches Ok(t) ==> {
            &&& t == if is_boolean_expr(tab, e) {
                "boolean"@
            } else {
                "number"@
            }
            &&& operands_numeric(tab, e)
        },
    decreases e,
{
    reveal_strlit("number");
    reveal_strlit("boolean");
    if let Node::BinaryOp(op, l, r) = e {
        lemma_expr_type_result(tab, *l);
        lemma_expr_type_result(tab, *r);
        lemma_operator_classes_disjoint(op);
    }
}

/// An expression of numbers, variables of type `number` in `tab`, and the
/// four arithmetic operators `+ - * /`.
pub open spec fn numeric_expr(tab: Map<Seq<char>, Seq<char>>, e: Node) -> bool
    decreases e,
{
    match e {
        Node::Number(_) => true,
        Node::Identifier(name) => tab.contains_key(name) && tab[name] == "number"@,
        Node::BinaryOp(op, l, r) => (op == "+"@ || op == "-"@ || op == "*"@ || op == "/"@)
            && numeric_expr(tab, *l) && numeric_expr(tab, *r),
        _ => false,
    }
}

/// Law: the checks accept every operation whose operands are numbers: one of
/// `+ - * /` gives a number, one of `== != < > <= >=` a boolean.
pub proof fn lemma_numeric_operands_accepted(
    tab: Map<Seq<char>, Seq<char>>,
    op: Seq<char>,
    l: Node,
    r: Node,
)
    requires
        expr_type(tab, l) == Ok::<Seq<char>, Seq<char>>("number"@),
        expr_type(tab, r) == Ok::<Seq<char>, Seq<char>>("number"@),
    ensures
        (op == "+"@ || op == "-"@ || op == "*"@ || op == "/"@) ==> expr_type(
            tab,
            Node::BinaryOp(op, Box::new(l), Box::new(r)),
        ) == Ok::<Seq<char>, Seq<char>>("number"@),
        (op == "=="@ || op == "!="@ || op == "<"@ || op == ">"@ || op == "<="@ || op == ">="@)
            ==> expr_type(tab, Node::BinaryOp(op, Box::new(l), Box::new(r))) == Ok::<
            Seq<char>,
            Seq<char>,
        >("boolean"@),
{
    lemma_operator_classes_disjoint(op);
}

/// Law: every expression of numbers, numeric variables and `+ - * /` has the
/// type `number`.
pub proof fn lemma_numeric_expr_accepted(tab: Map<Seq<char>, Seq<char>>, e: Node)
    requires
        numeric_expr(tab, e),
    ensures
        expr_type(tab, e) == Ok::<Seq<char>, Seq<char>>("number"@),
    decreases e,
{
    if let Node::BinaryOp(op, l, r) = e {
        lemma_numeric_expr_accepted(tab, *l);
        lemma_numeric_expr_accepted(tab, *r);
        lemma_numeric_operands_accepted(tab, op, *l, *r);
    }
}

/// Law: a comparison of two expressions of numbers, numeric variables and
/// `+ - * /` has the type `boolean`.
pub proof fn lemma_numeric_comparison_accepted(
    tab: Map<Seq<char>, Seq<char>>,
    op: Seq<char>,
    l: Node,
    r: Node,
)
    requires
        numeric_expr(tab, l),
        numeric_expr(tab, r),
        op == "=="@ || op == "!="@ || op == "<"@ || op == ">"@ || op == "<="@ || op == ">="@,
    ensures
        expr_type(tab, Node::BinaryOp(op, Box::new(l), Box::new(r))) == Ok::<Seq<char>, Seq<char>>(
            "boolean"@,
        ),
{
    lemma_numeric_expr_accepted(tab, l);
    lemma_numeric_expr_accepted(tab, r);
    lemma_numeric_operands_accepted(tab, op, l, r);
}

/// Law: what checking one statement does. An assignment that checks gives
/// its variable the type of its expression and leaves every other symbol as
/// it was; a print checks its expression and changes no symbol; an if checks
/// only when its condition has the type `boolean`; an expression that fails
/// makes the statement fail with the same message and change nothing.
pub proof fn lemma_check_statement_effect(tab: Map<Seq<char>, Seq<char>>, s: Node)
    ensures
        s matches Node::Assignment(v, e) ==> match expr_type(tab, *e) {
            Ok(t) => check_statement(tab, s).1 is Ok && check_statement(tab, s).0.contains_key(v)
                && check_statement(tab, s).0[v] == t && forall|k: Seq<char>|
                k != v ==> (#[trigger] check_statement(tab, s).0.contains_key(k)
                    == tab.contains_key(k) && (tab.contains_key(k)
                    ==> check_statement(tab, s).0[k] == tab[k])),
            Err(m) => check_statement(tab, s) == (tab, Err::<(), Seq<char>>(m)),
        },
        s matches Node::Print(e) ==> check_statement(tab, s).0 == tab && (check_statement(tab, s).1
            is Ok <==> expr_type(tab, *e) is Ok),
        s matches Node::If(c, _, _) ==> (check_statement(tab, s).1 is Ok ==> expr_type(tab, *c)
            == Ok::<Seq<char>, Seq<char>>("boolean"@)),
        s matches Node::If(c, _, _) ==> (expr_type(tab, *c) is Ok && expr_type(tab, *c)
            != Ok::<Seq<char>, Seq<char>>("boolean"@) ==> check_statement(tab, s) == (
            tab,
            Err::<(), Seq<char>>("Error semántico: la condición del if debe ser booleana"@),
        )),
{
    if let Node::If(c, th, el) = s {
        if let Ok(t) = expr_type(tab, *c) {
            if t == "boolean"@ {
                lemma_check_block_defines(tab, th);
            }
        }
    }
}

/// Law: an expression that reads a variable not in `tab` fails the checks.
pub proof fn lemma_undefined_read_fails(tab: Map<Seq<char>, Seq<char>>, e: Node)
    requires
        !reads_defined(tab, e),
    ensures
        expr_type(tab, e) is Err,
{
    lemma_expr_type_sound(tab, e);
}

/// Law: checking a statement keeps every symbol's type `number` or `boolean`.
pub proof fn lemma_check_statement_types(tab: Map<Seq<char>, Seq<char>>, s: Node)
    requires
        types_known(tab),
    ensures
        types_known(check_statement(tab, s).0),
    decreases s,
{
    match s {
        Node::Assignment(v, e) => {
            lemma_expr_type_sound(tab, *e);
            if let Ok(t) = expr_type(tab, *e) {
                let m = tab.insert(v, t);
                assert forall|k: Seq<char>| #[trigger] m.contains_key(k) implies m[k] == "number"@
                    || m[k] == "boolean"@ by {
                    if k != v {
                        assert(tab.contains_key(k));
                    }
                }
            }
        },
        Node::If(c, th, el) => {
            lemma_check_block_types(tab, th);
            if let Some(b) = el {
                lemma_check_block_types(check_block(tab, th).0, b);
            }
        },
        _ => {},
    }
}

/// Law: checking statements keeps every symbol's type `number` or `boolean`.
pub proof fn lemma_check_block_types(tab: Map<Seq<char>, Seq<char>>, b: Seq<Node>)
    requires
        types_known(tab),
    ensures
        types_known(check_block(tab, b).0),
    decreases b,
{
    if b.len() > 0 {
        lemma_check_statement_types(tab, b[0]);
        lemma_check_block_types(check_statement(tab, b[0]).0, b.drop_first());
    }
}

} // verus!
