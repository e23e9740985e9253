//! The syntax tree that the parser builds and the later stages read.
use vstd::prelude::*;
use crate::text::push_char;

verus! {

/// A node of the syntax tree. A number keeps the literal as it was written;
/// its value is read from that text where the program runs.
#[derive(Debug)]
pub enum ASTNode {
    Number(String),
    Identifier(String),
    BinaryOp { op: String, left: Box<ASTNode>, right: Box<ASTNode> },
    Assignment { variable: String, expression: Box<ASTNode> },
    Print { expression: Box<ASTNode> },
    If { condition: Box<ASTNode>, then_block: Vec<ASTNode>, else_block: Option<Vec<ASTNode>> },
}

/// The mathematical value of a syntax tree node.
pub enum Node {
    Number(Seq<char>),
    Identifier(Seq<char>),
    BinaryOp(Seq<char>, Box<Node>, Box<Node>),
    Assignment(Seq<char>, Box<Node>),
    Print(Box<Node>),
    If(Box<Node>, Seq<Node>, Option<Seq<Node>>),
}

pub open spec fn node_view(n: ASTNode) -> Node
    decreases n,
{
    match n {
        ASTNode::Number(t) => Node::Number(t@),
        ASTNode::Identifier(t) => Node::Identifier(t@),
        ASTNode::BinaryOp { op, left, right } => Node::BinaryOp(
            op@,
            Box::new(node_view(*left)),
            Box::new(node_view(*right)),
        ),
        ASTNode::Assignment { variable, expression } => Node::Assignment(
            variable@,
            Box::new(node_view(*expression)),
        ),
        ASTNode::Print { expression } => Node::Print(Box::new(node_view(*expression))),
        ASTNode::If { condition, then_block, else_block } => Node::If(
            Box::new(node_view(*condition)),
            block_view(then_block@),
            match else_block {
                Some(b) => Some(block_view(b@)),
                None => None,
            },
        ),
    }
}

/// The values of a sequence of nodes.
pub open spec fn block_view(s: Seq<ASTNode>) -> Seq<Node>
    decreases s,
{
    if s.len() == 0 {
        Seq::empty()
    } else {
        block_view(s.drop_last()).push(node_view(s.last()))
    }
}

impl View for ASTNode {
    type V = Node;

    open spec fn view(&self) -> Node {
        node_view(*self)
    }
}

pub proof fn lemma_block_view(s: Seq<ASTNode>)
    ensures
        block_view(s).len() == s.len(),
        forall|i: int| 0 <= i < s.len() ==> (#[trigger] block_view(s)[i]) == s[i]@,
    decreases s.len(),
{
    if s.len() > 0 {
        lemma_block_view(s.drop_last());
    }
}

pub proof fn lemma_block_view_concat(a: Seq<ASTNode>, b: Seq<ASTNode>)
    ensures
        block_view(a + b) == block_view(a) + block_view(b),
{
    lemma_block_view(a);
    lemma_block_view(b);
    lemma_block_view(a + b);
    assert(block_view(a + b) =~= block_view(a) + block_view(b));
}

pub open spec fn node_type_name(n: Node) -> Seq<char> {
    match n {
        Node::Number(_) => "Number"@,
        Node::Identifier(_) => "Identifier"@,
        Node::BinaryOp(..) => "BinaryOp"@,
        Node::Assignment(..) => "Assignment"@,
        Node::Print(_) => "Print"@,
        Node::If(..) => "If"@,
    }
}

/// `n` spaces.
pub open spec fn spaces(n: nat) -> Seq<char> {
    Seq::new(n, |i: int| ' ')
}

/// The indentation of every line of the tree of `n`, printed at `indent`,
/// fits in a `usize`.
pub open spec fn indent_fits(n: Node, indent: nat) -> bool
    decreases n,
{
    match n {
        Node::Number(_) => true,
        Node::Identifier(_) => true,
        Node::BinaryOp(_, l, r) => indent + 2 <= usize::MAX && indent_fits(*l, indent + 2)
            && indent_fits(*r, indent + 2),
        Node::Assignment(_, e) => indent + 2 <= usize::MAX && indent_fits(*e, indent + 2),
        Node::Print(e) => indent + 2 <= usize::MAX && indent_fits(*e, indent + 2),
        Node::If(c, th, el) => indent + 2 <= usize::MAX && indent_fits(*c, indent + 2)
            && block_indent_fits(th, indent + 2) && match el {
            Some(b) => block_indent_fits(b, indent + 2),
            None => true,
        },
    }
}

pub open spec fn block_indent_fits(b: Seq<Node>, indent: nat) -> bool
    decreases b,
{
    if b.len() == 0 {
        true
    } else {
        indent_fits(b[0], indent) && block_indent_fits(b.drop_first(), indent)
    }
}

/// The lines that printing the tree of `n` at `indent` shows: each node on a
/// line of its own, its children indented two more spaces.
pub open spec fn tree_text(n: Node, indent: nat) -> Seq<char>
    decreases n,
{
    let sp = spaces(indent);
    match n {
        Node::Number(v) => sp + "Number: "@ + v + "\n"@,
        Node::Identifier(x) => sp + "Identifier: "@ + x + "\n"@,
        Node::BinaryOp(op, l, r) => sp + "BinaryOp: "@ + op + "\n"@ + tree_text(*l, indent + 2)
            + tree_text(*r, indent + 2),
        Node::Assignment(v, e) => sp + "Assignment: "@ + v + "\n"@ + tree_text(*e, indent + 2),
        Node::Print(e) => sp + "Print:"@ + "\n"@ + tree_text(*e, indent + 2),
        Node::If(c, th, el) => sp + "If:"@ + "\n"@ + sp + "Condition:"@ + "\n"@ + tree_text(
            *c,
            indent + 2,
        ) + sp + "Then:"@ + "\n"@ + block_text(th, indent + 2) + match el {
            Some(b) => sp + "Else:"@ + "\n"@ + block_text(b, indent + 2),
            None => Seq::empty(),
        },
    }
}

/// The trees of the statements of `b`, one after another.
pub open spec fn block_text(b: Seq<Node>, indent: nat) -> Seq<char>
    decreases b,
{
    if b.len() == 0 {
        Seq::empty()
    } else {
        tree_text(b[0], indent) + block_text(b.drop_first(), indent)
    }
}

fn push_spaces(s: &mut String, n: usize)
    ensures
        final(s)@ == old(s)@ + spaces(n as nat),
{
    let mut k: usize = 0;
    while k < n
        invariant
            k <= n,
            s@ == old(s)@ + spaces(k as nat),
        decreases n - k,
    {
        push_char(s, ' ');
        k += 1;
        assert(s@ =~= old(s)@ + spaces(k as nat));
    }
}

impl ASTNode {
    /// The name of the node's kind.
    pub fn get_node_type(&self) -> (s: &'static str)
        ensures
            s@ == node_type_name(self@),
    {
        match self {
            ASTNode::Number(_) => "Number",
            ASTNode::Identifier(_) => "Identifier",
            ASTNode::BinaryOp { .. } => "BinaryOp",
            ASTNode::Assignment { .. } => "Assignment",
            ASTNode::Print { .. } => "Print",
            ASTNode::If { .. } => "If",
        }
    }

    fn write_tree(&self, out: &mut String, indent: usize)
        requires
            indent_fits(self@, indent as nat),
        ensures
            final(out)@ == old(out)@ + tree_text(self@, indent as nat),
        decreases self, 1int,
    {
        if let ASTNode::If { .. } = self {
            write_if(self, out, indent);
            return;
        }
        let ghost start = out@;
        let ghost sp = spaces(indent as nat);
        push_spaces(out, indent);
        match self {
            ASTNode::Number(val) => {
                out.append("Number: ");
                out.append(val.as_str());
                out.append("\n");
                assert(out@ =~= start + (sp + "Number: "@ + val@ + "\n"@));
            },
            ASTNode::Identifier(name) => {
                out.append("Identifier: ");
                out.append(name.as_str());
                out.append("\n");
                assert(out@ =~= start + (sp + "Identifier: "@ + name@ + "\n"@));
            },
            ASTNode::BinaryOp { op, left, right } => {
                out.append("BinaryOp: ");
                out.append(op.as_str());
                out.append("\n");
                let ghost head = sp + "BinaryOp: "@ + op@ + "\n"@;
                assert(out@ =~= start + head);
                left.write_tree(out, indent + 2);
                let ghost lt = tree_text(left@, indent as nat + 2);
                right.write_tree(out, indent + 2);
                let ghost rt = tree_text(right@, indent as nat + 2);
                assert(out@ =~= start + (head + lt + rt));
            },
            ASTNode::Assignment { variable, expression } => {
                out.append("Assignment: ");
                out.append(variable.as_str());
                out.append("\n");
                let ghost head = sp + "Assignment: "@ + variable@ + "\n"@;
                assert(out@ =~= start + head);
                expression.write_tree(out, indent + 2);
                assert(out@ =~= start + (head + tree_text(expression@, indent as nat + 2)));
            },
            ASTNode::Print { expression } => {
                out.append("Print:");
                out.append("\n");
                let ghost head = sp + "Print:"@ + "\n"@;
                assert(out@ =~= start + head);
                expression.write_tree(out, indent + 2);
                assert(out@ =~= start + (head + tree_text(expression@, indent as nat + 2)));
            },
            ASTNode::If { .. } => {},
        }
    }

    /// Whether every line of the tree printed at `indent` has an indentation
    /// that fits in a `usize`, as `print_tree` needs.
    pub fn indent_fits_from(&self, indent: usize) -> (r: bool)
        ensures
            r == indent_fits(self@, indent as nat),
        decreases self,
    {
        match self {
            ASTNode::Number(_) => true,
            ASTNode::Identifier(_) => true,
            _ => {
                if indent > usize::MAX - 2 {
                    return false;
                }
                match self {
                    ASTNode::BinaryOp { left, right, .. } => left.indent_fits_from(indent + 2)
                        && right.indent_fits_from(indent + 2),
                    ASTNode::Assignment { expression, .. } => expression.indent_fits_from(indent + 2),
                    ASTNode::Print { expression } => expression.indent_fits_from(indent + 2),
                    ASTNode::If { condition, then_block, else_block } => {
                        condition.indent_fits_from(indent + 2) && block_fits(then_block, indent + 2)
                            && match else_block {
                            Some(b) => block_fits(b, indent + 2),
                            None => true,
                        }
                    },
                    _ => true,
                }
            },
        }
    }

    /// The text that printing the tree of the node at `indent` shows; the
    /// indentation must fit in a `usize`, which `indent_fits_from` tells.
    pub fn print_tree(&self, indent: usize) -> (s: String)
        requires
            indent_fits(self@, indent as nat),
        ensures
            s@ == tree_text(self@, indent as nat),
    {
        let mut s = String::new();
        self.write_tree(&mut s, indent);
        assert(s@ =~= tree_text(self@, indent as nat));
        s
    }
}

fn write_if(node: &ASTNode, out: &mut String, indent: usize)
    requires
        node is If,
        indent_fits(node@, indent as nat),
    ensures
        final(out)@ == old(out)@ + tree_text(node@, indent as nat),
    decreases node, 0int,
{
    let ghost start = out@;
    let ghost sp = spaces(indent as nat);
    if let ASTNode::If { condition, then_block, else_block } = node {
        push_spaces(out, indent);
        out.append("If:");
        out.append("\n");
        push_spaces(out, indent);
        out.append("Condition:");
        out.append("\n");
        let ghost h1 = sp + "If:"@ + "\n"@ + sp + "Condition:"@ + "\n"@;
        assert(out@ =~= start + h1);
        condition.write_tree(out, indent + 2);
        let ghost ct = tree_text(condition@, indent as nat + 2);
        assert(out@ =~= start + (h1 + ct));
        push_spaces(out, indent);
        out.append("Then:");
        out.append("\n");
        let ghost h2 = sp + "Then:"@ + "\n"@;
        assert(out@ =~= start + (h1 + ct + h2));
        write_block(then_block, out, indent + 2);
        let ghost tt = block_text(block_view(then_block@), indent as nat + 2);
        assert(out@ =~= start + (h1 + ct + h2 + tt));
        let ghost mid = out@;
        match else_block {
            Some(else_stmts) => {
                push_spaces(out, indent);
                out.append("Else:");
                out.append("\n");
                let ghost h3 = sp + "Else:"@ + "\n"@;
                assert(out@ =~= mid + h3);
                write_block(else_stmts, out, indent + 2);
                let ghost et = block_text(block_view(else_stmts@), indent as nat + 2);
                assert(out@ =~= start + (h1 + ct + h2 + tt + (h3 + et)));
            },
            None => {
                assert(out@ =~= start + (h1 + ct + h2 + tt + Seq::<char>::empty()));
            },
        }
    }
}

fn block_fits(block: &Vec<ASTNode>, indent: usize) -> (r: bool)
    ensures
        r == block_indent_fits(block_view(block@), indent as nat),
    decreases block,
{
    let ghost b = block_view(block@);
    proof {
        lemma_block_view(block@);
        assert(b.skip(0) =~= b);
    }
    let mut i: usize = 0;
    while i < block.len()
        invariant
            i <= block@.len(),
            b == block_view(block@),
            b.len() == block@.len(),
            forall|j: int| 0 <= j < b.len() ==> (#[trigger] b[j]) == block@[j]@,
            block_indent_fits(b, indent as nat) == block_indent_fits(b.skip(i as int), indent as nat),
        decreases block@.len() - i,
    {
        proof {
            assert(b.skip(i as int).drop_first() =~= b.skip(i + 1));
            assert(b.skip(i as int)[0] == b[i as int]);
        }
        if !block[i].indent_fits_from(indent) {
            return false;
        }
        i += 1;
    }
    proof {
        assert(b.skip(i as int) =~= Seq::<Node>::empty());
    }
    true
}

fn write_block(block: &Vec<ASTNode>, out: &mut String, indent: usize)
    requires
        block_indent_fits(block_view(block@), indent as nat),
    ensures
        final(out)@ == old(out)@ + block_text(block_view(block@), indent as nat),
    decreases block, 1int,
{
    let ghost b = block_view(block@);
    proof {
        lemma_block_view(block@);
        assert(b.skip(0) =~= b);
    }
    let mut i: usize = 0;
    while i < block.len()
        invariant
            i <= block@.len(),
            b == block_view(block@),
            b.len() == block@.len(),
            forall|j: int| 0 <= j < b.len() ==> (#[trigger] b[j]) == block@[j]@,
            block_indent_fits(b.skip(i as int), indent as nat),
            old(out)@ + block_text(b, indent as nat) == out@ + block_text(b.skip(i as int), indent as nat),
        decreases block@.len() - i,
    {
        proof {
            assert(b.skip(i as int).drop_first() =~= b.skip(i + 1));
            assert(b.skip(i as int)[0] == b[i as int]);
        }
        let ghost before = out@;
        block[i].write_tree(out, indent);
        proof {
            let t = tree_text(b[i as int], indent as nat);
            let r = block_text(b.skip(i + 1), indent as nat);
            assert(before + (t + r) =~= (before + t) + r);
        }
        i += 1;
    }
    proof {
        assert(b.skip(i as int) =~= Seq::<Node>::empty());
        assert(out@ + Seq::<char>::empty() =~= out@);
    }
}

} // verus!
