//! The parser: a recursive-descent reader of the token sequence.
//!
//! ```text
//! statement  ::= IDENTIFIER '=' expression ';' | 'print' '(' expression ')' ';'
//!              | 'if' '(' expression ')' block ('else' block)?
//! block      ::= '{' statement* '}'
//! expression ::= arithmetic (('==' | '!=' | '<' | '>' | '<=' | '>=') arithmetic)?
//! arithmetic ::= term (('+' | '-') term)*
//! term       ::= factor (('*' | '/') factor)*
//! factor     ::= NUMBER | IDENTIFIER | '(' expression ')'
//! ```
use vstd::prelude::*;
use crate::ast::{ASTNode, Node, block_view};
use crate::lexer::{
    Token, TokenType, TokenView, lemma_lex_ends_with_eof, lemma_lex_token_texts, lex_from,
    symbol_text, text_fits_kind, tokens_view,
};
use crate::semantic::{is_arithmetic_op, is_comparison_op};
use crate::literal::{is_float_literal, is_float_literal_text};
use crate::text::{decimal, push_decimal};

verus! {

/// The token at `pos`; past the end, the last token.
pub open spec fn tok_at(ts: Seq<TokenView>, pos: int) -> TokenView {
    if pos >= ts.len() {
        ts[ts.len() - 1]
    } else {
        ts[pos]
    }
}

/// The position after `pos`; the last position is never left.
pub open spec fn next_pos(ts: Seq<TokenView>, pos: int) -> int {
    if pos < ts.len() - 1 {
        pos + 1
    } else {
        pos
    }
}

/// Some end-of-input token stands at or after `pos`.
pub open spec fn eof_ahead(ts: Seq<TokenView>, pos: int) -> bool {
    exists|e: int| pos <= e < ts.len() && #[trigger] ts[e].kind == TokenType::Eof
}

pub open spec fn syntax_error(message: Seq<char>, line: nat) -> Seq<char> {
    "Error sintaxis: "@ + message + " en línea "@ + decimal(line)
}

pub open spec fn syntax_error_line(line: nat) -> Seq<char> {
    "Error sintaxis en línea "@ + decimal(line)
}

pub open spec fn number_error(text: Seq<char>) -> Seq<char> {
    "Error: no se pudo parsear número '"@ + text + "'"@
}

/// Reading a token of kind `k` at `pos`: the next position, or the error
/// `message` with the line of the token found, at `pos`.
pub open spec fn expect_at(ts: Seq<TokenView>, pos: int, k: TokenType, message: Seq<char>) -> Result<
    int,
    (Seq<char>, int),
> {
    if tok_at(ts, pos).kind != k {
        Err((syntax_error(message, tok_at(ts, pos).line), pos))
    } else {
        Ok(next_pos(ts, pos))
    }
}

pub open spec fn is_comparison(k: TokenType) -> bool {
    k == TokenType::Equal || k == TokenType::NotEqual || k == TokenType::Less || k
        == TokenType::Greater || k == TokenType::LessEqual || k == TokenType::GreaterEqual
}

// In the definitions below, a branch that gives the empty message is taken
// only if a position fails to move forward. One of them can be taken: a '('
// read as a factor at the last position, where the reader cannot move on and
// reads the same '(' again without end. The branches marked "unreachable"
// cannot be taken, since every step that succeeds past an operator or keyword
// moves forward. No other outcome carries the empty message (see `parse_ends`).

/// The parse ran to an end: an error it reports carries a message.
pub open spec fn parse_ends<T>(r: Result<(T, int), (Seq<char>, int)>) -> bool {
    match r {
        Ok(_) => true,
        Err((m, _)) => m.len() > 0,
    }
}

/// `factor ::= NUMBER | IDENTIFIER | '(' expression ')'`, read at `pos`:
/// the node and the position after it, or the message and position of the error.
pub open spec fn parse_factor(ts: Seq<TokenView>, pos: int) -> Result<(Node, int), (Seq<char>, int)>
    decreases ts.len() - pos, 0int,
{
    let t = tok_at(ts, pos);
    let p1: int = next_pos(ts, pos);
    if t.kind == TokenType::Number {
        if is_float_literal(t.text) {
            Ok((Node::Number(t.text), p1))
        } else {
            Err((number_error(t.text), p1))
        }
    } else if t.kind == TokenType::Identifier {
        Ok((Node::Identifier(t.text), p1))
    } else if t.kind == TokenType::LParen {
        if pos < p1 <= ts.len() {
            match parse_expression(ts, p1) {
                Ok((e, p2)) => match expect_at(ts, p2, TokenType::RParen, "esperaba ')'"@) {
                    Ok(p3) => Ok((e, p3)),
                    Err(x) => Err(x),
                },
                Err(x) => Err(x),
            }
        } else {
            Err((Seq::empty(), pos))  // a '(' at the last position: no end

        }
    } else {
        Err((syntax_error_line(t.line), pos))
    }
}

/// The loop of `term`: `(('*' | '/') factor)*` after the operand `left`.
pub open spec fn parse_term_rest(ts: Seq<TokenView>, pos: int, left: Node) -> Result<
    (Node, int),
    (Seq<char>, int),
>
    decreases ts.len() - pos, 1int,
{
    let t = tok_at(ts, pos);
    if t.kind == TokenType::Multiply || t.kind == TokenType::Divide {
        match parse_factor(ts, next_pos(ts, pos)) {
            Ok((r, p2)) => if pos < p2 <= ts.len() {
                parse_term_rest(ts, p2, Node::BinaryOp(t.text, Box::new(left), Box::new(r)))
            } else {
                Err((Seq::empty(), p2))  // unreachable

            },
            Err(x) => Err(x),
        }
    } else {
        Ok((left, pos))
    }
}

/// `term ::= factor (('*' | '/') factor)*`, left-associative.
pub open spec fn parse_term(ts: Seq<TokenView>, pos: int) -> Result<(Node, int), (Seq<char>, int)>
    decreases ts.len() - pos, 2int,
{
    match parse_factor(ts, pos) {
        Ok((l, p1)) => if pos <= p1 <= ts.len() {
            parse_term_rest(ts, p1, l)
        } else {
            Err((Seq::empty(), p1))  // unreachable

        },
        Err(x) => Err(x),
    }
}

/// The loop of `arithmetic`: `(('+' | '-') term)*` after the operand `left`.
pub open spec fn parse_arithmetic_rest(ts: Seq<TokenView>, pos: int, left: Node) -> Result<
    (Node, int),
    (Seq<char>, int),
>
    decreases ts.len() - pos, 3int,
{
    let t = tok_at(ts, pos);
    if t.kind == TokenType::Plus || t.kind == TokenType::Minus {
        match parse_term(ts, next_pos(ts, pos)) {
            Ok((r, p2)) => if pos < p2 <= ts.len() {
                parse_arithmetic_rest(ts, p2, Node::BinaryOp(t.text, Box::new(left), Box::new(r)))
            } else {
                Err((Seq::empty(), p2))  // unreachable

            },
            Err(x) => Err(x),
        }
    } else {
        Ok((left, pos))
    }
}

/// `arithmetic ::= term (('+' | '-') term)*`, left-associative.
pub open spec fn parse_arithmetic(ts: Seq<TokenView>, pos: int) -> Result<(Node, int), (Seq<char>, int)>
    decreases ts.len() - pos, 4int,
{
    match parse_term(ts, pos) {
        Ok((l, p1)) => if pos <= p1 <= ts.len() {
            parse_arithmetic_rest(ts, p1, l)
        } else {
            Err((Seq::empty(), p1))  // unreachable

        },
        Err(x) => Err(x),
    }
}

/// `comparison ::= arithmetic (op arithmetic)?` with one comparison operator at most.
pub open spec fn parse_comparison(ts: Seq<TokenView>, pos: int) -> Result<(Node, int), (Seq<char>, int)>
    decreases ts.len() - pos, 5int,
{
    match parse_arithmetic(ts, pos) {
        Ok((l, p1)) => {
            let t = tok_at(ts, p1);
            if is_comparison(t.kind) {
                let p2: int = next_pos(ts, p1);
                if pos <= p2 <= ts.len() {
                    match parse_arithmetic(ts, p2) {
                        Ok((r, p3)) => Ok((Node::BinaryOp(t.text, Box::new(l), Box::new(r)), p3)),
                        Err(x) => Err(x),
                    }
                } else {
                    Err((Seq::empty(), p2))  // unreachable

                }
            } else {
                Ok((l, p1))
            }
        },
        Err(x) => Err(x),
    }
}

/// `expression ::= comparison`.
pub open spec fn parse_expression(ts: Seq<TokenView>, pos: int) -> Result<(Node, int), (Seq<char>, int)>
    decreases ts.len() - pos, 6int,
{
    parse_comparison(ts, pos)
}

/// `statement ::= IDENTIFIER '=' expression ';' | 'print' '(' expression ')' ';'
///              | 'if' '(' expression ')' block ('else' block)?`
pub open spec fn parse_statement(ts: Seq<TokenView>, pos: int) -> Result<(Node, int), (Seq<char>, int)>
    decreases ts.len() - pos, 0int,
{
    let t = tok_at(ts, pos);
    if t.kind == TokenType::Print {
        match expect_at(ts, next_pos(ts, pos), TokenType::LParen, "esperaba '(' después de print"@) {
            Ok(p2) => match parse_expression(ts, p2) {
                Ok((e, p3)) => match expect_at(ts, p3, TokenType::RParen, "esperaba ')'"@) {
                    Ok(p4) => match expect_at(ts, p4, TokenType::Semicolon, "esperaba ';'"@) {
                        Ok(p5) => Ok((Node::Print(Box::new(e)), p5)),
                        Err(x) => Err(x),
                    },
                    Err(x) => Err(x),
                },
                Err(x) => Err(x),
            },
            Err(x) => Err(x),
        }
    } else if t.kind == TokenType::If {
        match expect_at(ts, next_pos(ts, pos), TokenType::LParen, "esperaba '(' después de if"@) {
            Ok(p2) => match parse_expression(ts, p2) {
                Ok((c, p3)) => match expect_at(ts, p3, TokenType::RParen, "esperaba ')'"@) {
                    Ok(p4) => if pos < p4 <= ts.len() {
                        match parse_block(ts, p4) {
                            Ok((th, p5)) => if tok_at(ts, p5).kind == TokenType::Else {
                                let p6: int = next_pos(ts, p5);
                                if pos < p6 <= ts.len() {
                                    match parse_block(ts, p6) {
                                        Ok((el, p7)) => Ok((Node::If(Box::new(c), th, Some(el)), p7)),
                                        Err(x) => Err(x),
                                    }
                                } else {
                                    Err((Seq::empty(), p6))  // unreachable

                                }
                            } else {
                                Ok((Node::If(Box::new(c), th, None), p5))
                            },
                            Err(x) => Err(x),
                        }
                    } else {
                        Err((Seq::empty(), p4))  // unreachable

                    },
                    Err(x) => Err(x),
                },
                Err(x) => Err(x),
            },
            Err(x) => Err(x),
        }
    } else if t.kind == TokenType::Identifier {
        if tok_at(ts, pos + 1).kind == TokenType::Assign {
            match parse_expression(ts, next_pos(ts, next_pos(ts, pos))) {
                Ok((e, p3)) => match expect_at(ts, p3, TokenType::Semicolon, "esperaba ';'"@) {
                    Ok(p4) => Ok((Node::Assignment(t.text, Box::new(e)), p4)),
                    Err(x) => Err(x),
                },
                Err(x) => Err(x),
            }
        } else {
            Err((syntax_error_line(t.line), pos))
        }
    } else {
        Err((syntax_error_line(t.line), pos))
    }
}

/// The loop of `block`: statements up to a closing brace, after the statements `acc`.
pub open spec fn parse_block_items(ts: Seq<TokenView>, pos: int, acc: Seq<Node>) -> Result<
    (Seq<Node>, int),
    (Seq<char>, int),
>
    decreases ts.len() - pos, 1int,
{
    let t = tok_at(ts, pos);
    if t.kind != TokenType::RBrace && t.kind != TokenType::Eof {
        match parse_statement(ts, pos) {
            Ok((s, p1)) => if pos < p1 <= ts.len() {
                parse_block_items(ts, p1, acc.push(s))
            } else {
                Err((Seq::empty(), p1))  // unreachable

            },
            Err(x) => Err(x),
        }
    } else {
        match expect_at(ts, pos, TokenType::RBrace, "esperaba '}'"@) {
            Ok(p1) => Ok((acc, p1)),
            Err(x) => Err(x),
        }
    }
}

/// `block ::= '{' statement* '}'`.
pub open spec fn parse_block(ts: Seq<TokenView>, pos: int) -> Result<(Seq<Node>, int), (Seq<char>, int)>
    decreases ts.len() - pos, 2int,
{
    match expect_at(ts, pos, TokenType::LBrace, "esperaba '{'"@) {
        Ok(p1) => parse_block_items(ts, p1, Seq::empty()),
        Err(x) => Err(x),
    }
}

/// The program: statements up to the end-of-input token, after the statements `acc`.
pub open spec fn parse_program(ts: Seq<TokenView>, pos: int, acc: Seq<Node>) -> Result<
    (Seq<Node>, int),
    (Seq<char>, int),
>
    decreases ts.len() - pos,
{
    if tok_at(ts, pos).kind != TokenType::Eof {
        match parse_statement(ts, pos) {
            Ok((s, p1)) => if pos < p1 <= ts.len() {
                parse_program(ts, p1, acc.push(s))
            } else {
                Err((Seq::empty(), p1))  // unreachable

            },
            Err(x) => Err(x),
        }
    } else {
        Ok((acc, pos))
    }
}

/// What a parsing step returned, with the position it left the parser at.
pub open spec fn node_outcome(r: Result<ASTNode, String>, p: int) -> Result<
    (Node, int),
    (Seq<char>, int),
> {
    match r {
        Ok(a) => Ok((a@, p)),
        Err(m) => Err((m@, p)),
    }
}

/// What reading a sequence of statements returned, with the position it left the parser at.
pub open spec fn block_outcome(r: Result<Vec<ASTNode>, String>, p: int) -> Result<
    (Seq<Node>, int),
    (Seq<char>, int),
> {
    match r {
        Ok(v) => Ok((block_view(v@), p)),
        Err(m) => Err((m@, p)),
    }
}

proof fn lemma_block_view_push(v: Seq<ASTNode>, a: ASTNode)
    ensures
        block_view(v.push(a)) == block_view(v).push(a@),
{
    assert(v.push(a).drop_last() =~= v);
}

fn syntax_error_msg(message: &str, line: usize) -> (m: String)
    ensures
        m@ == syntax_error(message@, line as nat),
{
    let mut m = String::from_str("Error sintaxis: ");
    m.append(message);
    m.append(" en línea ");
    push_decimal(&mut m, line);
    m
}

fn syntax_error_line_msg(line: usize) -> (m: String)
    ensures
        m@ == syntax_error_line(line as nat),
{
    let mut m = String::from_str("Error sintaxis en línea ");
    push_decimal(&mut m, line);
    m
}

fn number_error_msg(text: &String) -> (m: String)
    ensures
        m@ == number_error(text@),
{
    let mut m = String::from_str("Error: no se pudo parsear número '");
    m.append(text.as_str());
    m.append("'");
    m
}

/// The parser's state: the tokens and the reading position.
pub struct Parser {
    tokens: Vec<Token>,
    position: usize,
}

impl Parser {
    /// The values of the tokens.
    pub closed spec fn tokens(&self) -> Seq<TokenView> {
        tokens_view(self.tokens@)
    }

    /// The reading position.
    pub closed spec fn position(&self) -> int {
        self.position as int
    }

    pub fn new(tokens: Vec<Token>) -> (p: Self)
        ensures
            p.tokens() == tokens_view(tokens@),
            p.position() == 0,
    {
        Parser { tokens, position: 0 }
    }

    fn current(&self) -> (t: &Token)
        requires
            self.tokens@.len() > 0,
        ensures
            t@ == tok_at(self.tokens(), self.position as int),
    {
        if self.position >= self.tokens.len() {
            &self.tokens[self.tokens.len() - 1]
        } else {
            &self.tokens[self.position]
        }
    }

    fn peek(&self, offset: usize) -> (t: &Token)
        requires
            self.position < self.tokens@.len(),
        ensures
            t@ == tok_at(self.tokens(), self.position + offset),
    {
        if offset >= self.tokens.len() - self.position {
            &self.tokens[self.tokens.len() - 1]
        } else {
            &self.tokens[self.position + offset]
        }
    }

    fn advance(&mut self)
        requires
            old(self).tokens@.len() > 0,
        ensures
            final(self).tokens@ == old(self).tokens@,
            final(self).position == next_pos(old(self).tokens(), old(self).position as int),
    {
        if self.position < self.tokens.len() - 1 {
            self.position += 1;
        }
    }

    fn match_token(&mut self, token_type: TokenType) -> (r: bool)
        requires
            old(self).tokens@.len() > 0,
        ensures
            final(self).tokens@ == old(self).tokens@,
            r == (tok_at(old(self).tokens(), old(self).position as int).kind == token_type),
            final(self).position == if r {
                next_pos(old(self).tokens(), old(self).position as int)
            } else {
                old(self).position as int
            },
    {
        if self.current().token_type == token_type {
            self.advance();
            true
        } else {
            false
        }
    }

    fn expect(&mut self, token_type: TokenType, message: &str) -> (r: Result<(), String>)
        requires
            old(self).tokens@.len() > 0,
        ensures
            final(self).tokens@ == old(self).tokens@,
            match expect_at(old(self).tokens(), old(self).position as int, token_type, message@) {
                Ok(p) => r is Ok && final(self).position == p,
                Err((m, p)) => r matches Err(e) && e@ == m && final(self).position == p,
            },
    {
        if self.current().token_type != token_type {
            let line: usize = self.current().line;
            return Err(syntax_error_msg(message, line));
        }
        self.advance();
        Ok(())
    }

    fn factor(&mut self) -> (r: Result<ASTNode, String>)
        requires
            old(self).position() < old(self).tokens().len(),
            parse_ends(parse_factor(old(self).tokens(), old(self).position())),
        ensures
            final(self).tokens@ == old(self).tokens@,
            old(self).position <= final(self).position < final(self).tokens@.len(),
            node_outcome(r, final(self).position()) == parse_factor(
                old(self).tokens(),
                old(self).position(),
            ),
        decreases old(self).tokens@.len() - old(self).position, 0int,
    {
        let kind = self.current().token_type;
        let line: usize = self.current().line;
        if kind == TokenType::Number {
            let text = self.current().lexeme.clone();
            self.advance();
            if is_float_literal_text(&text) {
                Ok(ASTNode::Number(text))
            } else {
                Err(number_error_msg(&text))
            }
        } else if kind == TokenType::Identifier {
            let text = self.current().lexeme.clone();
            self.advance();
            Ok(ASTNode::Identifier(text))
        } else if kind == TokenType::LParen {
            self.advance();
            let expr = match self.expression() {
                Ok(e) => e,
                Err(e) => return Err(e),
            };
            match self.expect(TokenType::RParen, "esperaba ')'") {
                Ok(()) => {},
                Err(e) => return Err(e),
            }
            Ok(expr)
        } else {
            Err(syntax_error_line_msg(line))
        }
    }

    fn term(&mut self) -> (r: Result<ASTNode, String>)
        requires
            old(self).position() < old(self).tokens().len(),
            parse_ends(parse_term(old(self).tokens(), old(self).position())),
        ensures
            final(self).tokens@ == old(self).tokens@,
            old(self).position <= final(self).position < final(self).tokens@.len(),
            node_outcome(r, final(self).position()) == parse_term(
                old(self).tokens(),
                old(self).position(),
            ),
        decreases old(self).tokens@.len() - old(self).position, 2int,
    {
        let ghost ts = self.tokens();
        let ghost p0 = self.position as int;
        let mut left = match self.factor() {
            Ok(l) => l,
            Err(e) => return Err(e),
        };
        while self.current().token_type == TokenType::Multiply || self.current().token_type
            == TokenType::Divide
            invariant
                self.tokens() == ts,
                self.tokens@ == old(self).tokens@,
                ts == old(self).tokens(),
                p0 == old(self).position,
                self.tokens@.len() == ts.len(),
                0 <= p0 <= self.position < ts.len(),
                parse_ends(parse_term(ts, p0)),
                parse_term(ts, p0) == parse_term_rest(ts, self.position as int, left@),
            decreases ts.len() - self.position,
        {
            let op = self.current().lexeme.clone();
            self.advance();
            let right = match self.factor() {
                Ok(r) => r,
                Err(e) => return Err(e),
            };
            left = ASTNode::BinaryOp { op, left: Box::new(left), right: Box::new(right) };
        }
        Ok(left)
    }

    fn arithmetic(&mut self) -> (r: Result<ASTNode, String>)
        requires
            old(self).position() < old(self).tokens().len(),
            parse_ends(parse_arithmetic(old(self).tokens(), old(self).position())),
        ensures
            final(self).tokens@ == old(self).tokens@,
            old(self).position <= final(self).position < final(self).tokens@.len(),
            node_outcome(r, final(self).position()) == parse_arithmetic(
                old(self).tokens(),
                old(self).position(),
            ),
        decreases old(self).tokens@.len() - old(self).position, 4int,
    {
        let ghost ts = self.tokens();
        let ghost p0 = self.position as int;
        let mut left = match self.term() {
            Ok(l) => l,
            Err(e) => return Err(e),
        };
        while self.current().token_type == TokenType::Plus || self.current().token_type
            == TokenType::Minus
            invariant
                self.tokens() == ts,
                self.tokens@ == old(self).tokens@,
                ts == old(self).tokens(),
                p0 == old(self).position,
                self.tokens@.len() == ts.len(),
                0 <= p0 <= self.position < ts.len(),
                parse_ends(parse_arithmetic(ts, p0)),
                parse_arithmetic(ts, p0) == parse_arithmetic_rest(ts, self.position as int, left@),
            decreases ts.len() - self.position,
        {
            let op = self.current().lexeme.clone();
            self.advance();
            let right = match self.term() {
                Ok(r) => r,
                Err(e) => return Err(e),
            };
            left = ASTNode::BinaryOp { op, left: Box::new(left), right: Box::new(right) };
        }
        Ok(left)
    }

    fn comparison(&mut self) -> (r: Result<ASTNode, String>)
        requires
            old(self).position() < old(self).tokens().len(),
            parse_ends(parse_comparison(old(self).tokens(), old(self).position())),
        ensures
            final(self).tokens@ == old(self).tokens@,
            old(self).position <= final(self).position < final(self).tokens@.len(),
            node_outcome(r, final(self).position()) == parse_comparison(
                old(self).tokens(),
                old(self).position(),
            ),
        decreases old(self).tokens@.len() - old(self).position, 5int,
    {
        let left = match self.arithmetic() {
            Ok(l) => l,
            Err(e) => return Err(e),
        };
        let kind = self.current().token_type;
        if kind == TokenType::Equal || kind == TokenType::NotEqual || kind == TokenType::Less
            || kind == TokenType::Greater || kind == TokenType::LessEqual || kind
            == TokenType::GreaterEqual {
            let op = self.current().lexeme.clone();
            self.advance();
            let right = match self.arithmetic() {
                Ok(r) => r,
                Err(e) => return Err(e),
            };
            Ok(ASTNode::BinaryOp { op, left: Box::new(left), right: Box::new(right) })
        } else {
            Ok(left)
        }
    }

    fn expression(&mut self) -> (r: Result<ASTNode, String>)
        requires
            old(self).position() < old(self).tokens().len(),
            parse_ends(parse_expression(old(self).tokens(), old(self).position())),
        ensures
            final(self).tokens@ == old(self).tokens@,
            old(self).position <= final(self).position < final(self).tokens@.len(),
            node_outcome(r, final(self).position()) == parse_expression(
                old(self).tokens(),
                old(self).position(),
            ),
        decreases old(self).tokens@.len() - old(self).position, 6int,
    {
        self.comparison()
    }

    fn block(&mut self) -> (r: Result<Vec<ASTNode>, String>)
        requires
            old(self).position() < old(self).tokens().len(),
            parse_ends(parse_block(old(self).tokens(), old(self).position())),
        ensures
            final(self).tokens@ == old(self).tokens@,
            old(self).position <= final(self).position < final(self).tokens@.len(),
            block_outcome(r, final(self).position()) == parse_block(
                old(self).tokens(),
                old(self).position(),
            ),
        decreases old(self).tokens@.len() - old(self).position, 2int,
    {
        let ghost ts = self.tokens();
        let ghost p0 = self.position as int;
        match self.expect(TokenType::LBrace, "esperaba '{'") {
            Ok(()) => {},
            Err(e) => return Err(e),
        }
        let mut statements: Vec<ASTNode> = Vec::new();
        while self.current().token_type != TokenType::RBrace && self.current().token_type
            != TokenType::Eof
            invariant
                self.tokens() == ts,
                self.tokens@ == old(self).tokens@,
                ts == old(self).tokens(),
                p0 == old(self).position,
                self.tokens@.len() == ts.len(),
                0 <= p0 <= self.position < ts.len(),
                parse_ends(parse_block(ts, p0)),
                parse_block(ts, p0) == parse_block_items(
                    ts,
                    self.position as int,
                    block_view(statements@),
                ),
            decreases ts.len() - self.position,
        {
            let s = match self.statement() {
                Ok(s) => s,
                Err(e) => return Err(e),
            };
            proof { lemma_block_view_push(statements@, s); }
            statements.push(s);
        }
        match self.expect(TokenType::RBrace, "esperaba '}'") {
            Ok(()) => {},
            Err(e) => return Err(e),
        }
        Ok(statements)
    }

    fn statement(&mut self) -> (r: Result<ASTNode, String>)
        requires
            old(self).position() < old(self).tokens().len(),
            parse_ends(parse_statement(old(self).tokens(), old(self).position())),
        ensures
            final(self).tokens@ == old(self).tokens@,
            old(self).position <= final(self).position < final(self).tokens@.len(),
            r is Ok ==> old(self).position < final(self).position,
            node_outcome(r, final(self).position()) == parse_statement(
                old(self).tokens(),
                old(self).position(),
            ),
        decreases old(self).tokens@.len() - old(self).position, 0int,
    {
        let ghost ts = self.tokens();
        let ghost p0 = self.position as int;
        let kind = self.current().token_type;
        let line: usize = self.current().line;
        if kind == TokenType::Print {
            self.advance();
            match self.expect(TokenType::LParen, "esperaba '(' después de print") {
                Ok(()) => {},
                Err(e) => return Err(e),
            }
            assert(next_pos(ts, p0) == p0 + 1);
            let expr = match self.expression() {
                Ok(e) => e,
                Err(e) => return Err(e),
            };
            match self.expect(TokenType::RParen, "esperaba ')'") {
                Ok(()) => {},
                Err(e) => return Err(e),
            }
            match self.expect(TokenType::Semicolon, "esperaba ';'") {
                Ok(()) => {},
                Err(e) => return Err(e),
            }
            Ok(ASTNode::Print { expression: Box::new(expr) })
        } else if kind == TokenType::If {
            self.advance();
            match self.expect(TokenType::LParen, "esperaba '(' después de if") {
                Ok(()) => {},
                Err(e) => return Err(e),
            }
            assert(next_pos(ts, p0) == p0 + 1);
            let condition = match self.expression() {
                Ok(e) => e,
                Err(e) => return Err(e),
            };
            match self.expect(TokenType::RParen, "esperaba ')'") {
                Ok(()) => {},
                Err(e) => return Err(e),
            }
            let then_block = match self.block() {
                Ok(b) => b,
                Err(e) => return Err(e),
            };
            let else_block = if self.match_token(TokenType::Else) {
                match self.block() {
                    Ok(b) => Some(b),
                    Err(e) => return Err(e),
                }
            } else {
                None
            };
            Ok(ASTNode::If { condition: Box::new(condition), then_block, else_block })
        } else if kind == TokenType::Identifier {
            if self.peek(1).token_type == TokenType::Assign {
                let var_name = self.current().lexeme.clone();
                self.advance();
                self.advance();
                let expr = match self.expression() {
                    Ok(e) => e,
                    Err(e) => return Err(e),
                };
                match self.expect(TokenType::Semicolon, "esperaba ';'") {
                    Ok(()) => {},
                    Err(e) => return Err(e),
                }
                Ok(ASTNode::Assignment { variable: var_name, expression: Box::new(expr) })
            } else {
                Err(syntax_error_line_msg(line))
            }
        } else {
            Err(syntax_error_line_msg(line))
        }
    }

    /// Reads statements up to the end-of-input token. The tokens must not be
    /// empty, and the parse must run to an end: it recurses without end only
    /// where a '(' that starts a factor is the last token. Tokens whose last
    /// one is not '(' always meet this (see `lemma_parse_ends_without_last_paren`),
    /// and so do tokens that hold an end-of-input token at or after the
    /// position (see `lemma_parse_ends`), as the lexer's do.
    pub fn parse(&mut self) -> (r: Result<Vec<ASTNode>, String>)
        requires
            old(self).position() < old(self).tokens().len(),
            parse_ends(parse_program(old(self).tokens(), old(self).position(), Seq::empty())),
        ensures
            final(self).tokens() == old(self).tokens(),
            block_outcome(r, final(self).position()) == parse_program(
                old(self).tokens(),
                old(self).position(),
                Seq::empty(),
            ),
    {
        let ghost ts = self.tokens();
        let ghost p0 = self.position as int;
        let mut statements: Vec<ASTNode> = Vec::new();
        while self.current().token_type != TokenType::Eof
            invariant
                self.tokens() == ts,
                ts == old(self).tokens(),
                p0 == old(self).position,
                self.tokens@.len() == ts.len(),
                0 <= p0 <= self.position < ts.len(),
                parse_ends(parse_program(ts, p0, Seq::empty())),
                parse_program(ts, p0, Seq::empty()) == parse_program(
                    ts,
                    self.position as int,
                    block_view(statements@),
                ),
            decreases ts.len() - self.position,
        {
            let s = match self.statement() {
                Ok(s) => s,
                Err(e) => return Err(e),
            };
            proof { lemma_block_view_push(statements@, s); }
            statements.push(s);
        }
        Ok(statements)
    }
}

/// Every operator or delimiter token carries its own text, as the lexer's do.
pub open spec fn operators_spelled(ts: Seq<TokenView>) -> bool {
    forall|i: int|
        0 <= i < ts.len() ==> match symbol_text(#[trigger] ts[i].kind) {
            Some(s) => ts[i].text == s,
            None => true,
        }
}

/// A tree of numbers, variables and binary operations, each operation with
/// one of the four arithmetic or six comparison operators.
pub open spec fn expr_shaped(e: Node) -> bool
    decreases e,
{
    match e {
        Node::Number(_) => true,
        Node::Identifier(_) => true,
        Node::BinaryOp(op, l, r) => (is_arithmetic_op(op) || is_comparison_op(op)) && expr_shaped(
            *l,
        ) && expr_shaped(*r),
        _ => false,
    }
}

/// An assignment, print or if whose parts are expressions and statements in
/// their places.
pub open spec fn stmt_shaped(s: Node) -> bool
    decreases s,
{
    match s {
        Node::Assignment(_, e) => expr_shaped(*e),
        Node::Print(e) => expr_shaped(*e),
        Node::If(c, th, el) => expr_shaped(*c) && block_shaped(th) && match el {
            Some(b) => block_shaped(b),
            None => true,
        },
        _ => false,
    }
}

pub open spec fn block_shaped(b: Seq<Node>) -> bool
    decreases b,
{
    forall|i: int| 0 <= i < b.len() ==> stmt_shaped(#[trigger] b[i])
}

proof fn lemma_operator_text(ts: Seq<TokenView>, pos: int)
    requires
        0 <= pos,
        ts.len() > 0,
        operators_spelled(ts),
    ensures
        ({
            let t = tok_at(ts, pos);
            &&& (t.kind == TokenType::Plus || t.kind == TokenType::Minus || t.kind
                == TokenType::Multiply || t.kind == TokenType::Divide) ==> is_arithmetic_op(t.text)
            &&& is_comparison(t.kind) ==> is_comparison_op(t.text)
        }),
{
    let i: int = if pos >= ts.len() { ts.len() - 1 } else { pos };
    assert(tok_at(ts, pos) == ts[i]);
    assert(match symbol_text(ts[i].kind) { Some(s) => ts[i].text == s, None => true });
}

proof fn lemma_factor_shaped(ts: Seq<TokenView>, pos: int)
    requires
        0 <= pos,
        ts.len() > 0,
        operators_spelled(ts),
    ensures
        parse_factor(ts, pos) matches Ok((e, q)) ==> pos <= q && expr_shaped(e),
    decreases ts.len() - pos, 0int,
{
    let p1: int = next_pos(ts, pos);
    if tok_at(ts, pos).kind == TokenType::LParen && pos < p1 <= ts.len() {
        lemma_expression_shaped(ts, p1);
    }
}

proof fn lemma_term_rest_shaped(ts: Seq<TokenView>, pos: int, left: Node)
    requires
        0 <= pos,
        ts.len() > 0,
        operators_spelled(ts),
        expr_shaped(left),
    ensures
        parse_term_rest(ts, pos, left) matches Ok((e, q)) ==> pos <= q && expr_shaped(e),
    decreases ts.len() - pos, 1int,
{
    let t = tok_at(ts, pos);
    lemma_operator_text(ts, pos);
    if t.kind == TokenType::Multiply || t.kind == TokenType::Divide {
        lemma_factor_shaped(ts, next_pos(ts, pos));
        if let Ok((r, p2)) = parse_factor(ts, next_pos(ts, pos)) {
            if pos < p2 <= ts.len() {
                lemma_term_rest_shaped(ts, p2, Node::BinaryOp(t.text, Box::new(left), Box::new(r)));
            }
        }
    }
}

proof fn lemma_term_shaped(ts: Seq<TokenView>, pos: int)
    requires
        0 <= pos,
        ts.len() > 0,
        operators_spelled(ts),
    ensures
        parse_term(ts, pos) matches Ok((e, q)) ==> pos <= q && expr_shaped(e),
    decreases ts.len() - pos, 2int,
{
    lemma_factor_shaped(ts, pos);
    if let Ok((l, p1)) = parse_factor(ts, pos) {
        if pos <= p1 <= ts.len() {
            lemma_term_rest_shaped(ts, p1, l);
        }
    }
}

proof fn lemma_arithmetic_rest_shaped(ts: Seq<TokenView>, pos: int, left: Node)
    requires
        0 <= pos,
        ts.len() > 0,
        operators_spelled(ts),
        expr_shaped(left),
    ensures
        parse_arithmetic_rest(ts, pos, left) matches Ok((e, q)) ==> pos <= q && expr_shaped(e),
    decreases ts.len() - pos, 3int,
{
    let t = tok_at(ts, pos);
    lemma_operator_text(ts, pos);
    if t.kind == TokenType::Plus || t.kind == TokenType::Minus {
        lemma_term_shaped(ts, next_pos(ts, pos));
        if let Ok((r, p2)) = parse_term(ts, next_pos(ts, pos)) {
            if pos < p2 <= ts.len() {
                lemma_arithmetic_rest_shaped(ts, p2, Node::BinaryOp(t.text, Box::new(left), Box::new(r)));
            }
        }
    }
}

proof fn lemma_arithmetic_shaped(ts: Seq<TokenView>, pos: int)
    requires
        0 <= pos,
        ts.len() > 0,
        operators_spelled(ts),
    ensures
        parse_arithmetic(ts, pos) matches Ok((e, q)) ==> pos <= q && expr_shaped(e),
    decreases ts.len() - pos, 4int,
{
    lemma_term_shaped(ts, pos);
    if let Ok((l, p1)) = parse_term(ts, pos) {
        if pos <= p1 <= ts.len() {
            lemma_arithmetic_rest_shaped(ts, p1, l);
        }
    }
}

proof fn lemma_comparison_shaped(ts: Seq<TokenView>, pos: int)
    requires
        0 <= pos,
        ts.len() > 0,
        operators_spelled(ts),
    ensures
        parse_comparison(ts, pos) matches Ok((e, q)) ==> pos <= q && expr_shaped(e),
    decreases ts.len() - pos, 5int,
{
    lemma_arithmetic_shaped(ts, pos);
    if let Ok((l, p1)) = parse_arithmetic(ts, pos) {
        lemma_operator_text(ts, p1);
        let p2: int = next_pos(ts, p1);
        if pos <= p2 <= ts.len() {
            lemma_arithmetic_shaped(ts, p2);
        }
    }
}

proof fn lemma_expression_shaped(ts: Seq<TokenView>, pos: int)
    requires
        0 <= pos,
        ts.len() > 0,
        operators_spelled(ts),
    ensures
        parse_expression(ts, pos) matches Ok((e, q)) ==> pos <= q && expr_shaped(e),
    decreases ts.len() - pos, 6int,
{
    lemma_comparison_shaped(ts, pos);
}

proof fn lemma_statement_shaped(ts: Seq<TokenView>, pos: int)
    requires
        0 <= pos,
        ts.len() > 0,
        operators_spelled(ts),
    ensures
        parse_statement(ts, pos) matches Ok((s, q)) ==> pos <= q && stmt_shaped(s),
    decreases ts.len() - pos, 0int,
{
    let t = tok_at(ts, pos);
    if t.kind == TokenType::Print || t.kind == TokenType::If {
        if let Ok(p2) = expect_at(ts, next_pos(ts, pos), TokenType::LParen, if t.kind == TokenType::Print {
            "esperaba '(' después de print"@
        } else {
            "esperaba '(' después de if"@
        }) {
            lemma_expression_shaped(ts, p2);
            if t.kind == TokenType::If {
                if let Ok((c, p3)) = parse_expression(ts, p2) {
                    if let Ok(p4) = expect_at(ts, p3, TokenType::RParen, "esperaba ')'"@) {
                        if pos < p4 <= ts.len() {
                            lemma_block_shaped(ts, p4);
                            if let Ok((th, p5)) = parse_block(ts, p4) {
                                let p6: int = next_pos(ts, p5);
                                if pos < p6 <= ts.len() {
                                    lemma_block_shaped(ts, p6);
                                }
                            }
                        }
                    }
                }
            }
        }
    } else if t.kind == TokenType::Identifier {
        lemma_expression_shaped(ts, next_pos(ts, next_pos(ts, pos)));
    }
}

proof fn lemma_block_items_shaped(ts: Seq<TokenView>, pos: int, acc: Seq<Node>)
    requires
        0 <= pos,
        ts.len() > 0,
        operators_spelled(ts),
        block_shaped(acc),
    ensures
        parse_block_items(ts, pos, acc) matches Ok((b, q)) ==> pos <= q && block_shaped(b),
    decreases ts.len() - pos, 1int,
{
    let t = tok_at(ts, pos);
    if t.kind != TokenType::RBrace && t.kind != TokenType::Eof {
        lemma_statement_shaped(ts, pos);
        if let Ok((s, p1)) = parse_statement(ts, pos) {
            if pos < p1 <= ts.len() {
                assert(block_shaped(acc.push(s))) by {
                    assert forall|i: int| 0 <= i < acc.push(s).len() implies stmt_shaped(
                        #[trigger] acc.push(s)[i],
                    ) by {
                        if i < acc.len() {
                            assert(acc.push(s)[i] == acc[i]);
                        }
                    }
                }
                lemma_block_items_shaped(ts, p1, acc.push(s));
            }
        }
    }
}

proof fn lemma_block_shaped(ts: Seq<TokenView>, pos: int)
    requires
        0 <= pos,
        ts.len() > 0,
        operators_spelled(ts),
    ensures
        parse_block(ts, pos) matches Ok((b, q)) ==> pos <= q && block_shaped(b),
    decreases ts.len() - pos, 2int,
{
    if let Ok(p1) = expect_at(ts, pos, TokenType::LBrace, "esperaba '{'"@) {
        lemma_block_items_shaped(ts, p1, Seq::empty());
    }
}

/// Law: from tokens whose operators carry their own text, a program that
/// parses is a sequence of assignments, prints and ifs whose parts are
/// expressions and statements in their places, every operation with one of
/// the ten operators, and reading stops at an end-of-input token.
pub proof fn lemma_parse_shaped(ts: Seq<TokenView>, pos: int, acc: Seq<Node>)
    requires
        0 <= pos,
        ts.len() > 0,
        operators_spelled(ts),
        block_shaped(acc),
    ensures
        parse_program(ts, pos, acc) matches Ok((b, p)) ==> block_shaped(b) && tok_at(ts, p).kind
            == TokenType::Eof,
    decreases ts.len() - pos,
{
    if tok_at(ts, pos).kind != TokenType::Eof {
        lemma_statement_shaped(ts, pos);
        if let Ok((s, p1)) = parse_statement(ts, pos) {
            if pos < p1 <= ts.len() {
                assert(block_shaped(acc.push(s))) by {
                    assert forall|i: int| 0 <= i < acc.push(s).len() implies stmt_shaped(
                        #[trigger] acc.push(s)[i],
                    ) by {
                        if i < acc.len() {
                            assert(acc.push(s)[i] == acc[i]);
                        }
                    }
                }
                lemma_parse_shaped(ts, p1, acc.push(s));
            }
        }
    }
}

proof fn lemma_step(ts: Seq<TokenView>, pos: int)
    requires
        0 <= pos,
        eof_ahead(ts, pos),
    ensures
        pos < ts.len(),
        tok_at(ts, pos).kind != TokenType::Eof ==> next_pos(ts, pos) == pos + 1 && eof_ahead(
            ts,
            pos + 1,
        ),
{
    let e: int = choose|e: int| pos <= e < ts.len() && #[trigger] ts[e].kind == TokenType::Eof;
    if tok_at(ts, pos).kind != TokenType::Eof {
        assert(e != pos);
    }
}

/// Where an end-of-input token lies ahead of `pos`: a reading that succeeds
/// stops where one still lies ahead, no earlier than `pos`, and an error
/// carries a message.
spec fn ends_before_eof<T>(
    ts: Seq<TokenView>,
    pos: int,
    r: Result<(T, int), (Seq<char>, int)>,
) -> bool {
    match r {
        Ok((_, p)) => pos <= p && eof_ahead(ts, p),
        Err((m, _)) => m.len() > 0,
    }
}

proof fn lemma_messages_nonempty(message: Seq<char>, line: nat, text: Seq<char>)
    ensures
        syntax_error(message, line).len() > 0,
        syntax_error_line(line).len() > 0,
        number_error(text).len() > 0,
{
    reveal_strlit("Error sintaxis: ");
    reveal_strlit("Error sintaxis en línea ");
    reveal_strlit("Error: no se pudo parsear número '");
}

proof fn lemma_expect_ends(ts: Seq<TokenView>, pos: int, k: TokenType, message: Seq<char>)
    requires
        0 <= pos,
        eof_ahead(ts, pos),
        k != TokenType::Eof,
    ensures
        match expect_at(ts, pos, k, message) {
            Ok(p) => p == pos + 1 && eof_ahead(ts, p),
            Err((m, _)) => m.len() > 0,
        },
{
    lemma_step(ts, pos);
    lemma_messages_nonempty(message, tok_at(ts, pos).line, Seq::empty());
}

proof fn lemma_factor_ends(ts: Seq<TokenView>, pos: int)
    requires
        0 <= pos,
        eof_ahead(ts, pos),
    ensures
        ends_before_eof(ts, pos, parse_factor(ts, pos)),
    decreases ts.len() - pos, 0int,
{
    let t = tok_at(ts, pos);
    lemma_step(ts, pos);
    lemma_messages_nonempty(Seq::empty(), t.line, t.text);
    if t.kind == TokenType::LParen {
        lemma_expression_ends(ts, pos + 1);
        if let Ok((e, p2)) = parse_expression(ts, pos + 1) {
            lemma_expect_ends(ts, p2, TokenType::RParen, "esperaba ')'"@);
        }
    }
}

proof fn lemma_term_rest_ends(ts: Seq<TokenView>, pos: int, left: Node)
    requires
        0 <= pos,
        eof_ahead(ts, pos),
    ensures
        ends_before_eof(ts, pos, parse_term_rest(ts, pos, left)),
    decreases ts.len() - pos, 1int,
{
    let t = tok_at(ts, pos);
    lemma_step(ts, pos);
    if t.kind == TokenType::Multiply || t.kind == TokenType::Divide {
        lemma_factor_ends(ts, pos + 1);
        if let Ok((r, p2)) = parse_factor(ts, pos + 1) {
            lemma_term_rest_ends(ts, p2, Node::BinaryOp(t.text, Box::new(left), Box::new(r)));
        }
    }
}

proof fn lemma_term_ends(ts: Seq<TokenView>, pos: int)
    requires
        0 <= pos,
        eof_ahead(ts, pos),
    ensures
        ends_before_eof(ts, pos, parse_term(ts, pos)),
    decreases ts.len() - pos, 2int,
{
    lemma_step(ts, pos);
    lemma_factor_ends(ts, pos);
    if let Ok((l, p1)) = parse_factor(ts, pos) {
        lemma_step(ts, p1);
        lemma_term_rest_ends(ts, p1, l);
    }
}

proof fn lemma_arithmetic_rest_ends(ts: Seq<TokenView>, pos: int, left: Node)
    requires
        0 <= pos,
        eof_ahead(ts, pos),
    ensures
        ends_before_eof(ts, pos, parse_arithmetic_rest(ts, pos, left)),
    decreases ts.len() - pos, 3int,
{
    let t = tok_at(ts, pos);
    lemma_step(ts, pos);
    if t.kind == TokenType::Plus || t.kind == TokenType::Minus {
        lemma_term_ends(ts, pos + 1);
        if let Ok((r, p2)) = parse_term(ts, pos + 1) {
            lemma_arithmetic_rest_ends(
                ts,
                p2,
                Node::BinaryOp(t.text, Box::new(left), Box::new(r)),
            );
        }
    }
}

proof fn lemma_arithmetic_ends(ts: Seq<TokenView>, pos: int)
    requires
        0 <= pos,
        eof_ahead(ts, pos),
    ensures
        ends_before_eof(ts, pos, parse_arithmetic(ts, pos)),
    decreases ts.len() - pos, 4int,
{
    lemma_step(ts, pos);
    lemma_term_ends(ts, pos);
    if let Ok((l, p1)) = parse_term(ts, pos) {
        lemma_step(ts, p1);
        lemma_arithmetic_rest_ends(ts, p1, l);
    }
}

proof fn lemma_comparison_ends(ts: Seq<TokenView>, pos: int)
    requires
        0 <= pos,
        eof_ahead(ts, pos),
    ensures
        ends_before_eof(ts, pos, parse_comparison(ts, pos)),
    decreases ts.len() - pos, 5int,
{
    lemma_step(ts, pos);
    lemma_arithmetic_ends(ts, pos);
    if let Ok((l, p1)) = parse_arithmetic(ts, pos) {
        lemma_step(ts, p1);
        if is_comparison(tok_at(ts, p1).kind) {
            lemma_arithmetic_ends(ts, p1 + 1);
        }
    }
}

proof fn lemma_expression_ends(ts: Seq<TokenView>, pos: int)
    requires
        0 <= pos,
        eof_ahead(ts, pos),
    ensures
        ends_before_eof(ts, pos, parse_expression(ts, pos)),
    decreases ts.len() - pos, 6int,
{
    lemma_comparison_ends(ts, pos);
}

proof fn lemma_statement_ends(ts: Seq<TokenView>, pos: int)
    requires
        0 <= pos,
        eof_ahead(ts, pos),
    ensures
        ends_before_eof(ts, pos, parse_statement(ts, pos)),
        parse_statement(ts, pos) matches Ok((_, p)) ==> pos < p,
    decreases ts.len() - pos, 0int,
{
    let t = tok_at(ts, pos);
    lemma_step(ts, pos);
    lemma_messages_nonempty(Seq::empty(), t.line, Seq::empty());
    if t.kind == TokenType::Print || t.kind == TokenType::If {
        let m: Seq<char> = if t.kind == TokenType::Print {
            "esperaba '(' después de print"@
        } else {
            "esperaba '(' después de if"@
        };
        lemma_expect_ends(ts, pos + 1, TokenType::LParen, m);
        if let Ok(p2) = expect_at(ts, pos + 1, TokenType::LParen, m) {
            lemma_expression_ends(ts, p2);
            if let Ok((e, p3)) = parse_expression(ts, p2) {
                lemma_expect_ends(ts, p3, TokenType::RParen, "esperaba ')'"@);
                if let Ok(p4) = expect_at(ts, p3, TokenType::RParen, "esperaba ')'"@) {
                    if t.kind == TokenType::Print {
                        lemma_expect_ends(ts, p4, TokenType::Semicolon, "esperaba ';'"@);
                    } else {
                        lemma_block_ends(ts, p4);
                        if let Ok((th, p5)) = parse_block(ts, p4) {
                            lemma_step(ts, p5);
                            if tok_at(ts, p5).kind == TokenType::Else {
                                lemma_block_ends(ts, p5 + 1);
                            }
                        }
                    }
                }
            }
        }
    } else if t.kind == TokenType::Identifier && tok_at(ts, pos + 1).kind == TokenType::Assign {
        lemma_step(ts, pos + 1);
        lemma_expression_ends(ts, pos + 2);
        if let Ok((e, p3)) = parse_expression(ts, pos + 2) {
            lemma_expect_ends(ts, p3, TokenType::Semicolon, "esperaba ';'"@);
        }
    }
}

proof fn lemma_block_items_ends(ts: Seq<TokenView>, pos: int, acc: Seq<Node>)
    requires
        0 <= pos,
        eof_ahead(ts, pos),
    ensures
        ends_before_eof(ts, pos, parse_block_items(ts, pos, acc)),
    decreases ts.len() - pos, 1int,
{
    let t = tok_at(ts, pos);
    lemma_step(ts, pos);
    if t.kind != TokenType::RBrace && t.kind != TokenType::Eof {
        lemma_statement_ends(ts, pos);
        if let Ok((s, p1)) = parse_statement(ts, pos) {
            lemma_block_items_ends(ts, p1, acc.push(s));
        }
    } else {
        lemma_expect_ends(ts, pos, TokenType::RBrace, "esperaba '}'"@);
    }
}

proof fn lemma_block_ends(ts: Seq<TokenView>, pos: int)
    requires
        0 <= pos,
        eof_ahead(ts, pos),
    ensures
        ends_before_eof(ts, pos, parse_block(ts, pos)),
    decreases ts.len() - pos, 2int,
{
    lemma_expect_ends(ts, pos, TokenType::LBrace, "esperaba '{'"@);
    if let Ok(p1) = expect_at(ts, pos, TokenType::LBrace, "esperaba '{'"@) {
        lemma_block_items_ends(ts, p1, Seq::empty());
    }
}

/// Law: wherever an end-of-input token lies at or after the reading
/// position, parsing runs to an end: it stops at an end-of-input token or
/// reports an error with a message.
pub proof fn lemma_parse_ends(ts: Seq<TokenView>, pos: int, acc: Seq<Node>)
    requires
        0 <= pos,
        eof_ahead(ts, pos),
    ensures
        pos < ts.len(),
        parse_ends(parse_program(ts, pos, acc)),
    decreases ts.len() - pos,
{
    lemma_step(ts, pos);
    if tok_at(ts, pos).kind != TokenType::Eof {
        lemma_statement_ends(ts, pos);
        if let Ok((s, p1)) = parse_statement(ts, pos) {
            lemma_parse_ends(ts, p1, acc.push(s));
        }
    }
}

/// A reading from `pos` (a position among the tokens) that succeeds stops at
/// a position among the tokens no earlier than `pos`; one that fails without
/// a message did so at a '(' that is the last token.
spec fn stops_within<T>(
    ts: Seq<TokenView>,
    pos: int,
    r: Result<(T, int), (Seq<char>, int)>,
) -> bool {
    match r {
        Ok((_, p)) => pos <= p < ts.len(),
        Err((m, _)) => m.len() == 0 ==> ts.last().kind == TokenType::LParen,
    }
}

proof fn lemma_expect_stops(ts: Seq<TokenView>, pos: int, k: TokenType, message: Seq<char>)
    requires
        0 <= pos < ts.len(),
    ensures
        match expect_at(ts, pos, k, message) {
            Ok(p) => pos <= p < ts.len(),
            Err((m, _)) => m.len() > 0,
        },
{
    lemma_messages_nonempty(message, tok_at(ts, pos).line, Seq::empty());
}

proof fn lemma_factor_stops(ts: Seq<TokenView>, pos: int)
    requires
        0 <= pos < ts.len(),
    ensures
        stops_within(ts, pos, parse_factor(ts, pos)),
        parse_factor(ts, pos) is Ok ==> tok_at(ts, pos).kind == TokenType::Number || tok_at(
            ts,
            pos,
        ).kind == TokenType::Identifier || tok_at(ts, pos).kind == TokenType::LParen,
    decreases ts.len() - pos, 0int,
{
    let t = tok_at(ts, pos);
    lemma_messages_nonempty(Seq::empty(), t.line, t.text);
    if t.kind == TokenType::LParen && pos < ts.len() - 1 {
        lemma_expression_stops(ts, pos + 1);
        if let Ok((e, p2)) = parse_expression(ts, pos + 1) {
            lemma_expect_stops(ts, p2, TokenType::RParen, "esperaba ')'"@);
        }
    }
}

proof fn lemma_term_rest_stops(ts: Seq<TokenView>, pos: int, left: Node)
    requires
        0 <= pos < ts.len(),
    ensures
        stops_within(ts, pos, parse_term_rest(ts, pos, left)),
    decreases ts.len() - pos, 1int,
{
    let t = tok_at(ts, pos);
    if t.kind == TokenType::Multiply || t.kind == TokenType::Divide {
        let np: int = next_pos(ts, pos);
        lemma_factor_stops(ts, np);
        lemma_messages_nonempty(Seq::empty(), t.line, Seq::empty());
        if let Ok((r, p2)) = parse_factor(ts, np) {
            lemma_term_rest_stops(ts, p2, Node::BinaryOp(t.text, Box::new(left), Box::new(r)));
        }
    }
}

proof fn lemma_term_stops(ts: Seq<TokenView>, pos: int)
    requires
        0 <= pos < ts.len(),
    ensures
        stops_within(ts, pos, parse_term(ts, pos)),
        parse_term(ts, pos) is Ok ==> parse_factor(ts, pos) is Ok,
    decreases ts.len() - pos, 2int,
{
    lemma_factor_stops(ts, pos);
    if let Ok((l, p1)) = parse_factor(ts, pos) {
        lemma_term_rest_stops(ts, p1, l);
    }
}

proof fn lemma_arithmetic_rest_stops(ts: Seq<TokenView>, pos: int, left: Node)
    requires
        0 <= pos < ts.len(),
    ensures
        stops_within(ts, pos, parse_arithmetic_rest(ts, pos, left)),
    decreases ts.len() - pos, 3int,
{
    let t = tok_at(ts, pos);
    if t.kind == TokenType::Plus || t.kind == TokenType::Minus {
        let np: int = next_pos(ts, pos);
        lemma_term_stops(ts, np);
        lemma_factor_stops(ts, np);
        if let Ok((r, p2)) = parse_term(ts, np) {
            lemma_arithmetic_rest_stops(
                ts,
                p2,
                Node::BinaryOp(t.text, Box::new(left), Box::new(r)),
            );
        }
    }
}

proof fn lemma_arithmetic_stops(ts: Seq<TokenView>, pos: int)
    requires
        0 <= pos < ts.len(),
    ensures
        stops_within(ts, pos, parse_arithmetic(ts, pos)),
    decreases ts.len() - pos, 4int,
{
    lemma_term_stops(ts, pos);
    if let Ok((l, p1)) = parse_term(ts, pos) {
        lemma_arithmetic_rest_stops(ts, p1, l);
    }
}

proof fn lemma_comparison_stops(ts: Seq<TokenView>, pos: int)
    requires
        0 <= pos < ts.len(),
    ensures
        stops_within(ts, pos, parse_comparison(ts, pos)),
    decreases ts.len() - pos, 5int,
{
    lemma_arithmetic_stops(ts, pos);
    if let Ok((l, p1)) = parse_arithmetic(ts, pos) {
        if is_comparison(tok_at(ts, p1).kind) {
            lemma_arithmetic_stops(ts, next_pos(ts, p1));
        }
    }
}

proof fn lemma_expression_stops(ts: Seq<TokenView>, pos: int)
    requires
        0 <= pos < ts.len(),
    ensures
        stops_within(ts, pos, parse_expression(ts, pos)),
    decreases ts.len() - pos, 6int,
{
    lemma_comparison_stops(ts, pos);
}

proof fn lemma_statement_stops(ts: Seq<TokenView>, pos: int)
    requires
        0 <= pos < ts.len(),
    ensures
        stops_within(ts, pos, parse_statement(ts, pos)),
        parse_statement(ts, pos) matches Ok((_, p)) ==> pos < p,
    decreases ts.len() - pos, 0int,
{
    let t = tok_at(ts, pos);
    let np: int = next_pos(ts, pos);
    lemma_messages_nonempty(Seq::empty(), t.line, Seq::empty());
    if t.kind == TokenType::Print || t.kind == TokenType::If {
        let m: Seq<char> = if t.kind == TokenType::Print {
            "esperaba '(' después de print"@
        } else {
            "esperaba '(' después de if"@
        };
        lemma_expect_stops(ts, np, TokenType::LParen, m);
        if let Ok(p2) = expect_at(ts, np, TokenType::LParen, m) {
            assert(np == pos + 1);
            lemma_expression_stops(ts, p2);
            if let Ok((e, p3)) = parse_expression(ts, p2) {
                lemma_expect_stops(ts, p3, TokenType::RParen, "esperaba ')'"@);
                if let Ok(p4) = expect_at(ts, p3, TokenType::RParen, "esperaba ')'"@) {
                    if t.kind == TokenType::Print {
                        lemma_expect_stops(ts, p4, TokenType::Semicolon, "esperaba ';'"@);
                    } else {
                        lemma_block_stops(ts, p4);
                        if let Ok((th, p5)) = parse_block(ts, p4) {
                            if tok_at(ts, p5).kind == TokenType::Else {
                                lemma_block_stops(ts, next_pos(ts, p5));
                            }
                        }
                    }
                }
            }
        }
    } else if t.kind == TokenType::Identifier && tok_at(ts, pos + 1).kind == TokenType::Assign {
        assert(pos + 1 < ts.len());
        lemma_expression_stops(ts, next_pos(ts, pos + 1));
        if let Ok((e, p3)) = parse_expression(ts, next_pos(ts, pos + 1)) {
            lemma_expect_stops(ts, p3, TokenType::Semicolon, "esperaba ';'"@);
        }
    }
}

proof fn lemma_block_items_stops(ts: Seq<TokenView>, pos: int, acc: Seq<Node>)
    requires
        0 <= pos < ts.len(),
    ensures
        stops_within(ts, pos, parse_block_items(ts, pos, acc)),
    decreases ts.len() - pos, 1int,
{
    let t = tok_at(ts, pos);
    if t.kind != TokenType::RBrace && t.kind != TokenType::Eof {
        lemma_statement_stops(ts, pos);
        if let Ok((s, p1)) = parse_statement(ts, pos) {
            lemma_block_items_stops(ts, p1, acc.push(s));
        }
    } else {
        lemma_expect_stops(ts, pos, TokenType::RBrace, "esperaba '}'"@);
    }
}

proof fn lemma_block_stops(ts: Seq<TokenView>, pos: int)
    requires
        0 <= pos < ts.len(),
    ensures
        stops_within(ts, pos, parse_block(ts, pos)),
    decreases ts.len() - pos, 2int,
{
    lemma_expect_stops(ts, pos, TokenType::LBrace, "esperaba '{'"@);
    if let Ok(p1) = expect_at(ts, pos, TokenType::LBrace, "esperaba '{'"@) {
        lemma_block_items_stops(ts, p1, Seq::empty());
    }
}

/// Law: parsing from a position among the tokens runs to an end unless the
/// last token is '(': it stops at an end-of-input token or reports an error
/// with a message.
pub proof fn lemma_parse_ends_without_last_paren(ts: Seq<TokenView>, pos: int, acc: Seq<Node>)
    requires
        0 <= pos < ts.len(),
        ts.last().kind != TokenType::LParen,
    ensures
        parse_ends(parse_program(ts, pos, acc)),
    decreases ts.len() - pos,
{
    if tok_at(ts, pos).kind != TokenType::Eof {
        lemma_statement_stops(ts, pos);
        if let Ok((s, p1)) = parse_statement(ts, pos) {
            lemma_parse_ends_without_last_paren(ts, p1, acc.push(s));
        }
    }
}

/// Law: the lexer's tokens are never empty and carry their operators' own
/// text, so what the parser reads from them is shaped as `lemma_parse_shaped`
/// says.
pub proof fn lemma_lexed_operators_spelled(src: Seq<char>)
    ensures
        lex_from(src, 0) matches Ok(ts) ==> ts.len() > 0 && operators_spelled(ts),
{
    lemma_lex_token_texts(src, 0);
    lemma_lex_ends_with_eof(src, 0);
    if let Ok(ts) = lex_from(src, 0) {
        assert forall|i: int| 0 <= i < ts.len() implies match symbol_text(#[trigger] ts[i].kind) {
            Some(s) => ts[i].text == s,
            None => true,
        } by {
            assert(text_fits_kind(ts[i]));
        }
    }
}

/// A number with a well-formed literal, or a variable.
pub open spec fn is_atom(t: TokenView) -> bool {
    (t.kind == TokenType::Number && is_float_literal(t.text)) || t.kind == TokenType::Identifier
}

/// The node that an atom token reads as.
pub open spec fn atom_node(t: TokenView) -> Node {
    if t.kind == TokenType::Number {
        Node::Number(t.text)
    } else {
        Node::Identifier(t.text)
    }
}

pub open spec fn is_additive(k: TokenType) -> bool {
    k == TokenType::Plus || k == TokenType::Minus
}

pub open spec fn is_multiplicative(k: TokenType) -> bool {
    k == TokenType::Multiply || k == TokenType::Divide
}

proof fn lemma_atom_reads(ts: Seq<TokenView>, pos: int)
    requires
        0 <= pos,
        pos + 1 < ts.len(),
        is_atom(ts[pos]),
        !is_multiplicative(ts[pos + 1].kind),
    ensures
        parse_factor(ts, pos) == Ok::<(Node, int), (Seq<char>, int)>((atom_node(ts[pos]), pos + 1)),
        parse_term(ts, pos) == Ok::<(Node, int), (Seq<char>, int)>((atom_node(ts[pos]), pos + 1)),
{
    assert(tok_at(ts, pos) == ts[pos]);
    assert(next_pos(ts, pos) == pos + 1);
    assert(tok_at(ts, pos + 1) == ts[pos + 1]);
    assert(parse_term_rest(ts, pos + 1, atom_node(ts[pos])) == Ok::<(Node, int), (Seq<char>, int)>(
        (atom_node(ts[pos]), pos + 1),
    ));
}

/// Law: the right operand of a comparison is a whole sum: the tokens
/// `a op b + c` (or `- c`), with `a`, `b` and `c` numbers or variables, a
/// comparison operator `op`, and no arithmetic operator after `c`, read as
/// `a op (b + c)`.
pub proof fn lemma_comparison_takes_sum(ts: Seq<TokenView>, pos: int)
    requires
        0 <= pos,
        pos + 5 < ts.len(),
        is_atom(ts[pos]),
        is_comparison(ts[pos + 1].kind),
        is_atom(ts[pos + 2]),
        is_additive(ts[pos + 3].kind),
        is_atom(ts[pos + 4]),
        !is_additive(ts[pos + 5].kind),
        !is_multiplicative(ts[pos + 5].kind),
    ensures
        parse_expression(ts, pos) == Ok::<(Node, int), (Seq<char>, int)>(
            (
                Node::BinaryOp(
                    ts[pos + 1].text,
                    Box::new(atom_node(ts[pos])),
                    Box::new(
                        Node::BinaryOp(
                            ts[pos + 3].text,
                            Box::new(atom_node(ts[pos + 2])),
                            Box::new(atom_node(ts[pos + 4])),
                        ),
                    ),
                ),
                pos + 5,
            ),
        ),
{
    let a = atom_node(ts[pos]);
    let b = atom_node(ts[pos + 2]);
    let c = atom_node(ts[pos + 4]);
    let bc = Node::BinaryOp(ts[pos + 3].text, Box::new(b), Box::new(c));
    lemma_atom_reads(ts, pos);
    lemma_atom_reads(ts, pos + 2);
    lemma_atom_reads(ts, pos + 4);
    assert(tok_at(ts, pos + 1) == ts[pos + 1]);
    assert(tok_at(ts, pos + 3) == ts[pos + 3]);
    assert(tok_at(ts, pos + 5) == ts[pos + 5]);
    assert(parse_arithmetic_rest(ts, pos + 1, a) == Ok::<(Node, int), (Seq<char>, int)>((a, pos + 1)));
    assert(parse_arithmetic(ts, pos) == Ok::<(Node, int), (Seq<char>, int)>((a, pos + 1)));
    assert(parse_arithmetic_rest(ts, pos + 5, bc) == Ok::<(Node, int), (Seq<char>, int)>((bc, pos + 5)));
    assert(next_pos(ts, pos + 3) == pos + 4);
    assert(parse_arithmetic_rest(ts, pos + 3, b) == Ok::<(Node, int), (Seq<char>, int)>((bc, pos + 5)));
    assert(parse_arithmetic(ts, pos + 2) == Ok::<(Node, int), (Seq<char>, int)>((bc, pos + 5)));
    assert(next_pos(ts, pos + 1) == pos + 2);
}

/// Law: each side of a comparison is what `parse_arithmetic` reads there: the
/// left side from the start, the right side from after the operator; with no
/// comparison operator the expression is the left side alone.
pub proof fn lemma_comparison_sides(ts: Seq<TokenView>, pos: int)
    requires
        0 <= pos < ts.len(),
    ensures
        parse_arithmetic(ts, pos) is Err ==> parse_expression(ts, pos) == parse_arithmetic(ts, pos),
        parse_arithmetic(ts, pos) matches Ok((l, p1)) ==> {
            let t = tok_at(ts, p1);
            if is_comparison(t.kind) {
                match parse_arithmetic(ts, next_pos(ts, p1)) {
                    Ok((r, p3)) => parse_expression(ts, pos) == Ok::<(Node, int), (Seq<char>, int)>(
                        (Node::BinaryOp(t.text, Box::new(l), Box::new(r)), p3),
                    ),
                    Err(x) => parse_expression(ts, pos) == Err::<(Node, int), (Seq<char>, int)>(x),
                }
            } else {
                parse_expression(ts, pos) == Ok::<(Node, int), (Seq<char>, int)>((l, p1))
            }
        },
{
    lemma_arithmetic_stops(ts, pos);
}

proof fn lemma_rests_stop(ts: Seq<TokenView>, p: int, left: Node)
    requires
        0 <= p < ts.len(),
    ensures
        !is_multiplicative(ts[p].kind) ==> parse_term_rest(ts, p, left) == Ok::<
            (Node, int),
            (Seq<char>, int),
        >((left, p)),
        !is_additive(ts[p].kind) ==> parse_arithmetic_rest(ts, p, left) == Ok::<
            (Node, int),
            (Seq<char>, int),
        >((left, p)),
{
    assert(tok_at(ts, p) == ts[p]);
}

/// The operation `op` on `l` and `r`.
pub open spec fn bin(op: Seq<char>, l: Node, r: Node) -> Node {
    Node::BinaryOp(op, Box::new(l), Box::new(r))
}

/// Law: products and quotients group to the left: `a * b / c` reads as
/// `(a * b) / c`.
pub proof fn lemma_term_left_assoc(ts: Seq<TokenView>, pos: int)
    requires
        0 <= pos,
        pos + 5 < ts.len(),
        is_atom(ts[pos]),
        is_multiplicative(ts[pos + 1].kind),
        is_atom(ts[pos + 2]),
        is_multiplicative(ts[pos + 3].kind),
        is_atom(ts[pos + 4]),
        !is_multiplicative(ts[pos + 5].kind),
    ensures
        parse_term(ts, pos) == Ok::<(Node, int), (Seq<char>, int)>(
            (
                bin(
                    ts[pos + 3].text,
                    bin(ts[pos + 1].text, atom_node(ts[pos]), atom_node(ts[pos + 2])),
                    atom_node(ts[pos + 4]),
                ),
                pos + 5,
            ),
        ),
{
    let a = atom_node(ts[pos]);
    let ab = bin(ts[pos + 1].text, a, atom_node(ts[pos + 2]));
    let abc = bin(ts[pos + 3].text, ab, atom_node(ts[pos + 4]));
    assert(tok_at(ts, pos) == ts[pos]);
    assert(tok_at(ts, pos + 1) == ts[pos + 1]);
    assert(tok_at(ts, pos + 2) == ts[pos + 2]);
    assert(tok_at(ts, pos + 3) == ts[pos + 3]);
    assert(tok_at(ts, pos + 4) == ts[pos + 4]);
    lemma_rests_stop(ts, pos + 5, abc);
    assert(parse_term_rest(ts, pos + 3, ab) == Ok::<(Node, int), (Seq<char>, int)>((abc, pos + 5)));
    assert(parse_term_rest(ts, pos + 1, a) == Ok::<(Node, int), (Seq<char>, int)>((abc, pos + 5)));
}

/// Law: sums and differences group to the left: `a - b - c` reads as
/// `(a - b) - c`.
pub proof fn lemma_arithmetic_left_assoc(ts: Seq<TokenView>, pos: int)
    requires
        0 <= pos,
        pos + 5 < ts.len(),
        is_atom(ts[pos]),
        is_additive(ts[pos + 1].kind),
        is_atom(ts[pos + 2]),
        is_additive(ts[pos + 3].kind),
        is_atom(ts[pos + 4]),
        !is_additive(ts[pos + 5].kind),
        !is_multiplicative(ts[pos + 5].kind),
    ensures
        parse_arithmetic(ts, pos) == Ok::<(Node, int), (Seq<char>, int)>(
            (
                bin(
                    ts[pos + 3].text,
                    bin(ts[pos + 1].text, atom_node(ts[pos]), atom_node(ts[pos + 2])),
                    atom_node(ts[pos + 4]),
                ),
                pos + 5,
            ),
        ),
{
    let a = atom_node(ts[pos]);
    let b = atom_node(ts[pos + 2]);
    let c = atom_node(ts[pos + 4]);
    let ab = bin(ts[pos + 1].text, a, b);
    let abc = bin(ts[pos + 3].text, ab, c);
    lemma_atom_reads(ts, pos);
    lemma_atom_reads(ts, pos + 2);
    lemma_atom_reads(ts, pos + 4);
    assert(tok_at(ts, pos + 1) == ts[pos + 1]);
    assert(tok_at(ts, pos + 3) == ts[pos + 3]);
    lemma_rests_stop(ts, pos + 5, abc);
    assert(parse_arithmetic_rest(ts, pos + 3, ab) == Ok::<(Node, int), (Seq<char>, int)>(
        (abc, pos + 5),
    ));
    assert(parse_arithmetic_rest(ts, pos + 1, a) == Ok::<(Node, int), (Seq<char>, int)>(
        (abc, pos + 5),
    ));
}

/// Law: products bind tighter than sums: `a + b * c` reads as `a + (b * c)`
/// and `a * b + c` as `(a * b) + c`.
pub proof fn lemma_product_binds_tighter(ts: Seq<TokenView>, pos: int)
    requires
        0 <= pos,
        pos + 5 < ts.len(),
        is_atom(ts[pos]),
        is_atom(ts[pos + 2]),
        is_atom(ts[pos + 4]),
        !is_additive(ts[pos + 5].kind),
        !is_multiplicative(ts[pos + 5].kind),
    ensures
        is_additive(ts[pos + 1].kind) && is_multiplicative(ts[pos + 3].kind) ==> parse_arithmetic(
            ts,
            pos,
        ) == Ok::<(Node, int), (Seq<char>, int)>(
            (
                bin(
                    ts[pos + 1].text,
                    atom_node(ts[pos]),
                    bin(ts[pos + 3].text, atom_node(ts[pos + 2]), atom_node(ts[pos + 4])),
                ),
                pos + 5,
            ),
        ),
        is_multiplicative(ts[pos + 1].kind) && is_additive(ts[pos + 3].kind) ==> parse_arithmetic(
            ts,
            pos,
        ) == Ok::<(Node, int), (Seq<char>, int)>(
            (
                bin(
                    ts[pos + 3].text,
                    bin(ts[pos + 1].text, atom_node(ts[pos]), atom_node(ts[pos + 2])),
                    atom_node(ts[pos + 4]),
                ),
                pos + 5,
            ),
        ),
{
    let a = atom_node(ts[pos]);
    let b = atom_node(ts[pos + 2]);
    let c = atom_node(ts[pos + 4]);
    assert(tok_at(ts, pos) == ts[pos]);
    assert(tok_at(ts, pos + 1) == ts[pos + 1]);
    assert(tok_at(ts, pos + 2) == ts[pos + 2]);
    assert(tok_at(ts, pos + 3) == ts[pos + 3]);
    assert(tok_at(ts, pos + 4) == ts[pos + 4]);
    if is_additive(ts[pos + 1].kind) && is_multiplicative(ts[pos + 3].kind) {
        let bc = bin(ts[pos + 3].text, b, c);
        let abc = bin(ts[pos + 1].text, a, bc);
        lemma_atom_reads(ts, pos);
        lemma_rests_stop(ts, pos + 5, bc);
        lemma_rests_stop(ts, pos + 5, abc);
        assert(parse_term_rest(ts, pos + 3, b) == Ok::<(Node, int), (Seq<char>, int)>((bc, pos + 5)));
        assert(parse_term(ts, pos + 2) == Ok::<(Node, int), (Seq<char>, int)>((bc, pos + 5)));
        assert(parse_arithmetic_rest(ts, pos + 1, a) == Ok::<(Node, int), (Seq<char>, int)>(
            (abc, pos + 5),
        ));
    }
    if is_multiplicative(ts[pos + 1].kind) && is_additive(ts[pos + 3].kind) {
        let ab = bin(ts[pos + 1].text, a, b);
        let abc = bin(ts[pos + 3].text, ab, c);
        lemma_atom_reads(ts, pos + 2);
        lemma_atom_reads(ts, pos + 4);
        lemma_rests_stop(ts, pos + 3, ab);
        lemma_rests_stop(ts, pos + 5, abc);
        assert(parse_term_rest(ts, pos + 1, a) == Ok::<(Node, int), (Seq<char>, int)>((ab, pos + 3)));
        assert(parse_term(ts, pos) == Ok::<(Node, int), (Seq<char>, int)>((ab, pos + 3)));
        assert(parse_arithmetic_rest(ts, pos + 3, ab) == Ok::<(Node, int), (Seq<char>, int)>(
            (abc, pos + 5),
        ));
    }
}

/// Law: parentheses make a factor of what they hold: `( a + b ) * c` reads as
/// `(a + b) * c`.
pub proof fn lemma_parentheses_group(ts: Seq<TokenView>, pos: int)
    requires
        0 <= pos,
        pos + 7 < ts.len(),
        ts[pos].kind == TokenType::LParen,
        is_atom(ts[pos + 1]),
        is_additive(ts[pos + 2].kind),
        is_atom(ts[pos + 3]),
        ts[pos + 4].kind == TokenType::RParen,
        is_multiplicative(ts[pos + 5].kind),
        is_atom(ts[pos + 6]),
        !is_additive(ts[pos + 7].kind),
        !is_multiplicative(ts[pos + 7].kind),
    ensures
        parse_arithmetic(ts, pos) == Ok::<(Node, int), (Seq<char>, int)>(
            (
                bin(
                    ts[pos + 5].text,
                    bin(ts[pos + 2].text, atom_node(ts[pos + 1]), atom_node(ts[pos + 3])),
                    atom_node(ts[pos + 6]),
                ),
                pos + 7,
            ),
        ),
{
    let a = atom_node(ts[pos + 1]);
    let b = atom_node(ts[pos + 3]);
    let c = atom_node(ts[pos + 6]);
    let ab = bin(ts[pos + 2].text, a, b);
    let abc = bin(ts[pos + 5].text, ab, c);
    lemma_atom_reads(ts, pos + 1);
    lemma_atom_reads(ts, pos + 3);
    assert(tok_at(ts, pos) == ts[pos]);
    assert(tok_at(ts, pos + 2) == ts[pos + 2]);
    assert(tok_at(ts, pos + 4) == ts[pos + 4]);
    assert(tok_at(ts, pos + 5) == ts[pos + 5]);
    assert(tok_at(ts, pos + 6) == ts[pos + 6]);
    lemma_rests_stop(ts, pos + 4, ab);
    lemma_rests_stop(ts, pos + 7, abc);
    assert(parse_arithmetic_rest(ts, pos + 2, a) == Ok::<(Node, int), (Seq<char>, int)>((ab, pos + 4)));
    assert(parse_arithmetic(ts, pos + 1) == Ok::<(Node, int), (Seq<char>, int)>((ab, pos + 4)));
    assert(parse_comparison(ts, pos + 1) == Ok::<(Node, int), (Seq<char>, int)>((ab, pos + 4)));
    assert(parse_expression(ts, pos + 1) == Ok::<(Node, int), (Seq<char>, int)>((ab, pos + 4)));
    assert(parse_factor(ts, pos) == Ok::<(Node, int), (Seq<char>, int)>((ab, pos + 5)));
    assert(parse_factor(ts, pos + 6) == Ok::<(Node, int), (Seq<char>, int)>((c, pos + 7)));
    assert(parse_term_rest(ts, pos + 5, ab) == Ok::<(Node, int), (Seq<char>, int)>((abc, pos + 7)));
    assert(parse_term(ts, pos) == Ok::<(Node, int), (Seq<char>, int)>((abc, pos + 7)));
}

proof fn lemma_atom_expression(ts: Seq<TokenView>, pos: int)
    requires
        0 <= pos,
        pos + 1 < ts.len(),
        is_atom(ts[pos]),
        !is_multiplicative(ts[pos + 1].kind),
        !is_additive(ts[pos + 1].kind),
        !is_comparison(ts[pos + 1].kind),
    ensures
        parse_expression(ts, pos) == Ok::<(Node, int), (Seq<char>, int)>((atom_node(ts[pos]), pos + 1)),
{
    lemma_atom_reads(ts, pos);
    lemma_rests_stop(ts, pos + 1, atom_node(ts[pos]));
    assert(tok_at(ts, pos + 1) == ts[pos + 1]);
}

/// The assignment of `e` to `v`.
pub open spec fn assign(v: Seq<char>, e: Node) -> Node {
    Node::Assignment(v, Box::new(e))
}

/// Law: `v = e ;` reads as the assignment of the expression read after `=`;
/// without the `;` it is the error for a missing `;` at the line of the token
/// found instead.
pub proof fn lemma_assignment_reads(ts: Seq<TokenView>, pos: int)
    requires
        0 <= pos,
        pos + 2 < ts.len(),
        ts[pos].kind == TokenType::Identifier,
        ts[pos + 1].kind == TokenType::Assign,
    ensures
        parse_expression(ts, pos + 2) matches Ok((e, p)) ==> parse_statement(ts, pos) == if tok_at(
            ts,
            p,
        ).kind == TokenType::Semicolon {
            Ok::<(Node, int), (Seq<char>, int)>((assign(ts[pos].text, e), next_pos(ts, p)))
        } else {
            Err::<(Node, int), (Seq<char>, int)>(
                (syntax_error("esperaba ';'"@, tok_at(ts, p).line), p),
            )
        },
        parse_expression(ts, pos + 2) matches Err(x) ==> parse_statement(ts, pos) == Err::<
            (Node, int),
            (Seq<char>, int),
        >(x),
{
    assert(tok_at(ts, pos) == ts[pos]);
    assert(tok_at(ts, pos + 1) == ts[pos + 1]);
    assert(next_pos(ts, pos) == pos + 1);
    assert(next_pos(ts, pos + 1) == pos + 2);
}

/// Law: statements are read one after another, each in its place, up to the
/// end of input: `v = a ; w = b ;` followed by the end-of-input token reads as
/// the two assignments in that order.
pub proof fn lemma_two_assignments(ts: Seq<TokenView>)
    requires
        ts.len() == 9,
        ts[0].kind == TokenType::Identifier,
        ts[1].kind == TokenType::Assign,
        is_atom(ts[2]),
        ts[3].kind == TokenType::Semicolon,
        ts[4].kind == TokenType::Identifier,
        ts[5].kind == TokenType::Assign,
        is_atom(ts[6]),
        ts[7].kind == TokenType::Semicolon,
        ts[8].kind == TokenType::Eof,
    ensures
        parse_program(ts, 0, Seq::empty()) == Ok::<(Seq<Node>, int), (Seq<char>, int)>(
            (
                seq![assign(ts[0].text, atom_node(ts[2])), assign(ts[4].text, atom_node(ts[6]))],
                8,
            ),
        ),
{
    lemma_atom_expression(ts, 2);
    lemma_atom_expression(ts, 6);
    lemma_assignment_reads(ts, 0);
    lemma_assignment_reads(ts, 4);
    assert(tok_at(ts, 3) == ts[3]);
    assert(tok_at(ts, 7) == ts[7]);
    assert(tok_at(ts, 0) == ts[0]);
    assert(tok_at(ts, 4) == ts[4]);
    assert(tok_at(ts, 8) == ts[8]);
    let s1 = assign(ts[0].text, atom_node(ts[2]));
    let s2 = assign(ts[4].text, atom_node(ts[6]));
    assert(parse_statement(ts, 0) == Ok::<(Node, int), (Seq<char>, int)>((s1, 4)));
    assert(parse_statement(ts, 4) == Ok::<(Node, int), (Seq<char>, int)>((s2, 8)));
    assert(Seq::<Node>::empty().push(s1) =~= seq![s1]);
    assert(seq![s1].push(s2) =~= seq![s1, s2]);
    assert(parse_program(ts, 8, seq![s1, s2]) == Ok::<(Seq<Node>, int), (Seq<char>, int)>(
        (seq![s1, s2], 8),
    ));
    assert(parse_program(ts, 4, seq![s1]) == parse_program(ts, 8, seq![s1, s2]));
    assert(parse_program(ts, 0, Seq::empty()) == parse_program(ts, 4, seq![s1]));
}

/// Law: `print ( a ) ;` reads as the print of `a`.
pub proof fn lemma_print_reads(ts: Seq<TokenView>, pos: int)
    requires
        0 <= pos,
        pos + 5 < ts.len(),
        ts[pos].kind == TokenType::Print,
        ts[pos + 1].kind == TokenType::LParen,
        is_atom(ts[pos + 2]),
        ts[pos + 3].kind == TokenType::RParen,
        ts[pos + 4].kind == TokenType::Semicolon,
    ensures
        parse_statement(ts, pos) == Ok::<(Node, int), (Seq<char>, int)>(
            (Node::Print(Box::new(atom_node(ts[pos + 2]))), pos + 5),
        ),
{
    lemma_atom_expression(ts, pos + 2);
    assert(tok_at(ts, pos) == ts[pos]);
    assert(tok_at(ts, pos + 1) == ts[pos + 1]);
    assert(tok_at(ts, pos + 3) == ts[pos + 3]);
    assert(tok_at(ts, pos + 4) == ts[pos + 4]);
}

/// Law: `if ( a ) { v = b ; } else { w = c ; }` reads as the if with
/// condition `a`, then-branch `v = b` and else-branch `w = c`; without the
/// `else` part it has no else-branch.
pub proof fn lemma_if_reads(ts: Seq<TokenView>, pos: int)
    requires
        0 <= pos,
        pos + 17 < ts.len(),
        ts[pos].kind == TokenType::If,
        ts[pos + 1].kind == TokenType::LParen,
        is_atom(ts[pos + 2]),
        ts[pos + 3].kind == TokenType::RParen,
        ts[pos + 4].kind == TokenType::LBrace,
        ts[pos + 5].kind == TokenType::Identifier,
        ts[pos + 6].kind == TokenType::Assign,
        is_atom(ts[pos + 7]),
        ts[pos + 8].kind == TokenType::Semicolon,
        ts[pos + 9].kind == TokenType::RBrace,
    ensures
        ts[pos + 10].kind != TokenType::Else ==> parse_statement(ts, pos) == Ok::<
            (Node, int),
            (Seq<char>, int),
        >(
            (
                Node::If(
                    Box::new(atom_node(ts[pos + 2])),
                    seq![assign(ts[pos + 5].text, atom_node(ts[pos + 7]))],
                    None,
                ),
                pos + 10,
            ),
        ),
        ts[pos + 10].kind == TokenType::Else && ts[pos + 11].kind == TokenType::LBrace && ts[pos
            + 12].kind == TokenType::Identifier && ts[pos + 13].kind == TokenType::Assign
            && is_atom(ts[pos + 14]) && ts[pos + 15].kind == TokenType::Semicolon && ts[pos
            + 16].kind == TokenType::RBrace ==> parse_statement(ts, pos) == Ok::<
            (Node, int),
            (Seq<char>, int),
        >(
            (
                Node::If(
                    Box::new(atom_node(ts[pos + 2])),
                    seq![assign(ts[pos + 5].text, atom_node(ts[pos + 7]))],
                    Some(seq![assign(ts[pos + 12].text, atom_node(ts[pos + 14]))]),
                ),
                pos + 17,
            ),
        ),
{
    let th = seq![assign(ts[pos + 5].text, atom_node(ts[pos + 7]))];
    lemma_atom_expression(ts, pos + 2);
    lemma_atom_expression(ts, pos + 7);
    lemma_assignment_reads(ts, pos + 5);
    assert(tok_at(ts, pos) == ts[pos]);
    assert(tok_at(ts, pos + 1) == ts[pos + 1]);
    assert(tok_at(ts, pos + 3) == ts[pos + 3]);
    assert(tok_at(ts, pos + 4) == ts[pos + 4]);
    assert(tok_at(ts, pos + 5) == ts[pos + 5]);
    assert(tok_at(ts, pos + 8) == ts[pos + 8]);
    assert(tok_at(ts, pos + 9) == ts[pos + 9]);
    assert(tok_at(ts, pos + 10) == ts[pos + 10]);
    assert(Seq::<Node>::empty().push(th[0]) =~= th);
    assert(parse_block_items(ts, pos + 9, th) == Ok::<(Seq<Node>, int), (Seq<char>, int)>(
        (th, pos + 10),
    ));
    assert(parse_block_items(ts, pos + 5, Seq::empty()) == Ok::<(Seq<Node>, int), (Seq<char>, int)>(
        (th, pos + 10),
    ));
    assert(parse_block(ts, pos + 4) == Ok::<(Seq<Node>, int), (Seq<char>, int)>((th, pos + 10)));
    if ts[pos + 10].kind == TokenType::Else && ts[pos + 11].kind == TokenType::LBrace && ts[pos
        + 12].kind == TokenType::Identifier && ts[pos + 13].kind == TokenType::Assign && is_atom(
        ts[pos + 14],
    ) && ts[pos + 15].kind == TokenType::Semicolon && ts[pos + 16].kind == TokenType::RBrace {
        let el = seq![assign(ts[pos + 12].text, atom_node(ts[pos + 14]))];
        lemma_atom_expression(ts, pos + 14);
        lemma_assignment_reads(ts, pos + 12);
        assert(tok_at(ts, pos + 11) == ts[pos + 11]);
        assert(tok_at(ts, pos + 12) == ts[pos + 12]);
        assert(tok_at(ts, pos + 15) == ts[pos + 15]);
        assert(tok_at(ts, pos + 16) == ts[pos + 16]);
        assert(Seq::<Node>::empty().push(el[0]) =~= el);
        assert(parse_block_items(ts, pos + 16, el) == Ok::<(Seq<Node>, int), (Seq<char>, int)>(
            (el, pos + 17),
        ));
        assert(parse_block_items(ts, pos + 12, Seq::empty()) == Ok::<
            (Seq<Node>, int),
            (Seq<char>, int),
        >((el, pos + 17)));
        assert(parse_block(ts, pos + 11) == Ok::<(Seq<Node>, int), (Seq<char>, int)>((el, pos + 17)));
    }
}

} // verus!
