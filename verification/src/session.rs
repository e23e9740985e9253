//! An interactive session: each line the user enters is compiled against
//! what the earlier lines defined, and the whole program is generated anew.
use vstd::prelude::*;
use crate::ast::{ASTNode, Node, block_view, lemma_block_view_concat};
use crate::codegen::{CodeGenerator, GenState, block_labels, block_temps, code_size, gen_block, gen_start};
use crate::lexer::{Lexer, TokenView, lemma_lex_ends_with_eof, lex_from, skip_whitespace_from, tokens_view};
use crate::parser::{Parser, lemma_parse_ends, parse_program};
use crate::semantic::{SemanticAnalyzer, block_assigns, check_block, lemma_check_block_defines, unit_outcome};
use crate::text::{char_is_whitespace, chars_of, is_whitespace, push_char, text_is};
use crate::laws::{
    lemma_checked_block_valid, lemma_program_runs, lemma_valid_block_concat,
    lemma_valid_block_ops_known, valid_block,
};
use crate::codegen::next_pc_of;

verus! {

/// The end of `s[..j]` once trailing whitespace is removed.
pub open spec fn trim_end_from(s: Seq<char>, j: int) -> int
    decreases j,
{
    if 0 < j <= s.len() && char_is_whitespace(s[j - 1]) {
        trim_end_from(s, j - 1)
    } else {
        j
    }
}

/// `s` without its leading and trailing whitespace.
pub open spec fn trimmed(s: Seq<char>) -> Seq<char> {
    let i: int = skip_whitespace_from(s, 0);
    if i >= s.len() {
        Seq::empty()
    } else {
        s.subrange(i, trim_end_from(s, s.len() as int))
    }
}

/// `s` without its leading and trailing whitespace, as `str::trim` gives it.
pub(crate) fn trim(s: &str) -> (r: String)
    ensures
        r@ == trimmed(s@),
{
    let cs = chars_of(&s.to_owned());
    let n = cs.len();
    let mut i: usize = 0;
    while i < n && is_whitespace(cs[i])
        invariant
            cs@ == s@,
            n == cs@.len(),
            i <= n,
            skip_whitespace_from(s@, 0) == skip_whitespace_from(s@, i as int),
        decreases n - i,
    {
        i += 1;
    }
    let mut out = String::new();
    if i < n {
        let mut j: usize = n;
        while is_whitespace(cs[j - 1])
            invariant
                cs@ == s@,
                n == cs@.len(),
                i < j <= n,
                !char_is_whitespace(s@[i as int]),
                trim_end_from(s@, n as int) == trim_end_from(s@, j as int),
            decreases j,
        {
            j -= 1;
        }
        let mut k: usize = i;
        while k < j
            invariant
                cs@ == s@,
                n == cs@.len(),
                i <= k <= j <= n,
                out@ == s@.subrange(i as int, k as int),
            decreases j - k,
        {
            push_char(&mut out, cs[k]);
            assert(s@.subrange(i as int, k + 1) =~= s@.subrange(i as int, k as int).push(s@[k as int]));
            k += 1;
        }
    }
    out
}

/// The session commands, which start with a colon.
#[derive(Debug, Clone, Copy, PartialEq, Eq, Structural)]
pub enum Command {
    Help,
    Vars,
    Clear,
    Exit,
    /// Any other text after a colon, which is passed over.
    Other,
}

pub open spec fn command_of(c: Seq<char>) -> Command {
    if c == ":help"@ || c == ":h"@ {
        Command::Help
    } else if c == ":vars"@ || c == ":v"@ {
        Command::Vars
    } else if c == ":clear"@ || c == ":c"@ {
        Command::Clear
    } else if c == ":exit"@ || c == ":quit"@ || c == ":q"@ {
        Command::Exit
    } else {
        Command::Other
    }
}

/// What an input line is.
#[derive(Debug, Clone, Copy, PartialEq, Eq, Structural)]
pub enum LineKind {
    /// Nothing but whitespace.
    Blank,
    /// A command.
    Command(Command),
    /// Code that ends with neither `;` nor `}`.
    Incomplete,
    /// Code to compile.
    Code,
}

pub open spec fn line_kind(line: Seq<char>) -> LineKind {
    let t = trimmed(line);
    if t.len() > 0 && t[0] == ':' {
        LineKind::Command(command_of(t))
    } else if t.len() == 0 {
        LineKind::Blank
    } else if t.last() != ';' && t.last() != '}' {
        LineKind::Incomplete
    } else {
        LineKind::Code
    }
}

/// What the line `line` asks for.
pub fn classify_line(line: &str) -> (k: LineKind)
    ensures
        k == line_kind(line@),
{
    let trimmed_line = trim(line);
    let t = trimmed_line.as_str();
    let n: usize = t.unicode_len();
    if n > 0 && t.get_char(0) == ':' {
        let c = String::from_str(t);
        let cmd = if text_is(&c, ":help") || text_is(&c, ":h") {
            Command::Help
        } else if text_is(&c, ":vars") || text_is(&c, ":v") {
            Command::Vars
        } else if text_is(&c, ":clear") || text_is(&c, ":c") {
            Command::Clear
        } else if text_is(&c, ":exit") || text_is(&c, ":quit") || text_is(&c, ":q") {
            Command::Exit
        } else {
            Command::Other
        };
        LineKind::Command(cmd)
    } else if n == 0 {
        LineKind::Blank
    } else {
        let last = t.get_char(n - 1);
        if last != ';' && last != '}' {
            LineKind::Incomplete
        } else {
            LineKind::Code
        }
    }
}

pub open spec fn too_large_error() -> Seq<char> {
    "Error: programa demasiado grande"@
}

/// Compiling `line` in a session whose symbol types are `tab` and whose
/// program is `prog`: the symbol types and program afterwards, and the first
/// error. A line that fails to lex or parse changes nothing; one that fails
/// the checks keeps the definitions made before the error; one that passes is
/// added to the program.
pub open spec fn compile_line(tab: Map<Seq<char>, Seq<char>>, prog: Seq<Node>, line: Seq<char>) -> (
    Map<Seq<char>, Seq<char>>,
    Seq<Node>,
    Result<(), Seq<char>>,
) {
    match lex_from(line, 0) {
        Err((m, _)) => (tab, prog, Err(m)),
        Ok(ts) => match parse_program(ts, 0, Seq::empty()) {
            Err((m, _)) => (tab, prog, Err(m)),
            Ok((stmts, _)) => {
                let (t1, r) = check_block(tab, stmts);
                match r {
                    Err(m) => (t1, prog, Err(m)),
                    Ok(()) => {
                        let all = prog + stmts;
                        if block_temps(all) > usize::MAX || block_labels(all) > usize::MAX {
                            (t1, prog, Err(too_large_error()))
                        } else {
                            (t1, all, Ok(()))
                        }
                    },
                }
            },
        },
    }
}

/// Law: a line that compiles adds every statement parsed from it, in order,
/// after the program so far; a line that fails leaves the program as it was.
pub proof fn lemma_compile_line_program(
    tab: Map<Seq<char>, Seq<char>>,
    prog: Seq<Node>,
    line: Seq<char>,
)
    ensures
        compile_line(tab, prog, line).2 is Ok ==> (lex_from(line, 0) matches Ok(ts) && parse_program(
            ts,
            0,
            Seq::empty(),
        ) matches Ok((stmts, _)) && compile_line(tab, prog, line).1 == prog + stmts
            && compile_line(tab, prog, line).1.len() == prog.len() + stmts.len()),
        compile_line(tab, prog, line).2 is Err ==> compile_line(tab, prog, line).1 == prog,
{
}

/// A session: the symbol table, every statement accepted so far, and the
/// code generated for them.
pub struct Session {
    semantic: SemanticAnalyzer,
    codegen: CodeGenerator,
    statements: Vec<ASTNode>,
}

impl Session {
    /// The symbol types.
    pub closed spec fn symbols(&self) -> Map<Seq<char>, Seq<char>> {
        self.semantic@
    }

    /// The statements accepted so far.
    pub closed spec fn program(&self) -> Seq<Node> {
        block_view(self.statements@)
    }

    /// The code generated.
    pub closed spec fn code(&self) -> GenState {
        self.codegen@
    }

    /// The analyzer is well formed and the code is that of the whole program.
    pub closed spec fn wf(&self) -> bool {
        &&& self.semantic.wf()
        &&& self.codegen@ == gen_block(block_view(self.statements@), gen_start())
        &&& valid_block(block_view(self.statements@))
    }

    pub fn new() -> (s: Self)
        ensures
            s.wf(),
            s.symbols() == Map::<Seq<char>, Seq<char>>::empty(),
            s.program() == Seq::<Node>::empty(),
    {
        let s = Session { semantic: SemanticAnalyzer::new(), codegen: CodeGenerator::new(), statements: Vec::new() };
        assert(block_view(s.statements@) =~= Seq::<Node>::empty());
        assert(valid_block(block_view(s.statements@)));
        s
    }

    /// Forgets every variable and statement.
    pub fn clear(&mut self)
        ensures
            final(self).wf(),
            final(self).symbols() == Map::<Seq<char>, Seq<char>>::empty(),
            final(self).program() == Seq::<Node>::empty(),
    {
        *self = Session::new();
    }

    /// The analyzer, whose table lists the variables.
    pub fn semantic(&self) -> (a: &SemanticAnalyzer)
        requires
            self.wf(),
        ensures
            a.wf(),
            a@ == self.symbols(),
    {
        &self.semantic
    }

    /// The generator, which holds the code of the whole program.
    pub fn codegen(&self) -> (g: &CodeGenerator)
        requires
            self.wf(),
        ensures
            g@ == gen_block(self.program(), gen_start()),
    {
        &self.codegen
    }

    /// Compiles `line`: lexes, parses and checks it, adds its statements to
    /// the program and generates the code of the whole program.
    pub fn compile(&mut self, line: String) -> (r: Result<(), String>)
        requires
            old(self).wf(),
            line@.len() < usize::MAX,
        ensures
            final(self).wf(),
            (final(self).symbols(), final(self).program(), unit_outcome(r)) == compile_line(
                old(self).symbols(),
                old(self).program(),
                line@,
            ),
            r is Ok ==> (lex_from(line@, 0) matches Ok(ts) && parse_program(ts, 0, Seq::empty())
                matches Ok((stmts, _)) && final(self).program() == old(self).program() + stmts),
            r is Err ==> final(self).program() == old(self).program(),
            r is Ok ==> (lex_from(line@, 0) matches Ok(ts) && parse_program(ts, 0, Seq::empty())
                matches Ok((stmts, _)) && final(self).symbols().dom() == old(self).symbols().dom()
                + block_assigns(stmts)),
            final(self).code() == gen_block(final(self).program(), gen_start()),
    {
        proof {
            lemma_compile_line_program(old(self).symbols(), old(self).program(), line@);
            if let Ok(ts) = lex_from(line@, 0) {
                if let Ok((stmts, _)) = parse_program(ts, 0, Seq::empty()) {
                    lemma_check_block_defines(old(self).symbols(), stmts);
                }
            }
        }
        let ghost src = line@;
        let mut lexer = Lexer::new(line);
        let tokens = match lexer.tokenize() {
            Ok(t) => t,
            Err(e) => return Err(e),
        };
        proof {
            lemma_lex_ends_with_eof(src, 0);
            let ts = tokens_view(tokens@);
            assert(ts[ts.len() - 1].kind == crate::lexer::TokenType::Eof);
            lemma_parse_ends(ts, 0, Seq::empty());
        }
        let mut parser = Parser::new(tokens);
        let mut statements = match parser.parse() {
            Ok(s) => s,
            Err(e) => return Err(e),
        };
        let ghost tab = self.semantic@;
        match self.semantic.analyze(statements.as_slice()) {
            Ok(()) => {},
            Err(e) => return Err(e),
        }
        proof {
            lemma_checked_block_valid(tab, block_view(statements@));
            lemma_valid_block_concat(block_view(self.statements@), block_view(statements@));
        }
        let ghost before = self.statements@;
        let old_len: usize = self.statements.len();
        let ghost added = statements@;
        self.statements.append(&mut statements);
        proof {
            lemma_block_view_concat(before, added);
        }
        match code_size(self.statements.as_slice()) {
            Some(_) => {},
            None => {
                self.statements.truncate(old_len);
                assert(self.statements@ =~= before);
                return Err(String::from_str("Error: programa demasiado grande"));
            },
        }
        self.codegen.generate(self.statements.as_slice());
        Ok(())
    }
}

/// Law: the code of a session never stops on an unknown operation or a
/// missing label, whatever values it computes: every statement in it passed
/// the checks. Every step goes forward, so running it ends.
pub proof fn lemma_session_code_runs(s: Session)
    requires
        s.wf(),
    ensures
        forall|pc: int, operand_is_zero: bool|
            0 <= pc < s.code().code.len() ==> (#[trigger] next_pc_of(
                s.code().code,
                pc,
                operand_is_zero,
            ) matches Ok(n) && pc < n <= s.code().code.len()),
{
    lemma_valid_block_ops_known(s.program());
    lemma_program_runs(s.program());
}

} // verus!
