//! The lexer: turns source text into tokens with their line and column.
use vstd::prelude::*;
use crate::text::{
    char_is_alphabetic, char_is_numeric, char_is_whitespace, chars_of, decimal, is_alphabetic,
    is_alphanumeric, is_numeric, is_whitespace, push_char, push_decimal, text_is,
};

verus! {

/// The kinds of token the language has.
#[derive(Debug, Clone, Copy, PartialEq, Eq, Structural)]
pub enum TokenType {
    Number,
    Identifier,
    Plus,
    Minus,
    Multiply,
    Divide,
    Equal,
    NotEqual,
    Less,
    Greater,
    LessEqual,
    GreaterEqual,
    Assign,
    LParen,
    RParen,
    LBrace,
    RBrace,
    Semicolon,
    Print,
    If,
    Else,
    Eof,
}

/// A token: its kind, the source text it was read from, and where it stands.
#[derive(Debug, Clone)]
pub struct Token {
    pub token_type: TokenType,
    pub lexeme: String,
    pub line: usize,
    pub column: usize,
}

/// The mathematical value of a token.
pub struct TokenView {
    pub kind: TokenType,
    pub text: Seq<char>,
    pub line: nat,
    pub column: nat,
}

impl View for Token {
    type V = TokenView;

    open spec fn view(&self) -> TokenView {
        TokenView {
            kind: self.token_type,
            text: self.lexeme@,
            line: self.line as nat,
            column: self.column as nat,
        }
    }
}

/// The values of a sequence of tokens.
pub open spec fn tokens_view(ts: Seq<Token>) -> Seq<TokenView> {
    ts.map_values(|t: Token| t@)
}

/// The name that `{:?}` prints for a token kind.
pub open spec fn kind_name(k: TokenType) -> Seq<char> {
    match k {
        TokenType::Number => "Number"@,
        TokenType::Identifier => "Identifier"@,
        TokenType::Plus => "Plus"@,
        TokenType::Minus => "Minus"@,
        TokenType::Multiply => "Multiply"@,
        TokenType::Divide => "Divide"@,
        TokenType::Equal => "Equal"@,
        TokenType::NotEqual => "NotEqual"@,
        TokenType::Less => "Less"@,
        TokenType::Greater => "Greater"@,
        TokenType::LessEqual => "LessEqual"@,
        TokenType::GreaterEqual => "GreaterEqual"@,
        TokenType::Assign => "Assign"@,
        TokenType::LParen => "LParen"@,
        TokenType::RParen => "RParen"@,
        TokenType::LBrace => "LBrace"@,
        TokenType::RBrace => "RBrace"@,
        TokenType::Semicolon => "Semicolon"@,
        TokenType::Print => "Print"@,
        TokenType::If => "If"@,
        TokenType::Else => "Else"@,
        TokenType::Eof => "Eof"@,
    }
}

fn kind_name_str(k: TokenType) -> (s: &'static str)
    ensures
        s@ == kind_name(k),
{
    match k {
        TokenType::Number => "Number",
        TokenType::Identifier => "Identifier",
        TokenType::Plus => "Plus",
        TokenType::Minus => "Minus",
        TokenType::Multiply => "Multiply",
        TokenType::Divide => "Divide",
        TokenType::Equal => "Equal",
        TokenType::NotEqual => "NotEqual",
        TokenType::Less => "Less",
        TokenType::Greater => "Greater",
        TokenType::LessEqual => "LessEqual",
        TokenType::GreaterEqual => "GreaterEqual",
        TokenType::Assign => "Assign",
        TokenType::LParen => "LParen",
        TokenType::RParen => "RParen",
        TokenType::LBrace => "LBrace",
        TokenType::RBrace => "RBrace",
        TokenType::Semicolon => "Semicolon",
        TokenType::Print => "Print",
        TokenType::If => "If",
        TokenType::Else => "Else",
        TokenType::Eof => "Eof",
    }
}

/// How a token is shown: kind, quoted text, then `[line:column]`.
pub open spec fn token_text(t: TokenView) -> Seq<char> {
    kind_name(t.kind) + " '"@ + t.text + "' ["@ + decimal(t.line) + ":"@ + decimal(t.column) + "]"@
}

impl Token {
    pub fn new(token_type: TokenType, lexeme: String, line: usize, column: usize) -> (t: Self)
        ensures
            t.token_type == token_type,
            t.lexeme == lexeme,
            t.line == line,
            t.column == column,
    {
        Token { token_type, lexeme, line, column }
    }

    /// The text that displaying the token shows, such as `Number '42' [1:5]`.
    pub fn to_string(&self) -> (s: String)
        ensures
            s@ == token_text(self@),
    {
        let mut s = String::from_str(kind_name_str(self.token_type));
        s.append(" '");
        s.append(self.lexeme.as_str());
        s.append("' [");
        push_decimal(&mut s, self.line);
        s.append(":");
        push_decimal(&mut s, self.column);
        s.append("]");
        s
    }
}

/// The line of position `p`: one more than the newlines before it.
pub open spec fn line_at(src: Seq<char>, p: int) -> nat
    decreases p,
{
    if p <= 0 {
        1
    } else {
        line_at(src, p - 1) + if src[p - 1] == '\n' { 1nat } else { 0nat }
    }
}

/// The column of position `p`: one more than the characters since the last newline.
pub open spec fn column_at(src: Seq<char>, p: int) -> nat
    decreases p,
{
    if p <= 0 {
        1
    } else if src[p - 1] == '\n' {
        1
    } else {
        column_at(src, p - 1) + 1
    }
}

/// Characters that continue a number literal.
pub open spec fn is_number_char(c: char) -> bool {
    char_is_numeric(c) || c == '.'
}

/// Characters that begin a word (identifier or keyword).
pub open spec fn is_word_start(c: char) -> bool {
    char_is_alphabetic(c) || c == '_'
}

/// Characters that continue a word.
pub open spec fn is_word_char(c: char) -> bool {
    char_is_alphabetic(c) || char_is_numeric(c) || c == '_'
}

/// The first position at or after `p` that does not hold whitespace.
pub open spec fn skip_whitespace_from(src: Seq<char>, p: int) -> int
    decreases src.len() - p,
{
    if 0 <= p < src.len() && char_is_whitespace(src[p]) {
        skip_whitespace_from(src, p + 1)
    } else {
        p
    }
}

/// The end of the longest run of number characters starting at `p`.
pub open spec fn number_end(src: Seq<char>, p: int) -> int
    decreases src.len() - p,
{
    if 0 <= p < src.len() && is_number_char(src[p]) {
        number_end(src, p + 1)
    } else {
        p
    }
}

/// The end of the longest run of word characters starting at `p`.
pub open spec fn word_end(src: Seq<char>, p: int) -> int
    decreases src.len() - p,
{
    if 0 <= p < src.len() && is_word_char(src[p]) {
        word_end(src, p + 1)
    } else {
        p
    }
}

/// The kind of a word: one of the three keywords, or an identifier.
pub open spec fn keyword_kind(w: Seq<char>) -> TokenType {
    if w == "print"@ {
        TokenType::Print
    } else if w == "if"@ {
        TokenType::If
    } else if w == "else"@ {
        TokenType::Else
    } else {
        TokenType::Identifier
    }
}

/// The operator or delimiter at `p` with its length, if there is one.
pub open spec fn symbol_at(src: Seq<char>, p: int) -> Option<(TokenType, int)> {
    let c = src[p];
    let eq_next = p + 1 < src.len() && src[p + 1] == '=';
    if c == '+' {
        Some((TokenType::Plus, 1))
    } else if c == '-' {
        Some((TokenType::Minus, 1))
    } else if c == '*' {
        Some((TokenType::Multiply, 1))
    } else if c == '/' {
        Some((TokenType::Divide, 1))
    } else if c == '=' {
        if eq_next { Some((TokenType::Equal, 2)) } else { Some((TokenType::Assign, 1)) }
    } else if c == '!' {
        if eq_next { Some((TokenType::NotEqual, 2)) } else { None }
    } else if c == '<' {
        if eq_next { Some((TokenType::LessEqual, 2)) } else { Some((TokenType::Less, 1)) }
    } else if c == '>' {
        if eq_next { Some((TokenType::GreaterEqual, 2)) } else { Some((TokenType::Greater, 1)) }
    } else if c == '(' {
        Some((TokenType::LParen, 1))
    } else if c == ')' {
        Some((TokenType::RParen, 1))
    } else if c == '{' {
        Some((TokenType::LBrace, 1))
    } else if c == '}' {
        Some((TokenType::RBrace, 1))
    } else if c == ';' {
        Some((TokenType::Semicolon, 1))
    } else {
        None
    }
}

/// The token that starts at `p` (a non-whitespace position), as its kind and end.
pub open spec fn scan_token(src: Seq<char>, p: int) -> Option<(TokenType, int)> {
    if char_is_numeric(src[p]) {
        Some((TokenType::Number, number_end(src, p)))
    } else if is_word_start(src[p]) {
        let e: int = word_end(src, p);
        Some((keyword_kind(src.subrange(p, e)), e))
    } else {
        match symbol_at(src, p) {
            Some((k, n)) => Some((k, p + n)),
            None => None,
        }
    }
}

/// The token of kind `k` read from `src[p..e]`.
pub open spec fn token_at(src: Seq<char>, k: TokenType, p: int, e: int) -> TokenView {
    TokenView { kind: k, text: src.subrange(p, e), line: line_at(src, e), column: column_at(src, p) }
}

/// The end-of-input token at position `p`.
pub open spec fn eof_token(src: Seq<char>, p: int) -> TokenView {
    TokenView { kind: TokenType::Eof, text: Seq::empty(), line: line_at(src, p), column: column_at(src, p) }
}

/// The message for a character at `p` that starts no token.
pub open spec fn lex_error(src: Seq<char>, p: int) -> Seq<char> {
    if src[p] == '!' {
        "Error léxico: carácter '!' inesperado en línea "@ + decimal(line_at(src, p))
    } else {
        "Error léxico: carácter '"@ + seq![src[p]] + "' en línea "@ + decimal(line_at(src, p))
    }
}

/// Lexing `src` from `p`: the tokens up to and including the end-of-input
/// token, or the message and position of the first character that starts no token.
pub open spec fn lex_from(src: Seq<char>, p: int) -> Result<Seq<TokenView>, (Seq<char>, int)>
    decreases src.len() - p,
{
    let q: int = skip_whitespace_from(src, p);
    if q < 0 || q >= src.len() {
        Ok(seq![eof_token(src, q)])
    } else {
        match scan_token(src, q) {
            Some((k, e)) => {
                if p <= q && q < e && e <= src.len() {
                    match lex_from(src, e) {
                        Ok(rest) => Ok(seq![token_at(src, k, q, e)] + rest),
                        Err(x) => Err(x),
                    }
                } else {
                    // A token always has at least one character.
                    Err((Seq::empty(), q))
                }
            },
            None => Err((lex_error(src, q), q)),
        }
    }
}

/// `r` with the tokens `ts` in front of its tokens.
pub open spec fn prepend_tokens(
    ts: Seq<TokenView>,
    r: Result<Seq<TokenView>, (Seq<char>, int)>,
) -> Result<Seq<TokenView>, (Seq<char>, int)> {
    match r {
        Ok(rest) => Ok(ts + rest),
        Err(x) => Err(x),
    }
}

pub proof fn lemma_line_column_bound(src: Seq<char>, p: int)
    requires
        0 <= p,
    ensures
        line_at(src, p) <= p + 1,
        column_at(src, p) <= p + 1,
    decreases p,
{
    if p > 0 {
        lemma_line_column_bound(src, p - 1);
    }
}

proof fn lemma_scan_end(src: Seq<char>, p: int)
    requires
        0 <= p,
    ensures
        p <= number_end(src, p) <= if p <= src.len() { src.len() as int } else { p },
        p <= word_end(src, p) <= if p <= src.len() { src.len() as int } else { p },
        p <= skip_whitespace_from(src, p) <= if p <= src.len() { src.len() as int } else { p },
    decreases src.len() - p,
{
    if 0 <= p < src.len() {
        lemma_scan_end(src, p + 1);
    }
}

proof fn lemma_prepend_assoc(
    a: Seq<TokenView>,
    b: Seq<TokenView>,
    r: Result<Seq<TokenView>, (Seq<char>, int)>,
)
    ensures
        prepend_tokens(a + b, r) == prepend_tokens(a, prepend_tokens(b, r)),
{
    if let Ok(rest) = r {
        assert((a + b) + rest =~= a + (b + rest));
    }
}

/// Law: lexing succeeds with a sequence that ends with the end-of-input token,
/// and that token occurs nowhere else in it.
pub proof fn lemma_lex_ends_with_eof(src: Seq<char>, p: int)
    ensures
        lex_from(src, p) matches Ok(ts) ==> {
            &&& ts.len() >= 1
            &&& ts.last().kind == TokenType::Eof
            &&& forall|i: int| 0 <= i < ts.len() - 1 ==> (#[trigger] ts[i]).kind != TokenType::Eof
        },
    decreases src.len() - p,
{
    let q: int = skip_whitespace_from(src, p);
    if 0 <= q < src.len() {
        if let Some((k, e)) = scan_token(src, q) {
            if p <= q && q < e && e <= src.len() {
                lemma_lex_ends_with_eof(src, e);
                if let Ok(rest) = lex_from(src, e) {
                    let ts = seq![token_at(src, k, q, e)] + rest;
                    assert(k != TokenType::Eof);
                    assert forall|i: int| 0 <= i < ts.len() - 1 implies (#[trigger] ts[i]).kind
                        != TokenType::Eof by {
                        if i > 0 {
                            assert(ts[i] == rest[i - 1]);
                        }
                    }
                }
            }
        }
    }
}

/// Every character of `s` is whitespace.
pub open spec fn all_whitespace(s: Seq<char>) -> bool {
    forall|i: int| 0 <= i < s.len() ==> char_is_whitespace(#[trigger] s[i])
}

/// The gaps and the token texts interleaved: `gaps[0] + texts[0] + gaps[1] + ...`.
pub open spec fn interleave(gaps: Seq<Seq<char>>, ts: Seq<TokenView>) -> Seq<char>
    decreases ts.len(),
{
    if ts.len() == 0 || gaps.len() == 0 {
        Seq::empty()
    } else {
        gaps[0] + ts[0].text + interleave(gaps.drop_first(), ts.drop_first())
    }
}

proof fn lemma_skip_whitespace_gap(src: Seq<char>, p: int)
    requires
        0 <= p <= src.len(),
    ensures
        p <= skip_whitespace_from(src, p) <= src.len(),
        all_whitespace(src.subrange(p, skip_whitespace_from(src, p))),
    decreases src.len() - p,
{
    if p < src.len() && char_is_whitespace(src[p]) {
        lemma_skip_whitespace_gap(src, p + 1);
        let q = skip_whitespace_from(src, p);
        assert forall|i: int| 0 <= i < q - p implies char_is_whitespace(
            #[trigger] src.subrange(p, q)[i],
        ) by {
            if i > 0 {
                assert(src.subrange(p, q)[i] == src.subrange(p + 1, q)[i - 1]);
            }
        }
    }
}

proof fn lemma_lex_layout(src: Seq<char>, p: int) -> (gaps: Seq<Seq<char>>)
    requires
        0 <= p <= src.len(),
        lex_from(src, p) is Ok,
    ensures
        gaps.len() == lex_from(src, p)->Ok_0.len(),
        forall|i: int| 0 <= i < gaps.len() ==> all_whitespace(#[trigger] gaps[i]),
        interleave(gaps, lex_from(src, p)->Ok_0) == src.skip(p),
    decreases src.len() - p,
{
    lemma_skip_whitespace_gap(src, p);
    let q: int = skip_whitespace_from(src, p);
    let gap = src.subrange(p, q);
    let ts = lex_from(src, p)->Ok_0;
    if q >= src.len() {
        let gaps = seq![gap];
        assert(ts == seq![eof_token(src, q)]);
        assert(ts[0].text == Seq::<char>::empty());
        assert(ts.drop_first().len() == 0);
        assert(interleave(gaps.drop_first(), ts.drop_first()) == Seq::<char>::empty());
        assert(gap =~= src.skip(p));
        assert(interleave(gaps, ts) =~= src.skip(p));
        gaps
    } else {
        let (k, e) = scan_token(src, q)->Some_0;
        let rest_gaps = lemma_lex_layout(src, e);
        let rest = lex_from(src, e)->Ok_0;
        let gaps = seq![gap] + rest_gaps;
        assert(ts == seq![token_at(src, k, q, e)] + rest);
        assert(ts.drop_first() =~= rest);
        assert(gaps.drop_first() =~= rest_gaps);
        assert(src.skip(p) =~= gap + src.subrange(q, e) + src.skip(e));
        assert forall|i: int| 0 <= i < gaps.len() implies all_whitespace(#[trigger] gaps[i]) by {
            if i > 0 {
                assert(gaps[i] == rest_gaps[i - 1]);
            }
        }
        gaps
    }
}

/// Law: lexing drops nothing but whitespace: the source from `p` is the
/// token texts, in order, with runs of whitespace before each.
pub proof fn lemma_lex_keeps_all_but_whitespace(src: Seq<char>, p: int)
    requires
        0 <= p <= src.len(),
    ensures
        lex_from(src, p) matches Ok(ts) ==> exists|gaps: Seq<Seq<char>>|
            gaps.len() == ts.len() && (forall|i: int| 0 <= i < gaps.len() ==> all_whitespace(
                #[trigger] gaps[i],
            )) && interleave(gaps, ts) == src.skip(p),
{
    if lex_from(src, p) is Ok {
        let gaps = lemma_lex_layout(src, p);
    }
}

/// The newlines among the first `p` characters of `src`.
pub open spec fn newlines_before(src: Seq<char>, p: int) -> nat {
    src.take(p).filter(|c: char| c == '\n').len()
}

/// Law: the line of a position is one more than the newlines before it.
pub proof fn lemma_line_counts_newlines(src: Seq<char>, p: int)
    requires
        0 <= p <= src.len(),
    ensures
        line_at(src, p) == 1 + newlines_before(src, p),
    decreases p,
{
    reveal(Seq::filter);
    if p > 0 {
        lemma_line_counts_newlines(src, p - 1);
        assert(src.take(p).drop_last() =~= src.take(p - 1));
    } else {
        assert(src.take(p) =~= Seq::<char>::empty());
    }
}

/// Law: the column of a position is one more than the characters since the
/// last newline before it, or than all characters before it if there is none.
pub proof fn lemma_column_counts_from_newline(src: Seq<char>, p: int)
    requires
        0 <= p <= src.len(),
    ensures
        (forall|j: int| 0 <= j < p ==> src[j] != '\n') ==> column_at(src, p) == p + 1,
        forall|m: int|
            0 <= m < p && #[trigger] src[m] == '\n' && (forall|j: int| m < j < p ==> src[j] != '\n')
                ==> column_at(src, p) == p - m,
    decreases p,
{
    if p > 0 {
        lemma_column_counts_from_newline(src, p - 1);
        if src[p - 1] != '\n' {
            assert forall|m: int|
                0 <= m < p && #[trigger] src[m] == '\n' && (forall|j: int| m < j < p ==> src[j]
                    != '\n') implies column_at(src, p) == p - m by {
                assert(m < p - 1);
                assert(forall|j: int| m < j < p - 1 ==> src[j] != '\n');
            }
        } else {
            assert forall|m: int|
                0 <= m < p && #[trigger] src[m] == '\n' && (forall|j: int| m < j < p ==> src[j]
                    != '\n') implies column_at(src, p) == p - m by {
                if m < p - 1 {
                    assert(src[p - 1] != '\n');
                }
            }
        }
    }
}

/// The positions in `src` where the tokens of `lex_from(src, p)` start.
pub open spec fn token_starts(src: Seq<char>, p: int) -> Seq<int>
    decreases src.len() - p,
{
    let q: int = skip_whitespace_from(src, p);
    if q < 0 || q >= src.len() {
        seq![q]
    } else {
        match scan_token(src, q) {
            Some((k, e)) => if p <= q && q < e && e <= src.len() {
                seq![q] + token_starts(src, e)
            } else {
                seq![q]
            },
            None => seq![q],
        }
    }
}

/// Law: each token stands in the source where it starts: its text is the
/// source from there, its column is that of its first character and its line
/// that of the position after its text. Only whitespace lies before the first
/// token and between two tokens, and the tokens follow each other in order.
pub proof fn lemma_lex_token_places(src: Seq<char>, p: int)
    requires
        0 <= p <= src.len(),
    ensures
        lex_from(src, p) matches Ok(ts) ==> {
            let st = token_starts(src, p);
            &&& st.len() == ts.len()
            &&& forall|i: int|
                0 <= i < ts.len() ==> {
                    &&& p <= #[trigger] st[i]
                    &&& st[i] + ts[i].text.len() <= src.len()
                    &&& src.subrange(st[i], st[i] + ts[i].text.len()) == ts[i].text
                    &&& ts[i].line == line_at(src, st[i] + ts[i].text.len())
                    &&& ts[i].column == column_at(src, st[i])
                }
            &&& all_whitespace(src.subrange(p, st[0]))
            &&& forall|i: int|
                0 < i < ts.len() ==> st[i - 1] + ts[i - 1].text.len() <= #[trigger] st[i]
                    && all_whitespace(src.subrange(st[i - 1] + ts[i - 1].text.len(), st[i]))
        },
    decreases src.len() - p,
{
    lemma_skip_whitespace_gap(src, p);
    let q: int = skip_whitespace_from(src, p);
    if lex_from(src, p) is Ok {
        let ts = lex_from(src, p)->Ok_0;
        let st = token_starts(src, p);
        if q >= src.len() {
            assert(ts == seq![eof_token(src, q)]);
            assert(src.subrange(q, q) =~= Seq::<char>::empty());
        } else {
            let (k, e) = scan_token(src, q)->Some_0;
            lemma_lex_token_places(src, e);
            let rest = lex_from(src, e)->Ok_0;
            let rest_st = token_starts(src, e);
            assert(ts == seq![token_at(src, k, q, e)] + rest);
            assert(st == seq![q] + rest_st);
            assert forall|i: int| 0 <= i < ts.len() implies {
                &&& p <= #[trigger] st[i]
                &&& st[i] + ts[i].text.len() <= src.len()
                &&& src.subrange(st[i], st[i] + ts[i].text.len()) == ts[i].text
                &&& ts[i].line == line_at(src, st[i] + ts[i].text.len())
                &&& ts[i].column == column_at(src, st[i])
            } by {
                if i > 0 {
                    assert(ts[i] == rest[i - 1]);
                    assert(st[i] == rest_st[i - 1]);
                }
            }
            assert forall|i: int| 0 < i < ts.len() implies st[i - 1] + ts[i - 1].text.len()
                <= #[trigger] st[i] && all_whitespace(
                src.subrange(st[i - 1] + ts[i - 1].text.len(), st[i]),
            ) by {
                assert(ts[i] == rest[i - 1]);
                assert(st[i] == rest_st[i - 1]);
                if i > 1 {
                    assert(ts[i - 1] == rest[i - 2]);
                    assert(st[i - 1] == rest_st[i - 2]);
                }
            }
        }
    }
}

/// The text of the operator or delimiter kind `k`, if `k` is one.
pub open spec fn symbol_text(k: TokenType) -> Option<Seq<char>> {
    match k {
        TokenType::Plus => Some("+"@),
        TokenType::Minus => Some("-"@),
        TokenType::Multiply => Some("*"@),
        TokenType::Divide => Some("/"@),
        TokenType::Equal => Some("=="@),
        TokenType::NotEqual => Some("!="@),
        TokenType::Less => Some("<"@),
        TokenType::Greater => Some(">"@),
        TokenType::LessEqual => Some("<="@),
        TokenType::GreaterEqual => Some(">="@),
        TokenType::Assign => Some("="@),
        TokenType::LParen => Some("("@),
        TokenType::RParen => Some(")"@),
        TokenType::LBrace => Some("{"@),
        TokenType::RBrace => Some("}"@),
        TokenType::Semicolon => Some(";"@),
        _ => None,
    }
}

/// What the text of a token of each kind is: nothing for the end of input; a
/// run of number characters that starts with a digit for a number; the
/// operator or delimiter itself for one of those; otherwise a run of word
/// characters that starts with a letter or '_', whose kind is the keyword it
/// spells or an identifier.
pub open spec fn text_fits_kind(t: TokenView) -> bool {
    if t.kind == TokenType::Eof {
        t.text.len() == 0
    } else if t.kind == TokenType::Number {
        &&& t.text.len() > 0
        &&& char_is_numeric(t.text[0])
        &&& forall|i: int| 0 <= i < t.text.len() ==> is_number_char(#[trigger] t.text[i])
    } else {
        match symbol_text(t.kind) {
            Some(s) => t.text == s,
            None => {
                &&& t.text.len() > 0
                &&& is_word_start(t.text[0])
                &&& forall|i: int| 0 <= i < t.text.len() ==> is_word_char(#[trigger] t.text[i])
                &&& t.kind == keyword_kind(t.text)
            },
        }
    }
}

proof fn lemma_runs(src: Seq<char>, p: int)
    requires
        0 <= p <= src.len(),
    ensures
        forall|i: int| p <= i < number_end(src, p) ==> is_number_char(#[trigger] src[i]),
        forall|i: int| p <= i < word_end(src, p) ==> is_word_char(#[trigger] src[i]),
    decreases src.len() - p,
{
    if p < src.len() {
        lemma_runs(src, p + 1);
    }
}

proof fn lemma_symbol_text(src: Seq<char>, p: int)
    requires
        0 <= p < src.len(),
        symbol_at(src, p) is Some,
    ensures
        p + symbol_at(src, p)->Some_0.1 <= src.len(),
        symbol_text(symbol_at(src, p)->Some_0.0) == Some(
            src.subrange(p, p + symbol_at(src, p)->Some_0.1),
        ),
{
    reveal_strlit("+");
    reveal_strlit("-");
    reveal_strlit("*");
    reveal_strlit("/");
    reveal_strlit("==");
    reveal_strlit("!=");
    reveal_strlit("<");
    reveal_strlit(">");
    reveal_strlit("<=");
    reveal_strlit(">=");
    reveal_strlit("=");
    reveal_strlit("(");
    reveal_strlit(")");
    reveal_strlit("{");
    reveal_strlit("}");
    reveal_strlit(";");
    let (k, n) = symbol_at(src, p)->Some_0;
    let s = src.subrange(p, p + n);
    if n == 1 {
        assert(s =~= seq![src[p]]);
    } else {
        assert(s =~= seq![src[p], src[p + 1]]);
    }
    assert(symbol_text(k)->Some_0 =~= s);
}

/// Law: the text of every token fits its kind (see `text_fits_kind`).
pub proof fn lemma_lex_token_texts(src: Seq<char>, p: int)
    requires
        0 <= p <= src.len(),
    ensures
        lex_from(src, p) matches Ok(ts) ==> forall|i: int|
            0 <= i < ts.len() ==> text_fits_kind(#[trigger] ts[i]),
    decreases src.len() - p,
{
    lemma_scan_end(src, p);
    let q: int = skip_whitespace_from(src, p);
    if lex_from(src, p) is Ok && q < src.len() {
        let ts = lex_from(src, p)->Ok_0;
        let (k, e) = scan_token(src, q)->Some_0;
        lemma_lex_token_texts(src, e);
        let rest = lex_from(src, e)->Ok_0;
        let t = token_at(src, k, q, e);
        assert(ts == seq![t] + rest);
        lemma_runs(src, q);
        if char_is_numeric(src[q]) {
            assert(t.text[0] == src[q]);
            assert forall|i: int| 0 <= i < t.text.len() implies is_number_char(
                #[trigger] t.text[i],
            ) by {
                assert(t.text[i] == src[q + i]);
            }
        } else if is_word_start(src[q]) {
            assert(t.text[0] == src[q]);
            assert forall|i: int| 0 <= i < t.text.len() implies is_word_char(
                #[trigger] t.text[i],
            ) by {
                assert(t.text[i] == src[q + i]);
            }
        } else {
            lemma_symbol_text(src, q);
        }
        assert(text_fits_kind(t));
        assert forall|i: int| 0 <= i < ts.len() implies text_fits_kind(#[trigger] ts[i]) by {
            if i > 0 {
                assert(ts[i] == rest[i - 1]);
            }
        }
    }
}

/// `s` with its whitespace characters left out.
pub open spec fn without_whitespace(s: Seq<char>) -> Seq<char>
    decreases s.len(),
{
    if s.len() == 0 {
        s
    } else if char_is_whitespace(s.last()) {
        without_whitespace(s.drop_last())
    } else {
        without_whitespace(s.drop_last()).push(s.last())
    }
}

/// The token texts joined in order.
pub open spec fn joined_texts(ts: Seq<TokenView>) -> Seq<char>
    decreases ts.len(),
{
    if ts.len() == 0 {
        Seq::empty()
    } else {
        ts[0].text + joined_texts(ts.drop_first())
    }
}

proof fn lemma_without_whitespace_concat(a: Seq<char>, b: Seq<char>)
    ensures
        without_whitespace(a + b) == without_whitespace(a) + without_whitespace(b),
    decreases b.len(),
{
    if b.len() == 0 {
        assert(a + b =~= a);
        assert(without_whitespace(a) + without_whitespace(b) =~= without_whitespace(a));
    } else {
        lemma_without_whitespace_concat(a, b.drop_last());
        assert((a + b).drop_last() =~= a + b.drop_last());
        assert((a + b).last() == b.last());
        if !char_is_whitespace(b.last()) {
            assert(without_whitespace(a) + without_whitespace(b.drop_last()).push(b.last())
                =~= (without_whitespace(a) + without_whitespace(b.drop_last())).push(b.last()));
        }
    }
}

proof fn lemma_without_whitespace_extremes(s: Seq<char>)
    ensures
        all_whitespace(s) ==> without_whitespace(s) == Seq::<char>::empty(),
        (forall|i: int| 0 <= i < s.len() ==> !char_is_whitespace(#[trigger] s[i]))
            ==> without_whitespace(s) == s,
    decreases s.len(),
{
    if s.len() > 0 {
        lemma_without_whitespace_extremes(s.drop_last());
        assert(all_whitespace(s) ==> all_whitespace(s.drop_last())) by {
            if all_whitespace(s) {
                assert forall|i: int| 0 <= i < s.drop_last().len() implies char_is_whitespace(
                    #[trigger] s.drop_last()[i],
                ) by {
                    assert(s.drop_last()[i] == s[i]);
                }
            }
        }
        if forall|i: int| 0 <= i < s.len() ==> !char_is_whitespace(#[trigger] s[i]) {
            assert forall|i: int| 0 <= i < s.drop_last().len() implies !char_is_whitespace(
                #[trigger] s.drop_last()[i],
            ) by {
                assert(s.drop_last()[i] == s[i]);
            }
            assert(s.drop_last().push(s.last()) =~= s);
            assert(!char_is_whitespace(s[s.len() - 1]));
        }
        if all_whitespace(s) {
            assert(char_is_whitespace(s[s.len() - 1]));
        }
    }
}

/// Law: no character of a token's text is whitespace.
pub proof fn lemma_token_text_no_whitespace(t: TokenView)
    requires
        text_fits_kind(t),
    ensures
        forall|i: int| 0 <= i < t.text.len() ==> !char_is_whitespace(#[trigger] t.text[i]),
{
    reveal_strlit("+");
    reveal_strlit("-");
    reveal_strlit("*");
    reveal_strlit("/");
    reveal_strlit("==");
    reveal_strlit("!=");
    reveal_strlit("<");
    reveal_strlit(">");
    reveal_strlit("<=");
    reveal_strlit(">=");
    reveal_strlit("=");
    reveal_strlit("(");
    reveal_strlit(")");
    reveal_strlit("{");
    reveal_strlit("}");
    reveal_strlit(";");
    assert forall|i: int| 0 <= i < t.text.len() implies !char_is_whitespace(#[trigger] t.text[i]) by {
        if t.kind == TokenType::Number {
            assert(is_number_char(t.text[i]));
        } else if symbol_text(t.kind) is None && t.kind != TokenType::Eof {
            assert(is_word_char(t.text[i]));
        }
    }
}

/// Law: lexing keeps every character but whitespace, in order: the token
/// texts joined are the source from `p` with its whitespace left out.
pub proof fn lemma_lex_joined_texts(src: Seq<char>, p: int)
    requires
        0 <= p <= src.len(),
    ensures
        lex_from(src, p) matches Ok(ts) ==> joined_texts(ts) == without_whitespace(src.skip(p)),
    decreases src.len() - p,
{
    if lex_from(src, p) is Ok {
        lemma_skip_whitespace_gap(src, p);
        lemma_lex_token_texts(src, p);
        let q: int = skip_whitespace_from(src, p);
        let gap = src.subrange(p, q);
        lemma_without_whitespace_extremes(gap);
        let ts = lex_from(src, p)->Ok_0;
        if q >= src.len() {
            assert(ts == seq![eof_token(src, q)]);
            assert(ts.drop_first().len() == 0);
            assert(joined_texts(ts.drop_first()) == Seq::<char>::empty());
            assert(ts[0].text == Seq::<char>::empty());
            assert(gap =~= src.skip(p));
            assert(joined_texts(ts) =~= Seq::<char>::empty());
        } else {
            let (k, e) = scan_token(src, q)->Some_0;
            lemma_lex_joined_texts(src, e);
            let rest = lex_from(src, e)->Ok_0;
            assert(ts == seq![token_at(src, k, q, e)] + rest);
            assert(ts.drop_first() =~= rest);
            let text = src.subrange(q, e);
            assert(ts[0].text == text);
            assert(text_fits_kind(ts[0]));
            lemma_token_text_no_whitespace(ts[0]);
            lemma_without_whitespace_extremes(text);
            assert(src.skip(p) =~= gap + text + src.skip(e));
            lemma_without_whitespace_concat(gap, text);
            lemma_without_whitespace_concat(gap + text, src.skip(e));
            assert(Seq::<char>::empty() + text =~= text);
        }
    }
}

proof fn lemma_line_unchanged(src: Seq<char>, a: int, b: int)
    requires
        0 <= a <= b <= src.len(),
        forall|i: int| a <= i < b ==> src[i] != '\n',
    ensures
        line_at(src, b) == line_at(src, a),
    decreases b - a,
{
    if a < b {
        lemma_line_unchanged(src, a, b - 1);
    }
}

/// Law: the line of a token is one more than the newlines before its first
/// character, and its column one more than the characters since the last
/// newline before it (see `lemma_column_counts_from_newline`).
#[verifier::spinoff_prover]
#[verifier::rlimit(40)]
pub proof fn lemma_lex_token_lines(src: Seq<char>, p: int)
    requires
        0 <= p <= src.len(),
    ensures
        lex_from(src, p) matches Ok(ts) ==> forall|i: int|
            0 <= i < ts.len() ==> {
                &&& (#[trigger] ts[i]).line == 1 + newlines_before(src, token_starts(src, p)[i])
                &&& ts[i].column == column_at(src, token_starts(src, p)[i])
            },
{
    lemma_lex_token_places(src, p);
    lemma_lex_token_texts(src, p);
    if let Ok(ts) = lex_from(src, p) {
        let st = token_starts(src, p);
        assert forall|i: int| 0 <= i < ts.len() implies {
            &&& (#[trigger] ts[i]).line == 1 + newlines_before(src, st[i])
            &&& ts[i].column == column_at(src, st[i])
        } by {
            let t = ts[i];
            let a = st[i];
            let b = st[i] + t.text.len();
            assert(p <= st[i]);
            assert(src.subrange(a, b) == t.text);
            lemma_token_text_no_whitespace(t);
            assert forall|j: int| a <= j < b implies src[j] != '\n' by {
                assert(src[j] == t.text[j - a]);
                assert(!char_is_whitespace(t.text[j - a]));
            }
            lemma_line_unchanged(src, a, b);
            lemma_line_counts_newlines(src, a);
        }
    }
}

/// Law: the end-of-input token has no text, and every other token has some.
pub proof fn lemma_lex_texts_nonempty(src: Seq<char>, p: int)
    requires
        0 <= p <= src.len(),
    ensures
        lex_from(src, p) matches Ok(ts) ==> {
            &&& ts.last().text.len() == 0
            &&& forall|i: int| 0 <= i < ts.len() - 1 ==> (#[trigger] ts[i]).text.len() > 0
        },
{
    lemma_lex_ends_with_eof(src, p);
    lemma_lex_token_texts(src, p);
    reveal_strlit("+");
    reveal_strlit("-");
    reveal_strlit("*");
    reveal_strlit("/");
    reveal_strlit("==");
    reveal_strlit("!=");
    reveal_strlit("<");
    reveal_strlit(">");
    reveal_strlit("<=");
    reveal_strlit(">=");
    reveal_strlit("=");
    reveal_strlit("(");
    reveal_strlit(")");
    reveal_strlit("{");
    reveal_strlit("}");
    reveal_strlit(";");
    if let Ok(ts) = lex_from(src, p) {
        assert(text_fits_kind(ts[ts.len() - 1]));
        assert forall|i: int| 0 <= i < ts.len() - 1 implies (#[trigger] ts[i]).text.len() > 0 by {
            assert(text_fits_kind(ts[i]));
        }
    }
}

/// The characters of the operators and delimiters: `+ - * / = < > ( ) { } ;`.
pub open spec fn is_symbol_char(c: char) -> bool {
    c == '+' || c == '-' || c == '*' || c == '/' || c == '=' || c == '<' || c == '>' || c == '('
        || c == ')' || c == '{' || c == '}' || c == ';'
}

/// Characters that never stop lexing: whitespace, letters, digits, `_` and
/// the operator and delimiter characters.
pub open spec fn always_lexes(c: char) -> bool {
    char_is_whitespace(c) || char_is_alphabetic(c) || char_is_numeric(c) || c == '_'
        || is_symbol_char(c)
}

/// Characters that no token holds: neither whitespace, letters, digits, `_`,
/// `.`, `!` nor an operator or delimiter character.
pub open spec fn never_lexes(c: char) -> bool {
    !char_is_whitespace(c) && !char_is_alphabetic(c) && !char_is_numeric(c) && c != '_' && c
        != '.' && c != '!' && !is_symbol_char(c)
}

proof fn lemma_runs_stop(src: Seq<char>, p: int, b: int)
    requires
        0 <= p <= b < src.len(),
    ensures
        !char_is_whitespace(src[b]) ==> skip_whitespace_from(src, p) <= b,
        !is_number_char(src[b]) ==> number_end(src, p) <= b,
        !is_word_char(src[b]) ==> word_end(src, p) <= b,
    decreases b - p,
{
    if p < b {
        lemma_runs_stop(src, p + 1, b);
    }
}

proof fn lemma_skip_stops(src: Seq<char>, p: int)
    requires
        0 <= p,
    ensures
        skip_whitespace_from(src, p) < src.len() ==> !char_is_whitespace(
            src[skip_whitespace_from(src, p)],
        ),
    decreases src.len() - p,
{
    if p < src.len() && char_is_whitespace(src[p]) {
        lemma_skip_stops(src, p + 1);
    }
}

/// Law: a source whose characters from `p` all belong to `always_lexes` lexes.
pub proof fn lemma_lex_succeeds(src: Seq<char>, p: int)
    requires
        0 <= p <= src.len(),
        forall|i: int| p <= i < src.len() ==> always_lexes(#[trigger] src[i]),
    ensures
        lex_from(src, p) is Ok,
    decreases src.len() - p,
{
    lemma_scan_end(src, p);
    lemma_skip_stops(src, p);
    let q: int = skip_whitespace_from(src, p);
    if q < src.len() {
        let c = src[q];
        assert(always_lexes(c));
        lemma_scan_end(src, q);
        lemma_scan_end(src, q + 1);
        if char_is_numeric(c) {
            assert(number_end(src, q) == number_end(src, q + 1));
        } else if is_word_start(c) {
            assert(word_end(src, q) == word_end(src, q + 1));
        } else {
            assert(is_symbol_char(c));
            assert(symbol_at(src, q) is Some);
            lemma_symbol_text(src, q);
        }
        let (k, e) = scan_token(src, q)->Some_0;
        assert(q < e <= src.len());
        lemma_lex_succeeds(src, e);
    }
}

/// Law: a source with a character from `never_lexes` at or after `p` does
/// not lex.
pub proof fn lemma_lex_fails(src: Seq<char>, p: int, b: int)
    requires
        0 <= p <= b < src.len(),
        never_lexes(src[b]),
    ensures
        lex_from(src, p) is Err,
    decreases src.len() - p,
{
    lemma_runs_stop(src, p, b);
    lemma_scan_end(src, p);
    let q: int = skip_whitespace_from(src, p);
    if q < b {
        if let Some((k, e)) = scan_token(src, q) {
            if p <= q && q < e && e <= src.len() {
                lemma_runs_stop(src, q, b);
                assert(e <= b);
                lemma_lex_fails(src, e, b);
            }
        }
    }
}

/// Whether the token kind is a word's: an identifier or a keyword.
pub open spec fn is_word_kind(k: TokenType) -> bool {
    k == TokenType::Identifier || k == TokenType::Print || k == TokenType::If || k == TokenType::Else
}

/// What holds of a token of kind `k` that ends at `e` in `src`: a number or a
/// word takes every character it can, so the next character could not
/// continue it; `=`, `<` and `>` alone are not followed by `=`.
pub open spec fn ends_maximal(src: Seq<char>, k: TokenType, e: int) -> bool {
    e < src.len() ==> {
        &&& k == TokenType::Number ==> !(char_is_numeric(src[e]) || src[e] == '.')
        &&& is_word_kind(k) ==> !(char_is_alphabetic(src[e]) || char_is_numeric(src[e]) || src[e]
            == '_')
        &&& (k == TokenType::Assign || k == TokenType::Less || k == TokenType::Greater) ==> src[e]
            != '='
    }
}

proof fn lemma_runs_end(src: Seq<char>, p: int)
    requires
        0 <= p <= src.len(),
    ensures
        number_end(src, p) < src.len() ==> !is_number_char(src[number_end(src, p)]),
        word_end(src, p) < src.len() ==> !is_word_char(src[word_end(src, p)]),
    decreases src.len() - p,
{
    if p < src.len() {
        lemma_runs_end(src, p + 1);
    }
}

/// Law: tokens are as long as they can be: the character after a number is
/// neither a digit nor `.`, the one after a word is neither a letter, a digit
/// nor `_`, and `=`, `<` and `>` read alone are not followed by `=`.
pub proof fn lemma_lex_tokens_maximal(src: Seq<char>, p: int)
    requires
        0 <= p <= src.len(),
    ensures
        lex_from(src, p) matches Ok(ts) ==> forall|i: int|
            0 <= i < ts.len() ==> ends_maximal(
                src,
                (#[trigger] ts[i]).kind,
                token_starts(src, p)[i] + ts[i].text.len(),
            ),
    decreases src.len() - p,
{
    lemma_scan_end(src, p);
    let q: int = skip_whitespace_from(src, p);
    if lex_from(src, p) is Ok {
        let ts = lex_from(src, p)->Ok_0;
        let st = token_starts(src, p);
        if q >= src.len() {
            assert(ts == seq![eof_token(src, q)]);
            assert(st == seq![q]);
        } else {
            let (k, e) = scan_token(src, q)->Some_0;
            lemma_lex_tokens_maximal(src, e);
            lemma_lex_token_places(src, e);
            lemma_runs_end(src, q);
            let rest = lex_from(src, e)->Ok_0;
            let rest_st = token_starts(src, e);
            assert(ts == seq![token_at(src, k, q, e)] + rest);
            assert(st == seq![q] + rest_st);
            assert(ts[0].text.len() == e - q);
            if !char_is_numeric(src[q]) && !is_word_start(src[q]) {
                assert(symbol_at(src, q) is Some);
            }
            assert(ends_maximal(src, k, e));
            assert forall|i: int| 0 <= i < ts.len() implies ends_maximal(
                src,
                (#[trigger] ts[i]).kind,
                st[i] + ts[i].text.len(),
            ) by {
                if i > 0 {
                    assert(ts[i] == rest[i - 1]);
                    assert(st[i] == rest_st[i - 1]);
                }
            }
        }
    }
}

/// Law: a token spelled `print`, `if` or `else` is that keyword, and an
/// identifier is spelled like none of them.
pub proof fn lemma_lex_keywords(src: Seq<char>, p: int)
    requires
        0 <= p <= src.len(),
    ensures
        lex_from(src, p) matches Ok(ts) ==> forall|i: int|
            0 <= i < ts.len() ==> {
                &&& (#[trigger] ts[i]).text == "print"@ ==> ts[i].kind == TokenType::Print
                &&& ts[i].text == "if"@ ==> ts[i].kind == TokenType::If
                &&& ts[i].text == "else"@ ==> ts[i].kind == TokenType::Else
                &&& ts[i].kind == TokenType::Print ==> ts[i].text == "print"@
                &&& ts[i].kind == TokenType::If ==> ts[i].text == "if"@
                &&& ts[i].kind == TokenType::Else ==> ts[i].text == "else"@
                &&& ts[i].kind == TokenType::Identifier ==> ts[i].text != "print"@ && ts[i].text
                    != "if"@ && ts[i].text != "else"@
            },
{
    lemma_lex_token_texts(src, p);
    reveal_strlit("print");
    reveal_strlit("if");
    reveal_strlit("else");
    reveal_strlit("+");
    reveal_strlit("-");
    reveal_strlit("*");
    reveal_strlit("/");
    reveal_strlit("==");
    reveal_strlit("!=");
    reveal_strlit("<");
    reveal_strlit(">");
    reveal_strlit("<=");
    reveal_strlit(">=");
    reveal_strlit("=");
    reveal_strlit("(");
    reveal_strlit(")");
    reveal_strlit("{");
    reveal_strlit("}");
    reveal_strlit(";");
    if let Ok(ts) = lex_from(src, p) {
        assert forall|i: int| 0 <= i < ts.len() implies {
            &&& (#[trigger] ts[i]).text == "print"@ ==> ts[i].kind == TokenType::Print
            &&& ts[i].text == "if"@ ==> ts[i].kind == TokenType::If
            &&& ts[i].text == "else"@ ==> ts[i].kind == TokenType::Else
            &&& ts[i].kind == TokenType::Print ==> ts[i].text == "print"@
            &&& ts[i].kind == TokenType::If ==> ts[i].text == "if"@
            &&& ts[i].kind == TokenType::Else ==> ts[i].text == "else"@
            &&& ts[i].kind == TokenType::Identifier ==> ts[i].text != "print"@ && ts[i].text
                != "if"@ && ts[i].text != "else"@
        } by {
            let t = ts[i];
            assert(text_fits_kind(t));
            if t.text == "print"@ || t.text == "if"@ || t.text == "else"@ {
                assert(t.text[0] == 'p' || t.text[0] == 'i' || t.text[0] == 'e');
                assert(!char_is_numeric(t.text[0]));
                assert(t.kind != TokenType::Number);
                assert(t.kind != TokenType::Eof);
                assert(symbol_text(t.kind) is None);
            }
        }
    }
}

/// The lexer's state: the source characters and the reading position, with
/// the line and column of that position.
pub struct Lexer {
    source: Vec<char>,
    position: usize,
    line: usize,
    column: usize,
}

impl Lexer {
    /// The source characters.
    pub closed spec fn source(&self) -> Seq<char> {
        self.source@
    }

    /// The reading position.
    pub closed spec fn position(&self) -> int {
        self.position as int
    }

    /// The position lies in the source, line and column are those of the
    /// position, and the source is short enough for every count to fit.
    pub closed spec fn wf(&self) -> bool {
        &&& self.position <= self.source@.len()
        &&& self.source@.len() < usize::MAX
        &&& self.line == line_at(self.source@, self.position as int)
        &&& self.column == column_at(self.source@, self.position as int)
    }

    pub fn new(source: String) -> (l: Self)
        requires
            source@.len() < usize::MAX,
        ensures
            l.wf(),
            l.source() == source@,
            l.position() == 0,
    {
        Lexer { source: chars_of(&source), position: 0, line: 1, column: 1 }
    }

    fn current(&self) -> (c: char)
        ensures
            self.position < self.source@.len() ==> c == self.source@[self.position as int],
            self.position >= self.source@.len() ==> c == '\0',
    {
        if self.position >= self.source.len() {
            '\0'
        } else {
            self.source[self.position]
        }
    }

    fn peek(&self, offset: usize) -> (c: char)
        requires
            self.position + offset <= usize::MAX,
        ensures
            self.position + offset < self.source@.len() ==> c == self.source@[self.position + offset],
            self.position + offset >= self.source@.len() ==> c == '\0',
    {
        let pos: usize = self.position + offset;
        if pos >= self.source.len() {
            '\0'
        } else {
            self.source[pos]
        }
    }

    fn advance(&mut self)
        requires
            old(self).wf(),
        ensures
            final(self).wf(),
            final(self).source@ == old(self).source@,
            final(self).position == if old(self).position < old(self).source@.len() {
                old(self).position + 1
            } else {
                old(self).position as int
            },
            old(self).position < old(self).source@.len() ==> if old(self).source@[old(
                self,
            ).position as int] == '\n' {
                final(self).line == old(self).line + 1 && final(self).column == 1
            } else {
                final(self).line == old(self).line && final(self).column == old(self).column + 1
            },
            old(self).position >= old(self).source@.len() ==> final(self).line == old(self).line
                && final(self).column == old(self).column,
    {
        if self.position < self.source.len() {
            proof {
                lemma_line_column_bound(self.source@, self.position as int);
            }
            if self.source[self.position] == '\n' {
                self.line += 1;
                self.column = 1;
            } else {
                self.column += 1;
            }
            self.position += 1;
        }
    }

    fn skip_whitespace(&mut self)
        requires
            old(self).wf(),
        ensures
            final(self).wf(),
            final(self).source@ == old(self).source@,
            final(self).position == skip_whitespace_from(
                old(self).source@,
                old(self).position as int,
            ),
    {
        let ghost src = self.source@;
        let ghost p0 = self.position as int;
        while self.position < self.source.len() && is_whitespace(self.current())
            invariant
                self.wf(),
                self.source@ == src,
                skip_whitespace_from(src, self.position as int) == skip_whitespace_from(src, p0),
            decreases self.source@.len() - self.position,
        {
            self.advance();
        }
    }

    fn number(&mut self) -> (t: Token)
        requires
            old(self).wf(),
            old(self).position < old(self).source@.len(),
            char_is_numeric(old(self).source@[old(self).position as int]),
        ensures
            final(self).wf(),
            final(self).source@ == old(self).source@,
            final(self).position == number_end(old(self).source@, old(self).position as int),
            t@ == token_at(
                old(self).source@,
                TokenType::Number,
                old(self).position as int,
                final(self).position as int,
            ),
    {
        let ghost src = self.source@;
        let ghost p0 = self.position as int;
        let start_col: usize = self.column;
        let mut num = String::new();
        while self.position < self.source.len() && (is_numeric(self.current()) || self.current()
            == '.')
            invariant
                self.wf(),
                self.source@ == src,
                0 <= p0 <= self.position,
                num@ == src.subrange(p0, self.position as int),
                number_end(src, self.position as int) == number_end(src, p0),
            decreases self.source@.len() - self.position,
        {
            let c = self.current();
            push_char(&mut num, c);
            self.advance();
            assert(num@ =~= src.subrange(p0, self.position as int));
        }
        Token::new(TokenType::Number, num, self.line, start_col)
    }

    fn identifier(&mut self) -> (t: Token)
        requires
            old(self).wf(),
            old(self).position < old(self).source@.len(),
            is_word_start(old(self).source@[old(self).position as int]),
        ensures
            final(self).wf(),
            final(self).source@ == old(self).source@,
            final(self).position == word_end(old(self).source@, old(self).position as int),
            t@ == token_at(
                old(self).source@,
                keyword_kind(old(self).source@.subrange(old(self).position as int, final(self).position as int)),
                old(self).position as int,
                final(self).position as int,
            ),
    {
        let ghost src = self.source@;
        let ghost p0 = self.position as int;
        let start_col: usize = self.column;
        let mut id = String::new();
        while self.position < self.source.len() && (is_alphanumeric(self.current())
            || self.current() == '_')
            invariant
                self.wf(),
                self.source@ == src,
                0 <= p0 <= self.position,
                id@ == src.subrange(p0, self.position as int),
                word_end(src, self.position as int) == word_end(src, p0),
            decreases self.source@.len() - self.position,
        {
            let c = self.current();
            push_char(&mut id, c);
            self.advance();
            assert(id@ =~= src.subrange(p0, self.position as int));
        }
        let token_type = if text_is(&id, "print") {
            TokenType::Print
        } else if text_is(&id, "if") {
            TokenType::If
        } else if text_is(&id, "else") {
            TokenType::Else
        } else {
            TokenType::Identifier
        };
        Token::new(token_type, id, self.line, start_col)
    }

    /// The operator or delimiter at the reading position, as `symbol_at` gives it.
    fn symbol(&self) -> (r: Option<(TokenType, usize)>)
        requires
            self.wf(),
            self.position < self.source@.len(),
        ensures
            match symbol_at(self.source@, self.position as int) {
                Some((k, n)) => r == Some((k, n as usize)),
                None => r is None,
            },
    {
        let c = self.current();
        let eq_next = self.peek(1) == '=';
        if c == '+' {
            Some((TokenType::Plus, 1))
        } else if c == '-' {
            Some((TokenType::Minus, 1))
        } else if c == '*' {
            Some((TokenType::Multiply, 1))
        } else if c == '/' {
            Some((TokenType::Divide, 1))
        } else if c == '=' {
            if eq_next { Some((TokenType::Equal, 2)) } else { Some((TokenType::Assign, 1)) }
        } else if c == '!' {
            if eq_next { Some((TokenType::NotEqual, 2)) } else { None }
        } else if c == '<' {
            if eq_next { Some((TokenType::LessEqual, 2)) } else { Some((TokenType::Less, 1)) }
        } else if c == '>' {
            if eq_next { Some((TokenType::GreaterEqual, 2)) } else { Some((TokenType::Greater, 1)) }
        } else if c == '(' {
            Some((TokenType::LParen, 1))
        } else if c == ')' {
            Some((TokenType::RParen, 1))
        } else if c == '{' {
            Some((TokenType::LBrace, 1))
        } else if c == '}' {
            Some((TokenType::RBrace, 1))
        } else if c == ';' {
            Some((TokenType::Semicolon, 1))
        } else {
            None
        }
    }

    /// The message for the character at the reading position, which starts no token.
    fn error_message(&self) -> (m: String)
        requires
            self.wf(),
            self.position < self.source@.len(),
        ensures
            m@ == lex_error(self.source@, self.position as int),
    {
        let ch = self.current();
        if ch == '!' {
            let mut m = String::from_str("Error léxico: carácter '!' inesperado en línea ");
            push_decimal(&mut m, self.line);
            m
        } else {
            let mut m = String::from_str("Error léxico: carácter '");
            push_char(&mut m, ch);
            m.append("' en línea ");
            push_decimal(&mut m, self.line);
            m
        }
    }

    /// Reads the tokens from the reading position to the end of the source.
    /// On success the last token is the end-of-input token and the reading
    /// position is the end; on failure the reading position is the
    /// character that starts no token.
    pub fn tokenize(&mut self) -> (r: Result<Vec<Token>, String>)
        requires
            old(self).wf(),
        ensures
            final(self).wf(),
            final(self).source() == old(self).source(),
            match r {
                Ok(ts) => {
                    &&& lex_from(old(self).source(), old(self).position()) == Ok::<
                        Seq<TokenView>,
                        (Seq<char>, int),
                    >(tokens_view(ts@))
                    &&& final(self).position() == old(self).source().len()
                },
                Err(m) => lex_from(old(self).source(), old(self).position()) == Err::<
                    Seq<TokenView>,
                    (Seq<char>, int),
                >((m@, final(self).position())),
            },
    {
        let ghost src = self.source@;
        let ghost p0 = self.position as int;
        let mut tokens: Vec<Token> = Vec::new();
        while self.position < self.source.len()
            invariant_except_break
                self.wf(),
                self.source@ == src,
                src == old(self).source@,
                p0 == old(self).position,
                prepend_tokens(tokens_view(tokens@), lex_from(src, self.position as int))
                    == lex_from(src, p0),
            ensures
                self.wf(),
                self.source@ == src,
                prepend_tokens(tokens_view(tokens@), lex_from(src, self.position as int))
                    == lex_from(src, p0),
                skip_whitespace_from(src, self.position as int) == self.position,
                self.position >= src.len(),
            decreases self.source@.len() - self.position,
        {
            let ghost p = self.position as int;
            self.skip_whitespace();
            let ghost q = self.position as int;
            proof {
                lemma_scan_end(src, p);
            }
            if self.position >= self.source.len() {
                break;
            }
            let ch = self.current();
            let col: usize = self.column;
            let ghost before = tokens@;
            if is_numeric(ch) {
                let t = self.number();
                proof {
                    lemma_scan_end(src, q + 1);
                }
                tokens.push(t);
            } else if is_alphabetic(ch) || ch == '_' {
                let t = self.identifier();
                proof {
                    lemma_scan_end(src, q + 1);
                }
                tokens.push(t);
            } else {
                match self.symbol() {
                    Some((kind, n)) => {
                        let line: usize = self.line;
                        let mut text = String::new();
                        push_char(&mut text, ch);
                        self.advance();
                        if n == 2 {
                            let c2 = self.current();
                            push_char(&mut text, c2);
                            self.advance();
                        }
                        assert(text@ =~= src.subrange(q, self.position as int));
                        assert(line_at(src, self.position as int) == line_at(src, q)) by {
                            if n == 2 {
                                assert(line_at(src, q + 1) == line_at(src, q));
                            }
                        }
                        tokens.push(Token::new(kind, text, line, col));
                    },
                    None => {
                        let m = self.error_message();
                        return Err(m);
                    },
                }
            }
            proof {
                let e: int = self.position as int;
                let tv = tokens@.last()@;
                assert(scan_token(src, q) == Some((tv.kind, e)));
                assert(tv == token_at(src, tv.kind, q, e));
                assert(p <= q < e <= src.len());
                assert(lex_from(src, p) == prepend_tokens(seq![tv], lex_from(src, e)));
                assert(tokens_view(tokens@) =~= tokens_view(before) + seq![tv]);
                lemma_prepend_assoc(tokens_view(before), seq![tv], lex_from(src, e));
            }
        }
        let ghost before = tokens@;
        tokens.push(Token::new(TokenType::Eof, String::new(), self.line, self.column));
        assert(tokens_view(tokens@) =~= tokens_view(before) + seq![eof_token(src, self.position as int)]);
        Ok(tokens)
    }
}

} // verus!
