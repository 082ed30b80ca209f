use vstd::prelude::*;
use vstd::string::StrSliceExecFns;

use crate::error::{push_char, ErrorView, MachinaError};

verus! {

#[derive(Clone, Copy, PartialEq, Eq, Structural, Debug)]
pub enum Token {
    LParen,
    RParen,
    LBrace,
    RBrace,
    LBracket,
    RBracket,
    Comma,
    Call,
    Ret,
    Move,
    Jmp,
    Jt,
    Jf,
    JLt,
    JLe,
    JGt,
    JGe,
    JEq,
    JNe,
    Lt,
    Le,
    Gt,
    Ge,
    Eq,
    Ne,
    Add,
    Sub,
    Mul,
    Div,
    Mod,
    Not,
    And,
    Or,
    Xor,
    Shl,
    Shr,
    Write,
    String,
    Number,
    Label,
    Function,
    Register,
    Operand,
    Instruction,
    EOL,
    EOF,
}

/// How a token is shown in diagnostics; for a mnemonic, its lower-case spelling.
pub open spec fn token_text(t: Token) -> Seq<char> {
    match t {
        Token::LParen => "("@,
        Token::RParen => ")"@,
        Token::LBrace => "{"@,
        Token::RBrace => "}"@,
        Token::LBracket => "["@,
        Token::RBracket => "]"@,
        Token::Comma => ","@,
        Token::Call => "call"@,
        Token::Ret => "ret"@,
        Token::Move => "move"@,
        Token::Jmp => "jmp"@,
        Token::Jt => "jt"@,
        Token::Jf => "jf"@,
        Token::JLt => "jlt"@,
        Token::JLe => "jle"@,
        Token::JGt => "jgt"@,
        Token::JGe => "jge"@,
        Token::JEq => "jeq"@,
        Token::JNe => "jne"@,
        Token::Lt => "lt"@,
        Token::Le => "le"@,
        Token::Gt => "gt"@,
        Token::Ge => "ge"@,
        Token::Eq => "eq"@,
        Token::Ne => "ne"@,
        Token::Add => "add"@,
        Token::Sub => "sub"@,
        Token::Mul => "mul"@,
        Token::Div => "div"@,
        Token::Mod => "mod"@,
        Token::Not => "not"@,
        Token::And => "and"@,
        Token::Or => "or"@,
        Token::Xor => "xor"@,
        Token::Shl => "shl"@,
        Token::Shr => "shr"@,
        Token::Write => "write"@,
        Token::String => "string"@,
        Token::Number => "number"@,
        Token::Label => "label"@,
        Token::Function => "function"@,
        Token::Register => "register"@,
        Token::Operand => "operand"@,
        Token::Instruction => "instruction"@,
        Token::EOL => "end of line"@,
        Token::EOF => "end of file"@,
    }
}

/// The mnemonic tokens, in the order the opcode table lists them.
pub open spec fn mnemonic_at(i: int) -> Token {
    if i == 0 { Token::Call }
    else if i == 1 { Token::Ret }
    else if i == 2 { Token::Move }
    else if i == 3 { Token::Jmp }
    else if i == 4 { Token::Jt }
    else if i == 5 { Token::Jf }
    else if i == 6 { Token::JLt }
    else if i == 7 { Token::JLe }
    else if i == 8 { Token::JGt }
    else if i == 9 { Token::JGe }
    else if i == 10 { Token::JEq }
    else if i == 11 { Token::JNe }
    else if i == 12 { Token::Lt }
    else if i == 13 { Token::Le }
    else if i == 14 { Token::Gt }
    else if i == 15 { Token::Ge }
    else if i == 16 { Token::Eq }
    else if i == 17 { Token::Ne }
    else if i == 18 { Token::Add }
    else if i == 19 { Token::Sub }
    else if i == 20 { Token::Mul }
    else if i == 21 { Token::Div }
    else if i == 22 { Token::Mod }
    else if i == 23 { Token::Not }
    else if i == 24 { Token::And }
    else if i == 25 { Token::Or }
    else if i == 26 { Token::Xor }
    else if i == 27 { Token::Shl }
    else if i == 28 { Token::Shr }
    else { Token::Write }
}

pub const MNEMONIC_COUNT: usize = 30;

/// `c` is `l` once lower-cased (ASCII letters only).
pub open spec fn same_letter(c: char, l: char) -> bool {
    c == l || (97 <= (l as u32) <= 122 && (c as u32) + 32 == (l as u32))
}

/// `w`, lower-cased, is `t`.
pub open spec fn matches_lowered(w: Seq<char>, t: Seq<char>) -> bool {
    w.len() == t.len() && forall|k: int| 0 <= k < w.len() ==> same_letter(w[k], t[k])
}

/// The first mnemonic at or after table index `i` whose spelling `w` matches.
pub open spec fn find_mnemonic(w: Seq<char>, i: int) -> Option<Token>
    decreases MNEMONIC_COUNT - i,
{
    if i < 0 || i >= MNEMONIC_COUNT {
        None
    } else if matches_lowered(w, token_text(mnemonic_at(i))) {
        Some(mnemonic_at(i))
    } else {
        find_mnemonic(w, i + 1)
    }
}

pub open spec fn is_blank(c: char) -> bool {
    c == ' ' || c == '\t' || c == '\r'
}

pub open spec fn is_digit(c: char) -> bool {
    '0' <= c && c <= '9'
}

pub open spec fn is_letter(c: char) -> bool {
    ('a' <= c && c <= 'z') || ('A' <= c && c <= 'Z')
}

pub open spec fn is_word_char(c: char) -> bool {
    is_letter(c) || is_digit(c) || c == '_'
}

/// End of the run of word characters starting at `i`.
pub open spec fn word_end(s: Seq<char>, i: int) -> int
    decreases s.len() - i,
{
    if 0 <= i < s.len() && is_word_char(s[i]) {
        word_end(s, i + 1)
    } else {
        i
    }
}

/// End of the run of digits starting at `i`.
pub open spec fn digits_end(s: Seq<char>, i: int) -> int
    decreases s.len() - i,
{
    if 0 <= i < s.len() && is_digit(s[i]) {
        digits_end(s, i + 1)
    } else {
        i
    }
}

/// The index of the next newline at or after `i`, or the end.
pub open spec fn line_end(s: Seq<char>, i: int) -> int
    decreases s.len() - i,
{
    if 0 <= i < s.len() && s[i] != '\n' {
        line_end(s, i + 1)
    } else {
        i
    }
}

/// End of the run of newlines starting at `i`.
pub open spec fn newlines_end(s: Seq<char>, i: int) -> int
    decreases s.len() - i,
{
    if 0 <= i < s.len() && s[i] == '\n' {
        newlines_end(s, i + 1)
    } else {
        i
    }
}

/// Skips blanks and a comment; a comment stops before its newline.
pub open spec fn skip_trivia(s: Seq<char>, i: int) -> int
    decreases s.len() - i,
{
    if 0 <= i < s.len() && is_blank(s[i]) {
        skip_trivia(s, i + 1)
    } else if 0 <= i < s.len() && s[i] == ';' {
        line_end(s, i)
    } else {
        i
    }
}

/// End of a number whose digits start at `i`: digits, then `.` and digits if a digit follows the dot.
pub open spec fn number_end(s: Seq<char>, i: int) -> int {
    let d = digits_end(s, i);
    if 0 <= d && d + 1 < s.len() && s[d] == '.' && is_digit(s[d + 1]) {
        digits_end(s, d + 1)
    } else {
        d
    }
}

/// What an escape `\c` inside a string stands for.
pub open spec fn escaped(c: char) -> Seq<char> {
    if c == '\\' { seq!['\\'] }
    else if c == '\'' { seq!['\''] }
    else if c == '"' { seq!['"'] }
    else if c == 'n' { seq!['\n'] }
    else if c == 'r' { seq!['\r'] }
    else if c == 't' { seq!['\t'] }
    else if c == 'a' { seq!['\x07'] }
    else if c == 'b' { seq!['\x08'] }
    else if c == 'f' { seq!['\x0c'] }
    else if c == 'v' { seq!['\x0b'] }
    else { seq!['\\', c] }
}

/// Reads a string body from `j` on, after `acc` was read: the decoded text and
/// the index of the closing quote, or `None` and where it stopped (a newline or the end).
pub open spec fn scan_string(s: Seq<char>, j: int, acc: Seq<char>) -> (Option<Seq<char>>, int)
    decreases s.len() - j,
{
    if j < 0 || j >= s.len() {
        (None, j)
    } else if s[j] == '"' {
        (Some(acc), j)
    } else if s[j] == '\n' {
        (None, j)
    } else if s[j] == '\\' {
        if j + 1 >= s.len() || s[j + 1] == '\n' {
            (None, j + 1)
        } else {
            scan_string(s, j + 2, acc + escaped(s[j + 1]))
        }
    } else {
        scan_string(s, j + 1, acc.push(s[j]))
    }
}

pub open spec fn punctuation(c: char) -> Option<Token> {
    if c == ',' { Some(Token::Comma) }
    else if c == '(' { Some(Token::LParen) }
    else if c == ')' { Some(Token::RParen) }
    else if c == '{' { Some(Token::LBrace) }
    else if c == '}' { Some(Token::RBrace) }
    else if c == '[' { Some(Token::LBracket) }
    else if c == ']' { Some(Token::RBracket) }
    else { None }
}

/// The outcome of reading one token.
pub ghost enum Lexed {
    Plain(Token),
    WithText(Token, Seq<char>),
    Fail(ErrorView),
}

/// The token read from `s` at `i`, and where reading stops.
pub open spec fn scan(s: Seq<char>, i: int) -> (Lexed, int) {
    let t = skip_trivia(s, i);
    if t < 0 || t >= s.len() {
        (Lexed::Plain(Token::EOF), t)
    } else {
        let c = s[t];
        if c == '.' || c == '%' || c == '@' {
            let e = word_end(s, t + 1);
            let kind = if c == '.' {
                Token::Label
            } else if c == '%' {
                Token::Register
            } else {
                Token::Function
            };
            (Lexed::WithText(kind, s.subrange(t + 1, e)), e)
        } else if is_letter(c) {
            let e = word_end(s, t);
            let w = s.subrange(t, e);
            match find_mnemonic(w, 0) {
                Some(tok) => (Lexed::Plain(tok), e),
                None => (Lexed::Fail(ErrorView::InvalidInstruction(w)), e),
            }
        } else if is_digit(c) {
            let e = number_end(s, t);
            (Lexed::WithText(Token::Number, s.subrange(t, e)), e)
        } else if (c == '-' || c == '+') && t + 1 < s.len() && is_digit(s[t + 1]) {
            let e = number_end(s, t + 1);
            (Lexed::WithText(Token::Number, s.subrange(t, e)), e)
        } else if c == '"' {
            let (body, j) = scan_string(s, t + 1, Seq::empty());
            match body {
                Some(v) => (Lexed::WithText(Token::String, v), j + 1),
                None => (Lexed::Fail(ErrorView::UnterminatedString), j),
            }
        } else if c == '\n' {
            (Lexed::Plain(Token::EOL), t + 1)
        } else {
            match punctuation(c) {
                Some(tok) => (Lexed::Plain(tok), t + 1),
                None => (Lexed::Fail(ErrorView::InvalidCharacter(c)), t + 1),
            }
        }
    }
}

impl Token {
    /// How this token is shown in diagnostics.
    pub fn text(&self) -> (r: &'static str)
        ensures
            r@ == token_text(*self),
    {
        match self {
            Token::LParen => "(",
            Token::RParen => ")",
            Token::LBrace => "{",
            Token::RBrace => "}",
            Token::LBracket => "[",
            Token::RBracket => "]",
            Token::Comma => ",",
            Token::Call => "call",
            Token::Ret => "ret",
            Token::Move => "move",
            Token::Jmp => "jmp",
            Token::Jt => "jt",
            Token::Jf => "jf",
            Token::JLt => "jlt",
            Token::JLe => "jle",
            Token::JGt => "jgt",
            Token::JGe => "jge",
            Token::JEq => "jeq",
            Token::JNe => "jne",
            Token::Lt => "lt",
            Token::Le => "le",
            Token::Gt => "gt",
            Token::Ge => "ge",
            Token::Eq => "eq",
            Token::Ne => "ne",
            Token::Add => "add",
            Token::Sub => "sub",
            Token::Mul => "mul",
            Token::Div => "div",
            Token::Mod => "mod",
            Token::Not => "not",
            Token::And => "and",
            Token::Or => "or",
            Token::Xor => "xor",
            Token::Shl => "shl",
            Token::Shr => "shr",
            Token::Write => "write",
            Token::String => "string",
            Token::Number => "number",
            Token::Label => "label",
            Token::Function => "function",
            Token::Register => "register",
            Token::Operand => "operand",
            Token::Instruction => "instruction",
            Token::EOL => "end of line",
            Token::EOF => "end of file",
        }
    }
}

fn mnemonic_token(i: usize) -> (r: Token)
    ensures
        r == mnemonic_at(i as int),
        r != Token::EOL && r != Token::EOF,
{
    match i {
        0 => Token::Call,
        1 => Token::Ret,
        2 => Token::Move,
        3 => Token::Jmp,
        4 => Token::Jt,
        5 => Token::Jf,
        6 => Token::JLt,
        7 => Token::JLe,
        8 => Token::JGt,
        9 => Token::JGe,
        10 => Token::JEq,
        11 => Token::JNe,
        12 => Token::Lt,
        13 => Token::Le,
        14 => Token::Gt,
        15 => Token::Ge,
        16 => Token::Eq,
        17 => Token::Ne,
        18 => Token::Add,
        19 => Token::Sub,
        20 => Token::Mul,
        21 => Token::Div,
        22 => Token::Mod,
        23 => Token::Not,
        24 => Token::And,
        25 => Token::Or,
        26 => Token::Xor,
        27 => Token::Shl,
        28 => Token::Shr,
        _ => Token::Write,
    }
}

fn lowered_equals(w: &Vec<char>, t: &str) -> (r: bool)
    ensures
        r == matches_lowered(w@, t@),
{
    let n = t.unicode_len();
    if w.len() != n {
        return false;
    }
    let mut i: usize = 0;
    while i < n
        invariant
            n == t@.len(),
            w@.len() == n,
            i <= n,
            forall|k: int| 0 <= k < i ==> same_letter(w@[k], t@[k]),
        decreases n - i,
    {
        let c = w[i];
        let l = t.get_char(i);
        let lu = l as u32;
        if !(c == l || (97 <= lu && lu <= 122 && (c as u32) == lu - 32)) {
            return false;
        }
        i += 1;
    }
    true
}

/// The mnemonic token spelled by `w`, letters in either case.
fn instruction_token(w: &Vec<char>) -> (r: Option<Token>)
    ensures
        r == find_mnemonic(w@, 0),
        r matches Some(t) ==> t != Token::EOL && t != Token::EOF,
{
    let mut i: usize = 0;
    while i < MNEMONIC_COUNT
        invariant
            i <= MNEMONIC_COUNT,
            find_mnemonic(w@, 0) == find_mnemonic(w@, i as int),
        decreases MNEMONIC_COUNT - i,
    {
        let tok = mnemonic_token(i);
        if lowered_equals(w, tok.text()) {
            return Some(tok);
        }
        i += 1;
    }
    None
}

fn is_word_char_exec(c: char) -> (r: bool)
    ensures
        r == is_word_char(c),
{
    ('a' <= c && c <= 'z') || ('A' <= c && c <= 'Z') || ('0' <= c && c <= '9') || c == '_'
}

pub(crate) fn is_digit_exec(c: char) -> (r: bool)
    ensures
        r == is_digit(c),
{
    '0' <= c && c <= '9'
}

fn word_end_exec(s: &Vec<char>, i: usize) -> (e: usize)
    requires
        i <= s@.len(),
    ensures
        (i < s@.len() && is_word_char(s@[i as int])) ==> e > i,
        e == word_end(s@, i as int),
        i <= e <= s@.len(),
{
    let mut j = i;
    while j < s.len() && is_word_char_exec(s[j])
        invariant
            i <= j <= s@.len(),
            word_end(s@, j as int) == word_end(s@, i as int),
        decreases s@.len() - j,
    {
        j += 1;
    }
    j
}

pub(crate) fn digits_end_exec(s: &Vec<char>, i: usize) -> (e: usize)
    requires
        i <= s@.len(),
    ensures
        (i < s@.len() && is_digit(s@[i as int])) ==> e > i,
        e == digits_end(s@, i as int),
        i <= e <= s@.len(),
{
    let mut j = i;
    while j < s.len() && is_digit_exec(s[j])
        invariant
            i <= j <= s@.len(),
            digits_end(s@, j as int) == digits_end(s@, i as int),
        decreases s@.len() - j,
    {
        j += 1;
    }
    j
}

fn number_end_exec(s: &Vec<char>, i: usize) -> (e: usize)
    requires
        i <= s@.len(),
    ensures
        e == number_end(s@, i as int),
        i <= e <= s@.len(),
        (i < s@.len() && is_digit(s@[i as int])) ==> e > i,
{
    let d = digits_end_exec(s, i);
    if d < s.len() && s[d] == '.' && d + 1 < s.len() && is_digit_exec(s[d + 1]) {
        digits_end_exec(s, d + 1)
    } else {
        d
    }
}

/// The characters of `s` from `from` up to `to`, as a `String`.
fn text_between(s: &Vec<char>, from: usize, to: usize) -> (r: String)
    requires
        from <= to <= s@.len(),
    ensures
        r@ == s@.subrange(from as int, to as int),
{
    let mut r = String::new();
    let mut j = from;
    while j < to
        invariant
            from <= j <= to <= s@.len(),
            r@ == s@.subrange(from as int, j as int),
        decreases to - j,
    {
        push_char(&mut r, s[j]);
        assert(s@.subrange(from as int, j + 1) =~= s@.subrange(from as int, j as int).push(s@[j as int]));
        j += 1;
    }
    r
}

fn push_escaped(acc: &mut String, c: char)
    ensures
        final(acc)@ == old(acc)@ + escaped(c),
{
    let d = if c == '\\' { '\\' }
    else if c == '\'' { '\'' }
    else if c == '"' { '"' }
    else if c == 'n' { '\n' }
    else if c == 'r' { '\r' }
    else if c == 't' { '\t' }
    else if c == 'a' { '\x07' }
    else if c == 'b' { '\x08' }
    else if c == 'f' { '\x0c' }
    else if c == 'v' { '\x0b' }
    else {
        push_char(acc, '\\');
        push_char(acc, c);
        assert(final(acc)@ =~= old(acc)@ + escaped(c));
        return;
    };
    push_char(acc, d);
    assert(final(acc)@ =~= old(acc)@ + escaped(c));
}

/// Reads a string body starting at `start`, just after the opening quote.
fn string_body(s: &Vec<char>, start: usize) -> (r: (Option<String>, usize))
    requires
        start <= s@.len(),
    ensures
        ({
            let (body, j) = scan_string(s@, start as int, Seq::empty());
            &&& r.1 == j
            &&& match body {
                Some(v) => r.0 matches Some(x) && x@ == v,
                None => r.0 is None,
            }
        }),
        start <= r.1 <= s@.len(),
        r.0 is Some ==> r.1 < s@.len(),
{
    let mut acc = String::new();
    let mut j = start;
    loop
        invariant
            start <= j <= s@.len(),
            scan_string(s@, j as int, acc@) == scan_string(s@, start as int, Seq::empty()),
        decreases s@.len() - j,
    {
        if j >= s.len() {
            return (None, j);
        }
        let c = s[j];
        if c == '"' {
            return (Some(acc), j);
        } else if c == '\n' {
            return (None, j);
        } else if c == '\\' {
            if j + 1 >= s.len() || s[j + 1] == '\n' {
                return (None, j + 1);
            }
            push_escaped(&mut acc, s[j + 1]);
            j += 2;
        } else {
            push_char(&mut acc, c);
            j += 1;
        }
    }
}

/// Turns source text into tokens. A token that carries text (a string, a number,
/// a label, a register or a function name) leaves it to be taken once.
#[derive(Clone, Debug)]
pub struct Lexer {
    chars: Vec<char>,
    pos: usize,
    line: usize,
    value: Option<String>,
}

/// Relies on std's `str::chars`, collected: the characters of the text, in order.
#[verifier::external_body]
pub(crate) fn chars_of(source: &str) -> (r: Vec<char>)
    ensures
        r@ == source@,
{
    source.chars().collect()
}

impl Lexer {
    /// The text being read.
    pub closed spec fn source(&self) -> Seq<char> {
        self.chars@
    }

    /// Where reading stands in the text.
    pub closed spec fn cursor(&self) -> int {
        self.pos as int
    }

    /// The newlines read so far.
    pub closed spec fn lines(&self) -> nat {
        self.line as nat
    }

    /// The text of the last token that carried one, until it is taken.
    pub closed spec fn pending(&self) -> Option<Seq<char>> {
        match self.value {
            Some(v) => Some(v@),
            None => None,
        }
    }

    pub closed spec fn wf(&self) -> bool {
        self.line <= self.pos <= self.chars@.len()
    }

    pub proof fn lemma_cursor_bounds(&self)
        requires
            self.wf(),
        ensures
            0 <= self.cursor() <= self.source().len(),
    {
    }

    /// A lexer at the start of `source`, past any leading newlines.
    pub fn new(source: &str) -> (r: Lexer)
        ensures
            r.wf(),
            r.source() == source@,
            r.cursor() == newlines_end(source@, 0),
            r.lines() == r.cursor(),
            r.pending() is None,
    {
        let chars = chars_of(source);
        let mut pos: usize = 0;
        while pos < chars.len() && chars[pos] == '\n'
            invariant
                pos <= chars@.len(),
                newlines_end(chars@, pos as int) == newlines_end(chars@, 0),
            decreases chars@.len() - pos,
        {
            pos += 1;
        }
        Lexer { chars, pos, line: pos, value: None }
    }

    fn skip_trivia(&mut self)
        requires
            old(self).wf(),
        ensures
            final(self).wf(),
            final(self).pos >= old(self).pos,
            final(self).chars@ == old(self).chars@,
            final(self).line == old(self).line,
            final(self).value == old(self).value,
            final(self).pos == skip_trivia(old(self).chars@, old(self).pos as int),
    {
        while self.pos < self.chars.len()
            invariant
                self.wf(),
                self.pos >= old(self).pos,
                self.chars@ == old(self).chars@,
                self.line == old(self).line,
                self.value == old(self).value,
                skip_trivia(self.chars@, self.pos as int) == skip_trivia(
                    old(self).chars@,
                    old(self).pos as int,
                ),
            decreases self.chars@.len() - self.pos,
        {
            let c = self.chars[self.pos];
            if c == ' ' || c == '\t' || c == '\r' {
                self.pos += 1;
            } else if c == ';' {
                let mut j = self.pos;
                while j < self.chars.len() && self.chars[j] != '\n'
                    invariant
                        self.pos <= j <= self.chars@.len(),
                        line_end(self.chars@, j as int) == line_end(self.chars@, self.pos as int),
                    decreases self.chars@.len() - j,
                {
                    j += 1;
                }
                self.pos = j;
                return;
            } else {
                return;
            }
        }
    }

    /// Reads the next token. At the end of the text it keeps answering `EOF`.
    pub fn next_token(&mut self) -> (r: Result<Token, MachinaError>)
        requires
            old(self).wf(),
        ensures
            final(self).wf(),
            final(self).source() == old(self).source(),
            final(self).cursor() == scan(old(self).source(), old(self).cursor()).1,
            match scan(old(self).source(), old(self).cursor()).0 {
                Lexed::Plain(t) => r == Ok::<Token, MachinaError>(t) && final(self).pending()
                    == old(self).pending(),
                Lexed::WithText(t, v) => r == Ok::<Token, MachinaError>(t) && final(self).pending()
                    == Some(v),
                Lexed::Fail(e) => r matches Err(x) && x@ == e && final(self).pending()
                    == old(self).pending(),
            },
            final(self).lines() == old(self).lines() + if r == Ok::<Token, MachinaError>(
                Token::EOL,
            ) {
                1int
            } else {
                0int
            },
            r != Ok::<Token, MachinaError>(Token::EOF) ==> final(self).cursor() > old(self).cursor(),
            r == Ok::<Token, MachinaError>(Token::EOF) ==> final(self).cursor() == old(self).source().len(),
    {
        self.skip_trivia();
        let t = self.pos;
        if t >= self.chars.len() {
            return Ok(Token::EOF);
        }
        let c = self.chars[t];
        if c == '.' || c == '%' || c == '@' {
            let e = word_end_exec(&self.chars, t + 1);
            let kind = if c == '.' {
                Token::Label
            } else if c == '%' {
                Token::Register
            } else {
                Token::Function
            };
            self.value = Some(text_between(&self.chars, t + 1, e));
            self.pos = e;
            Ok(kind)
        } else if ('a' <= c && c <= 'z') || ('A' <= c && c <= 'Z') {
            let e = word_end_exec(&self.chars, t);
            let word = self.chars_between(t, e);
            self.pos = e;
            match instruction_token(&word) {
                Some(tok) => Ok(tok),
                None => Err(MachinaError::InvalidInstruction(text_between(&self.chars, t, e))),
            }
        } else if is_digit_exec(c) {
            let e = number_end_exec(&self.chars, t);
            self.value = Some(text_between(&self.chars, t, e));
            self.pos = e;
            Ok(Token::Number)
        } else if (c == '-' || c == '+') && t + 1 < self.chars.len() && is_digit_exec(
            self.chars[t + 1],
        ) {
            let e = number_end_exec(&self.chars, t + 1);
            self.value = Some(text_between(&self.chars, t, e));
            self.pos = e;
            Ok(Token::Number)
        } else if c == '"' {
            let (body, j) = string_body(&self.chars, t + 1);
            match body {
                Some(v) => {
                    self.value = Some(v);
                    self.pos = j + 1;
                    Ok(Token::String)
                },
                None => {
                    self.pos = j;
                    Err(MachinaError::UnterminatedString)
                },
            }
        } else if c == '\n' {
            self.line += 1;
            self.pos = t + 1;
            Ok(Token::EOL)
        } else {
            self.pos = t + 1;
            if c == ',' {
                Ok(Token::Comma)
            } else if c == '(' {
                Ok(Token::LParen)
            } else if c == ')' {
                Ok(Token::RParen)
            } else if c == '{' {
                Ok(Token::LBrace)
            } else if c == '}' {
                Ok(Token::RBrace)
            } else if c == '[' {
                Ok(Token::LBracket)
            } else if c == ']' {
                Ok(Token::RBracket)
            } else {
                Err(MachinaError::InvalidCharacter(c))
            }
        }
    }

    fn chars_between(&self, from: usize, to: usize) -> (r: Vec<char>)
        requires
            from <= to <= self.chars@.len(),
        ensures
            r@ == self.chars@.subrange(from as int, to as int),
    {
        let mut r: Vec<char> = Vec::new();
        let mut j = from;
        while j < to
            invariant
                from <= j <= to <= self.chars@.len(),
                r@ == self.chars@.subrange(from as int, j as int),
            decreases to - j,
        {
            r.push(self.chars[j]);
            assert(self.chars@.subrange(from as int, j + 1) =~= self.chars@.subrange(
                from as int,
                j as int,
            ).push(self.chars@[j as int]));
            j += 1;
        }
        r
    }

    /// The next token, always present: the end of the text gives `EOF`.
    pub fn next(&mut self) -> (r: Option<Result<Token, MachinaError>>)
        requires
            old(self).wf(),
        ensures
            final(self).wf(),
            final(self).source() == old(self).source(),
            final(self).cursor() == scan(old(self).source(), old(self).cursor()).1,
            r matches Some(t) && match scan(old(self).source(), old(self).cursor()).0 {
                Lexed::Plain(k) => t == Ok::<Token, MachinaError>(k),
                Lexed::WithText(k, v) => t == Ok::<Token, MachinaError>(k) && final(self).pending()
                    == Some(v),
                Lexed::Fail(e) => t matches Err(x) && x@ == e,
            },
    {
        Some(self.next_token())
    }

    /// The number of newlines read so far.
    pub fn line(&self) -> (r: usize)
        ensures
            r == self.lines(),
    {
        self.line
    }

    /// Hands over the text of the last token that carried one, once.
    pub fn take_value(&mut self) -> (r: Option<String>)
        ensures
            final(self).pending() is None,
            match old(self).pending() {
                Some(v) => r matches Some(x) && x@ == v,
                None => r is None,
            },
            final(self).source() == old(self).source(),
            final(self).cursor() == old(self).cursor(),
            final(self).lines() == old(self).lines(),
            old(self).wf() ==> final(self).wf(),
    {
        self.value.take()
    }
}


proof fn lemma_word_end_run(s: Seq<char>, i: int, j: int)
    requires
        0 <= i <= j <= s.len(),
        forall|k: int| i <= k < j ==> is_word_char(#[trigger] s[k]),
        j == s.len() || !is_word_char(s[j]),
    ensures
        word_end(s, i) == j,
    decreases j - i,
{
    if i < j {
        lemma_word_end_run(s, i + 1, j);
    }
}

proof fn lemma_digits_end_run(s: Seq<char>, i: int, j: int)
    requires
        0 <= i <= j <= s.len(),
        forall|k: int| i <= k < j ==> is_digit(#[trigger] s[k]),
        j == s.len() || !is_digit(s[j]),
    ensures
        digits_end(s, i) == j,
    decreases j - i,
{
    if i < j {
        lemma_digits_end_run(s, i + 1, j);
    }
}

/// A label, register or function reference written as its marker and its name,
/// and followed by anything that cannot continue a name, reads back as that
/// token carrying that name.
pub proof fn lemma_reference_lexes_back(marker: char, name: Seq<char>, rest: Seq<char>)
    requires
        marker == '.' || marker == '%' || marker == '@',
        forall|k: int| 0 <= k < name.len() ==> is_word_char(#[trigger] name[k]),
        rest.len() == 0 || !is_word_char(rest[0]),
    ensures
        ({
            let s = seq![marker] + name + rest;
            let kind = if marker == '.' {
                Token::Label
            } else if marker == '%' {
                Token::Register
            } else {
                Token::Function
            };
            scan(s, 0) == (Lexed::WithText(kind, name), 1 + name.len() as int)
        }),
{
    let s = seq![marker] + name + rest;
    let e = 1 + name.len() as int;
    assert forall|k: int| 1 <= k < e implies is_word_char(#[trigger] s[k]) by {
        assert(s[k] == name[k - 1]);
    }
    if rest.len() > 0 {
        assert(s[e] == rest[0]);
    }
    lemma_word_end_run(s, 1, e);
    assert(s.subrange(1, e) =~= name);
}

/// A signed run of digits, followed by anything that cannot continue a number,
/// reads back as a number token carrying exactly that text.
pub proof fn lemma_integer_lexes_back(text: Seq<char>, rest: Seq<char>)
    requires
        text.len() >= 1,
        text[0] == '-' || is_digit(text[0]),
        text[0] == '-' ==> text.len() >= 2,
        forall|k: int| 1 <= k < text.len() ==> is_digit(#[trigger] text[k]),
        rest.len() == 0 || (!is_digit(rest[0]) && rest[0] != '.'),
    ensures
        scan(text + rest, 0) == (Lexed::WithText(Token::Number, text), text.len() as int),
{
    let s = text + rest;
    let e = text.len() as int;
    let b = if text[0] == '-' {
        1int
    } else {
        0int
    };
    assert forall|k: int| b <= k < e implies is_digit(#[trigger] s[k]) by {
        assert(s[k] == text[k]);
    }
    if rest.len() > 0 {
        assert(s[e] == rest[0]);
    }
    lemma_digits_end_run(s, b, e);
    if b == 1 {
        assert(s[1] == text[1]);
    }
    assert(s.subrange(0, e) =~= text);
}


/// Where reading stands after `n` tokens read from `i`.
pub open spec fn after_tokens(s: Seq<char>, i: int, n: nat) -> int
    decreases n,
{
    if n == 0 {
        i
    } else {
        scan(s, after_tokens(s, i, (n - 1) as nat)).1
    }
}

/// The token `n` places ahead when reading from `i` (`0` is the next one).
pub open spec fn token_at(s: Seq<char>, i: int, n: nat) -> Lexed {
    scan(s, after_tokens(s, i, n)).0
}

/// The kind of a token read, if it was read without error.
pub open spec fn kind_of(l: Lexed) -> Option<Token> {
    match l {
        Lexed::Plain(t) => Some(t),
        Lexed::WithText(t, _) => Some(t),
        Lexed::Fail(_) => None,
    }
}

/// The tokens that carry a text.
pub open spec fn is_payload(t: Token) -> bool {
    t == Token::String || t == Token::Number || t == Token::Label || t == Token::Function || t
        == Token::Register
}

proof fn lemma_find_mnemonic_plain(w: Seq<char>, i: int)
    ensures
        find_mnemonic(w, i) matches Some(t) ==> !is_payload(t),
    decreases MNEMONIC_COUNT - i,
{
    if 0 <= i < MNEMONIC_COUNT && !matches_lowered(w, token_text(mnemonic_at(i))) {
        lemma_find_mnemonic_plain(w, i + 1);
    }
}

pub proof fn lemma_after_tokens_add(s: Seq<char>, i: int, a: nat, b: nat)
    ensures
        after_tokens(s, after_tokens(s, i, a), b) == after_tokens(s, i, a + b),
    decreases b,
{
    if b > 0 {
        lemma_after_tokens_add(s, i, a, (b - 1) as nat);
        assert(after_tokens(s, i, a + b) == scan(s, after_tokens(s, i, (a + b - 1) as nat)).1);
    }
}

/// A token read without text is never one that carries text, and one read with text always is.
pub proof fn lemma_scan_payload(s: Seq<char>, i: int)
    ensures
        scan(s, i).0 matches Lexed::Plain(t) ==> !is_payload(t),
        scan(s, i).0 matches Lexed::WithText(t, _) ==> is_payload(t),
{
    let t = skip_trivia(s, i);
    if 0 <= t < s.len() && is_letter(s[t]) {
        lemma_find_mnemonic_plain(s.subrange(t, word_end(s, t)), 0);
    }
}

} // verus!
