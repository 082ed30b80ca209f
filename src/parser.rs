use vstd::prelude::*;

use crate::bytecode::{Module, OpCode};
use crate::error::{Diagnostics, ErrorView, MachinaError};
use crate::lexer::{
    newlines_end, after_tokens, is_payload, kind_of, lemma_after_tokens_add, lemma_scan_payload, scan, token_at,
    token_text, Lexed, Lexer, Token,
};
use crate::link::{
    all_resolve, is_operand_error, link, module_linked, operand_counts_ok, pool_view, program_pool,
    tables_fit,
};

verus! {

/// An operand as written in the source, before linking.
#[derive(Clone, Debug)]
pub enum PreOperand {
    Absent,
    String(String),
    Number(String),
    Register(String),
    Function(String),
    Label(String),
}

pub ghost enum OperandText {
    Absent,
    String(Seq<char>),
    Number(Seq<char>),
    Register(Seq<char>),
    Function(Seq<char>),
    Label(Seq<char>),
}

impl View for PreOperand {
    type V = OperandText;

    open spec fn view(&self) -> OperandText {
        match self {
            PreOperand::Absent => OperandText::Absent,
            PreOperand::String(s) => OperandText::String(s@),
            PreOperand::Number(s) => OperandText::Number(s@),
            PreOperand::Register(s) => OperandText::Register(s@),
            PreOperand::Function(s) => OperandText::Function(s@),
            PreOperand::Label(s) => OperandText::Label(s@),
        }
    }
}

/// An instruction as written: its opcode, its source line and its textual operands.
#[derive(Clone, Debug)]
pub struct PreInstruction {
    pub opcode: OpCode,
    pub line: usize,
    pub operands: Vec<PreOperand>,
}

/// A labelled run of instructions.
#[derive(Clone, Debug)]
pub struct Block {
    pub label: String,
    pub instructions: Vec<PreInstruction>,
}

/// A function as written: its name, the line it starts on, and its blocks.
#[derive(Clone, Debug)]
pub struct PreFunction {
    pub name: String,
    pub line: usize,
    pub blocks: Vec<Block>,
}


/// A token between backquotes, as diagnostics show it.
pub open spec fn quoted(t: Token) -> Seq<char> {
    "`"@ + token_text(t) + "`"@
}

/// The tokens a diagnostic expected, joined by " or ".
pub open spec fn expected_text(ts: Seq<Token>) -> Seq<char>
    decreases ts.len(),
{
    if ts.len() == 0 {
        Seq::empty()
    } else if ts.len() == 1 {
        quoted(ts[0])
    } else {
        expected_text(ts.drop_last()) + " or "@ + quoted(ts.last())
    }
}

/// A value operand: a register, a number or a string.
pub open spec fn is_value(op: OperandText) -> bool {
    op is Register || op is Number || op is String
}

/// The operands fit the opcode's signature.
pub open spec fn signature_ok(opcode: OpCode, ops: Seq<OperandText>) -> bool {
    match opcode {
        OpCode::Call => ops.len() == 4 && ops[0] is Function && ops[1] is Register
            && ops[2] is Register && ops[3] is Register,
        OpCode::Jmp => ops.len() == 1 && ops[0] is Label,
        OpCode::Jt | OpCode::Jf => ops.len() == 2 && ops[0] is Label && ops[1] is Register,
        OpCode::JLt | OpCode::JLe | OpCode::JGt | OpCode::JGe | OpCode::JEq | OpCode::JNe => ops.len()
            == 3 && ops[0] is Label && ops[1] is Register && is_value(ops[2]),
        OpCode::Not => ops.len() == 1 && ops[0] is Register,
        OpCode::Ret | OpCode::Write => ops.len() == 1 && (ops[0] is Register || ops[0] is Absent),
        _ => ops.len() == 2 && ops[0] is Register && is_value(ops[1]),
    }
}

pub open spec fn operand_texts(ins: PreInstruction) -> Seq<OperandText> {
    ins.operands@.map_values(|o: PreOperand| o@)
}

/// Every instruction of the block fits its opcode's signature.
pub open spec fn block_ok(b: Block) -> bool {
    forall|j: int|
        0 <= j < b.instructions@.len() ==> signature_ok(
            (#[trigger] b.instructions@[j]).opcode,
            operand_texts(b.instructions@[j]),
        )
}

/// A parsed function: a first block labelled `<main>`, at least one instruction
/// or label, and every instruction fits its signature.
pub open spec fn function_ok(f: PreFunction) -> bool {
    &&& f.blocks@.len() >= 1
    &&& f.blocks@[0].label@ == "<main>"@
    &&& (f.blocks@[0].instructions@.len() > 0 || f.blocks@.len() > 1)
    &&& forall|k: int| 0 <= k < f.blocks@.len() ==> block_ok(#[trigger] f.blocks@[k])
}

pub proof fn lemma_signature_counts(opcode: OpCode, ops: Seq<OperandText>)
    requires
        signature_ok(opcode, ops),
    ensures
        ops.len() <= 4,
{
}

/// The operand kind that `kind` asks for (`Operand` stands for any value).
pub open spec fn fits_kind(kind: Token, op: OperandText) -> bool {
    if kind == Token::Operand {
        is_value(op)
    } else {
        match op {
            OperandText::String(_) => kind == Token::String,
            OperandText::Number(_) => kind == Token::Number,
            OperandText::Register(_) => kind == Token::Register,
            OperandText::Function(_) => kind == Token::Function,
            OperandText::Label(_) => kind == Token::Label,
            OperandText::Absent => false,
        }
    }
}

/// A value token: a string, a number or a register.
pub open spec fn value_kind(t: Token) -> bool {
    t == Token::String || t == Token::Number || t == Token::Register
}

/// The token read is of the kind `p` asks for (`Operand`: any value).
pub open spec fn fits_pattern(p: Token, l: Lexed) -> bool {
    kind_of(l) matches Some(t) && if p == Token::Operand {
        value_kind(t)
    } else {
        t == p
    }
}

/// Reading `s` from `i`, the tokens spell `pattern`, and the one after them reads without error.
pub open spec fn spells(s: Seq<char>, i: int, pattern: Seq<Token>) -> bool {
    &&& forall|k: nat| k < pattern.len() ==> fits_pattern(pattern[k as int], #[trigger] token_at(s, i, k))
    &&& kind_of(token_at(s, i, pattern.len())) is Some
}

/// The operand tokens an opcode's signature asks for, commas included.
pub open spec fn operand_pattern(op: OpCode) -> Seq<Token> {
    match op {
        OpCode::Call => seq![
            Token::Function,
            Token::Comma,
            Token::Register,
            Token::Comma,
            Token::Register,
            Token::Comma,
            Token::Register,
        ],
        OpCode::Jmp => seq![Token::Label],
        OpCode::Jt | OpCode::Jf => seq![Token::Label, Token::Comma, Token::Register],
        OpCode::JLt | OpCode::JLe | OpCode::JGt | OpCode::JGe | OpCode::JEq | OpCode::JNe => seq![
            Token::Label,
            Token::Comma,
            Token::Register,
            Token::Comma,
            Token::Operand,
        ],
        OpCode::Not | OpCode::Ret | OpCode::Write => seq![Token::Register],
        _ => seq![Token::Register, Token::Comma, Token::Operand],
    }
}

/// After the mnemonic of `op`, reading `s` from `i` gives its operands; `RET` and
/// `WRITE` may instead end at the end of the line.
pub open spec fn instruction_follows(op: OpCode, s: Seq<char>, i: int) -> bool {
    ||| spells(s, i, operand_pattern(op))
    ||| (op == OpCode::Ret || op == OpCode::Write) && (kind_of(token_at(s, i, 0)) == Some(Token::EOL)
        || kind_of(token_at(s, i, 0)) == Some(Token::EOF))
}

proof fn lemma_token_shift(s: Seq<char>, c: int, a: nat, k: nat)
    ensures
        token_at(s, after_tokens(s, c, a), k) == token_at(s, c, a + k),
{
    lemma_after_tokens_add(s, c, a, k);
}

/// What is left of a spelled pattern after its first `m` tokens were read.
proof fn lemma_spells_suffix(s: Seq<char>, c: int, pattern: Seq<Token>, m: nat, n: nat)
    requires
        spells(s, c, pattern),
        m + n <= pattern.len(),
    ensures
        spells(s, after_tokens(s, c, m), pattern.subrange(m as int, (m + n) as int)),
        m < pattern.len() ==> fits_pattern(pattern[m as int], token_at(s, c, m)),
{
    let sub = pattern.subrange(m as int, (m + n) as int);
    assert forall|k: nat| k < sub.len() implies fits_pattern(
        sub[k as int],
        #[trigger] token_at(s, after_tokens(s, c, m), k),
    ) by {
        lemma_token_shift(s, c, m, k);
        assert(fits_pattern(pattern[(m + k) as int], token_at(s, c, (m + k) as nat)));
    }
    lemma_token_shift(s, c, m, n);
    if m + n < pattern.len() {
        assert(fits_pattern(pattern[(m + n) as int], token_at(s, c, (m + n) as nat)));
    }
    if m < pattern.len() {
        assert(fits_pattern(pattern[m as int], token_at(s, c, m)));
    }
}

/// Reading stands `k` tokens into a spelled pattern: the tokens still ahead, up to
/// the next comma if `comma`, are spelled too, and the counts compose.
proof fn lemma_operand_stage(s: Seq<char>, c: int, pattern: Seq<Token>, k: nat, comma: bool)
    requires
        spells(s, c, pattern),
        1 <= k <= pattern.len(),
        comma ==> k < pattern.len() && pattern[k as int] == Token::Comma,
    ensures
        spells(
            s,
            after_tokens(s, c, k),
            if comma {
                seq![Token::Comma]
            } else {
                seq![]
            },
        ) || !comma && k < pattern.len(),
        fits_pattern(pattern[k - 1], token_at(s, c, (k - 1) as nat)),
        after_tokens(s, after_tokens(s, c, k), 1) == after_tokens(s, c, k + 1),
        after_tokens(s, after_tokens(s, c, k), 2) == after_tokens(s, c, k + 2),
        token_at(s, after_tokens(s, c, k), 0) == token_at(s, c, k),
        token_at(s, after_tokens(s, c, k), 1) == token_at(s, c, k + 1),
{
    lemma_spells_suffix(s, c, pattern, (k - 1) as nat, 0);
    lemma_after_tokens_add(s, c, k, 1);
    lemma_after_tokens_add(s, c, k, 2);
    lemma_token_shift(s, c, k, 0);
    lemma_token_shift(s, c, k, 1);
    if comma {
        lemma_spells_suffix(s, c, pattern, k, 1);
        assert(pattern.subrange(k as int, k + 1int) =~= seq![Token::Comma]);
    } else if k == pattern.len() {
        lemma_spells_suffix(s, c, pattern, k, 0);
        assert(pattern.subrange(k as int, k as int) =~= Seq::<Token>::empty());
    }
}

/// The written operand that a token of kind `kind` with text `v` stands for.
pub open spec fn text_operand(kind: Token, v: Seq<char>) -> OperandText {
    if kind == Token::String {
        OperandText::String(v)
    } else if kind == Token::Number {
        OperandText::Number(v)
    } else if kind == Token::Register {
        OperandText::Register(v)
    } else if kind == Token::Function {
        OperandText::Function(v)
    } else {
        OperandText::Label(v)
    }
}

/// The text a token read carries.
pub open spec fn payload(l: Lexed) -> Seq<char> {
    match l {
        Lexed::WithText(_, v) => v,
        _ => Seq::empty(),
    }
}

/// The written operand a token read stands for.
pub open spec fn operand_of(l: Lexed) -> OperandText {
    text_operand(kind_of(l)->0, payload(l))
}

/// The operands written after the mnemonic of `op`, read from `c` on.
pub open spec fn instruction_texts(op: OpCode, s: Seq<char>, c: int) -> Seq<OperandText> {
    if spells(s, c, operand_pattern(op)) {
        let o0 = operand_of(token_at(s, c, 0));
        let o2 = operand_of(token_at(s, c, 2));
        let o4 = operand_of(token_at(s, c, 4));
        let o6 = operand_of(token_at(s, c, 6));
        match op {
            OpCode::Call => seq![o0, o2, o4, o6],
            OpCode::Jmp | OpCode::Not | OpCode::Ret | OpCode::Write => seq![o0],
            OpCode::JLt | OpCode::JLe | OpCode::JGt | OpCode::JGe | OpCode::JEq | OpCode::JNe => seq![
                o0,
                o2,
                o4,
            ],
            _ => seq![o0, o2],
        }
    } else {
        seq![OperandText::Absent]
    }
}

/// The parser stands on a token that carries text: the operand it makes is the one the token stands for.
proof fn lemma_read_operand(p: Parser, s: Seq<char>, pos: int)
    requires
        p.on(scan(s, pos).0),
        is_payload(p.token),
    ensures
        text_operand(p.token, p.lexer.pending()->0) == operand_of(scan(s, pos).0),
{
    lemma_scan_payload(s, pos);
}

/// The current token `t` is of the kind `kind` asks for (`Operand`: any value).
pub open spec fn fits_pattern_token(kind: Token, t: Token) -> bool {
    if kind == Token::Operand {
        value_kind(t)
    } else {
        t == kind
    }
}

/// The tokens an instruction's operands take after its mnemonic (none for a bare `RET` or `WRITE`).
pub open spec fn operand_count(op: OpCode, s: Seq<char>, c: int) -> nat {
    if spells(s, c, operand_pattern(op)) {
        operand_pattern(op).len()
    } else {
        0
    }
}

/// An instruction as its opcode and written operands.
pub type InsText = (OpCode, Seq<OperandText>);

/// A block as its label and instructions.
pub type BlockText = (Seq<char>, Seq<InsText>);

/// A function as its name and blocks.
pub type FunctionText = (Seq<char>, Seq<BlockText>);

pub open spec fn ins_text(i: PreInstruction) -> InsText {
    (i.opcode, operand_texts(i))
}

pub open spec fn block_text(b: Block) -> BlockText {
    (b.label@, b.instructions@.map_values(|i: PreInstruction| ins_text(i)))
}

pub open spec fn function_text(f: PreFunction) -> FunctionText {
    (f.name@, f.blocks@.map_values(|b: Block| block_text(b)))
}

/// A token that ends a block: a label, a function or the end.
pub open spec fn ends_block(l: Lexed) -> bool {
    kind_of(l) == Some(Token::Label) || kind_of(l) == Some(Token::Function) || kind_of(l) == Some(
        Token::EOF,
    )
}

/// Reading from `c`, standing on the token read as `cur`: where reading stands after
/// the end-of-line tokens there, or `None` if reading fails or `fuel` runs out.
pub open spec fn skip_lines(s: Seq<char>, c: int, cur: Lexed, fuel: nat) -> Option<(int, Lexed)>
    decreases fuel,
{
    if kind_of(cur) != Some(Token::EOL) {
        Some((c, cur))
    } else if fuel == 0 {
        None
    } else {
        let l = token_at(s, c, 0);
        if kind_of(l) is Some {
            skip_lines(s, after_tokens(s, c, 1), l, (fuel - 1) as nat)
        } else {
            None
        }
    }
}

/// Reading from `c`, standing on `cur`: a run of instructions, each followed by
/// end-of-line tokens, up to a label, a function or the end. Where it stops, and
/// the instructions it spells.
pub open spec fn block_spelled(s: Seq<char>, c: int, cur: Lexed, fuel: nat) -> Option<
    (int, Lexed, Seq<InsText>),
>
    decreases fuel,
{
    if ends_block(cur) {
        Some((c, cur, Seq::empty()))
    } else if fuel == 0 || kind_of(cur) is None {
        None
    } else {
        match opcode_of(kind_of(cur)->0) {
            Some(op) => if instruction_follows(op, s, c) {
                let n = operand_count(op, s, c);
                match skip_lines(s, after_tokens(s, c, n + 1), token_at(s, c, n), (fuel - 1) as nat) {
                    Some((c2, l2)) => match block_spelled(s, c2, l2, (fuel - 1) as nat) {
                        Some((c3, l3, rest)) => Some(
                            (c3, l3, seq![(op, instruction_texts(op, s, c))] + rest),
                        ),
                        None => None,
                    },
                    None => None,
                }
            } else {
                None
            },
            None => None,
        }
    }
}

/// Labelled blocks, one after the other, from `c` standing on `cur`: where they
/// stop, and the blocks they spell.
pub open spec fn labelled_blocks(s: Seq<char>, c: int, cur: Lexed, fuel: nat) -> Option<
    (int, Lexed, Seq<BlockText>),
>
    decreases fuel,
{
    if kind_of(cur) != Some(Token::Label) {
        Some((c, cur, Seq::empty()))
    } else if fuel == 0 {
        None
    } else {
        let l1 = token_at(s, c, 0);
        if kind_of(l1) is None {
            None
        } else {
            match skip_lines(s, after_tokens(s, c, 1), l1, (fuel - 1) as nat) {
                Some((c2, l2)) => match block_spelled(s, c2, l2, (fuel - 1) as nat) {
                    Some((c3, l3, ins)) => match labelled_blocks(s, c3, l3, (fuel - 1) as nat) {
                        Some((c4, l4, bs)) => Some((c4, l4, seq![(payload(cur), ins)] + bs)),
                        None => None,
                    },
                    None => None,
                },
                None => None,
            }
        }
    }
}

/// A function, from `c` standing on `cur`: `@name`, end of line, at least one
/// instruction or label, its blocks. Where it stops, and the function it spells.
pub open spec fn function_spelled(s: Seq<char>, c: int, cur: Lexed, fuel: nat) -> Option<
    (int, Lexed, FunctionText),
> {
    if kind_of(cur) != Some(Token::Function) {
        None
    } else {
        let l1 = token_at(s, c, 0);
        if kind_of(l1) is None {
            None
        } else {
            match skip_lines(s, after_tokens(s, c, 1), l1, fuel) {
                Some((c2, l2)) => if kind_of(l2) == Some(Token::Function) || kind_of(l2) == Some(
                    Token::EOF,
                ) {
                    None
                } else {
                    match block_spelled(s, c2, l2, fuel) {
                        Some((c3, l3, ins)) => match labelled_blocks(s, c3, l3, fuel) {
                            Some((c4, l4, bs)) => Some(
                                (c4, l4, (payload(cur), seq![("<main>"@, ins)] + bs)),
                            ),
                            None => None,
                        },
                        None => None,
                    }
                },
                None => None,
            }
        }
    }
}

/// Functions up to the end, from `c` standing on `cur`: the functions they spell.
pub open spec fn program_spelled(s: Seq<char>, c: int, cur: Lexed, fuel: nat) -> Option<
    Seq<FunctionText>,
>
    decreases fuel,
{
    if kind_of(cur) == Some(Token::EOF) {
        Some(Seq::empty())
    } else if fuel == 0 {
        None
    } else {
        match function_spelled(s, c, cur, (fuel - 1) as nat) {
            Some((c1, l1, f)) => match program_spelled(s, c1, l1, (fuel - 1) as nat) {
                Some(rest) => Some(seq![f] + rest),
                None => None,
            },
            None => None,
        }
    }
}

proof fn lemma_skip_fuel(s: Seq<char>, c: int, cur: Lexed, f1: nat, f2: nat)
    requires
        skip_lines(s, c, cur, f1) is Some,
        skip_lines(s, c, cur, f2) is Some,
    ensures
        skip_lines(s, c, cur, f1) == skip_lines(s, c, cur, f2),
    decreases f1,
{
    if kind_of(cur) == Some(Token::EOL) {
        lemma_skip_fuel(s, after_tokens(s, c, 1), token_at(s, c, 0), (f1 - 1) as nat, (f2 - 1) as nat);
    }
}

proof fn lemma_block_fuel(s: Seq<char>, c: int, cur: Lexed, f1: nat, f2: nat)
    requires
        block_spelled(s, c, cur, f1) is Some,
        block_spelled(s, c, cur, f2) is Some,
    ensures
        block_spelled(s, c, cur, f1) == block_spelled(s, c, cur, f2),
    decreases f1,
{
    if !ends_block(cur) {
        let op = opcode_of(kind_of(cur)->0)->0;
        let n = operand_count(op, s, c);
        let c1 = after_tokens(s, c, n + 1);
        let l1 = token_at(s, c, n);
        lemma_skip_fuel(s, c1, l1, (f1 - 1) as nat, (f2 - 1) as nat);
        let (c2, l2) = skip_lines(s, c1, l1, (f1 - 1) as nat)->0;
        lemma_block_fuel(s, c2, l2, (f1 - 1) as nat, (f2 - 1) as nat);
    }
}

proof fn lemma_labelled_fuel(s: Seq<char>, c: int, cur: Lexed, f1: nat, f2: nat)
    requires
        labelled_blocks(s, c, cur, f1) is Some,
        labelled_blocks(s, c, cur, f2) is Some,
    ensures
        labelled_blocks(s, c, cur, f1) == labelled_blocks(s, c, cur, f2),
    decreases f1,
{
    if kind_of(cur) == Some(Token::Label) {
        let c1 = after_tokens(s, c, 1);
        let l1 = token_at(s, c, 0);
        lemma_skip_fuel(s, c1, l1, (f1 - 1) as nat, (f2 - 1) as nat);
        let (c2, l2) = skip_lines(s, c1, l1, (f1 - 1) as nat)->0;
        lemma_block_fuel(s, c2, l2, (f1 - 1) as nat, (f2 - 1) as nat);
        let (c3, l3, ins) = block_spelled(s, c2, l2, (f1 - 1) as nat)->0;
        lemma_labelled_fuel(s, c3, l3, (f1 - 1) as nat, (f2 - 1) as nat);
    }
}

proof fn lemma_function_fuel(s: Seq<char>, c: int, cur: Lexed, f1: nat, f2: nat)
    requires
        function_spelled(s, c, cur, f1) is Some,
        function_spelled(s, c, cur, f2) is Some,
    ensures
        function_spelled(s, c, cur, f1) == function_spelled(s, c, cur, f2),
{
    let c1 = after_tokens(s, c, 1);
    let l1 = token_at(s, c, 0);
    lemma_skip_fuel(s, c1, l1, f1, f2);
    let (c2, l2) = skip_lines(s, c1, l1, f1)->0;
    lemma_block_fuel(s, c2, l2, f1, f2);
    let (c3, l3, ins) = block_spelled(s, c2, l2, f1)->0;
    lemma_labelled_fuel(s, c3, l3, f1, f2);
}

/// The program a token stream spells does not depend on the fuel used to read it.
proof fn lemma_program_fuel(s: Seq<char>, c: int, cur: Lexed, f1: nat, f2: nat)
    requires
        program_spelled(s, c, cur, f1) is Some,
        program_spelled(s, c, cur, f2) is Some,
    ensures
        program_spelled(s, c, cur, f1) == program_spelled(s, c, cur, f2),
    decreases f1,
{
    if kind_of(cur) != Some(Token::EOF) {
        lemma_function_fuel(s, c, cur, (f1 - 1) as nat, (f2 - 1) as nat);
        let (c1, l1, ft) = function_spelled(s, c, cur, (f1 - 1) as nat)->0;
        lemma_program_fuel(s, c1, l1, (f1 - 1) as nat, (f2 - 1) as nat);
    }
}

/// The parser stands on the token read at `pos`: that token is its current one.
proof fn lemma_current(p: Parser, s: Seq<char>, pos: int)
    requires
        p.ready(),
        p.on(scan(s, pos).0),
    ensures
        p.current_lexed() == scan(s, pos).0,
{
    lemma_scan_payload(s, pos);
}

/// Reads a program: tokens from the lexer, pre-functions, then a linked module.
#[derive(Clone, Debug)]
pub struct Parser {
    lexer: Lexer,
    token: Token,
    diagnostics: Diagnostics,
}

impl Parser {
    pub closed spec fn wf(&self) -> bool {
        &&& self.lexer.wf()
        &&& self.token == Token::EOF ==> self.lexer.cursor() == self.lexer.source().len()
    }

    /// The text of the current token, if it carries one, is waiting to be taken.
    pub closed spec fn ready(&self) -> bool {
        &&& self.wf()
        &&& is_payload(self.token) ==> self.lexer.pending() is Some
    }

    /// The text being read.
    pub closed spec fn source(&self) -> Seq<char> {
        self.lexer.source()
    }

    /// Where reading stands: just after the current token.
    pub closed spec fn cursor(&self) -> int {
        self.lexer.cursor()
    }

    /// The parser stands on the token read as `l`: its kind, and its text still to be taken.
    pub closed spec fn on(&self, l: Lexed) -> bool {
        &&& kind_of(l) == Some(self.token)
        &&& match l {
            Lexed::WithText(_, v) => self.lexer.pending() == Some(v),
            _ => true,
        }
    }

    /// The current token as it was read.
    pub closed spec fn current_lexed(&self) -> Lexed {
        if is_payload(self.token) && self.lexer.pending() is Some {
            Lexed::WithText(self.token, self.lexer.pending()->0)
        } else {
            Lexed::Plain(self.token)
        }
    }

    /// `after` stands `n + 1` tokens further than this parser, on the token `n` places ahead.
    pub closed spec fn lands(&self, after: &Parser, n: nat) -> bool {
        &&& after.ready()
        &&& after.lexer.source() == self.lexer.source()
        &&& after.lexer.cursor() == after_tokens(self.lexer.source(), self.lexer.cursor(), n + 1)
        &&& after.on(token_at(self.lexer.source(), self.lexer.cursor(), n))
    }

    /// The errors reported so far.
    pub closed spec fn reported(&self) -> Seq<(ErrorView, Option<usize>)> {
        self.diagnostics.entries()
    }

    /// Decreases with every token read.
    pub closed spec fn measure(&self) -> int {
        2 * (self.lexer.source().len() - self.lexer.cursor()) + if self.token == Token::EOF {
            0int
        } else {
            1int
        }
    }

    pub proof fn lemma_measure(&self)
        requires
            self.wf(),
        ensures
            self.measure() >= 0,
    {
        self.lexer.lemma_cursor_bounds();
    }

    /// The token the parser stands on.
    pub closed spec fn current(&self) -> Token {
        self.token
    }

    /// A parser standing on the first token of `source`, past leading newlines.
    pub fn new(source: &str) -> (r: Parser)
        ensures
            r.wf(),
            r.ready(),
            r.source() == source@,
            r.current() != Token::EOL,
            forall|fuel: nat|
                #[trigger] skip_lines(
                    source@,
                    newlines_end(source@, 0),
                    Lexed::Plain(Token::EOL),
                    fuel,
                ) is Some ==> r.reported().len() == 0 && Some((r.cursor(), r.current_lexed()))
                    == skip_lines(source@, newlines_end(source@, 0), Lexed::Plain(Token::EOL), fuel),
    {
        let mut parser = Parser {
            lexer: Lexer::new(source),
            token: Token::EOF,
            diagnostics: Diagnostics::new(),
        };
        proof {
            parser.lexer.lemma_cursor_bounds();
        }
        parser.token = Token::EOL;
        parser.initialize();
        parser
    }

    fn initialize(&mut self)
        requires
            old(self).wf(),
            old(self).token == Token::EOL,
        ensures
            final(self).ready(),
            final(self).source() == old(self).source(),
            final(self).token != Token::EOL,
            forall|fuel: nat|
                #[trigger] skip_lines(
                    old(self).source(),
                    old(self).cursor(),
                    Lexed::Plain(Token::EOL),
                    fuel,
                ) is Some ==> final(self).reported() == old(self).reported() && Some(
                    (final(self).cursor(), final(self).current_lexed()),
                ) == skip_lines(old(self).source(), old(self).cursor(), Lexed::Plain(Token::EOL), fuel),
        decreases old(self).measure(),
    {
        proof {
            self.lemma_measure();
        }
        let ghost src = self.source();
        let ghost c0 = self.cursor();
        let ghost l0 = token_at(src, c0, 0);
        match self.next() {
            Ok(()) => {
                proof {
                    lemma_current(*self, src, after_tokens(src, c0, 0));
                    self.lemma_measure();
                }
                if self.token == Token::EOL {
                    let ghost mid = *self;
                    self.initialize();
                    proof {
                        assert forall|fuel: nat|
                            #[trigger] skip_lines(src, c0, Lexed::Plain(Token::EOL), fuel)
                                is Some implies self.reported() == old(self).reported() && Some(
                            (self.cursor(), self.current_lexed()),
                        ) == skip_lines(src, c0, Lexed::Plain(Token::EOL), fuel) by {
                            assert(skip_lines(src, c0, Lexed::Plain(Token::EOL), fuel) == skip_lines(
                                src,
                                mid.cursor(),
                                Lexed::Plain(Token::EOL),
                                (fuel - 1) as nat,
                            ));
                        }
                    }
                } else {
                    proof {
                        assert forall|fuel: nat|
                            #[trigger] skip_lines(src, c0, Lexed::Plain(Token::EOL), fuel)
                                is Some implies self.reported() == old(self).reported() && Some(
                            (self.cursor(), self.current_lexed()),
                        ) == skip_lines(src, c0, Lexed::Plain(Token::EOL), fuel) by {
                            assert(skip_lines(src, c0, Lexed::Plain(Token::EOL), fuel) == skip_lines(
                                src,
                                after_tokens(src, c0, 1),
                                l0,
                                (fuel - 1) as nat,
                            ));
                        }
                    }
                }
            },
            Err(e) => {
                let line = self.line();
                let _ = self.diagnostics.report_with_line::<()>(e, line);
                proof {
                    self.lemma_measure();
                }
                self.initialize();
                proof {
                    assert forall|fuel: nat|
                        #[trigger] skip_lines(src, c0, Lexed::Plain(Token::EOL), fuel)
                            is None by {}
                }
            },
        }
    }

    /// Reads the next token into `token`.
    fn next(&mut self) -> (r: Result<(), MachinaError>)
        requires
            old(self).wf(),
        ensures
            final(self).wf(),
            final(self).measure() <= old(self).measure(),
            old(self).token != Token::EOF || r is Err ==> final(self).measure() < old(self).measure(),
            r is Err ==> final(self).token == old(self).token,
            final(self).diagnostics == old(self).diagnostics,
            final(self).source() == old(self).source(),
            final(self).cursor() == after_tokens(old(self).source(), old(self).cursor(), 1),
            r is Ok <==> kind_of(token_at(old(self).source(), old(self).cursor(), 0)) is Some,
            r is Ok ==> final(self).ready() && final(self).on(
                token_at(old(self).source(), old(self).cursor(), 0),
            ),
    {
        proof {
            self.lexer.lemma_cursor_bounds();
            lemma_scan_payload(self.lexer.source(), self.lexer.cursor());
        }
        match self.lexer.next_token() {
            Ok(t) => {
                self.token = t;
                proof {
                    self.lexer.lemma_cursor_bounds();
                }
                Ok(())
            },
            Err(e) => {
                proof {
                    self.lexer.lemma_cursor_bounds();
                }
                Err(e)
            },
        }
    }

    /// The current source line, counted from 1.
    fn line(&self) -> (r: usize) {
        let l = self.lexer.line();
        if l < usize::MAX {
            l + 1
        } else {
            l
        }
    }

    fn token_is(&self, tkn: Token) -> (r: bool)
        ensures
            r == (self.token == tkn),
    {
        self.token == tkn
    }

    /// The error for a token other than one of `tokens`.
    fn unexpected(&self, tokens: &Vec<Token>) -> (r: MachinaError)
        ensures
            r@ == ErrorView::Expected(expected_text(tokens@), token_text(self.token)),
    {
        let mut expected = String::new();
        let mut i: usize = 0;
        while i < tokens.len()
            invariant
                i <= tokens@.len(),
                expected@ == expected_text(tokens@.subrange(0, i as int)),
            decreases tokens@.len() - i,
        {
            let ghost prefix = tokens@.subrange(0, i as int);
            let ghost next = tokens@.subrange(0, i + 1);
            assert(next.drop_last() =~= prefix);
            if i > 0 {
                expected.append(" or ");
            }
            expected.append("`");
            expected.append(tokens[i].text());
            expected.append("`");
            proof {
                assert(expected@ =~= expected_text(next));
            }
            i += 1;
        }
        assert(tokens@.subrange(0, tokens@.len() as int) =~= tokens@);
        MachinaError::Expected(expected, self.token.text().to_string())
    }

    fn expect_one_of(&self, tokens: &Vec<Token>) -> (r: Result<(), MachinaError>)
        ensures
            r is Ok <==> tokens@.contains(self.token),
            r matches Err(e) ==> e@ == ErrorView::Expected(
                expected_text(tokens@),
                token_text(self.token),
            ),
    {
        let mut i: usize = 0;
        while i < tokens.len()
            invariant
                i <= tokens@.len(),
                forall|k: int| 0 <= k < i ==> tokens@[k] != self.token,
            decreases tokens@.len() - i,
        {
            if tokens[i] == self.token {
                return Ok(());
            }
            i += 1;
        }
        Err(self.unexpected(tokens))
    }

    /// Steps over `tkn`, or fails.
    fn eat(&mut self, tkn: Token) -> (r: Result<(), MachinaError>)
        requires
            old(self).wf(),
        ensures
            final(self).wf(),
            final(self).measure() <= old(self).measure(),
            r is Ok ==> old(self).token == tkn,
            r is Ok && tkn != Token::EOF ==> final(self).measure() < old(self).measure(),
            final(self).diagnostics == old(self).diagnostics,
            final(self).source() == old(self).source(),
            old(self).token == tkn && kind_of(token_at(old(self).source(), old(self).cursor(), 0)) is Some
                ==> r is Ok && final(self).ready() && final(self).cursor() == after_tokens(
                old(self).source(),
                old(self).cursor(),
                1,
            ) && final(self).on(token_at(old(self).source(), old(self).cursor(), 0)),
    {
        if self.token == tkn {
            self.next()
        } else {
            Err(self.unexpected(&vec![tkn]))
        }
    }

    /// Takes the text of `tkn` and steps over it, or fails.
    fn take(&mut self, tkn: Token) -> (r: Result<String, MachinaError>)
        requires
            old(self).wf(),
            is_payload(tkn),
        ensures
            final(self).source() == old(self).source(),
            r matches Ok(v) ==> old(self).lexer.pending() == Some(v@),
            old(self).ready() && old(self).token == tkn && kind_of(
                token_at(old(self).source(), old(self).cursor(), 0),
            ) is Some ==> r is Ok && final(self).ready() && final(self).cursor() == after_tokens(
                old(self).source(),
                old(self).cursor(),
                1,
            ) && final(self).on(token_at(old(self).source(), old(self).cursor(), 0)),
            final(self).wf(),
            final(self).measure() <= old(self).measure(),
            r is Ok ==> old(self).token == tkn,
            old(self).token == tkn && tkn != Token::EOF ==> final(self).measure() < old(
                self,
            ).measure(),
            old(self).token != tkn ==> final(self).token == old(self).token && final(self).measure()
                == old(self).measure(),
            final(self).diagnostics == old(self).diagnostics,
    {
        if self.token != tkn {
            return Err(self.unexpected(&vec![tkn]));
        }
        match self.lexer.take_value() {
            Some(value) => match self.next() {
                Ok(()) => Ok(value),
                Err(e) => Err(e),
            },
            None => {
                let e = self.unexpected(&vec![tkn]);
                let _ = self.next();
                Err(e)
            },
        }
    }

    /// Steps over end-of-line tokens.
    fn next_line(&mut self, Ghost(fuel): Ghost<nat>) -> (r: Result<(), MachinaError>)
        requires
            old(self).wf(),
        ensures
            final(self).wf(),
            final(self).measure() <= old(self).measure(),
            r is Ok ==> final(self).token != Token::EOL,
            final(self).diagnostics == old(self).diagnostics,
            final(self).source() == old(self).source(),
            old(self).ready() && skip_lines(
                old(self).source(),
                old(self).cursor(),
                old(self).current_lexed(),
                fuel,
            ) is Some ==> r is Ok && final(self).ready() && Some(
                (final(self).cursor(), final(self).current_lexed()),
            ) == skip_lines(old(self).source(), old(self).cursor(), old(self).current_lexed(), fuel),
    {
        let ghost src = self.source();
        let ghost target = skip_lines(src, self.cursor(), self.current_lexed(), fuel);
        let ghost ok = self.ready() && target is Some;
        let ghost mut f = fuel;
        while self.token == Token::EOL
            invariant
                self.wf(),
                self.measure() <= old(self).measure(),
                self.diagnostics == old(self).diagnostics,
                src == old(self).source(),
                self.source() == src,
                target == skip_lines(
                    old(self).source(),
                    old(self).cursor(),
                    old(self).current_lexed(),
                    fuel,
                ),
                ok == (old(self).ready() && target is Some),
                ok ==> self.ready() && skip_lines(src, self.cursor(), self.current_lexed(), f)
                    == target,
            decreases self.measure(),
        {
            let ghost c0 = self.cursor();
            match self.next() {
                Ok(()) => {},
                Err(e) => return Err(e),
            }
            proof {
                self.lemma_measure();
                if ok {
                    lemma_current(*self, src, after_tokens(src, c0, 0));
                    f = (f - 1) as nat;
                }
            }
        }
        Ok(())
    }

    /// Reads one operand of the kind `kind`; an optional one may be absent at the end of a line.
    fn parse_operand(&mut self, kind: Token, optional: bool, eat_comma: bool) -> (r: Result<
        PreOperand,
        MachinaError,
    >)
        requires
            old(self).wf(),
            is_payload(kind) || kind == Token::Operand,
        ensures
            final(self).wf(),
            final(self).measure() <= old(self).measure(),
            final(self).diagnostics == old(self).diagnostics,
            final(self).source() == old(self).source(),
            r matches Ok(op) ==> fits_kind(kind, op@) || (optional && op@ is Absent),
            optional && (old(self).token == Token::EOF || old(self).token == Token::EOL) ==> (r matches Ok(
                op,
            ) && op@ is Absent && final(self).cursor() == old(self).cursor() && final(self).token
                == old(self).token && (old(self).ready() ==> final(self).ready())),
            old(self).ready() && !(optional && (old(self).token == Token::EOF || old(self).token
                == Token::EOL)) && fits_pattern_token(kind, old(self).token) && spells(
                old(self).source(),
                old(self).cursor(),
                if eat_comma {
                    seq![Token::Comma]
                } else {
                    seq![]
                },
            ) ==> r is Ok && final(self).ready() && final(self).cursor() == after_tokens(
                old(self).source(),
                old(self).cursor(),
                if eat_comma {
                    2nat
                } else {
                    1nat
                },
            ) && final(self).on(
                token_at(
                    old(self).source(),
                    old(self).cursor(),
                    if eat_comma {
                        1nat
                    } else {
                        0nat
                    },
                ),
            ),
            r matches Ok(op) ==> (op@ is Absent ==> optional && (old(self).token == Token::EOF
                || old(self).token == Token::EOL)),
            r matches Ok(op) ==> (op@ is Absent || op@ == text_operand(
                old(self).token,
                old(self).lexer.pending()->0,
            )),
    {
        if optional && (self.token == Token::EOF || self.token == Token::EOL) {
            return Ok(PreOperand::Absent);
        }
        let allowed = if kind == Token::Operand {
            vec![Token::String, Token::Number, Token::Register]
        } else {
            vec![kind]
        };
        match self.expect_one_of(&allowed) {
            Ok(()) => {},
            Err(e) => return Err(e),
        }
        let tkn = self.token;
        let operand = if tkn == Token::String || tkn == Token::Number || tkn == Token::Register
            || tkn == Token::Function || tkn == Token::Label {
            match self.take(tkn) {
                Ok(text) => if tkn == Token::String {
                    PreOperand::String(text)
                } else if tkn == Token::Number {
                    PreOperand::Number(text)
                } else if tkn == Token::Register {
                    PreOperand::Register(text)
                } else if tkn == Token::Function {
                    PreOperand::Function(text)
                } else {
                    PreOperand::Label(text)
                },
                Err(e) => return Err(e),
            }
        } else {
            return Err(
                self.unexpected(
                    &vec![
                        Token::String,
                        Token::Number,
                        Token::Register,
                        Token::Function,
                        Token::Label,
                    ],
                ),
            );
        };
        if eat_comma {
            proof {
                let src = old(self).source();
                let c = old(self).cursor();
                assert(token_at(src, c, 1) == scan(src, after_tokens(src, c, 1)).0);
                assert(token_at(src, self.cursor(), 0) == scan(src, after_tokens(src, self.cursor(), 0)).0);
                lemma_after_tokens_add(src, c, 1, 1);
            }
            match self.eat(Token::Comma) {
                Ok(()) => {},
                Err(e) => return Err(e),
            }
        }
        Ok(operand)
    }

    #[verifier::rlimit(60)]
    fn parse_call_instruction(&mut self) -> (r: Result<PreInstruction, MachinaError>)
        requires
            old(self).wf(),
        ensures
            final(self).source() == old(self).source(),
            final(self).wf(),
            final(self).measure() <= old(self).measure(),
            final(self).diagnostics == old(self).diagnostics,
            r matches Ok(ins) ==> ins.opcode == OpCode::Call && signature_ok(
                ins.opcode,
                operand_texts(ins),
            ) && final(self).measure() < old(self).measure(),
            old(self).ready() && old(self).token == Token::Call && spells(
                old(self).source(),
                old(self).cursor(),
                operand_pattern(OpCode::Call),
            ) ==> r is Ok && old(self).lands(final(self), 7),
            old(self).ready() && old(self).token == Token::Call && spells(old(self).source(), old(self).cursor(), operand_pattern(OpCode::Call)) ==> (r matches Ok(ins) && operand_texts(ins) == instruction_texts(
                OpCode::Call,
                old(self).source(),
                old(self).cursor(),
            )),
    {
        let ghost src = self.source();
        let ghost c = self.cursor();
        let ghost pat = operand_pattern(OpCode::Call);
        let ghost ok = self.ready() && self.token == Token::Call && spells(src, c, pat);
        let line = self.line();
        proof {
            if ok {
                lemma_spells_suffix(src, c, pat, 0, 0);
            }
        }
        match self.eat(Token::Call) {
            Ok(()) => {},
            Err(e) => return Err(e),
        }
        proof {
            if ok {
                lemma_operand_stage(src, c, pat, 1, true);
            }
        }
        let ghost st_f = *self;
        let f = match self.parse_operand(Token::Function, false, true) {
            Ok(o) => o,
            Err(e) => return Err(e),
        };
        proof {
            if ok {
                lemma_read_operand(st_f, src, after_tokens(src, c, 0));
                assert(f@ == operand_of(token_at(src, c, 0)));
            }
        }
        proof {
            if ok {
                lemma_operand_stage(src, c, pat, 3, true);
            }
        }
        let ghost st_dst = *self;
        let dst = match self.parse_operand(Token::Register, false, true) {
            Ok(o) => o,
            Err(e) => return Err(e),
        };
        proof {
            if ok {
                lemma_read_operand(st_dst, src, after_tokens(src, c, 2));
                assert(dst@ == operand_of(token_at(src, c, 2)));
            }
        }
        proof {
            if ok {
                lemma_operand_stage(src, c, pat, 5, true);
            }
        }
        let ghost st_lo = *self;
        let lo = match self.parse_operand(Token::Register, false, true) {
            Ok(o) => o,
            Err(e) => return Err(e),
        };
        proof {
            if ok {
                lemma_read_operand(st_lo, src, after_tokens(src, c, 4));
                assert(lo@ == operand_of(token_at(src, c, 4)));
            }
        }
        proof {
            if ok {
                lemma_operand_stage(src, c, pat, 7, false);
            }
        }
        let ghost st_hi = *self;
        let hi = match self.parse_operand(Token::Register, false, false) {
            Ok(o) => o,
            Err(e) => return Err(e),
        };
        proof {
            if ok {
                lemma_read_operand(st_hi, src, after_tokens(src, c, 6));
                assert(hi@ == operand_of(token_at(src, c, 6)));
            }
        }
        let operands = vec![f, dst, lo, hi];
        let ins = PreInstruction { opcode: OpCode::Call, line, operands };
        assert(operand_texts(ins) =~= seq![f@, dst@, lo@, hi@]);
        Ok(ins)
    }

    /// Reads an instruction of two operands: a register, then a value.
    #[verifier::rlimit(60)]
    fn parse_binary_instructions(&mut self, opcode: OpCode) -> (r: Result<
        PreInstruction,
        MachinaError,
    >)
        requires
            old(self).wf(),
            old(self).token != Token::EOF,
            opcode != OpCode::Call && opcode != OpCode::Jmp && opcode != OpCode::Jt && opcode
                != OpCode::Jf && opcode != OpCode::JLt && opcode != OpCode::JLe && opcode
                != OpCode::JGt && opcode != OpCode::JGe && opcode != OpCode::JEq && opcode
                != OpCode::JNe && opcode != OpCode::Not && opcode != OpCode::Ret && opcode
                != OpCode::Write,
        ensures
            final(self).source() == old(self).source(),
            final(self).wf(),
            final(self).measure() <= old(self).measure(),
            final(self).diagnostics == old(self).diagnostics,
            r matches Ok(ins) ==> ins.opcode == opcode && signature_ok(
                ins.opcode,
                operand_texts(ins),
            ) && final(self).measure() < old(self).measure(),
            old(self).ready() && spells(old(self).source(), old(self).cursor(), operand_pattern(opcode))
                ==> r is Ok && old(self).lands(final(self), operand_pattern(opcode).len()),
            old(self).ready() && spells(old(self).source(), old(self).cursor(), operand_pattern(opcode)) ==> (r matches Ok(ins) && operand_texts(ins) == instruction_texts(
                opcode,
                old(self).source(),
                old(self).cursor(),
            )),
    {
        let ghost src = self.source();
        let ghost c = self.cursor();
        let ghost pat = operand_pattern(opcode);
        let ghost ok = self.ready() && spells(src, c, pat);
        let line = self.line();
        proof {
            if ok {
                lemma_spells_suffix(src, c, pat, 0, 0);
            }
        }
        match self.next() {
            Ok(()) => {},
            Err(e) => return Err(e),
        }
        proof {
            if ok {
                lemma_operand_stage(src, c, pat, 1, true);
            }
        }
        let ghost st_dst = *self;
        let dst = match self.parse_operand(Token::Register, false, true) {
            Ok(o) => o,
            Err(e) => return Err(e),
        };
        proof {
            if ok {
                lemma_read_operand(st_dst, src, after_tokens(src, c, 0));
                assert(dst@ == operand_of(token_at(src, c, 0)));
            }
        }
        proof {
            if ok {
                lemma_operand_stage(src, c, pat, 3, false);
            }
        }
        let ghost st_src_op = *self;
        let src_op = match self.parse_operand(Token::Operand, false, false) {
            Ok(o) => o,
            Err(e) => return Err(e),
        };
        proof {
            if ok {
                lemma_read_operand(st_src_op, src, after_tokens(src, c, 2));
                assert(src_op@ == operand_of(token_at(src, c, 2)));
            }
        }
        let operands = vec![dst, src_op];
        let ins = PreInstruction { opcode, line, operands };
        assert(operand_texts(ins) =~= seq![dst@, src_op@]);
        Ok(ins)
    }

    /// Reads a jump: a label, then a register and a value as the opcode asks.
    #[verifier::rlimit(60)]
    fn parse_jump_instructions(&mut self, opcode: OpCode) -> (r: Result<
        PreInstruction,
        MachinaError,
    >)
        requires
            old(self).wf(),
            old(self).token != Token::EOF,
            opcode == OpCode::Jmp || opcode == OpCode::Jt || opcode == OpCode::Jf || opcode
                == OpCode::JLt || opcode == OpCode::JLe || opcode == OpCode::JGt || opcode
                == OpCode::JGe || opcode == OpCode::JEq || opcode == OpCode::JNe,
        ensures
            final(self).source() == old(self).source(),
            final(self).wf(),
            final(self).measure() <= old(self).measure(),
            final(self).diagnostics == old(self).diagnostics,
            r matches Ok(ins) ==> ins.opcode == opcode && signature_ok(
                ins.opcode,
                operand_texts(ins),
            ) && final(self).measure() < old(self).measure(),
            old(self).ready() && spells(old(self).source(), old(self).cursor(), operand_pattern(opcode))
                ==> r is Ok && old(self).lands(final(self), operand_pattern(opcode).len()),
            old(self).ready() && spells(old(self).source(), old(self).cursor(), operand_pattern(opcode)) ==> (r matches Ok(ins) && operand_texts(ins) == instruction_texts(
                opcode,
                old(self).source(),
                old(self).cursor(),
            )),
    {
        let ghost src = self.source();
        let ghost c = self.cursor();
        let ghost pat = operand_pattern(opcode);
        let ghost ok = self.ready() && spells(src, c, pat);
        let line = self.line();
        proof {
            if ok {
                lemma_spells_suffix(src, c, pat, 0, 0);
            }
        }
        match self.next() {
            Ok(()) => {},
            Err(e) => return Err(e),
        }
        let single = opcode == OpCode::Jmp;
        proof {
            if ok {
                lemma_operand_stage(src, c, pat, 1, !single);
            }
        }
        let ghost st_target = *self;
        let target = match self.parse_operand(Token::Label, false, !single) {
            Ok(o) => o,
            Err(e) => return Err(e),
        };
        proof {
            if ok {
                lemma_read_operand(st_target, src, after_tokens(src, c, 0));
                assert(target@ == operand_of(token_at(src, c, 0)));
            }
        }
        if single {
            let ins = PreInstruction { opcode, line, operands: vec![target] };
            assert(operand_texts(ins) =~= seq![target@]);
            return Ok(ins);
        }
        let test = opcode == OpCode::Jt || opcode == OpCode::Jf;
        proof {
            if ok {
                lemma_operand_stage(src, c, pat, 3, !test);
            }
        }
        let ghost st_lhs = *self;
        let lhs = match self.parse_operand(Token::Register, false, !test) {
            Ok(o) => o,
            Err(e) => return Err(e),
        };
        proof {
            if ok {
                lemma_read_operand(st_lhs, src, after_tokens(src, c, 2));
                assert(lhs@ == operand_of(token_at(src, c, 2)));
            }
        }
        if test {
            let ins = PreInstruction { opcode, line, operands: vec![target, lhs] };
            assert(operand_texts(ins) =~= seq![target@, lhs@]);
            return Ok(ins);
        }
        proof {
            if ok {
                lemma_operand_stage(src, c, pat, 5, false);
            }
        }
        let ghost st_rhs = *self;
        let rhs = match self.parse_operand(Token::Operand, false, false) {
            Ok(o) => o,
            Err(e) => return Err(e),
        };
        proof {
            if ok {
                lemma_read_operand(st_rhs, src, after_tokens(src, c, 4));
                assert(rhs@ == operand_of(token_at(src, c, 4)));
            }
        }
        let ins = PreInstruction { opcode, line, operands: vec![target, lhs, rhs] };
        assert(operand_texts(ins) =~= seq![target@, lhs@, rhs@]);
        Ok(ins)
    }

    /// Reads `NOT %r`, or `RET` / `WRITE` with an optional register.
    #[verifier::rlimit(60)]
    fn parse_unary_instructions(&mut self, opcode: OpCode) -> (r: Result<
        PreInstruction,
        MachinaError,
    >)
        requires
            old(self).wf(),
            old(self).token != Token::EOF,
            opcode == OpCode::Not || opcode == OpCode::Ret || opcode == OpCode::Write,
        ensures
            final(self).source() == old(self).source(),
            final(self).wf(),
            final(self).measure() <= old(self).measure(),
            final(self).diagnostics == old(self).diagnostics,
            r matches Ok(ins) ==> ins.opcode == opcode && signature_ok(
                ins.opcode,
                operand_texts(ins),
            ) && final(self).measure() < old(self).measure(),
            old(self).ready() && instruction_follows(opcode, old(self).source(), old(self).cursor())
                ==> r is Ok && old(self).lands(
                final(self),
                operand_count(opcode, old(self).source(), old(self).cursor()),
            ),
            old(self).ready() && instruction_follows(opcode, old(self).source(), old(self).cursor()) ==> (r matches Ok(ins) && operand_texts(ins) == instruction_texts(
                opcode,
                old(self).source(),
                old(self).cursor(),
            )),
    {
        let ghost src = self.source();
        let ghost c = self.cursor();
        let ghost pat = operand_pattern(opcode);
        let ghost ok = self.ready() && instruction_follows(opcode, src, c);
        let line = self.line();
        proof {
            if ok && spells(src, c, pat) {
                lemma_spells_suffix(src, c, pat, 0, 0);
            }
        }
        match self.next() {
            Ok(()) => {},
            Err(e) => return Err(e),
        }
        let optional = opcode != OpCode::Not;
        proof {
            if ok && spells(src, c, pat) {
                lemma_operand_stage(src, c, pat, 1, false);
            }
        }
        let ghost st_operand = *self;
        let operand = match self.parse_operand(Token::Register, optional, false) {
            Ok(o) => o,
            Err(e) => return Err(e),
        };
        proof {
            if ok && spells(src, c, pat) {
                lemma_read_operand(st_operand, src, after_tokens(src, c, 0));
                assert(operand@ == operand_of(token_at(src, c, 0)));
            }
        }
        let ins = PreInstruction { opcode, line, operands: vec![operand] };
        assert(operand_texts(ins) =~= seq![operand@]);
        Ok(ins)
    }

    /// Reads one instruction, whose mnemonic is the current token.
    fn parse_instruction(&mut self) -> (r: Result<PreInstruction, MachinaError>)
        requires
            old(self).wf(),
        ensures
            final(self).source() == old(self).source(),
            final(self).wf(),
            final(self).measure() <= old(self).measure(),
            final(self).diagnostics == old(self).diagnostics,
            r matches Ok(ins) ==> opcode_of(old(self).token) == Some(ins.opcode) && signature_ok(
                ins.opcode,
                operand_texts(ins),
            ) && final(self).measure() < old(self).measure(),
            old(self).ready() && (opcode_of(old(self).token) matches Some(op) && instruction_follows(
                op,
                old(self).source(),
                old(self).cursor(),
            )) ==> r is Ok && old(self).lands(
                final(self),
                operand_count(opcode_of(old(self).token)->0, old(self).source(), old(self).cursor()),
            ),
            old(self).ready() && (opcode_of(old(self).token) matches Some(op) && instruction_follows(
                op,
                old(self).source(),
                old(self).cursor(),
            )) ==> (r matches Ok(ins) && operand_texts(ins) == instruction_texts(
                opcode_of(old(self).token)->0,
                old(self).source(),
                old(self).cursor(),
            )),
    {
        let opcode = match opcode_for(self.token) {
            Some(op) => op,
            None => return Err(self.unexpected(&vec![Token::Instruction])),
        };
        match opcode {
            OpCode::Call => self.parse_call_instruction(),
            OpCode::Jmp | OpCode::Jt | OpCode::Jf | OpCode::JLt | OpCode::JLe | OpCode::JGt
            | OpCode::JGe | OpCode::JEq | OpCode::JNe => self.parse_jump_instructions(opcode),
            OpCode::Not | OpCode::Ret | OpCode::Write => self.parse_unary_instructions(opcode),
            _ => self.parse_binary_instructions(opcode),
        }
    }

    /// Reads instructions up to the next label, function or the end.
    #[verifier::rlimit(80)]
    fn parse_block(&mut self, label: String, Ghost(fuel): Ghost<nat>) -> (r: Result<
        Block,
        MachinaError,
    >)
        requires
            old(self).wf(),
        ensures
            final(self).wf(),
            final(self).measure() <= old(self).measure(),
            final(self).diagnostics == old(self).diagnostics,
            final(self).source() == old(self).source(),
            r matches Ok(b) ==> b.label@ == label@ && block_ok(b) && (final(self).token
                == Token::Label || final(self).token == Token::Function || final(self).token
                == Token::EOF),
            r matches Ok(b) && b.instructions@.len() == 0 ==> final(self).token == old(self).token,
            (old(self).token == Token::Label || old(self).token == Token::Function || old(self).token
                == Token::EOF) ==> r is Ok,
            old(self).ready() && block_spelled(
                old(self).source(),
                old(self).cursor(),
                old(self).current_lexed(),
                fuel,
            ) is Some ==> ({
                let (c2, l2, ins) = block_spelled(
                    old(self).source(),
                    old(self).cursor(),
                    old(self).current_lexed(),
                    fuel,
                )->0;
                r matches Ok(b) && final(self).ready() && final(self).cursor() == c2
                    && final(self).current_lexed() == l2 && block_text(b).1 == ins
            }),
    {
        let ghost src = self.source();
        let ghost target = block_spelled(src, self.cursor(), self.current_lexed(), fuel);
        let ghost ok = self.ready() && target is Some;
        let ghost mut f = fuel;
        let mut instructions: Vec<PreInstruction> = Vec::new();
        while !(self.token == Token::Label || self.token == Token::Function || self.token
            == Token::EOF)
            invariant
                self.wf(),
                self.measure() <= old(self).measure(),
                self.diagnostics == old(self).diagnostics,
                instructions@.len() == 0 ==> self.token == old(self).token,
                (old(self).token == Token::Label || old(self).token == Token::Function || old(
                    self,
                ).token == Token::EOF) ==> instructions@.len() == 0,
                forall|j: int|
                    0 <= j < instructions@.len() ==> signature_ok(
                        (#[trigger] instructions@[j]).opcode,
                        operand_texts(instructions@[j]),
                    ),
                src == old(self).source(),
                self.source() == src,
                target == block_spelled(
                    old(self).source(),
                    old(self).cursor(),
                    old(self).current_lexed(),
                    fuel,
                ),
                ok == (old(self).ready() && target is Some),
                ok ==> self.ready(),
                ok ==> (block_spelled(src, self.cursor(), self.current_lexed(), f) matches Some(
                    (c3, l3, rest),
                ) && c3 == (target->0).0 && l3 == (target->0).1 && instructions@.map_values(
                    |i: PreInstruction| ins_text(i),
                ) + rest == (target->0).2),
            decreases self.measure(),
        {
            proof {
                self.lemma_measure();
            }
            let ghost c0 = self.cursor();
            let ghost l0 = self.current_lexed();
            let ghost before = instructions@;
            let ins = match self.parse_instruction() {
                Ok(i) => i,
                Err(e) => return Err(e),
            };
            instructions.push(ins);
            let ghost op = opcode_of(kind_of(l0)->0)->0;
            let ghost n = operand_count(op, src, c0);
            proof {
                if ok {
                    lemma_current(*self, src, after_tokens(src, c0, n));
                }
            }
            match self.next_line(Ghost((f - 1) as nat)) {
                Ok(()) => {},
                Err(e) => return Err(e),
            }
            proof {
                self.lemma_measure();
                if ok {
                    let rest = (block_spelled(src, c0, l0, f)->0).2;
                    let rest2 = (block_spelled(src, self.cursor(), self.current_lexed(), (f - 1) as nat)->0).2;
                    assert(rest == seq![(op, instruction_texts(op, src, c0))] + rest2);
                    assert(instructions@.map_values(|i: PreInstruction| ins_text(i))
                        =~= before.map_values(|i: PreInstruction| ins_text(i)).push(ins_text(ins)));
                    assert(instructions@.map_values(|i: PreInstruction| ins_text(i)) + rest2
                        =~= before.map_values(|i: PreInstruction| ins_text(i)) + rest);
                    f = (f - 1) as nat;
                }
            }
        }
        let b = Block { label, instructions };
        assert(block_ok(b)) by {
            assert forall|j: int| 0 <= j < b.instructions@.len() implies signature_ok(
                (#[trigger] b.instructions@[j]).opcode,
                operand_texts(b.instructions@[j]),
            ) by {
                assert(b.instructions@[j] == instructions@[j]);
            }
        }
        proof {
            if ok {
                assert(instructions@.map_values(|i: PreInstruction| ins_text(i)) + Seq::<InsText>::empty()
                    =~= instructions@.map_values(|i: PreInstruction| ins_text(i)));
            }
        }
        Ok(b)
    }

    /// Reads `@name`, an end of line, and the function's blocks.
    #[verifier::rlimit(80)]
    fn parse_function(&mut self, Ghost(fuel): Ghost<nat>) -> (r: Result<PreFunction, MachinaError>)
        requires
            old(self).wf(),
        ensures
            final(self).wf(),
            final(self).measure() <= old(self).measure(),
            final(self).measure() < old(self).measure() || (final(self).token == old(self).token
                && old(self).token != Token::Function),
            final(self).diagnostics == old(self).diagnostics,
            final(self).source() == old(self).source(),
            r matches Ok(f) ==> function_ok(f) && final(self).measure() < old(self).measure(),
            old(self).ready() && function_spelled(
                old(self).source(),
                old(self).cursor(),
                old(self).current_lexed(),
                fuel,
            ) is Some ==> ({
                let (c2, l2, ft) = function_spelled(
                    old(self).source(),
                    old(self).cursor(),
                    old(self).current_lexed(),
                    fuel,
                )->0;
                r matches Ok(f) && final(self).ready() && final(self).cursor() == c2
                    && final(self).current_lexed() == l2 && function_text(f) == ft
            }),
    {
        let ghost src = self.source();
        let ghost c0 = self.cursor();
        let ghost cur0 = self.current_lexed();
        let ghost target = function_spelled(src, c0, cur0, fuel);
        let ghost ok = self.ready() && target is Some;
        let line = self.line();
        let name = match self.take(Token::Function) {
            Ok(n) => n,
            Err(e) => return Err(e),
        };
        proof {
            if ok {
                lemma_current(*self, src, after_tokens(src, c0, 0));
            }
        }
        match self.next_line(Ghost(fuel)) {
            Ok(()) => {},
            Err(e) => return Err(e),
        }
        if self.token == Token::Function || self.token == Token::EOF {
            return Err(self.unexpected(&vec![Token::Instruction, Token::Label]));
        }
        let main = match self.parse_block("<main>".to_string(), Ghost(fuel)) {
            Ok(b) => b,
            Err(e) => return Err(e),
        };
        let ghost main_ins = block_text(main).1;
        let mut blocks = vec![main];
        let ghost mut f = fuel;
        proof {
            if ok {
                assert(blocks@.map_values(|b: Block| block_text(b)) =~= seq![("<main>"@, main_ins)]);
            }
        }
        while self.token == Token::Label
            invariant
                self.wf(),
                self.measure() < old(self).measure(),
                self.diagnostics == old(self).diagnostics,
                blocks@.len() >= 1,
                blocks@[0].label@ == "<main>"@,
                blocks@[0].instructions@.len() > 0 || blocks@.len() > 1 || self.token == Token::Label,
                forall|k: int| 0 <= k < blocks@.len() ==> block_ok(#[trigger] blocks@[k]),
                src == old(self).source(),
                self.source() == src,
                target == function_spelled(
                    old(self).source(),
                    old(self).cursor(),
                    old(self).current_lexed(),
                    fuel,
                ),
                ok == (old(self).ready() && target is Some),
                name@ == payload(old(self).current_lexed()),
                ok ==> self.ready(),
                ok ==> (labelled_blocks(src, self.cursor(), self.current_lexed(), f) matches Some(
                    (c4, l4, rest),
                ) && c4 == (target->0).0 && l4 == (target->0).1 && blocks@.map_values(
                    |b: Block| block_text(b),
                ) + rest == ((target->0).2).1),
            decreases self.measure(),
        {
            proof {
                self.lemma_measure();
            }
            let ghost c1 = self.cursor();
            let ghost l1 = self.current_lexed();
            let ghost before = blocks@;
            let label = match self.take(Token::Label) {
                Ok(l) => l,
                Err(e) => return Err(e),
            };
            proof {
                if ok {
                    lemma_current(*self, src, after_tokens(src, c1, 0));
                }
            }
            match self.next_line(Ghost((f - 1) as nat)) {
                Ok(()) => {},
                Err(e) => return Err(e),
            }
            let block = match self.parse_block(label, Ghost((f - 1) as nat)) {
                Ok(b) => b,
                Err(e) => return Err(e),
            };
            blocks.push(block);
            proof {
                self.lemma_measure();
                if ok {
                    let rest = (labelled_blocks(src, c1, l1, f)->0).2;
                    let rest2 = (labelled_blocks(src, self.cursor(), self.current_lexed(), (f - 1) as nat)->0).2;
                    assert(rest == seq![block_text(block)] + rest2);
                    assert(blocks@.map_values(|b: Block| block_text(b)) =~= before.map_values(
                        |b: Block| block_text(b),
                    ).push(block_text(block)));
                    assert(blocks@.map_values(|b: Block| block_text(b)) + rest2 =~= before.map_values(
                        |b: Block| block_text(b),
                    ) + rest);
                    f = (f - 1) as nat;
                }
            }
        }
        let func = PreFunction { name, line, blocks };
        proof {
            if ok {
                assert(blocks@.map_values(|b: Block| block_text(b)) + Seq::<BlockText>::empty()
                    =~= blocks@.map_values(|b: Block| block_text(b)));
            }
        }
        Ok(func)
    }

    /// Skips to the next function after an error.
    fn recover(&mut self)
        requires
            old(self).wf(),
        ensures
            final(self).wf(),
            final(self).measure() <= old(self).measure(),
            old(self).token != Token::Function && old(self).token != Token::EOF ==> final(self).measure()
                < old(self).measure(),
            final(self).diagnostics == old(self).diagnostics,
            final(self).source() == old(self).source(),
    {
        while !(self.token == Token::Function || self.token == Token::EOF)
            invariant
                self.wf(),
                self.measure() <= old(self).measure(),
                self.token != old(self).token ==> self.measure() < old(self).measure(),
                self.diagnostics == old(self).diagnostics,
                self.source() == old(self).source(),
            decreases self.measure(),
        {
            proof {
                self.lemma_measure();
            }
            let _ = self.next();
            proof {
                self.lemma_measure();
            }
        }
    }

    /// Assembles the whole source: parses every function, reporting errors and
    /// skipping to the next function after each, then links them.
    /// When the tokens ahead spell a program, the module is the link of the
    /// functions they spell, or the only error is the one linking them gives.
    #[verifier::rlimit(100)]
    pub fn parse(self) -> (r: Result<Module, Diagnostics>)
        requires
            self.wf(),
        ensures
            r matches Ok(m) ==> m.wf() && exists|fs: Seq<PreFunction>|
                module_linked(fs, m) && forall|f: int| 0 <= f < fs.len() ==> function_ok(#[trigger] fs[f]),
            r matches Err(d) ==> d.entries().len() > 0,
            forall|fuel: nat|
                self.ready() && self.reported().len() == 0 && #[trigger] program_spelled(
                    self.source(),
                    self.cursor(),
                    self.current_lexed(),
                    fuel,
                ) is Some ==> ({
                    let p = program_spelled(self.source(), self.cursor(), self.current_lexed(), fuel)->0;
                    exists|fs: Seq<PreFunction>|
                        fs.map_values(|f: PreFunction| function_text(f)) == p && operand_counts_ok(fs)
                            && match r {
                            Ok(m) => module_linked(fs, m) && pool_view(m.constants@) == program_pool(fs),
                            Err(d) => d.entries().len() == 1 && ({
                                let (e, line) = d.entries()[0];
                                line is Some && (e == ErrorView::OutOfMemory || is_operand_error(
                                    fs,
                                    e,
                                    line->0,
                                ))
                            }) && !(all_resolve(fs) && tables_fit(fs)),
                        }
                }),
    {
        let ghost src = self.source();
        let ghost c0 = self.cursor();
        let ghost cur0 = self.current_lexed();
        let mut parser = self;
        let mut functions: Vec<PreFunction> = Vec::new();
        let ghost any = exists|fuel: nat| program_spelled(src, c0, cur0, fuel) is Some;
        proof {
            assert forall|fuel1: nat, fuel2: nat|
                program_spelled(src, c0, cur0, fuel1) is Some && program_spelled(src, c0, cur0, fuel2)
                    is Some implies program_spelled(src, c0, cur0, fuel1) == program_spelled(
                src,
                c0,
                cur0,
                fuel2,
            ) by {
                lemma_program_fuel(src, c0, cur0, fuel1, fuel2);
            }
        }
        let ghost mut f: nat = if any {
            choose|fuel: nat| program_spelled(src, c0, cur0, fuel) is Some
        } else {
            0
        };
        let ghost ok = parser.ready() && parser.reported().len() == 0 && any;
        let ghost target = program_spelled(src, c0, cur0, f);
        while parser.token != Token::EOF
            invariant
                parser.wf(),
                forall|f: int| 0 <= f < functions@.len() ==> function_ok(#[trigger] functions@[f]),
                parser.source() == src,
                ok ==> target is Some,
                ok ==> parser.ready() && parser.reported().len() == 0,
                ok ==> (program_spelled(src, parser.cursor(), parser.current_lexed(), f) matches Some(
                    rest,
                ) && functions@.map_values(|g: PreFunction| function_text(g)) + rest == target->0),
            decreases parser.measure(),
        {
            proof {
                parser.lemma_measure();
            }
            let ghost c1 = parser.cursor();
            let ghost l1 = parser.current_lexed();
            let ghost before = functions@;
            match parser.parse_function(Ghost((f - 1) as nat)) {
                Ok(func) => {
                    functions.push(func);
                    proof {
                        if ok {
                            let rest = program_spelled(src, c1, l1, f)->0;
                            let rest2 = program_spelled(
                                src,
                                parser.cursor(),
                                parser.current_lexed(),
                                (f - 1) as nat,
                            )->0;
                            assert(rest == seq![function_text(func)] + rest2);
                            assert(functions@.map_values(|g: PreFunction| function_text(g))
                                =~= before.map_values(|g: PreFunction| function_text(g)).push(
                                function_text(func),
                            ));
                            assert(functions@.map_values(|g: PreFunction| function_text(g)) + rest2
                                =~= before.map_values(|g: PreFunction| function_text(g)) + rest);
                        }
                    }
                },
                Err(e) => {
                    let line = parser.line();
                    let _ = parser.diagnostics.report_with_line::<()>(e, line);
                    parser.recover();
                },
            }
            proof {
                parser.lemma_measure();
                if ok {
                    f = (f - 1) as nat;
                }
            }
        }
        if !parser.diagnostics.empty() {
            return Err(parser.diagnostics);
        }
        proof {
            lemma_functions_ok_counts(functions@);
            if ok {
                assert(functions@.map_values(|g: PreFunction| function_text(g)) + Seq::<
                    FunctionText,
                >::empty() =~= functions@.map_values(|g: PreFunction| function_text(g)));
            }
        }
        let ghost fs = functions@;
        let r = parser.build(functions);
        proof {
            if ok {
                assert(fs.map_values(|g: PreFunction| function_text(g)) == target->0);
            }
        }
        r
    }

    /// Links parsed functions into a module, reporting the first error at the line of its function.
    pub fn build(self, functions: Vec<PreFunction>) -> (r: Result<Module, Diagnostics>)
        requires
            operand_counts_ok(functions@),
        ensures
            r matches Ok(m) ==> module_linked(functions@, m) && m.wf(),
            r matches Err(d) ==> d.entries().len() == self.reported().len() + 1 && ({
                let (e, line) = d.entries().last();
                line is Some && (e == ErrorView::OutOfMemory || is_operand_error(
                    functions@,
                    e,
                    line->0,
                ))
            }),
            all_resolve(functions@) ==> (r is Ok || (r matches Err(d) && d.entries().last().0
                == ErrorView::OutOfMemory)),
            r matches Ok(m) ==> pool_view(m.constants@) =~= program_pool(functions@),
            all_resolve(functions@) && tables_fit(functions@) ==> r is Ok,
    {
        let mut diagnostics = self.diagnostics;
        match link(&functions) {
            Ok(m) => Ok(m),
            Err((e, line)) => {
                let _ = diagnostics.report_with_line::<()>(e, line);
                Err(diagnostics)
            },
        }
    }
}

pub proof fn lemma_functions_ok_counts(fs: Seq<PreFunction>)
    requires
        forall|f: int| 0 <= f < fs.len() ==> function_ok(#[trigger] fs[f]),
    ensures
        operand_counts_ok(fs),
{
    assert forall|f: int, k: int, j: int|
        0 <= f < fs.len() && 0 <= k < fs[f].blocks@.len() && 0 <= j
            < fs[f].blocks@[k].instructions@.len() implies (
    #[trigger] fs[f].blocks@[k].instructions@[j]).operands@.len() <= 4 by {
        assert(function_ok(fs[f]));
        assert(block_ok(fs[f].blocks@[k]));
        let ins = fs[f].blocks@[k].instructions@[j];
        lemma_signature_counts(ins.opcode, operand_texts(ins));
    }
}

/// The opcode a mnemonic token stands for.
pub open spec fn opcode_of(t: Token) -> Option<OpCode> {
    match t {
        Token::Call => Some(OpCode::Call),
        Token::Ret => Some(OpCode::Ret),
        Token::Move => Some(OpCode::Move),
        Token::Jmp => Some(OpCode::Jmp),
        Token::Jt => Some(OpCode::Jt),
        Token::Jf => Some(OpCode::Jf),
        Token::JLt => Some(OpCode::JLt),
        Token::JLe => Some(OpCode::JLe),
        Token::JGt => Some(OpCode::JGt),
        Token::JGe => Some(OpCode::JGe),
        Token::JEq => Some(OpCode::JEq),
        Token::JNe => Some(OpCode::JNe),
        Token::Lt => Some(OpCode::Lt),
        Token::Le => Some(OpCode::Le),
        Token::Gt => Some(OpCode::Gt),
        Token::Ge => Some(OpCode::Ge),
        Token::Eq => Some(OpCode::Eq),
        Token::Ne => Some(OpCode::Ne),
        Token::Add => Some(OpCode::Add),
        Token::Sub => Some(OpCode::Sub),
        Token::Mul => Some(OpCode::Mul),
        Token::Div => Some(OpCode::Div),
        Token::Mod => Some(OpCode::Mod),
        Token::Not => Some(OpCode::Not),
        Token::And => Some(OpCode::And),
        Token::Or => Some(OpCode::Or),
        Token::Xor => Some(OpCode::Xor),
        Token::Shl => Some(OpCode::Shl),
        Token::Shr => Some(OpCode::Shr),
        Token::Write => Some(OpCode::Write),
        _ => None,
    }
}

fn opcode_for(t: Token) -> (r: Option<OpCode>)
    ensures
        r == opcode_of(t),
{
    match t {
        Token::Call => Some(OpCode::Call),
        Token::Ret => Some(OpCode::Ret),
        Token::Move => Some(OpCode::Move),
        Token::Jmp => Some(OpCode::Jmp),
        Token::Jt => Some(OpCode::Jt),
        Token::Jf => Some(OpCode::Jf),
        Token::JLt => Some(OpCode::JLt),
        Token::JLe => Some(OpCode::JLe),
        Token::JGt => Some(OpCode::JGt),
        Token::JGe => Some(OpCode::JGe),
        Token::JEq => Some(OpCode::JEq),
        Token::JNe => Some(OpCode::JNe),
        Token::Lt => Some(OpCode::Lt),
        Token::Le => Some(OpCode::Le),
        Token::Gt => Some(OpCode::Gt),
        Token::Ge => Some(OpCode::Ge),
        Token::Eq => Some(OpCode::Eq),
        Token::Ne => Some(OpCode::Ne),
        Token::Add => Some(OpCode::Add),
        Token::Sub => Some(OpCode::Sub),
        Token::Mul => Some(OpCode::Mul),
        Token::Div => Some(OpCode::Div),
        Token::Mod => Some(OpCode::Mod),
        Token::Not => Some(OpCode::Not),
        Token::And => Some(OpCode::And),
        Token::Or => Some(OpCode::Or),
        Token::Xor => Some(OpCode::Xor),
        Token::Shl => Some(OpCode::Shl),
        Token::Shr => Some(OpCode::Shr),
        Token::Write => Some(OpCode::Write),
        _ => None,
    }
}

} // verus!
