use vstd::prelude::*;

use crate::bytecode::{
    operand_in_range, Constant, ConstantText, Function, Instruction, Module, Operand,
};
use crate::error::{ErrorView, MachinaError};
use crate::lexer::{
    chars_of, digits_end, digits_end_exec, is_digit, is_digit_exec, lemma_integer_lexes_back, scan,
    Lexed, Token,
};
use crate::parser::{Block, OperandText, PreFunction, PreInstruction, PreOperand};
use crate::value::{digit_of, int_text, numeral};

verus! {

/// The largest register id: a frame of `id + 1` registers must fit a `u8` count.
pub const MAX_REGISTER: u16 = 254;

/// The largest table that 16-bit indices can address.
pub const TABLE_LIMIT: usize = 65536;

pub open spec fn digit_value(c: char) -> int {
    (c as u32) as int - 48
}

/// The number that a run of decimal digits spells.
pub open spec fn digits_value(d: Seq<char>) -> int
    decreases d.len(),
{
    if d.len() == 0 {
        0
    } else {
        digits_value(d.drop_last()) * 10 + digit_value(d.last())
    }
}

pub open spec fn all_digits(d: Seq<char>) -> bool {
    forall|i: int| 0 <= i < d.len() ==> is_digit(#[trigger] d[i])
}

/// The register that `%s` names: decimal digits, at most `MAX_REGISTER`.
pub open spec fn register_id(s: Seq<char>) -> Option<u16> {
    if s.len() > 0 && all_digits(s) && digits_value(s) <= MAX_REGISTER {
        Some(digits_value(s) as u16)
    } else {
        None
    }
}

/// 1 if the literal starts with a sign.
pub open spec fn sign_len(s: Seq<char>) -> int {
    if s.len() > 0 && (s[0] == '-' || s[0] == '+') {
        1
    } else {
        0
    }
}

/// The value of a number literal `[sign] digits [. digits]` whose fraction is zero.
pub open spec fn integral_value(s: Seq<char>) -> Option<int> {
    let b = sign_len(s);
    let d = digits_end(s, b);
    if d > b && (d == s.len() || (d + 1 < s.len() && s[d] == '.' && forall|i: int|
        d < i < s.len() ==> #[trigger] s[i] == '0')) {
        let whole = digits_value(s.subrange(b, d));
        Some(
            if b == 1 && s[0] == '-' {
                -whole
            } else {
                whole
            },
        )
    } else {
        None
    }
}

/// The immediate a number literal becomes: integral and within `i32`.
pub open spec fn immediate_of(s: Seq<char>) -> Option<i32> {
    match integral_value(s) {
        Some(v) => if i32::MIN <= v <= i32::MAX {
            Some(v as i32)
        } else {
            None
        },
        None => None,
    }
}

/// The index of the first function named `name`, searching from `k`.
pub open spec fn find_function(fs: Seq<PreFunction>, name: Seq<char>, k: int) -> Option<int>
    decreases fs.len() - k,
{
    if k < 0 || k >= fs.len() {
        None
    } else if fs[k].name@ == name {
        Some(k)
    } else {
        find_function(fs, name, k + 1)
    }
}

/// The position of the first instruction of block `k`.
pub open spec fn block_start(blocks: Seq<Block>, k: int) -> int
    decreases k,
{
    if k <= 0 {
        0
    } else {
        block_start(blocks, k - 1) + blocks[k - 1].instructions@.len()
    }
}

/// The number of instructions of all the blocks.
pub open spec fn code_len(blocks: Seq<Block>) -> int {
    block_start(blocks, blocks.len() as int)
}

/// The position of the first block labelled `l`, searching from block `k`.
pub open spec fn find_label(blocks: Seq<Block>, l: Seq<char>, k: int) -> Option<int>
    decreases blocks.len() - k,
{
    if k < 0 || k >= blocks.len() {
        None
    } else if blocks[k].label@ == l {
        Some(block_start(blocks, k))
    } else {
        find_label(blocks, l, k + 1)
    }
}

/// Operand slot `i` of an instruction; slots past the written ones are absent.
pub open spec fn slot(ins: PreInstruction, i: int) -> OperandText {
    if 0 <= i < ins.operands@.len() {
        ins.operands@[i]@
    } else {
        OperandText::Absent
    }
}

/// The error that linking this operand gives, if any.
pub open spec fn operand_error(op: OperandText, blocks: Seq<Block>, fs: Seq<PreFunction>) -> Option<
    ErrorView,
> {
    match op {
        OperandText::Register(s) => if register_id(s) is None {
            Some(ErrorView::InvalidRegister(s))
        } else {
            None
        },
        OperandText::Function(n) => if find_function(fs, n, 0) is None {
            Some(ErrorView::FunctionNotFound(n))
        } else {
            None
        },
        OperandText::Label(l) => if find_label(blocks, l, 0) is None {
            Some(ErrorView::TargetNotFound(l))
        } else {
            None
        },
        _ => None,
    }
}

/// `out` is what the written operand `op` links to, in a function with `blocks`,
/// a program of functions `fs`, and the constant pool `consts`.
pub open spec fn operand_linked(
    op: OperandText,
    out: Operand,
    blocks: Seq<Block>,
    fs: Seq<PreFunction>,
    consts: Seq<Constant>,
) -> bool {
    match op {
        OperandText::Absent => out == Operand::Empty,
        OperandText::String(s) => out matches Operand::Constant(c) && c < consts.len()
            && consts[c as int]@ == ConstantText::String(s),
        OperandText::Number(s) => match immediate_of(s) {
            Some(i) => out == Operand::Immediate(i),
            None => out matches Operand::Constant(c) && c < consts.len() && consts[c as int]@
                == ConstantText::Number(s),
        },
        OperandText::Register(s) => register_id(s) matches Some(r) && out == Operand::Register(r),
        OperandText::Function(n) => find_function(fs, n, 0) matches Some(i) && out
            == Operand::Function(i as u16),
        OperandText::Label(l) => find_label(blocks, l, 0) matches Some(p) && out
            == Operand::Position(p as u16),
    }
}

pub open spec fn instruction_linked(
    pre: PreInstruction,
    out: Instruction,
    blocks: Seq<Block>,
    fs: Seq<PreFunction>,
    consts: Seq<Constant>,
) -> bool {
    &&& out.opcode == pre.opcode
    &&& forall|i: int|
        0 <= i < 4 ==> #[trigger] operand_linked(slot(pre, i), out.operands@[i], blocks, fs, consts)
}

/// `out` holds the instructions of `pre`'s blocks, one after the other, each linked.
pub open spec fn function_linked(
    pre: PreFunction,
    out: Function,
    fs: Seq<PreFunction>,
    consts: Seq<Constant>,
) -> bool {
    &&& out.instructions@.len() == code_len(pre.blocks@)
    &&& forall|k: int, j: int|
        0 <= k < pre.blocks@.len() && 0 <= j < pre.blocks@[k].instructions@.len()
            ==> instruction_linked(
            #[trigger] pre.blocks@[k].instructions@[j],
            out.instructions@[block_start(pre.blocks@, k) + j],
            pre.blocks@,
            fs,
            consts,
        )
}

/// `m` is the module that the functions `fs` link to.
pub open spec fn module_linked(fs: Seq<PreFunction>, m: Module) -> bool {
    &&& m.functions@.len() == fs.len()
    &&& forall|f: int|
        0 <= f < fs.len() ==> #[trigger] function_linked(
            fs[f],
            m.functions@[f],
            fs,
            m.constants@,
        )
}

/// Every written operand of every instruction of `fs` links without error,
/// and every instruction has at most four operands.
pub open spec fn all_resolve(fs: Seq<PreFunction>) -> bool {
    forall|f: int, k: int, j: int, i: int|
        0 <= f < fs.len() && 0 <= k < fs[f].blocks@.len() && 0 <= j
            < fs[f].blocks@[k].instructions@.len() ==> #[trigger] operand_error(
            slot(fs[f].blocks@[k].instructions@[j], i),
            fs[f].blocks@,
            fs,
        ) is None
}

/// At most four operands on every instruction.
pub open spec fn operand_counts_ok(fs: Seq<PreFunction>) -> bool {
    forall|f: int, k: int, j: int|
        0 <= f < fs.len() && 0 <= k < fs[f].blocks@.len() && 0 <= j
            < fs[f].blocks@[k].instructions@.len() ==> (#[trigger] fs[f].blocks@[k].instructions@[j]).operands@.len()
            <= 4
}

/// `e`, found on `line`, is the error of some operand of `fs`.
pub open spec fn is_operand_error(fs: Seq<PreFunction>, e: ErrorView, line: usize) -> bool {
    exists|f: int, k: int, j: int, i: int|
        0 <= f < fs.len() && 0 <= k < fs[f].blocks@.len() && 0 <= j
            < fs[f].blocks@[k].instructions@.len() && 0 <= i < 4 && line == fs[f].line
            && #[trigger] operand_error(slot(fs[f].blocks@[k].instructions@[j], i), fs[f].blocks@, fs)
            == Some(e)
}

pub open spec fn extends(a: Seq<Constant>, b: Seq<Constant>) -> bool {
    a.len() <= b.len() && forall|c: int| 0 <= c < a.len() ==> #[trigger] b[c] == a[c]
}

pub proof fn lemma_block_start_mono(blocks: Seq<Block>, a: int, b: int)
    requires
        0 <= a <= b <= blocks.len(),
    ensures
        block_start(blocks, a) <= block_start(blocks, b),
    decreases b - a,
{
    if a < b {
        lemma_block_start_mono(blocks, a, b - 1);
    }
}

proof fn lemma_find_label(blocks: Seq<Block>, l: Seq<char>, k: int)
    requires
        0 <= k,
    ensures
        find_label(blocks, l, k) matches Some(p) ==> exists|b: int|
            k <= b < blocks.len() && p == block_start(blocks, b),
    decreases blocks.len() - k,
{
    if k < blocks.len() && blocks[k].label@ != l {
        lemma_find_label(blocks, l, k + 1);
    }
}

proof fn lemma_find_function(fs: Seq<PreFunction>, n: Seq<char>, k: int)
    requires
        0 <= k,
    ensures
        find_function(fs, n, k) matches Some(i) ==> k <= i < fs.len(),
    decreases fs.len() - k,
{
    if k < fs.len() && fs[k].name@ != n {
        lemma_find_function(fs, n, k + 1);
    }
}

proof fn lemma_digits_value_nonneg(d: Seq<char>)
    requires
        all_digits(d),
    ensures
        digits_value(d) >= 0,
    decreases d.len(),
{
    if d.len() > 0 {
        assert(all_digits(d.drop_last()));
        lemma_digits_value_nonneg(d.drop_last());
        assert(is_digit(d[d.len() - 1]));
    }
}

/// The value of the digits `s[from..to]`, exact up to `u32::MAX` and above it otherwise.
fn digits_value_capped(s: &Vec<char>, from: usize, to: usize) -> (r: u64)
    requires
        from <= to <= s@.len(),
        all_digits(s@.subrange(from as int, to as int)),
    ensures
        digits_value(s@.subrange(from as int, to as int)) <= 0xffff_ffff ==> r == digits_value(
            s@.subrange(from as int, to as int),
        ),
        digits_value(s@.subrange(from as int, to as int)) > 0xffff_ffff ==> r > 0xffff_ffff,
{
    let mut acc: u64 = 0;
    let mut j = from;
    while j < to
        invariant
            from <= j <= to <= s@.len(),
            all_digits(s@.subrange(from as int, to as int)),
            acc <= 0xffff_ffff ==> acc == digits_value(s@.subrange(from as int, j as int)),
            acc > 0xffff_ffff ==> digits_value(s@.subrange(from as int, j as int)) > 0xffff_ffff,
        decreases to - j,
    {
        let ghost prev = s@.subrange(from as int, j as int);
        let ghost next = s@.subrange(from as int, j + 1);
        assert(next.drop_last() =~= prev);
        assert(next.last() == s@[j as int]);
        assert(is_digit(s@.subrange(from as int, to as int)[j - from]));
        assert(all_digits(prev)) by {
            assert forall|i: int| 0 <= i < prev.len() implies is_digit(#[trigger] prev[i]) by {
                assert(prev[i] == s@.subrange(from as int, to as int)[i]);
            }
        }
        proof {
            lemma_digits_value_nonneg(prev);
        }
        let c = s[j];
        if acc <= 0xffff_ffff {
            acc = acc * 10 + (c as u32 - 48) as u64;
        }
        j += 1;
    }
    acc
}

/// The register id that `%s` names.
fn parse_register(s: &String) -> (r: Option<u16>)
    ensures
        r == register_id(s@),
        r matches Some(v) ==> v <= MAX_REGISTER,
{
    let cs = chars_of(s.as_str());
    if cs.len() == 0 {
        return None;
    }
    let d = digits_end_exec(&cs, 0);
    if d != cs.len() {
        proof {
            lemma_digits_end_digits(cs@, 0);
            assert(!is_digit(cs@[d as int]));
        }
        return None;
    }
    proof {
        lemma_digits_end_digits(cs@, 0);
        assert(cs@.subrange(0, d as int) =~= cs@);
    }
    let v = digits_value_capped(&cs, 0, d);
    if v <= MAX_REGISTER as u64 {
        Some(v as u16)
    } else {
        None
    }
}

proof fn lemma_digits_end_digits(s: Seq<char>, i: int)
    requires
        0 <= i <= s.len(),
    ensures
        i <= digits_end(s, i) <= s.len(),
        all_digits(s.subrange(i, digits_end(s, i))),
        digits_end(s, i) < s.len() ==> !is_digit(s[digits_end(s, i)]),
    decreases s.len() - i,
{
    if i < s.len() && is_digit(s[i]) {
        lemma_digits_end_digits(s, i + 1);
        let e = digits_end(s, i);
        assert forall|k: int| 0 <= k < e - i implies is_digit(#[trigger] s.subrange(i, e)[k]) by {
            if k > 0 {
                assert(s.subrange(i, e)[k] == s.subrange(i + 1, e)[k - 1]);
            }
        }
    }
}

/// The immediate that a number literal becomes, if it is integral and fits `i32`.
fn parse_immediate(s: &String) -> (r: Option<i32>)
    ensures
        r == immediate_of(s@),
{
    let cs = chars_of(s.as_str());
    let b: usize = if cs.len() > 0 && (cs[0] == '-' || cs[0] == '+') {
        1
    } else {
        0
    };
    let d = digits_end_exec(&cs, b);
    proof {
        lemma_digits_end_digits(cs@, b as int);
    }
    if d == b {
        return None;
    }
    if d < cs.len() {
        if !(d + 1 < cs.len() && cs[d] == '.') {
            return None;
        }
        let mut i = d + 1;
        while i < cs.len()
            invariant
                d + 1 <= i <= cs@.len(),
                cs@ == s@,
                b as int == sign_len(cs@),
                d as int == digits_end(cs@, b as int),
                d > b,
                cs@[d as int] == '.',
                forall|k: int| d < k < i ==> #[trigger] cs@[k] == '0',
            decreases cs@.len() - i,
        {
            if cs[i] != '0' {
                assert(cs@[i as int] != '0');
                return None;
            }
            i += 1;
        }
    }
    let v = digits_value_capped(&cs, b, d);
    let negative = b == 1 && cs[0] == '-';
    if negative {
        if v <= 0x8000_0000 {
            Some((0 - (v as i64)) as i32)
        } else {
            None
        }
    } else {
        if v <= 0x7fff_ffff {
            Some(v as i32)
        } else {
            None
        }
    }
}


/// The constants a written operand adds to the pool: a string, or a number that is no immediate.
pub open spec fn op_pool(op: OperandText) -> Seq<ConstantText> {
    match op {
        OperandText::String(s) => seq![ConstantText::String(s)],
        OperandText::Number(s) => if immediate_of(s) is None {
            seq![ConstantText::Number(s)]
        } else {
            Seq::empty()
        },
        _ => Seq::empty(),
    }
}

/// The constants of the first `i` operands of an instruction, in order.
pub open spec fn slots_pool(ins: PreInstruction, i: int) -> Seq<ConstantText>
    decreases i,
{
    if i <= 0 {
        Seq::empty()
    } else {
        slots_pool(ins, i - 1) + op_pool(slot(ins, i - 1))
    }
}

/// The constants of the first `j` instructions, in order.
pub open spec fn instrs_pool(is: Seq<PreInstruction>, j: int) -> Seq<ConstantText>
    decreases j,
{
    if j <= 0 {
        Seq::empty()
    } else {
        instrs_pool(is, j - 1) + slots_pool(is[j - 1], is[j - 1].operands@.len() as int)
    }
}

/// The constants of the first `k` blocks, in order.
pub open spec fn blocks_pool(bs: Seq<Block>, k: int) -> Seq<ConstantText>
    decreases k,
{
    if k <= 0 {
        Seq::empty()
    } else {
        blocks_pool(bs, k - 1) + instrs_pool(
            bs[k - 1].instructions@,
            bs[k - 1].instructions@.len() as int,
        )
    }
}

/// The constants of the first `f` functions, in order of first use.
pub open spec fn functions_pool(fs: Seq<PreFunction>, f: int) -> Seq<ConstantText>
    decreases f,
{
    if f <= 0 {
        Seq::empty()
    } else {
        functions_pool(fs, f - 1) + blocks_pool(fs[f - 1].blocks@, fs[f - 1].blocks@.len() as int)
    }
}

/// The pool the functions `fs` link to.
pub open spec fn program_pool(fs: Seq<PreFunction>) -> Seq<ConstantText> {
    functions_pool(fs, fs.len() as int)
}

pub open spec fn pool_view(cs: Seq<Constant>) -> Seq<ConstantText> {
    cs.map_values(|c: Constant| c@)
}

/// The tables of the linked module fit 16-bit indices.
pub open spec fn tables_fit(fs: Seq<PreFunction>) -> bool {
    &&& fs.len() <= TABLE_LIMIT
    &&& forall|f: int| 0 <= f < fs.len() ==> code_len(#[trigger] fs[f].blocks@) < TABLE_LIMIT
    &&& program_pool(fs).len() <= TABLE_LIMIT
}

proof fn lemma_slots_pool_prefix(ins: PreInstruction, i: int, n: int)
    requires
        0 <= i <= n,
    ensures
        slots_pool(ins, i).len() <= slots_pool(ins, n).len(),
    decreases n - i,
{
    if i < n {
        lemma_slots_pool_prefix(ins, i, n - 1);
    }
}

proof fn lemma_instrs_pool_prefix(is: Seq<PreInstruction>, j: int, n: int)
    requires
        0 <= j <= n,
    ensures
        instrs_pool(is, j).len() <= instrs_pool(is, n).len(),
    decreases n - j,
{
    if j < n {
        lemma_instrs_pool_prefix(is, j, n - 1);
    }
}

proof fn lemma_blocks_pool_prefix(bs: Seq<Block>, k: int, n: int)
    requires
        0 <= k <= n,
    ensures
        blocks_pool(bs, k).len() <= blocks_pool(bs, n).len(),
    decreases n - k,
{
    if k < n {
        lemma_blocks_pool_prefix(bs, k, n - 1);
    }
}

proof fn lemma_functions_pool_prefix(fs: Seq<PreFunction>, f: int, n: int)
    requires
        0 <= f <= n,
    ensures
        functions_pool(fs, f).len() <= functions_pool(fs, n).len(),
    decreases n - f,
{
    if f < n {
        lemma_functions_pool_prefix(fs, f, n - 1);
    }
}

fn find_function_exec(fs: &Vec<PreFunction>, name: &String) -> (r: Option<usize>)
    ensures
        match find_function(fs@, name@, 0) {
            Some(i) => r == Some(i as usize),
            None => r is None,
        },
{
    let mut k: usize = 0;
    while k < fs.len()
        invariant
            k <= fs@.len(),
            find_function(fs@, name@, 0) == find_function(fs@, name@, k as int),
        decreases fs@.len() - k,
    {
        if fs[k].name == *name {
            return Some(k);
        }
        k += 1;
    }
    None
}

fn label_position(blocks: &Vec<Block>, l: &String) -> (r: Option<usize>)
    requires
        code_len(blocks@) < TABLE_LIMIT,
    ensures
        match find_label(blocks@, l@, 0) {
            Some(p) => r == Some(p as usize),
            None => r is None,
        },
{
    let mut k: usize = 0;
    let mut start: usize = 0;
    while k < blocks.len()
        invariant
            k <= blocks@.len(),
            code_len(blocks@) < TABLE_LIMIT,
            start == block_start(blocks@, k as int),
            find_label(blocks@, l@, 0) == find_label(blocks@, l@, k as int),
        decreases blocks@.len() - k,
    {
        if blocks[k].label == *l {
            return Some(start);
        }
        proof {
            lemma_block_start_mono(blocks@, k + 1, blocks@.len() as int);
        }
        start = start + blocks[k].instructions.len();
        k += 1;
    }
    None
}

proof fn lemma_operand_linked_extends(
    op: OperandText,
    out: Operand,
    blocks: Seq<Block>,
    fs: Seq<PreFunction>,
    c1: Seq<Constant>,
    c2: Seq<Constant>,
)
    requires
        operand_linked(op, out, blocks, fs, c1),
        extends(c1, c2),
    ensures
        operand_linked(op, out, blocks, fs, c2),
{
    if let Operand::Constant(c) = out {
        assert(c2[c as int] == c1[c as int]);
    }
}

proof fn lemma_instruction_linked_extends(
    pre: PreInstruction,
    out: Instruction,
    blocks: Seq<Block>,
    fs: Seq<PreFunction>,
    c1: Seq<Constant>,
    c2: Seq<Constant>,
)
    requires
        instruction_linked(pre, out, blocks, fs, c1),
        extends(c1, c2),
    ensures
        instruction_linked(pre, out, blocks, fs, c2),
{
    assert forall|i: int| 0 <= i < 4 implies #[trigger] operand_linked(
        slot(pre, i),
        out.operands@[i],
        blocks,
        fs,
        c2,
    ) by {
        lemma_operand_linked_extends(slot(pre, i), out.operands@[i], blocks, fs, c1, c2);
    }
}

proof fn lemma_function_linked_extends(
    pre: PreFunction,
    out: Function,
    fs: Seq<PreFunction>,
    c1: Seq<Constant>,
    c2: Seq<Constant>,
)
    requires
        function_linked(pre, out, fs, c1),
        extends(c1, c2),
    ensures
        function_linked(pre, out, fs, c2),
{
    assert forall|k: int, j: int|
        0 <= k < pre.blocks@.len() && 0 <= j < pre.blocks@[k].instructions@.len() implies instruction_linked(
        #[trigger] pre.blocks@[k].instructions@[j],
        out.instructions@[block_start(pre.blocks@, k) + j],
        pre.blocks@,
        fs,
        c2,
    ) by {
        lemma_instruction_linked_extends(
            pre.blocks@[k].instructions@[j],
            out.instructions@[block_start(pre.blocks@, k) + j],
            pre.blocks@,
            fs,
            c1,
            c2,
        );
    }
}

/// Appends a constant to the pool and returns its operand.
fn define_constant(constant: Constant, consts: &mut Vec<Constant>) -> (r: Result<
    Operand,
    MachinaError,
>)
    ensures
        match r {
            Ok(out) => final(consts)@ == old(consts)@.push(constant) && old(consts)@.len()
                < TABLE_LIMIT && out == Operand::Constant(old(consts)@.len() as u16) && pool_view(
                final(consts)@,
            ) =~= pool_view(old(consts)@).push(constant@),
            Err(e) => e@ == ErrorView::OutOfMemory && final(consts)@ == old(consts)@,
        },
        old(consts)@.len() < TABLE_LIMIT ==> r is Ok,
{
    if consts.len() >= TABLE_LIMIT {
        return Err(MachinaError::OutOfMemory);
    }
    let index = consts.len() as u16;
    consts.push(constant);
    Ok(Operand::Constant(index))
}

fn link_operand(
    op: &PreOperand,
    blocks: &Vec<Block>,
    fs: &Vec<PreFunction>,
    consts: &mut Vec<Constant>,
    locals: &mut usize,
) -> (r: Result<Operand, MachinaError>)
    requires
        code_len(blocks@) < TABLE_LIMIT,
        fs@.len() <= TABLE_LIMIT,
        *old(locals) <= 255,
    ensures
        extends(old(consts)@, final(consts)@),
        final(consts)@.len() <= old(consts)@.len() + 1,
        *old(locals) <= *final(locals) <= 255,
        match r {
            Ok(out) => operand_linked(op@, out, blocks@, fs@, final(consts)@) && operand_in_range(
                out,
                code_len(blocks@) as nat,
                fs@.len(),
                final(consts)@.len(),
                *final(locals) as nat,
            ),
            Err(e) => operand_error(op@, blocks@, fs@) == Some(e@) || e@ == ErrorView::OutOfMemory,
        },
        r is Ok ==> pool_view(final(consts)@) =~= pool_view(old(consts)@) + op_pool(op@),
        operand_error(op@, blocks@, fs@) is None && old(consts)@.len() + op_pool(op@).len()
            <= TABLE_LIMIT ==> r is Ok,
{
    match op {
        PreOperand::Absent => {
            let r = Ok(Operand::Empty);
            assert(operand_linked(op@, Operand::Empty, blocks@, fs@, consts@));
            r
        },
        PreOperand::String(s) => define_constant(Constant::String(s.clone()), consts),
        PreOperand::Number(s) => {
            match parse_immediate(s) {
                Some(i) => Ok(Operand::Immediate(i)),
                None => define_constant(Constant::Number(s.clone()), consts),
            }
        },
        PreOperand::Register(s) => {
            match parse_register(s) {
                Some(reg) => {
                    assert(reg <= MAX_REGISTER);
                    if *locals <= reg as usize {
                        *locals = reg as usize + 1;
                    }
                    Ok(Operand::Register(reg))
                },
                None => Err(MachinaError::InvalidRegister(s.clone())),
            }
        },
        PreOperand::Function(n) => {
            proof {
                lemma_find_function(fs@, n@, 0);
            }
            match find_function_exec(fs, n) {
                Some(i) => Ok(Operand::Function(i as u16)),
                None => Err(MachinaError::FunctionNotFound(n.clone())),
            }
        },
        PreOperand::Label(l) => {
            let ghost found = find_label(blocks@, l@, 0);
            proof {
                lemma_find_label(blocks@, l@, 0);
                if let Some(p) = found {
                    let b = choose|b: int| 0 <= b < blocks@.len() && p == block_start(blocks@, b);
                    lemma_block_start_mono(blocks@, b, blocks@.len() as int);
                    lemma_block_start_mono(blocks@, 0, b);
                    assert(0 <= p <= code_len(blocks@));
                }
            }
            match label_position(blocks, l) {
                Some(p) => {
                    assert(p <= code_len(blocks@));
                    Ok(Operand::Position(p as u16))
                },
                None => Err(MachinaError::TargetNotFound(l.clone())),
            }
        },
    }
}

fn link_instruction(
    pre: &PreInstruction,
    blocks: &Vec<Block>,
    fs: &Vec<PreFunction>,
    consts: &mut Vec<Constant>,
    locals: &mut usize,
) -> (r: Result<Instruction, MachinaError>)
    requires
        pre.operands@.len() <= 4,
        code_len(blocks@) < TABLE_LIMIT,
        fs@.len() <= TABLE_LIMIT,
        *old(locals) <= 255,
    ensures
        extends(old(consts)@, final(consts)@),
        final(consts)@.len() <= old(consts)@.len() + 4,
        *old(locals) <= *final(locals) <= 255,
        match r {
            Ok(ins) => instruction_linked(*pre, ins, blocks@, fs@, final(consts)@) && forall|s: int|
                0 <= s < 4 ==> #[trigger] operand_in_range(
                    ins.operands@[s],
                    code_len(blocks@) as nat,
                    fs@.len(),
                    final(consts)@.len(),
                    *final(locals) as nat,
                ),
            Err(e) => e@ == ErrorView::OutOfMemory || exists|i: int|
                0 <= i < 4 && #[trigger] operand_error(slot(*pre, i), blocks@, fs@) == Some(e@),
        },
        r is Ok ==> pool_view(final(consts)@) =~= pool_view(old(consts)@) + slots_pool(
            *pre,
            pre.operands@.len() as int,
        ),
        (forall|i: int| 0 <= i < 4 ==> #[trigger] operand_error(slot(*pre, i), blocks@, fs@) is None)
            && old(consts)@.len() + slots_pool(*pre, pre.operands@.len() as int).len()
            <= TABLE_LIMIT ==> r is Ok,
{
    let mut operands = [Operand::Empty;4];
    let n = pre.operands.len();
    let mut i: usize = 0;
    while i < n
        invariant
            n == pre.operands@.len() <= 4,
            i <= n,
            code_len(blocks@) < TABLE_LIMIT,
            fs@.len() <= TABLE_LIMIT,
            extends(old(consts)@, consts@),
            consts@.len() <= old(consts)@.len() + i,
            pool_view(consts@) =~= pool_view(old(consts)@) + slots_pool(*pre, i as int),
            *old(locals) <= *locals <= 255,
            forall|s: int|
                0 <= s < i ==> #[trigger] operand_linked(
                    slot(*pre, s),
                    operands@[s],
                    blocks@,
                    fs@,
                    consts@,
                ),
            forall|s: int|
                0 <= s < i ==> #[trigger] operand_in_range(
                    operands@[s],
                    code_len(blocks@) as nat,
                    fs@.len(),
                    consts@.len(),
                    *locals as nat,
                ),
            forall|s: int| i <= s < 4 ==> operands@[s] == Operand::Empty,
            forall|s: int| 0 <= s < i ==> #[trigger] operand_error(slot(*pre, s), blocks@, fs@) is None,
        decreases n - i,
    {
        let ghost before = consts@;
        let ghost locals_before = *locals;
        proof {
            assert(slot(*pre, i as int) == pre.operands@[i as int]@);
            lemma_slots_pool_prefix(*pre, i + 1, n as int);
            assert(pool_view(consts@).len() == consts@.len());
            assert(pool_view(old(consts)@).len() == old(consts)@.len());
            assert(slots_pool(*pre, i + 1) == slots_pool(*pre, i as int) + op_pool(
                slot(*pre, i as int),
            ));
        }
        let out = link_operand(&pre.operands[i], blocks, fs, consts, locals);
        match out {
            Ok(o) => {
                proof {
                    assert forall|s: int| 0 <= s < i implies #[trigger] operand_linked(
                        slot(*pre, s),
                        operands@[s],
                        blocks@,
                        fs@,
                        consts@,
                    ) by {
                        lemma_operand_linked_extends(
                            slot(*pre, s),
                            operands@[s],
                            blocks@,
                            fs@,
                            before,
                            consts@,
                        );
                    }
                    assert(extends(old(consts)@, consts@)) by {
                        assert forall|c: int| 0 <= c < old(consts)@.len() implies #[trigger] consts@[c]
                            == old(consts)@[c] by {
                            assert(before[c] == old(consts)@[c]);
                        }
                    }
                    assert forall|s: int| 0 <= s < i implies #[trigger] operand_in_range(
                        operands@[s],
                        code_len(blocks@) as nat,
                        fs@.len(),
                        consts@.len(),
                        *locals as nat,
                    ) by {
                        assert(operand_in_range(
                            operands@[s],
                            code_len(blocks@) as nat,
                            fs@.len(),
                            before.len(),
                            locals_before as nat,
                        ));
                    }
                }
                operands[i] = o;
                i += 1;
            },
            Err(e) => {
                proof {
                    assert(slot(*pre, i as int) == pre.operands@[i as int]@);
                    assert(extends(old(consts)@, consts@)) by {
                        assert forall|c: int| 0 <= c < old(consts)@.len() implies #[trigger] consts@[c]
                            == old(consts)@[c] by {
                            assert(before[c] == old(consts)@[c]);
                        }
                    }
                }
                return Err(e);
            },
        }
    }
    proof {
        assert forall|s: int| 0 <= s < 4 implies #[trigger] operand_linked(
            slot(*pre, s),
            operands@[s],
            blocks@,
            fs@,
            consts@,
        ) by {
            if s >= n {
                assert(slot(*pre, s) == OperandText::Absent);
            }
        }
        assert forall|s: int| 0 <= s < 4 implies #[trigger] operand_in_range(
            operands@[s],
            code_len(blocks@) as nat,
            fs@.len(),
            consts@.len(),
            *locals as nat,
        ) by {}
    }
    Ok(Instruction { opcode: pre.opcode, operands })
}


proof fn lemma_wf_in_grows(func: Function, n_functions: nat, c1: nat, c2: nat)
    requires
        func.wf_in(n_functions, c1),
        c1 <= c2,
    ensures
        func.wf_in(n_functions, c2),
{
    assert forall|i: int, k: int|
        0 <= i < func.instructions@.len() && 0 <= k < 4 implies #[trigger] operand_in_range(
        func.instructions@[i].operands@[k],
        func.instructions@.len(),
        n_functions,
        c2,
        func.locals as nat,
    ) by {
        assert(operand_in_range(
            func.instructions@[i].operands@[k],
            func.instructions@.len(),
            n_functions,
            c1,
            func.locals as nat,
        ));
    }
}

/// Links one function: labels become positions, names become function indices,
/// literals become immediates or constants appended to `consts`.
fn link_function(pre: &PreFunction, fs: &Vec<PreFunction>, consts: &mut Vec<Constant>) -> (r:
    Result<Function, MachinaError>)
    requires
        fs@.len() <= TABLE_LIMIT,
        forall|k: int, j: int|
            0 <= k < pre.blocks@.len() && 0 <= j < pre.blocks@[k].instructions@.len()
                ==> (#[trigger] pre.blocks@[k].instructions@[j]).operands@.len() <= 4,
    ensures
        extends(old(consts)@, final(consts)@),
        match r {
            Ok(f) => function_linked(*pre, f, fs@, final(consts)@) && f.wf_in(
                fs@.len(),
                final(consts)@.len(),
            ),
            Err(e) => e@ == ErrorView::OutOfMemory || exists|k: int, j: int, i: int|
                0 <= k < pre.blocks@.len() && 0 <= j < pre.blocks@[k].instructions@.len() && 0
                    <= i < 4 && #[trigger] operand_error(
                    slot(pre.blocks@[k].instructions@[j], i),
                    pre.blocks@,
                    fs@,
                ) == Some(e@),
        },
        (forall|k: int, j: int, i: int|
            0 <= k < pre.blocks@.len() && 0 <= j < pre.blocks@[k].instructions@.len() && 0 <= i < 4
                ==> #[trigger] operand_error(
                slot(pre.blocks@[k].instructions@[j], i),
                pre.blocks@,
                fs@,
            ) is None) && code_len(pre.blocks@) < TABLE_LIMIT && old(consts)@.len() + blocks_pool(
            pre.blocks@,
            pre.blocks@.len() as int,
        ).len() <= TABLE_LIMIT ==> r is Ok,
        r is Ok ==> pool_view(final(consts)@) =~= pool_view(old(consts)@) + blocks_pool(
            pre.blocks@,
            pre.blocks@.len() as int,
        ),
{
    let ghost blocks = pre.blocks@;
    let nb = pre.blocks.len();
    let mut total: usize = 0;
    let mut k: usize = 0;
    while k < nb
        invariant
            nb == blocks.len(),
            blocks == pre.blocks@,
            k <= nb,
            total == block_start(blocks, k as int),
            total < TABLE_LIMIT,
        decreases nb - k,
    {
        let len = pre.blocks[k].instructions.len();
        if len >= TABLE_LIMIT || total + len >= TABLE_LIMIT {
            proof {
                lemma_block_start_mono(blocks, k + 1, nb as int);
            }
            return Err(MachinaError::OutOfMemory);
        }
        total = total + len;
        k += 1;
    }
    let mut out: Vec<Instruction> = Vec::new();
    let mut locals: usize = 0;
    let mut k: usize = 0;
    while k < nb
        invariant
            nb == blocks.len(),
            blocks == pre.blocks@,
            k <= nb,
            code_len(blocks) < TABLE_LIMIT,
            fs@.len() <= TABLE_LIMIT,
            forall|k: int, j: int|
                0 <= k < blocks.len() && 0 <= j < blocks[k].instructions@.len()
                    ==> (#[trigger] blocks[k].instructions@[j]).operands@.len() <= 4,
            out@.len() == block_start(blocks, k as int),
            locals <= 255,
            extends(old(consts)@, consts@),
            forall|kk: int, jj: int|
                0 <= kk < k && 0 <= jj < blocks[kk].instructions@.len() ==> instruction_linked(
                    #[trigger] blocks[kk].instructions@[jj],
                    out@[block_start(blocks, kk) + jj],
                    blocks,
                    fs@,
                    consts@,
                ),
            forall|x: int, s: int|
                0 <= x < out@.len() && 0 <= s < 4 ==> #[trigger] operand_in_range(
                    out@[x].operands@[s],
                    code_len(blocks) as nat,
                    fs@.len(),
                    consts@.len(),
                    locals as nat,
                ),
            pool_view(consts@) =~= pool_view(old(consts)@) + blocks_pool(blocks, k as int),
        decreases nb - k,
    {
        proof {
            lemma_block_start_mono(blocks, k + 1, nb as int);
        }
        let ni = pre.blocks[k].instructions.len();
        let mut j: usize = 0;
        while j < ni
            invariant
                nb == blocks.len(),
                blocks == pre.blocks@,
                k < nb,
                ni == blocks[k as int].instructions@.len(),
                j <= ni,
                code_len(blocks) < TABLE_LIMIT,
                block_start(blocks, k as int + 1) <= code_len(blocks),
                fs@.len() <= TABLE_LIMIT,
                forall|k: int, j: int|
                    0 <= k < blocks.len() && 0 <= j < blocks[k].instructions@.len()
                        ==> (#[trigger] blocks[k].instructions@[j]).operands@.len() <= 4,
                out@.len() == block_start(blocks, k as int) + j,
                locals <= 255,
                extends(old(consts)@, consts@),
                forall|kk: int, jj: int|
                    0 <= kk < k && 0 <= jj < blocks[kk].instructions@.len() ==> instruction_linked(
                        #[trigger] blocks[kk].instructions@[jj],
                        out@[block_start(blocks, kk) + jj],
                        blocks,
                        fs@,
                        consts@,
                    ),
                forall|jj: int|
                    0 <= jj < j ==> instruction_linked(
                        #[trigger] blocks[k as int].instructions@[jj],
                        out@[block_start(blocks, k as int) + jj],
                        blocks,
                        fs@,
                        consts@,
                    ),
                forall|x: int, s: int|
                    0 <= x < out@.len() && 0 <= s < 4 ==> #[trigger] operand_in_range(
                        out@[x].operands@[s],
                        code_len(blocks) as nat,
                        fs@.len(),
                        consts@.len(),
                        locals as nat,
                    ),
                pool_view(consts@) =~= pool_view(old(consts)@) + blocks_pool(blocks, k as int)
                    + instrs_pool(blocks[k as int].instructions@, j as int),
            decreases ni - j,
        {
            let ghost before = consts@;
            let ghost locals_before = locals;
            let ghost out_before = out@;
            let ghost pre_ins = blocks[k as int].instructions@[j as int];
            proof {
                let is = blocks[k as int].instructions@;
                lemma_instrs_pool_prefix(is, j + 1, ni as int);
                lemma_blocks_pool_prefix(blocks, k + 1, nb as int);
                assert(instrs_pool(is, j + 1) == instrs_pool(is, j as int) + slots_pool(
                    is[j as int],
                    is[j as int].operands@.len() as int,
                ));
                assert(blocks_pool(blocks, k + 1) == blocks_pool(blocks, k as int) + instrs_pool(
                    is,
                    is.len() as int,
                ));
                assert(pool_view(consts@).len() == consts@.len());
                assert(pool_view(old(consts)@).len() == old(consts)@.len());
            }
            let linked = link_instruction(
                &pre.blocks[k].instructions[j],
                &pre.blocks,
                fs,
                consts,
                &mut locals,
            );
            proof {
                assert(extends(old(consts)@, consts@)) by {
                    assert forall|c: int| 0 <= c < old(consts)@.len() implies #[trigger] consts@[c]
                        == old(consts)@[c] by {
                        assert(before[c] == old(consts)@[c]);
                    }
                }
            }
            match linked {
                Ok(ins) => {
                    out.push(ins);
                    proof {
                        let is = blocks[k as int].instructions@;
                        assert(pool_view(consts@) =~= pool_view(old(consts)@) + blocks_pool(
                            blocks,
                            k as int,
                        ) + instrs_pool(is, j + 1));
                        assert forall|kk: int, jj: int|
                            0 <= kk < k && 0 <= jj < blocks[kk].instructions@.len() implies instruction_linked(
                            #[trigger] blocks[kk].instructions@[jj],
                            out@[block_start(blocks, kk) + jj],
                            blocks,
                            fs@,
                            consts@,
                        ) by {
                            lemma_block_start_mono(blocks, kk + 1, k as int);
                            lemma_block_start_mono(blocks, 0, kk);
                            assert(block_start(blocks, kk + 1) == block_start(blocks, kk)
                                + blocks[kk].instructions@.len());
                            assert(out@[block_start(blocks, kk) + jj] == out_before[block_start(
                                blocks,
                                kk,
                            ) + jj]);
                            lemma_instruction_linked_extends(
                                blocks[kk].instructions@[jj],
                                out_before[block_start(blocks, kk) + jj],
                                blocks,
                                fs@,
                                before,
                                consts@,
                            );
                        }
                        assert forall|jj: int| 0 <= jj < j + 1 implies instruction_linked(
                            #[trigger] blocks[k as int].instructions@[jj],
                            out@[block_start(blocks, k as int) + jj],
                            blocks,
                            fs@,
                            consts@,
                        ) by {
                            if jj < j {
                                lemma_block_start_mono(blocks, 0, k as int);
                                assert(out@[block_start(blocks, k as int) + jj]
                                    == out_before[block_start(blocks, k as int) + jj]);
                                lemma_instruction_linked_extends(
                                    blocks[k as int].instructions@[jj],
                                    out_before[block_start(blocks, k as int) + jj],
                                    blocks,
                                    fs@,
                                    before,
                                    consts@,
                                );
                            }
                        }
                        assert forall|x: int, s: int|
                            0 <= x < out@.len() && 0 <= s < 4 implies #[trigger] operand_in_range(
                            out@[x].operands@[s],
                            code_len(blocks) as nat,
                            fs@.len(),
                            consts@.len(),
                            locals as nat,
                        ) by {
                            if x < out_before.len() {
                                assert(out@[x] == out_before[x]);
                                assert(operand_in_range(
                                    out_before[x].operands@[s],
                                    code_len(blocks) as nat,
                                    fs@.len(),
                                    before.len(),
                                    locals_before as nat,
                                ));
                            } else {
                                assert(out@[x] == ins);
                            }
                        }
                    }
                    j += 1;
                },
                Err(e) => {
                    proof {
                        if e@ != ErrorView::OutOfMemory {
                            let i = choose|i: int|
                                0 <= i < 4 && #[trigger] operand_error(slot(pre_ins, i), blocks, fs@)
                                    == Some(e@);
                            assert(operand_error(
                                slot(pre.blocks@[k as int].instructions@[j as int], i),
                                pre.blocks@,
                                fs@,
                            ) == Some(e@));
                        }
                    }
                    return Err(e);
                },
            }
        }
        proof {
            let is = blocks[k as int].instructions@;
            assert(blocks_pool(blocks, k + 1) == blocks_pool(blocks, k as int) + instrs_pool(
                is,
                is.len() as int,
            ));
            assert(pool_view(consts@) =~= pool_view(old(consts)@) + blocks_pool(blocks, k + 1));
        }
        k += 1;
    }
    let f = Function { locals: locals as u8, instructions: out };
    proof {
        assert(f.instructions@.len() == code_len(blocks));
        assert forall|i: int, s: int|
            0 <= i < f.instructions@.len() && 0 <= s < 4 implies #[trigger] operand_in_range(
            f.instructions@[i].operands@[s],
            f.instructions@.len(),
            fs@.len(),
            consts@.len(),
            f.locals as nat,
        ) by {
            assert(operand_in_range(
                out@[i].operands@[s],
                code_len(blocks) as nat,
                fs@.len(),
                consts@.len(),
                locals as nat,
            ));
        }
    }
    Ok(f)
}

/// Links parsed functions into a module.
pub fn link(functions: &Vec<PreFunction>) -> (r: Result<Module, (MachinaError, usize)>)
    requires
        operand_counts_ok(functions@),
    ensures
        r matches Ok(m) ==> module_linked(functions@, m) && m.wf(),
        r matches Err((e, line)) ==> e@ == ErrorView::OutOfMemory || is_operand_error(
            functions@,
            e@,
            line,
        ),
        r matches Ok(m) ==> pool_view(m.constants@) =~= program_pool(functions@),
        all_resolve(functions@) && tables_fit(functions@) ==> r is Ok,
        all_resolve(functions@) ==> (r is Ok || (r matches Err((e, _)) && e@
            == ErrorView::OutOfMemory)),
{
    if functions.len() > TABLE_LIMIT {
        return Err((MachinaError::OutOfMemory, 0));
    }
    let mut consts: Vec<Constant> = Vec::new();
    let mut out: Vec<Function> = Vec::new();
    let mut f: usize = 0;
    while f < functions.len()
        invariant
            functions@.len() <= TABLE_LIMIT,
            operand_counts_ok(functions@),
            f <= functions@.len(),
            out@.len() == f,
            forall|g: int|
                0 <= g < f ==> #[trigger] function_linked(
                    functions@[g],
                    out@[g],
                    functions@,
                    consts@,
                ),
            forall|g: int|
                0 <= g < f ==> (#[trigger] out@[g]).wf_in(functions@.len(), consts@.len()),
            pool_view(consts@) =~= functions_pool(functions@, f as int),
        decreases functions@.len() - f,
    {
        let ghost before = consts@;
        let ghost out_before = out@;
        proof {
            lemma_functions_pool_prefix(functions@, f + 1, functions@.len() as int);
            assert(functions_pool(functions@, f + 1) == functions_pool(functions@, f as int)
                + blocks_pool(functions@[f as int].blocks@, functions@[f as int].blocks@.len() as int));
            assert(pool_view(consts@).len() == consts@.len());
            if all_resolve(functions@) {
                let pre = functions@[f as int];
                assert forall|k: int, j: int, i: int|
                    0 <= k < pre.blocks@.len() && 0 <= j < pre.blocks@[k].instructions@.len() && 0
                        <= i < 4 implies #[trigger] operand_error(
                    slot(pre.blocks@[k].instructions@[j], i),
                    pre.blocks@,
                    functions@,
                ) is None by {
                    assert(operand_error(
                        slot(functions@[f as int].blocks@[k].instructions@[j], i),
                        functions@[f as int].blocks@,
                        functions@,
                    ) is None);
                }
            }
            if tables_fit(functions@) {
                assert(code_len(functions@[f as int].blocks@) < TABLE_LIMIT);
            }
            assert forall|k: int, j: int|
                0 <= k < functions@[f as int].blocks@.len() && 0 <= j
                    < functions@[f as int].blocks@[k].instructions@.len() implies (
            #[trigger] functions@[f as int].blocks@[k].instructions@[j]).operands@.len() <= 4 by {
                assert(functions@[f as int].blocks@[k].instructions@[j]
                    == functions@[f as int].blocks@[k].instructions@[j]);
            }
        }
        match link_function(&functions[f], functions, &mut consts) {
            Ok(func) => {
                out.push(func);
                proof {
                    assert(pool_view(consts@) =~= functions_pool(functions@, f + 1));
                    assert forall|g: int| 0 <= g < f + 1 implies #[trigger] function_linked(
                        functions@[g],
                        out@[g],
                        functions@,
                        consts@,
                    ) by {
                        if g < f {
                            assert(out@[g] == out_before[g]);
                            lemma_function_linked_extends(
                                functions@[g],
                                out_before[g],
                                functions@,
                                before,
                                consts@,
                            );
                        }
                    }
                    assert forall|g: int| 0 <= g < f + 1 implies (#[trigger] out@[g]).wf_in(
                        functions@.len(),
                        consts@.len(),
                    ) by {
                        if g < f {
                            assert(out@[g] == out_before[g]);
                            lemma_wf_in_grows(out_before[g], functions@.len(), before.len(), consts@.len());
                        }
                    }
                }
            },
            Err(e) => {
                proof {
                    if e@ != ErrorView::OutOfMemory {
                        let pre = functions@[f as int];
                        let (k, j, i) = choose|k: int, j: int, i: int|
                            0 <= k < pre.blocks@.len() && 0 <= j < pre.blocks@[k].instructions@.len()
                                && 0 <= i < 4 && #[trigger] operand_error(
                                slot(pre.blocks@[k].instructions@[j], i),
                                pre.blocks@,
                                functions@,
                            ) == Some(e@);
                        assert(operand_error(
                            slot(functions@[f as int].blocks@[k].instructions@[j], i),
                            functions@[f as int].blocks@,
                            functions@,
                        ) == Some(e@));
                    }
                    if all_resolve(functions@) {
                        let pre = functions@[f as int];
                        assert forall|k: int, j: int, i: int|
                            0 <= k < pre.blocks@.len() && 0 <= j < pre.blocks@[k].instructions@.len()
                                && 0 <= i < 4 implies #[trigger] operand_error(
                            slot(pre.blocks@[k].instructions@[j], i),
                            pre.blocks@,
                            functions@,
                        ) is None by {
                            assert(operand_error(
                                slot(functions@[f as int].blocks@[k].instructions@[j], i),
                                functions@[f as int].blocks@,
                                functions@,
                            ) is None);
                        }
                    }
                }
                return Err((e, functions[f].line));
            },
        }
        f += 1;
    }
    let m = Module { functions: out, constants: consts };
    proof {
        assert forall|g: int| 0 <= g < m.functions@.len() implies #[trigger] m.functions@[g].wf_in(
            m.functions@.len(),
            m.constants@.len(),
        ) by {
            assert(out@[g].wf_in(functions@.len(), consts@.len()));
        }
    }
    Ok(m)
}


/// The decimal digits of `n`, most significant first.
spec fn digits_of(n: nat) -> Seq<char>
    decreases n,
{
    if n < 10 {
        seq![digit_of(n as int)]
    } else {
        digits_of(n / 10).push(digit_of((n % 10) as int))
    }
}

/// The decimal text of `v`, with a minus sign when it is negative.
spec fn decimal(v: int) -> Seq<char> {
    if v < 0 {
        seq!['-'] + digits_of((-v) as nat)
    } else {
        digits_of(v as nat)
    }
}

proof fn lemma_digit_of(d: int)
    requires
        0 <= d < 10,
    ensures
        is_digit(digit_of(d)),
        digit_value(digit_of(d)) == d,
{
    assert('0' as u32 == 48 && '1' as u32 == 49 && '2' as u32 == 50 && '3' as u32 == 51 && '4' as u32
        == 52 && '5' as u32 == 53 && '6' as u32 == 54 && '7' as u32 == 55 && '8' as u32 == 56
        && '9' as u32 == 57);
}

proof fn lemma_digits_of(n: nat)
    ensures
        digits_of(n).len() >= 1,
        all_digits(digits_of(n)),
        digits_value(digits_of(n)) == n,
    decreases n,
{
    if n >= 10 {
        lemma_digits_of(n / 10);
        lemma_digit_of((n % 10) as int);
        vstd::arithmetic::div_mod::lemma_fundamental_div_mod(n as int, 10);
        let s = digits_of(n);
        assert(s.drop_last() =~= digits_of(n / 10));
        assert(s.last() == digit_of((n % 10) as int));
        assert(digits_value(s) == digits_value(digits_of(n / 10)) * 10 + digit_value(
            digit_of((n % 10) as int),
        ));
        assert forall|i: int| 0 <= i < s.len() implies is_digit(#[trigger] s[i]) by {
            if i < s.len() - 1 {
                assert(s[i] == digits_of(n / 10)[i]);
            }
        }
    } else {
        lemma_digit_of(n as int);
        let s = seq![digit_of(n as int)];
        assert(s.drop_last() =~= Seq::<char>::empty());
        assert(s.last() == digit_of(n as int));
        assert(digits_value(s) == digits_value(s.drop_last()) * 10 + digit_value(s.last()));
    }
}

proof fn lemma_digits_end_all(s: Seq<char>, i: int)
    requires
        0 <= i <= s.len(),
        forall|k: int| i <= k < s.len() ==> is_digit(#[trigger] s[k]),
    ensures
        digits_end(s, i) == s.len(),
    decreases s.len() - i,
{
    if i < s.len() {
        lemma_digits_end_all(s, i + 1);
    }
}

proof fn lemma_decimal_links(v: i32)
    ensures
        immediate_of(decimal(v as int)) == Some(v),
{
    let s = decimal(v as int);
    if v < 0 {
        let n = (-(v as int)) as nat;
        lemma_digits_of(n);
        let ds = digits_of(n);
        assert(s.subrange(1, s.len() as int) =~= ds);
        assert forall|k: int| 1 <= k < s.len() implies is_digit(#[trigger] s[k]) by {
            assert(s[k] == ds[k - 1]);
        }
        lemma_digits_end_all(s, 1);
        assert(sign_len(s) == 1);
    } else {
        let n = v as nat;
        lemma_digits_of(n);
        assert(is_digit(s[0]));
        assert(sign_len(s) == 0);
        lemma_digits_end_all(s, 0);
        assert(s.subrange(0, s.len() as int) =~= s);
    }
}


/// Instruction `j` of block `k` sits at position `i` of the function.
pub open spec fn located(blocks: Seq<Block>, k: int, j: int, i: int) -> bool {
    0 <= j < blocks[k].instructions@.len() && i == block_start(blocks, k) + j
}

proof fn lemma_numeral_decimal(n: nat, w: nat)
    requires
        w <= 1,
    ensures
        numeral(n, 10, w) == digits_of(n),
    decreases n,
{
    if n >= 10 {
        lemma_numeral_decimal(n / 10, 0);
    }
}

/// The text `WRITE` shows for an integer, read back as a literal and linked, is an
/// immediate of that very integer: integers survive being written and assembled.
pub proof fn lemma_integer_literal_round_trip(v: i32)
    ensures
        immediate_of(int_text(v as int)) == Some(v),
{
    if v < 0 {
        lemma_numeral_decimal((-(v as int)) as nat, 1);
    } else {
        lemma_numeral_decimal(v as nat, 1);
    }
    assert(int_text(v as int) == decimal(v as int));
    lemma_decimal_links(v);
}

proof fn lemma_block_of(blocks: Seq<Block>, n: int, i: int)
    requires
        0 <= n <= blocks.len(),
        0 <= i < block_start(blocks, n),
    ensures
        exists|k: int, j: int| 0 <= k < n && #[trigger] located(blocks, k, j, i),
    decreases n,
{
    if n > 0 {
        if i < block_start(blocks, n - 1) {
            lemma_block_of(blocks, n - 1, i);
        } else {
            let j = i - block_start(blocks, n - 1);
            assert(located(blocks, n - 1, j, i));
        }
    }
}

/// Every block of `blocks` holds at least one instruction.
pub open spec fn no_empty_blocks(blocks: Seq<Block>) -> bool {
    forall|k: int| 0 <= k < blocks.len() ==> (#[trigger] blocks[k]).instructions@.len() > 0
}

/// In a linked module, a jump target lies inside its function whenever none of the
/// function's blocks is empty: it is the first instruction of the labelled block.
pub proof fn lemma_positions_inside(fs: Seq<PreFunction>, m: Module, f: int, i: int, s: int)
    requires
        module_linked(fs, m),
        0 <= f < fs.len(),
        no_empty_blocks(fs[f].blocks@),
        0 <= i < m.functions@[f].instructions@.len(),
        0 <= s < 4,
        m.functions@[f].instructions@[i].operands@[s] is Position,
    ensures
        m.functions@[f].instructions@[i].operands@[s]->Position_0 < m.functions@[f].instructions@.len(),
{
    let blocks = fs[f].blocks@;
    assert(function_linked(fs[f], m.functions@[f], fs, m.constants@));
    lemma_block_of(blocks, blocks.len() as int, i);
    let (k, j) = choose|k: int, j: int| 0 <= k < blocks.len() && #[trigger] located(blocks, k, j, i);
    let pre = blocks[k].instructions@[j];
    assert(instruction_linked(pre, m.functions@[f].instructions@[i], blocks, fs, m.constants@));
    assert(operand_linked(slot(pre, s), m.functions@[f].instructions@[i].operands@[s], blocks, fs, m.constants@));
    let l = slot(pre, s)->Label_0;
    lemma_find_label(blocks, l, 0);
    let p = find_label(blocks, l, 0)->0;
    let b = choose|b: int| 0 <= b < blocks.len() && p == block_start(blocks, b);
    assert(blocks[b].instructions@.len() > 0);
    lemma_block_start_mono(blocks, b + 1, blocks.len() as int);
    lemma_block_start_mono(blocks, 0, b);
}


/// An integer written as `WRITE` shows it, and followed by anything that cannot
/// continue a number, is read back as one number token carrying that text, which
/// links to an immediate of the same integer.
pub proof fn lemma_written_integer_reassembles(v: i32, rest: Seq<char>)
    requires
        rest.len() == 0 || (!is_digit(rest[0]) && rest[0] != '.'),
    ensures
        scan(int_text(v as int) + rest, 0) == (
            Lexed::WithText(Token::Number, int_text(v as int)),
            int_text(v as int).len() as int,
        ),
        immediate_of(int_text(v as int)) == Some(v),
{
    lemma_integer_literal_round_trip(v);
    let n: nat = if v < 0 {
        (-(v as int)) as nat
    } else {
        v as nat
    };
    lemma_numeral_decimal(n, 1);
    lemma_digits_of(n);
    let t = int_text(v as int);
    let ds = digits_of(n);
    assert forall|k: int| 1 <= k < t.len() implies is_digit(#[trigger] t[k]) by {
        if v < 0 {
            assert(t[k] == ds[k - 1]);
        } else {
            assert(t[k] == ds[k]);
        }
    }
    if v >= 0 {
        assert(is_digit(ds[0]));
    }
    lemma_integer_lexes_back(t, rest);
}

} // verus!
