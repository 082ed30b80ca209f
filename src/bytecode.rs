use vstd::prelude::*;

verus! {

#[derive(Clone, Copy, PartialEq, Eq, Structural, Debug)]
pub enum OpCode {
    Call,
    Ret,
    Move,
    Jmp,
    Jt,
    Jf,
    JLt,
    JLe,
    JGt,
    JGe,
    JEq,
    JNe,
    Lt,
    Le,
    Gt,
    Ge,
    Eq,
    Ne,
    Add,
    Sub,
    Mul,
    Div,
    Mod,
    Not,
    And,
    Or,
    Xor,
    Shl,
    Shr,
    Write,
}

pub type Immediate = i32;

pub type Position = u16;

pub type Register = u16;

pub type ConstantIdx = u16;

pub type FunctionIdx = u16;

#[derive(Clone, Copy, PartialEq, Eq, Structural, Debug)]
pub enum Operand {
    Empty,
    Immediate(Immediate),
    Position(Position),
    Register(Register),
    Function(FunctionIdx),
    Constant(ConstantIdx),
}

/// One fixed-width instruction: an opcode and four operand slots, unused ones `Empty`.
#[derive(Clone, Copy, PartialEq, Eq, Debug)]
pub struct Instruction {
    pub opcode: OpCode,
    pub operands: [Operand; 4],
}

impl Instruction {
    pub fn new(opcode: OpCode, operands: [Operand; 4]) -> (r: Instruction)
        ensures
            r.opcode == opcode,
            r.operands@ == operands@,
    {
        Instruction { opcode, operands }
    }

    pub fn get(&self, arg: usize) -> (r: Operand)
        requires
            arg < 4,
        ensures
            r == self.operands@[arg as int],
    {
        self.operands[arg]
    }

    pub fn register(&self, arg: usize) -> (r: Register)
        requires
            arg < 4,
            self.operands@[arg as int] is Register,
        ensures
            self.operands@[arg as int] == Operand::Register(r),
    {
        match self.operands[arg] {
            Operand::Register(r) => r,
            _ => 0,
        }
    }

    pub fn position(&self, arg: usize) -> (r: Position)
        requires
            arg < 4,
            self.operands@[arg as int] is Position,
        ensures
            self.operands@[arg as int] == Operand::Position(r),
    {
        match self.operands[arg] {
            Operand::Position(p) => p,
            _ => 0,
        }
    }

    pub fn immediate(&self, arg: usize) -> (r: Immediate)
        requires
            arg < 4,
            self.operands@[arg as int] is Immediate,
        ensures
            self.operands@[arg as int] == Operand::Immediate(r),
    {
        match self.operands[arg] {
            Operand::Immediate(i) => i,
            _ => 0,
        }
    }

    pub fn function(&self, arg: usize) -> (r: FunctionIdx)
        requires
            arg < 4,
            self.operands@[arg as int] is Function,
        ensures
            self.operands@[arg as int] == Operand::Function(r),
    {
        match self.operands[arg] {
            Operand::Function(f) => f,
            _ => 0,
        }
    }
}

/// An entry of the constant pool. A number keeps the literal's text; the host,
/// which owns floating point, turns it into a double before a run.
#[derive(Clone, PartialEq, Eq, Debug)]
pub enum Constant {
    String(String),
    Number(String),
}

pub ghost enum ConstantText {
    String(Seq<char>),
    Number(Seq<char>),
}

impl View for Constant {
    type V = ConstantText;

    open spec fn view(&self) -> ConstantText {
        match self {
            Constant::String(s) => ConstantText::String(s@),
            Constant::Number(s) => ConstantText::Number(s@),
        }
    }
}

#[derive(Clone, Debug)]
pub struct Function {
    pub locals: u8,
    pub instructions: Vec<Instruction>,
}

impl Function {
    pub fn new(locals: u8, instructions: Vec<Instruction>) -> (r: Function)
        ensures
            r.locals == locals,
            r.instructions@ == instructions@,
    {
        Function { locals, instructions }
    }

    /// Every operand of every instruction refers to something that exists:
    /// a position inside this function or at its end (where a trailing block
    /// without instructions starts), a function of a table of `n_functions`,
    /// a constant of a pool of `n_constants`, a register inside the frame.
    pub open spec fn wf_in(&self, n_functions: nat, n_constants: nat) -> bool {
        forall|i: int, k: int|
            0 <= i < self.instructions@.len() && 0 <= k < 4 ==> #[trigger] operand_in_range(
                self.instructions@[i].operands@[k],
                self.instructions@.len(),
                n_functions,
                n_constants,
                self.locals as nat,
            )
    }
}

pub open spec fn operand_in_range(
    op: Operand,
    n_instructions: nat,
    n_functions: nat,
    n_constants: nat,
    locals: nat,
) -> bool {
    match op {
        Operand::Position(p) => p <= n_instructions,
        Operand::Function(f) => f < n_functions,
        Operand::Constant(c) => c < n_constants,
        Operand::Register(r) => r < locals,
        _ => true,
    }
}

/// A linked program: its functions and its constant pool.
#[derive(Clone, Debug)]
pub struct Module {
    pub functions: Vec<Function>,
    pub constants: Vec<Constant>,
}

impl Module {
    /// Every function's operands stay within the module's tables.
    pub open spec fn wf(&self) -> bool {
        forall|f: int|
            0 <= f < self.functions@.len() ==> #[trigger] self.functions@[f].wf_in(
                self.functions@.len(),
                self.constants@.len(),
            )
    }
}

} // verus!
