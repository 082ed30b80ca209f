use vstd::arithmetic::power2::{lemma2_to64, lemma_pow2_unfold, pow2};
use vstd::prelude::*;

use crate::bytecode::{Function, Instruction, OpCode, Operand};
use crate::value::{lemma_int_encoding_injective, Value, FALSE_TAG, INT_TAG, NULL_TAG, TRUE_TAG};

verus! {

/// Registers in a fresh machine.
pub const INITIAL_REG_SIZE: usize = 16;

/// The register file never grows past this many registers.
pub const MAX_REGISTERS: usize = 0x100_0000;

/// What a run reads: the functions, and the constant pool as values
/// (`None` for a string constant, which no instruction can read yet).
#[derive(Debug)]
pub struct Environment {
    pub functions: Vec<Function>,
    pub constants: Vec<Option<Value>>,
}

impl Environment {
    pub fn new() -> (r: Environment)
        ensures
            r.functions@.len() == 0,
            r.constants@.len() == 0,
    {
        Environment { constants: Vec::new(), functions: Vec::new() }
    }
}

/// Why a run stopped before its function returned.
#[derive(Clone, Copy, PartialEq, Eq, Structural, Debug)]
pub enum Trap {
    /// No call is running.
    NotRunning,
    /// A call is already running.
    Running,
    /// `resume` was called with no request outstanding.
    NothingPending,
    /// The host owes the answer to a request.
    Pending,
    /// A call names a function the environment does not have.
    BadFunction,
    /// Execution ran past the end of a function.
    BadPosition,
    /// An operand is not of the kind the opcode needs.
    BadOperand,
    /// A register lies outside the register file.
    BadRegister,
    /// A call's argument range is empty or reversed.
    InvalidRegisterRange,
    /// A constant index is out of range, or names a string.
    BadConstant,
    /// A value cannot be used as a number.
    NotANumber,
    /// Integer division or remainder by zero.
    DivisionByZero,
    /// A shift amount outside `0..64`.
    BadShift,
    /// The register file would grow past `MAX_REGISTERS`.
    OutOfMemory,
}

/// Work that needs floating point, which the host performs: the opcode applied
/// to the two values with the numeric promotion rules. The host answers with `resume`.
#[derive(Clone, Copy, PartialEq, Eq, Structural, Debug)]
pub struct Request {
    pub opcode: OpCode,
    pub lhs: Value,
    pub rhs: Value,
}

/// Where the host's answer goes: a register, or a jump taken when the answer is true.
#[derive(Clone, Copy, PartialEq, Eq, Structural, Debug)]
pub enum Target {
    Register(u16),
    Branch(u16),
}

/// The outcome of one instruction.
#[derive(Clone, Copy, PartialEq, Eq, Structural, Debug)]
pub enum Step {
    Continue,
    /// Print the value, or an empty line.
    Write(Option<Value>),
    /// Compute this and `resume` with the result.
    Compute(Request),
    /// The host's call returned this value.
    Return(Value),
    Trap(Trap),
}

/// A caller's state, saved while its callee runs; `dst` is `None` for the host's call.
#[derive(Clone, Copy, PartialEq, Eq, Structural, Debug)]
pub struct Frame {
    pub function: usize,
    pub ip: usize,
    pub bp: usize,
    pub rp: usize,
    pub dst: Option<u16>,
}

pub open spec fn abs(a: int) -> int {
    if a < 0 {
        -a
    } else {
        a
    }
}

/// Division rounding toward zero.
pub open spec fn tdiv(a: int, b: int) -> int {
    if (a >= 0) == (b > 0) || a == 0 {
        abs(a) / abs(b)
    } else {
        -(abs(a) / abs(b))
    }
}

pub open spec fn fits_i32(v: int) -> bool {
    i32::MIN <= v <= i32::MAX
}

/// The exact result of an integer arithmetic or bitwise opcode on `a` and `b`;
/// `None` where it has none here (division by zero, a shift the host computes or refuses).
pub open spec fn int_result(op: OpCode, a: i32, b: i32) -> Option<int> {
    match op {
        OpCode::Add => Some(a + b),
        OpCode::Sub => Some(a - b),
        OpCode::Mul => Some(a * b),
        OpCode::Div => if b == 0 {
            None
        } else {
            Some(tdiv(a as int, b as int))
        },
        OpCode::Mod => if b == 0 {
            None
        } else {
            Some(a - b * tdiv(a as int, b as int))
        },
        OpCode::And => Some((a & b) as int),
        OpCode::Or => Some((a | b) as int),
        OpCode::Xor => Some((a ^ b) as int),
        OpCode::Shl => if 0 <= b <= 32 {
            Some(a * pow2(b as nat))
        } else {
            None
        },
        OpCode::Shr => if 0 <= b < 32 {
            Some((a >> (b as u32)) as int)
        } else if 32 <= b < 64 {
            Some((a >> 31u32) as int)
        } else {
            None
        },
        _ => None,
    }
}

/// An integer comparison.
pub open spec fn compares(op: OpCode, a: int, b: int) -> bool {
    match op {
        OpCode::Lt | OpCode::JLt => a < b,
        OpCode::Le | OpCode::JLe => a <= b,
        OpCode::Gt | OpCode::JGt => a > b,
        OpCode::Ge | OpCode::JGe => a >= b,
        OpCode::Eq | OpCode::JEq => a == b,
        _ => a != b,
    }
}

pub open spec fn is_arith(op: OpCode) -> bool {
    op == OpCode::Add || op == OpCode::Sub || op == OpCode::Mul || op == OpCode::Div || op
        == OpCode::Mod || op == OpCode::And || op == OpCode::Or || op == OpCode::Xor || op
        == OpCode::Shl || op == OpCode::Shr
}

pub open spec fn is_ordering(op: OpCode) -> bool {
    op == OpCode::Lt || op == OpCode::Le || op == OpCode::Gt || op == OpCode::Ge
}

pub open spec fn is_cond_jump(op: OpCode) -> bool {
    op == OpCode::JLt || op == OpCode::JLe || op == OpCode::JGt || op == OpCode::JGe || op
        == OpCode::JEq || op == OpCode::JNe
}

/// Every saved window lies inside a register file of `n_registers`; every saved
/// caller is a function of the environment; the bottom frame, and only it, is the host's.
pub open spec fn frames_ok(frames: Seq<Frame>, n_registers: nat, n_functions: nat) -> bool {
    &&& forall|i: int|
        0 <= i < frames.len() ==> #[trigger] frames[i].bp <= frames[i].rp < n_registers
    &&& forall|i: int|
        0 <= i < frames.len() && (#[trigger] frames[i]).dst is Some ==> frames[i].function
            < n_functions
    &&& forall|i: int| 0 <= i < frames.len() ==> ((#[trigger] frames[i]).dst is None <==> i == 0)
}

/// The machine: one register file shared by all frames, the current frame's
/// window `[bp, rp]`, and the saved frames of the callers.
#[derive(Debug)]
pub struct Machina<'a> {
    pub registers: Vec<Value>,
    pub bp: usize,
    pub rp: usize,
    pub function: usize,
    pub ip: usize,
    pub frames: Vec<Frame>,
    pub pending: Option<Target>,
    pub running: bool,
    pub environment: &'a Environment,
}

impl<'a> Machina<'a> {
    /// The machine's invariant: every window lies inside the register file.
    pub open spec fn wf(&self) -> bool {
        &&& self.bp <= self.rp < self.registers@.len() <= MAX_REGISTERS
        &&& frames_ok(self.frames@, self.registers@.len(), self.environment.functions@.len())
        &&& self.running ==> self.function < self.environment.functions@.len()
            && self.frames@.len() > 0
        &&& self.pending is Some ==> self.running
    }

    /// The instruction at `ip` of the running function, if there is one.
    pub open spec fn current(&self) -> Option<Instruction> {
        if self.running && self.function < self.environment.functions@.len() && self.ip
            < self.environment.functions@[self.function as int].instructions@.len() {
            Some(self.environment.functions@[self.function as int].instructions@[self.ip as int])
        } else {
            None
        }
    }

    /// The value an operand reads in the current frame; `None` where it cannot be read.
    pub open spec fn read(&self, op: Operand) -> Option<Value> {
        match op {
            Operand::Register(r) => if self.bp + r < self.registers@.len() {
                Some(self.registers@[self.bp + r])
            } else {
                None
            },
            Operand::Immediate(i) => Some(Value::of_int(i)),
            Operand::Constant(c) => if c < self.environment.constants@.len() {
                self.environment.constants@[c as int]
            } else {
                None
            },
            Operand::Function(f) => Some(Value::of_function(f)),
            _ => Some(Value(NULL_TAG)),
        }
    }

    /// A machine over `env`, with sixteen null registers and no call running.
    pub fn new(env: &'a Environment) -> (r: Machina<'a>)
        ensures
            r.wf(),
            r.registers@.len() == INITIAL_REG_SIZE,
            forall|i: int| 0 <= i < INITIAL_REG_SIZE ==> #[trigger] r.registers@[i] == Value(NULL_TAG),
            r.bp == 0 && r.rp == 0,
            !r.running,
            r.frames@.len() == 0,
            r.environment == env,
    {
        let mut registers: Vec<Value> = Vec::new();
        while registers.len() < INITIAL_REG_SIZE
            invariant
                registers@.len() <= INITIAL_REG_SIZE,
                forall|i: int| 0 <= i < registers@.len() ==> #[trigger] registers@[i] == Value(NULL_TAG),
            decreases INITIAL_REG_SIZE - registers@.len(),
        {
            registers.push(Value::null());
        }
        Machina {
            registers,
            bp: 0,
            rp: 0,
            function: 0,
            ip: 0,
            frames: Vec::new(),
            pending: None,
            running: false,
            environment: env,
        }
    }

    /// Grows the register file by half, rounded up, until it holds `total` registers.
    fn resize_registers(&mut self, total: usize)
        requires
            old(self).wf(),
            total <= MAX_REGISTERS,
        ensures
            final(self).wf(),
            final(self).registers@.len() >= total,
            final(self).registers@.len() >= old(self).registers@.len(),
            final(self).registers@.subrange(0, old(self).registers@.len() as int)
                == old(self).registers@,
            forall|i: int|
                old(self).registers@.len() <= i < final(self).registers@.len()
                    ==> #[trigger] final(self).registers@[i] == Value(NULL_TAG),
            final(self).bp == old(self).bp && final(self).rp == old(self).rp,
            final(self).frames == old(self).frames,
            final(self).function == old(self).function && final(self).ip == old(self).ip,
            final(self).running == old(self).running && final(self).pending == old(self).pending,
            final(self).environment == old(self).environment,
    {
        let ghost start = self.registers@;
        while self.registers.len() < total
            invariant
                self.wf(),
                total <= MAX_REGISTERS,
                self.registers@.len() >= start.len(),
                self.registers@.subrange(0, start.len() as int) == start,
                forall|i: int|
                    start.len() <= i < self.registers@.len() ==> #[trigger] self.registers@[i]
                        == Value(NULL_TAG),
                self.bp == old(self).bp && self.rp == old(self).rp,
                self.frames == old(self).frames,
                self.function == old(self).function && self.ip == old(self).ip,
                self.running == old(self).running && self.pending == old(self).pending,
                self.environment == old(self).environment,
            decreases MAX_REGISTERS - self.registers@.len(),
        {
            let curr = self.registers.len();
            let grown = curr + (curr + 1) / 2;
            let target = if grown > MAX_REGISTERS {
                MAX_REGISTERS
            } else {
                grown
            };
            while self.registers.len() < target
                invariant
                    self.wf(),
                    target <= MAX_REGISTERS,
                    self.registers@.len() >= curr,
                    self.registers@.len() >= start.len(),
                    self.registers@.subrange(0, start.len() as int) == start,
                    forall|i: int|
                        start.len() <= i < self.registers@.len() ==> #[trigger] self.registers@[i]
                            == Value(NULL_TAG),
                    self.bp == old(self).bp && self.rp == old(self).rp,
                    self.frames == old(self).frames,
                    self.function == old(self).function && self.ip == old(self).ip,
                    self.running == old(self).running && self.pending == old(self).pending,
                    self.environment == old(self).environment,
                decreases target - self.registers@.len(),
            {
                let ghost before = self.registers@;
                self.registers.push(Value::null());
                assert(self.registers@.subrange(0, start.len() as int) =~= before.subrange(
                    0,
                    start.len() as int,
                ));
            }
        }
    }
}

/// The registers a frame of `f` takes: its locals, and at least one.
pub open spec fn frame_size(f: Function) -> int {
    if f.locals == 0 {
        1
    } else {
        f.locals as int
    }
}

/// A value that the numeric opcodes accept: an integer or a double.
pub open spec fn numeric(v: Value) -> bool {
    v.spec_is_int() || v.spec_is_num()
}

impl<'a> Machina<'a> {
    /// Register `op` of the current frame exists.
    pub open spec fn dst_ok(&self, op: Operand) -> bool {
        op is Register && self.bp + op->Register_0 < self.registers@.len()
    }

    /// The frame moved on to the next instruction, having written `v` to register `d`, if given.
    pub open spec fn continued(&self, after: &Self, write: Option<(u16, Value)>) -> bool {
        &&& after.ip == self.ip + 1
        &&& after.function == self.function && after.bp == self.bp && after.rp == self.rp
        &&& after.frames@ == self.frames@
        &&& after.running && after.pending is None
        &&& match write {
            Some((d, v)) => after.registers@ == self.registers@.update(self.bp + d, v),
            None => after.registers@ == self.registers@,
        }
    }

    /// The frame jumped to position `p`.
    pub open spec fn jumped(&self, after: &Self, p: u16) -> bool {
        &&& after.ip == p
        &&& after.function == self.function && after.bp == self.bp && after.rp == self.rp
        &&& after.frames@ == self.frames@
        &&& after.running && after.pending is None
        &&& after.registers@ == self.registers@
    }

    /// The frame moved on and waits for the host's answer, which goes to `t`.
    pub open spec fn requested(&self, after: &Self, t: Target) -> bool {
        &&& after.ip == self.ip + 1
        &&& after.function == self.function && after.bp == self.bp && after.rp == self.rp
        &&& after.frames@ == self.frames@
        &&& after.running && after.pending == Some(t)
        &&& after.registers@ == self.registers@
    }

    /// The run stopped on a trap.
    pub open spec fn stopped(&self, after: &Self, r: Step) -> bool {
        r is Trap && !after.running && after.pending is None && after.registers@ == self.registers@
    }

    /// A call of function `index` on the registers `first..=last` can start.
    pub open spec fn can_enter(&self, index: int, first: u16, last: u16) -> bool {
        &&& first <= last
        &&& 0 <= index < self.environment.functions@.len()
        &&& self.bp + last < self.registers@.len()
        &&& self.rp + last - first + 1 <= MAX_REGISTERS
        &&& self.rp + frame_size(self.environment.functions@[index]) <= MAX_REGISTERS
    }

    /// `after` runs function `index` in a new frame starting at the old `rp`, with the
    /// arguments copied there and the caller saved, to resume at `ret_ip`.
    pub open spec fn entered(
        &self,
        after: &Self,
        index: int,
        first: u16,
        last: u16,
        dst: Option<u16>,
        ret_ip: int,
    ) -> bool {
        &&& after.frames@ == self.frames@.push(
            Frame { function: self.function, ip: ret_ip as usize, bp: self.bp, rp: self.rp, dst },
        )
        &&& after.bp == self.rp
        &&& after.rp == self.rp + frame_size(self.environment.functions@[index]) - 1
        &&& after.function == index && after.ip == 0
        &&& after.running && after.pending is None
        &&& after.registers@.len() >= self.registers@.len()
        &&& forall|i: int|
            0 <= i <= last - first ==> #[trigger] after.registers@[self.rp + i]
                == self.registers@[self.bp + first + i]
        &&& forall|j: int|
            0 <= j < self.registers@.len() && !(self.rp <= j <= self.rp + last - first)
                ==> #[trigger] after.registers@[j] == self.registers@[j]
        &&& forall|j: int|
            self.registers@.len() <= j < after.registers@.len() && !(self.rp <= j <= self.rp + last
                - first) ==> #[trigger] after.registers@[j] == Value(NULL_TAG)
    }

    /// What executing `ins` from this state does: the next state `after` and the outcome `r`.
    pub open spec fn executes(&self, after: &Self, ins: Instruction, r: Step) -> bool {
        let ops = ins.operands@;
        let op = ins.opcode;
        if op == OpCode::Move {
            if self.dst_ok(ops[0]) && self.read(ops[1]) is Some {
                r == Step::Continue && self.continued(
                    after,
                    Some((ops[0]->Register_0, self.read(ops[1])->0)),
                )
            } else {
                self.stopped(after, r)
            }
        } else if op == OpCode::Jmp {
            if ops[0] is Position {
                r == Step::Continue && self.jumped(after, ops[0]->Position_0)
            } else {
                self.stopped(after, r)
            }
        } else if op == OpCode::Jt || op == OpCode::Jf {
            if ops[0] is Position && self.read(ops[1]) is Some {
                let v = self.read(ops[1])->0;
                let taken = if op == OpCode::Jt {
                    v.spec_is_true()
                } else {
                    v.spec_is_false()
                };
                r == Step::Continue && if taken {
                    self.jumped(after, ops[0]->Position_0)
                } else {
                    self.continued(after, None)
                }
            } else {
                self.stopped(after, r)
            }
        } else if is_cond_jump(op) {
            if ops[0] is Position && self.read(ops[1]) is Some && self.read(ops[2]) is Some {
                let a = self.read(ops[1])->0;
                let b = self.read(ops[2])->0;
                if a.spec_is_int() && b.spec_is_int() {
                    r == Step::Continue && if compares(op, a.int_value() as int, b.int_value() as int) {
                        self.jumped(after, ops[0]->Position_0)
                    } else {
                        self.continued(after, None)
                    }
                } else if numeric(a) && numeric(b) {
                    r == Step::Compute(Request { opcode: op, lhs: a, rhs: b }) && self.requested(
                        after,
                        Target::Branch(ops[0]->Position_0),
                    )
                } else {
                    self.stopped(after, r)
                }
            } else {
                self.stopped(after, r)
            }
        } else if op == OpCode::Eq || op == OpCode::Ne {
            if self.dst_ok(ops[0]) && self.read(ops[1]) is Some {
                let a = self.read(ops[0])->0;
                let b = self.read(ops[1])->0;
                r == Step::Continue && self.continued(
                    after,
                    Some((ops[0]->Register_0, Value::of_bool(if op == OpCode::Eq {
                        a == b
                    } else {
                        a != b
                    }))),
                )
            } else {
                self.stopped(after, r)
            }
        } else if is_ordering(op) || is_arith(op) || op == OpCode::Not {
            if self.dst_ok(ops[0]) && (op == OpCode::Not || self.read(ops[1]) is Some) {
                let d = ops[0]->Register_0;
                let a = self.read(ops[0])->0;
                let b = if op == OpCode::Not {
                    Value(NULL_TAG)
                } else {
                    self.read(ops[1])->0
                };
                let request = Step::Compute(Request { opcode: op, lhs: a, rhs: b });
                if a.spec_is_int() && (op == OpCode::Not || b.spec_is_int()) {
                    if op == OpCode::Not {
                        r == Step::Continue && self.continued(
                            after,
                            Some((d, Value::of_int(!a.int_value()))),
                        )
                    } else if is_ordering(op) {
                        r == Step::Continue && self.continued(
                            after,
                            Some(
                                (
                                    d,
                                    Value::of_bool(
                                        compares(op, a.int_value() as int, b.int_value() as int),
                                    ),
                                ),
                            ),
                        )
                    } else {
                        match int_result(op, a.int_value(), b.int_value()) {
                            Some(v) => if fits_i32(v) {
                                r == Step::Continue && self.continued(
                                    after,
                                    Some((d, Value::of_int(v as i32))),
                                )
                            } else {
                                r == request && self.requested(after, Target::Register(d))
                            },
                            None => if op == OpCode::Shl && 32 < b.int_value() < 64 {
                                r == request && self.requested(after, Target::Register(d))
                            } else {
                                self.stopped(after, r)
                            },
                        }
                    }
                } else if numeric(a) && (op == OpCode::Not || numeric(b)) {
                    r == request && self.requested(after, Target::Register(d))
                } else {
                    self.stopped(after, r)
                }
            } else {
                self.stopped(after, r)
            }
        } else if op == OpCode::Write {
            if ops[0] == Operand::Empty {
                r == Step::Write(None) && self.continued(after, None)
            } else if self.read(ops[0]) is Some {
                r == Step::Write(Some(self.read(ops[0])->0)) && self.continued(after, None)
            } else {
                self.stopped(after, r)
            }
        } else if op == OpCode::Call {
            if ops[0] is Function && ops[1] is Register && ops[2] is Register && ops[3] is Register
                && self.can_enter(
                ops[0]->Function_0 as int,
                ops[2]->Register_0,
                ops[3]->Register_0,
            ) {
                r == Step::Continue && self.entered(
                    after,
                    ops[0]->Function_0 as int,
                    ops[2]->Register_0,
                    ops[3]->Register_0,
                    Some(ops[1]->Register_0),
                    self.ip + 1,
                )
            } else {
                self.stopped(after, r)
            }
        } else {
            // Ret
            if self.read(ops[0]) is Some {
                let v = self.read(ops[0])->0;
                let top = self.frames@.last();
                match top.dst {
                    None => {
                        &&& r == Step::Return(v)
                        &&& after.bp == top.bp && after.rp == top.rp
                        &&& after.frames@ == self.frames@.drop_last()
                        &&& !after.running && after.pending is None
                        &&& after.registers@ == self.registers@
                    },
                    Some(d) => if top.bp + d < self.registers@.len() {
                        &&& r == Step::Continue
                        &&& after.bp == top.bp && after.rp == top.rp
                        &&& after.frames@ == self.frames@.drop_last()
                        &&& after.function == top.function && after.ip == top.ip
                        &&& after.running && after.pending is None
                        &&& after.registers@ == self.registers@.update(top.bp + d, v)
                    } else {
                        self.stopped(after, r)
                    },
                }
            } else {
                self.stopped(after, r)
            }
        }
    }

    /// `after` runs in the same environment, with a register file that did not shrink.
    pub open spec fn keeps_environment(&self, after: &Self) -> bool {
        &&& after.environment == self.environment
        &&& after.registers@.len() >= self.registers@.len()
    }
}

impl<'a> Machina<'a> {
    /// The value an operand reads in the current frame.
    fn get(&self, op: Operand) -> (r: Option<Value>)
        requires
            self.wf(),
        ensures
            r == self.read(op),
    {
        match op {
            Operand::Register(reg) => {
                let i = self.bp + reg as usize;
                if i < self.registers.len() {
                    Some(self.registers[i])
                } else {
                    None
                }
            },
            Operand::Immediate(i) => Some(Value(INT_TAG | (i as u32) as u64)),
            Operand::Constant(c) => {
                if (c as usize) < self.environment.constants.len() {
                    self.environment.constants[c as usize]
                } else {
                    None
                }
            },
            Operand::Function(f) => Some(Value::function(f)),
            _ => Some(Value::null()),
        }
    }

    /// Writes register `reg` of the current frame.
    fn set(&mut self, reg: u16, value: Value)
        requires
            old(self).wf(),
            old(self).bp + reg < old(self).registers@.len(),
        ensures
            final(self).wf(),
            final(self).registers@ == old(self).registers@.update(old(self).bp + reg, value),
            final(self).bp == old(self).bp && final(self).rp == old(self).rp,
            final(self).frames == old(self).frames,
            final(self).function == old(self).function && final(self).ip == old(self).ip,
            final(self).running == old(self).running && final(self).pending == old(self).pending,
            final(self).environment == old(self).environment,
    {
        let i = self.bp + reg as usize;
        self.registers.set(i, value);
    }

    /// Stops the run on a trap.
    fn halt(&mut self, trap: Trap) -> (r: Step)
        requires
            old(self).wf(),
        ensures
            final(self).wf(),
            r == Step::Trap(trap),
            !final(self).running && final(self).pending is None,
            final(self).registers == old(self).registers,
            final(self).environment == old(self).environment,
    {
        self.running = false;
        self.pending = None;
        Step::Trap(trap)
    }

    /// Starts function `index` in a new frame at `rp`, copying registers
    /// `first..=last` of the current frame there as its arguments.
    fn enter(&mut self, index: usize, first: u16, last: u16, dst: Option<u16>) -> (r: Result<
        (),
        Trap,
    >)
        requires
            old(self).wf(),
            dst is Some ==> old(self).running,
            dst is None ==> old(self).frames@.len() == 0,
        ensures
            final(self).wf(),
            final(self).environment == old(self).environment,
            old(self).can_enter(index as int, first, last) ==> r is Ok && old(self).entered(
                final(self),
                index as int,
                first,
                last,
                dst,
                old(self).ip as int,
            ),
            !old(self).can_enter(index as int, first, last) ==> r is Err && final(self).registers
                == old(self).registers && final(self).running == old(self).running
                && final(self).pending == old(self).pending,
    {
        if first > last {
            return Err(Trap::InvalidRegisterRange);
        }
        if index >= self.environment.functions.len() {
            return Err(Trap::BadFunction);
        }
        if self.bp + last as usize >= self.registers.len() {
            return Err(Trap::BadRegister);
        }
        let count = (last - first) as usize + 1;
        let locals = self.environment.functions[index].locals as usize;
        let size = if locals == 0 {
            1
        } else {
            locals
        };
        if self.rp + count > MAX_REGISTERS || self.rp + size > MAX_REGISTERS {
            return Err(Trap::OutOfMemory);
        }
        let need = if count > size {
            count
        } else {
            size
        };
        let ghost old_regs = self.registers@;
        let mut args: Vec<Value> = Vec::new();
        let mut i: usize = 0;
        while i < count
            invariant
                i <= count,
                first <= last,
                count == last - first + 1,
                self.bp + last < self.registers@.len(),
                self.registers@.len() <= MAX_REGISTERS,
                self.registers@ == old_regs,
                args@.len() == i,
                forall|k: int| 0 <= k < i ==> #[trigger] args@[k] == old_regs[self.bp + first + k],
            decreases count - i,
        {
            args.push(self.registers[self.bp + first as usize + i]);
            i += 1;
        }
        self.resize_registers(self.rp + need);
        let ghost grown = self.registers@;
        let mut i: usize = 0;
        while i < count
            invariant
                i <= count,
                count == last - first + 1,
                self.wf(),
                self.rp + count <= self.registers@.len(),
                self.environment == old(self).environment,
                self.bp == old(self).bp && self.rp == old(self).rp,
                self.frames == old(self).frames,
                self.function == old(self).function && self.ip == old(self).ip,
                self.running == old(self).running && self.pending == old(self).pending,
                self.registers@.len() == grown.len(),
                grown.len() >= old_regs.len(),
                grown.subrange(0, old_regs.len() as int) == old_regs,
                forall|j: int|
                    old_regs.len() <= j < grown.len() ==> #[trigger] grown[j] == Value(NULL_TAG),
                args@.len() == count,
                first <= last,
                self.bp + last < old_regs.len(),
                forall|k: int| 0 <= k < count ==> #[trigger] args@[k] == old_regs[self.bp + first + k],
                forall|k: int| 0 <= k < i ==> #[trigger] self.registers@[self.rp + k] == args@[k],
                forall|j: int|
                    0 <= j < grown.len() && !(self.rp <= j < self.rp + i) ==> #[trigger] self.registers@[j]
                        == grown[j],
            decreases count - i,
        {
            self.registers.set(self.rp + i, args[i]);
            i += 1;
        }
        proof {
            assert forall|j: int|
                0 <= j < old_regs.len() && !(self.rp <= j <= self.rp + last - first) implies #[trigger] self.registers@[j]
                == old_regs[j] by {
                assert(grown[j] == grown.subrange(0, old_regs.len() as int)[j]);
            }
            assert forall|j: int|
                old_regs.len() <= j < self.registers@.len() && !(self.rp <= j <= self.rp + last
                    - first) implies #[trigger] self.registers@[j] == Value(NULL_TAG) by {
                assert(self.registers@[j] == grown[j]);
            }
        }
        self.frames.push(Frame { function: self.function, ip: self.ip, bp: self.bp, rp: self.rp, dst });
        self.bp = self.rp;
        self.rp = self.bp + size - 1;
        self.function = index;
        self.ip = 0;
        self.running = true;
        self.pending = None;
        proof {
            assert forall|i: int| 0 <= i < self.frames@.len() implies #[trigger] self.frames@[i].bp
                <= self.frames@[i].rp < self.registers@.len() by {
                if i < self.frames@.len() - 1 {
                    assert(self.frames@[i] == old(self).frames@[i]);
                    assert(old(self).frames@[i].bp <= old(self).frames@[i].rp < old(
                        self,
                    ).registers@.len());
                }
            }
            assert forall|i: int|
                0 <= i < self.frames@.len() && (#[trigger] self.frames@[i]).dst is Some implies self.frames@[i].function
                < self.environment.functions@.len() by {
                if i < self.frames@.len() - 1 {
                    assert(self.frames@[i] == old(self).frames@[i]);
                }
            }
            assert forall|i: int| 0 <= i < self.frames@.len() implies ((
            #[trigger] self.frames@[i]).dst is None <==> i == 0) by {
                if i < self.frames@.len() - 1 {
                    assert(self.frames@[i] == old(self).frames@[i]);
                }
            }
        }
        Ok(())
    }

    /// Starts a call of function `index` from the host, with registers
    /// `first..=last` as its arguments; frames left by an earlier run are dropped.
    /// `step` then runs it.
    pub fn call(&mut self, index: usize, first: u16, last: u16) -> (r: Result<(), Trap>)
        requires
            old(self).wf(),
        ensures
            final(self).wf(),
            final(self).environment == old(self).environment,
            final(self).registers@.len() >= old(self).registers@.len(),
            old(self).running ==> r == Err::<(), Trap>(Trap::Running),
            !old(self).running && old(self).can_enter(index as int, first, last) ==> {
                &&& r is Ok
                &&& final(self).frames@ == seq![
                    Frame {
                        function: old(self).function,
                        ip: old(self).ip,
                        bp: old(self).bp,
                        rp: old(self).rp,
                        dst: None,
                    },
                ]
                &&& final(self).bp == old(self).rp
                &&& final(self).rp == old(self).rp + frame_size(
                    old(self).environment.functions@[index as int],
                ) - 1
                &&& final(self).function == index && final(self).ip == 0
                &&& final(self).running && final(self).pending is None
                &&& forall|i: int|
                    0 <= i <= last - first ==> #[trigger] final(self).registers@[old(self).rp + i]
                        == old(self).registers@[old(self).bp + first + i]
                &&& forall|j: int|
                    old(self).registers@.len() <= j < final(self).registers@.len() && !(old(
                        self,
                    ).rp <= j <= old(self).rp + last - first) ==> #[trigger] final(self).registers@[j]
                        == Value(NULL_TAG)
            },
            !old(self).running && !old(self).can_enter(index as int, first, last) ==> r is Err
                && !final(self).running,
    {
        if self.running {
            return Err(Trap::Running);
        }
        self.frames = Vec::new();
        let r = self.enter(index, first, last, None);
        proof {
            if r is Ok {
                assert(self.frames@ =~= seq![
                    Frame {
                        function: old(self).function,
                        ip: old(self).ip,
                        bp: old(self).bp,
                        rp: old(self).rp,
                        dst: None,
                    },
                ]);
            }
        }
        r
    }
}

fn bool_value(b: bool) -> (r: Value)
    ensures
        r == Value::of_bool(b),
{
    if b {
        Value(TRUE_TAG)
    } else {
        Value(FALSE_TAG)
    }
}

fn int_value(i: i32) -> (r: Value)
    ensures
        r == Value::of_int(i),
{
    Value(INT_TAG | (i as u32) as u64)
}

fn compare(op: OpCode, a: i32, b: i32) -> (r: bool)
    ensures
        r == compares(op, a as int, b as int),
{
    match op {
        OpCode::Lt | OpCode::JLt => a < b,
        OpCode::Le | OpCode::JLe => a <= b,
        OpCode::Gt | OpCode::JGt => a > b,
        OpCode::Ge | OpCode::JGe => a >= b,
        OpCode::Eq | OpCode::JEq => a == b,
        _ => a != b,
    }
}

fn is_numeric(v: Value) -> (r: bool)
    ensures
        r == numeric(v),
{
    v.is_int() || v.is_num()
}

/// Why reading `op` failed.
fn read_trap(op: Operand) -> Trap {
    match op {
        Operand::Register(_) => Trap::BadRegister,
        _ => Trap::BadConstant,
    }
}

impl<'a> Machina<'a> {
    fn exec_move(&mut self, ins: Instruction) -> (r: Step)
        requires
            old(self).wf(),
            old(self).running && old(self).pending is None,
            old(self).ip < usize::MAX,
            ins.opcode == OpCode::Move,
        ensures
            final(self).wf(),
            old(self).keeps_environment(final(self)),
            old(self).executes(final(self), ins, r),
    {
        let d = match ins.operands[0] {
            Operand::Register(d) => d,
            _ => return self.halt(Trap::BadOperand),
        };
        if self.bp + d as usize >= self.registers.len() {
            return self.halt(Trap::BadRegister);
        }
        let value = self.get(ins.operands[1]);
        match value {
            Some(v) => {
                self.set(d, v);
                self.ip = self.ip + 1;
                assert(self.frames@ == old(self).frames@);
                Step::Continue
            },
            None => self.halt(read_trap(ins.operands[1])),
        }
    }

    fn exec_jump(&mut self, ins: Instruction) -> (r: Step)
        requires
            old(self).wf(),
            old(self).running && old(self).pending is None,
            old(self).ip < usize::MAX,
            ins.opcode == OpCode::Jmp || ins.opcode == OpCode::Jt || ins.opcode == OpCode::Jf,
        ensures
            final(self).wf(),
            old(self).keeps_environment(final(self)),
            old(self).executes(final(self), ins, r),
    {
        let p = match ins.operands[0] {
            Operand::Position(p) => p,
            _ => return self.halt(Trap::BadOperand),
        };
        if ins.opcode == OpCode::Jmp {
            self.ip = p as usize;
            return Step::Continue;
        }
        match self.get(ins.operands[1]) {
            Some(v) => {
                let taken = if ins.opcode == OpCode::Jt {
                    v.is_true()
                } else {
                    v.is_false()
                };
                if taken {
                    self.ip = p as usize;
                } else {
                    self.ip = self.ip + 1;
                }
                Step::Continue
            },
            None => self.halt(read_trap(ins.operands[1])),
        }
    }

    fn exec_cond_jump(&mut self, ins: Instruction) -> (r: Step)
        requires
            old(self).wf(),
            old(self).running && old(self).pending is None,
            old(self).ip < usize::MAX,
            is_cond_jump(ins.opcode),
        ensures
            final(self).wf(),
            old(self).keeps_environment(final(self)),
            old(self).executes(final(self), ins, r),
    {
        let p = match ins.operands[0] {
            Operand::Position(p) => p,
            _ => return self.halt(Trap::BadOperand),
        };
        let a = match self.get(ins.operands[1]) {
            Some(v) => v,
            None => return self.halt(read_trap(ins.operands[1])),
        };
        let b = match self.get(ins.operands[2]) {
            Some(v) => v,
            None => return self.halt(read_trap(ins.operands[2])),
        };
        if a.is_int() && b.is_int() {
            if compare(ins.opcode, a.get_int_unchecked(), b.get_int_unchecked()) {
                self.ip = p as usize;
            } else {
                self.ip = self.ip + 1;
            }
            Step::Continue
        } else if is_numeric(a) && is_numeric(b) {
            self.ip = self.ip + 1;
            self.pending = Some(Target::Branch(p));
            Step::Compute(Request { opcode: ins.opcode, lhs: a, rhs: b })
        } else {
            self.halt(Trap::NotANumber)
        }
    }

    fn exec_equality(&mut self, ins: Instruction) -> (r: Step)
        requires
            old(self).wf(),
            old(self).running && old(self).pending is None,
            old(self).ip < usize::MAX,
            ins.opcode == OpCode::Eq || ins.opcode == OpCode::Ne,
        ensures
            final(self).wf(),
            old(self).keeps_environment(final(self)),
            old(self).executes(final(self), ins, r),
    {
        let d = match ins.operands[0] {
            Operand::Register(d) => d,
            _ => return self.halt(Trap::BadOperand),
        };
        if self.bp + d as usize >= self.registers.len() {
            return self.halt(Trap::BadRegister);
        }
        let a = self.registers[self.bp + d as usize];
        let b = match self.get(ins.operands[1]) {
            Some(v) => v,
            None => return self.halt(read_trap(ins.operands[1])),
        };
        let same = a == b;
        let result = if ins.opcode == OpCode::Eq {
            same
        } else {
            !same
        };
        self.set(d, bool_value(result));
        self.ip = self.ip + 1;
        Step::Continue
    }

    fn exec_value_op(&mut self, ins: Instruction) -> (r: Step)
        requires
            old(self).wf(),
            old(self).running && old(self).pending is None,
            old(self).ip < usize::MAX,
            is_ordering(ins.opcode) || is_arith(ins.opcode) || ins.opcode == OpCode::Not,
        ensures
            final(self).wf(),
            old(self).keeps_environment(final(self)),
            old(self).executes(final(self), ins, r),
    {
        let op = ins.opcode;
        let d = match ins.operands[0] {
            Operand::Register(d) => d,
            _ => return self.halt(Trap::BadOperand),
        };
        if self.bp + d as usize >= self.registers.len() {
            return self.halt(Trap::BadRegister);
        }
        let a = self.registers[self.bp + d as usize];
        let unary = op == OpCode::Not;
        let b = if unary {
            Value::null()
        } else {
            match self.get(ins.operands[1]) {
                Some(v) => v,
                None => return self.halt(read_trap(ins.operands[1])),
            }
        };
        if a.is_int() && (unary || b.is_int()) {
            let x = a.get_int_unchecked();
            let y = b.get_int_unchecked();
            if unary {
                self.set(d, int_value(!x));
                self.ip = self.ip + 1;
                return Step::Continue;
            }
            if is_ordering_exec(op) {
                self.set(d, bool_value(compare(op, x, y)));
                self.ip = self.ip + 1;
                return Step::Continue;
            }
            match int_op(op, x, y) {
                Some(v) => {
                    if i32::MIN as i64 <= v && v <= i32::MAX as i64 {
                        self.set(d, int_value(v as i32));
                        self.ip = self.ip + 1;
                        Step::Continue
                    } else {
                        self.ip = self.ip + 1;
                        self.pending = Some(Target::Register(d));
                        Step::Compute(Request { opcode: op, lhs: a, rhs: b })
                    }
                },
                None => {
                    if op == OpCode::Shl && 32 < y && y < 64 {
                        self.ip = self.ip + 1;
                        self.pending = Some(Target::Register(d));
                        Step::Compute(Request { opcode: op, lhs: a, rhs: b })
                    } else if op == OpCode::Div || op == OpCode::Mod {
                        self.halt(Trap::DivisionByZero)
                    } else {
                        self.halt(Trap::BadShift)
                    }
                },
            }
        } else if is_numeric(a) && (unary || is_numeric(b)) {
            self.ip = self.ip + 1;
            self.pending = Some(Target::Register(d));
            Step::Compute(Request { opcode: op, lhs: a, rhs: b })
        } else {
            self.halt(Trap::NotANumber)
        }
    }

    fn exec_write(&mut self, ins: Instruction) -> (r: Step)
        requires
            old(self).wf(),
            old(self).running && old(self).pending is None,
            old(self).ip < usize::MAX,
            ins.opcode == OpCode::Write,
        ensures
            final(self).wf(),
            old(self).keeps_environment(final(self)),
            old(self).executes(final(self), ins, r),
    {
        if ins.operands[0] == Operand::Empty {
            self.ip = self.ip + 1;
            return Step::Write(None);
        }
        match self.get(ins.operands[0]) {
            Some(v) => {
                self.ip = self.ip + 1;
                Step::Write(Some(v))
            },
            None => self.halt(read_trap(ins.operands[0])),
        }
    }

    fn exec_call(&mut self, ins: Instruction) -> (r: Step)
        requires
            old(self).wf(),
            old(self).running && old(self).pending is None,
            old(self).ip < usize::MAX,
            ins.opcode == OpCode::Call,
        ensures
            final(self).wf(),
            old(self).keeps_environment(final(self)),
            old(self).executes(final(self), ins, r),
    {
        let (f, d, first, last) = match (
            ins.operands[0],
            ins.operands[1],
            ins.operands[2],
            ins.operands[3],
        ) {
            (
                Operand::Function(f),
                Operand::Register(d),
                Operand::Register(first),
                Operand::Register(last),
            ) => (f, d, first, last),
            _ => return self.halt(Trap::BadOperand),
        };
        self.ip = self.ip + 1;
        match self.enter(f as usize, first, last, Some(d)) {
            Ok(()) => Step::Continue,
            Err(t) => self.halt(t),
        }
    }

    fn exec_ret(&mut self, ins: Instruction) -> (r: Step)
        requires
            old(self).wf(),
            old(self).running && old(self).pending is None,
            ins.opcode == OpCode::Ret,
        ensures
            final(self).wf(),
            old(self).keeps_environment(final(self)),
            old(self).executes(final(self), ins, r),
    {
        let v = match self.get(ins.operands[0]) {
            Some(v) => v,
            None => return self.halt(read_trap(ins.operands[0])),
        };
        let n = self.frames.len();
        let top = self.frames[n - 1];
        match top.dst {
            None => {
                self.frames.pop();
                self.bp = top.bp;
                self.rp = top.rp;
                self.running = false;
                proof {
                    assert(self.frames@ =~= old(self).frames@.drop_last());
                }
                Step::Return(v)
            },
            Some(d) => {
                if top.bp + d as usize >= self.registers.len() {
                    return self.halt(Trap::BadRegister);
                }
                self.frames.pop();
                self.bp = top.bp;
                self.rp = top.rp;
                self.function = top.function;
                self.ip = top.ip;
                proof {
                    assert(self.frames@ =~= old(self).frames@.drop_last());
                    assert(old(self).frames@[0].dst is None);
                    assert(n > 1);
                }
                self.set(d, v);
                Step::Continue
            },
        }
    }

    /// Executes the instruction at `ip` of the running function.
    pub fn step(&mut self) -> (r: Step)
        requires
            old(self).wf(),
        ensures
            final(self).wf(),
            old(self).keeps_environment(final(self)),
            !old(self).running ==> r == Step::Trap(Trap::NotRunning) && final(self).registers
                == old(self).registers && !final(self).running,
            old(self).pending is Some ==> r == Step::Trap(Trap::Pending) && final(self).registers
                == old(self).registers && final(self).pending == old(self).pending,
            old(self).running && old(self).pending is None && old(self).current() is None ==> r
                == Step::Trap(Trap::BadPosition) && !final(self).running,
            old(self).pending is None ==> (old(self).current() matches Some(ins) ==> old(
                self,
            ).executes(final(self), ins, r)),
    {
        if !self.running {
            return Step::Trap(Trap::NotRunning);
        }
        if self.pending.is_some() {
            return Step::Trap(Trap::Pending);
        }
        let env = self.environment;
        let function = &env.functions[self.function];
        if self.ip >= function.instructions.len() {
            return self.halt(Trap::BadPosition);
        }
        let ins = function.instructions[self.ip];
        let op = ins.opcode;
        if op == OpCode::Move {
            self.exec_move(ins)
        } else if op == OpCode::Jmp || op == OpCode::Jt || op == OpCode::Jf {
            self.exec_jump(ins)
        } else if is_cond_jump_exec(op) {
            self.exec_cond_jump(ins)
        } else if op == OpCode::Eq || op == OpCode::Ne {
            self.exec_equality(ins)
        } else if op == OpCode::Write {
            self.exec_write(ins)
        } else if op == OpCode::Call {
            self.exec_call(ins)
        } else if op == OpCode::Ret {
            self.exec_ret(ins)
        } else {
            self.exec_value_op(ins)
        }
    }

    /// Hands the host's answer to the outstanding request: it is written to the
    /// target register, or, for a branch, the jump is taken when it is true.
    pub fn resume(&mut self, value: Value) -> (r: Result<(), Trap>)
        requires
            old(self).wf(),
        ensures
            final(self).wf(),
            old(self).keeps_environment(final(self)),
            match old(self).pending {
                None => r == Err::<(), Trap>(Trap::NothingPending) && final(self).registers
                    == old(self).registers && final(self).running == old(self).running,
                Some(Target::Register(d)) => if old(self).bp + d < old(self).registers@.len() {
                    &&& r is Ok
                    &&& final(self).registers@ == old(self).registers@.update(old(self).bp + d, value)
                    &&& final(self).ip == old(self).ip && final(self).function == old(self).function
                    &&& final(self).bp == old(self).bp && final(self).rp == old(self).rp
                    &&& final(self).frames == old(self).frames
                    &&& final(self).running && final(self).pending is None
                } else {
                    r == Err::<(), Trap>(Trap::BadRegister) && !final(self).running
                },
                Some(Target::Branch(p)) => {
                    &&& r is Ok
                    &&& final(self).registers == old(self).registers
                    &&& final(self).ip == if value.spec_is_true() {
                        p as usize
                    } else {
                        old(self).ip
                    }
                    &&& final(self).function == old(self).function
                    &&& final(self).bp == old(self).bp && final(self).rp == old(self).rp
                    &&& final(self).frames == old(self).frames
                    &&& final(self).running && final(self).pending is None
                },
            },
    {
        match self.pending {
            None => Err(Trap::NothingPending),
            Some(Target::Register(d)) => {
                if self.bp + d as usize >= self.registers.len() {
                    let _ = self.halt(Trap::BadRegister);
                    return Err(Trap::BadRegister);
                }
                self.set(d, value);
                self.pending = None;
                Ok(())
            },
            Some(Target::Branch(p)) => {
                if value.is_true() {
                    self.ip = p as usize;
                }
                self.pending = None;
                Ok(())
            },
        }
    }
}

fn is_ordering_exec(op: OpCode) -> (r: bool)
    ensures
        r == is_ordering(op),
{
    op == OpCode::Lt || op == OpCode::Le || op == OpCode::Gt || op == OpCode::Ge
}

fn is_cond_jump_exec(op: OpCode) -> (r: bool)
    ensures
        r == is_cond_jump(op),
{
    op == OpCode::JLt || op == OpCode::JLe || op == OpCode::JGt || op == OpCode::JGe || op
        == OpCode::JEq || op == OpCode::JNe
}

/// The integer result of an arithmetic opcode, computed exactly.
fn int_op(op: OpCode, a: i32, b: i32) -> (r: Option<i64>)
    requires
        is_arith(op),
    ensures
        match int_result(op, a, b) {
            Some(v) => r == Some(v as i64) && v == r->0 as int,
            None => r is None,
        },
{
    let x = a as i64;
    let y = b as i64;
    match op {
        OpCode::Add => Some(x + y),
        OpCode::Sub => Some(x - y),
        OpCode::Mul => {
            assert(-0x8000_0000 <= x <= 0x7fff_ffff && -0x8000_0000 <= y <= 0x7fff_ffff ==> -0x4000_0000_0000_0000 <= x * y <= 0x4000_0000_0000_0000) by (nonlinear_arith);
            Some(x * y)
        },
        OpCode::Div | OpCode::Mod => {
            if y == 0 {
                return None;
            }
            let ux = if x < 0 { -x } else { x };
            let uy = if y < 0 { -y } else { y };
            let q = ux / uy;
            assert(0 <= q <= ux) by (nonlinear_arith)
                requires ux >= 0, uy >= 1, q == ux / uy;
            let d = if (x >= 0) == (y > 0) || x == 0 { q } else { -q };
            if op == OpCode::Div {
                Some(d)
            } else {
                assert(-0x4000_0000_0000_0000 <= y * d <= 0x4000_0000_0000_0000) by (nonlinear_arith)
                    requires -0x8000_0000 <= y <= 0x7fff_ffff, -0x8000_0000 <= d <= 0x8000_0000;
                Some(x - y * d)
            }
        },
        OpCode::And => Some((a & b) as i64),
        OpCode::Or => Some((a | b) as i64),
        OpCode::Xor => Some((a ^ b) as i64),
        OpCode::Shl => {
            if b < 0 || b > 32 {
                return None;
            }
            let mut p: i64 = 1;
            let mut k: i32 = 0;
            proof {
                lemma2_to64();
            }
            while k < b
                invariant
                    0 <= k <= b <= 32,
                    p as int == pow2(k as nat),
                    p <= 0x1_0000_0000,
                decreases b - k,
            {
                proof {
                    lemma_pow2_unfold((k + 1) as nat);
                    lemma2_to64();
                    if k + 1 <= 32 {
                        assert(pow2((k + 1) as nat) <= 0x1_0000_0000) by {
                            lemma_pow2_mono((k + 1) as nat, 32);
                        }
                    }
                }
                p = p * 2;
                k += 1;
            }
            assert(-0x8000_0000 <= x <= 0x7fff_ffff && 1 <= p <= 0x1_0000_0000 ==> -0x8000_0000_0000_0000 <= x * p <= 0x7fff_ffff_0000_0000) by (nonlinear_arith);
            proof {
                vstd::arithmetic::power2::lemma_pow2_pos(b as nat);
            }
            Some(x * p)
        },
        _ => {
            if b < 0 || b >= 64 {
                return None;
            }
            let n: u32 = if b < 32 { b as u32 } else { 31 };
            Some((a >> n) as i64)
        },
    }
}

proof fn lemma_pow2_mono(a: nat, b: nat)
    requires
        a <= b,
    ensures
        pow2(a) <= pow2(b),
    decreases b - a,
{
    if a < b {
        lemma_pow2_mono(a, (b - 1) as nat);
        lemma_pow2_unfold(b);
    }
}


/// A call, and the return that comes back to the caller's frame: whatever ran in
/// between, the caller's window `bp`/`rp`, its saved frames and its function come
/// back as before the call, and execution goes on after the call.
pub proof fn lemma_return_restores_caller<'a>(
    before_call: Machina<'a>,
    after_call: Machina<'a>,
    call: Instruction,
    call_step: Step,
    before_ret: Machina<'a>,
    after_ret: Machina<'a>,
    ret: Instruction,
    ret_step: Step,
)
    requires
        call.opcode == OpCode::Call,
        before_call.ip < usize::MAX,
        before_call.executes(&after_call, call, call_step),
        call_step == Step::Continue,
        before_ret.frames@ == after_call.frames@,
        ret.opcode == OpCode::Ret,
        before_ret.executes(&after_ret, ret, ret_step),
        ret_step == Step::Continue,
    ensures
        after_ret.bp == before_call.bp,
        after_ret.rp == before_call.rp,
        after_ret.frames@ == before_call.frames@,
        after_ret.function == before_call.function,
        after_ret.ip == before_call.ip + 1,
{
    assert(before_ret.frames@.last() == after_call.frames@.last());
    assert(after_call.frames@.drop_last() =~= before_call.frames@);
}

/// On integers `x` and `y`, `EQ` writes true exactly when `x == y`, and `NE`
/// exactly when they differ: equal sources compare equal, different ones do not.
pub proof fn lemma_equality_on_integers<'a>(
    m: Machina<'a>,
    after: Machina<'a>,
    ins: Instruction,
    r: Step,
    x: i32,
    y: i32,
)
    requires
        ins.opcode == OpCode::Eq || ins.opcode == OpCode::Ne,
        m.dst_ok(ins.operands@[0]),
        m.read(ins.operands@[0]) == Some(Value::of_int(x)),
        m.read(ins.operands@[1]) == Some(Value::of_int(y)),
        m.executes(&after, ins, r),
    ensures
        r == Step::Continue,
        after.registers@[m.bp + ins.operands@[0]->Register_0] == Value::of_bool(
            if ins.opcode == OpCode::Eq {
                x == y
            } else {
                x != y
            },
        ),
{
    lemma_int_encoding_injective(x, y);
}

} // verus!
