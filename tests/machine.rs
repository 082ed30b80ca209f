use machina::bytecode::{Constant, OpCode};
use machina::machina::{Environment, Machina, Request, Step, Trap};
use machina::parser::Parser;
use machina::value::Value;

fn environment(source: &str) -> Environment {
    let module = Parser::new(source).parse().expect("assembles");
    let constants = module
        .constants
        .iter()
        .map(|c| match c {
            Constant::Number(text) => Some(Value::raw(text.parse::<f64>().unwrap().to_bits())),
            Constant::String(_) => None,
        })
        .collect();
    Environment { functions: module.functions, constants }
}

fn as_f64(v: Value) -> f64 {
    if v.is_num() {
        f64::from_bits(v.get_raw())
    } else {
        v.get_int() as f64
    }
}

fn as_i64(v: Value) -> i64 {
    if v.is_int() {
        v.get_int() as i64
    } else {
        f64::from_bits(v.get_raw()) as i64
    }
}

fn from_i64(i: i64) -> Value {
    if i >= i32::MIN as i64 && i <= i32::MAX as i64 {
        Value::from(i as i32)
    } else {
        Value::raw((i as f64).to_bits())
    }
}

fn host(req: Request) -> Value {
    let (a, b) = (req.lhs, req.rhs);
    let double = a.is_num() || b.is_num();
    match req.opcode {
        OpCode::Add | OpCode::Sub | OpCode::Mul | OpCode::Div if double => {
            let (x, y) = (as_f64(a), as_f64(b));
            let r = match req.opcode {
                OpCode::Add => x + y,
                OpCode::Sub => x - y,
                OpCode::Mul => x * y,
                _ => x / y,
            };
            Value::raw(r.to_bits())
        }
        OpCode::Not => from_i64(!as_i64(a)),
        op => {
            let (x, y) = (as_i64(a), as_i64(b));
            match op {
                OpCode::Add => from_i64(x + y),
                OpCode::Sub => from_i64(x - y),
                OpCode::Mul => from_i64(x * y),
                OpCode::Div => from_i64(x / y),
                OpCode::Mod => from_i64(x % y),
                OpCode::And => from_i64(x & y),
                OpCode::Or => from_i64(x | y),
                OpCode::Xor => from_i64(x ^ y),
                OpCode::Shl => from_i64(x.wrapping_shl(y as u32)),
                OpCode::Shr => from_i64(x >> y),
                OpCode::Lt | OpCode::JLt => Value::from(x < y),
                OpCode::Le | OpCode::JLe => Value::from(x <= y),
                OpCode::Gt | OpCode::JGt => Value::from(x > y),
                OpCode::Ge | OpCode::JGe => Value::from(x >= y),
                OpCode::JEq => Value::from(x == y),
                _ => Value::from(x != y),
            }
        }
    }
}

/// Runs function `index` with `%0` set to `arg`; returns the result and what was written.
fn run(env: &Environment, index: usize, arg: Option<i32>) -> (Result<Value, Trap>, Vec<Option<Value>>) {
    let mut machine = Machina::new(env);
    if let Some(a) = arg {
        machine.registers[0] = Value::from(a);
    }
    let mut written = vec![];
    if let Err(t) = machine.call(index, 0, 0) {
        return (Err(t), written);
    }
    loop {
        match machine.step() {
            Step::Continue => {}
            Step::Write(v) => written.push(v),
            Step::Compute(req) => machine.resume(host(req)).unwrap(),
            Step::Return(v) => return (Ok(v), written),
            Step::Trap(t) => return (Err(t), written),
        }
    }
}

fn run_source(source: &str) -> Value {
    let env = environment(source);
    run(&env, 0, None).0.expect("returns")
}

const FIB: &str = "@entry
  MOVE %0, 35
  CALL @fib, %0, %0, %0
  WRITE %0
  RET %0

@fib
  JLE .done, %0, 1
  MOVE %1, %0
  SUB  %1, 1
  CALL @fib, %1, %1, %1
  MOVE %2, %0
  SUB  %2, 2
  CALL @fib, %2, %2, %2
  ADD  %1, %2
  MOVE %0, %1
.done
  RET %0
";

#[test]
fn arithmetic_scenario() {
    let v = run_source("@main\n  MOVE %0, 2\n  MOVE %1, 3\n  ADD %0, %1\n  RET %0\n");
    assert!(v.is_int());
    assert_eq!(v.get_int(), 5);
}

// Integers are not truthy: only the boolean true takes `JT`.
#[test]
fn branch_scenario() {
    let v = run_source("@main\n  MOVE %0, 1\n  JT .end, %0\n  MOVE %0, 99\n.end\n  RET %0\n");
    assert_eq!(v, Value::from(99));
}

#[test]
fn branch_taken_on_true() {
    let v = run_source("@main\n  MOVE %0, 1\n  EQ %0, 1\n  JT .end, %0\n  MOVE %0, 99\n.end\n  RET %0\n");
    assert_eq!(v, Value::from(true));
    let v = run_source("@main\n  MOVE %0, 1\n  NE %0, 1\n  JF .end, %0\n  MOVE %0, 99\n.end\n  RET %0\n");
    assert_eq!(v, Value::from(false));
}

#[test]
fn fibonacci_scenario() {
    let env = environment(FIB);
    let (result, written) = run(&env, 1, Some(10));
    assert_eq!(result, Ok(Value::from(55)));
    assert!(written.is_empty());
}

#[test]
fn numeric_promotion_scenario() {
    let v = run_source("@main\n  MOVE %0, 1\n  MOVE %1, 2.5\n  ADD %0, %1\n  RET %0\n");
    assert!(v.is_num());
    assert_eq!(f64::from_bits(v.get_raw()), 3.5);
}

#[test]
fn empty_trailing_block_runs_past_the_end() {
    let env = environment("@main\n  MOVE %0, 1\n  JMP .end\n.end\n");
    let (result, _) = run(&env, 0, None);
    assert_eq!(result, Err(Trap::BadPosition));
}

#[test]
fn integer_operations() {
    let cases: [(&str, i32); 10] = [
        ("MOVE %0, 7\n  MOD %0, 3", 1),
        ("MOVE %0, -7\n  DIV %0, 2", -3),
        ("MOVE %0, -7\n  MOD %0, 2", -1),
        ("MOVE %0, 12\n  AND %0, 10", 8),
        ("MOVE %0, 12\n  OR %0, 3", 15),
        ("MOVE %0, 12\n  XOR %0, 10", 6),
        ("MOVE %0, 1\n  SHL %0, 4", 16),
        ("MOVE %0, -16\n  SHR %0, 2", -4),
        ("MOVE %0, 5\n  NOT %0", -6),
        ("MOVE %0, 6\n  MUL %0, -7", -42),
    ];
    for (body, expected) in cases.iter() {
        let v = run_source(&format!("@main\n  {}\n  RET %0\n", body));
        assert_eq!(v, Value::from(*expected), "{}", body);
    }
}

#[test]
fn comparisons_and_conditional_jumps() {
    let v = run_source("@main\n  MOVE %0, 3\n  LT %0, 4\n  RET %0\n");
    assert_eq!(v, Value::from(true));
    let v = run_source("@main\n  MOVE %0, 3\n  MOVE %1, 0\n  JGE .big, %0, 3\n  RET %1\n.big\n  MOVE %1, 1\n  RET %1\n");
    assert_eq!(v, Value::from(1));
    let v = run_source("@main\n  MOVE %0, 2.5\n  MOVE %1, 0\n  JEQ .two, %0, 2\n  RET %1\n.two\n  MOVE %1, 1\n  RET %1\n");
    assert_eq!(v, Value::from(1));
}

#[test]
fn overflowing_integer_result_becomes_a_double() {
    let v = run_source("@main\n  MOVE %0, 2147483647\n  ADD %0, 1\n  RET %0\n");
    assert!(v.is_num());
    assert_eq!(f64::from_bits(v.get_raw()), 2147483648.0);
}

#[test]
fn traps() {
    let env = environment("@main\n  MOVE %0, 1\n  DIV %0, 0\n  RET %0\n");
    assert_eq!(run(&env, 0, None).0, Err(Trap::DivisionByZero));
    let env = environment("@main\n  MOVE %0, \"s\"\n  RET %0\n");
    assert_eq!(run(&env, 0, None).0, Err(Trap::BadConstant));
    let env = environment("@main\n  CALL @main, %0, %1, %0\n  RET %0\n");
    assert_eq!(run(&env, 0, None).0, Err(Trap::InvalidRegisterRange));
    let env = environment("@main\n  RET %0\n");
    assert_eq!(run(&env, 3, None).0, Err(Trap::BadFunction));
}

#[test]
fn write_hands_values_to_the_host() {
    let env = environment("@main\n  MOVE %0, 4\n  WRITE %0\n  WRITE\n  RET\n");
    let (result, written) = run(&env, 0, None);
    assert_eq!(result, Ok(Value::null()));
    assert_eq!(written, vec![Some(Value::from(4)), None]);
}

#[test]
fn return_restores_the_callers_window() {
    let env = environment("@main\n  MOVE %0, 5\n  MOVE %1, 6\n  CALL @id, %2, %0, %1\n  RET %2\n@id\n  ADD %0, %1\n  RET %0\n");
    let mut machine = Machina::new(&env);
    machine.call(0, 0, 0).unwrap();
    let (bp, rp) = (machine.bp, machine.rp);
    let mut depth_seen = 0;
    let result = loop {
        match machine.step() {
            Step::Return(v) => break v,
            Step::Continue => {
                depth_seen = depth_seen.max(machine.frames.len());
                assert!(machine.bp <= machine.rp && machine.rp < machine.registers.len());
            }
            other => panic!("{:?}", other),
        }
    };
    assert_eq!(result, Value::from(11));
    assert_eq!(depth_seen, 2);
    assert_eq!(machine.bp, 0);
    assert_eq!(machine.rp, 0);
    assert!(bp == 0 && rp == 2);
}

#[test]
fn register_file_grows_and_stabilizes() {
    let env = environment(FIB);
    let mut machine = Machina::new(&env);
    machine.registers[0] = Value::from(15);
    machine.call(1, 0, 0).unwrap();
    let mut sizes = vec![];
    let result = loop {
        let before = machine.registers.len();
        match machine.step() {
            Step::Return(v) => break v,
            Step::Continue => {}
            other => panic!("{:?}", other),
        }
        assert!(machine.registers.len() >= before);
        sizes.push(machine.registers.len());
    };
    assert_eq!(result, Value::from(610));
    let last = *sizes.last().unwrap();
    assert!(last > 16);
    let half = sizes.len() / 2;
    assert!(sizes[half..].iter().all(|s| *s == last));
}
