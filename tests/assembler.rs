use machina::bytecode::{Constant, OpCode, Operand};
use machina::error::MachinaError;
use machina::parser::Parser;

fn first_error(source: &str) -> (MachinaError, Option<usize>) {
    let diagnostics = Parser::new(source).parse().expect_err("should not assemble");
    let (error, meta) = diagnostics.errors[0].clone();
    (error, meta.map(|m| m.line))
}

#[test]
fn constant_pool_for_a_fraction() {
    let module = Parser::new("@main\n  MOVE %0, 3.14\n  RET %0\n").parse().unwrap();
    assert_eq!(module.constants, vec![Constant::Number("3.14".to_string())]);
    assert_eq!(module.functions[0].instructions[0].opcode, OpCode::Move);
    assert_eq!(
        module.functions[0].instructions[0].operands,
        [Operand::Register(0), Operand::Constant(0), Operand::Empty, Operand::Empty]
    );
}

#[test]
fn immediate_for_a_small_integer() {
    let module = Parser::new("@main\n  MOVE %0, 2\n  RET %0\n").parse().unwrap();
    assert!(module.constants.is_empty());
    assert_eq!(
        module.functions[0].instructions[0].operands,
        [Operand::Register(0), Operand::Immediate(2), Operand::Empty, Operand::Empty]
    );
}

#[test]
fn integer_literal_boundaries() {
    let source = "@main\n  MOVE %0, 2147483647\n  MOVE %0, -2147483647\n  MOVE %0, 2147483648\n  MOVE %0, -2147483649\n  MOVE %0, 12.000\n  RET %0\n";
    let module = Parser::new(source).parse().unwrap();
    let ins = &module.functions[0].instructions;
    assert_eq!(ins[0].operands[1], Operand::Immediate(2147483647));
    assert_eq!(ins[1].operands[1], Operand::Immediate(-2147483647));
    assert_eq!(ins[2].operands[1], Operand::Constant(0));
    assert_eq!(ins[3].operands[1], Operand::Constant(1));
    assert_eq!(ins[4].operands[1], Operand::Immediate(12));
    assert_eq!(
        module.constants,
        vec![
            Constant::Number("2147483648".to_string()),
            Constant::Number("-2147483649".to_string())
        ]
    );
}

#[test]
fn unknown_label_is_reported() {
    let (error, line) = first_error("@main\n  JMP .unknown\n  RET\n");
    assert_eq!(error, MachinaError::TargetNotFound("unknown".to_string()));
    assert_eq!(line, Some(1));
}

#[test]
fn unknown_function_and_bad_register() {
    let (error, _) = first_error("@main\n  CALL @nowhere, %0, %0, %0\n  RET %0\n");
    assert_eq!(error, MachinaError::FunctionNotFound("nowhere".to_string()));
    let (error, _) = first_error("@main\n  MOVE %x, 1\n  RET %0\n");
    assert_eq!(error, MachinaError::InvalidRegister("x".to_string()));
}

#[test]
fn function_without_blocks_is_an_error() {
    let (error, _) = first_error("@empty\n@main\n  RET\n");
    assert!(matches!(error, MachinaError::Expected(_, _)));
}

#[test]
fn wrong_operand_kind_is_expected_error() {
    let (error, line) = first_error("@main\n  JMP %0\n  RET\n");
    assert_eq!(
        error,
        MachinaError::Expected("`label`".to_string(), "register".to_string())
    );
    assert_eq!(line, Some(2));
    assert_eq!(error.message(), "Expected `label`, but found register");
}

#[test]
fn errors_in_several_functions_are_collected() {
    let diagnostics = Parser::new("@a\n  FOO\n@b\n  MOVE 1, 1\n@c\n  RET\n")
        .parse()
        .expect_err("two errors");
    assert_eq!(diagnostics.len(), 2);
    assert_eq!(
        diagnostics.errors[0].0,
        MachinaError::InvalidInstruction("FOO".to_string())
    );
    assert!(matches!(diagnostics.errors[1].0, MachinaError::Expected(_, _)));
}

#[test]
fn labels_resolve_to_positions_and_locals_count_registers() {
    let source = "@main\n  MOVE %0, 1\n  JT .end, %0\n  MOVE %3, 99\n.end\n  RET %0\n";
    let module = Parser::new(source).parse().unwrap();
    let f = &module.functions[0];
    assert_eq!(f.instructions.len(), 4);
    assert_eq!(f.instructions[1].operands[0], Operand::Position(3));
    assert_eq!(f.locals, 4);
}

#[test]
fn strings_go_to_the_pool_and_functions_to_indices() {
    let source = "@main\n  MOVE %0, \"hi\"\n  CALL @other, %1, %0, %0\n  RET %1\n@other\n  RET %0\n";
    let module = Parser::new(source).parse().unwrap();
    assert_eq!(module.constants, vec![Constant::String("hi".to_string())]);
    assert_eq!(
        module.functions[0].instructions[1].operands,
        [
            Operand::Function(1),
            Operand::Register(1),
            Operand::Register(0),
            Operand::Register(0)
        ]
    );
}

#[test]
fn error_messages() {
    assert_eq!(MachinaError::UnterminatedString.message(), "Unterminated string");
    assert_eq!(
        MachinaError::InvalidRegister("7x".to_string()).message(),
        "Invalid register `%7x`"
    );
    assert_eq!(MachinaError::InvalidCharacter('#').message(), "Invalid character `#`");
}

fn write_back(module: &machina::bytecode::Module, names: &[&str]) -> String {
    let mut text = String::new();
    for (f, function) in module.functions.iter().enumerate() {
        text.push_str(&format!("@{}\n", names[f]));
        let mut targets = vec![];
        for ins in function.instructions.iter() {
            for op in ins.operands.iter() {
                if let Operand::Position(p) = op {
                    targets.push(*p as usize);
                }
            }
        }
        for (i, ins) in function.instructions.iter().enumerate() {
            if targets.contains(&i) {
                text.push_str(&format!(".L{}\n", i));
            }
            let mut parts = vec![];
            for op in ins.operands.iter() {
                match op {
                    Operand::Empty => {}
                    Operand::Immediate(v) => parts.push(format!("{}", v)),
                    Operand::Position(p) => parts.push(format!(".L{}", p)),
                    Operand::Register(r) => parts.push(format!("%{}", r)),
                    Operand::Function(g) => parts.push(format!("@{}", names[*g as usize])),
                    Operand::Constant(c) => match &module.constants[*c as usize] {
                        Constant::Number(t) => parts.push(t.clone()),
                        Constant::String(s) => parts.push(format!("\"{}\"", s)),
                    },
                }
            }
            let mnemonic = format!("{:?}", ins.opcode).to_lowercase();
            text.push_str(&format!("  {} {}\n", mnemonic, parts.join(", ")));
        }
        if targets.contains(&function.instructions.len()) {
            text.push_str(&format!(".L{}\n", function.instructions.len()));
        }
    }
    text
}

#[test]
fn assemble_write_back_reassemble() {
    let source = "@entry
  MOVE %0, 35
  MOVE %1, 2.5
  MOVE %2, \"text\"
  CALL @fib, %0, %0, %0
  WRITE %0
  WRITE
  RET %0

@fib
  JLE .done, %0, 1
  MOVE %1, %0
  SUB  %1, 1
  CALL @fib, %1, %1, %1
  MOVE %2, %0
  SUB  %2, 2
  CALL @fib, %2, %2, %2
  ADD  %1, %2
  MOVE %0, %1
.done
  RET %0
";
    let first = Parser::new(source).parse().unwrap();
    let text = write_back(&first, &["entry", "fib"]);
    let second = Parser::new(&text).parse().unwrap();
    assert_eq!(first.constants, second.constants);
    assert_eq!(first.functions.len(), second.functions.len());
    for (a, b) in first.functions.iter().zip(second.functions.iter()) {
        assert_eq!(a.locals, b.locals);
        assert_eq!(a.instructions, b.instructions);
    }
}
