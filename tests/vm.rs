use minic::parser::compile;
use minic::vm::{Instr, RuntimeError, VM};

fn run_source(src: &str) -> (Result<(), RuntimeError>, Vec<i64>, Vec<i64>) {
    let code = compile(src).unwrap();
    let mut vm = VM::new(code);
    let r = vm.run();
    (r, vm.output, vm.stack)
}

#[test]
fn prints_fourteen() {
    let (r, out, _) = run_source("printf(2 + 3 * 4);");
    assert_eq!(r, Ok(()));
    assert_eq!(out, vec![14]);
}

#[test]
fn left_associative_subtraction_gives_five() {
    let (r, out, stack) = run_source("return 10 - 2 - 3;");
    assert_eq!(r, Ok(()));
    assert_eq!(out, Vec::<i64>::new());
    assert_eq!(stack, vec![5]);
}

#[test]
fn printf_then_return_prints_one_line() {
    let (r, out, stack) = run_source("printf(8 / 3); return 2 * 5; printf(99);");
    assert_eq!(r, Ok(()));
    assert_eq!(out, vec![2]);
    assert_eq!(stack, vec![10]);
}

#[test]
fn mixed_precedence_values() {
    let (r, out, _) = run_source("printf(1 + 2 * 3 - 4 / 2 % 3); printf(7 % 4 * 2 - 9);");
    assert_eq!(r, Ok(()));
    assert_eq!(out, vec![5, -3]);
}

#[test]
fn division_by_zero_faults() {
    let (r, out, _) = run_source("printf(1); printf(5 / 0);");
    assert_eq!(r, Err(RuntimeError::DivisionByZero { at: 4 }));
    assert_eq!(out, vec![1]);
    let (r, _, _) = run_source("return 1 + 5 % 0 * 2;");
    assert_eq!(r, Err(RuntimeError::DivisionByZero { at: 3 }));
}

#[test]
fn division_truncates_toward_zero() {
    let mut vm = VM::new(vec![Instr::Imm(-7), Instr::Imm(2), Instr::Div, Instr::Imm(-7), Instr::Imm(2), Instr::Mod]);
    assert_eq!(vm.run(), Ok(()));
    assert_eq!(vm.stack, vec![-3, -1]);
}

#[test]
fn overflow_faults() {
    let (r, _, _) = run_source("return 9223372036854775807 + 1;");
    assert_eq!(r, Err(RuntimeError::Overflow { at: 2 }));
    let mut vm = VM::new(vec![Instr::Imm(i64::MIN), Instr::Imm(-1), Instr::Div]);
    assert_eq!(vm.run(), Err(RuntimeError::Overflow { at: 2 }));
}

#[test]
fn stack_underflow_faults() {
    let mut vm = VM::new(vec![Instr::Imm(1), Instr::Add]);
    assert_eq!(
        vm.run(),
        Err(RuntimeError::StackUnderflow { at: 1, needed: 2, available: 1 })
    );
    let mut vm = VM::new(vec![Instr::Prtf]);
    assert_eq!(
        vm.run(),
        Err(RuntimeError::StackUnderflow { at: 0, needed: 1, available: 0 })
    );
}

#[test]
fn unbound_name_faults() {
    let (r, _, _) = run_source("printf(x);");
    assert_eq!(r, Err(RuntimeError::UnboundName { at: 0 }));
}

#[test]
fn new_machine_is_empty() {
    let vm = VM::new(vec![Instr::Lev]);
    assert_eq!(vm.instructions, vec![Instr::Lev]);
    assert!(vm.stack.is_empty());
    assert!(vm.output.is_empty());
}
