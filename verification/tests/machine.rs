//! Tests of the interpreter: the fetch-decode-execute loop, wraparound
//! arithmetic, stack discipline, emitted output, and the faults.

use stackvm::assembler::assemble;
use stackvm::vm::{Fault, VM};

fn run_source(source: &str) -> (Result<(), Fault>, VM) {
    let program = assemble(source).unwrap();
    let mut vm = VM::new(program);
    let result = vm.run();
    (result, vm)
}

#[test]
fn demo_scenario_runs() {
    let (result, vm) = run_source("PUSH 5\nPRINT_TOP\nPUSH 10\nADD\nPRINT");
    assert_eq!(result, Ok(()));
    assert_eq!(vm.output, vec![5, 15]);
    assert_eq!(vm.stack, vec![]);
}

#[test]
fn add_wraps_around() {
    let (result, vm) = run_source("PUSH 250\nPUSH 10\nADD\nPRINT");
    assert_eq!(result, Ok(()));
    assert_eq!(vm.output, vec![4]);
}

#[test]
fn sub_wraps_around() {
    let (result, vm) = run_source("PUSH 3\nPUSH 5\nSUB\nPRINT");
    assert_eq!(result, Ok(()));
    assert_eq!(vm.output, vec![254]);
}

#[test]
fn mul_wraps_around() {
    let (result, vm) = run_source("PUSH 20\nPUSH 20\nMUL\nPRINT");
    assert_eq!(result, Ok(()));
    assert_eq!(vm.output, vec![144]);
}

#[test]
fn add_then_sub_cancels() {
    let (result, vm) = run_source("PUSH 123\nPUSH 45\nADD\nPUSH 45\nSUB");
    assert_eq!(result, Ok(()));
    assert_eq!(vm.stack, vec![123]);
}

#[test]
fn dup_then_drop_leaves_stack_unchanged() {
    let (result, vm) = run_source("PUSH 8\nPUSH 9\nDUP\nDROP");
    assert_eq!(result, Ok(()));
    assert_eq!(vm.stack, vec![8, 9]);
}

#[test]
fn swap_exchanges_top_two() {
    let (result, vm) = run_source("PUSH 7\nPUSH 1\nPUSH 2\nSWAP");
    assert_eq!(result, Ok(()));
    assert_eq!(vm.stack, vec![7, 2, 1]);
}

#[test]
fn print_pops_but_print_top_does_not() {
    let (result, vm) = run_source("PUSH 9\nPRINT_TOP\nPRINT_TOP\nPRINT");
    assert_eq!(result, Ok(()));
    assert_eq!(vm.output, vec![9, 9, 9]);
    assert_eq!(vm.stack, vec![]);
}

#[test]
fn blank_input_halts_immediately() {
    let (result, vm) = run_source("\n  \t\n");
    assert_eq!(result, Ok(()));
    assert_eq!(vm.program, vec![]);
    assert_eq!(vm.stack, vec![]);
    assert_eq!(vm.output, vec![]);
    assert_eq!(vm.ip, 0);
}

#[test]
fn add_alone_underflows_without_printing() {
    let (result, vm) = run_source("ADD");
    assert_eq!(result, Err(Fault::StackUnderflow));
    assert_eq!(vm.output, vec![]);
}

#[test]
fn every_operation_underflows_on_short_stack() {
    for source in ["ADD", "SUB", "MUL", "PRINT", "PRINT_TOP", "DUP", "SWAP", "DROP"] {
        let (result, _) = run_source(source);
        assert_eq!(result, Err(Fault::StackUnderflow), "source: {source}");
    }
    for source in ["PUSH 1\nADD", "PUSH 1\nSUB", "PUSH 1\nMUL", "PUSH 1\nSWAP"] {
        let (result, _) = run_source(source);
        assert_eq!(result, Err(Fault::StackUnderflow), "source: {source}");
    }
}

#[test]
fn fault_preserves_stack_before_failing_instruction() {
    let (result, vm) = run_source("PUSH 5\nPUSH 6\nMUL\nADD");
    assert_eq!(result, Err(Fault::StackUnderflow));
    assert_eq!(vm.stack, vec![30]);
}

#[test]
fn illegal_opcode_faults() {
    for program in [vec![0x00], vec![0x0A], vec![0xFF]] {
        let mut vm = VM::new(program);
        assert_eq!(vm.run(), Err(Fault::IllegalOpcode));
        assert_eq!(vm.stack, vec![]);
    }
}

#[test]
fn truncated_push_faults() {
    let mut vm = VM::new(vec![0x01]);
    assert_eq!(vm.run(), Err(Fault::TruncatedProgram));
    assert_eq!(vm.stack, vec![]);
    assert_eq!(vm.output, vec![]);
}

#[test]
fn execution_stops_at_first_fault() {
    // An illegal opcode; the prints behind it never run.
    let mut vm = VM::new(vec![0x01, 0x03, 0x00, 0x06, 0x06]);
    assert_eq!(vm.run(), Err(Fault::IllegalOpcode));
    assert_eq!(vm.stack, vec![3]);
    assert_eq!(vm.output, vec![]);
}

#[test]
fn output_order_matches_execution_order() {
    let (result, vm) = run_source("PUSH 1\nPRINT\nPUSH 2\nPRINT\nPUSH 3\nPRINT");
    assert_eq!(result, Ok(()));
    assert_eq!(vm.output, vec![1, 2, 3]);
}

#[test]
fn new_machine_is_empty() {
    let vm = VM::new(vec![0x02, 0x03]);
    assert_eq!(vm.ip, 0);
    assert_eq!(vm.stack, vec![]);
    assert_eq!(vm.output, vec![]);
    assert_eq!(vm.program, vec![0x02, 0x03]);
}

#[test]
fn run_instruction_takes_single_steps() {
    let mut vm = VM::new(vec![0x01, 0x09, 0x07]);
    assert_eq!(vm.run_instruction(), Ok(()));
    assert_eq!(vm.ip, 2);
    assert_eq!(vm.stack, vec![9]);
    assert_eq!(vm.run_instruction(), Ok(()));
    assert_eq!(vm.ip, 3);
    assert_eq!(vm.stack, vec![9, 9]);
}

#[test]
fn deep_stack_program() {
    // 1 2 3 4 -> swap -> 1 2 4 3 -> add -> 1 2 7 -> mul -> 1 14 -> sub -> 243
    let (result, vm) = run_source("PUSH 1\nPUSH 2\nPUSH 3\nPUSH 4\nSWAP\nADD\nMUL\nSUB");
    assert_eq!(result, Ok(()));
    assert_eq!(vm.stack, vec![243]);
}
