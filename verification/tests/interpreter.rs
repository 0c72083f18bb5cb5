use fuckvm::vm::{Vm, VmError};
use fuckvm::Error;

const FUEL: usize = 10_000_000;

#[test]
fn plain_arithmetic_and_output() {
    let mut vm = Vm::new();
    let out = vm.exec("+++.", &[], FUEL).unwrap().unwrap();
    assert_eq!(out, vec![3]);
}

#[test]
fn wrapping_decrement() {
    let mut vm = Vm::new();
    let out = vm.exec("-.", &[], FUEL).unwrap().unwrap();
    assert_eq!(out, vec![255]);
}

#[test]
fn input_is_echoed() {
    let mut vm = Vm::new();
    let out = vm.exec(",.", &[0x41], FUEL).unwrap().unwrap();
    assert_eq!(out, vec![0x41]);
}

#[test]
fn input_eof_reads_zero() {
    let mut vm = Vm::new();
    let out = vm.exec("+,.", &[], FUEL).unwrap().unwrap();
    assert_eq!(out, vec![0]);
}

#[test]
fn left_move_at_zero_is_a_noop() {
    let mut vm = Vm::new();
    let out = vm.exec("<<<+.", &[], FUEL).unwrap().unwrap();
    assert_eq!(out, vec![1]);
    assert_eq!(vm.get(0), 1);
}

#[test]
fn right_move_saturates_at_tape_end() {
    let mut vm = Vm::new();
    let mut code = ">".repeat(10_005);
    code.push('+');
    vm.exec(&code, &[], FUEL).unwrap().unwrap();
    assert_eq!(vm.get(9999), 1);
}

#[test]
fn unmatched_open_bracket_fails() {
    let mut vm = Vm::new();
    let r = vm.exec("[+", &[], FUEL);
    assert!(matches!(r, Err(Error::VmError(VmError::Unmatched('[')))));
}

#[test]
fn unmatched_close_bracket_fails() {
    let mut vm = Vm::new();
    let r = vm.exec("+]", &[], FUEL);
    assert!(matches!(r, Err(Error::VmError(VmError::Unmatched(']')))));
}

#[test]
fn comment_bytes_are_ignored(){
    let mut vm = Vm::new();
    let out = vm.exec("+ hello + world +.", &[], FUEL).unwrap().unwrap();
    assert_eq!(out, vec![3]);
}

#[test]
fn loops_run_until_zero() {
    let mut vm = Vm::new();
    // 5 * 2 multiplication through a transfer loop
    let out = vm.exec("+++++[->++<]>.", &[], FUEL).unwrap().unwrap();
    assert_eq!(out, vec![10]);
}

#[test]
fn budget_exhaustion_is_reported() {
    let mut vm = Vm::new();
    let r = vm.exec("+[]", &[], 1000);
    assert!(matches!(r, Ok(None)));
}

#[test]
fn cell_accessors_roundtrip() {
    let mut vm = Vm::new();
    vm.set(42, 7);
    assert_eq!(vm.get(42), 7);
    vm.incr(42, 250);
    assert_eq!(vm.get(42), 1);
    vm.decr(42, 2);
    assert_eq!(vm.get(42), 255);
    // out-of-range accesses are dropped or read as zero
    vm.set(20000, 9);
    assert_eq!(vm.get(20000), 0);
}
