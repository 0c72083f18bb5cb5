use fuckvm::ir::{Type, Value};
use fuckvm::ir::hir::{Program, Function, Block, Branch, Op};
use fuckvm::ir::lir::LirError;
use fuckvm::ir::hir::Local;
use fuckvm::bf::bfir;
use fuckvm::vm::Vm;
use fuckvm::Error;

const FUEL: usize = 10_000_000;

fn run(prog: &Program, input: &[u8]) -> (Vec<u8>, Vm) {
    let lir = prog.to_lir().unwrap();
    let emitted = bfir::Program::from_lir(&lir);
    let code = emitted.to_bf();
    let mut vm = Vm::new();
    let out = vm.exec(&code, input, FUEL).unwrap().unwrap();
    (out, vm)
}

#[test]
fn hello_byte() {
    let prog = Program::new().with_function(
        "main",
        Function::new(Type::Empty, ("in", Type::Empty)).with_block(
            "entry",
            Block::new(Branch::Exit)
                .with_op(Op::byte_decl("h", Value::Byte(b'h')))
                .with_op(Op::byte_out("h")),
        ),
    );
    let (out, vm) = run(&prog, &[]);
    assert_eq!(out, vec![b'h']);
    assert_eq!(vm.get(1), 0);
}

#[test]
fn echo_one_byte() {
    let prog = Program::new().with_function(
        "main",
        Function::new(Type::Empty, ("in", Type::Empty)).with_block(
            "entry",
            Block::new(Branch::Exit)
                .with_op(Op::byte_in("x"))
                .with_op(Op::byte_out("x")),
        ),
    );
    let (out, _) = run(&prog, &[0x41]);
    assert_eq!(out, vec![0x41]);
}

#[test]
fn add_three_and_four() {
    let prog = Program::new().with_function(
        "main",
        Function::new(Type::Empty, ("in", Type::Empty)).with_block(
            "entry",
            Block::new(Branch::Exit)
                .with_op(Op::byte_decl("a", Value::Byte(3)))
                .with_op(Op::byte_decl("b", Value::Byte(4)))
                .with_op(Op::byte_add("c", "a", "b"))
                .with_op(Op::byte_out("c")),
        ),
    );
    let (out, _) = run(&prog, &[]);
    assert_eq!(out, vec![0x07]);
}

fn equality_program(x: u8, y: u8) -> Program {
    Program::new().with_function(
        "main",
        Function::new(Type::Empty, ("in", Type::Empty)).with_block(
            "entry",
            Block::new(Branch::Exit)
                .with_op(Op::byte_decl("a", Value::Byte(x)))
                .with_op(Op::byte_decl("b", Value::Byte(y)))
                .with_op(Op::byte_eq("e", "a", "b"))
                .with_op(Op::byte_decl("zero", Value::Byte(b'0')))
                .with_op(Op::byte_add("o", "e", "zero"))
                .with_op(Op::byte_out("o")),
        ),
    )
}

#[test]
fn equality_of_equal_bytes_prints_one() {
    let (out, _) = run(&equality_program(5, 5), &[]);
    assert_eq!(out, vec![b'1']);
}

#[test]
fn equality_of_unequal_bytes_prints_zero() {
    let (out, _) = run(&equality_program(5, 6), &[]);
    assert_eq!(out, vec![b'0']);
}

#[test]
fn countdown_emits_three_bytes() {
    let prog = Program::new().with_function(
        "main",
        Function::new(Type::Empty, ("in", Type::Empty))
            .with_block(
                "entry",
                Block::new(Branch::Goto("loop".into()))
                    .with_op(Op::byte_decl("count", Value::Byte(3)))
                    .with_op(Op::byte_decl("ch", Value::Byte(b'x'))),
            )
            .with_block(
                "loop",
                Block::new(Branch::if_not_zero("count", "loop", "done"))
                    .with_op(Op::byte_decr("count"))
                    .with_op(Op::byte_out("ch")),
            )
            .with_block("done", Block::new(Branch::Exit)),
    );
    let (out, vm) = run(&prog, &[]);
    assert_eq!(out, vec![b'x', b'x', b'x']);
    assert_eq!(vm.get(1), 0);
}

#[test]
fn byte_sub_wraps_modulo_256() {
    let prog = Program::new().with_function(
        "main",
        Function::new(Type::Empty, ("in", Type::Empty)).with_block(
            "entry",
            Block::new(Branch::Exit)
                .with_op(Op::byte_decl("a", Value::Byte(3)))
                .with_op(Op::byte_decl("b", Value::Byte(5)))
                .with_op(Op::byte_sub("c", "a", "b"))
                .with_op(Op::byte_out("c")),
        ),
    );
    let (out, _) = run(&prog, &[]);
    assert_eq!(out, vec![254]);
}

#[test]
fn empty_body_halts_immediately() {
    let prog = Program::new().with_function(
        "main",
        Function::new(Type::Empty, ("in", Type::Empty))
            .with_block("entry", Block::new(Branch::Exit)),
    );
    let (out, vm) = run(&prog, &[]);
    assert_eq!(out, Vec::<u8>::new());
    assert_eq!(vm.get(1), 0);
}

#[test]
fn declared_constants_land_at_predicted_cells() {
    // output Byte at logical 0, input at logical 1, then the two locals
    // at logical 2 and 3, i.e. physical cells 4 and 6
    let prog = Program::new().with_function(
        "main",
        Function::new(Type::Byte, ("in", Type::Byte)).with_block(
            "entry",
            Block::new(Branch::Exit)
                .with_op(Op::byte_decl("a", Value::Byte(5)))
                .with_op(Op::byte_decl("b", Value::Byte(7))),
        ),
    );
    let (out, vm) = run(&prog, &[]);
    assert_eq!(out, Vec::<u8>::new());
    assert_eq!(vm.get(4), 5);
    assert_eq!(vm.get(6), 7);
    assert_eq!(vm.get(1), 0);
}

#[test]
fn incr_decr_ops_compose() {
    let prog = Program::new().with_function(
        "main",
        Function::new(Type::Empty, ("in", Type::Empty)).with_block(
            "entry",
            Block::new(Branch::Exit)
                .with_op(Op::byte_decl("a", Value::Byte(10)))
                .with_op(Op::byte_incr("a"))
                .with_op(Op::byte_incr("a"))
                .with_op(Op::byte_decr("a"))
                .with_op(Op::byte_out("a")),
        ),
    );
    let (out, _) = run(&prog, &[]);
    assert_eq!(out, vec![11]);
}

#[test]
fn lowering_reports_missing_local() {
    let prog = Program::new().with_function(
        "main",
        Function::new(Type::Empty, ("in", Type::Empty)).with_block(
            "entry",
            Block::new(Branch::Exit)
                .with_op(Op::byte_decl("a", Value::Byte(1)))
                .with_op(Op::byte_add("c", "a", "bogus"))
                .with_op(Op::byte_out("c")),
        ),
    );
    match prog.to_lir() {
        Err(Error::Lir(LirError::NoSuchLocal(n))) => assert_eq!(n, "bogus"),
        other => panic!("expected NoSuchLocal, got {:?}", other),
    }
}

#[test]
fn lowering_reports_unsupported_call() {
    let prog = Program::new().with_function(
        "main",
        Function::new(Type::Empty, ("in", Type::Empty)).with_block(
            "entry",
            Block::new(Branch::Exit).with_op(Op::Call(
                Local("t".to_owned(), Type::Byte),
                "other".to_owned(),
                Local("t".to_owned(), Type::Byte),
            )),
        ),
    );
    assert!(matches!(
        prog.to_lir(),
        Err(Error::Lir(LirError::UnsupportedOp))
    ));
}

#[test]
fn lowering_assigns_entry_and_blocks() {
    let prog = Program::new().with_function(
        "main",
        Function::new(Type::Empty, ("in", Type::Empty))
            .with_block("entry", Block::new(Branch::Goto("done".into())))
            .with_block("done", Block::new(Branch::Exit)),
    );
    let lir = prog.to_lir().unwrap();
    assert_eq!(lir.entry_id, 1);
    assert_eq!(lir.blocks.len(), 2);
    assert_eq!(lir.blocks[0].0, 1);
    assert_eq!(lir.blocks[1].0, 2);
}

#[test]
fn return_value_is_copied_into_the_return_slot() {
    // ReturnVal lowers to a Memcopy into offset 0 followed by Return
    let prog = Program::new().with_function(
        "main",
        Function::new(Type::Byte, ("in", Type::Empty)).with_block(
            "entry",
            Block::new(Branch::byte_return("a"))
                .with_op(Op::byte_decl("a", Value::Byte(9))),
        ),
    );
    let lir = prog.to_lir().unwrap();
    let block = &lir.blocks[0].1;
    assert_eq!(block.ops.len(), 2);
    assert!(matches!(
        block.ops[1],
        fuckvm::ir::lir::Op::Memcopy { from: 1, to: 0, num: 1 }
    ));
    assert!(matches!(block.branch, fuckvm::ir::lir::Branch::Return(2)));
}

#[test]
fn builders_replace_same_named_entries() {
    let prog = Program::new()
        .with_function(
            "main",
            Function::new(Type::Empty, ("in", Type::Empty))
                .with_block("entry", Block::new(Branch::Exit)),
        )
        .with_function(
            "main",
            Function::new(Type::Empty, ("in", Type::Empty))
                .with_block(
                    "entry",
                    Block::new(Branch::Exit).with_op(Op::byte_decl("z", Value::Byte(b'z')))
                        .with_op(Op::byte_out("z")),
                ),
        );
    assert_eq!(prog.functions().len(), 1);
    let (out, _) = run(&prog, &[]);
    assert_eq!(out, vec![b'z']);
}

#[test]
fn add_preserves_both_operands() {
    let prog = Program::new().with_function(
        "main",
        Function::new(Type::Empty, ("in", Type::Empty)).with_block(
            "entry",
            Block::new(Branch::Exit)
                .with_op(Op::byte_decl("a", Value::Byte(3)))
                .with_op(Op::byte_decl("b", Value::Byte(4)))
                .with_op(Op::byte_add("c", "a", "b"))
                .with_op(Op::byte_out("a"))
                .with_op(Op::byte_out("b"))
                .with_op(Op::byte_out("c")),
        ),
    );
    let (out, _) = run(&prog, &[]);
    assert_eq!(out, vec![3, 4, 7]);
}

#[test]
fn eq_preserves_both_operands() {
    let prog = Program::new().with_function(
        "main",
        Function::new(Type::Empty, ("in", Type::Empty)).with_block(
            "entry",
            Block::new(Branch::Exit)
                .with_op(Op::byte_decl("a", Value::Byte(9)))
                .with_op(Op::byte_decl("b", Value::Byte(9)))
                .with_op(Op::byte_eq("e", "a", "b"))
                .with_op(Op::byte_out("a"))
                .with_op(Op::byte_out("b"))
                .with_op(Op::byte_out("e")),
        ),
    );
    let (out, _) = run(&prog, &[]);
    assert_eq!(out, vec![9, 9, 1]);
}

#[test]
fn frame_offsets_increase_without_sharing() {
    let prog = Program::new().with_function(
        "main",
        Function::new(Type::Empty, ("in", Type::Byte)).with_block(
            "entry",
            Block::new(Branch::Exit)
                .with_op(Op::byte_decl("a", Value::Byte(1)))
                .with_op(Op::byte_decl("b", Value::Byte(2)))
                .with_op(Op::byte_decl("c", Value::Byte(3))),
        ),
    );
    let lir = prog.to_lir().unwrap();
    let mut offsets = Vec::new();
    for op in &lir.blocks[0].1.ops {
        if let fuckvm::ir::lir::Op::Decl(off, _) = op {
            offsets.push(*off);
        }
    }
    // the input parameter takes offset 0; the locals follow in order
    assert_eq!(offsets, vec![1, 2, 3]);
}
