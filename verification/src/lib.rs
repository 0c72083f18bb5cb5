use vstd::prelude::*;

pub mod bf;
pub mod ir;
pub mod vm;

verus! {

/// Top-level error taxonomy: runtime errors and lowering errors.
#[derive(Debug)]
pub enum Error {
    VmError(crate::vm::VmError),
    Lir(crate::ir::lir::LirError),
}

} // verus!
