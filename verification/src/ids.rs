//! Indices that address syntax nodes, types, functions, instructions and
//! registers.

use vstd::prelude::*;

verus! {

/// Index of a node in a syntax tree.
#[derive(Clone, Copy, Debug, PartialEq, Eq, Structural, Hash)]
pub struct NodeId(pub usize);

/// Index of a record in the function table.
#[derive(Clone, Copy, Debug, PartialEq, Eq, Structural, Hash)]
pub struct FunctionId(pub usize);

/// Position of an instruction in a unit's instruction sequence. A branch
/// stores such a position in the program counter.
#[derive(Clone, Copy, Debug, PartialEq, Eq, Structural, Hash)]
pub struct InstructionId(pub usize);

/// Index of a register in a unit's register file.
#[derive(Clone, Copy, Debug, PartialEq, Eq, Structural, Hash)]
pub struct RegisterId(pub usize);

/// Index into the type table of the type model. The engine compares type
/// identifiers and never looks inside them.
pub type TypeId = usize;

/// The type of expressions that carry no value.
pub const VOID_TYPE: TypeId = 0;

/// The type of 64-bit signed integers.
pub const I64_TYPE: TypeId = 1;

/// The type of 64-bit floating-point numbers, held as their bit pattern.
pub const F64_TYPE: TypeId = 2;

/// The type of booleans, held as 0 or 1.
pub const BOOL_TYPE: TypeId = 3;

} // verus!
