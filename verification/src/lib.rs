//! The core of an embeddable scripting engine: an annotated syntax tree is
//! lowered to a linear register bytecode, which a small register machine
//! executes.
//!
//! Parsing and type checking happen before: [`EngineDelta`] and
//! [`TypeChecker`] hold what they hand over. [`Translater`] lowers a tree to
//! a [`FunctionCodegen`], one compiled unit, by the rules of [`lowering`].
//! [`FunctionCodegen::eval`] runs a unit; [`Evaluator`] runs a unit that
//! calls other compiled units. The machine executes integer instructions,
//! moves and branches itself. Floating-point instructions and calls of host
//! functions are the host's work: the machine stops in front of them, says
//! what is asked for, and goes on when it is handed the answer.
//!
//! The modules [`soundness`], [`bindings`], [`control_flow`], [`laws`] and
//! [`isolation`] hold what is proved of the lowering rules and of the machine.

pub mod bindings;
pub mod builtins;
pub mod codegen;
pub mod control_flow;
pub mod evaluator;
pub mod ids;
pub mod instruction;
pub mod isolation;
pub mod laws;
pub mod literal;
pub mod lowering;
pub mod machine;
pub mod soundness;
pub mod syntax;
pub mod translater;
pub mod typechecker;
pub mod value;

pub use builtins::add_int;
pub use codegen::{FunctionCodegen, Unit, UnsupportedOperand};
pub use evaluator::Evaluator;
pub use ids::{
    FunctionId, InstructionId, NodeId, RegisterId, TypeId, BOOL_TYPE, F64_TYPE, I64_TYPE, VOID_TYPE,
};
pub use instruction::{Instruction, Op, Operation};
pub use literal::parse_int;
pub use lowering::{Lowered, LoweredList, TranslateError};
pub use machine::{Driven, Fault, FaultKind, Outcome, Step};
pub use syntax::{AstNode, EngineDelta};
pub use translater::Translater;
pub use typechecker::{FnRecord, Function, TypeChecker};
pub use value::{Value, ValueError};
