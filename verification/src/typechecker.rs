//! What the type model hands to the engine: the type of each syntax node,
//! the definition each variable reference resolves to, the function each call
//! resolves to, and the function table.

use vstd::prelude::*;
use std::collections::HashMap;
use crate::codegen::FunctionCodegen;
use crate::ids::{FunctionId, NodeId, TypeId};

verus! {

/// What a function record calls.
#[derive(Debug)]
pub enum Function {
    /// A function of the host. The host keeps the callable itself, under the
    /// record's index in the function table.
    Native,
    /// A compiled unit of bytecode.
    Compiled(FunctionCodegen),
}

/// One entry of the function table: the declared argument and return types
/// of a callable, and what it calls.
#[derive(Debug)]
pub struct FnRecord {
    pub name: String,
    pub args: Vec<TypeId>,
    pub ret: TypeId,
    pub fun: Function,
}

/// The tables of the type model. A node is named by its index in the syntax
/// tree.
#[derive(Debug)]
pub struct TypeChecker {
    /// The type of each syntax node, by node index.
    pub node_types: Vec<TypeId>,
    /// For a variable reference, the node that defines the variable.
    pub variable_def: HashMap<usize, NodeId>,
    /// For the head of a call, the function that is called.
    pub call_resolution: HashMap<usize, FunctionId>,
    /// The function table: dense, and only ever added to.
    pub functions: Vec<FnRecord>,
}

impl TypeChecker {
    /// Tables that hold nothing yet.
    pub fn new() -> (typechecker: TypeChecker)
        ensures
            typechecker.node_types@ == Seq::<TypeId>::empty(),
            typechecker.variable_def@ == Map::<usize, NodeId>::empty(),
            typechecker.call_resolution@ == Map::<usize, FunctionId>::empty(),
            typechecker.functions@ == Seq::<FnRecord>::empty(),
    {
        TypeChecker {
            node_types: Vec::new(),
            variable_def: HashMap::new(),
            call_resolution: HashMap::new(),
            functions: Vec::new(),
        }
    }

    /// Registers a function of the host under `name`, with its declared
    /// argument and return types, and returns its identifier: its index in
    /// the function table. A host function takes at least one argument; one
    /// declared without arguments is not registered.
    pub fn register_fn(&mut self, name: String, args: Vec<TypeId>, ret: TypeId) -> (id: Option<
        FunctionId,
    >)
        ensures
            final(self).node_types == old(self).node_types,
            final(self).variable_def == old(self).variable_def,
            final(self).call_resolution == old(self).call_resolution,
            args@.len() == 0 ==> id is None && final(self).functions@ == old(self).functions@,
            args@.len() > 0 ==> {
                &&& id == Some(FunctionId(old(self).functions@.len() as usize))
                &&& final(self).functions@.len() == old(self).functions@.len() + 1
                &&& final(self).functions@.subrange(0, old(self).functions@.len() as int) == old(
                    self,
                ).functions@
                &&& final(self).functions@.last().name == name
                &&& final(self).functions@.last().args == args
                &&& final(self).functions@.last().ret == ret
                &&& final(self).functions@.last().fun is Native
            },
    {
        if args.len() == 0 {
            return None;
        }
        let id = FunctionId(self.functions.len());
        self.functions.push(FnRecord { name, args, ret, fun: Function::Native });
        assert(self.functions@.subrange(0, old(self).functions@.len() as int) =~= old(
            self,
        ).functions@);
        Some(id)
    }

    /// Registers a compiled unit under `name`, with its declared argument and
    /// return types, and returns its identifier.
    pub fn register_compiled(
        &mut self,
        name: String,
        args: Vec<TypeId>,
        ret: TypeId,
        unit: FunctionCodegen,
    ) -> (id: FunctionId)
        ensures
            final(self).node_types == old(self).node_types,
            final(self).variable_def == old(self).variable_def,
            final(self).call_resolution == old(self).call_resolution,
            id.0 == old(self).functions@.len(),
            final(self).functions@.len() == old(self).functions@.len() + 1,
            final(self).functions@.subrange(0, old(self).functions@.len() as int) == old(
                self,
            ).functions@,
            final(self).functions@.last().name == name,
            final(self).functions@.last().args == args,
            final(self).functions@.last().ret == ret,
            final(self).functions@.last().fun == Function::Compiled(unit),
    {
        let id = FunctionId(self.functions.len());
        self.functions.push(FnRecord { name, args, ret, fun: Function::Compiled(unit) });
        assert(self.functions@.subrange(0, old(self).functions@.len() as int) =~= old(
            self,
        ).functions@);
        id
    }
}

} // verus!
