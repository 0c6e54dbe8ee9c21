use vstd::prelude::*;

use crate::ast::{ExprLit, FunctionId, NodeId};
use crate::rhif::spec::{OpCode, Slot};
use crate::types::kind::Kind;

pub mod infer;
pub mod inference;
pub mod interner;
pub mod mir_impl;
pub mod ty;

verus! {

/// An opcode with the source node that produced it.
#[derive(Debug)]
pub struct OpCodeWithSource {
    pub op: OpCode,
    pub source: NodeId,
}

impl OpCodeWithSource {
    /// Pairs an opcode with its source node.
    pub fn from_pair(pair: (OpCode, NodeId)) -> (r: OpCodeWithSource)
        ensures
            r.op == pair.0,
            r.source == pair.1,
    {
        let (op, source) = pair;
        OpCodeWithSource { op, source }
    }
}

/// A function lowered from the syntax tree before its types are known.
#[derive(Debug)]
pub struct Mir {
    pub ops: Vec<OpCodeWithSource>,
    /// The literal held by each literal slot.
    pub literals: Vec<(Slot, ExprLit)>,
    /// The kinds known in advance (arguments and result).
    pub ty: Vec<(Slot, Kind)>,
    /// Pairs of slots that must have the same type.
    pub ty_equate: Vec<(Slot, Slot)>,
    pub return_slot: Slot,
    pub arguments: Vec<Slot>,
    pub fn_id: FunctionId,
    pub name: String,
}

} // verus!
