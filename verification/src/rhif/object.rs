use vstd::prelude::*;

use crate::ast::FunctionId;
use crate::compiler::mir::mir_impl::SymbolMap;
use crate::rhif::spec::{LiteralId, LocatedOpCode, OpCode, RegisterId, Slot};
use crate::types::bit_string::TypedBits;
use crate::types::kind::{clone_kind, kv_bounded, Kind, KindView};

verus! {

/// A function in the intermediate form: literal and register tables, and a
/// straight-line list of opcodes.
#[derive(Debug)]
pub struct Object {
    /// `literals[i]` holds literal `i` (`None` once removed).
    pub literals: Vec<Option<TypedBits>>,
    /// `kind[i]` holds the kind of register `i` (`None` once removed).
    pub kind: Vec<Option<Kind>>,
    /// Names given to registers in the source, if any.
    pub register_names: Vec<Option<String>>,
    pub ops: Vec<LocatedOpCode>,
    pub arguments: Vec<RegisterId>,
    pub return_slot: Slot,
    /// Functions called by `Exec` opcodes, indexed by `FuncId`.
    pub externals: Vec<Object>,
    pub name: String,
    pub fn_id: FunctionId,
    /// The source node of each slot.
    pub symbols: SymbolMap,
}

impl Object {
    /// The kind of a slot, when the slot is present in the tables.
    pub open spec fn slot_kind(&self, s: Slot) -> Option<KindView> {
        match s {
            Slot::Empty => Some(KindView::Empty),
            Slot::Literal(l) => if l.0 < self.literals@.len() && self.literals@[l.0 as int] is Some {
                Some(self.literals@[l.0 as int]->Some_0.kind@)
            } else {
                None
            },
            Slot::Register(r) => if r.0 < self.kind@.len() && self.kind@[r.0 as int] is Some {
                Some(self.kind@[r.0 as int]->Some_0@)
            } else {
                None
            },
        }
    }

    /// The slot is present in the tables and its kind is bounded.
    pub open spec fn slot_ok(&self, s: Slot) -> bool {
        self.slot_kind(s) matches Some(k) && kv_bounded(k)
    }

    /// The literal `l` is present.
    pub open spec fn has_literal(&self, l: LiteralId) -> bool {
        l.0 < self.literals@.len() && self.literals@[l.0 as int] is Some
    }

    /// The value of literal `l` (meaningful when present).
    pub open spec fn literal(&self, l: LiteralId) -> TypedBits {
        self.literals@[l.0 as int]->Some_0
    }

    /// The kind of a slot.
    pub fn kind(&self, s: Slot) -> (r: Kind)
        requires
            self.slot_kind(s) is Some,
        ensures
            Some(r@) == self.slot_kind(s),
    {
        match s {
            Slot::Empty => Kind::Empty,
            Slot::Literal(l) => match &self.literals[l.0] {
                Some(t) => clone_kind(&t.kind),
                None => Kind::Empty,
            },
            Slot::Register(r) => match &self.kind[r.0] {
                Some(k) => clone_kind(k),
                None => Kind::Empty,
            },
        }
    }

    /// Is the slot present in the tables?
    pub fn has_slot(&self, s: Slot) -> (r: bool)
        ensures
            r == (self.slot_kind(s) is Some),
    {
        match s {
            Slot::Empty => true,
            Slot::Literal(l) => l.0 < self.literals.len() && self.literals[l.0].is_some(),
            Slot::Register(r) => r.0 < self.kind.len() && self.kind[r.0].is_some(),
        }
    }

    /// One past the largest literal index: the index a new literal gets.
    pub fn literal_max_index(&self) -> (r: usize)
        ensures
            r == self.literals@.len(),
    {
        self.literals.len()
    }

    /// One past the largest register index: the index a new register gets.
    pub fn reg_max_index(&self) -> (r: usize)
        ensures
            r == self.kind@.len(),
    {
        self.kind.len()
    }
}

/// `b` is `a` with only its opcodes replaced.
pub open spec fn same_except_ops(a: Object, b: Object) -> bool {
    &&& b.literals == a.literals
    &&& b.kind == a.kind
    &&& b.register_names == a.register_names
    &&& b.arguments == a.arguments
    &&& b.return_slot == a.return_slot
    &&& b.externals == a.externals
    &&& b.name == a.name
    &&& b.fn_id == a.fn_id
    &&& b.symbols == a.symbols
}

/// The opcodes of `b` are those of `a`, each transformed by `f` (keeping its
/// source location).
pub open spec fn ops_mapped(a: Seq<LocatedOpCode>, b: Seq<LocatedOpCode>, f: spec_fn(OpCode, OpCode) -> bool) -> bool {
    &&& b.len() == a.len()
    &&& forall|i: int| 0 <= i < a.len() ==> #[trigger] b[i].id == a[i].id && f(a[i].op, b[i].op)
}

} // verus!
