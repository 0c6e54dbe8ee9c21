use vstd::prelude::*;

use crate::ast::{FunctionId, NodeId};
use crate::error::{RHDLError, ICE};
use crate::rhif::object::Object as RhifObject;
use crate::rhif::spec as hf;
use crate::rhif::spec::Slot;
use crate::rtl::spec as tl;
use crate::rtl::object::{op_in, operand_in, register_kind, LocatedOpCode, RegisterKind};
use crate::rtl::spec::{LiteralId, OpCode, Operand, RegisterId};
use crate::types::bit_string::{typed_to_bit_string, BitString, BitStringView, TypedBits};
use crate::types::kind::{kv_bits, kv_bounded, kv_is_signed, Kind, KindView};
use crate::types::path::{fix_dynamic, kv_range, path_dynamic_slots, PathElementView};

verus! {

/// The register kind that holds values of a hardware kind.
pub open spec fn kind_register(k: KindView) -> RegisterKind {
    register_kind(kv_is_signed(k), kv_bits(k))
}

/// State of the lowering of one function: the tables built so far, where each
/// slot of the source went, and the opcodes emitted.
pub struct RTLCompiler {
    pub literals: Vec<BitString>,
    pub registers: Vec<RegisterKind>,
    /// The operand given to each literal of the source, once it is used.
    pub lit_map: Vec<Option<Operand>>,
    /// The operand given to each register of the source, once it is used.
    pub reg_map: Vec<Option<Operand>>,
    pub ops: Vec<LocatedOpCode>,
    pub fn_id: FunctionId,
}

/// Every opcode of the list only mentions operands of tables of these sizes.
pub open spec fn ops_in(ops: Seq<LocatedOpCode>, nlit: nat, nreg: nat) -> bool {
    forall|i: int| 0 <= i < ops.len() ==> op_in(#[trigger] ops[i].op, nlit, nreg)
}

/// `a` is a prefix of `b`.
pub open spec fn is_prefix<T>(a: Seq<T>, b: Seq<T>) -> bool {
    &&& a.len() <= b.len()
    &&& forall|i: int| 0 <= i < a.len() ==> #[trigger] b[i] == a[i]
}

pub proof fn lemma_ops_in_grow(ops: Seq<LocatedOpCode>, a: nat, b: nat, a2: nat, b2: nat)
    requires
        ops_in(ops, a, b),
        a <= a2,
        b <= b2,
    ensures
        ops_in(ops, a2, b2),
{
    assert forall|i: int| 0 <= i < ops.len() implies op_in(#[trigger] ops[i].op, a2, b2) by {
        assert forall|j: int|
            0 <= j < crate::rtl::object::op_operands(ops[i].op).len() implies operand_in(
            #[trigger] crate::rtl::object::op_operands(ops[i].op)[j],
            a2,
            b2,
        ) by {
            assert(op_in(ops[i].op, a, b));
        }
    }
}

/// No two source registers share a register: the placed entries of the map
/// are pairwise different.
#[verifier::opaque]
pub open spec fn regs_distinct(m: Seq<Option<Operand>>) -> bool {
    forall|a: int, b: int|
        #![trigger m[a], m[b]]
        0 <= a < m.len() && 0 <= b < m.len() && a != b && m[a] is Some ==> m[a] != m[b]
}

/// No source register is placed in `o`.
pub open spec fn unmapped(c: RTLCompiler, o: Operand) -> bool {
    forall|r: int| 0 <= r < c.reg_map@.len() ==> #[trigger] c.reg_map@[r] != Some(o)
}

impl RTLCompiler {
    /// The operand a source slot went to, if it has been used.
    pub open spec fn mapped(&self, s: Slot) -> Option<Operand> {
        match s {
            Slot::Literal(l) => if l.0 < self.lit_map@.len() {
                self.lit_map@[l.0 as int]
            } else {
                None
            },
            Slot::Register(r) => if r.0 < self.reg_map@.len() {
                self.reg_map@[r.0 as int]
            } else {
                None
            },
            Slot::Empty => None,
        }
    }

    pub open spec fn opnd(&self, s: Slot) -> Operand {
        self.mapped(s)->Some_0
    }

    /// The operand exists in the tables built so far.
    pub open spec fn has(&self, o: Operand) -> bool {
        operand_in(o, self.literals@.len() as nat, self.registers@.len() as nat)
    }

    /// Source literal `l`, if placed, went to a literal with its bits.
    pub open spec fn lit_ok(&self, obj: RhifObject, l: int) -> bool {
        self.lit_map@[l] is Some ==> {
            let o = self.lit_map@[l]->Some_0;
            &&& o is Literal
            &&& o->Literal_0.0 < self.literals@.len()
            &&& obj.literals@[l] is Some
            &&& self.literals@[o->Literal_0.0 as int]@ == typed_to_bit_string(obj.literals@[l]->Some_0@)
        }
    }

    /// Source register `r`, if placed, went to a register of its kind.
    pub open spec fn reg_ok(&self, obj: RhifObject, r: int) -> bool {
        self.reg_map@[r] is Some ==> {
            let o = self.reg_map@[r]->Some_0;
            &&& o is Register
            &&& o->Register_0.0 < self.registers@.len()
            &&& obj.kind@[r] is Some
            &&& self.registers@[o->Register_0.0 as int] == kind_register(obj.kind@[r]->Some_0@)
        }
    }

    /// The state is consistent with the source object: each used literal went
    /// to a literal with the same bits, each used register to a register of
    /// the matching kind, and every opcode emitted mentions only operands of
    /// the tables.
    pub open spec fn inv(&self, obj: RhifObject) -> bool {
        &&& self.lit_map@.len() == obj.literals@.len()
        &&& self.reg_map@.len() == obj.kind@.len()
        &&& self.fn_id == obj.fn_id
        &&& forall|l: int| 0 <= l < self.lit_map@.len() ==> #[trigger] self.lit_ok(obj, l)
        &&& forall|r: int| 0 <= r < self.reg_map@.len() ==> #[trigger] self.reg_ok(obj, r)
        &&& ops_in(self.ops@, self.literals@.len() as nat, self.registers@.len() as nat)
        &&& regs_distinct(self.reg_map@)
    }

    /// `self` only adds to `old`: tables and opcodes grow at the end, and the
    /// slots already placed stay where they are.
    pub open spec fn extends(&self, old: RTLCompiler) -> bool {
        &&& is_prefix(old.literals@, self.literals@)
        &&& is_prefix(old.registers@, self.registers@)
        &&& is_prefix(old.ops@, self.ops@)
        &&& self.lit_map@.len() == old.lit_map@.len()
        &&& self.reg_map@.len() == old.reg_map@.len()
        &&& forall|l: int|
            0 <= l < old.lit_map@.len() ==> (old.lit_map@[l] is Some ==> #[trigger] self.lit_map@[l]
                == old.lit_map@[l])
        &&& forall|r: int|
            0 <= r < old.reg_map@.len() ==> (old.reg_map@[r] is Some ==> #[trigger] self.reg_map@[r]
                == old.reg_map@[r])
        &&& forall|r: int|
            0 <= r < old.reg_map@.len() ==> (old.reg_map@[r] is None ==> (#[trigger] self.reg_map@[r] matches Some(o)
                ==> o is Register && o->Register_0.0 >= old.registers@.len()))
        &&& self.fn_id == old.fn_id
    }

    /// Growing the tables, keeping where the slots went, keeps the state
    /// consistent.
    pub proof fn lemma_inv_frame(a: RTLCompiler, b: RTLCompiler, obj: RhifObject)
        requires
            a.inv(obj),
            b.lit_map == a.lit_map,
            b.reg_map == a.reg_map,
            b.fn_id == a.fn_id,
            is_prefix(a.literals@, b.literals@),
            is_prefix(a.registers@, b.registers@),
            ops_in(b.ops@, b.literals@.len() as nat, b.registers@.len() as nat),
        ensures
            b.inv(obj),
    {
        assert forall|l: int| 0 <= l < b.lit_map@.len() implies #[trigger] b.lit_ok(obj, l) by {
            assert(a.lit_ok(obj, l));
            if a.lit_map@[l] is Some {
                let x = a.lit_map@[l]->Some_0->Literal_0;
                assert(b.literals@[x.0 as int] == a.literals@[x.0 as int]);
            }
        }
        assert forall|r: int| 0 <= r < b.reg_map@.len() implies #[trigger] b.reg_ok(obj, r) by {
            assert(a.reg_ok(obj, r));
            if a.reg_map@[r] is Some {
                let x = a.reg_map@[r]->Some_0->Register_0;
                assert(b.registers@[x.0 as int] == a.registers@[x.0 as int]);
            }
        }
    }

    /// A compiler for `obj` with nothing emitted yet.
    fn new(obj: &RhifObject) -> (r: RTLCompiler)
        ensures
            r.inv(*obj),
            r.literals@.len() == 0,
            r.registers@.len() == 0,
            r.ops@.len() == 0,
            forall|s: Slot| r.mapped(s) is None,
    {
        let mut lit_map: Vec<Option<Operand>> = Vec::new();
        let mut i: usize = 0;
        while i < obj.literals.len()
            invariant
                i <= obj.literals.len(),
                lit_map@.len() == i,
                forall|j: int| 0 <= j < i ==> #[trigger] lit_map@[j] is None,
            decreases obj.literals.len() - i,
        {
            lit_map.push(None);
            i += 1;
        }
        let mut reg_map: Vec<Option<Operand>> = Vec::new();
        let mut i: usize = 0;
        while i < obj.kind.len()
            invariant
                i <= obj.kind.len(),
                reg_map@.len() == i,
                forall|j: int| 0 <= j < i ==> #[trigger] reg_map@[j] is None,
            decreases obj.kind.len() - i,
        {
            reg_map.push(None);
            i += 1;
        }
        proof {
            reveal(regs_distinct);
        }
        RTLCompiler {
            literals: Vec::new(),
            registers: Vec::new(),
            lit_map,
            reg_map,
            ops: Vec::new(),
            fn_id: obj.fn_id,
        }
    }

    /// Emits an opcode.
    fn lop(&mut self, Ghost(obj): Ghost<RhifObject>, op: OpCode, id: NodeId)
        requires
            old(self).inv(obj),
            op_in(op, old(self).literals@.len() as nat, old(self).registers@.len() as nat),
        ensures
            final(self).inv(obj),
            final(self).extends(*old(self)),
            final(self).literals == old(self).literals,
            final(self).registers == old(self).registers,
            final(self).lit_map == old(self).lit_map,
            final(self).reg_map == old(self).reg_map,
            final(self).ops@ == old(self).ops@.push(LocatedOpCode { op, id, func: old(self).fn_id }),
    {
        let func = self.fn_id;
        self.ops.push(LocatedOpCode { op, id, func });
        proof {
            assert forall|i: int| 0 <= i < self.ops@.len() implies op_in(
                #[trigger] self.ops@[i].op,
                self.literals@.len() as nat,
                self.registers@.len() as nat,
            ) by {
                if i < old(self).ops@.len() {
                    assert(self.ops@[i] == old(self).ops@[i]);
                }
            }
            RTLCompiler::lemma_inv_frame(*old(self), *self, obj);
        }
    }

    /// Adds a literal to the table.
    fn allocate_literal_from_bit_string(&mut self, Ghost(obj): Ghost<RhifObject>, bits: BitString) -> (r: Operand)
        requires
            old(self).inv(obj),
        ensures
            final(self).inv(obj),
            final(self).extends(*old(self)),
            r is Literal && r->Literal_0.0 == old(self).literals@.len(),
            final(self).literals@ == old(self).literals@.push(bits),
            final(self).registers == old(self).registers,
            final(self).lit_map == old(self).lit_map,
            final(self).reg_map == old(self).reg_map,
            final(self).ops == old(self).ops,
    {
        let id = LiteralId(self.literals.len());
        self.literals.push(bits);
        proof {
            lemma_ops_in_grow(
                self.ops@,
                old(self).literals@.len() as nat,
                self.registers@.len() as nat,
                self.literals@.len() as nat,
                self.registers@.len() as nat,
            );
            RTLCompiler::lemma_inv_frame(*old(self), *self, obj);
        }
        Operand::Literal(id)
    }

    /// Adds a literal holding the bits of a typed value.
    fn allocate_literal(&mut self, Ghost(obj): Ghost<RhifObject>, bits: &TypedBits) -> (r: Operand)
        requires
            old(self).inv(obj),
        ensures
            final(self).inv(obj),
            final(self).extends(*old(self)),
            r is Literal && r->Literal_0.0 == old(self).literals@.len(),
            final(self).literals@.len() == old(self).literals@.len() + 1,
            final(self).literals@.last()@ == typed_to_bit_string(bits@),
            final(self).registers == old(self).registers,
            final(self).lit_map == old(self).lit_map,
            final(self).reg_map == old(self).reg_map,
            final(self).ops == old(self).ops,
    {
        let b = bits.to_bit_string();
        self.allocate_literal_from_bit_string(Ghost(obj), b)
    }

    /// Adds a literal of width `len` holding the low bits of `value`.
    fn allocate_literal_from_usize_and_length(
        &mut self,
        Ghost(obj): Ghost<RhifObject>,
        value: usize,
        len: usize,
    ) -> (r: Operand)
        requires
            old(self).inv(obj),
        ensures
            final(self).inv(obj),
            final(self).extends(*old(self)),
            r is Literal && r->Literal_0.0 == old(self).literals@.len(),
            final(self).literals@.len() == old(self).literals@.len() + 1,
            final(self).literals@.last()@ == (BitStringView {
                signed: false,
                bits: crate::types::bit_string::bits_of_nat(value as nat, len as nat),
            }),
            final(self).registers == old(self).registers,
            final(self).lit_map == old(self).lit_map,
            final(self).reg_map == old(self).reg_map,
            final(self).ops == old(self).ops,
    {
        let v = TypedBits::from_usize(value, len);
        self.allocate_literal(Ghost(obj), &v)
    }

    /// Adds a register of the given kind.
    fn allocate_register_with_register_kind(
        &mut self,
        Ghost(obj): Ghost<RhifObject>,
        kind: RegisterKind,
    ) -> (r: Operand)
        requires
            old(self).inv(obj),
        ensures
            final(self).inv(obj),
            final(self).extends(*old(self)),
            r is Register && r->Register_0.0 == old(self).registers@.len(),
            final(self).registers@ == old(self).registers@.push(kind),
            final(self).literals == old(self).literals,
            final(self).lit_map == old(self).lit_map,
            final(self).reg_map == old(self).reg_map,
            final(self).ops == old(self).ops,
    {
        let id = RegisterId(self.registers.len());
        self.registers.push(kind);
        proof {
            lemma_ops_in_grow(
                self.ops@,
                self.literals@.len() as nat,
                old(self).registers@.len() as nat,
                self.literals@.len() as nat,
                self.registers@.len() as nat,
            );
            RTLCompiler::lemma_inv_frame(*old(self), *self, obj);
        }
        Operand::Register(id)
    }

    fn allocate_signed(&mut self, Ghost(obj): Ghost<RhifObject>, length: usize) -> (r: Operand)
        requires
            old(self).inv(obj),
        ensures
            final(self).inv(obj),
            final(self).extends(*old(self)),
            r is Register && r->Register_0.0 == old(self).registers@.len(),
            final(self).registers@ == old(self).registers@.push(RegisterKind::Signed(length)),
            final(self).literals == old(self).literals,
            final(self).lit_map == old(self).lit_map,
            final(self).reg_map == old(self).reg_map,
            final(self).ops == old(self).ops,
    {
        self.allocate_register_with_register_kind(Ghost(obj), RegisterKind::Signed(length))
    }

    fn allocate_unsigned(&mut self, Ghost(obj): Ghost<RhifObject>, length: usize) -> (r: Operand)
        requires
            old(self).inv(obj),
        ensures
            final(self).inv(obj),
            final(self).extends(*old(self)),
            r is Register && r->Register_0.0 == old(self).registers@.len(),
            final(self).registers@ == old(self).registers@.push(RegisterKind::Unsigned(length)),
            final(self).literals == old(self).literals,
            final(self).lit_map == old(self).lit_map,
            final(self).reg_map == old(self).reg_map,
            final(self).ops == old(self).ops,
    {
        self.allocate_register_with_register_kind(Ghost(obj), RegisterKind::Unsigned(length))
    }

    /// Adds a register that holds values of `kind`.
    fn allocate_register(&mut self, Ghost(obj): Ghost<RhifObject>, kind: &Kind) -> (r: Operand)
        requires
            old(self).inv(obj),
            kv_bounded(kind@),
        ensures
            final(self).inv(obj),
            final(self).extends(*old(self)),
            r is Register && r->Register_0.0 == old(self).registers@.len(),
            final(self).registers@ == old(self).registers@.push(kind_register(kind@)),
            final(self).literals == old(self).literals,
            final(self).lit_map == old(self).lit_map,
            final(self).reg_map == old(self).reg_map,
            final(self).ops == old(self).ops,
    {
        let len = kind.bits();
        if kind.is_signed() {
            self.allocate_signed(Ghost(obj), len)
        } else {
            self.allocate_unsigned(Ghost(obj), len)
        }
    }

    /// The operand for a source slot, giving it one on first use.
    fn operand(&mut self, obj: &RhifObject, slot: Slot) -> (r: Operand)
        requires
            old(self).inv(*obj),
            obj.slot_ok(slot),
            !(slot is Empty),
        ensures
            final(self).inv(*obj),
            final(self).extends(*old(self)),
            final(self).mapped(slot) == Some(r),
            old(self).mapped(slot) is Some ==> r == old(self).opnd(slot) && *final(self)
                == *old(self),
            forall|s: Slot| s != slot ==> #[trigger] final(self).mapped(s) == old(self).mapped(s),
            final(self).has(r),
            final(self).ops == old(self).ops,
            old(self).mapped(slot) is None && slot is Register ==> r is Register && r->Register_0.0
                == old(self).registers@.len() && final(self).registers@.len() == old(self).registers@.len() + 1,
            old(self).mapped(slot) is None && slot is Literal ==> r is Literal && r->Literal_0.0
                == old(self).literals@.len() && final(self).registers == old(self).registers,
    {
        match slot {
            Slot::Literal(l) => {
                if let Some(o) = self.lit_map[l.0] {
                    proof {
                        assert(self.lit_ok(*obj, l.0 as int));
                    }
                    return o;
                }
                let bits = match &obj.literals[l.0] {
                    Some(t) => t.to_bit_string(),
                    None => BitString::Unsigned(Vec::new()),
                };
                assert(bits@ == typed_to_bit_string(obj.literals@[l.0 as int]->Some_0@));
                let lit = self.allocate_literal_from_bit_string(Ghost(*obj), bits);
                let ghost mid = *self;
                self.lit_map.set(l.0, Some(lit));
                proof {
                    assert forall|s: Slot| s != slot implies #[trigger] self.mapped(s) == old(self).mapped(s) by {}
                    assert(self.literals@[self.literals@.len() - 1] == bits);
                    assert forall|m: int| 0 <= m < self.lit_map@.len() implies #[trigger] self.lit_ok(*obj, m) by {
                        if m != l.0 {
                            assert(mid.lit_ok(*obj, m));
                            assert(self.lit_map@[m] == mid.lit_map@[m]);
                        } else {
                            assert(self.lit_map@[m] == Some(lit));
                            assert(self.literals@[lit->Literal_0.0 as int]@ == bits@);
                        }
                    }
                    assert forall|m: int| 0 <= m < self.reg_map@.len() implies #[trigger] self.reg_ok(*obj, m) by {
                        assert(mid.reg_ok(*obj, m));
                    }
                }
                lit
            },
            Slot::Register(r) => {
                if let Some(o) = self.reg_map[r.0] {
                    proof {
                        assert(self.reg_ok(*obj, r.0 as int));
                    }
                    return o;
                }
                let o = match &obj.kind[r.0] {
                    Some(k) => self.allocate_register(Ghost(*obj), k),
                    None => self.allocate_unsigned(Ghost(*obj), 0),
                };
                let ghost mid = *self;
                self.reg_map.set(r.0, Some(o));
                proof {
                    assert forall|s: Slot| s != slot implies #[trigger] self.mapped(s) == old(self).mapped(s) by {}
                    assert forall|m: int| 0 <= m < self.reg_map@.len() implies #[trigger] self.reg_ok(*obj, m) by {
                        if m != r.0 {
                            assert(mid.reg_ok(*obj, m));
                            assert(self.reg_map@[m] == mid.reg_map@[m]);
                        } else {
                            assert(self.reg_map@[m] == Some(o));
                            assert(self.registers@[o->Register_0.0 as int] == kind_register(obj.kind@[m]->Some_0@));
                        }
                    }
                    assert forall|m: int| 0 <= m < self.lit_map@.len() implies #[trigger] self.lit_ok(*obj, m) by {
                        assert(mid.lit_ok(*obj, m));
                    }
                    reveal(regs_distinct);
                    assert forall|a: int, b: int|
                        #![trigger self.reg_map@[a], self.reg_map@[b]]
                        0 <= a < self.reg_map@.len() && 0 <= b < self.reg_map@.len() && a != b && self.reg_map@[a] is Some
                            implies self.reg_map@[a] != self.reg_map@[b] by {
                        if a != r.0 && b != r.0 {
                            assert(old(self).reg_map@[a] == self.reg_map@[a]);
                            assert(old(self).reg_map@[b] == self.reg_map@[b]);
                        } else if a == r.0 {
                            assert(old(self).reg_ok(*obj, b));
                        } else {
                            assert(old(self).reg_ok(*obj, a));
                        }
                    }
                }
                o
            },
            Slot::Empty => Operand::Register(RegisterId(0)),
        }
    }
}


/// An emitted opcode of the function being lowered.
pub open spec fn at(op: OpCode, id: NodeId, f: FunctionId) -> LocatedOpCode {
    LocatedOpCode { op, id, func: f }
}

/// The operands of the non-empty slots of a list, in order.
pub open spec fn nonempty_operands(c: RTLCompiler, ss: Seq<Slot>) -> Seq<Operand>
    decreases ss.len(),
{
    if ss.len() == 0 {
        Seq::empty()
    } else if ss.last() is Empty {
        nonempty_operands(c, ss.drop_last())
    } else {
        nonempty_operands(c, ss.drop_last()).push(c.opnd(ss.last()))
    }
}

/// Every non-empty slot of the list is present in the object with a bounded
/// kind.
pub open spec fn slots_known(obj: RhifObject, ss: Seq<Slot>) -> bool {
    forall|j: int| 0 <= j < ss.len() ==> (!((#[trigger] ss[j]) is Empty) ==> obj.slot_ok(ss[j]))
}

/// Every non-empty slot of the list has been placed.
pub open spec fn all_mapped(c: RTLCompiler, ss: Seq<Slot>) -> bool {
    forall|j: int| 0 <= j < ss.len() ==> (!((#[trigger] ss[j]) is Empty) ==> c.mapped(ss[j]) is Some)
}

pub proof fn lemma_nonempty_operands_stable(a: RTLCompiler, b: RTLCompiler, ss: Seq<Slot>)
    requires
        all_mapped(a, ss),
        b.extends(a),
    ensures
        nonempty_operands(b, ss) == nonempty_operands(a, ss),
        all_mapped(b, ss),
    decreases ss.len(),
{
    if ss.len() > 0 {
        assert forall|j: int| 0 <= j < ss.drop_last().len() implies (!((#[trigger] ss.drop_last()[j]) is Empty)
            ==> a.mapped(ss.drop_last()[j]) is Some) by {
            assert(ss.drop_last()[j] == ss[j]);
        }
        lemma_nonempty_operands_stable(a, b, ss.drop_last());
        assert(ss.last() == ss[ss.len() - 1]);
    }
    assert forall|j: int| 0 <= j < ss.len() implies (!((#[trigger] ss[j]) is Empty) ==> b.mapped(ss[j]) is Some) by {
        lemma_mapped_stable(a, b, ss[j]);
    }
}

pub proof fn lemma_mapped_stable(a: RTLCompiler, b: RTLCompiler, s: Slot)
    requires
        b.extends(a),
    ensures
        a.mapped(s) is Some ==> b.mapped(s) == a.mapped(s),
{
    match s {
        Slot::Literal(l) => if l.0 < a.lit_map@.len() {
            assert(a.lit_map@[l.0 as int] is Some ==> b.lit_map@[l.0 as int] == a.lit_map@[l.0 as int]);
        },
        Slot::Register(r) => if r.0 < a.reg_map@.len() {
            assert(a.reg_map@[r.0 as int] is Some ==> b.reg_map@[r.0 as int] == a.reg_map@[r.0 as int]);
        },
        Slot::Empty => {},
    }
}

pub proof fn lemma_extends_trans(a: RTLCompiler, b: RTLCompiler, c: RTLCompiler)
    requires
        b.extends(a),
        c.extends(b),
    ensures
        c.extends(a),
{
    assert forall|l: int| 0 <= l < a.lit_map@.len() implies (a.lit_map@[l] is Some ==> #[trigger] c.lit_map@[l]
        == a.lit_map@[l]) by {
        if a.lit_map@[l] is Some {
            assert(b.lit_map@[l] == a.lit_map@[l]);
        }
    }
    assert forall|r: int| 0 <= r < a.reg_map@.len() implies (a.reg_map@[r] is Some ==> #[trigger] c.reg_map@[r]
        == a.reg_map@[r]) by {
        if a.reg_map@[r] is Some {
            assert(b.reg_map@[r] == a.reg_map@[r]);
        }
    }
    assert forall|r: int| 0 <= r < a.reg_map@.len() implies (a.reg_map@[r] is None ==> (#[trigger] c.reg_map@[r] matches Some(o)
        ==> o is Register && o->Register_0.0 >= a.registers@.len())) by {
        if a.reg_map@[r] is None && c.reg_map@[r] is Some {
            if b.reg_map@[r] is Some {
                assert(c.reg_map@[r] == b.reg_map@[r]);
            }
        }
    }
    assert forall|i: int| 0 <= i < a.literals@.len() implies #[trigger] c.literals@[i] == a.literals@[i] by {
        assert(b.literals@[i] == a.literals@[i]);
    }
    assert forall|i: int| 0 <= i < a.registers@.len() implies #[trigger] c.registers@[i] == a.registers@[i] by {
        assert(b.registers@[i] == a.registers@[i]);
    }
    assert forall|i: int| 0 <= i < a.ops@.len() implies #[trigger] c.ops@[i] == a.ops@[i] by {
        assert(b.ops@[i] == a.ops@[i]);
    }
}

/// A register beyond the table of a consistent state stands for no source
/// register.
pub proof fn lemma_unmapped_beyond(c: RTLCompiler, obj: RhifObject, o: Operand)
    requires
        c.inv(obj),
        o is Register,
        o->Register_0.0 >= c.registers@.len(),
    ensures
        unmapped(c, o),
{
    assert forall|r: int| 0 <= r < c.reg_map@.len() implies #[trigger] c.reg_map@[r] != Some(o) by {
        assert(c.reg_ok(obj, r));
    }
}

/// A register that already existed and stood for no source register still
/// stands for none after the state grows: source registers placed later get
/// new registers.
pub proof fn lemma_unmapped_stable(a: RTLCompiler, b: RTLCompiler, o: Operand)
    requires
        b.extends(a),
        unmapped(a, o),
        o is Register,
        o->Register_0.0 < a.registers@.len(),
    ensures
        unmapped(b, o),
{
    assert forall|r: int| 0 <= r < b.reg_map@.len() implies #[trigger] b.reg_map@[r] != Some(o) by {
        assert(a.reg_map@[r] != Some(o));
        if a.reg_map@[r] is Some {
            assert(b.reg_map@[r] == a.reg_map@[r]);
        }
    }
}

pub proof fn lemma_extends_refl(a: RTLCompiler)
    ensures
        a.extends(a),
{
}

impl RTLCompiler {
    /// The operands of the non-empty slots of a list.
    fn make_operand_list(&mut self, obj: &RhifObject, args: &Vec<Slot>) -> (r: Vec<Operand>)
        requires
            old(self).inv(*obj),
            slots_known(*obj, args@),
        ensures
            final(self).inv(*obj),
            final(self).extends(*old(self)),
            final(self).ops == old(self).ops,
            all_mapped(*final(self), args@),
            r@ == nonempty_operands(*final(self), args@),
            forall|j: int| 0 <= j < r@.len() ==> final(self).has(#[trigger] r@[j]),
    {
        let mut out: Vec<Operand> = Vec::new();
        let mut i: usize = 0;
        proof {
            lemma_extends_refl(*self);
        }
        while i < args.len()
            invariant
                i <= args.len(),
                self.inv(*obj),
                self.extends(*old(self)),
                self.ops == old(self).ops,
                slots_known(*obj, args@),
                all_mapped(*self, args@.take(i as int)),
                out@ == nonempty_operands(*self, args@.take(i as int)),
                forall|j: int| 0 <= j < out@.len() ==> self.has(#[trigger] out@[j]),
            decreases args.len() - i,
        {
            let ghost before = *self;
            let a = args[i];
            proof {
                assert(args@.take(i + 1).drop_last() =~= args@.take(i as int));
                assert(args@.take(i + 1).last() == a);
            }
            if !a.is_empty() {
                let o = self.operand(obj, a);
                proof {
                    lemma_nonempty_operands_stable(before, *self, args@.take(i as int));
                    lemma_extends_trans(*old(self), before, *self);
                    assert forall|j: int| 0 <= j < out@.len() implies self.has(#[trigger] out@[j]) by {
                        assert(before.has(out@[j]));
                    }
                    assert forall|j: int| 0 <= j < args@.take(i + 1).len() implies (!((#[trigger] args@.take(i + 1)[j]) is Empty)
                        ==> self.mapped(args@.take(i + 1)[j]) is Some) by {
                        if j < i {
                            assert(args@.take(i + 1)[j] == args@.take(i as int)[j]);
                        }
                    }
                }
                out.push(o);
            } else {
                proof {
                    assert forall|j: int| 0 <= j < args@.take(i + 1).len() implies (!((#[trigger] args@.take(i + 1)[j]) is Empty)
                        ==> self.mapped(args@.take(i + 1)[j]) is Some) by {
                        if j < i {
                            assert(args@.take(i + 1)[j] == args@.take(i as int)[j]);
                        }
                    }
                }
            }
            i += 1;
        }
        proof {
            assert(args@.take(args@.len() as int) =~= args@);
        }
        out
    }
}


/// The opcodes emitted since state `a`.
pub open spec fn emitted(a: RTLCompiler, b: RTLCompiler) -> Seq<LocatedOpCode> {
    b.ops@.skip(a.ops@.len() as int)
}

/// The source slot is present (or empty).
pub open spec fn known(obj: RhifObject, s: Slot) -> bool {
    s is Empty || obj.slot_ok(s)
}

/// `seg` is one opcode that `c` places at node `id`.
pub open spec fn single(seg: Seq<LocatedOpCode>, c: RTLCompiler, op: OpCode, id: NodeId) -> bool {
    seg.len() == 1 && seg[0] == at(op, id, c.fn_id)
}

/// A concatenation of the operands of the non-empty slots into `lhs`.
pub open spec fn concat_of(seg: Seq<LocatedOpCode>, c: RTLCompiler, lhs: Slot, ss: Seq<Slot>, id: NodeId) -> bool {
    &&& seg.len() == 1
    &&& seg[0].id == id
    &&& seg[0].func == c.fn_id
    &&& seg[0].op matches OpCode::Concat(k) && k.lhs == c.opnd(lhs) && k.args@ == nonempty_operands(c, ss)
}

impl RTLCompiler {
    /// Emits a copy `lhs <- rhs` of two placed operands... of two slots.
    fn make_assign(&mut self, obj: &RhifObject, x: &hf::Assign, id: NodeId)
        requires
            old(self).inv(*obj),
            known(*obj, x.lhs),
            known(*obj, x.rhs),
        ensures
            final(self).inv(*obj),
            final(self).extends(*old(self)),
            if !(x.lhs is Empty) && !(x.rhs is Empty) {
                single(
                    emitted(*old(self), *final(self)),
                    *final(self),
                    OpCode::Assign(tl::Assign { lhs: final(self).opnd(x.lhs), rhs: final(self).opnd(x.rhs) }),
                    id,
                )
            } else {
                *final(self) == *old(self)
            },
    {
        if !x.lhs.is_empty() && !x.rhs.is_empty() {
            let ghost s0 = *self;
            let lhs = self.operand(obj, x.lhs);
            let ghost s1 = *self;
            let rhs = self.operand(obj, x.rhs);
            proof {
                lemma_mapped_stable(s1, *self, x.lhs);
            }
            let ghost s2 = *self;
            self.lop(Ghost(*obj), OpCode::Assign(tl::Assign { lhs, rhs }), id);
            proof {
                lemma_extends_trans(s0, s1, s2);
                lemma_extends_trans(s0, s2, *self);
                assert(emitted(s0, *self) =~= seq![at(OpCode::Assign(tl::Assign { lhs, rhs }), id, self.fn_id)]);
            }
        }
    }
}


impl RTLCompiler {
    fn make_binary(&mut self, obj: &RhifObject, x: &hf::Binary, id: NodeId)
        requires
            old(self).inv(*obj),
            known(*obj, x.lhs),
            !(x.lhs is Empty) ==> obj.slot_ok(x.arg1) && obj.slot_ok(x.arg2) && !(x.arg1 is Empty)
                && !(x.arg2 is Empty),
        ensures
            final(self).inv(*obj),
            final(self).extends(*old(self)),
            if !(x.lhs is Empty) {
                single(
                    emitted(*old(self), *final(self)),
                    *final(self),
                    OpCode::Binary(
                        tl::Binary {
                            lhs: final(self).opnd(x.lhs),
                            op: x.op,
                            arg1: final(self).opnd(x.arg1),
                            arg2: final(self).opnd(x.arg2),
                        },
                    ),
                    id,
                )
            } else {
                *final(self) == *old(self)
            },
    {
        if !x.lhs.is_empty() {
            let ghost s0 = *self;
            let lhs = self.operand(obj, x.lhs);
            let ghost s1 = *self;
            let arg1 = self.operand(obj, x.arg1);
            let ghost s2 = *self;
            let arg2 = self.operand(obj, x.arg2);
            let ghost s3 = *self;
            proof {
                lemma_extends_trans(s0, s1, s2);
                lemma_extends_trans(s0, s2, s3);
                lemma_extends_trans(s1, s2, s3);
                lemma_mapped_stable(s1, s3, x.lhs);
                lemma_mapped_stable(s2, s3, x.arg1);
            }
            let op = OpCode::Binary(tl::Binary { lhs, op: x.op, arg1, arg2 });
            self.lop(Ghost(*obj), op, id);
            proof {
                lemma_extends_trans(s0, s3, *self);
                assert(emitted(s0, *self) =~= seq![at(op, id, self.fn_id)]);
            }
        }
    }

    fn make_unary(&mut self, obj: &RhifObject, x: &hf::Unary, id: NodeId)
        requires
            old(self).inv(*obj),
            known(*obj, x.lhs),
            !(x.lhs is Empty) ==> obj.slot_ok(x.arg1) && !(x.arg1 is Empty),
        ensures
            final(self).inv(*obj),
            final(self).extends(*old(self)),
            if !(x.lhs is Empty) {
                single(
                    emitted(*old(self), *final(self)),
                    *final(self),
                    OpCode::Unary(
                        tl::Unary {
                            lhs: final(self).opnd(x.lhs),
                            op: x.op,
                            arg1: final(self).opnd(x.arg1),
                        },
                    ),
                    id,
                )
            } else {
                *final(self) == *old(self)
            },
    {
        if !x.lhs.is_empty() {
            let ghost s0 = *self;
            let lhs = self.operand(obj, x.lhs);
            let ghost s1 = *self;
            let arg1 = self.operand(obj, x.arg1);
            let ghost s2 = *self;
            proof {
                lemma_extends_trans(s0, s1, s2);
                lemma_mapped_stable(s1, s2, x.lhs);
            }
            let op = OpCode::Unary(tl::Unary { lhs, op: x.op, arg1 });
            self.lop(Ghost(*obj), op, id);
            proof {
                lemma_extends_trans(s0, s2, *self);
                assert(emitted(s0, *self) =~= seq![at(op, id, self.fn_id)]);
            }
        }
    }

    fn make_select(&mut self, obj: &RhifObject, x: &hf::Select, id: NodeId)
        requires
            old(self).inv(*obj),
            known(*obj, x.lhs),
            !(x.lhs is Empty) ==> obj.slot_ok(x.cond) && obj.slot_ok(x.true_value) && obj.slot_ok(
                x.false_value,
            ) && !(x.cond is Empty) && !(x.true_value is Empty) && !(x.false_value is Empty),
        ensures
            final(self).inv(*obj),
            final(self).extends(*old(self)),
            if !(x.lhs is Empty) {
                single(
                    emitted(*old(self), *final(self)),
                    *final(self),
                    OpCode::Select(
                        tl::Select {
                            lhs: final(self).opnd(x.lhs),
                            cond: final(self).opnd(x.cond),
                            true_value: final(self).opnd(x.true_value),
                            false_value: final(self).opnd(x.false_value),
                        },
                    ),
                    id,
                )
            } else {
                *final(self) == *old(self)
            },
    {
        if !x.lhs.is_empty() {
            let ghost s0 = *self;
            let lhs = self.operand(obj, x.lhs);
            let ghost s1 = *self;
            let cond = self.operand(obj, x.cond);
            let ghost s2 = *self;
            let true_value = self.operand(obj, x.true_value);
            let ghost s3 = *self;
            let false_value = self.operand(obj, x.false_value);
            let ghost s4 = *self;
            proof {
                lemma_extends_trans(s0, s1, s2);
                lemma_extends_trans(s0, s2, s3);
                lemma_extends_trans(s0, s3, s4);
                lemma_extends_trans(s1, s2, s3);
                lemma_extends_trans(s1, s3, s4);
                lemma_extends_trans(s2, s3, s4);
                lemma_mapped_stable(s1, s4, x.lhs);
                lemma_mapped_stable(s2, s4, x.cond);
                lemma_mapped_stable(s3, s4, x.true_value);
            }
            let op = OpCode::Select(tl::Select { lhs, cond, true_value, false_value });
            self.lop(Ghost(*obj), op, id);
            proof {
                lemma_extends_trans(s0, s4, *self);
                assert(emitted(s0, *self) =~= seq![at(op, id, self.fn_id)]);
            }
        }
    }

    /// A retime only changes the clock domain: it lowers to a copy.
    fn make_retime(&mut self, obj: &RhifObject, x: &hf::Retime, id: NodeId)
        requires
            old(self).inv(*obj),
            known(*obj, x.lhs),
            !(x.lhs is Empty) ==> obj.slot_ok(x.arg) && !(x.arg is Empty),
        ensures
            final(self).inv(*obj),
            final(self).extends(*old(self)),
            if !(x.lhs is Empty) {
                single(
                    emitted(*old(self), *final(self)),
                    *final(self),
                    OpCode::Assign(tl::Assign { lhs: final(self).opnd(x.lhs), rhs: final(self).opnd(x.arg) }),
                    id,
                )
            } else {
                *final(self) == *old(self)
            },
    {
        if !x.lhs.is_empty() {
            let ghost s0 = *self;
            let lhs = self.operand(obj, x.lhs);
            let ghost s1 = *self;
            let rhs = self.operand(obj, x.arg);
            let ghost s2 = *self;
            proof {
                lemma_extends_trans(s0, s1, s2);
                lemma_mapped_stable(s1, s2, x.lhs);
            }
            let op = OpCode::Assign(tl::Assign { lhs, rhs });
            self.lop(Ghost(*obj), op, id);
            proof {
                lemma_extends_trans(s0, s2, *self);
                assert(emitted(s0, *self) =~= seq![at(op, id, self.fn_id)]);
            }
        }
    }

    /// A repeat lowers to the value concatenated `len` times.
    fn make_repeat(&mut self, obj: &RhifObject, x: &hf::Repeat, id: NodeId)
        requires
            old(self).inv(*obj),
            known(*obj, x.lhs),
            !(x.lhs is Empty) ==> obj.slot_ok(x.value) && !(x.value is Empty),
        ensures
            final(self).inv(*obj),
            final(self).extends(*old(self)),
            if !(x.lhs is Empty) {
                let seg = emitted(*old(self), *final(self));
                &&& seg.len() == 1
                &&& seg[0].id == id
                &&& seg[0].func == final(self).fn_id
                &&& seg[0].op matches OpCode::Concat(k) && k.lhs == final(self).opnd(x.lhs)
                    && k.args@ == Seq::new((x.len as usize) as nat, |i: int| final(self).opnd(x.value))
            } else {
                *final(self) == *old(self)
            },
    {
        if !x.lhs.is_empty() {
            let ghost s0 = *self;
            let lhs = self.operand(obj, x.lhs);
            let ghost s1 = *self;
            let arg = self.operand(obj, x.value);
            let ghost s2 = *self;
            proof {
                lemma_extends_trans(s0, s1, s2);
                lemma_mapped_stable(s1, s2, x.lhs);
            }
            let n = x.len as usize;
            let mut args: Vec<Operand> = Vec::new();
            let mut i: usize = 0;
            while i < n
                invariant
                    i <= n,
                    args@ == Seq::new(i as nat, |j: int| arg),
                decreases n - i,
            {
                args.push(arg);
                i += 1;
                proof {
                    assert(args@ =~= Seq::new(i as nat, |j: int| arg));
                }
            }
            let ghost a = args@;
            let op = OpCode::Concat(tl::Concat { lhs, args });
            proof {
                assert(op_in(op, self.literals@.len() as nat, self.registers@.len() as nat)) by {
                    assert forall|j: int| 0 <= j < crate::rtl::object::op_operands(op).len() implies operand_in(
                        #[trigger] crate::rtl::object::op_operands(op)[j],
                        self.literals@.len() as nat,
                        self.registers@.len() as nat,
                    ) by {
                        if j > 0 {
                            assert(crate::rtl::object::op_operands(op)[j] == a[j - 1]);
                        }
                    }
                }
            }
            self.lop(Ghost(*obj), op, id);
            proof {
                lemma_extends_trans(s0, s2, *self);
                assert(emitted(s0, *self) =~= seq![at(op, id, self.fn_id)]);
            }
        }
    }
}


pub open spec fn cast_kind_of(op: hf::OpCode) -> tl::CastKind {
    match op {
        hf::OpCode::AsSigned(_) => tl::CastKind::Signed,
        hf::OpCode::Resize(_) => tl::CastKind::Resize,
        _ => tl::CastKind::Unsigned,
    }
}

impl RTLCompiler {
    /// A cast to the length it names; fails when the length is missing.
    fn make_cast(&mut self, obj: &RhifObject, x: &hf::Cast, kind: tl::CastKind, id: NodeId) -> (r: Result<(), RHDLError>)
        requires
            old(self).inv(*obj),
            known(*obj, x.lhs),
            known(*obj, x.arg),
        ensures
            final(self).inv(*obj),
            final(self).extends(*old(self)),
            r is Ok <==> x.len is Some,
            r matches Err(e) ==> e == (RHDLError::Compile { cause: ICE::BitCastMissingRequiredLength, id }),
            r is Ok ==> if !(x.lhs is Empty) && !(x.arg is Empty) {
                single(
                    emitted(*old(self), *final(self)),
                    *final(self),
                    OpCode::Cast(
                        tl::Cast {
                            lhs: final(self).opnd(x.lhs),
                            arg: final(self).opnd(x.arg),
                            len: x.len->Some_0,
                            kind,
                        },
                    ),
                    id,
                )
            } else {
                *final(self) == *old(self)
            },
    {
        let len = match x.len {
            Some(n) => n,
            None => {
                return Err(RHDLError::Compile { cause: ICE::BitCastMissingRequiredLength, id });
            },
        };
        if !x.lhs.is_empty() && !x.arg.is_empty() {
            let ghost s0 = *self;
            let lhs = self.operand(obj, x.lhs);
            let ghost s1 = *self;
            let arg = self.operand(obj, x.arg);
            let ghost s2 = *self;
            proof {
                lemma_extends_trans(s0, s1, s2);
                lemma_mapped_stable(s1, s2, x.lhs);
            }
            let op = OpCode::Cast(tl::Cast { lhs, arg, len, kind });
            self.lop(Ghost(*obj), op, id);
            proof {
                lemma_extends_trans(s0, s2, *self);
                assert(emitted(s0, *self) =~= seq![at(op, id, self.fn_id)]);
            }
        }
        Ok(())
    }

    fn make_as_bits(&mut self, obj: &RhifObject, x: &hf::Cast, id: NodeId) -> (r: Result<(), RHDLError>)
        requires
            old(self).inv(*obj),
            known(*obj, x.lhs),
            known(*obj, x.arg),
        ensures
            final(self).inv(*obj),
            final(self).extends(*old(self)),
            r is Ok <==> x.len is Some,
            r matches Err(e) ==> e == (RHDLError::Compile { cause: ICE::BitCastMissingRequiredLength, id }),
            r is Ok ==> if !(x.lhs is Empty) && !(x.arg is Empty) {
                single(
                    emitted(*old(self), *final(self)),
                    *final(self),
                    OpCode::Cast(
                        tl::Cast {
                            lhs: final(self).opnd(x.lhs),
                            arg: final(self).opnd(x.arg),
                            len: x.len->Some_0,
                            kind: tl::CastKind::Unsigned,
                        },
                    ),
                    id,
                )
            } else {
                *final(self) == *old(self)
            },
    {
        self.make_cast(obj, x, tl::CastKind::Unsigned, id)
    }

    fn make_as_signed(&mut self, obj: &RhifObject, x: &hf::Cast, id: NodeId) -> (r: Result<(), RHDLError>)
        requires
            old(self).inv(*obj),
            known(*obj, x.lhs),
            known(*obj, x.arg),
        ensures
            final(self).inv(*obj),
            final(self).extends(*old(self)),
            r is Ok <==> x.len is Some,
            r matches Err(e) ==> e == (RHDLError::Compile { cause: ICE::BitCastMissingRequiredLength, id }),
            r is Ok ==> if !(x.lhs is Empty) && !(x.arg is Empty) {
                single(
                    emitted(*old(self), *final(self)),
                    *final(self),
                    OpCode::Cast(
                        tl::Cast {
                            lhs: final(self).opnd(x.lhs),
                            arg: final(self).opnd(x.arg),
                            len: x.len->Some_0,
                            kind: tl::CastKind::Signed,
                        },
                    ),
                    id,
                )
            } else {
                *final(self) == *old(self)
            },
    {
        self.make_cast(obj, x, tl::CastKind::Signed, id)
    }

    fn make_resize(&mut self, obj: &RhifObject, x: &hf::Cast, id: NodeId) -> (r: Result<(), RHDLError>)
        requires
            old(self).inv(*obj),
            known(*obj, x.lhs),
            known(*obj, x.arg),
        ensures
            final(self).inv(*obj),
            final(self).extends(*old(self)),
            r is Ok <==> x.len is Some,
            r matches Err(e) ==> e == (RHDLError::Compile { cause: ICE::BitCastMissingRequiredLength, id }),
            r is Ok ==> if !(x.lhs is Empty) && !(x.arg is Empty) {
                single(
                    emitted(*old(self), *final(self)),
                    *final(self),
                    OpCode::Cast(
                        tl::Cast {
                            lhs: final(self).opnd(x.lhs),
                            arg: final(self).opnd(x.arg),
                            len: x.len->Some_0,
                            kind: tl::CastKind::Resize,
                        },
                    ),
                    id,
                )
            } else {
                *final(self) == *old(self)
            },
    {
        self.make_cast(obj, x, tl::CastKind::Resize, id)
    }

    /// Concatenates the non-empty slots into `lhs` (arrays and tuples).
    fn make_concat(&mut self, obj: &RhifObject, lhs: Slot, parts: &Vec<Slot>, id: NodeId)
        requires
            old(self).inv(*obj),
            known(*obj, lhs),
            slots_known(*obj, parts@),
        ensures
            final(self).inv(*obj),
            final(self).extends(*old(self)),
            if !(lhs is Empty) {
                concat_of(emitted(*old(self), *final(self)), *final(self), lhs, parts@, id)
            } else {
                *final(self) == *old(self)
            },
    {
        if !lhs.is_empty() {
            let ghost s0 = *self;
            let l = self.operand(obj, lhs);
            let ghost s1 = *self;
            let args = self.make_operand_list(obj, parts);
            let ghost s2 = *self;
            proof {
                lemma_extends_trans(s0, s1, s2);
                lemma_mapped_stable(s1, s2, lhs);
            }
            let ghost a = args@;
            let op = OpCode::Concat(tl::Concat { lhs: l, args });
            proof {
                assert forall|j: int| 0 <= j < crate::rtl::object::op_operands(op).len() implies operand_in(
                    #[trigger] crate::rtl::object::op_operands(op)[j],
                    self.literals@.len() as nat,
                    self.registers@.len() as nat,
                ) by {
                    if j > 0 {
                        assert(crate::rtl::object::op_operands(op)[j] == a[j - 1]);
                        assert(self.has(a[j - 1]));
                    }
                }
            }
            self.lop(Ghost(*obj), op, id);
            proof {
                lemma_extends_trans(s0, s2, *self);
                lemma_nonempty_operands_stable(s2, *self, parts@);
                assert(emitted(s0, *self) =~= seq![at(op, id, self.fn_id)]);
            }
        }
    }

    fn make_array(&mut self, obj: &RhifObject, x: &hf::Array, id: NodeId)
        requires
            old(self).inv(*obj),
            known(*obj, x.lhs),
            slots_known(*obj, x.elements@),
        ensures
            final(self).inv(*obj),
            final(self).extends(*old(self)),
            if !(x.lhs is Empty) {
                concat_of(emitted(*old(self), *final(self)), *final(self), x.lhs, x.elements@, id)
            } else {
                *final(self) == *old(self)
            },
    {
        self.make_concat(obj, x.lhs, &x.elements, id)
    }

    fn make_tuple(&mut self, obj: &RhifObject, x: &hf::Tuple, id: NodeId)
        requires
            old(self).inv(*obj),
            known(*obj, x.lhs),
            slots_known(*obj, x.fields@),
        ensures
            final(self).inv(*obj),
            final(self).extends(*old(self)),
            if !(x.lhs is Empty) {
                concat_of(emitted(*old(self), *final(self)), *final(self), x.lhs, x.fields@, id)
            } else {
                *final(self) == *old(self)
            },
    {
        self.make_concat(obj, x.lhs, &x.fields, id)
    }
}


/// The lowered pattern of a case entry.
pub open spec fn pattern_of(c: RTLCompiler, a: hf::CaseArgument) -> tl::CaseArgument {
    match a {
        hf::CaseArgument::Slot(s) => tl::CaseArgument::Literal(c.opnd(s)->Literal_0),
        hf::CaseArgument::Wild => tl::CaseArgument::Wild,
    }
}

/// The slot of a literal pattern is present.
pub open spec fn pattern_known(obj: RhifObject, a: hf::CaseArgument) -> bool {
    match a {
        hf::CaseArgument::Slot(s) => s is Literal ==> obj.slot_ok(s),
        hf::CaseArgument::Wild => true,
    }
}

/// The pattern is a literal or a wildcard.
pub open spec fn pattern_ok(a: hf::CaseArgument) -> bool {
    match a {
        hf::CaseArgument::Slot(s) => s is Literal,
        hf::CaseArgument::Wild => true,
    }
}

/// The slot of the pattern (if any) has been placed.
pub open spec fn pattern_mapped(c: RTLCompiler, a: hf::CaseArgument) -> bool {
    match a {
        hf::CaseArgument::Slot(s) => c.mapped(s) is Some,
        hf::CaseArgument::Wild => true,
    }
}

/// The literal of a lowered pattern (if any) exists.
pub open spec fn pattern_has(c: RTLCompiler, a: tl::CaseArgument) -> bool {
    match a {
        tl::CaseArgument::Literal(l) => c.has(Operand::Literal(l)),
        tl::CaseArgument::Wild => true,
    }
}

/// Every pattern of the table is a literal or a wildcard.
pub open spec fn patterns_literal(t: Seq<(hf::CaseArgument, Slot)>) -> bool {
    forall|i: int| 0 <= i < t.len() ==> pattern_ok((#[trigger] t[i]).0)
}

/// The slots of a case table that the lowering reads are present and not empty.
pub open spec fn table_known(obj: RhifObject, t: Seq<(hf::CaseArgument, Slot)>) -> bool {
    forall|i: int|
        0 <= i < t.len() ==> obj.slot_ok((#[trigger] t[i]).1) && !(t[i].1 is Empty) && pattern_known(obj, t[i].0)
}

impl RTLCompiler {
    fn make_case_argument(&mut self, obj: &RhifObject, arg: &hf::CaseArgument, id: NodeId) -> (r: Result<tl::CaseArgument, RHDLError>)
        requires
            old(self).inv(*obj),
            pattern_known(*obj, *arg),
        ensures
            final(self).inv(*obj),
            final(self).extends(*old(self)),
            final(self).ops == old(self).ops,
            r is Ok <==> pattern_ok(*arg),
            r matches Err(e) ==> e == (RHDLError::Compile { cause: ICE::MatchPatternValueMustBeLiteral, id }),
            r matches Ok(p) ==> p == pattern_of(*final(self), *arg) && pattern_mapped(*final(self), *arg) && pattern_has(*final(self), p),
    {
        match arg {
            hf::CaseArgument::Slot(slot) => {
                if !slot.is_literal() {
                    return Err(RHDLError::Compile { cause: ICE::MatchPatternValueMustBeLiteral, id });
                }
                let operand = self.operand(obj, *slot);
                match operand {
                    Operand::Literal(l) => Ok(tl::CaseArgument::Literal(l)),
                    Operand::Register(_) => {
                        proof {
                            if let Slot::Literal(l) = *slot {
                                assert(self.lit_ok(*obj, l.0 as int));
                            }
                        }
                        Err(RHDLError::Compile { cause: ICE::MatchPatternValueMustBeLiteral, id })
                    },
                }
            },
            hf::CaseArgument::Wild => {
                proof {
                    lemma_extends_refl(*self);
                }
                Ok(tl::CaseArgument::Wild)
            },
        }
    }

    fn make_case(&mut self, obj: &RhifObject, x: &hf::Case, id: NodeId) -> (r: Result<(), RHDLError>)
        requires
            old(self).inv(*obj),
            known(*obj, x.lhs),
            !(x.lhs is Empty) ==> obj.slot_ok(x.discriminant) && !(x.discriminant is Empty)
                && table_known(*obj, x.table@),
        ensures
            final(self).inv(*obj),
            final(self).extends(*old(self)),
            r is Ok <==> (x.lhs is Empty || patterns_literal(x.table@)),
            r matches Err(e) ==> e == (RHDLError::Compile { cause: ICE::MatchPatternValueMustBeLiteral, id }),
            r is Ok ==> if !(x.lhs is Empty) {
                let seg = emitted(*old(self), *final(self));
                let c = *final(self);
                &&& seg.len() == 1
                &&& seg[0].id == id
                &&& seg[0].func == c.fn_id
                &&& seg[0].op matches OpCode::Case(k) && k.lhs == c.opnd(x.lhs) && k.discriminant
                    == c.opnd(x.discriminant) && k.table@.len() == x.table@.len() && forall|i: int|
                    0 <= i < x.table@.len() ==> #[trigger] k.table@[i] == (
                        pattern_of(c, x.table@[i].0),
                        c.opnd(x.table@[i].1),
                    )
            } else {
                *final(self) == *old(self)
            },
    {
        if x.lhs.is_empty() {
            return Ok(());
        }
        let ghost s0 = *self;
        let lhs = self.operand(obj, x.lhs);
        let ghost s1 = *self;
        let disc = self.operand(obj, x.discriminant);
        let ghost s2 = *self;
        proof {
            lemma_extends_trans(s0, s1, s2);
            lemma_mapped_stable(s1, s2, x.lhs);
        }
        let mut table: Vec<(tl::CaseArgument, Operand)> = Vec::new();
        let mut i: usize = 0;
        while i < x.table.len()
            invariant
                i <= x.table.len(),
                self.inv(*obj),
                self.extends(s2),
                s2.extends(s0),
                s0 == *old(self),
                self.ops == s2.ops,
                table_known(*obj, x.table@),
                self.mapped(x.lhs) == Some(lhs),
                self.mapped(x.discriminant) == Some(disc),
                self.has(lhs),
                self.has(disc),
                table@.len() == i,
                forall|k: int| 0 <= k < i ==> pattern_ok((#[trigger] x.table@[k]).0),
                forall|k: int|
                    0 <= k < i ==> #[trigger] table@[k] == (
                        pattern_of(*self, x.table@[k].0),
                        self.opnd(x.table@[k].1),
                    ) && self.mapped(x.table@[k].1) is Some && pattern_mapped(*self, x.table@[k].0),
                forall|k: int| 0 <= k < i ==> self.has((#[trigger] table@[k]).1) && pattern_has(*self, table@[k].0),
            decreases x.table.len() - i,
        {
            let ghost before = *self;
            let (cond, val) = &x.table[i];
            let p = match self.make_case_argument(obj, cond, id) {
                Ok(p) => p,
                Err(e) => {
                    proof {
                        lemma_extends_trans(s2, before, *self);
                        lemma_extends_trans(s0, s2, *self);
                        assert(!patterns_literal(x.table@));
                    }
                    return Err(e);
                },
            };
            let ghost mid = *self;
            let v = self.operand(obj, *val);
            proof {
                lemma_extends_trans(before, mid, *self);
                lemma_extends_trans(s2, before, *self);
                lemma_mapped_stable(before, *self, x.lhs);
                lemma_mapped_stable(before, *self, x.discriminant);
                if let hf::CaseArgument::Slot(sl) = *cond {
                    lemma_mapped_stable(mid, *self, sl);
                }
                assert forall|k: int|
                    0 <= k < i implies #[trigger] table@[k] == (
                        pattern_of(*self, x.table@[k].0),
                        self.opnd(x.table@[k].1),
                    ) && self.mapped(x.table@[k].1) is Some && pattern_mapped(*self, x.table@[k].0) by {
                    lemma_mapped_stable(before, *self, x.table@[k].1);
                    if let hf::CaseArgument::Slot(sl) = x.table@[k].0 {
                        lemma_mapped_stable(before, *self, sl);
                    }
                }
            }
            table.push((p, v));
            i += 1;
        }
        let ghost t = table@;
        let op = OpCode::Case(tl::Case { lhs, discriminant: disc, table });
        proof {
            assert forall|j: int| 0 <= j < crate::rtl::object::op_operands(op).len() implies operand_in(
                #[trigger] crate::rtl::object::op_operands(op)[j],
                self.literals@.len() as nat,
                self.registers@.len() as nat,
            ) by {
                lemma_case_operands_in(*self, lhs, disc, t, j);
            }
        }
        let ghost s3 = *self;
        self.lop(Ghost(*obj), op, id);
        proof {
            lemma_extends_trans(s0, s3, *self);
            assert(emitted(s0, *self) =~= seq![at(op, id, self.fn_id)]);
        }
        Ok(())
    }
}

proof fn lemma_case_operands_in(c: RTLCompiler, lhs: Operand, disc: Operand, t: Seq<(tl::CaseArgument, Operand)>, j: int)
    requires
        c.has(lhs),
        c.has(disc),
        forall|k: int| 0 <= k < t.len() ==> c.has((#[trigger] t[k]).1) && pattern_has(c, t[k].0),
        0 <= j < (seq![lhs, disc] + t.map_values(|e: (tl::CaseArgument, Operand)| e.1) + crate::rtl::object::case_literals(t)).len(),
    ensures
        c.has((seq![lhs, disc] + t.map_values(|e: (tl::CaseArgument, Operand)| e.1) + crate::rtl::object::case_literals(t))[j]),
{
    let vals = t.map_values(|e: (tl::CaseArgument, Operand)| e.1);
    let all = seq![lhs, disc] + vals + crate::rtl::object::case_literals(t);
    if j >= 2 + vals.len() {
        lemma_case_literals_has(c, t, j - 2 - vals.len());
    } else if j >= 2 {
        assert(all[j] == t[j - 2].1);
    }
}

proof fn lemma_case_literals_has(c: RTLCompiler, t: Seq<(tl::CaseArgument, Operand)>, j: int)
    requires
        forall|k: int| 0 <= k < t.len() ==> pattern_has(c, (#[trigger] t[k]).0),
        0 <= j < crate::rtl::object::case_literals(t).len(),
    ensures
        c.has(crate::rtl::object::case_literals(t)[j]),
    decreases t.len(),
{
    let cl = crate::rtl::object::case_literals(t);
    let pre = crate::rtl::object::case_literals(t.drop_last());
    assert forall|k: int| 0 <= k < t.drop_last().len() implies pattern_has(c, (#[trigger] t.drop_last()[k]).0) by {
        assert(t.drop_last()[k] == t[k]);
    }
    match t.last().0 {
        tl::CaseArgument::Literal(l) => {
            assert(t.last() == t[t.len() - 1]);
            if j < pre.len() {
                assert(cl[j] == pre[j]);
                lemma_case_literals_has(c, t.drop_last(), j);
            }
        },
        tl::CaseArgument::Wild => {
            lemma_case_literals_has(c, t.drop_last(), j);
        },
    }
}


/// The path selects something, statically, in the kind of the slot.
pub open spec fn static_range(obj: RhifObject, s: Slot, p: Seq<PathElementView>) -> Option<(nat, nat, KindView)> {
    kv_range(obj.slot_kind(s)->Some_0, p)
}

pub open spec fn range_of(r: Option<(nat, nat, KindView)>) -> core::ops::Range<usize> {
    core::ops::Range { start: r->Some_0.0 as usize, end: r->Some_0.1 as usize }
}

impl RTLCompiler {
    /// A static index: the bits that the path selects.
    fn make_static_index(&mut self, obj: &RhifObject, x: &hf::Index, id: NodeId) -> (r: Result<(), RHDLError>)
        requires
            old(self).inv(*obj),
            !(x.lhs is Empty),
            obj.slot_ok(x.lhs),
            obj.slot_ok(x.arg),
            !(x.arg is Empty),
        ensures
            final(self).inv(*obj),
            final(self).extends(*old(self)),
            r is Ok <==> static_range(*obj, x.arg, x.path@) is Some,
            r matches Err(e) ==> e is InvalidPath,
            r is Ok ==> {
                let seg = emitted(*old(self), *final(self));
                let c = *final(self);
                &&& seg.len() == 1
                &&& seg[0].id == id
                &&& seg[0].func == c.fn_id
                &&& seg[0].op matches OpCode::Index(k) && k.lhs == c.opnd(x.lhs) && k.arg == c.opnd(x.arg)
                    && k.bit_range == range_of(static_range(*obj, x.arg, x.path@))
            },
    {
        let arg_ty = obj.kind(x.arg);
        let (bit_range, _) = match crate::types::path::bit_range(&arg_ty, &x.path) {
            Ok(r) => r,
            Err(e) => {
                proof {
                    lemma_extends_refl(*self);
                }
                return Err(e);
            },
        };
        let ghost s0 = *self;
        let lhs = self.operand(obj, x.lhs);
        let ghost s1 = *self;
        let arg = self.operand(obj, x.arg);
        let ghost s2 = *self;
        proof {
            lemma_extends_trans(s0, s1, s2);
            lemma_mapped_stable(s1, s2, x.lhs);
        }
        let op = OpCode::Index(tl::Index { lhs, arg, bit_range });
        self.lop(Ghost(*obj), op, id);
        proof {
            lemma_extends_trans(s0, s2, *self);
            assert(emitted(s0, *self) =~= seq![at(op, id, self.fn_id)]);
        }
        Ok(())
    }

    /// A static splice: the bits that the path selects are replaced.
    fn make_static_splice(&mut self, obj: &RhifObject, x: &hf::Splice, id: NodeId) -> (r: Result<(), RHDLError>)
        requires
            old(self).inv(*obj),
            !(x.lhs is Empty),
            obj.slot_ok(x.lhs),
            obj.slot_ok(x.orig),
            obj.slot_ok(x.subst),
            !(x.orig is Empty),
            !(x.subst is Empty),
        ensures
            final(self).inv(*obj),
            final(self).extends(*old(self)),
            r is Ok <==> static_range(*obj, x.orig, x.path@) is Some,
            r matches Err(e) ==> e is InvalidPath,
            r is Ok ==> {
                let seg = emitted(*old(self), *final(self));
                let c = *final(self);
                &&& seg.len() == 1
                &&& seg[0].id == id
                &&& seg[0].func == c.fn_id
                &&& seg[0].op matches OpCode::Splice(k) && k.lhs == c.opnd(x.lhs) && k.orig == c.opnd(x.orig)
                    && k.value == c.opnd(x.subst) && k.bit_range == range_of(static_range(*obj, x.orig, x.path@))
            },
    {
        let orig_ty = obj.kind(x.orig);
        let (bit_range, _) = match crate::types::path::bit_range(&orig_ty, &x.path) {
            Ok(r) => r,
            Err(e) => {
                proof {
                    lemma_extends_refl(*self);
                }
                return Err(e);
            },
        };
        let ghost s0 = *self;
        let lhs = self.operand(obj, x.lhs);
        let ghost s1 = *self;
        let orig = self.operand(obj, x.orig);
        let ghost s2 = *self;
        let value = self.operand(obj, x.subst);
        let ghost s3 = *self;
        proof {
            lemma_extends_trans(s0, s1, s2);
            lemma_extends_trans(s0, s2, s3);
            lemma_extends_trans(s1, s2, s3);
            lemma_mapped_stable(s1, s3, x.lhs);
            lemma_mapped_stable(s2, s3, x.orig);
        }
        let op = OpCode::Splice(tl::Splice { lhs, orig, bit_range, value });
        self.lop(Ghost(*obj), op, id);
        proof {
            lemma_extends_trans(s0, s3, *self);
            assert(emitted(s0, *self) =~= seq![at(op, id, self.fn_id)]);
        }
        Ok(())
    }
}


/// Every member set by a struct value selects something in the template's kind.
pub open spec fn members_valid(k: KindView, fs: Seq<hf::FieldValue>) -> bool {
    forall|i: int|
        0 <= i < fs.len() ==> kv_range(k, seq![crate::types::path::member_element((#[trigger] fs[i]).member)]) is Some
}

/// The operand a struct value starts from: the rest value, or (when there is
/// none) the literal emitted first holding the template.
pub open spec fn struct_start(c: RTLCompiler, x: hf::Struct, first: Operand) -> bool {
    match x.rest {
        Some(r) => first == c.opnd(r),
        None => first is Literal && c.has(first) && c.literals@[first->Literal_0.0 as int]@
            == typed_to_bit_string(x.template@),
    }
}

/// Opcode `i` of `seg` splices field `i` of the struct value into a fresh
/// register of kind `k`, starting from `first` for the first field and from
/// the previous register after.  The register is new: numbered from `lo` for
/// the first field and past the previous register after, and it stands for no
/// source register.
pub open spec fn splice_step(c: RTLCompiler, x: hf::Struct, k: KindView, first: Operand, seg: Seq<LocatedOpCode>, i: int, lo: nat) -> bool {
    &&& seg[i].op is Splice
    &&& seg[i].op->Splice_0.orig == (if i == 0 {
        first
    } else {
        seg[i - 1].op->Splice_0.lhs
    })
    &&& seg[i].op->Splice_0.value == c.opnd(x.fields@[i].value)
    &&& seg[i].op->Splice_0.bit_range == range_of(
        kv_range(k, seq![crate::types::path::member_element(x.fields@[i].member)]),
    )
    &&& seg[i].op->Splice_0.lhs is Register
    &&& c.has(seg[i].op->Splice_0.lhs)
    &&& c.registers@[seg[i].op->Splice_0.lhs->Register_0.0 as int] == kind_register(k)
    &&& fresh_reg(c, seg[i].op->Splice_0.lhs, if i == 0 {
        lo
    } else {
        (seg[i - 1].op->Splice_0.lhs->Register_0.0 + 1) as nat
    })
}

/// `seg` splices each field, in order, into a fresh register of the
/// template's kind, starting from `first`, then copies the last into the
/// target.
pub open spec fn struct_chain(seg: Seq<LocatedOpCode>, c: RTLCompiler, x: hf::Struct, first: Operand, id: NodeId, lo: nat) -> bool {
    let n = x.fields@.len();
    &&& seg.len() == n + 1
    &&& forall|i: int| 0 <= i <= n ==> (#[trigger] seg[i]).id == id && seg[i].func == c.fn_id
    &&& forall|i: int| 0 <= i < n ==> #[trigger] splice_step(c, x, x.template.kind@, first, seg, i, lo)
    &&& seg[n as int].op == OpCode::Assign(
        tl::Assign { lhs: c.opnd(x.lhs), rhs: if n == 0 { first } else { seg[n - 1].op->Splice_0.lhs } },
    )
}

/// The fields of a struct value are present and not empty.
pub open spec fn fields_known(obj: RhifObject, fs: Seq<hf::FieldValue>) -> bool {
    forall|i: int| 0 <= i < fs.len() ==> obj.slot_ok((#[trigger] fs[i]).value) && !(fs[i].value is Empty)
}

impl RTLCompiler {
    /// A struct value: the template (or the rest value) with each field
    /// spliced in.
    fn make_struct(&mut self, obj: &RhifObject, x: &hf::Struct, id: NodeId) -> (r: Result<(), RHDLError>)
        requires
            old(self).inv(*obj),
            known(*obj, x.lhs),
            !(x.lhs is Empty) ==> kv_bounded(x.template.kind@) && fields_known(*obj, x.fields@) && (
            x.rest is Some ==> obj.slot_ok(x.rest->Some_0) && !(x.rest->Some_0 is Empty)),
        ensures
            final(self).inv(*obj),
            final(self).extends(*old(self)),
            r is Ok <==> (x.lhs is Empty || members_valid(x.template.kind@, x.fields@)),
            r matches Err(e) ==> e is InvalidPath,
            r is Ok ==> if !(x.lhs is Empty) {
                exists|first: Operand|
                    struct_start(*final(self), *x, first) && struct_chain(
                        emitted(*old(self), *final(self)),
                        *final(self),
                        *x,
                        first,
                        id,
                        old(self).registers@.len() as nat,
                    )
            } else {
                *final(self) == *old(self)
            },
    {
        if x.lhs.is_empty() {
            return Ok(());
        }
        let ghost s0 = *self;
        let lhs = self.operand(obj, x.lhs);
        let kind = crate::types::kind::clone_kind(&x.template.kind);
        let first = match x.rest {
            Some(rest) => self.operand(obj, rest),
            None => self.allocate_literal(Ghost(*obj), &x.template),
        };
        let ghost s1 = *self;
        proof {
            lemma_extends_trans(s0, s0, s1);
            lemma_mapped_stable(s0, s1, x.lhs);
            assert(self.mapped(x.lhs) == Some(lhs));
        }
        let mut rhs = first;
        let mut i: usize = 0;
        while i < x.fields.len()
            invariant
                i <= x.fields.len(),
                self.inv(*obj),
                self.extends(s1),
                s1.extends(s0),
                s0 == *old(self),
                kind@ == x.template.kind@,
                kv_bounded(kind@),
                fields_known(*obj, x.fields@),
                self.mapped(x.lhs) == Some(lhs),
                self.has(lhs),
                self.has(rhs),
                struct_start(*self, *x, first),
                x.rest is Some ==> self.mapped(x.rest->Some_0) is Some,
                forall|k: int| 0 <= k < i ==> self.mapped((#[trigger] x.fields@[k]).value) is Some,
                forall|k: int| 0 <= k < i ==> kv_range(kind@, seq![crate::types::path::member_element((#[trigger] x.fields@[k]).member)]) is Some,
                emitted(s1, *self).len() == i,
                forall|k: int| 0 <= k < i ==> (#[trigger] emitted(s1, *self)[k]).id == id && emitted(s1, *self)[k].func == self.fn_id,
                forall|k: int| 0 <= k < i ==> #[trigger] splice_step(*self, *x, x.template.kind@, first, emitted(s1, *self), k, s0.registers@.len() as nat),
                rhs == if i == 0 { first } else { emitted(s1, *self)[i - 1].op->Splice_0.lhs },
            decreases x.fields.len() - i,
        {
            let ghost before = *self;
            let field = &x.fields[i];
            proof {
                assert(obj.slot_ok(x.fields@[i as int].value));
            }
            let value = self.operand(obj, field.value);
            let path = crate::types::path::Path::new().member(&field.member);
            let (field_range, _) = match crate::types::path::bit_range(&kind, &path) {
                Ok(r) => r,
                Err(e) => {
                    proof {
                        lemma_extends_trans(s1, before, *self);
                        lemma_extends_trans(s0, s1, *self);
                        assert(!members_valid(x.template.kind@, x.fields@)) by {
                            assert(path@ =~= seq![crate::types::path::member_element(x.fields@[i as int].member)]);
                        }
                    }
                    return Err(e);
                },
            };
            proof {
                assert(path@ =~= seq![crate::types::path::member_element(x.fields@[i as int].member)]);
            }
            let ghost mid = *self;
            let reg = self.allocate_register(Ghost(*obj), &kind);
            let op = OpCode::Splice(tl::Splice { lhs: reg, orig: rhs, bit_range: field_range, value });
            let ghost mid2 = *self;
            self.lop(Ghost(*obj), op, id);
            proof {
                lemma_extends_trans(before, mid, mid2);
                lemma_extends_trans(before, mid2, *self);
                lemma_extends_trans(s1, before, *self);
                lemma_mapped_stable(before, *self, x.lhs);
                lemma_mapped_stable(mid, *self, field.value);
                lemma_unmapped_beyond(mid, *obj, reg);
                lemma_unmapped_stable(mid2, *self, reg);
                lemma_extends_trans(s0, s1, before);
                assert(emitted(s1, *self) =~= emitted(s1, before).push(at(op, id, self.fn_id)));
                assert forall|k: int| 0 <= k < i implies self.mapped((#[trigger] x.fields@[k]).value) is Some by {
                    lemma_mapped_stable(before, *self, x.fields@[k].value);
                }
                assert forall|k: int| 0 <= k < i + 1 implies #[trigger] splice_step(*self, *x, x.template.kind@, first, emitted(s1, *self), k, s0.registers@.len() as nat) by {
                    if k < i {
                        assert(emitted(s1, *self)[k] == emitted(s1, before)[k]);
                        assert(splice_step(before, *x, x.template.kind@, first, emitted(s1, before), k, s0.registers@.len() as nat));
                        lemma_mapped_stable(before, *self, x.fields@[k].value);
                        let sp = emitted(s1, before)[k].op->Splice_0;
                        assert(before.registers@[sp.lhs->Register_0.0 as int] == self.registers@[sp.lhs->Register_0.0 as int]);
                        lemma_unmapped_stable(before, *self, sp.lhs);
                        if k > 0 {
                            assert(emitted(s1, *self)[k - 1] == emitted(s1, before)[k - 1]);
                        }
                    } else {
                        assert(reg->Register_0.0 == mid.registers@.len());
                        assert(before.registers@.len() <= mid.registers@.len());
                        if k > 0 {
                            assert(emitted(s1, *self)[k - 1] == emitted(s1, before)[k - 1]);
                            assert(splice_step(before, *x, x.template.kind@, first, emitted(s1, before), k - 1, s0.registers@.len() as nat));
                            assert(rhs->Register_0.0 < before.registers@.len());
                        } else {
                            assert(s0.registers@.len() <= before.registers@.len());
                        }
                    }
                }
                assert forall|k: int| 0 <= k < i + 1 implies (#[trigger] emitted(s1, *self)[k]).id == id && emitted(s1, *self)[k].func == self.fn_id by {
                    if k < i {
                        assert(emitted(s1, *self)[k] == emitted(s1, before)[k]);
                    }
                }
                if let Some(r) = x.rest {
                    assert(struct_start(before, *x, first));
                    lemma_mapped_stable(before, *self, r);
                } else {
                    assert(struct_start(before, *x, first));
                    assert(self.literals@[first->Literal_0.0 as int] == before.literals@[first->Literal_0.0 as int]);
                }
            }
            rhs = reg;
            i += 1;
        }
        let ghost s2 = *self;
        let op = OpCode::Assign(tl::Assign { lhs, rhs });
        self.lop(Ghost(*obj), op, id);
        proof {
            lemma_extends_trans(s0, s1, s2);
            lemma_extends_trans(s0, s2, *self);
            let seg = emitted(s0, *self);
            let pre = emitted(s0, s1);
            assert(pre.len() == 0);
            assert(emitted(s0, *self) =~= emitted(s1, s2).push(at(op, id, self.fn_id)));
            assert forall|k: int| 0 <= k < x.fields@.len() implies self.mapped((#[trigger] x.fields@[k]).value) is Some by {
                lemma_mapped_stable(s2, *self, x.fields@[k].value);
            }
            assert(members_valid(x.template.kind@, x.fields@));
            assert(struct_start(*self, *x, first)) by {
                if let Some(r) = x.rest {
                    lemma_mapped_stable(s2, *self, r);
                }
            }
            assert(struct_chain(seg, *self, *x, first, id, s0.registers@.len() as nat)) by {
                assert forall|k: int| 0 <= k < x.fields@.len() implies (#[trigger] seg[k]) == emitted(s1, s2)[k] by {}
                assert forall|k: int| 0 <= k < x.fields@.len() implies #[trigger] splice_step(*self, *x, x.template.kind@, first, seg, k, s0.registers@.len() as nat) by {
                    assert(seg[k] == emitted(s1, s2)[k]);
                    assert(splice_step(s2, *x, x.template.kind@, first, emitted(s1, s2), k, s0.registers@.len() as nat));
                    lemma_mapped_stable(s2, *self, x.fields@[k].value);
                    lemma_unmapped_stable(s2, *self, seg[k].op->Splice_0.lhs);
                    if k > 0 {
                        assert(seg[k - 1] == emitted(s1, s2)[k - 1]);
                    }
                }
                assert forall|k: int| 0 <= k <= x.fields@.len() implies (#[trigger] seg[k]).id == id && seg[k].func == self.fn_id by {
                    if k < x.fields@.len() {
                        assert(seg[k] == emitted(s1, s2)[k]);
                    }
                }
                if x.fields@.len() > 0 {
                    assert(seg[x.fields@.len() - 1] == emitted(s1, s2)[x.fields@.len() - 1]);
                }
            }
        }
        Ok(())
    }
}


/// The flag stored by a wrap: set for `Ok` and `Some`.
pub open spec fn wrap_tag(op: hf::WrapOp) -> bool {
    op is WrapOk || op is WrapSome
}

/// `o` is a literal of `c` holding the single unsigned bit `b`.
pub open spec fn bit_literal(c: RTLCompiler, o: Operand, b: bool) -> bool {
    &&& o is Literal
    &&& c.has(o)
    &&& c.literals@[o->Literal_0.0 as int]@ == (BitStringView { signed: false, bits: seq![b] })
}

/// `seg` builds the wrapped value: the payload resized into a fresh register
/// of the payload width (one numbered from `base`, the count of registers
/// before, and standing for no source register), concatenated below the flag;
/// a value with no payload is just the flag.
pub open spec fn wrap_lowered(seg: Seq<LocatedOpCode>, c: RTLCompiler, base: nat, x: hf::Wrap, id: NodeId) -> bool {
    let width = (kv_bits(x.kind->Some_0@) - 1) as nat;
    &&& forall|i: int| 0 <= i < seg.len() ==> (#[trigger] seg[i]).id == id && seg[i].func == c.fn_id
    &&& if width != 0 {
        &&& seg.len() == 2
        &&& seg[0].op is Cast
        &&& seg[1].op is Concat
        &&& {
            let cast = seg[0].op->Cast_0;
            let cat = seg[1].op->Concat_0;
            &&& cast.len == width
            &&& cast.kind == tl::CastKind::Resize
            &&& cast.lhs is Register
            &&& c.has(cast.lhs)
            &&& c.registers@[cast.lhs->Register_0.0 as int] == RegisterKind::Unsigned(width as usize)
            &&& cast.lhs->Register_0.0 >= base
            &&& unmapped(c, cast.lhs)
            &&& if x.arg is Empty {
                bit_literal(c, cast.arg, false)
            } else {
                cast.arg == c.opnd(x.arg)
            }
            &&& cat.lhs == c.opnd(x.lhs)
            &&& cat.args@.len() == 2
            &&& cat.args@[0] == cast.lhs
            &&& bit_literal(c, cat.args@[1], wrap_tag(x.op))
        }
    } else {
        &&& seg.len() == 1
        &&& seg[0].op is Assign
        &&& seg[0].op->Assign_0.lhs == c.opnd(x.lhs)
        &&& bit_literal(c, seg[0].op->Assign_0.rhs, wrap_tag(x.op))
    }
}

impl RTLCompiler {
    /// A wrap into `Ok`/`Err`/`Some`/`None`: the payload below a one-bit flag.
    fn make_wrap(&mut self, obj: &RhifObject, x: &hf::Wrap, id: NodeId) -> (r: Result<(), RHDLError>)
        requires
            old(self).inv(*obj),
            x.kind is Some ==> kv_bounded(x.kind->Some_0@) && kv_bits(x.kind->Some_0@) >= 1
                && !(x.lhs is Empty) && obj.slot_ok(x.lhs) && known(*obj, x.arg),
        ensures
            final(self).inv(*obj),
            final(self).extends(*old(self)),
            r is Ok <==> x.kind is Some,
            r matches Err(e) ==> e == (RHDLError::Compile { cause: ICE::WrapMissingKind, id }) && *final(self) == *old(self),
            r is Ok ==> wrap_lowered(emitted(*old(self), *final(self)), *final(self), old(self).registers@.len() as nat, *x, id),
    {
        let kind = match &x.kind {
            Some(k) => k,
            None => {
                proof {
                    lemma_extends_refl(*self);
                }
                return Err(RHDLError::Compile { cause: ICE::WrapMissingKind, id });
            },
        };
        let ghost s0 = *self;
        let tag = match x.op {
            hf::WrapOp::WrapOk | hf::WrapOp::WrapSome => true,
            hf::WrapOp::WrapErr | hf::WrapOp::WrapNone => false,
        };
        let flag = TypedBits::from_bool(tag);
        let discriminant = self.allocate_literal(Ghost(*obj), &flag);
        let width = kind.bits() - 1;
        let ghost s1 = *self;
        let lhs = self.operand(obj, x.lhs);
        let ghost s2 = *self;
        proof {
            lemma_extends_trans(s0, s1, s2);
            assert(bit_literal(s2, discriminant, tag)) by {
                assert(s2.literals@[discriminant->Literal_0.0 as int] == s1.literals@[discriminant->Literal_0.0 as int]);
                assert(flag@.bits =~= seq![tag]);
            }
        }
        if width != 0 {
            let payload = self.allocate_register_with_register_kind(Ghost(*obj), RegisterKind::Unsigned(width));
            let ghost s3 = *self;
            let zero = TypedBits::from_bool(false);
            let arg = match x.arg {
                Slot::Empty => self.allocate_literal(Ghost(*obj), &zero),
                a => self.operand(obj, a),
            };
            let ghost s4 = *self;
            proof {
                lemma_extends_trans(s2, s3, s4);
                lemma_extends_trans(s0, s2, s4);
                lemma_mapped_stable(s2, s4, x.lhs);
                assert(s4.registers@[payload->Register_0.0 as int] == s3.registers@[payload->Register_0.0 as int]);
                assert(s4.literals@[discriminant->Literal_0.0 as int] == s2.literals@[discriminant->Literal_0.0 as int]);
                if x.arg is Empty {
                    assert(zero@.bits =~= seq![false]);
                }
            }
            let cast = OpCode::Cast(tl::Cast { lhs: payload, arg, len: width, kind: tl::CastKind::Resize });
            self.lop(Ghost(*obj), cast, id);
            let mut args: Vec<Operand> = Vec::new();
            args.push(payload);
            args.push(discriminant);
            let ghost a = args@;
            let cat = OpCode::Concat(tl::Concat { lhs, args });
            proof {
                assert forall|j: int| 0 <= j < crate::rtl::object::op_operands(cat).len() implies operand_in(
                    #[trigger] crate::rtl::object::op_operands(cat)[j],
                    self.literals@.len() as nat,
                    self.registers@.len() as nat,
                ) by {
                    if j > 0 {
                        assert(crate::rtl::object::op_operands(cat)[j] == a[j - 1]);
                    }
                }
            }
            let ghost s5 = *self;
            self.lop(Ghost(*obj), cat, id);
            proof {
                lemma_extends_trans(s0, s4, s5);
                lemma_extends_trans(s0, s5, *self);
                lemma_unmapped_beyond(s2, *obj, payload);
                assert(s3.reg_map == s2.reg_map);
                lemma_extends_trans(s3, s4, s5);
                lemma_extends_trans(s3, s5, *self);
                lemma_unmapped_stable(s3, *self, payload);
                assert(emitted(s0, *self) =~= seq![at(cast, id, self.fn_id), at(cat, id, self.fn_id)]);
                assert(self.registers == s4.registers);
                assert(self.literals == s4.literals);
                assert(self.lit_map == s4.lit_map && self.reg_map == s4.reg_map);
            }
        } else {
            let op = OpCode::Assign(tl::Assign { lhs, rhs: discriminant });
            self.lop(Ghost(*obj), op, id);
            proof {
                lemma_extends_trans(s0, s2, *self);
                assert(emitted(s0, *self) =~= seq![at(op, id, self.fn_id)]);
            }
        }
        Ok(())
    }
}


/// The range a path selects with every run-time index at `0`.
pub open spec fn dyn_base(k: KindView, p: Seq<PathElementView>) -> Option<(nat, nat, KindView)> {
    kv_range(k, p.map_values(|e: PathElementView| fix_dynamic(e, None)))
}

/// The range a path selects with run-time index `w` at `1` and the others at
/// `0`.
pub open spec fn dyn_stride(k: KindView, p: Seq<PathElementView>, w: Slot) -> Option<(nat, nat, KindView)> {
    kv_range(k, p.map_values(|e: PathElementView| fix_dynamic(e, Some(w))))
}

/// How far one step of run-time index `w` moves the selected bits.
pub open spec fn stride_of(k: KindView, p: Seq<PathElementView>, w: Slot) -> nat {
    (dyn_stride(k, p, w)->Some_0.0 - dyn_base(k, p)->Some_0.0) as nat
}

/// The dynamic path can be lowered: the base range and each stride range
/// exist.
pub open spec fn dyn_ok(k: KindView, p: Seq<PathElementView>) -> bool {
    &&& dyn_base(k, p) is Some
    &&& forall|j: int|
        0 <= j < path_dynamic_slots(p).len() ==> dyn_stride(k, p, #[trigger] path_dynamic_slots(p)[j]) is Some
}

/// `o` is a register of `c` of kind `rk`.
pub open spec fn reg_of_kind(c: RTLCompiler, o: Operand, rk: RegisterKind) -> bool {
    &&& o is Register
    &&& c.has(o)
    &&& c.registers@[o->Register_0.0 as int] == rk
}

/// `o` is a literal of `c` holding `v`.
pub open spec fn lit_holds(c: RTLCompiler, o: Operand, v: BitStringView) -> bool {
    &&& o is Literal
    &&& c.has(o)
    &&& c.literals@[o->Literal_0.0 as int]@ == v
}

pub open spec fn unsigned_value(value: nat, len: nat) -> BitStringView {
    BitStringView { signed: false, bits: crate::types::bit_string::bits_of_nat(value, len) }
}

/// Opcodes `4k .. 4k+3` of `seg` add `index * stride` to `prev`, all in `l`
/// bits: the index is cast to `l` bits, multiplied by the stride (a literal)
/// into `2l` bits, cast back to `l` bits and added to `prev`.
pub open spec fn index_step(c: RTLCompiler, seg: Seq<LocatedOpCode>, k: int, l: nat, index: Operand, stride: nat, prev: Operand, lo: nat) -> bool {
    &&& seg[4 * k].op is Cast
    &&& seg[4 * k + 1].op is Binary
    &&& seg[4 * k + 2].op is Cast
    &&& seg[4 * k + 3].op is Binary
    &&& {
        let c0 = seg[4 * k].op->Cast_0;
        let m = seg[4 * k + 1].op->Binary_0;
        let c1 = seg[4 * k + 2].op->Cast_0;
        let a = seg[4 * k + 3].op->Binary_0;
        &&& c0.arg == index && c0.len == l && c0.kind == tl::CastKind::Unsigned
        &&& reg_of_kind(c, c0.lhs, RegisterKind::Unsigned(l as usize))
        &&& m.op == hf::AluBinary::Mul && m.arg1 == c0.lhs
        &&& lit_holds(c, m.arg2, unsigned_value(stride, l))
        &&& reg_of_kind(c, m.lhs, RegisterKind::Unsigned((2 * l) as usize))
        &&& c1.arg == m.lhs && c1.len == l && c1.kind == tl::CastKind::Unsigned
        &&& reg_of_kind(c, c1.lhs, RegisterKind::Unsigned(l as usize))
        &&& a.op == hf::AluBinary::Add && a.arg1 == prev && a.arg2 == c1.lhs
        &&& reg_of_kind(c, a.lhs, RegisterKind::Unsigned(l as usize))
        &&& fresh_reg(c, c0.lhs, lo)
        &&& fresh_reg(c, m.lhs, (c0.lhs->Register_0.0 + 1) as nat)
        &&& fresh_reg(c, c1.lhs, (m.lhs->Register_0.0 + 1) as nat)
        &&& fresh_reg(c, a.lhs, (c1.lhs->Register_0.0 + 1) as nat)
    }
}

/// `o` is a register numbered at least `lo` that stands for no source
/// register.
pub open spec fn fresh_reg(c: RTLCompiler, o: Operand, lo: nat) -> bool {
    &&& o is Register
    &&& o->Register_0.0 >= lo
    &&& unmapped(c, o)
}

/// The least number the scratch registers of step `k` of a chain may have:
/// `lo` for the first step, past the last register of the step before after.
pub open spec fn chain_lo(seg: Seq<LocatedOpCode>, lo: nat, k: int) -> nat {
    if k == 0 {
        lo
    } else {
        (seg[4 * k - 1].op->Binary_0.lhs->Register_0.0 + 1) as nat
    }
}

/// The running sum after `k` steps of the chain.
pub open spec fn chain_sum(seg: Seq<LocatedOpCode>, base: Operand, k: int) -> Operand {
    if k == 0 {
        base
    } else {
        seg[4 * k - 1].op->Binary_0.lhs
    }
}

/// `seg` computes, in `l` bits, the bit offset selected by a dynamic path into
/// slot `arg`: the base offset (a literal) plus, for each run-time index in
/// order, the index times its stride.  `sum` holds the result.  Every step
/// writes new registers, numbered upwards from `lo`, that stand for no source
/// register.
pub open spec fn index_chain(
    c: RTLCompiler,
    seg: Seq<LocatedOpCode>,
    obj: RhifObject,
    arg: Slot,
    p: Seq<PathElementView>,
    l: nat,
    base: Operand,
    sum: Operand,
    id: NodeId,
    lo: nat,
) -> bool {
    let k = obj.slot_kind(arg)->Some_0;
    let ws = path_dynamic_slots(p);
    &&& seg.len() == 4 * ws.len()
    &&& forall|i: int| 0 <= i < seg.len() ==> (#[trigger] seg[i]).id == id && seg[i].func == c.fn_id
    &&& lit_holds(c, base, unsigned_value(dyn_base(k, p)->Some_0.0, l))
    &&& forall|j: int|
        0 <= j < ws.len() ==> #[trigger] index_step(
            c,
            seg,
            j,
            l,
            c.opnd(ws[j]),
            stride_of(k, p, ws[j]),
            chain_sum(seg, base, j),
            chain_lo(seg, lo, j),
        )
    &&& sum == chain_sum(seg, base, ws.len() as int)
}

pub proof fn lemma_reg_of_kind_stable(a: RTLCompiler, b: RTLCompiler, o: Operand, rk: RegisterKind)
    requires
        reg_of_kind(a, o, rk),
        b.extends(a),
    ensures
        reg_of_kind(b, o, rk),
{
    assert(b.registers@[o->Register_0.0 as int] == a.registers@[o->Register_0.0 as int]);
}

pub proof fn lemma_lit_holds_stable(a: RTLCompiler, b: RTLCompiler, o: Operand, v: BitStringView)
    requires
        lit_holds(a, o, v),
        b.extends(a),
    ensures
        lit_holds(b, o, v),
{
    assert(b.literals@[o->Literal_0.0 as int] == a.literals@[o->Literal_0.0 as int]);
}

pub proof fn lemma_index_step_stable(a: RTLCompiler, b: RTLCompiler, seg: Seq<LocatedOpCode>, k: int, l: nat, index: Operand, stride: nat, prev: Operand, lo: nat)
    requires
        index_step(a, seg, k, l, index, stride, prev, lo),
        b.extends(a),
    ensures
        index_step(b, seg, k, l, index, stride, prev, lo),
{
    let c0 = seg[4 * k].op->Cast_0;
    let m = seg[4 * k + 1].op->Binary_0;
    let c1 = seg[4 * k + 2].op->Cast_0;
    let ad = seg[4 * k + 3].op->Binary_0;
    lemma_reg_of_kind_stable(a, b, c0.lhs, RegisterKind::Unsigned(l as usize));
    lemma_lit_holds_stable(a, b, m.arg2, unsigned_value(stride, l));
    lemma_reg_of_kind_stable(a, b, m.lhs, RegisterKind::Unsigned((2 * l) as usize));
    lemma_reg_of_kind_stable(a, b, c1.lhs, RegisterKind::Unsigned(l as usize));
    lemma_reg_of_kind_stable(a, b, ad.lhs, RegisterKind::Unsigned(l as usize));
    lemma_unmapped_stable(a, b, c0.lhs);
    lemma_unmapped_stable(a, b, m.lhs);
    lemma_unmapped_stable(a, b, c1.lhs);
    lemma_unmapped_stable(a, b, ad.lhs);
}


pub proof fn lemma_index_step_seg(c: RTLCompiler, a: Seq<LocatedOpCode>, b: Seq<LocatedOpCode>, k: int, l: nat, index: Operand, stride: nat, prev: Operand, lo: nat)
    requires
        index_step(c, a, k, l, index, stride, prev, lo),
        0 <= k,
        4 * k + 3 < a.len(),
        4 * k + 3 < b.len(),
        forall|t: int| 0 <= t < 4 ==> #[trigger] b[4 * k + t] == a[4 * k + t],
    ensures
        index_step(c, b, k, l, index, stride, prev, lo),
{
    assert(b[4 * k + 0] == a[4 * k + 0]);
    assert(b[4 * k + 1] == a[4 * k + 1]);
    assert(b[4 * k + 2] == a[4 * k + 2]);
    assert(b[4 * k + 3] == a[4 * k + 3]);
}

/// The dynamically indexed slots of a path are present and not empty.
pub open spec fn dyn_slots_known(obj: RhifObject, p: Seq<PathElementView>) -> bool {
    forall|j: int|
        0 <= j < path_dynamic_slots(p).len() ==> obj.slot_ok(#[trigger] path_dynamic_slots(p)[j])
            && !(path_dynamic_slots(p)[j] is Empty)
}

impl RTLCompiler {
    /// Emits the computation of the bit offset that a dynamic path selects in
    /// slot `arg`, and gives the register holding it together with the width
    /// selected.
    fn build_dynamic_index(&mut self, obj: &RhifObject, arg: Slot, path: &crate::types::path::Path, node_id: NodeId) -> (r: Result<(Operand, usize), RHDLError>)
        requires
            old(self).inv(*obj),
            obj.slot_ok(arg),
            !(arg is Empty),
            dyn_slots_known(*obj, path@),
        ensures
            final(self).inv(*obj),
            final(self).extends(*old(self)),
            r is Ok <==> dyn_ok(obj.slot_kind(arg)->Some_0, path@),
            r matches Err(e) ==> e is InvalidPath,
            r matches Ok((sum, len)) ==> {
                let k = obj.slot_kind(arg)->Some_0;
                &&& len == dyn_base(k, path@)->Some_0.1 - dyn_base(k, path@)->Some_0.0
                &&& final(self).has(sum)
                &&& all_mapped(*final(self), path_dynamic_slots(path@))
                &&& exists|base: Operand, l: nat|
                    crate::util::is_clog2(kv_bits(k), l) && #[trigger] index_chain(
                        *final(self),
                        emitted(*old(self), *final(self)),
                        *obj,
                        arg,
                        path@,
                        l,
                        base,
                        sum,
                        node_id,
                        old(self).registers@.len() as nat,
                    )
            },
    {
        let ghost k = obj.slot_kind(arg)->Some_0;
        let ghost ws = path_dynamic_slots(path@);
        let slots = path.dynamic_slots();
        let arg_kind = obj.kind(arg);
        let base_path = path.zero_out_dynamic_indices();
        let (base_range, base_kind) = match crate::types::path::bit_range(&arg_kind, &base_path) {
            Ok(r) => r,
            Err(e) => {
                proof {
                    lemma_extends_refl(*self);
                }
                return Err(e);
            },
        };
        let mut starts: Vec<usize> = Vec::new();
        let mut ends: Vec<usize> = Vec::new();
        let mut kinds: Vec<Kind> = Vec::new();
        let mut j: usize = 0;
        while j < slots.len()
            invariant
                j <= slots.len(),
                slots@ == ws,
                ws == path_dynamic_slots(path@),
                k == obj.slot_kind(arg)->Some_0,
                *self == *old(self),
                self.inv(*obj),
                arg_kind@ == k,
                kv_bounded(k),
                starts@.len() == j,
                ends@.len() == j,
                kinds@.len() == j,
                forall|i: int|
                    0 <= i < j ==> #[trigger] dyn_stride(k, path@, ws[i]) == Some(
                        (starts@[i] as nat, ends@[i] as nat, kinds@[i]@),
                    ),
                forall|i: int| 0 <= i < j ==> #[trigger] starts@[i] <= ends@[i],
            decreases slots.len() - j,
        {
            let stride_path = path.stride_path(slots[j]);
            match crate::types::path::bit_range(&arg_kind, &stride_path) {
                Ok((rg, kk)) => {
                    starts.push(rg.start);
                    ends.push(rg.end);
                    kinds.push(kk);
                },
                Err(e) => {
                    proof {
                        lemma_extends_refl(*self);
                        assert(!dyn_ok(k, path@)) by {
                            assert(dyn_stride(k, path@, ws[j as int]) is None);
                        }
                    }
                    return Err(e);
                },
            }
            j += 1;
        }
        // All of the kinds must agree with the base, and all of the widths.
        let mut j: usize = 0;
        while j < kinds.len()
            invariant
                j <= kinds.len(),
                kinds@.len() == ws.len(),
                starts@.len() == ws.len(),
                ends@.len() == ws.len(),
                forall|i: int|
                    0 <= i < ws.len() ==> #[trigger] dyn_stride(k, path@, ws[i]) == Some(
                        (starts@[i] as nat, ends@[i] as nat, kinds@[i]@),
                    ),
                dyn_base(k, path@) == Some((base_range.start as nat, base_range.end as nat, base_kind@)),
                forall|i: int| 0 <= i < ws.len() ==> #[trigger] starts@[i] <= ends@[i],
                forall|i: int| 0 <= i < j ==> base_range.start <= #[trigger] starts@[i],
                base_range.start <= base_range.end,
                ws == path_dynamic_slots(path@),
                *self == *old(self),
                self.inv(*obj),
            decreases kinds.len() - j,
        {
            proof {
                assert(dyn_stride(k, path@, ws[j as int]) is Some);
                crate::types::path::lemma_range_fix(k, path@, ws[j as int]);
            }
            if !crate::types::kind::kind_eq(&kinds[j], &base_kind) {
                proof {
                    lemma_extends_refl(*self);
                }
                return Err(
                    RHDLError::Compile {
                        cause: ICE::MismatchedTypesFromDynamicIndexing {
                            base: crate::types::kind::clone_kind(&base_kind),
                            slot: crate::types::kind::clone_kind(&kinds[j]),
                        },
                        id: node_id,
                    },
                );
            }
            if ends[j] - starts[j] != base_range.end - base_range.start {
                proof {
                    lemma_extends_refl(*self);
                }
                return Err(
                    RHDLError::Compile {
                        cause: ICE::MismatchedBitWidthsFromDynamicIndexing {
                            base: base_range.end - base_range.start,
                            slot: ends[j] - starts[j],
                        },
                        id: node_id,
                    },
                );
            }
            j += 1;
        }
        let index_bits = crate::util::clog2(arg_kind.bits());
        let ghost s0 = *self;
        let base = self.allocate_literal_from_usize_and_length(Ghost(*obj), base_range.start, index_bits);
        let ghost sb = *self;
        proof {
            assert(lit_holds(sb, base, unsigned_value(base_range.start as nat, index_bits as nat)));
        }
        let mut index_sum = base;
        let mut j: usize = 0;
        while j < slots.len()
            invariant
                j <= slots.len(),
                slots@ == ws,
                index_bits <= 64,
                starts@.len() == ws.len(),
                forall|i: int|
                    0 <= i < ws.len() ==> #[trigger] dyn_stride(k, path@, ws[i]) is Some && starts@[i] as nat == dyn_stride(k, path@, ws[i])->Some_0.0,
                dyn_base(k, path@) == Some((base_range.start as nat, base_range.end as nat, base_kind@)),
                forall|i: int| 0 <= i < ws.len() ==> base_range.start <= #[trigger] starts@[i],
                dyn_slots_known(*obj, path@),
                ws == path_dynamic_slots(path@),
                self.inv(*obj),
                self.extends(sb),
                sb.extends(s0),
                s0 == *old(self),
                sb.ops == s0.ops,
                lit_holds(*self, base, unsigned_value(base_range.start as nat, index_bits as nat)),
                emitted(sb, *self).len() == 4 * j,
                forall|i: int| 0 <= i < emitted(sb, *self).len() ==> (#[trigger] emitted(sb, *self)[i]).id == node_id && emitted(sb, *self)[i].func == self.fn_id,
                forall|i: int| 0 <= i < j ==> self.mapped(#[trigger] ws[i]) is Some,
                forall|i: int|
                    0 <= i < j ==> #[trigger] index_step(
                        *self,
                        emitted(sb, *self),
                        i,
                        index_bits as nat,
                        self.opnd(ws[i]),
                        stride_of(k, path@, ws[i]),
                        chain_sum(emitted(sb, *self), base, i),
                        chain_lo(emitted(sb, *self), s0.registers@.len() as nat, i),
                    ),
                index_sum == chain_sum(emitted(sb, *self), base, j as int),
                self.has(index_sum),
                chain_lo(emitted(sb, *self), s0.registers@.len() as nat, j as int) <= self.registers@.len(),
                sb.registers == s0.registers,
            decreases slots.len() - j,
        {
            let ghost before = *self;
            let ghost seg0 = emitted(sb, before);
            let stride = self.allocate_literal_from_usize_and_length(Ghost(*obj), starts[j] - base_range.start, index_bits);
            let ghost p0 = *self;
            let reg = self.allocate_register(Ghost(*obj), &Kind::make_bits(index_bits));
            let ghost q0 = *self;
            proof {
                assert(obj.slot_ok(ws[j as int]));
            }
            let a = self.operand(obj, slots[j]);
            let ghost t1 = *self;
            let c0 = OpCode::Cast(tl::Cast { lhs: reg, arg: a, len: index_bits, kind: tl::CastKind::Unsigned });
            self.lop(Ghost(*obj), c0, node_id);
            let ghost p1 = *self;
            let prod_uncast = self.allocate_register(Ghost(*obj), &Kind::make_bits(index_bits * 2));
            let ghost q1 = *self;
            let m = OpCode::Binary(tl::Binary { lhs: prod_uncast, op: hf::AluBinary::Mul, arg1: reg, arg2: stride });
            self.lop(Ghost(*obj), m, node_id);
            let ghost p2 = *self;
            let prod = self.allocate_register(Ghost(*obj), &Kind::make_bits(index_bits));
            let ghost q2 = *self;
            let c1 = OpCode::Cast(tl::Cast { lhs: prod, arg: prod_uncast, len: index_bits, kind: tl::CastKind::Unsigned });
            self.lop(Ghost(*obj), c1, node_id);
            let ghost p3 = *self;
            let sum = self.allocate_register(Ghost(*obj), &Kind::make_bits(index_bits));
            let ghost q3 = *self;
            let ad = OpCode::Binary(tl::Binary { lhs: sum, op: hf::AluBinary::Add, arg1: index_sum, arg2: prod });
            self.lop(Ghost(*obj), ad, node_id);
            proof {
                lemma_extends_trans(p3, q3, *self);
                lemma_extends_trans(q2, p3, *self);
                lemma_extends_trans(p2, q2, *self);
                lemma_extends_trans(q1, p2, *self);
                lemma_extends_trans(p1, q1, *self);
                lemma_extends_trans(t1, p1, *self);
                lemma_extends_trans(q0, t1, *self);
                lemma_unmapped_beyond(p0, *obj, reg);
                lemma_unmapped_stable(q0, *self, reg);
                lemma_unmapped_beyond(p1, *obj, prod_uncast);
                lemma_unmapped_stable(q1, *self, prod_uncast);
                lemma_unmapped_beyond(p2, *obj, prod);
                lemma_unmapped_stable(q2, *self, prod);
                lemma_unmapped_beyond(p3, *obj, sum);
                lemma_unmapped_stable(q3, *self, sum);
                lemma_extends_trans(before, t1, *self);
                lemma_extends_trans(sb, before, *self);
                let seg = emitted(sb, *self);
                let f = self.fn_id;
                assert(seg =~= seg0 + seq![at(c0, node_id, f), at(m, node_id, f), at(c1, node_id, f), at(ad, node_id, f)]);
                assert(kind_register(KindView::Bits(index_bits as nat)) == RegisterKind::Unsigned(index_bits));
                assert(kind_register(KindView::Bits((index_bits * 2) as nat)) == RegisterKind::Unsigned((index_bits * 2) as usize));
                lemma_mapped_stable(t1, *self, ws[j as int]);
                assert forall|i: int| 0 <= i < j + 1 implies self.mapped(#[trigger] ws[i]) is Some by {
                    if i < j {
                        lemma_mapped_stable(before, *self, ws[i]);
                    }
                }
                assert forall|i: int| 0 <= i < seg.len() implies (#[trigger] seg[i]).id == node_id && seg[i].func == self.fn_id by {
                    if i < seg0.len() {
                        assert(seg[i] == seg0[i]);
                    }
                }
                assert forall|i: int|
                    0 <= i < j + 1 implies #[trigger] index_step(
                        *self,
                        seg,
                        i,
                        index_bits as nat,
                        self.opnd(ws[i]),
                        stride_of(k, path@, ws[i]),
                        chain_sum(seg, base, i),
                        chain_lo(seg, s0.registers@.len() as nat, i),
                    ) by {
                    let lo0 = s0.registers@.len() as nat;
                    if i < j {
                        assert(index_step(before, seg0, i, index_bits as nat, before.opnd(ws[i]), stride_of(k, path@, ws[i]), chain_sum(seg0, base, i), chain_lo(seg0, lo0, i)));
                        lemma_mapped_stable(before, *self, ws[i]);
                        lemma_index_step_stable(before, *self, seg0, i, index_bits as nat, before.opnd(ws[i]), stride_of(k, path@, ws[i]), chain_sum(seg0, base, i), chain_lo(seg0, lo0, i));
                        assert forall|t: int| 0 <= t < 4 implies #[trigger] seg[4 * i + t] == seg0[4 * i + t] by {}
                        lemma_index_step_seg(*self, seg0, seg, i, index_bits as nat, before.opnd(ws[i]), stride_of(k, path@, ws[i]), chain_sum(seg0, base, i), chain_lo(seg0, lo0, i));
                        if i > 0 {
                            assert(seg[4 * i - 1] == seg0[4 * i - 1]);
                        }
                    } else {
                        if i > 0 {
                            assert(seg[4 * i - 1] == seg0[4 * i - 1]);
                        }
                        assert(chain_lo(seg, lo0, i) == chain_lo(seg0, lo0, i));
                        assert(seg[4 * i] == at(c0, node_id, f));
                        assert(seg[4 * i + 1] == at(m, node_id, f));
                        assert(seg[4 * i + 2] == at(c1, node_id, f));
                        assert(seg[4 * i + 3] == at(ad, node_id, f));
                        if i > 0 {
                            assert(seg[4 * i - 1] == seg0[4 * i - 1]);
                        }
                        assert(stride_of(k, path@, ws[i]) == (starts@[i] - base_range.start) as nat);
                        lemma_reg_of_kind_stable(t1, *self, reg, RegisterKind::Unsigned(index_bits));
                    }
                }
                assert(chain_sum(seg, base, j + 1) == sum);
                lemma_lit_holds_stable(before, *self, base, unsigned_value(base_range.start as nat, index_bits as nat));
            }
            index_sum = sum;
            j += 1;
        }
        proof {
            lemma_extends_trans(s0, sb, *self);
            assert(emitted(s0, *self) == emitted(sb, *self));
            assert(index_chain(*self, emitted(s0, *self), *obj, arg, path@, index_bits as nat, base, index_sum, node_id, s0.registers@.len() as nat));
            assert forall|i: int| 0 <= i < ws.len() implies (!((#[trigger] ws[i]) is Empty) ==> self.mapped(ws[i]) is Some) by {}
        }
        Ok((index_sum, base_range.end - base_range.start))
    }
}


/// The path indexes at run time.
pub open spec fn is_dynamic_path(p: Seq<PathElementView>) -> bool {
    exists|j: int| 0 <= j < p.len() && crate::types::path::is_dynamic(#[trigger] p[j])
}

/// The width a dynamic path selects in slot `arg`.
pub open spec fn dyn_width(obj: RhifObject, arg: Slot, p: Seq<PathElementView>) -> nat {
    (dyn_base(obj.slot_kind(arg)->Some_0, p)->Some_0.1 - dyn_base(obj.slot_kind(arg)->Some_0, p)->Some_0.0) as nat
}

/// `seg` computes the offset of a dynamic path into `arg` and ends with `last`,
/// which reads the offset so computed.
pub open spec fn dyn_lowered(seg: Seq<LocatedOpCode>, c: RTLCompiler, obj: RhifObject, arg: Slot, p: Seq<PathElementView>, id: NodeId, offset: Operand, lo: nat) -> bool {
    exists|base: Operand, l: nat|
        crate::util::is_clog2(kv_bits(obj.slot_kind(arg)->Some_0), l) && #[trigger] index_chain(
            c,
            seg,
            obj,
            arg,
            p,
            l,
            base,
            offset,
            id,
            lo,
        )
}

/// What lowering an index gives: nothing for an unused result, a static
/// index, or the offset computation followed by a dynamic index.
pub open spec fn index_lowered(seg: Seq<LocatedOpCode>, c: RTLCompiler, lo: nat, obj: RhifObject, x: hf::Index, id: NodeId) -> bool {
    if is_dynamic_path(x.path@) {
        &&& seg.len() >= 1
        &&& seg.last().id == id
        &&& seg.last().func == c.fn_id
        &&& seg.last().op is DynamicIndex
        &&& {
            let d = seg.last().op->DynamicIndex_0;
            &&& d.lhs == c.opnd(x.lhs)
            &&& d.arg == c.opnd(x.arg)
            &&& d.len == dyn_width(obj, x.arg, x.path@)
            &&& dyn_lowered(seg.drop_last(), c, obj, x.arg, x.path@, id, d.offset, lo)
        }
    } else {
        &&& seg.len() == 1
        &&& seg[0].id == id
        &&& seg[0].func == c.fn_id
        &&& seg[0].op matches OpCode::Index(k) && k.lhs == c.opnd(x.lhs) && k.arg == c.opnd(x.arg)
            && k.bit_range == range_of(static_range(obj, x.arg, x.path@))
    }
}

/// What lowering a splice gives: a static splice, or the offset computation
/// followed by a dynamic splice.
pub open spec fn splice_lowered(seg: Seq<LocatedOpCode>, c: RTLCompiler, lo: nat, obj: RhifObject, x: hf::Splice, id: NodeId) -> bool {
    if is_dynamic_path(x.path@) {
        &&& seg.len() >= 1
        &&& seg.last().id == id
        &&& seg.last().func == c.fn_id
        &&& seg.last().op is DynamicSplice
        &&& {
            let d = seg.last().op->DynamicSplice_0;
            &&& d.lhs == c.opnd(x.lhs)
            &&& d.arg == c.opnd(x.orig)
            &&& d.value == c.opnd(x.subst)
            &&& d.len == dyn_width(obj, x.orig, x.path@)
            &&& dyn_lowered(seg.drop_last(), c, obj, x.orig, x.path@, id, d.offset, lo)
        }
    } else {
        &&& seg.len() == 1
        &&& seg[0].id == id
        &&& seg[0].func == c.fn_id
        &&& seg[0].op matches OpCode::Splice(k) && k.lhs == c.opnd(x.lhs) && k.orig == c.opnd(x.orig)
            && k.value == c.opnd(x.subst) && k.bit_range == range_of(static_range(obj, x.orig, x.path@))
    }
}

/// The path can be lowered on the kind of `arg`.
pub open spec fn path_lowerable(obj: RhifObject, arg: Slot, p: Seq<PathElementView>) -> bool {
    if is_dynamic_path(p) {
        dyn_ok(obj.slot_kind(arg)->Some_0, p)
    } else {
        static_range(obj, arg, p) is Some
    }
}

pub proof fn lemma_index_chain_stable(a: RTLCompiler, b: RTLCompiler, seg: Seq<LocatedOpCode>, obj: RhifObject, arg: Slot, p: Seq<PathElementView>, l: nat, base: Operand, sum: Operand, id: NodeId, lo: nat)
    requires
        index_chain(a, seg, obj, arg, p, l, base, sum, id, lo),
        b.extends(a),
        all_mapped(a, path_dynamic_slots(p)),
    ensures
        index_chain(b, seg, obj, arg, p, l, base, sum, id, lo),
{
    let k = obj.slot_kind(arg)->Some_0;
    let ws = path_dynamic_slots(p);
    lemma_lit_holds_stable(a, b, base, unsigned_value(dyn_base(k, p)->Some_0.0, l));
    assert forall|j: int| 0 <= j < ws.len() implies #[trigger] index_step(
        b,
        seg,
        j,
        l,
        b.opnd(ws[j]),
        stride_of(k, p, ws[j]),
        chain_sum(seg, base, j),
        chain_lo(seg, lo, j),
    ) by {
        assert(index_step(a, seg, j, l, a.opnd(ws[j]), stride_of(k, p, ws[j]), chain_sum(seg, base, j), chain_lo(seg, lo, j)));
        lemma_mapped_stable(a, b, ws[j]);
        assert(!(ws[j] is Empty) ==> a.mapped(ws[j]) is Some);
        lemma_index_step_stable(a, b, seg, j, l, a.opnd(ws[j]), stride_of(k, p, ws[j]), chain_sum(seg, base, j), chain_lo(seg, lo, j));
    }
}


impl RTLCompiler {
    fn make_dynamic_index(&mut self, obj: &RhifObject, x: &hf::Index, id: NodeId) -> (r: Result<(), RHDLError>)
        requires
            old(self).inv(*obj),
            !(x.lhs is Empty),
            obj.slot_ok(x.lhs),
            obj.slot_ok(x.arg),
            !(x.arg is Empty),
            dyn_slots_known(*obj, x.path@),
            is_dynamic_path(x.path@),
        ensures
            final(self).inv(*obj),
            final(self).extends(*old(self)),
            r is Ok <==> dyn_ok(obj.slot_kind(x.arg)->Some_0, x.path@),
            r matches Err(e) ==> e is InvalidPath,
            r is Ok ==> index_lowered(emitted(*old(self), *final(self)), *final(self), old(self).registers@.len() as nat, *obj, *x, id),
    {
        let ghost s0 = *self;
        let (offset, len) = match self.build_dynamic_index(obj, x.arg, &x.path, id) {
            Ok(r) => r,
            Err(e) => {
                return Err(e);
            },
        };
        let ghost s1 = *self;
        let lhs = self.operand(obj, x.lhs);
        let ghost s2 = *self;
        let arg = self.operand(obj, x.arg);
        let ghost s3 = *self;
        let op = OpCode::DynamicIndex(tl::DynamicIndex { lhs, arg, offset, len });
        self.lop(Ghost(*obj), op, id);
        proof {
            lemma_extends_trans(s1, s2, s3);
            lemma_extends_trans(s1, s3, *self);
            lemma_extends_trans(s0, s1, *self);
            lemma_mapped_stable(s2, *self, x.lhs);
            lemma_mapped_stable(s3, *self, x.arg);
            let seg = emitted(s0, *self);
            assert(seg.drop_last() =~= emitted(s0, s1));
            assert(seg.last() == at(op, id, self.fn_id));
            let (base, l) = choose|base: Operand, l: nat|
                crate::util::is_clog2(kv_bits(obj.slot_kind(x.arg)->Some_0), l) && #[trigger] index_chain(
                    s1,
                    emitted(s0, s1),
                    *obj,
                    x.arg,
                    x.path@,
                    l,
                    base,
                    offset,
                    id,
                    s0.registers@.len() as nat,
                );
            lemma_index_chain_stable(s1, *self, emitted(s0, s1), *obj, x.arg, x.path@, l, base, offset, id, s0.registers@.len() as nat);
            assert(dyn_lowered(seg.drop_last(), *self, *obj, x.arg, x.path@, id, offset, s0.registers@.len() as nat));
        }
        Ok(())
    }

    fn make_index(&mut self, obj: &RhifObject, x: &hf::Index, id: NodeId) -> (r: Result<(), RHDLError>)
        requires
            old(self).inv(*obj),
            known(*obj, x.lhs),
            !(x.lhs is Empty) ==> obj.slot_ok(x.arg) && !(x.arg is Empty) && dyn_slots_known(*obj, x.path@),
        ensures
            final(self).inv(*obj),
            final(self).extends(*old(self)),
            r is Ok <==> (x.lhs is Empty || path_lowerable(*obj, x.arg, x.path@)),
            r matches Err(e) ==> e is InvalidPath,
            r is Ok ==> if !(x.lhs is Empty) {
                index_lowered(emitted(*old(self), *final(self)), *final(self), old(self).registers@.len() as nat, *obj, *x, id)
            } else {
                *final(self) == *old(self)
            },
    {
        if x.lhs.is_empty() {
            return Ok(());
        }
        if x.path.any_dynamic() {
            self.make_dynamic_index(obj, x, id)
        } else {
            self.make_static_index(obj, x, id)
        }
    }

    fn make_dynamic_splice(&mut self, obj: &RhifObject, x: &hf::Splice, id: NodeId) -> (r: Result<(), RHDLError>)
        requires
            old(self).inv(*obj),
            !(x.lhs is Empty),
            obj.slot_ok(x.lhs),
            obj.slot_ok(x.orig),
            obj.slot_ok(x.subst),
            !(x.orig is Empty),
            !(x.subst is Empty),
            dyn_slots_known(*obj, x.path@),
            is_dynamic_path(x.path@),
        ensures
            final(self).inv(*obj),
            final(self).extends(*old(self)),
            r is Ok <==> dyn_ok(obj.slot_kind(x.orig)->Some_0, x.path@),
            r matches Err(e) ==> e is InvalidPath,
            r is Ok ==> splice_lowered(emitted(*old(self), *final(self)), *final(self), old(self).registers@.len() as nat, *obj, *x, id),
    {
        let ghost s0 = *self;
        let (offset, len) = match self.build_dynamic_index(obj, x.orig, &x.path, id) {
            Ok(r) => r,
            Err(e) => {
                return Err(e);
            },
        };
        let ghost s1 = *self;
        let lhs = self.operand(obj, x.lhs);
        let ghost s2 = *self;
        let orig = self.operand(obj, x.orig);
        let ghost s3 = *self;
        let value = self.operand(obj, x.subst);
        let ghost s4 = *self;
        let op = OpCode::DynamicSplice(tl::DynamicSplice { lhs, arg: orig, offset, len, value });
        self.lop(Ghost(*obj), op, id);
        proof {
            lemma_extends_trans(s1, s2, s3);
            lemma_extends_trans(s1, s3, s4);
            lemma_extends_trans(s1, s4, *self);
            lemma_extends_trans(s0, s1, *self);
            lemma_mapped_stable(s2, *self, x.lhs);
            lemma_mapped_stable(s3, *self, x.orig);
            lemma_mapped_stable(s4, *self, x.subst);
            let seg = emitted(s0, *self);
            assert(seg.drop_last() =~= emitted(s0, s1));
            assert(seg.last() == at(op, id, self.fn_id));
            let (base, l) = choose|base: Operand, l: nat|
                crate::util::is_clog2(kv_bits(obj.slot_kind(x.orig)->Some_0), l) && #[trigger] index_chain(
                    s1,
                    emitted(s0, s1),
                    *obj,
                    x.orig,
                    x.path@,
                    l,
                    base,
                    offset,
                    id,
                    s0.registers@.len() as nat,
                );
            lemma_index_chain_stable(s1, *self, emitted(s0, s1), *obj, x.orig, x.path@, l, base, offset, id, s0.registers@.len() as nat);
            assert(dyn_lowered(seg.drop_last(), *self, *obj, x.orig, x.path@, id, offset, s0.registers@.len() as nat));
        }
        Ok(())
    }

    fn make_splice(&mut self, obj: &RhifObject, x: &hf::Splice, id: NodeId) -> (r: Result<(), RHDLError>)
        requires
            old(self).inv(*obj),
            known(*obj, x.lhs),
            !(x.lhs is Empty) ==> obj.slot_ok(x.orig) && obj.slot_ok(x.subst) && !(x.orig is Empty)
                && !(x.subst is Empty) && dyn_slots_known(*obj, x.path@),
        ensures
            final(self).inv(*obj),
            final(self).extends(*old(self)),
            r is Ok <==> (x.lhs is Empty || path_lowerable(*obj, x.orig, x.path@)),
            r matches Err(e) ==> e is InvalidPath,
            r is Ok ==> if !(x.lhs is Empty) {
                splice_lowered(emitted(*old(self), *final(self)), *final(self), old(self).registers@.len() as nat, *obj, *x, id)
            } else {
                *final(self) == *old(self)
            },
    {
        if x.lhs.is_empty() {
            return Ok(());
        }
        if x.path.any_dynamic() {
            self.make_dynamic_splice(obj, x, id)
        } else {
            self.make_static_splice(obj, x, id)
        }
    }
}



/// The slots of one opcode can be looked up as the lowering needs them (the
/// callee of a call is checked separately).
pub open spec fn op_lowerable(obj: RhifObject, op: hf::OpCode) -> bool {
    match op {
        hf::OpCode::Noop => true,
        hf::OpCode::Comment(_) => true,
        hf::OpCode::Binary(x) => known(obj, x.lhs) && (!(x.lhs is Empty) ==> obj.slot_ok(x.arg1)
            && obj.slot_ok(x.arg2) && !(x.arg1 is Empty) && !(x.arg2 is Empty)),
        hf::OpCode::Unary(x) => known(obj, x.lhs) && (!(x.lhs is Empty) ==> obj.slot_ok(x.arg1)
            && !(x.arg1 is Empty)),
        hf::OpCode::Select(x) => known(obj, x.lhs) && (!(x.lhs is Empty) ==> obj.slot_ok(x.cond)
            && obj.slot_ok(x.true_value) && obj.slot_ok(x.false_value) && !(x.cond is Empty)
            && !(x.true_value is Empty) && !(x.false_value is Empty)),
        hf::OpCode::Retime(x) => known(obj, x.lhs) && (!(x.lhs is Empty) ==> obj.slot_ok(x.arg)
            && !(x.arg is Empty)),
        hf::OpCode::Repeat(x) => known(obj, x.lhs) && (!(x.lhs is Empty) ==> obj.slot_ok(x.value)
            && !(x.value is Empty)),
        hf::OpCode::Assign(x) => known(obj, x.lhs) && known(obj, x.rhs),
        hf::OpCode::AsBits(x) => known(obj, x.lhs) && known(obj, x.arg),
        hf::OpCode::AsSigned(x) => known(obj, x.lhs) && known(obj, x.arg),
        hf::OpCode::Resize(x) => known(obj, x.lhs) && known(obj, x.arg),
        hf::OpCode::Array(x) => known(obj, x.lhs) && slots_known(obj, x.elements@),
        hf::OpCode::Tuple(x) => known(obj, x.lhs) && slots_known(obj, x.fields@),
        hf::OpCode::Case(x) => known(obj, x.lhs) && (!(x.lhs is Empty) ==> obj.slot_ok(x.discriminant)
            && !(x.discriminant is Empty) && table_known(obj, x.table@)),
        hf::OpCode::Index(x) => known(obj, x.lhs) && (!(x.lhs is Empty) ==> obj.slot_ok(x.arg)
            && !(x.arg is Empty) && dyn_slots_known(obj, x.path@)),
        hf::OpCode::Splice(x) => known(obj, x.lhs) && (!(x.lhs is Empty) ==> obj.slot_ok(x.orig)
            && obj.slot_ok(x.subst) && !(x.orig is Empty) && !(x.subst is Empty) && dyn_slots_known(
            obj,
            x.path@,
        )),
        hf::OpCode::Struct(x) => known(obj, x.lhs) && (!(x.lhs is Empty) ==> kv_bounded(x.template.kind@)
            && fields_known(obj, x.fields@) && (x.rest is Some ==> obj.slot_ok(x.rest->Some_0)
            && !(x.rest->Some_0 is Empty))),
        hf::OpCode::Wrap(x) => x.kind is Some ==> kv_bounded(x.kind->Some_0@) && kv_bits(
            x.kind->Some_0@,
        ) >= 1 && !(x.lhs is Empty) && obj.slot_ok(x.lhs) && known(obj, x.arg),
        hf::OpCode::Exec(x) => known(obj, x.lhs) && (!(x.lhs is Empty) ==> x.id.0 < obj.externals@.len()
            && forall|j: int|
            0 <= j < x.args@.len() ==> obj.slot_ok(#[trigger] x.args@[j]) && !(x.args@[j] is Empty)),
    }
}

/// Whether one opcode lowers without error (the callee of a call is checked
/// separately).
pub open spec fn op_ok(obj: RhifObject, op: hf::OpCode) -> bool {
    match op {
        hf::OpCode::AsBits(x) => x.len is Some,
        hf::OpCode::AsSigned(x) => x.len is Some,
        hf::OpCode::Resize(x) => x.len is Some,
        hf::OpCode::Wrap(x) => x.kind is Some,
        hf::OpCode::Case(x) => x.lhs is Empty || patterns_literal(x.table@),
        hf::OpCode::Index(x) => x.lhs is Empty || path_lowerable(obj, x.arg, x.path@),
        hf::OpCode::Splice(x) => x.lhs is Empty || path_lowerable(obj, x.orig, x.path@),
        hf::OpCode::Struct(x) => x.lhs is Empty || members_valid(x.template.kind@, x.fields@),
        _ => true,
    }
}

/// The called function, for a call whose result is used.
pub open spec fn callee(obj: RhifObject, op: hf::OpCode) -> Option<RhifObject> {
    match op {
        hf::OpCode::Exec(x) => if !(x.lhs is Empty) && x.id.0 < obj.externals@.len() {
            Some(obj.externals@[x.id.0 as int])
        } else {
            None
        },
        _ => None,
    }
}

/// The slots that lowering one opcode places (given that it succeeds): its
/// target and the slots it reads, for an opcode that is not dropped.
pub open spec fn op_places(op: hf::OpCode, s: Slot) -> bool {
    let lhs = crate::rhif::remap::op_lhs(op);
    match op {
        hf::OpCode::Noop => false,
        hf::OpCode::Comment(_) => false,
        hf::OpCode::Assign(x) => !(x.lhs is Empty) && !(x.rhs is Empty) && (s == x.lhs || s == x.rhs),
        hf::OpCode::AsBits(x) => !(x.lhs is Empty) && !(x.arg is Empty) && (s == x.lhs || s == x.arg),
        hf::OpCode::AsSigned(x) => !(x.lhs is Empty) && !(x.arg is Empty) && (s == x.lhs || s == x.arg),
        hf::OpCode::Resize(x) => !(x.lhs is Empty) && !(x.arg is Empty) && (s == x.lhs || s == x.arg),
        hf::OpCode::Exec(x) => !(x.lhs is Empty) && s == x.lhs,
        hf::OpCode::Wrap(x) => x.kind is Some && s == x.lhs,
        _ => !(lhs is Empty) && !(s is Empty) && (s == lhs || crate::rhif::remap::op_reads(op).contains(s)),
    }
}

/// The result slot is given an operand: it is an argument that carries bits,
/// or an opcode places it.
pub open spec fn return_placed(obj: RhifObject) -> bool {
    ||| (obj.return_slot matches Slot::Register(r) && obj.arguments@.contains(r) && !crate::types::kind::kv_is_empty(
        obj.slot_kind(obj.return_slot)->Some_0,
    ))
    ||| exists|i: int| 0 <= i < obj.ops@.len() && op_places((#[trigger] obj.ops@[i]).op, obj.return_slot)
}

/// The object (and every function it calls) can be lowered without a panic:
/// the slots the opcodes look up are present, the arguments have kinds, and
/// the result gets an operand.
pub open spec fn lowerable(obj: RhifObject) -> bool
    decreases obj,
{
    &&& forall|i: int|
        0 <= i < obj.ops@.len() ==> op_lowerable(obj, (#[trigger] obj.ops@[i]).op) && (callee(
            obj,
            obj.ops@[i].op,
        ) is Some ==> lowerable(obj.externals@[obj.ops@[i].op->Exec_0.id.0 as int]) && !(obj.externals@[obj.ops@[
            i
        ].op->Exec_0.id.0 as int].return_slot is Empty))
    &&& forall|j: int|
        0 <= j < obj.arguments@.len() ==> obj.slot_ok(Slot::Register(#[trigger] obj.arguments@[j]))
    &&& !(obj.return_slot is Empty) ==> obj.slot_ok(obj.return_slot) && return_placed(obj)
}

/// Lowering succeeds: every opcode lowers, and so does every function called.
pub open spec fn lowering_ok(obj: RhifObject) -> bool
    decreases obj,
{
    forall|i: int|
        0 <= i < obj.ops@.len() ==> op_ok(obj, (#[trigger] obj.ops@[i]).op) && (callee(
            obj,
            obj.ops@[i].op,
        ) is Some ==> lowering_ok(obj.externals@[obj.ops@[i].op->Exec_0.id.0 as int]))
}


/// The argument copies of a call, over the first `n` argument positions: the
/// argument slot and the callee register it goes to, for each position where
/// the callee has a register.
pub open spec fn copies_upto(args: Seq<Slot>, params: Seq<Option<RegisterId>>, n: nat) -> Seq<(Slot, RegisterId)>
    decreases n,
{
    if n == 0 {
        Seq::empty()
    } else {
        let rest = copies_upto(args, params, (n - 1) as nat);
        match params[n - 1] {
            Some(r) => rest.push((args[n - 1], r)),
            None => rest,
        }
    }
}

pub open spec fn arg_copies(args: Seq<Slot>, params: Seq<Option<RegisterId>>) -> Seq<(Slot, RegisterId)> {
    copies_upto(args, params, if args.len() < params.len() { args.len() } else { params.len() })
}

/// `seg` inlines the lowered callee `sub` for a call: each argument is copied
/// into the register that stands for the callee's parameter, the callee's
/// opcodes follow with their operands moved through the tables (each callee
/// literal to a literal with the same bits, each callee register to a register
/// of the same kind; these registers are new, numbered from `base`, the count
/// of registers before the call, pairwise different and standing for no source
/// register), and the value of the callee's result is copied into the
/// call's target.
pub open spec fn exec_body(seg: Seq<LocatedOpCode>, c: RTLCompiler, base: nat, x: hf::Exec, sub: crate::rtl::object::Object, lits: Seq<Operand>, regs: Seq<Operand>, id: NodeId) -> bool {
    let cp = arg_copies(x.args@, sub.arguments@);
    let m = cp.len();
    let n = sub.ops@.len();
    &&& lits.len() == sub.literals@.len()
    &&& forall|i: int| 0 <= i < lits.len() ==> lit_holds(c, #[trigger] lits[i], sub.literals@[i]@)
    &&& regs.len() == sub.register_kind@.len()
    &&& forall|r: int|
        0 <= r < regs.len() ==> (sub.register_kind@[r] is Some ==> reg_of_kind(
            c,
            #[trigger] regs[r],
            sub.register_kind@[r]->Some_0,
        )) && c.has(regs[r]) && regs[r] is Register && regs[r]->Register_0.0 >= base && unmapped(c, regs[r])
    &&& forall|a: int, b: int|
        #![trigger regs[a], regs[b]]
        0 <= a < regs.len() && 0 <= b < regs.len() && a != b ==> regs[a] != regs[b]
    &&& seg.len() == m + n + 1
    &&& forall|k: int|
        0 <= k < m ==> #[trigger] seg[k] == at(
            OpCode::Assign(tl::Assign { lhs: regs[cp[k].1.0 as int], rhs: c.opnd(cp[k].0) }),
            id,
            c.fn_id,
        )
    &&& forall|j: int|
        0 <= j < n ==> (#[trigger] seg[m + j]).id == sub.ops@[j].id && seg[m + j].func == sub.ops@[j].func
            && crate::rtl::remap::operands_mapped(
            sub.ops@[j].op,
            seg[m + j].op,
            crate::rtl::remap::OperandMap::Table(lits, regs),
        )
    &&& seg[(m + n) as int] == at(
        OpCode::Assign(
            tl::Assign {
                lhs: c.opnd(x.lhs),
                rhs: crate::rtl::remap::table_operand(sub.return_register->Some_0, lits, regs),
            },
        ),
        id,
        c.fn_id,
    )
}

/// A compiler state with nothing placed or emitted, for `obj`.
pub open spec fn fresh(c: RTLCompiler, obj: RhifObject) -> bool {
    &&& c.literals@.len() == 0
    &&& c.registers@.len() == 0
    &&& c.ops@.len() == 0
    &&& c.lit_map@.len() == obj.literals@.len()
    &&& c.reg_map@.len() == obj.kind@.len()
    &&& c.fn_id == obj.fn_id
    &&& forall|s: Slot| c.mapped(s) is None
}

/// The register-transfer object built from the final compiler state `fin`
/// (reached through the states of `trace`).
pub open spec fn compiled_object(obj: RhifObject, trace: Seq<RTLCompiler>, fin: RTLCompiler, out: crate::rtl::object::Object) -> bool {
    &&& trace.len() > 0
    &&& out.literals@ == fin.literals@
    &&& out.register_kind@ == fin.registers@.map_values(|k: RegisterKind| Some(k))
    &&& out.ops@ == fin.ops@
    &&& out.arguments@.len() == obj.arguments@.len()
    &&& forall|k: int|
        0 <= k < obj.arguments@.len() ==> #[trigger] out.arguments@[k] == if crate::types::kind::kv_is_empty(
            obj.slot_kind(Slot::Register(obj.arguments@[k]))->Some_0,
        ) {
            None
        } else {
            Some(fin.opnd(Slot::Register(obj.arguments@[k]))->Register_0)
        }
    &&& out.return_register == if obj.return_slot is Empty {
        None
    } else {
        Some(fin.opnd(obj.return_slot))
    }
    &&& out.symbols.slot_map@ == obj.symbols.slot_map@
    &&& out.name@ == obj.name@
    &&& out.fn_id == obj.fn_id
}

/// What lowering one opcode emits, read against the state `c` just after it.
pub open spec fn lowered_op(seg: Seq<LocatedOpCode>, c: RTLCompiler, base: nat, obj: RhifObject, op: hf::OpCode, id: NodeId) -> bool
    decreases obj, 1nat,
{
    match op {
        hf::OpCode::Noop => seg.len() == 0,
        hf::OpCode::Comment(t) => {
            &&& seg.len() == 1
            &&& seg[0].id == id
            &&& seg[0].func == c.fn_id
            &&& seg[0].op matches OpCode::Comment(u) && u@ == t@
        },
        hf::OpCode::Binary(x) => if !(x.lhs is Empty) {
            single(
                seg,
                c,
                OpCode::Binary(tl::Binary { lhs: c.opnd(x.lhs), op: x.op, arg1: c.opnd(x.arg1), arg2: c.opnd(x.arg2) }),
                id,
            )
        } else {
            seg.len() == 0
        },
        hf::OpCode::Unary(x) => if !(x.lhs is Empty) {
            single(seg, c, OpCode::Unary(tl::Unary { lhs: c.opnd(x.lhs), op: x.op, arg1: c.opnd(x.arg1) }), id)
        } else {
            seg.len() == 0
        },
        hf::OpCode::Select(x) => if !(x.lhs is Empty) {
            single(
                seg,
                c,
                OpCode::Select(
                    tl::Select {
                        lhs: c.opnd(x.lhs),
                        cond: c.opnd(x.cond),
                        true_value: c.opnd(x.true_value),
                        false_value: c.opnd(x.false_value),
                    },
                ),
                id,
            )
        } else {
            seg.len() == 0
        },
        hf::OpCode::Retime(x) => if !(x.lhs is Empty) {
            single(seg, c, OpCode::Assign(tl::Assign { lhs: c.opnd(x.lhs), rhs: c.opnd(x.arg) }), id)
        } else {
            seg.len() == 0
        },
        hf::OpCode::Assign(x) => if !(x.lhs is Empty) && !(x.rhs is Empty) {
            single(seg, c, OpCode::Assign(tl::Assign { lhs: c.opnd(x.lhs), rhs: c.opnd(x.rhs) }), id)
        } else {
            seg.len() == 0
        },
        hf::OpCode::AsBits(x) => if !(x.lhs is Empty) && !(x.arg is Empty) {
            single(
                seg,
                c,
                OpCode::Cast(tl::Cast { lhs: c.opnd(x.lhs), arg: c.opnd(x.arg), len: x.len->Some_0, kind: tl::CastKind::Unsigned }),
                id,
            )
        } else {
            seg.len() == 0
        },
        hf::OpCode::AsSigned(x) => if !(x.lhs is Empty) && !(x.arg is Empty) {
            single(
                seg,
                c,
                OpCode::Cast(tl::Cast { lhs: c.opnd(x.lhs), arg: c.opnd(x.arg), len: x.len->Some_0, kind: tl::CastKind::Signed }),
                id,
            )
        } else {
            seg.len() == 0
        },
        hf::OpCode::Resize(x) => if !(x.lhs is Empty) && !(x.arg is Empty) {
            single(
                seg,
                c,
                OpCode::Cast(tl::Cast { lhs: c.opnd(x.lhs), arg: c.opnd(x.arg), len: x.len->Some_0, kind: tl::CastKind::Resize }),
                id,
            )
        } else {
            seg.len() == 0
        },
        hf::OpCode::Array(x) => if !(x.lhs is Empty) {
            concat_of(seg, c, x.lhs, x.elements@, id)
        } else {
            seg.len() == 0
        },
        hf::OpCode::Tuple(x) => if !(x.lhs is Empty) {
            concat_of(seg, c, x.lhs, x.fields@, id)
        } else {
            seg.len() == 0
        },
        hf::OpCode::Repeat(x) => if !(x.lhs is Empty) {
            &&& seg.len() == 1
            &&& seg[0].id == id
            &&& seg[0].func == c.fn_id
            &&& seg[0].op matches OpCode::Concat(k) && k.lhs == c.opnd(x.lhs) && k.args@ == Seq::new(
                (x.len as usize) as nat,
                |i: int| c.opnd(x.value),
            )
        } else {
            seg.len() == 0
        },
        hf::OpCode::Case(x) => if !(x.lhs is Empty) {
            &&& seg.len() == 1
            &&& seg[0].id == id
            &&& seg[0].func == c.fn_id
            &&& seg[0].op matches OpCode::Case(k) && k.lhs == c.opnd(x.lhs) && k.discriminant == c.opnd(
                x.discriminant,
            ) && k.table@.len() == x.table@.len() && forall|i: int|
                0 <= i < x.table@.len() ==> #[trigger] k.table@[i] == (
                    pattern_of(c, x.table@[i].0),
                    c.opnd(x.table@[i].1),
                )
        } else {
            seg.len() == 0
        },
        hf::OpCode::Index(x) => if !(x.lhs is Empty) {
            index_lowered(seg, c, base, obj, x, id)
        } else {
            seg.len() == 0
        },
        hf::OpCode::Splice(x) => if !(x.lhs is Empty) {
            splice_lowered(seg, c, base, obj, x, id)
        } else {
            seg.len() == 0
        },
        hf::OpCode::Struct(x) => if !(x.lhs is Empty) {
            exists|first: Operand| struct_start(c, x, first) && #[trigger] struct_chain(seg, c, x, first, id, base)
        } else {
            seg.len() == 0
        },
        hf::OpCode::Wrap(x) => wrap_lowered(seg, c, base, x, id),
        hf::OpCode::Exec(x) => if !(x.lhs is Empty) {
            exec_lowered(seg, c, base, obj, x, id)
        } else {
            seg.len() == 0
        },
    }
}

/// A call lowers to the inlined body of the lowered callee.
pub open spec fn exec_lowered(seg: Seq<LocatedOpCode>, c: RTLCompiler, base: nat, obj: RhifObject, x: hf::Exec, id: NodeId) -> bool
    decreases obj, 0nat,
{
    &&& x.id.0 < obj.externals@.len()
    &&& exists|sub: crate::rtl::object::Object, lits: Seq<Operand>, regs: Seq<Operand>|
        lowering(obj.externals@[x.id.0 as int], sub) && #[trigger] exec_body(seg, c, base, x, sub, lits, regs, id)
}

/// `trace[i]` is the compiler state before opcode `i` (and after the last one
/// at the end); `fin` is the state once the arguments are placed.
pub open spec fn lowering_trace(obj: RhifObject, trace: Seq<RTLCompiler>, fin: RTLCompiler) -> bool
    decreases obj, 2nat,
{
    &&& trace.len() == obj.ops@.len() + 1
    &&& fresh(trace[0], obj)
    &&& forall|i: int|
        0 <= i < obj.ops@.len() ==> (#[trigger] trace[i + 1]).extends(trace[i]) && trace[i + 1].inv(obj)
            && lowered_op(emitted(trace[i], trace[i + 1]), trace[i + 1], trace[i].registers@.len() as nat, obj, obj.ops@[i].op, obj.ops@[i].id)
    &&& fin.extends(trace.last())
    &&& fin.ops == trace.last().ops
    &&& fin.inv(obj)
    &&& !(obj.return_slot is Empty) ==> fin.mapped(obj.return_slot) is Some
    &&& forall|k: int|
        0 <= k < obj.arguments@.len() ==> (!crate::types::kind::kv_is_empty(
            obj.slot_kind(Slot::Register(#[trigger] obj.arguments@[k]))->Some_0,
        ) ==> fin.mapped(Slot::Register(obj.arguments@[k])) is Some)
}

/// `out` is the register-transfer form of `obj`: the opcodes of `obj` lowered
/// one after the other (calls inlined), in tables that give each source slot an
/// operand of the matching kind.
pub open spec fn lowering(obj: RhifObject, out: crate::rtl::object::Object) -> bool
    decreases obj, 3nat,
{
    exists|trace: Seq<RTLCompiler>, fin: RTLCompiler|
        lowering_trace(obj, trace, fin) && #[trigger] compiled_object(obj, trace, fin, out)
}


/// Moving an opcode through tables whose entries all exist gives an opcode
/// whose operands all exist.
pub proof fn lemma_table_op_in(c: RTLCompiler, a: OpCode, b: OpCode, lits: Seq<Operand>, regs: Seq<Operand>)
    requires
        crate::rtl::remap::operands_mapped(a, b, crate::rtl::remap::OperandMap::Table(lits, regs)),
        op_in(a, lits.len(), regs.len()),
        forall|i: int| 0 <= i < lits.len() ==> c.has(#[trigger] lits[i]) && lits[i] is Literal,
        forall|i: int| 0 <= i < regs.len() ==> c.has(#[trigger] regs[i]),
    ensures
        op_in(b, c.literals@.len() as nat, c.registers@.len() as nat),
{
    let m = crate::rtl::remap::OperandMap::Table(lits, regs);
    let oa = crate::rtl::object::op_operands(a);
    let ob = crate::rtl::object::op_operands(b);
    assert forall|j: int| 0 <= j < oa.len() implies c.has(crate::rtl::remap::table_operand(#[trigger] oa[j], lits, regs)) by {
        assert(operand_in(oa[j], lits.len(), regs.len()));
    }
    match (a, b) {
        (OpCode::Concat(x), OpCode::Concat(y)) => {
            assert forall|j: int| 0 <= j < ob.len() implies operand_in(#[trigger] ob[j], c.literals@.len() as nat, c.registers@.len() as nat) by {
                if j > 0 {
                    assert(ob[j] == y.args@[j - 1]);
                    assert(oa[j] == x.args@[j - 1]);
                    assert(c.has(crate::rtl::remap::table_operand(oa[j], lits, regs)));
                } else {
                    assert(c.has(crate::rtl::remap::table_operand(oa[0], lits, regs)));
                }
            }
        },
        (OpCode::Case(x), OpCode::Case(y)) => {
            let vx = x.table@.map_values(|e: (tl::CaseArgument, Operand)| e.1);
            let vy = y.table@.map_values(|e: (tl::CaseArgument, Operand)| e.1);
            assert(c.has(crate::rtl::remap::table_operand(oa[0], lits, regs)));
            assert(c.has(crate::rtl::remap::table_operand(oa[1], lits, regs)));
            assert forall|k: int| 0 <= k < y.table@.len() implies c.has((#[trigger] y.table@[k]).1) && pattern_has(c, y.table@[k].0) by {
                assert(oa[2 + k] == vx[k]);
                assert(c.has(crate::rtl::remap::table_operand(oa[2 + k], lits, regs)));
                if let tl::CaseArgument::Literal(l) = x.table@[k].0 {
                    assert forall|jj: int| 0 <= jj < crate::rtl::object::case_literals(x.table@).len() implies operand_in(
                        #[trigger] crate::rtl::object::case_literals(x.table@)[jj],
                        lits.len(),
                        regs.len(),
                    ) by {
                        assert(oa[2 + vx.len() + jj] == crate::rtl::object::case_literals(x.table@)[jj]);
                    }
                    crate::rtl::remap::lemma_case_literal_in(x.table@, k, lits.len(), regs.len());
                    assert(c.has(lits[l.0 as int]));
                }
            }
            assert forall|j: int| 0 <= j < ob.len() implies operand_in(#[trigger] ob[j], c.literals@.len() as nat, c.registers@.len() as nat) by {
                lemma_case_operands_in(c, y.lhs, y.discriminant, y.table@, j);
            }
        },
        _ => {
            assert forall|j: int| 0 <= j < ob.len() implies operand_in(#[trigger] ob[j], c.literals@.len() as nat, c.registers@.len() as nat) by {
                assert(c.has(crate::rtl::remap::table_operand(oa[j], lits, regs)));
            }
        },
    }
}


impl RTLCompiler {
    /// Appends an opcode with the location it already has.
    fn emit(&mut self, Ghost(obj): Ghost<RhifObject>, lop: LocatedOpCode)
        requires
            old(self).inv(obj),
            op_in(lop.op, old(self).literals@.len() as nat, old(self).registers@.len() as nat),
        ensures
            final(self).inv(obj),
            final(self).extends(*old(self)),
            final(self).literals == old(self).literals,
            final(self).registers == old(self).registers,
            final(self).lit_map == old(self).lit_map,
            final(self).reg_map == old(self).reg_map,
            final(self).ops@ == old(self).ops@.push(lop),
    {
        self.ops.push(lop);
        proof {
            assert forall|i: int| 0 <= i < self.ops@.len() implies op_in(
                #[trigger] self.ops@[i].op,
                self.literals@.len() as nat,
                self.registers@.len() as nat,
            ) by {
                if i < old(self).ops@.len() {
                    assert(self.ops@[i] == old(self).ops@[i]);
                }
            }
            RTLCompiler::lemma_inv_frame(*old(self), *self, obj);
        }
    }

    /// Inlines a call: the callee is lowered, its arguments are copied into
    /// its parameter registers, its opcodes are appended with their operands
    /// moved into this function's tables, and its result is copied into the
    /// target.
    fn make_exec(&mut self, obj: &RhifObject, x: &hf::Exec, id: NodeId) -> (r: Result<(), RHDLError>)
        requires
            old(self).inv(*obj),
            op_lowerable(*obj, hf::OpCode::Exec(*x)),
            !(x.lhs is Empty),
            lowerable(obj.externals@[x.id.0 as int]),
            !(obj.externals@[x.id.0 as int].return_slot is Empty),
        ensures
            final(self).inv(*obj),
            final(self).extends(*old(self)),
            r is Ok <==> lowering_ok(obj.externals@[x.id.0 as int]),
            r is Ok ==> exec_lowered(emitted(*old(self), *final(self)), *final(self), old(self).registers@.len() as nat, *obj, *x, id),
        decreases *obj, 0nat,
    {
        proof {
            assert(decreases_to!(*obj => obj.externals));
            assert(decreases_to!(obj.externals => obj.externals@));
            assert(decreases_to!(obj.externals@ => obj.externals@[x.id.0 as int]));
        }
        let sub = match compile_rtl(&obj.externals[x.id.0]) {
            Ok(s) => s,
            Err(e) => {
                proof {
                    lemma_extends_refl(*self);
                }
                return Err(e);
            },
        };
        let ghost s0 = *self;
        let ghost cp = arg_copies(x.args@, sub.arguments@);
        // Registers standing for the callee's registers.
        let mut reg_table: Vec<Option<Operand>> = Vec::new();
        let mut r: usize = 0;
        while r < sub.register_kind.len()
            invariant
                r <= sub.register_kind.len(),
                reg_table@.len() == r,
                forall|i: int| 0 <= i < r ==> #[trigger] reg_table@[i] is None,
            decreases sub.register_kind.len() - r,
        {
            reg_table.push(None);
            r += 1;
        }
        let n = if x.args.len() < sub.arguments.len() {
            x.args.len()
        } else {
            sub.arguments.len()
        };
        let mut k: usize = 0;
        proof {
            lemma_extends_refl(*self);
        }
        while k < n
            invariant
                k <= n,
                n <= x.args@.len(),
                n <= sub.arguments@.len(),
                n == (if x.args@.len() < sub.arguments@.len() { x.args@.len() } else { sub.arguments@.len() }),
                sub.wf(),
                op_lowerable(*obj, hf::OpCode::Exec(*x)),
                !(x.lhs is Empty),
                self.inv(*obj),
                self.extends(s0),
                s0 == *old(self),
                reg_table@.len() == sub.register_kind@.len(),
                forall|i: int|
                    0 <= i < reg_table@.len() ==> (#[trigger] reg_table@[i] is Some ==> reg_table@[i]->Some_0 is Register && self.has(reg_table@[i]->Some_0)
                        && (sub.register_kind@[i] is Some ==> reg_of_kind(*self, reg_table@[i]->Some_0, sub.register_kind@[i]->Some_0))),
                forall|i: int|
                    0 <= i < reg_table@.len() ==> (#[trigger] reg_table@[i] is Some ==> reg_table@[i]->Some_0->Register_0.0 >= s0.registers@.len()
                        && unmapped(*self, reg_table@[i]->Some_0)),
                forall|a: int, b: int|
                    #![trigger reg_table@[a], reg_table@[b]]
                    0 <= a < reg_table@.len() && 0 <= b < reg_table@.len() && a != b && reg_table@[a] is Some ==> reg_table@[a] != reg_table@[b],
                emitted(s0, *self).len() == copies_upto(x.args@, sub.arguments@, k as nat).len(),
                forall|t: int|
                    0 <= t < copies_upto(x.args@, sub.arguments@, k as nat).len() ==> {
                        let e = copies_upto(x.args@, sub.arguments@, k as nat)[t];
                        &&& e.1.0 < reg_table@.len()
                        &&& reg_table@[e.1.0 as int] is Some
                        &&& self.mapped(e.0) is Some
                        &&& #[trigger] emitted(s0, *self)[t] == at(
                            OpCode::Assign(tl::Assign { lhs: reg_table@[e.1.0 as int]->Some_0, rhs: self.opnd(e.0) }),
                            id,
                            self.fn_id,
                        )
                    },
            decreases n - k,
        {
            let ghost before = *self;
            let ghost rt0 = reg_table@;
            proof {
                assert(copies_upto(x.args@, sub.arguments@, (k + 1) as nat) == match sub.arguments@[k as int] {
                    Some(rr) => copies_upto(x.args@, sub.arguments@, k as nat).push((x.args@[k as int], rr)),
                    None => copies_upto(x.args@, sub.arguments@, k as nat),
                });
            }
            if let Some(fr) = sub.arguments[k] {
                proof {
                    assert(sub.has_operand(Operand::Register(fr)));
                }
                let dst = match reg_table[fr.0] {
                    Some(o) => o,
                    None => {
                        let kind = match sub.register_kind[fr.0] {
                            Some(kk) => kk,
                            None => RegisterKind::Unsigned(0),
                        };
                        let o = self.allocate_register_with_register_kind(Ghost(*obj), kind);
                        reg_table.set(fr.0, Some(o));
                        o
                    },
                };
                let ghost mid = *self;
                proof {
                    assert(obj.slot_ok(x.args@[k as int]));
                }
                let a = self.operand(obj, x.args[k]);
                let ghost mid2 = *self;
                let op = OpCode::Assign(tl::Assign { lhs: dst, rhs: a });
                self.lop(Ghost(*obj), op, id);
                proof {
                    lemma_extends_trans(before, mid, mid2);
                    lemma_extends_trans(before, mid2, *self);
                    lemma_extends_trans(s0, before, *self);
                    lemma_extends_trans(mid, mid2, *self);
                    assert forall|i: int|
                        0 <= i < reg_table@.len() implies (#[trigger] reg_table@[i] is Some ==> reg_table@[i]->Some_0->Register_0.0 >= s0.registers@.len()
                            && unmapped(*self, reg_table@[i]->Some_0)) by {
                        if rt0[i] is Some {
                            assert(reg_table@[i] == rt0[i]);
                            assert(before.has(rt0[i]->Some_0));
                            lemma_unmapped_stable(before, *self, rt0[i]->Some_0);
                        } else if reg_table@[i] is Some {
                            assert(i == fr.0);
                            lemma_unmapped_beyond(before, *obj, dst);
                            assert(mid.reg_map == before.reg_map);
                            lemma_unmapped_stable(mid, *self, dst);
                        }
                    }
                    assert forall|a: int, b: int|
                        #![trigger reg_table@[a], reg_table@[b]]
                        0 <= a < reg_table@.len() && 0 <= b < reg_table@.len() && a != b && reg_table@[a] is Some
                            implies reg_table@[a] != reg_table@[b] by {
                        if rt0[a] is Some && rt0[b] is Some {
                            assert(rt0[a] != rt0[b]);
                        } else if rt0[a] is None {
                            assert(a == fr.0);
                            assert(reg_table@[b] == rt0[b]);
                            if rt0[b] is Some {
                                assert(before.has(rt0[b]->Some_0));
                            }
                        } else if rt0[b] is None && reg_table@[b] is Some {
                            assert(b == fr.0);
                            assert(reg_table@[a] == rt0[a]);
                            assert(before.has(rt0[a]->Some_0));
                        }
                    }
                    assert(emitted(s0, *self) =~= emitted(s0, before).push(at(op, id, self.fn_id)));
                    lemma_mapped_stable(mid2, *self, x.args@[k as int]);
                    assert forall|i: int|
                        0 <= i < reg_table@.len() implies (#[trigger] reg_table@[i] is Some ==> reg_table@[i]->Some_0 is Register && self.has(reg_table@[i]->Some_0)
                            && (sub.register_kind@[i] is Some ==> reg_of_kind(*self, reg_table@[i]->Some_0, sub.register_kind@[i]->Some_0))) by {
                        if rt0[i] is Some {
                            assert(reg_table@[i] == rt0[i]);
                            if sub.register_kind@[i] is Some {
                                lemma_reg_of_kind_stable(before, *self, rt0[i]->Some_0, sub.register_kind@[i]->Some_0);
                            }
                        } else if reg_table@[i] is Some {
                            assert(i == fr.0);
                            lemma_reg_of_kind_stable(mid, *self, dst, mid.registers@[dst->Register_0.0 as int]);
                        }
                    }
                    let cpk = copies_upto(x.args@, sub.arguments@, k as nat);
                    let cpk1 = copies_upto(x.args@, sub.arguments@, (k + 1) as nat);
                    assert forall|t: int|
                        0 <= t < cpk1.len() implies {
                            let e = cpk1[t];
                            &&& e.1.0 < reg_table@.len()
                            &&& reg_table@[e.1.0 as int] is Some
                            &&& self.mapped(e.0) is Some
                            &&& #[trigger] emitted(s0, *self)[t] == at(
                                OpCode::Assign(tl::Assign { lhs: reg_table@[e.1.0 as int]->Some_0, rhs: self.opnd(e.0) }),
                                id,
                                self.fn_id,
                            )
                        } by {
                        if t < cpk.len() {
                            let e = cpk[t];
                            assert(cpk1[t] == e);
                            assert(emitted(s0, *self)[t] == emitted(s0, before)[t]);
                            lemma_mapped_stable(before, *self, e.0);
                            assert(reg_table@[e.1.0 as int] == rt0[e.1.0 as int]);
                        } else {
                            assert(cpk1[t] == (x.args@[k as int], fr));
                        }
                    }
                }
            } else {
                proof {
                    lemma_extends_refl(*self);
                }
            }
            k += 1;
        }
        let ghost s1 = *self;
        // Literals standing for the callee's literals.
        let mut lits: Vec<Operand> = Vec::new();
        let mut i: usize = 0;
        while i < sub.literals.len()
            invariant
                i <= sub.literals.len(),
                self.inv(*obj),
                self.extends(s1),
                self.ops == s1.ops,
                self.reg_map == s1.reg_map && self.lit_map == s1.lit_map,
                self.registers == s1.registers,
                lits@.len() == i,
                forall|j: int| 0 <= j < i ==> lit_holds(*self, #[trigger] lits@[j], sub.literals@[j]@),
            decreases sub.literals.len() - i,
        {
            let ghost before = *self;
            let o = self.allocate_literal_from_bit_string(Ghost(*obj), sub.literals[i].copy());
            proof {
                assert forall|j: int| 0 <= j < i implies lit_holds(*self, #[trigger] lits@[j], sub.literals@[j]@) by {
                    lemma_lit_holds_stable(before, *self, lits@[j], sub.literals@[j]@);
                }
                lemma_extends_trans(s1, before, *self);
            }
            lits.push(o);
            i += 1;
        }
        let ghost s2 = *self;
        let mut regs: Vec<Operand> = Vec::new();
        let mut r: usize = 0;
        while r < sub.register_kind.len()
            invariant
                r <= sub.register_kind.len(),
                self.inv(*obj),
                self.extends(s2),
                self.ops == s2.ops,
                self.reg_map == s2.reg_map && self.lit_map == s2.lit_map,
                reg_table@.len() == sub.register_kind@.len(),
                regs@.len() == r,
                forall|j: int| 0 <= j < r ==> (#[trigger] regs@[j]) is Register && self.has(regs@[j]) && (sub.register_kind@[j] is Some
                    ==> reg_of_kind(*self, regs@[j], sub.register_kind@[j]->Some_0)),
                forall|j: int| 0 <= j < r ==> (reg_table@[j] is Some ==> #[trigger] regs@[j] == reg_table@[j]->Some_0),
                forall|j: int|
                    0 <= j < reg_table@.len() ==> (#[trigger] reg_table@[j] is Some ==> reg_table@[j]->Some_0->Register_0.0 >= s0.registers@.len()
                        && reg_table@[j]->Some_0->Register_0.0 < s2.registers@.len() && unmapped(s2, reg_table@[j]->Some_0)),
                forall|a: int, b: int|
                    #![trigger reg_table@[a], reg_table@[b]]
                    0 <= a < reg_table@.len() && 0 <= b < reg_table@.len() && a != b && reg_table@[a] is Some ==> reg_table@[a] != reg_table@[b],
                s0.registers@.len() <= s2.registers@.len(),
                forall|j: int|
                    0 <= j < r ==> (#[trigger] regs@[j])->Register_0.0 >= s0.registers@.len() && unmapped(s2, regs@[j])
                        && (reg_table@[j] is None ==> regs@[j]->Register_0.0 >= s2.registers@.len()),
                forall|a: int, b: int|
                    #![trigger regs@[a], regs@[b]]
                    0 <= a < r && 0 <= b < r && a != b ==> regs@[a] != regs@[b],
                forall|j: int|
                    0 <= j < reg_table@.len() ==> (#[trigger] reg_table@[j] is Some ==> reg_table@[j]->Some_0 is Register && self.has(reg_table@[j]->Some_0)
                        && (sub.register_kind@[j] is Some ==> reg_of_kind(*self, reg_table@[j]->Some_0, sub.register_kind@[j]->Some_0))),
            decreases sub.register_kind.len() - r,
        {
            let ghost before = *self;
            let o = match reg_table[r] {
                Some(o) => o,
                None => {
                    let kind = match sub.register_kind[r] {
                        Some(kk) => kk,
                        None => RegisterKind::Unsigned(0),
                    };
                    self.allocate_register_with_register_kind(Ghost(*obj), kind)
                },
            };
            proof {
                lemma_extends_trans(s2, before, *self);
                if reg_table@[r as int] is None {
                    lemma_unmapped_beyond(before, *obj, o);
                }
                assert forall|j: int| 0 <= j < r implies #[trigger] regs@[j] != o by {
                    if reg_table@[j] is Some && reg_table@[r as int] is Some {
                        assert(reg_table@[j] != reg_table@[r as int]);
                    }
                    assert(before.has(regs@[j]));
                }
                assert forall|j: int| 0 <= j < r implies (#[trigger] regs@[j]) is Register && self.has(regs@[j]) && (sub.register_kind@[j] is Some
                    ==> reg_of_kind(*self, regs@[j], sub.register_kind@[j]->Some_0)) by {
                    if sub.register_kind@[j] is Some {
                        lemma_reg_of_kind_stable(before, *self, regs@[j], sub.register_kind@[j]->Some_0);
                    }
                }
                assert forall|j: int|
                    0 <= j < reg_table@.len() implies (#[trigger] reg_table@[j] is Some ==> reg_table@[j]->Some_0 is Register && self.has(reg_table@[j]->Some_0)
                        && (sub.register_kind@[j] is Some ==> reg_of_kind(*self, reg_table@[j]->Some_0, sub.register_kind@[j]->Some_0))) by {
                    if reg_table@[j] is Some && sub.register_kind@[j] is Some {
                        lemma_reg_of_kind_stable(before, *self, reg_table@[j]->Some_0, sub.register_kind@[j]->Some_0);
                    }
                }
            }
            let ghost rg0 = regs@;
            regs.push(o);
            proof {
                assert forall|a: int, b: int|
                    #![trigger regs@[a], regs@[b]]
                    0 <= a < r + 1 && 0 <= b < r + 1 && a != b implies regs@[a] != regs@[b] by {
                    if a < r && b < r {
                        assert(rg0[a] != rg0[b]);
                    }
                }
            }
            r += 1;
        }
        let ghost s3 = *self;
        let ghost lv = lits@;
        let ghost rv = regs@;
        let sub_ret = match sub.return_register {
            Some(o) => o,
            None => {
                proof {
                    assert(false);
                }
                Operand::Register(RegisterId(0))
            },
        };
        let ret = match sub_ret {
            Operand::Literal(l) => lits[l.0],
            Operand::Register(rr) => regs[rr.0],
        };
        let table = crate::rtl::remap::ExecMap::Table(lits, regs);
        let mut j: usize = 0;
        while j < sub.ops.len()
            invariant
                j <= sub.ops.len(),
                sub.wf(),
                table.model() == crate::rtl::remap::OperandMap::Table(lv, rv),
                lv.len() == sub.literals@.len(),
                rv.len() == sub.register_kind@.len(),
                forall|q: int| 0 <= q < lv.len() ==> c_has_lit(*self, #[trigger] lv[q]),
                forall|q: int| 0 <= q < rv.len() ==> self.has(#[trigger] rv[q]),
                self.inv(*obj),
                self.extends(s3),
                self.literals == s3.literals && self.registers == s3.registers,
                self.reg_map == s3.reg_map && self.lit_map == s3.lit_map,
                emitted(s3, *self).len() == j,
                forall|q: int|
                    0 <= q < j ==> (#[trigger] emitted(s3, *self)[q]).id == sub.ops@[q].id && emitted(s3, *self)[q].func
                        == sub.ops@[q].func && crate::rtl::remap::operands_mapped(
                        sub.ops@[q].op,
                        emitted(s3, *self)[q].op,
                        crate::rtl::remap::OperandMap::Table(lv, rv),
                    ),
            decreases sub.ops.len() - j,
        {
            let ghost before = *self;
            proof {
                assert forall|q: int| 0 <= q < crate::rtl::object::op_operands(sub.ops@[j as int].op).len() implies operand_in(
                    #[trigger] crate::rtl::object::op_operands(sub.ops@[j as int].op)[q],
                    lv.len(),
                    rv.len(),
                ) by {
                    assert(sub.has_operand(crate::rtl::object::op_operands(sub.ops@[j as int].op)[q]));
                }
                assert(forall|q: int| 0 <= q < lv.len() ==> (#[trigger] lv[q]) is Literal);
            }
            let op = crate::rtl::remap::map_operands(&sub.ops[j].op, &table);
            proof {
                lemma_table_op_in(*self, sub.ops@[j as int].op, op, lv, rv);
            }
            self.emit(Ghost(*obj), LocatedOpCode { op, id: sub.ops[j].id, func: sub.ops[j].func });
            proof {
                lemma_extends_trans(s3, before, *self);
                assert(emitted(s3, *self) =~= emitted(s3, before).push(LocatedOpCode { op, id: sub.ops@[j as int].id, func: sub.ops@[j as int].func }));
                assert forall|q: int| 0 <= q < j implies #[trigger] emitted(s3, *self)[q] == emitted(s3, before)[q] by {}
            }
            j += 1;
        }
        let ghost s4 = *self;
        let lhs = self.operand(obj, x.lhs);
        let ghost s5 = *self;
        let op = OpCode::Assign(tl::Assign { lhs, rhs: ret });
        proof {
            assert(sub.has_operand(sub.return_register->Some_0));
        }
        self.lop(Ghost(*obj), op, id);
        proof {
            lemma_extends_trans(s0, s1, s2);
            lemma_extends_trans(s0, s2, s3);
            lemma_extends_trans(s0, s3, s4);
            lemma_extends_trans(s0, s4, s5);
            lemma_extends_trans(s0, s5, *self);
            lemma_extends_trans(s1, s2, s3);
            lemma_extends_trans(s1, s3, s4);
            lemma_extends_trans(s1, s4, s5);
            lemma_extends_trans(s1, s5, *self);
            lemma_extends_trans(s2, s3, s4);
            lemma_extends_trans(s2, s4, s5);
            lemma_extends_trans(s2, s5, *self);
            lemma_extends_trans(s3, s4, s5);
            lemma_extends_trans(s3, s5, *self);
            lemma_extends_trans(s4, s5, *self);
            let seg = emitted(s0, *self);
            let m = cp.len();
            let nops = sub.ops@.len();
            assert(seg =~= emitted(s0, s1) + emitted(s3, s4) + seq![at(op, id, self.fn_id)]);
            assert(exec_body(seg, *self, s0.registers@.len() as nat, *x, sub, lv, rv, id)) by {
                assert forall|q: int| 0 <= q < lv.len() implies lit_holds(*self, #[trigger] lv[q], sub.literals@[q]@) by {
                    assert(lit_holds(s2, lv[q], sub.literals@[q]@));
                    lemma_lit_holds_stable(s2, *self, lv[q], sub.literals@[q]@);
                }
                assert forall|rr: int| 0 <= rr < rv.len() implies (sub.register_kind@[rr] is Some ==> reg_of_kind(
                    *self,
                    #[trigger] rv[rr],
                    sub.register_kind@[rr]->Some_0,
                )) && self.has(rv[rr]) && rv[rr] is Register && rv[rr]->Register_0.0 >= s0.registers@.len() && unmapped(*self, rv[rr]) by {
                    if sub.register_kind@[rr] is Some {
                        lemma_reg_of_kind_stable(s3, *self, rv[rr], sub.register_kind@[rr]->Some_0);
                    }
                    assert(s3.has(rv[rr]));
                    assert(s4.reg_map == s2.reg_map);
                    lemma_unmapped_stable(s4, *self, rv[rr]);
                }
                assert forall|t: int| 0 <= t < m implies #[trigger] seg[t] == at(
                    OpCode::Assign(tl::Assign { lhs: rv[cp[t].1.0 as int], rhs: self.opnd(cp[t].0) }),
                    id,
                    self.fn_id,
                ) by {
                    assert(seg[t] == emitted(s0, s1)[t]);
                    lemma_mapped_stable(s1, *self, cp[t].0);
                }
                assert forall|q: int| 0 <= q < nops implies (#[trigger] seg[m + q]).id == sub.ops@[q].id && seg[m + q].func == sub.ops@[q].func
                    && crate::rtl::remap::operands_mapped(
                    sub.ops@[q].op,
                    seg[m + q].op,
                    crate::rtl::remap::OperandMap::Table(lv, rv),
                ) by {
                    assert(seg[m + q] == emitted(s3, s4)[q]);
                }
                lemma_mapped_stable(s5, *self, x.lhs);
            }
            assert(lowering(obj.externals@[x.id.0 as int], sub));
        }
        Ok(())
    }
}

/// The operand is a literal that exists.
pub open spec fn c_has_lit(c: RTLCompiler, o: Operand) -> bool {
    o is Literal && c.has(o)
}


impl RTLCompiler {
    /// Lowers one opcode.
    fn translate_op(&mut self, obj: &RhifObject, op: &hf::OpCode, id: NodeId) -> (r: Result<(), RHDLError>)
        requires
            old(self).inv(*obj),
            op_lowerable(*obj, *op),
            callee(*obj, *op) is Some ==> lowerable(callee(*obj, *op)->Some_0) && !(callee(*obj, *op)->Some_0.return_slot is Empty),
        ensures
            final(self).inv(*obj),
            final(self).extends(*old(self)),
            r is Ok <==> (op_ok(*obj, *op) && (callee(*obj, *op) is Some ==> lowering_ok(callee(*obj, *op)->Some_0))),
            r is Ok ==> lowered_op(emitted(*old(self), *final(self)), *final(self), old(self).registers@.len() as nat, *obj, *op, id),
        decreases *obj, 1nat,
    {
        let ghost s0 = *self;
        let r = match op {
            hf::OpCode::Noop => {
                proof {
                    lemma_extends_refl(*self);
                }
                Ok(())
            },
            hf::OpCode::Comment(c) => {
                let t = OpCode::Comment(c.clone());
                self.lop(Ghost(*obj), t, id);
                Ok(())
            },
            hf::OpCode::Binary(x) => {
                self.make_binary(obj, x, id);
                Ok(())
            },
            hf::OpCode::Unary(x) => {
                self.make_unary(obj, x, id);
                Ok(())
            },
            hf::OpCode::Select(x) => {
                self.make_select(obj, x, id);
                Ok(())
            },
            hf::OpCode::Retime(x) => {
                self.make_retime(obj, x, id);
                Ok(())
            },
            hf::OpCode::Repeat(x) => {
                self.make_repeat(obj, x, id);
                Ok(())
            },
            hf::OpCode::Assign(x) => {
                self.make_assign(obj, x, id);
                Ok(())
            },
            hf::OpCode::AsBits(x) => self.make_as_bits(obj, x, id),
            hf::OpCode::AsSigned(x) => self.make_as_signed(obj, x, id),
            hf::OpCode::Resize(x) => self.make_resize(obj, x, id),
            hf::OpCode::Array(x) => {
                self.make_array(obj, x, id);
                Ok(())
            },
            hf::OpCode::Tuple(x) => {
                self.make_tuple(obj, x, id);
                Ok(())
            },
            hf::OpCode::Case(x) => self.make_case(obj, x, id),
            hf::OpCode::Index(x) => self.make_index(obj, x, id),
            hf::OpCode::Splice(x) => self.make_splice(obj, x, id),
            hf::OpCode::Struct(x) => self.make_struct(obj, x, id),
            hf::OpCode::Wrap(x) => self.make_wrap(obj, x, id),
            hf::OpCode::Exec(x) => {
                if x.lhs.is_empty() {
                    proof {
                        lemma_extends_refl(*self);
                    }
                    Ok(())
                } else {
                    self.make_exec(obj, x, id)
                }
            },
        };
        proof {
            if r is Ok {
                match *op {
                    hf::OpCode::Noop => {
                        assert(emitted(s0, *self) =~= Seq::<LocatedOpCode>::empty());
                    },
                    hf::OpCode::Comment(_) => {
                        assert(emitted(s0, *self) =~= seq![self.ops@.last()]);
                    },
                    _ => {
                        if *self == s0 {
                            assert(emitted(s0, *self) =~= Seq::<LocatedOpCode>::empty());
                        }
                    },
                }
            }
        }
        r
    }

    /// Lowers every opcode in order, giving the state after each.
    fn translate(&mut self, obj: &RhifObject) -> (r: Result<Ghost<Seq<RTLCompiler>>, RHDLError>)
        requires
            old(self).inv(*obj),
            lowerable(*obj),
        ensures
            final(self).inv(*obj),
            final(self).extends(*old(self)),
            r is Ok <==> lowering_ok(*obj),
            r matches Ok(t) ==> {
                &&& t@.len() == obj.ops@.len() + 1
                &&& t@[0] == *old(self)
                &&& t@.last() == *final(self)
                &&& forall|i: int|
                    0 <= i < obj.ops@.len() ==> (#[trigger] t@[i + 1]).extends(t@[i]) && t@[i + 1].inv(*obj)
                        && lowered_op(emitted(t@[i], t@[i + 1]), t@[i + 1], t@[i].registers@.len() as nat, *obj, obj.ops@[i].op, obj.ops@[i].id)
            },
        decreases *obj, 2nat,
    {
        let ghost s0 = *self;
        let ghost mut trace: Seq<RTLCompiler> = seq![*self];
        let mut i: usize = 0;
        proof {
            lemma_extends_refl(*self);
        }
        while i < obj.ops.len()
            invariant
                i <= obj.ops.len(),
                lowerable(*obj),
                self.inv(*obj),
                self.extends(s0),
                s0 == *old(self),
                trace.len() == i + 1,
                trace[0] == s0,
                trace.last() == *self,
                forall|j: int|
                    0 <= j < i ==> (#[trigger] trace[j + 1]).extends(trace[j]) && trace[j + 1].inv(*obj)
                        && lowered_op(emitted(trace[j], trace[j + 1]), trace[j + 1], trace[j].registers@.len() as nat, *obj, obj.ops@[j].op, obj.ops@[j].id),
                forall|j: int|
                    0 <= j < i ==> op_ok(*obj, (#[trigger] obj.ops@[j]).op) && (callee(*obj, obj.ops@[j].op) is Some
                        ==> lowering_ok(callee(*obj, obj.ops@[j].op)->Some_0)),
            decreases obj.ops.len() - i,
        {
            let ghost before = *self;
            proof {
                assert(op_lowerable(*obj, obj.ops@[i as int].op));
                if let hf::OpCode::Exec(x) = obj.ops@[i as int].op {
                    if callee(*obj, obj.ops@[i as int].op) is Some {
                        assert(lowerable(obj.externals@[x.id.0 as int]));
                        assert(!(obj.externals@[x.id.0 as int].return_slot is Empty));
                    }
                }
            }
            match self.translate_op(obj, &obj.ops[i].op, obj.ops[i].id) {
                Ok(_) => {},
                Err(e) => {
                    proof {
                        lemma_extends_trans(s0, before, *self);
                        assert(!lowering_ok(*obj)) by {
                            let op = obj.ops@[i as int].op;
                            assert(!(op_ok(*obj, op) && (callee(*obj, op) is Some ==> lowering_ok(callee(*obj, op)->Some_0))));
                            if let hf::OpCode::Exec(x) = op {
                                if callee(*obj, op) is Some {
                                    assert(callee(*obj, op)->Some_0 == obj.externals@[op->Exec_0.id.0 as int]);
                                }
                            }
                        }
                    }
                    return Err(e);
                },
            }
            proof {
                lemma_extends_trans(s0, before, *self);
                trace = trace.push(*self);
                assert forall|j: int|
                    0 <= j < i + 1 implies (#[trigger] trace[j + 1]).extends(trace[j]) && trace[j + 1].inv(*obj)
                        && lowered_op(emitted(trace[j], trace[j + 1]), trace[j + 1], trace[j].registers@.len() as nat, *obj, obj.ops@[j].op, obj.ops@[j].id) by {
                    if j < i {
                        assert(trace[j + 1] == trace.drop_last()[j + 1]);
                        assert(trace[j] == trace.drop_last()[j]);
                    } else {
                        assert(trace[j] == before);
                    }
                }
                if let hf::OpCode::Exec(x) = obj.ops@[i as int].op {
                    if callee(*obj, obj.ops@[i as int].op) is Some {
                        assert(callee(*obj, obj.ops@[i as int].op)->Some_0 == obj.externals@[x.id.0 as int]);
                    }
                }
            }
            i += 1;
        }
        proof {
            assert forall|j: int| 0 <= j < obj.ops@.len() implies op_ok(*obj, (#[trigger] obj.ops@[j]).op) && (callee(*obj, obj.ops@[j].op) is Some
                ==> lowering_ok(obj.externals@[obj.ops@[j].op->Exec_0.id.0 as int])) by {
                if callee(*obj, obj.ops@[j].op) is Some {
                    assert(callee(*obj, obj.ops@[j].op)->Some_0 == obj.externals@[obj.ops@[j].op->Exec_0.id.0 as int]);
                }
            }
        }
        Ok(Ghost(trace))
    }
}

/// Lowers an object to register-transfer form: each opcode in turn (calls
/// inlined), then the arguments and the result are given their operands.
pub fn compile_rtl(object: &RhifObject) -> (r: Result<crate::rtl::object::Object, RHDLError>)
    requires
        lowerable(*object),
    ensures
        r is Ok <==> lowering_ok(*object),
        r matches Ok(out) ==> lowering(*object, out) && out.wf(),
        r matches Ok(out) ==> (out.return_register is None <==> object.return_slot is Empty),
    decreases *object, 3nat,
{
    let mut compiler = RTLCompiler::new(object);
    let ghost s0 = compiler;
    let trace = match compiler.translate(object) {
        Ok(t) => t,
        Err(e) => {
            return Err(e);
        },
    };
    let ghost s1 = compiler;
    let mut arguments: Vec<Option<RegisterId>> = Vec::new();
    let mut j: usize = 0;
    proof {
        lemma_extends_refl(compiler);
    }
    while j < object.arguments.len()
        invariant
            j <= object.arguments.len(),
            lowerable(*object),
            compiler.inv(*object),
            compiler.extends(s1),
            compiler.ops == s1.ops,
            arguments@.len() == j,
            forall|k: int|
                0 <= k < j ==> (!crate::types::kind::kv_is_empty(
                    object.slot_kind(Slot::Register(#[trigger] object.arguments@[k]))->Some_0,
                ) ==> compiler.mapped(Slot::Register(object.arguments@[k])) is Some),
            forall|k: int|
                0 <= k < j ==> #[trigger] arguments@[k] == if crate::types::kind::kv_is_empty(
                    object.slot_kind(Slot::Register(object.arguments@[k]))->Some_0,
                ) {
                    None
                } else {
                    Some(compiler.opnd(Slot::Register(object.arguments@[k]))->Register_0)
                },
        decreases object.arguments.len() - j,
    {
        let ghost before = compiler;
        let x = object.arguments[j];
        proof {
            assert(object.slot_ok(Slot::Register(object.arguments@[j as int])));
        }
        if object.kind(Slot::Register(x)).is_empty() {
            arguments.push(None);
            proof {
                lemma_extends_refl(compiler);
            }
        } else {
            let o = compiler.operand(object, Slot::Register(x));
            proof {
                assert(compiler.reg_ok(*object, x.0 as int));
                lemma_extends_trans(s1, before, compiler);
                assert forall|k: int|
                    0 <= k < j implies (!crate::types::kind::kv_is_empty(
                        object.slot_kind(Slot::Register(#[trigger] object.arguments@[k]))->Some_0,
                    ) ==> compiler.mapped(Slot::Register(object.arguments@[k])) is Some) by {
                    lemma_mapped_stable(before, compiler, Slot::Register(object.arguments@[k]));
                }
                assert forall|k: int| 0 <= k < j implies #[trigger] arguments@[k] == if crate::types::kind::kv_is_empty(
                    object.slot_kind(Slot::Register(object.arguments@[k]))->Some_0,
                ) {
                    None
                } else {
                    Some(compiler.opnd(Slot::Register(object.arguments@[k]))->Register_0)
                } by {
                    lemma_mapped_stable(before, compiler, Slot::Register(object.arguments@[k]));
                }
            }
            let reg = match o {
                Operand::Register(r) => r,
                Operand::Literal(_) => RegisterId(0),
            };
            arguments.push(Some(reg));
        }
        j += 1;
    }
    let ghost s2 = compiler;
    let return_register = if matches!(object.return_slot, Slot::Empty) {
        proof {
            lemma_extends_refl(compiler);
        }
        None
    } else {
        Some(compiler.operand(object, object.return_slot))
    };
    proof {
        lemma_extends_trans(s1, s2, compiler);
        assert forall|k: int|
            0 <= k < object.arguments@.len() implies (!crate::types::kind::kv_is_empty(
                object.slot_kind(Slot::Register(#[trigger] object.arguments@[k]))->Some_0,
            ) ==> compiler.mapped(Slot::Register(object.arguments@[k])) is Some) by {
            lemma_mapped_stable(s2, compiler, Slot::Register(object.arguments@[k]));
        }
        assert forall|k: int| 0 <= k < object.arguments@.len() implies #[trigger] arguments@[k] == if crate::types::kind::kv_is_empty(
            object.slot_kind(Slot::Register(object.arguments@[k]))->Some_0,
        ) {
            None
        } else {
            Some(compiler.opnd(Slot::Register(object.arguments@[k]))->Register_0)
        } by {
            lemma_mapped_stable(s2, compiler, Slot::Register(object.arguments@[k]));
        }
    }
    let mut register_kind: Vec<Option<RegisterKind>> = Vec::new();
    let mut k: usize = 0;
    while k < compiler.registers.len()
        invariant
            k <= compiler.registers.len(),
            register_kind@ == compiler.registers@.take(k as int).map_values(|rk: RegisterKind| Some(rk)),
        decreases compiler.registers.len() - k,
    {
        register_kind.push(Some(compiler.registers[k]));
        k += 1;
        proof {
            assert(register_kind@ =~= compiler.registers@.take(k as int).map_values(|rk: RegisterKind| Some(rk)));
        }
    }
    proof {
        assert(compiler.registers@.take(compiler.registers@.len() as int) =~= compiler.registers@);
    }
    let ghost fin = compiler;
    let RTLCompiler { literals, registers: _, lit_map: _, reg_map: _, ops, fn_id: _ } = compiler;
    let out = crate::rtl::object::Object {
        literals,
        register_kind,
        ops,
        arguments,
        return_register,
        symbols: object.symbols.copy(),
        name: object.name.clone(),
        fn_id: object.fn_id,
    };
    proof {
        assert(lowering_trace(*object, trace@, fin));
        assert(compiled_object(*object, trace@, fin, out));
        assert(lowering(*object, out));
        assert(out.wf()) by {
            assert forall|i: int, q: int|
                0 <= i < out.ops@.len() && 0 <= q < crate::rtl::object::op_operands(out.ops@[i].op).len()
                    implies out.has_operand(#[trigger] crate::rtl::object::op_operands(out.ops@[i].op)[q]) by {
                assert(op_in(fin.ops@[i].op, fin.literals@.len() as nat, fin.registers@.len() as nat));
                assert(operand_in(crate::rtl::object::op_operands(out.ops@[i].op)[q], fin.literals@.len() as nat, fin.registers@.len() as nat));
            }
            assert forall|i: int| 0 <= i < out.arguments@.len() implies (#[trigger] out.arguments@[i] matches Some(r)
                ==> out.has_operand(Operand::Register(r))) by {
                if out.arguments@[i] is Some {
                    let a = object.arguments@[i];
                    assert(fin.reg_ok(*object, a.0 as int));
                }
            }
        }
    }
    Ok(out)
}

/// Lowers an object to register-transfer form.
pub fn compile_to_rtl(object: &RhifObject) -> (r: Result<crate::rtl::object::Object, RHDLError>)
    requires
        lowerable(*object),
    ensures
        r is Ok <==> lowering_ok(*object),
        r matches Ok(out) ==> lowering(*object, out) && out.wf(),
{
    compile_rtl(object)
}

} // verus!
