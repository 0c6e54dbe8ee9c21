use vstd::prelude::*;

use crate::ast::NodeId;
use crate::error::{RHDLError, ICE};
use crate::rhif::object::Object;
use crate::rhif::remap::{op_lhs, op_read_slots, op_reads, op_write_slot};
use crate::rhif::spec::{LocatedOpCode, OpCode, RegisterId, Slot};

verus! {

/// Reading `s` is allowed: literals and the empty slot always, registers once written.
pub open spec fn read_ok(init: Set<Slot>, s: Slot) -> bool {
    s is Register ==> init.contains(s)
}

/// Writing `s` is allowed: never a literal, and a register only once.
pub open spec fn write_ok(init: Set<Slot>, s: Slot) -> bool {
    &&& !(s is Literal)
    &&& s is Register ==> !init.contains(s)
}

/// The initialized set after writing `s`.
pub open spec fn after_write(init: Set<Slot>, s: Slot) -> Set<Slot> {
    if s is Register {
        init.insert(s)
    } else {
        init
    }
}

/// One opcode reads only initialized slots and writes a fresh one.
pub open spec fn op_flow_ok(init: Set<Slot>, op: OpCode) -> bool {
    &&& forall|i: int| 0 <= i < op_reads(op).len() ==> read_ok(init, #[trigger] op_reads(op)[i])
    &&& write_ok(init, op_lhs(op))
}

/// Every opcode, in order, reads only slots written before it and writes each
/// register at most once.
pub open spec fn flow_ok(init: Set<Slot>, ops: Seq<LocatedOpCode>) -> bool
    decreases ops.len(),
{
    ops.len() == 0 || (op_flow_ok(init, ops[0].op) && flow_ok(
        after_write(init, op_lhs(ops[0].op)),
        ops.drop_first(),
    ))
}

/// The registers that the opcodes write.
pub open spec fn written(ops: Seq<LocatedOpCode>) -> Set<Slot> {
    Set::new(|s: Slot| s is Register && exists|i: int| 0 <= i < ops.len() && #[trigger] op_lhs(ops[i].op) == s)
}

/// The arguments are distinct registers; the set of slots they initialize.
pub open spec fn args_ok(init: Set<Slot>, args: Seq<RegisterId>) -> bool
    decreases args.len(),
{
    args.len() == 0 || (!init.contains(Slot::Register(args[0]))
        && args_ok(init.insert(Slot::Register(args[0])), args.drop_first()))
}

pub open spec fn args_set(init: Set<Slot>, args: Seq<RegisterId>) -> Set<Slot>
    decreases args.len(),
{
    if args.len() == 0 {
        init
    } else {
        args_set(init.insert(Slot::Register(args[0])), args.drop_first())
    }
}

/// The registers initialized so far.
#[derive(Debug)]
struct InitSet {
    set: Vec<bool>,
}

impl View for InitSet {
    type V = Set<Slot>;

    closed spec fn view(&self) -> Set<Slot> {
        Set::new(|s: Slot| s matches Slot::Register(r) && r.0 < self.set@.len() && self.set@[r.0 as int])
    }
}

impl InitSet {
    fn new() -> (r: InitSet)
        ensures
            r@ == Set::<Slot>::empty(),
    {
        let r = InitSet { set: Vec::new() };
        proof {
            assert(r@ =~= Set::<Slot>::empty());
        }
        r
    }

    fn contains(&self, s: Slot) -> (r: bool)
        ensures
            r == self@.contains(s),
    {
        match s {
            Slot::Register(r) => r.0 < self.set.len() && self.set[r.0],
            _ => false,
        }
    }

    fn insert(&mut self, s: Slot)
        ensures
            final(self)@ == after_write(old(self)@, s),
    {
        if let Slot::Register(r) = s {
            while self.set.len() <= r.0
                invariant
                    self@ == old(self)@,
                decreases r.0 + 1 - self.set.len(),
            {
                let ghost before = self@;
                self.set.push(false);
                proof {
                    assert(self@ =~= before);
                }
            }
            self.set.set(r.0, true);
            proof {
                assert(self@ =~= old(self)@.insert(s));
            }
        }
    }

    fn read_all(&self, slots: &Vec<Slot>, id: NodeId) -> (r: Result<(), RHDLError>)
        ensures
            r is Ok <==> forall|i: int| 0 <= i < slots@.len() ==> read_ok(self@, #[trigger] slots@[i]),
    {
        let mut i: usize = 0;
        while i < slots.len()
            invariant
                i <= slots.len(),
                forall|j: int| 0 <= j < i ==> read_ok(self@, #[trigger] slots@[j]),
            decreases slots.len() - i,
        {
            let r = self.read(&slots[i], id);
            if r.is_err() {
                return r;
            }
            i += 1;
        }
        Ok(())
    }

    fn read(&self, slot: &Slot, id: NodeId) -> (r: Result<(), RHDLError>)
        ensures
            r is Ok <==> read_ok(self@, *slot),
            r matches Err(e) ==> e matches RHDLError::Compile {
                cause: ICE::SlotIsReadBeforeBeingWritten { slot: s },
                id: i,
            } && s == *slot && i == id,
    {
        match slot {
            Slot::Empty | Slot::Literal(_) => {},
            Slot::Register(_) => {
                if !self.contains(*slot) {
                    return Err(
                        RHDLError::Compile {
                            cause: ICE::SlotIsReadBeforeBeingWritten { slot: *slot },
                            id,
                        },
                    );
                }
            },
        }
        Ok(())
    }

    fn write(&mut self, slot: &Slot, id: NodeId) -> (r: Result<(), RHDLError>)
        ensures
            r is Ok <==> write_ok(old(self)@, *slot),
            r is Ok ==> final(self)@ == after_write(old(self)@, *slot),
            r matches Err(e) ==> match *slot {
                Slot::Literal(l) => e matches RHDLError::Compile {
                    cause: ICE::CannotWriteToLiteral { ndx },
                    id: i,
                } && ndx == l.0 && i == id,
                _ => e matches RHDLError::Compile {
                    cause: ICE::SlotIsWrittenTwice { slot: s },
                    id: i,
                } && s == *slot && i == id,
            },
    {
        match slot {
            Slot::Empty => {},
            Slot::Literal(ndx) => {
                return Err(
                    RHDLError::Compile { cause: ICE::CannotWriteToLiteral { ndx: ndx.0 }, id },
                );
            },
            Slot::Register(_) => {
                if self.contains(*slot) {
                    return Err(
                        RHDLError::Compile { cause: ICE::SlotIsWrittenTwice { slot: *slot }, id },
                    );
                }
                self.insert(*slot);
            },
        }
        Ok(())
    }

    /// The registers initialized in both sets.
    fn intersect(&self, other: &InitSet) -> (r: InitSet)
        ensures
            r@ == self@.intersect(other@),
    {
        let mut set: Vec<bool> = Vec::new();
        let mut i: usize = 0;
        while i < self.set.len()
            invariant
                i <= self.set.len(),
                set@.len() == i,
                forall|j: int|
                    0 <= j < i ==> #[trigger] set@[j] == (self.set@[j] && j < other.set@.len()
                        && other.set@[j]),
            decreases self.set.len() - i,
        {
            set.push(self.set[i] && i < other.set.len() && other.set[i]);
            i += 1;
        }
        let r = InitSet { set };
        proof {
            assert(r@ =~= self@.intersect(other@));
        }
        r
    }
}

/// Checks that the function reads every register only after writing it, writes
/// every register at most once, and never writes a literal.
pub fn check_rhif_flow(obj: &Object) -> (r: Result<(), RHDLError>)
    ensures
        r is Ok <==> args_ok(Set::empty(), obj.arguments@) && flow_ok(
            args_set(Set::empty(), obj.arguments@),
            obj.ops@,
        ),
{
    let mut init_set = InitSet::new();
    let mut i: usize = 0;
    proof {
        assert(obj.arguments@.skip(0) =~= obj.arguments@);
    }
    while i < obj.arguments.len()
        invariant
            i <= obj.arguments.len(),
            args_ok(Set::empty(), obj.arguments@) <==> args_ok(init_set@, obj.arguments@.skip(i as int)),
            args_set(Set::empty(), obj.arguments@) == args_set(init_set@, obj.arguments@.skip(i as int)),
        decreases obj.arguments.len() - i,
    {
        let arg = Slot::Register(obj.arguments[i]);
        proof {
            assert(obj.arguments@.skip(i as int)[0] == obj.arguments@[i as int]);
            assert(obj.arguments@.skip(i as int).drop_first() =~= obj.arguments@.skip(i + 1));
        }
        let r = init_set.write(&arg, NodeId(u32::MAX));
        if r.is_err() {
            return r;
        }
        i += 1;
    }
    proof {
        assert(obj.arguments@.skip(i as int) =~= Seq::<RegisterId>::empty());
    }
    match check_flow(obj, init_set) {
        Ok(_) => Ok(()),
        Err(e) => Err(e),
    }
}

fn check_flow(obj: &Object, init: InitSet) -> (r: Result<InitSet, RHDLError>)
    ensures
        r is Ok <==> flow_ok(init@, obj.ops@),
        r matches Ok(out) ==> out@ == init@.union(written(obj.ops@)),
{
    let mut init_set = init;
    let mut i: usize = 0;
    proof {
        assert(obj.ops@.skip(0) =~= obj.ops@);
        assert(init_set@ =~= init@.union(written(obj.ops@.take(0))));
    }
    while i < obj.ops.len()
        invariant
            i <= obj.ops.len(),
            flow_ok(init@, obj.ops@) <==> flow_ok(init_set@, obj.ops@.skip(i as int)),
            init_set@ == init@.union(written(obj.ops@.take(i as int))),
        decreases obj.ops.len() - i,
    {
        let ghost before = init_set@;
        let op = &obj.ops[i].op;
        let id = obj.ops[i].id;
        proof {
            assert(obj.ops@.skip(i as int)[0] == obj.ops@[i as int]);
            assert(obj.ops@.skip(i as int).drop_first() =~= obj.ops@.skip(i + 1));
        }
        let reads = op_read_slots(op);
        let r = init_set.read_all(&reads, id);
        if r.is_err() {
            return Err(r.unwrap_err());
        }
        let lhs = op_write_slot(op);
        let w = init_set.write(&lhs, id);
        if w.is_err() {
            return Err(w.unwrap_err());
        }
        proof {
            let ops = obj.ops@;
            assert(lhs == op_lhs(ops[i as int].op));
            assert forall|x: Slot| init_set@.contains(x) == init@.union(written(ops.take(i + 1))).contains(x) by {
                if written(ops.take(i + 1)).contains(x) && !init@.contains(x) {
                    let k = choose|k: int| 0 <= k < ops.take(i + 1).len() && #[trigger] op_lhs(ops.take(i + 1)[k].op) == x;
                    if k < i {
                        assert(ops.take(i as int)[k] == ops[k]);
                        assert(written(ops.take(i as int)).contains(x));
                    } else {
                        assert(ops.take(i + 1)[k] == ops[i as int]);
                    }
                }
                if written(ops.take(i as int)).contains(x) {
                    let k = choose|k: int| 0 <= k < ops.take(i as int).len() && #[trigger] op_lhs(ops.take(i as int)[k].op) == x;
                    assert(ops.take(i + 1)[k] == ops.take(i as int)[k]);
                    assert(written(ops.take(i + 1)).contains(x));
                }
                if x == lhs && lhs is Register {
                    assert(ops.take(i + 1)[i as int] == ops[i as int]);
                    assert(written(ops.take(i + 1)).contains(x));
                }
            }
            assert(init_set@ =~= init@.union(written(ops.take(i + 1))));
        }
        i += 1;
    }
    proof {
        assert(obj.ops@.skip(i as int) =~= Seq::<LocatedOpCode>::empty());
        assert(obj.ops@.take(i as int) =~= obj.ops@);
    }
    Ok(init_set)
}

/// A flow-correct function writes each register at most once: no two opcodes
/// have the same register as target, and no opcode targets a register that is
/// already initialized.
pub proof fn lemma_flow_ok_single_assignment(init: Set<Slot>, ops: Seq<LocatedOpCode>, i: int, j: int)
    requires
        flow_ok(init, ops),
        0 <= i < j < ops.len(),
        op_lhs(ops[i].op) is Register,
    ensures
        op_lhs(ops[j].op) != op_lhs(ops[i].op),
    decreases ops.len(),
{
    if i == 0 {
        lemma_flow_ok_never_rewrites(
            after_write(init, op_lhs(ops[0].op)),
            ops.drop_first(),
            j - 1,
            op_lhs(ops[0].op),
        );
    } else {
        lemma_flow_ok_single_assignment(
            after_write(init, op_lhs(ops[0].op)),
            ops.drop_first(),
            i - 1,
            j - 1,
        );
    }
}

/// A flow-correct sequence never writes a slot that is initialized before it.
pub proof fn lemma_flow_ok_never_rewrites(init: Set<Slot>, ops: Seq<LocatedOpCode>, j: int, s: Slot)
    requires
        flow_ok(init, ops),
        0 <= j < ops.len(),
        init.contains(s),
        s is Register,
    ensures
        op_lhs(ops[j].op) != s,
    decreases ops.len(),
{
    if j > 0 {
        lemma_flow_ok_never_rewrites(after_write(init, op_lhs(ops[0].op)), ops.drop_first(), j - 1, s);
    }
}

} // verus!
