use vstd::prelude::*;

use crate::rhif::object::Object;
use crate::rhif::remap::{op_all_slots, op_slots};
use crate::rhif::spec::{LiteralId, RegisterId, Slot};

verus! {

/// The slot is mentioned by one of the first `n` opcodes.
pub open spec fn mentioned_before(obj: Object, s: Slot, n: int) -> bool {
    exists|i: int, j: int|
        0 <= i < n && 0 <= j < op_all_slots(obj.ops@[i].op).len() && #[trigger] op_all_slots(
            obj.ops@[i].op,
        )[j] == s
}

/// The slot is the result, an argument, or mentioned by an opcode.
pub open spec fn slot_used(obj: Object, s: Slot) -> bool {
    ||| obj.return_slot == s
    ||| (s matches Slot::Register(r) && obj.arguments@.contains(r))
    ||| mentioned_before(obj, s, obj.ops@.len() as int)
}

spec fn used_upto(obj: Object, s: Slot, n: int) -> bool {
    ||| obj.return_slot == s
    ||| (s matches Slot::Register(r) && obj.arguments@.contains(r))
    ||| mentioned_before(obj, s, n)
}

fn mark(lits: &mut Vec<bool>, regs: &mut Vec<bool>, s: Slot)
    ensures
        final(lits)@.len() == old(lits)@.len(),
        final(regs)@.len() == old(regs)@.len(),
        forall|k: int|
            0 <= k < old(lits)@.len() ==> #[trigger] final(lits)@[k] == (old(lits)@[k] || s
                == Slot::Literal(LiteralId(k as usize))),
        forall|k: int|
            0 <= k < old(regs)@.len() ==> #[trigger] final(regs)@[k] == (old(regs)@[k] || s
                == Slot::Register(RegisterId(k as usize))),
{
    match s {
        Slot::Literal(l) => {
            if l.0 < lits.len() {
                lits.set(l.0, true);
            }
        },
        Slot::Register(r) => {
            if r.0 < regs.len() {
                regs.set(r.0, true);
            }
        },
        Slot::Empty => {},
    }
}

/// Which literals and which registers of the tables are used.
pub fn used_slots(obj: &Object) -> (r: (Vec<bool>, Vec<bool>))
    ensures
        r.0@.len() == obj.literals@.len(),
        r.1@.len() == obj.kind@.len(),
        forall|k: int|
            0 <= k < r.0@.len() ==> #[trigger] r.0@[k] == slot_used(
                *obj,
                Slot::Literal(LiteralId(k as usize)),
            ),
        forall|k: int|
            0 <= k < r.1@.len() ==> #[trigger] r.1@[k] == slot_used(
                *obj,
                Slot::Register(RegisterId(k as usize)),
            ),
{
    let mut lits: Vec<bool> = Vec::new();
    let mut k: usize = 0;
    while k < obj.literals.len()
        invariant
            k <= obj.literals.len(),
            lits@.len() == k,
            forall|m: int| 0 <= m < k ==> !#[trigger] lits@[m],
        decreases obj.literals.len() - k,
    {
        lits.push(false);
        k += 1;
    }
    let mut regs: Vec<bool> = Vec::new();
    let mut k: usize = 0;
    while k < obj.kind.len()
        invariant
            k <= obj.kind.len(),
            regs@.len() == k,
            forall|m: int| 0 <= m < k ==> !#[trigger] regs@[m],
        decreases obj.kind.len() - k,
    {
        regs.push(false);
        k += 1;
    }
    mark(&mut lits, &mut regs, obj.return_slot);
    let mut a: usize = 0;
    while a < obj.arguments.len()
        invariant
            a <= obj.arguments.len(),
            lits@.len() == obj.literals@.len(),
            regs@.len() == obj.kind@.len(),
            forall|m: int|
                0 <= m < lits@.len() ==> #[trigger] lits@[m] == (obj.return_slot == Slot::Literal(
                    LiteralId(m as usize),
                )),
            forall|m: int|
                0 <= m < regs@.len() ==> #[trigger] regs@[m] == (obj.return_slot
                    == Slot::Register(RegisterId(m as usize)) || obj.arguments@.take(
                    a as int,
                ).contains(RegisterId(m as usize))),
        decreases obj.arguments.len() - a,
    {
        let ghost before = regs@;
        mark(&mut lits, &mut regs, Slot::Register(obj.arguments[a]));
        proof {
            assert forall|m: int| 0 <= m < regs@.len() implies #[trigger] regs@[m] == (
            obj.return_slot == Slot::Register(RegisterId(m as usize)) || obj.arguments@.take(
                a + 1,
            ).contains(RegisterId(m as usize))) by {
                let t = obj.arguments@.take(a + 1);
                assert(t =~= obj.arguments@.take(a as int).push(obj.arguments@[a as int]));
                if obj.arguments@[a as int] == RegisterId(m as usize) {
                    assert(t[a as int] == RegisterId(m as usize));
                }
                if obj.arguments@.take(a as int).contains(RegisterId(m as usize)) {
                    let w = choose|x: int|
                        0 <= x < a && obj.arguments@.take(a as int)[x] == RegisterId(m as usize);
                    assert(t[w] == RegisterId(m as usize));
                }
                if t.contains(RegisterId(m as usize)) {
                    let w = choose|x: int| 0 <= x < a + 1 && t[x] == RegisterId(m as usize);
                    if w < a {
                        assert(obj.arguments@.take(a as int)[w] == RegisterId(m as usize));
                    }
                }
            }
        }
        a += 1;
    }
    proof {
        assert(obj.arguments@.take(obj.arguments@.len() as int) =~= obj.arguments@);
        assert forall|m: int| 0 <= m < lits@.len() implies #[trigger] lits@[m] == used_upto(
            *obj,
            Slot::Literal(LiteralId(m as usize)),
            0,
        ) by {}
        assert forall|m: int| 0 <= m < regs@.len() implies #[trigger] regs@[m] == used_upto(
            *obj,
            Slot::Register(RegisterId(m as usize)),
            0,
        ) by {}
    }
    let mut i: usize = 0;
    while i < obj.ops.len()
        invariant
            i <= obj.ops.len(),
            lits@.len() == obj.literals@.len(),
            regs@.len() == obj.kind@.len(),
            forall|m: int|
                0 <= m < lits@.len() ==> #[trigger] lits@[m] == used_upto(
                    *obj,
                    Slot::Literal(LiteralId(m as usize)),
                    i as int,
                ),
            forall|m: int|
                0 <= m < regs@.len() ==> #[trigger] regs@[m] == used_upto(
                    *obj,
                    Slot::Register(RegisterId(m as usize)),
                    i as int,
                ),
        decreases obj.ops.len() - i,
    {
        let slots = op_slots(&obj.ops[i].op);
        let ghost l0 = lits@;
        let ghost r0 = regs@;
        let mut j: usize = 0;
        while j < slots.len()
            invariant
                j <= slots.len(),
                i < obj.ops.len(),
                slots@ == op_all_slots(obj.ops@[i as int].op),
                lits@.len() == l0.len(),
                regs@.len() == r0.len(),
                forall|m: int|
                    0 <= m < lits@.len() ==> #[trigger] lits@[m] == (l0[m] || exists|x: int|
                        0 <= x < j && slots@[x] == Slot::Literal(LiteralId(m as usize))),
                forall|m: int|
                    0 <= m < regs@.len() ==> #[trigger] regs@[m] == (r0[m] || exists|x: int|
                        0 <= x < j && slots@[x] == Slot::Register(RegisterId(m as usize))),
            decreases slots.len() - j,
        {
            let ghost lb = lits@;
            let ghost rb = regs@;
            mark(&mut lits, &mut regs, slots[j]);
            proof {
                assert forall|m: int| 0 <= m < lits@.len() implies #[trigger] lits@[m] == (l0[m]
                    || exists|x: int|
                    0 <= x < j + 1 && slots@[x] == Slot::Literal(LiteralId(m as usize))) by {
                    if lb[m] && !l0[m] {
                        let x = choose|x: int|
                            0 <= x < j && slots@[x] == Slot::Literal(LiteralId(m as usize));
                        assert(0 <= x < j + 1);
                    }
                    if exists|x: int|
                        0 <= x < j + 1 && slots@[x] == Slot::Literal(LiteralId(m as usize)) {
                        let x = choose|x: int|
                            0 <= x < j + 1 && slots@[x] == Slot::Literal(LiteralId(m as usize));
                        if x < j {
                            assert(lb[m]);
                        }
                    }
                }
                assert forall|m: int| 0 <= m < regs@.len() implies #[trigger] regs@[m] == (r0[m]
                    || exists|x: int|
                    0 <= x < j + 1 && slots@[x] == Slot::Register(RegisterId(m as usize))) by {
                    if rb[m] && !r0[m] {
                        let x = choose|x: int|
                            0 <= x < j && slots@[x] == Slot::Register(RegisterId(m as usize));
                        assert(0 <= x < j + 1);
                    }
                    if exists|x: int|
                        0 <= x < j + 1 && slots@[x] == Slot::Register(RegisterId(m as usize)) {
                        let x = choose|x: int|
                            0 <= x < j + 1 && slots@[x] == Slot::Register(RegisterId(m as usize));
                        if x < j {
                            assert(rb[m]);
                        }
                    }
                }
            }
            j += 1;
        }
        proof {
            assert forall|s: Slot| #[trigger] mentioned_before(*obj, s, i + 1) == (mentioned_before(
                *obj,
                s,
                i as int,
            ) || exists|x: int| 0 <= x < slots@.len() && slots@[x] == s) by {
                if mentioned_before(*obj, s, i + 1) {
                    let (a, b) = choose|a: int, b: int|
                        0 <= a < i + 1 && 0 <= b < op_all_slots(obj.ops@[a].op).len()
                            && #[trigger] op_all_slots(obj.ops@[a].op)[b] == s;
                    if a == i {
                        assert(slots@[b] == s);
                    }
                }
                if exists|x: int| 0 <= x < slots@.len() && slots@[x] == s {
                    let x = choose|x: int| 0 <= x < slots@.len() && slots@[x] == s;
                    assert(op_all_slots(obj.ops@[i as int].op)[x] == s);
                }
                if mentioned_before(*obj, s, i as int) {
                    let (a, b) = choose|a: int, b: int|
                        0 <= a < i && 0 <= b < op_all_slots(obj.ops@[a].op).len()
                            && #[trigger] op_all_slots(obj.ops@[a].op)[b] == s;
                    assert(op_all_slots(obj.ops@[a].op)[b] == s);
                }
            }
            assert forall|m: int| 0 <= m < lits@.len() implies #[trigger] lits@[m] == used_upto(
                *obj,
                Slot::Literal(LiteralId(m as usize)),
                i + 1,
            ) by {
                assert(mentioned_before(*obj, Slot::Literal(LiteralId(m as usize)), i + 1) == (
                mentioned_before(*obj, Slot::Literal(LiteralId(m as usize)), i as int) || exists|
                    x: int,
                | 0 <= x < slots@.len() && slots@[x] == Slot::Literal(LiteralId(m as usize))));
            }
            assert forall|m: int| 0 <= m < regs@.len() implies #[trigger] regs@[m] == used_upto(
                *obj,
                Slot::Register(RegisterId(m as usize)),
                i + 1,
            ) by {
                assert(mentioned_before(*obj, Slot::Register(RegisterId(m as usize)), i + 1) == (
                mentioned_before(*obj, Slot::Register(RegisterId(m as usize)), i as int) || exists|
                    x: int,
                | 0 <= x < slots@.len() && slots@[x] == Slot::Register(RegisterId(m as usize))));
            }
        }
        i += 1;
    }
    (lits, regs)
}

} // verus!
