use vstd::prelude::*;

use crate::error::RHDLError;
use crate::rhif::object::{ops_mapped, same_except_ops, Object};
use crate::rhif::spec::{Assign, LocatedOpCode, OpCode, Slot};

verus! {

/// Replaces a select whose outcome is known by a copy: when the condition is
/// a literal, or both choices are the same slot.
#[derive(Debug)]
pub struct RemoveUnneededMuxesPass {}

/// A select on a literal condition that is not a single bit.
pub open spec fn bad_literal_condition(obj: Object, op: OpCode) -> bool {
    op matches OpCode::Select(x) && x.cond matches Slot::Literal(l) && obj.literal(l).bits@.len() != 1
}

pub open spec fn mux_removed(obj: Object, a: OpCode, b: OpCode) -> bool {
    match a {
        OpCode::Select(x) => match x.cond {
            Slot::Literal(l) => b == OpCode::Assign(
                Assign {
                    lhs: x.lhs,
                    rhs: if obj.literal(l).bits@[0] {
                        x.true_value
                    } else {
                        x.false_value
                    },
                },
            ),
            _ => if x.true_value == x.false_value {
                b == OpCode::Assign(Assign { lhs: x.lhs, rhs: x.true_value })
            } else {
                b == a
            },
        },
        _ => b == a,
    }
}

/// Every literal used as a select condition is present.
pub open spec fn select_literals_present(obj: Object) -> bool {
    forall|i: int|
        0 <= i < obj.ops@.len() ==> match #[trigger] obj.ops@[i].op {
            OpCode::Select(x) => match x.cond {
                Slot::Literal(l) => obj.has_literal(l),
                _ => true,
            },
            _ => true,
        }
}

impl RemoveUnneededMuxesPass {
    pub fn name() -> (r: &'static str)
        ensures
            r@ == "remove_unneeded_muxes"@,
    {
        "remove_unneeded_muxes"
    }

    #[verifier::loop_isolation(false)]
    pub fn run(input: Object) -> (r: Result<Object, RHDLError>)
        requires
            select_literals_present(input),
        ensures
            r is Err <==> exists|i: int|
                0 <= i < input.ops@.len() && bad_literal_condition(input, #[trigger] input.ops@[i].op),
            r matches Ok(out) ==> same_except_ops(input, out) && ops_mapped(
                input.ops@,
                out.ops@,
                |a: OpCode, b: OpCode| mux_removed(input, a, b),
            ),
    {
        let ghost init = input;
        let mut input = input;
        let ghost orig = input.ops@;
        let mut i: usize = 0;
        while i < input.ops.len()
            invariant
                i <= input.ops.len(),
                input.ops@.len() == orig.len(),
                orig == init.ops@,
                same_except_ops(init, input),
                forall|j: int| 0 <= j < i ==> !bad_literal_condition(init, #[trigger] orig[j].op),
                forall|j: int|
                    0 <= j < i ==> input.ops@[j].id == orig[j].id && mux_removed(
                        init,
                        orig[j].op,
                        #[trigger] input.ops@[j].op,
                    ),
                forall|j: int| i <= j < orig.len() ==> #[trigger] input.ops@[j] == orig[j],
            decreases orig.len() - i,
        {
            proof {
                assert(input.ops@[i as int] == init.ops@[i as int]);
            }
            let replacement = match &input.ops[i].op {
                OpCode::Select(x) => {
                    match x.cond {
                        Slot::Literal(l) => {
                            let val = match &input.literals[l.0] {
                                Some(v) => v.as_bool(),
                                None => Err(RHDLError::NotABoolean),
                            };
                            match val {
                                Ok(b) => Some(
                                    OpCode::Assign(
                                        Assign {
                                            lhs: x.lhs,
                                            rhs: if b {
                                                x.true_value
                                            } else {
                                                x.false_value
                                            },
                                        },
                                    ),
                                ),
                                Err(e) => {
                                    assert(bad_literal_condition(init, init.ops@[i as int].op));
                                    return Err(e);
                                },
                            }
                        },
                        _ => {
                            if x.true_value == x.false_value {
                                Some(OpCode::Assign(Assign { lhs: x.lhs, rhs: x.true_value }))
                            } else {
                                None
                            }
                        },
                    }
                },
                _ => None,
            };
            if let Some(op) = replacement {
                let id = input.ops[i].id;
                input.ops.set(i, LocatedOpCode { op, id });
            }
            assert(mux_removed(init, orig[i as int].op, input.ops@[i as int].op));
            i += 1;
        }
        assert(forall|j: int| 0 <= j < init.ops@.len() ==> !bad_literal_condition(init, #[trigger] init.ops@[j].op));
        Ok(input)
    }
}

} // verus!
