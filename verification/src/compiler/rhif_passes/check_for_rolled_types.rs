use vstd::prelude::*;

use crate::ast::NodeId;
use crate::error::{RHDLError, Syntax};
use crate::rhif::object::Object;
use crate::rhif::spec::{AluBinary, AluUnary, LocatedOpCode, OpCode, Slot};
use crate::types::kind::{kv_signal_data, Kind, KindView};

verus! {

/// Rejects arithmetic on values that are not plain bit vectors: such an
/// operator must have been defined by the user for a type of their own, which
/// the hardware compiler does not support.
#[derive(Debug)]
pub struct CheckForRolledTypesPass {}

/// The data of the kind (looking through a signal) is a bit vector.
pub open spec fn register_like(k: KindView) -> bool {
    kv_signal_data(k) is Bits || kv_signal_data(k) is Signed
}

pub open spec fn kind_of(obj: Object, s: Slot) -> KindView {
    obj.slot_kind(s)->Some_0
}

/// The syntax error an opcode raises, if any.
pub open spec fn rolled_fault(obj: Object, op: OpCode) -> Option<Syntax> {
    match op {
        OpCode::Binary(b) => match b.op {
            AluBinary::Add | AluBinary::Sub | AluBinary::Mul | AluBinary::BitAnd
            | AluBinary::BitOr | AluBinary::BitXor => if register_like(kind_of(obj, b.lhs))
                && register_like(kind_of(obj, b.arg1)) && register_like(kind_of(obj, b.arg2)) {
                None
            } else {
                Some(Syntax::RollYourOwnBinary)
            },
            _ => None,
        },
        OpCode::Unary(u) => match u.op {
            AluUnary::Val => if kind_of(obj, u.arg1) is Signal {
                None
            } else {
                Some(Syntax::RollYourOwnUnary { op: AluUnary::Val })
            },
            AluUnary::Signed => if kv_signal_data(kind_of(obj, u.arg1)) is Bits || kv_signal_data(
                kind_of(obj, u.arg1),
            ) is Empty {
                None
            } else {
                Some(Syntax::RollYourOwnUnary { op: AluUnary::Signed })
            },
            AluUnary::Unsigned => if kv_signal_data(kind_of(obj, u.arg1)) is Signed
                || kv_signal_data(kind_of(obj, u.arg1)) is Empty {
                None
            } else {
                Some(Syntax::RollYourOwnUnary { op: AluUnary::Unsigned })
            },
            _ => if register_like(kind_of(obj, u.lhs)) && register_like(kind_of(obj, u.arg1)) {
                None
            } else {
                Some(Syntax::RollYourOwnUnary { op: u.op })
            },
        },
        _ => None,
    }
}

/// The first opcode that raises an error, with the error and the opcode's node.
pub open spec fn rolled_ops_fault(obj: Object, ops: Seq<LocatedOpCode>) -> Option<(Syntax, NodeId)>
    decreases ops.len(),
{
    if ops.len() == 0 {
        None
    } else {
        match rolled_fault(obj, ops[0].op) {
            Some(c) => Some((c, ops[0].id)),
            None => rolled_ops_fault(obj, ops.drop_first()),
        }
    }
}

/// The kinds this check looks up are known.
pub open spec fn rolled_checkable(obj: Object) -> bool {
    forall|i: int|
        0 <= i < obj.ops@.len() ==> match #[trigger] obj.ops@[i].op {
            OpCode::Binary(b) => obj.slot_kind(b.lhs) is Some && obj.slot_kind(b.arg1) is Some
                && obj.slot_kind(b.arg2) is Some,
            OpCode::Unary(u) => obj.slot_kind(u.lhs) is Some && obj.slot_kind(u.arg1) is Some,
            _ => true,
        }
}

fn is_register_like(k: &Kind) -> (r: bool)
    ensures
        r == register_like(k@),
{
    match k.signal_data() {
        Kind::Bits(_) | Kind::Signed(_) => true,
        _ => false,
    }
}

fn check_op(obj: &Object, op: &OpCode) -> (r: Option<Syntax>)
    requires
        match *op {
            OpCode::Binary(b) => obj.slot_kind(b.lhs) is Some && obj.slot_kind(b.arg1) is Some
                && obj.slot_kind(b.arg2) is Some,
            OpCode::Unary(u) => obj.slot_kind(u.lhs) is Some && obj.slot_kind(u.arg1) is Some,
            _ => true,
        },
    ensures
        r == rolled_fault(*obj, *op),
{
    match op {
        OpCode::Binary(b) => match b.op {
            AluBinary::Add | AluBinary::Sub | AluBinary::Mul | AluBinary::BitAnd
            | AluBinary::BitOr | AluBinary::BitXor => {
                if is_register_like(&obj.kind(b.lhs)) && is_register_like(&obj.kind(b.arg1))
                    && is_register_like(&obj.kind(b.arg2)) {
                    None
                } else {
                    Some(Syntax::RollYourOwnBinary)
                }
            },
            _ => None,
        },
        OpCode::Unary(u) => match u.op {
            AluUnary::Val => {
                if obj.kind(u.arg1).is_signal() {
                    None
                } else {
                    Some(Syntax::RollYourOwnUnary { op: AluUnary::Val })
                }
            },
            AluUnary::Signed => match obj.kind(u.arg1).signal_data() {
                Kind::Bits(_) | Kind::Empty => None,
                _ => Some(Syntax::RollYourOwnUnary { op: AluUnary::Signed }),
            },
            AluUnary::Unsigned => match obj.kind(u.arg1).signal_data() {
                Kind::Signed(_) | Kind::Empty => None,
                _ => Some(Syntax::RollYourOwnUnary { op: AluUnary::Unsigned }),
            },
            _ => {
                if is_register_like(&obj.kind(u.lhs)) && is_register_like(&obj.kind(u.arg1)) {
                    None
                } else {
                    Some(Syntax::RollYourOwnUnary { op: u.op })
                }
            },
        },
        _ => None,
    }
}

impl CheckForRolledTypesPass {
    pub fn name() -> (r: &'static str)
        ensures
            r@ == "check_for_rolled_types"@,
    {
        "check_for_rolled_types"
    }

    /// Hands the object back when no opcode applies a built-in operator to
    /// something other than a bit vector; reports the first that does
    /// otherwise.
    pub fn run(obj: Object) -> (r: Result<Object, RHDLError>)
        requires
            rolled_checkable(obj),
        ensures
            match r {
                Ok(out) => out == obj && rolled_ops_fault(obj, obj.ops@) is None,
                Err(e) => rolled_ops_fault(obj, obj.ops@) matches Some((cause, id)) && e
                    == (RHDLError::Syntax { cause, id }),
            },
    {
        let ghost ops = obj.ops@;
        let mut i: usize = 0;
        proof {
            assert(ops.skip(0) =~= ops);
        }
        while i < obj.ops.len()
            invariant
                i <= obj.ops.len(),
                ops == obj.ops@,
                rolled_checkable(obj),
                rolled_ops_fault(obj, ops) == rolled_ops_fault(obj, ops.skip(i as int)),
            decreases obj.ops.len() - i,
        {
            proof {
                assert(ops.skip(i as int)[0] == ops[i as int]);
                assert(ops.skip(i as int).drop_first() =~= ops.skip(i + 1));
            }
            if let Some(cause) = check_op(&obj, &obj.ops[i].op) {
                return Err(RHDLError::Syntax { cause, id: obj.ops[i].id });
            }
            i += 1;
        }
        proof {
            assert(ops.skip(i as int) =~= Seq::<LocatedOpCode>::empty());
        }
        Ok(obj)
    }
}

} // verus!
