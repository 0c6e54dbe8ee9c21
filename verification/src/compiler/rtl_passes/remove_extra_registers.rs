use vstd::prelude::*;

use crate::error::RHDLError;
use crate::rtl::object::{LocatedOpCode, Object};
use crate::rtl::remap::{operands_mapped, rename_operand, rename_read_operands, OperandMap};
use crate::rtl::spec::{Assign, OpCode, Operand};

verus! {

/// Removes copies between registers: each `l <- r` is dropped and every later
/// read of `l` reads `r` instead.
#[derive(Debug)]
pub struct RemoveExtraRegistersPass {}

/// What one opcode becomes when the copy `old <- new` is removed.
pub open spec fn copy_removed(a: OpCode, b: OpCode, old: Operand, new: Operand) -> bool {
    match a {
        OpCode::Assign(x) => {
            let rhs = rename_operand(x.rhs, old, new);
            b == if rhs == x.lhs || x.lhs == old {
                OpCode::Noop
            } else {
                OpCode::Assign(Assign { lhs: x.lhs, rhs })
            }
        },
        _ => operands_mapped(a, b, OperandMap::Rename(old, new)),
    }
}

/// `b` is `a` after removing the copy `old <- new`: the opcodes are rewritten,
/// register `old` loses its kind, and the result is renamed.
pub open spec fn copy_eliminated(a: Object, b: Object, old: Operand, new: Operand) -> bool {
    &&& b.ops@.len() == a.ops@.len()
    &&& forall|j: int|
        0 <= j < a.ops@.len() ==> (#[trigger] b.ops@[j]).id == a.ops@[j].id && b.ops@[j].func
            == a.ops@[j].func && copy_removed(a.ops@[j].op, b.ops@[j].op, old, new)
    &&& b.register_kind@ == match old {
        Operand::Register(r) => if r.0 < a.register_kind@.len() {
            a.register_kind@.update(r.0 as int, None)
        } else {
            a.register_kind@
        },
        _ => a.register_kind@,
    }
    &&& b.return_register == match a.return_register {
        Some(o) => Some(rename_operand(o, old, new)),
        None => None,
    }
    &&& b.literals == a.literals
    &&& b.arguments == a.arguments
    &&& b.symbols == a.symbols
    &&& b.name == a.name
    &&& b.fn_id == a.fn_id
}

/// `k` is the position of the first copy among the opcodes.
pub open spec fn is_first_assign(ops: Seq<LocatedOpCode>, k: int) -> bool {
    &&& 0 <= k < ops.len()
    &&& ops[k].op is Assign
    &&& forall|j: int| 0 <= j < k ==> !((#[trigger] ops[j]).op is Assign)
}

/// `b` is `a` with its first copy eliminated.
pub open spec fn first_copy_eliminated(a: Object, b: Object) -> bool {
    exists|k: int|
        #[trigger] is_first_assign(a.ops@, k) && copy_eliminated(
            a,
            b,
            a.ops@[k].op->Assign_0.lhs,
            a.ops@[k].op->Assign_0.rhs,
        )
}

/// `b` is reached from `a` by eliminating the first copy `n` times.
pub open spec fn copies_eliminated(a: Object, b: Object, n: nat) -> bool
    decreases n,
{
    if n == 0 {
        a == b
    } else {
        exists|m: Object| #[trigger]
            first_copy_eliminated(a, m) && copies_eliminated(m, b, (n - 1) as nat)
    }
}

pub open spec fn no_assigns(ops: Seq<LocatedOpCode>) -> bool {
    forall|j: int| 0 <= j < ops.len() ==> !((#[trigger] ops[j]).op is Assign)
}

/// Every copy writes a register.
pub open spec fn assigns_to_registers(ops: Seq<LocatedOpCode>) -> bool {
    forall|j: int| 0 <= j < ops.len() ==> ((#[trigger] ops[j]).op is Assign ==> ops[j].op->Assign_0.lhs is Register)
}

/// The number of copies among the opcodes.
pub open spec fn num_assigns(ops: Seq<LocatedOpCode>) -> nat
    decreases ops.len(),
{
    if ops.len() == 0 {
        0
    } else {
        num_assigns(ops.drop_last()) + if ops.last().op is Assign {
            1nat
        } else {
            0nat
        }
    }
}

proof fn lemma_no_more_assigns(a: Seq<LocatedOpCode>, b: Seq<LocatedOpCode>)
    requires
        a.len() == b.len(),
        forall|j: int| 0 <= j < a.len() ==> ((#[trigger] b[j]).op is Assign ==> a[j].op is Assign),
    ensures
        num_assigns(b) <= num_assigns(a),
    decreases a.len(),
{
    if a.len() > 0 {
        assert forall|j: int| 0 <= j < a.drop_last().len() implies ((#[trigger] b.drop_last()[j]).op is Assign
            ==> a.drop_last()[j].op is Assign) by {
            assert(b.drop_last()[j] == b[j]);
            assert(a.drop_last()[j] == a[j]);
        }
        lemma_no_more_assigns(a.drop_last(), b.drop_last());
        assert(b.last() == b[b.len() - 1]);
    }
}

proof fn lemma_fewer_assigns(a: Seq<LocatedOpCode>, b: Seq<LocatedOpCode>, k: int)
    requires
        a.len() == b.len(),
        forall|j: int| 0 <= j < a.len() ==> ((#[trigger] b[j]).op is Assign ==> a[j].op is Assign),
        0 <= k < a.len(),
        a[k].op is Assign,
        !(b[k].op is Assign),
    ensures
        num_assigns(b) < num_assigns(a),
    decreases a.len(),
{
    assert forall|j: int| 0 <= j < a.drop_last().len() implies ((#[trigger] b.drop_last()[j]).op is Assign
        ==> a.drop_last()[j].op is Assign) by {
        assert(b.drop_last()[j] == b[j]);
        assert(a.drop_last()[j] == a[j]);
    }
    lemma_no_more_assigns(a.drop_last(), b.drop_last());
    assert(b.last() == b[b.len() - 1]);
    if k < a.len() - 1 {
        assert(a.drop_last()[k] == a[k]);
        assert(b.drop_last()[k] == b[k]);
        lemma_fewer_assigns(a.drop_last(), b.drop_last(), k);
    }
}

/// The position of the first copy, if any.
fn find_assign_op(ops: &Vec<LocatedOpCode>) -> (r: Option<usize>)
    ensures
        match r {
            Some(k) => is_first_assign(ops@, k as int),
            None => no_assigns(ops@),
        },
{
    let mut i: usize = 0;
    while i < ops.len()
        invariant
            i <= ops.len(),
            forall|j: int| 0 <= j < i ==> !((#[trigger] ops@[j]).op is Assign),
        decreases ops.len() - i,
    {
        if let OpCode::Assign(_) = ops[i].op {
            return Some(i);
        }
        i += 1;
    }
    None
}

fn remove_copy(op: &OpCode, old: Operand, new: Operand) -> (r: OpCode)
    ensures
        copy_removed(*op, r, old, new),
{
    match op {
        OpCode::Assign(x) => {
            let rhs = if x.rhs == old {
                new
            } else {
                x.rhs
            };
            if rhs == x.lhs || x.lhs == old {
                OpCode::Noop
            } else {
                OpCode::Assign(Assign { lhs: x.lhs, rhs })
            }
        },
        _ => rename_read_operands(op, old, new),
    }
}

/// Removes the copy `old <- new` from an object.
fn eliminate_copy(input: Object, old: Operand, new: Operand) -> (out: Object)
    ensures
        copy_eliminated(input, out, old, new),
{
    let mut ops: Vec<LocatedOpCode> = Vec::new();
    let mut j: usize = 0;
    while j < input.ops.len()
        invariant
            j <= input.ops.len(),
            ops@.len() == j,
            forall|m: int|
                0 <= m < j ==> (#[trigger] ops@[m]).id == input.ops@[m].id && ops@[m].func
                    == input.ops@[m].func && copy_removed(input.ops@[m].op, ops@[m].op, old, new),
        decreases input.ops.len() - j,
    {
        let op = remove_copy(&input.ops[j].op, old, new);
        ops.push(LocatedOpCode { op, id: input.ops[j].id, func: input.ops[j].func });
        j += 1;
    }
    let mut out = input;
    out.ops = ops;
    if let Operand::Register(r) = old {
        if r.0 < out.register_kind.len() {
            out.register_kind.set(r.0, None);
        }
    }
    out.return_register = match out.return_register {
        Some(o) => if o == old {
            Some(new)
        } else {
            Some(o)
        },
        None => None,
    };
    out
}

fn eliminate_all_copies(input: Object) -> (r: (Object, Ghost<nat>))
    requires
        assigns_to_registers(input.ops@),
    ensures
        copies_eliminated(input, r.0, r.1@),
        no_assigns(r.0.ops@),
    decreases num_assigns(input.ops@),
{
    match find_assign_op(&input.ops) {
        None => (input, Ghost(0)),
        Some(k) => {
            let (old, new) = match &input.ops[k].op {
                OpCode::Assign(a) => (a.lhs, a.rhs),
                _ => (Operand::Register(crate::rtl::spec::RegisterId(0)), Operand::Register(crate::rtl::spec::RegisterId(0))),
            };
            let ghost before = input;
            let mid = eliminate_copy(input, old, new);
            proof {
                assert(first_copy_eliminated(before, mid));
                assert forall|j: int| 0 <= j < before.ops@.len() implies ((#[trigger] mid.ops@[j]).op is Assign
                    ==> before.ops@[j].op is Assign) by {
                    assert(copy_removed(before.ops@[j].op, mid.ops@[j].op, old, new));
                }
                assert(copy_removed(before.ops@[k as int].op, mid.ops@[k as int].op, old, new));
                lemma_fewer_assigns(before.ops@, mid.ops@, k as int);
                assert forall|j: int| 0 <= j < mid.ops@.len() implies ((#[trigger] mid.ops@[j]).op is Assign
                    ==> mid.ops@[j].op->Assign_0.lhs is Register) by {
                    assert(copy_removed(before.ops@[j].op, mid.ops@[j].op, old, new));
                    assert(before.ops@[j].op is Assign ==> before.ops@[j].op->Assign_0.lhs is Register);
                }
            }
            let (out, n) = eliminate_all_copies(mid);
            proof {
                assert(copies_eliminated(before, out, n@ + 1));
            }
            (out, Ghost(n@ + 1))
        },
    }
}

impl RemoveExtraRegistersPass {
    /// Removes every copy, one at a time from the first: the result holds no
    /// copy, and is what repeatedly eliminating the first copy gives.
    pub fn run(input: Object) -> (r: Result<Object, RHDLError>)
        requires
            assigns_to_registers(input.ops@),
        ensures
            r matches Ok(out) && no_assigns(out.ops@) && exists|n: nat|
                #[trigger] copies_eliminated(input, out, n),
    {
        let (out, n) = eliminate_all_copies(input);
        Ok(out)
    }
}

} // verus!
