use vstd::prelude::*;
use vstd::string::StringExecFns;

use crate::error::RHDLError;
use crate::rhif::object::Object;
use crate::rhif::remap::{rename_read_register, renamed_reads};
use crate::rhif::spec::{rename_slot, Assign, LocatedOpCode, OpCode, Slot};

verus! {

/// Removes copies between registers: each `l <- r` is dropped and every later
/// read of `l` reads `r` instead.
#[derive(Debug)]
pub struct RemoveExtraRegistersPass {}

/// The name given to a slot, if any (only registers carry names).
pub open spec fn name_of(obj: Object, s: Slot) -> Option<Seq<char>> {
    match s {
        Slot::Register(r) => if r.0 < obj.register_names@.len() && obj.register_names@[r.0 as int] is Some {
            Some(obj.register_names@[r.0 as int]->Some_0@)
        } else {
            None
        },
        _ => None,
    }
}

/// The name kept when register `a` is merged into register `b`.
pub open spec fn merged_name(a: Option<Seq<char>>, b: Option<Seq<char>>) -> Option<Seq<char>> {
    match (a, b) {
        (None, None) => None,
        (Some(x), None) => Some(x),
        (None, Some(y)) => Some(y),
        (Some(x), Some(y)) => if x == y {
            Some(x)
        } else {
            Some(y + "_then_"@ + x)
        },
    }
}

/// What one opcode becomes when the copy `old <- new` is removed.
pub open spec fn copy_removed(a: OpCode, b: OpCode, old: Slot, new: Slot) -> bool {
    match a {
        OpCode::Assign(x) => {
            let rhs = rename_slot(x.rhs, old, new);
            b == if rhs == x.lhs || x.lhs == old {
                OpCode::Noop
            } else {
                OpCode::Assign(Assign { lhs: x.lhs, rhs })
            }
        },
        _ => renamed_reads(a, b, old, new),
    }
}

/// `b` is `a` after removing the copy `old <- new`: the opcodes are rewritten,
/// the register `old` loses its kind, the result is renamed, and the two names
/// are merged onto `new`.
pub open spec fn copy_eliminated(a: Object, b: Object, old: Slot, new: Slot) -> bool {
    &&& b.ops@.len() == a.ops@.len()
    &&& forall|j: int|
        0 <= j < a.ops@.len() ==> (#[trigger] b.ops@[j]).id == a.ops@[j].id && copy_removed(
            a.ops@[j].op,
            b.ops@[j].op,
            old,
            new,
        )
    &&& b.kind@ == match old {
        Slot::Register(r) => if r.0 < a.kind@.len() {
            a.kind@.update(r.0 as int, None)
        } else {
            a.kind@
        },
        _ => a.kind@,
    }
    &&& b.return_slot == rename_slot(a.return_slot, old, new)
    &&& names_merged(a, b, old, new)
    &&& b.literals == a.literals
    &&& b.arguments == a.arguments
    &&& b.externals == a.externals
    &&& b.name == a.name
    &&& b.fn_id == a.fn_id
}

pub open spec fn opt_name(o: Option<String>) -> Option<Seq<char>> {
    match o {
        Some(x) => Some(x@),
        None => None,
    }
}

/// The names of `b` are those of `a`, except that `new` takes the name merged
/// from those of `old` and `new` (when there is one).
pub open spec fn names_merged(a: Object, b: Object, old: Slot, new: Slot) -> bool {
    &&& b.register_names@.len() == a.register_names@.len()
    &&& forall|j: int|
        0 <= j < a.register_names@.len() ==> #[trigger] opt_name(b.register_names@[j]) == if new
            == Slot::Register(crate::rhif::spec::RegisterId(j as usize)) && merged_name(
            name_of(a, old),
            name_of(a, new),
        ) is Some {
            merged_name(name_of(a, old), name_of(a, new))
        } else {
            opt_name(a.register_names@[j])
        }
}

/// `k` is the position of the first copy among the opcodes.
pub open spec fn is_first_assign(ops: Seq<LocatedOpCode>, k: int) -> bool {
    &&& 0 <= k < ops.len()
    &&& ops[k].op is Assign
    &&& forall|j: int| 0 <= j < k ==> !(#[trigger] ops[j].op is Assign)
}

/// `b` is `a` with its first copy eliminated.
pub open spec fn first_copy_eliminated(a: Object, b: Object) -> bool {
    exists|k: int|
        #[trigger] is_first_assign(a.ops@, k) && copy_eliminated(
            a,
            b,
            a.ops@[k].op->Assign_0.lhs,
            a.ops@[k].op->Assign_0.rhs,
        )
}

/// `b` is reached from `a` by eliminating the first copy `n` times.
pub open spec fn copies_eliminated(a: Object, b: Object, n: nat) -> bool
    decreases n,
{
    if n == 0 {
        a == b
    } else {
        exists|m: Object| #[trigger]
            first_copy_eliminated(a, m) && copies_eliminated(m, b, (n - 1) as nat)
    }
}

pub open spec fn no_assigns(ops: Seq<LocatedOpCode>) -> bool {
    forall|j: int| 0 <= j < ops.len() ==> !(#[trigger] ops[j].op is Assign)
}

/// The number of copies among the opcodes.
pub open spec fn num_assigns(ops: Seq<LocatedOpCode>) -> nat
    decreases ops.len(),
{
    if ops.len() == 0 {
        0
    } else {
        num_assigns(ops.drop_last()) + if ops.last().op is Assign {
            1nat
        } else {
            0nat
        }
    }
}

/// Rewriting opcodes without creating copies, and turning one copy into
/// something else, lowers the number of copies.
proof fn lemma_fewer_assigns(a: Seq<LocatedOpCode>, b: Seq<LocatedOpCode>, k: int)
    requires
        a.len() == b.len(),
        forall|j: int| 0 <= j < a.len() ==> (#[trigger] b[j].op is Assign ==> a[j].op is Assign),
        0 <= k < a.len(),
        a[k].op is Assign,
        !(b[k].op is Assign),
    ensures
        num_assigns(b) < num_assigns(a),
    decreases a.len(),
{
    lemma_no_more_assigns(a.drop_last(), b.drop_last());
    if k < a.len() - 1 {
        assert forall|j: int| 0 <= j < a.drop_last().len() implies (#[trigger] b.drop_last()[j].op is Assign
            ==> a.drop_last()[j].op is Assign) by {
            assert(b.drop_last()[j] == b[j]);
            assert(a.drop_last()[j] == a[j]);
        }
        assert(a.drop_last()[k] == a[k]);
        assert(b.drop_last()[k] == b[k]);
        lemma_fewer_assigns(a.drop_last(), b.drop_last(), k);
        assert(b.last() == b[b.len() - 1]);
    }
}

proof fn lemma_no_more_assigns(a: Seq<LocatedOpCode>, b: Seq<LocatedOpCode>)
    requires
        a.len() == b.len(),
        forall|j: int| 0 <= j < a.len() ==> (#[trigger] b[j].op is Assign ==> a[j].op is Assign),
    ensures
        num_assigns(b) <= num_assigns(a),
    decreases a.len(),
{
    if a.len() > 0 {
        assert forall|j: int| 0 <= j < a.drop_last().len() implies (#[trigger] b.drop_last()[j].op is Assign
            ==> a.drop_last()[j].op is Assign) by {
            assert(b.drop_last()[j] == b[j]);
            assert(a.drop_last()[j] == a[j]);
        }
        lemma_no_more_assigns(a.drop_last(), b.drop_last());
        assert(b.last() == b[b.len() - 1]);
    }
}

/// The position of the first copy, if any.
fn find_assign_op(ops: &Vec<LocatedOpCode>) -> (r: Option<usize>)
    ensures
        match r {
            Some(k) => is_first_assign(ops@, k as int),
            None => no_assigns(ops@),
        },
{
    let mut i: usize = 0;
    while i < ops.len()
        invariant
            i <= ops.len(),
            forall|j: int| 0 <= j < i ==> !(#[trigger] ops@[j].op is Assign),
        decreases ops.len() - i,
    {
        if let OpCode::Assign(_) = ops[i].op {
            return Some(i);
        }
        i += 1;
    }
    None
}

/// Combines the names of two registers merged into one.
fn merge_names(a: Option<&String>, b: Option<&String>) -> (r: Option<String>)
    ensures
        merged_name(
            match a {
                Some(x) => Some(x@),
                None => None,
            },
            match b {
                Some(y) => Some(y@),
                None => None,
            },
        ) == match r {
            Some(s) => Some(s@),
            None => None::<Seq<char>>,
        },
{
    match (a, b) {
        (None, None) => None,
        (Some(x), None) => Some(x.clone()),
        (None, Some(y)) => Some(y.clone()),
        (Some(x), Some(y)) => {
            if *x == *y {
                Some(x.clone())
            } else {
                let s = y.clone().concat("_then_").concat(x.as_str());
                Some(s)
            }
        },
    }
}

fn slot_name(obj: &Object, s: Slot) -> (r: Option<&String>)
    ensures
        name_of(*obj, s) == match r {
            Some(x) => Some(x@),
            None => None,
        },
{
    match s {
        Slot::Register(r) => {
            if r.0 < obj.register_names.len() {
                match &obj.register_names[r.0] {
                    Some(n) => Some(n),
                    None => None,
                }
            } else {
                None
            }
        },
        _ => None,
    }
}

/// What one opcode becomes when the copy `old <- new` is removed.
fn remove_copy(op: &OpCode, old: Slot, new: Slot) -> (r: OpCode)
    ensures
        copy_removed(*op, r, old, new),
{
    match op {
        OpCode::Assign(x) => {
            let rhs = x.rhs.rename(old, new);
            if rhs == x.lhs || x.lhs == old {
                OpCode::Noop
            } else {
                OpCode::Assign(Assign { lhs: x.lhs, rhs })
            }
        },
        _ => rename_read_register(op, old, new),
    }
}

/// Removes the copy `old <- new` from an object.
pub fn eliminate_copy(input: Object, old: Slot, new: Slot) -> (out: Object)
    ensures
        copy_eliminated(input, out, old, new),
{
    let mut ops: Vec<LocatedOpCode> = Vec::new();
    let mut j: usize = 0;
    while j < input.ops.len()
        invariant
            j <= input.ops.len(),
            ops@.len() == j,
            forall|m: int|
                0 <= m < j ==> #[trigger] ops@[m].id == input.ops@[m].id && copy_removed(
                    input.ops@[m].op,
                    ops@[m].op,
                    old,
                    new,
                ),
        decreases input.ops.len() - j,
    {
        let op = remove_copy(&input.ops[j].op, old, new);
        ops.push(LocatedOpCode { op, id: input.ops[j].id });
        j += 1;
    }
    let merged = merge_names(slot_name(&input, old), slot_name(&input, new));
    let ghost init = input;
    let mut out = input;
    out.ops = ops;
    if let Slot::Register(r) = old {
        if r.0 < out.kind.len() {
            out.kind.set(r.0, None);
        }
    }
    out.return_slot = out.return_slot.rename(old, new);
    if let Some(name) = merged {
        if let Slot::Register(r) = new {
            if r.0 < out.register_names.len() {
                out.register_names.set(r.0, Some(name));
            }
        }
    }
    out
}

/// Eliminates copies, first to last, until none is left.
fn eliminate_all_copies(input: Object) -> (out: Object)
    ensures
        exists|n: nat| copies_eliminated(input, out, n),
        no_assigns(out.ops@),
    decreases num_assigns(input.ops@),
{
    match find_assign_op(&input.ops) {
        None => {
            proof {
                assert(copies_eliminated(input, input, 0));
            }
            input
        },
        Some(k) => {
            let (old, new) = match &input.ops[k].op {
                OpCode::Assign(a) => (a.lhs, a.rhs),
                _ => (Slot::Empty, Slot::Empty),
            };
            let ghost before = input;
            let mid = eliminate_copy(input, old, new);
            proof {
                assert(first_copy_eliminated(before, mid));
                assert forall|j: int| 0 <= j < before.ops@.len() implies (
                #[trigger] mid.ops@[j].op is Assign ==> before.ops@[j].op is Assign) by {
                    assert(copy_removed(before.ops@[j].op, mid.ops@[j].op, old, new));
                }
                assert(copy_removed(before.ops@[k as int].op, mid.ops@[k as int].op, old, new));
                lemma_fewer_assigns(before.ops@, mid.ops@, k as int);
            }
            let out = eliminate_all_copies(mid);
            proof {
                let n = choose|n: nat| copies_eliminated(mid, out, n);
                assert(copies_eliminated(before, out, n + 1));
            }
            out
        },
    }
}

impl RemoveExtraRegistersPass {
    /// Removes every copy, one at a time from the first: the result holds no
    /// copy, and is what repeatedly eliminating the first copy gives.
    pub fn run(input: Object) -> (r: Result<Object, RHDLError>)
        ensures
            r matches Ok(out) && no_assigns(out.ops@) && exists|n: nat|
                copies_eliminated(input, out, n),
    {
        Ok(eliminate_all_copies(input))
    }
}

} // verus!
