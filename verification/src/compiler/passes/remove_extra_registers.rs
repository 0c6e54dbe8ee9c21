use vstd::prelude::*;

use crate::compiler::rhif_passes::remove_extra_registers::{copy_eliminated, eliminate_copy, name_of};
use crate::error::RHDLError;
use crate::rhif::object::Object;
use crate::rhif::spec::{LocatedOpCode, OpCode, Slot};

verus! {

/// Removes copies between registers whose source names agree: each such
/// `l <- r` is dropped and every later read of `l` reads `r` instead.  A copy
/// between two registers with different names is kept.
#[derive(Debug)]
pub struct RemoveExtraRegistersPass {}

/// The names of the two slots can be merged: at most one is named, or both
/// carry the same name.
pub open spec fn names_mergeable(obj: Object, old: Slot, new: Slot) -> bool {
    match (name_of(obj, old), name_of(obj, new)) {
        (Some(x), Some(y)) => x == y,
        _ => true,
    }
}

/// `k` is the first copy still eligible for removal.
pub open spec fn is_first_eligible(ops: Seq<LocatedOpCode>, mask: Seq<bool>, k: int) -> bool {
    &&& 0 <= k < ops.len()
    &&& k < mask.len()
    &&& mask[k]
    &&& ops[k].op is Assign
    &&& forall|j: int| 0 <= j < k ==> !(mask[j] && (#[trigger] ops[j]).op is Assign)
}

/// One step: the first eligible copy is removed when the names of its two
/// slots can be merged, and is marked ineligible otherwise.
pub open spec fn eligible_step(a: Object, ma: Seq<bool>, b: Object, mb: Seq<bool>) -> bool {
    exists|k: int|
        #[trigger] is_first_eligible(a.ops@, ma, k) && {
            let x = a.ops@[k].op->Assign_0;
            if names_mergeable(a, x.lhs, x.rhs) {
                mb == ma && copy_eliminated(a, b, x.lhs, x.rhs)
            } else {
                mb == ma.update(k, false) && b == a
            }
        }
}

/// `b` (with eligibility `mb`) is reached from `a` (with `ma`) in `n` steps.
pub open spec fn eligible_steps(a: Object, ma: Seq<bool>, b: Object, mb: Seq<bool>, n: nat) -> bool
    decreases n,
{
    if n == 0 {
        a == b && ma == mb
    } else {
        exists|m: Object, mm: Seq<bool>| #[trigger]
            eligible_step(a, ma, m, mm) && eligible_steps(m, mm, b, mb, (n - 1) as nat)
    }
}

/// Every position eligible.
pub open spec fn all_eligible(n: nat) -> Seq<bool> {
    Seq::new(n, |i: int| true)
}

/// No copy is left at an eligible position.
pub open spec fn none_eligible(ops: Seq<LocatedOpCode>, mask: Seq<bool>) -> bool {
    forall|j: int| 0 <= j < ops.len() && j < mask.len() ==> !(mask[j] && (#[trigger] ops[j]).op is Assign)
}

/// The number of copies at eligible positions.
pub open spec fn num_eligible(ops: Seq<LocatedOpCode>, mask: Seq<bool>) -> nat
    decreases ops.len(),
{
    if ops.len() == 0 {
        0
    } else {
        num_eligible(ops.drop_last(), mask) + if (ops.len() - 1) < mask.len() && mask[ops.len()
            - 1] && ops.last().op is Assign {
            1nat
        } else {
            0nat
        }
    }
}

proof fn lemma_num_eligible_le(a: Seq<LocatedOpCode>, ma: Seq<bool>, b: Seq<LocatedOpCode>, mb: Seq<bool>)
    requires
        a.len() == b.len(),
        forall|j: int|
            0 <= j < a.len() ==> ((j < mb.len() && mb[j] && (#[trigger] b[j]).op is Assign) ==> (j
                < ma.len() && ma[j] && a[j].op is Assign)),
    ensures
        num_eligible(b, mb) <= num_eligible(a, ma),
    decreases a.len(),
{
    if a.len() > 0 {
        assert forall|j: int| 0 <= j < a.drop_last().len() implies ((j < mb.len() && mb[j] && (
        #[trigger] b.drop_last()[j]).op is Assign) ==> (j < ma.len() && ma[j]
            && a.drop_last()[j].op is Assign)) by {
            assert(b.drop_last()[j] == b[j]);
            assert(a.drop_last()[j] == a[j]);
        }
        lemma_num_eligible_le(a.drop_last(), ma, b.drop_last(), mb);
        assert(b.last() == b[b.len() - 1]);
        assert(a.last() == a[a.len() - 1]);
    }
}

proof fn lemma_num_eligible_lt(
    a: Seq<LocatedOpCode>,
    ma: Seq<bool>,
    b: Seq<LocatedOpCode>,
    mb: Seq<bool>,
    k: int,
)
    requires
        a.len() == b.len(),
        forall|j: int|
            0 <= j < a.len() ==> ((j < mb.len() && mb[j] && (#[trigger] b[j]).op is Assign) ==> (j
                < ma.len() && ma[j] && a[j].op is Assign)),
        0 <= k < a.len(),
        k < ma.len(),
        ma[k] && a[k].op is Assign,
        !(k < mb.len() && mb[k] && b[k].op is Assign),
    ensures
        num_eligible(b, mb) < num_eligible(a, ma),
    decreases a.len(),
{
    assert forall|j: int| 0 <= j < a.drop_last().len() implies ((j < mb.len() && mb[j] && (
    #[trigger] b.drop_last()[j]).op is Assign) ==> (j < ma.len() && ma[j]
        && a.drop_last()[j].op is Assign)) by {
        assert(b.drop_last()[j] == b[j]);
        assert(a.drop_last()[j] == a[j]);
    }
    assert(b.last() == b[b.len() - 1]);
    assert(a.last() == a[a.len() - 1]);
    if k < a.len() - 1 {
        assert(a.drop_last()[k] == a[k]);
        assert(b.drop_last()[k] == b[k]);
        lemma_num_eligible_lt(a.drop_last(), ma, b.drop_last(), mb, k);
    } else {
        lemma_num_eligible_le(a.drop_last(), ma, b.drop_last(), mb);
    }
}

/// The position of the first eligible copy, if any.
fn find_assign_op(ops: &Vec<LocatedOpCode>, mergeable: &Vec<bool>) -> (r: Option<usize>)
    ensures
        match r {
            Some(k) => is_first_eligible(ops@, mergeable@, k as int),
            None => none_eligible(ops@, mergeable@),
        },
{
    let mut i: usize = 0;
    while i < ops.len() && i < mergeable.len()
        invariant
            i <= ops.len(),
            forall|j: int| 0 <= j < i && j < mergeable@.len() ==> !(mergeable@[j] && (
            #[trigger] ops@[j]).op is Assign),
        decreases ops.len() - i,
    {
        if mergeable[i] {
            if let OpCode::Assign(_) = ops[i].op {
                return Some(i);
            }
        }
        i += 1;
    }
    None
}

/// Can the names of two registers be merged?
fn can_merge_names(a: Option<&String>, b: Option<&String>) -> (r: bool)
    ensures
        r == match (a, b) {
            (Some(x), Some(y)) => x@ == y@,
            _ => true,
        },
{
    match (a, b) {
        (None, None) => true,
        (Some(_), None) => true,
        (None, Some(_)) => true,
        (Some(x), Some(y)) => *x == *y,
    }
}

fn slot_name(obj: &Object, s: Slot) -> (r: Option<&String>)
    ensures
        name_of(*obj, s) == match r {
            Some(x) => Some(x@),
            None => None,
        },
{
    match s {
        Slot::Register(r) => {
            if r.0 < obj.register_names.len() {
                match &obj.register_names[r.0] {
                    Some(n) => Some(n),
                    None => None,
                }
            } else {
                None
            }
        },
        _ => None,
    }
}

fn eliminate_eligible(input: Object, eligible: Vec<bool>) -> (r: (Object, Vec<bool>, Ghost<nat>))
    ensures
        eligible_steps(input, eligible@, r.0, r.1@, r.2@),
        none_eligible(r.0.ops@, r.1@),
    decreases num_eligible(input.ops@, eligible@),
{
    match find_assign_op(&input.ops, &eligible) {
        None => (input, eligible, Ghost(0)),
        Some(k) => {
            let (old, new) = match &input.ops[k].op {
                OpCode::Assign(a) => (a.lhs, a.rhs),
                _ => (Slot::Empty, Slot::Empty),
            };
            let ghost before = input;
            let ghost mask = eligible@;
            if !can_merge_names(slot_name(&input, old), slot_name(&input, new)) {
                let mut flags = eligible;
                flags.set(k, false);
                proof {
                    assert(eligible_step(before, mask, input, flags@));
                    assert forall|j: int| 0 <= j < before.ops@.len() implies ((j < flags@.len()
                        && flags@[j] && (#[trigger] input.ops@[j]).op is Assign) ==> (j
                        < mask.len() && mask[j] && before.ops@[j].op is Assign)) by {}
                    lemma_num_eligible_lt(before.ops@, mask, input.ops@, flags@, k as int);
                }
                let (out, m, n) = eliminate_eligible(input, flags);
                proof {
                    assert(eligible_steps(before, mask, out, m@, n@ + 1));
                }
                (out, m, Ghost(n@ + 1))
            } else {
                let mid = eliminate_copy(input, old, new);
                proof {
                    assert(eligible_step(before, mask, mid, mask));
                    assert forall|j: int| 0 <= j < before.ops@.len() implies ((j < mask.len()
                        && mask[j] && (#[trigger] mid.ops@[j]).op is Assign) ==> (j < mask.len()
                        && mask[j] && before.ops@[j].op is Assign)) by {
                        assert(mid.ops@[j].id == before.ops@[j].id);
                    }
                    assert(mid.ops@[k as int].id == before.ops@[k as int].id);
                    lemma_num_eligible_lt(before.ops@, mask, mid.ops@, mask, k as int);
                }
                let (out, m, n) = eliminate_eligible(mid, eligible);
                proof {
                    assert(eligible_steps(before, mask, out, m@, n@ + 1));
                }
                (out, m, Ghost(n@ + 1))
            }
        },
    }
}

impl RemoveExtraRegistersPass {
    pub fn name() -> (r: &'static str)
        ensures
            r@ == "remove_extra_registers"@,
    {
        "remove_extra_registers"
    }

    pub fn description() -> (r: &'static str)
        ensures
            r@ == "Remove extra registers (any instance of r3 <- r2, is replaced with renaming all instances of r3 to r2)"@,
    {
        "Remove extra registers (any instance of r3 <- r2, is replaced with renaming all instances of r3 to r2)"
    }

    /// Starting with every position eligible, repeatedly takes the first
    /// eligible copy: removes it when the names agree, marks it ineligible
    /// otherwise.  No eligible copy is left at the end.
    pub fn run(input: Object) -> (r: Result<Object, RHDLError>)
        ensures
            r matches Ok(out) && exists|n: nat, mask: Seq<bool>|
                #[trigger] eligible_steps(input, all_eligible(input.ops@.len()), out, mask, n)
                    && none_eligible(out.ops@, mask),
    {
        let mut eligible: Vec<bool> = Vec::new();
        let mut i: usize = 0;
        while i < input.ops.len()
            invariant
                i <= input.ops.len(),
                eligible@.len() == i,
                forall|j: int| 0 <= j < i ==> #[trigger] eligible@[j],
            decreases input.ops.len() - i,
        {
            eligible.push(true);
            i += 1;
        }
        proof {
            assert(eligible@ =~= all_eligible(input.ops@.len()));
        }
        let ghost init = input;
        let ghost e = eligible@;
        let (out, mask, n) = eliminate_eligible(input, eligible);
        proof {
            assert(eligible_steps(init, all_eligible(init.ops@.len()), out, mask@, n@)
                && none_eligible(out.ops@, mask@));
        }
        Ok(out)
    }
}

} // verus!
