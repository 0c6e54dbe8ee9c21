use vstd::prelude::*;

use crate::error::RHDLError;
use crate::rhif::object::Object;
use crate::rhif::remap::{op_all_slots, op_slots};
use crate::rhif::spec::{LiteralId, LocatedOpCode, OpCode, Slot};
use crate::types::bit_string::TypedBits;

verus! {

/// Casts, ahead of time, each literal that is used only once, by a cast: the
/// literal gets the width and signedness that the cast asks for.
#[derive(Debug)]
pub struct PreCastLiterals {}

/// How often `s` occurs in a list of slots.
pub open spec fn count_slot(slots: Seq<Slot>, s: Slot) -> nat
    decreases slots.len(),
{
    if slots.len() == 0 {
        0
    } else {
        count_slot(slots.drop_last(), s) + if slots.last() == s {
            1nat
        } else {
            0nat
        }
    }
}

/// How often the opcodes mention `s`.
pub open spec fn uses(ops: Seq<LocatedOpCode>, s: Slot) -> nat
    decreases ops.len(),
{
    if ops.len() == 0 {
        0
    } else {
        uses(ops.drop_last(), s) + count_slot(op_all_slots(ops.last().op), s)
    }
}

/// The width and signedness that the last cast of literal `l` (with a known
/// width) asks for.
pub open spec fn cast_request(ops: Seq<LocatedOpCode>, l: LiteralId) -> Option<(usize, bool)>
    decreases ops.len(),
{
    if ops.len() == 0 {
        None
    } else {
        match ops.last().op {
            OpCode::AsBits(c) => if c.arg == Slot::Literal(l) && c.len is Some {
                Some((c.len->Some_0, false))
            } else {
                cast_request(ops.drop_last(), l)
            },
            OpCode::AsSigned(c) => if c.arg == Slot::Literal(l) && c.len is Some {
                Some((c.len->Some_0, true))
            } else {
                cast_request(ops.drop_last(), l)
            },
            _ => cast_request(ops.drop_last(), l),
        }
    }
}

/// The cast applied ahead of time to literal `l`, if any: the one requested
/// for a literal that is mentioned exactly once.
pub open spec fn pre_cast(obj: Object, l: LiteralId) -> Option<(usize, bool)> {
    if uses(obj.ops@, Slot::Literal(l)) == 1 {
        cast_request(obj.ops@, l)
    } else {
        None
    }
}

/// `out` is `obj` with each literal that has a pre-cast replaced by its cast.
pub open spec fn literals_pre_cast(obj: Object, out: Object) -> bool {
    &&& out.literals@.len() == obj.literals@.len()
    &&& forall|k: int|
        0 <= k < obj.literals@.len() ==> match (
            #[trigger] pre_cast(obj, LiteralId(k as usize)),
            obj.literals@[k],
        ) {
            (Some((len, signed)), Some(v)) => out.literals@[k] matches Some(w) && w@.bits
                == crate::types::bit_string::resize_bits(
                v@.bits,
                crate::types::kind::kv_is_signed(v@.kind),
                len as nat,
            ) && w@.kind == if signed {
                crate::types::kind::KindView::Signed(len as nat)
            } else {
                crate::types::kind::KindView::Bits(len as nat)
            },
            _ => out.literals@[k] == obj.literals@[k],
        }
    &&& out.kind == obj.kind
    &&& out.register_names == obj.register_names
    &&& out.ops == obj.ops
    &&& out.arguments == obj.arguments
    &&& out.return_slot == obj.return_slot
    &&& out.externals == obj.externals
    &&& out.name == obj.name
    &&& out.fn_id == obj.fn_id
}

spec fn capped(n: nat) -> nat {
    if n > 2 {
        2
    } else {
        n
    }
}

proof fn lemma_count_push(slots: Seq<Slot>, x: Slot, s: Slot)
    ensures
        count_slot(slots.push(x), s) == count_slot(slots, s) + if x == s {
            1nat
        } else {
            0nat
        },
{
    assert(slots.push(x).drop_last() =~= slots);
}

/// For each literal of the table: its number of mentions (capped at two) and
/// the cast last requested for it.
fn survey(obj: &Object) -> (r: (Vec<u8>, Vec<Option<(usize, bool)>>))
    ensures
        r.0@.len() == obj.literals@.len(),
        r.1@.len() == obj.literals@.len(),
        forall|k: int|
            0 <= k < r.0@.len() ==> #[trigger] r.0@[k] as nat == capped(
                uses(obj.ops@, Slot::Literal(LiteralId(k as usize))),
            ),
        forall|k: int|
            0 <= k < r.1@.len() ==> #[trigger] r.1@[k] == cast_request(
                obj.ops@,
                LiteralId(k as usize),
            ),
{
    let n = obj.literals.len();
    let mut counts: Vec<u8> = Vec::new();
    let mut casts: Vec<Option<(usize, bool)>> = Vec::new();
    let mut k: usize = 0;
    while k < n
        invariant
            k <= n,
            n == obj.literals@.len(),
            counts@.len() == k,
            casts@.len() == k,
            forall|m: int| 0 <= m < k ==> #[trigger] counts@[m] == 0,
            forall|m: int| 0 <= m < k ==> #[trigger] casts@[m] is None,
        decreases n - k,
    {
        counts.push(0);
        casts.push(None);
        k += 1;
    }
    let mut i: usize = 0;
    while i < obj.ops.len()
        invariant
            i <= obj.ops.len(),
            n == obj.literals@.len(),
            counts@.len() == n,
            casts@.len() == n,
            forall|m: int|
                0 <= m < n ==> #[trigger] counts@[m] as nat == capped(
                    uses(obj.ops@.take(i as int), Slot::Literal(LiteralId(m as usize))),
                ),
            forall|m: int|
                0 <= m < n ==> #[trigger] casts@[m] == cast_request(
                    obj.ops@.take(i as int),
                    LiteralId(m as usize),
                ),
        decreases obj.ops.len() - i,
    {
        let ghost pre = obj.ops@.take(i as int);
        let ghost next = obj.ops@.take(i + 1);
        proof {
            assert(next.drop_last() =~= pre);
            assert(next.last() == obj.ops@[i as int]);
        }
        let slots = op_slots(&obj.ops[i].op);
        let ghost c0 = counts@;
        let mut j: usize = 0;
        while j < slots.len()
            invariant
                j <= slots.len(),
                slots@ == op_all_slots(obj.ops@[i as int].op),
                counts@.len() == n,
                c0.len() == n,
                forall|m: int|
                    0 <= m < n ==> #[trigger] counts@[m] as nat == capped(
                        c0[m] as nat + count_slot(slots@.take(j as int), Slot::Literal(LiteralId(m as usize))),
                    ),
                forall|m: int| 0 <= m < n ==> c0[m] <= 2,
            decreases slots.len() - j,
        {
            proof {
                assert(slots@.take(j + 1) =~= slots@.take(j as int).push(slots@[j as int]));
                assert forall|m: int| 0 <= m < n implies #[trigger] count_slot(slots@.take(j + 1), Slot::Literal(LiteralId(m as usize)))
                    == count_slot(slots@.take(j as int), Slot::Literal(LiteralId(m as usize))) + if slots@[j as int]
                    == Slot::Literal(LiteralId(m as usize)) {
                    1nat
                } else {
                    0nat
                } by {
                    lemma_count_push(slots@.take(j as int), slots@[j as int], Slot::Literal(LiteralId(m as usize)));
                }
            }
            if let Slot::Literal(l) = slots[j] {
                if l.0 < n {
                    let c = counts[l.0];
                    if c < 2 {
                        counts.set(l.0, c + 1);
                    }
                }
            }
            j += 1;
        }
        proof {
            assert(slots@.take(slots@.len() as int) =~= slots@);
            assert forall|m: int| 0 <= m < n implies #[trigger] counts@[m] as nat == capped(
                uses(next, Slot::Literal(LiteralId(m as usize))),
            ) by {
                assert(uses(next, Slot::Literal(LiteralId(m as usize))) == uses(pre, Slot::Literal(LiteralId(m as usize)))
                    + count_slot(op_all_slots(obj.ops@[i as int].op), Slot::Literal(LiteralId(m as usize))));
            }
        }
        match &obj.ops[i].op {
            OpCode::AsBits(c) => {
                if let (Slot::Literal(l), Some(len)) = (c.arg, c.len) {
                    if l.0 < n {
                        casts.set(l.0, Some((len, false)));
                    }
                }
            },
            OpCode::AsSigned(c) => {
                if let (Slot::Literal(l), Some(len)) = (c.arg, c.len) {
                    if l.0 < n {
                        casts.set(l.0, Some((len, true)));
                    }
                }
            },
            _ => {},
        }
        i += 1;
    }
    proof {
        assert(obj.ops@.take(obj.ops@.len() as int) =~= obj.ops@);
    }
    (counts, casts)
}

impl PreCastLiterals {
    pub fn name() -> (r: &'static str)
        ensures
            r@ == "pre_cast_literals"@,
    {
        "pre_cast_literals"
    }

    pub fn run(input: Object) -> (r: Result<Object, RHDLError>)
        ensures
            r matches Ok(out) && literals_pre_cast(input, out),
    {
        let (counts, casts) = survey(&input);
        let ghost init = input;
        let mut input = input;
        let mut k: usize = 0;
        while k < input.literals.len()
            invariant
                k <= input.literals.len(),
                input.literals@.len() == init.literals@.len(),
                counts@.len() == init.literals@.len(),
                casts@.len() == init.literals@.len(),
                forall|m: int|
                    0 <= m < counts@.len() ==> #[trigger] counts@[m] as nat == capped(
                        uses(init.ops@, Slot::Literal(LiteralId(m as usize))),
                    ),
                forall|m: int|
                    0 <= m < casts@.len() ==> #[trigger] casts@[m] == cast_request(
                        init.ops@,
                        LiteralId(m as usize),
                    ),
                forall|m: int|
                    0 <= m < k ==> match (
                        #[trigger] pre_cast(init, LiteralId(m as usize)),
                        init.literals@[m],
                    ) {
                        (Some((len, signed)), Some(v)) => input.literals@[m] matches Some(w)
                            && w@.bits == crate::types::bit_string::resize_bits(
                            v@.bits,
                            crate::types::kind::kv_is_signed(v@.kind),
                            len as nat,
                        ) && w@.kind == if signed {
                            crate::types::kind::KindView::Signed(len as nat)
                        } else {
                            crate::types::kind::KindView::Bits(len as nat)
                        },
                        _ => input.literals@[m] == init.literals@[m],
                    },
                forall|m: int| k <= m < input.literals@.len() ==> #[trigger] input.literals@[m] == init.literals@[m],
                input.kind == init.kind,
                input.register_names == init.register_names,
                input.ops == init.ops,
                input.arguments == init.arguments,
                input.return_slot == init.return_slot,
                input.externals == init.externals,
                input.name == init.name,
                input.fn_id == init.fn_id,
            decreases input.literals.len() - k,
        {
            if counts[k] == 1 {
                if let Some((len, signed)) = casts[k] {
                    let cast: Option<TypedBits> = match &input.literals[k] {
                        Some(v) => Some(if signed {
                            v.signed_cast(len)
                        } else {
                            v.unsigned_cast(len)
                        }),
                        None => None,
                    };
                    if let Some(c) = cast {
                        input.literals.set(k, Some(c));
                    }
                }
            }
            k += 1;
        }
        Ok(input)
    }
}

} // verus!
