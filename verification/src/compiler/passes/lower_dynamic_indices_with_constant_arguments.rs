use vstd::prelude::*;

use crate::error::RHDLError;
use crate::rhif::object::{ops_mapped, same_except_ops, Object};
use crate::rhif::spec::{Index, LocatedOpCode, OpCode, Slot};
use crate::types::bit_string::{i64_value, typed_to_bit_string};
use crate::types::path::{Path, PathElement, PathElementView};

verus! {

/// Turns run-time indices whose index slot is a literal into fixed indices.
pub struct LowerDynamicIndicesWithConstantArguments {}

/// The value of literal `l` read as an integer.
pub open spec fn literal_value(obj: Object, l: crate::rhif::spec::LiteralId) -> int {
    i64_value(typed_to_bit_string(obj.literals@[l.0 as int]->Some_0@))
}

/// Literal `l` is present and holds an index: at most 64 bits wide, not
/// negative and within `usize`.
pub open spec fn literal_is_index(obj: Object, l: crate::rhif::spec::LiteralId) -> bool {
    &&& obj.has_literal(l)
    &&& obj.literals@[l.0 as int]->Some_0@.bits.len() <= 64
    &&& 0 <= literal_value(obj, l) <= usize::MAX
}

/// A path step with a literal run-time index becomes a fixed index.
pub open spec fn fix_literal_index(obj: Object, e: PathElementView) -> PathElementView {
    match e {
        PathElementView::DynamicIndex(Slot::Literal(l)) => PathElementView::Index(literal_value(obj, l) as nat),
        _ => e,
    }
}

/// Every literal used as a run-time index in the path holds an index.
pub open spec fn literal_indices_ok(obj: Object, p: Seq<PathElementView>) -> bool {
    forall|j: int| 0 <= j < p.len() ==> (#[trigger] p[j] matches PathElementView::DynamicIndex(Slot::Literal(l))
        ==> literal_is_index(obj, l))
}

/// Every index opcode of the object meets [`literal_indices_ok`].
pub open spec fn all_literal_indices_ok(obj: Object) -> bool {
    forall|i: int| 0 <= i < obj.ops@.len() ==> (#[trigger] obj.ops@[i].op matches OpCode::Index(x)
        ==> literal_indices_ok(obj, x.path@))
}

/// `b` is `a` with the literal run-time indices of an index opcode fixed.
pub open spec fn indices_fixed(obj: Object, a: OpCode, b: OpCode) -> bool {
    match a {
        OpCode::Index(x) => b is Index && b->Index_0.lhs == x.lhs && b->Index_0.arg == x.arg
            && b->Index_0.path@ == x.path@.map_values(|e: PathElementView| fix_literal_index(obj, e)),
        _ => b == a,
    }
}

fn simplify_path(path: &Path, obj: &Object) -> (r: Path)
    requires
        literal_indices_ok(*obj, path@),
    ensures
        r@ == path@.map_values(|e: PathElementView| fix_literal_index(*obj, e)),
{
    let mut out: Vec<PathElement> = Vec::new();
    let mut i: usize = 0;
    while i < path.elements.len()
        invariant
            i <= path.elements.len(),
            path@.len() == path.elements.len(),
            literal_indices_ok(*obj, path@),
            out@.map_values(|e: PathElement| e@) == path@.take(i as int).map_values(
                |e: PathElementView| fix_literal_index(*obj, e),
            ),
        decreases path.elements.len() - i,
    {
        let e = match &path.elements[i] {
            PathElement::DynamicIndex(Slot::Literal(l)) => {
                proof {
                    assert(path@[i as int] == path.elements@[i as int]@);
                    assert(literal_is_index(*obj, *l));
                }
                let lit = match &obj.literals[l.0] {
                    Some(t) => t,
                    None => {
                        proof {
                            assert(false);
                        }
                        return Path::new();
                    },
                };
                let value = match lit.to_bit_string().as_i64() {
                    Ok(v) => v,
                    Err(_) => {
                        proof {
                            assert(false);
                        }
                        return Path::new();
                    },
                };
                PathElement::Index(value as usize)
            },
            other => other.copy(),
        };
        proof {
            assert(path@[i as int] == path.elements@[i as int]@);
            assert(e@ == fix_literal_index(*obj, path@[i as int]));
            assert(out@.push(e).map_values(|e: PathElement| e@) =~= out@.map_values(|e: PathElement| e@).push(e@));
            assert(path@.take(i + 1).map_values(|e: PathElementView| fix_literal_index(*obj, e)) =~= path@.take(
                i as int,
            ).map_values(|e: PathElementView| fix_literal_index(*obj, e)).push(fix_literal_index(*obj, path@[i as int])));
        }
        out.push(e);
        i += 1;
    }
    let r = Path { elements: out };
    proof {
        assert(path@.take(path@.len() as int) =~= path@);
        assert(r@ == out@.map_values(|e: PathElement| e@));
    }
    r
}

impl LowerDynamicIndicesWithConstantArguments {
    pub fn name() -> (r: &'static str)
        ensures
            r@ == "lower_dynamic_indices_with_constant_arguments"@,
    {
        "lower_dynamic_indices_with_constant_arguments"
    }

    /// Replaces each run-time index by a literal with the fixed index the
    /// literal holds; every other part of the object is kept.
    pub fn run(input: Object) -> (r: Result<Object, RHDLError>)
        requires
            all_literal_indices_ok(input),
        ensures
            r matches Ok(out) && same_except_ops(input, out) && ops_mapped(
                input.ops@,
                out.ops@,
                |a: OpCode, b: OpCode| indices_fixed(input, a, b),
            ),
    {
        let ghost init = input;
        let mut input = input;
        let ghost orig = input.ops@;
        let mut i: usize = 0;
        while i < input.ops.len()
            invariant
                i <= input.ops.len(),
                input.ops@.len() == orig.len(),
                same_except_ops(init, input),
                orig == init.ops@,
                all_literal_indices_ok(init),
                forall|j: int|
                    0 <= j < i ==> input.ops@[j].id == orig[j].id && indices_fixed(init, orig[j].op, #[trigger] input.ops@[j].op),
                forall|j: int| i <= j < orig.len() ==> #[trigger] input.ops@[j] == orig[j],
            decreases orig.len() - i,
        {
            let replacement = match &input.ops[i].op {
                OpCode::Index(x) => {
                    proof {
                        assert(orig[i as int].op == input.ops@[i as int].op);
                        assert(literal_indices_ok(init, x.path@));
                        assert forall|j: int| 0 <= j < x.path@.len() implies (#[trigger] x.path@[j] matches PathElementView::DynamicIndex(Slot::Literal(l))
                            ==> literal_is_index(input, l)) by {
                            if let PathElementView::DynamicIndex(Slot::Literal(l)) = x.path@[j] {
                                assert(literal_is_index(init, l));
                            }
                        }
                    }
                    let path = simplify_path(&x.path, &input);
                    proof {
                        assert(input.literals == init.literals);
                        assert(path@ =~= x.path@.map_values(|e: PathElementView| fix_literal_index(init, e)));
                    }
                    Some(OpCode::Index(Index { lhs: x.lhs, arg: x.arg, path }))
                },
                _ => None,
            };
            if let Some(op) = replacement {
                let id = input.ops[i].id;
                input.ops.set(i, LocatedOpCode { op, id });
            }
            proof {
                assert(input.literals == init.literals);
                assert(indices_fixed(init, orig[i as int].op, input.ops@[i as int].op));
            }
            i += 1;
        }
        Ok(input)
    }
}

} // verus!
