use lib::ast::{FunctionId, NodeId};
use lib::compiler::mir::mir_impl::{Mir, SymbolMap, TypeEquivalence};
use lib::compiler::mir::ty::{make_variant_tag, Const, ModificationState, SignFlag, VarNum};
use lib::compiler::mir::OpCodeWithSource;
use lib::rhif::spec::{AluBinary, Assign, Binary, LiteralId, LocatedOpCode, OpCode, RegisterId, Slot};
use lib::types::kind::VariantType;

fn reg(i: usize) -> Slot {
    Slot::Register(RegisterId(i))
}

fn mir(ops: Vec<OpCode>) -> Mir {
    Mir {
        ops: ops.into_iter().map(|op| LocatedOpCode { op, id: NodeId(0) }).collect(),
        literals: vec![],
        ty: vec![],
        ty_equate: vec![TypeEquivalence { lhs: reg(0), rhs: reg(1), id: NodeId(2) }],
        stash: vec![],
        return_slot: reg(0),
        arguments: vec![],
        fn_id: FunctionId(0),
        name: "m".to_string(),
        symbols: SymbolMap { slot_map: vec![], fallback: NodeId(0) },
    }
}

#[test]
fn equivalence_map_keeps_the_last_copy() {
    let m = mir(vec![
        OpCode::Assign(Assign { lhs: reg(1), rhs: reg(2) }),
        OpCode::Binary(Binary { op: AluBinary::Add, lhs: reg(3), arg1: reg(1), arg2: reg(1) }),
        OpCode::Assign(Assign { lhs: reg(4), rhs: Slot::Literal(LiteralId(0)) }),
        OpCode::Assign(Assign { lhs: reg(1), rhs: reg(5) }),
    ]);
    let map = m.build_slot_equivalence_map();
    assert_eq!(map.len(), 2);
    assert!(map.contains(&(reg(1), reg(5))));
    assert!(map.contains(&(reg(4), Slot::Literal(LiteralId(0)))));
}

#[test]
fn equivalence_map_of_no_copies_is_empty() {
    let m = mir(vec![OpCode::Noop]);
    assert!(m.build_slot_equivalence_map().is_empty());
}

#[test]
fn variant_tags_and_small_types() {
    let t = make_variant_tag("Idle", -3, VariantType::Normal);
    assert_eq!(t.name, "Idle");
    assert_eq!(t.discriminant, -3);
    assert_eq!(t.ty, VariantType::Normal);
    assert_ne!(Const::Signed(SignFlag::Signed), Const::Signed(SignFlag::Unsigned));
    assert_eq!(Const::Length(4), Const::Length(4));
    assert_eq!(VarNum(2), VarNum(2));
    let s = ModificationState { update_count: 1, intern_size: 2 };
    assert_eq!(s, ModificationState { update_count: 1, intern_size: 2 });
}

#[test]
fn opcode_with_source_from_a_pair() {
    let o = OpCodeWithSource::from_pair((OpCode::Noop, NodeId(9)));
    assert_eq!(o.source, NodeId(9));
    assert!(matches!(o.op, OpCode::Noop));
}
