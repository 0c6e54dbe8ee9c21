use lib::ast::{ExprLit, FunctionId, NodeId};
use lib::compiler::mir::inference::infer;
use lib::compiler::mir::mir_impl::{Mir, SymbolMap, TypeEquivalence};
use lib::error::{RHDLError, TypeCheck};
use lib::rhif::spec::{
    AluBinary, AluUnary, Array, Assign, Binary, LiteralId, LocatedOpCode, OpCode, RegisterId, Select, Slot, Tuple, Unary,
};
use lib::types::kind::Kind;

fn reg(i: usize) -> Slot {
    Slot::Register(RegisterId(i))
}

fn lit(i: usize) -> Slot {
    Slot::Literal(LiteralId(i))
}

fn function(
    ops: Vec<OpCode>,
    literals: Vec<(Slot, ExprLit)>,
    ty: Vec<(Slot, Kind)>,
    arguments: Vec<Slot>,
    return_slot: Slot,
    slots: Vec<Slot>,
) -> Mir {
    let slot_map = slots.iter().enumerate().map(|(i, s)| (*s, NodeId(i as u32 + 1))).collect();
    Mir {
        ops: ops.into_iter().enumerate().map(|(i, op)| LocatedOpCode { op, id: NodeId(100 + i as u32) }).collect(),
        literals,
        ty,
        ty_equate: Vec::<TypeEquivalence>::new(),
        stash: vec![],
        return_slot,
        arguments,
        fn_id: FunctionId(0),
        name: "kernel".to_string(),
        symbols: SymbolMap { slot_map, fallback: NodeId(0) },
    }
}

fn kind_of(obj_kinds: &[Option<Kind>], r: usize) -> &Kind {
    obj_kinds[r].as_ref().expect("register has a kind")
}

#[test]
fn a_sum_takes_the_type_of_its_operands() {
    let mir = function(
        vec![OpCode::Binary(Binary { op: AluBinary::Add, lhs: reg(2), arg1: reg(0), arg2: reg(1) })],
        vec![],
        vec![(reg(0), Kind::Bits(8)), (reg(1), Kind::Bits(8)), (reg(2), Kind::Bits(8))],
        vec![reg(0), reg(1)],
        reg(2),
        vec![reg(0), reg(1), reg(2)],
    );
    let obj = infer(mir).expect("inference succeeds");
    assert!(matches!(kind_of(&obj.kind, 0), Kind::Bits(8)));
    assert!(matches!(kind_of(&obj.kind, 1), Kind::Bits(8)));
    assert!(matches!(kind_of(&obj.kind, 2), Kind::Bits(8)));
    assert_eq!(obj.arguments, vec![RegisterId(0), RegisterId(1)]);
    assert_eq!(obj.return_slot, reg(2));
    assert_eq!(obj.name, "kernel");
}

#[test]
fn an_integer_literal_takes_the_width_it_is_added_to() {
    let mir = function(
        vec![OpCode::Binary(Binary { op: AluBinary::Add, lhs: reg(1), arg1: reg(0), arg2: lit(0) })],
        vec![(lit(0), ExprLit::Int("3".to_string()))],
        vec![(reg(0), Kind::Signed(4)), (reg(1), Kind::Signed(4))],
        vec![reg(0)],
        reg(1),
        vec![reg(0), reg(1), lit(0)],
    );
    let obj = infer(mir).expect("inference succeeds");
    let value = obj.literals[0].as_ref().expect("literal has a value");
    assert!(matches!(value.kind, Kind::Signed(4)));
    assert_eq!(value.bits, vec![true, true, false, false]);
}

#[test]
fn a_copy_gives_both_registers_one_kind() {
    let mir = function(
        vec![
            OpCode::Assign(Assign { lhs: reg(1), rhs: reg(0) }),
            OpCode::Assign(Assign { lhs: reg(2), rhs: reg(1) }),
        ],
        vec![],
        vec![(reg(0), Kind::Signed(12)), (reg(2), Kind::Signed(12))],
        vec![reg(0)],
        reg(2),
        vec![reg(0), reg(1), reg(2)],
    );
    let obj = infer(mir).expect("inference succeeds");
    assert!(matches!(kind_of(&obj.kind, 1), Kind::Signed(12)));
}

#[test]
fn an_unsized_literal_defaults_to_a_signed_128_bit_value() {
    let mir = function(
        vec![OpCode::Assign(Assign { lhs: reg(1), rhs: lit(0) })],
        vec![(lit(0), ExprLit::Int("-3".to_string()))],
        vec![(reg(0), Kind::Bits(1))],
        vec![],
        reg(0),
        vec![reg(0), reg(1), lit(0)],
    );
    let obj = infer(mir).expect("inference succeeds");
    assert!(matches!(kind_of(&obj.kind, 1), Kind::Signed(128)));
    let value = obj.literals[0].as_ref().expect("literal has a value");
    assert!(matches!(value.kind, Kind::Signed(128)));
    assert!(value.bits[0]);
    assert!(!value.bits[1]);
    assert!(value.bits[127]);
}

#[test]
fn arrays_and_tuples_are_built_from_their_parts() {
    let mir = function(
        vec![
            OpCode::Array(Array { lhs: reg(2), elements: vec![reg(0), reg(0), reg(0)] }),
            OpCode::Tuple(Tuple { lhs: reg(3), fields: vec![reg(0), reg(1)] }),
        ],
        vec![],
        vec![(reg(0), Kind::Bits(2)), (reg(1), Kind::Signed(3)), (reg(4), Kind::Empty)],
        vec![reg(0), reg(1)],
        reg(4),
        vec![reg(0), reg(1), reg(2), reg(3), reg(4)],
    );
    let obj = infer(mir).expect("inference succeeds");
    match kind_of(&obj.kind, 2) {
        Kind::Array(base, 3) => assert!(matches!(**base, Kind::Bits(2))),
        other => panic!("unexpected kind {:?}", other),
    }
    match kind_of(&obj.kind, 3) {
        Kind::Tuple(parts) => {
            assert_eq!(parts.len(), 2);
            assert!(matches!(parts[0], Kind::Bits(2)));
            assert!(matches!(parts[1], Kind::Signed(3)));
        },
        other => panic!("unexpected kind {:?}", other),
    }
}

#[test]
fn a_comparison_gives_one_bit() {
    let mir = function(
        vec![OpCode::Binary(Binary { op: AluBinary::Lt, lhs: reg(2), arg1: reg(0), arg2: reg(1) })],
        vec![],
        vec![(reg(0), Kind::Bits(16)), (reg(1), Kind::Bits(16)), (reg(3), Kind::Empty)],
        vec![reg(0), reg(1)],
        reg(3),
        vec![reg(0), reg(1), reg(2), reg(3)],
    );
    let obj = infer(mir).expect("inference succeeds");
    assert!(matches!(kind_of(&obj.kind, 2), Kind::Bits(1)));
}

#[test]
fn copies_between_registers_declared_alike_are_inferred() {
    let mir = function(
        vec![
            OpCode::Assign(Assign { lhs: reg(1), rhs: reg(0) }),
            OpCode::Noop,
            OpCode::Assign(Assign { lhs: reg(2), rhs: reg(1) }),
        ],
        vec![],
        vec![(reg(0), Kind::Bits(6)), (reg(1), Kind::Bits(6)), (reg(2), Kind::Bits(6))],
        vec![reg(0)],
        reg(2),
        vec![reg(0), reg(1), reg(2)],
    );
    let obj = infer(mir).expect("inference succeeds");
    assert!(matches!(kind_of(&obj.kind, 0), Kind::Bits(6)));
    assert!(matches!(kind_of(&obj.kind, 1), Kind::Bits(6)));
    assert!(matches!(kind_of(&obj.kind, 2), Kind::Bits(6)));
}

#[test]
fn arithmetic_and_comparisons_on_declared_registers_are_inferred() {
    let mir = function(
        vec![
            OpCode::Binary(Binary { op: AluBinary::Add, lhs: reg(2), arg1: reg(0), arg2: reg(1) }),
            OpCode::Binary(Binary { op: AluBinary::Lt, lhs: reg(3), arg1: reg(2), arg2: reg(1) }),
            OpCode::Assign(Assign { lhs: reg(4), rhs: reg(3) }),
        ],
        vec![],
        vec![
            (reg(0), Kind::Signed(5)),
            (reg(1), Kind::Signed(5)),
            (reg(2), Kind::Signed(5)),
            (reg(3), Kind::Bits(1)),
            (reg(4), Kind::Bits(1)),
        ],
        vec![reg(0), reg(1)],
        reg(4),
        vec![reg(0), reg(1), reg(2), reg(3), reg(4)],
    );
    let obj = infer(mir).expect("inference succeeds");
    assert!(matches!(kind_of(&obj.kind, 2), Kind::Signed(5)));
    assert!(matches!(kind_of(&obj.kind, 3), Kind::Bits(1)));
}

#[test]
fn a_select_between_declared_registers_is_inferred() {
    let mir = function(
        vec![OpCode::Select(Select { lhs: reg(3), cond: reg(0), true_value: reg(1), false_value: reg(2) })],
        vec![],
        vec![(reg(0), Kind::Bits(1)), (reg(1), Kind::Bits(3)), (reg(2), Kind::Bits(3)), (reg(3), Kind::Bits(3))],
        vec![reg(0), reg(1), reg(2)],
        reg(3),
        vec![reg(0), reg(1), reg(2), reg(3)],
    );
    let obj = infer(mir).expect("inference succeeds");
    assert!(matches!(kind_of(&obj.kind, 3), Kind::Bits(3)));
}

#[test]
fn mismatched_widths_are_reported() {
    let mir = function(
        vec![OpCode::Assign(Assign { lhs: reg(1), rhs: reg(0) })],
        vec![],
        vec![(reg(0), Kind::Bits(4)), (reg(1), Kind::Bits(8))],
        vec![reg(0)],
        reg(1),
        vec![reg(0), reg(1)],
    );
    match infer(mir) {
        Err(RHDLError::TypeMismatch { id, .. }) => assert_eq!(id, NodeId(100)),
        other => panic!("expected a mismatch, got {:?}", other.map(|_| ())),
    }
}

#[test]
fn a_type_nothing_settles_is_reported() {
    let mir = function(
        vec![OpCode::Assign(Assign { lhs: reg(1), rhs: reg(2) })],
        vec![],
        vec![(reg(0), Kind::Empty)],
        vec![],
        reg(0),
        vec![reg(0), reg(1), reg(2)],
    );
    match infer(mir) {
        Err(RHDLError::TypeCheck { cause: TypeCheck::UnableToDetermineType, .. }) => {},
        other => panic!("expected an open type, got {:?}", other.map(|_| ())),
    }
}

#[test]
fn negation_needs_a_signed_value() {
    let mir = function(
        vec![OpCode::Unary(Unary { op: AluUnary::Neg, lhs: reg(1), arg1: reg(0) })],
        vec![],
        vec![(reg(0), Kind::Bits(8)), (reg(2), Kind::Empty)],
        vec![reg(0)],
        reg(2),
        vec![reg(0), reg(1), reg(2)],
    );
    match infer(mir) {
        Err(RHDLError::Syntax { id, .. }) => assert_eq!(id, NodeId(100)),
        other => panic!("expected a syntax error, got {:?}", other.map(|_| ())),
    }
}

#[test]
fn a_function_of_declarations_alone_is_inferred() {
    let mir = function(
        vec![],
        vec![],
        vec![(reg(0), Kind::Bits(4)), (reg(1), Kind::Signed(2))],
        vec![reg(0)],
        reg(1),
        vec![reg(0), reg(1)],
    );
    let obj = infer(mir).expect("inference succeeds");
    assert!(matches!(kind_of(&obj.kind, 0), Kind::Bits(4)));
    assert!(matches!(kind_of(&obj.kind, 1), Kind::Signed(2)));
    assert_eq!(obj.arguments, vec![RegisterId(0)]);
}

#[test]
fn an_extending_sum_is_one_bit_wider_than_its_wider_operand() {
    let mir = function(
        vec![OpCode::Binary(Binary { op: AluBinary::XAdd, lhs: reg(2), arg1: reg(0), arg2: reg(1) })],
        vec![],
        vec![(reg(0), Kind::Bits(4)), (reg(1), Kind::Bits(6))],
        vec![reg(0), reg(1)],
        reg(0),
        vec![reg(0), reg(1), reg(2)],
    );
    let obj = infer(mir).expect("inference succeeds");
    assert!(matches!(kind_of(&obj.kind, 2), Kind::Bits(7)));
}

#[test]
fn an_extending_difference_is_signed() {
    let mir = function(
        vec![OpCode::Binary(Binary { op: AluBinary::XSub, lhs: reg(2), arg1: reg(0), arg2: reg(1) })],
        vec![],
        vec![(reg(0), Kind::Bits(5)), (reg(1), Kind::Bits(3))],
        vec![reg(0), reg(1)],
        reg(0),
        vec![reg(0), reg(1), reg(2)],
    );
    let obj = infer(mir).expect("inference succeeds");
    assert!(matches!(kind_of(&obj.kind, 2), Kind::Signed(6)));
}

#[test]
fn a_padded_value_has_one_more_bit() {
    let mir = function(
        vec![OpCode::Unary(Unary { op: AluUnary::Pad, lhs: reg(1), arg1: reg(0) })],
        vec![],
        vec![(reg(0), Kind::Signed(3))],
        vec![reg(0)],
        reg(0),
        vec![reg(0), reg(1)],
    );
    let obj = infer(mir).expect("inference succeeds");
    assert!(matches!(kind_of(&obj.kind, 1), Kind::Signed(4)));
}
