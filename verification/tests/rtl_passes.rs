use lib::ast::{FunctionId, NodeId};
use lib::compiler::rtl_passes::lower_multiply_to_shift::LowerMultiplyToShift;
use lib::compiler::rtl_passes::lower_shift_by_constant::LowerShiftByConstant;
use lib::compiler::rtl_passes::remove_extra_registers::RemoveExtraRegistersPass;
use lib::compiler::rtl_passes::{allocate_literal, allocate_register};
use lib::compiler::mir::mir_impl::SymbolMap;
use lib::error::{RHDLError, ICE};
use lib::rhif::spec::AluBinary;
use lib::rtl::object::{LocatedOpCode, Object, RegisterKind};
use lib::rtl::spec::{Assign, Binary, CastKind, LiteralId, OpCode, Operand, RegisterId};
use lib::types::bit_string::BitString;

fn reg(i: usize) -> Operand {
    Operand::Register(RegisterId(i))
}

fn lit(i: usize) -> Operand {
    Operand::Literal(LiteralId(i))
}

fn unsigned(n: usize, value: u64) -> BitString {
    BitString::Unsigned((0..n).map(|i| (value >> i) & 1 == 1).collect())
}

fn signed(n: usize, value: i64) -> BitString {
    BitString::Signed((0..n).map(|i| (value >> i) & 1 == 1).collect())
}

fn located(op: OpCode, id: u32) -> LocatedOpCode {
    LocatedOpCode { op, id: NodeId(id), func: FunctionId(0) }
}

fn object(literals: Vec<BitString>, kinds: Vec<RegisterKind>, ops: Vec<LocatedOpCode>, ret: Operand) -> Object {
    Object {
        literals,
        register_kind: kinds.into_iter().map(Some).collect(),
        ops,
        arguments: vec![Some(RegisterId(0))],
        return_register: Some(ret),
        symbols: SymbolMap { slot_map: vec![], fallback: NodeId(0) },
        name: "top".to_string(),
        fn_id: FunctionId(0),
    }
}

fn binary(op: AluBinary, lhs: Operand, arg1: Operand, arg2: Operand) -> OpCode {
    OpCode::Binary(Binary { lhs, op, arg1, arg2 })
}

#[test]
fn allocation_appends_to_the_tables() {
    let mut kinds = vec![Some(RegisterKind::Unsigned(4))];
    let r = allocate_register(&mut kinds, RegisterKind::Signed(7));
    assert_eq!(r, RegisterId(1));
    assert_eq!(kinds.len(), 2);
    assert_eq!(kinds[1], Some(RegisterKind::Signed(7)));
    let mut lits = vec![unsigned(3, 5)];
    let l = allocate_literal(&mut lits, unsigned(2, 1));
    assert_eq!(l, LiteralId(1));
    assert_eq!(lits.len(), 2);
}

#[test]
fn right_shift_by_literal_becomes_extend_and_index() {
    let obj = object(
        vec![unsigned(4, 3)],
        vec![RegisterKind::Unsigned(8), RegisterKind::Unsigned(8)],
        vec![located(binary(AluBinary::Shr, reg(1), reg(0), lit(0)), 5)],
        reg(1),
    );
    let out = LowerShiftByConstant::run(obj).unwrap();
    assert_eq!(out.ops.len(), 2);
    assert_eq!(out.register_kind.len(), 3);
    assert_eq!(out.register_kind[2], Some(RegisterKind::Unsigned(11)));
    match &out.ops[0].op {
        OpCode::Cast(c) => {
            assert_eq!(c.lhs, reg(2));
            assert_eq!(c.arg, reg(0));
            assert_eq!(c.len, 11);
            assert_eq!(c.kind, CastKind::Resize);
        }
        _ => panic!("expected a cast"),
    }
    match &out.ops[1].op {
        OpCode::Index(x) => {
            assert_eq!(x.lhs, reg(1));
            assert_eq!(x.arg, reg(2));
            assert_eq!(x.bit_range, 3..11);
        }
        _ => panic!("expected an index"),
    }
    assert_eq!(out.ops[1].id, NodeId(5));
}

#[test]
fn left_shift_by_literal_becomes_index_and_concat() {
    let obj = object(
        vec![unsigned(4, 2)],
        vec![RegisterKind::Signed(8), RegisterKind::Signed(8)],
        vec![located(binary(AluBinary::Shl, reg(1), reg(0), lit(0)), 2)],
        reg(1),
    );
    let out = LowerShiftByConstant::run(obj).unwrap();
    assert_eq!(out.ops.len(), 2);
    assert_eq!(out.literals.len(), 2);
    assert_eq!(out.literals[1].len(), 2);
    assert!(!out.literals[1].is_signed());
    assert!(out.literals[1].bits().iter().all(|b| !*b));
    assert_eq!(out.register_kind[2], Some(RegisterKind::Signed(6)));
    match &out.ops[0].op {
        OpCode::Index(x) => {
            assert_eq!(x.lhs, reg(2));
            assert_eq!(x.arg, reg(0));
            assert_eq!(x.bit_range, 0..6);
        }
        _ => panic!("expected an index"),
    }
    match &out.ops[1].op {
        OpCode::Concat(c) => {
            assert_eq!(c.lhs, reg(1));
            assert_eq!(c.args, vec![lit(1), reg(2)]);
        }
        _ => panic!("expected a concatenation"),
    }
}

#[test]
fn left_shift_past_the_width_keeps_no_bits() {
    let obj = object(
        vec![unsigned(8, 12)],
        vec![RegisterKind::Unsigned(8), RegisterKind::Unsigned(8)],
        vec![located(binary(AluBinary::Shl, reg(1), reg(0), lit(0)), 2)],
        reg(1),
    );
    let out = LowerShiftByConstant::run(obj).unwrap();
    assert_eq!(out.register_kind[2], Some(RegisterKind::Unsigned(0)));
    assert_eq!(out.literals[1].len(), 12);
}

#[test]
fn negative_shift_amount_is_refused() {
    let obj = object(
        vec![signed(4, -1)],
        vec![RegisterKind::Unsigned(8), RegisterKind::Unsigned(8)],
        vec![located(binary(AluBinary::Shr, reg(1), reg(0), lit(0)), 8)],
        reg(1),
    );
    let e = LowerShiftByConstant::run(obj).unwrap_err();
    assert!(matches!(
        e,
        RHDLError::Compile { cause: ICE::ShiftOperatorRequiresUnsignedArgumentConstant { shift: -1 }, id: NodeId(8) }
    ));
}

#[test]
fn too_wide_shift_amount_is_refused() {
    let obj = object(
        vec![unsigned(65, 1)],
        vec![RegisterKind::Unsigned(8), RegisterKind::Unsigned(8)],
        vec![located(binary(AluBinary::Shl, reg(1), reg(0), lit(0)), 8)],
        reg(1),
    );
    let e = LowerShiftByConstant::run(obj).unwrap_err();
    assert!(matches!(e, RHDLError::IntegerOutOfRange));
}

#[test]
fn shifts_by_registers_and_other_opcodes_are_kept() {
    let obj = object(
        vec![],
        vec![RegisterKind::Unsigned(8), RegisterKind::Unsigned(3), RegisterKind::Unsigned(8)],
        vec![
            located(binary(AluBinary::Shl, reg(2), reg(0), reg(1)), 1),
            located(binary(AluBinary::Add, reg(2), reg(0), reg(0)), 2),
        ],
        reg(2),
    );
    let out = LowerShiftByConstant::run(obj).unwrap();
    assert_eq!(out.ops.len(), 2);
    assert_eq!(out.register_kind.len(), 3);
    assert!(matches!(out.ops[0].op, OpCode::Binary(Binary { op: AluBinary::Shl, .. })));
    assert!(matches!(out.ops[1].op, OpCode::Binary(Binary { op: AluBinary::Add, .. })));
}

#[test]
fn multiply_by_power_of_two_becomes_cast_and_shift() {
    let obj = object(
        vec![unsigned(8, 8)],
        vec![RegisterKind::Signed(4), RegisterKind::Signed(12)],
        vec![located(binary(AluBinary::Mul, reg(1), reg(0), lit(0)), 3)],
        reg(1),
    );
    let out = LowerMultiplyToShift::run(obj).unwrap();
    assert_eq!(out.ops.len(), 2);
    assert_eq!(out.register_kind[2], Some(RegisterKind::Signed(12)));
    // 8 == 1 << 3: the amount 3 held in clog2(3) == 2 bits
    assert_eq!(out.literals.len(), 2);
    assert_eq!(out.literals[1].len(), 2);
    assert_eq!(out.literals[1].bits(), &vec![true, true]);
    match &out.ops[0].op {
        OpCode::Cast(c) => {
            assert_eq!(c.lhs, reg(2));
            assert_eq!(c.arg, reg(0));
            assert_eq!(c.len, 12);
            assert_eq!(c.kind, CastKind::Signed);
        }
        _ => panic!("expected a cast"),
    }
    match &out.ops[1].op {
        OpCode::Binary(b) => {
            assert_eq!(b.op, AluBinary::Shl);
            assert_eq!(b.lhs, reg(1));
            assert_eq!(b.arg1, reg(2));
            assert_eq!(b.arg2, lit(1));
        }
        _ => panic!("expected a shift"),
    }
}

#[test]
fn multiply_by_other_literals_is_kept() {
    let obj = object(
        vec![unsigned(8, 6)],
        vec![RegisterKind::Unsigned(4), RegisterKind::Unsigned(8)],
        vec![located(binary(AluBinary::Mul, reg(1), reg(0), lit(0)), 3)],
        reg(1),
    );
    let out = LowerMultiplyToShift::run(obj).unwrap();
    assert_eq!(out.ops.len(), 1);
    assert_eq!(out.literals.len(), 1);
    assert_eq!(out.register_kind.len(), 2);
}

#[test]
fn copies_between_registers_are_removed() {
    let obj = object(
        vec![],
        vec![RegisterKind::Unsigned(4), RegisterKind::Unsigned(4), RegisterKind::Unsigned(4)],
        vec![
            located(OpCode::Assign(Assign { lhs: reg(1), rhs: reg(0) }), 1),
            located(binary(AluBinary::Add, reg(2), reg(1), reg(1)), 2),
        ],
        reg(2),
    );
    let out = RemoveExtraRegistersPass::run(obj).unwrap();
    assert!(out.ops.iter().all(|op| !matches!(op.op, OpCode::Assign(_))));
    assert!(matches!(out.ops[0].op, OpCode::Noop));
    match &out.ops[1].op {
        OpCode::Binary(b) => {
            assert_eq!(b.arg1, reg(0));
            assert_eq!(b.arg2, reg(0));
            assert_eq!(b.lhs, reg(2));
        }
        _ => panic!("expected the addition"),
    }
    assert_eq!(out.register_kind[1], None);
}

#[test]
fn copy_to_the_result_renames_the_result() {
    let obj = object(
        vec![],
        vec![RegisterKind::Unsigned(4), RegisterKind::Unsigned(4)],
        vec![located(OpCode::Assign(Assign { lhs: reg(1), rhs: reg(0) }), 1)],
        reg(1),
    );
    let out = RemoveExtraRegistersPass::run(obj).unwrap();
    assert_eq!(out.return_register, Some(reg(0)));
}
