use lib::ast::{FunctionId, NodeId};
use lib::compiler::driver::compile_design_stage2;
use lib::compiler::lower_rhif_to_rtl::compile_to_rtl;
use lib::error::{RHDLError, ICE};
use lib::compiler::mir::mir_impl::SymbolMap;
use lib::rhif::object::Object;
use lib::rhif::spec::{AluBinary, Binary, Cast, LiteralId, LocatedOpCode, OpCode, RegisterId, Slot};
use lib::rtl::object::RegisterKind;
use lib::rtl::spec::{CastKind, Operand};
use lib::types::bit_string::TypedBits;
use lib::types::kind::Kind;

fn reg(i: usize) -> Slot {
    Slot::Register(RegisterId(i))
}

fn bits(n: usize, value: u64) -> TypedBits {
    TypedBits { bits: (0..n).map(|i| (value >> i) & 1 == 1).collect(), kind: Kind::Bits(n) }
}

fn object(literals: Vec<TypedBits>, kinds: Vec<Kind>, ops: Vec<OpCode>, ret: Slot) -> Object {
    let n = kinds.len();
    Object {
        literals: literals.into_iter().map(Some).collect(),
        kind: kinds.into_iter().map(Some).collect(),
        register_names: (0..n).map(|_| None).collect(),
        ops: ops.into_iter().enumerate().map(|(i, op)| LocatedOpCode { op, id: NodeId(i as u32) }).collect(),
        arguments: vec![RegisterId(0)],
        return_slot: ret,
        externals: vec![],
        name: "top".to_string(),
        fn_id: FunctionId(3),
        symbols: SymbolMap { slot_map: vec![], fallback: NodeId(0) },
    }
}

#[test]
fn an_addition_lowers_to_one_binary_opcode() {
    let obj = object(
        vec![bits(8, 7)],
        vec![Kind::Bits(8), Kind::Bits(8)],
        vec![OpCode::Binary(Binary { op: AluBinary::Add, lhs: reg(1), arg1: reg(0), arg2: Slot::Literal(LiteralId(0)) })],
        reg(1),
    );
    let out = compile_to_rtl(&obj).unwrap();
    assert_eq!(out.fn_id, FunctionId(3));
    assert_eq!(out.arguments.len(), 1);
    let arg = out.arguments[0].expect("the argument has bits");
    let binaries: Vec<_> = out.ops.iter().filter_map(|lop| match &lop.op {
        lib::rtl::spec::OpCode::Binary(b) => Some(*b),
        _ => None,
    }).collect();
    assert_eq!(binaries.len(), 1);
    let b = binaries[0];
    assert_eq!(b.op, AluBinary::Add);
    assert_eq!(b.arg1, Operand::Register(arg));
    assert_eq!(Some(b.lhs), out.return_register);
    match b.arg2 {
        Operand::Literal(l) => {
            assert_eq!(out.literals[l.0].len(), 8);
            assert_eq!(out.literals[l.0].bits(), &vec![true, true, true, false, false, false, false, false]);
        }
        _ => panic!("the constant should stay a literal"),
    }
    match out.return_register {
        Some(Operand::Register(r)) => assert_eq!(out.register_kind[r.0], Some(RegisterKind::Unsigned(8))),
        _ => panic!("the result is a register"),
    }
}

#[test]
fn a_cast_without_a_length_is_refused() {
    let obj = object(
        vec![],
        vec![Kind::Bits(8), Kind::Bits(4)],
        vec![OpCode::Resize(Cast { lhs: reg(1), arg: reg(0), len: None })],
        reg(1),
    );
    let e = compile_to_rtl(&obj).unwrap_err();
    assert!(matches!(e, RHDLError::Compile { cause: ICE::BitCastMissingRequiredLength, id: NodeId(0) }));
}

#[test]
fn a_resize_lowers_to_a_cast() {
    let obj = object(
        vec![],
        vec![Kind::Signed(8), Kind::Signed(4)],
        vec![OpCode::Resize(Cast { lhs: reg(1), arg: reg(0), len: Some(4) })],
        reg(1),
    );
    let out = compile_to_rtl(&obj).unwrap();
    let casts: Vec<_> = out.ops.iter().filter_map(|lop| match &lop.op {
        lib::rtl::spec::OpCode::Cast(c) => Some(*c),
        _ => None,
    }).collect();
    assert_eq!(casts.len(), 1);
    assert_eq!(casts[0].len, 4);
    assert_eq!(casts[0].kind, CastKind::Resize);
    assert_eq!(Some(casts[0].lhs), out.return_register);
}

#[test]
fn a_function_without_a_result_lowers_with_no_result_operand() {
    let obj = object(
        vec![],
        vec![Kind::Bits(4), Kind::Bits(4)],
        vec![OpCode::Binary(Binary { op: AluBinary::BitXor, lhs: reg(1), arg1: reg(0), arg2: reg(0) })],
        Slot::Empty,
    );
    let out = compile_to_rtl(&obj).unwrap();
    assert_eq!(out.return_register, None);
    assert_eq!(out.arguments.len(), 1);
    assert!(out.arguments[0].is_some());
}

#[test]
fn lowering_keeps_the_source_nodes_of_the_slots() {
    let mut obj = object(
        vec![],
        vec![Kind::Bits(4), Kind::Bits(4)],
        vec![OpCode::Binary(Binary { op: AluBinary::BitXor, lhs: reg(1), arg1: reg(0), arg2: reg(0) })],
        reg(1),
    );
    obj.symbols = SymbolMap { slot_map: vec![(reg(0), NodeId(7)), (reg(1), NodeId(9))], fallback: NodeId(0) };
    let out = compile_to_rtl(&obj).unwrap();
    assert_eq!(out.symbols.slot_map, vec![(reg(0), NodeId(7)), (reg(1), NodeId(9))]);
    assert_eq!(out.name, "top");
    assert_eq!(out.fn_id, FunctionId(3));
}

#[test]
fn source_registers_of_one_kind_get_distinct_registers() {
    let obj = object(
        vec![],
        vec![Kind::Bits(8), Kind::Bits(8), Kind::Bits(8)],
        vec![
            OpCode::Binary(Binary { op: AluBinary::Add, lhs: reg(1), arg1: reg(0), arg2: reg(0) }),
            OpCode::Binary(Binary { op: AluBinary::Sub, lhs: reg(2), arg1: reg(1), arg2: reg(0) }),
        ],
        reg(2),
    );
    let out = compile_to_rtl(&obj).unwrap();
    let binaries: Vec<_> = out.ops.iter().filter_map(|lop| match &lop.op {
        lib::rtl::spec::OpCode::Binary(b) => Some(*b),
        _ => None,
    }).collect();
    assert_eq!(binaries.len(), 2);
    let (add, sub) = (binaries[0], binaries[1]);
    assert_eq!(add.arg1, add.arg2);
    assert_ne!(add.lhs, add.arg1);
    assert_eq!(sub.arg1, add.lhs);
    assert_eq!(sub.arg2, add.arg1);
    assert_ne!(sub.lhs, sub.arg1);
    assert_ne!(sub.lhs, sub.arg2);
    assert_eq!(out.register_kind.len(), 3);
}

#[test]
fn the_second_stage_lowers_the_object() {
    let make = || {
        object(
            vec![bits(4, 3)],
            vec![Kind::Bits(4), Kind::Bits(4)],
            vec![OpCode::Binary(Binary { op: AluBinary::Add, lhs: reg(1), arg1: reg(0), arg2: Slot::Literal(LiteralId(0)) })],
            reg(1),
        )
    };
    let a = compile_design_stage2(make()).unwrap();
    let b = compile_to_rtl(&make()).unwrap();
    assert_eq!(a.ops.len(), b.ops.len());
    assert_eq!(a.register_kind, b.register_kind);
    assert_eq!(a.return_register, b.return_register);
    assert_eq!(a.fn_id, FunctionId(3));
    let bad = object(
        vec![],
        vec![Kind::Bits(8), Kind::Bits(4)],
        vec![OpCode::Resize(Cast { lhs: reg(1), arg: reg(0), len: None })],
        reg(1),
    );
    assert!(compile_design_stage2(bad).is_err());
}
