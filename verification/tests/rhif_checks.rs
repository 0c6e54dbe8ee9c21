use lib::ast::{FunctionId, NodeId};
use lib::compiler::check_rhif_flow::check_rhif_flow;
use lib::compiler::passes::check_rhif_type::{check_type_correctness, TypeCheckPass};
use lib::compiler::passes::symbol_table_is_complete::SymbolTableIsComplete;
use lib::compiler::rhif_passes::check_for_rolled_types::CheckForRolledTypesPass;
use lib::error::{RHDLError, Syntax, ICE};
use lib::compiler::mir::mir_impl::SymbolMap;
use lib::rhif::object::Object;
use lib::rhif::spec::{AluBinary, AluUnary, Assign, Binary, LiteralId, LocatedOpCode, OpCode, RegisterId, Slot, Unary};
use lib::types::bit_string::TypedBits;
use lib::types::kind::{Color, Kind};

fn reg(i: usize) -> Slot {
    Slot::Register(RegisterId(i))
}

fn lit(i: usize) -> Slot {
    Slot::Literal(LiteralId(i))
}

fn bits(n: usize, value: u64) -> TypedBits {
    TypedBits { bits: (0..n).map(|i| (value >> i) & 1 == 1).collect(), kind: Kind::Bits(n) }
}

fn located(op: OpCode, id: u32) -> LocatedOpCode {
    LocatedOpCode { op, id: NodeId(id) }
}

fn object(literals: Vec<TypedBits>, kinds: Vec<Kind>, ops: Vec<LocatedOpCode>, arguments: Vec<usize>, ret: Slot) -> Object {
    let n = kinds.len();
    Object {
        literals: literals.into_iter().map(Some).collect(),
        kind: kinds.into_iter().map(Some).collect(),
        register_names: (0..n).map(|_| None).collect(),
        ops,
        arguments: arguments.into_iter().map(RegisterId).collect(),
        return_slot: ret,
        externals: vec![],
        name: "f".to_string(),
        fn_id: FunctionId(1),
        symbols: SymbolMap { slot_map: vec![], fallback: NodeId(0) },
    }
}

fn add(lhs: Slot, arg1: Slot, arg2: Slot) -> OpCode {
    OpCode::Binary(Binary { op: AluBinary::Add, lhs, arg1, arg2 })
}

#[test]
fn flow_accepts_straight_line_code() {
    let obj = object(
        vec![bits(8, 3)],
        vec![Kind::Bits(8), Kind::Bits(8), Kind::Bits(8)],
        vec![located(add(reg(1), reg(0), lit(0)), 1), located(add(reg(2), reg(1), reg(0)), 2)],
        vec![0],
        reg(2),
    );
    assert!(check_rhif_flow(&obj).is_ok());
}

#[test]
fn flow_rejects_read_before_write() {
    let obj = object(
        vec![],
        vec![Kind::Bits(8), Kind::Bits(8), Kind::Bits(8)],
        vec![located(add(reg(1), reg(0), reg(2)), 7)],
        vec![0],
        reg(1),
    );
    let e = check_rhif_flow(&obj).unwrap_err();
    assert!(matches!(
        e,
        RHDLError::Compile { cause: ICE::SlotIsReadBeforeBeingWritten { slot: Slot::Register(RegisterId(2)) }, id: NodeId(7) }
    ));
}

#[test]
fn flow_rejects_second_write() {
    let obj = object(
        vec![],
        vec![Kind::Bits(8), Kind::Bits(8)],
        vec![located(add(reg(1), reg(0), reg(0)), 1), located(add(reg(1), reg(0), reg(0)), 2)],
        vec![0],
        reg(1),
    );
    let e = check_rhif_flow(&obj).unwrap_err();
    assert!(matches!(
        e,
        RHDLError::Compile { cause: ICE::SlotIsWrittenTwice { slot: Slot::Register(RegisterId(1)) }, id: NodeId(2) }
    ));
}

#[test]
fn flow_rejects_write_to_literal() {
    let obj = object(
        vec![bits(8, 1)],
        vec![Kind::Bits(8)],
        vec![located(OpCode::Assign(Assign { lhs: lit(0), rhs: reg(0) }), 4)],
        vec![0],
        reg(0),
    );
    let e = check_rhif_flow(&obj).unwrap_err();
    assert!(matches!(e, RHDLError::Compile { cause: ICE::CannotWriteToLiteral { ndx: 0 }, id: NodeId(4) }));
}

#[test]
fn flow_rejects_argument_written_by_an_opcode() {
    let obj = object(
        vec![],
        vec![Kind::Bits(8)],
        vec![located(add(reg(0), reg(0), reg(0)), 3)],
        vec![0],
        reg(0),
    );
    assert!(check_rhif_flow(&obj).is_err());
}

#[test]
fn type_check_accepts_matching_widths() {
    let obj = object(
        vec![bits(8, 3)],
        vec![Kind::Bits(8), Kind::Bits(8)],
        vec![located(add(reg(1), reg(0), lit(0)), 1)],
        vec![0],
        reg(1),
    );
    let out = TypeCheckPass::run(obj).unwrap();
    assert_eq!(out.ops.len(), 1);
}

#[test]
fn type_check_reports_width_mismatch() {
    let obj = object(
        vec![bits(4, 3)],
        vec![Kind::Bits(8), Kind::Bits(8)],
        vec![located(add(reg(1), reg(0), lit(0)), 9)],
        vec![0],
        reg(1),
    );
    let e = TypeCheckPass::run(obj).unwrap_err();
    match e {
        RHDLError::Compile { cause: ICE::MismatchInDataTypes { lhs, rhs }, id } => {
            assert_eq!(id, NodeId(9));
            assert!(matches!(lhs, Kind::Bits(8)));
            assert!(matches!(rhs, Kind::Bits(4)));
        }
        _ => panic!("unexpected error"),
    }
}

#[test]
fn type_check_sees_through_signals() {
    let obj = object(
        vec![],
        vec![Kind::Signal(Box::new(Kind::Bits(8)), Color::Red), Kind::Bits(8), Kind::Bits(8)],
        vec![located(add(reg(2), reg(0), reg(1)), 1)],
        vec![0, 1],
        reg(2),
    );
    assert!(TypeCheckPass::run(obj).is_ok());
}

#[test]
fn type_check_requires_unsigned_shift_amount() {
    let obj = object(
        vec![],
        vec![Kind::Bits(8), Kind::Signed(3), Kind::Bits(8)],
        vec![located(OpCode::Binary(Binary { op: AluBinary::Shl, lhs: reg(2), arg1: reg(0), arg2: reg(1) }), 5)],
        vec![0, 1],
        reg(2),
    );
    let e = TypeCheckPass::run(obj).unwrap_err();
    assert!(matches!(e, RHDLError::Compile { cause: ICE::ShiftOperatorRequiresUnsignedArgument, id: NodeId(5) }));
}

#[test]
fn type_check_comparison_gives_a_bit() {
    let good = object(
        vec![],
        vec![Kind::Bits(8), Kind::Bits(8), Kind::Bits(1)],
        vec![located(OpCode::Binary(Binary { op: AluBinary::Lt, lhs: reg(2), arg1: reg(0), arg2: reg(1) }), 1)],
        vec![0, 1],
        reg(2),
    );
    assert!(TypeCheckPass::run(good).is_ok());
    let bad = object(
        vec![],
        vec![Kind::Bits(8), Kind::Bits(8), Kind::Bits(8)],
        vec![located(OpCode::Binary(Binary { op: AluBinary::Lt, lhs: reg(2), arg1: reg(0), arg2: reg(1) }), 1)],
        vec![0, 1],
        reg(2),
    );
    assert!(TypeCheckPass::run(bad).is_err());
}

#[test]
fn type_check_signed_of_signed_is_refused() {
    let obj = object(
        vec![],
        vec![Kind::Signed(8), Kind::Signed(8)],
        vec![located(OpCode::Unary(Unary { op: AluUnary::Signed, lhs: reg(1), arg1: reg(0) }), 2)],
        vec![0],
        reg(1),
    );
    let e = TypeCheckPass::run(obj).unwrap_err();
    assert!(matches!(e, RHDLError::Compile { cause: ICE::SignedCastRequiresUnsignedArgument, id: NodeId(2) }));
}

#[test]
fn type_check_unsigned_of_unsigned_is_refused() {
    let obj = object(
        vec![],
        vec![Kind::Bits(8), Kind::Bits(8)],
        vec![located(OpCode::Unary(Unary { op: AluUnary::Unsigned, lhs: reg(1), arg1: reg(0) }), 2)],
        vec![0],
        reg(1),
    );
    let e = TypeCheckPass::run(obj).unwrap_err();
    assert!(matches!(e, RHDLError::Compile { cause: ICE::UnsignedCastRequiresSignedArgument, id: NodeId(2) }));
}

#[test]
fn type_check_reports_the_first_fault() {
    let obj = object(
        vec![],
        vec![Kind::Bits(8), Kind::Bits(4), Kind::Bits(2)],
        vec![
            located(OpCode::Assign(Assign { lhs: reg(1), rhs: reg(0) }), 1),
            located(OpCode::Assign(Assign { lhs: reg(2), rhs: reg(0) }), 2),
        ],
        vec![0],
        reg(2),
    );
    let e = TypeCheckPass::run(obj).unwrap_err();
    assert!(matches!(e, RHDLError::Compile { cause: ICE::MismatchInDataTypes { .. }, id: NodeId(1) }));
}

#[test]
fn rolled_arithmetic_on_tuples_is_refused() {
    let tuple = || Kind::Tuple(vec![Kind::Bits(4), Kind::Bits(4)]);
    let obj = object(vec![], vec![tuple(), tuple(), tuple()], vec![located(add(reg(2), reg(0), reg(1)), 6)], vec![0, 1], reg(2));
    let e = CheckForRolledTypesPass::run(obj).unwrap_err();
    assert!(matches!(e, RHDLError::Syntax { cause: Syntax::RollYourOwnBinary, id: NodeId(6) }));
}

#[test]
fn arithmetic_on_bit_vectors_is_not_rolled() {
    let obj = object(
        vec![],
        vec![Kind::Bits(4), Kind::Bits(4), Kind::Bits(4)],
        vec![located(add(reg(2), reg(0), reg(1)), 6)],
        vec![0, 1],
        reg(2),
    );
    assert!(CheckForRolledTypesPass::run(obj).is_ok());
}

#[test]
fn val_of_a_plain_value_is_refused() {
    let obj = object(
        vec![],
        vec![Kind::Bits(4), Kind::Bits(4)],
        vec![located(OpCode::Unary(Unary { op: AluUnary::Val, lhs: reg(1), arg1: reg(0) }), 3)],
        vec![0],
        reg(1),
    );
    let e = CheckForRolledTypesPass::run(obj).unwrap_err();
    assert!(matches!(e, RHDLError::Syntax { cause: Syntax::RollYourOwnUnary { op: AluUnary::Val }, id: NodeId(3) }));
}

#[test]
fn type_check_pass_agrees_with_the_check() {
    let make = |w: usize| {
        object(
            vec![],
            vec![Kind::Bits(8), Kind::Bits(w), Kind::Bits(8)],
            vec![located(OpCode::Binary(Binary { op: AluBinary::Add, lhs: reg(2), arg1: reg(0), arg2: reg(1) }), 1)],
            vec![0, 1],
            reg(2),
        )
    };
    assert!(check_type_correctness(&make(8)).is_ok());
    let out = TypeCheckPass::run(make(8)).unwrap();
    assert_eq!(out.ops.len(), 1);
    assert_eq!(out.kind.len(), 3);
    let e1 = check_type_correctness(&make(4)).unwrap_err();
    let e2 = TypeCheckPass::run(make(4)).unwrap_err();
    assert!(matches!(e1, RHDLError::Compile { id: NodeId(1), .. }));
    assert!(matches!(e2, RHDLError::Compile { id: NodeId(1), .. }));
}

#[test]
fn a_complete_symbol_table_passes_and_a_missing_slot_is_reported() {
    let make = |entries: Vec<Slot>| {
        let mut obj = object(
            vec![bits(8, 1)],
            vec![Kind::Bits(8), Kind::Bits(8)],
            vec![located(add(reg(1), reg(0), Slot::Literal(LiteralId(0))), 4)],
            vec![0],
            reg(1),
        );
        obj.symbols = SymbolMap { slot_map: entries.into_iter().map(|s| (s, NodeId(2))).collect(), fallback: NodeId(9) };
        obj
    };
    let all = vec![reg(0), reg(1), Slot::Literal(LiteralId(0))];
    let out = SymbolTableIsComplete::run(make(all)).unwrap();
    assert_eq!(out.ops.len(), 1);
    assert_eq!(SymbolTableIsComplete::name(), "symbol_table_is_complete");
    let e = SymbolTableIsComplete::run(make(vec![reg(0), reg(1)])).unwrap_err();
    match e {
        RHDLError::Compile { cause: ICE::SymbolTableIsIncomplete { slot }, id } => {
            assert_eq!(slot, Slot::Literal(LiteralId(0)));
            assert_eq!(id, NodeId(9));
        }
        _ => panic!("an incomplete symbol table"),
    }
    let e = SymbolTableIsComplete::run(make(vec![reg(1)])).unwrap_err();
    assert!(matches!(e, RHDLError::Compile { cause: ICE::SymbolTableIsIncomplete { slot: Slot::Register(RegisterId(0)) }, .. }));
}
