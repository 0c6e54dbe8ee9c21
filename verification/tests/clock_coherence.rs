use lib::ast::{FunctionId, NodeId};
use lib::compiler::passes::check_clock_coherence::{check_clock_coherence, CheckClockCoherence};
use lib::error::{ClockError, RHDLError};
use lib::compiler::mir::mir_impl::SymbolMap;
use lib::rhif::object::Object;
use lib::rhif::spec::{AluBinary, AluUnary, Assign, Binary, Cast, LocatedOpCode, OpCode, RegisterId, Select, Slot, Unary};
use lib::types::kind::{Color, Kind};

fn reg(i: usize) -> Slot {
    Slot::Register(RegisterId(i))
}

fn object(kinds: Vec<Kind>, ops: Vec<LocatedOpCode>) -> Object {
    let n = kinds.len();
    Object {
        literals: vec![],
        kind: kinds.into_iter().map(Some).collect(),
        register_names: (0..n).map(|_| None).collect(),
        ops,
        arguments: vec![],
        return_slot: Slot::Empty,
        externals: vec![],
        name: "f".to_string(),
        fn_id: FunctionId(1),
        symbols: SymbolMap { slot_map: vec![], fallback: NodeId(0) },
    }
}

fn signal(color: Color) -> Kind {
    Kind::Signal(Box::new(Kind::Bits(8)), color)
}

fn add(lhs: Slot, arg1: Slot, arg2: Slot, id: u32) -> LocatedOpCode {
    LocatedOpCode { op: OpCode::Binary(Binary { op: AluBinary::Add, lhs, arg1, arg2 }), id: NodeId(id) }
}

#[test]
fn clock_sum_of_one_domain_is_coherent() {
    let obj = object(vec![signal(Color::Red), signal(Color::Red), signal(Color::Red)], vec![add(reg(2), reg(0), reg(1), 7)]);
    assert!(check_clock_coherence(&obj).is_ok());
}

#[test]
fn clock_sum_across_domains_is_refused() {
    let obj = object(vec![signal(Color::Red), signal(Color::Blue), signal(Color::Red)], vec![add(reg(2), reg(0), reg(1), 7)]);
    match check_clock_coherence(&obj) {
        Err(RHDLError::ClockCoherence { cause, slots, id }) => {
            assert!(matches!(cause, ClockError::BinaryOperationClockMismatch { op: AluBinary::Add }));
            assert_eq!(slots, vec![reg(0), reg(1), reg(2)]);
            assert_eq!(id, NodeId(7));
        },
        other => panic!("unexpected result {:?}", other),
    }
}

#[test]
fn clock_plain_value_takes_the_domain_it_is_copied_from() {
    let copy = LocatedOpCode { op: OpCode::Assign(Assign { lhs: reg(1), rhs: reg(0) }), id: NodeId(3) };
    let obj = object(vec![signal(Color::Green), Kind::Bits(8)], vec![copy]);
    assert!(check_clock_coherence(&obj).is_ok());
}

#[test]
fn clock_value_without_domain_is_unresolved() {
    let obj = object(vec![Kind::Bits(8)], vec![]);
    match check_clock_coherence(&obj) {
        Err(RHDLError::ClockCoherence { cause, slots, .. }) => {
            assert!(matches!(cause, ClockError::UnresolvedClock));
            assert_eq!(slots, vec![reg(0)]);
        },
        other => panic!("unexpected result {:?}", other),
    }
}

#[test]
fn clock_check_pass_hands_back_the_object() {
    let obj = object(vec![signal(Color::Red), signal(Color::Red)], vec![]);
    let out = CheckClockCoherence::run(obj).unwrap();
    assert_eq!(out.kind.len(), 2);
    assert_eq!(CheckClockCoherence::name(), "check_clock_coherence");
}

#[test]
fn copies_between_signals_on_one_clock_are_coherent() {
    let ops = vec![
        LocatedOpCode { op: OpCode::Assign(Assign { lhs: reg(1), rhs: reg(0) }), id: NodeId(3) },
        LocatedOpCode { op: OpCode::Noop, id: NodeId(4) },
        LocatedOpCode { op: OpCode::Assign(Assign { lhs: reg(2), rhs: reg(1) }), id: NodeId(5) },
    ];
    let obj = object(
        vec![signal(Color::Blue), Kind::Signal(Box::new(Kind::Signed(3)), Color::Blue), signal(Color::Blue)],
        ops,
    );
    assert!(check_clock_coherence(&obj).is_ok());
    assert!(CheckClockCoherence::run(obj).is_ok());
}

#[test]
fn a_copy_across_clocks_is_refused() {
    let copy = LocatedOpCode { op: OpCode::Assign(Assign { lhs: reg(1), rhs: reg(0) }), id: NodeId(3) };
    let obj = object(vec![signal(Color::Red), signal(Color::Green)], vec![copy]);
    match check_clock_coherence(&obj) {
        Err(RHDLError::ClockCoherence { cause, slots, id }) => {
            assert!(matches!(cause, ClockError::AssignmentClockMismatch));
            assert_eq!(slots, vec![reg(0), reg(1)]);
            assert_eq!(id, NodeId(3));
        },
        other => panic!("unexpected result {:?}", other),
    }
}

#[test]
fn a_complement_and_a_resize_on_one_clock_are_coherent() {
    let ops = vec![
        LocatedOpCode { op: OpCode::Unary(Unary { op: AluUnary::Not, lhs: reg(1), arg1: reg(0) }), id: NodeId(3) },
        LocatedOpCode { op: OpCode::Resize(Cast { lhs: reg(2), arg: reg(1), len: Some(4) }), id: NodeId(4) },
    ];
    let obj = object(
        vec![signal(Color::Red), signal(Color::Red), Kind::Signal(Box::new(Kind::Bits(4)), Color::Red)],
        ops,
    );
    assert!(check_clock_coherence(&obj).is_ok());
}

#[test]
fn a_comparison_and_a_select_on_one_clock_are_coherent() {
    let bit = Kind::Signal(Box::new(Kind::Bits(1)), Color::Green);
    let ops = vec![
        LocatedOpCode { op: OpCode::Binary(Binary { op: AluBinary::Lt, lhs: reg(2), arg1: reg(0), arg2: reg(1) }), id: NodeId(3) },
        LocatedOpCode {
            op: OpCode::Select(Select { lhs: reg(3), cond: reg(2), true_value: reg(0), false_value: reg(1) }),
            id: NodeId(4),
        },
    ];
    let obj = object(vec![signal(Color::Green), signal(Color::Green), bit, signal(Color::Green)], ops);
    assert!(check_clock_coherence(&obj).is_ok());
}

#[test]
fn a_select_across_clocks_is_refused() {
    let ops = vec![LocatedOpCode {
        op: OpCode::Select(Select { lhs: reg(3), cond: reg(2), true_value: reg(0), false_value: reg(1) }),
        id: NodeId(4),
    }];
    let bit = Kind::Signal(Box::new(Kind::Bits(1)), Color::Red);
    let obj = object(vec![signal(Color::Green), signal(Color::Green), bit, signal(Color::Green)], ops);
    match check_clock_coherence(&obj) {
        Err(RHDLError::ClockCoherence { cause, id, .. }) => {
            assert!(matches!(cause, ClockError::SelectClockMismatch));
            assert_eq!(id, NodeId(4));
        },
        other => panic!("unexpected result {:?}", other),
    }
}
