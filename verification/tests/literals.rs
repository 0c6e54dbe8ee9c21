use lib::ast::{ExprLit, NodeId};
use lib::compiler::mir::infer::{cast_literal_to_inferred_type, parse_signed_literal, parse_unsigned_literal};
use lib::compiler::mir::ty::{UnifyContext, UnifyError};
use lib::error::{RHDLError, TypeCheck};
use lib::types::bit_string::TypedBits;
use lib::types::kind::Kind;

#[test]
fn unsigned_literals_in_each_radix() {
    assert_eq!(parse_unsigned_literal("42"), Some(42));
    assert_eq!(parse_unsigned_literal("+7"), Some(7));
    assert_eq!(parse_unsigned_literal("0b1011"), Some(11));
    assert_eq!(parse_unsigned_literal("0o17"), Some(15));
    assert_eq!(parse_unsigned_literal("0xfF"), Some(255));
    assert_eq!(parse_unsigned_literal("340282366920938463463374607431768211455"), Some(u128::MAX));
    assert_eq!(parse_unsigned_literal("340282366920938463463374607431768211456"), None);
    assert_eq!(parse_unsigned_literal(""), None);
    assert_eq!(parse_unsigned_literal("+"), None);
    assert_eq!(parse_unsigned_literal("-3"), None);
    assert_eq!(parse_unsigned_literal("0x"), None);
    assert_eq!(parse_unsigned_literal("0b102"), None);
    assert_eq!(parse_unsigned_literal("1_000"), None);
}

#[test]
fn signed_literals_in_each_radix() {
    assert_eq!(parse_signed_literal("-42"), Some(-42));
    assert_eq!(parse_signed_literal("0x-10"), Some(-16));
    assert_eq!(parse_signed_literal("-170141183460469231731687303715884105728"), Some(i128::MIN));
    assert_eq!(parse_signed_literal("170141183460469231731687303715884105727"), Some(i128::MAX));
    assert_eq!(parse_signed_literal("170141183460469231731687303715884105728"), None);
    assert_eq!(parse_signed_literal("-"), None);
    assert_eq!(parse_signed_literal("0o-7"), Some(-7));
}

#[test]
fn integer_literal_takes_the_inferred_width() {
    let mut ctx = UnifyContext::default();
    let id = NodeId::new(4);
    let ty = ctx.from_kind(id, &Kind::Bits(4));
    let v = cast_literal_to_inferred_type(&mut ctx, ExprLit::Int("0x1f".to_string()), ty).unwrap();
    assert!(matches!(v.kind, Kind::Bits(4)));
    assert_eq!(v.bits, vec![true, true, true, true]);
    let s = ctx.from_kind(id, &Kind::Signed(6));
    let w = cast_literal_to_inferred_type(&mut ctx, ExprLit::Int("-2".to_string()), s).unwrap();
    assert!(matches!(w.kind, Kind::Signed(6)));
    assert_eq!(w.bits, vec![false, true, true, true, true, true]);
}

#[test]
fn literal_errors() {
    let mut ctx = UnifyContext::default();
    let id = NodeId::new(5);
    let v = ctx.ty_var(id);
    assert!(matches!(
        cast_literal_to_inferred_type(&mut ctx, ExprLit::Bool(true), v),
        Err(RHDLError::TypeInference { cause: UnifyError::UnboundVariable })
    ));
    let ty = ctx.from_kind(id, &Kind::Bits(8));
    assert!(matches!(
        cast_literal_to_inferred_type(&mut ctx, ExprLit::Int("12z".to_string()), ty),
        Err(RHDLError::InvalidLiteral)
    ));
    let typed = ExprLit::TypedBits(TypedBits { bits: vec![true], kind: Kind::Bits(1) });
    match cast_literal_to_inferred_type(&mut ctx, typed, ty) {
        Err(RHDLError::TypeCheck { cause: TypeCheck::InferredLiteralTypeMismatch { typ, kind }, id: at }) => {
            assert!(matches!(typ, Kind::Bits(1)));
            assert!(matches!(kind, Kind::Bits(8)));
            assert_eq!(at, id);
        }
        _ => panic!("expected a mismatch"),
    }
    let b = ctx.ty_bool(id);
    let t = cast_literal_to_inferred_type(&mut ctx, ExprLit::Bool(false), b).unwrap();
    assert_eq!(t.bits, vec![false]);
}
