use lib::ast::NodeId;
use lib::compiler::mir::ty::{Const, SignFlag, TypeKind, UnifyContext, UnifyError};
use lib::types::kind::{Color, Field, Kind};

#[test]
fn test_case_1() {
    let mut ctx = UnifyContext::default();
    let id = NodeId::new(0);
    let x = ctx.ty_var(id);
    let y = ctx.ty_var(id);
    let z = ctx.ty_var(id);
    let t = ctx.ty_tuple(id, vec![x, y, z]);
    let a = ctx.ty_integer(id);
    let b = ctx.ty_usize(id);
    let c = ctx.from_kind(id, &Kind::Bits(128));
    let u = ctx.ty_tuple(id, vec![a, b, c]);
    assert!(ctx.unify(t, u).is_ok());
    let x = ctx.apply(x);
    let y = ctx.apply(y);
    let z = ctx.apply(z);
    assert_eq!(ctx.ty(x), ctx.ty(a));
    assert_eq!(ctx.ty(y), ctx.ty(b));
    assert_eq!(ctx.ty(z), ctx.ty(c));
}

#[test]
fn test_case_2() {
    let mut ctx = UnifyContext::default();
    let id = NodeId::new(0);
    let n = ctx.ty_const_len(id, 12);
    let x = ctx.ty_bits(id, n);
    let m = ctx.ty_var(id);
    let y = ctx.ty_bits(id, m);
    let z = ctx.ty_var(id);
    assert!(ctx.unify(x, y).is_ok());
    assert!(ctx.unify(x, z).is_ok());
    let m = ctx.into_kind(z).unwrap();
    println!("{:?}", m);
    assert!(matches!(m, Kind::Bits(12)));
}

#[test]
fn equal_types_are_stored_once() {
    let mut ctx = UnifyContext::default();
    let id = NodeId::new(1);
    let a = ctx.ty_bool(id);
    let before = ctx.modification_state().intern_size;
    let b = ctx.ty_bool(id);
    assert_eq!(a, b);
    assert_eq!(ctx.modification_state().intern_size, before);
    assert!(ctx.equal(a, b));
}

#[test]
fn a_variable_cannot_contain_itself() {
    let mut ctx = UnifyContext::default();
    let id = NodeId::new(0);
    let v = ctx.ty_var(id);
    let e = ctx.ty_empty(id);
    let t = ctx.ty_tuple(id, vec![v, e]);
    assert_eq!(ctx.unify(v, t), Err(UnifyError::RecursiveUnification));
    assert!(ctx.is_unresolved(v));
}

#[test]
fn different_shapes_do_not_unify() {
    let mut ctx = UnifyContext::default();
    let id = NodeId::new(0);
    let a = ctx.from_kind(id, &Kind::Bits(4));
    let b = ctx.from_kind(id, &Kind::Tuple(vec![Kind::Bits(4)]));
    assert_eq!(ctx.unify(a, b), Err(UnifyError::CannotUnify));
    let c = ctx.from_kind(id, &Kind::Bits(5));
    assert_eq!(ctx.unify(a, c), Err(UnifyError::CannotUnify));
    let s = ctx.from_kind(id, &Kind::Signed(4));
    assert_eq!(ctx.unify(a, s), Err(UnifyError::CannotUnify));
}

#[test]
fn unification_is_symmetric_in_effect() {
    let mut ctx = UnifyContext::default();
    let id = NodeId::new(0);
    let v = ctx.ty_var(id);
    let k = ctx.from_kind(id, &Kind::Signed(7));
    assert!(ctx.unify(k, v).is_ok());
    assert!(matches!(ctx.into_kind(v), Ok(Kind::Signed(7))));
    assert!(ctx.equal(v, k));
}

#[test]
fn kinds_round_trip() {
    let mut ctx = UnifyContext::default();
    let id = NodeId::new(3);
    let kind = Kind::Signal(
        Box::new(Kind::Tuple(vec![
            Kind::Array(Box::new(Kind::Bits(3)), 4),
            Kind::Struct("Pair".to_string(), vec![Field { name: "a".to_string(), kind: Kind::Signed(2) }]),
            Kind::Empty,
        ])),
        Color::Blue,
    );
    let t = ctx.from_kind(id, &kind);
    let back = ctx.into_kind(t).unwrap();
    assert!(lib::types::kind::kind_eq(&back, &kind));
}

#[test]
fn into_kind_errors() {
    let mut ctx = UnifyContext::default();
    let id = NodeId::new(0);
    let v = ctx.ty_var(id);
    assert_eq!(ctx.into_kind(v).unwrap_err(), UnifyError::UnboundVariable);
    let i = ctx.ty_integer(id);
    assert_eq!(ctx.into_kind(i).unwrap_err(), UnifyError::ExpectedSignFlag);
    let n = ctx.ty_var(id);
    let s = ctx.ty_signed(id, n);
    assert_eq!(ctx.into_kind(s).unwrap_err(), UnifyError::ExpectedLength);
    let l = ctx.ty_const_len(id, 3);
    assert_eq!(ctx.into_kind(l).unwrap_err(), UnifyError::ExpectedConstant);
    let c = ctx.ty_var(id);
    let d = ctx.ty_bool(id);
    let sig = ctx.ty_signal(id, d, c);
    assert_eq!(ctx.into_kind(sig).unwrap_err(), UnifyError::ExpectedClock);
}

#[test]
fn predicates_on_integer_types() {
    let mut ctx = UnifyContext::default();
    let id = NodeId::new(0);
    let i = ctx.ty_integer(id);
    assert!(ctx.is_generic_integer(i));
    assert!(ctx.is_unsized_integer(i));
    let flag = ctx.project_sign_flag(i).unwrap();
    assert!(ctx.is_unresolved(flag));
    let signed = ctx.ty_sign_flag(id, SignFlag::Signed);
    assert!(ctx.unify(flag, signed).is_ok());
    assert!(!ctx.is_generic_integer(i));
    assert!(ctx.is_unsized_integer(i));
    let len = ctx.ty_const_len(id, 9);
    let s9 = ctx.ty_signed(id, len);
    assert!(ctx.unify(i, s9).is_ok());
    assert!(!ctx.is_unsized_integer(i));
    assert!(matches!(ctx.into_kind(i), Ok(Kind::Signed(9))));
}

#[test]
fn signals_project_their_parts() {
    let mut ctx = UnifyContext::default();
    let id = NodeId::new(0);
    let data = ctx.ty_bool(id);
    let clock = ctx.ty_clock(id, Color::Red);
    let sig = ctx.ty_signal(id, data, clock);
    assert!(ctx.is_signal(sig));
    assert!(!ctx.is_signal(data));
    let c = ctx.project_signal_clock(sig).unwrap();
    assert_eq!(ctx.cast_ty_as_clock(c), Ok(Color::Red));
    let d = ctx.project_signal_value(sig).unwrap();
    assert!(matches!(ctx.into_kind(d), Ok(Kind::Bits(1))));
    assert!(ctx.project_signal_clock(data).is_none());
    assert!(ctx.project_sign_flag(sig).is_none());
}

#[test]
fn indexing_and_fields() {
    let mut ctx = UnifyContext::default();
    let id = NodeId::new(0);
    let kind = Kind::Struct("Point".to_string(), vec![
        Field { name: "x".to_string(), kind: Kind::Bits(2) },
        Field { name: "y".to_string(), kind: Kind::Array(Box::new(Kind::Signed(5)), 3) },
    ]);
    let s = ctx.from_kind(id, &kind);
    let y = ctx.ty_field(s, "y").unwrap();
    let elem = ctx.ty_index(y, 7).unwrap();
    assert!(matches!(ctx.into_kind(elem), Ok(Kind::Signed(5))));
    let x = ctx.ty_index(s, 0).unwrap();
    assert!(matches!(ctx.into_kind(x), Ok(Kind::Bits(2))));
    assert_eq!(ctx.ty_index(s, 2), Err(UnifyError::IndexOutOfBounds));
    assert_eq!(ctx.ty_field(s, "z"), Err(UnifyError::FieldNotFound));
    assert_eq!(ctx.ty_field(x, "x"), Err(UnifyError::NotAStruct));
    let b = ctx.ty_bool(id);
    assert_eq!(ctx.ty_index(b, 0), Err(UnifyError::NotIndexable));
    assert!(matches!(ctx.ty(b), TypeKind::App(_)));
    let l = ctx.ty_const_len(id, 1);
    assert_eq!(ctx.ty_index(l, 0), Err(UnifyError::NotAnApplication));
    assert!(matches!(ctx.ty(l), TypeKind::Const(Const::Length(1))));
}

#[test]
fn struct_types_unify_field_by_field() {
    let mut ctx = UnifyContext::default();
    let id = NodeId::new(0);
    let v = ctx.ty_var(id);
    let a = ctx.ty_dyn_struct(id, "P".to_string(), vec![("f".to_string(), v)]);
    let four = ctx.from_kind(id, &Kind::Bits(4));
    let b = ctx.ty_dyn_struct(id, "P".to_string(), vec![("f".to_string(), four)]);
    assert!(ctx.unify(a, b).is_ok());
    assert!(matches!(ctx.into_kind(v), Ok(Kind::Bits(4))));
    let c = ctx.ty_dyn_struct(id, "Q".to_string(), vec![("f".to_string(), four)]);
    assert_eq!(ctx.unify(a, c), Err(UnifyError::CannotUnify));
    let d = ctx.ty_dyn_struct(id, "P".to_string(), vec![("g".to_string(), four)]);
    assert_eq!(ctx.unify(a, d), Err(UnifyError::CannotUnify));
}

#[test]
fn unify_clashing_constants_fails() {
    let mut ctx = UnifyContext::default();
    let id = NodeId::new(0);
    let a = ctx.ty_const_len(id, 3);
    let b = ctx.ty_const_len(id, 4);
    assert!(matches!(ctx.unify(a, b), Err(UnifyError::CannotUnify)));
    let c = ctx.ty_clock(id, Color::Red);
    let t = ctx.ty_tuple(id, vec![a]);
    assert!(matches!(ctx.unify(c, t), Err(UnifyError::CannotUnify)));
}

#[test]
fn unify_equal_terms_succeeds() {
    let mut ctx = UnifyContext::default();
    let id = NodeId::new(0);
    let a = ctx.ty_const_len(id, 3);
    let b = ctx.ty_const_len(NodeId::new(5), 3);
    assert!(ctx.unify(a, b).is_ok());
    assert!(ctx.equal(a, b));
    let v = ctx.ty_var(id);
    assert!(ctx.unify(v, a).is_ok());
    assert!(ctx.equal(v, b));
}

#[test]
fn unify_refuses_a_variable_inside_its_own_term() {
    let mut ctx = UnifyContext::default();
    let id = NodeId::new(0);
    let v = ctx.ty_var(id);
    let t = ctx.ty_tuple(id, vec![v]);
    assert!(matches!(ctx.unify(v, t), Err(UnifyError::RecursiveUnification)));
    assert!(ctx.is_unresolved(v));
}

#[test]
fn a_struct_kind_unifies_with_the_struct_of_its_name() {
    let mut ctx = UnifyContext::default();
    let id = NodeId::new(0);
    let kind = Kind::Struct("Point".to_string(), vec![Field { name: "x".to_string(), kind: Kind::Bits(2) }]);
    let k = ctx.from_kind(id, &kind);
    let v = ctx.ty_var(id);
    let named = ctx.ty_dyn_struct(id, "Point".to_string(), vec![("x".to_string(), v)]);
    assert!(ctx.unify(k, named).is_ok());
    assert!(matches!(ctx.into_kind(v), Ok(Kind::Bits(2))));
    match ctx.into_kind(named).unwrap() {
        Kind::Struct(name, fields) => {
            assert_eq!(name, "Point");
            assert_eq!(fields.len(), 1);
        }
        _ => panic!("a struct kind"),
    }
    let w = ctx.ty_var(id);
    let other = ctx.ty_dyn_struct(id, "Other".to_string(), vec![("x".to_string(), w)]);
    assert!(ctx.unify(k, other).is_err());
}

#[test]
fn equal_compares_nodes_together_with_their_source_nodes() {
    let mut ctx = UnifyContext::default();
    let a = ctx.ty_bool(NodeId::new(0));
    let b = ctx.ty_bool(NodeId::new(1));
    assert!(ctx.unify(a, b).is_ok());
    assert!(!ctx.equal(a, b));
    let c = ctx.ty_bool(NodeId::new(0));
    assert!(ctx.equal(a, c));
}
