use vstd::prelude::*;

use crate::ast::{Member, NodeId};
use crate::compiler::mir::inference::{app_of, arg_of, is_comparison_op, MirTypeInference};
use crate::compiler::mir::mir_impl::{find_slot, lookup};
use crate::compiler::mir::ty::{
    domains_seq, field_node, index_node, joinable, lemma_index_node_kept, Const, Shape, Term, TypeId, TypeKind,
    UnifyContext,
};
use crate::error::{ClockError, RHDLError};
use crate::rhif::object::Object;
use crate::rhif::spec::{
    AluUnary, Array, Binary, Case, CaseArgument, Exec, Index, LiteralId, LocatedOpCode, OpCode, RegisterId, Repeat, Select, Slot, Splice, Struct,
    Tuple,
};
use crate::types::kind::{Color, Kind, KindView};
use crate::types::path::{Path, PathElement, PathElementView};

verus! {

/// Checks that the values an object combines belong to coherent clock
/// domains.
pub struct CheckClockCoherence {}

/// A new type variable, unless the context has used up its variable numbers.
fn fresh_var(st: &mut MirTypeInference, id: NodeId) -> (r: Result<TypeId, RHDLError>)
    requires
        old(st).inv(),
    ensures
        final(st).inv(),
        final(st).evolved_from(*old(st)),
        final(st).slot_map@ == old(st).slot_map@,
        final(st).type_ops@ == old(st).type_ops@,
        r matches Ok(t) ==> final(st).ctx.has(t) && final(st).tt(t) is Var,
        r matches Err(e) ==> e is IntegerOutOfRange,
        old(st).ctx.vars() < u32::MAX ==> r is Ok,
        final(st).ctx.vars() <= old(st).ctx.vars() + 1,
{
    if st.ctx.var_count() == u32::MAX {
        proof {
            MirTypeInference::lemma_evolved_refl(*st);
        }
        return Err(RHDLError::IntegerOutOfRange);
    }
    let ghost s0 = *st;
    let t = st.ctx.ty_var(id);
    proof {
        MirTypeInference::lemma_grew(s0, *st);
    }
    Ok(t)
}

/// The type of a slot: the recorded one, or the empty type for the empty
/// slot.
fn slot_type(st: &mut MirTypeInference, loc: NodeId, s: Slot) -> (r: TypeId)
    requires
        old(st).inv(),
        old(st).known(s),
    ensures
        final(st).inv(),
        final(st).evolved_from(*old(st)),
        final(st).slot_map@ == old(st).slot_map@,
        final(st).type_ops@ == old(st).type_ops@,
        final(st).ctx.has(r),
        final(st).known(s),
        final(st).tt(r) == final(st).tm(s),
        !(s is Empty) ==> *final(st) == *old(st),
        final(st).ctx.vars() == old(st).ctx.vars(),
{
    let ghost s0 = *st;
    if s.is_empty() {
        let r = st.ctx.ty_empty(loc);
        proof {
            MirTypeInference::lemma_grew(s0, *st);
        }
        r
    } else {
        let i = find_slot(&st.slot_map, s).unwrap();
        proof {
            MirTypeInference::lemma_evolved_refl(*st);
        }
        st.slot_map[i].1
    }
}

/// The clock domains found in a type as stored: the type itself for a
/// variable or a clock, those of its arguments for an application, none for
/// another constant.
fn collect_clock_domains(ctx: &UnifyContext, ty: TypeId) -> (r: Vec<TypeId>)
    requires
        ctx.wf(),
        ctx.has(ty),
    ensures
        r@ == ctx.clock_domains(ty),
        forall|i: int| 0 <= i < r@.len() ==> ctx.has(#[trigger] r@[i]),
    decreases ctx.ranks()[ty.kind as int],
{
    match ctx.ty(ty) {
        TypeKind::Var(_) => vec![ty],
        TypeKind::Const(Const::Clock(_)) => vec![ty],
        TypeKind::Const(_) => Vec::new(),
        TypeKind::App(_) => {
            let args = ctx.sub_types(ty);
            let ghost bound = ctx.ranks()[ty.kind as int];
            let ghost all = domains_seq(ctx.tys(), ctx.ranks(), args@, bound);
            let mut out: Vec<TypeId> = Vec::new();
            let mut i: usize = 0;
            proof {
                assert(args@.subrange(0, args@.len() as int) =~= args@);
                assert(out@ + domains_seq(ctx.tys(), ctx.ranks(), args@.subrange(0, args@.len() as int), bound) =~= all);
            }
            while i < args.len()
                invariant
                    i <= args@.len(),
                    ctx.wf(),
                    bound == ctx.ranks()[ty.kind as int],
                    all == domains_seq(ctx.tys(), ctx.ranks(), args@, bound),
                    forall|j: int|
                        0 <= j < args@.len() ==> ctx.has(#[trigger] args@[j]) && ctx.ranks()[args@[j].kind as int]
                            < ctx.ranks()[ty.kind as int],
                    forall|j: int| 0 <= j < out@.len() ==> ctx.has(#[trigger] out@[j]),
                    out@ + domains_seq(ctx.tys(), ctx.ranks(), args@.subrange(i as int, args@.len() as int), bound) == all,
                decreases args.len() - i,
            {
                let sub = collect_clock_domains(ctx, args[i]);
                let ghost out0 = out@;
                let mut k: usize = 0;
                while k < sub.len()
                    invariant
                        k <= sub@.len(),
                        out@ == out0 + sub@.take(k as int),
                        forall|j: int| 0 <= j < sub@.len() ==> ctx.has(#[trigger] sub@[j]),
                        forall|j: int| 0 <= j < out@.len() ==> ctx.has(#[trigger] out@[j]),
                    decreases sub.len() - k,
                {
                    out.push(sub[k]);
                    k += 1;
                    proof {
                        assert(out@ =~= out0 + sub@.take(k as int));
                    }
                }
                proof {
                    assert(sub@.take(sub@.len() as int) =~= sub@);
                    let rest = args@.subrange(i as int, args@.len() as int);
                    assert(rest.drop_first() =~= args@.subrange(i + 1, args@.len() as int));
                    assert(rest[0] == args@[i as int]);
                    assert(domains_seq(ctx.tys(), ctx.ranks(), rest, bound) == sub@ + domains_seq(
                        ctx.tys(),
                        ctx.ranks(),
                        rest.drop_first(),
                        bound,
                    ));
                    assert(out@ + domains_seq(ctx.tys(), ctx.ranks(), args@.subrange(i + 1, args@.len() as int), bound) =~= all);
                }
                i += 1;
            }
            proof {
                assert(args@.subrange(i as int, args@.len() as int) =~= Seq::<TypeId>::empty());
                assert(out@ =~= all);
            }
            out
        },
    }
}

/// The type of a value of `kind` all of whose parts belong to `domain`; a
/// signal puts its data in its own clock's domain.
fn import_kind_with_single_domain(ctx: &mut UnifyContext, id: NodeId, kind: &Kind, domain: TypeId) -> (r: TypeId)
    requires
        old(ctx).wf(),
        old(ctx).has(domain),
    ensures
        final(ctx).wf(),
        final(ctx).grows_from(*old(ctx)),
        final(ctx).subst() == old(ctx).subst(),
        final(ctx).vars() == old(ctx).vars(),
        final(ctx).has(r),
        !(old(ctx).term(domain) is Var) ==> !(final(ctx).term(r) is Var),
        kind@ is Bits || kind@ is Signed || kind@ is Empty ==> r == domain && *final(ctx) == *old(ctx),
    decreases kind,
{
    let ghost s0 = *ctx;
    match kind {
        Kind::Array(base, size) => {
            let b = import_kind_with_single_domain(ctx, id, base, domain);
            let ghost s1 = *ctx;
            let len = ctx.ty_const_len(id, *size);
            proof {
                ctx.lemma_grows_keeps_terms(s1, b);
            }
            let ghost s2 = *ctx;
            let r = ctx.ty_array(id, b, len);
            proof {
                UnifyContext::lemma_grows_trans(s0, s1, s2);
                UnifyContext::lemma_grows_trans(s0, s2, *ctx);
            }
            r
        },
        Kind::Tuple(elements) => {
            let mut out: Vec<TypeId> = Vec::new();
            let mut i: usize = 0;
            proof {
                UnifyContext::lemma_grows_refl(s0);
            }
            while i < elements.len()
                invariant
                    i <= elements@.len(),
                    *kind == Kind::Tuple(*elements),
                    ctx.wf(),
                    ctx.grows_from(s0),
                    ctx.subst() == s0.subst(),
                    ctx.vars() == s0.vars(),
                    ctx.has(domain),
                    forall|j: int| 0 <= j < out@.len() ==> ctx.has(#[trigger] out@[j]),
                decreases elements.len() - i,
            {
                proof {
                    assert(decreases_to!(elements => elements[i as int]));
                    assert(decreases_to!(*kind => kind->Tuple_0));
                    assert(decreases_to!(*kind => elements[i as int]));
                }
                let ghost before = *ctx;
                let t = import_kind_with_single_domain(ctx, id, &elements[i], domain);
                proof {
                    assert forall|j: int| 0 <= j < out@.len() implies ctx.has(#[trigger] out@[j]) by {
                        ctx.lemma_grows_keeps_terms(before, out@[j]);
                    }
                    ctx.lemma_grows_keeps_terms(before, domain);
                    UnifyContext::lemma_grows_trans(s0, before, *ctx);
                }
                out.push(t);
                i += 1;
            }
            let ghost s1 = *ctx;
            let r = ctx.ty_tuple(id, out);
            proof {
                UnifyContext::lemma_grows_trans(s0, s1, *ctx);
            }
            r
        },
        Kind::Struct(name, fields) => {
            let mut out: Vec<(String, TypeId)> = Vec::new();
            let mut i: usize = 0;
            proof {
                UnifyContext::lemma_grows_refl(s0);
            }
            while i < fields.len()
                invariant
                    i <= fields@.len(),
                    *kind == Kind::Struct(*name, *fields),
                    ctx.wf(),
                    ctx.grows_from(s0),
                    ctx.subst() == s0.subst(),
                    ctx.vars() == s0.vars(),
                    ctx.has(domain),
                    forall|j: int| 0 <= j < out@.len() ==> ctx.has(#[trigger] out@[j].1),
                decreases fields.len() - i,
            {
                proof {
                    assert(decreases_to!(fields => fields[i as int]));
                    assert(decreases_to!(fields[i as int] => fields[i as int].kind));
                    assert(decreases_to!(*kind => kind->Struct_1));
                    assert(decreases_to!(*kind => fields[i as int].kind));
                }
                let ghost before = *ctx;
                let t = import_kind_with_single_domain(ctx, id, &fields[i].kind, domain);
                proof {
                    assert forall|j: int| 0 <= j < out@.len() implies ctx.has(#[trigger] out@[j].1) by {
                        ctx.lemma_grows_keeps_terms(before, out@[j].1);
                    }
                    ctx.lemma_grows_keeps_terms(before, domain);
                    UnifyContext::lemma_grows_trans(s0, before, *ctx);
                }
                out.push((fields[i].name.clone(), t));
                i += 1;
            }
            let ghost s1 = *ctx;
            let r = ctx.ty_dyn_struct(id, name.clone(), out);
            proof {
                UnifyContext::lemma_grows_trans(s0, s1, *ctx);
            }
            r
        },
        Kind::Bits(_) | Kind::Signed(_) | Kind::Empty => {
            proof {
                UnifyContext::lemma_grows_refl(s0);
            }
            domain
        },
        Kind::Signal(base, color) => {
            let clock = ctx.ty_clock(id, *color);
            let ghost s1 = *ctx;
            let r = import_kind_with_single_domain(ctx, id, base, clock);
            proof {
                UnifyContext::lemma_grows_trans(s0, s1, *ctx);
            }
            r
        },
    }
}

/// The type of a value of `kind` whose parts belong to domains still to be
/// found: each element of a tuple and each field of a struct gets its own,
/// a signal its clock's, and any other value one new domain for all its
/// parts.
fn import_kind_with_unknown_domains(ctx: &mut UnifyContext, id: NodeId, kind: &Kind) -> (r: Result<TypeId, RHDLError>)
    requires
        old(ctx).wf(),
    ensures
        final(ctx).wf(),
        final(ctx).grows_from(*old(ctx)),
        r matches Ok(t) ==> final(ctx).has(t),
        r matches Err(e) ==> e is IntegerOutOfRange,
        kind@ is Signal ==> (r matches Ok(t) && !(final(ctx).term(t) is Var)) && final(ctx).vars() == old(ctx).vars(),
        scalar_signal(kind@) ==> (r matches Ok(t) && final(ctx).term(t) == signal_clock(kind@)),
    decreases kind,
{
    let ghost s0 = *ctx;
    match kind {
        Kind::Tuple(elements) => {
            let mut out: Vec<TypeId> = Vec::new();
            let mut i: usize = 0;
            proof {
                UnifyContext::lemma_grows_refl(s0);
            }
            while i < elements.len()
                invariant
                    i <= elements@.len(),
                    *kind == Kind::Tuple(*elements),
                    s0 == *old(ctx),
                    ctx.wf(),
                    ctx.grows_from(s0),
                    forall|j: int| 0 <= j < out@.len() ==> ctx.has(#[trigger] out@[j]),
                decreases elements.len() - i,
            {
                proof {
                    assert(decreases_to!(elements => elements[i as int]));
                    assert(decreases_to!(*kind => kind->Tuple_0));
                    assert(decreases_to!(*kind => elements[i as int]));
                }
                let ghost before = *ctx;
                let res = import_kind_with_unknown_domains(ctx, id, &elements[i]);
                proof {
                    UnifyContext::lemma_grows_trans(s0, before, *ctx);
                }
                let t = res?;
                proof {
                    assert forall|j: int| 0 <= j < out@.len() implies ctx.has(#[trigger] out@[j]) by {
                        ctx.lemma_grows_keeps_terms(before, out@[j]);
                    }
                }
                out.push(t);
                i += 1;
            }
            let ghost s1 = *ctx;
            let r = ctx.ty_tuple(id, out);
            proof {
                UnifyContext::lemma_grows_trans(s0, s1, *ctx);
            }
            Ok(r)
        },
        Kind::Struct(name, fields) => {
            let mut out: Vec<(String, TypeId)> = Vec::new();
            let mut i: usize = 0;
            proof {
                UnifyContext::lemma_grows_refl(s0);
            }
            while i < fields.len()
                invariant
                    i <= fields@.len(),
                    *kind == Kind::Struct(*name, *fields),
                    s0 == *old(ctx),
                    ctx.wf(),
                    ctx.grows_from(s0),
                    forall|j: int| 0 <= j < out@.len() ==> ctx.has(#[trigger] out@[j].1),
                decreases fields.len() - i,
            {
                proof {
                    assert(decreases_to!(fields => fields[i as int]));
                    assert(decreases_to!(fields[i as int] => fields[i as int].kind));
                    assert(decreases_to!(*kind => kind->Struct_1));
                    assert(decreases_to!(*kind => fields[i as int].kind));
                }
                let ghost before = *ctx;
                let res = import_kind_with_unknown_domains(ctx, id, &fields[i].kind);
                proof {
                    UnifyContext::lemma_grows_trans(s0, before, *ctx);
                }
                let t = res?;
                proof {
                    assert forall|j: int| 0 <= j < out@.len() implies ctx.has(#[trigger] out@[j].1) by {
                        ctx.lemma_grows_keeps_terms(before, out@[j].1);
                    }
                }
                out.push((fields[i].name.clone(), t));
                i += 1;
            }
            let ghost s1 = *ctx;
            let r = ctx.ty_dyn_struct(id, name.clone(), out);
            proof {
                UnifyContext::lemma_grows_trans(s0, s1, *ctx);
            }
            Ok(r)
        },
        Kind::Signal(base, color) => {
            let domain = ctx.ty_clock(id, *color);
            let ghost s1 = *ctx;
            let r = import_kind_with_single_domain(ctx, id, base, domain);
            proof {
                UnifyContext::lemma_grows_trans(s0, s1, *ctx);
            }
            Ok(r)
        },
        _ => {
            if ctx.var_count() == u32::MAX {
                proof {
                    UnifyContext::lemma_grows_refl(s0);
                }
                return Err(RHDLError::IntegerOutOfRange);
            }
            let domain = ctx.ty_var(id);
            let ghost s1 = *ctx;
            let r = import_kind_with_single_domain(ctx, id, kind, domain);
            proof {
                UnifyContext::lemma_grows_trans(s0, s1, *ctx);
            }
            Ok(r)
        },
    }
}

/// Every present literal and register of the object has a type.
pub open spec fn tables_known(obj: &Object, st: MirTypeInference) -> bool {
    forall|s: Slot| obj.slot_kind(s) is Some ==> #[trigger] st.known(s)
}

/// Every present literal and register is a signal.
pub open spec fn all_signals(obj: &Object) -> bool {
    forall|s: Slot| present(obj, s) && !(s is Empty) ==> (#[trigger] obj.slot_kind(s))->Some_0 is Signal
}

/// Gives slot `s` a type for a value of `kind` with unknown domains. An
/// object keeps no source node for its slots, so the type carries node 0.
fn import_slot(st: &mut MirTypeInference, s: Slot, kind: &Kind) -> (r: Result<(), RHDLError>)
    requires
        old(st).inv(),
        !(s is Empty),
    ensures
        final(st).inv(),
        final(st).type_ops@ == old(st).type_ops@,
        r is Ok ==> final(st).known(s),
        forall|x: Slot| x != s && #[trigger] old(st).known(x) ==> final(st).known(x) && final(st).tm(x) == old(st).tm(x),
        kind@ is Signal ==> r is Ok && !(final(st).tm(s) is Var) && final(st).ctx.vars() == old(st).ctx.vars(),
        scalar_signal(kind@) ==> final(st).tm(s) == signal_clock(kind@),
        r matches Err(e) ==> e is IntegerOutOfRange,
{
    let ghost s0 = *st;
    let res = import_kind_with_unknown_domains(&mut st.ctx, NodeId(0), kind);
    proof {
        MirTypeInference::lemma_grew(s0, *st);
        lemma_grown_terms(s0, *st);
    }
    let t = res?;
    let ghost s1 = *st;
    st.set_slot(s, t);
    proof {
        assert forall|x: Slot| x != s && #[trigger] s0.known(x) implies st.known(x) && st.tm(x) == s0.tm(x) by {
            assert(s1.known(x));
            assert(lookup(st.slot_map@, x) == lookup(s1.slot_map@, x));
        }
        assert(lookup(st.slot_map@, s) == Some(t));
    }
    Ok(())
}

/// A signal of bits, of signed bits or of nothing, on one clock.
pub open spec fn scalar_signal(k: KindView) -> bool {
    k matches KindView::Signal(b, _) && (*b is Bits || *b is Signed || *b is Empty)
}

/// The clock-check type of a scalar signal: its clock.
pub open spec fn signal_clock(k: KindView) -> Term {
    Term::Const(Const::Clock(k->Signal_1))
}

/// Every present literal and register is a scalar signal.
pub open spec fn all_scalar_signals(obj: &Object) -> bool {
    forall|s: Slot| present(obj, s) && !(s is Empty) ==> scalar_signal((#[trigger] obj.slot_kind(s))->Some_0)
}

/// Slot `s` has a type: when every value of the object is a signal, not a
/// bare variable; when every value is a scalar signal, its clock.
pub open spec fn imported(obj: &Object, st: MirTypeInference, s: Slot) -> bool {
    &&& st.known(s)
    &&& all_signals(obj) ==> !(st.tm(s) is Var)
    &&& all_scalar_signals(obj) ==> st.tm(s) == signal_clock(obj.slot_kind(s)->Some_0)
}

/// Gives every present literal and register a type with unknown domains.
fn import_tables(st: &mut MirTypeInference, obj: &Object) -> (r: Result<(), RHDLError>)
    requires
        old(st).inv(),
    ensures
        final(st).inv(),
        r is Ok ==> tables_known(obj, *final(st)),
        all_signals(obj) ==> r is Ok && forall|s: Slot| present(obj, s) && !(s is Empty) ==> !(#[trigger] final(st).tm(s) is Var),
        all_scalar_signals(obj) ==> final(st).ctx.vars() == old(st).ctx.vars() && forall|s: Slot|
            present(obj, s) && !(s is Empty) ==> #[trigger] final(st).tm(s) == signal_clock(obj.slot_kind(s)->Some_0),
        r matches Err(e) ==> e is IntegerOutOfRange,
{
    let ghost s_in = *st;
    let mut i: usize = 0;
    while i < obj.literals.len()
        invariant
            i <= obj.literals@.len(),
            st.inv(),
            all_scalar_signals(obj) ==> st.ctx.vars() == s_in.ctx.vars(),
            forall|j: int| 0 <= j < i && obj.literals@[j] is Some ==> #[trigger] imported(obj, *st, Slot::Literal(LiteralId(j as usize))),
        decreases obj.literals.len() - i,
    {
        if let Some(tb) = &obj.literals[i] {
            let ghost s0 = *st;
            let ghost cur = Slot::Literal(LiteralId(i));
            proof {
                assert(present(obj, cur));
                assert(obj.slot_kind(cur) == Some(tb.kind@));
            }
            import_slot(st, Slot::Literal(LiteralId(i)), &tb.kind)?;
            proof {
                assert forall|j: int| 0 <= j < i + 1 && obj.literals@[j] is Some implies #[trigger] imported(
                    obj,
                    *st,
                    Slot::Literal(LiteralId(j as usize)),
                ) by {
                    if j < i {
                        assert(imported(obj, s0, Slot::Literal(LiteralId(j as usize))));
                    }
                }
            }
        }
        i += 1;
    }
    let mut k: usize = 0;
    while k < obj.kind.len()
        invariant
            k <= obj.kind@.len(),
            st.inv(),
            all_scalar_signals(obj) ==> st.ctx.vars() == s_in.ctx.vars(),
            forall|j: int|
                0 <= j < obj.literals@.len() && obj.literals@[j] is Some ==> #[trigger] imported(obj, *st, Slot::Literal(LiteralId(j as usize))),
            forall|j: int| 0 <= j < k && obj.kind@[j] is Some ==> #[trigger] imported(obj, *st, Slot::Register(RegisterId(j as usize))),
        decreases obj.kind.len() - k,
    {
        if let Some(kind) = &obj.kind[k] {
            let ghost s0 = *st;
            let ghost cur = Slot::Register(RegisterId(k));
            proof {
                assert(present(obj, cur));
                assert(obj.slot_kind(cur) == Some(kind@));
            }
            import_slot(st, Slot::Register(RegisterId(k)), kind)?;
            proof {
                assert forall|j: int| 0 <= j < k + 1 && obj.kind@[j] is Some implies #[trigger] imported(
                    obj,
                    *st,
                    Slot::Register(RegisterId(j as usize)),
                ) by {
                    if j < k {
                        assert(imported(obj, s0, Slot::Register(RegisterId(j as usize))));
                    }
                }
                assert forall|j: int| 0 <= j < obj.literals@.len() && obj.literals@[j] is Some implies #[trigger] imported(
                    obj,
                    *st,
                    Slot::Literal(LiteralId(j as usize)),
                ) by {
                    assert(imported(obj, s0, Slot::Literal(LiteralId(j as usize))));
                }
            }
        }
        k += 1;
    }
    proof {
        assert forall|s: Slot| present(obj, s) && !(s is Empty) implies #[trigger] imported(obj, *st, s) by {
            match s {
                Slot::Literal(l) => {
                    assert(imported(obj, *st, Slot::Literal(LiteralId(l.0 as int as usize))));
                },
                Slot::Register(r) => {
                    assert(imported(obj, *st, Slot::Register(RegisterId(r.0 as int as usize))));
                },
                Slot::Empty => {},
            }
        }
        assert forall|s: Slot| obj.slot_kind(s) is Some implies #[trigger] st.known(s) by {
            if !(s is Empty) {
                assert(imported(obj, *st, s));
            }
        }
        if all_signals(obj) {
            assert forall|s: Slot| present(obj, s) && !(s is Empty) implies !(#[trigger] st.tm(s) is Var) by {
                assert(imported(obj, *st, s));
            }
        }
        if all_scalar_signals(obj) {
            assert forall|s: Slot| present(obj, s) && !(s is Empty) implies #[trigger] st.tm(s) == signal_clock(
                obj.slot_kind(s)->Some_0,
            ) by {
                assert(imported(obj, *st, s));
            }
        }
    }
    Ok(())
}

/// Two slots belong to one clock domain: one of them is the empty slot, or
/// their types are equal.
pub open spec fn same_domain(st: MirTypeInference, a: Slot, b: Slot) -> bool {
    a is Empty || b is Empty || st.tm(a) == st.tm(b)
}

/// The listed slots have types and belong to one clock domain.
pub open spec fn one_domain(st: MirTypeInference, slots: Seq<Slot>) -> bool {
    &&& forall|i: int| 0 <= i < slots.len() ==> st.known(#[trigger] slots[i])
    &&& forall|i: int, j: int|
        0 <= i < slots.len() && 0 <= j < slots.len() ==> same_domain(st, #[trigger] slots[i], #[trigger] slots[j])
}

/// Slots that belonged to one domain still do as the context evolves.
proof fn keep_one_domain(old: MirTypeInference, new: MirTypeInference, slots: Seq<Slot>)
    requires
        old.inv(),
        new.evolved_from(old),
        one_domain(old, slots),
    ensures
        one_domain(new, slots),
{
    assert forall|i: int| 0 <= i < slots.len() implies new.known(#[trigger] slots[i]) by {
        MirTypeInference::keep_known(old, new, slots[i]);
    }
    assert forall|i: int, j: int| 0 <= i < slots.len() && 0 <= j < slots.len() implies same_domain(
        new,
        #[trigger] slots[i],
        #[trigger] slots[j],
    ) by {
        assert(same_domain(old, slots[i], slots[j]));
        if !(slots[i] is Empty) && !(slots[j] is Empty) {
            MirTypeInference::keep_ss(old, new, slots[i], slots[j]);
        }
    }
}

/// Makes two types equal if they can be; tells whether they were.
fn unify_types(st: &mut MirTypeInference, a: TypeId, b: TypeId) -> (r: bool)
    requires
        old(st).inv(),
        old(st).ctx.has(a),
        old(st).ctx.has(b),
    ensures
        final(st).inv(),
        final(st).evolved_from(*old(st)),
        final(st).slot_map@ == old(st).slot_map@,
        final(st).type_ops@ == old(st).type_ops@,
        r ==> final(st).tt(a) == final(st).tt(b),
        joinable(old(st).tt(a), old(st).tt(b)) ==> r,
        final(st).ctx.vars() == old(st).ctx.vars(),
{
    let ghost s0 = *st;
    let res = st.ctx.unify(a, b);
    proof {
        MirTypeInference::lemma_refined(s0, *st);
    }
    res.is_ok()
}

/// The error for values of an opcode that are not in one clock domain.
fn clock_error(cause: ClockError, slots: Vec<Slot>, id: NodeId) -> (r: RHDLError)
    ensures
        r == (RHDLError::ClockCoherence { cause, slots, id }),
{
    RHDLError::ClockCoherence { cause, slots, id }
}

/// An error of the clock check: a clock conflict, a part the path does not
/// have, or a context out of variable numbers.
pub open spec fn clock_check_error(e: RHDLError) -> bool {
    e is ClockCoherence || e is TypeInference || e is IntegerOutOfRange
}

/// The three slots but the empty one have the type of a value on clock `c`
/// alone.
pub open spec fn triple_on_clock(st: MirTypeInference, a: Slot, b: Slot, d: Slot, c: Color) -> bool {
    on_clock(st, seq![a, b, d], c)
}

/// The condition, result and both values of a select, but the empty slot,
/// have the type of a value on clock `c` alone.
pub open spec fn select_on_clock(st: MirTypeInference, x: Select, c: Color) -> bool {
    on_clock(st, seq![x.cond, x.lhs, x.true_value, x.false_value], c)
}

/// Neither slot is empty and both have the type of a value on one clock alone.
pub open spec fn same_clock_pair(st: MirTypeInference, a: Slot, b: Slot) -> bool {
    !(a is Empty) && !(b is Empty) && exists|c: Color| #[trigger] pair_on_clock(st, a, b, c)
}

/// The clock domains of a node that stands for a clock are the node itself.
proof fn lemma_clock_node_domains(ctx: UnifyContext, t: TypeId)
    requires
        ctx.wf(),
        ctx.has(t),
        ctx.term(t) is Const,
        ctx.term(t)->Const_0 is Clock,
    ensures
        ctx.clock_domains(t) == seq![t],
{
    ctx.lemma_term_unfold(t);
}

/// Both slots but the empty one have the type of a value on clock `c` alone.
pub open spec fn pair_on_clock(st: MirTypeInference, a: Slot, b: Slot, c: Color) -> bool {
    on_clock(st, seq![a, b], c)
}

/// Every listed slot but the empty one has the type of a value on clock `c`
/// alone.
pub open spec fn on_clock(st: MirTypeInference, slots: Seq<Slot>, c: Color) -> bool {
    forall|j: int| 0 <= j < slots.len() && !(slots[j] is Empty) ==> #[trigger] st.tm(slots[j]) == Term::Const(Const::Clock(c))
}

/// Puts the listed slots (the empty slot aside) in one clock domain.
fn unify_clocks(st: &mut MirTypeInference, slots: Vec<Slot>, loc: NodeId, cause: ClockError) -> (r: Result<(), RHDLError>)
    requires
        old(st).inv(),
        forall|i: int| 0 <= i < slots@.len() ==> old(st).known(#[trigger] slots@[i]),
    ensures
        final(st).inv(),
        final(st).evolved_from(*old(st)),
        final(st).slot_map@ == old(st).slot_map@,
        final(st).type_ops@ == old(st).type_ops@,
        r is Ok ==> one_domain(*final(st), slots@),
        r matches Err(e) ==> clock_check_error(e),
        final(st).ctx.vars() <= old(st).ctx.vars() + 1,
        forall|c: Color| #[trigger] on_clock(*old(st), slots@, c) && old(st).ctx.vars() < u32::MAX ==> r is Ok,
{
    let ghost s0 = *st;
    let ty_clock = fresh_var(st, loc)?;
    let ghost sf = *st;
    proof {
        assert forall|c: Color| #[trigger] on_clock(s0, slots@, c) implies on_clock(sf, slots@, c) by {
            assert forall|j: int| 0 <= j < slots@.len() && !(slots@[j] is Empty) implies #[trigger] sf.tm(slots@[j]) == Term::Const(
                Const::Clock(c),
            ) by {
                assert(s0.tm(slots@[j]) == Term::Const(Const::Clock(c)));
                assert(s0.known(slots@[j]));
                assert(crate::compiler::mir::ty::ground(Term::Const(Const::Clock(c))));
                MirTypeInference::keep_ground_slot(s0, sf, slots@[j]);
            }
        }
    }
    let mut i: usize = 0;
    while i < slots.len()
        invariant
            i <= slots@.len(),
            s0 == *old(st),
            st.ctx.vars() == sf.ctx.vars(),
            sf.ctx.vars() <= s0.ctx.vars() + 1,
            forall|c: Color|
                #[trigger] on_clock(s0, slots@, c) ==> on_clock(*st, slots@, c) && (st.tt(ty_clock) is Var || st.tt(ty_clock)
                    == Term::Const(Const::Clock(c))),
            st.inv(),
            st.evolved_from(s0),
            st.slot_map@ == s0.slot_map@,
            st.type_ops@ == s0.type_ops@,
            st.ctx.has(ty_clock),
            forall|j: int| 0 <= j < slots@.len() ==> st.known(#[trigger] slots@[j]),
            forall|j: int| 0 <= j < i && !(slots@[j] is Empty) ==> st.tm(#[trigger] slots@[j]) == st.tt(ty_clock),
        decreases slots.len() - i,
    {
        proof {
            assert(s0.known(slots@[i as int]));
        }
        if !slots[i].is_empty() {
            let ghost sa = *st;
            let t = slot_type(st, loc, slots[i]);
            let ghost sp = *st;
            proof {
                MirTypeInference::lemma_evolved_trans(s0, sa, sp);
                MirTypeInference::keep_node(sa, sp, ty_clock);
                assert forall|j: int| 0 <= j < i && !(slots@[j] is Empty) implies sp.tm(#[trigger] slots@[j]) == sp.tt(ty_clock) by {
                    MirTypeInference::keep_ts(sa, sp, ty_clock, slots@[j]);
                }
            }
            proof {
                assert forall|c: Color| #[trigger] on_clock(s0, slots@, c) implies joinable(sp.tt(t), sp.tt(ty_clock)) by {
                    assert(on_clock(sp, slots@, c));
                    assert(sp.tm(slots@[i as int]) == Term::Const(Const::Clock(c)));
                    if let Term::Var(v) = sp.tt(ty_clock) {
                        assert(!crate::compiler::mir::ty::term_has_var(sp.tt(t), v));
                    }
                }
            }
            let ok = unify_types(st, t, ty_clock);
            proof {
                MirTypeInference::lemma_evolved_trans(s0, sp, *st);
                MirTypeInference::keep_node(sp, *st, ty_clock);
                assert forall|c: Color| #[trigger] on_clock(s0, slots@, c) implies on_clock(*st, slots@, c) && (st.tt(ty_clock) is Var
                    || st.tt(ty_clock) == Term::Const(Const::Clock(c))) by {
                    assert(on_clock(sp, slots@, c));
                    assert forall|j: int| 0 <= j < slots@.len() && !(slots@[j] is Empty) implies #[trigger] st.tm(slots@[j]) == Term::Const(
                        Const::Clock(c),
                    ) by {
                        assert(sp.tm(slots@[j]) == Term::Const(Const::Clock(c)));
                        assert(crate::compiler::mir::ty::ground(Term::Const(Const::Clock(c))));
                        MirTypeInference::keep_ground_slot(sp, *st, slots@[j]);
                    }
                    if ok {
                        MirTypeInference::keep_ts(sp, *st, t, slots@[i as int]);
                    }
                }
            }
            if !ok {
                return Err(clock_error(cause, slots.clone(), loc));
            }
            proof {
                MirTypeInference::keep_ts(sp, *st, t, slots@[i as int]);
                assert forall|j: int| 0 <= j < i + 1 && !(slots@[j] is Empty) implies st.tm(#[trigger] slots@[j]) == st.tt(ty_clock) by {
                    if j < i {
                        MirTypeInference::keep_ts(sp, *st, ty_clock, slots@[j]);
                    }
                }
            }
        }
        i += 1;
    }
    Ok(())
}

/// Puts every clock domain found in the type of `rhs` in every domain
/// found in the type of `lhs`.
fn unify_projected_clocks(st: &mut MirTypeInference, lhs: Slot, rhs: Slot, loc: NodeId, cause: ClockError) -> (r: Result<(), RHDLError>)
    requires
        old(st).inv(),
        old(st).known(lhs),
        old(st).known(rhs),
    ensures
        final(st).inv(),
        final(st).evolved_from(*old(st)),
        final(st).slot_map@ == old(st).slot_map@,
        final(st).type_ops@ == old(st).type_ops@,
        r matches Err(e) ==> clock_check_error(e),
        same_clock_pair(*old(st), lhs, rhs) ==> r is Ok,
        final(st).ctx.vars() == old(st).ctx.vars(),
{
    let ghost s0 = *st;
    let ghost okp = same_clock_pair(s0, lhs, rhs);
    let ghost c0 = choose|c: Color| #[trigger] pair_on_clock(s0, lhs, rhs, c);
    let lt = slot_type(st, loc, lhs);
    let lhs_domains = collect_clock_domains(&st.ctx, lt);
    proof {
        if okp {
            assert(on_clock(s0, seq![lhs, rhs], c0));
            assert(seq![lhs, rhs][0] == lhs);
            assert(s0.tm(lhs) == Term::Const(Const::Clock(c0)));
            lemma_clock_node_domains(st.ctx, lt);
        }
    }
    let mut i: usize = 0;
    while i < lhs_domains.len()
        invariant
            i <= lhs_domains@.len(),
            s0 == *old(st),
            st.inv(),
            st.evolved_from(s0),
            st.slot_map@ == s0.slot_map@,
            st.type_ops@ == s0.type_ops@,
            st.known(rhs),
            st.ctx.vars() == s0.ctx.vars(),
            okp == same_clock_pair(s0, lhs, rhs),
            forall|j: int| 0 <= j < lhs_domains@.len() ==> st.ctx.has(#[trigger] lhs_domains@[j]),
            okp ==> lhs_domains@ == seq![lt] && (i == 0 ==> *st == s0) && s0.tt(lt) == Term::Const(Const::Clock(c0))
                && s0.tm(rhs) == Term::Const(Const::Clock(c0)) && !(rhs is Empty),
        decreases lhs_domains.len() - i,
    {
        let ghost sa = *st;
        let rt = slot_type(st, loc, rhs);
        let rhs_domains = collect_clock_domains(&st.ctx, rt);
        proof {
            if okp {
                lemma_clock_node_domains(st.ctx, rt);
            }
            MirTypeInference::lemma_evolved_trans(s0, sa, *st);
            assert forall|j: int| 0 <= j < lhs_domains@.len() implies st.ctx.has(#[trigger] lhs_domains@[j]) by {
                MirTypeInference::keep_node(sa, *st, lhs_domains@[j]);
            }
        }
        let mut k: usize = 0;
        while k < rhs_domains.len()
            invariant
                k <= rhs_domains@.len(),
                s0 == *old(st),
                st.inv(),
                st.evolved_from(s0),
                st.slot_map@ == s0.slot_map@,
                st.type_ops@ == s0.type_ops@,
                st.known(rhs),
                i < lhs_domains@.len(),
                forall|j: int| 0 <= j < lhs_domains@.len() ==> st.ctx.has(#[trigger] lhs_domains@[j]),
                forall|j: int| 0 <= j < rhs_domains@.len() ==> st.ctx.has(#[trigger] rhs_domains@[j]),
                st.ctx.vars() == s0.ctx.vars(),
                okp == same_clock_pair(s0, lhs, rhs),
                okp ==> lhs_domains@ == seq![lt] && rhs_domains@ == seq![rt] && i == 0 && (k == 0 ==> *st == s0)
                    && s0.tt(lt) == Term::Const(Const::Clock(c0)) && s0.tt(rt) == Term::Const(Const::Clock(c0)),
            decreases rhs_domains.len() - k,
        {
            let ghost sb = *st;
            proof {
                if okp {
                    assert(k == 0);
                    assert(lhs_domains@[i as int] == lt);
                    assert(rhs_domains@[k as int] == rt);
                    assert(joinable(sb.tt(lt), sb.tt(rt)));
                }
            }
            let ok = unify_types(st, lhs_domains[i], rhs_domains[k]);
            proof {
                MirTypeInference::lemma_evolved_trans(s0, sb, *st);
                assert forall|j: int| 0 <= j < lhs_domains@.len() implies st.ctx.has(#[trigger] lhs_domains@[j]) by {
                    MirTypeInference::keep_node(sb, *st, lhs_domains@[j]);
                }
                assert forall|j: int| 0 <= j < rhs_domains@.len() implies st.ctx.has(#[trigger] rhs_domains@[j]) by {
                    MirTypeInference::keep_node(sb, *st, rhs_domains@[j]);
                }
            }
            if !ok {
                return Err(clock_error(cause, vec![lhs, rhs], loc));
            }
            k += 1;
        }
        i += 1;
    }
    Ok(())
}

/// Puts each type of `xs` in one domain with each type of `ys`; tells
/// whether all could be.
fn unify_all_pairs(st: &mut MirTypeInference, xs: &Vec<TypeId>, ys: &Vec<TypeId>) -> (r: bool)
    requires
        old(st).inv(),
        forall|j: int| 0 <= j < xs@.len() ==> old(st).ctx.has(#[trigger] xs@[j]),
        forall|j: int| 0 <= j < ys@.len() ==> old(st).ctx.has(#[trigger] ys@[j]),
    ensures
        final(st).inv(),
        final(st).evolved_from(*old(st)),
        final(st).slot_map@ == old(st).slot_map@,
        final(st).type_ops@ == old(st).type_ops@,
{
    let ghost s0 = *st;
    proof {
        MirTypeInference::lemma_evolved_refl(s0);
    }
    let mut i: usize = 0;
    while i < xs.len()
        invariant
            i <= xs@.len(),
            s0 == *old(st),
            st.inv(),
            st.evolved_from(s0),
            st.slot_map@ == s0.slot_map@,
            st.type_ops@ == s0.type_ops@,
            forall|j: int| 0 <= j < xs@.len() ==> st.ctx.has(#[trigger] xs@[j]),
            forall|j: int| 0 <= j < ys@.len() ==> st.ctx.has(#[trigger] ys@[j]),
        decreases xs.len() - i,
    {
        let mut k: usize = 0;
        while k < ys.len()
            invariant
                k <= ys@.len(),
                i < xs@.len(),
                s0 == *old(st),
                st.inv(),
                st.evolved_from(s0),
                st.slot_map@ == s0.slot_map@,
                st.type_ops@ == s0.type_ops@,
                forall|j: int| 0 <= j < xs@.len() ==> st.ctx.has(#[trigger] xs@[j]),
                forall|j: int| 0 <= j < ys@.len() ==> st.ctx.has(#[trigger] ys@[j]),
            decreases ys.len() - k,
        {
            let ghost sb = *st;
            let ok = unify_types(st, xs[i], ys[k]);
            proof {
                MirTypeInference::lemma_evolved_trans(s0, sb, *st);
                assert forall|j: int| 0 <= j < xs@.len() implies st.ctx.has(#[trigger] xs@[j]) by {
                    MirTypeInference::keep_node(sb, *st, xs@[j]);
                }
                assert forall|j: int| 0 <= j < ys@.len() implies st.ctx.has(#[trigger] ys@[j]) by {
                    MirTypeInference::keep_node(sb, *st, ys@[j]);
                }
            }
            if !ok {
                return false;
            }
            k += 1;
        }
        i += 1;
    }
    true
}

/// Every run-time index of the path has a type.
/// The node one step of a path selects from node `u`: an array's element
/// type, a tuple's element or a struct's field, looking through a signal; a
/// run-time index selects like index `0`, and selecting a signal's value
/// selects the node itself.
pub open spec fn node_step(c: UnifyContext, u: TypeId, e: PathElementView) -> Option<TypeId> {
    let r = match e {
        PathElementView::Index(n) => index_node(c.tys(), c.ranks(), u.kind as int, n),
        PathElementView::TupleIndex(n) => index_node(c.tys(), c.ranks(), u.kind as int, n),
        PathElementView::DynamicIndex(_) => index_node(c.tys(), c.ranks(), u.kind as int, 0),
        PathElementView::Field(m) => field_node(c.tys(), u.kind as int, m),
        PathElementView::SignalValue => Ok(u),
    };
    match r {
        Ok(t) => if c.has(t) {
            Some(t)
        } else {
            None
        },
        Err(_) => None,
    }
}

/// The node a path selects from node `v`, step after step.
pub open spec fn node_path(c: UnifyContext, v: TypeId, p: Seq<PathElementView>) -> Option<TypeId>
    decreases p.len(),
{
    if p.len() == 0 {
        if c.has(v) {
            Some(v)
        } else {
            None
        }
    } else {
        match node_path(c, v, p.drop_last()) {
            Some(u) => node_step(c, u, p.last()),
            None => None,
        }
    }
}

/// The part of slot `arg` that path `p` selects has the type of slot `lhs`:
/// some node of the type of `arg` leads along the path to a node of the type
/// of `lhs`, so the two carry the same clock domains.
pub open spec fn index_typed(st: MirTypeInference, arg: Slot, p: Seq<PathElementView>, lhs: Slot) -> bool {
    &&& st.known(arg)
    &&& st.known(lhs)
    &&& exists|v: TypeId|
        #[trigger] node_path(st.ctx, v, p) is Some && st.tt(v) == st.tm(arg) && st.tt(node_path(st.ctx, v, p)->Some_0)
            == st.tm(lhs)
}

/// The node a path selects stays the one it selects as the context evolves.
proof fn keep_node_path(old: MirTypeInference, new: MirTypeInference, v: TypeId, p: Seq<PathElementView>)
    requires
        old.inv(),
        new.inv(),
        new.evolved_from(old),
        node_path(old.ctx, v, p) is Some,
    ensures
        node_path(new.ctx, v, p) == node_path(old.ctx, v, p),
    decreases p.len(),
{
    reveal(MirTypeInference::evolved_from);
    if p.len() > 0 {
        keep_node_path(old, new, v, p.drop_last());
        let u = node_path(old.ctx, v, p.drop_last())->Some_0;
        match p.last() {
            PathElementView::Index(n) => lemma_index_node_kept(old.ctx, new.ctx, u, n),
            PathElementView::TupleIndex(n) => lemma_index_node_kept(old.ctx, new.ctx, u, n),
            PathElementView::DynamicIndex(_) => lemma_index_node_kept(old.ctx, new.ctx, u, 0),
            _ => {},
        }
        assert(new.ctx.tys()[u.kind as int] == old.ctx.tys()[u.kind as int]);
    }
}

/// Index typing still holds as the context evolves.
proof fn keep_index_typed(old: MirTypeInference, new: MirTypeInference, arg: Slot, p: Seq<PathElementView>, lhs: Slot)
    requires
        old.inv(),
        new.inv(),
        new.evolved_from(old),
        index_typed(old, arg, p, lhs),
    ensures
        index_typed(new, arg, p, lhs),
{
    let v = choose|v: TypeId|
        #[trigger] node_path(old.ctx, v, p) is Some && old.tt(v) == old.tm(arg) && old.tt(node_path(old.ctx, v, p)->Some_0)
            == old.tm(lhs);
    keep_node_path(old, new, v, p);
    lemma_node_path_has(old.ctx, v, p);
    MirTypeInference::keep_ts(old, new, v, arg);
    MirTypeInference::keep_ts(old, new, node_path(old.ctx, v, p)->Some_0, lhs);
    assert(node_path(new.ctx, v, p) is Some);
}

/// The start and the end of a path that selects something are nodes.
proof fn lemma_node_path_has(c: UnifyContext, v: TypeId, p: Seq<PathElementView>)
    requires
        node_path(c, v, p) is Some,
    ensures
        c.has(v),
        c.has(node_path(c, v, p)->Some_0),
    decreases p.len(),
{
    if p.len() > 0 {
        lemma_node_path_has(c, v, p.drop_last());
    }
}

pub open spec fn path_known(st: MirTypeInference, p: Seq<PathElementView>) -> bool {
    forall|k: int| 0 <= k < p.len() ==> ((#[trigger] p[k]) matches PathElementView::DynamicIndex(s) ==> st.known(s))
}

/// The type of the part of `arg_slot` that `path` selects; the domains of a
/// run-time index are put in the domains of the element it selects.
fn ty_path_project(st: &mut MirTypeInference, arg_slot: Slot, path: &Path, loc: NodeId) -> (r: Result<TypeId, RHDLError>)
    requires
        old(st).inv(),
        old(st).known(arg_slot),
        path_known(*old(st), path@),
    ensures
        final(st).inv(),
        final(st).evolved_from(*old(st)),
        final(st).slot_map@ == old(st).slot_map@,
        final(st).type_ops@ == old(st).type_ops@,
        r matches Ok(t) ==> final(st).ctx.has(t),
        r matches Ok(t) ==> exists|v: TypeId|
            #[trigger] node_path(final(st).ctx, v, path@) == Some(t) && final(st).tt(v) == final(st).tm(arg_slot),
        r matches Err(e) ==> clock_check_error(e),
{
    let ghost s0 = *st;
    let arg_ty = slot_type(st, loc, arg_slot);
    let ghost s1 = *st;
    let mut arg = st.ctx.apply(arg_ty);
    let ghost v0 = arg;
    proof {
        MirTypeInference::lemma_grew(s1, *st);
        MirTypeInference::lemma_evolved_trans(s0, s1, *st);
        st.ctx.lemma_grows_keeps_terms(s1.ctx, arg_ty);
        MirTypeInference::keep_ts(s1, *st, arg_ty, arg_slot);
        assert(path@.take(0) =~= Seq::<PathElementView>::empty());
    }
    let mut i: usize = 0;
    while i < path.elements.len()
        invariant
            i <= path.elements@.len(),
            path@.len() == path.elements@.len(),
            s0 == *old(st),
            path_known(s0, path@),
            st.inv(),
            st.evolved_from(s0),
            st.slot_map@ == s0.slot_map@,
            st.type_ops@ == s0.type_ops@,
            st.ctx.has(arg),
            st.known(arg_slot),
            st.tt(v0) == st.tm(arg_slot),
            node_path(st.ctx, v0, path@.take(i as int)) == Some(arg),
        decreases path.elements.len() - i,
    {
        let ghost s_before = *st;
        let ghost arg0 = arg;
        proof {
            assert(path@[i as int] == path.elements@[i as int]@);
            assert(path@.take(i + 1).drop_last() =~= path@.take(i as int));
            assert(path@.take(i + 1).last() == path@[i as int]);
        }
        match &path.elements[i] {
            PathElement::Index(ndx) => {
                arg = match st.ctx.ty_index(arg, *ndx) {
                    Ok(t) => t,
                    Err(cause) => {
                        return Err(RHDLError::TypeInference { cause });
                    },
                };
            },
            PathElement::TupleIndex(ndx) => {
                arg = match st.ctx.ty_index(arg, *ndx) {
                    Ok(t) => t,
                    Err(cause) => {
                        return Err(RHDLError::TypeInference { cause });
                    },
                };
            },
            PathElement::Field(member) => {
                arg = match st.ctx.ty_field(arg, member.as_str()) {
                    Ok(t) => t,
                    Err(cause) => {
                        return Err(RHDLError::TypeInference { cause });
                    },
                };
            },
            PathElement::DynamicIndex(slot) => {
                arg = match st.ctx.ty_index(arg, 0) {
                    Ok(t) => t,
                    Err(cause) => {
                        return Err(RHDLError::TypeInference { cause });
                    },
                };
                let ghost sa = *st;
                proof {
                    assert(s0.known(*slot));
                }
                let slot_ty = slot_type(st, loc, *slot);
                let slot_domains = collect_clock_domains(&st.ctx, slot_ty);
                proof {
                    MirTypeInference::keep_node(sa, *st, arg);
                }
                let arg_domains = collect_clock_domains(&st.ctx, arg);
                let ghost sb = *st;
                let ok = unify_all_pairs(st, &arg_domains, &slot_domains);
                proof {
                    MirTypeInference::lemma_evolved_trans(s0, sa, sb);
                    MirTypeInference::lemma_evolved_trans(s0, sb, *st);
                    MirTypeInference::keep_node(sb, *st, arg);
                    MirTypeInference::lemma_evolved_trans(sa, sb, *st);
                    assert(node_path(sa.ctx, v0, path@.take(i + 1)) == node_step(sa.ctx, arg0, path@[i as int]));
                    assert(node_path(sa.ctx, v0, path@.take(i + 1)) == Some(arg));
                    keep_node_path(sa, *st, v0, path@.take(i + 1));
                    lemma_node_path_has(sa.ctx, v0, path@.take(i + 1));
                    MirTypeInference::keep_ts(sa, *st, v0, arg_slot);
                }
                if !ok {
                    return Err(clock_error(ClockError::IndexClockMismatch, vec![arg_slot, *slot], loc));
                }
            },
            PathElement::SignalValue => {},
        }
        proof {
            if let PathElementView::DynamicIndex(_) = path@[i as int] {
            } else {
                assert(*st == s_before);
                assert(node_path(st.ctx, v0, path@.take(i + 1)) == node_step(st.ctx, arg0, path@[i as int]));
            }
        }
        i += 1;
    }
    proof {
        assert(path@.take(i as int) =~= path@);
    }
    Ok(arg)
}

/// The element `e` of an array has the array's element type.
pub open spec fn array_element_holds(st: MirTypeInference, lhs: Slot, e: Slot) -> bool {
    &&& st.known(lhs)
    &&& st.known(e)
    &&& exists|w: TypeId|
        #[trigger] app_of(st.ctx, w, Shape::Array, 2) && st.tm(lhs) == st.tt(w) && st.tm(e) == st.tt(arg_of(st.ctx, w, 0))
}

proof fn keep_array_element(old: MirTypeInference, new: MirTypeInference, lhs: Slot, e: Slot)
    requires
        old.inv(),
        new.evolved_from(old),
        array_element_holds(old, lhs, e),
    ensures
        array_element_holds(new, lhs, e),
{
    let w = choose|w: TypeId|
        #[trigger] app_of(old.ctx, w, Shape::Array, 2) && old.tm(lhs) == old.tt(w) && old.tm(e) == old.tt(arg_of(old.ctx, w, 0));
    MirTypeInference::keep_app(old, new, w, Shape::Array, 2);
    assert(arg_of(new.ctx, w, 0) == arg_of(old.ctx, w, 0));
    MirTypeInference::keep_ts(old, new, w, lhs);
    MirTypeInference::keep_ts(old, new, arg_of(old.ctx, w, 0), e);
}

/// The slot is present in the object's tables.
pub open spec fn present(obj: &Object, s: Slot) -> bool {
    obj.slot_kind(s) is Some
}

/// Every run-time index of the path is present.
pub open spec fn path_present(obj: &Object, p: Seq<PathElementView>) -> bool {
    forall|k: int| 0 <= k < p.len() ==> ((#[trigger] p[k]) matches PathElementView::DynamicIndex(s) ==> present(obj, s))
}

/// The slots the clock check reads for an opcode are present, and a called
/// function exists with the kinds of its result and arguments.
pub open spec fn op_present(obj: &Object, op: OpCode) -> bool {
    match op {
        OpCode::Noop => true,
        OpCode::Comment(_) => true,
        OpCode::Binary(b) => present(obj, b.lhs) && present(obj, b.arg1) && present(obj, b.arg2),
        OpCode::Unary(u) => present(obj, u.lhs) && present(obj, u.arg1),
        OpCode::Array(a) => present(obj, a.lhs) && forall|i: int| 0 <= i < a.elements@.len() ==> present(obj, #[trigger] a.elements@[i]),
        OpCode::Assign(a) => present(obj, a.lhs) && present(obj, a.rhs),
        OpCode::AsBits(c) => present(obj, c.lhs) && present(obj, c.arg),
        OpCode::AsSigned(c) => present(obj, c.lhs) && present(obj, c.arg),
        OpCode::Resize(c) => present(obj, c.lhs) && present(obj, c.arg),
        OpCode::Case(c) => present(obj, c.lhs) && present(obj, c.discriminant) && forall|i: int|
            0 <= i < c.table@.len() ==> present(obj, (#[trigger] c.table@[i]).1) && (c.table@[i].0 matches CaseArgument::Slot(s)
                ==> present(obj, s)),
        OpCode::Exec(e) => present(obj, e.lhs) && (forall|i: int| 0 <= i < e.args@.len() ==> present(obj, #[trigger] e.args@[i]))
            && e.id.0 < obj.externals@.len() && {
            let sub = obj.externals@[e.id.0 as int];
            &&& sub.slot_kind(sub.return_slot) is Some
            &&& forall|i: int| 0 <= i < sub.arguments@.len() ==> sub.slot_kind(Slot::Register(#[trigger] sub.arguments@[i])) is Some
        },
        OpCode::Index(x) => present(obj, x.lhs) && present(obj, x.arg) && path_present(obj, x.path@),
        OpCode::Repeat(r) => present(obj, r.lhs) && present(obj, r.value),
        OpCode::Retime(r) => present(obj, r.lhs) && present(obj, r.arg),
        OpCode::Select(x) => present(obj, x.lhs) && present(obj, x.cond) && present(obj, x.true_value) && present(obj, x.false_value),
        OpCode::Splice(x) => present(obj, x.lhs) && present(obj, x.orig) && present(obj, x.subst) && path_present(obj, x.path@),
        OpCode::Struct(x) => present(obj, x.lhs) && forall|i: int|
            0 <= i < x.fields@.len() ==> present(obj, (#[trigger] x.fields@[i]).value),
        OpCode::Tuple(t) => present(obj, t.lhs) && forall|i: int| 0 <= i < t.fields@.len() ==> present(obj, #[trigger] t.fields@[i]),
        OpCode::Wrap(w) => present(obj, w.lhs) && present(obj, w.arg),
    }
}

/// Every opcode of the object can be checked.
pub open spec fn clock_ready(obj: &Object) -> bool {
    forall|i: int| 0 <= i < obj.ops@.len() ==> op_present(obj, #[trigger] obj.ops@[i].op)
}

/// What the clock check establishes of an opcode: which values share one
/// clock domain, and the array and tuple structure of the domains.
pub open spec fn clock_rule(st: MirTypeInference, op: OpCode) -> bool {
    match op {
        OpCode::Binary(b) => if is_comparison_op(b.op) {
            one_domain(st, seq![b.arg1, b.arg2])
        } else {
            one_domain(st, seq![b.arg1, b.arg2, b.lhs])
        },
        OpCode::Unary(u) => (u.op is Neg || u.op is Not) ==> one_domain(st, seq![u.arg1, u.lhs]),
        OpCode::Assign(a) => one_domain(st, seq![a.rhs, a.lhs]),
        OpCode::AsBits(c) => one_domain(st, seq![c.arg, c.lhs]),
        OpCode::AsSigned(c) => one_domain(st, seq![c.arg, c.lhs]),
        OpCode::Resize(c) => one_domain(st, seq![c.arg, c.lhs]),
        OpCode::Retime(r) => one_domain(st, seq![r.arg, r.lhs]),
        OpCode::Select(x) => one_domain(st, seq![x.lhs, x.true_value, x.false_value]),
        OpCode::Splice(x) => st.known(x.lhs) && st.known(x.orig) && st.tm(x.orig) == st.tm(x.lhs),
        OpCode::Index(x) => index_typed(st, x.arg, x.path@, x.lhs),
        OpCode::Array(a) => forall|i: int| 0 <= i < a.elements@.len() ==> array_element_holds(st, a.lhs, #[trigger] a.elements@[i]),
        OpCode::Repeat(r) => st.repeat_holds(r),
        OpCode::Tuple(t) => st.tuple_holds(t),
        _ => true,
    }
}

/// What the clock check established of an opcode still holds as the context
/// evolves.
proof fn keep_clock_rule(old: MirTypeInference, new: MirTypeInference, op: OpCode)
    requires
        old.inv(),
        new.inv(),
        new.evolved_from(old),
        clock_rule(old, op),
    ensures
        clock_rule(new, op),
{
    match op {
        OpCode::Binary(b) => {
            if is_comparison_op(b.op) {
                keep_one_domain(old, new, seq![b.arg1, b.arg2]);
            } else {
                keep_one_domain(old, new, seq![b.arg1, b.arg2, b.lhs]);
            }
        },
        OpCode::Unary(u) => {
            if u.op is Neg || u.op is Not {
                keep_one_domain(old, new, seq![u.arg1, u.lhs]);
            }
        },
        OpCode::Assign(a) => keep_one_domain(old, new, seq![a.rhs, a.lhs]),
        OpCode::AsBits(c) => keep_one_domain(old, new, seq![c.arg, c.lhs]),
        OpCode::AsSigned(c) => keep_one_domain(old, new, seq![c.arg, c.lhs]),
        OpCode::Resize(c) => keep_one_domain(old, new, seq![c.arg, c.lhs]),
        OpCode::Retime(r) => keep_one_domain(old, new, seq![r.arg, r.lhs]),
        OpCode::Select(x) => keep_one_domain(old, new, seq![x.lhs, x.true_value, x.false_value]),
        OpCode::Splice(x) => MirTypeInference::keep_ss(old, new, x.orig, x.lhs),
        OpCode::Index(x) => keep_index_typed(old, new, x.arg, x.path@, x.lhs),
        OpCode::Array(a) => {
            assert forall|i: int| 0 <= i < a.elements@.len() implies array_element_holds(new, a.lhs, #[trigger] a.elements@[i]) by {
                keep_array_element(old, new, a.lhs, a.elements@[i]);
            }
        },
        OpCode::Repeat(r) => MirTypeInference::keep_repeat(old, new, r),
        OpCode::Tuple(t) => MirTypeInference::keep_tuple(old, new, t),
        _ => {},
    }
}

/// Arithmetic and logic on values of one domain give a value of that
/// domain; a comparison gives a value in the domains of its arguments.
fn check_binary(st: &mut MirTypeInference, loc: NodeId, b: &Binary) -> (r: Result<(), RHDLError>)
    requires
        old(st).inv(),
        old(st).known(b.lhs),
        old(st).known(b.arg1),
        old(st).known(b.arg2),
    ensures
        final(st).inv(),
        final(st).evolved_from(*old(st)),
        final(st).slot_map@ == old(st).slot_map@,
        final(st).type_ops@ == old(st).type_ops@,
        r is Ok ==> clock_rule(*final(st), OpCode::Binary(*b)),
        r matches Err(e) ==> clock_check_error(e),
        final(st).ctx.vars() <= old(st).ctx.vars() + 1,
        forall|c: Color|
            #[trigger] triple_on_clock(*old(st), b.arg1, b.arg2, b.lhs, c) && (!is_comparison_op(b.op) || (!(b.arg1 is Empty)
                && !(b.lhs is Empty))) && old(st).ctx.vars() < u32::MAX ==> r is Ok,
{
    let ghost s0 = *st;
    if !b.op.is_comparison() {
        let v = vec![b.arg1, b.arg2, b.lhs];
        let ghost vs = v@;
        proof {
            assert(v@ =~= seq![b.arg1, b.arg2, b.lhs]);
        }
        let r = unify_clocks(st, v, loc, ClockError::BinaryOperationClockMismatch { op: b.op });
        proof {
            assert forall|c: Color|
                #[trigger] triple_on_clock(s0, b.arg1, b.arg2, b.lhs, c) && s0.ctx.vars() < u32::MAX implies r is Ok by {
                assert(on_clock(s0, vs, c));
            }
        }
        r
    } else {
        let v = vec![b.arg1, b.arg2];
        let ghost vs = v@;
        proof {
            assert(v@ =~= seq![b.arg1, b.arg2]);
            assert forall|c: Color| #[trigger] triple_on_clock(s0, b.arg1, b.arg2, b.lhs, c) implies on_clock(s0, vs, c) by {
                assert(on_clock(s0, seq![b.arg1, b.arg2, b.lhs], c));
                assert(seq![b.arg1, b.arg2, b.lhs][0] == b.arg1);
                assert(seq![b.arg1, b.arg2, b.lhs][1] == b.arg2);
            }
        }
        unify_clocks(st, v, loc, ClockError::BinaryOperationClockMismatch { op: b.op })?;
        let ghost s1 = *st;
        proof {
            assert forall|c: Color| #[trigger] triple_on_clock(s0, b.arg1, b.arg2, b.lhs, c) && !(b.arg1 is Empty) && !(b.lhs is Empty)
                implies same_clock_pair(s1, b.arg1, b.lhs) by {
                let q = seq![b.arg1, b.arg2, b.lhs];
                assert(on_clock(s0, q, c));
                assert(q[0] == b.arg1 && q[2] == b.lhs);
                assert(crate::compiler::mir::ty::ground(Term::Const(Const::Clock(c))));
                MirTypeInference::keep_ground_slot(s0, s1, b.arg1);
                MirTypeInference::keep_ground_slot(s0, s1, b.lhs);
                let p2 = seq![b.arg1, b.lhs];
                assert(p2[0] == b.arg1 && p2[1] == b.lhs);
                assert(on_clock(s1, p2, c));
                assert(pair_on_clock(s1, b.arg1, b.lhs, c));
            }
        }
        let res = unify_projected_clocks(st, b.arg1, b.lhs, loc, ClockError::BinaryOperationClockMismatch { op: b.op });
        proof {
            MirTypeInference::lemma_evolved_trans(s0, s1, *st);
            keep_one_domain(s1, *st, seq![b.arg1, b.arg2]);
        }
        res
    }
}

/// Puts the listed slots in one domain, with the rule stated for them.
fn check_same(st: &mut MirTypeInference, loc: NodeId, a: Slot, b: Slot, cause: ClockError) -> (r: Result<(), RHDLError>)
    requires
        old(st).inv(),
        old(st).known(a),
        old(st).known(b),
    ensures
        final(st).inv(),
        final(st).evolved_from(*old(st)),
        final(st).slot_map@ == old(st).slot_map@,
        final(st).type_ops@ == old(st).type_ops@,
        r is Ok ==> one_domain(*final(st), seq![a, b]),
        r matches Err(e) ==> clock_check_error(e),
        final(st).ctx.vars() <= old(st).ctx.vars() + 1,
        forall|c: Color| #[trigger] pair_on_clock(*old(st), a, b, c) && old(st).ctx.vars() < u32::MAX ==> r is Ok,
{
    let ghost s0 = *st;
    let v = vec![a, b];
    let ghost vs = v@;
    proof {
        assert(v@ =~= seq![a, b]);
    }
    let r = unify_clocks(st, v, loc, cause);
    proof {
        assert forall|c: Color| #[trigger] pair_on_clock(s0, a, b, c) && s0.ctx.vars() < u32::MAX implies r is Ok by {
            assert(on_clock(s0, vs, c));
        }
    }
    r
}

/// A selection's condition is in the domains of its result, and the result
/// and both values are in one domain.
fn check_select(st: &mut MirTypeInference, loc: NodeId, x: &Select) -> (r: Result<(), RHDLError>)
    requires
        old(st).inv(),
        old(st).known(x.lhs),
        old(st).known(x.cond),
        old(st).known(x.true_value),
        old(st).known(x.false_value),
    ensures
        final(st).inv(),
        final(st).evolved_from(*old(st)),
        final(st).slot_map@ == old(st).slot_map@,
        final(st).type_ops@ == old(st).type_ops@,
        r is Ok ==> clock_rule(*final(st), OpCode::Select(*x)),
        r matches Err(e) ==> clock_check_error(e),
        final(st).ctx.vars() <= old(st).ctx.vars() + 1,
        forall|c: Color|
            #[trigger] select_on_clock(*old(st), *x, c) && !(x.cond is Empty) && !(x.lhs is Empty) && old(st).ctx.vars() < u32::MAX
                ==> r is Ok,
{
    let ghost s0 = *st;
    proof {
        assert forall|c: Color| #[trigger] select_on_clock(s0, *x, c) && !(x.cond is Empty) && !(x.lhs is Empty) implies same_clock_pair(s0, x.cond, x.lhs) by {
            assert(on_clock(s0, seq![x.cond, x.lhs, x.true_value, x.false_value], c));
            assert(seq![x.cond, x.lhs, x.true_value, x.false_value][0] == x.cond);
            assert(seq![x.cond, x.lhs, x.true_value, x.false_value][1] == x.lhs);
            assert(pair_on_clock(s0, x.cond, x.lhs, c));
        }
    }
    unify_projected_clocks(st, x.cond, x.lhs, loc, ClockError::SelectClockMismatch)?;
    let ghost s1 = *st;
    proof {
        assert forall|c: Color| #[trigger] select_on_clock(s0, *x, c) implies triple_on_clock(s1, x.lhs, x.true_value, x.false_value, c) by {
            let q = seq![x.cond, x.lhs, x.true_value, x.false_value];
            assert(on_clock(s0, q, c));
            assert(q[1] == x.lhs && q[2] == x.true_value && q[3] == x.false_value);
            let t3 = seq![x.lhs, x.true_value, x.false_value];
            assert forall|j: int| 0 <= j < 3 && !(t3[j] is Empty) implies #[trigger] s1.tm(t3[j]) == Term::Const(Const::Clock(c)) by {
                let sl = t3[j];
                assert(sl == q[j + 1]);
                assert(s0.tm(sl) == Term::Const(Const::Clock(c)));
                assert(crate::compiler::mir::ty::ground(Term::Const(Const::Clock(c))));
                MirTypeInference::keep_ground_slot(s0, s1, sl);
            }
            assert(on_clock(s1, t3, c));
        }
    }
    let v = vec![x.lhs, x.true_value, x.false_value];
    proof {
        assert(v@ =~= seq![x.lhs, x.true_value, x.false_value]);
    }
    let ghost vs = v@;
    let res = unify_clocks(st, v, loc, ClockError::SelectClockMismatch);
    proof {
        MirTypeInference::lemma_evolved_trans(s0, s1, *st);
        assert forall|c: Color| #[trigger] select_on_clock(s0, *x, c) && !(x.cond is Empty) && !(x.lhs is Empty) && s0.ctx.vars() < u32::MAX implies res is Ok by {
            assert(triple_on_clock(s1, x.lhs, x.true_value, x.false_value, c));
            assert(on_clock(s1, vs, c));
        }
    }
    res
}

/// The part of the argument the path selects has the type of the result.
fn check_index(st: &mut MirTypeInference, loc: NodeId, x: &Index) -> (r: Result<(), RHDLError>)
    requires
        old(st).inv(),
        old(st).known(x.lhs),
        old(st).known(x.arg),
        path_known(*old(st), x.path@),
    ensures
        final(st).inv(),
        final(st).evolved_from(*old(st)),
        final(st).slot_map@ == old(st).slot_map@,
        final(st).type_ops@ == old(st).type_ops@,
        r is Ok ==> clock_rule(*final(st), OpCode::Index(*x)),
        r matches Err(e) ==> clock_check_error(e),
{
    let ghost s0 = *st;
    let rhs_project = ty_path_project(st, x.arg, &x.path, loc)?;
    let ghost s1 = *st;
    let ty_lhs = slot_type(st, loc, x.lhs);
    let ghost s2 = *st;
    proof {
        MirTypeInference::lemma_evolved_trans(s0, s1, s2);
        MirTypeInference::keep_node(s1, s2, rhs_project);
    }
    let ok = unify_types(st, rhs_project, ty_lhs);
    proof {
        MirTypeInference::lemma_evolved_trans(s0, s2, *st);
        if ok {
            let v = choose|v: TypeId|
                #[trigger] node_path(s1.ctx, v, x.path@) == Some(rhs_project) && s1.tt(v) == s1.tm(x.arg);
            MirTypeInference::lemma_evolved_trans(s1, s2, *st);
            lemma_node_path_has(s1.ctx, v, x.path@);
            keep_node_path(s1, *st, v, x.path@);
            MirTypeInference::keep_known(s0, s1, x.arg);
            MirTypeInference::keep_ts(s1, *st, v, x.arg);
            MirTypeInference::keep_ts(s2, *st, ty_lhs, x.lhs);
            MirTypeInference::keep_known(s0, *st, x.lhs);
            MirTypeInference::keep_known(s0, *st, x.arg);
            assert(node_path(st.ctx, v, x.path@) is Some);
        }
    }
    if !ok {
        return Err(clock_error(ClockError::IndexClockMismatch, vec![x.arg, x.lhs], loc));
    }
    Ok(())
}

/// A splice has the type of the original, and the substituted value the type
/// of the part the path selects.
fn check_splice(st: &mut MirTypeInference, loc: NodeId, x: &Splice) -> (r: Result<(), RHDLError>)
    requires
        old(st).inv(),
        old(st).known(x.lhs),
        old(st).known(x.orig),
        old(st).known(x.subst),
        path_known(*old(st), x.path@),
    ensures
        final(st).inv(),
        final(st).evolved_from(*old(st)),
        final(st).slot_map@ == old(st).slot_map@,
        final(st).type_ops@ == old(st).type_ops@,
        r is Ok ==> clock_rule(*final(st), OpCode::Splice(*x)),
        r matches Err(e) ==> clock_check_error(e),
{
    let ghost s0 = *st;
    let lhs_ty = slot_type(st, loc, x.lhs);
    let ghost s1 = *st;
    let orig_ty = slot_type(st, loc, x.orig);
    let ghost s2 = *st;
    let subst_ty = slot_type(st, loc, x.subst);
    let ghost s3 = *st;
    proof {
        MirTypeInference::lemma_evolved_trans(s0, s1, s2);
        MirTypeInference::lemma_evolved_trans(s0, s2, s3);
        MirTypeInference::lemma_evolved_trans(s1, s2, s3);
        MirTypeInference::keep_ts(s1, s3, lhs_ty, x.lhs);
        MirTypeInference::keep_ts(s2, s3, orig_ty, x.orig);
    }
    let res = ty_path_project(st, x.orig, &x.path, loc);
    proof {
        MirTypeInference::lemma_evolved_trans(s0, s3, *st);
    }
    let path_ty = res?;
    let ghost s4 = *st;
    proof {
        MirTypeInference::keep_ts(s3, s4, lhs_ty, x.lhs);
        MirTypeInference::keep_ts(s3, s4, orig_ty, x.orig);
        MirTypeInference::keep_node(s3, s4, subst_ty);
    }
    if !unify_types(st, orig_ty, lhs_ty) {
        proof {
            MirTypeInference::lemma_evolved_trans(s0, s4, *st);
        }
        return Err(clock_error(ClockError::SpliceClockMismatch, vec![x.lhs, x.orig], loc));
    }
    let ghost s5 = *st;
    proof {
        MirTypeInference::lemma_evolved_trans(s0, s4, s5);
        MirTypeInference::keep_ts(s4, s5, lhs_ty, x.lhs);
        MirTypeInference::keep_ts(s4, s5, orig_ty, x.orig);
        MirTypeInference::keep_node(s4, s5, subst_ty);
        MirTypeInference::keep_node(s4, s5, path_ty);
    }
    let ok = unify_types(st, subst_ty, path_ty);
    proof {
        MirTypeInference::lemma_evolved_trans(s0, s5, *st);
        MirTypeInference::keep_ss(s5, *st, x.orig, x.lhs);
    }
    if !ok {
        return Err(clock_error(ClockError::SpliceClockMismatch, vec![x.subst, x.orig], loc));
    }
    Ok(())
}

/// Each element of an array literal has the array's element type.
fn check_array(st: &mut MirTypeInference, loc: NodeId, a: &Array) -> (r: Result<(), RHDLError>)
    requires
        old(st).inv(),
        old(st).known(a.lhs),
        forall|i: int| 0 <= i < a.elements@.len() ==> old(st).known(#[trigger] a.elements@[i]),
    ensures
        final(st).inv(),
        final(st).evolved_from(*old(st)),
        final(st).slot_map@ == old(st).slot_map@,
        final(st).type_ops@ == old(st).type_ops@,
        r is Ok ==> clock_rule(*final(st), OpCode::Array(*a)),
        r matches Err(e) ==> clock_check_error(e),
{
    let ghost s0 = *st;
    let ty_lhs = slot_type(st, loc, a.lhs);
    let mut i: usize = 0;
    while i < a.elements.len()
        invariant
            i <= a.elements@.len(),
            s0 == *old(st),
            st.inv(),
            st.evolved_from(s0),
            st.slot_map@ == s0.slot_map@,
            st.type_ops@ == s0.type_ops@,
            st.ctx.has(ty_lhs),
            st.known(a.lhs),
            st.tt(ty_lhs) == st.tm(a.lhs),
            forall|j: int| 0 <= j < a.elements@.len() ==> st.known(#[trigger] a.elements@[j]),
            forall|j: int| 0 <= j < i ==> array_element_holds(*st, a.lhs, #[trigger] a.elements@[j]),
        decreases a.elements.len() - i,
    {
        let ghost sa = *st;
        let res = fresh_var(st, loc);
        proof {
            MirTypeInference::lemma_evolved_trans(s0, sa, *st);
        }
        let ty_len = res?;
        let ghost sb = *st;
        let ty_rhs = slot_type(st, loc, a.elements[i]);
        let ghost sc = *st;
        proof {
            MirTypeInference::lemma_evolved_trans(sa, sb, sc);
            MirTypeInference::keep_node(sb, sc, ty_len);
        }
        let rhs = st.ctx.ty_array(loc, ty_rhs, ty_len);
        let ghost sd = *st;
        proof {
            MirTypeInference::lemma_grew(sc, sd);
            MirTypeInference::lemma_evolved_trans(sa, sc, sd);
            MirTypeInference::keep_ts(sa, sd, ty_lhs, a.lhs);
            MirTypeInference::keep_ts(sc, sd, ty_rhs, a.elements@[i as int]);
        }
        let ok = unify_types(st, ty_lhs, rhs);
        proof {
            MirTypeInference::lemma_evolved_trans(sa, sd, *st);
            MirTypeInference::lemma_evolved_trans(s0, sa, *st);
        }
        if !ok {
            return Err(clock_error(ClockError::ArrayClockMismatch, vec![a.lhs, a.elements[i]], loc));
        }
        proof {
            let f = *st;
            MirTypeInference::keep_ts(sd, f, ty_lhs, a.lhs);
            MirTypeInference::keep_ts(sd, f, ty_rhs, a.elements@[i as int]);
            MirTypeInference::keep_node(sd, f, rhs);
            assert(app_of(f.ctx, rhs, Shape::Array, 2));
            assert(arg_of(f.ctx, rhs, 0) == ty_rhs);
            assert(array_element_holds(f, a.lhs, a.elements@[i as int]));
            assert forall|j: int| 0 <= j < i + 1 implies array_element_holds(f, a.lhs, #[trigger] a.elements@[j]) by {
                if j < i {
                    keep_array_element(sa, f, a.lhs, a.elements@[j]);
                }
            }
        }
        i += 1;
    }
    Ok(())
}

/// A repeated value gives an array of that many elements of its type.
fn check_repeat(st: &mut MirTypeInference, loc: NodeId, repeat: &Repeat) -> (r: Result<(), RHDLError>)
    requires
        old(st).inv(),
        old(st).known(repeat.lhs),
        old(st).known(repeat.value),
    ensures
        final(st).inv(),
        final(st).evolved_from(*old(st)),
        final(st).slot_map@ == old(st).slot_map@,
        final(st).type_ops@ == old(st).type_ops@,
        r is Ok ==> clock_rule(*final(st), OpCode::Repeat(*repeat)),
        r matches Err(e) ==> clock_check_error(e),
{
    let ghost s0 = *st;
    let lhs = slot_type(st, loc, repeat.lhs);
    let ghost s1 = *st;
    let value = slot_type(st, loc, repeat.value);
    let ghost s2 = *st;
    proof {
        MirTypeInference::lemma_evolved_trans(s0, s1, s2);
        MirTypeInference::keep_ts(s1, s2, lhs, repeat.lhs);
    }
    let len = st.ctx.ty_const_len(loc, repeat.len as usize);
    proof {
        MirTypeInference::lemma_grew(s2, *st);
        MirTypeInference::keep_node(s2, *st, value);
    }
    let ghost s3 = *st;
    let lhs_ty = st.ctx.ty_array(loc, value, len);
    proof {
        MirTypeInference::lemma_grew(s3, *st);
        MirTypeInference::lemma_evolved_trans(s2, s3, *st);
        MirTypeInference::lemma_evolved_trans(s0, s2, *st);
        MirTypeInference::keep_ts(s2, *st, lhs, repeat.lhs);
    }
    let ghost s4 = *st;
    let ok = unify_types(st, lhs, lhs_ty);
    proof {
        let f = *st;
        MirTypeInference::lemma_evolved_trans(s0, s4, f);
        MirTypeInference::lemma_evolved_trans(s3, s4, f);
        MirTypeInference::lemma_evolved_trans(s2, s4, f);
        if ok {
            MirTypeInference::keep_ts(s4, f, lhs, repeat.lhs);
            MirTypeInference::keep_ts(s2, f, value, repeat.value);
            MirTypeInference::keep_node(s4, f, lhs_ty);
            MirTypeInference::keep_ground(s3, f, len);
            assert(app_of(f.ctx, lhs_ty, Shape::Array, 2));
            assert(arg_of(f.ctx, lhs_ty, 0) == value);
            assert(arg_of(f.ctx, lhs_ty, 1) == len);
            assert(f.tm(repeat.lhs) == f.tt(lhs_ty));
        }
    }
    if !ok {
        return Err(clock_error(ClockError::ArrayClockMismatch, vec![repeat.lhs, repeat.value], loc));
    }
    Ok(())
}

/// The types of a list of slots.
fn slot_types(st: &mut MirTypeInference, loc: NodeId, slots: &Vec<Slot>) -> (r: Vec<TypeId>)
    requires
        old(st).inv(),
        forall|i: int| 0 <= i < slots@.len() ==> old(st).known(#[trigger] slots@[i]),
    ensures
        final(st).inv(),
        final(st).evolved_from(*old(st)),
        final(st).slot_map@ == old(st).slot_map@,
        final(st).type_ops@ == old(st).type_ops@,
        r@.len() == slots@.len(),
        forall|i: int| 0 <= i < slots@.len() ==> final(st).ctx.has(#[trigger] r@[i]) && final(st).tt(r@[i]) == final(st).tm(slots@[i]),
{
    let ghost s0 = *st;
    proof {
        MirTypeInference::lemma_evolved_refl(s0);
    }
    let mut r: Vec<TypeId> = Vec::new();
    let mut i: usize = 0;
    while i < slots.len()
        invariant
            i <= slots@.len(),
            s0 == *old(st),
            st.inv(),
            st.evolved_from(s0),
            st.slot_map@ == s0.slot_map@,
            st.type_ops@ == s0.type_ops@,
            forall|j: int| 0 <= j < slots@.len() ==> st.known(#[trigger] slots@[j]),
            r@.len() == i,
            forall|j: int| 0 <= j < i ==> st.ctx.has(#[trigger] r@[j]) && st.tt(r@[j]) == st.tm(slots@[j]),
        decreases slots.len() - i,
    {
        let ghost sp = *st;
        let t = slot_type(st, loc, slots[i]);
        proof {
            MirTypeInference::lemma_evolved_trans(s0, sp, *st);
            assert forall|j: int| 0 <= j < i implies st.ctx.has(#[trigger] r@[j]) && st.tt(r@[j]) == st.tm(slots@[j]) by {
                MirTypeInference::keep_ts(sp, *st, r@[j], slots@[j]);
            }
        }
        r.push(t);
        i += 1;
    }
    r
}

/// A tuple's type lists the types of its fields.
fn check_tuple(st: &mut MirTypeInference, loc: NodeId, tuple: &Tuple) -> (r: Result<(), RHDLError>)
    requires
        old(st).inv(),
        old(st).known(tuple.lhs),
        forall|i: int| 0 <= i < tuple.fields@.len() ==> old(st).known(#[trigger] tuple.fields@[i]),
    ensures
        final(st).inv(),
        final(st).evolved_from(*old(st)),
        final(st).slot_map@ == old(st).slot_map@,
        final(st).type_ops@ == old(st).type_ops@,
        r is Ok ==> clock_rule(*final(st), OpCode::Tuple(*tuple)),
        r matches Err(e) ==> clock_check_error(e),
{
    let ghost s0 = *st;
    let lhs = slot_type(st, loc, tuple.lhs);
    let ghost s1 = *st;
    let tys = slot_types(st, loc, &tuple.fields);
    let ghost s2 = *st;
    let ghost ts = tys@;
    proof {
        MirTypeInference::lemma_evolved_trans(s0, s1, s2);
        MirTypeInference::keep_ts(s1, s2, lhs, tuple.lhs);
    }
    let lhs_ty = st.ctx.ty_tuple(loc, tys);
    proof {
        MirTypeInference::lemma_grew(s2, *st);
        MirTypeInference::lemma_evolved_trans(s0, s2, *st);
        MirTypeInference::keep_ts(s2, *st, lhs, tuple.lhs);
    }
    let ghost s3 = *st;
    let ok = unify_types(st, lhs, lhs_ty);
    proof {
        let f = *st;
        MirTypeInference::lemma_evolved_trans(s0, s3, f);
        MirTypeInference::lemma_evolved_trans(s2, s3, f);
        if ok {
            MirTypeInference::keep_ts(s3, f, lhs, tuple.lhs);
            MirTypeInference::keep_node(s3, f, lhs_ty);
            assert(app_of(f.ctx, lhs_ty, Shape::Tuple, tuple.fields@.len()));
            assert forall|j: int| 0 <= j < tuple.fields@.len() implies f.known(#[trigger] tuple.fields@[j]) && f.tm(
                tuple.fields@[j],
            ) == f.tt(arg_of(f.ctx, lhs_ty, j)) by {
                assert(arg_of(f.ctx, lhs_ty, j) == ts[j]);
                MirTypeInference::keep_ts(s2, f, ts[j], tuple.fields@[j]);
            }
            assert(f.tm(tuple.lhs) == f.tt(lhs_ty));
        }
    }
    if !ok {
        return Err(clock_error(ClockError::TupleClockMismatch, vec![tuple.lhs], loc));
    }
    Ok(())
}

/// Each field value has the type of its member of the struct.
fn check_struct(st: &mut MirTypeInference, loc: NodeId, x: &Struct) -> (r: Result<(), RHDLError>)
    requires
        old(st).inv(),
        old(st).known(x.lhs),
        forall|i: int| 0 <= i < x.fields@.len() ==> old(st).known((#[trigger] x.fields@[i]).value),
    ensures
        final(st).inv(),
        final(st).evolved_from(*old(st)),
        final(st).slot_map@ == old(st).slot_map@,
        final(st).type_ops@ == old(st).type_ops@,
        r matches Err(e) ==> clock_check_error(e),
{
    let ghost s0 = *st;
    let ty_lhs = slot_type(st, loc, x.lhs);
    let mut i: usize = 0;
    while i < x.fields.len()
        invariant
            i <= x.fields@.len(),
            s0 == *old(st),
            st.inv(),
            st.evolved_from(s0),
            st.slot_map@ == s0.slot_map@,
            st.type_ops@ == s0.type_ops@,
            st.ctx.has(ty_lhs),
            forall|j: int| 0 <= j < x.fields@.len() ==> st.known((#[trigger] x.fields@[j]).value),
        decreases x.fields.len() - i,
    {
        let ghost sa = *st;
        let ty_rhs = slot_type(st, loc, x.fields[i].value);
        proof {
            MirTypeInference::lemma_evolved_trans(s0, sa, *st);
            MirTypeInference::keep_node(sa, *st, ty_lhs);
        }
        let field = match &x.fields[i].member {
            Member::Named(n) => st.ctx.ty_field(ty_lhs, n.as_str()),
            Member::Unnamed(k) => st.ctx.ty_index(ty_lhs, *k as usize),
        };
        let ty_field = match field {
            Ok(t) => t,
            Err(cause) => {
                return Err(RHDLError::TypeInference { cause });
            },
        };
        let ghost sb = *st;
        let ok = unify_types(st, ty_field, ty_rhs);
        proof {
            MirTypeInference::lemma_evolved_trans(s0, sb, *st);
            MirTypeInference::keep_node(sb, *st, ty_lhs);
        }
        if !ok {
            return Err(clock_error(ClockError::StructClockMismatch, vec![x.lhs, x.fields[i].value], loc));
        }
        i += 1;
    }
    Ok(())
}

/// The discriminant's domains hold the result, every tested value and every
/// result of the table.
fn check_case(st: &mut MirTypeInference, loc: NodeId, c: &Case) -> (r: Result<(), RHDLError>)
    requires
        old(st).inv(),
        old(st).known(c.lhs),
        old(st).known(c.discriminant),
        forall|i: int|
            0 <= i < c.table@.len() ==> old(st).known((#[trigger] c.table@[i]).1) && (c.table@[i].0 matches CaseArgument::Slot(s)
                ==> old(st).known(s)),
    ensures
        final(st).inv(),
        final(st).evolved_from(*old(st)),
        final(st).slot_map@ == old(st).slot_map@,
        final(st).type_ops@ == old(st).type_ops@,
        r matches Err(e) ==> clock_check_error(e),
{
    let ghost s0 = *st;
    unify_projected_clocks(st, c.discriminant, c.lhs, loc, ClockError::CaseClockMismatch)?;
    let mut i: usize = 0;
    while i < c.table.len()
        invariant
            i <= c.table@.len(),
            s0 == *old(st),
            st.inv(),
            st.evolved_from(s0),
            st.slot_map@ == s0.slot_map@,
            st.type_ops@ == s0.type_ops@,
            st.known(c.discriminant),
            forall|j: int|
                0 <= j < c.table@.len() ==> st.known((#[trigger] c.table@[j]).1) && (c.table@[j].0 matches CaseArgument::Slot(s)
                    ==> st.known(s)),
        decreases c.table.len() - i,
    {
        let ghost sa = *st;
        let res = unify_projected_clocks(st, c.discriminant, c.table[i].1, loc, ClockError::CaseClockMismatch);
        proof {
            MirTypeInference::lemma_evolved_trans(s0, sa, *st);
        }
        res?;
        if let CaseArgument::Slot(s) = c.table[i].0 {
            let ghost sb = *st;
            let res = unify_projected_clocks(st, c.discriminant, s, loc, ClockError::CaseClockMismatch);
            proof {
                MirTypeInference::lemma_evolved_trans(s0, sb, *st);
            }
            res?;
        }
        i += 1;
    }
    Ok(())
}

/// The result and the arguments of a call have the domains the called
/// function's kinds give them (arguments beyond the shorter list are not
/// matched).
fn check_exec(st: &mut MirTypeInference, obj: &Object, loc: NodeId, e: &Exec) -> (r: Result<(), RHDLError>)
    requires
        old(st).inv(),
        old(st).known(e.lhs),
        forall|i: int| 0 <= i < e.args@.len() ==> old(st).known(#[trigger] e.args@[i]),
        e.id.0 < obj.externals@.len(),
        obj.externals@[e.id.0 as int].slot_kind(obj.externals@[e.id.0 as int].return_slot) is Some,
        forall|i: int|
            0 <= i < obj.externals@[e.id.0 as int].arguments@.len() ==> obj.externals@[e.id.0 as int].slot_kind(
                Slot::Register(#[trigger] obj.externals@[e.id.0 as int].arguments@[i]),
            ) is Some,
    ensures
        final(st).inv(),
        final(st).evolved_from(*old(st)),
        final(st).slot_map@ == old(st).slot_map@,
        final(st).type_ops@ == old(st).type_ops@,
        r matches Err(e) ==> clock_check_error(e),
{
    let ghost s0 = *st;
    let sub = &obj.externals[e.id.0];
    let ret_kind = sub.kind(sub.return_slot);
    let res = import_kind_with_unknown_domains(&mut st.ctx, loc, &ret_kind);
    proof {
        MirTypeInference::lemma_grew(s0, *st);
    }
    let ret_ty = res?;
    let ghost s1 = *st;
    let lhs_ty = slot_type(st, loc, e.lhs);
    proof {
        MirTypeInference::lemma_evolved_trans(s0, s1, *st);
        MirTypeInference::keep_node(s1, *st, ret_ty);
    }
    let ghost s2 = *st;
    let ok = unify_types(st, ret_ty, lhs_ty);
    proof {
        MirTypeInference::lemma_evolved_trans(s0, s2, *st);
    }
    if !ok {
        return Err(clock_error(ClockError::ExternalClockMismatch, vec![e.lhs], loc));
    }
    let mut i: usize = 0;
    while i < sub.arguments.len() && i < e.args.len()
        invariant
            s0 == *old(st),
            st.inv(),
            st.evolved_from(s0),
            st.slot_map@ == s0.slot_map@,
            st.type_ops@ == s0.type_ops@,
            forall|j: int| 0 <= j < e.args@.len() ==> st.known(#[trigger] e.args@[j]),
            forall|j: int| 0 <= j < sub.arguments@.len() ==> sub.slot_kind(Slot::Register(#[trigger] sub.arguments@[j])) is Some,
        decreases e.args.len() - i,
    {
        let kind = sub.kind(Slot::Register(sub.arguments[i]));
        let ghost sa = *st;
        let res = import_kind_with_unknown_domains(&mut st.ctx, loc, &kind);
        proof {
            MirTypeInference::lemma_grew(sa, *st);
            MirTypeInference::lemma_evolved_trans(s0, sa, *st);
        }
        let arg_ty = res?;
        let ghost sb = *st;
        let slot_ty = slot_type(st, loc, e.args[i]);
        proof {
            MirTypeInference::lemma_evolved_trans(s0, sb, *st);
            MirTypeInference::keep_node(sb, *st, arg_ty);
        }
        let ghost sc = *st;
        let ok = unify_types(st, arg_ty, slot_ty);
        proof {
            MirTypeInference::lemma_evolved_trans(s0, sc, *st);
        }
        if !ok {
            return Err(clock_error(ClockError::ExternalClockMismatch, vec![e.args[i]], loc));
        }
        i += 1;
    }
    Ok(())
}

/// The opcode is a copy, a cast, a negation or complement, a select or a
/// binary operation whose slots have the types of values on one clock alone
/// (the result and the first operand of a comparison, and the condition and
/// result of a select, not being the empty slot), or has no rule.
pub open spec fn simple_clock_op(st: MirTypeInference, op: OpCode) -> bool {
    match op {
        OpCode::Assign(a) => exists|c: Color| #[trigger] pair_on_clock(st, a.rhs, a.lhs, c),
        OpCode::Binary(b) => (!is_comparison_op(b.op) || (!(b.arg1 is Empty) && !(b.lhs is Empty))) && exists|c: Color|
            #[trigger] triple_on_clock(st, b.arg1, b.arg2, b.lhs, c),
        OpCode::Select(x) => !(x.cond is Empty) && !(x.lhs is Empty) && exists|c: Color| #[trigger] select_on_clock(st, x, c),
        OpCode::Unary(u) => (u.op is Neg || u.op is Not) && exists|c: Color| #[trigger] pair_on_clock(st, u.arg1, u.lhs, c),
        OpCode::AsBits(x) => exists|c: Color| #[trigger] pair_on_clock(st, x.arg, x.lhs, c),
        OpCode::AsSigned(x) => exists|c: Color| #[trigger] pair_on_clock(st, x.arg, x.lhs, c),
        OpCode::Resize(x) => exists|c: Color| #[trigger] pair_on_clock(st, x.arg, x.lhs, c),
        OpCode::Noop => true,
        OpCode::Comment(_) => true,
        _ => false,
    }
}

/// Applies the clock rule of one opcode.
fn check_op(st: &mut MirTypeInference, obj: &Object, lop: &LocatedOpCode) -> (r: Result<(), RHDLError>)
    requires
        old(st).inv(),
        tables_known(obj, *old(st)),
        op_present(obj, lop.op),
    ensures
        final(st).inv(),
        final(st).evolved_from(*old(st)),
        final(st).slot_map@ == old(st).slot_map@,
        final(st).type_ops@ == old(st).type_ops@,
        r is Ok ==> clock_rule(*final(st), lop.op),
        r matches Err(e) ==> clock_check_error(e),
        simple_clock_op(*old(st), lop.op) ==> final(st).ctx.vars() <= old(st).ctx.vars() + 1 && (old(st).ctx.vars() < u32::MAX
            ==> r is Ok),
{
    let loc = lop.id;
    match &lop.op {
        OpCode::Binary(b) => {
            proof {
                assert(st.known(b.lhs) && st.known(b.arg1) && st.known(b.arg2));
                if simple_clock_op(*st, lop.op) {
                    let c = choose|c: Color| #[trigger] triple_on_clock(*st, b.arg1, b.arg2, b.lhs, c);
                    assert(triple_on_clock(*st, b.arg1, b.arg2, b.lhs, c));
                }
            }
            check_binary(st, loc, b)
        },
        OpCode::Unary(u) => {
            proof {
                assert(st.known(u.lhs) && st.known(u.arg1));
                if simple_clock_op(*st, lop.op) {
                    let k = choose|k: Color| #[trigger] pair_on_clock(*st, u.arg1, u.lhs, k);
                    assert(pair_on_clock(*st, u.arg1, u.lhs, k));
                }
            }
            match u.op {
                AluUnary::Neg | AluUnary::Not => check_same(st, loc, u.arg1, u.lhs, ClockError::UnaryOperationClockMismatch { op: u.op }),
                _ => unify_projected_clocks(st, u.arg1, u.lhs, loc, ClockError::UnaryOperationClockMismatch { op: u.op }),
            }
        },
        OpCode::Assign(a) => {
            proof {
                assert(st.known(a.lhs) && st.known(a.rhs));
                if simple_clock_op(*st, lop.op) {
                    let c = choose|c: Color| #[trigger] pair_on_clock(*st, a.rhs, a.lhs, c);
                    assert(pair_on_clock(*st, a.rhs, a.lhs, c));
                }
            }
            check_same(st, loc, a.rhs, a.lhs, ClockError::AssignmentClockMismatch)
        },
        OpCode::AsBits(c) => {
            proof {
                assert(st.known(c.lhs) && st.known(c.arg));
                if simple_clock_op(*st, lop.op) {
                    let k = choose|k: Color| #[trigger] pair_on_clock(*st, c.arg, c.lhs, k);
                    assert(pair_on_clock(*st, c.arg, c.lhs, k));
                }
            }
            check_same(st, loc, c.arg, c.lhs, ClockError::CastClockMismatch)
        },
        OpCode::AsSigned(c) => {
            proof {
                assert(st.known(c.lhs) && st.known(c.arg));
                if simple_clock_op(*st, lop.op) {
                    let k = choose|k: Color| #[trigger] pair_on_clock(*st, c.arg, c.lhs, k);
                    assert(pair_on_clock(*st, c.arg, c.lhs, k));
                }
            }
            check_same(st, loc, c.arg, c.lhs, ClockError::CastClockMismatch)
        },
        OpCode::Resize(c) => {
            proof {
                assert(st.known(c.lhs) && st.known(c.arg));
                if simple_clock_op(*st, lop.op) {
                    let k = choose|k: Color| #[trigger] pair_on_clock(*st, c.arg, c.lhs, k);
                    assert(pair_on_clock(*st, c.arg, c.lhs, k));
                }
            }
            check_same(st, loc, c.arg, c.lhs, ClockError::CastClockMismatch)
        },
        OpCode::Retime(x) => {
            proof {
                assert(st.known(x.lhs) && st.known(x.arg));
            }
            check_same(st, loc, x.arg, x.lhs, ClockError::RetimeClockMismatch)
        },
        OpCode::Select(x) => {
            proof {
                assert(st.known(x.lhs) && st.known(x.cond) && st.known(x.true_value) && st.known(x.false_value));
                if simple_clock_op(*st, lop.op) {
                    let c = choose|c: Color| #[trigger] select_on_clock(*st, *x, c);
                    assert(select_on_clock(*st, *x, c));
                }
            }
            check_select(st, loc, x)
        },
        OpCode::Wrap(w) => {
            proof {
                assert(st.known(w.lhs) && st.known(w.arg));
            }
            unify_projected_clocks(st, w.lhs, w.arg, loc, ClockError::WrapClockMismatch)
        },
        OpCode::Index(x) => {
            proof {
                assert(st.known(x.lhs) && st.known(x.arg));
                assert forall|k: int| 0 <= k < x.path@.len() implies ((#[trigger] x.path@[k]) matches PathElementView::DynamicIndex(
                    s,
                ) ==> st.known(s)) by {
                    if let PathElementView::DynamicIndex(s) = x.path@[k] {
                        assert(present(obj, s));
                    }
                }
            }
            check_index(st, loc, x)
        },
        OpCode::Splice(x) => {
            proof {
                assert(st.known(x.lhs) && st.known(x.orig) && st.known(x.subst));
                assert forall|k: int| 0 <= k < x.path@.len() implies ((#[trigger] x.path@[k]) matches PathElementView::DynamicIndex(
                    s,
                ) ==> st.known(s)) by {
                    if let PathElementView::DynamicIndex(s) = x.path@[k] {
                        assert(present(obj, s));
                    }
                }
            }
            check_splice(st, loc, x)
        },
        OpCode::Array(a) => {
            proof {
                assert(st.known(a.lhs));
                assert forall|i: int| 0 <= i < a.elements@.len() implies st.known(#[trigger] a.elements@[i]) by {
                    assert(present(obj, a.elements@[i]));
                }
            }
            check_array(st, loc, a)
        },
        OpCode::Repeat(x) => {
            proof {
                assert(st.known(x.lhs) && st.known(x.value));
            }
            check_repeat(st, loc, x)
        },
        OpCode::Struct(x) => {
            proof {
                assert(st.known(x.lhs));
                assert forall|i: int| 0 <= i < x.fields@.len() implies st.known((#[trigger] x.fields@[i]).value) by {
                    assert(present(obj, x.fields@[i].value));
                }
            }
            check_struct(st, loc, x)
        },
        OpCode::Tuple(t) => {
            proof {
                assert(st.known(t.lhs));
                assert forall|i: int| 0 <= i < t.fields@.len() implies st.known(#[trigger] t.fields@[i]) by {
                    assert(present(obj, t.fields@[i]));
                }
            }
            check_tuple(st, loc, t)
        },
        OpCode::Case(c) => {
            proof {
                assert(st.known(c.lhs) && st.known(c.discriminant));
                assert forall|i: int|
                    0 <= i < c.table@.len() implies st.known((#[trigger] c.table@[i]).1) && (c.table@[i].0 matches CaseArgument::Slot(
                    s,
                ) ==> st.known(s)) by {
                    assert(present(obj, c.table@[i].1));
                    if let CaseArgument::Slot(s) = c.table@[i].0 {
                        assert(present(obj, s));
                    }
                }
            }
            check_case(st, loc, c)
        },
        OpCode::Exec(e) => {
            proof {
                assert(st.known(e.lhs));
                assert forall|i: int| 0 <= i < e.args@.len() implies st.known(#[trigger] e.args@[i]) by {
                    assert(present(obj, e.args@[i]));
                }
            }
            check_exec(st, obj, loc, e)
        },
        OpCode::Comment(_) | OpCode::Noop => {
            proof {
                MirTypeInference::lemma_evolved_refl(*st);
            }
            Ok(())
        },
    }
}

/// The object's values are in coherent clock domains: every present literal
/// and register has a type that is not a bare variable (its domain was
/// found), and the clock rule of every opcode holds.
pub open spec fn clock_coherent(obj: &Object, st: MirTypeInference) -> bool {
    &&& st.inv()
    &&& forall|s: Slot| present(obj, s) && !(s is Empty) ==> #[trigger] st.known(s) && !(st.tm(s) is Var)
    &&& forall|i: int| 0 <= i < obj.ops@.len() ==> clock_rule(st, #[trigger] obj.ops@[i].op)
}

/// A clock-coherent object keeps the clock domains of every index: the
/// result of an index has the type, and so the clock domains, of the part of
/// the argument its path selects.
pub proof fn law_index_keeps_clock_domains(obj: &Object, st: MirTypeInference)
    requires
        clock_coherent(obj, st),
    ensures
        forall|i: int|
            0 <= i < obj.ops@.len() && (#[trigger] obj.ops@[i]).op is Index ==> index_typed(
                st,
                obj.ops@[i].op->Index_0.arg,
                obj.ops@[i].op->Index_0.path@,
                obj.ops@[i].op->Index_0.lhs,
            ),
{
    assert forall|i: int| 0 <= i < obj.ops@.len() && (#[trigger] obj.ops@[i]).op is Index implies index_typed(
        st,
        obj.ops@[i].op->Index_0.arg,
        obj.ops@[i].op->Index_0.path@,
        obj.ops@[i].op->Index_0.lhs,
    ) by {
        assert(clock_rule(st, obj.ops@[i].op));
    }
}

/// Growing the context keeps the type of every slot.
proof fn lemma_grown_terms(s0: MirTypeInference, st: MirTypeInference)
    requires
        s0.inv(),
        st.ctx.wf(),
        st.ctx.grows_from(s0.ctx),
        st.slot_map@ == s0.slot_map@,
    ensures
        forall|s: Slot| #[trigger] s0.known(s) ==> st.known(s) && st.tm(s) == s0.tm(s),
{
    assert forall|s: Slot| #[trigger] s0.known(s) implies st.known(s) && st.tm(s) == s0.tm(s) by {
        if !(s is Empty) {
            st.ctx.lemma_grows_keeps_terms(s0.ctx, s0.sty(s));
        }
    }
}

/// Reports the first present literal, then register, whose type is still a
/// bare variable (at node 0, as the object keeps no source nodes).
fn check_resolved(st: &mut MirTypeInference, obj: &Object) -> (r: Result<(), RHDLError>)
    requires
        old(st).inv(),
        tables_known(obj, *old(st)),
    ensures
        final(st).inv(),
        final(st).evolved_from(*old(st)),
        final(st).slot_map@ == old(st).slot_map@,
        final(st).type_ops@ == old(st).type_ops@,
        forall|s: Slot| #[trigger] old(st).known(s) ==> final(st).known(s) && final(st).tm(s) == old(st).tm(s),
        r is Ok <==> forall|s: Slot| present(obj, s) && !(s is Empty) ==> !(#[trigger] old(st).tm(s) is Var),
        r matches Err(e) ==> clock_check_error(e),
{
    let ghost s0 = *st;
    proof {
        UnifyContext::lemma_grows_refl(s0.ctx);
    }
    let mut i: usize = 0;
    while i < obj.literals.len()
        invariant
            i <= obj.literals@.len(),
            s0 == *old(st),
            s0.inv(),
            tables_known(obj, s0),
            st.inv(),
            st.ctx.grows_from(s0.ctx),
            st.ctx.subst() == s0.ctx.subst(),
            st.slot_map@ == s0.slot_map@,
            st.type_ops@ == s0.type_ops@,
            forall|j: int| 0 <= j < i && obj.literals@[j] is Some ==> !(#[trigger] s0.tm(Slot::Literal(LiteralId(j as usize))) is Var),
        decreases obj.literals.len() - i,
    {
        if obj.literals[i].is_some() {
            let s = Slot::Literal(LiteralId(i));
            proof {
                assert(present(obj, s));
                assert(s0.known(s));
                st.ctx.lemma_grows_keeps_terms(s0.ctx, s0.sty(s));
            }
            let t = st.slot_map[find_slot(&st.slot_map, s).unwrap()].1;
            let ghost sp = *st;
            let unresolved = st.ctx.is_unresolved(t);
            proof {
                UnifyContext::lemma_grows_trans(s0.ctx, sp.ctx, st.ctx);
                MirTypeInference::lemma_grew(sp, *st);
            }
            if unresolved {
                proof {
                    MirTypeInference::lemma_grew(s0, *st);
                    lemma_grown_terms(s0, *st);
                }
                return Err(clock_error(ClockError::UnresolvedClock, vec![s], obj.symbols.fallback));
            }
        }
        i += 1;
    }
    let mut k: usize = 0;
    while k < obj.kind.len()
        invariant
            k <= obj.kind@.len(),
            s0 == *old(st),
            s0.inv(),
            tables_known(obj, s0),
            st.inv(),
            st.ctx.grows_from(s0.ctx),
            st.ctx.subst() == s0.ctx.subst(),
            st.slot_map@ == s0.slot_map@,
            st.type_ops@ == s0.type_ops@,
            forall|j: int|
                0 <= j < obj.literals@.len() && obj.literals@[j] is Some ==> !(#[trigger] s0.tm(Slot::Literal(LiteralId(j as usize))) is Var),
            forall|j: int| 0 <= j < k && obj.kind@[j] is Some ==> !(#[trigger] s0.tm(Slot::Register(RegisterId(j as usize))) is Var),
        decreases obj.kind.len() - k,
    {
        if obj.kind[k].is_some() {
            let s = Slot::Register(RegisterId(k));
            proof {
                assert(present(obj, s));
                assert(s0.known(s));
                st.ctx.lemma_grows_keeps_terms(s0.ctx, s0.sty(s));
            }
            let t = st.slot_map[find_slot(&st.slot_map, s).unwrap()].1;
            let ghost sp = *st;
            let unresolved = st.ctx.is_unresolved(t);
            proof {
                UnifyContext::lemma_grows_trans(s0.ctx, sp.ctx, st.ctx);
                MirTypeInference::lemma_grew(sp, *st);
            }
            if unresolved {
                proof {
                    MirTypeInference::lemma_grew(s0, *st);
                    lemma_grown_terms(s0, *st);
                }
                return Err(clock_error(ClockError::UnresolvedClock, vec![s], obj.symbols.fallback));
            }
        }
        k += 1;
    }
    proof {
        MirTypeInference::lemma_grew(s0, *st);
        lemma_grown_terms(s0, *st);
        assert forall|s: Slot| present(obj, s) && !(s is Empty) implies !(#[trigger] s0.tm(s) is Var) by {
            match s {
                Slot::Literal(l) => {
                    assert(!(s0.tm(Slot::Literal(LiteralId(l.0 as int as usize))) is Var));
                },
                Slot::Register(r) => {
                    assert(!(s0.tm(Slot::Register(RegisterId(r.0 as int as usize))) is Var));
                },
                Slot::Empty => {},
            }
        }
    }
    Ok(())
}

/// Every present value is a scalar signal, every opcode is a copy, a cast, a
/// negation or complement, a select, or a binary operation between values on
/// the same clock, or has no rule, and there are fewer opcodes than variable
/// numbers.
pub open spec fn simple_clock_program(obj: &Object) -> bool {
    &&& all_scalar_signals(obj)
    &&& obj.ops@.len() < u32::MAX
    &&& forall|i: int|
        0 <= i < obj.ops@.len() ==> match (#[trigger] obj.ops@[i]).op {
            OpCode::Assign(a) => !(a.lhs is Empty) && !(a.rhs is Empty) && obj.slot_kind(a.lhs)->Some_0->Signal_1 == obj.slot_kind(
                a.rhs,
            )->Some_0->Signal_1,
            OpCode::Binary(b) => !(b.lhs is Empty) && !(b.arg1 is Empty) && !(b.arg2 is Empty)
                && obj.slot_kind(b.arg1)->Some_0->Signal_1 == obj.slot_kind(b.lhs)->Some_0->Signal_1 && obj.slot_kind(
                b.arg2,
            )->Some_0->Signal_1 == obj.slot_kind(b.lhs)->Some_0->Signal_1,
            OpCode::Select(x) => same_clock(obj, x.cond, x.lhs) && same_clock(obj, x.true_value, x.lhs) && same_clock(
                obj,
                x.false_value,
                x.lhs,
            ),
            OpCode::Unary(u) => (u.op is Neg || u.op is Not) && same_clock(obj, u.arg1, u.lhs),
            OpCode::AsBits(x) => same_clock(obj, x.arg, x.lhs),
            OpCode::AsSigned(x) => same_clock(obj, x.arg, x.lhs),
            OpCode::Resize(x) => same_clock(obj, x.arg, x.lhs),
            OpCode::Noop => true,
            OpCode::Comment(_) => true,
            _ => false,
        }
}

/// Two values of the object, neither the empty slot, are on the same clock.
pub open spec fn same_clock(obj: &Object, a: Slot, b: Slot) -> bool {
    !(a is Empty) && !(b is Empty) && obj.slot_kind(a)->Some_0->Signal_1 == obj.slot_kind(b)->Some_0->Signal_1
}

/// Checks the clock domains of an object: imports each literal and register
/// with its kind's domains, applies the clock rule of each opcode in order,
/// and fails on the first conflict or on a value whose domain stays unknown.
pub fn check_clock_coherence(obj: &Object) -> (r: Result<(), RHDLError>)
    requires
        clock_ready(obj),
    ensures
        r is Ok ==> exists|st: MirTypeInference| clock_coherent(obj, st),
        r matches Err(e) ==> clock_check_error(e),
        obj.ops@.len() == 0 && all_signals(obj) ==> r is Ok,
        simple_clock_program(obj) ==> r is Ok,
{
    let mut st = MirTypeInference::new();
    let ghost s_new = st;
    import_tables(&mut st, obj)?;
    let ghost s_imp = st;
    proof {
        MirTypeInference::lemma_evolved_refl(s_imp);
    }
    let mut i: usize = 0;
    while i < obj.ops.len()
        invariant
            i <= obj.ops@.len(),
            clock_ready(obj),
            tables_known(obj, s_imp),
            st.inv(),
            st.slot_map@ == s_imp.slot_map@,
            i == 0 ==> st == s_imp,
            forall|j: int| 0 <= j < i ==> clock_rule(st, #[trigger] obj.ops@[j].op),
            simple_clock_program(obj) ==> st.ctx.vars() <= i,
            simple_clock_program(obj) ==> forall|s: Slot|
                present(obj, s) && !(s is Empty) ==> #[trigger] st.tm(s) == signal_clock(obj.slot_kind(s)->Some_0),
        decreases obj.ops.len() - i,
    {
        let ghost sp = st;
        proof {
            assert forall|s: Slot| obj.slot_kind(s) is Some implies #[trigger] sp.known(s) by {
                assert(s_imp.known(s));
            }
            assert(op_present(obj, obj.ops@[i as int].op));
            if simple_clock_program(obj) {
                if let OpCode::Assign(a) = obj.ops@[i as int].op {
                    let c = obj.slot_kind(a.lhs)->Some_0->Signal_1;
                    assert(present(obj, a.lhs) && present(obj, a.rhs));
                    assert(sp.tm(a.lhs) == signal_clock(obj.slot_kind(a.lhs)->Some_0));
                    assert(sp.tm(a.rhs) == signal_clock(obj.slot_kind(a.rhs)->Some_0));
                    assert(on_clock(sp, seq![a.rhs, a.lhs], c));
                    assert(pair_on_clock(sp, a.rhs, a.lhs, c));
                }
                if let OpCode::Binary(b) = obj.ops@[i as int].op {
                    let c = obj.slot_kind(b.lhs)->Some_0->Signal_1;
                    assert(present(obj, b.lhs) && present(obj, b.arg1) && present(obj, b.arg2));
                    assert(sp.tm(b.lhs) == signal_clock(obj.slot_kind(b.lhs)->Some_0));
                    assert(sp.tm(b.arg1) == signal_clock(obj.slot_kind(b.arg1)->Some_0));
                    assert(sp.tm(b.arg2) == signal_clock(obj.slot_kind(b.arg2)->Some_0));
                    assert(on_clock(sp, seq![b.arg1, b.arg2, b.lhs], c));
                    assert(triple_on_clock(sp, b.arg1, b.arg2, b.lhs, c));
                }
                if let OpCode::Select(x) = obj.ops@[i as int].op {
                    let c = obj.slot_kind(x.lhs)->Some_0->Signal_1;
                    assert(present(obj, x.lhs) && present(obj, x.cond) && present(obj, x.true_value) && present(obj, x.false_value));
                    assert(sp.tm(x.lhs) == signal_clock(obj.slot_kind(x.lhs)->Some_0));
                    assert(sp.tm(x.cond) == signal_clock(obj.slot_kind(x.cond)->Some_0));
                    assert(sp.tm(x.true_value) == signal_clock(obj.slot_kind(x.true_value)->Some_0));
                    assert(sp.tm(x.false_value) == signal_clock(obj.slot_kind(x.false_value)->Some_0));
                    assert(on_clock(sp, seq![x.cond, x.lhs, x.true_value, x.false_value], c));
                    assert(select_on_clock(sp, x, c));
                }
                let ghost pair: Option<(Slot, Slot)> = match obj.ops@[i as int].op {
                    OpCode::Unary(u) => Some((u.arg1, u.lhs)),
                    OpCode::AsBits(x) => Some((x.arg, x.lhs)),
                    OpCode::AsSigned(x) => Some((x.arg, x.lhs)),
                    OpCode::Resize(x) => Some((x.arg, x.lhs)),
                    _ => None,
                };
                if let Some((x, y)) = pair {
                    let c = obj.slot_kind(y)->Some_0->Signal_1;
                    assert(present(obj, x) && present(obj, y));
                    assert(sp.tm(x) == signal_clock(obj.slot_kind(x)->Some_0));
                    assert(sp.tm(y) == signal_clock(obj.slot_kind(y)->Some_0));
                    assert(on_clock(sp, seq![x, y], c));
                    assert(pair_on_clock(sp, x, y, c));
                }
                assert(simple_clock_op(sp, obj.ops@[i as int].op));
            }
        }
        check_op(&mut st, obj, &obj.ops[i])?;
        proof {
            if simple_clock_program(obj) {
                assert forall|s: Slot| present(obj, s) && !(s is Empty) implies #[trigger] st.tm(s) == signal_clock(
                    obj.slot_kind(s)->Some_0,
                ) by {
                    assert(sp.tm(s) == signal_clock(obj.slot_kind(s)->Some_0));
                    assert(crate::compiler::mir::ty::ground(signal_clock(obj.slot_kind(s)->Some_0)));
                    MirTypeInference::keep_ground_slot(sp, st, s);
                }
            }
            assert forall|j: int| 0 <= j < i + 1 implies clock_rule(st, #[trigger] obj.ops@[j].op) by {
                if j < i {
                    keep_clock_rule(sp, st, obj.ops@[j].op);
                }
            }
        }
        i += 1;
    }
    let ghost sp = st;
    proof {
        assert forall|s: Slot| obj.slot_kind(s) is Some implies #[trigger] sp.known(s) by {
            assert(s_imp.known(s));
        }
    }
    check_resolved(&mut st, obj)?;
    proof {
        assert forall|j: int| 0 <= j < obj.ops@.len() implies clock_rule(st, #[trigger] obj.ops@[j].op) by {
            keep_clock_rule(sp, st, obj.ops@[j].op);
        }
        assert forall|s: Slot| present(obj, s) && !(s is Empty) implies #[trigger] st.known(s) && !(st.tm(s) is Var) by {
            assert(sp.known(s));
            assert(!(sp.tm(s) is Var));
        }
        assert(clock_coherent(obj, st));
    }
    Ok(())
}

impl CheckClockCoherence {
    pub fn name() -> (r: &'static str)
        ensures
            r@ == "check_clock_coherence"@,
    {
        "check_clock_coherence"
    }

    /// Hands the object back unchanged when its clock domains are coherent.
    pub fn run(input: Object) -> (r: Result<Object, RHDLError>)
        requires
            clock_ready(&input),
        ensures
            r matches Ok(out) ==> out == input && exists|st: MirTypeInference| clock_coherent(&input, st),
            r matches Err(e) ==> clock_check_error(e),
            input.ops@.len() == 0 && all_signals(&input) ==> r is Ok,
            simple_clock_program(&input) ==> r is Ok,
    {
        match check_clock_coherence(&input) {
            Ok(()) => Ok(input),
            Err(e) => Err(e),
        }
    }
}

} // verus!
