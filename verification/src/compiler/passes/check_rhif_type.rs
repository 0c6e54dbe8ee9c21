use vstd::prelude::*;

use crate::ast::{Member, NodeId};
use crate::error::{RHDLError, ICE};
use crate::rhif::object::Object;
use crate::rhif::spec::{
    AluBinary, AluUnary, Case, CaseArgument, Exec, FieldValue, Index, LocatedOpCode, OpCode,
    RegisterId, Slot, Splice, Struct,
};
use crate::types::kind::{
    kind_eq, kinds_view, kv_bits, kv_bool, kv_bounded, kv_is_empty, kv_is_unsigned, kv_signal_data,
    lemma_kinds_view_index, lemma_kinds_view_len, Kind, KindView,
};
use crate::types::path::{
    fix_dynamic, kv_range, path_dynamic_slots, sub_kind, Path, PathElementView,
};

verus! {

/// Checks that every opcode of an object is applied to values of the kinds it
/// expects.  Clock domains are ignored: a signal is compared by the data it
/// carries.
#[derive(Debug)]
pub struct TypeCheckPass;

/// Model of the failure reported for an opcode that does not type check.
pub enum TypeFault {
    /// The two (signal-stripped) kinds differ.
    Mismatch(KindView, KindView),
    ShiftNeedsUnsigned,
    SignedNeedsUnsigned,
    UnsignedNeedsSigned,
    IndexNeedsUnsigned,
    ExpectedArray(KindView),
    PatternNotLiteral,
    ArgumentCount,
    MissingLength,
    /// A path that selects nothing in the kind it is applied to.
    InvalidPath,
}

/// The kind of a slot (`Empty` for the empty slot).
pub open spec fn slot_ty(obj: Object, s: Slot) -> KindView {
    obj.slot_kind(s)->Some_0
}

pub open spec fn slot_known(obj: Object, s: Slot) -> bool {
    obj.slot_ok(s)
}

/// Two kinds agree when both are empty, or when the data they carry (looking
/// through a signal) is the same.
pub open spec fn kinds_fault(a: KindView, b: KindView) -> Option<TypeFault> {
    if kv_is_empty(a) && kv_is_empty(b) {
        None
    } else if kv_signal_data(a) == kv_signal_data(b) {
        None
    } else {
        Some(TypeFault::Mismatch(kv_signal_data(a), kv_signal_data(b)))
    }
}

/// The first of two checks that fails.
pub open spec fn or_else(a: Option<TypeFault>, b: Option<TypeFault>) -> Option<TypeFault> {
    if a is Some {
        a
    } else {
        b
    }
}

/// A path with each run-time index replaced by index `0`: indexing at run time
/// does not change the kind found.
pub open spec fn approximate(p: Seq<PathElementView>) -> Seq<PathElementView> {
    p.map_values(|e: PathElementView| fix_dynamic(e, None))
}

/// The path element used to look up a struct member.
pub open spec fn member_step(m: Member) -> PathElementView {
    match m {
        Member::Named(n) => PathElementView::Field(n@),
        Member::Unnamed(i) => PathElementView::Index(i as nat),
    }
}

/// The entries of a case table, in order: each value has the kind of the
/// result, each pattern is a literal of the kind of the discriminant.
pub open spec fn case_fault(
    obj: Object,
    lhs: KindView,
    disc: KindView,
    t: Seq<(CaseArgument, Slot)>,
) -> Option<TypeFault>
    decreases t.len(),
{
    if t.len() == 0 {
        None
    } else {
        or_else(
            kinds_fault(lhs, slot_ty(obj, t[0].1)),
            or_else(
                match t[0].0 {
                    CaseArgument::Slot(s) => if s is Literal {
                        kinds_fault(disc, slot_ty(obj, s))
                    } else {
                        Some(TypeFault::PatternNotLiteral)
                    },
                    CaseArgument::Wild => None,
                },
                case_fault(obj, lhs, disc, t.drop_first()),
            ),
        )
    }
}

/// Each argument of a call has the kind of the matching parameter (as far as
/// both lists go).
pub open spec fn args_fault(obj: Object, sub: Object, args: Seq<Slot>, params: Seq<RegisterId>) -> Option<
    TypeFault,
>
    decreases args.len(),
{
    if args.len() == 0 || params.len() == 0 {
        None
    } else {
        or_else(
            kinds_fault(slot_ty(obj, args[0]), slot_ty(sub, Slot::Register(params[0]))),
            args_fault(obj, sub, args.drop_first(), params.drop_first()),
        )
    }
}

/// Each field of a struct value has the kind of the member it sets.
pub open spec fn fields_fault(obj: Object, ty: KindView, fs: Seq<FieldValue>) -> Option<TypeFault>
    decreases fs.len(),
{
    if fs.len() == 0 {
        None
    } else {
        or_else(
            match kv_range(ty, seq![member_step(fs[0].member)]) {
                Some((_, _, k)) => kinds_fault(slot_ty(obj, fs[0].value), k),
                None => Some(TypeFault::InvalidPath),
            },
            fields_fault(obj, ty, fs.drop_first()),
        )
    }
}

/// Every run-time index is unsigned.
pub open spec fn index_slots_fault(obj: Object, ss: Seq<Slot>) -> Option<TypeFault> {
    if exists|j: int| 0 <= j < ss.len() && !kv_is_unsigned(kv_signal_data(slot_ty(obj, #[trigger] ss[j]))) {
        Some(TypeFault::IndexNeedsUnsigned)
    } else {
        None
    }
}

/// The first type rule an opcode breaks, if any.
pub open spec fn op_fault(obj: Object, op: OpCode) -> Option<TypeFault> {
    match op {
        OpCode::Binary(b) => match b.op {
            AluBinary::Shl | AluBinary::Shr => or_else(
                kinds_fault(slot_ty(obj, b.lhs), slot_ty(obj, b.arg1)),
                if kv_is_unsigned(slot_ty(obj, b.arg2)) {
                    None
                } else {
                    Some(TypeFault::ShiftNeedsUnsigned)
                },
            ),
            AluBinary::Eq | AluBinary::Ne | AluBinary::Lt | AluBinary::Le | AluBinary::Gt
            | AluBinary::Ge => or_else(
                kinds_fault(slot_ty(obj, b.arg1), slot_ty(obj, b.arg2)),
                kinds_fault(slot_ty(obj, b.lhs), kv_bool()),
            ),
            _ => or_else(
                kinds_fault(slot_ty(obj, b.lhs), slot_ty(obj, b.arg1)),
                kinds_fault(slot_ty(obj, b.lhs), slot_ty(obj, b.arg2)),
            ),
        },
        OpCode::Unary(u) => match u.op {
            AluUnary::All | AluUnary::Any | AluUnary::Xor => kinds_fault(
                slot_ty(obj, u.lhs),
                kv_bool(),
            ),
            AluUnary::Signed => match slot_ty(obj, u.arg1) {
                KindView::Bits(x) => kinds_fault(slot_ty(obj, u.lhs), KindView::Signed(x)),
                _ => Some(TypeFault::SignedNeedsUnsigned),
            },
            AluUnary::Unsigned => match slot_ty(obj, u.arg1) {
                KindView::Signed(x) => kinds_fault(slot_ty(obj, u.lhs), KindView::Bits(x)),
                _ => Some(TypeFault::UnsignedNeedsSigned),
            },
            _ => kinds_fault(slot_ty(obj, u.lhs), slot_ty(obj, u.arg1)),
        },
        OpCode::Array(a) => kinds_fault(
            slot_ty(obj, a.lhs),
            KindView::Array(Box::new(slot_ty(obj, a.elements@[0])), a.elements@.len()),
        ),
        OpCode::Select(s) => or_else(
            kinds_fault(slot_ty(obj, s.lhs), slot_ty(obj, s.true_value)),
            or_else(
                kinds_fault(slot_ty(obj, s.lhs), slot_ty(obj, s.false_value)),
                kinds_fault(slot_ty(obj, s.cond), kv_bool()),
            ),
        ),
        OpCode::Assign(a) => kinds_fault(slot_ty(obj, a.lhs), slot_ty(obj, a.rhs)),
        OpCode::Splice(s) => match kv_range(slot_ty(obj, s.lhs), approximate(s.path@)) {
            Some((_, _, k)) => or_else(
                kinds_fault(k, slot_ty(obj, s.subst)),
                kinds_fault(slot_ty(obj, s.lhs), slot_ty(obj, s.orig)),
            ),
            None => Some(TypeFault::InvalidPath),
        },
        OpCode::Tuple(t) => kinds_fault(
            slot_ty(obj, t.lhs),
            KindView::Tuple(t.fields@.map_values(|s: Slot| slot_ty(obj, s))),
        ),
        OpCode::Index(x) => match kv_range(
            kv_signal_data(slot_ty(obj, x.arg)),
            approximate(x.path@),
        ) {
            Some((_, _, k)) => or_else(
                kinds_fault(k, slot_ty(obj, x.lhs)),
                index_slots_fault(obj, path_dynamic_slots(x.path@)),
            ),
            None => Some(TypeFault::InvalidPath),
        },
        OpCode::Struct(s) => or_else(
            kinds_fault(slot_ty(obj, s.lhs), s.template.kind@),
            or_else(
                match s.rest {
                    Some(r) => kinds_fault(slot_ty(obj, s.lhs), slot_ty(obj, r)),
                    None => None,
                },
                fields_fault(obj, slot_ty(obj, s.lhs), s.fields@),
            ),
        ),
        OpCode::Repeat(r) => match slot_ty(obj, r.lhs) {
            KindView::Array(b, _) => kinds_fault(
                slot_ty(obj, r.lhs),
                KindView::Array(b, (r.len as usize) as nat),
            ),
            k => Some(TypeFault::ExpectedArray(k)),
        },
        OpCode::Case(c) => case_fault(
            obj,
            slot_ty(obj, c.lhs),
            slot_ty(obj, c.discriminant),
            c.table@,
        ),
        OpCode::Exec(e) => {
            let sub = obj.externals@[e.id.0 as int];
            or_else(
                kinds_fault(slot_ty(obj, e.lhs), slot_ty(sub, sub.return_slot)),
                or_else(
                    args_fault(obj, sub, e.args@, sub.arguments@),
                    if e.args@.len() != sub.arguments@.len() {
                        Some(TypeFault::ArgumentCount)
                    } else {
                        None
                    },
                ),
            )
        },
        OpCode::AsBits(c) => match c.len {
            Some(n) => kinds_fault(slot_ty(obj, c.lhs), KindView::Bits(n as nat)),
            None => Some(TypeFault::MissingLength),
        },
        OpCode::AsSigned(c) => match c.len {
            Some(n) => kinds_fault(slot_ty(obj, c.lhs), KindView::Signed(n as nat)),
            None => Some(TypeFault::MissingLength),
        },
        OpCode::Retime(r) => kinds_fault(slot_ty(obj, r.lhs), slot_ty(obj, r.arg)),
        // No-ops, comments, resizes and wraps carry no type rule here.
        _ => None,
    }
}

/// The first failure over a list of opcodes, with the node of the opcode.
pub open spec fn ops_fault(obj: Object, ops: Seq<LocatedOpCode>) -> Option<(TypeFault, NodeId)>
    decreases ops.len(),
{
    if ops.len() == 0 {
        None
    } else {
        match op_fault(obj, ops[0].op) {
            Some(f) => Some((f, ops[0].id)),
            None => ops_fault(obj, ops.drop_first()),
        }
    }
}

/// The internal error reported for a failure.
pub open spec fn ice_reports(c: ICE, f: TypeFault) -> bool {
    match f {
        TypeFault::Mismatch(a, b) => c matches ICE::MismatchInDataTypes { lhs, rhs } && lhs@ == a
            && rhs@ == b,
        TypeFault::ShiftNeedsUnsigned => c is ShiftOperatorRequiresUnsignedArgument,
        TypeFault::SignedNeedsUnsigned => c is SignedCastRequiresUnsignedArgument,
        TypeFault::UnsignedNeedsSigned => c is UnsignedCastRequiresSignedArgument,
        TypeFault::IndexNeedsUnsigned => c is IndexValueMustBeUnsigned,
        TypeFault::ExpectedArray(k) => c matches ICE::ExpectedArrayType { kind } && kind@ == k,
        TypeFault::PatternNotLiteral => c is MatchPatternValueMustBeLiteral,
        TypeFault::ArgumentCount => c is ArgumentCountMismatchOnCall,
        TypeFault::MissingLength => c is BitCastMissingRequiredLength,
        TypeFault::InvalidPath => false,
    }
}

/// `e` is the error reported for failure `f` of the opcode at node `id`.
pub open spec fn reports(e: RHDLError, f: TypeFault, id: NodeId) -> bool {
    match f {
        TypeFault::InvalidPath => e is InvalidPath,
        _ => e matches RHDLError::Compile { cause, id: i } && i == id && ice_reports(cause, f),
    }
}

/// Every slot an opcode looks up has a bounded kind in the object (and, for a
/// call, the callee exists with the kinds of its signature known).
pub open spec fn op_slots_known(obj: Object, op: OpCode) -> bool {
    match op {
        OpCode::Binary(b) => slot_known(obj, b.lhs) && slot_known(obj, b.arg1) && slot_known(
            obj,
            b.arg2,
        ),
        OpCode::Unary(u) => slot_known(obj, u.lhs) && slot_known(obj, u.arg1),
        OpCode::Array(a) => slot_known(obj, a.lhs) && a.elements@.len() > 0 && slot_known(
            obj,
            a.elements@[0],
        ),
        OpCode::Select(s) => slot_known(obj, s.lhs) && slot_known(obj, s.cond) && slot_known(
            obj,
            s.true_value,
        ) && slot_known(obj, s.false_value),
        OpCode::Assign(a) => slot_known(obj, a.lhs) && slot_known(obj, a.rhs),
        OpCode::Splice(s) => slot_known(obj, s.lhs) && slot_known(obj, s.orig) && slot_known(
            obj,
            s.subst,
        ),
        OpCode::Tuple(t) => slot_known(obj, t.lhs) && forall|j: int|
            0 <= j < t.fields@.len() ==> slot_known(obj, #[trigger] t.fields@[j]),
        OpCode::Index(x) => slot_known(obj, x.lhs) && slot_known(obj, x.arg) && forall|j: int|
            0 <= j < path_dynamic_slots(x.path@).len() ==> slot_known(
                obj,
                #[trigger] path_dynamic_slots(x.path@)[j],
            ),
        OpCode::Struct(s) => slot_known(obj, s.lhs) && kv_bounded(s.template.kind@) && (
        s.rest matches Some(r) ==> slot_known(obj, r)) && forall|j: int|
            0 <= j < s.fields@.len() ==> slot_known(obj, #[trigger] s.fields@[j].value),
        OpCode::Repeat(r) => slot_known(obj, r.lhs),
        OpCode::Case(c) => slot_known(obj, c.lhs) && slot_known(obj, c.discriminant) && forall|
            j: int,
        |
            0 <= j < c.table@.len() ==> slot_known(obj, (#[trigger] c.table@[j]).1) && (
            c.table@[j].0 matches CaseArgument::Slot(s) ==> slot_known(obj, s)),
        OpCode::Exec(e) => slot_known(obj, e.lhs) && e.id.0 < obj.externals@.len() && {
            let sub = obj.externals@[e.id.0 as int];
            &&& slot_known(sub, sub.return_slot)
            &&& forall|j: int| 0 <= j < e.args@.len() ==> slot_known(obj, #[trigger] e.args@[j])
            &&& forall|j: int|
                0 <= j < sub.arguments@.len() ==> slot_known(
                    sub,
                    Slot::Register(#[trigger] sub.arguments@[j]),
                )
        },
        OpCode::AsBits(c) => slot_known(obj, c.lhs),
        OpCode::AsSigned(c) => slot_known(obj, c.lhs),
        OpCode::Retime(r) => slot_known(obj, r.lhs) && slot_known(obj, r.arg),
        _ => true,
    }
}

/// Every opcode of the object can be checked: the kinds it looks up are known.
pub open spec fn typeable(obj: Object) -> bool {
    forall|i: int| 0 <= i < obj.ops@.len() ==> op_slots_known(obj, #[trigger] obj.ops@[i].op)
}

fn raise_ice(cause: ICE, id: NodeId) -> (r: RHDLError)
    ensures
        r == (RHDLError::Compile { cause, id }),
{
    RHDLError::Compile { cause, id }
}

fn slot_type(obj: &Object, s: Slot) -> (r: Kind)
    requires
        slot_known(*obj, s),
    ensures
        r@ == slot_ty(*obj, s),
        kv_bounded(r@),
{
    obj.kind(s)
}

/// Checks that two kinds are equal, ignoring clock domains.
fn eq_kinds(a: Kind, b: Kind, id: NodeId) -> (r: Result<(), RHDLError>)
    ensures
        match r {
            Ok(_) => kinds_fault(a@, b@) is None,
            Err(e) => kinds_fault(a@, b@) matches Some(f) && reports(e, f, id),
        },
{
    if a.is_empty() && b.is_empty() {
        return Ok(());
    }
    let a = a.signal_data();
    let b = b.signal_data();
    if kind_eq(&a, &b) {
        Ok(())
    } else {
        Err(raise_ice(ICE::MismatchInDataTypes { lhs: a, rhs: b }, id))
    }
}

/// For type checking, a run-time index cannot change the kind of what is
/// selected, so each one is replaced by index `0`.
fn approximate_dynamic_paths(path: &Path) -> (r: Path)
    ensures
        r@ == approximate(path@),
{
    path.zero_out_dynamic_indices()
}

fn check_case(obj: &Object, c: &Case, id: NodeId) -> (r: Result<(), RHDLError>)
    requires
        op_slots_known(*obj, OpCode::Case(*c)),
    ensures
        match r {
            Ok(_) => op_fault(*obj, OpCode::Case(*c)) is None,
            Err(e) => op_fault(*obj, OpCode::Case(*c)) matches Some(f) && reports(e, f, id),
        },
{
    let lhs_ty = slot_type(obj, c.lhs);
    let arg_ty = slot_type(obj, c.discriminant);
    let ghost t = c.table@;
    let mut i: usize = 0;
    proof {
        assert(t.skip(0) =~= t);
    }
    while i < c.table.len()
        invariant
            i <= c.table.len(),
            t == c.table@,
            op_slots_known(*obj, OpCode::Case(*c)),
            lhs_ty@ == slot_ty(*obj, c.lhs),
            arg_ty@ == slot_ty(*obj, c.discriminant),
            kv_bounded(lhs_ty@),
            kv_bounded(arg_ty@),
            case_fault(*obj, lhs_ty@, arg_ty@, t) == case_fault(
                *obj,
                lhs_ty@,
                arg_ty@,
                t.skip(i as int),
            ),
        decreases c.table.len() - i,
    {
        proof {
            assert(t.skip(i as int)[0] == t[i as int]);
            assert(t.skip(i as int).drop_first() =~= t.skip(i + 1));
        }
        let (test, body) = c.table[i];
        assert(slot_known(*obj, t[i as int].1));
        match eq_kinds(clone_ty(&lhs_ty), slot_type(obj, body), id) {
            Ok(_) => {},
            Err(e) => {
                return Err(e);
            },
        }
        match test {
            CaseArgument::Slot(s) => {
                if !s.is_literal() {
                    return Err(raise_ice(ICE::MatchPatternValueMustBeLiteral, id));
                }
                match eq_kinds(clone_ty(&arg_ty), slot_type(obj, s), id) {
                    Ok(_) => {},
                    Err(e) => {
                        return Err(e);
                    },
                }
            },
            CaseArgument::Wild => {},
        }
        i += 1;
    }
    proof {
        assert(t.skip(i as int) =~= Seq::<(CaseArgument, Slot)>::empty());
    }
    Ok(())
}

fn clone_ty(k: &Kind) -> (r: Kind)
    ensures
        r@ == k@,
{
    crate::types::kind::clone_kind(k)
}

fn check_exec(obj: &Object, e: &Exec, id: NodeId) -> (r: Result<(), RHDLError>)
    requires
        op_slots_known(*obj, OpCode::Exec(*e)),
    ensures
        match r {
            Ok(_) => op_fault(*obj, OpCode::Exec(*e)) is None,
            Err(err) => op_fault(*obj, OpCode::Exec(*e)) matches Some(f) && reports(err, f, id),
        },
{
    let sub = &obj.externals[e.id.0];
    match eq_kinds(slot_type(obj, e.lhs), slot_type(sub, sub.return_slot), id) {
        Ok(_) => {},
        Err(err) => {
            return Err(err);
        },
    }
    let ghost args = e.args@;
    let ghost params = sub.arguments@;
    let mut i: usize = 0;
    proof {
        assert(args.skip(0) =~= args);
        assert(params.skip(0) =~= params);
    }
    while i < e.args.len() && i < sub.arguments.len()
        invariant
            i <= e.args.len(),
            i <= sub.arguments.len(),
            args == e.args@,
            params == sub.arguments@,
            *sub == obj.externals@[e.id.0 as int],
            op_slots_known(*obj, OpCode::Exec(*e)),
            kinds_fault(slot_ty(*obj, e.lhs), slot_ty(*sub, sub.return_slot)) is None,
            args_fault(*obj, *sub, args, params) == args_fault(
                *obj,
                *sub,
                args.skip(i as int),
                params.skip(i as int),
            ),
        decreases e.args.len() - i,
    {
        proof {
            assert(args.skip(i as int)[0] == args[i as int]);
            assert(args.skip(i as int).drop_first() =~= args.skip(i + 1));
            assert(params.skip(i as int)[0] == params[i as int]);
            assert(params.skip(i as int).drop_first() =~= params.skip(i + 1));
            assert(slot_known(*obj, args[i as int]));
            assert(slot_known(*sub, Slot::Register(params[i as int])));
        }
        match eq_kinds(
            slot_type(obj, e.args[i]),
            slot_type(sub, Slot::Register(sub.arguments[i])),
            id,
        ) {
            Ok(_) => {},
            Err(err) => {
                return Err(err);
            },
        }
        i += 1;
    }
    proof {
        assert(args.skip(i as int).len() == 0 || params.skip(i as int).len() == 0);
    }
    if e.args.len() != sub.arguments.len() {
        return Err(raise_ice(ICE::ArgumentCountMismatchOnCall, id));
    }
    Ok(())
}

fn check_struct(obj: &Object, s: &Struct, id: NodeId) -> (r: Result<(), RHDLError>)
    requires
        op_slots_known(*obj, OpCode::Struct(*s)),
    ensures
        match r {
            Ok(_) => op_fault(*obj, OpCode::Struct(*s)) is None,
            Err(e) => op_fault(*obj, OpCode::Struct(*s)) matches Some(f) && reports(e, f, id),
        },
{
    let ty = slot_type(obj, s.lhs);
    match eq_kinds(clone_ty(&ty), clone_ty(&s.template.kind), id) {
        Ok(_) => {},
        Err(e) => {
            return Err(e);
        },
    }
    if let Some(rest) = s.rest {
        match eq_kinds(clone_ty(&ty), slot_type(obj, rest), id) {
            Ok(_) => {},
            Err(e) => {
                return Err(e);
            },
        }
    }
    let ghost fs = s.fields@;
    let mut i: usize = 0;
    proof {
        assert(fs.skip(0) =~= fs);
    }
    while i < s.fields.len()
        invariant
            i <= s.fields.len(),
            fs == s.fields@,
            op_slots_known(*obj, OpCode::Struct(*s)),
            ty@ == slot_ty(*obj, s.lhs),
            kv_bounded(ty@),
            kinds_fault(ty@, s.template.kind@) is None,
            s.rest matches Some(r) ==> kinds_fault(ty@, slot_ty(*obj, r)) is None,
            fields_fault(*obj, ty@, fs) == fields_fault(*obj, ty@, fs.skip(i as int)),
        decreases s.fields.len() - i,
    {
        proof {
            assert(fs.skip(i as int)[0] == fs[i as int]);
            assert(fs.skip(i as int).drop_first() =~= fs.skip(i + 1));
            assert(slot_known(*obj, fs[i as int].value));
        }
        let field = &s.fields[i];
        let path = match &field.member {
            Member::Named(name) => Path::new().field(name),
            Member::Unnamed(index) => Path::new().index(*index as usize),
        };
        assert(path@ =~= seq![member_step(fs[i as int].member)]);
        let fty = match sub_kind(&ty, &path) {
            Ok(k) => k,
            Err(e) => {
                return Err(e);
            },
        };
        match eq_kinds(slot_type(obj, field.value), fty, id) {
            Ok(_) => {},
            Err(e) => {
                return Err(e);
            },
        }
        i += 1;
    }
    proof {
        assert(fs.skip(i as int) =~= Seq::<FieldValue>::empty());
    }
    Ok(())
}

fn check_index(obj: &Object, x: &Index, id: NodeId) -> (r: Result<(), RHDLError>)
    requires
        op_slots_known(*obj, OpCode::Index(*x)),
    ensures
        match r {
            Ok(_) => op_fault(*obj, OpCode::Index(*x)) is None,
            Err(e) => op_fault(*obj, OpCode::Index(*x)) matches Some(f) && reports(e, f, id),
        },
{
    let ty = slot_type(obj, x.arg).signal_data();
    assert(kv_bounded(ty@));
    let ty = match sub_kind(&ty, &approximate_dynamic_paths(&x.path)) {
        Ok(k) => k,
        Err(e) => {
            return Err(e);
        },
    };
    match eq_kinds(ty, slot_type(obj, x.lhs), id) {
        Ok(_) => {},
        Err(e) => {
            return Err(e);
        },
    }
    let slots = x.path.dynamic_slots();
    let mut i: usize = 0;
    while i < slots.len()
        invariant
            i <= slots.len(),
            slots@ == path_dynamic_slots(x.path@),
            op_slots_known(*obj, OpCode::Index(*x)),
            kv_range(kv_signal_data(slot_ty(*obj, x.arg)), approximate(x.path@)) matches Some(
                (_, _, k),
            ) && kinds_fault(k, slot_ty(*obj, x.lhs)) is None,
            forall|j: int|
                0 <= j < i ==> kv_is_unsigned(kv_signal_data(slot_ty(*obj, #[trigger] slots@[j]))),
        decreases slots.len() - i,
    {
        assert(slot_known(*obj, slots@[i as int]));
        if !slot_type(obj, slots[i]).signal_data().is_unsigned() {
            return Err(raise_ice(ICE::IndexValueMustBeUnsigned, id));
        }
        i += 1;
    }
    Ok(())
}

fn check_tuple(obj: &Object, lhs: Slot, fields: &Vec<Slot>, id: NodeId) -> (r: Result<(), RHDLError>)
    requires
        slot_known(*obj, lhs),
        forall|j: int| 0 <= j < fields@.len() ==> slot_known(*obj, #[trigger] fields@[j]),
    ensures
        match r {
            Ok(_) => kinds_fault(
                slot_ty(*obj, lhs),
                KindView::Tuple(fields@.map_values(|s: Slot| slot_ty(*obj, s))),
            ) is None,
            Err(e) => kinds_fault(
                slot_ty(*obj, lhs),
                KindView::Tuple(fields@.map_values(|s: Slot| slot_ty(*obj, s))),
            ) matches Some(f) && reports(e, f, id),
        },
{
    let mut tys: Vec<Kind> = Vec::new();
    let mut i: usize = 0;
    while i < fields.len()
        invariant
            i <= fields.len(),
            forall|j: int| 0 <= j < fields@.len() ==> slot_known(*obj, #[trigger] fields@[j]),
            tys@.len() == i,
            forall|j: int| 0 <= j < i ==> (#[trigger] tys@[j])@ == slot_ty(*obj, fields@[j]),
            forall|j: int| 0 <= j < i ==> kv_bounded((#[trigger] tys@[j])@),
        decreases fields.len() - i,
    {
        let k = slot_type(obj, fields[i]);
        tys.push(k);
        i += 1;
    }
    proof {
        lemma_kinds_view_len(tys@);
        assert forall|j: int| 0 <= j < tys@.len() implies kinds_view(tys@)[j] == fields@.map_values(
            |s: Slot| slot_ty(*obj, s),
        )[j] by {
            lemma_kinds_view_index(tys@, j);
        }
        assert(kinds_view(tys@) =~= fields@.map_values(|s: Slot| slot_ty(*obj, s)));
    }
    eq_kinds(slot_type(obj, lhs), Kind::make_tuple(tys), id)
}

/// Checks one opcode.
fn check_op(obj: &Object, op: &OpCode, id: NodeId) -> (r: Result<(), RHDLError>)
    requires
        op_slots_known(*obj, *op),
    ensures
        match r {
            Ok(_) => op_fault(*obj, *op) is None,
            Err(e) => op_fault(*obj, *op) matches Some(f) && reports(e, f, id),
        },
{
    match op {
        OpCode::Binary(b) => {
            match b.op {
                AluBinary::Shl | AluBinary::Shr => {
                    match eq_kinds(slot_type(obj, b.lhs), slot_type(obj, b.arg1), id) {
                        Ok(_) => {},
                        Err(e) => {
                            return Err(e);
                        },
                    }
                    if !slot_type(obj, b.arg2).is_unsigned() {
                        return Err(raise_ice(ICE::ShiftOperatorRequiresUnsignedArgument, id));
                    }
                    Ok(())
                },
                AluBinary::Eq | AluBinary::Ne | AluBinary::Lt | AluBinary::Le | AluBinary::Gt
                | AluBinary::Ge => {
                    match eq_kinds(slot_type(obj, b.arg1), slot_type(obj, b.arg2), id) {
                        Ok(_) => {},
                        Err(e) => {
                            return Err(e);
                        },
                    }
                    eq_kinds(slot_type(obj, b.lhs), Kind::make_bool(), id)
                },
                _ => {
                    match eq_kinds(slot_type(obj, b.lhs), slot_type(obj, b.arg1), id) {
                        Ok(_) => {},
                        Err(e) => {
                            return Err(e);
                        },
                    }
                    eq_kinds(slot_type(obj, b.lhs), slot_type(obj, b.arg2), id)
                },
            }
        },
        OpCode::Unary(u) => {
            match u.op {
                AluUnary::All | AluUnary::Any | AluUnary::Xor => {
                    eq_kinds(slot_type(obj, u.lhs), Kind::make_bool(), id)
                },
                AluUnary::Signed => {
                    match slot_type(obj, u.arg1) {
                        Kind::Bits(x) => eq_kinds(slot_type(obj, u.lhs), Kind::make_signed(x), id),
                        _ => Err(raise_ice(ICE::SignedCastRequiresUnsignedArgument, id)),
                    }
                },
                AluUnary::Unsigned => {
                    match slot_type(obj, u.arg1) {
                        Kind::Signed(x) => eq_kinds(slot_type(obj, u.lhs), Kind::make_bits(x), id),
                        _ => Err(raise_ice(ICE::UnsignedCastRequiresSignedArgument, id)),
                    }
                },
                _ => eq_kinds(slot_type(obj, u.lhs), slot_type(obj, u.arg1), id),
            }
        },
        OpCode::Array(a) => {
            let base = slot_type(obj, a.elements[0]);
            eq_kinds(slot_type(obj, a.lhs), Kind::make_array(base, a.elements.len()), id)
        },
        OpCode::Select(s) => {
            match eq_kinds(slot_type(obj, s.lhs), slot_type(obj, s.true_value), id) {
                Ok(_) => {},
                Err(e) => {
                    return Err(e);
                },
            }
            match eq_kinds(slot_type(obj, s.lhs), slot_type(obj, s.false_value), id) {
                Ok(_) => {},
                Err(e) => {
                    return Err(e);
                },
            }
            eq_kinds(slot_type(obj, s.cond), Kind::make_bool(), id)
        },
        OpCode::Assign(a) => eq_kinds(slot_type(obj, a.lhs), slot_type(obj, a.rhs), id),
        OpCode::Splice(s) => check_splice(obj, s, id),
        OpCode::Tuple(t) => check_tuple(obj, t.lhs, &t.fields, id),
        OpCode::Index(x) => check_index(obj, x, id),
        OpCode::Struct(s) => check_struct(obj, s, id),
        OpCode::Repeat(r) => {
            let ty = slot_type(obj, r.lhs);
            match &ty {
                Kind::Array(base, _) => {
                    let expect = Kind::make_array(clone_ty(base), r.len as usize);
                    eq_kinds(clone_ty(&ty), expect, id)
                },
                _ => Err(raise_ice(ICE::ExpectedArrayType { kind: clone_ty(&ty) }, id)),
            }
        },
        OpCode::Case(c) => check_case(obj, c, id),
        OpCode::Exec(e) => check_exec(obj, e, id),
        OpCode::AsBits(c) => match c.len {
            Some(n) => eq_kinds(slot_type(obj, c.lhs), Kind::make_bits(n), id),
            None => Err(raise_ice(ICE::BitCastMissingRequiredLength, id)),
        },
        OpCode::AsSigned(c) => match c.len {
            Some(n) => eq_kinds(slot_type(obj, c.lhs), Kind::make_signed(n), id),
            None => Err(raise_ice(ICE::BitCastMissingRequiredLength, id)),
        },
        OpCode::Retime(r) => eq_kinds(slot_type(obj, r.lhs), slot_type(obj, r.arg), id),
        _ => Ok(()),
    }
}

fn check_splice(obj: &Object, s: &Splice, id: NodeId) -> (r: Result<(), RHDLError>)
    requires
        op_slots_known(*obj, OpCode::Splice(*s)),
    ensures
        match r {
            Ok(_) => op_fault(*obj, OpCode::Splice(*s)) is None,
            Err(e) => op_fault(*obj, OpCode::Splice(*s)) matches Some(f) && reports(e, f, id),
        },
{
    let sub = match sub_kind(&slot_type(obj, s.lhs), &approximate_dynamic_paths(&s.path)) {
        Ok(k) => k,
        Err(e) => {
            return Err(e);
        },
    };
    match eq_kinds(sub, slot_type(obj, s.subst), id) {
        Ok(_) => {},
        Err(e) => {
            return Err(e);
        },
    }
    eq_kinds(slot_type(obj, s.lhs), slot_type(obj, s.orig), id)
}

/// What the type check of `obj` may give: success exactly when no opcode
/// breaks a rule, and otherwise an error reporting the first opcode that does.
pub open spec fn check_outcome(obj: Object, r: Result<(), RHDLError>) -> bool {
    match r {
        Ok(_) => ops_fault(obj, obj.ops@) is None,
        Err(e) => ops_fault(obj, obj.ops@) matches Some((f, id)) && reports(e, f, id),
    }
}

/// What the type-check pass may give for `input`: the input itself when the
/// check succeeds, and otherwise an error the check could give.
pub open spec fn pass_outcome(input: Object, r: Result<Object, RHDLError>) -> bool {
    match r {
        Ok(out) => out == input && check_outcome(input, Ok(())),
        Err(e) => check_outcome(input, Err(e)),
    }
}

/// Checks every opcode of an object, stopping at the first that breaks a type
/// rule.
pub fn check_type_correctness(obj: &Object) -> (r: Result<(), RHDLError>)
    requires
        typeable(*obj),
    ensures
        check_outcome(*obj, r),
{
    let ghost ops = obj.ops@;
    let mut i: usize = 0;
    proof {
        assert(ops.skip(0) =~= ops);
    }
    while i < obj.ops.len()
        invariant
            i <= obj.ops.len(),
            ops == obj.ops@,
            typeable(*obj),
            ops_fault(*obj, ops) == ops_fault(*obj, ops.skip(i as int)),
        decreases obj.ops.len() - i,
    {
        proof {
            assert(ops.skip(i as int)[0] == ops[i as int]);
            assert(ops.skip(i as int).drop_first() =~= ops.skip(i + 1));
            assert(op_slots_known(*obj, ops[i as int].op));
        }
        let lop = &obj.ops[i];
        match check_op(obj, &lop.op, lop.id) {
            Ok(_) => {},
            Err(e) => {
                return Err(e);
            },
        }
        i += 1;
    }
    proof {
        assert(ops.skip(i as int) =~= Seq::<LocatedOpCode>::empty());
    }
    Ok(())
}

impl TypeCheckPass {
    pub fn name() -> (r: &'static str)
        ensures
            r@ == "check_rhif_type"@,
    {
        "check_rhif_type"
    }

    /// Hands the object back unchanged when every opcode type checks, and
    /// reports the first opcode that does not otherwise.
    pub fn run(input: Object) -> (r: Result<Object, RHDLError>)
        requires
            typeable(input),
        ensures
            pass_outcome(input, r),
            r is Ok <==> ops_fault(input, input.ops@) is None,
    {
        match check_type_correctness(&input) {
            Ok(_) => Ok(input),
            Err(e) => Err(e),
        }
    }
}

/// The pass is the check: it hands its input back unchanged exactly when the
/// check succeeds, and otherwise fails as the check does, reporting the same
/// first opcode that breaks a rule.
pub proof fn law_pass_runs_the_check(input: Object, pass: Result<Object, RHDLError>, check: Result<(), RHDLError>)
    requires
        pass_outcome(input, pass),
        check_outcome(input, check),
    ensures
        pass is Ok <==> check is Ok,
        pass matches Ok(out) ==> out == input,
        pass matches Err(e) ==> check_outcome(input, Err(e)),
        pass is Err && check is Err ==> (ops_fault(input, input.ops@) matches Some((f, id)) && reports(
            pass->Err_0,
            f,
            id,
        ) && reports(check->Err_0, f, id)),
{
}

/// Two kinds agree for the type check: both carry no bits, or they carry the
/// same data once a signal wrapper is looked through.
pub open spec fn kinds_agree(a: KindView, b: KindView) -> bool {
    (kv_bits(a) == 0 && kv_bits(b) == 0) || kv_signal_data(a) == kv_signal_data(b)
}

/// The type rule of an opcode, read on the kinds of its slots.
pub open spec fn op_obeys_type_rule(obj: Object, op: OpCode) -> bool {
    match op {
        OpCode::Binary(b) => {
            let l = slot_ty(obj, b.lhs);
            let a1 = slot_ty(obj, b.arg1);
            let a2 = slot_ty(obj, b.arg2);
            if b.op is Shl || b.op is Shr {
                kinds_agree(l, a1) && kv_signal_data(a2) is Bits
            } else if b.op is Eq || b.op is Ne || b.op is Lt || b.op is Le || b.op is Gt || b.op is Ge {
                kinds_agree(a1, a2) && kinds_agree(l, KindView::Bits(1))
            } else if b.op is Add || b.op is Sub || b.op is Mul || b.op is BitAnd || b.op is BitOr || b.op is BitXor {
                kinds_agree(l, a1) && kinds_agree(l, a2)
            } else {
                true
            }
        },
        OpCode::Unary(u) => {
            let l = slot_ty(obj, u.lhs);
            let a = slot_ty(obj, u.arg1);
            if u.op is All || u.op is Any || u.op is Xor {
                kinds_agree(l, KindView::Bits(1))
            } else if u.op is Signed {
                a is Bits && kinds_agree(l, KindView::Signed(a->Bits_0))
            } else if u.op is Unsigned {
                a is Signed && kinds_agree(l, KindView::Bits(a->Signed_0))
            } else if u.op is Not || u.op is Neg || u.op is Val {
                kinds_agree(l, a)
            } else {
                true
            }
        },
        OpCode::Select(x) => {
            &&& kinds_agree(slot_ty(obj, x.lhs), slot_ty(obj, x.true_value))
            &&& kinds_agree(slot_ty(obj, x.lhs), slot_ty(obj, x.false_value))
            &&& kinds_agree(slot_ty(obj, x.cond), KindView::Bits(1))
        },
        OpCode::Assign(a) => kinds_agree(slot_ty(obj, a.lhs), slot_ty(obj, a.rhs)),
        OpCode::Array(a) => kinds_agree(
            slot_ty(obj, a.lhs),
            KindView::Array(Box::new(slot_ty(obj, a.elements@[0])), a.elements@.len()),
        ),
        OpCode::Tuple(t) => kinds_agree(
            slot_ty(obj, t.lhs),
            KindView::Tuple(t.fields@.map_values(|s: Slot| slot_ty(obj, s))),
        ),
        OpCode::AsBits(c) => c.len matches Some(n) && kinds_agree(slot_ty(obj, c.lhs), KindView::Bits(n as nat)),
        OpCode::AsSigned(c) => c.len matches Some(n) && kinds_agree(slot_ty(obj, c.lhs), KindView::Signed(n as nat)),
        OpCode::Retime(r) => kinds_agree(slot_ty(obj, r.lhs), slot_ty(obj, r.arg)),
        OpCode::Splice(x) => {
            &&& kv_range(slot_ty(obj, x.lhs), approximate(x.path@)) matches Some((_, _, k))
            &&& kinds_agree(k, slot_ty(obj, x.subst))
            &&& kinds_agree(slot_ty(obj, x.lhs), slot_ty(obj, x.orig))
        },
        OpCode::Index(x) => {
            &&& kv_range(kv_signal_data(slot_ty(obj, x.arg)), approximate(x.path@)) matches Some((_, _, k))
            &&& kinds_agree(k, slot_ty(obj, x.lhs))
            &&& forall|j: int|
                0 <= j < path_dynamic_slots(x.path@).len() ==> kv_is_unsigned(
                    kv_signal_data(slot_ty(obj, #[trigger] path_dynamic_slots(x.path@)[j])),
                )
        },
        OpCode::Struct(x) => {
            &&& kinds_agree(slot_ty(obj, x.lhs), x.template.kind@)
            &&& (x.rest matches Some(r) ==> kinds_agree(slot_ty(obj, x.lhs), slot_ty(obj, r)))
            &&& forall|j: int|
                0 <= j < x.fields@.len() ==> #[trigger] field_selects(obj, slot_ty(obj, x.lhs), x.fields@[j])
        },
        OpCode::Exec(e) => {
            let sub = obj.externals@[e.id.0 as int];
            &&& kinds_agree(slot_ty(obj, e.lhs), slot_ty(sub, sub.return_slot))
            &&& e.args@.len() == sub.arguments@.len()
            &&& forall|j: int|
                0 <= j < e.args@.len() ==> kinds_agree(
                    slot_ty(obj, #[trigger] e.args@[j]),
                    slot_ty(sub, Slot::Register(sub.arguments@[j])),
                )
        },
        OpCode::Repeat(r) => {
            &&& slot_ty(obj, r.lhs) is Array
            &&& kinds_agree(slot_ty(obj, r.lhs), KindView::Array(slot_ty(obj, r.lhs)->Array_0, (r.len as usize) as nat))
        },
        OpCode::Case(c) => forall|j: int|
            0 <= j < c.table@.len() ==> #[trigger] case_entry_typed(
                obj,
                slot_ty(obj, c.lhs),
                slot_ty(obj, c.discriminant),
                c.table@[j],
            ),
        _ => true,
    }
}

/// A field of a struct value has the kind of the member it sets in `ty`.
pub open spec fn field_selects(obj: Object, ty: KindView, f: FieldValue) -> bool {
    &&& kv_range(ty, seq![member_step(f.member)]) matches Some((_, _, k))
    &&& kinds_agree(slot_ty(obj, f.value), k)
}

/// An entry of a case table: its value has the kind of the result, and its
/// pattern, unless a wildcard, is a literal of the discriminant's kind.
pub open spec fn case_entry_typed(obj: Object, lhs: KindView, disc: KindView, e: (CaseArgument, Slot)) -> bool {
    &&& kinds_agree(lhs, slot_ty(obj, e.1))
    &&& (e.0 matches CaseArgument::Slot(s) ==> s is Literal && kinds_agree(disc, slot_ty(obj, s)))
}

proof fn lemma_case_no_fault(obj: Object, lhs: KindView, disc: KindView, t: Seq<(CaseArgument, Slot)>)
    requires
        case_fault(obj, lhs, disc, t) is None,
    ensures
        forall|j: int| 0 <= j < t.len() ==> #[trigger] case_entry_typed(obj, lhs, disc, t[j]),
    decreases t.len(),
{
    if t.len() > 0 {
        lemma_case_no_fault(obj, lhs, disc, t.drop_first());
        assert forall|j: int| 0 <= j < t.len() implies #[trigger] case_entry_typed(obj, lhs, disc, t[j]) by {
            if j > 0 {
                assert(t[j] == t.drop_first()[j - 1]);
            }
        }
    }
}

proof fn lemma_fields_no_fault(obj: Object, ty: KindView, fs: Seq<FieldValue>)
    requires
        fields_fault(obj, ty, fs) is None,
    ensures
        forall|j: int| 0 <= j < fs.len() ==> #[trigger] field_selects(obj, ty, fs[j]),
    decreases fs.len(),
{
    if fs.len() > 0 {
        lemma_fields_no_fault(obj, ty, fs.drop_first());
        assert forall|j: int| 0 <= j < fs.len() implies #[trigger] field_selects(obj, ty, fs[j]) by {
            if j > 0 {
                assert(fs[j] == fs.drop_first()[j - 1]);
            }
        }
    }
}

proof fn lemma_args_no_fault(obj: Object, sub: Object, args: Seq<Slot>, params: Seq<RegisterId>)
    requires
        args_fault(obj, sub, args, params) is None,
    ensures
        forall|j: int|
            0 <= j < args.len() && j < params.len() ==> kinds_agree(
                slot_ty(obj, #[trigger] args[j]),
                slot_ty(sub, Slot::Register(params[j])),
            ),
    decreases args.len(),
{
    if args.len() > 0 && params.len() > 0 {
        lemma_args_no_fault(obj, sub, args.drop_first(), params.drop_first());
        assert forall|j: int|
            0 <= j < args.len() && j < params.len() implies kinds_agree(
            slot_ty(obj, #[trigger] args[j]),
            slot_ty(sub, Slot::Register(params[j])),
        ) by {
            if j > 0 {
                assert(args[j] == args.drop_first()[j - 1]);
                assert(params[j] == params.drop_first()[j - 1]);
            }
        }
    }
}

/// A type-checked object obeys the type rule of every opcode: in particular
/// every select's condition is a single bit, both sides of a copy agree, and
/// every cast has a length and gives a value of the kind it names.
pub proof fn law_checked_ops_obey_type_rules(obj: Object)
    requires
        check_outcome(obj, Ok(())),
    ensures
        forall|i: int| 0 <= i < obj.ops@.len() ==> op_obeys_type_rule(obj, #[trigger] obj.ops@[i].op),
{
    lemma_no_fault_iff_all_ops_typed(obj, obj.ops@);
    assert forall|i: int| 0 <= i < obj.ops@.len() implies op_obeys_type_rule(obj, #[trigger] obj.ops@[i].op) by {
        let op = obj.ops@[i].op;
        assert(op_fault(obj, op) is None);
        lemma_no_fault_obeys(obj, op);
    }
}

proof fn lemma_no_fault_obeys(obj: Object, op: OpCode)
    requires
        op_fault(obj, op) is None,
    ensures
        op_obeys_type_rule(obj, op),
{
    match op {
        OpCode::Binary(b) => {
            if b.op is Shl || b.op is Shr {
                assert(kinds_agree(slot_ty(obj, b.lhs), slot_ty(obj, b.arg1)));
                assert(kv_signal_data(slot_ty(obj, b.arg2)) is Bits);
            } else if b.op is Eq || b.op is Ne || b.op is Lt || b.op is Le || b.op is Gt || b.op is Ge {
                assert(kinds_fault(slot_ty(obj, b.arg1), slot_ty(obj, b.arg2)) is None);
                assert(kinds_fault(slot_ty(obj, b.lhs), kv_bool()) is None);
                assert(kinds_agree(slot_ty(obj, b.lhs), KindView::Bits(1)));
            } else {
                assert(kinds_agree(slot_ty(obj, b.lhs), slot_ty(obj, b.arg1)));
                assert(kinds_agree(slot_ty(obj, b.lhs), slot_ty(obj, b.arg2)));
            }
        },
        OpCode::Case(c) => {
            lemma_case_no_fault(obj, slot_ty(obj, c.lhs), slot_ty(obj, c.discriminant), c.table@);
        },
        OpCode::Struct(x) => {
            if kinds_fault(slot_ty(obj, x.lhs), x.template.kind@) is None {
                lemma_fields_no_fault(obj, slot_ty(obj, x.lhs), x.fields@);
            }
        },
        OpCode::Exec(e) => {
            let sub = obj.externals@[e.id.0 as int];
            lemma_args_no_fault(obj, sub, e.args@, sub.arguments@);
        },
        OpCode::Index(x) => {
            let ss = path_dynamic_slots(x.path@);
            if let Some((_, _, k)) = kv_range(kv_signal_data(slot_ty(obj, x.arg)), approximate(x.path@)) {
                assert(index_slots_fault(obj, ss) is None);
                assert forall|j: int| 0 <= j < ss.len() implies kv_is_unsigned(kv_signal_data(slot_ty(obj, #[trigger] ss[j]))) by {
                    if !kv_is_unsigned(kv_signal_data(slot_ty(obj, ss[j]))) {
                        assert(exists|j2: int| 0 <= j2 < ss.len() && !kv_is_unsigned(kv_signal_data(slot_ty(obj, #[trigger] ss[j2]))));
                    }
                }
            }
        },
        _ => {},
    }
}

/// An object passes the type check exactly when no opcode breaks a rule.
pub proof fn lemma_no_fault_iff_all_ops_typed(obj: Object, ops: Seq<LocatedOpCode>)
    ensures
        (ops_fault(obj, ops) is None) <==> (forall|i: int|
            0 <= i < ops.len() ==> op_fault(obj, #[trigger] ops[i].op) is None),
    decreases ops.len(),
{
    if ops.len() > 0 {
        lemma_no_fault_iff_all_ops_typed(obj, ops.drop_first());
        if ops_fault(obj, ops) is None {
            assert forall|i: int| 0 <= i < ops.len() implies op_fault(obj, #[trigger] ops[i].op) is None by {
                if i > 0 {
                    assert(ops.drop_first()[i - 1] == ops[i]);
                }
            }
        }
        if forall|i: int| 0 <= i < ops.len() ==> op_fault(obj, #[trigger] ops[i].op) is None {
            assert(op_fault(obj, ops[0].op) is None);
            assert forall|i: int| 0 <= i < ops.drop_first().len() implies op_fault(
                obj,
                #[trigger] ops.drop_first()[i].op,
            ) is None by {
                assert(ops.drop_first()[i] == ops[i + 1]);
            }
        }
    }
}

} // verus!
