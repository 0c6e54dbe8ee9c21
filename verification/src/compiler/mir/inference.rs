use vstd::prelude::*;

use crate::ast::{ExprLit, NodeId};
use crate::compiler::mir::infer::{cast_literal_to_inferred_type, literal_value};
use crate::types::bit_string::TypedBits;
use crate::util::reversed;
use crate::compiler::mir::mir_impl::{find_slot, first_at, lemma_lookup_first, lemma_lookup_push, lookup, Mir};
use crate::compiler::mir::ty::{inst, inst_seq, unifies, kept_under, lemma_inst_agree, lemma_inst_ground, VarNum, app_arg, bits_term, term_kind, UnifyError, kind_term, lemma_kind_term_ground, evolves, extends, ground, Shape, SignFlag, TypeKindView, lemma_evolves_refl, lemma_evolves_trans, lemma_grows_evolves, lemma_refines_evolves, Const, Term, TypeId, UnifyContext};
use crate::error::{RHDLError, Syntax, TypeCheck};
use crate::rhif::spec::{
    AluBinary, AluUnary, Array, Assign, Binary, Case, CaseArgument, Cast, Index, Repeat, Retime, Select, Slot, Splice, Tuple,
    Unary, Struct, Exec, Wrap, OpCode, LocatedOpCode, RegisterId, LiteralId, FuncId,
};
use crate::rhif::object::Object;
use crate::ast::Member;
use crate::types::kind::{clone_kind, fields_view, lemma_fields_view_index, lemma_fields_view_len, Field, FieldView, Kind, KindView};
use crate::types::path::{field_pos, find_field, lemma_field_pos_bound, Path, PathElement, PathElementView};
use crate::error::ICE;
use crate::compiler::mir::mir_impl::find_func;

verus! {

/// A unary operation whose typing rule waits until its argument is known.
#[derive(Debug)]
pub struct TypeUnaryOp {
    pub op: AluUnary,
    pub lhs: TypeId,
    pub arg1: TypeId,
}

/// A binary operation whose typing rule waits until its arguments are known.
#[derive(Debug)]
pub struct TypeBinOp {
    pub op: AluBinary,
    pub lhs: TypeId,
    pub arg1: TypeId,
    pub arg2: TypeId,
}

/// `lhs` is the part of `arg` that `path` selects.
#[derive(Debug)]
pub struct TypeIndex {
    pub lhs: TypeId,
    pub arg: TypeId,
    pub path: Path,
}

/// `lhs` is one of `true_value` and `false_value`.
#[derive(Debug)]
pub struct TypeSelect {
    pub true_value: TypeId,
    pub false_value: TypeId,
    pub lhs: TypeId,
}

/// A typing rule applied once the types it reads are better known.
#[derive(Debug)]
pub struct TypeOperation {
    pub loc: NodeId,
    pub kind: TypeOperationKind,
}

#[derive(Debug)]
pub enum TypeOperationKind {
    UnaryOp(TypeUnaryOp),
    BinOp(TypeBinOp),
    Index(TypeIndex),
    Select(TypeSelect),
}

/// The types that a deferred rule refers to.
pub open spec fn type_op_ids(k: TypeOperationKind) -> Seq<TypeId> {
    match k {
        TypeOperationKind::UnaryOp(u) => seq![u.lhs, u.arg1],
        TypeOperationKind::BinOp(b) => seq![b.lhs, b.arg1, b.arg2],
        TypeOperationKind::Index(x) => seq![x.lhs, x.arg],
        TypeOperationKind::Select(s) => seq![s.true_value, s.false_value, s.lhs],
    }
}

/// The symbol table gives the slot a source node.
pub open spec fn named(mir: &Mir, s: Slot) -> bool {
    lookup(mir.symbols.slot_map@, s) is Some
}

/// Node `w` of the context is stored as an application of shape `sh` to `n`
/// arguments.
pub open spec fn app_of(ctx: UnifyContext, w: TypeId, sh: Shape, n: nat) -> bool {
    &&& ctx.has(w)
    &&& ctx.tys()[w.kind as int] matches TypeKindView::App(s, cs) && s == sh && cs.len() == n
}

/// Argument `i` of the application stored at node `w`.
pub open spec fn arg_of(ctx: UnifyContext, w: TypeId, i: int) -> TypeId {
    match ctx.tys()[w.kind as int] {
        TypeKindView::App(_, cs) => cs[i],
        _ => w,
    }
}

/// The fields of a struct kind (none for another kind).
pub open spec fn struct_fields(k: KindView) -> Seq<FieldView> {
    match k {
        KindView::Struct(_, fs) => fs,
        _ => Seq::empty(),
    }
}

/// The kind of a member among a struct's fields: a named member by its name,
/// a positional one by its place.
pub open spec fn member_kind(fs: Seq<FieldView>, m: Member) -> Option<KindView> {
    match m {
        Member::Named(n) => match field_pos(fs, n@) {
            Some(j) => Some(fs[j as int].kind),
            None => None,
        },
        Member::Unnamed(i) => if (i as int) < fs.len() {
            Some(fs[i as int].kind)
        } else {
            None
        },
    }
}

/// The kind of a member of a struct with the given fields.
pub fn get_field_kind(fields: &Vec<Field>, member: &Member) -> (r: Option<Kind>)
    ensures
        match r {
            Some(k) => member_kind(fields_view(fields@), *member) == Some(k@),
            None => member_kind(fields_view(fields@), *member) is None,
        },
{
    proof {
        lemma_fields_view_len(fields@);
    }
    match member {
        Member::Named(name) => match find_field(fields, name) {
            Some(j) => {
                proof {
                    lemma_field_pos_bound(fields_view(fields@), name@);
                    lemma_fields_view_index(fields@, j as int);
                }
                Some(clone_kind(&fields[j].kind))
            },
            None => None,
        },
        Member::Unnamed(i) => {
            let j = *i as usize;
            if j < fields.len() {
                proof {
                    lemma_fields_view_index(fields@, j as int);
                }
                Some(clone_kind(&fields[j].kind))
            } else {
                None
            }
        },
    }
}

/// The called function is stashed, with kinds for its arguments and result.
pub open spec fn exec_ready(mir: &Mir, e: Exec) -> bool {
    &&& lookup(mir.stash@, e.id) is Some
    &&& forall|j: int|
        0 <= j < lookup(mir.stash@, e.id)->Some_0.arguments@.len() ==> lookup(mir.stash@, e.id)->Some_0.slot_kind(
            Slot::Register(#[trigger] lookup(mir.stash@, e.id)->Some_0.arguments@[j]),
        ) is Some
    &&& lookup(mir.stash@, e.id)->Some_0.slot_kind(lookup(mir.stash@, e.id)->Some_0.return_slot) is Some
}

/// Every run-time index of the path is a slot with a source node.
pub open spec fn path_named(mir: &Mir, p: Seq<PathElementView>) -> bool {
    forall|i: int| 0 <= i < p.len() ==> ((#[trigger] p[i]) matches PathElementView::DynamicIndex(s) ==> named(mir, s))
}

/// Every slot the opcode uses has a source node, and a called function is
/// stashed with the kinds it declares.
pub open spec fn op_ready(mir: &Mir, op: OpCode) -> bool {
    match op {
        OpCode::Noop => true,
        OpCode::Comment(_) => true,
        OpCode::Binary(b) => named(mir, b.lhs) && named(mir, b.arg1) && named(mir, b.arg2),
        OpCode::Unary(u) => named(mir, u.lhs) && named(mir, u.arg1),
        OpCode::Array(a) => named(mir, a.lhs) && forall|i: int|
            0 <= i < a.elements@.len() ==> named(mir, #[trigger] a.elements@[i]),
        OpCode::Assign(a) => named(mir, a.lhs) && named(mir, a.rhs),
        OpCode::AsBits(c) => named(mir, c.lhs) && named(mir, c.arg),
        OpCode::AsSigned(c) => named(mir, c.lhs) && named(mir, c.arg),
        OpCode::Resize(c) => named(mir, c.lhs) && named(mir, c.arg),
        OpCode::Case(c) => named(mir, c.lhs) && named(mir, c.discriminant) && forall|i: int|
            0 <= i < c.table@.len() ==> named(mir, (#[trigger] c.table@[i]).1) && ((c.table@[i]).0 matches CaseArgument::Slot(t)
                ==> named(mir, t)),
        OpCode::Exec(e) => named(mir, e.lhs) && (forall|i: int| 0 <= i < e.args@.len() ==> named(mir, #[trigger] e.args@[i]))
            && exec_ready(mir, e),
        OpCode::Index(x) => named(mir, x.lhs) && named(mir, x.arg) && path_named(mir, x.path@),
        OpCode::Repeat(r) => named(mir, r.lhs) && named(mir, r.value),
        OpCode::Retime(r) => named(mir, r.lhs) && named(mir, r.arg),
        OpCode::Select(x) => named(mir, x.cond) && named(mir, x.lhs) && named(mir, x.true_value) && named(mir, x.false_value),
        OpCode::Splice(x) => named(mir, x.lhs) && named(mir, x.orig) && named(mir, x.subst) && path_named(mir, x.path@),
        OpCode::Struct(x) => named(mir, x.lhs) && (forall|i: int|
            0 <= i < x.fields@.len() ==> named(mir, (#[trigger] x.fields@[i]).value)) && (x.rest matches Some(r) ==> named(
            mir,
            r,
        )),
        OpCode::Tuple(t) => named(mir, t.lhs) && forall|i: int| 0 <= i < t.fields@.len() ==> named(mir, #[trigger] t.fields@[i]),
        OpCode::Wrap(w) => named(mir, w.lhs) && named(mir, w.arg),
    }
}

/// A bound on the type variables that typing an opcode makes.
pub open spec fn op_budget(op: OpCode) -> nat {
    match op {
        OpCode::Array(a) => 2 + a.elements@.len(),
        OpCode::Case(c) => 2 + 2 * c.table@.len(),
        OpCode::Exec(e) => 1 + e.args@.len(),
        OpCode::Struct(x) => 2 + x.fields@.len(),
        OpCode::Tuple(t) => 1 + t.fields@.len(),
        OpCode::Resize(_) => 5,
        _ => 4,
    }
}

/// The bound for a list of opcodes.
pub open spec fn ops_budget(ops: Seq<LocatedOpCode>) -> nat
    decreases ops.len(),
{
    if ops.len() == 0 {
        0
    } else {
        ops_budget(ops.drop_last()) + op_budget(ops.last().op)
    }
}

/// A bound on what the deferred rule an opcode records costs in type
/// variables per application.
pub open spec fn deferred_budget(op: OpCode) -> nat {
    match op {
        OpCode::Index(x) => 1 + x.path@.len(),
        OpCode::Splice(x) => 1 + x.path@.len(),
        _ => 1,
    }
}

/// The bound for the deferred rules of a list of opcodes.
pub open spec fn ops_deferred_budget(ops: Seq<LocatedOpCode>) -> nat
    decreases ops.len(),
{
    if ops.len() == 0 {
        0
    } else {
        ops_deferred_budget(ops.drop_last()) + deferred_budget(ops.last().op)
    }
}

proof fn lemma_ops_deferred_budget_prefix(ops: Seq<LocatedOpCode>, i: int)
    requires
        0 <= i <= ops.len(),
    ensures
        ops_deferred_budget(ops.take(i)) <= ops_deferred_budget(ops),
    decreases ops.len(),
{
    if i < ops.len() {
        assert(ops.drop_last().take(i) =~= ops.take(i));
        lemma_ops_deferred_budget_prefix(ops.drop_last(), i);
    } else {
        assert(ops.take(i) =~= ops);
    }
}

proof fn lemma_ops_budget_prefix(ops: Seq<LocatedOpCode>, i: int)
    requires
        0 <= i <= ops.len(),
    ensures
        ops_budget(ops.take(i)) <= ops_budget(ops),
    decreases ops.len(),
{
    if i < ops.len() {
        assert(ops.drop_last().take(i) =~= ops.take(i));
        lemma_ops_budget_prefix(ops.drop_last(), i);
    } else {
        assert(ops.take(i) =~= ops);
    }
}

/// A bound on the type variables one application of a deferred rule makes.
pub open spec fn type_op_budget(op: TypeOperation) -> nat {
    match op.kind {
        TypeOperationKind::Index(t) => 1 + t.path@.len(),
        _ => 1,
    }
}

/// The bound for one pass over a list of deferred rules.
pub open spec fn type_ops_budget(ops: Seq<TypeOperation>) -> nat
    decreases ops.len(),
{
    if ops.len() == 0 {
        0
    } else {
        type_ops_budget(ops.drop_last()) + type_op_budget(ops.last())
    }
}

proof fn lemma_type_ops_budget_prefix(ops: Seq<TypeOperation>, i: int)
    requires
        0 <= i <= ops.len(),
    ensures
        type_ops_budget(ops.take(i)) <= type_ops_budget(ops),
    decreases ops.len(),
{
    if i < ops.len() {
        assert(ops.drop_last().take(i) =~= ops.take(i));
        lemma_type_ops_budget_prefix(ops.drop_last(), i);
    } else {
        assert(ops.take(i) =~= ops);
    }
}

/// The operation compares its operands.
pub open spec fn is_comparison_op(op: AluBinary) -> bool {
    op is Eq || op is Ne || op is Lt || op is Le || op is Gt || op is Ge
}

/// Whether a term is a signal.
pub open spec fn is_signal_term(t: Term) -> bool {
    t matches Term::App(Shape::Signal, _)
}

/// A copy of a deferred rule: the same types, and a path with the same
/// steps.
fn copy_type_op_kind(k: &TypeOperationKind) -> (r: TypeOperationKind)
    ensures
        type_op_ids(r) == type_op_ids(*k),
        match (r, *k) {
            (TypeOperationKind::UnaryOp(a), TypeOperationKind::UnaryOp(b)) => a == b,
            (TypeOperationKind::BinOp(a), TypeOperationKind::BinOp(b)) => a == b,
            (TypeOperationKind::Index(a), TypeOperationKind::Index(b)) => a.lhs == b.lhs && a.arg == b.arg && a.path@ == b.path@,
            (TypeOperationKind::Select(a), TypeOperationKind::Select(b)) => a == b,
            _ => false,
        },
{
    match k {
        TypeOperationKind::UnaryOp(u) => TypeOperationKind::UnaryOp(TypeUnaryOp { op: u.op, lhs: u.lhs, arg1: u.arg1 }),
        TypeOperationKind::BinOp(b) => TypeOperationKind::BinOp(TypeBinOp { op: b.op, lhs: b.lhs, arg1: b.arg1, arg2: b.arg2 }),
        TypeOperationKind::Index(x) => TypeOperationKind::Index(TypeIndex { lhs: x.lhs, arg: x.arg, path: x.path.copy() }),
        TypeOperationKind::Select(x) => TypeOperationKind::Select(
            TypeSelect { true_value: x.true_value, false_value: x.false_value, lhs: x.lhs },
        ),
    }
}

/// The register table `ks` gives each register with a type its kind, and
/// holds nothing for the other registers.
pub open spec fn registers_inferred(st: MirTypeInference, ks: Seq<Option<Kind>>) -> bool {
    &&& forall|r: usize|
        #[trigger] lookup(st.slot_map@, Slot::Register(RegisterId(r))) is Some ==> (r as int) < ks.len() && (ks[r as int] matches Some(
            k,
        ) && Ok::<KindView, UnifyError>(k@) == term_kind(st.tm(Slot::Register(RegisterId(r)))))
    &&& forall|r: int| 0 <= r < ks.len() && (#[trigger] ks[r]) is Some ==> lookup(st.slot_map@, Slot::Register(RegisterId(r as usize))) is Some
}

/// The literal table `ls` gives each listed literal its value in the kind
/// inferred for it, and holds nothing at other places.
pub open spec fn literals_inferred(lits: Seq<(Slot, ExprLit)>, st: MirTypeInference, ls: Seq<Option<TypedBits>>) -> bool {
    &&& forall|i: int|
        0 <= i < lits.len() ==> ((#[trigger] lits[i]).0->Literal_0.0 as int) < ls.len() && (ls[lits[i].0->Literal_0.0 as int] matches Some(
            v,
        ) && Some(v@) == literal_value(lits[i].1, term_kind(st.tm(lits[i].0))->Ok_0))
    &&& forall|l: int|
        0 <= l < ls.len() && (#[trigger] ls[l]) is Some ==> exists|i: int| 0 <= i < lits.len() && #[trigger] lits[i].0 == Slot::Literal(LiteralId(l as usize))
}

/// The opcodes `out` are `ops` with the inferred kind written into each wrap.
pub open spec fn wraps_inferred(ops: Seq<LocatedOpCode>, st: MirTypeInference, out: Seq<LocatedOpCode>) -> bool {
    &&& out.len() == ops.len()
    &&& forall|i: int|
        0 <= i < ops.len() ==> (#[trigger] out[i]).id == ops[i].id && match ops[i].op {
            OpCode::Wrap(w) => (out[i].op matches OpCode::Wrap(w2) && w2.lhs == w.lhs && w2.op == w.op && w2.arg == w.arg && (w2.kind matches Some(k) && Ok::<KindView, UnifyError>(k@) == term_kind(st.tm(w.lhs)))),
            _ => out[i].op == ops[i].op,
        }
}

/// The value of a literal in the kind that type `t` stands for. An integer
/// literal needs a kind whose width fits a `usize`.
fn literal_in_kind(ctx: &mut UnifyContext, lit: ExprLit, t: TypeId) -> (r: Result<TypedBits, RHDLError>)
    requires
        old(ctx).wf(),
        old(ctx).has(t),
        term_kind(old(ctx).term(t)) is Ok,
    ensures
        final(ctx).wf(),
        final(ctx).grows_from(*old(ctx)),
        final(ctx).vars() == old(ctx).vars(),
        r matches Ok(v) ==> Some(v@) == literal_value(lit, term_kind(old(ctx).term(t))->Ok_0),
{
    let ghost c0 = *ctx;
    proof {
        UnifyContext::lemma_grows_refl(c0);
    }
    if let ExprLit::Int(_) = &lit {
        let k = ctx.into_kind(t);
        proof {
            ctx.lemma_grows_keeps_terms(c0, t);
        }
        match k {
            Ok(k) => {
                if k.checked_bits().is_none() {
                    return Err(RHDLError::InvalidLiteral);
                }
            },
            Err(_) => {
                return Err(RHDLError::InvalidLiteral);
            },
        }
    }
    let ghost c1 = *ctx;
    let r = cast_literal_to_inferred_type(ctx, lit, t);
    proof {
        UnifyContext::lemma_grows_trans(c0, c1, *ctx);
    }
    r
}

/// A table of `n` places holding each listed value at its place.
fn literal_table(vals: Vec<(usize, TypedBits)>, n: usize) -> (r: Vec<Option<TypedBits>>)
    requires
        forall|j: int| 0 <= j < vals@.len() ==> ((#[trigger] vals@[j]).0 as int) < n,
        forall|a: int, b: int| 0 <= a < b < vals@.len() ==> (#[trigger] vals@[a]).0 != (#[trigger] vals@[b]).0,
    ensures
        r@.len() == n,
        forall|j: int| 0 <= j < vals@.len() ==> r@[(#[trigger] vals@[j]).0 as int] == Some(vals@[j].1),
        forall|x: int| 0 <= x < r@.len() && (#[trigger] r@[x]) is Some ==> exists|j: int| 0 <= j < vals@.len() && vals@[j].0 == x,
{
    let ghost input = vals@;
    let mut table: Vec<Option<TypedBits>> = Vec::new();
    while table.len() < n
        invariant
            table@.len() <= n,
            forall|j: int| 0 <= j < table@.len() ==> (#[trigger] table@[j]) is None,
        decreases n - table@.len(),
    {
        table.push(None);
    }
    let mut vals = vals;
    while vals.len() > 0
        invariant
            vals@.len() <= input.len(),
            vals@ == input.take(vals@.len() as int),
            table@.len() == n,
            forall|j: int| 0 <= j < input.len() ==> ((#[trigger] input[j]).0 as int) < n,
            forall|a: int, b: int| 0 <= a < b < input.len() ==> (#[trigger] input[a]).0 != (#[trigger] input[b]).0,
            forall|j: int| vals@.len() <= j < input.len() ==> table@[(#[trigger] input[j]).0 as int] == Some(input[j].1),
            forall|x: int| 0 <= x < table@.len() && (#[trigger] table@[x]) is Some ==> exists|j: int|
                vals@.len() <= j < input.len() && input[j].0 == x,
        decreases vals.len(),
    {
        let ghost k = vals@.len() - 1;
        proof {
            assert(vals@.last() == input[k]);
            assert(vals@.drop_last() =~= input.take(k));
        }
        let (place, value) = vals.pop().unwrap();
        let ghost before = table@;
        table.set(place, Some(value));
        proof {
            assert forall|j: int| vals@.len() <= j < input.len() implies table@[(#[trigger] input[j]).0 as int] == Some(input[j].1) by {
                if j > k {
                    assert(input[j].0 != input[k].0);
                }
            }
            assert forall|x: int| 0 <= x < table@.len() && (#[trigger] table@[x]) is Some implies exists|j: int|
                vals@.len() <= j < input.len() && input[j].0 == x by {
                if x != place as int {
                    assert(before[x] is Some);
                } else {
                    assert(input[k].0 == x);
                }
            }
        }
    }
    table
}

/// A bound on the type variables the whole inference of `mir` makes.
pub open spec fn infer_budget(mir: &Mir) -> nat {
    5 * mir.literals@.len() + 2 * mir.ty_equate@.len() + 2 * ops_budget(mir.ops@) + 30 * ops_deferred_budget(mir.ops@)
}

/// The function is ready for inference: the symbol table knows every slot
/// used; literals are listed once each, at literal slots; the arguments are
/// registers and they and the result have declared kinds, each slot declared
/// once; every opcode is ready and no wrap writes the empty slot; the stash
/// lists the called functions by number; and the type variables needed fit.
pub open spec fn infer_ready(mir: &Mir) -> bool {
    &&& forall|i: int| 0 <= i < mir.literals@.len() ==> (#[trigger] mir.literals@[i]).0 is Literal && named(mir, mir.literals@[i].0)
    &&& forall|i: int, j: int| 0 <= i < j < mir.literals@.len() ==> (#[trigger] mir.literals@[i]).0 != (#[trigger] mir.literals@[j]).0
    &&& forall|i: int|
        0 <= i < mir.arguments@.len() ==> (#[trigger] mir.arguments@[i]) is Register && named(mir, mir.arguments@[i]) && lookup(
            mir.ty@,
            mir.arguments@[i],
        ) is Some
    &&& named(mir, mir.return_slot)
    &&& lookup(mir.ty@, mir.return_slot) is Some
    &&& forall|i: int| 0 <= i < mir.ty@.len() ==> named(mir, (#[trigger] mir.ty@[i]).0)
    &&& forall|i: int, j: int| 0 <= i < j < mir.ty@.len() ==> (#[trigger] mir.ty@[i]).0 != (#[trigger] mir.ty@[j]).0
    &&& forall|i: int|
        0 <= i < mir.ty_equate@.len() ==> named(mir, (#[trigger] mir.ty_equate@[i]).lhs) && named(mir, mir.ty_equate@[i].rhs)
    &&& forall|i: int| 0 <= i < mir.ops@.len() ==> op_ready(mir, (#[trigger] mir.ops@[i]).op)
    &&& forall|i: int| 0 <= i < mir.ops@.len() ==> ((#[trigger] mir.ops@[i]).op matches OpCode::Wrap(w) ==> !(w.lhs is Empty))
    &&& forall|i: int| 0 <= i < mir.stash@.len() ==> (#[trigger] mir.stash@[i]).0 == FuncId(i as usize)
    &&& infer_budget(mir) <= u32::MAX
}

/// The argument slots as registers.
fn argument_registers(args: &Vec<Slot>) -> (r: Vec<RegisterId>)
    requires
        forall|i: int| 0 <= i < args@.len() ==> (#[trigger] args@[i]) is Register,
    ensures
        r@.len() == args@.len(),
        forall|i: int| 0 <= i < args@.len() ==> Slot::Register(#[trigger] r@[i]) == args@[i],
{
    let mut r: Vec<RegisterId> = Vec::new();
    let mut i: usize = 0;
    while i < args.len()
        invariant
            i <= args@.len(),
            r@.len() == i,
            forall|j: int| 0 <= j < args@.len() ==> (#[trigger] args@[j]) is Register,
            forall|j: int| 0 <= j < i ==> Slot::Register(#[trigger] r@[j]) == args@[j],
        decreases args.len() - i,
    {
        if let Slot::Register(reg) = args[i] {
            r.push(reg);
        }
        i += 1;
    }
    r
}

/// The stashed functions, in order.
fn stash_objects(stash: Vec<(FuncId, Object)>) -> (r: Vec<Object>)
    ensures
        r@.len() == stash@.len(),
        forall|i: int| 0 <= i < stash@.len() ==> #[trigger] r@[i] == stash@[i].1,
{
    let ghost input = stash@;
    let count = stash.len();
    let mut rest = reversed(stash);
    let mut out: Vec<Object> = Vec::new();
    proof {
        assert(input.subrange(0, input.len() as int) =~= input);
    }
    while rest.len() > 0
        invariant
            out@.len() <= input.len(),
            count == input.len(),
            rest@ == input.subrange(out@.len() as int, input.len() as int).reverse(),
            forall|j: int| 0 <= j < out@.len() ==> #[trigger] out@[j] == input[j].1,
        decreases rest.len(),
    {
        proof {
            assert(rest@.last() == input[out@.len() as int]);
            assert(rest@.drop_last() =~= input.subrange(out@.len() as int + 1, input.len() as int).reverse());
        }
        let (_, obj) = rest.pop().unwrap();
        out.push(obj);
    }
    out
}

/// `n` registers without source names.
fn no_names(n: usize) -> (r: Vec<Option<String>>)
    ensures
        r@.len() == n,
        forall|i: int| 0 <= i < n ==> (#[trigger] r@[i]) is None,
{
    let mut r: Vec<Option<String>> = Vec::new();
    while r.len() < n
        invariant
            r@.len() <= n,
            forall|i: int| 0 <= i < r@.len() ==> (#[trigger] r@[i]) is None,
        decreases n - r@.len(),
    {
        r.push(None);
    }
    r
}

/// The final state of an inference of `mir`: every opcode's typing rule
/// holds, each declared slot has its declared kind, every slot's type stands
/// for a kind, and the literals and the slots that wraps write have types.
pub open spec fn types_inferred(mir: &Mir, st: MirTypeInference) -> bool {
    &&& st.inv()
    &&& forall|i: int| 0 <= i < mir.ops@.len() ==> st.op_holds(mir, #[trigger] mir.ops@[i])
    &&& forall|i: int|
        0 <= i < mir.ty@.len() && !((#[trigger] mir.ty@[i]).0 is Empty) ==> st.tm(mir.ty@[i].0) == kind_term(mir.ty@[i].1@)
    &&& forall|i: int| 0 <= i < st.slot_map@.len() ==> term_kind(st.tt((#[trigger] st.slot_map@[i]).1)) is Ok
    &&& forall|i: int| 0 <= i < mir.literals@.len() ==> st.known((#[trigger] mir.literals@[i]).0)
    &&& forall|i: int| 0 <= i < mir.ty@.len() ==> st.known((#[trigger] mir.ty@[i]).0)
}

/// What inference gives for `mir`, read in the final state `st`: every
/// opcode's typing rule holds, each declared slot has its declared kind,
/// every slot's type stands for a kind, and the object records these kinds
/// for its registers, the literals' values in their kinds, and the kind of
/// each wrap; the rest is carried over.
pub open spec fn inferred(mir: &Mir, st: MirTypeInference, obj: Object) -> bool {
    &&& types_inferred(mir, st)
    &&& registers_inferred(st, obj.kind@)
    &&& literals_inferred(mir.literals@, st, obj.literals@)
    &&& wraps_inferred(mir.ops@, st, obj.ops@)
    &&& obj.register_names@.len() == obj.kind@.len()
    &&& forall|i: int| 0 <= i < obj.register_names@.len() ==> (#[trigger] obj.register_names@[i]) is None
    &&& obj.arguments@.len() == mir.arguments@.len()
    &&& forall|i: int| 0 <= i < mir.arguments@.len() ==> Slot::Register(#[trigger] obj.arguments@[i]) == mir.arguments@[i]
    &&& obj.return_slot == mir.return_slot
    &&& obj.externals@.len() == mir.stash@.len()
    &&& forall|i: int| 0 <= i < mir.stash@.len() ==> #[trigger] obj.externals@[i] == mir.stash@[i].1
    &&& obj.name == mir.name
    &&& obj.fn_id == mir.fn_id
    &&& obj.symbols == mir.symbols
}

/// An opcode whose typing rule is put off as a deferred rule.
pub open spec fn deferrable(op: OpCode) -> bool {
    match op {
        OpCode::Binary(_) => true,
        OpCode::Index(_) => true,
        OpCode::Select(_) => true,
        OpCode::Splice(_) => true,
        OpCode::Unary(u) => u.op is All || u.op is Any || u.op is Xor || u.op is Pad,
        _ => false,
    }
}

/// Deferred rule `t` is the one put off for opcode `op` at node `loc`.
pub open spec fn rule_for(t: TypeOperation, op: OpCode, loc: NodeId) -> bool {
    &&& t.loc == loc
    &&& match op {
        OpCode::Binary(b) => t.kind matches TypeOperationKind::BinOp(x) && x.op == b.op,
        OpCode::Unary(u) => t.kind matches TypeOperationKind::UnaryOp(x) && x.op == u.op,
        OpCode::Index(i) => t.kind matches TypeOperationKind::Index(x) && x.path@ == i.path@,
        OpCode::Splice(sp) => t.kind matches TypeOperationKind::Index(x) && x.path@ == sp.path@,
        OpCode::Select(_) => t.kind is Select,
        _ => false,
    }
}

/// Under `typing`, the rule the opcode applies at once holds: both sides of a
/// copy, of a complement, and the original and result of a splice get the
/// same term, a select's condition one unsigned bit, a tuple the tuple of
/// its fields' terms, and a repeat an array of its value's term with its
/// count; a bit cast with a given width that width of bits, signed or not as
/// the cast says, from 128 such bits. Binary operations,
/// indexing and the other unary operations with a deferred rule, and opcodes
/// without a rule, count as holding; any other opcode does not count.
pub open spec fn op_typed(typing: spec_fn(Slot) -> Term, op: OpCode) -> bool {
    match op {
        OpCode::Assign(a) => typing(a.lhs) == typing(a.rhs),
        OpCode::Binary(_) => true,
        OpCode::Index(_) => true,
        OpCode::Splice(x) => typing(x.lhs) == typing(x.orig),
        OpCode::Select(x) => typing(x.cond) == bits_term(SignFlag::Unsigned, 1),
        OpCode::AsBits(c) => cast_typed(typing, c, false),
        OpCode::AsSigned(c) => cast_typed(typing, c, true),
        OpCode::Tuple(t) => typing(t.lhs) == Term::App(Shape::Tuple, Seq::new(t.fields@.len(), |i: int| typing(t.fields@[i]))),
        OpCode::Repeat(x) => typing(x.lhs) == Term::App(
            Shape::Array,
            seq![typing(x.value), Term::Const(Const::Length(x.len as usize))],
        ),
        OpCode::Unary(u) => match u.op {
            AluUnary::Not => typing(u.lhs) == typing(u.arg1),
            AluUnary::All | AluUnary::Any | AluUnary::Xor | AluUnary::Pad => true,
            _ => false,
        },
        OpCode::Noop => true,
        OpCode::Comment(_) => true,
        _ => false,
    }
}

/// The rule every opcode of the list applies at once holds under `typing`.
pub open spec fn all_op_typed(typing: spec_fn(Slot) -> Term, ops: Seq<LocatedOpCode>) -> bool {
    forall|i: int| 0 <= i < ops.len() ==> op_typed(typing, #[trigger] ops[i].op)
}

/// The rules the opcodes apply at once can all be met together: some term for
/// each slot, agreeing with the types already recorded in `st` under a
/// substitution of their variables, meets each of them (see `op_typed`).
pub open spec fn ops_solvable(st: MirTypeInference, ops: Seq<LocatedOpCode>) -> bool {
    exists|typing: spec_fn(Slot) -> Term| #[trigger] st.typable(typing) && all_op_typed(typing, ops)
}

/// The opcode is a copy between two slots that have types in `st`, or has
/// no rule.
pub open spec fn copy_between_known(st: MirTypeInference, op: OpCode) -> bool {
    match op {
        OpCode::Assign(a) => st.known(a.lhs) && st.known(a.rhs),
        OpCode::Binary(b) => st.known(b.lhs) && st.known(b.arg1) && st.known(b.arg2),
        OpCode::Select(x) => st.known(x.cond) && st.known(x.lhs) && st.known(x.true_value) && st.known(x.false_value),
        OpCode::Noop => true,
        OpCode::Comment(_) => true,
        _ => false,
    }
}

/// The slot is not the empty one and has a declared kind.
pub open spec fn has_decl(mir: &Mir, s: Slot) -> bool {
    !(s is Empty) && lookup(mir.ty@, s) is Some
}

/// The declared kind of a slot.
pub open spec fn decl(mir: &Mir, s: Slot) -> KindView {
    lookup(mir.ty@, s)->Some_0@
}

/// The opcode's rule holds of the declared kinds of its slots: a copy
/// between two slots declared alike; an arithmetic or bitwise operation whose
/// result and operands are declared alike, not as signals; a comparison of
/// two operands declared alike, not as signals, into one declared bit; a
/// select on a declared bit between values declared like its result, not as
/// signals; or an opcode without a rule.
pub open spec fn declared_op(mir: &Mir, op: OpCode) -> bool {
    match op {
        OpCode::Assign(a) => has_decl(mir, a.lhs) && has_decl(mir, a.rhs) && decl(mir, a.lhs) == decl(mir, a.rhs),
        OpCode::Binary(b) => {
            &&& has_decl(mir, b.lhs)
            &&& has_decl(mir, b.arg1)
            &&& has_decl(mir, b.arg2)
            &&& decl(mir, b.arg1) == decl(mir, b.arg2)
            &&& !(decl(mir, b.arg1) is Signal)
            &&& if is_comparison_op(b.op) {
                decl(mir, b.lhs) == KindView::Bits(1)
            } else {
                (b.op is Add || b.op is Sub || b.op is Mul || b.op is BitAnd || b.op is BitOr || b.op is BitXor) && decl(mir, b.lhs)
                    == decl(mir, b.arg1)
            }
        },
        OpCode::Select(x) => {
            &&& has_decl(mir, x.cond)
            &&& has_decl(mir, x.lhs)
            &&& has_decl(mir, x.true_value)
            &&& has_decl(mir, x.false_value)
            &&& decl(mir, x.cond) == KindView::Bits(1)
            &&& decl(mir, x.true_value) == decl(mir, x.lhs)
            &&& decl(mir, x.false_value) == decl(mir, x.lhs)
            &&& !(decl(mir, x.lhs) is Signal)
        },
        OpCode::Noop => true,
        OpCode::Comment(_) => true,
        _ => false,
    }
}

/// Every opcode's rule holds of the declared kinds of its slots.
pub open spec fn declared_ops(mir: &Mir) -> bool {
    forall|i: int| 0 <= i < mir.ops@.len() ==> declared_op(mir, (#[trigger] mir.ops@[i]).op)
}

/// Each deferred opcode of a list is one of its opcodes.
pub proof fn lemma_deferred_in(ops: Seq<LocatedOpCode>, k: int)
    requires
        0 <= k < deferred_ops(ops).len(),
    ensures
        exists|i: int| 0 <= i < ops.len() && ops[i] == #[trigger] deferred_ops(ops)[k] && deferrable(ops[i].op),
    decreases ops.len(),
{
    let pre = ops.drop_last();
    if k < deferred_ops(pre).len() {
        lemma_deferred_in(pre, k);
        let i = choose|i: int| 0 <= i < pre.len() && pre[i] == #[trigger] deferred_ops(pre)[k] && deferrable(pre[i].op);
        assert(ops[i] == pre[i]);
        assert(deferred_ops(ops)[k] == deferred_ops(pre)[k]);
    } else {
        assert(deferred_ops(ops)[k] == ops.last());
        assert(ops[ops.len() - 1] == ops.last());
    }
}

/// Each declared slot gets the term of its declared kind.
pub open spec fn declared_typing(mir: &Mir) -> spec_fn(Slot) -> Term {
    |s: Slot| if !(s is Empty) && lookup(mir.ty@, s) is Some {
        kind_term(lookup(mir.ty@, s)->Some_0@)
    } else {
        Term::Const(Const::Empty)
    }
}

/// `sigma` gives the result and both operands of an arithmetic or bitwise
/// operation one term, and that term is not a signal's.
pub open spec fn data_rule_solved(sigma: spec_fn(VarNum) -> Term, l: Term, a: Term, b: Term) -> bool {
    &&& inst(sigma, l) == inst(sigma, a)
    &&& inst(sigma, l) == inst(sigma, b)
    &&& !is_signal_term(inst(sigma, a))
}

/// `sigma` makes the result of a comparison one unsigned bit and gives both
/// operands one term, not that of a signal.
pub open spec fn compare_rule_solved(sigma: spec_fn(VarNum) -> Term, l: Term, a: Term, b: Term) -> bool {
    &&& inst(sigma, l) == bits_term(SignFlag::Unsigned, 1)
    &&& inst(sigma, a) == inst(sigma, b)
    &&& !is_signal_term(inst(sigma, a))
}

/// `sigma` gives the result of a shift the term of what is shifted, and the
/// amount, where it is bits, an unsigned sign.
pub open spec fn shift_rule_solved(sigma: spec_fn(VarNum) -> Term, l: Term, a: Term, b: Term) -> bool {
    &&& inst(sigma, l) == inst(sigma, a)
    &&& app_arg(inst(sigma, b), Shape::Bits, 0) is Some ==> app_arg(inst(sigma, b), Shape::Bits, 0) == Some(
        Term::Const(Const::Signed(SignFlag::Unsigned)),
    )
}

/// The first argument of an application is carried through an instance.
pub proof fn lemma_app_arg_inst(sigma: spec_fn(VarNum) -> Term, t: Term, sh: Shape)
    requires
        app_arg(t, sh, 0) is Some,
    ensures
        app_arg(inst(sigma, t), sh, 0) == Some(inst(sigma, app_arg(t, sh, 0)->Some_0)),
{
    if let Term::App(s, ts) = t {
        crate::compiler::mir::ty::lemma_inst_seq_index(sigma, ts);
    }
}

/// The deferred rule already holds in `st`, on types without variables: an
/// arithmetic or bitwise operation's result and operands have one type, not a
/// signal's; a comparison's result is one unsigned bit and its operands have
/// one type, not a signal's; a select's result and both values have one type,
/// not a signal's. Other rules do not count.
pub open spec fn rule_met(st: MirTypeInference, t: TypeOperation) -> bool {
    match t.kind {
        TypeOperationKind::BinOp(x) => {
            &&& ground(st.tt(x.lhs))
            &&& ground(st.tt(x.arg1))
            &&& ground(st.tt(x.arg2))
            &&& st.tt(x.arg1) == st.tt(x.arg2)
            &&& !is_signal_term(st.tt(x.arg1))
            &&& if is_comparison_op(x.op) {
                st.tt(x.lhs) == bits_term(SignFlag::Unsigned, 1)
            } else {
                (x.op is Add || x.op is Sub || x.op is Mul || x.op is BitAnd || x.op is BitOr || x.op is BitXor) && st.tt(x.lhs)
                    == st.tt(x.arg1)
            }
        },
        TypeOperationKind::Select(x) => {
            &&& ground(st.tt(x.lhs))
            &&& st.tt(x.lhs) == st.tt(x.true_value)
            &&& st.tt(x.lhs) == st.tt(x.false_value)
            &&& !is_signal_term(st.tt(x.lhs))
        },
        _ => false,
    }
}

/// Every deferred rule of `st` already holds.
pub open spec fn all_rules_met(st: MirTypeInference) -> bool {
    forall|k: int| 0 <= k < st.type_ops@.len() ==> rule_met(st, #[trigger] st.type_ops@[k])
}

/// A term whose instance under `sigma` is not a signal's is not a signal's.
pub proof fn lemma_not_signal_under(sigma: spec_fn(VarNum) -> Term, t: Term, u: Term)
    requires
        inst(sigma, t) == inst(sigma, u),
        !is_signal_term(inst(sigma, u)),
    ensures
        app_arg(t, Shape::Signal, 0) is None,
        !is_signal_term(t),
{
    if let Term::App(sh, ts) = t {
        assert(inst(sigma, t) == Term::App(sh, crate::compiler::mir::ty::inst_seq(sigma, ts)));
    }
}

/// Growing a context keeps the instance of each of its types.
pub proof fn lemma_grown_under(sigma: spec_fn(VarNum) -> Term, old: UnifyContext, new: UnifyContext, t: TypeId)
    requires
        old.wf(),
        new.grows_from(old),
        old.has(t),
    ensures
        new.has(t),
        new.term(t) == old.term(t),
        inst(sigma, new.term(t)) == inst(sigma, old.term(t)),
{
    new.lemma_grows_keeps_terms(old, t);
}

/// Under `typing`, a cast to `n` bits gives its result `n` bits, signed or
/// not as the cast says, and its argument 128 of them; a cast without a
/// width does not count.
pub open spec fn cast_typed(typing: spec_fn(Slot) -> Term, c: Cast, signed: bool) -> bool {
    let f = if signed {
        SignFlag::Signed
    } else {
        SignFlag::Unsigned
    };
    &&& c.len is Some
    &&& typing(c.lhs) == bits_term(f, c.len->Some_0 as nat)
    &&& typing(c.arg) == bits_term(f, 128)
}

/// The deferrable opcodes of a list, in order.
pub open spec fn deferred_ops(ops: Seq<LocatedOpCode>) -> Seq<LocatedOpCode>
    decreases ops.len(),
{
    if ops.len() == 0 {
        Seq::empty()
    } else {
        deferred_ops(ops.drop_last()) + if deferrable(ops.last().op) {
            seq![ops.last()]
        } else {
            Seq::empty()
        }
    }
}

/// `after` is `before` followed by exactly one deferred rule for each
/// deferrable opcode of `ops`, in order.
pub open spec fn rules_added(before: Seq<TypeOperation>, after: Seq<TypeOperation>, ops: Seq<LocatedOpCode>) -> bool {
    &&& after.len() == before.len() + deferred_ops(ops).len()
    &&& forall|k: int| 0 <= k < before.len() ==> #[trigger] after[k] == before[k]
    &&& forall|k: int|
        0 <= k < deferred_ops(ops).len() ==> rule_for(after[before.len() + k], #[trigger] deferred_ops(ops)[k].op, deferred_ops(ops)[k].id)
}

/// One rule for the opcode was put after the earlier ones.
pub open spec fn one_rule_added(before: Seq<TypeOperation>, after: Seq<TypeOperation>, op: OpCode, loc: NodeId) -> bool {
    after.len() == before.len() + 1 && after.drop_last() == before && rule_for(after.last(), op, loc)
}

/// The slot is an argument, the result, or has a declared kind.
pub open spec fn declared_slot(mir: &Mir, s: Slot) -> bool {
    mir.arguments@.contains(s) || s == mir.return_slot || exists|j: int| 0 <= j < mir.ty@.len() && (#[trigger] mir.ty@[j]).0 == s
}

/// Every slot with a recorded type is declared.
pub open spec fn keys_declared(mir: &Mir, st: MirTypeInference) -> bool {
    forall|s: Slot| #[trigger] lookup(st.slot_map@, s) is Some ==> declared_slot(mir, s)
}

/// A function each of whose opcodes has its rule hold of the declared kinds
/// of its slots (see `declared_op`), without literals or type equations, none
/// of whose declared slots is the register numbered `usize::MAX`.
pub open spec fn declared_program(mir: &Mir) -> bool {
    &&& declared_ops(mir)
    &&& mir.literals@.len() == 0
    &&& mir.ty_equate@.len() == 0
    &&& forall|s: Slot| #[trigger] declared_slot(mir, s) ==> s != Slot::Register(RegisterId(usize::MAX))
}

/// Every recorded slot type stands for a complete kind: a term without
/// variables that reads as a kind.
pub open spec fn slots_kinded(st: MirTypeInference) -> bool {
    forall|s: Slot|
        #[trigger] lookup(st.slot_map@, s) is Some ==> ground(st.tt(st.sty(s))) && term_kind(st.tt(st.sty(s))) is Ok
}

/// The sign and length of a bit-vector type whose sign and length are both
/// known.
pub open spec fn bits_parts(t: Term) -> Option<(SignFlag, nat)> {
    match t {
        Term::App(Shape::Bits, ts) => if ts.len() == 2 && ts[0] is Const && ts[0]->Const_0 is Signed && ts[1] is Const
            && ts[1]->Const_0 is Length {
            Some((ts[0]->Const_0->Signed_0, ts[1]->Const_0->Length_0 as nat))
        } else {
            None
        },
        _ => None,
    }
}

/// The type of an extending sum (`subtract` false) or difference of values of
/// types `t1` and `t2`, both bit vectors of known sign and length: a sum
/// keeps the common sign of its operands, a difference is signed, and either
/// is one bit wider than the wider operand. A sum of operands of different
/// signs has none.
pub open spec fn wide_type(t1: Term, t2: Term, subtract: bool) -> Option<Term> {
    let (f1, n1) = bits_parts(t1)->Some_0;
    let (f2, n2) = bits_parts(t2)->Some_0;
    let n = if n1 > n2 { n1 } else { n2 };
    if subtract {
        Some(bits_term(SignFlag::Signed, n + 1))
    } else if f1 == f2 {
        Some(bits_term(f1, n + 1))
    } else {
        None
    }
}

/// The type of a padded value of type `t`, a bit vector of known sign and
/// length: the same sign, one bit wider.
pub open spec fn pad_type(t: Term) -> Term {
    bits_term(bits_parts(t)->Some_0.0, bits_parts(t)->Some_0.1 + 1)
}

/// A bit-vector type of known sign and length is that ground term.
pub proof fn lemma_bits_parts(t: Term)
    requires
        bits_parts(t) is Some,
    ensures
        t == bits_term(bits_parts(t)->Some_0.0, bits_parts(t)->Some_0.1),
        ground(t),
        app_arg(t, Shape::Bits, 0) == Some(Term::Const(Const::Signed(bits_parts(t)->Some_0.0))),
        app_arg(t, Shape::Bits, 1) == Some(Term::Const(Const::Length(bits_parts(t)->Some_0.1 as usize))),
{
    let (f, n) = bits_parts(t)->Some_0;
    if let Term::App(_, ts) = t {
        assert(ts =~= seq![Term::Const(Const::Signed(f)), Term::Const(Const::Length(n as usize))]);
    }
    lemma_bits_term_ground(f, n);
}

pub proof fn lemma_bits_term_ground(f: SignFlag, n: nat)
    ensures
        ground(bits_term(f, n)),
{
    match f {
        SignFlag::Signed => {
            lemma_kind_term_ground(KindView::Signed(n));
        },
        SignFlag::Unsigned => {
            lemma_kind_term_ground(KindView::Bits(n));
        },
    }
}

/// The operands of an extending sum or difference, or of a pad, are bit
/// vectors of known sign and length.
pub open spec fn extending_args_known(st: MirTypeInference, t: TypeOperation) -> bool {
    match t.kind {
        TypeOperationKind::BinOp(x) => (x.op is XAdd || x.op is XSub) && bits_parts(st.tt(x.arg1)) is Some && bits_parts(
            st.tt(x.arg2),
        ) is Some,
        TypeOperationKind::UnaryOp(u) => u.op is Pad && bits_parts(st.tt(u.arg1)) is Some,
        _ => false,
    }
}

/// The deferred rule of an extending sum or difference, or of a pad, holds of
/// the types: the result is the type `wide_type` (resp. `pad_type`) gives for
/// its operands.
pub open spec fn extending_rule_met(st: MirTypeInference, t: TypeOperation) -> bool {
    match t.kind {
        TypeOperationKind::BinOp(x) => wide_type(st.tt(x.arg1), st.tt(x.arg2), x.op is XSub) == Some(st.tt(x.lhs)),
        TypeOperationKind::UnaryOp(u) => st.tt(u.lhs) == pad_type(st.tt(u.arg1)),
        _ => true,
    }
}

/// What the extending rules give, on every pair of bit-vector types of known
/// sign and length: an extending sum of operands of one sign keeps that sign
/// and is one bit wider than the wider operand, and operands of different
/// signs have no sum; an extending difference is signed and one bit wider
/// than the wider operand; a pad keeps the sign and adds one bit.
pub proof fn law_extending_types(f1: SignFlag, n1: nat, f2: SignFlag, n2: nat)
    requires
        n1 <= usize::MAX,
        n2 <= usize::MAX,
    ensures
        wide_type(bits_term(f1, n1), bits_term(f2, n2), false) == if f1 == f2 {
            Some(bits_term(f1, (if n1 > n2 { n1 } else { n2 }) + 1))
        } else {
            None::<Term>
        },
        wide_type(bits_term(f1, n1), bits_term(f2, n2), true) == Some(
            bits_term(SignFlag::Signed, (if n1 > n2 { n1 } else { n2 }) + 1),
        ),
        pad_type(bits_term(f1, n1)) == bits_term(f1, n1 + 1),
{
    let t1 = bits_term(f1, n1);
    let t2 = bits_term(f2, n2);
    if let Term::App(_, ts) = t1 {
        assert(ts[1] == Term::Const(Const::Length(n1 as usize)));
    }
    if let Term::App(_, ts) = t2 {
        assert(ts[1] == Term::Const(Const::Length(n2 as usize)));
    }
    assert(bits_parts(t1) == Some((f1, n1)));
    assert(bits_parts(t2) == Some((f2, n2)));
}

/// The state of the type inference of one function: the unification
/// context, the type given to each slot, and the rules put off for later.
pub struct MirTypeInference {
    pub ctx: UnifyContext,
    pub slot_map: Vec<(Slot, TypeId)>,
    pub type_ops: Vec<TypeOperation>,
}

impl MirTypeInference {
    /// Every type the state refers to is a node of the context.
    pub open spec fn inv(&self) -> bool {
        &&& self.ctx.wf()
        &&& forall|s: Slot| #[trigger] lookup(self.slot_map@, s) is Some ==> self.ctx.has(self.sty(s))
        &&& forall|i: int, j: int|
            0 <= i < j < self.slot_map@.len() ==> (#[trigger] self.slot_map@[i]).0 != (#[trigger] self.slot_map@[j]).0
        &&& forall|k: int, j: int|
            0 <= k < self.type_ops@.len() && 0 <= j < type_op_ids(self.type_ops@[k].kind).len() ==> self.ctx.has(
                #[trigger] type_op_ids(self.type_ops@[k].kind)[j],
            )
    }

    /// The slot has a type: it is the empty slot or one with an entry.
    pub open spec fn known(&self, s: Slot) -> bool {
        s is Empty || lookup(self.slot_map@, s) is Some
    }

    /// The type recorded for a slot.
    pub open spec fn sty(&self, s: Slot) -> TypeId {
        lookup(self.slot_map@, s)->Some_0
    }

    /// The term a slot's type stands for (the empty slot has the empty type).
    pub open spec fn tm(&self, s: Slot) -> Term {
        if s is Empty {
            Term::Const(Const::Empty)
        } else {
            self.ctx.term(self.sty(s))
        }
    }

    /// The term a type stands for.
    pub open spec fn tt(&self, t: TypeId) -> Term {
        self.ctx.term(t)
    }

    /// After a copy, both slots have the same type.
    pub open spec fn assign_holds(&self, a: Assign) -> bool {
        &&& self.known(a.lhs)
        &&& self.known(a.rhs)
        &&& self.tm(a.lhs) == self.tm(a.rhs)
    }

    /// An array's type is an array of as many elements as are listed, each of
    /// the element type.
    pub open spec fn array_holds(&self, a: Array) -> bool {
        &&& self.known(a.lhs)
        &&& forall|i: int| 0 <= i < a.elements@.len() ==> self.known(#[trigger] a.elements@[i])
        &&& exists|w: TypeId|
            #[trigger] app_of(self.ctx, w, Shape::Array, 2) && self.tt(arg_of(self.ctx, w, 1)) == Term::Const(
                Const::Length(a.elements@.len() as usize),
            ) && self.tm(a.lhs) == self.tt(w) && forall|i: int|
                0 <= i < a.elements@.len() ==> self.tm(#[trigger] a.elements@[i]) == self.tt(arg_of(self.ctx, w, 0))
    }

    /// Each tested value has the discriminant's type and each result the
    /// type of the case.
    pub open spec fn case_holds(&self, c: Case) -> bool {
        &&& self.known(c.lhs)
        &&& self.known(c.discriminant)
        &&& forall|i: int| 0 <= i < c.table@.len() ==> {
            &&& (#[trigger] c.table@[i]).0 matches CaseArgument::Slot(t) ==> self.known(t) && self.tm(t) == self.tm(c.discriminant)
            &&& self.known(c.table@[i].1)
            &&& self.tm(c.table@[i].1) == self.tm(c.lhs)
        }
    }

    /// A repeated value gives an array of `len` elements of its type.
    pub open spec fn repeat_holds(&self, r: Repeat) -> bool {
        &&& self.known(r.lhs)
        &&& self.known(r.value)
        &&& exists|w: TypeId|
            #[trigger] app_of(self.ctx, w, Shape::Array, 2) && self.tt(arg_of(self.ctx, w, 1)) == Term::Const(
                Const::Length(r.len as usize),
            ) && self.tm(r.lhs) == self.tt(w) && self.tm(r.value) == self.tt(arg_of(self.ctx, w, 0))
    }

    /// A tuple's type lists the types of its fields.
    pub open spec fn tuple_holds(&self, t: Tuple) -> bool {
        &&& self.known(t.lhs)
        &&& forall|i: int| 0 <= i < t.fields@.len() ==> self.known(#[trigger] t.fields@[i])
        &&& exists|w: TypeId|
            #[trigger] app_of(self.ctx, w, Shape::Tuple, t.fields@.len()) && self.tm(t.lhs) == self.tt(w) && forall|i: int|
                0 <= i < t.fields@.len() ==> self.tm(#[trigger] t.fields@[i]) == self.tt(arg_of(self.ctx, w, i))
    }

    /// A retimed value is a signal carrying the argument's type, on the given
    /// clock if one is named.
    pub open spec fn retime_holds(&self, r: Retime) -> bool {
        &&& self.known(r.lhs)
        &&& self.known(r.arg)
        &&& exists|w: TypeId|
            #[trigger] app_of(self.ctx, w, Shape::Signal, 2) && self.tm(r.lhs) == self.tt(w) && self.tm(r.arg) == self.tt(
                arg_of(self.ctx, w, 0),
            ) && (r.color matches Some(c) ==> self.tt(arg_of(self.ctx, w, 1)) == Term::Const(Const::Clock(c)))
    }

    /// A cast to bits (`signed` false) or to a signed value: the result is a
    /// bit vector of that sign, of the given length if one is given, and the
    /// argument is read at 128 bits of that sign.
    pub open spec fn cast_holds(&self, c: Cast, signed: bool) -> bool {
        let flag = if signed {
            SignFlag::Signed
        } else {
            SignFlag::Unsigned
        };
        &&& self.known(c.lhs)
        &&& self.known(c.arg)
        &&& self.tm(c.arg) == bits_term(flag, 128)
        &&& exists|w: TypeId|
            #[trigger] app_of(self.ctx, w, Shape::Bits, 2) && self.tt(arg_of(self.ctx, w, 0)) == Term::Const(Const::Signed(flag))
                && (c.len matches Some(n) ==> self.tt(arg_of(self.ctx, w, 1)) == Term::Const(Const::Length(n))) && self.tm(c.lhs)
                == self.tt(w)
    }

    /// A resize keeps the sign and sets the length if one is given.
    pub open spec fn resize_holds(&self, c: Cast) -> bool {
        &&& self.known(c.lhs)
        &&& self.known(c.arg)
        &&& exists|w1: TypeId, w2: TypeId|
            #![trigger app_of(self.ctx, w1, Shape::Bits, 2), app_of(self.ctx, w2, Shape::Bits, 2)]
            app_of(self.ctx, w1, Shape::Bits, 2) && app_of(self.ctx, w2, Shape::Bits, 2) && self.tt(arg_of(self.ctx, w1, 0))
                == self.tt(arg_of(self.ctx, w2, 0)) && (c.len matches Some(n) ==> self.tt(arg_of(self.ctx, w1, 1)) == Term::Const(
                Const::Length(n),
            )) && self.tm(c.lhs) == self.tt(w1) && self.tm(c.arg) == self.tt(w2)
    }

    /// A deferred rule is recorded at `k` for the node `loc`.
    pub open spec fn deferred_at(&self, k: int, loc: NodeId) -> bool {
        0 <= k < self.type_ops@.len() && self.type_ops@[k].loc == loc
    }

    /// The condition is one bit, and the rule relating the three values is
    /// put off.
    pub open spec fn select_holds(&self, x: Select, loc: NodeId) -> bool {
        &&& self.known(x.cond)
        &&& self.known(x.lhs)
        &&& self.known(x.true_value)
        &&& self.known(x.false_value)
        &&& self.tm(x.cond) == bits_term(SignFlag::Unsigned, 1)
        &&& exists|k: int|
            #[trigger] self.deferred_at(k, loc) && (self.type_ops@[k].kind matches TypeOperationKind::Select(t) && self.tt(t.lhs)
                == self.tm(x.lhs) && self.tt(t.true_value) == self.tm(x.true_value) && self.tt(t.false_value) == self.tm(
                x.false_value,
            ))
    }

    /// The rule of a binary operation is put off.
    pub open spec fn binary_holds(&self, x: Binary, loc: NodeId) -> bool {
        &&& self.known(x.lhs)
        &&& self.known(x.arg1)
        &&& self.known(x.arg2)
        &&& exists|k: int|
            #[trigger] self.deferred_at(k, loc) && (self.type_ops@[k].kind matches TypeOperationKind::BinOp(t) && t.op == x.op
                && self.tt(t.lhs) == self.tm(x.lhs) && self.tt(t.arg1) == self.tm(x.arg1) && self.tt(t.arg2) == self.tm(x.arg2))
    }

    /// The rule of an indexing is put off.
    pub open spec fn index_holds(&self, x: Index, loc: NodeId) -> bool {
        &&& self.known(x.lhs)
        &&& self.known(x.arg)
        &&& exists|k: int|
            #[trigger] self.deferred_at(k, loc) && (self.type_ops@[k].kind matches TypeOperationKind::Index(t) && t.path@ == x.path@
                && self.tt(t.lhs) == self.tm(x.lhs) && self.tt(t.arg) == self.tm(x.arg))
    }

    /// A splice has the type of the original, and the rule that the
    /// substituted value is the part the path selects is put off.
    pub open spec fn splice_holds(&self, x: Splice, loc: NodeId) -> bool {
        &&& self.known(x.lhs)
        &&& self.known(x.orig)
        &&& self.known(x.subst)
        &&& self.tm(x.lhs) == self.tm(x.orig)
        &&& exists|k: int|
            #[trigger] self.deferred_at(k, loc) && (self.type_ops@[k].kind matches TypeOperationKind::Index(t) && t.path@ == x.path@
                && self.tt(t.lhs) == self.tm(x.subst) && self.tt(t.arg) == self.tm(x.lhs))
    }

    /// The typing rule of each unary operation.
    pub open spec fn unary_holds(&self, u: Unary, loc: NodeId) -> bool {
        &&& self.known(u.lhs)
        &&& self.known(u.arg1)
        &&& match u.op {
            AluUnary::Not => self.tm(u.lhs) == self.tm(u.arg1),
            AluUnary::Neg => exists|w: TypeId|
                #[trigger] app_of(self.ctx, w, Shape::Bits, 2) && self.tt(arg_of(self.ctx, w, 0)) == Term::Const(
                    Const::Signed(SignFlag::Signed),
                ) && self.tm(u.lhs) == self.tt(w) && self.tm(u.arg1) == self.tt(w),
            AluUnary::All | AluUnary::Any | AluUnary::Xor | AluUnary::Pad => exists|k: int|
                #[trigger] self.deferred_at(k, loc) && (self.type_ops@[k].kind matches TypeOperationKind::UnaryOp(t) && t.op
                    == u.op && self.tt(t.lhs) == self.tm(u.lhs) && self.tt(t.arg1) == self.tm(u.arg1)),
            AluUnary::Unsigned => self.sign_cast_holds(u.lhs, u.arg1, SignFlag::Unsigned, SignFlag::Signed),
            AluUnary::Signed => self.sign_cast_holds(u.lhs, u.arg1, SignFlag::Signed, SignFlag::Unsigned),
            AluUnary::Val => exists|w: TypeId|
                #[trigger] app_of(self.ctx, w, Shape::Signal, 2) && self.tm(u.arg1) == self.tt(w) && self.tm(u.lhs) == self.tt(
                    arg_of(self.ctx, w, 0),
                ),
        }
    }

    /// `lhs` is a bit vector of sign `to` and `arg` one of sign `from`, of the
    /// same length.
    pub open spec fn sign_cast_holds(&self, lhs: Slot, arg: Slot, to: SignFlag, from: SignFlag) -> bool {
        exists|w1: TypeId, w2: TypeId|
            #![trigger app_of(self.ctx, w1, Shape::Bits, 2), app_of(self.ctx, w2, Shape::Bits, 2)]
            app_of(self.ctx, w1, Shape::Bits, 2) && app_of(self.ctx, w2, Shape::Bits, 2) && self.tt(arg_of(self.ctx, w1, 0))
                == Term::Const(Const::Signed(to)) && self.tt(arg_of(self.ctx, w2, 0)) == Term::Const(Const::Signed(from))
                && self.tt(arg_of(self.ctx, w1, 1)) == self.tt(arg_of(self.ctx, w2, 1)) && self.tm(lhs) == self.tt(w1)
                && self.tm(arg) == self.tt(w2)
    }

    /// A struct has its template's kind, each field the kind of its member,
    /// and the rest, if any, the struct's kind.
    pub open spec fn struct_holds(&self, x: Struct) -> bool {
        &&& self.known(x.lhs)
        &&& x.template.kind@ is Struct
        &&& self.tm(x.lhs) == kind_term(x.template.kind@)
        &&& forall|i: int|
            0 <= i < x.fields@.len() ==> member_kind(struct_fields(x.template.kind@), (#[trigger] x.fields@[i]).member) is Some
                && self.known(x.fields@[i].value) && self.tm(x.fields@[i].value) == kind_term(
                member_kind(struct_fields(x.template.kind@), x.fields@[i].member)->Some_0,
            )
        &&& x.rest matches Some(r) ==> self.known(r) && self.tm(r) == kind_term(x.template.kind@)
    }

    /// A call's arguments and result have the kinds the called function
    /// declares (arguments beyond the shorter list are not matched).
    pub open spec fn exec_holds(&self, mir: &Mir, e: Exec) -> bool {
        let obj = lookup(mir.stash@, e.id)->Some_0;
        &&& self.known(e.lhs)
        &&& self.tm(e.lhs) == kind_term(obj.slot_kind(obj.return_slot)->Some_0)
        &&& forall|i: int|
            0 <= i < e.args@.len() && i < obj.arguments@.len() ==> self.known(#[trigger] e.args@[i]) && self.tm(e.args@[i])
                == kind_term(obj.slot_kind(Slot::Register(obj.arguments@[i]))->Some_0)
    }

    /// A wrapped value has the kind given for it, if any.
    pub open spec fn wrap_holds(&self, x: Wrap) -> bool {
        &&& self.known(x.lhs)
        &&& self.known(x.arg)
        &&& x.kind matches Some(k) ==> self.tm(x.lhs) == kind_term(k@)
    }

    /// The typing rule of an opcode holds.
    pub open spec fn op_holds(&self, mir: &Mir, lop: LocatedOpCode) -> bool {
        match lop.op {
            OpCode::Noop => true,
            OpCode::Comment(_) => true,
            OpCode::Binary(b) => self.binary_holds(b, lop.id),
            OpCode::Unary(u) => self.unary_holds(u, lop.id),
            OpCode::Array(a) => self.array_holds(a),
            OpCode::Assign(a) => self.assign_holds(a),
            OpCode::AsBits(c) => self.cast_holds(c, false),
            OpCode::AsSigned(c) => self.cast_holds(c, true),
            OpCode::Resize(c) => self.resize_holds(c),
            OpCode::Case(c) => self.case_holds(c),
            OpCode::Exec(e) => self.exec_holds(mir, e),
            OpCode::Index(x) => self.index_holds(x, lop.id),
            OpCode::Repeat(r) => self.repeat_holds(r),
            OpCode::Retime(r) => self.retime_holds(r),
            OpCode::Select(x) => self.select_holds(x, lop.id),
            OpCode::Splice(x) => self.splice_holds(x, lop.id),
            OpCode::Struct(x) => self.struct_holds(x),
            OpCode::Tuple(t) => self.tuple_holds(t),
            OpCode::Wrap(w) => self.wrap_holds(w),
        }
    }

    /// The run-time indices in the paths of the deferred rules have source
    /// nodes.
    pub open spec fn paths_named(&self, mir: &Mir) -> bool {
        forall|k: int|
            0 <= k < self.type_ops@.len() ==> ((#[trigger] self.type_ops@[k]).kind matches TypeOperationKind::Index(t)
                ==> path_named(mir, t.path@))
    }

    /// Under `sigma`, each slot with a type stands for the term `typing` gives it.
    pub open spec fn typed_by(&self, sigma: spec_fn(VarNum) -> Term, typing: spec_fn(Slot) -> Term) -> bool {
        forall|s: Slot| #[trigger] self.known(s) ==> inst(sigma, self.tm(s)) == typing(s)
    }

    /// Some substitution of the variables gives every slot with a type the
    /// term `typing` gives it.
    pub open spec fn typable(&self, typing: spec_fn(Slot) -> Term) -> bool {
        exists|sigma: spec_fn(VarNum) -> Term| self.typed_by(sigma, typing)
    }

    /// `self` keeps what `old` knew: the context evolved from it, slot types
    /// are kept and deferred rules are only added.
    #[verifier::opaque]
    pub open spec fn evolved_from(&self, old: MirTypeInference) -> bool {
        &&& evolves(old.ctx, self.ctx)
        &&& forall|s: Slot| #[trigger] lookup(old.slot_map@, s) is Some ==> lookup(self.slot_map@, s) == lookup(old.slot_map@, s)
        &&& extends(old.type_ops@, self.type_ops@)
    }

    /// A state whose typed slots all have their declared kinds fits the
    /// declared typing.
    pub proof fn lemma_declared_typable(mir: &Mir, st: MirTypeInference)
        requires
            forall|s: Slot|
                #[trigger] lookup(st.slot_map@, s) is Some && !(s is Empty) ==> lookup(mir.ty@, s) is Some && st.tm(s) == kind_term(
                    lookup(mir.ty@, s)->Some_0@,
                ),
        ensures
            st.typable(declared_typing(mir)),
    {
        let sigma = |v: VarNum| Term::Var(v);
        assert forall|s: Slot| #[trigger] st.known(s) implies inst(sigma, st.tm(s)) == declared_typing(mir)(s) by {
            if !(s is Empty) {
                lemma_kind_term_ground(lookup(mir.ty@, s)->Some_0@);
                lemma_inst_ground(sigma, st.tm(s));
            }
        }
        assert(st.typed_by(sigma, declared_typing(mir)));
    }

    /// When every opcode copies between slots declared with equal kinds, the
    /// state after the declarations are read can type all the copies.
    proof fn lemma_declared_start(mir: &Mir, st: MirTypeInference)
        requires
            infer_ready(mir),
            declared_ops(mir),
            forall|x: Slot| #[trigger] lookup(st.slot_map@, x) is Some ==> declared_slot(mir, x),
            forall|i: int|
                0 <= i < mir.ty@.len() ==> st.known((#[trigger] mir.ty@[i]).0) && (!(mir.ty@[i].0 is Empty) ==> st.tm(
                    mir.ty@[i].0,
                ) == kind_term(mir.ty@[i].1@)),
        ensures
            forall|x: Slot| #[trigger] lookup(st.slot_map@, x) is Some && !(x is Empty) ==> lookup(mir.ty@, x) is Some && st.tm(x)
                == kind_term(lookup(mir.ty@, x)->Some_0@),
            ops_solvable(st, mir.ops@),
            forall|i: int| 0 <= i < mir.ops@.len() ==> copy_between_known(st, #[trigger] mir.ops@[i].op),
    {
        assert forall|x: Slot| #[trigger] lookup(st.slot_map@, x) is Some && !(x is Empty) implies lookup(mir.ty@, x) is Some
            && st.tm(x) == kind_term(lookup(mir.ty@, x)->Some_0@) by {
            assert(declared_slot(mir, x));
            if mir.arguments@.contains(x) {
                let i = choose|i: int| 0 <= i < mir.arguments@.len() && mir.arguments@[i] == x;
                assert(lookup(mir.ty@, mir.arguments@[i]) is Some);
            } else if x != mir.return_slot {
                let j = choose|j: int| 0 <= j < mir.ty@.len() && (#[trigger] mir.ty@[j]).0 == x;
                assert forall|k: int| 0 <= k < j implies (#[trigger] mir.ty@[k]).0 != x by {
                    assert(mir.ty@[k].0 != mir.ty@[j].0);
                }
                assert(first_at(mir.ty@, x, j));
                lemma_lookup_first(mir.ty@, x, j);
            }
            let j = Self::lemma_ty_entry(mir, x);
            assert(st.tm(mir.ty@[j].0) == kind_term(mir.ty@[j].1@));
        }
        Self::lemma_declared_typable(mir, st);
        assert forall|i: int| 0 <= i < mir.ops@.len() implies op_typed(declared_typing(mir), #[trigger] mir.ops@[i].op)
            && copy_between_known(st, mir.ops@[i].op) by {
            assert(declared_op(mir, mir.ops@[i].op));
            if let OpCode::Assign(a) = mir.ops@[i].op {
                let jl = Self::lemma_ty_entry(mir, a.lhs);
                let jr = Self::lemma_ty_entry(mir, a.rhs);
                assert(st.known(mir.ty@[jl].0));
                assert(st.known(mir.ty@[jr].0));
            }
            if let OpCode::Select(x) = mir.ops@[i].op {
                let jc = Self::lemma_ty_entry(mir, x.cond);
                let jl = Self::lemma_ty_entry(mir, x.lhs);
                let jt = Self::lemma_ty_entry(mir, x.true_value);
                let jf = Self::lemma_ty_entry(mir, x.false_value);
                assert(st.known(mir.ty@[jc].0));
                assert(st.known(mir.ty@[jl].0));
                assert(st.known(mir.ty@[jt].0));
                assert(st.known(mir.ty@[jf].0));
                assert(st.tm(x.cond) == kind_term(decl(mir, x.cond)));
            }
            if let OpCode::Binary(b) = mir.ops@[i].op {
                let jl = Self::lemma_ty_entry(mir, b.lhs);
                let j1 = Self::lemma_ty_entry(mir, b.arg1);
                let j2 = Self::lemma_ty_entry(mir, b.arg2);
                assert(st.known(mir.ty@[jl].0));
                assert(st.known(mir.ty@[j1].0));
                assert(st.known(mir.ty@[j2].0));
            }
        }
        assert(all_op_typed(declared_typing(mir), mir.ops@));
        assert(ops_solvable(st, mir.ops@));
    }

    /// When every opcode's rule holds of the declared kinds, the rules the two
    /// passes over the opcodes put off already hold.
    proof fn lemma_declared_rules_met(mir: &Mir, s_decl: MirTypeInference, s_first: MirTypeInference, s_ops: MirTypeInference)
        requires
            infer_ready(mir),
            declared_ops(mir),
            s_decl.inv(),
            s_first.inv(),
            s_decl.type_ops@.len() == 0,
            forall|x: Slot| #[trigger] lookup(s_decl.slot_map@, x) is Some && !(x is Empty) ==> lookup(mir.ty@, x) is Some
                && s_decl.tm(x) == kind_term(lookup(mir.ty@, x)->Some_0@),
            forall|i: int| 0 <= i < mir.ty@.len() ==> s_decl.known((#[trigger] mir.ty@[i]).0),
            s_first.evolved_from(s_decl),
            s_ops.evolved_from(s_first),
            rules_added(s_decl.type_ops@, s_first.type_ops@, mir.ops@),
            rules_added(s_first.type_ops@, s_ops.type_ops@, mir.ops@),
            forall|k: int|
                0 <= k < deferred_ops(mir.ops@).len() ==> s_first.rule_ties(
                    #[trigger] s_first.type_ops@[s_decl.type_ops@.len() + k],
                    deferred_ops(mir.ops@)[k].op,
                ),
            forall|k: int|
                0 <= k < deferred_ops(mir.ops@).len() ==> s_ops.rule_ties(
                    #[trigger] s_ops.type_ops@[s_first.type_ops@.len() + k],
                    deferred_ops(mir.ops@)[k].op,
                ),
        ensures
            all_rules_met(s_ops),
    {
        let d = deferred_ops(mir.ops@);
        MirTypeInference::lemma_evolved_trans(s_decl, s_first, s_ops);
        assert forall|k: int| 0 <= k < s_ops.type_ops@.len() implies rule_met(s_ops, #[trigger] s_ops.type_ops@[k]) by {
            let j = if k < d.len() { k } else { k - d.len() };
            if k < d.len() {
                assert(s_first.rule_ties(s_first.type_ops@[k], d[j].op));
                assert(s_ops.type_ops@[k] == s_first.type_ops@[k]);
                Self::lemma_rule_ties_kept(s_first, s_ops, k, d[j].op);
            } else {
                assert(s_ops.rule_ties(s_ops.type_ops@[d.len() + j], d[j].op));
            }
            assert(s_ops.rule_ties(s_ops.type_ops@[k], d[j].op));
            lemma_deferred_in(mir.ops@, j);
            let i = choose|i: int| 0 <= i < mir.ops@.len() && mir.ops@[i] == #[trigger] d[j] && deferrable(mir.ops@[i].op);
            assert(declared_op(mir, mir.ops@[i].op));
            if let OpCode::Binary(b) = mir.ops@[i].op {
                assert forall|x: Slot| has_decl(mir, x) implies #[trigger] s_ops.tm(x) == kind_term(decl(mir, x)) by {
                    let jx = Self::lemma_ty_entry(mir, x);
                    assert(s_decl.known(mir.ty@[jx].0));
                    assert(lookup(s_decl.slot_map@, x) is Some);
                    lemma_kind_term_ground(decl(mir, x));
                    MirTypeInference::keep_ground_slot(s_decl, s_ops, x);
                }
                assert(s_ops.tm(b.lhs) == kind_term(decl(mir, b.lhs)));
                assert(s_ops.tm(b.arg1) == kind_term(decl(mir, b.arg1)));
                assert(s_ops.tm(b.arg2) == kind_term(decl(mir, b.arg2)));
                lemma_kind_term_ground(decl(mir, b.lhs));
                lemma_kind_term_ground(decl(mir, b.arg1));
                lemma_kind_term_ground(decl(mir, b.arg2));
            }
            if let OpCode::Select(x) = mir.ops@[i].op {
                assert forall|y: Slot| has_decl(mir, y) implies #[trigger] s_ops.tm(y) == kind_term(decl(mir, y)) by {
                    let jy = Self::lemma_ty_entry(mir, y);
                    assert(s_decl.known(mir.ty@[jy].0));
                    assert(lookup(s_decl.slot_map@, y) is Some);
                    lemma_kind_term_ground(decl(mir, y));
                    MirTypeInference::keep_ground_slot(s_decl, s_ops, y);
                }
                assert(s_ops.tm(x.lhs) == kind_term(decl(mir, x.lhs)));
                assert(s_ops.tm(x.true_value) == kind_term(decl(mir, x.true_value)));
                assert(s_ops.tm(x.false_value) == kind_term(decl(mir, x.false_value)));
                lemma_kind_term_ground(decl(mir, x.lhs));
            }
        }
    }

    /// A slot with a declared kind has its entry among the declarations.
    pub proof fn lemma_ty_entry(mir: &Mir, s: Slot) -> (j: int)
        requires
            forall|i: int, k: int| 0 <= i < k < mir.ty@.len() ==> (#[trigger] mir.ty@[i]).0 != (#[trigger] mir.ty@[k]).0,
            lookup(mir.ty@, s) is Some,
        ensures
            0 <= j < mir.ty@.len(),
            mir.ty@[j].0 == s,
            lookup(mir.ty@, s) == Some(mir.ty@[j].1),
    {
        if forall|k: int| 0 <= k < mir.ty@.len() ==> (#[trigger] mir.ty@[k]).0 != s {
            crate::compiler::mir::mir_impl::lemma_lookup_absent(mir.ty@, s);
        }
        let j = choose|k: int| 0 <= k < mir.ty@.len() && (#[trigger] mir.ty@[k]).0 == s;
        assert forall|k: int| 0 <= k < j implies (#[trigger] mir.ty@[k]).0 != s by {
            assert(mir.ty@[k].0 != mir.ty@[j].0);
        }
        assert(first_at(mir.ty@, s, j));
        lemma_lookup_first(mir.ty@, s, j);
        j
    }

    /// A state with the same slot table and context fits the same typings.
    pub proof fn lemma_typable_same(a: MirTypeInference, b: MirTypeInference, typing: spec_fn(Slot) -> Term)
        requires
            a.typable(typing),
            b.slot_map@ == a.slot_map@,
            b.ctx == a.ctx,
        ensures
            b.typable(typing),
    {
        let sigma = choose|sigma: spec_fn(VarNum) -> Term| a.typed_by(sigma, typing);
        assert forall|s: Slot| #[trigger] b.known(s) implies inst(sigma, b.tm(s)) == typing(s) by {
            assert(a.known(s));
        }
        assert(b.typed_by(sigma, typing));
    }

    /// A unification under which `sigma` keeps every type keeps the typing.
    pub proof fn lemma_typed_kept(a: MirTypeInference, b: MirTypeInference, sigma: spec_fn(VarNum) -> Term, typing: spec_fn(Slot) -> Term)
        requires
            a.inv(),
            a.typed_by(sigma, typing),
            kept_under(sigma, a.ctx, b.ctx),
            b.slot_map@ == a.slot_map@,
        ensures
            b.typable(typing),
    {
        assert forall|s: Slot| #[trigger] b.known(s) implies inst(sigma, b.tm(s)) == typing(s) by {
            assert(a.known(s));
        }
        assert(b.typed_by(sigma, typing));
    }

    /// Deferred rules that already held still do as the context evolves.
    pub proof fn lemma_rules_met_kept(old: MirTypeInference, new: MirTypeInference)
        requires
            old.inv(),
            new.evolved_from(old),
            new.type_ops@ == old.type_ops@,
            all_rules_met(old),
        ensures
            all_rules_met(new),
    {
        reveal(MirTypeInference::evolved_from);
        assert forall|k: int| 0 <= k < new.type_ops@.len() implies rule_met(new, #[trigger] new.type_ops@[k]) by {
            assert(rule_met(old, old.type_ops@[k]));
            if let TypeOperationKind::BinOp(x) = old.type_ops@[k].kind {
                assert(type_op_ids(old.type_ops@[k].kind)[0] == x.lhs);
                assert(type_op_ids(old.type_ops@[k].kind)[1] == x.arg1);
                assert(type_op_ids(old.type_ops@[k].kind)[2] == x.arg2);
                assert(old.ctx.has(x.lhs) && old.ctx.has(x.arg1) && old.ctx.has(x.arg2));
            }
            if let TypeOperationKind::Select(x) = old.type_ops@[k].kind {
                assert(type_op_ids(old.type_ops@[k].kind)[0] == x.true_value);
                assert(type_op_ids(old.type_ops@[k].kind)[1] == x.false_value);
                assert(type_op_ids(old.type_ops@[k].kind)[2] == x.lhs);
                assert(old.ctx.has(x.lhs) && old.ctx.has(x.true_value) && old.ctx.has(x.false_value));
            }
        }
    }

    /// The deferred rule `t` is the one of opcode `op`: its types stand for
    /// those of the opcode's slots in `self` (for a splice, an index of the
    /// target's type that gives the substituted value's type). Opcodes that
    /// defer no rule carry no such claim.
    pub open spec fn rule_ties(&self, t: TypeOperation, op: OpCode) -> bool {
        match op {
            OpCode::Binary(b) => {
                &&& t.kind matches TypeOperationKind::BinOp(x) && x.op == b.op && self.tt(x.lhs) == self.tm(b.lhs) && self.tt(x.arg1)
                    == self.tm(b.arg1) && self.tt(x.arg2) == self.tm(b.arg2)
                &&& self.known(b.lhs)
                &&& self.known(b.arg1)
                &&& self.known(b.arg2)
            },
            OpCode::Select(x) => {
                &&& t.kind matches TypeOperationKind::Select(y) && self.tt(y.lhs) == self.tm(x.lhs) && self.tt(y.true_value)
                    == self.tm(x.true_value) && self.tt(y.false_value) == self.tm(x.false_value)
                &&& self.known(x.lhs)
                &&& self.known(x.true_value)
                &&& self.known(x.false_value)
            },
            OpCode::Index(x) => {
                &&& t.kind matches TypeOperationKind::Index(y) && y.path@ == x.path@ && self.tt(y.lhs) == self.tm(x.lhs)
                    && self.tt(y.arg) == self.tm(x.arg)
                &&& self.known(x.lhs)
                &&& self.known(x.arg)
            },
            OpCode::Splice(x) => {
                &&& t.kind matches TypeOperationKind::Index(y) && y.path@ == x.path@ && self.tt(y.lhs) == self.tm(x.subst)
                    && self.tt(y.arg) == self.tm(x.lhs)
                &&& self.known(x.lhs)
                &&& self.known(x.subst)
            },
            OpCode::Unary(u) => (u.op is All || u.op is Any || u.op is Xor || u.op is Pad) ==> {
                &&& t.kind matches TypeOperationKind::UnaryOp(y) && y.op == u.op && self.tt(y.lhs) == self.tm(u.lhs)
                    && self.tt(y.arg1) == self.tm(u.arg1)
                &&& self.known(u.lhs)
                &&& self.known(u.arg1)
            },
            _ => true,
        }
    }

    /// A deferred rule tied to its opcode stays tied as the context evolves.
    pub proof fn lemma_rule_ties_kept(old: MirTypeInference, new: MirTypeInference, k: int, op: OpCode)
        requires
            old.inv(),
            new.evolved_from(old),
            0 <= k < old.type_ops@.len(),
            old.rule_ties(old.type_ops@[k], op),
        ensures
            new.rule_ties(old.type_ops@[k], op),
    {
        if let OpCode::Binary(b) = op {
            if let TypeOperationKind::BinOp(x) = old.type_ops@[k].kind {
                assert(type_op_ids(old.type_ops@[k].kind)[0] == x.lhs);
                assert(type_op_ids(old.type_ops@[k].kind)[1] == x.arg1);
                assert(type_op_ids(old.type_ops@[k].kind)[2] == x.arg2);
                Self::keep_ts(old, new, x.lhs, b.lhs);
                Self::keep_ts(old, new, x.arg1, b.arg1);
                Self::keep_ts(old, new, x.arg2, b.arg2);
            }
        }
        if let OpCode::Select(x) = op {
            if let TypeOperationKind::Select(y) = old.type_ops@[k].kind {
                assert(type_op_ids(old.type_ops@[k].kind)[0] == y.true_value);
                assert(type_op_ids(old.type_ops@[k].kind)[1] == y.false_value);
                assert(type_op_ids(old.type_ops@[k].kind)[2] == y.lhs);
                Self::keep_ts(old, new, y.lhs, x.lhs);
                Self::keep_ts(old, new, y.true_value, x.true_value);
                Self::keep_ts(old, new, y.false_value, x.false_value);
            }
        }
        if let OpCode::Index(x) = op {
            if let TypeOperationKind::Index(y) = old.type_ops@[k].kind {
                assert(type_op_ids(old.type_ops@[k].kind)[0] == y.lhs);
                assert(type_op_ids(old.type_ops@[k].kind)[1] == y.arg);
                Self::keep_ts(old, new, y.lhs, x.lhs);
                Self::keep_ts(old, new, y.arg, x.arg);
            }
        }
        if let OpCode::Splice(x) = op {
            if let TypeOperationKind::Index(y) = old.type_ops@[k].kind {
                assert(type_op_ids(old.type_ops@[k].kind)[0] == y.lhs);
                assert(type_op_ids(old.type_ops@[k].kind)[1] == y.arg);
                Self::keep_ts(old, new, y.lhs, x.subst);
                Self::keep_ts(old, new, y.arg, x.lhs);
            }
        }
        if let OpCode::Unary(u) = op {
            if let TypeOperationKind::UnaryOp(y) = old.type_ops@[k].kind {
                if u.op is All || u.op is Any || u.op is Xor || u.op is Pad {
                    assert(type_op_ids(old.type_ops@[k].kind)[0] == y.lhs);
                    assert(type_op_ids(old.type_ops@[k].kind)[1] == y.arg1);
                    Self::keep_ts(old, new, y.lhs, u.lhs);
                    Self::keep_ts(old, new, y.arg1, u.arg1);
                }
            }
        }
    }

    /// Adding nodes to the context keeps every slot typing that fitted.
    pub proof fn lemma_typable_grow(old: MirTypeInference, new: MirTypeInference, typing: spec_fn(Slot) -> Term)
        requires
            old.inv(),
            new.ctx.grows_from(old.ctx),
            new.slot_map@ == old.slot_map@,
            old.typable(typing),
        ensures
            new.typable(typing),
    {
        let sigma = choose|sigma: spec_fn(VarNum) -> Term| old.typed_by(sigma, typing);
        assert forall|s: Slot| #[trigger] new.known(s) implies inst(sigma, new.tm(s)) == typing(s) by {
            assert(old.known(s));
            if !(s is Empty) {
                new.ctx.lemma_grows_keeps_terms(old.ctx, old.sty(s));
            }
        }
        assert(new.typed_by(sigma, typing));
    }

    /// Giving a slot without a type a new variable keeps every slot typing
    /// that fitted: the variable is bound to what the typing gives the slot.
    pub proof fn lemma_typable_fresh(
        old: MirTypeInference,
        new: MirTypeInference,
        slot: Slot,
        var: TypeId,
        typing: spec_fn(Slot) -> Term,
    )
        requires
            old.inv(),
            old.ctx.vars() < u32::MAX,
            new.ctx.grows_from(old.ctx),
            new.ctx.term(var) == Term::Var(VarNum(old.ctx.vars() as u32)),
            new.slot_map@ == old.slot_map@.push((slot, var)),
            lookup(old.slot_map@, slot) is None,
            !(slot is Empty),
            old.typable(typing),
        ensures
            new.typable(typing),
    {
        let sigma = choose|sigma: spec_fn(VarNum) -> Term| old.typed_by(sigma, typing);
        let v = VarNum(old.ctx.vars() as u32);
        let sigma2 = |w: VarNum| if w == v { typing(slot) } else { sigma(w) };
        assert forall|s: Slot| #[trigger] new.known(s) implies inst(sigma2, new.tm(s)) == typing(s) by {
            lemma_lookup_push(old.slot_map@, slot, var, s);
            if s is Empty {
                assert(old.known(s));
            } else if lookup(old.slot_map@, s) is Some {
                assert(old.known(s));
                new.ctx.lemma_grows_keeps_terms(old.ctx, old.sty(s));
                assert forall|w: VarNum| #[trigger] crate::compiler::mir::ty::term_has_var(old.tm(s), w) implies sigma2(w) == sigma(w) by {
                    old.ctx.lemma_term_vars_below(old.sty(s), w);
                }
                lemma_inst_agree(sigma2, sigma, old.tm(s));
            } else {
                assert(s == slot);
            }
        }
        assert(new.typed_by(sigma2, typing));
    }

    pub(crate) proof fn lemma_grew(old: MirTypeInference, new: MirTypeInference)
        requires
            old.inv(),
            new.ctx.wf(),
            new.ctx.grows_from(old.ctx),
            new.slot_map@ == old.slot_map@,
            new.type_ops@ == old.type_ops@,
        ensures
            new.inv(),
            new.evolved_from(old),
    {
        reveal(MirTypeInference::evolved_from);
        lemma_grows_evolves(old.ctx, new.ctx);
        assert forall|s: Slot| #[trigger] lookup(new.slot_map@, s) is Some implies new.ctx.has(new.sty(s)) by {
            assert(lookup(old.slot_map@, s) == lookup(new.slot_map@, s));
        }
        assert forall|k: int, j: int|
            0 <= k < new.type_ops@.len() && 0 <= j < type_op_ids(new.type_ops@[k].kind).len() implies new.ctx.has(
            #[trigger] type_op_ids(new.type_ops@[k].kind)[j],
        ) by {
            assert(old.ctx.has(type_op_ids(old.type_ops@[k].kind)[j]));
        }
    }

    pub(crate) proof fn lemma_refined(old: MirTypeInference, new: MirTypeInference)
        requires
            old.inv(),
            new.ctx.wf(),
            new.ctx.refines(old.ctx),
            new.slot_map@ == old.slot_map@,
            new.type_ops@ == old.type_ops@,
        ensures
            new.inv(),
            new.evolved_from(old),
    {
        reveal(MirTypeInference::evolved_from);
        lemma_refines_evolves(old.ctx, new.ctx);
        assert forall|s: Slot| #[trigger] lookup(new.slot_map@, s) is Some implies new.ctx.has(new.sty(s)) by {
            assert(lookup(old.slot_map@, s) == lookup(new.slot_map@, s));
        }
        assert forall|k: int, j: int|
            0 <= k < new.type_ops@.len() && 0 <= j < type_op_ids(new.type_ops@[k].kind).len() implies new.ctx.has(
            #[trigger] type_op_ids(new.type_ops@[k].kind)[j],
        ) by {
            assert(old.ctx.has(type_op_ids(old.type_ops@[k].kind)[j]));
        }
    }

    pub proof fn lemma_evolved_refl(a: MirTypeInference)
        ensures
            a.evolved_from(a),
    {
        reveal(MirTypeInference::evolved_from);
        lemma_evolves_refl(a.ctx);
    }

    pub proof fn lemma_evolved_trans(a: MirTypeInference, b: MirTypeInference, c: MirTypeInference)
        requires
            b.evolved_from(a),
            c.evolved_from(b),
        ensures
            c.evolved_from(a),
    {
        reveal(MirTypeInference::evolved_from);
        lemma_evolves_trans(a.ctx, b.ctx, c.ctx);
        assert forall|s: Slot| #[trigger] lookup(a.slot_map@, s) is Some implies lookup(c.slot_map@, s) == lookup(
            a.slot_map@,
            s,
        ) by {
            assert(lookup(b.slot_map@, s) is Some);
        }
        assert forall|j: int| 0 <= j < a.type_ops@.len() implies #[trigger] c.type_ops@[j] == a.type_ops@[j] by {
            assert(b.type_ops@[j] == a.type_ops@[j]);
        }
    }

    proof fn lemma_pushed(old: MirTypeInference, new: MirTypeInference, op: TypeOperation)
        requires
            old.inv(),
            new.ctx == old.ctx,
            new.slot_map@ == old.slot_map@,
            new.type_ops@ == old.type_ops@.push(op),
            forall|j: int| 0 <= j < type_op_ids(op.kind).len() ==> old.ctx.has(#[trigger] type_op_ids(op.kind)[j]),
        ensures
            new.inv(),
            new.evolved_from(old),
            new.type_ops@[old.type_ops@.len() as int] == op,
    {
        reveal(MirTypeInference::evolved_from);
        lemma_evolves_refl(old.ctx);
        assert forall|k: int, j: int|
            0 <= k < new.type_ops@.len() && 0 <= j < type_op_ids(new.type_ops@[k].kind).len() implies new.ctx.has(
            #[trigger] type_op_ids(new.type_ops@[k].kind)[j],
        ) by {
            if k < old.type_ops@.len() {
                assert(old.ctx.has(type_op_ids(old.type_ops@[k].kind)[j]));
            }
        }
    }

    /// A node stays, with what is stored there.
    pub proof fn keep_node(old: MirTypeInference, new: MirTypeInference, t: TypeId)
        requires
            new.evolved_from(old),
            old.ctx.has(t),
        ensures
            new.ctx.has(t),
            new.ctx.tys()[t.kind as int] == old.ctx.tys()[t.kind as int],
    {
        reveal(MirTypeInference::evolved_from);
    }

    /// Two types that stood for the same term still do.
    pub proof fn keep_tt(old: MirTypeInference, new: MirTypeInference, t: TypeId, u: TypeId)
        requires
            new.evolved_from(old),
            old.ctx.has(t),
            old.ctx.has(u),
            old.tt(t) == old.tt(u),
        ensures
            new.ctx.has(t),
            new.ctx.has(u),
            new.tt(t) == new.tt(u),
    {
        reveal(MirTypeInference::evolved_from);
    }

    /// A type without variables keeps its term.
    pub proof fn keep_ground(old: MirTypeInference, new: MirTypeInference, t: TypeId)
        requires
            new.evolved_from(old),
            old.ctx.has(t),
            ground(old.tt(t)),
        ensures
            new.ctx.has(t),
            new.tt(t) == old.tt(t),
    {
        reveal(MirTypeInference::evolved_from);
    }

    /// A slot keeps its type.
    pub proof fn keep_known(old: MirTypeInference, new: MirTypeInference, s: Slot)
        requires
            old.inv(),
            new.evolved_from(old),
            old.known(s),
        ensures
            new.known(s),
            !(s is Empty) ==> new.sty(s) == old.sty(s) && old.ctx.has(old.sty(s)),
    {
        reveal(MirTypeInference::evolved_from);
        if !(s is Empty) {
            assert(lookup(old.slot_map@, s) is Some);
        }
    }

    /// A type that stood for a slot's term still does.
    pub proof fn keep_ts(old: MirTypeInference, new: MirTypeInference, t: TypeId, s: Slot)
        requires
            old.inv(),
            new.evolved_from(old),
            old.ctx.has(t),
            old.known(s),
            old.tt(t) == old.tm(s),
        ensures
            new.ctx.has(t),
            new.known(s),
            new.tt(t) == new.tm(s),
    {
        Self::keep_known(old, new, s);
        reveal(MirTypeInference::evolved_from);
        assert(ground(Term::Const(Const::Empty)));
    }

    /// Two slots that had the same type still do.
    pub proof fn keep_ss(old: MirTypeInference, new: MirTypeInference, a: Slot, b: Slot)
        requires
            old.inv(),
            new.evolved_from(old),
            old.known(a),
            old.known(b),
            old.tm(a) == old.tm(b),
        ensures
            new.known(a),
            new.known(b),
            new.tm(a) == new.tm(b),
    {
        Self::keep_known(old, new, a);
        Self::keep_known(old, new, b);
        reveal(MirTypeInference::evolved_from);
        assert(ground(Term::Const(Const::Empty)));
    }

    /// A slot whose type had no variables keeps its term.
    pub proof fn keep_ground_slot(old: MirTypeInference, new: MirTypeInference, s: Slot)
        requires
            old.inv(),
            new.evolved_from(old),
            old.known(s),
            ground(old.tm(s)),
        ensures
            new.known(s),
            new.tm(s) == old.tm(s),
    {
        Self::keep_known(old, new, s);
        reveal(MirTypeInference::evolved_from);
    }

    /// Deferred rules are kept in place.
    pub proof fn keep_op(old: MirTypeInference, new: MirTypeInference, k: int)
        requires
            new.evolved_from(old),
            0 <= k < old.type_ops@.len(),
        ensures
            k < new.type_ops@.len(),
            new.type_ops@[k] == old.type_ops@[k],
    {
        reveal(MirTypeInference::evolved_from);
    }

    /// Recorded types that stood for kinds still do as the context evolves.
    proof fn lemma_kinded_evolve(old: MirTypeInference, new: MirTypeInference)
        requires
            old.inv(),
            new.evolved_from(old),
            new.slot_map@ == old.slot_map@,
            slots_kinded(old),
        ensures
            slots_kinded(new),
    {
        assert forall|s: Slot| #[trigger] lookup(new.slot_map@, s) is Some implies ground(new.tt(new.sty(s))) && term_kind(
            new.tt(new.sty(s)),
        ) is Ok by {
            assert(lookup(old.slot_map@, s) is Some);
            Self::keep_ground(old, new, old.sty(s));
        }
    }

    /// Recording the type of a kind for a slot keeps every recorded type a
    /// kind.
    proof fn lemma_kinded_set(old: MirTypeInference, new: MirTypeInference, slot: Slot, ty: TypeId, k: Kind)
        requires
            slots_kinded(old),
            new.ctx == old.ctx,
            lookup(new.slot_map@, slot) == Some(ty),
            forall|x: Slot| x != slot ==> #[trigger] lookup(new.slot_map@, x) == lookup(old.slot_map@, x),
            old.tt(ty) == kind_term(k@),
        ensures
            slots_kinded(new),
    {
        lemma_kind_term_ground(k@);
        crate::compiler::mir::ty::lemma_kind_term_round_trip(k);
        assert forall|s: Slot| #[trigger] lookup(new.slot_map@, s) is Some implies ground(new.tt(new.sty(s))) && term_kind(
            new.tt(new.sty(s)),
        ) is Ok by {
            if s != slot {
                assert(lookup(old.slot_map@, s) is Some);
            }
        }
    }

    /// In a state whose recorded types are kinds, every entry reads as a kind.
    proof fn lemma_kinded_entries(st: MirTypeInference)
        requires
            st.inv(),
            slots_kinded(st),
        ensures
            forall|i: int| 0 <= i < st.slot_map@.len() ==> term_kind(st.tt((#[trigger] st.slot_map@[i]).1)) is Ok,
    {
        assert forall|i: int| 0 <= i < st.slot_map@.len() implies term_kind(st.tt((#[trigger] st.slot_map@[i]).1)) is Ok by {
            let s = st.slot_map@[i].0;
            assert forall|j: int| 0 <= j < i implies (#[trigger] st.slot_map@[j]).0 != s by {
                assert(st.slot_map@[j].0 != st.slot_map@[i].0);
            }
            assert(first_at(st.slot_map@, s, i));
            lemma_lookup_first(st.slot_map@, s, i);
        }
    }

    /// Makes two types stand for the same term; a failure is reported with
    /// both types as far as they are known.
    fn unify(&mut self, loc: NodeId, lhs: TypeId, rhs: TypeId) -> (r: Result<(), RHDLError>)
        requires
            old(self).inv(),
            old(self).ctx.has(lhs),
            old(self).ctx.has(rhs),
        ensures
            final(self).inv(),
            final(self).evolved_from(*old(self)),
            final(self).slot_map@ == old(self).slot_map@,
            final(self).type_ops@ == old(self).type_ops@,
            final(self).ctx.vars() == old(self).ctx.vars(),
            r is Ok ==> final(self).tt(lhs) == final(self).tt(rhs),
            r matches Err(e) ==> e matches RHDLError::TypeMismatch { id, .. } && id == loc,
            forall|sigma: spec_fn(VarNum) -> Term|
                #[trigger] unifies(sigma, old(self).tt(lhs), old(self).tt(rhs)) ==> r is Ok && kept_under(sigma, old(self).ctx, final(self).ctx),
    {
        let ghost s0 = *self;
        let res = self.ctx.unify(lhs, rhs);
        proof {
            Self::lemma_refined(s0, *self);
        }
        match res {
            Ok(()) => Ok(()),
            Err(cause) => {
                let ghost s1 = *self;
                proof {
                    Self::keep_node(s0, s1, lhs);
                    Self::keep_node(s0, s1, rhs);
                }
                let lhs_applied = self.ctx.apply(lhs);
                proof {
                    Self::lemma_grew(s1, *self);
                    Self::lemma_evolved_trans(s0, s1, *self);
                    Self::keep_node(s0, *self, rhs);
                }
                let ghost s2 = *self;
                let rhs_applied = self.ctx.apply(rhs);
                proof {
                    Self::lemma_grew(s2, *self);
                    Self::lemma_evolved_trans(s0, s2, *self);
                }
                Err(RHDLError::TypeMismatch { cause, lhs: lhs_applied, rhs: rhs_applied, id: loc })
            },
        }
    }

    /// The type of a slot: a new empty type for the empty slot, the recorded
    /// type, or a new variable that is then recorded.
    fn slot_ty(&mut self, mir: &Mir, slot: Slot) -> (r: TypeId)
        requires
            old(self).inv(),
            lookup(mir.symbols.slot_map@, slot) is Some,
            old(self).ctx.vars() < u32::MAX,
        ensures
            final(self).inv(),
            final(self).evolved_from(*old(self)),
            final(self).type_ops@ == old(self).type_ops@,
            final(self).ctx.vars() <= old(self).ctx.vars() + 1,
            final(self).known(slot),
            final(self).ctx.has(r),
            final(self).tt(r) == final(self).tm(slot),
            forall|typing: spec_fn(Slot) -> Term| #[trigger] old(self).typable(typing) ==> final(self).typable(typing),
            old(self).known(slot) ==> final(self).slot_map@ == old(self).slot_map@,
    {
        let id = mir.symbols.slot_map[find_slot(&mir.symbols.slot_map, slot).unwrap()].1;
        if matches!(slot, Slot::Empty) {
            let ghost s0 = *self;
            let r = self.ctx.ty_empty(id);
            proof {
                Self::lemma_grew(s0, *self);
                assert forall|typing: spec_fn(Slot) -> Term| #[trigger] s0.typable(typing) implies self.typable(typing) by {
                    Self::lemma_typable_grow(s0, *self, typing);
                }
            }
            return r;
        }
        match find_slot(&self.slot_map, slot) {
            Some(i) => {
                let t = self.slot_map[i].1;
                proof {
                    Self::lemma_evolved_refl(*self);
                }
                t
            },
            None => {
                let ghost s0 = *self;
                let var = self.ctx.ty_var(id);
                proof {
                    Self::lemma_grew(s0, *self);
                }
                let ghost s1 = *self;
                self.slot_map.push((slot, var));
                proof {
                    assert forall|a: int, b: int|
                        0 <= a < b < self.slot_map@.len() implies (#[trigger] self.slot_map@[a]).0 != (#[trigger] self.slot_map@[b]).0 by {
                        if b < s1.slot_map@.len() {
                            assert(s1.slot_map@[a] == self.slot_map@[a]);
                            assert(s1.slot_map@[b] == self.slot_map@[b]);
                        } else {
                            assert(s1.slot_map@[a] == self.slot_map@[a]);
                        }
                    }
                    assert forall|s: Slot| #[trigger] lookup(self.slot_map@, s) is Some implies self.ctx.has(self.sty(s)) by {
                        lemma_lookup_push(s1.slot_map@, slot, var, s);
                    }
                    assert forall|s: Slot| #[trigger] lookup(s1.slot_map@, s) is Some implies lookup(self.slot_map@, s)
                        == lookup(s1.slot_map@, s) by {
                        lemma_lookup_push(s1.slot_map@, slot, var, s);
                    }
                    lemma_lookup_push(s1.slot_map@, slot, var, slot);
                    lemma_evolves_refl(s1.ctx);
                    assert(self.type_ops@ =~= s1.type_ops@);
                    reveal(MirTypeInference::evolved_from);
                    Self::lemma_evolved_trans(s0, s1, *self);
                    assert forall|typing: spec_fn(Slot) -> Term| #[trigger] s0.typable(typing) implies self.typable(typing) by {
                        Self::lemma_typable_fresh(s0, *self, slot, var, typing);
                    }
                }
                var
            },
        }
    }

    /// The types of a list of slots.
    fn slot_tys(&mut self, mir: &Mir, slots: &Vec<Slot>) -> (r: Vec<TypeId>)
        requires
            old(self).inv(),
            forall|i: int| 0 <= i < slots@.len() ==> named(mir, #[trigger] slots@[i]),
            old(self).ctx.vars() + slots@.len() <= u32::MAX,
        ensures
            final(self).inv(),
            final(self).evolved_from(*old(self)),
            final(self).type_ops@ == old(self).type_ops@,
            final(self).ctx.vars() <= old(self).ctx.vars() + slots@.len(),
            r@.len() == slots@.len(),
            forall|i: int|
                0 <= i < slots@.len() ==> final(self).ctx.has(#[trigger] r@[i]) && final(self).known(slots@[i])
                    && final(self).tt(r@[i]) == final(self).tm(slots@[i]),
            forall|typing: spec_fn(Slot) -> Term| #[trigger] old(self).typable(typing) ==> final(self).typable(typing),
    {
        let ghost s0 = *self;
        let mut r: Vec<TypeId> = Vec::new();
        let mut i: usize = 0;
        proof {
            Self::lemma_evolved_refl(s0);
        }
        while i < slots.len()
            invariant
                i <= slots@.len(),
                self.inv(),
                self.evolved_from(s0),
                self.type_ops@ == s0.type_ops@,
                self.ctx.vars() <= s0.ctx.vars() + i,
                s0.ctx.vars() + slots@.len() <= u32::MAX,
                forall|j: int| 0 <= j < slots@.len() ==> named(mir, #[trigger] slots@[j]),
                r@.len() == i,
                forall|j: int|
                    0 <= j < i ==> self.ctx.has(#[trigger] r@[j]) && self.known(slots@[j]) && self.tt(r@[j]) == self.tm(
                        slots@[j],
                    ),
                forall|typing: spec_fn(Slot) -> Term| #[trigger] s0.typable(typing) ==> self.typable(typing),
            decreases slots.len() - i,
        {
            let ghost sp = *self;
            let t = self.slot_ty(mir, slots[i]);
            proof {
                Self::lemma_evolved_trans(s0, sp, *self);
                assert forall|j: int| 0 <= j < i implies self.ctx.has(#[trigger] r@[j]) && self.known(slots@[j]) && self.tt(
                    r@[j],
                ) == self.tm(slots@[j]) by {
                    Self::keep_ts(sp, *self, r@[j], slots@[j]);
                }
            }
            r.push(t);
            i += 1;
        }
        r
    }


    fn infer_assign(&mut self, mir: &Mir, loc: NodeId, assign: &Assign) -> (r: Result<(), RHDLError>)
        requires
            old(self).inv(),
            named(mir, assign.lhs),
            named(mir, assign.rhs),
            old(self).ctx.vars() + 2 <= u32::MAX,
        ensures
            final(self).inv(),
            final(self).evolved_from(*old(self)),
            final(self).type_ops@ == old(self).type_ops@,
            final(self).ctx.vars() <= old(self).ctx.vars() + 2,
            r is Ok ==> final(self).assign_holds(*assign),
            forall|typing: spec_fn(Slot) -> Term|
                #[trigger] old(self).typable(typing) && typing(assign.lhs) == typing(assign.rhs) ==> r is Ok && final(self).typable(typing),
            old(self).known(assign.lhs) && old(self).known(assign.rhs) ==> final(self).slot_map@ == old(self).slot_map@,
    {
        let ghost s0 = *self;
        let lhs = self.slot_ty(mir, assign.lhs);
        let ghost s1 = *self;
        let rhs = self.slot_ty(mir, assign.rhs);
        let ghost s2 = *self;
        proof {
            Self::lemma_evolved_trans(s0, s1, s2);
            Self::keep_ts(s1, s2, lhs, assign.lhs);
        }
        let r = self.unify(loc, lhs, rhs);
        proof {
            Self::lemma_evolved_trans(s0, s2, *self);
            Self::keep_ts(s2, *self, lhs, assign.lhs);
            Self::keep_ts(s2, *self, rhs, assign.rhs);
            assert forall|typing: spec_fn(Slot) -> Term|
                #[trigger] s0.typable(typing) && typing(assign.lhs) == typing(assign.rhs) implies r is Ok && self.typable(typing) by {
                assert(s1.typable(typing));
                assert(s2.typable(typing));
                let sigma = choose|sigma: spec_fn(VarNum) -> Term| s2.typed_by(sigma, typing);
                assert(s2.known(assign.lhs));
                assert(s2.known(assign.rhs));
                assert(unifies(sigma, s2.tt(lhs), s2.tt(rhs)));
                assert forall|s: Slot| #[trigger] self.known(s) implies inst(sigma, self.tm(s)) == typing(s) by {
                    assert(s2.known(s));
                }
                assert(self.typed_by(sigma, typing));
            }
        }
        r
    }

    fn infer_array(&mut self, mir: &Mir, loc: NodeId, array: &Array) -> (r: Result<(), RHDLError>)
        requires
            old(self).inv(),
            named(mir, array.lhs),
            forall|i: int| 0 <= i < array.elements@.len() ==> named(mir, #[trigger] array.elements@[i]),
            old(self).ctx.vars() + 2 + array.elements@.len() <= u32::MAX,
        ensures
            final(self).inv(),
            final(self).evolved_from(*old(self)),
            final(self).type_ops@ == old(self).type_ops@,
            final(self).ctx.vars() <= old(self).ctx.vars() + 2 + array.elements@.len(),
            r is Ok ==> final(self).array_holds(*array),
    {
        let ghost s0 = *self;
        let lhs = self.slot_ty(mir, array.lhs);
        let ghost s1 = *self;
        let rhs = self.slot_tys(mir, &array.elements);
        let ghost s2 = *self;
        proof {
            Self::lemma_evolved_trans(s0, s1, s2);
            Self::keep_ts(s1, s2, lhs, array.lhs);
        }
        let array_base = self.ctx.ty_var(loc);
        proof {
            Self::lemma_grew(s2, *self);
        }
        let ghost s3 = *self;
        let array_len = self.ctx.ty_const_len(loc, rhs.len());
        proof {
            Self::lemma_grew(s3, *self);
            Self::keep_node(s3, *self, array_base);
        }
        let ghost s4 = *self;
        let lhs_ty = self.ctx.ty_array(loc, array_base, array_len);
        proof {
            Self::lemma_grew(s4, *self);
            Self::lemma_evolved_trans(s2, s3, s4);
            Self::lemma_evolved_trans(s2, s4, *self);
            Self::lemma_evolved_trans(s0, s2, *self);
            Self::keep_ts(s2, *self, lhs, array.lhs);
        }
        let ghost s5 = *self;
        let res = self.unify(loc, lhs, lhs_ty);
        proof {
            Self::lemma_evolved_trans(s0, s5, *self);
        }
        res?;
        let ghost s6 = *self;
        proof {
            Self::lemma_evolved_refl(s6);
            Self::keep_node(s4, s5, array_base);
            Self::keep_node(s5, s6, array_base);
            Self::keep_node(s5, s6, lhs);
            Self::keep_node(s5, s6, lhs_ty);
            assert forall|j: int| 0 <= j < rhs@.len() implies s6.ctx.has(#[trigger] rhs@[j]) by {
                Self::lemma_evolved_trans(s2, s5, s6);
                Self::keep_node(s2, s6, rhs@[j]);
            }
        }
        let mut i: usize = 0;
        while i < rhs.len()
            invariant
                i <= rhs@.len(),
                rhs@.len() == array.elements@.len(),
                s0 == *old(self),
                self.inv(),
                s6.inv(),
                self.evolved_from(s6),
                s6.evolved_from(s0),
                self.type_ops@ == s0.type_ops@,
                self.ctx.vars() == s6.ctx.vars(),
                s6.ctx.vars() <= s0.ctx.vars() + 2 + array.elements@.len(),
                s6.ctx.has(array_base),
                forall|j: int| 0 <= j < rhs@.len() ==> s6.ctx.has(#[trigger] rhs@[j]),
                forall|j: int| 0 <= j < i ==> self.ctx.has(#[trigger] rhs@[j]) && self.tt(rhs@[j]) == self.tt(array_base),
            decreases rhs.len() - i,
        {
            let ghost sp = *self;
            proof {
                Self::keep_node(s6, sp, rhs@[i as int]);
                Self::keep_node(s6, sp, array_base);
            }
            let res = self.unify(loc, rhs[i], array_base);
            proof {
                Self::lemma_evolved_trans(s6, sp, *self);
                Self::lemma_evolved_trans(s0, s6, *self);
            }
            res?;
            proof {
                assert forall|j: int| 0 <= j < i + 1 implies self.ctx.has(#[trigger] rhs@[j]) && self.tt(rhs@[j]) == self.tt(
                    array_base,
                ) by {
                    if j < i {
                        Self::keep_tt(sp, *self, rhs@[j], array_base);
                    } else {
                        Self::keep_node(sp, *self, rhs@[j]);
                    }
                }
            }
            i += 1;
        }
        proof {
            let f = *self;
            Self::lemma_evolved_trans(s0, s6, f);
            Self::lemma_evolved_trans(s5, s6, f);
            Self::lemma_evolved_trans(s4, s5, f);
            Self::lemma_evolved_trans(s2, s5, f);
            Self::keep_tt(s6, f, lhs, lhs_ty);
            Self::keep_node(s5, f, lhs_ty);
            Self::keep_ground(s4, f, array_len);
            Self::keep_ts(s5, f, lhs, array.lhs);
            assert(app_of(f.ctx, lhs_ty, Shape::Array, 2));
            assert(arg_of(f.ctx, lhs_ty, 0) == array_base);
            assert(arg_of(f.ctx, lhs_ty, 1) == array_len);
            assert forall|j: int| 0 <= j < array.elements@.len() implies f.known(#[trigger] array.elements@[j]) && f.tm(
                array.elements@[j],
            ) == f.tt(arg_of(f.ctx, lhs_ty, 0)) by {
                Self::keep_ts(s2, f, rhs@[j], array.elements@[j]);
            }
            assert(f.tm(array.lhs) == f.tt(lhs_ty));
        }
        Ok(())
    }

    fn infer_case(&mut self, mir: &Mir, loc: NodeId, case: &Case) -> (r: Result<(), RHDLError>)
        requires
            old(self).inv(),
            named(mir, case.lhs),
            named(mir, case.discriminant),
            forall|i: int|
                0 <= i < case.table@.len() ==> named(mir, (#[trigger] case.table@[i]).1) && ((case.table@[i]).0 matches CaseArgument::Slot(t)
                    ==> named(mir, t)),
            old(self).ctx.vars() + 2 + 2 * case.table@.len() <= u32::MAX,
        ensures
            final(self).inv(),
            final(self).evolved_from(*old(self)),
            final(self).type_ops@ == old(self).type_ops@,
            final(self).ctx.vars() <= old(self).ctx.vars() + 2 + 2 * case.table@.len(),
            r is Ok ==> final(self).case_holds(*case),
    {
        let ghost s0 = *self;
        let lhs = self.slot_ty(mir, case.lhs);
        let ghost s1 = *self;
        let disc = self.slot_ty(mir, case.discriminant);
        let ghost s2 = *self;
        proof {
            Self::lemma_evolved_trans(s0, s1, s2);
            Self::keep_ts(s1, s2, lhs, case.lhs);
            Self::lemma_evolved_refl(s2);
        }
        let mut i: usize = 0;
        while i < case.table.len()
            invariant
                i <= case.table@.len(),
                s0 == *old(self),
                self.inv(),
                s2.inv(),
                self.evolved_from(s2),
                s2.evolved_from(s0),
                self.type_ops@ == s0.type_ops@,
                self.ctx.vars() <= s2.ctx.vars() + 2 * i,
                s2.ctx.vars() <= s0.ctx.vars() + 2,
                s0.ctx.vars() + 2 + 2 * case.table@.len() <= u32::MAX,
                forall|j: int|
                    0 <= j < case.table@.len() ==> named(mir, (#[trigger] case.table@[j]).1) && ((case.table@[j]).0 matches CaseArgument::Slot(t)
                        ==> named(mir, t)),
                s2.ctx.has(lhs),
                s2.ctx.has(disc),
                s2.known(case.lhs),
                s2.known(case.discriminant),
                s2.tt(lhs) == s2.tm(case.lhs),
                s2.tt(disc) == s2.tm(case.discriminant),
                forall|j: int| 0 <= j < i ==> {
                    &&& (#[trigger] case.table@[j]).0 matches CaseArgument::Slot(t) ==> self.known(t) && self.tm(t) == self.tm(case.discriminant)
                    &&& self.known(case.table@[j].1)
                    &&& self.tm(case.table@[j].1) == self.tm(case.lhs)
                },
            decreases case.table.len() - i,
        {
            let ghost sp = *self;
            proof {
                Self::keep_known(s2, sp, case.lhs);
                Self::keep_known(s2, sp, case.discriminant);
            }
            let (test, value) = &case.table[i];
            match test {
                CaseArgument::Slot(slot) => {
                    let ty = self.slot_ty(mir, *slot);
                    let ghost sb = *self;
                    proof {
                        Self::lemma_evolved_trans(s2, sp, sb);
                        Self::keep_node(s2, sb, disc);
                    }
                    let res = self.unify(loc, disc, ty);
                    proof {
                        Self::lemma_evolved_trans(sp, sb, *self);
                        Self::lemma_evolved_trans(s2, sb, *self);
                        Self::lemma_evolved_trans(s0, s2, *self);
                    }
                    res?;
                    proof {
                        Self::keep_ts(sb, *self, ty, *slot);
                        Self::keep_ts(s2, *self, disc, case.discriminant);
                    }
                },
                CaseArgument::Wild => {
                    proof {
                        Self::lemma_evolved_refl(sp);
                    }
                },
            }
            let ghost sc = *self;
            let val_ty = self.slot_ty(mir, *value);
            let ghost sd = *self;
            proof {
                Self::lemma_evolved_trans(sp, sc, sd);
                Self::lemma_evolved_trans(s2, sp, sd);
                Self::keep_node(s2, sd, lhs);
            }
            let res = self.unify(loc, lhs, val_ty);
            proof {
                Self::lemma_evolved_trans(s2, sd, *self);
                Self::lemma_evolved_trans(s0, s2, *self);
                Self::lemma_evolved_trans(sp, sd, *self);
                Self::lemma_evolved_trans(sc, sd, *self);
            }
            res?;
            proof {
                let f = *self;
                Self::keep_ts(sd, f, val_ty, *value);
                Self::keep_ts(s2, f, lhs, case.lhs);
                if let CaseArgument::Slot(t) = case.table@[i as int].0 {
                    Self::keep_ss(sc, f, t, case.discriminant);
                }
                assert forall|j: int| 0 <= j < i + 1 implies {
                    &&& (#[trigger] case.table@[j]).0 matches CaseArgument::Slot(t) ==> f.known(t) && f.tm(t) == f.tm(case.discriminant)
                    &&& f.known(case.table@[j].1)
                    &&& f.tm(case.table@[j].1) == f.tm(case.lhs)
                } by {
                    if j < i {
                        Self::keep_ss(sp, f, case.table@[j].1, case.lhs);
                        if let CaseArgument::Slot(t) = case.table@[j].0 {
                            Self::keep_ss(sp, f, t, case.discriminant);
                        }
                    }
                }
            }
            i += 1;
        }
        proof {
            Self::lemma_evolved_trans(s0, s2, *self);
            Self::keep_known(s2, *self, case.lhs);
            Self::keep_known(s2, *self, case.discriminant);
        }
        Ok(())
    }

    fn infer_repeat(&mut self, mir: &Mir, loc: NodeId, repeat: &Repeat) -> (r: Result<(), RHDLError>)
        requires
            old(self).inv(),
            named(mir, repeat.lhs),
            named(mir, repeat.value),
            old(self).ctx.vars() + 2 <= u32::MAX,
        ensures
            final(self).inv(),
            final(self).evolved_from(*old(self)),
            final(self).type_ops@ == old(self).type_ops@,
            final(self).ctx.vars() <= old(self).ctx.vars() + 2,
            r is Ok ==> final(self).repeat_holds(*repeat),
            forall|typing: spec_fn(Slot) -> Term|
                #[trigger] old(self).typable(typing) && op_typed(typing, OpCode::Repeat(*repeat)) ==> r is Ok && final(self).typable(typing),
    {
        let ghost s0 = *self;
        let lhs = self.slot_ty(mir, repeat.lhs);
        let ghost s1 = *self;
        let value = self.slot_ty(mir, repeat.value);
        let ghost s2 = *self;
        proof {
            Self::lemma_evolved_trans(s0, s1, s2);
            Self::keep_ts(s1, s2, lhs, repeat.lhs);
        }
        let len = self.ctx.ty_const_len(loc, repeat.len as usize);
        proof {
            Self::lemma_grew(s2, *self);
            Self::keep_node(s2, *self, value);
        }
        let ghost s3 = *self;
        let lhs_ty = self.ctx.ty_array(loc, value, len);
        proof {
            Self::lemma_grew(s3, *self);
            Self::lemma_evolved_trans(s2, s3, *self);
            Self::lemma_evolved_trans(s0, s2, *self);
            Self::keep_ts(s2, *self, lhs, repeat.lhs);
        }
        let ghost s4 = *self;
        proof {
            assert forall|typing: spec_fn(Slot) -> Term|
                #[trigger] s0.typable(typing) && op_typed(typing, OpCode::Repeat(*repeat)) implies s4.typable(typing) && exists|sigma: spec_fn(VarNum) -> Term|
                    #[trigger] s4.typed_by(sigma, typing) && unifies(sigma, s4.tt(lhs), s4.tt(lhs_ty)) by {
                assert(s1.typable(typing));
                assert(s2.typable(typing));
                Self::lemma_typable_grow(s2, s3, typing);
                Self::lemma_typable_grow(s3, s4, typing);
                let sigma = choose|sigma: spec_fn(VarNum) -> Term| s4.typed_by(sigma, typing);
                assert(s4.known(repeat.lhs));
                assert(s4.known(repeat.value));
                s3.ctx.lemma_grows_keeps_terms(s2.ctx, value);
                s4.ctx.lemma_grows_keeps_terms(s3.ctx, value);
                assert(s2.tt(value) == s2.tm(repeat.value));
                if !(repeat.value is Empty) {
                    s3.ctx.lemma_grows_keeps_terms(s2.ctx, s2.sty(repeat.value));
                    s4.ctx.lemma_grows_keeps_terms(s3.ctx, s2.sty(repeat.value));
                }
                assert(s4.tm(repeat.value) == s2.tm(repeat.value));
                assert(inst(sigma, s3.ctx.term(value)) == typing(repeat.value));
                assert(inst(sigma, s3.ctx.term(len)) == Term::Const(Const::Length(repeat.len as usize)));
                crate::compiler::mir::ty::lemma_inst_seq_index(sigma, seq![s3.ctx.term(value), s3.ctx.term(len)]);
                assert(inst_seq(sigma, seq![s3.ctx.term(value), s3.ctx.term(len)]) =~= seq![typing(repeat.value), Term::Const(Const::Length(repeat.len as usize))]);
                assert(unifies(sigma, s4.tt(lhs), s4.tt(lhs_ty)));
            }
        }
        let res = self.unify(loc, lhs, lhs_ty);
        proof {
            assert forall|typing: spec_fn(Slot) -> Term|
                #[trigger] s0.typable(typing) && op_typed(typing, OpCode::Repeat(*repeat)) implies res is Ok && self.typable(typing) by {
                let sigma = choose|sigma: spec_fn(VarNum) -> Term| #[trigger] s4.typed_by(sigma, typing) && unifies(sigma, s4.tt(lhs), s4.tt(lhs_ty));
                Self::lemma_typed_kept(s4, *self, sigma, typing);
            }
        }
        proof {
            let f = *self;
            Self::lemma_evolved_trans(s0, s4, f);
            Self::lemma_evolved_trans(s3, s4, f);
            Self::lemma_evolved_trans(s2, s4, f);
            if res is Ok {
                Self::keep_ts(s4, f, lhs, repeat.lhs);
                Self::keep_ts(s2, f, value, repeat.value);
                Self::keep_node(s4, f, lhs_ty);
                Self::keep_ground(s3, f, len);
                assert(app_of(f.ctx, lhs_ty, Shape::Array, 2));
                assert(arg_of(f.ctx, lhs_ty, 0) == value);
                assert(arg_of(f.ctx, lhs_ty, 1) == len);
                assert(f.tm(repeat.lhs) == f.tt(lhs_ty));
            }
        }
        res
    }

    fn infer_tuple(&mut self, mir: &Mir, loc: NodeId, tuple: &Tuple) -> (r: Result<(), RHDLError>)
        requires
            old(self).inv(),
            named(mir, tuple.lhs),
            forall|i: int| 0 <= i < tuple.fields@.len() ==> named(mir, #[trigger] tuple.fields@[i]),
            old(self).ctx.vars() + 1 + tuple.fields@.len() <= u32::MAX,
        ensures
            final(self).inv(),
            final(self).evolved_from(*old(self)),
            final(self).type_ops@ == old(self).type_ops@,
            final(self).ctx.vars() <= old(self).ctx.vars() + 1 + tuple.fields@.len(),
            r is Ok ==> final(self).tuple_holds(*tuple),
            forall|typing: spec_fn(Slot) -> Term|
                #[trigger] old(self).typable(typing) && op_typed(typing, OpCode::Tuple(*tuple)) ==> r is Ok && final(self).typable(typing),
    {
        let ghost s0 = *self;
        let lhs = self.slot_ty(mir, tuple.lhs);
        let ghost s1 = *self;
        let tys = self.slot_tys(mir, &tuple.fields);
        let ghost s2 = *self;
        let ghost ts = tys@;
        proof {
            Self::lemma_evolved_trans(s0, s1, s2);
            Self::keep_ts(s1, s2, lhs, tuple.lhs);
        }
        let lhs_ty = self.ctx.ty_tuple(loc, tys);
        proof {
            Self::lemma_grew(s2, *self);
            Self::lemma_evolved_trans(s0, s2, *self);
            Self::keep_ts(s2, *self, lhs, tuple.lhs);
        }
        let ghost s3 = *self;
        let res = self.unify(loc, lhs, lhs_ty);
        proof {
            assert forall|typing: spec_fn(Slot) -> Term|
                #[trigger] s0.typable(typing) && op_typed(typing, OpCode::Tuple(*tuple)) implies res is Ok && self.typable(typing) by {
                assert(s1.typable(typing));
                assert(s2.typable(typing));
                Self::lemma_typable_grow(s2, s3, typing);
                let sigma = choose|sigma: spec_fn(VarNum) -> Term| s3.typed_by(sigma, typing);
                assert(s3.known(tuple.lhs));
                let tts = s2.ctx.terms(ts);
                crate::compiler::mir::ty::lemma_inst_seq_index(sigma, tts);
                assert forall|j: int| 0 <= j < tuple.fields@.len() implies #[trigger] inst_seq(sigma, tts)[j] == typing(tuple.fields@[j]) by {
                    assert(tts[j] == s2.ctx.term(ts[j]));
                    assert(s2.tt(ts[j]) == s2.tm(tuple.fields@[j]));
                    assert(s2.known(tuple.fields@[j]));
                    if !(tuple.fields@[j] is Empty) {
                        s3.ctx.lemma_grows_keeps_terms(s2.ctx, s2.sty(tuple.fields@[j]));
                    }
                    assert(s3.known(tuple.fields@[j]));
                }
                assert(inst_seq(sigma, tts) =~= Seq::new(tuple.fields@.len(), |i: int| typing(tuple.fields@[i])));
                assert(unifies(sigma, s3.tt(lhs), s3.tt(lhs_ty)));
                Self::lemma_typed_kept(s3, *self, sigma, typing);
            }
            let f = *self;
            Self::lemma_evolved_trans(s0, s3, f);
            Self::lemma_evolved_trans(s2, s3, f);
            if res is Ok {
                Self::keep_ts(s3, f, lhs, tuple.lhs);
                Self::keep_node(s3, f, lhs_ty);
                assert(app_of(f.ctx, lhs_ty, Shape::Tuple, tuple.fields@.len()));
                assert forall|j: int| 0 <= j < tuple.fields@.len() implies f.known(#[trigger] tuple.fields@[j]) && f.tm(
                    tuple.fields@[j],
                ) == f.tt(arg_of(f.ctx, lhs_ty, j)) by {
                    assert(arg_of(f.ctx, lhs_ty, j) == ts[j]);
                    Self::keep_ts(s2, f, ts[j], tuple.fields@[j]);
                }
                assert(f.tm(tuple.lhs) == f.tt(lhs_ty));
            }
        }
        res
    }

    fn infer_retime(&mut self, mir: &Mir, loc: NodeId, retime: &Retime) -> (r: Result<(), RHDLError>)
        requires
            old(self).inv(),
            named(mir, retime.lhs),
            named(mir, retime.arg),
            old(self).ctx.vars() + 4 <= u32::MAX,
        ensures
            final(self).inv(),
            final(self).evolved_from(*old(self)),
            final(self).type_ops@ == old(self).type_ops@,
            final(self).ctx.vars() <= old(self).ctx.vars() + 4,
            r is Ok ==> final(self).retime_holds(*retime),
    {
        let ghost s0 = *self;
        let lhs = self.slot_ty(mir, retime.lhs);
        let ghost s1 = *self;
        let arg = self.slot_ty(mir, retime.arg);
        let ghost s2 = *self;
        proof {
            Self::lemma_evolved_trans(s0, s1, s2);
            Self::keep_ts(s1, s2, lhs, retime.lhs);
        }
        let sig_ty = self.ctx.ty_var(loc);
        proof {
            Self::lemma_grew(s2, *self);
        }
        let ghost s3 = *self;
        let sig_clock_lhs = self.ctx.ty_var(loc);
        proof {
            Self::lemma_grew(s3, *self);
            Self::keep_node(s3, *self, sig_ty);
        }
        let ghost s4 = *self;
        let sig = self.ctx.ty_signal(loc, sig_ty, sig_clock_lhs);
        proof {
            Self::lemma_grew(s4, *self);
            Self::lemma_evolved_trans(s2, s3, s4);
            Self::lemma_evolved_trans(s2, s4, *self);
            Self::lemma_evolved_trans(s0, s2, *self);
            Self::keep_ts(s2, *self, lhs, retime.lhs);
            Self::keep_ts(s2, *self, arg, retime.arg);
            Self::keep_node(s4, *self, sig_ty);
            Self::keep_node(s4, *self, sig_clock_lhs);
        }
        let ghost s5 = *self;
        let res = self.unify(loc, lhs, sig);
        proof {
            Self::lemma_evolved_trans(s0, s5, *self);
        }
        res?;
        let ghost s6 = *self;
        proof {
            Self::keep_node(s5, s6, arg);
            Self::keep_node(s5, s6, sig_ty);
        }
        let res = self.unify(loc, arg, sig_ty);
        proof {
            Self::lemma_evolved_trans(s0, s6, *self);
        }
        res?;
        let ghost s7 = *self;
        proof {
            Self::lemma_evolved_refl(s7);
            Self::keep_node(s5, s6, lhs);
            Self::keep_node(s5, s6, sig);
            Self::keep_node(s6, s7, arg);
            Self::keep_node(s6, s7, sig_ty);
        }
        if let Some(color) = retime.color {
            let clk = self.ctx.ty_clock(loc, color);
            proof {
                Self::lemma_grew(s7, *self);
                Self::lemma_evolved_trans(s0, s7, *self);
                Self::lemma_evolved_trans(s5, s6, s7);
                Self::keep_node(s5, s7, sig_clock_lhs);
                Self::keep_node(s7, *self, sig_clock_lhs);
            }
            let ghost s8 = *self;
            let res = self.unify(loc, sig_clock_lhs, clk);
            proof {
                Self::lemma_evolved_trans(s0, s8, *self);
                Self::lemma_evolved_trans(s7, s8, *self);
            }
            res?;
            proof {
                Self::keep_ground(s8, *self, clk);
                assert(ground(Term::Const(Const::Clock(color))));
            }
        }
        proof {
            let f = *self;
            Self::lemma_evolved_trans(s5, s6, s7);
            Self::lemma_evolved_trans(s5, s7, f);
            Self::lemma_evolved_trans(s6, s7, f);
            Self::keep_ts(s5, f, lhs, retime.lhs);
            Self::keep_ts(s5, f, arg, retime.arg);
            Self::keep_tt(s6, f, lhs, sig);
            Self::keep_tt(s7, f, arg, sig_ty);
            Self::keep_node(s5, f, sig);
            assert(app_of(f.ctx, sig, Shape::Signal, 2));
            assert(arg_of(f.ctx, sig, 0) == sig_ty);
            assert(arg_of(f.ctx, sig, 1) == sig_clock_lhs);
            assert(f.tm(retime.lhs) == f.tt(sig));
            assert(f.tm(retime.arg) == f.tt(sig_ty));
        }
        Ok(())
    }

    fn infer_cast(&mut self, mir: &Mir, loc: NodeId, cast: &Cast, signed: bool) -> (r: Result<(), RHDLError>)
        requires
            old(self).inv(),
            named(mir, cast.lhs),
            named(mir, cast.arg),
            old(self).ctx.vars() + 3 <= u32::MAX,
        ensures
            final(self).inv(),
            final(self).evolved_from(*old(self)),
            final(self).type_ops@ == old(self).type_ops@,
            final(self).ctx.vars() <= old(self).ctx.vars() + 3,
            r is Ok ==> final(self).cast_holds(*cast, signed),
            forall|typing: spec_fn(Slot) -> Term|
                #[trigger] old(self).typable(typing) && cast_typed(typing, *cast, signed) ==> r is Ok && final(self).typable(typing),
    {
        let ghost flag = if signed {
            SignFlag::Signed
        } else {
            SignFlag::Unsigned
        };
        let ghost s0 = *self;
        let arg = self.slot_ty(mir, cast.arg);
        let ghost s1 = *self;
        let lhs = self.slot_ty(mir, cast.lhs);
        let ghost s2 = *self;
        proof {
            Self::lemma_evolved_trans(s0, s1, s2);
            Self::keep_ts(s1, s2, arg, cast.arg);
        }
        let len = match cast.len {
            Some(n) => self.ctx.ty_const_len(loc, n),
            None => self.ctx.ty_var(loc),
        };
        proof {
            Self::lemma_grew(s2, *self);
        }
        let ghost s3 = *self;
        let lhs_ty = if signed {
            self.ctx.ty_signed(loc, len)
        } else {
            self.ctx.ty_bits(loc, len)
        };
        let ghost sign_node = arg_of(self.ctx, lhs_ty, 0);
        proof {
            Self::lemma_grew(s3, *self);
            Self::lemma_evolved_trans(s2, s3, *self);
            Self::lemma_evolved_trans(s0, s2, *self);
            Self::keep_ts(s2, *self, lhs, cast.lhs);
            Self::keep_ts(s2, *self, arg, cast.arg);
            assert(ground(Term::Const(Const::Signed(flag))));
            if let Some(n) = cast.len {
                Self::keep_ground(s3, *self, len);
                assert(ground(Term::Const(Const::Length(n))));
            }
        }
        let ghost s4 = *self;
        let res = self.unify(loc, lhs, lhs_ty);
        proof {
            Self::lemma_evolved_trans(s0, s4, *self);
            assert forall|typing: spec_fn(Slot) -> Term|
                #[trigger] s0.typable(typing) && cast_typed(typing, *cast, signed) implies res is Ok && self.typable(typing) by {
                assert(s1.typable(typing));
                assert(s2.typable(typing));
                Self::lemma_typable_grow(s2, s3, typing);
                Self::lemma_typable_grow(s3, s4, typing);
                let sigma = choose|sigma: spec_fn(VarNum) -> Term| s4.typed_by(sigma, typing);
                let n = cast.len->Some_0;
                assert(s4.known(cast.lhs));
                assert(s4.tt(lhs_ty) == bits_term(flag, n as nat));
                crate::compiler::mir::ty::lemma_kind_term_ground(
                    if signed {
                        crate::types::kind::KindView::Signed(n as nat)
                    } else {
                        crate::types::kind::KindView::Bits(n as nat)
                    },
                );
                lemma_inst_ground(sigma, bits_term(flag, n as nat));
                assert(unifies(sigma, s4.tt(lhs), s4.tt(lhs_ty)));
                Self::lemma_typed_kept(s4, *self, sigma, typing);
            }
        }
        res?;
        let ghost s5 = *self;
        let len_128 = self.ctx.ty_const_len(loc, 128);
        proof {
            Self::lemma_grew(s5, *self);
        }
        let ghost s6 = *self;
        let arg_ty = if signed {
            self.ctx.ty_signed(loc, len_128)
        } else {
            self.ctx.ty_bits(loc, len_128)
        };
        proof {
            Self::lemma_grew(s6, *self);
            Self::lemma_evolved_trans(s5, s6, *self);
            Self::lemma_evolved_trans(s4, s5, *self);
            Self::lemma_evolved_trans(s0, s4, *self);
            Self::keep_node(s4, *self, arg);
            assert(self.tt(arg_ty) == bits_term(flag, 128));
        }
        let ghost s7 = *self;
        let res = self.unify(loc, arg, arg_ty);
        proof {
            assert forall|typing: spec_fn(Slot) -> Term|
                #[trigger] s0.typable(typing) && cast_typed(typing, *cast, signed) implies res is Ok && self.typable(typing) by {
                assert(s5.typable(typing));
                Self::lemma_typable_grow(s5, s6, typing);
                Self::lemma_typable_grow(s6, s7, typing);
                let sigma = choose|sigma: spec_fn(VarNum) -> Term| s7.typed_by(sigma, typing);
                assert(s7.known(cast.arg));
                Self::keep_ts(s4, s7, arg, cast.arg);
                crate::compiler::mir::ty::lemma_kind_term_ground(
                    if signed {
                        crate::types::kind::KindView::Signed(128)
                    } else {
                        crate::types::kind::KindView::Bits(128)
                    },
                );
                lemma_inst_ground(sigma, bits_term(flag, 128));
                assert(unifies(sigma, s7.tt(arg), s7.tt(arg_ty)));
                Self::lemma_typed_kept(s7, *self, sigma, typing);
            }
            let f = *self;
            Self::lemma_evolved_trans(s0, s7, f);
            if res is Ok {
                Self::lemma_evolved_trans(s4, s7, f);
                Self::lemma_evolved_trans(s5, s7, f);
                Self::keep_ts(s4, f, lhs, cast.lhs);
                Self::keep_ts(s4, f, arg, cast.arg);
                Self::keep_node(s4, s5, lhs);
                Self::keep_node(s4, s5, lhs_ty);
                Self::keep_tt(s5, f, lhs, lhs_ty);
                Self::keep_node(s4, f, lhs_ty);
                Self::keep_ground(s4, f, sign_node);
                if let Some(n) = cast.len {
                    Self::keep_ground(s4, f, len);
                }
                assert(ground(bits_term(flag, 128))) by {
                    crate::compiler::mir::ty::lemma_kind_term_ground(
                        if signed {
                            crate::types::kind::KindView::Signed(128)
                        } else {
                            crate::types::kind::KindView::Bits(128)
                        },
                    );
                }
                Self::keep_ground(s7, f, arg_ty);
                assert(app_of(f.ctx, lhs_ty, Shape::Bits, 2));
                assert(arg_of(f.ctx, lhs_ty, 0) == sign_node);
                assert(arg_of(f.ctx, lhs_ty, 1) == len);
                assert(f.tm(cast.lhs) == f.tt(lhs_ty));
                assert(f.tm(cast.arg) == bits_term(flag, 128));
            }
        }
        res
    }

    fn infer_resize(&mut self, mir: &Mir, loc: NodeId, cast: &Cast) -> (r: Result<(), RHDLError>)
        requires
            old(self).inv(),
            named(mir, cast.lhs),
            named(mir, cast.arg),
            old(self).ctx.vars() + 5 <= u32::MAX,
        ensures
            final(self).inv(),
            final(self).evolved_from(*old(self)),
            final(self).type_ops@ == old(self).type_ops@,
            final(self).ctx.vars() <= old(self).ctx.vars() + 5,
            r is Ok ==> final(self).resize_holds(*cast),
    {
        let ghost s0 = *self;
        let arg = self.slot_ty(mir, cast.arg);
        let ghost s1 = *self;
        let lhs = self.slot_ty(mir, cast.lhs);
        let ghost s2 = *self;
        proof {
            Self::lemma_evolved_trans(s0, s1, s2);
            Self::keep_ts(s1, s2, arg, cast.arg);
        }
        let len = match cast.len {
            Some(n) => self.ctx.ty_const_len(loc, n),
            None => self.ctx.ty_var(loc),
        };
        proof {
            Self::lemma_grew(s2, *self);
        }
        let ghost s3 = *self;
        let sign = self.ctx.ty_var(loc);
        proof {
            Self::lemma_grew(s3, *self);
            Self::keep_node(s3, *self, len);
        }
        let ghost s4 = *self;
        let lhs_ty = self.ctx.ty_with_sign_and_len(loc, sign, len);
        proof {
            Self::lemma_grew(s4, *self);
            Self::lemma_evolved_trans(s2, s3, s4);
            Self::lemma_evolved_trans(s2, s4, *self);
            Self::lemma_evolved_trans(s0, s2, *self);
            Self::keep_ts(s2, *self, lhs, cast.lhs);
            Self::keep_ts(s2, *self, arg, cast.arg);
            Self::keep_node(s4, *self, sign);
            if let Some(n) = cast.len {
                Self::lemma_evolved_trans(s3, s4, *self);
                Self::keep_ground(s3, *self, len);
                assert(ground(Term::Const(Const::Length(n))));
            }
        }
        let ghost s5 = *self;
        let res = self.unify(loc, lhs, lhs_ty);
        proof {
            Self::lemma_evolved_trans(s0, s5, *self);
        }
        res?;
        let ghost s6 = *self;
        let arg_len = self.ctx.ty_var(loc);
        proof {
            Self::lemma_grew(s6, *self);
            Self::keep_node(s5, s6, sign);
            Self::keep_node(s6, *self, sign);
        }
        let ghost s7 = *self;
        let arg_ty = self.ctx.ty_with_sign_and_len(loc, sign, arg_len);
        proof {
            Self::lemma_grew(s7, *self);
            Self::lemma_evolved_trans(s6, s7, *self);
            Self::lemma_evolved_trans(s5, s6, *self);
            Self::lemma_evolved_trans(s0, s5, *self);
            Self::keep_node(s5, *self, arg);
        }
        let ghost s8 = *self;
        let res = self.unify(loc, arg, arg_ty);
        proof {
            let f = *self;
            Self::lemma_evolved_trans(s0, s8, f);
            if res is Ok {
                Self::lemma_evolved_trans(s5, s8, f);
                Self::lemma_evolved_trans(s6, s8, f);
                Self::keep_ts(s5, f, lhs, cast.lhs);
                Self::keep_ts(s5, f, arg, cast.arg);
                Self::keep_node(s5, s6, lhs);
                Self::keep_node(s5, s6, lhs_ty);
                Self::keep_tt(s6, f, lhs, lhs_ty);
                Self::keep_node(s5, f, lhs_ty);
                Self::keep_node(s8, f, arg_ty);
                if let Some(n) = cast.len {
                    Self::keep_ground(s5, f, len);
                }
                assert(app_of(f.ctx, lhs_ty, Shape::Bits, 2));
                assert(app_of(f.ctx, arg_ty, Shape::Bits, 2));
                assert(arg_of(f.ctx, lhs_ty, 0) == sign);
                assert(arg_of(f.ctx, arg_ty, 0) == sign);
                assert(arg_of(f.ctx, lhs_ty, 1) == len);
                assert(f.tm(cast.lhs) == f.tt(lhs_ty));
                assert(f.tm(cast.arg) == f.tt(arg_ty));
            }
        }
        res
    }

    fn infer_select(&mut self, mir: &Mir, loc: NodeId, select: &Select) -> (r: Result<(), RHDLError>)
        requires
            old(self).inv(),
            named(mir, select.cond),
            named(mir, select.lhs),
            named(mir, select.true_value),
            named(mir, select.false_value),
            old(self).ctx.vars() + 4 <= u32::MAX,
        ensures
            r is Ok ==> one_rule_added(old(self).type_ops@, final(self).type_ops@, OpCode::Select(*select), loc),
            final(self).inv(),
            final(self).evolved_from(*old(self)),
            final(self).ctx.vars() <= old(self).ctx.vars() + 4,
            r is Ok ==> final(self).select_holds(*select, loc),
            type_ops_budget(final(self).type_ops@) <= type_ops_budget(old(self).type_ops@) + 1,
            old(self).paths_named(mir) ==> final(self).paths_named(mir),
            r is Ok ==> final(self).rule_ties(final(self).type_ops@.last(), OpCode::Select(*select)),
            old(self).known(select.cond) && old(self).known(select.lhs) && old(self).known(select.true_value) && old(self).known(
                select.false_value,
            ) ==> final(self).slot_map@ == old(self).slot_map@,
            forall|typing: spec_fn(Slot) -> Term|
                #[trigger] old(self).typable(typing) && typing(select.cond) == bits_term(SignFlag::Unsigned, 1) ==> r is Ok && final(self).typable(typing),
    {
        let ghost s0 = *self;
        let cond = self.slot_ty(mir, select.cond);
        let ghost s1 = *self;
        let cond_ty = self.ctx.ty_bool(loc);
        proof {
            Self::lemma_grew(s1, *self);
            Self::lemma_evolved_trans(s0, s1, *self);
            Self::keep_ts(s1, *self, cond, select.cond);
        }
        let ghost s2 = *self;
        let res = self.unify(loc, cond, cond_ty);
        proof {
            assert forall|typing: spec_fn(Slot) -> Term|
                #[trigger] s0.typable(typing) && typing(select.cond) == bits_term(SignFlag::Unsigned, 1) implies res is Ok && self.typable(typing) by {
                assert(s1.typable(typing));
                Self::lemma_typable_grow(s1, s2, typing);
                let sigma = choose|sigma: spec_fn(VarNum) -> Term| s2.typed_by(sigma, typing);
                assert(s2.known(select.cond));
                lemma_kind_term_ground(KindView::Bits(1));
                lemma_inst_ground(sigma, bits_term(SignFlag::Unsigned, 1));
                assert(unifies(sigma, s2.tt(cond), s2.tt(cond_ty)));
                Self::lemma_typed_kept(s2, *self, sigma, typing);
            }
            Self::lemma_evolved_trans(s0, s2, *self);
        }
        res?;
        let ghost s3 = *self;
        let lhs = self.slot_ty(mir, select.lhs);
        let ghost s3b = *self;
        let true_value = self.slot_ty(mir, select.true_value);
        let ghost s4 = *self;
        let false_value = self.slot_ty(mir, select.false_value);
        let ghost s5 = *self;
        proof {
            Self::keep_ts(s3b, s4, lhs, select.lhs);
            Self::keep_ts(s4, s5, true_value, select.true_value);
            Self::keep_ts(s4, s5, lhs, select.lhs);
            Self::lemma_evolved_trans(s3b, s4, s5);
            Self::lemma_evolved_trans(s3, s3b, s5);
        }
        let op = TypeOperation {
            loc,
            kind: TypeOperationKind::Select(TypeSelect { lhs, true_value, false_value }),
        };
        let ghost gop = op;
        self.type_ops.push(op);
        proof {
            let f = *self;
            Self::lemma_pushed(s5, f, gop);
            assert(f.type_ops@.drop_last() =~= s5.type_ops@);
            assert forall|k: int| 0 <= k < f.type_ops@.len() && old(self).paths_named(mir) implies ((#[trigger] f.type_ops@[k]).kind matches TypeOperationKind::Index(t)
                ==> path_named(mir, t.path@)) by {
                if k < s5.type_ops@.len() {
                    assert(f.type_ops@[k] == old(self).type_ops@[k]);
                }
            }
            Self::lemma_evolved_trans(s3, s5, f);
            Self::lemma_evolved_trans(s0, s3, f);
            Self::keep_ts(s5, f, lhs, select.lhs);
            Self::keep_ts(s5, f, true_value, select.true_value);
            Self::keep_ts(s5, f, false_value, select.false_value);
            Self::keep_node(s2, s3, cond);
            Self::keep_node(s2, s3, cond_ty);
            Self::keep_ts(s2, s3, cond, select.cond);
            Self::keep_ts(s3, f, cond, select.cond);
            Self::keep_tt(s3, f, cond, cond_ty);
            assert(ground(bits_term(SignFlag::Unsigned, 1))) by {
                crate::compiler::mir::ty::lemma_kind_term_ground(crate::types::kind::KindView::Bits(1));
            }
            Self::lemma_evolved_trans(s2, s3, f);
            Self::keep_ground(s2, f, cond_ty);
            assert(f.deferred_at(s5.type_ops@.len() as int, loc));
            assert(f.type_ops@.last() == gop);
            assert forall|typing: spec_fn(Slot) -> Term| #[trigger] s0.typable(typing) && typing(select.cond) == bits_term(SignFlag::Unsigned, 1) implies f.typable(typing) by {
                assert(s3.typable(typing));
                assert(s3b.typable(typing));
                assert(s4.typable(typing));
                Self::lemma_typable_same(s5, f, typing);
            }
        }
        Ok(())
    }

    fn infer_binary(&mut self, mir: &Mir, loc: NodeId, binary: &Binary) -> (r: Result<(), RHDLError>)
        requires
            old(self).inv(),
            named(mir, binary.lhs),
            named(mir, binary.arg1),
            named(mir, binary.arg2),
            old(self).ctx.vars() + 3 <= u32::MAX,
        ensures
            r is Ok ==> one_rule_added(old(self).type_ops@, final(self).type_ops@, OpCode::Binary(*binary), loc),
            final(self).inv(),
            final(self).evolved_from(*old(self)),
            final(self).ctx.vars() <= old(self).ctx.vars() + 3,
            r is Ok ==> final(self).binary_holds(*binary, loc),
            type_ops_budget(final(self).type_ops@) <= type_ops_budget(old(self).type_ops@) + 1,
            old(self).paths_named(mir) ==> final(self).paths_named(mir),
            r is Ok,
            final(self).rule_ties(final(self).type_ops@.last(), OpCode::Binary(*binary)),
            old(self).known(binary.lhs) && old(self).known(binary.arg1) && old(self).known(binary.arg2) ==> final(self).slot_map@
                == old(self).slot_map@,
            forall|typing: spec_fn(Slot) -> Term| #[trigger] old(self).typable(typing) ==> final(self).typable(typing),
    {
        let ghost s0 = *self;
        let lhs = self.slot_ty(mir, binary.lhs);
        let ghost s1 = *self;
        let arg1 = self.slot_ty(mir, binary.arg1);
        let ghost s2 = *self;
        let arg2 = self.slot_ty(mir, binary.arg2);
        let ghost s3 = *self;
        proof {
            Self::lemma_evolved_trans(s1, s2, s3);
            Self::lemma_evolved_trans(s0, s1, s3);
            Self::keep_ts(s1, s3, lhs, binary.lhs);
            Self::keep_ts(s2, s3, arg1, binary.arg1);
        }
        let op = TypeOperation { loc, kind: TypeOperationKind::BinOp(TypeBinOp { op: binary.op, lhs, arg1, arg2 }) };
        let ghost gop = op;
        self.type_ops.push(op);
        proof {
            let f = *self;
            Self::lemma_pushed(s3, f, gop);
            assert(f.type_ops@.drop_last() =~= s3.type_ops@);
            assert forall|k: int| 0 <= k < f.type_ops@.len() && old(self).paths_named(mir) implies ((#[trigger] f.type_ops@[k]).kind matches TypeOperationKind::Index(t)
                ==> path_named(mir, t.path@)) by {
                if k < s3.type_ops@.len() {
                    assert(f.type_ops@[k] == old(self).type_ops@[k]);
                }
            }
            Self::lemma_evolved_trans(s0, s3, f);
            Self::keep_ts(s3, f, lhs, binary.lhs);
            Self::keep_ts(s3, f, arg1, binary.arg1);
            Self::keep_ts(s3, f, arg2, binary.arg2);
            assert(f.deferred_at(s3.type_ops@.len() as int, loc));
            assert forall|typing: spec_fn(Slot) -> Term| #[trigger] s0.typable(typing) implies f.typable(typing) by {
                assert(s1.typable(typing));
                assert(s2.typable(typing));
                Self::lemma_typable_same(s3, f, typing);
            }
            assert(f.type_ops@.last() == gop);
        }
        Ok(())
    }

    fn infer_index(&mut self, mir: &Mir, loc: NodeId, index: &Index) -> (r: Result<(), RHDLError>)
        requires
            old(self).inv(),
            path_named(mir, index.path@),
            named(mir, index.lhs),
            named(mir, index.arg),
            old(self).ctx.vars() + 2 <= u32::MAX,
        ensures
            r is Ok ==> one_rule_added(old(self).type_ops@, final(self).type_ops@, OpCode::Index(*index), loc),
            final(self).inv(),
            final(self).evolved_from(*old(self)),
            final(self).ctx.vars() <= old(self).ctx.vars() + 2,
            r is Ok ==> final(self).index_holds(*index, loc),
            r is Ok ==> final(self).rule_ties(final(self).type_ops@.last(), OpCode::Index(*index)),
            type_ops_budget(final(self).type_ops@) <= type_ops_budget(old(self).type_ops@) + 1 + index.path@.len(),
            old(self).paths_named(mir) ==> final(self).paths_named(mir),
            r is Ok,
            forall|typing: spec_fn(Slot) -> Term| #[trigger] old(self).typable(typing) ==> final(self).typable(typing),
    {
        let ghost s0 = *self;
        let arg = self.slot_ty(mir, index.arg);
        let ghost s1 = *self;
        let lhs = self.slot_ty(mir, index.lhs);
        let ghost s2 = *self;
        proof {
            Self::lemma_evolved_trans(s0, s1, s2);
            Self::keep_ts(s1, s2, arg, index.arg);
        }
        let path = index.path.copy();
        let op = TypeOperation { loc, kind: TypeOperationKind::Index(TypeIndex { lhs, arg, path }) };
        let ghost gop = op;
        self.type_ops.push(op);
        proof {
            let f = *self;
            Self::lemma_pushed(s2, f, gop);
            assert(f.type_ops@.drop_last() =~= s2.type_ops@);
            assert forall|k: int| 0 <= k < f.type_ops@.len() && old(self).paths_named(mir) implies ((#[trigger] f.type_ops@[k]).kind matches TypeOperationKind::Index(t)
                ==> path_named(mir, t.path@)) by {
                if k < s2.type_ops@.len() {
                    assert(f.type_ops@[k] == old(self).type_ops@[k]);
                }
            }
            Self::lemma_evolved_trans(s0, s2, f);
            Self::keep_ts(s2, f, lhs, index.lhs);
            Self::keep_ts(s2, f, arg, index.arg);
            assert(f.deferred_at(s2.type_ops@.len() as int, loc));
            assert forall|typing: spec_fn(Slot) -> Term| #[trigger] s0.typable(typing) implies f.typable(typing) by {
                assert(s1.typable(typing));
                Self::lemma_typable_same(s2, f, typing);
            }
        }
        Ok(())
    }

    fn infer_splice(&mut self, mir: &Mir, loc: NodeId, splice: &Splice) -> (r: Result<(), RHDLError>)
        requires
            old(self).inv(),
            path_named(mir, splice.path@),
            named(mir, splice.lhs),
            named(mir, splice.orig),
            named(mir, splice.subst),
            old(self).ctx.vars() + 3 <= u32::MAX,
        ensures
            r is Ok ==> one_rule_added(old(self).type_ops@, final(self).type_ops@, OpCode::Splice(*splice), loc),
            final(self).inv(),
            final(self).evolved_from(*old(self)),
            final(self).ctx.vars() <= old(self).ctx.vars() + 3,
            r is Ok ==> final(self).splice_holds(*splice, loc),
            r is Ok ==> final(self).rule_ties(final(self).type_ops@.last(), OpCode::Splice(*splice)),
            type_ops_budget(final(self).type_ops@) <= type_ops_budget(old(self).type_ops@) + 1 + splice.path@.len(),
            old(self).paths_named(mir) ==> final(self).paths_named(mir),
            forall|typing: spec_fn(Slot) -> Term|
                #[trigger] old(self).typable(typing) && typing(splice.lhs) == typing(splice.orig) ==> r is Ok && final(self).typable(typing),
    {
        let ghost s0 = *self;
        let lhs = self.slot_ty(mir, splice.lhs);
        let ghost s1 = *self;
        let orig = self.slot_ty(mir, splice.orig);
        let ghost s2 = *self;
        let subst = self.slot_ty(mir, splice.subst);
        let ghost s3 = *self;
        proof {
            Self::lemma_evolved_trans(s1, s2, s3);
            Self::lemma_evolved_trans(s0, s1, s3);
            Self::keep_ts(s1, s3, lhs, splice.lhs);
            Self::keep_ts(s2, s3, orig, splice.orig);
        }
        let res = self.unify(loc, lhs, orig);
        proof {
            assert forall|typing: spec_fn(Slot) -> Term|
                #[trigger] s0.typable(typing) && typing(splice.lhs) == typing(splice.orig) implies res is Ok && self.typable(typing) by {
                assert(s1.typable(typing));
                assert(s2.typable(typing));
                assert(s3.typable(typing));
                let sigma = choose|sigma: spec_fn(VarNum) -> Term| s3.typed_by(sigma, typing);
                assert(s3.known(splice.lhs));
                assert(s3.known(splice.orig));
                assert(unifies(sigma, s3.tt(lhs), s3.tt(orig)));
                Self::lemma_typed_kept(s3, *self, sigma, typing);
            }
            Self::lemma_evolved_trans(s0, s3, *self);
        }
        res?;
        let ghost s4 = *self;
        proof {
            Self::keep_ts(s3, s4, lhs, splice.lhs);
            Self::keep_ts(s3, s4, orig, splice.orig);
            Self::keep_ts(s3, s4, subst, splice.subst);
        }
        let path = splice.path.copy();
        let op = TypeOperation { loc, kind: TypeOperationKind::Index(TypeIndex { lhs: subst, arg: lhs, path }) };
        let ghost gop = op;
        self.type_ops.push(op);
        proof {
            let f = *self;
            Self::lemma_pushed(s4, f, gop);
            assert(f.type_ops@.drop_last() =~= s4.type_ops@);
            assert forall|k: int| 0 <= k < f.type_ops@.len() && old(self).paths_named(mir) implies ((#[trigger] f.type_ops@[k]).kind matches TypeOperationKind::Index(t)
                ==> path_named(mir, t.path@)) by {
                if k < s4.type_ops@.len() {
                    assert(f.type_ops@[k] == old(self).type_ops@[k]);
                }
            }
            Self::lemma_evolved_trans(s0, s4, f);
            Self::keep_ts(s4, f, lhs, splice.lhs);
            Self::keep_ts(s4, f, orig, splice.orig);
            Self::keep_ts(s4, f, subst, splice.subst);
            assert(f.deferred_at(s4.type_ops@.len() as int, loc));
            assert forall|typing: spec_fn(Slot) -> Term| #[trigger] s0.typable(typing) && typing(splice.lhs) == typing(splice.orig) implies f.typable(typing) by {
                Self::lemma_typable_same(s4, f, typing);
            }
        }
        Ok(())
    }

    /// A negation is signed on both sides, with one type.
    fn neg_rule(&mut self, loc: NodeId, lhs: TypeId, arg1: TypeId) -> (r: Result<(), RHDLError>)
        requires
            old(self).inv(),
            old(self).ctx.has(lhs),
            old(self).ctx.has(arg1),
            old(self).ctx.vars() + 1 <= u32::MAX,
        ensures
            final(self).inv(),
            final(self).evolved_from(*old(self)),
            final(self).type_ops@ == old(self).type_ops@,
            final(self).ctx.vars() <= old(self).ctx.vars() + 1,
            r is Ok ==> exists|w: TypeId|
                #[trigger] app_of(final(self).ctx, w, Shape::Bits, 2) && final(self).tt(arg_of(final(self).ctx, w, 0))
                    == Term::Const(Const::Signed(SignFlag::Signed)) && final(self).tt(lhs) == final(self).tt(w) && final(self).tt(
                    arg1,
                ) == final(self).tt(w),
            r is Err ==> r == Err::<(), RHDLError>(RHDLError::Syntax { cause: Syntax::RollYourOwnUnary { op: AluUnary::Neg }, id: loc }),
    {
        let ghost s0 = *self;
        let len = self.ctx.ty_var(loc);
        proof {
            Self::lemma_grew(s0, *self);
        }
        let ghost s1 = *self;
        let signed_ty = self.ctx.ty_signed(loc, len);
        let ghost sign_node = arg_of(self.ctx, signed_ty, 0);
        proof {
            Self::lemma_grew(s1, *self);
            Self::lemma_evolved_trans(s0, s1, *self);
            Self::keep_node(s0, *self, lhs);
            Self::keep_node(s0, *self, arg1);
            assert(ground(Term::Const(Const::Signed(SignFlag::Signed))));
        }
        let ghost s2 = *self;
        let first = self.unify(loc, lhs, signed_ty);
        proof {
            Self::lemma_evolved_trans(s0, s2, *self);
        }
        if first.is_err() {
            return Err(RHDLError::Syntax { cause: Syntax::RollYourOwnUnary { op: AluUnary::Neg }, id: loc });
        }
        let ghost s3 = *self;
        proof {
            Self::keep_node(s2, s3, arg1);
            Self::keep_node(s2, s3, signed_ty);
        }
        let second = self.unify(loc, arg1, signed_ty);
        proof {
            Self::lemma_evolved_trans(s0, s3, *self);
        }
        if second.is_err() {
            return Err(RHDLError::Syntax { cause: Syntax::RollYourOwnUnary { op: AluUnary::Neg }, id: loc });
        }
        proof {
            let f = *self;
            Self::lemma_evolved_trans(s2, s3, f);
            Self::keep_node(s2, s3, lhs);
            Self::keep_tt(s3, f, lhs, signed_ty);
            Self::keep_node(s2, f, signed_ty);
            Self::keep_ground(s2, f, sign_node);
            assert(app_of(f.ctx, signed_ty, Shape::Bits, 2));
        }
        Ok(())
    }

    /// A change of sign: `lhs` has sign `to_signed` and `arg1` the other
    /// sign, with one length.
    fn sign_cast_rule(&mut self, loc: NodeId, lhs: TypeId, arg1: TypeId, to_signed: bool) -> (r: Result<(), RHDLError>)
        requires
            old(self).inv(),
            old(self).ctx.has(lhs),
            old(self).ctx.has(arg1),
            old(self).ctx.vars() + 1 <= u32::MAX,
        ensures
            final(self).inv(),
            final(self).evolved_from(*old(self)),
            final(self).type_ops@ == old(self).type_ops@,
            final(self).ctx.vars() <= old(self).ctx.vars() + 1,
            r is Ok ==> exists|w1: TypeId, w2: TypeId|
                #![trigger app_of(final(self).ctx, w1, Shape::Bits, 2), app_of(final(self).ctx, w2, Shape::Bits, 2)]
                app_of(final(self).ctx, w1, Shape::Bits, 2) && app_of(final(self).ctx, w2, Shape::Bits, 2) && final(self).tt(
                    arg_of(final(self).ctx, w1, 0),
                ) == Term::Const(Const::Signed(if to_signed { SignFlag::Signed } else { SignFlag::Unsigned }))
                    && final(self).tt(arg_of(final(self).ctx, w2, 0)) == Term::Const(
                    Const::Signed(if to_signed { SignFlag::Unsigned } else { SignFlag::Signed }),
                ) && final(self).tt(arg_of(final(self).ctx, w1, 1)) == final(self).tt(arg_of(final(self).ctx, w2, 1))
                    && final(self).tt(lhs) == final(self).tt(w1) && final(self).tt(arg1) == final(self).tt(w2),
            r is Err ==> r == Err::<(), RHDLError>(
                RHDLError::Syntax {
                    cause: Syntax::RollYourOwnUnary { op: if to_signed { AluUnary::Signed } else { AluUnary::Unsigned } },
                    id: loc,
                },
            ),
    {
        let op = if to_signed {
            AluUnary::Signed
        } else {
            AluUnary::Unsigned
        };
        let ghost s0 = *self;
        let len = self.ctx.ty_var(loc);
        proof {
            Self::lemma_grew(s0, *self);
        }
        let ghost s1 = *self;
        let signed_ty = self.ctx.ty_signed(loc, len);
        let ghost n_signed = arg_of(self.ctx, signed_ty, 0);
        proof {
            Self::lemma_grew(s1, *self);
            Self::keep_node(s1, *self, len);
        }
        let ghost s2 = *self;
        let unsigned_ty = self.ctx.ty_bits(loc, len);
        let ghost n_unsigned = arg_of(self.ctx, unsigned_ty, 0);
        proof {
            Self::lemma_grew(s2, *self);
            Self::lemma_evolved_trans(s1, s2, *self);
            Self::lemma_evolved_trans(s0, s1, *self);
            Self::keep_node(s0, *self, lhs);
            Self::keep_node(s0, *self, arg1);
            Self::keep_node(s2, *self, signed_ty);
            Self::keep_node(s2, *self, n_signed);
            Self::keep_ground(s2, *self, n_signed);
            assert(ground(Term::Const(Const::Signed(SignFlag::Signed))));
            assert(ground(Term::Const(Const::Signed(SignFlag::Unsigned))));
            Self::keep_ground(s2, *self, n_signed);
        }
        let ghost s3 = *self;
        let (lhs_target, arg_target) = if to_signed {
            (signed_ty, unsigned_ty)
        } else {
            (unsigned_ty, signed_ty)
        };
        let first = self.unify(loc, lhs, lhs_target);
        proof {
            Self::lemma_evolved_trans(s0, s3, *self);
        }
        if first.is_err() {
            return Err(RHDLError::Syntax { cause: Syntax::RollYourOwnUnary { op }, id: loc });
        }
        let ghost s4 = *self;
        proof {
            Self::keep_node(s3, s4, arg1);
            Self::keep_node(s3, s4, arg_target);
        }
        let second = self.unify(loc, arg1, arg_target);
        proof {
            Self::lemma_evolved_trans(s0, s4, *self);
        }
        if second.is_err() {
            return Err(RHDLError::Syntax { cause: Syntax::RollYourOwnUnary { op }, id: loc });
        }
        proof {
            let f = *self;
            Self::lemma_evolved_trans(s3, s4, f);
            Self::keep_node(s3, s4, lhs);
            Self::keep_node(s3, s4, lhs_target);
            Self::keep_tt(s4, f, lhs, lhs_target);
            Self::keep_node(s3, f, signed_ty);
            Self::keep_node(s3, f, unsigned_ty);
            Self::keep_ground(s3, f, n_signed);
            Self::keep_ground(s3, f, n_unsigned);
            assert(app_of(f.ctx, signed_ty, Shape::Bits, 2));
            assert(app_of(f.ctx, unsigned_ty, Shape::Bits, 2));
            assert(arg_of(f.ctx, signed_ty, 1) == len);
            assert(arg_of(f.ctx, unsigned_ty, 1) == len);
        }
        Ok(())
    }

    /// Reading a signal's value: the argument is a signal carrying the
    /// result's type.
    fn val_rule(&mut self, loc: NodeId, lhs: TypeId, arg1: TypeId) -> (r: Result<(), RHDLError>)
        requires
            old(self).inv(),
            old(self).ctx.has(lhs),
            old(self).ctx.has(arg1),
            old(self).ctx.vars() + 2 <= u32::MAX,
        ensures
            final(self).inv(),
            final(self).evolved_from(*old(self)),
            final(self).type_ops@ == old(self).type_ops@,
            final(self).ctx.vars() <= old(self).ctx.vars() + 2,
            r is Ok ==> exists|w: TypeId|
                #[trigger] app_of(final(self).ctx, w, Shape::Signal, 2) && final(self).tt(arg1) == final(self).tt(w)
                    && final(self).tt(lhs) == final(self).tt(arg_of(final(self).ctx, w, 0)),
            r is Err ==> r == Err::<(), RHDLError>(RHDLError::Syntax { cause: Syntax::RollYourOwnUnary { op: AluUnary::Val }, id: loc }),
    {
        let ghost s0 = *self;
        let sig_ty = self.ctx.ty_var(loc);
        proof {
            Self::lemma_grew(s0, *self);
        }
        let ghost s1 = *self;
        let sig_clock = self.ctx.ty_var(loc);
        proof {
            Self::lemma_grew(s1, *self);
            Self::keep_node(s1, *self, sig_ty);
        }
        let ghost s2 = *self;
        let sig = self.ctx.ty_signal(loc, sig_ty, sig_clock);
        proof {
            Self::lemma_grew(s2, *self);
            Self::lemma_evolved_trans(s1, s2, *self);
            Self::lemma_evolved_trans(s0, s1, *self);
            Self::keep_node(s0, *self, lhs);
            Self::keep_node(s0, *self, arg1);
            Self::keep_node(s2, *self, sig_ty);
        }
        let ghost s3 = *self;
        let first = self.unify(loc, lhs, sig_ty);
        proof {
            Self::lemma_evolved_trans(s0, s3, *self);
        }
        if first.is_err() {
            return Err(RHDLError::Syntax { cause: Syntax::RollYourOwnUnary { op: AluUnary::Val }, id: loc });
        }
        let ghost s4 = *self;
        proof {
            Self::keep_node(s3, s4, arg1);
            Self::keep_node(s3, s4, sig);
        }
        let second = self.unify(loc, arg1, sig);
        proof {
            Self::lemma_evolved_trans(s0, s4, *self);
        }
        if second.is_err() {
            return Err(RHDLError::Syntax { cause: Syntax::RollYourOwnUnary { op: AluUnary::Val }, id: loc });
        }
        proof {
            let f = *self;
            Self::lemma_evolved_trans(s3, s4, f);
            Self::keep_node(s3, s4, lhs);
            Self::keep_node(s3, s4, sig_ty);
            Self::keep_tt(s4, f, lhs, sig_ty);
            Self::keep_node(s3, f, sig);
            assert(app_of(f.ctx, sig, Shape::Signal, 2));
            assert(arg_of(f.ctx, sig, 0) == sig_ty);
        }
        Ok(())
    }

    fn infer_unary(&mut self, mir: &Mir, loc: NodeId, unary: &Unary) -> (r: Result<(), RHDLError>)
        requires
            old(self).inv(),
            named(mir, unary.lhs),
            named(mir, unary.arg1),
            old(self).ctx.vars() + 4 <= u32::MAX,
        ensures
            r is Ok ==> if deferrable(OpCode::Unary(*unary)) { one_rule_added(old(self).type_ops@, final(self).type_ops@, OpCode::Unary(*unary), loc) } else { final(self).type_ops@ == old(self).type_ops@ },
            final(self).inv(),
            final(self).evolved_from(*old(self)),
            final(self).ctx.vars() <= old(self).ctx.vars() + 4,
            r is Ok ==> final(self).unary_holds(*unary, loc),
            r is Ok && deferrable(OpCode::Unary(*unary)) ==> final(self).rule_ties(final(self).type_ops@.last(), OpCode::Unary(*unary)),
            type_ops_budget(final(self).type_ops@) <= type_ops_budget(old(self).type_ops@) + 1,
            old(self).paths_named(mir) ==> final(self).paths_named(mir),
            forall|typing: spec_fn(Slot) -> Term|
                #[trigger] old(self).typable(typing) && op_typed(typing, OpCode::Unary(*unary)) ==> r is Ok && final(self).typable(typing),
    {
        let ghost s0 = *self;
        let lhs = self.slot_ty(mir, unary.lhs);
        let ghost s1 = *self;
        let arg1 = self.slot_ty(mir, unary.arg1);
        let ghost s2 = *self;
        proof {
            Self::lemma_evolved_trans(s0, s1, s2);
            Self::keep_ts(s1, s2, lhs, unary.lhs);
        }
        proof {
            assert forall|typing: spec_fn(Slot) -> Term| #[trigger] s0.typable(typing) implies s2.typable(typing) by {
                assert(s1.typable(typing));
            }
        }
        let r = match unary.op {
            AluUnary::Not => {
                let res = self.unify(loc, lhs, arg1);
                proof {
                    assert forall|typing: spec_fn(Slot) -> Term|
                        #[trigger] s2.typable(typing) && typing(unary.lhs) == typing(unary.arg1) implies res is Ok && self.typable(typing) by {
                        let sigma = choose|sigma: spec_fn(VarNum) -> Term| s2.typed_by(sigma, typing);
                        assert(s2.known(unary.lhs));
                        assert(s2.known(unary.arg1));
                        assert(unifies(sigma, s2.tt(lhs), s2.tt(arg1)));
                        Self::lemma_typed_kept(s2, *self, sigma, typing);
                    }
                }
                res
            },
            AluUnary::Neg => self.neg_rule(loc, lhs, arg1),
            AluUnary::All | AluUnary::Any | AluUnary::Xor | AluUnary::Pad => {
                let op = TypeOperation { loc, kind: TypeOperationKind::UnaryOp(TypeUnaryOp { op: unary.op, lhs, arg1 }) };
                let ghost gop = op;
                self.type_ops.push(op);
                proof {
                    assert forall|typing: spec_fn(Slot) -> Term| #[trigger] s2.typable(typing) implies self.typable(typing) by {
                        Self::lemma_typable_same(s2, *self, typing);
                    }
                    Self::lemma_pushed(s2, *self, gop);
                    assert(self.deferred_at(s2.type_ops@.len() as int, loc));
                    assert(self.type_ops@.drop_last() =~= s2.type_ops@);
                    assert forall|k: int| 0 <= k < self.type_ops@.len() && old(self).paths_named(mir) implies ((#[trigger] self.type_ops@[k]).kind matches TypeOperationKind::Index(t)
                        ==> path_named(mir, t.path@)) by {
                        if k < s2.type_ops@.len() {
                            assert(self.type_ops@[k] == old(self).type_ops@[k]);
                        }
                    }
                }
                Ok(())
            },
            AluUnary::Unsigned => self.sign_cast_rule(loc, lhs, arg1, false),
            AluUnary::Signed => self.sign_cast_rule(loc, lhs, arg1, true),
            AluUnary::Val => self.val_rule(loc, lhs, arg1),
        };
        proof {
            let f = *self;
            Self::lemma_evolved_trans(s0, s2, f);
            Self::keep_ts(s2, f, lhs, unary.lhs);
            Self::keep_ts(s2, f, arg1, unary.arg1);
        }
        r
    }

    fn infer_struct(&mut self, mir: &Mir, loc: NodeId, structure: &Struct) -> (r: Result<(), RHDLError>)
        requires
            old(self).inv(),
            named(mir, structure.lhs),
            forall|i: int| 0 <= i < structure.fields@.len() ==> named(mir, (#[trigger] structure.fields@[i]).value),
            structure.rest matches Some(r) ==> named(mir, r),
            old(self).ctx.vars() + 2 + structure.fields@.len() <= u32::MAX,
        ensures
            final(self).inv(),
            final(self).evolved_from(*old(self)),
            final(self).type_ops@ == old(self).type_ops@,
            final(self).ctx.vars() <= old(self).ctx.vars() + 2 + structure.fields@.len(),
            r is Ok ==> final(self).struct_holds(*structure),
            !(structure.template.kind@ is Struct) ==> r matches Err(RHDLError::Compile { cause: ICE::ExpectedStructTemplate { .. }, .. }),
    {
        let ghost s0 = *self;
        let lhs = self.slot_ty(mir, structure.lhs);
        let ghost s1 = *self;
        let (name, fields) = match &structure.template.kind {
            Kind::Struct(n, f) => (n, f),
            _ => {
                return Err(
                    RHDLError::Compile {
                        cause: ICE::ExpectedStructTemplate { kind: clone_kind(&structure.template.kind) },
                        id: loc,
                    },
                );
            },
        };
        let ghost kt = kind_term(structure.template.kind@);
        proof {
            lemma_kind_term_ground(structure.template.kind@);
        }
        let lhs_ty = self.ctx.ty_struct(loc, name, fields);
        proof {
            Self::lemma_grew(s1, *self);
            Self::lemma_evolved_trans(s0, s1, *self);
            Self::keep_ts(s1, *self, lhs, structure.lhs);
            assert(self.tt(lhs_ty) == kt);
        }
        let ghost s2 = *self;
        let res = self.unify(loc, lhs, lhs_ty);
        proof {
            Self::lemma_evolved_trans(s0, s2, *self);
        }
        res?;
        let ghost s3 = *self;
        proof {
            Self::lemma_evolved_refl(s3);
            Self::keep_ground(s2, s3, lhs_ty);
            Self::keep_ts(s2, s3, lhs, structure.lhs);
        }
        let mut i: usize = 0;
        while i < structure.fields.len()
            invariant
                i <= structure.fields@.len(),
                s0 == *old(self),
                self.inv(),
                s3.inv(),
                self.evolved_from(s3),
                s3.evolved_from(s0),
                self.type_ops@ == s0.type_ops@,
                self.ctx.vars() <= s3.ctx.vars() + i,
                s3.ctx.vars() <= s0.ctx.vars() + 1,
                s0.ctx.vars() + 2 + structure.fields@.len() <= u32::MAX,
                forall|j: int| 0 <= j < structure.fields@.len() ==> named(mir, (#[trigger] structure.fields@[j]).value),
                structure.template.kind == Kind::Struct(*name, *fields),
                structure.template.kind@ == KindView::Struct(name@, fields_view(fields@)),
                kt == kind_term(structure.template.kind@),
                ground(kt),
                s3.ctx.has(lhs_ty),
                s3.tt(lhs_ty) == kt,
                forall|j: int|
                    0 <= j < i ==> member_kind(struct_fields(structure.template.kind@), (#[trigger] structure.fields@[j]).member) is Some
                        && self.known(structure.fields@[j].value) && self.tm(structure.fields@[j].value) == kind_term(
                        member_kind(struct_fields(structure.template.kind@), structure.fields@[j].member)->Some_0,
                    ),
            decreases structure.fields.len() - i,
        {
            let ghost sp = *self;
            let field = &structure.fields[i];
            let field_kind = match get_field_kind(fields, &field.member) {
                Some(k) => k,
                None => {
                    proof {
                        Self::lemma_evolved_trans(s0, s3, *self);
                    }
                    return Err(RHDLError::InvalidPath);
                },
            };
            proof {
                lemma_kind_term_ground(field_kind@);
            }
            let field_ty = self.ctx.from_kind(loc, &field_kind);
            proof {
                Self::lemma_grew(sp, *self);
            }
            let ghost sa = *self;
            let field_slot = self.slot_ty(mir, field.value);
            let ghost sb = *self;
            proof {
                Self::keep_ground(sa, sb, field_ty);
            }
            let res = self.unify(loc, field_ty, field_slot);
            proof {
                Self::lemma_evolved_trans(sp, sa, sb);
                Self::lemma_evolved_trans(sp, sb, *self);
                Self::lemma_evolved_trans(s3, sp, *self);
                Self::lemma_evolved_trans(s0, s3, *self);
            }
            res?;
            proof {
                let f = *self;
                Self::keep_ts(sb, f, field_slot, field.value);
                Self::keep_ground(sb, f, field_ty);
                assert forall|j: int|
                    0 <= j < i + 1 implies member_kind(struct_fields(structure.template.kind@), (#[trigger] structure.fields@[j]).member)
                    is Some && f.known(structure.fields@[j].value) && f.tm(structure.fields@[j].value) == kind_term(
                    member_kind(struct_fields(structure.template.kind@), structure.fields@[j].member)->Some_0,
                ) by {
                    if j < i {
                        lemma_kind_term_ground(member_kind(struct_fields(structure.template.kind@), structure.fields@[j].member)->Some_0);
                        Self::keep_ground_slot(sp, f, structure.fields@[j].value);
                    }
                }
            }
            i += 1;
        }
        let ghost s4 = *self;
        proof {
            Self::lemma_evolved_trans(s0, s3, s4);
            Self::keep_ground(s3, s4, lhs_ty);
            Self::keep_ts(s3, s4, lhs, structure.lhs);
        }
        if let Some(rest) = structure.rest {
            let rest_ty = self.slot_ty(mir, rest);
            let ghost sr = *self;
            proof {
                Self::keep_ground(s4, sr, lhs_ty);
            }
            let res = self.unify(loc, lhs_ty, rest_ty);
            proof {
                Self::lemma_evolved_trans(s4, sr, *self);
                Self::lemma_evolved_trans(s0, s4, *self);
            }
            res?;
            proof {
                Self::keep_ts(sr, *self, rest_ty, rest);
                Self::keep_ground(sr, *self, lhs_ty);
            }
        }
        let ghost s5 = *self;
        proof {
            if structure.rest is None {
                Self::lemma_evolved_refl(s4);
            }
            Self::keep_ground(s4, s5, lhs_ty);
            Self::keep_ts(s4, s5, lhs, structure.lhs);
            Self::keep_node(s4, s5, lhs);
        }
        let res = self.unify(loc, lhs, lhs_ty);
        proof {
            let f = *self;
            Self::lemma_evolved_trans(s0, s4, s5);
            Self::lemma_evolved_trans(s0, s5, f);
            if res is Ok {
                Self::lemma_evolved_trans(s4, s5, f);
                Self::keep_ts(s5, f, lhs, structure.lhs);
                Self::keep_ground(s5, f, lhs_ty);
                assert forall|j: int|
                    0 <= j < structure.fields@.len() implies member_kind(struct_fields(structure.template.kind@), (#[trigger] structure.fields@[j]).member)
                    is Some && f.known(structure.fields@[j].value) && f.tm(structure.fields@[j].value) == kind_term(
                    member_kind(struct_fields(structure.template.kind@), structure.fields@[j].member)->Some_0,
                ) by {
                    lemma_kind_term_ground(member_kind(struct_fields(structure.template.kind@), structure.fields@[j].member)->Some_0);
                    Self::keep_ground_slot(s4, f, structure.fields@[j].value);
                }
                if let Some(rest) = structure.rest {
                    Self::keep_ground_slot(s5, f, rest);
                }
            }
        }
        res
    }

    fn infer_exec(&mut self, mir: &Mir, loc: NodeId, exec: &Exec) -> (r: Result<(), RHDLError>)
        requires
            old(self).inv(),
            named(mir, exec.lhs),
            forall|i: int| 0 <= i < exec.args@.len() ==> named(mir, #[trigger] exec.args@[i]),
            exec_ready(mir, *exec),
            old(self).ctx.vars() + 1 + exec.args@.len() <= u32::MAX,
        ensures
            final(self).inv(),
            final(self).evolved_from(*old(self)),
            final(self).type_ops@ == old(self).type_ops@,
            final(self).ctx.vars() <= old(self).ctx.vars() + 1 + exec.args@.len(),
            r is Ok ==> final(self).exec_holds(mir, *exec),
    {
        let ghost s0 = *self;
        let fi = find_func(&mir.stash, exec.id).unwrap();
        let external_fn = &mir.stash[fi].1;
        let ghost obj = lookup(mir.stash@, exec.id)->Some_0;
        let n = if exec.args.len() < external_fn.arguments.len() {
            exec.args.len()
        } else {
            external_fn.arguments.len()
        };
        proof {
            Self::lemma_evolved_refl(s0);
        }
        let mut i: usize = 0;
        while i < n
            invariant
                i <= n,
                n <= exec.args@.len(),
                n <= obj.arguments@.len(),
                *external_fn == obj,
                obj == lookup(mir.stash@, exec.id)->Some_0,
                exec_ready(mir, *exec),
                s0 == *old(self),
                self.inv(),
                self.evolved_from(s0),
                self.type_ops@ == s0.type_ops@,
                self.ctx.vars() <= s0.ctx.vars() + i,
                s0.ctx.vars() + 1 + exec.args@.len() <= u32::MAX,
                forall|j: int| 0 <= j < exec.args@.len() ==> named(mir, #[trigger] exec.args@[j]),
                forall|j: int|
                    0 <= j < i ==> self.known(#[trigger] exec.args@[j]) && self.tm(exec.args@[j]) == kind_term(
                        obj.slot_kind(Slot::Register(obj.arguments@[j]))->Some_0,
                    ),
            decreases n - i,
        {
            let ghost sp = *self;
            let arg_ty = self.slot_ty(mir, exec.args[i]);
            let ghost sa = *self;
            let kind = external_fn.kind(Slot::Register(external_fn.arguments[i]));
            proof {
                lemma_kind_term_ground(kind@);
            }
            let arg_kind = self.ctx.from_kind(loc, &kind);
            proof {
                Self::lemma_grew(sa, *self);
                Self::keep_node(sa, *self, arg_ty);
                Self::keep_ts(sa, *self, arg_ty, exec.args@[i as int]);
            }
            let ghost sb = *self;
            let res = self.unify(loc, arg_ty, arg_kind);
            proof {
                Self::lemma_evolved_trans(sp, sa, sb);
                Self::lemma_evolved_trans(sp, sb, *self);
                Self::lemma_evolved_trans(s0, sp, *self);
            }
            res?;
            proof {
                let f = *self;
                Self::keep_ts(sb, f, arg_ty, exec.args@[i as int]);
                Self::keep_ground(sb, f, arg_kind);
                assert forall|j: int|
                    0 <= j < i + 1 implies f.known(#[trigger] exec.args@[j]) && f.tm(exec.args@[j]) == kind_term(
                    obj.slot_kind(Slot::Register(obj.arguments@[j]))->Some_0,
                ) by {
                    if j < i {
                        lemma_kind_term_ground(obj.slot_kind(Slot::Register(obj.arguments@[j]))->Some_0);
                        Self::keep_ground_slot(sp, f, exec.args@[j]);
                    }
                }
            }
            i += 1;
        }
        let ghost s1 = *self;
        let ret_ty = self.slot_ty(mir, exec.lhs);
        let ghost s2 = *self;
        let ret = external_fn.kind(external_fn.return_slot);
        proof {
            lemma_kind_term_ground(ret@);
        }
        let ret_kind = self.ctx.from_kind(loc, &ret);
        proof {
            Self::lemma_grew(s2, *self);
            Self::keep_ts(s2, *self, ret_ty, exec.lhs);
        }
        let ghost s3 = *self;
        let res = self.unify(loc, ret_ty, ret_kind);
        proof {
            let f = *self;
            Self::lemma_evolved_trans(s1, s2, s3);
            Self::lemma_evolved_trans(s1, s3, f);
            Self::lemma_evolved_trans(s0, s1, f);
            if res is Ok {
                Self::keep_ts(s3, f, ret_ty, exec.lhs);
                Self::keep_ground(s3, f, ret_kind);
                assert forall|j: int|
                    0 <= j < exec.args@.len() && j < obj.arguments@.len() implies f.known(#[trigger] exec.args@[j]) && f.tm(
                    exec.args@[j],
                ) == kind_term(obj.slot_kind(Slot::Register(obj.arguments@[j]))->Some_0) by {
                    lemma_kind_term_ground(obj.slot_kind(Slot::Register(obj.arguments@[j]))->Some_0);
                    Self::keep_ground_slot(s1, f, exec.args@[j]);
                }
            }
        }
        res
    }

    fn infer_wrap(&mut self, mir: &Mir, loc: NodeId, wrap: &Wrap) -> (r: Result<(), RHDLError>)
        requires
            old(self).inv(),
            named(mir, wrap.lhs),
            named(mir, wrap.arg),
            old(self).ctx.vars() + 2 <= u32::MAX,
        ensures
            final(self).inv(),
            final(self).evolved_from(*old(self)),
            final(self).type_ops@ == old(self).type_ops@,
            final(self).ctx.vars() <= old(self).ctx.vars() + 2,
            r is Ok ==> final(self).wrap_holds(*wrap),
    {
        let ghost s0 = *self;
        let arg_ty = self.slot_ty(mir, wrap.arg);
        let ghost s1 = *self;
        let lhs = self.slot_ty(mir, wrap.lhs);
        let ghost s2 = *self;
        proof {
            Self::lemma_evolved_trans(s0, s1, s2);
            Self::keep_ts(s1, s2, arg_ty, wrap.arg);
            Self::lemma_evolved_refl(s2);
        }
        if let Some(kind) = &wrap.kind {
            proof {
                lemma_kind_term_ground(kind@);
            }
            let k = self.ctx.from_kind(loc, kind);
            proof {
                Self::lemma_grew(s2, *self);
                Self::keep_ts(s2, *self, lhs, wrap.lhs);
            }
            let ghost s3 = *self;
            let res = self.unify(loc, lhs, k);
            proof {
                Self::lemma_evolved_trans(s2, s3, *self);
                Self::lemma_evolved_trans(s0, s2, *self);
            }
            res?;
            proof {
                Self::keep_ts(s3, *self, lhs, wrap.lhs);
                Self::keep_ground(s3, *self, k);
            }
        }
        proof {
            let f = *self;
            Self::lemma_evolved_trans(s0, s2, f);
            Self::keep_known(s2, f, wrap.lhs);
            Self::keep_known(s2, f, wrap.arg);
        }
        Ok(())
    }

    /// The arguments of an application node are nodes too.
    pub(crate) proof fn lemma_app_args(st: MirTypeInference, w: TypeId, sh: Shape, n: nat)
        requires
            st.inv(),
            app_of(st.ctx, w, sh, n),
        ensures
            forall|i: int| 0 <= i < n ==> st.ctx.has(#[trigger] arg_of(st.ctx, w, i)),
    {
        st.ctx.lemma_term_unfold(w);
    }

    /// An application node keeps its shape and the terms of its arguments'
    /// equalities.
    pub(crate) proof fn keep_app(old: MirTypeInference, new: MirTypeInference, w: TypeId, sh: Shape, n: nat)
        requires
            old.inv(),
            new.evolved_from(old),
            app_of(old.ctx, w, sh, n),
        ensures
            app_of(new.ctx, w, sh, n),
            forall|i: int| 0 <= i < n ==> #[trigger] arg_of(new.ctx, w, i) == arg_of(old.ctx, w, i),
            forall|i: int| 0 <= i < n ==> old.ctx.has(#[trigger] arg_of(old.ctx, w, i)),
    {
        Self::keep_node(old, new, w);
        Self::lemma_app_args(old, w, sh, n);
    }

    proof fn keep_array(old: MirTypeInference, new: MirTypeInference, a: Array)
        requires
            old.inv(),
            new.evolved_from(old),
            old.array_holds(a),
        ensures
            new.array_holds(a),
    {
        let w = choose|w: TypeId|
            #[trigger] app_of(old.ctx, w, Shape::Array, 2) && old.tt(arg_of(old.ctx, w, 1)) == Term::Const(
                Const::Length(a.elements@.len() as usize),
            ) && old.tm(a.lhs) == old.tt(w) && forall|i: int|
                0 <= i < a.elements@.len() ==> old.tm(#[trigger] a.elements@[i]) == old.tt(arg_of(old.ctx, w, 0));
        Self::keep_app(old, new, w, Shape::Array, 2);
        assert(arg_of(new.ctx, w, 0) == arg_of(old.ctx, w, 0));
        assert(arg_of(new.ctx, w, 1) == arg_of(old.ctx, w, 1));
        assert(ground(Term::Const(Const::Length(a.elements@.len() as usize))));
        Self::keep_ground(old, new, arg_of(old.ctx, w, 1));
        Self::keep_ts(old, new, w, a.lhs);
        assert forall|i: int| 0 <= i < a.elements@.len() implies new.known(#[trigger] a.elements@[i]) && new.tm(a.elements@[i])
            == new.tt(arg_of(new.ctx, w, 0)) by {
            Self::keep_ts(old, new, arg_of(old.ctx, w, 0), a.elements@[i]);
        }
    }

    proof fn keep_case(old: MirTypeInference, new: MirTypeInference, c: Case)
        requires
            old.inv(),
            new.evolved_from(old),
            old.case_holds(c),
        ensures
            new.case_holds(c),
    {
        Self::keep_known(old, new, c.lhs);
        Self::keep_known(old, new, c.discriminant);
        assert forall|i: int| 0 <= i < c.table@.len() implies {
            &&& (#[trigger] c.table@[i]).0 matches CaseArgument::Slot(t) ==> new.known(t) && new.tm(t) == new.tm(c.discriminant)
            &&& new.known(c.table@[i].1)
            &&& new.tm(c.table@[i].1) == new.tm(c.lhs)
        } by {
            Self::keep_ss(old, new, c.table@[i].1, c.lhs);
            if let CaseArgument::Slot(t) = c.table@[i].0 {
                Self::keep_ss(old, new, t, c.discriminant);
            }
        }
    }

    pub(crate) proof fn keep_repeat(old: MirTypeInference, new: MirTypeInference, r: Repeat)
        requires
            old.inv(),
            new.evolved_from(old),
            old.repeat_holds(r),
        ensures
            new.repeat_holds(r),
    {
        let w = choose|w: TypeId|
            #[trigger] app_of(old.ctx, w, Shape::Array, 2) && old.tt(arg_of(old.ctx, w, 1)) == Term::Const(
                Const::Length(r.len as usize),
            ) && old.tm(r.lhs) == old.tt(w) && old.tm(r.value) == old.tt(arg_of(old.ctx, w, 0));
        Self::keep_app(old, new, w, Shape::Array, 2);
        assert(arg_of(new.ctx, w, 0) == arg_of(old.ctx, w, 0));
        assert(arg_of(new.ctx, w, 1) == arg_of(old.ctx, w, 1));
        assert(ground(Term::Const(Const::Length(r.len as usize))));
        Self::keep_ground(old, new, arg_of(old.ctx, w, 1));
        Self::keep_ts(old, new, w, r.lhs);
        Self::keep_ts(old, new, arg_of(old.ctx, w, 0), r.value);
    }

    pub(crate) proof fn keep_tuple(old: MirTypeInference, new: MirTypeInference, t: Tuple)
        requires
            old.inv(),
            new.evolved_from(old),
            old.tuple_holds(t),
        ensures
            new.tuple_holds(t),
    {
        let w = choose|w: TypeId|
            #[trigger] app_of(old.ctx, w, Shape::Tuple, t.fields@.len()) && old.tm(t.lhs) == old.tt(w) && forall|i: int|
                0 <= i < t.fields@.len() ==> old.tm(#[trigger] t.fields@[i]) == old.tt(arg_of(old.ctx, w, i));
        Self::keep_app(old, new, w, Shape::Tuple, t.fields@.len());
        Self::keep_ts(old, new, w, t.lhs);
        assert forall|i: int| 0 <= i < t.fields@.len() implies new.known(#[trigger] t.fields@[i]) && new.tm(t.fields@[i])
            == new.tt(arg_of(new.ctx, w, i)) by {
            assert(arg_of(new.ctx, w, i) == arg_of(old.ctx, w, i));
            Self::keep_ts(old, new, arg_of(old.ctx, w, i), t.fields@[i]);
        }
    }

    proof fn keep_retime(old: MirTypeInference, new: MirTypeInference, r: Retime)
        requires
            old.inv(),
            new.evolved_from(old),
            old.retime_holds(r),
        ensures
            new.retime_holds(r),
    {
        let w = choose|w: TypeId|
            #[trigger] app_of(old.ctx, w, Shape::Signal, 2) && old.tm(r.lhs) == old.tt(w) && old.tm(r.arg) == old.tt(
                arg_of(old.ctx, w, 0),
            ) && (r.color matches Some(c) ==> old.tt(arg_of(old.ctx, w, 1)) == Term::Const(Const::Clock(c)));
        Self::keep_app(old, new, w, Shape::Signal, 2);
        assert(arg_of(new.ctx, w, 0) == arg_of(old.ctx, w, 0));
        assert(arg_of(new.ctx, w, 1) == arg_of(old.ctx, w, 1));
        Self::keep_ts(old, new, w, r.lhs);
        Self::keep_ts(old, new, arg_of(old.ctx, w, 0), r.arg);
        if let Some(c) = r.color {
            assert(ground(Term::Const(Const::Clock(c))));
            Self::keep_ground(old, new, arg_of(old.ctx, w, 1));
        }
    }

    proof fn keep_cast(old: MirTypeInference, new: MirTypeInference, c: Cast, signed: bool)
        requires
            old.inv(),
            new.evolved_from(old),
            old.cast_holds(c, signed),
        ensures
            new.cast_holds(c, signed),
    {
        let flag = if signed {
            SignFlag::Signed
        } else {
            SignFlag::Unsigned
        };
        let w = choose|w: TypeId|
            #[trigger] app_of(old.ctx, w, Shape::Bits, 2) && old.tt(arg_of(old.ctx, w, 0)) == Term::Const(Const::Signed(flag))
                && (c.len matches Some(n) ==> old.tt(arg_of(old.ctx, w, 1)) == Term::Const(Const::Length(n))) && old.tm(c.lhs)
                == old.tt(w);
        Self::keep_app(old, new, w, Shape::Bits, 2);
        assert(arg_of(new.ctx, w, 0) == arg_of(old.ctx, w, 0));
        assert(arg_of(new.ctx, w, 1) == arg_of(old.ctx, w, 1));
        assert(ground(Term::Const(Const::Signed(flag))));
        Self::keep_ground(old, new, arg_of(old.ctx, w, 0));
        if let Some(n) = c.len {
            assert(ground(Term::Const(Const::Length(n))));
            Self::keep_ground(old, new, arg_of(old.ctx, w, 1));
        }
        Self::keep_ts(old, new, w, c.lhs);
        assert(ground(bits_term(flag, 128))) by {
            lemma_kind_term_ground(
                if signed {
                    KindView::Signed(128)
                } else {
                    KindView::Bits(128)
                },
            );
        }
        Self::keep_ground_slot(old, new, c.arg);
    }

    proof fn keep_resize(old: MirTypeInference, new: MirTypeInference, c: Cast)
        requires
            old.inv(),
            new.evolved_from(old),
            old.resize_holds(c),
        ensures
            new.resize_holds(c),
    {
        let (w1, w2) = choose|w1: TypeId, w2: TypeId|
            #![trigger app_of(old.ctx, w1, Shape::Bits, 2), app_of(old.ctx, w2, Shape::Bits, 2)]
            app_of(old.ctx, w1, Shape::Bits, 2) && app_of(old.ctx, w2, Shape::Bits, 2) && old.tt(arg_of(old.ctx, w1, 0))
                == old.tt(arg_of(old.ctx, w2, 0)) && (c.len matches Some(n) ==> old.tt(arg_of(old.ctx, w1, 1)) == Term::Const(
                Const::Length(n),
            )) && old.tm(c.lhs) == old.tt(w1) && old.tm(c.arg) == old.tt(w2);
        Self::keep_app(old, new, w1, Shape::Bits, 2);
        Self::keep_app(old, new, w2, Shape::Bits, 2);
        assert(arg_of(new.ctx, w1, 0) == arg_of(old.ctx, w1, 0));
        assert(arg_of(new.ctx, w1, 1) == arg_of(old.ctx, w1, 1));
        assert(arg_of(new.ctx, w2, 0) == arg_of(old.ctx, w2, 0));
        Self::keep_tt(old, new, arg_of(old.ctx, w1, 0), arg_of(old.ctx, w2, 0));
        if let Some(n) = c.len {
            assert(ground(Term::Const(Const::Length(n))));
            Self::keep_ground(old, new, arg_of(old.ctx, w1, 1));
        }
        Self::keep_ts(old, new, w1, c.lhs);
        Self::keep_ts(old, new, w2, c.arg);
        assert(app_of(new.ctx, w1, Shape::Bits, 2) && app_of(new.ctx, w2, Shape::Bits, 2));
    }

    /// A deferred rule keeps its place; the types it names keep their terms'
    /// equalities with the slots they were made for.
    proof fn keep_deferred(old: MirTypeInference, new: MirTypeInference, k: int, loc: NodeId)
        requires
            old.inv(),
            new.evolved_from(old),
            old.deferred_at(k, loc),
        ensures
            new.deferred_at(k, loc),
            new.type_ops@[k] == old.type_ops@[k],
            forall|j: int|
                0 <= j < type_op_ids(old.type_ops@[k].kind).len() ==> old.ctx.has(#[trigger] type_op_ids(old.type_ops@[k].kind)[j]),
    {
        Self::keep_op(old, new, k);
    }

    proof fn keep_select(old: MirTypeInference, new: MirTypeInference, x: Select, loc: NodeId)
        requires
            old.inv(),
            new.evolved_from(old),
            old.select_holds(x, loc),
        ensures
            new.select_holds(x, loc),
    {
        let k = choose|k: int|
            #[trigger] old.deferred_at(k, loc) && (old.type_ops@[k].kind matches TypeOperationKind::Select(t) && old.tt(t.lhs)
                == old.tm(x.lhs) && old.tt(t.true_value) == old.tm(x.true_value) && old.tt(t.false_value) == old.tm(
                x.false_value,
            ));
        Self::keep_deferred(old, new, k, loc);
        if let TypeOperationKind::Select(t) = old.type_ops@[k].kind {
            assert(type_op_ids(old.type_ops@[k].kind)[0] == t.true_value);
            assert(type_op_ids(old.type_ops@[k].kind)[1] == t.false_value);
            assert(type_op_ids(old.type_ops@[k].kind)[2] == t.lhs);
            Self::keep_ts(old, new, t.lhs, x.lhs);
            Self::keep_ts(old, new, t.true_value, x.true_value);
            Self::keep_ts(old, new, t.false_value, x.false_value);
        }
        assert(ground(bits_term(SignFlag::Unsigned, 1))) by {
            lemma_kind_term_ground(KindView::Bits(1));
        }
        Self::keep_ground_slot(old, new, x.cond);
    }

    proof fn keep_binary(old: MirTypeInference, new: MirTypeInference, x: Binary, loc: NodeId)
        requires
            old.inv(),
            new.evolved_from(old),
            old.binary_holds(x, loc),
        ensures
            new.binary_holds(x, loc),
    {
        let k = choose|k: int|
            #[trigger] old.deferred_at(k, loc) && (old.type_ops@[k].kind matches TypeOperationKind::BinOp(t) && t.op == x.op
                && old.tt(t.lhs) == old.tm(x.lhs) && old.tt(t.arg1) == old.tm(x.arg1) && old.tt(t.arg2) == old.tm(x.arg2));
        Self::keep_deferred(old, new, k, loc);
        if let TypeOperationKind::BinOp(t) = old.type_ops@[k].kind {
            assert(type_op_ids(old.type_ops@[k].kind)[0] == t.lhs);
            assert(type_op_ids(old.type_ops@[k].kind)[1] == t.arg1);
            assert(type_op_ids(old.type_ops@[k].kind)[2] == t.arg2);
            Self::keep_ts(old, new, t.lhs, x.lhs);
            Self::keep_ts(old, new, t.arg1, x.arg1);
            Self::keep_ts(old, new, t.arg2, x.arg2);
        }
    }

    proof fn keep_index(old: MirTypeInference, new: MirTypeInference, x: Index, loc: NodeId)
        requires
            old.inv(),
            new.evolved_from(old),
            old.index_holds(x, loc),
        ensures
            new.index_holds(x, loc),
    {
        let k = choose|k: int|
            #[trigger] old.deferred_at(k, loc) && (old.type_ops@[k].kind matches TypeOperationKind::Index(t) && t.path@ == x.path@
                && old.tt(t.lhs) == old.tm(x.lhs) && old.tt(t.arg) == old.tm(x.arg));
        Self::keep_deferred(old, new, k, loc);
        if let TypeOperationKind::Index(t) = old.type_ops@[k].kind {
            assert(type_op_ids(old.type_ops@[k].kind)[0] == t.lhs);
            assert(type_op_ids(old.type_ops@[k].kind)[1] == t.arg);
            Self::keep_ts(old, new, t.lhs, x.lhs);
            Self::keep_ts(old, new, t.arg, x.arg);
        }
    }

    proof fn keep_splice(old: MirTypeInference, new: MirTypeInference, x: Splice, loc: NodeId)
        requires
            old.inv(),
            new.evolved_from(old),
            old.splice_holds(x, loc),
        ensures
            new.splice_holds(x, loc),
    {
        let k = choose|k: int|
            #[trigger] old.deferred_at(k, loc) && (old.type_ops@[k].kind matches TypeOperationKind::Index(t) && t.path@ == x.path@
                && old.tt(t.lhs) == old.tm(x.subst) && old.tt(t.arg) == old.tm(x.lhs));
        Self::keep_deferred(old, new, k, loc);
        if let TypeOperationKind::Index(t) = old.type_ops@[k].kind {
            assert(type_op_ids(old.type_ops@[k].kind)[0] == t.lhs);
            assert(type_op_ids(old.type_ops@[k].kind)[1] == t.arg);
            Self::keep_ts(old, new, t.lhs, x.subst);
            Self::keep_ts(old, new, t.arg, x.lhs);
        }
        Self::keep_ss(old, new, x.lhs, x.orig);
    }

    proof fn keep_unary(old: MirTypeInference, new: MirTypeInference, u: Unary, loc: NodeId)
        requires
            old.inv(),
            new.evolved_from(old),
            old.unary_holds(u, loc),
        ensures
            new.unary_holds(u, loc),
    {
        Self::keep_known(old, new, u.lhs);
        Self::keep_known(old, new, u.arg1);
        match u.op {
            AluUnary::Not => {
                Self::keep_ss(old, new, u.lhs, u.arg1);
            },
            AluUnary::Neg => {
                let w = choose|w: TypeId|
                    #[trigger] app_of(old.ctx, w, Shape::Bits, 2) && old.tt(arg_of(old.ctx, w, 0)) == Term::Const(
                        Const::Signed(SignFlag::Signed),
                    ) && old.tm(u.lhs) == old.tt(w) && old.tm(u.arg1) == old.tt(w);
                Self::keep_app(old, new, w, Shape::Bits, 2);
                assert(arg_of(new.ctx, w, 0) == arg_of(old.ctx, w, 0));
                assert(ground(Term::Const(Const::Signed(SignFlag::Signed))));
                Self::keep_ground(old, new, arg_of(old.ctx, w, 0));
                Self::keep_ts(old, new, w, u.lhs);
                Self::keep_ts(old, new, w, u.arg1);
            },
            AluUnary::All | AluUnary::Any | AluUnary::Xor | AluUnary::Pad => {
                let k = choose|k: int|
                    #[trigger] old.deferred_at(k, loc) && (old.type_ops@[k].kind matches TypeOperationKind::UnaryOp(t) && t.op
                        == u.op && old.tt(t.lhs) == old.tm(u.lhs) && old.tt(t.arg1) == old.tm(u.arg1));
                Self::keep_deferred(old, new, k, loc);
                if let TypeOperationKind::UnaryOp(t) = old.type_ops@[k].kind {
                    assert(type_op_ids(old.type_ops@[k].kind)[0] == t.lhs);
                    assert(type_op_ids(old.type_ops@[k].kind)[1] == t.arg1);
                    Self::keep_ts(old, new, t.lhs, u.lhs);
                    Self::keep_ts(old, new, t.arg1, u.arg1);
                }
            },
            AluUnary::Unsigned => {
                Self::keep_sign_cast(old, new, u.lhs, u.arg1, SignFlag::Unsigned, SignFlag::Signed);
            },
            AluUnary::Signed => {
                Self::keep_sign_cast(old, new, u.lhs, u.arg1, SignFlag::Signed, SignFlag::Unsigned);
            },
            AluUnary::Val => {
                let w = choose|w: TypeId|
                    #[trigger] app_of(old.ctx, w, Shape::Signal, 2) && old.tm(u.arg1) == old.tt(w) && old.tm(u.lhs) == old.tt(
                        arg_of(old.ctx, w, 0),
                    );
                Self::keep_app(old, new, w, Shape::Signal, 2);
                assert(arg_of(new.ctx, w, 0) == arg_of(old.ctx, w, 0));
                Self::keep_ts(old, new, w, u.arg1);
                Self::keep_ts(old, new, arg_of(old.ctx, w, 0), u.lhs);
            },
        }
    }

    proof fn keep_sign_cast(old: MirTypeInference, new: MirTypeInference, lhs: Slot, arg: Slot, to: SignFlag, from: SignFlag)
        requires
            old.inv(),
            new.evolved_from(old),
            old.known(lhs),
            old.known(arg),
            old.sign_cast_holds(lhs, arg, to, from),
        ensures
            new.sign_cast_holds(lhs, arg, to, from),
    {
        let (w1, w2) = choose|w1: TypeId, w2: TypeId|
            #![trigger app_of(old.ctx, w1, Shape::Bits, 2), app_of(old.ctx, w2, Shape::Bits, 2)]
            app_of(old.ctx, w1, Shape::Bits, 2) && app_of(old.ctx, w2, Shape::Bits, 2) && old.tt(arg_of(old.ctx, w1, 0))
                == Term::Const(Const::Signed(to)) && old.tt(arg_of(old.ctx, w2, 0)) == Term::Const(Const::Signed(from))
                && old.tt(arg_of(old.ctx, w1, 1)) == old.tt(arg_of(old.ctx, w2, 1)) && old.tm(lhs) == old.tt(w1) && old.tm(arg)
                == old.tt(w2);
        Self::keep_app(old, new, w1, Shape::Bits, 2);
        Self::keep_app(old, new, w2, Shape::Bits, 2);
        assert(arg_of(new.ctx, w1, 0) == arg_of(old.ctx, w1, 0));
        assert(arg_of(new.ctx, w1, 1) == arg_of(old.ctx, w1, 1));
        assert(arg_of(new.ctx, w2, 0) == arg_of(old.ctx, w2, 0));
        assert(arg_of(new.ctx, w2, 1) == arg_of(old.ctx, w2, 1));
        assert(ground(Term::Const(Const::Signed(to))));
        assert(ground(Term::Const(Const::Signed(from))));
        Self::keep_ground(old, new, arg_of(old.ctx, w1, 0));
        Self::keep_ground(old, new, arg_of(old.ctx, w2, 0));
        Self::keep_tt(old, new, arg_of(old.ctx, w1, 1), arg_of(old.ctx, w2, 1));
        Self::keep_ts(old, new, w1, lhs);
        Self::keep_ts(old, new, w2, arg);
        assert(app_of(new.ctx, w1, Shape::Bits, 2) && app_of(new.ctx, w2, Shape::Bits, 2));
    }

    proof fn keep_struct(old: MirTypeInference, new: MirTypeInference, x: Struct)
        requires
            old.inv(),
            new.evolved_from(old),
            old.struct_holds(x),
        ensures
            new.struct_holds(x),
    {
        lemma_kind_term_ground(x.template.kind@);
        Self::keep_ground_slot(old, new, x.lhs);
        assert forall|i: int|
            0 <= i < x.fields@.len() implies member_kind(struct_fields(x.template.kind@), (#[trigger] x.fields@[i]).member) is Some
            && new.known(x.fields@[i].value) && new.tm(x.fields@[i].value) == kind_term(
            member_kind(struct_fields(x.template.kind@), x.fields@[i].member)->Some_0,
        ) by {
            lemma_kind_term_ground(member_kind(struct_fields(x.template.kind@), x.fields@[i].member)->Some_0);
            Self::keep_ground_slot(old, new, x.fields@[i].value);
        }
        if let Some(r) = x.rest {
            Self::keep_ground_slot(old, new, r);
        }
    }

    proof fn keep_exec(old: MirTypeInference, new: MirTypeInference, mir: &Mir, e: Exec)
        requires
            old.inv(),
            new.evolved_from(old),
            old.exec_holds(mir, e),
        ensures
            new.exec_holds(mir, e),
    {
        let obj = lookup(mir.stash@, e.id)->Some_0;
        lemma_kind_term_ground(obj.slot_kind(obj.return_slot)->Some_0);
        Self::keep_ground_slot(old, new, e.lhs);
        assert forall|i: int|
            0 <= i < e.args@.len() && i < obj.arguments@.len() implies new.known(#[trigger] e.args@[i]) && new.tm(e.args@[i])
            == kind_term(obj.slot_kind(Slot::Register(obj.arguments@[i]))->Some_0) by {
            lemma_kind_term_ground(obj.slot_kind(Slot::Register(obj.arguments@[i]))->Some_0);
            Self::keep_ground_slot(old, new, e.args@[i]);
        }
    }

    proof fn keep_wrap(old: MirTypeInference, new: MirTypeInference, x: Wrap)
        requires
            old.inv(),
            new.evolved_from(old),
            old.wrap_holds(x),
        ensures
            new.wrap_holds(x),
    {
        Self::keep_known(old, new, x.lhs);
        Self::keep_known(old, new, x.arg);
        if let Some(k) = x.kind {
            lemma_kind_term_ground(k@);
            Self::keep_ground_slot(old, new, x.lhs);
        }
    }

    /// What the typing rule of an opcode says stays true as inference goes on.
    pub proof fn keep_op_holds(old: MirTypeInference, new: MirTypeInference, mir: &Mir, lop: LocatedOpCode)
        requires
            old.inv(),
            new.evolved_from(old),
            old.op_holds(mir, lop),
        ensures
            new.op_holds(mir, lop),
    {
        match lop.op {
            OpCode::Noop => {},
            OpCode::Comment(_) => {},
            OpCode::Binary(b) => Self::keep_binary(old, new, b, lop.id),
            OpCode::Unary(u) => Self::keep_unary(old, new, u, lop.id),
            OpCode::Array(a) => Self::keep_array(old, new, a),
            OpCode::Assign(a) => Self::keep_ss(old, new, a.lhs, a.rhs),
            OpCode::AsBits(c) => Self::keep_cast(old, new, c, false),
            OpCode::AsSigned(c) => Self::keep_cast(old, new, c, true),
            OpCode::Resize(c) => Self::keep_resize(old, new, c),
            OpCode::Case(c) => Self::keep_case(old, new, c),
            OpCode::Exec(e) => Self::keep_exec(old, new, mir, e),
            OpCode::Index(x) => Self::keep_index(old, new, x, lop.id),
            OpCode::Repeat(r) => Self::keep_repeat(old, new, r),
            OpCode::Retime(r) => Self::keep_retime(old, new, r),
            OpCode::Select(x) => Self::keep_select(old, new, x, lop.id),
            OpCode::Splice(x) => Self::keep_splice(old, new, x, lop.id),
            OpCode::Struct(x) => Self::keep_struct(old, new, x),
            OpCode::Tuple(t) => Self::keep_tuple(old, new, t),
            OpCode::Wrap(w) => Self::keep_wrap(old, new, w),
        }
    }

    /// Applies the typing rule of one opcode.
    fn process_op(&mut self, mir: &Mir, lop: &LocatedOpCode) -> (r: Result<(), RHDLError>)
        requires
            old(self).inv(),
            op_ready(mir, lop.op),
            old(self).ctx.vars() + op_budget(lop.op) <= u32::MAX,
        ensures
            r is Ok ==> if deferrable(lop.op) { one_rule_added(old(self).type_ops@, final(self).type_ops@, lop.op, lop.id) } else { final(self).type_ops@ == old(self).type_ops@ },
            final(self).inv(),
            final(self).evolved_from(*old(self)),
            final(self).ctx.vars() <= old(self).ctx.vars() + op_budget(lop.op),
            type_ops_budget(final(self).type_ops@) <= type_ops_budget(old(self).type_ops@) + deferred_budget(lop.op),
            old(self).paths_named(mir) ==> final(self).paths_named(mir),
            r is Ok ==> final(self).op_holds(mir, *lop),
            forall|typing: spec_fn(Slot) -> Term|
                #[trigger] old(self).typable(typing) && op_typed(typing, lop.op) ==> r is Ok && final(self).typable(typing),
            r is Ok && deferrable(lop.op) ==> final(self).rule_ties(final(self).type_ops@.last(), lop.op),
            copy_between_known(*old(self), lop.op) ==> final(self).slot_map@ == old(self).slot_map@,
    {
        let loc = lop.id;
        match &lop.op {
            OpCode::Array(array) => self.infer_array(mir, loc, array),
            OpCode::Assign(assign) => self.infer_assign(mir, loc, assign),
            OpCode::AsBits(cast) => self.infer_cast(mir, loc, cast, false),
            OpCode::AsSigned(cast) => self.infer_cast(mir, loc, cast, true),
            OpCode::Binary(binary) => self.infer_binary(mir, loc, binary),
            OpCode::Case(case) => self.infer_case(mir, loc, case),
            OpCode::Exec(exec) => self.infer_exec(mir, loc, exec),
            OpCode::Index(index) => self.infer_index(mir, loc, index),
            OpCode::Repeat(repeat) => self.infer_repeat(mir, loc, repeat),
            OpCode::Resize(cast) => self.infer_resize(mir, loc, cast),
            OpCode::Retime(retime) => self.infer_retime(mir, loc, retime),
            OpCode::Select(select) => self.infer_select(mir, loc, select),
            OpCode::Splice(splice) => self.infer_splice(mir, loc, splice),
            OpCode::Struct(structure) => self.infer_struct(mir, loc, structure),
            OpCode::Tuple(tuple) => self.infer_tuple(mir, loc, tuple),
            OpCode::Unary(unary) => self.infer_unary(mir, loc, unary),
            OpCode::Wrap(wrap) => self.infer_wrap(mir, loc, wrap),
            OpCode::Noop | OpCode::Comment(_) => {
                proof {
                    Self::lemma_evolved_refl(*self);
                }
                Ok(())
            },
        }
    }

    /// Applies the typing rule of every opcode in order: a rule that needs
    /// only the opcode is applied at once, the others are recorded for
    /// later. Stops at the first rule that fails.
    pub fn process_ops(&mut self, mir: &Mir) -> (r: Result<(), RHDLError>)
        requires
            old(self).inv(),
            forall|i: int| 0 <= i < mir.ops@.len() ==> op_ready(mir, (#[trigger] mir.ops@[i]).op),
            old(self).ctx.vars() + ops_budget(mir.ops@) <= u32::MAX,
        ensures
            r is Ok ==> rules_added(old(self).type_ops@, final(self).type_ops@, mir.ops@),
            mir.ops@.len() == 0 ==> r is Ok && *final(self) == *old(self),
            ops_solvable(*old(self), mir.ops@) ==> r is Ok,
            r is Ok ==> forall|k: int|
                0 <= k < deferred_ops(mir.ops@).len() ==> final(self).rule_ties(
                    #[trigger] final(self).type_ops@[old(self).type_ops@.len() + k],
                    deferred_ops(mir.ops@)[k].op,
                ),
            (forall|i: int| 0 <= i < mir.ops@.len() ==> copy_between_known(*old(self), #[trigger] mir.ops@[i].op))
                ==> final(self).slot_map@ == old(self).slot_map@,
            final(self).inv(),
            final(self).evolved_from(*old(self)),
            final(self).ctx.vars() <= old(self).ctx.vars() + ops_budget(mir.ops@),
            type_ops_budget(final(self).type_ops@) <= type_ops_budget(old(self).type_ops@) + ops_deferred_budget(mir.ops@),
            old(self).paths_named(mir) ==> final(self).paths_named(mir),
            r is Ok ==> forall|i: int| 0 <= i < mir.ops@.len() ==> final(self).op_holds(mir, #[trigger] mir.ops@[i]),
    {
        let ghost s0 = *self;
        proof {
            Self::lemma_evolved_refl(s0);
            assert(mir.ops@.take(0) =~= Seq::<LocatedOpCode>::empty());
            assert(deferred_ops(mir.ops@.take(0)) =~= Seq::<LocatedOpCode>::empty());
        }
        let mut i: usize = 0;
        while i < mir.ops.len()
            invariant
                i == 0 ==> *self == s0,
                i <= mir.ops@.len(),
                s0 == *old(self),
                self.inv(),
                self.evolved_from(s0),
                self.ctx.vars() <= s0.ctx.vars() + ops_budget(mir.ops@.take(i as int)),
                type_ops_budget(self.type_ops@) <= type_ops_budget(s0.type_ops@) + ops_deferred_budget(mir.ops@.take(i as int)),
                s0.paths_named(mir) ==> self.paths_named(mir),
                s0.ctx.vars() + ops_budget(mir.ops@) <= u32::MAX,
                forall|j: int| 0 <= j < mir.ops@.len() ==> op_ready(mir, (#[trigger] mir.ops@[j]).op),
                forall|j: int| 0 <= j < i ==> self.op_holds(mir, #[trigger] mir.ops@[j]),
                rules_added(s0.type_ops@, self.type_ops@, mir.ops@.take(i as int)),
                forall|k: int|
                    0 <= k < deferred_ops(mir.ops@.take(i as int)).len() ==> self.rule_ties(
                        #[trigger] self.type_ops@[s0.type_ops@.len() + k],
                        deferred_ops(mir.ops@.take(i as int))[k].op,
                    ),
                forall|typing: spec_fn(Slot) -> Term|
                    #[trigger] s0.typable(typing) && all_op_typed(typing, mir.ops@) ==> self.typable(typing),
                (forall|j: int| 0 <= j < mir.ops@.len() ==> copy_between_known(s0, #[trigger] mir.ops@[j].op))
                    ==> self.slot_map@ == s0.slot_map@,
            decreases mir.ops.len() - i,
        {
            let ghost sp = *self;
            proof {
                assert(mir.ops@.take(i + 1).drop_last() =~= mir.ops@.take(i as int));
                assert(mir.ops@.take(i + 1).last() == mir.ops@[i as int]);
                lemma_ops_budget_prefix(mir.ops@, i + 1);
                lemma_ops_deferred_budget_prefix(mir.ops@, i + 1);
            }
            let res = self.process_op(mir, &mir.ops[i]);
            proof {
                Self::lemma_evolved_trans(s0, sp, *self);
                if ops_solvable(s0, mir.ops@) {
                    let typing = choose|typing: spec_fn(Slot) -> Term| #[trigger] s0.typable(typing) && all_op_typed(typing, mir.ops@);
                    assert(sp.typable(typing));
                    assert(op_typed(typing, mir.ops@[i as int].op));
                }
                if forall|j: int| 0 <= j < mir.ops@.len() ==> copy_between_known(s0, #[trigger] mir.ops@[j].op) {
                    assert(copy_between_known(s0, mir.ops@[i as int].op));
                    assert(copy_between_known(sp, mir.ops@[i as int].op));
                }
                assert forall|typing: spec_fn(Slot) -> Term|
                    #[trigger] s0.typable(typing) && all_op_typed(typing, mir.ops@) implies self.typable(typing) by {
                    assert(sp.typable(typing));
                    assert(op_typed(typing, mir.ops@[i as int].op));
                }
            }
            res?;
            proof {
                let pre = mir.ops@.take(i as int);
                let post = mir.ops@.take(i + 1);
                assert(post.drop_last() =~= pre);
                assert(post.last() == mir.ops@[i as int]);
                assert(deferred_ops(post) == deferred_ops(pre) + if deferrable(mir.ops@[i as int].op) {
                    seq![mir.ops@[i as int]]
                } else {
                    Seq::empty()
                });
                let b = s0.type_ops@;
                let a = self.type_ops@;
                if deferrable(mir.ops@[i as int].op) {
                    assert(a.drop_last() == sp.type_ops@);
                    assert forall|k: int| 0 <= k < b.len() implies #[trigger] a[k] == b[k] by {
                        assert(a[k] == a.drop_last()[k]);
                    }
                    assert forall|k: int| 0 <= k < deferred_ops(post).len() implies rule_for(
                        a[b.len() + k],
                        #[trigger] deferred_ops(post)[k].op,
                        deferred_ops(post)[k].id,
                    ) by {
                        if k < deferred_ops(pre).len() {
                            assert(deferred_ops(post)[k] == deferred_ops(pre)[k]);
                            assert(a[b.len() + k] == a.drop_last()[b.len() + k]);
                        } else {
                            assert(deferred_ops(post)[k] == mir.ops@[i as int]);
                        }
                    }
                } else {
                    assert(deferred_ops(post) =~= deferred_ops(pre));
                }
                assert(rules_added(b, a, post));
                assert forall|k: int| 0 <= k < deferred_ops(post).len() implies self.rule_ties(
                    #[trigger] a[b.len() + k],
                    deferred_ops(post)[k].op,
                ) by {
                    if k < deferred_ops(pre).len() {
                        assert(deferred_ops(post)[k] == deferred_ops(pre)[k]);
                        assert(sp.rule_ties(sp.type_ops@[b.len() + k], deferred_ops(pre)[k].op));
                        assert(a[b.len() + k] == sp.type_ops@[b.len() + k]);
                        Self::lemma_rule_ties_kept(sp, *self, b.len() + k, deferred_ops(pre)[k].op);
                    } else {
                        assert(deferred_ops(post)[k] == mir.ops@[i as int]);
                        assert(a[b.len() + k] == a.last());
                    }
                }
            }
            proof {
                assert forall|j: int| 0 <= j < i + 1 implies self.op_holds(mir, #[trigger] mir.ops@[j]) by {
                    if j < i {
                        Self::keep_op_holds(sp, *self, mir, mir.ops@[j]);
                    }
                }
            }
            i += 1;
        }
        proof {
            assert(mir.ops@.take(mir.ops@.len() as int) =~= mir.ops@);
        }
        Ok(())
    }

    /// The rule for `all`, `any` and `xor`: one bit, and a signal on the
    /// argument's clock when the argument is a signal. Other unary operations
    /// have no deferred rule.
    fn try_unary(&mut self, loc: NodeId, op: AluUnary, lhs: TypeId, arg1: TypeId) -> (r: Result<(), RHDLError>)
        requires
            old(self).inv(),
            old(self).ctx.has(lhs),
            old(self).ctx.has(arg1),
            old(self).ctx.vars() + 1 <= u32::MAX,
        ensures
            final(self).inv(),
            final(self).evolved_from(*old(self)),
            final(self).type_ops@ == old(self).type_ops@,
            final(self).slot_map@ == old(self).slot_map@,
            final(self).ctx.vars() <= old(self).ctx.vars() + 1,
            r is Ok && (op is All || op is Any || op is Xor) && !is_signal_term(old(self).tt(arg1)) ==> final(self).tt(lhs)
                == bits_term(SignFlag::Unsigned, 1),
            r is Ok && (op is All || op is Any || op is Xor) && is_signal_term(old(self).tt(arg1)) ==> app_arg(
                final(self).tt(lhs),
                Shape::Signal,
                0,
            ) == Some(bits_term(SignFlag::Unsigned, 1)),
            r is Ok && op is Pad && bits_parts(old(self).tt(arg1)) is Some ==> final(self).tt(lhs) == pad_type(
                old(self).tt(arg1),
            ),
    {
        let ghost s0 = *self;
        let a1 = self.ctx.apply(arg1);
        proof {
            Self::lemma_grew(s0, *self);
            self.ctx.lemma_grows_keeps_terms(s0.ctx, arg1);
            Self::keep_node(s0, *self, lhs);
        }
        match op {
            AluUnary::All | AluUnary::Any | AluUnary::Xor => {
                let ghost s1 = *self;
                let bool_ty = self.ctx.ty_bool(loc);
                proof {
                    Self::lemma_grew(s1, *self);
                    Self::lemma_evolved_trans(s0, s1, *self);
                    Self::keep_node(s1, *self, a1);
                    self.ctx.lemma_grows_keeps_terms(s1.ctx, a1);
                    Self::keep_node(s0, *self, lhs);
                    lemma_kind_term_ground(KindView::Bits(1));
                }
                let ghost s2 = *self;
                let sig = self.ctx.is_signal(a1);
                proof {
                    Self::lemma_grew(s2, *self);
                    Self::lemma_evolved_trans(s0, s2, *self);
                    Self::keep_node(s0, *self, lhs);
                    Self::keep_node(s2, *self, bool_ty);
                    Self::keep_node(s2, *self, a1);
                    Self::keep_ground(s2, *self, bool_ty);
                }
                if sig {
                    let ghost s3 = *self;
                    let clock_ty = self.ctx.ty_var(loc);
                    proof {
                        Self::lemma_grew(s3, *self);
                        Self::keep_node(s3, *self, bool_ty);
                    }
                    let ghost s4 = *self;
                    let bool_sig = self.ctx.ty_signal(loc, bool_ty, clock_ty);
                    proof {
                        Self::lemma_grew(s4, *self);
                        Self::lemma_evolved_trans(s3, s4, *self);
                        Self::lemma_evolved_trans(s0, s3, *self);
                        Self::keep_node(s3, *self, lhs);
                        Self::keep_node(s3, *self, a1);
                        Self::keep_node(s4, *self, clock_ty);
                        Self::keep_ground(s3, *self, bool_ty);
                    }
                    let ghost s5 = *self;
                    let res = self.unify(loc, lhs, bool_sig);
                    proof {
                        Self::lemma_evolved_trans(s0, s5, *self);
                    }
                    res?;
                    let ghost s6 = *self;
                    proof {
                        Self::keep_node(s5, s6, a1);
                        Self::keep_node(s5, s6, clock_ty);
                        Self::lemma_evolved_refl(s6);
                    }
                    let ghost s7 = *self;
                    let c = self.ctx.project_signal_clock(a1);
                    proof {
                        Self::lemma_grew(s7, *self);
                        Self::lemma_evolved_trans(s6, s7, *self);
                        Self::lemma_evolved_trans(s0, s6, *self);
                        Self::keep_node(s6, *self, clock_ty);
                    }
                    let ghost s8 = *self;
                    if let Some(a1_clock) = c {
                        let res = self.unify(loc, clock_ty, a1_clock);
                        proof {
                            Self::lemma_evolved_trans(s0, s8, *self);
                        }
                        res?;
                    } else {
                        proof {
                            Self::lemma_evolved_refl(s8);
                        }
                    }
                    proof {
                        let f = *self;
                        Self::lemma_evolved_trans(s5, s6, s8);
                        Self::lemma_evolved_trans(s5, s8, f);
                        Self::lemma_evolved_trans(s4, s5, f);
                        Self::keep_node(s5, s6, lhs);
                        Self::keep_node(s5, s6, bool_sig);
                        Self::lemma_evolved_trans(s6, s8, f);
                        Self::keep_tt(s6, f, lhs, bool_sig);
                        Self::keep_node(s5, f, bool_sig);
                        Self::keep_ground(s5, f, bool_ty);
                        f.ctx.lemma_term_unfold(bool_sig);
                        assert(f.ctx.terms(seq![bool_ty, clock_ty])[0] == f.tt(bool_ty));
                    }
                } else {
                    let ghost s3 = *self;
                    let res = self.unify(loc, lhs, bool_ty);
                    proof {
                        Self::lemma_evolved_trans(s0, s3, *self);
                        if res is Ok {
                            Self::keep_ground(s3, *self, bool_ty);
                        }
                    }
                    res?;
                }
            },
            AluUnary::Pad => {
                let ghost s1 = *self;
                proof {
                    if bits_parts(s0.tt(arg1)) is Some {
                        lemma_bits_parts(s0.tt(arg1));
                        Self::keep_ground(s0, s1, arg1);
                        assert(s1.tt(a1) == s1.tt(arg1));
                    }
                }
                let res = self.pad_rule(loc, lhs, a1);
                proof {
                    Self::lemma_evolved_trans(s0, s1, *self);
                }
                res?;
            },
            _ => {
                proof {
                    Self::lemma_evolved_refl(*self);
                }
            },
        }
        Ok(())
    }

    /// A padded value has the sign of its argument and one bit more, once the
    /// argument's sign and length are known.
    fn pad_rule(&mut self, loc: NodeId, lhs: TypeId, a1: TypeId) -> (r: Result<(), RHDLError>)
        requires
            old(self).inv(),
            old(self).ctx.has(lhs),
            old(self).ctx.has(a1),
        ensures
            final(self).inv(),
            final(self).evolved_from(*old(self)),
            final(self).type_ops@ == old(self).type_ops@,
            final(self).slot_map@ == old(self).slot_map@,
            final(self).ctx.vars() == old(self).ctx.vars(),
            r is Ok && bits_parts(old(self).tt(a1)) is Some ==> final(self).tt(lhs) == pad_type(old(self).tt(a1)),
    {
        let ghost s0 = *self;
        let len_ty = self.ctx.project_bit_length(a1);
        proof {
            Self::lemma_grew(s0, *self);
            Self::keep_node(s0, *self, lhs);
            Self::keep_node(s0, *self, a1);
        }
        proof {
            if bits_parts(s0.tt(a1)) is Some {
                lemma_bits_parts(s0.tt(a1));
            }
        }
        let len_ty = match len_ty {
            Some(t) => t,
            None => {
                return Ok(());
            },
        };
        let ghost s1 = *self;
        let n = self.ctx.cast_ty_as_bit_length(len_ty);
        proof {
            Self::lemma_grew(s1, *self);
            Self::lemma_evolved_trans(s0, s1, *self);
            Self::keep_node(s0, *self, lhs);
            Self::keep_node(s0, *self, a1);
        }
        let n = match n {
            Ok(n) => n,
            Err(_) => {
                return Ok(());
            },
        };
        let ghost s2 = *self;
        proof {
            if bits_parts(s0.tt(a1)) is Some {
                Self::keep_ground(s0, s2, a1);
            }
        }
        let sign = self.ctx.project_sign_flag(a1);
        proof {
            Self::lemma_grew(s2, *self);
            Self::lemma_evolved_trans(s0, s2, *self);
            Self::keep_node(s0, *self, lhs);
        }
        let sign = match sign {
            Some(t) => t,
            None => {
                return Ok(());
            },
        };
        if n == usize::MAX {
            return Err(RHDLError::IntegerOutOfRange);
        }
        let ghost s3 = *self;
        let len = self.ctx.ty_const_len(loc, n + 1);
        proof {
            Self::lemma_grew(s3, *self);
            Self::lemma_evolved_trans(s0, s3, *self);
            Self::keep_node(s0, *self, lhs);
            Self::keep_node(s3, *self, sign);
        }
        let ghost s4 = *self;
        let lhs_ty = self.ctx.ty_with_sign_and_len(loc, sign, len);
        proof {
            Self::lemma_grew(s4, *self);
            Self::lemma_evolved_trans(s0, s4, *self);
            Self::keep_node(s0, *self, lhs);
        }
        let ghost s5 = *self;
        proof {
            if bits_parts(s0.tt(a1)) is Some {
                let (f, k) = bits_parts(s0.tt(a1))->Some_0;
                assert(s3.tt(sign) == Term::Const(Const::Signed(f)));
                Self::keep_ground(s3, s4, sign);
                assert(s5.tt(lhs_ty) == bits_term(f, (n + 1) as nat));
                lemma_bits_term_ground(f, (n + 1) as nat);
            }
        }
        let res = self.unify(loc, lhs, lhs_ty);
        proof {
            Self::lemma_evolved_trans(s0, s5, *self);
            if bits_parts(s0.tt(a1)) is Some && res is Ok {
                Self::keep_ground(s5, *self, lhs_ty);
            }
        }
        res
    }

    /// The widening rules: an extending addition keeps the common sign of its
    /// operands, an extending subtraction gives a signed value, and either
    /// gives one bit more than the wider operand, once the operands' signs and
    /// lengths are known.
    fn wide_rule(&mut self, loc: NodeId, subtract: bool, lhs: TypeId, arg1: TypeId, arg2: TypeId) -> (r: Result<(), RHDLError>)
        requires
            old(self).inv(),
            old(self).ctx.has(lhs),
            old(self).ctx.has(arg1),
            old(self).ctx.has(arg2),
        ensures
            final(self).inv(),
            final(self).evolved_from(*old(self)),
            final(self).type_ops@ == old(self).type_ops@,
            final(self).slot_map@ == old(self).slot_map@,
            final(self).ctx.vars() == old(self).ctx.vars(),
            r is Ok && bits_parts(old(self).tt(arg1)) is Some && bits_parts(old(self).tt(arg2)) is Some ==> wide_type(
                old(self).tt(arg1),
                old(self).tt(arg2),
                subtract,
            ) == Some(final(self).tt(lhs)),
    {
        let ghost s0 = *self;
        let a1s = self.ctx.project_sign_flag(arg1);
        proof {
            Self::lemma_grew(s0, *self);
            Self::keep_node(s0, *self, lhs);
            Self::keep_node(s0, *self, arg1);
            Self::keep_node(s0, *self, arg2);
        }
        proof {
            if bits_parts(s0.tt(arg1)) is Some && bits_parts(s0.tt(arg2)) is Some {
                lemma_bits_parts(s0.tt(arg1));
                lemma_bits_parts(s0.tt(arg2));
            }
        }
        let a1s = match a1s {
            Some(t) => t,
            None => {
                return Ok(());
            },
        };
        let ghost s1 = *self;
        proof {
            if bits_parts(s0.tt(arg1)) is Some && bits_parts(s0.tt(arg2)) is Some {
                Self::keep_ground(s0, s1, arg2);
            }
        }
        let a2s = self.ctx.project_sign_flag(arg2);
        proof {
            Self::lemma_grew(s1, *self);
            Self::lemma_evolved_trans(s0, s1, *self);
            Self::keep_node(s0, *self, lhs);
            Self::keep_node(s0, *self, arg1);
            Self::keep_node(s0, *self, arg2);
            Self::keep_node(s1, *self, a1s);
        }
        let a2s = match a2s {
            Some(t) => t,
            None => {
                return Ok(());
            },
        };
        let ghost s2 = *self;
        proof {
            if bits_parts(s0.tt(arg1)) is Some && bits_parts(s0.tt(arg2)) is Some {
                Self::keep_ground(s1, s2, a1s);
            }
        }
        let res = self.unify(loc, a1s, a2s);
        proof {
            Self::lemma_evolved_trans(s0, s2, *self);
            Self::keep_node(s0, *self, lhs);
            Self::keep_node(s0, *self, arg1);
            Self::keep_node(s0, *self, arg2);
            Self::keep_node(s2, *self, a1s);
        }
        res?;
        let ghost s3 = *self;
        proof {
            if bits_parts(s0.tt(arg1)) is Some && bits_parts(s0.tt(arg2)) is Some {
                Self::keep_ground(s2, s3, a1s);
                Self::keep_ground(s2, s3, a2s);
                Self::keep_ground(s0, s3, arg1);
                Self::keep_ground(s0, s3, arg2);
            }
        }
        let sign = if subtract {
            self.ctx.ty_sign_flag(loc, SignFlag::Signed)
        } else {
            a1s
        };
        proof {
            if subtract {
                Self::lemma_grew(s3, *self);
            } else {
                Self::lemma_evolved_refl(s3);
            }
            Self::lemma_evolved_trans(s0, s3, *self);
            Self::keep_node(s0, *self, lhs);
            Self::keep_node(s0, *self, arg1);
            Self::keep_node(s0, *self, arg2);
            if !subtract {
                Self::keep_node(s3, *self, a1s);
            }
        }
        let ghost s4 = *self;
        proof {
            if bits_parts(s0.tt(arg1)) is Some && bits_parts(s0.tt(arg2)) is Some {
                Self::keep_ground(s3, s4, arg1);
                Self::keep_ground(s3, s4, arg2);
                if subtract {
                    lemma_bits_term_ground(SignFlag::Signed, 0);
                } else {
                    Self::keep_ground(s3, s4, a1s);
                }
            }
        }
        let l1 = self.ctx.project_bit_length(arg1);
        proof {
            Self::lemma_grew(s4, *self);
            Self::lemma_evolved_trans(s0, s4, *self);
            Self::keep_node(s0, *self, lhs);
            Self::keep_node(s0, *self, arg2);
            Self::keep_node(s4, *self, sign);
        }
        let l1 = match l1 {
            Some(t) => t,
            None => {
                return Ok(());
            },
        };
        let ghost s5 = *self;
        proof {
            if bits_parts(s0.tt(arg1)) is Some && bits_parts(s0.tt(arg2)) is Some {
                Self::keep_ground(s4, s5, arg2);
                Self::keep_ground(s4, s5, sign);
            }
        }
        let l2 = self.ctx.project_bit_length(arg2);
        proof {
            Self::lemma_grew(s5, *self);
            Self::lemma_evolved_trans(s0, s5, *self);
            Self::keep_node(s0, *self, lhs);
            Self::keep_node(s5, *self, sign);
            Self::keep_node(s5, *self, l1);
        }
        let l2 = match l2 {
            Some(t) => t,
            None => {
                return Ok(());
            },
        };
        let ghost s6 = *self;
        proof {
            if bits_parts(s0.tt(arg1)) is Some && bits_parts(s0.tt(arg2)) is Some {
                Self::keep_ground(s5, s6, l1);
                Self::keep_ground(s5, s6, sign);
            }
        }
        let n1 = self.ctx.cast_ty_as_bit_length(l1);
        proof {
            Self::lemma_grew(s6, *self);
            Self::lemma_evolved_trans(s0, s6, *self);
            Self::keep_node(s0, *self, lhs);
            Self::keep_node(s6, *self, sign);
            Self::keep_node(s6, *self, l2);
        }
        let n1 = match n1 {
            Ok(n) => n,
            Err(_) => {
                return Ok(());
            },
        };
        let ghost s7 = *self;
        proof {
            if bits_parts(s0.tt(arg1)) is Some && bits_parts(s0.tt(arg2)) is Some {
                Self::keep_ground(s6, s7, l2);
                Self::keep_ground(s6, s7, sign);
            }
        }
        let n2 = self.ctx.cast_ty_as_bit_length(l2);
        proof {
            Self::lemma_grew(s7, *self);
            Self::lemma_evolved_trans(s0, s7, *self);
            Self::keep_node(s0, *self, lhs);
            Self::keep_node(s7, *self, sign);
        }
        let n2 = match n2 {
            Ok(n) => n,
            Err(_) => {
                return Ok(());
            },
        };
        let m = if n1 > n2 {
            n1
        } else {
            n2
        };
        if m == usize::MAX {
            return Err(RHDLError::IntegerOutOfRange);
        }
        let ghost s8 = *self;
        proof {
            if bits_parts(s0.tt(arg1)) is Some && bits_parts(s0.tt(arg2)) is Some {
                Self::keep_ground(s7, s8, sign);
            }
        }
        let len = self.ctx.ty_const_len(loc, m + 1);
        proof {
            Self::lemma_grew(s8, *self);
            Self::lemma_evolved_trans(s0, s8, *self);
            Self::keep_node(s0, *self, lhs);
            Self::keep_node(s8, *self, sign);
        }
        let ghost s9 = *self;
        let lhs_ty = self.ctx.ty_with_sign_and_len(loc, sign, len);
        proof {
            Self::lemma_grew(s9, *self);
            Self::lemma_evolved_trans(s0, s9, *self);
            Self::keep_node(s0, *self, lhs);
        }
        let ghost s10 = *self;
        proof {
            if bits_parts(s0.tt(arg1)) is Some && bits_parts(s0.tt(arg2)) is Some {
                let (f1, k1) = bits_parts(s0.tt(arg1))->Some_0;
                let (f2, k2) = bits_parts(s0.tt(arg2))->Some_0;
                Self::keep_ground(s8, s9, sign);
                let f = if subtract { SignFlag::Signed } else { f1 };
                assert(s9.tt(sign) == Term::Const(Const::Signed(f)));
                assert(s10.tt(lhs_ty) == bits_term(f, (m + 1) as nat));
                lemma_bits_term_ground(f, (m + 1) as nat);
                assert(!subtract ==> f1 == f2);
            }
        }
        let res = self.unify(loc, lhs, lhs_ty);
        proof {
            Self::lemma_evolved_trans(s0, s10, *self);
            if bits_parts(s0.tt(arg1)) is Some && bits_parts(s0.tt(arg2)) is Some && res is Ok {
                Self::keep_ground(s10, *self, lhs_ty);
            }
        }
        res
    }

    /// Given `lhs <- arg1 op arg2`, the data types of the three agree: either
    /// neither argument is a signal and all three types are one, or the
    /// result has the type of the argument that is a signal; the data the
    /// arguments carry are unified too.
    fn enforce_data_types_binary(&mut self, loc: NodeId, lhs: TypeId, arg1: TypeId, arg2: TypeId) -> (r: Result<
        (),
        RHDLError,
    >)
        requires
            old(self).inv(),
            old(self).ctx.has(lhs),
            old(self).ctx.has(arg1),
            old(self).ctx.has(arg2),
        ensures
            final(self).inv(),
            final(self).evolved_from(*old(self)),
            final(self).type_ops@ == old(self).type_ops@,
            final(self).slot_map@ == old(self).slot_map@,
            final(self).ctx.vars() == old(self).ctx.vars(),
            r is Ok && !is_signal_term(old(self).tt(arg1)) && !is_signal_term(old(self).tt(arg2)) ==> final(self).tt(lhs)
                == final(self).tt(arg1) && final(self).tt(lhs) == final(self).tt(arg2),
            r is Ok && is_signal_term(old(self).tt(arg1)) ==> final(self).tt(lhs) == final(self).tt(arg1),
            r is Ok && is_signal_term(old(self).tt(arg2)) ==> final(self).tt(lhs) == final(self).tt(arg2),
            forall|sigma: spec_fn(VarNum) -> Term|
                #[trigger] data_rule_solved(sigma, old(self).tt(lhs), old(self).tt(arg1), old(self).tt(arg2)) ==> r is Ok,
    {
        let ghost s0 = *self;
        let ghost ok = exists|sigma: spec_fn(VarNum) -> Term| #[trigger] data_rule_solved(sigma, s0.tt(lhs), s0.tt(arg1), s0.tt(arg2));
        let ghost sig = choose|sigma: spec_fn(VarNum) -> Term| #[trigger] data_rule_solved(sigma, s0.tt(lhs), s0.tt(arg1), s0.tt(arg2));
        let a1_is_signal = self.ctx.is_signal(arg1);
        proof {
            Self::lemma_grew(s0, *self);
            Self::keep_node(s0, *self, arg2);
        }
        let ghost s1 = *self;
        let a2_is_signal = self.ctx.is_signal(arg2);
        proof {
            Self::lemma_grew(s1, *self);
            Self::lemma_evolved_trans(s0, s1, *self);
            s1.ctx.lemma_grows_keeps_terms(s0.ctx, arg2);
            Self::keep_node(s0, *self, arg1);
        }
        let ghost s2 = *self;
        let a_data = self.ctx.project_signal_data(arg1);
        proof {
            Self::lemma_grew(s2, *self);
            Self::lemma_evolved_trans(s0, s2, *self);
            Self::keep_node(s0, *self, arg2);
        }
        let ghost s3 = *self;
        let b_data = self.ctx.project_signal_data(arg2);
        proof {
            Self::lemma_grew(s3, *self);
            Self::lemma_evolved_trans(s0, s3, *self);
            Self::keep_node(s3, *self, a_data);
            Self::keep_node(s0, *self, lhs);
            Self::keep_node(s0, *self, arg1);
            Self::keep_node(s0, *self, arg2);
        }
        let ghost s4 = *self;
        proof {
            UnifyContext::lemma_grows_trans(s0.ctx, s1.ctx, s2.ctx);
            UnifyContext::lemma_grows_trans(s0.ctx, s2.ctx, s3.ctx);
            UnifyContext::lemma_grows_trans(s0.ctx, s3.ctx, s4.ctx);
            if ok {
                lemma_not_signal_under(sig, s0.tt(arg1), s0.tt(arg1));
                lemma_not_signal_under(sig, s0.tt(arg2), s0.tt(arg1));
                lemma_grown_under(sig, s0.ctx, s2.ctx, arg1);
                lemma_grown_under(sig, s0.ctx, s3.ctx, arg2);
                lemma_grown_under(sig, s3.ctx, s4.ctx, a_data);
                lemma_grown_under(sig, s0.ctx, s4.ctx, lhs);
                lemma_grown_under(sig, s0.ctx, s4.ctx, arg1);
                lemma_grown_under(sig, s0.ctx, s4.ctx, arg2);
                assert(unifies(sig, s4.tt(a_data), s4.tt(b_data)));
            }
        }
        let res = self.unify(loc, a_data, b_data);
        proof {
            Self::lemma_evolved_trans(s0, s4, *self);
            Self::keep_node(s4, *self, lhs);
            Self::keep_node(s4, *self, arg1);
            Self::keep_node(s4, *self, arg2);
        }
        res?;
        let ghost s5 = *self;
        if a1_is_signal {
            let res = self.unify(loc, lhs, arg1);
            proof {
                Self::lemma_evolved_trans(s0, s5, *self);
            }
            res?;
        } else {
            proof {
                Self::lemma_evolved_refl(s5);
            }
        }
        let ghost s6 = *self;
        proof {
            Self::keep_node(s5, s6, lhs);
            Self::keep_node(s5, s6, arg1);
            Self::keep_node(s5, s6, arg2);
            Self::lemma_evolved_trans(s0, s5, s6);
        }
        if a2_is_signal {
            let res = self.unify(loc, lhs, arg2);
            proof {
                Self::lemma_evolved_trans(s0, s6, *self);
            }
            res?;
        } else {
            proof {
                Self::lemma_evolved_refl(s6);
            }
        }
        let ghost s7 = *self;
        proof {
            if ok {
                assert(!a1_is_signal && !a2_is_signal);
                assert(s7 == s5);
                assert(inst(sig, s7.tt(lhs)) == inst(sig, s0.tt(lhs)));
                assert(inst(sig, s7.tt(arg1)) == inst(sig, s0.tt(arg1)));
                assert(inst(sig, s7.tt(arg2)) == inst(sig, s0.tt(arg2)));
                assert(unifies(sig, s7.tt(lhs), s7.tt(arg1)));
            }
            Self::keep_node(s6, s7, lhs);
            Self::keep_node(s6, s7, arg1);
            Self::keep_node(s6, s7, arg2);
            Self::lemma_evolved_trans(s0, s6, s7);
            if a1_is_signal {
                Self::keep_tt(s6, s7, lhs, arg1);
            }
        }
        if !a1_is_signal && !a2_is_signal {
            let res = self.unify(loc, lhs, arg1);
            proof {
                Self::lemma_evolved_trans(s0, s7, *self);
            }
            res?;
            let ghost s8 = *self;
            proof {
                if ok {
                    assert(inst(sig, s8.tt(lhs)) == inst(sig, s0.tt(lhs)));
                    assert(inst(sig, s8.tt(arg2)) == inst(sig, s0.tt(arg2)));
                    assert(unifies(sig, s8.tt(lhs), s8.tt(arg2)));
                }
                Self::keep_node(s7, s8, lhs);
                Self::keep_node(s7, s8, arg2);
                Self::keep_node(s7, s8, arg1);
            }
            let res = self.unify(loc, lhs, arg2);
            proof {
                Self::lemma_evolved_trans(s0, s8, *self);
                Self::lemma_evolved_trans(s7, s8, *self);
                if res is Ok {
                    Self::keep_tt(s8, *self, lhs, arg1);
                }
            }
            res?;
        } else {
            proof {
                Self::lemma_evolved_refl(s7);
            }
        }
        let ghost s9 = *self;
        proof {
            if ok {
                assert(inst(sig, s9.tt(arg1)) == inst(sig, s0.tt(arg1)));
                assert(inst(sig, s9.tt(arg2)) == inst(sig, s0.tt(arg2)));
                lemma_not_signal_under(sig, s9.tt(arg1), s0.tt(arg1));
                lemma_not_signal_under(sig, s9.tt(arg2), s0.tt(arg1));
            }
            Self::keep_node(s7, s9, lhs);
            Self::keep_node(s7, s9, arg1);
            Self::keep_node(s7, s9, arg2);
            Self::lemma_evolved_trans(s0, s7, s9);
        }
        let p1 = self.ctx.project_signal_value(arg1);
        let ghost s10 = *self;
        proof {
            Self::lemma_grew(s9, s10);
            Self::keep_node(s9, s10, arg2);
        }
        let p2 = self.ctx.project_signal_value(arg2);
        let ghost s11 = *self;
        proof {
            UnifyContext::lemma_grows_trans(s9.ctx, s10.ctx, s11.ctx);
            if ok {
                assert(p1 is None);
                s11.ctx.lemma_grows_keeps_terms(s9.ctx, arg1);
                s11.ctx.lemma_grows_keeps_terms(s9.ctx, arg2);
            }
            Self::lemma_grew(s9, s10);
            Self::lemma_grew(s10, s11);
            Self::lemma_evolved_trans(s9, s10, s11);
            Self::lemma_evolved_trans(s0, s9, s11);
            if let Some(d1) = p1 {
                Self::keep_node(s10, s11, d1);
            }
        }
        if let (Some(arg1_data), Some(arg2_data)) = (p1, p2) {
            let res = self.unify(loc, arg1_data, arg2_data);
            proof {
                Self::lemma_evolved_trans(s0, s11, *self);
            }
            res?;
        } else {
            proof {
                Self::lemma_evolved_refl(s11);
            }
        }
        let ghost s12 = *self;
        proof {
            Self::lemma_evolved_trans(s0, s11, s12);
            Self::lemma_evolved_trans(s9, s11, s12);
            Self::keep_node(s9, s12, lhs);
            Self::keep_node(s9, s12, arg1);
            Self::keep_node(s9, s12, arg2);
        }
        let q1 = self.ctx.project_signal_value(lhs);
        let ghost s13 = *self;
        proof {
            Self::lemma_grew(s12, s13);
            Self::keep_node(s12, s13, arg1);
        }
        let q2 = self.ctx.project_signal_value(arg1);
        let ghost s14 = *self;
        proof {
            if ok {
                assert(s12 == s11);
                UnifyContext::lemma_grows_trans(s12.ctx, s13.ctx, s14.ctx);
                s13.ctx.lemma_grows_keeps_terms(s12.ctx, arg1);
                s14.ctx.lemma_grows_keeps_terms(s12.ctx, arg2);
                assert(q2 is None);
            }
            Self::lemma_grew(s12, s13);
            Self::lemma_grew(s13, s14);
            Self::lemma_evolved_trans(s12, s13, s14);
            Self::lemma_evolved_trans(s0, s12, s14);
            if let Some(d1) = q1 {
                Self::keep_node(s13, s14, d1);
            }
        }
        if let (Some(lhs_data), Some(arg1_data)) = (q1, q2) {
            let res = self.unify(loc, lhs_data, arg1_data);
            proof {
                Self::lemma_evolved_trans(s0, s14, *self);
            }
            res?;
        } else {
            proof {
                Self::lemma_evolved_refl(s14);
            }
        }
        let ghost s15 = *self;
        proof {
            Self::lemma_evolved_trans(s0, s14, s15);
            Self::lemma_evolved_trans(s12, s14, s15);
            Self::keep_node(s12, s15, lhs);
            Self::keep_node(s12, s15, arg2);
        }
        let q3 = self.ctx.project_signal_value(lhs);
        let ghost s16 = *self;
        proof {
            Self::lemma_grew(s15, s16);
            Self::keep_node(s15, s16, arg2);
        }
        let q4 = self.ctx.project_signal_value(arg2);
        let ghost s17 = *self;
        proof {
            if ok {
                assert(s15 == s14);
                s16.ctx.lemma_grows_keeps_terms(s15.ctx, arg2);
                assert(q4 is None);
            }
            Self::lemma_grew(s15, s16);
            Self::lemma_grew(s16, s17);
            Self::lemma_evolved_trans(s15, s16, s17);
            Self::lemma_evolved_trans(s0, s15, s17);
            if let Some(d1) = q3 {
                Self::keep_node(s16, s17, d1);
            }
        }
        if let (Some(lhs_data), Some(arg2_data)) = (q3, q4) {
            let res = self.unify(loc, lhs_data, arg2_data);
            proof {
                Self::lemma_evolved_trans(s0, s17, *self);
            }
            res?;
        } else {
            proof {
                Self::lemma_evolved_refl(s17);
            }
        }
        proof {
            let f = *self;
            Self::lemma_evolved_trans(s12, s15, s17);
            Self::lemma_evolved_trans(s9, s12, s17);
            Self::lemma_evolved_trans(s9, s17, f);
            Self::lemma_evolved_trans(s12, s17, f);
            Self::lemma_evolved_trans(s7, s9, f);
            Self::lemma_evolved_trans(s6, s7, f);
            if !a1_is_signal && !a2_is_signal {
                Self::keep_tt(s9, f, lhs, arg1);
                Self::keep_tt(s9, f, lhs, arg2);
            }
            if a1_is_signal {
                Self::keep_tt(s7, f, lhs, arg1);
            }
            if a2_is_signal {
                Self::keep_tt(s7, f, lhs, arg2);
            }
        }
        Ok(())
    }

    /// The deferred rule of a binary operation: arithmetic and bitwise
    /// operations relate the data types of their operands, a comparison gives
    /// one bit and compares like with like, a shift keeps the type of what is
    /// shifted and shifts by an unsigned amount.
    fn try_binop(&mut self, loc: NodeId, op: AluBinary, lhs: TypeId, arg1: TypeId, arg2: TypeId) -> (r: Result<(), RHDLError>)
        requires
            old(self).inv(),
            old(self).ctx.has(lhs),
            old(self).ctx.has(arg1),
            old(self).ctx.has(arg2),
        ensures
            final(self).inv(),
            final(self).evolved_from(*old(self)),
            final(self).type_ops@ == old(self).type_ops@,
            final(self).slot_map@ == old(self).slot_map@,
            final(self).ctx.vars() == old(self).ctx.vars(),
            r is Ok && is_comparison_op(op) ==> final(self).tt(lhs) == bits_term(SignFlag::Unsigned, 1),
            r is Ok && (op is Shl || op is Shr) ==> final(self).tt(lhs) == final(self).tt(arg1),
            r is Ok && !is_comparison_op(op) && !(op is Shl || op is Shr) && !(op is XAdd || op is XSub) && !is_signal_term(old(self).tt(arg1))
                && !is_signal_term(old(self).tt(arg2)) ==> final(self).tt(lhs) == final(self).tt(arg1) && final(self).tt(lhs)
                == final(self).tt(arg2),
            r is Ok && (op is XAdd || op is XSub) && bits_parts(old(self).tt(arg1)) is Some && bits_parts(old(self).tt(arg2))
                is Some ==> wide_type(old(self).tt(arg1), old(self).tt(arg2), op is XSub) == Some(final(self).tt(lhs)),
            forall|sigma: spec_fn(VarNum) -> Term|
                #[trigger] data_rule_solved(sigma, old(self).tt(lhs), old(self).tt(arg1), old(self).tt(arg2)) && (op is Add
                    || op is Sub || op is Mul || op is BitAnd || op is BitOr || op is BitXor) ==> r is Ok,
            forall|sigma: spec_fn(VarNum) -> Term|
                #[trigger] compare_rule_solved(sigma, old(self).tt(lhs), old(self).tt(arg1), old(self).tt(arg2)) && is_comparison_op(op)
                    ==> r is Ok,
            forall|sigma: spec_fn(VarNum) -> Term|
                #[trigger] shift_rule_solved(sigma, old(self).tt(lhs), old(self).tt(arg1), old(self).tt(arg2)) && (op is Shl
                    || op is Shr) ==> r is Ok,
    {
        let ghost s0 = *self;
        match op {
            AluBinary::Add | AluBinary::BitAnd | AluBinary::BitOr | AluBinary::BitXor | AluBinary::Mul | AluBinary::Sub => {
                self.enforce_data_types_binary(loc, lhs, arg1, arg2)
            },
            AluBinary::XAdd => self.wide_rule(loc, false, lhs, arg1, arg2),
            AluBinary::XSub => self.wide_rule(loc, true, lhs, arg1, arg2),
            AluBinary::Eq | AluBinary::Lt | AluBinary::Le | AluBinary::Ne | AluBinary::Ge | AluBinary::Gt => {
                let ghost ok = exists|sigma: spec_fn(VarNum) -> Term| #[trigger] compare_rule_solved(sigma, s0.tt(lhs), s0.tt(arg1), s0.tt(arg2));
                let ghost sig = choose|sigma: spec_fn(VarNum) -> Term| #[trigger] compare_rule_solved(sigma, s0.tt(lhs), s0.tt(arg1), s0.tt(arg2));
                let lhs_var = self.ctx.ty_bool(loc);
                proof {
                    Self::lemma_grew(s0, *self);
                    Self::keep_node(s0, *self, lhs);
                    lemma_kind_term_ground(KindView::Bits(1));
                }
                let ghost s1 = *self;
                proof {
                    if ok {
                        lemma_grown_under(sig, s0.ctx, s1.ctx, lhs);
                        lemma_grown_under(sig, s0.ctx, s1.ctx, arg1);
                        lemma_grown_under(sig, s0.ctx, s1.ctx, arg2);
                        lemma_inst_ground(sig, bits_term(SignFlag::Unsigned, 1));
                        assert(unifies(sig, s1.tt(lhs), s1.tt(lhs_var)));
                    }
                }
                let res = self.unify(loc, lhs, lhs_var);
                proof {
                    Self::lemma_evolved_trans(s0, s1, *self);
                }
                res?;
                let ghost s2 = *self;
                proof {
                    Self::lemma_evolved_trans(s0, s1, s2);
                    Self::keep_node(s0, s2, arg1);
                    Self::keep_node(s0, s2, arg2);
                    Self::keep_ground(s1, s2, lhs_var);
                    Self::keep_node(s1, s2, lhs);
                }
                let a1_is_signal = self.ctx.is_signal(arg1);
                let ghost s3 = *self;
                proof {
                    Self::lemma_grew(s2, s3);
                    Self::keep_node(s2, s3, arg2);
                }
                let a2_is_signal = self.ctx.is_signal(arg2);
                let ghost s4 = *self;
                proof {
                    if ok {
                        assert(inst(sig, s2.tt(arg1)) == inst(sig, s0.tt(arg1)));
                        assert(inst(sig, s2.tt(arg2)) == inst(sig, s0.tt(arg2)));
                        lemma_not_signal_under(sig, s2.tt(arg1), s0.tt(arg1));
                        lemma_not_signal_under(sig, s2.tt(arg2), s0.tt(arg1));
                        lemma_grown_under(sig, s2.ctx, s3.ctx, arg1);
                        lemma_grown_under(sig, s2.ctx, s3.ctx, arg2);
                        lemma_grown_under(sig, s3.ctx, s4.ctx, arg1);
                        lemma_grown_under(sig, s3.ctx, s4.ctx, arg2);
                        assert(!a1_is_signal && !a2_is_signal);
                        assert(unifies(sig, s4.ctx.term(arg1), s4.ctx.term(arg2)));
                    }
                    Self::lemma_grew(s3, s4);
                    Self::lemma_evolved_trans(s2, s3, s4);
                    Self::keep_node(s2, s4, arg1);
                    Self::keep_node(s2, s4, arg2);
                }
                if !a1_is_signal && !a2_is_signal {
                    let res = self.ctx.unify(arg1, arg2);
                    proof {
                        Self::lemma_refined(s4, *self);
                    }
                    match res {
                        Ok(()) => {},
                        Err(cause) => {
                            proof {
                                Self::lemma_evolved_trans(s2, s4, *self);
                                Self::lemma_evolved_trans(s0, s2, *self);
                            }
                            return Err(RHDLError::TypeInference { cause });
                        },
                    }
                } else {
                    let p1 = self.ctx.project_signal_value(arg1);
                    let ghost s5 = *self;
                    proof {
                        Self::lemma_grew(s4, s5);
                        Self::keep_node(s4, s5, arg2);
                    }
                    let p2 = self.ctx.project_signal_value(arg2);
                    let ghost s6 = *self;
                    proof {
                        Self::lemma_grew(s5, s6);
                        Self::lemma_evolved_trans(s4, s5, s6);
                        if let Some(d) = p1 {
                            Self::keep_node(s5, s6, d);
                        }
                    }
                    if let (Some(arg1_data), Some(arg2_data)) = (p1, p2) {
                        let res = self.unify(loc, arg1_data, arg2_data);
                        proof {
                            Self::lemma_evolved_trans(s4, s6, *self);
                            Self::lemma_evolved_trans(s2, s4, *self);
                            Self::lemma_evolved_trans(s0, s2, *self);
                        }
                        res?;
                    } else {
                        proof {
                            Self::lemma_evolved_trans(s4, s5, s6);
                        }
                    }
                }
                proof {
                    let f = *self;
                    Self::lemma_evolved_trans(s2, s4, f);
                    Self::lemma_evolved_trans(s0, s2, f);
                    Self::keep_tt(s2, f, lhs, lhs_var);
                    Self::keep_ground(s2, f, lhs_var);
                }
                Ok(())
            },
            AluBinary::Shl | AluBinary::Shr => {
                let ghost ok = exists|sigma: spec_fn(VarNum) -> Term| #[trigger] shift_rule_solved(sigma, s0.tt(lhs), s0.tt(arg1), s0.tt(arg2));
                let ghost sig = choose|sigma: spec_fn(VarNum) -> Term| #[trigger] shift_rule_solved(sigma, s0.tt(lhs), s0.tt(arg1), s0.tt(arg2));
                proof {
                    if ok {
                        assert(unifies(sig, s0.tt(lhs), s0.tt(arg1)));
                    }
                }
                let res = self.unify(loc, lhs, arg1);
                res?;
                let ghost s1 = *self;
                proof {
                    if ok {
                        assert(inst(sig, s1.tt(arg2)) == inst(sig, s0.tt(arg2)));
                    }
                    Self::keep_node(s0, s1, arg2);
                    Self::keep_node(s0, s1, lhs);
                    Self::keep_node(s0, s1, arg1);
                }
                let flag = self.ctx.project_sign_flag(arg2);
                proof {
                    Self::lemma_grew(s1, *self);
                }
                let ghost s2 = *self;
                if let Some(flag) = flag {
                    let unsigned_flag = self.ctx.ty_sign_flag(loc, SignFlag::Unsigned);
                    proof {
                        Self::lemma_grew(s2, *self);
                        Self::keep_node(s2, *self, flag);
                    }
                    let ghost s3 = *self;
                    proof {
                        if ok {
                            let t0 = app_arg(s1.tt(arg2), Shape::Bits, 0)->Some_0;
                            lemma_app_arg_inst(sig, s1.tt(arg2), Shape::Bits);
                            lemma_grown_under(sig, s2.ctx, s3.ctx, flag);
                            assert(s3.tt(flag) == t0);
                            assert(unifies(sig, s3.tt(flag), s3.tt(unsigned_flag)));
                        }
                    }
                    let res = self.unify(loc, flag, unsigned_flag);
                    proof {
                        Self::lemma_evolved_trans(s2, s3, *self);
                        Self::lemma_evolved_trans(s1, s2, *self);
                        Self::lemma_evolved_trans(s0, s1, *self);
                    }
                    res?;
                } else {
                    proof {
                        Self::lemma_evolved_refl(s2);
                    }
                }
                proof {
                    let f = *self;
                    Self::lemma_evolved_trans(s1, s2, f);
                    Self::lemma_evolved_trans(s0, s1, f);
                    Self::keep_tt(s1, f, lhs, arg1);
                }
                Ok(())
            },
        }
    }

    /// The deferred rule of a select: the chosen value has the data type of
    /// the two alternatives.
    fn try_select(&mut self, loc: NodeId, lhs: TypeId, true_value: TypeId, false_value: TypeId) -> (r: Result<(), RHDLError>)
        requires
            old(self).inv(),
            old(self).ctx.has(lhs),
            old(self).ctx.has(true_value),
            old(self).ctx.has(false_value),
        ensures
            final(self).inv(),
            final(self).evolved_from(*old(self)),
            final(self).type_ops@ == old(self).type_ops@,
            final(self).slot_map@ == old(self).slot_map@,
            final(self).ctx.vars() == old(self).ctx.vars(),
            r is Ok && !is_signal_term(old(self).tt(true_value)) && !is_signal_term(old(self).tt(false_value))
                ==> final(self).tt(lhs) == final(self).tt(true_value) && final(self).tt(lhs) == final(self).tt(false_value),
            forall|sigma: spec_fn(VarNum) -> Term|
                #[trigger] data_rule_solved(sigma, old(self).tt(lhs), old(self).tt(true_value), old(self).tt(false_value)) ==> r is Ok,
    {
        self.enforce_data_types_binary(loc, lhs, true_value, false_value)
    }

    /// The type that a path selects in `arg`: array elements, tuple elements
    /// and struct fields are looked up in the stored types, a run-time index
    /// is made an unsigned 64-bit value where its type is still open, and a
    /// signal is read through.
    fn ty_path_project(&mut self, mir: &Mir, arg: TypeId, path: &Path, loc: NodeId) -> (r: Result<TypeId, RHDLError>)
        requires
            old(self).inv(),
            old(self).ctx.has(arg),
            path_named(mir, path@),
            old(self).ctx.vars() + path@.len() <= u32::MAX,
        ensures
            final(self).inv(),
            final(self).evolved_from(*old(self)),
            final(self).type_ops@ == old(self).type_ops@,
            final(self).ctx.vars() <= old(self).ctx.vars() + path@.len(),
            r matches Ok(t) ==> final(self).ctx.has(t),
    {
        let ghost s0 = *self;
        let mut arg = self.ctx.apply(arg);
        proof {
            Self::lemma_grew(s0, *self);
        }
        let mut i: usize = 0;
        while i < path.elements.len()
            invariant
                i <= path.elements@.len(),
                path@.len() == path.elements@.len(),
                s0 == *old(self),
                path_named(mir, path@),
                s0.ctx.vars() + path@.len() <= u32::MAX,
                self.inv(),
                self.evolved_from(s0),
                self.type_ops@ == s0.type_ops@,
                self.ctx.vars() <= s0.ctx.vars() + i,
                self.ctx.has(arg),
            decreases path.elements.len() - i,
        {
            let ghost sp = *self;
            proof {
                assert(path@[i as int] == path.elements@[i as int]@);
            }
            match &path.elements[i] {
                PathElement::Index(ndx) => {
                    arg = match self.ctx.ty_index(arg, *ndx) {
                        Ok(t) => t,
                        Err(cause) => {
                            return Err(RHDLError::TypeInference { cause });
                        },
                    };
                },
                PathElement::Field(member) => {
                    arg = match self.ctx.ty_field(arg, member.as_str()) {
                        Ok(t) => t,
                        Err(cause) => {
                            return Err(RHDLError::TypeInference { cause });
                        },
                    };
                },
                PathElement::TupleIndex(ndx) => {
                    arg = match self.ctx.ty_index(arg, *ndx) {
                        Ok(t) => t,
                        Err(cause) => {
                            return Err(RHDLError::TypeInference { cause });
                        },
                    };
                },
                PathElement::DynamicIndex(slot) => {
                    let index = self.slot_ty(mir, *slot);
                    let ghost sa = *self;
                    proof {
                        Self::keep_node(sp, sa, arg);
                    }
                    let usize_ty = self.ctx.ty_usize(loc);
                    proof {
                        Self::lemma_grew(sa, *self);
                        Self::lemma_evolved_trans(sp, sa, *self);
                        Self::lemma_evolved_trans(s0, sp, *self);
                        Self::keep_node(sa, *self, index);
                        Self::keep_node(sa, *self, arg);
                    }
                    let ghost sb = *self;
                    if slot.is_literal() {
                        let res = self.unify(loc, index, usize_ty);
                        proof {
                            Self::lemma_evolved_trans(s0, sb, *self);
                            Self::keep_node(sb, *self, arg);
                        }
                        res?;
                    } else {
                        let reg_ty = self.ctx.apply(index);
                        let ghost sc = *self;
                        proof {
                            Self::lemma_grew(sb, sc);
                            Self::keep_node(sb, sc, usize_ty);
                            Self::keep_node(sb, sc, arg);
                        }
                        let generic = self.ctx.is_generic_integer(reg_ty);
                        let ghost sd = *self;
                        proof {
                            Self::lemma_grew(sc, sd);
                            Self::lemma_evolved_trans(sb, sc, sd);
                            Self::keep_node(sc, sd, usize_ty);
                            Self::keep_node(sc, sd, reg_ty);
                            Self::keep_node(sb, sd, arg);
                        }
                        if generic {
                            let res = self.unify(loc, reg_ty, usize_ty);
                            proof {
                                Self::lemma_evolved_trans(sb, sd, *self);
                                Self::lemma_evolved_trans(s0, sb, *self);
                                Self::keep_node(sd, *self, arg);
                            }
                            res?;
                        } else {
                            proof {
                                Self::lemma_evolved_refl(sd);
                            }
                        }
                        proof {
                            Self::lemma_evolved_trans(sb, sd, *self);
                        }
                    }
                    proof {
                        Self::lemma_evolved_trans(s0, sb, *self);
                        Self::keep_node(sb, *self, arg);
                    }
                    arg = match self.ctx.ty_index(arg, 0) {
                        Ok(t) => t,
                        Err(cause) => {
                            return Err(RHDLError::TypeInference { cause });
                        },
                    };
                },
                PathElement::SignalValue => {
                    let p = self.ctx.project_signal_value(arg);
                    proof {
                        Self::lemma_grew(sp, *self);
                        Self::lemma_evolved_trans(s0, sp, *self);
                    }
                    arg = match p {
                        Some(t) => t,
                        None => {
                            return Err(RHDLError::TypeCheck { cause: TypeCheck::ExpectedSignalValue, id: loc });
                        },
                    };
                },
            }
            i += 1;
        }
        Ok(arg)
    }

    /// The deferred rule of an indexing: `lhs` has the type the path selects
    /// in `arg`.
    fn try_index(&mut self, mir: &Mir, loc: NodeId, lhs: TypeId, arg: TypeId, path: &Path) -> (r: Result<(), RHDLError>)
        requires
            old(self).inv(),
            old(self).ctx.has(lhs),
            old(self).ctx.has(arg),
            path_named(mir, path@),
            old(self).ctx.vars() + path@.len() <= u32::MAX,
        ensures
            final(self).inv(),
            final(self).evolved_from(*old(self)),
            final(self).type_ops@ == old(self).type_ops@,
            final(self).ctx.vars() <= old(self).ctx.vars() + path@.len(),
    {
        let ghost s0 = *self;
        match self.ty_path_project(mir, arg, path, loc) {
            Ok(ty) => {
                let ghost s1 = *self;
                proof {
                    Self::keep_node(s0, s1, lhs);
                }
                let r = self.unify(loc, lhs, ty);
                proof {
                    Self::lemma_evolved_trans(s0, s1, *self);
                }
                r
            },
            Err(_) => Err(RHDLError::TypeCheck { cause: TypeCheck::PathMismatchInTypeInference, id: loc }),
        }
    }

    /// Applies deferred rule `k`.
    fn try_type_op(&mut self, mir: &Mir, k: usize) -> (r: Result<(), RHDLError>)
        requires
            old(self).inv(),
            old(self).paths_named(mir),
            k < old(self).type_ops@.len(),
            old(self).ctx.vars() + type_op_budget(old(self).type_ops@[k as int]) <= u32::MAX,
        ensures
            final(self).inv(),
            final(self).evolved_from(*old(self)),
            final(self).type_ops@ == old(self).type_ops@,
            final(self).ctx.vars() <= old(self).ctx.vars() + type_op_budget(old(self).type_ops@[k as int]),
            rule_met(*old(self), old(self).type_ops@[k as int]) ==> r is Ok && final(self).slot_map@ == old(self).slot_map@,
            r is Ok && extending_args_known(*old(self), old(self).type_ops@[k as int]) ==> extending_rule_met(
                *final(self),
                old(self).type_ops@[k as int],
            ),
    {
        let loc = self.type_ops[k].loc;
        let kind = copy_type_op_kind(&self.type_ops[k].kind);
        proof {
            let ids = type_op_ids(self.type_ops@[k as int].kind);
            assert forall|j: int| 0 <= j < ids.len() implies self.ctx.has(#[trigger] ids[j]) by {}
            assert(self.type_ops@[k as int] == self.type_ops@[k as int]);
        }
        match kind {
            TypeOperationKind::BinOp(binop) => {
                proof {
                    assert(type_op_ids(kind)[0] == binop.lhs);
                    assert(type_op_ids(kind)[1] == binop.arg1);
                    assert(type_op_ids(kind)[2] == binop.arg2);
                    if rule_met(*self, self.type_ops@[k as int]) {
                        let sig = |v: VarNum| Term::Var(v);
                        lemma_inst_ground(sig, self.tt(binop.lhs));
                        lemma_inst_ground(sig, self.tt(binop.arg1));
                        lemma_inst_ground(sig, self.tt(binop.arg2));
                        assert(data_rule_solved(sig, self.tt(binop.lhs), self.tt(binop.arg1), self.tt(binop.arg2)) || !(
                        binop.op is Add || binop.op is Sub || binop.op is Mul || binop.op is BitAnd || binop.op is BitOr
                            || binop.op is BitXor));
                        assert(compare_rule_solved(sig, self.tt(binop.lhs), self.tt(binop.arg1), self.tt(binop.arg2)) || !is_comparison_op(
                            binop.op,
                        ));
                    }
                }
                let ghost sb = *self;
                let res = self.try_binop(loc, binop.op, binop.lhs, binop.arg1, binop.arg2);
                proof {
                    if extending_args_known(sb, sb.type_ops@[k as int]) {
                        lemma_bits_parts(sb.tt(binop.arg1));
                        lemma_bits_parts(sb.tt(binop.arg2));
                        Self::keep_ground(sb, *self, binop.arg1);
                        Self::keep_ground(sb, *self, binop.arg2);
                    }
                }
                res
            },
            TypeOperationKind::Index(index) => {
                proof {
                    assert(type_op_ids(kind)[0] == index.lhs);
                    assert(type_op_ids(kind)[1] == index.arg);
                }
                self.try_index(mir, loc, index.lhs, index.arg, &index.path)
            },
            TypeOperationKind::UnaryOp(unary) => {
                proof {
                    assert(type_op_ids(kind)[0] == unary.lhs);
                    assert(type_op_ids(kind)[1] == unary.arg1);
                }
                let ghost su = *self;
                let res = self.try_unary(loc, unary.op, unary.lhs, unary.arg1);
                proof {
                    if extending_args_known(su, su.type_ops@[k as int]) {
                        lemma_bits_parts(su.tt(unary.arg1));
                        Self::keep_ground(su, *self, unary.arg1);
                    }
                }
                res
            },
            TypeOperationKind::Select(select) => {
                proof {
                    assert(type_op_ids(kind)[0] == select.true_value);
                    assert(type_op_ids(kind)[1] == select.false_value);
                    assert(type_op_ids(kind)[2] == select.lhs);
                    if rule_met(*self, self.type_ops@[k as int]) {
                        let sig = |v: VarNum| Term::Var(v);
                        lemma_inst_ground(sig, self.tt(select.lhs));
                        lemma_inst_ground(sig, self.tt(select.true_value));
                        lemma_inst_ground(sig, self.tt(select.false_value));
                        assert(data_rule_solved(sig, self.tt(select.lhs), self.tt(select.true_value), self.tt(select.false_value)));
                    }
                }
                self.try_select(loc, select.lhs, select.true_value, select.false_value)
            },
        }
    }

    /// The first slot, in the order slots got their types, whose type does
    /// not yet stand for a kind.
    fn unresolved_slot_typeid(&mut self) -> (r: Option<TypeId>)
        requires
            old(self).inv(),
        ensures
            final(self).inv(),
            final(self).evolved_from(*old(self)),
            final(self).type_ops@ == old(self).type_ops@,
            final(self).slot_map@ == old(self).slot_map@,
            final(self).ctx.vars() == old(self).ctx.vars(),
            forall|t: TypeId| old(self).ctx.has(t) ==> #[trigger] final(self).tt(t) == old(self).tt(t),
            match r {
                None => forall|i: int|
                    0 <= i < old(self).slot_map@.len() ==> term_kind(old(self).tt((#[trigger] old(self).slot_map@[i]).1)) is Ok,
                Some(t) => exists|i: int|
                    0 <= i < old(self).slot_map@.len() && (#[trigger] old(self).slot_map@[i]).1 == t && term_kind(old(self).tt(t)) is Err,
            },
    {
        let ghost s0 = *self;
        proof {
            UnifyContext::lemma_grows_refl(s0.ctx);
        }
        let mut i: usize = 0;
        while i < self.slot_map.len()
            invariant
                i <= self.slot_map@.len(),
                s0 == *old(self),
                self.slot_map@ == s0.slot_map@,
                self.type_ops@ == s0.type_ops@,
                s0.inv(),
                self.ctx.wf(),
                self.ctx.grows_from(s0.ctx),
                self.ctx.vars() == s0.ctx.vars(),
                forall|j: int| 0 <= j < i ==> term_kind(s0.tt((#[trigger] s0.slot_map@[j]).1)) is Ok,
            decreases self.slot_map.len() - i,
        {
            let t = self.slot_map[i].1;
            proof {
                assert(lookup(s0.slot_map@, s0.slot_map@[i as int].0) == Some(t)) by {
                    crate::compiler::mir::mir_impl::lemma_lookup_first(s0.slot_map@, s0.slot_map@[i as int].0, i as int);
                }
                assert(s0.ctx.has(t));
                self.ctx.lemma_grows_keeps_terms(s0.ctx, t);
            }
            let ghost sp = self.ctx;
            let k = self.ctx.into_kind(t);
            proof {
                UnifyContext::lemma_grows_trans(s0.ctx, sp, self.ctx);
            }
            if k.is_err() {
                proof {
                    Self::lemma_grew(s0, *self);
                    assert forall|u: TypeId| s0.ctx.has(u) implies #[trigger] self.tt(u) == s0.tt(u) by {
                        self.ctx.lemma_grows_keeps_terms(s0.ctx, u);
                    }
                }
                return Some(t);
            }
            i += 1;
        }
        proof {
            Self::lemma_grew(s0, *self);
            assert forall|u: TypeId| s0.ctx.has(u) implies #[trigger] self.tt(u) == s0.tt(u) by {
                self.ctx.lemma_grows_keeps_terms(s0.ctx, u);
            }
        }
        None
    }

    /// Every slot's type stands for a kind.
    fn all_slots_resolved(&mut self) -> (r: bool)
        requires
            old(self).inv(),
        ensures
            final(self).inv(),
            final(self).evolved_from(*old(self)),
            final(self).type_ops@ == old(self).type_ops@,
            final(self).slot_map@ == old(self).slot_map@,
            final(self).ctx.vars() == old(self).ctx.vars(),
            r == forall|i: int|
                0 <= i < old(self).slot_map@.len() ==> term_kind(old(self).tt((#[trigger] old(self).slot_map@[i]).1)) is Ok,
    {
        self.unresolved_slot_typeid().is_none()
    }

    /// Applies all deferred rules in turn, for up to `iteration_count`
    /// rounds; stops early once a round changes nothing or every slot's type
    /// is known.
    fn try_type_ops(&mut self, mir: &Mir, iteration_count: usize) -> (r: Result<(), RHDLError>)
        requires
            old(self).inv(),
            old(self).paths_named(mir),
            old(self).ctx.vars() + iteration_count * type_ops_budget(old(self).type_ops@) <= u32::MAX,
        ensures
            old(self).type_ops@.len() == 0 ==> r is Ok && *final(self) == *old(self),
            final(self).inv(),
            final(self).evolved_from(*old(self)),
            final(self).type_ops@ == old(self).type_ops@,
            final(self).ctx.vars() <= old(self).ctx.vars() + iteration_count * type_ops_budget(old(self).type_ops@),
            all_rules_met(*old(self)) ==> r is Ok && final(self).slot_map@ == old(self).slot_map@,
    {
        let ghost s0 = *self;
        let ghost budget = type_ops_budget(s0.type_ops@);
        proof {
            Self::lemma_evolved_refl(s0);
        }
        let mut loop_count: usize = 0;
        let mut done = false;
        while loop_count < iteration_count && !done
            invariant
                loop_count <= iteration_count,
                s0 == *old(self),
                budget == type_ops_budget(s0.type_ops@),
                s0.ctx.vars() + iteration_count * budget <= u32::MAX,
                self.inv(),
                self.paths_named(mir),
                self.evolved_from(s0),
                self.type_ops@ == s0.type_ops@,
                s0.type_ops@.len() == 0 ==> *self == s0,
                self.ctx.vars() <= s0.ctx.vars() + loop_count * budget,
                all_rules_met(s0) ==> all_rules_met(*self) && self.slot_map@ == s0.slot_map@,
            decreases iteration_count - loop_count, if done { 0int } else { 1int },
        {
            let ghost sr = *self;
            let mod_state = self.ctx.modification_state();
            proof {
                assert((loop_count + 1) * budget <= iteration_count * budget) by (nonlinear_arith)
                    requires
                        loop_count + 1 <= iteration_count,
                ;
                assert((loop_count + 1) * budget == loop_count * budget + budget) by (nonlinear_arith);
                Self::lemma_evolved_refl(sr);
            }
            let mut k: usize = 0;
            while k < self.type_ops.len()
                invariant
                    k <= self.type_ops@.len(),
                    s0 == *old(self),
                    self.type_ops@ == s0.type_ops@,
                    budget == type_ops_budget(s0.type_ops@),
                    sr.ctx.vars() + budget <= u32::MAX,
                    sr.ctx.vars() + budget <= s0.ctx.vars() + iteration_count * budget,
                    self.inv(),
                    self.paths_named(mir),
                    self.evolved_from(sr),
                    sr.evolved_from(s0),
                    s0.type_ops@.len() == 0 ==> *self == sr,
                    self.ctx.vars() <= sr.ctx.vars() + type_ops_budget(s0.type_ops@.take(k as int)),
                    all_rules_met(s0) ==> all_rules_met(*self) && self.slot_map@ == s0.slot_map@,
                decreases self.type_ops.len() - k,
            {
                let ghost sp = *self;
                proof {
                    assert(s0.type_ops@.take(k + 1).drop_last() =~= s0.type_ops@.take(k as int));
                    assert(s0.type_ops@.take(k + 1).last() == s0.type_ops@[k as int]);
                    lemma_type_ops_budget_prefix(s0.type_ops@, k + 1);
                }
                proof {
                    if all_rules_met(s0) {
                        assert(rule_met(sp, sp.type_ops@[k as int]));
                    }
                }
                let res = self.try_type_op(mir, k);
                proof {
                    Self::lemma_evolved_trans(sr, sp, *self);
                    Self::lemma_evolved_trans(s0, sr, *self);
                    if all_rules_met(s0) {
                        Self::lemma_rules_met_kept(sp, *self);
                    }
                }
                res?;
                k += 1;
            }
            proof {
                assert(s0.type_ops@.take(s0.type_ops@.len() as int) =~= s0.type_ops@);
                Self::lemma_evolved_trans(s0, sr, *self);
            }
            if self.ctx.modification_state() == mod_state {
                done = true;
            } else {
                let ghost sq = *self;
                let resolved = self.all_slots_resolved();
                proof {
                    Self::lemma_evolved_trans(s0, sq, *self);
                    if all_rules_met(s0) {
                        Self::lemma_rules_met_kept(sq, *self);
                    }
                }
                if resolved {
                    done = true;
                }
            }
            loop_count += 1;
        }
        proof {
            assert(loop_count * budget <= iteration_count * budget) by (nonlinear_arith)
                requires
                    loop_count <= iteration_count,
            ;
        }
        Ok(())
    }

    /// A state with no types yet.
    pub fn new() -> (r: MirTypeInference)
        ensures
            r.inv(),
            r.slot_map@.len() == 0,
            r.type_ops@.len() == 0,
            r.ctx.vars() == 0,
    {
        let r = MirTypeInference { ctx: UnifyContext::default(), slot_map: Vec::new(), type_ops: Vec::new() };
        proof {
            assert forall|s: Slot| #[trigger] lookup(r.slot_map@, s) is Some implies r.ctx.has(r.sty(s)) by {
                crate::compiler::mir::mir_impl::lemma_lookup_absent(r.slot_map@, s);
            }
        }
        r
    }

    /// Records `t` as the type of `s`, in place of an earlier one.
    pub(crate) fn set_slot(&mut self, s: Slot, t: TypeId)
        requires
            old(self).inv(),
            old(self).ctx.has(t),
        ensures
            final(self).inv(),
            final(self).ctx == old(self).ctx,
            final(self).type_ops@ == old(self).type_ops@,
            lookup(final(self).slot_map@, s) == Some(t),
            forall|x: Slot| x != s ==> #[trigger] lookup(final(self).slot_map@, x) == lookup(old(self).slot_map@, x),
    {
        let ghost s0 = *self;
        match find_slot(&self.slot_map, s) {
            Some(i) => {
                self.slot_map.set(i, (s, t));
                proof {
                    assert(self.slot_map@ == s0.slot_map@.update(i as int, (s, t)));
                    assert forall|x: Slot| true implies #[trigger] lookup(self.slot_map@, x) == if x == s {
                        Some(t)
                    } else {
                        lookup(s0.slot_map@, x)
                    } by {
                        crate::compiler::mir::mir_impl::lemma_lookup_update(s0.slot_map@, s, i as int, t, x);
                    }
                    assert forall|a: int, b: int|
                        0 <= a < b < self.slot_map@.len() implies (#[trigger] self.slot_map@[a]).0 != (#[trigger] self.slot_map@[b]).0 by {
                        assert(s0.slot_map@[a].0 == self.slot_map@[a].0);
                        assert(s0.slot_map@[b].0 == self.slot_map@[b].0);
                    }
                    assert forall|x: Slot| #[trigger] lookup(self.slot_map@, x) is Some implies self.ctx.has(self.sty(x)) by {
                        if x != s {
                            assert(lookup(s0.slot_map@, x) is Some);
                        }
                    }
                }
            },
            None => {
                self.slot_map.push((s, t));
                proof {
                    assert forall|x: Slot| true implies #[trigger] lookup(self.slot_map@, x) == if x == s {
                        Some(t)
                    } else {
                        lookup(s0.slot_map@, x)
                    } by {
                        lemma_lookup_push(s0.slot_map@, s, t, x);
                    }
                    assert forall|a: int, b: int|
                        0 <= a < b < self.slot_map@.len() implies (#[trigger] self.slot_map@[a]).0 != (#[trigger] self.slot_map@[b]).0 by {
                        assert(s0.slot_map@[a] == self.slot_map@[a]);
                        if b < s0.slot_map@.len() {
                            assert(s0.slot_map@[b] == self.slot_map@[b]);
                        }
                    }
                    assert forall|x: Slot| #[trigger] lookup(self.slot_map@, x) is Some implies self.ctx.has(self.sty(x)) by {
                        if x != s {
                            assert(lookup(s0.slot_map@, x) is Some);
                        }
                    }
                }
            },
        }
    }

    /// The source node of a slot.
    fn node_of(mir: &Mir, s: Slot) -> (r: NodeId)
        requires
            named(mir, s),
        ensures
            Some(r) == lookup(mir.symbols.slot_map@, s),
    {
        mir.symbols.slot_map[find_slot(&mir.symbols.slot_map, s).unwrap()].1
    }

    /// Gives each literal a type: its own kind for a typed literal, an
    /// integer of open sign and length for an integer, one bit for a boolean.
    fn import_literals(&mut self, mir: &Mir)
        requires
            old(self).inv(),
            forall|i: int| 0 <= i < mir.literals@.len() ==> named(mir, (#[trigger] mir.literals@[i]).0),
            old(self).ctx.vars() + 2 * mir.literals@.len() <= u32::MAX,
        ensures
            mir.literals@.len() == 0 ==> *final(self) == *old(self),
            final(self).inv(),
            final(self).type_ops@ == old(self).type_ops@,
            final(self).ctx.vars() <= old(self).ctx.vars() + 2 * mir.literals@.len(),
            forall|i: int| 0 <= i < mir.literals@.len() ==> final(self).known((#[trigger] mir.literals@[i]).0),
    {
        let ghost s0 = *self;
        let mut i: usize = 0;
        while i < mir.literals.len()
            invariant
                i == 0 ==> *self == s0,
                i <= mir.literals@.len(),
                self.inv(),
                self.type_ops@ == s0.type_ops@,
                self.ctx.vars() <= s0.ctx.vars() + 2 * i,
                s0.ctx.vars() + 2 * mir.literals@.len() <= u32::MAX,
                forall|j: int| 0 <= j < mir.literals@.len() ==> named(mir, (#[trigger] mir.literals@[j]).0),
                forall|j: int| 0 <= j < i ==> self.known((#[trigger] mir.literals@[j]).0),
            decreases mir.literals.len() - i,
        {
            let slot = mir.literals[i].0;
            let id = Self::node_of(mir, slot);
            let ghost sp = *self;
            let ty = match &mir.literals[i].1 {
                ExprLit::TypedBits(tb) => self.ctx.from_kind(id, &tb.kind),
                ExprLit::Int(_) => self.ctx.ty_integer(id),
                ExprLit::Bool(_) => self.ctx.ty_bool(id),
            };
            proof {
                Self::lemma_grew(sp, *self);
                assert forall|j: int| 0 <= j < i implies self.known((#[trigger] mir.literals@[j]).0) by {
                    Self::keep_known(sp, *self, mir.literals@[j].0);
                }
            }
            let ghost sq = *self;
            self.set_slot(slot, ty);
            proof {
                assert forall|j: int| 0 <= j < i + 1 implies self.known((#[trigger] mir.literals@[j]).0) by {
                    if mir.literals@[j].0 != slot {
                        assert(lookup(self.slot_map@, mir.literals@[j].0) == lookup(sq.slot_map@, mir.literals@[j].0));
                    }
                }
            }
            i += 1;
        }
    }

    /// Gives each argument, and the result, its declared kind.
    fn import_signature(&mut self, mir: &Mir) -> (r: Result<(), RHDLError>)
        requires
            old(self).inv(),
            forall|i: int|
                0 <= i < mir.arguments@.len() ==> named(mir, #[trigger] mir.arguments@[i]) && lookup(mir.ty@, mir.arguments@[i])
                    is Some,
            named(mir, mir.return_slot),
            lookup(mir.ty@, mir.return_slot) is Some,
        ensures
            slots_kinded(*old(self)) ==> slots_kinded(*final(self)),
            final(self).inv(),
            final(self).type_ops@ == old(self).type_ops@,
            final(self).ctx.vars() == old(self).ctx.vars(),
            forall|s: Slot| old(self).known(s) ==> #[trigger] final(self).known(s),
            final(self).ctx.grows_from(old(self).ctx),
            forall|i: int|
                0 <= i < mir.arguments@.len() && !(mir.arguments@[i] is Empty) ==> final(self).known(#[trigger] mir.arguments@[i])
                    && final(self).tm(mir.arguments@[i]) == kind_term(lookup(mir.ty@, mir.arguments@[i])->Some_0@),
            !(mir.return_slot is Empty) ==> final(self).known(mir.return_slot) && final(self).tm(mir.return_slot) == kind_term(
                lookup(mir.ty@, mir.return_slot)->Some_0@,
            ),
            forall|s: Slot|
                !mir.arguments@.contains(s) && s != mir.return_slot ==> #[trigger] lookup(final(self).slot_map@, s) == lookup(
                    old(self).slot_map@,
                    s,
                ),
            r is Ok,
    {
        let mut i: usize = 0;
        let ghost s0 = *self;
        proof {
            UnifyContext::lemma_grows_refl(s0.ctx);
        }
        while i < mir.arguments.len()
            invariant
                i <= mir.arguments@.len(),
                forall|s: Slot| s0.known(s) ==> #[trigger] self.known(s),
                self.inv(),
                self.type_ops@ == s0.type_ops@,
                self.ctx.vars() == s0.ctx.vars(),
                s0.inv(),
                slots_kinded(s0) ==> slots_kinded(*self),
                self.ctx.grows_from(s0.ctx),
                forall|j: int|
                    0 <= j < i && !(mir.arguments@[j] is Empty) ==> self.known(#[trigger] mir.arguments@[j]) && self.tm(
                        mir.arguments@[j],
                    ) == kind_term(lookup(mir.ty@, mir.arguments@[j])->Some_0@),
                forall|s: Slot|
                    !mir.arguments@.take(i as int).contains(s) ==> #[trigger] lookup(self.slot_map@, s) == lookup(s0.slot_map@, s),
                forall|j: int|
                    0 <= j < mir.arguments@.len() ==> named(mir, #[trigger] mir.arguments@[j]) && lookup(mir.ty@, mir.arguments@[j])
                        is Some,
            decreases mir.arguments.len() - i,
        {
            let slot = mir.arguments[i];
            let id = Self::node_of(mir, slot);
            let j = find_slot(&mir.ty, slot).unwrap();
            let ghost sp = *self;
            let ty = self.ctx.from_kind(id, &mir.ty[j].1);
            proof {
                Self::lemma_grew(sp, *self);
                if slots_kinded(s0) {
                    Self::lemma_kinded_evolve(sp, *self);
                }
            }
            let ghost sq = *self;
            self.set_slot(slot, ty);
            proof {
                if slots_kinded(s0) {
                    Self::lemma_kinded_set(sq, *self, slot, ty, mir.ty@[j as int].1);
                }
                assert forall|s: Slot| s0.known(s) implies #[trigger] self.known(s) by {
                    assert(sp.known(s));
                    Self::keep_known(sp, sq, s);
                    if s != slot {
                        assert(lookup(self.slot_map@, s) == lookup(sq.slot_map@, s));
                    }
                }
                UnifyContext::lemma_grows_trans(s0.ctx, sp.ctx, sq.ctx);
                assert forall|k: int|
                    0 <= k < i + 1 && !(mir.arguments@[k] is Empty) implies self.known(#[trigger] mir.arguments@[k]) && self.tm(
                    mir.arguments@[k],
                ) == kind_term(lookup(mir.ty@, mir.arguments@[k])->Some_0@) by {
                    if mir.arguments@[k] == slot {
                        assert(lookup(self.slot_map@, slot) == Some(ty));
                    } else {
                        assert(sp.known(mir.arguments@[k]));
                        assert(lookup(self.slot_map@, mir.arguments@[k]) == lookup(sq.slot_map@, mir.arguments@[k]));
                        sq.ctx.lemma_grows_keeps_terms(sp.ctx, sp.sty(mir.arguments@[k]));
                    }
                }
                assert forall|s: Slot| !mir.arguments@.take(i + 1).contains(s) implies #[trigger] lookup(self.slot_map@, s)
                    == lookup(s0.slot_map@, s) by {
                    assert(mir.arguments@.take(i + 1)[i as int] == slot);
                    if mir.arguments@.take(i as int).contains(s) {
                        let w = choose|w: int| 0 <= w < i && mir.arguments@.take(i as int)[w] == s;
                        assert(mir.arguments@.take(i + 1)[w] == s);
                    }
                    assert(lookup(self.slot_map@, s) == lookup(sq.slot_map@, s));
                }
            }
            i += 1;
        }
        proof {
            assert(mir.arguments@.take(i as int) =~= mir.arguments@);
        }
        let id = Self::node_of(mir, mir.return_slot);
        let j = find_slot(&mir.ty, mir.return_slot).unwrap();
        let ghost sp = *self;
        let return_ty = self.ctx.from_kind(id, &mir.ty[j].1);
        proof {
            Self::lemma_grew(sp, *self);
            if slots_kinded(s0) {
                Self::lemma_kinded_evolve(sp, *self);
            }
        }
        let ghost sq = *self;
        self.set_slot(mir.return_slot, return_ty);
        proof {
            if slots_kinded(s0) {
                Self::lemma_kinded_set(sq, *self, mir.return_slot, return_ty, mir.ty@[j as int].1);
            }
            assert forall|s: Slot| s0.known(s) implies #[trigger] self.known(s) by {
                assert(sp.known(s));
                Self::keep_known(sp, sq, s);
                if s != mir.return_slot {
                    assert(lookup(self.slot_map@, s) == lookup(sq.slot_map@, s));
                }
            }
            UnifyContext::lemma_grows_trans(s0.ctx, sp.ctx, sq.ctx);
            assert forall|k: int|
                0 <= k < mir.arguments@.len() && !(mir.arguments@[k] is Empty) implies self.known(#[trigger] mir.arguments@[k])
                && self.tm(mir.arguments@[k]) == kind_term(lookup(mir.ty@, mir.arguments@[k])->Some_0@) by {
                if mir.arguments@[k] == mir.return_slot {
                    assert(lookup(self.slot_map@, mir.return_slot) == Some(return_ty));
                } else {
                    assert(sp.known(mir.arguments@[k]));
                    assert(lookup(self.slot_map@, mir.arguments@[k]) == lookup(sq.slot_map@, mir.arguments@[k]));
                    sq.ctx.lemma_grows_keeps_terms(sp.ctx, sp.sty(mir.arguments@[k]));
                }
            }
            assert(lookup(self.slot_map@, mir.return_slot) == Some(return_ty));
        }
        Ok(())
    }

    /// Gives each slot with a declared kind that kind.
    fn import_type_declarations(&mut self, mir: &Mir) -> (r: Result<(), RHDLError>)
        requires
            old(self).inv(),
            forall|i: int| 0 <= i < mir.ty@.len() ==> named(mir, (#[trigger] mir.ty@[i]).0),
            forall|i: int, j: int| 0 <= i < j < mir.ty@.len() ==> (#[trigger] mir.ty@[i]).0 != (#[trigger] mir.ty@[j]).0,
        ensures
            forall|x: Slot| #[trigger] lookup(final(self).slot_map@, x) is Some ==> lookup(old(self).slot_map@, x) is Some || exists|j: int| 0 <= j < mir.ty@.len() && (#[trigger] mir.ty@[j]).0 == x,
            slots_kinded(*old(self)) ==> slots_kinded(*final(self)),
            final(self).inv(),
            final(self).type_ops@ == old(self).type_ops@,
            final(self).ctx.vars() == old(self).ctx.vars(),
            forall|s: Slot| old(self).known(s) ==> #[trigger] final(self).known(s),
            forall|i: int|
                0 <= i < mir.ty@.len() ==> final(self).known((#[trigger] mir.ty@[i]).0) && (!(mir.ty@[i].0 is Empty)
                    ==> final(self).tm(mir.ty@[i].0) == kind_term(mir.ty@[i].1@)),
            r is Ok,
    {
        let ghost s0 = *self;
        let mut i: usize = 0;
        while i < mir.ty.len()
            invariant
                i <= mir.ty@.len(),
                self.inv(),
                self.type_ops@ == s0.type_ops@,
                s0.inv(),
                forall|x: Slot| #[trigger] lookup(self.slot_map@, x) is Some ==> lookup(s0.slot_map@, x) is Some || exists|j: int| 0 <= j < i && (#[trigger] mir.ty@[j]).0 == x,
                slots_kinded(s0) ==> slots_kinded(*self),
                self.ctx.vars() == s0.ctx.vars(),
                forall|j: int| 0 <= j < mir.ty@.len() ==> named(mir, (#[trigger] mir.ty@[j]).0),
                forall|a: int, b: int| 0 <= a < b < mir.ty@.len() ==> (#[trigger] mir.ty@[a]).0 != (#[trigger] mir.ty@[b]).0,
                forall|s: Slot| s0.known(s) ==> #[trigger] self.known(s),
                forall|j: int|
                    0 <= j < i ==> self.known((#[trigger] mir.ty@[j]).0) && (!(mir.ty@[j].0 is Empty) ==> self.tm(mir.ty@[j].0)
                        == kind_term(mir.ty@[j].1@)),
            decreases mir.ty.len() - i,
        {
            let slot = mir.ty[i].0;
            let id = Self::node_of(mir, slot);
            let ghost sp = *self;
            let ty = self.ctx.from_kind(id, &mir.ty[i].1);
            proof {
                Self::lemma_grew(sp, *self);
                if slots_kinded(s0) {
                    Self::lemma_kinded_evolve(sp, *self);
                }
                lemma_kind_term_ground(mir.ty@[i as int].1@);
                assert forall|j: int|
                    0 <= j < i implies self.known((#[trigger] mir.ty@[j]).0) && (!(mir.ty@[j].0 is Empty) ==> self.tm(mir.ty@[j].0)
                    == kind_term(mir.ty@[j].1@)) by {
                    lemma_kind_term_ground(mir.ty@[j].1@);
                    Self::keep_known(sp, *self, mir.ty@[j].0);
                    if !(mir.ty@[j].0 is Empty) {
                        Self::keep_ground_slot(sp, *self, mir.ty@[j].0);
                    }
                }
                assert forall|s: Slot| s0.known(s) implies #[trigger] self.known(s) by {
                    assert(sp.known(s));
                    Self::keep_known(sp, *self, s);
                }
            }
            let ghost sq = *self;
            self.set_slot(slot, ty);
            proof {
                if slots_kinded(s0) {
                    Self::lemma_kinded_set(sq, *self, slot, ty, mir.ty@[i as int].1);
                }
                assert forall|x: Slot| #[trigger] lookup(self.slot_map@, x) is Some implies lookup(s0.slot_map@, x) is Some || exists|j: int|
                    0 <= j < i + 1 && (#[trigger] mir.ty@[j]).0 == x by {
                    if x != slot {
                        assert(lookup(sq.slot_map@, x) is Some);
                    } else {
                        assert(mir.ty@[i as int].0 == x);
                    }
                }
                assert forall|j: int|
                    0 <= j < i + 1 implies self.known((#[trigger] mir.ty@[j]).0) && (!(mir.ty@[j].0 is Empty) ==> self.tm(mir.ty@[j].0)
                    == kind_term(mir.ty@[j].1@)) by {
                    if j < i {
                        assert(mir.ty@[j].0 != slot);
                        assert(lookup(self.slot_map@, mir.ty@[j].0) == lookup(sq.slot_map@, mir.ty@[j].0));
                    }
                }
                assert forall|s: Slot| s0.known(s) implies #[trigger] self.known(s) by {
                    assert(sq.known(s));
                    if s != slot {
                        assert(lookup(self.slot_map@, s) == lookup(sq.slot_map@, s));
                    }
                }
            }
            i += 1;
        }
        Ok(())
    }

    /// Makes the two slots of each listed equivalence have the same type.
    fn import_type_equality(&mut self, mir: &Mir) -> (r: Result<(), RHDLError>)
        requires
            old(self).inv(),
            forall|i: int|
                0 <= i < mir.ty_equate@.len() ==> named(mir, (#[trigger] mir.ty_equate@[i]).lhs) && named(mir, mir.ty_equate@[i].rhs),
            old(self).ctx.vars() + 2 * mir.ty_equate@.len() <= u32::MAX,
        ensures
            mir.ty_equate@.len() == 0 ==> r is Ok && *final(self) == *old(self),
            final(self).inv(),
            final(self).evolved_from(*old(self)),
            final(self).type_ops@ == old(self).type_ops@,
            final(self).ctx.vars() <= old(self).ctx.vars() + 2 * mir.ty_equate@.len(),
            r is Ok ==> forall|i: int|
                0 <= i < mir.ty_equate@.len() ==> final(self).known((#[trigger] mir.ty_equate@[i]).lhs) && final(self).known(
                    mir.ty_equate@[i].rhs,
                ) && final(self).tm(mir.ty_equate@[i].lhs) == final(self).tm(mir.ty_equate@[i].rhs),
    {
        let ghost s0 = *self;
        proof {
            Self::lemma_evolved_refl(s0);
        }
        let mut i: usize = 0;
        while i < mir.ty_equate.len()
            invariant
                i == 0 ==> *self == s0,
                i <= mir.ty_equate@.len(),
                s0 == *old(self),
                self.inv(),
                self.evolved_from(s0),
                self.type_ops@ == s0.type_ops@,
                self.ctx.vars() <= s0.ctx.vars() + 2 * i,
                s0.ctx.vars() + 2 * mir.ty_equate@.len() <= u32::MAX,
                forall|j: int|
                    0 <= j < mir.ty_equate@.len() ==> named(mir, (#[trigger] mir.ty_equate@[j]).lhs) && named(mir, mir.ty_equate@[j].rhs),
                forall|j: int|
                    0 <= j < i ==> self.known((#[trigger] mir.ty_equate@[j]).lhs) && self.known(mir.ty_equate@[j].rhs) && self.tm(
                        mir.ty_equate@[j].lhs,
                    ) == self.tm(mir.ty_equate@[j].rhs),
            decreases mir.ty_equate.len() - i,
        {
            let ghost sp = *self;
            let eq = mir.ty_equate[i];
            let lhs_ty = self.slot_ty(mir, eq.lhs);
            let ghost s1 = *self;
            let rhs_ty = self.slot_ty(mir, eq.rhs);
            let ghost s2 = *self;
            proof {
                Self::lemma_evolved_trans(sp, s1, s2);
                Self::keep_ts(s1, s2, lhs_ty, eq.lhs);
            }
            let res = self.unify(eq.id, lhs_ty, rhs_ty);
            proof {
                Self::lemma_evolved_trans(sp, s2, *self);
                Self::lemma_evolved_trans(s0, sp, *self);
            }
            res?;
            proof {
                Self::keep_ts(s2, *self, lhs_ty, eq.lhs);
                Self::keep_ts(s2, *self, rhs_ty, eq.rhs);
                assert forall|j: int|
                    0 <= j < i + 1 implies self.known((#[trigger] mir.ty_equate@[j]).lhs) && self.known(mir.ty_equate@[j].rhs)
                    && self.tm(mir.ty_equate@[j].lhs) == self.tm(mir.ty_equate@[j].rhs) by {
                    if j < i {
                        Self::keep_ss(sp, *self, mir.ty_equate@[j].lhs, mir.ty_equate@[j].rhs);
                    }
                }
            }
            i += 1;
        }
        Ok(())
    }

    /// Gives each integer literal whose length is still open a 128-bit type
    /// of open sign.
    fn default_literals_to_128(&mut self, mir: &Mir) -> (r: Result<(), RHDLError>)
        requires
            old(self).inv(),
            forall|i: int| 0 <= i < mir.literals@.len() ==> named(mir, (#[trigger] mir.literals@[i]).0),
            old(self).ctx.vars() + 2 * mir.literals@.len() <= u32::MAX,
        ensures
            mir.literals@.len() == 0 ==> r is Ok && *final(self) == *old(self),
            final(self).inv(),
            final(self).evolved_from(*old(self)),
            final(self).type_ops@ == old(self).type_ops@,
            final(self).ctx.vars() <= old(self).ctx.vars() + 2 * mir.literals@.len(),
    {
        let ghost s0 = *self;
        proof {
            Self::lemma_evolved_refl(s0);
        }
        let mut i: usize = 0;
        while i < mir.literals.len()
            invariant
                i == 0 ==> *self == s0,
                i <= mir.literals@.len(),
                s0 == *old(self),
                self.inv(),
                self.evolved_from(s0),
                self.type_ops@ == s0.type_ops@,
                self.ctx.vars() <= s0.ctx.vars() + 2 * i,
                s0.ctx.vars() + 2 * mir.literals@.len() <= u32::MAX,
                forall|j: int| 0 <= j < mir.literals@.len() ==> named(mir, (#[trigger] mir.literals@[j]).0),
            decreases mir.literals.len() - i,
        {
            let ghost sp = *self;
            let ty = self.slot_ty(mir, mir.literals[i].0);
            let ghost s1 = *self;
            let unsized_int = self.ctx.is_unsized_integer(ty);
            proof {
                Self::lemma_grew(s1, *self);
                Self::lemma_evolved_trans(sp, s1, *self);
                Self::lemma_evolved_trans(s0, sp, *self);
                Self::keep_node(s1, *self, ty);
            }
            if unsized_int {
                let ghost s2 = *self;
                let i128_len = self.ctx.ty_const_len(ty.id, 128);
                proof {
                    Self::lemma_grew(s2, *self);
                }
                let ghost s3 = *self;
                let m128_ty = self.ctx.ty_maybe_signed(ty.id, i128_len);
                proof {
                    Self::lemma_grew(s3, *self);
                    Self::lemma_evolved_trans(s2, s3, *self);
                    Self::lemma_evolved_trans(s0, s2, *self);
                    Self::keep_node(s2, *self, ty);
                }
                let ghost s4 = *self;
                let res = self.unify(ty.id, ty, m128_ty);
                proof {
                    Self::lemma_evolved_trans(s0, s4, *self);
                }
                res?;
            }
            i += 1;
        }
        Ok(())
    }

    /// Makes each literal whose sign is still open signed.
    fn default_literals_signed(&mut self, mir: &Mir) -> (r: Result<(), RHDLError>)
        requires
            old(self).inv(),
            forall|i: int| 0 <= i < mir.literals@.len() ==> named(mir, (#[trigger] mir.literals@[i]).0),
            old(self).ctx.vars() + mir.literals@.len() <= u32::MAX,
        ensures
            mir.literals@.len() == 0 ==> r is Ok && *final(self) == *old(self),
            final(self).inv(),
            final(self).evolved_from(*old(self)),
            final(self).type_ops@ == old(self).type_ops@,
            final(self).ctx.vars() <= old(self).ctx.vars() + mir.literals@.len(),
    {
        let ghost s0 = *self;
        proof {
            Self::lemma_evolved_refl(s0);
        }
        let mut i: usize = 0;
        while i < mir.literals.len()
            invariant
                i == 0 ==> *self == s0,
                i <= mir.literals@.len(),
                s0 == *old(self),
                self.inv(),
                self.evolved_from(s0),
                self.type_ops@ == s0.type_ops@,
                self.ctx.vars() <= s0.ctx.vars() + i,
                s0.ctx.vars() + mir.literals@.len() <= u32::MAX,
                forall|j: int| 0 <= j < mir.literals@.len() ==> named(mir, (#[trigger] mir.literals@[j]).0),
            decreases mir.literals.len() - i,
        {
            let ghost sp = *self;
            let ty = self.slot_ty(mir, mir.literals[i].0);
            let ghost s1 = *self;
            let flag = self.ctx.project_sign_flag(ty);
            proof {
                Self::lemma_grew(s1, *self);
                Self::lemma_evolved_trans(sp, s1, *self);
                Self::lemma_evolved_trans(s0, sp, *self);
            }
            if let Some(ty_sign) = flag {
                let ghost s2 = *self;
                let unresolved = self.ctx.is_unresolved(ty_sign);
                proof {
                    Self::lemma_grew(s2, *self);
                    Self::lemma_evolved_trans(s0, s2, *self);
                    Self::keep_node(s2, *self, ty_sign);
                }
                if unresolved {
                    let ghost s3 = *self;
                    let sign_flag = self.ctx.ty_sign_flag(ty.id, SignFlag::Signed);
                    proof {
                        Self::lemma_grew(s3, *self);
                        Self::lemma_evolved_trans(s0, s3, *self);
                        Self::keep_node(s3, *self, ty_sign);
                    }
                    let ghost s4 = *self;
                    let res = self.unify(ty.id, ty_sign, sign_flag);
                    proof {
                        Self::lemma_evolved_trans(s0, s4, *self);
                    }
                    res?;
                }
            }
            i += 1;
        }
        Ok(())
    }

    /// The kind of each register with a type, in a table indexed by register.
    fn register_kinds(&mut self) -> (r: Result<Vec<Option<Kind>>, RHDLError>)
        requires
            old(self).inv(),
            forall|i: int| 0 <= i < old(self).slot_map@.len() ==> term_kind(old(self).tt((#[trigger] old(self).slot_map@[i]).1)) is Ok,
        ensures
            (forall|j: int| 0 <= j < old(self).slot_map@.len() ==> (#[trigger] old(self).slot_map@[j]).0 != Slot::Register(RegisterId(usize::MAX))) ==> r is Ok,
            final(self).inv(),
            final(self).slot_map@ == old(self).slot_map@,
            final(self).type_ops@ == old(self).type_ops@,
            final(self).ctx.vars() == old(self).ctx.vars(),
            final(self).ctx.grows_from(old(self).ctx),
            match r {
                Ok(ks) => registers_inferred(*old(self), ks@),
                Err(e) => e == RHDLError::IntegerOutOfRange,
            },
    {
        let ghost s0 = *self;
        let mut n: usize = 0;
        let mut i: usize = 0;
        proof {
            UnifyContext::lemma_grows_refl(s0.ctx);
        }
        while i < self.slot_map.len()
            invariant
                i <= self.slot_map@.len(),
                *self == s0,
                s0.inv(),
                s0.ctx.grows_from(s0.ctx),
                forall|j: int|
                    0 <= j < i ==> ((#[trigger] self.slot_map@[j]).0 matches Slot::Register(r) ==> (r.0 as int) < n),
            decreases self.slot_map.len() - i,
        {
            if let Slot::Register(r) = self.slot_map[i].0 {
                if r.0 == usize::MAX {
                    return Err(RHDLError::IntegerOutOfRange);
                }
                if r.0 + 1 > n {
                    n = r.0 + 1;
                }
            }
            i += 1;
        }
        let mut ks: Vec<Option<Kind>> = Vec::new();
        while ks.len() < n
            invariant
                ks@.len() <= n,
                forall|j: int| 0 <= j < ks@.len() ==> (#[trigger] ks@[j]) is None,
            decreases n - ks@.len(),
        {
            ks.push(None);
        }
        let mut i: usize = 0;
        while i < self.slot_map.len()
            invariant
                i <= self.slot_map@.len(),
                s0.inv(),
                self.slot_map@ == s0.slot_map@,
                self.type_ops@ == s0.type_ops@,
                self.ctx.wf(),
                self.ctx.grows_from(s0.ctx),
                self.ctx.vars() == s0.ctx.vars(),
                ks@.len() == n,
                forall|j: int|
                    0 <= j < s0.slot_map@.len() ==> ((#[trigger] s0.slot_map@[j]).0 matches Slot::Register(r) ==> (r.0 as int) < n),
                forall|j: int| 0 <= j < s0.slot_map@.len() ==> term_kind(s0.tt((#[trigger] s0.slot_map@[j]).1)) is Ok,
                forall|j: int|
                    0 <= j < i ==> ((#[trigger] s0.slot_map@[j]).0 matches Slot::Register(r) ==> ks@[r.0 as int] matches Some(k)
                        && Ok::<KindView, UnifyError>(k@) == term_kind(s0.tt(s0.slot_map@[j].1))),
                forall|x: int|
                    0 <= x < ks@.len() && (#[trigger] ks@[x]) is Some ==> exists|j: int|
                        0 <= j < i && #[trigger] s0.slot_map@[j].0 == Slot::Register(RegisterId(x as usize)),
            decreases self.slot_map.len() - i,
        {
            let slot = self.slot_map[i].0;
            let t = self.slot_map[i].1;
            proof {
                assert(lookup(s0.slot_map@, slot) == Some(t)) by {
                    crate::compiler::mir::mir_impl::lemma_lookup_first(s0.slot_map@, slot, i as int);
                }
                assert(s0.ctx.has(t));
                self.ctx.lemma_grows_keeps_terms(s0.ctx, t);
            }
            if let Slot::Register(r) = slot {
                let ghost sp = self.ctx;
                let k = self.ctx.into_kind(t);
                proof {
                    UnifyContext::lemma_grows_trans(s0.ctx, sp, self.ctx);
                }
                match k {
                    Ok(k) => {
                        let ghost before = ks@;
                        ks.set(r.0, Some(k));
                        proof {
                            assert forall|j: int|
                                0 <= j < i + 1 implies ((#[trigger] s0.slot_map@[j]).0 matches Slot::Register(r2) ==> ks@[r2.0 as int] matches Some(k2)
                                && Ok::<KindView, UnifyError>(k2@) == term_kind(s0.tt(s0.slot_map@[j].1))) by {
                                if j < i {
                                    if let Slot::Register(r2) = s0.slot_map@[j].0 {
                                        assert(r2 != r);
                                    }
                                }
                            }
                            assert forall|x: int|
                                0 <= x < ks@.len() && (#[trigger] ks@[x]) is Some implies exists|j: int|
                                0 <= j < i + 1 && #[trigger] s0.slot_map@[j].0 == Slot::Register(RegisterId(x as usize)) by {
                                if x != r.0 as int {
                                    assert(before[x] is Some);
                                } else {
                                    assert(s0.slot_map@[i as int].0 == Slot::Register(RegisterId(x as usize)));
                                }
                            }
                        }
                    },
                    Err(_) => {
                        proof {
                            assert(false);
                        }
                        return Err(RHDLError::IntegerOutOfRange);
                    },
                }
            }
            i += 1;
        }
        proof {
            assert forall|r: usize|
                #[trigger] lookup(s0.slot_map@, Slot::Register(RegisterId(r))) is Some implies (r as int) < ks@.len()
                && (ks@[r as int] matches Some(k) && Ok::<KindView, UnifyError>(k@) == term_kind(s0.tm(Slot::Register(RegisterId(r))))) by {
                crate::compiler::mir::mir_impl::lemma_lookup_some(s0.slot_map@, Slot::Register(RegisterId(r)));
                let j = choose|j: int|
                    crate::compiler::mir::mir_impl::first_at(s0.slot_map@, Slot::Register(RegisterId(r)), j) && s0.slot_map@[j].1
                        == lookup(s0.slot_map@, Slot::Register(RegisterId(r)))->Some_0;
                assert(s0.slot_map@[j].0 == Slot::Register(RegisterId(r)));
            }
            assert forall|x: int| 0 <= x < ks@.len() && (#[trigger] ks@[x]) is Some implies lookup(
                s0.slot_map@,
                Slot::Register(RegisterId(x as usize)),
            ) is Some by {
                let j = choose|j: int| 0 <= j < s0.slot_map@.len() && #[trigger] s0.slot_map@[j].0 == Slot::Register(RegisterId(x as usize));
                crate::compiler::mir::mir_impl::lemma_lookup_first(s0.slot_map@, s0.slot_map@[j].0, j);
            }
            assert forall|s: Slot| #[trigger] lookup(self.slot_map@, s) is Some implies self.ctx.has(self.sty(s)) by {
                self.ctx.lemma_grows_keeps_terms(s0.ctx, s0.sty(s));
            }
            assert forall|k: int, j: int|
                0 <= k < self.type_ops@.len() && 0 <= j < type_op_ids(self.type_ops@[k].kind).len() implies self.ctx.has(
                #[trigger] type_op_ids(self.type_ops@[k].kind)[j],
            ) by {
                self.ctx.lemma_grows_keeps_terms(s0.ctx, type_op_ids(s0.type_ops@[k].kind)[j]);
            }
        }
        Ok(ks)
    }

    /// The value of each literal in the kind inferred for it, in a table
    /// indexed by literal.
    fn literal_values(&mut self, literals: Vec<(Slot, ExprLit)>) -> (r: Result<Vec<Option<TypedBits>>, RHDLError>)
        requires
            old(self).inv(),
            forall|i: int| 0 <= i < literals@.len() ==> (#[trigger] literals@[i]).0 is Literal && old(self).known(literals@[i].0),
            forall|i: int, j: int| 0 <= i < j < literals@.len() ==> (#[trigger] literals@[i]).0 != (#[trigger] literals@[j]).0,
            forall|i: int| 0 <= i < old(self).slot_map@.len() ==> term_kind(old(self).tt((#[trigger] old(self).slot_map@[i]).1)) is Ok,
        ensures
            literals@.len() == 0 ==> r is Ok,
            final(self).inv(),
            final(self).slot_map@ == old(self).slot_map@,
            final(self).type_ops@ == old(self).type_ops@,
            final(self).ctx.vars() == old(self).ctx.vars(),
            final(self).ctx.grows_from(old(self).ctx),
            r matches Ok(ls) ==> literals_inferred(literals@, *old(self), ls@),
    {
        let ghost s0 = *self;
        let ghost lits = literals@;
        proof {
            UnifyContext::lemma_grows_refl(s0.ctx);
        }
        let mut n: usize = 0;
        let mut i: usize = 0;
        while i < literals.len()
            invariant
                i <= literals@.len(),
                lits == literals@,
                *self == s0,
                s0 == *old(self),
                s0.inv(),
                s0.ctx.grows_from(s0.ctx),
                forall|j: int| 0 <= j < literals@.len() ==> (#[trigger] literals@[j]).0 is Literal,
                forall|j: int| 0 <= j < i ==> ((#[trigger] literals@[j]).0->Literal_0.0 as int) < n,
            decreases literals.len() - i,
        {
            if let Slot::Literal(l) = literals[i].0 {
                if l.0 == usize::MAX {
                    return Err(RHDLError::IntegerOutOfRange);
                }
                if l.0 + 1 > n {
                    n = l.0 + 1;
                }
            }
            i += 1;
        }
        let count = literals.len();
        let mut rest = reversed(literals);
        proof {
            assert(lits.subrange(0, lits.len() as int) =~= lits);
        }
        let mut vals: Vec<(usize, TypedBits)> = Vec::new();
        let mut i: usize = 0;
        while rest.len() > 0
            invariant
                i <= lits.len(),
                count == lits.len(),
                rest@ == lits.subrange(i as int, lits.len() as int).reverse(),
                rest@.len() == lits.len() - i,
                lits == literals@,
                vals@.len() == i,
                s0 == *old(self),
                s0.inv(),
                self.inv(),
                forall|j: int| 0 <= j < lits.len() ==> ((#[trigger] lits[j]).0->Literal_0.0 as int) < n,
                forall|a: int, b: int| 0 <= a < b < lits.len() ==> (#[trigger] lits[a]).0 != (#[trigger] lits[b]).0,
                self.slot_map@ == s0.slot_map@,
                self.type_ops@ == s0.type_ops@,
                self.ctx.wf(),
                self.ctx.grows_from(s0.ctx),
                self.ctx.vars() == s0.ctx.vars(),
                forall|j: int| 0 <= j < lits.len() ==> (#[trigger] lits[j]).0 is Literal && s0.known(lits[j].0),
                forall|j: int| 0 <= j < s0.slot_map@.len() ==> term_kind(s0.tt((#[trigger] s0.slot_map@[j]).1)) is Ok,
                forall|j: int|
                    0 <= j < i ==> (#[trigger] vals@[j]).0 == lits[j].0->Literal_0.0 && Some(vals@[j].1@) == literal_value(
                        lits[j].1,
                        term_kind(s0.tm(lits[j].0))->Ok_0,
                    ),
            decreases rest.len(),
        {
            proof {
                assert(rest@.last() == lits[i as int]);
                assert(rest@.drop_last() =~= lits.subrange(i + 1, lits.len() as int).reverse());
            }
            let (slot, lit) = rest.pop().unwrap();
            let l = match slot {
                Slot::Literal(l) => l,
                _ => {
                    return Err(RHDLError::IntegerOutOfRange);
                },
            };
            let j = find_slot(&self.slot_map, slot).unwrap();
            let t = self.slot_map[j].1;
            proof {
                assert(s0.ctx.has(t));
                self.ctx.lemma_grows_keeps_terms(s0.ctx, t);
                assert(term_kind(s0.tt(s0.slot_map@[j as int].1)) is Ok);
            }
            let ghost sp = self.ctx;
            let ghost spp = *self;
            let value = literal_in_kind(&mut self.ctx, lit, t);
            proof {
                UnifyContext::lemma_grows_trans(s0.ctx, sp, self.ctx);
                Self::lemma_grew(spp, *self);
            }
            let value = value?;
            vals.push((l.0, value));
            i += 1;
        }
        proof {
            assert forall|a: int, b: int| 0 <= a < b < vals@.len() implies (#[trigger] vals@[a]).0 != (#[trigger] vals@[b]).0 by {
                assert(lits[a].0 != lits[b].0);
            }
        }
        let ghost vs = vals@;
        let ls = literal_table(vals, n);
        proof {
            assert forall|i: int| 0 <= i < lits.len() implies ((#[trigger] lits[i]).0->Literal_0.0 as int) < ls@.len() && (
            ls@[lits[i].0->Literal_0.0 as int] matches Some(v) && Some(v@) == literal_value(
                lits[i].1,
                term_kind(s0.tm(lits[i].0))->Ok_0,
            )) by {
                assert(vs[i].0 == lits[i].0->Literal_0.0);
                assert(ls@[vs[i].0 as int] == Some(vs[i].1));
            }
            assert forall|x: int|
                0 <= x < ls@.len() && (#[trigger] ls@[x]) is Some implies exists|j: int|
                0 <= j < lits.len() && #[trigger] lits[j].0 == Slot::Literal(LiteralId(x as usize)) by {
                let j = choose|j: int| 0 <= j < vs.len() && vs[j].0 == x;
                assert(lits[j].0 == Slot::Literal(LiteralId(x as usize)));
            }
            assert forall|s: Slot| #[trigger] lookup(self.slot_map@, s) is Some implies self.ctx.has(self.sty(s)) by {
                self.ctx.lemma_grows_keeps_terms(s0.ctx, s0.sty(s));
            }
            assert forall|k: int, j: int|
                0 <= k < self.type_ops@.len() && 0 <= j < type_op_ids(self.type_ops@[k].kind).len() implies self.ctx.has(
                #[trigger] type_op_ids(self.type_ops@[k].kind)[j],
            ) by {
                self.ctx.lemma_grows_keeps_terms(s0.ctx, type_op_ids(s0.type_ops@[k].kind)[j]);
            }
        }
        Ok(ls)
    }

    /// The opcodes with the inferred kind written into each wrap.
    fn fill_wrap_kinds(&mut self, ops: Vec<LocatedOpCode>) -> (r: Result<Vec<LocatedOpCode>, RHDLError>)
        requires
            old(self).inv(),
            forall|i: int|
                0 <= i < ops@.len() ==> ((#[trigger] ops@[i]).op matches OpCode::Wrap(w) ==> !(w.lhs is Empty) && old(self).known(w.lhs)),
            forall|i: int| 0 <= i < old(self).slot_map@.len() ==> term_kind(old(self).tt((#[trigger] old(self).slot_map@[i]).1)) is Ok,
        ensures
            (forall|i: int| 0 <= i < ops@.len() ==> !((#[trigger] ops@[i]).op is Wrap)) ==> r is Ok,
            final(self).inv(),
            final(self).slot_map@ == old(self).slot_map@,
            final(self).type_ops@ == old(self).type_ops@,
            final(self).ctx.vars() == old(self).ctx.vars(),
            final(self).ctx.grows_from(old(self).ctx),
            r matches Ok(out) ==> wraps_inferred(ops@, *old(self), out@),
    {
        let ghost s0 = *self;
        let ghost input = ops@;
        let count = ops.len();
        proof {
            UnifyContext::lemma_grows_refl(s0.ctx);
            assert(input.subrange(0, input.len() as int) =~= input);
        }
        let mut rest = reversed(ops);
        let mut out: Vec<LocatedOpCode> = Vec::new();
        let mut i: usize = 0;
        while rest.len() > 0
            invariant
                i <= input.len(),
                count == input.len(),
                out@.len() == i,
                rest@ == input.subrange(i as int, input.len() as int).reverse(),
                s0.inv(),
                self.slot_map@ == s0.slot_map@,
                self.type_ops@ == s0.type_ops@,
                self.ctx.wf(),
                self.ctx.grows_from(s0.ctx),
                self.ctx.vars() == s0.ctx.vars(),
                forall|j: int|
                    0 <= j < input.len() ==> ((#[trigger] input[j]).op matches OpCode::Wrap(w) ==> !(w.lhs is Empty) && s0.known(w.lhs)),
                forall|j: int| 0 <= j < s0.slot_map@.len() ==> term_kind(s0.tt((#[trigger] s0.slot_map@[j]).1)) is Ok,
                forall|j: int|
                    0 <= j < i ==> (#[trigger] out@[j]).id == input[j].id && match input[j].op {
                        OpCode::Wrap(w) => (out@[j].op matches OpCode::Wrap(w2) && w2.lhs == w.lhs && w2.op == w.op && w2.arg == w.arg && (w2.kind matches Some(k) && Ok::<KindView, UnifyError>(k@) == term_kind(s0.tm(w.lhs)))),
                        _ => out@[j].op == input[j].op,
                    },
            decreases rest.len(),
        {
            proof {
                assert(rest@.last() == input[i as int]);
                assert(rest@.drop_last() =~= input.subrange(i + 1, input.len() as int).reverse());
            }
            let lop = rest.pop().unwrap();
            let LocatedOpCode { op, id } = lop;
            let op2 = match op {
                OpCode::Wrap(w) => {
                    let j = find_slot(&self.slot_map, w.lhs).unwrap();
                    let t = self.slot_map[j].1;
                    proof {
                        assert(s0.ctx.has(t));
                        self.ctx.lemma_grows_keeps_terms(s0.ctx, t);
                        assert(term_kind(s0.tt(s0.slot_map@[j as int].1)) is Ok);
                    }
                    let ghost sp = self.ctx;
                    let k = self.ctx.into_kind(t);
                    proof {
                        UnifyContext::lemma_grows_trans(s0.ctx, sp, self.ctx);
                    }
                    match k {
                        Ok(k) => OpCode::Wrap(Wrap { lhs: w.lhs, op: w.op, arg: w.arg, kind: Some(k) }),
                        Err(cause) => {
                            proof {
                                assert(input[i as int].op is Wrap);
                            }
                            return Err(RHDLError::TypeInference { cause });
                        },
                    }
                },
                other => other,
            };
            out.push(LocatedOpCode { op: op2, id });
            i += 1;
        }
        proof {
            assert forall|s: Slot| #[trigger] lookup(self.slot_map@, s) is Some implies self.ctx.has(self.sty(s)) by {
                self.ctx.lemma_grows_keeps_terms(s0.ctx, s0.sty(s));
            }
            assert forall|k: int, j: int|
                0 <= k < self.type_ops@.len() && 0 <= j < type_op_ids(self.type_ops@[k].kind).len() implies self.ctx.has(
                #[trigger] type_op_ids(self.type_ops@[k].kind)[j],
            ) by {
                self.ctx.lemma_grows_keeps_terms(s0.ctx, type_op_ids(s0.type_ops@[k].kind)[j]);
            }
        }
        Ok(out)
    }

    /// States with the same slots and a grown context give the same terms.
    proof fn lemma_same_terms(a: MirTypeInference, b: MirTypeInference)
        requires
            a.inv(),
            b.ctx.grows_from(a.ctx),
            b.slot_map@ == a.slot_map@,
        ensures
            forall|s: Slot| a.known(s) ==> #[trigger] b.tm(s) == a.tm(s),
            forall|s: Slot| #[trigger] a.known(s) ==> b.known(s),
            forall|i: int| 0 <= i < a.slot_map@.len() ==> #[trigger] b.tt(b.slot_map@[i].1) == a.tt(a.slot_map@[i].1),
    {
        assert forall|i: int| 0 <= i < a.slot_map@.len() implies #[trigger] b.tt(b.slot_map@[i].1) == a.tt(a.slot_map@[i].1) by {
            crate::compiler::mir::mir_impl::lemma_lookup_first(a.slot_map@, a.slot_map@[i].0, i);
            b.ctx.lemma_grows_keeps_terms(a.ctx, a.slot_map@[i].1);
        }
        assert forall|s: Slot| a.known(s) implies #[trigger] b.tm(s) == a.tm(s) by {
            if !(s is Empty) {
                assert(lookup(a.slot_map@, s) is Some);
                b.ctx.lemma_grows_keeps_terms(a.ctx, a.sty(s));
            }
        }
    }

    proof fn lemma_literals_transfer(lits: Seq<(Slot, ExprLit)>, a: MirTypeInference, b: MirTypeInference, ls: Seq<Option<TypedBits>>)
        requires
            a.inv(),
            b.ctx.grows_from(a.ctx),
            b.slot_map@ == a.slot_map@,
            forall|i: int| 0 <= i < lits.len() ==> a.known((#[trigger] lits[i]).0),
            literals_inferred(lits, b, ls),
        ensures
            literals_inferred(lits, a, ls),
    {
        Self::lemma_same_terms(a, b);
        assert forall|i: int| 0 <= i < lits.len() implies ((#[trigger] lits[i]).0->Literal_0.0 as int) < ls.len() && (
        ls[lits[i].0->Literal_0.0 as int] matches Some(v) && Some(v@) == literal_value(lits[i].1, term_kind(a.tm(lits[i].0))->Ok_0)) by {
            assert(a.known(lits[i].0));
            assert(b.tm(lits[i].0) == a.tm(lits[i].0));
        }
    }

    proof fn lemma_wraps_transfer(ops: Seq<LocatedOpCode>, a: MirTypeInference, b: MirTypeInference, out: Seq<LocatedOpCode>)
        requires
            a.inv(),
            b.ctx.grows_from(a.ctx),
            b.slot_map@ == a.slot_map@,
            forall|i: int| 0 <= i < ops.len() ==> ((#[trigger] ops[i]).op matches OpCode::Wrap(w) ==> a.known(w.lhs)),
            wraps_inferred(ops, b, out),
        ensures
            wraps_inferred(ops, a, out),
    {
        Self::lemma_same_terms(a, b);
        assert forall|i: int| 0 <= i < ops.len() implies (#[trigger] out[i]).id == ops[i].id && match ops[i].op {
            OpCode::Wrap(w) => (out[i].op matches OpCode::Wrap(w2) && w2.lhs == w.lhs && w2.op == w.op && w2.arg == w.arg && (w2.kind matches Some(k) && Ok::<KindView, UnifyError>(k@) == term_kind(a.tm(w.lhs)))),
            _ => out[i].op == ops[i].op,
        } by {
            if let OpCode::Wrap(w) = ops[i].op {
                assert(a.known(w.lhs));
                assert(b.tm(w.lhs) == a.tm(w.lhs));
            }
        }
    }

    /// Infers a type for every slot: the literals are typed and declared
    /// kinds imported, each opcode's rule is applied (twice, as later rules
    /// can settle earlier ones), the deferred rules are applied, literals
    /// whose size is still open become 128 bits and then signed, with the
    /// deferred rules applied again after each step. An error names a slot
    /// whose type is still open at the end.
    #[verifier::rlimit(40)]
    pub fn infer_types(&mut self, mir: &Mir) -> (r: Result<(), RHDLError>)
        requires
            old(self).inv(),
            old(self).slot_map@.len() == 0,
            old(self).type_ops@.len() == 0,
            old(self).ctx.vars() == 0,
            infer_ready(mir),
        ensures
            final(self).inv(),
            r is Ok ==> types_inferred(mir, *final(self)),
            declared_ops(mir) && mir.literals@.len() == 0 && mir.ty_equate@.len() == 0 ==> r is Ok && keys_declared(
                mir,
                *final(self),
            ),
    {
        proof {
            lemma_ops_budget_prefix(mir.ops@, 0);
        }
        self.import_literals(mir);
        let ghost a1 = *self;
        self.import_signature(mir)?;
        let ghost a2 = *self;
        self.import_type_equality(mir)?;
        let ghost a3 = *self;
        proof {
            assert forall|i: int| 0 <= i < mir.literals@.len() implies a3.known((#[trigger] mir.literals@[i]).0) by {
                assert(a1.known(mir.literals@[i].0));
                assert(a2.known(mir.literals@[i].0));
                MirTypeInference::keep_known(a2, a3, mir.literals@[i].0);
            }
        }
        self.import_type_declarations(mir)?;
        let ghost s_decl = *self;
        proof {
            assert forall|i: int| 0 <= i < mir.literals@.len() implies s_decl.known((#[trigger] mir.literals@[i]).0) by {
                assert(a3.known(mir.literals@[i].0));
            }
            assert(s_decl.type_ops@.len() == 0);
            assert(type_ops_budget(s_decl.type_ops@) == 0);
            assert(s_decl.paths_named(mir));
            if declared_ops(mir) && mir.literals@.len() == 0 && mir.ty_equate@.len() == 0 {
                assert forall|x: Slot| #[trigger] lookup(a2.slot_map@, x) is Some implies declared_slot(mir, x) by {
                    if !mir.arguments@.contains(x) && x != mir.return_slot {
                        assert(lookup(a1.slot_map@, x) == lookup(a2.slot_map@, x));
                    }
                }
                assert forall|x: Slot| #[trigger] lookup(s_decl.slot_map@, x) is Some implies declared_slot(mir, x) by {
                    if lookup(a3.slot_map@, x) is None {
                        let j = choose|j: int| 0 <= j < mir.ty@.len() && (#[trigger] mir.ty@[j]).0 == x;
                        assert(mir.ty@[j].0 == x);
                    }
                }
                Self::lemma_declared_start(mir, s_decl);
            }
        }
        self.process_ops(mir)?;
        let ghost s_first = *self;
        proof {
            if declared_ops(mir) && mir.literals@.len() == 0 && mir.ty_equate@.len() == 0 {
                assert forall|x: Slot| #[trigger] lookup(s_first.slot_map@, x) is Some && !(x is Empty) implies lookup(mir.ty@, x) is Some
                    && s_first.tm(x) == kind_term(lookup(mir.ty@, x)->Some_0@) by {
                    assert(lookup(s_decl.slot_map@, x) is Some);
                    lemma_kind_term_ground(lookup(mir.ty@, x)->Some_0@);
                    MirTypeInference::keep_ground_slot(s_decl, s_first, x);
                }
                Self::lemma_declared_typable(mir, s_first);
                assert(ops_solvable(s_first, mir.ops@));
                assert forall|i: int| 0 <= i < mir.ops@.len() implies copy_between_known(s_first, #[trigger] mir.ops@[i].op) by {
                    assert(copy_between_known(s_decl, mir.ops@[i].op));
                }
            }
        }
        self.process_ops(mir)?;
        let ghost s_ops = *self;
        proof {
            MirTypeInference::lemma_evolved_trans(s_decl, s_first, s_ops);
            if declared_ops(mir) && mir.literals@.len() == 0 && mir.ty_equate@.len() == 0 {
                Self::lemma_declared_rules_met(mir, s_decl, s_first, s_ops);
            }
        }
        self.try_type_ops(mir, 5)?;
        let ghost t1 = *self;
        let resolved = self.all_slots_resolved();
        let ghost t2 = *self;
        if !resolved {
            self.default_literals_to_128(mir)?;
        } else {
            proof {
                MirTypeInference::lemma_evolved_refl(t2);
            }
        }
        let ghost t3 = *self;
        proof {
            if declared_ops(mir) && mir.literals@.len() == 0 && mir.ty_equate@.len() == 0 {
                Self::lemma_rules_met_kept(s_ops, t1);
                Self::lemma_rules_met_kept(t1, t2);
                assert(t3 == t2);
            }
        }
        self.try_type_ops(mir, 5)?;
        let ghost t4 = *self;
        let resolved = self.all_slots_resolved();
        let ghost t5 = *self;
        if !resolved {
            self.default_literals_signed(mir)?;
        } else {
            proof {
                MirTypeInference::lemma_evolved_refl(t5);
            }
        }
        let ghost t6 = *self;
        proof {
            if declared_ops(mir) && mir.literals@.len() == 0 && mir.ty_equate@.len() == 0 {
                Self::lemma_rules_met_kept(t3, t4);
                Self::lemma_rules_met_kept(t4, t5);
                assert(t6 == t5);
            }
        }
        self.try_type_ops(mir, 5)?;
        let ghost t7 = *self;
        proof {
            if declared_ops(mir) && mir.literals@.len() == 0 && mir.ty_equate@.len() == 0 {
                assert(slots_kinded(a1));
                assert(slots_kinded(a2));
                assert(slots_kinded(s_decl));
                MirTypeInference::lemma_evolved_trans(s_decl, s_first, s_ops);
                Self::lemma_kinded_evolve(s_decl, s_ops);
                Self::lemma_kinded_evolve(s_ops, t1);
                Self::lemma_kinded_evolve(t1, t2);
                assert(t3 == t2);
                Self::lemma_kinded_evolve(t3, t4);
                Self::lemma_kinded_evolve(t4, t5);
                assert(t6 == t5);
                Self::lemma_kinded_evolve(t6, t7);
                Self::lemma_kinded_entries(t7);
                assert forall|x: Slot| #[trigger] lookup(a2.slot_map@, x) is Some implies declared_slot(mir, x) by {
                    if !mir.arguments@.contains(x) && x != mir.return_slot {
                        assert(lookup(a1.slot_map@, x) == lookup(a2.slot_map@, x));
                    }
                }
                assert forall|x: Slot| #[trigger] lookup(s_decl.slot_map@, x) is Some implies declared_slot(mir, x) by {
                    if lookup(a3.slot_map@, x) is None {
                        let j = choose|j: int| 0 <= j < mir.ty@.len() && (#[trigger] mir.ty@[j]).0 == x;
                        assert(mir.ty@[j].0 == x);
                    }
                }
                assert(keys_declared(mir, t7));
            }
        }
        if let Some(ty) = self.unresolved_slot_typeid() {
            return Err(RHDLError::TypeCheck { cause: TypeCheck::UnableToDetermineType, id: ty.id });
        }
        proof {
            let st = *self;
            MirTypeInference::lemma_evolved_trans(s_ops, t1, t2);
            MirTypeInference::lemma_evolved_trans(s_ops, t2, t3);
            MirTypeInference::lemma_evolved_trans(s_ops, t3, t4);
            MirTypeInference::lemma_evolved_trans(s_ops, t4, t5);
            MirTypeInference::lemma_evolved_trans(s_ops, t5, t6);
            MirTypeInference::lemma_evolved_trans(s_ops, t6, t7);
            MirTypeInference::lemma_evolved_trans(s_ops, t7, st);
            MirTypeInference::lemma_evolved_trans(s_decl, s_ops, st);
            assert forall|i: int| 0 <= i < mir.ops@.len() implies st.op_holds(mir, #[trigger] mir.ops@[i]) by {
                MirTypeInference::keep_op_holds(s_ops, st, mir, mir.ops@[i]);
            }
            assert forall|i: int|
                0 <= i < mir.ty@.len() && !((#[trigger] mir.ty@[i]).0 is Empty) implies st.tm(mir.ty@[i].0) == kind_term(mir.ty@[i].1@) by {
                lemma_kind_term_ground(mir.ty@[i].1@);
                MirTypeInference::keep_ground_slot(s_decl, st, mir.ty@[i].0);
            }
            assert forall|i: int| 0 <= i < mir.literals@.len() implies st.known((#[trigger] mir.literals@[i]).0) by {
                MirTypeInference::keep_known(s_decl, st, mir.literals@[i].0);
            }
            assert forall|i: int| 0 <= i < mir.ty@.len() implies st.known((#[trigger] mir.ty@[i]).0) by {
                MirTypeInference::keep_known(s_decl, st, mir.ty@[i].0);
            }
            assert forall|i: int| 0 <= i < st.slot_map@.len() implies term_kind(st.tt((#[trigger] st.slot_map@[i]).1)) is Ok by {
                assert(term_kind(t7.tt(t7.slot_map@[i].1)) is Ok);
                assert(t7.ctx.has(t7.slot_map@[i].1)) by {
                    crate::compiler::mir::mir_impl::lemma_lookup_first(t7.slot_map@, t7.slot_map@[i].0, i);
                }
            }
        }
        Ok(())
    }
}

/// Infers the type of every slot of a function and gives back the function
/// in the intermediate form, with each register's kind, each literal's value
/// in its kind and each wrap's kind recorded (see `infer_types`).
pub fn infer(mir: Mir) -> (r: Result<Object, RHDLError>)
    requires
        infer_ready(&mir),
    ensures
        r matches Ok(obj) ==> exists|st: MirTypeInference| inferred(&mir, st, obj),
        declared_program(&mir) ==> r is Ok,
{
    let ghost m = mir;
    let mut infer = MirTypeInference::new();
    infer.infer_types(&mir)?;
    let ghost st = infer;
    proof {
        assert forall|i: int| 0 <= i < mir.ops@.len() implies ((#[trigger] mir.ops@[i]).op matches OpCode::Wrap(w) ==> st.known(w.lhs)) by {
            assert(st.op_holds(&mir, mir.ops@[i]));
        }
    }
    proof {
        if declared_program(&mir) {
            assert forall|j: int| 0 <= j < st.slot_map@.len() implies (#[trigger] st.slot_map@[j]).0 != Slot::Register(
                RegisterId(usize::MAX),
            ) by {
                let x = st.slot_map@[j].0;
                assert forall|k: int| 0 <= k < j implies (#[trigger] st.slot_map@[k]).0 != x by {
                    assert(st.slot_map@[k].0 != st.slot_map@[j].0);
                }
                assert(first_at(st.slot_map@, x, j));
                lemma_lookup_first(st.slot_map@, x, j);
                assert(lookup(st.slot_map@, x) is Some);
                assert(declared_slot(&mir, x));
            }
        }
    }
    let kind = infer.register_kinds()?;
    let ghost st2 = infer;
    let Mir { ops, literals, ty: _, ty_equate: _, stash, return_slot, arguments, fn_id, name, symbols } = mir;
    proof {
        MirTypeInference::lemma_same_terms(st, st2);
    }
    let lits = infer.literal_values(literals)?;
    let ghost st3 = infer;
    proof {
        UnifyContext::lemma_grows_trans(st.ctx, st2.ctx, st3.ctx);
        MirTypeInference::lemma_literals_transfer(m.literals@, st, st2, lits@);
        MirTypeInference::lemma_same_terms(st, st3);
    }
    let ops = infer.fill_wrap_kinds(ops)?;
    proof {
        MirTypeInference::lemma_wraps_transfer(m.ops@, st, st3, ops@);
    }
    let arguments = argument_registers(&arguments);
    let externals = stash_objects(stash);
    let register_names = no_names(kind.len());
    let obj = Object { literals: lits, kind, register_names, ops, arguments, return_slot, externals, name, fn_id, symbols };
    proof {
        assert(types_inferred(&m, st));
        assert(registers_inferred(st, obj.kind@));
        assert(literals_inferred(m.literals@, st, obj.literals@));
        assert(wraps_inferred(m.ops@, st, obj.ops@));
        assert(obj.register_names@.len() == obj.kind@.len());
        assert(obj.arguments@.len() == m.arguments@.len());
        assert(obj.externals@.len() == m.stash@.len());
        assert(obj.name == m.name);
        assert(inferred(&m, st, obj));
    }
    Ok(obj)
}

/// A copy between registers gives both the same kind.
pub proof fn lemma_copy_keeps_kind(mir: &Mir, st: MirTypeInference, obj: Object, i: int)
    requires
        inferred(mir, st, obj),
        0 <= i < mir.ops@.len(),
        mir.ops@[i].op matches OpCode::Assign(a) && a.lhs is Register && a.rhs is Register,
    ensures
        mir.ops@[i].op matches OpCode::Assign(a) && obj.kind@[a.lhs->Register_0.0 as int] matches Some(k1)
            && obj.kind@[a.rhs->Register_0.0 as int] matches Some(k2) && k1@ == k2@,
{
    assert(st.op_holds(mir, mir.ops@[i]));
    if let OpCode::Assign(a) = mir.ops@[i].op {
        assert(lookup(st.slot_map@, Slot::Register(RegisterId(a.lhs->Register_0.0))) is Some);
        assert(lookup(st.slot_map@, Slot::Register(RegisterId(a.rhs->Register_0.0))) is Some);
    }
}

/// A register with a declared kind gets that kind.
pub proof fn lemma_declared_kind_kept(mir: &Mir, st: MirTypeInference, obj: Object, i: int)
    requires
        inferred(mir, st, obj),
        0 <= i < mir.ty@.len(),
        mir.ty@[i].0 is Register,
    ensures
        obj.kind@[mir.ty@[i].0->Register_0.0 as int] matches Some(k) && k@ == mir.ty@[i].1@,
{
    let r = mir.ty@[i].0->Register_0.0;
    assert(lookup(st.slot_map@, Slot::Register(RegisterId(r))) is Some);
    assert(st.tm(mir.ty@[i].0) == kind_term(mir.ty@[i].1@));
    crate::compiler::mir::ty::lemma_kind_term_round_trip(mir.ty@[i].1);
}

/// A struct built from a template gets the template's kind.
pub proof fn lemma_struct_gets_template_kind(mir: &Mir, st: MirTypeInference, obj: Object, i: int)
    requires
        inferred(mir, st, obj),
        0 <= i < mir.ops@.len(),
        mir.ops@[i].op matches OpCode::Struct(x) && x.lhs is Register,
    ensures
        mir.ops@[i].op matches OpCode::Struct(x) && obj.kind@[x.lhs->Register_0.0 as int] matches Some(k) && k@
            == x.template.kind@,
{
    assert(st.op_holds(mir, mir.ops@[i]));
    if let OpCode::Struct(x) = mir.ops@[i].op {
        assert(lookup(st.slot_map@, Slot::Register(RegisterId(x.lhs->Register_0.0))) is Some);
        crate::compiler::mir::ty::lemma_kind_term_round_trip(x.template.kind);
    }
}

} // verus!
