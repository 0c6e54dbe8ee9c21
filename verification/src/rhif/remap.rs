use vstd::prelude::*;

use crate::rhif::spec::{
    Array, Case, CaseArgument, Exec, FieldValue, Index, OpCode, Slot, Splice, Struct, Tuple, Wrap,
    rename_slot, Assign,
};
use crate::types::kind::{clone_kind, Kind, KindView};
use crate::types::path::{path_dynamic_slots, Path, PathElement, PathElementView};

verus! {

/// The slot an opcode writes (`Empty` for opcodes that write nothing).
pub open spec fn op_lhs(op: OpCode) -> Slot {
    match op {
        OpCode::Noop => Slot::Empty,
        OpCode::Comment(_) => Slot::Empty,
        OpCode::Binary(x) => x.lhs,
        OpCode::Unary(x) => x.lhs,
        OpCode::Array(x) => x.lhs,
        OpCode::Assign(x) => x.lhs,
        OpCode::AsBits(x) => x.lhs,
        OpCode::AsSigned(x) => x.lhs,
        OpCode::Resize(x) => x.lhs,
        OpCode::Case(x) => x.lhs,
        OpCode::Exec(x) => x.lhs,
        OpCode::Index(x) => x.lhs,
        OpCode::Repeat(x) => x.lhs,
        OpCode::Retime(x) => x.lhs,
        OpCode::Select(x) => x.lhs,
        OpCode::Splice(x) => x.lhs,
        OpCode::Struct(x) => x.lhs,
        OpCode::Tuple(x) => x.lhs,
        OpCode::Wrap(x) => x.lhs,
    }
}

pub open spec fn field_values(fs: Seq<FieldValue>) -> Seq<Slot> {
    fs.map_values(|f: FieldValue| f.value)
}

pub open spec fn case_values(t: Seq<(CaseArgument, Slot)>) -> Seq<Slot> {
    t.map_values(|e: (CaseArgument, Slot)| e.1)
}

/// The slots used as match patterns of a case table.
pub open spec fn case_arg_slots(t: Seq<(CaseArgument, Slot)>) -> Seq<Slot>
    decreases t.len(),
{
    if t.len() == 0 {
        Seq::empty()
    } else {
        let rest = case_arg_slots(t.drop_first());
        match t[0].0 {
            CaseArgument::Slot(s) => seq![s] + rest,
            CaseArgument::Wild => rest,
        }
    }
}

pub open spec fn opt_slot(o: Option<Slot>) -> Seq<Slot> {
    match o {
        Some(s) => seq![s],
        None => Seq::empty(),
    }
}

/// The slots an opcode reads, in the order they are read.
pub open spec fn op_reads(op: OpCode) -> Seq<Slot> {
    match op {
        OpCode::Noop => Seq::empty(),
        OpCode::Comment(_) => Seq::empty(),
        OpCode::Binary(x) => seq![x.arg1, x.arg2],
        OpCode::Unary(x) => seq![x.arg1],
        OpCode::Array(x) => x.elements@,
        OpCode::Assign(x) => seq![x.rhs],
        OpCode::AsBits(x) => seq![x.arg],
        OpCode::AsSigned(x) => seq![x.arg],
        OpCode::Resize(x) => seq![x.arg],
        OpCode::Case(x) => seq![x.discriminant] + case_values(x.table@),
        OpCode::Exec(x) => x.args@,
        OpCode::Index(x) => seq![x.arg] + path_dynamic_slots(x.path@),
        OpCode::Repeat(x) => seq![x.value],
        OpCode::Retime(x) => seq![x.arg],
        OpCode::Select(x) => seq![x.cond, x.true_value, x.false_value],
        OpCode::Splice(x) => seq![x.orig, x.subst] + path_dynamic_slots(x.path@),
        OpCode::Struct(x) => field_values(x.fields@) + opt_slot(x.rest),
        OpCode::Tuple(x) => x.fields@,
        OpCode::Wrap(x) => seq![x.arg],
    }
}

/// Every slot an opcode mentions: the one it writes, the ones it reads, and
/// the match patterns of a case table.
pub open spec fn op_all_slots(op: OpCode) -> Seq<Slot> {
    seq![op_lhs(op)] + op_reads(op) + match op {
        OpCode::Case(x) => case_arg_slots(x.table@),
        _ => Seq::empty(),
    }
}

fn append_slots(out: &mut Vec<Slot>, s: &Vec<Slot>)
    ensures
        final(out)@ == old(out)@ + s@,
{
    let mut i: usize = 0;
    while i < s.len()
        invariant
            i <= s.len(),
            out@ == old(out)@ + s@.take(i as int),
        decreases s.len() - i,
    {
        out.push(s[i]);
        i += 1;
        proof {
            assert(out@ =~= old(out)@ + s@.take(i as int));
        }
    }
    proof {
        assert(s@.take(s.len() as int) =~= s@);
    }
}

fn append_field_values(out: &mut Vec<Slot>, s: &Vec<FieldValue>)
    ensures
        final(out)@ == old(out)@ + field_values(s@),
{
    let mut i: usize = 0;
    while i < s.len()
        invariant
            i <= s.len(),
            out@ == old(out)@ + field_values(s@.take(i as int)),
        decreases s.len() - i,
    {
        out.push(s[i].value);
        i += 1;
        proof {
            assert(out@ =~= old(out)@ + field_values(s@.take(i as int)));
        }
    }
    proof {
        assert(s@.take(s.len() as int) =~= s@);
    }
}

fn append_case_values(out: &mut Vec<Slot>, s: &Vec<(CaseArgument, Slot)>)
    ensures
        final(out)@ == old(out)@ + case_values(s@),
{
    let mut i: usize = 0;
    while i < s.len()
        invariant
            i <= s.len(),
            out@ == old(out)@ + case_values(s@.take(i as int)),
        decreases s.len() - i,
    {
        out.push(s[i].1);
        i += 1;
        proof {
            assert(out@ =~= old(out)@ + case_values(s@.take(i as int)));
        }
    }
    proof {
        assert(s@.take(s.len() as int) =~= s@);
    }
}

fn append_case_args(out: &mut Vec<Slot>, s: &Vec<(CaseArgument, Slot)>)
    ensures
        final(out)@ == old(out)@ + case_arg_slots(s@),
{
    let mut i: usize = s.len();
    let mut rev: Vec<Slot> = Vec::new();
    proof {
        assert(s@.skip(i as int) =~= Seq::<(CaseArgument, Slot)>::empty());
    }
    while i > 0
        invariant
            i <= s.len(),
            rev@ == case_arg_slots(s@.skip(i as int)).reverse(),
        decreases i,
    {
        i -= 1;
        proof {
            assert(s@.skip(i as int).drop_first() =~= s@.skip(i + 1));
            assert(s@.skip(i as int)[0] == s@[i as int]);
        }
        if let CaseArgument::Slot(x) = s[i].0 {
            rev.push(x);
            proof {
                assert(rev@ =~= case_arg_slots(s@.skip(i as int)).reverse());
            }
        }
    }
    proof {
        assert(s@.skip(0) =~= s@);
    }
    let mut j: usize = rev.len();
    let ghost base = out@;
    while j > 0
        invariant
            j <= rev.len(),
            out@ == base + rev@.skip(j as int).reverse(),
        decreases j,
    {
        j -= 1;
        out.push(rev[j]);
        proof {
            assert(out@ =~= base + rev@.skip(j as int).reverse());
        }
    }
    proof {
        assert(rev@.skip(0) =~= rev@);
        assert(case_arg_slots(s@).reverse().reverse() =~= case_arg_slots(s@));
    }
}

/// The slots an opcode reads, in order.
pub fn op_read_slots(op: &OpCode) -> (r: Vec<Slot>)
    ensures
        r@ == op_reads(*op),
{
    let mut out: Vec<Slot> = Vec::new();
    match op {
        OpCode::Noop | OpCode::Comment(_) => {},
        OpCode::Binary(x) => {
            out.push(x.arg1);
            out.push(x.arg2);
        },
        OpCode::Unary(x) => {
            out.push(x.arg1);
        },
        OpCode::Array(x) => {
            append_slots(&mut out, &x.elements);
        },
        OpCode::Assign(x) => {
            out.push(x.rhs);
        },
        OpCode::AsBits(x) | OpCode::AsSigned(x) | OpCode::Resize(x) => {
            out.push(x.arg);
        },
        OpCode::Case(x) => {
            out.push(x.discriminant);
            append_case_values(&mut out, &x.table);
        },
        OpCode::Exec(x) => {
            append_slots(&mut out, &x.args);
        },
        OpCode::Index(x) => {
            out.push(x.arg);
            let d = x.path.dynamic_slots();
            append_slots(&mut out, &d);
        },
        OpCode::Repeat(x) => {
            out.push(x.value);
        },
        OpCode::Retime(x) => {
            out.push(x.arg);
        },
        OpCode::Select(x) => {
            out.push(x.cond);
            out.push(x.true_value);
            out.push(x.false_value);
        },
        OpCode::Splice(x) => {
            out.push(x.orig);
            out.push(x.subst);
            let d = x.path.dynamic_slots();
            append_slots(&mut out, &d);
        },
        OpCode::Struct(x) => {
            append_field_values(&mut out, &x.fields);
            if let Some(r) = x.rest {
                out.push(r);
            }
        },
        OpCode::Tuple(x) => {
            append_slots(&mut out, &x.fields);
        },
        OpCode::Wrap(x) => {
            out.push(x.arg);
        },
    }
    proof {
        assert(out@ =~= op_reads(*op));
    }
    out
}

/// The slot an opcode writes.
pub fn op_write_slot(op: &OpCode) -> (r: Slot)
    ensures
        r == op_lhs(*op),
{
    match op {
        OpCode::Noop | OpCode::Comment(_) => Slot::Empty,
        OpCode::Binary(x) => x.lhs,
        OpCode::Unary(x) => x.lhs,
        OpCode::Array(x) => x.lhs,
        OpCode::Assign(x) => x.lhs,
        OpCode::AsBits(x) | OpCode::AsSigned(x) | OpCode::Resize(x) => x.lhs,
        OpCode::Case(x) => x.lhs,
        OpCode::Exec(x) => x.lhs,
        OpCode::Index(x) => x.lhs,
        OpCode::Repeat(x) => x.lhs,
        OpCode::Retime(x) => x.lhs,
        OpCode::Select(x) => x.lhs,
        OpCode::Splice(x) => x.lhs,
        OpCode::Struct(x) => x.lhs,
        OpCode::Tuple(x) => x.lhs,
        OpCode::Wrap(x) => x.lhs,
    }
}

/// Every slot an opcode mentions (see [`op_all_slots`]).
pub fn op_slots(op: &OpCode) -> (r: Vec<Slot>)
    ensures
        r@ == op_all_slots(*op),
{
    let mut out: Vec<Slot> = Vec::new();
    out.push(op_write_slot(op));
    let reads = op_read_slots(op);
    append_slots(&mut out, &reads);
    if let OpCode::Case(x) = op {
        append_case_args(&mut out, &x.table);
    }
    proof {
        assert(out@ =~= op_all_slots(*op));
    }
    out
}

/// A path element with run-time index `old` replaced by `new`.
pub open spec fn rename_elem(e: PathElementView, old: Slot, new: Slot) -> PathElementView {
    match e {
        PathElementView::DynamicIndex(s) => PathElementView::DynamicIndex(rename_slot(s, old, new)),
        _ => e,
    }
}

pub open spec fn rename_path(p: Seq<PathElementView>, old: Slot, new: Slot) -> Seq<PathElementView> {
    p.map_values(|e: PathElementView| rename_elem(e, old, new))
}

pub open spec fn rename_seq(s: Seq<Slot>, old: Slot, new: Slot) -> Seq<Slot> {
    s.map_values(|x: Slot| rename_slot(x, old, new))
}

pub open spec fn rename_case_arg(a: CaseArgument, old: Slot, new: Slot) -> CaseArgument {
    match a {
        CaseArgument::Slot(s) => CaseArgument::Slot(rename_slot(s, old, new)),
        CaseArgument::Wild => CaseArgument::Wild,
    }
}

pub open spec fn opt_kind_view(k: Option<Kind>) -> Option<KindView> {
    match k {
        Some(k) => Some(k@),
        None => None,
    }
}

/// `b` is `a` with every slot it reads equal to `old` replaced by `new`;
/// the slot it writes and everything else are unchanged.
pub open spec fn renamed_reads(a: OpCode, b: OpCode, old: Slot, new: Slot) -> bool {
    match (a, b) {
        (OpCode::Noop, OpCode::Noop) => true,
        (OpCode::Comment(x), OpCode::Comment(y)) => x@ == y@,
        (OpCode::Binary(x), OpCode::Binary(y)) => y == crate::rhif::spec::Binary {
            op: x.op,
            lhs: x.lhs,
            arg1: rename_slot(x.arg1, old, new),
            arg2: rename_slot(x.arg2, old, new),
        },
        (OpCode::Unary(x), OpCode::Unary(y)) => y == crate::rhif::spec::Unary {
            op: x.op,
            lhs: x.lhs,
            arg1: rename_slot(x.arg1, old, new),
        },
        (OpCode::Array(x), OpCode::Array(y)) => y.lhs == x.lhs && y.elements@ == rename_seq(
            x.elements@,
            old,
            new,
        ),
        (OpCode::Assign(x), OpCode::Assign(y)) => y == Assign { lhs: x.lhs, rhs: rename_slot(x.rhs, old, new) },
        (OpCode::AsBits(x), OpCode::AsBits(y)) => y == crate::rhif::spec::Cast {
            lhs: x.lhs,
            arg: rename_slot(x.arg, old, new),
            len: x.len,
        },
        (OpCode::AsSigned(x), OpCode::AsSigned(y)) => y == crate::rhif::spec::Cast {
            lhs: x.lhs,
            arg: rename_slot(x.arg, old, new),
            len: x.len,
        },
        (OpCode::Resize(x), OpCode::Resize(y)) => y == crate::rhif::spec::Cast {
            lhs: x.lhs,
            arg: rename_slot(x.arg, old, new),
            len: x.len,
        },
        (OpCode::Case(x), OpCode::Case(y)) => {
            &&& y.lhs == x.lhs
            &&& y.discriminant == rename_slot(x.discriminant, old, new)
            &&& y.table@.len() == x.table@.len()
            &&& forall|i: int|
                0 <= i < x.table@.len() ==> #[trigger] y.table@[i] == (
                    rename_case_arg(x.table@[i].0, old, new),
                    rename_slot(x.table@[i].1, old, new),
                )
        },
        (OpCode::Exec(x), OpCode::Exec(y)) => y.lhs == x.lhs && y.id == x.id && y.args@ == rename_seq(
            x.args@,
            old,
            new,
        ),
        (OpCode::Index(x), OpCode::Index(y)) => y.lhs == x.lhs && y.arg == rename_slot(x.arg, old, new)
            && y.path@ == rename_path(x.path@, old, new),
        (OpCode::Repeat(x), OpCode::Repeat(y)) => y == crate::rhif::spec::Repeat {
            lhs: x.lhs,
            value: rename_slot(x.value, old, new),
            len: x.len,
        },
        (OpCode::Retime(x), OpCode::Retime(y)) => y == crate::rhif::spec::Retime {
            lhs: x.lhs,
            arg: rename_slot(x.arg, old, new),
            color: x.color,
        },
        (OpCode::Select(x), OpCode::Select(y)) => y == crate::rhif::spec::Select {
            lhs: x.lhs,
            cond: rename_slot(x.cond, old, new),
            true_value: rename_slot(x.true_value, old, new),
            false_value: rename_slot(x.false_value, old, new),
        },
        (OpCode::Splice(x), OpCode::Splice(y)) => y.lhs == x.lhs && y.orig == rename_slot(x.orig, old, new)
            && y.subst == rename_slot(x.subst, old, new) && y.path@ == rename_path(x.path@, old, new),
        (OpCode::Struct(x), OpCode::Struct(y)) => {
            &&& y.lhs == x.lhs
            &&& y.template@ == x.template@
            &&& y.rest == match x.rest {
                Some(r) => Some(rename_slot(r, old, new)),
                None => None,
            }
            &&& y.fields@.len() == x.fields@.len()
            &&& forall|i: int|
                0 <= i < x.fields@.len() ==> #[trigger] y.fields@[i].member == x.fields@[i].member
                    && y.fields@[i].value == rename_slot(x.fields@[i].value, old, new)
        },
        (OpCode::Tuple(x), OpCode::Tuple(y)) => y.lhs == x.lhs && y.fields@ == rename_seq(
            x.fields@,
            old,
            new,
        ),
        (OpCode::Wrap(x), OpCode::Wrap(y)) => y.lhs == x.lhs && y.op == x.op && y.arg == rename_slot(
            x.arg,
            old,
            new,
        ) && opt_kind_view(y.kind) == opt_kind_view(x.kind),
        _ => false,
    }
}

fn rename_vec(v: &Vec<Slot>, old: Slot, new: Slot) -> (r: Vec<Slot>)
    ensures
        r@ == rename_seq(v@, old, new),
{
    let mut out: Vec<Slot> = Vec::new();
    let mut i: usize = 0;
    while i < v.len()
        invariant
            i <= v.len(),
            out@ == rename_seq(v@.take(i as int), old, new),
        decreases v.len() - i,
    {
        out.push(v[i].rename(old, new));
        i += 1;
        proof {
            assert(out@ =~= rename_seq(v@.take(i as int), old, new));
        }
    }
    proof {
        assert(v@.take(v.len() as int) =~= v@);
    }
    out
}

fn rename_path_exec(p: &Path, old: Slot, new: Slot) -> (r: Path)
    ensures
        r@ == rename_path(p@, old, new),
{
    let mut out: Vec<PathElement> = Vec::new();
    let mut i: usize = 0;
    while i < p.elements.len()
        invariant
            i <= p.elements.len(),
            p@.len() == p.elements.len(),
            out@.map_values(|e: PathElement| e@) == rename_path(p@.take(i as int), old, new),
        decreases p.elements.len() - i,
    {
        let e = match &p.elements[i] {
            PathElement::DynamicIndex(s) => PathElement::DynamicIndex(s.rename(old, new)),
            other => other.copy(),
        };
        proof {
            assert(e@ == rename_elem(p@[i as int], old, new));
            assert(out@.push(e).map_values(|e: PathElement| e@) =~= out@.map_values(
                |e: PathElement| e@,
            ).push(e@));
            assert(rename_path(p@.take(i + 1), old, new) =~= rename_path(p@.take(i as int), old, new).push(
                rename_elem(p@[i as int], old, new),
            ));
        }
        out.push(e);
        i += 1;
    }
    proof {
        assert(p@.take(p@.len() as int) =~= p@);
    }
    Path { elements: out }
}

/// Replaces every read of `old` by a read of `new` (the written slot is kept).
pub fn rename_read_register(op: &OpCode, old: Slot, new: Slot) -> (r: OpCode)
    ensures
        renamed_reads(*op, r, old, new),
{
    match op {
        OpCode::Noop => OpCode::Noop,
        OpCode::Comment(c) => OpCode::Comment(c.clone()),
        OpCode::Binary(x) => OpCode::Binary(crate::rhif::spec::Binary {
            op: x.op,
            lhs: x.lhs,
            arg1: x.arg1.rename(old, new),
            arg2: x.arg2.rename(old, new),
        }),
        OpCode::Unary(x) => OpCode::Unary(crate::rhif::spec::Unary {
            op: x.op,
            lhs: x.lhs,
            arg1: x.arg1.rename(old, new),
        }),
        OpCode::Array(x) => OpCode::Array(Array { lhs: x.lhs, elements: rename_vec(&x.elements, old, new) }),
        OpCode::Assign(x) => OpCode::Assign(Assign { lhs: x.lhs, rhs: x.rhs.rename(old, new) }),
        OpCode::AsBits(x) => OpCode::AsBits(
            crate::rhif::spec::Cast { lhs: x.lhs, arg: x.arg.rename(old, new), len: x.len },
        ),
        OpCode::AsSigned(x) => OpCode::AsSigned(
            crate::rhif::spec::Cast { lhs: x.lhs, arg: x.arg.rename(old, new), len: x.len },
        ),
        OpCode::Resize(x) => OpCode::Resize(
            crate::rhif::spec::Cast { lhs: x.lhs, arg: x.arg.rename(old, new), len: x.len },
        ),
        OpCode::Case(x) => {
            let mut table: Vec<(CaseArgument, Slot)> = Vec::new();
            let mut i: usize = 0;
            while i < x.table.len()
                invariant
                    i <= x.table.len(),
                    table@.len() == i,
                    forall|j: int|
                        0 <= j < i ==> #[trigger] table@[j] == (
                            rename_case_arg(x.table@[j].0, old, new),
                            rename_slot(x.table@[j].1, old, new),
                        ),
                decreases x.table.len() - i,
            {
                let arg = match x.table[i].0 {
                    CaseArgument::Slot(s) => CaseArgument::Slot(s.rename(old, new)),
                    CaseArgument::Wild => CaseArgument::Wild,
                };
                table.push((arg, x.table[i].1.rename(old, new)));
                i += 1;
            }
            OpCode::Case(Case { lhs: x.lhs, discriminant: x.discriminant.rename(old, new), table })
        },
        OpCode::Exec(x) => OpCode::Exec(Exec { lhs: x.lhs, id: x.id, args: rename_vec(&x.args, old, new) }),
        OpCode::Index(x) => OpCode::Index(Index {
            lhs: x.lhs,
            arg: x.arg.rename(old, new),
            path: rename_path_exec(&x.path, old, new),
        }),
        OpCode::Repeat(x) => OpCode::Repeat(crate::rhif::spec::Repeat {
            lhs: x.lhs,
            value: x.value.rename(old, new),
            len: x.len,
        }),
        OpCode::Retime(x) => OpCode::Retime(crate::rhif::spec::Retime {
            lhs: x.lhs,
            arg: x.arg.rename(old, new),
            color: x.color,
        }),
        OpCode::Select(x) => OpCode::Select(crate::rhif::spec::Select {
            lhs: x.lhs,
            cond: x.cond.rename(old, new),
            true_value: x.true_value.rename(old, new),
            false_value: x.false_value.rename(old, new),
        }),
        OpCode::Splice(x) => OpCode::Splice(Splice {
            lhs: x.lhs,
            orig: x.orig.rename(old, new),
            path: rename_path_exec(&x.path, old, new),
            subst: x.subst.rename(old, new),
        }),
        OpCode::Struct(x) => {
            let mut fields: Vec<FieldValue> = Vec::new();
            let mut i: usize = 0;
            while i < x.fields.len()
                invariant
                    i <= x.fields.len(),
                    fields@.len() == i,
                    forall|j: int|
                        0 <= j < i ==> #[trigger] fields@[j].member == x.fields@[j].member
                            && fields@[j].value == rename_slot(x.fields@[j].value, old, new),
                decreases x.fields.len() - i,
            {
                fields.push(
                    FieldValue { member: x.fields[i].member.copy(), value: x.fields[i].value.rename(old, new) },
                );
                i += 1;
            }
            let rest = match x.rest {
                Some(r) => Some(r.rename(old, new)),
                None => None,
            };
            OpCode::Struct(Struct { lhs: x.lhs, fields, rest, template: x.template.copy() })
        },
        OpCode::Tuple(x) => OpCode::Tuple(Tuple { lhs: x.lhs, fields: rename_vec(&x.fields, old, new) }),
        OpCode::Wrap(x) => {
            let kind = match &x.kind {
                Some(k) => Some(clone_kind(k)),
                None => None,
            };
            OpCode::Wrap(Wrap { lhs: x.lhs, op: x.op, arg: x.arg.rename(old, new), kind })
        },
    }
}

} // verus!