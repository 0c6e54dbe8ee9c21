use vstd::prelude::*;

use crate::rtl::object::{op_in, op_operands, operand_in};
use crate::rtl::spec::{
    Assign, Binary, Case, CaseArgument, Cast, Concat, DynamicIndex, DynamicSplice, Index,
    LiteralId, OpCode, Operand, Select, Splice, Unary,
};

verus! {

/// A way of changing the operands of an opcode.
pub enum OperandMap {
    /// Reads of the first operand read the second instead; writes and case
    /// patterns are kept.
    Rename(Operand, Operand),
    /// Every operand, written or read, is replaced through the tables (indexed
    /// by literal and by register number); case patterns follow the literal
    /// table.
    Table(Seq<Operand>, Seq<Operand>),
}

pub open spec fn rename_operand(o: Operand, old: Operand, new: Operand) -> Operand {
    if o == old {
        new
    } else {
        o
    }
}

pub open spec fn table_operand(o: Operand, lits: Seq<Operand>, regs: Seq<Operand>) -> Operand {
    match o {
        Operand::Literal(l) => lits[l.0 as int],
        Operand::Register(r) => regs[r.0 as int],
    }
}

pub open spec fn map_read(m: OperandMap, o: Operand) -> Operand {
    match m {
        OperandMap::Rename(old, new) => rename_operand(o, old, new),
        OperandMap::Table(lits, regs) => table_operand(o, lits, regs),
    }
}

pub open spec fn map_write(m: OperandMap, o: Operand) -> Operand {
    match m {
        OperandMap::Rename(_, _) => o,
        OperandMap::Table(lits, regs) => table_operand(o, lits, regs),
    }
}

pub open spec fn map_pattern(m: OperandMap, a: CaseArgument) -> CaseArgument {
    match (m, a) {
        (OperandMap::Table(lits, _), CaseArgument::Literal(l)) => CaseArgument::Literal(
            lits[l.0 as int]->Literal_0,
        ),
        _ => a,
    }
}

/// `b` is `a` with its operands changed by `m`; the variant and every other
/// field are kept.
pub open spec fn operands_mapped(a: OpCode, b: OpCode, m: OperandMap) -> bool {
    match (a, b) {
        (OpCode::Noop, OpCode::Noop) => true,
        (OpCode::Comment(x), OpCode::Comment(y)) => x@ == y@,
        (OpCode::Assign(x), OpCode::Assign(y)) => y == Assign {
            lhs: map_write(m, x.lhs),
            rhs: map_read(m, x.rhs),
        },
        (OpCode::Binary(x), OpCode::Binary(y)) => y == Binary {
            lhs: map_write(m, x.lhs),
            op: x.op,
            arg1: map_read(m, x.arg1),
            arg2: map_read(m, x.arg2),
        },
        (OpCode::Unary(x), OpCode::Unary(y)) => y == Unary {
            lhs: map_write(m, x.lhs),
            op: x.op,
            arg1: map_read(m, x.arg1),
        },
        (OpCode::Case(x), OpCode::Case(y)) => {
            &&& y.lhs == map_write(m, x.lhs)
            &&& y.discriminant == map_read(m, x.discriminant)
            &&& y.table@.len() == x.table@.len()
            &&& forall|i: int|
                0 <= i < x.table@.len() ==> #[trigger] y.table@[i] == (
                    map_pattern(m, x.table@[i].0),
                    map_read(m, x.table@[i].1),
                )
        },
        (OpCode::Cast(x), OpCode::Cast(y)) => y == Cast {
            lhs: map_write(m, x.lhs),
            arg: map_read(m, x.arg),
            len: x.len,
            kind: x.kind,
        },
        (OpCode::Concat(x), OpCode::Concat(y)) => y.lhs == map_write(m, x.lhs) && y.args@
            == x.args@.map_values(|o: Operand| map_read(m, o)),
        (OpCode::DynamicIndex(x), OpCode::DynamicIndex(y)) => y == DynamicIndex {
            lhs: map_write(m, x.lhs),
            arg: map_read(m, x.arg),
            offset: map_read(m, x.offset),
            len: x.len,
        },
        (OpCode::DynamicSplice(x), OpCode::DynamicSplice(y)) => y == DynamicSplice {
            lhs: map_write(m, x.lhs),
            arg: map_read(m, x.arg),
            offset: map_read(m, x.offset),
            len: x.len,
            value: map_read(m, x.value),
        },
        (OpCode::Index(x), OpCode::Index(y)) => y.lhs == map_write(m, x.lhs) && y.arg == map_read(
            m,
            x.arg,
        ) && y.bit_range == x.bit_range,
        (OpCode::Select(x), OpCode::Select(y)) => y == Select {
            lhs: map_write(m, x.lhs),
            cond: map_read(m, x.cond),
            true_value: map_read(m, x.true_value),
            false_value: map_read(m, x.false_value),
        },
        (OpCode::Splice(x), OpCode::Splice(y)) => y.lhs == map_write(m, x.lhs) && y.orig
            == map_read(m, x.orig) && y.bit_range == x.bit_range && y.value == map_read(
            m,
            x.value,
        ),
        _ => false,
    }
}

/// The mapping can be applied to the opcode: its operands are inside the
/// tables, and the literal table maps literals to literals.
pub open spec fn map_applies(m: OperandMap, op: OpCode) -> bool {
    match m {
        OperandMap::Rename(_, _) => true,
        OperandMap::Table(lits, regs) => op_in(op, lits.len(), regs.len()) && forall|i: int|
            0 <= i < lits.len() ==> (#[trigger] lits[i]) is Literal,
    }
}

fn apply(m: &ExecMap, o: Operand) -> (r: Operand)
    requires
        m.applies_to(o),
    ensures
        r == map_read(m.model(), o),
{
    match m {
        ExecMap::Rename(old, new) => if o == *old {
            *new
        } else {
            o
        },
        ExecMap::Table(lits, regs) => match o {
            Operand::Literal(l) => lits[l.0],
            Operand::Register(r) => regs[r.0],
        },
    }
}

fn apply_write(m: &ExecMap, o: Operand) -> (r: Operand)
    requires
        m.applies_to(o),
    ensures
        r == map_write(m.model(), o),
{
    match m {
        ExecMap::Rename(_, _) => o,
        ExecMap::Table(lits, regs) => match o {
            Operand::Literal(l) => lits[l.0],
            Operand::Register(r) => regs[r.0],
        },
    }
}

/// The executable form of an [`OperandMap`].
pub enum ExecMap {
    Rename(Operand, Operand),
    Table(Vec<Operand>, Vec<Operand>),
}

impl ExecMap {
    pub open spec fn model(&self) -> OperandMap {
        match self {
            ExecMap::Rename(a, b) => OperandMap::Rename(*a, *b),
            ExecMap::Table(l, r) => OperandMap::Table(l@, r@),
        }
    }

    pub open spec fn applies_to(&self, o: Operand) -> bool {
        match self {
            ExecMap::Rename(_, _) => true,
            ExecMap::Table(l, r) => operand_in(o, l@.len(), r@.len()),
        }
    }
}

fn map_pattern_exec(m: &ExecMap, a: CaseArgument) -> (r: CaseArgument)
    requires
        match a {
            CaseArgument::Literal(l) => m.applies_to(Operand::Literal(l)),
            _ => true,
        },
        map_applies_lits(m.model()),
    ensures
        r == map_pattern(m.model(), a),
{
    match (m, a) {
        (ExecMap::Table(lits, _), CaseArgument::Literal(l)) => match lits[l.0] {
            Operand::Literal(x) => CaseArgument::Literal(x),
            Operand::Register(_) => a,
        },
        _ => a,
    }
}

pub open spec fn map_applies_lits(m: OperandMap) -> bool {
    match m {
        OperandMap::Rename(_, _) => true,
        OperandMap::Table(lits, _) => forall|i: int| 0 <= i < lits.len() ==> (#[trigger] lits[i]) is Literal,
    }
}

pub proof fn lemma_case_literal_in(t: Seq<(CaseArgument, Operand)>, i: int, nlit: nat, nreg: nat)
    requires
        0 <= i < t.len(),
        t[i].0 is Literal,
        forall|j: int|
            0 <= j < crate::rtl::object::case_literals(t).len() ==> operand_in(
                #[trigger] crate::rtl::object::case_literals(t)[j],
                nlit,
                nreg,
            ),
    ensures
        operand_in(Operand::Literal(t[i].0->Literal_0), nlit, nreg),
    decreases t.len(),
{
    let cl = crate::rtl::object::case_literals(t);
    if i == t.len() - 1 {
        assert(cl.last() == Operand::Literal(t[i].0->Literal_0));
        assert(operand_in(cl[cl.len() - 1], nlit, nreg));
    } else {
        let pre = crate::rtl::object::case_literals(t.drop_last());
        assert(t.drop_last()[i] == t[i]);
        assert forall|j: int| 0 <= j < pre.len() implies operand_in(#[trigger] pre[j], nlit, nreg) by {
            match t.last().0 {
                CaseArgument::Literal(l) => {
                    assert(cl == pre.push(Operand::Literal(l)));
                    assert(cl[j] == pre[j]);
                },
                CaseArgument::Wild => {},
            }
        }
        lemma_case_literal_in(t.drop_last(), i, nlit, nreg);
    }
}

/// Changes the operands of an opcode as `m` says.
pub fn map_operands(op: &OpCode, m: &ExecMap) -> (r: OpCode)
    requires
        map_applies(m.model(), *op),
    ensures
        operands_mapped(*op, r, m.model()),
{
    let ghost ops = op_operands(*op);
    proof {
        if let ExecMap::Table(l, g) = m {
            assert(forall|j: int| 0 <= j < ops.len() ==> operand_in(#[trigger] ops[j], l@.len(), g@.len()));
        }
    }
    match op {
        OpCode::Noop => OpCode::Noop,
        OpCode::Comment(s) => OpCode::Comment(s.clone()),
        OpCode::Assign(x) => {
            proof {
                assert(ops[0] == x.lhs && ops[1] == x.rhs);
            }
            OpCode::Assign(Assign { lhs: apply_write(m, x.lhs), rhs: apply(m, x.rhs) })
        },
        OpCode::Binary(x) => {
            proof {
                assert(ops[0] == x.lhs && ops[1] == x.arg1 && ops[2] == x.arg2);
            }
            OpCode::Binary(
                Binary {
                    lhs: apply_write(m, x.lhs),
                    op: x.op,
                    arg1: apply(m, x.arg1),
                    arg2: apply(m, x.arg2),
                },
            )
        },
        OpCode::Unary(x) => {
            proof {
                assert(ops[0] == x.lhs && ops[1] == x.arg1);
            }
            OpCode::Unary(Unary { lhs: apply_write(m, x.lhs), op: x.op, arg1: apply(m, x.arg1) })
        },
        OpCode::Cast(x) => {
            proof {
                assert(ops[0] == x.lhs && ops[1] == x.arg);
            }
            OpCode::Cast(
                Cast { lhs: apply_write(m, x.lhs), arg: apply(m, x.arg), len: x.len, kind: x.kind },
            )
        },
        OpCode::DynamicIndex(x) => {
            proof {
                assert(ops[0] == x.lhs && ops[1] == x.arg && ops[2] == x.offset);
            }
            OpCode::DynamicIndex(
                DynamicIndex {
                    lhs: apply_write(m, x.lhs),
                    arg: apply(m, x.arg),
                    offset: apply(m, x.offset),
                    len: x.len,
                },
            )
        },
        OpCode::DynamicSplice(x) => {
            proof {
                assert(ops[0] == x.lhs && ops[1] == x.arg && ops[2] == x.offset && ops[3]
                    == x.value);
            }
            OpCode::DynamicSplice(
                DynamicSplice {
                    lhs: apply_write(m, x.lhs),
                    arg: apply(m, x.arg),
                    offset: apply(m, x.offset),
                    len: x.len,
                    value: apply(m, x.value),
                },
            )
        },
        OpCode::Index(x) => {
            proof {
                assert(ops[0] == x.lhs && ops[1] == x.arg);
            }
            OpCode::Index(
                Index {
                    lhs: apply_write(m, x.lhs),
                    arg: apply(m, x.arg),
                    bit_range: x.bit_range.start..x.bit_range.end,
                },
            )
        },
        OpCode::Select(x) => {
            proof {
                assert(ops[0] == x.lhs && ops[1] == x.cond && ops[2] == x.true_value && ops[3]
                    == x.false_value);
            }
            OpCode::Select(
                Select {
                    lhs: apply_write(m, x.lhs),
                    cond: apply(m, x.cond),
                    true_value: apply(m, x.true_value),
                    false_value: apply(m, x.false_value),
                },
            )
        },
        OpCode::Splice(x) => {
            proof {
                assert(ops[0] == x.lhs && ops[1] == x.orig && ops[2] == x.value);
            }
            OpCode::Splice(
                Splice {
                    lhs: apply_write(m, x.lhs),
                    orig: apply(m, x.orig),
                    bit_range: x.bit_range.start..x.bit_range.end,
                    value: apply(m, x.value),
                },
            )
        },
        OpCode::Concat(x) => {
            proof {
                assert(ops[0] == x.lhs);
            }
            let mut args: Vec<Operand> = Vec::new();
            let mut i: usize = 0;
            while i < x.args.len()
                invariant
                    i <= x.args.len(),
                    ops == seq![x.lhs] + x.args@,
                    ops == op_operands(*op),
                    map_applies(m.model(), *op),
                    *op == OpCode::Concat(*x),
                    args@ == x.args@.take(i as int).map_values(|o: Operand| map_read(m.model(), o)),
                decreases x.args.len() - i,
            {
                proof {
                    assert(ops[i + 1] == x.args@[i as int]);
                    if let ExecMap::Table(l, g) = m {
                        assert(operand_in(ops[i + 1], l@.len(), g@.len()));
                    }
                }
                let o = apply(m, x.args[i]);
                args.push(o);
                i += 1;
                proof {
                    assert(args@ =~= x.args@.take(i as int).map_values(
                        |o: Operand| map_read(m.model(), o),
                    ));
                }
            }
            proof {
                assert(x.args@.take(x.args@.len() as int) =~= x.args@);
            }
            OpCode::Concat(Concat { lhs: apply_write(m, x.lhs), args })
        },
        OpCode::Case(x) => {
            proof {
                assert(ops[0] == x.lhs && ops[1] == x.discriminant);
            }
            let mut table: Vec<(CaseArgument, Operand)> = Vec::new();
            let mut i: usize = 0;
            let ghost vals = x.table@.map_values(|e: (CaseArgument, Operand)| e.1);
            let ghost pats = crate::rtl::object::case_literals(x.table@);
            while i < x.table.len()
                invariant
                    i <= x.table.len(),
                    ops == seq![x.lhs, x.discriminant] + vals + pats,
                    ops == op_operands(*op),
                    vals == x.table@.map_values(|e: (CaseArgument, Operand)| e.1),
                    pats == crate::rtl::object::case_literals(x.table@),
                    map_applies(m.model(), *op),
                    *op == OpCode::Case(*x),
                    table@.len() == i,
                    forall|k: int|
                        0 <= k < i ==> #[trigger] table@[k] == (
                            map_pattern(m.model(), x.table@[k].0),
                            map_read(m.model(), x.table@[k].1),
                        ),
                decreases x.table.len() - i,
            {
                let (pat, val) = x.table[i];
                proof {
                    assert(ops[2 + i] == vals[i as int]);
                    if let ExecMap::Table(l, g) = m {
                        assert(operand_in(ops[2 + i], l@.len(), g@.len()));
                        if pat is Literal {
                            assert forall|j: int| 0 <= j < pats.len() implies operand_in(
                                #[trigger] pats[j],
                                l@.len(),
                                g@.len(),
                            ) by {
                                assert(ops[2 + vals.len() + j] == pats[j]);
                            }
                            lemma_case_literal_in(x.table@, i as int, l@.len(), g@.len());
                        }
                    }
                }
                let np = map_pattern_exec(m, pat);
                let nv = apply(m, val);
                table.push((np, nv));
                i += 1;
            }
            OpCode::Case(
                Case { lhs: apply_write(m, x.lhs), discriminant: apply(m, x.discriminant), table },
            )
        },
    }
}

/// Reads of `old` read `new` instead; the written operand is kept.
pub fn rename_read_operands(op: &OpCode, old: Operand, new: Operand) -> (r: OpCode)
    ensures
        operands_mapped(*op, r, OperandMap::Rename(old, new)),
{
    map_operands(op, &ExecMap::Rename(old, new))
}

} // verus!
