use vstd::prelude::*;

use crate::ast::{ExprLit, FunctionId, NodeId};
use crate::rhif::object::Object;
use crate::rhif::spec::{FuncId, LocatedOpCode, OpCode, Slot};
use crate::types::kind::Kind;

verus! {

/// Two slots that must have the same type, and the node that demands it.
#[derive(Clone, Copy, Debug, PartialEq, Eq, Structural)]
pub struct TypeEquivalence {
    pub lhs: Slot,
    pub rhs: Slot,
    pub id: NodeId,
}

/// The source node of each slot, and the node to blame for what has none.
#[derive(Debug)]
pub struct SymbolMap {
    pub slot_map: Vec<(Slot, NodeId)>,
    pub fallback: NodeId,
}

impl SymbolMap {
    /// A copy of the table.
    pub fn copy(&self) -> (r: SymbolMap)
        ensures
            r.slot_map@ == self.slot_map@,
            r.fallback == self.fallback,
    {
        let mut slot_map: Vec<(Slot, NodeId)> = Vec::new();
        let mut i: usize = 0;
        while i < self.slot_map.len()
            invariant
                i <= self.slot_map@.len(),
                slot_map@ == self.slot_map@.take(i as int),
            decreases self.slot_map.len() - i,
        {
            slot_map.push(self.slot_map[i]);
            i += 1;
            proof {
                assert(slot_map@ =~= self.slot_map@.take(i as int));
            }
        }
        proof {
            assert(self.slot_map@.take(self.slot_map@.len() as int) =~= self.slot_map@);
        }
        SymbolMap { slot_map, fallback: self.fallback }
    }
}

/// The value listed first for a key, if any.
pub open spec fn lookup<K, V>(m: Seq<(K, V)>, k: K) -> Option<V>
    decreases m.len(),
{
    if m.len() == 0 {
        None
    } else if m[0].0 == k {
        Some(m[0].1)
    } else {
        lookup(m.drop_first(), k)
    }
}

/// Position `i` holds the first entry for `k`.
pub open spec fn first_at<K, V>(m: Seq<(K, V)>, k: K, i: int) -> bool {
    &&& 0 <= i < m.len()
    &&& m[i].0 == k
    &&& forall|j: int| 0 <= j < i ==> (#[trigger] m[j]).0 != k
}

pub proof fn lemma_lookup_first<K, V>(m: Seq<(K, V)>, k: K, i: int)
    requires
        first_at(m, k, i),
    ensures
        lookup(m, k) == Some(m[i].1),
    decreases m.len(),
{
    if i > 0 {
        assert(first_at(m.drop_first(), k, i - 1)) by {
            assert forall|j: int| 0 <= j < i - 1 implies (#[trigger] m.drop_first()[j]).0 != k by {
                assert(m.drop_first()[j] == m[j + 1]);
            }
        }
        lemma_lookup_first(m.drop_first(), k, i - 1);
    }
}

pub proof fn lemma_lookup_absent<K, V>(m: Seq<(K, V)>, k: K)
    requires
        forall|j: int| 0 <= j < m.len() ==> (#[trigger] m[j]).0 != k,
    ensures
        lookup(m, k) is None,
    decreases m.len(),
{
    if m.len() > 0 {
        assert forall|j: int| 0 <= j < m.len() - 1 implies (#[trigger] m.drop_first()[j]).0 != k by {
            assert(m.drop_first()[j] == m[j + 1]);
        }
        lemma_lookup_absent(m.drop_first(), k);
    }
}

/// Lookup after the first entry for `k` is given a new value.
pub proof fn lemma_lookup_update<K, V>(m: Seq<(K, V)>, k: K, i: int, v: V, x: K)
    requires
        first_at(m, k, i),
    ensures
        lookup(m.update(i, (k, v)), x) == if x == k {
            Some(v)
        } else {
            lookup(m, x)
        },
    decreases m.len(),
{
    let n = m.update(i, (k, v));
    if i == 0 {
        assert(n.drop_first() =~= m.drop_first());
    } else {
        assert(n.drop_first() =~= m.drop_first().update(i - 1, (k, v)));
        assert(m[0].0 != k);
        assert(first_at(m.drop_first(), k, i - 1)) by {
            assert forall|j: int| 0 <= j < i - 1 implies (#[trigger] m.drop_first()[j]).0 != k by {
                assert(m.drop_first()[j] == m[j + 1]);
            }
        }
        lemma_lookup_update(m.drop_first(), k, i - 1, v, x);
    }
}

/// Lookup after an entry is added at the end.
pub proof fn lemma_lookup_push<K, V>(m: Seq<(K, V)>, k: K, v: V, x: K)
    ensures
        lookup(m.push((k, v)), x) == match lookup(m, x) {
            Some(y) => Some(y),
            None => if x == k {
                Some(v)
            } else {
                None
            },
        },
    decreases m.len(),
{
    if m.len() > 0 {
        assert(m.push((k, v)).drop_first() =~= m.drop_first().push((k, v)));
        lemma_lookup_push(m.drop_first(), k, v, x);
    } else {
        assert(m.push((k, v)).drop_first() =~= m);
    }
}

/// A value that the lookup finds is at the first entry for its key.
pub proof fn lemma_lookup_some<K, V>(m: Seq<(K, V)>, k: K)
    ensures
        lookup(m, k) is Some ==> exists|i: int| first_at(m, k, i) && m[i].1 == lookup(m, k)->Some_0,
    decreases m.len(),
{
    if m.len() > 0 && m[0].0 != k {
        lemma_lookup_some(m.drop_first(), k);
        if lookup(m, k) is Some {
            let i = choose|i: int| first_at(m.drop_first(), k, i) && m.drop_first()[i].1 == lookup(m.drop_first(), k)->Some_0;
            assert forall|j: int| 0 <= j < i + 1 implies (#[trigger] m[j]).0 != k by {
                if j > 0 {
                    assert(m[j] == m.drop_first()[j - 1]);
                }
            }
            assert(first_at(m, k, i + 1));
        }
    } else if m.len() > 0 {
        assert(first_at(m, k, 0));
    }
}

/// Finds the first entry for `k`.
pub fn find_slot<V>(m: &Vec<(Slot, V)>, k: Slot) -> (r: Option<usize>)
    ensures
        match r {
            Some(i) => first_at(m@, k, i as int) && lookup(m@, k) == Some(m@[i as int].1),
            None => lookup(m@, k) is None && forall|j: int| 0 <= j < m@.len() ==> (#[trigger] m@[j]).0 != k,
        },
{
    let mut i: usize = 0;
    while i < m.len()
        invariant
            i <= m@.len(),
            forall|j: int| 0 <= j < i ==> (#[trigger] m@[j]).0 != k,
        decreases m.len() - i,
    {
        if m[i].0 == k {
            proof {
                lemma_lookup_first(m@, k, i as int);
            }
            return Some(i);
        }
        i += 1;
    }
    proof {
        lemma_lookup_absent(m@, k);
    }
    None
}

/// Finds the first entry for function `k`.
pub fn find_func<V>(m: &Vec<(FuncId, V)>, k: FuncId) -> (r: Option<usize>)
    ensures
        match r {
            Some(i) => first_at(m@, k, i as int) && lookup(m@, k) == Some(m@[i as int].1),
            None => lookup(m@, k) is None,
        },
{
    let mut i: usize = 0;
    while i < m.len()
        invariant
            i <= m@.len(),
            forall|j: int| 0 <= j < i ==> (#[trigger] m@[j]).0 != k,
        decreases m.len() - i,
    {
        if m[i].0 == k {
            proof {
                lemma_lookup_first(m@, k, i as int);
            }
            return Some(i);
        }
        i += 1;
    }
    proof {
        lemma_lookup_absent(m@, k);
    }
    None
}

/// A function lowered from the syntax tree before its types are known.
#[derive(Debug)]
pub struct Mir {
    pub ops: Vec<LocatedOpCode>,
    /// The literal held by each literal slot.
    pub literals: Vec<(Slot, ExprLit)>,
    /// The kinds known in advance (arguments and result).
    pub ty: Vec<(Slot, Kind)>,
    pub ty_equate: Vec<TypeEquivalence>,
    /// Already compiled functions that this one calls.
    pub stash: Vec<(FuncId, Object)>,
    pub return_slot: Slot,
    pub arguments: Vec<Slot>,
    pub fn_id: FunctionId,
    pub name: String,
    pub symbols: SymbolMap,
}

/// The copies among the opcodes as a map from the slot written to the slot
/// read; a later copy to the same slot replaces an earlier one.
pub open spec fn copy_map(ops: Seq<LocatedOpCode>) -> Map<Slot, Slot>
    decreases ops.len(),
{
    if ops.len() == 0 {
        Map::empty()
    } else {
        let m = copy_map(ops.drop_last());
        match ops.last().op {
            OpCode::Assign(a) => m.insert(a.lhs, a.rhs),
            _ => m,
        }
    }
}

/// The map listed by pairs, a later pair replacing an earlier one.
pub open spec fn pairs_map(s: Seq<(Slot, Slot)>) -> Map<Slot, Slot>
    decreases s.len(),
{
    if s.len() == 0 {
        Map::empty()
    } else {
        pairs_map(s.drop_last()).insert(s.last().0, s.last().1)
    }
}

/// No slot is listed twice.
pub open spec fn keys_distinct(s: Seq<(Slot, Slot)>) -> bool {
    forall|i: int, j: int| 0 <= i < j < s.len() ==> (#[trigger] s[i]).0 != (#[trigger] s[j]).0
}

proof fn lemma_pairs_map_domain(s: Seq<(Slot, Slot)>, k: Slot)
    ensures
        pairs_map(s).contains_key(k) <==> exists|i: int| 0 <= i < s.len() && (#[trigger] s[i]).0 == k,
    decreases s.len(),
{
    if s.len() > 0 {
        lemma_pairs_map_domain(s.drop_last(), k);
        if pairs_map(s.drop_last()).contains_key(k) {
            let i = choose|i: int| 0 <= i < s.drop_last().len() && (#[trigger] s.drop_last()[i]).0 == k;
            assert(s[i] == s.drop_last()[i]);
        }
        if exists|i: int| 0 <= i < s.len() && (#[trigger] s[i]).0 == k {
            let i = choose|i: int| 0 <= i < s.len() && (#[trigger] s[i]).0 == k;
            if i < s.len() - 1 {
                assert(s.drop_last()[i] == s[i]);
            }
        }
    }
}

proof fn lemma_pairs_map_update(s: Seq<(Slot, Slot)>, j: int, v: Slot)
    requires
        0 <= j < s.len(),
        keys_distinct(s),
    ensures
        pairs_map(s.update(j, (s[j].0, v))) == pairs_map(s).insert(s[j].0, v),
    decreases s.len(),
{
    let t = s.update(j, (s[j].0, v));
    if j == s.len() - 1 {
        assert(t.drop_last() =~= s.drop_last());
        assert(pairs_map(t) =~= pairs_map(s).insert(s[j].0, v));
    } else {
        assert(t.drop_last() =~= s.drop_last().update(j, (s[j].0, v)));
        assert(keys_distinct(s.drop_last()));
        lemma_pairs_map_update(s.drop_last(), j, v);
        assert(s.last().0 != s[j].0);
        assert(pairs_map(t) =~= pairs_map(s).insert(s[j].0, v));
    }
}

impl Mir {
    /// Maps each slot that a copy writes to the slot the last such copy reads.
    /// The result lists each written slot once.
    pub fn build_slot_equivalence_map(&self) -> (r: Vec<(Slot, Slot)>)
        ensures
            keys_distinct(r@),
            pairs_map(r@) == copy_map(self.ops@),
    {
        let mut out: Vec<(Slot, Slot)> = Vec::new();
        let mut i: usize = 0;
        while i < self.ops.len()
            invariant
                i <= self.ops.len(),
                keys_distinct(out@),
                pairs_map(out@) == copy_map(self.ops@.take(i as int)),
            decreases self.ops.len() - i,
        {
            proof {
                assert(self.ops@.take(i + 1).drop_last() =~= self.ops@.take(i as int));
                assert(self.ops@.take(i + 1).last() == self.ops@[i as int]);
            }
            if let OpCode::Assign(a) = &self.ops[i].op {
                let mut j: usize = 0;
                let mut found = false;
                while j < out.len() && !found
                    invariant
                        j <= out.len(),
                        found ==> j < out.len() && out@[j as int].0 == a.lhs,
                        forall|m: int| 0 <= m < j ==> (#[trigger] out@[m]).0 != a.lhs,
                    decreases out.len() - j, if found { 0int } else { 1int },
                {
                    if out[j].0 == a.lhs {
                        found = true;
                    } else {
                        j += 1;
                    }
                }
                if found {
                    let ghost before = out@;
                    proof {
                        lemma_pairs_map_update(out@, j as int, a.rhs);
                    }
                    out.set(j, (a.lhs, a.rhs));
                    proof {
                        assert forall|x: int, y: int| 0 <= x < y < out@.len() implies (#[trigger] out@[x]).0
                            != (#[trigger] out@[y]).0 by {
                            assert(before[x].0 == out@[x].0);
                            assert(before[y].0 == out@[y].0);
                        }
                    }
                } else {
                    let ghost before = out@;
                    out.push((a.lhs, a.rhs));
                    proof {
                        assert(out@.drop_last() =~= before);
                    }
                }
            }
            i += 1;
        }
        proof {
            assert(self.ops@.take(self.ops@.len() as int) =~= self.ops@);
        }
        out
    }
}

} // verus!
