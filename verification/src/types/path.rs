use vstd::prelude::*;

use core::ops::Range;

use crate::error::RHDLError;
use crate::ast::Member;
use crate::rhif::spec::Slot;
use crate::types::kind::{
    clone_kind, fields_bits, fields_bounded, kv_bits, kv_bounded, lemma_fields_view_index,
    lemma_fields_view_len, lemma_kinds_view_index, lemma_kinds_view_len, seq_bits, seq_bounded,
    FieldView, Kind, KindView,
};

verus! {

/// One step of a path into a value.
#[derive(Debug)]
pub enum PathElement {
    /// Element `i` of an array.
    Index(usize),
    /// The field with the given name.
    Field(String),
    /// Element `i` of a tuple (or positional field `i` of a struct).
    TupleIndex(usize),
    /// An array element chosen at run time by the value of a slot.
    DynamicIndex(Slot),
    /// The data carried by a signal.
    SignalValue,
}

/// Model of a [`PathElement`].
pub enum PathElementView {
    Index(nat),
    Field(Seq<char>),
    TupleIndex(nat),
    DynamicIndex(Slot),
    SignalValue,
}

impl View for PathElement {
    type V = PathElementView;

    open spec fn view(&self) -> PathElementView {
        match self {
            PathElement::Index(i) => PathElementView::Index(*i as nat),
            PathElement::Field(n) => PathElementView::Field(n@),
            PathElement::TupleIndex(i) => PathElementView::TupleIndex(*i as nat),
            PathElement::DynamicIndex(s) => PathElementView::DynamicIndex(*s),
            PathElement::SignalValue => PathElementView::SignalValue,
        }
    }
}

/// A sequence of steps selecting part of a value.
#[derive(Debug)]
pub struct Path {
    pub elements: Vec<PathElement>,
}

impl View for Path {
    type V = Seq<PathElementView>;

    open spec fn view(&self) -> Seq<PathElementView> {
        self.elements@.map_values(|e: PathElement| e@)
    }
}

/// The slots used as run-time indices, in order.
pub open spec fn path_dynamic_slots(p: Seq<PathElementView>) -> Seq<Slot>
    decreases p.len(),
{
    if p.len() == 0 {
        Seq::empty()
    } else {
        let rest = path_dynamic_slots(p.drop_first());
        match p[0] {
            PathElementView::DynamicIndex(s) => seq![s] + rest,
            _ => rest,
        }
    }
}

pub open spec fn is_dynamic(e: PathElementView) -> bool {
    e is DynamicIndex
}

/// Replaces each run-time index by a fixed index: `1` for the slot `which`
/// (when given) and `0` for all others.
pub open spec fn fix_dynamic(e: PathElementView, which: Option<Slot>) -> PathElementView {
    match e {
        PathElementView::DynamicIndex(s) => if which == Some(s) {
            PathElementView::Index(1)
        } else {
            PathElementView::Index(0)
        },
        _ => e,
    }
}

/// First position of a field with the given name.
pub open spec fn field_pos(fs: Seq<FieldView>, name: Seq<char>) -> Option<nat>
    decreases fs.len(),
{
    if fs.len() == 0 {
        None
    } else if fs[0].name == name {
        Some(0)
    } else {
        match field_pos(fs.drop_first(), name) {
            Some(j) => Some(j + 1),
            None => None,
        }
    }
}

/// One step into a kind: the bit offset of the selected part and its kind.
pub open spec fn kv_step(k: KindView, e: PathElementView) -> Option<(nat, KindView)>
    decreases k,
{
    match e {
        PathElementView::SignalValue => match k {
            KindView::Signal(b, _) => Some((0, *b)),
            _ => None,
        },
        _ => match k {
            KindView::Signal(b, c) => match kv_step(*b, e) {
                Some((o, sk)) => Some((o, KindView::Signal(Box::new(sk), c))),
                None => None,
            },
            KindView::Array(b, n) => match e {
                PathElementView::Index(i) => if i < n {
                    Some((i * kv_bits(*b), *b))
                } else {
                    None
                },
                _ => None,
            },
            KindView::Tuple(s) => match e {
                PathElementView::TupleIndex(i) => if i < s.len() {
                    Some((seq_bits(s.take(i as int)), s[i as int]))
                } else {
                    None
                },
                _ => None,
            },
            KindView::Struct(_, fs) => match e {
                PathElementView::TupleIndex(i) => if i < fs.len() {
                    Some((fields_bits(fs.take(i as int)), fs[i as int].kind))
                } else {
                    None
                },
                PathElementView::Field(name) => match field_pos(fs, name) {
                    Some(j) => Some((fields_bits(fs.take(j as int)), fs[j as int].kind)),
                    None => None,
                },
                _ => None,
            },
            _ => None,
        },
    }
}

/// The bit range `[start, end)` selected by a path, and the kind found there.
pub open spec fn kv_range(k: KindView, p: Seq<PathElementView>) -> Option<(nat, nat, KindView)>
    decreases p.len(),
{
    if p.len() == 0 {
        Some((0, kv_bits(k), k))
    } else {
        match kv_step(k, p[0]) {
            Some((o, sk)) => match kv_range(sk, p.drop_first()) {
                Some((s, e, kk)) => Some((o + s, o + e, kk)),
                None => None,
            },
            None => None,
        }
    }
}

/// Offset of element `i` of a tuple: the total width of the elements before it.
fn tuple_offset(v: &Vec<Kind>, i: usize) -> (r: usize)
    requires
        i < v.len(),
        seq_bounded(crate::types::kind::kinds_view(v@)),
        seq_bits(crate::types::kind::kinds_view(v@)) <= usize::MAX,
    ensures
        r == seq_bits(crate::types::kind::kinds_view(v@).take(i as int)),
{
    let ghost s = crate::types::kind::kinds_view(v@);
    proof {
        lemma_kinds_view_len(v@);
        assert(s.take(0) =~= Seq::<KindView>::empty());
    }
    let mut acc: usize = 0;
    let mut j: usize = 0;
    while j < i
        invariant
            j <= i < v.len(),
            s == crate::types::kind::kinds_view(v@),
            s.len() == v.len(),
            seq_bounded(s),
            seq_bits(s) <= usize::MAX,
            acc == seq_bits(s.take(j as int)),
        decreases i - j,
    {
        proof {
            lemma_kinds_view_index(v@, j as int);
            crate::types::kind::lemma_seq_bounded_index(s, j as int);
            crate::types::kind::lemma_seq_bits_prefix(s, j as int);
        }
        acc = acc + v[j].bits();
        j += 1;
    }
    acc
}

/// Offset of field `i` of a struct: the total width of the fields before it.
fn struct_offset(v: &Vec<crate::types::kind::Field>, i: usize) -> (r: usize)
    requires
        i < v.len(),
        fields_bounded(crate::types::kind::fields_view(v@)),
        fields_bits(crate::types::kind::fields_view(v@)) <= usize::MAX,
    ensures
        r == fields_bits(crate::types::kind::fields_view(v@).take(i as int)),
{
    let ghost s = crate::types::kind::fields_view(v@);
    proof {
        lemma_fields_view_len(v@);
        assert(s.take(0) =~= Seq::<FieldView>::empty());
    }
    let mut acc: usize = 0;
    let mut j: usize = 0;
    while j < i
        invariant
            j <= i < v.len(),
            s == crate::types::kind::fields_view(v@),
            s.len() == v.len(),
            fields_bounded(s),
            fields_bits(s) <= usize::MAX,
            acc == fields_bits(s.take(j as int)),
        decreases i - j,
    {
        proof {
            lemma_fields_view_index(v@, j as int);
            crate::types::kind::lemma_fields_bounded_index(s, j as int);
            crate::types::kind::lemma_fields_bits_prefix(s, j as int);
        }
        acc = acc + v[j].kind.bits();
        j += 1;
    }
    acc
}

/// Position of the first field called `name`.
pub fn find_field(v: &Vec<crate::types::kind::Field>, name: &String) -> (r: Option<usize>)
    ensures
        match r {
            Some(j) => field_pos(crate::types::kind::fields_view(v@), name@) == Some(j as nat),
            None => field_pos(crate::types::kind::fields_view(v@), name@) is None,
        },
{
    let ghost s = crate::types::kind::fields_view(v@);
    proof {
        lemma_fields_view_len(v@);
    }
    let mut j: usize = 0;
    while j < v.len()
        invariant
            j <= v.len(),
            s == crate::types::kind::fields_view(v@),
            s.len() == v.len(),
            forall|k: int| 0 <= k < j ==> s[k].name != name@,
        decreases v.len() - j,
    {
        proof {
            lemma_fields_view_index(v@, j as int);
        }
        if v[j].name == *name {
            proof {
                lemma_field_pos_found(s, name@, j as int);
            }
            return Some(j);
        }
        j += 1;
    }
    proof {
        lemma_field_pos_absent(s, name@);
    }
    None
}

proof fn lemma_field_pos_found(s: Seq<FieldView>, name: Seq<char>, j: int)
    requires
        0 <= j < s.len(),
        s[j].name == name,
        forall|k: int| 0 <= k < j ==> s[k].name != name,
    ensures
        field_pos(s, name) == Some(j as nat),
    decreases j,
{
    if j > 0 {
        lemma_field_pos_found(s.drop_first(), name, j - 1);
    }
}

proof fn lemma_field_pos_absent(s: Seq<FieldView>, name: Seq<char>)
    requires
        forall|k: int| 0 <= k < s.len() ==> s[k].name != name,
    ensures
        field_pos(s, name) is None,
    decreases s.len(),
{
    if s.len() > 0 {
        lemma_field_pos_absent(s.drop_first(), name);
    }
}

pub proof fn lemma_field_pos_bound(s: Seq<FieldView>, name: Seq<char>)
    ensures
        field_pos(s, name) matches Some(j) ==> j < s.len(),
    decreases s.len(),
{
    if s.len() > 0 {
        lemma_field_pos_bound(s.drop_first(), name);
    }
}

/// The selected part lies inside the whole, and is itself bounded.
pub open spec fn step_fits(k: KindView, r: Option<(nat, KindView)>) -> bool {
    r matches Some((o, sk)) ==> o + kv_bits(sk) <= kv_bits(k) && kv_bounded(sk)
}

proof fn lemma_array_fits(i: nat, n: nat, b: nat)
    requires
        i < n,
    ensures
        i * b + b <= b * n,
{
    assert(i * b + b == (i + 1) * b) by (nonlinear_arith);
    assert((i + 1) * b <= n * b) by (nonlinear_arith)
        requires
            i + 1 <= n,
    ;
    assert(n * b == b * n) by (nonlinear_arith);
}

/// One exec step into a kind.
pub fn kind_step(k: &Kind, e: &PathElement) -> (r: Option<(usize, Kind)>)
    requires
        kv_bounded(k@),
    ensures
        match r {
            Some((o, sk)) => kv_step(k@, e@) == Some((o as nat, sk@)),
            None => kv_step(k@, e@) is None,
        },
        step_fits(k@, kv_step(k@, e@)),
    decreases k,
{
    match e {
        PathElement::SignalValue => {
            match k {
                Kind::Signal(b, c) => {
                    proof {
                        assert(k@ == KindView::Signal(Box::new(b@), *c));
                    }
                    Some((0, clone_kind(b)))
                },
                _ => None,
            }
        },
        _ => {
            match k {
                Kind::Signal(b, c) => {
                    proof {
                        assert(k@ == KindView::Signal(Box::new(b@), *c));
                    }
                    match kind_step(b, e) {
                        Some((o, sk)) => {
                            proof {
                                assert(kv_bits(KindView::Signal(Box::new(sk@), *c)) == kv_bits(sk@));
                            }
                            Some((o, Kind::Signal(Box::new(sk), *c)))
                        },
                        None => None,
                    }
                },
                Kind::Array(b, n) => {
                    proof {
                        assert(k@ == KindView::Array(Box::new(b@), *n as nat));
                    }
                    match e {
                        PathElement::Index(i) => {
                            if *i < *n {
                                let w = b.bits();
                                proof {
                                    lemma_array_fits(*i as nat, *n as nat, w as nat);
                                    assert(*i * w <= w * *n) by (nonlinear_arith)
                                        requires
                                            *i < *n,
                                    ;
                                }
                                Some((*i * w, clone_kind(b)))
                            } else {
                                None
                            }
                        },
                        _ => None,
                    }
                },
                Kind::Tuple(v) => {
                    proof {
                        assert(k@ == KindView::Tuple(crate::types::kind::kinds_view(v@)));
                        lemma_kinds_view_len(v@);
                    }
                    match e {
                        PathElement::TupleIndex(i) => {
                            if *i < v.len() {
                                let o = tuple_offset(v, *i);
                                proof {
                                    lemma_kinds_view_index(v@, *i as int);
                                    crate::types::kind::lemma_seq_bounded_index(
                                        crate::types::kind::kinds_view(v@),
                                        *i as int,
                                    );
                                    crate::types::kind::lemma_seq_bits_prefix(
                                        crate::types::kind::kinds_view(v@),
                                        *i as int,
                                    );
                                }
                                Some((o, clone_kind(&v[*i])))
                            } else {
                                None
                            }
                        },
                        _ => None,
                    }
                },
                Kind::Struct(n, v) => {
                    proof {
                        assert(k@ == KindView::Struct(n@, crate::types::kind::fields_view(v@)));
                        lemma_fields_view_len(v@);
                    }
                    let pos = match e {
                        PathElement::TupleIndex(i) => {
                            if *i < v.len() {
                                Some(*i)
                            } else {
                                None
                            }
                        },
                        PathElement::Field(name) => {
                            proof {
                                lemma_field_pos_bound(crate::types::kind::fields_view(v@), name@);
                            }
                            find_field(v, name)
                        },
                        _ => None,
                    };
                    match pos {
                        Some(j) => {
                            let o = struct_offset(v, j);
                            proof {
                                lemma_fields_view_index(v@, j as int);
                                crate::types::kind::lemma_fields_bounded_index(
                                    crate::types::kind::fields_view(v@),
                                    j as int,
                                );
                                crate::types::kind::lemma_fields_bits_prefix(
                                    crate::types::kind::fields_view(v@),
                                    j as int,
                                );
                            }
                            Some((o, clone_kind(&v[j].kind)))
                        },
                        None => None,
                    }
                },
                _ => None,
            }
        },
    }
}

pub open spec fn shift_range(o: nat, r: Option<(nat, nat, KindView)>) -> Option<(nat, nat, KindView)> {
    match r {
        Some((s, e, k)) => Some((o + s, o + e, k)),
        None => None,
    }
}

/// The bit range selected by a static path, and the kind found there.
/// Fails when the path does not apply to the kind (including when it holds a
/// run-time index).
pub fn bit_range(kind: &Kind, path: &Path) -> (r: Result<(Range<usize>, Kind), RHDLError>)
    requires
        kv_bounded(kind@),
    ensures
        match r {
            Ok((rg, sk)) => kv_range(kind@, path@) == Some((rg.start as nat, rg.end as nat, sk@)),
            Err(e) => kv_range(kind@, path@) is None && e is InvalidPath,
        },
        r matches Ok((rg, sk)) ==> rg.start <= rg.end && kv_bounded(sk@) && rg.end as nat
            == rg.start as nat + kv_bits(sk@) && rg.end as nat <= kv_bits(kind@),
{
    let mut cur = clone_kind(kind);
    let mut off: usize = 0;
    let mut i: usize = 0;
    proof {
        assert(path@.skip(0) =~= path@);
    }
    while i < path.elements.len()
        invariant
            i <= path.elements.len(),
            path@.len() == path.elements.len(),
            kv_bounded(cur@),
            kv_bounded(kind@),
            off + kv_bits(cur@) <= kv_bits(kind@),
            kv_range(kind@, path@) == shift_range(off as nat, kv_range(cur@, path@.skip(i as int))),
        decreases path.elements.len() - i,
    {
        proof {
            assert(path@.skip(i as int)[0] == path@[i as int]);
            assert(path@.skip(i as int).drop_first() =~= path@.skip(i + 1));
        }
        match kind_step(&cur, &path.elements[i]) {
            None => {
                return Err(RHDLError::InvalidPath);
            },
            Some((o, sk)) => {
                off = off + o;
                cur = sk;
            },
        }
        i += 1;
    }
    proof {
        assert(path@.skip(i as int) =~= Seq::<PathElementView>::empty());
    }
    let w = cur.bits();
    Ok((Range { start: off, end: off + w }, cur))
}

/// The kind selected by a static path.
pub fn sub_kind(kind: &Kind, path: &Path) -> (r: Result<Kind, RHDLError>)
    requires
        kv_bounded(kind@),
    ensures
        match r {
            Ok(sk) => kv_range(kind@, path@) matches Some((_, _, k)) && k == sk@,
            Err(e) => kv_range(kind@, path@) is None && e is InvalidPath,
        },
        r matches Ok(sk) ==> kv_bounded(sk@),
{
    match bit_range(kind, path) {
        Ok((_, k)) => Ok(k),
        Err(e) => Err(e),
    }
}

impl PathElement {
    /// A copy of this element.
    pub fn copy(&self) -> (r: PathElement)
        ensures
            r@ == self@,
    {
        match self {
            PathElement::Index(i) => PathElement::Index(*i),
            PathElement::Field(n) => PathElement::Field(n.clone()),
            PathElement::TupleIndex(i) => PathElement::TupleIndex(*i),
            PathElement::DynamicIndex(s) => PathElement::DynamicIndex(*s),
            PathElement::SignalValue => PathElement::SignalValue,
        }
    }
}

impl Path {
    /// The empty path.
    pub fn new() -> (r: Path)
        ensures
            r@ == Seq::<PathElementView>::empty(),
    {
        let r = Path { elements: Vec::new() };
        proof {
            assert(r@ =~= Seq::<PathElementView>::empty());
        }
        r
    }

    pub fn len(&self) -> (r: usize)
        ensures
            r == self@.len(),
    {
        self.elements.len()
    }

    pub fn is_empty(&self) -> (r: bool)
        ensures
            r == (self@.len() == 0),
    {
        self.elements.len() == 0
    }

    /// A copy of this path.
    pub fn copy(&self) -> (r: Path)
        ensures
            r@ == self@,
    {
        let mut out: Vec<PathElement> = Vec::new();
        let mut i: usize = 0;
        while i < self.elements.len()
            invariant
                i <= self.elements.len(),
                self@.len() == self.elements.len(),
                out@.map_values(|e: PathElement| e@) == self@.take(i as int),
            decreases self.elements.len() - i,
        {
            let e = self.elements[i].copy();
            proof {
                assert(e@ == self@[i as int]);
                assert(out@.push(e).map_values(|e: PathElement| e@) =~= out@.map_values(
                    |e: PathElement| e@,
                ).push(e@));
                assert(self@.take(i + 1) =~= self@.take(i as int).push(self@[i as int]));
            }
            out.push(e);
            i += 1;
        }
        proof {
            assert(self@.take(self@.len() as int) =~= self@);
        }
        Path { elements: out }
    }

    /// Appends one element.
    pub fn push(&mut self, e: PathElement)
        ensures
            final(self)@ == old(self)@.push(e@),
    {
        self.elements.push(e);
        proof {
            assert(final(self)@ =~= old(self)@.push(e@));
        }
    }

    /// This path followed by element `i` of an array.
    pub fn index(self, i: usize) -> (r: Path)
        ensures
            r@ == self@.push(PathElementView::Index(i as nat)),
    {
        let mut p = self;
        p.push(PathElement::Index(i));
        p
    }

    /// This path followed by element `i` of a tuple.
    pub fn tuple_index(self, i: usize) -> (r: Path)
        ensures
            r@ == self@.push(PathElementView::TupleIndex(i as nat)),
    {
        let mut p = self;
        p.push(PathElement::TupleIndex(i));
        p
    }

    /// This path followed by the named field.
    pub fn field(self, name: &String) -> (r: Path)
        ensures
            r@ == self@.push(PathElementView::Field(name@)),
    {
        let mut p = self;
        p.push(PathElement::Field(name.clone()));
        p
    }

    /// This path followed by a struct member: a named field or a position.
    pub fn member(self, m: &Member) -> (r: Path)
        ensures
            r@ == self@.push(member_element(*m)),
    {
        match m {
            Member::Named(n) => self.field(n),
            Member::Unnamed(i) => self.tuple_index(*i as usize),
        }
    }

    /// Does any element index at run time?
    pub fn any_dynamic(&self) -> (r: bool)
        ensures
            r == exists|j: int| 0 <= j < self@.len() && is_dynamic(#[trigger] self@[j]),
    {
        let mut i: usize = 0;
        while i < self.elements.len()
            invariant
                i <= self.elements.len(),
                self@.len() == self.elements.len(),
                forall|j: int| 0 <= j < i ==> !is_dynamic(#[trigger] self@[j]),
            decreases self.elements.len() - i,
        {
            if let PathElement::DynamicIndex(_) = &self.elements[i] {
                proof {
                    assert(is_dynamic(self@[i as int]));
                }
                return true;
            }
            i += 1;
        }
        false
    }

    /// The slots used as run-time indices, in order.
    pub fn dynamic_slots(&self) -> (r: Vec<Slot>)
        ensures
            r@ == path_dynamic_slots(self@),
    {
        let mut out: Vec<Slot> = Vec::new();
        let mut i: usize = self.elements.len();
        proof {
            assert(self@.skip(i as int) =~= Seq::<PathElementView>::empty());
        }
        while i > 0
            invariant
                i <= self.elements.len(),
                self@.len() == self.elements.len(),
                out@ == path_dynamic_slots(self@.skip(i as int)).reverse(),
            decreases i,
        {
            i -= 1;
            proof {
                assert(self@.skip(i as int).drop_first() =~= self@.skip(i + 1));
                assert(self@.skip(i as int)[0] == self@[i as int]);
            }
            if let PathElement::DynamicIndex(s) = &self.elements[i] {
                out.push(*s);
                proof {
                    assert(out@ =~= path_dynamic_slots(self@.skip(i as int)).reverse());
                }
            }
        }
        let mut rev: Vec<Slot> = Vec::new();
        let mut j: usize = out.len();
        while j > 0
            invariant
                j <= out.len(),
                rev@ == out@.skip(j as int).reverse(),
            decreases j,
        {
            j -= 1;
            rev.push(out[j]);
            proof {
                assert(rev@ =~= out@.skip(j as int).reverse());
            }
        }
        proof {
            assert(out@.skip(0) =~= out@);
            assert(self@.skip(0) =~= self@);
            assert(path_dynamic_slots(self@).reverse().reverse() =~= path_dynamic_slots(self@));
        }
        rev
    }

    /// Replaces every run-time index by a fixed one: `1` for the slot `which`
    /// (when given), `0` for all others.
    fn fixed(&self, which: Option<Slot>) -> (r: Path)
        ensures
            r@ == self@.map_values(|e: PathElementView| fix_dynamic(e, which)),
    {
        let mut out: Vec<PathElement> = Vec::new();
        let mut i: usize = 0;
        while i < self.elements.len()
            invariant
                i <= self.elements.len(),
                self@.len() == self.elements.len(),
                out@.map_values(|e: PathElement| e@) == self@.take(i as int).map_values(
                    |e: PathElementView| fix_dynamic(e, which),
                ),
            decreases self.elements.len() - i,
        {
            let e = match &self.elements[i] {
                PathElement::DynamicIndex(s) => {
                    if which == Some(*s) {
                        PathElement::Index(1)
                    } else {
                        PathElement::Index(0)
                    }
                },
                other => other.copy(),
            };
            proof {
                assert(e@ == fix_dynamic(self@[i as int], which));
                assert(out@.push(e).map_values(|e: PathElement| e@) =~= out@.map_values(
                    |e: PathElement| e@,
                ).push(e@));
                assert(self@.take(i + 1).map_values(|e: PathElementView| fix_dynamic(e, which))
                    =~= self@.take(i as int).map_values(
                    |e: PathElementView| fix_dynamic(e, which),
                ).push(fix_dynamic(self@[i as int], which)));
            }
            out.push(e);
            i += 1;
        }
        proof {
            assert(self@.take(self@.len() as int) =~= self@);
        }
        Path { elements: out }
    }

    /// This path with every run-time index replaced by `0`.
    pub fn zero_out_dynamic_indices(&self) -> (r: Path)
        ensures
            r@ == self@.map_values(|e: PathElementView| fix_dynamic(e, None)),
    {
        self.fixed(None)
    }

    /// This path with the run-time index `slot` replaced by `1` and every other
    /// run-time index by `0`: the element one stride past the base.
    pub fn stride_path(&self, slot: Slot) -> (r: Path)
        ensures
            r@ == self@.map_values(|e: PathElementView| fix_dynamic(e, Some(slot))),
    {
        self.fixed(Some(slot))
    }
}

/// The path element selecting a struct member.
pub open spec fn member_element(m: Member) -> PathElementView {
    match m {
        Member::Named(n) => PathElementView::Field(n@),
        Member::Unnamed(i) => PathElementView::TupleIndex(i as nat),
    }
}


/// Advancing run-time index `w` by one moves a step no earlier, and selects
/// the same kind.
pub proof fn lemma_step_fix(k: KindView, e: PathElementView, w: Slot)
    ensures
        kv_step(k, fix_dynamic(e, None)) is Some && kv_step(k, fix_dynamic(e, Some(w))) is Some ==> {
            &&& kv_step(k, fix_dynamic(e, None))->Some_0.0 <= kv_step(k, fix_dynamic(e, Some(w)))->Some_0.0
            &&& kv_step(k, fix_dynamic(e, None))->Some_0.1 == kv_step(k, fix_dynamic(e, Some(w)))->Some_0.1
        },
    decreases k,
{
    match k {
        KindView::Signal(b, _) => {
            if !(fix_dynamic(e, None) is SignalValue) {
                lemma_step_fix(*b, e, w);
            }
        },
        _ => {},
    }
}

/// With every run-time index at `0`, and with index `w` advanced to `1`, a
/// path selects the same kind, over the same width, the second no earlier
/// than the first.
pub proof fn lemma_range_fix(k: KindView, p: Seq<PathElementView>, w: Slot)
    ensures
        ({
            let base = kv_range(k, p.map_values(|e: PathElementView| fix_dynamic(e, None)));
            let stride = kv_range(k, p.map_values(|e: PathElementView| fix_dynamic(e, Some(w))));
            base is Some && stride is Some ==> {
                &&& base->Some_0.0 <= stride->Some_0.0
                &&& base->Some_0.2 == stride->Some_0.2
                &&& base->Some_0.1 - base->Some_0.0 == stride->Some_0.1 - stride->Some_0.0
            }
        }),
    decreases p.len(),
{
    let p0 = p.map_values(|e: PathElementView| fix_dynamic(e, None));
    let p1 = p.map_values(|e: PathElementView| fix_dynamic(e, Some(w)));
    if p.len() > 0 {
        assert(p0.drop_first() =~= p.drop_first().map_values(|e: PathElementView| fix_dynamic(e, None)));
        assert(p1.drop_first() =~= p.drop_first().map_values(|e: PathElementView| fix_dynamic(e, Some(w))));
        assert(p0[0] == fix_dynamic(p[0], None));
        assert(p1[0] == fix_dynamic(p[0], Some(w)));
        lemma_step_fix(k, p[0], w);
        match (kv_step(k, p0[0]), kv_step(k, p1[0])) {
            (Some((o0, k0)), Some((o1, k1))) => {
                lemma_range_fix(k0, p.drop_first(), w);
            },
            _ => {},
        }
    }
}

} // verus!
