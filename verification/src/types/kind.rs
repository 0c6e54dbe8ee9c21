use vstd::prelude::*;

verus! {

broadcast use vstd::std_specs::vec::group_vec_axioms;

/// Clock domains.
#[derive(Clone, Copy, Debug, PartialEq, Eq, Structural)]
pub enum Color {
    Red,
    Orange,
    Yellow,
    Green,
    Blue,
    Indigo,
    Violet,
}

/// How an enum variant is matched.
#[derive(Clone, Copy, Debug, PartialEq, Eq, Structural)]
pub enum VariantType {
    Normal,
    Unmatched,
}

/// The hardware type of a value.
#[derive(Debug)]
pub enum Kind {
    Empty,
    Bits(usize),
    Signed(usize),
    Array(Box<Kind>, usize),
    Tuple(Vec<Kind>),
    Struct(String, Vec<Field>),
    Signal(Box<Kind>, Color),
}

/// A named field of a struct kind.
#[derive(Debug)]
pub struct Field {
    pub name: String,
    pub kind: Kind,
}

/// Mathematical model of a [`Kind`].
pub enum KindView {
    Empty,
    Bits(nat),
    Signed(nat),
    Array(Box<KindView>, nat),
    Tuple(Seq<KindView>),
    Struct(Seq<char>, Seq<FieldView>),
    Signal(Box<KindView>, Color),
}

/// Mathematical model of a [`Field`].
pub struct FieldView {
    pub name: Seq<char>,
    pub kind: KindView,
}

pub open spec fn kinds_view(s: Seq<Kind>) -> Seq<KindView>
    decreases s, 1nat,
{
    if s.len() == 0 {
        Seq::empty()
    } else {
        seq![kind_view(s[0])].add(kinds_view(s.drop_first()))
    }
}

pub open spec fn fields_view(s: Seq<Field>) -> Seq<FieldView>
    decreases s, 1nat,
{
    if s.len() == 0 {
        Seq::empty()
    } else {
        seq![FieldView { name: s[0].name@, kind: kind_view(s[0].kind) }].add(
            fields_view(s.drop_first()),
        )
    }
}

pub open spec fn kind_view(k: Kind) -> KindView
    decreases k, 0nat,
{
    match k {
        Kind::Empty => KindView::Empty,
        Kind::Bits(n) => KindView::Bits(n as nat),
        Kind::Signed(n) => KindView::Signed(n as nat),
        Kind::Array(b, n) => KindView::Array(Box::new(kind_view(*b)), n as nat),
        Kind::Tuple(v) => KindView::Tuple(kinds_view(v@)),
        Kind::Struct(n, v) => KindView::Struct(n@, fields_view(v@)),
        Kind::Signal(b, c) => KindView::Signal(Box::new(kind_view(*b)), c),
    }
}

impl View for Kind {
    type V = KindView;

    open spec fn view(&self) -> KindView {
        kind_view(*self)
    }
}

/// Copies a kind.
pub fn clone_kind(k: &Kind) -> (r: Kind)
    ensures
        r@ == k@,
    decreases k,
{
    match k {
        Kind::Empty => Kind::Empty,
        Kind::Bits(n) => Kind::Bits(*n),
        Kind::Signed(n) => Kind::Signed(*n),
        Kind::Array(b, n) => Kind::Array(Box::new(clone_kind(b)), *n),
        Kind::Signal(b, c) => Kind::Signal(Box::new(clone_kind(b)), *c),
        Kind::Tuple(v) => {
            let mut out: Vec<Kind> = Vec::new();
            let mut i: usize = 0;
            while i < v.len()
                invariant
                    i <= v.len(),
                    kinds_view(out@) == kinds_view(v@.take(i as int)),
                    *k == Kind::Tuple(*v),
                decreases v.len() - i,
            {
                proof {
                    assert(decreases_to!(v => v[i as int]));
                    assert(decreases_to!(*k => k->Tuple_0));
                    assert(decreases_to!(*k => v[i as int]));
                }
                let c = clone_kind(&v[i]);
                proof {
                    lemma_kinds_view_push(out@, c);
                    lemma_kinds_view_push(v@.take(i as int), v@[i as int]);
                    assert(v@.take(i as int).push(v@[i as int]) =~= v@.take(i + 1));
                }
                out.push(c);
                i += 1;
            }
            proof {
                assert(v@.take(v.len() as int) =~= v@);
            }
            Kind::Tuple(out)
        },
        Kind::Struct(n, v) => {
            let mut out: Vec<Field> = Vec::new();
            let mut i: usize = 0;
            while i < v.len()
                invariant
                    i <= v.len(),
                    fields_view(out@) == fields_view(v@.take(i as int)),
                    *k == Kind::Struct(*n, *v),
                decreases v.len() - i,
            {
                proof {
                    assert(decreases_to!(v => v[i as int]));
                    assert(decreases_to!(*k => k->Struct_1));
                    assert(decreases_to!(v[i as int] => v[i as int].kind));
                    assert(decreases_to!(*k => v[i as int].kind));
                }
                let c = Field { name: v[i].name.clone(), kind: clone_kind(&v[i].kind) };
                proof {
                    lemma_fields_view_push(out@, c);
                    lemma_fields_view_push(v@.take(i as int), v@[i as int]);
                    assert(v@.take(i as int).push(v@[i as int]) =~= v@.take(i + 1));
                }
                out.push(c);
                i += 1;
            }
            proof {
                assert(v@.take(v.len() as int) =~= v@);
            }
            Kind::Struct(n.clone(), out)
        },
    }
}

impl Clone for Kind {
    fn clone(&self) -> (r: Self)
        ensures
            r@ == self@,
    {
        clone_kind(self)
    }
}

impl Clone for Field {
    fn clone(&self) -> (r: Self)
        ensures
            r.name@ == self.name@,
            r.kind@ == self.kind@,
    {
        Field { name: self.name.clone(), kind: clone_kind(&self.kind) }
    }
}

/// Appending to a sequence of kinds appends to its model.
pub proof fn lemma_kinds_view_push(s: Seq<Kind>, k: Kind)
    ensures
        kinds_view(s.push(k)) == kinds_view(s).push(kind_view(k)),
    decreases s.len(),
{
    if s.len() == 0 {
        assert(s.push(k).drop_first() =~= Seq::<Kind>::empty());
        assert(kinds_view(Seq::<Kind>::empty()) == Seq::<KindView>::empty());
        assert(s.push(k)[0] == k);
        assert(kinds_view(s.push(k)) =~= seq![kind_view(k)]);
    } else {
        assert(s.push(k).drop_first() =~= s.drop_first().push(k));
        lemma_kinds_view_push(s.drop_first(), k);
        assert(kinds_view(s.push(k)) =~= kinds_view(s).push(kind_view(k)));
    }
}

/// Appending to a sequence of fields appends to its model.
pub proof fn lemma_fields_view_push(s: Seq<Field>, f: Field)
    ensures
        fields_view(s.push(f)) == fields_view(s).push(FieldView { name: f.name@, kind: kind_view(f.kind) }),
    decreases s.len(),
{
    if s.len() == 0 {
        assert(s.push(f).drop_first() =~= Seq::<Field>::empty());
        assert(fields_view(Seq::<Field>::empty()) == Seq::<FieldView>::empty());
        assert(s.push(f)[0] == f);
        assert(fields_view(s.push(f)) =~= seq![FieldView { name: f.name@, kind: kind_view(f.kind) }]);
    } else {
        assert(s.push(f).drop_first() =~= s.drop_first().push(f));
        lemma_fields_view_push(s.drop_first(), f);
        assert(fields_view(s.push(f)) =~= fields_view(s).push(FieldView { name: f.name@, kind: kind_view(f.kind) }));
    }
}

// ---------------------------------------------------------------------------
// Width and classification of kinds
// ---------------------------------------------------------------------------

/// Number of bits occupied by a value of this kind.
pub open spec fn kv_bits(k: KindView) -> nat
    decreases k, 0nat,
{
    match k {
        KindView::Empty => 0,
        KindView::Bits(n) => n,
        KindView::Signed(n) => n,
        KindView::Array(b, n) => kv_bits(*b) * n,
        KindView::Tuple(s) => seq_bits(s),
        KindView::Struct(_, fs) => fields_bits(fs),
        KindView::Signal(b, _) => kv_bits(*b),
    }
}

/// Total width of a sequence of kinds laid out one after the other.
pub open spec fn seq_bits(s: Seq<KindView>) -> nat
    decreases s, 1nat,
{
    if s.len() == 0 {
        0
    } else {
        kv_bits(s[0]) + seq_bits(s.drop_first())
    }
}

/// Total width of a sequence of struct fields laid out one after the other.
pub open spec fn fields_bits(s: Seq<FieldView>) -> nat
    decreases s, 1nat,
{
    if s.len() == 0 {
        0
    } else {
        kv_bits(s[0].kind) + fields_bits(s.drop_first())
    }
}

/// Every kind nested in `k` (and `k` itself) has a width that fits a `usize`.
pub open spec fn kv_bounded(k: KindView) -> bool
    decreases k, 0nat,
{
    &&& kv_bits(k) <= usize::MAX
    &&& match k {
        KindView::Array(b, _) => kv_bounded(*b),
        KindView::Tuple(s) => seq_bounded(s),
        KindView::Struct(_, fs) => fields_bounded(fs),
        KindView::Signal(b, _) => kv_bounded(*b),
        _ => true,
    }
}

pub open spec fn seq_bounded(s: Seq<KindView>) -> bool
    decreases s, 1nat,
{
    s.len() > 0 ==> kv_bounded(s[0]) && seq_bounded(s.drop_first())
}

pub open spec fn fields_bounded(s: Seq<FieldView>) -> bool
    decreases s, 1nat,
{
    s.len() > 0 ==> kv_bounded(s[0].kind) && fields_bounded(s.drop_first())
}

/// The data carried by a signal (the kind itself for non-signals).
pub open spec fn kv_signal_data(k: KindView) -> KindView {
    match k {
        KindView::Signal(b, _) => *b,
        _ => k,
    }
}

/// Signed kinds (looking through a signal wrapper).
pub open spec fn kv_is_signed(k: KindView) -> bool {
    kv_signal_data(k) is Signed
}

/// Unsigned bit vectors (looking through a signal wrapper).
pub open spec fn kv_is_unsigned(k: KindView) -> bool {
    kv_signal_data(k) is Bits
}

/// Kinds that carry no bits at all.
pub open spec fn kv_is_empty(k: KindView) -> bool {
    kv_bits(k) == 0
}

pub open spec fn kv_bool() -> KindView {
    KindView::Bits(1)
}

impl Kind {
    /// Width in bits.
    pub fn bits(&self) -> (r: usize)
        requires
            kv_bounded(self@),
        ensures
            r == kv_bits(self@),
        decreases self,
    {
        match self {
            Kind::Empty => 0,
            Kind::Bits(n) => *n,
            Kind::Signed(n) => *n,
            Kind::Signal(b, _) => b.bits(),
            Kind::Array(b, n) => {
                let w = b.bits();
                proof {
                    assert(kv_bits(self@) == kv_bits(b@) * (*n as nat));
                }
                w * *n
            },
            Kind::Tuple(v) => {
                let mut acc: usize = 0;
                let mut i: usize = 0;
                proof {
                    lemma_kinds_view_len(v@);
                    assert(kinds_view(v@).skip(0) =~= kinds_view(v@));
                }
                while i < v.len()
                    invariant
                        i <= v.len(),
                        kinds_view(v@).len() == v.len(),
                        *self == Kind::Tuple(*v),
                        kv_bounded(self@),
                        acc + seq_bits(kinds_view(v@).skip(i as int)) == seq_bits(kinds_view(v@)),
                    decreases v.len() - i,
                {
                    proof {
                        assert(decreases_to!(*self => self->Tuple_0));
                        assert(decreases_to!(v => v[i as int]));
                        lemma_kinds_view_index(v@, i as int);
                        lemma_seq_bounded_index(kinds_view(v@), i as int);
                        lemma_seq_bits_skip(kinds_view(v@), i as int);
                    }
                    let w = v[i].bits();
                    acc = acc + w;
                    i += 1;
                }
                proof {
                    assert(kinds_view(v@).skip(v.len() as int) =~= Seq::<KindView>::empty());
                }
                acc
            },
            Kind::Struct(n, v) => {
                let mut acc: usize = 0;
                let mut i: usize = 0;
                proof {
                    lemma_fields_view_len(v@);
                    assert(fields_view(v@).skip(0) =~= fields_view(v@));
                }
                while i < v.len()
                    invariant
                        i <= v.len(),
                        fields_view(v@).len() == v.len(),
                        *self == Kind::Struct(*n, *v),
                        kv_bounded(self@),
                        acc + fields_bits(fields_view(v@).skip(i as int)) == fields_bits(fields_view(v@)),
                    decreases v.len() - i,
                {
                    proof {
                        assert(decreases_to!(*self => self->Struct_1));
                        assert(decreases_to!(v => v[i as int]));
                        assert(decreases_to!(v[i as int] => v[i as int].kind));
                        lemma_fields_view_index(v@, i as int);
                        lemma_fields_bounded_index(fields_view(v@), i as int);
                        lemma_fields_bits_skip(fields_view(v@), i as int);
                    }
                    let w = v[i].kind.bits();
                    acc = acc + w;
                    i += 1;
                }
                proof {
                    assert(fields_view(v@).skip(v.len() as int) =~= Seq::<FieldView>::empty());
                }
                acc
            },
        }
    }

    /// Width in bits, if every part of the kind has a width that fits a
    /// `usize`.
    pub fn checked_bits(&self) -> (r: Option<usize>)
        ensures
            r is Some <==> kv_bounded(self@),
            r matches Some(n) ==> n == kv_bits(self@),
        decreases self,
    {
        match self {
            Kind::Empty => Some(0),
            Kind::Bits(n) => Some(*n),
            Kind::Signed(n) => Some(*n),
            Kind::Signal(b, _) => b.checked_bits(),
            Kind::Array(b, n) => match b.checked_bits() {
                Some(w) => {
                    proof {
                        assert(kv_bits(self@) == kv_bits(b@) * (*n as nat));
                    }
                    w.checked_mul(*n)
                },
                None => None,
            },
            Kind::Tuple(v) => {
                let ghost kv = kinds_view(v@);
                let mut acc: usize = 0;
                let mut i: usize = 0;
                proof {
                    lemma_kinds_view_len(v@);
                    assert(kv.skip(0) =~= kv);
                }
                while i < v.len()
                    invariant
                        i <= v.len(),
                        kv == kinds_view(v@),
                        kv.len() == v.len(),
                        *self == Kind::Tuple(*v),
                        acc + seq_bits(kv.skip(i as int)) == seq_bits(kv),
                        forall|j: int| 0 <= j < i ==> kv_bounded(#[trigger] kv[j]),
                    decreases v.len() - i,
                {
                    proof {
                        assert(decreases_to!(*self => self->Tuple_0));
                        assert(decreases_to!(v => v[i as int]));
                        lemma_kinds_view_index(v@, i as int);
                        lemma_seq_bits_skip(kv, i as int);
                    }
                    match v[i].checked_bits() {
                        None => {
                            proof {
                                if seq_bounded(kv) {
                                    lemma_seq_bounded_index(kv, i as int);
                                }
                            }
                            return None;
                        },
                        Some(w) => match acc.checked_add(w) {
                            None => {
                                return None;
                            },
                            Some(a) => {
                                acc = a;
                            },
                        },
                    }
                    i += 1;
                }
                proof {
                    assert(kv.skip(v.len() as int) =~= Seq::<KindView>::empty());
                    lemma_seq_bounded_skip(kv, 0);
                    assert(kv.skip(0) =~= kv);
                }
                Some(acc)
            },
            Kind::Struct(n, v) => {
                let ghost fv = fields_view(v@);
                let mut acc: usize = 0;
                let mut i: usize = 0;
                proof {
                    lemma_fields_view_len(v@);
                    assert(fv.skip(0) =~= fv);
                }
                while i < v.len()
                    invariant
                        i <= v.len(),
                        fv == fields_view(v@),
                        fv.len() == v.len(),
                        *self == Kind::Struct(*n, *v),
                        acc + fields_bits(fv.skip(i as int)) == fields_bits(fv),
                        forall|j: int| 0 <= j < i ==> kv_bounded(#[trigger] fv[j].kind),
                    decreases v.len() - i,
                {
                    proof {
                        assert(decreases_to!(*self => self->Struct_1));
                        assert(decreases_to!(v => v[i as int]));
                        assert(decreases_to!(v[i as int] => v[i as int].kind));
                        lemma_fields_view_index(v@, i as int);
                        lemma_fields_bits_skip(fv, i as int);
                    }
                    match v[i].kind.checked_bits() {
                        None => {
                            proof {
                                if fields_bounded(fv) {
                                    lemma_fields_bounded_index(fv, i as int);
                                }
                            }
                            return None;
                        },
                        Some(w) => match acc.checked_add(w) {
                            None => {
                                return None;
                            },
                            Some(a) => {
                                acc = a;
                            },
                        },
                    }
                    i += 1;
                }
                proof {
                    assert(fv.skip(v.len() as int) =~= Seq::<FieldView>::empty());
                    lemma_fields_bounded_skip(fv, 0);
                    assert(fv.skip(0) =~= fv);
                }
                Some(acc)
            },
        }
    }

    /// Is this kind signed (looking through a signal)?
    pub fn is_signed(&self) -> (r: bool)
        ensures
            r == kv_is_signed(self@),
    {
        match self {
            Kind::Signed(_) => true,
            Kind::Signal(b, c) => {
                proof {
                    assert(self@ == KindView::Signal(Box::new(b@), *c));
                }
                match &**b {
                    Kind::Signed(_) => true,
                    _ => false,
                }
            },
            _ => false,
        }
    }

    /// Is this kind an unsigned bit vector (looking through a signal)?
    pub fn is_unsigned(&self) -> (r: bool)
        ensures
            r == kv_is_unsigned(self@),
    {
        match self {
            Kind::Bits(_) => true,
            Kind::Signal(b, c) => {
                proof {
                    assert(self@ == KindView::Signal(Box::new(b@), *c));
                }
                match &**b {
                    Kind::Bits(_) => true,
                    _ => false,
                }
            },
            _ => false,
        }
    }

    /// Is this a signal kind?
    pub fn is_signal(&self) -> (r: bool)
        ensures
            r == (self@ is Signal),
    {
        matches!(self, Kind::Signal(_, _))
    }

    /// Does this kind occupy no bits?
    pub fn is_empty(&self) -> (r: bool)
        ensures
            r == kv_is_empty(self@),
        decreases self,
    {
        match self {
            Kind::Empty => true,
            Kind::Bits(n) => *n == 0,
            Kind::Signed(n) => *n == 0,
            Kind::Array(b, n) => {
                let e = b.is_empty();
                proof {
                    lemma_mul_zero(kv_bits(b@), *n as nat);
                }
                *n == 0 || e
            },
            Kind::Signal(b, _) => b.is_empty(),
            Kind::Tuple(v) => {
                proof {
                    lemma_kinds_view_len(v@);
                    lemma_seq_bits_zero(kinds_view(v@));
                }
                let mut i: usize = 0;
                while i < v.len()
                    invariant
                        i <= v.len(),
                        *self == Kind::Tuple(*v),
                        kinds_view(v@).len() == v@.len(),
                        forall|j: int| 0 <= j < i ==> kv_bits(#[trigger] kinds_view(v@)[j]) == 0,
                    decreases v.len() - i,
                {
                    proof {
                        assert(decreases_to!(v => v[i as int]));
                        assert(decreases_to!(*self => self->Tuple_0));
                        assert(decreases_to!(*self => v[i as int]));
                        lemma_kinds_view_index(v@, i as int);
                    }
                    if !v[i].is_empty() {
                        proof {
                            lemma_seq_bits_zero(kinds_view(v@));
                            assert(self@ == KindView::Tuple(kinds_view(v@)));
                        }
                        return false;
                    }
                    i += 1;
                }
                true
            },
            Kind::Struct(n, v) => {
                proof {
                    lemma_fields_view_len(v@);
                    lemma_fields_bits_zero(fields_view(v@));
                }
                let mut i: usize = 0;
                while i < v.len()
                    invariant
                        i <= v.len(),
                        *self == Kind::Struct(*n, *v),
                        fields_view(v@).len() == v@.len(),
                        forall|j: int| 0 <= j < i ==> kv_bits((#[trigger] fields_view(v@)[j]).kind) == 0,
                    decreases v.len() - i,
                {
                    proof {
                        assert(decreases_to!(v => v[i as int]));
                        assert(decreases_to!(*self => self->Struct_1));
                        assert(decreases_to!(v[i as int] => v[i as int].kind));
                        assert(decreases_to!(*self => v[i as int].kind));
                        lemma_fields_view_index(v@, i as int);
                    }
                    if !v[i].kind.is_empty() {
                        proof {
                            lemma_fields_bits_zero(fields_view(v@));
                            assert(self@ == KindView::Struct(n@, fields_view(v@)));
                        }
                        return false;
                    }
                    i += 1;
                }
                true
            },
        }
    }

    /// The clock domain of a signal kind.
    pub fn signal_clock(&self) -> (r: Option<Color>)
        ensures
            r == (match self@ {
                KindView::Signal(_, c) => Some(c),
                _ => None::<Color>,
            }),
    {
        match self {
            Kind::Signal(_, c) => Some(*c),
            _ => None,
        }
    }

    /// The data carried by a signal, or the kind itself.
    pub fn signal_data(&self) -> (r: Kind)
        ensures
            r@ == kv_signal_data(self@),
    {
        match self {
            Kind::Signal(b, _) => clone_kind(b),
            _ => clone_kind(self),
        }
    }

    pub fn make_bits(n: usize) -> (r: Kind)
        ensures
            r@ == KindView::Bits(n as nat),
    {
        Kind::Bits(n)
    }

    pub fn make_signed(n: usize) -> (r: Kind)
        ensures
            r@ == KindView::Signed(n as nat),
    {
        Kind::Signed(n)
    }

    pub fn make_array(base: Kind, size: usize) -> (r: Kind)
        ensures
            r@ == KindView::Array(Box::new(base@), size as nat),
    {
        Kind::Array(Box::new(base), size)
    }

    pub fn make_tuple(fields: Vec<Kind>) -> (r: Kind)
        ensures
            r@ == KindView::Tuple(kinds_view(fields@)),
    {
        Kind::Tuple(fields)
    }

    pub fn make_bool() -> (r: Kind)
        ensures
            r@ == kv_bool(),
    {
        Kind::Bits(1)
    }
}

/// Compares two kinds (by their models).
pub fn kind_eq(a: &Kind, b: &Kind) -> (r: bool)
    ensures
        r == (a@ == b@),
    decreases a,
{
    match (a, b) {
        (Kind::Empty, Kind::Empty) => true,
        (Kind::Bits(x), Kind::Bits(y)) => *x == *y,
        (Kind::Signed(x), Kind::Signed(y)) => *x == *y,
        (Kind::Array(x, n), Kind::Array(y, m)) => *n == *m && kind_eq(x, y),
        (Kind::Signal(x, c), Kind::Signal(y, d)) => *c == *d && kind_eq(x, y),
        (Kind::Tuple(va), Kind::Tuple(vb)) => {
            proof {
                lemma_kinds_view_len(va@);
                lemma_kinds_view_len(vb@);
            }
            if va.len() != vb.len() {
                return false;
            }
            let mut i: usize = 0;
            while i < va.len()
                invariant
                    i <= va.len(),
                    va.len() == vb.len(),
                    *a == Kind::Tuple(*va),
                    *b == Kind::Tuple(*vb),
                    forall|j: int| 0 <= j < i ==> #[trigger] kind_view(va@[j]) == kind_view(vb@[j]),
                decreases va.len() - i,
            {
                proof {
                    assert(decreases_to!(va => va[i as int]));
                    assert(decreases_to!(*a => a->Tuple_0));
                    assert(decreases_to!(*a => va[i as int]));
                }
                if !kind_eq(&va[i], &vb[i]) {
                    proof {
                        lemma_kinds_view_index(va@, i as int);
                        lemma_kinds_view_index(vb@, i as int);
                        assert(kinds_view(va@)[i as int] != kinds_view(vb@)[i as int]);
                        assert(a@ == KindView::Tuple(kinds_view(va@)));
                    }
                    return false;
                }
                i += 1;
            }
            proof {
                lemma_kinds_view_len(va@);
                lemma_kinds_view_len(vb@);
                assert forall|j: int| 0 <= j < va@.len() implies kinds_view(va@)[j] == kinds_view(vb@)[j] by {
                    lemma_kinds_view_index(va@, j);
                    lemma_kinds_view_index(vb@, j);
                }
                assert(kinds_view(va@) =~= kinds_view(vb@));
            }
            true
        },
        (Kind::Struct(na, va), Kind::Struct(nb, vb)) => {
            proof {
                lemma_fields_view_len(va@);
                lemma_fields_view_len(vb@);
            }
            if !(*na == *nb) || va.len() != vb.len() {
                return false;
            }
            let mut i: usize = 0;
            while i < va.len()
                invariant
                    i <= va.len(),
                    va.len() == vb.len(),
                    *a == Kind::Struct(*na, *va),
                    *b == Kind::Struct(*nb, *vb),
                    na@ == nb@,
                    forall|j: int| 0 <= j < i ==> #[trigger] kind_view(va@[j].kind) == kind_view(vb@[j].kind)
                        && va@[j].name@ == vb@[j].name@,
                decreases va.len() - i,
            {
                proof {
                    assert(decreases_to!(va => va[i as int]));
                    assert(decreases_to!(*a => a->Struct_1));
                    assert(decreases_to!(va[i as int] => va[i as int].kind));
                    assert(decreases_to!(*a => va[i as int].kind));
                }
                if !(va[i].name == vb[i].name) || !kind_eq(&va[i].kind, &vb[i].kind) {
                    proof {
                        lemma_fields_view_index(va@, i as int);
                        lemma_fields_view_index(vb@, i as int);
                        assert(fields_view(va@)[i as int] != fields_view(vb@)[i as int]);
                        assert(a@ == KindView::Struct(na@, fields_view(va@)));
                    }
                    return false;
                }
                i += 1;
            }
            proof {
                assert forall|j: int| 0 <= j < va@.len() implies fields_view(va@)[j] == fields_view(vb@)[j] by {
                    lemma_fields_view_index(va@, j);
                    lemma_fields_view_index(vb@, j);
                }
                assert(fields_view(va@) =~= fields_view(vb@));
            }
            true
        },
        _ => false,
    }
}

proof fn lemma_mul_zero(a: nat, b: nat)
    ensures
        (a * b == 0) <==> (a == 0 || b == 0),
{
    if a > 0 && b > 0 {
        assert(a * b >= b) by (nonlinear_arith)
            requires
                a > 0,
                b > 0,
        ;
    }
}

/// A sequence of kinds is empty exactly when each of them is.
pub proof fn lemma_seq_bits_zero(s: Seq<KindView>)
    ensures
        (seq_bits(s) == 0) <==> (forall|j: int| 0 <= j < s.len() ==> kv_bits(#[trigger] s[j]) == 0),
    decreases s.len(),
{
    if s.len() > 0 {
        lemma_seq_bits_zero(s.drop_first());
        assert forall|j: int| 0 < j < s.len() implies s.drop_first()[j - 1] == #[trigger] s[j] by {}
        if forall|j: int| 0 <= j < s.len() ==> kv_bits(#[trigger] s[j]) == 0 {
            assert(kv_bits(s[0]) == 0);
            assert forall|j: int| 0 <= j < s.drop_first().len() implies kv_bits(
                #[trigger] s.drop_first()[j],
            ) == 0 by {
                assert(s.drop_first()[j] == s[j + 1]);
            }
        }
    }
}

/// A sequence of fields is empty exactly when each of them is.
pub proof fn lemma_fields_bits_zero(s: Seq<FieldView>)
    ensures
        (fields_bits(s) == 0) <==> (forall|j: int| 0 <= j < s.len() ==> kv_bits((#[trigger] s[j]).kind) == 0),
    decreases s.len(),
{
    if s.len() > 0 {
        lemma_fields_bits_zero(s.drop_first());
        assert forall|j: int| 0 < j < s.len() implies s.drop_first()[j - 1] == #[trigger] s[j] by {}
        if forall|j: int| 0 <= j < s.len() ==> kv_bits((#[trigger] s[j]).kind) == 0 {
            assert(kv_bits(s[0].kind) == 0);
            assert forall|j: int| 0 <= j < s.drop_first().len() implies kv_bits(
                (#[trigger] s.drop_first()[j]).kind,
            ) == 0 by {
                assert(s.drop_first()[j] == s[j + 1]);
            }
        }
    }
}

pub proof fn lemma_kinds_view_len(s: Seq<Kind>)
    ensures
        kinds_view(s).len() == s.len(),
    decreases s.len(),
{
    if s.len() > 0 {
        lemma_kinds_view_len(s.drop_first());
    }
}

pub proof fn lemma_fields_view_len(s: Seq<Field>)
    ensures
        fields_view(s).len() == s.len(),
    decreases s.len(),
{
    if s.len() > 0 {
        lemma_fields_view_len(s.drop_first());
    }
}

pub proof fn lemma_kinds_view_index(s: Seq<Kind>, i: int)
    requires
        0 <= i < s.len(),
    ensures
        kinds_view(s).len() == s.len(),
        kinds_view(s)[i] == kind_view(s[i]),
    decreases s.len(),
{
    lemma_kinds_view_len(s);
    if i > 0 {
        lemma_kinds_view_index(s.drop_first(), i - 1);
    }
}

pub proof fn lemma_fields_view_index(s: Seq<Field>, i: int)
    requires
        0 <= i < s.len(),
    ensures
        fields_view(s).len() == s.len(),
        fields_view(s)[i] == (FieldView { name: s[i].name@, kind: kind_view(s[i].kind) }),
    decreases s.len(),
{
    lemma_fields_view_len(s);
    if i > 0 {
        lemma_fields_view_index(s.drop_first(), i - 1);
    }
}

proof fn lemma_seq_bounded_skip(s: Seq<KindView>, i: int)
    requires
        0 <= i <= s.len(),
        forall|j: int| i <= j < s.len() ==> kv_bounded(#[trigger] s[j]),
    ensures
        seq_bounded(s.skip(i)),
    decreases s.len() - i,
{
    if i < s.len() {
        lemma_seq_bounded_skip(s, i + 1);
        assert(s.skip(i).drop_first() =~= s.skip(i + 1));
        assert(s.skip(i)[0] == s[i]);
    }
}

proof fn lemma_fields_bounded_skip(s: Seq<FieldView>, i: int)
    requires
        0 <= i <= s.len(),
        forall|j: int| i <= j < s.len() ==> kv_bounded(#[trigger] s[j].kind),
    ensures
        fields_bounded(s.skip(i)),
    decreases s.len() - i,
{
    if i < s.len() {
        lemma_fields_bounded_skip(s, i + 1);
        assert(s.skip(i).drop_first() =~= s.skip(i + 1));
        assert(s.skip(i)[0] == s[i]);
    }
}

pub proof fn lemma_seq_bounded_index(s: Seq<KindView>, i: int)
    requires
        seq_bounded(s),
        0 <= i < s.len(),
    ensures
        kv_bounded(s[i]),
    decreases s.len(),
{
    if i > 0 {
        lemma_seq_bounded_index(s.drop_first(), i - 1);
    }
}

pub proof fn lemma_fields_bounded_index(s: Seq<FieldView>, i: int)
    requires
        fields_bounded(s),
        0 <= i < s.len(),
    ensures
        kv_bounded(s[i].kind),
    decreases s.len(),
{
    if i > 0 {
        lemma_fields_bounded_index(s.drop_first(), i - 1);
    }
}

/// Skipping one more element removes its width from the remaining total.
pub proof fn lemma_seq_bits_skip(s: Seq<KindView>, i: int)
    requires
        0 <= i < s.len(),
    ensures
        seq_bits(s.skip(i)) == kv_bits(s[i]) + seq_bits(s.skip(i + 1)),
{
    assert(s.skip(i).drop_first() =~= s.skip(i + 1));
    assert(s.skip(i)[0] == s[i]);
}

pub proof fn lemma_fields_bits_skip(s: Seq<FieldView>, i: int)
    requires
        0 <= i < s.len(),
    ensures
        fields_bits(s.skip(i)) == kv_bits(s[i].kind) + fields_bits(s.skip(i + 1)),
{
    assert(s.skip(i).drop_first() =~= s.skip(i + 1));
    assert(s.skip(i)[0] == s[i]);
}

/// Widths add up over concatenation.
pub proof fn lemma_seq_bits_append(a: Seq<KindView>, b: Seq<KindView>)
    ensures
        seq_bits(a + b) == seq_bits(a) + seq_bits(b),
    decreases a.len(),
{
    if a.len() == 0 {
        assert(a + b =~= b);
    } else {
        assert((a + b).drop_first() =~= a.drop_first() + b);
        lemma_seq_bits_append(a.drop_first(), b);
    }
}

pub proof fn lemma_fields_bits_append(a: Seq<FieldView>, b: Seq<FieldView>)
    ensures
        fields_bits(a + b) == fields_bits(a) + fields_bits(b),
    decreases a.len(),
{
    if a.len() == 0 {
        assert(a + b =~= b);
    } else {
        assert((a + b).drop_first() =~= a.drop_first() + b);
        lemma_fields_bits_append(a.drop_first(), b);
    }
}

/// The prefix before element `i`, the element, and the rest make up the whole.
pub proof fn lemma_seq_bits_prefix(s: Seq<KindView>, i: int)
    requires
        0 <= i < s.len(),
    ensures
        seq_bits(s.take(i + 1)) == seq_bits(s.take(i)) + kv_bits(s[i]),
        seq_bits(s.take(i + 1)) <= seq_bits(s),
{
    assert(s.take(i + 1) =~= s.take(i) + seq![s[i]]);
    lemma_seq_bits_append(s.take(i), seq![s[i]]);
    assert(seq![s[i]].drop_first() =~= Seq::<KindView>::empty());
    assert(seq_bits(Seq::<KindView>::empty()) == 0);
    assert(seq_bits(seq![s[i]]) == kv_bits(s[i]));
    assert(s =~= s.take(i + 1) + s.skip(i + 1));
    lemma_seq_bits_append(s.take(i + 1), s.skip(i + 1));
}

pub proof fn lemma_fields_bits_prefix(s: Seq<FieldView>, i: int)
    requires
        0 <= i < s.len(),
    ensures
        fields_bits(s.take(i + 1)) == fields_bits(s.take(i)) + kv_bits(s[i].kind),
        fields_bits(s.take(i + 1)) <= fields_bits(s),
{
    assert(s.take(i + 1) =~= s.take(i) + seq![s[i]]);
    lemma_fields_bits_append(s.take(i), seq![s[i]]);
    assert(seq![s[i]].drop_first() =~= Seq::<FieldView>::empty());
    assert(fields_bits(Seq::<FieldView>::empty()) == 0);
    assert(fields_bits(seq![s[i]]) == kv_bits(s[i].kind));
    assert(s =~= s.take(i + 1) + s.skip(i + 1));
    lemma_fields_bits_append(s.take(i + 1), s.skip(i + 1));
}

} // verus!