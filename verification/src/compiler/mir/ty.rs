use vstd::prelude::*;

use crate::ast::NodeId;
use crate::types::kind::{
    fields_view, kind_view, kinds_view, lemma_fields_view_index, lemma_fields_view_len, lemma_fields_view_push,
    lemma_kinds_view_index, lemma_kinds_view_len, lemma_kinds_view_push, Color, Field, FieldView, Kind, KindView, VariantType,
};

verus! {

/// Number of a type variable.
#[derive(Clone, Copy, Debug, PartialEq, Eq, Structural)]
pub struct VarNum(pub u32);

/// Whether a bit vector type is signed.
#[derive(Clone, Copy, Debug, PartialEq, Eq, Structural)]
pub enum SignFlag {
    Unsigned,
    Signed,
}

/// The types that take no parameters.
#[derive(Clone, Copy, Debug, PartialEq, Eq, Structural)]
pub enum Const {
    Clock(Color),
    Length(usize),
    Empty,
    Signed(SignFlag),
}

/// The name, discriminant and matching rule of an enum variant.
#[derive(Debug)]
pub struct VariantTag {
    pub name: String,
    pub discriminant: i64,
    pub ty: VariantType,
}

/// A tag for the variant with the given name, discriminant and rule.
pub fn make_variant_tag(name: &str, discriminant: i64, ty: VariantType) -> (r: VariantTag)
    ensures
        r.name@ == name@,
        r.discriminant == discriminant,
        r.ty == ty,
{
    VariantTag { name: name.to_string(), discriminant, ty }
}

/// How far a unification context has changed: the number of substitutions
/// made and the number of types stored.
#[derive(Clone, Copy, Debug, PartialEq, Eq, Structural)]
pub struct ModificationState {
    pub update_count: usize,
    pub intern_size: usize,
}

/// A type of the inference: a node of the context's type table, and the
/// syntax node it was made for.
#[derive(Clone, Copy, Debug, PartialEq, Eq, Structural)]
pub struct TypeId {
    pub kind: usize,
    pub id: NodeId,
}

/// A bit vector type: its sign flag and its length.
#[derive(Clone, Copy, Debug, PartialEq, Eq, Structural)]
pub struct AppBits {
    pub sign_flag: TypeId,
    pub len: TypeId,
}

/// A signal type: the data it carries and its clock.
#[derive(Clone, Copy, Debug, PartialEq, Eq, Structural)]
pub struct AppSignal {
    pub data: TypeId,
    pub clock: TypeId,
}

/// An array type: its element type and its length.
#[derive(Clone, Copy, Debug, PartialEq, Eq, Structural)]
pub struct AppArray {
    pub base: TypeId,
    pub len: TypeId,
}

#[derive(Debug, PartialEq, Eq)]
pub struct AppTuple {
    pub elements: Vec<TypeId>,
}

#[derive(Debug, PartialEq, Eq)]
pub struct AppStruct {
    pub name: String,
    pub fields: Vec<(String, TypeId)>,
}

/// The types built from other types.
#[derive(Debug, PartialEq, Eq)]
pub enum AppType {
    Tuple(AppTuple),
    Array(AppArray),
    Struct(AppStruct),
    Bits(AppBits),
    Signal(AppSignal),
}

/// A node of the type table: a variable, a constant or an application.
#[derive(Debug, PartialEq, Eq)]
pub enum TypeKind {
    Var(VarNum),
    Const(Const),
    App(AppType),
}

/// What an application is, apart from its arguments: for a struct, its name
/// and the names of its fields.
pub enum Shape {
    Tuple,
    Array,
    Struct(Seq<char>, Seq<Seq<char>>),
    Bits,
    Signal,
}

/// Model of a [`TypeKind`]: an application is its shape and its arguments.
pub enum TypeKindView {
    Var(VarNum),
    Const(Const),
    App(Shape, Seq<TypeId>),
}

/// The names of the fields of a struct.
pub open spec fn field_names(fs: Seq<(String, TypeId)>) -> Seq<Seq<char>> {
    Seq::new(fs.len(), |i: int| fs[i].0@)
}

/// The types of the fields of a struct.
pub open spec fn field_types(fs: Seq<(String, TypeId)>) -> Seq<TypeId> {
    Seq::new(fs.len(), |i: int| fs[i].1)
}

pub open spec fn app_view(a: AppType) -> TypeKindView {
    match a {
        AppType::Tuple(t) => TypeKindView::App(Shape::Tuple, t.elements@),
        AppType::Array(x) => TypeKindView::App(Shape::Array, seq![x.base, x.len]),
        AppType::Struct(x) => TypeKindView::App(Shape::Struct(x.name@, field_names(x.fields@)), field_types(x.fields@)),
        AppType::Bits(x) => TypeKindView::App(Shape::Bits, seq![x.sign_flag, x.len]),
        AppType::Signal(x) => TypeKindView::App(Shape::Signal, seq![x.data, x.clock]),
    }
}

impl View for TypeKind {
    type V = TypeKindView;

    open spec fn view(&self) -> TypeKindView {
        match self {
            TypeKind::Var(v) => TypeKindView::Var(*v),
            TypeKind::Const(c) => TypeKindView::Const(*c),
            TypeKind::App(a) => app_view(*a),
        }
    }
}

/// A type with every variable that has a substitution replaced by what it
/// stands for.
pub enum Term {
    Var(VarNum),
    Const(Const),
    App(Shape, Seq<Term>),
}

/// The term that node `k` of a table stands for under a substitution.
/// `rank` orders the nodes: the arguments of an application, and what a
/// variable stands for, rank below the node.
pub open spec fn resolve(tys: Seq<TypeKindView>, subst: Seq<Option<TypeId>>, rank: Seq<nat>, k: int) -> Term
    decreases rank[k], 1nat, 0nat,
{
    if 0 <= k < tys.len() {
        match tys[k] {
            TypeKindView::Var(v) => if (v.0 as int) < subst.len() && subst[v.0 as int] is Some
                && rank[subst[v.0 as int]->Some_0.kind as int] < rank[k] {
                resolve(tys, subst, rank, subst[v.0 as int]->Some_0.kind as int)
            } else {
                Term::Var(v)
            },
            TypeKindView::Const(c) => Term::Const(c),
            TypeKindView::App(s, cs) => Term::App(s, resolve_seq(tys, subst, rank, cs, rank[k])),
        }
    } else {
        Term::Var(VarNum(0))
    }
}

/// The terms of a list of nodes that rank below `bound`.
pub open spec fn resolve_seq(
    tys: Seq<TypeKindView>,
    subst: Seq<Option<TypeId>>,
    rank: Seq<nat>,
    cs: Seq<TypeId>,
    bound: nat,
) -> Seq<Term>
    decreases bound, 0nat, cs.len(),
{
    if cs.len() == 0 {
        Seq::empty()
    } else {
        let first = if rank[cs[0].kind as int] < bound {
            resolve(tys, subst, rank, cs[0].kind as int)
        } else {
            Term::Var(VarNum(0))
        };
        seq![first] + resolve_seq(tys, subst, rank, cs.drop_first(), bound)
    }
}

/// Node `k` is not a variable with a substitution, and, for an application,
/// neither is any node below it: it is already applied throughout.
pub open spec fn settled_at(tys: Seq<TypeKindView>, subst: Seq<Option<TypeId>>, rank: Seq<nat>, k: int) -> bool
    decreases rank[k], 1nat, 0nat,
{
    if 0 <= k < tys.len() {
        match tys[k] {
            TypeKindView::Var(v) => !((v.0 as int) < subst.len() && subst[v.0 as int] is Some),
            TypeKindView::Const(_) => true,
            TypeKindView::App(_, cs) => settled_seq(tys, subst, rank, cs, rank[k]),
        }
    } else {
        false
    }
}

/// Every node of the list ranks below `bound` and is settled.
pub open spec fn settled_seq(tys: Seq<TypeKindView>, subst: Seq<Option<TypeId>>, rank: Seq<nat>, cs: Seq<TypeId>, bound: nat) -> bool
    decreases bound, 0nat, cs.len(),
{
    if cs.len() == 0 {
        true
    } else {
        rank[cs[0].kind as int] < bound && settled_at(tys, subst, rank, cs[0].kind as int) && settled_seq(
            tys,
            subst,
            rank,
            cs.drop_first(),
            bound,
        )
    }
}

pub proof fn lemma_settled_seq_index(
    tys: Seq<TypeKindView>,
    subst: Seq<Option<TypeId>>,
    rank: Seq<nat>,
    cs: Seq<TypeId>,
    bound: nat,
)
    requires
        settled_seq(tys, subst, rank, cs, bound),
    ensures
        forall|i: int| 0 <= i < cs.len() ==> settled_at(tys, subst, rank, (#[trigger] cs[i]).kind as int),
    decreases cs.len(),
{
    if cs.len() > 0 {
        lemma_settled_seq_index(tys, subst, rank, cs.drop_first(), bound);
        assert forall|i: int| 0 <= i < cs.len() implies settled_at(tys, subst, rank, (#[trigger] cs[i]).kind as int) by {
            if i > 0 {
                assert(cs.drop_first()[i - 1] == cs[i]);
            }
        }
    }
}

/// Every node of the list exists and ranks below `bound`.
pub open spec fn below(tys: Seq<TypeKindView>, rank: Seq<nat>, cs: Seq<TypeId>, bound: nat) -> bool {
    forall|i: int| 0 <= i < cs.len() ==> (#[trigger] cs[i]).kind < tys.len() && rank[cs[i].kind as int] < bound
}

pub proof fn lemma_resolve_seq_index(
    tys: Seq<TypeKindView>,
    subst: Seq<Option<TypeId>>,
    rank: Seq<nat>,
    cs: Seq<TypeId>,
    bound: nat,
)
    requires
        below(tys, rank, cs, bound),
    ensures
        resolve_seq(tys, subst, rank, cs, bound).len() == cs.len(),
        forall|i: int| 0 <= i < cs.len() ==> #[trigger] resolve_seq(tys, subst, rank, cs, bound)[i]
            == resolve(tys, subst, rank, cs[i].kind as int),
    decreases cs.len(),
{
    if cs.len() > 0 {
        assert(below(tys, rank, cs.drop_first(), bound)) by {
            assert forall|i: int| 0 <= i < cs.drop_first().len() implies (#[trigger] cs.drop_first()[i]).kind
                < tys.len() && rank[cs.drop_first()[i].kind as int] < bound by {
                assert(cs.drop_first()[i] == cs[i + 1]);
            }
        }
        lemma_resolve_seq_index(tys, subst, rank, cs.drop_first(), bound);
        assert(cs[0].kind < tys.len());
        assert forall|i: int| 0 <= i < cs.len() implies #[trigger] resolve_seq(tys, subst, rank, cs, bound)[i]
            == resolve(tys, subst, rank, cs[i].kind as int) by {
            if i > 0 {
                assert(cs.drop_first()[i - 1] == cs[i]);
            }
        }
    }
}

/// The clock domains found at node `t` as stored: `t` itself for a variable
/// or a clock, those of its arguments in order for an application, none for
/// another constant.
pub open spec fn domains_at(tys: Seq<TypeKindView>, rank: Seq<nat>, t: TypeId) -> Seq<TypeId>
    decreases rank[t.kind as int], 1nat, 0nat,
{
    if t.kind < tys.len() {
        match tys[t.kind as int] {
            TypeKindView::Var(_) => seq![t],
            TypeKindView::Const(Const::Clock(_)) => seq![t],
            TypeKindView::Const(_) => Seq::empty(),
            TypeKindView::App(_, cs) => domains_seq(tys, rank, cs, rank[t.kind as int]),
        }
    } else {
        Seq::empty()
    }
}

/// The clock domains of a list of nodes that rank below `bound`, in order.
pub open spec fn domains_seq(tys: Seq<TypeKindView>, rank: Seq<nat>, cs: Seq<TypeId>, bound: nat) -> Seq<TypeId>
    decreases bound, 0nat, cs.len(),
{
    if cs.len() == 0 {
        Seq::empty()
    } else {
        let first = if rank[cs[0].kind as int] < bound {
            domains_at(tys, rank, cs[0])
        } else {
            Seq::empty()
        };
        first + domains_seq(tys, rank, cs.drop_first(), bound)
    }
}

/// Errors of type unification and of reading types.
#[derive(Clone, Copy, Debug, PartialEq, Eq, Structural)]
pub enum UnifyError {
    /// Two types have no common instance.
    CannotUnify,
    /// A variable would stand for a type that contains it.
    RecursiveUnification,
    /// A variable has no substitution where a complete type was needed.
    UnboundVariable,
    /// A constant where a type with bits was needed.
    ExpectedConstant,
    ExpectedSignFlag,
    ExpectedLength,
    ExpectedClock,
    /// A projection applied to a type without such a part.
    NotAnApplication,
    IndexOutOfBounds,
    FieldNotFound,
    NotIndexable,
    NotAStruct,
}

/// The variable numbers that have no substitution.
pub open spec fn unbound_count(subst: Seq<Option<TypeId>>) -> nat
    decreases subst.len(),
{
    if subst.len() == 0 {
        0
    } else {
        unbound_count(subst.drop_last()) + if subst.last() is None {
            1nat
        } else {
            0nat
        }
    }
}

/// Holds the types of an inference: a table in which each distinct type is
/// stored once, and the substitution found for the type variables.
pub struct UnifyContext {
    substitution_map: Vec<Option<TypeId>>,
    types: Vec<TypeKind>,
    var: VarNum,
    update_count: usize,
    rank: Ghost<Seq<nat>>,
}

impl UnifyContext {
    /// The table, as models.
    pub closed spec fn tys(&self) -> Seq<TypeKindView> {
        self.types@.map_values(|t: TypeKind| t@)
    }

    /// What each variable stands for, by number.
    pub closed spec fn subst(&self) -> Seq<Option<TypeId>> {
        self.substitution_map@
    }

    pub closed spec fn ranks(&self) -> Seq<nat> {
        self.rank@
    }

    /// Number of variables made so far.
    pub closed spec fn vars(&self) -> nat {
        self.var.0 as nat
    }

    /// Number of substitutions made so far.
    pub closed spec fn updates(&self) -> nat {
        self.update_count as nat
    }

    /// The clock domains found in type `t` as stored.
    pub open spec fn clock_domains(&self, t: TypeId) -> Seq<TypeId> {
        domains_at(self.tys(), self.ranks(), t)
    }

    /// The term that type `t` stands for.
    pub open spec fn term(&self, t: TypeId) -> Term {
        resolve(self.tys(), self.subst(), self.ranks(), t.kind as int)
    }

    /// Type `t` is a node of the table.
    pub open spec fn has(&self, t: TypeId) -> bool {
        t.kind < self.tys().len()
    }

    /// The table and the substitution are consistent: each type is stored
    /// once, arguments and substitutions point into the table and rank below
    /// the node that uses them, and every variable has a number below the
    /// count of variables.
    pub closed spec fn wf(&self) -> bool {
        &&& self.substitution_map@.len() == self.var.0
        &&& self.rank@.len() == self.types@.len()
        &&& forall|i: int, j: int|
            0 <= i < j < self.types@.len() ==> #[trigger] self.types@[i]@ != #[trigger] self.types@[j]@
        &&& forall|k: int| 0 <= k < self.types@.len() ==> #[trigger] node_ok(self.tys(), self.subst(), self.rank@, k)
    }
}

/// Node `k` refers only to nodes and variables that exist, and ranks above
/// what it refers to.
pub open spec fn node_ok(tys: Seq<TypeKindView>, subst: Seq<Option<TypeId>>, rank: Seq<nat>, k: int) -> bool {
    match tys[k] {
        TypeKindView::Var(v) => {
            &&& (v.0 as int) < subst.len()
            &&& (subst[v.0 as int] matches Some(t) ==> t.kind < tys.len() && rank[t.kind as int] < rank[k])
        },
        TypeKindView::Const(_) => true,
        TypeKindView::App(_, cs) => below(tys, rank, cs, rank[k]),
    }
}

/// The greatest rank among the nodes of a list (`0` for none).
pub open spec fn max_rank(rank: Seq<nat>, cs: Seq<TypeId>) -> nat
    decreases cs.len(),
{
    if cs.len() == 0 {
        0
    } else {
        let m = max_rank(rank, cs.drop_first());
        if rank[cs[0].kind as int] > m {
            rank[cs[0].kind as int]
        } else {
            m
        }
    }
}

pub proof fn lemma_max_rank(rank: Seq<nat>, cs: Seq<TypeId>)
    ensures
        forall|i: int| 0 <= i < cs.len() ==> rank[(#[trigger] cs[i]).kind as int] <= max_rank(rank, cs),
    decreases cs.len(),
{
    if cs.len() > 0 {
        lemma_max_rank(rank, cs.drop_first());
        assert forall|i: int| 0 <= i < cs.len() implies rank[(#[trigger] cs[i]).kind as int] <= max_rank(rank, cs) by {
            if i > 0 {
                assert(cs.drop_first()[i - 1] == cs[i]);
            }
        }
    }
}

/// `b` extends `a`.
pub open spec fn extends<T>(a: Seq<T>, b: Seq<T>) -> bool {
    &&& a.len() <= b.len()
    &&& forall|j: int| 0 <= j < a.len() ==> #[trigger] b[j] == a[j]
}

/// Adding nodes, ranks and variables keeps what the old nodes stand for.
pub proof fn lemma_resolve_frame(
    tys1: Seq<TypeKindView>,
    subst1: Seq<Option<TypeId>>,
    rank1: Seq<nat>,
    tys2: Seq<TypeKindView>,
    subst2: Seq<Option<TypeId>>,
    rank2: Seq<nat>,
    k: int,
)
    requires
        forall|j: int| 0 <= j < tys1.len() ==> #[trigger] node_ok(tys1, subst1, rank1, j),
        rank1.len() == tys1.len(),
        extends(tys1, tys2),
        extends(subst1, subst2),
        extends(rank1, rank2),
        0 <= k < tys1.len(),
    ensures
        resolve(tys2, subst2, rank2, k) == resolve(tys1, subst1, rank1, k),
    decreases rank1[k],
{
    assert(node_ok(tys1, subst1, rank1, k));
    assert(tys2[k] == tys1[k]);
    match tys1[k] {
        TypeKindView::Var(v) => {
            assert(subst2[v.0 as int] == subst1[v.0 as int]);
            if let Some(t) = subst1[v.0 as int] {
                assert(rank2[t.kind as int] == rank1[t.kind as int]);
                lemma_resolve_frame(tys1, subst1, rank1, tys2, subst2, rank2, t.kind as int);
            }
        },
        TypeKindView::Const(_) => {},
        TypeKindView::App(sh, cs) => {
            assert(below(tys2, rank2, cs, rank2[k])) by {
                assert forall|i: int| 0 <= i < cs.len() implies (#[trigger] cs[i]).kind < tys2.len() && rank2[cs[i].kind as int] < rank2[k] by {
                    assert(rank2[cs[i].kind as int] == rank1[cs[i].kind as int]);
                }
            }
            lemma_resolve_seq_index(tys1, subst1, rank1, cs, rank1[k]);
            lemma_resolve_seq_index(tys2, subst2, rank2, cs, rank2[k]);
            assert forall|i: int| 0 <= i < cs.len() implies #[trigger] resolve(tys2, subst2, rank2, cs[i].kind as int)
                == resolve(tys1, subst1, rank1, cs[i].kind as int) by {
                lemma_resolve_frame(tys1, subst1, rank1, tys2, subst2, rank2, cs[i].kind as int);
            }
            assert(resolve_seq(tys2, subst2, rank2, cs, rank2[k]) =~= resolve_seq(tys1, subst1, rank1, cs, rank1[k]));
        },
    }
}

/// Compares two applications by their models.
fn app_eq(a: &AppType, b: &AppType) -> (r: bool)
    ensures
        r == (app_view(*a) == app_view(*b)),
{
    match (a, b) {
        (AppType::Tuple(x), AppType::Tuple(y)) => {
            if x.elements.len() != y.elements.len() {
                return false;
            }
            let mut i: usize = 0;
            while i < x.elements.len()
                invariant
                    i <= x.elements.len(),
                    *a == AppType::Tuple(*x),
                    *b == AppType::Tuple(*y),
                    x.elements.len() == y.elements.len(),
                    forall|j: int| 0 <= j < i ==> x.elements@[j] == y.elements@[j],
                decreases x.elements.len() - i,
            {
                if x.elements[i] != y.elements[i] {
                    proof {
                        assert(x.elements@[i as int] != y.elements@[i as int]);
                    }
                    return false;
                }
                i += 1;
            }
            proof {
                assert(x.elements@ =~= y.elements@);
            }
            true
        },
        (AppType::Struct(x), AppType::Struct(y)) => {
            if x.name != y.name || x.fields.len() != y.fields.len() {
                proof {
                    if x.fields.len() != y.fields.len() {
                        assert(field_types(x.fields@).len() != field_types(y.fields@).len());
                    }
                }
                return false;
            }
            let mut i: usize = 0;
            while i < x.fields.len()
                invariant
                    i <= x.fields.len(),
                    *a == AppType::Struct(*x),
                    *b == AppType::Struct(*y),
                    x.fields.len() == y.fields.len(),
                    forall|j: int| 0 <= j < i ==> x.fields@[j].0@ == y.fields@[j].0@ && x.fields@[j].1 == y.fields@[j].1,
                decreases x.fields.len() - i,
            {
                if x.fields[i].0 != y.fields[i].0 || x.fields[i].1 != y.fields[i].1 {
                    proof {
                        if x.fields@[i as int].0@ != y.fields@[i as int].0@ {
                            assert(field_names(x.fields@)[i as int] != field_names(y.fields@)[i as int]);
                        } else {
                            assert(field_types(x.fields@)[i as int] != field_types(y.fields@)[i as int]);
                        }
                    }
                    return false;
                }
                i += 1;
            }
            proof {
                assert(field_names(x.fields@) =~= field_names(y.fields@));
                assert(field_types(x.fields@) =~= field_types(y.fields@));
            }
            true
        },
        (AppType::Array(x), AppType::Array(y)) => {
            proof {
                if *x != *y {
                    assert(seq![x.base, x.len][0] == x.base && seq![x.base, x.len][1] == x.len);
                    assert(seq![y.base, y.len][0] == y.base && seq![y.base, y.len][1] == y.len);
                }
            }
            *x == *y
        },
        (AppType::Bits(x), AppType::Bits(y)) => {
            proof {
                if *x != *y {
                    assert(seq![x.sign_flag, x.len][0] == x.sign_flag && seq![x.sign_flag, x.len][1] == x.len);
                    assert(seq![y.sign_flag, y.len][0] == y.sign_flag && seq![y.sign_flag, y.len][1] == y.len);
                }
            }
            *x == *y
        },
        (AppType::Signal(x), AppType::Signal(y)) => {
            proof {
                if *x != *y {
                    assert(seq![x.data, x.clock][0] == x.data && seq![x.data, x.clock][1] == x.clock);
                    assert(seq![y.data, y.clock][0] == y.data && seq![y.data, y.clock][1] == y.clock);
                }
            }
            *x == *y
        },
        _ => false,
    }
}

/// Compares two table nodes by their models.
fn tk_eq(a: &TypeKind, b: &TypeKind) -> (r: bool)
    ensures
        r == (a@ == b@),
{
    match (a, b) {
        (TypeKind::Var(x), TypeKind::Var(y)) => *x == *y,
        (TypeKind::Const(x), TypeKind::Const(y)) => *x == *y,
        (TypeKind::App(x), TypeKind::App(y)) => app_eq(x, y),
        (TypeKind::App(x), _) => {
            proof {
                assert(app_view(*x) is App);
            }
            false
        },
        (_, TypeKind::App(y)) => {
            proof {
                assert(app_view(*y) is App);
            }
            false
        },
        _ => false,
    }
}

/// A copy of a table node.
fn copy_type_kind(a: &TypeKind) -> (r: TypeKind)
    ensures
        r@ == a@,
{
    match a {
        TypeKind::Var(v) => TypeKind::Var(*v),
        TypeKind::Const(c) => TypeKind::Const(*c),
        TypeKind::App(AppType::Tuple(t)) => {
            let elements = t.elements.clone();
            proof {
                assert(elements@ =~= t.elements@);
            }
            TypeKind::App(AppType::Tuple(AppTuple { elements }))
        },
        TypeKind::App(AppType::Struct(x)) => {
            let mut fields: Vec<(String, TypeId)> = Vec::new();
            let mut i: usize = 0;
            while i < x.fields.len()
                invariant
                    i <= x.fields.len(),
                    fields@.len() == i,
                    forall|j: int| 0 <= j < i ==> (#[trigger] fields@[j]).0@ == x.fields@[j].0@ && fields@[j].1 == x.fields@[j].1,
                decreases x.fields.len() - i,
            {
                fields.push((x.fields[i].0.clone(), x.fields[i].1));
                i += 1;
            }
            let r = TypeKind::App(AppType::Struct(AppStruct { name: x.name.clone(), fields }));
            proof {
                assert(field_names(fields@) =~= field_names(x.fields@));
                assert(field_types(fields@) =~= field_types(x.fields@));
            }
            r
        },
        TypeKind::App(AppType::Array(x)) => TypeKind::App(AppType::Array(*x)),
        TypeKind::App(AppType::Bits(x)) => TypeKind::App(AppType::Bits(*x)),
        TypeKind::App(AppType::Signal(x)) => TypeKind::App(AppType::Signal(*x)),
    }
}

/// The arguments of a node model (none for variables and constants).
pub open spec fn args_of(t: TypeKindView) -> Seq<TypeId> {
    match t {
        TypeKindView::App(_, cs) => cs,
        _ => Seq::empty(),
    }
}

impl UnifyContext {
    /// The tables of `self` extend those of `old`, with the same substitutions
    /// for the old variables.
    pub closed spec fn grows_from(&self, old: UnifyContext) -> bool {
        &&& extends(old.tys(), self.tys())
        &&& extends(old.subst(), self.subst())
        &&& extends(old.rank@, self.rank@)
        &&& old.update_count == self.update_count
    }

    pub proof fn lemma_grows_keeps_terms(&self, old: UnifyContext, t: TypeId)
        requires
            old.wf(),
            self.grows_from(old),
            old.has(t),
        ensures
            self.term(t) == old.term(t),
            self.has(t),
    {
        assert forall|j: int| 0 <= j < old.tys().len() implies #[trigger] node_ok(old.tys(), old.subst(), old.rank@, j) by {
            assert(node_ok(old.tys(), old.subst(), old.rank@, j));
        }
        lemma_resolve_frame(old.tys(), old.subst(), old.rank@, self.tys(), self.subst(), self.rank@, t.kind as int);
    }

    /// Position of a node with the given model, if the table holds one.
    fn find(&self, t: &TypeKind) -> (r: Option<usize>)
        ensures
            match r {
                Some(k) => k < self.tys().len() && self.tys()[k as int] == t@,
                None => forall|j: int| 0 <= j < self.tys().len() ==> self.tys()[j] != t@,
            },
    {
        let mut i: usize = 0;
        while i < self.types.len()
            invariant
                i <= self.types.len(),
                forall|j: int| 0 <= j < i ==> self.tys()[j] != t@,
            decreases self.types.len() - i,
        {
            if tk_eq(&self.types[i], t) {
                return Some(i);
            }
            i += 1;
        }
        None
    }

    /// The node for `t`: the stored one if the table holds it, otherwise a new
    /// node. Arguments must be nodes and variables must exist; a new variable
    /// node must have no substitution.
    fn intern(&mut self, t: TypeKind) -> (k: usize)
        requires
            old(self).wf(),
            forall|i: int| 0 <= i < args_of(t@).len() ==> (#[trigger] args_of(t@)[i]).kind < old(self).tys().len(),
            t@ matches TypeKindView::Var(v) ==> (v.0 as int) < old(self).subst().len() && old(self).subst()[v.0 as int] is None,
        ensures
            final(self).wf(),
            final(self).grows_from(*old(self)),
            final(self).subst() == old(self).subst(),
            final(self).vars() == old(self).vars(),
            k < final(self).tys().len(),
            final(self).tys()[k as int] == t@,
            final(self).tys().len() <= old(self).tys().len() + 1,
            (exists|j: int| 0 <= j < old(self).tys().len() && old(self).tys()[j] == t@) ==> *final(self) == *old(self),
    {
        match self.find(&t) {
            Some(k) => k,
            None => {
                let k = self.types.len();
                let ghost r: nat = match t@ {
                    TypeKindView::App(_, cs) => max_rank(self.rank@, cs) + 1,
                    _ => 0,
                };
                proof {
                    lemma_max_rank(self.rank@, args_of(t@));
                }
                let ghost old_tys = self.tys();
                self.types.push(t);
                self.rank = Ghost(self.rank@.push(r));
                proof {
                    assert(self.tys() =~= old_tys.push(self.types@[k as int]@));
                    assert forall|j: int| 0 <= j < self.types@.len() implies #[trigger] node_ok(
                        self.tys(),
                        self.subst(),
                        self.rank@,
                        j,
                    ) by {
                        if j < k {
                            assert(node_ok(old(self).tys(), old(self).subst(), old(self).rank@, j));
                            assert(self.tys()[j] == old(self).tys()[j]);
                            match self.tys()[j] {
                                TypeKindView::App(_, cs) => {
                                    assert forall|i: int| 0 <= i < cs.len() implies (#[trigger] cs[i]).kind < self.tys().len()
                                        && self.rank@[cs[i].kind as int] < self.rank@[j] by {
                                        assert(self.rank@[cs[i].kind as int] == old(self).rank@[cs[i].kind as int]);
                                    }
                                },
                                TypeKindView::Var(v) => {
                                    if let Some(tt) = self.subst()[v.0 as int] {
                                        assert(self.rank@[tt.kind as int] == old(self).rank@[tt.kind as int]);
                                    }
                                },
                                _ => {},
                            }
                        } else {
                            match self.tys()[j] {
                                TypeKindView::App(_, cs) => {
                                    assert forall|i: int| 0 <= i < cs.len() implies (#[trigger] cs[i]).kind < self.tys().len()
                                        && self.rank@[cs[i].kind as int] < self.rank@[j] by {
                                        assert(args_of(t@)[i] == cs[i]);
                                        assert(self.rank@[cs[i].kind as int] == old(self).rank@[cs[i].kind as int]);
                                    }
                                },
                                _ => {},
                            }
                        }
                    }
                    assert forall|i: int, j: int| 0 <= i < j < self.types@.len() implies #[trigger] self.types@[i]@
                        != #[trigger] self.types@[j]@ by {
                        if j == k {
                            assert(old_tys[i] == self.types@[i]@);
                        } else {
                            assert(old(self).types@[i] == self.types@[i]);
                            assert(old(self).types@[j] == self.types@[j]);
                        }
                    }
                }
                k
            },
        }
    }
}

/// The term of a bit vector type with the given sign and length.
pub open spec fn bits_term(f: SignFlag, n: nat) -> Term {
    Term::App(Shape::Bits, seq![Term::Const(Const::Signed(f)), Term::Const(Const::Length(n as usize))])
}

/// The names of the fields of a struct kind.
pub open spec fn kind_field_names(fs: Seq<FieldView>) -> Seq<Seq<char>> {
    Seq::new(fs.len(), |i: int| fs[i].name)
}

/// The term that stands for a kind.
pub open spec fn kind_term(k: KindView) -> Term
    decreases k, 0nat,
{
    match k {
        KindView::Empty => Term::Const(Const::Empty),
        KindView::Bits(n) => bits_term(SignFlag::Unsigned, n),
        KindView::Signed(n) => bits_term(SignFlag::Signed, n),
        KindView::Array(b, n) => Term::App(Shape::Array, seq![kind_term(*b), Term::Const(Const::Length(n as usize))]),
        KindView::Tuple(ks) => Term::App(Shape::Tuple, kinds_term(ks)),
        KindView::Struct(n, fs) => Term::App(Shape::Struct(n, kind_field_names(fs)), fields_term(fs)),
        KindView::Signal(b, c) => Term::App(Shape::Signal, seq![kind_term(*b), Term::Const(Const::Clock(c))]),
    }
}

pub open spec fn kinds_term(ks: Seq<KindView>) -> Seq<Term>
    decreases ks, 1nat,
{
    if ks.len() == 0 {
        Seq::empty()
    } else {
        seq![kind_term(ks[0])] + kinds_term(ks.drop_first())
    }
}

pub open spec fn fields_term(fs: Seq<FieldView>) -> Seq<Term>
    decreases fs, 1nat,
{
    if fs.len() == 0 {
        Seq::empty()
    } else {
        seq![kind_term(fs[0].kind)] + fields_term(fs.drop_first())
    }
}

pub proof fn lemma_kinds_term_index(ks: Seq<KindView>, i: int)
    requires
        0 <= i < ks.len(),
    ensures
        kinds_term(ks).len() == ks.len(),
        kinds_term(ks)[i] == kind_term(ks[i]),
    decreases ks.len(),
{
    lemma_kinds_term_len(ks);
    if i > 0 {
        lemma_kinds_term_index(ks.drop_first(), i - 1);
    }
}

pub proof fn lemma_kinds_term_len(ks: Seq<KindView>)
    ensures
        kinds_term(ks).len() == ks.len(),
    decreases ks.len(),
{
    if ks.len() > 0 {
        lemma_kinds_term_len(ks.drop_first());
    }
}

pub proof fn lemma_fields_term_len(fs: Seq<FieldView>)
    ensures
        fields_term(fs).len() == fs.len(),
    decreases fs.len(),
{
    if fs.len() > 0 {
        lemma_fields_term_len(fs.drop_first());
    }
}

pub proof fn lemma_fields_term_index(fs: Seq<FieldView>, i: int)
    requires
        0 <= i < fs.len(),
    ensures
        fields_term(fs).len() == fs.len(),
        fields_term(fs)[i] == kind_term(fs[i].kind),
    decreases fs.len(),
{
    lemma_fields_term_len(fs);
    if i > 0 {
        lemma_fields_term_index(fs.drop_first(), i - 1);
    }
}

proof fn lemma_extends_trans<T>(a: Seq<T>, b: Seq<T>, c: Seq<T>)
    requires
        extends(a, b),
        extends(b, c),
    ensures
        extends(a, c),
{
    assert forall|j: int| 0 <= j < a.len() implies #[trigger] c[j] == a[j] by {
        assert(c[j] == b[j]);
    }
}

impl UnifyContext {
    /// The terms of a list of types.
    pub open spec fn terms(&self, cs: Seq<TypeId>) -> Seq<Term> {
        Seq::new(cs.len(), |i: int| self.term(cs[i]))
    }

    pub proof fn lemma_grows_refl(a: UnifyContext)
        ensures
            a.grows_from(a),
    {
    }

    pub proof fn lemma_grows_trans(a: UnifyContext, b: UnifyContext, c: UnifyContext)
        requires
            b.grows_from(a),
            c.grows_from(b),
        ensures
            c.grows_from(a),
    {
        lemma_extends_trans(a.tys(), b.tys(), c.tys());
        lemma_extends_trans(a.subst(), b.subst(), c.subst());
        lemma_extends_trans(a.rank@, b.rank@, c.rank@);
    }

    /// What a node stands for, one step down.
    pub proof fn lemma_term_unfold(&self, t: TypeId)
        requires
            self.wf(),
            self.has(t),
        ensures
            match self.tys()[t.kind as int] {
                TypeKindView::Var(v) => (v.0 as int) < self.subst().len() && match self.subst()[v.0 as int] {
                    Some(u) => self.has(u) && self.term(t) == self.term(u),
                    None => self.term(t) == Term::Var(v),
                },
                TypeKindView::Const(c) => self.term(t) == Term::Const(c),
                TypeKindView::App(sh, cs) => (forall|i: int| 0 <= i < cs.len() ==> self.has(#[trigger] cs[i]))
                    && self.term(t) == Term::App(sh, self.terms(cs)),
            },
    {
        assert(node_ok(self.tys(), self.subst(), self.rank@, t.kind as int));
        match self.tys()[t.kind as int] {
            TypeKindView::App(sh, cs) => {
                lemma_resolve_seq_index(self.tys(), self.subst(), self.rank@, cs, self.rank@[t.kind as int]);
                assert(resolve_seq(self.tys(), self.subst(), self.rank@, cs, self.rank@[t.kind as int]) =~= self.terms(cs));
            },
            _ => {},
        }
    }

    /// Every variable in the term of a node was made in this context.
    pub proof fn lemma_term_vars_below(&self, t: TypeId, v: VarNum)
        requires
            self.wf(),
            self.has(t),
            term_has_var(self.term(t), v),
        ensures
            (v.0 as nat) < self.vars(),
        decreases self.ranks()[t.kind as int],
    {
        self.lemma_term_unfold(t);
        assert(node_ok(self.tys(), self.subst(), self.rank@, t.kind as int));
        match self.tys()[t.kind as int] {
            TypeKindView::Var(u) => {
                if let Some(w) = self.subst()[u.0 as int] {
                    self.lemma_term_vars_below(w, v);
                }
            },
            TypeKindView::Const(_) => {},
            TypeKindView::App(sh, cs) => {
                lemma_terms_have_var(self.terms(cs), v);
                let i = choose|i: int| 0 <= i < self.terms(cs).len() && #[trigger] term_has_var(self.terms(cs)[i], v);
                assert(self.terms(cs)[i] == self.term(cs[i]));
                self.lemma_term_vars_below(cs[i], v);
            },
        }
    }

    /// The type stored at `ty`.
    pub fn ty(&self, ty: TypeId) -> (r: &TypeKind)
        requires
            self.has(ty),
        ensures
            r@ == self.tys()[ty.kind as int],
    {
        &self.types[ty.kind]
    }

    /// The number of variables made so far.
    pub fn var_count(&self) -> (r: u32)
        ensures
            r == self.vars(),
    {
        self.var.0
    }

    /// The arguments stored at node `ty` (none for a variable or a constant);
    /// each is a node that ranks below `ty`.
    pub fn sub_types(&self, ty: TypeId) -> (r: Vec<TypeId>)
        requires
            self.wf(),
            self.has(ty),
        ensures
            r@ == args_of(self.tys()[ty.kind as int]),
            forall|i: int|
                0 <= i < r@.len() ==> self.has(#[trigger] r@[i]) && self.ranks()[r@[i].kind as int] < self.ranks()[ty.kind as int],
    {
        proof {
            assert(node_ok(self.tys(), self.subst(), self.rank@, ty.kind as int));
        }
        self.args(ty)
    }

    /// The number of substitutions made and of types stored.
    pub fn modification_state(&self) -> (r: ModificationState)
        ensures
            r.update_count == self.updates(),
            r.intern_size == self.tys().len(),
    {
        ModificationState { update_count: self.update_count, intern_size: self.types.len() }
    }

    fn ty_app(&mut self, id: NodeId, kind: AppType) -> (r: TypeId)
        requires
            old(self).wf(),
            forall|i: int| 0 <= i < args_of(app_view(kind)).len() ==> old(self).has(#[trigger] args_of(app_view(kind))[i]),
        ensures
            final(self).wf(),
            final(self).grows_from(*old(self)),
            final(self).subst() == old(self).subst(),
            final(self).vars() == old(self).vars(),
            r.id == id,
            final(self).has(r),
            final(self).tys()[r.kind as int] == app_view(kind),
            (exists|j: int| 0 <= j < old(self).tys().len() && old(self).tys()[j] == app_view(kind)) ==> *final(self) == *old(self),
    {
        let k = self.intern(TypeKind::App(kind));
        TypeId { id, kind: k }
    }

    /// The type of the given constant.
    pub fn ty_const(&mut self, id: NodeId, const_ty: Const) -> (r: TypeId)
        requires
            old(self).wf(),
        ensures
            final(self).wf(),
            final(self).grows_from(*old(self)),
            final(self).subst() == old(self).subst(),
            final(self).vars() == old(self).vars(),
            r.id == id,
            final(self).has(r),
            final(self).tys()[r.kind as int] == TypeKindView::Const(const_ty),
            final(self).term(r) == Term::Const(const_ty),
    {
        let k = self.intern(TypeKind::Const(const_ty));
        let r = TypeId { id, kind: k };
        proof {
            self.lemma_term_unfold(r);
        }
        r
    }

    /// The length `len`.
    pub fn ty_const_len(&mut self, id: NodeId, len: usize) -> (r: TypeId)
        requires
            old(self).wf(),
        ensures
            final(self).wf(),
            final(self).grows_from(*old(self)),
            final(self).subst() == old(self).subst(),
            final(self).vars() == old(self).vars(),
            r.id == id,
            final(self).has(r),
            final(self).term(r) == Term::Const(Const::Length(len)),
    {
        self.ty_const(id, Const::Length(len))
    }

    /// The sign flag `sign_flag`.
    pub fn ty_sign_flag(&mut self, id: NodeId, sign_flag: SignFlag) -> (r: TypeId)
        requires
            old(self).wf(),
        ensures
            final(self).wf(),
            final(self).grows_from(*old(self)),
            final(self).subst() == old(self).subst(),
            final(self).vars() == old(self).vars(),
            r.id == id,
            final(self).has(r),
            final(self).term(r) == Term::Const(Const::Signed(sign_flag)),
    {
        self.ty_const(id, Const::Signed(sign_flag))
    }

    /// The clock `clock`.
    pub fn ty_clock(&mut self, id: NodeId, clock: Color) -> (r: TypeId)
        requires
            old(self).wf(),
        ensures
            final(self).wf(),
            final(self).grows_from(*old(self)),
            final(self).subst() == old(self).subst(),
            final(self).vars() == old(self).vars(),
            r.id == id,
            final(self).has(r),
            final(self).term(r) == Term::Const(Const::Clock(clock)),
    {
        self.ty_const(id, Const::Clock(clock))
    }

    /// The empty type.
    pub fn ty_empty(&mut self, id: NodeId) -> (r: TypeId)
        requires
            old(self).wf(),
        ensures
            final(self).wf(),
            final(self).grows_from(*old(self)),
            final(self).subst() == old(self).subst(),
            final(self).vars() == old(self).vars(),
            r.id == id,
            final(self).has(r),
            final(self).term(r) == Term::Const(Const::Empty),
    {
        self.ty_const(id, Const::Empty)
    }

    /// A new type variable.
    pub fn ty_var(&mut self, id: NodeId) -> (r: TypeId)
        requires
            old(self).wf(),
            old(self).vars() < u32::MAX,
        ensures
            final(self).wf(),
            final(self).grows_from(*old(self)),
            final(self).subst() == old(self).subst().push(None),
            final(self).vars() == old(self).vars() + 1,
            r.id == id,
            final(self).has(r),
            final(self).term(r) == Term::Var(VarNum(old(self).vars() as u32)),
    {
        let v = self.var;
        self.substitution_map.push(None);
        self.var = VarNum(v.0 + 1);
        proof {
            assert forall|j: int| 0 <= j < self.types@.len() implies #[trigger] node_ok(
                self.tys(),
                self.subst(),
                self.rank@,
                j,
            ) by {
                assert(node_ok(old(self).tys(), old(self).subst(), old(self).rank@, j));
                if let TypeKindView::Var(u) = self.tys()[j] {
                    assert(self.subst()[u.0 as int] == old(self).subst()[u.0 as int]);
                }
            }
        }
        let ghost mid = *self;
        let k = self.intern(TypeKind::Var(v));
        let r = TypeId { id, kind: k };
        proof {
            Self::lemma_grows_trans(*old(self), mid, *self);
            self.lemma_term_unfold(r);
        }
        r
    }

    /// The bit vector type with sign flag `sign_flag` and length `len`.
    pub fn ty_with_sign_and_len(&mut self, id: NodeId, sign_flag: TypeId, len: TypeId) -> (r: TypeId)
        requires
            old(self).wf(),
            old(self).has(sign_flag),
            old(self).has(len),
        ensures
            final(self).wf(),
            final(self).grows_from(*old(self)),
            final(self).subst() == old(self).subst(),
            final(self).vars() == old(self).vars(),
            r.id == id,
            final(self).has(r),
            final(self).term(r) == Term::App(Shape::Bits, seq![old(self).term(sign_flag), old(self).term(len)]),
            final(self).tys()[r.kind as int] == TypeKindView::App(Shape::Bits, seq![sign_flag, len]),
    {
        let r = self.ty_app(id, AppType::Bits(AppBits { sign_flag, len }));
        proof {
            self.lemma_term_unfold(r);
            self.lemma_grows_keeps_terms(*old(self), sign_flag);
            self.lemma_grows_keeps_terms(*old(self), len);
            assert(self.terms(seq![sign_flag, len]) =~= seq![old(self).term(sign_flag), old(self).term(len)]);
        }
        r
    }

    /// The unsigned bit vector type of length `len`.
    pub fn ty_bits(&mut self, id: NodeId, len: TypeId) -> (r: TypeId)
        requires
            old(self).wf(),
            old(self).has(len),
        ensures
            final(self).wf(),
            final(self).grows_from(*old(self)),
            final(self).subst() == old(self).subst(),
            final(self).vars() == old(self).vars(),
            r.id == id,
            final(self).has(r),
            final(self).term(r) == Term::App(
                Shape::Bits,
                seq![Term::Const(Const::Signed(SignFlag::Unsigned)), old(self).term(len)],
            ),
            final(self).tys()[r.kind as int] matches TypeKindView::App(Shape::Bits, cs) && cs.len() == 2 && cs[1] == len
                && final(self).has(cs[0]) && final(self).term(cs[0]) == Term::Const(Const::Signed(SignFlag::Unsigned)),
    {
        let ghost s0 = *self;
        let sign_flag = self.ty_sign_flag(id, SignFlag::Unsigned);
        proof {
            self.lemma_grows_keeps_terms(s0, len);
        }
        let ghost s1 = *self;
        let r = self.ty_with_sign_and_len(id, sign_flag, len);
        proof {
            Self::lemma_grows_trans(s0, s1, *self);
            self.lemma_grows_keeps_terms(s1, sign_flag);
        }
        r
    }

    /// The signed bit vector type of length `len`.
    pub fn ty_signed(&mut self, id: NodeId, len: TypeId) -> (r: TypeId)
        requires
            old(self).wf(),
            old(self).has(len),
        ensures
            final(self).wf(),
            final(self).grows_from(*old(self)),
            final(self).subst() == old(self).subst(),
            final(self).vars() == old(self).vars(),
            r.id == id,
            final(self).has(r),
            final(self).term(r) == Term::App(
                Shape::Bits,
                seq![Term::Const(Const::Signed(SignFlag::Signed)), old(self).term(len)],
            ),
            final(self).tys()[r.kind as int] matches TypeKindView::App(Shape::Bits, cs) && cs.len() == 2 && cs[1] == len
                && final(self).has(cs[0]) && final(self).term(cs[0]) == Term::Const(Const::Signed(SignFlag::Signed)),
    {
        let ghost s0 = *self;
        let sign_flag = self.ty_sign_flag(id, SignFlag::Signed);
        proof {
            self.lemma_grows_keeps_terms(s0, len);
        }
        let ghost s1 = *self;
        let r = self.ty_with_sign_and_len(id, sign_flag, len);
        proof {
            Self::lemma_grows_trans(s0, s1, *self);
            self.lemma_grows_keeps_terms(s1, sign_flag);
        }
        r
    }

    /// A bit vector type of length `len` whose sign is a new variable.
    pub fn ty_maybe_signed(&mut self, id: NodeId, len: TypeId) -> (r: TypeId)
        requires
            old(self).wf(),
            old(self).has(len),
            old(self).vars() < u32::MAX,
        ensures
            final(self).wf(),
            final(self).grows_from(*old(self)),
            final(self).subst() == old(self).subst().push(None),
            final(self).vars() == old(self).vars() + 1,
            r.id == id,
            final(self).has(r),
            final(self).term(r) == Term::App(
                Shape::Bits,
                seq![Term::Var(VarNum(old(self).vars() as u32)), old(self).term(len)],
            ),
    {
        let ghost s0 = *self;
        let sign_flag = self.ty_var(id);
        proof {
            self.lemma_grows_keeps_terms(s0, len);
        }
        let ghost s1 = *self;
        let r = self.ty_with_sign_and_len(id, sign_flag, len);
        proof {
            Self::lemma_grows_trans(s0, s1, *self);
        }
        r
    }

    /// An integer type whose length and sign are new variables (in that order).
    pub fn ty_integer(&mut self, id: NodeId) -> (r: TypeId)
        requires
            old(self).wf(),
            old(self).vars() + 2 <= u32::MAX,
        ensures
            final(self).wf(),
            final(self).grows_from(*old(self)),
            final(self).subst() == old(self).subst().push(None).push(None),
            final(self).vars() == old(self).vars() + 2,
            r.id == id,
            final(self).has(r),
            final(self).term(r) == Term::App(
                Shape::Bits,
                seq![Term::Var(VarNum((old(self).vars() + 1) as u32)), Term::Var(VarNum(old(self).vars() as u32))],
            ),
    {
        let ghost s0 = *self;
        let len = self.ty_var(id);
        let ghost s1 = *self;
        let sign_flag = self.ty_var(id);
        proof {
            self.lemma_grows_keeps_terms(s1, len);
        }
        let ghost s2 = *self;
        let r = self.ty_with_sign_and_len(id, sign_flag, len);
        proof {
            Self::lemma_grows_trans(s0, s1, s2);
            Self::lemma_grows_trans(s0, s2, *self);
        }
        r
    }

    /// The one-bit unsigned type.
    pub fn ty_bool(&mut self, id: NodeId) -> (r: TypeId)
        requires
            old(self).wf(),
        ensures
            final(self).wf(),
            final(self).grows_from(*old(self)),
            final(self).subst() == old(self).subst(),
            final(self).vars() == old(self).vars(),
            r.id == id,
            final(self).has(r),
            final(self).term(r) == bits_term(SignFlag::Unsigned, 1),
    {
        let ghost s0 = *self;
        let n = self.ty_const_len(id, 1);
        let ghost s1 = *self;
        let r = self.ty_bits(id, n);
        proof {
            Self::lemma_grows_trans(s0, s1, *self);
        }
        r
    }

    /// The unsigned 64-bit type.
    pub fn ty_usize(&mut self, id: NodeId) -> (r: TypeId)
        requires
            old(self).wf(),
        ensures
            final(self).wf(),
            final(self).grows_from(*old(self)),
            final(self).subst() == old(self).subst(),
            final(self).vars() == old(self).vars(),
            r.id == id,
            final(self).has(r),
            final(self).term(r) == bits_term(SignFlag::Unsigned, 64),
    {
        let ghost s0 = *self;
        let n = self.ty_const_len(id, 64);
        let ghost s1 = *self;
        let r = self.ty_bits(id, n);
        proof {
            Self::lemma_grows_trans(s0, s1, *self);
        }
        r
    }

    /// The signal type carrying `data` on `clock`.
    pub fn ty_signal(&mut self, id: NodeId, data: TypeId, clock: TypeId) -> (r: TypeId)
        requires
            old(self).wf(),
            old(self).has(data),
            old(self).has(clock),
        ensures
            final(self).wf(),
            final(self).grows_from(*old(self)),
            final(self).subst() == old(self).subst(),
            final(self).vars() == old(self).vars(),
            r.id == id,
            final(self).has(r),
            final(self).term(r) == Term::App(Shape::Signal, seq![old(self).term(data), old(self).term(clock)]),
            final(self).tys()[r.kind as int] == TypeKindView::App(Shape::Signal, seq![data, clock]),
    {
        let r = self.ty_app(id, AppType::Signal(AppSignal { data, clock }));
        proof {
            self.lemma_term_unfold(r);
            self.lemma_grows_keeps_terms(*old(self), data);
            self.lemma_grows_keeps_terms(*old(self), clock);
            assert(self.terms(seq![data, clock]) =~= seq![old(self).term(data), old(self).term(clock)]);
        }
        r
    }

    /// The array type of `len` elements of type `base`.
    pub fn ty_array(&mut self, id: NodeId, base: TypeId, len: TypeId) -> (r: TypeId)
        requires
            old(self).wf(),
            old(self).has(base),
            old(self).has(len),
        ensures
            final(self).wf(),
            final(self).grows_from(*old(self)),
            final(self).subst() == old(self).subst(),
            final(self).vars() == old(self).vars(),
            r.id == id,
            final(self).has(r),
            final(self).term(r) == Term::App(Shape::Array, seq![old(self).term(base), old(self).term(len)]),
            final(self).tys()[r.kind as int] == TypeKindView::App(Shape::Array, seq![base, len]),
    {
        let r = self.ty_app(id, AppType::Array(AppArray { base, len }));
        proof {
            self.lemma_term_unfold(r);
            self.lemma_grows_keeps_terms(*old(self), base);
            self.lemma_grows_keeps_terms(*old(self), len);
            assert(self.terms(seq![base, len]) =~= seq![old(self).term(base), old(self).term(len)]);
        }
        r
    }

    /// The tuple type of the given element types.
    pub fn ty_tuple(&mut self, id: NodeId, fields: Vec<TypeId>) -> (r: TypeId)
        requires
            old(self).wf(),
            forall|i: int| 0 <= i < fields@.len() ==> old(self).has(#[trigger] fields@[i]),
        ensures
            final(self).wf(),
            final(self).grows_from(*old(self)),
            final(self).subst() == old(self).subst(),
            final(self).vars() == old(self).vars(),
            r.id == id,
            final(self).has(r),
            final(self).term(r) == Term::App(Shape::Tuple, old(self).terms(fields@)),
            final(self).tys()[r.kind as int] == TypeKindView::App(Shape::Tuple, fields@),
    {
        let ghost fs = fields@;
        let r = self.ty_app(id, AppType::Tuple(AppTuple { elements: fields }));
        proof {
            self.lemma_term_unfold(r);
            assert forall|i: int| 0 <= i < fs.len() implies #[trigger] self.terms(fs)[i] == old(self).terms(fs)[i] by {
                self.lemma_grows_keeps_terms(*old(self), fs[i]);
            }
            assert(self.terms(fs) =~= old(self).terms(fs));
        }
        r
    }

    /// The struct type with the given name and fields.
    pub fn ty_dyn_struct(&mut self, id: NodeId, name: String, fields: Vec<(String, TypeId)>) -> (r: TypeId)
        requires
            old(self).wf(),
            forall|i: int| 0 <= i < fields@.len() ==> old(self).has(#[trigger] fields@[i].1),
        ensures
            final(self).wf(),
            final(self).grows_from(*old(self)),
            final(self).subst() == old(self).subst(),
            final(self).vars() == old(self).vars(),
            r.id == id,
            final(self).has(r),
            final(self).term(r) == Term::App(
                Shape::Struct(name@, field_names(fields@)),
                old(self).terms(field_types(fields@)),
            ),
    {
        let ghost fs = fields@;
        let ghost nm = name@;
        proof {
            assert forall|i: int| 0 <= i < field_types(fs).len() implies old(self).has(#[trigger] field_types(fs)[i]) by {
                assert(field_types(fs)[i] == fs[i].1);
            }
        }
        let r = self.ty_app(id, AppType::Struct(AppStruct { name, fields }));
        proof {
            self.lemma_term_unfold(r);
            assert forall|i: int| 0 <= i < field_types(fs).len() implies #[trigger] self.terms(field_types(fs))[i]
                == old(self).terms(field_types(fs))[i] by {
                assert(field_types(fs)[i] == fs[i].1);
                self.lemma_grows_keeps_terms(*old(self), field_types(fs)[i]);
            }
            assert(self.terms(field_types(fs)) =~= old(self).terms(field_types(fs)));
        }
        r
    }
}

impl Default for UnifyContext {
    /// An empty context: no types, no variables, no substitutions.
    fn default() -> (r: Self)
        ensures
            r.wf(),
            r.tys() == Seq::<TypeKindView>::empty(),
            r.subst() == Seq::<Option<TypeId>>::empty(),
            r.vars() == 0,
            r.updates() == 0,
    {
        let r = UnifyContext {
            substitution_map: Vec::new(),
            types: Vec::new(),
            var: VarNum(0),
            update_count: 0,
            rank: Ghost(Seq::empty()),
        };
        proof {
            assert(r.tys() =~= Seq::<TypeKindView>::empty());
        }
        r
    }
}

impl UnifyContext {
    /// The type that stands for a kind.
    pub fn from_kind(&mut self, id: NodeId, kind: &Kind) -> (r: TypeId)
        requires
            old(self).wf(),
        ensures
            final(self).wf(),
            final(self).grows_from(*old(self)),
            final(self).subst() == old(self).subst(),
            final(self).vars() == old(self).vars(),
            r.id == id,
            final(self).has(r),
            final(self).term(r) == kind_term(kind@),
        decreases kind, 1nat,
    {
        match kind {
            Kind::Empty => self.ty_empty(id),
            Kind::Bits(n) => {
                let ghost s0 = *self;
                let len = self.ty_const_len(id, *n);
                let ghost s1 = *self;
                let r = self.ty_bits(id, len);
                proof {
                    Self::lemma_grows_trans(s0, s1, *self);
                }
                r
            },
            Kind::Signed(n) => {
                let ghost s0 = *self;
                let len = self.ty_const_len(id, *n);
                let ghost s1 = *self;
                let r = self.ty_signed(id, len);
                proof {
                    Self::lemma_grows_trans(s0, s1, *self);
                }
                r
            },
            Kind::Array(b, n) => {
                let ghost s0 = *self;
                let base = self.from_kind(id, b);
                let ghost s1 = *self;
                let len = self.ty_const_len(id, *n);
                proof {
                    self.lemma_grows_keeps_terms(s1, base);
                }
                let ghost s2 = *self;
                let r = self.ty_array(id, base, len);
                proof {
                    Self::lemma_grows_trans(s0, s1, s2);
                    Self::lemma_grows_trans(s0, s2, *self);
                }
                r
            },
            Kind::Signal(b, c) => {
                let ghost s0 = *self;
                let data = self.from_kind(id, b);
                let ghost s1 = *self;
                let clock = self.ty_clock(id, *c);
                proof {
                    self.lemma_grows_keeps_terms(s1, data);
                }
                let ghost s2 = *self;
                let r = self.ty_signal(id, data, clock);
                proof {
                    Self::lemma_grows_trans(s0, s1, s2);
                    Self::lemma_grows_trans(s0, s2, *self);
                }
                r
            },
            Kind::Tuple(v) => {
                let ghost s0 = *self;
                let mut out: Vec<TypeId> = Vec::new();
                let mut i: usize = 0;
                proof {
                    lemma_kinds_view_len(v@);
                    lemma_kinds_term_len(kinds_view(v@));
                }
                while i < v.len()
                    invariant
                        i <= v.len(),
                        *kind == Kind::Tuple(*v),
                        self.wf(),
                        self.grows_from(s0),
                        self.subst() == s0.subst(),
                        self.vars() == s0.vars(),
                        out@.len() == i,
                        forall|j: int| 0 <= j < i ==> self.has(#[trigger] out@[j]) && self.term(out@[j]) == kind_term(
                            v@[j]@,
                        ),
                    decreases v.len() - i,
                {
                    proof {
                        assert(decreases_to!(v => v[i as int]));
                        assert(decreases_to!(*kind => kind->Tuple_0));
                        assert(decreases_to!(*kind => v[i as int]));
                    }
                    let ghost before = *self;
                    let t = self.from_kind(id, &v[i]);
                    proof {
                        assert forall|j: int| 0 <= j < i implies self.has(#[trigger] out@[j]) && self.term(out@[j])
                            == kind_term(v@[j]@) by {
                            self.lemma_grows_keeps_terms(before, out@[j]);
                        }
                        Self::lemma_grows_trans(s0, before, *self);
                    }
                    out.push(t);
                    i += 1;
                }
                let ghost s1 = *self;
                let ghost elems = out@;
                let r = self.ty_tuple(id, out);
                proof {
                    Self::lemma_grows_trans(s0, s1, *self);
                    assert forall|j: int| 0 <= j < v@.len() implies #[trigger] s1.terms(elems)[j] == kinds_term(kinds_view(v@))[j] by {
                        lemma_kinds_view_index(v@, j);
                        lemma_kinds_term_index(kinds_view(v@), j);
                    }
                    assert(s1.terms(elems) =~= kinds_term(kinds_view(v@)));
                }
                r
            },
            Kind::Struct(name, fs) => {
                let ghost s0 = *self;
                let fields = self.struct_field_types(id, kind, name, fs);
                let ghost s1 = *self;
                let ghost fv = fields@;
                proof {
                    assert forall|i: int| 0 <= i < fv.len() implies self.has(#[trigger] fv[i].1) by {
                        assert(fv[i] == fields@[i]);
                    }
                }
                let r = self.ty_dyn_struct(id, name.clone(), fields);
                proof {
                    Self::lemma_grows_trans(s0, s1, *self);
                    lemma_fields_view_len(fs@);
                    lemma_fields_term_len(fields_view(fs@));
                    assert forall|j: int| 0 <= j < fs@.len() implies #[trigger] s1.terms(field_types(fv))[j]
                        == fields_term(fields_view(fs@))[j] && field_names(fv)[j] == kind_field_names(fields_view(fs@))[j] by {
                        lemma_fields_view_index(fs@, j);
                        lemma_fields_term_index(fields_view(fs@), j);
                        assert(fv[j] == fields@[j]);
                        assert(field_types(fv)[j] == fv[j].1);
                    }
                    assert(s1.terms(field_types(fv)) =~= fields_term(fields_view(fs@)));
                    assert forall|j: int| 0 <= j < fs@.len() implies #[trigger] field_names(fv)[j] == kind_field_names(
                        fields_view(fs@),
                    )[j] by {
                        lemma_fields_view_index(fs@, j);
                        assert(fv[j] == fields@[j]);
                    }
                    assert(field_names(fv) =~= kind_field_names(fields_view(fs@)));
                }
                r
            },
        }
    }

    /// The field names of a struct kind with the types that stand for the
    /// field kinds.
    fn struct_field_types(&mut self, id: NodeId, kind: &Kind, name: &String, fs: &Vec<Field>) -> (r: Vec<(String, TypeId)>)
        requires
            old(self).wf(),
            *kind == Kind::Struct(*name, *fs),
        ensures
            final(self).wf(),
            final(self).grows_from(*old(self)),
            final(self).subst() == old(self).subst(),
            final(self).vars() == old(self).vars(),
            r@.len() == fs@.len(),
            forall|j: int| 0 <= j < fs@.len() ==> (#[trigger] r@[j]).0@ == fs@[j].name@ && final(self).has(r@[j].1)
                && final(self).term(r@[j].1) == kind_term(fs@[j].kind@),
        decreases kind, 0nat,
    {
        let ghost s0 = *self;
        let mut out: Vec<(String, TypeId)> = Vec::new();
        let mut i: usize = 0;
        while i < fs.len()
            invariant
                i <= fs.len(),
                *kind == Kind::Struct(*name, *fs),
                self.wf(),
                self.grows_from(s0),
                self.subst() == s0.subst(),
                self.vars() == s0.vars(),
                out@.len() == i,
                forall|j: int| 0 <= j < i ==> (#[trigger] out@[j]).0@ == fs@[j].name@ && self.has(out@[j].1)
                    && self.term(out@[j].1) == kind_term(fs@[j].kind@),
            decreases fs.len() - i,
        {
            proof {
                assert(decreases_to!(fs => fs[i as int]));
                assert(decreases_to!(fs[i as int] => fs[i as int].kind));
                assert(decreases_to!(*kind => kind->Struct_1));
                assert(decreases_to!(*kind => fs[i as int].kind));
            }
            let ghost before = *self;
            let t = self.from_kind(id, &fs[i].kind);
            proof {
                assert forall|j: int| 0 <= j < i implies (#[trigger] out@[j]).0@ == fs@[j].name@ && self.has(out@[j].1)
                    && self.term(out@[j].1) == kind_term(fs@[j].kind@) by {
                    self.lemma_grows_keeps_terms(before, out@[j].1);
                }
                Self::lemma_grows_trans(s0, before, *self);
            }
            out.push((fs[i].name.clone(), t));
            i += 1;
        }
        out
    }

    /// The struct type with the given name and fields.
    pub fn ty_struct(&mut self, id: NodeId, name: &String, fields: &Vec<Field>) -> (r: TypeId)
        requires
            old(self).wf(),
        ensures
            final(self).wf(),
            final(self).grows_from(*old(self)),
            final(self).subst() == old(self).subst(),
            final(self).vars() == old(self).vars(),
            r.id == id,
            final(self).has(r),
            final(self).term(r) == kind_term(KindView::Struct(name@, fields_view(fields@))),
    {
        let mut copy: Vec<Field> = Vec::new();
        let mut i: usize = 0;
        while i < fields.len()
            invariant
                i <= fields.len(),
                copy@.len() == i,
                forall|j: int| 0 <= j < i ==> (#[trigger] copy@[j]).name@ == fields@[j].name@ && copy@[j].kind@ == fields@[j].kind@,
            decreases fields.len() - i,
        {
            copy.push(Field { name: fields[i].name.clone(), kind: crate::types::kind::clone_kind(&fields[i].kind) });
            i += 1;
        }
        proof {
            lemma_fields_view_len(copy@);
            lemma_fields_view_len(fields@);
            assert forall|j: int| 0 <= j < fields@.len() implies fields_view(copy@)[j] == fields_view(fields@)[j] by {
                lemma_fields_view_index(copy@, j);
                lemma_fields_view_index(fields@, j);
            }
            assert(fields_view(copy@) =~= fields_view(fields@));
        }
        let k = Kind::Struct(name.clone(), copy);
        self.from_kind(id, &k)
    }
}

impl UnifyContext {
    /// Type `t` is a variable that has a substitution.
    pub open spec fn is_bound_var(&self, t: TypeId) -> bool {
        self.tys()[t.kind as int] matches TypeKindView::Var(v) && self.subst()[v.0 as int] is Some
    }

    /// Type `t` is not a variable with a substitution, and neither is any
    /// argument of it.
    pub open spec fn applied(&self, t: TypeId) -> bool {
        &&& !self.is_bound_var(t)
        &&& forall|i: int| 0 <= i < args_of(self.tys()[t.kind as int]).len() ==> !self.is_bound_var(
            #[trigger] args_of(self.tys()[t.kind as int])[i],
        )
    }

    /// Node `t` is applied throughout: applying it gives it back unchanged.
    pub open spec fn settled(&self, t: TypeId) -> bool {
        settled_at(self.tys(), self.subst(), self.ranks(), t.kind as int)
    }

    /// The node reached from `t` by following the substitutions of bound
    /// variables.
    pub open spec fn chase(&self, t: TypeId) -> TypeId
        decreases self.ranks()[t.kind as int],
    {
        if self.has(t) && self.tys()[t.kind as int] is Var {
            let v = self.tys()[t.kind as int]->Var_0;
            if (v.0 as int) < self.subst().len() && self.subst()[v.0 as int] is Some
                && self.ranks()[self.subst()[v.0 as int]->Some_0.kind as int] < self.ranks()[t.kind as int] {
                self.chase(self.subst()[v.0 as int]->Some_0)
            } else {
                t
            }
        } else {
            t
        }
    }

    /// The type `ty` with every variable that has a substitution replaced,
    /// down to its arguments; new application nodes are stored as needed.
    /// Where the substitutions lead from `ty` to a constant, an unbound
    /// variable or any node applied throughout, that node is the result and
    /// nothing is stored.
    pub fn apply(&mut self, ty: TypeId) -> (r: TypeId)
        requires
            old(self).wf(),
            old(self).has(ty),
        ensures
            final(self).wf(),
            final(self).grows_from(*old(self)),
            final(self).subst() == old(self).subst(),
            final(self).vars() == old(self).vars(),
            final(self).has(r),
            final(self).term(r) == old(self).term(ty),
            final(self).applied(r),
            !(old(self).tys()[old(self).chase(ty).kind as int] is App) ==> r == old(self).chase(ty) && *final(self) == *old(self),
            old(self).settled(old(self).chase(ty)) ==> r == old(self).chase(ty) && *final(self) == *old(self),
        decreases old(self).ranks()[ty.kind as int], 1nat,
    {
        proof {
            self.lemma_term_unfold(ty);
            assert(node_ok(self.tys(), self.subst(), self.rank@, ty.kind as int));
        }
        let node = copy_type_kind(&self.types[ty.kind]);
        match node {
            TypeKind::Var(v) => {
                match self.substitution_map[v.0 as usize] {
                    Some(t) => self.apply(t),
                    None => {
                        proof {
                            assert(self.tys()[ty.kind as int] == TypeKindView::Var(v));
                            assert(args_of(self.tys()[ty.kind as int]).len() == 0);
                        }
                        ty
                    },
                }
            },
            TypeKind::Const(c) => {
                proof {
                    assert(args_of(self.tys()[ty.kind as int]).len() == 0);
                }
                ty
            },
            TypeKind::App(app) => {
                let ghost s0 = *self;
                let ghost cs = args_of(s0.tys()[ty.kind as int]);
                let new_app = self.apply_children(ty, app);
                let ghost s1 = *self;
                proof {
                    if s0.settled(s0.chase(ty)) {
                        assert(s0.chase(ty) == ty);
                        assert(s1 == s0);
                        assert(s0.tys()[ty.kind as int] == app_view(new_app));
                    }
                }
                let r = self.ty_app(ty.id, new_app);
                proof {
                    if s0.settled(s0.chase(ty)) {
                        assert(*self == s0);
                        if r.kind != ty.kind {
                            if r.kind < ty.kind {
                                assert(self.types@[r.kind as int]@ != self.types@[ty.kind as int]@);
                            } else {
                                assert(self.types@[ty.kind as int]@ != self.types@[r.kind as int]@);
                            }
                        }
                        assert(r == ty);
                    }
                    Self::lemma_grows_trans(s0, s1, *self);
                    self.lemma_term_unfold(r);
                    let ncs = args_of(app_view(new_app));
                    assert forall|i: int| 0 <= i < ncs.len() implies #[trigger] self.terms(ncs)[i] == s0.terms(cs)[i] by {
                        self.lemma_grows_keeps_terms(s1, ncs[i]);
                    }
                    assert(self.terms(ncs) =~= s0.terms(cs));
                    assert forall|i: int| 0 <= i < ncs.len() implies !self.is_bound_var(#[trigger] ncs[i]) by {
                        assert(self.tys()[ncs[i].kind as int] == s1.tys()[ncs[i].kind as int]);
                    }
                }
                r
            },
        }
    }

    /// The application `app` (node `ty`) with each argument applied.
    fn apply_children(&mut self, ty: TypeId, app: AppType) -> (r: AppType)
        requires
            old(self).wf(),
            old(self).has(ty),
            old(self).tys()[ty.kind as int] == app_view(app),
        ensures
            final(self).wf(),
            final(self).grows_from(*old(self)),
            final(self).subst() == old(self).subst(),
            final(self).vars() == old(self).vars(),
            app_view(r) matches TypeKindView::App(sh, ncs) && app_view(app) matches TypeKindView::App(sh0, cs)
                && sh == sh0 && ncs.len() == cs.len() && forall|i: int| 0 <= i < cs.len() ==> final(self).has(#[trigger] ncs[i])
                && final(self).term(ncs[i]) == old(self).term(cs[i]) && !final(self).is_bound_var(ncs[i]),
            old(self).settled(ty) ==> app_view(r) == app_view(app) && *final(self) == *old(self),
        decreases old(self).ranks()[ty.kind as int], 0nat,
    {
        proof {
            assert(node_ok(self.tys(), self.subst(), self.rank@, ty.kind as int));
        }
        let ghost s0 = *self;
        let ghost cs = args_of(app_view(app));
        let ghost st = s0.settled(ty);
        proof {
            if st {
                lemma_settled_seq_index(s0.tys(), s0.subst(), s0.ranks(), cs, s0.ranks()[ty.kind as int]);
            }
        }
        match app {
            AppType::Tuple(t) => {
                let mut out: Vec<TypeId> = Vec::new();
                let mut i: usize = 0;
                while i < t.elements.len()
                    invariant
                        i <= t.elements.len(),
                        cs == t.elements@,
                        s0 == *old(self),
                        below(s0.tys(), s0.rank@, cs, s0.rank@[ty.kind as int]),
                        s0.wf(),
                        self.wf(),
                        self.grows_from(s0),
                        self.subst() == s0.subst(),
                        self.vars() == s0.vars(),
                        out@.len() == i,
                        forall|j: int| 0 <= j < i ==> self.has(#[trigger] out@[j]) && self.term(out@[j]) == s0.term(cs[j])
                            && !self.is_bound_var(out@[j]),
                        st == s0.settled(ty),
                        st ==> out@ == cs.take(i as int) && *self == s0 && forall|j: int| 0 <= j < cs.len() ==> s0.settled(#[trigger] cs[j]),
                    decreases t.elements.len() - i,
                {
                    let ghost before = *self;
                    proof {
                        assert(self.ranks()[cs[i as int].kind as int] == s0.ranks()[cs[i as int].kind as int]);
                        self.lemma_grows_keeps_terms(s0, cs[i as int]);
                    }
                    let a = self.apply(t.elements[i]);
                    proof {
                        if st {
                            assert(s0.settled(cs[i as int]));
                            assert(a == cs[i as int]);
                            assert(out@.push(a) =~= cs.take(i + 1));
                        }
                        assert forall|j: int| 0 <= j < i implies self.has(#[trigger] out@[j]) && self.term(out@[j])
                            == s0.term(cs[j]) && !self.is_bound_var(out@[j]) by {
                            self.lemma_grows_keeps_terms(before, out@[j]);
                            assert(self.tys()[out@[j].kind as int] == before.tys()[out@[j].kind as int]);
                        }
                        Self::lemma_grows_trans(s0, before, *self);
                    }
                    out.push(a);
                    i += 1;
                }
                proof {
                    if st {
                        assert(out@ =~= cs);
                    }
                }
                AppType::Tuple(AppTuple { elements: out })
            },
            AppType::Struct(x) => {
                let mut out: Vec<(String, TypeId)> = Vec::new();
                let mut i: usize = 0;
                while i < x.fields.len()
                    invariant
                        i <= x.fields.len(),
                        cs == field_types(x.fields@),
                        s0 == *old(self),
                        below(s0.tys(), s0.rank@, cs, s0.rank@[ty.kind as int]),
                        s0.wf(),
                        self.wf(),
                        self.grows_from(s0),
                        self.subst() == s0.subst(),
                        self.vars() == s0.vars(),
                        out@.len() == i,
                        forall|j: int| 0 <= j < i ==> (#[trigger] out@[j]).0@ == x.fields@[j].0@ && self.has(out@[j].1)
                            && self.term(out@[j].1) == s0.term(cs[j]) && !self.is_bound_var(out@[j].1),
                        st == s0.settled(ty),
                        st ==> *self == s0 && (forall|j: int| 0 <= j < i ==> (#[trigger] out@[j]).1 == cs[j]) && forall|j: int|
                            0 <= j < cs.len() ==> s0.settled(#[trigger] cs[j]),
                    decreases x.fields.len() - i,
                {
                    let ghost before = *self;
                    proof {
                        assert(cs[i as int] == x.fields@[i as int].1);
                        assert(self.ranks()[cs[i as int].kind as int] == s0.ranks()[cs[i as int].kind as int]);
                        self.lemma_grows_keeps_terms(s0, cs[i as int]);
                    }
                    let a = self.apply(x.fields[i].1);
                    proof {
                        if st {
                            assert(s0.settled(cs[i as int]));
                            assert(a == cs[i as int]);
                        }
                        assert forall|j: int| 0 <= j < i implies (#[trigger] out@[j]).0@ == x.fields@[j].0@ && self.has(out@[j].1)
                            && self.term(out@[j].1) == s0.term(cs[j]) && !self.is_bound_var(out@[j].1) by {
                            self.lemma_grows_keeps_terms(before, out@[j].1);
                            assert(self.tys()[out@[j].1.kind as int] == before.tys()[out@[j].1.kind as int]);
                        }
                        Self::lemma_grows_trans(s0, before, *self);
                    }
                    out.push((x.fields[i].0.clone(), a));
                    i += 1;
                }
                let r = AppType::Struct(AppStruct { name: x.name, fields: out });
                proof {
                    assert(field_names(out@) =~= field_names(x.fields@));
                    if st {
                        assert forall|j: int| 0 <= j < cs.len() implies #[trigger] field_types(out@)[j] == cs[j] by {
                            assert(field_types(out@)[j] == out@[j].1);
                        }
                        assert(field_types(out@) =~= cs);
                    }
                    assert forall|j: int| 0 <= j < cs.len() implies self.has(#[trigger] field_types(out@)[j])
                        && self.term(field_types(out@)[j]) == s0.term(cs[j]) && !self.is_bound_var(field_types(out@)[j]) by {
                        assert(field_types(out@)[j] == out@[j].1);
                    }
                }
                r
            },
            AppType::Array(x) => {
                proof {
                    assert(cs[0] == x.base && cs[1] == x.len);
                    self.lemma_grows_keeps_terms(s0, x.base);
                }
                let base = self.apply(x.base);
                let ghost s1 = *self;
                proof {
                    if st {
                        assert(s0.settled(cs[0]));
                        assert(base == x.base && s1 == s0);
                        assert(s0.settled(cs[1]));
                    }
                    self.lemma_grows_keeps_terms(s0, x.len);
                    assert(self.ranks()[x.len.kind as int] == s0.ranks()[x.len.kind as int]);
                }
                let len = self.apply(x.len);
                proof {
                    Self::lemma_grows_trans(s0, s1, *self);
                    self.lemma_grows_keeps_terms(s1, base);
                    assert(self.tys()[base.kind as int] == s1.tys()[base.kind as int]);
                }
                AppType::Array(AppArray { base, len })
            },
            AppType::Bits(x) => {
                proof {
                    assert(cs[0] == x.sign_flag && cs[1] == x.len);
                }
                let sign_flag = self.apply(x.sign_flag);
                let ghost s1 = *self;
                proof {
                    if st {
                        assert(s0.settled(cs[0]));
                        assert(sign_flag == x.sign_flag && s1 == s0);
                        assert(s0.settled(cs[1]));
                    }
                    self.lemma_grows_keeps_terms(s0, x.len);
                    assert(self.ranks()[x.len.kind as int] == s0.ranks()[x.len.kind as int]);
                }
                let len = self.apply(x.len);
                proof {
                    Self::lemma_grows_trans(s0, s1, *self);
                    self.lemma_grows_keeps_terms(s1, sign_flag);
                    assert(self.tys()[sign_flag.kind as int] == s1.tys()[sign_flag.kind as int]);
                }
                AppType::Bits(AppBits { sign_flag, len })
            },
            AppType::Signal(x) => {
                proof {
                    assert(cs[0] == x.data && cs[1] == x.clock);
                }
                let data = self.apply(x.data);
                let ghost s1 = *self;
                proof {
                    if st {
                        assert(s0.settled(cs[0]));
                        assert(data == x.data && s1 == s0);
                        assert(s0.settled(cs[1]));
                    }
                    self.lemma_grows_keeps_terms(s0, x.clock);
                    assert(self.ranks()[x.clock.kind as int] == s0.ranks()[x.clock.kind as int]);
                }
                let clock = self.apply(x.clock);
                proof {
                    Self::lemma_grows_trans(s0, s1, *self);
                    self.lemma_grows_keeps_terms(s1, data);
                    assert(self.tys()[data.kind as int] == s1.tys()[data.kind as int]);
                }
                AppType::Signal(AppSignal { data, clock })
            },
        }
    }
}

/// Variable `v` occurs in the term.
pub open spec fn term_has_var(t: Term, v: VarNum) -> bool
    decreases t, 0nat,
{
    match t {
        Term::Var(u) => u == v,
        Term::Const(_) => false,
        Term::App(_, ts) => terms_have_var(ts, v),
    }
}

pub open spec fn terms_have_var(ts: Seq<Term>, v: VarNum) -> bool
    decreases ts, 1nat,
{
    if ts.len() == 0 {
        false
    } else {
        term_has_var(ts[0], v) || terms_have_var(ts.drop_first(), v)
    }
}

proof fn lemma_terms_have_var(ts: Seq<Term>, v: VarNum)
    ensures
        terms_have_var(ts, v) <==> exists|i: int| 0 <= i < ts.len() && #[trigger] term_has_var(ts[i], v),
    decreases ts.len(),
{
    if ts.len() > 0 {
        lemma_terms_have_var(ts.drop_first(), v);
        assert(terms_have_var(ts, v) == (term_has_var(ts[0], v) || terms_have_var(ts.drop_first(), v)));
        if term_has_var(ts[0], v) {
            assert(0 <= 0 < ts.len() && term_has_var(ts[0], v));
        }
        if exists|i: int| 0 <= i < ts.len() && #[trigger] term_has_var(ts[i], v) {
            let i = choose|i: int| 0 <= i < ts.len() && #[trigger] term_has_var(ts[i], v);
            if i > 0 {
                assert(ts.drop_first()[i - 1] == ts[i]);
            }
        }
        if terms_have_var(ts.drop_first(), v) {
            let i = choose|i: int| 0 <= i < ts.drop_first().len() && #[trigger] term_has_var(ts.drop_first()[i], v);
            assert(ts.drop_first()[i] == ts[i + 1]);
        }
    }
}

/// The term with variable `v` replaced by `r`.
pub open spec fn tsubst(t: Term, v: VarNum, r: Term) -> Term
    decreases t, 0nat,
{
    match t {
        Term::Var(u) => if u == v {
            r
        } else {
            t
        },
        Term::Const(_) => t,
        Term::App(sh, ts) => Term::App(sh, tsubst_seq(ts, v, r)),
    }
}

pub open spec fn tsubst_seq(ts: Seq<Term>, v: VarNum, r: Term) -> Seq<Term>
    decreases ts, 1nat,
{
    if ts.len() == 0 {
        Seq::empty()
    } else {
        seq![tsubst(ts[0], v, r)] + tsubst_seq(ts.drop_first(), v, r)
    }
}

proof fn lemma_tsubst_seq_index(ts: Seq<Term>, v: VarNum, r: Term)
    ensures
        tsubst_seq(ts, v, r).len() == ts.len(),
        forall|i: int| 0 <= i < ts.len() ==> #[trigger] tsubst_seq(ts, v, r)[i] == tsubst(ts[i], v, r),
    decreases ts.len(),
{
    if ts.len() > 0 {
        lemma_tsubst_seq_index(ts.drop_first(), v, r);
        assert forall|i: int| 0 <= i < ts.len() implies #[trigger] tsubst_seq(ts, v, r)[i] == tsubst(ts[i], v, r) by {
            if i > 0 {
                assert(ts.drop_first()[i - 1] == ts[i]);
            }
        }
    }
}

/// The term has no variables.
pub open spec fn ground(t: Term) -> bool {
    forall|v: VarNum| !#[trigger] term_has_var(t, v)
}

proof fn lemma_tsubst_absent(t: Term, v: VarNum, r: Term)
    requires
        !term_has_var(t, v),
    ensures
        tsubst(t, v, r) == t,
    decreases t, 0nat,
{
    if let Term::App(sh, ts) = t {
        lemma_tsubst_seq_absent(ts, v, r);
    }
}

proof fn lemma_tsubst_seq_absent(ts: Seq<Term>, v: VarNum, r: Term)
    requires
        !terms_have_var(ts, v),
    ensures
        tsubst_seq(ts, v, r) == ts,
    decreases ts, 1nat,
{
    if ts.len() > 0 {
        lemma_tsubst_absent(ts[0], v, r);
        lemma_tsubst_seq_absent(ts.drop_first(), v, r);
        assert(seq![ts[0]] + ts.drop_first() =~= ts);
    }
}

/// The term with every variable replaced by what `sigma` gives for it.
pub open spec fn inst(sigma: spec_fn(VarNum) -> Term, t: Term) -> Term
    decreases t, 0nat,
{
    match t {
        Term::Var(v) => sigma(v),
        Term::Const(_) => t,
        Term::App(sh, ts) => Term::App(sh, inst_seq(sigma, ts)),
    }
}

pub open spec fn inst_seq(sigma: spec_fn(VarNum) -> Term, ts: Seq<Term>) -> Seq<Term>
    decreases ts, 1nat,
{
    if ts.len() == 0 {
        Seq::empty()
    } else {
        seq![inst(sigma, ts[0])] + inst_seq(sigma, ts.drop_first())
    }
}

/// `sigma` makes the two terms equal: it is a unifier of them.
pub open spec fn unifies(sigma: spec_fn(VarNum) -> Term, a: Term, b: Term) -> bool {
    inst(sigma, a) == inst(sigma, b)
}

/// `sigma` makes the two lists of terms equal, place by place.
pub open spec fn unifies_all(sigma: spec_fn(VarNum) -> Term, a: Seq<Term>, b: Seq<Term>) -> bool {
    a.len() == b.len() && forall|i: int| 0 <= i < a.len() ==> #[trigger] inst(sigma, a[i]) == inst(sigma, b[i])
}

/// Under `sigma`, every node of `old` stands in `new` for what it stood for
/// in `old`: the substitutions added are implied by `sigma`.
pub open spec fn kept_under(sigma: spec_fn(VarNum) -> Term, old: UnifyContext, new: UnifyContext) -> bool {
    forall|a: TypeId| old.has(a) ==> #[trigger] inst(sigma, new.term(a)) == inst(sigma, old.term(a))
}

/// The size of a term: one for a variable or a constant, one more than its
/// arguments for an application.
pub open spec fn tsize(t: Term) -> nat
    decreases t, 0nat,
{
    match t {
        Term::Var(_) => 1,
        Term::Const(_) => 1,
        Term::App(_, ts) => 1 + tsize_seq(ts),
    }
}

pub open spec fn tsize_seq(ts: Seq<Term>) -> nat
    decreases ts, 1nat,
{
    if ts.len() == 0 {
        0
    } else {
        tsize(ts[0]) + tsize_seq(ts.drop_first())
    }
}

pub proof fn lemma_inst_seq_index(sigma: spec_fn(VarNum) -> Term, ts: Seq<Term>)
    ensures
        inst_seq(sigma, ts).len() == ts.len(),
        forall|i: int| 0 <= i < ts.len() ==> #[trigger] inst_seq(sigma, ts)[i] == inst(sigma, ts[i]),
    decreases ts.len(),
{
    if ts.len() > 0 {
        lemma_inst_seq_index(sigma, ts.drop_first());
        assert forall|i: int| 0 <= i < ts.len() implies #[trigger] inst_seq(sigma, ts)[i] == inst(sigma, ts[i]) by {
            if i > 0 {
                assert(ts.drop_first()[i - 1] == ts[i]);
            }
        }
    }
}

/// A term without variables is its own instance.
pub proof fn lemma_inst_ground(sigma: spec_fn(VarNum) -> Term, t: Term)
    requires
        ground(t),
    ensures
        inst(sigma, t) == t,
    decreases t, 0nat,
{
    match t {
        Term::Var(u) => {
            assert(term_has_var(t, u));
        },
        Term::Const(_) => {},
        Term::App(sh, ts) => {
            lemma_inst_seq_index(sigma, ts);
            assert forall|i: int| 0 <= i < ts.len() implies #[trigger] inst_seq(sigma, ts)[i] == ts[i] by {
                assert forall|v: VarNum| !#[trigger] term_has_var(ts[i], v) by {
                    if term_has_var(ts[i], v) {
                        lemma_terms_have_var(ts, v);
                        assert(term_has_var(t, v));
                    }
                }
                lemma_inst_ground(sigma, ts[i]);
            }
            assert(inst_seq(sigma, ts) =~= ts);
        },
    }
}

/// Two substitutions that agree on the variables of a term give it the same
/// instance.
pub proof fn lemma_inst_agree(s1: spec_fn(VarNum) -> Term, s2: spec_fn(VarNum) -> Term, t: Term)
    requires
        forall|v: VarNum| #[trigger] term_has_var(t, v) ==> s1(v) == s2(v),
    ensures
        inst(s1, t) == inst(s2, t),
    decreases t, 0nat,
{
    match t {
        Term::Var(u) => {
            assert(term_has_var(t, u));
        },
        Term::Const(_) => {},
        Term::App(sh, ts) => {
            assert forall|v: VarNum| #[trigger] terms_have_var(ts, v) implies s1(v) == s2(v) by {
                assert(term_has_var(t, v));
            }
            lemma_inst_agree_seq(s1, s2, ts);
        },
    }
}

pub proof fn lemma_inst_agree_seq(s1: spec_fn(VarNum) -> Term, s2: spec_fn(VarNum) -> Term, ts: Seq<Term>)
    requires
        forall|v: VarNum| #[trigger] terms_have_var(ts, v) ==> s1(v) == s2(v),
    ensures
        inst_seq(s1, ts) == inst_seq(s2, ts),
    decreases ts, 1nat,
{
    if ts.len() > 0 {
        assert forall|v: VarNum| #[trigger] term_has_var(ts[0], v) implies s1(v) == s2(v) by {
            assert(terms_have_var(ts, v));
        }
        assert forall|v: VarNum| #[trigger] terms_have_var(ts.drop_first(), v) implies s1(v) == s2(v) by {
            assert(terms_have_var(ts, v));
        }
        lemma_inst_agree(s1, s2, ts[0]);
        lemma_inst_agree_seq(s1, s2, ts.drop_first());
    }
}

/// Replacing `v` by a term that `sigma` makes equal to it changes nothing
/// under `sigma`.
proof fn lemma_inst_tsubst(sigma: spec_fn(VarNum) -> Term, t: Term, v: VarNum, r: Term)
    requires
        sigma(v) == inst(sigma, r),
    ensures
        inst(sigma, tsubst(t, v, r)) == inst(sigma, t),
    decreases t, 0nat,
{
    if let Term::App(sh, ts) = t {
        lemma_inst_tsubst_seq(sigma, ts, v, r);
    }
}

proof fn lemma_inst_tsubst_seq(sigma: spec_fn(VarNum) -> Term, ts: Seq<Term>, v: VarNum, r: Term)
    requires
        sigma(v) == inst(sigma, r),
    ensures
        inst_seq(sigma, tsubst_seq(ts, v, r)) == inst_seq(sigma, ts),
    decreases ts, 1nat,
{
    if ts.len() > 0 {
        lemma_inst_tsubst(sigma, ts[0], v, r);
        lemma_inst_tsubst_seq(sigma, ts.drop_first(), v, r);
        let a = tsubst_seq(ts, v, r);
        assert(a[0] == tsubst(ts[0], v, r));
        assert(a.drop_first() =~= tsubst_seq(ts.drop_first(), v, r));
    }
}

/// A term that contains `v` is at least as large, under `sigma`, as what
/// `sigma` gives for `v`.
proof fn lemma_inst_size(sigma: spec_fn(VarNum) -> Term, t: Term, v: VarNum)
    requires
        term_has_var(t, v),
    ensures
        tsize(inst(sigma, t)) >= tsize(sigma(v)),
        t != Term::Var(v) ==> tsize(inst(sigma, t)) > tsize(sigma(v)),
    decreases t, 0nat,
{
    if let Term::App(sh, ts) = t {
        lemma_inst_size_seq(sigma, ts, v);
    }
}

proof fn lemma_inst_size_seq(sigma: spec_fn(VarNum) -> Term, ts: Seq<Term>, v: VarNum)
    requires
        terms_have_var(ts, v),
    ensures
        tsize_seq(inst_seq(sigma, ts)) >= tsize(sigma(v)),
    decreases ts, 1nat,
{
    let a = inst_seq(sigma, ts);
    assert(a[0] == inst(sigma, ts[0]));
    assert(a.drop_first() =~= inst_seq(sigma, ts.drop_first()));
    if term_has_var(ts[0], v) {
        lemma_inst_size(sigma, ts[0], v);
    } else {
        lemma_inst_size_seq(sigma, ts.drop_first(), v);
    }
}

/// No substitution makes a variable equal to a different term that
/// contains it.
pub proof fn lemma_cyclic_no_unifier(sigma: spec_fn(VarNum) -> Term, a: Term, b: Term)
    requires
        cyclic(a, b),
    ensures
        !unifies(sigma, a, b),
        !unifies(sigma, b, a),
{
    let v = a->Var_0;
    lemma_inst_size(sigma, b, v);
}

/// Keeping what `sigma` implies is transitive across refinements.
proof fn lemma_kept_trans(sigma: spec_fn(VarNum) -> Term, a: UnifyContext, b: UnifyContext, c: UnifyContext)
    requires
        kept_under(sigma, a, b),
        kept_under(sigma, b, c),
        b.tys() == a.tys(),
    ensures
        kept_under(sigma, a, c),
{
    assert forall|t: TypeId| a.has(t) implies #[trigger] inst(sigma, c.term(t)) == inst(sigma, a.term(t)) by {
        assert(b.has(t));
        assert(inst(sigma, c.term(t)) == inst(sigma, b.term(t)));
        assert(inst(sigma, b.term(t)) == inst(sigma, a.term(t)));
    }
}

/// A pair of a solved list stays solved where what `sigma` implies is kept.
proof fn lemma_pair_in(
    sigma: spec_fn(VarNum) -> Term,
    s0: UnifyContext,
    before: UnifyContext,
    cx: Seq<TypeId>,
    cy: Seq<TypeId>,
    i: int,
)
    requires
        unifies_all(sigma, s0.terms(cx), s0.terms(cy)),
        kept_under(sigma, s0, before),
        0 <= i < cx.len(),
        cx.len() == cy.len(),
        s0.has(cx[i]),
        s0.has(cy[i]),
    ensures
        unifies(sigma, before.term(cx[i]), before.term(cy[i])),
{
    assert(s0.terms(cx)[i] == s0.term(cx[i]));
    assert(s0.terms(cy)[i] == s0.term(cy[i]));
    assert(inst(sigma, s0.terms(cx)[i]) == inst(sigma, s0.terms(cy)[i]));
    assert(inst(sigma, before.term(cx[i])) == inst(sigma, s0.term(cx[i])));
    assert(inst(sigma, before.term(cy[i])) == inst(sigma, s0.term(cy[i])));
}

/// Two applications that `sigma` makes equal have the same shape, and
/// `sigma` makes their arguments equal place by place.
proof fn lemma_app_unifier(sigma: spec_fn(VarNum) -> Term, sh1: Shape, ts1: Seq<Term>, sh2: Shape, ts2: Seq<Term>)
    requires
        unifies(sigma, Term::App(sh1, ts1), Term::App(sh2, ts2)),
    ensures
        sh1 == sh2,
        ts1.len() == ts2.len(),
        unifies_all(sigma, ts1, ts2),
{
    lemma_inst_seq_index(sigma, ts1);
    lemma_inst_seq_index(sigma, ts2);
    assert forall|i: int| 0 <= i < ts1.len() implies #[trigger] inst(sigma, ts1[i]) == inst(sigma, ts2[i]) by {
        assert(inst_seq(sigma, ts1)[i] == inst_seq(sigma, ts2)[i]);
    }
}

proof fn lemma_tsubst_ground(t: Term, v: VarNum, r: Term)
    requires
        ground(t),
    ensures
        tsubst(t, v, r) == t,
{
    assert(!term_has_var(t, v));
    lemma_tsubst_absent(t, v, r);
}

/// One less variable without a substitution.
proof fn lemma_unbound_count_bind(s: Seq<Option<TypeId>>, v: int, x: TypeId)
    requires
        0 <= v < s.len(),
        s[v] is None,
    ensures
        unbound_count(s.update(v, Some(x))) + 1 == unbound_count(s),
    decreases s.len(),
{
    if v == s.len() - 1 {
        assert(s.update(v, Some(x)).drop_last() =~= s.drop_last());
    } else {
        assert(s.update(v, Some(x)).drop_last() =~= s.drop_last().update(v, Some(x)));
        lemma_unbound_count_bind(s.drop_last(), v, x);
    }
}

impl UnifyContext {
    /// `self` is `old` after substitutions were added: the table and the
    /// variables are the same, old substitutions are kept, types that stood
    /// for the same term still do, and either a variable lost its freedom or
    /// nothing changed.
    pub closed spec fn refines(&self, old: UnifyContext) -> bool {
        &&& self.tys() == old.tys()
        &&& self.subst().len() == old.subst().len()
        &&& self.vars() == old.vars()
        &&& self.updates() == old.updates()
        &&& forall|v: int| 0 <= v < old.subst().len() && (#[trigger] old.subst()[v]) is Some ==> self.subst()[v] == old.subst()[v]
        &&& forall|a: TypeId, b: TypeId|
            #![trigger self.term(a), self.term(b)]
            old.has(a) && old.has(b) && old.term(a) == old.term(b) ==> self.term(a) == self.term(b)
        &&& forall|a: TypeId| old.has(a) && ground(old.term(a)) ==> #[trigger] self.term(a) == old.term(a)
        &&& unbound_count(self.subst()) < unbound_count(old.subst()) || (self.subst() == old.subst() && self.rank@
            == old.rank@)
    }

    proof fn lemma_refines_refl(&self)
        ensures
            self.refines(*self),
    {
    }

    proof fn lemma_refines_trans(a: UnifyContext, b: UnifyContext, c: UnifyContext)
        requires
            b.refines(a),
            c.refines(b),
        ensures
            c.refines(a),
    {
        assert forall|x: TypeId, y: TypeId| a.has(x) && a.has(y) && a.term(x) == a.term(y) implies #[trigger] c.term(x)
            == #[trigger] c.term(y) by {
            assert(b.term(x) == b.term(y));
        }
        assert forall|v: int| 0 <= v < a.subst().len() && (#[trigger] a.subst()[v]) is Some implies c.subst()[v]
            == a.subst()[v] by {
            assert(b.subst()[v] == a.subst()[v]);
        }
        assert forall|x: TypeId| a.has(x) && ground(a.term(x)) implies #[trigger] c.term(x) == a.term(x) by {
            assert(b.term(x) == a.term(x));
        }
    }

    /// What every type stands for after variable `vn` (free in `old`) was given
    /// the substitution `x`: its old term with `vn` replaced.
    proof fn lemma_bind(old: UnifyContext, new: UnifyContext, vn: VarNum, x: TypeId, k: TypeId)
        requires
            old.wf(),
            new.wf(),
            new.tys() == old.tys(),
            (vn.0 as int) < old.subst().len(),
            old.subst()[vn.0 as int] is None,
            new.subst() == old.subst().update(vn.0 as int, Some(x)),
            old.has(k),
        ensures
            new.term(k) == tsubst(old.term(k), vn, new.term(x)),
        decreases old.ranks()[k.kind as int],
    {
        old.lemma_term_unfold(k);
        new.lemma_term_unfold(k);
        assert(node_ok(old.tys(), old.subst(), old.rank@, k.kind as int));
        match old.tys()[k.kind as int] {
            TypeKindView::Var(u) => {
                if u == vn {
                } else {
                    assert(new.subst()[u.0 as int] == old.subst()[u.0 as int]);
                    if let Some(t) = old.subst()[u.0 as int] {
                        Self::lemma_bind(old, new, vn, x, t);
                    }
                }
            },
            TypeKindView::Const(_) => {},
            TypeKindView::App(sh, cs) => {
                lemma_tsubst_seq_index(old.terms(cs), vn, new.term(x));
                assert forall|i: int| 0 <= i < cs.len() implies #[trigger] new.terms(cs)[i] == tsubst_seq(
                    old.terms(cs),
                    vn,
                    new.term(x),
                )[i] by {
                    Self::lemma_bind(old, new, vn, x, cs[i]);
                }
                assert(new.terms(cs) =~= tsubst_seq(old.terms(cs), vn, new.term(x)));
            },
        }
    }

    /// The type that variable type `ty` stands for, if it has one.
    fn subst_of(&self, ty: TypeId) -> (r: Option<TypeId>)
        requires
            self.wf(),
            self.has(ty),
            self.tys()[ty.kind as int] is Var,
        ensures
            r == self.subst()[self.tys()[ty.kind as int]->Var_0.0 as int],
            r matches Some(t) ==> self.has(t) && self.ranks()[t.kind as int] < self.ranks()[ty.kind as int],
    {
        proof {
            assert(node_ok(self.tys(), self.subst(), self.rank@, ty.kind as int));
        }
        match &self.types[ty.kind] {
            TypeKind::Var(v) => self.substitution_map[v.0 as usize],
            _ => None,
        }
    }

    fn is_var(&self, ty: TypeId) -> (r: bool)
        requires
            self.has(ty),
        ensures
            r == (self.tys()[ty.kind as int] is Var),
    {
        matches!(self.types[ty.kind], TypeKind::Var(_))
    }

    /// The arguments of node `ty` (none for variables and constants).
    fn args(&self, ty: TypeId) -> (r: Vec<TypeId>)
        requires
            self.has(ty),
        ensures
            r@ == args_of(self.tys()[ty.kind as int]),
    {
        match &self.types[ty.kind] {
            TypeKind::App(AppType::Tuple(t)) => t.elements.clone(),
            TypeKind::App(AppType::Struct(x)) => {
                let mut out: Vec<TypeId> = Vec::new();
                let mut i: usize = 0;
                while i < x.fields.len()
                    invariant
                        i <= x.fields.len(),
                        out@ == field_types(x.fields@).take(i as int),
                    decreases x.fields.len() - i,
                {
                    out.push(x.fields[i].1);
                    i += 1;
                    proof {
                        assert(out@ =~= field_types(x.fields@).take(i as int));
                    }
                }
                proof {
                    assert(field_types(x.fields@).take(x.fields.len() as int) =~= field_types(x.fields@));
                }
                out
            },
            TypeKind::App(AppType::Array(x)) => vec![x.base, x.len],
            TypeKind::App(AppType::Bits(x)) => vec![x.sign_flag, x.len],
            TypeKind::App(AppType::Signal(x)) => vec![x.data, x.clock],
            _ => Vec::new(),
        }
    }

    /// Whether the free variable type `v` occurs in what `term` stands for.
    fn occurs(&self, v: TypeId, term: TypeId) -> (r: bool)
        requires
            self.wf(),
            self.has(v),
            self.has(term),
            self.tys()[v.kind as int] is Var,
            self.subst()[self.tys()[v.kind as int]->Var_0.0 as int] is None,
        ensures
            r == term_has_var(self.term(term), self.tys()[v.kind as int]->Var_0),
        decreases self.ranks()[term.kind as int],
    {
        proof {
            self.lemma_term_unfold(term);
            self.lemma_term_unfold(v);
        }
        proof {
            assert(node_ok(self.tys(), self.subst(), self.rank@, term.kind as int));
        }
        if self.is_var(term) {
            if tk_eq(&self.types[term.kind], &self.types[v.kind]) {
                proof {
                    if term.kind < v.kind {
                        assert(self.types@[term.kind as int]@ != self.types@[v.kind as int]@);
                    } else if term.kind > v.kind {
                        assert(self.types@[v.kind as int]@ != self.types@[term.kind as int]@);
                    }
                }
                return true;
            }
            if let Some(t) = self.subst_of(term) {
                return self.occurs(v, t);
            }
        }
        let cs = self.args(term);
        let mut i: usize = 0;
        while i < cs.len()
            invariant
                i <= cs.len(),
                self.wf(),
                self.has(term),
                self.has(v),
                self.tys()[v.kind as int] is Var,
                self.subst()[self.tys()[v.kind as int]->Var_0.0 as int] is None,
                cs@ == args_of(self.tys()[term.kind as int]),
                below(self.tys(), self.ranks(), cs@, self.ranks()[term.kind as int]),
                forall|j: int| 0 <= j < i ==> !term_has_var(#[trigger] self.term(cs@[j]), self.tys()[v.kind as int]->Var_0),
            decreases cs.len() - i,
        {
            if self.occurs(v, cs[i]) {
                proof {
                    self.lemma_term_unfold(term);
                    if let TypeKindView::App(sh, ccs) = self.tys()[term.kind as int] {
                        lemma_terms_have_var(self.terms(ccs), self.tys()[v.kind as int]->Var_0);
                        assert(self.terms(ccs)[i as int] == self.term(cs@[i as int]));
                    }
                }
                return true;
            }
            i += 1;
        }
        proof {
            self.lemma_term_unfold(term);
            match self.tys()[term.kind as int] {
                TypeKindView::App(sh, ccs) => {
                    lemma_terms_have_var(self.terms(ccs), self.tys()[v.kind as int]->Var_0);
                    assert forall|j: int| 0 <= j < ccs.len() implies !#[trigger] term_has_var(
                        self.terms(ccs)[j],
                        self.tys()[v.kind as int]->Var_0,
                    ) by {
                        assert(self.terms(ccs)[j] == self.term(cs@[j]));
                    }
                },
                TypeKindView::Var(u) => {
                    assert(u != self.tys()[v.kind as int]->Var_0);
                },
                _ => {},
            }
        }
        false
    }
}

/// `a` is a variable that does not occur in `b`, so it can stand for `b`.
pub open spec fn bindable(a: Term, b: Term) -> bool {
    a matches Term::Var(v) && !term_has_var(b, v)
}

/// The outermost parts of two terms differ: two different constants, a
/// constant and an application, or applications of different shapes or
/// numbers of arguments.
pub open spec fn head_clash(a: Term, b: Term) -> bool {
    match a {
        Term::Var(_) => false,
        Term::Const(c1) => match b {
            Term::Var(_) => false,
            Term::Const(c2) => c1 != c2,
            Term::App(_, _) => true,
        },
        Term::App(s1, ts1) => match b {
            Term::Var(_) => false,
            Term::Const(_) => true,
            Term::App(s2, ts2) => s1 != s2 || ts1.len() != ts2.len(),
        },
    }
}

/// `a` is a variable that occurs inside the different term `b`: no
/// substitution can make them equal.
pub open spec fn cyclic(a: Term, b: Term) -> bool {
    a matches Term::Var(v) && term_has_var(b, v) && b != a
}

/// Two terms that unification always joins: equal terms, or a variable and
/// a term that does not contain it.
pub open spec fn joinable(a: Term, b: Term) -> bool {
    a == b || bindable(a, b) || bindable(b, a)
}

impl UnifyContext {
    /// Gives the free variable type `v` the substitution `x`, which must not
    /// contain it.
    fn add_subst(&mut self, v: TypeId, x: TypeId)
        requires
            old(self).wf(),
            old(self).has(v),
            old(self).has(x),
            old(self).tys()[v.kind as int] is Var,
            old(self).subst()[old(self).tys()[v.kind as int]->Var_0.0 as int] is None,
            !term_has_var(old(self).term(x), old(self).tys()[v.kind as int]->Var_0),
        ensures
            final(self).wf(),
            final(self).refines(*old(self)),
            final(self).term(v) == final(self).term(x),
            unbound_count(final(self).subst()) < unbound_count(old(self).subst()),
            forall|k: TypeId|
                old(self).has(k) ==> #[trigger] final(self).term(k) == tsubst(
                    old(self).term(k),
                    old(self).tys()[v.kind as int]->Var_0,
                    old(self).term(x),
                ),
    {
        let ghost s0 = *self;
        let ghost vn = s0.tys()[v.kind as int]->Var_0;
        let ghost big = s0.rank@[x.kind as int] + 1;
        let ghost newrank = Seq::new(
            s0.rank@.len(),
            |k: int| s0.rank@[k] + if term_has_var(resolve(s0.tys(), s0.subst(), s0.rank@, k), vn) {
                big
            } else {
                0nat
            },
        );
        proof {
            assert(node_ok(s0.tys(), s0.subst(), s0.rank@, v.kind as int));
        }
        let ntypes = self.types.len();
        match &self.types[v.kind] {
            TypeKind::Var(vv) => {
                self.substitution_map.set(vv.0 as usize, Some(x));
            },
            _ => {},
        }
        self.rank = Ghost(newrank);
        proof {
            s0.lemma_term_unfold(v);
            s0.lemma_term_unfold(x);
            assert(self.tys() == s0.tys());
            assert(self.subst() == s0.subst().update(vn.0 as int, Some(x)));
            assert forall|k: int| 0 <= k < self.types@.len() implies #[trigger] node_ok(
                self.tys(),
                self.subst(),
                self.rank@,
                k,
            ) by {
                assert(node_ok(s0.tys(), s0.subst(), s0.rank@, k));
                assert(k < ntypes);
                let kt = TypeId { kind: k as usize, id: v.id };
                assert(kt.kind as int == k);
                s0.lemma_term_unfold(kt);
                match s0.tys()[k] {
                    TypeKindView::Var(u) => {
                        if u == vn {
                            assert(term_has_var(s0.term(kt), vn));
                        } else if let Some(t) = s0.subst()[u.0 as int] {
                            assert(s0.term(kt) == s0.term(t));
                            assert(self.subst()[u.0 as int] == Some(t));
                        }
                    },
                    TypeKindView::Const(_) => {},
                    TypeKindView::App(sh, cs) => {
                        assert forall|i: int| 0 <= i < cs.len() implies (#[trigger] cs[i]).kind < self.tys().len()
                            && self.rank@[cs[i].kind as int] < self.rank@[k] by {
                            if term_has_var(s0.term(cs[i]), vn) {
                                lemma_terms_have_var(s0.terms(cs), vn);
                                assert(s0.terms(cs)[i] == s0.term(cs[i]));
                            }
                        }
                    },
                }
            }
            assert(self.wf());
            let new = *self;
            lemma_unbound_count_bind(s0.subst(), vn.0 as int, x);
            assert forall|a: TypeId, b: TypeId| s0.has(a) && s0.has(b) && s0.term(a) == s0.term(b) implies #[trigger] new.term(a)
                == #[trigger] new.term(b) by {
                Self::lemma_bind(s0, new, vn, x, a);
                Self::lemma_bind(s0, new, vn, x, b);
            }
            assert forall|w: int| 0 <= w < s0.subst().len() && (#[trigger] s0.subst()[w]) is Some implies new.subst()[w]
                == s0.subst()[w] by {
                if w == vn.0 as int {
                }
            }
            Self::lemma_bind(s0, new, vn, x, v);
            assert(s0.term(v) == Term::Var(vn));
            assert forall|a: TypeId| s0.has(a) && ground(s0.term(a)) implies #[trigger] new.term(a) == s0.term(a) by {
                Self::lemma_bind(s0, new, vn, x, a);
                lemma_tsubst_ground(s0.term(a), vn, new.term(x));
            }
            Self::lemma_bind(s0, new, vn, x, x);
            lemma_tsubst_absent(s0.term(x), vn, new.term(x));
            assert forall|k: TypeId| s0.has(k) implies #[trigger] new.term(k) == tsubst(s0.term(k), vn, s0.term(x)) by {
                Self::lemma_bind(s0, new, vn, x, k);
            }
        }
    }

    /// Makes the types `x` and `y` stand for the same term, adding
    /// substitutions for variables. On success they do; on failure the
    /// substitutions added so far stay.
    pub fn unify(&mut self, x: TypeId, y: TypeId) -> (r: Result<(), UnifyError>)
        requires
            old(self).wf(),
            old(self).has(x),
            old(self).has(y),
        ensures
            final(self).wf(),
            final(self).refines(*old(self)),
            final(self).vars() == old(self).vars(),
            r is Ok ==> final(self).term(x) == final(self).term(y),
            forall|sigma: spec_fn(VarNum) -> Term|
                #[trigger] unifies(sigma, old(self).term(x), old(self).term(y)) ==> r is Ok && kept_under(sigma, *old(self), *final(self)),
            joinable(old(self).term(x), old(self).term(y)) ==> r is Ok,
            head_clash(old(self).term(x), old(self).term(y)) ==> r is Err,
            cyclic(old(self).term(x), old(self).term(y)) || cyclic(old(self).term(y), old(self).term(x)) ==> (r is Err
                && *final(self) == *old(self)),
        decreases unbound_count(old(self).subst()), old(self).ranks()[x.kind as int] + old(self).ranks()[y.kind as int], 2nat,
    {
        proof {
            self.lemma_refines_refl();
            self.lemma_term_unfold(x);
            self.lemma_term_unfold(y);
        }
        let ghost s0 = *self;
        if tk_eq(&self.types[x.kind], &self.types[y.kind]) {
            proof {
                if x.kind < y.kind {
                    assert(self.types@[x.kind as int]@ != self.types@[y.kind as int]@);
                } else if x.kind > y.kind {
                    assert(self.types@[y.kind as int]@ != self.types@[x.kind as int]@);
                }
            }
            return Ok(());
        }
        if self.is_var(x) {
            return self.unify_variable(x, y);
        }
        if self.is_var(y) {
            let r = self.unify_variable(y, x);
            proof {
                assert forall|sigma: spec_fn(VarNum) -> Term| #[trigger] unifies(sigma, s0.term(x), s0.term(y)) implies r is Ok
                    && kept_under(sigma, s0, *self) by {
                    assert(unifies(sigma, s0.term(y), s0.term(x)));
                }
            }
            return r;
        }
        let both_app = matches!(self.types[x.kind], TypeKind::App(_)) && matches!(self.types[y.kind], TypeKind::App(_));
        if both_app {
            return self.unify_app(x, y);
        }
        match (&self.types[x.kind], &self.types[y.kind]) {
            (TypeKind::Const(a), TypeKind::Const(b)) => {
                if *a == *b {
                    proof {
                        self.lemma_term_unfold(x);
                        self.lemma_term_unfold(y);
                    }
                    Ok(())
                } else {
                    Err(UnifyError::CannotUnify)
                }
            },
            _ => Err(UnifyError::CannotUnify),
        }
    }

    /// Unifies the variable type `v` with `x`.
    fn unify_variable(&mut self, v: TypeId, x: TypeId) -> (r: Result<(), UnifyError>)
        requires
            old(self).wf(),
            old(self).has(v),
            old(self).has(x),
            old(self).tys()[v.kind as int] is Var,
            old(self).tys()[v.kind as int] != old(self).tys()[x.kind as int],
        ensures
            final(self).wf(),
            final(self).refines(*old(self)),
            r is Ok ==> final(self).term(v) == final(self).term(x),
            forall|sigma: spec_fn(VarNum) -> Term|
                #[trigger] unifies(sigma, old(self).term(v), old(self).term(x)) ==> r is Ok && kept_under(sigma, *old(self), *final(self)),
            joinable(old(self).term(v), old(self).term(x)) ==> r is Ok,
            head_clash(old(self).term(v), old(self).term(x)) ==> r is Err,
            cyclic(old(self).term(v), old(self).term(x)) || cyclic(old(self).term(x), old(self).term(v)) ==> (r is Err
                && *final(self) == *old(self)),
        decreases unbound_count(old(self).subst()), old(self).ranks()[v.kind as int] + old(self).ranks()[x.kind as int], 1nat,
    {
        proof {
            self.lemma_refines_refl();
        }
        let ghost s0 = *self;
        proof {
            s0.lemma_term_unfold(v);
            s0.lemma_term_unfold(x);
        }
        if let Some(t) = self.subst_of(v) {
            let r = self.unify(t, x);
            proof {
                self.lemma_term_unfold(v);
                assert forall|sigma: spec_fn(VarNum) -> Term| #[trigger] unifies(sigma, s0.term(v), s0.term(x)) implies r is Ok
                    && kept_under(sigma, s0, *self) by {
                    assert(unifies(sigma, s0.term(t), s0.term(x)));
                }
            }
            return r;
        } else if self.is_var(x) {
            if let Some(t) = self.subst_of(x) {
                let r = self.unify(v, t);
                proof {
                    self.lemma_term_unfold(x);
                    assert forall|sigma: spec_fn(VarNum) -> Term| #[trigger] unifies(sigma, s0.term(v), s0.term(x)) implies r is Ok
                        && kept_under(sigma, s0, *self) by {
                        assert(unifies(sigma, s0.term(v), s0.term(t)));
                    }
                }
                return r;
            }
        }
        if self.occurs(v, x) {
            proof {
                assert(cyclic(s0.term(v), s0.term(x)));
                assert forall|sigma: spec_fn(VarNum) -> Term| #[trigger] unifies(sigma, s0.term(v), s0.term(x)) implies false by {
                    lemma_cyclic_no_unifier(sigma, s0.term(v), s0.term(x));
                }
            }
            return Err(UnifyError::RecursiveUnification);
        }
        self.add_subst(v, x);
        proof {
            let w = s0.tys()[v.kind as int]->Var_0;
            assert(s0.term(v) == Term::Var(w));
            assert forall|sigma: spec_fn(VarNum) -> Term| #[trigger] unifies(sigma, s0.term(v), s0.term(x)) implies kept_under(
                sigma,
                s0,
                *self,
            ) by {
                assert forall|k: TypeId| s0.has(k) implies #[trigger] inst(sigma, self.term(k)) == inst(sigma, s0.term(k)) by {
                    lemma_inst_tsubst(sigma, s0.term(k), w, s0.term(x));
                }
            }
        }
        Ok(())
    }

    /// Unifies two application types argument by argument.
    fn unify_app(&mut self, x: TypeId, y: TypeId) -> (r: Result<(), UnifyError>)
        requires
            old(self).wf(),
            old(self).has(x),
            old(self).has(y),
            old(self).tys()[x.kind as int] is App,
            old(self).tys()[y.kind as int] is App,
        ensures
            final(self).wf(),
            final(self).refines(*old(self)),
            r is Ok ==> final(self).term(x) == final(self).term(y),
            forall|sigma: spec_fn(VarNum) -> Term|
                #[trigger] unifies(sigma, old(self).term(x), old(self).term(y)) ==> r is Ok && kept_under(sigma, *old(self), *final(self)),
            old(self).term(x) == old(self).term(y) ==> r is Ok,
            head_clash(old(self).term(x), old(self).term(y)) ==> r is Err,
        decreases unbound_count(old(self).subst()), old(self).ranks()[x.kind as int] + old(self).ranks()[y.kind as int], 1nat,
    {
        proof {
            self.lemma_refines_refl();
        }
        let ghost s0 = *self;
        let a = copy_type_kind(&self.types[x.kind]);
        let b = copy_type_kind(&self.types[y.kind]);
        let same_shape = match (&a, &b) {
            (TypeKind::App(AppType::Tuple(t1)), TypeKind::App(AppType::Tuple(t2))) => t1.elements.len() == t2.elements.len(),
            (TypeKind::App(AppType::Array(_)), TypeKind::App(AppType::Array(_))) => true,
            (TypeKind::App(AppType::Bits(_)), TypeKind::App(AppType::Bits(_))) => true,
            (TypeKind::App(AppType::Signal(_)), TypeKind::App(AppType::Signal(_))) => true,
            _ => false,
        };
        if same_shape {
            let cx = self.args(x);
            let cy = self.args(y);
            proof {
                s0.lemma_term_unfold(x);
                s0.lemma_term_unfold(y);
                assert(s0.terms(cx@).len() == cx@.len());
                assert(s0.terms(cy@).len() == cy@.len());
                if s0.term(x) == s0.term(y) {
                    assert forall|i: int| 0 <= i < cx@.len() implies s0.term(#[trigger] cx@[i]) == s0.term(cy@[i]) by {
                        assert(s0.terms(cx@)[i] == s0.terms(cy@)[i]);
                    }
                }
            }
            let r = self.unify_seq(x, y, &cx, &cy);
            proof {
                assert forall|sigma: spec_fn(VarNum) -> Term| #[trigger] unifies(sigma, s0.term(x), s0.term(y)) implies r is Ok
                    && kept_under(sigma, s0, *self) by {
                    lemma_app_unifier(sigma, s0.term(x)->App_0, s0.term(x)->App_1, s0.term(y)->App_0, s0.term(y)->App_1);
                    assert(unifies_all(sigma, s0.terms(cx@), s0.terms(cy@)));
                }
                if r is Ok {
                    self.lemma_term_unfold(x);
                    self.lemma_term_unfold(y);
                    assert(self.terms(cx@) =~= self.terms(cy@));
                }
            }
            return r;
        }
        proof {
            s0.lemma_term_unfold(x);
            s0.lemma_term_unfold(y);
        }
        match (a, b) {
            (TypeKind::App(AppType::Struct(s1)), TypeKind::App(AppType::Struct(s2))) => {
                if s1.name != s2.name {
                    proof {
                        assert forall|sigma: spec_fn(VarNum) -> Term| #[trigger] unifies(sigma, s0.term(x), s0.term(y)) implies false by {
                            lemma_app_unifier(sigma, s0.term(x)->App_0, s0.term(x)->App_1, s0.term(y)->App_0, s0.term(y)->App_1);
                        }
                    }
                    return Err(UnifyError::CannotUnify);
                }
                if s1.fields.len() != s2.fields.len() {
                    proof {
                        assert(s0.terms(field_types(s1.fields@)).len() == s1.fields@.len());
                        assert(s0.terms(field_types(s2.fields@)).len() == s2.fields@.len());
                        assert forall|sigma: spec_fn(VarNum) -> Term| #[trigger] unifies(sigma, s0.term(x), s0.term(y)) implies false by {
                            lemma_app_unifier(sigma, s0.term(x)->App_0, s0.term(x)->App_1, s0.term(y)->App_0, s0.term(y)->App_1);
                        }
                    }
                    return Err(UnifyError::CannotUnify);
                }
                proof {
                    if s0.term(x) == s0.term(y) {
                        assert forall|i: int| 0 <= i < s1.fields@.len() implies (#[trigger] s1.fields@[i]).0@ == s2.fields@[i].0@
                            && s0.term(s1.fields@[i].1) == s0.term(s2.fields@[i].1) by {
                            assert(field_names(s1.fields@)[i] == field_names(s2.fields@)[i]);
                            assert(s0.terms(field_types(s1.fields@))[i] == s0.terms(field_types(s2.fields@))[i]);
                        }
                    }
                }
                let r = self.unify_fields(x, y, &s1.fields, &s2.fields);
                proof {
                    assert forall|sigma: spec_fn(VarNum) -> Term| #[trigger] unifies(sigma, s0.term(x), s0.term(y)) implies r is Ok
                        && kept_under(sigma, s0, *self) by {
                        lemma_app_unifier(sigma, s0.term(x)->App_0, s0.term(x)->App_1, s0.term(y)->App_0, s0.term(y)->App_1);
                        assert(unifies_all(sigma, s0.terms(field_types(s1.fields@)), s0.terms(field_types(s2.fields@))));
                        assert forall|i: int| 0 <= i < s1.fields@.len() implies (#[trigger] s1.fields@[i]).0@ == s2.fields@[i].0@ by {
                            assert(field_names(s1.fields@)[i] == field_names(s2.fields@)[i]);
                        }
                    }
                    if r is Ok {
                        self.lemma_term_unfold(x);
                        self.lemma_term_unfold(y);
                        assert(field_names(s1.fields@) =~= field_names(s2.fields@));
                        assert(self.terms(field_types(s1.fields@)) =~= self.terms(field_types(s2.fields@)));
                    }
                }
                r
            },
            _ => {
                proof {
                    let cx = args_of(s0.tys()[x.kind as int]);
                    let cy = args_of(s0.tys()[y.kind as int]);
                    assert(s0.terms(cx).len() == cx.len());
                    assert(s0.terms(cy).len() == cy.len());
                    assert forall|sigma: spec_fn(VarNum) -> Term| #[trigger] unifies(sigma, s0.term(x), s0.term(y)) implies false by {
                        lemma_app_unifier(sigma, s0.term(x)->App_0, s0.term(x)->App_1, s0.term(y)->App_0, s0.term(y)->App_1);
                    }
                }
                Err(UnifyError::CannotUnify)
            },
        }
    }

    /// Unifies the arguments of `x` and `y` pairwise, in order.
    fn unify_seq(&mut self, x: TypeId, y: TypeId, cx: &Vec<TypeId>, cy: &Vec<TypeId>) -> (r: Result<(), UnifyError>)
        requires
            old(self).wf(),
            old(self).has(x),
            old(self).has(y),
            cx@ == args_of(old(self).tys()[x.kind as int]),
            cy@ == args_of(old(self).tys()[y.kind as int]),
            cx@.len() == cy@.len(),
        ensures
            final(self).wf(),
            final(self).refines(*old(self)),
            r is Ok ==> forall|i: int| 0 <= i < cx@.len() ==> final(self).term(#[trigger] cx@[i]) == final(self).term(cy@[i]),
            (forall|i: int| 0 <= i < cx@.len() ==> old(self).term(#[trigger] cx@[i]) == old(self).term(cy@[i])) ==> r is Ok,
            forall|sigma: spec_fn(VarNum) -> Term|
                #[trigger] unifies_all(sigma, old(self).terms(cx@), old(self).terms(cy@)) ==> r is Ok && kept_under(sigma, *old(self), *final(self)),
        decreases unbound_count(old(self).subst()), old(self).ranks()[x.kind as int] + old(self).ranks()[y.kind as int], 0nat,
    {
        let ghost s0 = *self;
        proof {
            self.lemma_refines_refl();
            assert(node_ok(s0.tys(), s0.subst(), s0.rank@, x.kind as int));
            assert(node_ok(s0.tys(), s0.subst(), s0.rank@, y.kind as int));
        }
        let mut i: usize = 0;
        while i < cx.len()
            invariant
                i <= cx.len(),
                cx@.len() == cy@.len(),
                s0 == *old(self),
                s0.wf(),
                self.wf(),
                self.refines(s0),
                below(s0.tys(), s0.ranks(), cx@, s0.ranks()[x.kind as int]),
                below(s0.tys(), s0.ranks(), cy@, s0.ranks()[y.kind as int]),
                forall|j: int| 0 <= j < i ==> self.term(#[trigger] cx@[j]) == self.term(cy@[j]),
                forall|sigma: spec_fn(VarNum) -> Term|
                    #[trigger] unifies_all(sigma, s0.terms(cx@), s0.terms(cy@)) ==> kept_under(sigma, s0, *self),
            decreases cx.len() - i,
        {
            let ghost before = *self;
            proof {
                assert(cx@[i as int].kind < s0.tys().len());
                assert(cy@[i as int].kind < s0.tys().len());
            }
            let res = self.unify(cx[i], cy[i]);
            proof {
                Self::lemma_refines_trans(s0, before, *self);
                assert forall|sigma: spec_fn(VarNum) -> Term| #[trigger] unifies_all(sigma, s0.terms(cx@), s0.terms(cy@)) implies res is Ok
                    && kept_under(sigma, s0, *self) by {
                    lemma_pair_in(sigma, s0, before, cx@, cy@, i as int);
                    lemma_kept_trans(sigma, s0, before, *self);
                }
            }
            match res {
                Ok(()) => {},
                Err(e) => {
                    return Err(e);
                },
            }
            proof {
                assert forall|j: int| 0 <= j < i + 1 implies self.term(#[trigger] cx@[j]) == self.term(cy@[j]) by {
                    if j < i {
                        assert(before.term(cx@[j]) == before.term(cy@[j]));
                    }
                }
            }
            i += 1;
        }
        Ok(())
    }

    /// Unifies the fields of two structs pairwise, in order, each after
    /// checking that the names agree.
    fn unify_fields(
        &mut self,
        x: TypeId,
        y: TypeId,
        fx: &Vec<(String, TypeId)>,
        fy: &Vec<(String, TypeId)>,
    ) -> (r: Result<(), UnifyError>)
        requires
            old(self).wf(),
            old(self).has(x),
            old(self).has(y),
            field_types(fx@) == args_of(old(self).tys()[x.kind as int]),
            field_types(fy@) == args_of(old(self).tys()[y.kind as int]),
            fx@.len() == fy@.len(),
        ensures
            final(self).wf(),
            final(self).refines(*old(self)),
            r is Ok ==> forall|i: int| 0 <= i < fx@.len() ==> (#[trigger] fx@[i]).0@ == fy@[i].0@ && final(self).term(fx@[i].1)
                == final(self).term(fy@[i].1),
            (forall|i: int| 0 <= i < fx@.len() ==> (#[trigger] fx@[i]).0@ == fy@[i].0@ && old(self).term(fx@[i].1) == old(
                self,
            ).term(fy@[i].1)) ==> r is Ok,
            forall|sigma: spec_fn(VarNum) -> Term|
                #[trigger] unifies_all(sigma, old(self).terms(field_types(fx@)), old(self).terms(field_types(fy@))) && (forall|i: int|
                    0 <= i < fx@.len() ==> (#[trigger] fx@[i]).0@ == fy@[i].0@) ==> r is Ok && kept_under(sigma, *old(self), *final(self)),
        decreases unbound_count(old(self).subst()), old(self).ranks()[x.kind as int] + old(self).ranks()[y.kind as int], 0nat,
    {
        let ghost s0 = *self;
        proof {
            self.lemma_refines_refl();
            assert(node_ok(s0.tys(), s0.subst(), s0.rank@, x.kind as int));
            assert(node_ok(s0.tys(), s0.subst(), s0.rank@, y.kind as int));
        }
        let mut i: usize = 0;
        while i < fx.len()
            invariant
                i <= fx.len(),
                fx@.len() == fy@.len(),
                s0 == *old(self),
                s0.wf(),
                self.wf(),
                self.refines(s0),
                below(s0.tys(), s0.ranks(), field_types(fx@), s0.ranks()[x.kind as int]),
                below(s0.tys(), s0.ranks(), field_types(fy@), s0.ranks()[y.kind as int]),
                forall|j: int| 0 <= j < i ==> (#[trigger] fx@[j]).0@ == fy@[j].0@ && self.term(fx@[j].1) == self.term(fy@[j].1),
                forall|sigma: spec_fn(VarNum) -> Term|
                    #[trigger] unifies_all(sigma, s0.terms(field_types(fx@)), s0.terms(field_types(fy@))) ==> kept_under(sigma, s0, *self),
            decreases fx.len() - i,
        {
            if fx[i].0 != fy[i].0 {
                proof {
                    assert(fx@[i as int].0@ != fy@[i as int].0@);
                }
                return Err(UnifyError::CannotUnify);
            }
            assert(fx@[i as int].0@ == fy@[i as int].0@);
            let ghost before = *self;
            proof {
                assert(field_types(fx@)[i as int] == fx@[i as int].1);
                assert(field_types(fy@)[i as int] == fy@[i as int].1);
            }
            let res = self.unify(fx[i].1, fy[i].1);
            proof {
                Self::lemma_refines_trans(s0, before, *self);
                assert forall|sigma: spec_fn(VarNum) -> Term| #[trigger] unifies_all(
                    sigma,
                    s0.terms(field_types(fx@)),
                    s0.terms(field_types(fy@)),
                ) implies res is Ok && kept_under(sigma, s0, *self) by {
                    lemma_pair_in(sigma, s0, before, field_types(fx@), field_types(fy@), i as int);
                    lemma_kept_trans(sigma, s0, before, *self);
                }
            }
            match res {
                Ok(()) => {},
                Err(e) => {
                    return Err(e);
                },
            }
            proof {
                assert forall|j: int| 0 <= j < i + 1 implies (#[trigger] fx@[j]).0@ == fy@[j].0@ && self.term(fx@[j].1)
                    == self.term(fy@[j].1) by {
                    if j < i {
                        assert(field_types(fx@)[j] == fx@[j].1);
                        assert(field_types(fy@)[j] == fy@[j].1);
                        assert(before.term(fx@[j].1) == before.term(fy@[j].1));
                    }
                }
            }
            i += 1;
        }
        Ok(())
    }
}

/// The kind a term stands for, or the error met first when reading it
/// (arguments in order; for bit vectors the sign before the length).
pub open spec fn term_kind(t: Term) -> Result<KindView, UnifyError>
    decreases t, 0nat,
{
    match t {
        Term::Var(_) => Err(UnifyError::UnboundVariable),
        Term::Const(c) => match c {
            Const::Empty => Ok(KindView::Empty),
            _ => Err(UnifyError::ExpectedConstant),
        },
        Term::App(sh, ts) => match sh {
            Shape::Tuple => match terms_kind(ts) {
                Ok(ks) => Ok(KindView::Tuple(ks)),
                Err(e) => Err(e),
            },
            Shape::Struct(n, names) => match terms_kind(ts) {
                Ok(ks) => Ok(KindView::Struct(n, Seq::new(ks.len(), |i: int| FieldView { name: names[i], kind: ks[i] }))),
                Err(e) => Err(e),
            },
            Shape::Array => if ts.len() == 2 {
                match term_kind(ts[0]) {
                    Err(e) => Err(e),
                    Ok(b) => match ts[1] {
                        Term::Const(Const::Length(n)) => Ok(KindView::Array(Box::new(b), n as nat)),
                        _ => Err(UnifyError::ExpectedLength),
                    },
                }
            } else {
                Err(UnifyError::NotAnApplication)
            },
            Shape::Bits => if ts.len() == 2 {
                match ts[0] {
                    Term::Const(Const::Signed(f)) => match ts[1] {
                        Term::Const(Const::Length(n)) => Ok(
                            if f == SignFlag::Signed {
                                KindView::Signed(n as nat)
                            } else {
                                KindView::Bits(n as nat)
                            },
                        ),
                        _ => Err(UnifyError::ExpectedLength),
                    },
                    _ => Err(UnifyError::ExpectedSignFlag),
                }
            } else {
                Err(UnifyError::NotAnApplication)
            },
            Shape::Signal => if ts.len() == 2 {
                match term_kind(ts[0]) {
                    Err(e) => Err(e),
                    Ok(d) => match ts[1] {
                        Term::Const(Const::Clock(c)) => Ok(KindView::Signal(Box::new(d), c)),
                        _ => Err(UnifyError::ExpectedClock),
                    },
                }
            } else {
                Err(UnifyError::NotAnApplication)
            },
        },
    }
}

/// The kinds of a list of terms, or the first error.
pub open spec fn terms_kind(ts: Seq<Term>) -> Result<Seq<KindView>, UnifyError>
    decreases ts, 1nat,
{
    if ts.len() == 0 {
        Ok(Seq::empty())
    } else {
        match terms_kind(ts.drop_last()) {
            Err(e) => Err(e),
            Ok(ks) => match term_kind(ts.last()) {
                Err(e) => Err(e),
                Ok(k) => Ok(ks.push(k)),
            },
        }
    }
}

proof fn lemma_terms_kind_prefix_err(ts: Seq<Term>, j: int, e: UnifyError)
    requires
        0 <= j <= ts.len(),
        terms_kind(ts.take(j)) == Err::<Seq<KindView>, UnifyError>(e),
    ensures
        terms_kind(ts) == Err::<Seq<KindView>, UnifyError>(e),
    decreases ts.len() - j,
{
    if j < ts.len() {
        assert(ts.take(j + 1).drop_last() =~= ts.take(j));
        lemma_terms_kind_prefix_err(ts, j + 1, e);
    } else {
        assert(ts.take(j) =~= ts);
    }
}

proof fn lemma_terms_kind_ok_len(ts: Seq<Term>)
    ensures
        terms_kind(ts) matches Ok(ks) ==> ks.len() == ts.len(),
    decreases ts.len(),
{
    if ts.len() > 0 {
        lemma_terms_kind_ok_len(ts.drop_last());
    }
}

/// A kind result by its model.
pub open spec fn kind_result(r: Result<Kind, UnifyError>) -> Result<KindView, UnifyError> {
    match r {
        Ok(k) => Ok(k@),
        Err(e) => Err(e),
    }
}

impl UnifyContext {
    /// The sign flag that `ty` stands for.
    fn cast_ty_as_sign_flag(&mut self, ty: TypeId) -> (r: Result<SignFlag, UnifyError>)
        requires
            old(self).wf(),
            old(self).has(ty),
        ensures
            final(self).wf(),
            final(self).grows_from(*old(self)),
            final(self).subst() == old(self).subst(),
            final(self).vars() == old(self).vars(),
            r == match old(self).term(ty) {
                Term::Const(Const::Signed(f)) => Ok::<SignFlag, UnifyError>(f),
                _ => Err(UnifyError::ExpectedSignFlag),
            },
    {
        let x = self.apply(ty);
        proof {
            self.lemma_term_unfold(x);
        }
        match &self.types[x.kind] {
            TypeKind::Const(Const::Signed(s)) => Ok(*s),
            _ => Err(UnifyError::ExpectedSignFlag),
        }
    }

    /// The length that `ty` stands for.
    pub(crate) fn cast_ty_as_bit_length(&mut self, ty: TypeId) -> (r: Result<usize, UnifyError>)
        requires
            old(self).wf(),
            old(self).has(ty),
        ensures
            final(self).wf(),
            final(self).grows_from(*old(self)),
            final(self).subst() == old(self).subst(),
            final(self).vars() == old(self).vars(),
            r == match old(self).term(ty) {
                Term::Const(Const::Length(n)) => Ok::<usize, UnifyError>(n),
                _ => Err(UnifyError::ExpectedLength),
            },
    {
        let x = self.apply(ty);
        proof {
            self.lemma_term_unfold(x);
        }
        match &self.types[x.kind] {
            TypeKind::Const(Const::Length(n)) => Ok(*n),
            _ => Err(UnifyError::ExpectedLength),
        }
    }

    /// The clock that `ty` stands for.
    pub fn cast_ty_as_clock(&mut self, ty: TypeId) -> (r: Result<Color, UnifyError>)
        requires
            old(self).wf(),
            old(self).has(ty),
        ensures
            final(self).wf(),
            final(self).grows_from(*old(self)),
            final(self).subst() == old(self).subst(),
            final(self).vars() == old(self).vars(),
            r == match old(self).term(ty) {
                Term::Const(Const::Clock(c)) => Ok::<Color, UnifyError>(c),
                _ => Err(UnifyError::ExpectedClock),
            },
    {
        let x = self.apply(ty);
        proof {
            self.lemma_term_unfold(x);
        }
        match &self.types[x.kind] {
            TypeKind::Const(Const::Clock(c)) => Ok(*c),
            _ => Err(UnifyError::ExpectedClock),
        }
    }
}

impl UnifyContext {
    /// The kind that `ty` stands for; fails if the term has a free variable or
    /// a part that is not a kind.
    #[verifier::rlimit(60)]
    #[verifier::spinoff_prover]
    pub fn into_kind(&mut self, ty: TypeId) -> (r: Result<Kind, UnifyError>)
        requires
            old(self).wf(),
            old(self).has(ty),
        ensures
            final(self).wf(),
            final(self).grows_from(*old(self)),
            final(self).subst() == old(self).subst(),
            final(self).vars() == old(self).vars(),
            kind_result(r) == term_kind(old(self).term(ty)),
        decreases old(self).term(ty),
    {
        let ghost s0 = *self;
        let x = self.apply(ty);
        let ghost s1 = *self;
        proof {
            self.lemma_term_unfold(x);
        }
        let node = copy_type_kind(&self.types[x.kind]);
        match node {
            TypeKind::Var(_) => Err(UnifyError::UnboundVariable),
            TypeKind::Const(c) => match c {
                Const::Empty => Ok(Kind::Empty),
                _ => Err(UnifyError::ExpectedConstant),
            },
            TypeKind::App(AppType::Tuple(t)) => {
                let ghost ts = s1.terms(t.elements@);
                let mut out: Vec<Kind> = Vec::new();
                let mut i: usize = 0;
                while i < t.elements.len()
                    invariant
                        i <= t.elements.len(),
                        s0 == *old(self),
                        s0.term(ty) == Term::App(Shape::Tuple, ts),
                        ts == s1.terms(t.elements@),
                        forall|j: int| 0 <= j < t.elements@.len() ==> s1.has(#[trigger] t.elements@[j]),
                        self.wf(),
                        self.grows_from(s1),
                        s1.wf(),
                        self.grows_from(s0),
                        self.subst() == s0.subst(),
                        self.vars() == s0.vars(),
                        terms_kind(ts.take(i as int)) == Ok::<Seq<KindView>, UnifyError>(kinds_view(out@)),
                    decreases t.elements.len() - i,
                {
                    let ghost before = *self;
                    proof {
                        self.lemma_grows_keeps_terms(s1, t.elements@[i as int]);
                        assert(ts[i as int] == self.term(t.elements@[i as int]));
                        assert(decreases_to!(s0.term(ty) => ts));
                        assert(decreases_to!(ts => ts[i as int]));
                    }
                    match self.into_kind(t.elements[i]) {
                        Ok(k) => {
                            proof {
                                assert(ts.take(i + 1).drop_last() =~= ts.take(i as int));
                                assert(ts.take(i + 1).last() == ts[i as int]);
                                lemma_kinds_view_push(out@, k);
                                Self::lemma_grows_trans(s1, before, *self);
                                Self::lemma_grows_trans(s0, before, *self);
                            }
                            out.push(k);
                        },
                        Err(e) => {
                            proof {
                                assert(ts.take(i + 1).drop_last() =~= ts.take(i as int));
                                assert(ts.take(i + 1).last() == ts[i as int]);
                                lemma_terms_kind_prefix_err(ts, i + 1, e);
                                Self::lemma_grows_trans(s0, before, *self);
                            }
                            return Err(e);
                        },
                    }
                    i += 1;
                }
                proof {
                    assert(ts.take(t.elements@.len() as int) =~= ts);
                }
                Ok(Kind::Tuple(out))
            },
            TypeKind::App(AppType::Struct(st)) => {
                let ghost cs = field_types(st.fields@);
                let ghost names = field_names(st.fields@);
                let ghost ts = s1.terms(cs);
                let mut out: Vec<Field> = Vec::new();
                let mut i: usize = 0;
                while i < st.fields.len()
                    invariant
                        i <= st.fields.len(),
                        s0 == *old(self),
                        s0.term(ty) == Term::App(Shape::Struct(st.name@, names), ts),
                        ts == s1.terms(cs),
                        cs == field_types(st.fields@),
                        names == field_names(st.fields@),
                        forall|j: int| 0 <= j < cs.len() ==> s1.has(#[trigger] cs[j]),
                        self.wf(),
                        self.grows_from(s1),
                        s1.wf(),
                        self.grows_from(s0),
                        self.subst() == s0.subst(),
                        self.vars() == s0.vars(),
                        out@.len() == i,
                        terms_kind(ts.take(i as int)) matches Ok(ks) && ks.len() == i && forall|j: int| 0 <= j < i
                            ==> #[trigger] fields_view(out@)[j] == (FieldView { name: names[j], kind: ks[j] }),
                    decreases st.fields.len() - i,
                {
                    let ghost before = *self;
                    let ghost out0 = out@;
                    proof {
                        assert(cs[i as int] == st.fields@[i as int].1);
                        self.lemma_grows_keeps_terms(s1, cs[i as int]);
                        assert(ts[i as int] == self.term(cs[i as int]));
                        assert(decreases_to!(s0.term(ty) => ts));
                        assert(decreases_to!(ts => ts[i as int]));
                    }
                    match self.into_kind(st.fields[i].1) {
                        Ok(k) => {
                            let f = Field { name: st.fields[i].0.clone(), kind: k };
                            proof {
                                assert(ts.take(i + 1).drop_last() =~= ts.take(i as int));
                                assert(ts.take(i + 1).last() == ts[i as int]);
                                lemma_fields_view_push(out0, f);
                                lemma_fields_view_len(out0);
                                Self::lemma_grows_trans(s1, before, *self);
                                Self::lemma_grows_trans(s0, before, *self);
                                assert(names[i as int] == st.fields@[i as int].0@);
                            }
                            out.push(f);
                            proof {
                                let ks = terms_kind(ts.take(i as int))->Ok_0;
                                let ks2 = terms_kind(ts.take(i + 1))->Ok_0;
                                assert(ks2 == ks.push(f.kind@));
                                assert forall|j: int| 0 <= j < i + 1 implies #[trigger] fields_view(out@)[j] == (FieldView {
                                    name: names[j],
                                    kind: ks2[j],
                                }) by {
                                    if j < i {
                                        assert(fields_view(out@)[j] == fields_view(out0)[j]);
                                    }
                                }
                            }
                        },
                        Err(e) => {
                            proof {
                                assert(ts.take(i + 1).drop_last() =~= ts.take(i as int));
                                assert(ts.take(i + 1).last() == ts[i as int]);
                                lemma_terms_kind_prefix_err(ts, i + 1, e);
                                Self::lemma_grows_trans(s0, before, *self);
                            }
                            return Err(e);
                        },
                    }
                    i += 1;
                }
                proof {
                    assert(ts.take(st.fields@.len() as int) =~= ts);
                    lemma_fields_view_len(out@);
                    let ks = terms_kind(ts)->Ok_0;
                    assert(fields_view(out@) =~= Seq::new(ks.len(), |j: int| FieldView { name: names[j], kind: ks[j] }));
                }
                Ok(Kind::Struct(st.name.clone(), out))
            },
            TypeKind::App(AppType::Array(a)) => {
                proof {
                    assert(s1.terms(seq![a.base, a.len])[0] == s1.term(a.base));
                    assert(s1.terms(seq![a.base, a.len])[1] == s1.term(a.len));
                    assert(decreases_to!(s0.term(ty) => s1.terms(seq![a.base, a.len])));
                    assert(decreases_to!(s1.terms(seq![a.base, a.len]) => s1.terms(seq![a.base, a.len])[0]));
                }
                let base = match self.into_kind(a.base) {
                    Ok(b) => b,
                    Err(e) => {
                        proof {
                            Self::lemma_grows_trans(s0, s1, *self);
                        }
                        return Err(e);
                    },
                };
                let ghost s2 = *self;
                proof {
                    self.lemma_grows_keeps_terms(s1, a.len);
                    Self::lemma_grows_trans(s0, s1, s2);
                }
                let n = match self.cast_ty_as_bit_length(a.len) {
                    Ok(n) => n,
                    Err(e) => {
                        proof {
                            Self::lemma_grows_trans(s0, s2, *self);
                        }
                        return Err(e);
                    },
                };
                proof {
                    Self::lemma_grows_trans(s0, s2, *self);
                }
                Ok(Kind::Array(Box::new(base), n))
            },
            TypeKind::App(AppType::Bits(a)) => {
                proof {
                    assert(s1.terms(seq![a.sign_flag, a.len])[0] == s1.term(a.sign_flag));
                    assert(s1.terms(seq![a.sign_flag, a.len])[1] == s1.term(a.len));
                }
                let f = match self.cast_ty_as_sign_flag(a.sign_flag) {
                    Ok(f) => f,
                    Err(e) => {
                        proof {
                            Self::lemma_grows_trans(s0, s1, *self);
                        }
                        return Err(e);
                    },
                };
                let ghost s2 = *self;
                proof {
                    self.lemma_grows_keeps_terms(s1, a.len);
                    Self::lemma_grows_trans(s0, s1, s2);
                }
                let n = match self.cast_ty_as_bit_length(a.len) {
                    Ok(n) => n,
                    Err(e) => {
                        proof {
                            Self::lemma_grows_trans(s0, s2, *self);
                        }
                        return Err(e);
                    },
                };
                proof {
                    Self::lemma_grows_trans(s0, s2, *self);
                }
                match f {
                    SignFlag::Signed => Ok(Kind::Signed(n)),
                    SignFlag::Unsigned => Ok(Kind::Bits(n)),
                }
            },
            TypeKind::App(AppType::Signal(a)) => {
                proof {
                    assert(s1.terms(seq![a.data, a.clock])[0] == s1.term(a.data));
                    assert(s1.terms(seq![a.data, a.clock])[1] == s1.term(a.clock));
                    assert(decreases_to!(s0.term(ty) => s1.terms(seq![a.data, a.clock])));
                    assert(decreases_to!(s1.terms(seq![a.data, a.clock]) => s1.terms(seq![a.data, a.clock])[0]));
                }
                let data = match self.into_kind(a.data) {
                    Ok(d) => d,
                    Err(e) => {
                        proof {
                            Self::lemma_grows_trans(s0, s1, *self);
                        }
                        return Err(e);
                    },
                };
                let ghost s2 = *self;
                proof {
                    self.lemma_grows_keeps_terms(s1, a.clock);
                    Self::lemma_grows_trans(s0, s1, s2);
                }
                let c = match self.cast_ty_as_clock(a.clock) {
                    Ok(c) => c,
                    Err(e) => {
                        proof {
                            Self::lemma_grows_trans(s0, s2, *self);
                        }
                        return Err(e);
                    },
                };
                proof {
                    Self::lemma_grows_trans(s0, s2, *self);
                }
                Ok(Kind::Signal(Box::new(data), c))
            },
        }
    }
}

/// The type reached by one indexing step into node `k`, looking through
/// signals (without applying substitutions).
pub open spec fn index_node(tys: Seq<TypeKindView>, rank: Seq<nat>, k: int, index: nat) -> Result<TypeId, UnifyError>
    decreases rank[k],
{
    match tys[k] {
        TypeKindView::App(sh, cs) => match sh {
            Shape::Array => Ok(cs[0]),
            Shape::Tuple => if index < cs.len() {
                Ok(cs[index as int])
            } else {
                Err(UnifyError::IndexOutOfBounds)
            },
            Shape::Struct(_, _) => if index < cs.len() {
                Ok(cs[index as int])
            } else {
                Err(UnifyError::IndexOutOfBounds)
            },
            Shape::Signal => if 0 <= cs[0].kind < tys.len() && rank[cs[0].kind as int] < rank[k] {
                index_node(tys, rank, cs[0].kind as int, index)
            } else {
                Err(UnifyError::NotIndexable)
            },
            Shape::Bits => Err(UnifyError::NotIndexable),
        },
        _ => Err(UnifyError::NotAnApplication),
    }
}

/// The field named `m` of struct node `k`.
pub open spec fn field_node(tys: Seq<TypeKindView>, k: int, m: Seq<char>) -> Result<TypeId, UnifyError> {
    match tys[k] {
        TypeKindView::App(Shape::Struct(_, names), cs) => match name_pos(names, m) {
            Some(j) => Ok(cs[j as int]),
            None => Err(UnifyError::FieldNotFound),
        },
        _ => Err(UnifyError::NotAStruct),
    }
}

/// The node an indexing step selects depends on the nodes alone: a context
/// that keeps every node of another selects the same one.
pub proof fn lemma_index_node_kept(a: UnifyContext, b: UnifyContext, u: TypeId, n: nat)
    requires
        a.wf(),
        b.wf(),
        a.has(u),
        forall|t: TypeId| #[trigger] a.has(t) ==> b.has(t) && b.tys()[t.kind as int] == a.tys()[t.kind as int],
    ensures
        index_node(b.tys(), b.ranks(), u.kind as int, n) == index_node(a.tys(), a.ranks(), u.kind as int, n),
    decreases a.ranks()[u.kind as int],
{
    let k = u.kind as int;
    assert(b.has(u));
    assert(node_ok(a.tys(), a.subst(), a.rank@, k));
    assert(node_ok(b.tys(), b.subst(), b.rank@, k));
    if let TypeKindView::App(Shape::Signal, cs) = a.tys()[k] {
        if cs.len() > 0 {
            assert(below(a.tys(), a.ranks(), cs, a.ranks()[k]));
            assert(below(b.tys(), b.ranks(), cs, b.ranks()[k]));
            assert(a.has(cs[0]));
            lemma_index_node_kept(a, b, cs[0], n);
        }
    }
}

/// Position of the first name equal to `m`.
pub open spec fn name_pos(names: Seq<Seq<char>>, m: Seq<char>) -> Option<nat>
    decreases names.len(),
{
    if names.len() == 0 {
        None
    } else if names[0] == m {
        Some(0)
    } else {
        match name_pos(names.drop_first(), m) {
            Some(j) => Some(j + 1),
            None => None,
        }
    }
}

proof fn lemma_name_pos(names: Seq<Seq<char>>, m: Seq<char>, i: nat)
    requires
        i <= names.len(),
        forall|j: int| 0 <= j < i ==> names[j] != m,
    ensures
        i < names.len() && names[i as int] == m ==> name_pos(names, m) == Some(i),
        i == names.len() ==> name_pos(names, m) is None,
    decreases i,
{
    if i > 0 {
        assert forall|j: int| 0 <= j < i - 1 implies names.drop_first()[j] != m by {
            assert(names.drop_first()[j] == names[j + 1]);
        }
        lemma_name_pos(names.drop_first(), m, (i - 1) as nat);
        if i < names.len() && names[i as int] == m {
            assert(names.drop_first()[i - 1] == names[i as int]);
        }
    }
}

/// A term is a bit vector whose length is a variable.
pub open spec fn is_unsized_term(t: Term) -> bool {
    t matches Term::App(Shape::Bits, ts) && ts.len() == 2 && ts[1] is Var
}

/// A term is a bit vector whose sign and length are variables.
pub open spec fn is_generic_term(t: Term) -> bool {
    t matches Term::App(Shape::Bits, ts) && ts.len() == 2 && ts[0] is Var && ts[1] is Var
}

/// The argument at position `i` of an application term of the given shape.
pub open spec fn app_arg(t: Term, sh: Shape, i: int) -> Option<Term> {
    match t {
        Term::App(s, ts) => if s == sh && 0 <= i < ts.len() {
            Some(ts[i])
        } else {
            None
        },
        _ => None,
    }
}

impl UnifyContext {
    /// Whether `ty` stands for a free variable.
    pub fn is_unresolved(&mut self, ty: TypeId) -> (r: bool)
        requires
            old(self).wf(),
            old(self).has(ty),
        ensures
            final(self).wf(),
            final(self).grows_from(*old(self)),
            final(self).subst() == old(self).subst(),
            final(self).vars() == old(self).vars(),
            r == (old(self).term(ty) is Var),
    {
        let x = self.apply(ty);
        proof {
            self.lemma_term_unfold(x);
        }
        self.is_var(x)
    }

    /// Whether `ty` stands for a bit vector whose length is not known.
    pub fn is_unsized_integer(&mut self, ty: TypeId) -> (r: bool)
        requires
            old(self).wf(),
            old(self).has(ty),
        ensures
            final(self).wf(),
            final(self).grows_from(*old(self)),
            final(self).subst() == old(self).subst(),
            final(self).vars() == old(self).vars(),
            r == is_unsized_term(old(self).term(ty)),
    {
        let x = self.apply(ty);
        proof {
            self.lemma_term_unfold(x);
        }
        let len = match &self.types[x.kind] {
            TypeKind::App(AppType::Bits(bits)) => Some(bits.len),
            _ => None,
        };
        match len {
            Some(l) => {
                proof {
                    assert(self.terms(seq![self.tys()[x.kind as int]->App_1[0], l])[1] == self.term(l));
                    assert(args_of(self.tys()[x.kind as int])[1] == l);
                    self.lemma_term_unfold(l);
                }
                self.is_var(l)
            },
            None => false,
        }
    }

    /// Whether `ty` stands for a bit vector whose sign and length are both
    /// not known.
    pub fn is_generic_integer(&mut self, ty: TypeId) -> (r: bool)
        requires
            old(self).wf(),
            old(self).has(ty),
        ensures
            final(self).wf(),
            final(self).grows_from(*old(self)),
            final(self).subst() == old(self).subst(),
            final(self).vars() == old(self).vars(),
            r == is_generic_term(old(self).term(ty)),
    {
        let x = self.apply(ty);
        proof {
            self.lemma_term_unfold(x);
        }
        let parts = match &self.types[x.kind] {
            TypeKind::App(AppType::Bits(bits)) => Some((bits.sign_flag, bits.len)),
            _ => None,
        };
        match parts {
            Some((f, l)) => {
                proof {
                    assert(args_of(self.tys()[x.kind as int])[0] == f);
                    assert(args_of(self.tys()[x.kind as int])[1] == l);
                    self.lemma_term_unfold(f);
                    self.lemma_term_unfold(l);
                }
                self.is_var(f) && self.is_var(l)
            },
            None => false,
        }
    }

    /// Whether `ty` stands for a signal.
    pub fn is_signal(&mut self, ty: TypeId) -> (r: bool)
        requires
            old(self).wf(),
            old(self).has(ty),
        ensures
            final(self).wf(),
            final(self).grows_from(*old(self)),
            final(self).subst() == old(self).subst(),
            final(self).vars() == old(self).vars(),
            r == (old(self).term(ty) matches Term::App(Shape::Signal, _)),
    {
        let x = self.apply(ty);
        proof {
            self.lemma_term_unfold(x);
        }
        matches!(self.types[x.kind], TypeKind::App(AppType::Signal(_)))
    }

    /// The argument at position `i` of the applied node `x`, when it has the
    /// given shape.
    proof fn lemma_applied_arg(&self, x: TypeId, sh: Shape, i: int)
        requires
            self.wf(),
            self.has(x),
            self.tys()[x.kind as int] matches TypeKindView::App(s, cs) && s == sh && 0 <= i < cs.len(),
        ensures
            self.has(args_of(self.tys()[x.kind as int])[i]),
            app_arg(self.term(x), sh, i) == Some(self.term(args_of(self.tys()[x.kind as int])[i])),
    {
        self.lemma_term_unfold(x);
    }

    /// The clock of the signal that `ty` stands for.
    pub fn project_signal_clock(&mut self, ty: TypeId) -> (r: Option<TypeId>)
        requires
            old(self).wf(),
            old(self).has(ty),
        ensures
            final(self).wf(),
            final(self).grows_from(*old(self)),
            final(self).subst() == old(self).subst(),
            final(self).vars() == old(self).vars(),
            r is Some <==> app_arg(old(self).term(ty), Shape::Signal, 1) is Some,
            r matches Some(c) ==> final(self).has(c) && Some(final(self).term(c)) == app_arg(old(self).term(ty), Shape::Signal, 1),
    {
        let x = self.apply(ty);
        proof {
            self.lemma_term_unfold(x);
        }
        match &self.types[x.kind] {
            TypeKind::App(AppType::Signal(signal)) => {
                proof {
                    self.lemma_applied_arg(x, Shape::Signal, 1);
                }
                Some(signal.clock)
            },
            _ => None,
        }
    }

    /// The data of the signal that `ty` stands for.
    pub fn project_signal_value(&mut self, ty: TypeId) -> (r: Option<TypeId>)
        requires
            old(self).wf(),
            old(self).has(ty),
        ensures
            final(self).wf(),
            final(self).grows_from(*old(self)),
            final(self).subst() == old(self).subst(),
            final(self).vars() == old(self).vars(),
            r is Some <==> app_arg(old(self).term(ty), Shape::Signal, 0) is Some,
            r matches Some(c) ==> final(self).has(c) && Some(final(self).term(c)) == app_arg(old(self).term(ty), Shape::Signal, 0),
    {
        let x = self.apply(ty);
        proof {
            self.lemma_term_unfold(x);
        }
        match &self.types[x.kind] {
            TypeKind::App(AppType::Signal(signal)) => {
                proof {
                    self.lemma_applied_arg(x, Shape::Signal, 0);
                }
                Some(signal.data)
            },
            _ => None,
        }
    }

    /// The data that `ty` carries: the data of a signal, or `ty` itself.
    pub fn project_signal_data(&mut self, ty: TypeId) -> (r: TypeId)
        requires
            old(self).wf(),
            old(self).has(ty),
        ensures
            final(self).wf(),
            final(self).grows_from(*old(self)),
            final(self).subst() == old(self).subst(),
            final(self).vars() == old(self).vars(),
            final(self).has(r),
            final(self).term(r) == match app_arg(old(self).term(ty), Shape::Signal, 0) {
                Some(d) => d,
                None => old(self).term(ty),
            },
    {
        let ghost s0 = *self;
        match self.project_signal_value(ty) {
            Some(d) => d,
            None => {
                proof {
                    self.lemma_grows_keeps_terms(s0, ty);
                }
                ty
            },
        }
    }

    /// The sign flag of the bit vector that `ty` stands for.
    pub fn project_sign_flag(&mut self, ty: TypeId) -> (r: Option<TypeId>)
        requires
            old(self).wf(),
            old(self).has(ty),
        ensures
            final(self).wf(),
            final(self).grows_from(*old(self)),
            final(self).subst() == old(self).subst(),
            final(self).vars() == old(self).vars(),
            r is Some <==> app_arg(old(self).term(ty), Shape::Bits, 0) is Some,
            r matches Some(c) ==> final(self).has(c) && Some(final(self).term(c)) == app_arg(old(self).term(ty), Shape::Bits, 0),
    {
        let x = self.apply(ty);
        proof {
            self.lemma_term_unfold(x);
        }
        match &self.types[x.kind] {
            TypeKind::App(AppType::Bits(bits)) => {
                proof {
                    self.lemma_applied_arg(x, Shape::Bits, 0);
                }
                Some(bits.sign_flag)
            },
            _ => None,
        }
    }

    /// The length of the bit vector that `ty` stands for.
    pub fn project_bit_length(&mut self, ty: TypeId) -> (r: Option<TypeId>)
        requires
            old(self).wf(),
            old(self).has(ty),
        ensures
            final(self).wf(),
            final(self).grows_from(*old(self)),
            final(self).subst() == old(self).subst(),
            final(self).vars() == old(self).vars(),
            r is Some <==> app_arg(old(self).term(ty), Shape::Bits, 1) is Some,
            r matches Some(c) ==> final(self).has(c) && Some(final(self).term(c)) == app_arg(old(self).term(ty), Shape::Bits, 1),
    {
        let x = self.apply(ty);
        proof {
            self.lemma_term_unfold(x);
        }
        match &self.types[x.kind] {
            TypeKind::App(AppType::Bits(bits)) => {
                proof {
                    self.lemma_applied_arg(x, Shape::Bits, 1);
                }
                Some(bits.len)
            },
            _ => None,
        }
    }

    /// Whether `x` and `y`, applied, are the same stored type. Equal results
    /// stand for the same term. Where the substitutions lead from each to a
    /// node applied throughout, the result is whether that node is the same
    /// for both.
    pub fn equal(&mut self, x: TypeId, y: TypeId) -> (r: bool)
        requires
            old(self).wf(),
            old(self).has(x),
            old(self).has(y),
        ensures
            final(self).wf(),
            final(self).grows_from(*old(self)),
            final(self).subst() == old(self).subst(),
            final(self).vars() == old(self).vars(),
            r ==> old(self).term(x) == old(self).term(y),
            old(self).term(x) == old(self).term(y) && !(old(self).term(x) is App) ==> r,
            old(self).settled(old(self).chase(x)) && old(self).settled(old(self).chase(y)) ==> (r <==> old(self).chase(x).kind
                == old(self).chase(y).kind) && *final(self) == *old(self),
    {
        let ghost s0 = *self;
        let ax = self.apply(x);
        let ghost s1 = *self;
        proof {
            self.lemma_grows_keeps_terms(s0, y);
        }
        let ay = self.apply(y);
        proof {
            Self::lemma_grows_trans(s0, s1, *self);
            self.lemma_grows_keeps_terms(s1, ax);
        }
        let r = tk_eq(&self.types[ax.kind], &self.types[ay.kind]);
        proof {
            self.lemma_grows_keeps_terms(s1, ax);
            self.lemma_term_unfold(ax);
            self.lemma_term_unfold(ay);
            if r {
                if ax.kind < ay.kind {
                    assert(self.types@[ax.kind as int]@ != self.types@[ay.kind as int]@);
                } else if ax.kind > ay.kind {
                    assert(self.types@[ay.kind as int]@ != self.types@[ax.kind as int]@);
                }
            }
        }
        r
    }

    /// The type one indexing step into `base` selects: an array's element
    /// type, the element or field at `index` of a tuple or struct; a signal
    /// is looked through. Substitutions are not applied.
    pub fn ty_index(&mut self, base: TypeId, index: usize) -> (r: Result<TypeId, UnifyError>)
        requires
            old(self).wf(),
            old(self).has(base),
        ensures
            *final(self) == *old(self),
            r == index_node(old(self).tys(), old(self).ranks(), base.kind as int, index as nat),
            r matches Ok(t) ==> old(self).has(t),
        decreases old(self).ranks()[base.kind as int],
    {
        proof {
            assert(node_ok(self.tys(), self.subst(), self.rank@, base.kind as int));
        }
        let cs = self.args(base);
        match &self.types[base.kind] {
            TypeKind::App(AppType::Array(_)) => Ok(cs[0]),
            TypeKind::App(AppType::Tuple(_)) => {
                if index < cs.len() {
                    Ok(cs[index])
                } else {
                    Err(UnifyError::IndexOutOfBounds)
                }
            },
            TypeKind::App(AppType::Struct(_)) => {
                if index < cs.len() {
                    Ok(cs[index])
                } else {
                    Err(UnifyError::IndexOutOfBounds)
                }
            },
            TypeKind::App(AppType::Signal(signal)) => {
                let data = signal.data;
                self.ty_index(data, index)
            },
            TypeKind::App(_) => Err(UnifyError::NotIndexable),
            _ => Err(UnifyError::NotAnApplication),
        }
    }

    /// The type of the field named `member` of the struct `base`.
    /// Substitutions are not applied.
    pub fn ty_field(&mut self, base: TypeId, member: &str) -> (r: Result<TypeId, UnifyError>)
        requires
            old(self).wf(),
            old(self).has(base),
        ensures
            *final(self) == *old(self),
            match old(self).tys()[base.kind as int] {
                TypeKindView::App(Shape::Struct(_, names), cs) => match name_pos(names, member@) {
                    Some(j) => r == Ok::<TypeId, UnifyError>(cs[j as int]),
                    None => r == Err::<TypeId, UnifyError>(UnifyError::FieldNotFound),
                },
                _ => r == Err::<TypeId, UnifyError>(UnifyError::NotAStruct),
            },
            r == field_node(old(self).tys(), base.kind as int, member@),
            r matches Ok(t) ==> old(self).has(t),
    {
        proof {
            assert(node_ok(self.tys(), self.subst(), self.rank@, base.kind as int));
        }
        match &self.types[base.kind] {
            TypeKind::App(AppType::Struct(st)) => {
                let m = member.to_string();
                let mut i: usize = 0;
                while i < st.fields.len()
                    invariant
                        i <= st.fields.len(),
                        m@ == member@,
                        self.types@[base.kind as int] == TypeKind::App(AppType::Struct(*st)),
                        self.tys()[base.kind as int] == self.types@[base.kind as int]@,
                        below(self.tys(), self.ranks(), field_types(st.fields@), self.ranks()[base.kind as int]),
                        forall|j: int| 0 <= j < i ==> field_names(st.fields@)[j] != member@,
                    decreases st.fields.len() - i,
                {
                    if st.fields[i].0 == m {
                        proof {
                            lemma_name_pos(field_names(st.fields@), member@, i as nat);
                            assert(field_types(st.fields@)[i as int] == st.fields@[i as int].1);
                        }
                        return Ok(st.fields[i].1);
                    }
                    proof {
                        assert(field_names(st.fields@)[i as int] == st.fields@[i as int].0@);
                    }
                    i += 1;
                }
                proof {
                    lemma_name_pos(field_names(st.fields@), member@, i as nat);
                }
                Err(UnifyError::FieldNotFound)
            },
            _ => Err(UnifyError::NotAStruct),
        }
    }
}

proof fn lemma_terms_kind_all_ok(ts: Seq<Term>, ks: Seq<KindView>)
    requires
        ts.len() == ks.len(),
        forall|i: int| 0 <= i < ts.len() ==> #[trigger] term_kind(ts[i]) == Ok::<KindView, UnifyError>(ks[i]),
    ensures
        terms_kind(ts) == Ok::<Seq<KindView>, UnifyError>(ks),
    decreases ts.len(),
{
    if ts.len() > 0 {
        assert forall|i: int| 0 <= i < ts.drop_last().len() implies #[trigger] term_kind(ts.drop_last()[i]) == Ok::<
            KindView,
            UnifyError,
        >(ks.drop_last()[i]) by {
            assert(ts.drop_last()[i] == ts[i]);
        }
        lemma_terms_kind_all_ok(ts.drop_last(), ks.drop_last());
        assert(term_kind(ts[ts.len() - 1]) == Ok::<KindView, UnifyError>(ks[ks.len() - 1]));
        assert(ts.last() == ts[ts.len() - 1]);
        assert(ks.drop_last().push(ks.last()) =~= ks);
    } else {
        assert(ks =~= Seq::<KindView>::empty());
    }
}

/// Reading back the term made for a kind gives the kind: a kind stored with
/// `from_kind` is what `into_kind` returns while no substitution changes it.
pub proof fn lemma_kind_term_round_trip(k: Kind)
    ensures
        term_kind(kind_term(k@)) == Ok::<KindView, UnifyError>(k@),
    decreases k,
{
    match k {
        Kind::Array(b, n) => {
            lemma_kind_term_round_trip(*b);
        },
        Kind::Signal(b, c) => {
            lemma_kind_term_round_trip(*b);
        },
        Kind::Tuple(v) => {
            let ks = kinds_view(v@);
            let ts = kinds_term(ks);
            lemma_kinds_view_len(v@);
            lemma_kinds_term_len(ks);
            assert forall|i: int| 0 <= i < ts.len() implies #[trigger] term_kind(ts[i]) == Ok::<KindView, UnifyError>(ks[i]) by {
                lemma_kinds_view_index(v@, i);
                lemma_kinds_term_index(ks, i);
                assert(decreases_to!(k => v));
                assert(decreases_to!(v => v@[i]));
                lemma_kind_term_round_trip(v@[i]);
            }
            lemma_terms_kind_all_ok(ts, ks);
        },
        Kind::Struct(_, fs) => {
            let fv = fields_view(fs@);
            let ts = fields_term(fv);
            let ks = Seq::new(fv.len(), |i: int| fv[i].kind);
            lemma_fields_view_len(fs@);
            lemma_fields_term_len(fv);
            assert forall|i: int| 0 <= i < ts.len() implies #[trigger] term_kind(ts[i]) == Ok::<KindView, UnifyError>(ks[i]) by {
                lemma_fields_view_index(fs@, i);
                lemma_fields_term_index(fv, i);
                assert(decreases_to!(k => fs));
                assert(decreases_to!(fs => fs@[i]));
                assert(decreases_to!(fs@[i] => fs@[i].kind));
                lemma_kind_term_round_trip(fs@[i].kind);
            }
            lemma_terms_kind_all_ok(ts, ks);
            assert(Seq::new(ks.len(), |i: int| FieldView { name: kind_field_names(fv)[i], kind: ks[i] }) =~= fv);
        },
        _ => {},
    }
}

proof fn lemma_pair_no_var(a: Term, b: Term, v: VarNum)
    requires
        !term_has_var(a, v),
        !term_has_var(b, v),
    ensures
        !terms_have_var(seq![a, b], v),
{
    assert(seq![a, b].drop_first() =~= seq![b]);
    assert(seq![b].drop_first() =~= Seq::<Term>::empty());
    assert(!terms_have_var(Seq::<Term>::empty(), v));
    assert(!terms_have_var(seq![b], v));
}

proof fn lemma_kind_term_no_var(k: KindView, v: VarNum)
    ensures
        !term_has_var(kind_term(k), v),
    decreases k, 0nat,
{
    match k {
        KindView::Empty => {},
        KindView::Bits(n) => {
            lemma_pair_no_var(Term::Const(Const::Signed(SignFlag::Unsigned)), Term::Const(Const::Length(n as usize)), v);
        },
        KindView::Signed(n) => {
            lemma_pair_no_var(Term::Const(Const::Signed(SignFlag::Signed)), Term::Const(Const::Length(n as usize)), v);
        },
        KindView::Array(b, n) => {
            lemma_kind_term_no_var(*b, v);
            lemma_pair_no_var(kind_term(*b), Term::Const(Const::Length(n as usize)), v);
        },
        KindView::Signal(b, c) => {
            lemma_kind_term_no_var(*b, v);
            lemma_pair_no_var(kind_term(*b), Term::Const(Const::Clock(c)), v);
        },
        KindView::Tuple(ks) => {
            lemma_kinds_term_no_var(ks, v);
        },
        KindView::Struct(_, fs) => {
            lemma_fields_term_no_var(fs, v);
        },
    }
}

proof fn lemma_kinds_term_no_var(ks: Seq<KindView>, v: VarNum)
    ensures
        !terms_have_var(kinds_term(ks), v),
    decreases ks, 1nat,
{
    if ks.len() > 0 {
        lemma_kind_term_no_var(ks[0], v);
        lemma_kinds_term_no_var(ks.drop_first(), v);
        assert((seq![kind_term(ks[0])] + kinds_term(ks.drop_first())).drop_first() =~= kinds_term(ks.drop_first()));
    }
}

proof fn lemma_fields_term_no_var(fs: Seq<FieldView>, v: VarNum)
    ensures
        !terms_have_var(fields_term(fs), v),
    decreases fs, 1nat,
{
    if fs.len() > 0 {
        lemma_kind_term_no_var(fs[0].kind, v);
        lemma_fields_term_no_var(fs.drop_first(), v);
        assert((seq![kind_term(fs[0].kind)] + fields_term(fs.drop_first())).drop_first() =~= fields_term(fs.drop_first()));
    }
}

/// The term of a kind has no variables.
pub proof fn lemma_kind_term_ground(k: KindView)
    ensures
        ground(kind_term(k)),
{
    assert forall|v: VarNum| !#[trigger] term_has_var(kind_term(k), v) by {
        lemma_kind_term_no_var(k, v);
    }
}

/// `new` keeps what `old` knew: its nodes, which of its nodes stand for the
/// same term, and the terms without variables.
pub open spec fn evolves(old: UnifyContext, new: UnifyContext) -> bool {
    &&& forall|a: TypeId| #[trigger] old.has(a) ==> new.has(a) && new.tys()[a.kind as int] == old.tys()[a.kind as int]
    &&& forall|a: TypeId, b: TypeId|
        #![trigger new.term(a), new.term(b)]
        old.has(a) && old.has(b) && old.term(a) == old.term(b) ==> new.term(a) == new.term(b)
    &&& forall|a: TypeId| old.has(a) && ground(old.term(a)) ==> #[trigger] new.term(a) == old.term(a)
}

pub proof fn lemma_evolves_refl(c: UnifyContext)
    ensures
        evolves(c, c),
{
}

pub proof fn lemma_evolves_trans(a: UnifyContext, b: UnifyContext, c: UnifyContext)
    requires
        evolves(a, b),
        evolves(b, c),
    ensures
        evolves(a, c),
{
    assert forall|x: TypeId| #[trigger] a.has(x) implies c.has(x) && c.tys()[x.kind as int] == a.tys()[x.kind as int] by {
        assert(b.has(x));
    }
    assert forall|x: TypeId, y: TypeId| a.has(x) && a.has(y) && a.term(x) == a.term(y) implies #[trigger] c.term(x)
        == #[trigger] c.term(y) by {
        assert(b.has(x) && b.has(y));
        assert(b.term(x) == b.term(y));
    }
    assert forall|x: TypeId| a.has(x) && ground(a.term(x)) implies #[trigger] c.term(x) == a.term(x) by {
        assert(b.has(x));
        assert(b.term(x) == a.term(x));
    }
}

pub proof fn lemma_grows_evolves(old: UnifyContext, new: UnifyContext)
    requires
        old.wf(),
        new.grows_from(old),
    ensures
        evolves(old, new),
{
    assert forall|x: TypeId| #[trigger] old.has(x) implies new.has(x) && new.tys()[x.kind as int] == old.tys()[x.kind as int] by {
        new.lemma_grows_keeps_terms(old, x);
    }
    assert forall|x: TypeId, y: TypeId| old.has(x) && old.has(y) && old.term(x) == old.term(y) implies #[trigger] new.term(x)
        == #[trigger] new.term(y) by {
        new.lemma_grows_keeps_terms(old, x);
        new.lemma_grows_keeps_terms(old, y);
    }
    assert forall|x: TypeId| old.has(x) && ground(old.term(x)) implies #[trigger] new.term(x) == old.term(x) by {
        new.lemma_grows_keeps_terms(old, x);
    }
}

pub proof fn lemma_refines_evolves(old: UnifyContext, new: UnifyContext)
    requires
        new.refines(old),
    ensures
        evolves(old, new),
{
}

} // verus!
