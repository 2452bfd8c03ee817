//! What terms are made of, and what a graph holds that an earlier one does not.
use vstd::prelude::*;

use crate::bignat::le_value;
use crate::dag::interned;
use crate::dag::LeanDag;
use crate::dag::Tables;
use crate::node::ExprPtr;
use crate::node::LevelPtr;
use crate::node::LevelsPtr;
use crate::node::NamePtr;
use crate::tree::BodyTree;
use crate::tree::DeclTree;
use crate::tree::ExprTree;
use crate::tree::LevelTree;
use crate::tree::NameTree;
use crate::tree::RuleTree;

verus! {

/// Something that a graph can hold.
pub enum Part {
    Name(NameTree),
    Level(LevelTree),
    Levels(Seq<LevelTree>),
    Expr(ExprTree),
    Text(Seq<char>),
    Number(nat),
}

/// A name, the names that it extends, and their string components.
pub open spec fn name_parts(t: NameTree) -> Set<Part>
    decreases t,
{
    match t {
        NameTree::Anon => Set::empty().insert(Part::Name(t)),
        NameTree::Str(pre, s) => name_parts(*pre).insert(Part::Text(s)).insert(Part::Name(t)),
        NameTree::Num(pre, _) => name_parts(*pre).insert(Part::Name(t)),
    }
}

/// The parts of a sequence of names.
pub open spec fn names_parts(ts: Seq<NameTree>) -> Set<Part>
    decreases ts.len(),
{
    if ts.len() == 0 {
        Set::empty()
    } else {
        names_parts(ts.drop_last()).union(name_parts(ts.last()))
    }
}

/// A level, the levels in it, and the parts of the parameter names in it.
pub open spec fn level_parts(t: LevelTree) -> Set<Part>
    decreases t,
{
    match t {
        LevelTree::Zero => Set::empty().insert(Part::Level(t)),
        LevelTree::Succ(a) => level_parts(*a).insert(Part::Level(t)),
        LevelTree::Max(a, b) => level_parts(*a).union(level_parts(*b)).insert(Part::Level(t)),
        LevelTree::IMax(a, b) => level_parts(*a).union(level_parts(*b)).insert(Part::Level(t)),
        LevelTree::Param(n) => name_parts(n).insert(Part::Level(t)),
    }
}

/// The parts of the levels of a list.
pub open spec fn levels_parts(ts: Seq<LevelTree>) -> Set<Part>
    decreases ts.len(),
{
    if ts.len() == 0 {
        Set::empty()
    } else {
        levels_parts(ts.drop_last()).union(level_parts(ts.last()))
    }
}

/// A list of levels, and the parts of its levels.
pub open spec fn list_parts(ts: Seq<LevelTree>) -> Set<Part> {
    levels_parts(ts).insert(Part::Levels(ts))
}

/// An expression, the expressions in it, and the parts of all else in it.
pub open spec fn expr_parts(t: ExprTree) -> Set<Part>
    decreases t,
{
    match t {
        ExprTree::Var(_) => Set::empty().insert(Part::Expr(t)),
        ExprTree::Sort(l) => level_parts(l).insert(Part::Expr(t)),
        ExprTree::Const(n, us) => name_parts(n).union(list_parts(us)).insert(Part::Expr(t)),
        ExprTree::App(f, a) => expr_parts(*f).union(expr_parts(*a)).insert(Part::Expr(t)),
        ExprTree::Lambda(n, _, ty, body) => name_parts(n).union(expr_parts(*ty)).union(
            expr_parts(*body),
        ).insert(Part::Expr(t)),
        ExprTree::Pi(n, _, ty, body) => name_parts(n).union(expr_parts(*ty)).union(
            expr_parts(*body),
        ).insert(Part::Expr(t)),
        ExprTree::Let(n, ty, val, body, _) => name_parts(n).union(expr_parts(*ty)).union(
            expr_parts(*val),
        ).union(expr_parts(*body)).insert(Part::Expr(t)),
        ExprTree::Proj(n, _, s) => name_parts(n).union(expr_parts(*s)).insert(Part::Expr(t)),
        ExprTree::NatLit(k) => Set::empty().insert(Part::Number(k)).insert(Part::Expr(t)),
        ExprTree::StringLit(s) => Set::empty().insert(Part::Text(s)).insert(Part::Expr(t)),
    }
}

/// The parts of a computation rule.
pub open spec fn rule_parts(r: RuleTree) -> Set<Part> {
    name_parts(r.ctor_name).union(expr_parts(r.rhs))
}

/// The parts of a sequence of computation rules.
pub open spec fn rules_parts(rs: Seq<RuleTree>) -> Set<Part>
    decreases rs.len(),
{
    if rs.len() == 0 {
        Set::empty()
    } else {
        rules_parts(rs.drop_last()).union(rule_parts(rs.last()))
    }
}

/// The parts of what a declaration holds besides its name, universe parameters and
/// type.
pub open spec fn body_parts(b: BodyTree) -> Set<Part> {
    match b {
        BodyTree::Axiom => Set::empty(),
        BodyTree::Quot => Set::empty(),
        BodyTree::Theorem { val } => expr_parts(val),
        BodyTree::Definition { val, .. } => expr_parts(val),
        BodyTree::Opaque { val } => expr_parts(val),
        BodyTree::Inductive { all_ind_names, all_ctor_names, .. } => names_parts(
            all_ind_names,
        ).union(names_parts(all_ctor_names)),
        BodyTree::Constructor { inductive_name, .. } => name_parts(inductive_name),
        BodyTree::Recursor { all_inductives, rec_rules, .. } => names_parts(all_inductives).union(
            rules_parts(rec_rules),
        ),
    }
}

/// The parts of a name, universe parameters and a type.
pub open spec fn head_parts(name: NameTree, uparams: Seq<LevelTree>, ty: ExprTree) -> Set<Part> {
    name_parts(name).union(list_parts(uparams)).union(expr_parts(ty))
}

/// The parts of a declaration.
pub open spec fn decl_parts(d: DeclTree) -> Set<Part> {
    head_parts(d.name, d.uparams, d.ty).union(body_parts(d.body))
}

/// The parts of a sequence of declarations.
pub open spec fn decls_parts(ds: Seq<DeclTree>) -> Set<Part> {
    Set::new(
        |p: Part|
            exists|i: int| 0 <= i < ds.len() && (#[trigger] decl_parts(ds[i])).contains(p),
    )
}

/// `e` holds nothing but what is among `parts`, the anonymous name and the level
/// zero.
pub open spec fn made_of(e: LeanDag, parts: Set<Part>) -> bool {
    &&& forall|p: NamePtr|
        e.has_name(p) ==> p.idx == 0 || parts.contains(Part::Name(#[trigger] e.name(p)))
    &&& forall|p: LevelPtr|
        e.has_level(p) ==> p.idx == 0 || parts.contains(Part::Level(#[trigger] e.level(p)))
    &&& forall|p: LevelsPtr|
        e.has_levels(p) ==> parts.contains(Part::Levels(#[trigger] e.levels_at(p)))
    &&& forall|p: ExprPtr| e.has_expr(p) ==> parts.contains(Part::Expr(#[trigger] e.expr(p)))
    &&& forall|s: Seq<char>| #[trigger]
        e.strings@.contains(s) ==> parts.contains(Part::Text(s))
    &&& forall|b: Seq<u8>| #[trigger]
        e.nums().contains(b) ==> parts.contains(Part::Number(le_value(b)))
}

/// What grew out of an empty graph holds what was added.
pub proof fn lemma_made_of(d: LeanDag, e: LeanDag, parts: Set<Part>)
    requires
        d.names@.len() == 1,
        d.levels@.len() == 1,
        d.uparams@.len() == 0,
        d.exprs@.len() == 0,
        d.strings@.len() == 0,
        d.nums().len() == 0,
        adds_only(d, e, parts),
    ensures
        made_of(e, parts),
{
    reveal(adds_only);
}

/// `e` holds nothing that `d` does not hold but what is among `parts`.
#[verifier::opaque]
pub open spec fn adds_only(d: LeanDag, e: LeanDag, parts: Set<Part>) -> bool {
    &&& forall|p: NamePtr|
        e.has_name(p) && !d.has_name(p) ==> parts.contains(Part::Name(#[trigger] e.name(p)))
    &&& forall|p: LevelPtr|
        e.has_level(p) && !d.has_level(p) ==> parts.contains(Part::Level(#[trigger] e.level(p)))
    &&& forall|p: LevelsPtr|
        e.has_levels(p) && !d.has_levels(p) ==> parts.contains(
            Part::Levels(#[trigger] e.levels_at(p)),
        )
    &&& forall|p: ExprPtr|
        e.has_expr(p) && !d.has_expr(p) ==> parts.contains(Part::Expr(#[trigger] e.expr(p)))
    &&& forall|s: Seq<char>| #[trigger]
        e.strings@.contains(s) ==> d.strings@.contains(s) || parts.contains(Part::Text(s))
    &&& forall|b: Seq<u8>| #[trigger]
        e.nums().contains(b) ==> d.nums().contains(b) || parts.contains(
            Part::Number(le_value(b)),
        )
}

pub proof fn lemma_adds_nothing(d: LeanDag, parts: Set<Part>)
    ensures
        adds_only(d, d, parts),
{
    reveal(adds_only);
}

/// What is added in two steps is what the steps add.
pub proof fn lemma_adds_both(
    d: LeanDag,
    e: LeanDag,
    f: LeanDag,
    p: Set<Part>,
    q: Set<Part>,
    all: Set<Part>,
)
    requires
        adds_only(d, e, p),
        adds_only(e, f, q),
        e.kept_in(f),
        p.subset_of(all),
        q.subset_of(all),
    ensures
        adds_only(d, f, all),
{
    reveal(adds_only);
    assert forall|x: NamePtr| f.has_name(x) && !d.has_name(x) implies all.contains(
        Part::Name(#[trigger] f.name(x)),
    ) by {
        if e.has_name(x) {
            assert(f.name(x) == e.name(x));
        }
    }
    assert forall|x: LevelPtr| f.has_level(x) && !d.has_level(x) implies all.contains(
        Part::Level(#[trigger] f.level(x)),
    ) by {
        if e.has_level(x) {
            assert(f.level(x) == e.level(x));
        }
    }
    assert forall|x: LevelsPtr| f.has_levels(x) && !d.has_levels(x) implies all.contains(
        Part::Levels(#[trigger] f.levels_at(x)),
    ) by {
        if e.has_levels(x) {
            assert(f.levels_at(x) == e.levels_at(x));
        }
    }
    assert forall|x: ExprPtr| f.has_expr(x) && !d.has_expr(x) implies all.contains(
        Part::Expr(#[trigger] f.expr(x)),
    ) by {
        if e.has_expr(x) {
            assert(f.expr(x) == e.expr(x));
        }
    }
    assert forall|s: Seq<char>| #[trigger] f.strings@.contains(s) implies d.strings@.contains(s)
        || all.contains(Part::Text(s)) by {
        if e.strings@.contains(s) {
        }
    }
    assert forall|b: Seq<u8>| #[trigger] f.nums().contains(b) implies d.nums().contains(b)
        || all.contains(Part::Number(le_value(b))) by {
        if e.nums().contains(b) {
        }
    }
}

pub proof fn lemma_adds_more(d: LeanDag, e: LeanDag, p: Set<Part>, all: Set<Part>)
    requires
        adds_only(d, e, p),
        p.subset_of(all),
    ensures
        adds_only(d, e, all),
{
    reveal(adds_only);
}

proof fn lemma_put<A>(s: Seq<A>, x: A, i: int, j: int)
    requires
        interned(s, x).no_duplicates(),
        0 <= i < interned(s, x).len(),
        interned(s, x)[i] == x,
        s.len() <= j < interned(s, x).len(),
    ensures
        j == i,
{
}

/// What is added when at most one value is put into each table: a name at `n`, a
/// level at `l`, a list of levels at `us`, an expression at `x`.
proof fn lemma_adds_values(
    d: LeanDag,
    e: LeanDag,
    n: Option<NamePtr>,
    l: Option<LevelPtr>,
    us: Option<LevelsPtr>,
    x: Option<ExprPtr>,
    s: Option<Seq<char>>,
    b: Option<Seq<u8>>,
    parts: Set<Part>,
)
    requires
        e.wf(),
        match n {
            Some(p) => e.has_name(p) && e.names@ == interned(d.names@, e.names@[p.idx as int])
                && parts.contains(Part::Name(e.name(p))),
            None => e.names@ == d.names@,
        },
        match l {
            Some(p) => e.has_level(p) && e.levels@ == interned(d.levels@, e.levels@[p.idx as int])
                && parts.contains(Part::Level(e.level(p))),
            None => e.levels@ == d.levels@,
        },
        match us {
            Some(p) => e.has_levels(p) && e.uparams@ == interned(
                d.uparams@,
                e.uparams@[p.idx as int],
            ) && parts.contains(Part::Levels(e.levels_at(p))),
            None => e.uparams@ == d.uparams@,
        },
        match x {
            Some(p) => e.has_expr(p) && e.exprs@ == interned(d.exprs@, e.exprs@[p.idx as int])
                && parts.contains(Part::Expr(e.expr(p))),
            None => e.exprs@ == d.exprs@,
        },
        match s {
            Some(s) => e.strings@ == interned(d.strings@, s) && parts.contains(Part::Text(s)),
            None => e.strings@ == d.strings@,
        },
        match b {
            Some(b) => e.nums() == interned(d.nums(), b) && parts.contains(
                Part::Number(le_value(b)),
            ),
            None => e.nums() == d.nums(),
        },
    ensures
        adds_only(d, e, parts),
{
    reveal(adds_only);
    e.names.distinct();
    e.levels.distinct();
    e.uparams.distinct();
    e.exprs.distinct();
    assert forall|p: NamePtr| e.has_name(p) && !d.has_name(p) implies parts.contains(
        Part::Name(#[trigger] e.name(p)),
    ) by {
        lemma_put(d.names@, e.names@[n->0.idx as int], n->0.idx as int, p.idx as int);
    }
    assert forall|p: LevelPtr| e.has_level(p) && !d.has_level(p) implies parts.contains(
        Part::Level(#[trigger] e.level(p)),
    ) by {
        lemma_put(d.levels@, e.levels@[l->0.idx as int], l->0.idx as int, p.idx as int);
    }
    assert forall|p: LevelsPtr| e.has_levels(p) && !d.has_levels(p) implies parts.contains(
        Part::Levels(#[trigger] e.levels_at(p)),
    ) by {
        lemma_put(d.uparams@, e.uparams@[us->0.idx as int], us->0.idx as int, p.idx as int);
    }
    assert forall|p: ExprPtr| e.has_expr(p) && !d.has_expr(p) implies parts.contains(
        Part::Expr(#[trigger] e.expr(p)),
    ) by {
        lemma_put(d.exprs@, e.exprs@[x->0.idx as int], x->0.idx as int, p.idx as int);
    }
    assert forall|t: Seq<char>| #[trigger] e.strings@.contains(t) implies d.strings@.contains(t)
        || parts.contains(Part::Text(t)) by {
        let i = choose|i: int| 0 <= i < e.strings@.len() && e.strings@[i] == t;
        if i < d.strings@.len() {
            assert(d.strings@[i] == t);
        }
    }
    assert forall|t: Seq<u8>| #[trigger] e.nums().contains(t) implies d.nums().contains(t)
        || parts.contains(Part::Number(le_value(t))) by {
        let i = choose|i: int| 0 <= i < e.nums().len() && e.nums()[i] == t;
        if i < d.nums().len() {
            assert(d.nums()[i] == t);
        }
    }
}

/// A name that was put into the graph, with the string that was put with it.
pub proof fn lemma_adds_name(
    d: LeanDag,
    e: LeanDag,
    p: NamePtr,
    s: Option<Seq<char>>,
    parts: Set<Part>,
)
    requires
        e.wf(),
        e.has_name(p),
        e.tables() == (Tables {
            names: interned(d.names@, e.names@[p.idx as int]),
            strings: match s {
                Some(s) => interned(d.strings@, s),
                None => d.strings@,
            },
            ..d.tables()
        }),
        parts.contains(Part::Name(e.name(p))),
        s is Some ==> parts.contains(Part::Text(s->0)),
    ensures
        adds_only(d, e, parts),
{
    lemma_adds_values(d, e, Some(p), None, None, None, s, None, parts);
}

/// A level that was put into the graph.
pub proof fn lemma_adds_level(d: LeanDag, e: LeanDag, p: LevelPtr, parts: Set<Part>)
    requires
        e.wf(),
        e.has_level(p),
        e.tables() == (Tables {
            levels: interned(d.levels@, e.levels@[p.idx as int]),
            ..d.tables()
        }),
        parts.contains(Part::Level(e.level(p))),
    ensures
        adds_only(d, e, parts),
{
    lemma_adds_values(d, e, None, Some(p), None, None, None, None, parts);
}

/// A list of levels that was put into the graph.
pub proof fn lemma_adds_list(d: LeanDag, e: LeanDag, p: LevelsPtr, parts: Set<Part>)
    requires
        e.wf(),
        e.has_levels(p),
        e.tables() == (Tables {
            uparams: interned(d.uparams@, e.uparams@[p.idx as int]),
            ..d.tables()
        }),
        parts.contains(Part::Levels(e.levels_at(p))),
    ensures
        adds_only(d, e, parts),
{
    lemma_adds_values(d, e, None, None, Some(p), None, None, None, parts);
}

/// An expression that was put into the graph, with the string or number that was
/// put with it.
pub proof fn lemma_adds_expr(
    d: LeanDag,
    e: LeanDag,
    p: ExprPtr,
    s: Option<Seq<char>>,
    b: Option<Seq<u8>>,
    parts: Set<Part>,
)
    requires
        e.wf(),
        e.has_expr(p),
        e.tables() == (Tables {
            exprs: interned(d.exprs@, e.exprs@[p.idx as int]),
            strings: match s {
                Some(s) => interned(d.strings@, s),
                None => d.strings@,
            },
            nums: match b {
                Some(b) => interned(d.nums(), b),
                None => d.nums(),
            },
            ..d.tables()
        }),
        parts.contains(Part::Expr(e.expr(p))),
        s is Some ==> parts.contains(Part::Text(s->0)),
        b is Some ==> parts.contains(Part::Number(le_value(b->0))),
    ensures
        adds_only(d, e, parts),
{
    lemma_adds_values(d, e, None, None, None, Some(p), s, b, parts);
}

/// A level of a list has its parts among those of the list.
pub proof fn lemma_levels_parts(ts: Seq<LevelTree>, i: int)
    requires
        0 <= i < ts.len(),
    ensures
        level_parts(ts[i]).subset_of(levels_parts(ts)),
    decreases ts.len(),
{
    if i < ts.len() - 1 {
        lemma_levels_parts(ts.drop_last(), i);
    }
}

} // verus!
