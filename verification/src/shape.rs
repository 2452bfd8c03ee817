//! What the nodes of a graph and the declarations of an environment hold for a term,
//! node by node, and that a pointer stands for exactly the term that its nodes hold.
use vstd::prelude::*;

use crate::dag::LeanDag;
use crate::declare::entries_of;
use crate::env::Declar;
use crate::env::DeclarInfo;
use crate::env::RecRule;
use crate::layout::positional;
use crate::node::Expr;
use crate::node::ExprPtr;
use crate::node::Level;
use crate::node::LevelPtr;
use crate::node::LevelsPtr;
use crate::node::Name;
use crate::node::NamePtr;
use crate::tree::BodyTree;
use crate::tree::DeclTree;
use crate::tree::ExprTree;
use crate::tree::LevelTree;
use crate::tree::NameTree;
use crate::tree::RuleTree;

verus! {

/// The node at index `i` holds the name.
pub open spec fn holds_name(d: LeanDag, i: usize, t: NameTree) -> bool
    decreases t,
{
    i < d.names@.len() && match (t, d.names@[i as int]) {
        (NameTree::Anon, Name::Anon) => true,
        (NameTree::Str(t, s), Name::Str(pre, sfx, _)) => holds_name(d, pre.idx, *t) && sfx.idx
            < d.strings@.len() && d.strings@[sfx.idx as int] == s,
        (NameTree::Num(t, k), Name::Num(pre, n, _)) => holds_name(d, pre.idx, *t) && n == k,
        _ => false,
    }
}

/// The node at index `i` holds the level.
pub open spec fn holds_level(d: LeanDag, i: usize, t: LevelTree) -> bool
    decreases t,
{
    i < d.levels@.len() && match (t, d.levels@[i as int]) {
        (LevelTree::Zero, Level::Zero) => true,
        (LevelTree::Succ(t), Level::Succ(l, _)) => holds_level(d, l.idx, *t),
        (LevelTree::Max(t, u), Level::Max(l, r, _)) => holds_level(d, l.idx, *t) && holds_level(
            d,
            r.idx,
            *u,
        ),
        (LevelTree::IMax(t, u), Level::IMax(l, r, _)) => holds_level(d, l.idx, *t) && holds_level(
            d,
            r.idx,
            *u,
        ),
        (LevelTree::Param(t), Level::Param(n, _)) => holds_name(d, n.idx, t),
        _ => false,
    }
}

/// The list at index `i` holds the levels, one for one and in order.
pub open spec fn holds_levels(d: LeanDag, i: usize, ts: Seq<LevelTree>) -> bool {
    &&& i < d.uparams@.len()
    &&& d.uparams@[i as int].len() == ts.len()
    &&& forall|k: int|
        0 <= k < ts.len() ==> holds_level(d, d.uparams@[i as int][k].idx, #[trigger] ts[k])
}

/// The node at index `i` holds the expression.
pub open spec fn holds_expr(d: LeanDag, i: usize, t: ExprTree) -> bool
    decreases t,
{
    i < d.exprs@.len() && match (t, d.exprs@[i as int]) {
        (ExprTree::Var(k), Expr::Var { dbj_idx, .. }) => k == dbj_idx,
        (ExprTree::Sort(l), Expr::Sort { level, .. }) => holds_level(d, level.idx, l),
        (ExprTree::Const(n, us), Expr::Const { name, levels, .. }) => holds_name(d, name.idx, n)
            && holds_levels(d, levels.idx, us),
        (ExprTree::App(f, a), Expr::App { fun, arg, .. }) => holds_expr(d, fun.idx, *f)
            && holds_expr(d, arg.idx, *a),
        (
            ExprTree::Lambda(n, s, ty, b),
            Expr::Lambda { binder_name, binder_style, binder_type, body, .. },
        ) => holds_name(d, binder_name.idx, n) && s == binder_style && holds_expr(
            d,
            binder_type.idx,
            *ty,
        ) && holds_expr(d, body.idx, *b),
        (
            ExprTree::Pi(n, s, ty, b),
            Expr::Pi { binder_name, binder_style, binder_type, body, .. },
        ) => holds_name(d, binder_name.idx, n) && s == binder_style && holds_expr(
            d,
            binder_type.idx,
            *ty,
        ) && holds_expr(d, body.idx, *b),
        (
            ExprTree::Let(n, ty, v, b, flag),
            Expr::Let { binder_name, binder_type, val, body, nondep, .. },
        ) => holds_name(d, binder_name.idx, n) && holds_expr(d, binder_type.idx, *ty)
            && holds_expr(d, val.idx, *v) && holds_expr(d, body.idx, *b) && flag == nondep,
        (ExprTree::Proj(n, k, s), Expr::Proj { ty_name, idx, structure, .. }) => holds_name(
            d,
            ty_name.idx,
            n,
        ) && k == idx && holds_expr(d, structure.idx, *s),
        (ExprTree::NatLit(n), Expr::NatLit { ptr, .. }) => match d.bignums {
            Some(table) => ptr.idx < table@.len() && n == positional(table@[ptr.idx as int]),
            None => false,
        },
        (ExprTree::StringLit(s), Expr::StringLit { ptr, .. }) => ptr.idx < d.strings@.len()
            && d.strings@[ptr.idx as int] == s,
        _ => false,
    }
}

/// Law: a pointer stands for the name that its nodes hold.
pub proof fn law_name_held(d: LeanDag, p: NamePtr)
    requires
        d.wf(),
        d.has_name(p),
    ensures
        holds_name(d, p.idx, d.name(p)),
    decreases p.idx,
{
    assert(d.name_ok(p.idx as int));
    match d.names@[p.idx as int] {
        Name::Anon => {},
        Name::Str(pre, _, _) => law_name_held(d, pre),
        Name::Num(pre, _, _) => law_name_held(d, pre),
    }
}

/// Law: a pointer stands for the level that its nodes hold.
pub proof fn law_level_held(d: LeanDag, p: LevelPtr)
    requires
        d.wf(),
        d.has_level(p),
    ensures
        holds_level(d, p.idx, d.level(p)),
    decreases p.idx,
{
    assert(d.level_ok(p.idx as int));
    match d.levels@[p.idx as int] {
        Level::Zero => {},
        Level::Succ(l, _) => law_level_held(d, l),
        Level::Max(l, r, _) => {
            law_level_held(d, l);
            law_level_held(d, r);
        },
        Level::IMax(l, r, _) => {
            law_level_held(d, l);
            law_level_held(d, r);
        },
        Level::Param(n, _) => law_name_held(d, n),
    }
}

/// Law: a pointer to a list of levels stands for the levels of the list, one for one
/// and in order.
pub proof fn law_levels_held(d: LeanDag, p: LevelsPtr)
    requires
        d.wf(),
        d.has_levels(p),
    ensures
        holds_levels(d, p.idx, d.levels_at(p)),
{
    assert(d.uparams_ok(p.idx as int));
    let ls = d.uparams@[p.idx as int];
    assert forall|k: int| 0 <= k < ls.len() implies holds_level(
        d,
        ls[k].idx,
        #[trigger] d.levels_at(p)[k],
    ) by {
        assert(d.has_level(d.uparams@[p.idx as int][k]));
        law_level_held(d, ls[k]);
    }
}

/// Law: a pointer stands for the expression that its nodes hold.
pub proof fn law_expr_held(d: LeanDag, p: ExprPtr)
    requires
        d.wf(),
        d.has_expr(p),
    ensures
        holds_expr(d, p.idx, d.expr(p)),
    decreases p.idx,
{
    assert(d.expr_ok(p.idx as int));
    match d.exprs@[p.idx as int] {
        Expr::Var { .. } => {},
        Expr::Sort { level, .. } => law_level_held(d, level),
        Expr::Const { name, levels, .. } => {
            law_name_held(d, name);
            law_levels_held(d, levels);
        },
        Expr::App { fun, arg, .. } => {
            law_expr_held(d, fun);
            law_expr_held(d, arg);
        },
        Expr::Lambda { binder_name, binder_type, body, .. } => {
            law_name_held(d, binder_name);
            law_expr_held(d, binder_type);
            law_expr_held(d, body);
        },
        Expr::Pi { binder_name, binder_type, body, .. } => {
            law_name_held(d, binder_name);
            law_expr_held(d, binder_type);
            law_expr_held(d, body);
        },
        Expr::Let { binder_name, binder_type, val, body, .. } => {
            law_name_held(d, binder_name);
            law_expr_held(d, binder_type);
            law_expr_held(d, val);
            law_expr_held(d, body);
        },
        Expr::Proj { ty_name, structure, .. } => {
            law_name_held(d, ty_name);
            law_expr_held(d, structure);
        },
        Expr::NatLit { ptr, .. } => {
            crate::layout::law_bytes_are_digits(d.nums()[ptr.idx as int]);
        },
        Expr::StringLit { .. } => {},
    }
}

/// The pointers hold the names, one for one and in order.
pub open spec fn holds_names(d: LeanDag, ps: Seq<NamePtr>, ts: Seq<NameTree>) -> bool {
    ps.len() == ts.len() && forall|k: int|
        0 <= k < ts.len() ==> holds_name(d, ps[k].idx, #[trigger] ts[k])
}

/// The rules hold the rules, one for one and in order.
pub open spec fn holds_rules(d: LeanDag, rs: Seq<RecRule>, ts: Seq<RuleTree>) -> bool {
    rs.len() == ts.len() && forall|k: int|
        0 <= k < ts.len() ==> {
            &&& holds_name(d, rs[k].ctor_name.idx, (#[trigger] ts[k]).ctor_name)
            &&& rs[k].ctor_telescope_size_wo_params == ts[k].num_fields
            &&& holds_expr(d, rs[k].val.idx, ts[k].rhs)
        }
}

/// Name, universe parameters and type are those of the declaration.
pub open spec fn holds_info(d: LeanDag, i: DeclarInfo, t: DeclTree) -> bool {
    &&& holds_name(d, i.name.idx, t.name)
    &&& holds_levels(d, i.uparams.idx, t.uparams)
    &&& holds_expr(d, i.ty.idx, t.ty)
}

/// The declaration holds the declaration `t`, field by field.
pub open spec fn holds_decl(d: LeanDag, x: Declar, t: DeclTree) -> bool {
    match (x, t.body) {
        (Declar::Axiom { info }, BodyTree::Axiom) => holds_info(d, info, t),
        (Declar::Quot { info }, BodyTree::Quot) => holds_info(d, info, t),
        (Declar::Theorem { info, val }, BodyTree::Theorem { val: v }) => holds_info(d, info, t)
            && holds_expr(d, val.idx, v),
        (Declar::Definition { info, val, hint }, BodyTree::Definition { val: v, hint: g }) => {
            holds_info(d, info, t) && holds_expr(d, val.idx, v) && hint == g
        },
        (Declar::Opaque { info, val }, BodyTree::Opaque { val: v }) => holds_info(d, info, t)
            && holds_expr(d, val.idx, v),
        (
            Declar::Inductive(x),
            BodyTree::Inductive {
                is_recursive,
                is_nested,
                num_params,
                num_indices,
                all_ind_names,
                all_ctor_names,
            },
        ) => {
            &&& holds_info(d, x.info, t)
            &&& x.is_recursive == is_recursive
            &&& x.is_nested == is_nested
            &&& x.num_params == num_params
            &&& x.num_indices == num_indices
            &&& holds_names(d, x.all_ind_names@, all_ind_names)
            &&& holds_names(d, x.all_ctor_names@, all_ctor_names)
        },
        (
            Declar::Constructor(x),
            BodyTree::Constructor { inductive_name, ctor_idx, num_params, num_fields },
        ) => {
            &&& holds_info(d, x.info, t)
            &&& holds_name(d, x.inductive_name.idx, inductive_name)
            &&& x.ctor_idx == ctor_idx
            &&& x.num_params == num_params
            &&& x.num_fields == num_fields
        },
        (
            Declar::Recursor(x),
            BodyTree::Recursor {
                all_inductives,
                num_params,
                num_indices,
                num_motives,
                num_minors,
                rec_rules,
                is_k,
            },
        ) => {
            &&& holds_info(d, x.info, t)
            &&& holds_names(d, x.all_inductives@, all_inductives)
            &&& x.num_params == num_params
            &&& x.num_indices == num_indices
            &&& x.num_motives == num_motives
            &&& x.num_minors == num_minors
            &&& holds_rules(d, x.rec_rules@, rec_rules)
            &&& x.is_k == is_k
        },
        _ => false,
    }
}

proof fn lemma_names_held(d: LeanDag, ps: Seq<NamePtr>)
    requires
        d.wf(),
        crate::env::has_names(d, ps),
    ensures
        holds_names(d, ps, crate::env::names_of(d, ps)),
{
    let ts = crate::env::names_of(d, ps);
    assert forall|k: int| 0 <= k < ts.len() implies holds_name(d, ps[k].idx, #[trigger] ts[k]) by {
        assert(d.has_name(ps[k]));
        law_name_held(d, ps[k]);
    }
}

/// Law: a declaration stands for the declaration that it holds, field by field.
pub proof fn law_decl_held(d: LeanDag, x: Declar)
    requires
        d.wf(),
        x.ok(d),
    ensures
        holds_decl(d, x, x.tree(d)),
{
    let i = x.info_spec();
    law_name_held(d, i.name);
    law_levels_held(d, i.uparams);
    law_expr_held(d, i.ty);
    match x {
        Declar::Axiom { .. } => {},
        Declar::Quot { .. } => {},
        Declar::Theorem { val, .. } => law_expr_held(d, val),
        Declar::Definition { val, .. } => law_expr_held(d, val),
        Declar::Opaque { val, .. } => law_expr_held(d, val),
        Declar::Inductive(y) => {
            lemma_names_held(d, y.all_ind_names@);
            lemma_names_held(d, y.all_ctor_names@);
        },
        Declar::Constructor(y) => law_name_held(d, y.inductive_name),
        Declar::Recursor(y) => {
            lemma_names_held(d, y.all_inductives@);
            let (rs, ts) = (y.rec_rules@, crate::env::rules_of(d, y.rec_rules@));
            assert forall|k: int| 0 <= k < ts.len() implies holds_name(
                d,
                rs[k].ctor_name.idx,
                (#[trigger] ts[k]).ctor_name,
            ) && rs[k].ctor_telescope_size_wo_params == ts[k].num_fields && holds_expr(
                d,
                rs[k].val.idx,
                ts[k].rhs,
            ) by {
                assert(d.has_name(rs[k].ctor_name) && d.has_expr(rs[k].val));
                law_name_held(d, rs[k].ctor_name);
                law_expr_held(d, rs[k].val);
            }
        },
    }
}

/// Law: the entries of an environment are its declarations, one for one and in order,
/// and an inductive type has the block that is recorded under its name.
pub proof fn law_entries_held(
    d: LeanDag,
    ds: Seq<Declar>,
    blocks: Map<usize, (usize, usize)>,
    i: int,
)
    requires
        d.wf(),
        0 <= i < ds.len(),
        ds[i].ok(d),
    ensures
        entries_of(d, ds, blocks).len() == ds.len(),
        holds_decl(d, ds[i], entries_of(d, ds, blocks)[i].decl),
        match ds[i] {
            Declar::Inductive(x) => entries_of(d, ds, blocks)[i].block == Some(
                (blocks[x.info.name.idx].0 as int, blocks[x.info.name.idx].1 as int),
            ),
            _ => entries_of(d, ds, blocks)[i].block is None,
        },
{
    law_decl_held(d, ds[i]);
}

/// Law: the nodes that a table holds are the nodes that are put into it.
pub proof fn law_nodes_seen(n: Name, l: Level, e: Expr)
    ensures
        n@ == n,
        l@ == l,
        e@ == e,
{
}

} // verus!
