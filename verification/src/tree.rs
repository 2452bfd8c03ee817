//! What names, universe levels, expressions and declarations are, as plain
//! mathematical trees. The contracts of the library speak of these.
use vstd::prelude::*;

use crate::node::BinderStyle;
use crate::node::ReducibilityHint;

verus! {

/// A hierarchical name.
pub enum NameTree {
    Anon,
    Str(Box<NameTree>, Seq<char>),
    Num(Box<NameTree>, u64),
}

/// A universe level.
pub enum LevelTree {
    Zero,
    Succ(Box<LevelTree>),
    Max(Box<LevelTree>, Box<LevelTree>),
    IMax(Box<LevelTree>, Box<LevelTree>),
    Param(NameTree),
}

/// An expression, with bound variables as de Bruijn indices.
pub enum ExprTree {
    Var(u16),
    Sort(LevelTree),
    Const(NameTree, Seq<LevelTree>),
    App(Box<ExprTree>, Box<ExprTree>),
    Lambda(NameTree, BinderStyle, Box<ExprTree>, Box<ExprTree>),
    Pi(NameTree, BinderStyle, Box<ExprTree>, Box<ExprTree>),
    /// Name, type, value, body, and whether the body's type ignores the value.
    Let(NameTree, Box<ExprTree>, Box<ExprTree>, Box<ExprTree>, bool),
    Proj(NameTree, usize, Box<ExprTree>),
    NatLit(nat),
    StringLit(Seq<char>),
}

pub open spec fn larger(a: nat, b: nat) -> nat {
    if a < b {
        b
    } else {
        a
    }
}

/// `a - 1`, but not below zero.
pub open spec fn pred(a: nat) -> nat {
    if a == 0 {
        0
    } else {
        (a - 1) as nat
    }
}

impl ExprTree {
    /// One more than the largest index of a bound variable that no binder of the
    /// expression binds, seen from the root; zero where there is none.
    pub open spec fn loose(self) -> nat
        decreases self,
    {
        match self {
            ExprTree::Var(i) => i as nat + 1,
            ExprTree::App(f, a) => larger(f.loose(), a.loose()),
            ExprTree::Lambda(_, _, ty, body) => larger(ty.loose(), pred(body.loose())),
            ExprTree::Pi(_, _, ty, body) => larger(ty.loose(), pred(body.loose())),
            ExprTree::Let(_, ty, val, body, _) => larger(
                ty.loose(),
                larger(val.loose(), pred(body.loose())),
            ),
            ExprTree::Proj(_, _, s) => s.loose(),
            _ => 0,
        }
    }

    /// Whether a bound variable occurs that points past all its binders in the
    /// expression and `depth` more: one that is loose with an index of at least
    /// `depth`.
    pub open spec fn points_past(self, depth: nat) -> bool
        decreases self,
    {
        match self {
            ExprTree::Var(i) => i >= depth,
            ExprTree::App(f, a) => f.points_past(depth) || a.points_past(depth),
            ExprTree::Lambda(_, _, ty, body) => ty.points_past(depth) || body.points_past(
                depth + 1,
            ),
            ExprTree::Pi(_, _, ty, body) => ty.points_past(depth) || body.points_past(depth + 1),
            ExprTree::Let(_, ty, val, body, _) => ty.points_past(depth) || val.points_past(depth)
                || body.points_past(depth + 1),
            ExprTree::Proj(_, _, s) => s.points_past(depth),
            _ => false,
        }
    }
}

/// Law: `loose` bounds the loose bound variables tightly. A loose one with an index
/// of at least `depth` occurs if and only if `loose` is above `depth`; in
/// particular none occurs if and only if `loose` is zero.
pub proof fn law_loose_is_tight(t: ExprTree, depth: nat)
    ensures
        t.points_past(depth) <==> t.loose() > depth,
    decreases t,
{
    match t {
        ExprTree::App(f, a) => {
            law_loose_is_tight(*f, depth);
            law_loose_is_tight(*a, depth);
        },
        ExprTree::Lambda(_, _, ty, body) => {
            law_loose_is_tight(*ty, depth);
            law_loose_is_tight(*body, depth + 1);
        },
        ExprTree::Pi(_, _, ty, body) => {
            law_loose_is_tight(*ty, depth);
            law_loose_is_tight(*body, depth + 1);
        },
        ExprTree::Let(_, ty, val, body, _) => {
            law_loose_is_tight(*ty, depth);
            law_loose_is_tight(*val, depth);
            law_loose_is_tight(*body, depth + 1);
        },
        ExprTree::Proj(_, _, s) => {
            law_loose_is_tight(*s, depth);
        },
        _ => {},
    }
}

/// One computation rule of a recursor.
pub struct RuleTree {
    pub ctor_name: NameTree,
    pub num_fields: u16,
    pub rhs: ExprTree,
}

/// What a declaration holds besides its name, universe parameters and type.
pub enum BodyTree {
    Axiom,
    Quot,
    Theorem { val: ExprTree },
    Definition { val: ExprTree, hint: ReducibilityHint },
    Opaque { val: ExprTree },
    Inductive {
        is_recursive: bool,
        is_nested: bool,
        num_params: u16,
        num_indices: u16,
        all_ind_names: Seq<NameTree>,
        all_ctor_names: Seq<NameTree>,
    },
    Constructor { inductive_name: NameTree, ctor_idx: u16, num_params: u16, num_fields: u16 },
    Recursor {
        all_inductives: Seq<NameTree>,
        num_params: u16,
        num_indices: u16,
        num_motives: u16,
        num_minors: u16,
        rec_rules: Seq<RuleTree>,
        is_k: bool,
    },
}

/// A declaration.
pub struct DeclTree {
    pub name: NameTree,
    pub uparams: Seq<LevelTree>,
    pub ty: ExprTree,
    pub body: BodyTree,
}

} // verus!
