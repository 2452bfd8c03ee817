//! The persistent term graph: interned names, universe levels, expressions,
//! strings and big numbers. Nodes point to earlier nodes only, and no node occurs
//! twice, so equal trees have equal pointers.
use vstd::prelude::*;

use crate::bignat::le_value;
use crate::bignat::shortest;
use crate::bignat::BigNat;
use crate::env::Config;
use crate::node::Expr;
use crate::node::ExprPtr;
use crate::node::Level;
use crate::node::LevelPtr;
use crate::node::LevelsPtr;
use crate::node::Name;
use crate::node::NamePtr;
use crate::table::Table;
use crate::tree::ExprTree;
use crate::tree::LevelTree;
use crate::tree::NameTree;

verus! {

pub struct LeanDag {
    pub names: Table<Name>,
    pub levels: Table<Level>,
    /// Lists of universe levels: parameters of declarations and arguments of
    /// constants.
    pub uparams: Table<Vec<LevelPtr>>,
    pub exprs: Table<Expr>,
    pub strings: Table<String>,
    /// Present if and only if the literal extension for numbers is on.
    pub bignums: Option<Table<BigNat>>,
}

/// What the tables of a graph hold.
#[verifier::ext_equal]
pub struct Tables {
    pub names: Seq<Name>,
    pub levels: Seq<Level>,
    pub uparams: Seq<Seq<LevelPtr>>,
    pub exprs: Seq<Expr>,
    pub strings: Seq<Seq<char>>,
    pub nums: Seq<Seq<u8>>,
}

/// The values of a table after `x` was put into it.
pub open spec fn interned<A>(s: Seq<A>, x: A) -> Seq<A> {
    if s.contains(x) {
        s
    } else {
        s.push(x)
    }
}

/// The tree of the name at index `i`.
pub open spec fn name_tree(d: LeanDag, i: int) -> NameTree
    decreases i,
{
    match d.names@[i] {
        Name::Anon => NameTree::Anon,
        Name::Str(pre, sfx, _) => if pre.idx < i {
            NameTree::Str(Box::new(name_tree(d, pre.idx as int)), d.strings@[sfx.idx as int])
        } else {
            NameTree::Anon
        },
        Name::Num(pre, n, _) => if pre.idx < i {
            NameTree::Num(Box::new(name_tree(d, pre.idx as int)), n)
        } else {
            NameTree::Anon
        },
    }
}

/// The tree of the level at index `i`.
pub open spec fn level_tree(d: LeanDag, i: int) -> LevelTree
    decreases i,
{
    match d.levels@[i] {
        Level::Zero => LevelTree::Zero,
        Level::Succ(l, _) => if l.idx < i {
            LevelTree::Succ(Box::new(level_tree(d, l.idx as int)))
        } else {
            LevelTree::Zero
        },
        Level::Max(l, r, _) => if l.idx < i && r.idx < i {
            LevelTree::Max(
                Box::new(level_tree(d, l.idx as int)),
                Box::new(level_tree(d, r.idx as int)),
            )
        } else {
            LevelTree::Zero
        },
        Level::IMax(l, r, _) => if l.idx < i && r.idx < i {
            LevelTree::IMax(
                Box::new(level_tree(d, l.idx as int)),
                Box::new(level_tree(d, r.idx as int)),
            )
        } else {
            LevelTree::Zero
        },
        Level::Param(n, _) => LevelTree::Param(name_tree(d, n.idx as int)),
    }
}

/// The trees of a list of levels.
pub open spec fn level_trees(d: LeanDag, ls: Seq<LevelPtr>) -> Seq<LevelTree> {
    ls.map_values(|l: LevelPtr| level_tree(d, l.idx as int))
}

/// The tree of the expression at index `i`.
pub open spec fn expr_tree(d: LeanDag, i: int) -> ExprTree
    decreases i,
{
    match d.exprs@[i] {
        Expr::Var { dbj_idx, .. } => ExprTree::Var(dbj_idx),
        Expr::Sort { level, .. } => ExprTree::Sort(level_tree(d, level.idx as int)),
        Expr::Const { name, levels, .. } => ExprTree::Const(
            name_tree(d, name.idx as int),
            level_trees(d, d.uparams@[levels.idx as int]),
        ),
        Expr::App { fun, arg, .. } => if fun.idx < i && arg.idx < i {
            ExprTree::App(
                Box::new(expr_tree(d, fun.idx as int)),
                Box::new(expr_tree(d, arg.idx as int)),
            )
        } else {
            ExprTree::Var(0)
        },
        Expr::Lambda { binder_name, binder_style, binder_type, body, .. } => if binder_type.idx < i
            && body.idx < i {
            ExprTree::Lambda(
                name_tree(d, binder_name.idx as int),
                binder_style,
                Box::new(expr_tree(d, binder_type.idx as int)),
                Box::new(expr_tree(d, body.idx as int)),
            )
        } else {
            ExprTree::Var(0)
        },
        Expr::Pi { binder_name, binder_style, binder_type, body, .. } => if binder_type.idx < i
            && body.idx < i {
            ExprTree::Pi(
                name_tree(d, binder_name.idx as int),
                binder_style,
                Box::new(expr_tree(d, binder_type.idx as int)),
                Box::new(expr_tree(d, body.idx as int)),
            )
        } else {
            ExprTree::Var(0)
        },
        Expr::Let { binder_name, binder_type, val, body, nondep, .. } => if binder_type.idx < i
            && val.idx < i && body.idx < i {
            ExprTree::Let(
                name_tree(d, binder_name.idx as int),
                Box::new(expr_tree(d, binder_type.idx as int)),
                Box::new(expr_tree(d, val.idx as int)),
                Box::new(expr_tree(d, body.idx as int)),
                nondep,
            )
        } else {
            ExprTree::Var(0)
        },
        Expr::Proj { ty_name, idx, structure, .. } => if structure.idx < i {
            ExprTree::Proj(
                name_tree(d, ty_name.idx as int),
                idx,
                Box::new(expr_tree(d, structure.idx as int)),
            )
        } else {
            ExprTree::Var(0)
        },
        Expr::NatLit { ptr, .. } => ExprTree::NatLit(le_value(d.nums()[ptr.idx as int])),
        Expr::StringLit { ptr, .. } => ExprTree::StringLit(d.strings@[ptr.idx as int]),
    }
}

impl LeanDag {
    /// The big numbers, each as its bytes.
    pub open spec fn nums(self) -> Seq<Seq<u8>> {
        match self.bignums {
            Some(t) => t@,
            None => Seq::empty(),
        }
    }

    pub open spec fn tables(self) -> Tables {
        Tables {
            names: self.names@,
            levels: self.levels@,
            uparams: self.uparams@,
            exprs: self.exprs@,
            strings: self.strings@,
            nums: self.nums(),
        }
    }

    pub open spec fn has_name(self, p: NamePtr) -> bool {
        p.idx < self.names@.len()
    }

    pub open spec fn has_level(self, p: LevelPtr) -> bool {
        p.idx < self.levels@.len()
    }

    pub open spec fn has_levels(self, p: LevelsPtr) -> bool {
        p.idx < self.uparams@.len()
    }

    pub open spec fn has_expr(self, p: ExprPtr) -> bool {
        p.idx < self.exprs@.len()
    }

    /// The name that the pointer stands for.
    pub open spec fn name(self, p: NamePtr) -> NameTree {
        name_tree(self, p.idx as int)
    }

    /// The level that the pointer stands for.
    pub open spec fn level(self, p: LevelPtr) -> LevelTree {
        level_tree(self, p.idx as int)
    }

    /// The list of levels that the pointer stands for.
    pub open spec fn levels_at(self, p: LevelsPtr) -> Seq<LevelTree> {
        level_trees(self, self.uparams@[p.idx as int])
    }

    /// The expression that the pointer stands for.
    pub open spec fn expr(self, p: ExprPtr) -> ExprTree {
        expr_tree(self, p.idx as int)
    }

    /// The name at index `i` points to earlier names only, and is hashed.
    pub open spec fn name_ok(self, i: int) -> bool {
        let n = self.names@[i];
        &&& n.hash_ok()
        &&& match n {
            Name::Anon => true,
            Name::Str(pre, sfx, _) => pre.idx < i && sfx.idx < self.strings@.len(),
            Name::Num(pre, _, _) => pre.idx < i,
        }
    }

    /// The level at index `i` points to earlier levels only, and is hashed.
    pub open spec fn level_ok(self, i: int) -> bool {
        let l = self.levels@[i];
        &&& l.hash_ok()
        &&& match l {
            Level::Zero => true,
            Level::Succ(l, _) => l.idx < i,
            Level::Max(l, r, _) => l.idx < i && r.idx < i,
            Level::IMax(l, r, _) => l.idx < i && r.idx < i,
            Level::Param(n, _) => self.has_name(n),
        }
    }

    /// The list of levels at index `i` points to levels of this graph.
    pub open spec fn uparams_ok(self, i: int) -> bool {
        forall|k: int|
            0 <= k < self.uparams@[i].len() ==> self.has_level(#[trigger] self.uparams@[i][k])
    }

    /// The expression at index `i` points to earlier expressions only, is hashed,
    /// and the facts stored in it are those of its tree.
    pub open spec fn expr_ok(self, i: int) -> bool {
        let e = self.exprs@[i];
        &&& e.hash_ok()
        &&& e.loose_bvars() == expr_tree(self, i).loose()
        &&& !e.fvars()
        &&& match e {
            Expr::Var { .. } => true,
            Expr::Sort { level, .. } => self.has_level(level),
            Expr::Const { name, levels, .. } => self.has_name(name) && self.has_levels(levels),
            Expr::App { fun, arg, .. } => fun.idx < i && arg.idx < i,
            Expr::Lambda { binder_name, binder_type, body, .. } => self.has_name(binder_name)
                && binder_type.idx < i && body.idx < i,
            Expr::Pi { binder_name, binder_type, body, .. } => self.has_name(binder_name)
                && binder_type.idx < i && body.idx < i,
            Expr::Let { binder_name, binder_type, val, body, .. } => self.has_name(binder_name)
                && binder_type.idx < i && val.idx < i && body.idx < i,
            Expr::Proj { ty_name, structure, .. } => self.has_name(ty_name) && structure.idx < i,
            Expr::NatLit { ptr, .. } => ptr.idx < self.nums().len(),
            Expr::StringLit { ptr, .. } => ptr.idx < self.strings@.len(),
        }
    }

    /// The tables hold no value twice.
    pub open spec fn tables_wf(self) -> bool {
        &&& self.names.wf()
        &&& self.levels.wf()
        &&& self.uparams.wf()
        &&& self.exprs.wf()
        &&& self.strings.wf()
        &&& self.bignums is Some ==> self.bignums->0.wf()
    }

    /// The graph is well-formed, with the anonymous name and the level zero first.
    pub open spec fn wf(self) -> bool {
        &&& self.tables_wf()
        &&& self.names@.len() > 0 && self.names@[0] == Name::Anon
        &&& self.levels@.len() > 0 && self.levels@[0] == Level::Zero
        &&& forall|i: int| 0 <= i < self.names@.len() ==> #[trigger] self.name_ok(i)
        &&& forall|i: int| 0 <= i < self.levels@.len() ==> #[trigger] self.level_ok(i)
        &&& forall|i: int| 0 <= i < self.uparams@.len() ==> #[trigger] self.uparams_ok(i)
        &&& forall|i: int| 0 <= i < self.exprs@.len() ==> #[trigger] self.expr_ok(i)
        &&& forall|i: int| 0 <= i < self.nums().len() ==> shortest(#[trigger] self.nums()[i])
    }

    /// Every node of `self` has the same index in `later`.
    pub open spec fn prefix_of(self, later: LeanDag) -> bool {
        &&& self.names@.is_prefix_of(later.names@)
        &&& self.levels@.is_prefix_of(later.levels@)
        &&& self.uparams@.is_prefix_of(later.uparams@)
        &&& self.exprs@.is_prefix_of(later.exprs@)
        &&& self.strings@.is_prefix_of(later.strings@)
        &&& self.nums().is_prefix_of(later.nums())
        &&& self.bignums is Some == later.bignums is Some
    }

    /// Every pointer of `self` is a pointer of `later`, and stands for the same
    /// tree there.
    pub open spec fn kept_in(self, later: LeanDag) -> bool {
        &&& self.bignums is Some == later.bignums is Some
        &&& forall|p: NamePtr| self.has_name(p) ==> #[trigger] later.has_name(p)
        &&& forall|p: LevelPtr| self.has_level(p) ==> #[trigger] later.has_level(p)
        &&& forall|p: LevelsPtr| self.has_levels(p) ==> #[trigger] later.has_levels(p)
        &&& forall|p: ExprPtr| self.has_expr(p) ==> #[trigger] later.has_expr(p)
        &&& forall|p: NamePtr| self.has_name(p) ==> #[trigger] later.name(p) == self.name(p)
        &&& forall|p: LevelPtr| self.has_level(p) ==> #[trigger] later.level(p) == self.level(p)
        &&& forall|p: LevelsPtr|
            self.has_levels(p) ==> #[trigger] later.levels_at(p) == self.levels_at(p)
        &&& forall|p: ExprPtr| self.has_expr(p) ==> #[trigger] later.expr(p) == self.expr(p)
    }

    /// A graph that holds the anonymous name and the level zero.
    pub fn new(config: &Config) -> (d: LeanDag)
        ensures
            d.wf(),
            d.names@ == seq![Name::Anon],
            d.levels@ == seq![Level::Zero],
            d.uparams@ == Seq::<Seq<LevelPtr>>::empty(),
            d.exprs@ == Seq::<Expr>::empty(),
            d.strings@ == Seq::<Seq<char>>::empty(),
            d.nums() == Seq::<Seq<u8>>::empty(),
            d.bignums is Some == config.nat_extension,
    {
        let mut names: Table<Name> = Table::new();
        let mut levels: Table<Level> = Table::new();
        names.insert_full(Name::Anon);
        levels.insert_full(Level::Zero);
        let bignums: Option<Table<BigNat>> = if config.nat_extension {
            Some(Table::new())
        } else {
            None
        };
        let d = LeanDag {
            names,
            levels,
            uparams: Table::new(),
            exprs: Table::new(),
            strings: Table::new(),
            bignums,
        };
        assert(d.names@ =~= seq![Name::Anon]);
        assert(d.levels@ =~= seq![Level::Zero]);
        assert(d.name_ok(0));
        assert(d.level_ok(0));
        d
    }
}

proof fn lemma_name_prefix(d: LeanDag, e: LeanDag, i: int)
    requires
        d.wf(),
        d.prefix_of(e),
        0 <= i < d.names@.len(),
    ensures
        name_tree(e, i) == name_tree(d, i),
    decreases i,
{
    assert(d.name_ok(i));
    match d.names@[i] {
        Name::Anon => {},
        Name::Str(pre, sfx, _) => {
            lemma_name_prefix(d, e, pre.idx as int);
        },
        Name::Num(pre, n, _) => {
            lemma_name_prefix(d, e, pre.idx as int);
        },
    }
}

proof fn lemma_level_prefix(d: LeanDag, e: LeanDag, i: int)
    requires
        d.wf(),
        d.prefix_of(e),
        0 <= i < d.levels@.len(),
    ensures
        level_tree(e, i) == level_tree(d, i),
    decreases i,
{
    assert(d.level_ok(i));
    match d.levels@[i] {
        Level::Zero => {},
        Level::Succ(l, _) => {
            lemma_level_prefix(d, e, l.idx as int);
        },
        Level::Max(l, r, _) => {
            lemma_level_prefix(d, e, l.idx as int);
            lemma_level_prefix(d, e, r.idx as int);
        },
        Level::IMax(l, r, _) => {
            lemma_level_prefix(d, e, l.idx as int);
            lemma_level_prefix(d, e, r.idx as int);
        },
        Level::Param(n, _) => {
            lemma_name_prefix(d, e, n.idx as int);
        },
    }
}

proof fn lemma_levels_prefix(d: LeanDag, e: LeanDag, i: int)
    requires
        d.wf(),
        d.prefix_of(e),
        0 <= i < d.uparams@.len(),
    ensures
        level_trees(e, e.uparams@[i]) == level_trees(d, d.uparams@[i]),
{
    let ls = d.uparams@[i];
    assert(d.uparams_ok(i));
    assert(e.uparams@[i] == ls);
    assert forall|k: int| 0 <= k < ls.len() implies level_trees(e, ls)[k] == level_trees(
        d,
        ls,
    )[k] by {
        assert(d.has_level(d.uparams@[i][k]));
        lemma_level_prefix(d, e, ls[k].idx as int);
    }
    assert(level_trees(e, ls) =~= level_trees(d, ls));
}

proof fn lemma_expr_prefix(d: LeanDag, e: LeanDag, i: int)
    requires
        d.wf(),
        d.prefix_of(e),
        0 <= i < d.exprs@.len(),
    ensures
        expr_tree(e, i) == expr_tree(d, i),
    decreases i,
{
    assert(d.expr_ok(i));
    assert(e.exprs@[i] == d.exprs@[i]);
    match d.exprs@[i] {
        Expr::Var { .. } => {},
        Expr::Sort { level, .. } => {
            lemma_level_prefix(d, e, level.idx as int);
        },
        Expr::Const { name, levels, .. } => {
            lemma_name_prefix(d, e, name.idx as int);
            lemma_levels_prefix(d, e, levels.idx as int);
        },
        Expr::App { fun, arg, .. } => {
            lemma_expr_prefix(d, e, fun.idx as int);
            lemma_expr_prefix(d, e, arg.idx as int);
        },
        Expr::Lambda { binder_name, binder_type, body, .. } => {
            lemma_name_prefix(d, e, binder_name.idx as int);
            lemma_expr_prefix(d, e, binder_type.idx as int);
            lemma_expr_prefix(d, e, body.idx as int);
        },
        Expr::Pi { binder_name, binder_type, body, .. } => {
            lemma_name_prefix(d, e, binder_name.idx as int);
            lemma_expr_prefix(d, e, binder_type.idx as int);
            lemma_expr_prefix(d, e, body.idx as int);
        },
        Expr::Let { binder_name, binder_type, val, body, .. } => {
            lemma_name_prefix(d, e, binder_name.idx as int);
            lemma_expr_prefix(d, e, binder_type.idx as int);
            lemma_expr_prefix(d, e, val.idx as int);
            lemma_expr_prefix(d, e, body.idx as int);
        },
        Expr::Proj { ty_name, structure, .. } => {
            lemma_name_prefix(d, e, ty_name.idx as int);
            lemma_expr_prefix(d, e, structure.idx as int);
        },
        Expr::NatLit { ptr, .. } => {
            assert(e.nums()[ptr.idx as int] == d.nums()[ptr.idx as int]);
        },
        Expr::StringLit { ptr, .. } => {
            assert(e.strings@[ptr.idx as int] == d.strings@[ptr.idx as int]);
        },
    }
}

/// A graph that only grows keeps what its pointers stand for, and keeps the nodes
/// that it had well-formed.
pub proof fn lemma_prefix_keeps(d: LeanDag, e: LeanDag)
    requires
        d.wf(),
        d.prefix_of(e),
    ensures
        d.kept_in(e),
        forall|i: int| 0 <= i < d.names@.len() ==> #[trigger] e.name_ok(i),
        forall|i: int| 0 <= i < d.levels@.len() ==> #[trigger] e.level_ok(i),
        forall|i: int| 0 <= i < d.uparams@.len() ==> #[trigger] e.uparams_ok(i),
        forall|i: int| 0 <= i < d.exprs@.len() ==> #[trigger] e.expr_ok(i),
        forall|i: int| 0 <= i < d.nums().len() ==> shortest(#[trigger] e.nums()[i]),
{
    assert forall|p: NamePtr| d.has_name(p) implies #[trigger] e.name(p) == d.name(p) by {
        lemma_name_prefix(d, e, p.idx as int);
    }
    assert forall|p: LevelPtr| d.has_level(p) implies #[trigger] e.level(p) == d.level(p) by {
        lemma_level_prefix(d, e, p.idx as int);
    }
    assert forall|p: LevelsPtr| d.has_levels(p) implies #[trigger] e.levels_at(p) == d.levels_at(
        p,
    ) by {
        lemma_levels_prefix(d, e, p.idx as int);
    }
    assert forall|p: ExprPtr| d.has_expr(p) implies #[trigger] e.expr(p) == d.expr(p) by {
        lemma_expr_prefix(d, e, p.idx as int);
    }
    assert forall|i: int| 0 <= i < d.names@.len() implies #[trigger] e.name_ok(i) by {
        assert(d.name_ok(i));
    }
    assert forall|i: int| 0 <= i < d.levels@.len() implies #[trigger] e.level_ok(i) by {
        assert(d.level_ok(i));
    }
    assert forall|i: int| 0 <= i < d.uparams@.len() implies #[trigger] e.uparams_ok(i) by {
        assert(d.uparams_ok(i));
        assert(e.uparams@[i] == d.uparams@[i]);
        assert forall|k: int| 0 <= k < e.uparams@[i].len() implies e.has_level(
            #[trigger] e.uparams@[i][k],
        ) by {
            assert(d.has_level(d.uparams@[i][k]));
        }
    }
    assert forall|i: int| 0 <= i < d.exprs@.len() implies #[trigger] e.expr_ok(i) by {
        assert(d.expr_ok(i));
        lemma_expr_prefix(d, e, i);
    }
    assert forall|i: int| 0 <= i < d.nums().len() implies shortest(#[trigger] e.nums()[i]) by {
        assert(e.nums()[i] == d.nums()[i]);
    }
}

/// The tree of a name node whose pointers are pointers of the graph.
pub open spec fn name_shape(d: LeanDag, n: Name) -> NameTree {
    match n {
        Name::Anon => NameTree::Anon,
        Name::Str(pre, sfx, _) => NameTree::Str(
            Box::new(d.name(pre)),
            d.strings@[sfx.idx as int],
        ),
        Name::Num(pre, k, _) => NameTree::Num(Box::new(d.name(pre)), k),
    }
}

/// A name node that the graph can take.
pub open spec fn name_fits(d: LeanDag, n: Name) -> bool {
    &&& n.hash_ok()
    &&& match n {
        Name::Anon => true,
        Name::Str(pre, sfx, _) => d.has_name(pre) && sfx.idx < d.strings@.len(),
        Name::Num(pre, _, _) => d.has_name(pre),
    }
}

/// The tree of a level node whose pointers are pointers of the graph.
pub open spec fn level_shape(d: LeanDag, l: Level) -> LevelTree {
    match l {
        Level::Zero => LevelTree::Zero,
        Level::Succ(a, _) => LevelTree::Succ(Box::new(d.level(a))),
        Level::Max(a, b, _) => LevelTree::Max(Box::new(d.level(a)), Box::new(d.level(b))),
        Level::IMax(a, b, _) => LevelTree::IMax(Box::new(d.level(a)), Box::new(d.level(b))),
        Level::Param(n, _) => LevelTree::Param(d.name(n)),
    }
}

/// A level node that the graph can take.
pub open spec fn level_fits(d: LeanDag, l: Level) -> bool {
    &&& l.hash_ok()
    &&& match l {
        Level::Zero => true,
        Level::Succ(a, _) => d.has_level(a),
        Level::Max(a, b, _) => d.has_level(a) && d.has_level(b),
        Level::IMax(a, b, _) => d.has_level(a) && d.has_level(b),
        Level::Param(n, _) => d.has_name(n),
    }
}

/// The tree of an expression node whose pointers are pointers of the graph.
pub open spec fn expr_shape(d: LeanDag, e: Expr) -> ExprTree {
    match e {
        Expr::Var { dbj_idx, .. } => ExprTree::Var(dbj_idx),
        Expr::Sort { level, .. } => ExprTree::Sort(d.level(level)),
        Expr::Const { name, levels, .. } => ExprTree::Const(d.name(name), d.levels_at(levels)),
        Expr::App { fun, arg, .. } => ExprTree::App(Box::new(d.expr(fun)), Box::new(d.expr(arg))),
        Expr::Lambda { binder_name, binder_style, binder_type, body, .. } => ExprTree::Lambda(
            d.name(binder_name),
            binder_style,
            Box::new(d.expr(binder_type)),
            Box::new(d.expr(body)),
        ),
        Expr::Pi { binder_name, binder_style, binder_type, body, .. } => ExprTree::Pi(
            d.name(binder_name),
            binder_style,
            Box::new(d.expr(binder_type)),
            Box::new(d.expr(body)),
        ),
        Expr::Let { binder_name, binder_type, val, body, nondep, .. } => ExprTree::Let(
            d.name(binder_name),
            Box::new(d.expr(binder_type)),
            Box::new(d.expr(val)),
            Box::new(d.expr(body)),
            nondep,
        ),
        Expr::Proj { ty_name, idx, structure, .. } => ExprTree::Proj(
            d.name(ty_name),
            idx,
            Box::new(d.expr(structure)),
        ),
        Expr::NatLit { ptr, .. } => ExprTree::NatLit(le_value(d.nums()[ptr.idx as int])),
        Expr::StringLit { ptr, .. } => ExprTree::StringLit(d.strings@[ptr.idx as int]),
    }
}

/// An expression node that the graph can take.
pub open spec fn expr_fits(d: LeanDag, e: Expr) -> bool {
    &&& e.hash_ok()
    &&& e.loose_bvars() == expr_shape(d, e).loose()
    &&& !e.fvars()
    &&& match e {
        Expr::Var { .. } => true,
        Expr::Sort { level, .. } => d.has_level(level),
        Expr::Const { name, levels, .. } => d.has_name(name) && d.has_levels(levels),
        Expr::App { fun, arg, .. } => d.has_expr(fun) && d.has_expr(arg),
        Expr::Lambda { binder_name, binder_type, body, .. } => d.has_name(binder_name)
            && d.has_expr(binder_type) && d.has_expr(body),
        Expr::Pi { binder_name, binder_type, body, .. } => d.has_name(binder_name) && d.has_expr(
            binder_type,
        ) && d.has_expr(body),
        Expr::Let { binder_name, binder_type, val, body, .. } => d.has_name(binder_name)
            && d.has_expr(binder_type) && d.has_expr(val) && d.has_expr(body),
        Expr::Proj { ty_name, structure, .. } => d.has_name(ty_name) && d.has_expr(structure),
        Expr::NatLit { ptr, .. } => ptr.idx < d.nums().len(),
        Expr::StringLit { ptr, .. } => ptr.idx < d.strings@.len(),
    }
}

/// `after` is `before`, or `before` with one more value at its end.
pub open spec fn one_more<A>(before: Seq<A>, after: Seq<A>) -> bool {
    after == before || (after.len() == before.len() + 1 && before.is_prefix_of(after))
}

pub(crate) proof fn lemma_name_added(d: LeanDag, e: LeanDag, n: Name, i: usize)
    requires
        d.wf(),
        e.tables_wf(),
        one_more(d.names@, e.names@),
        e == (LeanDag { names: e.names, ..d }),
        i < e.names@.len(),
        e.names@[i as int] == n,
        e.names@.len() > d.names@.len() ==> i == d.names@.len(),
        name_fits(d, n),
    ensures
        e.wf(),
        d.kept_in(e),
        e.has_name(NamePtr { idx: i }),
        e.name(NamePtr { idx: i }) == name_shape(d, n),
{
    lemma_prefix_keeps(d, e);
    if i < d.names@.len() {
        assert(d.name_ok(i as int));
        assert(d.names@[i as int] == n);
    } else {
        assert(e.name_ok(i as int));
    }
    match n {
        Name::Str(pre, _, _) => {
            assert(e.name(pre) == d.name(pre));
        },
        Name::Num(pre, _, _) => {
            assert(e.name(pre) == d.name(pre));
        },
        _ => {},
    }
    assert(e.name(NamePtr { idx: i }) == name_shape(d, n));
}

pub(crate) proof fn lemma_level_added(d: LeanDag, e: LeanDag, l: Level, i: usize)
    requires
        d.wf(),
        e.tables_wf(),
        one_more(d.levels@, e.levels@),
        e == (LeanDag { levels: e.levels, ..d }),
        i < e.levels@.len(),
        e.levels@[i as int] == l,
        e.levels@.len() > d.levels@.len() ==> i == d.levels@.len(),
        level_fits(d, l),
    ensures
        e.wf(),
        d.kept_in(e),
        e.has_level(LevelPtr { idx: i }),
        e.level(LevelPtr { idx: i }) == level_shape(d, l),
{
    lemma_prefix_keeps(d, e);
    if i < d.levels@.len() {
        assert(d.level_ok(i as int));
        assert(d.levels@[i as int] == l);
    } else {
        assert(e.level_ok(i as int));
    }
    match l {
        Level::Param(n, _) => {
            assert(e.name(n) == d.name(n));
        },
        Level::Succ(a, _) => {
            assert(e.level(a) == d.level(a));
        },
        Level::Max(a, b, _) => {
            assert(e.level(a) == d.level(a) && e.level(b) == d.level(b));
        },
        Level::IMax(a, b, _) => {
            assert(e.level(a) == d.level(a) && e.level(b) == d.level(b));
        },
        _ => {},
    }
    assert(e.level(LevelPtr { idx: i }) == level_shape(d, l));
}

pub(crate) proof fn lemma_levels_added(d: LeanDag, e: LeanDag, ls: Seq<LevelPtr>, i: usize)
    requires
        d.wf(),
        e.tables_wf(),
        one_more(d.uparams@, e.uparams@),
        e == (LeanDag { uparams: e.uparams, ..d }),
        i < e.uparams@.len(),
        e.uparams@[i as int] == ls,
        e.uparams@.len() > d.uparams@.len() ==> i == d.uparams@.len(),
        forall|k: int| 0 <= k < ls.len() ==> d.has_level(#[trigger] ls[k]),
    ensures
        e.wf(),
        d.kept_in(e),
        e.has_levels(LevelsPtr { idx: i }),
        e.levels_at(LevelsPtr { idx: i }) == level_trees(d, ls),
{
    lemma_prefix_keeps(d, e);
    assert(e.uparams_ok(i as int)) by {
        assert forall|k: int| 0 <= k < e.uparams@[i as int].len() implies e.has_level(
            #[trigger] e.uparams@[i as int][k],
        ) by {
            assert(d.has_level(ls[k]));
        }
    }
    assert(level_trees(e, ls) =~= level_trees(d, ls)) by {
        assert forall|k: int| 0 <= k < ls.len() implies level_trees(e, ls)[k] == level_trees(
            d,
            ls,
        )[k] by {
            assert(d.has_level(ls[k]));
            assert(e.level(ls[k]) == d.level(ls[k]));
        }
    }
}

pub(crate) proof fn lemma_string_added(d: LeanDag, e: LeanDag)
    requires
        d.wf(),
        e.tables_wf(),
        one_more(d.strings@, e.strings@),
        e == (LeanDag { strings: e.strings, ..d }),
    ensures
        e.wf(),
        d.kept_in(e),
{
    lemma_prefix_keeps(d, e);
}

pub(crate) proof fn lemma_num_added(d: LeanDag, e: LeanDag, i: usize)
    requires
        d.wf(),
        e.tables_wf(),
        d.bignums is Some,
        e.bignums is Some,
        one_more(d.nums(), e.nums()),
        e == (LeanDag { bignums: e.bignums, ..d }),
        i < e.nums().len(),
        shortest(e.nums()[i as int]),
        e.nums().len() > d.nums().len() ==> i == d.nums().len(),
    ensures
        e.wf(),
        d.kept_in(e),
{
    lemma_prefix_keeps(d, e);
}

/// The expression pointers of a node lie before index `i`.
spec fn points_before(x: Expr, i: int) -> bool {
    match x {
        Expr::App { fun, arg, .. } => fun.idx < i && arg.idx < i,
        Expr::Lambda { binder_type, body, .. } => binder_type.idx < i && body.idx < i,
        Expr::Pi { binder_type, body, .. } => binder_type.idx < i && body.idx < i,
        Expr::Let { binder_type, val, body, .. } => binder_type.idx < i && val.idx < i && body.idx
            < i,
        Expr::Proj { structure, .. } => structure.idx < i,
        _ => true,
    }
}

proof fn lemma_expr_at(d: LeanDag, e: LeanDag, x: Expr, i: int)
    requires
        d.kept_in(e),
        expr_fits(d, x),
        points_before(x, i),
        e.exprs@[i] == x,
        e.strings@ == d.strings@,
        e.nums() == d.nums(),
    ensures
        expr_tree(e, i) == expr_shape(d, x),
{
    match x {
        Expr::Sort { level, .. } => {
            assert(e.level(level) == d.level(level));
        },
        Expr::Const { name, levels, .. } => {
            assert(e.name(name) == d.name(name));
            assert(e.levels_at(levels) == d.levels_at(levels));
        },
        Expr::App { fun, arg, .. } => {
            assert(e.expr(fun) == d.expr(fun));
            assert(e.expr(arg) == d.expr(arg));
        },
        Expr::Lambda { binder_name, binder_type, body, .. } => {
            assert(e.name(binder_name) == d.name(binder_name));
            assert(e.expr(binder_type) == d.expr(binder_type));
            assert(e.expr(body) == d.expr(body));
        },
        Expr::Pi { binder_name, binder_type, body, .. } => {
            assert(e.name(binder_name) == d.name(binder_name));
            assert(e.expr(binder_type) == d.expr(binder_type));
            assert(e.expr(body) == d.expr(body));
        },
        Expr::Let { binder_name, binder_type, val, body, .. } => {
            assert(e.name(binder_name) == d.name(binder_name));
            assert(e.expr(binder_type) == d.expr(binder_type));
            assert(e.expr(val) == d.expr(val));
            assert(e.expr(body) == d.expr(body));
        },
        Expr::Proj { ty_name, structure, .. } => {
            assert(e.name(ty_name) == d.name(ty_name));
            assert(e.expr(structure) == d.expr(structure));
        },
        _ => {},
    }
}

pub(crate) proof fn lemma_expr_added(d: LeanDag, e: LeanDag, x: Expr, i: usize)
    requires
        d.wf(),
        e.tables_wf(),
        one_more(d.exprs@, e.exprs@),
        e == (LeanDag { exprs: e.exprs, ..d }),
        i < e.exprs@.len(),
        e.exprs@[i as int] == x,
        e.exprs@.len() > d.exprs@.len() ==> i == d.exprs@.len(),
        expr_fits(d, x),
    ensures
        e.wf(),
        d.kept_in(e),
        e.has_expr(ExprPtr { idx: i }),
        e.expr(ExprPtr { idx: i }) == expr_shape(d, x),
{
    lemma_prefix_keeps(d, e);
    if i < d.exprs@.len() {
        assert(d.expr_ok(i as int));
        assert(d.exprs@[i as int] == x);
    }
    assert(points_before(x, i as int));
    lemma_expr_at(d, e, x, i as int);
    assert(e.expr_ok(i as int));
}

/// Law: equal names have equal pointers.
pub proof fn law_equal_names_share(d: LeanDag, a: NamePtr, b: NamePtr)
    requires
        d.wf(),
        d.has_name(a),
        d.has_name(b),
        d.name(a) == d.name(b),
    ensures
        a == b,
    decreases a.idx,
{
    d.names.distinct();
    d.strings.distinct();
    assert(d.name_ok(a.idx as int));
    assert(d.name_ok(b.idx as int));
    match (d.names@[a.idx as int], d.names@[b.idx as int]) {
        (Name::Str(p, _, _), Name::Str(q, _, _)) => {
            law_equal_names_share(d, p, q);
        },
        (Name::Num(p, _, _), Name::Num(q, _, _)) => {
            law_equal_names_share(d, p, q);
        },
        _ => {},
    }
    assert(d.names@[a.idx as int] == d.names@[b.idx as int]);
}

/// Law: equal universe levels have equal pointers.
pub proof fn law_equal_levels_share(d: LeanDag, a: LevelPtr, b: LevelPtr)
    requires
        d.wf(),
        d.has_level(a),
        d.has_level(b),
        d.level(a) == d.level(b),
    ensures
        a == b,
    decreases a.idx,
{
    d.levels.distinct();
    assert(d.level_ok(a.idx as int));
    assert(d.level_ok(b.idx as int));
    match (d.levels@[a.idx as int], d.levels@[b.idx as int]) {
        (Level::Succ(p, _), Level::Succ(q, _)) => {
            law_equal_levels_share(d, p, q);
        },
        (Level::Max(p, p2, _), Level::Max(q, q2, _)) => {
            law_equal_levels_share(d, p, q);
            law_equal_levels_share(d, p2, q2);
        },
        (Level::IMax(p, p2, _), Level::IMax(q, q2, _)) => {
            law_equal_levels_share(d, p, q);
            law_equal_levels_share(d, p2, q2);
        },
        (Level::Param(p, _), Level::Param(q, _)) => {
            law_equal_names_share(d, p, q);
        },
        _ => {},
    }
    assert(d.levels@[a.idx as int] == d.levels@[b.idx as int]);
}

/// Law: equal lists of universe levels have equal pointers.
pub proof fn law_equal_level_lists_share(d: LeanDag, a: LevelsPtr, b: LevelsPtr)
    requires
        d.wf(),
        d.has_levels(a),
        d.has_levels(b),
        d.levels_at(a) == d.levels_at(b),
    ensures
        a == b,
{
    d.uparams.distinct();
    assert(d.uparams_ok(a.idx as int));
    assert(d.uparams_ok(b.idx as int));
    let (la, lb) = (d.uparams@[a.idx as int], d.uparams@[b.idx as int]);
    assert(la.len() == d.levels_at(a).len());
    assert(lb.len() == d.levels_at(b).len());
    assert forall|k: int| 0 <= k < la.len() implies la[k] == lb[k] by {
        assert(d.has_level(d.uparams@[a.idx as int][k]));
        assert(d.has_level(d.uparams@[b.idx as int][k]));
        assert(d.levels_at(a)[k] == d.level(la[k]));
        assert(d.levels_at(b)[k] == d.level(lb[k]));
        law_equal_levels_share(d, la[k], lb[k]);
    }
    assert(la =~= lb);
}

/// Law: equal expressions have equal pointers.
pub proof fn law_equal_exprs_share(d: LeanDag, a: ExprPtr, b: ExprPtr)
    requires
        d.wf(),
        d.has_expr(a),
        d.has_expr(b),
        d.expr(a) == d.expr(b),
    ensures
        a == b,
    decreases a.idx,
{
    d.exprs.distinct();
    d.strings.distinct();
    assert(d.expr_ok(a.idx as int));
    assert(d.expr_ok(b.idx as int));
    match (d.exprs@[a.idx as int], d.exprs@[b.idx as int]) {
        (Expr::Sort { level: p, .. }, Expr::Sort { level: q, .. }) => {
            law_equal_levels_share(d, p, q);
        },
        (
            Expr::Const { name: p, levels: p2, .. },
            Expr::Const { name: q, levels: q2, .. },
        ) => {
            law_equal_names_share(d, p, q);
            law_equal_level_lists_share(d, p2, q2);
        },
        (Expr::App { fun: p, arg: p2, .. }, Expr::App { fun: q, arg: q2, .. }) => {
            law_equal_exprs_share(d, p, q);
            law_equal_exprs_share(d, p2, q2);
        },
        (
            Expr::Lambda { binder_name: n, binder_type: p, body: p2, .. },
            Expr::Lambda { binder_name: m, binder_type: q, body: q2, .. },
        ) => {
            law_equal_names_share(d, n, m);
            law_equal_exprs_share(d, p, q);
            law_equal_exprs_share(d, p2, q2);
        },
        (
            Expr::Pi { binder_name: n, binder_type: p, body: p2, .. },
            Expr::Pi { binder_name: m, binder_type: q, body: q2, .. },
        ) => {
            law_equal_names_share(d, n, m);
            law_equal_exprs_share(d, p, q);
            law_equal_exprs_share(d, p2, q2);
        },
        (
            Expr::Let { binder_name: n, binder_type: p, val: p2, body: p3, .. },
            Expr::Let { binder_name: m, binder_type: q, val: q2, body: q3, .. },
        ) => {
            law_equal_names_share(d, n, m);
            law_equal_exprs_share(d, p, q);
            law_equal_exprs_share(d, p2, q2);
            law_equal_exprs_share(d, p3, q3);
        },
        (
            Expr::Proj { ty_name: n, structure: p, .. },
            Expr::Proj { ty_name: m, structure: q, .. },
        ) => {
            law_equal_names_share(d, n, m);
            law_equal_exprs_share(d, p, q);
        },
        (Expr::NatLit { ptr: p, .. }, Expr::NatLit { ptr: q, .. }) => {
            d.bignums->0.distinct();
            crate::bignat::law_one_form(d.nums()[p.idx as int], d.nums()[q.idx as int]);
        },
        _ => {},
    }
    assert(d.exprs@[a.idx as int] == d.exprs@[b.idx as int]);
}

} // verus!
