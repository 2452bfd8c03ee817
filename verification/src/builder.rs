//! Builds the term graph and the declarations of an environment, piece by piece.
//!
//! A producer interns names, levels and expressions, threads the pointers that it
//! gets back into larger terms, and submits declarations. A pointer is valid for the
//! builder that made it only.
use std::collections::HashMap;
use vstd::prelude::*;

use crate::bignat::BigNat;
use crate::dag::expr_fits;
use crate::dag::expr_shape;
use crate::dag::interned;
use crate::dag::level_fits;
use crate::dag::level_shape;
use crate::dag::level_trees;
use crate::dag::name_fits;
use crate::dag::name_shape;
use crate::dag::LeanDag;
use crate::dag::Tables;
use crate::env::blocks_ok;
use crate::env::declares;
use crate::env::has_names;
use crate::env::has_rules;
use crate::env::is_block;
use crate::env::rank;
use crate::env::Config;
use crate::env::ConstructorData;
use crate::env::Declar;
use crate::env::DeclarInfo;
use crate::env::DeclarMap;
use crate::env::ExportFile;
use crate::env::InductiveData;
use crate::env::RecRule;
use crate::env::RecursorData;
use crate::node::hash1;
use crate::node::hash2;
use crate::node::hash3;
use crate::node::hash4;
use crate::node::hash5;
use crate::node::word_of_bool;
use crate::node::BigUintPtr;
use crate::node::BinderStyle;
use crate::node::Expr;
use crate::node::ExprPtr;
use crate::node::Level;
use crate::node::LevelPtr;
use crate::node::LevelsPtr;
use crate::node::Name;
use crate::node::NamePtr;
use crate::node::ReducibilityHint;
use crate::node::StringPtr;
use crate::node::APP_HASH;
use crate::node::CONST_HASH;
use crate::node::IMAX_HASH;
use crate::node::LAMBDA_HASH;
use crate::node::LET_HASH;
use crate::node::MAX_HASH;
use crate::node::NAT_LIT_HASH;
use crate::node::NUM_HASH;
use crate::node::PARAM_HASH;
use crate::node::PI_HASH;
use crate::node::PROJ_HASH;
use crate::node::SORT_HASH;
use crate::node::STRING_LIT_HASH;
use crate::node::STR_HASH;
use crate::node::SUCC_HASH;
use crate::node::VAR_HASH;
use crate::tree::ExprTree;
use crate::tree::LevelTree;
use crate::tree::NameTree;

verus! {

broadcast use vstd::std_specs::hash::group_hash_axioms;

/// Builds the term graph and the declarations of an [`ExportFile`].
pub struct Builder {
    dag: LeanDag,
    declars: DeclarMap,
    mutual_block_sizes: HashMap<usize, (usize, usize)>,
    config: Config,
}

impl Builder {
    /// The term graph.
    pub closed spec fn dag(&self) -> LeanDag {
        self.dag
    }

    /// The declarations, in the order in which they were submitted.
    pub closed spec fn declars(&self) -> Seq<Declar> {
        self.declars@
    }

    /// For each inductive type, by the index of its name: where its mutual block
    /// starts among the declarations, and how many declarations the block has.
    pub closed spec fn blocks(&self) -> Map<usize, (usize, usize)> {
        self.mutual_block_sizes@
    }

    pub closed spec fn config(&self) -> Config {
        self.config
    }

    /// All but the shape of the mutual blocks.
    closed spec fn base_wf(&self) -> bool {
        &&& self.dag.wf()
        &&& self.dag.bignums is Some == self.config.nat_extension
        &&& self.declars.wf()
        &&& forall|i: int| 0 <= i < self.declars@.len() ==> (#[trigger] self.declars@[i]).ok(self.dag)
    }

    /// The builder holds a well-formed environment.
    pub closed spec fn wf(&self) -> bool {
        &&& self.base_wf()
        &&& blocks_ok(self.declars@, self.mutual_block_sizes@)
    }

    /// What a well-formed builder promises to a reader of its parts.
    pub proof fn facts(&self)
        requires
            self.wf(),
        ensures
            self.dag().wf(),
            self.dag().bignums is Some == self.config().nat_extension,
            crate::env::distinct_names(self.declars()),
            self.declars().len() <= usize::MAX,
            forall|i: int|
                0 <= i < self.declars().len() ==> (#[trigger] self.declars()[i]).ok(self.dag()),
            blocks_ok(self.declars(), self.blocks()),
    {
        self.declars.names_differ();
        self.declars.len_fits();
    }

    /// Nothing but the term graph differs, and every pointer still stands for what
    /// it stood for.
    pub open spec fn only_grew(&self, before: &Builder) -> bool {
        &&& before.dag().kept_in(self.dag())
        &&& self.declars() == before.declars()
        &&& self.blocks() == before.blocks()
        &&& self.config() == before.config()
    }

    proof fn lemma_grew(&self, before: &Builder)
        requires
            before.wf(),
            self.dag.wf(),
            before.dag.kept_in(self.dag),
            self.declars == before.declars,
            self.mutual_block_sizes == before.mutual_block_sizes,
            self.config == before.config,
        ensures
            self.wf(),
            self.only_grew(before),
    {
        assert forall|i: int| 0 <= i < self.declars@.len() implies (
        #[trigger] self.declars@[i]).ok(self.dag) by {
            crate::env::lemma_declar_kept(self.declars@[i], before.dag, self.dag);
        }
    }

    /// A fresh builder: the graph holds the anonymous name and the level zero, both
    /// at index 0, and there are no declarations.
    pub fn new(config: Config) -> (b: Builder)
        ensures
            b.wf(),
            b.dag().names@ == seq![Name::Anon],
            b.dag().levels@ == seq![Level::Zero],
            b.dag().uparams@ == Seq::<Seq<LevelPtr>>::empty(),
            b.dag().exprs@ == Seq::<Expr>::empty(),
            b.dag().strings@ == Seq::<Seq<char>>::empty(),
            b.dag().nums() == Seq::<Seq<u8>>::empty(),
            b.declars() == Seq::<Declar>::empty(),
            b.blocks() == Map::<usize, (usize, usize)>::empty(),
            b.config() == config,
    {
        Builder {
            dag: LeanDag::new(&config),
            declars: DeclarMap::new(),
            mutual_block_sizes: HashMap::new(),
            config,
        }
    }

    /// The finished environment: what was built, unchanged.
    pub fn finish(self) -> (e: ExportFile)
        requires
            self.wf(),
        ensures
            e.wf(),
            e.dag == self.dag(),
            e.declars@ == self.declars(),
            e.mutual_block_sizes@ == self.blocks(),
            e.config == self.config(),
    {
        ExportFile {
            dag: self.dag,
            declars: self.declars,
            mutual_block_sizes: self.mutual_block_sizes,
            config: self.config,
        }
    }

    // --- names ------------------------------------------------------------

    /// The anonymous name, the root of every name.
    pub fn name_anon(&self) -> (p: NamePtr)
        requires
            self.wf(),
        ensures
            p.idx == 0,
            self.dag().has_name(p),
            self.dag().name(p) == NameTree::Anon,
    {
        NamePtr { idx: 0 }
    }

    fn push_name(&mut self, n: Name) -> (p: NamePtr)
        requires
            old(self).wf(),
            name_fits(old(self).dag(), n),
        ensures
            final(self).wf(),
            final(self).only_grew(old(self)),
            final(self).dag().has_name(p),
            final(self).dag().name(p) == name_shape(old(self).dag(), n),
            final(self).dag().tables() == (Tables {
                names: interned(
                    old(self).dag().names@,
                    final(self).dag().names@[p.idx as int],
                ),
                ..old(self).dag().tables()
            }),
    {
        let r: (usize, bool) = self.dag.names.insert_full(n);
        proof {
            crate::dag::lemma_name_added(old(self).dag, self.dag, n, r.0);
            self.lemma_grew(old(self));
        }
        NamePtr { idx: r.0 }
    }

    /// `pre.s`: extend a name with a string component.
    pub fn name_str(&mut self, pre: NamePtr, s: &str) -> (p: NamePtr)
        requires
            old(self).wf(),
            old(self).dag().has_name(pre),
        ensures
            final(self).wf(),
            final(self).only_grew(old(self)),
            final(self).dag().has_name(p),
            final(self).dag().name(p) == NameTree::Str(Box::new(old(self).dag().name(pre)), s@),
            final(self).dag().tables() == (Tables {
                names: interned(
                    old(self).dag().names@,
                    final(self).dag().names@[p.idx as int],
                ),
                strings: interned(old(self).dag().strings@, s@),
                ..old(self).dag().tables()
            }),
    {
        let sfx = self.intern_string(s);
        let hash: u64 = hash2(STR_HASH, pre.idx as u64, sfx.idx as u64);
        self.push_name(Name::Str(pre, sfx, hash))
    }

    /// `pre.n`: extend a name with a numeric component.
    pub fn name_num(&mut self, pre: NamePtr, n: u64) -> (p: NamePtr)
        requires
            old(self).wf(),
            old(self).dag().has_name(pre),
        ensures
            final(self).wf(),
            final(self).only_grew(old(self)),
            final(self).dag().has_name(p),
            final(self).dag().name(p) == NameTree::Num(Box::new(old(self).dag().name(pre)), n),
            final(self).dag().tables() == (Tables {
                names: interned(
                    old(self).dag().names@,
                    final(self).dag().names@[p.idx as int],
                ),
                ..old(self).dag().tables()
            }),
    {
        let hash: u64 = hash2(NUM_HASH, pre.idx as u64, n);
        self.push_name(Name::Num(pre, n, hash))
    }

    // --- levels -----------------------------------------------------------

    /// The universe level 0.
    pub fn level_zero(&self) -> (p: LevelPtr)
        requires
            self.wf(),
        ensures
            p.idx == 0,
            self.dag().has_level(p),
            self.dag().level(p) == LevelTree::Zero,
    {
        LevelPtr { idx: 0 }
    }

    fn push_level(&mut self, l: Level) -> (p: LevelPtr)
        requires
            old(self).wf(),
            level_fits(old(self).dag(), l),
        ensures
            final(self).wf(),
            final(self).only_grew(old(self)),
            final(self).dag().has_level(p),
            final(self).dag().level(p) == level_shape(old(self).dag(), l),
            final(self).dag().tables() == (Tables {
                levels: interned(
                    old(self).dag().levels@,
                    final(self).dag().levels@[p.idx as int],
                ),
                ..old(self).dag().tables()
            }),
    {
        let r: (usize, bool) = self.dag.levels.insert_full(l);
        proof {
            crate::dag::lemma_level_added(old(self).dag, self.dag, l, r.0);
            self.lemma_grew(old(self));
        }
        LevelPtr { idx: r.0 }
    }

    pub fn level_succ(&mut self, l: LevelPtr) -> (p: LevelPtr)
        requires
            old(self).wf(),
            old(self).dag().has_level(l),
        ensures
            final(self).wf(),
            final(self).only_grew(old(self)),
            final(self).dag().has_level(p),
            final(self).dag().level(p) == LevelTree::Succ(Box::new(old(self).dag().level(l))),
            final(self).dag().tables() == (Tables {
                levels: interned(
                    old(self).dag().levels@,
                    final(self).dag().levels@[p.idx as int],
                ),
                ..old(self).dag().tables()
            }),
    {
        let hash: u64 = hash1(SUCC_HASH, l.idx as u64);
        self.push_level(Level::Succ(l, hash))
    }

    pub fn level_max(&mut self, l: LevelPtr, r: LevelPtr) -> (p: LevelPtr)
        requires
            old(self).wf(),
            old(self).dag().has_level(l),
            old(self).dag().has_level(r),
        ensures
            final(self).wf(),
            final(self).only_grew(old(self)),
            final(self).dag().has_level(p),
            final(self).dag().level(p) == LevelTree::Max(
                Box::new(old(self).dag().level(l)),
                Box::new(old(self).dag().level(r)),
            ),
            final(self).dag().tables() == (Tables {
                levels: interned(
                    old(self).dag().levels@,
                    final(self).dag().levels@[p.idx as int],
                ),
                ..old(self).dag().tables()
            }),
    {
        let hash: u64 = hash2(MAX_HASH, l.idx as u64, r.idx as u64);
        self.push_level(Level::Max(l, r, hash))
    }

    pub fn level_imax(&mut self, l: LevelPtr, r: LevelPtr) -> (p: LevelPtr)
        requires
            old(self).wf(),
            old(self).dag().has_level(l),
            old(self).dag().has_level(r),
        ensures
            final(self).wf(),
            final(self).only_grew(old(self)),
            final(self).dag().has_level(p),
            final(self).dag().level(p) == LevelTree::IMax(
                Box::new(old(self).dag().level(l)),
                Box::new(old(self).dag().level(r)),
            ),
            final(self).dag().tables() == (Tables {
                levels: interned(
                    old(self).dag().levels@,
                    final(self).dag().levels@[p.idx as int],
                ),
                ..old(self).dag().tables()
            }),
    {
        let hash: u64 = hash2(IMAX_HASH, l.idx as u64, r.idx as u64);
        self.push_level(Level::IMax(l, r, hash))
    }

    pub fn level_param(&mut self, n: NamePtr) -> (p: LevelPtr)
        requires
            old(self).wf(),
            old(self).dag().has_name(n),
        ensures
            final(self).wf(),
            final(self).only_grew(old(self)),
            final(self).dag().has_level(p),
            final(self).dag().level(p) == LevelTree::Param(old(self).dag().name(n)),
            final(self).dag().tables() == (Tables {
                levels: interned(
                    old(self).dag().levels@,
                    final(self).dag().levels@[p.idx as int],
                ),
                ..old(self).dag().tables()
            }),
    {
        let hash: u64 = hash1(PARAM_HASH, n.idx as u64);
        self.push_level(Level::Param(n, hash))
    }

    /// Intern a list of levels: the universe parameters of a declaration, or the
    /// universe arguments of a constant.
    pub fn levels(&mut self, ls: &[LevelPtr]) -> (p: LevelsPtr)
        requires
            old(self).wf(),
            forall|k: int| 0 <= k < ls@.len() ==> old(self).dag().has_level(#[trigger] ls@[k]),
        ensures
            final(self).wf(),
            final(self).only_grew(old(self)),
            final(self).dag().has_levels(p),
            final(self).dag().levels_at(p) == level_trees(old(self).dag(), ls@),
            final(self).dag().uparams@[p.idx as int] == ls@,
            final(self).dag().tables() == (Tables {
                uparams: interned(old(self).dag().uparams@, ls@),
                ..old(self).dag().tables()
            }),
    {
        let r: (usize, bool) = self.dag.uparams.insert_full(vstd::slice::slice_to_vec(ls));
        proof {
            crate::dag::lemma_levels_added(old(self).dag, self.dag, ls@, r.0);
            self.lemma_grew(old(self));
        }
        LevelsPtr { idx: r.0 }
    }

    // --- expressions ------------------------------------------------------

    /// A bound variable, by its de Bruijn index.
    pub fn expr_var(&mut self, dbj_idx: u16) -> (p: ExprPtr)
        requires
            old(self).wf(),
        ensures
            final(self).wf(),
            final(self).only_grew(old(self)),
            final(self).dag().has_expr(p),
            final(self).dag().expr(p) == ExprTree::Var(dbj_idx),
            final(self).dag().tables() == (Tables {
                exprs: interned(
                    old(self).dag().exprs@,
                    final(self).dag().exprs@[p.idx as int],
                ),
                ..old(self).dag().tables()
            }),
    {
        let hash: u64 = hash1(VAR_HASH, dbj_idx as u64);
        self.push_expr(Expr::Var { dbj_idx, hash })
    }

    pub fn expr_sort(&mut self, level: LevelPtr) -> (p: ExprPtr)
        requires
            old(self).wf(),
            old(self).dag().has_level(level),
        ensures
            final(self).wf(),
            final(self).only_grew(old(self)),
            final(self).dag().has_expr(p),
            final(self).dag().expr(p) == ExprTree::Sort(old(self).dag().level(level)),
            final(self).dag().tables() == (Tables {
                exprs: interned(
                    old(self).dag().exprs@,
                    final(self).dag().exprs@[p.idx as int],
                ),
                ..old(self).dag().tables()
            }),
    {
        let hash: u64 = hash1(SORT_HASH, level.idx as u64);
        self.push_expr(Expr::Sort { level, hash })
    }

    pub fn expr_const(&mut self, name: NamePtr, levels: LevelsPtr) -> (p: ExprPtr)
        requires
            old(self).wf(),
            old(self).dag().has_name(name),
            old(self).dag().has_levels(levels),
        ensures
            final(self).wf(),
            final(self).only_grew(old(self)),
            final(self).dag().has_expr(p),
            final(self).dag().expr(p) == ExprTree::Const(
                old(self).dag().name(name),
                old(self).dag().levels_at(levels),
            ),
            final(self).dag().tables() == (Tables {
                exprs: interned(
                    old(self).dag().exprs@,
                    final(self).dag().exprs@[p.idx as int],
                ),
                ..old(self).dag().tables()
            }),
    {
        let hash: u64 = hash2(CONST_HASH, name.idx as u64, levels.idx as u64);
        self.push_expr(Expr::Const { name, levels, hash })
    }

    pub fn expr_app(&mut self, fun: ExprPtr, arg: ExprPtr) -> (p: ExprPtr)
        requires
            old(self).wf(),
            old(self).dag().has_expr(fun),
            old(self).dag().has_expr(arg),
        ensures
            final(self).wf(),
            final(self).only_grew(old(self)),
            final(self).dag().has_expr(p),
            final(self).dag().expr(p) == ExprTree::App(
                Box::new(old(self).dag().expr(fun)),
                Box::new(old(self).dag().expr(arg)),
            ),
            final(self).dag().tables() == (Tables {
                exprs: interned(
                    old(self).dag().exprs@,
                    final(self).dag().exprs@[p.idx as int],
                ),
                ..old(self).dag().tables()
            }),
    {
        let hash: u64 = hash2(APP_HASH, fun.idx as u64, arg.idx as u64);
        let num_loose_bvars: u32 = max_u32(self.num_loose_bvars(fun), self.num_loose_bvars(arg));
        let has_fvars = self.has_fvars(fun) || self.has_fvars(arg);
        self.push_expr(Expr::App { fun, arg, num_loose_bvars, has_fvars, hash })
    }

    pub fn expr_lambda(
        &mut self,
        binder_name: NamePtr,
        binder_style: BinderStyle,
        binder_type: ExprPtr,
        body: ExprPtr,
    ) -> (p: ExprPtr)
        requires
            old(self).wf(),
            old(self).dag().has_name(binder_name),
            old(self).dag().has_expr(binder_type),
            old(self).dag().has_expr(body),
        ensures
            final(self).wf(),
            final(self).only_grew(old(self)),
            final(self).dag().has_expr(p),
            final(self).dag().expr(p) == ExprTree::Lambda(
                old(self).dag().name(binder_name),
                binder_style,
                Box::new(old(self).dag().expr(binder_type)),
                Box::new(old(self).dag().expr(body)),
            ),
            final(self).dag().tables() == (Tables {
                exprs: interned(
                    old(self).dag().exprs@,
                    final(self).dag().exprs@[p.idx as int],
                ),
                ..old(self).dag().tables()
            }),
    {
        let hash: u64 = hash4(
            LAMBDA_HASH,
            binder_name.idx as u64,
            binder_style.to_code() as u64,
            binder_type.idx as u64,
            body.idx as u64,
        );
        let num_loose_bvars: u32 = max_u32(
            self.num_loose_bvars(binder_type),
            minus_one(self.num_loose_bvars(body)),
        );
        let has_fvars = self.has_fvars(binder_type) || self.has_fvars(body);
        self.push_expr(
            Expr::Lambda {
                binder_name,
                binder_style,
                binder_type,
                body,
                num_loose_bvars,
                has_fvars,
                hash,
            },
        )
    }

    pub fn expr_pi(
        &mut self,
        binder_name: NamePtr,
        binder_style: BinderStyle,
        binder_type: ExprPtr,
        body: ExprPtr,
    ) -> (p: ExprPtr)
        requires
            old(self).wf(),
            old(self).dag().has_name(binder_name),
            old(self).dag().has_expr(binder_type),
            old(self).dag().has_expr(body),
        ensures
            final(self).wf(),
            final(self).only_grew(old(self)),
            final(self).dag().has_expr(p),
            final(self).dag().expr(p) == ExprTree::Pi(
                old(self).dag().name(binder_name),
                binder_style,
                Box::new(old(self).dag().expr(binder_type)),
                Box::new(old(self).dag().expr(body)),
            ),
            final(self).dag().tables() == (Tables {
                exprs: interned(
                    old(self).dag().exprs@,
                    final(self).dag().exprs@[p.idx as int],
                ),
                ..old(self).dag().tables()
            }),
    {
        let hash: u64 = hash4(
            PI_HASH,
            binder_name.idx as u64,
            binder_style.to_code() as u64,
            binder_type.idx as u64,
            body.idx as u64,
        );
        let num_loose_bvars: u32 = max_u32(
            self.num_loose_bvars(binder_type),
            minus_one(self.num_loose_bvars(body)),
        );
        let has_fvars = self.has_fvars(binder_type) || self.has_fvars(body);
        self.push_expr(
            Expr::Pi {
                binder_name,
                binder_style,
                binder_type,
                body,
                num_loose_bvars,
                has_fvars,
                hash,
            },
        )
    }

    pub fn expr_let(
        &mut self,
        binder_name: NamePtr,
        binder_type: ExprPtr,
        val: ExprPtr,
        body: ExprPtr,
        nondep: bool,
    ) -> (p: ExprPtr)
        requires
            old(self).wf(),
            old(self).dag().has_name(binder_name),
            old(self).dag().has_expr(binder_type),
            old(self).dag().has_expr(val),
            old(self).dag().has_expr(body),
        ensures
            final(self).wf(),
            final(self).only_grew(old(self)),
            final(self).dag().has_expr(p),
            final(self).dag().expr(p) == ExprTree::Let(
                old(self).dag().name(binder_name),
                Box::new(old(self).dag().expr(binder_type)),
                Box::new(old(self).dag().expr(val)),
                Box::new(old(self).dag().expr(body)),
                nondep,
            ),
            final(self).dag().tables() == (Tables {
                exprs: interned(
                    old(self).dag().exprs@,
                    final(self).dag().exprs@[p.idx as int],
                ),
                ..old(self).dag().tables()
            }),
    {
        let hash: u64 = hash5(
            LET_HASH,
            binder_name.idx as u64,
            binder_type.idx as u64,
            val.idx as u64,
            body.idx as u64,
            word_of_bool(nondep),
        );
        let num_loose_bvars: u32 = max_u32(
            self.num_loose_bvars(binder_type),
            max_u32(self.num_loose_bvars(val), minus_one(self.num_loose_bvars(body))),
        );
        let has_fvars = self.has_fvars(binder_type) || self.has_fvars(val) || self.has_fvars(body);
        self.push_expr(
            Expr::Let {
                binder_name,
                binder_type,
                val,
                body,
                num_loose_bvars,
                has_fvars,
                hash,
                nondep,
            },
        )
    }

    pub fn expr_proj(&mut self, ty_name: NamePtr, idx: usize, structure: ExprPtr) -> (p: ExprPtr)
        requires
            old(self).wf(),
            old(self).dag().has_name(ty_name),
            old(self).dag().has_expr(structure),
        ensures
            final(self).wf(),
            final(self).only_grew(old(self)),
            final(self).dag().has_expr(p),
            final(self).dag().expr(p) == ExprTree::Proj(
                old(self).dag().name(ty_name),
                idx,
                Box::new(old(self).dag().expr(structure)),
            ),
            final(self).dag().tables() == (Tables {
                exprs: interned(
                    old(self).dag().exprs@,
                    final(self).dag().exprs@[p.idx as int],
                ),
                ..old(self).dag().tables()
            }),
    {
        let hash: u64 = hash3(PROJ_HASH, ty_name.idx as u64, idx as u64, structure.idx as u64);
        let num_loose_bvars: u32 = self.num_loose_bvars(structure);
        let has_fvars = self.has_fvars(structure);
        self.push_expr(Expr::Proj { ty_name, idx, structure, num_loose_bvars, has_fvars, hash })
    }

    /// A number literal. The literal extension for numbers has to be on.
    pub fn expr_nat_lit(&mut self, n: BigNat) -> (p: ExprPtr)
        requires
            old(self).wf(),
            old(self).config().nat_extension,
        ensures
            final(self).wf(),
            final(self).only_grew(old(self)),
            final(self).dag().has_expr(p),
            final(self).dag().expr(p) == ExprTree::NatLit(n.value()),
            final(self).dag().tables() == (Tables {
                exprs: interned(
                    old(self).dag().exprs@,
                    final(self).dag().exprs@[p.idx as int],
                ),
                nums: interned(old(self).dag().nums(), n@),
                ..old(self).dag().tables()
            }),
    {
        let ptr = self.intern_num(n);
        let hash: u64 = hash1(NAT_LIT_HASH, ptr.idx as u64);
        self.push_expr(Expr::NatLit { ptr, hash })
    }

    /// A string literal.
    pub fn expr_string_lit(&mut self, s: &str) -> (p: ExprPtr)
        requires
            old(self).wf(),
        ensures
            final(self).wf(),
            final(self).only_grew(old(self)),
            final(self).dag().has_expr(p),
            final(self).dag().expr(p) == ExprTree::StringLit(s@),
            final(self).dag().tables() == (Tables {
                exprs: interned(
                    old(self).dag().exprs@,
                    final(self).dag().exprs@[p.idx as int],
                ),
                strings: interned(old(self).dag().strings@, s@),
                ..old(self).dag().tables()
            }),
    {
        let ptr = self.intern_string(s);
        let hash: u64 = hash1(STRING_LIT_HASH, ptr.idx as u64);
        self.push_expr(Expr::StringLit { ptr, hash })
    }

    // --- internals --------------------------------------------------------

    /// Whether the literal extension for numbers is on.
    pub fn has_nat_literals(&self) -> (b: bool)
        ensures
            b == self.config().nat_extension,
    {
        self.config.nat_extension
    }

    fn intern_string(&mut self, s: &str) -> (p: StringPtr)
        requires
            old(self).wf(),
        ensures
            final(self).wf(),
            final(self).only_grew(old(self)),
            p.idx < final(self).dag().strings@.len(),
            final(self).dag().strings@[p.idx as int] == s@,
            final(self).dag().tables() == (Tables {
                strings: interned(old(self).dag().strings@, s@),
                ..old(self).dag().tables()
            }),
    {
        let r: (usize, bool) = self.dag.strings.insert_full(s.to_owned());
        proof {
            crate::dag::lemma_string_added(old(self).dag, self.dag);
            self.lemma_grew(old(self));
        }
        StringPtr { idx: r.0 }
    }

    fn intern_num(&mut self, n: BigNat) -> (p: BigUintPtr)
        requires
            old(self).wf(),
            old(self).config().nat_extension,
        ensures
            final(self).wf(),
            final(self).only_grew(old(self)),
            p.idx < final(self).dag().nums().len(),
            crate::bignat::le_value(final(self).dag().nums()[p.idx as int]) == n.value(),
            final(self).dag().tables() == (Tables {
                nums: interned(old(self).dag().nums(), n@),
                ..old(self).dag().tables()
            }),
    {
        let mut table = self.dag.bignums.take().unwrap();
        proof {
            use_type_invariant(&n);
        }
        let r: (usize, bool) = table.insert_full(n);
        self.dag.bignums = Some(table);
        proof {
            crate::dag::lemma_num_added(old(self).dag, self.dag, r.0);
            self.lemma_grew(old(self));
        }
        BigUintPtr { idx: r.0 }
    }

    fn push_expr(&mut self, e: Expr) -> (p: ExprPtr)
        requires
            old(self).wf(),
            expr_fits(old(self).dag(), e),
        ensures
            final(self).wf(),
            final(self).only_grew(old(self)),
            final(self).dag().has_expr(p),
            final(self).dag().expr(p) == expr_shape(old(self).dag(), e),
            final(self).dag().tables() == (Tables {
                exprs: interned(
                    old(self).dag().exprs@,
                    final(self).dag().exprs@[p.idx as int],
                ),
                ..old(self).dag().tables()
            }),
    {
        let r: (usize, bool) = self.dag.exprs.insert_full(e);
        proof {
            crate::dag::lemma_expr_added(old(self).dag, self.dag, e, r.0);
            self.lemma_grew(old(self));
        }
        ExprPtr { idx: r.0 }
    }

    /// How many binders the expression needs around it to have no loose bound
    /// variable.
    pub fn num_loose_bvars(&self, e: ExprPtr) -> (n: u32)
        requires
            self.wf(),
            self.dag().has_expr(e),
        ensures
            n == self.dag().expr(e).loose(),
    {
        assert(self.dag.expr_ok(e.idx as int));
        self.dag.exprs.get_index(e.idx).num_loose_bvars()
    }

    /// Whether a free variable occurs in the expression: a builder makes no free
    /// variables, so none does.
    pub fn has_fvars(&self, e: ExprPtr) -> (b: bool)
        requires
            self.wf(),
            self.dag().has_expr(e),
        ensures
            !b,
    {
        assert(self.dag.expr_ok(e.idx as int));
        self.dag.exprs.get_index(e.idx).has_fvars()
    }
}

// --- declarations ---------------------------------------------------------

/// One inductive type of a mutual block.
pub struct InductiveInput {
    pub name: NamePtr,
    pub uparams: LevelsPtr,
    pub ty: ExprPtr,
    pub is_recursive: bool,
    /// Whether the inductive type occurs nested in its own constructors.
    pub is_nested: bool,
    pub num_params: u16,
    pub num_indices: u16,
    /// All inductive types of the mutual block.
    pub all_ind_names: Vec<NamePtr>,
    /// The constructors of this inductive type.
    pub all_ctor_names: Vec<NamePtr>,
}

/// One constructor of a mutual block.
pub struct ConstructorInput {
    pub name: NamePtr,
    pub uparams: LevelsPtr,
    pub ty: ExprPtr,
    pub inductive_name: NamePtr,
    pub ctor_idx: u16,
    pub num_params: u16,
    pub num_fields: u16,
}

/// One recursor of a mutual block.
pub struct RecursorInput {
    pub name: NamePtr,
    pub uparams: LevelsPtr,
    pub ty: ExprPtr,
    pub all_inductives: Vec<NamePtr>,
    pub num_params: u16,
    pub num_indices: u16,
    pub num_motives: u16,
    pub num_minors: u16,
    pub rec_rules: Vec<RecRuleInput>,
    pub is_k: bool,
}

/// One computation rule of a recursor.
#[derive(Clone, Copy, Debug)]
pub struct RecRuleInput {
    pub ctor_name: NamePtr,
    /// The number of arguments of the constructor, the parameters of the inductive
    /// type not counted.
    pub num_fields: u16,
    pub rhs: ExprPtr,
}

impl InductiveInput {
    pub open spec fn info(self) -> DeclarInfo {
        DeclarInfo { name: self.name, uparams: self.uparams, ty: self.ty }
    }

    pub open spec fn ok(self, d: LeanDag) -> bool {
        self.info().ok(d) && has_names(d, self.all_ind_names@) && has_names(d, self.all_ctor_names@)
    }

    /// The declaration that the input becomes.
    pub open spec fn declar(self) -> Declar {
        Declar::Inductive(
            InductiveData {
                info: self.info(),
                is_recursive: self.is_recursive,
                is_nested: self.is_nested,
                num_params: self.num_params,
                num_indices: self.num_indices,
                all_ind_names: self.all_ind_names,
                all_ctor_names: self.all_ctor_names,
            },
        )
    }
}

impl ConstructorInput {
    pub open spec fn info(self) -> DeclarInfo {
        DeclarInfo { name: self.name, uparams: self.uparams, ty: self.ty }
    }

    pub open spec fn ok(self, d: LeanDag) -> bool {
        self.info().ok(d) && d.has_name(self.inductive_name)
    }

    /// The declaration that the input becomes.
    pub open spec fn declar(self) -> Declar {
        Declar::Constructor(
            ConstructorData {
                info: self.info(),
                inductive_name: self.inductive_name,
                ctor_idx: self.ctor_idx,
                num_params: self.num_params,
                num_fields: self.num_fields,
            },
        )
    }
}

impl RecRuleInput {
    /// The rule that the input becomes.
    pub open spec fn rule(self) -> RecRule {
        RecRule {
            ctor_name: self.ctor_name,
            ctor_telescope_size_wo_params: self.num_fields,
            val: self.rhs,
        }
    }
}

impl RecursorInput {
    pub open spec fn info(self) -> DeclarInfo {
        DeclarInfo { name: self.name, uparams: self.uparams, ty: self.ty }
    }

    /// The rules that the inputs become.
    pub open spec fn rules(self) -> Seq<RecRule> {
        self.rec_rules@.map_values(|r: RecRuleInput| r.rule())
    }

    pub open spec fn ok(self, d: LeanDag) -> bool {
        self.info().ok(d) && has_names(d, self.all_inductives@) && has_rules(d, self.rules())
    }

    fn to_rules(&self) -> (rules: Vec<RecRule>)
        ensures
            rules@ == self.rules(),
    {
        let mut rules: Vec<RecRule> = Vec::new();
        let n: usize = self.rec_rules.len();
        let mut i: usize = 0;
        while i < n
            invariant
                n == self.rec_rules@.len(),
                i <= n,
                rules@ == self.rules().take(i as int),
            decreases n - i,
        {
            let r = &self.rec_rules[i];
            let rule = RecRule {
                ctor_name: r.ctor_name,
                ctor_telescope_size_wo_params: r.num_fields,
                val: r.rhs,
            };
            rules.push(rule);
            assert(self.rules()[i as int] == rule);
            assert(self.rules().take(i + 1) =~= self.rules().take(i as int).push(rule));
            i = i + 1;
        }
        assert(self.rules().take(n as int) =~= self.rules());
        rules
    }

    /// Whether `x` is the declaration that the input becomes.
    pub open spec fn becomes(self, x: Declar) -> bool {
        match x {
            Declar::Recursor(r) => {
                &&& r.info == self.info()
                &&& r.all_inductives == self.all_inductives
                &&& r.num_params == self.num_params
                &&& r.num_indices == self.num_indices
                &&& r.num_motives == self.num_motives
                &&& r.num_minors == self.num_minors
                &&& r.rec_rules@ == self.rules()
                &&& r.is_k == self.is_k
            },
            _ => false,
        }
    }
}

/// The names that a mutual block declares, in the order of declaration.
pub open spec fn block_names(
    inds: Seq<InductiveInput>,
    ctors: Seq<ConstructorInput>,
    recs: Seq<RecursorInput>,
) -> Seq<NamePtr> {
    inds.map_values(|x: InductiveInput| x.name) + ctors.map_values(|x: ConstructorInput| x.name)
        + recs.map_values(|x: RecursorInput| x.name)
}

/// The recorded blocks after each of the inductive types was recorded with `v`.
pub open spec fn recorded(
    blocks: Map<usize, (usize, usize)>,
    inds: Seq<InductiveInput>,
    v: (usize, usize),
) -> Map<usize, (usize, usize)>
    decreases inds.len(),
{
    if inds.len() == 0 {
        blocks
    } else {
        recorded(blocks, inds.drop_last(), v).insert(inds.last().name.idx, v)
    }
}

/// `ds` is what the inputs of a mutual block become, in order.
pub open spec fn block_declars(
    inds: Seq<InductiveInput>,
    ctors: Seq<ConstructorInput>,
    recs: Seq<RecursorInput>,
    ds: Seq<Declar>,
) -> bool {
    &&& ds.len() == inds.len() + ctors.len() + recs.len()
    &&& forall|i: int| 0 <= i < inds.len() ==> #[trigger] ds[i] == inds[i].declar()
    &&& forall|i: int|
        0 <= i < ctors.len() ==> #[trigger] ds[inds.len() + i] == ctors[i].declar()
    &&& forall|i: int|
        0 <= i < recs.len() ==> recs[i].becomes(#[trigger] ds[inds.len() + ctors.len() + i])
}

/// What is recorded under an index: the new block for the new inductive types, and
/// what was there before for all else.
pub proof fn lemma_recorded(
    blocks: Map<usize, (usize, usize)>,
    inds: Seq<InductiveInput>,
    v: (usize, usize),
    k: usize,
)
    ensures
        ({
            let m = recorded(blocks, inds, v);
            if exists|i: int| 0 <= i < inds.len() && (#[trigger] inds[i]).name.idx == k {
                m.contains_key(k) && m[k] == v
            } else {
                m.contains_key(k) == blocks.contains_key(k) && m[k] == blocks[k]
            }
        }),
    decreases inds.len(),
{
    if inds.len() > 0 {
        let rest = inds.drop_last();
        lemma_recorded(blocks, rest, v, k);
        assert forall|i: int| 0 <= i < rest.len() implies rest[i] == inds[i] by {}
        if exists|i: int| 0 <= i < inds.len() && (#[trigger] inds[i]).name.idx == k {
            let i = choose|i: int| 0 <= i < inds.len() && (#[trigger] inds[i]).name.idx == k;
            if i < rest.len() {
                assert(rest[i].name.idx == k);
            }
        } else {
            assert(inds.last() == inds[inds.len() - 1]);
        }
    }
}

/// A block stays one when declarations are added behind it.
proof fn lemma_block_kept(
    ds: Seq<Declar>,
    es: Seq<Declar>,
    m: Map<usize, (usize, usize)>,
    n: Map<usize, (usize, usize)>,
    start: int,
    size: int,
)
    requires
        is_block(ds, m, start, size),
        ds.is_prefix_of(es),
        forall|i: int|
            0 <= i < ds.len() && rank(#[trigger] ds[i]) == 0 && m.contains_key(
                ds[i].info_spec().name.idx,
            ) ==> n.contains_key(ds[i].info_spec().name.idx) && n[ds[i].info_spec().name.idx]
                == m[ds[i].info_spec().name.idx],
    ensures
        is_block(es, n, start, size),
{
    assert forall|i: int| start <= i < start + size implies #[trigger] es[i] == ds[i] by {}
}

proof fn lemma_no_block_added(ds: Seq<Declar>, es: Seq<Declar>, m: Map<usize, (usize, usize)>)
    requires
        blocks_ok(ds, m),
        es.len() == ds.len() + 1,
        ds.is_prefix_of(es),
        rank(es.last()) != 0,
    ensures
        blocks_ok(es, m),
{
    assert forall|i: int| 0 <= i < es.len() && rank(#[trigger] es[i]) == 0 implies {
        let k = es[i].info_spec().name.idx;
        &&& m.contains_key(k)
        &&& m[k].0 <= i < m[k].0 + m[k].1
        &&& is_block(es, m, m[k].0 as int, m[k].1 as int)
    } by {
        assert(es[i] == ds[i]);
        let k = ds[i].info_spec().name.idx;
        lemma_block_kept(ds, es, m, m, m[k].0 as int, m[k].1 as int);
    }
    assert forall|k: usize| #[trigger] m.contains_key(k) implies exists|i: int|
        0 <= i < es.len() && rank(#[trigger] es[i]) == 0 && es[i].info_spec().name.idx == k by {
        let i = choose|i: int|
            0 <= i < ds.len() && rank(#[trigger] ds[i]) == 0 && ds[i].info_spec().name.idx == k;
        assert(es[i] == ds[i]);
    }
}

proof fn lemma_block_added(
    ds: Seq<Declar>,
    es: Seq<Declar>,
    m: Map<usize, (usize, usize)>,
    inds: Seq<InductiveInput>,
    ctors: Seq<ConstructorInput>,
    recs: Seq<RecursorInput>,
    v: (usize, usize),
)
    requires
        blocks_ok(ds, m),
        v.0 == ds.len(),
        v.1 == inds.len() + ctors.len() + recs.len(),
        es.len() == ds.len() + v.1,
        ds.is_prefix_of(es),
        block_declars(inds, ctors, recs, es.skip(ds.len() as int)),
        forall|i: int| 0 <= i < inds.len() ==> !declares(ds, (#[trigger] inds[i]).name),
    ensures
        blocks_ok(es, recorded(m, inds, v)),
{
    let n = recorded(m, inds, v);
    let s = ds.len() as int;
    let b = es.skip(s);
    assert forall|i: int| 0 <= i < ds.len() && rank(#[trigger] ds[i]) == 0 && m.contains_key(
        ds[i].info_spec().name.idx,
    ) implies n.contains_key(ds[i].info_spec().name.idx) && n[ds[i].info_spec().name.idx]
        == m[ds[i].info_spec().name.idx] by {
        let k = ds[i].info_spec().name.idx;
        lemma_recorded(m, inds, v, k);
        if exists|j: int| 0 <= j < inds.len() && (#[trigger] inds[j]).name.idx == k {
            let j = choose|j: int| 0 <= j < inds.len() && (#[trigger] inds[j]).name.idx == k;
            assert(ds[i].info_spec().name == inds[j].name);
            assert(declares(ds, inds[j].name));
        }
    }
    assert forall|i: int| s <= i < s + v.1 implies rank(#[trigger] es[i]) == (if i - s
        < inds.len() {
        0int
    } else if i - s < inds.len() + ctors.len() {
        1
    } else {
        2
    }) && (i - s < inds.len() ==> es[i] == inds[i - s].declar()) by {
        assert(es[i] == b[i - s]);
        if i - s >= inds.len() + ctors.len() {
            let j = i - s - inds.len() - ctors.len();
            assert(recs[j].becomes(b[inds.len() + ctors.len() + j]));
        } else if i - s >= inds.len() {
            let j = i - s - inds.len();
            assert(b[inds.len() + j] == ctors[j].declar());
        } else {
            assert(b[i - s] == inds[i - s].declar());
        }
    }
    assert(is_block(es, n, s, v.1 as int)) by {
        assert forall|i: int| s <= i < s + v.1 && rank(#[trigger] es[i]) == 0 implies n.contains_key(
            es[i].info_spec().name.idx,
        ) && n[es[i].info_spec().name.idx] == (s as usize, v.1) by {
            let k = es[i].info_spec().name.idx;
            lemma_recorded(m, inds, v, k);
            assert(inds[i - s].name.idx == k);
        }
    }
    assert forall|i: int| 0 <= i < es.len() && rank(#[trigger] es[i]) == 0 implies {
        let k = es[i].info_spec().name.idx;
        &&& n.contains_key(k)
        &&& n[k].0 <= i < n[k].0 + n[k].1
        &&& is_block(es, n, n[k].0 as int, n[k].1 as int)
    } by {
        if i < s {
            assert(es[i] == ds[i]);
            let k = ds[i].info_spec().name.idx;
            lemma_block_kept(ds, es, m, n, m[k].0 as int, m[k].1 as int);
        }
    }
    assert forall|k: usize| #[trigger] n.contains_key(k) implies exists|i: int|
        0 <= i < es.len() && rank(#[trigger] es[i]) == 0 && es[i].info_spec().name.idx == k by {
        lemma_recorded(m, inds, v, k);
        if exists|j: int| 0 <= j < inds.len() && (#[trigger] inds[j]).name.idx == k {
            let j = choose|j: int| 0 <= j < inds.len() && (#[trigger] inds[j]).name.idx == k;
            assert(rank(es[s + j]) == 0);
        } else {
            assert(m.contains_key(k));
            let i = choose|i: int|
                0 <= i < ds.len() && rank(#[trigger] ds[i]) == 0 && ds[i].info_spec().name.idx == k;
            assert(es[i] == ds[i]);
        }
    }
}

impl Builder {
    /// Whether a declaration has this name.
    pub fn is_declared(&self, name: NamePtr) -> (b: bool)
        requires
            self.wf(),
        ensures
            b == declares(self.declars(), name),
    {
        match self.declars.get(name) {
            Some(x) => {
                proof {
                    let i = choose|i: int| 0 <= i < self.declars@.len() && self.declars@[i] == *x;
                    assert(self.declars@[i].info_spec().name == name);
                }
                true
            },
            None => false,
        }
    }

    fn insert_declar(&mut self, declar: Declar)
        requires
            old(self).base_wf(),
            declar.ok(old(self).dag()),
            !declares(old(self).declars(), declar.info_spec().name),
        ensures
            final(self).base_wf(),
            final(self).dag() == old(self).dag(),
            final(self).blocks() == old(self).blocks(),
            final(self).config() == old(self).config(),
            final(self).declars() == old(self).declars().push(declar),
    {
        self.declars.insert_new(declar);
    }

    pub fn add_axiom(&mut self, name: NamePtr, uparams: LevelsPtr, ty: ExprPtr)
        requires
            old(self).wf(),
            old(self).dag().has_name(name),
            old(self).dag().has_levels(uparams),
            old(self).dag().has_expr(ty),
            !declares(old(self).declars(), name),
        ensures
            final(self).wf(),
            final(self).dag() == old(self).dag(),
            final(self).blocks() == old(self).blocks(),
            final(self).config() == old(self).config(),
            final(self).declars() == old(self).declars().push(
                Declar::Axiom { info: DeclarInfo { name, uparams, ty } },
            ),
    {
        let info = DeclarInfo { name, uparams, ty };
        self.insert_declar(Declar::Axiom { info });
        proof {
            lemma_no_block_added(old(self).declars@, self.declars@, self.mutual_block_sizes@);
        }
    }

    pub fn add_quot(&mut self, name: NamePtr, uparams: LevelsPtr, ty: ExprPtr)
        requires
            old(self).wf(),
            old(self).dag().has_name(name),
            old(self).dag().has_levels(uparams),
            old(self).dag().has_expr(ty),
            !declares(old(self).declars(), name),
        ensures
            final(self).wf(),
            final(self).dag() == old(self).dag(),
            final(self).blocks() == old(self).blocks(),
            final(self).config() == old(self).config(),
            final(self).declars() == old(self).declars().push(
                Declar::Quot { info: DeclarInfo { name, uparams, ty } },
            ),
    {
        let info = DeclarInfo { name, uparams, ty };
        self.insert_declar(Declar::Quot { info });
        proof {
            lemma_no_block_added(old(self).declars@, self.declars@, self.mutual_block_sizes@);
        }
    }

    pub fn add_theorem(&mut self, name: NamePtr, uparams: LevelsPtr, ty: ExprPtr, val: ExprPtr)
        requires
            old(self).wf(),
            old(self).dag().has_name(name),
            old(self).dag().has_levels(uparams),
            old(self).dag().has_expr(ty),
            old(self).dag().has_expr(val),
            !declares(old(self).declars(), name),
        ensures
            final(self).wf(),
            final(self).dag() == old(self).dag(),
            final(self).blocks() == old(self).blocks(),
            final(self).config() == old(self).config(),
            final(self).declars() == old(self).declars().push(
                Declar::Theorem { info: DeclarInfo { name, uparams, ty }, val },
            ),
    {
        let info = DeclarInfo { name, uparams, ty };
        self.insert_declar(Declar::Theorem { info, val });
        proof {
            lemma_no_block_added(old(self).declars@, self.declars@, self.mutual_block_sizes@);
        }
    }

    pub fn add_definition(&mut self, name: NamePtr, uparams: LevelsPtr, ty: ExprPtr, val: ExprPtr, hint: ReducibilityHint)
        requires
            old(self).wf(),
            old(self).dag().has_name(name),
            old(self).dag().has_levels(uparams),
            old(self).dag().has_expr(ty),
            old(self).dag().has_expr(val),
            !declares(old(self).declars(), name),
        ensures
            final(self).wf(),
            final(self).dag() == old(self).dag(),
            final(self).blocks() == old(self).blocks(),
            final(self).config() == old(self).config(),
            final(self).declars() == old(self).declars().push(
                Declar::Definition { info: DeclarInfo { name, uparams, ty }, val, hint },
            ),
    {
        let info = DeclarInfo { name, uparams, ty };
        self.insert_declar(Declar::Definition { info, val, hint });
        proof {
            lemma_no_block_added(old(self).declars@, self.declars@, self.mutual_block_sizes@);
        }
    }

    pub fn add_opaque(&mut self, name: NamePtr, uparams: LevelsPtr, ty: ExprPtr, val: ExprPtr)
        requires
            old(self).wf(),
            old(self).dag().has_name(name),
            old(self).dag().has_levels(uparams),
            old(self).dag().has_expr(ty),
            old(self).dag().has_expr(val),
            !declares(old(self).declars(), name),
        ensures
            final(self).wf(),
            final(self).dag() == old(self).dag(),
            final(self).blocks() == old(self).blocks(),
            final(self).config() == old(self).config(),
            final(self).declars() == old(self).declars().push(
                Declar::Opaque { info: DeclarInfo { name, uparams, ty }, val },
            ),
    {
        let info = DeclarInfo { name, uparams, ty };
        self.insert_declar(Declar::Opaque { info, val });
        proof {
            lemma_no_block_added(old(self).declars@, self.declars@, self.mutual_block_sizes@);
        }
    }
}

/// The names from the one at `n` on are not declared.
spec fn still_free(names: Seq<NamePtr>, n: int, ds: Seq<Declar>) -> bool {
    forall|i: int| n <= i < names.len() ==> !declares(ds, #[trigger] names[i])
}

proof fn lemma_still_free(names: Seq<NamePtr>, n: int, ds: Seq<Declar>, x: Declar)
    requires
        names.no_duplicates(),
        0 <= n < names.len(),
        still_free(names, n, ds),
        x.info_spec().name == names[n],
    ensures
        !declares(ds, x.info_spec().name),
        still_free(names, n + 1, ds.push(x)),
{
    let es = ds.push(x);
    assert(!declares(ds, names[n]));
    assert forall|i: int| n + 1 <= i < names.len() implies !declares(es, #[trigger] names[i]) by {
        assert(!declares(ds, names[i]));
        if declares(es, names[i]) {
            let j = choose|j: int|
                0 <= j < es.len() && (#[trigger] es[j]).info_spec().name == names[i];
            if j < ds.len() {
                assert(ds[j].info_spec().name == names[i]);
            }
        }
    }
}

impl Builder {
    /// Submit a whole mutual block: the inductive types, then all their
    /// constructors, then all recursors. They become declarations that stand next to
    /// each other in this order, and each inductive type records where the block
    /// starts and how many declarations it has.
    pub fn add_inductive_block(
        &mut self,
        inds: Vec<InductiveInput>,
        ctors: Vec<ConstructorInput>,
        recs: Vec<RecursorInput>,
    )
        requires
            old(self).wf(),
            inds@.len() + ctors@.len() + recs@.len() <= usize::MAX,
            forall|i: int| 0 <= i < inds@.len() ==> (#[trigger] inds@[i]).ok(old(self).dag()),
            forall|i: int| 0 <= i < ctors@.len() ==> (#[trigger] ctors@[i]).ok(old(self).dag()),
            forall|i: int| 0 <= i < recs@.len() ==> (#[trigger] recs@[i]).ok(old(self).dag()),
            block_names(inds@, ctors@, recs@).no_duplicates(),
            forall|i: int|
                0 <= i < block_names(inds@, ctors@, recs@).len() ==> !declares(
                    old(self).declars(),
                    #[trigger] block_names(inds@, ctors@, recs@)[i],
                ),
        ensures
            final(self).wf(),
            final(self).dag() == old(self).dag(),
            final(self).config() == old(self).config(),
            old(self).declars().is_prefix_of(final(self).declars()),
            block_declars(
                inds@,
                ctors@,
                recs@,
                final(self).declars().skip(old(self).declars().len() as int),
            ),
            final(self).blocks() == recorded(
                old(self).blocks(),
                inds@,
                (
                    old(self).declars().len() as usize,
                    (inds@.len() + ctors@.len() + recs@.len()) as usize,
                ),
            ),
    {
        let block_start: usize = self.declars.len();
        let block_size: usize = inds.len() + ctors.len() + recs.len();
        let ghost v = (block_start, block_size);
        let ghost names = block_names(inds@, ctors@, recs@);
        let ghost (is, cs, rs) = (inds@, ctors@, recs@);
        let ghost ds = self.declars@;
        let ghost d = self.dag;
        let ghost m = self.mutual_block_sizes@;

        let ghost cfg = self.config;
        proof {
            assert forall|i: int| 0 <= i < is.len() implies names[i] == (#[trigger] is[i]).name by {}
            assert(is.take(0) =~= Seq::<InductiveInput>::empty());
        }
        for ind in it: inds
            invariant
                self.base_wf(),
                self.dag == d,
                self.config == cfg,
                it.seq() == is,
                v == (block_start, block_size),
                names == block_names(is, cs, rs),
                names.no_duplicates(),
                forall|i: int| 0 <= i < is.len() ==> (#[trigger] is[i]).ok(d),
                still_free(names, it.index() as int, self.declars@),
                self.declars@.len() == ds.len() + it.index(),
                ds.is_prefix_of(self.declars@),
                forall|k: int|
                    0 <= k < it.index() ==> #[trigger] self.declars@[ds.len() + k]
                        == is[k].declar(),
                self.mutual_block_sizes@ == recorded(m, is.take(it.index() as int), v),
        {
            let ghost n = it.index() as int;
            let ghost before = self.declars@;
            assert(ind == is[n]);
            self.mutual_block_sizes.insert(ind.name.idx, (block_start, block_size));
            let info = DeclarInfo { name: ind.name, uparams: ind.uparams, ty: ind.ty };
            let declar = Declar::Inductive(
                InductiveData {
                    info,
                    is_recursive: ind.is_recursive,
                    is_nested: ind.is_nested,
                    num_params: ind.num_params,
                    num_indices: ind.num_indices,
                    all_ind_names: ind.all_ind_names,
                    all_ctor_names: ind.all_ctor_names,
                },
            );
            proof {
                assert(names[n] == is[n].name);
                lemma_still_free(names, n, before, declar);
                assert(is.take(n + 1).drop_last() =~= is.take(n));
                assert(is[n].ok(d));
            }
            self.insert_declar(declar);
        }
        assert(is.take(is.len() as int) =~= is);
        for ctor in it: ctors
            invariant
                self.base_wf(),
                self.dag == d,
                self.config == cfg,
                it.seq() == cs,
                names == block_names(is, cs, rs),
                names.no_duplicates(),
                forall|i: int| 0 <= i < cs.len() ==> (#[trigger] cs[i]).ok(d),
                still_free(names, is.len() + it.index(), self.declars@),
                self.declars@.len() == ds.len() + is.len() + it.index(),
                ds.is_prefix_of(self.declars@),
                forall|k: int|
                    0 <= k < is.len() ==> #[trigger] self.declars@[ds.len() + k]
                        == is[k].declar(),
                forall|k: int|
                    0 <= k < it.index() ==> #[trigger] self.declars@[ds.len() + is.len() + k]
                        == cs[k].declar(),
                self.mutual_block_sizes@ == recorded(m, is, v),
        {
            let ghost n = it.index() as int;
            let ghost before = self.declars@;
            assert(ctor == cs[n]);
            let info = DeclarInfo { name: ctor.name, uparams: ctor.uparams, ty: ctor.ty };
            let declar = Declar::Constructor(
                ConstructorData {
                    info,
                    inductive_name: ctor.inductive_name,
                    ctor_idx: ctor.ctor_idx,
                    num_params: ctor.num_params,
                    num_fields: ctor.num_fields,
                },
            );
            proof {
                assert(names[is.len() + n] == cs[n].name);
                lemma_still_free(names, is.len() + n, before, declar);
                assert(cs[n].ok(d));
            }
            self.insert_declar(declar);
        }
        for rec in it: recs
            invariant
                self.base_wf(),
                self.dag == d,
                self.config == cfg,
                it.seq() == rs,
                names == block_names(is, cs, rs),
                names.no_duplicates(),
                forall|i: int| 0 <= i < rs.len() ==> (#[trigger] rs[i]).ok(d),
                still_free(names, is.len() + cs.len() + it.index(), self.declars@),
                self.declars@.len() == ds.len() + is.len() + cs.len() + it.index(),
                ds.is_prefix_of(self.declars@),
                forall|k: int|
                    0 <= k < is.len() ==> #[trigger] self.declars@[ds.len() + k]
                        == is[k].declar(),
                forall|k: int|
                    0 <= k < cs.len() ==> #[trigger] self.declars@[ds.len() + is.len() + k]
                        == cs[k].declar(),
                forall|k: int|
                    0 <= k < it.index() ==> rs[k].becomes(
                        #[trigger] self.declars@[ds.len() + is.len() + cs.len() + k],
                    ),
                self.mutual_block_sizes@ == recorded(m, is, v),
        {
            let ghost n = it.index() as int;
            let ghost before = self.declars@;
            assert(rec == rs[n]);
            let info = DeclarInfo { name: rec.name, uparams: rec.uparams, ty: rec.ty };
            let declar = Declar::Recursor(
                RecursorData {
                    info,
                    rec_rules: rec.to_rules(),
                    all_inductives: rec.all_inductives,
                    num_params: rec.num_params,
                    num_indices: rec.num_indices,
                    num_motives: rec.num_motives,
                    num_minors: rec.num_minors,
                    is_k: rec.is_k,
                },
            );
            proof {
                assert(names[is.len() + cs.len() + n] == rs[n].name);
                lemma_still_free(names, is.len() + cs.len() + n, before, declar);
                assert(rs[n].ok(d));
            }
            self.insert_declar(declar);
        }
        proof {
            let es = self.declars@;
            let b = es.skip(ds.len() as int);
            assert(block_declars(is, cs, rs, b)) by {
                assert forall|i: int| 0 <= i < is.len() implies #[trigger] b[i]
                    == is[i].declar() by {
                    assert(b[i] == es[ds.len() + i]);
                }
                assert forall|i: int| 0 <= i < cs.len() implies #[trigger] b[is.len() + i]
                    == cs[i].declar() by {
                    assert(b[is.len() + i] == es[ds.len() + is.len() + i]);
                }
                assert forall|i: int| 0 <= i < rs.len() implies rs[i].becomes(
                    #[trigger] b[is.len() + cs.len() + i],
                ) by {
                    assert(b[is.len() + cs.len() + i] == es[ds.len() + is.len() + cs.len() + i]);
                }
            }
            assert forall|i: int| 0 <= i < is.len() implies !declares(
                ds,
                (#[trigger] is[i]).name,
            ) by {
                assert(names[i] == is[i].name);
            }
            lemma_block_added(ds, es, m, is, cs, rs, v);
        }
    }
}

fn max_u32(a: u32, b: u32) -> (m: u32)
    ensures
        m as nat == crate::tree::larger(a as nat, b as nat),
{
    if a < b {
        b
    } else {
        a
    }
}

fn minus_one(a: u32) -> (m: u32)
    ensures
        m as nat == crate::tree::pred(a as nat),
{
    a.saturating_sub(1)
}

} // verus!
