//! Configuration, declarations, and the finished environment.
use std::collections::HashMap;
use vstd::prelude::*;

use crate::dag::LeanDag;
use crate::node::ExprPtr;
use crate::node::LevelsPtr;
use crate::node::NamePtr;
use crate::node::ReducibilityHint;
use crate::tree::BodyTree;
use crate::tree::DeclTree;
use crate::tree::NameTree;
use crate::tree::RuleTree;

verus! {

broadcast use vstd::std_specs::hash::group_hash_axioms;

/// Settings of a check.
#[derive(Clone, Copy, Debug)]
pub struct Config {
    /// Whether number literals are part of the language.
    pub nat_extension: bool,
    /// Whether string literals are part of the language.
    pub string_extension: bool,
    pub print_success_message: bool,
    pub print_axioms: bool,
    /// How many threads check declarations.
    pub num_threads: usize,
}

impl Default for Config {
    /// Both literal extensions, one thread, and nothing printed.
    fn default() -> (c: Config)
        ensures
            c.nat_extension,
            c.string_extension,
            !c.print_success_message,
            !c.print_axioms,
            c.num_threads == 1,
    {
        Config {
            nat_extension: true,
            string_extension: true,
            print_success_message: false,
            print_axioms: false,
            num_threads: 1,
        }
    }
}

/// What every declaration has.
#[derive(Clone, Copy, Debug, PartialEq, Eq, Structural)]
pub struct DeclarInfo {
    pub name: NamePtr,
    pub uparams: LevelsPtr,
    pub ty: ExprPtr,
}

/// One computation rule of a recursor.
#[derive(Clone, Copy, Debug, PartialEq, Eq, Structural)]
pub struct RecRule {
    pub ctor_name: NamePtr,
    /// The number of arguments of the constructor, the parameters of the inductive
    /// type not counted.
    pub ctor_telescope_size_wo_params: u16,
    pub val: ExprPtr,
}

#[derive(Debug)]
pub struct InductiveData {
    pub info: DeclarInfo,
    pub is_recursive: bool,
    pub is_nested: bool,
    pub num_params: u16,
    pub num_indices: u16,
    pub all_ind_names: Vec<NamePtr>,
    pub all_ctor_names: Vec<NamePtr>,
}

#[derive(Debug)]
pub struct ConstructorData {
    pub info: DeclarInfo,
    pub inductive_name: NamePtr,
    pub ctor_idx: u16,
    pub num_params: u16,
    pub num_fields: u16,
}

#[derive(Debug)]
pub struct RecursorData {
    pub info: DeclarInfo,
    pub all_inductives: Vec<NamePtr>,
    pub num_params: u16,
    pub num_indices: u16,
    pub num_motives: u16,
    pub num_minors: u16,
    pub rec_rules: Vec<RecRule>,
    pub is_k: bool,
}

/// A declaration.
#[derive(Debug)]
pub enum Declar {
    Axiom { info: DeclarInfo },
    Quot { info: DeclarInfo },
    Theorem { info: DeclarInfo, val: ExprPtr },
    Definition { info: DeclarInfo, val: ExprPtr, hint: ReducibilityHint },
    Opaque { info: DeclarInfo, val: ExprPtr },
    Inductive(InductiveData),
    Constructor(ConstructorData),
    Recursor(RecursorData),
}

/// The names that a list of pointers stands for.
pub open spec fn names_of(d: LeanDag, ps: Seq<NamePtr>) -> Seq<NameTree> {
    ps.map_values(|p: NamePtr| d.name(p))
}

/// The rules that a list of rules stands for.
pub open spec fn rules_of(d: LeanDag, rs: Seq<RecRule>) -> Seq<RuleTree> {
    rs.map_values(
        |r: RecRule|
            RuleTree {
                ctor_name: d.name(r.ctor_name),
                num_fields: r.ctor_telescope_size_wo_params,
                rhs: d.expr(r.val),
            },
    )
}

pub open spec fn has_names(d: LeanDag, ps: Seq<NamePtr>) -> bool {
    forall|i: int| 0 <= i < ps.len() ==> d.has_name(#[trigger] ps[i])
}

pub open spec fn has_rules(d: LeanDag, rs: Seq<RecRule>) -> bool {
    forall|i: int|
        0 <= i < rs.len() ==> d.has_name((#[trigger] rs[i]).ctor_name) && d.has_expr(rs[i].val)
}

impl DeclarInfo {
    pub open spec fn ok(self, d: LeanDag) -> bool {
        d.has_name(self.name) && d.has_levels(self.uparams) && d.has_expr(self.ty)
    }
}

impl Declar {
    pub open spec fn info_spec(self) -> DeclarInfo {
        match self {
            Declar::Axiom { info } => info,
            Declar::Quot { info } => info,
            Declar::Theorem { info, .. } => info,
            Declar::Definition { info, .. } => info,
            Declar::Opaque { info, .. } => info,
            Declar::Inductive(x) => x.info,
            Declar::Constructor(x) => x.info,
            Declar::Recursor(x) => x.info,
        }
    }

    /// What every declaration has: name, universe parameters, type.
    pub fn info(&self) -> (i: &DeclarInfo)
        ensures
            *i == self.info_spec(),
    {
        match self {
            Declar::Axiom { info } => info,
            Declar::Quot { info } => info,
            Declar::Theorem { info, .. } => info,
            Declar::Definition { info, .. } => info,
            Declar::Opaque { info, .. } => info,
            Declar::Inductive(x) => &x.info,
            Declar::Constructor(x) => &x.info,
            Declar::Recursor(x) => &x.info,
        }
    }

    /// All pointers of the declaration are pointers of the graph.
    pub open spec fn ok(self, d: LeanDag) -> bool {
        &&& self.info_spec().ok(d)
        &&& match self {
            Declar::Axiom { .. } => true,
            Declar::Quot { .. } => true,
            Declar::Theorem { val, .. } => d.has_expr(val),
            Declar::Definition { val, .. } => d.has_expr(val),
            Declar::Opaque { val, .. } => d.has_expr(val),
            Declar::Inductive(x) => has_names(d, x.all_ind_names@) && has_names(
                d,
                x.all_ctor_names@,
            ),
            Declar::Constructor(x) => d.has_name(x.inductive_name),
            Declar::Recursor(x) => has_names(d, x.all_inductives@) && has_rules(d, x.rec_rules@),
        }
    }

    pub open spec fn body_tree(self, d: LeanDag) -> BodyTree {
        match self {
            Declar::Axiom { .. } => BodyTree::Axiom,
            Declar::Quot { .. } => BodyTree::Quot,
            Declar::Theorem { val, .. } => BodyTree::Theorem { val: d.expr(val) },
            Declar::Definition { val, hint, .. } => BodyTree::Definition { val: d.expr(val), hint },
            Declar::Opaque { val, .. } => BodyTree::Opaque { val: d.expr(val) },
            Declar::Inductive(x) => BodyTree::Inductive {
                is_recursive: x.is_recursive,
                is_nested: x.is_nested,
                num_params: x.num_params,
                num_indices: x.num_indices,
                all_ind_names: names_of(d, x.all_ind_names@),
                all_ctor_names: names_of(d, x.all_ctor_names@),
            },
            Declar::Constructor(x) => BodyTree::Constructor {
                inductive_name: d.name(x.inductive_name),
                ctor_idx: x.ctor_idx,
                num_params: x.num_params,
                num_fields: x.num_fields,
            },
            Declar::Recursor(x) => BodyTree::Recursor {
                all_inductives: names_of(d, x.all_inductives@),
                num_params: x.num_params,
                num_indices: x.num_indices,
                num_motives: x.num_motives,
                num_minors: x.num_minors,
                rec_rules: rules_of(d, x.rec_rules@),
                is_k: x.is_k,
            },
        }
    }

    /// The declaration that this stands for.
    pub open spec fn tree(self, d: LeanDag) -> DeclTree {
        DeclTree {
            name: d.name(self.info_spec().name),
            uparams: d.levels_at(self.info_spec().uparams),
            ty: d.expr(self.info_spec().ty),
            body: self.body_tree(d),
        }
    }
}

/// A graph that grows keeps what a declaration stands for.
pub proof fn lemma_declar_kept(x: Declar, d: LeanDag, e: LeanDag)
    requires
        x.ok(d),
        d.kept_in(e),
    ensures
        x.ok(e),
        x.tree(e) == x.tree(d),
{
    let i = x.info_spec();
    assert(e.has_name(i.name) && e.has_levels(i.uparams) && e.has_expr(i.ty));
    match x {
        Declar::Inductive(y) => {
            assert(names_of(e, y.all_ind_names@) =~= names_of(d, y.all_ind_names@));
            assert(names_of(e, y.all_ctor_names@) =~= names_of(d, y.all_ctor_names@));
        },
        Declar::Recursor(y) => {
            assert(names_of(e, y.all_inductives@) =~= names_of(d, y.all_inductives@));
            assert(rules_of(e, y.rec_rules@) =~= rules_of(d, y.rec_rules@));
        },
        _ => {},
    }
}

/// Declarations by name, in the order in which they were submitted.
pub struct DeclarMap {
    entries: Vec<Declar>,
    index: HashMap<usize, usize>,
}

/// No two declarations have the same name.
pub open spec fn distinct_names(ds: Seq<Declar>) -> bool {
    forall|i: int, j: int|
        0 <= i < ds.len() && 0 <= j < ds.len() && i != j ==> (#[trigger] ds[i]).info_spec().name != (
        #[trigger] ds[j]).info_spec().name
}

/// Whether a declaration has this name.
pub open spec fn declares(ds: Seq<Declar>, name: NamePtr) -> bool {
    exists|i: int| 0 <= i < ds.len() && (#[trigger] ds[i]).info_spec().name == name
}

impl View for DeclarMap {
    type V = Seq<Declar>;

    closed spec fn view(&self) -> Seq<Declar> {
        self.entries@
    }
}

impl DeclarMap {
    pub closed spec fn wf(&self) -> bool {
        &&& distinct_names(self@)
        &&& forall|i: int|
            0 <= i < self.entries.len() ==> {
                let k = (#[trigger] self.entries[i]).info_spec().name.idx;
                self.index@.contains_key(k) && self.index@[k] == i
            }
        &&& forall|k: usize| #[trigger]
            self.index@.contains_key(k) ==> {
                &&& self.index@[k] < self.entries.len()
                &&& self.entries[self.index@[k] as int].info_spec().name.idx == k
            }
    }

    pub proof fn len_fits(&self)
        ensures
            self@.len() <= usize::MAX,
    {
        assert(self@.len() == self.entries.len());
    }

    pub fn new() -> (m: DeclarMap)
        ensures
            m.wf(),
            m@ == Seq::<Declar>::empty(),
    {
        DeclarMap { entries: Vec::new(), index: HashMap::new() }
    }

    pub fn len(&self) -> (n: usize)
        ensures
            n == self@.len(),
    {
        self.entries.len()
    }

    /// The declarations in the order in which they were submitted.
    pub fn values(&self) -> (v: &Vec<Declar>)
        ensures
            v@ == self@,
    {
        &self.entries
    }

    /// The declaration with this name.
    pub fn get(&self, name: NamePtr) -> (r: Option<&Declar>)
        requires
            self.wf(),
        ensures
            match r {
                Some(x) => self@.contains(*x) && x.info_spec().name == name,
                None => !declares(self@, name),
            },
    {
        match self.index.get(&name.idx) {
            Some(i) => {
                let x = &self.entries[*i];
                assert(self@[*i as int] == *x);
                Some(x)
            },
            None => None,
        }
    }

    /// Append a declaration with a new name.
    pub fn insert_new(&mut self, x: Declar)
        requires
            old(self).wf(),
            !declares(old(self)@, x.info_spec().name),
        ensures
            final(self).wf(),
            final(self)@ == old(self)@.push(x),
    {
        let k: usize = x.info().name.idx;
        let i: usize = self.entries.len();
        self.index.insert(k, i);
        self.entries.push(x);
    }

    pub proof fn names_differ(&self)
        requires
            self.wf(),
        ensures
            distinct_names(self@),
    {
    }
}

/// The place of a declaration's kind within a mutual block: inductive types first,
/// then constructors, then recursors.
pub open spec fn rank(x: Declar) -> int {
    match x {
        Declar::Inductive(_) => 0,
        Declar::Constructor(_) => 1,
        Declar::Recursor(_) => 2,
        _ => 3,
    }
}

/// The declarations from `start` up to `start + size` are a mutual block: inductive
/// types, then constructors, then recursors, and each inductive type among them
/// records this start and size.
pub open spec fn is_block(
    ds: Seq<Declar>,
    blocks: Map<usize, (usize, usize)>,
    start: int,
    size: int,
) -> bool {
    &&& 0 <= start && 0 <= size && start + size <= ds.len()
    &&& forall|i: int| start <= i < start + size ==> rank(#[trigger] ds[i]) <= 2
    &&& forall|i: int, j: int|
        start <= i <= j < start + size ==> rank(#[trigger] ds[i]) <= rank(#[trigger] ds[j])
    &&& forall|i: int|
        start <= i < start + size && rank(#[trigger] ds[i]) == 0 ==> blocks.contains_key(
            ds[i].info_spec().name.idx,
        ) && blocks[ds[i].info_spec().name.idx] == (start as usize, size as usize)
}

/// Each inductive type stands in the block that is recorded under its name, and
/// nothing else is recorded.
pub open spec fn blocks_ok(ds: Seq<Declar>, blocks: Map<usize, (usize, usize)>) -> bool {
    &&& forall|i: int|
        0 <= i < ds.len() && rank(#[trigger] ds[i]) == 0 ==> {
            let k = ds[i].info_spec().name.idx;
            &&& blocks.contains_key(k)
            &&& blocks[k].0 <= i < blocks[k].0 + blocks[k].1
            &&& is_block(ds, blocks, blocks[k].0 as int, blocks[k].1 as int)
        }
    &&& forall|k: usize| #[trigger]
        blocks.contains_key(k) ==> exists|i: int|
            0 <= i < ds.len() && rank(#[trigger] ds[i]) == 0 && ds[i].info_spec().name.idx == k
}

/// A well-formed environment.
pub open spec fn env_wf(d: LeanDag, ds: DeclarMap, blocks: Map<usize, (usize, usize)>) -> bool {
    &&& d.wf()
    &&& ds.wf()
    &&& forall|i: int| 0 <= i < ds@.len() ==> (#[trigger] ds@[i]).ok(d)
    &&& blocks_ok(ds@, blocks)
}

/// A finished environment, ready to be checked.
pub struct ExportFile {
    pub dag: LeanDag,
    pub declars: DeclarMap,
    /// For each inductive type, by the index of its name: where its mutual block
    /// starts among the declarations, and how many declarations the block has.
    pub mutual_block_sizes: HashMap<usize, (usize, usize)>,
    pub config: Config,
}

impl ExportFile {
    pub open spec fn wf(&self) -> bool {
        env_wf(self.dag, self.declars, self.mutual_block_sizes@)
    }
}

/// A range of declarations that belong together: the recorded block of an inductive
/// type, or a single declaration.
pub open spec fn is_submission(
    ds: Seq<Declar>,
    blocks: Map<usize, (usize, usize)>,
    r: (usize, usize),
) -> bool {
    &&& r.0 < r.1 <= ds.len()
    &&& if rank(ds[r.0 as int]) == 0 {
        blocks[ds[r.0 as int].info_spec().name.idx] == (r.0, (r.1 - r.0) as usize)
    } else {
        r.1 == r.0 + 1
    }
}

/// The ranges follow each other, from 0 up to `n`.
pub open spec fn covers(rs: Seq<(usize, usize)>, n: int) -> bool {
    &&& forall|k: int|
        0 <= k < rs.len() ==> (#[trigger] rs[k]).0 == (if k == 0 {
            0
        } else {
            rs[k - 1].1 as int
        })
    &&& n == (if rs.len() == 0 {
        0
    } else {
        rs.last().1 as int
    })
}

/// No recorded block has declarations both before `i` and from `i` on.
spec fn splits_no_block(ds: Seq<Declar>, blocks: Map<usize, (usize, usize)>, i: int) -> bool {
    forall|j: int|
        0 <= j < ds.len() && rank(#[trigger] ds[j]) == 0 ==> {
            let b = blocks[ds[j].info_spec().name.idx];
            b.0 >= i || b.0 + b.1 <= i
        }
}

/// Where no block is split, none is behind the block, or the single declaration,
/// that starts there.
proof fn lemma_splits_no_block(
    ds: Seq<Declar>,
    blocks: Map<usize, (usize, usize)>,
    i: int,
    end: int,
)
    requires
        blocks_ok(ds, blocks),
        0 <= i < ds.len(),
        splits_no_block(ds, blocks, i),
        end == (if rank(ds[i]) == 0 {
            i + blocks[ds[i].info_spec().name.idx].1
        } else {
            i + 1
        }),
    ensures
        rank(ds[i]) == 0 ==> blocks[ds[i].info_spec().name.idx].0 == i,
        i < end <= ds.len(),
        splits_no_block(ds, blocks, end),
{
    assert forall|j: int| 0 <= j < ds.len() && rank(#[trigger] ds[j]) == 0 implies ({
        let b = blocks[ds[j].info_spec().name.idx];
        b.0 >= end || b.0 + b.1 <= end
    }) by {
        let b = blocks[ds[j].info_spec().name.idx];
        let s = b.0 as int;
        assert(is_block(ds, blocks, s, b.1 as int));
        if s < end && end < s + b.1 {
            assert(i <= s <= j);
            assert(rank(ds[s]) <= rank(ds[j]));
            assert(blocks[ds[s].info_spec().name.idx] == b);
            if rank(ds[i]) == 0 {
                let c = blocks[ds[i].info_spec().name.idx];
                assert(is_block(ds, blocks, c.0 as int, c.1 as int));
                assert(blocks[ds[s].info_spec().name.idx] == c);
            }
        }
    }
}

impl ExportFile {
    /// The ranges in which the declarations are handed to a kernel: the declarations
    /// of a mutual block together, any other declaration alone.
    pub fn submissions(&self) -> (rs: Vec<(usize, usize)>)
        requires
            self.wf(),
        ensures
            covers(rs@, self.declars@.len() as int),
            forall|k: int|
                0 <= k < rs@.len() ==> is_submission(
                    self.declars@,
                    self.mutual_block_sizes@,
                    #[trigger] rs@[k],
                ),
    {
        let mut rs: Vec<(usize, usize)> = Vec::new();
        let all = self.declars.values();
        let ghost (ds, blocks) = (self.declars@, self.mutual_block_sizes@);
        let n: usize = all.len();
        let mut i: usize = 0;
        while i < n
            invariant
                self.wf(),
                ds == self.declars@,
                blocks == self.mutual_block_sizes@,
                all@ == ds,
                n == ds.len(),
                i <= n,
                covers(rs@, i as int),
                splits_no_block(ds, blocks, i as int),
                forall|k: int| 0 <= k < rs@.len() ==> is_submission(ds, blocks, #[trigger] rs@[k]),
            decreases n - i,
        {
            let mut size: usize = 1;
            if let Declar::Inductive(x) = &all[i] {
                if let Some(b) = self.mutual_block_sizes.get(&x.info.name.idx) {
                    size = b.1;
                }
            }
            proof {
                assert(rank(ds[i as int]) == 0 ==> blocks.contains_key(
                    ds[i as int].info_spec().name.idx,
                ));
                lemma_splits_no_block(ds, blocks, i as int, i + size);
            }
            rs.push((i, i + size));
            i = i + size;
        }
        rs
    }
}

} // verus!
