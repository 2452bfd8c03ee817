//! What declarations the constants of a snapshot stand for, and what environment
//! they make up.
use vstd::prelude::*;

use crate::dag::LeanDag;
use crate::decode::decode_expr;
use crate::decode::decode_name;
use crate::decode::expr_field;
use crate::decode::name_array;
use crate::decode::param_array;
use crate::env::rank;
use crate::env::Declar;
use crate::heap::ExtractError;
use crate::heap::Heap;
use crate::heap::LeanObj;
use crate::node::ReducibilityHint;
use crate::parts::decl_parts;
use crate::parts::Part;
use crate::snapshot::ConstantInfo;
use crate::snapshot::RuleInfo;
use crate::snapshot::KIND_AXIOM;
use crate::snapshot::KIND_CTOR;
use crate::snapshot::KIND_DEF;
use crate::snapshot::KIND_INDUCT;
use crate::snapshot::KIND_OPAQUE;
use crate::snapshot::KIND_QUOT;
use crate::snapshot::KIND_REC;
use crate::snapshot::KIND_THM;
use crate::tree::BodyTree;
use crate::tree::DeclTree;
use crate::tree::ExprTree;
use crate::tree::NameTree;
use crate::tree::RuleTree;
use crate::units::Group;

verus! {

/// The low 16 bits of a number.
pub open spec fn low_bits(n: u32) -> u16 {
    (n % 0x1_0000) as u16
}

/// How eagerly the definition is unfolded.
pub open spec fn hint_of(c: ConstantInfo) -> ReducibilityHint {
    if c.hint_kind == 0 {
        ReducibilityHint::Opaque
    } else if c.hint_kind == 1 {
        ReducibilityHint::Abbrev
    } else {
        ReducibilityHint::Regular(low_bits(c.hint_height))
    }
}

/// The value of a definition, theorem or opaque constant: the field of an optional
/// expression, of which the absent one is a scalar.
pub open spec fn decode_value(h: &Heap, nats: bool, c: ConstantInfo) -> Result<
    ExprTree,
    ExtractError,
> {
    if !h.has(c.value) {
        Err(ExtractError::Malformed(c.value))
    } else {
        match h.objs@[c.value as int] {
            LeanObj::Scalar(_) => Err(ExtractError::NoValue),
            LeanObj::Boxed { .. } => expr_field(h, nats, c.value, 0),
        }
    }
}

/// What a declaration holds besides its name, universe parameters and type, for a
/// constant outside a mutual block. `i` is the position of the constant.
pub open spec fn singleton_body(h: &Heap, nats: bool, i: usize, c: ConstantInfo) -> Result<
    BodyTree,
    ExtractError,
> {
    if c.kind == KIND_AXIOM {
        Ok(BodyTree::Axiom)
    } else if c.kind == KIND_QUOT {
        Ok(BodyTree::Quot)
    } else if c.kind == KIND_THM {
        match decode_value(h, nats, c) {
            Err(e) => Err(e),
            Ok(val) => Ok(BodyTree::Theorem { val }),
        }
    } else if c.kind == KIND_OPAQUE {
        match decode_value(h, nats, c) {
            Err(e) => Err(e),
            Ok(val) => Ok(BodyTree::Opaque { val }),
        }
    } else if c.kind == KIND_DEF {
        match decode_value(h, nats, c) {
            Err(e) => Err(e),
            Ok(val) => Ok(BodyTree::Definition { val, hint: hint_of(c) }),
        }
    } else {
        Err(ExtractError::SingletonKind { constant: i, kind: c.kind })
    }
}

/// The computation rule that is encoded.
pub open spec fn decode_rule(h: &Heap, nats: bool, r: RuleInfo) -> Result<RuleTree, ExtractError> {
    match (decode_name(h, r.ctor), decode_expr(h, nats, r.rhs)) {
        (Err(e), _) => Err(e),
        (_, Err(e)) => Err(e),
        (Ok(ctor_name), Ok(rhs)) => Ok(
            RuleTree { ctor_name, num_fields: low_bits(r.num_fields), rhs },
        ),
    }
}

/// The computation rules that are encoded.
pub open spec fn decode_rules(h: &Heap, nats: bool, rs: Seq<RuleInfo>) -> Result<
    Seq<RuleTree>,
    ExtractError,
>
    decreases rs.len(),
{
    if rs.len() == 0 {
        Ok(Seq::empty())
    } else {
        match decode_rules(h, nats, rs.drop_last()) {
            Err(e) => Err(e),
            Ok(ts) => match decode_rule(h, nats, rs.last()) {
                Err(e) => Err(e),
                Ok(t) => Ok(ts.push(t)),
            },
        }
    }
}

/// What a declaration holds besides its name, universe parameters and type, for a
/// constant in a mutual block. `i` is the position of the constant.
pub open spec fn member_body(h: &Heap, nats: bool, i: usize, c: ConstantInfo) -> Result<
    BodyTree,
    ExtractError,
> {
    if c.kind == KIND_INDUCT {
        match (name_array(h, c.induct.all), name_array(h, c.induct.ctors)) {
            (Err(e), _) => Err(e),
            (_, Err(e)) => Err(e),
            (Ok(all_ind_names), Ok(all_ctor_names)) => Ok(
                BodyTree::Inductive {
                    is_recursive: c.induct.is_rec != 0,
                    is_nested: c.induct.num_nested > 0,
                    num_params: low_bits(c.induct.num_params),
                    num_indices: low_bits(c.induct.num_indices),
                    all_ind_names,
                    all_ctor_names,
                },
            ),
        }
    } else if c.kind == KIND_CTOR {
        match decode_name(h, c.ctor.induct) {
            Err(e) => Err(e),
            Ok(inductive_name) => Ok(
                BodyTree::Constructor {
                    inductive_name,
                    ctor_idx: low_bits(c.ctor.cidx),
                    num_params: low_bits(c.ctor.num_params),
                    num_fields: low_bits(c.ctor.num_fields),
                },
            ),
        }
    } else if c.kind == KIND_REC {
        match (name_array(h, c.rec.all), decode_rules(h, nats, c.rec.rules@)) {
            (Err(e), _) => Err(e),
            (_, Err(e)) => Err(e),
            (Ok(all_inductives), Ok(rec_rules)) => Ok(
                BodyTree::Recursor {
                    all_inductives,
                    num_params: low_bits(c.rec.num_params),
                    num_indices: low_bits(c.rec.num_indices),
                    num_motives: low_bits(c.rec.num_motives),
                    num_minors: low_bits(c.rec.num_minors),
                    rec_rules,
                    is_k: c.rec.k != 0,
                },
            ),
        }
    } else {
        Err(ExtractError::BlockKind { constant: i, kind: c.kind })
    }
}

/// The declaration with this body that the constant stands for.
pub open spec fn with_body(
    h: &Heap,
    nats: bool,
    c: ConstantInfo,
    body: Result<BodyTree, ExtractError>,
) -> Result<DeclTree, ExtractError> {
    match (
        decode_name(h, c.name),
        param_array(h, c.level_params),
        decode_expr(h, nats, c.ty),
        body,
    ) {
        (Err(e), _, _, _) => Err(e),
        (_, Err(e), _, _) => Err(e),
        (_, _, Err(e), _) => Err(e),
        (_, _, _, Err(e)) => Err(e),
        (Ok(name), Ok(uparams), Ok(ty), Ok(body)) => Ok(DeclTree { name, uparams, ty, body }),
    }
}

/// The declaration that a constant outside a mutual block stands for.
pub open spec fn decode_singleton(h: &Heap, nats: bool, i: usize, c: ConstantInfo) -> Result<
    DeclTree,
    ExtractError,
> {
    with_body(h, nats, c, singleton_body(h, nats, i, c))
}

/// The declaration that a constant in a mutual block stands for.
pub open spec fn decode_member(h: &Heap, nats: bool, i: usize, c: ConstantInfo) -> Result<
    DeclTree,
    ExtractError,
> {
    with_body(h, nats, c, member_body(h, nats, i, c))
}

/// The declarations that the constants at these positions stand for, as members of
/// a mutual block.
pub open spec fn decode_members(
    h: &Heap,
    nats: bool,
    cs: Seq<ConstantInfo>,
    mem: Seq<usize>,
) -> Result<Seq<DeclTree>, ExtractError>
    decreases mem.len(),
{
    if mem.len() == 0 {
        Ok(Seq::empty())
    } else {
        match decode_members(h, nats, cs, mem.drop_last()) {
            Err(e) => Err(e),
            Ok(ds) => match decode_member(h, nats, mem.last(), cs[mem.last() as int]) {
                Err(e) => Err(e),
                Ok(d) => Ok(ds.push(d)),
            },
        }
    }
}

/// The place of a declaration in its mutual block: inductive types first, then
/// constructors, then recursors.
pub open spec fn place(d: DeclTree) -> int {
    match d.body {
        BodyTree::Inductive { .. } => 0,
        BodyTree::Constructor { .. } => 1,
        BodyTree::Recursor { .. } => 2,
        _ => 3,
    }
}

/// The declarations with this place, in order.
pub open spec fn with_place(ds: Seq<DeclTree>, p: int) -> Seq<DeclTree>
    decreases ds.len(),
{
    if ds.len() == 0 {
        Seq::empty()
    } else if place(ds.last()) == p {
        with_place(ds.drop_last(), p).push(ds.last())
    } else {
        with_place(ds.drop_last(), p)
    }
}

/// The declarations of a mutual block in the order in which they are submitted.
pub open spec fn arranged(ds: Seq<DeclTree>) -> Seq<DeclTree> {
    with_place(ds, 0) + with_place(ds, 1) + with_place(ds, 2)
}

/// Each member of a block is decoded, and has a place in it.
pub proof fn lemma_members_decoded(h: &Heap, nats: bool, cs: Seq<ConstantInfo>, mem: Seq<usize>)
    ensures
        match decode_members(h, nats, cs, mem) {
            Err(_) => true,
            Ok(ds) => {
                &&& ds.len() == mem.len()
                &&& forall|k: int|
                    0 <= k < ds.len() ==> 0 <= place(#[trigger] ds[k]) <= 2 && decode_member(
                        h,
                        nats,
                        mem[k],
                        cs[mem[k] as int],
                    ) == Ok::<DeclTree, ExtractError>(ds[k])
            },
        },
    decreases mem.len(),
{
    if mem.len() > 0 {
        lemma_members_decoded(h, nats, cs, mem.drop_last());
    }
}

/// The declarations of a block are the same when they are arranged.
pub proof fn lemma_arranged(ds: Seq<DeclTree>)
    requires
        forall|k: int| 0 <= k < ds.len() ==> 0 <= place(#[trigger] ds[k]) <= 2,
    ensures
        arranged(ds).len() == ds.len(),
        forall|k: int| 0 <= k < ds.len() ==> arranged(ds).contains(#[trigger] ds[k]),
    decreases ds.len(),
{
    if ds.len() > 0 {
        let rest = ds.drop_last();
        let x = ds.last();
        assert forall|k: int| 0 <= k < rest.len() implies 0 <= place(#[trigger] rest[k]) <= 2 by {
            assert(rest[k] == ds[k]);
        }
        lemma_arranged(rest);
        assert(0 <= place(ds[ds.len() - 1]) <= 2);
        let (a, b, c) = (with_place(rest, 0), with_place(rest, 1), with_place(rest, 2));
        let (a1, b1, c1) = (with_place(ds, 0), with_place(ds, 1), with_place(ds, 2));
        assert forall|k: int| 0 <= k < ds.len() implies arranged(ds).contains(#[trigger] ds[k]) by {
            if k < rest.len() {
                assert(arranged(rest).contains(rest[k]));
                let j = choose|j: int| 0 <= j < arranged(rest).len() && arranged(rest)[j] == ds[k];
                if j < a.len() {
                    assert(arranged(ds)[j] == ds[k]);
                } else if j < a.len() + b.len() {
                    assert(arranged(ds)[a1.len() + (j - a.len())] == ds[k]);
                } else {
                    assert(arranged(ds)[a1.len() + b1.len() + (j - a.len() - b.len())] == ds[k]);
                }
            } else if place(x) == 0 {
                assert(arranged(ds)[a1.len() - 1] == x);
            } else if place(x) == 1 {
                assert(arranged(ds)[a1.len() + b1.len() - 1] == x);
            } else {
                assert(arranged(ds)[a1.len() + b1.len() + c1.len() - 1] == x);
            }
        }
    }
}

proof fn lemma_with_place(ds: Seq<DeclTree>)
    ensures
        with_place(ds, 0) == ds.filter(|d: DeclTree| d.body is Inductive),
        with_place(ds, 1) == ds.filter(|d: DeclTree| d.body is Constructor),
        with_place(ds, 2) == ds.filter(|d: DeclTree| d.body is Recursor),
    decreases ds.len(),
{
    reveal(Seq::filter);
    if ds.len() > 0 {
        lemma_with_place(ds.drop_last());
    } else {
        assert(ds =~= Seq::<DeclTree>::empty());
    }
}

/// Law: a block is submitted with its inductive types first, then its constructors,
/// then its recursors, each kind in the order in which its constants are given.
pub proof fn law_block_order(ds: Seq<DeclTree>)
    ensures
        arranged(ds) == ds.filter(|d: DeclTree| d.body is Inductive) + ds.filter(
            |d: DeclTree| d.body is Constructor,
        ) + ds.filter(|d: DeclTree| d.body is Recursor),
{
    lemma_with_place(ds);
}

/// A declaration of an environment; for an inductive type also where its mutual
/// block starts, and how many declarations the block has.
pub struct Entry {
    pub decl: DeclTree,
    pub block: Option<(int, int)>,
}

/// Whether the environment has a declaration with this name.
pub open spec fn taken(env: Seq<Entry>, name: NameTree) -> bool {
    exists|i: int| 0 <= i < env.len() && (#[trigger] env[i]).decl.name == name
}

/// Whether the declarations can be added: their names differ from each other and
/// from those that are taken.
pub open spec fn addable(env: Seq<Entry>, ds: Seq<DeclTree>) -> bool {
    &&& forall|i: int| 0 <= i < ds.len() ==> !taken(env, (#[trigger] ds[i]).name)
    &&& forall|i: int, j: int|
        0 <= i < ds.len() && 0 <= j < ds.len() && i != j ==> (#[trigger] ds[i]).name != (
        #[trigger] ds[j]).name
}

/// The environment with a mutual block added, whose declarations are given in the
/// order in which they are submitted.
pub open spec fn block_added(env: Seq<Entry>, ds: Seq<DeclTree>) -> Seq<Entry> {
    env + Seq::new(
        ds.len(),
        |i: int|
            Entry {
                decl: ds[i],
                block: if place(ds[i]) == 0 {
                    Some((env.len() as int, ds.len() as int))
                } else {
                    None
                },
            },
    )
}

/// The environment with a unit added.
#[verifier::opaque]
pub open spec fn unit_added(
    h: &Heap,
    nats: bool,
    cs: Seq<ConstantInfo>,
    unit: Group,
    env: Seq<Entry>,
) -> Result<Seq<Entry>, ExtractError> {
    if unit.is_block {
        match decode_members(h, nats, cs, unit.members) {
            Err(e) => Err(e),
            Ok(ds) => if addable(env, arranged(ds)) {
                Ok(block_added(env, arranged(ds)))
            } else {
                Err(ExtractError::Duplicate)
            },
        }
    } else {
        let i = unit.members[0];
        match decode_singleton(h, nats, i, cs[i as int]) {
            Err(e) => Err(e),
            Ok(d) => if addable(env, seq![d]) {
                Ok(env.push(Entry { decl: d, block: None }))
            } else {
                Err(ExtractError::Duplicate)
            },
        }
    }
}

/// The environment with the units added one after the other.
pub open spec fn units_added(
    h: &Heap,
    nats: bool,
    cs: Seq<ConstantInfo>,
    units: Seq<Group>,
    order: Seq<usize>,
    env: Seq<Entry>,
) -> Result<Seq<Entry>, ExtractError>
    decreases order.len(),
{
    if order.len() == 0 {
        Ok(env)
    } else {
        match units_added(h, nats, cs, units, order.drop_last(), env) {
            Err(e) => Err(e),
            Ok(env1) => unit_added(h, nats, cs, units[order.last() as int], env1),
        }
    }
}

/// The entries of an environment.
pub open spec fn entries_of(
    d: LeanDag,
    ds: Seq<Declar>,
    blocks: Map<usize, (usize, usize)>,
) -> Seq<Entry> {
    Seq::new(
        ds.len(),
        |i: int|
            Entry {
                decl: ds[i].tree(d),
                block: if rank(ds[i]) == 0 {
                    let b = blocks[ds[i].info_spec().name.idx];
                    Some((b.0 as int, b.1 as int))
                } else {
                    None
                },
            },
    )
}

/// The parts of the entries of an environment from position `n` on.
pub open spec fn parts_from(env: Seq<Entry>, n: int) -> Set<Part> {
    Set::new(
        |p: Part|
            exists|i: int|
                n <= i < env.len() && decl_parts((#[trigger] env[i]).decl).contains(p),
    )
}

} // verus!
