//! From the constants of an imported environment to a finished environment that a
//! kernel can check, and from the kernel's outcome to a report.
use vstd::prelude::*;

use crate::builder::Builder;
use crate::declare::addable;
use crate::declare::arranged;
use crate::declare::block_added;
use crate::declare::decode_member;
use crate::declare::decode_members;
use crate::declare::decode_singleton;
use crate::declare::entries_of;
use crate::declare::parts_from;
use crate::declare::taken;
use crate::declare::unit_added;
use crate::declare::units_added;
use crate::declare::with_place;
use crate::declare::Entry;
use crate::emit::entries;
use crate::env::Config;
use crate::env::ExportFile;
use crate::graph::reaches;
use crate::heap::ExtractError;
use crate::heap::Heap;
use crate::key::texts;
use crate::order::submission_order;
use crate::order::topo_order;
use crate::order::unit_graph;
use crate::order::unit_named;
use crate::parts::lemma_made_of;
use crate::parts::made_of;
use crate::snapshot::decode_metas;
use crate::snapshot::gather_consts;
use crate::snapshot::ConstantInfo;
use crate::snapshot::Meta;
use crate::tree::DeclTree;
use crate::units::assign_units;
use crate::units::find;
use crate::units::groups_of;
use crate::units::key_of;
use crate::units::members;
use crate::units::unit_at;
use crate::units::unit_count;
use crate::units::unit_list;
use crate::units::Unit;
use crate::units::Group;
use crate::walk::Walker;

verus! {

/// The environment that the constants stand for: the units of the selected
/// constants, or all, with everything that they depend on, each unit after its
/// dependencies.
pub open spec fn environment(
    h: &Heap,
    nats: bool,
    cs: Seq<ConstantInfo>,
    selected: Seq<Seq<char>>,
) -> Result<Seq<Entry>, ExtractError> {
    match decode_metas(h, cs) {
        Err(e) => Err(e),
        Ok(ms) => units_added(
            h,
            nats,
            cs,
            unit_list(ms),
            submission_order(ms, selected),
            Seq::empty(),
        ),
    }
}

/// How many constants the units have.
pub open spec fn total_members(gs: Seq<Group>, order: Seq<usize>) -> nat
    decreases order.len(),
{
    if order.len() == 0 {
        0
    } else {
        total_members(gs, order.drop_last()) + gs[order.last() as int].members.len()
    }
}

proof fn lemma_metas_len(h: &Heap, cs: Seq<ConstantInfo>)
    ensures
        decode_metas(h, cs) is Ok ==> decode_metas(h, cs)->Ok_0.len() == cs.len(),
    decreases cs.len(),
{
    if cs.len() > 0 {
        lemma_metas_len(h, cs.drop_last());
    }
}

/// A unit that is no block has one member, and the members of a block all belong to
/// the block.
pub proof fn lemma_unit_shape(ms: Seq<Meta>, u: int)
    requires
        ms.len() <= usize::MAX,
        0 <= u < unit_count(ms),
    ensures
        unit_list(ms)[u].members.len() > 0,
        !unit_list(ms)[u].is_block ==> unit_list(ms)[u].members.len() == 1,
        forall|k: int|
            0 <= k < unit_list(ms)[u].members.len() ==> #[trigger] unit_list(ms)[u].members[k]
                < ms.len() && (key_of(ms, unit_list(ms)[u].members[k] as int) is Some)
                == unit_list(ms)[u].is_block,
{
    let mem = members(ms, u);
    crate::units::law_units_divide(ms, u);
    crate::units::law_units_inhabited(ms, u);
    assert(mem[0] < ms.len());
    assert forall|k: int| 0 <= k < mem.len() implies #[trigger] mem[k] < ms.len() && (key_of(
        ms,
        mem[k] as int,
    ) is Some) == (key_of(ms, mem[0] as int) is Some) && (k > 0 ==> key_of(ms, mem[0] as int)
        is Some) by {
        assert(mem[k] < ms.len());
        assert(mem.contains(mem[k]));
        assert(mem.contains(mem[0]));
        assert(unit_at(ms, mem[k] as int) == u);
        assert(unit_at(ms, mem[0] as int) == u);
        crate::units::law_same_unit(ms, mem[0] as int, mem[k] as int);
        if k > 0 {
            assert(mem[0] < mem[k]);
        }
    }
    if mem.len() > 1 {
        assert(mem[1] < ms.len());
    }
}

/// The declaration that the constant at `i` stands for.
pub open spec fn declaration(
    h: &Heap,
    nats: bool,
    ms: Seq<Meta>,
    cs: Seq<ConstantInfo>,
    i: usize,
) -> Result<DeclTree, ExtractError> {
    if key_of(ms, i as int) is Some {
        decode_member(h, nats, i, cs[i as int])
    } else {
        decode_singleton(h, nats, i, cs[i as int])
    }
}

/// Whether the environment has the declaration of the constant at `i`.
pub open spec fn declared(
    h: &Heap,
    nats: bool,
    ms: Seq<Meta>,
    cs: Seq<ConstantInfo>,
    env: Seq<Entry>,
    i: usize,
) -> bool {
    exists|p: int|
        0 <= p < env.len() && declaration(h, nats, ms, cs, i) == Ok::<DeclTree, ExtractError>(
            (#[trigger] env[p]).decl,
        )
}

/// What adding a unit does: one declaration for each of its constants, behind all
/// others.
#[verifier::rlimit(40)]
proof fn lemma_unit_added(
    h: &Heap,
    nats: bool,
    ms: Seq<Meta>,
    cs: Seq<ConstantInfo>,
    u: int,
    env: Seq<Entry>,
)
    requires
        ms.len() <= usize::MAX,
        0 <= u < unit_count(ms),
        unit_added(h, nats, cs, unit_list(ms)[u], env) is Ok,
    ensures
        ({
            let unit = unit_list(ms)[u];
            let after = unit_added(h, nats, cs, unit, env)->Ok_0;
            &&& env.is_prefix_of(after)
            &&& after.len() == env.len() + unit.members.len()
            &&& forall|k: int|
                0 <= k < unit.members.len() ==> exists|p: int|
                    env.len() <= p < after.len() && declaration(
                        h,
                        nats,
                        ms,
                        cs,
                        #[trigger] unit.members[k],
                    ) == Ok::<DeclTree, ExtractError>((#[trigger] after[p]).decl)
        }),
{
    reveal(unit_added);
    lemma_unit_shape(ms, u);
    let unit = unit_list(ms)[u];
    let after = unit_added(h, nats, cs, unit, env)->Ok_0;
    if unit.is_block {
        crate::declare::lemma_members_decoded(h, nats, cs, unit.members);
        let ds = decode_members(h, nats, cs, unit.members)->Ok_0;
        crate::declare::lemma_arranged(ds);
        let all = arranged(ds);
        assert(after == block_added(env, all));
        assert forall|k: int| 0 <= k < unit.members.len() implies exists|p: int|
            env.len() <= p < after.len() && declaration(
                h,
                nats,
                ms,
                cs,
                #[trigger] unit.members[k],
            ) == Ok::<DeclTree, ExtractError>((#[trigger] after[p]).decl) by {
            assert(all.contains(ds[k]));
            let j = choose|j: int| 0 <= j < all.len() && all[j] == ds[k];
            assert(after[env.len() + j].decl == ds[k]);
        }
    } else {
        assert(after[env.len() as int].decl == after.last().decl);
        assert forall|k: int| 0 <= k < unit.members.len() implies exists|p: int|
            env.len() <= p < after.len() && declaration(
                h,
                nats,
                ms,
                cs,
                #[trigger] unit.members[k],
            ) == Ok::<DeclTree, ExtractError>((#[trigger] after[p]).decl) by {
            assert(k == 0);
            assert(declaration(h, nats, ms, cs, unit.members[0]) == Ok::<DeclTree, ExtractError>(
                after[env.len() as int].decl,
            ));
        }
    }
}

/// What adding units does: one declaration for each of their constants, those of a
/// unit behind those of the units before it.
#[verifier::rlimit(40)]
pub proof fn lemma_units_added(
    h: &Heap,
    nats: bool,
    ms: Seq<Meta>,
    cs: Seq<ConstantInfo>,
    order: Seq<usize>,
)
    requires
        ms.len() <= usize::MAX,
        forall|k: int| 0 <= k < order.len() ==> #[trigger] order[k] < unit_count(ms),
        units_added(h, nats, cs, unit_list(ms), order, Seq::empty()) is Ok,
    ensures
        ({
            let env = units_added(h, nats, cs, unit_list(ms), order, Seq::empty())->Ok_0;
            &&& env.len() == total_members(unit_list(ms), order)
            &&& forall|j: int, k: int|
                0 <= j < order.len() && 0 <= k < unit_list(ms)[order[j] as int].members.len()
                    ==> exists|p: int|
                    {
                        &&& total_members(unit_list(ms), order.take(j)) <= p < total_members(
                            unit_list(ms),
                            order.take(j + 1),
                        )
                        &&& p < env.len()
                        &&& declaration(
                            h,
                            nats,
                            ms,
                            cs,
                            #[trigger] unit_list(ms)[order[j] as int].members[k],
                        ) == Ok::<DeclTree, ExtractError>((#[trigger] env[p]).decl)
                    }
        }),
    decreases order.len(),
{
    let gs = unit_list(ms);
    let env = units_added(h, nats, cs, gs, order, Seq::empty())->Ok_0;
    if order.len() > 0 {
        let rest = order.drop_last();
        let u = order.last();
        let n = rest.len() as int;
        assert(order[n] == u);
        assert forall|k: int| 0 <= k < rest.len() implies #[trigger] rest[k] < unit_count(ms) by {
            assert(rest[k] == order[k]);
        }
        lemma_units_added(h, nats, ms, cs, rest);
        let env0 = units_added(h, nats, cs, gs, rest, Seq::empty())->Ok_0;
        lemma_unit_added(h, nats, ms, cs, u as int, env0);
        assert(order.take(n) =~= rest);
        assert(order.take(n + 1) =~= order);
        assert forall|j: int, k: int| 0 <= j < order.len() && 0 <= k
            < gs[order[j] as int].members.len() implies exists|p: int|
            {
                &&& total_members(gs, order.take(j)) <= p < total_members(gs, order.take(j + 1))
                &&& p < env.len()
                &&& declaration(
                    h,
                    nats,
                    ms,
                    cs,
                    #[trigger] gs[order[j] as int].members[k],
                ) == Ok::<DeclTree, ExtractError>((#[trigger] env[p]).decl)
            } by {
            if j < n {
                assert(rest[j] == order[j]);
                let i = gs[rest[j] as int].members[k];
                let p = choose|p: int|
                    {
                        &&& total_members(gs, rest.take(j)) <= p < total_members(
                            gs,
                            rest.take(j + 1),
                        )
                        &&& p < env0.len()
                        &&& declaration(h, nats, ms, cs, i) == Ok::<DeclTree, ExtractError>(
                            (#[trigger] env0[p]).decl,
                        )
                    };
                assert(rest.take(j) =~= order.take(j));
                assert(rest.take(j + 1) =~= order.take(j + 1));
                assert(env[p] == env0[p]);
            } else {
                let i = gs[u as int].members[k];
                let p = choose|p: int|
                    env0.len() <= p < env.len() && declaration(h, nats, ms, cs, i) == Ok::<
                        DeclTree,
                        ExtractError,
                    >((#[trigger] env[p]).decl);
                assert(env[p].decl == env[p].decl);
            }
        }
    }
}

proof fn lemma_total_monotone(gs: Seq<Group>, order: Seq<usize>, a: int, b: int)
    requires
        0 <= a <= b <= order.len(),
    ensures
        total_members(gs, order.take(a)) <= total_members(gs, order.take(b)),
    decreases b,
{
    if a < b {
        lemma_total_monotone(gs, order, a, b - 1);
        assert(order.take(b).drop_last() =~= order.take(b - 1));
    }
}

/// The units of the order exist.
pub proof fn lemma_order_bound(ms: Seq<Meta>, selected: Seq<Seq<char>>)
    requires
        ms.len() <= usize::MAX,
    ensures
        forall|k: int|
            0 <= k < submission_order(ms, selected).len() ==> #[trigger] submission_order(
                ms,
                selected,
            )[k] < unit_count(ms),
{
    let o = submission_order(ms, selected);
    assert forall|k: int| 0 <= k < o.len() implies #[trigger] o[k] < unit_count(ms) by {
        assert(o.contains(o[k]));
        crate::order::law_submitted_once(ms, selected, o[k]);
        crate::order::lemma_graph_ok(ms, selected);
        let r = crate::order::root_units(ms, selected);
        let i = choose|i: int| 0 <= i < r.len() && reaches(unit_graph(ms), #[trigger] r[i], o[k]);
        crate::graph::lemma_reaches_nodes(unit_graph(ms), r[i], o[k]);
    }
}

/// Law: a constant is declared after every constant that it mentions, unless the
/// two are in the same unit or depend on each other in a circle.
#[verifier::rlimit(40)]
pub proof fn law_declared_after_mentioned(
    h: &Heap,
    nats: bool,
    cs: Seq<ConstantInfo>,
    selected: Seq<Seq<char>>,
    a: usize,
    d: int,
)
    requires
        cs.len() <= usize::MAX,
        environment(h, nats, cs, selected) is Ok,
        a < cs.len(),
        ({
            let ms = decode_metas(h, cs)->Ok_0;
            let name = ms[a as int].deps[d];
            &&& submission_order(ms, selected).contains(unit_at(ms, a as int) as usize)
            &&& 0 <= d < ms[a as int].deps.len()
            &&& find(ms, name) is Some
            &&& unit_at(ms, find(ms, name)->0) != unit_at(ms, a as int)
            &&& !reaches(
                unit_graph(ms),
                unit_at(ms, find(ms, name)->0) as usize,
                unit_at(ms, a as int) as usize,
            )
        }),
    ensures
        ({
            let ms = decode_metas(h, cs)->Ok_0;
            let b = find(ms, ms[a as int].deps[d])->0 as usize;
            let env = environment(h, nats, cs, selected)->Ok_0;
            exists|p: int, q: int|
                0 <= p < q < env.len() && declaration(h, nats, ms, cs, b) == Ok::<
                    DeclTree,
                    ExtractError,
                >((#[trigger] env[p]).decl) && declaration(h, nats, ms, cs, a) == Ok::<
                    DeclTree,
                    ExtractError,
                >((#[trigger] env[q]).decl)
        }),
{
    let ms = decode_metas(h, cs)->Ok_0;
    lemma_metas_len(h, cs);
    let name = ms[a as int].deps[d];
    let o = submission_order(ms, selected);
    let gs = unit_list(ms);
    let env = environment(h, nats, cs, selected)->Ok_0;
    crate::units::lemma_last_named(ms, name, ms.len() as int);
    let b = find(ms, name)->0 as usize;
    let (ua, ub) = (unit_at(ms, a as int) as usize, unit_at(ms, b as int) as usize);
    crate::units::law_units_divide(ms, ua as int);
    crate::units::law_units_divide(ms, ub as int);
    crate::units::lemma_count_bound(ms, ms.len() as int);
    assert(0 <= unit_at(ms, a as int) < unit_count(ms));
    assert(0 <= unit_at(ms, b as int) < unit_count(ms));
    let k = choose|k: int| 0 <= k < o.len() && o[k] == ua;
    assert(unit_named(ms, name) == Some(ub));
    crate::order::law_dependencies_first(ms, selected, k, a, d);
    let j = choose|j: int| 0 <= j < k && #[trigger] o[j] == ub;
    lemma_order_bound(ms, selected);
    lemma_units_added(h, nats, ms, cs, o);
    assert(members(ms, ua as int).contains(a));
    assert(members(ms, ub as int).contains(b));
    let ka = choose|i: int|
        0 <= i < members(ms, ua as int).len() && members(ms, ua as int)[i] == a;
    let kb = choose|i: int|
        0 <= i < members(ms, ub as int).len() && members(ms, ub as int)[i] == b;
    assert(gs[o[k] as int].members[ka] == a);
    assert(gs[o[j] as int].members[kb] == b);
    let q = choose|q: int|
        {
            &&& total_members(gs, o.take(k)) <= q < total_members(gs, o.take(k + 1))
            &&& q < env.len()
            &&& declaration(h, nats, ms, cs, a) == Ok::<DeclTree, ExtractError>(
                (#[trigger] env[q]).decl,
            )
        };
    let p = choose|p: int|
        {
            &&& total_members(gs, o.take(j)) <= p < total_members(gs, o.take(j + 1))
            &&& p < env.len()
            &&& declaration(h, nats, ms, cs, b) == Ok::<DeclTree, ExtractError>(
                (#[trigger] env[p]).decl,
            )
        };
    lemma_total_monotone(gs, o, j + 1, k);
    assert(p < q);
}

/// Law: as many constants are checked as the submitted units have members; each of
/// them has one declaration.
pub proof fn law_one_declaration_each(
    h: &Heap,
    nats: bool,
    cs: Seq<ConstantInfo>,
    selected: Seq<Seq<char>>,
)
    requires
        cs.len() <= usize::MAX,
        environment(h, nats, cs, selected) is Ok,
    ensures
        ({
            let ms = decode_metas(h, cs)->Ok_0;
            environment(h, nats, cs, selected)->Ok_0.len() == total_members(
                unit_list(ms),
                submission_order(ms, selected),
            )
        }),
{
    let ms = decode_metas(h, cs)->Ok_0;
    lemma_metas_len(h, cs);
    lemma_order_bound(ms, selected);
    lemma_units_added(h, nats, ms, cs, submission_order(ms, selected));
}

pub proof fn lemma_with_place_from(ds: Seq<DeclTree>, p: int, j: int)
    requires
        0 <= j < with_place(ds, p).len(),
    ensures
        ds.contains(with_place(ds, p)[j]),
    decreases ds.len(),
{
    let rest = ds.drop_last();
    if j < with_place(rest, p).len() {
        lemma_with_place_from(rest, p, j);
        let i = choose|i: int| 0 <= i < rest.len() && rest[i] == with_place(rest, p)[j];
        assert(ds[i] == with_place(ds, p)[j]);
    } else {
        assert(ds[ds.len() - 1] == with_place(ds, p)[j]);
    }
}

pub proof fn lemma_arranged_from(ds: Seq<DeclTree>, j: int) -> (k: int)
    requires
        0 <= j < arranged(ds).len(),
    ensures
        0 <= k < ds.len(),
        ds[k] == arranged(ds)[j],
{
    let all = arranged(ds);
    let (a, b) = (with_place(ds, 0).len() as int, with_place(ds, 1).len() as int);
    if j < a {
        lemma_with_place_from(ds, 0, j);
    } else if j < a + b {
        lemma_with_place_from(ds, 1, j - a);
    } else {
        lemma_with_place_from(ds, 2, j - a - b);
    }
    assert(ds.contains(all[j]));
    choose|k: int| 0 <= k < ds.len() && ds[k] == all[j]
}

/// Whether the constant is submitted with the units of `order`.
pub open spec fn submitted(ms: Seq<Meta>, order: Seq<usize>, i: usize) -> bool {
    i < ms.len() && order.contains(unit_at(ms, i as int) as usize)
}

/// Whether `d` is the declaration of a submitted constant.
pub open spec fn of_submitted(
    h: &Heap,
    nats: bool,
    ms: Seq<Meta>,
    cs: Seq<ConstantInfo>,
    order: Seq<usize>,
    d: DeclTree,
) -> bool {
    exists|i: usize| #[trigger]
        submitted(ms, order, i) && declaration(h, nats, ms, cs, i) == Ok::<DeclTree, ExtractError>(
            d,
        )
}

/// What a unit adds stands for its constants.
#[verifier::rlimit(40)]
proof fn lemma_added_from(
    h: &Heap,
    nats: bool,
    ms: Seq<Meta>,
    cs: Seq<ConstantInfo>,
    u: int,
    env: Seq<Entry>,
    p: int,
) -> (i: usize)
    requires
        ms.len() <= usize::MAX,
        0 <= u < unit_count(ms),
        unit_added(h, nats, cs, unit_list(ms)[u], env) is Ok,
        env.len() <= p < unit_added(h, nats, cs, unit_list(ms)[u], env)->Ok_0.len(),
    ensures
        i < ms.len(),
        unit_at(ms, i as int) == u,
        declaration(h, nats, ms, cs, i) == Ok::<DeclTree, ExtractError>(
            unit_added(h, nats, cs, unit_list(ms)[u], env)->Ok_0[p].decl,
        ),
{
    reveal(unit_added);
    lemma_unit_shape(ms, u);
    crate::units::law_units_divide(ms, u);
    let unit = unit_list(ms)[u];
    let after = unit_added(h, nats, cs, unit, env)->Ok_0;
    if unit.is_block {
        crate::declare::lemma_members_decoded(h, nats, cs, unit.members);
        let ds = decode_members(h, nats, cs, unit.members)->Ok_0;
        let k = lemma_arranged_from(ds, p - env.len());
        assert(after == block_added(env, arranged(ds)));
        assert(after[p].decl == ds[k]);
        assert(unit.members.contains(unit.members[k]));
        unit.members[k]
    } else {
        assert(unit.members.contains(unit.members[0]));
        unit.members[0]
    }
}

pub proof fn lemma_declared_from(
    h: &Heap,
    nats: bool,
    ms: Seq<Meta>,
    cs: Seq<ConstantInfo>,
    order: Seq<usize>,
    p: int,
) -> (i: usize)
    requires
        ms.len() <= usize::MAX,
        forall|k: int| 0 <= k < order.len() ==> #[trigger] order[k] < unit_count(ms),
        units_added(h, nats, cs, unit_list(ms), order, Seq::empty()) is Ok,
        0 <= p < units_added(h, nats, cs, unit_list(ms), order, Seq::empty())->Ok_0.len(),
    ensures
        submitted(ms, order, i),
        declaration(h, nats, ms, cs, i) == Ok::<DeclTree, ExtractError>(
            units_added(h, nats, cs, unit_list(ms), order, Seq::empty())->Ok_0[p].decl,
        ),
    decreases order.len(),
{
    let gs = unit_list(ms);
    let rest = order.drop_last();
    let u = order.last();
    assert(order[order.len() - 1] == u);
    assert forall|k: int| 0 <= k < rest.len() implies #[trigger] rest[k] < unit_count(ms) by {
        assert(rest[k] == order[k]);
    }
    let env0 = units_added(h, nats, cs, gs, rest, Seq::empty())->Ok_0;
    lemma_unit_added(h, nats, ms, cs, u as int, env0);
    if p < env0.len() {
        let i = lemma_declared_from(h, nats, ms, cs, rest, p);
        let j = choose|j: int| 0 <= j < rest.len() && rest[j] == unit_at(ms, i as int) as usize;
        assert(order[j] == rest[j]);
        i
    } else {
        let i = lemma_added_from(h, nats, ms, cs, u as int, env0, p);
        assert(order.contains(u));
        i
    }
}

/// Law: the declared constants are the submitted ones. Each submitted constant is
/// declared, and each declaration is that of a submitted constant.
#[verifier::rlimit(40)]
pub proof fn law_declared_are_submitted(
    h: &Heap,
    nats: bool,
    cs: Seq<ConstantInfo>,
    selected: Seq<Seq<char>>,
)
    requires
        cs.len() <= usize::MAX,
        environment(h, nats, cs, selected) is Ok,
    ensures
        ({
            let ms = decode_metas(h, cs)->Ok_0;
            let order = submission_order(ms, selected);
            let env = environment(h, nats, cs, selected)->Ok_0;
            &&& forall|i: usize| #[trigger]
                submitted(ms, order, i) ==> declared(h, nats, ms, cs, env, i)
            &&& forall|p: int|
                0 <= p < env.len() ==> of_submitted(
                    h,
                    nats,
                    ms,
                    cs,
                    order,
                    (#[trigger] env[p]).decl,
                )
        }),
{
    let ms = decode_metas(h, cs)->Ok_0;
    lemma_metas_len(h, cs);
    let o = submission_order(ms, selected);
    let gs = unit_list(ms);
    let env = environment(h, nats, cs, selected)->Ok_0;
    lemma_order_bound(ms, selected);
    lemma_units_added(h, nats, ms, cs, o);
    assert forall|i: usize| #[trigger] submitted(ms, o, i) implies declared(
        h,
        nats,
        ms,
        cs,
        env,
        i,
    ) by {
        let u = unit_at(ms, i as int) as usize;
        let j = choose|j: int| 0 <= j < o.len() && o[j] == u;
        crate::units::lemma_count_bound(ms, ms.len() as int);
        crate::units::law_units_divide(ms, u as int);
        assert(members(ms, u as int).contains(i));
        let k = choose|k: int|
            0 <= k < members(ms, u as int).len() && members(ms, u as int)[k] == i;
        assert(gs[o[j] as int].members[k] == i);
    }
    assert forall|p: int| 0 <= p < env.len() implies of_submitted(
        h,
        nats,
        ms,
        cs,
        o,
        (#[trigger] env[p]).decl,
    ) by {
        let i = lemma_declared_from(h, nats, ms, cs, o, p);
        assert(submitted(ms, o, i));
    }
}

proof fn lemma_distinct_added(
    h: &Heap,
    nats: bool,
    cs: Seq<ConstantInfo>,
    gs: Seq<Group>,
    order: Seq<usize>,
)
    requires
        units_added(h, nats, cs, gs, order, Seq::empty()) is Ok,
    ensures
        forall|p: int, q: int|
            #![trigger units_added(h, nats, cs, gs, order, Seq::empty())->Ok_0[p], units_added(
                h,
                nats,
                cs,
                gs,
                order,
                Seq::empty(),
            )->Ok_0[q]]
            0 <= p < q < units_added(h, nats, cs, gs, order, Seq::empty())->Ok_0.len()
                ==> units_added(h, nats, cs, gs, order, Seq::empty())->Ok_0[p].decl.name
                != units_added(h, nats, cs, gs, order, Seq::empty())->Ok_0[q].decl.name,
    decreases order.len(),
{
    if order.len() > 0 {
        reveal(unit_added);
        let rest = order.drop_last();
        lemma_distinct_added(h, nats, cs, gs, rest);
        let env0 = units_added(h, nats, cs, gs, rest, Seq::empty())->Ok_0;
        let env = units_added(h, nats, cs, gs, order, Seq::empty())->Ok_0;
        let unit = gs[order.last() as int];
        let ds = if unit.is_block {
            arranged(decode_members(h, nats, cs, unit.members)->Ok_0)
        } else {
            seq![decode_singleton(h, nats, unit.members[0], cs[unit.members[0] as int])->Ok_0]
        };
        let n = env0.len() as int;
        assert(addable(env0, ds));
        assert(env.len() == n + ds.len());
        assert forall|p: int, q: int|
            #![trigger env[p], env[q]]
            0 <= p < q < env.len() implies env[p].decl.name != env[q].decl.name by {
            if q < n {
                assert(env0[p].decl.name != env0[q].decl.name);
            } else {
                assert(env[q].decl == ds[q - n]);
                if p < n {
                    assert(env[p] == env0[p]);
                    assert(!taken(env0, ds[q - n].name));
                } else {
                    assert(env[p].decl == ds[p - n]);
                }
            }
        }
    }
}

/// Law: no two declarations of an environment have the same name.
pub proof fn law_names_differ(
    h: &Heap,
    nats: bool,
    cs: Seq<ConstantInfo>,
    selected: Seq<Seq<char>>,
    p: int,
    q: int,
)
    requires
        environment(h, nats, cs, selected) is Ok,
        0 <= p < q < environment(h, nats, cs, selected)->Ok_0.len(),
    ensures
        environment(h, nats, cs, selected)->Ok_0[p].decl.name != environment(
            h,
            nats,
            cs,
            selected,
        )->Ok_0[q].decl.name,
{
    let ms = decode_metas(h, cs)->Ok_0;
    lemma_distinct_added(h, nats, cs, unit_list(ms), submission_order(ms, selected));
}

/// The constants of the units, one unit after the other.
spec fn all_members(gs: Seq<Group>, order: Seq<usize>) -> Seq<usize>
    decreases order.len(),
{
    if order.len() == 0 {
        Seq::empty()
    } else {
        all_members(gs, order.drop_last()) + gs[order.last() as int].members
    }
}

proof fn lemma_all_members(ms: Seq<Meta>, order: Seq<usize>)
    requires
        ms.len() <= usize::MAX,
        order.no_duplicates(),
        forall|k: int| 0 <= k < order.len() ==> #[trigger] order[k] < unit_count(ms),
    ensures
        all_members(unit_list(ms), order).len() == total_members(unit_list(ms), order),
        all_members(unit_list(ms), order).no_duplicates(),
        forall|i: usize| #[trigger]
            all_members(unit_list(ms), order).contains(i) <==> submitted(ms, order, i),
    decreases order.len(),
{
    let gs = unit_list(ms);
    let all = all_members(gs, order);
    if order.len() > 0 {
        let rest = order.drop_last();
        let u = order.last();
        assert(order[order.len() - 1] == u);
        assert forall|k: int| 0 <= k < rest.len() implies #[trigger] rest[k] < unit_count(ms) by {
            assert(rest[k] == order[k]);
        }
        lemma_all_members(ms, rest);
        crate::units::law_units_divide(ms, u as int);
        crate::units::lemma_count_bound(ms, ms.len() as int);
        let first = all_members(gs, rest);
        let mem = gs[u as int].members;
        assert(!rest.contains(u)) by {
            if rest.contains(u) {
                let k = choose|k: int| 0 <= k < rest.len() && rest[k] == u;
                assert(order[k] == order[order.len() - 1]);
            }
        }
        assert forall|i: usize| #[trigger] all.contains(i) <==> submitted(ms, order, i) by {
            if all.contains(i) {
                let p = choose|p: int| 0 <= p < all.len() && all[p] == i;
                if p < first.len() {
                    assert(first[p] == i);
                    assert(first.contains(i));
                    let k = choose|k: int|
                        0 <= k < rest.len() && rest[k] == unit_at(ms, i as int) as usize;
                    assert(order[k] == rest[k]);
                } else {
                    assert(mem[p - first.len()] == i);
                    assert(mem.contains(i));
                    assert(order.contains(u));
                }
            }
            if submitted(ms, order, i) {
                let k = choose|k: int|
                    0 <= k < order.len() && order[k] == unit_at(ms, i as int) as usize;
                if k < rest.len() {
                    assert(rest[k] == order[k]);
                    assert(rest.contains(unit_at(ms, i as int) as usize));
                    assert(first.contains(i));
                    let p = choose|p: int| 0 <= p < first.len() && first[p] == i;
                    assert(all[p] == i);
                } else {
                    assert(mem.contains(i));
                    let p = choose|p: int| 0 <= p < mem.len() && mem[p] == i;
                    assert(all[first.len() + p] == i);
                }
            }
        }
        assert forall|p: int, q: int|
            0 <= p < all.len() && 0 <= q < all.len() && p != q implies all[p] != all[q] by {
            lemma_all_differ(ms, rest, u, p, q);
            lemma_all_differ(ms, rest, u, q, p);
        }
    }
}

proof fn lemma_all_differ(ms: Seq<Meta>, rest: Seq<usize>, u: usize, p: int, q: int)
    requires
        ms.len() <= usize::MAX,
        u < unit_count(ms),
        !rest.contains(u),
        all_members(unit_list(ms), rest).no_duplicates(),
        forall|i: usize| #[trigger]
            all_members(unit_list(ms), rest).contains(i) <==> submitted(ms, rest, i),
        0 <= p < all_members(unit_list(ms), rest).len() + unit_list(ms)[u as int].members.len(),
        0 <= q < all_members(unit_list(ms), rest).len() + unit_list(ms)[u as int].members.len(),
    ensures
        ({
            let all = all_members(unit_list(ms), rest) + unit_list(ms)[u as int].members;
            p < q ==> all[p] != all[q]
        }),
{
    let first = all_members(unit_list(ms), rest);
    let mem = unit_list(ms)[u as int].members;
    crate::units::law_units_divide(ms, u as int);
    crate::units::lemma_count_bound(ms, ms.len() as int);
    if p < q {
        if q < first.len() {
        } else if p < first.len() {
            assert(first.contains(first[p]));
            assert(mem.contains(mem[q - first.len()]));
        } else {
            assert(mem[p - first.len()] < mem[q - first.len()]);
        }
    }
}

/// Law: without a selection every constant is declared, and nothing else is: there
/// are as many declarations as constants.
pub proof fn law_whole_environment(h: &Heap, nats: bool, cs: Seq<ConstantInfo>)
    requires
        cs.len() <= usize::MAX,
        environment(h, nats, cs, Seq::empty()) is Ok,
    ensures
        ({
            let ms = decode_metas(h, cs)->Ok_0;
            let env = environment(h, nats, cs, Seq::empty())->Ok_0;
            &&& env.len() == cs.len()
            &&& forall|i: usize| i < cs.len() ==> #[trigger] declared(h, nats, ms, cs, env, i)
        }),
{
    let none = Seq::<Seq<char>>::empty();
    let ms = decode_metas(h, cs)->Ok_0;
    lemma_metas_len(h, cs);
    let o = submission_order(ms, none);
    let gs = unit_list(ms);
    let env = environment(h, nats, cs, none)->Ok_0;
    law_one_declaration_each(h, nats, cs, none);
    law_declared_are_submitted(h, nats, cs, none);
    lemma_order_bound(ms, none);
    crate::order::law_submitted_once(ms, none, 0);
    crate::units::lemma_count_bound(ms, ms.len() as int);
    crate::units::law_units_divide(ms, 0);
    assert forall|i: usize| i < ms.len() implies #[trigger] submitted(ms, o, i) by {
        let u = unit_at(ms, i as int) as usize;
        assert(0 <= unit_at(ms, i as int) < unit_count(ms));
        crate::order::law_all_without_selection(ms, u);
    }
    lemma_all_members(ms, o);
    let all = all_members(gs, o);
    let each = Seq::new(ms.len(), |i: int| i as usize);
    assert(each.no_duplicates());
    assert forall|i: usize| all.contains(i) <==> each.contains(i) by {
        assert(all.contains(i) <==> submitted(ms, o, i));
        if i < ms.len() {
            assert(submitted(ms, o, i));
            assert(each[i as int] == i);
        }
    }
    assert(all.to_set() =~= each.to_set());
    all.unique_seq_to_set();
    each.unique_seq_to_set();
    assert forall|i: usize| i < cs.len() implies #[trigger] declared(h, nats, ms, cs, env, i) by {
        assert(submitted(ms, o, i));
    }
}

/// Put the selected constants and their dependencies, or all constants, into an
/// environment in which each declaration follows the ones it depends on. Gives the
/// environment back with the number of constants in it; its graph holds nothing but
/// what the declarations are made of.
#[verifier::rlimit(40)]
pub fn build_environment(
    heap: &Heap,
    consts: &Vec<ConstantInfo>,
    selected: &Vec<String>,
    num_threads: usize,
) -> (r: Result<(ExportFile, usize), ExtractError>)
    ensures
        match (environment(heap, true, consts@, texts(selected@)), r) {
            (Ok(env), Ok((export, count))) => {
                &&& export.wf()
                &&& entries_of(export.dag, export.declars@, export.mutual_block_sizes@) == env
                &&& count == env.len()
                &&& made_of(export.dag, parts_from(env, 0))
                &&& export.config.num_threads == num_threads
                &&& export.config.nat_extension
                &&& export.config.string_extension
                &&& !export.config.print_success_message
                &&& !export.config.print_axioms
            },
            (Err(e), Err(f)) => e == f,
            _ => false,
        },
{
    let config = Config { num_threads, ..Config::default() };
    let builder = Builder::new(config);
    let metas = gather_consts(heap, consts)?;
    let us = assign_units(&metas);
    let order = topo_order(&metas, &us, selected);
    let ghost ms = decode_metas(heap, consts@)->Ok_0;
    let ghost gs = unit_list(ms);
    assert(ms.len() == consts.len());
    proof {
        crate::units::lemma_groups(ms, us);
        lemma_order_bound(ms, texts(selected@));
        assert forall|u: int, k: int|
            0 <= u < us.units@.len() && 0 <= k < us.units@[u].members@.len() implies
            #[trigger] us.units@[u].members@[k] < consts@.len() by {
            lemma_unit_shape(ms, u);
            assert(gs[u].members[k] < ms.len());
        }
        assert forall|u: int| 0 <= u < us.units@.len() implies (
        #[trigger] us.units@[u]).members@.len() > 0 by {
            lemma_unit_shape(ms, u);
        }
        assert(entries(builder) =~= Seq::<Entry>::empty());
    }
    let mut walker = Walker::new(heap, builder);
    walker.emit_units(consts, &us.units, &order)?;
    let export = walker.into_builder().finish();
    proof {
        export.declars.len_fits();
        lemma_made_of(builder.dag(), export.dag, parts_from(environment(
            heap,
            true,
            consts@,
            texts(selected@),
        )->Ok_0, 0));
        lemma_units_added(heap, true, ms, consts@, order@);
    }
    assert(export.declars@.len() == total_members(gs, order@));
    let count = count_members(&us.units, &order);
    Ok((export, count))
}

/// How many constants the units of `order` have.
fn count_members(units: &Vec<Unit>, order: &Vec<usize>) -> (count: usize)
    requires
        forall|k: int| 0 <= k < order@.len() ==> #[trigger] order@[k] < units@.len(),
        total_members(groups_of(units@), order@) <= usize::MAX,
    ensures
        count == total_members(groups_of(units@), order@),
{
    let ghost gs = groups_of(units@);
    let n: usize = order.len();
    let mut count: usize = 0;
    let mut i: usize = 0;
    while i < n
        invariant
            n == order@.len(),
            i <= n,
            gs == groups_of(units@),
            forall|k: int| 0 <= k < order@.len() ==> #[trigger] order@[k] < units@.len(),
            total_members(gs, order@) <= usize::MAX,
            count == total_members(gs, order@.take(i as int)),
        decreases n - i,
    {
        proof {
            lemma_total_monotone(gs, order@, i + 1, n as int);
            assert(order@.take(n as int) =~= order@);
            assert(order@.take(i + 1).drop_last() =~= order@.take(i as int));
            assert(gs[order@[i as int] as int].members == units@[order@[i as int] as int].members@);
        }
        count = count + units[order[i]].members.len();
        i = i + 1;
    }
    assert(order@.take(n as int) =~= order@);
    count
}

} // verus!
