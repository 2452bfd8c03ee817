//! What the records of the constants say about the finished environment: which
//! constants are declared, as what, and in which order.
use vstd::prelude::*;

use crate::check::declaration;
use crate::check::declared;
use crate::check::environment;
use crate::check::law_declared_after_mentioned;
use crate::check::law_declared_are_submitted;
use crate::check::of_submitted;
use crate::check::submitted;
use crate::check::total_members;
use crate::dag::LeanDag;
use crate::declare::decode_members;
use crate::declare::entries_of;
use crate::declare::unit_added;
use crate::declare::units_added;
use crate::declare::Entry;
use crate::env::Declar;
use crate::env::ExportFile;
use crate::graph::edge;
use crate::graph::is_path;
use crate::graph::lemma_reaches_on;
use crate::graph::lemma_reaches_self;
use crate::graph::reaches;
use crate::heap::ExtractError;
use crate::heap::Heap;
use crate::layout::spells;
use crate::order::law_edges_are_mentions;
use crate::order::law_selection_is_enough;
use crate::order::lemma_graph_ok;
use crate::order::lemma_unit_named;
use crate::order::needs;
use crate::order::submission_order;
use crate::order::unit_graph;
use crate::order::unit_named;
use crate::records::law_member_read;
use crate::records::law_members_read;
use crate::records::law_metas_read;
use crate::records::law_singleton_read;
use crate::records::tells_member;
use crate::records::tells_meta;
use crate::records::tells_singleton;
use crate::shape::holds_decl;
use crate::shape::law_entries_held;
use crate::snapshot::decode_metas;
use crate::snapshot::ConstantInfo;
use crate::snapshot::Meta;
use crate::tree::DeclTree;
use crate::units::find;
use crate::units::lemma_last_named;
use crate::units::members;
use crate::units::unit_at;
use crate::units::unit_count;
use crate::units::unit_list;
use crate::units::Group;

verus! {

/// The metadata is that of the constants.
pub open spec fn metadata(h: &Heap, cs: Seq<ConstantInfo>, ms: Seq<Meta>) -> bool {
    cs.len() == ms.len() && forall|i: int|
        0 <= i < ms.len() ==> tells_meta(h, cs[i], #[trigger] ms[i])
}

/// The record is that of the declaration.
pub open spec fn tells(h: &Heap, nats: bool, c: ConstantInfo, d: DeclTree) -> bool {
    tells_singleton(h, nats, c, d) || tells_member(h, nats, c, d)
}

/// The constant at `i` is the last one with this name.
pub open spec fn called(ms: Seq<Meta>, name: Seq<char>, i: usize) -> bool {
    &&& i < ms.len()
    &&& ms[i as int].name == name
    &&& forall|j: int| i < j < ms.len() ==> (#[trigger] ms[j]).name != name
}

/// The constant at `a` mentions the one at `b`, or the two are in the same unit.
pub open spec fn leads(ms: Seq<Meta>, a: usize, b: usize) -> bool {
    unit_at(ms, a as int) == unit_at(ms, b as int) || exists|d: int|
        0 <= d < ms[a as int].deps.len() && called(ms, #[trigger] ms[a as int].deps[d], b)
}

/// Each constant of the chain leads to the next.
pub open spec fn is_chain(ms: Seq<Meta>, p: Seq<usize>) -> bool {
    &&& p.len() > 0
    &&& forall|k: int| 0 <= k < p.len() ==> (#[trigger] p[k]) < ms.len()
    &&& forall|k: int| 0 <= k < p.len() - 1 ==> #[trigger] leads(ms, p[k], p[k + 1])
}

/// A chain leads from the constant at `a` to the one at `b`: it is the same, or `a`
/// depends on it, directly or not.
pub open spec fn depends(ms: Seq<Meta>, a: usize, b: usize) -> bool {
    exists|p: Seq<usize>| #[trigger] is_chain(ms, p) && p[0] == a && p.last() == b
}

proof fn lemma_called(ms: Seq<Meta>, name: Seq<char>, n: int)
    requires
        0 <= n <= ms.len() <= usize::MAX,
        forall|j: int| n <= j < ms.len() ==> (#[trigger] ms[j]).name != name,
    ensures
        match crate::units::last_named(ms, name, n) {
            Some(i) => 0 <= i < n && called(ms, name, i as usize),
            None => forall|i: usize| !called(ms, name, i),
        },
    decreases n,
{
    if n > 0 && ms[n - 1].name != name {
        lemma_called(ms, name, n - 1);
    }
}

/// Law: a name stands for the last constant that has it, and for none where no
/// constant has it.
pub proof fn law_last_name_counts(ms: Seq<Meta>, name: Seq<char>, i: usize)
    requires
        ms.len() <= usize::MAX,
    ensures
        find(ms, name) == Some(i as int) <==> called(ms, name, i),
        find(ms, name) is None <==> forall|j: int|
            0 <= j < ms.len() ==> (#[trigger] ms[j]).name != name,
{
    lemma_called(ms, name, ms.len() as int);
    lemma_last_named(ms, name, ms.len() as int);
    if let Some(k) = find(ms, name) {
        if called(ms, name, i) && k != i {
            assert(called(ms, name, k as usize));
            assert(ms[k].name == name && ms[i as int].name == name);
        }
        assert(ms[k].name == name);
    }
}

proof fn lemma_depends_reaches(ms: Seq<Meta>, p: Seq<usize>)
    requires
        ms.len() <= usize::MAX,
        is_chain(ms, p),
    ensures
        reaches(
            unit_graph(ms),
            unit_at(ms, p[0] as int) as usize,
            unit_at(ms, p.last() as int) as usize,
        ),
    decreases p.len(),
{
    let g = unit_graph(ms);
    crate::units::law_units_divide(ms, 0);
    crate::units::lemma_count_bound(ms, ms.len() as int);
    lemma_graph_ok(ms, Seq::empty());
    let a = p[0];
    assert(0 <= unit_at(ms, a as int) < unit_count(ms));
    if p.len() == 1 {
        lemma_reaches_self(g, unit_at(ms, a as int) as usize);
    } else {
        let q = p.drop_last();
        let (x, y) = (q.last(), p.last());
        let n = p.len() - 2;
        assert(p[n] == x && p[n + 1] == y);
        assert(leads(ms, p[n], p[n + 1]));
        assert forall|k: int| 0 <= k < q.len() - 1 implies #[trigger] leads(ms, q[k], q[k + 1]) by {
            assert(leads(ms, p[k], p[k + 1]));
        }
        assert forall|k: int| 0 <= k < q.len() implies (#[trigger] q[k]) < ms.len() by {
            assert(p[k] < ms.len());
        }
        lemma_depends_reaches(ms, q);
        let (u, v) = (unit_at(ms, x as int) as usize, unit_at(ms, y as int) as usize);
        assert(x < ms.len() && y < ms.len());
        assert(0 <= unit_at(ms, x as int) < unit_count(ms));
        assert(0 <= unit_at(ms, y as int) < unit_count(ms));
        if u != v {
            let d = choose|d: int|
                0 <= d < ms[x as int].deps.len() && called(
                    ms,
                    #[trigger] ms[x as int].deps[d],
                    y,
                );
            let name = ms[x as int].deps[d];
            law_last_name_counts(ms, name, y);
            assert(unit_named(ms, name) == Some(v));
            let mem = members(ms, u as int);
            crate::units::law_units_divide(ms, u as int);
            assert(mem.contains(x));
            let k = choose|k: int| 0 <= k < mem.len() && mem[k] == x;
            assert(unit_named(ms, ms[mem[k] as int].deps[d]) == Some(v));
            assert(crate::order::mentions(ms, mem, v));
            law_edges_are_mentions(ms, u, v);
            lemma_reaches_on(g, unit_at(ms, a as int) as usize, u, v);
        }
    }
}

proof fn lemma_chain_on(ms: Seq<Meta>, a: usize, b: usize, c: usize)
    requires
        depends(ms, a, b),
        c < ms.len(),
        leads(ms, b, c),
    ensures
        depends(ms, a, c),
{
    let p = choose|p: Seq<usize>| #[trigger] is_chain(ms, p) && p[0] == a && p.last() == b;
    let q = p.push(c);
    assert forall|k: int| 0 <= k < q.len() - 1 implies #[trigger] leads(ms, q[k], q[k + 1]) by {
        if k < p.len() - 1 {
            assert(leads(ms, p[k], p[k + 1]));
        }
    }
    assert(is_chain(ms, q));
    assert(q.last() == c);
}

proof fn lemma_reaches_depends(ms: Seq<Meta>, p: Seq<usize>, a: usize, b: usize)
    requires
        ms.len() <= usize::MAX,
        is_path(unit_graph(ms), p),
        a < ms.len(),
        b < ms.len(),
        unit_at(ms, a as int) == p[0],
        unit_at(ms, b as int) == p.last(),
    ensures
        depends(ms, a, b),
    decreases p.len(),
{
    let g = unit_graph(ms);
    if p.len() == 1 {
        assert(leads(ms, a, b));
        let q = seq![a, b];
        assert(is_chain(ms, q));
        assert(q.last() == b);
    } else {
        let q = p.drop_last();
        let (u, v) = (q.last(), p.last());
        let n = p.len() - 2;
        assert(p[n] == u && p[n + 1] == v);
        assert(edge(g, p[n], p[n + 1]));
        assert forall|k: int| 0 <= k < q.len() - 1 implies #[trigger] edge(g, q[k], q[k + 1]) by {
            assert(edge(g, p[k], p[k + 1]));
        }
        assert forall|k: int| 0 <= k < q.len() implies (#[trigger] q[k]) < g.len() by {
            assert(p[k] < g.len());
        }
        assert(is_path(g, q));
        law_edges_are_mentions(ms, u, v);
        let mem = members(ms, u as int);
        crate::units::law_units_divide(ms, u as int);
        let (k, d) = choose|k: int, d: int|
            0 <= k < mem.len() && 0 <= d < ms[mem[k] as int].deps.len() && unit_named(
                ms,
                #[trigger] ms[#[trigger] mem[k] as int].deps[d],
            ) == Some(v);
        let x = mem[k];
        let name = ms[x as int].deps[d];
        assert(mem.contains(x));
        assert(unit_at(ms, x as int) == u);
        lemma_unit_named(ms, name);
        lemma_last_named(ms, name, ms.len() as int);
        let y = find(ms, name)->0 as usize;
        law_last_name_counts(ms, name, y);
        lemma_reaches_depends(ms, q, a, x);
        assert(called(ms, ms[x as int].deps[d], y));
        assert(leads(ms, x, y));
        lemma_chain_on(ms, a, x, y);
        assert(leads(ms, y, b));
        lemma_chain_on(ms, a, y, b);
    }
}

/// Units lead to each other exactly where their constants depend on each other.
pub proof fn lemma_reaches_is_depends(ms: Seq<Meta>, a: usize, b: usize)
    requires
        ms.len() <= usize::MAX,
        a < ms.len(),
        b < ms.len(),
    ensures
        reaches(
            unit_graph(ms),
            unit_at(ms, a as int) as usize,
            unit_at(ms, b as int) as usize,
        ) <==> depends(ms, a, b),
{
    crate::units::law_units_divide(ms, 0);
    crate::units::lemma_count_bound(ms, ms.len() as int);
    assert(0 <= unit_at(ms, a as int) < unit_count(ms));
    assert(0 <= unit_at(ms, b as int) < unit_count(ms));
    let (u, v) = (unit_at(ms, a as int) as usize, unit_at(ms, b as int) as usize);
    if depends(ms, a, b) {
        let p = choose|p: Seq<usize>| #[trigger] is_chain(ms, p) && p[0] == a && p.last() == b;
        lemma_depends_reaches(ms, p);
    }
    if reaches(unit_graph(ms), u, v) {
        let p = choose|p: Seq<usize>| #[trigger]
            is_path(unit_graph(ms), p) && p[0] == u && p.last() == v;
        lemma_reaches_depends(ms, p, a, b);
    }
}

/// The constant is selected, or a selected one depends on it; without a selection,
/// every constant is wanted.
pub open spec fn wanted(ms: Seq<Meta>, selected: Seq<Seq<char>>, i: usize) -> bool {
    i < ms.len() && (selected.len() == 0 || exists|k: int, b: usize|
        0 <= k < selected.len() && #[trigger] called(ms, selected[k], b) && depends(ms, b, i))
}

/// Law: exactly the wanted constants are submitted.
pub proof fn law_wanted_are_submitted(ms: Seq<Meta>, selected: Seq<Seq<char>>, i: usize)
    requires
        ms.len() <= usize::MAX,
    ensures
        submitted(ms, submission_order(ms, selected), i) <==> wanted(ms, selected, i),
{
    let o = submission_order(ms, selected);
    if i < ms.len() {
        let u = unit_at(ms, i as int) as usize;
        crate::units::law_units_divide(ms, 0);
        crate::units::lemma_count_bound(ms, ms.len() as int);
        assert(0 <= unit_at(ms, i as int) < unit_count(ms));
        if selected.len() == 0 {
            assert(selected =~= Seq::<Seq<char>>::empty());
            crate::order::law_all_without_selection(ms, u);
        } else {
            law_selection_is_enough(ms, selected, u);
            if o.contains(u) {
                let k = choose|k: int|
                    0 <= k < selected.len() && needs(ms, #[trigger] selected[k], u);
                lemma_last_named(ms, selected[k], ms.len() as int);
                let b = find(ms, selected[k])->0 as usize;
                law_last_name_counts(ms, selected[k], b);
                lemma_reaches_is_depends(ms, b, i);
                assert(called(ms, selected[k], b));
            }
            if wanted(ms, selected, i) {
                let (k, b) = choose|k: int, b: usize|
                    0 <= k < selected.len() && #[trigger] called(ms, selected[k], b) && depends(
                        ms,
                        b,
                        i,
                    );
                law_last_name_counts(ms, selected[k], b);
                lemma_reaches_is_depends(ms, b, i);
                assert(needs(ms, selected[k], u));
            }
        }
    }
}

proof fn lemma_declaration_told(
    h: &Heap,
    nats: bool,
    ms: Seq<Meta>,
    cs: Seq<ConstantInfo>,
    i: usize,
    d: DeclTree,
)
    requires
        metadata(h, cs, ms),
        i < cs.len(),
    ensures
        declaration(h, nats, ms, cs, i) == Ok::<DeclTree, ExtractError>(d) <==> tells(
            h,
            nats,
            cs[i as int],
            d,
        ),
{
    assert(tells_meta(h, cs[i as int], ms[i as int]));
    law_singleton_read(h, nats, i, cs[i as int], d);
    law_member_read(h, nats, i, cs[i as int], d);
}

/// An entry of the environment is what the record tells.
pub open spec fn has_told(h: &Heap, nats: bool, env: Seq<Entry>, c: ConstantInfo) -> bool {
    exists|p: int| 0 <= p < env.len() && tells(h, nats, c, (#[trigger] env[p]).decl)
}

/// The declaration is what the record of a wanted constant tells.
pub open spec fn told_by_wanted(
    h: &Heap,
    nats: bool,
    cs: Seq<ConstantInfo>,
    selected: Seq<Seq<char>>,
    ms: Seq<Meta>,
    d: DeclTree,
) -> bool {
    exists|i: usize| #[trigger] wanted(ms, selected, i) && tells(h, nats, cs[i as int], d)
}

/// Law: each wanted constant is declared as what its record tells.
pub proof fn law_wanted_are_declared(
    h: &Heap,
    nats: bool,
    cs: Seq<ConstantInfo>,
    selected: Seq<Seq<char>>,
    ms: Seq<Meta>,
    i: usize,
)
    requires
        cs.len() <= usize::MAX,
        environment(h, nats, cs, selected) is Ok,
        metadata(h, cs, ms),
        wanted(ms, selected, i),
    ensures
        has_told(h, nats, environment(h, nats, cs, selected)->Ok_0, cs[i as int]),
{
    law_metas_read(h, cs, ms);
    law_declared_are_submitted(h, nats, cs, selected);
    let env = environment(h, nats, cs, selected)->Ok_0;
    assert(decode_metas(h, cs)->Ok_0 == ms);
    law_wanted_are_submitted(ms, selected, i);
    assert(submitted(ms, submission_order(ms, selected), i));
    assert(declared(h, nats, ms, cs, env, i));
    let p = choose|p: int|
        0 <= p < env.len() && declaration(h, nats, ms, cs, i) == Ok::<DeclTree, ExtractError>(
            (#[trigger] env[p]).decl,
        );
    lemma_declaration_told(h, nats, ms, cs, i, env[p].decl);
}

/// Law: each declaration of the environment is what the record of a wanted constant
/// tells.
pub proof fn law_declared_are_wanted(
    h: &Heap,
    nats: bool,
    cs: Seq<ConstantInfo>,
    selected: Seq<Seq<char>>,
    ms: Seq<Meta>,
    p: int,
)
    requires
        cs.len() <= usize::MAX,
        environment(h, nats, cs, selected) is Ok,
        metadata(h, cs, ms),
        0 <= p < environment(h, nats, cs, selected)->Ok_0.len(),
    ensures
        told_by_wanted(
            h,
            nats,
            cs,
            selected,
            ms,
            environment(h, nats, cs, selected)->Ok_0[p].decl,
        ),
{
    law_metas_read(h, cs, ms);
    law_declared_are_submitted(h, nats, cs, selected);
    let o = submission_order(ms, selected);
    assert(decode_metas(h, cs)->Ok_0 == ms);
    let d = environment(h, nats, cs, selected)->Ok_0[p].decl;
    assert(of_submitted(h, nats, ms, cs, o, d));
    let i = choose|i: usize| #[trigger]
        submitted(ms, o, i) && declaration(h, nats, ms, cs, i) == Ok::<DeclTree, ExtractError>(d);
    law_wanted_are_submitted(ms, selected, i);
    lemma_declaration_told(h, nats, ms, cs, i, d);
    assert(wanted(ms, selected, i));
}

/// Law: whatever a wanted constant lists among its dependencies is wanted too, if it
/// is among the constants.
pub proof fn law_dependencies_are_wanted(
    h: &Heap,
    cs: Seq<ConstantInfo>,
    selected: Seq<Seq<char>>,
    ms: Seq<Meta>,
    a: usize,
    d: int,
    b: usize,
)
    requires
        metadata(h, cs, ms),
        wanted(ms, selected, a),
        0 <= d < cs[a as int].deps@.len(),
        b < cs.len(),
        spells(h, cs[a as int].deps@[d], ms[b as int].name),
        called(ms, ms[b as int].name, b),
    ensures
        wanted(ms, selected, b),
{
    assert(tells_meta(h, cs[a as int], ms[a as int]));
    let m = ms[a as int];
    assert(spells(h, cs[a as int].deps@[d], m.deps[d]));
    crate::layout::law_text_read(h, cs[a as int].deps@[d], m.deps[d]);
    crate::layout::law_text_read(h, cs[a as int].deps@[d], ms[b as int].name);
    assert(called(ms, ms[a as int].deps[d], b));
    assert(leads(ms, a, b));
    if selected.len() > 0 {
        let (k, c) = choose|k: int, c: usize|
            0 <= k < selected.len() && #[trigger] called(ms, selected[k], c) && depends(ms, c, a);
        lemma_chain_on(ms, c, a, b);
        assert(called(ms, selected[k], c) && depends(ms, c, b));
    }
}

/// Law: a wanted constant is declared behind each constant outside its unit that its
/// record lists among its dependencies, unless that one depends on it in turn.
pub proof fn law_declared_behind_dependencies(
    h: &Heap,
    nats: bool,
    cs: Seq<ConstantInfo>,
    selected: Seq<Seq<char>>,
    ms: Seq<Meta>,
    a: usize,
    d: int,
    b: usize,
)
    requires
        cs.len() <= usize::MAX,
        environment(h, nats, cs, selected) is Ok,
        metadata(h, cs, ms),
        wanted(ms, selected, a),
        0 <= d < cs[a as int].deps@.len(),
        b < cs.len(),
        spells(h, cs[a as int].deps@[d], ms[b as int].name),
        called(ms, ms[b as int].name, b),
        unit_at(ms, a as int) != unit_at(ms, b as int),
        !depends(ms, b, a),
    ensures
        ({
            let env = environment(h, nats, cs, selected)->Ok_0;
            exists|p: int, q: int|
                0 <= p < q < env.len() && tells(h, nats, cs[b as int], (#[trigger] env[p]).decl)
                    && tells(h, nats, cs[a as int], (#[trigger] env[q]).decl)
        }),
{
    law_metas_read(h, cs, ms);
    assert(decode_metas(h, cs)->Ok_0 == ms);
    let env = environment(h, nats, cs, selected)->Ok_0;
    assert(tells_meta(h, cs[a as int], ms[a as int]));
    let m = ms[a as int];
    assert(spells(h, cs[a as int].deps@[d], m.deps[d]));
    crate::layout::law_text_read(h, cs[a as int].deps@[d], m.deps[d]);
    crate::layout::law_text_read(h, cs[a as int].deps@[d], ms[b as int].name);
    law_last_name_counts(ms, m.deps[d], b);
    law_wanted_are_submitted(ms, selected, a);
    lemma_reaches_is_depends(ms, b, a);
    law_declared_after_mentioned(h, nats, cs, selected, a, d);
    let (p, q) = choose|p: int, q: int|
        0 <= p < q < env.len() && declaration(h, nats, ms, cs, b) == Ok::<DeclTree, ExtractError>(
            (#[trigger] env[p]).decl,
        ) && declaration(h, nats, ms, cs, a) == Ok::<DeclTree, ExtractError>(
            (#[trigger] env[q]).decl,
        );
    lemma_declaration_told(h, nats, ms, cs, b, env[p].decl);
    lemma_declaration_told(h, nats, ms, cs, a, env[q].decl);
}

/// The environment is what was built from the constants.
pub open spec fn built_from(
    e: ExportFile,
    h: &Heap,
    nats: bool,
    cs: Seq<ConstantInfo>,
    selected: Seq<Seq<char>>,
) -> bool {
    e.wf() && environment(h, nats, cs, selected) == Ok::<Seq<Entry>, ExtractError>(
        entries_of(e.dag, e.declars@, e.mutual_block_sizes@),
    )
}

/// The declaration holds, node by node, what the record tells.
pub open spec fn holds_told(
    h: &Heap,
    nats: bool,
    c: ConstantInfo,
    dag: LeanDag,
    x: Declar,
) -> bool {
    exists|d: DeclTree| #[trigger] tells(h, nats, c, d) && holds_decl(dag, x, d)
}

/// Law: from records to nodes. Each declaration of a built environment holds, node by
/// node, what the record of a wanted constant tells.
pub proof fn law_built_as_recorded(
    e: ExportFile,
    h: &Heap,
    nats: bool,
    cs: Seq<ConstantInfo>,
    selected: Seq<Seq<char>>,
    ms: Seq<Meta>,
    p: int,
)
    requires
        cs.len() <= usize::MAX,
        built_from(e, h, nats, cs, selected),
        metadata(h, cs, ms),
        0 <= p < e.declars@.len(),
    ensures
        exists|i: usize| #[trigger]
            wanted(ms, selected, i) && holds_told(
                h,
                nats,
                cs[i as int],
                e.dag,
                e.declars@[p],
            ),
{
    let env = environment(h, nats, cs, selected)->Ok_0;
    let d = env[p].decl;
    law_declared_are_wanted(h, nats, cs, selected, ms, p);
    assert(e.declars@[p].ok(e.dag));
    law_entries_held(e.dag, e.declars@, e.mutual_block_sizes@, p);
    let i = choose|i: usize| #[trigger]
        wanted(ms, selected, i) && tells(h, nats, cs[i as int], d);
    assert(tells(h, nats, cs[i as int], d));
    assert(wanted(ms, selected, i));
}

/// Law: from records to nodes. Each wanted constant has a declaration in a built
/// environment that holds, node by node, what its record tells.
pub proof fn law_recorded_is_built(
    e: ExportFile,
    h: &Heap,
    nats: bool,
    cs: Seq<ConstantInfo>,
    selected: Seq<Seq<char>>,
    ms: Seq<Meta>,
    i: usize,
)
    requires
        cs.len() <= usize::MAX,
        built_from(e, h, nats, cs, selected),
        metadata(h, cs, ms),
        wanted(ms, selected, i),
    ensures
        exists|p: int|
            0 <= p < e.declars@.len() && holds_told(
                h,
                nats,
                cs[i as int],
                e.dag,
                #[trigger] e.declars@[p],
            ),
{
    law_wanted_are_declared(h, nats, cs, selected, ms, i);
    let env = environment(h, nats, cs, selected)->Ok_0;
    let p = choose|p: int|
        0 <= p < env.len() && tells(h, nats, cs[i as int], (#[trigger] env[p]).decl);
    assert(e.declars@[p].ok(e.dag));
    law_entries_held(e.dag, e.declars@, e.mutual_block_sizes@, p);
    assert(tells(h, nats, cs[i as int], env[p].decl));
    assert(holds_told(h, nats, cs[i as int], e.dag, e.declars@[p]));
}

/// Adding units is adding each of them to what the ones before it made up.
proof fn lemma_unit_step(
    h: &Heap,
    nats: bool,
    cs: Seq<ConstantInfo>,
    gs: Seq<Group>,
    order: Seq<usize>,
    k: int,
)
    requires
        0 <= k < order.len(),
        units_added(h, nats, cs, gs, order, Seq::empty()) is Ok,
    ensures
        units_added(h, nats, cs, gs, order.take(k), Seq::empty()) is Ok,
        ({
            let before = units_added(h, nats, cs, gs, order.take(k), Seq::empty())->Ok_0;
            let unit = unit_added(h, nats, cs, gs[order[k] as int], before);
            unit is Ok && unit->Ok_0.is_prefix_of(
                units_added(h, nats, cs, gs, order, Seq::empty())->Ok_0,
            )
        }),
    decreases order.len(),
{
    let rest = order.drop_last();
    if k == rest.len() {
        assert(order.take(k) =~= rest);
        let env = units_added(h, nats, cs, gs, order, Seq::empty())->Ok_0;
        assert(env.subrange(0, env.len() as int) =~= env);
    } else {
        lemma_unit_step(h, nats, cs, gs, rest, k);
        assert(rest.take(k) =~= order.take(k));
        let env0 = units_added(h, nats, cs, gs, rest, Seq::empty())->Ok_0;
        let env = units_added(h, nats, cs, gs, order, Seq::empty())->Ok_0;
        reveal(unit_added);
        assert(env0.is_prefix_of(env));
        let before = units_added(h, nats, cs, gs, order.take(k), Seq::empty())->Ok_0;
        let mid = unit_added(h, nats, cs, gs[order[k] as int], before)->Ok_0;
        assert forall|i: int| 0 <= i < mid.len() implies mid[i] == env[i] by {
            assert(mid[i] == env0[i]);
        }
        assert(env.subrange(0, mid.len() as int) =~= mid);
    }
}

/// What a unit adds to an environment of `start` declarations: the declarations that
/// the records of its constants tell. Those of a block stand together, inductive
/// types first, then constructors, then recursors, each kind in the order of the
/// constants, and each inductive type records where the block starts and its size.
pub open spec fn adds_unit(
    h: &Heap,
    nats: bool,
    cs: Seq<ConstantInfo>,
    mem: Seq<usize>,
    env: Seq<Entry>,
    start: int,
    ds: Seq<DeclTree>,
) -> bool {
    let all = ds.filter(|d: DeclTree| d.body is Inductive) + ds.filter(
        |d: DeclTree| d.body is Constructor,
    ) + ds.filter(|d: DeclTree| d.body is Recursor);
    &&& ds.len() == mem.len()
    &&& forall|i: int| 0 <= i < ds.len() ==> tells(h, nats, cs[mem[i] as int], #[trigger] ds[i])
    &&& 0 <= start && start + ds.len() <= env.len()
    &&& if 5 <= cs[mem[0] as int].kind <= 7 {
        &&& all.len() == ds.len()
        &&& forall|i: int|
            0 <= i < ds.len() ==> {
                &&& (#[trigger] env[start + i]).decl == all[i]
                &&& env[start + i].block == (if all[i].body is Inductive {
                    Some((start, ds.len() as int))
                } else {
                    None
                })
            }
    } else {
        &&& ds.len() == 1
        &&& env[start].decl == ds[0]
        &&& env[start].block is None
    }
}

proof fn lemma_block_told(
    h: &Heap,
    nats: bool,
    cs: Seq<ConstantInfo>,
    unit: Group,
    before: Seq<Entry>,
    env: Seq<Entry>,
)
    requires
        unit.is_block,
        5 <= cs[unit.members[0] as int].kind <= 7,
        unit_added(h, nats, cs, unit, before) is Ok,
        unit_added(h, nats, cs, unit, before)->Ok_0.is_prefix_of(env),
    ensures
        exists|ds: Seq<DeclTree>| #[trigger]
            adds_unit(h, nats, cs, unit.members, env, before.len() as int, ds),
{
    reveal(unit_added);
    let mem = unit.members;
    let ds = decode_members(h, nats, cs, mem)->Ok_0;
    law_members_read(h, nats, cs, mem, ds);
    crate::declare::lemma_members_decoded(h, nats, cs, mem);
    crate::declare::lemma_arranged(ds);
    crate::declare::law_block_order(ds);
    let all = crate::declare::arranged(ds);
    let after = crate::declare::block_added(before, all);
    let start = before.len() as int;
    assert forall|i: int| 0 <= i < ds.len() implies tells(
        h,
        nats,
        cs[mem[i] as int],
        #[trigger] ds[i],
    ) by {
        assert(tells_member(h, nats, cs[mem[i] as int], ds[i]));
    }
    assert forall|i: int| 0 <= i < ds.len() implies {
        &&& (#[trigger] env[start + i]).decl == all[i]
        &&& env[start + i].block == (if all[i].body is Inductive {
            Some((start, ds.len() as int))
        } else {
            None
        })
    } by {
        assert(env[start + i] == after[start + i]);
        assert(after[start + i].decl == all[i]);
    }
    assert(adds_unit(h, nats, cs, mem, env, start, ds));
}

proof fn lemma_unit_told(
    h: &Heap,
    nats: bool,
    cs: Seq<ConstantInfo>,
    ms: Seq<Meta>,
    u: int,
    before: Seq<Entry>,
    env: Seq<Entry>,
)
    requires
        cs.len() <= usize::MAX,
        metadata(h, cs, ms),
        0 <= u < unit_count(ms),
        unit_added(h, nats, cs, unit_list(ms)[u], before) is Ok,
        unit_added(h, nats, cs, unit_list(ms)[u], before)->Ok_0.is_prefix_of(env),
    ensures
        exists|ds: Seq<DeclTree>| #[trigger]
            adds_unit(h, nats, cs, members(ms, u), env, before.len() as int, ds),
{
    let unit = unit_list(ms)[u];
    let mem = members(ms, u);
    crate::check::lemma_unit_shape(ms, u);
    assert(unit.members == mem);
    assert(unit.members[0] < ms.len());
    assert(tells_meta(h, cs[mem[0] as int], ms[mem[0] as int]));
    assert(ms[mem[0] as int].kind == cs[mem[0] as int].kind);
    if unit.is_block {
        lemma_block_told(h, nats, cs, unit, before, env);
    } else {
        reveal(unit_added);
        let after = unit_added(h, nats, cs, unit, before)->Ok_0;
        let start = before.len() as int;
        let d = crate::declare::decode_singleton(h, nats, mem[0], cs[mem[0] as int])->Ok_0;
        law_singleton_read(h, nats, mem[0], cs[mem[0] as int], d);
        let ds = seq![d];
        assert(env[start] == after[start]);
        assert(tells(h, nats, cs[mem[0] as int], ds[0]));
        assert(adds_unit(h, nats, cs, mem, env, start, ds));
    }
}

/// Law: the environment is made up unit by unit, in the order of submission.
pub proof fn law_unit_by_unit(
    h: &Heap,
    nats: bool,
    cs: Seq<ConstantInfo>,
    selected: Seq<Seq<char>>,
    ms: Seq<Meta>,
    k: int,
)
    requires
        cs.len() <= usize::MAX,
        environment(h, nats, cs, selected) is Ok,
        metadata(h, cs, ms),
        0 <= k < submission_order(ms, selected).len(),
    ensures
        exists|ds: Seq<DeclTree>| #[trigger]
            adds_unit(
                h,
                nats,
                cs,
                members(ms, submission_order(ms, selected)[k] as int),
                environment(h, nats, cs, selected)->Ok_0,
                total_members(unit_list(ms), submission_order(ms, selected).take(k)) as int,
                ds,
            ),
{
    law_metas_read(h, cs, ms);
    assert(decode_metas(h, cs)->Ok_0 == ms);
    let o = submission_order(ms, selected);
    let gs = unit_list(ms);
    let env = environment(h, nats, cs, selected)->Ok_0;
    crate::check::lemma_order_bound(ms, selected);
    lemma_unit_step(h, nats, cs, gs, o, k);
    let before = units_added(h, nats, cs, gs, o.take(k), Seq::empty())->Ok_0;
    assert forall|j: int| 0 <= j < o.take(k).len() implies (#[trigger] o.take(k)[j])
        < unit_count(ms) by {
        assert(o[j] < unit_count(ms));
    }
    crate::check::lemma_units_added(h, nats, ms, cs, o.take(k));
    lemma_unit_told(h, nats, cs, ms, o[k] as int, before, env);
}

} // verus!
