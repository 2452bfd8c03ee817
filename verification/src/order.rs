//! The order in which units are submitted: every unit after the units that it
//! depends on.
use std::collections::HashSet;
use vstd::hash_map::StringHashMap;
use vstd::prelude::*;

use crate::graph::depth_first;
use crate::graph::edge;
use crate::graph::edges_of;
use crate::graph::edges_ok;
use crate::graph::post_order;
use crate::graph::reaches;
use crate::graph::roots_ok;
use crate::graph::Edges;
use crate::key::texts;
use crate::snapshot::metas_of;
use crate::snapshot::ConstMeta;
use crate::snapshot::Meta;
use crate::units::find;
use crate::units::groups;
use crate::units::index_names;
use crate::units::lemma_last_named;
use crate::units::members;
use crate::units::unit_at;
use crate::units::unit_count;
use crate::units::Units;

verus! {

broadcast use vstd::std_specs::hash::group_hash_axioms;

/// The unit of the constant that a name stands for.
pub open spec fn unit_named(ms: Seq<Meta>, name: Seq<char>) -> Option<usize> {
    match find(ms, name) {
        Some(i) => Some(unit_at(ms, i) as usize),
        None => None,
    }
}

/// The units of the constants that the names stand for, in order. Names that stand
/// for no constant are skipped.
pub open spec fn units_named(ms: Seq<Meta>, names: Seq<Seq<char>>) -> Seq<usize>
    decreases names.len(),
{
    if names.len() == 0 {
        Seq::empty()
    } else {
        match unit_named(ms, names.last()) {
            Some(u) => units_named(ms, names.drop_last()).push(u),
            None => units_named(ms, names.drop_last()),
        }
    }
}

/// The units that the constants mention, in order.
pub open spec fn targets(ms: Seq<Meta>, mem: Seq<usize>) -> Seq<usize>
    decreases mem.len(),
{
    if mem.len() == 0 {
        Seq::empty()
    } else {
        targets(ms, mem.drop_last()) + units_named(ms, ms[mem.last() as int].deps)
    }
}

/// The values other than `u`, each where it first occurs.
pub open spec fn others(s: Seq<usize>, u: usize) -> Seq<usize>
    decreases s.len(),
{
    if s.len() == 0 {
        Seq::empty()
    } else {
        let rest = others(s.drop_last(), u);
        if s.last() != u && !rest.contains(s.last()) {
            rest.push(s.last())
        } else {
            rest
        }
    }
}

/// The other units that unit `u` depends on, each once, in the order in which its
/// constants first mention them.
pub open spec fn unit_deps(ms: Seq<Meta>, u: int) -> Seq<usize> {
    others(targets(ms, members(ms, u)), u as usize)
}

/// The dependency graph of the units.
pub open spec fn unit_graph(ms: Seq<Meta>) -> Edges {
    Seq::new(unit_count(ms), |u: int| unit_deps(ms, u))
}

/// The units to start from: those of the selected constants, or all where none is
/// selected.
pub open spec fn root_units(ms: Seq<Meta>, selected: Seq<Seq<char>>) -> Seq<usize> {
    if selected.len() == 0 {
        Seq::new(unit_count(ms), |u: int| u as usize)
    } else {
        units_named(ms, selected)
    }
}

/// The units to submit, in order.
pub open spec fn submission_order(ms: Seq<Meta>, selected: Seq<Seq<char>>) -> Seq<usize> {
    post_order(unit_graph(ms), root_units(ms, selected))
}

proof fn lemma_units_named(ms: Seq<Meta>, names: Seq<Seq<char>>, u: usize)
    ensures
        units_named(ms, names).contains(u) <==> exists|k: int|
            0 <= k < names.len() && unit_named(ms, #[trigger] names[k]) == Some(u),
    decreases names.len(),
{
    let all = units_named(ms, names);
    if names.len() > 0 {
        let rest = names.drop_last();
        let r = units_named(ms, rest);
        lemma_units_named(ms, rest, u);
        if all.contains(u) {
            let i = choose|i: int| 0 <= i < all.len() && all[i] == u;
            if i < r.len() {
                assert(r[i] == u);
                let k = choose|k: int|
                    0 <= k < rest.len() && unit_named(ms, #[trigger] rest[k]) == Some(u);
                assert(names[k] == rest[k]);
            } else {
                assert(names[names.len() - 1] == names.last());
            }
        }
        if exists|k: int| 0 <= k < names.len() && unit_named(ms, #[trigger] names[k]) == Some(u) {
            let k = choose|k: int|
                0 <= k < names.len() && unit_named(ms, #[trigger] names[k]) == Some(u);
            if k < rest.len() {
                assert(rest[k] == names[k]);
                let i = choose|i: int| 0 <= i < r.len() && r[i] == u;
                assert(all[i] == u);
            } else {
                assert(all[all.len() - 1] == u);
            }
        }
    }
}

/// Some constant of the list mentions a constant of unit `v`.
pub open spec fn mentions(ms: Seq<Meta>, mem: Seq<usize>, v: usize) -> bool {
    exists|k: int, d: int|
        0 <= k < mem.len() && 0 <= d < ms[mem[k] as int].deps.len() && unit_named(
            ms,
            #[trigger] ms[#[trigger] mem[k] as int].deps[d],
        ) == Some(v)
}

proof fn lemma_targets(ms: Seq<Meta>, mem: Seq<usize>, v: usize)
    ensures
        targets(ms, mem).contains(v) <==> mentions(ms, mem, v),
    decreases mem.len(),
{
    if mem.len() > 0 {
        let rest = mem.drop_last();
        let last = units_named(ms, ms[mem.last() as int].deps);
        let all = targets(ms, mem);
        let r = targets(ms, rest);
        lemma_targets(ms, rest, v);
        lemma_units_named(ms, ms[mem.last() as int].deps, v);
        if all.contains(v) {
            let i = choose|i: int| 0 <= i < all.len() && all[i] == v;
            if i < r.len() {
                assert(r[i] == v);
                let (k, d) = choose|k: int, d: int|
                    0 <= k < rest.len() && 0 <= d < ms[rest[k] as int].deps.len() && unit_named(
                        ms,
                        #[trigger] ms[#[trigger] rest[k] as int].deps[d],
                    ) == Some(v);
                assert(mem[k] == rest[k]);
                assert(unit_named(ms, ms[mem[k] as int].deps[d]) == Some(v));
            } else {
                assert(last[i - r.len()] == v);
                let d = choose|d: int|
                    0 <= d < ms[mem.last() as int].deps.len() && unit_named(
                        ms,
                        #[trigger] ms[mem.last() as int].deps[d],
                    ) == Some(v);
                assert(unit_named(ms, ms[mem[mem.len() - 1] as int].deps[d]) == Some(v));
            }
        }
        if mentions(ms, mem, v) {
            let (k, d) = choose|k: int, d: int|
                0 <= k < mem.len() && 0 <= d < ms[mem[k] as int].deps.len() && unit_named(
                    ms,
                    #[trigger] ms[#[trigger] mem[k] as int].deps[d],
                ) == Some(v);
            if k < rest.len() {
                assert(rest[k] == mem[k]);
                assert(unit_named(ms, ms[rest[k] as int].deps[d]) == Some(v));
                assert(mentions(ms, rest, v));
                let i = choose|i: int| 0 <= i < r.len() && r[i] == v;
                assert(all[i] == v);
            } else {
                let i = choose|i: int| 0 <= i < last.len() && last[i] == v;
                assert(all[r.len() + i] == v);
            }
        }
    }
}

proof fn lemma_others(s: Seq<usize>, u: usize, v: usize)
    ensures
        others(s, u).contains(v) <==> (s.contains(v) && v != u),
    decreases s.len(),
{
    if s.len() > 0 {
        let t = s.drop_last();
        lemma_others(t, u, v);
        let (a, b) = (others(t, u), others(s, u));
        if b.contains(v) {
            let i = choose|i: int| 0 <= i < b.len() && b[i] == v;
            if i < a.len() {
                assert(a[i] == v);
                let k = choose|k: int| 0 <= k < t.len() && t[k] == v;
                assert(s[k] == v);
            } else {
                assert(s[s.len() - 1] == v);
            }
        }
        if s.contains(v) && v != u {
            let k = choose|k: int| 0 <= k < s.len() && s[k] == v;
            if k < t.len() {
                assert(t[k] == v);
            }
            if a.contains(v) {
                let i = choose|i: int| 0 <= i < a.len() && a[i] == v;
                assert(b[i] == v);
            } else {
                assert(b[a.len() as int] == v);
            }
        }
    }
}

/// Law: the dependency graph has an edge from one unit to another if and only if a
/// constant of the first mentions a constant of the second.
pub proof fn law_edges_are_mentions(ms: Seq<Meta>, u: usize, v: usize)
    requires
        u < unit_count(ms),
    ensures
        edge(unit_graph(ms), u, v) <==> (u != v && mentions(ms, members(ms, u as int), v)),
{
    lemma_others(targets(ms, members(ms, u as int)), u, v);
    lemma_targets(ms, members(ms, u as int), v);
}

/// A name stands for a unit that exists.
pub proof fn lemma_unit_named(ms: Seq<Meta>, name: Seq<char>)
    requires
        ms.len() <= usize::MAX,
    ensures
        unit_named(ms, name) is Some ==> unit_named(ms, name)->0 < unit_count(ms) && unit_at(
            ms,
            find(ms, name)->0,
        ) == unit_named(ms, name)->0,
{
    lemma_last_named(ms, name, ms.len() as int);
    if let Some(i) = find(ms, name) {
        crate::units::law_units_divide(ms, 0);
        assert(0 <= unit_at(ms, i) < unit_count(ms));
        crate::units::lemma_count_bound(ms, ms.len() as int);
    }
}

/// The dependency graph and its roots are in order for a depth-first visit.
pub proof fn lemma_graph_ok(ms: Seq<Meta>, selected: Seq<Seq<char>>)
    requires
        ms.len() <= usize::MAX,
    ensures
        unit_graph(ms).len() <= usize::MAX,
        edges_ok(unit_graph(ms)),
        roots_ok(unit_graph(ms), root_units(ms, selected)),
{
    let g = unit_graph(ms);
    crate::units::lemma_count_bound(ms, ms.len() as int);
    assert forall|u: int, k: int| 0 <= u < g.len() && 0 <= k < g[u].len() implies #[trigger] g[u][k]
        < g.len() by {
        let v = g[u][k];
        assert(g[u].contains(v));
        assert(edge(g, u as usize, v));
        law_edges_are_mentions(ms, u as usize, v);
        let mem = members(ms, u);
        let (k, d) = choose|k: int, d: int|
            0 <= k < mem.len() && 0 <= d < ms[mem[k] as int].deps.len() && unit_named(
                ms,
                #[trigger] ms[#[trigger] mem[k] as int].deps[d],
            ) == Some(v);
        lemma_unit_named(ms, ms[mem[k] as int].deps[d]);
    }
    let roots = root_units(ms, selected);
    assert forall|k: int| 0 <= k < roots.len() implies #[trigger] roots[k] < g.len() by {
        if selected.len() > 0 {
            assert(roots.contains(roots[k]));
            lemma_units_named(ms, selected, roots[k]);
            let i = choose|i: int|
                0 <= i < selected.len() && unit_named(ms, #[trigger] selected[i]) == Some(roots[k]);
            lemma_unit_named(ms, selected[i]);
        }
    }
}

/// Law: a unit is submitted after every other unit that one of its constants
/// mentions, unless that unit depends on it in turn.
pub proof fn law_dependencies_first(
    ms: Seq<Meta>,
    selected: Seq<Seq<char>>,
    k: int,
    constant: usize,
    d: int,
)
    requires
        ms.len() <= usize::MAX,
        0 <= k < submission_order(ms, selected).len(),
        constant < ms.len(),
        unit_at(ms, constant as int) == submission_order(ms, selected)[k],
        0 <= d < ms[constant as int].deps.len(),
        unit_named(ms, ms[constant as int].deps[d]) is Some,
        unit_named(ms, ms[constant as int].deps[d])->0 != submission_order(ms, selected)[k],
        !reaches(
            unit_graph(ms),
            unit_named(ms, ms[constant as int].deps[d])->0,
            submission_order(ms, selected)[k],
        ),
    ensures
        exists|j: int|
            0 <= j < k && #[trigger] submission_order(ms, selected)[j] == unit_named(
                ms,
                ms[constant as int].deps[d],
            )->0,
{
    let g = unit_graph(ms);
    let u = submission_order(ms, selected)[k];
    let v = unit_named(ms, ms[constant as int].deps[d])->0;
    let mem = members(ms, u as int);
    lemma_graph_ok(ms, selected);
    crate::units::law_units_divide(ms, u as int);
    assert(mem.contains(constant));
    let i = choose|i: int| 0 <= i < mem.len() && mem[i] == constant;
    assert(unit_named(ms, ms[mem[i] as int].deps[d]) == Some(v));
    assert(mentions(ms, mem, v));
    law_edges_are_mentions(ms, u, v);
    crate::graph::law_successors_first(g, root_units(ms, selected), k, v);
}

/// Law: a unit is submitted if and only if it is one of the units to start from or
/// one of those depends on it, directly or not; and no unit is submitted twice.
pub proof fn law_submitted_once(ms: Seq<Meta>, selected: Seq<Seq<char>>, u: usize)
    requires
        ms.len() <= usize::MAX,
    ensures
        submission_order(ms, selected).no_duplicates(),
        submission_order(ms, selected).contains(u) <==> exists|k: int|
            0 <= k < root_units(ms, selected).len() && reaches(
                unit_graph(ms),
                #[trigger] root_units(ms, selected)[k],
                u,
            ),
{
    lemma_graph_ok(ms, selected);
    crate::graph::law_no_node_twice(unit_graph(ms), root_units(ms, selected));
    crate::graph::law_exactly_the_reachable(unit_graph(ms), root_units(ms, selected), u);
}

/// Law: without a selection every unit is submitted.
pub proof fn law_all_without_selection(ms: Seq<Meta>, u: usize)
    requires
        ms.len() <= usize::MAX,
        u < unit_count(ms),
    ensures
        submission_order(ms, Seq::empty()).contains(u),
{
    let none = Seq::<Seq<char>>::empty();
    law_submitted_once(ms, none, u);
    let roots = root_units(ms, none);
    assert(roots[u as int] == u);
    crate::graph::lemma_reaches_self(unit_graph(ms), u);
    assert(reaches(unit_graph(ms), roots[u as int], u));
}

/// Whether the unit `u` is that of the constant called `name`, or the latter depends
/// on it, directly or not.
pub open spec fn needs(ms: Seq<Meta>, name: Seq<char>, u: usize) -> bool {
    match unit_named(ms, name) {
        Some(r) => reaches(unit_graph(ms), r, u),
        None => false,
    }
}

/// Law: with a selection, a unit is submitted if and only if it holds a selected
/// constant or a selected constant depends on it.
pub proof fn law_selection_is_enough(ms: Seq<Meta>, selected: Seq<Seq<char>>, u: usize)
    requires
        ms.len() <= usize::MAX,
        selected.len() > 0,
    ensures
        submission_order(ms, selected).contains(u) <==> exists|k: int|
            0 <= k < selected.len() && needs(ms, #[trigger] selected[k], u),
{
    law_submitted_once(ms, selected, u);
    let roots = root_units(ms, selected);
    if submission_order(ms, selected).contains(u) {
        let i = choose|i: int|
            0 <= i < roots.len() && reaches(unit_graph(ms), #[trigger] roots[i], u);
        assert(roots.contains(roots[i]));
        lemma_units_named(ms, selected, roots[i]);
        let k = choose|k: int|
            0 <= k < selected.len() && unit_named(ms, #[trigger] selected[k]) == Some(roots[i]);
        assert(needs(ms, selected[k], u));
    }
    if exists|k: int| 0 <= k < selected.len() && needs(ms, #[trigger] selected[k], u) {
        let k = choose|k: int| 0 <= k < selected.len() && needs(ms, #[trigger] selected[k], u);
        let r = unit_named(ms, selected[k])->0;
        lemma_units_named(ms, selected, r);
        assert(unit_named(ms, selected[k]) == Some(r));
        assert(roots.contains(r));
        let i = choose|i: int| 0 <= i < roots.len() && roots[i] == r;
        assert(reaches(unit_graph(ms), roots[i], u));
    }
}

/// Law: the units of names are taken in the order of the names, and a name that
/// stands for no constant gives none.
pub proof fn law_units_named_in_order(ms: Seq<Meta>, a: Seq<Seq<char>>, b: Seq<Seq<char>>)
    ensures
        units_named(ms, a + b) == units_named(ms, a) + units_named(ms, b),
        a.len() == 0 ==> units_named(ms, a).len() == 0,
        a.len() == 1 ==> units_named(ms, a) == (match unit_named(ms, a[0]) {
            Some(u) => seq![u],
            None => Seq::empty(),
        }),
    decreases b.len(),
{
    reveal_with_fuel(units_named, 2);
    if b.len() == 0 {
        assert(a + b =~= a);
        assert(units_named(ms, a) + units_named(ms, b) =~= units_named(ms, a));
    } else {
        assert((a + b).drop_last() =~= a + b.drop_last());
        law_units_named_in_order(ms, a, b.drop_last());
        assert(units_named(ms, a + b) =~= units_named(ms, a) + units_named(ms, b));
    }
    if a.len() == 1 {
        assert(a.drop_last() =~= Seq::<Seq<char>>::empty());
        assert(units_named(ms, a) =~= (match unit_named(ms, a[0]) {
            Some(u) => seq![u],
            None => Seq::empty(),
        }));
    }
}

/// Law: what constants mention is taken constant by constant, each with all that it
/// lists.
pub proof fn law_targets_in_order(ms: Seq<Meta>, a: Seq<usize>, b: Seq<usize>)
    ensures
        targets(ms, a + b) == targets(ms, a) + targets(ms, b),
        a.len() == 1 ==> targets(ms, a) == units_named(ms, ms[a[0] as int].deps),
    decreases b.len(),
{
    reveal_with_fuel(targets, 2);
    if b.len() == 0 {
        assert(a + b =~= a);
        assert(targets(ms, a) + targets(ms, b) =~= targets(ms, a));
    } else {
        assert((a + b).drop_last() =~= a + b.drop_last());
        law_targets_in_order(ms, a, b.drop_last());
        assert(targets(ms, a + b) =~= targets(ms, a) + targets(ms, b));
    }
    if a.len() == 1 {
        assert(a.drop_last() =~= Seq::<usize>::empty());
        assert(targets(ms, a) =~= units_named(ms, ms[a[0] as int].deps));
    }
}

/// Law: units are submitted in the order in which a depth-first visit of the
/// dependencies leaves them, from the selected constants in the given order, or else
/// from all units in order.
pub proof fn law_visited_in_order(ms: Seq<Meta>, selected: Seq<Seq<char>>)
    ensures
        submission_order(ms, selected) == post_order(
            unit_graph(ms),
            if selected.len() == 0 {
                Seq::new(unit_count(ms), |u: int| u as usize)
            } else {
                units_named(ms, selected)
            },
        ),
        unit_graph(ms).len() == unit_count(ms),
        forall|u: int|
            0 <= u < unit_count(ms) ==> (#[trigger] unit_graph(ms)[u]) == others(
                targets(ms, members(ms, u)),
                u as usize,
            ),
{
}

/// The first position of a value.
pub open spec fn first_at(s: Seq<usize>, x: int) -> bool {
    0 <= x < s.len() && forall|y: int| 0 <= y < x ==> (#[trigger] s[y]) != s[x]
}

/// Law: the dependencies of a unit are listed in the order in which they are first
/// mentioned, and none twice.
pub proof fn law_first_mention_counts(s: Seq<usize>, u: usize, i: int, j: int)
    requires
        0 <= i < j < others(s, u).len(),
    ensures
        others(s, u)[i] != others(s, u)[j],
        exists|x: int, y: int|
            0 <= x < y < s.len() && #[trigger] first_at(s, x) && #[trigger] first_at(s, y) && s[x]
                == others(s, u)[i] && s[y] == others(s, u)[j],
    decreases s.len(),
{
    let t = s.drop_last();
    let rest = others(t, u);
    assert forall|x: int| #[trigger] first_at(t, x) implies first_at(s, x) by {
        lemma_first_kept(s, x);
    }
    if j < rest.len() {
        law_first_mention_counts(t, u, i, j);
        let (x, y) = choose|x: int, y: int|
            0 <= x < y < t.len() && #[trigger] first_at(t, x) && #[trigger] first_at(t, y) && t[x]
                == rest[i] && t[y] == rest[j];
        assert(first_at(s, x) && first_at(s, y));
    } else {
        let y = s.len() - 1;
        assert(rest.contains(rest[i]));
        lemma_others(t, u, rest[i]);
        let x = lemma_first(t, rest[i]);
        assert(first_at(s, x));
        assert(first_at(s, y)) by {
            assert forall|z: int| 0 <= z < y implies (#[trigger] s[z]) != s[y] by {
                if s[z] == s[y] {
                    assert(t[z] == s[y]);
                    assert(t.contains(s[y]));
                    lemma_others(t, u, s[y]);
                }
            }
        }
    }
}

proof fn lemma_first_kept(s: Seq<usize>, x: int)
    requires
        s.len() > 0,
        first_at(s.drop_last(), x),
    ensures
        first_at(s, x),
{
    let t = s.drop_last();
    assert(t[x] == s[x]);
    assert forall|y: int| 0 <= y < x implies (#[trigger] s[y]) != s[x] by {
        assert(t[y] == s[y]);
    }
}

proof fn lemma_first(s: Seq<usize>, v: usize) -> (x: int)
    requires
        s.contains(v),
    ensures
        first_at(s, x),
        s[x] == v,
    decreases s.len(),
{
    let t = s.drop_last();
    if t.contains(v) {
        let x = lemma_first(t, v);
        lemma_first_kept(s, x);
        x
    } else {
        let x = s.len() - 1;
        let k = choose|k: int| 0 <= k < s.len() && s[k] == v;
        if k < x {
            assert(t[k] == v);
        }
        assert forall|y: int| 0 <= y < x implies (#[trigger] s[y]) != s[x] by {
            assert(t[y] == s[y]);
        }
        x
    }
}

/// The map from names to constants is right.
pub open spec fn names_ok(ms: Seq<Meta>, names: Map<Seq<char>, usize>) -> bool {
    forall|s: Seq<char>|
        #![trigger names.contains_key(s)]
        match find(ms, s) {
            Some(i) => names.contains_key(s) && names[s] == i,
            None => !names.contains_key(s),
        }
}

/// The unit of the constant that a name stands for.
fn look_up(
    metas: &Vec<ConstMeta>,
    us: &Units,
    names: &StringHashMap<usize>,
    name: &String,
) -> (r: Option<usize>)
    requires
        groups(metas_of(metas@), *us),
        names_ok(metas_of(metas@), names@),
    ensures
        r == unit_named(metas_of(metas@), name@),
{
    let ghost ms = metas_of(metas@);
    proof {
        assert(ms.len() == metas.len());
        lemma_last_named(ms, name@, ms.len() as int);
    }
    assert(names@.contains_key(name@) || !names@.contains_key(name@));
    match names.get(name.as_str()) {
        Some(i) => {
            proof {
                lemma_unit_named(ms, name@);
            }
            Some(us.unit_of[*i])
        },
        None => None,
    }
}

/// The other units that a unit depends on.
fn deps_of_unit(
    metas: &Vec<ConstMeta>,
    us: &Units,
    names: &StringHashMap<usize>,
    u: usize,
) -> (deps: Vec<usize>)
    requires
        groups(metas_of(metas@), *us),
        names_ok(metas_of(metas@), names@),
        u < us.units@.len(),
    ensures
        deps@ == unit_deps(metas_of(metas@), u as int),
{
    let ghost ms = metas_of(metas@);
    let mut deps: Vec<usize> = Vec::new();
    let mut seen: HashSet<usize> = HashSet::new();
    let mem = &us.units[u].members;
    let n: usize = mem.len();
    let mut i: usize = 0;
    proof {
        assert(ms.len() == metas.len());
        crate::units::lemma_groups(ms, *us);
        crate::units::law_units_divide(ms, u as int);
        assert(mem@.take(0) =~= Seq::<usize>::empty());
        assert(targets(ms, mem@.take(0)) =~= Seq::<usize>::empty());
    }
    while i < n
        invariant
            n == mem@.len(),
            i <= n,
            ms == metas_of(metas@),
            mem@ == members(ms, u as int),
            forall|k: int| 0 <= k < mem@.len() ==> #[trigger] mem@[k] < metas@.len(),
            groups(ms, *us),
            names_ok(ms, names@),
            deps@ == others(targets(ms, mem@.take(i as int)), u),
            forall|v: usize| #[trigger] seen@.contains(v) <==> deps@.contains(v),
        decreases n - i,
    {
        let mi: usize = mem[i];
        let list = &metas[mi].deps;
        let m: usize = list.len();
        let mut j: usize = 0;
        let ghost before = targets(ms, mem@.take(i as int));
        let ghost ds = texts(list@);
        proof {
            assert(ms[mi as int].deps == ds);
            assert(ds.take(0) =~= Seq::<Seq<char>>::empty());
            assert(before + units_named(ms, ds.take(0)) =~= before);
        }
        while j < m
            invariant
                m == list@.len(),
                j <= m,
                ds == texts(list@),
                ms == metas_of(metas@),
                groups(ms, *us),
                names_ok(ms, names@),
                deps@ == others(before + units_named(ms, ds.take(j as int)), u),
                forall|v: usize| #[trigger] seen@.contains(v) <==> deps@.contains(v),
            decreases m - j,
        {
            let ghost deps0 = deps@;
            let ghost so_far = before + units_named(ms, ds.take(j as int));
            proof {
                assert(ds.take(j + 1).drop_last() =~= ds.take(j as int));
                assert(ds.take(j + 1).last() == list@[j as int]@);
            }
            if let Some(du) = look_up(metas, us, names, &list[j]) {
                proof {
                    assert(before + units_named(ms, ds.take(j + 1)) =~= so_far.push(du));
                    assert(so_far.push(du).drop_last() =~= so_far);
                }
                if du != u && seen.insert(du) {
                    deps.push(du);
                    assert forall|v: usize| #[trigger] seen@.contains(v) <==> deps@.contains(v) by {
                        if deps0.contains(v) {
                            let k = choose|k: int| 0 <= k < deps0.len() && deps0[k] == v;
                            assert(deps@[k] == v);
                        }
                        assert(deps@[deps0.len() as int] == du);
                    }
                }
            }
            j = j + 1;
        }
        proof {
            assert(ds.take(m as int) =~= ds);
            assert(mem@.take(i + 1).drop_last() =~= mem@.take(i as int));
        }
        i = i + 1;
    }
    assert(mem@.take(n as int) =~= mem@);
    deps
}

/// The units to start from.
fn roots_for(
    metas: &Vec<ConstMeta>,
    us: &Units,
    names: &StringHashMap<usize>,
    selected: &Vec<String>,
) -> (roots: Vec<usize>)
    requires
        groups(metas_of(metas@), *us),
        names_ok(metas_of(metas@), names@),
    ensures
        roots@ == root_units(metas_of(metas@), texts(selected@)),
{
    let ghost ms = metas_of(metas@);
    let mut roots: Vec<usize> = Vec::new();
    proof {
        crate::units::lemma_groups(ms, *us);
    }
    if selected.len() == 0 {
        let n: usize = us.units.len();
        let mut u: usize = 0;
        while u < n
            invariant
                u <= n,
                roots@.len() == u,
                forall|k: int| 0 <= k < u ==> roots@[k] == k,
            decreases n - u,
        {
            roots.push(u);
            u = u + 1;
        }
        assert(roots@ =~= root_units(ms, texts(selected@)));
        return roots;
    }
    let m: usize = selected.len();
    let mut j: usize = 0;
    let ghost ds = texts(selected@);
    assert(ds.take(0) =~= Seq::<Seq<char>>::empty());
    while j < m
        invariant
            m == selected@.len(),
            j <= m,
            ds == texts(selected@),
            ms == metas_of(metas@),
            groups(ms, *us),
            names_ok(ms, names@),
            roots@ == units_named(ms, ds.take(j as int)),
        decreases m - j,
    {
        proof {
            assert(ds.take(j + 1).drop_last() =~= ds.take(j as int));
            assert(ds.take(j + 1).last() == selected@[j as int]@);
        }
        if let Some(u) = look_up(metas, us, names, &selected[j]) {
            roots.push(u);
        }
        j = j + 1;
    }
    assert(ds.take(m as int) =~= ds);
    roots
}

/// The units to submit: those of the selected constants, or all, with everything
/// that they depend on, in an order in which every dependency precedes its
/// dependents. Where units depend on each other in a circle, the edge that closes
/// it is skipped.
pub fn topo_order(metas: &Vec<ConstMeta>, us: &Units, selected: &Vec<String>) -> (order: Vec<usize>)
    requires
        groups(metas_of(metas@), *us),
    ensures
        order@ == submission_order(metas_of(metas@), texts(selected@)),
{
    let ghost ms = metas_of(metas@);
    let names = index_names(metas);
    proof {
        crate::units::lemma_groups(ms, *us);
    }
    let mut succ: Vec<Vec<usize>> = Vec::new();
    let n: usize = us.units.len();
    let mut u: usize = 0;
    while u < n
        invariant
            n == us.units@.len(),
            u <= n,
            ms == metas_of(metas@),
            groups(ms, *us),
            names_ok(ms, names@),
            succ@.len() == u,
            forall|k: int| 0 <= k < u ==> (#[trigger] succ@[k])@ == unit_deps(ms, k),
        decreases n - u,
    {
        let deps = deps_of_unit(metas, us, &names, u);
        succ.push(deps);
        u = u + 1;
    }
    let roots = roots_for(metas, us, &names, selected);
    proof {
        assert(ms.len() == metas.len());
        assert(edges_of(succ@) =~= unit_graph(ms));
        lemma_graph_ok(ms, texts(selected@));
    }
    depth_first(&succ, &roots)
}

} // verus!
