//! When an environment can be built.
use vstd::prelude::*;

use crate::check::environment;
use crate::check::lemma_arranged_from;
use crate::check::lemma_declared_from;
use crate::check::lemma_order_bound;
use crate::check::lemma_unit_shape;
use crate::check::lemma_with_place_from;
use crate::check::submitted;
use crate::closure::law_wanted_are_submitted;
use crate::closure::metadata;
use crate::closure::tells;
use crate::closure::wanted;
use crate::declare::addable;
use crate::declare::arranged;
use crate::declare::place;
use crate::declare::taken;
use crate::declare::unit_added;
use crate::declare::units_added;
use crate::declare::with_place;
use crate::heap::Heap;
use crate::layout::is_name;
use crate::records::law_member_read;
use crate::records::law_members_read;
use crate::records::law_metas_read;
use crate::records::law_singleton_read;
use crate::records::tells_member;
use crate::records::tells_meta;
use crate::records::tells_singleton;
use crate::order::submission_order;
use crate::snapshot::ConstantInfo;
use crate::snapshot::Meta;
use crate::tree::DeclTree;
use crate::tree::NameTree;
use crate::units::members;
use crate::units::unit_at;
use crate::units::unit_count;
use crate::units::unit_list;

verus! {

/// The record tells a declaration.
pub open spec fn recorded(h: &Heap, nats: bool, c: ConstantInfo) -> bool {
    exists|d: DeclTree| tells(h, nats, c, d)
}

/// The records do not tell the same name.
pub open spec fn names_apart(h: &Heap, a: ConstantInfo, b: ConstantInfo) -> bool {
    forall|n: NameTree| !(#[trigger] is_name(h, a.name, n) && is_name(h, b.name, n))
}

/// Every wanted constant has a record that tells a declaration, and no two of them
/// tell the same name.
pub open spec fn well_recorded(
    h: &Heap,
    nats: bool,
    cs: Seq<ConstantInfo>,
    ms: Seq<Meta>,
    selected: Seq<Seq<char>>,
) -> bool {
    &&& forall|i: usize| #[trigger] wanted(ms, selected, i) ==> recorded(h, nats, cs[i as int])
    &&& forall|i: usize, j: usize| #[trigger]
        wanted(ms, selected, i) && #[trigger] wanted(ms, selected, j) && i != j ==> names_apart(
            h,
            cs[i as int],
            cs[j as int],
        )
}

/// No two declarations of the sequence have the same name.
spec fn names_differ(ds: Seq<DeclTree>) -> bool {
    forall|i: int, j: int|
        0 <= i < j < ds.len() ==> (#[trigger] ds[i]).name != (#[trigger] ds[j]).name
}

proof fn lemma_place_differ(ds: Seq<DeclTree>, p: int)
    requires
        names_differ(ds),
    ensures
        names_differ(with_place(ds, p)),
        forall|i: int|
            0 <= i < with_place(ds, p).len() ==> place(#[trigger] with_place(ds, p)[i]) == p,
    decreases ds.len(),
{
    if ds.len() > 0 {
        let rest = ds.drop_last();
        assert forall|i: int, j: int| 0 <= i < j < rest.len() implies (#[trigger] rest[i]).name != (
        #[trigger] rest[j]).name by {
            assert(rest[i] == ds[i] && rest[j] == ds[j]);
        }
        lemma_place_differ(rest, p);
        let (a, b) = (with_place(rest, p), with_place(ds, p));
        assert forall|i: int, j: int| 0 <= i < j < b.len() implies (#[trigger] b[i]).name != (
        #[trigger] b[j]).name by {
            if j < a.len() {
                assert(a[i] == b[i] && a[j] == b[j]);
            } else {
                lemma_with_place_from(rest, p, i);
                let k = choose|k: int| 0 <= k < rest.len() && rest[k] == a[i];
                assert(ds[k] == b[i]);
                assert(ds[ds.len() - 1] == b[j]);
            }
        }
        assert forall|i: int| 0 <= i < b.len() implies place(#[trigger] b[i]) == p by {
            if i < a.len() {
                assert(b[i] == a[i]);
            }
        }
    }
}

proof fn lemma_arranged_differ(ds: Seq<DeclTree>)
    requires
        names_differ(ds),
    ensures
        names_differ(arranged(ds)),
{
    let (a, b, c) = (with_place(ds, 0), with_place(ds, 1), with_place(ds, 2));
    let all = arranged(ds);
    lemma_place_differ(ds, 0);
    lemma_place_differ(ds, 1);
    lemma_place_differ(ds, 2);
    assert forall|i: int, j: int| 0 <= i < j < all.len() implies (#[trigger] all[i]).name != (
    #[trigger] all[j]).name by {
        let (x, y) = (a.len() as int, a.len() + b.len());
        if j < x {
            assert(all[i] == a[i] && all[j] == a[j]);
        } else if x <= i && j < y {
            assert(all[i] == b[i - x] && all[j] == b[j - x]);
        } else if y <= i {
            assert(all[i] == c[i - y] && all[j] == c[j - y]);
        } else {
            let k = lemma_arranged_from(ds, i);
            let l = lemma_arranged_from(ds, j);
            if i < x {
                assert(all[i] == a[i]);
            } else {
                assert(all[i] == b[i - x]);
            }
            if j < y {
                assert(all[j] == b[j - x]);
            } else {
                assert(all[j] == c[j - y]);
            }
            assert(place(all[i]) != place(all[j]));
            assert(k != l);
            if k < l {
                assert(ds[k].name != ds[l].name);
            } else {
                assert(ds[l].name != ds[k].name);
            }
        }
    }
}

/// What was declared before a unit has other names than the constants of the unit.
proof fn lemma_name_free(
    h: &Heap,
    nats: bool,
    cs: Seq<ConstantInfo>,
    ms: Seq<Meta>,
    selected: Seq<Seq<char>>,
    k: int,
    i: usize,
    d: DeclTree,
)
    requires
        cs.len() <= usize::MAX,
        metadata(h, cs, ms),
        well_recorded(h, nats, cs, ms, selected),
        0 <= k < submission_order(ms, selected).len(),
        units_added(
            h,
            nats,
            cs,
            unit_list(ms),
            submission_order(ms, selected).take(k),
            Seq::empty(),
        ) is Ok,
        i < ms.len(),
        unit_at(ms, i as int) == submission_order(ms, selected)[k],
        tells(h, nats, cs[i as int], d),
    ensures
        !taken(
            units_added(
                h,
                nats,
                cs,
                unit_list(ms),
                submission_order(ms, selected).take(k),
                Seq::empty(),
            )->Ok_0,
            d.name,
        ),
{
    let o = submission_order(ms, selected);
    let t = o.take(k);
    let env = units_added(h, nats, cs, unit_list(ms), t, Seq::empty())->Ok_0;
    if taken(env, d.name) {
        let p = choose|p: int| 0 <= p < env.len() && (#[trigger] env[p]).decl.name == d.name;
        lemma_order_bound(ms, selected);
        assert forall|j: int| 0 <= j < t.len() implies (#[trigger] t[j]) < unit_count(ms) by {
            assert(o[j] < unit_count(ms));
        }
        let j = lemma_declared_from(h, nats, ms, cs, t, p);
        let x = choose|x: int| 0 <= x < t.len() && t[x] == unit_at(ms, j as int) as usize;
        crate::order::law_submitted_once(ms, selected, 0);
        assert(o[x] == t[x]);
        assert(o[x] != o[k]);
        assert(i != j);
        assert(o.contains(o[x]));
        assert(o.contains(o[k]));
        assert(submitted(ms, o, j));
        assert(submitted(ms, o, i));
        law_wanted_are_submitted(ms, selected, i);
        law_wanted_are_submitted(ms, selected, j);
        assert(wanted(ms, selected, i) && wanted(ms, selected, j));
        assert(names_apart(h, cs[i as int], cs[j as int]));
        let e = env[p].decl;
        law_singleton_read(h, nats, j, cs[j as int], e);
        law_member_read(h, nats, j, cs[j as int], e);
        assert(is_name(h, cs[i as int].name, d.name));
        assert(is_name(h, cs[j as int].name, e.name));
    }
}

proof fn lemma_unit_succeeds(
    h: &Heap,
    nats: bool,
    cs: Seq<ConstantInfo>,
    ms: Seq<Meta>,
    selected: Seq<Seq<char>>,
    k: int,
)
    requires
        cs.len() <= usize::MAX,
        metadata(h, cs, ms),
        well_recorded(h, nats, cs, ms, selected),
        0 <= k < submission_order(ms, selected).len(),
        units_added(
            h,
            nats,
            cs,
            unit_list(ms),
            submission_order(ms, selected).take(k),
            Seq::empty(),
        ) is Ok,
    ensures
        unit_added(
            h,
            nats,
            cs,
            unit_list(ms)[submission_order(ms, selected)[k] as int],
            units_added(
                h,
                nats,
                cs,
                unit_list(ms),
                submission_order(ms, selected).take(k),
                Seq::empty(),
            )->Ok_0,
        ) is Ok,
{
    let o = submission_order(ms, selected);
    let env = units_added(h, nats, cs, unit_list(ms), o.take(k), Seq::empty())->Ok_0;
    let u = o[k] as int;
    let unit = unit_list(ms)[u];
    let mem = members(ms, u);
    lemma_order_bound(ms, selected);
    lemma_unit_shape(ms, u);
    crate::units::law_units_divide(ms, u);
    assert(unit.members == mem);
    assert forall|x: int| 0 <= x < mem.len() implies {
        &&& (#[trigger] mem[x]) < ms.len()
        &&& unit_at(ms, mem[x] as int) == u
        &&& wanted(ms, selected, mem[x])
        &&& recorded(h, nats, cs[mem[x] as int])
        &&& ms[mem[x] as int].kind == cs[mem[x] as int].kind
    } by {
        assert(mem.contains(mem[x]));
        assert(o.contains(o[k]));
        assert(submitted(ms, o, mem[x]));
        law_wanted_are_submitted(ms, selected, mem[x]);
        assert(tells_meta(h, cs[mem[x] as int], ms[mem[x] as int]));
    }
    reveal(unit_added);
    if unit.is_block {
        let ds = Seq::new(
            mem.len(),
            |x: int| choose|d: DeclTree| tells(h, nats, cs[mem[x] as int], d),
        );
        assert forall|x: int| 0 <= x < ds.len() implies tells_member(
            h,
            nats,
            cs[mem[x] as int],
            #[trigger] ds[x],
        ) && tells(h, nats, cs[mem[x] as int], ds[x]) by {
            assert(recorded(h, nats, cs[mem[x] as int]));
            assert(unit.members[x] < ms.len());
        }
        law_members_read(h, nats, cs, mem, ds);
        assert forall|x: int, y: int| 0 <= x < y < ds.len() implies (#[trigger] ds[x]).name != (
        #[trigger] ds[y]).name by {
            assert(mem[x] < mem[y]);
            assert(wanted(ms, selected, mem[x]) && wanted(ms, selected, mem[y]));
            assert(names_apart(h, cs[mem[x] as int], cs[mem[y] as int]));
            assert(is_name(h, cs[mem[x] as int].name, ds[x].name));
            assert(is_name(h, cs[mem[y] as int].name, ds[y].name));
        }
        assert(names_differ(ds));
        lemma_arranged_differ(ds);
        let all = arranged(ds);
        assert forall|x: int| 0 <= x < all.len() implies !taken(env, (#[trigger] all[x]).name) by {
            let y = lemma_arranged_from(ds, x);
            assert(mem[y] < ms.len());
            assert(tells(h, nats, cs[mem[y] as int], ds[y]));
            lemma_name_free(h, nats, cs, ms, selected, k, mem[y], ds[y]);
        }
        assert forall|x: int, y: int| 0 <= x < all.len() && 0 <= y < all.len() && x != y implies (
        #[trigger] all[x]).name != (#[trigger] all[y]).name by {
            if x < y {
                assert(all[x].name != all[y].name);
            } else {
                assert(all[y].name != all[x].name);
            }
        }
        assert(addable(env, all));
    } else {
        let i = mem[0];
        assert(unit.members[0] < ms.len());
        assert(recorded(h, nats, cs[i as int]));
        let d = choose|d: DeclTree| tells(h, nats, cs[i as int], d);
        assert(tells_singleton(h, nats, cs[i as int], d));
        law_singleton_read(h, nats, i, cs[i as int], d);
        lemma_name_free(h, nats, cs, ms, selected, k, i, d);
        assert(seq![d][0] == d);
        assert(addable(env, seq![d]));
    }
}

proof fn lemma_units_succeed(
    h: &Heap,
    nats: bool,
    cs: Seq<ConstantInfo>,
    ms: Seq<Meta>,
    selected: Seq<Seq<char>>,
    k: int,
)
    requires
        cs.len() <= usize::MAX,
        metadata(h, cs, ms),
        well_recorded(h, nats, cs, ms, selected),
        0 <= k <= submission_order(ms, selected).len(),
    ensures
        units_added(
            h,
            nats,
            cs,
            unit_list(ms),
            submission_order(ms, selected).take(k),
            Seq::empty(),
        ) is Ok,
    decreases k,
{
    let o = submission_order(ms, selected);
    if k > 0 {
        lemma_units_succeed(h, nats, cs, ms, selected, k - 1);
        lemma_unit_succeeds(h, nats, cs, ms, selected, k - 1);
        assert(o.take(k).drop_last() =~= o.take(k - 1));
        assert(o.take(k).last() == o[k - 1]);
    }
}

/// Law: an environment can be built whenever the records of the wanted constants tell
/// declarations with different names.
pub proof fn law_well_recorded_is_built(
    h: &Heap,
    nats: bool,
    cs: Seq<ConstantInfo>,
    ms: Seq<Meta>,
    selected: Seq<Seq<char>>,
)
    requires
        cs.len() <= usize::MAX,
        metadata(h, cs, ms),
        well_recorded(h, nats, cs, ms, selected),
    ensures
        environment(h, nats, cs, selected) is Ok,
{
    let o = submission_order(ms, selected);
    law_metas_read(h, cs, ms);
    lemma_units_succeed(h, nats, cs, ms, selected, o.len() as int);
    assert(o.take(o.len() as int) =~= o);
}

/// Law: where an environment can be built, the records of all wanted constants tell
/// declarations.
pub proof fn law_built_is_recorded(
    h: &Heap,
    nats: bool,
    cs: Seq<ConstantInfo>,
    ms: Seq<Meta>,
    selected: Seq<Seq<char>>,
    i: usize,
)
    requires
        cs.len() <= usize::MAX,
        metadata(h, cs, ms),
        environment(h, nats, cs, selected) is Ok,
        wanted(ms, selected, i),
    ensures
        recorded(h, nats, cs[i as int]),
{
    crate::closure::law_wanted_are_declared(h, nats, cs, selected, ms, i);
    let env = environment(h, nats, cs, selected)->Ok_0;
    let p = choose|p: int|
        0 <= p < env.len() && tells(h, nats, cs[i as int], (#[trigger] env[p]).decl);
    assert(tells(h, nats, cs[i as int], env[p].decl));
}

} // verus!
