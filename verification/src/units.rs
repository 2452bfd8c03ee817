//! Groups constants into units that are submitted together: a mutual block is one
//! unit, and any other constant is a unit of its own.
use vstd::hash_map::StringHashMap;
use vstd::prelude::*;

use crate::key::block_key;
use crate::key::block_key_from_all;
use crate::key::separable;
use crate::key::texts;
use crate::snapshot::metas_of;
use crate::snapshot::ConstMeta;
use crate::snapshot::Meta;
use crate::snapshot::KIND_CTOR;
use crate::snapshot::KIND_INDUCT;
use crate::snapshot::KIND_REC;

verus! {

/// A single constant or a whole mutual block, by the positions of its constants.
#[derive(Debug)]
pub struct Unit {
    pub members: Vec<usize>,
    pub is_block: bool,
}

/// [`Unit`], mathematically.
#[verifier::ext_equal]
pub struct Group {
    pub members: Seq<usize>,
    pub is_block: bool,
}

impl View for Unit {
    type V = Group;

    open spec fn view(&self) -> Group {
        Group { members: self.members@, is_block: self.is_block }
    }
}

/// The units, and the unit of each constant.
#[derive(Debug)]
pub struct Units {
    pub units: Vec<Unit>,
    pub unit_of: Vec<usize>,
}

/// The position of the last constant with this name among the first `n`.
pub open spec fn last_named(ms: Seq<Meta>, name: Seq<char>, n: int) -> Option<int>
    decreases n,
{
    if n <= 0 {
        None
    } else if ms[n - 1].name == name {
        Some(n - 1)
    } else {
        last_named(ms, name, n - 1)
    }
}

/// The constant that a name stands for: the last one with that name.
pub open spec fn find(ms: Seq<Meta>, name: Seq<char>) -> Option<int> {
    last_named(ms, name, ms.len() as int)
}

pub proof fn lemma_last_named(ms: Seq<Meta>, name: Seq<char>, n: int)
    requires
        0 <= n <= ms.len(),
    ensures
        match last_named(ms, name, n) {
            Some(i) => 0 <= i < n && ms[i].name == name,
            None => forall|i: int| 0 <= i < n ==> (#[trigger] ms[i]).name != name,
        },
    decreases n,
{
    if n > 0 {
        lemma_last_named(ms, name, n - 1);
    }
}

/// The key of the mutual block that the constant at `i` belongs to; none for a
/// constant that belongs to no block. A constructor has the key of its inductive
/// type, or the name of that type where the type is not among the constants.
pub open spec fn key_of(ms: Seq<Meta>, i: int) -> Option<Seq<char>> {
    let m = ms[i];
    if m.kind == KIND_INDUCT {
        Some(block_key(m.induct_all))
    } else if m.kind == KIND_REC {
        Some(block_key(m.rec_all))
    } else if m.kind == KIND_CTOR {
        match find(ms, m.induct) {
            Some(j) => Some(block_key(ms[j].induct_all)),
            None => Some(m.induct),
        }
    } else {
        None
    }
}

/// Whether the constants at `i` and `j` belong to the same mutual block.
pub open spec fn same_block(ms: Seq<Meta>, i: int, j: int) -> bool {
    key_of(ms, i) is Some && key_of(ms, i) == key_of(ms, j)
}

/// The first constant from `from` on that belongs to the block of the one at `i`, or
/// `i` itself.
pub open spec fn leader_from(ms: Seq<Meta>, i: int, from: int) -> int
    decreases i - from,
{
    if from >= i {
        i
    } else if same_block(ms, from, i) {
        from
    } else {
        leader_from(ms, i, from + 1)
    }
}

/// The first constant of the unit that the constant at `i` belongs to.
pub open spec fn leader(ms: Seq<Meta>, i: int) -> int {
    leader_from(ms, i, 0)
}

/// How many units the first `n` constants make up.
pub open spec fn units_upto(ms: Seq<Meta>, n: int) -> nat
    decreases n,
{
    if n <= 0 {
        0
    } else if leader(ms, n - 1) == n - 1 {
        units_upto(ms, n - 1) + 1
    } else {
        units_upto(ms, n - 1)
    }
}

/// The unit of the constant at `i`. Units are numbered by their first constants.
pub open spec fn unit_at(ms: Seq<Meta>, i: int) -> int {
    units_upto(ms, leader(ms, i)) as int
}

/// The constants of unit `u` among the first `n`, in order.
pub open spec fn members_upto(ms: Seq<Meta>, u: int, n: int) -> Seq<usize>
    decreases n,
{
    if n <= 0 {
        Seq::empty()
    } else if unit_at(ms, n - 1) == u {
        members_upto(ms, u, n - 1).push((n - 1) as usize)
    } else {
        members_upto(ms, u, n - 1)
    }
}

/// The constants of unit `u`, in order.
pub open spec fn members(ms: Seq<Meta>, u: int) -> Seq<usize> {
    members_upto(ms, u, ms.len() as int)
}

/// The number of units.
pub open spec fn unit_count(ms: Seq<Meta>) -> nat {
    units_upto(ms, ms.len() as int)
}

/// The units that the constants make up.
pub open spec fn unit_list(ms: Seq<Meta>) -> Seq<Group> {
    Seq::new(
        unit_count(ms),
        |u: int|
            Group {
                members: members(ms, u),
                is_block: key_of(ms, members(ms, u)[0] as int) is Some,
            },
    )
}

/// The units of a list, mathematically.
pub open spec fn groups_of(us: Seq<Unit>) -> Seq<Group> {
    us.map_values(|u: Unit| u@)
}

/// `us` groups the constants `ms`.
pub open spec fn groups(ms: Seq<Meta>, us: Units) -> bool {
    &&& us.unit_of@.len() == ms.len()
    &&& forall|i: int| 0 <= i < ms.len() ==> #[trigger] us.unit_of@[i] == unit_at(ms, i)
    &&& groups_of(us.units@) == unit_list(ms)
}

proof fn lemma_leader_from(ms: Seq<Meta>, i: int, from: int)
    requires
        0 <= from <= i,
    ensures
        from <= leader_from(ms, i, from) <= i,
        leader_from(ms, i, from) < i ==> same_block(ms, leader_from(ms, i, from), i),
        forall|j: int|
            from <= j < leader_from(ms, i, from) ==> !#[trigger] same_block(ms, j, i),
    decreases i - from,
{
    if from < i && !same_block(ms, from, i) {
        lemma_leader_from(ms, i, from + 1);
    }
}

/// What the leader is: the first constant of the block, or the constant itself.
proof fn lemma_leader(ms: Seq<Meta>, i: int)
    requires
        0 <= i,
    ensures
        0 <= leader(ms, i) <= i,
        leader(ms, i) < i ==> same_block(ms, leader(ms, i), i),
        forall|j: int| 0 <= j < leader(ms, i) ==> !#[trigger] same_block(ms, j, i),
        leader(ms, leader(ms, i)) == leader(ms, i),
{
    lemma_leader_from(ms, i, 0);
    let l = leader(ms, i);
    lemma_leader_from(ms, l, 0);
    let l2 = leader(ms, l);
    if l2 < l {
        assert(same_block(ms, l2, l));
        if l < i {
            assert(same_block(ms, l2, i));
        }
    }
}

proof fn lemma_same_leader(ms: Seq<Meta>, i: int, j: int)
    requires
        0 <= j <= i,
        same_block(ms, j, i),
    ensures
        leader(ms, i) == leader(ms, j),
{
    lemma_leader(ms, i);
    lemma_leader(ms, j);
    let (a, b) = (leader(ms, i), leader(ms, j));
    assert(a <= j) by {
        if a > j {
            assert(!same_block(ms, j, i));
        }
    }
    if a < b {
        assert(same_block(ms, a, j)) by {
            if a < i {
                assert(same_block(ms, a, i));
            }
        }
    }
    if b < a {
        assert(same_block(ms, b, i)) by {
            if b < j {
                assert(same_block(ms, b, j));
            }
        }
    }
}

proof fn lemma_units_upto(ms: Seq<Meta>, a: int, b: int)
    requires
        0 <= a <= b,
    ensures
        units_upto(ms, a) <= units_upto(ms, b),
        a < b && leader(ms, a) == a ==> units_upto(ms, a) < units_upto(ms, b),
    decreases b,
{
    if a < b {
        lemma_units_upto(ms, a, b - 1);
    }
}

/// A constant's unit exists as soon as the constant is counted.
proof fn lemma_unit_bound(ms: Seq<Meta>, i: int, n: int)
    requires
        0 <= i < n,
    ensures
        0 <= unit_at(ms, i) < units_upto(ms, n),
{
    lemma_leader(ms, i);
    lemma_units_upto(ms, leader(ms, i), n);
}

/// There are not more units than constants.
pub proof fn lemma_count_bound(ms: Seq<Meta>, n: int)
    requires
        0 <= n,
    ensures
        units_upto(ms, n) <= n,
    decreases n,
{
    if n > 0 {
        lemma_count_bound(ms, n - 1);
    }
}

/// Law: two constants are in the same unit if and only if they are the same constant
/// or belong to the same mutual block.
pub proof fn law_same_unit(ms: Seq<Meta>, i: int, j: int)
    requires
        0 <= i < ms.len(),
        0 <= j < ms.len(),
    ensures
        unit_at(ms, i) == unit_at(ms, j) <==> (i == j || same_block(ms, i, j)),
{
    lemma_leader(ms, i);
    lemma_leader(ms, j);
    let (a, b) = (leader(ms, i), leader(ms, j));
    if unit_at(ms, i) == unit_at(ms, j) {
        if a < b {
            lemma_units_upto(ms, a, b);
        } else if b < a {
            lemma_units_upto(ms, b, a);
        }
        assert(a == b);
        if i != j {
            assert(same_block(ms, i, j)) by {
                if a < i {
                    assert(same_block(ms, a, i));
                }
                if b < j {
                    assert(same_block(ms, b, j));
                }
            }
        }
    } else if same_block(ms, i, j) {
        if i <= j {
            lemma_same_leader(ms, j, i);
        } else {
            lemma_same_leader(ms, i, j);
        }
    }
}

/// The inductive types of the block that an inductive type or a recursor belongs to.
pub open spec fn types_of(m: Meta) -> Seq<Seq<char>> {
    if m.kind == KIND_INDUCT {
        m.induct_all
    } else {
        m.rec_all
    }
}

/// Law: inductive types and recursors that list the same inductive types, in
/// whatever order, are in the same unit.
pub proof fn law_block_together(ms: Seq<Meta>, i: int, j: int)
    requires
        0 <= i < ms.len(),
        0 <= j < ms.len(),
        ms[i].kind == KIND_INDUCT || ms[i].kind == KIND_REC,
        ms[j].kind == KIND_INDUCT || ms[j].kind == KIND_REC,
        types_of(ms[i]).to_multiset() == types_of(ms[j]).to_multiset(),
    ensures
        unit_at(ms, i) == unit_at(ms, j),
{
    crate::key::law_key_ignores_order(types_of(ms[i]), types_of(ms[j]));
    law_same_unit(ms, i, j);
}

/// Law: inductive types and recursors that list different inductive types are in
/// different units, as long as no name holds the separator.
pub proof fn law_blocks_apart(ms: Seq<Meta>, i: int, j: int)
    requires
        0 <= i < ms.len(),
        0 <= j < ms.len(),
        ms[i].kind == KIND_INDUCT || ms[i].kind == KIND_REC,
        ms[j].kind == KIND_INDUCT || ms[j].kind == KIND_REC,
        types_of(ms[i]).len() > 0,
        types_of(ms[j]).len() > 0,
        separable(types_of(ms[i])),
        separable(types_of(ms[j])),
        types_of(ms[i]).to_multiset() != types_of(ms[j]).to_multiset(),
    ensures
        unit_at(ms, i) != unit_at(ms, j),
{
    if unit_at(ms, i) == unit_at(ms, j) {
        law_same_unit(ms, i, j);
        crate::key::law_key_tells_blocks_apart(types_of(ms[i]), types_of(ms[j]));
    }
}

/// Law: a constructor is in the unit of its inductive type.
pub proof fn law_constructor_with_type(ms: Seq<Meta>, i: int, j: int)
    requires
        0 <= i < ms.len(),
        ms[i].kind == KIND_CTOR,
        find(ms, ms[i].induct) == Some(j),
        ms[j].kind == KIND_INDUCT,
    ensures
        unit_at(ms, i) == unit_at(ms, j),
{
    lemma_last_named(ms, ms[i].induct, ms.len() as int);
    law_same_unit(ms, i, j);
}

proof fn lemma_members_upto(ms: Seq<Meta>, u: int, n: int)
    requires
        0 <= n <= usize::MAX,
    ensures
        forall|k: int|
            0 <= k < members_upto(ms, u, n).len() ==> {
                &&& #[trigger] members_upto(ms, u, n)[k] < n
                &&& unit_at(ms, members_upto(ms, u, n)[k] as int) == u
            },
        forall|k: int, l: int|
            0 <= k < l < members_upto(ms, u, n).len() ==> #[trigger] members_upto(ms, u, n)[k]
                < #[trigger] members_upto(ms, u, n)[l],
        forall|i: int|
            0 <= i < n && #[trigger] unit_at(ms, i) == u ==> members_upto(ms, u, n).contains(
                i as usize,
            ),
    decreases n,
{
    if n > 0 {
        lemma_members_upto(ms, u, n - 1);
        let m0 = members_upto(ms, u, n - 1);
        let m1 = members_upto(ms, u, n);
        assert forall|i: int| 0 <= i < n && #[trigger] unit_at(ms, i) == u implies m1.contains(
            i as usize,
        ) by {
            if i < n - 1 {
                assert(m0.contains(i as usize));
                let k = choose|k: int| 0 <= k < m0.len() && m0[k] == i as usize;
                assert(m1[k] == i as usize);
            } else {
                assert(m1[m1.len() - 1] == i as usize);
            }
        }
    }
}

/// Law: the units divide the constants. The members of a unit are exactly the
/// constants of that unit, each once and in ascending order, so every constant is a
/// member of exactly one unit.
pub proof fn law_units_divide(ms: Seq<Meta>, u: int)
    requires
        ms.len() <= usize::MAX,
    ensures
        forall|i: int|
            0 <= i < ms.len() ==> (members(ms, u).contains(i as usize) <==> #[trigger] unit_at(
                ms,
                i,
            ) == u),
        forall|k: int| 0 <= k < members(ms, u).len() ==> #[trigger] members(ms, u)[k] < ms.len(),
        forall|k: int, l: int|
            0 <= k < l < members(ms, u).len() ==> #[trigger] members(ms, u)[k]
                < #[trigger] members(ms, u)[l],
        forall|i: int| 0 <= i < ms.len() ==> 0 <= #[trigger] unit_at(ms, i) < unit_count(ms),
{
    let n = ms.len() as int;
    lemma_members_upto(ms, u, n);
    assert forall|i: int| 0 <= i < n implies 0 <= #[trigger] unit_at(ms, i) < unit_count(ms) by {
        lemma_unit_bound(ms, i, n);
    }
    assert forall|i: int| 0 <= i < n implies (members(ms, u).contains(i as usize)
        <==> #[trigger] unit_at(ms, i) == u) by {
        if members(ms, u).contains(i as usize) {
            let k = choose|k: int| 0 <= k < members(ms, u).len() && members(ms, u)[k] == i as usize;
            assert(members_upto(ms, u, n)[k] < n);
        }
    }
}

/// Every unit has a member.
proof fn lemma_unit_inhabited(ms: Seq<Meta>, u: int, n: int) -> (i: int)
    requires
        0 <= u < units_upto(ms, n),
        0 <= n,
    ensures
        0 <= i < n,
        leader(ms, i) == i,
        unit_at(ms, i) == u,
    decreases n,
{
    if u < units_upto(ms, n - 1) {
        lemma_unit_inhabited(ms, u, n - 1)
    } else {
        n - 1
    }
}

/// Law: no unit is empty.
pub proof fn law_units_inhabited(ms: Seq<Meta>, u: int)
    requires
        ms.len() <= usize::MAX,
        0 <= u < unit_count(ms),
    ensures
        members(ms, u).len() > 0,
{
    let i = lemma_unit_inhabited(ms, u, ms.len() as int);
    law_units_divide(ms, u);
    assert(members(ms, u).contains(i as usize));
}

/// Law: units are numbered by their first constants.
pub proof fn law_units_in_order(ms: Seq<Meta>, u: int, v: int)
    requires
        ms.len() <= usize::MAX,
        0 <= u < v < unit_count(ms),
    ensures
        members(ms, u)[0] < members(ms, v)[0],
{
    let n = ms.len() as int;
    let a = lemma_unit_inhabited(ms, u, n);
    let b = lemma_unit_inhabited(ms, v, n);
    law_units_divide(ms, u);
    law_units_divide(ms, v);
    law_units_inhabited(ms, u);
    law_units_inhabited(ms, v);
    if b <= a {
        lemma_units_upto(ms, b, a);
    }
    assert(members(ms, u).contains(a as usize));
    let k = choose|k: int| 0 <= k < members(ms, u).len() && members(ms, u)[k] == a as usize;
    assert(members(ms, u)[0] <= members(ms, u)[k]);
    let m = members(ms, v)[0] as int;
    assert(members(ms, v).contains(members(ms, v)[0]));
    assert(unit_at(ms, m) == v);
    lemma_leader(ms, m);
    let l = leader(ms, m);
    if l < b {
        lemma_units_upto(ms, l, b);
    }
}

/// Law: the units are the sets of constants that belong together, and a unit is a
/// block if and only if its constants are inductive types, constructors or recursors.
pub proof fn law_unit_listed(ms: Seq<Meta>, i: int)
    requires
        ms.len() <= usize::MAX,
        0 <= i < ms.len(),
    ensures
        unit_list(ms).len() == unit_count(ms),
        0 <= unit_at(ms, i) < unit_count(ms),
        forall|j: int|
            0 <= j < ms.len() ==> (unit_list(ms)[unit_at(ms, i)].members.contains(j as usize)
                <==> #[trigger] unit_at(ms, j) == unit_at(ms, i)),
        unit_list(ms)[unit_at(ms, i)].is_block <==> 5 <= ms[i].kind <= 7,
{
    let u = unit_at(ms, i);
    law_units_divide(ms, u);
    law_units_inhabited(ms, u);
    let m = members(ms, u)[0];
    assert(members(ms, u).contains(m));
    assert(unit_at(ms, m as int) == u);
    law_same_unit(ms, i, m as int);
}

/// Law: a constant that is no inductive type, constructor or recursor is alone in its
/// unit.
pub proof fn law_others_alone(ms: Seq<Meta>, i: int, j: int)
    requires
        0 <= i < ms.len(),
        0 <= j < ms.len(),
        ms[i].kind < 5 || ms[i].kind > 7,
        unit_at(ms, i) == unit_at(ms, j),
    ensures
        i == j,
{
    law_same_unit(ms, i, j);
}

/// Law: constructors whose inductive types are not among the constants are in the
/// same unit if and only if their types have the same name.
pub proof fn law_orphans(ms: Seq<Meta>, i: int, j: int)
    requires
        0 <= i < ms.len(),
        0 <= j < ms.len(),
        i != j,
        ms[i].kind == 6,
        ms[j].kind == 6,
        find(ms, ms[i].induct) is None,
        find(ms, ms[j].induct) is None,
    ensures
        unit_at(ms, i) == unit_at(ms, j) <==> ms[i].induct == ms[j].induct,
{
    law_same_unit(ms, i, j);
}

/// What a grouping says of a unit.
pub proof fn lemma_groups(ms: Seq<Meta>, us: Units)
    requires
        groups(ms, us),
    ensures
        us.units@.len() == unit_count(ms),
        forall|u: int|
            0 <= u < us.units@.len() ==> (#[trigger] us.units@[u]).members@ == members(ms, u),
{
    assert(us.units@.len() == groups_of(us.units@).len());
    assert forall|u: int| 0 <= u < us.units@.len() implies (#[trigger] us.units@[u]).members@
        == members(ms, u) by {
        assert(groups_of(us.units@)[u] == unit_list(ms)[u]);
    }
}

/// Where each name was last given, by name.
pub fn index_names(metas: &Vec<ConstMeta>) -> (map: StringHashMap<usize>)
    ensures
        forall|s: Seq<char>|
            #![trigger map@.contains_key(s)]
            match find(metas_of(metas@), s) {
                Some(i) => map@.contains_key(s) && map@[s] == i,
                None => !map@.contains_key(s),
            },
{
    let mut map: StringHashMap<usize> = StringHashMap::new();
    let n: usize = metas.len();
    let ghost ms = metas_of(metas@);
    let mut i: usize = 0;
    while i < n
        invariant
            n == metas@.len(),
            ms == metas_of(metas@),
            i <= n,
            forall|s: Seq<char>|
                #![trigger map@.contains_key(s)]
                match last_named(ms, s, i as int) {
                    Some(j) => map@.contains_key(s) && map@[s] == j,
                    None => !map@.contains_key(s),
                },
        decreases n - i,
    {
        let ghost map0 = map@;
        map.insert(metas[i].name.clone(), i);
        assert(ms[i as int].name == metas@[i as int].name@);
        assert forall|s: Seq<char>| #![trigger map@.contains_key(s)]
            match last_named(ms, s, i + 1) {
                Some(j) => map@.contains_key(s) && map@[s] == j,
                None => !map@.contains_key(s),
            } by {
            assert(map0.contains_key(s) || !map0.contains_key(s));
        }
        i = i + 1;
    }
    map
}

/// The key of the mutual block that a constant belongs to.
fn key_for(metas: &Vec<ConstMeta>, names: &StringHashMap<usize>, i: usize) -> (key: Option<String>)
    requires
        i < metas@.len(),
        forall|s: Seq<char>|
            #![trigger names@.contains_key(s)]
            match find(metas_of(metas@), s) {
                Some(i) => names@.contains_key(s) && names@[s] == i,
                None => !names@.contains_key(s),
            },
    ensures
        match (key, key_of(metas_of(metas@), i as int)) {
            (Some(k), Some(t)) => k@ == t,
            (None, None) => true,
            _ => false,
        },
{
    let m = &metas[i];
    let ghost ms = metas_of(metas@);
    assert(ms[i as int] == m@);
    if m.kind == KIND_INDUCT {
        Some(block_key_from_all(clone_strings(&m.induct_all)))
    } else if m.kind == KIND_REC {
        Some(block_key_from_all(clone_strings(&m.rec_all)))
    } else if m.kind == KIND_CTOR {
        proof {
            lemma_last_named(ms, m.induct@, ms.len() as int);
        }
        assert(names@.contains_key(m.induct@) || !names@.contains_key(m.induct@));
        match names.get(m.induct.as_str()) {
            Some(j) => {
                assert(ms[*j as int] == metas@[*j as int]@);
                Some(block_key_from_all(clone_strings(&metas[*j].induct_all)))
            },
            None => Some(m.induct.clone()),
        }
    } else {
        None
    }
}

fn clone_strings(v: &Vec<String>) -> (out: Vec<String>)
    ensures
        texts(out@) == texts(v@),
{
    let mut out: Vec<String> = Vec::new();
    let n: usize = v.len();
    let mut i: usize = 0;
    while i < n
        invariant
            n == v@.len(),
            i <= n,
            out@ == v@.take(i as int),
        decreases n - i,
    {
        out.push(v[i].clone());
        assert(v@.take(i + 1) =~= v@.take(i as int).push(v@[i as int]));
        i = i + 1;
    }
    assert(v@.take(n as int) =~= v@);
    out
}

proof fn lemma_no_members_yet(ms: Seq<Meta>, u: int, n: int)
    requires
        0 <= n,
        u >= units_upto(ms, n),
    ensures
        members_upto(ms, u, n) == Seq::<usize>::empty(),
    decreases n,
{
    if n > 0 {
        lemma_unit_bound(ms, n - 1, n);
        lemma_units_upto(ms, n - 1, n);
        lemma_no_members_yet(ms, u, n - 1);
    }
}

/// The unit under construction holds the first `n` constants that belong to it.
spec fn unit_ok(ms: Seq<Meta>, us: Seq<Unit>, u: int, n: int) -> bool {
    &&& us[u].members@ == members_upto(ms, u, n)
    &&& us[u].members@.len() > 0
    &&& us[u].is_block == (key_of(ms, us[u].members@[0] as int) is Some)
}

/// The map holds the unit of every block that the first `n` constants touch.
spec fn keys_ok(ms: Seq<Meta>, map: Map<Seq<char>, usize>, n: int) -> bool {
    &&& forall|j: int|
        #![trigger key_of(ms, j)]
        0 <= j < n && key_of(ms, j) is Some ==> map.contains_key(key_of(ms, j)->0) && map[key_of(
            ms,
            j,
        )->0] == unit_at(ms, j)
    &&& forall|s: Seq<char>| #[trigger]
        map.contains_key(s) ==> exists|j: int|
            0 <= j < n && #[trigger] key_of(ms, j) == Some(s)
}

/// Group the constants into units. The constants of a mutual block share one, and
/// units are numbered in the order of their first constants.
pub fn assign_units(metas: &Vec<ConstMeta>) -> (us: Units)
    ensures
        groups(metas_of(metas@), us),
{
    let names = index_names(metas);
    let ghost ms = metas_of(metas@);
    let mut units: Vec<Unit> = Vec::new();
    let mut unit_of: Vec<usize> = Vec::new();
    let mut key_to_unit: StringHashMap<usize> = StringHashMap::new();
    let n: usize = metas.len();
    let mut i: usize = 0;
    while i < n
        invariant
            n == metas@.len(),
            ms == metas_of(metas@),
            i <= n,
            forall|s: Seq<char>|
                #![trigger names@.contains_key(s)]
                match find(metas_of(metas@), s) {
                    Some(i) => names@.contains_key(s) && names@[s] == i,
                    None => !names@.contains_key(s),
                },
            units@.len() == units_upto(ms, i as int),
            unit_of@.len() == i,
            forall|j: int| 0 <= j < i ==> #[trigger] unit_of@[j] == unit_at(ms, j),
            forall|u: int| 0 <= u < units@.len() ==> #[trigger] unit_ok(ms, units@, u, i as int),
            keys_ok(ms, key_to_unit@, i as int),
        decreases n - i,
    {
        let ghost units0 = units@;
        let ghost map0 = key_to_unit@;
        let ghost x = i as int;
        let fresh: usize = units.len();
        let key = key_for(metas, &names, i);
        let is_block = key.is_some();
        let known: Option<usize> = match &key {
            Some(k) => match key_to_unit.get(k.as_str()) {
                Some(u) => Some(*u),
                None => None,
            },
            None => None,
        };
        proof {
            lemma_leader(ms, x);
            if known is Some {
                let k = key->0@;
                let j = choose|j: int| 0 <= j < x && #[trigger] key_of(ms, j) == Some(k);
                assert(same_block(ms, j, x));
                lemma_same_leader(ms, x, j);
                lemma_leader(ms, j);
                lemma_unit_bound(ms, j, x);
                assert(leader(ms, x) < x);
                assert(unit_at(ms, x) == known->0);
            } else {
                if leader(ms, x) < x {
                    assert(same_block(ms, leader(ms, x), x));
                }
                assert(leader(ms, x) == x);
                assert(unit_at(ms, x) == fresh);
                lemma_no_members_yet(ms, fresh as int, x);
            }
        }
        let unit: usize = match known {
            Some(u) => u,
            None => {
                units.push(Unit { members: Vec::new(), is_block });
                if let Some(k) = key {
                    key_to_unit.insert(k, fresh);
                }
                fresh
            },
        };
        units[unit].members.push(i);
        unit_of.push(unit);
        proof {
            assert forall|u: int| 0 <= u < units@.len() implies #[trigger] unit_ok(
                ms,
                units@,
                u,
                x + 1,
            ) by {
                if u < units0.len() {
                    assert(unit_ok(ms, units0, u, x));
                }
            }
            assert(keys_ok(ms, key_to_unit@, x + 1)) by {
                assert forall|s: Seq<char>| #[trigger] key_to_unit@.contains_key(s) implies exists|
                    j: int,
                |
                    0 <= j < x + 1 && #[trigger] key_of(ms, j) == Some(s) by {
                    if map0.contains_key(s) {
                        let j = choose|j: int| 0 <= j < x && #[trigger] key_of(ms, j) == Some(s);
                        assert(key_of(ms, j) == Some(s));
                    } else {
                        assert(key_of(ms, x) == Some(s));
                    }
                }
                assert forall|j: int|
                    #![trigger key_of(ms, j)]
                    0 <= j < x + 1 && key_of(ms, j) is Some implies key_to_unit@.contains_key(
                    key_of(ms, j)->0,
                ) && key_to_unit@[key_of(ms, j)->0] == unit_at(ms, j) by {
                    if j < x {
                        assert(map0.contains_key(key_of(ms, j)->0));
                    }
                }
            }
        }
        i = i + 1;
    }
    proof {
        assert(groups_of(units@) =~= unit_list(ms)) by {
            assert forall|u: int| 0 <= u < units@.len() implies #[trigger] groups_of(units@)[u]
                == unit_list(ms)[u] by {
                assert(unit_ok(ms, units@, u, n as int));
            }
        }
    }
    Units { units, unit_of }
}

} // verus!
