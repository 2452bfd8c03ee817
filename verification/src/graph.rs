//! Depth-first post-order of a directed graph, with its laws.
use vstd::prelude::*;

verus! {

/// The successors of each node.
pub type Edges = Seq<Seq<usize>>;

/// Every successor is a node.
pub open spec fn edges_ok(g: Edges) -> bool {
    forall|u: int, k: int|
        0 <= u < g.len() && 0 <= k < g[u].len() ==> #[trigger] g[u][k] < g.len()
}

/// How many of the first `n` nodes were not seen.
pub open spec fn unseen(seen: Set<usize>, n: int) -> nat
    decreases n,
{
    if n <= 0 {
        0
    } else if seen.contains((n - 1) as usize) {
        unseen(seen, n - 1)
    } else {
        unseen(seen, n - 1) + 1
    }
}

/// Seeing more leaves less unseen.
pub proof fn lemma_unseen(a: Set<usize>, b: Set<usize>, n: int)
    requires
        a.subset_of(b),
        0 <= n <= usize::MAX,
    ensures
        unseen(b, n) <= unseen(a, n),
        forall|v: usize|
            v < n && !a.contains(v) && #[trigger] b.contains(v) ==> unseen(b, n) < unseen(a, n),
    decreases n,
{
    if n > 0 {
        lemma_unseen(a, b, n - 1);
        assert(a.contains((n - 1) as usize) ==> b.contains((n - 1) as usize));
    }
}

/// Visit the nodes of `todo` one after the other, each with all that it leads to
/// before it, and skip what was seen. `seen` are the nodes that were entered and
/// `order` those that were left, in the order of leaving; both are returned as they
/// stand at the end.
pub open spec fn dfs(g: Edges, todo: Seq<usize>, seen: Set<usize>, order: Seq<usize>) -> (
    Set<usize>,
    Seq<usize>,
)
    decreases unseen(seen, g.len() as int), todo.len(),
{
    if todo.len() == 0 || g.len() > usize::MAX {
        (seen, order)
    } else {
        let v = todo[0];
        let rest = todo.drop_first();
        if v >= g.len() || seen.contains(v) {
            dfs(g, rest, seen, order)
        } else {
            let entered = seen.insert(v);
            proof {
                lemma_unseen(seen, entered, g.len() as int);
                assert(entered.contains(v));
            }
            let (s, o) = dfs(g, g[v as int], entered, order);
            let left = entered.union(s);
            proof {
                lemma_unseen(seen, left, g.len() as int);
                assert(left.contains(v));
            }
            dfs(g, rest, left, o.push(v))
        }
    }
}

/// The nodes that can be reached from the roots, in depth-first post-order.
pub open spec fn post_order(g: Edges, roots: Seq<usize>) -> Seq<usize> {
    dfs(g, roots, Set::empty(), Seq::empty()).1
}

/// Each node of the path but the first is a successor of the one before it.
pub open spec fn is_path(g: Edges, p: Seq<usize>) -> bool {
    &&& p.len() > 0
    &&& forall|k: int| 0 <= k < p.len() ==> #[trigger] p[k] < g.len()
    &&& forall|k: int| 0 <= k < p.len() - 1 ==> #[trigger] edge(g, p[k], p[k + 1])
}

pub open spec fn edge(g: Edges, a: usize, b: usize) -> bool {
    a < g.len() && g[a as int].contains(b)
}

/// Whether a path leads from `a` to `b`.
pub open spec fn reaches(g: Edges, a: usize, b: usize) -> bool {
    exists|p: Seq<usize>| #[trigger] is_path(g, p) && p[0] == a && p.last() == b
}

/// Every node reaches itself.
pub proof fn lemma_reaches_self(g: Edges, a: usize)
    requires
        a < g.len(),
    ensures
        reaches(g, a, a),
{
    assert(is_path(g, seq![a]));
}

/// A path leads from a node to a node.
pub proof fn lemma_reaches_nodes(g: Edges, a: usize, b: usize)
    requires
        reaches(g, a, b),
    ensures
        a < g.len(),
        b < g.len(),
{
    let p = choose|p: Seq<usize>| #[trigger] is_path(g, p) && p[0] == a && p.last() == b;
    assert(p[0] < g.len());
    assert(p[p.len() - 1] < g.len());
}

pub proof fn lemma_reaches_on(g: Edges, a: usize, b: usize, c: usize)
    requires
        edges_ok(g),
        reaches(g, a, b),
        edge(g, b, c),
    ensures
        reaches(g, a, c),
{
    let p = choose|p: Seq<usize>| #[trigger] is_path(g, p) && p[0] == a && p.last() == b;
    let q = p.push(c);
    let k = choose|k: int| 0 <= k < g[b as int].len() && g[b as int][k] == c;
    assert(g[b as int][k] < g.len());
    assert forall|k: int| 0 <= k < q.len() - 1 implies #[trigger] edge(g, q[k], q[k + 1]) by {
        if k < p.len() - 1 {
            assert(edge(g, p[k], p[k + 1]));
        }
    }
    assert(is_path(g, q));
}

pub proof fn lemma_reaches_before(g: Edges, a: usize, b: usize, c: usize)
    requires
        edge(g, a, b),
        reaches(g, b, c),
    ensures
        reaches(g, a, c),
{
    let p = choose|p: Seq<usize>| #[trigger] is_path(g, p) && p[0] == b && p.last() == c;
    let q = seq![a] + p;
    assert forall|k: int| 0 <= k < q.len() - 1 implies #[trigger] edge(g, q[k], q[k + 1]) by {
        if k > 0 {
            assert(edge(g, p[k - 1], p[k - 1 + 1]));
            assert(q[k] == p[k - 1]);
            assert(q[k + 1] == p[k]);
        }
    }
    assert(is_path(g, q));
    assert(q.last() == c);
}

/// `v` stands before position `k`, or leads to the node at `k`.
pub open spec fn settled(g: Edges, order: Seq<usize>, k: int, v: usize) -> bool {
    (exists|j: int| 0 <= j < k && #[trigger] order[j] == v) || reaches(g, v, order[k])
}

/// Entered and not left.
spec fn open_node(seen: Set<usize>, order: Seq<usize>, x: usize) -> bool {
    seen.contains(x) && !order.contains(x)
}

/// What holds whenever nodes are visited.
spec fn dfs_inv(g: Edges, seen: Set<usize>, order: Seq<usize>) -> bool {
    &&& forall|x: usize| seen.contains(x) ==> x < g.len()
    &&& forall|k: int| 0 <= k < order.len() ==> seen.contains(#[trigger] order[k])
    &&& order.no_duplicates()
    &&& forall|k: int, v: usize|
        0 <= k < order.len() && #[trigger] edge(g, order[k], v) ==> seen.contains(v) && settled(
            g,
            order,
            k,
            v,
        )
}

/// What a visit does.
spec fn dfs_post(
    g: Edges,
    todo: Seq<usize>,
    seen: Set<usize>,
    order: Seq<usize>,
    s: Set<usize>,
    o: Seq<usize>,
) -> bool {
    &&& dfs_inv(g, s, o)
    &&& seen.subset_of(s)
    &&& order.is_prefix_of(o)
    &&& forall|x: usize| #[trigger] open_node(s, o, x) <==> open_node(seen, order, x)
    &&& forall|k: int| 0 <= k < todo.len() ==> s.contains(#[trigger] todo[k])
    &&& forall|i: int|
        order.len() <= i < o.len() ==> exists|k: int|
            0 <= k < todo.len() && reaches(g, #[trigger] todo[k], #[trigger] o[i])
}

proof fn lemma_dfs(g: Edges, todo: Seq<usize>, seen: Set<usize>, order: Seq<usize>)
    requires
        g.len() <= usize::MAX,
        edges_ok(g),
        dfs_inv(g, seen, order),
        forall|k: int| 0 <= k < todo.len() ==> #[trigger] todo[k] < g.len(),
        forall|x: usize, k: int|
            open_node(seen, order, x) && 0 <= k < todo.len() ==> #[trigger] reaches(g, x, todo[k]),
    ensures
        ({
            let (s, o) = dfs(g, todo, seen, order);
            dfs_post(g, todo, seen, order, s, o)
        }),
    decreases unseen(seen, g.len() as int), todo.len(), 1int,
{
    if todo.len() > 0 {
        let v = todo[0];
        let rest = todo.drop_first();
        assert forall|k: int| 0 <= k < rest.len() implies #[trigger] rest[k] == todo[k + 1] by {}
        if seen.contains(v) {
            assert forall|x: usize, k: int| open_node(seen, order, x) && 0 <= k
                < rest.len() implies #[trigger] reaches(g, x, rest[k]) by {
                assert(reaches(g, x, todo[k + 1]));
            }
            lemma_dfs(g, rest, seen, order);
            let (s, o) = dfs(g, todo, seen, order);
            assert forall|k: int| 0 <= k < todo.len() implies s.contains(#[trigger] todo[k]) by {
                if k > 0 {
                    assert(s.contains(rest[k - 1]));
                }
            }
            assert forall|i: int| order.len() <= i < o.len() implies exists|k: int|
                0 <= k < todo.len() && reaches(g, #[trigger] todo[k], #[trigger] o[i]) by {
                let k = choose|k: int|
                    0 <= k < rest.len() && reaches(g, #[trigger] rest[k], #[trigger] o[i]);
                assert(reaches(g, todo[k + 1], o[i]));
            }
        } else {
            lemma_dfs_enter(g, todo, seen, order);
        }
    }
}

proof fn lemma_dfs_enter(g: Edges, todo: Seq<usize>, seen: Set<usize>, order: Seq<usize>)
    requires
        g.len() <= usize::MAX,
        edges_ok(g),
        dfs_inv(g, seen, order),
        todo.len() > 0,
        !seen.contains(todo[0]),
        forall|k: int| 0 <= k < todo.len() ==> #[trigger] todo[k] < g.len(),
        forall|x: usize, k: int|
            open_node(seen, order, x) && 0 <= k < todo.len() ==> #[trigger] reaches(g, x, todo[k]),
    ensures
        ({
            let (s, o) = dfs(g, todo, seen, order);
            dfs_post(g, todo, seen, order, s, o)
        }),
    decreases unseen(seen, g.len() as int), todo.len(), 0int,
{
    let n = g.len() as int;
    let v = todo[0];
    let rest = todo.drop_first();
    let next = g[v as int];
    assert forall|k: int| 0 <= k < rest.len() implies #[trigger] rest[k] == todo[k + 1] by {}
    let entered = seen.insert(v);
    lemma_unseen(seen, entered, n);
    assert(entered.contains(v));
    assert(dfs_inv(g, entered, order));
    assert(!order.contains(v)) by {
        if order.contains(v) {
            let k = choose|k: int| 0 <= k < order.len() && order[k] == v;
            assert(seen.contains(order[k]));
        }
    }
    // All that is open leads to v, and so to what follows v.
    assert forall|x: usize, k: int| open_node(entered, order, x) && 0 <= k
        < next.len() implies #[trigger] reaches(g, x, next[k]) by {
        assert(edge(g, v, next[k]));
        if x == v {
            lemma_reaches_self(g, v);
        } else {
            assert(open_node(seen, order, x));
            assert(reaches(g, x, todo[0]));
        }
        lemma_reaches_on(g, x, v, next[k]);
    }
    lemma_dfs(g, next, entered, order);
    let (s1, o1) = dfs(g, next, entered, order);
    let left = entered.union(s1);
    assert(left =~= s1);
    lemma_unseen(seen, left, n);
    assert(left.contains(v));
    let o2 = o1.push(v);
    assert(open_node(entered, order, v));
    assert(open_node(s1, o1, v));
    assert(dfs_inv(g, left, o2)) by {
        assert forall|k: int, w: usize| 0 <= k < o2.len() && #[trigger] edge(
            g,
            o2[k],
            w,
        ) implies left.contains(w) && settled(g, o2, k, w) by {
            if k < o1.len() {
                assert(edge(g, o1[k], w));
                assert(settled(g, o1, k, w));
                if exists|j: int| 0 <= j < k && #[trigger] o1[j] == w {
                    let j = choose|j: int| 0 <= j < k && #[trigger] o1[j] == w;
                    assert(o2[j] == w);
                }
            } else {
                let i = choose|i: int| 0 <= i < next.len() && next[i] == w;
                assert(s1.contains(next[i]));
                if o1.contains(w) {
                    let j = choose|j: int| 0 <= j < o1.len() && o1[j] == w;
                    assert(o2[j] == w);
                } else {
                    assert(open_node(s1, o1, w));
                    assert(open_node(entered, order, w));
                    if w == v {
                        lemma_reaches_self(g, v);
                    } else {
                        assert(open_node(seen, order, w));
                        assert(reaches(g, w, todo[0]));
                    }
                }
            }
        }
    }
    // v is left, so what was open before is open again.
    assert forall|x: usize| #[trigger] open_node(left, o2, x) <==> open_node(seen, order, x) by {
        assert(open_node(s1, o1, x) <==> open_node(entered, order, x));
        assert(o2.contains(x) <==> (o1.contains(x) || x == v)) by {
            if o1.contains(x) {
                let j = choose|j: int| 0 <= j < o1.len() && o1[j] == x;
                assert(o2[j] == x);
            }
            assert(o2[o1.len() as int] == v);
        }
        if open_node(left, o2, x) {
            assert(open_node(s1, o1, x));
        }
    }
    assert forall|x: usize, k: int| open_node(left, o2, x) && 0 <= k
        < rest.len() implies #[trigger] reaches(g, x, rest[k]) by {
        assert(open_node(seen, order, x));
        assert(reaches(g, x, todo[k + 1]));
    }
    lemma_dfs(g, rest, left, o2);
    let (s, o) = dfs(g, todo, seen, order);
    assert((s, o) == dfs(g, rest, left, o2));
    assert forall|x: usize| #[trigger] open_node(s, o, x) <==> open_node(seen, order, x) by {
        assert(open_node(s, o, x) <==> open_node(left, o2, x));
    }
    assert forall|k: int| 0 <= k < todo.len() implies s.contains(#[trigger] todo[k]) by {
        if k > 0 {
            assert(s.contains(rest[k - 1]));
        } else {
            assert(left.contains(v));
        }
    }
    assert forall|i: int| order.len() <= i < o.len() implies exists|k: int|
        0 <= k < todo.len() && reaches(g, #[trigger] todo[k], #[trigger] o[i]) by {
        if i < o1.len() {
            assert(o[i] == o2[i]);
            assert(o2[i] == o1[i]);
            let k = choose|k: int|
                0 <= k < next.len() && reaches(g, #[trigger] next[k], #[trigger] o1[i]);
            assert(edge(g, v, next[k]));
            lemma_reaches_before(g, v, next[k], o1[i]);
            assert(reaches(g, todo[0], o[i]));
        } else if i == o1.len() {
            assert(o[i] == o2[i]);
            lemma_reaches_self(g, v);
            assert(reaches(g, todo[0], o[i]));
        } else {
            let k = choose|k: int|
                0 <= k < rest.len() && reaches(g, #[trigger] rest[k], #[trigger] o[i]);
            assert(reaches(g, todo[k + 1], o[i]));
        }
    }
}

/// The roots are nodes.
pub open spec fn roots_ok(g: Edges, roots: Seq<usize>) -> bool {
    forall|k: int| 0 <= k < roots.len() ==> #[trigger] roots[k] < g.len()
}

proof fn lemma_post_order(g: Edges, roots: Seq<usize>)
    requires
        g.len() <= usize::MAX,
        edges_ok(g),
        roots_ok(g, roots),
    ensures
        ({
            let (s, o) = dfs(g, roots, Set::empty(), Seq::empty());
            &&& dfs_post(g, roots, Set::empty(), Seq::empty(), s, o)
            &&& forall|x: usize| #[trigger] s.contains(x) <==> o.contains(x)
        }),
{
    let none = Set::<usize>::empty();
    let nil = Seq::<usize>::empty();
    assert(dfs_inv(g, none, nil));
    lemma_dfs(g, roots, none, nil);
    let (s, o) = dfs(g, roots, none, nil);
    assert forall|x: usize| #[trigger] s.contains(x) <==> o.contains(x) by {
        assert(!open_node(none, nil, x));
        assert(!open_node(s, o, x));
        if o.contains(x) {
            let k = choose|k: int| 0 <= k < o.len() && o[k] == x;
            assert(s.contains(o[k]));
        }
    }
}

/// Law: no node occurs twice in the order.
pub proof fn law_no_node_twice(g: Edges, roots: Seq<usize>)
    requires
        g.len() <= usize::MAX,
        edges_ok(g),
        roots_ok(g, roots),
    ensures
        post_order(g, roots).no_duplicates(),
{
    lemma_post_order(g, roots);
}

/// Law: the order holds exactly the nodes that a path leads to from some root.
#[verifier::rlimit(40)]
pub proof fn law_exactly_the_reachable(g: Edges, roots: Seq<usize>, x: usize)
    requires
        g.len() <= usize::MAX,
        edges_ok(g),
        roots_ok(g, roots),
    ensures
        post_order(g, roots).contains(x) <==> exists|k: int|
            0 <= k < roots.len() && reaches(g, #[trigger] roots[k], x),
{
    lemma_post_order(g, roots);
    let (s, o) = dfs(g, roots, Set::empty(), Seq::empty());
    if o.contains(x) {
        let i = choose|i: int| 0 <= i < o.len() && o[i] == x;
        let k = choose|k: int|
            0 <= k < roots.len() && reaches(g, #[trigger] roots[k], #[trigger] o[i]);
        assert(reaches(g, roots[k], x));
    } else {
        assert forall|k: int| 0 <= k < roots.len() implies !reaches(
            g,
            #[trigger] roots[k],
            x,
        ) by {
            if reaches(g, roots[k], x) {
                lemma_reached_inside(g, s, o, roots[k], x);
            }
        }
    }
}

/// What can be reached from a node that was visited was visited.
proof fn lemma_reached_inside(g: Edges, s: Set<usize>, o: Seq<usize>, a: usize, x: usize)
    requires
        dfs_inv(g, s, o),
        forall|x: usize| #[trigger] s.contains(x) <==> o.contains(x),
        s.contains(a),
        reaches(g, a, x),
    ensures
        o.contains(x),
{
    let p = choose|p: Seq<usize>| #[trigger] is_path(g, p) && p[0] == a && p.last() == x;
    lemma_path_inside(g, s, o, p, p.len() - 1);
}

/// A path from a node that was visited stays among the nodes that were visited.
proof fn lemma_path_inside(g: Edges, s: Set<usize>, o: Seq<usize>, p: Seq<usize>, k: int)
    requires
        dfs_inv(g, s, o),
        forall|x: usize| #[trigger] s.contains(x) <==> o.contains(x),
        is_path(g, p),
        s.contains(p[0]),
        0 <= k < p.len(),
    ensures
        s.contains(p[k]),
    decreases k,
{
    if k > 0 {
        lemma_path_inside(g, s, o, p, k - 1);
        assert(edge(g, p[k - 1], p[k - 1 + 1]));
        assert(o.contains(p[k - 1]));
        let i = choose|i: int| 0 <= i < o.len() && o[i] == p[k - 1];
        assert(edge(g, o[i], p[k]));
    }
}

/// Law: a node comes after each of its successors, unless the successor leads back
/// to the node.
pub proof fn law_successors_first(g: Edges, roots: Seq<usize>, k: int, v: usize)
    requires
        g.len() <= usize::MAX,
        edges_ok(g),
        roots_ok(g, roots),
        0 <= k < post_order(g, roots).len(),
        edge(g, post_order(g, roots)[k], v),
        !reaches(g, v, post_order(g, roots)[k]),
    ensures
        exists|j: int| 0 <= j < k && #[trigger] post_order(g, roots)[j] == v,
{
    lemma_post_order(g, roots);
    assert(settled(g, post_order(g, roots), k, v));
}

/// A visit only appends to the order.
proof fn lemma_dfs_appends(g: Edges, todo: Seq<usize>, seen: Set<usize>, order: Seq<usize>)
    ensures
        order.is_prefix_of(dfs(g, todo, seen, order).1),
    decreases unseen(seen, g.len() as int), todo.len(),
{
    if todo.len() > 0 && g.len() <= usize::MAX {
        let v = todo[0];
        let rest = todo.drop_first();
        if v >= g.len() || seen.contains(v) {
            lemma_dfs_appends(g, rest, seen, order);
        } else {
            let entered = seen.insert(v);
            lemma_unseen(seen, entered, g.len() as int);
            assert(entered.contains(v));
            let (s, o) = dfs(g, g[v as int], entered, order);
            lemma_dfs_appends(g, g[v as int], entered, order);
            let left = entered.union(s);
            lemma_unseen(seen, left, g.len() as int);
            assert(left.contains(v));
            lemma_dfs_appends(g, rest, left, o.push(v));
            let end = dfs(g, rest, left, o.push(v)).1;
            assert(order.is_prefix_of(end)) by {
                assert forall|i: int| 0 <= i < order.len() implies order[i] == end[i] by {
                    assert(o[i] == order[i]);
                    assert(o.push(v)[i] == end[i]);
                }
                assert(end.subrange(0, order.len() as int) =~= order);
            }
        }
    }
}

/// Visiting two lists is visiting one after the other.
proof fn lemma_dfs_split(
    g: Edges,
    a: Seq<usize>,
    b: Seq<usize>,
    seen: Set<usize>,
    order: Seq<usize>,
)
    ensures
        ({
            let (s, o) = dfs(g, a, seen, order);
            dfs(g, a + b, seen, order) == dfs(g, b, s, o)
        }),
    decreases unseen(seen, g.len() as int), a.len(),
{
    if a.len() == 0 {
        assert(a + b =~= b);
    } else if g.len() <= usize::MAX {
        let v = a[0];
        assert((a + b)[0] == v);
        assert((a + b).drop_first() =~= a.drop_first() + b);
        if v >= g.len() || seen.contains(v) {
            lemma_dfs_split(g, a.drop_first(), b, seen, order);
        } else {
            let entered = seen.insert(v);
            lemma_unseen(seen, entered, g.len() as int);
            assert(entered.contains(v));
            let (s, o) = dfs(g, g[v as int], entered, order);
            let left = entered.union(s);
            lemma_unseen(seen, left, g.len() as int);
            assert(left.contains(v));
            lemma_dfs_split(g, a.drop_first(), b, left, o.push(v));
        }
    }
}

/// Law: what the first roots lead to comes first, in the order that those roots alone
/// give.
pub proof fn law_earlier_roots_first(g: Edges, roots: Seq<usize>, n: int)
    requires
        0 <= n <= roots.len(),
    ensures
        post_order(g, roots.take(n)).is_prefix_of(post_order(g, roots)),
{
    let (s, o) = dfs(g, roots.take(n), Set::empty(), Seq::empty());
    assert(roots.take(n) + roots.skip(n) =~= roots);
    lemma_dfs_split(g, roots.take(n), roots.skip(n), Set::empty(), Seq::empty());
    lemma_dfs_appends(g, roots.skip(n), s, o);
}

/// Law: the successors of a root come in the order in which they are listed, unless
/// an earlier one leads to a later one; and the root comes last.
pub proof fn law_successors_in_order(g: Edges, v: usize, i: int, j: int)
    requires
        g.len() <= usize::MAX,
        edges_ok(g),
        v < g.len(),
        0 <= i < j < g[v as int].len(),
        g[v as int][i] != v,
        g[v as int][j] != v,
        forall|k: int| 0 <= k <= i ==> !reaches(g, #[trigger] g[v as int][k], g[v as int][j]),
    ensures
        ({
            let o = post_order(g, seq![v]);
            &&& o.len() > 0 && o.last() == v
            &&& exists|x: int, y: int|
                0 <= x < y < o.len() && #[trigger] o[x] == g[v as int][i] && #[trigger] o[y]
                    == g[v as int][j]
        }),
{
    let none = Set::<usize>::empty();
    let nil = Seq::<usize>::empty();
    let next = g[v as int];
    let entered = none.insert(v);
    let roots = seq![v];
    assert(roots.drop_first() =~= nil);
    let (s1, o1) = dfs(g, next, entered, nil);
    let o = post_order(g, roots);
    lemma_unseen(none, entered, g.len() as int);
    assert(dfs(g, roots, none, nil) == dfs(g, nil, entered.union(s1), o1.push(v)));
    assert(o == o1.push(v));
    let first = next.take(i + 1);
    let (s2, o2) = dfs(g, first, entered, nil);
    assert(first + next.skip(i + 1) =~= next);
    lemma_dfs_split(g, first, next.skip(i + 1), entered, nil);
    lemma_dfs_appends(g, next.skip(i + 1), s2, o2);
    assert(dfs_inv(g, entered, nil));
    assert forall|x: usize, k: int| open_node(entered, nil, x) && 0 <= k
        < next.len() implies #[trigger] reaches(g, x, next[k]) by {
        assert(edge(g, v, next[k]));
        lemma_reaches_self(g, v);
        lemma_reaches_on(g, v, v, next[k]);
    }
    assert forall|k: int| 0 <= k < next.len() implies #[trigger] next[k] < g.len() by {
        assert(g[v as int][k] < g.len());
    }
    assert forall|x: usize, k: int| open_node(entered, nil, x) && 0 <= k
        < first.len() implies #[trigger] reaches(g, x, first[k]) by {
        assert(reaches(g, x, next[k]));
    }
    assert forall|k: int| 0 <= k < first.len() implies #[trigger] first[k] < g.len() by {
        assert(next[k] < g.len());
    }
    lemma_dfs(g, next, entered, nil);
    lemma_dfs(g, first, entered, nil);
    assert(first[i] == next[i]);
    assert(s2.contains(first[i]));
    assert(!open_node(entered, nil, next[i]));
    assert(!open_node(s2, o2, next[i]));
    assert(o2.contains(next[i]));
    let x = choose|x: int| 0 <= x < o2.len() && o2[x] == next[i];
    assert(s1.contains(next[j]));
    assert(!open_node(entered, nil, next[j]));
    assert(!open_node(s1, o1, next[j]));
    assert(o1.contains(next[j]));
    let y = choose|y: int| 0 <= y < o1.len() && o1[y] == next[j];
    if y < o2.len() {
        assert(o2[y] == o1[y]);
        let k = choose|k: int|
            0 <= k < first.len() && reaches(g, #[trigger] first[k], #[trigger] o2[y]);
        assert(first[k] == g[v as int][k]);
    }
    assert(o1[x] == o2[x]);
    assert(o[x] == next[i] && o[y] == next[j]);
}

proof fn lemma_dfs_grows(g: Edges, todo: Seq<usize>, seen: Set<usize>, order: Seq<usize>)
    ensures
        seen.subset_of(dfs(g, todo, seen, order).0),
    decreases unseen(seen, g.len() as int), todo.len(),
{
    if todo.len() > 0 && g.len() <= usize::MAX {
        let v = todo[0];
        let rest = todo.drop_first();
        if v >= g.len() || seen.contains(v) {
            lemma_dfs_grows(g, rest, seen, order);
        } else {
            let entered = seen.insert(v);
            lemma_unseen(seen, entered, g.len() as int);
            assert(entered.contains(v));
            let (s, o) = dfs(g, g[v as int], entered, order);
            let left = entered.union(s);
            lemma_unseen(seen, left, g.len() as int);
            assert(left.contains(v));
            lemma_dfs_grows(g, rest, left, o.push(v));
        }
    }
}

/// What entering an unseen node does.
proof fn lemma_dfs_step(g: Edges, todo: Seq<usize>, seen: Set<usize>, order: Seq<usize>)
    requires
        todo.len() > 0,
        g.len() <= usize::MAX,
        todo[0] < g.len(),
        !seen.contains(todo[0]),
    ensures
        ({
            let v = todo[0];
            let (s, o) = dfs(g, g[v as int], seen.insert(v), order);
            dfs(g, todo, seen, order) == dfs(g, todo.drop_first(), s, o.push(v))
        }),
{
    let v = todo[0];
    let entered = seen.insert(v);
    let (s, o) = dfs(g, g[v as int], entered, order);
    lemma_dfs_grows(g, g[v as int], entered, order);
    assert(entered.union(s) =~= s);
}

/// What is left to do: finish the nodes on the stack, the innermost first. Each has
/// the position of the successor that it visits next.
spec fn resume(g: Edges, stack: Seq<(usize, usize)>, seen: Set<usize>, order: Seq<usize>) -> (
    Set<usize>,
    Seq<usize>,
)
    decreases stack.len(),
{
    if stack.len() == 0 {
        (seen, order)
    } else {
        let (u, next) = stack.last();
        let (s, o) = dfs(g, g[u as int].skip(next as int), seen, order);
        resume(g, stack.drop_last(), s, o.push(u))
    }
}

/// How many steps the nodes on the stack still take by themselves.
spec fn steps_left(g: Edges, stack: Seq<(usize, usize)>) -> int
    decreases stack.len(),
{
    if stack.len() == 0 {
        0
    } else {
        let (u, next) = stack.last();
        g[u as int].len() - next + 1 + steps_left(g, stack.drop_last())
    }
}

spec fn stack_ok(g: Edges, stack: Seq<(usize, usize)>) -> bool {
    forall|k: int|
        0 <= k < stack.len() ==> (#[trigger] stack[k]).0 < g.len() && stack[k].1
            <= g[stack[k].0 as int].len()
}

proof fn lemma_steps_left(g: Edges, stack: Seq<(usize, usize)>)
    requires
        stack_ok(g, stack),
    ensures
        steps_left(g, stack) >= 0,
        stack.len() > 0 ==> steps_left(g, stack.drop_last()) >= 0,
    decreases stack.len(),
{
    if stack.len() > 0 {
        let rest = stack.drop_last();
        assert(stack_ok(g, rest)) by {
            assert forall|k: int| 0 <= k < rest.len() implies (#[trigger] rest[k]).0 < g.len()
                && rest[k].1 <= g[rest[k].0 as int].len() by {
                assert(rest[k] == stack[k]);
            }
        }
        lemma_steps_left(g, rest);
        assert(stack[stack.len() - 1].1 <= g[stack.last().0 as int].len());
    }
}

/// The edges that a list of lists holds.
pub open spec fn edges_of(g: Seq<Vec<usize>>) -> Edges {
    g.map_values(|v: Vec<usize>| v@)
}

/// The nodes of which `state` says that they were entered.
spec fn entered_set(state: Seq<u8>) -> Set<usize> {
    Set::new(|v: usize| v < state.len() && state[v as int] != 0)
}

/// The nodes that can be reached from the roots, in depth-first post-order: each
/// node comes after all that it leads to, but for edges that close a cycle.
pub fn depth_first(succ: &Vec<Vec<usize>>, roots: &Vec<usize>) -> (order: Vec<usize>)
    requires
        edges_ok(edges_of(succ@)),
        roots_ok(edges_of(succ@), roots@),
    ensures
        order@ == post_order(edges_of(succ@), roots@),
{
    let ghost g = edges_of(succ@);
    let n: usize = succ.len();
    let mut order: Vec<usize> = Vec::new();
    // 0 not entered, 1 on the stack, 2 left
    let mut state: Vec<u8> = Vec::new();
    let mut i: usize = 0;
    while i < n
        invariant
            i <= n,
            state@.len() == i,
            forall|k: int| 0 <= k < i ==> state@[k] == 0,
        decreases n - i,
    {
        state.push(0);
        i = i + 1;
    }
    let ghost all = dfs(g, roots@, Set::empty(), Seq::empty());
    assert(entered_set(state@) =~= Set::<usize>::empty());
    assert(roots@.skip(0) =~= roots@);
    let m: usize = roots.len();
    let mut r: usize = 0;
    while r < m
        invariant
            m == roots@.len(),
            r <= m,
            n == succ@.len(),
            g == edges_of(succ@),
            edges_ok(g),
            roots_ok(g, roots@),
            state@.len() == n,
            all == dfs(g, roots@.skip(r as int), entered_set(state@), order@),
        decreases m - r,
    {
        let root: usize = roots[r];
        let ghost todo = roots@.skip(r as int);
        let ghost after = roots@.skip(r + 1);
        assert(todo[0] == root);
        assert(todo.drop_first() =~= after);
        if state[root] == 0 {
            let mut stack: Vec<(usize, usize)> = Vec::new();
            stack.push((root, 0));
            let ghost seen0 = entered_set(state@);
            proof {
                lemma_dfs_step(g, todo, seen0, order@);
            }
            state.set(root, 1);
            proof {
                assert(entered_set(state@) =~= seen0.insert(root));
                assert(g[root as int].skip(0) =~= g[root as int]);
                assert(stack@.drop_last() =~= Seq::<(usize, usize)>::empty());
                let (s, o) = dfs(g, g[root as int], seen0.insert(root), order@);
                assert(resume(g, stack@.drop_last(), s, o.push(root)) == (s, o.push(root)));
            }
            while stack.len() > 0
                invariant
                    n == succ@.len(),
                    g == edges_of(succ@),
                    edges_ok(g),
                    state@.len() == n,
                    stack_ok(g, stack@),
                    forall|k: int| 0 <= k < stack@.len() ==> state@[(#[trigger] stack@[k]).0 as int] != 0,
                    ({
                        let (s, o) = resume(g, stack@, entered_set(state@), order@);
                        all == dfs(g, after, s, o)
                    }),
                decreases unseen(entered_set(state@), n as int), steps_left(g, stack@),
            {
                let top: usize = stack.len() - 1;
                let u: usize = stack[top].0;
                let next: usize = stack[top].1;
                let ghost stack0 = stack@;
                let ghost below = stack@.drop_last();
                let ghost seen = entered_set(state@);
                let ghost todo = g[u as int].skip(next as int);
                assert(state@[stack0[top as int].0 as int] != 0);
                assert(stack_ok(g, below)) by {
                    assert forall|k: int| 0 <= k < below.len() implies (#[trigger] below[k]).0
                        < g.len() && below[k].1 <= g[below[k].0 as int].len() by {
                        assert(below[k] == stack0[k]);
                    }
                }
                proof {
                    lemma_steps_left(g, stack0);
                }
                if next < succ[u].len() {
                    let v: usize = succ[u][next];
                    stack.set(top, (u, next + 1));
                    let ghost stack1 = stack@;
                    proof {
                        assert(g[u as int][next as int] == v);
                        assert(todo[0] == v);
                        assert(todo.drop_first() =~= g[u as int].skip(next + 1));
                        assert(stack1.drop_last() =~= below);
                        assert forall|k: int| 0 <= k < stack1.len() implies (
                        #[trigger] stack1[k]).0 < g.len() && stack1[k].1
                            <= g[stack1[k].0 as int].len() by {
                            if k < top {
                                assert(stack1[k] == below[k]);
                            }
                        }
                    }
                    if state[v] == 0 {
                        proof {
                            lemma_dfs_step(g, todo, seen, order@);
                        }
                        state.set(v, 1);
                        stack.push((v, 0));
                        proof {
                            assert(entered_set(state@) =~= seen.insert(v));
                            lemma_unseen(seen, seen.insert(v), n as int);
                            assert(seen.insert(v).contains(v));
                            assert(stack@.drop_last() =~= stack1);
                            assert(g[v as int].skip(0) =~= g[v as int]);
                            let (s1, o1) = dfs(g, g[v as int], seen.insert(v), order@);
                            assert(resume(g, stack@, seen.insert(v), order@) == resume(
                                g,
                                stack1,
                                s1,
                                o1.push(v),
                            ));
                            let (s2, o2) = dfs(g, todo.drop_first(), s1, o1.push(v));
                            assert(resume(g, stack1, s1, o1.push(v)) == resume(
                                g,
                                below,
                                s2,
                                o2.push(u),
                            ));
                        }
                    }
                } else {
                    state.set(u, 2);
                    order.push(u);
                    stack.pop();
                    proof {
                        assert(stack@ =~= below);
                        assert(todo =~= Seq::<usize>::empty());
                        assert(state@[stack0[top as int].0 as int] != 0);
                        assert(entered_set(state@) =~= seen);
                    }
                }
            }
        }
        r = r + 1;
    }
    assert(roots@.skip(m as int) =~= Seq::<usize>::empty());
    order
}

} // verus!
