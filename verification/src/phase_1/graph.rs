//! The computation graph behind back-propagation, as plain indices.
//!
//! Node `v` of a graph stands for one value; `parents[v]` lists the nodes that
//! `v` was computed from. A backward pass visits every node reachable from the
//! output exactly once, each node before the nodes it was computed from, so that
//! a node's gradient is complete before it is passed on to its parents.

use vstd::prelude::*;

verus! {

/// The graph that a list of parent lists describes: `graph_of(parents)[v]` are the
/// parents of node `v`.
pub open spec fn graph_of(parents: &Vec<Vec<usize>>) -> Seq<Seq<usize>> {
    parents@.map_values(|ps: Vec<usize>| ps@)
}

/// Every parent named in `g` is a node of `g`.
pub open spec fn well_formed(g: Seq<Seq<usize>>) -> bool {
    forall|v: int, k: int| 0 <= v < g.len() && 0 <= k < g[v].len() ==> #[trigger] g[v][k] < g.len()
}

/// `path` walks from `path[0]` to `path.last()`, each step from a node to one of its parents.
pub open spec fn is_path(g: Seq<Seq<usize>>, path: Seq<usize>) -> bool {
    &&& path.len() >= 1
    &&& forall|i: int| 0 <= i < path.len() ==> #[trigger] path[i] < g.len()
    &&& forall|i: int| 0 <= i < path.len() - 1 ==> g[#[trigger] path[i] as int].contains(path[i + 1])
}

/// Node `x` is `root` or one of the nodes that `root` was (directly or indirectly) computed from.
pub open spec fn reachable(g: Seq<Seq<usize>>, root: usize, x: usize) -> bool {
    exists|path: Seq<usize>| #[trigger] is_path(g, path) && path[0] == root && path.last() == x
}

/// `depth` ranks every node strictly above each of its parents.
pub open spec fn ranked_by(g: Seq<Seq<usize>>, depth: spec_fn(usize) -> nat) -> bool {
    forall|v: int, k: int|
        0 <= v < g.len() && 0 <= k < g[v].len() ==> depth(#[trigger] g[v][k]) < depth(v as usize)
}

/// No node is computed, directly or indirectly, from itself: the nodes can be ranked so
/// that every node ranks above its parents.
pub open spec fn is_acyclic(g: Seq<Seq<usize>>) -> bool {
    exists|depth: spec_fn(usize) -> nat| ranked_by(g, depth)
}

/// No node occurs twice in `s`.
pub open spec fn no_duplicates(s: Seq<usize>) -> bool {
    forall|i: int, j: int| 0 <= i < j < s.len() ==> s[i] != s[j]
}

/// Every parent of a node of `order` occurs in `order` before that node.
pub open spec fn parents_first(g: Seq<Seq<usize>>, order: Seq<usize>) -> bool {
    forall|j: int, k: int|
        0 <= j < order.len() && 0 <= k < g[order[j] as int].len() ==> #[trigger] order.take(j).contains(
            g[order[j] as int][k],
        )
}

/// Every parent of a node of `order` occurs in `order` after that node.
pub open spec fn children_first(g: Seq<Seq<usize>>, order: Seq<usize>) -> bool {
    forall|j: int, k: int|
        0 <= j < order.len() && 0 <= k < g[order[j] as int].len() ==> #[trigger] order.skip(j + 1).contains(
            g[order[j] as int][k],
        )
}

/// Depth-first search from `v`, given the nodes already `visited` and the finish order
/// `topo` so far: a node not yet visited is marked, its parents are searched in the order
/// in which `g` lists them, and then the node is appended to `topo`. `fuel` bounds the
/// depth of the search; with more fuel than unvisited nodes it never runs out.
pub open spec fn dfs_visit(
    g: Seq<Seq<usize>>,
    v: usize,
    visited: Seq<bool>,
    topo: Seq<usize>,
    fuel: nat,
) -> (Seq<bool>, Seq<usize>)
    decreases fuel, 0nat, 0nat,
{
    if fuel == 0 || v >= visited.len() || visited[v as int] {
        (visited, topo)
    } else {
        let (vis, t) = dfs_parents(g, v, 0, visited.update(v as int, true), topo, (fuel - 1) as nat);
        (vis, t.push(v))
    }
}

/// The searches from the parents of `v` from the `k`-th on, one after another.
pub open spec fn dfs_parents(
    g: Seq<Seq<usize>>,
    v: usize,
    k: nat,
    visited: Seq<bool>,
    topo: Seq<usize>,
    fuel: nat,
) -> (Seq<bool>, Seq<usize>)
    decreases fuel, 1nat, g[v as int].len() - k,
{
    if v >= g.len() || k >= g[v as int].len() {
        (visited, topo)
    } else {
        let (vis, t) = dfs_visit(g, g[v as int][k as int], visited, topo, fuel);
        dfs_parents(g, v, k + 1, vis, t, fuel)
    }
}

/// The order in which a depth-first search from `root`, over an unvisited graph, finishes
/// the nodes.
pub open spec fn dfs_finish_order(g: Seq<Seq<usize>>, root: usize) -> Seq<usize> {
    dfs_visit(g, root, Seq::new(g.len(), |i: int| false), Seq::empty(), g.len() + 1).1
}

/// How many entries of `visited` are still `false`.
spec fn unvisited(visited: Seq<bool>) -> nat
    decreases visited.len(),
{
    if visited.len() == 0 {
        0
    } else {
        unvisited(visited.drop_last()) + if visited.last() {
            0nat
        } else {
            1nat
        }
    }
}

/// Marking more entries visited never raises the count of unvisited ones, and marking
/// a new one lowers it.
proof fn lemma_unvisited_shrinks(a: Seq<bool>, b: Seq<bool>)
    requires
        a.len() == b.len(),
        forall|i: int| 0 <= i < a.len() && a[i] ==> b[i],
    ensures
        unvisited(b) <= unvisited(a),
        (exists|i: int| 0 <= i < a.len() && !a[i] && b[i]) ==> unvisited(b) < unvisited(a),
    decreases a.len(),
{
    if a.len() > 0 {
        let a1 = a.drop_last();
        let b1 = b.drop_last();
        lemma_unvisited_shrinks(a1, b1);
        if exists|i: int| 0 <= i < a.len() && !a[i] && b[i] {
            let i = choose|i: int| 0 <= i < a.len() && !a[i] && b[i];
            if i < a.len() - 1 {
                assert(!a1[i] && b1[i]);
            }
        }
    }
}

/// There are no more unvisited entries than entries.
proof fn lemma_unvisited_bounded(visited: Seq<bool>)
    ensures
        unvisited(visited) <= visited.len(),
    decreases visited.len(),
{
    if visited.len() > 0 {
        lemma_unvisited_bounded(visited.drop_last());
    }
}

/// One more step from a reachable node to one of its parents reaches that parent.
proof fn lemma_reach_parent(g: Seq<Seq<usize>>, root: usize, v: usize, p: usize)
    requires
        well_formed(g),
        v < g.len(),
        reachable(g, root, v),
        g[v as int].contains(p),
    ensures
        reachable(g, root, p),
{
    let path = choose|path: Seq<usize>| #[trigger] is_path(g, path) && path[0] == root && path.last() == v;
    let k = choose|k: int| 0 <= k < g[v as int].len() && g[v as int][k] == p;
    let longer = path.push(p);
    assert forall|i: int| 0 <= i < longer.len() - 1 implies g[#[trigger] longer[i] as int].contains(
        longer[i + 1],
    ) by {
        if i == longer.len() - 2 {
            assert(longer[i] == v);
        } else {
            assert(longer[i] == path[i] && longer[i + 1] == path[i + 1]);
        }
    }
    assert(is_path(g, longer));
}

/// A set of nodes that holds `root` and the parents of each of its nodes holds every
/// node reachable from `root`.
proof fn lemma_closed_holds_reachable(g: Seq<Seq<usize>>, s: Seq<usize>, root: usize, x: usize)
    requires
        s.contains(root),
        forall|j: int, k: int|
            0 <= j < s.len() && 0 <= k < g[s[j] as int].len() ==> s.contains(#[trigger] g[s[j] as int][k]),
        reachable(g, root, x),
    ensures
        s.contains(x),
{
    let path = choose|path: Seq<usize>| #[trigger] is_path(g, path) && path[0] == root && path.last() == x;
    lemma_path_stays_in(g, s, path, path.len() - 1);
}

/// Each node of a path from a node of such a set lies in the set.
proof fn lemma_path_stays_in(g: Seq<Seq<usize>>, s: Seq<usize>, path: Seq<usize>, i: int)
    requires
        is_path(g, path),
        s.contains(path[0]),
        forall|j: int, k: int|
            0 <= j < s.len() && 0 <= k < g[s[j] as int].len() ==> s.contains(#[trigger] g[s[j] as int][k]),
        0 <= i < path.len(),
    ensures
        s.contains(path[i]),
    decreases i,
{
    if i > 0 {
        lemma_path_stays_in(g, s, path, i - 1);
        let j = choose|j: int| 0 <= j < s.len() && s[j] == path[i - 1];
        assert(g[path[i - 1] as int].contains(path[i]));
        let k = choose|k: int| 0 <= k < g[path[i - 1] as int].len() && #[trigger] g[path[i - 1] as int][k] == path[i];
        assert(s.contains(g[s[j] as int][k]));
    }
}

/// A node is on the search stack when its search has begun but not yet ended.
spec fn on_stack(visited: Seq<bool>, topo: Seq<usize>, x: usize) -> bool {
    visited[x as int] && !topo.contains(x)
}

/// What holds of the depth-first search between steps.
spec fn search_state(
    g: Seq<Seq<usize>>,
    visited: Seq<bool>,
    topo: Seq<usize>,
    root: usize,
    depth: spec_fn(usize) -> nat,
) -> bool {
    &&& visited.len() == g.len()
    &&& forall|i: int| 0 <= i < topo.len() ==> #[trigger] topo[i] < g.len() && visited[topo[i] as int]
    &&& no_duplicates(topo)
    &&& forall|x: usize| x < g.len() && #[trigger] visited[x as int] ==> reachable(g, root, x)
    &&& forall|j: int, k: int|
        0 <= j < topo.len() && 0 <= k < g[topo[j] as int].len() ==> visited[#[trigger] g[topo[j] as int][k] as int]
    &&& ranked_by(g, depth) ==> parents_first(g, topo)
}

/// Depth-first search from `v`: each newly reached node is appended to `topo` after all of
/// its parents.
fn build_topo(
    parents: &Vec<Vec<usize>>,
    v: usize,
    visited: &mut Vec<bool>,
    topo: &mut Vec<usize>,
    Ghost(root): Ghost<usize>,
    Ghost(depth): Ghost<spec_fn(usize) -> nat>,
    Ghost(fuel): Ghost<nat>,
)
    requires
        fuel > unvisited(old(visited)@),
        well_formed(graph_of(parents)),
        v < parents.len(),
        search_state(graph_of(parents), old(visited)@, old(topo)@, root, depth),
        reachable(graph_of(parents), root, v),
        ranked_by(graph_of(parents), depth) ==> forall|x: usize|
            x < parents.len() && #[trigger] on_stack(old(visited)@, old(topo)@, x) ==> depth(x) > depth(v),
    ensures
        search_state(graph_of(parents), final(visited)@, final(topo)@, root, depth),
        final(visited)@[v as int],
        forall|x: int| 0 <= x < parents.len() && old(visited)@[x] ==> final(visited)@[x],
        final(topo)@.len() >= old(topo)@.len(),
        final(topo)@.take(old(topo)@.len() as int) == old(topo)@,
        forall|x: usize|
            x < parents.len() ==> (#[trigger] on_stack(final(visited)@, final(topo)@, x) <==> on_stack(
                old(visited)@,
                old(topo)@,
                x,
            )),
        !old(visited)@[v as int] ==> final(topo)@.len() > 0 && final(topo)@.last() == v,
        (final(visited)@, final(topo)@) == dfs_visit(graph_of(parents), v, old(visited)@, old(topo)@, fuel),
    decreases fuel,
{
    let ghost g = graph_of(parents);
    if visited[v] {
        return;
    }
    let ghost visited0 = visited@;
    let ghost topo0 = topo@;
    visited.set(v, true);
    proof {
        assert(visited0[v as int] == false && visited@[v as int]);
        lemma_unvisited_shrinks(visited0, visited@);
        assert(!topo0.contains(v));
    }
    let ghost marked = visited@;
    let ps = &parents[v];
    assert(ps@ == g[v as int]);
    let mut k: usize = 0;
    while k < ps.len()
        invariant
            g == graph_of(parents),
            visited0 == old(visited)@,
            well_formed(g),
            v < parents.len(),
            ps@ == g[v as int],
            0 <= k <= ps.len(),
            search_state(g, visited@, topo@, root, depth),
            visited@[v as int],
            !topo@.contains(v),
            forall|x: int| 0 <= x < parents.len() && visited0[x] ==> visited@[x],
            unvisited(visited@) < unvisited(visited0),
            topo@.len() >= topo0.len(),
            topo@.take(topo0.len() as int) == topo0,
            forall|x: usize|
                x < parents.len() ==> (#[trigger] on_stack(visited@, topo@, x) <==> (on_stack(
                    visited0,
                    topo0,
                    x,
                ) || x == v)),
            forall|j: int| 0 <= j < k ==> visited@[#[trigger] ps@[j] as int],
            fuel > unvisited(visited0),
            dfs_parents(g, v, k as nat, visited@, topo@, (fuel - 1) as nat) == dfs_parents(
                g,
                v,
                0,
                marked,
                topo0,
                (fuel - 1) as nat,
            ),
            reachable(g, root, v),
            ranked_by(g, depth) ==> forall|x: usize|
                x < parents.len() && #[trigger] on_stack(visited0, topo0, x) ==> depth(x) > depth(v),
        decreases ps.len() - k,
    {
        let p = ps[k];
        proof {
            assert(g[v as int][k as int] == p);
            assert(p < g.len());
            assert(g[v as int].contains(p));
            lemma_reach_parent(g, root, v, p);
            if ranked_by(g, depth) {
                assert(depth(g[v as int][k as int]) < depth(v));
                assert forall|x: usize|
                    x < parents.len() && #[trigger] on_stack(visited@, topo@, x) implies depth(x) > depth(p) by {
                    if x != v {
                        assert(on_stack(visited0, topo0, x));
                    }
                }
            }
        }
        let ghost visited1 = visited@;
        let ghost topo1 = topo@;
        build_topo(parents, p, visited, topo, Ghost(root), Ghost(depth), Ghost((fuel - 1) as nat));
        proof {
            lemma_unvisited_shrinks(visited1, visited@);
            assert(on_stack(visited1, topo1, v));
            assert(on_stack(visited@, topo@, v));
            assert(topo@.take(topo0.len() as int) =~= topo1.take(topo0.len() as int));
            assert forall|j: int| 0 <= j < k + 1 implies visited@[#[trigger] ps@[j] as int] by {
                if j < k {
                    assert(visited1[ps@[j] as int]);
                }
            }
        }
        k = k + 1;
    }
    let ghost topo2 = topo@;
    topo.push(v);
    proof {
        assert(topo@ == topo2.push(v));
        assert forall|i: int| 0 <= i < topo@.len() implies #[trigger] topo@[i] < g.len() && visited@[topo@[i] as int] by {
            if i < topo2.len() {
                assert(topo@[i] == topo2[i]);
            }
        }
        assert forall|i: int, j: int| 0 <= i < j < topo@.len() implies topo@[i] != topo@[j] by {
            if j == topo2.len() {
                assert(topo2.contains(topo2[i]));
            } else {
                assert(topo@[i] == topo2[i] && topo@[j] == topo2[j]);
            }
        }
        assert forall|j: int, kk: int|
            0 <= j < topo@.len() && 0 <= kk < g[topo@[j] as int].len() implies visited@[#[trigger] g[topo@[j] as int][kk] as int] by {
            if j < topo2.len() {
                assert(topo@[j] == topo2[j]);
            } else {
                assert(topo@[j] == v);
                assert(visited@[ps@[kk] as int]);
            }
        }
        if ranked_by(g, depth) {
            assert forall|j: int, kk: int|
                0 <= j < topo@.len() && 0 <= kk < g[topo@[j] as int].len() implies #[trigger] topo@.take(j).contains(
                g[topo@[j] as int][kk],
            ) by {
                if j < topo2.len() {
                    assert(topo@[j] == topo2[j]);
                    assert(topo@.take(j) =~= topo2.take(j));
                    assert(topo2.take(j).contains(g[topo2[j] as int][kk]));
                } else {
                    assert(topo@[j] == v);
                    assert(topo@.take(j) =~= topo2);
                    let p = ps@[kk];
                    assert(visited@[p as int]);
                    assert(depth(g[v as int][kk]) < depth(v));
                    if !topo2.contains(p) {
                        assert(on_stack(visited@, topo2, p));
                        if p != v {
                            assert(on_stack(visited0, topo0, p));
                        }
                    }
                }
            }
        }
        assert(topo@.take(topo0.len() as int) =~= topo2.take(topo0.len() as int));
        assert forall|x: usize| x < parents.len() implies (#[trigger] on_stack(visited@, topo@, x) <==> on_stack(
            visited0,
            topo0,
            x,
        )) by {
            if x == v {
                assert(topo@.contains(v)) by {
                    assert(topo@[topo@.len() - 1] == v);
                }
            } else {
                assert(topo@.contains(x) <==> topo2.contains(x)) by {
                    if topo@.contains(x) {
                        let i = choose|i: int| 0 <= i < topo@.len() && topo@[i] == x;
                        assert(topo2[i] == x);
                    }
                    if topo2.contains(x) {
                        let i = choose|i: int| 0 <= i < topo2.len() && topo2[i] == x;
                        assert(topo@[i] == x);
                    }
                }
                assert(on_stack(visited@, topo2, x) == on_stack(visited@, topo@, x));
            }
        }
    }
}

/// Whether every parent named in `parents` is a node of the graph.
pub fn is_well_formed(parents: &Vec<Vec<usize>>) -> (ok: bool)
    ensures
        ok == well_formed(graph_of(parents)),
{
    let ghost g = graph_of(parents);
    let n = parents.len();
    let mut v: usize = 0;
    while v < n
        invariant
            g == graph_of(parents),
            n == parents.len(),
            0 <= v <= n,
            forall|w: int, k: int| 0 <= w < v && 0 <= k < g[w].len() ==> #[trigger] g[w][k] < n,
        decreases n - v,
    {
        let ps = &parents[v];
        assert(ps@ == g[v as int]);
        let mut k: usize = 0;
        while k < ps.len()
            invariant
                g == graph_of(parents),
                n == parents.len(),
                0 <= v < n,
                ps@ == g[v as int],
                0 <= k <= ps.len(),
                forall|w: int, j: int| 0 <= w < v && 0 <= j < g[w].len() ==> #[trigger] g[w][j] < n,
                forall|j: int| 0 <= j < k ==> #[trigger] g[v as int][j] < n,
            decreases ps.len() - k,
        {
            if ps[k] >= n {
                assert(g[v as int][k as int] >= n);
                return false;
            }
            k = k + 1;
        }
        v = v + 1;
    }
    true
}

/// The nodes reachable from `root`, each once, every node after all of its parents
/// (where the graph has no cycle), `root` last: the order in which a depth-first
/// search from `root` finishes them.
pub fn topological_order(parents: &Vec<Vec<usize>>, root: usize) -> (topo: Vec<usize>)
    requires
        well_formed(graph_of(parents)),
        root < parents.len(),
    ensures
        no_duplicates(topo@),
        forall|x: usize| topo@.contains(x) <==> reachable(graph_of(parents), root, x),
        topo@.len() > 0,
        topo@.last() == root,
        is_acyclic(graph_of(parents)) ==> parents_first(graph_of(parents), topo@),
        topo@ == dfs_finish_order(graph_of(parents), root),
{
    let ghost g = graph_of(parents);
    let n = parents.len();
    let mut visited: Vec<bool> = Vec::new();
    let mut i: usize = 0;
    while i < n
        invariant
            n == parents.len(),
            0 <= i <= n,
            visited@.len() == i,
            forall|j: int| 0 <= j < i ==> !#[trigger] visited@[j],
        decreases n - i,
    {
        visited.push(false);
        i = i + 1;
    }
    let mut topo: Vec<usize> = Vec::new();
    let ghost depth = choose|depth: spec_fn(usize) -> nat| ranked_by(g, depth);
    proof {
        let path = seq![root];
        assert(is_path(g, path));
        assert(reachable(g, root, root));
        assert forall|x: usize| x < parents.len() && #[trigger] on_stack(visited@, topo@, x) implies depth(x)
            > depth(root) by {
            assert(!visited@[x as int]);
        }
    }
    proof {
        lemma_unvisited_bounded(visited@);
        assert(visited@ =~= Seq::new(g.len(), |i: int| false));
        assert(topo@ =~= Seq::<usize>::empty());
    }
    let ghost visited0 = visited@;
    let ghost topo0 = topo@;
    build_topo(parents, root, &mut visited, &mut topo, Ghost(root), Ghost(depth), Ghost((n + 1) as nat));
    proof {
        assert forall|x: usize| x < n && #[trigger] visited@[x as int] implies topo@.contains(x) by {
            assert(!on_stack(visited0, topo0, x));
            assert(!on_stack(visited@, topo@, x));
        }
        assert forall|x: usize| topo@.contains(x) <==> reachable(g, root, x) by {
            if topo@.contains(x) {
                let i = choose|i: int| 0 <= i < topo@.len() && topo@[i] == x;
                assert(topo@[i] < g.len() && visited@[topo@[i] as int]);
            }
            if reachable(g, root, x) {
                assert(topo@.contains(root)) by {
                    assert(topo@[topo@.len() - 1] == root);
                }
                assert forall|j: int, k: int|
                    0 <= j < topo@.len() && 0 <= k < g[topo@[j] as int].len() implies topo@.contains(
                    #[trigger] g[topo@[j] as int][k],
                ) by {
                    assert(topo@[j] < g.len());
                    assert(visited@[g[topo@[j] as int][k] as int]);
                }
                lemma_closed_holds_reachable(g, topo@, root, x);
            }
        }
    }
    topo
}

/// The order in which a backward pass from `root` visits the nodes: every node
/// reachable from `root` once, `root` first, and (where the graph has no cycle) every
/// node before all of its parents. `None` where `root` or a parent named in `parents`
/// is not a node of the graph.
pub fn backward_order(parents: &Vec<Vec<usize>>, root: usize) -> (order: Option<Vec<usize>>)
    ensures
        order is Some <==> (root < parents.len() && well_formed(graph_of(parents))),
        order matches Some(o) ==> {
            &&& no_duplicates(o@)
            &&& forall|x: usize| o@.contains(x) <==> reachable(graph_of(parents), root, x)
            &&& o@.len() > 0
            &&& o@[0] == root
            &&& is_acyclic(graph_of(parents)) ==> children_first(graph_of(parents), o@)
            &&& o@ == dfs_finish_order(graph_of(parents), root).reverse()
        },
{
    if root >= parents.len() || !is_well_formed(parents) {
        return None;
    }
    let ghost g = graph_of(parents);
    let topo = topological_order(parents, root);
    let len = topo.len();
    let mut order: Vec<usize> = Vec::new();
    let mut i: usize = 0;
    while i < len
        invariant
            len == topo@.len(),
            0 <= i <= len,
            order@.len() == i,
            forall|j: int| 0 <= j < i ==> #[trigger] order@[j] == topo@[len - 1 - j],
        decreases len - i,
    {
        order.push(topo[len - 1 - i]);
        i = i + 1;
    }
    proof {
        assert(order@ =~= topo@.reverse());
        assert forall|a: int, b: int| 0 <= a < b < order@.len() implies order@[a] != order@[b] by {
            assert(order@[a] == topo@[len - 1 - a] && order@[b] == topo@[len - 1 - b]);
        }
        assert forall|x: usize| order@.contains(x) <==> topo@.contains(x) by {
            if order@.contains(x) {
                let j = choose|j: int| 0 <= j < order@.len() && order@[j] == x;
                assert(topo@[len - 1 - j] == x);
            }
            if topo@.contains(x) {
                let j = choose|j: int| 0 <= j < topo@.len() && topo@[j] == x;
                assert(order@[len - 1 - j] == x);
            }
        }
        assert(order@[0] == root);
        if is_acyclic(g) {
            assert forall|j: int, k: int|
                0 <= j < order@.len() && 0 <= k < g[order@[j] as int].len() implies #[trigger] order@.skip(
                j + 1,
            ).contains(g[order@[j] as int][k]) by {
                let t = len - 1 - j;
                assert(order@[j] == topo@[t]);
                assert(topo@.take(t).contains(g[topo@[t] as int][k]));
                let p = g[topo@[t] as int][k];
                let i = choose|i: int| 0 <= i < topo@.take(t).len() && topo@.take(t)[i] == p;
                assert(topo@[i] == p);
                assert(order@[len - 1 - i] == p);
                assert(order@.skip(j + 1)[len - 1 - i - (j + 1)] == p);
            }
        }
    }
    Some(order)
}

} // verus!
