//! Dependency graphs over server indices: walks, reachability, cycles, and
//! the depth-first search that finds a cycle through a direct dependency.

use vstd::prelude::*;

verus! {

/// Every successor of every node is itself a node.
pub open spec fn wf_graph(g: Seq<Seq<usize>>) -> bool {
    forall|u: int, k: int| 0 <= u < g.len() && 0 <= k < g[u].len() ==> (#[trigger] g[u][k] as int) < g.len()
}

/// `u` lists `v` among its dependencies.
pub open spec fn edge(g: Seq<Seq<usize>>, u: usize, v: usize) -> bool {
    (u as int) < g.len() && g[u as int].contains(v)
}

/// The step from `p[i]` to `p[i + 1]` follows an edge.
pub open spec fn step_ok(g: Seq<Seq<usize>>, p: Seq<usize>, i: int) -> bool {
    edge(g, p[i], p[i + 1])
}

/// `p` is a non-empty sequence of nodes, each step following an edge.
pub open spec fn is_walk(g: Seq<Seq<usize>>, p: Seq<usize>) -> bool {
    &&& p.len() >= 1
    &&& forall|i: int| 0 <= i < p.len() - 1 ==> #[trigger] step_ok(g, p, i)
}

/// `v` can be reached from `u` in zero or more steps.
pub open spec fn reaches(g: Seq<Seq<usize>>, u: usize, v: usize) -> bool {
    exists|p: Seq<usize>| #[trigger] is_walk(g, p) && p[0] == u && p.last() == v
}

/// A closed walk of at least one step runs through `c`.
pub open spec fn on_cycle(g: Seq<Seq<usize>>, c: usize) -> bool {
    exists|p: Seq<usize>| #[trigger] is_walk(g, p) && p.len() >= 2 && p[0] == c && p.last() == c
}

/// The `i`-th dependency of `s` lies on a cycle, and no earlier dependency of
/// `s` reaches it.
pub open spec fn flagged_at(g: Seq<Seq<usize>>, s: usize, i: int) -> bool {
    &&& 0 <= i < g[s as int].len()
    &&& on_cycle(g, g[s as int][i])
    &&& forall|j: int| 0 <= j < i ==> !reaches(g, #[trigger] g[s as int][j], g[s as int][i])
}

/// The search from `s` reports a cycle: some dependency of `s` lies on a
/// cycle that no earlier dependency of `s` already leads into.
pub open spec fn flagged(g: Seq<Seq<usize>>, s: usize) -> bool {
    exists|i: int| flagged_at(g, s, i)
}

/// The successors of every marked node are marked.
pub open spec fn closed(g: Seq<Seq<usize>>, vis: Seq<bool>) -> bool {
    forall|u: usize, v: usize| 0 <= u < vis.len() && vis[u as int] && #[trigger] edge(g, u, v) ==> vis[v as int]
}

/// The number of unmarked entries.
pub open spec fn unmarked(s: Seq<bool>) -> nat
    decreases s.len(),
{
    if s.len() == 0 {
        0
    } else {
        unmarked(s.drop_last()) + if s.last() { 0nat } else { 1nat }
    }
}

/// The abstract graph of an adjacency list.
pub open spec fn graph_of(adj: &Vec<Vec<usize>>) -> Seq<Seq<usize>> {
    Seq::new(adj@.len(), |u: int| adj@[u]@)
}

/// A node marked in `b` that was not marked in `a`.
pub open spec fn newly(a: Seq<bool>, b: Seq<bool>, w: usize) -> bool {
    (w as int) < a.len() && !a[w as int] && b[w as int]
}

proof fn lemma_unmarked_mono(a: Seq<bool>, b: Seq<bool>)
    requires
        a.len() == b.len(),
        forall|i: int| 0 <= i < a.len() && a[i] ==> b[i],
    ensures
        unmarked(b) <= unmarked(a),
        (exists|i: int| 0 <= i < a.len() && !a[i] && b[i]) ==> unmarked(b) < unmarked(a),
    decreases a.len(),
{
    if a.len() > 0 {
        let a2 = a.drop_last();
        let b2 = b.drop_last();
        lemma_unmarked_mono(a2, b2);
        if exists|i: int| 0 <= i < a.len() && !a[i] && b[i] {
            let i = choose|i: int| 0 <= i < a.len() && !a[i] && b[i];
            if i < a.len() - 1 {
                assert(!a2[i] && b2[i]);
            }
        }
    }
}

proof fn lemma_walk_push(g: Seq<Seq<usize>>, p: Seq<usize>, v: usize)
    requires
        is_walk(g, p),
        edge(g, p.last(), v),
    ensures
        is_walk(g, p.push(v)),
{
    let q = p.push(v);
    assert forall|i: int| 0 <= i < q.len() - 1 implies #[trigger] step_ok(g, q, i) by {
        if i < p.len() - 1 {
            assert(step_ok(g, p, i));
        }
    }
}

proof fn lemma_walk_cons(g: Seq<Seq<usize>>, u: usize, p: Seq<usize>)
    requires
        is_walk(g, p),
        edge(g, u, p[0]),
    ensures
        is_walk(g, seq![u] + p),
{
    let q = seq![u] + p;
    assert forall|i: int| 0 <= i < q.len() - 1 implies #[trigger] step_ok(g, q, i) by {
        if i > 0 {
            assert(step_ok(g, p, i - 1));
        }
    }
}

proof fn lemma_walk_prefix(g: Seq<Seq<usize>>, p: Seq<usize>, k: int)
    requires
        is_walk(g, p),
        1 <= k <= p.len(),
    ensures
        is_walk(g, p.subrange(0, k)),
{
    let q = p.subrange(0, k);
    assert forall|i: int| 0 <= i < q.len() - 1 implies #[trigger] step_ok(g, q, i) by {
        assert(step_ok(g, p, i));
    }
}

proof fn lemma_reach_refl(g: Seq<Seq<usize>>, u: usize)
    ensures
        reaches(g, u, u),
{
    let p = seq![u];
    assert(is_walk(g, p));
}

proof fn lemma_reach_then_edge(g: Seq<Seq<usize>>, a: usize, b: usize, c: usize)
    requires
        reaches(g, a, b),
        edge(g, b, c),
    ensures
        reaches(g, a, c),
{
    let p = choose|p: Seq<usize>| #[trigger] is_walk(g, p) && p[0] == a && p.last() == b;
    lemma_walk_push(g, p, c);
    assert(p.push(c)[0] == a);
}

proof fn lemma_edge_then_reach(g: Seq<Seq<usize>>, a: usize, b: usize, c: usize)
    requires
        edge(g, a, b),
        reaches(g, b, c),
    ensures
        reaches(g, a, c),
{
    let p = choose|p: Seq<usize>| #[trigger] is_walk(g, p) && p[0] == b && p.last() == c;
    lemma_walk_cons(g, a, p);
    let q = seq![a] + p;
    assert(q.last() == c);
}

/// A marked set closed under edges holds everything reachable from its nodes.
proof fn lemma_closed_walk(g: Seq<Seq<usize>>, vis: Seq<bool>, p: Seq<usize>)
    requires
        closed(g, vis),
        is_walk(g, p),
        (p[0] as int) < vis.len(),
        vis[p[0] as int],
        vis.len() == g.len(),
    ensures
        vis[p.last() as int],
    decreases p.len(),
{
    if p.len() > 1 {
        let q = p.drop_last();
        lemma_walk_prefix(g, p, p.len() - 1);
        assert(q =~= p.subrange(0, p.len() - 1));
        lemma_closed_walk(g, vis, q);
        assert(step_ok(g, p, p.len() - 2));
        assert(edge(g, q.last(), p.last()));
    }
}

proof fn lemma_closed_reach(g: Seq<Seq<usize>>, vis: Seq<bool>, u: usize, v: usize)
    requires
        closed(g, vis),
        reaches(g, u, v),
        (u as int) < vis.len(),
        vis[u as int],
        vis.len() == g.len(),
    ensures
        vis[v as int],
{
    let p = choose|p: Seq<usize>| #[trigger] is_walk(g, p) && p[0] == u && p.last() == v;
    lemma_closed_walk(g, vis, p);
}

/// The depth-first search of `explore` as a function of its inputs: from the
/// `k`-th dependency of `node` on, with marks `vis` and path `path`, looking
/// for an edge back to `root`; a dependency that is `root` closes the walk,
/// an unmarked one is marked, pushed and searched in turn. `fuel` bounds the
/// depth of the search. The result: whether a closed walk was found, the
/// marks afterwards, and the path afterwards.
pub open spec fn search_from(
    g: Seq<Seq<usize>>,
    root: usize,
    node: usize,
    k: int,
    vis: Seq<bool>,
    path: Seq<usize>,
    fuel: nat,
) -> (bool, Seq<bool>, Seq<usize>)
    decreases fuel, g[node as int].len() - k,
{
    if k < 0 || k >= g[node as int].len() {
        (false, vis, path)
    } else {
        let d = g[node as int][k];
        if d == root {
            (true, vis, path.push(d))
        } else if !vis[d as int] {
            if fuel == 0 {
                (false, vis, path)
            } else {
                let r = search_from(g, root, d, 0, vis.update(d as int, true), path.push(d), (fuel - 1) as nat);
                if r.0 {
                    r
                } else {
                    search_from(g, root, node, k + 1, r.1, path, fuel)
                }
            }
        } else {
            search_from(g, root, node, k + 1, vis, path, fuel)
        }
    }
}

/// The search of `has_cycle` as a function of its inputs: from the `k`-th
/// dependency of `start` on, each unmarked dependency is marked and searched
/// for a closed walk back to itself.
pub open spec fn search_deps(g: Seq<Seq<usize>>, start: usize, k: int, vis: Seq<bool>, fuel: nat) -> (bool, Seq<bool>, Seq<usize>)
    decreases g[start as int].len() - k,
{
    if k < 0 || k >= g[start as int].len() {
        (false, vis, Seq::<usize>::empty())
    } else {
        let c = g[start as int][k];
        if vis[c as int] {
            search_deps(g, start, k + 1, vis, fuel)
        } else {
            let r = search_from(g, c, c, 0, vis.update(c as int, true), seq![c], fuel);
            if r.0 {
                r
            } else {
                search_deps(g, start, k + 1, r.1, fuel)
            }
        }
    }
}

/// Marks on the nodes `0 .. n` holding only `s`.
pub open spec fn marks_only(n: nat, s: usize) -> Seq<bool> {
    Seq::new(n, |w: int| w == s as int)
}

/// No marks on the nodes `0 .. n`.
pub open spec fn no_marks(n: nat) -> Seq<bool> {
    Seq::new(n, |w: int| false)
}

proof fn lemma_unmarked_le_len(s: Seq<bool>)
    ensures
        unmarked(s) <= s.len(),
    decreases s.len(),
{
    if s.len() > 0 {
        lemma_unmarked_le_len(s.drop_last());
    }
}

/// Depth-first search from `node` for an edge back to `root`, which is the
/// first node of `path`; this is the recursive step of `has_cycle`, entered
/// with the marks and the path built so far. Every dependency of a node is checked against
/// `root` before the marks are consulted; unmarked dependencies are marked,
/// pushed onto `path` and searched in turn. On success `path` ends with
/// `root` again, a closed walk through it.
pub fn explore(
    adj: &Vec<Vec<usize>>,
    root: usize,
    node: usize,
    visited: &mut Vec<bool>,
    path: &mut Vec<usize>,
    Ghost(fuel): Ghost<nat>,
) -> (found: bool)
    requires
        fuel >= unmarked(old(visited)@),
        wf_graph(graph_of(adj)),
        old(visited)@.len() == adj@.len(),
        (node as int) < adj@.len(),
        old(path)@.len() >= 1,
        old(path)@[0] == root,
    ensures
        final(visited)@.len() == adj@.len(),
        forall|w: int| 0 <= w < adj@.len() && old(visited)@[w] ==> final(visited)@[w],
        !found ==> final(path)@ == old(path)@,
        !found ==> forall|w: usize, d: usize|
            (w == node || newly(old(visited)@, final(visited)@, w)) && #[trigger] edge(graph_of(adj), w, d)
                ==> final(visited)@[d as int] && d != root,
        !found ==> forall|w: usize| #[trigger] newly(old(visited)@, final(visited)@, w)
            ==> reaches(graph_of(adj), node, w),
        found ==> final(path)@.len() > old(path)@.len(),
        found ==> final(path)@.subrange(0, old(path)@.len() as int) == old(path)@,
        found ==> final(path)@.last() == root,
        found && old(path)@.last() == node && is_walk(graph_of(adj), old(path)@) ==> is_walk(graph_of(adj), final(path)@),
        (found, final(visited)@, final(path)@) == search_from(graph_of(adj), root, node, 0, old(visited)@, old(path)@, fuel),
    decreases unmarked(old(visited)@),
{
    let ghost g = graph_of(adj);
    let ghost vis0 = visited@;
    let ghost path0 = path@;
    let ghost walk_ok = path0.last() == node && is_walk(g, path0);
    let n = adj[node].len();
    let mut k: usize = 0;
    while k < n
        invariant
            g == graph_of(adj),
            wf_graph(g),
            n == adj@[node as int]@.len(),
            k <= n,
            (node as int) < adj@.len(),
            vis0 == old(visited)@,
            vis0.len() == adj@.len(),
            path0 == old(path)@,
            visited@.len() == adj@.len(),
            forall|w: int| 0 <= w < adj@.len() && vis0[w] ==> visited@[w],
            path@ == path0,
            path0.len() >= 1,
            path0[0] == root,
            walk_ok == (path0.last() == node && is_walk(g, path0)),
            forall|j: int| 0 <= j < k ==> visited@[adj@[node as int]@[j] as int] && adj@[node as int]@[j] != root,
            forall|w: usize, d: usize|
                newly(vis0, visited@, w) && #[trigger] edge(g, w, d) ==> visited@[d as int] && d != root,
            forall|w: usize| #[trigger] newly(vis0, visited@, w) ==> reaches(g, node, w),
            fuel >= unmarked(vis0),
            search_from(g, root, node, 0, vis0, path0, fuel) == search_from(g, root, node, k as int, visited@, path0, fuel),
        decreases n - k,
    {
        let d = adj[node][k];
        assert(g[node as int][k as int] == d);
        assert(edge(g, node, d));
        if d == path[0] {
            path.push(d);
            proof {
                if walk_ok {
                    lemma_walk_push(g, path0, d);
                }
                assert(path@ =~= path0.push(d));
                assert(path@.subrange(0, path0.len() as int) =~= path0);
            }
            return true;
        }
        if !visited[d] {
            let ghost vis1 = visited@;
            visited.set(d, true);
            path.push(d);
            proof {
                if walk_ok {
                    lemma_walk_push(g, path0, d);
                }
                assert(path@ =~= path0.push(d));
                lemma_unmarked_mono(vis0, visited@);
                assert(!vis0[d as int] && visited@[d as int]);
                lemma_unmarked_mono(vis0, vis1);
                lemma_unmarked_mono(vis1, visited@);
                assert(visited@ == vis1.update(d as int, true));
            }
            let ghost vis2 = visited@;
            let ghost path1 = path@;
            let found = explore(adj, root, d, visited, path, Ghost((fuel - 1) as nat));
            if found {
                proof {
                    assert(path@.subrange(0, path1.len() as int).subrange(0, path0.len() as int) =~= path@.subrange(0, path0.len() as int));
                    assert(path1.subrange(0, path0.len() as int) =~= path0);
                }
                return true;
            }
            path.pop();
            proof {
                assert(path@ =~= path0);
                lemma_reach_refl(g, d);
                assert forall|w: usize| #[trigger] newly(vis0, visited@, w) implies reaches(g, node, w) by {
                    if newly(vis2, visited@, w) {
                        lemma_edge_then_reach(g, node, d, w);
                    } else if w == d {
                        lemma_edge_then_reach(g, node, d, d);
                    } else {
                        assert(newly(vis0, vis1, w));
                    }
                }
                assert forall|w: usize, dd: usize|
                    newly(vis0, visited@, w) && #[trigger] edge(g, w, dd) implies visited@[dd as int] && dd != root by {
                    if newly(vis2, visited@, w) || w == d {
                    } else {
                        assert(newly(vis0, vis1, w));
                    }
                }
            }
        }
        k += 1;
    }
    proof {
        assert forall|w: usize, d: usize|
            (w == node || newly(vis0, visited@, w)) && #[trigger] edge(g, w, d) implies visited@[d as int] && d != root by {
            if w == node {
                let j = choose|j: int| 0 <= j < g[node as int].len() && g[node as int][j] == d;
            }
        }
    }
    false
}


proof fn lemma_reach_in_range(g: Seq<Seq<usize>>, u: usize, v: usize)
    requires
        wf_graph(g),
        reaches(g, u, v),
        (u as int) < g.len(),
    ensures
        (v as int) < g.len(),
{
    let p = choose|p: Seq<usize>| #[trigger] is_walk(g, p) && p[0] == u && p.last() == v;
    if p.len() > 1 {
        assert(step_ok(g, p, p.len() - 2));
        let x = p[p.len() - 2] as int;
        let k = choose|k: int| 0 <= k < g[x].len() && #[trigger] g[x][k] == v;
    }
}

/// No node is marked.
pub open spec fn all_unmarked(v: Seq<bool>) -> bool {
    forall|w: int| 0 <= w < v.len() ==> !v[w]
}

/// Searches the dependencies of `start`, in order, for one that leads back
/// to itself, skipping those already marked. `visited` marks nodes already
/// explored and is shared by the searches from all dependencies; marks are
/// only ever added. On success `path` holds a closed walk through the
/// dependency that was found, starting and ending with it. Entered with no
/// marks, the search finds a cycle exactly when `start` is flagged. Entered
/// with a non-empty path, it is the search of `explore` from `start` for an
/// edge back to the first node of the path.
pub fn has_cycle(adj: &Vec<Vec<usize>>, start: usize, visited: &mut Vec<bool>, path: &mut Vec<usize>) -> (found: bool)
    requires
        wf_graph(graph_of(adj)),
        (start as int) < adj@.len(),
        old(visited)@.len() == adj@.len(),
    ensures
        all_unmarked(old(visited)@) && old(path)@.len() == 0 ==> found == flagged(graph_of(adj), start),
        all_unmarked(old(visited)@) && old(path)@.len() == 0 && found ==> exists|i: int| #![trigger flagged_at(graph_of(adj), start, i)]
            flagged_at(graph_of(adj), start, i)
            && (forall|i2: int| 0 <= i2 < i ==> !flagged_at(graph_of(adj), start, i2))
            && final(path)@[0] == graph_of(adj)[start as int][i],
        !found ==> final(path)@ == old(path)@,
        found ==> final(path)@.len() > old(path)@.len(),
        found ==> final(path)@.subrange(0, old(path)@.len() as int) == old(path)@,
        found ==> final(path)@.last() == final(path)@[0],
        found && old(path)@.len() == 0 ==> final(path)@.len() >= 2 && is_walk(graph_of(adj), final(path)@)
            && exists|i: int| 0 <= i < graph_of(adj)[start as int].len() && final(path)@[0] == graph_of(adj)[start as int][i],
        found && old(path)@.len() > 0 && old(path)@.last() == start && is_walk(graph_of(adj), old(path)@)
            ==> is_walk(graph_of(adj), final(path)@),
        forall|w: int| 0 <= w < adj@.len() && old(visited)@[w] ==> final(visited)@[w],
        final(visited)@.len() == adj@.len(),
        (found, final(visited)@, final(path)@) == if old(path)@.len() == 0 {
            search_deps(graph_of(adj), start, 0, old(visited)@, adj@.len() as nat)
        } else {
            search_from(graph_of(adj), old(path)@[0], start, 0, old(visited)@, old(path)@, adj@.len() as nat)
        },
{
    if path.len() > 0 {
        let root = path[0];
        proof {
            lemma_unmarked_le_len(visited@);
        }
        let found = explore(adj, root, start, visited, path, Ghost(adj@.len() as nat));
        proof {
            if found {
                assert(path@[0] == path@.subrange(0, old(path)@.len() as int)[0]);
            }
        }
        return found;
    }
    let ghost g = graph_of(adj);
    let ghost v_init = visited@;
    let ghost fuel = adj@.len() as nat;
    let n = adj[start].len();
    let mut k: usize = 0;
    while k < n
        invariant
            fuel == adj@.len(),
            v_init == old(visited)@,
            old(path)@.len() == 0,
            search_deps(g, start, 0, v_init, fuel) == search_deps(g, start, k as int, visited@, fuel),
            g == graph_of(adj),
            wf_graph(g),
            (start as int) < adj@.len(),
            n == g[start as int].len(),
            k <= n,
            visited@.len() == adj@.len(),
            path@.len() == 0,
            forall|w: int| 0 <= w < adj@.len() && v_init[w] ==> visited@[w],
            all_unmarked(v_init) ==> closed(g, visited@),
            all_unmarked(v_init) ==> forall|w: usize| (w as int) < adj@.len() && visited@[w as int]
                ==> exists|j: int| 0 <= j < k && #[trigger] reaches(g, g[start as int][j], w),
            all_unmarked(v_init) ==> forall|j: int, w: usize| 0 <= j < k && #[trigger] reaches(g, g[start as int][j], w)
                ==> visited@[w as int],
            all_unmarked(v_init) ==> forall|i: int| 0 <= i < k ==> !#[trigger] flagged_at(g, start, i),
        decreases n - k,
    {
        let c = adj[start][k];
        assert(g[start as int][k as int] == c);
        assert((c as int) < adj@.len());
        if visited[c] {
            proof {
              if all_unmarked(v_init) {
                let j = choose|j: int| 0 <= j < k && #[trigger] reaches(g, g[start as int][j], c);
                assert(!flagged_at(g, start, k as int));
                assert forall|j2: int, w: usize| 0 <= j2 < k + 1 && #[trigger] reaches(g, g[start as int][j2], w)
                    implies visited@[w as int] by {
                    if j2 == k {
                        lemma_closed_reach(g, visited@, c, w);
                    }
                }
              }
            }
        } else {
            let ghost vis_before = visited@;
            visited.set(c, true);
            path.push(c);
            let ghost vis_call = visited@;
            proof {
                assert(is_walk(g, path@));
                assert(path@ =~= seq![c]);
                assert(vis_call == vis_before.update(c as int, true));
                lemma_unmarked_le_len(vis_call);
            }
            let found = explore(adj, c, c, visited, path, Ghost(fuel));
            if found {
                proof {
                    assert(search_deps(g, start, k as int, vis_before, fuel) == (true, visited@, path@));
                    assert(path@.subrange(0, 0) =~= old(path)@);
                    assert(path@.subrange(0, 1)[0] == path@[0]);
                    assert(is_walk(g, path@) && path@.len() >= 2 && path@[0] == c && path@.last() == c);
                  if all_unmarked(v_init) {
                    assert forall|j: int| 0 <= j < k implies !reaches(g, #[trigger] g[start as int][j], g[start as int][k as int]) by {
                        if reaches(g, g[start as int][j], c) {
                            lemma_reach_in_range(g, g[start as int][j], c);
                        }
                    }
                    assert(on_cycle(g, c));
                    assert(flagged_at(g, start, k as int));
                  }
                }
                return true;
            }
            path.pop();
            proof {
              if all_unmarked(v_init) {
                let vis_after = visited@;
                assert(closed(g, vis_after)) by {
                    assert forall|u: usize, v: usize| 0 <= u < vis_after.len() && vis_after[u as int] && #[trigger] edge(g, u, v)
                        implies vis_after[v as int] by {
                        if vis_before[u as int] {
                        } else if u == c {
                        } else {
                            assert(newly(vis_call, vis_after, u));
                        }
                    }
                }
                assert forall|j: int, w: usize| 0 <= j < k + 1 && #[trigger] reaches(g, g[start as int][j], w)
                    implies vis_after[w as int] by {
                    if j == k {
                        lemma_closed_reach(g, vis_after, c, w);
                    } else {
                        lemma_reach_in_range(g, g[start as int][j], w);
                    }
                }
                assert forall|w: usize| (w as int) < adj@.len() && vis_after[w as int]
                    implies exists|j: int| 0 <= j < k + 1 && #[trigger] reaches(g, g[start as int][j], w) by {
                    if vis_before[w as int] {
                    } else if w == c {
                        lemma_reach_refl(g, c);
                        assert(reaches(g, g[start as int][k as int], w));
                    } else {
                        assert(newly(vis_call, vis_after, w));
                        assert(reaches(g, g[start as int][k as int], w));
                    }
                }
                if on_cycle(g, c) {
                    let p = choose|p: Seq<usize>| #[trigger] is_walk(g, p) && p.len() >= 2 && p[0] == c && p.last() == c;
                    let m = p.len() - 2;
                    let u = p[m];
                    lemma_walk_prefix(g, p, m + 1);
                    assert(p.subrange(0, m + 1).last() == u);
                    assert(reaches(g, c, u));
                    lemma_closed_reach(g, vis_after, c, u);
                    assert(step_ok(g, p, m));
                    assert(edge(g, u, c));
                    if vis_before[u as int] {
                        let j = choose|j: int| 0 <= j < k && #[trigger] reaches(g, g[start as int][j], u);
                        lemma_reach_then_edge(g, g[start as int][j], u, c);
                        assert(false);
                    } else if u == c {
                        assert(false);
                    } else {
                        assert(newly(vis_call, vis_after, u));
                        assert(false);
                    }
                }
                assert(!flagged_at(g, start, k as int));
              }
            }
        }
        k += 1;
    }
    assert(path@ =~= Seq::<usize>::empty());
    false
}

/// A closed walk from `s` back to itself when `s` lies on a cycle, found by
/// the depth-first search rooted at `s`; `None` otherwise.
pub fn cycle_through(adj: &Vec<Vec<usize>>, s: usize) -> (res: Option<Vec<usize>>)
    requires
        wf_graph(graph_of(adj)),
        (s as int) < adj@.len(),
    ensures
        res is Some <==> on_cycle(graph_of(adj), s),
        res matches Some(p) ==> p@.len() >= 2 && is_walk(graph_of(adj), p@) && p@[0] == s && p@.last() == s,
        ({
            let r = search_from(graph_of(adj), s, s, 0, marks_only(adj@.len(), s), seq![s], adj@.len() as nat);
            &&& (res is Some <==> r.0)
            &&& (res matches Some(p) ==> p@ == r.2)
        }),
{
    let ghost g = graph_of(adj);
    let n = adj.len();
    let mut visited: Vec<bool> = Vec::new();
    let mut m: usize = 0;
    while m < n
        invariant
            n == adj@.len(),
            m <= n,
            visited@.len() == m,
            forall|w: int| 0 <= w < m ==> visited@[w] == (w == s as int),
        decreases n - m,
    {
        visited.push(m == s);
        m += 1;
    }
    let ghost vis0 = visited@;
    let mut path: Vec<usize> = Vec::new();
    path.push(s);
    assert(is_walk(g, path@));
    proof {
        assert(vis0 =~= marks_only(adj@.len(), s));
        assert(path@ =~= seq![s]);
        lemma_unmarked_le_len(vis0);
    }
    let found = explore(adj, s, s, &mut visited, &mut path, Ghost(adj@.len() as nat));
    if found {
        proof {
            assert(path@.subrange(0, 1)[0] == path@[0]);
        }
        Some(path)
    } else {
        proof {
            let vis_after = visited@;
            assert(closed(g, vis_after)) by {
                assert forall|u: usize, v: usize| 0 <= u < vis_after.len() && vis_after[u as int] && #[trigger] edge(g, u, v)
                    implies vis_after[v as int] by {
                    if u != s {
                        assert(newly(vis0, vis_after, u));
                    }
                }
            }
            if on_cycle(g, s) {
                let p = choose|p: Seq<usize>| #[trigger] is_walk(g, p) && p.len() >= 2 && p[0] == s && p.last() == s;
                let k = p.len() - 2;
                let u = p[k];
                lemma_walk_prefix(g, p, k + 1);
                assert(p.subrange(0, k + 1).last() == u);
                assert(reaches(g, s, u));
                lemma_closed_reach(g, vis_after, s, u);
                assert(step_ok(g, p, k));
                assert(edge(g, u, s));
                if u != s {
                    assert(newly(vis0, vis_after, u));
                }
                assert(false);
            }
        }
        None
    }
}

} // verus!
