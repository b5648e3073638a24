//! The transitive closure resolver: an iterative stack-based traversal
//! of the normal-dependency graph from a root, with a visited set that
//! makes it cycle-safe, an exclusion set whose members are neither
//! traversed nor recorded, and a name-deduplicated result map.

use vstd::prelude::*;
use vstd::pervasive::VecAdditionalExecFns;
use crate::deps::DepMap;
use crate::graph::DependencyGraph;
use crate::metadata::{MetadataIndex, PackageRecord};

verus! {

/// Whether the graph has an edge from `a` to `b`.
pub open spec fn graph_edge(g: DependencyGraph, a: usize, b: usize) -> bool {
    &&& a < g.adj@.len()
    &&& exists|k: int| 0 <= k < g.adj@[a as int]@.len() && #[trigger] g.adj@[a as int]@[k] == b
}

/// A traversal path: starts at `root`, follows graph edges, and never
/// steps onto an excluded id (an edge into the exclusion set is dropped
/// entirely: neither traversed nor recorded).
pub open spec fn is_path(g: DependencyGraph, excl: Seq<usize>, root: usize, p: Seq<usize>) -> bool {
    &&& p.len() >= 1
    &&& p[0] == root
    &&& forall|t: int|
        1 <= t < p.len() ==> graph_edge(g, p[t - 1], #[trigger] p[t]) && !excl.contains(p[t])
}

/// Whether the closure from `root` records package `j`: it is not
/// excluded, it is not the root itself, and at least one edge of a
/// traversal path reaches it.
pub open spec fn closure_records(
    g: DependencyGraph,
    excl: Seq<usize>,
    root: usize,
    j: usize,
) -> bool {
    &&& !excl.contains(j)
    &&& j != root
    &&& exists|p: Seq<usize>|
        #[trigger] is_path(g, excl, root, p) && p.len() >= 2 && p.last() == j
}

/// What the resolver guarantees of its result map: every entry is the
/// (name, version) of some recorded package, and every recorded package
/// has its name in the map.
pub open spec fn closure_post(
    ps: Seq<PackageRecord>,
    g: DependencyGraph,
    excl: Seq<usize>,
    root: usize,
    deps: DepMap,
) -> bool {
    &&& deps.wf()
    &&& forall|m: Seq<char>|
        #[trigger] deps.spec_contains_name(m) ==> exists|j: usize|
            #[trigger] closure_records(g, excl, root, j) && j < ps.len() && ps[j as int].name@ == m
                && deps.spec_version_of(m) == ps[j as int].version@
    &&& forall|j: usize|
        #[trigger] closure_records(g, excl, root, j) && j < ps.len() ==> deps.spec_contains_name(
            ps[j as int].name@,
        )
}

/// The result of one closure resolution: the deduplicated name-to-
/// version map, and the order in which ids were expanded (each id at
/// most once, which is what makes the traversal cycle-safe).
pub struct TransitiveClosure {
    pub deps: DepMap,
    pub expanded: Vec<usize>,
}

/// Number of `true` entries.
pub open spec fn count_true(s: Seq<bool>) -> nat
    decreases s.len(),
{
    if s.len() == 0 {
        0
    } else {
        count_true(s.drop_last()) + if s.last() {
            1nat
        } else {
            0nat
        }
    }
}

proof fn lemma_count_true_le_len(s: Seq<bool>)
    ensures
        count_true(s) <= s.len(),
    decreases s.len(),
{
    if s.len() > 0 {
        lemma_count_true_le_len(s.drop_last());
    }
}

proof fn lemma_count_true_update(s: Seq<bool>, i: int)
    requires
        0 <= i < s.len(),
        !s[i],
    ensures
        count_true(s.update(i, true)) == count_true(s) + 1,
    decreases s.len(),
{
    let u = s.update(i, true);
    if i == s.len() - 1 {
        assert(u.drop_last() =~= s.drop_last());
    } else {
        assert(u.drop_last() =~= s.drop_last().update(i, true));
        assert(u.last() == s.last());
        lemma_count_true_update(s.drop_last(), i);
    }
}

/// Extending a path by one non-excluded edge records its endpoint.
proof fn lemma_extend_path(
    g: DependencyGraph,
    excl: Seq<usize>,
    root: usize,
    v: usize,
    d: usize,
)
    requires
        v == root || closure_records(g, excl, root, v),
        graph_edge(g, v, d),
        !excl.contains(d),
        d != root,
    ensures
        closure_records(g, excl, root, d),
{
    if v == root {
        let p = seq![root, d];
        assert(p[0] == root);
        assert(p.last() == d);
        assert forall|t: int|
            1 <= t < p.len() implies graph_edge(g, p[t - 1], #[trigger] p[t]) && !excl.contains(
            p[t],
        ) by {
            assert(t == 1);
            assert(p[0] == root && p[1] == d);
        }
        assert(is_path(g, excl, root, p));
    } else {
        let p = choose|p: Seq<usize>|
            #[trigger] is_path(g, excl, root, p) && p.len() >= 2 && p.last() == v;
        let q = p.push(d);
        assert forall|t: int|
            1 <= t < q.len() implies graph_edge(g, q[t - 1], #[trigger] q[t]) && !excl.contains(
            q[t],
        ) by {
            if t < q.len() - 1 {
                assert(q[t] == p[t] && q[t - 1] == p[t - 1]);
            } else {
                assert(q[t] == d && q[t - 1] == p[p.len() - 1]);
            }
        }
        assert(is_path(g, excl, root, q));
        assert(q.last() == d);
    }
}

/// Once the visited set is closed under non-excluded successors and
/// holds the root, it holds the endpoint of every traversal path.
proof fn lemma_closed_visits_path(
    g: DependencyGraph,
    excl: Seq<usize>,
    root: usize,
    visited: Seq<bool>,
    p: Seq<usize>,
)
    requires
        g.adj@.len() == visited.len(),
        root < visited.len(),
        visited[root as int],
        forall|v: usize, d: usize|
            v < visited.len() && visited[v as int] && #[trigger] graph_edge(g, v, d)
                && !excl.contains(d) ==> d < visited.len() && visited[d as int],
        is_path(g, excl, root, p),
    ensures
        p.last() < visited.len() && visited[p.last() as int],
    decreases p.len(),
{
    if p.len() == 1 {
        assert(p.last() == root);
    } else {
        let q = p.drop_last();
        assert forall|t: int|
            1 <= t < q.len() implies graph_edge(g, q[t - 1], #[trigger] q[t]) && !excl.contains(
            q[t],
        ) by {
            assert(q[t] == p[t] && q[t - 1] == p[t - 1]);
        }
        assert(is_path(g, excl, root, q));
        lemma_closed_visits_path(g, excl, root, visited, q);
        assert(graph_edge(g, p[p.len() - 2], p.last()));
        assert(!excl.contains(p.last()));
    }
}

/// Exclusion correctness: an excluded package whose name no other
/// package shares never appears in the result map. (In general every
/// entry of the map is witnessed by a non-excluded package, as
/// `closure_post` states; this puts it in terms of the excluded id.)
pub proof fn lemma_exclusion_correctness(
    ps: Seq<PackageRecord>,
    g: DependencyGraph,
    excl: Seq<usize>,
    root: usize,
    deps: DepMap,
    e: usize,
)
    requires
        closure_post(ps, g, excl, root, deps),
        excl.contains(e),
        e < ps.len(),
        forall|i: int| 0 <= i < ps.len() && i != e ==> #[trigger] ps[i].name@ != ps[e as int].name@,
    ensures
        !deps.spec_contains_name(ps[e as int].name@),
{
    if deps.spec_contains_name(ps[e as int].name@) {
        let j = choose|j: usize|
            #[trigger] closure_records(g, excl, root, j) && j < ps.len() && ps[j as int].name@
                == ps[e as int].name@ && deps.spec_version_of(ps[e as int].name@) == ps[
                j as int
            ].version@;
        assert(!excl.contains(j));
        assert(j != e);
        assert(ps[j as int].name@ != ps[e as int].name@);
        assert(false);
    }
}

/// Whether `v` holds `x`.
fn vec_contains(v: &Vec<usize>, x: usize) -> (r: bool)
    ensures
        r == v@.contains(x),
{
    let n = v.len();
    let mut i: usize = 0;
    while i < n
        invariant
            n == v@.len(),
            i <= n,
            forall|j: int| 0 <= j < i ==> v@[j] != x,
        decreases n - i,
    {
        if v[i] == x {
            proof {
                assert(v@[i as int] == x);
            }
            return true;
        }
        i = i + 1;
    }
    proof {
        if v@.contains(x) {
            let j = choose|j: int| 0 <= j < v@.len() && v@[j] == x;
            assert(v@[j] != x);
        }
    }
    false
}

/// Resolves the transitive dependency closure of `root`.
///
/// Iterative stack-based traversal; the visited set guarantees that
/// each id is expanded at most once, so the traversal terminates even
/// on cyclic graphs. An edge into the exclusion set is dropped
/// entirely; every other edge records its target's (name, version) in
/// the result, overwriting an earlier entry with the same name. The
/// root itself is never recorded.
pub fn transitive_closure(
    meta: &MetadataIndex,
    g: &DependencyGraph,
    root: usize,
    exclusion: &Vec<usize>,
) -> (r: TransitiveClosure)
    requires
        meta.wf(),
        g.wf(meta.packages@.len() as int),
        root < meta.packages@.len(),
    ensures
        closure_post(meta.packages@, *g, exclusion@, root, r.deps),
        forall|a: int, b: int|
            0 <= a < b < r.expanded@.len() ==> r.expanded@[a] != r.expanded@[b],
        forall|a: int| 0 <= a < r.expanded@.len() ==> r.expanded@[a] < meta.packages@.len(),
{
    let ghost ps = meta.packages@;
    let ghost excl = exclusion@;
    let n = meta.packages.len();
    let mut deps = DepMap::new();
    let mut visited: Vec<bool> = vec![false; n];
    let mut expanded: Vec<usize> = Vec::new();
    let mut stack: Vec<usize> = Vec::new();
    stack.push(root);
    proof {
        assert(stack@[0] == root);
        assert(stack@.contains(root));
    }
    while stack.len() > 0
        invariant
            meta.wf(),
            g.wf(n as int),
            ps == meta.packages@,
            excl == exclusion@,
            n == ps.len(),
            root < n,
            visited@.len() == n,
            deps.wf(),
            // every stacked id is the root or a recorded package
            forall|s: int|
                0 <= s < stack@.len() ==> stack@[s] < n && (stack@[s] == root || closure_records(
                    *g,
                    excl,
                    root,
                    #[trigger] stack@[s],
                )),
            // every visited id is the root or a recorded package
            forall|v: usize|
                v < n && visited@[v as int] ==> (v == root || closure_records(*g, excl, root, v)),
            // the root is visited or still on the stack
            visited@[root as int] || stack@.contains(root),
            // expansion trace: exactly the visited ids, each once
            forall|a: int, b: int|
                0 <= a < b < expanded@.len() ==> expanded@[a] != expanded@[b],
            forall|a: int| 0 <= a < expanded@.len() ==> expanded@[a] < n,
            forall|v: usize| v < n ==> (visited@[v as int] <==> expanded@.contains(v)),
            // soundness of the result map
            forall|m: Seq<char>|
                #[trigger] deps.spec_contains_name(m) ==> exists|j: usize|
                    #[trigger] closure_records(*g, excl, root, j) && j < n && ps[j as int].name@
                        == m && deps.spec_version_of(m) == ps[j as int].version@,
            // completeness so far: edges out of visited ids are recorded
            forall|v: usize, k: int|
                v < n && visited@[v as int] && 0 <= k < g.adj@[v as int]@.len() ==> {
                    let d = #[trigger] g.adj@[v as int]@[k];
                    !excl.contains(d) && d != root ==> deps.spec_contains_name(ps[d as int].name@)
                },
            // frontier: successors of visited ids are visited or stacked
            forall|v: usize, k: int|
                v < n && visited@[v as int] && 0 <= k < g.adj@[v as int]@.len() ==> {
                    let d = #[trigger] g.adj@[v as int]@[k];
                    !excl.contains(d) ==> visited@[d as int] || stack@.contains(d)
                },
        decreases n - count_true(visited@), stack@.len(),
    {
        let ghost visited_pre = visited@;
        let ghost stack_pre = stack@;
        proof {
            lemma_count_true_le_len(visited@);
        }
        let cur = match stack.pop() {
            Some(c) => c,
            None => {
                proof {
                    assert(false);
                }
                0
            },
        };
        proof {
            assert(stack_pre.drop_last() =~= stack@);
            assert forall|d: usize| stack_pre.contains(d) && d != cur implies stack@.contains(
                d,
            ) by {
                let s = choose|s: int| 0 <= s < stack_pre.len() && stack_pre[s] == d;
                assert(s < stack_pre.len() - 1);
                assert(stack@[s] == d);
            }
        }
        if !visited[cur] {
            visited.set(cur, true);
            let ghost expanded_pre = expanded@;
            expanded.push(cur);
            proof {
                lemma_count_true_update(visited_pre, cur as int);
                assert(expanded@ == expanded_pre.push(cur));
                assert(!visited_pre[cur as int]);
                assert(!expanded_pre.contains(cur));
                assert forall|a: int| 0 <= a < expanded_pre.len() implies expanded_pre[a]
                    != cur by {
                    if expanded_pre[a] == cur {
                        assert(expanded_pre.contains(cur));
                    }
                }
                assert forall|v: usize| v < n implies (visited@[v as int] <==> expanded@.contains(
                    v,
                )) by {
                    if v == cur {
                        assert(expanded@[expanded@.len() - 1] == cur);
                        assert(expanded@.contains(cur));
                    } else {
                        assert(visited@[v as int] == visited_pre[v as int]);
                        if expanded_pre.contains(v) {
                            let a = choose|a: int|
                                0 <= a < expanded_pre.len() && expanded_pre[a] == v;
                            assert(expanded@[a] == v);
                            assert(expanded@.contains(v));
                        }
                        if expanded@.contains(v) {
                            let a = choose|a: int| 0 <= a < expanded@.len() && expanded@[a] == v;
                            assert(a < expanded@.len() - 1);
                            assert(expanded_pre[a] == v);
                            assert(expanded_pre.contains(v));
                        }
                    }
                }
            }
            let m = g.adj[cur].len();
            let mut k: usize = 0;
            while k < m
                invariant
                    meta.wf(),
                    g.wf(n as int),
                    ps == meta.packages@,
                    excl == exclusion@,
                    n == ps.len(),
                    root < n,
                    cur < n,
                    m == g.adj@[cur as int]@.len(),
                    k <= m,
                    visited@.len() == n,
                    deps.wf(),
                    visited@[cur as int],
                    cur == root || closure_records(*g, excl, root, cur),
                    visited@ == visited_pre.update(cur as int, true),
                    forall|s: int|
                        0 <= s < stack@.len() ==> stack@[s] < n && (stack@[s] == root
                            || closure_records(*g, excl, root, #[trigger] stack@[s])),
                    forall|v: usize|
                        v < n && visited@[v as int] ==> (v == root || closure_records(
                            *g,
                            excl,
                            root,
                            v,
                        )),
                    visited@[root as int] || stack@.contains(root),
                    forall|m0: Seq<char>|
                        #[trigger] deps.spec_contains_name(m0) ==> exists|j: usize|
                            #[trigger] closure_records(*g, excl, root, j) && j < n && ps[
                                j as int
                            ].name@ == m0 && deps.spec_version_of(m0) == ps[j as int].version@,
                    // edges of previously visited ids are all recorded
                    forall|v: usize, k0: int|
                        v < n && v != cur && visited@[v as int] && 0 <= k0 < g.adj@[
                            v as int
                        ]@.len() ==> {
                            let d = #[trigger] g.adj@[v as int]@[k0];
                            !excl.contains(d) && d != root ==> deps.spec_contains_name(
                                ps[d as int].name@,
                            )
                        },
                    // edges of cur up to k are recorded
                    forall|k0: int|
                        0 <= k0 < k ==> {
                            let d = #[trigger] g.adj@[cur as int]@[k0];
                            !excl.contains(d) && d != root ==> deps.spec_contains_name(
                                ps[d as int].name@,
                            )
                        },
                    // frontier for previously visited ids
                    forall|v: usize, k0: int|
                        v < n && v != cur && visited@[v as int] && 0 <= k0 < g.adj@[
                            v as int
                        ]@.len() ==> {
                            let d = #[trigger] g.adj@[v as int]@[k0];
                            !excl.contains(d) ==> visited@[d as int] || stack@.contains(d)
                        },
                    // frontier for cur up to k
                    forall|k0: int|
                        0 <= k0 < k ==> {
                            let d = #[trigger] g.adj@[cur as int]@[k0];
                            !excl.contains(d) ==> visited@[d as int] || stack@.contains(d)
                        },
                decreases m - k,
            {
                let d = g.adj[cur][k];
                proof {
                    assert(g.adj@[cur as int]@[k as int] == d);
                    assert(d < n);
                    assert(graph_edge(*g, cur, d));
                }
                let ghost stack_in = stack@;
                if !vec_contains(exclusion, d) {
                    proof {
                        if d != root {
                            lemma_extend_path(*g, excl, root, cur, d);
                        }
                    }
                    if d != root {
                        let p = &meta.packages[d];
                        deps.insert(p.name.clone(), p.version.clone());
                        proof {
                            assert(deps.spec_contains_name(ps[d as int].name@));
                            assert(deps.spec_version_of(ps[d as int].name@) == ps[
                                d as int
                            ].version@);
                            assert forall|m0: Seq<char>|
                                #[trigger] deps.spec_contains_name(m0) implies exists|j: usize|
                                #[trigger] closure_records(*g, excl, root, j) && j < n && ps[
                                j as int
                            ].name@ == m0 && deps.spec_version_of(m0) == ps[
                                j as int
                            ].version@ by {
                                if m0 == ps[d as int].name@ {
                                    assert(closure_records(*g, excl, root, d));
                                } else {
                                }
                            }
                        }
                    }
                    if !visited[d] {
                        stack.push(d);
                        proof {
                            assert(stack@.drop_last() =~= stack_in);
                            assert forall|x: usize| stack_in.contains(x) implies stack@.contains(
                                x,
                            ) by {
                                let s = choose|s: int|
                                    0 <= s < stack_in.len() && stack_in[s] == x;
                                assert(stack@[s] == x);
                            }
                            assert(stack@.last() == d);
                            assert(stack@.contains(d));
                        }
                    }
                }
                k = k + 1;
            }
        }
        proof {
            lemma_count_true_le_len(visited@);
            if visited_pre[cur as int] {
                assert(visited@ == visited_pre);
            }
        }
    }
    proof {
        // the stack is empty: the visited set is closed, so every
        // recorded package's name made it into the map
        assert forall|j: usize|
            #[trigger] closure_records(*g, excl, root, j) && j < n implies deps.spec_contains_name(
            ps[j as int].name@,
        ) by {
            let p = choose|p: Seq<usize>|
                #[trigger] is_path(*g, excl, root, p) && p.len() >= 2 && p.last() == j;
            assert forall|v: usize, d: usize|
                v < n && visited@[v as int] && #[trigger] graph_edge(*g, v, d) && !excl.contains(
                d,
            ) implies d < n && visited@[d as int] by {
                let k = choose|k: int|
                    0 <= k < g.adj@[v as int]@.len() && g.adj@[v as int]@[k] == d;
                assert(visited@[d as int] || stack@.contains(d));
            }
            lemma_closed_visits_path(*g, excl, root, visited@, p);
            let q = p.drop_last();
            assert forall|t: int|
                1 <= t < q.len() implies graph_edge(*g, q[t - 1], #[trigger] q[t])
                && !excl.contains(q[t]) by {
                assert(q[t] == p[t] && q[t - 1] == p[t - 1]);
            }
            assert(is_path(*g, excl, root, q));
            lemma_closed_visits_path(*g, excl, root, visited@, q);
            let v = q.last();
            assert(graph_edge(*g, p[p.len() - 2], p.last()));
            assert(v == p[p.len() - 2]);
            let kk = choose|k: int|
                0 <= k < g.adj@[v as int]@.len() && g.adj@[v as int]@[k] == j;
            assert(!excl.contains(j) && j != root);
        }
    }
    TransitiveClosure { deps, expanded }
}

} // verus!
