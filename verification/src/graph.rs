//! The normal-dependency graph: for every package, the resolved edges
//! whose declared kind is normal, as an adjacency list over package
//! indices.

use vstd::prelude::*;
use crate::metadata::{
    MetadataIndex, PackageRecord, ResolveNode, DepKind, has_pkg_id, pkg_ids_unique,
};

verus! {

/// Adjacency list keyed by package index: `adj[i]` lists the indices of
/// the packages that package `i` depends on through normal edges. Built
/// once per invocation; read-only afterward.
#[derive(Debug)]
pub struct DependencyGraph {
    pub adj: Vec<Vec<usize>>,
}

impl DependencyGraph {
    /// Shape: one row per package, every edge target in range.
    pub open spec fn wf(self, n: int) -> bool {
        &&& self.adj@.len() == n
        &&& forall|i: int, k: int|
            0 <= i < n && 0 <= k < self.adj@[i]@.len() ==> #[trigger] self.adj@[i]@[k] < n
    }
}

/// A node id or a resolved edge of the resolution section names a
/// package that the snapshot does not contain: a data-integrity error,
/// not a silent skip.
#[derive(Debug, Clone, Copy, PartialEq, Eq, Structural)]
pub enum GraphIntegrityError {
    UnknownId,
}

/// Whether `d` is a declared dependency of kind normal named `name`.
pub open spec fn dep_is_normal_named(d: crate::metadata::DeclaredDependency, name: Seq<char>) -> bool {
    d.kind == DepKind::Normal && d.name@ == name
}

/// Whether package `p` declares a normal dependency on `name`.
pub open spec fn declares_normal(p: PackageRecord, name: Seq<char>) -> bool {
    exists|d: int|
        0 <= d < p.dependencies@.len() && dep_is_normal_named(#[trigger] p.dependencies@[d], name)
}

/// The index of the package carrying `id` (meaningful when present).
pub open spec fn spec_pkg_index_of(ps: Seq<PackageRecord>, id: Seq<char>) -> int {
    choose|i: int| 0 <= i < ps.len() && #[trigger] ps[i].id@ == id
}

/// Under unique ids, any index carrying `id` is the index
/// `spec_pkg_index_of` denotes.
pub proof fn lemma_pkg_index_unique(ps: Seq<PackageRecord>, i: int)
    requires
        pkg_ids_unique(ps),
        0 <= i < ps.len(),
    ensures
        spec_pkg_index_of(ps, ps[i].id@) == i,
        has_pkg_id(ps, ps[i].id@),
{
    assert(has_pkg_id(ps, ps[i].id@));
    let j = spec_pkg_index_of(ps, ps[i].id@);
    if j != i {
        if j < i {
            assert(ps[j].id@ != ps[i].id@);
        } else {
            assert(ps[i].id@ != ps[j].id@);
        }
    }
}

/// The index of the last resolution node carrying `id`, or `-1` when
/// none does; the last node decides when several share an id.
pub open spec fn last_node_index(nodes: Seq<ResolveNode>, id: Seq<char>) -> int
    decreases nodes.len(),
{
    if nodes.len() == 0 {
        -1
    } else if nodes.last().id@ == id {
        nodes.len() - 1
    } else {
        last_node_index(nodes.drop_last(), id)
    }
}

/// `last_node_index` is either `-1` or a node index carrying `id`.
pub proof fn lemma_last_node_index(nodes: Seq<ResolveNode>, id: Seq<char>)
    ensures
        last_node_index(nodes, id) == -1 || (0 <= last_node_index(nodes, id) < nodes.len()
            && nodes[last_node_index(nodes, id)].id@ == id),
    decreases nodes.len(),
{
    if nodes.len() > 0 && nodes.last().id@ != id {
        lemma_last_node_index(nodes.drop_last(), id);
    }
}

/// The resolved edges of one node, filtered down to the ones whose
/// target package the consumer declares as a normal dependency; edge
/// order is kept. Meaningful when every id in `dep_ids` resolves.
pub open spec fn spec_filtered_edges(
    ps: Seq<PackageRecord>,
    consumer: PackageRecord,
    dep_ids: Seq<String>,
) -> Seq<usize>
    decreases dep_ids.len(),
{
    if dep_ids.len() == 0 {
        Seq::empty()
    } else {
        let rest = spec_filtered_edges(ps, consumer, dep_ids.drop_last());
        let d = dep_ids.last()@;
        if has_pkg_id(ps, d) && declares_normal(consumer, ps[spec_pkg_index_of(ps, d)].name@) {
            rest.push(spec_pkg_index_of(ps, d) as usize)
        } else {
            rest
        }
    }
}

/// Every filtered edge is in range and declared normal by the consumer.
pub proof fn lemma_filtered_edges_props(
    ps: Seq<PackageRecord>,
    consumer: PackageRecord,
    dep_ids: Seq<String>,
)
    requires
        ps.len() <= usize::MAX,
    ensures
        forall|k: int|
            0 <= k < spec_filtered_edges(ps, consumer, dep_ids).len() ==> {
                let e = #[trigger] spec_filtered_edges(ps, consumer, dep_ids)[k];
                &&& 0 <= e < ps.len()
                &&& declares_normal(consumer, ps[e as int].name@)
            },
    decreases dep_ids.len(),
{
    if dep_ids.len() > 0 {
        lemma_filtered_edges_props(ps, consumer, dep_ids.drop_last());
        let rest = spec_filtered_edges(ps, consumer, dep_ids.drop_last());
        let full = spec_filtered_edges(ps, consumer, dep_ids);
        let d = dep_ids.last()@;
        if has_pkg_id(ps, d) && declares_normal(consumer, ps[spec_pkg_index_of(ps, d)].name@) {
            let i = spec_pkg_index_of(ps, d);
            assert(0 <= i < ps.len());
            assert(full == rest.push(i as usize));
            assert forall|k: int| 0 <= k < full.len() implies {
                let e = #[trigger] full[k];
                &&& 0 <= e < ps.len()
                &&& declares_normal(consumer, ps[e as int].name@)
            } by {
                if k < rest.len() {
                    assert(full[k] == rest[k]);
                } else {
                    assert(full[k] == i as usize);
                    assert((i as usize) as int == i);
                }
            }
        } else {
            assert(full == rest);
        }
    }
}

/// Every node id names a package.
pub open spec fn node_ids_resolve(ps: Seq<PackageRecord>, nodes: Seq<ResolveNode>) -> bool {
    forall|k: int| 0 <= k < nodes.len() ==> has_pkg_id(ps, (#[trigger] nodes[k]).id@)
}

/// Every resolved edge of every node names a package.
pub open spec fn dep_ids_resolve(ps: Seq<PackageRecord>, nodes: Seq<ResolveNode>) -> bool {
    forall|k: int, d: int|
        0 <= k < nodes.len() && 0 <= d < nodes[k].dep_ids@.len() ==> has_pkg_id(
            ps,
            (#[trigger] nodes[k].dep_ids@[d])@,
        )
}

/// What the graph builder guarantees of its result: one row per
/// package, and each row equal to the filtered edges of the last
/// resolution node for that package, or empty when no node names it.
pub open spec fn graph_matches(meta: MetadataIndex, g: DependencyGraph) -> bool {
    &&& g.adj@.len() == meta.packages@.len()
    &&& forall|i: int|
        0 <= i < meta.packages@.len() ==> #[trigger] g.adj@[i]@ == {
            let ln = last_node_index(meta.nodes@, meta.packages@[i].id@);
            if ln >= 0 {
                spec_filtered_edges(
                    meta.packages@,
                    meta.packages@[i],
                    meta.nodes@[ln].dep_ids@,
                )
            } else {
                Seq::<usize>::empty()
            }
        }
}

/// Kind filtering: every edge the graph holds is declared normal by its
/// consumer; an edge declared `dev` or `build` never appears, whatever
/// the resolution step reports.
pub proof fn lemma_kind_filtering(meta: MetadataIndex, g: DependencyGraph, i: int, k: int)
    requires
        graph_matches(meta, g),
        meta.packages@.len() <= usize::MAX,
        0 <= i < meta.packages@.len(),
        0 <= k < g.adj@[i]@.len(),
    ensures
        g.adj@[i]@[k] < meta.packages@.len(),
        declares_normal(meta.packages@[i], meta.packages@[g.adj@[i]@[k] as int].name@),
{
    let ln = last_node_index(meta.nodes@, meta.packages@[i].id@);
    lemma_last_node_index(meta.nodes@, meta.packages@[i].id@);
    lemma_filtered_edges_props(meta.packages@, meta.packages@[i], meta.nodes@[ln].dep_ids@);
}

/// Whether package `p` declares a normal dependency named `name`.
fn pkg_declares_normal(p: &PackageRecord, name: &String) -> (r: bool)
    ensures
        r == declares_normal(*p, name@),
{
    let n = p.dependencies.len();
    let mut i: usize = 0;
    while i < n
        invariant
            n == p.dependencies@.len(),
            i <= n,
            forall|j: int|
                0 <= j < i ==> !dep_is_normal_named(#[trigger] p.dependencies@[j], name@),
        decreases n - i,
    {
        let d = &p.dependencies[i];
        if matches!(d.kind, DepKind::Normal) && d.name == *name {
            proof {
                assert(dep_is_normal_named(p.dependencies@[i as int], name@));
            }
            return true;
        }
        i = i + 1;
    }
    false
}

/// The filtered normal edges of one resolution node, as indices.
fn filter_node_edges(meta: &MetadataIndex, consumer: usize, node: &ResolveNode) -> (r: Result<
    Vec<usize>,
    GraphIntegrityError,
>)
    requires
        meta.wf(),
        consumer < meta.packages@.len(),
    ensures
        match r {
            Ok(v) => {
                &&& v@ == spec_filtered_edges(
                    meta.packages@,
                    meta.packages@[consumer as int],
                    node.dep_ids@,
                )
                &&& forall|d: int|
                    0 <= d < node.dep_ids@.len() ==> has_pkg_id(
                        meta.packages@,
                        (#[trigger] node.dep_ids@[d])@,
                    )
            },
            Err(e) => e == GraphIntegrityError::UnknownId && exists|d: int|
                0 <= d < node.dep_ids@.len() && !has_pkg_id(
                    meta.packages@,
                    (#[trigger] node.dep_ids@[d])@,
                ),
        },
{
    let n = node.dep_ids.len();
    let mut out: Vec<usize> = Vec::new();
    let mut i: usize = 0;
    while i < n
        invariant
            meta.wf(),
            consumer < meta.packages@.len(),
            n == node.dep_ids@.len(),
            i <= n,
            out@ == spec_filtered_edges(
                meta.packages@,
                meta.packages@[consumer as int],
                node.dep_ids@.take(i as int),
            ),
            forall|d: int|
                0 <= d < i ==> has_pkg_id(meta.packages@, (#[trigger] node.dep_ids@[d])@),
        decreases n - i,
    {
        let ghost ids = node.dep_ids@;
        proof {
            assert(ids.take(i as int + 1).drop_last() =~= ids.take(i as int));
            assert(ids.take(i as int + 1).last() == ids[i as int]);
        }
        match meta.find_package_by_id(&node.dep_ids[i]) {
            Some(e) => {
                proof {
                    crate::graph::lemma_pkg_index_unique(meta.packages@, e as int);
                }
                if pkg_declares_normal(&meta.packages[consumer], &meta.packages[e].name) {
                    out.push(e);
                }
            },
            None => {
                proof {
                    assert(!has_pkg_id(meta.packages@, ids[i as int]@));
                }
                return Err(GraphIntegrityError::UnknownId);
            },
        }
        i = i + 1;
    }
    proof {
        assert(node.dep_ids@.take(n as int) =~= node.dep_ids@);
    }
    Ok(out)
}

/// Builds the normal-dependency graph: for every resolution node whose
/// package is known, keep exactly the resolved edges whose target the
/// consumer declares as a normal dependency. An unknown node id or edge
/// id is a data-integrity error.
pub fn build_normal_dependency_graph(meta: &MetadataIndex) -> (r: Result<
    DependencyGraph,
    GraphIntegrityError,
>)
    requires
        meta.wf(),
    ensures
        r is Ok <==> node_ids_resolve(meta.packages@, meta.nodes@) && dep_ids_resolve(
            meta.packages@,
            meta.nodes@,
        ),
        r is Ok ==> graph_matches(*meta, r.unwrap()) && r.unwrap().wf(meta.packages@.len() as int),
{
    let npkg = meta.packages.len();
    let nnodes = meta.nodes.len();
    let mut adj: Vec<Vec<usize>> = Vec::new();
    let mut i: usize = 0;
    while i < npkg
        invariant
            i <= npkg,
            adj@.len() == i,
            forall|a: int| 0 <= a < i ==> (#[trigger] adj@[a])@.len() == 0,
        decreases npkg - i,
    {
        adj.push(Vec::new());
        i = i + 1;
    }
    let mut k: usize = 0;
    while k < nnodes
        invariant
            meta.wf(),
            npkg == meta.packages@.len(),
            nnodes == meta.nodes@.len(),
            k <= nnodes,
            adj@.len() == npkg,
            forall|a: int|
                0 <= a < k ==> has_pkg_id(meta.packages@, (#[trigger] meta.nodes@[a]).id@),
            forall|a: int, d: int|
                0 <= a < k && 0 <= d < meta.nodes@[a].dep_ids@.len() ==> has_pkg_id(
                    meta.packages@,
                    (#[trigger] meta.nodes@[a].dep_ids@[d])@,
                ),
            forall|p: int|
                0 <= p < npkg ==> #[trigger] adj@[p]@ == {
                    let ln = last_node_index(meta.nodes@.take(k as int), meta.packages@[p].id@);
                    if ln >= 0 {
                        spec_filtered_edges(
                            meta.packages@,
                            meta.packages@[p],
                            meta.nodes@[ln].dep_ids@,
                        )
                    } else {
                        Seq::<usize>::empty()
                    }
                },
        decreases nnodes - k,
    {
        let ghost nodes_seq = meta.nodes@;
        proof {
            assert(nodes_seq.take(k as int + 1).drop_last() =~= nodes_seq.take(k as int));
            assert(nodes_seq.take(k as int + 1).last() == nodes_seq[k as int]);
        }
        let node = &meta.nodes[k];
        match meta.find_package_by_id(&node.id) {
            Some(c) => {
                match filter_node_edges(meta, c, node) {
                    Ok(edges) => {
                        let ghost pre = adj@;
                        adj.set(c, edges);
                        proof {
                            lemma_pkg_index_unique(meta.packages@, c as int);
                            assert forall|p: int| 0 <= p < npkg implies #[trigger] adj@[p]@ == {
                                let ln = last_node_index(
                                    nodes_seq.take(k as int + 1),
                                    meta.packages@[p].id@,
                                );
                                if ln >= 0 {
                                    spec_filtered_edges(
                                        meta.packages@,
                                        meta.packages@[p],
                                        nodes_seq[ln].dep_ids@,
                                    )
                                } else {
                                    Seq::<usize>::empty()
                                }
                            } by {
                                if p == c as int {
                                    assert(nodes_seq[k as int].id@ == meta.packages@[p].id@);
                                    assert(last_node_index(
                                        nodes_seq.take(k as int + 1),
                                        meta.packages@[p].id@,
                                    ) == k as int);
                                } else {
                                    assert(adj@[p]@ == pre[p]@);
                                    if nodes_seq[k as int].id@ == meta.packages@[p].id@ {
                                        lemma_pkg_index_unique(meta.packages@, p);
                                        assert(false);
                                    }
                                }
                            }
                        }
                    },
                    Err(e) => {
                        proof {
                            let d = choose|d: int|
                                0 <= d < node.dep_ids@.len() && !has_pkg_id(
                                    meta.packages@,
                                    (#[trigger] node.dep_ids@[d])@,
                                );
                            assert(meta.nodes@[k as int].dep_ids@[d] == node.dep_ids@[d]);
                            assert(!dep_ids_resolve(meta.packages@, meta.nodes@));
                        }
                        return Err(e);
                    },
                }
            },
            None => {
                proof {
                    assert(!has_pkg_id(meta.packages@, nodes_seq[k as int].id@));
                    assert(!node_ids_resolve(meta.packages@, meta.nodes@));
                }
                return Err(GraphIntegrityError::UnknownId);
            },
        }
        k = k + 1;
    }
    let g = DependencyGraph { adj };
    proof {
        assert(meta.nodes@.take(nnodes as int) =~= meta.nodes@);
        assert forall|p: int, e: int|
            0 <= p < npkg && 0 <= e < g.adj@[p]@.len() implies #[trigger] g.adj@[p]@[e]
            < npkg by {
            let ln = last_node_index(meta.nodes@, meta.packages@[p].id@);
            lemma_last_node_index(meta.nodes@, meta.packages@[p].id@);
            if ln >= 0 {
                lemma_filtered_edges_props(
                    meta.packages@,
                    meta.packages@[p],
                    meta.nodes@[ln].dep_ids@,
                );
            }
        }
    }
    Ok(g)
}

} // verus!
