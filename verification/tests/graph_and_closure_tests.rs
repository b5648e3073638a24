use doc_md::closure::transitive_closure;
use doc_md::graph::{build_normal_dependency_graph, GraphIntegrityError};
use doc_md::metadata::{
    DeclaredDependency, DepKind, MetadataIndex, PackageRecord, RawMetadata, ResolveNode,
};

fn pkg(id: &str, name: &str, version: &str, normal_deps: &[&str]) -> PackageRecord {
    pkg_kinds(
        id,
        name,
        version,
        &normal_deps
            .iter()
            .map(|n| (*n, DepKind::Normal))
            .collect::<Vec<_>>(),
    )
}

fn pkg_kinds(id: &str, name: &str, version: &str, deps: &[(&str, DepKind)]) -> PackageRecord {
    PackageRecord {
        id: id.to_string(),
        name: name.to_string(),
        version: version.to_string(),
        dependencies: deps
            .iter()
            .map(|(n, k)| DeclaredDependency {
                name: n.to_string(),
                kind: *k,
            })
            .collect(),
        targets: Vec::new(),
    }
}

fn node(id: &str, dep_ids: &[&str]) -> ResolveNode {
    ResolveNode {
        id: id.to_string(),
        dep_ids: dep_ids.iter().map(|d| d.to_string()).collect(),
    }
}

fn index(packages: Vec<PackageRecord>, nodes: Vec<ResolveNode>) -> MetadataIndex {
    MetadataIndex::new(RawMetadata {
        packages: Some(packages),
        root_id: None,
        nodes: Some(nodes),
        workspace_member_ids: None,
        target_directory: None,
    })
    .unwrap()
}

fn sorted_pairs(entries: &[doc_md::deps::Dependency]) -> Vec<(String, String)> {
    let mut v: Vec<(String, String)> = entries
        .iter()
        .map(|d| (d.name.clone(), d.version.clone()))
        .collect();
    v.sort();
    v
}

#[test]
fn dev_and_build_edges_are_filtered_out() {
    // root resolves edges to all three, but declares only foo as normal
    let meta = index(
        vec![
            pkg_kinds(
                "root 1",
                "root",
                "1.0.0",
                &[
                    ("foo", DepKind::Normal),
                    ("devdep", DepKind::Dev),
                    ("builddep", DepKind::Build),
                ],
            ),
            pkg("foo 1", "foo", "1.0.0", &[]),
            pkg("dev 1", "devdep", "1.0.0", &[]),
            pkg("build 1", "builddep", "1.0.0", &[]),
        ],
        vec![
            node("root 1", &["foo 1", "dev 1", "build 1"]),
            node("foo 1", &[]),
            node("dev 1", &[]),
            node("build 1", &[]),
        ],
    );
    let g = build_normal_dependency_graph(&meta).unwrap();
    assert_eq!(g.adj[0], vec![1]);
    assert!(g.adj[1].is_empty());
}

#[test]
fn declared_but_unresolved_edges_do_not_appear() {
    // root declares bar as normal, but the resolution step reports no
    // edge to it: the declared-kind and resolved-edge filters intersect
    let meta = index(
        vec![
            pkg("root 1", "root", "1.0.0", &["foo", "bar"]),
            pkg("foo 1", "foo", "1.0.0", &[]),
            pkg("bar 1", "bar", "1.0.0", &[]),
        ],
        vec![node("root 1", &["foo 1"]), node("foo 1", &[]), node("bar 1", &[])],
    );
    let g = build_normal_dependency_graph(&meta).unwrap();
    assert_eq!(g.adj[0], vec![1]);
}

#[test]
fn unknown_ids_are_integrity_errors() {
    let meta = index(
        vec![pkg("root 1", "root", "1.0.0", &["foo"])],
        vec![node("root 1", &["ghost 1"])],
    );
    assert!(matches!(
        build_normal_dependency_graph(&meta),
        Err(GraphIntegrityError::UnknownId)
    ));

    let meta = index(
        vec![pkg("root 1", "root", "1.0.0", &[])],
        vec![node("ghost 1", &[])],
    );
    assert!(matches!(
        build_normal_dependency_graph(&meta),
        Err(GraphIntegrityError::UnknownId)
    ));
}

#[test]
fn package_without_node_has_no_edges() {
    let meta = index(
        vec![pkg("a 1", "a", "1.0.0", &["b"]), pkg("b 1", "b", "1.0.0", &[])],
        vec![node("b 1", &[])],
    );
    let g = build_normal_dependency_graph(&meta).unwrap();
    assert!(g.adj[0].is_empty());
    assert!(g.adj[1].is_empty());
}

#[test]
fn closure_of_linear_chain() {
    // the worked example: root -> foo -> bar, empty exclusion set
    let meta = index(
        vec![
            pkg("root 1", "root", "0.1.0", &["foo"]),
            pkg("foo 1", "foo", "1.2.3", &["bar"]),
            pkg("bar 1", "bar", "4.5.6", &[]),
        ],
        vec![
            node("root 1", &["foo 1"]),
            node("foo 1", &["bar 1"]),
            node("bar 1", &[]),
        ],
    );
    let g = build_normal_dependency_graph(&meta).unwrap();
    let c = transitive_closure(&meta, &g, 0, &Vec::new());
    assert_eq!(
        sorted_pairs(&c.deps.entries),
        vec![
            ("bar".to_string(), "4.5.6".to_string()),
            ("foo".to_string(), "1.2.3".to_string()),
        ]
    );
}

#[test]
fn closure_visits_cycles_once_and_terminates() {
    // a -> b -> c -> a: a cycle reachable from the root
    let meta = index(
        vec![
            pkg("a 1", "a", "1.0.0", &["b"]),
            pkg("b 1", "b", "1.0.0", &["c"]),
            pkg("c 1", "c", "1.0.0", &["a"]),
        ],
        vec![
            node("a 1", &["b 1"]),
            node("b 1", &["c 1"]),
            node("c 1", &["a 1"]),
        ],
    );
    let g = build_normal_dependency_graph(&meta).unwrap();
    let c = transitive_closure(&meta, &g, 0, &Vec::new());
    // each id expanded at most once
    let mut seen = c.expanded.clone();
    seen.sort();
    let before = seen.len();
    seen.dedup();
    assert_eq!(seen.len(), before);
    // the root is a starting point, never a dependency of itself
    assert_eq!(
        sorted_pairs(&c.deps.entries),
        vec![
            ("b".to_string(), "1.0.0".to_string()),
            ("c".to_string(), "1.0.0".to_string()),
        ]
    );
}

#[test]
fn excluded_ids_are_dropped_entirely() {
    // root -> w -> x: excluding w drops the edge into it, so x is
    // unreachable even though x itself is not excluded
    let meta = index(
        vec![
            pkg("root 1", "root", "1.0.0", &["w"]),
            pkg("w 1", "w", "1.0.0", &["x"]),
            pkg("x 1", "x", "1.0.0", &[]),
        ],
        vec![
            node("root 1", &["w 1"]),
            node("w 1", &["x 1"]),
            node("x 1", &[]),
        ],
    );
    let g = build_normal_dependency_graph(&meta).unwrap();
    let c = transitive_closure(&meta, &g, 0, &vec![1]);
    assert!(c.deps.entries.is_empty());
    // excluding only x keeps w
    let c = transitive_closure(&meta, &g, 0, &vec![2]);
    assert_eq!(
        sorted_pairs(&c.deps.entries),
        vec![("w".to_string(), "1.0.0".to_string())]
    );
}

#[test]
fn closure_deduplicates_by_name() {
    // two versions of dup are reachable; only one survives
    let meta = index(
        vec![
            pkg("root 1", "root", "1.0.0", &["a", "b"]),
            pkg("a 1", "a", "1.0.0", &["dup"]),
            pkg("b 1", "b", "1.0.0", &["dup"]),
            pkg("dup 1", "dup", "1.0.0", &[]),
            pkg("dup 2", "dup", "2.0.0", &[]),
        ],
        vec![
            node("root 1", &["a 1", "b 1"]),
            node("a 1", &["dup 1"]),
            node("b 1", &["dup 2"]),
            node("dup 1", &[]),
            node("dup 2", &[]),
        ],
    );
    let g = build_normal_dependency_graph(&meta).unwrap();
    let c = transitive_closure(&meta, &g, 0, &Vec::new());
    let dups: Vec<&doc_md::deps::Dependency> = c
        .deps
        .entries
        .iter()
        .filter(|d| d.name == "dup")
        .collect();
    assert_eq!(dups.len(), 1);
    assert_eq!(c.deps.entries.len(), 3);
}
