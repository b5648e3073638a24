use doc_md::deps::Dependency;
use doc_md::metadata::{
    DeclaredDependency, DepKind, MetadataIndex, PackageRecord, RawMetadata, ResolveNode,
};
use doc_md::graph::build_normal_dependency_graph;
use doc_md::orchestrator::{
    classify_outcome, documented_names, get_all_dependencies, package_spec, plan_dependency_pass,
    record_target_outcome, resolve_current_crate, resolve_explicit_target, resolve_member_target,
    summary_counts, ConverterReport, CurrentCrateError, Outcome, OutcomeRecord,
};

fn pkg(id: &str, name: &str, version: &str, normal_deps: &[&str]) -> PackageRecord {
    PackageRecord {
        id: id.to_string(),
        name: name.to_string(),
        version: version.to_string(),
        dependencies: normal_deps
            .iter()
            .map(|n| DeclaredDependency {
                name: n.to_string(),
                kind: DepKind::Normal,
            })
            .collect(),
        targets: Vec::new(),
    }
}

fn node(id: &str, dep_ids: &[&str]) -> ResolveNode {
    ResolveNode {
        id: id.to_string(),
        dep_ids: dep_ids.iter().map(|d| d.to_string()).collect(),
    }
}

fn index(
    packages: Vec<PackageRecord>,
    nodes: Vec<ResolveNode>,
    root_id: Option<&str>,
) -> MetadataIndex {
    MetadataIndex::new(RawMetadata {
        packages: Some(packages),
        root_id: root_id.map(|r| r.to_string()),
        nodes: Some(nodes),
        workspace_member_ids: None,
        target_directory: None,
    })
    .unwrap()
}

#[test]
fn classification_is_exact() {
    let r = classify_outcome("a".to_string(), ConverterReport::Success);
    assert!(matches!(r.outcome, Outcome::Documented));
    let r = classify_outcome("b".to_string(), ConverterReport::Skip("no lib".to_string()));
    assert!(matches!(r.outcome, Outcome::Skipped(ref s) if s == "no lib"));
    let r = classify_outcome("c".to_string(), ConverterReport::Failure("boom".to_string()));
    assert!(matches!(r.outcome, Outcome::Failed(ref s) if s == "boom"));
    assert_eq!(r.name, "c");
}

#[test]
fn three_targets_continue_past_a_failure() {
    // target 2 fails; targets 1 and 3 still reach their terminal states
    let mut records: Vec<OutcomeRecord> = Vec::new();
    record_target_outcome(&mut records, "one".to_string(), ConverterReport::Success);
    record_target_outcome(
        &mut records,
        "two".to_string(),
        ConverterReport::Failure("build failed".to_string()),
    );
    record_target_outcome(&mut records, "three".to_string(), ConverterReport::Success);
    assert_eq!(records.len(), 3);
    assert!(matches!(records[0].outcome, Outcome::Documented));
    assert!(matches!(records[1].outcome, Outcome::Failed(_)));
    assert!(matches!(records[2].outcome, Outcome::Documented));
    let (d, s, f) = summary_counts(&records);
    assert_eq!((d, s, f), (2, 0, 1));
}

#[test]
fn documented_names_reflect_only_documented_records() {
    let mut records: Vec<OutcomeRecord> = Vec::new();
    record_target_outcome(&mut records, "A".to_string(), ConverterReport::Success);
    record_target_outcome(
        &mut records,
        "B".to_string(),
        ConverterReport::Skip("binary only".to_string()),
    );
    record_target_outcome(
        &mut records,
        "C".to_string(),
        ConverterReport::Failure("error".to_string()),
    );
    assert_eq!(documented_names(&records), vec!["A".to_string()]);
}

#[test]
fn summary_counts_tally_every_kind() {
    let mut records: Vec<OutcomeRecord> = Vec::new();
    assert_eq!(summary_counts(&records), (0, 0, 0));
    record_target_outcome(&mut records, "a".to_string(), ConverterReport::Success);
    record_target_outcome(
        &mut records,
        "b".to_string(),
        ConverterReport::Skip("r".to_string()),
    );
    record_target_outcome(
        &mut records,
        "c".to_string(),
        ConverterReport::Skip("r".to_string()),
    );
    record_target_outcome(
        &mut records,
        "d".to_string(),
        ConverterReport::Failure("m".to_string()),
    );
    assert_eq!(summary_counts(&records), (1, 2, 1));
}

#[test]
fn explicit_targets_resolve_or_stay_name_only() {
    let meta = index(
        vec![pkg("t 1", "tokio", "1.0.0", &[])],
        vec![node("t 1", &[])],
        None,
    );
    let t = resolve_explicit_target(&meta, &"tokio".to_string());
    assert_eq!(t.name, "tokio");
    assert_eq!(t.version, "1.0.0");
    assert_eq!(t.package, Some(0));
    let u = resolve_explicit_target(&meta, &"nonexistent-crate-12345".to_string());
    assert_eq!(u.name, "nonexistent-crate-12345");
    assert_eq!(u.version, "");
    assert_eq!(u.package, None);
}

#[test]
fn member_targets_resolve_by_name_and_version() {
    let meta = index(
        vec![
            pkg("m 1", "member", "1.0.0", &[]),
            pkg("m 2", "member", "2.0.0", &[]),
        ],
        Vec::new(),
        None,
    );
    let t = resolve_member_target(
        &meta,
        &Dependency {
            name: "member".to_string(),
            version: "2.0.0".to_string(),
        },
    );
    assert_eq!(t.package, Some(1));
    let u = resolve_member_target(
        &meta,
        &Dependency {
            name: "member".to_string(),
            version: "3.0.0".to_string(),
        },
    );
    assert_eq!(u.package, None);
}

#[test]
fn package_specs_carry_versions() {
    let with_version = Dependency {
        name: "serde".to_string(),
        version: "1.0.200".to_string(),
    };
    assert_eq!(package_spec(&with_version), "serde@1.0.200");
    let name_only = Dependency {
        name: "serde".to_string(),
        version: String::new(),
    };
    assert_eq!(package_spec(&name_only), "serde");
}

#[test]
fn current_crate_resolution() {
    let meta = index(
        vec![pkg("r 1", "my-root", "0.1.0", &[])],
        vec![node("r 1", &[])],
        Some("r 1"),
    );
    let c = resolve_current_crate(&meta).unwrap();
    assert_eq!(c.name, "my-root");
    assert_eq!(c.artifact_name, "my_root");
    assert_eq!(c.package, 0);

    let virtual_ws = index(vec![pkg("a 1", "a", "1.0.0", &[])], Vec::new(), None);
    assert!(matches!(
        resolve_current_crate(&virtual_ws),
        Err(CurrentCrateError::NoRootPackage)
    ));
}

#[test]
fn dependency_pass_documents_shared_dependency_once() {
    // two targets, both depending (one transitively) on shared
    let meta = index(
        vec![
            pkg("t1 1", "target-one", "1.0.0", &["middle"]),
            pkg("t2 1", "target-two", "1.0.0", &["shared"]),
            pkg("mid 1", "middle", "1.0.0", &["shared"]),
            pkg("sh 1", "shared", "3.1.4", &[]),
        ],
        vec![
            node("t1 1", &["mid 1"]),
            node("t2 1", &["sh 1"]),
            node("mid 1", &["sh 1"]),
            node("sh 1", &[]),
        ],
        None,
    );
    let g = build_normal_dependency_graph(&meta).unwrap();
    let plan = plan_dependency_pass(&meta, &g, &vec![0, 1], &Vec::new(), &Vec::new());
    let shared: Vec<&Dependency> = plan.iter().filter(|d| d.name == "shared").collect();
    assert_eq!(shared.len(), 1);
    assert_eq!(shared[0].version, "3.1.4");
    // sorted by name, deduplicated
    let names: Vec<String> = plan.iter().map(|d| d.name.clone()).collect();
    assert_eq!(names, vec!["middle".to_string(), "shared".to_string()]);
}

#[test]
fn dependency_pass_respects_exclusions_and_skips() {
    // sibling is a same-pass target: excluded by id and skipped by name
    let meta = index(
        vec![
            pkg("a 1", "alpha", "1.0.0", &["beta", "gamma"]),
            pkg("b 1", "beta", "1.0.0", &["gamma"]),
            pkg("g 1", "gamma", "2.0.0", &[]),
        ],
        vec![
            node("a 1", &["b 1", "g 1"]),
            node("b 1", &["g 1"]),
            node("g 1", &[]),
        ],
        None,
    );
    let g = build_normal_dependency_graph(&meta).unwrap();
    let plan = plan_dependency_pass(
        &meta,
        &g,
        &vec![0, 1],
        &vec![0, 1],
        &vec!["alpha".to_string(), "beta".to_string()],
    );
    let names: Vec<String> = plan.iter().map(|d| d.name.clone()).collect();
    assert_eq!(names, vec!["gamma".to_string()]);
    assert_eq!(plan[0].version, "2.0.0");
}

#[test]
fn all_dependencies_of_the_current_crate() {
    // root -> member -> ext, root -> ext2; the workspace member is
    // excluded, and the edge into it is dropped entirely, so ext is
    // unreachable; ext2 is kept and the result is sorted
    let meta = MetadataIndex::new(RawMetadata {
        packages: Some(vec![
            pkg("root 1", "root", "0.1.0", &["member", "ext2"]),
            pkg("member 1", "member", "0.1.0", &["ext"]),
            pkg("ext 1", "ext", "1.0.0", &[]),
            pkg("ext2 1", "ext2", "2.0.0", &[]),
        ]),
        root_id: Some("root 1".to_string()),
        nodes: Some(vec![
            node("root 1", &["member 1", "ext2 1"]),
            node("member 1", &["ext 1"]),
            node("ext 1", &[]),
            node("ext2 1", &[]),
        ]),
        workspace_member_ids: Some(vec!["root 1".to_string(), "member 1".to_string()]),
        target_directory: None,
    })
    .unwrap();
    assert_eq!(meta.member_indices(), vec![0, 1]);
    let g = build_normal_dependency_graph(&meta).unwrap();
    let plan = get_all_dependencies(&meta, &g).unwrap();
    let names: Vec<String> = plan.iter().map(|d| d.name.clone()).collect();
    assert_eq!(names, vec!["ext2".to_string()]);
    assert_eq!(plan[0].version, "2.0.0");
}

#[test]
fn all_dependencies_need_a_root_package() {
    let meta = MetadataIndex::new(RawMetadata {
        packages: Some(vec![pkg("a 1", "a", "1.0.0", &[])]),
        root_id: None,
        nodes: Some(vec![node("a 1", &[])]),
        workspace_member_ids: None,
        target_directory: None,
    })
    .unwrap();
    let g = build_normal_dependency_graph(&meta).unwrap();
    assert!(matches!(
        get_all_dependencies(&meta, &g),
        Err(CurrentCrateError::NoRootPackage)
    ));
}
