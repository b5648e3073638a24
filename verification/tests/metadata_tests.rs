use doc_md::deps::Dependency;
use doc_md::metadata::{
    get_lib_target_name, json_file_name, library_artifact_name, BuildTarget, DeclaredDependency,
    MetadataIndex, MetadataShapeError, PackageLookupError, PackageRecord, RawMetadata,
    ResolveNode, WorkspaceError,
};

fn pkg(id: &str, name: &str, version: &str) -> PackageRecord {
    PackageRecord {
        id: id.to_string(),
        name: name.to_string(),
        version: version.to_string(),
        dependencies: Vec::new(),
        targets: Vec::new(),
    }
}

fn pkg_with(
    id: &str,
    name: &str,
    version: &str,
    dependencies: Vec<DeclaredDependency>,
    targets: Vec<BuildTarget>,
) -> PackageRecord {
    PackageRecord {
        id: id.to_string(),
        name: name.to_string(),
        version: version.to_string(),
        dependencies,
        targets,
    }
}

fn raw(packages: Vec<PackageRecord>, nodes: Vec<ResolveNode>) -> RawMetadata {
    RawMetadata {
        packages: Some(packages),
        root_id: None,
        nodes: Some(nodes),
        workspace_member_ids: None,
        target_directory: None,
    }
}

#[test]
fn missing_packages_is_fatal() {
    let r = MetadataIndex::new(RawMetadata {
        packages: None,
        root_id: None,
        nodes: Some(Vec::new()),
        workspace_member_ids: None,
        target_directory: None,
    });
    assert!(matches!(r, Err(MetadataShapeError::MissingPackages)));
}

#[test]
fn missing_nodes_is_fatal() {
    let r = MetadataIndex::new(RawMetadata {
        packages: Some(vec![pkg("a 1", "a", "1.0.0")]),
        root_id: None,
        nodes: None,
        workspace_member_ids: None,
        target_directory: None,
    });
    assert!(matches!(r, Err(MetadataShapeError::MissingResolveNodes)));
}

#[test]
fn duplicate_package_id_is_fatal() {
    let r = MetadataIndex::new(raw(
        vec![pkg("same", "a", "1.0.0"), pkg("same", "b", "2.0.0")],
        Vec::new(),
    ));
    assert!(matches!(r, Err(MetadataShapeError::DuplicatePackageId)));
}

#[test]
fn unknown_root_is_fatal() {
    let mut m = raw(vec![pkg("a 1", "a", "1.0.0")], Vec::new());
    m.root_id = Some("ghost".to_string());
    let r = MetadataIndex::new(m);
    assert!(matches!(r, Err(MetadataShapeError::RootNotInPackages)));
}

#[test]
fn ingestion_defaults() {
    let meta = MetadataIndex::new(raw(vec![pkg("a 1", "a", "1.0.0")], Vec::new())).unwrap();
    assert_eq!(meta.target_directory, "target");
    assert!(meta.workspace_member_ids.is_empty());
    assert!(meta.root.is_none());

    let mut m = raw(vec![pkg("a 1", "a", "1.0.0")], Vec::new());
    m.root_id = Some("a 1".to_string());
    m.target_directory = Some("build/out".to_string());
    m.workspace_member_ids = Some(vec!["a 1".to_string()]);
    let meta = MetadataIndex::new(m).unwrap();
    assert_eq!(meta.root, Some(0));
    assert_eq!(meta.target_directory, "build/out");
    assert_eq!(meta.workspace_member_ids, vec!["a 1".to_string()]);
}

#[test]
fn package_lookup() {
    let meta = MetadataIndex::new(raw(
        vec![
            pkg("a 1", "alpha", "1.0.0"),
            pkg("a 2", "alpha", "2.0.0"),
            pkg("b 1", "beta", "0.3.0"),
        ],
        Vec::new(),
    ))
    .unwrap();
    assert_eq!(meta.find_package_by_id(&"b 1".to_string()), Some(2));
    assert_eq!(meta.find_package_by_id(&"nope".to_string()), None);
    // first match by name decides
    assert_eq!(meta.find_package_by_name(&"alpha".to_string()), Some(0));
    assert_eq!(
        meta.get_package_id(&"alpha".to_string(), &"2.0.0".to_string()),
        Ok("a 2".to_string())
    );
    assert_eq!(
        meta.get_package_id(&"alpha".to_string(), &"9.9.9".to_string()),
        Err(PackageLookupError::NotFound)
    );
}

#[test]
fn lib_target_name_resolution() {
    let with_lib = pkg_with(
        "c 1",
        "my-crate",
        "1.0.0",
        Vec::new(),
        vec![
            BuildTarget {
                name: "my-crate-bin".to_string(),
                kinds: vec!["bin".to_string()],
            },
            BuildTarget {
                name: "my_crate_lib".to_string(),
                kinds: vec!["lib".to_string()],
            },
        ],
    );
    assert_eq!(
        get_lib_target_name(&with_lib),
        Some("my_crate_lib".to_string())
    );
    assert_eq!(library_artifact_name(&with_lib), "my_crate_lib");

    let no_lib = pkg_with(
        "d 1",
        "bin-only",
        "1.0.0",
        Vec::new(),
        vec![BuildTarget {
            name: "bin-only".to_string(),
            kinds: vec!["bin".to_string()],
        }],
    );
    assert_eq!(get_lib_target_name(&no_lib), None);
    // falls back to the normalized package name
    assert_eq!(library_artifact_name(&no_lib), "bin_only");
}

#[test]
fn dependency_artifact_name() {
    let meta = MetadataIndex::new(raw(
        vec![pkg_with(
            "t 1",
            "tricky-name",
            "1.0.0",
            Vec::new(),
            vec![BuildTarget {
                name: "other_lib".to_string(),
                kinds: vec!["lib".to_string()],
            }],
        )],
        Vec::new(),
    ))
    .unwrap();
    // empty version matches any version
    let dep = Dependency {
        name: "tricky-name".to_string(),
        version: String::new(),
    };
    assert_eq!(meta.artifact_name_for_dependency(&dep), "other_lib");
    // unknown package: normalized request name
    let unknown = Dependency {
        name: "not-there".to_string(),
        version: String::new(),
    };
    assert_eq!(meta.artifact_name_for_dependency(&unknown), "not_there");
}

#[test]
fn json_file_names() {
    assert_eq!(json_file_name(&"serde".to_string()), "serde.json");
    assert_eq!(json_file_name(&"".to_string()), ".json");
}

#[test]
fn workspace_members_sorted() {
    let mut m = raw(
        vec![
            pkg("z 1", "zeta", "1.0.0"),
            pkg("a 1", "alpha", "2.0.0"),
            pkg("m 1", "mid", "0.1.0"),
        ],
        Vec::new(),
    );
    m.workspace_member_ids = Some(vec![
        "z 1".to_string(),
        "m 1".to_string(),
        "ghost".to_string(),
        "a 1".to_string(),
    ]);
    let meta = MetadataIndex::new(m).unwrap();
    let members = meta.get_workspace_members().unwrap();
    let names: Vec<String> = members.iter().map(|d| d.name.clone()).collect();
    // unknown ids are skipped, the rest come sorted by name
    assert_eq!(names, vec!["alpha", "mid", "zeta"]);
    assert_eq!(members[0].version, "2.0.0");
}

#[test]
fn workspace_without_members_is_an_error() {
    let meta = MetadataIndex::new(raw(vec![pkg("a 1", "a", "1.0.0")], Vec::new())).unwrap();
    assert!(matches!(
        meta.get_workspace_members(),
        Err(WorkspaceError::NoMembers)
    ));
}
