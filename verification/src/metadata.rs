//! The metadata index: a raw package-dependency document turned into
//! typed lookup tables, validated once at ingestion.

use vstd::prelude::*;
use vstd::string::StringExecFns;
use crate::deps::{Dependency, sort_dependencies, sorted_by_name};
use crate::text::{normalized, normalize_separators};

verus! {

/// The declared kind of a dependency edge. Only `Normal` edges are ever
/// traversed when a dependency closure is resolved.
#[derive(Debug, Clone, Copy, PartialEq, Eq, Structural)]
pub enum DepKind {
    Normal,
    Dev,
    Build,
}

/// One dependency as declared in a package's manifest.
#[derive(Debug)]
pub struct DeclaredDependency {
    pub name: String,
    pub kind: DepKind,
}

/// One build target of a package, with the kind strings the build tool
/// reported for it (a library target carries the kind `"lib"`).
#[derive(Debug)]
pub struct BuildTarget {
    pub name: String,
    pub kinds: Vec<String>,
}

/// One package of the metadata snapshot.
#[derive(Debug)]
pub struct PackageRecord {
    pub id: String,
    pub name: String,
    pub version: String,
    pub dependencies: Vec<DeclaredDependency>,
    pub targets: Vec<BuildTarget>,
}

/// One node of the dependency-resolution section: a package id and the
/// ids of the packages its resolved edges point to.
#[derive(Debug)]
pub struct ResolveNode {
    pub id: String,
    pub dep_ids: Vec<String>,
}

/// A raw metadata document, before validation. Sections that the
/// document may lack are optional here; `MetadataIndex::new` decides
/// which of them are required.
#[derive(Debug)]
pub struct RawMetadata {
    pub packages: Option<Vec<PackageRecord>>,
    pub root_id: Option<String>,
    pub nodes: Option<Vec<ResolveNode>>,
    pub workspace_member_ids: Option<Vec<String>>,
    pub target_directory: Option<String>,
}

/// Fatal shape or integrity errors of the metadata document. All
/// downstream computation depends on the index, so none of these is
/// recoverable.
#[derive(Debug, Clone, Copy, PartialEq, Eq, Structural)]
pub enum MetadataShapeError {
    /// The package list is absent.
    MissingPackages,
    /// The dependency-resolution node list is absent.
    MissingResolveNodes,
    /// Two packages carry the same id; ids must be globally unique
    /// within one snapshot.
    DuplicatePackageId,
    /// The resolution root names an id that no package carries.
    RootNotInPackages,
}

/// Whether some package of `ps` carries the id `id`.
pub open spec fn has_pkg_id(ps: Seq<PackageRecord>, id: Seq<char>) -> bool {
    exists|i: int| 0 <= i < ps.len() && #[trigger] ps[i].id@ == id
}

/// Package ids are pairwise distinct.
pub open spec fn pkg_ids_unique(ps: Seq<PackageRecord>) -> bool {
    forall|i: int, j: int| 0 <= i < j < ps.len() ==> #[trigger] ps[i].id@ != #[trigger] ps[j].id@
}

/// The validated, typed view of one metadata snapshot. Built once per
/// invocation; read-only afterward.
#[derive(Debug)]
pub struct MetadataIndex {
    pub packages: Vec<PackageRecord>,
    /// Index of the root package, when the snapshot has one (a virtual
    /// workspace root has none).
    pub root: Option<usize>,
    pub nodes: Vec<ResolveNode>,
    pub workspace_member_ids: Vec<String>,
    pub target_directory: String,
}

impl MetadataIndex {
    /// Well-formedness: unique package ids, and a root index in range
    /// that carries the root id.
    pub open spec fn wf(self) -> bool {
        &&& pkg_ids_unique(self.packages@)
        &&& match self.root {
            Some(i) => i < self.packages@.len(),
            None => true,
        }
    }

    /// Validates a raw document and builds the index.
    ///
    /// The package list and the resolution nodes are required; a missing
    /// workspace-member list means no members, and a missing target
    /// directory falls back to `"target"`. Duplicate package ids and a
    /// root id that matches no package are data-integrity errors, not
    /// silent skips.
    pub fn new(raw: RawMetadata) -> (r: Result<MetadataIndex, MetadataShapeError>)
        ensures
            raw.packages is None ==> r == Result::<MetadataIndex, MetadataShapeError>::Err(
                MetadataShapeError::MissingPackages,
            ),
            raw.packages is Some && raw.nodes is None ==> r == Result::<
                MetadataIndex,
                MetadataShapeError,
            >::Err(MetadataShapeError::MissingResolveNodes),
            raw.packages is Some && raw.nodes is Some && !pkg_ids_unique(raw.packages.unwrap()@)
                ==> r == Result::<MetadataIndex, MetadataShapeError>::Err(
                MetadataShapeError::DuplicatePackageId,
            ),
            raw.packages is Some && raw.nodes is Some && pkg_ids_unique(raw.packages.unwrap()@) && (
            raw.root_id is Some && !has_pkg_id(raw.packages.unwrap()@, raw.root_id.unwrap()@))
                ==> r == Result::<MetadataIndex, MetadataShapeError>::Err(
                MetadataShapeError::RootNotInPackages,
            ),
            r is Ok ==> {
                let m = r.unwrap();
                &&& raw.packages is Some
                &&& raw.nodes is Some
                &&& m.wf()
                &&& m.packages@ == raw.packages.unwrap()@
                &&& m.nodes@ == raw.nodes.unwrap()@
                &&& match raw.root_id {
                    Some(rid) => m.root is Some && m.packages@[m.root.unwrap() as int].id@ == rid@,
                    None => m.root is None,
                }
                &&& m.workspace_member_ids@ == match raw.workspace_member_ids {
                    Some(w) => w@,
                    None => Seq::<String>::empty(),
                }
                &&& m.target_directory@ == match raw.target_directory {
                    Some(t) => t@,
                    None => "target"@,
                }
            },
            r is Ok <==> raw.packages is Some && raw.nodes is Some && pkg_ids_unique(
                raw.packages.unwrap()@,
            ) && (raw.root_id is Some ==> has_pkg_id(
                raw.packages.unwrap()@,
                raw.root_id.unwrap()@,
            )),
    {
        let packages = match raw.packages {
            Some(p) => p,
            None => {
                return Err(MetadataShapeError::MissingPackages);
            },
        };
        let nodes = match raw.nodes {
            Some(n) => n,
            None => {
                return Err(MetadataShapeError::MissingResolveNodes);
            },
        };
        let n = packages.len();
        let mut i: usize = 0;
        while i < n
            invariant
                raw.packages == Some(packages),
                raw.nodes is Some,
                n == packages@.len(),
                i <= n,
                forall|a: int, b: int|
                    0 <= a < b < i ==> #[trigger] packages@[a].id@ != #[trigger] packages@[b].id@,
            decreases n - i,
        {
            let mut j: usize = 0;
            while j < i
                invariant
                    raw.packages == Some(packages),
                    raw.nodes is Some,
                    i < n == packages@.len(),
                    j <= i,
                    forall|b: int| 0 <= b < j ==> #[trigger] packages@[b].id@ != packages@[
                        i as int
                    ].id@,
                decreases i - j,
            {
                if packages[j].id == packages[i].id {
                    proof {
                        assert(packages@[j as int].id@ == packages@[i as int].id@);
                        assert(!pkg_ids_unique(packages@));
                    }
                    return Err(MetadataShapeError::DuplicatePackageId);
                }
                j = j + 1;
            }
            i = i + 1;
        }
        let root = match &raw.root_id {
            Some(rid) => {
                match find_pkg_index(&packages, rid) {
                    Some(idx) => Some(idx),
                    None => {
                        return Err(MetadataShapeError::RootNotInPackages);
                    },
                }
            },
            None => None,
        };
        let workspace_member_ids = match raw.workspace_member_ids {
            Some(w) => w,
            None => Vec::new(),
        };
        let target_directory = match raw.target_directory {
            Some(t) => t,
            None => "target".to_owned(),
        };
        Ok(
            MetadataIndex {
                packages,
                root,
                nodes,
                workspace_member_ids,
                target_directory,
            },
        )
    }

    /// Index of the package carrying `id`, if any.
    pub fn find_package_by_id(&self, id: &String) -> (r: Option<usize>)
        ensures
            match r {
                Some(i) => i < self.packages@.len() && self.packages@[i as int].id@ == id@,
                None => !has_pkg_id(self.packages@, id@),
            },
    {
        find_pkg_index(&self.packages, id)
    }

    /// Index of the first package carrying `name`, if any.
    pub fn find_package_by_name(&self, name: &String) -> (r: Option<usize>)
        ensures
            match r {
                Some(i) => {
                    &&& i < self.packages@.len()
                    &&& self.packages@[i as int].name@ == name@
                    &&& forall|j: int| 0 <= j < i ==> #[trigger] self.packages@[j].name@ != name@
                },
                None => forall|j: int|
                    0 <= j < self.packages@.len() ==> #[trigger] self.packages@[j].name@ != name@,
            },
    {
        let n = self.packages.len();
        let mut i: usize = 0;
        while i < n
            invariant
                n == self.packages@.len(),
                i <= n,
                forall|j: int| 0 <= j < i ==> #[trigger] self.packages@[j].name@ != name@,
            decreases n - i,
        {
            if self.packages[i].name == *name {
                return Some(i);
            }
            i = i + 1;
        }
        None
    }

    /// The id of the package carrying `name` at `version`, if any; the
    /// first such package decides when several match.
    pub fn get_package_id(&self, name: &String, version: &String) -> (r: Result<
        String,
        PackageLookupError,
    >)
        ensures
            r is Ok <==> exists|i: int|
                0 <= i < self.packages@.len() && #[trigger] matches_name_version(
                    self.packages@[i],
                    name@,
                    version@,
                ),
            r is Ok ==> exists|i: int|
                {
                    &&& 0 <= i < self.packages@.len()
                    &&& #[trigger] matches_name_version(self.packages@[i], name@, version@)
                    &&& forall|j: int|
                        0 <= j < i ==> !#[trigger] matches_name_version(
                            self.packages@[j],
                            name@,
                            version@,
                        )
                    &&& r.unwrap()@ == self.packages@[i].id@
                },
    {
        let n = self.packages.len();
        let mut i: usize = 0;
        while i < n
            invariant
                n == self.packages@.len(),
                i <= n,
                forall|j: int|
                    0 <= j < i ==> !#[trigger] matches_name_version(
                        self.packages@[j],
                        name@,
                        version@,
                    ),
            decreases n - i,
        {
            if self.packages[i].name == *name && self.packages[i].version == *version {
                let id = self.packages[i].id.clone();
                proof {
                    assert(matches_name_version(self.packages@[i as int], name@, version@));
                }
                return Ok(id);
            }
            i = i + 1;
        }
        Err(PackageLookupError::NotFound)
    }

    /// The workspace members as (name, version) pairs, sorted by name.
    /// Member ids that match no package are left out; an empty member
    /// list is an error, since a run over workspace members would have
    /// nothing to do.
    pub fn get_workspace_members(&self) -> (r: Result<Vec<Dependency>, WorkspaceError>)
        requires
            self.wf(),
        ensures
            r is Err <==> self.workspace_member_ids@.len() == 0,
            r is Ok ==> sorted_by_name(r.unwrap()@),
            r is Ok ==> r.unwrap()@.to_multiset() == spec_resolved_members(
                self.packages@,
                self.workspace_member_ids@,
            ).to_multiset(),
    {
        if self.workspace_member_ids.len() == 0 {
            return Err(WorkspaceError::NoMembers);
        }
        let n = self.workspace_member_ids.len();
        let mut members: Vec<Dependency> = Vec::new();
        let mut i: usize = 0;
        while i < n
            invariant
                pkg_ids_unique(self.packages@),
                n == self.workspace_member_ids@.len(),
                i <= n,
                members@ == spec_resolved_members(
                    self.packages@,
                    self.workspace_member_ids@.take(i as int),
                ),
            decreases n - i,
        {
            let ghost pre = members@;
            match find_pkg_index(&self.packages, &self.workspace_member_ids[i]) {
                Some(p) => {
                    members.push(
                        Dependency {
                            name: self.packages[p].name.clone(),
                            version: self.packages[p].version.clone(),
                        },
                    );
                    proof {
                        let ids = self.workspace_member_ids@;
                        assert(ids.take(i as int + 1).drop_last() =~= ids.take(i as int));
                        assert(ids.take(i as int + 1).last() == ids[i as int]);
                        let wit = choose|w: int|
                            0 <= w < self.packages@.len() && #[trigger] self.packages@[w].id@
                                == ids[i as int]@;
                        assert(self.packages@[wit].id@ == self.packages@[p as int].id@);
                        if wit != p as int {
                            assert(false);
                        }
                    }
                },
                None => {
                    proof {
                        let ids = self.workspace_member_ids@;
                        assert(ids.take(i as int + 1).drop_last() =~= ids.take(i as int));
                        assert(ids.take(i as int + 1).last() == ids[i as int]);
                    }
                },
            }
            i = i + 1;
        }
        proof {
            assert(self.workspace_member_ids@.take(n as int) =~= self.workspace_member_ids@);
        }
        Ok(sort_dependencies(members))
    }
}

/// Lookup failure: no package carries the requested name and version.
#[derive(Debug, Clone, Copy, PartialEq, Eq, Structural)]
pub enum PackageLookupError {
    NotFound,
}

/// The workspace has no members, so a members run has nothing to do.
#[derive(Debug, Clone, Copy, PartialEq, Eq, Structural)]
pub enum WorkspaceError {
    NoMembers,
}

/// Whether `p` carries exactly this name and version.
pub open spec fn matches_name_version(p: PackageRecord, name: Seq<char>, version: Seq<char>) -> bool {
    p.name@ == name && p.version@ == version
}

/// The members resolved from `ids`, in id-list order, skipping ids that
/// match no package; under unique ids the matching package is unambiguous.
pub open spec fn spec_resolved_members(ps: Seq<PackageRecord>, ids: Seq<String>) -> Seq<Dependency>
    decreases ids.len(),
{
    if ids.len() == 0 {
        Seq::empty()
    } else {
        let rest = spec_resolved_members(ps, ids.drop_last());
        if has_pkg_id(ps, ids.last()@) {
            let i = choose|i: int| 0 <= i < ps.len() && #[trigger] ps[i].id@ == ids.last()@;
            rest.push(Dependency { name: ps[i].name, version: ps[i].version })
        } else {
            rest
        }
    }
}

/// Index of the package carrying `id` in `ps`, if any; the first such
/// index is returned, which is the only one when ids are unique.
pub fn find_pkg_index(ps: &Vec<PackageRecord>, id: &String) -> (r: Option<usize>)
    ensures
        match r {
            Some(i) => i < ps@.len() && ps@[i as int].id@ == id@,
            None => !has_pkg_id(ps@, id@),
        },
{
    let n = ps.len();
    let mut i: usize = 0;
    while i < n
        invariant
            n == ps@.len(),
            i <= n,
            forall|j: int| 0 <= j < i ==> #[trigger] ps@[j].id@ != id@,
        decreases n - i,
    {
        if ps[i].id == *id {
            return Some(i);
        }
        i = i + 1;
    }
    None
}

/// Whether `t` is a library target: one of its kind strings is `"lib"`.
pub open spec fn spec_is_lib_target(t: BuildTarget) -> bool {
    exists|k: int| 0 <= k < t.kinds@.len() && #[trigger] t.kinds@[k]@ == "lib"@
}

/// The name of the first library target of `ts`, if any.
pub open spec fn spec_lib_target_name(ts: Seq<BuildTarget>) -> Option<Seq<char>>
    decreases ts.len(),
{
    if ts.len() == 0 {
        None
    } else if spec_is_lib_target(ts[0]) {
        Some(ts[0].name@)
    } else {
        spec_lib_target_name(ts.drop_first())
    }
}

/// The on-disk artifact name of a package: the name of its library
/// target when it has one, the package name with separators normalized
/// otherwise.
pub open spec fn spec_artifact_name(p: PackageRecord) -> Seq<char> {
    match spec_lib_target_name(p.targets@) {
        Some(n) => n,
        None => normalized(p.name@),
    }
}

fn target_is_lib(t: &BuildTarget) -> (r: bool)
    ensures
        r == spec_is_lib_target(*t),
{
    let n = t.kinds.len();
    let lib: String = "lib".to_owned();
    let mut k: usize = 0;
    while k < n
        invariant
            n == t.kinds@.len(),
            k <= n,
            lib@ == "lib"@,
            forall|j: int| 0 <= j < k ==> #[trigger] t.kinds@[j]@ != "lib"@,
        decreases n - k,
    {
        if t.kinds[k] == lib {
            proof {
                assert(t.kinds@[k as int]@ == "lib"@);
            }
            return true;
        }
        k = k + 1;
    }
    false
}

/// The name of the library target of `package`, when it has one; that
/// name may differ from the package name.
pub fn get_lib_target_name(package: &PackageRecord) -> (r: Option<String>)
    ensures
        match r {
            Some(s) => spec_lib_target_name(package.targets@) == Some(s@),
            None => spec_lib_target_name(package.targets@) is None,
        },
{
    let n = package.targets.len();
    let mut i: usize = 0;
    proof {
        assert(package.targets@.skip(0) =~= package.targets@);
    }
    while i < n
        invariant
            n == package.targets@.len(),
            i <= n,
            spec_lib_target_name(package.targets@) == spec_lib_target_name(
                package.targets@.skip(i as int),
            ),
        decreases n - i,
    {
        proof {
            assert(package.targets@.skip(i as int).drop_first() =~= package.targets@.skip(
                i as int + 1,
            ));
            assert(package.targets@.skip(i as int)[0] == package.targets@[i as int]);
        }
        if target_is_lib(&package.targets[i]) {
            return Some(package.targets[i].name.clone());
        }
        i = i + 1;
    }
    proof {
        assert(package.targets@.skip(n as int).len() == 0);
    }
    None
}

/// The artifact name of `package`, as `spec_artifact_name` describes.
pub fn library_artifact_name(package: &PackageRecord) -> (r: String)
    ensures
        r@ == spec_artifact_name(*package),
{
    match get_lib_target_name(package) {
        Some(s) => s,
        None => normalize_separators(package.name.as_str()),
    }
}

/// Whether `p` can stand for a dependency request: the name must
/// match, and the version too unless the request left it empty.
pub open spec fn matches_dependency(p: PackageRecord, name: Seq<char>, version: Seq<char>) -> bool {
    p.name@ == name && (version.len() == 0 || p.version@ == version)
}

impl MetadataIndex {
    /// The artifact name to expect for a documented dependency: the
    /// artifact name of the first package matching the request, or the
    /// normalized dependency name when metadata knows no such package.
    pub fn artifact_name_for_dependency(&self, dep: &Dependency) -> (r: String)
        ensures
            (forall|j: int|
                0 <= j < self.packages@.len() ==> !#[trigger] matches_dependency(
                    self.packages@[j],
                    dep.name@,
                    dep.version@,
                )) ==> r@ == normalized(dep.name@),
            (exists|j: int|
                0 <= j < self.packages@.len() && #[trigger] matches_dependency(
                    self.packages@[j],
                    dep.name@,
                    dep.version@,
                )) ==> exists|i: int|
                {
                    &&& 0 <= i < self.packages@.len()
                    &&& #[trigger] matches_dependency(self.packages@[i], dep.name@, dep.version@)
                    &&& forall|j: int|
                        0 <= j < i ==> !matches_dependency(
                            #[trigger] self.packages@[j],
                            dep.name@,
                            dep.version@,
                        )
                    &&& r@ == spec_artifact_name(self.packages@[i])
                },
    {
        let n = self.packages.len();
        let mut i: usize = 0;
        while i < n
            invariant
                n == self.packages@.len(),
                i <= n,
                forall|j: int|
                    0 <= j < i ==> !matches_dependency(
                        #[trigger] self.packages@[j],
                        dep.name@,
                        dep.version@,
                    ),
            decreases n - i,
        {
            let p = &self.packages[i];
            if p.name == dep.name && (dep.version.as_str().is_empty() || p.version == dep.version) {
                proof {
                    assert(matches_dependency(
                        self.packages@[i as int],
                        dep.name@,
                        dep.version@,
                    ));
                }
                return library_artifact_name(p);
            }
            i = i + 1;
        }
        normalize_separators(dep.name.as_str())
    }
}

/// The indices of the packages that the member ids name, in id-list
/// order, skipping ids that match no package.
pub open spec fn spec_member_indices(ps: Seq<PackageRecord>, ids: Seq<String>) -> Seq<usize>
    decreases ids.len(),
{
    if ids.len() == 0 {
        Seq::empty()
    } else {
        let rest = spec_member_indices(ps, ids.drop_last());
        if has_pkg_id(ps, ids.last()@) {
            let i = choose|i: int| 0 <= i < ps.len() && #[trigger] ps[i].id@ == ids.last()@;
            rest.push(i as usize)
        } else {
            rest
        }
    }
}

/// Every member index is in range.
pub proof fn lemma_member_indices_in_range(ps: Seq<PackageRecord>, ids: Seq<String>)
    requires
        ps.len() <= usize::MAX,
    ensures
        forall|k: int|
            0 <= k < spec_member_indices(ps, ids).len() ==> #[trigger] spec_member_indices(
                ps,
                ids,
            )[k] < ps.len(),
    decreases ids.len(),
{
    if ids.len() > 0 {
        lemma_member_indices_in_range(ps, ids.drop_last());
        let rest = spec_member_indices(ps, ids.drop_last());
        let full = spec_member_indices(ps, ids);
        if has_pkg_id(ps, ids.last()@) {
            let i = choose|i: int| 0 <= i < ps.len() && #[trigger] ps[i].id@ == ids.last()@;
            assert(full == rest.push(i as usize));
            assert forall|k: int| 0 <= k < full.len() implies #[trigger] full[k] < ps.len() by {
                if k < rest.len() {
                    assert(full[k] == rest[k]);
                } else {
                    assert(full[k] == i as usize);
                }
            }
        }
    }
}

impl MetadataIndex {
    /// The workspace members as package indices: the exclusion set that
    /// keeps workspace-internal edges out of a member's external
    /// dependencies.
    pub fn member_indices(&self) -> (r: Vec<usize>)
        requires
            self.wf(),
        ensures
            r@ == spec_member_indices(self.packages@, self.workspace_member_ids@),
            forall|k: int| 0 <= k < r@.len() ==> #[trigger] r@[k] < self.packages@.len(),
    {
        let n = self.workspace_member_ids.len();
        let np = self.packages.len();
        proof {
            assert(np == self.packages@.len());
        }
        let mut out: Vec<usize> = Vec::new();
        let mut i: usize = 0;
        while i < n
            invariant
                self.wf(),
                np == self.packages@.len(),
                n == self.workspace_member_ids@.len(),
                i <= n,
                out@ == spec_member_indices(
                    self.packages@,
                    self.workspace_member_ids@.take(i as int),
                ),
            decreases n - i,
        {
            let ghost ids = self.workspace_member_ids@;
            proof {
                assert(ids.take(i as int + 1).drop_last() =~= ids.take(i as int));
                assert(ids.take(i as int + 1).last() == ids[i as int]);
            }
            match find_pkg_index(&self.packages, &self.workspace_member_ids[i]) {
                Some(p) => {
                    out.push(p);
                    proof {
                        let wit = choose|w: int|
                            0 <= w < self.packages@.len() && #[trigger] self.packages@[w].id@
                                == ids[i as int]@;
                        if wit != p as int {
                            assert(self.packages@[wit].id@ == self.packages@[p as int].id@);
                            assert(false);
                        }
                    }
                },
                None => {},
            }
            i = i + 1;
        }
        proof {
            assert(self.workspace_member_ids@.take(n as int) =~= self.workspace_member_ids@);
            assert(self.packages@.len() <= usize::MAX);
            lemma_member_indices_in_range(self.packages@, self.workspace_member_ids@);
        }
        out
    }
}

/// The file name of a generated documentation-source document for an
/// artifact: the artifact name with the `.json` suffix.
pub fn json_file_name(stem: &String) -> (r: String)
    ensures
        r@ == stem@ + ".json"@,
{
    let r = stem.clone().concat(".json");
    proof {
        assert(r@ =~= stem@ + ".json"@);
    }
    r
}

} // verus!
