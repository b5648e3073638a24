//! The multi-target orchestrator's decision logic: classifying
//! converter outcomes, accumulating one terminal record per target,
//! and planning the deduplicated dependency-documentation pass.
//!
//! The caller drives the loop: it invokes the external converter for
//! one target at a time and hands the ternary outcome back; every
//! decision about what that outcome means, and what to document next,
//! is made here.

use vstd::prelude::*;
use crate::closure::{closure_records, transitive_closure, closure_post};
use crate::deps::{
    Dependency, DepMap, seq_contains_name, names_unique, sorted_by_name, lemma_version_at,
};
use crate::graph::DependencyGraph;
use crate::metadata::{
    MetadataIndex, PackageRecord, matches_name_version, spec_artifact_name, library_artifact_name,
    spec_member_indices,
};
use crate::text::{has_substring, contains_substring};

verus! {

/// What the external converter reported for one package: the ternary
/// outcome of a conversion attempt.
#[derive(Debug)]
pub enum ConverterReport {
    /// The package was documented.
    Success,
    /// Nothing to document (say, a binary-only package with no library
    /// target); the reason is kept for reporting.
    Skip(String),
    /// The conversion failed; the message is retained verbatim.
    Failure(String),
}

/// The terminal state of one target. Every target reaches exactly one
/// of these, and never leaves it (no retries).
#[derive(Debug)]
pub enum Outcome {
    Documented,
    Skipped(String),
    Failed(String),
}

/// One target together with its terminal state.
#[derive(Debug)]
pub struct OutcomeRecord {
    pub name: String,
    pub outcome: Outcome,
}

/// How a converter report is classified: success means documented, a
/// skip stays a skip, and any other failure is recorded with its
/// message.
pub open spec fn spec_classify(report: ConverterReport) -> Outcome {
    match report {
        ConverterReport::Success => Outcome::Documented,
        ConverterReport::Skip(reason) => Outcome::Skipped(reason),
        ConverterReport::Failure(message) => Outcome::Failed(message),
    }
}

/// The record a target receives for a report.
pub open spec fn spec_record(name: String, report: ConverterReport) -> OutcomeRecord {
    OutcomeRecord { name, outcome: spec_classify(report) }
}

/// Classifies one converter report into the target's terminal record.
pub fn classify_outcome(name: String, report: ConverterReport) -> (r: OutcomeRecord)
    ensures
        r == spec_record(name, report),
{
    let outcome = match report {
        ConverterReport::Success => Outcome::Documented,
        ConverterReport::Skip(reason) => Outcome::Skipped(reason),
        ConverterReport::Failure(message) => Outcome::Failed(message),
    };
    OutcomeRecord { name, outcome }
}

/// Appends the terminal record of one more target. A `Failed` or
/// `Skipped` report changes nothing about the records already taken:
/// processing always continues.
pub fn record_target_outcome(
    records: &mut Vec<OutcomeRecord>,
    name: String,
    report: ConverterReport,
)
    ensures
        final(records)@ == old(records)@.push(spec_record(name, report)),
{
    let r = classify_outcome(name, report);
    records.push(r);
}

/// The records of a whole pass: one per target, in order, each decided
/// by that target's own report alone.
pub open spec fn spec_run_records(names: Seq<String>, reports: Seq<ConverterReport>) -> Seq<
    OutcomeRecord,
> {
    Seq::new(names.len(), |i: int| spec_record(names[i], reports[i]))
}

/// Continue-on-error: in a pass over any number of targets, every
/// target receives exactly one terminal record, and changing what the
/// converter reported for one target (say, into a failure) never
/// changes the record any other target receives.
pub proof fn lemma_continue_on_error(
    names: Seq<String>,
    reports: Seq<ConverterReport>,
    reports_alt: Seq<ConverterReport>,
    t: int,
)
    requires
        reports.len() == names.len(),
        reports_alt.len() == names.len(),
        forall|j: int| 0 <= j < names.len() && j != t ==> reports_alt[j] == reports[j],
    ensures
        spec_run_records(names, reports).len() == names.len(),
        spec_run_records(names, reports_alt).len() == names.len(),
        forall|j: int|
            0 <= j < names.len() && j != t ==> spec_run_records(names, reports)[j]
                == spec_run_records(names, reports_alt)[j],
{
}

/// One orchestration step extends a pass's records by exactly the new
/// target's own record: what `record_target_outcome` appends is what
/// `spec_run_records` says the longer pass holds.
pub proof fn lemma_run_records_step(
    names: Seq<String>,
    reports: Seq<ConverterReport>,
    name: String,
    report: ConverterReport,
)
    requires
        names.len() == reports.len(),
    ensures
        spec_run_records(names.push(name), reports.push(report)) == spec_run_records(
            names,
            reports,
        ).push(spec_record(name, report)),
{
    assert(spec_run_records(names.push(name), reports.push(report)) =~= spec_run_records(
        names,
        reports,
    ).push(spec_record(name, report)));
}

/// Counts of documented, skipped and failed records.
pub open spec fn spec_outcome_counts(rs: Seq<OutcomeRecord>) -> (nat, nat, nat)
    decreases rs.len(),
{
    if rs.len() == 0 {
        (0nat, 0nat, 0nat)
    } else {
        let (d, s, f) = spec_outcome_counts(rs.drop_last());
        match rs.last().outcome {
            Outcome::Documented => ((d + 1) as nat, s, f),
            Outcome::Skipped(_) => (d, (s + 1) as nat, f),
            Outcome::Failed(_) => (d, s, (f + 1) as nat),
        }
    }
}

proof fn lemma_outcome_counts_bound(rs: Seq<OutcomeRecord>)
    ensures
        spec_outcome_counts(rs).0 <= rs.len(),
        spec_outcome_counts(rs).1 <= rs.len(),
        spec_outcome_counts(rs).2 <= rs.len(),
    decreases rs.len(),
{
    if rs.len() > 0 {
        lemma_outcome_counts_bound(rs.drop_last());
    }
}

/// The run summary: how many targets were documented, skipped, failed.
pub fn summary_counts(records: &Vec<OutcomeRecord>) -> (r: (usize, usize, usize))
    ensures
        r.0 == spec_outcome_counts(records@).0,
        r.1 == spec_outcome_counts(records@).1,
        r.2 == spec_outcome_counts(records@).2,
{
    let n = records.len();
    let mut d: usize = 0;
    let mut s: usize = 0;
    let mut f: usize = 0;
    let mut i: usize = 0;
    while i < n
        invariant
            n == records@.len(),
            i <= n,
            d == spec_outcome_counts(records@.take(i as int)).0,
            s == spec_outcome_counts(records@.take(i as int)).1,
            f == spec_outcome_counts(records@.take(i as int)).2,
            d <= i && s <= i && f <= i,
        decreases n - i,
    {
        proof {
            assert(records@.take(i as int + 1).drop_last() =~= records@.take(i as int));
            assert(records@.take(i as int + 1).last() == records@[i as int]);
        }
        match &records[i].outcome {
            Outcome::Documented => {
                d = d + 1;
            },
            Outcome::Skipped(_) => {
                s = s + 1;
            },
            Outcome::Failed(_) => {
                f = f + 1;
            },
        }
        i = i + 1;
    }
    proof {
        assert(records@.take(n as int) =~= records@);
    }
    (d, s, f)
}

/// The names of the documented records, in record order.
pub open spec fn spec_documented_names(rs: Seq<OutcomeRecord>) -> Seq<String>
    decreases rs.len(),
{
    if rs.len() == 0 {
        Seq::empty()
    } else {
        let rest = spec_documented_names(rs.drop_last());
        if rs.last().outcome is Documented {
            rest.push(rs.last().name)
        } else {
            rest
        }
    }
}

/// Whether some `Documented` record of `rs` carries the name `nm`.
pub open spec fn documented_name_witnessed(rs: Seq<OutcomeRecord>, nm: String) -> bool {
    exists|i: int| 0 <= i < rs.len() && (#[trigger] rs[i]).outcome is Documented && rs[i].name == nm
}

/// Index completeness: the documented names hold the name of every
/// record classified `Documented`, and nothing else; skipped and
/// failed records never appear.
pub proof fn lemma_index_reflects_documented(rs: Seq<OutcomeRecord>)
    ensures
        forall|i: int|
            0 <= i < rs.len() && (#[trigger] rs[i]).outcome is Documented
                ==> spec_documented_names(rs).contains(rs[i].name),
        forall|k: int|
            0 <= k < spec_documented_names(rs).len() ==> documented_name_witnessed(
                rs,
                #[trigger] spec_documented_names(rs)[k],
            ),
    decreases rs.len(),
{
    if rs.len() > 0 {
        lemma_index_reflects_documented(rs.drop_last());
        let rest = spec_documented_names(rs.drop_last());
        let full = spec_documented_names(rs);
        assert forall|i: int|
            0 <= i < rs.len() && (#[trigger] rs[i]).outcome is Documented implies full.contains(
            rs[i].name,
        ) by {
            if i < rs.len() - 1 {
                assert(rs.drop_last()[i] == rs[i]);
                assert(rest.contains(rs[i].name));
                let k = choose|k: int| 0 <= k < rest.len() && rest[k] == rs[i].name;
                assert(full[k] == rs[i].name);
            } else {
                assert(full.last() == rs[i].name);
            }
        }
        assert forall|k: int| 0 <= k < full.len() implies documented_name_witnessed(
            rs,
            #[trigger] full[k],
        ) by {
            if rs.last().outcome is Documented && k == full.len() - 1 {
                assert(rs[rs.len() - 1].outcome is Documented);
                assert(rs[rs.len() - 1].name == full[k]);
            } else {
                assert(full[k] == rest[k]);
                assert(documented_name_witnessed(rs.drop_last(), rest[k]));
                let i = choose|i: int|
                    0 <= i < rs.drop_last().len() && (#[trigger] rs.drop_last()[i]).outcome
                        is Documented && rs.drop_last()[i].name == rest[k];
                assert(rs[i] == rs.drop_last()[i]);
                assert(rs[i].outcome is Documented && rs[i].name == full[k]);
            }
        }
    }
}

/// Filters the records down to the names classified `Documented`,
/// which are exactly the names the master index must list.
pub fn documented_names(records: &Vec<OutcomeRecord>) -> (r: Vec<String>)
    ensures
        r@ == spec_documented_names(records@),
{
    let n = records.len();
    let mut out: Vec<String> = Vec::new();
    let mut i: usize = 0;
    while i < n
        invariant
            n == records@.len(),
            i <= n,
            out@ == spec_documented_names(records@.take(i as int)),
        decreases n - i,
    {
        proof {
            assert(records@.take(i as int + 1).drop_last() =~= records@.take(i as int));
            assert(records@.take(i as int + 1).last() == records@[i as int]);
        }
        match &records[i].outcome {
            Outcome::Documented => {
                out.push(records[i].name.clone());
            },
            _ => {},
        }
        i = i + 1;
    }
    proof {
        assert(records@.take(n as int) =~= records@);
    }
    out
}

/// One entity the orchestrator must document: a name, the version that
/// disambiguates it (empty when only a name is known), and the package
/// index when metadata resolved it; an unresolved target is processed
/// best-effort, by name only.
#[derive(Debug)]
pub struct DocumentationTarget {
    pub name: String,
    pub version: String,
    pub package: Option<usize>,
}

/// Resolves an explicitly requested package name against the metadata:
/// the first package of that name decides, and an unknown name becomes
/// a name-only target.
pub fn resolve_explicit_target(meta: &MetadataIndex, requested: &String) -> (r: DocumentationTarget)
    ensures
        match r.package {
            Some(i) => {
                &&& i < meta.packages@.len()
                &&& meta.packages@[i as int].name@ == requested@
                &&& r.name@ == meta.packages@[i as int].name@
                &&& r.version@ == meta.packages@[i as int].version@
                &&& forall|j: int|
                    0 <= j < i ==> #[trigger] meta.packages@[j].name@ != requested@
            },
            None => {
                &&& forall|j: int|
                    0 <= j < meta.packages@.len() ==> #[trigger] meta.packages@[j].name@
                        != requested@
                &&& r.name@ == requested@
                &&& r.version@.len() == 0
            },
        },
{
    match meta.find_package_by_name(requested) {
        Some(i) => DocumentationTarget {
            name: meta.packages[i].name.clone(),
            version: meta.packages[i].version.clone(),
            package: Some(i),
        },
        None => DocumentationTarget {
            name: requested.clone(),
            version: String::new(),
            package: None,
        },
    }
}

/// Resolves a workspace member (name, version) to its package index;
/// the first package carrying both decides, and a member that metadata
/// cannot resolve is processed by name only.
pub fn resolve_member_target(meta: &MetadataIndex, member: &Dependency) -> (r: DocumentationTarget)
    ensures
        r.name@ == member.name@,
        r.version@ == member.version@,
        match r.package {
            Some(i) => i < meta.packages@.len() && matches_name_version(
                meta.packages@[i as int],
                member.name@,
                member.version@,
            ),
            None => forall|j: int|
                0 <= j < meta.packages@.len() ==> !matches_name_version(
                    #[trigger] meta.packages@[j],
                    member.name@,
                    member.version@,
                ),
        },
{
    let n = meta.packages.len();
    let mut i: usize = 0;
    while i < n
        invariant
            n == meta.packages@.len(),
            i <= n,
            forall|j: int|
                0 <= j < i ==> !matches_name_version(
                    #[trigger] meta.packages@[j],
                    member.name@,
                    member.version@,
                ),
        decreases n - i,
    {
        if meta.packages[i].name == member.name && meta.packages[i].version == member.version {
            proof {
                assert(matches_name_version(
                    meta.packages@[i as int],
                    member.name@,
                    member.version@,
                ));
            }
            return DocumentationTarget {
                name: member.name.clone(),
                version: member.version.clone(),
                package: Some(i),
            };
        }
        i = i + 1;
    }
    DocumentationTarget { name: member.name.clone(), version: member.version.clone(), package: None }
}

/// Whether a build-tool line says the package has no library target:
/// the one failure that means "nothing to document" rather than an
/// error.
pub open spec fn spec_no_lib_marker(ls: Seq<String>) -> bool {
    exists|i: int|
        0 <= i < ls.len() && has_substring((#[trigger] ls[i])@, "no library targets found"@)
}

/// Whether a build-tool line reports an error.
pub open spec fn spec_line_is_error(l: String) -> bool {
    has_substring(l@, "error"@) || has_substring(l@, "failed"@)
}

/// The first `cap` error lines, in order.
pub open spec fn spec_error_lines(ls: Seq<String>, cap: nat) -> Seq<String>
    decreases ls.len(),
{
    if ls.len() == 0 || cap == 0 {
        Seq::empty()
    } else if spec_line_is_error(ls.first()) {
        seq![ls.first()] + spec_error_lines(ls.drop_first(), (cap - 1) as nat)
    } else {
        spec_error_lines(ls.drop_first(), cap)
    }
}

/// How a failed build-tool invocation is read.
#[derive(Debug)]
pub enum BuildFailure {
    /// The package has no library target: a skip, not an error.
    NoLibraryTarget,
    /// The lines that report the error, at most two, for the message.
    ErrorLines(Vec<String>),
    /// Nothing recognizable; the caller reports the exit status.
    Unknown,
}

/// Classifies the diagnostic lines of a failed build-tool run: a
/// no-library-target message means there is nothing to document; any
/// other failure keeps its first two error lines for the report.
pub fn classify_build_failure(lines: &Vec<String>) -> (r: BuildFailure)
    ensures
        match r {
            BuildFailure::NoLibraryTarget => spec_no_lib_marker(lines@),
            BuildFailure::ErrorLines(v) => {
                &&& !spec_no_lib_marker(lines@)
                &&& v@ == spec_error_lines(lines@, 2)
                &&& v@.len() >= 1
            },
            BuildFailure::Unknown => !spec_no_lib_marker(lines@) && spec_error_lines(
                lines@,
                2,
            ).len() == 0,
        },
{
    let n = lines.len();
    let mut i: usize = 0;
    while i < n
        invariant
            n == lines@.len(),
            i <= n,
            forall|x: int|
                0 <= x < i ==> !has_substring((#[trigger] lines@[x])@, "no library targets found"@),
        decreases n - i,
    {
        if contains_substring(lines[i].as_str(), "no library targets found") {
            proof {
                assert(has_substring(lines@[i as int]@, "no library targets found"@));
            }
            return BuildFailure::NoLibraryTarget;
        }
        i = i + 1;
    }
    let mut out: Vec<String> = Vec::new();
    let mut i: usize = 0;
    proof {
        assert(lines@.skip(0) =~= lines@);
        assert(Seq::<String>::empty() + spec_error_lines(lines@, 2) =~= spec_error_lines(
            lines@,
            2,
        ));
    }
    while i < n && out.len() < 2
        invariant
            n == lines@.len(),
            i <= n,
            out@.len() <= 2,
            out@ + spec_error_lines(lines@.skip(i as int), (2 - out@.len()) as nat)
                == spec_error_lines(lines@, 2),
        decreases n - i,
    {
        let ghost pre = out@;
        let ghost cap = (2 - pre.len()) as nat;
        proof {
            assert(lines@.skip(i as int).len() > 0);
            assert(lines@.skip(i as int).first() == lines@[i as int]);
            assert(lines@.skip(i as int).drop_first() =~= lines@.skip(i as int + 1));
        }
        let is_err = contains_substring(lines[i].as_str(), "error") || contains_substring(
            lines[i].as_str(),
            "failed",
        );
        if is_err {
            proof {
                assert(spec_line_is_error(lines@[i as int]));
            }
            out.push(lines[i].clone());
            proof {
                assert(spec_error_lines(lines@.skip(i as int), cap) == seq![lines@[i as int]]
                    + spec_error_lines(lines@.skip(i as int + 1), (cap - 1) as nat));
                assert(out@ + spec_error_lines(lines@.skip(i as int + 1), (2 - out@.len()) as nat)
                    =~= pre + spec_error_lines(lines@.skip(i as int), cap));
            }
        } else {
            proof {
                assert(!spec_line_is_error(lines@[i as int]));
                assert(spec_error_lines(lines@.skip(i as int), cap) == spec_error_lines(
                    lines@.skip(i as int + 1),
                    cap,
                ));
            }
        }
        i = i + 1;
    }
    proof {
        if out@.len() >= 2 {
            assert(spec_error_lines(lines@.skip(i as int), 0) == Seq::<String>::empty());
        } else {
            assert(lines@.skip(i as int).len() == 0);
            assert(spec_error_lines(lines@.skip(i as int), (2 - out@.len()) as nat) == Seq::<
                String,
            >::empty());
        }
        assert(out@ =~= spec_error_lines(lines@, 2));
    }
    if out.len() == 0 {
        BuildFailure::Unknown
    } else {
        BuildFailure::ErrorLines(out)
    }
}

/// The current crate resolved for documentation: its package name and
/// the artifact name its generated documents will carry.
#[derive(Debug)]
pub struct CurrentCrate {
    pub name: String,
    pub artifact_name: String,
    pub package: usize,
}

/// A single-target run was requested, but the snapshot has no root
/// package to document (a virtual workspace root).
#[derive(Debug, Clone, Copy, PartialEq, Eq, Structural)]
pub enum CurrentCrateError {
    NoRootPackage,
}

/// Resolves the current crate from the metadata root. A snapshot
/// without a root package (a virtual workspace) cannot serve a
/// single-target run and is rejected.
pub fn resolve_current_crate(meta: &MetadataIndex) -> (r: Result<CurrentCrate, CurrentCrateError>)
    requires
        meta.wf(),
    ensures
        r is Err <==> meta.root is None,
        r is Ok ==> {
            let c = r.unwrap();
            &&& meta.root == Some(c.package)
            &&& c.package < meta.packages@.len()
            &&& c.name@ == meta.packages@[c.package as int].name@
            &&& c.artifact_name@ == spec_artifact_name(meta.packages@[c.package as int])
        },
{
    match meta.root {
        Some(i) => {
            let p = &meta.packages[i];
            Ok(
                CurrentCrate {
                    name: p.name.clone(),
                    artifact_name: library_artifact_name(p),
                    package: i,
                },
            )
        },
        None => Err(CurrentCrateError::NoRootPackage),
    }
}

/// The package specification handed to the converter: the bare name,
/// or `name@version` when a version disambiguates among several
/// versions of one crate.
pub fn package_spec(dep: &Dependency) -> (r: String)
    ensures
        dep.version@.len() == 0 ==> r@ == dep.name@,
        dep.version@.len() > 0 ==> r@ == dep.name@ + "@"@ + dep.version@,
{
    if dep.version.as_str().is_empty() {
        dep.name.clone()
    } else {
        let r = dep.name.clone().concat("@").concat(dep.version.as_str());
        proof {
            assert(r@ =~= dep.name@ + "@"@ + dep.version@);
        }
        r
    }
}

/// Whether the closure of some root in `roots` records a package
/// named `m`.
pub open spec fn union_records_named(
    ps: Seq<PackageRecord>,
    g: DependencyGraph,
    excl: Seq<usize>,
    roots: Seq<usize>,
    m: Seq<char>,
) -> bool {
    exists|ri: int, j: usize|
        0 <= ri < roots.len() && #[trigger] closure_records(g, excl, roots[ri], j) && j < ps.len()
            && ps[j as int].name@ == m
}

/// Whether the closure of some root in `roots` records a package
/// named `m` at version `v`.
pub open spec fn union_records_entry(
    ps: Seq<PackageRecord>,
    g: DependencyGraph,
    excl: Seq<usize>,
    roots: Seq<usize>,
    m: Seq<char>,
    v: Seq<char>,
) -> bool {
    exists|ri: int, j: usize|
        0 <= ri < roots.len() && #[trigger] closure_records(g, excl, roots[ri], j) && j < ps.len()
            && ps[j as int].name@ == m && ps[j as int].version@ == v
}

/// Whether `m` is one of the names to leave out of the dependency pass.
pub open spec fn spec_name_skipped(skips: Seq<String>, m: Seq<char>) -> bool {
    exists|s: int| 0 <= s < skips.len() && #[trigger] skips[s]@ == m
}

/// Whether `name` is among the skipped names.
fn name_in_skips(skips: &Vec<String>, name: &String) -> (r: bool)
    ensures
        r == spec_name_skipped(skips@, name@),
{
    let n = skips.len();
    let mut i: usize = 0;
    while i < n
        invariant
            n == skips@.len(),
            i <= n,
            forall|j: int| 0 <= j < i ==> #[trigger] skips@[j]@ != name@,
        decreases n - i,
    {
        if skips[i] == *name {
            proof {
                assert(skips@[i as int]@ == name@);
            }
            return true;
        }
        i = i + 1;
    }
    false
}

/// Plans the dependency-documentation pass: the union of the
/// transitive closures of all `roots`, deduplicated by name across
/// targets the same way as within one closure (last write wins),
/// stripped of the skipped names, and sorted by name.
///
/// Every planned name is recorded by some root's closure and is not
/// skipped; every such name is planned, under a name that appears
/// exactly once (`lemma_cross_target_dedup`); and every planned
/// version is the version of a package so recorded.
pub fn plan_dependency_pass(
    meta: &MetadataIndex,
    g: &DependencyGraph,
    roots: &Vec<usize>,
    exclusion: &Vec<usize>,
    skip_names: &Vec<String>,
) -> (plan: Vec<Dependency>)
    requires
        meta.wf(),
        g.wf(meta.packages@.len() as int),
        forall|ri: int| 0 <= ri < roots@.len() ==> #[trigger] roots@[ri] < meta.packages@.len(),
    ensures
        sorted_by_name(plan@),
        names_unique(plan@),
        forall|m: Seq<char>|
            #[trigger] seq_contains_name(plan@, m) <==> (union_records_named(
                meta.packages@,
                *g,
                exclusion@,
                roots@,
                m,
            ) && !spec_name_skipped(skip_names@, m)),
        forall|k: int|
            0 <= k < plan@.len() ==> union_records_entry(
                meta.packages@,
                *g,
                exclusion@,
                roots@,
                (#[trigger] plan@[k]).name@,
                plan@[k].version@,
            ),
{
    let ghost ps = meta.packages@;
    let ghost excl = exclusion@;
    let ghost skips = skip_names@;
    let nr = roots.len();
    let mut union_map = DepMap::new();
    let mut ri: usize = 0;
    while ri < nr
        invariant
            meta.wf(),
            g.wf(ps.len() as int),
            ps == meta.packages@,
            excl == exclusion@,
            skips == skip_names@,
            nr == roots@.len(),
            forall|x: int| 0 <= x < nr ==> #[trigger] roots@[x] < ps.len(),
            ri <= nr,
            union_map.wf(),
            forall|m: Seq<char>|
                #[trigger] union_map.spec_contains_name(m) <==> (union_records_named(
                    ps,
                    *g,
                    excl,
                    roots@.take(ri as int),
                    m,
                ) && !spec_name_skipped(skips, m)),
            forall|m: Seq<char>|
                #[trigger] union_map.spec_contains_name(m) ==> union_records_entry(
                    ps,
                    *g,
                    excl,
                    roots@.take(ri as int),
                    m,
                    union_map.spec_version_of(m),
                ),
        decreases nr - ri,
    {
        let root = roots[ri];
        let c = transitive_closure(meta, g, root, exclusion);
        let ghost centries = c.deps.spec_entries();
        proof {
            // carry the version witnesses into the longer root prefix
            assert(roots@.take(ri as int + 1).drop_last() =~= roots@.take(ri as int));
            assert(roots@.take(ri as int + 1).last() == roots@[ri as int]);
            assert forall|m: Seq<char>|
                #[trigger] union_map.spec_contains_name(m) implies union_records_entry(
                ps,
                *g,
                excl,
                roots@.take(ri as int + 1),
                m,
                union_map.spec_version_of(m),
            ) by {
                let (ri0, j0) = choose|ri0: int, j0: usize|
                    0 <= ri0 < roots@.take(ri as int).len() && #[trigger] closure_records(
                        *g,
                        excl,
                        roots@.take(ri as int)[ri0],
                        j0,
                    ) && j0 < ps.len() && ps[j0 as int].name@ == m && ps[j0 as int].version@
                        == union_map.spec_version_of(m);
                assert(roots@.take(ri as int + 1)[ri0] == roots@.take(ri as int)[ri0]);
                assert(closure_records(*g, excl, roots@.take(ri as int + 1)[ri0], j0));
            }
        }
        let ne = c.deps.entries.len();
        let mut k: usize = 0;
        while k < ne
            invariant
                meta.wf(),
                g.wf(ps.len() as int),
                ps == meta.packages@,
                excl == exclusion@,
                skips == skip_names@,
                nr == roots@.len(),
                forall|x: int| 0 <= x < nr ==> #[trigger] roots@[x] < ps.len(),
                ri < nr,
                root == roots@[ri as int],
                closure_post(ps, *g, excl, root, c.deps),
                centries == c.deps.spec_entries(),
                ne == centries.len(),
                k <= ne,
                union_map.wf(),
                forall|m: Seq<char>|
                    #[trigger] union_map.spec_contains_name(m) <==> ((union_records_named(
                        ps,
                        *g,
                        excl,
                        roots@.take(ri as int),
                        m,
                    ) || seq_contains_name(centries.take(k as int), m))
                        && !spec_name_skipped(skips, m)),
                forall|m: Seq<char>|
                    #[trigger] union_map.spec_contains_name(m) ==> union_records_entry(
                        ps,
                        *g,
                        excl,
                        roots@.take(ri as int + 1),
                        m,
                        union_map.spec_version_of(m),
                    ),
            decreases ne - k,
        {
            proof {
                assert(centries.take(k as int + 1).drop_last() =~= centries.take(k as int));
                assert(centries.take(k as int + 1).last() == centries[k as int]);
            }
            let entry_name = c.deps.entries[k].name.clone();
            let entry_version = c.deps.entries[k].version.clone();
            let ghost m0 = entry_name@;
            if !name_in_skips(skip_names, &entry_name) {
                proof {
                    // the closure's soundness hands us a recorded witness
                    assert(centries[k as int].name@ == m0);
                    assert(seq_contains_name(centries, m0));
                    assert(c.deps.spec_contains_name(m0));
                    let j = choose|j: usize|
                        #[trigger] closure_records(*g, excl, root, j) && j < ps.len() && ps[
                            j as int
                        ].name@ == m0 && c.deps.spec_version_of(m0) == ps[j as int].version@;
                    lemma_version_at(centries, k as int);
                    assert(ps[j as int].version@ == entry_version@);
                }
                let ghost pre_map = union_map;
                union_map.insert(entry_name, entry_version);
                proof {
                    let j = choose|j: usize|
                        #[trigger] closure_records(*g, excl, root, j) && j < ps.len() && ps[
                            j as int
                        ].name@ == m0 && c.deps.spec_version_of(m0) == ps[j as int].version@;
                    assert(roots@.take(ri as int + 1)[ri as int] == root);
                    assert(closure_records(*g, excl, roots@.take(ri as int + 1)[ri as int], j));
                    assert(union_records_entry(
                        ps,
                        *g,
                        excl,
                        roots@.take(ri as int + 1),
                        m0,
                        union_map.spec_version_of(m0),
                    ));
                    assert forall|m: Seq<char>|
                        #[trigger] union_map.spec_contains_name(m) implies ((union_records_named(
                        ps,
                        *g,
                        excl,
                        roots@.take(ri as int),
                        m,
                    ) || seq_contains_name(centries.take(k as int + 1), m))
                        && !spec_name_skipped(skips, m)) by {
                        if m == m0 {
                            assert(centries.take(k as int + 1)[k as int] == centries[k as int]);
                            assert(seq_contains_name(centries.take(k as int + 1), m0));
                        } else {
                            assert(pre_map.spec_contains_name(m));
                            if seq_contains_name(centries.take(k as int), m) {
                                let e = choose|e: int|
                                    0 <= e < centries.take(k as int).len() && #[trigger] centries.take(
                                        k as int,
                                    )[e].name@ == m;
                                assert(centries.take(k as int + 1)[e].name@ == m);
                            }
                        }
                    }
                    assert forall|m: Seq<char>|
                        ((union_records_named(ps, *g, excl, roots@.take(ri as int), m)
                            || seq_contains_name(centries.take(k as int + 1), m))
                            && !spec_name_skipped(skips, m)) implies (
                    #[trigger] union_map.spec_contains_name(m)) by {
                        if m != m0 {
                            if seq_contains_name(centries.take(k as int + 1), m) {
                                let e = choose|e: int|
                                    0 <= e < centries.take(k as int + 1).len()
                                        && #[trigger] centries.take(k as int + 1)[e].name@ == m;
                                assert(e < k as int);
                                assert(centries.take(k as int)[e].name@ == m);
                            }
                            assert(pre_map.spec_contains_name(m));
                        }
                    }
                }
            } else {
                proof {
                    assert(spec_name_skipped(skips, m0));
                    assert forall|m: Seq<char>|
                        #[trigger] union_map.spec_contains_name(m) <==> ((union_records_named(
                        ps,
                        *g,
                        excl,
                        roots@.take(ri as int),
                        m,
                    ) || seq_contains_name(centries.take(k as int + 1), m))
                        && !spec_name_skipped(skips, m)) by {
                        if m != m0 {
                            if seq_contains_name(centries.take(k as int + 1), m) {
                                let e = choose|e: int|
                                    0 <= e < centries.take(k as int + 1).len()
                                        && #[trigger] centries.take(k as int + 1)[e].name@ == m;
                                if e < k as int {
                                    assert(centries.take(k as int)[e].name@ == m);
                                } else {
                                    assert(centries.take(k as int + 1)[e] == centries[k as int]);
                                    assert(false);
                                }
                            }
                            if seq_contains_name(centries.take(k as int), m) {
                                let e = choose|e: int|
                                    0 <= e < centries.take(k as int).len() && #[trigger] centries.take(
                                        k as int,
                                    )[e].name@ == m;
                                assert(centries.take(k as int + 1)[e].name@ == m);
                            }
                        }
                    }
                }
            }
            k = k + 1;
        }
        proof {
            // fold the finished root into the prefix invariant
            assert(centries.take(ne as int) =~= centries);
            assert forall|m: Seq<char>|
                #[trigger] union_map.spec_contains_name(m) <==> (union_records_named(
                ps,
                *g,
                excl,
                roots@.take(ri as int + 1),
                m,
            ) && !spec_name_skipped(skips, m)) by {
                if union_map.spec_contains_name(m) {
                    if seq_contains_name(centries, m) {
                        assert(c.deps.spec_contains_name(m));
                        let j = choose|j: usize|
                            #[trigger] closure_records(*g, excl, root, j) && j < ps.len() && ps[
                                j as int
                            ].name@ == m && c.deps.spec_version_of(m) == ps[j as int].version@;
                        assert(roots@.take(ri as int + 1)[ri as int] == root);
                        assert(closure_records(*g, excl, roots@.take(ri as int + 1)[ri as int], j));
                        assert(union_records_named(ps, *g, excl, roots@.take(ri as int + 1), m));
                    } else {
                        let (ri0, j0) = choose|ri0: int, j0: usize|
                            0 <= ri0 < roots@.take(ri as int).len() && #[trigger] closure_records(
                                *g,
                                excl,
                                roots@.take(ri as int)[ri0],
                                j0,
                            ) && j0 < ps.len() && ps[j0 as int].name@ == m;
                        assert(roots@.take(ri as int + 1)[ri0] == roots@.take(ri as int)[ri0]);
                        assert(closure_records(*g, excl, roots@.take(ri as int + 1)[ri0], j0));
                        assert(union_records_named(ps, *g, excl, roots@.take(ri as int + 1), m));
                    }
                }
                if union_records_named(ps, *g, excl, roots@.take(ri as int + 1), m)
                    && !spec_name_skipped(skips, m) {
                    let (ri0, j0) = choose|ri0: int, j0: usize|
                        0 <= ri0 < roots@.take(ri as int + 1).len() && #[trigger] closure_records(
                            *g,
                            excl,
                            roots@.take(ri as int + 1)[ri0],
                            j0,
                        ) && j0 < ps.len() && ps[j0 as int].name@ == m;
                    if ri0 < ri as int {
                        assert(roots@.take(ri as int)[ri0] == roots@.take(ri as int + 1)[ri0]);
                        assert(closure_records(*g, excl, roots@.take(ri as int)[ri0], j0));
                        assert(union_records_named(ps, *g, excl, roots@.take(ri as int), m));
                    } else {
                        assert(roots@.take(ri as int + 1)[ri0] == root);
                        assert(closure_records(*g, excl, root, j0));
                        assert(c.deps.spec_contains_name(ps[j0 as int].name@));
                        assert(seq_contains_name(centries, m));
                    }
                }
            }
        }
        ri = ri + 1;
    }
    proof {
        assert(roots@.take(nr as int) =~= roots@);
    }
    let ghost final_map = union_map;
    let plan = union_map.into_sorted_entries();
    proof {
        broadcast use {vstd::seq_lib::group_to_multiset_ensures, vstd::multiset::group_multiset_axioms};

        assert forall|k: int| 0 <= k < plan@.len() implies union_records_entry(
            ps,
            *g,
            excl,
            roots@,
            (#[trigger] plan@[k]).name@,
            plan@[k].version@,
        ) by {
            let x = plan@[k];
            assert(plan@.contains(x));
            assert(plan@.to_multiset().count(x) > 0);
            assert(final_map.spec_entries().to_multiset().count(x) > 0);
            assert(final_map.spec_entries().contains(x));
            let e = choose|e: int|
                0 <= e < final_map.spec_entries().len() && final_map.spec_entries()[e] == x;
            assert(final_map.spec_contains_name(x.name@));
            lemma_version_at(final_map.spec_entries(), e);
            assert(final_map.spec_version_of(x.name@) == x.version@);
        }
    }
    plan
}

/// Whether the closure of `root` records some package named `m`.
pub open spec fn root_records_named(
    ps: Seq<PackageRecord>,
    g: DependencyGraph,
    excl: Seq<usize>,
    root: usize,
    m: Seq<char>,
) -> bool {
    exists|j: usize|
        #[trigger] closure_records(g, excl, root, j) && j < ps.len() && ps[j as int].name@ == m
}

/// Whether the closure of `root` records some package named `m` at
/// version `v`.
pub open spec fn root_records_entry(
    ps: Seq<PackageRecord>,
    g: DependencyGraph,
    excl: Seq<usize>,
    root: usize,
    m: Seq<char>,
    v: Seq<char>,
) -> bool {
    exists|j: usize|
        #[trigger] closure_records(g, excl, root, j) && j < ps.len() && ps[j as int].name@ == m
            && ps[j as int].version@ == v
}

/// All external dependencies of the current crate: the transitive
/// closure of the root package, with the workspace members excluded,
/// deduplicated by name and sorted. A snapshot without a root package
/// has no current crate to start from.
pub fn get_all_dependencies(meta: &MetadataIndex, g: &DependencyGraph) -> (r: Result<
    Vec<Dependency>,
    CurrentCrateError,
>)
    requires
        meta.wf(),
        g.wf(meta.packages@.len() as int),
    ensures
        r is Err <==> meta.root is None,
        r is Ok ==> {
            let plan = r.unwrap();
            let root = meta.root.unwrap();
            let excl = spec_member_indices(meta.packages@, meta.workspace_member_ids@);
            &&& sorted_by_name(plan@)
            &&& names_unique(plan@)
            &&& forall|m: Seq<char>|
                #[trigger] seq_contains_name(plan@, m) <==> root_records_named(
                    meta.packages@,
                    *g,
                    excl,
                    root,
                    m,
                )
            &&& forall|k: int|
                0 <= k < plan@.len() ==> root_records_entry(
                    meta.packages@,
                    *g,
                    excl,
                    root,
                    (#[trigger] plan@[k]).name@,
                    plan@[k].version@,
                )
        },
{
    let root = match meta.root {
        Some(i) => i,
        None => {
            return Err(CurrentCrateError::NoRootPackage);
        },
    };
    let exclusion = meta.member_indices();
    let roots = vec![root];
    let skips: Vec<String> = Vec::new();
    let plan = plan_dependency_pass(meta, g, &roots, &exclusion, &skips);
    proof {
        let ps = meta.packages@;
        let excl = exclusion@;
        let exclg = spec_member_indices(meta.packages@, meta.workspace_member_ids@);
        assert(excl == exclg);
        assert forall|m: Seq<char>| #[trigger] seq_contains_name(plan@, m) implies
            root_records_named(ps, *g, exclg, root, m) by {
            assert(union_records_named(ps, *g, excl, roots@, m));
            let (ri0, j0) = choose|ri0: int, j0: usize|
                0 <= ri0 < roots@.len() && #[trigger] closure_records(*g, excl, roots@[ri0], j0)
                    && j0 < ps.len() && ps[j0 as int].name@ == m;
            assert(roots@[ri0] == root);
            assert(closure_records(*g, exclg, root, j0));
            assert(root_records_named(ps, *g, exclg, root, m));
        }
        assert forall|m: Seq<char>| root_records_named(ps, *g, exclg, root, m) implies (
        #[trigger] seq_contains_name(plan@, m)) by {
            let j = choose|j: usize|
                #[trigger] closure_records(*g, exclg, root, j) && j < ps.len() && ps[
                j as int
            ].name@ == m;
            assert(roots@[0] == root);
            assert(closure_records(*g, excl, roots@[0], j));
            assert(union_records_named(ps, *g, excl, roots@, m));
            assert(!spec_name_skipped(skips@, m));
        }
        assert forall|k: int| 0 <= k < plan@.len() implies root_records_entry(
            ps,
            *g,
            exclg,
            root,
            (#[trigger] plan@[k]).name@,
            plan@[k].version@,
        ) by {
            assert(union_records_entry(ps, *g, excl, roots@, plan@[k].name@, plan@[k].version@));
            let (ri0, j0) = choose|ri0: int, j0: usize|
                0 <= ri0 < roots@.len() && #[trigger] closure_records(*g, excl, roots@[ri0], j0)
                    && j0 < ps.len() && ps[j0 as int].name@ == plan@[k].name@ && ps[
                j0 as int
            ].version@ == plan@[k].version@;
            assert(roots@[ri0] == root);
            assert(closure_records(*g, exclg, root, j0));
            assert(root_records_entry(ps, *g, exclg, root, plan@[k].name@, plan@[k].version@));
        }
    }
    Ok(plan)
}

/// How many entries of `s` carry the name `m`.
pub open spec fn count_named(s: Seq<Dependency>, m: Seq<char>) -> nat
    decreases s.len(),
{
    if s.len() == 0 {
        0
    } else {
        count_named(s.drop_last(), m) + if s.last().name@ == m {
            1nat
        } else {
            0nat
        }
    }
}

/// Cross-target dedup: a planned pass with unique names documents any
/// name it holds exactly once, however many targets depend on it.
pub proof fn lemma_cross_target_dedup(plan: Seq<Dependency>, m: Seq<char>)
    requires
        names_unique(plan),
        seq_contains_name(plan, m),
    ensures
        count_named(plan, m) == 1,
{
    let i = choose|i: int| 0 <= i < plan.len() && #[trigger] plan[i].name@ == m;
    lemma_count_named_unique(plan, m, i);
}

proof fn lemma_count_named_unique(plan: Seq<Dependency>, m: Seq<char>, i: int)
    requires
        names_unique(plan),
        0 <= i < plan.len(),
        plan[i].name@ == m,
    ensures
        count_named(plan, m) == 1,
    decreases plan.len(),
{
    let rest = plan.drop_last();
    if i == plan.len() - 1 {
        lemma_count_named_zero(rest, m, plan, i);
    } else {
        assert(plan[i].name@ != plan[plan.len() - 1].name@);
        assert(rest[i] == plan[i]);
        assert forall|a: int, b: int|
            0 <= a < b < rest.len() implies #[trigger] rest[a].name@ != #[trigger] rest[b].name@ by {
            assert(rest[a] == plan[a] && rest[b] == plan[b]);
        }
        lemma_count_named_unique(rest, m, i);
    }
}

proof fn lemma_count_named_zero(s: Seq<Dependency>, m: Seq<char>, whole: Seq<Dependency>, idx: int)
    requires
        names_unique(whole),
        s.len() <= idx < whole.len(),
        forall|a: int| 0 <= a < s.len() ==> s[a] == whole[a],
        whole[idx].name@ == m,
    ensures
        count_named(s, m) == 0,
    decreases s.len(),
{
    if s.len() > 0 {
        assert(s.last() == whole[s.len() - 1]);
        assert(whole[s.len() - 1].name@ != whole[idx].name@);
        let t = s.drop_last();
        assert forall|a: int| 0 <= a < t.len() implies t[a] == whole[a] by {
            assert(t[a] == s[a]);
        }
        lemma_count_named_zero(t, m, whole, idx);
    }
}

} // verus!
