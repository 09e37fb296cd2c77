use concerto::composer::RequiredPackage;
use concerto::error::ConcertoError;
use concerto::packagist::PackagistRelease;
use concerto::collection::{build_resolution_problem, LoggedProvider};
use concerto::resolution::{
    selection_is_sound, solve_dependency_graph, DependencySolver, LoggedObserver, LoggedSolver, ResolutionObserver,
    SolverStats,
};
use concerto::resolver::{
    candidate_cache_key, missing_candidate_jobs, providers_meeting, release_satisfies_requirement,
    root_package_constraints, CandidateProvider, ResolvedPackageEntry,
};
use concerto::solver::SolverTables;
use concerto::version_set::{DiscreteVersionSet, PubGrubPackage, PubGrubVersion};
use pubgrub::{
    resolve, DefaultStringReporter, Dependencies, DependencyProvider, PackageResolutionStatistics,
    PubGrubError, Reporter, VersionSet,
};
use std::cmp::Reverse;
use std::collections::HashMap;
use std::convert::Infallible;
use std::fmt;

#[derive(Clone, Debug, PartialEq, Eq, Hash)]
struct Pkg(PubGrubPackage);

impl fmt::Display for Pkg {
    fn fmt(&self, formatter: &mut fmt::Formatter<'_>) -> fmt::Result {
        match &self.0 {
            PubGrubPackage::Root => formatter.write_str("root"),
            PubGrubPackage::Package(package) => formatter.write_str(package),
        }
    }
}

#[derive(Clone, Debug, PartialEq, Eq, PartialOrd, Ord)]
struct Ver(PubGrubVersion);

impl fmt::Display for Ver {
    fn fmt(&self, formatter: &mut fmt::Formatter<'_>) -> fmt::Result {
        match &self.0 {
            PubGrubVersion::Root => formatter.write_str("1.0.0"),
            PubGrubVersion::Absent => formatter.write_str("absent"),
            PubGrubVersion::Release(version) => formatter.write_str(version),
            PubGrubVersion::Provided { package, version } => formatter.write_str(&format!("{package}@{version}")),
        }
    }
}

#[derive(Clone, Debug, PartialEq, Eq)]
struct Range(DiscreteVersionSet);

fn display_versions(versions: &[PubGrubVersion]) -> String {
    versions.iter().map(|version| Ver(version.clone()).to_string()).collect::<Vec<_>>().join(" || ")
}

impl fmt::Display for Range {
    fn fmt(&self, formatter: &mut fmt::Formatter<'_>) -> fmt::Result {
        match &self.0 {
            DiscreteVersionSet::Any => formatter.write_str("*"),
            DiscreteVersionSet::Only(versions) if versions.is_empty() => formatter.write_str("<empty>"),
            DiscreteVersionSet::Only(versions) => formatter.write_str(&display_versions(versions)),
            DiscreteVersionSet::Except(versions) => formatter.write_str(&format!("not {}", display_versions(versions))),
        }
    }
}

/// Sets the library builds keep their versions sorted, each once, and an `Except`
/// set names at least one version; its set operations ask for that.
fn well_formed(set: &DiscreteVersionSet) -> bool {
    let sorted = |versions: &Vec<PubGrubVersion>| versions.windows(2).all(|pair| pair[0] < pair[1]);
    match set {
        DiscreteVersionSet::Any => true,
        DiscreteVersionSet::Only(versions) => sorted(versions),
        DiscreteVersionSet::Except(versions) => !versions.is_empty() && sorted(versions),
    }
}

impl VersionSet for Range {
    type V = Ver;

    fn empty() -> Self {
        Range(DiscreteVersionSet::empty())
    }

    fn singleton(version: Ver) -> Self {
        Range(DiscreteVersionSet::singleton(version.0))
    }

    fn complement(&self) -> Self {
        assert!(well_formed(&self.0), "version set out of order");
        Range(self.0.complement())
    }

    fn intersection(&self, other: &Self) -> Self {
        assert!(well_formed(&self.0) && well_formed(&other.0), "version set out of order");
        Range(self.0.intersection(&other.0))
    }

    fn contains(&self, version: &Ver) -> bool {
        self.0.contains(&version.0)
    }
}

struct Provider<'a> {
    tables: &'a SolverTables,
}

impl DependencyProvider for Provider<'_> {
    type Err = Infallible;
    type M = String;
    type P = Pkg;
    type Priority = (u32, Reverse<usize>);
    type V = Ver;
    type VS = Range;

    fn prioritize(&self, package: &Pkg, range: &Range, stats: &PackageResolutionStatistics) -> Self::Priority {
        let (first, second) = self.tables.prioritize(&package.0, &range.0, stats.conflict_count());
        (first, Reverse(second))
    }

    fn choose_version(&self, package: &Pkg, range: &Range) -> Result<Option<Ver>, Infallible> {
        Ok(self.tables.choose_version(&package.0, &range.0).map(Ver))
    }

    fn get_dependencies(&self, package: &Pkg, version: &Ver) -> Result<Dependencies<Pkg, Range, String>, Infallible> {
        Ok(match self.tables.get_dependencies(&package.0, &version.0) {
            Some(dependencies) => Dependencies::Available(
                dependencies.into_iter().map(|(package, range)| (Pkg(package), Range(range))).collect(),
            ),
            None => Dependencies::Unavailable("metadata unavailable".to_string()),
        })
    }
}

struct PubGrubSolver;

impl DependencySolver for PubGrubSolver {
    fn solve(&mut self, tables: &SolverTables) -> Result<Vec<(PubGrubPackage, PubGrubVersion)>, String> {
        let provider = Provider { tables };
        match resolve(&provider, Pkg(PubGrubPackage::Root), Ver(PubGrubVersion::Root)) {
            Ok(solution) => Ok(solution.into_iter().map(|(package, version)| (package.0, version.0)).collect()),
            Err(PubGrubError::NoSolution(mut tree)) => {
                tree.collapse_no_versions();
                Err(DefaultStringReporter::report(&tree))
            },
            Err(other) => Err(format!("{other:?}")),
        }
    }
}

struct InMemoryCandidates {
    packages: HashMap<String, Vec<PackagistRelease>>,
    prefetches: usize,
}

#[derive(Default)]
struct InMemoryObserver {
    selected: Vec<(String, String)>,
}

impl ResolutionObserver for InMemoryObserver {
    fn package_selected(&mut self, package_name: &str, release: &PackagistRelease) {
        self.selected.push((package_name.to_string(), release.version.clone()));
    }
}

impl InMemoryCandidates {
    fn new<const N: usize>(packages: [(&str, Vec<PackagistRelease>); N]) -> Self {
        Self {
            packages: packages.into_iter().map(|(name, releases)| (name.to_string(), releases)).collect(),
            prefetches: 0,
        }
    }
}

impl CandidateProvider for InMemoryCandidates {
    fn prefetch(
        &mut self,
        _constraints: &Vec<(String, Vec<String>)>,
        _selected: &Vec<(String, PackagistRelease)>,
    ) -> Result<(), ConcertoError> {
        self.prefetches += 1;

        Ok(())
    }

    fn load(&mut self, package_name: &str, _constraints: &Vec<String>) -> Result<Vec<PackagistRelease>, ConcertoError> {
        Ok(self.packages.get(package_name).cloned().unwrap_or_default())
    }

    fn load_capability_providers(
        &mut self,
        requirement: &RequiredPackage,
    ) -> Result<Vec<(String, Vec<PackagistRelease>)>, ConcertoError> {
        let constraints = vec![requirement.constraint.clone()];
        let mut providers = Vec::new();

        for (package_name, releases) in &self.packages {
            let mut matching_releases = Vec::new();

            for release in releases {
                if release_satisfies_requirement(package_name, release, requirement, &constraints)? {
                    matching_releases.push(release.clone());
                }
            }

            if !matching_releases.is_empty() {
                providers.push((package_name.clone(), matching_releases));
            }
        }

        providers.sort_by(|left, right| left.0.cmp(&right.0));

        Ok(providers)
    }
}

fn release(version: &str, package_requires: &[RequiredPackage]) -> PackagistRelease {
    release_with_links(version, package_requires, &[], &[], &[])
}

fn release_with_links(
    version: &str,
    package_requires: &[RequiredPackage],
    conflicts: &[RequiredPackage],
    provides: &[RequiredPackage],
    replaces: &[RequiredPackage],
) -> PackagistRelease {
    PackagistRelease {
        version_count: 2,
        version: version.to_string(),
        dist_url: format!("https://example.com/{version}.zip"),
        dist_shasum: None,
        package_requires: package_requires.to_vec(),
        platform_requires: Vec::new(),
        conflicts: conflicts.to_vec(),
        provides: provides.to_vec(),
        replaces: replaces.to_vec(),
    }
}

fn required_package(name: &str, constraint: &str) -> RequiredPackage {
    RequiredPackage { name: name.to_string(), constraint: constraint.to_string() }
}

fn solve_observed(
    roots: &[RequiredPackage],
    candidates: &mut InMemoryCandidates,
    stats: &mut SolverStats,
) -> (Result<Vec<(String, ResolvedPackageEntry)>, ConcertoError>, Vec<(String, String)>) {
    let mut logged = LoggedProvider::new(std::mem::replace(candidates, InMemoryCandidates::new([])));
    let mut solver = LoggedSolver::new(PubGrubSolver);
    let mut observer = LoggedObserver::new(InMemoryObserver::default());
    let resolved = solve_dependency_graph(
        root_package_constraints(&roots.to_vec()),
        &mut logged,
        &mut solver,
        stats,
        &mut observer,
    );
    *candidates = logged.provider;
    (resolved, observer.observer.selected)
}

fn solve(
    roots: &[RequiredPackage],
    candidates: &mut InMemoryCandidates,
    stats: &mut SolverStats,
) -> Result<Vec<(String, ResolvedPackageEntry)>, ConcertoError> {
    solve_observed(roots, candidates, stats).0
}

fn entry<'a>(resolved: &'a [(String, ResolvedPackageEntry)], name: &str) -> &'a ResolvedPackageEntry {
    &resolved.iter().find(|(package, _)| package == name).unwrap().1
}

fn contains(resolved: &[(String, ResolvedPackageEntry)], name: &str) -> bool {
    resolved.iter().any(|(package, _)| package == name)
}

#[test]
fn backtracks_when_later_constraint_rejects_first_candidate() {
    let mut stats = SolverStats::new();
    let mut candidates = InMemoryCandidates::new([
        (
            "acme/app",
            vec![
                release("1.1.0", &[required_package("psr/log", "^3.0")]),
                release("1.0.0", &[required_package("psr/log", "^2.0")]),
            ],
        ),
        ("psr/log", vec![release("3.0.0", &[]), release("2.0.0", &[])]),
    ]);

    let resolved = solve(
        &[required_package("acme/app", "^1.0"), required_package("psr/log", "^2.0")],
        &mut candidates,
        &mut stats,
    )
    .unwrap();

    assert_eq!(entry(&resolved, "acme/app").version, "1.0.0");
    assert_eq!(entry(&resolved, "psr/log").version, "2.0.0");
    assert_eq!(entry(&resolved, "psr/log").constraints, vec!["^2.0".to_string(), "^2.0".to_string()]);
    assert!(stats.versions > 0);
    assert!(stats.dependencies > 0);
    assert!(candidates.prefetches > 0);
}

#[test]
fn returns_actionable_error_when_graph_has_no_solution() {
    let mut stats = SolverStats::new();
    let mut candidates = InMemoryCandidates::new([
        ("acme/app", vec![release("1.0.0", &[required_package("psr/log", "^3.0")])]),
        ("psr/log", vec![release("2.0.0", &[])]),
    ]);

    let error = solve(
        &[required_package("acme/app", "^1.0"), required_package("psr/log", "^2.0")],
        &mut candidates,
        &mut stats,
    )
    .unwrap_err()
    .message();

    assert!(error.contains("dependency graph"));
    assert!(error.contains("acme/app ^1.0"));
    assert!(error.contains("psr/log ^2.0"));
    assert!(error.contains("root 1.0.0 is forbidden"));
}

#[test]
fn conflict_rejects_candidate_that_blocks_selected_package() {
    let mut stats = SolverStats::new();
    let mut candidates = InMemoryCandidates::new([
        (
            "acme/app",
            vec![
                release_with_links("1.1.0", &[], &[required_package("acme/broken", "<2.0")], &[], &[]),
                release("1.0.0", &[]),
            ],
        ),
        ("acme/broken", vec![release("1.0.0", &[])]),
    ]);

    let resolved = solve(
        &[required_package("acme/app", "^1.0"), required_package("acme/broken", "^1.0")],
        &mut candidates,
        &mut stats,
    )
    .unwrap();

    assert_eq!(entry(&resolved, "acme/app").version, "1.0.0");
    assert_eq!(entry(&resolved, "acme/broken").version, "1.0.0");
}

#[test]
fn provide_satisfies_virtual_dependency() {
    let mut stats = SolverStats::new();
    let mut candidates = InMemoryCandidates::new([
        ("acme/app", vec![release("1.0.0", &[required_package("psr/log-implementation", "^1.0")])]),
        (
            "acme/logger",
            vec![release_with_links("1.0.0", &[], &[], &[required_package("psr/log-implementation", "1.0.0")], &[])],
        ),
    ]);

    let resolved = solve(
        &[required_package("acme/app", "^1.0"), required_package("acme/logger", "^1.0")],
        &mut candidates,
        &mut stats,
    )
    .unwrap();

    assert_eq!(entry(&resolved, "acme/app").version, "1.0.0");
    assert_eq!(entry(&resolved, "acme/logger").version, "1.0.0");
    assert!(!contains(&resolved, "psr/log-implementation"));
}

#[test]
fn replace_satisfies_replaced_package_dependency() {
    let mut stats = SolverStats::new();
    let mut candidates = InMemoryCandidates::new([
        ("acme/app", vec![release("1.0.0", &[required_package("acme/old-logger", "^1.0")])]),
        (
            "acme/logger",
            vec![release_with_links("1.0.0", &[], &[], &[], &[required_package("acme/old-logger", "self.version")])],
        ),
    ]);

    let resolved = solve(
        &[required_package("acme/app", "^1.0"), required_package("acme/logger", "^1.0")],
        &mut candidates,
        &mut stats,
    )
    .unwrap();

    assert_eq!(entry(&resolved, "acme/app").version, "1.0.0");
    assert_eq!(entry(&resolved, "acme/logger").version, "1.0.0");
    assert!(!contains(&resolved, "acme/old-logger"));
}

#[test]
fn discovers_provider_for_virtual_root_requirement() {
    let mut stats = SolverStats::new();
    let mut candidates = InMemoryCandidates::new([(
        "acme/logger",
        vec![release_with_links("1.0.0", &[], &[], &[required_package("psr/log-implementation", "1.0.0")], &[])],
    )]);

    let resolved =
        solve(&[required_package("psr/log-implementation", "^1.0")], &mut candidates, &mut stats).unwrap();

    assert_eq!(entry(&resolved, "acme/logger").version, "1.0.0");
    assert!(!contains(&resolved, "psr/log-implementation"));
}

#[test]
fn considers_provider_even_when_direct_package_exists() {
    let mut stats = SolverStats::new();
    let mut candidates = InMemoryCandidates::new([
        ("acme/contract", vec![release("1.0.0", &[required_package("acme/implementation", "^1.0")])]),
        ("acme/implementation", vec![release("2.0.0", &[])]),
        (
            "acme/provider",
            vec![release_with_links("1.0.0", &[], &[], &[required_package("acme/contract", "1.0.0")], &[])],
        ),
    ]);

    let resolved = solve(
        &[required_package("acme/contract", "^1.0"), required_package("acme/implementation", "^2.0")],
        &mut candidates,
        &mut stats,
    )
    .unwrap();

    assert_eq!(entry(&resolved, "acme/provider").version, "1.0.0");
    assert_eq!(entry(&resolved, "acme/implementation").version, "2.0.0");
    assert!(!contains(&resolved, "acme/contract"));
}

#[test]
fn providers_meeting_keeps_only_satisfying_releases() {
    let offered = vec![
        (
            "acme/logger".to_string(),
            vec![
                release_with_links("2.0.0", &[], &[], &[required_package("psr/log-implementation", "2.0.0")], &[]),
                release_with_links("1.0.0", &[], &[], &[required_package("psr/log-implementation", "1.0.0")], &[]),
            ],
        ),
        ("acme/other".to_string(), vec![release("1.0.0", &[])]),
    ];

    let kept = providers_meeting(&required_package("psr/log-implementation", "^1.0"), offered).unwrap();

    assert_eq!(kept.len(), 1);
    assert_eq!(kept[0].0, "acme/logger");
    assert_eq!(kept[0].1.len(), 1);
    assert_eq!(kept[0].1[0].version, "1.0.0");
}

#[test]
fn missing_candidate_jobs_skip_selected_and_cached_packages() {
    let constraints = vec![
        ("psr/log".to_string(), vec!["^3.0".to_string()]),
        ("monolog/monolog".to_string(), vec!["^3.0".to_string(), "^3.1".to_string()]),
        ("acme/cached".to_string(), vec!["^2.0".to_string(), "^1.0".to_string(), "^2.0".to_string()]),
        ("acme/selected".to_string(), vec!["^1.0".to_string()]),
        ("acme/stale".to_string(), vec!["^2.0".to_string()]),
    ];
    let cached = vec![
        candidate_cache_key("acme/cached", &vec!["^1.0".to_string(), "^2.0".to_string()]),
        candidate_cache_key("acme/stale", &vec!["^1.0".to_string()]),
    ];
    let selected = vec![("acme/selected".to_string(), release("1.0.0", &[]))];

    let jobs = missing_candidate_jobs(&cached, &constraints, &selected);

    let names = jobs.iter().map(|job| job.package_name.as_str()).collect::<Vec<_>>();
    assert_eq!(names, vec!["acme/stale", "monolog/monolog", "psr/log"]);
    assert_eq!(jobs[1].constraints, vec!["^3.0".to_string(), "^3.1".to_string()]);
    assert_eq!(jobs[0].constraints, vec!["^2.0".to_string()]);
}

#[test]
fn collects_requirements_in_rounds_with_one_prefetch_each() {
    let rp = required_package;
    let mut candidates = LoggedProvider::new(InMemoryCandidates::new([
        ("acme/app", vec![release("1.1.0", &[rp("psr/log", "^3.0")]), release("1.0.0", &[rp("psr/log", "^2.0")])]),
        ("psr/log", vec![release("3.0.0", &[]), release("2.0.0", &[])]),
    ]));

    let problem =
        build_resolution_problem(vec![rp("acme/app", "^1.0"), rp("psr/log", "^2.0")], &mut candidates, false)
            .unwrap();

    let keys = problem
        .releases
        .iter()
        .map(|(key, _)| (key.package_name.as_str(), key.version.as_str()))
        .collect::<Vec<_>>();
    assert_eq!(
        keys,
        vec![("acme/app", "1.1.0"), ("acme/app", "1.0.0"), ("psr/log", "2.0.0"), ("psr/log", "3.0.0")]
    );
    assert_eq!(problem.root_requirements.len(), 2);
    assert_eq!(candidates.provider.prefetches, 2);
}

#[test]
fn checks_that_a_selection_meets_requirements_and_conflicts() {
    let rp = required_package;
    let roots = vec![rp("acme/app", "^1.0")];
    let sound = vec![
        ("acme/app".to_string(), release("1.0.0", &[rp("psr/log", "^2.0")])),
        ("psr/log".to_string(), release("2.0.0", &[])),
    ];
    assert!(selection_is_sound(&roots, &sound));

    let unmet = vec![
        ("acme/app".to_string(), release("1.0.0", &[rp("psr/log", "^2.0")])),
        ("psr/log".to_string(), release("3.0.0", &[])),
    ];
    assert!(!selection_is_sound(&roots, &unmet));

    let conflicting = vec![
        ("acme/app".to_string(), release_with_links("1.0.0", &[], &[rp("psr/log", "^2.0")], &[], &[])),
        ("psr/log".to_string(), release("2.0.0", &[])),
    ];
    assert!(!selection_is_sound(&roots, &conflicting));
}

#[test]
fn tells_the_observer_of_each_selected_package_in_name_order() {
    let rp = required_package;
    let mut stats = SolverStats::new();
    let mut candidates = InMemoryCandidates::new([
        ("zeta/tool", vec![release("1.2.0", &[rp("acme/app", "^1.0")])]),
        ("acme/app", vec![release("1.1.0", &[rp("psr/log", "^3.0")]), release("1.0.0", &[rp("psr/log", "^2.0")])]),
        ("psr/log", vec![release("3.0.0", &[]), release("2.0.0", &[])]),
    ]);

    let (resolved, told) = solve_observed(&[rp("zeta/tool", "^1.0"), rp("psr/log", "^2.0")], &mut candidates, &mut stats);

    assert_eq!(resolved.unwrap().len(), 3);
    assert_eq!(
        told,
        vec![
            ("acme/app".to_string(), "1.0.0".to_string()),
            ("psr/log".to_string(), "2.0.0".to_string()),
            ("zeta/tool".to_string(), "1.2.0".to_string()),
        ]
    );
}

#[test]
fn tells_the_observer_nothing_when_the_graph_has_no_solution() {
    let rp = required_package;
    let mut stats = SolverStats::new();
    let mut candidates = InMemoryCandidates::new([
        ("acme/app", vec![release("1.0.0", &[rp("psr/log", "^3.0")])]),
        ("psr/log", vec![release("2.0.0", &[])]),
    ]);

    let (resolved, told) = solve_observed(&[rp("acme/app", "^1.0"), rp("psr/log", "^2.0")], &mut candidates, &mut stats);

    match resolved {
        Err(ConcertoError::Resolution { package, constraints, .. }) => {
            assert_eq!(package, "dependency graph");
            assert_eq!(constraints, vec!["acme/app ^1.0".to_string(), "psr/log ^2.0".to_string()]);
        }
        other => panic!("expected a resolution error, got {other:?}"),
    }
    assert!(told.is_empty());
    assert_eq!(candidates.prefetches, 4);
}
