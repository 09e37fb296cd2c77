//! Dependency resolution: which releases a requirement accepts, the constraint
//! lists the solver starts from and ends with, and what is reported as resolved.

use vstd::prelude::*;
use crate::composer::RequiredPackage;
use crate::error::{clone_strings, views, ConcertoError};
use crate::lockfile::{requirement_pairs, sort_requirements};
use crate::order::{sort_texts, sorted_unique, strictly_sorted, text_less, text_order};
use crate::order::pair_order;
use crate::packagist::{
    constraints_outcome, opt_view, resolution_error, PackagistRelease, ReleaseModel,
};
use crate::semver::{satisfies, satisfies_spec};
use crate::text::{concat2, concat3, join, join_seq, str_eq};

verus! {

/// A package the resolution selected, as the installer uses it.
#[derive(Debug)]
pub struct ResolvedPackageEntry {
    pub version: String,
    pub dist_url: String,
    pub dist_shasum: Option<String>,
    /// Every constraint that reached the package, in the order they did.
    pub constraints: Vec<String>,
    pub package_requires: Vec<RequiredPackage>,
    pub platform_requires: Vec<RequiredPackage>,
    pub provides: Vec<RequiredPackage>,
    pub replaces: Vec<RequiredPackage>,
}

impl Clone for ResolvedPackageEntry {
    fn clone(&self) -> (r: Self)
        ensures
            r.version@ == self.version@,
            r.dist_url@ == self.dist_url@,
            opt_view(r.dist_shasum) == opt_view(self.dist_shasum),
            r.constraints@ == self.constraints@,
            r.package_requires@ == self.package_requires@,
            r.platform_requires@ == self.platform_requires@,
            r.provides@ == self.provides@,
            r.replaces@ == self.replaces@,
    {
        ResolvedPackageEntry {
            version: self.version.clone(),
            dist_url: self.dist_url.clone(),
            dist_shasum: match &self.dist_shasum {
                Some(s) => Some(s.clone()),
                None => None,
            },
            constraints: clone_strings(&self.constraints),
            package_requires: crate::composer::clone_requirements(&self.package_requires),
            platform_requires: crate::composer::clone_requirements(&self.platform_requires),
            provides: crate::composer::clone_requirements(&self.provides),
            replaces: crate::composer::clone_requirements(&self.replaces),
        }
    }
}

/// No name occurs twice among the entries of an association list.
pub open spec fn names_unique<T>(entries: Seq<(String, T)>) -> bool {
    forall|i: int, j: int| 0 <= i < j < entries.len() ==> #[trigger] entries[i].0@ != #[trigger] entries[j].0@
}

/// The names of an association list, in order.
pub open spec fn entry_names<T>(entries: Seq<(String, T)>) -> Seq<Seq<char>> {
    entries.map_values(|e: (String, T)| e.0@)
}

// ---------------------------------------------------------------------------
// Constraint lists by package
// ---------------------------------------------------------------------------

/// What a list of constraints by package is: names with their constraints, in order.
pub open spec fn constraint_entries(entries: Seq<(String, Vec<String>)>) -> Seq<
    (Seq<char>, Seq<Seq<char>>),
> {
    entries.map_values(|e: (String, Vec<String>)| (e.0@, views(e.1@)))
}

/// Adds `constraint` to the list of `name`, or a new list after the others.
pub open spec fn with_constraint(
    entries: Seq<(Seq<char>, Seq<Seq<char>>)>,
    name: Seq<char>,
    constraint: Seq<char>,
) -> Seq<(Seq<char>, Seq<Seq<char>>)>
    decreases entries.len(),
{
    if entries.len() == 0 {
        seq![(name, seq![constraint])]
    } else if entries[0].0 == name {
        entries.update(0, (name, entries[0].1.push(constraint)))
    } else {
        seq![entries[0]] + with_constraint(entries.drop_first(), name, constraint)
    }
}

/// The constraint lists that adding `requirements` in order gives.
pub open spec fn constraints_of(requirements: Seq<RequiredPackage>) -> Seq<
    (Seq<char>, Seq<Seq<char>>),
>
    decreases requirements.len(),
{
    if requirements.len() == 0 {
        Seq::empty()
    } else {
        with_constraint(
            constraints_of(requirements.drop_last()),
            requirements.last().name@,
            requirements.last().constraint@,
        )
    }
}

proof fn lemma_with_constraint_at(
    entries: Seq<(Seq<char>, Seq<Seq<char>>)>,
    name: Seq<char>,
    constraint: Seq<char>,
    i: int,
)
    requires
        0 <= i <= entries.len(),
        forall|j: int| 0 <= j < i ==> #[trigger] entries[j].0 != name,
        i < entries.len() ==> entries[i].0 == name,
    ensures
        with_constraint(entries, name, constraint) == if i < entries.len() {
            entries.update(i, (name, entries[i].1.push(constraint)))
        } else {
            entries.push((name, seq![constraint]))
        },
    decreases i,
{
    if i > 0 {
        let rest = entries.drop_first();
        assert forall|j: int| 0 <= j < i - 1 implies #[trigger] rest[j].0 != name by {
            assert(rest[j] == entries[j + 1]);
        }
        lemma_with_constraint_at(rest, name, constraint, i - 1);
        if i < entries.len() {
            assert(seq![entries[0]] + rest.update(i - 1, (name, rest[i - 1].1.push(constraint)))
                =~= entries.update(i, (name, entries[i].1.push(constraint))));
        } else {
            assert(seq![entries[0]] + rest.push((name, seq![constraint])) =~= entries.push(
                (name, seq![constraint]),
            ));
        }
    } else if entries.len() == 0 {
        assert(seq![(name, seq![constraint])] =~= entries.push((name, seq![constraint])));
    }
}

/// Adds the constraint of `package` to its package's list.
pub fn add_package_constraint(constraints: &mut Vec<(String, Vec<String>)>, package: &RequiredPackage)
    ensures
        constraint_entries(final(constraints)@) == with_constraint(
            constraint_entries(old(constraints)@),
            package.name@,
            package.constraint@,
        ),
{
    let ghost before = constraint_entries(constraints@);
    let mut i: usize = 0;
    while i < constraints.len()
        invariant
            i <= constraints@.len(),
            before == constraint_entries(constraints@),
            before == constraint_entries(old(constraints)@),
            forall|j: int| 0 <= j < i ==> #[trigger] before[j].0 != package.name@,
        decreases constraints@.len() - i,
    {
        if str_eq(constraints[i].0.as_str(), package.name.as_str()) {
            proof {
                lemma_with_constraint_at(before, package.name@, package.constraint@, i as int);
            }
            let mut entry = constraints.remove(i);
            entry.1.push(package.constraint.clone());
            let ghost entry_model = (entry.0@, views(entry.1@));
            constraints.insert(i, entry);
            proof {
                assert(entry_model == (package.name@, before[i as int].1.push(package.constraint@)));
                assert(constraint_entries(constraints@) =~= before.update(i as int, entry_model));
                assert(constraint_entries(constraints@) == with_constraint(
                    before,
                    package.name@,
                    package.constraint@,
                ));
            }
            return;
        }
        i = i + 1;
    }
    proof {
        lemma_with_constraint_at(before, package.name@, package.constraint@, i as int);
    }
    let mut list: Vec<String> = Vec::new();
    list.push(package.constraint.clone());
    let ghost entry_model = (package.name@, views(list@));
    constraints.push((package.name.clone(), list));
    assert(views(list@) =~= seq![package.constraint@]);
    assert(constraint_entries(constraints@) =~= before.push(entry_model));
}

/// The constraint lists of the root requirements, by package.
pub fn root_package_constraints(root_packages: &Vec<RequiredPackage>) -> (r: Vec<(String, Vec<String>)>)
    ensures
        constraint_entries(r@) == constraints_of(root_packages@),
{
    let mut constraints: Vec<(String, Vec<String>)> = Vec::new();
    let mut i: usize = 0;
    assert(constraint_entries(constraints@) =~= Seq::<(Seq<char>, Seq<Seq<char>>)>::empty());
    while i < root_packages.len()
        invariant
            i <= root_packages@.len(),
            constraint_entries(constraints@) == constraints_of(root_packages@.take(i as int)),
        decreases root_packages@.len() - i,
    {
        assert(root_packages@.take(i + 1).drop_last() =~= root_packages@.take(i as int));
        add_package_constraint(&mut constraints, &root_packages[i]);
        i = i + 1;
    }
    assert(root_packages@.take(root_packages@.len() as int) =~= root_packages@);
    constraints
}

/// Every (name, constraint) pair of the lists, list by list.
pub open spec fn flattened(entries: Seq<(Seq<char>, Seq<Seq<char>>)>) -> Seq<(Seq<char>, Seq<char>)>
    decreases entries.len(),
{
    if entries.len() == 0 {
        Seq::empty()
    } else {
        flattened(entries.drop_last()) + entries.last().1.map_values(
            |c: Seq<char>| (entries.last().0, c),
        )
    }
}

/// The requirements the constraint lists stand for, sorted by name and constraint.
pub fn requirements_from_constraints(package_constraints: &Vec<(String, Vec<String>)>) -> (r: Vec<
    RequiredPackage,
>)
    ensures
        requirement_pairs(r@) == flattened(constraint_entries(package_constraints@)).sort_by(
            pair_order(),
        ),
{
    let mut requirements: Vec<RequiredPackage> = Vec::new();
    let ghost entries = constraint_entries(package_constraints@);
    let mut i: usize = 0;
    while i < package_constraints.len()
        invariant
            i <= package_constraints@.len(),
            entries == constraint_entries(package_constraints@),
            requirement_pairs(requirements@) == flattened(entries.take(i as int)),
        decreases package_constraints@.len() - i,
    {
        let name = &package_constraints[i].0;
        let list = &package_constraints[i].1;
        let ghost start = requirement_pairs(requirements@);
        let mut j: usize = 0;
        while j < list.len()
            invariant
                j <= list@.len(),
                requirement_pairs(requirements@) == start + views(list@).take(j as int).map_values(
                    |c: Seq<char>| (name@, c),
                ),
            decreases list@.len() - j,
        {
            let ghost before = requirements@;
            let item = RequiredPackage { name: name.clone(), constraint: list[j].clone() };
            assert((item.name@, item.constraint@) == (name@, list@[j as int]@));
            requirements.push(item);
            assert(requirement_pairs(requirements@) =~= requirement_pairs(before).push(
                (name@, list@[j as int]@),
            ));
            assert(views(list@).take(j + 1) =~= views(list@).take(j as int).push(list@[j as int]@));
            assert(views(list@).take(j + 1).map_values(|c: Seq<char>| (name@, c)) =~= views(
                list@,
            ).take(j as int).map_values(|c: Seq<char>| (name@, c)).push((name@, list@[j as int]@)));
            j = j + 1;
        }
        proof {
            assert(views(list@).take(list@.len() as int) =~= views(list@));
            assert(entries.take(i + 1).drop_last() =~= entries.take(i as int));
            assert(entries.take(i + 1).last() == (name@, views(list@)));
        }
        i = i + 1;
    }
    assert(entries.take(package_constraints@.len() as int) =~= entries);
    sort_requirements(&requirements)
}

/// One constraint list as a message shows it: the name, a space, the constraints
/// joined by `, `.
pub open spec fn constraint_line(entry: (Seq<char>, Seq<Seq<char>>)) -> Seq<char> {
    entry.0 + " "@ + join_seq(entry.1, ", "@)
}

/// The constraint lists as lines of a message, sorted.
pub fn graph_constraints(package_constraints: &Vec<(String, Vec<String>)>) -> (r: Vec<String>)
    ensures
        views(r@) == constraint_entries(package_constraints@).map_values(
            |e: (Seq<char>, Seq<Seq<char>>)| constraint_line(e),
        ).sort_by(text_order()),
{
    let mut lines: Vec<String> = Vec::new();
    let mut i: usize = 0;
    while i < package_constraints.len()
        invariant
            i <= package_constraints@.len(),
            views(lines@) == constraint_entries(package_constraints@).take(i as int).map_values(
                |e: (Seq<char>, Seq<Seq<char>>)| constraint_line(e),
            ),
        decreases package_constraints@.len() - i,
    {
        let joined = join(&package_constraints[i].1, ", ");
        let line = concat3(package_constraints[i].0.as_str(), " ", joined.as_str());
        let ghost before = lines@;
        let ghost entry = constraint_entries(package_constraints@)[i as int];
        assert(line@ == constraint_line(entry));
        lines.push(line);
        assert(views(lines@) =~= views(before).push(constraint_line(entry)));
        assert(constraint_entries(package_constraints@).take(i + 1) =~= constraint_entries(
            package_constraints@,
        ).take(i as int).push(entry));
        assert(constraint_entries(package_constraints@).take(i + 1).map_values(
            |e: (Seq<char>, Seq<Seq<char>>)| constraint_line(e),
        ) =~= constraint_entries(package_constraints@).take(i as int).map_values(
            |e: (Seq<char>, Seq<Seq<char>>)| constraint_line(e),
        ).push(constraint_line(entry)));
        i = i + 1;
    }
    assert(constraint_entries(package_constraints@).take(package_constraints@.len() as int)
        =~= constraint_entries(package_constraints@));
    sort_texts(&lines)
}

// ---------------------------------------------------------------------------
// Which releases satisfy a requirement
// ---------------------------------------------------------------------------

/// Whether a capability a release declares (`provided`) meets a required constraint:
/// `*` on either side always does, `self.version` stands for the release's version,
/// and a constraint the version parser cannot read only meets the same text.
pub open spec fn capability_matches(
    provided: Seq<char>,
    provider_version: Seq<char>,
    required: Seq<char>,
) -> bool {
    if provided == "*"@ || required == "*"@ {
        true
    } else {
        let version = if provided == "self.version"@ {
            provider_version
        } else {
            provided
        };
        match satisfies_spec(version, required) {
            Ok(m) => m,
            Err(_) => provided == required,
        }
    }
}

/// Whether the capability `provided`, declared by a release at `provider_version`,
/// meets `required_constraint`. It never fails.
pub fn capability_constraint_matches(
    provided_constraint: &str,
    provider_version: &str,
    required_constraint: &str,
) -> (r: Result<bool, ConcertoError>)
    ensures
        r == Ok::<bool, ConcertoError>(
            capability_matches(provided_constraint@, provider_version@, required_constraint@),
        ),
{
    if str_eq(provided_constraint, "*") || str_eq(required_constraint, "*") {
        return Ok(true);
    }
    let provided_version = if str_eq(provided_constraint, "self.version") {
        provider_version
    } else {
        provided_constraint
    };
    match satisfies(provided_version, required_constraint) {
        Ok(matches) => Ok(matches),
        Err(_) => Ok(str_eq(provided_constraint, required_constraint)),
    }
}

/// The capabilities of a release: what it provides, then what it replaces.
pub open spec fn capabilities(release: ReleaseModel) -> Seq<RequiredPackage> {
    release.provides + release.replaces
}

/// Some capability of the release has the required name and meets its constraint.
pub open spec fn capability_satisfies(release: ReleaseModel, requirement: RequiredPackage) -> bool {
    exists|i: int|
        0 <= i < capabilities(release).len() && #[trigger] capabilities(release)[i].name@
            == requirement.name@ && capability_matches(
            capabilities(release)[i].constraint@,
            release.version,
            requirement.constraint@,
        )
}

/// Whether the release of `package_name` satisfies `requirement`: as that package, its
/// version meeting `constraints`, or through a capability; `Err` carries the parser's
/// message when the version could not be checked.
pub open spec fn satisfies_requirement_spec(
    package_name: Seq<char>,
    release: ReleaseModel,
    requirement: RequiredPackage,
    constraints: Seq<Seq<char>>,
) -> Result<bool, Seq<char>> {
    if package_name == requirement.name@ {
        match constraints_outcome(release.version, constraints) {
            Err(e) => Err(e),
            Ok(true) => Ok(true),
            Ok(false) => Ok(capability_satisfies(release, requirement)),
        }
    } else {
        Ok(capability_satisfies(release, requirement))
    }
}

/// Whether a capability of `release` has the required name and meets its constraint.
pub fn has_matching_capability(release: &PackagistRelease, requirement: &RequiredPackage) -> (r: bool)
    ensures
        r == capability_satisfies(release@, *requirement),
{
    let ghost caps = capabilities(release@);
    let mut i: usize = 0;
    while i < release.provides.len()
        invariant
            i <= release.provides@.len(),
            caps == capabilities(release@),
            forall|j: int|
                0 <= j < i ==> !(#[trigger] caps[j].name@ == requirement.name@
                    && capability_matches(caps[j].constraint@, release.version@, requirement.constraint@)),
        decreases release.provides@.len() - i,
    {
        let capability = &release.provides[i];
        assert(caps[i as int] == *capability);
        if str_eq(capability.name.as_str(), requirement.name.as_str()) {
            if let Ok(true) = capability_constraint_matches(
                capability.constraint.as_str(),
                release.version.as_str(),
                requirement.constraint.as_str(),
            ) {
                return true;
            }
        }
        i = i + 1;
    }
    let mut k: usize = 0;
    while k < release.replaces.len()
        invariant
            k <= release.replaces@.len(),
            caps == capabilities(release@),
            forall|j: int|
                0 <= j < release.provides@.len() + k ==> !(#[trigger] caps[j].name@
                    == requirement.name@ && capability_matches(
                    caps[j].constraint@,
                    release.version@,
                    requirement.constraint@,
                )),
        decreases release.replaces@.len() - k,
    {
        let capability = &release.replaces[k];
        assert(caps[release.provides@.len() + k] == *capability);
        if str_eq(capability.name.as_str(), requirement.name.as_str()) {
            if let Ok(true) = capability_constraint_matches(
                capability.constraint.as_str(),
                release.version.as_str(),
                requirement.constraint.as_str(),
            ) {
                return true;
            }
        }
        k = k + 1;
    }
    false
}

/// Whether the release of `package_name` satisfies `requirement`.
pub fn release_satisfies_requirement(
    package_name: &str,
    release: &PackagistRelease,
    requirement: &RequiredPackage,
    constraints: &Vec<String>,
) -> (r: Result<bool, ConcertoError>)
    ensures
        match satisfies_requirement_spec(package_name@, release@, *requirement, views(constraints@)) {
            Ok(b) => r == Ok::<bool, ConcertoError>(b),
            Err(e) => r matches Err(error) && resolution_error(
                error,
                requirement.name@,
                constraints@,
                "could not check package constraint: "@ + e,
            ),
        },
{
    if str_eq(package_name, requirement.name.as_str()) {
        if release.matches_constraints(requirement.name.as_str(), constraints)? {
            return Ok(true);
        }
    }
    let ghost caps = capabilities(release@);
    let mut i: usize = 0;
    while i < release.provides.len()
        invariant
            i <= release.provides@.len(),
            caps == capabilities(release@),
            satisfies_requirement_spec(package_name@, release@, *requirement, views(constraints@))
                == Ok::<bool, Seq<char>>(capability_satisfies(release@, *requirement)),
            forall|j: int|
                0 <= j < i ==> !(#[trigger] caps[j].name@ == requirement.name@
                    && capability_matches(caps[j].constraint@, release.version@, requirement.constraint@)),
        decreases release.provides@.len() - i,
    {
        let capability = &release.provides[i];
        assert(caps[i as int] == *capability);
        if str_eq(capability.name.as_str(), requirement.name.as_str()) {
            if capability_constraint_matches(
                capability.constraint.as_str(),
                release.version.as_str(),
                requirement.constraint.as_str(),
            )? {
                return Ok(true);
            }
        }
        i = i + 1;
    }
    let mut k: usize = 0;
    while k < release.replaces.len()
        invariant
            k <= release.replaces@.len(),
            caps == capabilities(release@),
            satisfies_requirement_spec(package_name@, release@, *requirement, views(constraints@))
                == Ok::<bool, Seq<char>>(capability_satisfies(release@, *requirement)),
            forall|j: int|
                0 <= j < release.provides@.len() + k ==> !(#[trigger] caps[j].name@
                    == requirement.name@ && capability_matches(
                    caps[j].constraint@,
                    release.version@,
                    requirement.constraint@,
                )),
        decreases release.replaces@.len() - k,
    {
        let capability = &release.replaces[k];
        assert(caps[release.provides@.len() + k] == *capability);
        if str_eq(capability.name.as_str(), requirement.name.as_str()) {
            if capability_constraint_matches(
                capability.constraint.as_str(),
                release.version.as_str(),
                requirement.constraint.as_str(),
            )? {
                return Ok(true);
            }
        }
        k = k + 1;
    }
    Ok(false)
}

// ---------------------------------------------------------------------------
// The resolution problem
// ---------------------------------------------------------------------------

/// A release of a package, by name and version.
#[derive(Debug)]
pub struct PackageVersionKey {
    pub package_name: String,
    pub version: String,
}

/// What a release key is: the package name and the version.
pub open spec fn key_of(key: PackageVersionKey) -> (Seq<char>, Seq<char>) {
    (key.package_name@, key.version@)
}

/// Everything the solver chooses from: the root requirements, and every release
/// found for them and for what those releases require, in the order they were found.
#[derive(Debug)]
pub struct ResolutionProblem {
    pub root_requirements: Vec<RequiredPackage>,
    pub releases: Vec<(PackageVersionKey, PackagistRelease)>,
}

/// No release occurs twice, and each key carries its release's version.
pub open spec fn releases_well_formed(releases: Seq<(PackageVersionKey, PackagistRelease)>) -> bool {
    &&& forall|i: int, j: int|
        0 <= i < j < releases.len() ==> key_of(#[trigger] releases[i].0) != key_of(
            #[trigger] releases[j].0,
        )
    &&& forall|i: int| 0 <= i < releases.len() ==> (#[trigger] releases[i].0).version@ == releases[i].1.version@
}

/// Where candidate releases come from. Its results are taken as they come.
pub trait CandidateProvider {
    /// Loads ahead the candidates of the packages in `constraints`.
    fn prefetch(
        &mut self,
        constraints: &Vec<(String, Vec<String>)>,
        selected: &Vec<(String, PackagistRelease)>,
    ) -> Result<(), ConcertoError>;

    /// The candidate releases of a package under `constraints`.
    fn load(&mut self, package_name: &str, constraints: &Vec<String>) -> Result<
        Vec<PackagistRelease>,
        ConcertoError,
    >;

    /// Packages whose releases provide or replace `requirement`, with those releases.
    fn load_capability_providers(&mut self, requirement: &RequiredPackage) -> Result<
        Vec<(String, Vec<PackagistRelease>)>,
        ConcertoError,
    >;
}

/// Whether `releases` holds the release `version` of `package_name`.
fn has_release(
    releases: &Vec<(PackageVersionKey, PackagistRelease)>,
    package_name: &str,
    version: &str,
) -> (r: bool)
    ensures
        r == exists|i: int|
            0 <= i < releases@.len() && #[trigger] key_of(releases@[i].0) == (package_name@, version@),
{
    let mut i: usize = 0;
    while i < releases.len()
        invariant
            i <= releases@.len(),
            forall|j: int| 0 <= j < i ==> #[trigger] key_of(releases@[j].0) != (package_name@, version@),
        decreases releases@.len() - i,
    {
        if str_eq(releases[i].0.package_name.as_str(), package_name) && str_eq(
            releases[i].0.version.as_str(),
            version,
        ) {
            assert(key_of(releases@[i as int].0) == (package_name@, version@));
            return true;
        }
        i = i + 1;
    }
    false
}

/// Adds `release` of `package_name` unless it is there already; a new release's
/// requirements join `pending`.
pub fn queue_release(
    package_name: &str,
    release: PackagistRelease,
    releases: &mut Vec<(PackageVersionKey, PackagistRelease)>,
    pending: &mut Vec<RequiredPackage>,
)
    requires
        releases_well_formed(old(releases)@),
    ensures
        releases_well_formed(final(releases)@),
        if exists|i: int|
            0 <= i < old(releases)@.len() && #[trigger] key_of(old(releases)@[i].0) == (
                package_name@,
                release.version@,
            ) {
            final(releases)@ == old(releases)@ && final(pending)@ == old(pending)@
        } else {
            final(releases)@.len() == old(releases)@.len() + 1
                && final(releases)@.take(old(releases)@.len() as int) == old(releases)@
                && key_of(final(releases)@.last().0) == (package_name@, release.version@)
                && final(releases)@.last().1@ == release@
                && final(pending)@ == old(pending)@ + release.package_requires@
        },
{
    if has_release(releases, package_name, release.version.as_str()) {
        return;
    }
    let ghost before = releases@;
    let key = PackageVersionKey {
        package_name: package_name.to_owned(),
        version: release.version.clone(),
    };
    crate::composer::append_requirements(pending, &release.package_requires);
    releases.push((key, release));
    proof {
        assert(releases@.take(before.len() as int) =~= before);
        assert forall|i: int, j: int| 0 <= i < j < releases@.len() implies key_of(
            #[trigger] releases@[i].0,
        ) != key_of(#[trigger] releases@[j].0) by {
            if j == before.len() {
                assert(releases@[i] == before[i]);
            } else {
                assert(releases@[i] == before[i] && releases@[j] == before[j]);
            }
        }
    }
}

/// The releases among `loaded` whose version meets `constraints`, in order; or the
/// first failure to check a version.
pub open spec fn matching_outcome(loaded: Seq<ReleaseModel>, constraints: Seq<Seq<char>>) -> Result<
    Seq<ReleaseModel>,
    Seq<char>,
>
    decreases loaded.len(),
{
    if loaded.len() == 0 {
        Ok(Seq::empty())
    } else {
        match matching_outcome(loaded.drop_last(), constraints) {
            Err(e) => Err(e),
            Ok(kept) => match constraints_outcome(loaded.last().version, constraints) {
                Err(e) => Err(e),
                Ok(true) => Ok(kept.push(loaded.last())),
                Ok(false) => Ok(kept),
            },
        }
    }
}

proof fn lemma_matching_error_stays(loaded: Seq<ReleaseModel>, constraints: Seq<Seq<char>>, n: int)
    requires
        0 <= n <= loaded.len(),
        matching_outcome(loaded.take(n), constraints) is Err,
    ensures
        matching_outcome(loaded, constraints) == matching_outcome(loaded.take(n), constraints),
    decreases loaded.len() - n,
{
    if n < loaded.len() {
        assert(loaded.take(n + 1).drop_last() =~= loaded.take(n));
        lemma_matching_error_stays(loaded, constraints, n + 1);
    } else {
        assert(loaded.take(n) =~= loaded);
    }
}

/// The releases among `loaded` whose version meets all `constraints`, in order.
pub fn releases_matching(
    package_name: &str,
    constraints: &Vec<String>,
    loaded: Vec<PackagistRelease>,
) -> (r: Result<Vec<PackagistRelease>, ConcertoError>)
    ensures
        match matching_outcome(crate::packagist::release_models(loaded@), views(constraints@)) {
            Ok(kept) => r matches Ok(v) && crate::packagist::release_models(v@) == kept,
            Err(e) => r matches Err(error) && resolution_error(
                error,
                package_name@,
                constraints@,
                "could not check package constraint: "@ + e,
            ),
        },
{
    let ghost models = crate::packagist::release_models(loaded@);
    let mut releases: Vec<PackagistRelease> = Vec::new();
    let mut i: usize = 0;
    assert(models.take(0) =~= Seq::<ReleaseModel>::empty());
    assert(crate::packagist::release_models(releases@) =~= Seq::<ReleaseModel>::empty());
    while i < loaded.len()
        invariant
            i <= loaded@.len(),
            models == crate::packagist::release_models(loaded@),
            matching_outcome(models.take(i as int), views(constraints@)) == Ok::<
                Seq<ReleaseModel>,
                Seq<char>,
            >(crate::packagist::release_models(releases@)),
        decreases loaded@.len() - i,
    {
        let ghost prefix = models.take(i + 1);
        assert(prefix.drop_last() =~= models.take(i as int));
        assert(prefix.last() == loaded@[i as int]@);
        match loaded[i].matches_constraints(package_name, constraints) {
            Err(error) => {
                proof {
                    lemma_matching_error_stays(models, views(constraints@), i + 1);
                }
                return Err(error);
            },
            Ok(true) => {
                let ghost before = releases@;
                let release = loaded[i].clone();
                releases.push(release);
                assert(crate::packagist::release_models(releases@) =~= crate::packagist::release_models(
                    before,
                ).push(loaded@[i as int]@));
            },
            Ok(false) => {},
        }
        i = i + 1;
    }
    assert(models.take(loaded@.len() as int) =~= models);
    Ok(releases)
}

/// The releases of package `name` that satisfy `requirement` (by name and its own
/// constraint, or through a capability), in order; or the first failure to check one.
pub open spec fn satisfying_outcome(
    name: Seq<char>,
    releases: Seq<ReleaseModel>,
    requirement: RequiredPackage,
) -> Result<Seq<ReleaseModel>, Seq<char>>
    decreases releases.len(),
{
    if releases.len() == 0 {
        Ok(Seq::empty())
    } else {
        match satisfying_outcome(name, releases.drop_last(), requirement) {
            Err(e) => Err(e),
            Ok(kept) => match satisfies_requirement_spec(
                name,
                releases.last(),
                requirement,
                seq![requirement.constraint@],
            ) {
                Err(e) => Err(e),
                Ok(true) => Ok(kept.push(releases.last())),
                Ok(false) => Ok(kept),
            },
        }
    }
}

/// The packages offered for `requirement`, each with its releases that satisfy it,
/// packages left without such a release dropped; or the first failure to check one.
pub open spec fn providers_outcome(
    offered: Seq<(Seq<char>, Seq<ReleaseModel>)>,
    requirement: RequiredPackage,
) -> Result<Seq<(Seq<char>, Seq<ReleaseModel>)>, Seq<char>>
    decreases offered.len(),
{
    if offered.len() == 0 {
        Ok(Seq::empty())
    } else {
        match providers_outcome(offered.drop_last(), requirement) {
            Err(e) => Err(e),
            Ok(kept) => match satisfying_outcome(offered.last().0, offered.last().1, requirement) {
                Err(e) => Err(e),
                Ok(releases) => if releases.len() > 0 {
                    Ok(kept.push((offered.last().0, releases)))
                } else {
                    Ok(kept)
                },
            },
        }
    }
}

/// The packages and releases as text and models.
pub open spec fn offered_models(offered: Seq<(String, Vec<PackagistRelease>)>) -> Seq<
    (Seq<char>, Seq<ReleaseModel>),
> {
    offered.map_values(
        |p: (String, Vec<PackagistRelease>)| (p.0@, crate::packagist::release_models(p.1@)),
    )
}

/// The error for a release whose capability or version could not be checked against
/// `requirement`.
pub open spec fn requirement_check_error(error: ConcertoError, requirement: RequiredPackage, message: Seq<char>) -> bool {
    error matches ConcertoError::Resolution { package, constraints, message: m } && package@
        == requirement.name@ && views(constraints@) == seq![requirement.constraint@] && m@
        == "could not check package constraint: "@ + message
}

/// The releases of package `name` that satisfy `requirement`.
fn satisfying_releases(name: &str, releases: &Vec<PackagistRelease>, requirement: &RequiredPackage) -> (r:
    Result<Vec<PackagistRelease>, ConcertoError>)
    ensures
        match satisfying_outcome(name@, crate::packagist::release_models(releases@), *requirement) {
            Ok(kept) => r matches Ok(v) && crate::packagist::release_models(v@) == kept,
            Err(e) => r matches Err(error) && requirement_check_error(error, *requirement, e),
        },
{
    let ghost models = crate::packagist::release_models(releases@);
    let mut constraints: Vec<String> = Vec::new();
    constraints.push(requirement.constraint.clone());
    assert(views(constraints@) =~= seq![requirement.constraint@]);
    let mut kept: Vec<PackagistRelease> = Vec::new();
    let mut i: usize = 0;
    assert(models.take(0) =~= Seq::<ReleaseModel>::empty());
    assert(crate::packagist::release_models(kept@) =~= Seq::<ReleaseModel>::empty());
    while i < releases.len()
        invariant
            i <= releases@.len(),
            models == crate::packagist::release_models(releases@),
            views(constraints@) == seq![requirement.constraint@],
            satisfying_outcome(name@, models.take(i as int), *requirement) == Ok::<
                Seq<ReleaseModel>,
                Seq<char>,
            >(crate::packagist::release_models(kept@)),
        decreases releases@.len() - i,
    {
        let ghost prefix = models.take(i + 1);
        assert(prefix.drop_last() =~= models.take(i as int));
        assert(prefix.last() == releases@[i as int]@);
        match release_satisfies_requirement(name, &releases[i], requirement, &constraints) {
            Err(error) => {
                proof {
                    lemma_satisfying_error_stays(name@, models, *requirement, i + 1);
                }
                return Err(error);
            },
            Ok(true) => {
                let ghost before = kept@;
                kept.push(releases[i].clone());
                assert(crate::packagist::release_models(kept@) =~= crate::packagist::release_models(
                    before,
                ).push(releases@[i as int]@));
            },
            Ok(false) => {},
        }
        i = i + 1;
    }
    assert(models.take(releases@.len() as int) =~= models);
    Ok(kept)
}

proof fn lemma_satisfying_error_stays(
    name: Seq<char>,
    releases: Seq<ReleaseModel>,
    requirement: RequiredPackage,
    n: int,
)
    requires
        0 <= n <= releases.len(),
        satisfying_outcome(name, releases.take(n), requirement) is Err,
    ensures
        satisfying_outcome(name, releases, requirement) == satisfying_outcome(name, releases.take(n), requirement),
    decreases releases.len() - n,
{
    if n < releases.len() {
        assert(releases.take(n + 1).drop_last() =~= releases.take(n));
        lemma_satisfying_error_stays(name, releases, requirement, n + 1);
    } else {
        assert(releases.take(n) =~= releases);
    }
}

proof fn lemma_providers_error_stays(
    offered: Seq<(Seq<char>, Seq<ReleaseModel>)>,
    requirement: RequiredPackage,
    n: int,
)
    requires
        0 <= n <= offered.len(),
        providers_outcome(offered.take(n), requirement) is Err,
    ensures
        providers_outcome(offered, requirement) == providers_outcome(offered.take(n), requirement),
    decreases offered.len() - n,
{
    if n < offered.len() {
        assert(offered.take(n + 1).drop_last() =~= offered.take(n));
        lemma_providers_error_stays(offered, requirement, n + 1);
    } else {
        assert(offered.take(n) =~= offered);
    }
}

/// Of the packages offered for `requirement`, each with the releases that satisfy it;
/// packages left without one are dropped.
pub fn providers_meeting(requirement: &RequiredPackage, offered: Vec<(String, Vec<PackagistRelease>)>) -> (r:
    Result<Vec<(String, Vec<PackagistRelease>)>, ConcertoError>)
    ensures
        match providers_outcome(offered_models(offered@), *requirement) {
            Ok(kept) => r matches Ok(v) && offered_models(v@) == kept,
            Err(e) => r matches Err(error) && requirement_check_error(error, *requirement, e),
        },
{
    let ghost models = offered_models(offered@);
    let mut kept: Vec<(String, Vec<PackagistRelease>)> = Vec::new();
    let mut i: usize = 0;
    assert(models.take(0) =~= Seq::<(Seq<char>, Seq<ReleaseModel>)>::empty());
    assert(offered_models(kept@) =~= Seq::<(Seq<char>, Seq<ReleaseModel>)>::empty());
    while i < offered.len()
        invariant
            i <= offered@.len(),
            models == offered_models(offered@),
            providers_outcome(models.take(i as int), *requirement) == Ok::<
                Seq<(Seq<char>, Seq<ReleaseModel>)>,
                Seq<char>,
            >(offered_models(kept@)),
        decreases offered@.len() - i,
    {
        let ghost prefix = models.take(i + 1);
        assert(prefix.drop_last() =~= models.take(i as int));
        assert(prefix.last() == models[i as int]);
        let name = &offered[i].0;
        match satisfying_releases(name.as_str(), &offered[i].1, requirement) {
            Err(error) => {
                proof {
                    lemma_providers_error_stays(models, *requirement, i + 1);
                }
                return Err(error);
            },
            Ok(releases) => {
                if releases.len() > 0 {
                    let ghost before = kept@;
                    let ghost entry = (name@, crate::packagist::release_models(releases@));
                    kept.push((name.clone(), releases));
                    assert(offered_models(kept@) =~= offered_models(before).push(entry));
                }
            },
        }
        i = i + 1;
    }
    assert(models.take(offered@.len() as int) =~= models);
    Ok(kept)
}

// ---------------------------------------------------------------------------
// Candidate fetches
// ---------------------------------------------------------------------------

/// What candidates were loaded for: a package and its constraints, sorted, each once.
#[derive(Debug)]
pub struct CandidateCacheKey {
    pub package_name: String,
    pub constraints: Vec<String>,
}

/// The cache key of `package_name` under `constraints`: the order and repeats of the
/// constraints do not matter.
pub fn candidate_cache_key(package_name: &str, constraints: &Vec<String>) -> (r: CandidateCacheKey)
    ensures
        r.package_name@ == package_name@,
        strictly_sorted(views(r.constraints@)),
        views(r.constraints@).to_set() == views(constraints@).to_set(),
{
    CandidateCacheKey { package_name: package_name.to_owned(), constraints: sorted_unique(constraints) }
}

/// Whether two keys are the same.
pub fn cache_key_equals(a: &CandidateCacheKey, b: &CandidateCacheKey) -> (r: bool)
    ensures
        r == (a.package_name@ == b.package_name@ && views(a.constraints@) == views(b.constraints@)),
{
    if !str_eq(a.package_name.as_str(), b.package_name.as_str()) {
        return false;
    }
    if a.constraints.len() != b.constraints.len() {
        assert(views(a.constraints@).len() != views(b.constraints@).len());
        return false;
    }
    let mut i: usize = 0;
    while i < a.constraints.len()
        invariant
            i <= a.constraints@.len(),
            a.constraints@.len() == b.constraints@.len(),
            a.package_name@ == b.package_name@,
            forall|j: int| 0 <= j < i ==> views(a.constraints@)[j] == views(b.constraints@)[j],
        decreases a.constraints@.len() - i,
    {
        if !str_eq(a.constraints[i].as_str(), b.constraints[i].as_str()) {
            assert(views(a.constraints@)[i as int] != views(b.constraints@)[i as int]);
            return false;
        }
        i = i + 1;
    }
    assert(views(a.constraints@) =~= views(b.constraints@));
    true
}

/// What a cache key is.
pub open spec fn cache_key_view(k: CandidateCacheKey) -> (Seq<char>, Seq<Seq<char>>) {
    (k.package_name@, views(k.constraints@))
}

/// `job` is the key of some package's constraint list.
pub open spec fn job_for(constraints: Seq<(String, Vec<String>)>, job: CandidateCacheKey) -> bool {
    exists|x: int|
        0 <= x < constraints.len() && #[trigger] constraints[x].0@ == job.package_name@ && views(
            job.constraints@,
        ).to_set() == views(constraints[x].1@).to_set()
}

/// Whether `cached` holds the key of `name` under the constraint set `set`.
pub open spec fn cached_under(cached: Seq<CandidateCacheKey>, name: Seq<char>, set: Set<Seq<char>>) -> bool {
    exists|c: int|
        0 <= c < cached.len() && (#[trigger] cached[c]).package_name@ == name && strictly_sorted(
            views(cached[c].constraints@),
        ) && views(cached[c].constraints@).to_set() == set
}

/// Whether a package's constraint list still needs a fetch: the package is not
/// selected and its key is not cached.
pub open spec fn needs_fetch(
    cached: Seq<CandidateCacheKey>,
    selected: Seq<(String, PackagistRelease)>,
    entry: (String, Vec<String>),
) -> bool {
    !entry_names(selected).contains(entry.0@) && !cached_under(cached, entry.0@, views(entry.1@).to_set())
}

/// `needs_fetch` as a predicate on constraint lists.
pub open spec fn fetch_needed(
    cached: Seq<CandidateCacheKey>,
    selected: Seq<(String, PackagistRelease)>,
) -> spec_fn((String, Vec<String>)) -> bool {
    |entry: (String, Vec<String>)| needs_fetch(cached, selected, entry)
}

/// The fetches still to make for `constraints`: one per package that is neither
/// selected nor cached under the same key, sorted by package name.
pub fn missing_candidate_jobs(
    cached: &Vec<CandidateCacheKey>,
    constraints: &Vec<(String, Vec<String>)>,
    selected: &Vec<(String, PackagistRelease)>,
) -> (r: Vec<CandidateCacheKey>)
    ensures
        forall|i: int, j: int|
            0 <= i < j < r@.len() ==> crate::order::text_lt(
                (#[trigger] r@[i]).package_name@,
                (#[trigger] r@[j]).package_name@,
            ) || r@[i].package_name@ == r@[j].package_name@,
        forall|i: int| 0 <= i < r@.len() ==> job_for(constraints@, #[trigger] r@[i]),
        forall|i: int|
            0 <= i < r@.len() ==> !entry_names(selected@).contains((#[trigger] r@[i]).package_name@)
                && forall|c: int|
                0 <= c < cached@.len() ==> cache_key_view(#[trigger] cached@[c]) != cache_key_view(
                    r@[i],
                ),
        forall|x: int|
            0 <= x < constraints@.len() && needs_fetch(cached@, selected@, #[trigger] constraints@[x])
                ==> exists|i: int|
                0 <= i < r@.len() && (#[trigger] r@[i]).package_name@ == constraints@[x].0@ && views(
                    r@[i].constraints@,
                ).to_set() == views(constraints@[x].1@).to_set(),
        r@.len() == constraints@.filter(fetch_needed(cached@, selected@)).len(),
{
    let mut jobs: Vec<CandidateCacheKey> = Vec::new();
    let mut e: usize = 0;
    while e < constraints.len()
        invariant
            e <= constraints@.len(),
            forall|i: int, j: int|
                0 <= i < j < jobs@.len() ==> crate::order::text_lt(
                    (#[trigger] jobs@[i]).package_name@,
                    (#[trigger] jobs@[j]).package_name@,
                ) || jobs@[i].package_name@ == jobs@[j].package_name@,
            forall|i: int| 0 <= i < jobs@.len() ==> job_for(constraints@, #[trigger] jobs@[i]),
            forall|i: int|
                0 <= i < jobs@.len() ==> !entry_names(selected@).contains(
                    (#[trigger] jobs@[i]).package_name@,
                ) && forall|c: int|
                    0 <= c < cached@.len() ==> cache_key_view(#[trigger] cached@[c]) != cache_key_view(
                        jobs@[i],
                    ),
            forall|x: int|
                0 <= x < e && needs_fetch(cached@, selected@, #[trigger] constraints@[x]) ==> exists|i: int|
                    0 <= i < jobs@.len() && (#[trigger] jobs@[i]).package_name@ == constraints@[x].0@
                        && views(jobs@[i].constraints@).to_set() == views(constraints@[x].1@).to_set(),
            jobs@.len() == constraints@.take(e as int).filter(fetch_needed(cached@, selected@)).len(),
        decreases constraints@.len() - e,
    {
        let name = &constraints[e].0;
        let key = candidate_cache_key(name.as_str(), &constraints[e].1);
        let mut wanted = true;
        let mut s: usize = 0;
        while s < selected.len()
            invariant
                s <= selected@.len(),
                wanted <==> forall|t: int| 0 <= t < s ==> selected@[t].0@ != key.package_name@,
            decreases selected@.len() - s,
        {
            if str_eq(selected[s].0.as_str(), key.package_name.as_str()) {
                wanted = false;
            }
            s = s + 1;
        }
        let mut c: usize = 0;
        while c < cached.len()
            invariant
                c <= cached@.len(),
                wanted ==> forall|t: int| 0 <= t < c ==> cache_key_view(#[trigger] cached@[t]) != cache_key_view(key),
                wanted ==> forall|t: int| 0 <= t < selected@.len() ==> selected@[t].0@ != key.package_name@,
                !wanted ==> (exists|t: int| 0 <= t < selected@.len() && selected@[t].0@ == key.package_name@)
                    || (exists|t: int| 0 <= t < c && cache_key_view(#[trigger] cached@[t]) == cache_key_view(key)),
            decreases cached@.len() - c,
        {
            if cache_key_equals(&cached[c], &key) {
                wanted = false;
            }
            c = c + 1;
        }
        let ghost entry = constraints@[e as int];
        let ghost jobs_before = jobs@;
        proof {
            assert(wanted == needs_fetch(cached@, selected@, entry)) by {
                if wanted {
                    if entry_names(selected@).contains(entry.0@) {
                        let t = choose|t: int| 0 <= t < entry_names(selected@).len() && entry_names(selected@)[t] == entry.0@;
                        assert(selected@[t].0@ == key.package_name@);
                    }
                    if cached_under(cached@, entry.0@, views(entry.1@).to_set()) {
                        let t = choose|t: int|
                            0 <= t < cached@.len() && (#[trigger] cached@[t]).package_name@ == entry.0@
                                && strictly_sorted(views(cached@[t].constraints@))
                                && views(cached@[t].constraints@).to_set() == views(entry.1@).to_set();
                        crate::order::lemma_strictly_sorted_same_set(
                            views(cached@[t].constraints@),
                            views(key.constraints@),
                        );
                        assert(cache_key_view(cached@[t]) == cache_key_view(key));
                    }
                } else {
                    if exists|t: int| 0 <= t < selected@.len() && selected@[t].0@ == key.package_name@ {
                        let t = choose|t: int| 0 <= t < selected@.len() && selected@[t].0@ == key.package_name@;
                        assert(entry_names(selected@)[t] == entry.0@);
                    } else {
                        let t = choose|t: int| 0 <= t < c && cache_key_view(#[trigger] cached@[t]) == cache_key_view(key);
                        assert(cached_under(cached@, entry.0@, views(entry.1@).to_set()));
                    }
                }
            }
            assert(constraints@.take(e + 1) =~= constraints@.take(e as int).push(entry));
            constraints@.take(e as int).lemma_filter_push(entry, fetch_needed(cached@, selected@));
        }
        if wanted {
            proof {
                assert(!entry_names(selected@).contains(key.package_name@)) by {
                    if entry_names(selected@).contains(key.package_name@) {
                        let t = choose|t: int| 0 <= t < entry_names(selected@).len() && entry_names(selected@)[t] == key.package_name@;
                        assert(selected@[t].0@ == key.package_name@);
                    }
                }
            }
            let mut k: usize = 0;
            while k < jobs.len() && !text_less(key.package_name.as_str(), jobs[k].package_name.as_str())
                invariant
                    k <= jobs@.len(),
                    forall|j: int| 0 <= j < k ==> !crate::order::text_lt(key.package_name@, #[trigger] jobs@[j].package_name@),
                decreases jobs@.len() - k,
            {
                k = k + 1;
            }
            let ghost before = jobs@;
            let ghost kv = key.package_name@;
            proof {
                assert forall|j: int| 0 <= j < k implies crate::order::text_lt(#[trigger] before[j].package_name@, kv)
                    || before[j].package_name@ == kv by {
                    if before[j].package_name@ != kv {
                        crate::order::lemma_text_lt_connected(before[j].package_name@, kv);
                    }
                }
                if k < before.len() {
                    assert forall|j: int| k <= j < before.len() implies crate::order::text_lt(kv, #[trigger] before[j].package_name@) by {
                        if j > k {
                            let a = before[k as int].package_name@;
                            let b = before[j].package_name@;
                            assert(crate::order::text_lt(a, b) || a == b);
                            if crate::order::text_lt(a, b) {
                                crate::order::lemma_text_lt_transitive(kv, a, b);
                            }
                        }
                    }
                }
            }
            jobs.insert(k, key);
            proof {
                let after = jobs@;
                assert forall|i: int, j: int| 0 <= i < j < after.len() implies crate::order::text_lt(
                    (#[trigger] after[i]).package_name@,
                    (#[trigger] after[j]).package_name@,
                ) || after[i].package_name@ == after[j].package_name@ by {
                    if j < k {
                        assert(after[i] == before[i] && after[j] == before[j]);
                    } else if j == k {
                        assert(after[i] == before[i]);
                    } else if i == k {
                        assert(after[j] == before[j - 1]);
                    } else if i < k {
                        assert(after[i] == before[i] && after[j] == before[j - 1]);
                        let a = before[i].package_name@;
                        let b = before[j - 1].package_name@;
                        if crate::order::text_lt(a, kv) {
                            crate::order::lemma_text_lt_transitive(a, kv, b);
                        }
                    } else {
                        assert(after[i] == before[i - 1] && after[j] == before[j - 1]);
                    }
                }
                assert forall|i: int| 0 <= i < after.len() implies job_for(constraints@, #[trigger] after[i]) by {
                    if i < k {
                        assert(after[i] == before[i]);
                    } else if i > k {
                        assert(after[i] == before[i - 1]);
                    } else {
                        assert(constraints@[e as int].0@ == after[i].package_name@);
                    }
                }
                assert forall|i: int| 0 <= i < after.len() implies !entry_names(selected@).contains(
                    (#[trigger] after[i]).package_name@,
                ) && forall|c: int|
                    0 <= c < cached@.len() ==> cache_key_view(#[trigger] cached@[c]) != cache_key_view(
                        after[i],
                    ) by {
                    if i < k {
                        assert(after[i] == before[i]);
                    } else if i > k {
                        assert(after[i] == before[i - 1]);
                    }
                }
                assert forall|x: int|
                    0 <= x < e + 1 && needs_fetch(cached@, selected@, #[trigger] constraints@[x]) implies exists|i: int|
                        0 <= i < after.len() && (#[trigger] after[i]).package_name@ == constraints@[x].0@
                            && views(after[i].constraints@).to_set() == views(constraints@[x].1@).to_set() by {
                    if x < e {
                        let i = choose|i: int|
                            0 <= i < before.len() && (#[trigger] before[i]).package_name@ == constraints@[x].0@
                                && views(before[i].constraints@).to_set() == views(constraints@[x].1@).to_set();
                        if i < k {
                            assert(after[i] == before[i]);
                        } else {
                            assert(after[i + 1] == before[i]);
                        }
                    } else {
                        assert(after[k as int].package_name@ == constraints@[x].0@);
                    }
                }
            }
        }
        e = e + 1;
    }
    assert(constraints@.take(constraints@.len() as int) =~= constraints@);
    jobs
}

} // verus!
