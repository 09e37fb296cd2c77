//! Packagist metadata: URLs, release candidates and version selection.

use vstd::prelude::*;
use crate::composer::{
    constraint_not_string, is_platform_name, package_parts, package_path_parts,
    required_packages_from_object, requirements_spec, split_platform_requirements,
    RequiredPackage,
};
use crate::error::{views, ConcertoError};
use crate::json::JsonValue;
use crate::order::{sorted_unique, strictly_sorted};
use crate::platform::{validate, validate_spec, Platform};
use crate::semver::{satisfies, satisfies_spec};
use crate::text::{concat2, concat3, contains_seq, contains_str, join, join_seq};

verus! {

pub const NO_MATCHING_VERSION: &'static str =
    "Packagist metadata does not contain a version matching";

/// One installable release of a package.
#[derive(Debug)]
pub struct PackagistRelease {
    /// How many versions the package's metadata lists.
    pub version_count: usize,
    pub version: String,
    pub dist_url: String,
    pub dist_shasum: Option<String>,
    pub package_requires: Vec<RequiredPackage>,
    pub platform_requires: Vec<RequiredPackage>,
    pub conflicts: Vec<RequiredPackage>,
    pub provides: Vec<RequiredPackage>,
    pub replaces: Vec<RequiredPackage>,
}

/// The content of a release.
pub struct ReleaseModel {
    pub version_count: usize,
    pub version: Seq<char>,
    pub dist_url: Seq<char>,
    pub dist_shasum: Option<Seq<char>>,
    pub package_requires: Seq<RequiredPackage>,
    pub platform_requires: Seq<RequiredPackage>,
    pub conflicts: Seq<RequiredPackage>,
    pub provides: Seq<RequiredPackage>,
    pub replaces: Seq<RequiredPackage>,
}

/// The view of an optional string.
pub open spec fn opt_view(s: Option<String>) -> Option<Seq<char>> {
    match s {
        Some(v) => Some(v@),
        None => None,
    }
}

impl View for PackagistRelease {
    type V = ReleaseModel;

    open spec fn view(&self) -> ReleaseModel {
        ReleaseModel {
            version_count: self.version_count,
            version: self.version@,
            dist_url: self.dist_url@,
            dist_shasum: opt_view(self.dist_shasum),
            package_requires: self.package_requires@,
            platform_requires: self.platform_requires@,
            conflicts: self.conflicts@,
            provides: self.provides@,
            replaces: self.replaces@,
        }
    }
}

impl Clone for PackagistRelease {
    fn clone(&self) -> (r: Self)
        ensures
            r@ == self@,
    {
        PackagistRelease {
            version_count: self.version_count,
            version: self.version.clone(),
            dist_url: self.dist_url.clone(),
            dist_shasum: match &self.dist_shasum {
                Some(s) => Some(s.clone()),
                None => None,
            },
            package_requires: crate::composer::clone_requirements(&self.package_requires),
            platform_requires: crate::composer::clone_requirements(&self.platform_requires),
            conflicts: crate::composer::clone_requirements(&self.conflicts),
            provides: crate::composer::clone_requirements(&self.provides),
            replaces: crate::composer::clone_requirements(&self.replaces),
        }
    }
}

/// A version skipped because the platform does not meet its requirements.
pub struct PlatformRejection {
    pub version: String,
    pub error: String,
}

// ---------------------------------------------------------------------------
// URLs
// ---------------------------------------------------------------------------

/// The `p2` metadata URL of a package in a Composer repository.
pub open spec fn repository_package_url_spec(repository: Seq<char>, vendor: Seq<char>, package: Seq<
    char,
>) -> Seq<char> {
    repository + "/p2/"@ + vendor + "/"@ + package + ".json"@
}

/// The metadata URL of `package_name` in the repository at `repository_url`.
pub fn repository_package_url(repository_url: &str, package_name: &str) -> (r: Result<
    String,
    ConcertoError,
>)
    ensures
        match package_parts(package_name@) {
            Some((vendor, package)) => r matches Ok(url) && url@ == repository_package_url_spec(
                repository_url@,
                vendor,
                package,
            ),
            None => r matches Err(ConcertoError::Resolution { package, constraints, message })
                && package@ == package_name@ && constraints@.len() == 0 && message@ == (
            "Invalid package name: "@ + package_name@),
        },
{
    let constraints: Vec<String> = Vec::new();
    match package_path_parts(package_name) {
        Err(error) => Err(ConcertoError::resolution(package_name, &constraints, error.message())),
        Ok((vendor, package)) => {
            let mut url = concat3(repository_url, "/p2/", vendor.as_str());
            url.append("/");
            url.append(package.as_str());
            url.append(".json");
            Ok(url)
        },
    }
}

/// The Packagist metadata URL of `package_name`.
pub fn package_url(package_name: &str) -> (r: Result<String, ConcertoError>)
    ensures
        match package_parts(package_name@) {
            Some((vendor, package)) => r matches Ok(url) && url@ == repository_package_url_spec(
                "https://repo.packagist.org"@,
                vendor,
                package,
            ),
            None => r matches Err(ConcertoError::Resolution { package, constraints, message })
                && package@ == package_name@ && constraints@.len() == 0 && message@ == (
            "Invalid package name: "@ + package_name@),
        },
{
    repository_package_url("https://repo.packagist.org", package_name)
}

/// The provider listing URL of `package_name` in a repository; refused for an empty
/// name or one that contains `..`.
pub fn repository_providers_url(repository_url: &str, package_name: &str) -> (r: Result<
    String,
    ConcertoError,
>)
    ensures
        package_name@.len() == 0 || contains_seq(package_name@, ".."@) ==> (r matches Err(
            ConcertoError::InvalidPackageName { name },
        ) && name@ == package_name@),
        !(package_name@.len() == 0 || contains_seq(package_name@, ".."@)) ==> (r matches Ok(url)
            && url@ == repository_url@ + "/providers/"@ + package_name@ + ".json"@),
{
    if package_name.is_empty() || contains_str(package_name, "..") {
        return Err(ConcertoError::invalid_package_name(package_name));
    }
    let mut url = concat3(repository_url, "/providers/", package_name);
    url.append(".json");
    Ok(url)
}

/// The Packagist provider listing URL of `package_name`.
pub fn providers_url(package_name: &str) -> (r: Result<String, ConcertoError>)
    ensures
        package_name@.len() == 0 || contains_seq(package_name@, ".."@) ==> r is Err,
        !(package_name@.len() == 0 || contains_seq(package_name@, ".."@)) ==> (r matches Ok(url)
            && url@ == "https://packagist.org"@ + "/providers/"@ + package_name@ + ".json"@),
{
    repository_providers_url("https://packagist.org", package_name)
}

// ---------------------------------------------------------------------------
// Providers
// ---------------------------------------------------------------------------

/// The names of provider entries, in order; `None` when an entry has no name.
pub open spec fn provider_entry_names(items: Seq<JsonValue>) -> Option<Seq<Seq<char>>>
    decreases items.len(),
{
    if items.len() == 0 {
        Some(Seq::empty())
    } else {
        match provider_entry_names(items.drop_last()) {
            None => None,
            Some(names) => match items.last().field("name"@) {
                Some(JsonValue::Str(name)) => Some(names.push(name@)),
                _ => None,
            },
        }
    }
}

/// The provider names a provider listing holds, or the message of its error.
pub open spec fn provider_names_spec(metadata: JsonValue) -> Result<Seq<Seq<char>>, Seq<char>> {
    match metadata.field("providers"@) {
        Some(JsonValue::Array(items)) => match provider_entry_names(items@) {
            Some(names) => Ok(names),
            None => Err("Packagist provider entry does not contain a package name"@),
        },
        _ => Err("Packagist provider metadata does not contain providers"@),
    }
}

/// The packages a provider listing names, sorted, each once.
pub fn provider_names(metadata: &JsonValue, package_name: &str, constraints: &Vec<String>) -> (r:
    Result<Vec<String>, ConcertoError>)
    ensures
        match provider_names_spec(*metadata) {
            Ok(names) => r matches Ok(v) && strictly_sorted(views(v@)) && views(v@).to_set()
                == names.to_set(),
            Err(m) => r matches Err(e) && resolution_error(e, package_name@, constraints@, m),
        },
{
    let items = match metadata.get("providers") {
        Some(JsonValue::Array(items)) => items,
        _ => {
            return Err(
                ConcertoError::resolution(
                    package_name,
                    constraints,
                    "Packagist provider metadata does not contain providers".to_owned(),
                ),
            );
        },
    };
    let mut names: Vec<String> = Vec::new();
    let mut i: usize = 0;
    while i < items.len()
        invariant
            i <= items@.len(),
            metadata.field("providers"@) == Some(JsonValue::Array(*items)),
            provider_entry_names(items@.take(i as int)) == Some(views(names@)),
        decreases items@.len() - i,
    {
        assert(items@.take(i + 1).drop_last() =~= items@.take(i as int));
        match items[i].get("name") {
            Some(JsonValue::Str(name)) => {
                names.push(name.clone());
                assert(views(names@) =~= views(names@.drop_last()).push(name@));
            },
            _ => {
                proof {
                    assert(items@.take(i + 1).last() == items@[i as int]);
                    assert(provider_entry_names(items@.take(i + 1)) is None);
                    lemma_entry_names_none_stays(items@, i + 1);
                    assert(items@.take(items@.len() as int) =~= items@);

                }
                return Err(
                    ConcertoError::resolution(
                        package_name,
                        constraints,
                        "Packagist provider entry does not contain a package name".to_owned(),
                    ),
                );
            },
        }
        i = i + 1;
    }
    assert(items@.take(items@.len() as int) =~= items@);
    Ok(sorted_unique(&names))
}

proof fn lemma_entry_names_none_stays(items: Seq<JsonValue>, k: int)
    requires
        0 <= k <= items.len(),
        provider_entry_names(items.take(k)) is None,
    ensures
        provider_entry_names(items) is None,
    decreases items.len() - k,
{
    if k < items.len() {
        assert(items.take(k + 1).drop_last() =~= items.take(k));
        lemma_entry_names_none_stays(items, k + 1);
    } else {
        assert(items.take(k) =~= items);
    }
}

// ---------------------------------------------------------------------------
// Constraints
// ---------------------------------------------------------------------------

/// Whether `version` satisfies every constraint, checked in order; `Err` carries the
/// checker's message for the first constraint it could not check.
pub open spec fn constraints_outcome(version: Seq<char>, constraints: Seq<Seq<char>>) -> Result<
    bool,
    Seq<char>,
>
    decreases constraints.len(),
{
    if constraints.len() == 0 {
        Ok(true)
    } else {
        match satisfies_spec(version, constraints[0]) {
            Err(e) => Err(e),
            Ok(false) => Ok(false),
            Ok(true) => constraints_outcome(version, constraints.drop_first()),
        }
    }
}

/// `error` is the resolution error for `package_name` and `constraints` with `message`.
pub open spec fn resolution_error(
    error: ConcertoError,
    package_name: Seq<char>,
    constraints: Seq<String>,
    message: Seq<char>,
) -> bool {
    error matches ConcertoError::Resolution { package: p, constraints: c, message: m } && p@
        == package_name && c@ == constraints && m@ == message
}

/// Whether `version` satisfies all `constraints`.
pub fn version_matches_constraints(version: &str, package_name: &str, constraints: &Vec<String>) -> (r:
    Result<bool, ConcertoError>)
    ensures
        match constraints_outcome(version@, views(constraints@)) {
            Ok(b) => r == Ok::<bool, ConcertoError>(b),
            Err(e) => r matches Err(error) && resolution_error(
                error,
                package_name@,
                constraints@,
                "could not check package constraint: "@ + e,
            ),
        },
{
    let mut i: usize = 0;
    assert(views(constraints@).skip(0) =~= views(constraints@));
    while i < constraints.len()
        invariant
            i <= constraints@.len(),
            constraints_outcome(version@, views(constraints@)) == constraints_outcome(
                version@,
                views(constraints@).skip(i as int),
            ),
        decreases constraints@.len() - i,
    {
        assert(views(constraints@).skip(i as int).drop_first() =~= views(constraints@).skip(i + 1));
        assert(views(constraints@).skip(i as int)[0] == constraints@[i as int]@);
        match satisfies(version, constraints[i].as_str()) {
            Err(error) => {
                return Err(
                    ConcertoError::resolution(
                        package_name,
                        constraints,
                        concat2("could not check package constraint: ", error.as_str()),
                    ),
                );
            },
            Ok(false) => {
                return Ok(false);
            },
            Ok(true) => {},
        }
        i = i + 1;
    }
    assert(views(constraints@).skip(i as int) =~= Seq::<Seq<char>>::empty());
    Ok(true)
}

impl PackagistRelease {
    /// Whether this release's version satisfies all `constraints`.
    pub fn matches_constraints(&self, package_name: &str, constraints: &Vec<String>) -> (r: Result<
        bool,
        ConcertoError,
    >)
        ensures
            match constraints_outcome(self.version@, views(constraints@)) {
                Ok(b) => r == Ok::<bool, ConcertoError>(b),
                Err(e) => r matches Err(error) && resolution_error(
                    error,
                    package_name@,
                    constraints@,
                    "could not check package constraint: "@ + e,
                ),
            },
    {
        version_matches_constraints(self.version.as_str(), package_name, constraints)
    }
}

// ---------------------------------------------------------------------------
// Link sections of a release
// ---------------------------------------------------------------------------

/// The requirements of an optional link section; `"__unset"` and absence mean none.
pub open spec fn link_section_spec(value: Option<JsonValue>, section: Seq<char>) -> Result<
    Seq<RequiredPackage>,
    Seq<char>,
> {
    match value {
        None => Ok(Seq::empty()),
        Some(v) => if v.is_str("__unset"@) {
            Ok(Seq::empty())
        } else {
            match v {
                JsonValue::Object(entries) => match requirements_spec(entries@) {
                    Ok(list) => Ok(list),
                    Err(bad) => Err(constraint_not_string(bad)),
                },
                _ => Err("Packagist release "@ + section + " must be an object"@),
            }
        },
    }
}

/// The requirements of a link section, for a release of `package_name`.
pub fn release_link_section(
    value: Option<&JsonValue>,
    section: &str,
    package_name: &str,
    constraints: &Vec<String>,
) -> (r: Result<Vec<RequiredPackage>, ConcertoError>)
    ensures
        match link_section_spec(deref_opt(value), section@) {
            Ok(list) => r matches Ok(v) && v@ == list,
            Err(m) => r matches Err(e) && resolution_error(e, package_name@, constraints@, m),
        },
{
    let value = match value {
        None => {
            return Ok(Vec::new());
        },
        Some(value) => value,
    };
    if value.str_equals("__unset") {
        return Ok(Vec::new());
    }
    let links = match value.as_object() {
        None => {
            return Err(
                ConcertoError::resolution(
                    package_name,
                    constraints,
                    concat3("Packagist release ", section, " must be an object"),
                ),
            );
        },
        Some(links) => links,
    };
    match required_packages_from_object(links) {
        Ok(list) => Ok(list),
        Err(error) => Err(ConcertoError::resolution(package_name, constraints, error.message())),
    }
}

/// The value an optional reference points to.
pub open spec fn deref_opt(value: Option<&JsonValue>) -> Option<JsonValue> {
    match value {
        Some(v) => Some(*v),
        None => None,
    }
}

/// The (package, platform) requirements of a `require` section.
pub open spec fn requirements_section_spec(value: Option<JsonValue>) -> Result<
    (Seq<RequiredPackage>, Seq<RequiredPackage>),
    Seq<char>,
> {
    match link_section_spec(value, "require"@) {
        Err(m) => Err(m),
        Ok(list) => Ok(
            (
                list.filter(|q: RequiredPackage| !is_platform_name(q.name@)),
                list.filter(|q: RequiredPackage| is_platform_name(q.name@)),
            ),
        ),
    }
}

/// The package and platform requirements of a `require` section.
pub fn release_requirements(
    require: Option<&JsonValue>,
    package_name: &str,
    constraints: &Vec<String>,
) -> (r: Result<(Vec<RequiredPackage>, Vec<RequiredPackage>), ConcertoError>)
    ensures
        match requirements_section_spec(deref_opt(require)) {
            Ok((packages, platform)) => r matches Ok((p, q)) && p@ == packages && q@ == platform,
            Err(m) => r matches Err(e) && resolution_error(e, package_name@, constraints@, m),
        },
{
    let requirements = release_link_section(require, "require", package_name, constraints)?;
    let (platform_requires, package_requires) = split_platform_requirements(requirements);
    Ok((package_requires, platform_requires))
}

/// The link sections a release inherits: Packagist's minified metadata omits a section
/// that equals the previous release's.
pub struct InheritedLinks<'a> {
    pub require: Option<&'a JsonValue>,
    pub conflict: Option<&'a JsonValue>,
    pub provide: Option<&'a JsonValue>,
    pub replace: Option<&'a JsonValue>,
}

/// The most recent value of `section` among `releases[0..=i]`.
pub open spec fn inherited_section(releases: Seq<JsonValue>, i: int, section: Seq<char>) -> Option<
    JsonValue,
>
    decreases i + 1,
{
    if i < 0 {
        None
    } else if releases[i].field(section) is Some {
        releases[i].field(section)
    } else {
        inherited_section(releases, i - 1, section)
    }
}

/// The links the release at `i` sees.
pub open spec fn links_at(releases: Seq<JsonValue>, i: int) -> LinksModel {
    LinksModel {
        require: inherited_section(releases, i, "require"@),
        conflict: inherited_section(releases, i, "conflict"@),
        provide: inherited_section(releases, i, "provide"@),
        replace: inherited_section(releases, i, "replace"@),
    }
}

/// The inherited link sections as values.
pub struct LinksModel {
    pub require: Option<JsonValue>,
    pub conflict: Option<JsonValue>,
    pub provide: Option<JsonValue>,
    pub replace: Option<JsonValue>,
}

impl<'a> InheritedLinks<'a> {
    pub open spec fn model(&self) -> LinksModel {
        LinksModel {
            require: deref_opt(self.require),
            conflict: deref_opt(self.conflict),
            provide: deref_opt(self.provide),
            replace: deref_opt(self.replace),
        }
    }

    /// No sections seen yet.
    pub fn new() -> (r: Self)
        ensures
            r.model() == (LinksModel { require: None, conflict: None, provide: None, replace: None }),
    {
        InheritedLinks { require: None, conflict: None, provide: None, replace: None }
    }

    /// Takes over every section that `release` lists.
    pub fn update(&mut self, release: &'a JsonValue)
        ensures
            final(self).model() == (LinksModel {
                require: update_link(old(self).model().require, *release, "require"@),
                conflict: update_link(old(self).model().conflict, *release, "conflict"@),
                provide: update_link(old(self).model().provide, *release, "provide"@),
                replace: update_link(old(self).model().replace, *release, "replace"@),
            }),
    {
        update_inherited_link(&mut self.require, release, "require");
        update_inherited_link(&mut self.conflict, release, "conflict");
        update_inherited_link(&mut self.provide, release, "provide");
        update_inherited_link(&mut self.replace, release, "replace");
    }
}

/// The section after a release: its own when it lists one, else the inherited one.
pub open spec fn update_link(inherited: Option<JsonValue>, release: JsonValue, section: Seq<char>) -> Option<
    JsonValue,
> {
    match release.field(section) {
        Some(v) => Some(v),
        None => inherited,
    }
}

/// Takes over `section` from `release` when it lists it.
pub fn update_inherited_link<'a>(
    inherited: &mut Option<&'a JsonValue>,
    release: &'a JsonValue,
    section: &str,
)
    ensures
        deref_opt(*final(inherited)) == update_link(deref_opt(*old(inherited)), *release, section@),
{
    if let Some(value) = release.get(section) {
        *inherited = Some(value);
    }
}

// ---------------------------------------------------------------------------
// Release candidates
// ---------------------------------------------------------------------------

/// The `dist.url` of a release.
pub open spec fn dist_url_spec(release: JsonValue) -> Option<Seq<char>> {
    match release.field("dist"@) {
        Some(dist) => match dist.field("url"@) {
            Some(url) => url.str_view(),
            None => None,
        },
        None => None,
    }
}

/// The `dist.shasum` of a release, when it is a non-empty string.
pub open spec fn dist_shasum_spec(release: JsonValue) -> Option<Seq<char>> {
    match release.field("dist"@) {
        Some(dist) => match dist.field("shasum"@) {
            Some(JsonValue::Str(s)) => if s@.len() > 0 {
                Some(s@)
            } else {
                None
            },
            _ => None,
        },
        None => None,
    }
}

/// The link sections of a release as they apply to it: its requirements split into
/// packages and platform, its conflicts, provides and replaces; or the message of the
/// first of them, in that order, that cannot be read.
pub open spec fn links_outcome(links: LinksModel) -> Result<
    (Seq<RequiredPackage>, Seq<RequiredPackage>, Seq<RequiredPackage>, Seq<RequiredPackage>, Seq<RequiredPackage>),
    Seq<char>,
> {
    let require = requirements_section_spec(links.require);
    let conflict = link_section_spec(links.conflict, "conflict"@);
    let provide = link_section_spec(links.provide, "provide"@);
    let replace = link_section_spec(links.replace, "replace"@);
    if require is Err {
        Err(require->Err_0)
    } else if conflict is Err {
        Err(conflict->Err_0)
    } else if provide is Err {
        Err(provide->Err_0)
    } else if replace is Err {
        Err(replace->Err_0)
    } else {
        Ok((require->Ok_0.0, require->Ok_0.1, conflict->Ok_0, provide->Ok_0, replace->Ok_0))
    }
}

/// What the release entry gives: an error when it has no version or its version
/// cannot be checked against the constraints; skipped (`Ok(None)`) when the version
/// does not meet them or there is no dist URL; otherwise the release with its link
/// sections, or the message of the first section that cannot be read.
pub open spec fn candidate_spec(
    release: JsonValue,
    links: LinksModel,
    constraints: Seq<Seq<char>>,
    version_count: usize,
) -> Result<Option<ReleaseModel>, Seq<char>> {
    match release.field("version"@) {
        Some(JsonValue::Str(version)) => {
            let met = constraints_outcome(version@, constraints);
            if met is Err {
                Err("could not check package constraint: "@ + met->Err_0)
            } else if !met->Ok_0 || dist_url_spec(release) is None {
                Ok(None)
            } else {
                match links_outcome(links) {
                    Err(m) => Err(m),
                    Ok((package_requires, platform_requires, conflicts, provides, replaces)) => Ok(
                        Some(
                            ReleaseModel {
                                version_count,
                                version: version@,
                                dist_url: dist_url_spec(release)->Some_0,
                                dist_shasum: dist_shasum_spec(release),
                                package_requires,
                                platform_requires,
                                conflicts,
                                provides,
                                replaces,
                            },
                        ),
                    ),
                }
            }
        },
        _ => Err("Packagist metadata does not contain a version for this release"@),
    }
}

/// A release candidate carries the SHA-1 that the entry lists for its archive: when
/// the entry's `dist.shasum` is a non-empty string, the candidate's `dist_shasum` is
/// that string; when the candidate has one, it is the non-empty string at the entry's
/// `dist.shasum`.
pub proof fn lemma_candidate_keeps_listed_shasum(
    release: JsonValue,
    links: LinksModel,
    constraints: Seq<Seq<char>>,
    version_count: usize,
)
    ensures
        candidate_spec(release, links, constraints, version_count) matches Ok(Some(m)) ==> {
            let listed = release.field("dist"@)->Some_0.field("shasum"@);
            &&& (release.field("dist"@) is Some && listed is Some && listed->Some_0 is Str
                && listed->Some_0->Str_0@.len() > 0) ==> m.dist_shasum == Some(listed->Some_0->Str_0@)
            &&& m.dist_shasum is Some ==> {
                &&& m.dist_shasum->Some_0.len() > 0
                &&& release.field("dist"@) is Some
                &&& listed is Some && listed->Some_0 is Str && listed->Some_0->Str_0@ == m.dist_shasum->Some_0
            }
        },
{
}

/// The dist URL of a release entry.
fn release_dist_url(release: &JsonValue) -> (r: Option<&String>)
    ensures
        match r {
            Some(u) => dist_url_spec(*release) == Some(u@),
            None => dist_url_spec(*release) is None,
        },
{
    match release.get("dist") {
        None => None,
        Some(dist) => match dist.get("url") {
            None => None,
            Some(url) => url.as_str(),
        },
    }
}

/// The dist shasum of a release entry.
fn release_dist_shasum(release: &JsonValue) -> (r: Option<String>)
    ensures
        opt_view(r) == dist_shasum_spec(*release),
{
    match release.get("dist") {
        None => None,
        Some(dist) => match dist.get("shasum") {
            Some(JsonValue::Str(s)) => if s.as_str().is_empty() {
                None
            } else {
                Some(s.clone())
            },
            _ => None,
        },
    }
}

/// Reads one release entry of the metadata.
pub fn release_candidate(
    release: &JsonValue,
    inherited_links: &InheritedLinks,
    package_name: &str,
    constraints: &Vec<String>,
    version_count: usize,
) -> (r: Result<Option<PackagistRelease>, ConcertoError>)
    ensures
        match candidate_spec(*release, inherited_links.model(), views(constraints@), version_count) {
            Ok(None) => r matches Ok(None),
            Ok(Some(model)) => r matches Ok(Some(candidate)) && candidate@ == model,
            Err(m) => r matches Err(e) && resolution_error(e, package_name@, constraints@, m),
        },
{
    let version = match release.get("version") {
        Some(JsonValue::Str(version)) => version,
        _ => {
            return Err(
                ConcertoError::resolution(
                    package_name,
                    constraints,
                    "Packagist metadata does not contain a version for this release".to_owned(),
                ),
            );
        },
    };
    if !version_matches_constraints(version.as_str(), package_name, constraints)? {
        return Ok(None);
    }
    let dist_url = match release_dist_url(release) {
        None => {
            return Ok(None);
        },
        Some(url) => url.clone(),
    };
    let dist_shasum = release_dist_shasum(release);
    let (package_requires, platform_requires) = release_requirements(
        inherited_links.require,
        package_name,
        constraints,
    )?;
    let conflicts = release_link_section(
        inherited_links.conflict,
        "conflict",
        package_name,
        constraints,
    )?;
    let provides = release_link_section(
        inherited_links.provide,
        "provide",
        package_name,
        constraints,
    )?;
    let replaces = release_link_section(
        inherited_links.replace,
        "replace",
        package_name,
        constraints,
    )?;
    Ok(
        Some(
            PackagistRelease {
                version_count,
                version: version.clone(),
                dist_url,
                dist_shasum,
                package_requires,
                platform_requires,
                conflicts,
                provides,
                replaces,
            },
        ),
    )
}

/// The releases of `package_name` listed by the metadata, if it lists them.
pub open spec fn metadata_versions(metadata: JsonValue, package_name: Seq<char>) -> Option<
    Seq<JsonValue>,
> {
    match metadata.field("packages"@) {
        Some(packages) => match packages.field(package_name) {
            Some(JsonValue::Array(items)) => Some(items@),
            _ => None,
        },
        None => None,
    }
}

/// What the `i`th release entry gives, with the links it inherits.
pub open spec fn entry_outcome(releases: Seq<JsonValue>, i: int, constraints: Seq<Seq<char>>) -> Result<
    Option<ReleaseModel>,
    Seq<char>,
> {
    candidate_spec(releases[i], links_at(releases, i), constraints, releases.len() as usize)
}

/// What each release entry gives, in order.
pub open spec fn entry_outcomes(releases: Seq<JsonValue>, constraints: Seq<Seq<char>>) -> Seq<
    Result<Option<ReleaseModel>, Seq<char>>,
> {
    Seq::new(releases.len(), |i: int| entry_outcome(releases, i, constraints))
}

/// The release an entry gives, when the platform accepts it.
pub open spec fn accepted(platform: Platform, package_name: Seq<char>) -> spec_fn(
    Result<Option<ReleaseModel>, Seq<char>>,
) -> Option<ReleaseModel> {
    |o: Result<Option<ReleaseModel>, Seq<char>>|
        match o {
            Ok(Some(m)) => if validate_spec(m.platform_requires, platform, package_name) is None {
                Some(m)
            } else {
                None
            },
            _ => None,
        }
}

/// The version of the release an entry gives and why the platform rejects it, when it
/// does.
pub open spec fn rejected(platform: Platform, package_name: Seq<char>) -> spec_fn(
    Result<Option<ReleaseModel>, Seq<char>>,
) -> Option<(Seq<char>, Seq<char>)> {
    |o: Result<Option<ReleaseModel>, Seq<char>>|
        match o {
            Ok(Some(m)) => match validate_spec(m.platform_requires, platform, package_name) {
                Some(message) => Some((m.version, message)),
                None => None,
            },
            _ => None,
        }
}

/// Entry `i` is the first that fails.
pub open spec fn first_failing(outcomes: Seq<Result<Option<ReleaseModel>, Seq<char>>>, i: int) -> bool {
    &&& 0 <= i < outcomes.len()
    &&& outcomes[i] is Err
    &&& forall|j: int| 0 <= j < i ==> #[trigger] outcomes[j] is Ok
}

/// What reading entries with these outcomes gives: the message of the first that fails;
/// when none fails, the releases the platform accepts, and the versions it rejects with
/// why, each in the order of the entries.
pub open spec fn reading_of(
    outcomes: Seq<Result<Option<ReleaseModel>, Seq<char>>>,
    platform: Platform,
    package_name: Seq<char>,
) -> Result<(Seq<ReleaseModel>, Seq<(Seq<char>, Seq<char>)>), Seq<char>> {
    if forall|j: int| 0 <= j < outcomes.len() ==> #[trigger] outcomes[j] is Ok {
        Ok((outcomes.filter_map(accepted(platform, package_name)), outcomes.filter_map(rejected(platform, package_name))))
    } else {
        Err(outcomes[choose|i: int| first_failing(outcomes, i)]->Err_0)
    }
}

/// Candidates and platform rejections read from the first `n` releases, one after the
/// other, or the message of the resolution error the reading stops at.
pub open spec fn candidates_prefix(
    releases: Seq<JsonValue>,
    n: int,
    package_name: Seq<char>,
    constraints: Seq<Seq<char>>,
    platform: Platform,
) -> Result<(Seq<ReleaseModel>, Seq<(Seq<char>, Seq<char>)>), Seq<char>>
    decreases n,
{
    if n <= 0 {
        Ok((Seq::empty(), Seq::empty()))
    } else {
        match candidates_prefix(releases, n - 1, package_name, constraints, platform) {
            Err(m) => Err(m),
            Ok((candidates, rejections)) => match candidate_spec(
                releases[n - 1],
                links_at(releases, n - 1),
                constraints,
                releases.len() as usize,
            ) {
                Err(m) => Err(m),
                Ok(None) => Ok((candidates, rejections)),
                Ok(Some(model)) => match validate_spec(
                    model.platform_requires,
                    platform,
                    package_name,
                ) {
                    Some(message) => Ok((candidates, rejections.push((model.version, message)))),
                    None => Ok((candidates.push(model), rejections)),
                },
            },
        }
    }
}

/// What reading the whole metadata gives.
pub open spec fn candidates_spec(
    metadata: JsonValue,
    package_name: Seq<char>,
    constraints: Seq<Seq<char>>,
    platform: Platform,
) -> Result<(Seq<ReleaseModel>, Seq<(Seq<char>, Seq<char>)>), Seq<char>> {
    match metadata_versions(metadata, package_name) {
        None => Err("Packagist metadata does not contain versions for this package"@),
        Some(releases) => reading_of(entry_outcomes(releases, constraints), platform, package_name),
    }
}

/// The models of a list of releases.
pub open spec fn release_models(releases: Seq<PackagistRelease>) -> Seq<ReleaseModel> {
    releases.map_values(|r: PackagistRelease| r@)
}

/// The (version, error) pairs of a list of rejections.
pub open spec fn rejection_models(rejections: Seq<PlatformRejection>) -> Seq<(Seq<char>, Seq<char>)> {
    rejections.map_values(|r: PlatformRejection| (r.version@, r.error@))
}

/// The release entries of the metadata.
fn metadata_releases<'a>(metadata: &'a JsonValue, package_name: &str) -> (r: Option<&'a Vec<JsonValue>>)
    ensures
        match r {
            Some(items) => metadata_versions(*metadata, package_name@) == Some(items@),
            None => metadata_versions(*metadata, package_name@) is None,
        },
{
    match metadata.get("packages") {
        None => None,
        Some(packages) => match packages.get(package_name) {
            Some(JsonValue::Array(items)) => Some(items),
            _ => None,
        },
    }
}

/// Reads the release entries of `package_name`: releases that meet the constraints and
/// have a dist URL, split into those the platform accepts and those it rejects.
pub fn parsed_release_candidates(
    metadata: &JsonValue,
    package_name: &str,
    constraints: &Vec<String>,
    platform: &Platform,
) -> (r: Result<(Vec<PackagistRelease>, Vec<PlatformRejection>), ConcertoError>)
    ensures
        match candidates_spec(*metadata, package_name@, views(constraints@), *platform) {
            Ok((candidates, rejections)) => r matches Ok((c, j)) && release_models(c@)
                == candidates && rejection_models(j@) == rejections,
            Err(m) => r matches Err(e) && resolution_error(e, package_name@, constraints@, m),
        },
{
    let versions = match metadata_releases(metadata, package_name) {
        None => {
            return Err(
                ConcertoError::resolution(
                    package_name,
                    constraints,
                    "Packagist metadata does not contain versions for this package".to_owned(),
                ),
            );
        },
        Some(versions) => versions,
    };
    let mut platform_rejections: Vec<PlatformRejection> = Vec::new();
    let mut candidates: Vec<PackagistRelease> = Vec::new();
    let mut inherited_links = InheritedLinks::new();
    let mut i: usize = 0;
    proof {
        assert(release_models(candidates@) =~= Seq::<ReleaseModel>::empty());
        assert(rejection_models(platform_rejections@) =~= Seq::<(Seq<char>, Seq<char>)>::empty());
    }
    while i < versions.len()
        invariant
            i <= versions@.len(),
            metadata_versions(*metadata, package_name@) == Some(versions@),
            inherited_links.model() == links_at(versions@, i - 1),
            candidates_prefix(versions@, i as int, package_name@, views(constraints@), *platform)
                == Ok::<(Seq<ReleaseModel>, Seq<(Seq<char>, Seq<char>)>), Seq<char>>(
                (release_models(candidates@), rejection_models(platform_rejections@)),
            ),
        decreases versions@.len() - i,
    {
        let release = &versions[i];
        inherited_links.update(release);
        proof {
            assert(inherited_links.model() == links_at(versions@, i as int));
        }
        let ghost before_c = candidates@;
        let ghost before_r = platform_rejections@;
        let candidate = match release_candidate(
            release,
            &inherited_links,
            package_name,
            constraints,
            versions.len(),
        ) {
            Err(e) => {
                proof {
                    lemma_prefix_error_stays(
                        versions@,
                        i + 1,
                        versions@.len() as int,
                        package_name@,
                        views(constraints@),
                        *platform,
                    );
                    lemma_prefix_reading(versions@, versions@.len() as int, package_name@, views(constraints@), *platform);
                    assert(entry_outcomes(versions@, views(constraints@)).take(versions@.len() as int)
                        =~= entry_outcomes(versions@, views(constraints@)));
                }
                return Err(e);
            },
            Ok(None) => {
                i = i + 1;
                continue;
            },
            Ok(Some(candidate)) => candidate,
        };
        match validate(&candidate.platform_requires, platform, package_name) {
            Err(error) => {
                platform_rejections.push(
                    PlatformRejection { version: candidate.version.clone(), error: error.message() },
                );
                proof {
                    assert(rejection_models(platform_rejections@) =~= rejection_models(before_r).push(
                        (candidate.version@, error.message_spec()),
                    ));
                }
            },
            Ok(()) => {
                let ghost model = candidate@;
                candidates.push(candidate);
                proof {
                    assert(release_models(candidates@) =~= release_models(before_c).push(model));
                }
            },
        }
        i = i + 1;
    }
    proof {
        lemma_prefix_reading(versions@, versions@.len() as int, package_name@, views(constraints@), *platform);
        assert(entry_outcomes(versions@, views(constraints@)).take(versions@.len() as int) =~= entry_outcomes(
            versions@,
            views(constraints@),
        ));
    }
    Ok((candidates, platform_rejections))
}

/// Every candidate of `package_name`; fails when the platform rejected every release
/// that met the constraints.
pub fn release_candidates(
    metadata: &JsonValue,
    package_name: &str,
    constraints: &Vec<String>,
    platform: &Platform,
) -> (r: Result<Vec<PackagistRelease>, ConcertoError>)
    ensures
        match candidates_spec(*metadata, package_name@, views(constraints@), *platform) {
            Ok((candidates, rejections)) => if candidates.len() == 0 && rejections.len() > 0 {
                r matches Err(e) && resolution_error(
                    e,
                    package_name@,
                    constraints@,
                    no_matching_message(package_name@, views(constraints@), *platform, rejections),
                )
            } else {
                r matches Ok(c) && release_models(c@) == candidates
            },
            Err(m) => r matches Err(e) && resolution_error(e, package_name@, constraints@, m),
        },
{
    let (candidates, platform_rejections) = parsed_release_candidates(
        metadata,
        package_name,
        constraints,
        platform,
    )?;
    if candidates.len() == 0 && platform_rejections.len() > 0 {
        return Err(
            no_matching_version_error(package_name, constraints, platform, &platform_rejections),
        );
    }
    Ok(candidates)
}

/// The first candidate of `package_name` that meets all constraints and the platform.
pub fn first_release_candidate(
    metadata: &JsonValue,
    package_name: &str,
    constraints: &Vec<String>,
    platform: &Platform,
) -> (r: Result<PackagistRelease, ConcertoError>)
    ensures
        match candidates_spec(*metadata, package_name@, views(constraints@), *platform) {
            Ok((candidates, rejections)) => if candidates.len() > 0 {
                r matches Ok(c) && c@ == candidates[0]
            } else {
                r matches Err(e) && resolution_error(
                    e,
                    package_name@,
                    constraints@,
                    no_matching_message(package_name@, views(constraints@), *platform, rejections),
                )
            },
            Err(m) => r matches Err(e) && resolution_error(e, package_name@, constraints@, m),
        },
{
    let (candidates, platform_rejections) = parsed_release_candidates(
        metadata,
        package_name,
        constraints,
        platform,
    )?;
    if candidates.len() > 0 {
        let ghost releases = metadata_versions(*metadata, package_name@)->0;
        proof {
            lemma_prefix_reading(releases, releases.len() as int, package_name@, views(constraints@), *platform);
            assert(entry_outcomes(releases, views(constraints@)).take(releases.len() as int) =~= entry_outcomes(
                releases,
                views(constraints@),
            ));
            lemma_candidates_match(
                releases,
                releases.len() as int,
                package_name@,
                views(constraints@),
                *platform,
            );
            assert(release_models(candidates@)[0] == candidates@[0]@);
            assert(constraints_outcome(release_models(candidates@)[0].version, views(constraints@))
                == Ok::<bool, Seq<char>>(true));
        }
        let candidate = &candidates[0];
        if candidate.matches_constraints(package_name, constraints)? {
            return Ok(candidate.clone());
        }
    }
    Err(no_matching_version_error(package_name, constraints, platform, &platform_rejections))
}

/// Reading the first `n` entries one after the other gives what `reading_of` says of
/// their outcomes; when one of them fails, a first one does.
proof fn lemma_prefix_reading(
    releases: Seq<JsonValue>,
    n: int,
    package_name: Seq<char>,
    constraints: Seq<Seq<char>>,
    platform: Platform,
)
    requires
        0 <= n <= releases.len(),
    ensures
        candidates_prefix(releases, n, package_name, constraints, platform) == reading_of(
            entry_outcomes(releases, constraints).take(n),
            platform,
            package_name,
        ),
        !(forall|j: int| 0 <= j < n ==> #[trigger] entry_outcomes(releases, constraints).take(n)[j] is Ok)
            ==> exists|i: int| first_failing(entry_outcomes(releases, constraints).take(n), i),
    decreases n,
{
    let os = entry_outcomes(releases, constraints);
    let t = os.take(n);
    if n == 0 {
        assert(t =~= Seq::<Result<Option<ReleaseModel>, Seq<char>>>::empty());
        assert(t.filter_map(accepted(platform, package_name)) =~= Seq::<ReleaseModel>::empty());
        assert(t.filter_map(rejected(platform, package_name)) =~= Seq::<(Seq<char>, Seq<char>)>::empty());
    } else {
        lemma_prefix_reading(releases, n - 1, package_name, constraints, platform);
        let t0 = os.take(n - 1);
        assert(t.drop_last() =~= t0);
        assert(t.last() == entry_outcome(releases, n - 1, constraints));
        assert forall|j: int| 0 <= j < n - 1 implies #[trigger] t[j] == t0[j] by {}
        if forall|j: int| 0 <= j < n - 1 ==> #[trigger] t0[j] is Ok {
            if t.last() is Err {
                assert(first_failing(t, n - 1)) by {
                    assert forall|j: int| 0 <= j < n - 1 implies #[trigger] t[j] is Ok by {
                        assert(t0[j] is Ok);
                    }
                }
                let c = choose|i: int| first_failing(t, i);
                if c < n - 1 {
                    assert(t0[c] is Ok);
                }
                assert(!(forall|j: int| 0 <= j < n ==> #[trigger] t[j] is Ok)) by {
                    assert(t[n - 1] is Err);
                }
            } else {
                assert forall|j: int| 0 <= j < n implies #[trigger] t[j] is Ok by {
                    if j < n - 1 {
                        assert(t0[j] is Ok);
                    }
                }
                let f = accepted(platform, package_name);
                let g = rejected(platform, package_name);
                assert(t.filter_map(f) == t0.filter_map(f) + match f(t.last()) {
                    Some(x) => seq![x],
                    None => Seq::<ReleaseModel>::empty(),
                });
                assert(t.filter_map(g) == t0.filter_map(g) + match g(t.last()) {
                    Some(x) => seq![x],
                    None => Seq::<(Seq<char>, Seq<char>)>::empty(),
                });
                match t.last() {
                    Ok(Some(m)) => match validate_spec(m.platform_requires, platform, package_name) {
                        None => {
                            assert(t.filter_map(f) =~= t0.filter_map(f).push(m));
                            assert(t.filter_map(g) =~= t0.filter_map(g));
                        },
                        Some(message) => {
                            assert(t.filter_map(f) =~= t0.filter_map(f));
                            assert(t.filter_map(g) =~= t0.filter_map(g).push((m.version, message)));
                        },
                    },
                    _ => {
                        assert(t.filter_map(f) =~= t0.filter_map(f));
                        assert(t.filter_map(g) =~= t0.filter_map(g));
                    },
                }
            }
        } else {
            let i0 = choose|i: int| first_failing(t0, i);
            assert(first_failing(t, i0)) by {
                assert forall|j: int| 0 <= j < i0 implies #[trigger] t[j] is Ok by {
                    assert(t0[j] is Ok);
                }
            }
            let c = choose|i: int| first_failing(t, i);
            if c < i0 {
                assert(t[c] is Ok);
            } else if i0 < c {
                assert(t[i0] is Ok);
            }
            let c0 = choose|i: int| first_failing(t0, i);
            assert(c0 == i0);
            assert(!(forall|j: int| 0 <= j < n ==> #[trigger] t[j] is Ok)) by {
                assert(t[i0] is Err);
            }
        }
    }
}

proof fn lemma_prefix_error_stays(
    releases: Seq<JsonValue>,
    k: int,
    n: int,
    package_name: Seq<char>,
    constraints: Seq<Seq<char>>,
    platform: Platform,
)
    requires
        0 <= k <= n,
        candidates_prefix(releases, k, package_name, constraints, platform) is Err,
    ensures
        candidates_prefix(releases, n, package_name, constraints, platform) == candidates_prefix(
            releases,
            k,
            package_name,
            constraints,
            platform,
        ),
    decreases n - k,
{
    if n > k {
        lemma_prefix_error_stays(releases, k, n - 1, package_name, constraints, platform);
    }
}

proof fn lemma_candidates_match(
    releases: Seq<JsonValue>,
    n: int,
    package_name: Seq<char>,
    constraints: Seq<Seq<char>>,
    platform: Platform,
)
    ensures
        candidates_prefix(releases, n, package_name, constraints, platform) matches Ok((c, _))
            ==> forall|k: int|
            0 <= k < c.len() ==> constraints_outcome(#[trigger] c[k].version, constraints) == Ok::<
                bool,
                Seq<char>,
            >(true),
    decreases n,
{
    if n > 0 {
        lemma_candidates_match(releases, n - 1, package_name, constraints, platform);
        let outcome = candidate_spec(releases[n - 1], links_at(releases, n - 1), constraints, releases.len() as usize);
        if let Ok(Some(m)) = outcome {
            if let Some(JsonValue::Str(v)) = releases[n - 1].field("version"@) {
                let met = constraints_outcome(v@, constraints);
                assert(met is Ok && met->Ok_0);
                assert(m.version == v@);
                assert(constraints_outcome(m.version, constraints) == Ok::<bool, Seq<char>>(true));
            }
            if let Ok((c, j)) = candidates_prefix(releases, n, package_name, constraints, platform) {
                let before = candidates_prefix(releases, n - 1, package_name, constraints, platform);
                assert(before is Ok);
                let c0 = before->Ok_0.0;
                assert forall|k: int| 0 <= k < c.len() implies constraints_outcome(
                    #[trigger] c[k].version,
                    constraints,
                ) == Ok::<bool, Seq<char>>(true) by {
                    if k < c0.len() {
                        assert(c[k] == c0[k]);
                    }
                }
            }
        }
    }
}

// ---------------------------------------------------------------------------
// Errors
// ---------------------------------------------------------------------------

/// The platform in a message: PHP version and extensions.
pub open spec fn platform_summary_spec(platform: Platform) -> Seq<char> {
    if platform.extensions@.len() == 0 {
        "php "@ + platform.php_version@ + ", no extensions detected"@
    } else {
        "php "@ + platform.php_version@ + ", extensions: "@ + join_seq(
            views(platform.extensions@),
            ", "@,
        )
    }
}

/// Describes the detected platform.
pub fn platform_summary(platform: &Platform) -> (r: String)
    ensures
        r@ == platform_summary_spec(*platform),
{
    if platform.extensions.len() == 0 {
        return concat3("php ", platform.php_version.as_str(), ", no extensions detected");
    }
    let mut out = concat3("php ", platform.php_version.as_str(), ", extensions: ");
    let joined = join(&platform.extensions, ", ");
    out.append(joined.as_str());
    out
}

/// One skipped version in a message: `version (error)`.
pub open spec fn rejection_text(rejection: (Seq<char>, Seq<char>)) -> Seq<char> {
    rejection.0 + " ("@ + rejection.1 + ")"@
}

/// The message when no release fits.
pub open spec fn no_matching_message(
    package_name: Seq<char>,
    constraints: Seq<Seq<char>>,
    platform: Platform,
    rejections: Seq<(Seq<char>, Seq<char>)>,
) -> Seq<char> {
    let base = NO_MATCHING_VERSION@ + " all constraints and current platform for "@ + package_name
        + ": "@ + join_seq(constraints, ", "@) + " ("@ + platform_summary_spec(platform) + ")"@;
    if rejections.len() == 0 {
        base
    } else {
        base + ". Skipped platform-incompatible versions: "@ + join_seq(
            rejections.map_values(|r: (Seq<char>, Seq<char>)| rejection_text(r)),
            "; "@,
        )
    }
}

/// The resolution error when no release fits the constraints and the platform.
pub fn no_matching_version_error(
    package_name: &str,
    constraints: &Vec<String>,
    platform: &Platform,
    platform_rejections: &Vec<PlatformRejection>,
) -> (r: ConcertoError)
    ensures
        resolution_error(
            r,
            package_name@,
            constraints@,
            no_matching_message(
                package_name@,
                views(constraints@),
                *platform,
                rejection_models(platform_rejections@),
            ),
        ),
{
    let mut error = concat3(NO_MATCHING_VERSION, " all constraints and current platform for ", package_name);
    error.append(": ");
    let joined = join(constraints, ", ");
    error.append(joined.as_str());
    error.append(" (");
    let summary = platform_summary(platform);
    error.append(summary.as_str());
    error.append(")");
    if platform_rejections.len() > 0 {
        error.append(". Skipped platform-incompatible versions: ");
        let mut texts: Vec<String> = Vec::new();
        let mut i: usize = 0;
        while i < platform_rejections.len()
            invariant
                i <= platform_rejections@.len(),
                views(texts@) == rejection_models(platform_rejections@).take(i as int).map_values(
                    |r: (Seq<char>, Seq<char>)| rejection_text(r),
                ),
            decreases platform_rejections@.len() - i,
        {
            let mut text = concat3(
                platform_rejections[i].version.as_str(),
                " (",
                platform_rejections[i].error.as_str(),
            );
            text.append(")");
            let ghost before = texts@;
            texts.push(text);
            proof {
                assert(rejection_models(platform_rejections@).take(i + 1) =~= rejection_models(
                    platform_rejections@,
                ).take(i as int).push(
                    (platform_rejections@[i as int].version@, platform_rejections@[i as int].error@),
                ));
                assert(views(texts@) =~= views(before).push(text@));
            }
            i = i + 1;
        }
        proof {
            assert(rejection_models(platform_rejections@).take(platform_rejections@.len() as int)
                =~= rejection_models(platform_rejections@));
        }
        let joined = join(&texts, "; ");
        error.append(joined.as_str());
    }
    ConcertoError::resolution(package_name, constraints, error)
}

} // verus!
