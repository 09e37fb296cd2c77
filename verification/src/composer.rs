//! `composer.json`: root requirements, repositories and package names.

use vstd::prelude::*;
use crate::error::ConcertoError;
use crate::json::{lookup, JsonValue};
use crate::text::{
    chars_of, concat2, concat3, find_char, first_index_of, is_prefix, lowercase, starts_with,
    str_eq, string_of_range, to_lowercase,
};

verus! {

broadcast use vstd::seq_lib::group_seq_properties;

pub const REQUIRE_MUST_BE_OBJECT: &'static str = "composer.json require must be an object";

/// A package (or platform) name with the version constraint required of it.
#[derive(Debug, PartialEq, Eq)]
pub struct RequiredPackage {
    pub name: String,
    pub constraint: String,
}

impl Clone for RequiredPackage {
    fn clone(&self) -> (r: Self)
        ensures
            r == *self,
    {
        RequiredPackage { name: self.name.clone(), constraint: self.constraint.clone() }
    }
}

/// A Composer repository, by its URL without trailing slashes.
#[derive(Debug, PartialEq, Eq)]
pub struct ComposerRepository {
    pub url: String,
}

impl Clone for ComposerRepository {
    fn clone(&self) -> (r: Self)
        ensures
            r == *self,
    {
        ComposerRepository { url: self.url.clone() }
    }
}

/// What the installer reads from the root `composer.json`.
#[derive(Debug)]
pub struct ComposerManifest {
    pub package_requirements: Vec<RequiredPackage>,
    pub platform_requirements: Vec<RequiredPackage>,
    pub require_dev: Vec<RequiredPackage>,
    pub repositories: Vec<ComposerRepository>,
}

// ---------------------------------------------------------------------------
// Names
// ---------------------------------------------------------------------------

/// A valid half of a package name: not empty, not `.` and not `..`.
pub open spec fn valid_name_part(p: Seq<char>) -> bool {
    p.len() > 0 && p != "."@ && p != ".."@
}

/// The vendor and package halves of `name`, split at its first `/`, when both are valid.
pub open spec fn package_parts(name: Seq<char>) -> Option<(Seq<char>, Seq<char>)> {
    if name.contains('/') {
        let i = choose|i: int| first_index_of(name, '/', i);
        let vendor = name.subrange(0, i);
        let package = name.subrange(i + 1, name.len() as int);
        if valid_name_part(vendor) && valid_name_part(package) {
            Some((vendor, package))
        } else {
            None
        }
    } else {
        None
    }
}

/// `name` names a platform requirement: `php`, `ext-*` or `lib-*`, in any case.
pub open spec fn is_platform_name(name: Seq<char>) -> bool {
    let l = lowercase(name);
    l == "php"@ || is_prefix("ext-"@, l) || is_prefix("lib-"@, l)
}

proof fn lemma_first_index_unique(s: Seq<char>, c: char, i: int, j: int)
    requires
        first_index_of(s, c, i),
        first_index_of(s, c, j),
    ensures
        i == j,
{
}

/// Splits `vendor/package`; both halves must be non-empty and neither `.` nor `..`.
pub fn package_path_parts(package_name: &str) -> (r: Result<(String, String), ConcertoError>)
    ensures
        match package_parts(package_name@) {
            Some((vendor, package)) => r matches Ok((v, p)) && v@ == vendor && p@ == package,
            None => r matches Err(ConcertoError::InvalidPackageName { name }) && name@
                == package_name@,
        },
{
    let cs = chars_of(package_name);
    match find_char(&cs, '/') {
        None => Err(ConcertoError::invalid_package_name(package_name)),
        Some(i) => {
            assert(i < cs.len());
            proof {
                let k = choose|k: int| first_index_of(package_name@, '/', k);
                lemma_first_index_unique(package_name@, '/', i as int, k);
            }
            let vendor = string_of_range(&cs, 0, i);
            let package = string_of_range(&cs, i + 1, cs.len());
            if vendor.as_str().is_empty() || package.as_str().is_empty() || str_eq(
                vendor.as_str(),
                ".",
            ) || str_eq(vendor.as_str(), "..") || str_eq(package.as_str(), ".") || str_eq(
                package.as_str(),
                "..",
            ) {
                Err(ConcertoError::invalid_package_name(package_name))
            } else {
                Ok((vendor, package))
            }
        },
    }
}

/// `name` is a `vendor/package` name.
pub fn is_package_name(name: &str) -> (r: bool)
    ensures
        r == (package_parts(name@) is Some),
{
    package_path_parts(name).is_ok()
}

/// `name` is a platform requirement (`php`, `ext-*`, `lib-*`), compared case-insensitively.
pub fn is_platform_requirement(name: &str) -> (r: bool)
    ensures
        r == is_platform_name(name@),
{
    let name = to_lowercase(name);
    str_eq(name.as_str(), "php") || starts_with(name.as_str(), "ext-") || starts_with(
        name.as_str(),
        "lib-",
    )
}

// ---------------------------------------------------------------------------
// Requirement lists
// ---------------------------------------------------------------------------

/// The requirements an object of `name: constraint` members lists, in member order;
/// `Err` carries the name of the first member whose constraint is not a string.
pub open spec fn requirements_spec(entries: Seq<(String, JsonValue)>) -> Result<
    Seq<RequiredPackage>,
    Seq<char>,
>
    decreases entries.len(),
{
    if entries.len() == 0 {
        Ok(Seq::empty())
    } else {
        match entries[0].1 {
            JsonValue::Str(c) => match requirements_spec(entries.drop_first()) {
                Ok(rest) => Ok(seq![RequiredPackage { name: entries[0].0, constraint: c }] + rest),
                Err(bad) => Err(bad),
            },
            _ => Err(entries[0].0@),
        }
    }
}

/// The message for a member whose constraint is not a string.
pub open spec fn constraint_not_string(name: Seq<char>) -> Seq<char> {
    "package constraint for "@ + name + " must be a string"@
}

/// The requirements listed by the members of a `require`-like object.
pub fn required_packages_from_object(require: &Vec<(String, JsonValue)>) -> (r: Result<
    Vec<RequiredPackage>,
    ConcertoError,
>)
    ensures
        match requirements_spec(require@) {
            Ok(list) => r matches Ok(v) && v@ == list,
            Err(bad) => r matches Err(ConcertoError::Requirement { message }) && message@
                == constraint_not_string(bad),
        },
{
    let mut out: Vec<RequiredPackage> = Vec::new();
    let mut i: usize = 0;
    while i < require.len()
        invariant
            i <= require@.len(),
            requirements_spec(require@) == match requirements_spec(require@.skip(i as int)) {
                Ok(rest) => Ok(out@ + rest),
                Err(bad) => Err(bad),
            },
        decreases require@.len() - i,
    {
        let ghost tail = require@.skip(i as int);
        assert(tail.drop_first() =~= require@.skip(i + 1));
        assert(tail[0] == require@[i as int]);
        let ghost before = out@;
        match &require[i].1 {
            JsonValue::Str(c) => {
                let item = RequiredPackage { name: require[i].0.clone(), constraint: c.clone() };
                assert(item == RequiredPackage { name: tail[0].0, constraint: *c });
                out.push(item);
                proof {
                    match requirements_spec(require@.skip(i + 1)) {
                        Ok(rest) => {
                            assert(requirements_spec(tail) == Ok::<Seq<RequiredPackage>, Seq<char>>(seq![item] + rest));
                            assert(before + (seq![item] + rest) =~= out@ + rest);
                        },
                        Err(_) => {},
                    }
                }
            },
            _ => {
                let message = concat3(
                    "package constraint for ",
                    require[i].0.as_str(),
                    " must be a string",
                );
                return Err(ConcertoError::requirement(message));
            },
        }
        i = i + 1;
    }
    assert(require@.skip(i as int) =~= Seq::<(String, JsonValue)>::empty());
    assert(out@ + Seq::<RequiredPackage>::empty() =~= out@);
    Ok(out)
}

/// Splits requirements into (platform, package) ones, keeping their order.
pub fn split_platform_requirements(requirements: Vec<RequiredPackage>) -> (r: (
    Vec<RequiredPackage>,
    Vec<RequiredPackage>,
))
    ensures
        r.0@ == requirements@.filter(|q: RequiredPackage| is_platform_name(q.name@)),
        r.1@ == requirements@.filter(|q: RequiredPackage| !is_platform_name(q.name@)),
{
    let mut platform: Vec<RequiredPackage> = Vec::new();
    let mut packages: Vec<RequiredPackage> = Vec::new();
    let mut i: usize = 0;
    while i < requirements.len()
        invariant
            i <= requirements@.len(),
            platform@ == requirements@.take(i as int).filter(
                |q: RequiredPackage| is_platform_name(q.name@),
            ),
            packages@ == requirements@.take(i as int).filter(
                |q: RequiredPackage| !is_platform_name(q.name@),
            ),
        decreases requirements@.len() - i,
    {
        proof {
            reveal_with_fuel(Seq::<_>::filter, 1);
            assert(requirements@.take(i + 1).drop_last() =~= requirements@.take(i as int));
        }
        let requirement = requirements[i].clone();
        if is_platform_requirement(requirement.name.as_str()) {
            platform.push(requirement);
        } else {
            packages.push(requirement);
        }
        i = i + 1;
    }
    assert(requirements@.take(requirements@.len() as int) =~= requirements@);
    (platform, packages)
}

// ---------------------------------------------------------------------------
// The manifest
// ---------------------------------------------------------------------------

/// `s` without the characters `c` at its end, as `trim_end_matches(c)` gives it.
pub open spec fn trim_end_char(s: Seq<char>, c: char) -> Seq<char>
    decreases s.len(),
{
    if s.len() > 0 && s.last() == c {
        trim_end_char(s.drop_last(), c)
    } else {
        s
    }
}

/// The URLs of the `repositories` array, or the message of the first bad entry.
pub open spec fn repositories_spec(items: Seq<JsonValue>) -> Result<Seq<Seq<char>>, Seq<char>>
    decreases items.len(),
{
    if items.len() == 0 {
        Ok(Seq::empty())
    } else {
        match items[0].field("type"@) {
            Some(JsonValue::Str(t)) => if t@ != "composer"@ {
                Err("composer repository type "@ + t@ + " is not supported yet"@)
            } else {
                match items[0].field("url"@) {
                    Some(JsonValue::Str(u)) => match repositories_spec(items.drop_first()) {
                        Ok(rest) => Ok(seq![trim_end_char(u@, '/')] + rest),
                        Err(m) => Err(m),
                    },
                    _ => Err("composer repository url must be a string"@),
                }
            },
            _ => Err("composer repository type must be a string"@),
        }
    }
}

/// The members of an optional object section: `Ok(None)` when absent.
pub open spec fn section_entries(parsed: JsonValue, section: Seq<char>) -> Result<
    Option<Seq<(String, JsonValue)>>,
    Seq<char>,
> {
    match parsed.field(section) {
        None => Ok(None),
        Some(JsonValue::Object(entries)) => Ok(Some(entries@)),
        Some(_) => Err("composer.json "@ + section + " must be an object"@),
    }
}

/// The requirements of an optional object section, or an error message.
pub open spec fn optional_requirements_spec(parsed: JsonValue, section: Seq<char>) -> Result<
    Seq<RequiredPackage>,
    Seq<char>,
> {
    match section_entries(parsed, section) {
        Err(m) => Err(m),
        Ok(None) => Ok(Seq::empty()),
        Ok(Some(entries)) => match requirements_spec(entries) {
            Ok(list) => Ok(list),
            Err(bad) => Err(constraint_not_string(bad)),
        },
    }
}

/// The message of the first unsupported section, if any.
pub open spec fn unsupported_section_spec(parsed: JsonValue) -> Option<Seq<char>> {
    if parsed.field("suggest"@) matches Some(s) && !(s is Object) {
        Some("composer.json suggest must be an object"@)
    } else if parsed.field("scripts"@) is Some {
        Some("composer.json scripts are not supported yet"@)
    } else if parsed.field("config"@) matches Some(c) && c.field("allow-plugins"@) is Some {
        Some("Composer plugins are not supported yet"@)
    } else {
        None
    }
}

/// The repository URLs of the manifest, or an error message.
pub open spec fn manifest_repositories_spec(parsed: JsonValue) -> Result<Seq<Seq<char>>, Seq<char>> {
    match parsed.field("repositories"@) {
        None => Ok(Seq::empty()),
        Some(JsonValue::Array(items)) => repositories_spec(items@),
        Some(_) => Err("composer.json repositories must be an array"@),
    }
}

/// The error message `manifest` gives for `parsed`, if it gives one; the checks run in
/// the order the installer runs them.
pub open spec fn manifest_error_spec(parsed: JsonValue) -> Option<Seq<char>> {
    if unsupported_section_spec(parsed) is Some {
        unsupported_section_spec(parsed)
    } else if !(parsed.field("require"@) matches Some(JsonValue::Object(_))) {
        Some(REQUIRE_MUST_BE_OBJECT@)
    } else if requirements_spec(parsed.field("require"@)->0->Object_0@) is Err {
        Some(constraint_not_string(requirements_spec(parsed.field("require"@)->0->Object_0@)->Err_0))
    } else if optional_requirements_spec(parsed, "require-dev"@) is Err {
        Some(optional_requirements_spec(parsed, "require-dev"@)->Err_0)
    } else if manifest_repositories_spec(parsed) is Err {
        Some(manifest_repositories_spec(parsed)->Err_0)
    } else {
        None
    }
}

/// The requirements of the manifest's `require` object (meaningful when it has no error).
pub open spec fn manifest_require_spec(parsed: JsonValue) -> Seq<RequiredPackage> {
    requirements_spec(parsed.field("require"@)->0->Object_0@)->Ok_0
}

/// The URLs of a list of repositories.
pub open spec fn repository_urls(repositories: Seq<ComposerRepository>) -> Seq<Seq<char>> {
    repositories.map_values(|r: ComposerRepository| r.url@)
}

/// Rejects the `composer.json` features the installer does not support.
pub fn reject_unsupported_sections(parsed: &JsonValue) -> (r: Result<(), ConcertoError>)
    ensures
        match unsupported_section_spec(*parsed) {
            None => r is Ok,
            Some(m) => r matches Err(ConcertoError::ComposerJson { message }) && message@ == m,
        },
{
    if let Some(suggest) = parsed.get("suggest") {
        if !suggest.is_object() {
            return Err(
                ConcertoError::composer_json(
                    "composer.json suggest must be an object".to_owned(),
                ),
            );
        }
    }
    if parsed.get("scripts").is_some() {
        return Err(
            ConcertoError::composer_json("composer.json scripts are not supported yet".to_owned()),
        );
    }
    if let Some(config) = parsed.get("config") {
        if config.get("allow-plugins").is_some() {
            return Err(
                ConcertoError::composer_json("Composer plugins are not supported yet".to_owned()),
            );
        }
    }
    Ok(())
}

/// The requirements of an optional object section of the manifest.
pub fn optional_required_packages(parsed: &JsonValue, section: &str) -> (r: Result<
    Vec<RequiredPackage>,
    ConcertoError,
>)
    ensures
        match optional_requirements_spec(*parsed, section@) {
            Ok(list) => r matches Ok(v) && v@ == list,
            Err(m) => r matches Err(ConcertoError::ComposerJson { message }) && message@ == m,
        },
{
    let value = match parsed.get(section) {
        None => {
            return Ok(Vec::new());
        },
        Some(value) => value,
    };
    let object = match value.as_object() {
        None => {
            return Err(
                ConcertoError::composer_json(
                    concat3("composer.json ", section, " must be an object"),
                ),
            );
        },
        Some(object) => object,
    };
    match required_packages_from_object(object) {
        Ok(list) => Ok(list),
        Err(error) => Err(ConcertoError::composer_json(error.message())),
    }
}

/// `s` without the characters `c` at its end.
pub fn trim_end_matches_char(s: &str, c: char) -> (r: String)
    ensures
        r@ == trim_end_char(s@, c),
{
    let cs = chars_of(s);
    let mut to: usize = cs.len();
    proof {
        assert(cs@.subrange(0, to as int) =~= cs@);
    }
    while to > 0 && cs[to - 1] == c
        invariant
            to <= cs@.len(),
            trim_end_char(s@, c) == trim_end_char(cs@.subrange(0, to as int), c),
        decreases to,
    {
        proof {
            let t = cs@.subrange(0, to as int);
            assert(t.drop_last() =~= cs@.subrange(0, to - 1));
        }
        to = to - 1;
    }
    string_of_range(&cs, 0, to)
}

/// The repositories of an array of repository objects.
pub fn repositories_from_items(items: &Vec<JsonValue>) -> (r: Result<
    Vec<ComposerRepository>,
    ConcertoError,
>)
    ensures
        match repositories_spec(items@) {
            Ok(urls) => r matches Ok(v) && repository_urls(v@) == urls,
            Err(m) => r matches Err(ConcertoError::ComposerJson { message }) && message@ == m,
        },
{
    let mut out: Vec<ComposerRepository> = Vec::new();
    let mut i: usize = 0;
    while i < items.len()
        invariant
            i <= items@.len(),
            repositories_spec(items@) == match repositories_spec(items@.skip(i as int)) {
                Ok(rest) => Ok(repository_urls(out@) + rest),
                Err(m) => Err(m),
            },
        decreases items@.len() - i,
    {
        let ghost tail = items@.skip(i as int);
        assert(tail.drop_first() =~= items@.skip(i + 1));
        assert(tail[0] == items@[i as int]);
        let item = &items[i];
        let repository_type = match item.get("type") {
            Some(JsonValue::Str(t)) => t,
            _ => {
                return Err(
                    ConcertoError::composer_json(
                        "composer repository type must be a string".to_owned(),
                    ),
                );
            },
        };
        if !str_eq(repository_type.as_str(), "composer") {
            return Err(
                ConcertoError::composer_json(
                    concat3(
                        "composer repository type ",
                        repository_type.as_str(),
                        " is not supported yet",
                    ),
                ),
            );
        }
        let url = match item.get("url") {
            Some(JsonValue::Str(u)) => u,
            _ => {
                return Err(
                    ConcertoError::composer_json(
                        "composer repository url must be a string".to_owned(),
                    ),
                );
            },
        };
        let ghost before = out@;
        out.push(ComposerRepository { url: trim_end_matches_char(url.as_str(), '/') });
        proof {
            assert(repository_urls(out@) =~= repository_urls(before).push(
                trim_end_char(url@, '/'),
            ));
            match repositories_spec(items@.skip(i + 1)) {
                Ok(rest) => {
                    assert(repository_urls(before) + (seq![trim_end_char(url@, '/')] + rest)
                        =~= repository_urls(out@) + rest);
                },
                Err(_) => {},
            }
        }
        i = i + 1;
    }
    assert(items@.skip(i as int) =~= Seq::<JsonValue>::empty());
    assert(repository_urls(out@) + Seq::<Seq<char>>::empty() =~= repository_urls(out@));
    Ok(out)
}

/// The repositories the manifest lists, in priority order.
pub fn repositories(parsed: &JsonValue) -> (r: Result<Vec<ComposerRepository>, ConcertoError>)
    ensures
        match manifest_repositories_spec(*parsed) {
            Ok(urls) => r matches Ok(v) && repository_urls(v@) == urls,
            Err(m) => r matches Err(ConcertoError::ComposerJson { message }) && message@ == m,
        },
{
    match parsed.get("repositories") {
        None => {
            assert(repository_urls(Seq::<ComposerRepository>::empty()) =~= Seq::empty());
            Ok(Vec::new())
        },
        Some(value) => match value.as_array() {
            Some(items) => repositories_from_items(items),
            None => Err(
                ConcertoError::composer_json(
                    "composer.json repositories must be an array".to_owned(),
                ),
            ),
        },
    }
}

/// Reads the root manifest from the decoded `composer.json`.
///
/// Fails, with a `ComposerJson` error, exactly when `manifest_error_spec` gives a
/// message; otherwise `require` splits into platform and package requirements.
pub fn manifest(parsed: &JsonValue) -> (r: Result<ComposerManifest, ConcertoError>)
    ensures
        match manifest_error_spec(*parsed) {
            Some(m) => r matches Err(ConcertoError::ComposerJson { message }) && message@ == m,
            None => r matches Ok(manifest) && {
                &&& manifest.platform_requirements@ == manifest_require_spec(*parsed).filter(
                    |q: RequiredPackage| is_platform_name(q.name@),
                )
                &&& manifest.package_requirements@ == manifest_require_spec(*parsed).filter(
                    |q: RequiredPackage| !is_platform_name(q.name@),
                )
                &&& manifest.require_dev@ == optional_requirements_spec(
                    *parsed,
                    "require-dev"@,
                )->Ok_0
                &&& repository_urls(manifest.repositories@) == manifest_repositories_spec(
                    *parsed,
                )->Ok_0
            },
        },
{
    reject_unsupported_sections(parsed)?;
    let require = match parsed.get("require") {
        Some(JsonValue::Object(entries)) => entries,
        _ => {
            return Err(ConcertoError::composer_json(REQUIRE_MUST_BE_OBJECT.to_owned()));
        },
    };
    let requirements = match required_packages_from_object(require) {
        Ok(list) => list,
        Err(error) => {
            return Err(ConcertoError::composer_json(error.message()));
        },
    };
    let (platform_requirements, package_requirements) = split_platform_requirements(
        requirements,
    );
    let require_dev = optional_required_packages(parsed, "require-dev")?;
    let repositories = repositories(parsed)?;
    Ok(ComposerManifest { package_requirements, platform_requirements, require_dev, repositories })
}

/// The package requirements of the decoded `composer.json`'s `require` section.
pub fn required_packages(parsed: &JsonValue) -> (r: Result<Vec<RequiredPackage>, ConcertoError>)
    ensures
        match manifest_error_spec(*parsed) {
            Some(m) => r matches Err(ConcertoError::ComposerJson { message }) && message@ == m,
            None => r matches Ok(v) && v@ == manifest_require_spec(*parsed).filter(
                |q: RequiredPackage| !is_platform_name(q.name@),
            ),
        },
{
    Ok(manifest(parsed)?.package_requirements)
}

impl ComposerManifest {
    /// Package requirements, then platform requirements, then (with `include_dev`)
    /// the `require-dev` ones.
    pub fn root_requirements(&self, include_dev: bool) -> (r: Vec<RequiredPackage>)
        ensures
            r@ == self.package_requirements@ + self.platform_requirements@ + (if include_dev {
                self.require_dev@
            } else {
                Seq::empty()
            }),
    {
        let mut out = clone_requirements(&self.package_requirements);
        append_requirements(&mut out, &self.platform_requirements);
        if include_dev {
            append_requirements(&mut out, &self.require_dev);
        }
        out
    }

    /// Package requirements, then (with `include_dev`) the `require-dev` ones.
    pub fn install_requirements(&self, include_dev: bool) -> (r: Vec<RequiredPackage>)
        ensures
            r@ == self.package_requirements@ + (if include_dev {
                self.require_dev@
            } else {
                Seq::empty()
            }),
    {
        let mut out = clone_requirements(&self.package_requirements);
        if include_dev {
            append_requirements(&mut out, &self.require_dev);
        }
        out
    }
}

/// A copy of a list of requirements.
pub fn clone_requirements(v: &Vec<RequiredPackage>) -> (r: Vec<RequiredPackage>)
    ensures
        r@ == v@,
{
    let mut out: Vec<RequiredPackage> = Vec::new();
    append_requirements(&mut out, v);
    out
}

/// Appends copies of `more` to `out`.
pub fn append_requirements(out: &mut Vec<RequiredPackage>, more: &Vec<RequiredPackage>)
    ensures
        final(out)@ == old(out)@ + more@,
{
    let ghost start = out@;
    let mut i: usize = 0;
    while i < more.len()
        invariant
            i <= more@.len(),
            out@ == start + more@.take(i as int),
        decreases more@.len() - i,
    {
        out.push(more[i].clone());
        assert(more@.take(i + 1) =~= more@.take(i as int).push(more@[i as int]));
        i = i + 1;
    }
    assert(more@.take(more@.len() as int) =~= more@);
}

} // verus!
