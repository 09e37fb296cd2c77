//! Platform requirements (`php`, `ext-*`, `lib-*`) against the detected PHP.

use vstd::prelude::*;
use crate::composer::RequiredPackage;
use crate::error::ConcertoError;
use crate::lines::{lines_spec, split_char, split_lines, split_spec};
use crate::semver::{satisfies, satisfies_spec};
use crate::text::{
    chars_of, concat2, concat3, first_index_of, is_prefix, lowercase, split_once_char,
    starts_with, str_eq, string_of_range, to_lowercase, trim, trim_seq,
};

verus! {

/// The PHP version and the extensions the installer detected.
#[derive(Debug, PartialEq, Eq)]
pub struct Platform {
    pub php_version: String,
    /// Loaded extensions, lower case, in the order PHP listed them.
    pub extensions: Vec<String>,
    /// Known extension versions, one entry per extension.
    pub extension_versions: Vec<(String, String)>,
}

/// Why a platform requirement fails.
pub enum PlatformFailure {
    /// The requirement is not met; `detected` says what was found instead.
    Unmet(Seq<char>),
    /// The requirement could not be checked.
    Detection(Seq<char>),
}

/// The version recorded for `name`: the first entry with that name.
pub open spec fn version_of(entries: Seq<(String, String)>, name: Seq<char>) -> Option<Seq<char>>
    decreases entries.len(),
{
    if entries.len() == 0 {
        None
    } else if entries[0].0@ == name {
        Some(entries[0].1@)
    } else {
        version_of(entries.drop_first(), name)
    }
}

/// `s` without every leading repetition of `prefix`, as `trim_start_matches` gives it.
pub open spec fn strip_all_prefix(s: Seq<char>, prefix: Seq<char>) -> Seq<char>
    decreases s.len(),
{
    if prefix.len() > 0 && is_prefix(prefix, s) {
        strip_all_prefix(s.subrange(prefix.len() as int, s.len() as int), prefix)
    } else {
        s
    }
}

/// `name` is among `list`.
pub open spec fn has_name(list: Seq<String>, name: Seq<char>) -> bool {
    exists|i: int| 0 <= i < list.len() && list[i]@ == name
}

/// Whether one requirement fails on `platform`, and why.
pub open spec fn check_spec(requirement: RequiredPackage, platform: Platform) -> Option<
    PlatformFailure,
> {
    let name = lowercase(requirement.name@);
    if name == "php"@ {
        match satisfies_spec(platform.php_version@, requirement.constraint@) {
            Err(e) => Some(PlatformFailure::Detection("Could not check php requirement: "@ + e)),
            Ok(true) => None,
            Ok(false) => Some(PlatformFailure::Unmet(platform.php_version@)),
        }
    } else if is_prefix("ext-"@, name) {
        let extension = strip_all_prefix(name, "ext-"@);
        if !has_name(platform.extensions@, extension) {
            Some(PlatformFailure::Unmet("missing"@))
        } else if requirement.constraint@ == "*"@ {
            None
        } else {
            match version_of(platform.extension_versions@, extension) {
                None => Some(PlatformFailure::Unmet("installed, version unknown"@)),
                Some(v) => match satisfies_spec(v, requirement.constraint@) {
                    Err(e) => Some(
                        PlatformFailure::Detection(
                            "Could not check "@ + requirement.name@ + " requirement: "@ + e,
                        ),
                    ),
                    Ok(true) => None,
                    Ok(false) => Some(PlatformFailure::Unmet(v)),
                },
            }
        }
    } else if is_prefix("lib-"@, name) {
        Some(PlatformFailure::Unmet("unsupported"@))
    } else {
        None
    }
}

/// The text naming a requirement in an error: its name and constraint.
pub open spec fn requirement_text(requirement: RequiredPackage) -> Seq<char> {
    requirement.name@ + " "@ + requirement.constraint@
}

/// `error` is the error the installer gives for `failure` of `requirement` of `package`.
pub open spec fn failure_error(
    error: ConcertoError,
    package: Seq<char>,
    requirement: RequiredPackage,
    failure: PlatformFailure,
) -> bool {
    match failure {
        PlatformFailure::Unmet(detected) => error matches ConcertoError::Platform {
            package: p,
            requirement: q,
            detected: d,
        } && p@ == package && q@ == requirement_text(requirement) && d@ == detected,
        PlatformFailure::Detection(message) => error matches ConcertoError::PlatformDetection {
            message: m,
        } && m@ == message,
    }
}

/// The outcome of checking all `requirements` in order: `Ok` when none fails, else the
/// error of the first failing one.
pub open spec fn validate_ok(requirements: Seq<RequiredPackage>, platform: Platform) -> bool {
    forall|i: int| 0 <= i < requirements.len() ==> check_spec(requirements[i], platform) is None
}

/// `error` is the error for the first failing requirement.
pub open spec fn first_failure(
    error: ConcertoError,
    requirements: Seq<RequiredPackage>,
    platform: Platform,
    package: Seq<char>,
) -> bool {
    exists|i: int|
        #![trigger requirements[i]]
        0 <= i < requirements.len() && (forall|j: int|
            0 <= j < i ==> check_spec(requirements[j], platform) is None) && (check_spec(
            requirements[i],
            platform,
        ) matches Some(f) && failure_error(error, package, requirements[i], f))
}

/// The message shown for `failure` of `requirement` of `package`.
pub open spec fn failure_message(
    package: Seq<char>,
    requirement: RequiredPackage,
    failure: PlatformFailure,
) -> Seq<char> {
    match failure {
        PlatformFailure::Unmet(detected) => package + ": "@ + requirement_text(requirement)
            + " required, detected "@ + detected + ". "@
            + "Install or enable the required platform dependency, or choose a compatible version."@,
        PlatformFailure::Detection(message) => message + ". "@
            + "Ensure PHP is installed and available in PATH."@,
    }
}

/// The message of the error for the first failing requirement, or `None` when all pass.
pub open spec fn validate_spec(
    requirements: Seq<RequiredPackage>,
    platform: Platform,
    package: Seq<char>,
) -> Option<Seq<char>>
    decreases requirements.len(),
{
    if requirements.len() == 0 {
        None
    } else {
        match check_spec(requirements[0], platform) {
            Some(f) => Some(failure_message(package, requirements[0], f)),
            None => validate_spec(requirements.drop_first(), platform, package),
        }
    }
}

proof fn lemma_failure_message(
    error: ConcertoError,
    package: Seq<char>,
    requirement: RequiredPackage,
    failure: PlatformFailure,
)
    requires
        failure_error(error, package, requirement, failure),
    ensures
        error.message_spec() == failure_message(package, requirement, failure),
{
}

/// The error for an unmet requirement.
pub fn platform_error(package_name: &str, requirement: &RequiredPackage, detected: &str) -> (r:
    ConcertoError)
    ensures
        failure_error(r, package_name@, *requirement, PlatformFailure::Unmet(detected@)),
{
    ConcertoError::platform(
        package_name,
        concat3(requirement.name.as_str(), " ", requirement.constraint.as_str()),
        detected,
    )
}

/// `name` is among `list`.
pub fn contains_name(list: &Vec<String>, name: &str) -> (r: bool)
    ensures
        r == has_name(list@, name@),
{
    let mut i: usize = 0;
    while i < list.len()
        invariant
            i <= list@.len(),
            forall|j: int| 0 <= j < i ==> list@[j]@ != name@,
        decreases list@.len() - i,
    {
        if str_eq(list[i].as_str(), name) {
            return true;
        }
        i = i + 1;
    }
    false
}

/// The version recorded for `name`.
pub fn extension_version<'a>(entries: &'a Vec<(String, String)>, name: &str) -> (r: Option<
    &'a String,
>)
    ensures
        match r {
            Some(v) => version_of(entries@, name@) == Some(v@),
            None => version_of(entries@, name@) is None,
        },
{
    let mut i: usize = 0;
    assert(entries@.skip(0) =~= entries@);
    while i < entries.len()
        invariant
            i <= entries@.len(),
            version_of(entries@, name@) == version_of(entries@.skip(i as int), name@),
        decreases entries@.len() - i,
    {
        assert(entries@.skip(i as int).drop_first() =~= entries@.skip(i + 1));
        assert(entries@.skip(i as int)[0] == entries@[i as int]);
        if str_eq(entries[i].0.as_str(), name) {
            return Some(&entries[i].1);
        }
        i = i + 1;
    }
    None
}

/// Records `version` for `name`, replacing an earlier entry for it.
pub fn insert_version(entries: &mut Vec<(String, String)>, name: String, version: String)
    ensures
        version_of(final(entries)@, name@) == Some(version@),
        forall|other: Seq<char>|
            other != name@ ==> version_of(final(entries)@, other) == version_of(
                old(entries)@,
                other,
            ),
{
    let ghost start = entries@;
    let mut i: usize = 0;
    while i < entries.len()
        invariant
            i <= entries@.len(),
            entries@ == start,
            start == old(entries)@,
            forall|j: int| 0 <= j < i ==> entries@[j].0@ != name@,
        decreases entries@.len() - i,
    {
        if str_eq(entries[i].0.as_str(), name.as_str()) {
            let ghost idx = i as int;
            let ghost key = name@;
            let entry = (name, version);
            assert(entry.0@ == key);
            entries.set(i, entry);
            proof {
                assert(entries@ == start.update(idx, entry));
                lemma_version_of_set(start, idx, entry);
                assert forall|other: Seq<char>| other != key implies version_of(entries@, other)
                    == version_of(start, other) by {}

            }
            return;
        }
        i = i + 1;
    }
    entries.push((name, version));
    proof {
        lemma_version_of_push(start, entries@.last());
    }
}

proof fn lemma_version_of_set(s: Seq<(String, String)>, i: int, e: (String, String))
    requires
        0 <= i < s.len(),
        s[i].0@ == e.0@,
        forall|j: int| 0 <= j < i ==> s[j].0@ != e.0@,
    ensures
        version_of(s.update(i, e), e.0@) == Some(e.1@),
        forall|other: Seq<char>|
            other != e.0@ ==> version_of(s.update(i, e), other) == version_of(s, other),
    decreases i,
{
    if i > 0 {
        assert(s.update(i, e).drop_first() =~= s.drop_first().update(i - 1, e));
        lemma_version_of_set(s.drop_first(), i - 1, e);
        assert(s.update(i, e)[0] == s[0]);
    } else {
        assert(s.update(i, e).drop_first() =~= s.drop_first());
        assert(s.update(i, e)[0] == e);
    }
    assert forall|other: Seq<char>| other != e.0@ implies version_of(s.update(i, e), other)
        == version_of(s, other) by {
        let u = s.update(i, e);
        assert(version_of(u, other) == if u[0].0@ == other {
            Some(u[0].1@)
        } else {
            version_of(u.drop_first(), other)
        });
        assert(version_of(s, other) == if s[0].0@ == other {
            Some(s[0].1@)
        } else {
            version_of(s.drop_first(), other)
        });
        if i > 0 {
            assert(u[0] == s[0]);
        }
    }
}

proof fn lemma_version_of_push(s: Seq<(String, String)>, e: (String, String))
    requires
        forall|j: int| 0 <= j < s.len() ==> s[j].0@ != e.0@,
    ensures
        version_of(s.push(e), e.0@) == Some(e.1@),
        forall|other: Seq<char>| other != e.0@ ==> version_of(s.push(e), other) == version_of(s, other),
    decreases s.len(),
{
    if s.len() > 0 {
        assert(s.push(e).drop_first() =~= s.drop_first().push(e));
        lemma_version_of_push(s.drop_first(), e);
        assert(s.push(e)[0] == s[0]);
    } else {
        assert(s.push(e).drop_first() =~= Seq::<(String, String)>::empty());
        assert(s.push(e)[0] == e);
    }
    assert forall|other: Seq<char>| other != e.0@ implies version_of(s.push(e), other)
        == version_of(s, other) by {
        let u = s.push(e);
        assert(version_of(u, other) == if u[0].0@ == other {
            Some(u[0].1@)
        } else {
            version_of(u.drop_first(), other)
        });
        if s.len() > 0 {
            assert(u[0] == s[0]);
            assert(version_of(s, other) == if s[0].0@ == other {
                Some(s[0].1@)
            } else {
                version_of(s.drop_first(), other)
            });
        }
    }
}

/// `s` without every leading `prefix`.
pub fn trim_start_matches(s: &str, prefix: &str) -> (r: String)
    ensures
        r@ == strip_all_prefix(s@, prefix@),
{
    let cs = chars_of(s);
    let pc = chars_of(prefix);
    let mut from: usize = 0;
    if pc.len() == 0 {
        return string_of_range(&cs, 0, cs.len());
    }
    proof {
        assert(cs@.subrange(0, cs@.len() as int) =~= cs@);
    }
    assert(cs@.len() == cs.len());
    while crate::text::matches_at(&cs, &pc, from)
        invariant
            from <= cs@.len(),
            pc@ == prefix@,
            pc@.len() > 0,
            cs@.len() <= usize::MAX,
            strip_all_prefix(s@, prefix@) == strip_all_prefix(
                cs@.subrange(from as int, cs@.len() as int),
                prefix@,
            ),
            cs@ == s@,
        decreases cs@.len() - from,
    {
        proof {
            let rest = cs@.subrange(from as int, cs@.len() as int);
            assert(rest.subrange(0, pc@.len() as int) =~= cs@.subrange(
                from as int,
                from + pc@.len(),
            ));
            assert(is_prefix(prefix@, rest));
            assert(rest.subrange(pc@.len() as int, rest.len() as int) =~= cs@.subrange(
                from + pc@.len(),
                cs@.len() as int,
            ));
        }
        from = from + pc.len();
    }
    proof {
        let rest = cs@.subrange(from as int, cs@.len() as int);
        if is_prefix(prefix@, rest) {
            assert(rest.subrange(0, pc@.len() as int) =~= cs@.subrange(
                from as int,
                from + pc@.len(),
            ));
        }
    }
    string_of_range(&cs, from, cs.len())
}

/// Checks one `php` requirement.
pub fn validate_php_requirement(
    requirement: &RequiredPackage,
    platform: &Platform,
    package_name: &str,
) -> (r: Result<(), ConcertoError>)
    requires
        lowercase(requirement.name@) == "php"@,
    ensures
        match check_spec(*requirement, *platform) {
            None => r is Ok,
            Some(f) => r matches Err(e) && failure_error(e, package_name@, *requirement, f),
        },
{
    match satisfies(platform.php_version.as_str(), requirement.constraint.as_str()) {
        Err(error) => Err(
            ConcertoError::platform_detection(
                concat2("Could not check php requirement: ", error.as_str()),
            ),
        ),
        Ok(true) => Ok(()),
        Ok(false) => Err(platform_error(package_name, requirement, platform.php_version.as_str())),
    }
}

/// Checks one `ext-*` requirement: the extension must be loaded and, unless the
/// constraint is `*`, have a known version that satisfies it.
pub fn validate_extension_requirement(
    requirement: &RequiredPackage,
    platform: &Platform,
    package_name: &str,
) -> (r: Result<(), ConcertoError>)
    requires
        lowercase(requirement.name@) != "php"@,
        is_prefix("ext-"@, lowercase(requirement.name@)),
    ensures
        match check_spec(*requirement, *platform) {
            None => r is Ok,
            Some(f) => r matches Err(e) && failure_error(e, package_name@, *requirement, f),
        },
{
    let requirement_name = to_lowercase(requirement.name.as_str());
    let extension = trim_start_matches(requirement_name.as_str(), "ext-");
    if !contains_name(&platform.extensions, extension.as_str()) {
        return Err(platform_error(package_name, requirement, "missing"));
    }
    if str_eq(requirement.constraint.as_str(), "*") {
        return Ok(());
    }
    let version = match extension_version(&platform.extension_versions, extension.as_str()) {
        None => {
            return Err(platform_error(package_name, requirement, "installed, version unknown"));
        },
        Some(version) => version,
    };
    match satisfies(version.as_str(), requirement.constraint.as_str()) {
        Err(error) => {
            let mut message = concat3("Could not check ", requirement.name.as_str(), " requirement: ");
            message.append(error.as_str());
            Err(ConcertoError::platform_detection(message))
        },
        Ok(true) => Ok(()),
        Ok(false) => Err(platform_error(package_name, requirement, version.as_str())),
    }
}

/// Checks one platform requirement; package requirements pass.
pub fn validate_requirement(
    requirement: &RequiredPackage,
    platform: &Platform,
    package_name: &str,
) -> (r: Result<(), ConcertoError>)
    ensures
        match check_spec(*requirement, *platform) {
            None => r is Ok,
            Some(f) => r matches Err(e) && failure_error(e, package_name@, *requirement, f),
        },
{
    let requirement_name = to_lowercase(requirement.name.as_str());
    if str_eq(requirement_name.as_str(), "php") {
        validate_php_requirement(requirement, platform, package_name)
    } else if starts_with(requirement_name.as_str(), "ext-") {
        validate_extension_requirement(requirement, platform, package_name)
    } else if starts_with(requirement_name.as_str(), "lib-") {
        Err(platform_error(package_name, requirement, "unsupported"))
    } else {
        Ok(())
    }
}

/// Checks the platform requirements of `package_name` in order; fails with the error
/// of the first one that is not met.
pub fn validate(requirements: &Vec<RequiredPackage>, platform: &Platform, package_name: &str) -> (r:
    Result<(), ConcertoError>)
    ensures
        r is Ok <==> validate_ok(requirements@, *platform),
        r matches Err(e) ==> first_failure(e, requirements@, *platform, package_name@),
        match validate_spec(requirements@, *platform, package_name@) {
            None => r is Ok,
            Some(m) => r matches Err(e) && e.message_spec() == m,
        },
{
    let mut i: usize = 0;
    assert(requirements@.skip(0) =~= requirements@);
    while i < requirements.len()
        invariant
            i <= requirements@.len(),
            forall|j: int| 0 <= j < i ==> check_spec(requirements@[j], *platform) is None,
            validate_spec(requirements@, *platform, package_name@) == validate_spec(
                requirements@.skip(i as int),
                *platform,
                package_name@,
            ),
        decreases requirements@.len() - i,
    {
        assert(requirements@.skip(i as int).drop_first() =~= requirements@.skip(i + 1));
        assert(requirements@.skip(i as int)[0] == requirements@[i as int]);
        match validate_requirement(&requirements[i], platform, package_name) {
            Ok(()) => {},
            Err(e) => {
                assert(first_failure(e, requirements@, *platform, package_name@)) by {
                    assert(check_spec(requirements@[i as int], *platform) is Some);
                }
                proof {
                    let f = check_spec(requirements@[i as int], *platform)->0;
                    lemma_failure_message(e, package_name@, requirements@[i as int], f);
                }
                return Err(e);
            },
        }
        i = i + 1;
    }
    assert(requirements@.skip(i as int) =~= Seq::<RequiredPackage>::empty());
    Ok(())
}

/// Whether any requirement is an `ext-*` one, so extension metadata must be detected.
pub fn needs_extension_metadata(requirements: &Vec<RequiredPackage>) -> (r: bool)
    ensures
        r == exists|i: int|
            0 <= i < requirements@.len() && is_prefix("ext-"@, lowercase(requirements@[i].name@)),
{
    let mut i: usize = 0;
    while i < requirements.len()
        invariant
            i <= requirements@.len(),
            forall|j: int| 0 <= j < i ==> !is_prefix("ext-"@, lowercase(requirements@[j].name@)),
        decreases requirements@.len() - i,
    {
        let name = to_lowercase(requirements[i].name.as_str());
        if starts_with(name.as_str(), "ext-") {
            return true;
        }
        i = i + 1;
    }
    false
}

// ---------------------------------------------------------------------------
// Reading what PHP reports
// ---------------------------------------------------------------------------

/// An extension line `name=version` (or `name:version`, or just `name`): the name
/// trimmed and lower-cased, the version trimmed.
pub open spec fn extension_line_spec(line: Seq<char>) -> (Seq<char>, Seq<char>) {
    let (name, version) = if line.contains('=') {
        let i = choose|i: int| first_index_of(line, '=', i);
        (line.subrange(0, i), line.subrange(i + 1, line.len() as int))
    } else if line.contains(':') {
        let i = choose|i: int| first_index_of(line, ':', i);
        (line.subrange(0, i), line.subrange(i + 1, line.len() as int))
    } else {
        (line, Seq::empty())
    };
    (lowercase(trim_seq(name)), trim_seq(version))
}

/// Reads one extension line.
pub fn parse_extension_line(line: &str) -> (r: (String, String))
    ensures
        (r.0@, r.1@) == extension_line_spec(line@),
{
    let (name, version) = match split_once_char(line, '=') {
        Some(parts) => parts,
        None => match split_once_char(line, ':') {
            Some(parts) => parts,
            None => (line.to_owned(), String::new()),
        },
    };
    proof {
        if line@.contains('=') {
            let i = choose|i: int| first_index_of(line@, '=', i);
            let k = choose|k: int|
                first_index_of(line@, '=', k) && name@ == line@.subrange(0, k) && version@
                    == line@.subrange(k + 1, line@.len() as int);
            assert(i == k);
        } else if line@.contains(':') {
            let i = choose|i: int| first_index_of(line@, ':', i);
            let k = choose|k: int|
                first_index_of(line@, ':', k) && name@ == line@.subrange(0, k) && version@
                    == line@.subrange(k + 1, line@.len() as int);
            assert(i == k);
        }
    }
    let name = trim(name.as_str());
    (to_lowercase(name.as_str()), trim(version.as_str()))
}

/// Adds the extension of `line`, if it names one, to the lists.
pub open spec fn add_extension_spec(
    acc: (Seq<Seq<char>>, Map<Seq<char>, Seq<char>>),
    line: Seq<char>,
) -> (Seq<Seq<char>>, Map<Seq<char>, Seq<char>>) {
    let (name, version) = extension_line_spec(line);
    if name.len() == 0 {
        acc
    } else if version.len() == 0 {
        (acc.0.push(name), acc.1)
    } else {
        (acc.0.push(name), acc.1.insert(name, version))
    }
}

/// The extensions and versions read from `lines`, in order; a later version of the
/// same extension replaces an earlier one.
pub open spec fn extensions_spec(lines: Seq<Seq<char>>) -> (Seq<Seq<char>>, Map<Seq<char>, Seq<char>>)
    decreases lines.len(),
{
    if lines.len() == 0 {
        (Seq::empty(), Map::empty())
    } else {
        add_extension_spec(extensions_spec(lines.drop_last()), lines.last())
    }
}

/// The versions recorded in `entries`, as a map.
pub open spec fn versions_map(entries: Seq<(String, String)>) -> Map<Seq<char>, Seq<char>> {
    Map::new(
        |name: Seq<char>| version_of(entries, name) is Some,
        |name: Seq<char>| version_of(entries, name)->0,
    )
}

/// The names of a list of strings.
pub open spec fn names(list: Seq<String>) -> Seq<Seq<char>> {
    list.map_values(|s: String| s@)
}

/// Reads extension lines into a platform's extension lists.
pub fn collect_extensions(lines: &Vec<String>, from: usize) -> (r: (Vec<String>, Vec<(String, String)>))
    requires
        from <= lines@.len(),
    ensures
        (names(r.0@), versions_map(r.1@)) == extensions_spec(
            names(lines@).subrange(from as int, lines@.len() as int),
        ),
{
    let mut extensions: Vec<String> = Vec::new();
    let mut versions: Vec<(String, String)> = Vec::new();
    let mut i = from;
    proof {
        assert(names(lines@).subrange(from as int, from as int) =~= Seq::<Seq<char>>::empty());
        assert(names(extensions@) =~= Seq::<Seq<char>>::empty());
        assert(versions_map(versions@) =~= Map::<Seq<char>, Seq<char>>::empty());
    }
    while i < lines.len()
        invariant
            from <= i <= lines@.len(),
            (names(extensions@), versions_map(versions@)) == extensions_spec(
                names(lines@).subrange(from as int, i as int),
            ),
        decreases lines@.len() - i,
    {
        let ghost before = (names(extensions@), versions_map(versions@));
        let (name, version) = parse_extension_line(lines[i].as_str());
        proof {
            let seen = names(lines@).subrange(from as int, i + 1);
            assert(seen.drop_last() =~= names(lines@).subrange(from as int, i as int));
            assert(seen.last() == lines@[i as int]@);
        }
        if !name.as_str().is_empty() {
            let ghost old_versions = versions@;
            if !version.as_str().is_empty() {
                insert_version(&mut versions, name.clone(), version);
                proof {
                    assert(versions_map(versions@) =~= versions_map(old_versions).insert(
                        name@,
                        extension_line_spec(lines@[i as int]@).1,
                    ));
                }
            }
            extensions.push(name);
            proof {
                assert(names(extensions@) =~= before.0.push(extension_line_spec(lines@[i as int]@).0));
            }
        }
        i = i + 1;
    }
    (extensions, versions)
}

/// Reads `php -r` output: the PHP version on the first line, then one
/// `extension=version` line per loaded extension.
pub fn parse_platform(output: &str) -> (r: Result<Platform, ConcertoError>)
    ensures
        lines_spec(output@).len() == 0 ==> (r matches Err(ConcertoError::PlatformDetection { message })
            && message@ == "Could not detect PHP version"@),
        lines_spec(output@).len() > 0 ==> (r matches Ok(platform) && {
            &&& platform.php_version@ == trim_seq(lines_spec(output@)[0])
            &&& (names(platform.extensions@), versions_map(platform.extension_versions@))
                == extensions_spec(lines_spec(output@).drop_first())
        }),
{
    let lines = split_lines(output);
    if lines.len() == 0 {
        return Err(ConcertoError::platform_detection("Could not detect PHP version".to_owned()));
    }
    let php_version = trim(lines[0].as_str());
    let (extensions, extension_versions) = collect_extensions(&lines, 1);
    proof {
        assert(names(lines@) == lines_spec(output@));
        assert(names(lines@).subrange(1, lines@.len() as int) =~= lines_spec(output@).drop_first());
    }
    Ok(Platform { php_version, extensions, extension_versions })
}

/// Reads a comma-separated extension list (`json,intl=2.0`): blank items are skipped.
pub fn parse_extension_list(value: &str) -> (r: (Vec<String>, Vec<(String, String)>))
    ensures
        (names(r.0@), versions_map(r.1@)) == extensions_spec(
            split_spec(value@, ',').map_values(|item: Seq<char>| trim_seq(item)).filter(
                |item: Seq<char>| item.len() > 0,
            ),
        ),
{
    let items = split_char(value, ',');
    let mut kept: Vec<String> = Vec::new();
    let mut i: usize = 0;
    let ghost trimmed = split_spec(value@, ',').map_values(|item: Seq<char>| trim_seq(item));
    while i < items.len()
        invariant
            i <= items@.len(),
            names(items@) == split_spec(value@, ','),
            trimmed == split_spec(value@, ',').map_values(|item: Seq<char>| trim_seq(item)),
            names(kept@) == trimmed.take(i as int).filter(|item: Seq<char>| item.len() > 0),
        decreases items@.len() - i,
    {
        proof {
            reveal_with_fuel(Seq::<_>::filter, 1);
            assert(trimmed.take(i + 1).drop_last() =~= trimmed.take(i as int));
            assert(trimmed[i as int] == trim_seq(items@[i as int]@));
        }
        let item = trim(items[i].as_str());
        if !item.as_str().is_empty() {
            let ghost before = kept@;
            kept.push(item);
            proof {
                assert(names(kept@) =~= names(before).push(item@));
            }
        }
        i = i + 1;
    }
    proof {
        assert(trimmed.take(items@.len() as int) =~= trimmed);
        assert(names(kept@).subrange(0, kept@.len() as int) =~= names(kept@));
    }
    collect_extensions(&kept, 0)
}

/// Reads `php -m` output: one module per line; blank lines and `[section]` headers
/// are skipped, names are trimmed and lower-cased.
pub fn parse_extensions(output: &str) -> (r: Vec<String>)
    ensures
        names(r@) == lines_spec(output@).map_values(|line: Seq<char>| trim_seq(line)).filter(
            |line: Seq<char>| line.len() > 0 && !is_prefix("["@, line),
        ).map_values(|line: Seq<char>| lowercase(line)),
{
    let lines = split_lines(output);
    let ghost trimmed = lines_spec(output@).map_values(|line: Seq<char>| trim_seq(line));
    let ghost kept_spec = trimmed.filter(|line: Seq<char>| line.len() > 0 && !is_prefix("["@, line));
    let mut out: Vec<String> = Vec::new();
    let mut i: usize = 0;
    while i < lines.len()
        invariant
            i <= lines@.len(),
            names(lines@) == lines_spec(output@),
            trimmed == lines_spec(output@).map_values(|line: Seq<char>| trim_seq(line)),
            names(out@) == trimmed.take(i as int).filter(
                |line: Seq<char>| line.len() > 0 && !is_prefix("["@, line),
            ).map_values(|line: Seq<char>| lowercase(line)),
        decreases lines@.len() - i,
    {
        let ghost prefix_kept = trimmed.take(i as int).filter(
            |line: Seq<char>| line.len() > 0 && !is_prefix("["@, line),
        );
        proof {
            reveal_with_fuel(Seq::<_>::filter, 1);
            assert(trimmed.take(i + 1).drop_last() =~= trimmed.take(i as int));
            assert(trimmed[i as int] == trim_seq(lines@[i as int]@));
        }
        let line = trim(lines[i].as_str());
        if !line.as_str().is_empty() && !starts_with(line.as_str(), "[") {
            let ghost before = out@;
            out.push(to_lowercase(line.as_str()));
            proof {
                assert(names(out@) =~= names(before).push(lowercase(line@)));
                assert(prefix_kept.push(line@).map_values(|l: Seq<char>| lowercase(l))
                    =~= prefix_kept.map_values(|l: Seq<char>| lowercase(l)).push(lowercase(line@)));
            }
        }
        i = i + 1;
    }
    proof {
        assert(trimmed.take(lines@.len() as int) =~= trimmed);
    }
    out
}

// ---------------------------------------------------------------------------
// The platform cache
// ---------------------------------------------------------------------------

/// The two platforms the cache keeps: the PHP version alone, or with extensions.
#[derive(Debug, Clone, Copy, PartialEq, Eq, Structural)]
pub enum PlatformCacheSlot {
    Php,
    Full,
}

/// What identifies the `php` binary a cached platform was detected with.
#[derive(Debug)]
pub struct PlatformCacheKey {
    pub path: String,
    pub len: u64,
    pub modified_secs: u64,
    pub modified_nanos: u32,
}

/// What a cache key is.
pub open spec fn cache_key_model(key: PlatformCacheKey) -> (Seq<char>, u64, u64, u32) {
    (key.path@, key.len, key.modified_secs, key.modified_nanos)
}

/// A cached platform with the key it was detected under.
#[derive(Debug)]
pub struct PlatformCacheEntry {
    pub key: PlatformCacheKey,
    pub platform: Platform,
}

/// The platform cache: one entry per slot.
#[derive(Debug)]
pub struct PlatformCache {
    pub php: Option<PlatformCacheEntry>,
    pub full: Option<PlatformCacheEntry>,
}

/// The entry the cache keeps for `slot`.
pub open spec fn slot_entry(cache: PlatformCache, slot: PlatformCacheSlot) -> Option<PlatformCacheEntry> {
    match slot {
        PlatformCacheSlot::Php => cache.php,
        PlatformCacheSlot::Full => cache.full,
    }
}

/// What reading `slot` under a key with model `key` gives: the platform of that slot's
/// entry when it was detected under that key.
pub open spec fn cache_lookup(
    cache: PlatformCache,
    slot: PlatformCacheSlot,
    key: (Seq<char>, u64, u64, u32),
) -> Option<Platform> {
    match slot_entry(cache, slot) {
        Some(entry) => if cache_key_model(entry.key) == key {
            Some(entry.platform)
        } else {
            None
        },
        None => None,
    }
}

/// The cache with `platform` kept in `slot` under `key`, the other slot as it was.
pub open spec fn with_entry(
    cache: PlatformCache,
    slot: PlatformCacheSlot,
    key: PlatformCacheKey,
    platform: Platform,
) -> PlatformCache {
    match slot {
        PlatformCacheSlot::Php => PlatformCache { php: Some(PlatformCacheEntry { key, platform }), full: cache.full },
        PlatformCacheSlot::Full => PlatformCache { php: cache.php, full: Some(PlatformCacheEntry { key, platform }) },
    }
}

/// A platform written to a slot under a key is read back from that slot under that
/// key; under any other key that slot gives nothing; the other slot reads as before.
pub proof fn lemma_cache_write_then_read(
    cache: PlatformCache,
    slot: PlatformCacheSlot,
    key: PlatformCacheKey,
    platform: Platform,
    other_slot: PlatformCacheSlot,
    other_key: (Seq<char>, u64, u64, u32),
)
    ensures
        cache_lookup(with_entry(cache, slot, key, platform), slot, cache_key_model(key)) == Some(platform),
        other_key != cache_key_model(key) ==> cache_lookup(with_entry(cache, slot, key, platform), slot, other_key)
            is None,
        other_slot != slot ==> cache_lookup(with_entry(cache, slot, key, platform), other_slot, other_key)
            == cache_lookup(cache, other_slot, other_key),
{
}

/// Whether two cache keys are the same.
pub fn cache_keys_equal(a: &PlatformCacheKey, b: &PlatformCacheKey) -> (r: bool)
    ensures
        r == (cache_key_model(*a) == cache_key_model(*b)),
{
    str_eq(a.path.as_str(), b.path.as_str()) && a.len == b.len && a.modified_secs == b.modified_secs
        && a.modified_nanos == b.modified_nanos
}

/// The cached platform of `slot`, when it was detected under `key`.
pub fn cached_platform(cache: PlatformCache, slot: PlatformCacheSlot, key: &PlatformCacheKey) -> (r: Option<Platform>)
    ensures
        r == cache_lookup(cache, slot, cache_key_model(*key)),
        r == match slot_entry(cache, slot) {
            Some(entry) => if cache_key_model(entry.key) == cache_key_model(*key) {
                Some(entry.platform)
            } else {
                None
            },
            None => None,
        },
{
    let entry = match slot {
        PlatformCacheSlot::Php => cache.php,
        PlatformCacheSlot::Full => cache.full,
    };
    match entry {
        Some(entry) => if cache_keys_equal(&entry.key, key) {
            Some(entry.platform)
        } else {
            None
        },
        None => None,
    }
}

/// Keeps `platform` in the cache's `slot` under `key`; the other slot stays.
pub fn store_cached_platform(
    cache: &mut PlatformCache,
    slot: PlatformCacheSlot,
    key: PlatformCacheKey,
    platform: Platform,
)
    ensures
        *final(cache) == with_entry(*old(cache), slot, key, platform),
        slot_entry(*final(cache), slot) == Some(PlatformCacheEntry { key, platform }),
        slot == PlatformCacheSlot::Php ==> final(cache).full == old(cache).full,
        slot == PlatformCacheSlot::Full ==> final(cache).php == old(cache).php,
{
    let entry = Some(PlatformCacheEntry { key, platform });
    match slot {
        PlatformCacheSlot::Php => {
            cache.php = entry;
        },
        PlatformCacheSlot::Full => {
            cache.full = entry;
        },
    }
}

} // verus!
