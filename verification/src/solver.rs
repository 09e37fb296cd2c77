//! What the dependency solver is asked: the versions of each package, the
//! dependencies of each version, which package to decide next and which version
//! to try.

use vstd::prelude::*;
use crate::composer::RequiredPackage;
use crate::error::{views, ConcertoError};
use crate::packagist::{constraints_outcome, PackagistRelease};
use crate::resolver::{
    capabilities, capability_constraint_matches, capability_satisfies, key_of,
    releases_well_formed, PackageVersionKey, ResolutionProblem,
};
use crate::text::str_eq;
use crate::version_set::{
    clone_versions, package_key, version_keys, DiscreteVersionSet, PubGrubPackage, PubGrubVersion,
    SetModel, VersionKey,
};

verus! {

// ---------------------------------------------------------------------------
// Which versions meet a requirement
// ---------------------------------------------------------------------------

/// The version `k` meets `requirement` in the problem: a release of the required package
/// whose version meets the constraint, or, when `with_provided` is set, a capability
/// that a release declares and that meets it.
pub open spec fn matching_has(
    releases: Seq<(PackageVersionKey, PackagistRelease)>,
    requirement: RequiredPackage,
    k: VersionKey,
    with_provided: bool,
) -> bool {
    match k {
        VersionKey::Release(v) => exists|i: int|
            0 <= i < releases.len() && #[trigger] key_of(releases[i].0) == (requirement.name@, v)
                && constraints_outcome(releases[i].1.version@, seq![requirement.constraint@])
                == Ok::<bool, Seq<char>>(true),
        VersionKey::Provided(o, v) => with_provided && exists|i: int|
            0 <= i < releases.len() && #[trigger] key_of(releases[i].0) == (o, v)
                && capability_satisfies(releases[i].1@, requirement),
        _ => false,
    }
}

/// The version of every release of the required package can be checked against its
/// constraint.
pub open spec fn requirement_checkable(
    releases: Seq<(PackageVersionKey, PackagistRelease)>,
    requirement: RequiredPackage,
) -> bool {
    forall|i: int|
        0 <= i < releases.len() && (#[trigger] releases[i].0).package_name@ == requirement.name@
            ==> constraints_outcome(releases[i].1.version@, seq![requirement.constraint@]) is Ok
}

/// The versions that meet `requirement`: releases of the package in order, and, with
/// `with_provided`, capabilities after them.
pub fn matching_versions(
    releases: &Vec<(PackageVersionKey, PackagistRelease)>,
    requirement: &RequiredPackage,
    with_provided: bool,
) -> (r: Result<Vec<PubGrubVersion>, ConcertoError>)
    requires
        releases_well_formed(releases@),
    ensures
        requirement_checkable(releases@, *requirement) ==> r is Ok,
        r matches Ok(versions) ==> forall|k: VersionKey|
            #[trigger] version_keys(versions@).contains(k) <==> matching_has(
                releases@,
                *requirement,
                k,
                with_provided,
            ),
        r is Err ==> !requirement_checkable(releases@, *requirement),
{
    broadcast use vstd::seq_lib::lemma_seq_contains_after_push;

    let mut constraints: Vec<String> = Vec::new();
    constraints.push(requirement.constraint.clone());
    assert(views(constraints@) =~= seq![requirement.constraint@]);
    let mut versions: Vec<PubGrubVersion> = Vec::new();
    let mut i: usize = 0;
    while i < releases.len()
        invariant
            i <= releases@.len(),
            releases_well_formed(releases@),
            views(constraints@) == seq![requirement.constraint@],
            forall|j: int|
                0 <= j < i && (#[trigger] releases@[j].0).package_name@ == requirement.name@
                    ==> constraints_outcome(releases@[j].1.version@, seq![requirement.constraint@])
                    is Ok,
            forall|k: VersionKey| #[trigger]
                version_keys(versions@).contains(k) <==> (k is Release && matching_has(
                    releases@.take(i as int),
                    *requirement,
                    k,
                    false,
                )),
        decreases releases@.len() - i,
    {
        let key = &releases[i].0;
        let release = &releases[i].1;
        let ghost before = versions@;
        assert forall|k: VersionKey| matching_has(releases@.take(i + 1), *requirement, k, false)
            <==> matching_has(releases@.take(i as int), *requirement, k, false) || (k
            == VersionKey::Release(key.version@) && key.package_name@ == requirement.name@
            && constraints_outcome(release.version@, seq![requirement.constraint@]) == Ok::<
            bool,
            Seq<char>,
        >(true)) by {
            let t = releases@.take(i + 1);
            if let VersionKey::Release(v) = k {
                if matching_has(t, *requirement, k, false) {
                    let j = choose|j: int|
                        0 <= j < t.len() && #[trigger] key_of(t[j].0) == (requirement.name@, v)
                            && constraints_outcome(t[j].1.version@, seq![requirement.constraint@])
                            == Ok::<bool, Seq<char>>(true);
                    if j < i {
                        assert(releases@.take(i as int)[j] == t[j]);
                    }
                }
                if matching_has(releases@.take(i as int), *requirement, k, false) {
                    let j = choose|j: int|
                        0 <= j < i && #[trigger] key_of(releases@.take(i as int)[j].0) == (
                            requirement.name@,
                            v,
                        ) && constraints_outcome(
                            releases@.take(i as int)[j].1.version@,
                            seq![requirement.constraint@],
                        ) == Ok::<bool, Seq<char>>(true);
                    assert(t[j] == releases@.take(i as int)[j]);
                }
                if k == VersionKey::Release(key.version@) && key.package_name@ == requirement.name@
                    && constraints_outcome(release.version@, seq![requirement.constraint@]) == Ok::<
                    bool,
                    Seq<char>,
                >(true) {
                    assert(t[i as int] == releases@[i as int]);
                    assert(key_of(t[i as int].0) == (requirement.name@, v));
                }
            }
        }
        let mut pushed = false;
        if str_eq(key.package_name.as_str(), requirement.name.as_str()) {
            if release.matches_constraints(requirement.name.as_str(), &constraints)? {
                versions.push(PubGrubVersion::Release(key.version.clone()));
                pushed = true;
            }
        }
        proof {
            let target = VersionKey::Release(key.version@);
            if pushed {
                assert(version_keys(versions@) =~= version_keys(before).push(target));
            } else {
                assert(version_keys(versions@) =~= version_keys(before));
            }
            assert(pushed <==> (key.package_name@ == requirement.name@ && constraints_outcome(
                release.version@,
                seq![requirement.constraint@],
            ) == Ok::<bool, Seq<char>>(true)));
            assert forall|k: VersionKey| #[trigger]
                version_keys(versions@).contains(k) <==> (k is Release && matching_has(
                    releases@.take(i + 1),
                    *requirement,
                    k,
                    false,
                )) by {
                assert(version_keys(before).contains(k) <==> (k is Release && matching_has(
                    releases@.take(i as int),
                    *requirement,
                    k,
                    false,
                )));
                if pushed {
                    assert(version_keys(versions@) =~= version_keys(before).push(target));
                    vstd::seq_lib::lemma_seq_contains_after_push(version_keys(before), target, k);
                } else {
                    assert(version_keys(versions@) =~= version_keys(before));
                }
            }
        }
        i = i + 1;
    }
    assert(releases@.take(releases@.len() as int) =~= releases@);
    if !with_provided {
        return Ok(versions);
    }
    let mut n: usize = 0;
    while n < releases.len()
        invariant
            n <= releases@.len(),
            releases_well_formed(releases@),
            with_provided,
            forall|k: VersionKey| #[trigger]
                version_keys(versions@).contains(k) <==> ((k is Release && matching_has(
                    releases@,
                    *requirement,
                    k,
                    false,
                )) || (k is Provided && matching_has(
                    releases@.take(n as int),
                    *requirement,
                    k,
                    true,
                ))),
        decreases releases@.len() - n,
    {
        let key = &releases[n].0;
        let release = &releases[n].1;
        let ghost owner = key_of(*key);
        let found = crate::resolver::has_matching_capability(release, requirement);
        let ghost before = versions@;
        proof {
            assert forall|k: VersionKey| k is Provided implies (matching_has(
                releases@.take(n + 1),
                *requirement,
                k,
                true,
            ) <==> matching_has(releases@.take(n as int), *requirement, k, true) || (k
                == VersionKey::Provided(owner.0, owner.1) && found)) by {
                let t = releases@.take(n + 1);
                let s = releases@.take(n as int);
                if let VersionKey::Provided(o, v) = k {
                    if matching_has(t, *requirement, k, true) {
                        let j = choose|j: int|
                            0 <= j < t.len() && #[trigger] key_of(t[j].0) == (o, v)
                                && capability_satisfies(t[j].1@, *requirement);
                        if j < n {
                            assert(s[j] == t[j]);
                        }
                    }
                    if matching_has(s, *requirement, k, true) {
                        let j = choose|j: int|
                            0 <= j < s.len() && #[trigger] key_of(s[j].0) == (o, v)
                                && capability_satisfies(s[j].1@, *requirement);
                        assert(t[j] == s[j]);
                    }
                    if k == VersionKey::Provided(owner.0, owner.1) && found {
                        assert(t[n as int] == releases@[n as int]);
                        assert(key_of(t[n as int].0) == (o, v));
                    }
                }
            }
        }
        if found {
            versions.push(
                PubGrubVersion::Provided {
                    package: key.package_name.clone(),
                    version: key.version.clone(),
                },
            );
            assert(version_keys(versions@) =~= version_keys(before).push(
                VersionKey::Provided(owner.0, owner.1),
            ));
        } else {
            assert(version_keys(versions@) =~= version_keys(before));
        }
        assert forall|k: VersionKey| #[trigger]
            version_keys(versions@).contains(k) <==> ((k is Release && matching_has(
                releases@,
                *requirement,
                k,
                false,
            )) || (k is Provided && matching_has(releases@.take(n + 1), *requirement, k, true)))
            by {
            assert(version_keys(before).contains(k) <==> ((k is Release && matching_has(
                releases@,
                *requirement,
                k,
                false,
            )) || (k is Provided && matching_has(releases@.take(n as int), *requirement, k, true))));
            if found {
                assert(version_keys(versions@) =~= version_keys(before).push(
                    VersionKey::Provided(owner.0, owner.1),
                ));
                vstd::seq_lib::lemma_seq_contains_after_push(
                    version_keys(before),
                    VersionKey::Provided(owner.0, owner.1),
                    k,
                );
            } else {
                assert(version_keys(versions@) =~= version_keys(before));
            }
        }
        n = n + 1;
    }
    Ok(versions)
}

// ---------------------------------------------------------------------------
// Association lists
// ---------------------------------------------------------------------------

/// The value of the first entry for `k`.
pub open spec fn assoc_lookup<K, V>(entries: Seq<(K, V)>, k: K) -> Option<V>
    decreases entries.len(),
{
    if entries.len() == 0 {
        None
    } else if entries[0].0 == k {
        Some(entries[0].1)
    } else {
        assoc_lookup(entries.drop_first(), k)
    }
}

pub(crate) proof fn lemma_assoc_push<K, V>(entries: Seq<(K, V)>, e: (K, V), k: K)
    ensures
        assoc_lookup(entries.push(e), k) == if assoc_lookup(entries, k) is Some {
            assoc_lookup(entries, k)
        } else if e.0 == k {
            Some(e.1)
        } else {
            None::<V>
        },
    decreases entries.len(),
{
    let pushed = entries.push(e);
    if entries.len() > 0 {
        assert(pushed.drop_first() =~= entries.drop_first().push(e));
        assert(pushed[0] == entries[0]);
        lemma_assoc_push(entries.drop_first(), e, k);
        if entries[0].0 != k {
            assert(assoc_lookup(pushed, k) == assoc_lookup(pushed.drop_first(), k));
            assert(assoc_lookup(entries, k) == assoc_lookup(entries.drop_first(), k));
        }
    } else {
        let rest = pushed.drop_first();
        assert(rest =~= Seq::<(K, V)>::empty());
        assert(assoc_lookup(rest, k) is None);
        assert(pushed[0] == e);
    }
}

pub(crate) proof fn lemma_assoc_at<K, V>(entries: Seq<(K, V)>, k: K, i: int)
    requires
        0 <= i < entries.len(),
        entries[i].0 == k,
        forall|j: int| 0 <= j < i ==> #[trigger] entries[j].0 != k,
    ensures
        assoc_lookup(entries, k) == Some(entries[i].1),
    decreases i,
{
    if i > 0 {
        assert forall|j: int| 0 <= j < i - 1 implies #[trigger] entries.drop_first()[j].0 != k by {
            assert(entries.drop_first()[j] == entries[j + 1]);
        }
        lemma_assoc_at(entries.drop_first(), k, i - 1);
    }
}

pub(crate) proof fn lemma_assoc_none<K, V>(entries: Seq<(K, V)>, k: K)
    requires
        forall|j: int| 0 <= j < entries.len() ==> #[trigger] entries[j].0 != k,
    ensures
        assoc_lookup(entries, k) is None,
    decreases entries.len(),
{
    if entries.len() > 0 {
        assert forall|j: int| 0 <= j < entries.len() - 1 implies #[trigger] entries.drop_first()[
            j
        ].0 != k by {
            assert(entries.drop_first()[j] == entries[j + 1]);
        }
        lemma_assoc_none(entries.drop_first(), k);
    }
}

// ---------------------------------------------------------------------------
// The versions of each package
// ---------------------------------------------------------------------------

/// A release mentions `name`: it is that package, conflicts with it, provides it or
/// replaces it.
pub open spec fn release_mentions(entry: (PackageVersionKey, PackagistRelease), name: Seq<char>) -> bool {
    ||| entry.0.package_name@ == name
    ||| exists|j: int|
        0 <= j < entry.1.conflicts@.len() && #[trigger] entry.1.conflicts@[j].name@ == name
    ||| exists|j: int|
        0 <= j < capabilities(entry.1@).len() && #[trigger] capabilities(entry.1@)[j].name@ == name
}

/// Some release of the problem mentions `name`.
pub open spec fn mentioned(releases: Seq<(PackageVersionKey, PackagistRelease)>, name: Seq<char>) -> bool {
    exists|i: int| 0 <= i < releases.len() && #[trigger] release_mentions(releases[i], name)
}

/// A `Provided` version for each capability named `name`, in order.
pub open spec fn provided_versions(
    caps: Seq<RequiredPackage>,
    name: Seq<char>,
    owner: (Seq<char>, Seq<char>),
) -> Seq<VersionKey>
    decreases caps.len(),
{
    if caps.len() == 0 {
        Seq::empty()
    } else {
        provided_versions(caps.drop_last(), name, owner) + if caps.last().name@ == name {
            seq![VersionKey::Provided(owner.0, owner.1)]
        } else {
            Seq::empty()
        }
    }
}

/// The versions one release gives package `name`: itself, then its capabilities.
pub open spec fn contributed_versions(entry: (PackageVersionKey, PackagistRelease), name: Seq<char>) -> Seq<
    VersionKey,
> {
    (if entry.0.package_name@ == name {
        seq![VersionKey::Release(entry.0.version@)]
    } else {
        Seq::empty()
    }) + provided_versions(capabilities(entry.1@), name, key_of(entry.0))
}

/// The versions of package `name` that the releases give, release by release.
pub open spec fn versions_from(releases: Seq<(PackageVersionKey, PackagistRelease)>, name: Seq<char>) -> Seq<
    VersionKey,
>
    decreases releases.len(),
{
    if releases.len() == 0 {
        Seq::empty()
    } else {
        versions_from(releases.drop_last(), name) + contributed_versions(releases.last(), name)
    }
}

/// The versions the solver may pick for a package: the root's own, or for a package
/// some release mentions, its releases and capabilities in the order found, then its
/// absence. Other packages have none.
pub open spec fn versions_spec(
    releases: Seq<(PackageVersionKey, PackagistRelease)>,
    package: Option<Seq<char>>,
) -> Option<Seq<VersionKey>> {
    match package {
        None => Some(seq![VersionKey::Root]),
        Some(name) => if mentioned(releases, name) {
            Some(versions_from(releases, name).push(VersionKey::Absent))
        } else {
            None
        },
    }
}

/// Appends to `out` the versions `entry` gives package `name`.
fn push_contributed(
    out: &mut Vec<PubGrubVersion>,
    entry: &(PackageVersionKey, PackagistRelease),
    name: &str,
)
    ensures
        version_keys(final(out)@) == version_keys(old(out)@) + contributed_versions(*entry, name@),
{
    let key = &entry.0;
    let release = &entry.1;
    let ghost start = version_keys(out@);
    if str_eq(key.package_name.as_str(), name) {
        out.push(PubGrubVersion::Release(key.version.clone()));
    }
    assert(version_keys(out@) =~= start + (if key.package_name@ == name@ {
        seq![VersionKey::Release(key.version@)]
    } else {
        Seq::<VersionKey>::empty()
    }));
    let ghost middle = version_keys(out@);
    let ghost caps = capabilities(release@);
    let ghost owner = key_of(*key);
    let mut i: usize = 0;
    while i < release.provides.len()
        invariant
            i <= release.provides@.len(),
            caps == capabilities(release@),
            owner == key_of(*key),
            version_keys(out@) == middle + provided_versions(caps.take(i as int), name@, owner),
        decreases release.provides@.len() - i,
    {
        let ghost before = version_keys(out@);
        assert(caps.take(i + 1).drop_last() =~= caps.take(i as int));
        assert(caps.take(i + 1).last() == release.provides@[i as int]);
        if str_eq(release.provides[i].name.as_str(), name) {
            out.push(
                PubGrubVersion::Provided {
                    package: key.package_name.clone(),
                    version: key.version.clone(),
                },
            );
            assert(version_keys(out@) =~= before.push(VersionKey::Provided(owner.0, owner.1)));
        } else {
            assert(version_keys(out@) =~= before);
        }
        i = i + 1;
    }
    let mut j: usize = 0;
    while j < release.replaces.len()
        invariant
            j <= release.replaces@.len(),
            caps == capabilities(release@),
            owner == key_of(*key),
            version_keys(out@) == middle + provided_versions(
                caps.take(release.provides@.len() + j),
                name@,
                owner,
            ),
        decreases release.replaces@.len() - j,
    {
        let ghost before = version_keys(out@);
        let ghost at = release.provides@.len() + j;
        assert(caps.take(at + 1).drop_last() =~= caps.take(at));
        assert(caps.take(at + 1).last() == release.replaces@[j as int]);
        if str_eq(release.replaces[j].name.as_str(), name) {
            out.push(
                PubGrubVersion::Provided {
                    package: key.package_name.clone(),
                    version: key.version.clone(),
                },
            );
            assert(version_keys(out@) =~= before.push(VersionKey::Provided(owner.0, owner.1)));
        } else {
            assert(version_keys(out@) =~= before);
        }
        j = j + 1;
    }
    assert(caps.take(caps.len() as int) =~= caps);
}

/// The versions of package `name`, then its absence.
fn package_version_list(releases: &Vec<(PackageVersionKey, PackagistRelease)>, name: &str) -> (r: Vec<
    PubGrubVersion,
>)
    ensures
        version_keys(r@) == versions_from(releases@, name@).push(VersionKey::Absent),
{
    let mut out: Vec<PubGrubVersion> = Vec::new();
    let mut i: usize = 0;
    assert(version_keys(out@) =~= Seq::<VersionKey>::empty());
    while i < releases.len()
        invariant
            i <= releases@.len(),
            version_keys(out@) == versions_from(releases@.take(i as int), name@),
        decreases releases@.len() - i,
    {
        assert(releases@.take(i + 1).drop_last() =~= releases@.take(i as int));
        assert(releases@.take(i + 1).last() == releases@[i as int]);
        push_contributed(&mut out, &releases[i], name);
        i = i + 1;
    }
    assert(releases@.take(releases@.len() as int) =~= releases@);
    let ghost before = version_keys(out@);
    out.push(PubGrubVersion::Absent);
    assert(version_keys(out@) =~= before.push(VersionKey::Absent));
    out
}

/// Adds `name` to `names` unless it is there.
fn add_name(names: &mut Vec<String>, name: &String)
    ensures
        forall|n: Seq<char>| #[trigger] views(final(names)@).contains(n) <==> views(old(names)@).contains(n)
            || n == name@,
        crate::order::distinct(views(old(names)@)) ==> crate::order::distinct(views(final(names)@)),
{
    broadcast use vstd::seq_lib::lemma_seq_contains_after_push;

    let mut i: usize = 0;
    while i < names.len()
        invariant
            i <= names@.len(),
            forall|j: int| 0 <= j < i ==> views(names@)[j] != name@,
        decreases names@.len() - i,
    {
        if str_eq(names[i].as_str(), name.as_str()) {
            assert(views(names@)[i as int] == name@);
            return;
        }
        i = i + 1;
    }
    let ghost before = views(names@);
    names.push(name.clone());
    assert(views(names@) =~= before.push(name@));
}

/// Adds the names `entry` mentions to `names`.
fn add_release_mentions(names: &mut Vec<String>, entry: &(PackageVersionKey, PackagistRelease))
    requires
        crate::order::distinct(views(old(names)@)),
    ensures
        crate::order::distinct(views(final(names)@)),
        forall|n: Seq<char>| #[trigger] views(final(names)@).contains(n) <==> views(old(names)@).contains(n)
            || release_mentions(*entry, n),
{
    let ghost start = views(names@);
    let release = &entry.1;
    let ghost caps = capabilities(release@);
    add_name(names, &entry.0.package_name);
    let mut i: usize = 0;
    while i < release.conflicts.len()
        invariant
            i <= release.conflicts@.len(),
            crate::order::distinct(views(names@)),
            forall|n: Seq<char>| #[trigger] views(names@).contains(n) <==> start.contains(n) || n
                == entry.0.package_name@ || exists|j: int|
                0 <= j < i && #[trigger] release.conflicts@[j].name@ == n,
        decreases release.conflicts@.len() - i,
    {
        let ghost before = views(names@);
        add_name(names, &release.conflicts[i].name);
        proof {
            assert forall|n: Seq<char>| #[trigger] views(names@).contains(n) <==> start.contains(n)
                || n == entry.0.package_name@ || exists|j: int|
                0 <= j < i + 1 && #[trigger] release.conflicts@[j].name@ == n by {
                assert(before.contains(n) <==> start.contains(n) || n == entry.0.package_name@
                    || exists|j: int| 0 <= j < i && #[trigger] release.conflicts@[j].name@ == n);
                if n == release.conflicts@[i as int].name@ {
                    assert(release.conflicts@[i as int].name@ == n);
                }
            }
        }
        i = i + 1;
    }
    let mut k: usize = 0;
    while k < release.provides.len()
        invariant
            k <= release.provides@.len(),
            caps == capabilities(release@),
            crate::order::distinct(views(names@)),
            forall|n: Seq<char>| #[trigger] views(names@).contains(n) <==> start.contains(n) || n
                == entry.0.package_name@ || (exists|j: int|
                0 <= j < release.conflicts@.len() && #[trigger] release.conflicts@[j].name@ == n)
                || exists|j: int| 0 <= j < k && #[trigger] caps[j].name@ == n,
        decreases release.provides@.len() - k,
    {
        let ghost before = views(names@);
        add_name(names, &release.provides[k].name);
        proof {
            assert(caps[k as int] == release.provides@[k as int]);
            assert forall|n: Seq<char>| #[trigger] views(names@).contains(n) <==> start.contains(n)
                || n == entry.0.package_name@ || (exists|j: int|
                0 <= j < release.conflicts@.len() && #[trigger] release.conflicts@[j].name@ == n)
                || exists|j: int| 0 <= j < k + 1 && #[trigger] caps[j].name@ == n by {
                assert(before.contains(n) <==> start.contains(n) || n == entry.0.package_name@ || (
                exists|j: int|
                    0 <= j < release.conflicts@.len() && #[trigger] release.conflicts@[j].name@ == n)
                    || exists|j: int| 0 <= j < k && #[trigger] caps[j].name@ == n);
                if n == caps[k as int].name@ {
                    assert(caps[k as int].name@ == n);
                }
            }
        }
        k = k + 1;
    }
    let mut m: usize = 0;
    while m < release.replaces.len()
        invariant
            m <= release.replaces@.len(),
            caps == capabilities(release@),
            crate::order::distinct(views(names@)),
            forall|n: Seq<char>| #[trigger] views(names@).contains(n) <==> start.contains(n) || n
                == entry.0.package_name@ || (exists|j: int|
                0 <= j < release.conflicts@.len() && #[trigger] release.conflicts@[j].name@ == n)
                || exists|j: int|
                0 <= j < release.provides@.len() + m && #[trigger] caps[j].name@ == n,
        decreases release.replaces@.len() - m,
    {
        let ghost before = views(names@);
        add_name(names, &release.replaces[m].name);
        proof {
            let at = release.provides@.len() + m;
            assert(caps[at] == release.replaces@[m as int]);
            assert forall|n: Seq<char>| #[trigger] views(names@).contains(n) <==> start.contains(n)
                || n == entry.0.package_name@ || (exists|j: int|
                0 <= j < release.conflicts@.len() && #[trigger] release.conflicts@[j].name@ == n)
                || exists|j: int| 0 <= j < at + 1 && #[trigger] caps[j].name@ == n by {
                assert(before.contains(n) <==> start.contains(n) || n == entry.0.package_name@ || (
                exists|j: int|
                    0 <= j < release.conflicts@.len() && #[trigger] release.conflicts@[j].name@ == n)
                    || exists|j: int| 0 <= j < at && #[trigger] caps[j].name@ == n);
                if n == caps[at].name@ {
                    assert(caps[at].name@ == n);
                }
            }
        }
        m = m + 1;
    }
}

/// Every name some release mentions, each once.
fn mentioned_names(releases: &Vec<(PackageVersionKey, PackagistRelease)>) -> (r: Vec<String>)
    ensures
        crate::order::distinct(views(r@)),
        forall|n: Seq<char>| #[trigger] views(r@).contains(n) <==> mentioned(releases@, n),
{
    let mut names: Vec<String> = Vec::new();
    let mut i: usize = 0;
    while i < releases.len()
        invariant
            i <= releases@.len(),
            crate::order::distinct(views(names@)),
            forall|n: Seq<char>| #[trigger] views(names@).contains(n) <==> mentioned(
                releases@.take(i as int),
                n,
            ),
        decreases releases@.len() - i,
    {
        add_release_mentions(&mut names, &releases[i]);
        proof {
            assert forall|n: Seq<char>| mentioned(releases@.take(i + 1), n) <==> mentioned(
                releases@.take(i as int),
                n,
            ) || release_mentions(releases@[i as int], n) by {
                let t = releases@.take(i + 1);
                let s = releases@.take(i as int);
                if mentioned(t, n) {
                    let j = choose|j: int| 0 <= j < t.len() && #[trigger] release_mentions(t[j], n);
                    if j < i {
                        assert(s[j] == t[j]);
                    }
                }
                if mentioned(s, n) {
                    let j = choose|j: int| 0 <= j < s.len() && #[trigger] release_mentions(s[j], n);
                    assert(t[j] == s[j]);
                }
                if release_mentions(releases@[i as int], n) {
                    assert(t[i as int] == releases@[i as int]);
                }
            }
        }
        i = i + 1;
    }
    assert(releases@.take(releases@.len() as int) =~= releases@);
    names
}

// ---------------------------------------------------------------------------
// The tables
// ---------------------------------------------------------------------------

/// The solver's tables: the versions of each package, and the dependencies of each
/// version of a package.
#[derive(Debug)]
pub struct SolverTables {
    pub versions: Vec<(PubGrubPackage, Vec<PubGrubVersion>)>,
    pub dependencies: Vec<((PubGrubPackage, PubGrubVersion), Vec<(PubGrubPackage, DiscreteVersionSet)>)>,
}

/// What the versions table is: package to versions, in order.
pub open spec fn versions_model(entries: Seq<(PubGrubPackage, Vec<PubGrubVersion>)>) -> Seq<
    (Option<Seq<char>>, Seq<VersionKey>),
> {
    entries.map_values(|e: (PubGrubPackage, Vec<PubGrubVersion>)| (package_key(e.0), version_keys(e.1@)))
}

/// The versions table of the releases.
fn versions_table(releases: &Vec<(PackageVersionKey, PackagistRelease)>) -> (r: Vec<
    (PubGrubPackage, Vec<PubGrubVersion>),
>)
    ensures
        forall|p: Option<Seq<char>>| #[trigger]
            assoc_lookup(versions_model(r@), p) == versions_spec(releases@, p),
{
    let names = mentioned_names(releases);
    let mut table: Vec<(PubGrubPackage, Vec<PubGrubVersion>)> = Vec::new();
    let mut root_versions: Vec<PubGrubVersion> = Vec::new();
    root_versions.push(PubGrubVersion::Root);
    assert(version_keys(root_versions@) =~= seq![VersionKey::Root]);
    table.push((PubGrubPackage::Root, root_versions));
    let ghost head = seq![(None::<Seq<char>>, seq![VersionKey::Root])];
    assert(versions_model(table@)[0] == head[0]);
    assert(versions_model(table@) =~= head);
    let mut i: usize = 0;
    while i < names.len()
        invariant
            i <= names@.len(),
            head == seq![(None::<Seq<char>>, seq![VersionKey::Root])],
            versions_model(table@) == head + views(names@).take(i as int).map_values(
                |n: Seq<char>| (Some(n), versions_from(releases@, n).push(VersionKey::Absent)),
            ),
        decreases names@.len() - i,
    {
        let list = package_version_list(releases, names[i].as_str());
        let ghost before = versions_model(table@);
        let ghost entry = (Some(names@[i as int]@), version_keys(list@));
        table.push((PubGrubPackage::Package(names[i].clone()), list));
        assert(versions_model(table@) =~= before.push(entry));
        assert(views(names@).take(i + 1) =~= views(names@).take(i as int).push(names@[i as int]@));
        assert(views(names@).take(i + 1).map_values(
            |n: Seq<char>| (Some(n), versions_from(releases@, n).push(VersionKey::Absent)),
        ) =~= views(names@).take(i as int).map_values(
            |n: Seq<char>| (Some(n), versions_from(releases@, n).push(VersionKey::Absent)),
        ).push(entry));
        i = i + 1;
    }
    proof {
        let model = versions_model(table@);
        let ns = views(names@);
        assert(ns.take(ns.len() as int) =~= ns);
        assert forall|p: Option<Seq<char>>| #[trigger]
            assoc_lookup(model, p) == versions_spec(releases@, p) by {
            match p {
                None => {
                    lemma_assoc_at(model, p, 0);
                },
                Some(n) => {
                    if ns.contains(n) {
                        let j = choose|j: int| 0 <= j < ns.len() && ns[j] == n;
                        assert(model[j + 1] == (Some(n), versions_from(releases@, n).push(
                            VersionKey::Absent,
                        )));
                        assert forall|l: int| 0 <= l < j + 1 implies #[trigger] model[l].0 != p by {
                            if l > 0 {
                                assert(model[l].0 == Some(ns[l - 1]));
                            }
                        }
                        lemma_assoc_at(model, p, j + 1);
                    } else {
                        assert forall|l: int| 0 <= l < model.len() implies #[trigger] model[l].0 != p by {
                            if l > 0 {
                                assert(model[l].0 == Some(ns[l - 1]));
                            }
                        }
                        lemma_assoc_none(model, p);
                    }
                },
            }
        }
    }
    table
}

// ---------------------------------------------------------------------------
// Dependencies
// ---------------------------------------------------------------------------

/// What one dependency of a version must be.
pub enum DependencySpec {
    /// The required package, restricted to the versions that meet the requirement.
    Requires(RequiredPackage),
    /// The conflicting package, restricted to the versions that do not meet the conflict.
    Conflicts(RequiredPackage),
    /// The replaced package, restricted to the versions that are no real release of it
    /// meeting the replacement.
    Replaces(RequiredPackage),
    /// The named package at exactly this release.
    Exactly(Seq<char>, Seq<char>),
}

/// `dep` is the dependency `spec` describes.
pub open spec fn realizes(
    releases: Seq<(PackageVersionKey, PackagistRelease)>,
    dep: (PubGrubPackage, DiscreteVersionSet),
    spec: DependencySpec,
) -> bool {
    &&& dep.1@.well_formed()
    &&& match spec {
        DependencySpec::Requires(r) => package_key(dep.0) == Some(r.name@) && dep.1@ is Only
            && forall|k: VersionKey| #[trigger] dep.1@.has(k) <==> matching_has(releases, r, k, true),
        DependencySpec::Conflicts(c) => package_key(dep.0) == Some(c.name@) && !(dep.1@ is Only)
            && forall|k: VersionKey| #[trigger] dep.1@.has(k) <==> !matching_has(releases, c, k, true),
        DependencySpec::Replaces(r) => package_key(dep.0) == Some(r.name@) && !(dep.1@ is Only)
            && forall|k: VersionKey| #[trigger] dep.1@.has(k) <==> !matching_has(releases, r, k, false),
        DependencySpec::Exactly(n, v) => package_key(dep.0) == Some(n) && dep.1@ == SetModel::Only(
            seq![VersionKey::Release(v)],
        ),
    }
}

/// Every dependency realizes the spec at its position.
pub open spec fn realizes_all(
    releases: Seq<(PackageVersionKey, PackagistRelease)>,
    deps: Seq<(PubGrubPackage, DiscreteVersionSet)>,
    specs: Seq<DependencySpec>,
) -> bool {
    deps.len() == specs.len() && forall|i: int|
        0 <= i < deps.len() ==> realizes(releases, #[trigger] deps[i], specs[i])
}

/// The kinds of dependency a requirement list turns into.
pub enum DependencyKind {
    Requires,
    Conflicts,
    Replaces,
}

/// The spec of the dependency `kind` makes of `requirement`.
pub open spec fn kind_spec(kind: DependencyKind, requirement: RequiredPackage) -> DependencySpec {
    match kind {
        DependencyKind::Requires => DependencySpec::Requires(requirement),
        DependencyKind::Conflicts => DependencySpec::Conflicts(requirement),
        DependencyKind::Replaces => DependencySpec::Replaces(requirement),
    }
}

/// The dependencies of a release: what it requires, conflicts with and replaces.
pub open spec fn release_dependency_specs(release: PackagistRelease) -> Seq<DependencySpec> {
    release.package_requires@.map_values(|r: RequiredPackage| DependencySpec::Requires(r))
        + release.conflicts@.map_values(|r: RequiredPackage| DependencySpec::Conflicts(r))
        + release.replaces@.map_values(|r: RequiredPackage| DependencySpec::Replaces(r))
}

/// Every requirement a release's dependencies are checked against.
pub open spec fn release_checked(release: PackagistRelease) -> Seq<RequiredPackage> {
    release.package_requires@ + release.conflicts@ + release.replaces@
}

/// Every version any dependency is checked against can be checked.
pub open spec fn problem_checkable(
    roots: Seq<RequiredPackage>,
    releases: Seq<(PackageVersionKey, PackagistRelease)>,
) -> bool {
    &&& forall|i: int| 0 <= i < roots.len() ==> requirement_checkable(releases, #[trigger] roots[i])
    &&& forall|j: int, l: int|
        0 <= j < releases.len() && 0 <= l < release_checked(releases[j].1).len()
            ==> requirement_checkable(releases, #[trigger] release_checked(releases[j].1)[l])
}

/// The dependencies `kind` makes of `requirements`.
fn requirement_dependencies(
    releases: &Vec<(PackageVersionKey, PackagistRelease)>,
    requirements: &Vec<RequiredPackage>,
    kind: DependencyKind,
) -> (r: Result<Vec<(PubGrubPackage, DiscreteVersionSet)>, ConcertoError>)
    requires
        releases_well_formed(releases@),
    ensures
        r matches Ok(deps) ==> realizes_all(
            releases@,
            deps@,
            requirements@.map_values(|q: RequiredPackage| kind_spec(kind, q)),
        ),
        r is Err ==> exists|i: int|
            0 <= i < requirements@.len() && !requirement_checkable(
                releases@,
                #[trigger] requirements@[i],
            ),
{
    let ghost specs = requirements@.map_values(|q: RequiredPackage| kind_spec(kind, q));
    let mut deps: Vec<(PubGrubPackage, DiscreteVersionSet)> = Vec::new();
    let mut i: usize = 0;
    while i < requirements.len()
        invariant
            i <= requirements@.len(),
            releases_well_formed(releases@),
            specs == requirements@.map_values(|q: RequiredPackage| kind_spec(kind, q)),
            realizes_all(releases@, deps@, specs.take(i as int)),
        decreases requirements@.len() - i,
    {
        let requirement = &requirements[i];
        let with_provided = match kind {
            DependencyKind::Replaces => false,
            _ => true,
        };
        let versions = match matching_versions(releases, requirement, with_provided) {
            Ok(versions) => versions,
            Err(error) => {
                assert(!requirement_checkable(releases@, requirements@[i as int]));
                return Err(error);
            },
        };
        let set = match kind {
            DependencyKind::Requires => DiscreteVersionSet::only(versions),
            _ => DiscreteVersionSet::without(versions),
        };
        let ghost before = deps@;
        let dep = (PubGrubPackage::Package(requirement.name.clone()), set);
        assert(realizes(releases@, dep, specs[i as int]));
        deps.push(dep);
        proof {
            assert(specs.take(i + 1) =~= specs.take(i as int).push(specs[i as int]));
            assert forall|j: int| 0 <= j < deps@.len() implies realizes(
                releases@,
                #[trigger] deps@[j],
                specs.take(i + 1)[j],
            ) by {
                if j < i {
                    assert(deps@[j] == before[j]);
                }
            }
        }
        i = i + 1;
    }
    assert(specs.take(requirements@.len() as int) =~= specs);
    Ok(deps)
}

proof fn lemma_realizes_all_concat(
    releases: Seq<(PackageVersionKey, PackagistRelease)>,
    a: Seq<(PubGrubPackage, DiscreteVersionSet)>,
    sa: Seq<DependencySpec>,
    b: Seq<(PubGrubPackage, DiscreteVersionSet)>,
    sb: Seq<DependencySpec>,
)
    requires
        realizes_all(releases, a, sa),
        realizes_all(releases, b, sb),
    ensures
        realizes_all(releases, a + b, sa + sb),
{
    assert forall|i: int| 0 <= i < (a + b).len() implies realizes(
        releases,
        #[trigger] (a + b)[i],
        (sa + sb)[i],
    ) by {
        if i >= a.len() {
            assert((a + b)[i] == b[i - a.len()] && (sa + sb)[i] == sb[i - a.len()]);
        } else {
            assert((a + b)[i] == a[i] && (sa + sb)[i] == sa[i]);
        }
    }
}

/// The dependencies of one release.
fn release_dependencies(
    releases: &Vec<(PackageVersionKey, PackagistRelease)>,
    release: &PackagistRelease,
) -> (r: Result<Vec<(PubGrubPackage, DiscreteVersionSet)>, ConcertoError>)
    requires
        releases_well_formed(releases@),
    ensures
        r matches Ok(deps) ==> realizes_all(releases@, deps@, release_dependency_specs(*release)),
        r is Err ==> exists|l: int|
            0 <= l < release_checked(*release).len() && !requirement_checkable(
                releases@,
                #[trigger] release_checked(*release)[l],
            ),
{
    let ghost checked = release_checked(*release);
    let ghost np = release.package_requires@.len();
    let ghost nc = release.conflicts@.len();
    let mut deps = match requirement_dependencies(
        releases,
        &release.package_requires,
        DependencyKind::Requires,
    ) {
        Ok(deps) => deps,
        Err(error) => {
            proof {
                let i = choose|i: int|
                    0 <= i < release.package_requires@.len() && !requirement_checkable(
                        releases@,
                        #[trigger] release.package_requires@[i],
                    );
                assert(checked[i] == release.package_requires@[i]);
            }
            return Err(error);
        },
    };
    let mut conflicts = match requirement_dependencies(
        releases,
        &release.conflicts,
        DependencyKind::Conflicts,
    ) {
        Ok(deps) => deps,
        Err(error) => {
            proof {
                let i = choose|i: int|
                    0 <= i < release.conflicts@.len() && !requirement_checkable(
                        releases@,
                        #[trigger] release.conflicts@[i],
                    );
                assert(checked[np + i] == release.conflicts@[i]);
            }
            return Err(error);
        },
    };
    let mut replaces = match requirement_dependencies(
        releases,
        &release.replaces,
        DependencyKind::Replaces,
    ) {
        Ok(deps) => deps,
        Err(error) => {
            proof {
                let i = choose|i: int|
                    0 <= i < release.replaces@.len() && !requirement_checkable(
                        releases@,
                        #[trigger] release.replaces@[i],
                    );
                assert(checked[np + nc + i] == release.replaces@[i]);
            }
            return Err(error);
        },
    };
    let ghost a = deps@;
    let ghost b = conflicts@;
    let ghost c = replaces@;
    deps.append(&mut conflicts);
    deps.append(&mut replaces);
    proof {
        let sa = release.package_requires@.map_values(|q: RequiredPackage| kind_spec(DependencyKind::Requires, q));
        let sb = release.conflicts@.map_values(|q: RequiredPackage| kind_spec(DependencyKind::Conflicts, q));
        let sc = release.replaces@.map_values(|q: RequiredPackage| kind_spec(DependencyKind::Replaces, q));
        assert(sa =~= release.package_requires@.map_values(|r: RequiredPackage| DependencySpec::Requires(r)));
        assert(sb =~= release.conflicts@.map_values(|r: RequiredPackage| DependencySpec::Conflicts(r)));
        assert(sc =~= release.replaces@.map_values(|r: RequiredPackage| DependencySpec::Replaces(r)));
        lemma_realizes_all_concat(releases@, a, sa, b, sb);
        lemma_realizes_all_concat(releases@, a + b, sa + sb, c, sc);
        assert(deps@ =~= a + b + c);
    }
    Ok(deps)
}

// ---------------------------------------------------------------------------
// The dependencies table
// ---------------------------------------------------------------------------

/// What the dependencies table is: (package, version) to dependencies.
pub open spec fn dependencies_model(
    entries: Seq<((PubGrubPackage, PubGrubVersion), Vec<(PubGrubPackage, DiscreteVersionSet)>)>,
) -> Seq<((Option<Seq<char>>, VersionKey), Seq<(PubGrubPackage, DiscreteVersionSet)>)> {
    entries.map_values(
        |e: ((PubGrubPackage, PubGrubVersion), Vec<(PubGrubPackage, DiscreteVersionSet)>)|
            ((package_key(e.0.0), e.0.1@), e.1@),
    )
}

/// Some release of the problem is `name` at `version`.
pub open spec fn has_release_key(
    releases: Seq<(PackageVersionKey, PackagistRelease)>,
    name: Seq<char>,
    version: Seq<char>,
) -> bool {
    exists|i: int| 0 <= i < releases.len() && #[trigger] key_of(releases[i].0) == (name, version)
}

/// The position of the release `name` at `version`.
pub open spec fn release_index(
    releases: Seq<(PackageVersionKey, PackagistRelease)>,
    name: Seq<char>,
    version: Seq<char>,
) -> int {
    choose|i: int| 0 <= i < releases.len() && #[trigger] key_of(releases[i].0) == (name, version)
}

/// A capability of the release is named `name`.
pub open spec fn provides_name(release: PackagistRelease, name: Seq<char>) -> bool {
    exists|l: int|
        0 <= l < capabilities(release@).len() && #[trigger] capabilities(release@)[l].name@ == name
}

/// The release `owner` at `version` provides or replaces `name`.
pub open spec fn provided_by(
    releases: Seq<(PackageVersionKey, PackagistRelease)>,
    name: Seq<char>,
    owner: Seq<char>,
    version: Seq<char>,
) -> bool {
    exists|i: int|
        0 <= i < releases.len() && #[trigger] key_of(releases[i].0) == (owner, version)
            && provides_name(releases[i].1, name)
}

/// The dependencies of each version: the root requires the root requirements; a
/// release requires, conflicts with and replaces what it declares; a capability
/// requires the release that declares it; an absent package requires nothing. Other
/// versions have no entry.
pub open spec fn dependencies_spec(
    roots: Seq<RequiredPackage>,
    releases: Seq<(PackageVersionKey, PackagistRelease)>,
    package: Option<Seq<char>>,
    version: VersionKey,
) -> Option<Seq<DependencySpec>> {
    match (package, version) {
        (None, VersionKey::Root) => Some(
            roots.map_values(|r: RequiredPackage| DependencySpec::Requires(r)),
        ),
        (Some(n), VersionKey::Release(v)) => if has_release_key(releases, n, v) {
            Some(release_dependency_specs(releases[release_index(releases, n, v)].1))
        } else {
            None
        },
        (Some(n), VersionKey::Provided(o, v)) => if provided_by(releases, n, o, v) {
            Some(seq![DependencySpec::Exactly(o, v)])
        } else {
            None
        },
        (Some(n), VersionKey::Absent) => if mentioned(releases, n) {
            Some(Seq::empty())
        } else {
            None
        },
        _ => None,
    }
}

/// A looked-up entry is what the spec asks, or absent when it asks for none.
pub open spec fn table_realizes(
    releases: Seq<(PackageVersionKey, PackagistRelease)>,
    found: Option<Seq<(PubGrubPackage, DiscreteVersionSet)>>,
    spec: Option<Seq<DependencySpec>>,
) -> bool {
    match spec {
        None => found is None,
        Some(specs) => found matches Some(deps) && realizes_all(releases, deps, specs),
    }
}

proof fn lemma_release_spec_other(
    roots: Seq<RequiredPackage>,
    releases: Seq<(PackageVersionKey, PackagistRelease)>,
    i: int,
    n: Seq<char>,
    v: Seq<char>,
)
    requires
        releases_well_formed(releases),
        0 <= i < releases.len(),
        key_of(releases[i].0) != (n, v),
    ensures
        dependencies_spec(roots, releases.take(i + 1), Some(n), VersionKey::Release(v))
            == dependencies_spec(roots, releases.take(i), Some(n), VersionKey::Release(v)),
{
    let s = releases.take(i);
    let t = releases.take(i + 1);
    if has_release_key(t, n, v) {
        let j = choose|j: int| 0 <= j < t.len() && #[trigger] key_of(t[j].0) == (n, v);
        assert(j != i);
        assert(s[j] == t[j]);
        let a = release_index(s, n, v);
        let b = release_index(t, n, v);
        assert(s[a] == releases[a] && t[b] == releases[b]);
    }
    if has_release_key(s, n, v) {
        let j = choose|j: int| 0 <= j < s.len() && #[trigger] key_of(s[j].0) == (n, v);
        assert(t[j] == s[j]);
    }
}

proof fn lemma_release_spec_new(
    roots: Seq<RequiredPackage>,
    releases: Seq<(PackageVersionKey, PackagistRelease)>,
    i: int,
)
    requires
        releases_well_formed(releases),
        0 <= i < releases.len(),
    ensures
        dependencies_spec(
            roots,
            releases.take(i + 1),
            Some(releases[i].0.package_name@),
            VersionKey::Release(releases[i].0.version@),
        ) == Some(release_dependency_specs(releases[i].1)),
        dependencies_spec(
            roots,
            releases.take(i),
            Some(releases[i].0.package_name@),
            VersionKey::Release(releases[i].0.version@),
        ) is None,
{
    let n = releases[i].0.package_name@;
    let v = releases[i].0.version@;
    let s = releases.take(i);
    let t = releases.take(i + 1);
    assert(key_of(t[i].0) == (n, v));
    let b = release_index(t, n, v);
    assert(t[b] == releases[b]);
    if has_release_key(s, n, v) {
        let j = choose|j: int| 0 <= j < s.len() && #[trigger] key_of(s[j].0) == (n, v);
        assert(s[j] == releases[j]);
    }
}

/// `deps` is the single dependency on exactly the release `owner` at `version`.
pub open spec fn exactly_release(
    deps: Seq<(PubGrubPackage, DiscreteVersionSet)>,
    owner: Seq<char>,
    version: Seq<char>,
) -> bool {
    deps.len() == 1 && deps[0].1@.well_formed() && package_key(deps[0].0) == Some(owner)
        && deps[0].1@ == SetModel::Only(seq![VersionKey::Release(version)])
}

/// The entry found is the single dependency on exactly `owner` at `version`.
pub open spec fn found_exactly(
    found: Option<Seq<(PubGrubPackage, DiscreteVersionSet)>>,
    owner: Seq<char>,
    version: Seq<char>,
) -> bool {
    found matches Some(deps) && exactly_release(deps, owner, version)
}

/// Appends the entries of the capabilities of `entry`: each requires exactly that
/// release. Entries that are there already stay.
fn push_capability_entries(
    table: &mut Vec<((PubGrubPackage, PubGrubVersion), Vec<(PubGrubPackage, DiscreteVersionSet)>)>,
    entry: &(PackageVersionKey, PackagistRelease),
)
    ensures
        forall|p: Option<Seq<char>>, v: VersionKey|
            !(v is Provided) || p is None ==> #[trigger] assoc_lookup(
                dependencies_model(final(table)@),
                (p, v),
            ) == assoc_lookup(dependencies_model(old(table)@), (p, v)),
        forall|n: Seq<char>, o: Seq<char>, v: Seq<char>|
            #[trigger] assoc_lookup(
                dependencies_model(final(table)@),
                (Some(n), VersionKey::Provided(o, v)),
            ) == assoc_lookup(dependencies_model(old(table)@), (Some(n), VersionKey::Provided(o, v)))
                || (assoc_lookup(
                dependencies_model(old(table)@),
                (Some(n), VersionKey::Provided(o, v)),
            ) is None && key_of(entry.0) == (o, v) && provides_name(entry.1, n) && found_exactly(
                assoc_lookup(dependencies_model(final(table)@), (Some(n), VersionKey::Provided(o, v))),
                o,
                v,
            )),
        forall|n: Seq<char>, o: Seq<char>, v: Seq<char>|
            key_of(entry.0) == (o, v) && provides_name(entry.1, n) ==> #[trigger] assoc_lookup(
                dependencies_model(final(table)@),
                (Some(n), VersionKey::Provided(o, v)),
            ) is Some,
        forall|n: Seq<char>, o: Seq<char>, v: Seq<char>|
            !(key_of(entry.0) == (o, v) && provides_name(entry.1, n)) ==> #[trigger] assoc_lookup(
                dependencies_model(final(table)@),
                (Some(n), VersionKey::Provided(o, v)),
            ) == assoc_lookup(dependencies_model(old(table)@), (Some(n), VersionKey::Provided(o, v))),
{
    let key = &entry.0;
    let release = &entry.1;
    let ghost caps = capabilities(release@);
    let ghost start = dependencies_model(table@);
    let mut all_caps = crate::composer::clone_requirements(&release.provides);
    crate::composer::append_requirements(&mut all_caps, &release.replaces);
    let total = all_caps.len();
    let mut c: usize = 0;
    while c < total
        invariant
            c <= total,
            total == all_caps@.len(),
            all_caps@ == caps,
            caps == capabilities(release@),
            forall|p: Option<Seq<char>>, v: VersionKey|
                !(v is Provided) || p is None ==> #[trigger] assoc_lookup(
                    dependencies_model(table@),
                    (p, v),
                ) == assoc_lookup(start, (p, v)),
            forall|n: Seq<char>, o: Seq<char>, v: Seq<char>|
                #[trigger] assoc_lookup(
                    dependencies_model(table@),
                    (Some(n), VersionKey::Provided(o, v)),
                ) == assoc_lookup(start, (Some(n), VersionKey::Provided(o, v))) || (assoc_lookup(
                    start,
                    (Some(n), VersionKey::Provided(o, v)),
                ) is None && key_of(*key) == (o, v) && provides_name(*release, n) && found_exactly(
                    assoc_lookup(dependencies_model(table@), (Some(n), VersionKey::Provided(o, v))),
                    o,
                    v,
                )),
            forall|n: Seq<char>, o: Seq<char>, v: Seq<char>|
                key_of(*key) == (o, v) && (exists|l: int| 0 <= l < c && #[trigger] caps[l].name@ == n)
                    ==> #[trigger] assoc_lookup(
                    dependencies_model(table@),
                    (Some(n), VersionKey::Provided(o, v)),
                ) is Some,
            forall|n: Seq<char>, o: Seq<char>, v: Seq<char>|
                !(key_of(*key) == (o, v) && provides_name(*release, n)) ==> #[trigger] assoc_lookup(
                    dependencies_model(table@),
                    (Some(n), VersionKey::Provided(o, v)),
                ) == assoc_lookup(start, (Some(n), VersionKey::Provided(o, v))),
        decreases total - c,
    {
        let capability = &all_caps[c];
        let version = PubGrubVersion::Release(key.version.clone());
        let set = DiscreteVersionSet::singleton(version);
        let mut deps: Vec<(PubGrubPackage, DiscreteVersionSet)> = Vec::new();
        deps.push((PubGrubPackage::Package(key.package_name.clone()), set));
        let ghost e = (
            (Some(capability.name@), VersionKey::Provided(key.package_name@, key.version@)),
            deps@,
        );
        assert(exactly_release(deps@, key.package_name@, key.version@));
        let ghost before = dependencies_model(table@);
        table.push(
            (
                (
                    PubGrubPackage::Package(capability.name.clone()),
                    PubGrubVersion::Provided {
                        package: key.package_name.clone(),
                        version: key.version.clone(),
                    },
                ),
                deps,
            ),
        );
        proof {
            assert(dependencies_model(table@) =~= before.push(e));
            assert forall|p: Option<Seq<char>>, v: VersionKey| #[trigger]
                assoc_lookup(dependencies_model(table@), (p, v)) == if assoc_lookup(before, (p, v))
                is Some {
                assoc_lookup(before, (p, v))
            } else if e.0 == (p, v) {
                Some(e.1)
            } else {
                None
            } by {
                lemma_assoc_push(before, e, (p, v));
            }
            assert(provides_name(*release, capability.name@)) by {
                assert(caps[c as int].name@ == capability.name@);
            }
            assert forall|n: Seq<char>, o: Seq<char>, v: Seq<char>|
                key_of(*key) == (o, v) && (exists|l: int| 0 <= l < c + 1 && #[trigger] caps[l].name@ == n)
                    implies #[trigger] assoc_lookup(
                    dependencies_model(table@),
                    (Some(n), VersionKey::Provided(o, v)),
                ) is Some by {
                if n == capability.name@ {
                } else {
                    let l = choose|l: int| 0 <= l < c + 1 && #[trigger] caps[l].name@ == n;
                    assert(l < c);
                }
            }
        }
        c = c + 1;
    }
    proof {
        assert forall|n: Seq<char>, o: Seq<char>, v: Seq<char>|
            key_of(*key) == (o, v) && provides_name(*release, n) implies #[trigger] assoc_lookup(
                dependencies_model(table@),
                (Some(n), VersionKey::Provided(o, v)),
            ) is Some by {
            let l = choose|l: int| 0 <= l < caps.len() && #[trigger] caps[l].name@ == n;
            assert(caps[l].name@ == n);
        }
    }
}

proof fn lemma_provided_step(
    releases: Seq<(PackageVersionKey, PackagistRelease)>,
    i: int,
    n: Seq<char>,
    o: Seq<char>,
    v: Seq<char>,
)
    requires
        0 <= i < releases.len(),
    ensures
        provided_by(releases.take(i + 1), n, o, v) <==> provided_by(releases.take(i), n, o, v) || (
        key_of(releases[i].0) == (o, v) && provides_name(releases[i].1, n)),
{
    let s = releases.take(i);
    let t = releases.take(i + 1);
    if provided_by(t, n, o, v) {
        let j = choose|j: int|
            0 <= j < t.len() && #[trigger] key_of(t[j].0) == (o, v) && provides_name(t[j].1, n);
        if j < i {
            assert(s[j] == t[j]);
        }
    }
    if provided_by(s, n, o, v) {
        let j = choose|j: int|
            0 <= j < s.len() && #[trigger] key_of(s[j].0) == (o, v) && provides_name(s[j].1, n);
        assert(t[j] == s[j]);
    }
    if key_of(releases[i].0) == (o, v) && provides_name(releases[i].1, n) {
        assert(t[i] == releases[i]);
    }
}

/// The dependencies table of the problem; fails when a release's version cannot be
/// checked against a constraint it is asked about.
fn dependencies_table(
    roots: &Vec<RequiredPackage>,
    releases: &Vec<(PackageVersionKey, PackagistRelease)>,
) -> (r: Result<
    Vec<((PubGrubPackage, PubGrubVersion), Vec<(PubGrubPackage, DiscreteVersionSet)>)>,
    ConcertoError,
>)
    requires
        releases_well_formed(releases@),
    ensures
        r matches Ok(table) ==> forall|p: Option<Seq<char>>, v: VersionKey|
            table_realizes(
                releases@,
                #[trigger] assoc_lookup(dependencies_model(table@), (p, v)),
                dependencies_spec(roots@, releases@, p, v),
            ),
        r is Err ==> !problem_checkable(roots@, releases@),
{
    let mut table: Vec<((PubGrubPackage, PubGrubVersion), Vec<(PubGrubPackage, DiscreteVersionSet)>)> =
        Vec::new();
    let root_deps = match requirement_dependencies(releases, roots, DependencyKind::Requires) {
        Ok(deps) => deps,
        Err(error) => {
            return Err(error);
        },
    };
    let ghost root_specs = roots@.map_values(|r: RequiredPackage| DependencySpec::Requires(r));
    assert(roots@.map_values(|q: RequiredPackage| kind_spec(DependencyKind::Requires, q))
        =~= root_specs);
    let ghost root_entry = ((None::<Seq<char>>, VersionKey::Root), root_deps@);
    table.push(((PubGrubPackage::Root, PubGrubVersion::Root), root_deps));
    proof {
        assert(dependencies_model(table@) =~= seq![root_entry]);
        assert forall|p: Option<Seq<char>>, v: VersionKey| #[trigger]
            assoc_lookup(dependencies_model(table@), (p, v)) == if (p, v) == root_entry.0 {
                Some(root_entry.1)
            } else {
                None
            } by {
            lemma_assoc_push(Seq::empty(), root_entry, (p, v));
            assert(Seq::<((Option<Seq<char>>, VersionKey), Seq<(PubGrubPackage, DiscreteVersionSet)>)>::empty().push(root_entry) =~= seq![root_entry]);
        }
    }
    let mut i: usize = 0;
    while i < releases.len()
        invariant
            i <= releases@.len(),
            releases_well_formed(releases@),
            table_realizes(
                releases@,
                assoc_lookup(dependencies_model(table@), (None, VersionKey::Root)),
                Some(roots@.map_values(|r: RequiredPackage| DependencySpec::Requires(r))),
            ),
            forall|n: Seq<char>, v: Seq<char>|
                table_realizes(
                    releases@,
                    #[trigger] assoc_lookup(
                        dependencies_model(table@),
                        (Some(n), VersionKey::Release(v)),
                    ),
                    dependencies_spec(
                        roots@,
                        releases@.take(i as int),
                        Some(n),
                        VersionKey::Release(v),
                    ),
                ),
            forall|p: Option<Seq<char>>, v: VersionKey|
                !((p is None && v is Root) || (p is Some && v is Release)) ==> #[trigger] assoc_lookup(
                    dependencies_model(table@),
                    (p, v),
                ) is None,
        decreases releases@.len() - i,
    {
        let key = &releases[i].0;
        let deps = match release_dependencies(releases, &releases[i].1) {
            Ok(deps) => deps,
            Err(error) => {
                proof {
                    let l = choose|l: int|
                        0 <= l < release_checked(releases@[i as int].1).len() && !requirement_checkable(
                            releases@,
                            #[trigger] release_checked(releases@[i as int].1)[l],
                        );
                }
                return Err(error);
            },
        };
        let ghost before = dependencies_model(table@);
        let ghost e = ((Some(key.package_name@), VersionKey::Release(key.version@)), deps@);
        table.push(
            (
                (
                    PubGrubPackage::Package(key.package_name.clone()),
                    PubGrubVersion::Release(key.version.clone()),
                ),
                deps,
            ),
        );
        proof {
            assert(dependencies_model(table@) =~= before.push(e));
            lemma_release_spec_new(roots@, releases@, i as int);
            assert forall|p: Option<Seq<char>>, v: VersionKey| #[trigger]
                assoc_lookup(dependencies_model(table@), (p, v)) == if assoc_lookup(before, (p, v))
                is Some {
                assoc_lookup(before, (p, v))
            } else if e.0 == (p, v) {
                Some(e.1)
            } else {
                None
            } by {
                lemma_assoc_push(before, e, (p, v));
            }
            assert forall|n: Seq<char>, v: Seq<char>|
                table_realizes(
                    releases@,
                    #[trigger] assoc_lookup(
                        dependencies_model(table@),
                        (Some(n), VersionKey::Release(v)),
                    ),
                    dependencies_spec(
                        roots@,
                        releases@.take(i + 1),
                        Some(n),
                        VersionKey::Release(v),
                    ),
                ) by {
                if key_of(releases@[i as int].0) != (n, v) {
                    lemma_release_spec_other(roots@, releases@, i as int, n, v);
                }
            }
        }
        i = i + 1;
    }
    assert(releases@.take(releases@.len() as int) =~= releases@);
    let ghost after_releases = dependencies_model(table@);
    let mut j: usize = 0;
    while j < releases.len()
        invariant
            j <= releases@.len(),
            forall|p: Option<Seq<char>>, v: VersionKey|
                !(v is Provided) ==> #[trigger] assoc_lookup(dependencies_model(table@), (p, v))
                    == assoc_lookup(after_releases, (p, v)),
            forall|n: Seq<char>, o: Seq<char>, v: Seq<char>|
                (provided_by(releases@.take(j as int), n, o, v) ==> found_exactly(
                    #[trigger] assoc_lookup(
                        dependencies_model(table@),
                        (Some(n), VersionKey::Provided(o, v)),
                    ),
                    o,
                    v,
                )) && (!provided_by(releases@.take(j as int), n, o, v) ==> assoc_lookup(
                    dependencies_model(table@),
                    (Some(n), VersionKey::Provided(o, v)),
                ) is None),
            forall|p: Option<Seq<char>>, v: VersionKey|
                !((p is None && v is Root) || (p is Some && (v is Release || v is Provided)))
                    ==> #[trigger] assoc_lookup(dependencies_model(table@), (p, v)) is None,
        decreases releases@.len() - j,
    {
        let ghost before = dependencies_model(table@);
        push_capability_entries(&mut table, &releases[j]);
        proof {
            assert forall|n: Seq<char>, o: Seq<char>, v: Seq<char>|
                (provided_by(releases@.take(j + 1), n, o, v) ==> found_exactly(
                    #[trigger] assoc_lookup(
                        dependencies_model(table@),
                        (Some(n), VersionKey::Provided(o, v)),
                    ),
                    o,
                    v,
                )) && (!provided_by(releases@.take(j + 1), n, o, v) ==> assoc_lookup(
                    dependencies_model(table@),
                    (Some(n), VersionKey::Provided(o, v)),
                ) is None) by {
                lemma_provided_step(releases@, j as int, n, o, v);
                assert(provided_by(releases@.take(j as int), n, o, v) ==> found_exactly(
                    assoc_lookup(before, (Some(n), VersionKey::Provided(o, v))),
                    o,
                    v,
                ));
            }
        }
        j = j + 1;
    }
    let names = mentioned_names(releases);
    let ghost after_provided = dependencies_model(table@);
    let mut m: usize = 0;
    while m < names.len()
        invariant
            m <= names@.len(),
            crate::order::distinct(views(names@)),
            forall|p: Option<Seq<char>>, v: VersionKey|
                !(v is Absent) ==> #[trigger] assoc_lookup(dependencies_model(table@), (p, v))
                    == assoc_lookup(after_provided, (p, v)),
            forall|n: Seq<char>|
                (views(names@).take(m as int).contains(n) ==> #[trigger] assoc_lookup(
                    dependencies_model(table@),
                    (Some(n), VersionKey::Absent),
                ) == Some(Seq::<(PubGrubPackage, DiscreteVersionSet)>::empty())) && (!views(
                    names@,
                ).take(m as int).contains(n) ==> assoc_lookup(
                    dependencies_model(table@),
                    (Some(n), VersionKey::Absent),
                ) is None),
            forall|v: VersionKey| #[trigger]
                assoc_lookup(dependencies_model(table@), (None, v)) == assoc_lookup(
                    after_provided,
                    (None, v),
                ),
        decreases names@.len() - m,
    {
        let ghost before = dependencies_model(table@);
        let ghost e = ((Some(names@[m as int]@), VersionKey::Absent), Seq::<(PubGrubPackage, DiscreteVersionSet)>::empty());
        let empty_deps: Vec<(PubGrubPackage, DiscreteVersionSet)> = Vec::new();
        table.push(((PubGrubPackage::Package(names[m].clone()), PubGrubVersion::Absent), empty_deps));
        proof {
            assert(dependencies_model(table@) =~= before.push(e));
            assert forall|p: Option<Seq<char>>, v: VersionKey| #[trigger]
                assoc_lookup(dependencies_model(table@), (p, v)) == if assoc_lookup(before, (p, v))
                is Some {
                assoc_lookup(before, (p, v))
            } else if e.0 == (p, v) {
                Some(e.1)
            } else {
                None
            } by {
                lemma_assoc_push(before, e, (p, v));
            }
            let ns = views(names@);
            assert(ns.take(m + 1) =~= ns.take(m as int).push(ns[m as int]));
            assert(!ns.take(m as int).contains(ns[m as int])) by {
                if ns.take(m as int).contains(ns[m as int]) {
                    let l = choose|l: int| 0 <= l < m && ns.take(m as int)[l] == ns[m as int];
                    assert(ns[l] == ns[m as int]);
                }
            }
            assert forall|n: Seq<char>|
                (ns.take(m + 1).contains(n) ==> #[trigger] assoc_lookup(
                    dependencies_model(table@),
                    (Some(n), VersionKey::Absent),
                ) == Some(Seq::<(PubGrubPackage, DiscreteVersionSet)>::empty())) && (!ns.take(
                    m + 1,
                ).contains(n) ==> assoc_lookup(
                    dependencies_model(table@),
                    (Some(n), VersionKey::Absent),
                ) is None) by {
                vstd::seq_lib::lemma_seq_contains_after_push(ns.take(m as int), ns[m as int], n);
            }
        }
        m = m + 1;
    }
    proof {
        let ns = views(names@);
        assert(ns.take(ns.len() as int) =~= ns);
        assert forall|p: Option<Seq<char>>, v: VersionKey|
            table_realizes(
                releases@,
                #[trigger] assoc_lookup(dependencies_model(table@), (p, v)),
                dependencies_spec(roots@, releases@, p, v),
            ) by {
            match (p, v) {
                (Some(n), VersionKey::Provided(o, w)) => {
                    if provided_by(releases@, n, o, w) {
                        let found = assoc_lookup(dependencies_model(table@), (p, v));
                        assert(found_exactly(found, o, w));
                        let deps = found->0;
                        assert(realizes(releases@, deps[0], DependencySpec::Exactly(o, w)));
                    }
                },
                _ => {},
            }
        }
    }
    Ok(table)
}

// ---------------------------------------------------------------------------
// Asking the tables
// ---------------------------------------------------------------------------

/// What a list of dependencies is: packages and their version sets.
pub open spec fn deps_view(deps: Seq<(PubGrubPackage, DiscreteVersionSet)>) -> Seq<
    (Option<Seq<char>>, SetModel),
> {
    deps.map_values(|d: (PubGrubPackage, DiscreteVersionSet)| (package_key(d.0), d.1@))
}

/// The tables were built from the problem.
pub open spec fn tables_for(tables: SolverTables, problem: ResolutionProblem) -> bool {
    &&& forall|p: Option<Seq<char>>| #[trigger]
        assoc_lookup(versions_model(tables.versions@), p) == versions_spec(problem.releases@, p)
    &&& forall|p: Option<Seq<char>>, v: VersionKey|
        table_realizes(
            problem.releases@,
            #[trigger] assoc_lookup(dependencies_model(tables.dependencies@), (p, v)),
            dependencies_spec(problem.root_requirements@, problem.releases@, p, v),
        )
}

/// How many of `versions` the set holds.
pub open spec fn count_held(versions: Seq<VersionKey>, range: SetModel) -> nat
    decreases versions.len(),
{
    if versions.len() == 0 {
        0
    } else {
        count_held(versions.drop_last(), range) + if range.has(versions.last()) {
            1nat
        } else {
            0nat
        }
    }
}

/// The first of `versions` the set holds, leaving out the absence when `skip_absent`.
pub open spec fn first_held(versions: Seq<VersionKey>, range: SetModel, skip_absent: bool) -> Option<
    VersionKey,
>
    decreases versions.len(),
{
    if versions.len() == 0 {
        None
    } else if range.has(versions[0]) && !(skip_absent && versions[0] is Absent) {
        Some(versions[0])
    } else {
        first_held(versions.drop_first(), range, skip_absent)
    }
}

/// `versions[i]` may be offered: the range holds it, and it is not the absence where
/// the absence is left out.
pub open spec fn offerable(versions: Seq<VersionKey>, range: SetModel, skip_absent: bool, i: int) -> bool {
    range.has(versions[i]) && !(skip_absent && versions[i] is Absent)
}

/// What is found among `versions` is the earliest listed one that may be offered: the
/// range holds it, and no version listed before it may be offered; nothing is found
/// only when none may be.
pub proof fn lemma_first_held_is_earliest(versions: Seq<VersionKey>, range: SetModel, skip_absent: bool)
    ensures
        first_held(versions, range, skip_absent) matches Some(v) ==> exists|i: int|
            0 <= i < versions.len() && versions[i] == v && #[trigger] offerable(versions, range, skip_absent, i)
                && forall|j: int| 0 <= j < i ==> !#[trigger] offerable(versions, range, skip_absent, j),
        first_held(versions, range, skip_absent) is None ==> forall|j: int|
            0 <= j < versions.len() ==> !#[trigger] offerable(versions, range, skip_absent, j),
    decreases versions.len(),
{
    if versions.len() > 0 {
        let rest = versions.drop_first();
        lemma_first_held_is_earliest(rest, range, skip_absent);
        assert forall|j: int| 0 <= j < rest.len() implies #[trigger] offerable(rest, range, skip_absent, j)
            == offerable(versions, range, skip_absent, j + 1) by {
            assert(rest[j] == versions[j + 1]);
        }
        if offerable(versions, range, skip_absent, 0) {
            assert(versions[0] == first_held(versions, range, skip_absent)->Some_0);
        } else if let Some(v) = first_held(versions, range, skip_absent) {
            let k = choose|k: int|
                0 <= k < rest.len() && rest[k] == v && #[trigger] offerable(rest, range, skip_absent, k) && forall|
                    j: int,
                | 0 <= j < k ==> !#[trigger] offerable(rest, range, skip_absent, j);
            assert(offerable(versions, range, skip_absent, k + 1));
            assert forall|j: int| 0 <= j < k + 1 implies !#[trigger] offerable(versions, range, skip_absent, j) by {
                if j > 0 {
                    assert(!offerable(rest, range, skip_absent, j - 1));
                }
            }
        } else {
            assert forall|j: int| 0 <= j < versions.len() implies !#[trigger] offerable(
                versions,
                range,
                skip_absent,
                j,
            ) by {
                if j > 0 {
                    assert(!offerable(rest, range, skip_absent, j - 1));
                }
            }
        }
    }
}

/// The version offered for a package listed with `versions` is the earliest listed one
/// (the newest, as releases are listed) that the range holds, other than the absence;
/// the absence is offered only when the range holds no other listed version and holds
/// the absence; nothing is offered when the range holds no listed version.
pub proof fn lemma_chosen_version_earliest(versions: Seq<VersionKey>, range: SetModel)
    ensures
        chosen_version(Some(versions), range) matches Some(v) ==> exists|i: int|
            0 <= i < versions.len() && versions[i] == v && range.has(v) && (v is Absent ==> forall|j: int|
                0 <= j < versions.len() ==> !#[trigger] offerable(versions, range, true, j)) && forall|j: int|
                0 <= j < i ==> !#[trigger] offerable(versions, range, true, j) && !(v is Absent && range.has(
                    versions[j],
                )),
        chosen_version(Some(versions), range) is None ==> forall|j: int|
            0 <= j < versions.len() ==> !range.has(#[trigger] versions[j]),
{
    lemma_first_held_is_earliest(versions, range, true);
    lemma_first_held_is_earliest(versions, range, false);
    if first_held(versions, range, true) is None {
        assert forall|j: int| 0 <= j < versions.len() implies !#[trigger] offerable(versions, range, true, j) by {}
        if let Some(v) = first_held(versions, range, false) {
            let i = choose|i: int|
                0 <= i < versions.len() && versions[i] == v && #[trigger] offerable(versions, range, false, i)
                    && forall|j: int| 0 <= j < i ==> !#[trigger] offerable(versions, range, false, j);
            assert(v is Absent) by {
                assert(!offerable(versions, range, true, i));
            }
            assert forall|j: int| 0 <= j < i implies !#[trigger] offerable(versions, range, true, j) && !(
            v is Absent && range.has(versions[j])) by {
                assert(!offerable(versions, range, false, j));
            }
        } else {
            assert forall|j: int| 0 <= j < versions.len() implies !range.has(#[trigger] versions[j]) by {
                assert(!offerable(versions, range, false, j));
            }
        }
    } else {
        let v = first_held(versions, range, true)->Some_0;
        let i = choose|i: int|
            0 <= i < versions.len() && versions[i] == v && #[trigger] offerable(versions, range, true, i) && forall|
                j: int,
            | 0 <= j < i ==> !#[trigger] offerable(versions, range, true, j);
        assert(!(v is Absent));
        assert(range.has(v));
    }
}

/// The version the solver tries: the first one in the range that is not the absence,
/// else the first in the range.
pub open spec fn chosen_version(versions: Option<Seq<VersionKey>>, range: SetModel) -> Option<VersionKey> {
    match versions {
        None => None,
        Some(vs) => match first_held(vs, range, true) {
            Some(k) => Some(k),
            None => first_held(vs, range, false),
        },
    }
}

/// Whether two packages are the same.
pub fn package_equals(a: &PubGrubPackage, b: &PubGrubPackage) -> (r: bool)
    ensures
        r == (package_key(*a) == package_key(*b)),
{
    match (a, b) {
        (PubGrubPackage::Root, PubGrubPackage::Root) => true,
        (PubGrubPackage::Package(x), PubGrubPackage::Package(y)) => str_eq(x.as_str(), y.as_str()),
        _ => false,
    }
}

/// A copy of a list of dependencies.
fn clone_dependencies(deps: &Vec<(PubGrubPackage, DiscreteVersionSet)>) -> (r: Vec<
    (PubGrubPackage, DiscreteVersionSet),
>)
    ensures
        deps_view(r@) == deps_view(deps@),
{
    let mut out: Vec<(PubGrubPackage, DiscreteVersionSet)> = Vec::new();
    let mut i: usize = 0;
    while i < deps.len()
        invariant
            i <= deps@.len(),
            deps_view(out@) == deps_view(deps@).take(i as int),
        decreases deps@.len() - i,
    {
        let d = (deps[i].0.clone(), deps[i].1.clone());
        let ghost before = out@;
        out.push(d);
        assert(deps_view(out@) =~= deps_view(before).push((package_key(d.0), d.1@)));
        assert(deps_view(deps@).take(i + 1) =~= deps_view(deps@).take(i as int).push(
            (package_key(d.0), d.1@),
        ));
        i = i + 1;
    }
    assert(deps_view(deps@).take(deps@.len() as int) =~= deps_view(deps@));
    out
}

impl SolverTables {
    /// The tables of a problem; fails when a release's version cannot be checked
    /// against a constraint it is asked about.
    pub fn new(problem: &ResolutionProblem) -> (r: Result<SolverTables, ConcertoError>)
        requires
            releases_well_formed(problem.releases@),
        ensures
            r matches Ok(tables) ==> tables_for(tables, *problem),
            r is Err ==> !problem_checkable(problem.root_requirements@, problem.releases@),
    {
        let dependencies = dependencies_table(&problem.root_requirements, &problem.releases)?;
        let versions = versions_table(&problem.releases);
        Ok(SolverTables { versions, dependencies })
    }

    /// The versions of `package`, if the tables list it.
    pub fn versions_of(&self, package: &PubGrubPackage) -> (r: Option<&Vec<PubGrubVersion>>)
        ensures
            match r {
                Some(vs) => assoc_lookup(versions_model(self.versions@), package_key(*package))
                    == Some(version_keys(vs@)),
                None => assoc_lookup(versions_model(self.versions@), package_key(*package)) is None,
            },
    {
        let ghost model = versions_model(self.versions@);
        let mut i: usize = 0;
        while i < self.versions.len()
            invariant
                i <= self.versions@.len(),
                model == versions_model(self.versions@),
                forall|j: int| 0 <= j < i ==> #[trigger] model[j].0 != package_key(*package),
            decreases self.versions@.len() - i,
        {
            if package_equals(&self.versions[i].0, package) {
                proof {
                    lemma_assoc_at(model, package_key(*package), i as int);
                }
                return Some(&self.versions[i].1);
            }
            i = i + 1;
        }
        proof {
            lemma_assoc_none(model, package_key(*package));
        }
        None
    }

    /// How urgently to decide `package`: a package with no version in `range` first,
    /// then by how often it took part in a conflict, then fewer versions first (the
    /// solver orders the second field in reverse).
    pub fn prioritize(&self, package: &PubGrubPackage, range: &DiscreteVersionSet, conflict_count: u32) -> (r:
        (u32, usize))
        ensures
            ({
                let held = match assoc_lookup(versions_model(self.versions@), package_key(*package)) {
                    Some(vs) => count_held(vs, range@),
                    None => 0,
                };
                r == if held == 0 {
                    (u32::MAX, 0usize)
                } else {
                    (conflict_count, held as usize)
                }
            }),
    {
        let count = match self.versions_of(package) {
            None => 0,
            Some(versions) => {
                let mut count: usize = 0;
                let mut i: usize = 0;
                while i < versions.len()
                    invariant
                        i <= versions@.len(),
                        count == count_held(version_keys(versions@).take(i as int), range@),
                        count <= i,
                    decreases versions@.len() - i,
                {
                    assert(version_keys(versions@).take(i + 1).drop_last() =~= version_keys(
                        versions@,
                    ).take(i as int));
                    if range.contains(&versions[i]) {
                        count = count + 1;
                    }
                    i = i + 1;
                }
                assert(version_keys(versions@).take(versions@.len() as int) =~= version_keys(
                    versions@,
                ));
                count
            },
        };
        if count == 0 {
            return (u32::MAX, 0);
        }
        (conflict_count, count)
    }

    /// The version to try for `package` within `range`.
    pub fn choose_version(&self, package: &PubGrubPackage, range: &DiscreteVersionSet) -> (r: Option<
        PubGrubVersion,
    >)
        ensures
            match r {
                Some(v) => chosen_version(
                    assoc_lookup(versions_model(self.versions@), package_key(*package)),
                    range@,
                ) == Some(v@),
                None => chosen_version(
                    assoc_lookup(versions_model(self.versions@), package_key(*package)),
                    range@,
                ) is None,
            },
            match assoc_lookup(versions_model(self.versions@), package_key(*package)) {
                None => r is None,
                Some(keys) => match r {
                    Some(v) => exists|i: int|
                        0 <= i < keys.len() && keys[i] == v@ && range@.has(v@) && (v@ is Absent ==> forall|j: int|
                            0 <= j < keys.len() ==> !#[trigger] offerable(keys, range@, true, j)) && forall|j: int|
                            0 <= j < i ==> !#[trigger] offerable(keys, range@, true, j) && !(v@ is Absent
                                && range@.has(keys[j])),
                    None => forall|j: int| 0 <= j < keys.len() ==> !range@.has(#[trigger] keys[j]),
                },
            },
    {
        let r = self.first_offered(package, range);
        proof {
            match assoc_lookup(versions_model(self.versions@), package_key(*package)) {
                None => {},
                Some(keys) => {
                    lemma_chosen_version_earliest(keys, range@);
                },
            }
        }
        r
    }

    /// The first version in `range` listed for `package`, not the absence where another
    /// one is in range.
    fn first_offered(&self, package: &PubGrubPackage, range: &DiscreteVersionSet) -> (r: Option<
        PubGrubVersion,
    >)
        ensures
            match r {
                Some(v) => chosen_version(
                    assoc_lookup(versions_model(self.versions@), package_key(*package)),
                    range@,
                ) == Some(v@),
                None => chosen_version(
                    assoc_lookup(versions_model(self.versions@), package_key(*package)),
                    range@,
                ) is None,
            },
    {
        let versions = match self.versions_of(package) {
            None => {
                return None;
            },
            Some(versions) => versions,
        };
        let ghost keys = version_keys(versions@);
        let mut i: usize = 0;
        assert(keys.skip(0) =~= keys);
        while i < versions.len()
            invariant
                i <= versions@.len(),
                keys == version_keys(versions@),
                assoc_lookup(versions_model(self.versions@), package_key(*package)) == Some(keys),
                first_held(keys, range@, true) == first_held(keys.skip(i as int), range@, true),
            decreases versions@.len() - i,
        {
            assert(keys.skip(i as int)[0] == keys[i as int]);
            assert(keys.skip(i as int).drop_first() =~= keys.skip(i + 1));
            let is_absent = match &versions[i] {
                PubGrubVersion::Absent => true,
                _ => false,
            };
            if range.contains(&versions[i]) && !is_absent {
                let chosen = versions[i].clone();
                assert(chosen@ == keys[i as int]);
                return Some(chosen);
            }
            i = i + 1;
        }
        assert(keys.skip(i as int) =~= Seq::<VersionKey>::empty());
        let mut k: usize = 0;
        while k < versions.len()
            invariant
                k <= versions@.len(),
                keys == version_keys(versions@),
                assoc_lookup(versions_model(self.versions@), package_key(*package)) == Some(keys),
                first_held(keys, range@, true) is None,
                first_held(keys, range@, false) == first_held(keys.skip(k as int), range@, false),
            decreases versions@.len() - k,
        {
            assert(keys.skip(k as int)[0] == keys[k as int]);
            assert(keys.skip(k as int).drop_first() =~= keys.skip(k + 1));
            if range.contains(&versions[k]) {
                let chosen = versions[k].clone();
                assert(chosen@ == keys[k as int]);
                return Some(chosen);
            }
            k = k + 1;
        }
        assert(keys.skip(k as int) =~= Seq::<VersionKey>::empty());
        None
    }

    /// The dependencies of `package` at `version`, if the tables list them.
    pub fn get_dependencies(&self, package: &PubGrubPackage, version: &PubGrubVersion) -> (r: Option<
        Vec<(PubGrubPackage, DiscreteVersionSet)>,
    >)
        ensures
            match assoc_lookup(
                dependencies_model(self.dependencies@),
                (package_key(*package), version@),
            ) {
                Some(deps) => r matches Some(found) && deps_view(found@) == deps_view(deps),
                None => r is None,
            },
    {
        let ghost model = dependencies_model(self.dependencies@);
        let ghost wanted = (package_key(*package), version@);
        let mut i: usize = 0;
        while i < self.dependencies.len()
            invariant
                i <= self.dependencies@.len(),
                model == dependencies_model(self.dependencies@),
                wanted == (package_key(*package), version@),
                forall|j: int| 0 <= j < i ==> #[trigger] model[j].0 != wanted,
            decreases self.dependencies@.len() - i,
        {
            let entry = &self.dependencies[i];
            if package_equals(&entry.0.0, package) && crate::version_set::version_equals(
                &entry.0.1,
                version,
            ) {
                proof {
                    lemma_assoc_at(model, wanted, i as int);
                }
                return Some(clone_dependencies(&entry.1));
            }
            i = i + 1;
        }
        proof {
            lemma_assoc_none(model, wanted);
        }
        None
    }
}

// ---------------------------------------------------------------------------
// Sizes of the tables
// ---------------------------------------------------------------------------

/// A count, or `usize::MAX` where it does not fit.
pub open spec fn capped(n: nat) -> usize {
    if n <= usize::MAX {
        n as usize
    } else {
        usize::MAX
    }
}

/// How many versions the table lists in all.
pub open spec fn total_versions(model: Seq<(Option<Seq<char>>, Seq<VersionKey>)>) -> nat
    decreases model.len(),
{
    if model.len() == 0 {
        0
    } else {
        total_versions(model.drop_last()) + model.last().1.len()
    }
}

/// How many `Provided` versions a list holds.
pub open spec fn provided_count(versions: Seq<VersionKey>) -> nat
    decreases versions.len(),
{
    if versions.len() == 0 {
        0
    } else {
        provided_count(versions.drop_last()) + if versions.last() is Provided {
            1nat
        } else {
            0nat
        }
    }
}

/// How many `Provided` versions the table lists in all.
pub open spec fn total_provided(model: Seq<(Option<Seq<char>>, Seq<VersionKey>)>) -> nat
    decreases model.len(),
{
    if model.len() == 0 {
        0
    } else {
        total_provided(model.drop_last()) + provided_count(model.last().1)
    }
}

/// How many dependencies the table lists in all.
pub open spec fn total_dependencies(
    model: Seq<((Option<Seq<char>>, VersionKey), Seq<(PubGrubPackage, DiscreteVersionSet)>)>,
) -> nat
    decreases model.len(),
{
    if model.len() == 0 {
        0
    } else {
        total_dependencies(model.drop_last()) + model.last().1.len()
    }
}

impl SolverTables {
    /// How many versions the tables list.
    pub fn version_count(&self) -> (r: usize)
        ensures
            r == capped(total_versions(versions_model(self.versions@))),
    {
        let ghost model = versions_model(self.versions@);
        let mut total: usize = 0;
        let mut i: usize = 0;
        while i < self.versions.len()
            invariant
                i <= self.versions@.len(),
                model == versions_model(self.versions@),
                total == capped(total_versions(model.take(i as int))),
            decreases self.versions@.len() - i,
        {
            assert(model.take(i + 1).drop_last() =~= model.take(i as int));
            assert(model[i as int].1.len() == self.versions@[i as int].1@.len());
            total = total.saturating_add(self.versions[i].1.len());
            i = i + 1;
        }
        assert(model.take(model.len() as int) =~= model);
        total
    }

    /// How many dependencies the tables list.
    pub fn dependency_count(&self) -> (r: usize)
        ensures
            r == capped(total_dependencies(dependencies_model(self.dependencies@))),
    {
        let ghost model = dependencies_model(self.dependencies@);
        let mut total: usize = 0;
        let mut i: usize = 0;
        while i < self.dependencies.len()
            invariant
                i <= self.dependencies@.len(),
                model == dependencies_model(self.dependencies@),
                total == capped(total_dependencies(model.take(i as int))),
            decreases self.dependencies@.len() - i,
        {
            assert(model.take(i + 1).drop_last() =~= model.take(i as int));
            total = total.saturating_add(self.dependencies[i].1.len());
            i = i + 1;
        }
        assert(model.take(model.len() as int) =~= model);
        total
    }

    /// How many versions of the tables are capabilities.
    pub fn provider_version_count(&self) -> (r: usize)
        ensures
            r == capped(total_provided(versions_model(self.versions@))),
    {
        let ghost model = versions_model(self.versions@);
        let mut total: usize = 0;
        let mut i: usize = 0;
        while i < self.versions.len()
            invariant
                i <= self.versions@.len(),
                model == versions_model(self.versions@),
                total == capped(total_provided(model.take(i as int))),
            decreases self.versions@.len() - i,
        {
            assert(model.take(i + 1).drop_last() =~= model.take(i as int));
            let versions = &self.versions[i].1;
            let ghost keys = version_keys(versions@);
            let mut j: usize = 0;
            let ghost base = total_provided(model.take(i as int));
            while j < versions.len()
                invariant
                    j <= versions@.len(),
                    keys == version_keys(versions@),
                    total == capped(base + provided_count(keys.take(j as int))),
                decreases versions@.len() - j,
            {
                assert(keys.take(j + 1).drop_last() =~= keys.take(j as int));
                if let PubGrubVersion::Provided { .. } = &versions[j] {
                    total = total.saturating_add(1);
                }
                j = j + 1;
            }
            assert(keys.take(keys.len() as int) =~= keys);
            i = i + 1;
        }
        assert(model.take(model.len() as int) =~= model);
        total
    }
}

} // verus!
