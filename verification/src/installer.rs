//! What the installer decides between resolving and installing: which packages the
//! production graph needs, the lockfile it writes, what an install without
//! `require-dev` keeps, and the platform checks run before anything is linked.

use vstd::prelude::*;
use crate::composer::{ComposerRepository, RequiredPackage};
use crate::error::{views, ConcertoError};
use crate::lockfile::{
    lemma_root_manifest_hash_ignores_requirement_order, lockfile_error_spec, requirement_pairs,
    root_manifest_hash, root_manifest_hash_spec, LockedPackage, Lockfile, LOCKFILE_VERSION,
};
use crate::order::{distinct, text_less, text_lt};
use crate::packagist::opt_view;
use crate::platform::{validate, validate_ok, Platform};
use crate::resolver::{entry_names, names_unique, ResolvedPackageEntry};
use crate::text::{concat2, str_eq};

verus! {

broadcast use vstd::seq_lib::lemma_seq_contains_after_push;

// ---------------------------------------------------------------------------
// Which packages a requirement selects
// ---------------------------------------------------------------------------

/// The package `name` satisfies `requirement`: it is that package, or provides or
/// replaces it.
pub open spec fn package_satisfies(name: Seq<char>, package: ResolvedPackageEntry, requirement: RequiredPackage) -> bool {
    name == requirement.name@ || exists|i: int|
        0 <= i < (package.provides@ + package.replaces@).len() && #[trigger] (package.provides@
            + package.replaces@)[i].name@ == requirement.name@
}

/// Whether the package `name` satisfies `requirement`.
pub fn package_satisfies_requirement(
    name: &str,
    package: &ResolvedPackageEntry,
    requirement: &RequiredPackage,
) -> (r: bool)
    ensures
        r == package_satisfies(name@, *package, *requirement),
{
    if str_eq(name, requirement.name.as_str()) {
        return true;
    }
    let ghost caps = package.provides@ + package.replaces@;
    let mut i: usize = 0;
    while i < package.provides.len()
        invariant
            i <= package.provides@.len(),
            caps == package.provides@ + package.replaces@,
            forall|j: int| 0 <= j < i ==> #[trigger] caps[j].name@ != requirement.name@,
        decreases package.provides@.len() - i,
    {
        assert(caps[i as int] == package.provides@[i as int]);
        if str_eq(package.provides[i].name.as_str(), requirement.name.as_str()) {
            return true;
        }
        i = i + 1;
    }
    let mut k: usize = 0;
    while k < package.replaces.len()
        invariant
            k <= package.replaces@.len(),
            caps == package.provides@ + package.replaces@,
            forall|j: int|
                0 <= j < package.provides@.len() + k ==> #[trigger] caps[j].name@ != requirement.name@,
        decreases package.replaces@.len() - k,
    {
        assert(caps[package.provides@.len() + k] == package.replaces@[k as int]);
        if str_eq(package.replaces[k].name.as_str(), requirement.name.as_str()) {
            return true;
        }
        k = k + 1;
    }
    false
}

/// Some resolved package named `name` satisfies `requirement`.
pub open spec fn selected_by(
    resolved: Seq<(String, ResolvedPackageEntry)>,
    requirement: RequiredPackage,
    name: Seq<char>,
) -> bool {
    exists|i: int|
        0 <= i < resolved.len() && #[trigger] resolved[i].0@ == name && package_satisfies(
            name,
            resolved[i].1,
            requirement,
        )
}

/// The resolved packages that satisfy `requirement`, in order.
pub fn selected_package_names(
    requirement: &RequiredPackage,
    resolved: &Vec<(String, ResolvedPackageEntry)>,
) -> (r: Vec<String>)
    ensures
        forall|n: Seq<char>| #[trigger] views(r@).contains(n) <==> selected_by(resolved@, *requirement, n),
{
    let mut names: Vec<String> = Vec::new();
    let mut i: usize = 0;
    while i < resolved.len()
        invariant
            i <= resolved@.len(),
            forall|n: Seq<char>| #[trigger] views(names@).contains(n) <==> selected_by(
                resolved@.take(i as int),
                *requirement,
                n,
            ),
        decreases resolved@.len() - i,
    {
        let ghost before = views(names@);
        let satisfied = package_satisfies_requirement(resolved[i].0.as_str(), &resolved[i].1, requirement);
        if satisfied {
            names.push(resolved[i].0.clone());
        }
        proof {
            let t = resolved@.take(i + 1);
            let s = resolved@.take(i as int);
            assert forall|n: Seq<char>| #[trigger] views(names@).contains(n) <==> selected_by(t, *requirement, n) by {
                if satisfied {
                    assert(views(names@) =~= before.push(resolved@[i as int].0@));
                } else {
                    assert(views(names@) =~= before);
                }
                if selected_by(t, *requirement, n) {
                    let j = choose|j: int| 0 <= j < t.len() && #[trigger] t[j].0@ == n && package_satisfies(n, t[j].1, *requirement);
                    if j < i {
                        assert(s[j] == t[j]);
                    }
                }
                if selected_by(s, *requirement, n) {
                    let j = choose|j: int| 0 <= j < s.len() && #[trigger] s[j].0@ == n && package_satisfies(n, s[j].1, *requirement);
                    assert(t[j] == s[j]);
                }
                if satisfied && n == resolved@[i as int].0@ {
                    assert(t[i as int] == resolved@[i as int]);
                }
            }
        }
        i = i + 1;
    }
    assert(resolved@.take(resolved@.len() as int) =~= resolved@);
    names
}

/// Some root requirement selects `name`.
pub open spec fn root_selects(
    roots: Seq<RequiredPackage>,
    resolved: Seq<(String, ResolvedPackageEntry)>,
    name: Seq<char>,
) -> bool {
    exists|q: int| 0 <= q < roots.len() && #[trigger] selected_by(resolved, roots[q], name)
}

/// `parent` is a resolved package and one of its requirements selects `child`.
pub open spec fn requires_select(
    resolved: Seq<(String, ResolvedPackageEntry)>,
    parent: Seq<char>,
    child: Seq<char>,
) -> bool {
    exists|k: int, l: int|
        0 <= k < resolved.len() && resolved[k].0@ == parent && 0 <= l
            < resolved[k].1.package_requires@.len() && #[trigger] selected_by(
            resolved,
            resolved[k].1.package_requires@[l],
            child,
        )
}

/// Every name is selected by a root requirement or by a requirement of a name before it.
pub open spec fn production_justified(
    roots: Seq<RequiredPackage>,
    resolved: Seq<(String, ResolvedPackageEntry)>,
    names: Seq<Seq<char>>,
) -> bool {
    forall|i: int|
        0 <= i < names.len() ==> root_selects(roots, resolved, #[trigger] names[i]) || exists|j: int|
            0 <= j < i && requires_select(resolved, #[trigger] names[j], names[i])
}

/// The names hold what the root requirements select and what the requirements of each
/// name select.
pub open spec fn production_closed(
    roots: Seq<RequiredPackage>,
    resolved: Seq<(String, ResolvedPackageEntry)>,
    names: Seq<Seq<char>>,
) -> bool {
    &&& forall|n: Seq<char>| #[trigger] root_selects(roots, resolved, n) ==> names.contains(n)
    &&& forall|p: Seq<char>, n: Seq<char>|
        names.contains(p) && #[trigger] requires_select(resolved, p, n) ==> names.contains(n)
}

/// Appends the names `requirement` selects to `pending`.
fn push_selected(
    pending: &mut Vec<String>,
    requirement: &RequiredPackage,
    resolved: &Vec<(String, ResolvedPackageEntry)>,
)
    ensures
        forall|n: Seq<char>| #[trigger] views(final(pending)@).contains(n) <==> views(old(pending)@).contains(n)
            || selected_by(resolved@, *requirement, n),
{
    let names = selected_package_names(requirement, resolved);
    let ghost before = views(pending@);
    let mut i: usize = 0;
    while i < names.len()
        invariant
            i <= names@.len(),
            forall|n: Seq<char>| #[trigger] views(pending@).contains(n) <==> before.contains(n)
                || views(names@).take(i as int).contains(n),
        decreases names@.len() - i,
    {
        let ghost prev = views(pending@);
        pending.push(names[i].clone());
        proof {
            assert(views(pending@) =~= prev.push(names@[i as int]@));
            assert(views(names@).take(i + 1) =~= views(names@).take(i as int).push(names@[i as int]@));
        }
        i = i + 1;
    }
    assert(views(names@).take(names@.len() as int) =~= views(names@));
}

proof fn lemma_has_name_contains(list: Seq<String>, name: Seq<char>)
    ensures
        crate::platform::has_name(list, name) <==> views(list).contains(name),
{
    if crate::platform::has_name(list, name) {
        let i = choose|i: int| 0 <= i < list.len() && list[i]@ == name;
        assert(views(list)[i] == name);
    }
    if views(list).contains(name) {
        let i = choose|i: int| 0 <= i < views(list).len() && views(list)[i] == name;
        assert(list[i]@ == name);
    }
}

/// The packages the production graph needs: what the root requirements select, and
/// transitively what the requirements of those packages select.
pub fn production_package_names(
    root_requirements: &Vec<RequiredPackage>,
    resolved: &Vec<(String, ResolvedPackageEntry)>,
) -> (r: Vec<String>)
    requires
        names_unique(resolved@),
    ensures
        distinct(views(r@)),
        production_justified(root_requirements@, resolved@, views(r@)),
        production_closed(root_requirements@, resolved@, views(r@)),
{
    let ghost roots = root_requirements@;
    let ghost res = resolved@;
    let mut pending: Vec<String> = Vec::new();
    let mut q: usize = 0;
    while q < root_requirements.len()
        invariant
            q <= root_requirements@.len(),
            roots == root_requirements@,
            res == resolved@,
            forall|n: Seq<char>| #[trigger] views(pending@).contains(n) <==> exists|k: int|
                0 <= k < q && #[trigger] selected_by(res, roots[k], n),
        decreases root_requirements@.len() - q,
    {
        let ghost before = views(pending@);
        push_selected(&mut pending, &root_requirements[q], resolved);
        proof {
            assert forall|n: Seq<char>| #[trigger] views(pending@).contains(n) <==> exists|k: int|
                0 <= k < q + 1 && #[trigger] selected_by(res, roots[k], n) by {
                assert(views(pending@).contains(n) <==> before.contains(n) || selected_by(res, roots[q as int], n));
                if exists|k: int| 0 <= k < q + 1 && #[trigger] selected_by(res, roots[k], n) {
                    let k = choose|k: int| 0 <= k < q + 1 && #[trigger] selected_by(res, roots[k], n);
                    if k < q {
                        assert(before.contains(n));
                    }
                }
            }
        }
        q = q + 1;
    }
    let mut production: Vec<String> = Vec::new();
    while pending.len() > 0
        invariant
            roots == root_requirements@,
            res == resolved@,
            names_unique(res),
            distinct(views(production@)),
            production_justified(roots, res, views(production@)),
            forall|x: Seq<char>| #[trigger] views(pending@).contains(x) ==> root_selects(roots, res, x)
                || exists|j: int|
                0 <= j < production@.len() && requires_select(res, #[trigger] views(production@)[j], x),
            forall|n: Seq<char>| #[trigger] root_selects(roots, res, n) ==> views(production@).contains(n)
                || views(pending@).contains(n),
            forall|p: Seq<char>, n: Seq<char>|
                views(production@).contains(p) && #[trigger] requires_select(res, p, n) ==> views(
                    production@,
                ).contains(n) || views(pending@).contains(n),
        decreases usize::MAX - production@.len(), pending@.len(),
    {
        let ghost before_pending = views(pending@);
        let name = pending.pop().unwrap();
        proof {
            assert(views(pending@) =~= before_pending.drop_last());
            assert forall|x: Seq<char>| #[trigger] before_pending.contains(x) <==> views(pending@).contains(x)
                || x == name@ by {
                if before_pending.contains(x) {
                    let k = choose|k: int| 0 <= k < before_pending.len() && before_pending[k] == x;
                    if k < before_pending.len() - 1 {
                        assert(views(pending@)[k] == x);
                    }
                }
                if views(pending@).contains(x) {
                    let k = choose|k: int| 0 <= k < views(pending@).len() && views(pending@)[k] == x;
                    assert(before_pending[k] == x);
                }
                if x == name@ {
                    assert(before_pending[before_pending.len() - 1] == x);
                }
            }
            assert(before_pending.contains(name@));
        }
        let known = crate::platform::contains_name(&production, name.as_str());
        proof {
            lemma_has_name_contains(production@, name@);
        }
        if known {
            proof {
                assert forall|x: Seq<char>| #[trigger] views(pending@).contains(x) implies root_selects(roots, res, x)
                    || exists|j: int|
                    0 <= j < production@.len() && requires_select(res, #[trigger] views(production@)[j], x) by {
                    assert(before_pending.contains(x));
                }
                assert forall|n: Seq<char>| #[trigger] root_selects(roots, res, n) implies views(production@).contains(n)
                    || views(pending@).contains(n) by {
                    assert(before_pending.contains(n) ==> views(pending@).contains(n) || n == name@);
                }
                assert forall|p: Seq<char>, n: Seq<char>|
                    views(production@).contains(p) && #[trigger] requires_select(res, p, n) implies views(
                        production@,
                    ).contains(n) || views(pending@).contains(n) by {
                    assert(before_pending.contains(n) ==> views(pending@).contains(n) || n == name@);
                }
            }
            continue;
        }
        let ghost before_production = views(production@);
        let ghost at = before_production.len() as int;
        production.push(name.clone());
        let ghost pr = views(production@);
        proof {
            assert(pr =~= before_production.push(name@));
            assert(pr[at] == name@);
            assert(root_selects(roots, res, name@) || exists|j: int|
                0 <= j < before_production.len() && requires_select(res, #[trigger] before_production[j], name@));
            assert forall|i: int| 0 <= i < pr.len() implies root_selects(roots, res, #[trigger] pr[i]) || exists|j: int|
                0 <= j < i && requires_select(res, #[trigger] pr[j], pr[i]) by {
                if i < at {
                    assert(pr[i] == before_production[i]);
                    if !root_selects(roots, res, pr[i]) {
                        let j = choose|j: int| 0 <= j < i && requires_select(res, #[trigger] before_production[j], before_production[i]);
                        assert(pr[j] == before_production[j]);
                    }
                } else {
                    if !root_selects(roots, res, pr[i]) {
                        let j = choose|j: int| 0 <= j < before_production.len() && requires_select(res, #[trigger] before_production[j], name@);
                        assert(pr[j] == before_production[j]);
                    }
                }
            }
            assert forall|i: int, j: int| 0 <= i < j < pr.len() implies #[trigger] pr[i] != #[trigger] pr[j] by {
                if j == at {
                    assert(pr[i] == before_production[i]);
                    assert(before_production.contains(pr[i]));
                } else {
                    assert(pr[i] == before_production[i] && pr[j] == before_production[j]);
                }
            }
            assert forall|x: Seq<char>| #[trigger] before_production.contains(x) implies pr.contains(x) by {
                let k = choose|k: int| 0 <= k < before_production.len() && before_production[k] == x;
                assert(pr[k] == x);
            }
            assert(pr.contains(name@));
        }
        let mut k: usize = 0;
        while k < resolved.len() && !str_eq(resolved[k].0.as_str(), name.as_str())
            invariant
                k <= resolved@.len(),
                forall|j: int| 0 <= j < k ==> #[trigger] resolved@[j].0@ != name@,
            decreases resolved@.len() - k,
        {
            k = k + 1;
        }
        let ghost mid_pending = views(pending@);
        if k < resolved.len() {
            let package = &resolved[k].1;
            let mut l: usize = 0;
            while l < package.package_requires.len()
                invariant
                    l <= package.package_requires@.len(),
                    res == resolved@,
                    *package == res[k as int].1,
                    forall|x: Seq<char>| #[trigger] mid_pending.contains(x) ==> views(pending@).contains(x),
                    forall|x: Seq<char>| #[trigger] views(pending@).contains(x) ==> mid_pending.contains(x) || exists|l2: int|
                        0 <= l2 < l && #[trigger] selected_by(res, package.package_requires@[l2], x),
                    forall|l2: int, x: Seq<char>|
                        0 <= l2 < l && #[trigger] selected_by(res, package.package_requires@[l2], x) ==> views(pending@).contains(x),
                decreases package.package_requires@.len() - l,
            {
                let ghost prev = views(pending@);
                push_selected(&mut pending, &package.package_requires[l], resolved);
                proof {
                    assert forall|x: Seq<char>| #[trigger] views(pending@).contains(x) implies mid_pending.contains(x) || exists|l2: int|
                        0 <= l2 < l + 1 && #[trigger] selected_by(res, package.package_requires@[l2], x) by {
                        if !prev.contains(x) {
                            assert(selected_by(res, package.package_requires@[l as int], x));
                        }
                    }
                }
                l = l + 1;
            }
            proof {
                assert forall|x: Seq<char>| #[trigger] views(pending@).contains(x) implies root_selects(roots, res, x)
                    || exists|j: int|
                    0 <= j < production@.len() && requires_select(res, #[trigger] views(production@)[j], x) by {
                    if mid_pending.contains(x) {
                        assert(before_pending.contains(x));
                        if !root_selects(roots, res, x) {
                            let j = choose|j: int| 0 <= j < before_production.len() && requires_select(res, #[trigger] before_production[j], x);
                            assert(pr[j] == before_production[j]);
                        }
                    } else {
                        let l2 = choose|l2: int| 0 <= l2 < package.package_requires@.len() && #[trigger] selected_by(res, package.package_requires@[l2], x);
                        assert(requires_select(res, name@, x)) by {
                            assert(res[k as int].0@ == name@);
                        }
                        assert(requires_select(res, pr[at], x));
                    }
                }
                assert forall|p: Seq<char>, n: Seq<char>|
                    pr.contains(p) && #[trigger] requires_select(res, p, n) implies pr.contains(n) || views(pending@).contains(n) by {
                    if p == name@ {
                        let (k2, l2) = choose|k2: int, l2: int|
                            0 <= k2 < res.len() && res[k2].0@ == p && 0 <= l2
                                < res[k2].1.package_requires@.len() && #[trigger] selected_by(
                                res,
                                res[k2].1.package_requires@[l2],
                                n,
                            );
                        assert(k2 == k) by {
                            if k2 != k {
                                if k2 < k {
                                    assert(res[k2].0@ != name@);
                                } else {
                                    assert(res[k as int].0@ != res[k2].0@);
                                }
                            }
                        }
                    } else {
                        assert(before_production.contains(p)) by {
                            let i = choose|i: int| 0 <= i < pr.len() && pr[i] == p;
                            assert(i < at);
                            assert(before_production[i] == p);
                        }
                        assert(before_pending.contains(n) ==> mid_pending.contains(n) || n == name@);
                    }
                }
                assert forall|n: Seq<char>| #[trigger] root_selects(roots, res, n) implies pr.contains(n)
                    || views(pending@).contains(n) by {
                    assert(before_pending.contains(n) ==> mid_pending.contains(n) || n == name@);
                }
            }
        } else {
            proof {
                assert forall|x: Seq<char>| #[trigger] views(pending@).contains(x) implies root_selects(roots, res, x)
                    || exists|j: int|
                    0 <= j < production@.len() && requires_select(res, #[trigger] views(production@)[j], x) by {
                    assert(before_pending.contains(x));
                    if !root_selects(roots, res, x) {
                        let j = choose|j: int| 0 <= j < before_production.len() && requires_select(res, #[trigger] before_production[j], x);
                        assert(pr[j] == before_production[j]);
                    }
                }
                assert forall|p: Seq<char>, n: Seq<char>|
                    pr.contains(p) && #[trigger] requires_select(res, p, n) implies pr.contains(n) || views(pending@).contains(n) by {
                    if p == name@ {
                        let (k2, l2) = choose|k2: int, l2: int|
                            0 <= k2 < res.len() && res[k2].0@ == p && 0 <= l2
                                < res[k2].1.package_requires@.len() && #[trigger] selected_by(
                                res,
                                res[k2].1.package_requires@[l2],
                                n,
                            );
                        assert(res[k2].0@ != name@);
                    } else {
                        assert(before_production.contains(p)) by {
                            let i = choose|i: int| 0 <= i < pr.len() && pr[i] == p;
                            assert(before_production[i] == p);
                        }
                        assert(before_pending.contains(n) ==> views(pending@).contains(n) || n == name@);
                    }
                }
                assert forall|n: Seq<char>| #[trigger] root_selects(roots, res, n) implies pr.contains(n)
                    || views(pending@).contains(n) by {
                    assert(before_pending.contains(n) ==> views(pending@).contains(n) || n == name@);
                }
            }
        }
        // A vector's length fits in `usize`, which bounds how often the set can grow.
        assert(production@.len() <= usize::MAX) by {
            let _ = production.len();
        }
    }
    proof {
        assert forall|x: Seq<char>| !(#[trigger] views(pending@).contains(x)) by {}
    }
    production
}

proof fn lemma_justified_in_closed(
    roots: Seq<RequiredPackage>,
    resolved: Seq<(String, ResolvedPackageEntry)>,
    a: Seq<Seq<char>>,
    b: Seq<Seq<char>>,
    i: int,
)
    requires
        production_justified(roots, resolved, a),
        production_closed(roots, resolved, b),
        0 <= i < a.len(),
    ensures
        b.contains(a[i]),
    decreases i,
{
    if !root_selects(roots, resolved, a[i]) {
        let j = choose|j: int| 0 <= j < i && requires_select(resolved, #[trigger] a[j], a[i]);
        lemma_justified_in_closed(roots, resolved, a, b, j);
    }
}

/// The packages the production graph needs are determined by the root requirements
/// and the resolved packages: any two lists that are justified from the roots and
/// closed under requirements hold the same packages.
pub proof fn lemma_production_names_unique(
    roots: Seq<RequiredPackage>,
    resolved: Seq<(String, ResolvedPackageEntry)>,
    a: Seq<Seq<char>>,
    b: Seq<Seq<char>>,
)
    requires
        production_justified(roots, resolved, a),
        production_closed(roots, resolved, a),
        production_justified(roots, resolved, b),
        production_closed(roots, resolved, b),
    ensures
        a.to_set() == b.to_set(),
{
    assert forall|x: Seq<char>| a.contains(x) <==> b.contains(x) by {
        if a.contains(x) {
            let i = choose|i: int| 0 <= i < a.len() && a[i] == x;
            lemma_justified_in_closed(roots, resolved, a, b, i);
        }
        if b.contains(x) {
            let i = choose|i: int| 0 <= i < b.len() && b[i] == x;
            lemma_justified_in_closed(roots, resolved, b, a, i);
        }
    }
    assert(a.to_set() =~= b.to_set());
}

// ---------------------------------------------------------------------------
// The lockfile written after a resolution
// ---------------------------------------------------------------------------

/// The archive integrity recorded for `name`, if any.
pub open spec fn integrity_for(integrities: Seq<(String, String)>, name: Seq<char>) -> Option<Seq<char>>
    decreases integrities.len(),
{
    if integrities.len() == 0 {
        None
    } else if integrities[0].0@ == name {
        Some(integrities[0].1@)
    } else {
        integrity_for(integrities.drop_first(), name)
    }
}

/// The archive integrity recorded for `name`.
pub fn find_integrity<'a>(integrities: &'a Vec<(String, String)>, name: &str) -> (r: Option<&'a String>)
    ensures
        match r {
            Some(v) => integrity_for(integrities@, name@) == Some(v@),
            None => integrity_for(integrities@, name@) is None,
        },
{
    let mut i: usize = 0;
    assert(integrities@.skip(0) =~= integrities@);
    while i < integrities.len()
        invariant
            i <= integrities@.len(),
            integrity_for(integrities@, name@) == integrity_for(integrities@.skip(i as int), name@),
        decreases integrities@.len() - i,
    {
        assert(integrities@.skip(i as int)[0] == integrities@[i as int]);
        assert(integrities@.skip(i as int).drop_first() =~= integrities@.skip(i + 1));
        if str_eq(integrities[i].0.as_str(), name) {
            return Some(&integrities[i].1);
        }
        i = i + 1;
    }
    assert(integrities@.skip(i as int) =~= Seq::<(String, String)>::empty());
    None
}

/// The entry a resolved package gets in the lockfile.
pub open spec fn locked_entry(
    name: Seq<char>,
    package: ResolvedPackageEntry,
    integrity: Seq<char>,
    dev: bool,
    locked: LockedPackage,
) -> bool {
    &&& locked.name@ == name
    &&& locked.version@ == package.version@
    &&& locked.dist_url@ == package.dist_url@
    &&& opt_view(locked.dist_integrity) == Some(integrity)
    &&& opt_view(locked.dist_shasum) == opt_view(package.dist_shasum)
    &&& locked.dev == dev
    &&& locked.package_requires@ == package.package_requires@
    &&& locked.platform_requires@ == package.platform_requires@
}

/// `locked` is the lockfile entry of the resolved package `entry`.
pub open spec fn locked_from(
    integrities: Seq<(String, String)>,
    production: Seq<Seq<char>>,
    entry: (String, ResolvedPackageEntry),
    locked: LockedPackage,
) -> bool {
    match integrity_for(integrities, entry.0@) {
        Some(integrity) => locked_entry(entry.0@, entry.1, integrity, !production.contains(entry.0@), locked),
        None => false,
    }
}

/// Some entry of `packages` is the lockfile entry of `entry`.
pub open spec fn has_locked_entry(
    integrities: Seq<(String, String)>,
    production: Seq<Seq<char>>,
    entry: (String, ResolvedPackageEntry),
    packages: Seq<LockedPackage>,
) -> bool {
    exists|j: int| 0 <= j < packages.len() && #[trigger] locked_from(integrities, production, entry, packages[j])
}

/// `error` is the lockfile error for a package without archive integrity.
pub open spec fn is_missing_integrity(error: ConcertoError, name: Seq<char>) -> bool {
    error matches ConcertoError::Lockfile { message } && message@ == missing_integrity_message(name)
}

/// The message when a resolved package has no recorded archive integrity.
pub open spec fn missing_integrity_message(name: Seq<char>) -> Seq<char> {
    "Missing archive integrity for "@ + name
}

/// The error for a package that has no recorded archive integrity.
pub fn missing_integrity(name: &str) -> (r: ConcertoError)
    ensures
        r matches ConcertoError::Lockfile { message } && message@ == missing_integrity_message(name@),
{
    ConcertoError::lockfile(concat2("Missing archive integrity for ", name))
}

/// The lockfile entries of the resolved packages, in their order.
fn locked_packages(
    resolved: &Vec<(String, ResolvedPackageEntry)>,
    production: &Vec<String>,
    integrities: &Vec<(String, String)>,
) -> (r: Result<Vec<LockedPackage>, ConcertoError>)
    ensures
        match r {
            Ok(packages) => packages@.len() == resolved@.len() && forall|i: int|
                0 <= i < resolved@.len() ==> locked_from(
                    integrities@,
                    views(production@),
                    resolved@[i],
                    #[trigger] packages@[i],
                ),
            Err(error) => exists|i: int|
                0 <= i < resolved@.len() && integrity_for(integrities@, #[trigger] resolved@[i].0@) is None
                    && (forall|j: int|
                    0 <= j < i ==> integrity_for(integrities@, #[trigger] resolved@[j].0@) is Some)
                    && is_missing_integrity(error, resolved@[i].0@),
        },
{
    let mut packages: Vec<LockedPackage> = Vec::new();
    let mut i: usize = 0;
    while i < resolved.len()
        invariant
            i <= resolved@.len(),
            packages@.len() == i,
            forall|j: int|
                0 <= j < i ==> locked_from(
                    integrities@,
                    views(production@),
                    resolved@[j],
                    #[trigger] packages@[j],
                ),
            forall|j: int| 0 <= j < i ==> integrity_for(integrities@, #[trigger] resolved@[j].0@) is Some,
        decreases resolved@.len() - i,
    {
        let name = &resolved[i].0;
        let package = &resolved[i].1;
        let integrity = match find_integrity(integrities, name.as_str()) {
            Some(integrity) => integrity.clone(),
            None => {
                return Err(missing_integrity(name.as_str()));
            },
        };
        let production_package = crate::platform::contains_name(production, name.as_str());
        proof {
            lemma_has_name_contains(production@, name@);
        }
        packages.push(
            LockedPackage {
                name: name.clone(),
                version: package.version.clone(),
                dist_url: package.dist_url.clone(),
                dist_integrity: Some(integrity),
                dist_shasum: match &package.dist_shasum {
                    Some(s) => Some(s.clone()),
                    None => None,
                },
                dev: !production_package,
                package_requires: crate::composer::clone_requirements(&package.package_requires),
                platform_requires: crate::composer::clone_requirements(&package.platform_requires),
            },
        );
        i = i + 1;
    }
    Ok(packages)
}

/// The packages ordered by name.
fn sort_packages_by_name(packages: Vec<LockedPackage>) -> (r: Vec<LockedPackage>)
    requires
        forall|i: int, j: int|
            0 <= i < j < packages@.len() ==> (#[trigger] packages@[i]).name@ != (#[trigger] packages@[j]).name@,
    ensures
        r@.len() == packages@.len(),
        forall|i: int, j: int|
            0 <= i < j < r@.len() ==> text_lt((#[trigger] r@[i]).name@, (#[trigger] r@[j]).name@),
        forall|x: LockedPackage| #[trigger] r@.contains(x) <==> packages@.contains(x),
{
    let ghost all = packages@;
    let mut rest = packages;
    let mut out: Vec<LockedPackage> = Vec::new();
    while rest.len() > 0
        invariant
            rest@.len() + out@.len() == all.len(),
            rest@ == all.take(rest@.len() as int),
            forall|i: int, j: int|
                0 <= i < j < all.len() ==> (#[trigger] all[i]).name@ != (#[trigger] all[j]).name@,
            forall|i: int, j: int|
                0 <= i < j < out@.len() ==> text_lt((#[trigger] out@[i]).name@, (#[trigger] out@[j]).name@),
            forall|x: LockedPackage| #[trigger] out@.contains(x) <==> all.skip(rest@.len() as int).contains(x),
        decreases rest@.len(),
    {
        let ghost n = rest@.len() as int;
        let item = rest.pop().unwrap();
        let mut k: usize = 0;
        while k < out.len() && text_less(out[k].name.as_str(), item.name.as_str())
            invariant
                k <= out@.len(),
                forall|j: int| 0 <= j < k ==> text_lt((#[trigger] out@[j]).name@, item.name@),
            decreases out@.len() - k,
        {
            k = k + 1;
        }
        let ghost before = out@;
        proof {
            assert(item == all[n - 1]);
            assert(all.skip(n - 1) =~= seq![item] + all.skip(n));
            assert forall|j: int| 0 <= j < before.len() implies before[j].name@ != item.name@ by {
                assert(before.contains(before[j]));
                assert(all.skip(n).contains(before[j]));
                let tail = all.skip(n);
                let t = choose|t: int| 0 <= t < tail.len() && tail[t] == before[j];
                assert(all[n + t] == before[j]);
            }
            if k < before.len() {
                crate::order::lemma_text_lt_connected(before[k as int].name@, item.name@);
                assert forall|j: int| k <= j < before.len() implies text_lt(item.name@, #[trigger] before[j].name@) by {
                    if j > k {
                        crate::order::lemma_text_lt_transitive(item.name@, before[k as int].name@, before[j].name@);
                    }
                }
            }
        }
        out.insert(k, item);
        proof {
            let after = out@;
            assert(after =~= before.insert(k as int, item));
            assert forall|i: int, j: int| 0 <= i < j < after.len() implies text_lt(
                (#[trigger] after[i]).name@,
                (#[trigger] after[j]).name@,
            ) by {
                if j < k {
                    assert(after[i] == before[i] && after[j] == before[j]);
                } else if j == k {
                    assert(after[i] == before[i]);
                } else if i == k {
                    assert(after[j] == before[j - 1]);
                } else if i < k {
                    assert(after[i] == before[i] && after[j] == before[j - 1]);
                    crate::order::lemma_text_lt_transitive(before[i].name@, item.name@, before[j - 1].name@);
                } else {
                    assert(after[i] == before[i - 1] && after[j] == before[j - 1]);
                }
            }
            assert forall|x: LockedPackage| #[trigger] after.contains(x) <==> all.skip(n - 1).contains(x) by {
                if after.contains(x) {
                    let i = choose|i: int| 0 <= i < after.len() && after[i] == x;
                    if i < k {
                        assert(before[i] == x);
                        assert(before.contains(x));
                    } else if i > k {
                        assert(before[i - 1] == x);
                        assert(before.contains(x));
                    }
                    if x != item {
                        assert(all.skip(n).contains(x));
                        let tail = all.skip(n);
                        let t = choose|t: int| 0 <= t < tail.len() && tail[t] == x;
                        assert(all.skip(n - 1)[t + 1] == x);
                    } else {
                        assert(all.skip(n - 1)[0] == x);
                    }
                }
                if all.skip(n - 1).contains(x) {
                    let tail = all.skip(n - 1);
                    let t = choose|t: int| 0 <= t < tail.len() && tail[t] == x;
                    if t == 0 {
                        assert(after[k as int] == x);
                    } else {
                        assert(all.skip(n)[t - 1] == x);
                        assert(before.contains(x));
                        let i = choose|i: int| 0 <= i < before.len() && before[i] == x;
                        if i < k {
                            assert(after[i] == x);
                        } else {
                            assert(after[i + 1] == x);
                        }
                    }
                }
            }
            assert(rest@ =~= all.take(n - 1));
        }
    }
    assert(all.skip(0) =~= all);
    out
}

/// Whether a (name, constraint) pair has the name `name`.
pub open spec fn name_is(name: Seq<char>) -> spec_fn((Seq<char>, Seq<char>)) -> bool {
    |p: (Seq<char>, Seq<char>)| p.0 == name
}

/// The (name, constraint) pairs of the requirements named `name`, in order.
pub open spec fn pairs_named(requirements: Seq<RequiredPackage>, name: Seq<char>) -> Seq<
    (Seq<char>, Seq<char>),
> {
    requirement_pairs(requirements).filter(name_is(name))
}

/// Inserting `x` after every name not above its own and before every name above it
/// adds it at the end of its own name's pairs and leaves other names' pairs alone.
proof fn lemma_pairs_named_insert(s: Seq<RequiredPackage>, k: int, x: RequiredPackage, name: Seq<char>)
    requires
        0 <= k <= s.len(),
        forall|j: int| k <= j < s.len() ==> text_lt(x.name@, #[trigger] s[j].name@),
    ensures
        pairs_named(s.insert(k, x), name) == if x.name@ == name {
            pairs_named(s, name).push((x.name@, x.constraint@))
        } else {
            pairs_named(s, name)
        },
{
    broadcast use vstd::seq_lib::group_filter_ensures;

    let f = name_is(name);
    let xp = (x.name@, x.constraint@);
    let a = requirement_pairs(s.take(k));
    let b = requirement_pairs(s.skip(k));
    assert(requirement_pairs(s) =~= a + b);
    assert(requirement_pairs(s.insert(k, x)) =~= a.push(xp) + b);
    Seq::filter_distributes_over_add(a, b, f);
    Seq::filter_distributes_over_add(a.push(xp), b, f);
    a.lemma_filter_push(xp, f);
    if x.name@ == name {
        assert forall|j: int| 0 <= j < b.len() implies !f(#[trigger] b[j]) by {
            assert(b[j].0 == s[k + j].name@);
            crate::order::lemma_text_lt_irreflexive(x.name@);
        }
        b.lemma_all_neg_filter_empty(f);
        assert(b.filter(f) =~= Seq::<(Seq<char>, Seq<char>)>::empty());
        assert(pairs_named(s, name) =~= a.filter(f));
        assert(pairs_named(s.insert(k, x), name) =~= a.filter(f).push(xp));
    }
}

/// The requirements ordered by name; requirements with the same name keep their order.
pub fn sort_requirements_by_name(requirements: Vec<RequiredPackage>) -> (r: Vec<RequiredPackage>)
    ensures
        forall|i: int, j: int|
            0 <= i < j < r@.len() ==> !text_lt((#[trigger] r@[j]).name@, (#[trigger] r@[i]).name@),
        requirement_pairs(r@).to_multiset() == requirement_pairs(requirements@).to_multiset(),
        forall|name: Seq<char>| #[trigger] pairs_named(r@, name) == pairs_named(requirements@, name),
{
    broadcast use vstd::seq_lib::group_to_multiset_ensures;

    let ghost all = requirements@;
    let mut out: Vec<RequiredPackage> = Vec::new();
    let mut n: usize = 0;
    while n < requirements.len()
        invariant
            n <= requirements@.len(),
            all == requirements@,
            forall|i: int, j: int|
                0 <= i < j < out@.len() ==> !text_lt((#[trigger] out@[j]).name@, (#[trigger] out@[i]).name@),
            requirement_pairs(out@).to_multiset() == requirement_pairs(all.take(n as int)).to_multiset(),
            forall|name: Seq<char>| #[trigger] pairs_named(out@, name) == pairs_named(all.take(n as int), name),
        decreases requirements@.len() - n,
    {
        let item = requirements[n].clone();
        let mut k: usize = 0;
        while k < out.len() && !text_less(item.name.as_str(), out[k].name.as_str())
            invariant
                k <= out@.len(),
                forall|j: int| 0 <= j < k ==> !text_lt(item.name@, #[trigger] out@[j].name@),
            decreases out@.len() - k,
        {
            k = k + 1;
        }
        let ghost before = out@;
        let ghost x = item;
        proof {
            if k < before.len() {
                assert forall|j: int| k <= j < before.len() implies text_lt(x.name@, #[trigger] before[j].name@) by {
                    if j > k && before[k as int].name@ != before[j].name@ {
                        crate::order::lemma_text_lt_connected(before[k as int].name@, before[j].name@);
                        crate::order::lemma_text_lt_transitive(x.name@, before[k as int].name@, before[j].name@);
                    }
                }
            }
        }
        out.insert(k, item);
        proof {
            let after = out@;
            assert(after =~= before.insert(k as int, x));
            assert forall|i: int, j: int| 0 <= i < j < after.len() implies !text_lt(
                (#[trigger] after[j]).name@,
                (#[trigger] after[i]).name@,
            ) by {
                if j < k {
                    assert(after[i] == before[i] && after[j] == before[j]);
                } else if j == k {
                    assert(after[i] == before[i]);
                } else if i == k {
                    assert(after[j] == before[j - 1]);
                    crate::order::lemma_text_lt_asymmetric(x.name@, before[j - 1].name@);
                } else if i < k {
                    assert(after[i] == before[i] && after[j] == before[j - 1]);
                } else {
                    assert(after[i] == before[i - 1] && after[j] == before[j - 1]);
                }
            }
            let pb = requirement_pairs(before);
            let xp = (x.name@, x.constraint@);
            assert(requirement_pairs(after) =~= pb.insert(k as int, xp));
            vstd::seq_lib::to_multiset_insert(pb, k as int, xp);
            let tn = requirement_pairs(all.take(n as int));
            assert(requirement_pairs(all.take(n + 1)) =~= tn.push(xp));
            vstd::seq_lib::to_multiset_build(tn, xp);
            assert forall|name: Seq<char>| #[trigger] pairs_named(after, name) == pairs_named(
                all.take(n + 1),
                name,
            ) by {
                lemma_pairs_named_insert(before, k as int, x, name);
                assert(all.take(n + 1) =~= all.take(n as int).push(x));
                assert(requirement_pairs(all.take(n + 1)) =~= tn.push(xp));
                tn.lemma_filter_push(xp, name_is(name));
            }
        }
        n = n + 1;
    }
    assert(all.take(all.len() as int) =~= all);
    out
}

/// `lockfile` is the lockfile of a resolution: version 2, the manifest hash of the root
/// requirements and repositories, the repositories in order, the root requirements
/// sorted by name (those with one name in their given order), and one entry per resolved package, sorted by name, each with its
/// archive integrity and marked `dev` when the production graph does not need it.
pub open spec fn lockfile_built(
    root_requirements: Seq<RequiredPackage>,
    root_repositories: Seq<ComposerRepository>,
    production_requirements: Seq<RequiredPackage>,
    resolved: Seq<(String, ResolvedPackageEntry)>,
    integrities: Seq<(String, String)>,
    lockfile: Lockfile,
) -> bool {
    &&& lockfile.lockfile_version == LOCKFILE_VERSION
    &&& lockfile.root_manifest_hash@ == root_manifest_hash_spec(
        root_requirements,
        root_repositories,
    )
    &&& lockfile_error_spec(lockfile) is None
    &&& lockfile.root_repositories@ == root_repositories
    &&& requirement_pairs(lockfile.root_requirements@).to_multiset() == requirement_pairs(
        root_requirements,
    ).to_multiset()
    &&& forall|i: int, j: int|
        0 <= i < j < lockfile.root_requirements@.len() ==> !text_lt(
            (#[trigger] lockfile.root_requirements@[j]).name@,
            (#[trigger] lockfile.root_requirements@[i]).name@,
        )
    &&& forall|name: Seq<char>|
        #[trigger] pairs_named(lockfile.root_requirements@, name) == pairs_named(root_requirements, name)
    &&& lockfile.packages@.len() == resolved.len()
    &&& forall|i: int, j: int|
        0 <= i < j < lockfile.packages@.len() ==> text_lt(
            (#[trigger] lockfile.packages@[i]).name@,
            (#[trigger] lockfile.packages@[j]).name@,
        )
    &&& exists|production: Seq<Seq<char>>|
        production_justified(production_requirements, resolved, production)
            && production_closed(production_requirements, resolved, production)
            && forall|i: int|
            0 <= i < resolved.len() ==> has_locked_entry(
                integrities,
                production,
                #[trigger] resolved[i],
                lockfile.packages@,
            )
}

/// The lockfile of a resolution: the root requirements sorted by name, the root
/// repositories in order, their manifest hash, and the resolved packages sorted by name,
/// each with its archive integrity and marked `dev` when the production graph does not
/// need it. Fails for the first package without archive integrity.
pub fn build_lockfile(
    root_requirements: Vec<RequiredPackage>,
    root_repositories: Vec<ComposerRepository>,
    production_requirements: &Vec<RequiredPackage>,
    resolved: &Vec<(String, ResolvedPackageEntry)>,
    integrities: &Vec<(String, String)>,
) -> (r: Result<Lockfile, ConcertoError>)
    requires
        names_unique(resolved@),
    ensures
        match r {
            Ok(lockfile) => lockfile_built(
                root_requirements@,
                root_repositories@,
                production_requirements@,
                resolved@,
                integrities@,
                lockfile,
            ),
            Err(error) => exists|i: int|
                0 <= i < resolved@.len() && integrity_for(integrities@, #[trigger] resolved@[i].0@) is None
                    && (forall|j: int|
                    0 <= j < i ==> integrity_for(integrities@, #[trigger] resolved@[j].0@) is Some)
                    && is_missing_integrity(error, resolved@[i].0@),
        },
{
    let production = production_package_names(production_requirements, resolved);
    let unsorted = locked_packages(resolved, &production, integrities)?;
    let ghost listed = unsorted@;
    proof {
        assert forall|i: int, j: int| 0 <= i < j < listed.len() implies (#[trigger] listed[i]).name@
            != (#[trigger] listed[j]).name@ by {
            assert(locked_from(integrities@, views(production@), resolved@[i], listed[i]));
            assert(locked_from(integrities@, views(production@), resolved@[j], listed[j]));
            assert(resolved@[i].0@ != resolved@[j].0@);
        }
    }
    let packages = sort_packages_by_name(unsorted);
    let root_requirements_sorted = sort_requirements_by_name(root_requirements);
    let hash = root_manifest_hash(&root_requirements_sorted, &root_repositories);
    let ghost given = root_requirements@;
    proof {
        lemma_root_manifest_hash_ignores_requirement_order(
            root_requirements_sorted@,
            given,
            root_repositories@,
        );
        assert forall|i: int| 0 <= i < resolved@.len() implies has_locked_entry(
            integrities@,
            views(production@),
            #[trigger] resolved@[i],
            packages@,
        ) by {
            assert(listed.contains(listed[i]));
            assert(packages@.contains(listed[i]));
            let j = choose|j: int| 0 <= j < packages@.len() && packages@[j] == listed[i];
            assert(locked_from(integrities@, views(production@), resolved@[i], packages@[j]));
        }
    }
    Ok(
        Lockfile {
            lockfile_version: LOCKFILE_VERSION,
            root_manifest_hash: hash,
            root_requirements: root_requirements_sorted,
            root_repositories,
            packages,
        },
    )
}

// ---------------------------------------------------------------------------
// Installing without require-dev
// ---------------------------------------------------------------------------

/// The packages that are not `dev`, in order.
pub open spec fn non_dev(packages: Seq<LockedPackage>) -> Seq<LockedPackage>
    decreases packages.len(),
{
    if packages.len() == 0 {
        Seq::empty()
    } else {
        (if packages[0].dev {
            Seq::empty()
        } else {
            seq![packages[0]]
        }) + non_dev(packages.drop_first())
    }
}

/// The lockfile an install acts on: all of it, or without `require-dev` only the
/// packages that are not `dev`.
pub fn active_lockfile(lockfile: Lockfile, include_dev: bool) -> (r: Lockfile)
    ensures
        include_dev ==> r == lockfile,
        !include_dev ==> r.lockfile_version == lockfile.lockfile_version && r.root_manifest_hash
            == lockfile.root_manifest_hash && r.root_requirements == lockfile.root_requirements
            && r.root_repositories == lockfile.root_repositories && r.packages@ == non_dev(
            lockfile.packages@,
        ),
{
    if include_dev {
        return lockfile;
    }
    let Lockfile { lockfile_version, root_manifest_hash, root_requirements, root_repositories, packages } =
        lockfile;
    let ghost all = packages@;
    let mut rest = packages;
    let mut kept: Vec<LockedPackage> = Vec::new();
    proof {
        assert(all.skip(0) =~= all);
    }
    while rest.len() > 0
        invariant
            rest@ == all.skip(all.len() - rest@.len()),
            rest@.len() <= all.len(),
            kept@ + non_dev(rest@) == non_dev(all),
        decreases rest@.len(),
    {
        let ghost before = rest@;
        let package = rest.remove(0);
        proof {
            assert(rest@ =~= before.drop_first());
            assert(before.drop_first() =~= all.skip(all.len() - rest@.len()));
        }
        if !package.dev {
            let ghost prev = kept@;
            kept.push(package);
            assert(kept@ + non_dev(rest@) =~= prev + non_dev(before));
        } else {
            assert(kept@ + non_dev(rest@) =~= kept@ + non_dev(before));
        }
    }
    assert(kept@ =~= kept@ + non_dev(rest@));
    Lockfile { lockfile_version, root_manifest_hash, root_requirements, root_repositories, packages: kept }
}

/// The names of the packages that are not `dev`.
pub open spec fn non_dev_names(packages: Seq<LockedPackage>) -> Seq<Seq<char>> {
    non_dev(packages).map_values(|p: LockedPackage| p.name@)
}

/// Two resolved entries hold the same data.
pub open spec fn same_entry(a: ResolvedPackageEntry, b: ResolvedPackageEntry) -> bool {
    &&& a.version@ == b.version@
    &&& a.dist_url@ == b.dist_url@
    &&& opt_view(a.dist_shasum) == opt_view(b.dist_shasum)
    &&& a.constraints@ == b.constraints@
    &&& a.package_requires@ == b.package_requires@
    &&& a.platform_requires@ == b.platform_requires@
    &&& a.provides@ == b.provides@
    &&& a.replaces@ == b.replaces@
}

/// The resolved packages whose name is among `active`, in order.
pub open spec fn kept_resolved(resolved: Seq<(String, ResolvedPackageEntry)>, active: Seq<Seq<char>>) -> Seq<
    (String, ResolvedPackageEntry),
>
    decreases resolved.len(),
{
    if resolved.len() == 0 {
        Seq::empty()
    } else {
        kept_resolved(resolved.drop_last(), active) + if active.contains(resolved.last().0@) {
            seq![resolved.last()]
        } else {
            Seq::empty()
        }
    }
}

/// The resolved packages an install acts on: all of them, or without `require-dev`
/// those the lockfile does not mark `dev`.
pub fn active_resolved_packages(
    resolved: &Vec<(String, ResolvedPackageEntry)>,
    lockfile: &Lockfile,
    include_dev: bool,
) -> (r: Vec<(String, ResolvedPackageEntry)>)
    ensures
        ({
            let expected = if include_dev {
                resolved@
            } else {
                kept_resolved(resolved@, non_dev_names(lockfile.packages@))
            };
            r@.len() == expected.len() && forall|i: int|
                0 <= i < r@.len() ==> (#[trigger] r@[i]).0@ == expected[i].0@ && same_entry(
                    r@[i].1,
                    expected[i].1,
                )
        }),
{
    let mut active: Vec<String> = Vec::new();
    let mut a: usize = 0;
    let ghost all = lockfile.packages@;
    while a < lockfile.packages.len()
        invariant
            a <= all.len(),
            all == lockfile.packages@,
            views(active@) == non_dev_names(all.take(a as int)),
        decreases all.len() - a,
    {
        proof {
            lemma_non_dev_push(all.take(a as int), all[a as int]);
            assert(all.take(a + 1) =~= all.take(a as int).push(all[a as int]));
        }
        if !lockfile.packages[a].dev {
            let ghost prev = views(active@);
            active.push(lockfile.packages[a].name.clone());
            assert(views(active@) =~= prev.push(all[a as int].name@));
        }
        a = a + 1;
    }
    assert(all.take(all.len() as int) =~= all);
    let ghost names = views(active@);
    let mut out: Vec<(String, ResolvedPackageEntry)> = Vec::new();
    let mut i: usize = 0;
    while i < resolved.len()
        invariant
            i <= resolved@.len(),
            names == views(active@),
            ({
                let expected = if include_dev {
                    resolved@.take(i as int)
                } else {
                    kept_resolved(resolved@.take(i as int), names)
                };
                out@.len() == expected.len() && forall|j: int|
                    0 <= j < out@.len() ==> (#[trigger] out@[j]).0@ == expected[j].0@ && same_entry(
                        out@[j].1,
                        expected[j].1,
                    )
            }),
        decreases resolved@.len() - i,
    {
        assert(resolved@.take(i + 1).drop_last() =~= resolved@.take(i as int));
        assert(resolved@.take(i + 1).last() == resolved@[i as int]);
        let keep = include_dev || crate::platform::contains_name(&active, resolved[i].0.as_str());
        proof {
            lemma_has_name_contains(active@, resolved@[i as int].0@);
        }
        if keep {
            let entry = (resolved[i].0.clone(), resolved[i].1.clone());
            out.push(entry);
        }
        i = i + 1;
    }
    assert(resolved@.take(resolved@.len() as int) =~= resolved@);
    out
}

proof fn lemma_non_dev_push(packages: Seq<LockedPackage>, p: LockedPackage)
    ensures
        non_dev_names(packages.push(p)) == non_dev_names(packages) + if p.dev {
            Seq::<Seq<char>>::empty()
        } else {
            seq![p.name@]
        },
        non_dev(packages.push(p)) == non_dev(packages) + if p.dev {
            Seq::<LockedPackage>::empty()
        } else {
            seq![p]
        },
    decreases packages.len(),
{
    let tail = if p.dev {
        Seq::<LockedPackage>::empty()
    } else {
        seq![p]
    };
    if packages.len() > 0 {
        assert(packages.push(p).drop_first() =~= packages.drop_first().push(p));
        lemma_non_dev_push(packages.drop_first(), p);
        assert(packages.push(p)[0] == packages[0]);
        let head = if packages[0].dev {
            Seq::<LockedPackage>::empty()
        } else {
            seq![packages[0]]
        };
        assert(non_dev(packages.push(p)) == head + non_dev(packages.drop_first().push(p)));
        assert(non_dev(packages.push(p)) =~= non_dev(packages) + tail);
    } else {
        let rest = packages.push(p).drop_first();
        assert(rest =~= Seq::<LockedPackage>::empty());
        assert(non_dev(rest) =~= Seq::<LockedPackage>::empty());
        assert(packages.push(p)[0] == p);
        assert(non_dev(packages.push(p)) =~= non_dev(packages) + tail);
    }
    assert(non_dev_names(packages.push(p)) =~= non_dev_names(packages) + if p.dev {
        Seq::<Seq<char>>::empty()
    } else {
        seq![p.name@]
    });
}

// ---------------------------------------------------------------------------
// Checks before anything is linked
// ---------------------------------------------------------------------------

/// The first package, in order, whose platform requirements fail gave `error`.
pub open spec fn first_platform_failure(
    error: ConcertoError,
    packages: Seq<(Seq<char>, Seq<RequiredPackage>)>,
    platform: Platform,
) -> bool {
    exists|i: int|
        #![trigger packages[i]]
        0 <= i < packages.len() && (forall|j: int|
            0 <= j < i ==> validate_ok(#[trigger] packages[j].1, platform))
            && crate::platform::first_failure(error, packages[i].1, platform, packages[i].0)
}

/// Checks the platform requirements of every locked package, in order.
pub fn validate_locked_platform_requirements(packages: &Vec<LockedPackage>, platform: &Platform) -> (r:
    Result<(), ConcertoError>)
    ensures
        r is Ok <==> forall|i: int|
            0 <= i < packages@.len() ==> validate_ok((#[trigger] packages@[i]).platform_requires@, *platform),
        r matches Err(e) ==> first_platform_failure(
            e,
            packages@.map_values(|p: LockedPackage| (p.name@, p.platform_requires@)),
            *platform,
        ),
{
    let mut i: usize = 0;
    while i < packages.len()
        invariant
            i <= packages@.len(),
            forall|j: int| 0 <= j < i ==> validate_ok((#[trigger] packages@[j]).platform_requires@, *platform),
        decreases packages@.len() - i,
    {
        match validate(&packages[i].platform_requires, platform, packages[i].name.as_str()) {
            Ok(()) => {},
            Err(error) => {
                proof {
                    let model = packages@.map_values(|p: LockedPackage| (p.name@, p.platform_requires@));
                    assert(model[i as int] == (packages@[i as int].name@, packages@[i as int].platform_requires@));
                    assert forall|j: int| 0 <= j < i implies validate_ok(#[trigger] model[j].1, *platform) by {
                        assert(model[j].1 == packages@[j].platform_requires@);
                    }
                    assert(first_platform_failure(error, model, *platform));
                }
                return Err(error);
            },
        }
        i = i + 1;
    }
    Ok(())
}

/// Checks the platform requirements of every resolved package, in order.
pub fn validate_resolved_platform_requirements(
    packages: &Vec<(String, ResolvedPackageEntry)>,
    platform: &Platform,
) -> (r: Result<(), ConcertoError>)
    ensures
        r is Ok <==> forall|i: int|
            0 <= i < packages@.len() ==> validate_ok((#[trigger] packages@[i]).1.platform_requires@, *platform),
        r matches Err(e) ==> first_platform_failure(
            e,
            packages@.map_values(|p: (String, ResolvedPackageEntry)| (p.0@, p.1.platform_requires@)),
            *platform,
        ),
{
    let mut i: usize = 0;
    while i < packages.len()
        invariant
            i <= packages@.len(),
            forall|j: int| 0 <= j < i ==> validate_ok((#[trigger] packages@[j]).1.platform_requires@, *platform),
        decreases packages@.len() - i,
    {
        match validate(&packages[i].1.platform_requires, platform, packages[i].0.as_str()) {
            Ok(()) => {},
            Err(error) => {
                proof {
                    let model = packages@.map_values(|p: (String, ResolvedPackageEntry)| (p.0@, p.1.platform_requires@));
                    assert(model[i as int] == (packages@[i as int].0@, packages@[i as int].1.platform_requires@));
                    assert forall|j: int| 0 <= j < i implies validate_ok(#[trigger] model[j].1, *platform) by {
                        assert(model[j].1 == packages@[j].1.platform_requires@);
                    }
                    assert(first_platform_failure(error, model, *platform));
                }
                return Err(error);
            },
        }
        i = i + 1;
    }
    Ok(())
}

/// The archive integrity a locked package must have before its archive is used.
pub fn locked_archive_integrity(package: &LockedPackage) -> (r: Result<&String, ConcertoError>)
    ensures
        match package.dist_integrity {
            Some(integrity) => r == Ok::<&String, ConcertoError>(&integrity),
            None => r matches Err(e) && is_missing_integrity(e, package.name@),
        },
{
    match &package.dist_integrity {
        Some(integrity) => Ok(integrity),
        None => Err(missing_integrity(package.name.as_str())),
    }
}

/// The names of locked packages, in order.
pub open spec fn locked_names(packages: Seq<LockedPackage>) -> Seq<Seq<char>> {
    packages.map_values(|p: LockedPackage| p.name@)
}

proof fn lemma_locked_names_cover(
    production_requirements: Seq<RequiredPackage>,
    resolved: Seq<(String, ResolvedPackageEntry)>,
    integrities: Seq<(String, String)>,
    lockfile: Lockfile,
    root_requirements: Seq<RequiredPackage>,
    root_repositories: Seq<ComposerRepository>,
)
    requires
        lockfile_built(root_requirements, root_repositories, production_requirements, resolved, integrities, lockfile),
        names_unique(resolved),
    ensures
        crate::order::strictly_sorted(locked_names(lockfile.packages@)),
        locked_names(lockfile.packages@).to_set() == entry_names(resolved).to_set(),
{
    let names = locked_names(lockfile.packages@);
    let wanted = entry_names(resolved);
    assert forall|i: int, j: int| 0 <= i < j < names.len() implies text_lt(#[trigger] names[i], #[trigger] names[j]) by {
        assert(text_lt(lockfile.packages@[i].name@, lockfile.packages@[j].name@));
    }
    let production = choose|production: Seq<Seq<char>>|
        production_justified(production_requirements, resolved, production)
            && production_closed(production_requirements, resolved, production)
            && forall|i: int|
            0 <= i < resolved.len() ==> has_locked_entry(
                integrities,
                production,
                #[trigger] resolved[i],
                lockfile.packages@,
            );
    assert forall|x: Seq<char>| wanted.to_set().contains(x) implies names.to_set().contains(x) by {
        let i = choose|i: int| 0 <= i < wanted.len() && wanted[i] == x;
        assert(has_locked_entry(integrities, production, resolved[i], lockfile.packages@));
        let j = choose|j: int| 0 <= j < lockfile.packages@.len() && #[trigger] locked_from(
            integrities,
            production,
            resolved[i],
            lockfile.packages@[j],
        );
        assert(names[j] == x);
    }
    assert(names.no_duplicates()) by {
        assert forall|i: int, j: int| 0 <= i < names.len() && 0 <= j < names.len() && i != j implies names[i] != names[j] by {
            if i < j {
                assert(text_lt(names[i], names[j]));
            } else {
                assert(text_lt(names[j], names[i]));
            }
            crate::order::lemma_text_lt_irreflexive(names[i]);
        }
    }
    assert(wanted.no_duplicates()) by {
        assert forall|i: int, j: int| 0 <= i < wanted.len() && 0 <= j < wanted.len() && i != j implies wanted[i] != wanted[j] by {
            if i < j {
                assert(resolved[i].0@ != resolved[j].0@);
            } else {
                assert(resolved[j].0@ != resolved[i].0@);
            }
        }
    }
    names.unique_seq_to_set();
    wanted.unique_seq_to_set();
    vstd::seq_lib::seq_to_set_is_finite(names);
    vstd::seq_lib::seq_to_set_is_finite(wanted);
    vstd::set_lib::lemma_subset_equality(wanted.to_set(), names.to_set());
}

/// Each pair's name is not above the names of the pairs after it.
pub open spec fn pairs_name_sorted(s: Seq<(Seq<char>, Seq<char>)>) -> bool {
    forall|i: int, j: int| 0 <= i < j < s.len() ==> !text_lt(#[trigger] s[j].0, #[trigger] s[i].0)
}

/// Two sequences sorted by name whose pairs of each name come in the same order are
/// the same sequence.
proof fn lemma_name_sorted_pairs_unique(a: Seq<(Seq<char>, Seq<char>)>, b: Seq<(Seq<char>, Seq<char>)>)
    requires
        pairs_name_sorted(a),
        pairs_name_sorted(b),
        forall|n: Seq<char>| #[trigger] a.filter(name_is(n)) == b.filter(name_is(n)),
    ensures
        a == b,
    decreases a.len(),
{
    broadcast use vstd::seq_lib::group_filter_ensures;
    broadcast use vstd::seq::Seq::lemma_filter_contains_rev;

    if a.len() == 0 || b.len() == 0 {
        if b.len() > 0 {
            assert(b.filter(name_is(b[0].0)).contains(b[0]));
            assert(a.filter(name_is(b[0].0)).len() == 0);
        }
        if a.len() > 0 {
            assert(a.filter(name_is(a[0].0)).contains(a[0]));
            assert(b.filter(name_is(a[0].0)).len() == 0);
        }
        assert(a =~= b);
    } else {
        let n0 = a[0].0;
        let m0 = b[0].0;
        assert(a.filter(name_is(n0)).contains(a[0]));
        assert(b.filter(name_is(n0)).contains(a[0]));
        assert(b.contains(a[0]));
        let k = choose|k: int| 0 <= k < b.len() && b[k] == a[0];
        assert(k == 0 || !text_lt(b[k].0, b[0].0));
        assert(b.filter(name_is(m0)).contains(b[0]));
        assert(a.filter(name_is(m0)).contains(b[0]));
        assert(a.contains(b[0]));
        let k2 = choose|k2: int| 0 <= k2 < a.len() && a[k2] == b[0];
        assert(k2 == 0 || !text_lt(a[k2].0, a[0].0));
        if n0 != m0 {
            crate::order::lemma_text_lt_connected(n0, m0);
        }
        assert(n0 == m0);
        let ra = a.drop_first();
        let rb = b.drop_first();
        assert(a =~= seq![a[0]] + ra);
        assert(b =~= seq![b[0]] + rb);
        assert forall|n: Seq<char>| #[trigger] ra.filter(name_is(n)) == rb.filter(name_is(n)) by {
            ra.lemma_filter_prepend(a[0], name_is(n));
            rb.lemma_filter_prepend(b[0], name_is(n));
            if n == n0 {
                assert(a.filter(name_is(n)) == seq![a[0]] + ra.filter(name_is(n)));
                assert(b.filter(name_is(n)) == seq![b[0]] + rb.filter(name_is(n)));
                assert(a.filter(name_is(n))[0] == a[0]);
                assert(b.filter(name_is(n))[0] == b[0]);
                assert(ra.filter(name_is(n)) =~= a.filter(name_is(n)).drop_first());
                assert(rb.filter(name_is(n)) =~= b.filter(name_is(n)).drop_first());
            } else {
                assert(a.filter(name_is(n)) =~= ra.filter(name_is(n)));
                assert(b.filter(name_is(n)) =~= rb.filter(name_is(n)));
            }
        }
        ra.lemma_filter_prepend(a[0], name_is(n0));
        rb.lemma_filter_prepend(b[0], name_is(n0));
        assert(a.filter(name_is(n0))[0] == a[0]);
        assert(b.filter(name_is(n0))[0] == b[0]);
        assert forall|i: int, j: int| 0 <= i < j < ra.len() implies !text_lt(#[trigger] ra[j].0, #[trigger] ra[i].0) by {
            assert(ra[i] == a[i + 1] && ra[j] == a[j + 1]);
        }
        assert forall|i: int, j: int| 0 <= i < j < rb.len() implies !text_lt(#[trigger] rb[j].0, #[trigger] rb[i].0) by {
            assert(rb[i] == b[i + 1] && rb[j] == b[j + 1]);
        }
        lemma_name_sorted_pairs_unique(ra, rb);
    }
}

/// Whether two resolutions hold the same entries.
pub open spec fn same_entries(
    first: Seq<(String, ResolvedPackageEntry)>,
    second: Seq<(String, ResolvedPackageEntry)>,
) -> bool {
    forall|e: (String, ResolvedPackageEntry)|
        #![trigger first.contains(e)]
        #![trigger second.contains(e)]
        first.contains(e) <==> second.contains(e)
}

/// What a resolution selects does not depend on the order of its entries.
proof fn lemma_selects_same_entries(
    roots: Seq<RequiredPackage>,
    first: Seq<(String, ResolvedPackageEntry)>,
    second: Seq<(String, ResolvedPackageEntry)>,
)
    requires
        same_entries(first, second),
    ensures
        forall|q: RequiredPackage, n: Seq<char>| #[trigger] selected_by(first, q, n) ==> selected_by(second, q, n),
        forall|n: Seq<char>| #[trigger] root_selects(roots, first, n) ==> root_selects(roots, second, n),
        forall|p: Seq<char>, c: Seq<char>| #[trigger] requires_select(first, p, c) ==> requires_select(second, p, c),
{
    assert forall|q: RequiredPackage, n: Seq<char>| #[trigger] selected_by(first, q, n) implies selected_by(second, q, n) by {
        let i = choose|i: int| 0 <= i < first.len() && #[trigger] first[i].0@ == n && package_satisfies(n, first[i].1, q);
        assert(first.contains(first[i]));
        let j = choose|j: int| 0 <= j < second.len() && second[j] == first[i];
        assert(second[j].0@ == n);
    }
    assert forall|n: Seq<char>| #[trigger] root_selects(roots, first, n) implies root_selects(roots, second, n) by {
        let q = choose|q: int| 0 <= q < roots.len() && #[trigger] selected_by(first, roots[q], n);
        assert(selected_by(second, roots[q], n));
    }
    assert forall|p: Seq<char>, c: Seq<char>| #[trigger] requires_select(first, p, c) implies requires_select(second, p, c) by {
        let (k, l) = choose|k: int, l: int|
            0 <= k < first.len() && first[k].0@ == p && 0 <= l < first[k].1.package_requires@.len()
                && #[trigger] selected_by(first, first[k].1.package_requires@[l], c);
        assert(first.contains(first[k]));
        let j = choose|j: int| 0 <= j < second.len() && second[j] == first[k];
        assert(selected_by(second, second[j].1.package_requires@[l], c));
    }
}

/// A name of a justified list lies in every closed list.
proof fn lemma_production_name_within(
    roots: Seq<RequiredPackage>,
    resolved: Seq<(String, ResolvedPackageEntry)>,
    justified: Seq<Seq<char>>,
    closed: Seq<Seq<char>>,
    i: int,
)
    requires
        production_justified(roots, resolved, justified),
        production_closed(roots, resolved, closed),
        0 <= i < justified.len(),
    ensures
        closed.contains(justified[i]),
    decreases i,
{
    if !root_selects(roots, resolved, justified[i]) {
        let j = choose|j: int| 0 <= j < i && requires_select(resolved, #[trigger] justified[j], justified[i]);
        lemma_production_name_within(roots, resolved, justified, closed, j);
    }
}

/// The production lists of two resolutions with the same entries hold the same names.
proof fn lemma_production_same_entries(
    roots: Seq<RequiredPackage>,
    first: Seq<(String, ResolvedPackageEntry)>,
    second: Seq<(String, ResolvedPackageEntry)>,
    first_production: Seq<Seq<char>>,
    second_production: Seq<Seq<char>>,
)
    requires
        same_entries(first, second),
        production_justified(roots, first, first_production),
        production_closed(roots, first, first_production),
        production_justified(roots, second, second_production),
        production_closed(roots, second, second_production),
    ensures
        forall|n: Seq<char>| #[trigger] first_production.contains(n) <==> second_production.contains(n),
{
    lemma_selects_same_entries(roots, first, second);
    lemma_selects_same_entries(roots, second, first);
    assert(production_closed(roots, first, second_production));
    assert(production_closed(roots, second, first_production));
    assert forall|n: Seq<char>| #[trigger] first_production.contains(n) implies second_production.contains(n) by {
        let i = choose|i: int| 0 <= i < first_production.len() && first_production[i] == n;
        lemma_production_name_within(roots, first, first_production, second_production, i);
    }
    assert forall|n: Seq<char>| #[trigger] second_production.contains(n) implies first_production.contains(n) by {
        let i = choose|i: int| 0 <= i < second_production.len() && second_production[i] == n;
        lemma_production_name_within(roots, second, second_production, first_production, i);
    }
}

/// A lockfile lists one entry per resolved package, sorted by name: two resolutions
/// that select the same packages, listed in any order, give lockfiles whose packages
/// come in the same order.
pub proof fn lemma_lockfile_order_ignores_resolution_order(
    first: Lockfile,
    second: Lockfile,
    root_requirements: Seq<RequiredPackage>,
    root_repositories: Seq<ComposerRepository>,
    production_requirements: Seq<RequiredPackage>,
    first_resolved: Seq<(String, ResolvedPackageEntry)>,
    second_resolved: Seq<(String, ResolvedPackageEntry)>,
    integrities: Seq<(String, String)>,
)
    requires
        names_unique(first_resolved),
        names_unique(second_resolved),
        entry_names(first_resolved).to_set() == entry_names(second_resolved).to_set(),
        lockfile_built(
            root_requirements,
            root_repositories,
            production_requirements,
            first_resolved,
            integrities,
            first,
        ),
        lockfile_built(
            root_requirements,
            root_repositories,
            production_requirements,
            second_resolved,
            integrities,
            second,
        ),
    ensures
        locked_names(first.packages@) == locked_names(second.packages@),
{
    lemma_locked_names_cover(
        production_requirements,
        first_resolved,
        integrities,
        first,
        root_requirements,
        root_repositories,
    );
    lemma_locked_names_cover(
        production_requirements,
        second_resolved,
        integrities,
        second,
        root_requirements,
        root_repositories,
    );
    crate::order::lemma_strictly_sorted_same_set(
        locked_names(first.packages@),
        locked_names(second.packages@),
    );
}

/// What a lockfile entry records.
pub open spec fn locked_view(p: LockedPackage) -> (
    Seq<char>,
    Seq<char>,
    Seq<char>,
    Option<Seq<char>>,
    Option<Seq<char>>,
    bool,
    Seq<RequiredPackage>,
    Seq<RequiredPackage>,
) {
    (
        p.name@,
        p.version@,
        p.dist_url@,
        opt_view(p.dist_integrity),
        opt_view(p.dist_shasum),
        p.dev,
        p.package_requires@,
        p.platform_requires@,
    )
}

/// What a lockfile records: its version, hash, root requirements, repositories and entries.
pub open spec fn lockfile_shown(l: Lockfile) -> (
    u8,
    Seq<char>,
    Seq<(Seq<char>, Seq<char>)>,
    Seq<ComposerRepository>,
    Seq<(Seq<char>, Seq<char>, Seq<char>, Option<Seq<char>>, Option<Seq<char>>, bool, Seq<RequiredPackage>, Seq<RequiredPackage>)>,
) {
    (
        l.lockfile_version,
        l.root_manifest_hash@,
        requirement_pairs(l.root_requirements@),
        l.root_repositories@,
        l.packages@.map_values(|p: LockedPackage| locked_view(p)),
    )
}

/// The lockfile is deterministic: two resolutions that hold the same entries, listed
/// in any order, give lockfiles that record the same thing.
pub proof fn lemma_lockfile_ignores_resolution_order(
    first: Lockfile,
    second: Lockfile,
    root_requirements: Seq<RequiredPackage>,
    root_repositories: Seq<ComposerRepository>,
    production_requirements: Seq<RequiredPackage>,
    first_resolved: Seq<(String, ResolvedPackageEntry)>,
    second_resolved: Seq<(String, ResolvedPackageEntry)>,
    integrities: Seq<(String, String)>,
)
    requires
        names_unique(first_resolved),
        names_unique(second_resolved),
        same_entries(first_resolved, second_resolved),
        lockfile_built(
            root_requirements,
            root_repositories,
            production_requirements,
            first_resolved,
            integrities,
            first,
        ),
        lockfile_built(
            root_requirements,
            root_repositories,
            production_requirements,
            second_resolved,
            integrities,
            second,
        ),
    ensures
        lockfile_shown(first) == lockfile_shown(second),
{
    // Root requirements: sorted by name, and in their given order within a name.
    let ra = requirement_pairs(first.root_requirements@);
    let rb = requirement_pairs(second.root_requirements@);
    assert forall|i: int, j: int| 0 <= i < j < ra.len() implies !text_lt(#[trigger] ra[j].0, #[trigger] ra[i].0) by {
        assert(!text_lt(first.root_requirements@[j].name@, first.root_requirements@[i].name@));
    }
    assert forall|i: int, j: int| 0 <= i < j < rb.len() implies !text_lt(#[trigger] rb[j].0, #[trigger] rb[i].0) by {
        assert(!text_lt(second.root_requirements@[j].name@, second.root_requirements@[i].name@));
    }
    assert forall|n: Seq<char>| #[trigger] ra.filter(name_is(n)) == rb.filter(name_is(n)) by {
        assert(pairs_named(first.root_requirements@, n) == pairs_named(root_requirements, n));
        assert(pairs_named(second.root_requirements@, n) == pairs_named(root_requirements, n));
    }
    lemma_name_sorted_pairs_unique(ra, rb);

    // Packages: the same names in the same order, each recorded from the same entry.
    let pa = first.packages@;
    let pb = second.packages@;
    lemma_locked_names_cover(production_requirements, first_resolved, integrities, first, root_requirements, root_repositories);
    lemma_locked_names_cover(production_requirements, second_resolved, integrities, second, root_requirements, root_repositories);
    assert(entry_names(first_resolved).to_set() =~= entry_names(second_resolved).to_set()) by {
        assert forall|n: Seq<char>| #[trigger] entry_names(first_resolved).to_set().contains(n) implies entry_names(
            second_resolved,
        ).to_set().contains(n) by {
            let k = choose|k: int| 0 <= k < entry_names(first_resolved).len() && entry_names(first_resolved)[k] == n;
            assert(first_resolved.contains(first_resolved[k]));
            let j = choose|j: int| 0 <= j < second_resolved.len() && second_resolved[j] == first_resolved[k];
            assert(entry_names(second_resolved)[j] == n);
        }
        assert forall|n: Seq<char>| #[trigger] entry_names(second_resolved).to_set().contains(n) implies entry_names(
            first_resolved,
        ).to_set().contains(n) by {
            let k = choose|k: int| 0 <= k < entry_names(second_resolved).len() && entry_names(second_resolved)[k] == n;
            assert(second_resolved.contains(second_resolved[k]));
            let j = choose|j: int| 0 <= j < first_resolved.len() && first_resolved[j] == second_resolved[k];
            assert(entry_names(first_resolved)[j] == n);
        }
    }
    crate::order::lemma_strictly_sorted_same_set(locked_names(pa), locked_names(pb));
    let first_production = choose|production: Seq<Seq<char>>|
        production_justified(production_requirements, first_resolved, production)
            && production_closed(production_requirements, first_resolved, production)
            && forall|i: int|
            0 <= i < first_resolved.len() ==> has_locked_entry(
                integrities,
                production,
                #[trigger] first_resolved[i],
                pa,
            );
    let second_production = choose|production: Seq<Seq<char>>|
        production_justified(production_requirements, second_resolved, production)
            && production_closed(production_requirements, second_resolved, production)
            && forall|i: int|
            0 <= i < second_resolved.len() ==> has_locked_entry(
                integrities,
                production,
                #[trigger] second_resolved[i],
                pb,
            );
    lemma_production_same_entries(
        production_requirements,
        first_resolved,
        second_resolved,
        first_production,
        second_production,
    );
    assert forall|i: int| 0 <= i < pa.len() implies locked_view(#[trigger] pa[i]) == locked_view(pb[i]) by {
        let n = pa[i].name@;
        assert(locked_names(pa)[i] == n);
        assert(locked_names(pa).to_set().contains(n));
        let k = choose|k: int| 0 <= k < entry_names(first_resolved).len() && entry_names(first_resolved)[k] == n;
        let e = first_resolved[k];
        assert(has_locked_entry(integrities, first_production, first_resolved[k], pa));
        let ja = choose|ja: int| 0 <= ja < pa.len() && #[trigger] locked_from(integrities, first_production, e, pa[ja]);
        assert(locked_names(pa)[ja] == n);
        assert(ja == i) by {
            if ja < i {
                assert(text_lt(locked_names(pa)[ja], locked_names(pa)[i]));
                crate::order::lemma_text_lt_irreflexive(n);
            } else if ja > i {
                assert(text_lt(locked_names(pa)[i], locked_names(pa)[ja]));
                crate::order::lemma_text_lt_irreflexive(n);
            }
        }
        assert(second_resolved.contains(e));
        let k2 = choose|k2: int| 0 <= k2 < second_resolved.len() && second_resolved[k2] == e;
        assert(has_locked_entry(integrities, second_production, second_resolved[k2], pb));
        let jb = choose|jb: int| 0 <= jb < pb.len() && #[trigger] locked_from(integrities, second_production, e, pb[jb]);
        assert(locked_names(pb)[jb] == n);
        assert(locked_names(pb)[i] == n);
        assert(jb == i) by {
            if jb < i {
                assert(text_lt(locked_names(pb)[jb], locked_names(pb)[i]));
                crate::order::lemma_text_lt_irreflexive(n);
            } else if jb > i {
                assert(text_lt(locked_names(pb)[i], locked_names(pb)[jb]));
                crate::order::lemma_text_lt_irreflexive(n);
            }
        }
        assert(first_production.contains(n) == second_production.contains(n));
    }
    assert(pa.map_values(|p: LockedPackage| locked_view(p)) =~= pb.map_values(|p: LockedPackage| locked_view(p)));
}

} // verus!
