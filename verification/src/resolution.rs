//! From the solver's answer to the resolved packages: which releases were selected,
//! which constraints reached each of them, and the entries the installer uses.

use vstd::prelude::*;
use crate::composer::RequiredPackage;
use crate::error::{clone_strings, views, ConcertoError};
use crate::packagist::{constraints_outcome, opt_view, PackagistRelease, ReleaseModel};
use crate::resolver::{
    add_package_constraint, constraint_entries, key_of, names_unique, release_satisfies_requirement,
    releases_well_formed, satisfies_requirement_spec, with_constraint, PackageVersionKey,
    ResolutionProblem, ResolvedPackageEntry,
};
use crate::collection::{build_resolution_problem, collect_run, entries_of, failure_is, Exchange, Failure, LoggedProvider};
use crate::resolver::{graph_constraints, requirements_from_constraints, CandidateProvider};
use crate::solver::{has_release_key, release_index, SolverTables};
use crate::text::str_eq;
use crate::version_set::{package_key, PubGrubPackage, PubGrubVersion, VersionKey};

verus! {

// ---------------------------------------------------------------------------
// Selected releases
// ---------------------------------------------------------------------------

/// What a list of selected releases is: package name to release.
pub open spec fn selected_map(entries: Seq<(String, PackagistRelease)>) -> Map<Seq<char>, ReleaseModel>
    decreases entries.len(),
{
    if entries.len() == 0 {
        Map::empty()
    } else {
        selected_map(entries.drop_last()).insert(entries.last().0@, entries.last().1@)
    }
}

/// The releases a solution selects: for each package the solver set to a release that
/// the problem holds, that release; a later answer for the same package wins.
pub open spec fn solution_selected(
    releases: Seq<(PackageVersionKey, PackagistRelease)>,
    solution: Seq<(PubGrubPackage, PubGrubVersion)>,
) -> Map<Seq<char>, ReleaseModel>
    decreases solution.len(),
{
    if solution.len() == 0 {
        Map::empty()
    } else {
        let earlier = solution_selected(releases, solution.drop_last());
        match (package_key(solution.last().0), solution.last().1@) {
            (Some(n), VersionKey::Release(v)) => if has_release_key(releases, n, v) {
                earlier.insert(n, releases[release_index(releases, n, v)].1@)
            } else {
                earlier
            },
            _ => earlier,
        }
    }
}

proof fn lemma_selected_map_update(entries: Seq<(String, PackagistRelease)>, i: int, e: (String, PackagistRelease))
    requires
        names_unique(entries),
        0 <= i < entries.len(),
        entries[i].0@ == e.0@,
    ensures
        names_unique(entries.update(i, e)),
        selected_map(entries.update(i, e)) == selected_map(entries).insert(e.0@, e.1@),
    decreases entries.len(),
{
    let u = entries.update(i, e);
    assert forall|a: int, b: int| 0 <= a < b < u.len() implies #[trigger] u[a].0@ != #[trigger] u[b].0@ by {
        assert(entries[a].0@ != entries[b].0@);
    }
    if i == entries.len() - 1 {
        assert(u.drop_last() =~= entries.drop_last());
        assert(selected_map(entries.drop_last()).insert(e.0@, e.1@) =~= selected_map(entries).insert(
            e.0@,
            e.1@,
        ));
    } else {
        let d = entries.drop_last();
        assert(u.drop_last() =~= d.update(i, e));
        lemma_selected_map_update(d, i, e);
        assert(entries.last().0@ != e.0@) by {
            assert(entries[i].0@ != entries[entries.len() - 1].0@);
        }
        assert(selected_map(u) =~= selected_map(entries).insert(e.0@, e.1@));
    }
}

proof fn lemma_selected_map_push(entries: Seq<(String, PackagistRelease)>, e: (String, PackagistRelease))
    requires
        names_unique(entries),
        forall|j: int| 0 <= j < entries.len() ==> #[trigger] entries[j].0@ != e.0@,
    ensures
        names_unique(entries.push(e)),
        selected_map(entries.push(e)) == selected_map(entries).insert(e.0@, e.1@),
{
    let u = entries.push(e);
    assert(u.drop_last() =~= entries);
    assert forall|a: int, b: int| 0 <= a < b < u.len() implies #[trigger] u[a].0@ != #[trigger] u[b].0@ by {
        if b == entries.len() {
            assert(u[a] == entries[a]);
        } else {
            assert(u[a] == entries[a] && u[b] == entries[b]);
        }
    }
}

/// Sets the release of `name` in `selected`, as a map insert does.
fn insert_selected(selected: &mut Vec<(String, PackagistRelease)>, name: String, release: PackagistRelease)
    requires
        names_unique(old(selected)@),
    ensures
        names_unique(final(selected)@),
        selected_map(final(selected)@) == selected_map(old(selected)@).insert(name@, release@),
{
    let mut i: usize = 0;
    while i < selected.len()
        invariant
            i <= selected@.len(),
            selected@ == old(selected)@,
            names_unique(selected@),
            forall|j: int| 0 <= j < i ==> #[trigger] selected@[j].0@ != name@,
        decreases selected@.len() - i,
    {
        if str_eq(selected[i].0.as_str(), name.as_str()) {
            let ghost before = selected@;
            let ghost e = (name, release);
            selected.set(i, (name, release));
            proof {
                assert(selected@ == before.update(i as int, e));
                lemma_selected_map_update(before, i as int, e);
            }
            return;
        }
        i = i + 1;
    }
    let ghost before = selected@;
    let ghost e = (name, release);
    selected.push((name, release));
    proof {
        lemma_selected_map_push(before, e);
    }
}

/// Finds the release `name` at `version` in the problem.
fn find_release<'a>(
    releases: &'a Vec<(PackageVersionKey, PackagistRelease)>,
    name: &str,
    version: &str,
) -> (r: Option<&'a PackagistRelease>)
    requires
        releases_well_formed(releases@),
    ensures
        match r {
            Some(release) => has_release_key(releases@, name@, version@) && release@
                == releases@[release_index(releases@, name@, version@)].1@,
            None => !has_release_key(releases@, name@, version@),
        },
{
    let mut i: usize = 0;
    while i < releases.len()
        invariant
            i <= releases@.len(),
            releases_well_formed(releases@),
            forall|j: int| 0 <= j < i ==> #[trigger] key_of(releases@[j].0) != (name@, version@),
        decreases releases@.len() - i,
    {
        if str_eq(releases[i].0.package_name.as_str(), name) && str_eq(
            releases[i].0.version.as_str(),
            version,
        ) {
            proof {
                assert(key_of(releases@[i as int].0) == (name@, version@));
                let j = release_index(releases@, name@, version@);
                assert(key_of(releases@[j].0) == (name@, version@));
            }
            return Some(&releases[i].1);
        }
        i = i + 1;
    }
    None
}

/// The releases the solver's answer selects, by package.
pub fn selected_from_solution(
    problem: &ResolutionProblem,
    solution: &Vec<(PubGrubPackage, PubGrubVersion)>,
) -> (r: Vec<(String, PackagistRelease)>)
    requires
        releases_well_formed(problem.releases@),
    ensures
        names_unique(r@),
        selected_map(r@) == solution_selected(problem.releases@, solution@),
{
    let mut selected: Vec<(String, PackagistRelease)> = Vec::new();
    let mut i: usize = 0;
    while i < solution.len()
        invariant
            i <= solution@.len(),
            releases_well_formed(problem.releases@),
            names_unique(selected@),
            selected_map(selected@) == solution_selected(problem.releases@, solution@.take(i as int)),
        decreases solution@.len() - i,
    {
        assert(solution@.take(i + 1).drop_last() =~= solution@.take(i as int));
        assert(solution@.take(i + 1).last() == solution@[i as int]);
        if let (PubGrubPackage::Package(name), PubGrubVersion::Release(version)) = &solution[i] {
            if let Some(release) = find_release(&problem.releases, name.as_str(), version.as_str()) {
                insert_selected(&mut selected, name.clone(), release.clone());
            }
        }
        i = i + 1;
    }
    assert(solution@.take(solution@.len() as int) =~= solution@);
    selected
}

// ---------------------------------------------------------------------------
// Constraints that reached each selected package
// ---------------------------------------------------------------------------

/// Constraint `c` is listed for package `n`.
pub open spec fn listed(entries: Seq<(Seq<char>, Seq<Seq<char>>)>, n: Seq<char>, c: Seq<char>) -> bool {
    exists|i: int| 0 <= i < entries.len() && #[trigger] entries[i].0 == n && entries[i].1.contains(c)
}

/// Package `m` has a list.
pub open spec fn has_list(entries: Seq<(Seq<char>, Seq<Seq<char>>)>, m: Seq<char>) -> bool {
    exists|i: int| 0 <= i < entries.len() && #[trigger] entries[i].0 == m
}

/// No package has two lists.
pub open spec fn names_distinct(entries: Seq<(Seq<char>, Seq<Seq<char>>)>) -> bool {
    forall|i: int, j: int| 0 <= i < j < entries.len() ==> #[trigger] entries[i].0 != #[trigger] entries[j].0
}

proof fn lemma_with_constraint_listed(
    entries: Seq<(Seq<char>, Seq<Seq<char>>)>,
    n: Seq<char>,
    c: Seq<char>,
    x: Seq<char>,
    y: Seq<char>,
)
    ensures
        listed(with_constraint(entries, n, c), x, y) <==> listed(entries, x, y) || (x == n && y == c),
        names_distinct(entries) ==> names_distinct(with_constraint(entries, n, c)),
        forall|m: Seq<char>| #[trigger]
            has_list(with_constraint(entries, n, c), m) <==> (m == n || has_list(entries, m)),
    decreases entries.len(),
{
    broadcast use vstd::seq_lib::lemma_seq_contains_after_push;

    let w = with_constraint(entries, n, c);
    if entries.len() == 0 {
        assert(w =~= seq![(n, seq![c])]);
        assert(seq![c][0] == c);
        if listed(w, x, y) {
            let i = choose|i: int| 0 <= i < w.len() && #[trigger] w[i].0 == x && w[i].1.contains(y);
            assert(i == 0);
            let k = choose|k: int| 0 <= k < seq![c].len() && seq![c][k] == y;
        }
        if x == n && y == c {
            assert(w[0].0 == x && w[0].1[0] == y);
        }
        assert forall|m: Seq<char>| #[trigger] has_list(w, m) <==> (m == n || has_list(entries, m)) by {
            if m == n {
                assert(w[0].0 == m);
            }
        }
    } else if entries[0].0 == n {
        let first = (n, entries[0].1.push(c));
        assert(w =~= entries.update(0, first));
        if listed(w, x, y) {
            let i = choose|i: int| 0 <= i < w.len() && #[trigger] w[i].0 == x && w[i].1.contains(y);
            if i != 0 {
                assert(w[i] == entries[i]);
            } else if !(x == n && y == c) {
                assert(entries[0].1.contains(y));
                assert(entries[0].0 == x);
            }
        }
        if listed(entries, x, y) {
            let i = choose|i: int|
                0 <= i < entries.len() && #[trigger] entries[i].0 == x && entries[i].1.contains(y);
            if i == 0 {
                assert(w[0].1.contains(y));
                assert(w[0].0 == x);
            } else {
                assert(w[i] == entries[i]);
            }
        }
        if x == n && y == c {
            assert(w[0].1.contains(y));
            assert(w[0].0 == x);
        }
        assert forall|m: Seq<char>| #[trigger] has_list(w, m) <==> (m == n || has_list(entries, m)) by {
            if m == n {
                assert(w[0].0 == m);
            }
            if has_list(entries, m) {
                let i = choose|i: int| 0 <= i < entries.len() && #[trigger] entries[i].0 == m;
                assert(w[i].0 == entries[i].0);
            }
            if has_list(w, m) {
                let i = choose|i: int| 0 <= i < w.len() && #[trigger] w[i].0 == m;
                assert(w[i].0 == entries[i].0);
            }
        }
        if names_distinct(entries) {
            assert forall|i: int, j: int| 0 <= i < j < w.len() implies #[trigger] w[i].0 != #[trigger] w[j].0 by {
                assert(w[i].0 == entries[i].0 && w[j].0 == entries[j].0);
            }
        }
    } else {
        let rest = entries.drop_first();
        let wr = with_constraint(rest, n, c);
        lemma_with_constraint_listed(rest, n, c, x, y);
        assert(w =~= seq![entries[0]] + wr);
        if listed(w, x, y) {
            let i = choose|i: int| 0 <= i < w.len() && #[trigger] w[i].0 == x && w[i].1.contains(y);
            if i == 0 {
                assert(entries[0].0 == x && entries[0].1.contains(y));
            } else {
                assert(w[i] == wr[i - 1]);
                assert(listed(wr, x, y));
                if listed(rest, x, y) {
                    let k = choose|k: int|
                        0 <= k < rest.len() && #[trigger] rest[k].0 == x && rest[k].1.contains(y);
                    assert(entries[k + 1] == rest[k]);
                }
            }
        }
        if listed(entries, x, y) {
            let i = choose|i: int|
                0 <= i < entries.len() && #[trigger] entries[i].0 == x && entries[i].1.contains(y);
            if i == 0 {
                assert(w[0] == entries[0]);
            } else {
                assert(rest[i - 1] == entries[i]);
                assert(listed(rest, x, y));
                let k = choose|k: int|
                    0 <= k < wr.len() && #[trigger] wr[k].0 == x && wr[k].1.contains(y);
                assert(w[k + 1] == wr[k]);
            }
        }
        if x == n && y == c {
            let k = choose|k: int| 0 <= k < wr.len() && #[trigger] wr[k].0 == x && wr[k].1.contains(y);
            assert(w[k + 1] == wr[k]);
        }
        assert forall|m: Seq<char>| #[trigger] has_list(w, m) <==> (m == n || has_list(entries, m)) by {
            assert(has_list(wr, m) <==> (m == n || has_list(rest, m)));
            if has_list(w, m) {
                let i = choose|i: int| 0 <= i < w.len() && #[trigger] w[i].0 == m;
                if i == 0 {
                    assert(entries[0].0 == m);
                } else {
                    assert(wr[i - 1].0 == m);
                    if m != n {
                        let k = choose|k: int| 0 <= k < rest.len() && #[trigger] rest[k].0 == m;
                        assert(entries[k + 1].0 == m);
                    }
                }
            }
            if m == n || has_list(entries, m) {
                if m != n {
                    let i = choose|i: int| 0 <= i < entries.len() && #[trigger] entries[i].0 == m;
                    if i == 0 {
                        assert(w[0].0 == m);
                    } else {
                        assert(rest[i - 1].0 == m);
                        let k = choose|k: int| 0 <= k < wr.len() && #[trigger] wr[k].0 == m;
                        assert(w[k + 1].0 == m);
                    }
                } else {
                    let k = choose|k: int| 0 <= k < wr.len() && #[trigger] wr[k].0 == m;
                    assert(w[k + 1].0 == m);
                }
            }
        }
        if names_distinct(entries) {
            assert(names_distinct(rest)) by {
                assert forall|i: int, j: int| 0 <= i < j < rest.len() implies #[trigger] rest[i].0
                    != #[trigger] rest[j].0 by {
                    assert(rest[i] == entries[i + 1] && rest[j] == entries[j + 1]);
                }
            }
            assert forall|i: int, j: int| 0 <= i < j < w.len() implies #[trigger] w[i].0 != #[trigger] w[j].0 by {
                if i == 0 {
                    assert(w[j] == wr[j - 1]);
                    if wr[j - 1].0 == entries[0].0 {
                        assert(entries[0].0 != n);
                        assert(has_list(wr, entries[0].0));
                        assert(has_list(wr, entries[0].0) <==> (entries[0].0 == n || has_list(
                            rest,
                            entries[0].0,
                        )));
                        let k = choose|k: int| 0 <= k < rest.len() && #[trigger] rest[k].0 == entries[0].0;
                        assert(entries[k + 1].0 == entries[0].0);
                    }
                } else {
                    assert(w[i] == wr[i - 1] && w[j] == wr[j - 1]);
                }
            }
        }
    }
}

/// The check of the selected release `entry` against `q` and its own constraint.
pub open spec fn check_of(entry: (String, PackagistRelease), q: RequiredPackage) -> Result<bool, Seq<char>> {
    satisfies_requirement_spec(entry.0@, entry.1@, q, seq![q.constraint@])
}

/// `error` reports that a version could not be checked against `q`, with the
/// parser's message `m`.
pub open spec fn check_failure(error: ConcertoError, q: RequiredPackage, m: Seq<char>) -> bool {
    error matches ConcertoError::Resolution { package: p, constraints: c, message: msg } && p@
        == q.name@ && views(c@) == seq![q.constraint@] && msg@
        == "could not check package constraint: "@ + m
}

/// The check of the `j`th selected release against `q` succeeded.
pub open spec fn before_checked(
    entries: Seq<(Seq<char>, Seq<Seq<char>>)>,
    sel: Seq<(String, PackagistRelease)>,
    q: RequiredPackage,
    j: int,
) -> bool {
    listed_req(entries, q) && check_of(sel[j], q) is Ok
}

/// The check of a release does not depend on which value spells the requirement.
proof fn lemma_check_of_views(entry: (String, PackagistRelease), a: RequiredPackage, b: RequiredPackage)
    requires
        req_pair(a) == req_pair(b),
    ensures
        check_of(entry, a) == check_of(entry, b),
{
    assert(crate::resolver::capability_satisfies(entry.1@, a) == crate::resolver::capability_satisfies(entry.1@, b));
}

/// The selected release `entry` satisfies `q`, checked against `q`'s own constraint.
pub open spec fn selected_satisfies(entry: (String, PackagistRelease), q: RequiredPackage) -> bool {
    satisfies_requirement_spec(entry.0@, entry.1@, q, seq![q.constraint@]) == Ok::<bool, Seq<char>>(true)
}

/// `q` is a root requirement or a requirement of a selected release.
pub open spec fn is_source(
    roots: Seq<RequiredPackage>,
    selected: Seq<(String, PackagistRelease)>,
    q: RequiredPackage,
) -> bool {
    roots.contains(q) || exists|j: int|
        0 <= j < selected.len() && #[trigger] selected[j].1.package_requires@.contains(q)
}

/// The constraint of `q` is listed for its package.
pub open spec fn listed_req(entries: Seq<(Seq<char>, Seq<Seq<char>>)>, q: RequiredPackage) -> bool {
    listed(entries, q.name@, q.constraint@)
}

/// The constraint lists are closed: every requirement of a selected release that
/// satisfies a listed requirement is listed too.
pub open spec fn constraints_closed(
    roots: Seq<RequiredPackage>,
    selected: Seq<(String, PackagistRelease)>,
    entries: Seq<(Seq<char>, Seq<Seq<char>>)>,
) -> bool {
    forall|q: RequiredPackage, j: int, l: int|
        is_source(roots, selected, q) && #[trigger] listed_req(entries, q) && 0 <= j < selected.len()
            && #[trigger] selected_satisfies(selected[j], q) && 0 <= l
            < selected[j].1.package_requires@.len() ==> listed_req(
            entries,
            #[trigger] selected[j].1.package_requires@[l],
        )
}

/// The name and constraint of `q`.
pub open spec fn req_pair(q: RequiredPackage) -> (Seq<char>, Seq<char>) {
    (q.name@, q.constraint@)
}

/// `s` holds every root requirement, and with a requirement every requirement of
/// each selected release that satisfies it.
pub open spec fn closed_set(
    roots: Seq<RequiredPackage>,
    selected: Seq<(String, PackagistRelease)>,
    s: Set<(Seq<char>, Seq<char>)>,
) -> bool {
    &&& forall|i: int| 0 <= i < roots.len() ==> s.contains(req_pair(#[trigger] roots[i]))
    &&& forall|q: RequiredPackage, j: int, l: int|
        #[trigger] s.contains(req_pair(q)) && 0 <= j < selected.len() && #[trigger] selected_satisfies(
            selected[j],
            q,
        ) && 0 <= l < selected[j].1.package_requires@.len() ==> s.contains(
            req_pair(#[trigger] selected[j].1.package_requires@[l]),
        )
}

/// Every listed constraint and every waiting requirement lies in `s`.
pub open spec fn within(
    entries: Seq<(Seq<char>, Seq<Seq<char>>)>,
    pending: Seq<RequiredPackage>,
    s: Set<(Seq<char>, Seq<char>)>,
) -> bool {
    &&& forall|x: Seq<char>, y: Seq<char>| #[trigger] listed(entries, x, y) ==> s.contains((x, y))
    &&& forall|q: RequiredPackage| #[trigger] pending.contains(q) ==> s.contains(req_pair(q))
}

/// Whether `processed` holds the pair of `q`.
fn processed_holds(processed: &Vec<(String, String)>, q: &RequiredPackage) -> (r: bool)
    ensures
        r == exists|i: int|
            0 <= i < processed@.len() && (#[trigger] processed@[i]).0@ == q.name@ && processed@[i].1@
                == q.constraint@,
{
    let mut i: usize = 0;
    while i < processed.len()
        invariant
            i <= processed@.len(),
            forall|j: int|
                0 <= j < i ==> !((#[trigger] processed@[j]).0@ == q.name@ && processed@[j].1@
                    == q.constraint@),
        decreases processed@.len() - i,
    {
        if str_eq(processed[i].0.as_str(), q.name.as_str()) && str_eq(
            processed[i].1.as_str(),
            q.constraint.as_str(),
        ) {
            return true;
        }
        i = i + 1;
    }
    false
}

/// `q` is listed or still waits in `pending`.
pub open spec fn reached(
    entries: Seq<(Seq<char>, Seq<Seq<char>>)>,
    pending: Seq<RequiredPackage>,
    q: RequiredPackage,
) -> bool {
    listed_req(entries, q) || pending.contains(q)
}

/// The pair of `q` is in `processed`.
pub open spec fn processed_pair(processed: Seq<(String, String)>, x: Seq<char>, y: Seq<char>) -> bool {
    exists|i: int| 0 <= i < processed.len() && (#[trigger] processed[i]).0@ == x && processed[i].1@ == y
}

proof fn lemma_contains_concat(a: Seq<RequiredPackage>, b: Seq<RequiredPackage>, q: RequiredPackage)
    ensures
        (a + b).contains(q) <==> a.contains(q) || b.contains(q),
{
    if (a + b).contains(q) {
        let k = choose|k: int| 0 <= k < (a + b).len() && (a + b)[k] == q;
        if k < a.len() {
            assert(a[k] == q);
        } else {
            assert(b[k - a.len()] == q);
        }
    }
    if a.contains(q) {
        let k = choose|k: int| 0 <= k < a.len() && a[k] == q;
        assert((a + b)[k] == q);
    }
    if b.contains(q) {
        let k = choose|k: int| 0 <= k < b.len() && b[k] == q;
        assert((a + b)[a.len() + k] == q);
    }
}

proof fn lemma_contains_drop_last(a: Seq<RequiredPackage>, q: RequiredPackage)
    requires
        a.len() > 0,
    ensures
        a.contains(q) <==> a.drop_last().contains(q) || q == a.last(),
{
    if a.contains(q) {
        let k = choose|k: int| 0 <= k < a.len() && a[k] == q;
        if k < a.len() - 1 {
            assert(a.drop_last()[k] == q);
        }
    }
    if a.drop_last().contains(q) {
        let k = choose|k: int| 0 <= k < a.drop_last().len() && a.drop_last()[k] == q;
        assert(a[k] == q);
    }
    if q == a.last() {
        assert(a[a.len() - 1] == q);
    }
}

/// The constraints that reached each selected package: every root requirement, and
/// every requirement of a selected release that satisfies a requirement already
/// reached, each time it is reached, and nothing else: each listed constraint lies
/// in every set that holds the roots and is closed in that way. Every listed
/// requirement was checked against every selected release; it fails exactly when
/// such a check could not be made, with the error of that check.
pub fn selected_constraints(
    problem: &ResolutionProblem,
    selected: &Vec<(String, PackagistRelease)>,
) -> (r: Result<Vec<(String, Vec<String>)>, ConcertoError>)
    ensures
        r matches Ok(constraints) ==> {
            let m = constraint_entries(constraints@);
            &&& names_distinct(m)
            &&& forall|i: int|
                0 <= i < problem.root_requirements@.len() ==> listed_req(
                    m,
                    #[trigger] problem.root_requirements@[i],
                )
            &&& forall|x: Seq<char>, y: Seq<char>|
                #[trigger] listed(m, x, y) ==> exists|q: RequiredPackage|
                    is_source(problem.root_requirements@, selected@, q) && #[trigger] q.name@ == x
                        && q.constraint@ == y
            &&& constraints_closed(problem.root_requirements@, selected@, m)
            &&& forall|s: Set<(Seq<char>, Seq<char>)>|
                #[trigger] closed_set(problem.root_requirements@, selected@, s) ==> forall|
                    x: Seq<char>,
                    y: Seq<char>,
                | #[trigger] listed(m, x, y) ==> s.contains((x, y))
            &&& forall|q: RequiredPackage, j: int|
                #[trigger] listed_req(m, q) && 0 <= j < selected@.len() ==> #[trigger] check_of(
                    selected@[j],
                    q,
                ) is Ok
        },
        r matches Err(e) ==> exists|q: RequiredPackage, j: int|
            is_source(problem.root_requirements@, selected@, q) && (forall|
                s: Set<(Seq<char>, Seq<char>)>,
            |
                #[trigger] closed_set(problem.root_requirements@, selected@, s) ==> s.contains(
                    req_pair(q),
                )) && 0 <= j < selected@.len() && #[trigger] check_of(selected@[j], q) is Err
                && check_failure(e, q, check_of(selected@[j], q)->Err_0),
{
    let ghost roots = problem.root_requirements@;
    let ghost sel = selected@;
    let mut constraints: Vec<(String, Vec<String>)> = Vec::new();
    let mut pending = crate::composer::clone_requirements(&problem.root_requirements);
    let mut processed: Vec<(String, String)> = Vec::new();
    proof {
        assert(constraint_entries(constraints@) =~= Seq::<(Seq<char>, Seq<Seq<char>>)>::empty());
        assert forall|i: int| 0 <= i < roots.len() implies reached(
            constraint_entries(constraints@),
            pending@,
            #[trigger] roots[i],
        ) by {
            assert(pending@[i] == roots[i]);
        }
        assert forall|q: RequiredPackage| #[trigger] pending@.contains(q) implies is_source(roots, sel, q) by {
            assert(roots.contains(q));
        }
        assert forall|s: Set<(Seq<char>, Seq<char>)>| #[trigger] closed_set(roots, sel, s) implies within(
            constraint_entries(constraints@),
            pending@,
            s,
        ) by {
            assert forall|q: RequiredPackage| #[trigger] pending@.contains(q) implies s.contains(req_pair(q)) by {
                let k = choose|k: int| 0 <= k < pending@.len() && pending@[k] == q;
                assert(roots[k] == q);
            }
        }
    }
    while pending.len() > 0
        invariant
            roots == problem.root_requirements@,
            sel == selected@,
            names_distinct(constraint_entries(constraints@)),
            forall|x: Seq<char>, y: Seq<char>|
                #[trigger] listed(constraint_entries(constraints@), x, y) <==> processed_pair(
                    processed@,
                    x,
                    y,
                ),
            forall|q: RequiredPackage| #[trigger] pending@.contains(q) ==> is_source(roots, sel, q),
            forall|x: Seq<char>, y: Seq<char>|
                #[trigger] listed(constraint_entries(constraints@), x, y) ==> exists|q: RequiredPackage|
                    is_source(roots, sel, q) && #[trigger] q.name@ == x && q.constraint@ == y,
            forall|i: int|
                0 <= i < roots.len() ==> reached(
                    constraint_entries(constraints@),
                    pending@,
                    #[trigger] roots[i],
                ),
            forall|q: RequiredPackage, j: int, l: int|
                is_source(roots, sel, q) && #[trigger] listed_req(constraint_entries(constraints@), q)
                    && 0 <= j < sel.len() && #[trigger] selected_satisfies(sel[j], q) && 0 <= l
                    < sel[j].1.package_requires@.len() ==> reached(
                    constraint_entries(constraints@),
                    pending@,
                    #[trigger] sel[j].1.package_requires@[l],
                ),
            forall|s: Set<(Seq<char>, Seq<char>)>|
                #[trigger] closed_set(roots, sel, s) ==> within(constraint_entries(constraints@), pending@, s),
            forall|q: RequiredPackage, j: int|
                #[trigger] listed_req(constraint_entries(constraints@), q) && 0 <= j < sel.len()
                    ==> #[trigger] check_of(sel[j], q) is Ok,
        decreases usize::MAX - processed@.len(), pending@.len(),
    {
        let ghost before_pending = pending@;
        let ghost before_m = constraint_entries(constraints@);
        assert forall|q: RequiredPackage, j2: int|
            listed_req(before_m, q) && 0 <= j2 < sel.len() implies #[trigger] before_checked(before_m, sel, q, j2) by {
            assert(check_of(sel[j2], q) is Ok);
        }
        let requirement = pending.pop().unwrap();
        proof {
            assert(pending@ == before_pending.drop_last());
            assert(requirement == before_pending.last());
            lemma_contains_drop_last(before_pending, requirement);
            assert forall|q: RequiredPackage| #[trigger] before_pending.contains(q) <==> pending@.contains(q) || q == requirement by {
                lemma_contains_drop_last(before_pending, q);
            }
            assert forall|q: RequiredPackage| #[trigger] pending@.contains(q) implies is_source(roots, sel, q) by {
                lemma_contains_drop_last(before_pending, q);
            }
        }
        add_package_constraint(&mut constraints, &requirement);
        let ghost m = constraint_entries(constraints@);
        proof {
            assert forall|x: Seq<char>, y: Seq<char>|
                #[trigger] listed(m, x, y) <==> listed(before_m, x, y) || (x
                    == requirement.name@ && y == requirement.constraint@) by {
                lemma_with_constraint_listed(before_m, requirement.name@, requirement.constraint@, x, y);
            }
            lemma_with_constraint_listed(
                before_m,
                requirement.name@,
                requirement.constraint@,
                requirement.name@,
                requirement.constraint@,
            );
            assert forall|i: int| 0 <= i < roots.len() implies reached(m, pending@, #[trigger] roots[i]) by {
                assert(reached(before_m, before_pending, roots[i]));
                assert(listed(before_m, roots[i].name@, roots[i].constraint@) ==> listed(m, roots[i].name@, roots[i].constraint@));
            }
            assert forall|x: Seq<char>, y: Seq<char>| #[trigger] listed(m, x, y) implies exists|q: RequiredPackage|
                is_source(roots, sel, q) && #[trigger] q.name@ == x && q.constraint@ == y by {
                if !listed(before_m, x, y) {
                    assert(is_source(roots, sel, requirement));
                }
            }
            assert forall|s: Set<(Seq<char>, Seq<char>)>| #[trigger] closed_set(roots, sel, s) implies within(
                m,
                pending@,
                s,
            ) && s.contains(req_pair(requirement)) by {
                assert(within(before_m, before_pending, s));
                assert(before_pending.contains(requirement));
                assert forall|x: Seq<char>, y: Seq<char>| #[trigger] listed(m, x, y) implies s.contains((x, y)) by {
                    if !listed(before_m, x, y) {
                        assert((x, y) == req_pair(requirement));
                    }
                }
                assert forall|q: RequiredPackage| #[trigger] pending@.contains(q) implies s.contains(req_pair(q)) by {
                    assert(before_pending.contains(q));
                }
            }
        }
        if processed_holds(&processed, &requirement) {
            proof {
                assert forall|x: Seq<char>, y: Seq<char>| #[trigger] listed(m, x, y) <==> processed_pair(processed@, x, y) by {
                    if x == requirement.name@ && y == requirement.constraint@ {
                        assert(processed_pair(processed@, x, y));
                    }
                }
                assert forall|q: RequiredPackage, j: int, l: int|
                    is_source(roots, sel, q) && #[trigger] listed_req(m, q)
                        && 0 <= j < sel.len() && #[trigger] selected_satisfies(sel[j], q) && 0 <= l
                        < sel[j].1.package_requires@.len() implies reached(
                        m,
                        pending@,
                        #[trigger] sel[j].1.package_requires@[l],
                    ) by {
                    let t = sel[j].1.package_requires@[l];
                    assert(listed_req(before_m, q));
                    assert(reached(before_m, before_pending, t));
                    assert(listed(before_m, t.name@, t.constraint@) ==> listed(m, t.name@, t.constraint@));
                    if t == requirement {
                        assert(listed(m, t.name@, t.constraint@));
                    }
                }
                assert(listed(before_m, requirement.name@, requirement.constraint@));
                assert forall|q: RequiredPackage, j: int|
                    #[trigger] listed_req(m, q) && 0 <= j < sel.len() implies #[trigger] check_of(sel[j], q) is Ok by {
                    assert(listed_req(before_m, q));
                }
            }
            continue;
        }
        let ghost before_processed = processed@;
        processed.push((requirement.name.clone(), requirement.constraint.clone()));
        proof {
            assert forall|x: Seq<char>, y: Seq<char>| #[trigger] listed(m, x, y) <==> processed_pair(processed@, x, y) by {
                if processed_pair(processed@, x, y) {
                    let i = choose|i: int| 0 <= i < processed@.len() && (#[trigger] processed@[i]).0@ == x && processed@[i].1@ == y;
                    if i < before_processed.len() {
                        assert(processed@[i] == before_processed[i]);
                        assert(processed_pair(before_processed, x, y));
                    }
                }
                if processed_pair(before_processed, x, y) {
                    let i = choose|i: int| 0 <= i < before_processed.len() && (#[trigger] before_processed[i]).0@ == x && before_processed[i].1@ == y;
                    assert(processed@[i] == before_processed[i]);
                }
                if x == requirement.name@ && y == requirement.constraint@ {
                    assert(processed@[before_processed.len() as int].0@ == x);
                }
            }
            assert(!listed(before_m, requirement.name@, requirement.constraint@));
            assert forall|q: RequiredPackage, j2: int, l: int|
                is_source(roots, sel, q) && #[trigger] listed_req(m, q)
                    && 0 <= j2 < sel.len() && #[trigger] selected_satisfies(sel[j2], q) && 0 <= l
                    < sel[j2].1.package_requires@.len() && !(q.name@ == requirement.name@
                    && q.constraint@ == requirement.constraint@ && j2 >= 0) implies reached(
                    m,
                    pending@,
                    #[trigger] sel[j2].1.package_requires@[l],
                ) by {
                let t = sel[j2].1.package_requires@[l];
                assert(listed_req(before_m, q));
                assert(reached(before_m, before_pending, t));
                assert(listed(before_m, t.name@, t.constraint@) ==> listed(m, t.name@, t.constraint@));
                if t == requirement {
                    assert(listed(m, t.name@, t.constraint@));
                }
            }
        }
        let mut constraint_list: Vec<String> = Vec::new();
        constraint_list.push(requirement.constraint.clone());
        assert(views(constraint_list@) =~= seq![requirement.constraint@]);
        let mut j: usize = 0;
        while j < selected.len()
            invariant
                j <= selected@.len(),
                sel == selected@,
                roots == problem.root_requirements@,
                m == constraint_entries(constraints@),
                views(constraint_list@) == seq![requirement.constraint@],
                is_source(roots, sel, requirement),
                listed_req(m, requirement),
                forall|q: RequiredPackage| #[trigger] pending@.contains(q) ==> is_source(roots, sel, q),
                forall|i: int| 0 <= i < roots.len() ==> reached(m, pending@, #[trigger] roots[i]),
                forall|q: RequiredPackage, j2: int, l: int|
                    is_source(roots, sel, q) && #[trigger] listed_req(m, q)
                        && 0 <= j2 < sel.len() && #[trigger] selected_satisfies(sel[j2], q) && 0 <= l
                        < sel[j2].1.package_requires@.len() && !(q.name@ == requirement.name@
                        && q.constraint@ == requirement.constraint@ && j2 >= j) ==> reached(
                        m,
                        pending@,
                        #[trigger] sel[j2].1.package_requires@[l],
                    ),
                forall|s: Set<(Seq<char>, Seq<char>)>|
                    #[trigger] closed_set(roots, sel, s) ==> within(m, pending@, s) && s.contains(
                        req_pair(requirement),
                    ),
                forall|j2: int| 0 <= j2 < j ==> #[trigger] check_of(sel[j2], requirement) is Ok,
            decreases selected@.len() - j,
        {
            let entry = &selected[j];
            let ghost before_inner = pending@;
            let satisfied = match release_satisfies_requirement(
                entry.0.as_str(),
                &entry.1,
                &requirement,
                &constraint_list,
            ) {
                Ok(b) => b,
                Err(error) => {
                    proof {
                        assert(check_of(sel[j as int], requirement) is Err);
                        assert(check_failure(error, requirement, check_of(sel[j as int], requirement)->Err_0));
                    }
                    return Err(error);
                },
            };
            if satisfied {
                crate::composer::append_requirements(&mut pending, &entry.1.package_requires);
            }
            proof {
                let reqs = entry.1.package_requires@;
                assert(satisfied == selected_satisfies(sel[j as int], requirement));
                assert(check_of(sel[j as int], requirement) is Ok);
                assert forall|q: RequiredPackage| #[trigger] pending@.contains(q) implies is_source(roots, sel, q) by {
                    if satisfied {
                        lemma_contains_concat(before_inner, reqs, q);
                        if reqs.contains(q) {
                            assert(sel[j as int].1.package_requires@.contains(q));
                        }
                    }
                }
                assert forall|q: RequiredPackage| #[trigger] before_inner.contains(q) implies pending@.contains(q) by {
                    if satisfied {
                        lemma_contains_concat(before_inner, reqs, q);
                    }
                }
                assert forall|s: Set<(Seq<char>, Seq<char>)>| #[trigger] closed_set(roots, sel, s) implies within(
                    m,
                    pending@,
                    s,
                ) && s.contains(req_pair(requirement)) by {
                    assert(within(m, before_inner, s));
                    assert forall|q: RequiredPackage| #[trigger] pending@.contains(q) implies s.contains(req_pair(q)) by {
                        if satisfied {
                            lemma_contains_concat(before_inner, reqs, q);
                            if reqs.contains(q) {
                                let l = choose|l: int| 0 <= l < reqs.len() && reqs[l] == q;
                                assert(s.contains(req_pair(sel[j as int].1.package_requires@[l])));
                            }
                        }
                    }
                }
                assert forall|i: int| 0 <= i < roots.len() implies reached(m, pending@, #[trigger] roots[i]) by {
                    assert(reached(m, before_inner, roots[i]));
                    if before_inner.contains(roots[i]) {
                        assert(pending@.contains(roots[i]));
                    }
                }
                assert forall|q: RequiredPackage, j2: int, l: int|
                    is_source(roots, sel, q) && #[trigger] listed_req(m, q)
                        && 0 <= j2 < sel.len() && #[trigger] selected_satisfies(sel[j2], q) && 0 <= l
                        < sel[j2].1.package_requires@.len() && !(q.name@ == requirement.name@
                        && q.constraint@ == requirement.constraint@ && j2 >= j + 1) implies reached(
                        m,
                        pending@,
                        #[trigger] sel[j2].1.package_requires@[l],
                    ) by {
                    let t = sel[j2].1.package_requires@[l];
                    if q.name@ == requirement.name@ && q.constraint@ == requirement.constraint@ && j2 == j {
                        assert(selected_satisfies(sel[j2], q) == selected_satisfies(sel[j2], requirement));
                        lemma_contains_concat(before_inner, reqs, t);
                        assert(reqs[l] == t);
                    } else {
                        assert(reached(m, before_inner, t));
                        if before_inner.contains(t) {
                            assert(pending@.contains(t));
                        }
                    }
                }
            }
            j = j + 1;
        }
        proof {
            assert forall|q: RequiredPackage, j2: int|
                #[trigger] listed_req(m, q) && 0 <= j2 < sel.len() implies #[trigger] check_of(sel[j2], q) is Ok by {
                if listed_req(before_m, q) {
                    assert(before_checked(before_m, sel, q, j2));
                } else {
                    assert(req_pair(q) == req_pair(requirement));
                    lemma_check_of_views(sel[j2], q, requirement);
                    assert(check_of(sel[j2], requirement) is Ok);
                }
            }
        }
        // A vector's length fits in `usize`, which bounds how often the set can grow.
        assert(processed@.len() <= usize::MAX) by {
            let _ = processed.len();
        }
    }
    proof {
        let m = constraint_entries(constraints@);
        assert(pending@.len() == 0);
        assert forall|q: RequiredPackage| !(#[trigger] pending@.contains(q)) by {}
    }
    Ok(constraints)
}

// ---------------------------------------------------------------------------
// Resolved packages
// ---------------------------------------------------------------------------

/// The entry of a selected release, with the constraints that reached it.
pub open spec fn entry_of(release: ReleaseModel, constraints: Seq<Seq<char>>, entry: ResolvedPackageEntry) -> bool {
    &&& entry.version@ == release.version
    &&& entry.dist_url@ == release.dist_url
    &&& opt_view(entry.dist_shasum) == release.dist_shasum
    &&& views(entry.constraints@) == constraints
    &&& entry.package_requires@ == release.package_requires
    &&& entry.platform_requires@ == release.platform_requires
    &&& entry.provides@ == release.provides
    &&& entry.replaces@ == release.replaces
}

/// The constraints listed for `name`, or none.
pub open spec fn constraints_for(entries: Seq<(Seq<char>, Seq<Seq<char>>)>, name: Seq<char>) -> Seq<Seq<char>> {
    match crate::solver::assoc_lookup(entries, name) {
        Some(list) => list,
        None => Seq::empty(),
    }
}

/// The list of `name` among the constraint lists, or an empty one.
fn constraints_of_package(constraints: &Vec<(String, Vec<String>)>, name: &str) -> (r: Vec<String>)
    ensures
        views(r@) == constraints_for(constraint_entries(constraints@), name@),
{
    let ghost model = constraint_entries(constraints@);
    let mut i: usize = 0;
    while i < constraints.len()
        invariant
            i <= constraints@.len(),
            model == constraint_entries(constraints@),
            forall|j: int| 0 <= j < i ==> #[trigger] model[j].0 != name@,
        decreases constraints@.len() - i,
    {
        if str_eq(constraints[i].0.as_str(), name) {
            proof {
                crate::solver::lemma_assoc_at(model, name@, i as int);
            }
            return clone_strings(&constraints[i].1);
        }
        i = i + 1;
    }
    proof {
        crate::solver::lemma_assoc_none(model, name@);
    }
    let none: Vec<String> = Vec::new();
    assert(views(none@) =~= Seq::<Seq<char>>::empty());
    none
}

/// The resolved entry of each selected release, in the same order.
pub fn resolved_package_entries(
    selected: Vec<(String, PackagistRelease)>,
    constraints: &Vec<(String, Vec<String>)>,
) -> (r: Vec<(String, ResolvedPackageEntry)>)
    ensures
        r@.len() == selected@.len(),
        forall|i: int|
            0 <= i < r@.len() ==> (#[trigger] r@[i]).0@ == selected@[i].0@ && entry_of(
                selected@[i].1@,
                constraints_for(constraint_entries(constraints@), selected@[i].0@),
                r@[i].1,
            ),
{
    let mut out: Vec<(String, ResolvedPackageEntry)> = Vec::new();
    let mut i: usize = 0;
    while i < selected.len()
        invariant
            i <= selected@.len(),
            out@.len() == i,
            forall|j: int|
                0 <= j < i ==> (#[trigger] out@[j]).0@ == selected@[j].0@ && entry_of(
                    selected@[j].1@,
                    constraints_for(constraint_entries(constraints@), selected@[j].0@),
                    out@[j].1,
                ),
        decreases selected@.len() - i,
    {
        let name = &selected[i].0;
        let release = &selected[i].1;
        let entry = ResolvedPackageEntry {
            version: release.version.clone(),
            dist_url: release.dist_url.clone(),
            dist_shasum: match &release.dist_shasum {
                Some(s) => Some(s.clone()),
                None => None,
            },
            constraints: constraints_of_package(constraints, name.as_str()),
            package_requires: crate::composer::clone_requirements(&release.package_requires),
            platform_requires: crate::composer::clone_requirements(&release.platform_requires),
            provides: crate::composer::clone_requirements(&release.provides),
            replaces: crate::composer::clone_requirements(&release.replaces),
        };
        out.push((name.clone(), entry));
        i = i + 1;
    }
    out
}

/// The names of the selected packages, sorted.
pub fn sorted_selected_names(selected: &Vec<(String, PackagistRelease)>) -> (r: Vec<String>)
    ensures
        crate::order::strictly_sorted(views(r@)),
        views(r@).to_set() == crate::resolver::entry_names(selected@).to_set(),
{
    let mut names: Vec<String> = Vec::new();
    let mut i: usize = 0;
    while i < selected.len()
        invariant
            i <= selected@.len(),
            views(names@) == crate::resolver::entry_names(selected@).take(i as int),
        decreases selected@.len() - i,
    {
        let ghost before = names@;
        let name = selected[i].0.clone();
        assert(name@ == selected@[i as int].0@);
        names.push(name);
        assert(views(names@) =~= views(before).push(selected@[i as int].0@));
        assert(crate::resolver::entry_names(selected@).take(i + 1) =~= crate::resolver::entry_names(
            selected@,
        ).take(i as int).push(selected@[i as int].0@));
        i = i + 1;
    }
    assert(crate::resolver::entry_names(selected@).take(selected@.len() as int)
        =~= crate::resolver::entry_names(selected@));
    crate::order::sorted_unique(&names)
}

// ---------------------------------------------------------------------------
// Solving the dependency graph
// ---------------------------------------------------------------------------

/// What the solver's tables held when it last ran.
#[derive(Debug)]
pub struct SolverStats {
    pub versions: usize,
    pub dependencies: usize,
    pub provider_versions: usize,
}

impl SolverStats {
    /// No run yet.
    pub fn new() -> (r: Self)
        ensures
            r.versions == 0 && r.dependencies == 0 && r.provider_versions == 0,
    {
        SolverStats { versions: 0, dependencies: 0, provider_versions: 0 }
    }
}

/// Searches a solution for the tables: a version for each package it decided, or its
/// report of why there is none. Its answers are taken as they come.
pub trait DependencySolver {
    fn solve(&mut self, tables: &SolverTables) -> Result<Vec<(PubGrubPackage, PubGrubVersion)>, String>;
}

/// Told of each selected release, in the order of package names.
pub trait ResolutionObserver {
    fn package_selected(&mut self, package_name: &str, release: &PackagistRelease);
}

/// What the solver answered: the versions it decided, or its report.
pub type SolverAnswer = Result<Seq<(PubGrubPackage, PubGrubVersion)>, Seq<char>>;

/// The answer as a model.
pub open spec fn answer_model(r: Result<Vec<(PubGrubPackage, PubGrubVersion)>, String>) -> SolverAnswer {
    match r {
        Ok(v) => Ok(v@),
        Err(m) => Err(m@),
    }
}

/// A solver together with the record of each time it was asked: the tables, and what
/// it answered.
pub struct LoggedSolver<S> {
    pub solver: S,
    answers: Ghost<Seq<(SolverTables, SolverAnswer)>>,
}

impl<S: DependencySolver> LoggedSolver<S> {
    /// Each time the solver was asked, oldest first.
    pub closed spec fn answers(&self) -> Seq<(SolverTables, SolverAnswer)> {
        self.answers@
    }

    /// A solver not asked yet.
    pub fn new(solver: S) -> (r: Self)
        ensures
            r.answers() == Seq::<(SolverTables, SolverAnswer)>::empty(),
    {
        LoggedSolver { solver, answers: Ghost(Seq::empty()) }
    }

    /// Asks the solver for a solution of `tables`.
    pub fn solve(&mut self, tables: &SolverTables) -> (r: Result<Vec<(PubGrubPackage, PubGrubVersion)>, String>)
        ensures
            final(self).answers() == old(self).answers().push((*tables, answer_model(r))),
    {
        let r = self.solver.solve(tables);
        proof {
            self.answers@ = self.answers@.push((*tables, answer_model(r)));
        }
        r
    }
}

/// An observer together with the record of what it was told: package names and the
/// selected releases' models.
pub struct LoggedObserver<O> {
    pub observer: O,
    notified: Ghost<Seq<(Seq<char>, ReleaseModel)>>,
}

impl<O: ResolutionObserver> LoggedObserver<O> {
    /// What the observer was told, oldest first.
    pub closed spec fn notified(&self) -> Seq<(Seq<char>, ReleaseModel)> {
        self.notified@
    }

    /// An observer told nothing yet.
    pub fn new(observer: O) -> (r: Self)
        ensures
            r.notified() == Seq::<(Seq<char>, ReleaseModel)>::empty(),
    {
        LoggedObserver { observer, notified: Ghost(Seq::empty()) }
    }

    /// Tells the observer that `release` was selected for `package_name`.
    pub fn package_selected(&mut self, package_name: &str, release: &PackagistRelease)
        ensures
            final(self).notified() == old(self).notified().push((package_name@, release@)),
    {
        self.observer.package_selected(package_name, release);
        proof {
            self.notified@ = self.notified@.push((package_name@, release@));
        }
    }
}

/// Some selected release meets `q`: the package itself at a version that meets `q`'s
/// constraint, or through a capability that provides or replaces it.
pub open spec fn requirement_met(selected: Seq<(String, PackagistRelease)>, q: RequiredPackage) -> bool {
    exists|i: int| 0 <= i < selected.len() && #[trigger] check_of(selected[i], q) == Ok::<bool, Seq<char>>(true)
}

/// The conflict `c` of a selected release hits a selected release: the package `c`
/// names, at a version that meets `c`'s constraint.
pub open spec fn conflict_hit(selected: Seq<(String, PackagistRelease)>, c: RequiredPackage) -> bool {
    exists|i: int|
        0 <= i < selected.len() && (#[trigger] selected[i]).0@ == c.name@ && constraints_outcome(
            selected[i].1@.version,
            seq![c.constraint@],
        ) == Ok::<bool, Seq<char>>(true)
}

/// The selection meets every root requirement and every requirement of a selected
/// release, and no conflict of a selected release hits it.
pub open spec fn selection_sound(roots: Seq<RequiredPackage>, selected: Seq<(String, PackagistRelease)>) -> bool {
    &&& forall|i: int| 0 <= i < roots.len() ==> requirement_met(selected, #[trigger] roots[i])
    &&& forall|j: int, l: int|
        0 <= j < selected.len() && 0 <= l < selected[j].1.package_requires@.len() ==> requirement_met(
            selected,
            #[trigger] selected[j].1.package_requires@[l],
        )
    &&& forall|j: int, l: int|
        0 <= j < selected.len() && 0 <= l < selected[j].1.conflicts@.len() ==> !conflict_hit(
            selected,
            #[trigger] selected[j].1.conflicts@[l],
        )
}

/// Whether some selected release meets `q`.
fn meets_requirement(selected: &Vec<(String, PackagistRelease)>, q: &RequiredPackage) -> (r: bool)
    ensures
        r == requirement_met(selected@, *q),
{
    let mut constraint_list: Vec<String> = Vec::new();
    constraint_list.push(q.constraint.clone());
    assert(views(constraint_list@) =~= seq![q.constraint@]);
    let mut i: usize = 0;
    while i < selected.len()
        invariant
            i <= selected@.len(),
            views(constraint_list@) == seq![q.constraint@],
            forall|k: int| 0 <= k < i ==> #[trigger] check_of(selected@[k], *q) != Ok::<bool, Seq<char>>(true),
        decreases selected@.len() - i,
    {
        let entry = &selected[i];
        if let Ok(true) = release_satisfies_requirement(entry.0.as_str(), &entry.1, q, &constraint_list) {
            assert(check_of(selected@[i as int], *q) == Ok::<bool, Seq<char>>(true));
            return true;
        }
        i = i + 1;
    }
    false
}

/// Whether the conflict `c` hits a selected release.
fn hits_conflict(selected: &Vec<(String, PackagistRelease)>, c: &RequiredPackage) -> (r: bool)
    ensures
        r == conflict_hit(selected@, *c),
{
    let mut constraint_list: Vec<String> = Vec::new();
    constraint_list.push(c.constraint.clone());
    assert(views(constraint_list@) =~= seq![c.constraint@]);
    let mut i: usize = 0;
    while i < selected.len()
        invariant
            i <= selected@.len(),
            views(constraint_list@) == seq![c.constraint@],
            forall|k: int|
                0 <= k < i ==> !((#[trigger] selected@[k]).0@ == c.name@ && constraints_outcome(
                    selected@[k].1@.version,
                    seq![c.constraint@],
                ) == Ok::<bool, Seq<char>>(true)),
        decreases selected@.len() - i,
    {
        let entry = &selected[i];
        if str_eq(entry.0.as_str(), c.name.as_str()) {
            if let Ok(true) = entry.1.matches_constraints(c.name.as_str(), &constraint_list) {
                return true;
            }
        }
        i = i + 1;
    }
    false
}

/// Whether the selection meets every root requirement and every requirement of a
/// selected release, and no conflict of a selected release hits it.
pub fn selection_is_sound(roots: &Vec<RequiredPackage>, selected: &Vec<(String, PackagistRelease)>) -> (r: bool)
    ensures
        r == selection_sound(roots@, selected@),
{
    let mut i: usize = 0;
    while i < roots.len()
        invariant
            i <= roots@.len(),
            forall|k: int| 0 <= k < i ==> requirement_met(selected@, #[trigger] roots@[k]),
        decreases roots@.len() - i,
    {
        if !meets_requirement(selected, &roots[i]) {
            return false;
        }
        i = i + 1;
    }
    let mut j: usize = 0;
    while j < selected.len()
        invariant
            j <= selected@.len(),
            forall|k: int| 0 <= k < roots@.len() ==> requirement_met(selected@, #[trigger] roots@[k]),
            forall|a: int, l: int|
                0 <= a < j && 0 <= l < selected@[a].1.package_requires@.len() ==> requirement_met(
                    selected@,
                    #[trigger] selected@[a].1.package_requires@[l],
                ),
            forall|a: int, l: int|
                0 <= a < j && 0 <= l < selected@[a].1.conflicts@.len() ==> !conflict_hit(
                    selected@,
                    #[trigger] selected@[a].1.conflicts@[l],
                ),
        decreases selected@.len() - j,
    {
        let release = &selected[j].1;
        let mut l: usize = 0;
        while l < release.package_requires.len()
            invariant
                l <= release.package_requires@.len(),
                j < selected@.len(),
                release == selected@[j as int].1,
                forall|m: int| 0 <= m < l ==> requirement_met(selected@, #[trigger] release.package_requires@[m]),
            decreases release.package_requires@.len() - l,
        {
            if !meets_requirement(selected, &release.package_requires[l]) {
                assert(!requirement_met(selected@, selected@[j as int].1.package_requires@[l as int]));
                return false;
            }
            l = l + 1;
        }
        let mut l: usize = 0;
        while l < release.conflicts.len()
            invariant
                l <= release.conflicts@.len(),
                j < selected@.len(),
                release == selected@[j as int].1,
                forall|m: int| 0 <= m < l ==> !conflict_hit(selected@, #[trigger] release.conflicts@[m]),
            decreases release.conflicts@.len() - l,
        {
            if hits_conflict(selected, &release.conflicts[l]) {
                assert(conflict_hit(selected@, selected@[j as int].1.conflicts@[l as int]));
                return false;
            }
            l = l + 1;
        }
        j = j + 1;
    }
    true
}

/// The constraint lists `entries` are exactly what reaches the selected releases: each
/// package once, every root requirement listed, every listed constraint coming from a
/// root requirement or a selected release's requirement, nothing that a selected
/// release satisfying a listed requirement requires left out, and nothing listed that
/// lies outside a set holding the roots and closed in that way.
pub open spec fn constraints_reached(
    roots: Seq<RequiredPackage>,
    selected: Seq<(String, PackagistRelease)>,
    entries: Seq<(Seq<char>, Seq<Seq<char>>)>,
) -> bool {
    &&& names_distinct(entries)
    &&& forall|i: int| 0 <= i < roots.len() ==> listed_req(entries, #[trigger] roots[i])
    &&& forall|x: Seq<char>, y: Seq<char>|
        #[trigger] listed(entries, x, y) ==> exists|q: RequiredPackage|
            is_source(roots, selected, q) && #[trigger] q.name@ == x && q.constraint@ == y
    &&& constraints_closed(roots, selected, entries)
    &&& forall|s: Set<(Seq<char>, Seq<char>)>|
        #[trigger] closed_set(roots, selected, s) ==> forall|x: Seq<char>, y: Seq<char>|
            #[trigger] listed(entries, x, y) ==> s.contains((x, y))
}

/// `resolved` reports the releases `selected` for the root requirements `roots`, each
/// with the constraints that reached it; the selection meets every requirement and
/// hits no conflict.
pub open spec fn reports_selection(
    roots: Seq<RequiredPackage>,
    selected: Seq<(String, PackagistRelease)>,
    entries: Seq<(Seq<char>, Seq<Seq<char>>)>,
    resolved: Seq<(String, ResolvedPackageEntry)>,
) -> bool {
    &&& names_unique(selected)
    &&& selection_sound(roots, selected)
    &&& constraints_reached(roots, selected, entries)
    &&& resolved.len() == selected.len()
    &&& forall|i: int|
        0 <= i < resolved.len() ==> (#[trigger] resolved[i]).0@ == selected[i].0@ && entry_of(
            selected[i].1@,
            constraints_for(entries, selected[i].0@),
            resolved[i].1,
        )
}

/// The root requirements of constraint lists: each (package, constraint) pair, sorted.
pub open spec fn roots_of(
    package_constraints: Seq<(String, Vec<String>)>,
    roots: Seq<RequiredPackage>,
) -> bool {
    crate::lockfile::requirement_pairs(roots) == crate::resolver::flattened(
        constraint_entries(package_constraints),
    ).sort_by(crate::order::pair_order())
}

/// `resolved` reports some sound selection of releases for the root constraints, each
/// with the constraints that reached it.
pub open spec fn explained(
    package_constraints: Seq<(String, Vec<String>)>,
    resolved: Seq<(String, ResolvedPackageEntry)>,
) -> bool {
    exists|roots: Seq<RequiredPackage>, selected: Seq<(String, PackagistRelease)>, entries: Seq<
        (Seq<char>, Seq<Seq<char>>),
    >|
        roots_of(package_constraints, roots) && #[trigger] reports_selection(
            roots,
            selected,
            entries,
            resolved,
        )
}

/// The message when the solver's answer does not meet the requirements it was given.
pub const UNSOUND_SELECTION: &'static str =
    "the solver's selection does not meet every requirement or hits a conflict";

/// What solving gives: the constraint lists that reached the selected releases, and
/// those releases; or a message.
pub type Solved = Result<(Vec<(String, Vec<String>)>, Vec<(String, PackagistRelease)>), String>;

/// The selection `selected` of the solution cannot stand, and `m` says why: it does
/// not meet the requirements or hits a conflict, or a requirement that reaches it could
/// not be checked against one of its releases.
pub open spec fn unsettled(
    problem: ResolutionProblem,
    solution: Seq<(PubGrubPackage, PubGrubVersion)>,
    selected: Seq<(String, PackagistRelease)>,
    m: Seq<char>,
) -> bool {
    let roots = problem.root_requirements@;
    &&& names_unique(selected)
    &&& selected_map(selected) == solution_selected(problem.releases@, solution)
    &&& if !selection_sound(roots, selected) {
        m == UNSOUND_SELECTION@
    } else {
        exists|q: RequiredPackage, j: int, e: ConcertoError|
            is_source(roots, selected, q) && (forall|s: Set<(Seq<char>, Seq<char>)>|
                #[trigger] closed_set(roots, selected, s) ==> s.contains(req_pair(q))) && 0 <= j < selected.len()
                && check_of(selected[j], q) is Err && #[trigger] check_failure(e, q, check_of(selected[j], q)->Err_0)
                && m == e.message_spec()
    }
}

/// What the solver's answer `answer` comes to for `problem`: its report when it found no
/// solution; otherwise the releases it selects, which meet the requirements, with the
/// constraints that reached them, or why that selection cannot stand.
pub open spec fn settled(problem: ResolutionProblem, answer: SolverAnswer, r: Solved) -> bool {
    match answer {
        Err(m) => r is Err && r->Err_0@ == m,
        Ok(solution) => if r is Ok {
            let selected = r->Ok_0.1@;
            &&& names_unique(selected)
            &&& selected_map(selected) == solution_selected(problem.releases@, solution)
            &&& selection_sound(problem.root_requirements@, selected)
            &&& constraints_reached(problem.root_requirements@, selected, constraint_entries(r->Ok_0.0@))
        } else {
            exists|selected: Seq<(String, PackagistRelease)>| #[trigger] unsettled(problem, solution, selected, r->Err_0@)
        },
    }
}

/// What the solver's answer comes to: its report when it found no solution; otherwise
/// the releases it selects with the constraints that reached them, or why that
/// selection cannot stand.
pub fn settle_answer(problem: &ResolutionProblem, answer: Result<Vec<(PubGrubPackage, PubGrubVersion)>, String>) -> (r: Solved)
    requires
        releases_well_formed(problem.releases@),
    ensures
        settled(*problem, answer_model(answer), r),
{
    let ghost model = answer_model(answer);
    let solution = match answer {
        Ok(solution) => solution,
        Err(message) => {
            return Err(message);
        },
    };
    assert(model == Ok::<Seq<(PubGrubPackage, PubGrubVersion)>, Seq<char>>(solution@));
    let selected = selected_from_solution(problem, &solution);
    if !selection_is_sound(&problem.root_requirements, &selected) {
        let message = UNSOUND_SELECTION.to_owned();
        proof {
            assert(message@ == UNSOUND_SELECTION@);
            let rr: Solved = Err(message);
            assert(unsettled(*problem, model->Ok_0, selected@, rr->Err_0@));
            assert(settled(*problem, model, rr));
        }
        return Err(message);
    }
    match selected_constraints(problem, &selected) {
        Ok(constraints) => {
            assert(constraints_reached(problem.root_requirements@, selected@, constraint_entries(constraints@)));
            Ok((constraints, selected))
        },
        Err(error) => {
            let message = error.message();
            proof {
                let roots = problem.root_requirements@;
                let sel = selected@;
                let (q, j) = choose|q: RequiredPackage, j: int|
                    is_source(roots, sel, q) && (forall|s: Set<(Seq<char>, Seq<char>)>|
                        #[trigger] closed_set(roots, sel, s) ==> s.contains(req_pair(q))) && 0 <= j < sel.len()
                        && #[trigger] check_of(sel[j], q) is Err && check_failure(error, q, check_of(sel[j], q)->Err_0);
                assert(check_failure(error, q, check_of(sel[j], q)->Err_0));
                let rr: Solved = Err(message);
                assert(unsettled(*problem, model->Ok_0, sel, rr->Err_0@));
                assert(settled(*problem, model, rr));
            }
            Err(message)
        },
    }
}

/// One solving of `problem`: no answer when its tables could not be built, which
/// happens only where a version cannot be checked against a constraint it is asked
/// about; otherwise the solver was asked once, on the problem's tables, and `r` is
/// what its answer comes to.
pub open spec fn solve_step(problem: ResolutionProblem, answers: Seq<(SolverTables, SolverAnswer)>, r: Solved) -> bool {
    if answers.len() == 0 {
        r is Err && !crate::solver::problem_checkable(problem.root_requirements@, problem.releases@)
    } else {
        &&& answers.len() == 1
        &&& crate::solver::tables_for(answers[0].0, problem)
        &&& settled(problem, answers[0].1, r)
    }
}

/// The statistics describe `tables`: how many versions, dependencies and capability
/// versions they list.
pub open spec fn stats_of(tables: SolverTables, stats: SolverStats) -> bool {
    &&& stats.versions == crate::solver::capped(crate::solver::total_versions(crate::solver::versions_model(tables.versions@)))
    &&& stats.dependencies == crate::solver::capped(
        crate::solver::total_dependencies(crate::solver::dependencies_model(tables.dependencies@)),
    )
    &&& stats.provider_versions == crate::solver::capped(
        crate::solver::total_provided(crate::solver::versions_model(tables.versions@)),
    )
}

/// `stats` describes the tables the solver was last asked on, or is `before` where it
/// was never asked.
pub open spec fn stats_follow(answers: Seq<(SolverTables, SolverAnswer)>, before: SolverStats, stats: SolverStats) -> bool {
    if answers.len() == 0 {
        stats == before
    } else {
        stats_of(answers.last().0, stats)
    }
}

/// `later` is `earlier` with more at its end.
pub open spec fn extends<T>(earlier: Seq<T>, later: Seq<T>) -> bool {
    later.len() >= earlier.len() && later.take(earlier.len() as int) == earlier
}

/// Solves one problem: builds its tables, records their sizes, asks the solver and
/// settles its answer.
fn solve_problem<S: DependencySolver>(
    problem: &ResolutionProblem,
    solver: &mut LoggedSolver<S>,
    stats: &mut SolverStats,
) -> (r: Solved)
    requires
        releases_well_formed(problem.releases@),
    ensures
        extends(old(solver).answers(), final(solver).answers()),
        solve_step(*problem, final(solver).answers().skip(old(solver).answers().len() as int), r),
        stats_follow(final(solver).answers().skip(old(solver).answers().len() as int), *old(stats), *final(stats)),
{
    let ghost before = solver.answers();
    proof {
        assert(solver.answers().take(before.len() as int) =~= before);
        assert(solver.answers().skip(before.len() as int) =~= Seq::<(SolverTables, SolverAnswer)>::empty());
    }
    let tables = match SolverTables::new(problem) {
        Ok(tables) => tables,
        Err(error) => {
            return Err(error.message());
        },
    };
    stats.versions = tables.version_count();
    stats.dependencies = tables.dependency_count();
    stats.provider_versions = tables.provider_version_count();
    let answer = solver.solve(&tables);
    proof {
        assert(solver.answers().take(before.len() as int) =~= before);
        assert(solver.answers().skip(before.len() as int) =~= seq![(tables, answer_model(answer))]);
    }
    settle_answer(problem, answer)
}

/// An attempt at the root requirements `roots`: collecting with the exchanges `log`
/// built `problem`, and solving it went as `answers` and `r` say.
pub open spec fn attempt_on(
    problem: ResolutionProblem,
    roots: Seq<RequiredPackage>,
    discover: bool,
    log: Seq<Exchange>,
    answers: Seq<(SolverTables, SolverAnswer)>,
    r: Solved,
) -> bool {
    &&& problem.root_requirements@ == roots
    &&& releases_well_formed(problem.releases@)
    &&& collect_run(roots, discover, log) == Some(Ok::<Seq<(Seq<char>, ReleaseModel)>, Failure>(entries_of(problem.releases@)))
    &&& solve_step(problem, answers, r)
}

/// Some problem was built and solved so: see `attempt_on`.
pub open spec fn attempt(
    roots: Seq<RequiredPackage>,
    discover: bool,
    log: Seq<Exchange>,
    answers: Seq<(SolverTables, SolverAnswer)>,
    r: Solved,
) -> bool {
    exists|problem: ResolutionProblem| #[trigger] attempt_on(problem, roots, discover, log, answers, r)
}

/// The model of the release selected for `name`.
pub open spec fn release_named(selected: Seq<(String, PackagistRelease)>, name: Seq<char>) -> ReleaseModel {
    selected[choose|k: int| 0 <= k < selected.len() && selected[k].0@ == name].1@
}

/// The observer was told of each selected package once, in ascending order of names,
/// with its release.
pub open spec fn notified_in_order(notes: Seq<(Seq<char>, ReleaseModel)>, selected: Seq<(String, PackagistRelease)>) -> bool {
    &&& crate::order::strictly_sorted(notes.map_values(|n: (Seq<char>, ReleaseModel)| n.0))
    &&& notes.map_values(|n: (Seq<char>, ReleaseModel)| n.0).to_set() == crate::resolver::entry_names(selected).to_set()
    &&& forall|i: int| 0 <= i < notes.len() ==> (#[trigger] notes[i]).1 == release_named(selected, notes[i].0)
}

/// `resolved` holds the solved selection `r`, each release with the constraints that
/// reached it, and the observer was told of it as `notes` say.
pub open spec fn resolved_from(r: Solved, resolved: Seq<(String, ResolvedPackageEntry)>, notes: Seq<(Seq<char>, ReleaseModel)>) -> bool {
    match r {
        Ok((constraints, selected)) => {
            &&& resolved.len() == selected@.len()
            &&& forall|i: int|
                0 <= i < resolved.len() ==> (#[trigger] resolved[i]).0@ == selected@[i].0@ && entry_of(
                    selected@[i].1@,
                    constraints_for(constraint_entries(constraints@), selected@[i].0@),
                    resolved[i].1,
                )
            &&& notified_in_order(notes, selected@)
        },
        Err(_) => false,
    }
}

/// The outcome of resolving.
pub type Resolved = Result<Vec<(String, ResolvedPackageEntry)>, ConcertoError>;

/// The first collection failed; its failure is the error.
pub open spec fn first_collection_failed(
    roots: Seq<RequiredPackage>,
    log: Seq<Exchange>,
    answers: Seq<(SolverTables, SolverAnswer)>,
    notes: Seq<(Seq<char>, ReleaseModel)>,
    r: Resolved,
) -> bool {
    &&& collect_run(roots, false, log) matches Some(Err(f)) && r matches Err(e) && failure_is(e, f)
    &&& answers.len() == 0
    &&& notes.len() == 0
}

/// The first attempt found a solution, which is the result.
pub open spec fn first_solved(
    roots: Seq<RequiredPackage>,
    log: Seq<Exchange>,
    answers: Seq<(SolverTables, SolverAnswer)>,
    notes: Seq<(Seq<char>, ReleaseModel)>,
    r1: Solved,
    r: Resolved,
) -> bool {
    &&& attempt(roots, false, log, answers, r1)
    &&& r1 is Ok
    &&& r matches Ok(resolved) && resolved_from(r1, resolved@, notes)
}

/// The first attempt, with the first `j` exchanges and `k` answers, found no
/// solution, and the collection with every provider then failed; its failure is the
/// error.
pub open spec fn second_collection_failed(
    roots: Seq<RequiredPackage>,
    log: Seq<Exchange>,
    answers: Seq<(SolverTables, SolverAnswer)>,
    notes: Seq<(Seq<char>, ReleaseModel)>,
    j: int,
    k: int,
    r1: Solved,
    r: Resolved,
) -> bool {
    &&& 0 <= j <= log.len()
    &&& k == answers.len()
    &&& attempt(roots, false, log.take(j), answers, r1)
    &&& r1 is Err
    &&& collect_run(roots, true, log.skip(j)) matches Some(Err(f)) && r matches Err(e) && failure_is(e, f)
    &&& notes.len() == 0
}

/// The first attempt, with the first `j` exchanges and `k` answers, found no
/// solution, and the attempt with every provider went as `r2` says: its solution is the
/// result, or its message is that of a resolution error for the dependency graph.
pub open spec fn retried(
    roots: Seq<RequiredPackage>,
    graph: Seq<Seq<char>>,
    log: Seq<Exchange>,
    answers: Seq<(SolverTables, SolverAnswer)>,
    notes: Seq<(Seq<char>, ReleaseModel)>,
    j: int,
    k: int,
    r1: Solved,
    r2: Solved,
    r: Resolved,
) -> bool {
    &&& 0 <= j <= log.len()
    &&& 0 <= k <= answers.len()
    &&& attempt(roots, false, log.take(j), answers.take(k), r1)
    &&& r1 is Err
    &&& attempt(roots, true, log.skip(j), answers.skip(k), r2)
    &&& match r2 {
        Err(m) => {
            &&& r matches Err(ConcertoError::Resolution { package, constraints, message }) && package@
                == "dependency graph"@ && views(constraints@) == graph && message@ == m@
            &&& notes.len() == 0
        },
        Ok(_) => r matches Ok(resolved) && resolved_from(r2, resolved@, notes),
    }
}

/// Resolving the root requirements `roots` with the exchanges `log`, the solver's
/// answers `answers` and the notifications `notes` gave `r`: collect without
/// discovering providers and solve; when that finds no solution, collect again with
/// every provider and solve once more.
pub open spec fn graph_run(
    roots: Seq<RequiredPackage>,
    graph: Seq<Seq<char>>,
    log: Seq<Exchange>,
    answers: Seq<(SolverTables, SolverAnswer)>,
    notes: Seq<(Seq<char>, ReleaseModel)>,
    r: Resolved,
) -> bool {
    ||| first_collection_failed(roots, log, answers, notes, r)
    ||| exists|r1: Solved| #[trigger] first_solved(roots, log, answers, notes, r1, r)
    ||| exists|j: int, k: int, r1: Solved| #[trigger] second_collection_failed(roots, log, answers, notes, j, k, r1, r)
    ||| exists|j: int, k: int, r1: Solved, r2: Solved| #[trigger] retried(roots, graph, log, answers, notes, j, k, r1, r2, r)
}

/// The lines of the root constraints, sorted: what a resolution error reports.
pub open spec fn graph_lines(package_constraints: Seq<(String, Vec<String>)>) -> Seq<Seq<char>> {
    constraint_entries(package_constraints).map_values(
        |e: (Seq<char>, Seq<Seq<char>>)| crate::resolver::constraint_line(e),
    ).sort_by(crate::order::text_order())
}

/// The index of the entry named `name`.
fn index_of_name(selected: &Vec<(String, PackagistRelease)>, name: &String) -> (r: usize)
    requires
        exists|k: int| 0 <= k < selected@.len() && #[trigger] selected@[k].0@ == name@,
    ensures
        r < selected@.len(),
        selected@[r as int].0@ == name@,
{
    let mut i: usize = 0;
    while i < selected.len()
        invariant
            i <= selected@.len(),
            forall|k: int| 0 <= k < i ==> #[trigger] selected@[k].0@ != name@,
            exists|k: int| 0 <= k < selected@.len() && #[trigger] selected@[k].0@ == name@,
        decreases selected@.len() - i,
    {
        if str_eq(selected[i].0.as_str(), name.as_str()) {
            return i;
        }
        i = i + 1;
    }
    proof {
        let k = choose|k: int| 0 <= k < selected@.len() && #[trigger] selected@[k].0@ == name@;
        assert(selected@[k].0@ != name@);
    }
    0
}

/// Tells the observer of each selected release, in ascending order of package names.
fn notify_selected<O: ResolutionObserver>(selected: &Vec<(String, PackagistRelease)>, observer: &mut LoggedObserver<O>)
    requires
        names_unique(selected@),
    ensures
        extends(old(observer).notified(), final(observer).notified()),
        notified_in_order(final(observer).notified().skip(old(observer).notified().len() as int), selected@),
{
    let ghost n0 = observer.notified();
    assert(observer.notified().take(n0.len() as int) =~= n0);
    let names = sorted_selected_names(selected);
    let ghost ns = views(names@);
    let mut i: usize = 0;
    while i < names.len()
        invariant
            i <= names@.len(),
            ns == views(names@),
            names_unique(selected@),
            ns.to_set() == crate::resolver::entry_names(selected@).to_set(),
            extends(n0, observer.notified()),
            observer.notified().len() == n0.len() + i,
            forall|a: int|
                0 <= a < i ==> #[trigger] observer.notified()[n0.len() + a] == (ns[a], release_named(selected@, ns[a])),
        decreases names@.len() - i,
    {
        let ghost before = observer.notified();
        proof {
            assert(ns.contains(ns[i as int]));
            assert(crate::resolver::entry_names(selected@).to_set().contains(ns[i as int]));
            let k = choose|k: int| 0 <= k < selected@.len() && crate::resolver::entry_names(selected@)[k] == ns[i as int];
            assert(selected@[k].0@ == names@[i as int]@);
        }
        let at = index_of_name(selected, &names[i]);
        proof {
            let n = ns[i as int];
            let c = choose|k: int| 0 <= k < selected@.len() && selected@[k].0@ == n;
            assert(selected@[at as int].0@ == n);
            if c != at as int {
                if c < at as int {
                    assert(selected@[c].0@ != selected@[at as int].0@);
                } else {
                    assert(selected@[at as int].0@ != selected@[c].0@);
                }
            }
        }
        observer.package_selected(names[i].as_str(), &selected[at].1);
        proof {
            assert forall|a: int| 0 <= a < i + 1 implies #[trigger] observer.notified()[n0.len() + a] == (
                ns[a],
                release_named(selected@, ns[a]),
            ) by {
                if a < i {
                    assert(observer.notified()[n0.len() + a] == before[n0.len() + a]);
                }
            }
            assert(observer.notified().take(n0.len() as int) =~= n0) by {
                assert forall|a: int| 0 <= a < n0.len() implies observer.notified()[a] == n0[a] by {
                    assert(before.take(n0.len() as int)[a] == n0[a]);
                }
            }
        }
        i = i + 1;
    }
    proof {
        let notes = observer.notified().skip(n0.len() as int);
        let m = notes.map_values(|n: (Seq<char>, ReleaseModel)| n.0);
        assert(m =~= ns) by {
            assert forall|a: int| 0 <= a < ns.len() implies m[a] == ns[a] by {
                assert(notes[a] == observer.notified()[n0.len() + a]);
            }
        }
        assert forall|a: int| 0 <= a < notes.len() implies (#[trigger] notes[a]).1 == release_named(selected@, notes[a].0) by {
            assert(notes[a] == observer.notified()[n0.len() + a]);
        }
    }
}

/// Resolves the root constraints: collects candidates, asks the solver, and when it
/// finds no solution tries once more with every provider of every requirement; when
/// that finds none either, the error is a resolution error for the dependency graph
/// with the solver's message. On success the observer hears of each selected release
/// in the order of package names; on failure it hears nothing. `graph_run` says, over
/// the exchanges with the provider, the solver's answers and the notifications, what
/// comes out; the provider and the solver decide whether it succeeds.
pub fn solve_dependency_graph<C: CandidateProvider, S: DependencySolver, O: ResolutionObserver>(
    package_constraints: Vec<(String, Vec<String>)>,
    candidates: &mut LoggedProvider<C>,
    solver: &mut LoggedSolver<S>,
    stats: &mut SolverStats,
    observer: &mut LoggedObserver<O>,
) -> (r: Resolved)
    ensures
        extends(old(candidates).exchanges(), final(candidates).exchanges()),
        extends(old(solver).answers(), final(solver).answers()),
        extends(old(observer).notified(), final(observer).notified()),
        exists|roots: Seq<RequiredPackage>|
            roots_of(package_constraints@, roots) && #[trigger] graph_run(
                roots,
                graph_lines(package_constraints@),
                final(candidates).exchanges().skip(old(candidates).exchanges().len() as int),
                final(solver).answers().skip(old(solver).answers().len() as int),
                final(observer).notified().skip(old(observer).notified().len() as int),
                r,
            ),
        stats_follow(final(solver).answers().skip(old(solver).answers().len() as int), *old(stats), *final(stats)),
        r is Err ==> final(observer).notified() == old(observer).notified(),
        r matches Ok(resolved) ==> names_unique(resolved@) && explained(package_constraints@, resolved@),
{
    let ghost e0 = candidates.exchanges();
    let ghost a0 = solver.answers();
    let ghost n0 = observer.notified();
    let ghost s0 = *stats;
    let graph = graph_constraints(&package_constraints);
    let root_requirements = requirements_from_constraints(&package_constraints);
    let ghost roots = root_requirements@;
    let ghost lines = graph_lines(package_constraints@);
    assert(roots_of(package_constraints@, roots));
    proof {
        assert(observer.notified().take(n0.len() as int) =~= n0);
        assert(observer.notified().skip(n0.len() as int) =~= Seq::<(Seq<char>, ReleaseModel)>::empty());
        assert(solver.answers().take(a0.len() as int) =~= a0);
        assert(solver.answers().skip(a0.len() as int) =~= Seq::<(SolverTables, SolverAnswer)>::empty());
    }
    let first = build_resolution_problem(crate::composer::clone_requirements(&root_requirements), candidates, false);
    let ghost e1 = candidates.exchanges();
    let ghost log1 = e1.skip(e0.len() as int);
    let problem = match first {
        Ok(problem) => problem,
        Err(error) => {
            proof {
                let r = Err::<Vec<(String, ResolvedPackageEntry)>, ConcertoError>(error);
                assert(first_collection_failed(
                    roots,
                    log1,
                    solver.answers().skip(a0.len() as int),
                    observer.notified().skip(n0.len() as int),
                    r,
                ));
                assert(graph_run(
                    roots,
                    lines,
                    log1,
                    solver.answers().skip(a0.len() as int),
                    observer.notified().skip(n0.len() as int),
                    r,
                ));
            }
            return Err(error);
        },
    };
    let first_solved_result = solve_problem(&problem, solver, stats);
    let ghost a1 = solver.answers();
    let ghost ans1 = a1.skip(a0.len() as int);
    let ghost r1 = first_solved_result;
    assert(attempt_on(problem, roots, false, log1, ans1, r1));
    let ghost mut retry: Option<(int, int, Solved)> = None;
    let (constraints, selected) = match first_solved_result {
        Ok(result) => result,
        Err(_) => {
            let second = build_resolution_problem(root_requirements, candidates, true);
            let ghost e2 = candidates.exchanges();
            let ghost all = e2.skip(e0.len() as int);
            proof {
                assert(all.take(log1.len() as int) =~= log1);
                assert(all.skip(log1.len() as int) =~= e2.skip(e1.len() as int));
                assert(all.len() >= log1.len());
                assert(candidates.exchanges().take(e0.len() as int) =~= e0) by {
                    assert forall|a: int| 0 <= a < e0.len() implies candidates.exchanges()[a] == e0[a] by {
                        assert(e2.take(e1.len() as int)[a] == e1[a]);
                        assert(e1.take(e0.len() as int)[a] == e0[a]);
                    }
                }
                assert(all =~= log1 + e2.skip(e1.len() as int)) by {
                    assert forall|a: int| 0 <= a < all.len() implies all[a] == (log1 + e2.skip(e1.len() as int))[a] by {
                        if a < log1.len() {
                            assert(e2.take(e1.len() as int)[e0.len() + a] == e1[e0.len() + a]);
                        }
                    }
                }
                assert(all.take(log1.len() as int) =~= log1);
                assert(all.skip(log1.len() as int) =~= e2.skip(e1.len() as int));
            }
            let problem = match second {
                Ok(problem) => problem,
                Err(error) => {
                    proof {
                        let r = Err::<Vec<(String, ResolvedPackageEntry)>, ConcertoError>(error);
                        let ans = solver.answers().skip(a0.len() as int);
                        assert(ans == ans1);
                        assert(attempt(roots, false, all.take(log1.len() as int), ans, r1));
                        assert(second_collection_failed(
                            roots,
                            all,
                            ans,
                            observer.notified().skip(n0.len() as int),
                            log1.len() as int,
                            ans.len() as int,
                            r1,
                            r,
                        ));
                        assert(graph_run(roots, lines, all, ans, observer.notified().skip(n0.len() as int), r));
                    }
                    return Err(error);
                },
            };
            let second_solved_result = solve_problem(&problem, solver, stats);
            let ghost a2 = solver.answers();
            let ghost ans = a2.skip(a0.len() as int);
            let ghost r2 = second_solved_result;
            proof {
                assert(a2.take(a0.len() as int) =~= a0) by {
                    assert forall|a: int| 0 <= a < a0.len() implies a2[a] == a0[a] by {
                        assert(a2.take(a1.len() as int)[a] == a1[a]);
                        assert(a1.take(a0.len() as int)[a] == a0[a]);
                    }
                }
                assert(ans =~= ans1 + a2.skip(a1.len() as int)) by {
                    assert forall|a: int| 0 <= a < ans.len() implies ans[a] == (ans1 + a2.skip(a1.len() as int))[a] by {
                        if a < ans1.len() {
                            assert(a2.take(a1.len() as int)[a0.len() + a] == a1[a0.len() + a]);
                        }
                    }
                }
                assert(ans.take(ans1.len() as int) =~= ans1);
                assert(ans.skip(ans1.len() as int) =~= a2.skip(a1.len() as int));
                assert(attempt_on(problem, roots, true, all.skip(log1.len() as int), ans.skip(ans1.len() as int), r2));
                assert(attempt(roots, false, all.take(log1.len() as int), ans.take(ans1.len() as int), r1));
                // The statistics follow the last answer.
                if a2.len() == a1.len() {
                    assert(a2.skip(a1.len() as int).len() == 0);
                    assert(ans == ans1);
                } else {
                    assert(ans.last() == a2.skip(a1.len() as int).last());
                }
            }
            match second_solved_result {
                Ok(result) => {
                    proof {
                        retry = Some((log1.len() as int, ans1.len() as int, r2));
                    }
                    result
                },
                Err(message) => {
                    let error = ConcertoError::resolution("dependency graph", &graph, message);
                    proof {
                        let r = Err::<Vec<(String, ResolvedPackageEntry)>, ConcertoError>(error);
                        assert(retried(
                            roots,
                            lines,
                            all,
                            ans,
                            observer.notified().skip(n0.len() as int),
                            log1.len() as int,
                            ans1.len() as int,
                            r1,
                            r2,
                            r,
                        ));
                        assert(graph_run(roots, lines, all, ans, observer.notified().skip(n0.len() as int), r));
                    }
                    return Err(error);
                },
            }
        },
    };
    let ghost log = candidates.exchanges().skip(e0.len() as int);
    let ghost ans = solver.answers().skip(a0.len() as int);
    assert(names_unique(selected@) && selection_sound(roots, selected@) && constraints_reached(
        roots,
        selected@,
        constraint_entries(constraints@),
    )) by {
        match retry {
            None => {
                assert(r1 == Ok::<(Vec<(String, Vec<String>)>, Vec<(String, PackagistRelease)>), String>((constraints, selected)));
                assert(ans1.len() == 1);
            },
            Some((j, k, r2)) => {
                assert(r2 == Ok::<(Vec<(String, Vec<String>)>, Vec<(String, PackagistRelease)>), String>((constraints, selected)));
            },
        }
    }
    notify_selected(&selected, observer);
    let ghost notes = observer.notified().skip(n0.len() as int);
    let ghost chosen = selected@;
    let ghost lists = constraints@;
    let resolved = resolved_package_entries(selected, &constraints);
    assert forall|a: int, b: int| 0 <= a < b < resolved@.len() implies #[trigger] resolved@[a].0@
        != #[trigger] resolved@[b].0@ by {
        assert(chosen[a].0@ != chosen[b].0@);
    }
    assert(reports_selection(roots, chosen, constraint_entries(constraints@), resolved@));
    proof {
        let r = Ok::<Vec<(String, ResolvedPackageEntry)>, ConcertoError>(resolved);
        match retry {
            None => {
                assert(resolved_from(r1, resolved@, notes));
                assert(first_solved(roots, log, ans, notes, r1, r));
            },
            Some((j, k, r2)) => {
                assert(resolved_from(r2, resolved@, notes));
                assert(retried(roots, lines, log, ans, notes, j, k, r1, r2, r));
            },
        }
        assert(graph_run(roots, lines, log, ans, notes, r));
    }
    Ok(resolved)
}

} // verus!
