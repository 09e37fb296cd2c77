//! Collecting the releases the solver may choose from, by asking a candidate provider.
//!
//! The provider is a trait its users implement; its answers are whatever it returns.
//! `LoggedProvider` records each exchange with it, and `collect_run` says, as a function
//! of that record, what the collection does: which requests it makes in which order and
//! what it builds from the answers.

use vstd::prelude::*;
use crate::composer::{package_parts, RequiredPackage};
use crate::error::{views, ConcertoError};
use crate::packagist::{release_models, PackagistRelease, ReleaseModel};
use crate::resolver::{
    add_package_constraint, constraint_entries, key_of, matching_outcome, offered_models, queue_release,
    releases_matching, releases_well_formed, with_constraint, CandidateProvider, PackageVersionKey,
    ResolutionProblem,
};
use crate::text::str_eq;

verus! {

// ---------------------------------------------------------------------------
// Exchanges with the provider
// ---------------------------------------------------------------------------

/// One exchange with the candidate provider: what was asked and what came back.
pub enum Exchange {
    /// Loading ahead the candidates of a round's constraint lists.
    Prefetch { constraints: Seq<(Seq<char>, Seq<Seq<char>>)>, answer: Result<(), ConcertoError> },
    /// The candidate releases of a package under constraints.
    Load { name: Seq<char>, constraints: Seq<Seq<char>>, answer: Result<Seq<ReleaseModel>, ConcertoError> },
    /// The packages whose releases provide or replace a requirement, with those releases.
    Providers {
        requirement: RequiredPackage,
        answer: Result<Seq<(Seq<char>, Seq<ReleaseModel>)>, ConcertoError>,
    },
}

/// What loading gave, as models.
pub open spec fn loaded_model(r: Result<Vec<PackagistRelease>, ConcertoError>) -> Result<Seq<ReleaseModel>, ConcertoError> {
    match r {
        Ok(v) => Ok(release_models(v@)),
        Err(e) => Err(e),
    }
}

/// What asking for providers gave, as models.
pub open spec fn offered_model(r: Result<Vec<(String, Vec<PackagistRelease>)>, ConcertoError>) -> Result<
    Seq<(Seq<char>, Seq<ReleaseModel>)>,
    ConcertoError,
> {
    match r {
        Ok(v) => Ok(offered_models(v@)),
        Err(e) => Err(e),
    }
}

/// A candidate provider together with the record of every exchange made through it.
pub struct LoggedProvider<C> {
    pub provider: C,
    exchanges: Ghost<Seq<Exchange>>,
}

impl<C: CandidateProvider> LoggedProvider<C> {
    /// The exchanges made through this provider, oldest first.
    pub closed spec fn exchanges(&self) -> Seq<Exchange> {
        self.exchanges@
    }

    /// A provider with no exchange yet.
    pub fn new(provider: C) -> (r: Self)
        ensures
            r.exchanges() == Seq::<Exchange>::empty(),
    {
        LoggedProvider { provider, exchanges: Ghost(Seq::empty()) }
    }

    /// Asks the provider to load ahead the candidates of `constraints`.
    pub fn prefetch(&mut self, constraints: &Vec<(String, Vec<String>)>) -> (r: Result<(), ConcertoError>)
        ensures
            final(self).exchanges() == old(self).exchanges().push(
                Exchange::Prefetch { constraints: constraint_entries(constraints@), answer: r },
            ),
    {
        let nothing_selected: Vec<(String, PackagistRelease)> = Vec::new();
        let r = self.provider.prefetch(constraints, &nothing_selected);
        proof {
            self.exchanges@ = self.exchanges@.push(
                Exchange::Prefetch { constraints: constraint_entries(constraints@), answer: r },
            );
        }
        r
    }

    /// Asks the provider for the candidates of `package_name` under `constraints`.
    pub fn load(&mut self, package_name: &str, constraints: &Vec<String>) -> (r: Result<
        Vec<PackagistRelease>,
        ConcertoError,
    >)
        ensures
            final(self).exchanges() == old(self).exchanges().push(
                Exchange::Load {
                    name: package_name@,
                    constraints: views(constraints@),
                    answer: loaded_model(r),
                },
            ),
    {
        let r = self.provider.load(package_name, constraints);
        proof {
            self.exchanges@ = self.exchanges@.push(
                Exchange::Load {
                    name: package_name@,
                    constraints: views(constraints@),
                    answer: loaded_model(r),
                },
            );
        }
        r
    }

    /// Asks the provider for the packages that provide or replace `requirement`.
    pub fn load_capability_providers(&mut self, requirement: &RequiredPackage) -> (r: Result<
        Vec<(String, Vec<PackagistRelease>)>,
        ConcertoError,
    >)
        ensures
            final(self).exchanges() == old(self).exchanges().push(
                Exchange::Providers {
                    requirement: *requirement,
                    answer: offered_model(r),
                },
            ),
    {
        let r = self.provider.load_capability_providers(requirement);
        proof {
            self.exchanges@ = self.exchanges@.push(
                Exchange::Providers {
                    requirement: *requirement,
                    answer: offered_model(r),
                },
            );
        }
        r
    }
}

// ---------------------------------------------------------------------------
// Queued releases
// ---------------------------------------------------------------------------

/// What the collection holds: the releases by package name, in arrival order, and the
/// requirements still to handle.
pub type Collected = (Seq<(Seq<char>, ReleaseModel)>, Seq<RequiredPackage>);

/// The releases as package names and models.
pub open spec fn entries_of(releases: Seq<(PackageVersionKey, PackagistRelease)>) -> Seq<(Seq<char>, ReleaseModel)> {
    releases.map_values(|e: (PackageVersionKey, PackagistRelease)| (e.0.package_name@, e.1@))
}

/// The entries hold a release of `name` at `version`.
pub open spec fn has_key(entries: Seq<(Seq<char>, ReleaseModel)>, name: Seq<char>, version: Seq<char>) -> bool {
    exists|i: int| 0 <= i < entries.len() && (#[trigger] entries[i]).0 == name && entries[i].1.version == version
}

/// Queues `release` of `name`, unless a release of that name and version is there;
/// a new release's requirements wait to be handled.
pub open spec fn queue_one(st: Collected, name: Seq<char>, release: ReleaseModel) -> Collected {
    if has_key(st.0, name, release.version) {
        st
    } else {
        (st.0.push((name, release)), st.1 + release.package_requires)
    }
}

/// Queues the releases of `name`, one after the other.
pub open spec fn queue_each(st: Collected, name: Seq<char>, releases: Seq<ReleaseModel>) -> Collected
    decreases releases.len(),
{
    if releases.len() == 0 {
        st
    } else {
        queue_one(queue_each(st, name, releases.drop_last()), name, releases.last())
    }
}

/// Queues the releases each provider offered, provider after provider.
pub open spec fn queue_offers(st: Collected, offers: Seq<(Seq<char>, Seq<ReleaseModel>)>) -> Collected
    decreases offers.len(),
{
    if offers.len() == 0 {
        st
    } else {
        queue_each(queue_offers(st, offers.drop_last()), offers.last().0, offers.last().1)
    }
}

/// No provider offered a release.
pub open spec fn offers_empty(offers: Seq<(Seq<char>, Seq<ReleaseModel>)>) -> bool {
    forall|i: int| 0 <= i < offers.len() ==> (#[trigger] offers[i]).1.len() == 0
}

proof fn lemma_has_key_iff(releases: Seq<(PackageVersionKey, PackagistRelease)>, name: Seq<char>, version: Seq<char>)
    requires
        releases_well_formed(releases),
    ensures
        has_key(entries_of(releases), name, version) <==> exists|i: int|
            0 <= i < releases.len() && #[trigger] key_of(releases[i].0) == (name, version),
{
    let es = entries_of(releases);
    if has_key(es, name, version) {
        let i = choose|i: int| 0 <= i < es.len() && (#[trigger] es[i]).0 == name && es[i].1.version == version;
        assert(key_of(releases[i].0) == (name, version));
    }
    if exists|i: int| 0 <= i < releases.len() && #[trigger] key_of(releases[i].0) == (name, version) {
        let i = choose|i: int| 0 <= i < releases.len() && #[trigger] key_of(releases[i].0) == (name, version);
        assert(es[i].0 == name && es[i].1.version == version);
    }
}

/// Queues one release: exactly `queue_one` on the entries and the waiting requirements.
fn queue_one_release(
    package_name: &str,
    release: PackagistRelease,
    releases: &mut Vec<(PackageVersionKey, PackagistRelease)>,
    pending: &mut Vec<RequiredPackage>,
)
    requires
        releases_well_formed(old(releases)@),
    ensures
        releases_well_formed(final(releases)@),
        (entries_of(final(releases)@), final(pending)@) == queue_one(
            (entries_of(old(releases)@), old(pending)@),
            package_name@,
            release@,
        ),
{
    let ghost before = releases@;
    let ghost model = release@;
    proof {
        lemma_has_key_iff(before, package_name@, model.version);
    }
    queue_release(package_name, release, releases, pending);
    proof {
        if releases@ != before {
            assert(releases@ =~= before.push(releases@.last()));
            assert(entries_of(releases@) =~= entries_of(before).push((package_name@, model)));
        }
    }
}

/// Queues the releases of `package_name`: exactly `queue_each`.
fn queue_releases(
    package_name: &str,
    kept: &Vec<PackagistRelease>,
    releases: &mut Vec<(PackageVersionKey, PackagistRelease)>,
    pending: &mut Vec<RequiredPackage>,
)
    requires
        releases_well_formed(old(releases)@),
    ensures
        releases_well_formed(final(releases)@),
        (entries_of(final(releases)@), final(pending)@) == queue_each(
            (entries_of(old(releases)@), old(pending)@),
            package_name@,
            release_models(kept@),
        ),
{
    let ghost start: Collected = (entries_of(releases@), pending@);
    let ghost models = release_models(kept@);
    let mut j: usize = 0;
    assert(models.take(0) =~= Seq::<ReleaseModel>::empty());
    while j < kept.len()
        invariant
            j <= kept@.len(),
            models == release_models(kept@),
            releases_well_formed(releases@),
            (entries_of(releases@), pending@) == queue_each(start, package_name@, models.take(j as int)),
        decreases kept@.len() - j,
    {
        assert(models.take(j + 1).drop_last() =~= models.take(j as int));
        let release = kept[j].clone();
        queue_one_release(package_name, release, releases, pending);
        j = j + 1;
    }
    assert(models.take(kept@.len() as int) =~= models);
}

/// Queues the releases every provider offered: exactly `queue_offers`; the count of
/// offered releases, 0 exactly when none was offered.
fn queue_offered(
    offered: &Vec<(String, Vec<PackagistRelease>)>,
    releases: &mut Vec<(PackageVersionKey, PackagistRelease)>,
    pending: &mut Vec<RequiredPackage>,
) -> (r: usize)
    requires
        releases_well_formed(old(releases)@),
    ensures
        releases_well_formed(final(releases)@),
        (entries_of(final(releases)@), final(pending)@) == queue_offers(
            (entries_of(old(releases)@), old(pending)@),
            offered_models(offered@),
        ),
        (r == 0) == offers_empty(offered_models(offered@)),
{
    let ghost start: Collected = (entries_of(releases@), pending@);
    let ghost offers = offered_models(offered@);
    let mut count: usize = 0;
    let mut i: usize = 0;
    assert(offers.take(0) =~= Seq::<(Seq<char>, Seq<ReleaseModel>)>::empty());
    while i < offered.len()
        invariant
            i <= offered@.len(),
            offers == offered_models(offered@),
            releases_well_formed(releases@),
            (entries_of(releases@), pending@) == queue_offers(start, offers.take(i as int)),
            (count == 0) == offers_empty(offers.take(i as int)),
        decreases offered@.len() - i,
    {
        assert(offers.take(i + 1).drop_last() =~= offers.take(i as int));
        assert(offers[i as int].1 == release_models(offered@[i as int].1@));
        queue_releases(offered[i].0.as_str(), &offered[i].1, releases, pending);
        proof {
            let t = offers.take(i + 1);
            if offers_empty(t) {
                assert(t[i as int].1.len() == 0);
                assert forall|a: int| 0 <= a < i implies (#[trigger] offers.take(i as int)[a]).1.len() == 0 by {
                    assert(t[a] == offers.take(i as int)[a]);
                }
            } else {
                let a = choose|a: int| 0 <= a < t.len() && (#[trigger] t[a]).1.len() != 0;
                if a < i {
                    assert(offers.take(i as int)[a] == t[a]);
                }
            }
            if offers_empty(offers.take(i as int)) && offered@[i as int].1@.len() == 0 {
                assert forall|a: int| 0 <= a < i + 1 implies (#[trigger] t[a]).1.len() == 0 by {
                    if a < i {
                        assert(offers.take(i as int)[a] == t[a]);
                    }
                }
            }
        }
        count = count.saturating_add(offered[i].1.len());
        i = i + 1;
    }
    assert(offers.take(offered@.len() as int) =~= offers);
    count
}

// ---------------------------------------------------------------------------
// The collection as a function of the exchanges
// ---------------------------------------------------------------------------

/// Why a collection fails.
pub enum Failure {
    /// The provider answered with this error.
    Provider(ConcertoError),
    /// A version of the package `name` could not be checked against `constraint`.
    Unchecked(Seq<char>, Seq<char>, Seq<char>),
}

/// `error` is the error of the failure `f`.
pub open spec fn failure_is(error: ConcertoError, f: Failure) -> bool {
    match f {
        Failure::Provider(e) => error == e,
        Failure::Unchecked(name, constraint, message) => error matches ConcertoError::Resolution {
            package,
            constraints,
            message: m,
        } && package@ == name && views(constraints@) == seq![constraint] && m@
            == "could not check package constraint: "@ + message,
    }
}

/// The exchange loads the package of `q` under its constraint alone.
pub open spec fn is_load_for(x: Exchange, q: RequiredPackage) -> bool {
    x matches Exchange::Load { name, constraints, .. } && name == q.name@ && constraints == seq![q.constraint@]
}

/// The exchange asks for the providers of `q`.
pub open spec fn is_providers_for(x: Exchange, q: RequiredPackage) -> bool {
    x matches Exchange::Providers { requirement, .. } && requirement == q
}

/// The releases of `q`'s package that meet its constraint, given what loading gave.
pub open spec fn direct_outcome(x: Exchange, q: RequiredPackage) -> Result<Seq<ReleaseModel>, Failure> {
    match x {
        Exchange::Load { answer: Err(e), .. } => Err(Failure::Provider(e)),
        Exchange::Load { answer: Ok(loaded), .. } => match matching_outcome(loaded, seq![q.constraint@]) {
            Ok(kept) => Ok(kept),
            Err(m) => Err(Failure::Unchecked(q.name@, q.constraint@, m)),
        },
        _ => Ok(Seq::empty()),
    }
}

/// The collection after the providers answered: their releases queued, or the
/// provider's error; with `fallback`, a failure when no provider offered a release.
pub open spec fn after_providers(st: Collected, x: Exchange, fallback: Option<Failure>) -> Result<Collected, Failure> {
    match x {
        Exchange::Providers { answer: Err(e), .. } => Err(Failure::Provider(e)),
        Exchange::Providers { answer: Ok(offers), .. } => match fallback {
            Some(f) => if offers_empty(offers) {
                Err(f)
            } else {
                Ok(queue_offers(st, offers))
            },
            None => Ok(queue_offers(st, offers)),
        },
        _ => Ok(st),
    }
}

/// Handling the requirement `q` with the exchanges `log`: for a package name, loading
/// its package under `q`'s constraint and queueing the releases that meet it, then
/// asking the providers when that failed or `discover` is set; for any other name,
/// asking the providers. The result and how many exchanges it took, or `None` when the
/// exchanges are not those requests.
pub open spec fn handle_spec(st: Collected, q: RequiredPackage, discover: bool, log: Seq<Exchange>) -> Option<
    (Result<Collected, Failure>, int),
> {
    if package_parts(q.name@) is Some {
        if log.len() >= 1 && is_load_for(log[0], q) {
            match direct_outcome(log[0], q) {
                Ok(kept) => {
                    let st1 = queue_each(st, q.name@, kept);
                    if !discover {
                        Some((Ok(st1), 1))
                    } else if log.len() >= 2 && is_providers_for(log[1], q) {
                        Some((after_providers(st1, log[1], None), 2))
                    } else {
                        None
                    }
                },
                Err(f) => if log.len() >= 2 && is_providers_for(log[1], q) {
                    Some((after_providers(st, log[1], Some(f)), 2))
                } else {
                    None
                },
            }
        } else {
            None
        }
    } else if log.len() >= 1 && is_providers_for(log[0], q) {
        Some((after_providers(st, log[0], None), 1))
    } else {
        None
    }
}

/// The constraint lists a round prefetches: those of its requirements not yet handled.
pub open spec fn prefetch_spec(reqs: Seq<RequiredPackage>, processed: Seq<(Seq<char>, Seq<char>)>) -> Seq<
    (Seq<char>, Seq<Seq<char>>),
>
    decreases reqs.len(),
{
    if reqs.len() == 0 {
        Seq::empty()
    } else {
        let acc = prefetch_spec(reqs.drop_last(), processed);
        let q = reqs.last();
        if processed.contains((q.name@, q.constraint@)) {
            acc
        } else {
            with_constraint(acc, q.name@, q.constraint@)
        }
    }
}

/// The collection from here on with the exchanges `log`: while requirements wait, a
/// round prefetches them and then handles them in order, each (name, constraint) once;
/// the releases when none waits and the exchanges are used up, the failure when the
/// last exchange made one, or `None` when the exchanges are not the requests made.
pub open spec fn run(st: Collected, processed: Seq<(Seq<char>, Seq<char>)>, discover: bool, log: Seq<Exchange>) -> Option<
    Result<Seq<(Seq<char>, ReleaseModel)>, Failure>,
>
    decreases log.len(), 0int,
{
    if st.1.len() == 0 {
        if log.len() == 0 {
            Some(Ok(st.0))
        } else {
            None
        }
    } else if log.len() == 0 {
        None
    } else {
        match log[0] {
            Exchange::Prefetch { constraints, answer } => if constraints != prefetch_spec(st.1, processed) {
                None
            } else {
                match answer {
                    Err(e) => if log.len() == 1 {
                        Some(Err(Failure::Provider(e)))
                    } else {
                        None
                    },
                    Ok(_) => round((st.0, Seq::empty()), processed, st.1, 0, discover, log.drop_first()),
                }
            },
            _ => None,
        }
    }
}

/// The round handling `reqs` from the `k`th on, then the collection from there.
pub open spec fn round(
    st: Collected,
    processed: Seq<(Seq<char>, Seq<char>)>,
    reqs: Seq<RequiredPackage>,
    k: int,
    discover: bool,
    log: Seq<Exchange>,
) -> Option<Result<Seq<(Seq<char>, ReleaseModel)>, Failure>>
    decreases log.len(), (if k < reqs.len() { reqs.len() - k } else { 0 }) + 1,
{
    if k < 0 || k >= reqs.len() {
        run(st, processed, discover, log)
    } else {
        let q = reqs[k];
        if processed.contains((q.name@, q.constraint@)) {
            round(st, processed, reqs, k + 1, discover, log)
        } else {
            match handle_spec(st, q, discover, log) {
                Some((Err(f), c)) => if c == log.len() {
                    Some(Err(f))
                } else {
                    None
                },
                Some((Ok(st2), c)) => if 1 <= c <= log.len() {
                    round(st2, processed.push((q.name@, q.constraint@)), reqs, k + 1, discover, log.skip(c))
                } else {
                    None
                },
                None => None,
            }
        }
    }
}

/// The collection for the root requirements with the exchanges `log`, from nothing.
pub open spec fn collect_run(roots: Seq<RequiredPackage>, discover: bool, log: Seq<Exchange>) -> Option<
    Result<Seq<(Seq<char>, ReleaseModel)>, Failure>,
> {
    run((Seq::empty(), roots), Seq::empty(), discover, log)
}

/// The pairs a list of handled requirements holds.
pub open spec fn handled_pairs(processed: Seq<(String, String)>) -> Seq<(Seq<char>, Seq<char>)> {
    processed.map_values(|p: (String, String)| (p.0@, p.1@))
}

/// From the exchanges `done` on, the collection goes on as from `st`.
pub open spec fn continues(
    roots: Seq<RequiredPackage>,
    discover: bool,
    done: Seq<Exchange>,
    st: Collected,
    processed: Seq<(Seq<char>, Seq<char>)>,
) -> bool {
    forall|rest: Seq<Exchange>| #[trigger] run(st, processed, discover, rest) == collect_run(roots, discover, done + rest)
}

/// From the exchanges `done` on, the collection goes on as from the `k`th requirement of
/// the round `reqs`.
pub open spec fn continues_round(
    roots: Seq<RequiredPackage>,
    discover: bool,
    done: Seq<Exchange>,
    st: Collected,
    processed: Seq<(Seq<char>, Seq<char>)>,
    reqs: Seq<RequiredPackage>,
    k: int,
) -> bool {
    forall|rest: Seq<Exchange>|
        #[trigger] round(st, processed, reqs, k, discover, rest) == collect_run(roots, discover, done + rest)
}

/// Whether `processed` holds the requirement `q`.
fn was_handled(processed: &Vec<(String, String)>, q: &RequiredPackage) -> (r: bool)
    ensures
        r == handled_pairs(processed@).contains((q.name@, q.constraint@)),
{
    let mut i: usize = 0;
    while i < processed.len()
        invariant
            i <= processed@.len(),
            forall|j: int| 0 <= j < i ==> handled_pairs(processed@)[j] != (q.name@, q.constraint@),
        decreases processed@.len() - i,
    {
        if str_eq(processed[i].0.as_str(), q.name.as_str()) && str_eq(processed[i].1.as_str(), q.constraint.as_str()) {
            assert(handled_pairs(processed@)[i as int] == (q.name@, q.constraint@));
            return true;
        }
        i = i + 1;
    }
    false
}

// ---------------------------------------------------------------------------
// Collecting
// ---------------------------------------------------------------------------

/// The candidates of `package_name` whose version meets `constraints`: what the
/// provider loads, kept by `releases_matching`.
pub fn matching_releases<C: CandidateProvider>(
    package_name: &str,
    constraints: &Vec<String>,
    candidates: &mut LoggedProvider<C>,
) -> (r: Result<Vec<PackagistRelease>, ConcertoError>)
    ensures
        final(candidates).exchanges().len() == old(candidates).exchanges().len() + 1,
        final(candidates).exchanges().drop_last() == old(candidates).exchanges(),
        final(candidates).exchanges().last() matches Exchange::Load { name, constraints: cs, answer }
            && name == package_name@ && cs == views(constraints@) && match answer {
            Err(e) => r == Err::<Vec<PackagistRelease>, ConcertoError>(e),
            Ok(loaded) => match matching_outcome(loaded, views(constraints@)) {
                Ok(kept) => r matches Ok(v) && release_models(v@) == kept,
                Err(m) => r matches Err(e) && crate::packagist::resolution_error(
                    e,
                    package_name@,
                    constraints@,
                    "could not check package constraint: "@ + m,
                ),
            },
        },
{
    let loaded = candidates.load(package_name, constraints);
    match loaded {
        Err(error) => Err(error),
        Ok(loaded) => releases_matching(package_name, constraints, loaded),
    }
}

/// Queues the releases of every package that provides or replaces `requirement`,
/// provider after provider; the count of releases offered, 0 exactly when none was.
pub fn queue_capability_provider_releases<C: CandidateProvider>(
    requirement: &RequiredPackage,
    candidates: &mut LoggedProvider<C>,
    releases: &mut Vec<(PackageVersionKey, PackagistRelease)>,
    pending: &mut Vec<RequiredPackage>,
) -> (r: Result<usize, ConcertoError>)
    requires
        releases_well_formed(old(releases)@),
    ensures
        releases_well_formed(final(releases)@),
        final(candidates).exchanges().len() == old(candidates).exchanges().len() + 1,
        final(candidates).exchanges().drop_last() == old(candidates).exchanges(),
        final(candidates).exchanges().last() matches Exchange::Providers { requirement: q, answer }
            && q == *requirement && match answer {
            Err(e) => r == Err::<usize, ConcertoError>(e) && final(releases)@ == old(releases)@
                && final(pending)@ == old(pending)@,
            Ok(offers) => r matches Ok(n) && (n == 0) == offers_empty(offers) && (
            entries_of(final(releases)@), final(pending)@) == queue_offers(
                (entries_of(old(releases)@), old(pending)@),
                offers,
            ),
        },
{
    let offered = match candidates.load_capability_providers(requirement) {
        Ok(offered) => offered,
        Err(error) => {
            return Err(error);
        },
    };
    let count = queue_offered(&offered, releases, pending);
    Ok(count)
}

/// Handles the requirement `q`: exactly `handle_spec` with the exchanges it makes.
fn handle_requirement<C: CandidateProvider>(
    q: &RequiredPackage,
    candidates: &mut LoggedProvider<C>,
    discover: bool,
    releases: &mut Vec<(PackageVersionKey, PackagistRelease)>,
    pending: &mut Vec<RequiredPackage>,
) -> (r: Result<(), ConcertoError>)
    requires
        releases_well_formed(old(releases)@),
    ensures
        releases_well_formed(final(releases)@),
        final(candidates).exchanges().len() >= old(candidates).exchanges().len(),
        final(candidates).exchanges().take(old(candidates).exchanges().len() as int) == old(candidates).exchanges(),
        forall|rest: Seq<Exchange>|
            match #[trigger] handle_spec(
                (entries_of(old(releases)@), old(pending)@),
                *q,
                discover,
                final(candidates).exchanges().skip(old(candidates).exchanges().len() as int) + rest,
            ) {
                Some((Ok(st2), c)) => r is Ok && st2 == (entries_of(final(releases)@), final(pending)@) && c
                    == final(candidates).exchanges().len() - old(candidates).exchanges().len(),
                Some((Err(f), c)) => r matches Err(e) && failure_is(e, f) && c == final(candidates).exchanges().len() - old(candidates).exchanges().len(),
                None => false,
            },
{
    let ghost log0 = candidates.exchanges();
    let ghost st: Collected = (entries_of(releases@), pending@);
    if !crate::composer::is_package_name(q.name.as_str()) {
        let outcome = queue_capability_provider_releases(q, candidates, releases, pending);
        proof {
            let e = candidates.exchanges().skip(log0.len() as int);
            assert(e =~= seq![candidates.exchanges().last()]);
            assert forall|rest: Seq<Exchange>| #[trigger] (e + rest)[0] == e[0] by {}
        }
        return match outcome {
            Ok(_) => Ok(()),
            Err(error) => Err(error),
        };
    }
    let mut constraints: Vec<String> = Vec::new();
    constraints.push(q.constraint.clone());
    assert(views(constraints@) =~= seq![q.constraint@]);
    let direct = matching_releases(q.name.as_str(), &constraints, candidates);
    let ghost log1 = candidates.exchanges();
    let ghost x = log1.last();
    proof {
        assert(log1.skip(log0.len() as int) =~= seq![x]);
        assert(is_load_for(x, *q));
    }
    let failure: ConcertoError = match direct {
        Ok(kept) => {
            proof {
                assert(direct_outcome(x, *q) == Ok::<Seq<ReleaseModel>, Failure>(release_models(kept@)));
            }
            queue_releases(q.name.as_str(), &kept, releases, pending);
            let ghost st1: Collected = (entries_of(releases@), pending@);
            if discover {
                let outcome = queue_capability_provider_releases(q, candidates, releases, pending);
                proof {
                    let y = candidates.exchanges().last();
                    let e = candidates.exchanges().skip(log0.len() as int);
                    assert(e =~= seq![x, y]);
                    assert forall|rest: Seq<Exchange>| #[trigger] (e + rest)[0] == x && (e + rest)[1] == y by {}
                    assert(is_providers_for(y, *q));
                    assert(after_providers(st1, y, None) == match outcome {
                        Ok(_) => Ok::<Collected, Failure>((entries_of(releases@), pending@)),
                        Err(err) => Err::<Collected, Failure>(Failure::Provider(err)),
                    });
                }
                return match outcome {
                    Ok(_) => Ok(()),
                    Err(error) => Err(error),
                };
            }
            proof {
                let e = candidates.exchanges().skip(log0.len() as int);
                assert(e =~= seq![x]);
                assert forall|rest: Seq<Exchange>| #[trigger] (e + rest)[0] == x by {}
            }
            return Ok(());
        },
        Err(error) => error,
    };
    let ghost f = match direct_outcome(x, *q) {
        Err(f) => f,
        Ok(_) => Failure::Provider(failure),
    };
    proof {
        assert(direct_outcome(x, *q) is Err);
        assert(failure_is(failure, f));
    }
    let outcome = queue_capability_provider_releases(q, candidates, releases, pending);
    proof {
        let y = candidates.exchanges().last();
        let e = candidates.exchanges().skip(log0.len() as int);
        assert(e =~= seq![x, y]);
        assert forall|rest: Seq<Exchange>| #[trigger] (e + rest)[0] == x && (e + rest)[1] == y by {}
        assert(is_providers_for(y, *q));
    }
    match outcome {
        Err(error) => Err(error),
        Ok(count) => if count == 0 {
            proof {
                let y = candidates.exchanges().last();
                if let Exchange::Providers { answer: Ok(offers), .. } = y {
                    assert(offers_empty(offers));
                }
            }
            Err(failure)
        } else {
            Ok(())
        },
    }
}

/// Collects the releases the solver may choose from: round after round, the waiting
/// requirements are prefetched together, then each (name, constraint) not yet handled
/// is handled in order, and what the queued releases require waits for the next round.
/// What comes out is `collect_run` of the root requirements and the exchanges made:
/// the releases in the order they arrived, or the failure of the last exchange.
pub fn build_resolution_problem<C: CandidateProvider>(
    root_requirements: Vec<RequiredPackage>,
    candidates: &mut LoggedProvider<C>,
    discover_all_providers: bool,
) -> (r: Result<ResolutionProblem, ConcertoError>)
    ensures
        final(candidates).exchanges().len() >= old(candidates).exchanges().len(),
        final(candidates).exchanges().take(old(candidates).exchanges().len() as int) == old(candidates).exchanges(),
        match collect_run(
            root_requirements@,
            discover_all_providers,
            final(candidates).exchanges().skip(old(candidates).exchanges().len() as int),
        ) {
            Some(Ok(entries)) => r matches Ok(problem) && problem.root_requirements@ == root_requirements@
                && releases_well_formed(problem.releases@) && entries_of(problem.releases@) == entries,
            Some(Err(f)) => r matches Err(e) && failure_is(e, f),
            None => false,
        },
{
    let ghost roots = root_requirements@;
    let ghost discover = discover_all_providers;
    let ghost log0 = candidates.exchanges();
    let mut releases: Vec<(PackageVersionKey, PackagistRelease)> = Vec::new();
    let mut pending = crate::composer::clone_requirements(&root_requirements);
    let mut processed: Vec<(String, String)> = Vec::new();
    proof {
        assert(candidates.exchanges().skip(log0.len() as int) =~= Seq::<Exchange>::empty());
        assert(candidates.exchanges().take(log0.len() as int) =~= log0);
        assert(entries_of(releases@) =~= Seq::<(Seq<char>, ReleaseModel)>::empty());
        assert(handled_pairs(processed@) =~= Seq::<(Seq<char>, Seq<char>)>::empty());
        assert forall|rest: Seq<Exchange>| #[trigger] run(
            (entries_of(releases@), pending@),
            handled_pairs(processed@),
            discover,
            rest,
        ) == collect_run(roots, discover, candidates.exchanges().skip(log0.len() as int) + rest) by {
            assert(candidates.exchanges().skip(log0.len() as int) + rest =~= rest);
        }
    }
    while pending.len() > 0
        invariant
            roots == root_requirements@,
            discover == discover_all_providers,
            releases_well_formed(releases@),
            log0 == old(candidates).exchanges(),
            candidates.exchanges().len() >= log0.len(),
            candidates.exchanges().take(log0.len() as int) == log0,
            continues(
                roots,
                discover,
                candidates.exchanges().skip(log0.len() as int),
                (entries_of(releases@), pending@),
                handled_pairs(processed@),
            ),
        decreases usize::MAX - processed@.len(), pending@.len(),
    {
        let mut requirements: Vec<RequiredPackage> = Vec::new();
        std::mem::swap(&mut requirements, &mut pending);
        let ghost processed_view = handled_pairs(processed@);
        let mut prefetch_constraints: Vec<(String, Vec<String>)> = Vec::new();
        let mut i: usize = 0;
        assert(constraint_entries(prefetch_constraints@) =~= prefetch_spec(requirements@.take(0), processed_view));
        while i < requirements.len()
            invariant
                i <= requirements@.len(),
                processed_view == handled_pairs(processed@),
                constraint_entries(prefetch_constraints@) == prefetch_spec(
                    requirements@.take(i as int),
                    processed_view,
                ),
            decreases requirements@.len() - i,
        {
            assert(requirements@.take(i + 1).drop_last() =~= requirements@.take(i as int));
            let requirement = &requirements[i];
            if !was_handled(&processed, requirement) {
                add_package_constraint(&mut prefetch_constraints, requirement);
            }
            i = i + 1;
        }
        assert(requirements@.take(requirements@.len() as int) =~= requirements@);
        let ghost done = candidates.exchanges().skip(log0.len() as int);
        let ghost st: Collected = (entries_of(releases@), requirements@);
        let fetched = candidates.prefetch(&prefetch_constraints);
        let ghost x = candidates.exchanges().last();
        proof {
            assert(candidates.exchanges().skip(log0.len() as int) =~= done.push(x));
            assert(candidates.exchanges().take(log0.len() as int) =~= log0);
            assert(run(st, processed_view, discover, seq![x]) == collect_run(roots, discover, done + seq![x]));
            assert(done + seq![x] =~= done.push(x));
            assert(seq![x][0] == x);
        }
        if let Err(error) = fetched {
            return Err(error);
        }
        proof {
            assert forall|rest: Seq<Exchange>| #[trigger] round(
                (entries_of(releases@), pending@),
                processed_view,
                requirements@,
                0,
                discover,
                rest,
            ) == collect_run(roots, discover, done.push(x) + rest) by {
                let full = seq![x] + rest;
                assert(full[0] == x);
                assert(full.drop_first() =~= rest);
                assert(pending@ =~= Seq::<RequiredPackage>::empty());
                assert(run(st, processed_view, discover, full) == collect_run(roots, discover, done + full));
                assert(done + full =~= done.push(x) + rest);
            }
        }
        let ghost processed_before = processed@.len();
        let mut k: usize = 0;
        while k < requirements.len()
            invariant
                k <= requirements@.len(),
                roots == root_requirements@,
                discover == discover_all_providers,
                releases_well_formed(releases@),
                log0 == old(candidates).exchanges(),
                candidates.exchanges().len() >= log0.len(),
                candidates.exchanges().take(log0.len() as int) == log0,
                processed@.len() >= processed_before,
                processed@.len() == processed_before ==> pending@.len() == 0,
                continues_round(
                    roots,
                    discover,
                    candidates.exchanges().skip(log0.len() as int),
                    (entries_of(releases@), pending@),
                    handled_pairs(processed@),
                    requirements@,
                    k as int,
                ),
            decreases requirements@.len() - k,
        {
            let requirement = &requirements[k];
            let ghost q = *requirement;
            let ghost pv = handled_pairs(processed@);
            let ghost done_k = candidates.exchanges().skip(log0.len() as int);
            let ghost st_k: Collected = (entries_of(releases@), pending@);
            if was_handled(&processed, requirement) {
                proof {
                    assert forall|rest: Seq<Exchange>| #[trigger] round(st_k, pv, requirements@, k + 1, discover, rest)
                        == collect_run(roots, discover, done_k + rest) by {
                        assert(round(st_k, pv, requirements@, k as int, discover, rest) == round(
                            st_k,
                            pv,
                            requirements@,
                            k + 1,
                            discover,
                            rest,
                        ));
                    }
                }
                k = k + 1;
                continue;
            }
            let ghost log_k = candidates.exchanges();
            processed.push((requirement.name.clone(), requirement.constraint.clone()));
            proof {
                assert(handled_pairs(processed@) =~= pv.push((q.name@, q.constraint@)));
            }
            let handled = handle_requirement(requirement, candidates, discover_all_providers, &mut releases, &mut pending);
            let ghost e = candidates.exchanges().skip(log_k.len() as int);
            proof {
                assert(candidates.exchanges().take(log0.len() as int) =~= log0) by {
                    assert forall|a: int| 0 <= a < log0.len() implies candidates.exchanges()[a] == log0[a] by {
                        assert(candidates.exchanges().take(log_k.len() as int)[a] == log_k[a]);
                        assert(log_k.take(log0.len() as int)[a] == log0[a]);
                    }
                }
                assert(candidates.exchanges().skip(log0.len() as int) =~= done_k + e) by {
                    assert forall|a: int| 0 <= a < candidates.exchanges().len() - log0.len() implies candidates.exchanges().skip(
                        log0.len() as int,
                    )[a] == (done_k + e)[a] by {
                        if a < done_k.len() {
                            assert(candidates.exchanges().take(log_k.len() as int)[log0.len() + a] == log_k[log0.len() + a]);
                        }
                    }
                }
            }
            match handled {
                Err(error) => {
                    proof {
                        let h = handle_spec(st_k, q, discover, e + Seq::<Exchange>::empty());
                        assert(e + Seq::<Exchange>::empty() =~= e);
                        assert(round(st_k, pv, requirements@, k as int, discover, e) == collect_run(
                            roots,
                            discover,
                            done_k + e,
                        ));
                        assert(h matches Some((Err(f), c)) && c == e.len());
                    }
                    return Err(error);
                },
                Ok(()) => {},
            }
            proof {
                let st2: Collected = (entries_of(releases@), pending@);
                assert forall|rest: Seq<Exchange>| #[trigger] round(
                    st2,
                    handled_pairs(processed@),
                    requirements@,
                    k + 1,
                    discover,
                    rest,
                ) == collect_run(roots, discover, (done_k + e) + rest) by {
                    let full = e + rest;
                    assert(handle_spec(st_k, q, discover, full) matches Some((Ok(s), c)) && s == st2 && c == e.len());
                    assert(full.skip(e.len() as int) =~= rest);
                    assert(round(st_k, pv, requirements@, k as int, discover, full) == collect_run(
                        roots,
                        discover,
                        done_k + full,
                    ));
                    assert(done_k + full =~= (done_k + e) + rest);
                }
            }
            k = k + 1;
        }
        proof {
            assert forall|rest: Seq<Exchange>| #[trigger] run(
                (entries_of(releases@), pending@),
                handled_pairs(processed@),
                discover,
                rest,
            ) == collect_run(roots, discover, candidates.exchanges().skip(log0.len() as int) + rest) by {
                assert(round(
                    (entries_of(releases@), pending@),
                    handled_pairs(processed@),
                    requirements@,
                    requirements@.len() as int,
                    discover,
                    rest,
                ) == collect_run(roots, discover, candidates.exchanges().skip(log0.len() as int) + rest));
            }
        }
        // A vector's length fits in `usize`, which bounds how often the set can grow.
        assert(processed@.len() <= usize::MAX) by {
            let _ = processed.len();
        }
    }
    proof {
        let done = candidates.exchanges().skip(log0.len() as int);
        assert(run((entries_of(releases@), pending@), handled_pairs(processed@), discover, Seq::empty())
            == collect_run(roots, discover, done + Seq::<Exchange>::empty()));
        assert(done + Seq::<Exchange>::empty() =~= done);
    }
    Ok(ResolutionProblem { root_requirements, releases })
}

} // verus!
