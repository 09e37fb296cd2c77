//! Packages, versions and discrete version sets of the dependency solver.
//!
//! A version set is everything, a finite set of versions, or everything but a
//! finite non-empty set. Its versions are kept sorted and without repeats, in
//! the order the derived `Ord` of `PubGrubVersion` gives, so that two sets with
//! the same versions are written the same way.

use vstd::prelude::*;
use crate::order::{
    lemma_text_lt_asymmetric, lemma_text_lt_connected,
    lemma_text_lt_transitive, text_less, text_lt,
};
use crate::text::str_eq;

verus! {

/// A package of the solver: the root project or a named package.
#[derive(Debug, PartialEq, Eq, Hash)]
pub enum PubGrubPackage {
    Root,
    Package(String),
}

/// A version of the solver: the root's, the absence of a package, a release, or
/// a capability that a release of another package provides.
#[derive(Debug, PartialEq, Eq, Hash, PartialOrd, Ord)]
pub enum PubGrubVersion {
    Root,
    Absent,
    Release(String),
    Provided { package: String, version: String },
}

/// What a package is: `None` for the root.
pub open spec fn package_key(p: PubGrubPackage) -> Option<Seq<char>> {
    match p {
        PubGrubPackage::Root => None,
        PubGrubPackage::Package(name) => Some(name@),
    }
}

/// What a version is.
pub enum VersionKey {
    Root,
    Absent,
    Release(Seq<char>),
    Provided(Seq<char>, Seq<char>),
}

impl View for PubGrubVersion {
    type V = VersionKey;

    open spec fn view(&self) -> VersionKey {
        match self {
            PubGrubVersion::Root => VersionKey::Root,
            PubGrubVersion::Absent => VersionKey::Absent,
            PubGrubVersion::Release(v) => VersionKey::Release(v@),
            PubGrubVersion::Provided { package, version } => VersionKey::Provided(
                package@,
                version@,
            ),
        }
    }
}

impl Clone for PubGrubPackage {
    fn clone(&self) -> (r: Self)
        ensures
            package_key(r) == package_key(*self),
    {
        match self {
            PubGrubPackage::Root => PubGrubPackage::Root,
            PubGrubPackage::Package(name) => PubGrubPackage::Package(name.clone()),
        }
    }
}

impl Clone for PubGrubVersion {
    fn clone(&self) -> (r: Self)
        ensures
            r@ == self@,
    {
        match self {
            PubGrubVersion::Root => PubGrubVersion::Root,
            PubGrubVersion::Absent => PubGrubVersion::Absent,
            PubGrubVersion::Release(v) => PubGrubVersion::Release(v.clone()),
            PubGrubVersion::Provided { package, version } => PubGrubVersion::Provided {
                package: package.clone(),
                version: version.clone(),
            },
        }
    }
}

/// The views of a list of versions.
pub open spec fn version_keys(versions: Seq<PubGrubVersion>) -> Seq<VersionKey> {
    versions.map_values(|v: PubGrubVersion| v@)
}

// ---------------------------------------------------------------------------
// The order of versions
// ---------------------------------------------------------------------------

/// The position of a version's variant in the declaration.
pub open spec fn variant_rank(k: VersionKey) -> int {
    match k {
        VersionKey::Root => 0,
        VersionKey::Absent => 1,
        VersionKey::Release(_) => 2,
        VersionKey::Provided(_, _) => 3,
    }
}

/// `a` sorts strictly before `b`: by variant, then by the fields in order.
pub open spec fn version_lt(a: VersionKey, b: VersionKey) -> bool {
    if variant_rank(a) != variant_rank(b) {
        variant_rank(a) < variant_rank(b)
    } else {
        match (a, b) {
            (VersionKey::Release(x), VersionKey::Release(y)) => text_lt(x, y),
            (VersionKey::Provided(p, v), VersionKey::Provided(q, w)) => text_lt(p, q) || (p == q
                && text_lt(v, w)),
            _ => false,
        }
    }
}

/// Each version sorts strictly before the next.
pub open spec fn versions_sorted(s: Seq<VersionKey>) -> bool {
    forall|i: int, j: int| 0 <= i < j < s.len() ==> version_lt(#[trigger] s[i], #[trigger] s[j])
}

pub proof fn lemma_version_lt_transitive(a: VersionKey, b: VersionKey, c: VersionKey)
    requires
        version_lt(a, b),
        version_lt(b, c),
    ensures
        version_lt(a, c),
{
    match (a, b, c) {
        (VersionKey::Release(x), VersionKey::Release(y), VersionKey::Release(z)) => {
            lemma_text_lt_transitive(x, y, z);
        },
        (VersionKey::Provided(p, u), VersionKey::Provided(q, v), VersionKey::Provided(r, w)) => {
            if text_lt(p, q) && text_lt(q, r) {
                lemma_text_lt_transitive(p, q, r);
            } else if p == q && q == r {
                lemma_text_lt_transitive(u, v, w);
            }
        },
        _ => {},
    }
}

pub proof fn lemma_version_lt_connected(a: VersionKey, b: VersionKey)
    requires
        a != b,
    ensures
        version_lt(a, b) || version_lt(b, a),
{
    match (a, b) {
        (VersionKey::Release(x), VersionKey::Release(y)) => {
            lemma_text_lt_connected(x, y);
        },
        (VersionKey::Provided(p, u), VersionKey::Provided(q, v)) => {
            if p != q {
                lemma_text_lt_connected(p, q);
            } else {
                lemma_text_lt_connected(u, v);
            }
        },
        _ => {},
    }
}

/// Whether `a` sorts strictly before `b`.
pub fn version_less(a: &PubGrubVersion, b: &PubGrubVersion) -> (r: bool)
    ensures
        r == version_lt(a@, b@),
{
    match (a, b) {
        (PubGrubVersion::Release(x), PubGrubVersion::Release(y)) => text_less(x.as_str(), y.as_str()),
        (
            PubGrubVersion::Provided { package: p, version: u },
            PubGrubVersion::Provided { package: q, version: v },
        ) => text_less(p.as_str(), q.as_str()) || (str_eq(p.as_str(), q.as_str()) && text_less(
            u.as_str(),
            v.as_str(),
        )),
        _ => rank(a) < rank(b),
    }
}

fn rank(v: &PubGrubVersion) -> (r: u8)
    ensures
        r as int == variant_rank(v@),
{
    match v {
        PubGrubVersion::Root => 0,
        PubGrubVersion::Absent => 1,
        PubGrubVersion::Release(_) => 2,
        PubGrubVersion::Provided { .. } => 3,
    }
}

/// Whether two versions are the same.
pub fn version_equals(a: &PubGrubVersion, b: &PubGrubVersion) -> (r: bool)
    ensures
        r == (a@ == b@),
{
    match (a, b) {
        (PubGrubVersion::Root, PubGrubVersion::Root) => true,
        (PubGrubVersion::Absent, PubGrubVersion::Absent) => true,
        (PubGrubVersion::Release(x), PubGrubVersion::Release(y)) => str_eq(x.as_str(), y.as_str()),
        (
            PubGrubVersion::Provided { package: p, version: u },
            PubGrubVersion::Provided { package: q, version: v },
        ) => str_eq(p.as_str(), q.as_str()) && str_eq(u.as_str(), v.as_str()),
        _ => false,
    }
}

/// A copy of a list of versions.
pub fn clone_versions(versions: &Vec<PubGrubVersion>) -> (r: Vec<PubGrubVersion>)
    ensures
        version_keys(r@) == version_keys(versions@),
{
    let mut out: Vec<PubGrubVersion> = Vec::new();
    let mut i: usize = 0;
    while i < versions.len()
        invariant
            i <= versions@.len(),
            version_keys(out@) == version_keys(versions@).take(i as int),
        decreases versions@.len() - i,
    {
        let copy = versions[i].clone();
        assert(copy@ == versions@[i as int]@);
        let ghost before = out@;
        out.push(copy);
        assert(version_keys(out@) =~= version_keys(before).push(copy@));
        assert(version_keys(out@) =~= version_keys(versions@).take(i + 1));
        i = i + 1;
    }
    assert(version_keys(versions@).take(versions@.len() as int) =~= version_keys(versions@));
    out
}

/// Whether `versions` holds `version`.
pub fn holds_version(versions: &Vec<PubGrubVersion>, version: &PubGrubVersion) -> (r: bool)
    ensures
        r == version_keys(versions@).contains(version@),
{
    let mut i: usize = 0;
    while i < versions.len()
        invariant
            i <= versions@.len(),
            forall|j: int| 0 <= j < i ==> version_keys(versions@)[j] != version@,
        decreases versions@.len() - i,
    {
        if version_equals(&versions[i], version) {
            assert(version_keys(versions@)[i as int] == version@);
            return true;
        }
        i = i + 1;
    }
    false
}

/// The versions of `versions`, sorted, each once.
pub fn sorted_versions(versions: &Vec<PubGrubVersion>) -> (r: Vec<PubGrubVersion>)
    ensures
        versions_sorted(version_keys(r@)),
        version_keys(r@).to_set() == version_keys(versions@).to_set(),
{
    let mut out: Vec<PubGrubVersion> = Vec::new();
    let mut n: usize = 0;
    while n < versions.len()
        invariant
            n <= versions@.len(),
            versions_sorted(version_keys(out@)),
            version_keys(out@).to_set() == version_keys(versions@.take(n as int)).to_set(),
        decreases versions@.len() - n,
    {
        let item = &versions[n];
        let mut k: usize = 0;
        while k < out.len() && version_less(&out[k], item)
            invariant
                k <= out@.len(),
                forall|j: int| 0 <= j < k ==> version_lt(#[trigger] version_keys(out@)[j], item@),
            decreases out@.len() - k,
        {
            k = k + 1;
        }
        let ghost before = version_keys(out@);
        proof {
            lemma_take_next_keys(versions@, n as int);
        }
        if k < out.len() && version_equals(&out[k], item) {
            assert(before[k as int] == item@);
            assert(version_keys(versions@.take(n + 1)).to_set() =~= before.to_set());
        } else {
            proof {
                if k < before.len() {
                    assert(!version_lt(before[k as int], item@));
                    lemma_version_lt_connected(before[k as int], item@);
                    assert forall|j: int| k <= j < before.len() implies version_lt(
                        item@,
                        #[trigger] before[j],
                    ) by {
                        if j > k {
                            lemma_version_lt_transitive(item@, before[k as int], before[j]);
                        }
                    }
                }
            }
            out.insert(k, item.clone());
            proof {
                let after = version_keys(out@);
                assert(after =~= before.insert(k as int, item@));
                assert forall|i: int, j: int| 0 <= i < j < after.len() implies version_lt(
                    #[trigger] after[i],
                    #[trigger] after[j],
                ) by {
                    if j < k {
                        assert(after[i] == before[i] && after[j] == before[j]);
                    } else if j == k {
                        assert(after[i] == before[i]);
                    } else if i == k {
                        assert(after[j] == before[j - 1]);
                    } else if i < k {
                        assert(after[i] == before[i] && after[j] == before[j - 1]);
                        lemma_version_lt_transitive(before[i], item@, before[j - 1]);
                    } else {
                        assert(after[i] == before[i - 1] && after[j] == before[j - 1]);
                    }
                }
                lemma_insert_set(before, k as int, item@);
            }
        }
        n = n + 1;
    }
    assert(versions@.take(versions@.len() as int) =~= versions@);
    out
}

proof fn lemma_take_next_keys(versions: Seq<PubGrubVersion>, n: int)
    requires
        0 <= n < versions.len(),
    ensures
        version_keys(versions.take(n + 1)).to_set() == version_keys(versions.take(n)).to_set().insert(
            versions[n]@,
        ),
{
    let s = version_keys(versions.take(n));
    let t = version_keys(versions.take(n + 1));
    assert(t =~= s.push(versions[n]@));
    assert forall|x: VersionKey| t.contains(x) <==> s.contains(x) || x == versions[n]@ by {
        if t.contains(x) {
            let i = choose|i: int| 0 <= i < t.len() && t[i] == x;
            if i < s.len() {
                assert(s[i] == x);
            }
        }
        if s.contains(x) {
            let i = choose|i: int| 0 <= i < s.len() && s[i] == x;
            assert(t[i] == x);
        }
        if x == versions[n]@ {
            assert(t[n] == x);
        }
    }
    assert(t.to_set() =~= s.to_set().insert(versions[n]@));
}

proof fn lemma_insert_set(before: Seq<VersionKey>, k: int, x: VersionKey)
    requires
        0 <= k <= before.len(),
    ensures
        before.insert(k, x).to_set() == before.to_set().insert(x),
{
    let after = before.insert(k, x);
    assert forall|y: VersionKey| after.contains(y) <==> before.contains(y) || y == x by {
        if after.contains(y) {
            let i = choose|i: int| 0 <= i < after.len() && after[i] == y;
            if i < k {
                assert(before[i] == y);
            } else if i > k {
                assert(before[i - 1] == y);
            }
        }
        if before.contains(y) {
            let i = choose|i: int| 0 <= i < before.len() && before[i] == y;
            if i < k {
                assert(after[i] == y);
            } else {
                assert(after[i + 1] == y);
            }
        }
        if y == x {
            assert(after[k] == y);
        }
    }
    assert(after.to_set() =~= before.to_set().insert(x));
}

// ---------------------------------------------------------------------------
// Version sets
// ---------------------------------------------------------------------------

/// A set of versions of one package.
#[derive(Debug, PartialEq, Eq)]
pub enum DiscreteVersionSet {
    Any,
    Only(Vec<PubGrubVersion>),
    Except(Vec<PubGrubVersion>),
}

/// What a version set is: which of the three forms, and its versions.
pub enum SetModel {
    Any,
    Only(Seq<VersionKey>),
    Except(Seq<VersionKey>),
}

impl SetModel {
    /// Versions are sorted without repeats, and `Except` leaves out at least one.
    pub open spec fn well_formed(self) -> bool {
        match self {
            SetModel::Any => true,
            SetModel::Only(v) => versions_sorted(v),
            SetModel::Except(v) => versions_sorted(v) && v.len() > 0,
        }
    }

    /// The set holds `k`.
    pub open spec fn has(self, k: VersionKey) -> bool {
        match self {
            SetModel::Any => true,
            SetModel::Only(v) => v.contains(k),
            SetModel::Except(v) => !v.contains(k),
        }
    }

    /// The complement, in the form `complement` gives it.
    pub open spec fn complemented(self) -> SetModel {
        match self {
            SetModel::Any => SetModel::Only(Seq::empty()),
            SetModel::Only(v) => if v.len() == 0 {
                SetModel::Any
            } else {
                SetModel::Except(v)
            },
            SetModel::Except(v) => SetModel::Only(v),
        }
    }
}

impl View for DiscreteVersionSet {
    type V = SetModel;

    open spec fn view(&self) -> SetModel {
        match self {
            DiscreteVersionSet::Any => SetModel::Any,
            DiscreteVersionSet::Only(v) => SetModel::Only(version_keys(v@)),
            DiscreteVersionSet::Except(v) => SetModel::Except(version_keys(v@)),
        }
    }
}

impl Clone for DiscreteVersionSet {
    fn clone(&self) -> (r: Self)
        ensures
            r@ == self@,
    {
        match self {
            DiscreteVersionSet::Any => DiscreteVersionSet::Any,
            DiscreteVersionSet::Only(v) => DiscreteVersionSet::Only(clone_versions(v)),
            DiscreteVersionSet::Except(v) => DiscreteVersionSet::Except(clone_versions(v)),
        }
    }
}

/// The versions of `a` that `b` holds (`keep`) or does not hold (`!keep`), in order.
fn filter_versions(a: &Vec<PubGrubVersion>, b: &Vec<PubGrubVersion>, keep: bool) -> (r: Vec<
    PubGrubVersion,
>)
    requires
        versions_sorted(version_keys(a@)),
    ensures
        versions_sorted(version_keys(r@)),
        forall|k: VersionKey| #[trigger]
            version_keys(r@).contains(k) <==> version_keys(a@).contains(k) && version_keys(
                b@,
            ).contains(k) == keep,
{
    let ghost ka = version_keys(a@);
    let ghost kb = version_keys(b@);
    let mut out: Vec<PubGrubVersion> = Vec::new();
    let ghost mut picked: Seq<int> = Seq::empty();
    let mut i: usize = 0;
    while i < a.len()
        invariant
            i <= a@.len(),
            ka == version_keys(a@),
            kb == version_keys(b@),
            versions_sorted(ka),
            picked.len() == out@.len(),
            forall|j: int| 0 <= j < picked.len() ==> 0 <= #[trigger] picked[j] < i,
            forall|j: int, l: int| 0 <= j < l < picked.len() ==> #[trigger] picked[j] < #[trigger] picked[l],
            forall|j: int| 0 <= j < picked.len() ==> version_keys(out@)[j] == ka[#[trigger] picked[j]],
            forall|k: VersionKey| #[trigger]
                version_keys(out@).contains(k) <==> ka.take(i as int).contains(k) && kb.contains(k)
                    == keep,
        decreases a@.len() - i,
    {
        let ghost before = out@;
        assert(ka.take(i + 1) =~= ka.take(i as int).push(ka[i as int]));
        broadcast use vstd::seq_lib::lemma_seq_contains_after_push;
        if holds_version(b, &a[i]) == keep {
            let copy = a[i].clone();
            out.push(copy);
            proof {
                picked = picked.push(i as int);
                assert(version_keys(out@) =~= version_keys(before).push(ka[i as int]));
            }
        } else {
            assert(version_keys(out@) =~= version_keys(before));
        }
        i = i + 1;
    }
    proof {
        assert(ka.take(a@.len() as int) =~= ka);
        let ko = version_keys(out@);
        assert forall|x: int, y: int| 0 <= x < y < ko.len() implies version_lt(
            #[trigger] ko[x],
            #[trigger] ko[y],
        ) by {
            assert(ko[x] == ka[picked[x]] && ko[y] == ka[picked[y]]);
        }
    }
    out
}

/// Joins two lists of versions.
fn concat_versions(a: &Vec<PubGrubVersion>, b: &Vec<PubGrubVersion>) -> (r: Vec<PubGrubVersion>)
    ensures
        version_keys(r@) == version_keys(a@) + version_keys(b@),
{
    let mut out = clone_versions(a);
    let mut i: usize = 0;
    while i < b.len()
        invariant
            i <= b@.len(),
            version_keys(out@) == version_keys(a@) + version_keys(b@).take(i as int),
        decreases b@.len() - i,
    {
        let copy = b[i].clone();
        let ghost before = out@;
        out.push(copy);
        assert(version_keys(out@) =~= version_keys(before).push(copy@));
        assert(version_keys(b@).take(i + 1) =~= version_keys(b@).take(i as int).push(copy@));
        i = i + 1;
    }
    assert(version_keys(b@).take(b@.len() as int) =~= version_keys(b@));
    out
}

impl DiscreteVersionSet {
    /// The set of exactly `versions`.
    pub fn only(versions: Vec<PubGrubVersion>) -> (r: Self)
        ensures
            r@.well_formed(),
            forall|k: VersionKey| #[trigger] r@.has(k) <==> version_keys(versions@).contains(k),
            r is Only,
    {
        let sorted = sorted_versions(&versions);
        proof {
            assert forall|k: VersionKey| version_keys(sorted@).contains(k) <==> version_keys(
                versions@,
            ).contains(k) by {
                assert(version_keys(sorted@).to_set().contains(k) == version_keys(
                    versions@,
                ).to_set().contains(k));
            }
        }
        DiscreteVersionSet::Only(sorted)
    }

    /// Every version but `versions`.
    pub fn without(versions: Vec<PubGrubVersion>) -> (r: Self)
        ensures
            r@.well_formed(),
            forall|k: VersionKey| #[trigger] r@.has(k) <==> !version_keys(versions@).contains(k),
            !(r is Only),
    {
        let sorted = sorted_versions(&versions);
        proof {
            assert forall|k: VersionKey| version_keys(sorted@).contains(k) <==> version_keys(
                versions@,
            ).contains(k) by {
                assert(version_keys(sorted@).to_set().contains(k) == version_keys(
                    versions@,
                ).to_set().contains(k));
            }
        }
        if sorted.len() == 0 {
            proof {
                assert forall|k: VersionKey| !version_keys(versions@).contains(k) by {
                    if version_keys(versions@).contains(k) {
                        let i = choose|i: int|
                            0 <= i < version_keys(sorted@).len() && version_keys(sorted@)[i] == k;
                    }
                }
            }
            DiscreteVersionSet::Any
        } else {
            DiscreteVersionSet::Except(sorted)
        }
    }

    /// The set of no version.
    pub fn empty() -> (r: Self)
        ensures
            r@ == SetModel::Only(Seq::empty()),
            r@.well_formed(),
            forall|k: VersionKey| !(#[trigger] r@.has(k)),
    {
        let r = DiscreteVersionSet::Only(Vec::new());
        assert(version_keys(Seq::<PubGrubVersion>::empty()) =~= Seq::<VersionKey>::empty());
        r
    }

    /// The set of one version.
    pub fn singleton(version: PubGrubVersion) -> (r: Self)
        ensures
            r@ == SetModel::Only(seq![version@]),
            r@.well_formed(),
            forall|k: VersionKey| #[trigger] r@.has(k) <==> k == version@,
    {
        let ghost key = version@;
        let mut versions: Vec<PubGrubVersion> = Vec::new();
        versions.push(version);
        assert(version_keys(versions@) =~= seq![key]);
        assert(seq![key][0] == key);
        DiscreteVersionSet::Only(versions)
    }

    /// Every version this set does not hold.
    pub fn complement(&self) -> (r: Self)
        requires
            self@.well_formed(),
        ensures
            r@ == self@.complemented(),
            r@.well_formed(),
            forall|k: VersionKey| #[trigger] r@.has(k) <==> !self@.has(k),
    {
        match self {
            DiscreteVersionSet::Any => {
                let r = DiscreteVersionSet::empty();
                assert forall|k: VersionKey| #[trigger] r@.has(k) <==> !self@.has(k) by {}
                r
            },
            DiscreteVersionSet::Only(versions) => if versions.len() == 0 {
                assert(version_keys(versions@) =~= Seq::<VersionKey>::empty());
                DiscreteVersionSet::Any
            } else {
                DiscreteVersionSet::Except(clone_versions(versions))
            },
            DiscreteVersionSet::Except(versions) => DiscreteVersionSet::Only(
                clone_versions(versions),
            ),
        }
    }

    /// The versions both sets hold.
    pub fn intersection(&self, other: &Self) -> (r: Self)
        requires
            self@.well_formed(),
            other@.well_formed(),
        ensures
            r@.well_formed(),
            forall|k: VersionKey| #[trigger] r@.has(k) <==> self@.has(k) && other@.has(k),
    {
        match (self, other) {
            (DiscreteVersionSet::Any, right) => right.clone(),
            (left, DiscreteVersionSet::Any) => left.clone(),
            (DiscreteVersionSet::Only(left), DiscreteVersionSet::Only(right)) => {
                DiscreteVersionSet::Only(filter_versions(left, right, true))
            },
            (DiscreteVersionSet::Only(left), DiscreteVersionSet::Except(right)) => {
                DiscreteVersionSet::Only(filter_versions(left, right, false))
            },
            (DiscreteVersionSet::Except(right), DiscreteVersionSet::Only(left)) => {
                DiscreteVersionSet::Only(filter_versions(left, right, false))
            },
            (DiscreteVersionSet::Except(left), DiscreteVersionSet::Except(right)) => {
                let both = concat_versions(left, right);
                let r = DiscreteVersionSet::without(both);
                proof {
                    assert forall|k: VersionKey| #[trigger] r@.has(k) <==> self@.has(k) && other@.has(
                        k,
                    ) by {
                        let a = version_keys(left@);
                        let b = version_keys(right@);
                        if (a + b).contains(k) {
                            let i = choose|i: int| 0 <= i < (a + b).len() && (a + b)[i] == k;
                            if i < a.len() {
                                assert(a[i] == k);
                            } else {
                                assert(b[i - a.len()] == k);
                            }
                        }
                        if a.contains(k) {
                            let i = choose|i: int| 0 <= i < a.len() && a[i] == k;
                            assert((a + b)[i] == k);
                        }
                        if b.contains(k) {
                            let i = choose|i: int| 0 <= i < b.len() && b[i] == k;
                            assert((a + b)[a.len() + i] == k);
                        }
                    }
                }
                r
            },
        }
    }

    /// Whether the set holds `version`.
    pub fn contains(&self, version: &PubGrubVersion) -> (r: bool)
        ensures
            r == self@.has(version@),
    {
        match self {
            DiscreteVersionSet::Any => true,
            DiscreteVersionSet::Only(versions) => holds_version(versions, version),
            DiscreteVersionSet::Except(versions) => !holds_version(versions, version),
        }
    }
}

/// Taking the complement twice gives back the same set, written the same way.
pub proof fn lemma_complement_involutive(s: SetModel)
    requires
        s.well_formed(),
    ensures
        s.complemented().well_formed(),
        s.complemented().complemented() == s,
{
    if let SetModel::Only(v) = s {
        if v.len() == 0 {
            assert(v =~= Seq::<VersionKey>::empty());
        }
    }
}

} // verus!
