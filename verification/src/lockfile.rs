//! `concerto.lock`: its entries, the root manifest hash, and the checks run on a
//! lockfile that was read back.

use vstd::prelude::*;
use vstd::relations::sorted_by;
use vstd::utf8::encode_utf8;
use crate::composer::{repository_urls, ComposerRepository, RequiredPackage};
use crate::error::ConcertoError;
use crate::order::{lemma_pair_le_total_ordering, pair_le, pair_order, text_less};
use crate::text::{decimal, str_eq, usize_string};

verus! {

broadcast use vstd::seq_lib::group_to_multiset_ensures;

/// The lockfile format this library writes and reads.
pub const LOCKFILE_VERSION: u8 = 2;

/// Where the lockfile lives, relative to the project.
pub const LOCKFILE_PATH: &'static str = "concerto.lock";

/// One installed package as the lockfile records it.
#[derive(Debug)]
pub struct LockedPackage {
    pub name: String,
    pub version: String,
    pub dist_url: String,
    /// `blake3:` and the archive's hash, checked before extraction or reuse.
    pub dist_integrity: Option<String>,
    /// The Packagist SHA-1 of the archive, checked when present.
    pub dist_shasum: Option<String>,
    /// Whether the package belongs only to the `require-dev` graph.
    pub dev: bool,
    pub package_requires: Vec<RequiredPackage>,
    pub platform_requires: Vec<RequiredPackage>,
}

/// The whole lockfile.
#[derive(Debug)]
pub struct Lockfile {
    pub lockfile_version: u8,
    pub root_manifest_hash: String,
    pub root_requirements: Vec<RequiredPackage>,
    pub root_repositories: Vec<ComposerRepository>,
    pub packages: Vec<LockedPackage>,
}

// ---------------------------------------------------------------------------
// The root manifest hash
// ---------------------------------------------------------------------------

/// The BLAKE3 hash of `data`, in lowercase hexadecimal.
pub uninterp spec fn blake3_hex(data: Seq<u8>) -> Seq<char>;

/// Calls `blake3::hash` on `data` and renders the digest with `Hash::to_hex`. The
/// contract names the result and says nothing more of it.
#[verifier::external_body]
pub(crate) fn blake3_hex_digest(data: &Vec<u8>) -> (r: String)
    ensures
        r@ == blake3_hex(data@),
{
    blake3::hash(data.as_slice()).to_hex().to_string()
}

/// The (name, constraint) pairs of requirements.
pub open spec fn requirement_pairs(requirements: Seq<RequiredPackage>) -> Seq<(Seq<char>, Seq<char>)> {
    requirements.map_values(|r: RequiredPackage| (r.name@, r.constraint@))
}

/// One value as it enters the hash: its UTF-8 length in decimal, `:`, its UTF-8 bytes.
pub open spec fn framed(value: Seq<char>) -> Seq<u8> {
    encode_utf8(decimal(encode_utf8(value).len())) + seq![58u8] + encode_utf8(value)
}

/// The framed names and constraints of `pairs`, in order.
pub open spec fn framed_pairs(pairs: Seq<(Seq<char>, Seq<char>)>) -> Seq<u8>
    decreases pairs.len(),
{
    if pairs.len() == 0 {
        Seq::empty()
    } else {
        framed_pairs(pairs.drop_last()) + framed(pairs.last().0) + framed(pairs.last().1)
    }
}

/// The framed `values`, in order.
pub open spec fn framed_all(values: Seq<Seq<char>>) -> Seq<u8>
    decreases values.len(),
{
    if values.len() == 0 {
        Seq::empty()
    } else {
        framed_all(values.drop_last()) + framed(values.last())
    }
}

/// The bytes the root manifest hash is taken of: the requirements sorted by name and
/// constraint, then the repository URLs in their order.
pub open spec fn manifest_bytes(pairs: Seq<(Seq<char>, Seq<char>)>, urls: Seq<Seq<char>>) -> Seq<u8> {
    framed("requirements"@) + framed_pairs(pairs.sort_by(pair_order())) + framed("repositories"@)
        + framed_all(urls)
}

/// The root manifest hash of requirements and repositories.
pub open spec fn root_manifest_hash_spec(
    requirements: Seq<RequiredPackage>,
    repositories: Seq<ComposerRepository>,
) -> Seq<char> {
    blake3_hex(manifest_bytes(requirement_pairs(requirements), repository_urls(repositories)))
}

/// Appends `value` as `framed` lays it out.
fn append_framed(out: &mut Vec<u8>, value: &str)
    ensures
        final(out)@ == old(out)@ + framed(value@),
{
    let bytes = value.as_bytes();
    let digits = usize_string(bytes.len());
    let digit_bytes = digits.as_str().as_bytes();
    append_bytes(out, digit_bytes);
    out.push(58u8);
    append_bytes(out, bytes);
}

/// Appends `bytes` to `out`.
fn append_bytes(out: &mut Vec<u8>, bytes: &[u8])
    ensures
        final(out)@ == old(out)@ + bytes@,
{
    let ghost start = out@;
    let mut i: usize = 0;
    while i < bytes.len()
        invariant
            i <= bytes@.len(),
            out@ == start + bytes@.subrange(0, i as int),
        decreases bytes@.len() - i,
    {
        out.push(bytes[i]);
        assert(bytes@.subrange(0, i + 1) == bytes@.subrange(0, i as int).push(bytes@[i as int]));
        i = i + 1;
    }
    assert(bytes@.subrange(0, bytes@.len() as int) == bytes@);
}

/// Whether `a` sorts before `b` or equals it, by name and then by constraint.
fn requirement_le(a: &RequiredPackage, b: &RequiredPackage) -> (r: bool)
    ensures
        r == pair_le((a.name@, a.constraint@), (b.name@, b.constraint@)),
{
    if text_less(a.name.as_str(), b.name.as_str()) {
        true
    } else if str_eq(a.name.as_str(), b.name.as_str()) {
        text_less(a.constraint.as_str(), b.constraint.as_str()) || str_eq(
            a.constraint.as_str(),
            b.constraint.as_str(),
        )
    } else {
        false
    }
}

/// The requirements sorted by name, then by constraint.
pub fn sort_requirements(requirements: &Vec<RequiredPackage>) -> (r: Vec<RequiredPackage>)
    ensures
        requirement_pairs(r@) == requirement_pairs(requirements@).sort_by(pair_order()),
{
    let mut out: Vec<RequiredPackage> = Vec::new();
    let mut n: usize = 0;
    proof {
        lemma_pair_le_total_ordering();
    }
    while n < requirements.len()
        invariant
            n <= requirements@.len(),
            vstd::relations::total_ordering(pair_order()),
            sorted_by(requirement_pairs(out@), pair_order()),
            requirement_pairs(out@).to_multiset() == requirement_pairs(
                requirements@.take(n as int),
            ).to_multiset(),
        decreases requirements@.len() - n,
    {
        let item = &requirements[n];
        let ghost x = (item.name@, item.constraint@);
        let mut k: usize = 0;
        while k < out.len() && requirement_le(&out[k], item)
            invariant
                k <= out@.len(),
                x == (item.name@, item.constraint@),
                forall|j: int| 0 <= j < k ==> pair_le(#[trigger] requirement_pairs(out@)[j], x),
            decreases out@.len() - k,
        {
            k = k + 1;
        }
        let ghost before = requirement_pairs(out@);
        proof {
            let le = pair_order();
            if k < out@.len() {
                assert(!pair_le(before[k as int], x));
                assert(le(before[k as int], x) || le(x, before[k as int]));
                assert forall|j: int| k <= j < before.len() implies pair_le(x, #[trigger] before[j])
                    by {
                    if j > k {
                        assert(le(before[k as int], before[j]));
                        assert(le(x, before[k as int]) && le(before[k as int], before[j]) ==> le(
                            x,
                            before[j],
                        ));
                    }
                }
            }
        }
        out.insert(k, item.clone());
        proof {
            let le = pair_order();
            let after = requirement_pairs(out@);
            assert(after =~= before.insert(k as int, x));
            assert forall|i: int, j: int| 0 <= i < j < after.len() implies #[trigger] le(
                after[i],
                after[j],
            ) by {
                if j < k {
                    assert(after[i] == before[i] && after[j] == before[j]);
                } else if j == k {
                    assert(after[i] == before[i]);
                } else if i == k {
                    assert(after[j] == before[j - 1]);
                } else if i < k {
                    assert(after[i] == before[i] && after[j] == before[j - 1]);
                    assert(le(before[i], x) && le(x, before[j - 1]) ==> le(before[i], before[j - 1]));
                } else {
                    assert(after[i] == before[i - 1] && after[j] == before[j - 1]);
                }
            }
            assert(requirement_pairs(requirements@.take(n + 1)) =~= requirement_pairs(
                requirements@.take(n as int),
            ).push(x));
        }
        n = n + 1;
    }
    proof {
        assert(requirements@.take(requirements@.len() as int) =~= requirements@);
        let all = requirement_pairs(requirements@);
        all.lemma_sort_by_ensures(pair_order());
        vstd::seq_lib::lemma_sorted_unique(requirement_pairs(out@), all.sort_by(pair_order()), pair_order());
    }
    out
}

/// The hash stored as `root_manifest_hash`: of the requirements sorted by name and
/// constraint, and of the repository URLs in their order of priority.
pub fn root_manifest_hash(
    root_requirements: &Vec<RequiredPackage>,
    root_repositories: &Vec<ComposerRepository>,
) -> (r: String)
    ensures
        r@ == root_manifest_hash_spec(root_requirements@, root_repositories@),
{
    let requirements = sort_requirements(root_requirements);
    let ghost sorted = requirement_pairs(requirements@);
    let mut bytes: Vec<u8> = Vec::new();
    append_framed(&mut bytes, "requirements");
    let ghost head = bytes@;
    let mut i: usize = 0;
    while i < requirements.len()
        invariant
            i <= requirements@.len(),
            sorted == requirement_pairs(requirements@),
            bytes@ == head + framed_pairs(sorted.take(i as int)),
        decreases requirements@.len() - i,
    {
        assert(sorted.take(i + 1).drop_last() =~= sorted.take(i as int));
        append_framed(&mut bytes, requirements[i].name.as_str());
        append_framed(&mut bytes, requirements[i].constraint.as_str());
        i = i + 1;
    }
    assert(sorted.take(sorted.len() as int) =~= sorted);
    append_framed(&mut bytes, "repositories");
    let ghost middle = bytes@;
    let ghost urls = repository_urls(root_repositories@);
    let mut j: usize = 0;
    while j < root_repositories.len()
        invariant
            j <= root_repositories@.len(),
            urls == repository_urls(root_repositories@),
            bytes@ == middle + framed_all(urls.take(j as int)),
        decreases root_repositories@.len() - j,
    {
        assert(urls.take(j + 1).drop_last() =~= urls.take(j as int));
        append_framed(&mut bytes, root_repositories[j].url.as_str());
        j = j + 1;
    }
    assert(urls.take(urls.len() as int) =~= urls);
    assert(bytes@ =~= manifest_bytes(requirement_pairs(root_requirements@), urls));
    blake3_hex_digest(&bytes)
}

/// Whether the lockfile was written for these root requirements and repositories.
pub fn matches_root_manifest(
    lockfile: &Lockfile,
    root_requirements: &Vec<RequiredPackage>,
    root_repositories: &Vec<ComposerRepository>,
) -> (r: bool)
    ensures
        r == (lockfile.root_manifest_hash@ == root_manifest_hash_spec(
            root_requirements@,
            root_repositories@,
        )),
{
    let hash = root_manifest_hash(root_requirements, root_repositories);
    str_eq(lockfile.root_manifest_hash.as_str(), hash.as_str())
}

/// The root manifest hash depends on the multiset of root requirements, not on the
/// order they are listed in.
pub proof fn lemma_root_manifest_hash_ignores_requirement_order(
    left: Seq<RequiredPackage>,
    right: Seq<RequiredPackage>,
    repositories: Seq<ComposerRepository>,
)
    requires
        requirement_pairs(left).to_multiset() == requirement_pairs(right).to_multiset(),
    ensures
        root_manifest_hash_spec(left, repositories) == root_manifest_hash_spec(right, repositories),
{
    lemma_pair_le_total_ordering();
    let l = requirement_pairs(left);
    let r = requirement_pairs(right);
    l.lemma_sort_by_ensures(pair_order());
    r.lemma_sort_by_ensures(pair_order());
    vstd::seq_lib::lemma_sorted_unique(l.sort_by(pair_order()), r.sort_by(pair_order()), pair_order());
}

// ---------------------------------------------------------------------------
// Reading a lockfile back
// ---------------------------------------------------------------------------

/// The message for a lockfile whose hash does not match its own root data.
pub const MISMATCHED_ROOT_MANIFEST: &'static str =
    "Lockfile root manifest hash does not match root requirements and repositories";

/// Whether a decoded lockfile can be used: its version is the one this library
/// writes, and its hash matches its own root requirements and repositories.
pub open spec fn lockfile_error_spec(lockfile: Lockfile) -> Option<Seq<char>> {
    if lockfile.lockfile_version != LOCKFILE_VERSION {
        Some("Unsupported lockfile version: "@ + decimal(lockfile.lockfile_version as nat))
    } else if lockfile.root_manifest_hash@ != root_manifest_hash_spec(
        lockfile.root_requirements@,
        lockfile.root_repositories@,
    ) {
        Some(MISMATCHED_ROOT_MANIFEST@)
    } else {
        None
    }
}

/// Accepts a decoded lockfile, or refuses it with a lockfile error.
pub fn validate_lockfile(lockfile: Lockfile) -> (r: Result<Lockfile, ConcertoError>)
    ensures
        match lockfile_error_spec(lockfile) {
            None => r matches Ok(l) && l == lockfile,
            Some(message) => r matches Err(ConcertoError::Lockfile { message: m }) && m@
                == message,
        },
{
    if lockfile.lockfile_version != LOCKFILE_VERSION {
        let version = usize_string(lockfile.lockfile_version as usize);
        return Err(
            ConcertoError::lockfile(crate::text::concat2("Unsupported lockfile version: ", version.as_str())),
        );
    }
    let hash = root_manifest_hash(&lockfile.root_requirements, &lockfile.root_repositories);
    if !str_eq(lockfile.root_manifest_hash.as_str(), hash.as_str()) {
        return Err(ConcertoError::lockfile(MISMATCHED_ROOT_MANIFEST.to_owned()));
    }
    Ok(lockfile)
}

} // verus!
