//! The package store: where an archive is kept by its integrity, and the checks an
//! archive passes before it is extracted or reused.

use vstd::prelude::*;
use crate::error::{ConcertoError, StoreStep};
use crate::text::{
    chars_of, concat2, concat3, eq_ignore_ascii_case, eq_ignore_ascii_case_seq, is_prefix,
    str_eq, strip_prefix,
};

verus! {

/// The hint when an archive does not have the integrity the lockfile records.
pub const INTEGRITY_MISMATCH_HINT: &'static str =
    "Remove the package from .concerto/store and retry. If the archive changed upstream, regenerate concerto.lock intentionally.";

/// The hint when an archive does not have the SHA-1 Packagist lists.
pub const SHASUM_MISMATCH_HINT: &'static str =
    "The package archive does not match Packagist metadata. Retry later or choose another version.";

/// A lowercase or uppercase hexadecimal digit.
pub open spec fn is_hex_digit(c: char) -> bool {
    ('0' <= c && c <= '9') || ('a' <= c && c <= 'f') || ('A' <= c && c <= 'F')
}

/// The store directory name of an archive integrity: `blake3-` and its 64 hex digits;
/// `None` for anything else.
pub open spec fn store_key_spec(integrity: Seq<char>) -> Option<Seq<char>> {
    if is_prefix("blake3:"@, integrity) {
        let hash = integrity.subrange(7, integrity.len() as int);
        if hash.len() == 64 && forall|i: int| 0 <= i < hash.len() ==> is_hex_digit(#[trigger] hash[i]) {
            Some("blake3-"@ + hash)
        } else {
            None
        }
    } else {
        None
    }
}

/// `error` is the store error of `package` for `message`, with `hint` when there is one.
pub open spec fn store_error(
    error: ConcertoError,
    package: Seq<char>,
    step: StoreStep,
    message: Seq<char>,
    hint: Option<Seq<char>>,
) -> bool {
    error matches ConcertoError::Store { package: p, step: s, message: m, hint: h } && p@ == package
        && s == step && m@ == message && match (h, hint) {
        (Some(a), Some(b)) => a@ == b,
        (None, None) => true,
        _ => false,
    }
}

/// The store directory name of an archive integrity; refuses anything but `blake3:`
/// and 64 hex digits.
pub fn integrity_store_key(package_name: &str, integrity: &str) -> (r: Result<String, ConcertoError>)
    ensures
        match store_key_spec(integrity@) {
            Some(key) => r matches Ok(k) && k@ == key,
            None => r matches Err(e) && store_error(
                e,
                package_name@,
                StoreStep::Prepare,
                "invalid archive integrity: "@ + integrity@,
                None,
            ),
        },
{
    proof {
        reveal_strlit("blake3:");
    }
    assert("blake3:"@.len() == 7);
    let invalid = concat2("invalid archive integrity: ", integrity);
    let hash = match strip_prefix(integrity, "blake3:") {
        Some(hash) => hash,
        None => {
            return Err(ConcertoError::store(package_name, StoreStep::Prepare, invalid));
        },
    };
    assert(hash@ == integrity@.subrange(7, integrity@.len() as int));
    let cs = chars_of(hash.as_str());
    if cs.len() != 64 {
        return Err(ConcertoError::store(package_name, StoreStep::Prepare, invalid));
    }
    let mut i: usize = 0;
    while i < cs.len()
        invariant
            i <= cs@.len(),
            cs@.len() == 64,
            cs@ == integrity@.subrange(7, integrity@.len() as int),
            is_prefix("blake3:"@, integrity@),
            "blake3:"@.len() == 7,
            invalid@ == "invalid archive integrity: "@ + integrity@,
            forall|j: int| 0 <= j < i ==> is_hex_digit(#[trigger] cs@[j]),
        decreases cs@.len() - i,
    {
        let c = cs[i];
        if !(('0' <= c && c <= '9') || ('a' <= c && c <= 'f') || ('A' <= c && c <= 'F')) {
            assert(!is_hex_digit(cs@[i as int]));
            return Err(ConcertoError::store(package_name, StoreStep::Prepare, invalid));
        }
        i = i + 1;
    }
    assert(cs@ == hash@);
    Ok(concat2("blake3-", hash.as_str()))
}

/// Accepts an archive whose integrity is what was expected, or when nothing was.
pub fn verify_integrity(
    package_name: &str,
    expected_integrity: Option<&str>,
    observed_integrity: &str,
) -> (r: Result<(), ConcertoError>)
    ensures
        match expected_integrity {
            None => r is Ok,
            Some(expected) => if expected@ == observed_integrity@ {
                r is Ok
            } else {
                r matches Err(e) && store_error(
                    e,
                    package_name@,
                    StoreStep::Download,
                    "archive integrity mismatch: expected "@ + expected@ + ", observed "@
                        + observed_integrity@,
                    Some(INTEGRITY_MISMATCH_HINT@),
                )
            },
        },
{
    let expected = match expected_integrity {
        None => {
            return Ok(());
        },
        Some(expected) => expected,
    };
    if str_eq(observed_integrity, expected) {
        return Ok(());
    }
    let mut message = concat3("archive integrity mismatch: expected ", expected, ", observed ");
    message.append(observed_integrity);
    Err(
        ConcertoError::store_with_hint(
            package_name,
            StoreStep::Download,
            message,
            INTEGRITY_MISMATCH_HINT,
        ),
    )
}

/// Accepts an archive whose SHA-1 matches what Packagist lists, letter case aside, or
/// when it lists none.
pub fn verify_shasum(
    package_name: &str,
    expected_shasum: Option<&str>,
    observed_shasum: Option<&str>,
) -> (r: Result<(), ConcertoError>)
    ensures
        match (expected_shasum, observed_shasum) {
            (None, _) => r is Ok,
            (Some(_), None) => r matches Err(e) && store_error(
                e,
                package_name@,
                StoreStep::Download,
                "archive shasum could not be computed"@,
                None,
            ),
            (Some(expected), Some(observed)) => if eq_ignore_ascii_case_seq(observed@, expected@) {
                r is Ok
            } else {
                r matches Err(e) && store_error(
                    e,
                    package_name@,
                    StoreStep::Download,
                    "archive shasum mismatch: expected "@ + expected@ + ", observed "@ + observed@,
                    Some(SHASUM_MISMATCH_HINT@),
                )
            },
        },
{
    let expected = match expected_shasum {
        None => {
            return Ok(());
        },
        Some(expected) => expected,
    };
    let observed = match observed_shasum {
        None => {
            return Err(
                ConcertoError::store(
                    package_name,
                    StoreStep::Download,
                    "archive shasum could not be computed".to_owned(),
                ),
            );
        },
        Some(observed) => observed,
    };
    if eq_ignore_ascii_case(observed, expected) {
        return Ok(());
    }
    let mut message = concat3("archive shasum mismatch: expected ", expected, ", observed ");
    message.append(observed);
    Err(
        ConcertoError::store_with_hint(package_name, StoreStep::Download, message, SHASUM_MISMATCH_HINT),
    )
}

/// Whether a downloaded archive must also be hashed with SHA-1: when Packagist lists a
/// SHA-1 for it.
pub fn needs_sha1(expected_shasum: Option<&str>) -> (r: bool)
    ensures
        r == expected_shasum is Some,
{
    expected_shasum.is_some()
}

// ---------------------------------------------------------------------------
// Hashing an archive
// ---------------------------------------------------------------------------

/// The SHA-1 digest of `data`, in lowercase hexadecimal.
pub uninterp spec fn sha1_hex(data: Seq<u8>) -> Seq<char>;

/// Calls `sha1_smol::Sha1::from` on `data` and renders its `digest` through its
/// `Display`, forty lowercase hex digits. The contract names the result and says
/// nothing more of it.
#[verifier::external_body]
fn sha1_hex_digest(data: &Vec<u8>) -> (r: String)
    ensures
        r@ == sha1_hex(data@),
{
    sha1_smol::Sha1::from(data.as_slice()).digest().to_string()
}

/// The hashes of an archive: its `blake3:` integrity, and its SHA-1 when asked for.
#[derive(Debug)]
pub struct ArchiveHashes {
    pub integrity: String,
    pub shasum: Option<String>,
}

/// The integrity an archive with these bytes has.
pub open spec fn integrity_of(bytes: Seq<u8>) -> Seq<char> {
    "blake3:"@ + crate::lockfile::blake3_hex(bytes)
}

/// Hashes an archive's bytes: the BLAKE3 integrity always, the SHA-1 when `with_sha1`.
pub fn archive_hashes(bytes: &Vec<u8>, with_sha1: bool) -> (r: ArchiveHashes)
    ensures
        r.integrity@ == integrity_of(bytes@),
        (r.shasum is Some) == with_sha1,
        r.shasum matches Some(s) ==> s@ == sha1_hex(bytes@),
{
    let digest = crate::lockfile::blake3_hex_digest(bytes);
    let integrity = concat2("blake3:", digest.as_str());
    let shasum = if with_sha1 {
        Some(sha1_hex_digest(bytes))
    } else {
        None
    };
    ArchiveHashes { integrity, shasum }
}

/// Checks a downloaded archive's bytes against the integrity the lockfile records and
/// the SHA-1 Packagist lists, hashing with SHA-1 only when one is listed.
pub fn verify_archive(
    package_name: &str,
    bytes: &Vec<u8>,
    expected_integrity: Option<&str>,
    expected_shasum: Option<&str>,
) -> (r: Result<ArchiveHashes, ConcertoError>)
    ensures
        match expected_integrity {
            Some(expected) if expected@ != integrity_of(bytes@) => r matches Err(e) && store_error(
                e,
                package_name@,
                StoreStep::Download,
                "archive integrity mismatch: expected "@ + expected@ + ", observed "@ + integrity_of(
                    bytes@,
                ),
                Some(INTEGRITY_MISMATCH_HINT@),
            ),
            _ => match expected_shasum {
                Some(expected) if !eq_ignore_ascii_case_seq(sha1_hex(bytes@), expected@) => r matches Err(
                    e,
                ) && store_error(
                    e,
                    package_name@,
                    StoreStep::Download,
                    "archive shasum mismatch: expected "@ + expected@ + ", observed "@ + sha1_hex(
                        bytes@,
                    ),
                    Some(SHASUM_MISMATCH_HINT@),
                ),
                _ => r matches Ok(h) && h.integrity@ == integrity_of(bytes@) && (h.shasum is Some)
                    == (expected_shasum is Some) && (h.shasum matches Some(s) ==> s@ == sha1_hex(
                    bytes@,
                )),
            },
        },
{
    let hashes = archive_hashes(bytes, needs_sha1(expected_shasum));
    if let Err(error) = verify_integrity(package_name, expected_integrity, hashes.integrity.as_str()) {
        return Err(error);
    }
    let observed = match &hashes.shasum {
        Some(s) => Some(s.as_str()),
        None => None,
    };
    if let Err(error) = verify_shasum(package_name, expected_shasum, observed) {
        return Err(error);
    }
    Ok(hashes)
}

// ---------------------------------------------------------------------------
// Linking a package into vendor/
// ---------------------------------------------------------------------------

/// What stands at a package's vendor path before it is linked.
#[derive(Debug, Clone, Copy, PartialEq, Eq, Structural)]
pub enum VendorPathState {
    /// Nothing.
    Missing,
    /// Something that is not a symlink.
    NotLink,
    /// A symlink to the package's source.
    LinkToSource,
    /// A symlink to somewhere else.
    LinkElsewhere,
}

/// What linking does at the vendor path.
#[derive(Debug, Clone, Copy, PartialEq, Eq, Structural)]
pub enum VendorLinkAction {
    /// Leave the link as it is.
    Keep,
    /// Create the link.
    Create,
    /// Replace the link, keeping its old target to restore.
    Replace,
}

/// The hint when the vendor path is taken by something that is not a symlink.
pub const VENDOR_PATH_TAKEN_HINT: &'static str = "Remove or move the existing vendor path, then run install again.";

/// What linking `package_name` at `vendor_link` does, given what stands there: a link
/// to the source stays, another link is replaced, a missing one is created, and
/// anything else is left alone with an error.
pub fn vendor_link_action(package_name: &str, vendor_link: &str, state: VendorPathState) -> (r: Result<
    VendorLinkAction,
    ConcertoError,
>)
    ensures
        match state {
            VendorPathState::Missing => r == Ok::<VendorLinkAction, ConcertoError>(VendorLinkAction::Create),
            VendorPathState::LinkToSource => r == Ok::<VendorLinkAction, ConcertoError>(VendorLinkAction::Keep),
            VendorPathState::LinkElsewhere => r == Ok::<VendorLinkAction, ConcertoError>(VendorLinkAction::Replace),
            VendorPathState::NotLink => r matches Err(ConcertoError::Store { package, step, message, hint: Some(h) })
                && package@ == package_name@ && step == StoreStep::Link && message@
                == "vendor path already exists and is not a symlink: "@ + vendor_link@ && h@ == VENDOR_PATH_TAKEN_HINT@,
        },
{
    match state {
        VendorPathState::Missing => Ok(VendorLinkAction::Create),
        VendorPathState::LinkToSource => Ok(VendorLinkAction::Keep),
        VendorPathState::LinkElsewhere => Ok(VendorLinkAction::Replace),
        VendorPathState::NotLink => Err(
            ConcertoError::store_with_hint(
                package_name,
                StoreStep::Link,
                concat2("vendor path already exists and is not a symlink: ", vendor_link),
                VENDOR_PATH_TAKEN_HINT,
            ),
        ),
    }
}

} // verus!
