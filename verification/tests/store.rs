use concerto::error::{ConcertoError, StoreStep};
use concerto::semver::satisfies;
use concerto::store::{archive_hashes, vendor_link_action, verify_archive, VendorLinkAction, VendorPathState};

#[test]
fn hashes_archive_bytes_with_blake3_and_sha1() {
    let bytes = b"abc".to_vec();

    let hashes = archive_hashes(&bytes, true);

    assert_eq!(hashes.integrity, format!("blake3:{}", blake3::hash(b"abc").to_hex()));
    assert_eq!(hashes.shasum.as_deref(), Some("a9993e364706816aba3e25717850c26c9cd0d89d"));
    assert!(archive_hashes(&bytes, false).shasum.is_none());
}

#[test]
fn verifies_archive_against_integrity_and_shasum() {
    let bytes = b"abc".to_vec();
    let integrity = format!("blake3:{}", blake3::hash(b"abc").to_hex());

    let verified =
        verify_archive("psr/log", &bytes, Some(&integrity), Some("A9993E364706816ABA3E25717850C26C9CD0D89D"))
            .unwrap();
    assert_eq!(verified.integrity, integrity);

    let error = verify_archive("psr/log", &bytes, Some("blake3:00"), None).unwrap_err();
    assert!(matches!(error, ConcertoError::Store { .. }));
    assert!(error.message().contains("archive integrity mismatch"));

    let error = verify_archive("psr/log", &bytes, None, Some("0000")).unwrap_err();
    assert!(error.message().contains("archive shasum mismatch"));
}

#[test]
fn refuses_constraint_numbers_that_overflow() {
    let error = satisfies("1.0.0", "^9223372036854775807").unwrap_err();
    assert!(error.contains("too large"));
    let below = satisfies("1.0.0", "^9223372036854775806");
    assert!(!below.err().unwrap_or_default().contains("too large"));
    assert!(satisfies("1.2.3", "^1.0").unwrap());
}

#[test]
fn decides_what_linking_into_vendor_does() {
    let link = "vendor/psr/log";
    assert_eq!(vendor_link_action("psr/log", link, VendorPathState::Missing).unwrap(), VendorLinkAction::Create);
    assert_eq!(vendor_link_action("psr/log", link, VendorPathState::LinkToSource).unwrap(), VendorLinkAction::Keep);
    assert_eq!(vendor_link_action("psr/log", link, VendorPathState::LinkElsewhere).unwrap(), VendorLinkAction::Replace);
    match vendor_link_action("psr/log", link, VendorPathState::NotLink) {
        Err(ConcertoError::Store { package, step, message, hint }) => {
            assert_eq!(package, "psr/log");
            assert_eq!(step, StoreStep::Link);
            assert_eq!(message, "vendor path already exists and is not a symlink: vendor/psr/log");
            assert_eq!(hint.as_deref(), Some("Remove or move the existing vendor path, then run install again."));
        }
        other => panic!("expected a store error, got {other:?}"),
    }
}
