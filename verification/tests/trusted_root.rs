use vmdk::error::VmdkErrorKind;
use vmdk::trusted_root::{verify_within_trusted_root, TrustedRootError};

fn root(path: &str) -> Option<Vec<u8>> {
    Some(path.as_bytes().to_vec())
}

#[test]
fn accepts_file_under_a_trusted_root() {
    verify_within_trusted_root(1, Some(b"/tmp/trusted-root-ok/blob"), &[root("/tmp")]).unwrap();
}

#[test]
fn rejects_file_outside_every_trusted_root() {
    // The file is under /tmp, not under /var, so it is refused.
    let res = verify_within_trusted_root(1, Some(b"/tmp/trusted-root-out/blob"), &[root("/var")]);
    assert_eq!(res, Err(TrustedRootError::OutsideTrustedRoots));
}

#[test]
fn rejects_when_no_roots_configured() {
    let res = verify_within_trusted_root(1, Some(b"/tmp/trusted-root-empty/blob"), &[]);
    assert_eq!(res, Err(TrustedRootError::OutsideTrustedRoots));
}

#[test]
fn rejects_deleted_file() {
    let roots = [root("/tmp")];
    verify_within_trusted_root(1, Some(b"/tmp/trusted-root-deleted/blob"), &roots).unwrap();
    let res =
        verify_within_trusted_root(0, Some(b"/tmp/trusted-root-deleted/blob (deleted)"), &roots);
    assert_eq!(res, Err(TrustedRootError::Deleted));
}

#[test]
fn rejects_unknown_path() {
    let res = verify_within_trusted_root(1, None, &[root("/")]);
    assert_eq!(res, Err(TrustedRootError::UnknownPath));
}

#[test]
fn unresolved_roots_never_match() {
    let path: Option<&[u8]> = Some(b"/srv/images/a.vmdk");
    let res = verify_within_trusted_root(2, path, &[None, None]);
    assert_eq!(res, Err(TrustedRootError::OutsideTrustedRoots));
    assert_eq!(verify_within_trusted_root(2, path, &[None, root("/srv/images")]), Ok(()));
}

#[test]
fn one_root_more_takes_nothing_away() {
    let path: Option<&[u8]> = Some(b"/srv/images/a.vmdk");
    assert_eq!(verify_within_trusted_root(1, path, &[root("/srv")]), Ok(()));
    assert_eq!(verify_within_trusted_root(1, path, &[root("/srv"), root("/var")]), Ok(()));
    assert_eq!(verify_within_trusted_root(1, path, &[root("/var"), root("/srv")]), Ok(()));
}

#[test]
fn a_root_holds_itself_and_what_lies_below() {
    let roots = [root("/srv/images")];
    assert_eq!(verify_within_trusted_root(1, Some(b"/srv/images"), &roots), Ok(()));
    assert_eq!(verify_within_trusted_root(1, Some(b"/srv/images/a/b"), &roots), Ok(()));
    assert!(verify_within_trusted_root(1, Some(b"/srv/images2/a"), &roots).is_err());
    assert!(verify_within_trusted_root(1, Some(b"/srv"), &roots).is_err());
}

#[test]
fn every_refusal_is_a_denial_and_has_words() {
    let cases = [
        (
            TrustedRootError::Deleted,
            "image-embedded absolute path backing file was deleted; cannot verify containment",
        ),
        (
            TrustedRootError::UnknownPath,
            "cannot verify image-embedded absolute path: reading '/proc/self/fd/7' failed (gone); \
             is /proc mounted?",
        ),
        (
            TrustedRootError::OutsideTrustedRoots,
            "image-embedded absolute path resolves to '/srv/a', outside any trusted root",
        ),
    ];
    for (error, message) in cases {
        assert_eq!(error.kind(), VmdkErrorKind::PermissionDenied);
        assert_eq!(error.message("/proc/self/fd/7", "gone", "/srv/a"), message);
    }
}
