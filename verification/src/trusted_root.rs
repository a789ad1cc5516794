//! Containment check for untrusted, image-embedded absolute file references.
//!
//! VMDK absolute extents name host paths taken verbatim from an untrusted disk image. After such a
//! reference has been opened following symlinks, this verifies that the file actually opened
//! resolves inside one of the caller's configured trusted roots.

use vstd::prelude::*;
use vstd::string::StringExecFns;

use crate::error::VmdkErrorKind;
use crate::path::{components, is_within, lies_within};

verus! {

/// Why a file is not known to lie in a trusted root.
#[derive(Clone, Copy, Debug, PartialEq, Eq, Structural)]
pub enum TrustedRootError {
    /// The file was unlinked after it was opened, and has no live path.
    Deleted,
    /// The real path of the open file could not be read.
    UnknownPath,
    /// The real path lies outside every trusted root.
    OutsideTrustedRoots,
}

impl TrustedRootError {
    /// The class of the error: every refusal is a denial.
    pub open spec fn spec_kind(self) -> VmdkErrorKind {
        match self {
            TrustedRootError::Deleted => VmdkErrorKind::PermissionDenied,
            TrustedRootError::UnknownPath => VmdkErrorKind::PermissionDenied,
            TrustedRootError::OutsideTrustedRoots => VmdkErrorKind::PermissionDenied,
        }
    }

    /// The class of the error: every refusal is a denial.
    pub fn kind(&self) -> (res: VmdkErrorKind)
        ensures
            res == self.spec_kind(),
            res == VmdkErrorKind::PermissionDenied,
    {
        match self {
            TrustedRootError::Deleted => VmdkErrorKind::PermissionDenied,
            TrustedRootError::UnknownPath => VmdkErrorKind::PermissionDenied,
            TrustedRootError::OutsideTrustedRoots => VmdkErrorKind::PermissionDenied,
        }
    }

    /// The error in words. `link` is where the real path of the open file was looked up, `cause`
    /// why it could not be read, and `resolved` the path itself, as the host words them.
    pub open spec fn spec_message(
        self,
        link: Seq<char>,
        cause: Seq<char>,
        resolved: Seq<char>,
    ) -> Seq<char> {
        match self {
            TrustedRootError::Deleted =>
                "image-embedded absolute path backing file was deleted; cannot verify containment"@,
            TrustedRootError::UnknownPath =>
                "cannot verify image-embedded absolute path: reading '"@ + link + "' failed ("@
                + cause + "); is /proc mounted?"@,
            TrustedRootError::OutsideTrustedRoots =>
                "image-embedded absolute path resolves to '"@ + resolved
                + "', outside any trusted root"@,
        }
    }

    /// The error in words. `link` is where the real path of the open file was looked up, `cause`
    /// why it could not be read, and `resolved` the path itself, as the host words them.
    pub fn message(&self, link: &str, cause: &str, resolved: &str) -> (res: String)
        ensures
            res@ == self.spec_message(link@, cause@, resolved@),
    {
        match self {
            TrustedRootError::Deleted =>
                "image-embedded absolute path backing file was deleted; cannot verify containment"
                .to_owned(),
            TrustedRootError::UnknownPath =>
                "cannot verify image-embedded absolute path: reading '".to_owned().concat(link)
                .concat("' failed (").concat(cause).concat("); is /proc mounted?"),
            TrustedRootError::OutsideTrustedRoots =>
                "image-embedded absolute path resolves to '".to_owned().concat(resolved)
                .concat("', outside any trusted root"),
        }
    }
}

/// The path lies in one of the roots. A root that could not be resolved holds nothing.
pub open spec fn is_trusted(resolved: Seq<u8>, roots: Seq<Option<Vec<u8>>>) -> bool {
    exists|i: int|
        0 <= i < roots.len() && ((#[trigger] roots[i]) matches Some(root) && is_within(
            resolved,
            root@,
        ))
}

/// Requires an already-opened file to resolve inside one of `trusted_roots`.
///
/// `nlink` is the number of links of the open file, and `resolved` its real path as the kernel
/// tells it, with symlinks and `..` already collapsed, if it could be read. `trusted_roots` are the
/// canonical paths of the roots; one that does not exist has none, and never matches. The check
/// fails closed: when the file was unlinked, when its path is not known, and when there is no root.
pub fn verify_within_trusted_root(
    nlink: u64,
    resolved: Option<&[u8]>,
    trusted_roots: &[Option<Vec<u8>>],
) -> (res: Result<(), TrustedRootError>)
    ensures
        res == if nlink == 0 {
            Err::<(), TrustedRootError>(TrustedRootError::Deleted)
        } else {
            match resolved {
                None => Err(TrustedRootError::UnknownPath),
                Some(path) => if is_trusted(path@, trusted_roots@) {
                    Ok(())
                } else {
                    Err(TrustedRootError::OutsideTrustedRoots)
                },
            }
        },
{
    // A file unlinked after opening has no live path: what the kernel reports for it could still
    // match a root, so containment can no longer be established.
    if nlink == 0 {
        return Err(TrustedRootError::Deleted);
    }
    let path = match resolved {
        Some(path) => path,
        None => return Err(TrustedRootError::UnknownPath),
    };
    let mut i: usize = 0;
    while i < trusted_roots.len()
        invariant
            nlink != 0,
            resolved == Some(path),
            i <= trusted_roots@.len(),
            forall|j: int|
                0 <= j < i ==> !((#[trigger] trusted_roots@[j]) matches Some(root) && is_within(
                    path@,
                    root@,
                )),
        decreases trusted_roots@.len() - i,
    {
        if let Some(root) = &trusted_roots[i] {
            if lies_within(path, root.as_slice()) {
                assert(trusted_roots@[i as int] matches Some(r) && is_within(path@, r@));
                return Ok(());
            }
        }
        i += 1;
    }
    Err(TrustedRootError::OutsideTrustedRoots)
}

/// Nothing is trusted where no root is configured, and trusting one root more never takes a path
/// away.
pub proof fn law_trust_grows_with_roots(
    resolved: Seq<u8>,
    roots: Seq<Option<Vec<u8>>>,
    root: Option<Vec<u8>>,
)
    ensures
        !is_trusted(resolved, Seq::empty()),
        is_trusted(resolved, roots.push(root)) <==> is_trusted(resolved, roots) || (
        root matches Some(r) && is_within(resolved, r@)),
{
    if is_trusted(resolved, roots) {
        let i = choose|i: int|
            0 <= i < roots.len() && ((#[trigger] roots[i]) matches Some(r) && is_within(
                resolved,
                r@,
            ));
        assert(roots.push(root)[i] == roots[i]);
    }
    if root matches Some(r) && is_within(resolved, r@) {
        assert(roots.push(root)[roots.len() as int] == root);
    }
    if is_trusted(resolved, roots.push(root)) {
        let i = choose|i: int|
            0 <= i < roots.push(root).len() && ((#[trigger] roots.push(root)[i]) matches Some(r)
                && is_within(resolved, r@));
        if i < roots.len() {
            assert(roots[i] == roots.push(root)[i]);
        }
    }
}

/// What lies below a trusted path is trusted.
pub proof fn law_trust_reaches_down(
    resolved: Seq<u8>,
    below: Seq<u8>,
    roots: Seq<Option<Vec<u8>>>,
)
    requires
        is_trusted(resolved, roots),
        is_within(below, resolved),
    ensures
        is_trusted(below, roots),
{
    let i = choose|i: int|
        0 <= i < roots.len() && ((#[trigger] roots[i]) matches Some(r) && is_within(resolved, r@));
    crate::path::law_within_is_a_preorder(below, resolved, roots[i]->0@);
    assert(roots[i] matches Some(r) && is_within(below, r@));
}

/// A path is trusted if and only if it agrees with some root that could be resolved at every one of
/// the root's components.
pub proof fn law_trust_means_shared_components(resolved: Seq<u8>, roots: Seq<Option<Vec<u8>>>)
    ensures
        is_trusted(resolved, roots) <==> exists|i: int|
            0 <= i < roots.len() && (#[trigger] roots[i]) is Some && {
                let root = components(roots[i]->0@);
                &&& root.len() <= components(resolved).len()
                &&& forall|k: int| 0 <= k < root.len() ==> components(resolved)[k] == root[k]
            },
{
    assert forall|i: int| 0 <= i < roots.len() && (#[trigger] roots[i]) is Some implies is_within(
        resolved,
        roots[i]->0@,
    ) == {
        let root = components(roots[i]->0@);
        &&& root.len() <= components(resolved).len()
        &&& forall|k: int| 0 <= k < root.len() ==> components(resolved)[k] == root[k]
    } by {
        crate::path::law_within_agrees_at_every_component(resolved, roots[i]->0@);
    }
}

/// Every refusal is worded with what the host said of it, whatever that is.
pub proof fn law_refusals_quote_the_host(link: Seq<char>, cause: Seq<char>, resolved: Seq<char>)
    ensures
        TrustedRootError::UnknownPath.spec_message(link, cause, resolved)
            == "cannot verify image-embedded absolute path: reading '"@ + link + "' failed ("@
            + cause + "); is /proc mounted?"@,
        TrustedRootError::OutsideTrustedRoots.spec_message(link, cause, resolved)
            == "image-embedded absolute path resolves to '"@ + resolved
            + "', outside any trusted root"@,
{
}

} // verus!
