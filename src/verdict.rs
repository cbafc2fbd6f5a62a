//! Trust verdicts that a trust domain attaches to a certificate.

use vstd::prelude::*;

verus! {

/// What a trust domain says of a certificate as a TLS trust anchor.
#[derive(Clone, Copy, Debug, PartialEq, Eq, Structural)]
pub enum TrustVerdict {
    /// The domain's settings for the certificate are malformed.
    Invalid,
    /// Trusted as a root.
    TrustRoot,
    /// Trusted as a root through the domain's narrower "as root" setting.
    TrustAsRoot,
    /// Explicitly not trusted.
    Deny,
    /// Present, with no decision either way.
    Unspecified,
}

/// The verdicts under which a certificate goes into the bundle.
pub open spec fn is_root_verdict(v: TrustVerdict) -> bool {
    v == TrustVerdict::TrustRoot || v == TrustVerdict::TrustAsRoot
}

/// The verdict that stands for a domain's answer: a domain that holds no
/// explicit setting for a certificate it enumerates trusts it as a root.
pub open spec fn effective_verdict(answer: Option<TrustVerdict>) -> TrustVerdict {
    match answer {
        Some(v) => v,
        None => TrustVerdict::TrustRoot,
    }
}

/// Whether a certificate with this verdict is trusted as a root.
pub fn is_trusted_root(v: TrustVerdict) -> (r: bool)
    ensures
        r == is_root_verdict(v),
{
    match v {
        TrustVerdict::TrustRoot | TrustVerdict::TrustAsRoot => true,
        _ => false,
    }
}

/// The verdict to record for a domain's answer. An answer without an
/// explicit setting means "always trust as root" for the trust domains, so
/// it becomes `TrustRoot` here, and only here.
pub fn apply_default_trust(answer: Option<TrustVerdict>) -> (r: TrustVerdict)
    ensures
        r == effective_verdict(answer),
{
    match answer {
        Some(v) => v,
        None => TrustVerdict::TrustRoot,
    }
}

} // verus!
