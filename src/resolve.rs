//! Resolution of the user, admin and system trust domains into one bundle
//! of trusted root certificates in PEM form.

use crate::merge::{concat_blocks, merge_into, root_ders, MergedRecord};
use crate::verdict::{apply_default_trust, effective_verdict, TrustVerdict};
use vstd::prelude::*;

verus! {

/// A failure of the operating system's trust store, with its status code.
#[derive(Clone, Copy, Debug, PartialEq, Eq, Structural)]
pub struct StoreError {
    pub code: i32,
}

/// One certificate that a domain enumerated: its DER encoding, and the
/// domain's answer when asked for its verdict as a TLS trust anchor (`None`:
/// no explicit setting).
pub struct CertEntry {
    pub der: Vec<u8>,
    pub verdict: Result<Option<TrustVerdict>, StoreError>,
}

/// What opening and enumerating one trust domain gave: its certificates in
/// enumeration order, or the failure to open it.
pub type DomainListing = Result<Vec<CertEntry>, StoreError>;

/// The first failed verdict query among `es`, in order.
pub open spec fn entries_error(es: Seq<CertEntry>) -> Option<StoreError>
    decreases es.len(),
{
    if es.len() == 0 {
        None
    } else if entries_error(es.drop_last()) is Some {
        entries_error(es.drop_last())
    } else if es.last().verdict is Err {
        Some(es.last().verdict->Err_0)
    } else {
        None
    }
}

/// The failure in a domain's listing: the failure to open it, else its
/// first failed verdict query.
pub open spec fn listing_error(l: DomainListing) -> Option<StoreError> {
    match l {
        Err(e) => Some(e),
        Ok(es) => entries_error(es@),
    }
}

/// The failure that ends a resolution: the first one in precedence order
/// user, admin, system.
pub open spec fn resolution_error(
    user: DomainListing,
    admin: DomainListing,
    system: DomainListing,
) -> Option<StoreError> {
    if listing_error(user) is Some {
        listing_error(user)
    } else if listing_error(admin) is Some {
        listing_error(admin)
    } else {
        listing_error(system)
    }
}

/// The (DER, verdict) pairs of entries whose queries succeeded, with the
/// default trust applied.
pub open spec fn entry_pairs(es: Seq<CertEntry>) -> Seq<(Seq<u8>, TrustVerdict)> {
    es.map_values(|e: CertEntry| (e.der@, effective_verdict(e.verdict->Ok_0)))
}

/// The entries of a listing; none where it failed to open.
pub open spec fn listing_entries(l: DomainListing) -> Seq<CertEntry> {
    match l {
        Ok(es) => es@,
        Err(_) => Seq::empty(),
    }
}

/// All entries of the three domains, in precedence order.
pub open spec fn all_entries(
    user: DomainListing,
    admin: DomainListing,
    system: DomainListing,
) -> Seq<CertEntry> {
    listing_entries(user) + listing_entries(admin) + listing_entries(system)
}

/// The merged record of the three domains: each certificate once, with the
/// verdict of the first domain, in precedence order, that enumerated it.
pub open spec fn merged_domains(
    user: DomainListing,
    admin: DomainListing,
    system: DomainListing,
) -> Seq<(Seq<u8>, TrustVerdict)> {
    merge_into(Seq::empty(), entry_pairs(all_entries(user, admin, system)))
}

/// The DER encodings that end up trusted as roots, in the order they were
/// first enumerated.
pub open spec fn resolved_roots(
    user: DomainListing,
    admin: DomainListing,
    system: DomainListing,
) -> Seq<Seq<u8>> {
    root_ders(merged_domains(user, admin, system))
}

/// Every DER encoding of `es` fits the address space.
pub open spec fn ders_fit(es: Seq<CertEntry>) -> bool {
    forall|i: int| 0 <= i < es.len() ==> (#[trigger] es[i]).der@.len() <= usize::MAX / 2
}

proof fn lemma_entries_error_prefix(es: Seq<CertEntry>, k: int)
    requires
        0 <= k <= es.len(),
        entries_error(es.take(k)) is Some,
    ensures
        entries_error(es) == entries_error(es.take(k)),
    decreases es.len(),
{
    if k < es.len() {
        assert(es.drop_last().take(k) =~= es.take(k));
        lemma_entries_error_prefix(es.drop_last(), k);
    } else {
        assert(es.take(k) =~= es);
    }
}

/// Records the entries of one domain, in order, each unless already
/// recorded; stops at the first failed verdict query.
pub fn absorb_entries(record: &mut MergedRecord, entries: &Vec<CertEntry>) -> (r: Result<
    (),
    StoreError,
>)
    requires
        old(record).wf(),
        ders_fit(entries@),
    ensures
        final(record).wf(),
        match r {
            Ok(()) => entries_error(entries@) is None && final(record)@ == merge_into(
                old(record)@,
                entry_pairs(entries@),
            ),
            Err(e) => entries_error(entries@) == Some(e),
        },
{
    let ghost start = record@;
    let mut i: usize = 0;
    while i < entries.len()
        invariant
            record.wf(),
            ders_fit(entries@),
            0 <= i <= entries@.len(),
            entries_error(entries@.take(i as int)) is None,
            record@ == merge_into(start, entry_pairs(entries@.take(i as int))),
        decreases entries@.len() - i,
    {
        let entry = &entries[i];
        let ghost prefix = entries@.take(i as int);
        proof {
            assert(entries@.take(i + 1).drop_last() =~= prefix);
            assert(entries@.take(i + 1).last() == *entry);
        }
        match &entry.verdict {
            Err(e) => {
                proof {
                    lemma_entries_error_prefix(entries@, i + 1);
                }
                return Err(*e);
            },
            Ok(answer) => {
                let v = apply_default_trust(*answer);
                record.insert_if_absent(entry.der.as_slice(), v);
                proof {
                    assert(entry_pairs(entries@.take(i + 1)) =~= entry_pairs(prefix).push(
                        (entry.der@, v),
                    ));
                    assert(entry_pairs(entries@.take(i + 1)).drop_last() =~= entry_pairs(
                        prefix,
                    ));
                }
            },
        }
        i = i + 1;
    }
    assert(entries@.take(i as int) =~= entries@);
    Ok(())
}

/// Records the entries of one domain's listing; a domain that failed to
/// open, or a failed verdict query, is the error.
pub fn absorb_listing(record: &mut MergedRecord, listing: &DomainListing) -> (r: Result<
    (),
    StoreError,
>)
    requires
        old(record).wf(),
        ders_fit(listing_entries(*listing)),
    ensures
        final(record).wf(),
        match r {
            Ok(()) => listing_error(*listing) is None && final(record)@ == merge_into(
                old(record)@,
                entry_pairs(listing_entries(*listing)),
            ),
            Err(e) => listing_error(*listing) == Some(e),
        },
{
    match listing {
        Err(e) => Err(*e),
        Ok(entries) => absorb_entries(record, entries),
    }
}

/// Whether a domain's listing holds a failure: the domain could not be
/// opened, or a verdict query failed.
pub fn listing_failed(listing: &DomainListing) -> (r: bool)
    ensures
        r == (listing_error(*listing) is Some),
{
    match listing {
        Err(_) => true,
        Ok(entries) => {
            let mut i: usize = 0;
            while i < entries.len()
                invariant
                    *listing == Ok::<Vec<CertEntry>, StoreError>(*entries),
                    0 <= i <= entries@.len(),
                    entries_error(entries@.take(i as int)) is None,
                decreases entries@.len() - i,
            {
                proof {
                    assert(entries@.take(i + 1).drop_last() =~= entries@.take(i as int));
                    assert(entries@.take(i + 1).last() == entries@[i as int]);
                }
                match &entries[i].verdict {
                    Err(_) => {
                        proof {
                            lemma_entries_error_prefix(entries@, i + 1);
                        }
                        return true;
                    },
                    Ok(_) => {},
                }
                i = i + 1;
            }
            assert(entries@.take(i as int) =~= entries@);
            false
        },
    }
}

/// Resolves the three trust domains into one PEM bundle. The domains are
/// taken in precedence order user, admin, system: a certificate keeps the
/// verdict of the first domain that enumerates it, an answer without an
/// explicit setting counts as `TrustRoot`, and the certificates trusted as
/// roots (`TrustRoot` or `TrustAsRoot`) are written as PEM blocks, one after
/// another. Any failure to open a domain or to query a verdict is the
/// result, the first one in precedence order, and nothing else is returned.
pub fn resolve(user: &DomainListing, admin: &DomainListing, system: &DomainListing) -> (r:
    Result<Vec<u8>, StoreError>)
    requires
        ders_fit(listing_entries(*user)),
        ders_fit(listing_entries(*admin)),
        ders_fit(listing_entries(*system)),
    ensures
        match r {
            Ok(bundle) => resolution_error(*user, *admin, *system) is None && bundle@
                == concat_blocks(resolved_roots(*user, *admin, *system)),
            Err(e) => resolution_error(*user, *admin, *system) == Some(e),
        },
{
    let mut record = MergedRecord::new();
    match absorb_listing(&mut record, user) {
        Err(e) => {
            return Err(e);
        },
        Ok(()) => {},
    }
    match absorb_listing(&mut record, admin) {
        Err(e) => {
            return Err(e);
        },
        Ok(()) => {},
    }
    match absorb_listing(&mut record, system) {
        Err(e) => {
            return Err(e);
        },
        Ok(()) => {},
    }
    proof {
        let u = entry_pairs(listing_entries(*user));
        let a = entry_pairs(listing_entries(*admin));
        let s = entry_pairs(listing_entries(*system));
        crate::merge::lemma_merge_into_concat(Seq::empty(), u, a);
        crate::merge::lemma_merge_into_concat(Seq::empty(), u + a, s);
        assert(entry_pairs(all_entries(*user, *admin, *system)) =~= u + a + s);
    }
    Ok(record.pem_bundle())
}

} // verus!
