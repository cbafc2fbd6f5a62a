//! Properties of a resolution that relate the domains' answers to the
//! bundle, proved over the model that `resolve` is specified by.

use crate::merge::{
    first_verdict, has_key, keys_unique, lemma_first_verdict_at, lemma_first_verdict_concat,
    lemma_first_verdict_has_key, lemma_merge_first_wins, lemma_root_ders_member, merge_into,
    root_ders, concat_blocks,
};
use crate::pem::{lemma_pem_round_trip, pem_block, pem_contents};
use crate::resolve::{
    all_entries, entries_error, entry_pairs, listing_entries, merged_domains,
    resolution_error, resolved_roots, CertEntry, DomainListing, StoreError,
};
use crate::verdict::{is_root_verdict, TrustVerdict};
use vstd::prelude::*;

verus! {

/// The pairs of all domains are the pairs of each, in precedence order.
proof fn lemma_all_pairs(user: DomainListing, admin: DomainListing, system: DomainListing)
    ensures
        entry_pairs(all_entries(user, admin, system)) == entry_pairs(listing_entries(user))
            + entry_pairs(listing_entries(admin)) + entry_pairs(listing_entries(system)),
{
    assert(entry_pairs(all_entries(user, admin, system)) =~= entry_pairs(listing_entries(user))
        + entry_pairs(listing_entries(admin)) + entry_pairs(listing_entries(system)));
}

/// A certificate is among the resolved roots exactly when the first verdict
/// given for it, over all domains in precedence order, trusts it as a root.
pub proof fn law_root_membership(
    user: DomainListing,
    admin: DomainListing,
    system: DomainListing,
    k: Seq<u8>,
)
    ensures
        resolved_roots(user, admin, system).contains(k) <==> ({
            let v = first_verdict(entry_pairs(all_entries(user, admin, system)), k);
            v is Some && is_root_verdict(v->0)
        }),
{
    let ps = entry_pairs(all_entries(user, admin, system));
    lemma_merge_first_wins(ps);
    lemma_root_ders_member(merge_into(Seq::empty(), ps), k);
}

/// User settings override admin settings, which override system settings:
/// the verdict that decides a certificate is the user domain's where it
/// enumerates it, else the admin domain's, else the system domain's.
pub proof fn law_precedence(
    user: DomainListing,
    admin: DomainListing,
    system: DomainListing,
    k: Seq<u8>,
)
    ensures
        ({
            let u = first_verdict(entry_pairs(listing_entries(user)), k);
            let a = first_verdict(entry_pairs(listing_entries(admin)), k);
            let s = first_verdict(entry_pairs(listing_entries(system)), k);
            let decided = if u is Some {
                u
            } else if a is Some {
                a
            } else {
                s
            };
            &&& first_verdict(merged_domains(user, admin, system), k) == decided
            &&& resolved_roots(user, admin, system).contains(k) <==> (decided is Some
                && is_root_verdict(decided->0))
        }),
{
    let u = entry_pairs(listing_entries(user));
    let a = entry_pairs(listing_entries(admin));
    let s = entry_pairs(listing_entries(system));
    lemma_all_pairs(user, admin, system);
    lemma_first_verdict_concat(u, a, k);
    lemma_first_verdict_concat(u + a, s, k);
    lemma_merge_first_wins(u + a + s);
    law_root_membership(user, admin, system, k);
}

/// A certificate that the user domain denies stays out of the bundle,
/// whatever the admin and system domains say of it.
pub proof fn law_user_deny_wins(
    user: DomainListing,
    admin: DomainListing,
    system: DomainListing,
    k: Seq<u8>,
)
    requires
        first_verdict(entry_pairs(listing_entries(user)), k) == Some(TrustVerdict::Deny),
    ensures
        !resolved_roots(user, admin, system).contains(k),
{
    law_precedence(user, admin, system, k);
}

/// A certificate whose first enumeration, over the domains in precedence
/// order, came without an explicit verdict is trusted as a root.
pub proof fn law_default_trust(
    user: DomainListing,
    admin: DomainListing,
    system: DomainListing,
    i: int,
)
    requires
        0 <= i < all_entries(user, admin, system).len(),
        all_entries(user, admin, system)[i].verdict == Ok::<Option<TrustVerdict>, StoreError>(None),
        forall|j: int|
            0 <= j < i ==> (#[trigger] all_entries(user, admin, system)[j]).der@
                != all_entries(user, admin, system)[i].der@,
    ensures
        resolved_roots(user, admin, system).contains(all_entries(user, admin, system)[i].der@),
{
    let es = all_entries(user, admin, system);
    let ps = entry_pairs(es);
    let k = es[i].der@;
    assert forall|j: int| 0 <= j < i implies (#[trigger] ps[j]).0 != k by {
        assert(ps[j].0 == es[j].der@);
    }
    lemma_first_verdict_at(ps, k, i);
    law_root_membership(user, admin, system, k);
}

/// A certificate that every domain enumerating it denies never reaches the
/// bundle.
pub proof fn law_denied_excluded(
    user: DomainListing,
    admin: DomainListing,
    system: DomainListing,
    k: Seq<u8>,
)
    requires
        forall|i: int|
            0 <= i < all_entries(user, admin, system).len() && (#[trigger] all_entries(
                user,
                admin,
                system,
            )[i]).der@ == k ==> all_entries(user, admin, system)[i].verdict == Ok::<
                Option<TrustVerdict>,
                StoreError,
            >(Some(TrustVerdict::Deny)),
    ensures
        !resolved_roots(user, admin, system).contains(k),
{
    let es = all_entries(user, admin, system);
    let ps = entry_pairs(es);
    law_root_membership(user, admin, system, k);
    lemma_first_verdict_has_key(ps, k);
    if first_verdict(ps, k) is Some {
        let i = choose|i: int|
            0 <= i < ps.len() && ps[i].0 == k && #[trigger] ps[i].1 == first_verdict(ps, k)->0;
        assert(es[i].der@ == ps[i].0);
    }
}

/// Each PEM block of the bundle holds, between its header and footer, the
/// base64 text of a DER encoding that a domain supplied, and decodes back
/// to exactly those bytes.
pub proof fn law_pem_round_trip(
    user: DomainListing,
    admin: DomainListing,
    system: DomainListing,
    j: int,
)
    requires
        0 <= j < resolved_roots(user, admin, system).len(),
    ensures
        ({
            let d = resolved_roots(user, admin, system)[j];
            &&& pem_contents(pem_block(d)) == d
            &&& exists|i: int|
                0 <= i < all_entries(user, admin, system).len() && (#[trigger] all_entries(
                    user,
                    admin,
                    system,
                )[i]).der@ == d
        }),
{
    let es = all_entries(user, admin, system);
    let ps = entry_pairs(es);
    let d = resolved_roots(user, admin, system)[j];
    assert(resolved_roots(user, admin, system).contains(d));
    law_root_membership(user, admin, system, d);
    lemma_first_verdict_has_key(ps, d);
    let i = choose|i: int| 0 <= i < ps.len() && #[trigger] ps[i].0 == d;
    assert(es[i].der@ == ps[i].0);
    lemma_pem_round_trip(d);
}

/// Three domains that enumerate nothing resolve, without error, to an
/// empty bundle.
pub proof fn law_empty_store(user: DomainListing, admin: DomainListing, system: DomainListing)
    requires
        user is Ok && user->Ok_0@.len() == 0,
        admin is Ok && admin->Ok_0@.len() == 0,
        system is Ok && system->Ok_0@.len() == 0,
    ensures
        resolution_error(user, admin, system) is None,
        concat_blocks(resolved_roots(user, admin, system)) == Seq::<u8>::empty(),
{
    assert(all_entries(user, admin, system) =~= Seq::<CertEntry>::empty());
    assert(entry_pairs(all_entries(user, admin, system)) =~= Seq::<
        (Seq<u8>, TrustVerdict),
    >::empty());
}

proof fn lemma_entries_error_exists(es: Seq<CertEntry>)
    ensures
        entries_error(es) is Some <==> exists|i: int|
            0 <= i < es.len() && (#[trigger] es[i]).verdict is Err,
    decreases es.len(),
{
    if es.len() > 0 {
        let d = es.drop_last();
        lemma_entries_error_exists(d);
        if exists|i: int| 0 <= i < d.len() && (#[trigger] d[i]).verdict is Err {
            let i = choose|i: int| 0 <= i < d.len() && (#[trigger] d[i]).verdict is Err;
            assert(es[i] == d[i]);
        }
        if exists|i: int| 0 <= i < es.len() && (#[trigger] es[i]).verdict is Err {
            let i = choose|i: int| 0 <= i < es.len() && (#[trigger] es[i]).verdict is Err;
            if i < d.len() {
                assert(d[i] == es[i]);
            }
        }
    }
}

/// A domain that cannot be opened, or a verdict query that fails, in any
/// domain, makes the whole resolution fail, however the other domains did.
pub proof fn law_failure_propagates(
    user: DomainListing,
    admin: DomainListing,
    system: DomainListing,
)
    requires
        user is Err || admin is Err || system is Err || exists|i: int|
            0 <= i < all_entries(user, admin, system).len() && (#[trigger] all_entries(
                user,
                admin,
                system,
            )[i]).verdict is Err,
    ensures
        resolution_error(user, admin, system) is Some,
{
    let lu = listing_entries(user);
    let la = listing_entries(admin);
    let ls = listing_entries(system);
    let es = all_entries(user, admin, system);
    lemma_entries_error_exists(lu);
    lemma_entries_error_exists(la);
    lemma_entries_error_exists(ls);
    if !(user is Err || admin is Err || system is Err) {
        let i = choose|i: int| 0 <= i < es.len() && (#[trigger] es[i]).verdict is Err;
        if i < lu.len() {
            assert(es[i] == lu[i]);
        } else if i < lu.len() + la.len() {
            assert(es[i] == la[i - lu.len()]);
        } else {
            assert(es[i] == ls[i - lu.len() - la.len()]);
        }
    }
}

proof fn lemma_merge_known_keys(
    m: Seq<(Seq<u8>, TrustVerdict)>,
    ps: Seq<(Seq<u8>, TrustVerdict)>,
)
    requires
        forall|i: int| 0 <= i < ps.len() ==> has_key(m, (#[trigger] ps[i]).0),
    ensures
        merge_into(m, ps) == m,
    decreases ps.len(),
{
    if ps.len() > 0 {
        let d = ps.drop_last();
        assert forall|i: int| 0 <= i < d.len() implies has_key(m, (#[trigger] d[i]).0) by {
            assert(d[i] == ps[i]);
        }
        lemma_merge_known_keys(m, d);
        assert(has_key(m, ps[ps.len() - 1].0));
    }
}

proof fn lemma_root_ders_unique(m: Seq<(Seq<u8>, TrustVerdict)>)
    requires
        keys_unique(m),
    ensures
        root_ders(m).no_duplicates(),
    decreases m.len(),
{
    if m.len() > 0 {
        let d = m.drop_last();
        assert forall|i: int, j: int| 0 <= i < j < d.len() implies #[trigger] d[i].0
            != #[trigger] d[j].0 by {
            assert(d[i] == m[i] && d[j] == m[j]);
        }
        lemma_root_ders_unique(d);
        if is_root_verdict(m.last().1) {
            let r = root_ders(d);
            let k = m.last().0;
            lemma_root_ders_member(d, k);
            lemma_first_verdict_has_key(d, k);
            if has_key(d, k) {
                let i = choose|i: int| 0 <= i < d.len() && #[trigger] d[i].0 == k;
                assert(m[i] == d[i]);
            }
            assert forall|a: int, b: int| 0 <= a < b < r.push(k).len() implies r.push(k)[a]
                != r.push(k)[b] by {
                if b == r.len() {
                    assert(r.push(k)[a] == r[a]);
                    if r[a] == k {
                        assert(r.contains(k));
                    }
                }
            }
        }
    }
}

/// Resolving the same domains again changes nothing: absorbing their
/// certificates into the record they produced leaves it as it is, and no
/// certificate appears twice among the roots.
pub proof fn law_idempotent(user: DomainListing, admin: DomainListing, system: DomainListing)
    ensures
        merge_into(
            merged_domains(user, admin, system),
            entry_pairs(all_entries(user, admin, system)),
        ) == merged_domains(user, admin, system),
        keys_unique(merged_domains(user, admin, system)),
        resolved_roots(user, admin, system).no_duplicates(),
{
    let ps = entry_pairs(all_entries(user, admin, system));
    let m = merged_domains(user, admin, system);
    lemma_merge_first_wins(ps);
    assert forall|i: int| 0 <= i < ps.len() implies has_key(m, (#[trigger] ps[i]).0) by {
        lemma_first_verdict_has_key(ps, ps[i].0);
        lemma_first_verdict_has_key(m, ps[i].0);
    }
    lemma_merge_known_keys(m, ps);
    lemma_root_ders_unique(m);
}

} // verus!
