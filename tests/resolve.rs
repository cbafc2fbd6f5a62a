use base64::engine::general_purpose::STANDARD;
use base64::Engine;
use native_certs::merge::{bytes_equal, MergedRecord};
use native_certs::pem::pem_encode;
use native_certs::probe::single_file_bundle;
use native_certs::resolve::{listing_failed, resolve, CertEntry, DomainListing, StoreError};
use native_certs::verdict::{apply_default_trust, is_trusted_root, TrustVerdict};

const HEADER: &str = "-----BEGIN CERTIFICATE-----\n";
const FOOTER: &str = "\n-----END CERTIFICATE-----\n";

fn entry(der: &[u8], verdict: Option<TrustVerdict>) -> CertEntry {
    CertEntry { der: der.to_vec(), verdict: Ok(verdict) }
}

fn failing_entry(der: &[u8], code: i32) -> CertEntry {
    CertEntry { der: der.to_vec(), verdict: Err(StoreError { code }) }
}

fn empty() -> DomainListing {
    Ok(Vec::new())
}

fn pem_of(der: &[u8]) -> Vec<u8> {
    let mut out = HEADER.as_bytes().to_vec();
    out.extend_from_slice(STANDARD.encode(der).as_bytes());
    out.extend_from_slice(FOOTER.as_bytes());
    out
}

/// Splits a bundle into its PEM blocks.
fn blocks(bundle: &[u8]) -> Vec<Vec<u8>> {
    let text = String::from_utf8(bundle.to_vec()).unwrap();
    let mut out = Vec::new();
    for part in text.split_inclusive("-----END CERTIFICATE-----\n") {
        out.push(part.as_bytes().to_vec());
    }
    out
}

fn sorted_blocks(bundle: &[u8]) -> Vec<Vec<u8>> {
    let mut b = blocks(bundle);
    b.sort();
    b
}

const CERT_A: &[u8] = &[0x30, 0x03, 0x02, 0x01, 0x05];
const CERT_B: &[u8] = &[0x30, 0x82, 0x01, 0x0a, 0xff, 0x00];
const CERT_C: &[u8] = &[0x01];

#[test]
fn pem_block_is_bit_exact() {
    let pem = pem_encode(CERT_A);
    assert_eq!(
        pem,
        b"-----BEGIN CERTIFICATE-----\nMAMCAQU=\n-----END CERTIFICATE-----\n".to_vec()
    );
    let pem = pem_encode(CERT_C);
    assert_eq!(pem, b"-----BEGIN CERTIFICATE-----\nAQ==\n-----END CERTIFICATE-----\n".to_vec());
    let pem = pem_encode(&[]);
    assert_eq!(pem, b"-----BEGIN CERTIFICATE-----\n\n-----END CERTIFICATE-----\n".to_vec());
    let pem = pem_encode(&[0xfb, 0xff, 0xbf]);
    assert_eq!(pem, b"-----BEGIN CERTIFICATE-----\n+/+/\n-----END CERTIFICATE-----\n".to_vec());
}

#[test]
fn empty_store_gives_empty_bundle() {
    let r = resolve(&empty(), &empty(), &empty());
    assert_eq!(r, Ok(Vec::new()));
}

#[test]
fn user_deny_overrides_system_trust() {
    let user: DomainListing = Ok(vec![entry(CERT_A, Some(TrustVerdict::Deny))]);
    let system: DomainListing = Ok(vec![
        entry(CERT_A, Some(TrustVerdict::TrustRoot)),
        entry(CERT_B, Some(TrustVerdict::TrustRoot)),
    ]);
    let r = resolve(&user, &empty(), &system).unwrap();
    assert_eq!(r, pem_of(CERT_B));
}

#[test]
fn user_trust_overrides_admin_deny() {
    let user: DomainListing = Ok(vec![entry(CERT_A, Some(TrustVerdict::TrustAsRoot))]);
    let admin: DomainListing = Ok(vec![entry(CERT_A, Some(TrustVerdict::Deny))]);
    let r = resolve(&user, &admin, &empty()).unwrap();
    assert_eq!(r, pem_of(CERT_A));
}

#[test]
fn admin_deny_overrides_system_trust() {
    let admin: DomainListing = Ok(vec![entry(CERT_B, Some(TrustVerdict::Deny))]);
    let system: DomainListing = Ok(vec![entry(CERT_B, None)]);
    let r = resolve(&empty(), &admin, &system).unwrap();
    assert!(r.is_empty());
}

#[test]
fn missing_verdict_means_trusted_root() {
    let system: DomainListing = Ok(vec![entry(CERT_C, None)]);
    let r = resolve(&empty(), &empty(), &system).unwrap();
    assert_eq!(r, pem_of(CERT_C));
}

#[test]
fn denied_everywhere_is_excluded() {
    let user: DomainListing = Ok(vec![entry(CERT_A, Some(TrustVerdict::Deny))]);
    let admin: DomainListing = Ok(vec![entry(CERT_A, Some(TrustVerdict::Deny))]);
    let system: DomainListing = Ok(vec![
        entry(CERT_A, Some(TrustVerdict::Deny)),
        entry(CERT_B, Some(TrustVerdict::TrustRoot)),
    ]);
    let r = resolve(&user, &admin, &system).unwrap();
    assert_eq!(r, pem_of(CERT_B));
}

#[test]
fn only_root_verdicts_are_included() {
    let system: DomainListing = Ok(vec![
        entry(&[1, 2, 3], Some(TrustVerdict::TrustRoot)),
        entry(&[4, 5, 6], Some(TrustVerdict::TrustAsRoot)),
        entry(&[7, 8, 9], Some(TrustVerdict::Deny)),
        entry(&[10, 11, 12], Some(TrustVerdict::Unspecified)),
        entry(&[13, 14, 15], Some(TrustVerdict::Invalid)),
    ]);
    let r = resolve(&empty(), &empty(), &system).unwrap();
    let mut expected = vec![pem_of(&[1, 2, 3]), pem_of(&[4, 5, 6])];
    expected.sort();
    assert_eq!(sorted_blocks(&r), expected);
}

#[test]
fn duplicate_in_one_domain_keeps_first() {
    let user: DomainListing = Ok(vec![
        entry(CERT_A, Some(TrustVerdict::TrustRoot)),
        entry(CERT_A, Some(TrustVerdict::Deny)),
        entry(CERT_B, Some(TrustVerdict::Deny)),
        entry(CERT_B, Some(TrustVerdict::TrustRoot)),
    ]);
    let r = resolve(&user, &empty(), &empty()).unwrap();
    assert_eq!(r, pem_of(CERT_A));
}

#[test]
fn bundle_blocks_decode_to_supplied_der() {
    let user: DomainListing = Ok(vec![entry(CERT_A, None)]);
    let admin: DomainListing = Ok(vec![entry(CERT_B, Some(TrustVerdict::TrustRoot))]);
    let system: DomainListing = Ok(vec![entry(CERT_C, Some(TrustVerdict::TrustAsRoot))]);
    let r = resolve(&user, &admin, &system).unwrap();
    let mut decoded = Vec::new();
    for block in blocks(&r) {
        let text = String::from_utf8(block).unwrap();
        let inner = text
            .strip_prefix("-----BEGIN CERTIFICATE-----\n")
            .unwrap()
            .strip_suffix("\n-----END CERTIFICATE-----\n")
            .unwrap();
        decoded.push(STANDARD.decode(inner).unwrap());
    }
    decoded.sort();
    let mut expected = vec![CERT_A.to_vec(), CERT_B.to_vec(), CERT_C.to_vec()];
    expected.sort();
    assert_eq!(decoded, expected);
}

#[test]
fn resolving_twice_gives_same_blocks() {
    let user: DomainListing = Ok(vec![entry(CERT_B, Some(TrustVerdict::TrustRoot))]);
    let system: DomainListing = Ok(vec![entry(CERT_A, None), entry(CERT_C, None)]);
    let first = resolve(&user, &empty(), &system).unwrap();
    let second = resolve(&user, &empty(), &system).unwrap();
    assert_eq!(sorted_blocks(&first), sorted_blocks(&second));
    assert_eq!(blocks(&first).len(), 3);
}

#[test]
fn domain_open_failure_fails_whole_call() {
    let user: DomainListing = Ok(vec![entry(CERT_A, Some(TrustVerdict::TrustRoot))]);
    let admin: DomainListing = Err(StoreError { code: -25262 });
    let system: DomainListing = Err(StoreError { code: -1 });
    let r = resolve(&user, &admin, &system);
    assert_eq!(r, Err(StoreError { code: -25262 }));
}

#[test]
fn verdict_query_failure_fails_whole_call() {
    let user: DomainListing = Ok(vec![entry(CERT_A, Some(TrustVerdict::TrustRoot))]);
    let system: DomainListing = Ok(vec![
        entry(CERT_B, None),
        failing_entry(CERT_C, -50),
        failing_entry(CERT_A, -51),
    ]);
    let r = resolve(&user, &empty(), &system);
    assert_eq!(r, Err(StoreError { code: -50 }));
}

#[test]
fn listing_failure_is_detected() {
    assert!(!listing_failed(&empty()));
    assert!(listing_failed(&Err(StoreError { code: 1 })));
    let ok: DomainListing = Ok(vec![entry(CERT_A, None), entry(CERT_B, Some(TrustVerdict::Deny))]);
    assert!(!listing_failed(&ok));
    let bad: DomainListing = Ok(vec![entry(CERT_A, None), failing_entry(CERT_B, 7)]);
    assert!(listing_failed(&bad));
}

#[test]
fn verdict_helpers() {
    assert_eq!(apply_default_trust(None), TrustVerdict::TrustRoot);
    assert_eq!(apply_default_trust(Some(TrustVerdict::Deny)), TrustVerdict::Deny);
    assert!(is_trusted_root(TrustVerdict::TrustRoot));
    assert!(is_trusted_root(TrustVerdict::TrustAsRoot));
    assert!(!is_trusted_root(TrustVerdict::Deny));
    assert!(!is_trusted_root(TrustVerdict::Unspecified));
    assert!(!is_trusted_root(TrustVerdict::Invalid));
}

#[test]
fn merged_record_first_write_wins() {
    let mut record = MergedRecord::new();
    assert_eq!(record.verdict_of(CERT_A), None);
    record.insert_if_absent(CERT_A, TrustVerdict::Deny);
    record.insert_if_absent(CERT_A, TrustVerdict::TrustRoot);
    record.insert_if_absent(CERT_B, TrustVerdict::TrustAsRoot);
    assert_eq!(record.verdict_of(CERT_A), Some(TrustVerdict::Deny));
    assert_eq!(record.verdict_of(CERT_B), Some(TrustVerdict::TrustAsRoot));
    assert_eq!(record.verdict_of(CERT_C), None);
    assert_eq!(record.pem_bundle(), pem_of(CERT_B));
}

#[test]
fn byte_equality() {
    assert!(bytes_equal(CERT_A, CERT_A));
    assert!(!bytes_equal(CERT_A, CERT_B));
    assert!(!bytes_equal(&[1, 2], &[1, 3]));
    assert!(bytes_equal(&[], &[]));
}

#[test]
fn probe_without_file_gives_empty_bundle() {
    let r: Result<Vec<u8>, std::io::Error> = single_file_bundle(None);
    assert_eq!(r.unwrap(), Vec::<u8>::new());
}

#[test]
fn probe_with_file_passes_bytes_through() {
    let bytes = pem_of(CERT_A);
    let r: Result<Vec<u8>, std::io::Error> = single_file_bundle(Some(Ok(bytes.clone())));
    assert_eq!(r.unwrap(), bytes);
    let failed: Result<Vec<u8>, std::io::Error> = single_file_bundle(Some(Err(
        std::io::Error::new(std::io::ErrorKind::NotFound, "missing"),
    )));
    assert_eq!(failed.unwrap_err().kind(), std::io::ErrorKind::NotFound);
}
