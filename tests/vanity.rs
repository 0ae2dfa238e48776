use std::str::FromStr;

use bitcoin::secp256k1::Secp256k1;
use bitcoin::util::bip32::{ChildNumber, DerivationPath, ExtendedPubKey};
use senzu::path_counter::{IncrementablePath, MAX_INDEX};
use senzu::prefix::matches_any_prefix;
use senzu::search::{check_path, search_address, Candidate, SearchError};

/// The account key m/84'/0'/0' of the BIP 84 test mnemonic.
const ACCOUNT_ZPUB: &str = "zpub6rFR7y4Q2AijBEqTUquhVz398htDFrtymD9xYYfG1m4wAcvPhXNfE3EfH1r1ADqtfSdVCToUG868RvUUkgDKf31mGDtKsAYz2oz2AGutZYs";
const FIRST_RECEIVE: &str = "bc1qcr8te4kr609gcawutmrza0j4xv80jy8z306fyu";
const SECOND_RECEIVE: &str = "bc1qnjg0jd8228aq7egyzacy8cys3knf9xvrerkf9g";
const FIRST_CHANGE: &str = "bc1q8c6fshw2dlwun7ekn9qwf37cu2rn755upcp6el";

fn account_key() -> ExtendedPubKey {
    let xpub = xyzpub::convert_version(ACCOUNT_ZPUB, &xyzpub::Version::Xpub).unwrap();
    ExtendedPubKey::from_str(&xpub).unwrap()
}

fn receive_chain_key() -> Vec<u8> {
    let secp = Secp256k1::new();
    let chain = account_key()
        .derive_pub(&secp, &DerivationPath::from_str("m/0").unwrap())
        .unwrap();
    chain.encode().to_vec()
}

fn to_derivation_path(indices: &[u32]) -> DerivationPath {
    let children: Vec<ChildNumber> = indices
        .iter()
        .map(|i| ChildNumber::from_normal_idx(*i).unwrap())
        .collect();
    DerivationPath::from(children)
}

fn counter(digits: Vec<u32>) -> IncrementablePath {
    IncrementablePath::from_digits(digits).unwrap()
}

fn derived(key: &[u8], path: &[u32]) -> String {
    match check_path(key, &[], path) {
        Candidate::Derived { address, matched } => {
            assert!(!matched);
            address
        }
        Candidate::Failed => panic!("derivation failed"),
    }
}

#[test]
fn incrementable_path_new() {
    let path = IncrementablePath::new();

    assert_eq!(to_derivation_path(&path.path()), DerivationPath::master())
}

#[test]
fn incrementable_path_increment() {
    let mut path_start = counter(vec![0u32]);
    let mut path_end = counter(vec![MAX_INDEX]);

    path_start.increment();
    path_end.increment();

    assert_eq!(to_derivation_path(&path_start.path()), DerivationPath::from_str("m/1").unwrap());
    assert_eq!(to_derivation_path(&path_end.path()), DerivationPath::from_str("m/0/0").unwrap());
}

#[test]
fn max_index_is_last_normal_index() {
    assert_eq!(MAX_INDEX, 2147483647);
    assert_eq!(MAX_INDEX as u64, (1u64 << 31) - 1);
    assert!(ChildNumber::from_normal_idx(MAX_INDEX).is_ok());
    assert!(ChildNumber::from_normal_idx(MAX_INDEX + 1).is_err());
}

#[test]
fn from_digits_refuses_hardened_indices() {
    assert!(IncrementablePath::from_digits(vec![MAX_INDEX + 1]).is_none());
    assert!(IncrementablePath::from_digits(vec![0, u32::MAX]).is_none());
    assert_eq!(counter(vec![3, MAX_INDEX]).path(), vec![3, MAX_INDEX]);
}

#[test]
fn first_advance_from_empty_gives_zero() {
    let mut path = IncrementablePath::new();
    path.increment();
    assert_eq!(path.path(), vec![0]);
}

#[test]
fn carries() {
    let mut a = counter(vec![MAX_INDEX]);
    a.increment();
    assert_eq!(a.path(), vec![0, 0]);

    let mut b = counter(vec![0]);
    b.increment();
    assert_eq!(b.path(), vec![1]);

    let mut c = counter(vec![MAX_INDEX, MAX_INDEX]);
    c.increment();
    assert_eq!(c.path(), vec![0, 0, 0]);

    let mut d = counter(vec![4, MAX_INDEX, MAX_INDEX]);
    d.increment();
    assert_eq!(d.path(), vec![5, 0, 0]);

    let mut e = counter(vec![MAX_INDEX, 7]);
    e.increment();
    assert_eq!(e.path(), vec![MAX_INDEX, 8]);
}

#[test]
fn successive_advances_strictly_increase() {
    let mut path = IncrementablePath::new();
    let mut seen = vec![path.path()];
    for _ in 0..1000 {
        path.increment();
        seen.push(path.path());
    }
    for w in seen.windows(2) {
        let (a, b) = (&w[0], &w[1]);
        assert!(a.len() < b.len() || (a.len() == b.len() && a < b));
    }
    assert_eq!(seen[1], vec![0]);
    assert_eq!(seen[1000], vec![999]);
}

#[test]
fn derivation_matches_bip84_vectors() {
    let account = account_key().encode().to_vec();
    assert_eq!(derived(&account, &[0, 0]), FIRST_RECEIVE);
    assert_eq!(derived(&account, &[0, 1]), SECOND_RECEIVE);
    assert_eq!(derived(&account, &[1, 0]), FIRST_CHANGE);
    assert_eq!(derived(&receive_chain_key(), &[1]), SECOND_RECEIVE);
}

#[test]
fn derivation_is_deterministic() {
    let account = account_key().encode().to_vec();
    let first = derived(&account, &[0, 7]);
    let second = derived(&account, &[0, 7]);
    assert_eq!(first, second);
    assert_ne!(first, derived(&account, &[0, 8]));
}

#[test]
fn derivation_fails_on_bad_key() {
    let mut key = account_key().encode().to_vec();
    key.pop();
    assert!(matches!(check_path(&key, &["bc1q"], &[0]), Candidate::Failed));
}

#[test]
fn known_address_matches_its_own_prefix() {
    let account = account_key().encode().to_vec();
    let prefix = &FIRST_RECEIVE[..9];
    match check_path(&account, &["bc1qzzzzz", prefix], &[0, 0]) {
        Candidate::Derived { address, matched } => {
            assert_eq!(address, FIRST_RECEIVE);
            assert!(matched);
        }
        Candidate::Failed => panic!("derivation failed"),
    }
    match check_path(&account, &["bc1qzzzzz"], &[0, 0]) {
        Candidate::Derived { matched, .. } => assert!(!matched),
        Candidate::Failed => panic!("derivation failed"),
    }
}

#[test]
fn prefix_matching() {
    assert!(matches_any_prefix(FIRST_RECEIVE, &["bc1qx", "bc1qcr8"]));
    assert!(matches_any_prefix(FIRST_RECEIVE, &[FIRST_RECEIVE]));
    assert!(matches_any_prefix(FIRST_RECEIVE, &[""]));
    assert!(!matches_any_prefix(FIRST_RECEIVE, &[]));
    assert!(!matches_any_prefix("bc1q", &["bc1qq"]));
    assert!(!matches_any_prefix(FIRST_RECEIVE, &["bc1qcr9"]));
}

#[test]
fn search_finds_known_child() {
    let key = receive_chain_key();
    let prefix = &SECOND_RECEIVE[..20];
    let (path, address) = search_address(&key, &[prefix], 1).unwrap();
    assert_eq!(path, vec![1]);
    assert_eq!(address, SECOND_RECEIVE);
    assert_eq!(to_derivation_path(&path).to_string(), "m/1");
}

#[test]
fn search_with_no_roots_is_exhausted() {
    let key = receive_chain_key();
    assert_eq!(search_address(&key, &["bc1q"], 0), Err(SearchError::Exhausted));
}

#[test]
fn search_stops_on_failed_derivation() {
    // Every child fails alike, so any one of them may be reported.
    let key = vec![0u8; 10];
    match search_address(&key, &["bc1q"], 1) {
        Err(SearchError::Derivation { path }) => assert_eq!(path.len(), 1),
        other => panic!("unexpected outcome {:?}", other.map(|found| found.0)),
    }
}

#[test]
fn search_refuses_root_too_deep_for_the_key() {
    let mut key = receive_chain_key();
    key[4] = 255;
    assert_eq!(search_address(&key, &["bc1q"], 5), Err(SearchError::Exhausted));
}
