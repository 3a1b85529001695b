use negy::directory::{context_matches, Directory, ListedNode};
use negy::errors::Error;
use negy::gateway::{decode_listed_nodes, version_at_least};
use negy::node::context_encode;

fn entry(addr: &str, public_key: &str, version: &str) -> ListedNode {
    ListedNode {
        addr: String::from(addr),
        public_key: String::from(public_key),
        version: String::from(version),
    }
}

#[test]
fn add_then_list_contains_the_entry() {
    let mut dir = Directory::new();
    dir.upsert(entry("1.2.3.4:3000", "key-a", "0.1.0"));
    dir.upsert(entry("5.6.7.8:3000", "key-b", "0.2.0"));

    let listed = dir.list();
    assert_eq!(listed.len(), 2);
    assert!(listed.iter().any(|n| n.addr == "1.2.3.4:3000" && n.public_key == "key-a"));
    assert!(listed.iter().any(|n| n.addr == "5.6.7.8:3000" && n.public_key == "key-b"));
}

#[test]
fn upsert_replaces_the_entry_for_the_same_address() {
    let mut dir = Directory::new();
    dir.upsert(entry("1.2.3.4:3000", "old-key", "0.1.0"));
    dir.upsert(entry("1.2.3.4:3000", "new-key", "0.2.0"));

    let listed = dir.list();
    assert_eq!(listed.len(), 1);
    assert_eq!(listed[0].public_key, "new-key");
    assert_eq!(listed[0].version, "0.2.0");
}

#[test]
fn remove_after_probe_failure_excludes_the_entry() {
    let mut dir = Directory::new();
    dir.upsert(entry("1.2.3.4:3000", "key-a", "0.1.0"));
    dir.upsert(entry("5.6.7.8:3000", "key-b", "0.2.0"));

    dir.remove(&String::from("1.2.3.4:3000"));
    let listed = dir.list();
    assert_eq!(listed.len(), 1);
    assert!(listed.iter().all(|n| n.addr != "1.2.3.4:3000"));
    assert!(listed.iter().any(|n| n.addr == "5.6.7.8:3000"));

    // removing an absent address leaves everything in place
    dir.remove(&String::from("9.9.9.9:1"));
    assert_eq!(dir.list().len(), 1);
}

#[test]
fn get_finds_only_registered_addresses() {
    let mut dir = Directory::new();
    dir.upsert(entry("1.2.3.4:3000", "key-a", "0.1.0"));
    assert!(dir.get(&String::from("1.2.3.4:3000")).is_some());
    assert!(dir.get(&String::from("4.3.2.1:3000")).is_none());
}

#[test]
fn context_matches_accepts_the_registrants_own_claim() {
    let rsa = openssl::rsa::Rsa::generate(2048).unwrap();
    let pem = rsa.public_key_to_pem().unwrap();
    let reply = context_encode(&pem, b"0.1.0");
    let claimed = base64::encode(&pem);
    assert!(matches!(
        context_matches(&reply, claimed.as_bytes(), b"0.1.0"),
        Ok(())
    ));
}

#[test]
fn context_matches_rejects_mismatches() {
    let rsa = openssl::rsa::Rsa::generate(2048).unwrap();
    let pem = rsa.public_key_to_pem().unwrap();
    let reply = context_encode(&pem, b"0.1.0");
    let claimed = base64::encode(&pem);

    let other = openssl::rsa::Rsa::generate(2048).unwrap();
    let other_claim = base64::encode(&other.public_key_to_pem().unwrap());

    assert!(matches!(
        context_matches(&reply, other_claim.as_bytes(), b"0.1.0"),
        Err(Error::Directory)
    ));
    assert!(matches!(
        context_matches(&reply, claimed.as_bytes(), b"0.2.0"),
        Err(Error::Directory)
    ));
    assert!(matches!(
        context_matches(b"no separator here", claimed.as_bytes(), b"0.1.0"),
        Err(Error::Directory)
    ));
}

#[test]
fn version_ordering_is_lexicographic() {
    assert!(version_at_least(b"0.2.0", b"0.1.0"));
    assert!(version_at_least(b"0.1.0", b"0.1.0"));
    assert!(!version_at_least(b"0.0.9", b"0.1.0"));
    assert!(version_at_least(b"0.1.0.1", b"0.1.0"));
    assert!(!version_at_least(b"0.1", b"0.1.0"));
}

#[test]
fn decode_listed_nodes_filters_by_version_and_validates_keys() {
    let rsa = openssl::rsa::Rsa::generate(2048).unwrap();
    let pem_b64 = base64::encode(&rsa.public_key_to_pem().unwrap());

    let nodes = vec![
        entry("1.2.3.4:3000", &pem_b64, "0.2.0"),
        entry("5.6.7.8:3000", &pem_b64, "0.0.1"),
    ];
    let min = b"0.1.0".to_vec();
    let decoded = decode_listed_nodes(&nodes, Some(&min)).unwrap();
    assert_eq!(decoded.len(), 1);
    assert_eq!(decoded[0].addr, b"1.2.3.4:3000");
    assert_eq!(decoded[0].key_len, 256);

    let decoded_all = decode_listed_nodes(&nodes, None).unwrap();
    assert_eq!(decoded_all.len(), 2);

    let bad = vec![entry("1.2.3.4:3000", "not base64!!", "0.2.0")];
    assert!(matches!(
        decode_listed_nodes(&bad, None),
        Err(Error::Directory)
    ));
}
