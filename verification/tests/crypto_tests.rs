use negy::aes::Aes;
use negy::errors::Error;
use negy::directory::{make_add_request, validate_public_key};

#[test]
fn aes_round_trip() {
    let aes = Aes::new().unwrap();
    let plain = b"the quick brown fox jumps over the lazy dog".to_vec();
    let ct = aes.encrypt(&plain).unwrap();
    let back = aes.decrypt(&ct).unwrap();
    assert_eq!(back, plain);
}

#[test]
fn aes_ciphertext_length_is_padded_to_blocks() {
    let aes = Aes::new().unwrap();
    assert_eq!(aes.encrypt(&[]).unwrap().len(), 16);
    assert_eq!(aes.encrypt(&[0u8; 15]).unwrap().len(), 16);
    assert_eq!(aes.encrypt(&[0u8; 16]).unwrap().len(), 32);
    assert_eq!(aes.encrypt(&[0u8; 100]).unwrap().len(), 112);
}

#[test]
fn aes_import_round_trips_key_material() {
    let aes = Aes::new().unwrap();
    let key_iv = aes.get_key_iv();
    assert_eq!(key_iv.len(), 48);
    let again = Aes::import(&key_iv);
    assert_eq!(again.get_key_iv(), key_iv);

    let plain = b"cross-process session key".to_vec();
    let ct = aes.encrypt(&plain).unwrap();
    assert_eq!(again.decrypt(&ct).unwrap(), plain);
}

#[test]
fn aes_decrypt_rejects_garbage() {
    let aes = Aes::new().unwrap();
    let garbage = vec![0x5au8; 32];
    assert!(matches!(aes.decrypt(&garbage), Err(Error::Crypto)));
}

#[test]
fn validate_public_key_accepts_real_key() {
    let rsa = openssl::rsa::Rsa::generate(2048).unwrap();
    let pem = rsa.public_key_to_pem().unwrap();
    let b64 = base64::encode(&pem);
    let out = validate_public_key(b64.as_bytes()).unwrap();
    assert_eq!(out, pem);
}

#[test]
fn validate_public_key_rejects_bad_base64_and_bad_pem() {
    assert!(matches!(
        validate_public_key(b"!!!not-base64!!!"),
        Err(Error::Directory)
    ));
    let b64 = base64::encode(b"-----BEGIN NONSENSE-----");
    assert!(matches!(
        validate_public_key(b64.as_bytes()),
        Err(Error::Directory)
    ));
}

#[test]
fn make_add_request_encodes_key() {
    let rsa = openssl::rsa::Rsa::generate(2048).unwrap();
    let pem = rsa.public_key_to_pem().unwrap();
    let req = make_add_request(&pem, 3001, String::from("0.1.0")).unwrap();
    assert_eq!(req.port, 3001);
    assert_eq!(req.version, "0.1.0");
    assert_eq!(req.public_key, base64::encode(&pem));
}
