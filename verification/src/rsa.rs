use vstd::prelude::*;

verus! {

#[verifier::external_type_specification]
#[verifier::external_body]
#[verifier::reject_recursive_types(T)]
pub struct ExRsa<T>(openssl::rsa::Rsa<T>);

#[verifier::external_type_specification]
#[verifier::external_body]
pub struct ExPublic(openssl::pkey::Public);

#[verifier::external_type_specification]
#[verifier::external_body]
pub struct ExPrivate(openssl::pkey::Private);

/// Relies on openssl RsaRef::size: the size of the key modulus in bytes.
#[verifier::external_body]
pub(crate) fn rsa_size_private(rsa: &openssl::rsa::Rsa<openssl::pkey::Private>) -> u32 {
    rsa.size()
}

/// Relies on openssl Rsa::clone: a second handle to the same key.
#[verifier::external_body]
pub(crate) fn rsa_clone(
    rsa: &openssl::rsa::Rsa<openssl::pkey::Public>,
) -> openssl::rsa::Rsa<openssl::pkey::Public> {
    rsa.clone()
}

/// Relies on openssl RsaRef::public_encrypt with PKCS#1 v1.5 padding, which
/// fills the first size() bytes of the output buffer on success. The padding
/// is random, so nothing ties the ciphertext to its arguments; callers check
/// the returned length at run time.
#[verifier::external_body]
pub(crate) fn rsa_public_encrypt(
    rsa: &openssl::rsa::Rsa<openssl::pkey::Public>,
    data: &[u8],
) -> (r: Result<Vec<u8>, openssl::error::ErrorStack>)
    requires
        data@.len() < 0x8000_0000,
{
    let mut to = vec![0u8; rsa.size() as usize];
    let n = rsa.public_encrypt(data, &mut to, openssl::rsa::Padding::PKCS1)?;
    to.truncate(n);
    Ok(to)
}

/// Relies on openssl RsaRef::private_decrypt with PKCS#1 v1.5 padding: on
/// success the recovered plaintext occupies the reported prefix of the
/// buffer; a padding error fails. The key is opaque, so callers treat the
/// plaintext as arbitrary bytes.
#[verifier::external_body]
pub(crate) fn rsa_private_decrypt(
    rsa: &openssl::rsa::Rsa<openssl::pkey::Private>,
    data: &[u8],
) -> (r: Result<Vec<u8>, openssl::error::ErrorStack>)
    requires
        data@.len() < 0x8000_0000,
{
    let mut to = vec![0u8; rsa.size() as usize];
    let n = rsa.private_decrypt(data, &mut to, openssl::rsa::Padding::PKCS1)?;
    to.truncate(n);
    Ok(to)
}

/// Relies on openssl RsaRef::public_key_to_pem: PEM is printable ASCII plus
/// newlines, so the encoding never contains a NUL byte.
#[verifier::external_body]
pub(crate) fn rsa_public_key_to_pem(
    rsa: &openssl::rsa::Rsa<openssl::pkey::Private>,
) -> (r: Result<Vec<u8>, openssl::error::ErrorStack>)
    ensures
        r matches Ok(p) ==> forall|i: int| 0 <= i < p@.len() ==> p@[i] != 0,
{
    rsa.public_key_to_pem()
}

/// Whether openssl parses these bytes as a PEM-encoded RSA public key:
/// a function of the bytes alone.
pub uninterp spec fn pem_parses(pem: Seq<u8>) -> bool;

/// The modulus size, in bytes, of the RSA public key these PEM bytes
/// encode: a function of the bytes alone.
pub uninterp spec fn pem_key_len(pem: Seq<u8>) -> u32;

/// Relies on openssl Rsa::public_key_from_pem and RsaRef::size: parsing a
/// PEM-encoded SubjectPublicKeyInfo structure fails exactly on malformed
/// input, and both the outcome and the parsed key's modulus size are
/// functions of the PEM bytes alone. Inputs whose length does not fit a
/// C int are excluded: the underlying memory BIO asserts on them.
#[verifier::external_body]
pub(crate) fn rsa_public_key_from_pem(pem: &[u8]) -> (r: Result<
    (openssl::rsa::Rsa<openssl::pkey::Public>, u32),
    openssl::error::ErrorStack,
>)
    requires
        pem@.len() < 0x8000_0000,
    ensures
        r matches Ok(p) ==> pem_parses(pem@) && p.1 == pem_key_len(pem@),
        r matches Err(_) ==> !pem_parses(pem@),
{
    let rsa = openssl::rsa::Rsa::public_key_from_pem(pem)?;
    let size = rsa.size();
    Ok((rsa, size))
}

} // verus!
