use vstd::prelude::*;
use crate::errors::Error;

verus! {

/// What openssl's AES-256-CBC one-shot encryption returns for a given key,
/// IV and plaintext. CBC with a fixed IV is deterministic in exactly these
/// three arguments.
pub uninterp spec fn aes_enc_of(key: Seq<u8>, iv: Seq<u8>, plain: Seq<u8>) -> Seq<u8>;

/// What openssl's AES-256-CBC one-shot decryption returns for a given key,
/// IV and ciphertext: the recovered plaintext, or nothing when the PKCS7
/// padding check fails. Deterministic in exactly these three arguments.
pub uninterp spec fn aes_dec_of(key: Seq<u8>, iv: Seq<u8>, ct: Seq<u8>) -> Option<Seq<u8>>;

#[verifier::external_type_specification]
#[verifier::external_body]
pub struct ExErrorStack(openssl::error::ErrorStack);

/// Relies on openssl::symm::encrypt with Cipher::aes_256_cbc: PKCS7 padding
/// always pads, so the ciphertext length is the plaintext length rounded up
/// to the next multiple of the 16-byte block; decryption with the same key
/// and IV inverts the encryption. Inputs whose length does not fit a C int
/// are excluded: openssl aborts on them.
#[verifier::external_body]
fn aes256_encrypt(key: &[u8], iv: &[u8], data: &[u8]) -> (r: Result<
    Vec<u8>,
    openssl::error::ErrorStack,
>)
    requires
        key@.len() == 32,
        iv@.len() == 16,
        data@.len() < 0x8000_0000,
    ensures
        r matches Ok(ct) ==> ct@ == aes_enc_of(key@, iv@, data@) && ct@.len() == (data@.len() / 16
            + 1) * 16 && aes_dec_of(key@, iv@, ct@) == Some(data@),
{
    openssl::symm::encrypt(openssl::symm::Cipher::aes_256_cbc(), key, Some(iv), data)
}

/// Relies on openssl::symm::decrypt with Cipher::aes_256_cbc: deterministic
/// in key, IV and ciphertext; it fails exactly when the padding check does.
/// Inputs whose length does not fit a C int are excluded: openssl aborts on
/// them.
#[verifier::external_body]
fn aes256_decrypt(key: &[u8], iv: &[u8], data: &[u8]) -> (r: Result<
    Vec<u8>,
    openssl::error::ErrorStack,
>)
    requires
        key@.len() == 32,
        iv@.len() == 16,
        data@.len() < 0x8000_0000,
    ensures
        r matches Ok(p) ==> aes_dec_of(key@, iv@, data@) == Some(p@),
        r matches Err(_) ==> aes_dec_of(key@, iv@, data@) is None,
{
    openssl::symm::decrypt(openssl::symm::Cipher::aes_256_cbc(), key, Some(iv), data)
}

/// Relies on openssl::rand::rand_bytes, which fills the given buffer in
/// place and so never changes its length. Buffers whose length does not fit
/// a C int are excluded: rand_bytes asserts on them.
#[verifier::external_body]
pub(crate) fn rand_fill(buf: &mut Vec<u8>) -> (r: Result<(), openssl::error::ErrorStack>)
    requires
        old(buf)@.len() < 0x8000_0000,
    ensures
        final(buf)@.len() == old(buf)@.len(),
{
    openssl::rand::rand_bytes(buf.as_mut_slice())
}

/// A vector of `n` zero bytes.
pub(crate) fn zero_vec(n: usize) -> (r: Vec<u8>)
    ensures
        r@.len() == n,
{
    let mut r: Vec<u8> = Vec::new();
    let mut k: usize = 0;
    while k < n
        invariant
            k <= n,
            r@.len() == k,
        decreases n - k,
    {
        r.push(0);
        k += 1;
    }
    r
}

/// The AES-256-CBC session cipher shared by the gateway and one relay for
/// one tunnel: a 32-byte key and a 16-byte IV. The IV is fixed for the
/// session; successive encrypts reuse it.
pub struct Aes {
    key: Vec<u8>,
    iv: Vec<u8>,
}

impl Aes {
    pub closed spec fn key_spec(&self) -> Seq<u8> {
        self.key@
    }

    pub closed spec fn iv_spec(&self) -> Seq<u8> {
        self.iv@
    }

    pub open spec fn wf(&self) -> bool {
        self.key_spec().len() == 32 && self.iv_spec().len() == 16
    }

    /// A fresh random session key and IV.
    pub fn new() -> (r: Result<Aes, Error>)
        ensures
            r matches Ok(a) ==> a.wf(),
            r matches Err(e) ==> e == Error::Crypto,
    {
        let mut key = zero_vec(32);
        if rand_fill(&mut key).is_err() {
            return Err(Error::Crypto);
        }
        let mut iv = zero_vec(16);
        if rand_fill(&mut iv).is_err() {
            return Err(Error::Crypto);
        }
        Ok(Aes { key, iv })
    }

    /// Rebuilds the cipher a relay was handed: the first 32 bytes are the
    /// key, the last 16 the IV.
    pub fn import(key_iv: &[u8; 48]) -> (r: Aes)
        ensures
            r.wf(),
            r.key_spec() == key_iv@.subrange(0, 32),
            r.iv_spec() == key_iv@.subrange(32, 48),
    {
        let mut key: Vec<u8> = Vec::new();
        let mut k: usize = 0;
        while k < 32
            invariant
                k <= 32,
                key@ == key_iv@.subrange(0, k as int),
        decreases 32 - k,
        {
            key.push(key_iv[k]);
            k += 1;
            proof {
                assert(key_iv@.subrange(0, k as int) =~= key_iv@.subrange(0, k - 1).push(
                    key_iv@[k - 1],
                ));
            }
        }
        let mut iv: Vec<u8> = Vec::new();
        let mut j: usize = 32;
        while j < 48
            invariant
                32 <= j <= 48,
                iv@ == key_iv@.subrange(32, j as int),
            decreases 48 - j,
        {
            iv.push(key_iv[j]);
            j += 1;
            proof {
                assert(key_iv@.subrange(32, j as int) =~= key_iv@.subrange(32, j - 1).push(
                    key_iv@[j - 1],
                ));
            }
        }
        Aes { key, iv }
    }

    /// The 48-byte wire form handed to a relay during the handshake: key
    /// followed by IV.
    pub fn get_key_iv(&self) -> (r: [u8; 48])
        requires
            self.wf(),
        ensures
            r@ == self.key_spec() + self.iv_spec(),
    {
        let mut out = [0u8; 48];
        let mut k: usize = 0;
        while k < 32
            invariant
                self.wf(),
                k <= 32,
                out@.len() == 48,
                forall|t: int| 0 <= t < k ==> out@[t] == self.key@[t],
            decreases 32 - k,
        {
            out[k] = self.key[k];
            k += 1;
        }
        let mut j: usize = 0;
        while j < 16
            invariant
                self.wf(),
                j <= 16,
                out@.len() == 48,
                forall|t: int| 0 <= t < 32 ==> out@[t] == self.key@[t],
                forall|t: int| 0 <= t < j ==> out@[32 + t] == self.iv@[t],
            decreases 16 - j,
        {
            out[32 + j] = self.iv[j];
            j += 1;
        }
        proof {
            assert(out@ =~= self.key_spec() + self.iv_spec());
        }
        out
    }

    /// Encrypts one chunk. The joint contract with `decrypt` states the
    /// crypto round trip: decrypting the returned ciphertext with the same
    /// session key yields `data` again.
    pub fn encrypt(&self, data: &[u8]) -> (r: Result<Vec<u8>, Error>)
        requires
            self.wf(),
        ensures
            r matches Ok(ct) ==> ct@ == aes_enc_of(self.key_spec(), self.iv_spec(), data@)
                && ct@.len() == (data@.len() / 16 + 1) * 16 && aes_dec_of(
                self.key_spec(),
                self.iv_spec(),
                ct@,
            ) == Some(data@),
            r matches Err(e) ==> e == Error::Crypto,
    {
        if data.len() >= 0x8000_0000 {
            return Err(Error::Crypto);
        }
        match aes256_encrypt(self.key.as_slice(), self.iv.as_slice(), data) {
            Ok(ct) => Ok(ct),
            Err(_) => Err(Error::Crypto),
        }
    }

    /// Decrypts one frame; for every frame of a length a C int holds it
    /// fails with `Error::Crypto` exactly when the padding check fails.
    pub fn decrypt(&self, data: &[u8]) -> (r: Result<Vec<u8>, Error>)
        requires
            self.wf(),
        ensures
            r matches Ok(p) ==> aes_dec_of(self.key_spec(), self.iv_spec(), data@) == Some(p@),
            r matches Err(e) ==> e == Error::Crypto && (data@.len() < 0x8000_0000 ==> aes_dec_of(
                self.key_spec(),
                self.iv_spec(),
                data@,
            ) is None),
    {
        if data.len() >= 0x8000_0000 {
            return Err(Error::Crypto);
        }
        match aes256_decrypt(self.key.as_slice(), self.iv.as_slice(), data) {
            Ok(p) => Ok(p),
            Err(_) => Err(Error::Crypto),
        }
    }
}

} // verus!
