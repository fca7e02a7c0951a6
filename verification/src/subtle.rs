//! WebCrypto secret-key primitives, message digests and zlib compression
//! for the JavaScript host.
//!
//! The script side owns the key objects and hands raw key bytes and
//! normalized algorithm parameters to these functions for each operation.
//! What they decide themselves: which algorithm a name selects, which key,
//! IV and counter sizes are accepted, and which error a refusal reports. The
//! cryptography is the RustCrypto crates' and `flate2`'s.
use vstd::prelude::*;

use aes_gcm::aead::{Aead, Payload};
use cbc::cipher::block_padding::Pkcs7;
use cbc::cipher::{BlockDecryptMut, BlockEncryptMut, KeyIvInit, StreamCipher};
use hmac::Mac;
use sha2::Digest;
use std::io::Write;

use crate::strutil::{concat_str, owned, str_eq};

verus! {

pub uninterp spec fn sha1_digest(data: Seq<u8>) -> Seq<u8>;

/// The SHA-1 digest of `data`, by `Digest::digest` on `sha1::Sha1`. The
/// contract claims the digest's length, 20 bytes, and that it is a
/// function of `data` (`sha1_digest`).
#[verifier::external_body]
fn sha1_of(data: &[u8]) -> (r: Vec<u8>)
    ensures
        r@ == sha1_digest(data@),
        r@.len() == 20,
{
    <sha1::Sha1 as Digest>::digest(data).to_vec()
}

pub uninterp spec fn sha256_digest(data: Seq<u8>) -> Seq<u8>;

/// The SHA-256 digest of `data`, by `Digest::digest` on `sha2::Sha256`. The
/// contract claims the digest's length, 32 bytes, and that it is a
/// function of `data` (`sha256_digest`).
#[verifier::external_body]
fn sha256_of(data: &[u8]) -> (r: Vec<u8>)
    ensures
        r@ == sha256_digest(data@),
        r@.len() == 32,
{
    <sha2::Sha256 as Digest>::digest(data).to_vec()
}

pub uninterp spec fn sha384_digest(data: Seq<u8>) -> Seq<u8>;

/// The SHA-384 digest of `data`, by `Digest::digest` on `sha2::Sha384`. The
/// contract claims the digest's length, 48 bytes, and that it is a
/// function of `data` (`sha384_digest`).
#[verifier::external_body]
fn sha384_of(data: &[u8]) -> (r: Vec<u8>)
    ensures
        r@ == sha384_digest(data@),
        r@.len() == 48,
{
    <sha2::Sha384 as Digest>::digest(data).to_vec()
}

pub uninterp spec fn sha512_digest(data: Seq<u8>) -> Seq<u8>;

/// The SHA-512 digest of `data`, by `Digest::digest` on `sha2::Sha512`. The
/// contract claims the digest's length, 64 bytes, and that it is a
/// function of `data` (`sha512_digest`).
#[verifier::external_body]
fn sha512_of(data: &[u8]) -> (r: Vec<u8>)
    ensures
        r@ == sha512_digest(data@),
        r@.len() == 64,
{
    <sha2::Sha512 as Digest>::digest(data).to_vec()
}

pub uninterp spec fn sha512_224_digest(data: Seq<u8>) -> Seq<u8>;

/// The SHA-512/224 digest of `data`, by `Digest::digest` on `sha2::Sha512_224`. The
/// contract claims the digest's length, 28 bytes, and that it is a
/// function of `data` (`sha512_224_digest`).
#[verifier::external_body]
fn sha512_224_of(data: &[u8]) -> (r: Vec<u8>)
    ensures
        r@ == sha512_224_digest(data@),
        r@.len() == 28,
{
    <sha2::Sha512_224 as Digest>::digest(data).to_vec()
}

pub uninterp spec fn sha512_256_digest(data: Seq<u8>) -> Seq<u8>;

/// The SHA-512/256 digest of `data`, by `Digest::digest` on `sha2::Sha512_256`. The
/// contract claims the digest's length, 32 bytes, and that it is a
/// function of `data` (`sha512_256_digest`).
#[verifier::external_body]
fn sha512_256_of(data: &[u8]) -> (r: Vec<u8>)
    ensures
        r@ == sha512_256_digest(data@),
        r@.len() == 32,
{
    <sha2::Sha512_256 as Digest>::digest(data).to_vec()
}

pub uninterp spec fn hmac_sha1(key: Seq<u8>, data: Seq<u8>) -> Seq<u8>;

/// HMAC-SHA-1 of `data` under `key`: `Mac::new_from_slice` on
/// `hmac::Hmac<sha1::Sha1>`, `update` and `finalize`. The contract claims that
/// any key length is accepted (the source builds the key block from any
/// slice), the MAC's length, 20 bytes, and that it is a function of the
/// key and the data (`hmac_sha1`).
#[verifier::external_body]
fn hmac_sha1_of(key: &[u8], data: &[u8]) -> (r: Option<Vec<u8>>)
    ensures
        r is Some,
        r matches Some(v) ==> v@ == hmac_sha1(key@, data@) && v@.len() == 20,
{
    match <hmac::Hmac<sha1::Sha1> as Mac>::new_from_slice(key) {
        Ok(mut mac) => {
            mac.update(data);
            Some(mac.finalize().into_bytes().to_vec())
        },
        Err(_) => None,
    }
}

pub uninterp spec fn hmac_sha256(key: Seq<u8>, data: Seq<u8>) -> Seq<u8>;

/// HMAC-SHA-256 of `data` under `key`: `Mac::new_from_slice` on
/// `hmac::Hmac<sha2::Sha256>`, `update` and `finalize`. The contract claims that
/// any key length is accepted (the source builds the key block from any
/// slice), the MAC's length, 32 bytes, and that it is a function of the
/// key and the data (`hmac_sha256`).
#[verifier::external_body]
fn hmac_sha256_of(key: &[u8], data: &[u8]) -> (r: Option<Vec<u8>>)
    ensures
        r is Some,
        r matches Some(v) ==> v@ == hmac_sha256(key@, data@) && v@.len() == 32,
{
    match <hmac::Hmac<sha2::Sha256> as Mac>::new_from_slice(key) {
        Ok(mut mac) => {
            mac.update(data);
            Some(mac.finalize().into_bytes().to_vec())
        },
        Err(_) => None,
    }
}

pub uninterp spec fn hmac_sha384(key: Seq<u8>, data: Seq<u8>) -> Seq<u8>;

/// HMAC-SHA-384 of `data` under `key`: `Mac::new_from_slice` on
/// `hmac::Hmac<sha2::Sha384>`, `update` and `finalize`. The contract claims that
/// any key length is accepted (the source builds the key block from any
/// slice), the MAC's length, 48 bytes, and that it is a function of the
/// key and the data (`hmac_sha384`).
#[verifier::external_body]
fn hmac_sha384_of(key: &[u8], data: &[u8]) -> (r: Option<Vec<u8>>)
    ensures
        r is Some,
        r matches Some(v) ==> v@ == hmac_sha384(key@, data@) && v@.len() == 48,
{
    match <hmac::Hmac<sha2::Sha384> as Mac>::new_from_slice(key) {
        Ok(mut mac) => {
            mac.update(data);
            Some(mac.finalize().into_bytes().to_vec())
        },
        Err(_) => None,
    }
}

pub uninterp spec fn hmac_sha512(key: Seq<u8>, data: Seq<u8>) -> Seq<u8>;

/// HMAC-SHA-512 of `data` under `key`: `Mac::new_from_slice` on
/// `hmac::Hmac<sha2::Sha512>`, `update` and `finalize`. The contract claims that
/// any key length is accepted (the source builds the key block from any
/// slice), the MAC's length, 64 bytes, and that it is a function of the
/// key and the data (`hmac_sha512`).
#[verifier::external_body]
fn hmac_sha512_of(key: &[u8], data: &[u8]) -> (r: Option<Vec<u8>>)
    ensures
        r is Some,
        r matches Some(v) ==> v@ == hmac_sha512(key@, data@) && v@.len() == 64,
{
    match <hmac::Hmac<sha2::Sha512> as Mac>::new_from_slice(key) {
        Ok(mut mac) => {
            mac.update(data);
            Some(mac.finalize().into_bytes().to_vec())
        },
        Err(_) => None,
    }
}

pub uninterp spec fn gcm128_sealed(key: Seq<u8>, iv: Seq<u8>, aad: Seq<u8>, data: Seq<u8>) -> Option<Seq<u8>>;

/// AES-128-GCM encryption with a 96-bit nonce: `KeyInit::new_from_slice` on
/// `aes_gcm::Aes128Gcm`, then `Aead::encrypt` with `aad`. The contract claims only that the
/// result is a function of key, IV, AAD and input (`gcm128_sealed`): the ciphertext with the tag appended.
#[verifier::external_body]
fn aes128_gcm_encrypt(key: &[u8], iv: &[u8], aad: &[u8], data: &[u8]) -> (r: Option<Vec<u8>>)
    requires
        key@.len() == 16,
        iv@.len() == 12,
    ensures
        match r { Some(v) => gcm128_sealed(key@, iv@, aad@, data@) == Some(v@), None => gcm128_sealed(key@, iv@, aad@, data@) is None },
{
    let cipher = match <aes_gcm::Aes128Gcm as aes_gcm::KeyInit>::new_from_slice(key) {
        Ok(c) => c,
        Err(_) => return None,
    };
    cipher.encrypt(aes_gcm::Nonce::from_slice(iv), Payload { msg: data, aad }).ok()
}

pub uninterp spec fn gcm128_opened(key: Seq<u8>, iv: Seq<u8>, aad: Seq<u8>, data: Seq<u8>) -> Option<Seq<u8>>;

/// AES-128-GCM decryption with a 96-bit nonce: `KeyInit::new_from_slice` on
/// `aes_gcm::Aes128Gcm`, then `Aead::decrypt` with `aad`. The contract claims only that the
/// result is a function of key, IV, AAD and input (`gcm128_opened`): the plaintext, none when the tag does not match.
#[verifier::external_body]
fn aes128_gcm_decrypt(key: &[u8], iv: &[u8], aad: &[u8], data: &[u8]) -> (r: Option<Vec<u8>>)
    requires
        key@.len() == 16,
        iv@.len() == 12,
    ensures
        match r { Some(v) => gcm128_opened(key@, iv@, aad@, data@) == Some(v@), None => gcm128_opened(key@, iv@, aad@, data@) is None },
{
    let cipher = match <aes_gcm::Aes128Gcm as aes_gcm::KeyInit>::new_from_slice(key) {
        Ok(c) => c,
        Err(_) => return None,
    };
    cipher.decrypt(aes_gcm::Nonce::from_slice(iv), Payload { msg: data, aad }).ok()
}

pub uninterp spec fn gcm192_sealed(key: Seq<u8>, iv: Seq<u8>, aad: Seq<u8>, data: Seq<u8>) -> Option<Seq<u8>>;

/// AES-192-GCM encryption with a 96-bit nonce: `KeyInit::new_from_slice` on
/// `aes_gcm::AesGcm<aes::Aes192, aes_gcm::aead::consts::U12>`, then `Aead::encrypt` with `aad`. The contract claims only that the
/// result is a function of key, IV, AAD and input (`gcm192_sealed`): the ciphertext with the tag appended.
#[verifier::external_body]
fn aes192_gcm_encrypt(key: &[u8], iv: &[u8], aad: &[u8], data: &[u8]) -> (r: Option<Vec<u8>>)
    requires
        key@.len() == 24,
        iv@.len() == 12,
    ensures
        match r { Some(v) => gcm192_sealed(key@, iv@, aad@, data@) == Some(v@), None => gcm192_sealed(key@, iv@, aad@, data@) is None },
{
    let cipher = match <aes_gcm::AesGcm<aes::Aes192, aes_gcm::aead::consts::U12> as aes_gcm::KeyInit>::new_from_slice(key) {
        Ok(c) => c,
        Err(_) => return None,
    };
    cipher.encrypt(aes_gcm::Nonce::from_slice(iv), Payload { msg: data, aad }).ok()
}

pub uninterp spec fn gcm192_opened(key: Seq<u8>, iv: Seq<u8>, aad: Seq<u8>, data: Seq<u8>) -> Option<Seq<u8>>;

/// AES-192-GCM decryption with a 96-bit nonce: `KeyInit::new_from_slice` on
/// `aes_gcm::AesGcm<aes::Aes192, aes_gcm::aead::consts::U12>`, then `Aead::decrypt` with `aad`. The contract claims only that the
/// result is a function of key, IV, AAD and input (`gcm192_opened`): the plaintext, none when the tag does not match.
#[verifier::external_body]
fn aes192_gcm_decrypt(key: &[u8], iv: &[u8], aad: &[u8], data: &[u8]) -> (r: Option<Vec<u8>>)
    requires
        key@.len() == 24,
        iv@.len() == 12,
    ensures
        match r { Some(v) => gcm192_opened(key@, iv@, aad@, data@) == Some(v@), None => gcm192_opened(key@, iv@, aad@, data@) is None },
{
    let cipher = match <aes_gcm::AesGcm<aes::Aes192, aes_gcm::aead::consts::U12> as aes_gcm::KeyInit>::new_from_slice(key) {
        Ok(c) => c,
        Err(_) => return None,
    };
    cipher.decrypt(aes_gcm::Nonce::from_slice(iv), Payload { msg: data, aad }).ok()
}

pub uninterp spec fn gcm256_sealed(key: Seq<u8>, iv: Seq<u8>, aad: Seq<u8>, data: Seq<u8>) -> Option<Seq<u8>>;

/// AES-256-GCM encryption with a 96-bit nonce: `KeyInit::new_from_slice` on
/// `aes_gcm::Aes256Gcm`, then `Aead::encrypt` with `aad`. The contract claims only that the
/// result is a function of key, IV, AAD and input (`gcm256_sealed`): the ciphertext with the tag appended.
#[verifier::external_body]
fn aes256_gcm_encrypt(key: &[u8], iv: &[u8], aad: &[u8], data: &[u8]) -> (r: Option<Vec<u8>>)
    requires
        key@.len() == 32,
        iv@.len() == 12,
    ensures
        match r { Some(v) => gcm256_sealed(key@, iv@, aad@, data@) == Some(v@), None => gcm256_sealed(key@, iv@, aad@, data@) is None },
{
    let cipher = match <aes_gcm::Aes256Gcm as aes_gcm::KeyInit>::new_from_slice(key) {
        Ok(c) => c,
        Err(_) => return None,
    };
    cipher.encrypt(aes_gcm::Nonce::from_slice(iv), Payload { msg: data, aad }).ok()
}

pub uninterp spec fn gcm256_opened(key: Seq<u8>, iv: Seq<u8>, aad: Seq<u8>, data: Seq<u8>) -> Option<Seq<u8>>;

/// AES-256-GCM decryption with a 96-bit nonce: `KeyInit::new_from_slice` on
/// `aes_gcm::Aes256Gcm`, then `Aead::decrypt` with `aad`. The contract claims only that the
/// result is a function of key, IV, AAD and input (`gcm256_opened`): the plaintext, none when the tag does not match.
#[verifier::external_body]
fn aes256_gcm_decrypt(key: &[u8], iv: &[u8], aad: &[u8], data: &[u8]) -> (r: Option<Vec<u8>>)
    requires
        key@.len() == 32,
        iv@.len() == 12,
    ensures
        match r { Some(v) => gcm256_opened(key@, iv@, aad@, data@) == Some(v@), None => gcm256_opened(key@, iv@, aad@, data@) is None },
{
    let cipher = match <aes_gcm::Aes256Gcm as aes_gcm::KeyInit>::new_from_slice(key) {
        Ok(c) => c,
        Err(_) => return None,
    };
    cipher.decrypt(aes_gcm::Nonce::from_slice(iv), Payload { msg: data, aad }).ok()
}

pub uninterp spec fn cbc128_sealed(key: Seq<u8>, iv: Seq<u8>, data: Seq<u8>) -> Seq<u8>;

/// AES-128-CBC encryption with PKCS#7 padding: `KeyIvInit::new_from_slices` on
/// `cbc::Encryptor<aes::Aes128>` and `encrypt_padded_vec_mut`, which cannot fail
/// once key and IV have their sizes. The contract claims only that the
/// ciphertext is a function of key, IV and input (`cbc128_sealed`).
#[verifier::external_body]
fn aes128_cbc_encrypt(key: &[u8], iv: &[u8], data: &[u8]) -> (r: Option<Vec<u8>>)
    requires
        key@.len() == 16,
        iv@.len() == 16,
    ensures
        r is Some,
        r matches Some(v) ==> v@ == cbc128_sealed(key@, iv@, data@),
{
    match cbc::Encryptor::<aes::Aes128>::new_from_slices(key, iv) {
        Ok(c) => Some(c.encrypt_padded_vec_mut::<Pkcs7>(data)),
        Err(_) => None,
    }
}

pub uninterp spec fn cbc128_opened(key: Seq<u8>, iv: Seq<u8>, data: Seq<u8>) -> Option<Seq<u8>>;

/// AES-128-CBC decryption with PKCS#7 padding: `KeyIvInit::new_from_slices` on
/// `cbc::Decryptor<aes::Aes128>` and `decrypt_padded_vec_mut`. The contract claims
/// only that the result is a function of key, IV and input (`cbc128_opened`):
/// the plaintext, none when the padding is malformed.
#[verifier::external_body]
fn aes128_cbc_decrypt(key: &[u8], iv: &[u8], data: &[u8]) -> (r: Option<Vec<u8>>)
    requires
        key@.len() == 16,
        iv@.len() == 16,
    ensures
        match r { Some(v) => cbc128_opened(key@, iv@, data@) == Some(v@), None => cbc128_opened(key@, iv@, data@) is None },
{
    match cbc::Decryptor::<aes::Aes128>::new_from_slices(key, iv) {
        Ok(c) => c.decrypt_padded_vec_mut::<Pkcs7>(data).ok(),
        Err(_) => None,
    }
}

pub uninterp spec fn cbc192_sealed(key: Seq<u8>, iv: Seq<u8>, data: Seq<u8>) -> Seq<u8>;

/// AES-192-CBC encryption with PKCS#7 padding: `KeyIvInit::new_from_slices` on
/// `cbc::Encryptor<aes::Aes192>` and `encrypt_padded_vec_mut`, which cannot fail
/// once key and IV have their sizes. The contract claims only that the
/// ciphertext is a function of key, IV and input (`cbc192_sealed`).
#[verifier::external_body]
fn aes192_cbc_encrypt(key: &[u8], iv: &[u8], data: &[u8]) -> (r: Option<Vec<u8>>)
    requires
        key@.len() == 24,
        iv@.len() == 16,
    ensures
        r is Some,
        r matches Some(v) ==> v@ == cbc192_sealed(key@, iv@, data@),
{
    match cbc::Encryptor::<aes::Aes192>::new_from_slices(key, iv) {
        Ok(c) => Some(c.encrypt_padded_vec_mut::<Pkcs7>(data)),
        Err(_) => None,
    }
}

pub uninterp spec fn cbc192_opened(key: Seq<u8>, iv: Seq<u8>, data: Seq<u8>) -> Option<Seq<u8>>;

/// AES-192-CBC decryption with PKCS#7 padding: `KeyIvInit::new_from_slices` on
/// `cbc::Decryptor<aes::Aes192>` and `decrypt_padded_vec_mut`. The contract claims
/// only that the result is a function of key, IV and input (`cbc192_opened`):
/// the plaintext, none when the padding is malformed.
#[verifier::external_body]
fn aes192_cbc_decrypt(key: &[u8], iv: &[u8], data: &[u8]) -> (r: Option<Vec<u8>>)
    requires
        key@.len() == 24,
        iv@.len() == 16,
    ensures
        match r { Some(v) => cbc192_opened(key@, iv@, data@) == Some(v@), None => cbc192_opened(key@, iv@, data@) is None },
{
    match cbc::Decryptor::<aes::Aes192>::new_from_slices(key, iv) {
        Ok(c) => c.decrypt_padded_vec_mut::<Pkcs7>(data).ok(),
        Err(_) => None,
    }
}

pub uninterp spec fn cbc256_sealed(key: Seq<u8>, iv: Seq<u8>, data: Seq<u8>) -> Seq<u8>;

/// AES-256-CBC encryption with PKCS#7 padding: `KeyIvInit::new_from_slices` on
/// `cbc::Encryptor<aes::Aes256>` and `encrypt_padded_vec_mut`, which cannot fail
/// once key and IV have their sizes. The contract claims only that the
/// ciphertext is a function of key, IV and input (`cbc256_sealed`).
#[verifier::external_body]
fn aes256_cbc_encrypt(key: &[u8], iv: &[u8], data: &[u8]) -> (r: Option<Vec<u8>>)
    requires
        key@.len() == 32,
        iv@.len() == 16,
    ensures
        r is Some,
        r matches Some(v) ==> v@ == cbc256_sealed(key@, iv@, data@),
{
    match cbc::Encryptor::<aes::Aes256>::new_from_slices(key, iv) {
        Ok(c) => Some(c.encrypt_padded_vec_mut::<Pkcs7>(data)),
        Err(_) => None,
    }
}

pub uninterp spec fn cbc256_opened(key: Seq<u8>, iv: Seq<u8>, data: Seq<u8>) -> Option<Seq<u8>>;

/// AES-256-CBC decryption with PKCS#7 padding: `KeyIvInit::new_from_slices` on
/// `cbc::Decryptor<aes::Aes256>` and `decrypt_padded_vec_mut`. The contract claims
/// only that the result is a function of key, IV and input (`cbc256_opened`):
/// the plaintext, none when the padding is malformed.
#[verifier::external_body]
fn aes256_cbc_decrypt(key: &[u8], iv: &[u8], data: &[u8]) -> (r: Option<Vec<u8>>)
    requires
        key@.len() == 32,
        iv@.len() == 16,
    ensures
        match r { Some(v) => cbc256_opened(key@, iv@, data@) == Some(v@), None => cbc256_opened(key@, iv@, data@) is None },
{
    match cbc::Decryptor::<aes::Aes256>::new_from_slices(key, iv) {
        Ok(c) => c.decrypt_padded_vec_mut::<Pkcs7>(data).ok(),
        Err(_) => None,
    }
}

pub uninterp spec fn ctr128_aes128_applied(key: Seq<u8>, counter: Seq<u8>, data: Seq<u8>) -> Seq<u8>;

/// AES-128-CTR with a 128-bit big-endian counter: `KeyIvInit::new_from_slices`
/// on `ctr::Ctr128BE<aes::Aes128>` and `StreamCipher::apply_keystream` over a
/// copy of `data`. The contract claims the output's length and that it is
/// a function of key, counter block and input (`ctr128_aes128_applied`).
/// The `ctr` crate starts its block counter at 0 and adds the counter
/// block's low 128 bits to it with wrapping, so the keystream's room does not
/// depend on the counter block: `remaining` is `u128::MAX` minus the blocks
/// used; `u128::MAX - 0` does not fit in `usize`, so no limit is checked. The call does not panic on any input here.
#[verifier::external_body]
fn ctr128_aes128(key: &[u8], counter: &[u8], data: &[u8]) -> (r: Vec<u8>)
    requires
        key@.len() == 16,
        counter@.len() == 16,
    ensures
        r@ == ctr128_aes128_applied(key@, counter@, data@),
        r@.len() == data@.len(),
{
    let mut buf = data.to_vec();
    if let Ok(mut c) = ctr::Ctr128BE::<aes::Aes128>::new_from_slices(key, counter) {
        c.apply_keystream(&mut buf);
    }
    buf
}

pub uninterp spec fn ctr128_aes192_applied(key: Seq<u8>, counter: Seq<u8>, data: Seq<u8>) -> Seq<u8>;

/// AES-192-CTR with a 128-bit big-endian counter: `KeyIvInit::new_from_slices`
/// on `ctr::Ctr128BE<aes::Aes192>` and `StreamCipher::apply_keystream` over a
/// copy of `data`. The contract claims the output's length and that it is
/// a function of key, counter block and input (`ctr128_aes192_applied`).
/// The `ctr` crate starts its block counter at 0 and adds the counter
/// block's low 128 bits to it with wrapping, so the keystream's room does not
/// depend on the counter block: `remaining` is `u128::MAX` minus the blocks
/// used; `u128::MAX - 0` does not fit in `usize`, so no limit is checked. The call does not panic on any input here.
#[verifier::external_body]
fn ctr128_aes192(key: &[u8], counter: &[u8], data: &[u8]) -> (r: Vec<u8>)
    requires
        key@.len() == 24,
        counter@.len() == 16,
    ensures
        r@ == ctr128_aes192_applied(key@, counter@, data@),
        r@.len() == data@.len(),
{
    let mut buf = data.to_vec();
    if let Ok(mut c) = ctr::Ctr128BE::<aes::Aes192>::new_from_slices(key, counter) {
        c.apply_keystream(&mut buf);
    }
    buf
}

pub uninterp spec fn ctr128_aes256_applied(key: Seq<u8>, counter: Seq<u8>, data: Seq<u8>) -> Seq<u8>;

/// AES-256-CTR with a 128-bit big-endian counter: `KeyIvInit::new_from_slices`
/// on `ctr::Ctr128BE<aes::Aes256>` and `StreamCipher::apply_keystream` over a
/// copy of `data`. The contract claims the output's length and that it is
/// a function of key, counter block and input (`ctr128_aes256_applied`).
/// The `ctr` crate starts its block counter at 0 and adds the counter
/// block's low 128 bits to it with wrapping, so the keystream's room does not
/// depend on the counter block: `remaining` is `u128::MAX` minus the blocks
/// used; `u128::MAX - 0` does not fit in `usize`, so no limit is checked. The call does not panic on any input here.
#[verifier::external_body]
fn ctr128_aes256(key: &[u8], counter: &[u8], data: &[u8]) -> (r: Vec<u8>)
    requires
        key@.len() == 32,
        counter@.len() == 16,
    ensures
        r@ == ctr128_aes256_applied(key@, counter@, data@),
        r@.len() == data@.len(),
{
    let mut buf = data.to_vec();
    if let Ok(mut c) = ctr::Ctr128BE::<aes::Aes256>::new_from_slices(key, counter) {
        c.apply_keystream(&mut buf);
    }
    buf
}

pub uninterp spec fn ctr64_aes128_applied(key: Seq<u8>, counter: Seq<u8>, data: Seq<u8>) -> Seq<u8>;

/// AES-128-CTR with a 64-bit big-endian counter: `KeyIvInit::new_from_slices`
/// on `ctr::Ctr64BE<aes::Aes128>` and `StreamCipher::apply_keystream` over a
/// copy of `data`. The contract claims the output's length and that it is
/// a function of key, counter block and input (`ctr64_aes128_applied`).
/// The `ctr` crate starts its block counter at 0 and adds the counter
/// block's low 64 bits to it with wrapping, so the keystream's room does not
/// depend on the counter block: `remaining` is `u64::MAX` minus the blocks
/// used; that is `u64::MAX` blocks, more than any slice holds (and on a 32-bit target it does not fit in `usize`, so no limit is checked). The call does not panic on any input here.
#[verifier::external_body]
fn ctr64_aes128(key: &[u8], counter: &[u8], data: &[u8]) -> (r: Vec<u8>)
    requires
        key@.len() == 16,
        counter@.len() == 16,
    ensures
        r@ == ctr64_aes128_applied(key@, counter@, data@),
        r@.len() == data@.len(),
{
    let mut buf = data.to_vec();
    if let Ok(mut c) = ctr::Ctr64BE::<aes::Aes128>::new_from_slices(key, counter) {
        c.apply_keystream(&mut buf);
    }
    buf
}

pub uninterp spec fn ctr64_aes192_applied(key: Seq<u8>, counter: Seq<u8>, data: Seq<u8>) -> Seq<u8>;

/// AES-192-CTR with a 64-bit big-endian counter: `KeyIvInit::new_from_slices`
/// on `ctr::Ctr64BE<aes::Aes192>` and `StreamCipher::apply_keystream` over a
/// copy of `data`. The contract claims the output's length and that it is
/// a function of key, counter block and input (`ctr64_aes192_applied`).
/// The `ctr` crate starts its block counter at 0 and adds the counter
/// block's low 64 bits to it with wrapping, so the keystream's room does not
/// depend on the counter block: `remaining` is `u64::MAX` minus the blocks
/// used; that is `u64::MAX` blocks, more than any slice holds (and on a 32-bit target it does not fit in `usize`, so no limit is checked). The call does not panic on any input here.
#[verifier::external_body]
fn ctr64_aes192(key: &[u8], counter: &[u8], data: &[u8]) -> (r: Vec<u8>)
    requires
        key@.len() == 24,
        counter@.len() == 16,
    ensures
        r@ == ctr64_aes192_applied(key@, counter@, data@),
        r@.len() == data@.len(),
{
    let mut buf = data.to_vec();
    if let Ok(mut c) = ctr::Ctr64BE::<aes::Aes192>::new_from_slices(key, counter) {
        c.apply_keystream(&mut buf);
    }
    buf
}

pub uninterp spec fn ctr64_aes256_applied(key: Seq<u8>, counter: Seq<u8>, data: Seq<u8>) -> Seq<u8>;

/// AES-256-CTR with a 64-bit big-endian counter: `KeyIvInit::new_from_slices`
/// on `ctr::Ctr64BE<aes::Aes256>` and `StreamCipher::apply_keystream` over a
/// copy of `data`. The contract claims the output's length and that it is
/// a function of key, counter block and input (`ctr64_aes256_applied`).
/// The `ctr` crate starts its block counter at 0 and adds the counter
/// block's low 64 bits to it with wrapping, so the keystream's room does not
/// depend on the counter block: `remaining` is `u64::MAX` minus the blocks
/// used; that is `u64::MAX` blocks, more than any slice holds (and on a 32-bit target it does not fit in `usize`, so no limit is checked). The call does not panic on any input here.
#[verifier::external_body]
fn ctr64_aes256(key: &[u8], counter: &[u8], data: &[u8]) -> (r: Vec<u8>)
    requires
        key@.len() == 32,
        counter@.len() == 16,
    ensures
        r@ == ctr64_aes256_applied(key@, counter@, data@),
        r@.len() == data@.len(),
{
    let mut buf = data.to_vec();
    if let Ok(mut c) = ctr::Ctr64BE::<aes::Aes256>::new_from_slices(key, counter) {
        c.apply_keystream(&mut buf);
    }
    buf
}

pub uninterp spec fn ctr32_aes128_applied(key: Seq<u8>, counter: Seq<u8>, data: Seq<u8>) -> Seq<u8>;

/// AES-128-CTR with a 32-bit big-endian counter: `KeyIvInit::new_from_slices`
/// on `ctr::Ctr32BE<aes::Aes128>` and `StreamCipher::apply_keystream` over a
/// copy of `data`. The contract claims the output's length and that it is
/// a function of key, counter block and input (`ctr32_aes128_applied`).
/// The `ctr` crate starts its block counter at 0 and adds the counter
/// block's low 32 bits to it with wrapping, so the keystream's room does not
/// depend on the counter block: `remaining` is `u32::MAX` blocks, and
/// `apply_keystream` panics only when the input needs more, past
/// 68719476720 bytes; `requires` keeps the input within that.
#[verifier::external_body]
fn ctr32_aes128(key: &[u8], counter: &[u8], data: &[u8]) -> (r: Vec<u8>)
    requires
        key@.len() == 16,
        counter@.len() == 16,
        data@.len() <= 68719476720,
    ensures
        r@ == ctr32_aes128_applied(key@, counter@, data@),
        r@.len() == data@.len(),
{
    let mut buf = data.to_vec();
    if let Ok(mut c) = ctr::Ctr32BE::<aes::Aes128>::new_from_slices(key, counter) {
        c.apply_keystream(&mut buf);
    }
    buf
}

pub uninterp spec fn ctr32_aes192_applied(key: Seq<u8>, counter: Seq<u8>, data: Seq<u8>) -> Seq<u8>;

/// AES-192-CTR with a 32-bit big-endian counter: `KeyIvInit::new_from_slices`
/// on `ctr::Ctr32BE<aes::Aes192>` and `StreamCipher::apply_keystream` over a
/// copy of `data`. The contract claims the output's length and that it is
/// a function of key, counter block and input (`ctr32_aes192_applied`).
/// The `ctr` crate starts its block counter at 0 and adds the counter
/// block's low 32 bits to it with wrapping, so the keystream's room does not
/// depend on the counter block: `remaining` is `u32::MAX` blocks, and
/// `apply_keystream` panics only when the input needs more, past
/// 68719476720 bytes; `requires` keeps the input within that.
#[verifier::external_body]
fn ctr32_aes192(key: &[u8], counter: &[u8], data: &[u8]) -> (r: Vec<u8>)
    requires
        key@.len() == 24,
        counter@.len() == 16,
        data@.len() <= 68719476720,
    ensures
        r@ == ctr32_aes192_applied(key@, counter@, data@),
        r@.len() == data@.len(),
{
    let mut buf = data.to_vec();
    if let Ok(mut c) = ctr::Ctr32BE::<aes::Aes192>::new_from_slices(key, counter) {
        c.apply_keystream(&mut buf);
    }
    buf
}

pub uninterp spec fn ctr32_aes256_applied(key: Seq<u8>, counter: Seq<u8>, data: Seq<u8>) -> Seq<u8>;

/// AES-256-CTR with a 32-bit big-endian counter: `KeyIvInit::new_from_slices`
/// on `ctr::Ctr32BE<aes::Aes256>` and `StreamCipher::apply_keystream` over a
/// copy of `data`. The contract claims the output's length and that it is
/// a function of key, counter block and input (`ctr32_aes256_applied`).
/// The `ctr` crate starts its block counter at 0 and adds the counter
/// block's low 32 bits to it with wrapping, so the keystream's room does not
/// depend on the counter block: `remaining` is `u32::MAX` blocks, and
/// `apply_keystream` panics only when the input needs more, past
/// 68719476720 bytes; `requires` keeps the input within that.
#[verifier::external_body]
fn ctr32_aes256(key: &[u8], counter: &[u8], data: &[u8]) -> (r: Vec<u8>)
    requires
        key@.len() == 32,
        counter@.len() == 16,
        data@.len() <= 68719476720,
    ensures
        r@ == ctr32_aes256_applied(key@, counter@, data@),
        r@.len() == data@.len(),
{
    let mut buf = data.to_vec();
    if let Ok(mut c) = ctr::Ctr32BE::<aes::Aes256>::new_from_slices(key, counter) {
        c.apply_keystream(&mut buf);
    }
    buf
}

pub uninterp spec fn pbkdf2_sha1(password: Seq<u8>, salt: Seq<u8>, iterations: u32, length: u32) -> Seq<u8>;

/// PBKDF2-HMAC-SHA-1: `pbkdf2::pbkdf2_hmac::<sha1::Sha1>` into `length` zero bytes.
/// The contract claims the output's length and that it is a function of
/// password, salt, iteration count and length (`pbkdf2_sha1`).
#[verifier::external_body]
fn pbkdf2_sha1_of(password: &[u8], salt: &[u8], iterations: u32, length: u32) -> (r: Vec<u8>)
    ensures
        r@ == pbkdf2_sha1(password@, salt@, iterations, length),
        r@.len() == length,
{
    let mut dk = vec![0u8; length as usize];
    pbkdf2::pbkdf2_hmac::<sha1::Sha1>(password, salt, iterations, &mut dk);
    dk
}

pub uninterp spec fn pbkdf2_sha256(password: Seq<u8>, salt: Seq<u8>, iterations: u32, length: u32) -> Seq<u8>;

/// PBKDF2-HMAC-SHA-256: `pbkdf2::pbkdf2_hmac::<sha2::Sha256>` into `length` zero bytes.
/// The contract claims the output's length and that it is a function of
/// password, salt, iteration count and length (`pbkdf2_sha256`).
#[verifier::external_body]
fn pbkdf2_sha256_of(password: &[u8], salt: &[u8], iterations: u32, length: u32) -> (r: Vec<u8>)
    ensures
        r@ == pbkdf2_sha256(password@, salt@, iterations, length),
        r@.len() == length,
{
    let mut dk = vec![0u8; length as usize];
    pbkdf2::pbkdf2_hmac::<sha2::Sha256>(password, salt, iterations, &mut dk);
    dk
}

pub uninterp spec fn pbkdf2_sha384(password: Seq<u8>, salt: Seq<u8>, iterations: u32, length: u32) -> Seq<u8>;

/// PBKDF2-HMAC-SHA-384: `pbkdf2::pbkdf2_hmac::<sha2::Sha384>` into `length` zero bytes.
/// The contract claims the output's length and that it is a function of
/// password, salt, iteration count and length (`pbkdf2_sha384`).
#[verifier::external_body]
fn pbkdf2_sha384_of(password: &[u8], salt: &[u8], iterations: u32, length: u32) -> (r: Vec<u8>)
    ensures
        r@ == pbkdf2_sha384(password@, salt@, iterations, length),
        r@.len() == length,
{
    let mut dk = vec![0u8; length as usize];
    pbkdf2::pbkdf2_hmac::<sha2::Sha384>(password, salt, iterations, &mut dk);
    dk
}

pub uninterp spec fn pbkdf2_sha512(password: Seq<u8>, salt: Seq<u8>, iterations: u32, length: u32) -> Seq<u8>;

/// PBKDF2-HMAC-SHA-512: `pbkdf2::pbkdf2_hmac::<sha2::Sha512>` into `length` zero bytes.
/// The contract claims the output's length and that it is a function of
/// password, salt, iteration count and length (`pbkdf2_sha512`).
#[verifier::external_body]
fn pbkdf2_sha512_of(password: &[u8], salt: &[u8], iterations: u32, length: u32) -> (r: Vec<u8>)
    ensures
        r@ == pbkdf2_sha512(password@, salt@, iterations, length),
        r@.len() == length,
{
    let mut dk = vec![0u8; length as usize];
    pbkdf2::pbkdf2_hmac::<sha2::Sha512>(password, salt, iterations, &mut dk);
    dk
}

pub uninterp spec fn hkdf_sha1(ikm: Seq<u8>, salt: Seq<u8>, info: Seq<u8>, length: u32) -> Seq<u8>;

/// HKDF-SHA-1: `hkdf::Hkdf::<sha1::Sha1>::new(Some(salt), ikm)` and `expand` into
/// `length` bytes. The contract claims what the source checks, that the
/// expansion fails exactly when `length` passes 255 blocks of 20 bytes,
/// the output's length, and that it is a function of the inputs (`hkdf_sha1`).
#[verifier::external_body]
fn hkdf_sha1_of(ikm: &[u8], salt: &[u8], info: &[u8], length: u32) -> (r: Option<Vec<u8>>)
    ensures
        r is None <==> length > 255 * 20,
        r matches Some(v) ==> v@ == hkdf_sha1(ikm@, salt@, info@, length) && v@.len() == length,
{
    let mut okm = vec![0u8; length as usize];
    match hkdf::Hkdf::<sha1::Sha1>::new(Some(salt), ikm).expand(info, &mut okm) {
        Ok(()) => Some(okm),
        Err(_) => None,
    }
}

pub uninterp spec fn hkdf_sha256(ikm: Seq<u8>, salt: Seq<u8>, info: Seq<u8>, length: u32) -> Seq<u8>;

/// HKDF-SHA-256: `hkdf::Hkdf::<sha2::Sha256>::new(Some(salt), ikm)` and `expand` into
/// `length` bytes. The contract claims what the source checks, that the
/// expansion fails exactly when `length` passes 255 blocks of 32 bytes,
/// the output's length, and that it is a function of the inputs (`hkdf_sha256`).
#[verifier::external_body]
fn hkdf_sha256_of(ikm: &[u8], salt: &[u8], info: &[u8], length: u32) -> (r: Option<Vec<u8>>)
    ensures
        r is None <==> length > 255 * 32,
        r matches Some(v) ==> v@ == hkdf_sha256(ikm@, salt@, info@, length) && v@.len() == length,
{
    let mut okm = vec![0u8; length as usize];
    match hkdf::Hkdf::<sha2::Sha256>::new(Some(salt), ikm).expand(info, &mut okm) {
        Ok(()) => Some(okm),
        Err(_) => None,
    }
}

pub uninterp spec fn hkdf_sha384(ikm: Seq<u8>, salt: Seq<u8>, info: Seq<u8>, length: u32) -> Seq<u8>;

/// HKDF-SHA-384: `hkdf::Hkdf::<sha2::Sha384>::new(Some(salt), ikm)` and `expand` into
/// `length` bytes. The contract claims what the source checks, that the
/// expansion fails exactly when `length` passes 255 blocks of 48 bytes,
/// the output's length, and that it is a function of the inputs (`hkdf_sha384`).
#[verifier::external_body]
fn hkdf_sha384_of(ikm: &[u8], salt: &[u8], info: &[u8], length: u32) -> (r: Option<Vec<u8>>)
    ensures
        r is None <==> length > 255 * 48,
        r matches Some(v) ==> v@ == hkdf_sha384(ikm@, salt@, info@, length) && v@.len() == length,
{
    let mut okm = vec![0u8; length as usize];
    match hkdf::Hkdf::<sha2::Sha384>::new(Some(salt), ikm).expand(info, &mut okm) {
        Ok(()) => Some(okm),
        Err(_) => None,
    }
}

pub uninterp spec fn hkdf_sha512(ikm: Seq<u8>, salt: Seq<u8>, info: Seq<u8>, length: u32) -> Seq<u8>;

/// HKDF-SHA-512: `hkdf::Hkdf::<sha2::Sha512>::new(Some(salt), ikm)` and `expand` into
/// `length` bytes. The contract claims what the source checks, that the
/// expansion fails exactly when `length` passes 255 blocks of 64 bytes,
/// the output's length, and that it is a function of the inputs (`hkdf_sha512`).
#[verifier::external_body]
fn hkdf_sha512_of(ikm: &[u8], salt: &[u8], info: &[u8], length: u32) -> (r: Option<Vec<u8>>)
    ensures
        r is None <==> length > 255 * 64,
        r matches Some(v) ==> v@ == hkdf_sha512(ikm@, salt@, info@, length) && v@.len() == length,
{
    let mut okm = vec![0u8; length as usize];
    match hkdf::Hkdf::<sha2::Sha512>::new(Some(salt), ikm).expand(info, &mut okm) {
        Ok(()) => Some(okm),
        Err(_) => None,
    }
}

pub uninterp spec fn zlib_deflated(data: Seq<u8>) -> Option<Seq<u8>>;

/// zlib compression at the default level: `flate2::write::ZlibEncoder::new`
/// over an empty `Vec`, `write_all` and `finish`. The contract claims only
/// that the result is a function of `data` (`zlib_deflated`); none stands
/// for a write or finish error.
#[verifier::external_body]
fn zlib_deflate_of(data: &[u8]) -> (r: Option<Vec<u8>>)
    ensures
        match r { Some(v) => zlib_deflated(data@) == Some(v@), None => zlib_deflated(data@) is None },
{
    let mut encoder = flate2::write::ZlibEncoder::new(Vec::new(), flate2::Compression::default());
    if encoder.write_all(data).is_err() {
        return None;
    }
    encoder.finish().ok()
}

/// `len` bytes from the operating system's random source, by
/// `getrandom::getrandom` into a zeroed buffer. The contract claims only the
/// length of what it returns; on failure the error's text is passed on.
#[verifier::external_body]
fn os_random_bytes(len: u32) -> (r: Result<Vec<u8>, String>)
    ensures
        r matches Ok(v) ==> v@.len() == len,
{
    let mut buf = vec![0u8; len as usize];
    match getrandom::getrandom(&mut buf) {
        Ok(()) => Ok(buf),
        Err(e) => Err(e.to_string()),
    }
}

/// Why a WebCrypto operation was refused.
#[derive(Debug, PartialEq, Eq)]
pub enum CryptoError {
    UnsupportedHmacHash,
    GcmIvLength,
    GcmKeyLength,
    GcmEncryptFailed,
    GcmTagMismatch,
    CbcIvLength,
    CbcKeyLength,
    CbcBadPadding,
    CtrCounterLength,
    CtrKeyLength,
    CtrCounterWidth,
    UnsupportedPbkdf2Hash,
    UnsupportedHkdfHash,
    HkdfLengthTooLong,
    RandomFailed(String),
}

impl CryptoError {
    /// The message the script side turns into a `DOMException`.
    pub fn message(&self) -> (r: String)
        ensures
            r@ == match self {
                CryptoError::UnsupportedHmacHash => "unsupported HMAC hash"@,
                CryptoError::GcmIvLength => "AES-GCM requires a 96-bit (12-byte) IV"@,
                CryptoError::GcmKeyLength => "AES-GCM key must be 128, 192, or 256 bits"@,
                CryptoError::GcmEncryptFailed => "AES-GCM encryption failed"@,
                CryptoError::GcmTagMismatch => "AES-GCM decryption failed: authentication tag mismatch"@,
                CryptoError::CbcIvLength => "AES-CBC requires a 16-byte IV"@,
                CryptoError::CbcKeyLength => "AES-CBC key must be 128, 192, or 256 bits"@,
                CryptoError::CbcBadPadding => "AES-CBC decryption failed: invalid padding"@,
                CryptoError::CtrCounterLength => "AES-CTR requires a 16-byte counter block"@,
                CryptoError::CtrKeyLength => "AES-CTR key must be 128, 192, or 256 bits"@,
                CryptoError::CtrCounterWidth => "AES-CTR supports counter lengths of 32, 64, or 128 bits"@,
                CryptoError::UnsupportedPbkdf2Hash => "unsupported PBKDF2 hash"@,
                CryptoError::UnsupportedHkdfHash => "unsupported HKDF hash"@,
                CryptoError::HkdfLengthTooLong => "HKDF: requested key length is too long"@,
                CryptoError::RandomFailed(d) => "getrandom failed: "@ + d@,
            },
    {
        match self {
            CryptoError::UnsupportedHmacHash => owned("unsupported HMAC hash"),
            CryptoError::GcmIvLength => owned("AES-GCM requires a 96-bit (12-byte) IV"),
            CryptoError::GcmKeyLength => owned("AES-GCM key must be 128, 192, or 256 bits"),
            CryptoError::GcmEncryptFailed => owned("AES-GCM encryption failed"),
            CryptoError::GcmTagMismatch => owned("AES-GCM decryption failed: authentication tag mismatch"),
            CryptoError::CbcIvLength => owned("AES-CBC requires a 16-byte IV"),
            CryptoError::CbcKeyLength => owned("AES-CBC key must be 128, 192, or 256 bits"),
            CryptoError::CbcBadPadding => owned("AES-CBC decryption failed: invalid padding"),
            CryptoError::CtrCounterLength => owned("AES-CTR requires a 16-byte counter block"),
            CryptoError::CtrKeyLength => owned("AES-CTR key must be 128, 192, or 256 bits"),
            CryptoError::CtrCounterWidth => owned("AES-CTR supports counter lengths of 32, 64, or 128 bits"),
            CryptoError::UnsupportedPbkdf2Hash => owned("unsupported PBKDF2 hash"),
            CryptoError::UnsupportedHkdfHash => owned("unsupported HKDF hash"),
            CryptoError::HkdfLengthTooLong => owned("HKDF: requested key length is too long"),
            CryptoError::RandomFailed(d) => concat_str("getrandom failed: ", d.as_str()),
        }
    }
}

/// `r` is the outcome `s` describes: the same bytes, or the same error.
pub open spec fn outcome_is(r: Result<Vec<u8>, CryptoError>, s: Result<Seq<u8>, CryptoError>) -> bool {
    match (r, s) {
        (Ok(x), Ok(y)) => x@ == y,
        (Err(a), Err(b)) => a == b,
        _ => false,
    }
}

pub open spec fn ascii_upper_char(c: char) -> char {
    if 'a' <= c && c <= 'z' {
        ((c as u8) - 32) as char
    } else {
        c
    }
}

pub open spec fn ascii_upper(s: Seq<char>) -> Seq<char> {
    s.map_values(|c: char| ascii_upper_char(c))
}

/// `str::to_ascii_uppercase`.
fn ascii_uppercase(s: &str) -> (r: String)
    ensures
        r@ == ascii_upper(s@),
{
    let v = crate::strutil::chars_of(s);
    let mut out = String::new();
    let mut i: usize = 0;
    while i < v.len()
        invariant
            i <= v@.len(),
            v@ == s@,
            out@ == ascii_upper(v@.take(i as int)),
        decreases v@.len() - i,
    {
        let c = v[i];
        let u = if 'a' <= c && c <= 'z' {
            ((c as u8) - 32) as char
        } else {
            c
        };
        crate::strutil::push_char(&mut out, u);
        proof {
            assert(v@.take(i + 1) =~= v@.take(i as int).push(c));
            assert(ascii_upper(v@.take(i + 1)) =~= ascii_upper(v@.take(i as int)).push(u));
        }
        i = i + 1;
    }
    proof {
        assert(v@.take(i as int) =~= v@);
    }
    out
}

/// The digest `crypto.subtle.digest` answers for an algorithm name, in any
/// ASCII case; empty for an unknown name.
pub open spec fn digest_of(algorithm: Seq<char>, data: Seq<u8>) -> Seq<u8> {
    let a = ascii_upper(algorithm);
    if a == "SHA-1"@ {
        sha1_digest(data)
    } else if a == "SHA-256"@ {
        sha256_digest(data)
    } else if a == "SHA-384"@ {
        sha384_digest(data)
    } else if a == "SHA-512"@ {
        sha512_digest(data)
    } else if a == "SHA-512/224"@ {
        sha512_224_digest(data)
    } else if a == "SHA-512/256"@ {
        sha512_256_digest(data)
    } else {
        Seq::empty()
    }
}

/// `crypto.subtle.digest`: the raw digest bytes, empty for an unknown
/// algorithm.
pub fn op_subtle_digest(algorithm: &str, data: &[u8]) -> (r: Vec<u8>)
    ensures
        r@ == digest_of(algorithm@, data@),
{
    let upper = ascii_uppercase(algorithm);
    let a = upper.as_str();
    if str_eq(a, "SHA-1") {
        sha1_of(data)
    } else if str_eq(a, "SHA-256") {
        sha256_of(data)
    } else if str_eq(a, "SHA-384") {
        sha384_of(data)
    } else if str_eq(a, "SHA-512") {
        sha512_of(data)
    } else if str_eq(a, "SHA-512/224") {
        sha512_224_of(data)
    } else if str_eq(a, "SHA-512/256") {
        sha512_256_of(data)
    } else {
        Vec::new()
    }
}

/// Inputs larger than this are not compressed.
pub const MAX_DEFLATE_INPUT_BYTES: usize = 268435456;

/// zlib-compresses canvas scanlines; empty for an oversized input or a
/// failed compression.
pub fn op_zlib_deflate(data: &[u8]) -> (r: Vec<u8>)
    ensures
        data@.len() > MAX_DEFLATE_INPUT_BYTES ==> r@.len() == 0,
        data@.len() <= MAX_DEFLATE_INPUT_BYTES ==> r@ == match zlib_deflated(data@) {
            Some(v) => v,
            None => Seq::<u8>::empty(),
        },
{
    if data.len() > MAX_DEFLATE_INPUT_BYTES {
        return Vec::new();
    }
    match zlib_deflate_of(data) {
        Some(v) => v,
        None => Vec::new(),
    }
}

pub open spec fn hmac_outcome(hash: Seq<char>, key: Seq<u8>, data: Seq<u8>) -> Result<Seq<u8>, CryptoError> {
    if hash == "SHA-1"@ {
        Ok(hmac_sha1(key, data))
    } else if hash == "SHA-256"@ {
        Ok(hmac_sha256(key, data))
    } else if hash == "SHA-384"@ {
        Ok(hmac_sha384(key, data))
    } else if hash == "SHA-512"@ {
        Ok(hmac_sha512(key, data))
    } else {
        Err(CryptoError::UnsupportedHmacHash)
    }
}

/// HMAC sign with a normalized hash name; any key length is accepted.
pub fn op_subtle_hmac(hash: &str, key: &[u8], data: &[u8]) -> (r: Result<Vec<u8>, CryptoError>)
    ensures
        outcome_is(r, hmac_outcome(hash@, key@, data@)),
{
    let mac = if str_eq(hash, "SHA-1") {
        hmac_sha1_of(key, data)
    } else if str_eq(hash, "SHA-256") {
        hmac_sha256_of(key, data)
    } else if str_eq(hash, "SHA-384") {
        hmac_sha384_of(key, data)
    } else if str_eq(hash, "SHA-512") {
        hmac_sha512_of(key, data)
    } else {
        return Err(CryptoError::UnsupportedHmacHash);
    };
    match mac {
        Some(v) => Ok(v),
        None => Err(CryptoError::UnsupportedHmacHash),
    }
}

pub open spec fn sealed_or(o: Option<Seq<u8>>, e: CryptoError) -> Result<Seq<u8>, CryptoError> {
    match o {
        Some(v) => Ok(v),
        None => Err(e),
    }
}

pub open spec fn gcm_outcome(encrypt: bool, key: Seq<u8>, iv: Seq<u8>, aad: Seq<u8>, data: Seq<u8>) -> Result<Seq<u8>, CryptoError> {
    let e = if encrypt {
        CryptoError::GcmEncryptFailed
    } else {
        CryptoError::GcmTagMismatch
    };
    if iv.len() != 12 {
        Err(CryptoError::GcmIvLength)
    } else if key.len() == 16 {
        sealed_or(if encrypt { gcm128_sealed(key, iv, aad, data) } else { gcm128_opened(key, iv, aad, data) }, e)
    } else if key.len() == 24 {
        sealed_or(if encrypt { gcm192_sealed(key, iv, aad, data) } else { gcm192_opened(key, iv, aad, data) }, e)
    } else if key.len() == 32 {
        sealed_or(if encrypt { gcm256_sealed(key, iv, aad, data) } else { gcm256_opened(key, iv, aad, data) }, e)
    } else {
        Err(CryptoError::GcmKeyLength)
    }
}

fn bytes_or(o: Option<Vec<u8>>, e: CryptoError) -> (r: Result<Vec<u8>, CryptoError>)
    ensures
        outcome_is(r, sealed_or(match o { Some(v) => Some(v@), None => None }, e)),
{
    match o {
        Some(v) => Ok(v),
        None => Err(e),
    }
}

/// AES-GCM with a 96-bit IV and a 128-bit tag appended to the ciphertext.
pub fn op_subtle_aes_gcm(encrypt: bool, key: &[u8], iv: &[u8], aad: &[u8], data: &[u8]) -> (r: Result<Vec<u8>, CryptoError>)
    ensures
        outcome_is(r, gcm_outcome(encrypt, key@, iv@, aad@, data@)),
{
    if iv.len() != 12 {
        return Err(CryptoError::GcmIvLength);
    }
    let e = if encrypt {
        CryptoError::GcmEncryptFailed
    } else {
        CryptoError::GcmTagMismatch
    };
    let n = key.len();
    if n == 16 {
        bytes_or(if encrypt { aes128_gcm_encrypt(key, iv, aad, data) } else { aes128_gcm_decrypt(key, iv, aad, data) }, e)
    } else if n == 24 {
        bytes_or(if encrypt { aes192_gcm_encrypt(key, iv, aad, data) } else { aes192_gcm_decrypt(key, iv, aad, data) }, e)
    } else if n == 32 {
        bytes_or(if encrypt { aes256_gcm_encrypt(key, iv, aad, data) } else { aes256_gcm_decrypt(key, iv, aad, data) }, e)
    } else {
        Err(CryptoError::GcmKeyLength)
    }
}

pub open spec fn cbc_outcome(encrypt: bool, key: Seq<u8>, iv: Seq<u8>, data: Seq<u8>) -> Result<Seq<u8>, CryptoError> {
    if iv.len() != 16 {
        Err(CryptoError::CbcIvLength)
    } else if key.len() == 16 {
        if encrypt { Ok(cbc128_sealed(key, iv, data)) } else { sealed_or(cbc128_opened(key, iv, data), CryptoError::CbcBadPadding) }
    } else if key.len() == 24 {
        if encrypt { Ok(cbc192_sealed(key, iv, data)) } else { sealed_or(cbc192_opened(key, iv, data), CryptoError::CbcBadPadding) }
    } else if key.len() == 32 {
        if encrypt { Ok(cbc256_sealed(key, iv, data)) } else { sealed_or(cbc256_opened(key, iv, data), CryptoError::CbcBadPadding) }
    } else {
        Err(CryptoError::CbcKeyLength)
    }
}

/// AES-CBC with PKCS#7 padding and a 16-byte IV.
pub fn op_subtle_aes_cbc(encrypt: bool, key: &[u8], iv: &[u8], data: &[u8]) -> (r: Result<Vec<u8>, CryptoError>)
    ensures
        outcome_is(r, cbc_outcome(encrypt, key@, iv@, data@)),
{
    if iv.len() != 16 {
        return Err(CryptoError::CbcIvLength);
    }
    let n = key.len();
    let out = if n == 16 {
        if encrypt { aes128_cbc_encrypt(key, iv, data) } else { aes128_cbc_decrypt(key, iv, data) }
    } else if n == 24 {
        if encrypt { aes192_cbc_encrypt(key, iv, data) } else { aes192_cbc_decrypt(key, iv, data) }
    } else if n == 32 {
        if encrypt { aes256_cbc_encrypt(key, iv, data) } else { aes256_cbc_decrypt(key, iv, data) }
    } else {
        return Err(CryptoError::CbcKeyLength);
    };
    bytes_or(out, CryptoError::CbcBadPadding)
}

pub open spec fn aes_key_len(n: nat) -> bool {
    n == 16 || n == 24 || n == 32
}

pub open spec fn ctr_outcome(key: Seq<u8>, counter: Seq<u8>, counter_length: u32, data: Seq<u8>) -> Result<Seq<u8>, CryptoError> {
    if counter.len() != 16 {
        Err(CryptoError::CtrCounterLength)
    } else if counter_length != 128 && counter_length != 64 && counter_length != 32 {
        Err(CryptoError::CtrCounterWidth)
    } else if !aes_key_len(key.len()) {
        Err(CryptoError::CtrKeyLength)
    } else if counter_length == 128 {
        Ok(if key.len() == 16 { ctr128_aes128_applied(key, counter, data) } else if key.len() == 24 { ctr128_aes192_applied(key, counter, data) } else { ctr128_aes256_applied(key, counter, data) })
    } else if counter_length == 64 {
        Ok(if key.len() == 16 { ctr64_aes128_applied(key, counter, data) } else if key.len() == 24 { ctr64_aes192_applied(key, counter, data) } else { ctr64_aes256_applied(key, counter, data) })
    } else {
        Ok(if key.len() == 16 { ctr32_aes128_applied(key, counter, data) } else if key.len() == 24 { ctr32_aes192_applied(key, counter, data) } else { ctr32_aes256_applied(key, counter, data) })
    }
}

/// AES-CTR: encryption and decryption are the same keystream XOR.
/// `counter_length` is the WebCrypto counter width in bits; only the low
/// `counter_length` bits of the counter block increment, wrapping around
/// within them. The keystream of a 32-bit counter runs out after 2^32 - 1
/// blocks, whatever the counter block, and the input may be no longer than
/// that; the 64- and 128-bit keystreams outlast any input.
pub fn op_subtle_aes_ctr(key: &[u8], counter: &[u8], counter_length: u32, data: &[u8]) -> (r: Result<Vec<u8>, CryptoError>)
    requires
        counter@.len() == 16 && counter_length == 32 && aes_key_len(key@.len()) ==> data@.len() <= 68719476720,
    ensures
        outcome_is(r, ctr_outcome(key@, counter@, counter_length, data@)),
{
    if counter.len() != 16 {
        return Err(CryptoError::CtrCounterLength);
    }
    let n = key.len();
    if counter_length == 128 {
        if n == 16 {
            Ok(ctr128_aes128(key, counter, data))
        } else if n == 24 {
            Ok(ctr128_aes192(key, counter, data))
        } else if n == 32 {
            Ok(ctr128_aes256(key, counter, data))
        } else {
            Err(CryptoError::CtrKeyLength)
        }
    } else if counter_length == 64 {
        if n == 16 {
            Ok(ctr64_aes128(key, counter, data))
        } else if n == 24 {
            Ok(ctr64_aes192(key, counter, data))
        } else if n == 32 {
            Ok(ctr64_aes256(key, counter, data))
        } else {
            Err(CryptoError::CtrKeyLength)
        }
    } else if counter_length == 32 {
        if n == 16 {
            Ok(ctr32_aes128(key, counter, data))
        } else if n == 24 {
            Ok(ctr32_aes192(key, counter, data))
        } else if n == 32 {
            Ok(ctr32_aes256(key, counter, data))
        } else {
            Err(CryptoError::CtrKeyLength)
        }
    } else {
        Err(CryptoError::CtrCounterWidth)
    }
}

pub open spec fn pbkdf2_outcome(hash: Seq<char>, password: Seq<u8>, salt: Seq<u8>, iterations: u32, length: u32) -> Result<Seq<u8>, CryptoError> {
    if hash == "SHA-1"@ {
        Ok(pbkdf2_sha1(password, salt, iterations, length))
    } else if hash == "SHA-256"@ {
        Ok(pbkdf2_sha256(password, salt, iterations, length))
    } else if hash == "SHA-384"@ {
        Ok(pbkdf2_sha384(password, salt, iterations, length))
    } else if hash == "SHA-512"@ {
        Ok(pbkdf2_sha512(password, salt, iterations, length))
    } else {
        Err(CryptoError::UnsupportedPbkdf2Hash)
    }
}

/// PBKDF2 key derivation into `length` bytes.
pub fn op_subtle_pbkdf2(hash: &str, password: &[u8], salt: &[u8], iterations: u32, length: u32) -> (r: Result<Vec<u8>, CryptoError>)
    ensures
        outcome_is(r, pbkdf2_outcome(hash@, password@, salt@, iterations, length)),
        r matches Ok(v) ==> v@.len() == length,
{
    if str_eq(hash, "SHA-1") {
        Ok(pbkdf2_sha1_of(password, salt, iterations, length))
    } else if str_eq(hash, "SHA-256") {
        Ok(pbkdf2_sha256_of(password, salt, iterations, length))
    } else if str_eq(hash, "SHA-384") {
        Ok(pbkdf2_sha384_of(password, salt, iterations, length))
    } else if str_eq(hash, "SHA-512") {
        Ok(pbkdf2_sha512_of(password, salt, iterations, length))
    } else {
        Err(CryptoError::UnsupportedPbkdf2Hash)
    }
}

pub open spec fn hkdf_outcome(hash: Seq<char>, ikm: Seq<u8>, salt: Seq<u8>, info: Seq<u8>, length: u32) -> Result<Seq<u8>, CryptoError> {
    let (size, okm) = if hash == "SHA-1"@ {
        (20int, hkdf_sha1(ikm, salt, info, length))
    } else if hash == "SHA-256"@ {
        (32int, hkdf_sha256(ikm, salt, info, length))
    } else if hash == "SHA-384"@ {
        (48int, hkdf_sha384(ikm, salt, info, length))
    } else {
        (64int, hkdf_sha512(ikm, salt, info, length))
    };
    if hash != "SHA-1"@ && hash != "SHA-256"@ && hash != "SHA-384"@ && hash != "SHA-512"@ {
        Err(CryptoError::UnsupportedHkdfHash)
    } else if length > 255 * size {
        Err(CryptoError::HkdfLengthTooLong)
    } else {
        Ok(okm)
    }
}

/// HKDF key derivation into `length` bytes; an empty salt acts as RFC 5869
/// says. Refused when `length` passes 255 hash blocks.
pub fn op_subtle_hkdf(hash: &str, ikm: &[u8], salt: &[u8], info: &[u8], length: u32) -> (r: Result<Vec<u8>, CryptoError>)
    ensures
        outcome_is(r, hkdf_outcome(hash@, ikm@, salt@, info@, length)),
        r matches Ok(v) ==> v@.len() == length,
{
    let okm = if str_eq(hash, "SHA-1") {
        hkdf_sha1_of(ikm, salt, info, length)
    } else if str_eq(hash, "SHA-256") {
        hkdf_sha256_of(ikm, salt, info, length)
    } else if str_eq(hash, "SHA-384") {
        hkdf_sha384_of(ikm, salt, info, length)
    } else if str_eq(hash, "SHA-512") {
        hkdf_sha512_of(ikm, salt, info, length)
    } else {
        return Err(CryptoError::UnsupportedHkdfHash);
    };
    bytes_or(okm, CryptoError::HkdfLengthTooLong)
}

/// `len` cryptographically random bytes for `crypto.getRandomValues`,
/// `randomUUID` and key generation.
pub fn op_random_bytes(len: u32) -> (r: Result<Vec<u8>, CryptoError>)
    ensures
        r matches Ok(v) ==> v@.len() == len,
        r matches Err(e) ==> e is RandomFailed,
{
    match os_random_bytes(len) {
        Ok(v) => Ok(v),
        Err(detail) => Err(CryptoError::RandomFailed(detail)),
    }
}

} // verus!
