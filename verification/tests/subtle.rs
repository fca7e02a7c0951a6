use std::io::Read;

use obscura::subtle::{
    op_random_bytes, op_subtle_aes_cbc, op_subtle_aes_ctr, op_subtle_aes_gcm, op_subtle_digest,
    op_subtle_hkdf, op_subtle_hmac, op_subtle_pbkdf2, op_zlib_deflate, CryptoError,
};

fn hex(bytes: &[u8]) -> String {
    bytes.iter().map(|b| format!("{:02x}", b)).collect()
}

fn unhex(s: &str) -> Vec<u8> {
    (0..s.len()).step_by(2).map(|i| u8::from_str_radix(&s[i..i + 2], 16).unwrap()).collect()
}

#[test]
fn digests_match_published_vectors() {
    assert_eq!(hex(&op_subtle_digest("SHA-1", b"abc")), "a9993e364706816aba3e25717850c26c9cd0d89d");
    assert_eq!(
        hex(&op_subtle_digest("sha-256", b"abc")),
        "ba7816bf8f01cfea414140de5dae2223b00361a396177a9cb410ff61f20015ad"
    );
    assert_eq!(op_subtle_digest("SHA-384", b"abc").len(), 48);
    assert_eq!(op_subtle_digest("Sha-512", b"abc").len(), 64);
    assert_eq!(op_subtle_digest("SHA-512/224", b"").len(), 28);
    assert_eq!(op_subtle_digest("SHA-512/256", b"").len(), 32);
    assert!(op_subtle_digest("MD5", b"abc").is_empty());
}

#[test]
fn hmac_matches_rfc_4231() {
    let mac = op_subtle_hmac("SHA-256", b"Jefe", b"what do ya want for nothing?").unwrap();
    assert_eq!(hex(&mac), "5bdcc146bf60754e6a042426089575c75a003f089d2739839dec58b964ec3843");
    assert_eq!(op_subtle_hmac("SHA-1", b"", b"x").unwrap().len(), 20);
    let err = op_subtle_hmac("sha-256", b"k", b"x").unwrap_err();
    assert_eq!(err, CryptoError::UnsupportedHmacHash);
    assert_eq!(err.message(), "unsupported HMAC hash");
}

#[test]
fn aes_gcm_seals_opens_and_checks_sizes() {
    let key = [0u8; 16];
    let iv = [0u8; 12];
    let tag_only = op_subtle_aes_gcm(true, &key, &iv, b"", b"").unwrap();
    assert_eq!(hex(&tag_only), "58e2fccefa7e3061367f1d57a4e7455a");

    let key256 = [7u8; 32];
    let sealed = op_subtle_aes_gcm(true, &key256, &iv, b"aad", b"secret").unwrap();
    assert_eq!(sealed.len(), 6 + 16);
    assert_eq!(op_subtle_aes_gcm(false, &key256, &iv, b"aad", &sealed).unwrap(), b"secret");
    let mut tampered = sealed.clone();
    tampered[0] ^= 1;
    assert_eq!(
        op_subtle_aes_gcm(false, &key256, &iv, b"aad", &tampered).unwrap_err(),
        CryptoError::GcmTagMismatch
    );
    assert_eq!(op_subtle_aes_gcm(true, &key, &[0u8; 16], b"", b"").unwrap_err(), CryptoError::GcmIvLength);
    assert_eq!(op_subtle_aes_gcm(true, &[0u8; 20], &iv, b"", b"").unwrap_err(), CryptoError::GcmKeyLength);
    assert!(op_subtle_aes_gcm(true, &[1u8; 24], &iv, b"", b"x").is_ok());
}

#[test]
fn aes_cbc_round_trips_and_rejects_bad_input() {
    let key = [3u8; 24];
    let iv = [9u8; 16];
    let sealed = op_subtle_aes_cbc(true, &key, &iv, b"hello world").unwrap();
    assert_eq!(sealed.len(), 16);
    assert_eq!(op_subtle_aes_cbc(false, &key, &iv, &sealed).unwrap(), b"hello world");
    assert_eq!(op_subtle_aes_cbc(false, &key, &iv, &sealed[..15]).unwrap_err(), CryptoError::CbcBadPadding);
    assert_eq!(op_subtle_aes_cbc(true, &key, &[0u8; 12], b"").unwrap_err(), CryptoError::CbcIvLength);
    assert_eq!(op_subtle_aes_cbc(true, &[0u8; 8], &iv, b"").unwrap_err(), CryptoError::CbcKeyLength);
}

#[test]
fn aes_ctr_is_its_own_inverse() {
    let key = [5u8; 16];
    let counter = [0xffu8; 16];
    for width in [32u32, 64, 128] {
        let once = op_subtle_aes_ctr(&key, &counter, width, b"counter mode text").unwrap();
        assert_eq!(once.len(), 17);
        assert_ne!(once, b"counter mode text");
        assert_eq!(op_subtle_aes_ctr(&key, &counter, width, &once).unwrap(), b"counter mode text");
    }
    assert_eq!(op_subtle_aes_ctr(&key, &[0u8; 15], 64, b"").unwrap_err(), CryptoError::CtrCounterLength);
    assert_eq!(op_subtle_aes_ctr(&key, &counter, 48, b"").unwrap_err(), CryptoError::CtrCounterWidth);
    assert_eq!(op_subtle_aes_ctr(&[0u8; 7], &counter, 48, b"").unwrap_err(), CryptoError::CtrCounterWidth);
    assert_eq!(op_subtle_aes_ctr(&[0u8; 7], &counter, 64, b"").unwrap_err(), CryptoError::CtrKeyLength);
}

#[test]
fn key_derivation_matches_rfc_vectors() {
    let dk = op_subtle_pbkdf2("SHA-1", b"password", b"salt", 1, 20).unwrap();
    assert_eq!(hex(&dk), "0c60c80f961f0e71f3a9b524af6012062fe037a6");
    assert_eq!(op_subtle_pbkdf2("SHA-512", b"p", b"s", 2, 7).unwrap().len(), 7);
    assert_eq!(op_subtle_pbkdf2("MD5", b"p", b"s", 1, 7).unwrap_err(), CryptoError::UnsupportedPbkdf2Hash);

    let ikm = [0x0bu8; 22];
    let salt = unhex("000102030405060708090a0b0c");
    let info = unhex("f0f1f2f3f4f5f6f7f8f9");
    let okm = op_subtle_hkdf("SHA-256", &ikm, &salt, &info, 42).unwrap();
    assert_eq!(
        hex(&okm),
        "3cb25f25faacd57a90434f64d0362f2a2d2d0a90cf1a5a4c5db02d56ecc4c5bf34007208d5b887185865"
    );
    assert_eq!(op_subtle_hkdf("SHA-256", &ikm, &salt, &info, 255 * 32).unwrap().len(), 255 * 32);
    let err = op_subtle_hkdf("SHA-256", &ikm, &salt, &info, 255 * 32 + 1).unwrap_err();
    assert_eq!(err.message(), "HKDF: requested key length is too long");
    assert_eq!(op_subtle_hkdf("SHA-3", &ikm, &salt, &info, 1).unwrap_err(), CryptoError::UnsupportedHkdfHash);
}

#[test]
fn random_bytes_have_the_requested_length() {
    assert_eq!(op_random_bytes(0).unwrap().len(), 0);
    assert_eq!(op_random_bytes(33).unwrap().len(), 33);
}

#[test]
fn zlib_output_inflates_back() {
    let data = vec![42u8; 1000];
    let packed = op_zlib_deflate(&data);
    assert!(packed.len() < data.len());
    let mut out = Vec::new();
    flate2::read::ZlibDecoder::new(&packed[..]).read_to_end(&mut out).unwrap();
    assert_eq!(out, data);
}

#[test]
fn aes_ctr_counter_block_of_all_ones_wraps_without_failing() {
    let counter = [0xffu8; 16];
    let data = [0x5au8; 64];
    for key_len in [16usize, 24, 32] {
        let key = vec![7u8; key_len];
        for width in [32u32, 64, 128] {
            let once = op_subtle_aes_ctr(&key, &counter, width, &data).unwrap();
            assert_eq!(once.len(), 64);
            assert_ne!(once.as_slice(), &data[..]);
            assert_eq!(op_subtle_aes_ctr(&key, &counter, width, &once).unwrap(), data.to_vec());
        }
    }
}
