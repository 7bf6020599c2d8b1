use aes_gcm::aead::{Aead, KeyInit};
use aes_gcm::{Aes256Gcm, Key, Nonce};
use pwds::crypto::{
    normalize_key, plaintext_of, split_sealed, Cipher, CryptoManager, DecryptError,
};
use pwds::store::set_enc_key;
use std::collections::HashSet;

const FULL_KEY: &str = "0123456789abcdef0123456789abcdef";

#[test]
fn round_trip_under_keys_of_every_length() {
    let keys = ["", "k", "ab", FULL_KEY, "a key that is much longer than thirty-two bytes"];
    let plaintexts = ["", "secret1", "pässwörd ✓", "line\nbreak:colon"];
    for key in keys {
        let cipher = Cipher::new(key);
        for p in plaintexts {
            let sealed = cipher.encrypt(p.to_string());
            assert_eq!(cipher.decrypt(sealed), Ok(p.to_string()));
        }
    }
}

#[test]
fn sealed_record_is_lowercase_hex_of_nonce_ciphertext_and_tag() {
    let cipher = Cipher::new("k");
    let sealed = cipher.encrypt("abc".to_string());
    // 12 nonce bytes, 3 ciphertext bytes, 16 tag bytes, two digits each
    assert_eq!(sealed.len(), 2 * (12 + 3 + 16));
    assert!(sealed.chars().all(|c| c.is_ascii_digit() || ('a'..='f').contains(&c)));
}

#[test]
fn flipping_any_bit_makes_decrypt_fail() {
    let cipher = Cipher::new("tamper key");
    let sealed = cipher.encrypt("secret".to_string());
    let chars: Vec<char> = sealed.chars().collect();
    for i in 0..chars.len() {
        for bit in 0..8u32 {
            let flipped = ((chars[i] as u8) ^ (1u8 << bit)) as char;
            let mut t = chars.clone();
            t[i] = flipped;
            let text: String = t.into_iter().collect();
            let result = cipher.decrypt(text);
            assert!(
                result == Err(DecryptError::AuthenticationFailure)
                    || result == Err(DecryptError::MalformedEncoding),
                "char {} bit {}: {:?}",
                i,
                bit,
                result
            );
            if flipped == chars[i].to_ascii_uppercase() {
                assert_eq!(result, Err(DecryptError::MalformedEncoding));
            }
        }
    }
}

#[test]
fn wrong_key_fails_authentication() {
    let sealed = Cipher::new("first key").encrypt("secret".to_string());
    assert_eq!(
        Cipher::new("second key").decrypt(sealed.clone()),
        Err(DecryptError::AuthenticationFailure)
    );
    assert_eq!(Cipher::new("first key").decrypt(sealed), Ok("secret".to_string()));
}

#[test]
fn nonces_differ_between_encryptions() {
    let cipher = Cipher::new("k");
    let mut seen = HashSet::new();
    let mut nonces = HashSet::new();
    for _ in 0..500 {
        let sealed = cipher.encrypt("same plaintext".to_string());
        nonces.insert(sealed[..24].to_string());
        seen.insert(sealed);
    }
    assert_eq!(seen.len(), 500);
    assert_eq!(nonces.len(), 500);
}

#[test]
fn normalize_short_key_pads_with_zeros() {
    let k = normalize_key("ab");
    assert_eq!(k.len(), 32);
    assert_eq!(k[0], b'a');
    assert_eq!(k[1], b'b');
    assert!(k[2..].iter().all(|b| *b == 0));
}

#[test]
fn normalize_full_length_key_is_unchanged() {
    assert_eq!(normalize_key(FULL_KEY), FULL_KEY.as_bytes().to_vec());
}

#[test]
fn normalize_long_key_is_cut_after_32_bytes() {
    let long = "abcdefghijklmnopqrstuvwxyz0123456789";
    assert_eq!(normalize_key(long), long.as_bytes()[..32].to_vec());
    assert_eq!(normalize_key("").len(), 32);
    assert!(normalize_key("").iter().all(|b| *b == 0));
}

#[test]
fn generate_key_gives_hex_of_framed_key() {
    let expected = format!("6162{}", "00".repeat(30));
    assert_eq!(Cipher::generate_key("ab"), expected);
    assert_eq!(Cipher::generate_key("").len(), 64);
}

#[test]
fn decrypt_rejects_text_that_is_not_hex() {
    let cipher = Cipher::new("k");
    assert_eq!(cipher.decrypt("zz".to_string()), Err(DecryptError::MalformedEncoding));
    assert_eq!(cipher.decrypt("abc".to_string()), Err(DecryptError::MalformedEncoding));
    assert_eq!(cipher.decrypt("é0".to_string()), Err(DecryptError::MalformedEncoding));
}

#[test]
fn decrypt_rejects_bytes_shorter_than_a_nonce() {
    let cipher = Cipher::new("k");
    assert_eq!(cipher.decrypt("".to_string()), Err(DecryptError::TruncatedCiphertext));
    assert_eq!(cipher.decrypt("00".repeat(11)), Err(DecryptError::TruncatedCiphertext));
}

#[test]
fn decrypt_rejects_a_forged_tag() {
    let cipher = Cipher::new("k");
    assert_eq!(cipher.decrypt("00".repeat(12)), Err(DecryptError::AuthenticationFailure));
    assert_eq!(cipher.decrypt("00".repeat(40)), Err(DecryptError::AuthenticationFailure));
}

#[test]
fn decrypt_rejects_uppercase_hex() {
    let cipher = Cipher::new("k");
    let sealed = cipher.encrypt("Secret".to_string());
    assert_eq!(cipher.decrypt(sealed.to_uppercase()), Err(DecryptError::MalformedEncoding));
    assert_eq!(cipher.decrypt("AA".to_string()), Err(DecryptError::MalformedEncoding));
}

#[test]
fn decrypt_reports_plaintext_that_is_not_utf8() {
    let key = normalize_key("k");
    let nonce = [7u8; 12];
    let aes = Aes256Gcm::new(Key::<Aes256Gcm>::from_slice(&key));
    let body = aes.encrypt(Nonce::from_slice(&nonce), &[0xffu8, 0xfe][..]).unwrap();
    let mut bytes = nonce.to_vec();
    bytes.extend_from_slice(&body);
    let sealed = hex::encode(bytes);
    assert_eq!(Cipher::new("k").decrypt(sealed), Err(DecryptError::InvalidUtf8));
}

#[test]
fn decrypt_opens_a_record_sealed_elsewhere() {
    let key = normalize_key("k");
    let nonce = [1u8; 12];
    let aes = Aes256Gcm::new(Key::<Aes256Gcm>::from_slice(&key));
    let body = aes.encrypt(Nonce::from_slice(&nonce), &b"hello"[..]).unwrap();
    let mut bytes = nonce.to_vec();
    bytes.extend_from_slice(&body);
    assert_eq!(Cipher::new("k").decrypt(hex::encode(bytes)), Ok("hello".to_string()));
}

#[test]
fn set_enc_key_frames_the_key() {
    let cipher = set_enc_key("shared".to_string());
    let sealed = Cipher::new("shared").encrypt("pw".to_string());
    assert_eq!(cipher.decrypt(sealed), Ok("pw".to_string()));
}

#[test]
fn sealed_text_length_follows_plaintext_bytes() {
    let cipher = Cipher::new("k");
    for p in ["", "a", "pässwörd"] {
        let sealed = cipher.encrypt(p.to_string());
        assert_eq!(sealed.len(), 2 * (12 + p.len() + 16));
    }
}

#[test]
fn encrypt_with_nonce_matches_aes_gcm() {
    let key = normalize_key("k");
    let nonce = [9u8; 12];
    let aes = Aes256Gcm::new(Key::<Aes256Gcm>::from_slice(&key));
    let body = aes.encrypt(Nonce::from_slice(&nonce), &b"hello"[..]).unwrap();
    let mut bytes = nonce.to_vec();
    bytes.extend_from_slice(&body);
    let sealed = Cipher::new("k").encrypt_with_nonce(&nonce, "hello");
    assert_eq!(sealed, hex::encode(bytes));
    assert!(sealed.starts_with(&"09".repeat(12)));
}

#[test]
fn encrypt_with_distinct_nonces_gives_distinct_records() {
    let cipher = Cipher::new("k");
    let a = cipher.encrypt_with_nonce(&[1u8; 12], "same");
    let b = cipher.encrypt_with_nonce(&[2u8; 12], "same");
    assert_ne!(a, b);
    assert_eq!(cipher.decrypt(a), Ok("same".to_string()));
    assert_eq!(cipher.decrypt(b), Ok("same".to_string()));
}

#[test]
fn split_sealed_separates_nonce_and_body() {
    let text = format!("{}{}", "00".repeat(12), "0aff");
    assert_eq!(split_sealed(&text), Ok((vec![0u8; 12], vec![0x0a, 0xff])));
    assert_eq!(split_sealed(&"00".repeat(12)), Ok((vec![0u8; 12], vec![])));
    assert_eq!(split_sealed(&"00".repeat(11)), Err(DecryptError::TruncatedCiphertext));
    assert_eq!(split_sealed("0g"), Err(DecryptError::MalformedEncoding));
    assert_eq!(split_sealed("000"), Err(DecryptError::MalformedEncoding));
    assert_eq!(split_sealed("0A"), Err(DecryptError::MalformedEncoding));
}

#[test]
fn plaintext_of_decodes_utf8_only() {
    assert_eq!(plaintext_of(b"hi".to_vec()), Ok("hi".to_string()));
    assert_eq!(plaintext_of("é".as_bytes().to_vec()), Ok("é".to_string()));
    assert_eq!(plaintext_of(vec![0xff, 0xfe]), Err(DecryptError::InvalidUtf8));
}
