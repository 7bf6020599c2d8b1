//! The cipher engine: AES-256-GCM under a key framed to 32 bytes, with a
//! fresh random nonce per record, sealed records carried as hex text.
//!
//! The key framing is not a key-derivation function: a short or weak key is
//! used as it is, zero-padded, and is not strengthened.
use vstd::prelude::*;
use vstd::utf8::*;
use vstd::string::*;
use aes_gcm::aead::{Aead, AeadCore, KeyInit, OsRng};
use aes_gcm::{Aes256Gcm, Key, Nonce};
use crate::hex_text::{hex_encode, hex_decode, is_lower_hex, is_lower_hex_digit, is_lowercase_hex, to_hex, from_hex, lemma_hex_round_trip, lemma_hex_encode_shape};

verus! {

/// Length in bytes of a cipher key.
pub const KEY_LEN: usize = 32;

/// Length in bytes of the nonce that starts every sealed record.
pub const NONCE_LEN: usize = 12;

/// Length in bytes of the authentication tag that ends every sealed record.
pub const TAG_LEN: usize = 16;

/// The longest plaintext, in bytes, that AES-GCM seals (2^36 bytes).
pub const MAX_PLAINTEXT_LEN: u64 = 68719476736;

/// Why a sealed record could not be opened.
#[derive(Debug, Clone, Copy, PartialEq, Eq, Structural)]
pub enum DecryptError {
    /// The text is not hex of even length.
    MalformedEncoding,
    /// The decoded bytes are too short to hold a nonce.
    TruncatedCiphertext,
    /// The tag does not match: wrong key, or altered data.
    AuthenticationFailure,
    /// The recovered plaintext is not UTF-8.
    InvalidUtf8,
}

/// The 32-byte key framed from raw key bytes: the bytes as a prefix, cut
/// after 32 bytes, and zero bytes after them up to 32.
pub open spec fn normalized_key(raw: Seq<u8>) -> Seq<u8> {
    Seq::new(KEY_LEN as nat, |i: int| if i < raw.len() { raw[i] } else { 0u8 })
}

/// What AES-256-GCM sealing (no associated data) produces: ciphertext and tag.
pub uninterp spec fn aes256gcm_seal(key: Seq<u8>, nonce: Seq<u8>, plaintext: Seq<u8>) -> Seq<u8>;

/// What AES-256-GCM opening (no associated data) recovers, or `None` when
/// the tag check fails.
pub uninterp spec fn aes256gcm_open(key: Seq<u8>, nonce: Seq<u8>, sealed: Seq<u8>) -> Option<Seq<u8>>;

/// The text of a sealed record: hex of the nonce followed by the ciphertext
/// and tag of the plaintext's UTF-8 bytes.
pub open spec fn sealed_text(key: Seq<u8>, nonce: Seq<u8>, plaintext: Seq<char>) -> Seq<char> {
    hex_encode(nonce + aes256gcm_seal(key, nonce, encode_utf8(plaintext)))
}

/// The nonce and the sealed body that a record's text stands for: the text
/// must be lowercase hex of even length, of at least 12 bytes.
pub open spec fn split_outcome(sealed: Seq<char>) -> Result<(Seq<u8>, Seq<u8>), DecryptError> {
    if !is_lower_hex(sealed) {
        Err(DecryptError::MalformedEncoding)
    } else {
        match hex_decode(sealed) {
            None => Err(DecryptError::MalformedEncoding),
            Some(bytes) => if bytes.len() < NONCE_LEN {
                Err(DecryptError::TruncatedCiphertext)
            } else {
                Ok((bytes.take(NONCE_LEN as int), bytes.skip(NONCE_LEN as int)))
            },
        }
    }
}

/// The text that opened bytes hold, when they are UTF-8.
pub open spec fn text_outcome(plain: Seq<u8>) -> Result<Seq<char>, DecryptError> {
    if valid_utf8(plain) {
        Ok(decode_utf8(plain))
    } else {
        Err(DecryptError::InvalidUtf8)
    }
}

/// What opening a sealed record's text under a key gives.
pub open spec fn decrypt_outcome(key: Seq<u8>, sealed: Seq<char>) -> Result<Seq<char>, DecryptError> {
    match split_outcome(sealed) {
        Err(e) => Err(e),
        Ok((nonce, body)) => match aes256gcm_open(key, nonce, body) {
            None => Err(DecryptError::AuthenticationFailure),
            Some(plain) => text_outcome(plain),
        },
    }
}

/// Length in characters of the sealed text of a plaintext of `n` bytes.
pub open spec fn sealed_text_len(n: int) -> int {
    2 * (NONCE_LEN + n + TAG_LEN)
}

/// An executable result agrees with a result over views.
pub open spec fn result_is(r: Result<String, DecryptError>, o: Result<Seq<char>, DecryptError>) -> bool {
    match r {
        Ok(s) => o == Ok::<Seq<char>, DecryptError>(s@),
        Err(e) => o == Err::<Seq<char>, DecryptError>(e),
    }
}

/// A plaintext short enough to be sealed.
pub open spec fn sealable(plaintext: Seq<char>) -> bool {
    encode_utf8(plaintext).len() <= MAX_PLAINTEXT_LEN
}

/// A raw key of exactly 32 bytes is its own framed key.
pub proof fn lemma_full_length_key_unchanged(raw: Seq<u8>)
    requires
        raw.len() == KEY_LEN,
    ensures
        normalized_key(raw) == raw,
{
    assert(normalized_key(raw) =~= raw);
}

/// A sealed record whose text has one character changed into anything but
/// a lowercase hex digit (an upper-case letter included) fails to open with
/// `MalformedEncoding`, whatever the key.
pub proof fn lemma_tampered_to_non_hex(key: Seq<u8>, sealed: Seq<char>, i: int, c: char)
    requires
        0 <= i < sealed.len(),
        !is_lower_hex_digit(c),
    ensures
        decrypt_outcome(key, sealed.update(i, c)) == Err::<Seq<char>, DecryptError>(DecryptError::MalformedEncoding),
{
    assert(sealed.update(i, c)[i] == c);
}

/// Sealed texts made under two different nonces differ, whatever the key
/// and plaintext: fresh nonces give fresh records.
pub proof fn lemma_distinct_nonces_give_distinct_records(key: Seq<u8>, n1: Seq<u8>, n2: Seq<u8>, p: Seq<char>)
    requires
        n1.len() == NONCE_LEN,
        n2.len() == NONCE_LEN,
        n1 != n2,
    ensures
        sealed_text(key, n1, p) != sealed_text(key, n2, p),
{
    let b1 = n1 + aes256gcm_seal(key, n1, encode_utf8(p));
    let b2 = n2 + aes256gcm_seal(key, n2, encode_utf8(p));
    lemma_hex_round_trip(b1);
    lemma_hex_round_trip(b2);
    if sealed_text(key, n1, p) == sealed_text(key, n2, p) {
        assert(b1 == b2);
        assert(b1.take(NONCE_LEN as int) =~= n1);
        assert(b2.take(NONCE_LEN as int) =~= n2);
    }
}

#[verifier::external_type_specification]
#[verifier::external_body]
pub struct ExAeadError(aes_gcm::Error);

#[verifier::external_type_specification]
#[verifier::external_body]
pub struct ExFromUtf8Error(std::string::FromUtf8Error);

/// Relies on `AeadCore::generate_nonce` with `OsRng`: a 12-byte nonce for
/// AES-256-GCM, drawn from the operating system's secure generator.
#[verifier::external_body]
fn fresh_nonce() -> (r: Vec<u8>)
    ensures
        r@.len() == NONCE_LEN,
{
    Aes256Gcm::generate_nonce(&mut OsRng).to_vec()
}

/// Relies on `Aead::encrypt` of `Aes256Gcm`: it fails only on a plaintext
/// over 2^36 bytes, and appends a 16-byte tag to a ciphertext as long as
/// the plaintext.
#[verifier::external_body]
fn aes_seal(key: &[u8], nonce: &[u8], plaintext: &[u8]) -> (r: Result<Vec<u8>, aes_gcm::Error>)
    requires
        key@.len() == KEY_LEN,
        nonce@.len() == NONCE_LEN,
    ensures
        r is Ok <==> plaintext@.len() <= MAX_PLAINTEXT_LEN,
        r is Ok ==> r->Ok_0@ == aes256gcm_seal(key@, nonce@, plaintext@),
        r is Ok ==> r->Ok_0@.len() == plaintext@.len() + TAG_LEN,
{
    let cipher = Aes256Gcm::new(Key::<Aes256Gcm>::from_slice(key));
    cipher.encrypt(Nonce::from_slice(nonce), plaintext)
}

/// Relies on `Aead::decrypt` of `Aes256Gcm`: it gives back the plaintext
/// that was sealed under the same key and nonce, and fails when the tag
/// does not match.
#[verifier::external_body]
fn aes_open(key: &[u8], nonce: &[u8], sealed: &[u8]) -> (r: Result<Vec<u8>, aes_gcm::Error>)
    requires
        key@.len() == KEY_LEN,
        nonce@.len() == NONCE_LEN,
    ensures
        r is Ok <==> aes256gcm_open(key@, nonce@, sealed@) is Some,
        r is Ok ==> r->Ok_0@ == aes256gcm_open(key@, nonce@, sealed@)->0,
        sealed@.len() < TAG_LEN ==> r is Err,
        forall|p: Seq<u8>|
            p.len() <= MAX_PLAINTEXT_LEN && sealed@ == #[trigger] aes256gcm_seal(key@, nonce@, p)
                ==> (r is Ok && r->Ok_0@ == p),
{
    let cipher = Aes256Gcm::new(Key::<Aes256Gcm>::from_slice(key));
    cipher.decrypt(Nonce::from_slice(nonce), sealed)
}

/// Relies on `String::from_utf8`: it succeeds exactly on valid UTF-8 and
/// then holds the characters those bytes encode.
#[verifier::external_body]
fn utf8_to_string(b: Vec<u8>) -> (r: Result<String, std::string::FromUtf8Error>)
    ensures
        r is Ok <==> valid_utf8(b@),
        r is Ok ==> r->Ok_0@ == decode_utf8(b@),
{
    String::from_utf8(b)
}

/// Frames raw key text as a 32-byte key: its UTF-8 bytes, cut after 32
/// bytes, then zero bytes up to 32. Never fails.
pub fn normalize_key(raw: &str) -> (k: Vec<u8>)
    ensures
        k@ == normalized_key(raw.spec_bytes()),
{
    let bytes = raw.as_bytes();
    let mut k: Vec<u8> = Vec::new();
    let mut i: usize = 0;
    while i < KEY_LEN
        invariant
            i <= KEY_LEN,
            bytes@ == raw.spec_bytes(),
            k@ == normalized_key(raw.spec_bytes()).take(i as int),
        decreases KEY_LEN - i,
    {
        if i < bytes.len() {
            k.push(bytes[i]);
        } else {
            k.push(0u8);
        }
        i = i + 1;
        assert(k@ =~= normalized_key(raw.spec_bytes()).take(i as int));
    }
    assert(k@ =~= normalized_key(raw.spec_bytes()));
    k
}


/// Splits a sealed record's text into its nonce and its sealed body.
pub fn split_sealed(sealed: &str) -> (r: Result<(Vec<u8>, Vec<u8>), DecryptError>)
    ensures
        match r {
            Ok((n, b)) => split_outcome(sealed@) == Ok::<(Seq<u8>, Seq<u8>), DecryptError>((n@, b@)),
            Err(e) => split_outcome(sealed@) == Err::<(Seq<u8>, Seq<u8>), DecryptError>(e),
        },
{
    if !is_lowercase_hex(sealed) {
        return Err(DecryptError::MalformedEncoding);
    }
    let mut bytes = match from_hex(sealed) {
        Ok(b) => b,
        Err(_) => {
            return Err(DecryptError::MalformedEncoding);
        },
    };
    if bytes.len() < NONCE_LEN {
        return Err(DecryptError::TruncatedCiphertext);
    }
    let ghost whole = bytes@;
    let body = bytes.split_off(NONCE_LEN);
    assert(bytes@ =~= whole.take(NONCE_LEN as int));
    assert(body@ =~= whole.skip(NONCE_LEN as int));
    Ok((bytes, body))
}

/// The text that opened bytes hold; `InvalidUtf8` unless they are UTF-8.
pub fn plaintext_of(plain: Vec<u8>) -> (r: Result<String, DecryptError>)
    ensures
        result_is(r, text_outcome(plain@)),
{
    match utf8_to_string(plain) {
        Ok(s) => Ok(s),
        Err(_) => Err(DecryptError::InvalidUtf8),
    }
}

/// Sealing and opening of secrets under a cipher's key.
pub trait CryptoManager: Sized {
    /// The 32-byte key of this cipher.
    spec fn key(&self) -> Seq<u8>;

    /// Seals a plaintext under a fresh random nonce: the result is the
    /// lowercase hex text of nonce, ciphertext and tag.
    fn encrypt(&self, plaintext: String) -> (r: String)
        requires
            sealable(plaintext@),
        ensures
            exists|n: Seq<u8>| n.len() == NONCE_LEN && r@ == #[trigger] sealed_text(self.key(), n, plaintext@),
            r@.len() == sealed_text_len(encode_utf8(plaintext@).len() as int),
            is_lower_hex(r@),
    ;

    /// Opens a sealed record's text. Whatever was sealed under this key, with
    /// any nonce, comes back as it was.
    fn decrypt(&self, encrypted_data: String) -> (r: Result<String, DecryptError>)
        ensures
            result_is(r, decrypt_outcome(self.key(), encrypted_data@)),
            forall|n: Seq<u8>, p: Seq<char>|
                n.len() == NONCE_LEN && sealable(p) && encrypted_data@ == #[trigger] sealed_text(self.key(), n, p)
                    ==> (r matches Ok(s) && s@ == p),
    ;

    /// Hex text of the 32-byte key framed from `base_key`.
    fn generate_key(base_key: &str) -> (r: String)
        ensures
            r@ == hex_encode(normalized_key(base_key.spec_bytes())),
    ;
}

/// AES-256-GCM under a 32-byte key.
pub struct Cipher {
    key: Vec<u8>,
}

impl Cipher {
    #[verifier::type_invariant]
    spec fn key_is_framed(&self) -> bool {
        self.key@.len() == KEY_LEN
    }

    /// A cipher under the key framed from `base_key`.
    pub fn new(base_key: &str) -> (c: Cipher)
        ensures
            c.key() == normalized_key(base_key.spec_bytes()),
    {
        Cipher { key: normalize_key(base_key) }
    }

    /// Seals a plaintext under the given 12-byte nonce: the lowercase hex
    /// text of nonce, ciphertext and tag.
    pub fn encrypt_with_nonce(&self, nonce: &[u8], plaintext: &str) -> (r: String)
        requires
            nonce@.len() == NONCE_LEN,
            sealable(plaintext@),
        ensures
            r@ == sealed_text(self.key(), nonce@, plaintext@),
            r@.len() == sealed_text_len(encode_utf8(plaintext@).len() as int),
            is_lower_hex(r@),
    {
        proof {
            use_type_invariant(self);
        }
        let bytes = plaintext.as_bytes();
        match aes_seal(self.key.as_slice(), nonce, bytes) {
            Ok(mut body) => {
                let ghost c = body@;
                let mut data: Vec<u8> = Vec::new();
                data.extend_from_slice(nonce);
                data.append(&mut body);
                assert(data@ =~= nonce@ + c);
                proof {
                    lemma_hex_encode_shape(data@);
                }
                to_hex(data.as_slice())
            },
            Err(_) => {
                proof {
                    assert(false);
                }
                String::new()
            },
        }
    }
}

impl CryptoManager for Cipher {
    closed spec fn key(&self) -> Seq<u8> {
        self.key@
    }

    fn encrypt(&self, plaintext: String) -> (r: String) {
        let nonce = fresh_nonce();
        self.encrypt_with_nonce(nonce.as_slice(), plaintext.as_str())
    }

    fn decrypt(&self, encrypted_data: String) -> (r: Result<String, DecryptError>) {
        proof {
            use_type_invariant(self);
        }
        let ghost key = self.key@;
        assert forall|n: Seq<u8>, p: Seq<char>|
            n.len() == NONCE_LEN && sealable(p) && encrypted_data@ == #[trigger] sealed_text(key, n, p)
        implies split_outcome(encrypted_data@) == Ok::<(Seq<u8>, Seq<u8>), DecryptError>(
            (n, aes256gcm_seal(key, n, encode_utf8(p))),
        ) by {
            let whole = n + aes256gcm_seal(key, n, encode_utf8(p));
            lemma_hex_round_trip(whole);
            lemma_hex_encode_shape(whole);
            assert(whole.take(NONCE_LEN as int) =~= n);
            assert(whole.skip(NONCE_LEN as int) =~= aes256gcm_seal(key, n, encode_utf8(p)));
        }
        let (nonce, body) = match split_sealed(encrypted_data.as_str()) {
            Ok(parts) => parts,
            Err(e) => {
                return Err(e);
            },
        };
        let plain = match aes_open(self.key.as_slice(), nonce.as_slice(), body.as_slice()) {
            Ok(p) => p,
            Err(_) => {
                return Err(DecryptError::AuthenticationFailure);
            },
        };
        proof {
            broadcast use encode_utf8_valid_utf8, encode_utf8_decode_utf8;
        }
        plaintext_of(plain)
    }

    fn generate_key(base_key: &str) -> (r: String) {
        let k = normalize_key(base_key);
        to_hex(k.as_slice())
    }
}

} // verus!
