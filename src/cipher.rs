use crate::store::SessionKey;
use aes::Aes256;
use cbc::cipher::block_padding::Pkcs7;
use cbc::cipher::{BlockDecryptMut, BlockEncryptMut, KeyIvInit};
use rand::RngCore;
use vstd::prelude::*;
use vstd::string::StringSliceAdditionalSpecFns;
use vstd::utf8::{decode_utf8, encode_utf8, valid_utf8};

verus! {

broadcast use {vstd::utf8::encode_utf8_valid_utf8, vstd::utf8::encode_utf8_decode_utf8};

/// Why a relayed payload could not be turned back into text.
#[derive(Clone, Copy, Debug, PartialEq, Eq, Structural)]
pub enum CipherError {
    /// The ciphertext is not a whole number of blocks or its padding is malformed.
    DecodeError,
    /// The recovered bytes are not UTF-8.
    InvalidUtf8,
}

/// The ciphertext that AES-256 in CBC mode with PKCS#7 padding makes of
/// `plain` under `key` and the initialization vector `iv`.
pub uninterp spec fn cbc_ciphertext(key: Seq<u8>, iv: Seq<u8>, plain: Seq<u8>) -> Seq<u8>;

/// What AES-256 in CBC mode with PKCS#7 padding recovers from `ct` under
/// `key` and `iv`: `None` where the length or the padding is wrong.
pub uninterp spec fn cbc_plaintext(key: Seq<u8>, iv: Seq<u8>, ct: Seq<u8>) -> Option<Seq<u8>>;

/// The initialization vector of a session: the first 16 bytes of its key.
pub open spec fn iv_of(key: Seq<u8>) -> Seq<u8> {
    key.subrange(0, 16)
}

/// The payload that [`encode`] makes of `text` under `key`.
pub open spec fn encoded(text: Seq<char>, key: Seq<u8>) -> Seq<u8> {
    cbc_ciphertext(key, iv_of(key), encode_utf8(text))
}

/// What recovered bytes `p` give as text.
pub open spec fn text_of(p: Option<Seq<u8>>) -> Result<Seq<char>, CipherError> {
    match p {
        None => Err(CipherError::DecodeError),
        Some(b) => if valid_utf8(b) {
            Ok(decode_utf8(b))
        } else {
            Err(CipherError::InvalidUtf8)
        },
    }
}

/// The bytes that `p` holds, if any.
pub open spec fn bytes_of(p: Option<Vec<u8>>) -> Option<Seq<u8>> {
    match p {
        Some(v) => Some(v@),
        None => None,
    }
}

/// Relies on rand's `thread_rng` and `RngCore::fill_bytes`: 32 bytes from a
/// cryptographically secure generator. Nothing is known of their values.
#[verifier::external_body]
pub(crate) fn random_key() -> (r: [u8; 32]) {
    let mut key = [0u8; 32];
    rand::thread_rng().fill_bytes(&mut key);
    key
}

/// Relies on cbc's `Encryptor<Aes256>` and `encrypt_padded_vec_mut::<Pkcs7>`:
/// PKCS#7 adds one to sixteen bytes, so the result is the next whole number
/// of 16-byte blocks.
#[verifier::external_body]
fn cbc_encrypt(key: &[u8; 32], iv: &[u8; 16], plain: &[u8]) -> (r: Vec<u8>)
    ensures
        r@ == cbc_ciphertext(key@, iv@, plain@),
        r@.len() == 16 * (plain@.len() / 16 + 1),
{
    cbc::Encryptor::<Aes256>::new(key.into(), iv.into()).encrypt_padded_vec_mut::<Pkcs7>(plain)
}

/// Relies on cbc's `Decryptor<Aes256>` and `decrypt_padded_vec_mut::<Pkcs7>`:
/// it fails on a length that is not a multiple of the block size and on
/// malformed padding, and undoes `encrypt_padded_vec_mut` under the same key
/// and initialization vector.
#[verifier::external_body]
fn cbc_decrypt(key: &[u8; 32], iv: &[u8; 16], ct: &[u8]) -> (r: Option<Vec<u8>>)
    ensures
        r matches Some(v) ==> cbc_plaintext(key@, iv@, ct@) == Some(v@),
        r is None ==> cbc_plaintext(key@, iv@, ct@) is None,
        forall|p: Seq<u8>| #[trigger] cbc_ciphertext(key@, iv@, p) == ct@ ==> r is Some && r->0@ == p,
        ct@.len() % 16 != 0 ==> r is None,
{
    cbc::Decryptor::<Aes256>::new(key.into(), iv.into()).decrypt_padded_vec_mut::<Pkcs7>(ct).ok()
}

/// Relies on `String::from_utf8`: it succeeds exactly on valid UTF-8 and
/// then holds the characters that the bytes encode.
#[verifier::external_body]
fn utf8_string(b: Vec<u8>) -> (r: Option<String>)
    ensures
        r is Some <==> valid_utf8(b@),
        r matches Some(s) ==> s@ == decode_utf8(b@),
{
    String::from_utf8(b).ok()
}

/// The initialization vector of a session: the first 16 bytes of its key.
pub fn session_iv(key: &SessionKey) -> (iv: [u8; 16])
    ensures
        iv@ == iv_of(key@),
{
    let mut iv = [0u8; 16];
    let mut i: usize = 0;
    while i < 16
        invariant
            i <= 16,
            iv@.len() == 16,
            forall|j: int| 0 <= j < i ==> iv@[j] == key@[j],
        decreases 16 - i,
    {
        iv[i] = key[i];
        i = i + 1;
    }
    assert(iv@ =~= iv_of(key@));
    iv
}

/// Encrypts the UTF-8 bytes of `text` under the session key `key`.
pub fn encode(text: &str, key: &SessionKey) -> (r: Vec<u8>)
    ensures
        r@ == encoded(text@, key@),
        r@.len() == 16 * (encode_utf8(text@).len() / 16 + 1),
{
    let iv = session_iv(key);
    cbc_encrypt(key, &iv, text.as_bytes())
}

/// Turns bytes recovered by decryption, or `None` where decryption failed,
/// into text.
pub fn text_from_plaintext(p: Option<Vec<u8>>) -> (r: Result<String, CipherError>)
    ensures
        match (r, text_of(bytes_of(p))) {
            (Ok(s), Ok(t)) => s@ == t,
            (Err(e), Err(f)) => e == f,
            _ => false,
        },
{
    match p {
        None => Err(CipherError::DecodeError),
        Some(b) => match utf8_string(b) {
            Some(s) => Ok(s),
            None => Err(CipherError::InvalidUtf8),
        },
    }
}

/// Decrypts `ct` under the session key `key` and reads the result as text.
/// The payload that [`encode`] made of a text under the same key gives that
/// text back.
pub fn decode(ct: &[u8], key: &SessionKey) -> (r: Result<String, CipherError>)
    ensures
        match (r, text_of(cbc_plaintext(key@, iv_of(key@), ct@))) {
            (Ok(s), Ok(t)) => s@ == t,
            (Err(e), Err(f)) => e == f,
            _ => false,
        },
        forall|t: Seq<char>| ct@ == #[trigger] encoded(t, key@) ==> (r matches Ok(s) && s@ == t),
        ct@.len() % 16 != 0 ==> r == Err::<String, CipherError>(CipherError::DecodeError),
{
    let iv = session_iv(key);
    let p = cbc_decrypt(key, &iv, ct);
    text_from_plaintext(p)
}

} // verus!
