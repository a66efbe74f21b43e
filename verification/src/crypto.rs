//! The cryptographic and encoding primitives that come from outside crates.
use base64::Engine as _;
use chacha20poly1305::aead::Aead;
use chacha20poly1305::KeyInit;
use rand_core::RngCore;
use vstd::prelude::*;

verus! {

/// What `base64`'s standard engine makes of a text: the bytes, or the display text
/// of the decoding error.
pub uninterp spec fn b64_decoded(s: Seq<char>) -> Result<Seq<u8>, Seq<char>>;

/// What `base64`'s standard engine writes for some bytes.
pub uninterp spec fn b64_encoded(b: Seq<u8>) -> Seq<char>;

/// The X25519 public key of a secret.
pub uninterp spec fn x25519_public(secret: Seq<u8>) -> Seq<u8>;

/// The X25519 shared secret of a secret and a public key.
pub uninterp spec fn x25519_shared(secret: Seq<u8>, public: Seq<u8>) -> Seq<u8>;

/// What ChaCha20-Poly1305 makes of a key, a nonce and a message without
/// associated data: the ciphertext with the tag behind it.
pub uninterp spec fn chacha_sealed(key: Seq<u8>, nonce: Seq<u8>, message: Seq<u8>) -> Seq<u8>;

/// The most bytes that [`chacha_seal`] takes: the keystream has this many left behind
/// the block that keys the tag.
pub const MAX_MESSAGE: u64 = 274_877_906_816;

/// A character of the base64 alphabet, padding included.
pub open spec fn is_b64_char(c: char) -> bool {
    ||| 'A' <= c <= 'Z'
    ||| 'a' <= c <= 'z'
    ||| '0' <= c <= '9'
    ||| c == '+'
    ||| c == '/'
    ||| c == '='
}

/// The content of a decoding result.
pub open spec fn decoded_view(r: Result<Vec<u8>, String>) -> Result<Seq<u8>, Seq<char>> {
    match r {
        Ok(b) => Ok(b@),
        Err(e) => Err(e@),
    }
}

/// `base64::engine::general_purpose::STANDARD.encode`: standard alphabet with
/// padding. The text decodes back to the bytes, and holds characters of the
/// alphabet alone.
#[verifier::external_body]
pub(crate) fn b64_encode(data: &[u8]) -> (r: String)
    ensures
        r@ == b64_encoded(data@),
        b64_decoded(r@) is Ok && b64_decoded(r@)->Ok_0 == data@,
        forall|i: int| 0 <= i < r@.len() ==> is_b64_char(#[trigger] r@[i]),
{
    base64::engine::general_purpose::STANDARD.encode(data)
}

/// `base64::engine::general_purpose::STANDARD.decode`, with the error as the text
/// that it displays.
#[verifier::external_body]
pub(crate) fn b64_decode(s: &str) -> (r: Result<Vec<u8>, String>)
    ensures
        decoded_view(r) == b64_decoded(s@),
{
    base64::engine::general_purpose::STANDARD.decode(s).map_err(|e| e.to_string())
}

/// `rand_core::OsRng.fill_bytes` on an array: any bytes may come out. It panics
/// when the operating system has no randomness to give.
#[verifier::external_body]
pub(crate) fn random_array<const N: usize>() -> (r: [u8; N]) {
    let mut bytes = [0u8; N];
    rand_core::OsRng.fill_bytes(&mut bytes);
    bytes
}

/// `x25519_dalek::StaticSecret::random_from_rng` on the generator of the operating
/// system: any 32 bytes may come out.
#[verifier::external_body]
pub(crate) fn x25519_random_secret() -> (r: [u8; 32]) {
    x25519_dalek::StaticSecret::random_from_rng(rand_core::OsRng).to_bytes()
}

/// `x25519_dalek::PublicKey::from` on a secret.
#[verifier::external_body]
pub(crate) fn x25519_public_key(secret: &[u8; 32]) -> (r: [u8; 32])
    ensures
        r@ == x25519_public(secret@),
{
    x25519_dalek::PublicKey::from(&x25519_dalek::StaticSecret::from(*secret)).to_bytes()
}

/// `x25519_dalek::StaticSecret::diffie_hellman`.
#[verifier::external_body]
pub(crate) fn x25519_diffie_hellman(secret: &[u8; 32], public: &[u8; 32]) -> (r: [u8; 32])
    ensures
        r@ == x25519_shared(secret@, public@),
{
    x25519_dalek::StaticSecret::from(*secret).diffie_hellman(
        &x25519_dalek::PublicKey::from(*public),
    ).to_bytes()
}

/// `chacha20poly1305::ChaCha20Poly1305::encrypt` without associated data, on a message
/// that the keystream reaches for. It succeeds; the ciphertext is as long as the message
/// and the tag takes sixteen bytes.
#[verifier::external_body]
pub(crate) fn chacha_seal(key: &[u8; 32], nonce: &[u8; 12], message: &[u8]) -> (r: Option<Vec<u8>>)
    requires
        message@.len() <= MAX_MESSAGE,
    ensures
        r is Some,
        r->0@ == chacha_sealed(key@, nonce@, message@),
        r->0@.len() == message@.len() + 16,
{
    let cipher = chacha20poly1305::ChaCha20Poly1305::new(
        chacha20poly1305::Key::from_slice(key.as_slice()),
    );
    cipher.encrypt(chacha20poly1305::Nonce::from_slice(nonce.as_slice()), message).ok()
}

} // verus!
