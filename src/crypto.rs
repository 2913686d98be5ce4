use vstd::prelude::*;

use chacha20poly1305::aead::{Aead, KeyInit};

use crate::frame::FrameError;

verus! {

/// Length of the authentication tag that sealing appends.
pub const TAG_LEN: usize = 16;

/// Shortest plaintext the cipher cannot take: after key setup its 32-bit
/// block counter stands at 1, which leaves 2^32 - 2 blocks of 64 bytes.
pub const MAX_SEAL_LEN: u64 = 274877906817;

/// XChaCha20-Poly1305 ciphertext of `plaintext` under `key` and `nonce`,
/// with no associated data.
pub uninterp spec fn xchacha_sealed(key: Seq<u8>, nonce: Seq<u8>, plaintext: Seq<u8>) -> Seq<u8>;

/// XChaCha20-Poly1305 plaintext of an authentic `ciphertext` under `key`
/// and `nonce`, with no associated data.
pub uninterp spec fn xchacha_opened(key: Seq<u8>, nonce: Seq<u8>, ciphertext: Seq<u8>) -> Seq<u8>;

/// Relies on `Aead::encrypt` of `chacha20poly1305::XChaCha20Poly1305`: the
/// ciphertext followed by a 16-byte tag. On a plaintext of `MAX_SEAL_LEN`
/// bytes or more the cipher runs out of keystream (and may panic), so such
/// a plaintext is not admitted; every other one is sealed.
#[verifier::external_body]
pub fn seal_xchacha(key: &[u8; 32], nonce: &[u8; 24], plaintext: &[u8]) -> (r: Result<
    Vec<u8>,
    FrameError,
>)
    requires
        plaintext@.len() < MAX_SEAL_LEN,
    ensures
        r matches Ok(v) ==> v@ == xchacha_sealed(key@, nonce@, plaintext@) && v@.len()
            == plaintext@.len() + TAG_LEN,
        r is Ok,
{
    let cipher = chacha20poly1305::XChaCha20Poly1305::new(key.into());
    #[allow(deprecated)]
    match cipher.encrypt(chacha20poly1305::XNonce::from_slice(nonce), plaintext) {
        Ok(v) => Ok(v),
        Err(_) => Err(FrameError::PayloadTransformFailure),
    }
}

/// Relies on `Aead::decrypt` of `chacha20poly1305::XChaCha20Poly1305`: the
/// plaintext when the tag authenticates the ciphertext, else an error. What
/// sealing made of a plaintext under the same key and nonce opens to that
/// plaintext. A ciphertext whose body is `MAX_SEAL_LEN` bytes or more would
/// run the cipher out of keystream, so it is not admitted.
#[verifier::external_body]
pub fn open_xchacha(key: &[u8; 32], nonce: &[u8; 24], ciphertext: &[u8]) -> (r: Result<
    Vec<u8>,
    FrameError,
>)
    requires
        ciphertext@.len() < MAX_SEAL_LEN + TAG_LEN,
    ensures
        r matches Ok(v) ==> v@ == xchacha_opened(key@, nonce@, ciphertext@) && v@.len() + TAG_LEN
            == ciphertext@.len(),
        r matches Err(e) ==> e == FrameError::PayloadTransformFailure,
        r is Err ==> forall|p: Seq<u8>|
            #[trigger] xchacha_sealed(key@, nonce@, p) == ciphertext@ ==> p.len() >= MAX_SEAL_LEN,
        r matches Ok(v) ==> forall|p: Seq<u8>|
            #[trigger] xchacha_sealed(key@, nonce@, p) == ciphertext@ && p.len() < MAX_SEAL_LEN
                ==> v@ == p,
{
    let cipher = chacha20poly1305::XChaCha20Poly1305::new(key.into());
    #[allow(deprecated)]
    match cipher.decrypt(chacha20poly1305::XNonce::from_slice(nonce), ciphertext) {
        Ok(v) => Ok(v),
        Err(_) => Err(FrameError::PayloadTransformFailure),
    }
}

} // verus!
