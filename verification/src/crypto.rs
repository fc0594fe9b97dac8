//! The outside primitives the engine rests on: SHA-256, RSA with PKCS#1
//! v1.5 padding, and a source of random numbers. The calls into OpenSSL and
//! rand are taken on trust; each says what it claims.

use vstd::prelude::*;
use openssl::error::ErrorStack;
use openssl::rsa::{Padding, Rsa};
use openssl::sha::Sha256;
use openssl::symm::Cipher;
use rand::Rng;

verus! {

/// The error list that a failed OpenSSL call hands back.
#[verifier::external_type_specification]
#[verifier::external_body]
pub struct ExErrorStack(ErrorStack);

/// Why an RSA operation gave no result.
#[derive(Debug, Clone, Copy, PartialEq, Eq, Structural)]
pub enum CryptoError {
    /// The key or the input is longer than OpenSSL takes (`i32::MAX`
    /// bytes).
    TooLong,
    /// OpenSSL refused the key or the input.
    Refused,
}

/// Longest key in PEM form, and longest input, in bytes, that the RSA calls
/// accept.
pub const RSA_INPUT_MAX: usize = 0x7fff_ffff;

/// The SHA-256 digest of a byte string.
pub uninterp spec fn sha256(data: Seq<u8>) -> Seq<u8>;

/// What RSA decryption with PKCS#1 v1.5 padding yields for a private key in
/// PEM form, the passphrase that the PEM is encrypted under, and a
/// ciphertext: a buffer as long as the key's modulus that starts with the
/// plaintext and is zero after it, or nothing where the key or the
/// ciphertext is refused.
pub uninterp spec fn rsa_decrypted(pem: Seq<u8>, passphrase: Seq<u8>, encrypted: Seq<u8>) -> Option<Seq<u8>>;

/// The size in bytes of the modulus of the RSA public key in `public_pem`,
/// which is the length of every ciphertext made with that key.
pub uninterp spec fn rsa_block_len(public_pem: Seq<u8>) -> nat;

/// Feeds `data` to `openssl::sha::Sha256` (`new`, `update`, `finish`). The
/// digest is a function of the bytes alone and is 32 bytes long.
#[verifier::external_body]
pub(crate) fn sha256_digest(data: &[u8]) -> (out: Vec<u8>)
    ensures
        out@ == sha256(data@),
        out@.len() == 32,
{
    let mut hasher = Sha256::new();
    hasher.update(data);
    hasher.finish().to_vec()
}

/// Draws a 64-bit number from `rand::thread_rng()`. Nothing is claimed of
/// the number.
#[verifier::external_body]
pub(crate) fn random_u64() -> u64 {
    rand::thread_rng().gen()
}

/// Reads the RSA public key in `public_pem` with `Rsa::public_key_from_pem`
/// and encrypts `message` with `Rsa::public_encrypt` and PKCS#1 v1.5
/// padding, into a buffer of `Rsa::size` bytes. The padding is random, so
/// of the ciphertext only its length is claimed: the size of the key's
/// modulus. Reading the key panics on a PEM of more than `i32::MAX` bytes,
/// and so does encrypting a message of that length.
#[verifier::external_body]
pub(crate) fn rsa_public_encrypt(public_pem: &[u8], message: &[u8]) -> (r: Result<
    Vec<u8>,
    ErrorStack,
>)
    requires
        public_pem@.len() <= 0x7fff_ffff,
        message@.len() <= 0x7fff_ffff,
    ensures
        r matches Ok(buf) ==> buf@.len() == rsa_block_len(public_pem@),
{
    let key = Rsa::public_key_from_pem(public_pem)?;
    let mut buf: Vec<u8> = vec![0; key.size() as usize];
    key.public_encrypt(message, &mut buf, Padding::PKCS1)?;
    Ok(buf)
}

/// Reads the RSA private key in `private_pem` with
/// `Rsa::private_key_from_pem_passphrase` and decrypts `encrypted` with
/// `Rsa::private_decrypt` and PKCS#1 v1.5 padding, into a zeroed buffer as
/// long as the modulus. Decryption depends on the key, the passphrase and
/// the ciphertext alone: the contract gives its outcome a name and claims
/// no more. Reading the key panics on a PEM of more than `i32::MAX` bytes
/// and on a passphrase that holds a zero byte; decrypting panics on a
/// ciphertext of more than `i32::MAX` bytes.
#[verifier::external_body]
pub(crate) fn rsa_private_decrypt(private_pem: &[u8], passphrase: &[u8], encrypted: &[u8]) -> (r:
    Result<Vec<u8>, ErrorStack>)
    requires
        private_pem@.len() <= 0x7fff_ffff,
        forall|i: int| 0 <= i < passphrase@.len() ==> passphrase@[i] != 0,
        encrypted@.len() <= 0x7fff_ffff,
    ensures
        match r {
            Ok(buf) => rsa_decrypted(private_pem@, passphrase@, encrypted@) == Some(buf@),
            Err(_) => rsa_decrypted(private_pem@, passphrase@, encrypted@) is None,
        },
{
    let key = Rsa::private_key_from_pem_passphrase(private_pem, passphrase)?;
    let mut buf: Vec<u8> = vec![0; key.size() as usize];
    key.private_decrypt(encrypted, &mut buf, Padding::PKCS1)?;
    Ok(buf)
}

/// Generates an RSA key pair of `bits` bits with `Rsa::generate` and hands
/// out the public key in PEM form and the private key in PEM form, encrypted
/// with AES-128-CBC under `passphrase`. Nothing is claimed of the keys.
/// Writing the private key panics on a passphrase of more than `i32::MAX`
/// bytes.
#[verifier::external_body]
pub(crate) fn rsa_generate_pem(bits: u32, passphrase: &[u8]) -> Result<
    (Vec<u8>, Vec<u8>),
    ErrorStack,
>
    requires
        passphrase@.len() <= 0x7fff_ffff,
{
    let rsa = Rsa::generate(bits)?;
    let public_pem = rsa.public_key_to_pem()?;
    let private_pem = rsa.private_key_to_pem_passphrase(Cipher::aes_128_cbc(), passphrase)?;
    Ok((public_pem, private_pem))
}

/// Turns the outcome of an RSA call into the library's own terms: the
/// bytes as they are, any OpenSSL error as `Refused`.
pub fn rsa_outcome(outcome: Result<Vec<u8>, ErrorStack>) -> (r: Result<Vec<u8>, CryptoError>)
    ensures
        match outcome {
            Ok(bytes) => r == Ok::<Vec<u8>, CryptoError>(bytes),
            Err(_) => r == Err::<Vec<u8>, CryptoError>(CryptoError::Refused),
        },
{
    match outcome {
        Ok(bytes) => Ok(bytes),
        Err(_) => Err(CryptoError::Refused),
    }
}

/// Appends `src` to `out`.
pub fn append_bytes(out: &mut Vec<u8>, src: &[u8])
    ensures
        final(out)@ == old(out)@ + src@,
{
    let mut i: usize = 0;
    while i < src.len()
        invariant
            0 <= i <= src@.len(),
            out@ == old(out)@ + src@.subrange(0, i as int),
        decreases src@.len() - i,
    {
        out.push(src[i]);
        i += 1;
        assert(out@ =~= old(out)@ + src@.subrange(0, i as int));
    }
    assert(src@.subrange(0, i as int) =~= src@);
}

} // verus!
