//! The signed envelope of every request and reply.
//!
//! A sender hashes the fields that a message binds and encrypts the digest
//! to the recipient's public key. The recipient checks the sender's proof
//! of work, decrypts the signature with its own private key and compares
//! the plaintext with the digest it computes itself. A weak signature binds
//! the timestamp and the address; a strong one binds the payload too; a
//! reply also binds the digest of the request that it answers.

use vstd::prelude::*;
use vstd::string::StringSliceAdditionalSpecFns;
use crate::crypto::{
    append_bytes, rsa_block_len, sha256, sha256_digest, CryptoError, RSA_INPUT_MAX,
};
use crate::key::{be_bytes, decrypted_by, encrypt_message, fits_rsa, puzzle_holds, u64_be_bytes, verify_puzzle, NodeID, NodeValidator};

verus! {

/// Why a message was refused before it touched any state.
#[derive(Debug, Clone, Copy, PartialEq, Eq, Structural)]
pub enum InvalidMessage {
    /// The sender's identifier is malformed or fails the proof-of-work
    /// puzzle with the nonce it came with.
    IdentityInvalid,
    /// The signature does not decrypt to the digest of the message.
    SignatureInvalid,
    /// The key that the message names does not have 32 bytes.
    Malformed,
}

/// The envelope that every request and reply carries.
#[derive(Debug, Clone, PartialEq, Eq)]
pub struct Header {
    pub my_id: Vec<u8>,
    pub address: String,
    pub pub_key: Vec<u8>,
    pub nonce: u64,
    pub timestamp: u64,
    pub signature: Vec<u8>,
}

/// What a signature binds: the timestamp in big-endian bytes, the address,
/// the payload (empty for a weak signature) and the digest of the request
/// (empty for a request).
pub open spec fn signed_input(
    timestamp: u64,
    address: Seq<u8>,
    data: Seq<u8>,
    req_signature: Seq<u8>,
) -> Seq<u8> {
    be_bytes(timestamp) + address + data + req_signature
}

/// The first 32 bytes of a decrypted signature, or all of it where it is
/// shorter.
pub open spec fn truncated(buf: Seq<u8>) -> Seq<u8> {
    if buf.len() > 32 {
        buf.take(32)
    } else {
        buf
    }
}

/// The verdict on a header, for a recipient with the private key
/// `private_key` and the bytes `input` that the signature must bind: the
/// digest of `input` if the sender's identifier has 32 bytes and passes the
/// puzzle with its nonce, and the signature decrypts to that digest. A key
/// or a signature that is longer than RSA accepts counts as a signature
/// that does not decrypt.
pub open spec fn header_verdict(
    private_key: Seq<u8>,
    my_id: Seq<u8>,
    nonce: u64,
    signature: Seq<u8>,
    input: Seq<u8>,
) -> Result<Seq<u8>, InvalidMessage> {
    if my_id.len() != 32 || !puzzle_holds(my_id, nonce) {
        Err(InvalidMessage::IdentityInvalid)
    } else if !fits_rsa(private_key, signature) {
        Err(InvalidMessage::SignatureInvalid)
    } else {
        match decrypted_by(private_key, signature) {
            None => Err(InvalidMessage::SignatureInvalid),
            Some(buf) => if truncated(buf) == sha256(input) {
                Ok(sha256(input))
            } else {
                Err(InvalidMessage::SignatureInvalid)
            },
        }
    }
}

/// Why signing to `pub_key` fails where it fails: the key is longer than RSA
/// accepts, or OpenSSL refuses it.
pub open spec fn key_error(pub_key: Seq<u8>) -> CryptoError {
    if pub_key.len() > RSA_INPUT_MAX {
        CryptoError::TooLong
    } else {
        CryptoError::Refused
    }
}

/// Whether two byte strings are the same.
pub fn bytes_equal(a: &[u8], b: &[u8]) -> (same: bool)
    ensures
        same == (a@ == b@),
{
    if a.len() != b.len() {
        return false;
    }
    let mut i: usize = 0;
    while i < a.len()
        invariant
            0 <= i <= a@.len(),
            a@.len() == b@.len(),
            forall|m: int| 0 <= m < i ==> a@[m] == b@[m],
        decreases a@.len() - i,
    {
        if a[i] != b[i] {
            return false;
        }
        i += 1;
    }
    assert(a@ =~= b@);
    true
}

/// The digest of what a signature binds.
pub fn signed_digest(timestamp: u64, address: &str, data: &[u8], req_signature: &[u8]) -> (digest:
    Vec<u8>)
    ensures
        digest@ == sha256(signed_input(timestamp, address.spec_bytes(), data@, req_signature@)),
        digest@.len() == 32,
{
    let mut input = u64_be_bytes(timestamp);
    append_bytes(&mut input, address.as_bytes());
    append_bytes(&mut input, data);
    append_bytes(&mut input, req_signature);
    sha256_digest(input.as_slice())
}

/// The verdict on a header once its parts are known: whether the sender
/// passed the puzzle, what the signature decrypted to, and the digest that
/// the recipient expects.
pub fn judge(puzzle_ok: bool, decrypted: Result<Vec<u8>, CryptoError>, expected: Vec<u8>) -> (r:
    Result<Vec<u8>, InvalidMessage>)
    ensures
        !puzzle_ok ==> r == Err::<Vec<u8>, InvalidMessage>(InvalidMessage::IdentityInvalid),
        puzzle_ok ==> match decrypted {
            Ok(buf) => if truncated(buf@) == expected@ {
                r == Ok::<Vec<u8>, InvalidMessage>(expected)
            } else {
                r == Err::<Vec<u8>, InvalidMessage>(InvalidMessage::SignatureInvalid)
            },
            Err(_) => r == Err::<Vec<u8>, InvalidMessage>(InvalidMessage::SignatureInvalid),
        },
{
    if !puzzle_ok {
        return Err(InvalidMessage::IdentityInvalid);
    }
    match decrypted {
        Ok(buf) => {
            let mut signature = buf;
            signature.truncate(32);
            assert(signature@ =~= truncated(buf@));
            if bytes_equal(signature.as_slice(), expected.as_slice()) {
                Ok(expected)
            } else {
                Err(InvalidMessage::SignatureInvalid)
            }
        },
        Err(_) => Err(InvalidMessage::SignatureInvalid),
    }
}

/// The view of a verdict that holds bytes.
pub open spec fn verdict_view(r: Result<Vec<u8>, InvalidMessage>) -> Result<Seq<u8>, InvalidMessage> {
    match r {
        Ok(bytes) => Ok(bytes@),
        Err(e) => Err(e),
    }
}

/// Checks a header against the bytes that its signature must bind.
fn validate(
    validator: &NodeValidator,
    header: &Header,
    address: &str,
    data: &[u8],
    req_signature: &[u8],
) -> (r: Result<Vec<u8>, InvalidMessage>)
    ensures
        r matches Ok(digest) ==> digest@.len() == 32,
        verdict_view(r) == header_verdict(
            validator.spec_priv_key(),
            header.my_id@,
            header.nonce,
            header.signature@,
            signed_input(header.timestamp, address.spec_bytes(), data@, req_signature@),
        ),
{
    let puzzle_ok = match NodeID::from_slice(header.my_id.as_slice()) {
        Some(node_id) => verify_puzzle(node_id, header.nonce),
        None => false,
    };
    if !puzzle_ok {
        return Err(InvalidMessage::IdentityInvalid);
    }
    let decrypted = validator.decrypt(header.signature.as_slice());
    let expected = signed_digest(header.timestamp, address, data, req_signature);
    judge(puzzle_ok, decrypted, expected)
}

/// Signs and validates headers.
pub struct Signer {}

impl Signer {
    /// Signs a request that carries a payload: the digest of timestamp,
    /// address and payload, and that digest encrypted to `pub_key`, which
    /// gives a signature as long as the key's modulus.
    pub fn sign_strong_header_req(timestamp: u64, pub_key: &[u8], address: &str, data: &[u8]) -> (r:
        Result<(Vec<u8>, Vec<u8>), CryptoError>)
        ensures
            r matches Ok((digest, signature)) ==> digest@ == sha256(
                signed_input(timestamp, address.spec_bytes(), data@, Seq::<u8>::empty()),
            ) && signature@.len() == rsa_block_len(pub_key@),
            r matches Err(e) ==> e == key_error(pub_key@),
            pub_key@.len() > RSA_INPUT_MAX ==> r is Err,
    {
        let empty: Vec<u8> = Vec::new();
        let digest = signed_digest(timestamp, address, data, empty.as_slice());
        match encrypt_message(pub_key, digest.as_slice()) {
            Ok(signature) => Ok((digest, signature)),
            Err(e) => Err(e),
        }
    }

    /// Signs a reply that carries a payload: the digest of timestamp,
    /// address, payload and the request's digest, encrypted to `pub_key`,
    /// which gives a signature as long as the key's modulus.
    pub fn sign_strong_header_rep(
        timestamp: u64,
        pub_key: &[u8],
        address: &str,
        data: &[u8],
        rep_signature: &[u8],
    ) -> (r: Result<Vec<u8>, CryptoError>)
        ensures
            r matches Ok(signature) ==> signature@.len() == rsa_block_len(pub_key@),
            r matches Err(e) ==> e == key_error(pub_key@),
            pub_key@.len() > RSA_INPUT_MAX ==> r is Err,
    {
        let digest = signed_digest(timestamp, address, data, rep_signature);
        encrypt_message(pub_key, digest.as_slice())
    }

    /// Signs a request without payload: the digest of timestamp and
    /// address, and that digest encrypted to `pub_key`, which gives a
    /// signature as long as the key's modulus.
    pub fn sign_weak_header_req(timestamp: u64, pub_key: &[u8], address: &str) -> (r: Result<
        (Vec<u8>, Vec<u8>),
        CryptoError,
    >)
        ensures
            r matches Ok((digest, signature)) ==> digest@ == sha256(
                signed_input(
                    timestamp,
                    address.spec_bytes(),
                    Seq::<u8>::empty(),
                    Seq::<u8>::empty(),
                ),
            ) && signature@.len() == rsa_block_len(pub_key@),
            r matches Err(e) ==> e == key_error(pub_key@),
            pub_key@.len() > RSA_INPUT_MAX ==> r is Err,
    {
        let empty: Vec<u8> = Vec::new();
        let digest = signed_digest(timestamp, address, empty.as_slice(), empty.as_slice());
        match encrypt_message(pub_key, digest.as_slice()) {
            Ok(signature) => Ok((digest, signature)),
            Err(e) => Err(e),
        }
    }

    /// Signs a reply without payload: the digest of timestamp, address and
    /// the request's digest, encrypted to `pub_key`, which gives a
    /// signature as long as the key's modulus.
    pub fn sign_weak_header_rep(
        timestamp: u64,
        pub_key: &[u8],
        address: &str,
        rep_signature: &[u8],
    ) -> (r: Result<Vec<u8>, CryptoError>)
        ensures
            r matches Ok(signature) ==> signature@.len() == rsa_block_len(pub_key@),
            r matches Err(e) ==> e == key_error(pub_key@),
            pub_key@.len() > RSA_INPUT_MAX ==> r is Err,
    {
        let empty: Vec<u8> = Vec::new();
        let digest = signed_digest(timestamp, address, empty.as_slice(), rep_signature);
        encrypt_message(pub_key, digest.as_slice())
    }

    /// Validates the header of a request without payload, and hands out the
    /// request's digest for the reply to bind.
    pub fn validate_weak_req(validator: &NodeValidator, header: &Header, address: &str) -> (r:
        Result<Vec<u8>, InvalidMessage>)
        ensures
            r matches Ok(digest) ==> digest@.len() == 32,
            verdict_view(r) == header_verdict(
                validator.spec_priv_key(),
                header.my_id@,
                header.nonce,
                header.signature@,
                signed_input(
                    header.timestamp,
                    address.spec_bytes(),
                    Seq::<u8>::empty(),
                    Seq::<u8>::empty(),
                ),
            ),
    {
        let empty: Vec<u8> = Vec::new();
        validate(validator, header, address, empty.as_slice(), empty.as_slice())
    }

    /// Validates the header of a reply without payload to the request with
    /// the digest `req_signature`.
    pub fn validate_weak_rep(
        validator: &NodeValidator,
        header: &Header,
        address: &str,
        req_signature: &[u8],
    ) -> (r: Result<(), InvalidMessage>)
        ensures
            match header_verdict(
                validator.spec_priv_key(),
                header.my_id@,
                header.nonce,
                header.signature@,
                signed_input(
                    header.timestamp,
                    address.spec_bytes(),
                    Seq::<u8>::empty(),
                    req_signature@,
                ),
            ) {
                Ok(_) => r == Ok::<(), InvalidMessage>(()),
                Err(e) => r == Err::<(), InvalidMessage>(e),
            },
    {
        let empty: Vec<u8> = Vec::new();
        match validate(validator, header, address, empty.as_slice(), req_signature) {
            Ok(_) => Ok(()),
            Err(e) => Err(e),
        }
    }

    /// Validates the header of a reply with the payload `data` to the
    /// request with the digest `req_signature`.
    pub fn validate_strong_rep(
        validator: &NodeValidator,
        header: &Header,
        address: &str,
        data: &[u8],
        req_signature: &[u8],
    ) -> (r: Result<(), InvalidMessage>)
        ensures
            match header_verdict(
                validator.spec_priv_key(),
                header.my_id@,
                header.nonce,
                header.signature@,
                signed_input(header.timestamp, address.spec_bytes(), data@, req_signature@),
            ) {
                Ok(_) => r == Ok::<(), InvalidMessage>(()),
                Err(e) => r == Err::<(), InvalidMessage>(e),
            },
    {
        match validate(validator, header, address, data, req_signature) {
            Ok(_) => Ok(()),
            Err(e) => Err(e),
        }
    }

    /// Validates the header of a request with the payload `data`, and hands
    /// out the request's digest for the reply to bind.
    pub fn validate_strong_req(
        validator: &NodeValidator,
        header: &Header,
        address: &str,
        data: &[u8],
    ) -> (r: Result<Vec<u8>, InvalidMessage>)
        ensures
            r matches Ok(digest) ==> digest@.len() == 32,
            verdict_view(r) == header_verdict(
                validator.spec_priv_key(),
                header.my_id@,
                header.nonce,
                header.signature@,
                signed_input(header.timestamp, address.spec_bytes(), data@, Seq::<u8>::empty()),
            ),
    {
        let empty: Vec<u8> = Vec::new();
        validate(validator, header, address, data, empty.as_slice())
    }
}

/// A header whose sender passed the puzzle, and whose
/// signature decrypts under the recipient's key to the digest of exactly
/// the fields that the recipient holds, is accepted with that digest; one
/// whose signature decrypts to anything else is refused.
pub proof fn lemma_round_trip(
    private_key: Seq<u8>,
    my_id: Seq<u8>,
    nonce: u64,
    signature: Seq<u8>,
    input: Seq<u8>,
    plain: Seq<u8>,
)
    requires
        my_id.len() == 32,
        puzzle_holds(my_id, nonce),
        fits_rsa(private_key, signature),
        decrypted_by(private_key, signature) == Some(plain),
    ensures
        truncated(plain) == sha256(input) ==> header_verdict(
            private_key,
            my_id,
            nonce,
            signature,
            input,
        ) == Ok::<Seq<u8>, InvalidMessage>(sha256(input)),
        truncated(plain) != sha256(input) ==> header_verdict(
            private_key,
            my_id,
            nonce,
            signature,
            input,
        ) == Err::<Seq<u8>, InvalidMessage>(InvalidMessage::SignatureInvalid),
{
}

} // verus!
