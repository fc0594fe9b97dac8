use kad_dht::crypto::{append_bytes, rsa_outcome, CryptoError};
use kad_dht::key::{encrypt_message, solve_puzzle, verify_puzzle, NodeID, NodeValidator};
use kad_dht::signatures::{bytes_equal, judge, signed_digest, Header, InvalidMessage, Signer};
use openssl::rsa::Rsa;
use openssl::symm::Cipher;
use sha2::{Digest, Sha256};

fn fresh_keys() -> (Vec<u8>, Vec<u8>) {
    let rsa = Rsa::generate(2048).expect("a key pair");
    let public = rsa.public_key_to_pem().expect("a public key");
    let private = rsa
        .private_key_to_pem_passphrase(Cipher::aes_128_cbc(), b" ")
        .expect("a private key");
    (public, private)
}

fn sender_identity() -> (NodeID, u64) {
    let mut bytes = [0u8; 32];
    bytes[3] = 0x77;
    let id = NodeID(bytes);
    let nonce = solve_puzzle(id, 10_000_000).expect("a nonce");
    (id, nonce)
}

fn recipient(private: Vec<u8>, public: Vec<u8>) -> NodeValidator {
    NodeValidator::from_parts(NodeID([9u8; 32]), public, private, 0)
}

fn header_with(id: NodeID, nonce: u64, timestamp: u64, signature: Vec<u8>) -> Header {
    Header {
        my_id: id.0.to_vec(),
        address: "10.0.0.1:4000".to_string(),
        pub_key: vec![],
        nonce,
        timestamp,
        signature,
    }
}

#[test]
fn signed_digest_is_the_hash_of_the_fields() {
    let mut hasher = Sha256::new();
    hasher.update(77u64.to_be_bytes());
    hasher.update(b"10.0.0.2:9");
    hasher.update([1u8, 2, 3]);
    hasher.update([9u8, 9]);
    let expected = hasher.finalize().to_vec();
    assert_eq!(signed_digest(77, "10.0.0.2:9", &[1, 2, 3], &[9, 9]), expected);
    assert_ne!(signed_digest(78, "10.0.0.2:9", &[1, 2, 3], &[9, 9]), expected);
    let weak = Sha256::digest([&5u64.to_be_bytes()[..], b"a"].concat()).to_vec();
    assert_eq!(signed_digest(5, "a", &[], &[]), weak);
}

#[test]
fn rsa_outcomes_are_mapped() {
    assert_eq!(rsa_outcome(Ok(vec![1, 2, 3])), Ok(vec![1, 2, 3]));
    assert_eq!(rsa_outcome(Err(openssl::error::ErrorStack::get())), Err(CryptoError::Refused));
    let mut out = vec![1u8];
    append_bytes(&mut out, &[2, 3]);
    append_bytes(&mut out, &[]);
    assert_eq!(out, vec![1, 2, 3]);
}

#[test]
fn bytes_equal_compares() {
    assert!(bytes_equal(&[], &[]));
    assert!(bytes_equal(&[1, 2], &[1, 2]));
    assert!(!bytes_equal(&[1, 2], &[1, 3]));
    assert!(!bytes_equal(&[1, 2], &[1, 2, 3]));
}

#[test]
fn judge_follows_the_policy() {
    let digest = vec![7u8; 32];
    let mut padded = digest.clone();
    padded.extend_from_slice(&[0u8; 224]);
    assert_eq!(judge(true, Ok(padded.clone()), digest.clone()), Ok(digest.clone()));
    assert_eq!(
        judge(false, Ok(padded.clone()), digest.clone()),
        Err(InvalidMessage::IdentityInvalid)
    );
    assert_eq!(
        judge(true, Err(CryptoError::Refused), digest.clone()),
        Err(InvalidMessage::SignatureInvalid)
    );
    let mut wrong = padded.clone();
    wrong[31] ^= 1;
    assert_eq!(judge(true, Ok(wrong), digest.clone()), Err(InvalidMessage::SignatureInvalid));
    assert_eq!(
        judge(true, Ok(vec![7u8; 31]), digest.clone()),
        Err(InvalidMessage::SignatureInvalid)
    );
    assert_eq!(judge(true, Ok(digest.clone()), digest.clone()), Ok(digest));
}

#[test]
fn encrypt_and_decrypt_round_trip() {
    let (public, private) = fresh_keys();
    let v = recipient(private, public.clone());
    let message = vec![0xabu8; 32];
    let sealed = encrypt_message(&public, &message).expect("a ciphertext");
    assert_eq!(sealed.len(), 256);
    assert_ne!(&sealed[..32], &message[..]);
    let opened = v.decrypt(&sealed).expect("a plaintext");
    assert_eq!(opened.len(), 256);
    assert_eq!(&opened[..32], &message[..]);
    assert!(opened[32..].iter().all(|b| *b == 0));
}

#[test]
fn ciphertext_is_as_long_as_the_modulus() {
    let small = Rsa::generate(1024).expect("a key pair").public_key_to_pem().expect("a key");
    let large = Rsa::generate(2048).expect("a key pair").public_key_to_pem().expect("a key");
    assert_eq!(encrypt_message(&small, &[1u8; 32]).expect("a ciphertext").len(), 128);
    assert_eq!(encrypt_message(&large, &[1u8; 32]).expect("a ciphertext").len(), 256);
    assert_eq!(encrypt_message(&large, &[]).expect("a ciphertext").len(), 256);
    let (_, signature) = Signer::sign_weak_header_req(1, &small, "a:1").expect("signed");
    assert_eq!(signature.len(), 128);
}

#[test]
fn encrypt_refuses_a_bad_key() {
    assert_eq!(encrypt_message(b"not a key", &[1, 2, 3]), Err(CryptoError::Refused));
}

#[test]
fn decrypt_refuses_garbage() {
    let (public, private) = fresh_keys();
    let v = recipient(private, public);
    assert_eq!(v.decrypt(&[1, 2, 3]), Err(CryptoError::Refused));
    let no_key = NodeValidator::from_parts(NodeID([0u8; 32]), vec![], vec![], 0);
    assert_eq!(no_key.decrypt(&[0u8; 256]), Err(CryptoError::Refused));
}

#[test]
fn strong_request_round_trip() {
    let (public, private) = fresh_keys();
    let v = recipient(private, public.clone());
    let (id, nonce) = sender_identity();
    let payload = vec![1u8, 2, 3, 4, 5];
    let address = "10.0.0.1:4000";
    let (digest, signature) =
        Signer::sign_strong_header_req(1234, &public, address, &payload).expect("a signature");
    assert_eq!(signature.len(), 256);
    assert_eq!(digest.len(), 32);
    let header = header_with(id, nonce, 1234, signature.clone());
    assert_eq!(Signer::validate_strong_req(&v, &header, address, &payload), Ok(digest.clone()));

    let mut altered = payload.clone();
    altered[2] ^= 0x01;
    assert_eq!(
        Signer::validate_strong_req(&v, &header, address, &altered),
        Err(InvalidMessage::SignatureInvalid)
    );
    assert_eq!(
        Signer::validate_strong_req(&v, &header, "10.0.0.1:4001", &payload),
        Err(InvalidMessage::SignatureInvalid)
    );
    let late = header_with(id, nonce, 1235, signature.clone());
    assert_eq!(
        Signer::validate_strong_req(&v, &late, address, &payload),
        Err(InvalidMessage::SignatureInvalid)
    );
    let mut bad_nonce = nonce + 1;
    while verify_puzzle(id, bad_nonce) {
        bad_nonce += 1;
    }
    let forged = header_with(id, bad_nonce, 1234, signature.clone());
    assert_eq!(
        Signer::validate_strong_req(&v, &forged, address, &payload),
        Err(InvalidMessage::IdentityInvalid)
    );
    let mut short = header_with(id, nonce, 1234, signature);
    short.my_id.pop();
    assert_eq!(
        Signer::validate_strong_req(&v, &short, address, &payload),
        Err(InvalidMessage::IdentityInvalid)
    );
}

#[test]
fn strong_reply_round_trip() {
    let (public, private) = fresh_keys();
    let v = recipient(private, public.clone());
    let (id, nonce) = sender_identity();
    let address = "10.0.0.9:1";
    let payload = vec![42u8; 100];
    let (req_digest, req_signature) =
        Signer::sign_strong_header_req(7, &public, address, &payload).expect("a signature");
    let request = header_with(id, nonce, 7, req_signature);
    let bound = Signer::validate_strong_req(&v, &request, address, &payload).expect("accepted");
    assert_eq!(bound, req_digest);

    let reply_data = vec![5u8, 6, 7];
    let reply_signature =
        Signer::sign_strong_header_rep(8, &public, address, &reply_data, &bound).expect("signed");
    assert_eq!(reply_signature.len(), 256);
    let reply = header_with(id, nonce, 8, reply_signature);
    assert_eq!(Signer::validate_strong_rep(&v, &reply, address, &reply_data, &bound), Ok(()));

    let mut altered = reply_data.clone();
    altered[0] ^= 0x80;
    assert_eq!(
        Signer::validate_strong_rep(&v, &reply, address, &altered, &bound),
        Err(InvalidMessage::SignatureInvalid)
    );
    assert_eq!(
        Signer::validate_strong_rep(&v, &reply, "10.0.0.9:2", &reply_data, &bound),
        Err(InvalidMessage::SignatureInvalid)
    );
    let mut other_request = bound.clone();
    other_request[0] ^= 1;
    assert_eq!(
        Signer::validate_strong_rep(&v, &reply, address, &reply_data, &other_request),
        Err(InvalidMessage::SignatureInvalid)
    );
    let mut stamped = reply.clone();
    stamped.timestamp = 9;
    assert_eq!(
        Signer::validate_strong_rep(&v, &stamped, address, &reply_data, &bound),
        Err(InvalidMessage::SignatureInvalid)
    );
}

#[test]
fn weak_round_trip() {
    let (public, private) = fresh_keys();
    let v = recipient(private, public.clone());
    let (id, nonce) = sender_identity();
    let address = "192.168.1.1:80";
    let (digest, signature) =
        Signer::sign_weak_header_req(55, &public, address).expect("a signature");
    assert_eq!(digest, signed_digest(55, address, &[], &[]));
    let header = header_with(id, nonce, 55, signature);
    assert_eq!(Signer::validate_weak_req(&v, &header, address), Ok(digest.clone()));
    assert_eq!(
        Signer::validate_weak_req(&v, &header, "192.168.1.1:81"),
        Err(InvalidMessage::SignatureInvalid)
    );
    assert_eq!(
        Signer::validate_strong_req(&v, &header, address, &[0]),
        Err(InvalidMessage::SignatureInvalid)
    );

    let reply_signature =
        Signer::sign_weak_header_rep(56, &public, address, &digest).expect("signed");
    assert_eq!(reply_signature.len(), 256);
    assert_ne!(reply_signature, digest);
    let reply = header_with(id, nonce, 56, reply_signature);
    assert_eq!(Signer::validate_weak_rep(&v, &reply, address, &digest), Ok(()));
    assert_eq!(
        Signer::validate_weak_rep(&v, &reply, address, &[0u8; 32]),
        Err(InvalidMessage::SignatureInvalid)
    );
    assert_eq!(
        Signer::validate_weak_req(&v, &reply, address),
        Err(InvalidMessage::SignatureInvalid)
    );
}

#[test]
fn another_key_does_not_validate() {
    let (public, _) = fresh_keys();
    let (other_public, other_private) = fresh_keys();
    let stranger = recipient(other_private, other_public);
    let (id, nonce) = sender_identity();
    let (_, signature) = Signer::sign_weak_header_req(1, &public, "a:1").expect("a signature");
    let header = header_with(id, nonce, 1, signature);
    assert_eq!(
        Signer::validate_weak_req(&stranger, &header, "a:1"),
        Err(InvalidMessage::SignatureInvalid)
    );
}

#[test]
fn signing_with_a_bad_key_is_refused() {
    assert_eq!(Signer::sign_weak_header_req(1, b"junk", "a:1"), Err(CryptoError::Refused));
    assert_eq!(Signer::sign_strong_header_req(1, b"junk", "a:1", &[1]), Err(CryptoError::Refused));
    assert_eq!(Signer::sign_weak_header_rep(1, b"junk", "a:1", &[1]), Err(CryptoError::Refused));
    assert_eq!(
        Signer::sign_strong_header_rep(1, b"junk", "a:1", &[1], &[2]),
        Err(CryptoError::Refused)
    );
}
