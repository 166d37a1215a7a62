use chain_signer::error::Error;
use chain_signer::multi_sig::{
    add_nonce, add_nonce_commitment, add_partial_signature, generate_nonce,
    generate_nonce_commitment, new_session, partial_sign, sign, verify, MultiSigSession,
};

fn public_key(secret: &[u8; 32]) -> Vec<u8> {
    let secp = secp256k1::Secp256k1::new();
    let sk = secp256k1::SecretKey::from_slice(secret).unwrap();
    secp256k1::PublicKey::from_secret_key(&secp, &sk).serialize().to_vec()
}

fn uncompressed_public_key(secret: &[u8; 32]) -> Vec<u8> {
    let secp = secp256k1::Secp256k1::new();
    let sk = secp256k1::SecretKey::from_slice(secret).unwrap();
    secp256k1::PublicKey::from_secret_key(&secp, &sk).serialize_uncompressed().to_vec()
}

const SK_A: [u8; 32] = [0x11; 32];
const SK_B: [u8; 32] = [0x22; 32];
const SK_C: [u8; 32] = [0x33; 32];
const MESSAGE: [u8; 32] = [0x5a; 32];

/// Runs the whole protocol between two participants; returns both final signatures.
fn two_party_signatures(message: &[u8]) -> (Vec<u8>, Vec<u8>) {
    let pk_a = public_key(&SK_A);
    let pk_b = public_key(&SK_B);
    let keys = vec![pk_a.clone(), pk_b.clone()];

    let a = new_session(message, &keys, &pk_a, &SK_A, &[1u8; 32]).unwrap();
    let b = new_session(message, &keys, &pk_b, &SK_B, &[2u8; 32]).unwrap();

    let (a, commit_a) = generate_nonce_commitment(&a).unwrap();
    let (b, commit_b) = generate_nonce_commitment(&b).unwrap();
    let a = add_nonce_commitment(&a, &pk_b, &commit_b).unwrap();
    let b = add_nonce_commitment(&b, &pk_a, &commit_a).unwrap();

    let (a, nonce_a) = generate_nonce(&a).unwrap();
    let (b, nonce_b) = generate_nonce(&b).unwrap();
    let a = add_nonce(&a, &pk_b, &nonce_b).unwrap();
    let b = add_nonce(&b, &pk_a, &nonce_a).unwrap();

    let (a, partial_a) = partial_sign(&a).unwrap();
    let (b, partial_b) = partial_sign(&b).unwrap();
    let a = add_partial_signature(&a, &pk_b, &partial_b).unwrap();
    let b = add_partial_signature(&b, &pk_a, &partial_a).unwrap();

    (sign(&a).unwrap(), sign(&b).unwrap())
}

#[test]
fn two_of_two_signature_verifies() {
    let (sig_a, sig_b) = two_party_signatures(&MESSAGE);
    assert_eq!(sig_a, sig_b);
    assert_eq!(sig_a.len(), 64);
    let keys = vec![public_key(&SK_A), public_key(&SK_B)];
    assert_eq!(verify(&sig_a, &MESSAGE, &keys), Ok(true));
    let mut flipped = MESSAGE;
    flipped[0] ^= 1;
    assert_eq!(verify(&sig_a, &flipped, &keys), Ok(false));
}

#[test]
fn verify_ignores_key_order_and_encoding() {
    let (sig, _) = two_party_signatures(&MESSAGE);
    let forward = vec![public_key(&SK_A), public_key(&SK_B)];
    let backward = vec![public_key(&SK_B), public_key(&SK_A)];
    let mixed = vec![uncompressed_public_key(&SK_B), public_key(&SK_A)];
    assert_eq!(verify(&sig, &MESSAGE, &forward), Ok(true));
    assert_eq!(verify(&sig, &MESSAGE, &backward), Ok(true));
    assert_eq!(verify(&sig, &MESSAGE, &mixed), Ok(true));
    let wrong = vec![public_key(&SK_A), public_key(&SK_C)];
    assert_eq!(verify(&sig, &MESSAGE, &wrong), Ok(false));
}

#[test]
fn verify_rejects_malformed_inputs() {
    let keys = vec![public_key(&SK_A)];
    assert_eq!(verify(&[0u8; 63], &MESSAGE, &keys), Err(Error::DecodingError));
    assert_eq!(verify(&[0u8; 64], &[0u8; 31], &keys), Err(Error::DecodingError));
    assert_eq!(verify(&[0u8; 64], &MESSAGE, &vec![vec![7u8; 33]]), Err(Error::DecodingError));
    assert_eq!(verify(&[0u8; 64], &MESSAGE, &vec![]), Err(Error::InvalidArgument));
}

#[test]
fn single_signer_session_matches_verify() {
    let pk_a = public_key(&SK_A);
    let keys = vec![pk_a.clone()];
    let s = new_session(&MESSAGE, &keys, &pk_a, &SK_A, &[9u8; 32]).unwrap();
    let (s, _) = generate_nonce_commitment(&s).unwrap();
    let (s, _) = generate_nonce(&s).unwrap();
    let (s, _) = partial_sign(&s).unwrap();
    let sig = sign(&s).unwrap();
    assert_eq!(verify(&sig, &MESSAGE, &keys), Ok(true));
}

#[test]
fn nonce_commitment_is_stable() {
    let pk_a = public_key(&SK_A);
    let keys = vec![pk_a.clone(), public_key(&SK_B)];
    let s = new_session(&MESSAGE, &keys, &pk_a, &SK_A, &[1u8; 32]).unwrap();
    let (s1, c1) = generate_nonce_commitment(&s).unwrap();
    let (_, c2) = generate_nonce_commitment(&s1).unwrap();
    assert_eq!(c1, c2);
    assert_eq!(c1.len(), 32);
}

#[test]
fn new_session_errors() {
    let pk_a = public_key(&SK_A);
    let pk_b = public_key(&SK_B);
    let pk_c = public_key(&SK_C);
    let keys = vec![pk_a.clone(), pk_b.clone()];
    assert_eq!(new_session(&[0u8; 31], &keys, &pk_a, &SK_A, &[1u8; 32]), Err(Error::DecodingError));
    assert_eq!(
        new_session(&MESSAGE, &vec![vec![1u8; 33]], &pk_a, &SK_A, &[1u8; 32]),
        Err(Error::DecodingError)
    );
    assert_eq!(new_session(&MESSAGE, &keys, &pk_a, &[0u8; 32], &[1u8; 32]), Err(Error::DecodingError));
    assert_eq!(new_session(&MESSAGE, &keys, &pk_c, &SK_C, &[1u8; 32]), Err(Error::InvalidArgument));
    let dup = vec![pk_a.clone(), pk_a.clone()];
    assert_eq!(new_session(&MESSAGE, &dup, &pk_a, &SK_A, &[1u8; 32]), Err(Error::InvalidArgument));
}

#[test]
fn nonce_needs_every_commitment() {
    let pk_a = public_key(&SK_A);
    let keys = vec![pk_a.clone(), public_key(&SK_B)];
    let s = new_session(&MESSAGE, &keys, &pk_a, &SK_A, &[1u8; 32]).unwrap();
    let (s, _) = generate_nonce_commitment(&s).unwrap();
    assert_eq!(generate_nonce(&s), Err(Error::IncompleteState));
    assert_eq!(partial_sign(&s), Err(Error::IncompleteState));
    assert_eq!(sign(&s), Err(Error::IncompleteState));
}

#[test]
fn add_nonce_checks_commitment() {
    let pk_a = public_key(&SK_A);
    let pk_b = public_key(&SK_B);
    let keys = vec![pk_a.clone(), pk_b.clone()];
    let a = new_session(&MESSAGE, &keys, &pk_a, &SK_A, &[1u8; 32]).unwrap();
    let b = new_session(&MESSAGE, &keys, &pk_b, &SK_B, &[2u8; 32]).unwrap();
    let (b, commit_b) = generate_nonce_commitment(&b).unwrap();
    let (_, nonce_b) = {
        let b = add_nonce_commitment(&b, &pk_a, &[0u8; 32]).unwrap();
        generate_nonce(&b).unwrap()
    };
    // no commitment recorded yet for B
    assert_eq!(add_nonce(&a, &pk_b, &nonce_b), Err(Error::ConsistencyError));
    // a commitment that the nonce does not match
    let wrong = add_nonce_commitment(&a, &pk_b, &[7u8; 32]).unwrap();
    assert_eq!(add_nonce(&wrong, &pk_b, &nonce_b), Err(Error::ConsistencyError));
    // the matching commitment
    let right = add_nonce_commitment(&a, &pk_b, &commit_b).unwrap();
    assert!(add_nonce(&right, &pk_b, &nonce_b).is_ok());
    // unknown participant, own slot, and a second commitment for the same key
    assert_eq!(add_nonce_commitment(&a, &public_key(&SK_C), &commit_b), Err(Error::InvalidArgument));
    assert_eq!(add_nonce_commitment(&a, &pk_a, &commit_b), Err(Error::InvalidArgument));
    assert_eq!(add_nonce_commitment(&right, &pk_b, &commit_b), Err(Error::InvalidArgument));
    assert_eq!(add_nonce_commitment(&a, &pk_b, &[1u8; 31]), Err(Error::DecodingError));
}

#[test]
fn session_snapshot_round_trip() {
    let pk_a = public_key(&SK_A);
    let keys = vec![public_key(&SK_B), pk_a.clone()];
    let s = new_session(&MESSAGE, &keys, &pk_a, &SK_A, &[1u8; 32]).unwrap();
    let (s, _) = generate_nonce_commitment(&s).unwrap();
    let session = MultiSigSession::from_incomplete(&s).unwrap();
    assert_eq!(session.to_incomplete(), s);
    assert_eq!(session.signers.len(), 2);
    assert!(session.signers[session.self_index].nonce_commitment.is_some());
    assert_eq!(MultiSigSession::from_incomplete(&s[..s.len() - 1]).err(), Some(Error::DecodingError));
    assert_eq!(MultiSigSession::from_incomplete(&[]).err(), Some(Error::DecodingError));
}

#[test]
fn session_snapshot_padding_must_be_zero() {
    let pk_a = public_key(&SK_A);
    let keys = vec![pk_a.clone(), public_key(&SK_B)];
    let s = new_session(&MESSAGE, &keys, &pk_a, &SK_A, &[1u8; 32]).unwrap();
    // first participant record starts at 105; its commitment flag is at 105 + 33
    assert_eq!(s[105 + 33], 0);
    let mut bad = s.clone();
    bad[105 + 34] = 1;
    assert_eq!(MultiSigSession::from_incomplete(&bad).err(), Some(Error::DecodingError));
    let mut bad_flag = s.clone();
    bad_flag[105 + 33] = 2;
    assert_eq!(MultiSigSession::from_incomplete(&bad_flag).err(), Some(Error::DecodingError));
    let mut bad_tag = s.clone();
    bad_tag[0] = 1;
    assert_eq!(MultiSigSession::from_incomplete(&bad_tag).err(), Some(Error::DecodingError));
}

#[test]
fn delivery_order_does_not_matter() {
    let pk_a = public_key(&SK_A);
    let pk_b = public_key(&SK_B);
    let pk_c = public_key(&SK_C);
    let keys = vec![pk_a.clone(), pk_b.clone(), pk_c.clone()];
    let a = new_session(&MESSAGE, &keys, &pk_a, &SK_A, &[1u8; 32]).unwrap();
    let one = add_nonce_commitment(&add_nonce_commitment(&a, &pk_b, &[5u8; 32]).unwrap(), &pk_c, &[6u8; 32]).unwrap();
    let two = add_nonce_commitment(&add_nonce_commitment(&a, &pk_c, &[6u8; 32]).unwrap(), &pk_b, &[5u8; 32]).unwrap();
    assert_eq!(one, two);
}
