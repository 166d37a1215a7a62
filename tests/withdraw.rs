use chain_signer::builder::{LinearFee, TxOut};
use chain_signer::error::Error;
use chain_signer::withdraw::{
    build_raw_withdraw_unbonded_transaction, estimate_withdraw_unbonded_transaction_fee,
    withdraw_unbonded_transaction_to_signed_plain_hex, WithdrawUnbondedTx,
};

const SK: [u8; 32] = [0x11; 32];
const FEE: LinearFee = LinearFee { constant: 1100, coefficient: 1250 };

fn public_key() -> Vec<u8> {
    let secp = secp256k1::Secp256k1::new();
    let sk = secp256k1::SecretKey::from_slice(&SK).unwrap();
    secp256k1::PublicKey::from_secret_key(&secp, &sk).serialize().to_vec()
}

fn tx(values: &[u64]) -> WithdrawUnbondedTx {
    let outputs = values
        .iter()
        .map(|v| TxOut { address: vec![4u8; 32], value: *v, valid_from: None })
        .collect();
    WithdrawUnbondedTx::new(7, outputs, 0x42, &vec![]).unwrap()
}

#[test]
fn withdraw_fee_exact_value() {
    // tag 1 + nonce 8 + count 4 + one output 49 + chain id 1 + count 4 + signature 65 = 132
    assert_eq!(estimate_withdraw_unbonded_transaction_fee(&tx(&[10]), FEE), 167);
}

#[test]
fn withdraw_fee_boundary() {
    let pk = public_key();
    // unbonded 1000, outputs 833, fee 167: exactly covered
    let ok = withdraw_unbonded_transaction_to_signed_plain_hex(&tx(&[833]), 1000, FEE, &SK, &pk);
    assert!(ok.is_ok());
    let short = withdraw_unbonded_transaction_to_signed_plain_hex(&tx(&[834]), 1000, FEE, &SK, &pk);
    assert_eq!(short, Err(Error::InsufficientFunds));
    let over = withdraw_unbonded_transaction_to_signed_plain_hex(&tx(&[2000]), 1000, FEE, &SK, &pk);
    assert_eq!(over, Err(Error::InsufficientFunds));
    let bad_key = withdraw_unbonded_transaction_to_signed_plain_hex(&tx(&[1]), 1000, FEE, &[0u8; 32], &pk);
    assert_eq!(bad_key, Err(Error::DecodingError));
}

#[test]
fn signed_withdrawal_layout_and_signature() {
    let t = tx(&[833]);
    let (raw, id_hex) = build_raw_withdraw_unbonded_transaction(&t);
    assert_eq!(raw.len(), 66);
    assert_eq!(&raw[..8], &7u64.to_le_bytes());
    let signed = withdraw_unbonded_transaction_to_signed_plain_hex(&t, 1000, FEE, &SK, &public_key()).unwrap();
    assert_eq!(signed[0], 0x20);
    assert_eq!(&signed[1..67], raw.as_slice());
    assert_eq!(signed.len(), 132);
    let id = hex::decode(&id_hex).unwrap();
    assert_eq!(id, t.id());
    let secp = secp256k1::Secp256k1::new();
    let rid = secp256k1::ecdsa::RecoveryId::from_i32(signed[131] as i32).unwrap();
    let sig = secp256k1::ecdsa::RecoverableSignature::from_compact(&signed[67..131], rid).unwrap();
    let m = secp256k1::Message::from_digest_slice(&id).unwrap();
    assert_eq!(secp.recover_ecdsa(&m, &sig).unwrap().serialize().to_vec(), public_key());
}

#[test]
fn withdraw_construction_errors() {
    let bad_out = vec![TxOut { address: vec![1u8; 5], value: 1, valid_from: None }];
    assert_eq!(WithdrawUnbondedTx::new(1, bad_out, 0x42, &vec![]).err(), Some(Error::DecodingError));
    assert_eq!(WithdrawUnbondedTx::new(1, vec![], 0x42, &vec![vec![0u8; 33]]).err(), Some(Error::DecodingError));
}
