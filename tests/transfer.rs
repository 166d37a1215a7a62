use chain_signer::builder::{LinearFee, TransactionBuilder, TxOut};
use chain_signer::error::Error;
use chain_signer::obfuscation::{Features, Strategy, Transport};
use chain_signer::transfer::{
    add_input_witness_linear_fee, build_incomplete_hex_linear_fee,
    estimate_fee_linear_fee, incomplete_builder_linear_fee_argument, is_completed_linear_fee,
    sign_input_linear_fee, to_hex_linear_fee, tx_id_linear_fee, verify_linear_fee,
    BuilderOptions, Finalized, RawTransactionOptions, RawTransactionOptionsInput,
    RawTransactionOptionsInputAddressParams,
};

const SK: [u8; 32] = [0x11; 32];

fn public_key(secret: &[u8; 32]) -> Vec<u8> {
    let secp = secp256k1::Secp256k1::new();
    let sk = secp256k1::SecretKey::from_slice(secret).unwrap();
    secp256k1::PublicKey::from_secret_key(&secp, &sk).serialize().to_vec()
}

fn output(value: u64) -> TxOut {
    TxOut { address: vec![7u8; 32], value, valid_from: None }
}

fn input(value: u64) -> RawTransactionOptionsInput {
    RawTransactionOptionsInput {
        prev_tx_id: vec![3u8; 32],
        prev_index: 1,
        prev_output: TxOut { address: vec![9u8; 32], value, valid_from: Some(5) },
        address_params: RawTransactionOptionsInputAddressParams {
            required_signers: 1,
            total_signers: 1,
        },
    }
}

// 1.1 units plus 1.25 units per byte
const FEE: LinearFee = LinearFee { constant: 1100, coefficient: 1250 };

fn options(inputs: Vec<RawTransactionOptionsInput>, outputs: Vec<TxOut>) -> BuilderOptions {
    BuilderOptions {
        raw_tx_options: RawTransactionOptions {
            inputs,
            outputs,
            view_keys: vec![],
            chain_hex_id: 0x42,
        },
        fee_algorithm: FEE,
    }
}

fn witness(fill: u8) -> Vec<u8> {
    let mut w = vec![fill; 64];
    w.extend_from_slice(&public_key(&SK));
    w
}

#[test]
fn builder_snapshot_round_trip() {
    let snapshot = build_incomplete_hex_linear_fee(&options(vec![input(10), input(20)], vec![output(5)])).unwrap();
    let snapshot = add_input_witness_linear_fee(&snapshot, FEE, 1, &witness(1)).unwrap();
    let builder = TransactionBuilder::from_incomplete(&snapshot, FEE).unwrap();
    assert_eq!(builder.to_incomplete(), snapshot);
    assert_eq!(builder.inputs.len(), 2);
    assert_eq!(builder.inputs[0].prev_output.valid_from, Some(5));
    assert!(builder.inputs[0].witness.is_none());
    assert_eq!(builder.inputs[1].witness, Some(witness(1)));
    assert_eq!(builder.outputs[0].value, 5);
    assert_eq!(builder.chain_hex_id, 0x42);
    assert_eq!(TransactionBuilder::from_incomplete(&snapshot[1..], FEE).err(), Some(Error::DecodingError));
    assert_eq!(incomplete_builder_linear_fee_argument(&[], FEE).err(), Some(Error::DecodingError));
}

#[test]
fn completeness_follows_witnesses() {
    let s = build_incomplete_hex_linear_fee(&options(vec![input(10), input(20)], vec![output(5)])).unwrap();
    assert_eq!(is_completed_linear_fee(&s, FEE), Ok(false));
    let s = add_input_witness_linear_fee(&s, FEE, 0, &witness(1)).unwrap();
    assert_eq!(is_completed_linear_fee(&s, FEE), Ok(false));
    let s = add_input_witness_linear_fee(&s, FEE, 1, &witness(2)).unwrap();
    assert_eq!(is_completed_linear_fee(&s, FEE), Ok(true));
    let empty = build_incomplete_hex_linear_fee(&options(vec![], vec![output(5)])).unwrap();
    assert_eq!(is_completed_linear_fee(&empty, FEE), Ok(true));
}

#[test]
fn witness_slot_isolation() {
    let s = build_incomplete_hex_linear_fee(&options(vec![input(10), input(20), input(30)], vec![output(5)])).unwrap();
    let s = add_input_witness_linear_fee(&s, FEE, 0, &witness(1)).unwrap();
    let s = add_input_witness_linear_fee(&s, FEE, 2, &witness(2)).unwrap();
    let s = add_input_witness_linear_fee(&s, FEE, 1, &witness(3)).unwrap();
    let s = add_input_witness_linear_fee(&s, FEE, 1, &witness(4)).unwrap();
    let b = TransactionBuilder::from_incomplete(&s, FEE).unwrap();
    assert_eq!(b.inputs[0].witness, Some(witness(1)));
    assert_eq!(b.inputs[1].witness, Some(witness(4)));
    assert_eq!(b.inputs[2].witness, Some(witness(2)));
}

#[test]
fn add_witness_errors() {
    let s = build_incomplete_hex_linear_fee(&options(vec![input(10)], vec![output(5)])).unwrap();
    assert_eq!(add_input_witness_linear_fee(&s, FEE, 1, &witness(1)), Err(Error::InvalidArgument));
    assert_eq!(add_input_witness_linear_fee(&s, FEE, 0, &[0u8; 96]), Err(Error::DecodingError));
    let mut b = TransactionBuilder::from_incomplete(&s, FEE).unwrap();
    assert!(b.input_at(0).is_ok());
    assert_eq!(b.input_at(1).err(), Some(Error::InvalidArgument));
    assert_eq!(b.add_witness(3, &witness(1)), Err(Error::InvalidArgument));
}

#[test]
fn tx_id_is_hex_of_body_hash_and_ignores_witnesses() {
    let s = build_incomplete_hex_linear_fee(&options(vec![input(10)], vec![output(5)])).unwrap();
    let id = tx_id_linear_fee(&s, FEE).unwrap();
    assert_eq!(id.len(), 64);
    let builder = TransactionBuilder::from_incomplete(&s, FEE).unwrap();
    assert_eq!(id, hex::encode(builder.tx_id()));
    let signed = add_input_witness_linear_fee(&s, FEE, 0, &witness(1)).unwrap();
    assert_eq!(tx_id_linear_fee(&signed, FEE).unwrap(), id);
    let other = build_incomplete_hex_linear_fee(&options(vec![input(10)], vec![output(6)])).unwrap();
    assert_ne!(tx_id_linear_fee(&other, FEE).unwrap(), id);
}

#[test]
fn estimated_fee_exact_value() {
    // one input, one output, no view keys: 13 + 34 + 49 + 97 = 193 bytes signed
    let s = build_incomplete_hex_linear_fee(&options(vec![input(1000)], vec![output(5)])).unwrap();
    assert_eq!(estimate_fee_linear_fee(&s, FEE), Ok(243));
    let signed = add_input_witness_linear_fee(&s, FEE, 0, &witness(1)).unwrap();
    assert_eq!(estimate_fee_linear_fee(&signed, FEE), Ok(243));
    assert_eq!(LinearFee { constant: 0, coefficient: 1000 }.estimate(10), 10);
    assert_eq!(LinearFee { constant: 1, coefficient: 0 }.estimate(10), 1);
}

#[test]
fn fee_boundary() {
    let exact = build_incomplete_hex_linear_fee(&options(vec![input(1000)], vec![output(757)])).unwrap();
    let exact = add_input_witness_linear_fee(&exact, FEE, 0, &witness(1)).unwrap();
    assert_eq!(verify_linear_fee(&exact, FEE), Ok(()));
    assert!(matches!(to_hex_linear_fee(&exact, FEE, "", Features::MockObfuscation), Ok(Finalized::Envelope(_))));

    let short = build_incomplete_hex_linear_fee(&options(vec![input(1000)], vec![output(758)])).unwrap();
    let short = add_input_witness_linear_fee(&short, FEE, 0, &witness(1)).unwrap();
    assert_eq!(verify_linear_fee(&short, FEE), Err(Error::InsufficientFunds));
    assert!(matches!(
        to_hex_linear_fee(&short, FEE, "", Features::MockObfuscation),
        Err(Error::InsufficientFunds)
    ));

    let over = build_incomplete_hex_linear_fee(&options(vec![input(1000)], vec![output(2000)])).unwrap();
    assert_eq!(verify_linear_fee(&over, FEE), Err(Error::InsufficientFunds));
}

#[test]
fn finalize_needs_every_witness() {
    let s = build_incomplete_hex_linear_fee(&options(vec![input(1000)], vec![output(5)])).unwrap();
    assert!(matches!(
        to_hex_linear_fee(&s, FEE, "", Features::MockObfuscation),
        Err(Error::IncompleteState)
    ));
}

#[test]
fn mock_envelope_layout() {
    let s = build_incomplete_hex_linear_fee(&options(vec![input(1000)], vec![output(5)])).unwrap();
    let s = add_input_witness_linear_fee(&s, FEE, 0, &witness(1)).unwrap();
    let builder = TransactionBuilder::from_incomplete(&s, FEE).unwrap();
    let id = builder.tx_id();
    let signed = builder.finalize().unwrap();
    let envelope = match to_hex_linear_fee(&s, FEE, "anything", Features::MockObfuscation).unwrap() {
        Finalized::Envelope(e) => e,
        Finalized::ForOracle(..) => panic!("mock strategy expected"),
    };
    assert_eq!(envelope[0], 0x10);
    assert_eq!(&envelope[1..3], &[1u8, 0]);
    assert_eq!(&envelope[3..35], &[3u8; 32]);
    assert_eq!(&envelope[35..37], &[1u8, 0]);
    assert_eq!(&envelope[37..39], &[1u8, 0]);
    assert_eq!(&envelope[39..71], id.as_slice());
    assert_eq!(&envelope[71..91], &[0u8; 20]);
    assert_eq!(&envelope[91..95], &(signed.len() as u32).to_le_bytes());
    assert_eq!(&envelope[95..], signed.as_slice());
}

#[test]
fn oracle_strategies_hand_back_the_signed_transaction() {
    let s = build_incomplete_hex_linear_fee(&options(vec![input(1000)], vec![output(5)])).unwrap();
    let s = add_input_witness_linear_fee(&s, FEE, 0, &witness(1)).unwrap();
    let signed = TransactionBuilder::from_incomplete(&s, FEE).unwrap().finalize().unwrap();
    match to_hex_linear_fee(&s, FEE, "ws://localhost:26657/websocket", Features::AllDefault) {
        Ok(Finalized::ForOracle(Strategy::Oracle(Transport::Websocket), b)) => assert_eq!(b, signed),
        _ => panic!("websocket oracle expected"),
    }
    match to_hex_linear_fee(&s, FEE, "http://localhost:26657", Features::MockAbci) {
        Ok(Finalized::ForOracle(Strategy::MockAbci(Transport::Http), b)) => assert_eq!(b, signed),
        _ => panic!("http mock-abci oracle expected"),
    }
    assert!(matches!(
        to_hex_linear_fee(&s, FEE, "tcp://localhost", Features::AllDefault),
        Err(Error::TransportError)
    ));
}

#[test]
fn sign_input_with_key_pair() {
    let s = build_incomplete_hex_linear_fee(&options(vec![input(1000), input(1)], vec![output(5)])).unwrap();
    let pk = public_key(&SK);
    let signed = sign_input_linear_fee(&s, FEE, 1, &SK, &pk).unwrap();
    let builder = TransactionBuilder::from_incomplete(&signed, FEE).unwrap();
    assert!(builder.inputs[0].witness.is_none());
    let w = builder.inputs[1].witness.clone().unwrap();
    assert_eq!(&w[64..], pk.as_slice());
    let secp = secp256k1::Secp256k1::new();
    let sig = secp256k1::schnorr::Signature::from_slice(&w[..64]).unwrap();
    let msg = secp256k1::Message::from_digest_slice(&builder.tx_id()).unwrap();
    let key = secp256k1::PublicKey::from_slice(&pk).unwrap().x_only_public_key().0;
    assert!(secp.verify_schnorr(&sig, &msg, &key).is_ok());
    assert_eq!(sign_input_linear_fee(&s, FEE, 2, &SK, &pk), Err(Error::InvalidArgument));
    assert_eq!(sign_input_linear_fee(&s, FEE, 0, &[0u8; 32], &pk), Err(Error::DecodingError));
}

#[test]
fn build_rejects_bad_descriptions() {
    let mut bad_id = input(1);
    bad_id.prev_tx_id = vec![1u8; 31];
    assert_eq!(build_incomplete_hex_linear_fee(&options(vec![bad_id], vec![])), Err(Error::DecodingError));
    let mut bad_params = input(1);
    bad_params.address_params = RawTransactionOptionsInputAddressParams { required_signers: 3, total_signers: 2 };
    assert_eq!(build_incomplete_hex_linear_fee(&options(vec![bad_params], vec![])), Err(Error::InvalidArgument));
    let mut bad_key = options(vec![], vec![]);
    bad_key.raw_tx_options.view_keys = vec![vec![5u8; 33]];
    assert_eq!(build_incomplete_hex_linear_fee(&bad_key), Err(Error::DecodingError));
    let bad_out = TxOut { address: vec![1u8; 3], value: 1, valid_from: None };
    assert_eq!(build_incomplete_hex_linear_fee(&options(vec![], vec![bad_out])), Err(Error::DecodingError));
}

#[test]
fn view_keys_are_kept_canonical() {
    let secp = secp256k1::Secp256k1::new();
    let sk = secp256k1::SecretKey::from_slice(&SK).unwrap();
    let full = secp256k1::PublicKey::from_secret_key(&secp, &sk).serialize_uncompressed().to_vec();
    let mut o = options(vec![], vec![output(1)]);
    o.raw_tx_options.view_keys = vec![full];
    let s = build_incomplete_hex_linear_fee(&o).unwrap();
    let b = TransactionBuilder::from_incomplete(&s, FEE).unwrap();
    assert_eq!(b.view_keys, vec![public_key(&SK)]);
}

#[test]
fn builder_snapshot_padding_must_be_zero() {
    let s = build_incomplete_hex_linear_fee(&options(vec![input(10)], vec![output(5)])).unwrap();
    // the input record starts at 14; its witness flag is at 14 + 85
    assert_eq!(s[14 + 85], 0);
    let mut bad = s.clone();
    bad[14 + 86] = 9;
    assert_eq!(TransactionBuilder::from_incomplete(&bad, FEE).err(), Some(Error::DecodingError));
    let mut longer = s.clone();
    longer.push(0);
    assert_eq!(TransactionBuilder::from_incomplete(&longer, FEE).err(), Some(Error::DecodingError));
}
