use chain_signer::builder::LinearFee;
use chain_signer::error::Error;
use chain_signer::key_pair::{
    get_public_keys_from_any_public_key, get_public_keys_from_private_key, is_valid_view_key,
    verify_private_key, verify_public_key,
};
use chain_signer::obfuscation::{select_strategy, transport_of, Features, Strategy, Transport};
use chain_signer::options::{
    chain_hex_id_from_vec, network_from_chain_hex_id, network_from_str, parse_linear_fee_config,
    parse_milli, transfer_address_leaves, txid_from_str, Network,
};
use chain_signer::signer::KeyPairSigner;

const SK: [u8; 32] = [0x11; 32];

fn keys() -> (Vec<u8>, Vec<u8>) {
    let secp = secp256k1::Secp256k1::new();
    let sk = secp256k1::SecretKey::from_slice(&SK).unwrap();
    let pk = secp256k1::PublicKey::from_secret_key(&secp, &sk);
    (pk.serialize().to_vec(), pk.serialize_uncompressed().to_vec())
}

#[test]
fn networks() {
    assert_eq!(network_from_str("Mainnet"), Ok(Network::Mainnet));
    assert_eq!(network_from_str("Testnet"), Ok(Network::Testnet));
    assert_eq!(network_from_str("Devnet"), Ok(Network::Devnet));
    assert_eq!(network_from_str("mainnet"), Err(Error::InvalidArgument));
    assert_eq!(network_from_chain_hex_id(0x2a), Network::Mainnet);
    assert_eq!(network_from_chain_hex_id(0x42), Network::Testnet);
    assert_eq!(network_from_chain_hex_id(0xab), Network::Devnet);
    assert_eq!(chain_hex_id_from_vec(&[0x42]), Ok(0x42));
    assert_eq!(chain_hex_id_from_vec(&[]), Err(Error::InvalidArgument));
    assert_eq!(chain_hex_id_from_vec(&[1, 2]), Err(Error::InvalidArgument));
}

#[test]
fn tx_ids_from_hex() {
    let text = "0f".repeat(32);
    assert_eq!(txid_from_str(&text), Ok(vec![0x0f; 32]));
    assert_eq!(txid_from_str(&"AB".repeat(32)), Ok(vec![0xab; 32]));
    assert_eq!(txid_from_str("0f0f"), Err(Error::DecodingError));
    assert_eq!(txid_from_str(&"zz".repeat(32)), Err(Error::DecodingError));
    assert_eq!(txid_from_str("abc"), Err(Error::DecodingError));
}

#[test]
fn milli_amounts() {
    assert_eq!(parse_milli("12"), Ok(12000));
    assert_eq!(parse_milli("0.5"), Ok(500));
    assert_eq!(parse_milli("1.25"), Ok(1250));
    assert_eq!(parse_milli("3.125"), Ok(3125));
    assert_eq!(parse_milli("0"), Ok(0));
    assert_eq!(parse_milli("18446744073709551.615"), Ok(u64::MAX));
    assert_eq!(parse_milli("18446744073709551.616"), Err(Error::InvalidArgument));
    assert_eq!(parse_milli("1.2345"), Err(Error::InvalidArgument));
    assert_eq!(parse_milli(".5"), Err(Error::InvalidArgument));
    assert_eq!(parse_milli("5."), Err(Error::InvalidArgument));
    assert_eq!(parse_milli(""), Err(Error::InvalidArgument));
    assert_eq!(parse_milli("1.2.3"), Err(Error::InvalidArgument));
    assert_eq!(parse_milli("-1"), Err(Error::InvalidArgument));
}

#[test]
fn fee_configuration() {
    assert_eq!(
        parse_linear_fee_config("LinearFee", "1.1", "1.25"),
        Ok(LinearFee { constant: 1100, coefficient: 1250 })
    );
    assert_eq!(parse_linear_fee_config("QuadraticFee", "1.1", "1.25"), Err(Error::InvalidArgument));
    assert_eq!(parse_linear_fee_config("LinearFee", "x", "1.25"), Err(Error::InvalidArgument));
}

#[test]
fn address_leaves() {
    assert_eq!(transfer_address_leaves(1, 1), Ok(1));
    assert_eq!(transfer_address_leaves(5, 2), Ok(10));
    assert_eq!(transfer_address_leaves(4, 1), Ok(4));
    assert_eq!(transfer_address_leaves(6, 3), Ok(20));
    assert_eq!(transfer_address_leaves(3, 3), Ok(1));
    assert_eq!(transfer_address_leaves(3, 0), Ok(1));
    assert_eq!(transfer_address_leaves(2, 3), Err(Error::InvalidArgument));
}

#[test]
fn features_and_transports() {
    assert_eq!(Features::argument("AllDefault"), Ok(Features::AllDefault));
    assert_eq!(Features::argument("MockAbci"), Ok(Features::MockAbci));
    assert_eq!(Features::argument("MockObfuscation"), Ok(Features::MockObfuscation));
    assert_eq!(Features::argument("Mock"), Err(Error::InvalidArgument));
    assert_eq!(transport_of("wss://node"), Ok(Transport::Websocket));
    assert_eq!(transport_of("https://node"), Ok(Transport::Http));
    assert_eq!(transport_of("ftp://node"), Err(Error::TransportError));
    assert_eq!(select_strategy(Features::AllDefault, "ws://node"), Ok(Strategy::Oracle(Transport::Websocket)));
    assert_eq!(select_strategy(Features::MockAbci, "http://node"), Ok(Strategy::MockAbci(Transport::Http)));
    assert_eq!(select_strategy(Features::MockObfuscation, "nothing"), Ok(Strategy::Mock));
    assert_eq!(select_strategy(Features::AllDefault, "node"), Err(Error::TransportError));
}

#[test]
fn key_pairs() {
    let (compressed, full) = keys();
    assert_eq!(verify_public_key(&compressed), Ok(()));
    assert_eq!(verify_public_key(&full), Ok(()));
    assert_eq!(verify_public_key(&[1u8; 33]), Err(Error::DecodingError));
    assert_eq!(verify_private_key(&SK), Ok(()));
    assert_eq!(verify_private_key(&[0u8; 32]), Err(Error::DecodingError));
    assert_eq!(verify_private_key(&[1u8; 31]), Err(Error::DecodingError));
    let k = get_public_keys_from_private_key(&SK).unwrap();
    assert_eq!(k.compressed_public_key, compressed);
    assert_eq!(k.public_key, full);
    let k = get_public_keys_from_any_public_key(&full).unwrap();
    assert_eq!(k.compressed_public_key, compressed);
    assert_eq!(k.public_key, full);
    assert!(get_public_keys_from_any_public_key(&[2u8; 5]).is_err());
    assert!(is_valid_view_key(&compressed));
    assert!(!is_valid_view_key(&[0u8; 33]));
}

#[test]
fn key_pair_signer() {
    let (compressed, full) = keys();
    let signer = KeyPairSigner::new(&SK, &full).unwrap();
    assert_eq!(signer.public_key, compressed);
    assert!(KeyPairSigner::new(&[0u8; 32], &full).is_err());
    assert!(KeyPairSigner::new(&SK, &[9u8; 33]).is_err());
    let msg = [0x42u8; 32];

    let rec = signer.sign(&msg).unwrap();
    assert_eq!(rec.len(), 65);
    let secp = secp256k1::Secp256k1::new();
    let id = secp256k1::ecdsa::RecoveryId::from_i32(rec[64] as i32).unwrap();
    let sig = secp256k1::ecdsa::RecoverableSignature::from_compact(&rec[..64], id).unwrap();
    let m = secp256k1::Message::from_digest_slice(&msg).unwrap();
    assert_eq!(secp.recover_ecdsa(&m, &sig).unwrap().serialize().to_vec(), compressed);

    let s = signer.schnorr_sign(&msg).unwrap();
    let sig = secp256k1::schnorr::Signature::from_slice(&s).unwrap();
    let key = secp256k1::PublicKey::from_slice(&compressed).unwrap().x_only_public_key().0;
    assert!(secp.verify_schnorr(&sig, &m, &key).is_ok());

    let w = signer.schnorr_sign_txid(&msg).unwrap();
    assert_eq!(&w[..64], s.as_slice());
    assert_eq!(&w[64..], compressed.as_slice());

    assert_eq!(signer.sign(&[1u8; 31]), Err(Error::DecodingError));
    assert_eq!(signer.schnorr_sign(&[1u8; 33]), Err(Error::DecodingError));
    assert_eq!(signer.schnorr_sign_txid(&[]), Err(Error::DecodingError));
}


#[test]
fn single_signer_message_witness() {
    let (compressed, full) = keys();
    let msg = [0x24u8; 32];
    let w = chain_signer::signer::schnorr_sign_message(&msg, &SK, &full).unwrap();
    assert_eq!(w.len(), 97);
    assert_eq!(&w[64..], compressed.as_slice());
    let secp = secp256k1::Secp256k1::new();
    let sig = secp256k1::schnorr::Signature::from_slice(&w[..64]).unwrap();
    let m = secp256k1::Message::from_digest_slice(&msg).unwrap();
    let key = secp256k1::PublicKey::from_slice(&compressed).unwrap().x_only_public_key().0;
    assert!(secp.verify_schnorr(&sig, &m, &key).is_ok());
    assert_eq!(chain_signer::signer::schnorr_sign_message(&msg[..31], &SK, &full), Err(Error::DecodingError));
}

#[test]
fn keys_and_chain_ids_from_hex() {
    let (compressed, full) = keys();
    let upper = hex::encode_upper(&full);
    assert_eq!(chain_signer::key_pair::public_key_from_hex(&upper), Ok(compressed.clone()));
    assert_eq!(chain_signer::key_pair::public_key_from_hex(&hex::encode(&compressed)), Ok(compressed.clone()));
    assert_eq!(chain_signer::key_pair::public_key_from_hex("zz"), Err(Error::DecodingError));
    assert_eq!(chain_signer::key_pair::public_key_from_hex("0011"), Err(Error::DecodingError));
    assert_eq!(chain_signer::key_pair::parse_view_key(&full), Ok(compressed));
    assert_eq!(chain_signer::options::chain_hex_id_from_str("2A"), Ok(0x2a));
    assert_eq!(chain_signer::options::chain_hex_id_from_str("42"), Ok(0x42));
    assert_eq!(chain_signer::options::chain_hex_id_from_str("4242"), Err(Error::InvalidArgument));
    assert_eq!(chain_signer::options::chain_hex_id_from_str("4"), Err(Error::DecodingError));
}
