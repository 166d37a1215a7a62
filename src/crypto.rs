//! The elliptic-curve, hashing and hex primitives the library relies on.
//!
//! Every function here makes exactly one call into an outside crate. Keys, scalars,
//! points and signatures travel as plain bytes: a point is the 33-byte compressed
//! encoding, a scalar or secret key 32 big-endian bytes, a Schnorr signature 64 bytes.
use vstd::prelude::*;
use gcd::Gcd;
use vstd::string::StringSliceAdditionalSpecFns;

verus! {

/// The bytes inside an optional byte vector.
pub open spec fn opt_bytes(o: Option<Vec<u8>>) -> Option<Seq<u8>> {
    match o {
        Some(v) => Some(v@),
        None => None,
    }
}

/// The 33-byte compressed encoding of a curve point: a parity prefix then the x coordinate.
pub open spec fn is_compressed_point(k: Seq<u8>) -> bool {
    k.len() == 33 && (k[0] == 2 || k[0] == 3)
}

/// SHA-256 of a byte string.
pub uninterp spec fn sha256_of(data: Seq<u8>) -> Seq<u8>;

/// Relies on `sha256::Hash::hash` of the hashes crate re-exported by secp256k1: a
/// 32-byte digest that depends on the input alone.
#[verifier::external_body]
pub(crate) fn sha256(data: &[u8]) -> (r: Vec<u8>)
    ensures
        r@ == sha256_of(data@),
        r@.len() == 32,
{
    let digest = <secp256k1::hashes::sha256::Hash as secp256k1::hashes::Hash>::hash(data);
    secp256k1::hashes::Hash::to_byte_array(digest).to_vec()
}

/// The canonical compressed form of an encoded public key, if the bytes encode one.
pub uninterp spec fn parsed_public_key(bytes: Seq<u8>) -> Option<Seq<u8>>;

/// Relies on `PublicKey::from_slice`, which accepts a compressed or uncompressed
/// encoding of a curve point, and `PublicKey::serialize`, which gives the 33-byte
/// compressed encoding (prefix 2 or 3).
#[verifier::external_body]
pub(crate) fn parse_public_key(bytes: &[u8]) -> (r: Option<Vec<u8>>)
    ensures
        opt_bytes(r) == parsed_public_key(bytes@),
        r matches Some(k) ==> is_compressed_point(k@),
{
    match secp256k1::PublicKey::from_slice(bytes) {
        Ok(k) => Some(k.serialize().to_vec()),
        Err(_) => None,
    }
}

/// The 65-byte uncompressed encoding of an encoded public key, if the bytes encode one.
pub uninterp spec fn uncompressed_public_key(bytes: Seq<u8>) -> Option<Seq<u8>>;

/// Relies on `PublicKey::from_slice` and `PublicKey::serialize_uncompressed`, which
/// gives the 65-byte uncompressed encoding (prefix 4); decoding fails exactly where
/// `parse_public_key` fails.
#[verifier::external_body]
pub(crate) fn uncompressed_key(bytes: &[u8]) -> (r: Option<Vec<u8>>)
    ensures
        opt_bytes(r) == uncompressed_public_key(bytes@),
        r is Some <==> parsed_public_key(bytes@) is Some,
        r matches Some(k) ==> k@.len() == 65,
{
    match secp256k1::PublicKey::from_slice(bytes) {
        Ok(k) => Some(k.serialize_uncompressed().to_vec()),
        Err(_) => None,
    }
}

/// The public key of a secret key, if the bytes are a valid secret key.
pub uninterp spec fn public_key_of(secret: Seq<u8>) -> Option<Seq<u8>>;

/// Relies on `SecretKey::from_slice` (32 bytes, nonzero, below the curve order),
/// `PublicKey::from_secret_key` and `PublicKey::serialize`; the compressed encoding
/// it returns decodes back (by `PublicKey::from_slice`) to the same key.
#[verifier::external_body]
pub(crate) fn derive_public_key(secret: &[u8]) -> (r: Option<Vec<u8>>)
    ensures
        opt_bytes(r) == public_key_of(secret@),
        r is Some ==> secret@.len() == 32,
        r matches Some(k) ==> is_compressed_point(k@) && parsed_public_key(k@) == Some(k@),
{
    let secp = secp256k1::Secp256k1::signing_only();
    match secp256k1::SecretKey::from_slice(secret) {
        Ok(sk) => Some(secp256k1::PublicKey::from_secret_key(&secp, &sk).serialize().to_vec()),
        Err(_) => None,
    }
}

/// The product of a point and a scalar, if both decode and the product is a point.
pub uninterp spec fn point_product(point: Seq<u8>, scalar: Seq<u8>) -> Option<Seq<u8>>;

/// Relies on `PublicKey::mul_tweak`: multiplies a point by a scalar below the curve order.
#[verifier::external_body]
pub(crate) fn mul_point(point: &[u8], scalar: &[u8]) -> (r: Option<Vec<u8>>)
    ensures
        opt_bytes(r) == point_product(point@, scalar@),
        r matches Some(k) ==> is_compressed_point(k@),
{
    let secp = secp256k1::Secp256k1::verification_only();
    let pk = secp256k1::PublicKey::from_slice(point).ok()?;
    let tweak = secp256k1::Scalar::from_be_bytes(scalar.try_into().ok()?).ok()?;
    pk.mul_tweak(&secp, &tweak).ok().map(|k| k.serialize().to_vec())
}

/// The byte strings of a list of byte vectors.
pub open spec fn seq_bytes(v: Seq<Vec<u8>>) -> Seq<Seq<u8>> {
    v.map_values(|x: Vec<u8>| x@)
}

/// The sum of a list of points, if all decode and the sum is a point.
pub uninterp spec fn point_sum(points: Seq<Seq<u8>>) -> Option<Seq<u8>>;

/// Relies on `PublicKey::combine_keys`: adds the points, failing on an empty list or
/// when the sum is the point at infinity.
#[verifier::external_body]
pub(crate) fn sum_points(points: &Vec<Vec<u8>>) -> (r: Option<Vec<u8>>)
    ensures
        opt_bytes(r) == point_sum(seq_bytes(points@)),
        r matches Some(k) ==> is_compressed_point(k@),
        points@.len() == 0 ==> r is None,
{
    let mut keys = Vec::new();
    for p in points.iter() {
        keys.push(secp256k1::PublicKey::from_slice(p).ok()?);
    }
    let refs: Vec<&secp256k1::PublicKey> = keys.iter().collect();
    secp256k1::PublicKey::combine_keys(&refs).ok().map(|k| k.serialize().to_vec())
}

/// The sum of two scalars modulo the curve order, if it is a valid nonzero scalar.
pub uninterp spec fn scalar_sum(a: Seq<u8>, b: Seq<u8>) -> Option<Seq<u8>>;

/// Relies on `SecretKey::add_tweak`: adds a scalar modulo the curve order.
#[verifier::external_body]
pub(crate) fn add_scalars(a: &[u8], b: &[u8]) -> (r: Option<Vec<u8>>)
    ensures
        opt_bytes(r) == scalar_sum(a@, b@),
        r matches Some(s) ==> s@.len() == 32,
{
    let sk = secp256k1::SecretKey::from_slice(a).ok()?;
    let tweak = secp256k1::Scalar::from_be_bytes(b.try_into().ok()?).ok()?;
    sk.add_tweak(&tweak).ok().map(|s| s.secret_bytes().to_vec())
}

/// The product of two scalars modulo the curve order, if it is a valid nonzero scalar.
pub uninterp spec fn scalar_product(a: Seq<u8>, b: Seq<u8>) -> Option<Seq<u8>>;

/// Relies on `SecretKey::mul_tweak`: multiplies by a scalar modulo the curve order.
#[verifier::external_body]
pub(crate) fn mul_scalars(a: &[u8], b: &[u8]) -> (r: Option<Vec<u8>>)
    ensures
        opt_bytes(r) == scalar_product(a@, b@),
        r matches Some(s) ==> s@.len() == 32,
{
    let sk = secp256k1::SecretKey::from_slice(a).ok()?;
    let tweak = secp256k1::Scalar::from_be_bytes(b.try_into().ok()?).ok()?;
    sk.mul_tweak(&tweak).ok().map(|s| s.secret_bytes().to_vec())
}

/// The negation of a scalar modulo the curve order, if the bytes are a valid scalar.
pub uninterp spec fn scalar_negation(a: Seq<u8>) -> Option<Seq<u8>>;

/// Relies on `SecretKey::negate`.
#[verifier::external_body]
pub(crate) fn negate_scalar(a: &[u8]) -> (r: Option<Vec<u8>>)
    ensures
        opt_bytes(r) == scalar_negation(a@),
        r matches Some(s) ==> s@.len() == 32,
{
    secp256k1::SecretKey::from_slice(a).ok().map(|s| s.negate().secret_bytes().to_vec())
}

/// Whether a BIP-340 signature is valid for a 32-byte message and an x-only key.
pub uninterp spec fn schnorr_accepts(sig: Seq<u8>, msg: Seq<u8>, key_x: Seq<u8>) -> bool;

/// Relies on `Secp256k1::verify_schnorr`, with the signature, message and x-only key
/// decoded by their `from_slice` constructors (a decoding failure rejects).
#[verifier::external_body]
pub(crate) fn verify_schnorr(sig: &[u8], msg: &[u8], key_x: &[u8]) -> (r: bool)
    ensures
        r == schnorr_accepts(sig@, msg@, key_x@),
{
    let secp = secp256k1::Secp256k1::verification_only();
    match (
        secp256k1::schnorr::Signature::from_slice(sig),
        secp256k1::Message::from_digest_slice(msg),
        secp256k1::XOnlyPublicKey::from_slice(key_x),
    ) {
        (Ok(s), Ok(m), Ok(k)) => secp.verify_schnorr(&s, &m, &k).is_ok(),
        _ => false,
    }
}

/// The BIP-340 signature (without auxiliary randomness) of a message under a secret key.
pub uninterp spec fn schnorr_signature_of(msg: Seq<u8>, secret: Seq<u8>) -> Option<Seq<u8>>;

/// Relies on `Secp256k1::sign_schnorr_no_aux_rand`, which is deterministic and cannot
/// fail once `Keypair::from_seckey_slice` and `Message::from_digest_slice` accept the
/// secret key and the 32-byte message.
#[verifier::external_body]
pub(crate) fn sign_schnorr(msg: &[u8], secret: &[u8]) -> (r: Option<Vec<u8>>)
    ensures
        opt_bytes(r) == schnorr_signature_of(msg@, secret@),
        r is Some <==> (msg@.len() == 32 && public_key_of(secret@) is Some),
        r matches Some(s) ==> s@.len() == 64,
{
    let secp = secp256k1::Secp256k1::signing_only();
    let keypair = secp256k1::Keypair::from_seckey_slice(&secp, secret).ok()?;
    let m = secp256k1::Message::from_digest_slice(msg).ok()?;
    Some(secp.sign_schnorr_no_aux_rand(&m, &keypair).serialize().to_vec())
}

/// The recoverable ECDSA signature of a message: 64 compact bytes then the recovery id.
pub uninterp spec fn recoverable_signature_of(msg: Seq<u8>, secret: Seq<u8>) -> Option<Seq<u8>>;

/// Relies on `Secp256k1::sign_ecdsa_recoverable` (deterministic nonces) and
/// `RecoverableSignature::serialize_compact`; it cannot fail once `SecretKey::from_slice`
/// and `Message::from_digest_slice` accept the secret key and the 32-byte message.
#[verifier::external_body]
pub(crate) fn sign_recoverable(msg: &[u8], secret: &[u8]) -> (r: Option<Vec<u8>>)
    ensures
        opt_bytes(r) == recoverable_signature_of(msg@, secret@),
        r is Some <==> (msg@.len() == 32 && public_key_of(secret@) is Some),
        r matches Some(s) ==> s@.len() == 65,
{
    let secp = secp256k1::Secp256k1::signing_only();
    let sk = secp256k1::SecretKey::from_slice(secret).ok()?;
    let m = secp256k1::Message::from_digest_slice(msg).ok()?;
    let (id, bytes) = secp.sign_ecdsa_recoverable(&m, &sk).serialize_compact();
    let mut out = bytes.to_vec();
    out.push(id.to_i32() as u8);
    Some(out)
}

/// A lowercase hexadecimal digit.
pub open spec fn hex_digit(n: u8) -> char {
    if n < 10 {
        (48 + n) as char
    } else {
        (87 + n) as char
    }
}

/// Lowercase hexadecimal text of a byte string, two digits per byte.
pub open spec fn hex_text(b: Seq<u8>) -> Seq<char>
    decreases b.len(),
{
    if b.len() == 0 {
        seq![]
    } else {
        hex_text(b.drop_last()) + seq![hex_digit(b.last() / 16), hex_digit(b.last() % 16)]
    }
}

/// Relies on `hex::encode`: two lowercase digits per byte, most significant first.
#[verifier::external_body]
pub(crate) fn encode_hex(b: &[u8]) -> (r: String)
    ensures
        r@ == hex_text(b@),
{
    hex::encode(b)
}

/// The value of a hexadecimal digit of either case.
pub open spec fn hex_value(c: u8) -> Option<u8> {
    if 48 <= c <= 57 {
        Some((c - 48) as u8)
    } else if 97 <= c <= 102 {
        Some((c - 87) as u8)
    } else if 65 <= c <= 70 {
        Some((c - 55) as u8)
    } else {
        None
    }
}

/// The bytes that hexadecimal text stands for, if it has an even number of digits.
pub open spec fn hex_bytes(s: Seq<u8>) -> Option<Seq<u8>>
    decreases s.len(),
{
    if s.len() % 2 == 1 {
        None
    } else if s.len() == 0 {
        Some(seq![])
    } else {
        match (
            hex_bytes(s.subrange(0, s.len() - 2)),
            hex_value(s[s.len() - 2]),
            hex_value(s[s.len() - 1]),
        ) {
            (Some(p), Some(h), Some(l)) => Some(p.push((h * 16 + l) as u8)),
            _ => None,
        }
    }
}

/// Relies on `hex::decode`: fails on an odd length or a character that is not a
/// hexadecimal digit, else gives one byte per pair of digits.
#[verifier::external_body]
pub(crate) fn decode_hex(s: &str) -> (r: Option<Vec<u8>>)
    ensures
        opt_bytes(r) == hex_bytes(s.spec_bytes()),
{
    hex::decode(s).ok()
}

/// Greatest common divisor, with `gcd(a, 0) == a`.
pub open spec fn gcd_of(a: nat, b: nat) -> nat
    decreases b,
{
    if b == 0 {
        a
    } else {
        gcd_of(b, a % b)
    }
}

/// Relies on `Gcd::gcd` for `u64` of the gcd crate.
#[verifier::external_body]
pub(crate) fn gcd_u64(a: u64, b: u64) -> (r: u64)
    ensures
        r == gcd_of(a as nat, b as nat),
{
    a.gcd(b)
}

} // verus!
