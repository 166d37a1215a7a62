//! Checks and conversions of keys handed in by callers.
use vstd::prelude::*;
use vstd::string::StringSliceAdditionalSpecFns;
use crate::crypto::{
    decode_hex, hex_bytes, derive_public_key, parse_public_key, parsed_public_key, public_key_of, uncompressed_key,
    uncompressed_public_key,
};
use crate::error::Error;

verus! {

/// Both encodings of a public key.
pub struct PublicKeys {
    /// The 65-byte uncompressed encoding.
    pub public_key: Vec<u8>,
    /// The 33-byte compressed encoding.
    pub compressed_public_key: Vec<u8>,
}

/// Accepts the bytes of a public key in either encoding.
pub fn verify_public_key(public_key: &[u8]) -> (r: Result<(), Error>)
    ensures
        r is Ok <==> parsed_public_key(public_key@) is Some,
        r matches Err(e) ==> e == Error::DecodingError,
{
    match parse_public_key(public_key) {
        Some(_) => Ok(()),
        None => Err(Error::DecodingError),
    }
}

/// Accepts the 32 bytes of a valid private key.
pub fn verify_private_key(private_key: &[u8]) -> (r: Result<(), Error>)
    ensures
        r is Ok <==> public_key_of(private_key@) is Some,
        r matches Err(e) ==> e == Error::DecodingError,
{
    match derive_public_key(private_key) {
        Some(_) => Ok(()),
        None => Err(Error::DecodingError),
    }
}

/// Both encodings of a public key given in either encoding.
pub fn get_public_keys_from_any_public_key(public_key: &[u8]) -> (r: Result<PublicKeys, Error>)
    ensures
        r is Ok <==> parsed_public_key(public_key@) is Some,
        r matches Ok(k) ==> Some(k.compressed_public_key@) == parsed_public_key(public_key@) && Some(
            k.public_key@,
        ) == uncompressed_public_key(public_key@),
        r matches Err(e) ==> e == Error::DecodingError,
{
    let compressed = match parse_public_key(public_key) {
        Some(k) => k,
        None => return Err(Error::DecodingError),
    };
    let full = match uncompressed_key(public_key) {
        Some(k) => k,
        None => return Err(Error::DecodingError),
    };
    Ok(PublicKeys { public_key: full, compressed_public_key: compressed })
}

/// Both encodings of the public key of a private key.
pub fn get_public_keys_from_private_key(private_key: &[u8]) -> (r: Result<PublicKeys, Error>)
    ensures
        r is Ok <==> public_key_of(private_key@) is Some,
        r matches Ok(k) ==> Some(k.compressed_public_key@) == public_key_of(private_key@) && Some(
            k.public_key@,
        ) == uncompressed_public_key(k.compressed_public_key@),
        r matches Err(e) ==> e == Error::DecodingError,
{
    let compressed = match derive_public_key(private_key) {
        Some(k) => k,
        None => return Err(Error::DecodingError),
    };
    let full = match uncompressed_key(compressed.as_slice()) {
        Some(k) => k,
        None => return Err(Error::DecodingError),
    };
    Ok(PublicKeys { public_key: full, compressed_public_key: compressed })
}

/// Whether the bytes are a public key usable as a view key.
pub fn is_valid_view_key(view_key: &[u8]) -> (r: bool)
    ensures
        r == parsed_public_key(view_key@) is Some,
{
    parse_public_key(view_key).is_some()
}

/// The canonical (compressed) form of a view key given in either encoding.
pub fn parse_view_key(view_key: &[u8]) -> (r: Result<Vec<u8>, Error>)
    ensures
        match parsed_public_key(view_key@) {
            Some(k) => r matches Ok(c) && c@ == k,
            None => r == Err::<Vec<u8>, Error>(Error::DecodingError),
        },
{
    match parse_public_key(view_key) {
        Some(k) => Ok(k),
        None => Err(Error::DecodingError),
    }
}

/// The canonical (compressed) form of a public key written in hexadecimal, in
/// either case.
pub fn public_key_from_hex(text: &str) -> (r: Result<Vec<u8>, Error>)
    ensures
        match hex_bytes(text.spec_bytes()) {
            Some(b) => match parsed_public_key(b) {
                Some(k) => r matches Ok(c) && c@ == k,
                None => r == Err::<Vec<u8>, Error>(Error::DecodingError),
            },
            None => r == Err::<Vec<u8>, Error>(Error::DecodingError),
        },
{
    let bytes = match decode_hex(text) {
        Some(b) => b,
        None => return Err(Error::DecodingError),
    };
    parse_view_key(bytes.as_slice())
}

} // verus!
