//! A signer holding one key pair: recoverable signatures for staking operations and
//! Schnorr signatures for transfer witnesses.
use vstd::prelude::*;
use crate::codec::push_bytes;
use crate::crypto::{
    derive_public_key, parse_public_key, parsed_public_key, public_key_of,
    recoverable_signature_of, schnorr_signature_of, sign_recoverable, sign_schnorr,
};
use crate::error::Error;

verus! {

/// A key pair able to sign. The public key is kept in canonical (compressed) form; a
/// witness carries it so the single-signer address can be checked.
pub struct KeyPairSigner {
    pub private_key: Vec<u8>,
    pub public_key: Vec<u8>,
}

impl KeyPairSigner {
    pub open spec fn wf(&self) -> bool {
        &&& public_key_of(self.private_key@) is Some
        &&& self.public_key@.len() == 33
    }

    /// A signer for the given private key and (compressed or uncompressed) public key.
    pub fn new(private_key: &[u8], public_key: &[u8]) -> (r: Result<KeyPairSigner, Error>)
        ensures
            r is Ok <==> public_key_of(private_key@) is Some && parsed_public_key(public_key@) is Some,
            r matches Ok(s) ==> s.wf() && s.private_key@ == private_key@ && Some(s.public_key@)
                == parsed_public_key(public_key@),
            r matches Err(e) ==> e == Error::DecodingError,
    {
        if derive_public_key(private_key).is_none() {
            return Err(Error::DecodingError);
        }
        let public_key = match parse_public_key(public_key) {
            Some(k) => k,
            None => return Err(Error::DecodingError),
        };
        let mut sk: Vec<u8> = Vec::new();
        push_bytes(&mut sk, private_key);
        assert(sk@ =~= private_key@);
        Ok(KeyPairSigner { private_key: sk, public_key })
    }

    /// A recoverable signature of a 32-byte message digest.
    pub fn sign(&self, message: &[u8]) -> (r: Result<Vec<u8>, Error>)
        requires
            self.wf(),
        ensures
            r is Ok <==> message@.len() == 32,
            r matches Ok(sig) ==> Some(sig@) == recoverable_signature_of(message@, self.private_key@)
                && sig@.len() == 65,
            r matches Err(e) ==> e == Error::DecodingError,
    {
        match sign_recoverable(message, self.private_key.as_slice()) {
            Some(sig) => Ok(sig),
            None => Err(Error::DecodingError),
        }
    }

    /// A Schnorr signature of a 32-byte message digest.
    pub fn schnorr_sign(&self, message: &[u8]) -> (r: Result<Vec<u8>, Error>)
        requires
            self.wf(),
        ensures
            r is Ok <==> message@.len() == 32,
            r matches Ok(sig) ==> Some(sig@) == schnorr_signature_of(message@, self.private_key@)
                && sig@.len() == 64,
            r matches Err(e) ==> e == Error::DecodingError,
    {
        match sign_schnorr(message, self.private_key.as_slice()) {
            Some(sig) => Ok(sig),
            None => Err(Error::DecodingError),
        }
    }

    /// The witness for an input: a Schnorr signature of the transaction id followed
    /// by this signer's public key.
    pub fn schnorr_sign_txid(&self, txid: &[u8]) -> (r: Result<Vec<u8>, Error>)
        requires
            self.wf(),
        ensures
            r is Ok <==> txid@.len() == 32,
            r matches Ok(w) ==> w@.len() == 97 && Some(w@.subrange(0, 64)) == schnorr_signature_of(
                txid@,
                self.private_key@,
            ) && w@.subrange(64, 97) == self.public_key@,
            r matches Err(e) ==> e == Error::DecodingError,
    {
        let mut witness = self.schnorr_sign(txid)?;
        let ghost sig = witness@;
        push_bytes(&mut witness, self.public_key.as_slice());
        assert(witness@.subrange(0, 64) =~= sig);
        assert(witness@.subrange(64, 97) =~= self.public_key@);
        Ok(witness)
    }
}

/// Signs a 32-byte message as the single signer `public_key` / `private_key`, and
/// returns the witness: the Schnorr signature followed by the compressed public key.
pub fn schnorr_sign_message(message: &[u8], private_key: &[u8], public_key: &[u8]) -> (r: Result<
    Vec<u8>,
    Error,
>)
    ensures
        r is Ok <==> message@.len() == 32 && public_key_of(private_key@) is Some && parsed_public_key(
            public_key@,
        ) is Some,
        r matches Ok(w) ==> w@.len() == 97 && Some(w@.subrange(0, 64)) == schnorr_signature_of(
            message@,
            private_key@,
        ) && Some(w@.subrange(64, 97)) == parsed_public_key(public_key@),
        r matches Err(e) ==> e == Error::DecodingError,
{
    let signer = KeyPairSigner::new(private_key, public_key)?;
    signer.schnorr_sign_txid(message)
}

} // verus!
