//! Withdrawing unbonded stake: a transaction that pays a staking account's unbonded
//! amount to outputs, signed with a recoverable signature.
use vstd::prelude::*;
use crate::builder::{
    fee_for, lemma_out_round_trip, lemma_sum_outputs_bound, out_wf, output_records, sum_outputs, LinearFee, OutView, TxOut,
    MAX_ITEMS,
};
use crate::codec::{flatten, lemma_flatten_fixed, push_bytes, push_u32, push_u64, push_zeros, u32_le, u64_le, zeros};
use crate::crypto::{encode_hex, hex_text, is_compressed_point, parsed_public_key, public_key_of, recoverable_signature_of, seq_bytes, sha256, sha256_of};
use crate::error::Error;
use crate::multi_sig::{all_keys_parse, canonical_keys, canonicalize};
use crate::signer::KeyPairSigner;

verus! {

/// First byte of a signed withdrawal.
pub const WITHDRAW_TAG: u8 = 0x20;

/// Length of a recoverable signature.
pub const RECOVERABLE_LEN: usize = 65;

/// A withdrawal of unbonded stake.
pub struct WithdrawUnbondedTx {
    pub nonce: u64,
    pub outputs: Vec<TxOut>,
    pub chain_hex_id: u8,
    pub view_keys: Vec<Vec<u8>>,
}

pub struct WithdrawView {
    pub nonce: u64,
    pub outputs: Seq<OutView>,
    pub chain_hex_id: u8,
    pub view_keys: Seq<Seq<u8>>,
}

impl View for WithdrawUnbondedTx {
    type V = WithdrawView;

    open spec fn view(&self) -> WithdrawView {
        WithdrawView {
            nonce: self.nonce,
            outputs: self.outputs@.map_values(|o: TxOut| o@),
            chain_hex_id: self.chain_hex_id,
            view_keys: seq_bytes(self.view_keys@),
        }
    }
}

pub open spec fn withdraw_wf(v: WithdrawView) -> bool {
    &&& v.outputs.len() <= MAX_ITEMS
    &&& v.view_keys.len() <= MAX_ITEMS
    &&& forall|i: int| 0 <= i < v.outputs.len() ==> out_wf(#[trigger] v.outputs[i])
    &&& forall|i: int| 0 <= i < v.view_keys.len() ==> is_compressed_point(#[trigger] v.view_keys[i])
}

/// The unsigned withdrawal: nonce, outputs, chain id and view keys.
pub open spec fn withdraw_bytes(v: WithdrawView) -> Seq<u8> {
    u64_le(v.nonce) + u32_le(v.outputs.len() as u32) + flatten(output_records(v.outputs)) + seq![
        v.chain_hex_id,
    ] + u32_le(v.view_keys.len() as u32) + flatten(v.view_keys)
}

/// The withdrawal's id: the hash of its unsigned bytes.
pub open spec fn withdraw_id(v: WithdrawView) -> Seq<u8> {
    sha256_of(withdraw_bytes(v))
}

/// The signed withdrawal: tag, unsigned bytes, then the signature.
pub open spec fn signed_withdraw_bytes(v: WithdrawView, sig: Seq<u8>) -> Seq<u8> {
    seq![WITHDRAW_TAG] + withdraw_bytes(v) + sig
}

/// The fee a withdrawal owes: the fee for its signed size.
pub open spec fn withdraw_fee(v: WithdrawView, fee: LinearFee) -> int {
    fee_for(fee, signed_withdraw_bytes(v, zeros(65)).len())
}

/// What signing a withdrawal from an account with `unbonded` gives: the signed bytes,
/// or why not.
pub open spec fn withdraw_outcome(
    v: WithdrawView,
    unbonded: u64,
    fee: LinearFee,
    sk: Seq<u8>,
    pk: Seq<u8>,
) -> Result<Seq<u8>, Error> {
    if public_key_of(sk) is None || parsed_public_key(pk) is None {
        Err(Error::DecodingError)
    } else if unbonded - sum_outputs(v.outputs) < withdraw_fee(v, fee) {
        Err(Error::InsufficientFunds)
    } else {
        Ok(signed_withdraw_bytes(v, recoverable_signature_of(withdraw_id(v), sk)->0))
    }
}

/// With a usable key, a withdrawal is signed exactly when the unbonded amount less
/// the outputs covers the fee; one unit short, it fails for want of funds.
pub proof fn lemma_withdraw_fee_boundary(
    v: WithdrawView,
    unbonded: u64,
    fee: LinearFee,
    sk: Seq<u8>,
    pk: Seq<u8>,
)
    requires
        public_key_of(sk) is Some,
        parsed_public_key(pk) is Some,
    ensures
        withdraw_outcome(v, unbonded, fee, sk, pk) is Ok <==> unbonded - sum_outputs(v.outputs)
            >= withdraw_fee(v, fee),
        unbonded - sum_outputs(v.outputs) == withdraw_fee(v, fee) - 1 ==> withdraw_outcome(
            v,
            unbonded,
            fee,
            sk,
            pk,
        ) == Err::<Seq<u8>, Error>(Error::InsufficientFunds),
{
}

proof fn lemma_withdraw_len(v: WithdrawView)
    requires
        withdraw_wf(v),
    ensures
        withdraw_bytes(v).len() == 17 + 49 * v.outputs.len() + 33 * v.view_keys.len(),
{
    let orr = output_records(v.outputs);
    assert forall|k: int| 0 <= k < orr.len() implies (#[trigger] orr[k]).len() == 49 by {
        lemma_out_round_trip(v.outputs[k]);
    }
    lemma_flatten_fixed(orr, 49);
    lemma_flatten_fixed(v.view_keys, 33);
}

impl WithdrawUnbondedTx {
    /// A withdrawal of `nonce` paying `outputs`, readable by the holders of
    /// `view_keys` (given in either encoding; kept compressed).
    pub fn new(nonce: u64, outputs: Vec<TxOut>, chain_hex_id: u8, view_keys: &Vec<Vec<u8>>) -> (r:
        Result<WithdrawUnbondedTx, Error>)
        ensures
            r is Ok <==> all_keys_parse(seq_bytes(view_keys@)) && view_keys@.len() <= MAX_ITEMS
                && outputs@.len() <= MAX_ITEMS && forall|i: int|
                0 <= i < outputs@.len() ==> (#[trigger] outputs@[i]).address@.len() == 32,
            r matches Ok(t) ==> withdraw_wf(t@) && t@ == (WithdrawView {
                nonce,
                outputs: outputs@.map_values(|o: TxOut| o@),
                chain_hex_id,
                view_keys: canonical_keys(seq_bytes(view_keys@)),
            }),
            r matches Err(e) ==> e == (if all_keys_parse(seq_bytes(view_keys@)) && forall|i: int|
                0 <= i < outputs@.len() ==> (#[trigger] outputs@[i]).address@.len() == 32 {
                Error::InvalidArgument
            } else {
                Error::DecodingError
            }),
    {
        let keys = match canonicalize(view_keys) {
            Some(k) => k,
            None => return Err(Error::DecodingError),
        };
        assert(seq_bytes(keys@).len() == keys@.len());
        assert(canonical_keys(seq_bytes(view_keys@)).len() == view_keys@.len());
        let mut i: usize = 0;
        while i < outputs.len()
            invariant
                i <= outputs@.len(),
                forall|k: int| 0 <= k < i ==> (#[trigger] outputs@[k]).address@.len() == 32,
            decreases outputs@.len() - i,
        {
            if outputs[i].address.len() != 32 {
                return Err(Error::DecodingError);
            }
            i = i + 1;
        }
        if keys.len() > MAX_ITEMS || outputs.len() > MAX_ITEMS {
            return Err(Error::InvalidArgument);
        }
        let t = WithdrawUnbondedTx { nonce, outputs, chain_hex_id, view_keys: keys };
        proof {
            assert forall|k: int| 0 <= k < t@.outputs.len() implies out_wf(#[trigger] t@.outputs[k]) by {
                assert(t@.outputs[k] == t.outputs@[k]@);
            }
        }
        Ok(t)
    }

    /// The unsigned bytes.
    pub fn encode(&self) -> (r: Vec<u8>)
        requires
            withdraw_wf(self@),
        ensures
            r@ == withdraw_bytes(self@),
    {
        let ghost v = self@;
        let mut out: Vec<u8> = Vec::new();
        push_u64(&mut out, self.nonce);
        push_u32(&mut out, self.outputs.len() as u32);
        let ghost head = out@;
        let mut j: usize = 0;
        while j < self.outputs.len()
            invariant
                v == self@,
                withdraw_wf(v),
                j <= self.outputs@.len(),
                out@ == head + flatten(output_records(v.outputs).subrange(0, j as int)),
            decreases self.outputs@.len() - j,
        {
            proof {
                assert(out_wf(v.outputs[j as int]));
            }
            let o = &self.outputs[j];
            push_bytes(&mut out, o.address.as_slice());
            push_u64(&mut out, o.value);
            match o.valid_from {
                Some(x) => {
                    out.push(1u8);
                    push_u64(&mut out, x);
                },
                None => {
                    out.push(0u8);
                    push_zeros(&mut out, 8);
                },
            }
            assert(output_records(v.outputs).subrange(0, j + 1).drop_last() =~= output_records(
                v.outputs,
            ).subrange(0, j as int));
            assert(out@ =~= head + flatten(output_records(v.outputs).subrange(0, j + 1)));
            j = j + 1;
        }
        assert(output_records(v.outputs).subrange(0, j as int) =~= output_records(v.outputs));
        out.push(self.chain_hex_id);
        push_u32(&mut out, self.view_keys.len() as u32);
        let ghost head2 = out@;
        let mut k: usize = 0;
        while k < self.view_keys.len()
            invariant
                v == self@,
                k <= self.view_keys@.len(),
                out@ == head2 + flatten(v.view_keys.subrange(0, k as int)),
            decreases self.view_keys@.len() - k,
        {
            push_bytes(&mut out, self.view_keys[k].as_slice());
            assert(v.view_keys.subrange(0, k + 1).drop_last() =~= v.view_keys.subrange(0, k as int));
            k = k + 1;
        }
        assert(v.view_keys.subrange(0, k as int) =~= v.view_keys);
        assert(out@ =~= withdraw_bytes(v));
        out
    }

    /// The withdrawal's id.
    pub fn id(&self) -> (r: Vec<u8>)
        requires
            withdraw_wf(self@),
        ensures
            r@ == withdraw_id(self@),
            r@.len() == 32,
    {
        sha256(self.encode().as_slice())
    }
}

/// The unsigned bytes of a withdrawal and its id in hexadecimal.
pub fn build_raw_withdraw_unbonded_transaction(tx: &WithdrawUnbondedTx) -> (r: (Vec<u8>, String))
    requires
        withdraw_wf(tx@),
    ensures
        r.0@ == withdraw_bytes(tx@),
        r.1@ == hex_text(withdraw_id(tx@)),
{
    let bytes = tx.encode();
    let id = sha256(bytes.as_slice());
    (bytes, encode_hex(id.as_slice()))
}

/// The fee a withdrawal will owe once signed, estimated with a zero-filled signature
/// of the right size in place of the real one.
pub fn estimate_withdraw_unbonded_transaction_fee(tx: &WithdrawUnbondedTx, fee: LinearFee) -> (r:
    u128)
    requires
        withdraw_wf(tx@),
    ensures
        r == withdraw_fee(tx@, fee),
{
    let mut signed: Vec<u8> = Vec::new();
    signed.push(WITHDRAW_TAG);
    let bytes = tx.encode();
    push_bytes(&mut signed, bytes.as_slice());
    push_zeros(&mut signed, RECOVERABLE_LEN);
    proof {
        lemma_withdraw_len(tx@);
        assert(signed@ =~= signed_withdraw_bytes(tx@, zeros(65)));
    }
    fee.estimate(signed.len())
}

/// Signs a withdrawal from an account holding `unbonded`, once the unbonded amount
/// less the outputs covers the fee.
pub fn withdraw_unbonded_transaction_to_signed_plain_hex(
    tx: &WithdrawUnbondedTx,
    unbonded: u64,
    fee: LinearFee,
    private_key: &[u8],
    public_key: &[u8],
) -> (r: Result<Vec<u8>, Error>)
    requires
        withdraw_wf(tx@),
    ensures
        match withdraw_outcome(tx@, unbonded, fee, private_key@, public_key@) {
            Ok(b) => r matches Ok(x) && x@ == b,
            Err(e) => r == Err::<Vec<u8>, Error>(e),
        },
{
    let signer = KeyPairSigner::new(private_key, public_key)?;
    let mut paid: u128 = 0;
    let mut i: usize = 0;
    let ghost outs = tx@.outputs;
    while i < tx.outputs.len()
        invariant
            outs == tx@.outputs,
            outs.len() <= MAX_ITEMS,
            i <= outs.len(),
            paid == sum_outputs(outs.subrange(0, i as int)),
        decreases outs.len() - i,
    {
        proof {
            lemma_sum_outputs_bound(outs.subrange(0, i as int));
            assert(outs.subrange(0, i + 1).drop_last() =~= outs.subrange(0, i as int));
            assert(i * 0xffff_ffff_ffff_ffff <= 65535 * 0xffff_ffff_ffff_ffff) by (nonlinear_arith)
                requires
                    i <= 65535,
            ;
        }
        paid = paid + tx.outputs[i].value as u128;
        i = i + 1;
    }
    assert(outs.subrange(0, i as int) =~= outs);
    let owed = estimate_withdraw_unbonded_transaction_fee(tx, fee);
    if (unbonded as u128) < paid || (unbonded as u128) - paid < owed {
        return Err(Error::InsufficientFunds);
    }
    let bytes = tx.encode();
    let id = sha256(bytes.as_slice());
    let sig = signer.sign(id.as_slice())?;
    let mut out: Vec<u8> = Vec::new();
    out.push(WITHDRAW_TAG);
    push_bytes(&mut out, bytes.as_slice());
    push_bytes(&mut out, sig.as_slice());
    assert(out@ =~= signed_withdraw_bytes(tx@, sig@));
    Ok(out)
}

} // verus!
