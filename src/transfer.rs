//! Transfer transactions built across independent calls: every operation takes the
//! builder's snapshot (and its fee model) and returns a new snapshot or a result.
use vstd::prelude::*;
use vstd::string::StringSliceAdditionalSpecFns;
use crate::builder::{
    after_add_witness, builder_bytes, builder_wf, completed, fee_check, finalize_outcome,
    required_fee, tx_id_of, BuilderView, InputView, LinearFee, OutView, TransactionBuilder, TxOut,
    MAX_ITEMS,
};
use crate::crypto::{encode_hex, hex_text, parsed_public_key, public_key_of, schnorr_signature_of, seq_bytes};
use crate::error::Error;
use crate::multi_sig::{all_keys_parse, canonical_keys};
use crate::obfuscation::{mock_encrypt, mock_envelope, select_strategy, strategy_outcome, Features, Strategy};
use crate::options::{leaves_from, transfer_address_leaves};
use crate::signer::KeyPairSigner;

verus! {

/// The signing parameters of an input's address: `required_signers` of
/// `total_signers` must sign.
pub struct RawTransactionOptionsInputAddressParams {
    pub required_signers: u64,
    pub total_signers: u64,
}

/// An input as the caller describes it.
pub struct RawTransactionOptionsInput {
    pub prev_tx_id: Vec<u8>,
    pub prev_index: u16,
    pub prev_output: TxOut,
    pub address_params: RawTransactionOptionsInputAddressParams,
}

/// A transfer transaction as the caller describes it.
pub struct RawTransactionOptions {
    pub inputs: Vec<RawTransactionOptionsInput>,
    pub outputs: Vec<TxOut>,
    pub view_keys: Vec<Vec<u8>>,
    pub chain_hex_id: u8,
}

/// A transaction description with its fee model.
pub struct BuilderOptions {
    pub raw_tx_options: RawTransactionOptions,
    pub fee_algorithm: LinearFee,
}

/// `b` is the snapshot of the well-formed builder `v` under `fee`.
pub open spec fn builder_snapshot_of(b: Seq<u8>, fee: LinearFee, v: BuilderView) -> bool {
    builder_wf(v) && builder_bytes(v) == b && v.fee_algorithm == fee
}

/// The leaf count of an input's address.
pub open spec fn input_leaves(i: RawTransactionOptionsInput) -> Option<nat> {
    if i.address_params.required_signers <= i.address_params.total_signers {
        leaves_from(
            i.address_params.total_signers as nat,
            1,
            i.address_params.required_signers as nat,
            1,
        )
    } else {
        None
    }
}

/// Whether a description can be built: view keys decode, ids and addresses are 32
/// bytes, the signing parameters are computable, and no list is too long.
pub open spec fn options_valid(o: BuilderOptions) -> bool {
    let t = o.raw_tx_options;
    &&& all_keys_parse(seq_bytes(t.view_keys@))
    &&& t.view_keys@.len() <= MAX_ITEMS
    &&& t.inputs@.len() <= MAX_ITEMS
    &&& t.outputs@.len() <= MAX_ITEMS
    &&& forall|i: int|
        0 <= i < t.inputs@.len() ==> (#[trigger] t.inputs@[i]).prev_tx_id@.len() == 32
            && t.inputs@[i].prev_output.address@.len() == 32 && input_leaves(t.inputs@[i]) is Some
    &&& forall|i: int| 0 <= i < t.outputs@.len() ==> (#[trigger] t.outputs@[i]).address@.len() == 32
}

/// The builder a valid description gives.
pub open spec fn options_builder(o: BuilderOptions) -> BuilderView {
    let t = o.raw_tx_options;
    BuilderView {
        chain_hex_id: t.chain_hex_id,
        view_keys: canonical_keys(seq_bytes(t.view_keys@)),
        inputs: t.inputs@.map_values(
            |i: RawTransactionOptionsInput|
                InputView {
                    prev_tx_id: i.prev_tx_id@,
                    prev_index: i.prev_index,
                    prev_output: i.prev_output@,
                    leaves: #[verifier::truncate] ((input_leaves(i)->0) as u16),
                    witness: None,
                },
        ),
        outputs: t.outputs@.map_values(|x: TxOut| x@),
        fee_algorithm: o.fee_algorithm,
    }
}

/// Builds a transaction without witnesses and returns its snapshot.
pub fn build_incomplete_hex_linear_fee(options: &BuilderOptions) -> (r: Result<Vec<u8>, Error>)
    ensures
        r is Ok <==> options_valid(*options),
        r matches Ok(b) ==> builder_snapshot_of(b@, options.fee_algorithm, options_builder(*options)),
{
    let t = &options.raw_tx_options;
    let mut builder = match TransactionBuilder::new(t.chain_hex_id, &t.view_keys, options.fee_algorithm) {
        Ok(b) => b,
        Err(e) => return Err(e),
    };
    let ghost target = options_builder(*options);
    let mut i: usize = 0;
    while i < t.inputs.len()
        invariant
            t == &options.raw_tx_options,
            target == options_builder(*options),
            all_keys_parse(seq_bytes(t.view_keys@)),
            t.view_keys@.len() <= MAX_ITEMS,
            builder_wf(builder@),
            i <= t.inputs@.len(),
            builder@.chain_hex_id == target.chain_hex_id,
            builder@.view_keys == target.view_keys,
            builder@.fee_algorithm == target.fee_algorithm,
            builder@.outputs == Seq::<OutView>::empty(),
            builder@.inputs == target.inputs.subrange(0, i as int),
            forall|k: int|
                0 <= k < i ==> (#[trigger] t.inputs@[k]).prev_tx_id@.len() == 32
                    && t.inputs@[k].prev_output.address@.len() == 32 && input_leaves(t.inputs@[k]) is Some,
        decreases t.inputs@.len() - i,
    {
        let input = &t.inputs[i];
        let leaves = if input.address_params.required_signers > input.address_params.total_signers {
            return Err(Error::InvalidArgument);
        } else {
            match transfer_address_leaves(
                input.address_params.total_signers,
                input.address_params.required_signers,
            ) {
                Ok(l) => l,
                Err(e) => return Err(e),
            }
        };
        match builder.add_input(input.prev_tx_id.as_slice(), input.prev_index, input.prev_output.copy(), leaves) {
            Ok(()) => {},
            Err(e) => return Err(e),
        }
        assert(builder@.inputs =~= target.inputs.subrange(0, i + 1));
        i = i + 1;
    }
    assert(target.inputs.subrange(0, i as int) =~= target.inputs);
    let mut j: usize = 0;
    while j < t.outputs.len()
        invariant
            t == &options.raw_tx_options,
            target == options_builder(*options),
            builder_wf(builder@),
            j <= t.outputs@.len(),
            t.inputs@.len() <= MAX_ITEMS,
            all_keys_parse(seq_bytes(t.view_keys@)),
            t.view_keys@.len() <= MAX_ITEMS,
            forall|k: int|
                0 <= k < t.inputs@.len() ==> (#[trigger] t.inputs@[k]).prev_tx_id@.len() == 32
                    && t.inputs@[k].prev_output.address@.len() == 32 && input_leaves(t.inputs@[k]) is Some,
            builder@.chain_hex_id == target.chain_hex_id,
            builder@.view_keys == target.view_keys,
            builder@.fee_algorithm == target.fee_algorithm,
            builder@.inputs == target.inputs,
            builder@.outputs == target.outputs.subrange(0, j as int),
            forall|k: int| 0 <= k < j ==> (#[trigger] t.outputs@[k]).address@.len() == 32,
        decreases t.outputs@.len() - j,
    {
        match builder.add_output(t.outputs[j].copy()) {
            Ok(()) => {},
            Err(e) => return Err(e),
        }
        assert(builder@.outputs =~= target.outputs.subrange(0, j + 1));
        j = j + 1;
    }
    assert(target.outputs.subrange(0, j as int) =~= target.outputs);
    assert(builder@ == target);
    Ok(builder.to_incomplete())
}

/// Restores the builder of a snapshot.
pub fn incomplete_builder_linear_fee_argument(incomplete_hex: &[u8], fee: LinearFee) -> (r: Result<
    TransactionBuilder,
    Error,
>)
    ensures
        r matches Ok(t) ==> builder_snapshot_of(incomplete_hex@, fee, t@),
        r matches Err(e) ==> e == Error::DecodingError,
        forall|v: BuilderView| builder_snapshot_of(incomplete_hex@, fee, v) ==> (r matches Ok(t) && t@ == v),
{
    TransactionBuilder::from_incomplete(incomplete_hex, fee)
}

/// Stores a witness for the input at `index` in a snapshot.
pub fn add_input_witness_linear_fee(
    incomplete_hex: &[u8],
    fee: LinearFee,
    index: usize,
    witness: &[u8],
) -> (r: Result<Vec<u8>, Error>)
    ensures
        forall|v: BuilderView|
            builder_snapshot_of(incomplete_hex@, fee, v) ==> match after_add_witness(v, index as int, witness@) {
                Ok(w) => r matches Ok(b) && builder_snapshot_of(b@, fee, w),
                Err(e) => r == Err::<Vec<u8>, Error>(e),
            },
{
    let mut builder = TransactionBuilder::from_incomplete(incomplete_hex, fee)?;
    builder.add_witness(index, witness)?;
    Ok(builder.to_incomplete())
}

/// Signs the input at `index` with a key pair and stores the witness in a snapshot.
pub fn sign_input_linear_fee(
    incomplete_hex: &[u8],
    fee: LinearFee,
    index: usize,
    private_key: &[u8],
    public_key: &[u8],
) -> (r: Result<Vec<u8>, Error>)
    ensures
        forall|v: BuilderView|
            builder_snapshot_of(incomplete_hex@, fee, v) && index >= v.inputs.len() ==> r == Err::<
                Vec<u8>,
                Error,
            >(Error::InvalidArgument),
        forall|v: BuilderView|
            builder_snapshot_of(incomplete_hex@, fee, v) && index < v.inputs.len() && (public_key_of(
                private_key@,
            ) is None || parsed_public_key(public_key@) is None) ==> r == Err::<Vec<u8>, Error>(
                Error::DecodingError,
            ),
        forall|v: BuilderView|
            builder_snapshot_of(incomplete_hex@, fee, v) && index < v.inputs.len() && public_key_of(
                private_key@,
            ) is Some && parsed_public_key(public_key@) is Some ==> (r matches Ok(b) && (exists|
                wit: Seq<u8>,
            |
                #![auto]
                wit.len() == 97 && Some(wit.subrange(0, 64)) == schnorr_signature_of(
                    tx_id_of(v),
                    private_key@,
                ) && wit.subrange(64, 97) == parsed_public_key(public_key@)->0 && (after_add_witness(
                    v,
                    index as int,
                    wit,
                ) matches Ok(w) && builder_snapshot_of(b@, fee, w)))),
{
    let mut builder = TransactionBuilder::from_incomplete(incomplete_hex, fee)?;
    let _ = builder.input_at(index)?;
    let signer = KeyPairSigner::new(private_key, public_key)?;
    let tx_id = builder.tx_id();
    let witness = match signer.schnorr_sign_txid(tx_id.as_slice()) {
        Ok(w) => w,
        Err(e) => return Err(e),
    };
    let ghost before = builder@;
    match builder.add_witness(index, witness.as_slice()) {
        Ok(()) => {},
        Err(e) => return Err(e),
    }
    proof {
        let w = builder@;
        assert(forall|j: int| 0 <= j < before.inputs.len() && j != index ==> w.inputs[j] == before.inputs[j]);
    }
    Ok(builder.to_incomplete())
}

/// Whether every input of a snapshot has its witness.
pub fn is_completed_linear_fee(incomplete_hex: &[u8], fee: LinearFee) -> (r: Result<bool, Error>)
    ensures
        r matches Err(e) ==> e == Error::DecodingError,
        forall|v: BuilderView| builder_snapshot_of(incomplete_hex@, fee, v) ==> r == Ok::<bool, Error>(completed(v)),
{
    let builder = TransactionBuilder::from_incomplete(incomplete_hex, fee)?;
    Ok(builder.is_completed())
}

/// The transaction id of a snapshot, in lowercase hexadecimal.
pub fn tx_id_linear_fee(incomplete_hex: &[u8], fee: LinearFee) -> (r: Result<String, Error>)
    ensures
        r matches Err(e) ==> e == Error::DecodingError,
        forall|v: BuilderView|
            builder_snapshot_of(incomplete_hex@, fee, v) ==> (r matches Ok(s) && s@ == hex_text(tx_id_of(v))),
{
    let builder = TransactionBuilder::from_incomplete(incomplete_hex, fee)?;
    let id = builder.tx_id();
    Ok(encode_hex(id.as_slice()))
}

/// The fee a snapshot's transaction will owe once signed.
pub fn estimate_fee_linear_fee(incomplete_hex: &[u8], fee: LinearFee) -> (r: Result<u128, Error>)
    ensures
        r matches Err(e) ==> e == Error::DecodingError,
        forall|v: BuilderView|
            builder_snapshot_of(incomplete_hex@, fee, v) ==> (r matches Ok(f) && f == required_fee(v)),
{
    let builder = TransactionBuilder::from_incomplete(incomplete_hex, fee)?;
    Ok(builder.estimate_fee())
}

/// Checks that a snapshot's inputs cover its outputs and fee.
pub fn verify_linear_fee(incomplete_hex: &[u8], fee: LinearFee) -> (r: Result<(), Error>)
    ensures
        forall|v: BuilderView| builder_snapshot_of(incomplete_hex@, fee, v) ==> r == fee_check(v),
{
    let builder = TransactionBuilder::from_incomplete(incomplete_hex, fee)?;
    builder.verify()
}

/// A finished transaction: either the broadcast-ready envelope, or the signed
/// transaction to hand to the encryption oracle that the strategy names.
pub enum Finalized {
    Envelope(Vec<u8>),
    ForOracle(Strategy, Vec<u8>),
}

/// Finishes a snapshot's transaction under the strategy that `features` and
/// `tendermint_address` select.
pub fn to_hex_linear_fee(
    incomplete_hex: &[u8],
    fee: LinearFee,
    tendermint_address: &str,
    features: Features,
) -> (r: Result<Finalized, Error>)
    ensures
        forall|v: BuilderView|
            builder_snapshot_of(incomplete_hex@, fee, v) ==> match strategy_outcome(
                features,
                tendermint_address.spec_bytes(),
            ) {
                Err(e) => r == Err::<Finalized, Error>(e),
                Ok(Strategy::Mock) => match finalize_outcome(v) {
                    Ok(signed) => r matches Ok(Finalized::Envelope(b)) && b@ == mock_envelope(v, signed),
                    Err(e) => r == Err::<Finalized, Error>(e),
                },
                Ok(st) => match finalize_outcome(v) {
                    Ok(signed) => r matches Ok(Finalized::ForOracle(chosen, b)) && chosen == st && b@
                        == signed,
                    Err(e) => r == Err::<Finalized, Error>(e),
                },
            },
{
    let builder = TransactionBuilder::from_incomplete(incomplete_hex, fee)?;
    let strategy = select_strategy(features, tendermint_address)?;
    match strategy {
        Strategy::Mock => Ok(Finalized::Envelope(mock_encrypt(&builder)?)),
        _ => Ok(Finalized::ForOracle(strategy, builder.finalize()?)),
    }
}

} // verus!
