//! The transfer transaction builder: inputs with one witness slot each, outputs and
//! attributes, carried between calls as a byte snapshot, with a linear fee model.
use vstd::prelude::*;
use crate::codec::{
    lemma_opt_field_canonical, lemma_records_equal, lemma_u16_canonical, lemma_u32_canonical,
    lemma_u64_canonical, flatten, lemma_flatten_fixed, lemma_opt_field, lemma_u16_le, lemma_u32_le, lemma_u64_le,
    opt_field, opt_field_of, opt_field_ok, push_bytes, push_opt, push_u16, push_u32, push_u64,
    push_zeros, read_bytes, read_opt, read_u16, read_u32, read_u64, u16_le, u16_of, u32_le,
    u32_of, u64_le, u64_of, zeros,
};
use crate::crypto::{is_compressed_point, opt_bytes, seq_bytes, sha256, sha256_of};
use crate::error::Error;
use crate::multi_sig::{all_keys_parse, canonical_keys, canonicalize};

verus! {

/// Length of a transaction id and of an address.
pub const ID_LEN: usize = 32;

/// Length of a witness: a 64-byte Schnorr signature, then the signer's 33-byte key.
pub const WITNESS_LEN: usize = 97;

/// First byte of a builder snapshot.
pub const BUILDER_TAG: u8 = 1;

/// Bytes of the builder snapshot header: tag, chain id and three counts.
pub const BUILDER_HEADER_LEN: usize = 14;



/// The most inputs, outputs or view keys a transaction holds.
pub const MAX_ITEMS: usize = 65535;

/// A transaction output: 32-byte address, value, and an optional time lock.
pub struct TxOut {
    pub address: Vec<u8>,
    pub value: u64,
    pub valid_from: Option<u64>,
}

pub struct OutView {
    pub address: Seq<u8>,
    pub value: u64,
    pub valid_from: Option<u64>,
}

impl View for TxOut {
    type V = OutView;

    open spec fn view(&self) -> OutView {
        OutView { address: self.address@, value: self.value, valid_from: self.valid_from }
    }
}

/// An input: the output it spends, the number of leaves of the spending address's
/// signer tree, and the witness once it is signed.
pub struct TxInput {
    pub prev_tx_id: Vec<u8>,
    pub prev_index: u16,
    pub prev_output: TxOut,
    pub leaves: u16,
    pub witness: Option<Vec<u8>>,
}

pub struct InputView {
    pub prev_tx_id: Seq<u8>,
    pub prev_index: u16,
    pub prev_output: OutView,
    pub leaves: u16,
    pub witness: Option<Seq<u8>>,
}

impl View for TxInput {
    type V = InputView;

    open spec fn view(&self) -> InputView {
        InputView {
            prev_tx_id: self.prev_tx_id@,
            prev_index: self.prev_index,
            prev_output: self.prev_output@,
            leaves: self.leaves,
            witness: opt_bytes(self.witness),
        }
    }
}

/// The linear fee model: `constant + coefficient * size`, both in thousandths.
#[derive(Clone, Copy, PartialEq, Eq, Structural, Debug)]
pub struct LinearFee {
    pub constant: u64,
    pub coefficient: u64,
}

/// A transfer transaction under construction.
pub struct TransactionBuilder {
    pub chain_hex_id: u8,
    pub view_keys: Vec<Vec<u8>>,
    pub inputs: Vec<TxInput>,
    pub outputs: Vec<TxOut>,
    pub fee_algorithm: LinearFee,
}

pub struct BuilderView {
    pub chain_hex_id: u8,
    pub view_keys: Seq<Seq<u8>>,
    pub inputs: Seq<InputView>,
    pub outputs: Seq<OutView>,
    pub fee_algorithm: LinearFee,
}

impl View for TransactionBuilder {
    type V = BuilderView;

    open spec fn view(&self) -> BuilderView {
        BuilderView {
            chain_hex_id: self.chain_hex_id,
            view_keys: seq_bytes(self.view_keys@),
            inputs: self.inputs@.map_values(|i: TxInput| i@),
            outputs: self.outputs@.map_values(|o: TxOut| o@),
            fee_algorithm: self.fee_algorithm,
        }
    }
}

/// An output with a 32-byte address.
pub open spec fn out_wf(o: OutView) -> bool {
    o.address.len() == 32
}

/// An input with a 32-byte id, a well-formed spent output and, if set, a full-size witness.
pub open spec fn input_wf(i: InputView) -> bool {
    &&& i.prev_tx_id.len() == 32
    &&& out_wf(i.prev_output)
    &&& i.witness matches Some(w) ==> w.len() == 97
}

/// A well-formed builder: fixed-size fields, canonical view keys, and at most
/// `MAX_ITEMS` of each list.
pub open spec fn builder_wf(v: BuilderView) -> bool {
    &&& v.inputs.len() <= MAX_ITEMS
    &&& v.outputs.len() <= MAX_ITEMS
    &&& v.view_keys.len() <= MAX_ITEMS
    &&& forall|i: int| 0 <= i < v.inputs.len() ==> input_wf(#[trigger] v.inputs[i])
    &&& forall|i: int| 0 <= i < v.outputs.len() ==> out_wf(#[trigger] v.outputs[i])
    &&& forall|i: int| 0 <= i < v.view_keys.len() ==> is_compressed_point(#[trigger] v.view_keys[i])
}

// ---------------------------------------------------------------------------
// Snapshot format

pub open spec fn opt_u64(o: Option<u64>) -> Option<Seq<u8>> {
    match o {
        Some(x) => Some(u64_le(x)),
        None => None,
    }
}

pub open spec fn u64_opt_of(o: Option<Seq<u8>>) -> Option<u64> {
    match o {
        Some(b) => Some(u64_of(b)),
        None => None,
    }
}

/// The 49-byte record of an output.
pub open spec fn out_bytes(o: OutView) -> Seq<u8> {
    o.address + u64_le(o.value) + opt_field(opt_u64(o.valid_from), 8)
}

/// What an output record reads back as.
pub open spec fn out_of(b: Seq<u8>) -> OutView {
    OutView {
        address: b.subrange(0, 32),
        value: u64_of(b.subrange(32, 40)),
        valid_from: u64_opt_of(opt_field_of(b.subrange(40, 49))),
    }
}

/// The 183-byte record of an input.
pub open spec fn input_bytes(i: InputView) -> Seq<u8> {
    i.prev_tx_id + u16_le(i.prev_index) + out_bytes(i.prev_output) + u16_le(i.leaves) + opt_field(
        i.witness,
        97,
    )
}

/// What an input record reads back as.
pub open spec fn input_of(b: Seq<u8>) -> InputView {
    InputView {
        prev_tx_id: b.subrange(0, 32),
        prev_index: u16_of(b.subrange(32, 34)),
        prev_output: out_of(b.subrange(34, 83)),
        leaves: u16_of(b.subrange(83, 85)),
        witness: opt_field_of(b.subrange(85, 183)),
    }
}

/// Whether the optional fields of an input record are well formed.
pub open spec fn record_ok(b: Seq<u8>) -> bool {
    opt_field_ok(b.subrange(74, 83)) && opt_field_ok(b.subrange(85, 183))
}

pub open spec fn output_records(outs: Seq<OutView>) -> Seq<Seq<u8>> {
    outs.map_values(|o: OutView| out_bytes(o))
}

pub open spec fn input_records(ins: Seq<InputView>) -> Seq<Seq<u8>> {
    ins.map_values(|i: InputView| input_bytes(i))
}

/// The snapshot of a builder (the fee model is not part of it).
pub open spec fn builder_bytes(v: BuilderView) -> Seq<u8> {
    seq![BUILDER_TAG, v.chain_hex_id] + u32_le(v.inputs.len() as u32) + u32_le(
        v.outputs.len() as u32,
    ) + u32_le(v.view_keys.len() as u32) + flatten(input_records(v.inputs)) + flatten(
        output_records(v.outputs),
    ) + flatten(v.view_keys)
}

/// An output record has 49 bytes and reads back as the output.
pub proof fn lemma_out_round_trip(o: OutView)
    requires
        out_wf(o),
    ensures
        out_bytes(o).len() == 49,
        out_of(out_bytes(o)) == o,
        opt_field_ok(out_bytes(o).subrange(40, 49)),
{
    lemma_u64_le(o.value);
    lemma_opt_field(opt_u64(o.valid_from), 8);
    if let Some(x) = o.valid_from {
        lemma_u64_le(x);
    }
    let b = out_bytes(o);
    assert(b.subrange(0, 32) =~= o.address);
    assert(b.subrange(32, 40) =~= u64_le(o.value));
    assert(b.subrange(40, 49) =~= opt_field(opt_u64(o.valid_from), 8));
}

/// An input record has 183 bytes and reads back as the input.
pub proof fn lemma_input_round_trip(i: InputView)
    requires
        input_wf(i),
    ensures
        input_bytes(i).len() == 183,
        input_of(input_bytes(i)) == i,
        record_ok(input_bytes(i)),
{
    lemma_out_round_trip(i.prev_output);
    lemma_u16_le(i.prev_index);
    lemma_u16_le(i.leaves);
    lemma_opt_field(i.witness, 97);
    let b = input_bytes(i);
    assert(b.subrange(0, 32) =~= i.prev_tx_id);
    assert(b.subrange(32, 34) =~= u16_le(i.prev_index));
    assert(b.subrange(34, 83) =~= out_bytes(i.prev_output));
    assert(b.subrange(83, 85) =~= u16_le(i.leaves));
    assert(b.subrange(85, 183) =~= opt_field(i.witness, 97));
    assert(b.subrange(74, 83) =~= out_bytes(i.prev_output).subrange(40, 49));
}

/// Where each part of a well-formed builder lies in its snapshot.
pub proof fn lemma_builder_layout(v: BuilderView)
    requires
        builder_wf(v),
    ensures
        ({
            let b = builder_bytes(v);
            let ni = v.inputs.len() as int;
            let no = v.outputs.len() as int;
            let nk = v.view_keys.len() as int;
            &&& b.len() == 14 + 183 * ni + 49 * no + 33 * nk
            &&& b[0] == BUILDER_TAG
            &&& b[1] == v.chain_hex_id
            &&& u32_of(b.subrange(2, 6)) == ni
            &&& u32_of(b.subrange(6, 10)) == no
            &&& u32_of(b.subrange(10, 14)) == nk
            &&& forall|k: int|
                0 <= k < ni ==> #[trigger] b.subrange(14 + 183 * k, 14 + 183 * k + 183)
                    == input_bytes(v.inputs[k])
            &&& forall|k: int|
                0 <= k < no ==> #[trigger] b.subrange(14 + 183 * ni + 49 * k, 14 + 183 * ni + 49 * k + 49)
                    == out_bytes(v.outputs[k])
            &&& forall|k: int|
                0 <= k < nk ==> #[trigger] b.subrange(
                    14 + 183 * ni + 49 * no + 33 * k,
                    14 + 183 * ni + 49 * no + 33 * k + 33,
                ) == v.view_keys[k]
        }),
{
    let b = builder_bytes(v);
    let ni = v.inputs.len() as int;
    let no = v.outputs.len() as int;
    let nk = v.view_keys.len() as int;
    let ir = input_records(v.inputs);
    let orr = output_records(v.outputs);
    assert forall|k: int| 0 <= k < ni implies (#[trigger] ir[k]).len() == 183 by {
        lemma_input_round_trip(v.inputs[k]);
    }
    assert forall|k: int| 0 <= k < no implies (#[trigger] orr[k]).len() == 49 by {
        lemma_out_round_trip(v.outputs[k]);
    }
    lemma_flatten_fixed(ir, 183);
    lemma_flatten_fixed(orr, 49);
    lemma_flatten_fixed(v.view_keys, 33);
    lemma_u32_le(ni as u32);
    lemma_u32_le(no as u32);
    lemma_u32_le(nk as u32);
    let fi = flatten(ir);
    let fo = flatten(orr);
    let fk = flatten(v.view_keys);
    assert(b =~= seq![BUILDER_TAG, v.chain_hex_id] + u32_le(ni as u32) + u32_le(no as u32) + u32_le(
        nk as u32,
    ) + fi + fo + fk);
    assert(b.subrange(2, 6) =~= u32_le(ni as u32));
    assert(b.subrange(6, 10) =~= u32_le(no as u32));
    assert(b.subrange(10, 14) =~= u32_le(nk as u32));
    assert forall|k: int| 0 <= k < ni implies #[trigger] b.subrange(14 + 183 * k, 14 + 183 * k + 183)
        == input_bytes(v.inputs[k]) by {
        assert(b.subrange(14 + 183 * k, 14 + 183 * k + 183) =~= fi.subrange(183 * k, 183 * k + 183));
    }
    assert forall|k: int| 0 <= k < no implies #[trigger] b.subrange(
        14 + 183 * ni + 49 * k,
        14 + 183 * ni + 49 * k + 49,
    ) == out_bytes(v.outputs[k]) by {
        assert(b.subrange(14 + 183 * ni + 49 * k, 14 + 183 * ni + 49 * k + 49) =~= fo.subrange(
            49 * k,
            49 * k + 49,
        ));
    }
    assert forall|k: int| 0 <= k < nk implies #[trigger] b.subrange(
        14 + 183 * ni + 49 * no + 33 * k,
        14 + 183 * ni + 49 * no + 33 * k + 33,
    ) == v.view_keys[k] by {
        assert(b.subrange(14 + 183 * ni + 49 * no + 33 * k, 14 + 183 * ni + 49 * no + 33 * k + 33)
            =~= fk.subrange(33 * k, 33 * k + 33));
    }
}

/// Distinct well-formed builders with the same fee model have distinct snapshots.
pub proof fn lemma_builder_bytes_injective(v: BuilderView, w: BuilderView)
    requires
        builder_wf(v),
        builder_wf(w),
        builder_bytes(v) == builder_bytes(w),
        v.fee_algorithm == w.fee_algorithm,
    ensures
        v == w,
{
    lemma_builder_layout(v);
    lemma_builder_layout(w);
    let b = builder_bytes(v);
    let ni = v.inputs.len() as int;
    let no = v.outputs.len() as int;
    assert forall|k: int| 0 <= k < ni implies v.inputs[k] == w.inputs[k] by {
        lemma_input_round_trip(v.inputs[k]);
        lemma_input_round_trip(w.inputs[k]);
        assert(b.subrange(14 + 183 * k, 14 + 183 * k + 183) == input_bytes(v.inputs[k]));
    }
    assert forall|k: int| 0 <= k < no implies v.outputs[k] == w.outputs[k] by {
        lemma_out_round_trip(v.outputs[k]);
        lemma_out_round_trip(w.outputs[k]);
        assert(b.subrange(14 + 183 * ni + 49 * k, 14 + 183 * ni + 49 * k + 49) == out_bytes(
            v.outputs[k],
        ));
    }
    assert forall|k: int| 0 <= k < v.view_keys.len() implies v.view_keys[k] == w.view_keys[k] by {
        assert(b.subrange(14 + 183 * ni + 49 * no + 33 * k, 14 + 183 * ni + 49 * no + 33 * k + 33)
            == v.view_keys[k]);
    }
    assert(v.inputs =~= w.inputs);
    assert(v.outputs =~= w.outputs);
    assert(v.view_keys =~= w.view_keys);
}

impl TxOut {
    /// A copy of this output.
    pub fn copy(&self) -> (r: TxOut)
        ensures
            r@ == self@,
    {
        TxOut { address: self.address.clone(), value: self.value, valid_from: self.valid_from }
    }

    fn encode(&self, out: &mut Vec<u8>)
        requires
            out_wf(self@),
        ensures
            final(out)@ == old(out)@ + out_bytes(self@),
    {
        push_bytes(out, self.address.as_slice());
        push_u64(out, self.value);
        match self.valid_from {
            Some(x) => {
                out.push(1u8);
                push_u64(out, x);
            },
            None => {
                out.push(0u8);
                push_zeros(out, 8);
            },
        }
        assert(out@ =~= old(out)@ + out_bytes(self@));
    }

    fn decode(b: &[u8], pos: usize) -> (r: Option<TxOut>)
        requires
            pos + 49 <= b@.len(),
        ensures
            r matches Some(o) ==> o@ == out_of(b@.subrange(pos as int, pos + 49)) && out_wf(o@)
                && out_bytes(o@) == b@.subrange(pos as int, pos + 49),
            opt_field_ok(b@.subrange(pos + 40, pos + 49)) ==> r is Some,
    {
        let ghost rec = b@.subrange(pos as int, pos + 49);
        let len = b.len();
        assert(pos + 49 <= len);
        let address = read_bytes(b, pos, ID_LEN);
        assert(address@ =~= rec.subrange(0, 32));
        let value = read_u64(b, pos + 32);
        assert(b@.subrange(pos + 32, pos + 40) =~= rec.subrange(32, 40));
        assert(rec.subrange(40, 49) =~= b@.subrange(pos + 40, pos + 49));
        let valid_from = match read_opt(b, pos + 40, 8) {
            None => return None,
            Some(None) => None,
            Some(Some(_)) => {
                assert(b@.subrange(pos + 41, pos + 49) =~= rec.subrange(40, 49).subrange(1, 9));
                Some(read_u64(b, pos + 41))
            },
        };
        proof {
            let f = rec.subrange(40, 49);
            lemma_opt_field_canonical(f, 8);
            lemma_u64_canonical(rec.subrange(32, 40));
            if f[0] != 0 {
                lemma_u64_canonical(f.subrange(1, 9));
                assert(opt_u64(u64_opt_of(opt_field_of(f))) == opt_field_of(f));
            }
            assert(out_bytes(out_of(rec)) =~= rec);
        }
        Some(TxOut { address, value, valid_from })
    }
}

impl TxInput {
    fn encode(&self, out: &mut Vec<u8>)
        requires
            input_wf(self@),
        ensures
            final(out)@ == old(out)@ + input_bytes(self@),
    {
        push_bytes(out, self.prev_tx_id.as_slice());
        push_u16(out, self.prev_index);
        self.prev_output.encode(out);
        push_u16(out, self.leaves);
        push_opt(out, &self.witness, WITNESS_LEN);
        assert(out@ =~= old(out)@ + input_bytes(self@));
    }

    fn decode(b: &[u8], pos: usize) -> (r: Option<TxInput>)
        requires
            pos + 183 <= b@.len(),
        ensures
            r matches Some(i) ==> i@ == input_of(b@.subrange(pos as int, pos + 183)) && input_wf(
                i@,
            ) && input_bytes(i@) == b@.subrange(pos as int, pos + 183),
            record_ok(b@.subrange(pos as int, pos + 183)) ==> r is Some,
    {
        let ghost rec = b@.subrange(pos as int, pos + 183);
        let len = b.len();
        assert(pos + 183 <= len);
        let prev_tx_id = read_bytes(b, pos, ID_LEN);
        assert(prev_tx_id@ =~= rec.subrange(0, 32));
        let prev_index = read_u16(b, pos + 32);
        assert(b@.subrange(pos + 32, pos + 34) =~= rec.subrange(32, 34));
        assert(b@.subrange(pos + 34, pos + 83) =~= rec.subrange(34, 83));
        assert(b@.subrange(pos + 74, pos + 83) =~= rec.subrange(74, 83));
        let prev_output = TxOut::decode(b, pos + 34)?;
        let leaves = read_u16(b, pos + 83);
        assert(b@.subrange(pos + 83, pos + 85) =~= rec.subrange(83, 85));
        assert(b@.subrange(pos + 85, pos + 183) =~= rec.subrange(85, 183));
        let witness = read_opt(b, pos + 85, WITNESS_LEN)?;
        proof {
            lemma_u16_canonical(rec.subrange(32, 34));
            lemma_u16_canonical(rec.subrange(83, 85));
            lemma_opt_field_canonical(rec.subrange(85, 183), 97);
            assert(b@.subrange(pos + 34, pos + 83) == rec.subrange(34, 83));
            assert(input_bytes(input_of(rec)) =~= rec);
        }
        Some(TxInput { prev_tx_id, prev_index, prev_output, leaves, witness })
    }
}

impl TransactionBuilder {
    /// The snapshot of this builder.
    pub fn to_incomplete(&self) -> (r: Vec<u8>)
        requires
            builder_wf(self@),
        ensures
            r@ == builder_bytes(self@),
    {
        let ghost v = self@;
        let mut out: Vec<u8> = Vec::new();
        out.push(BUILDER_TAG);
        out.push(self.chain_hex_id);
        push_u32(&mut out, self.inputs.len() as u32);
        push_u32(&mut out, self.outputs.len() as u32);
        push_u32(&mut out, self.view_keys.len() as u32);
        let ghost head = out@;
        let mut i: usize = 0;
        while i < self.inputs.len()
            invariant
                v == self@,
                builder_wf(v),
                i <= self.inputs@.len(),
                out@ == head + flatten(input_records(v.inputs).subrange(0, i as int)),
            decreases self.inputs@.len() - i,
        {
            proof {
                assert(input_wf(v.inputs[i as int]));
            }
            self.inputs[i].encode(&mut out);
            assert(input_records(v.inputs).subrange(0, i + 1).drop_last() =~= input_records(
                v.inputs,
            ).subrange(0, i as int));
            i = i + 1;
        }
        assert(input_records(v.inputs).subrange(0, i as int) =~= input_records(v.inputs));
        let ghost head2 = out@;
        let mut j: usize = 0;
        while j < self.outputs.len()
            invariant
                v == self@,
                builder_wf(v),
                j <= self.outputs@.len(),
                out@ == head2 + flatten(output_records(v.outputs).subrange(0, j as int)),
            decreases self.outputs@.len() - j,
        {
            proof {
                assert(out_wf(v.outputs[j as int]));
            }
            self.outputs[j].encode(&mut out);
            assert(output_records(v.outputs).subrange(0, j + 1).drop_last() =~= output_records(
                v.outputs,
            ).subrange(0, j as int));
            j = j + 1;
        }
        assert(output_records(v.outputs).subrange(0, j as int) =~= output_records(v.outputs));
        let ghost head3 = out@;
        let mut k: usize = 0;
        while k < self.view_keys.len()
            invariant
                v == self@,
                k <= self.view_keys@.len(),
                out@ == head3 + flatten(v.view_keys.subrange(0, k as int)),
            decreases self.view_keys@.len() - k,
        {
            push_bytes(&mut out, self.view_keys[k].as_slice());
            assert(v.view_keys.subrange(0, k + 1).drop_last() =~= v.view_keys.subrange(0, k as int));
            k = k + 1;
        }
        assert(v.view_keys.subrange(0, k as int) =~= v.view_keys);
        assert(out@ =~= builder_bytes(v));
        out
    }

    /// Restores a builder from its snapshot and a fee model; malformed bytes give a
    /// decoding error.
    #[verifier::rlimit(80)]
    pub fn from_incomplete(b: &[u8], fee_algorithm: LinearFee) -> (r: Result<
        TransactionBuilder,
        Error,
    >)
        ensures
            r matches Ok(t) ==> builder_wf(t@) && t@.fee_algorithm == fee_algorithm
                && builder_bytes(t@) == b@,
            r matches Err(e) ==> e == Error::DecodingError,
            forall|v: BuilderView|
                builder_wf(v) && builder_bytes(v) == b@ && v.fee_algorithm == fee_algorithm ==> (
                r matches Ok(t) && t@ == v),
    {
        let ghost good = exists|v: BuilderView|
            builder_wf(v) && builder_bytes(v) == b@ && v.fee_algorithm == fee_algorithm;
        let ghost v0 = choose|v: BuilderView|
            builder_wf(v) && builder_bytes(v) == b@ && v.fee_algorithm == fee_algorithm;
        proof {
            if good {
                lemma_builder_layout(v0);
            }
            assert forall|v: BuilderView|
                builder_wf(v) && builder_bytes(v) == b@ && v.fee_algorithm
                    == fee_algorithm implies v == v0 by {
                lemma_builder_bytes_injective(v, v0);
            }
        }
        let len = b.len();
        if len < BUILDER_HEADER_LEN || b[0] != BUILDER_TAG {
            return Err(Error::DecodingError);
        }
        let chain_hex_id = b[1];
        let ni = read_u32(b, 2);
        let no = read_u32(b, 6);
        let nk = read_u32(b, 10);
        if ni as usize > MAX_ITEMS || no as usize > MAX_ITEMS || nk as usize > MAX_ITEMS {
            return Err(Error::DecodingError);
        }
        if len != 14 + 183 * (ni as usize) + 49 * (no as usize) + 33 * (nk as usize) {
            return Err(Error::DecodingError);
        }
        let mut inputs: Vec<TxInput> = Vec::new();
        let mut i: usize = 0;
        while i < ni as usize
            invariant
                len == b@.len(),
                len == 14 + 183 * ni + 49 * no + 33 * nk,
                ni <= MAX_ITEMS,
                i <= ni,
                inputs@.len() == i,
                forall|k: int| 0 <= k < i ==> input_wf(#[trigger] inputs@[k]@),
                forall|k: int|
                    0 <= k < i ==> input_bytes(#[trigger] inputs@[k]@) == b@.subrange(
                        14 + 183 * k,
                        14 + 183 * k + 183,
                    ),
                good ==> builder_wf(v0) && builder_bytes(v0) == b@ && v0.inputs.len() == ni,
                !good ==> forall|v: BuilderView|
                    !(builder_wf(v) && builder_bytes(v) == b@ && v.fee_algorithm == fee_algorithm),
                good ==> forall|k: int|
                    0 <= k < ni ==> #[trigger] b@.subrange(14 + 183 * k, 14 + 183 * k + 183)
                        == input_bytes(v0.inputs[k]),
                good ==> forall|k: int| 0 <= k < i ==> inputs@[k]@ == v0.inputs[k],
            decreases ni - i,
        {
            let pos: usize = 14 + 183 * i;
            proof {
                if good {
                    lemma_input_round_trip(v0.inputs[i as int]);
                    assert(b@.subrange(14 + 183 * i, 14 + 183 * i + 183) == input_bytes(
                        v0.inputs[i as int],
                    ));
                }
            }
            let input = match TxInput::decode(b, pos) {
                Some(x) => x,
                None => return Err(Error::DecodingError),
            };
            inputs.push(input);
            i = i + 1;
        }
        let mut outputs: Vec<TxOut> = Vec::new();
        let mut j: usize = 0;
        let base: usize = 14 + 183 * (ni as usize);
        while j < no as usize
            invariant
                len == b@.len(),
                len == 14 + 183 * ni + 49 * no + 33 * nk,
                base == 14 + 183 * ni,
                no <= MAX_ITEMS,
                j <= no,
                outputs@.len() == j,
                forall|k: int| 0 <= k < j ==> out_wf(#[trigger] outputs@[k]@),
                forall|k: int|
                    0 <= k < j ==> out_bytes(#[trigger] outputs@[k]@) == b@.subrange(
                        base + 49 * k,
                        base + 49 * k + 49,
                    ),
                inputs@.len() == ni,
                forall|k: int| 0 <= k < ni ==> input_wf(#[trigger] inputs@[k]@),
                forall|k: int|
                    0 <= k < ni ==> input_bytes(#[trigger] inputs@[k]@) == b@.subrange(
                        14 + 183 * k,
                        14 + 183 * k + 183,
                    ),
                good ==> forall|k: int| 0 <= k < ni ==> inputs@[k]@ == v0.inputs[k],
                good ==> builder_wf(v0) && builder_bytes(v0) == b@ && v0.outputs.len() == no
                    && v0.inputs.len() == ni,
                !good ==> forall|v: BuilderView|
                    !(builder_wf(v) && builder_bytes(v) == b@ && v.fee_algorithm == fee_algorithm),
                good ==> forall|k: int|
                    0 <= k < no ==> #[trigger] b@.subrange(base + 49 * k, base + 49 * k + 49)
                        == out_bytes(v0.outputs[k]),
                good ==> forall|k: int| 0 <= k < j ==> outputs@[k]@ == v0.outputs[k],
            decreases no - j,
        {
            let pos: usize = base + 49 * j;
            proof {
                if good {
                    lemma_out_round_trip(v0.outputs[j as int]);
                    assert(b@.subrange(base + 49 * j, base + 49 * j + 49) == out_bytes(
                        v0.outputs[j as int],
                    ));
                    assert(b@.subrange(pos + 40, pos + 49) =~= b@.subrange(
                        base + 49 * j,
                        base + 49 * j + 49,
                    ).subrange(40, 49));
                }
            }
            let output = match TxOut::decode(b, pos) {
                Some(x) => x,
                None => return Err(Error::DecodingError),
            };
            outputs.push(output);
            j = j + 1;
        }
        let mut view_keys: Vec<Vec<u8>> = Vec::new();
        let mut k: usize = 0;
        let base2: usize = base + 49 * (no as usize);
        while k < nk as usize
            invariant
                len == b@.len(),
                len == 14 + 183 * ni + 49 * no + 33 * nk,
                base2 == 14 + 183 * ni + 49 * no,
                nk <= MAX_ITEMS,
                k <= nk,
                view_keys@.len() == k,
                forall|q: int| 0 <= q < k ==> is_compressed_point(#[trigger] view_keys@[q]@),
                base == 14 + 183 * ni,
                inputs@.len() == ni,
                forall|q: int| 0 <= q < ni ==> input_wf(#[trigger] inputs@[q]@),
                forall|q: int|
                    0 <= q < ni ==> input_bytes(#[trigger] inputs@[q]@) == b@.subrange(
                        14 + 183 * q,
                        14 + 183 * q + 183,
                    ),
                good ==> forall|q: int| 0 <= q < ni ==> inputs@[q]@ == v0.inputs[q],
                outputs@.len() == no,
                forall|q: int| 0 <= q < no ==> out_wf(#[trigger] outputs@[q]@),
                forall|q: int|
                    0 <= q < no ==> out_bytes(#[trigger] outputs@[q]@) == b@.subrange(
                        base + 49 * q,
                        base + 49 * q + 49,
                    ),
                good ==> forall|q: int| 0 <= q < no ==> outputs@[q]@ == v0.outputs[q],
                forall|q: int|
                    0 <= q < k ==> #[trigger] view_keys@[q]@ == b@.subrange(
                        base2 + 33 * q,
                        base2 + 33 * q + 33,
                    ),
                good ==> builder_wf(v0) && builder_bytes(v0) == b@ && v0.view_keys.len() == nk
                    && v0.outputs.len() == no && v0.inputs.len() == ni,
                !good ==> forall|v: BuilderView|
                    !(builder_wf(v) && builder_bytes(v) == b@ && v.fee_algorithm == fee_algorithm),
                good ==> forall|q: int|
                    0 <= q < nk ==> #[trigger] b@.subrange(base2 + 33 * q, base2 + 33 * q + 33)
                        == v0.view_keys[q],
            decreases nk - k,
        {
            let pos: usize = base2 + 33 * k;
            let key = read_bytes(b, pos, 33);
            if key[0] != 2 && key[0] != 3 {
                proof {
                    if good {
                        assert(is_compressed_point(v0.view_keys[k as int]));
                    }
                }
                return Err(Error::DecodingError);
            }
            view_keys.push(key);
            k = k + 1;
        }
        let t = TransactionBuilder { chain_hex_id, view_keys, inputs, outputs, fee_algorithm };
        proof {
            assert forall|q: int| 0 <= q < t@.inputs.len() implies input_wf(#[trigger] t@.inputs[q]) by {
                assert(t@.inputs[q] == inputs@[q]@);
            }
            assert forall|q: int| 0 <= q < t@.outputs.len() implies out_wf(#[trigger] t@.outputs[q]) by {
                assert(t@.outputs[q] == outputs@[q]@);
            }
            assert forall|q: int| 0 <= q < t@.view_keys.len() implies is_compressed_point(
                #[trigger] t@.view_keys[q],
            ) by {
                assert(t@.view_keys[q] == view_keys@[q]@);
            }
            let v = t@;
            let ir = input_records(v.inputs);
            let orr = output_records(v.outputs);
            assert forall|q: int| 0 <= q < ni implies (#[trigger] ir[q]).len() == 183 by {
                lemma_input_round_trip(v.inputs[q]);
            }
            assert forall|q: int| 0 <= q < no implies (#[trigger] orr[q]).len() == 49 by {
                lemma_out_round_trip(v.outputs[q]);
            }
            lemma_flatten_fixed(ir, 183);
            lemma_flatten_fixed(orr, 49);
            lemma_flatten_fixed(v.view_keys, 33);
            let si = b@.subrange(14, base as int);
            let so = b@.subrange(base as int, base2 as int);
            let sk = b@.subrange(base2 as int, b@.len() as int);
            assert forall|q: int| 0 <= q < ni implies #[trigger] si.subrange(183 * q, 183 * q + 183)
                == flatten(ir).subrange(183 * q, 183 * q + 183) by {
                assert(si.subrange(183 * q, 183 * q + 183) =~= b@.subrange(14 + 183 * q, 14 + 183 * q + 183));
                assert(v.inputs[q] == inputs@[q]@);
            }
            assert forall|q: int| 0 <= q < no implies #[trigger] so.subrange(49 * q, 49 * q + 49)
                == flatten(orr).subrange(49 * q, 49 * q + 49) by {
                assert(so.subrange(49 * q, 49 * q + 49) =~= b@.subrange(base + 49 * q, base + 49 * q + 49));
                assert(v.outputs[q] == outputs@[q]@);
            }
            assert forall|q: int| 0 <= q < nk implies #[trigger] sk.subrange(33 * q, 33 * q + 33)
                == flatten(v.view_keys).subrange(33 * q, 33 * q + 33) by {
                assert(sk.subrange(33 * q, 33 * q + 33) =~= b@.subrange(base2 + 33 * q, base2 + 33 * q + 33));
                assert(v.view_keys[q] == view_keys@[q]@);
            }
            lemma_records_equal(si, flatten(ir), ni as nat, 183);
            lemma_records_equal(so, flatten(orr), no as nat, 49);
            lemma_records_equal(sk, flatten(v.view_keys), nk as nat, 33);
            lemma_u32_canonical(b@.subrange(2, 6));
            lemma_u32_canonical(b@.subrange(6, 10));
            lemma_u32_canonical(b@.subrange(10, 14));
            assert(b@ =~= b@.subrange(0, 14) + si + so + sk);
            assert(b@.subrange(0, 14) =~= seq![BUILDER_TAG, chain_hex_id] + b@.subrange(2, 6) + b@.subrange(6, 10)
                + b@.subrange(10, 14));
            assert(b@ =~= builder_bytes(v));
            if good {
                assert(t@.inputs =~= v0.inputs);
                assert(t@.outputs =~= v0.outputs);
                assert forall|q: int| 0 <= q < nk implies t@.view_keys[q] == v0.view_keys[q] by {
                    assert(t@.view_keys[q] == view_keys@[q]@);
                }
                assert(t@.view_keys =~= v0.view_keys);
            }
        }
        Ok(t)
    }
}

// ---------------------------------------------------------------------------
// The transaction, its id and its fee

/// The reference to the spent output: transaction id and output index.
pub open spec fn pointer_bytes(i: InputView) -> Seq<u8> {
    i.prev_tx_id + u16_le(i.prev_index)
}

pub open spec fn pointer_records(ins: Seq<InputView>) -> Seq<Seq<u8>> {
    ins.map_values(|i: InputView| pointer_bytes(i))
}

/// The transaction body: chain id, spent outputs, new outputs and view keys. It
/// does not depend on witnesses.
pub open spec fn body_bytes(v: BuilderView) -> Seq<u8> {
    seq![v.chain_hex_id] + u32_le(v.inputs.len() as u32) + flatten(pointer_records(v.inputs))
        + u32_le(v.outputs.len() as u32) + flatten(output_records(v.outputs)) + u32_le(
        v.view_keys.len() as u32,
    ) + flatten(v.view_keys)
}

/// The transaction id: the hash of the body.
pub open spec fn tx_id_of(v: BuilderView) -> Seq<u8> {
    sha256_of(body_bytes(v))
}

/// The witness of an input, or a zero-filled stand-in of the same size.
pub open spec fn witness_or_dummy(i: InputView) -> Seq<u8> {
    match i.witness {
        Some(w) => w,
        None => zeros(97),
    }
}

/// The signed transaction: the body, then one witness per input (a stand-in where
/// none is set yet).
pub open spec fn signed_bytes(v: BuilderView) -> Seq<u8> {
    body_bytes(v) + flatten(v.inputs.map_values(|i: InputView| witness_or_dummy(i)))
}

/// The fee for a transaction of `size` bytes, rounded up to a whole unit.
pub open spec fn fee_for(f: LinearFee, size: nat) -> int {
    (f.constant + f.coefficient * size + 999) / 1000
}

/// The fee the builder's transaction owes once signed.
pub open spec fn required_fee(v: BuilderView) -> int {
    fee_for(v.fee_algorithm, signed_bytes(v).len())
}

/// The total value of the outputs.
pub open spec fn sum_outputs(s: Seq<OutView>) -> int
    decreases s.len(),
{
    if s.len() == 0 {
        0
    } else {
        sum_outputs(s.drop_last()) + s.last().value
    }
}

/// The total value of the outputs the inputs spend.
pub open spec fn sum_inputs(s: Seq<InputView>) -> int
    decreases s.len(),
{
    if s.len() == 0 {
        0
    } else {
        sum_inputs(s.drop_last()) + s.last().prev_output.value
    }
}

/// Every input has its witness.
pub open spec fn completed(v: BuilderView) -> bool {
    forall|i: int| 0 <= i < v.inputs.len() ==> (#[trigger] v.inputs[i]).witness is Some
}

/// The fee check: what the inputs hold, less what the outputs pay, covers the fee.
pub open spec fn fee_check(v: BuilderView) -> Result<(), Error> {
    if sum_inputs(v.inputs) - sum_outputs(v.outputs) >= required_fee(v) {
        Ok(())
    } else {
        Err(Error::InsufficientFunds)
    }
}

/// What finalizing the builder gives: the signed transaction, or why not.
pub open spec fn finalize_outcome(v: BuilderView) -> Result<Seq<u8>, Error> {
    if !completed(v) {
        Err(Error::IncompleteState)
    } else {
        match fee_check(v) {
            Ok(()) => Ok(signed_bytes(v)),
            Err(e) => Err(e),
        }
    }
}

/// Storing witness `w` at input `index`: out of range, malformed, or the new builder.
pub open spec fn after_add_witness(v: BuilderView, index: int, w: Seq<u8>) -> Result<
    BuilderView,
    Error,
> {
    if index < 0 || index >= v.inputs.len() {
        Err(Error::InvalidArgument)
    } else if w.len() != 97 {
        Err(Error::DecodingError)
    } else {
        Ok(BuilderView { inputs: v.inputs.update(index, InputView { witness: Some(w), ..v.inputs[index] }), ..v })
    }
}

/// Adding a witness touches only its own slot, and never unsets another.
pub proof fn lemma_witness_slot_isolation(v: BuilderView, index: int, w: Seq<u8>, j: int)
    requires
        after_add_witness(v, index, w) is Ok,
        0 <= j < v.inputs.len(),
        j != index,
    ensures
        (after_add_witness(v, index, w)->Ok_0).inputs[j] == v.inputs[j],
{
}

/// Adding a witness never removes one: every input signed before is signed after,
/// and the input it names is signed too.
pub proof fn lemma_witnesses_only_grow(v: BuilderView, index: int, w: Seq<u8>)
    requires
        after_add_witness(v, index, w) is Ok,
    ensures
        forall|j: int|
            0 <= j < v.inputs.len() && (#[trigger] v.inputs[j]).witness is Some ==> (after_add_witness(
                v,
                index,
                w,
            )->Ok_0).inputs[j].witness is Some,
        (after_add_witness(v, index, w)->Ok_0).inputs[index].witness is Some,
        (after_add_witness(v, index, w)->Ok_0).inputs.len() == v.inputs.len(),
{
}

/// A complete builder finalizes exactly when the spendable balance less the outputs
/// covers the fee; one unit short, it fails for want of funds.
pub proof fn lemma_fee_boundary(v: BuilderView)
    requires
        completed(v),
    ensures
        finalize_outcome(v) is Ok <==> sum_inputs(v.inputs) - sum_outputs(v.outputs)
            >= required_fee(v),
        sum_inputs(v.inputs) - sum_outputs(v.outputs) == required_fee(v) - 1 ==> finalize_outcome(v)
            == Err::<Seq<u8>, Error>(Error::InsufficientFunds),
{
}

/// Adding a witness leaves the transaction id as it was.
pub proof fn lemma_tx_id_ignores_witnesses(v: BuilderView, index: int, w: Seq<u8>)
    requires
        after_add_witness(v, index, w) is Ok,
    ensures
        tx_id_of(after_add_witness(v, index, w)->Ok_0) == tx_id_of(v),
{
    let u = after_add_witness(v, index, w)->Ok_0;
    assert(pointer_records(u.inputs) =~= pointer_records(v.inputs));
}

/// The total of `n` output values fits in `n` times the largest value.
pub proof fn lemma_sum_outputs_bound(s: Seq<OutView>)
    ensures
        0 <= sum_outputs(s) <= s.len() * 0xffff_ffff_ffff_ffff,
    decreases s.len(),
{
    if s.len() > 0 {
        lemma_sum_outputs_bound(s.drop_last());
        assert((s.len() - 1) * 0xffff_ffff_ffff_ffff + 0xffff_ffff_ffff_ffff == s.len()
            * 0xffff_ffff_ffff_ffff) by (nonlinear_arith);
    }
}

proof fn lemma_sum_inputs_bound(s: Seq<InputView>)
    ensures
        0 <= sum_inputs(s) <= s.len() * 0xffff_ffff_ffff_ffff,
    decreases s.len(),
{
    if s.len() > 0 {
        lemma_sum_inputs_bound(s.drop_last());
        assert((s.len() - 1) * 0xffff_ffff_ffff_ffff + 0xffff_ffff_ffff_ffff == s.len()
            * 0xffff_ffff_ffff_ffff) by (nonlinear_arith);
    }
}

impl LinearFee {
    /// The fee for a transaction of `size` bytes.
    pub fn estimate(&self, size: usize) -> (r: u128)
        requires
            size <= 0x1_0000_0000,
        ensures
            r == fee_for(*self, size as nat),
    {
        assert(self.coefficient * size <= 0xffff_ffff_ffff_ffff * 0x1_0000_0000) by (nonlinear_arith)
            requires
                self.coefficient <= 0xffff_ffff_ffff_ffff,
                size <= 0x1_0000_0000,
        ;
        ((self.constant as u128) + (self.coefficient as u128) * (size as u128) + 999) / 1000
    }
}

impl TransactionBuilder {
    /// An empty builder for the chain `chain_hex_id`, readable by the holders of
    /// `view_keys`.
    pub fn new(chain_hex_id: u8, view_keys: &Vec<Vec<u8>>, fee_algorithm: LinearFee) -> (r: Result<
        TransactionBuilder,
        Error,
    >)
        ensures
            r is Ok <==> all_keys_parse(seq_bytes(view_keys@)) && view_keys@.len() <= MAX_ITEMS,
            r matches Err(e) ==> e == (if all_keys_parse(seq_bytes(view_keys@)) {
                Error::InvalidArgument
            } else {
                Error::DecodingError
            }),
            r matches Ok(t) ==> builder_wf(t@) && t@ == (BuilderView {
                chain_hex_id,
                view_keys: canonical_keys(seq_bytes(view_keys@)),
                inputs: seq![],
                outputs: seq![],
                fee_algorithm,
            }),
    {
        let keys = match canonicalize(view_keys) {
            Some(k) => k,
            None => return Err(Error::DecodingError),
        };
        assert(seq_bytes(keys@).len() == keys@.len());
        assert(canonical_keys(seq_bytes(view_keys@)).len() == view_keys@.len());
        if keys.len() > MAX_ITEMS {
            return Err(Error::InvalidArgument);
        }
        let t = TransactionBuilder {
            chain_hex_id,
            view_keys: keys,
            inputs: Vec::new(),
            outputs: Vec::new(),
            fee_algorithm,
        };
        assert(t@.inputs =~= seq![]);
        assert(t@.outputs =~= seq![]);
        Ok(t)
    }

    /// Adds an input spending output `prev_index` of transaction `prev_tx_id`.
    pub fn add_input(
        &mut self,
        prev_tx_id: &[u8],
        prev_index: u16,
        prev_output: TxOut,
        leaves: u16,
    ) -> (r: Result<(), Error>)
        requires
            builder_wf(old(self)@),
        ensures
            builder_wf(final(self)@),
            r is Ok <==> prev_tx_id@.len() == 32 && prev_output.address@.len() == 32
                && old(self)@.inputs.len() < MAX_ITEMS,
            r is Ok ==> final(self)@ == (BuilderView {
                inputs: old(self)@.inputs.push(
                    InputView {
                        prev_tx_id: prev_tx_id@,
                        prev_index,
                        prev_output: prev_output@,
                        leaves,
                        witness: None,
                    },
                ),
                ..old(self)@
            }),
            r matches Err(e) ==> final(self)@ == old(self)@ && e == (if prev_tx_id@.len() == 32
                && prev_output.address@.len() == 32 {
                Error::InvalidArgument
            } else {
                Error::DecodingError
            }),
    {
        if prev_tx_id.len() != ID_LEN || prev_output.address.len() != ID_LEN {
            return Err(Error::DecodingError);
        }
        if self.inputs.len() >= MAX_ITEMS {
            return Err(Error::InvalidArgument);
        }
        let input = TxInput {
            prev_tx_id: read_bytes(prev_tx_id, 0, ID_LEN),
            prev_index,
            prev_output,
            leaves,
            witness: None,
        };
        assert(prev_tx_id@.subrange(0, 32) =~= prev_tx_id@);
        self.inputs.push(input);
        assert(self@.inputs =~= old(self)@.inputs.push(input@));
        Ok(())
    }

    /// Adds an output.
    pub fn add_output(&mut self, output: TxOut) -> (r: Result<(), Error>)
        requires
            builder_wf(old(self)@),
        ensures
            builder_wf(final(self)@),
            r is Ok <==> output.address@.len() == 32 && old(self)@.outputs.len() < MAX_ITEMS,
            r is Ok ==> final(self)@ == (BuilderView {
                outputs: old(self)@.outputs.push(output@),
                ..old(self)@
            }),
            r matches Err(e) ==> final(self)@ == old(self)@ && e == (if output.address@.len() == 32 {
                Error::InvalidArgument
            } else {
                Error::DecodingError
            }),
    {
        if output.address.len() != ID_LEN {
            return Err(Error::DecodingError);
        }
        if self.outputs.len() >= MAX_ITEMS {
            return Err(Error::InvalidArgument);
        }
        let ghost o = output@;
        self.outputs.push(output);
        assert(self@.outputs =~= old(self)@.outputs.push(o));
        Ok(())
    }

    /// The input at `index`.
    pub fn input_at(&self, index: usize) -> (r: Result<&TxInput, Error>)
        ensures
            r is Ok <==> index < self@.inputs.len(),
            r matches Ok(i) ==> i@ == self@.inputs[index as int],
            r matches Err(e) ==> e == Error::InvalidArgument,
    {
        if index >= self.inputs.len() {
            return Err(Error::InvalidArgument);
        }
        Ok(&self.inputs[index])
    }

    /// Stores `witness` for the input at `index`, replacing any earlier one.
    pub fn add_witness(&mut self, index: usize, witness: &[u8]) -> (r: Result<(), Error>)
        requires
            builder_wf(old(self)@),
        ensures
            builder_wf(final(self)@),
            match r {
                Ok(()) => after_add_witness(old(self)@, index as int, witness@) == Ok::<
                    BuilderView,
                    Error,
                >(final(self)@),
                Err(e) => after_add_witness(old(self)@, index as int, witness@) == Err::<
                    BuilderView,
                    Error,
                >(e) && final(self)@ == old(self)@,
            },
    {
        if index >= self.inputs.len() {
            return Err(Error::InvalidArgument);
        }
        if witness.len() != WITNESS_LEN {
            return Err(Error::DecodingError);
        }
        let mut input = self.inputs.remove(index);
        input.witness = Some(read_bytes(witness, 0, WITNESS_LEN));
        assert(witness@.subrange(0, 97) =~= witness@);
        self.inputs.insert(index, input);
        proof {
            let expected = old(self)@.inputs.update(
                index as int,
                InputView { witness: Some(witness@), ..old(self)@.inputs[index as int] },
            );
            assert(self@.inputs =~= expected);
        }
        Ok(())
    }

    /// Whether every input has its witness.
    pub fn is_completed(&self) -> (r: bool)
        ensures
            r == completed(self@),
    {
        let mut i: usize = 0;
        while i < self.inputs.len()
            invariant
                i <= self.inputs@.len(),
                forall|j: int| 0 <= j < i ==> (#[trigger] self@.inputs[j]).witness is Some,
            decreases self.inputs@.len() - i,
        {
            if self.inputs[i].witness.is_none() {
                assert(!(self@.inputs[i as int].witness is Some));
                return false;
            }
            i = i + 1;
        }
        true
    }

    fn encode_body(&self, out: &mut Vec<u8>)
        requires
            builder_wf(self@),
        ensures
            final(out)@ == old(out)@ + body_bytes(self@),
    {
        let ghost v = self@;
        out.push(self.chain_hex_id);
        push_u32(out, self.inputs.len() as u32);
        let ghost head = out@;
        let mut i: usize = 0;
        while i < self.inputs.len()
            invariant
                v == self@,
                builder_wf(v),
                i <= self.inputs@.len(),
                out@ == head + flatten(pointer_records(v.inputs).subrange(0, i as int)),
            decreases self.inputs@.len() - i,
        {
            push_bytes(out, self.inputs[i].prev_tx_id.as_slice());
            push_u16(out, self.inputs[i].prev_index);
            assert(pointer_records(v.inputs).subrange(0, i + 1).drop_last() =~= pointer_records(
                v.inputs,
            ).subrange(0, i as int));
            assert(out@ =~= head + flatten(pointer_records(v.inputs).subrange(0, i + 1)));
            i = i + 1;
        }
        assert(pointer_records(v.inputs).subrange(0, i as int) =~= pointer_records(v.inputs));
        push_u32(out, self.outputs.len() as u32);
        let ghost head2 = out@;
        let mut j: usize = 0;
        while j < self.outputs.len()
            invariant
                v == self@,
                builder_wf(v),
                j <= self.outputs@.len(),
                out@ == head2 + flatten(output_records(v.outputs).subrange(0, j as int)),
            decreases self.outputs@.len() - j,
        {
            proof {
                assert(out_wf(v.outputs[j as int]));
            }
            self.outputs[j].encode(out);
            assert(output_records(v.outputs).subrange(0, j + 1).drop_last() =~= output_records(
                v.outputs,
            ).subrange(0, j as int));
            j = j + 1;
        }
        assert(output_records(v.outputs).subrange(0, j as int) =~= output_records(v.outputs));
        push_u32(out, self.view_keys.len() as u32);
        let ghost head3 = out@;
        let mut k: usize = 0;
        while k < self.view_keys.len()
            invariant
                v == self@,
                k <= self.view_keys@.len(),
                out@ == head3 + flatten(v.view_keys.subrange(0, k as int)),
            decreases self.view_keys@.len() - k,
        {
            push_bytes(out, self.view_keys[k].as_slice());
            assert(v.view_keys.subrange(0, k + 1).drop_last() =~= v.view_keys.subrange(0, k as int));
            k = k + 1;
        }
        assert(v.view_keys.subrange(0, k as int) =~= v.view_keys);
        assert(out@ =~= old(out)@ + body_bytes(v));
    }

    /// The transaction id: the hash of the body, whatever witnesses are set.
    pub fn tx_id(&self) -> (r: Vec<u8>)
        requires
            builder_wf(self@),
        ensures
            r@ == tx_id_of(self@),
            r@.len() == 32,
    {
        let mut body: Vec<u8> = Vec::new();
        self.encode_body(&mut body);
        assert(body@ =~= body_bytes(self@));
        sha256(body.as_slice())
    }

    /// The signed transaction, with a zero-filled stand-in for each missing witness.
    fn signed_transaction(&self) -> (r: Vec<u8>)
        requires
            builder_wf(self@),
        ensures
            r@ == signed_bytes(self@),
    {
        let ghost v = self@;
        let ghost ws = v.inputs.map_values(|i: InputView| witness_or_dummy(i));
        let mut out: Vec<u8> = Vec::new();
        self.encode_body(&mut out);
        let ghost head = out@;
        let mut i: usize = 0;
        while i < self.inputs.len()
            invariant
                v == self@,
                builder_wf(v),
                ws == v.inputs.map_values(|i: InputView| witness_or_dummy(i)),
                i <= self.inputs@.len(),
                out@ == head + flatten(ws.subrange(0, i as int)),
                head == body_bytes(v),
            decreases self.inputs@.len() - i,
        {
            match &self.inputs[i].witness {
                Some(w) => push_bytes(&mut out, w.as_slice()),
                None => push_zeros(&mut out, WITNESS_LEN),
            }
            assert(ws.subrange(0, i + 1).drop_last() =~= ws.subrange(0, i as int));
            i = i + 1;
        }
        assert(ws.subrange(0, i as int) =~= ws);
        out
    }

    /// The fee the transaction will owe once signed, estimated before signing by
    /// standing a zero-filled witness in for each missing one.
    pub fn estimate_fee(&self) -> (r: u128)
        requires
            builder_wf(self@),
        ensures
            r == required_fee(self@),
    {
        let signed = self.signed_transaction();
        proof {
            self.lemma_signed_len();
        }
        self.fee_algorithm.estimate(signed.len())
    }

    /// The size of the signed transaction, which is small enough to price.
    pub proof fn lemma_signed_len(&self)
        requires
            builder_wf(self@),
        ensures
            signed_bytes(self@).len() == 13 + 34 * self@.inputs.len() + 49 * self@.outputs.len()
                + 33 * self@.view_keys.len() + 97 * self@.inputs.len(),
            signed_bytes(self@).len() <= 0x1_0000_0000,
    {
        let v = self@;
        let pr = pointer_records(v.inputs);
        let orr = output_records(v.outputs);
        let ws = v.inputs.map_values(|i: InputView| witness_or_dummy(i));
        assert forall|k: int| 0 <= k < pr.len() implies (#[trigger] pr[k]).len() == 34 by {
            assert(input_wf(v.inputs[k]));
        }
        assert forall|k: int| 0 <= k < orr.len() implies (#[trigger] orr[k]).len() == 49 by {
            lemma_out_round_trip(v.outputs[k]);
        }
        assert forall|k: int| 0 <= k < ws.len() implies (#[trigger] ws[k]).len() == 97 by {
            assert(input_wf(v.inputs[k]));
        }
        lemma_flatten_fixed(pr, 34);
        lemma_flatten_fixed(orr, 49);
        lemma_flatten_fixed(v.view_keys, 33);
        lemma_flatten_fixed(ws, 97);
    }

    /// The sum of the spent outputs' values.
    pub fn total_input_value(&self) -> (r: u128)
        requires
            builder_wf(self@),
        ensures
            r == sum_inputs(self@.inputs),
    {
        let ghost ins = self@.inputs;
        let mut total: u128 = 0;
        let mut i: usize = 0;
        while i < self.inputs.len()
            invariant
                ins == self@.inputs,
                ins.len() <= MAX_ITEMS,
                i <= ins.len(),
                total == sum_inputs(ins.subrange(0, i as int)),
            decreases ins.len() - i,
        {
            proof {
                lemma_sum_inputs_bound(ins.subrange(0, i as int));
                assert(ins.subrange(0, i + 1).drop_last() =~= ins.subrange(0, i as int));
                assert(i * 0xffff_ffff_ffff_ffff <= 65535 * 0xffff_ffff_ffff_ffff) by (nonlinear_arith)
                    requires
                        i <= 65535,
                ;
            }
            total = total + self.inputs[i].prev_output.value as u128;
            i = i + 1;
        }
        assert(ins.subrange(0, i as int) =~= ins);
        total
    }

    /// The sum of the outputs' values.
    pub fn total_output_value(&self) -> (r: u128)
        requires
            builder_wf(self@),
        ensures
            r == sum_outputs(self@.outputs),
    {
        let ghost outs = self@.outputs;
        let mut total: u128 = 0;
        let mut i: usize = 0;
        while i < self.outputs.len()
            invariant
                outs == self@.outputs,
                outs.len() <= MAX_ITEMS,
                i <= outs.len(),
                total == sum_outputs(outs.subrange(0, i as int)),
            decreases outs.len() - i,
        {
            proof {
                lemma_sum_outputs_bound(outs.subrange(0, i as int));
                assert(outs.subrange(0, i + 1).drop_last() =~= outs.subrange(0, i as int));
                assert(i * 0xffff_ffff_ffff_ffff <= 65535 * 0xffff_ffff_ffff_ffff) by (nonlinear_arith)
                    requires
                        i <= 65535,
                ;
            }
            total = total + self.outputs[i].value as u128;
            i = i + 1;
        }
        assert(outs.subrange(0, i as int) =~= outs);
        total
    }

    /// Checks that the spendable balance less the outputs covers the fee.
    pub fn verify(&self) -> (r: Result<(), Error>)
        requires
            builder_wf(self@),
        ensures
            r == fee_check(self@),
    {
        let spendable = self.total_input_value();
        let paid = self.total_output_value();
        let fee = self.estimate_fee();
        if spendable >= paid && spendable - paid >= fee {
            Ok(())
        } else {
            proof {
                lemma_sum_outputs_bound(self@.outputs);
            }
            Err(Error::InsufficientFunds)
        }
    }

    /// The signed transaction, once every input is signed and the fee is covered.
    pub fn finalize(&self) -> (r: Result<Vec<u8>, Error>)
        requires
            builder_wf(self@),
        ensures
            match r {
                Ok(b) => finalize_outcome(self@) == Ok::<Seq<u8>, Error>(b@),
                Err(e) => finalize_outcome(self@) == Err::<Seq<u8>, Error>(e),
            },
    {
        if !self.is_completed() {
            return Err(Error::IncompleteState);
        }
        self.verify()?;
        Ok(self.signed_transaction())
    }
}

} // verus!
