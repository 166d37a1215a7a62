//! Choosing how a finished transaction is made ready for broadcast: through the
//! encryption oracle over a websocket or HTTP transport, or through the mock
//! pass-through strategy, which this module carries out itself.
use vstd::prelude::*;
use vstd::string::StringSliceAdditionalSpecFns;
use crate::builder::{
    builder_wf, finalize_outcome, pointer_records, tx_id_of, BuilderView, TransactionBuilder,
};
use crate::codec::{flatten, push_bytes, push_u16, push_u32, push_u64, push_zeros, u16_le, u32_le, u64_le, zeros};
use crate::error::Error;
use crate::options::str_is;

verus! {

/// The obfuscation mode.
#[derive(Debug, Clone, Copy, PartialEq, Eq, Structural)]
pub enum Features {
    AllDefault,
    MockAbci,
    MockObfuscation,
}

/// How the oracle is reached.
#[derive(Debug, Clone, Copy, PartialEq, Eq, Structural)]
pub enum Transport {
    Websocket,
    Http,
}

/// The strategy that turns a signed transaction into a broadcast-ready envelope.
#[derive(Debug, Clone, Copy, PartialEq, Eq, Structural)]
pub enum Strategy {
    /// The confidential-transaction oracle.
    Oracle(Transport),
    /// The oracle variant of a mocked ABCI network.
    MockAbci(Transport),
    /// Deterministic pass-through, without encryption.
    Mock,
}

pub open spec fn word_all_default() -> Seq<u8> {
    seq![65u8, 108, 108, 68, 101, 102, 97, 117, 108, 116]
}

pub open spec fn word_mock_abci() -> Seq<u8> {
    seq![77u8, 111, 99, 107, 65, 98, 99, 105]
}

pub open spec fn word_mock_obfuscation() -> Seq<u8> {
    seq![77u8, 111, 99, 107, 79, 98, 102, 117, 115, 99, 97, 116, 105, 111, 110]
}

pub open spec fn scheme_ws() -> Seq<u8> {
    seq![119u8, 115]
}

pub open spec fn scheme_http() -> Seq<u8> {
    seq![104u8, 116, 116, 112]
}

pub open spec fn has_prefix(s: Seq<u8>, p: Seq<u8>) -> bool {
    p.len() <= s.len() && s.subrange(0, p.len() as int) == p
}

impl Features {
    /// The mode named `name` ("AllDefault", "MockAbci" or "MockObfuscation").
    pub fn argument(name: &str) -> (r: Result<Features, Error>)
        ensures
            r == (if name.spec_bytes() == word_all_default() {
                Ok::<Features, Error>(Features::AllDefault)
            } else if name.spec_bytes() == word_mock_abci() {
                Ok(Features::MockAbci)
            } else if name.spec_bytes() == word_mock_obfuscation() {
                Ok(Features::MockObfuscation)
            } else {
                Err(Error::InvalidArgument)
            }),
    {
        let all_default: Vec<u8> = vec![65u8, 108, 108, 68, 101, 102, 97, 117, 108, 116];
        let mock_abci: Vec<u8> = vec![77u8, 111, 99, 107, 65, 98, 99, 105];
        let mock_obfuscation: Vec<u8> = vec![
            77u8,
            111,
            99,
            107,
            79,
            98,
            102,
            117,
            115,
            99,
            97,
            116,
            105,
            111,
            110,
        ];
        assert(all_default@ =~= word_all_default());
        assert(mock_abci@ =~= word_mock_abci());
        assert(mock_obfuscation@ =~= word_mock_obfuscation());
        if str_is(name, &all_default) {
            Ok(Features::AllDefault)
        } else if str_is(name, &mock_abci) {
            Ok(Features::MockAbci)
        } else if str_is(name, &mock_obfuscation) {
            Ok(Features::MockObfuscation)
        } else {
            Err(Error::InvalidArgument)
        }
    }
}

fn starts_with(s: &[u8], p: &Vec<u8>) -> (r: bool)
    ensures
        r == has_prefix(s@, p@),
{
    if p.len() > s.len() {
        return false;
    }
    let mut i: usize = 0;
    while i < p.len()
        invariant
            p@.len() <= s@.len(),
            i <= p@.len(),
            forall|k: int| 0 <= k < i ==> s@[k] == p@[k],
        decreases p@.len() - i,
    {
        if s[i] != p[i] {
            assert(s@.subrange(0, p@.len() as int)[i as int] != p@[i as int]);
            return false;
        }
        i = i + 1;
    }
    assert(s@.subrange(0, p@.len() as int) =~= p@);
    true
}

/// The transport an address selects by its scheme: `ws…` or `http…`.
pub open spec fn transport_outcome(address: Seq<u8>) -> Result<Transport, Error> {
    if has_prefix(address, scheme_ws()) {
        Ok(Transport::Websocket)
    } else if has_prefix(address, scheme_http()) {
        Ok(Transport::Http)
    } else {
        Err(Error::TransportError)
    }
}

/// The strategy a mode and an address select.
pub open spec fn strategy_outcome(features: Features, address: Seq<u8>) -> Result<Strategy, Error> {
    match features {
        Features::MockObfuscation => Ok(Strategy::Mock),
        Features::AllDefault => match transport_outcome(address) {
            Ok(t) => Ok(Strategy::Oracle(t)),
            Err(e) => Err(e),
        },
        Features::MockAbci => match transport_outcome(address) {
            Ok(t) => Ok(Strategy::MockAbci(t)),
            Err(e) => Err(e),
        },
    }
}

/// The transport selected by the scheme of `address`.
pub fn transport_of(address: &str) -> (r: Result<Transport, Error>)
    ensures
        r == transport_outcome(address.spec_bytes()),
{
    let ws: Vec<u8> = vec![119u8, 115];
    let http: Vec<u8> = vec![104u8, 116, 116, 112];
    assert(ws@ =~= scheme_ws());
    assert(http@ =~= scheme_http());
    if starts_with(address.as_bytes(), &ws) {
        Ok(Transport::Websocket)
    } else if starts_with(address.as_bytes(), &http) {
        Ok(Transport::Http)
    } else {
        Err(Error::TransportError)
    }
}

/// The strategy for a mode and a transport address; an address of another scheme is
/// refused unless the mode is the mock pass-through, which needs no transport.
pub fn select_strategy(features: Features, address: &str) -> (r: Result<Strategy, Error>)
    ensures
        r == strategy_outcome(features, address.spec_bytes()),
{
    match features {
        Features::MockObfuscation => Ok(Strategy::Mock),
        Features::AllDefault => Ok(Strategy::Oracle(transport_of(address)?)),
        Features::MockAbci => Ok(Strategy::MockAbci(transport_of(address)?)),
    }
}

/// First byte of an envelope.
pub const ENVELOPE_TAG: u8 = 0x10;

/// The envelope of the mock strategy: the spent outputs, the number of outputs, the
/// transaction id, a zero key epoch and a zero initialization vector, then the
/// signed transaction itself in place of its encryption.
pub open spec fn mock_envelope(v: BuilderView, signed: Seq<u8>) -> Seq<u8> {
    seq![ENVELOPE_TAG] + u16_le(v.inputs.len() as u16) + flatten(pointer_records(v.inputs))
        + u16_le(v.outputs.len() as u16) + tx_id_of(v) + u64_le(0) + zeros(12) + u32_le(
        signed.len() as u32,
    ) + signed
}

/// Finalizes a builder with the mock strategy.
pub fn mock_encrypt(builder: &TransactionBuilder) -> (r: Result<Vec<u8>, Error>)
    requires
        builder_wf(builder@),
    ensures
        match finalize_outcome(builder@) {
            Ok(signed) => r matches Ok(b) && b@ == mock_envelope(builder@, signed),
            Err(e) => r == Err::<Vec<u8>, Error>(e),
        },
{
    let signed = builder.finalize()?;
    let ghost v = builder@;
    proof {
        builder.lemma_signed_len();
    }
    let mut out: Vec<u8> = Vec::new();
    out.push(ENVELOPE_TAG);
    push_u16(&mut out, builder.inputs.len() as u16);
    let ghost head = out@;
    let mut i: usize = 0;
    while i < builder.inputs.len()
        invariant
            v == builder@,
            i <= builder.inputs@.len(),
            out@ == head + flatten(pointer_records(v.inputs).subrange(0, i as int)),
        decreases builder.inputs@.len() - i,
    {
        push_bytes(&mut out, builder.inputs[i].prev_tx_id.as_slice());
        push_u16(&mut out, builder.inputs[i].prev_index);
        assert(pointer_records(v.inputs).subrange(0, i + 1).drop_last() =~= pointer_records(
            v.inputs,
        ).subrange(0, i as int));
        assert(out@ =~= head + flatten(pointer_records(v.inputs).subrange(0, i + 1)));
        i = i + 1;
    }
    assert(pointer_records(v.inputs).subrange(0, i as int) =~= pointer_records(v.inputs));
    push_u16(&mut out, builder.outputs.len() as u16);
    let id = builder.tx_id();
    push_bytes(&mut out, id.as_slice());
    push_u64(&mut out, 0);
    push_zeros(&mut out, 12);
    push_u32(&mut out, signed.len() as u32);
    push_bytes(&mut out, signed.as_slice());
    assert(out@ =~= mock_envelope(v, signed@));
    Ok(out)
}

} // verus!
