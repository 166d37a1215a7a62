//! The Schnorr multisignature session: one message, a canonically ordered set of
//! participants, and per-participant nonce commitments, nonces and partial
//! signatures, carried between calls as a byte snapshot.
use vstd::prelude::*;
use crate::codec::{
    flatten, lemma_opt_field, lemma_opt_field_canonical, lemma_records_equal, lemma_u32_canonical, lemma_u32_le, opt_field, opt_field_of, opt_field_ok, push_bytes, push_opt,
    push_u32, read_bytes, read_opt, read_u32, u32_le, u32_of,
};
use crate::crypto::{
    add_scalars, derive_public_key, is_compressed_point, mul_point, mul_scalars, negate_scalar,
    opt_bytes, parse_public_key, parsed_public_key, point_product, point_sum, public_key_of,
    scalar_negation, scalar_product, scalar_sum, seq_bytes, sha256, sha256_of, sum_points,
};
use crate::error::Error;
use crate::crypto::{schnorr_accepts, verify_schnorr};
use crate::keys::{
    bytes_equal, key_less, lemma_key_order_total, lemma_lex_lt_irreflexive,
    lemma_lex_lt_transitive, lemma_sorted_keys_permutation, sort_keys, sorted_keys, key_order,
    strictly_sorted,
};

verus! {

/// Length of a message digest, a nonce commitment, a secret and a partial signature.
pub const DIGEST_LEN: usize = 32;

/// Length of a compressed public key or nonce point.
pub const POINT_LEN: usize = 33;

/// First byte of a session snapshot.
pub const SESSION_TAG: u8 = 2;

/// Bytes before the participant records: tag, message, private key, nonce secret,
/// own index and participant count.
pub const SESSION_HEADER_LEN: usize = 105;


/// What the session knows of one participant.
pub struct SignerSlot {
    pub public_key: Vec<u8>,
    pub nonce_commitment: Option<Vec<u8>>,
    pub nonce: Option<Vec<u8>>,
    pub partial_signature: Option<Vec<u8>>,
}

pub struct SlotView {
    pub public_key: Seq<u8>,
    pub nonce_commitment: Option<Seq<u8>>,
    pub nonce: Option<Seq<u8>>,
    pub partial_signature: Option<Seq<u8>>,
}

impl View for SignerSlot {
    type V = SlotView;

    open spec fn view(&self) -> SlotView {
        SlotView {
            public_key: self.public_key@,
            nonce_commitment: opt_bytes(self.nonce_commitment),
            nonce: opt_bytes(self.nonce),
            partial_signature: opt_bytes(self.partial_signature),
        }
    }
}

/// A multisignature session in progress, as seen by one participant.
pub struct MultiSigSession {
    pub message: Vec<u8>,
    pub signers: Vec<SignerSlot>,
    pub self_index: usize,
    pub private_key: Vec<u8>,
    pub nonce_secret: Vec<u8>,
}

pub struct SessionView {
    pub message: Seq<u8>,
    pub signers: Seq<SlotView>,
    pub self_index: nat,
    pub private_key: Seq<u8>,
    pub nonce_secret: Seq<u8>,
}

pub open spec fn slot_views(s: Seq<SignerSlot>) -> Seq<SlotView> {
    s.map_values(|x: SignerSlot| x@)
}

impl View for MultiSigSession {
    type V = SessionView;

    open spec fn view(&self) -> SessionView {
        SessionView {
            message: self.message@,
            signers: slot_views(self.signers@),
            self_index: self.self_index as nat,
            private_key: self.private_key@,
            nonce_secret: self.nonce_secret@,
        }
    }
}

/// The participants' keys, in session order.
pub open spec fn signer_keys(signers: Seq<SlotView>) -> Seq<Seq<u8>> {
    signers.map_values(|s: SlotView| s.public_key)
}

pub open spec fn opt_len(o: Option<Seq<u8>>, n: nat) -> bool {
    o matches Some(v) ==> v.len() == n
}

/// A participant record with a compressed key and fixed-size optional fields.
pub open spec fn slot_wf(s: SlotView) -> bool {
    &&& is_compressed_point(s.public_key)
    &&& opt_len(s.nonce_commitment, 32)
    &&& opt_len(s.nonce, 33)
    &&& opt_len(s.partial_signature, 32)
}

/// A well-formed session: fixed-size fields, distinct canonical keys in canonical
/// order, its own key among them, and a usable nonce secret.
pub open spec fn session_wf(v: SessionView) -> bool {
    &&& v.message.len() == 32
    &&& v.private_key.len() == 32
    &&& v.nonce_secret.len() == 32
    &&& public_key_of(v.nonce_secret) is Some
    &&& v.signers.len() <= u32::MAX
    &&& v.self_index < v.signers.len()
    &&& forall|i: int| 0 <= i < v.signers.len() ==> slot_wf(#[trigger] v.signers[i])
    &&& strictly_sorted(signer_keys(v.signers))
}

// ---------------------------------------------------------------------------
// Snapshot format

/// The 133-byte record of a participant.
pub open spec fn slot_bytes(s: SlotView) -> Seq<u8> {
    s.public_key + opt_field(s.nonce_commitment, 32) + opt_field(s.nonce, 33) + opt_field(
        s.partial_signature,
        32,
    )
}

/// The records of all participants, in order.
pub open spec fn slots_bytes(s: Seq<SlotView>) -> Seq<u8>
    decreases s.len(),
{
    if s.len() == 0 {
        seq![]
    } else {
        slots_bytes(s.drop_last()) + slot_bytes(s.last())
    }
}

/// The snapshot of a session.
pub open spec fn session_bytes(v: SessionView) -> Seq<u8> {
    seq![SESSION_TAG] + v.message + v.private_key + v.nonce_secret + u32_le(v.self_index as u32)
        + u32_le(v.signers.len() as u32) + slots_bytes(v.signers)
}

/// What a participant record reads back as.
pub open spec fn slot_of(b: Seq<u8>) -> SlotView {
    SlotView {
        public_key: b.subrange(0, 33),
        nonce_commitment: opt_field_of(b.subrange(33, 66)),
        nonce: opt_field_of(b.subrange(66, 100)),
        partial_signature: opt_field_of(b.subrange(100, 133)),
    }
}

/// A participant record has 133 bytes, is well formed, and reads back as the participant.
pub proof fn lemma_slot_round_trip(s: SlotView)
    requires
        slot_wf(s),
    ensures
        slot_bytes(s).len() == 133,
        slot_of(slot_bytes(s)) == s,
        opt_field_ok(slot_bytes(s).subrange(33, 66)),
        opt_field_ok(slot_bytes(s).subrange(66, 100)),
        opt_field_ok(slot_bytes(s).subrange(100, 133)),
{
    lemma_opt_field(s.nonce_commitment, 32);
    lemma_opt_field(s.nonce, 33);
    lemma_opt_field(s.partial_signature, 32);
    let b = slot_bytes(s);
    assert(b.subrange(0, 33) =~= s.public_key);
    assert(b.subrange(33, 66) =~= opt_field(s.nonce_commitment, 32));
    assert(b.subrange(66, 100) =~= opt_field(s.nonce, 33));
    assert(b.subrange(100, 133) =~= opt_field(s.partial_signature, 32));
}

/// Where each participant record lies among all of them.
pub proof fn lemma_slots_bytes(s: Seq<SlotView>)
    requires
        forall|i: int| 0 <= i < s.len() ==> slot_wf(#[trigger] s[i]),
    ensures
        slots_bytes(s).len() == 133 * s.len(),
        forall|i: int|
            0 <= i < s.len() ==> #[trigger] slots_bytes(s).subrange(133 * i, 133 * i + 133)
                == slot_bytes(s[i]),
    decreases s.len(),
{
    if s.len() > 0 {
        let p = s.drop_last();
        lemma_slots_bytes(p);
        lemma_slot_round_trip(s.last());
        let b = slots_bytes(s);
        assert forall|i: int| 0 <= i < s.len() implies #[trigger] b.subrange(133 * i, 133 * i + 133)
            == slot_bytes(s[i]) by {
            if i < p.len() {
                assert(b.subrange(133 * i, 133 * i + 133) =~= slots_bytes(p).subrange(
                    133 * i,
                    133 * i + 133,
                ));
            } else {
                assert(b.subrange(133 * i, 133 * i + 133) =~= slot_bytes(s.last()));
            }
        }
    }
}

impl SignerSlot {
    fn encode(&self, out: &mut Vec<u8>)
        requires
            slot_wf(self@),
        ensures
            final(out)@ == old(out)@ + slot_bytes(self@),
    {
        push_bytes(out, self.public_key.as_slice());
        push_opt(out, &self.nonce_commitment, DIGEST_LEN);
        push_opt(out, &self.nonce, POINT_LEN);
        push_opt(out, &self.partial_signature, DIGEST_LEN);
        assert(out@ =~= old(out)@ + slot_bytes(self@));
    }

    fn decode(b: &[u8], pos: usize) -> (r: Option<SignerSlot>)
        requires
            pos + 133 <= b@.len(),
        ensures
            r matches Some(s) ==> s@ == slot_of(b@.subrange(pos as int, pos + 133)) && slot_wf(s@)
                && slot_bytes(s@) == b@.subrange(pos as int, pos + 133),
            ({
                let rec = b@.subrange(pos as int, pos + 133);
                (opt_field_ok(rec.subrange(33, 66)) && opt_field_ok(rec.subrange(66, 100))
                    && opt_field_ok(rec.subrange(100, 133)) && is_compressed_point(
                    rec.subrange(0, 33),
                )) ==> r is Some
            }),
    {
        let ghost rec = b@.subrange(pos as int, pos + 133);
        let len = b.len();
        assert(pos + 133 <= len);
        let public_key = read_bytes(b, pos, POINT_LEN);
        assert(public_key@ =~= rec.subrange(0, 33));
        if public_key[0] != 2 && public_key[0] != 3 {
            return None;
        }
        let c = read_opt(b, pos + 33, DIGEST_LEN);
        assert(b@.subrange(pos + 33, pos + 66) =~= rec.subrange(33, 66));
        let n = read_opt(b, pos + 66, POINT_LEN);
        assert(b@.subrange(pos + 66, pos + 100) =~= rec.subrange(66, 100));
        let p = read_opt(b, pos + 100, DIGEST_LEN);
        assert(b@.subrange(pos + 100, pos + 133) =~= rec.subrange(100, 133));
        match (c, n, p) {
            (Some(c), Some(n), Some(p)) => {
                proof {
                    lemma_opt_field_canonical(rec.subrange(33, 66), 32);
                    lemma_opt_field_canonical(rec.subrange(66, 100), 33);
                    lemma_opt_field_canonical(rec.subrange(100, 133), 32);
                    assert(slot_bytes(slot_of(rec)) =~= rec);
                }
                Some(
                    SignerSlot {
                        public_key,
                        nonce_commitment: c,
                        nonce: n,
                        partial_signature: p,
                    },
                )
            },
            _ => None,
        }
    }
}

/// Where each field of a well-formed session lies in its snapshot.
pub proof fn lemma_session_layout(v: SessionView)
    requires
        session_wf(v),
    ensures
        session_bytes(v).len() == 105 + 133 * v.signers.len(),
        session_bytes(v)[0] == SESSION_TAG,
        session_bytes(v).subrange(1, 33) == v.message,
        session_bytes(v).subrange(33, 65) == v.private_key,
        session_bytes(v).subrange(65, 97) == v.nonce_secret,
        u32_of(session_bytes(v).subrange(97, 101)) == v.self_index,
        u32_of(session_bytes(v).subrange(101, 105)) == v.signers.len(),
        forall|k: int|
            0 <= k < v.signers.len() ==> #[trigger] session_bytes(v).subrange(
                105 + 133 * k,
                105 + 133 * k + 133,
            ) == slot_bytes(v.signers[k]),
{
    let b = session_bytes(v);
    lemma_u32_le(v.self_index as u32);
    lemma_u32_le(v.signers.len() as u32);
    lemma_slots_bytes(v.signers);
    let slots = slots_bytes(v.signers);
    assert(b.subrange(1, 33) =~= v.message);
    assert(b.subrange(33, 65) =~= v.private_key);
    assert(b.subrange(65, 97) =~= v.nonce_secret);
    assert(b.subrange(97, 101) =~= u32_le(v.self_index as u32));
    assert(b.subrange(101, 105) =~= u32_le(v.signers.len() as u32));
    assert forall|k: int| 0 <= k < v.signers.len() implies #[trigger] b.subrange(
        105 + 133 * k,
        105 + 133 * k + 133,
    ) == slot_bytes(v.signers[k]) by {
        assert(b.subrange(105 + 133 * k, 105 + 133 * k + 133) =~= slots.subrange(
            133 * k,
            133 * k + 133,
        ));
    }
}

/// Distinct well-formed sessions have distinct snapshots.
pub proof fn lemma_session_bytes_injective(v: SessionView, w: SessionView)
    requires
        session_wf(v),
        session_wf(w),
        session_bytes(v) == session_bytes(w),
    ensures
        v == w,
{
    lemma_session_layout(v);
    lemma_session_layout(w);
    let b = session_bytes(v);
    assert(v.signers.len() == w.signers.len());
    assert forall|k: int| 0 <= k < v.signers.len() implies v.signers[k] == w.signers[k] by {
        let rec = b.subrange(105 + 133 * k, 105 + 133 * k + 133);
        lemma_slot_round_trip(v.signers[k]);
        lemma_slot_round_trip(w.signers[k]);
        assert(slot_of(rec) == v.signers[k]);
        assert(slot_of(rec) == w.signers[k]);
    }
    assert(v.signers =~= w.signers);
}

impl MultiSigSession {
    /// The snapshot of this session.
    pub fn to_incomplete(&self) -> (r: Vec<u8>)
        requires
            session_wf(self@),
        ensures
            r@ == session_bytes(self@),
    {
        let mut out: Vec<u8> = Vec::new();
        out.push(SESSION_TAG);
        push_bytes(&mut out, self.message.as_slice());
        push_bytes(&mut out, self.private_key.as_slice());
        push_bytes(&mut out, self.nonce_secret.as_slice());
        push_u32(&mut out, self.self_index as u32);
        push_u32(&mut out, self.signers.len() as u32);
        let ghost head = out@;
        let ghost slots = slot_views(self.signers@);
        let mut i: usize = 0;
        while i < self.signers.len()
            invariant
                session_wf(self@),
                slots == slot_views(self.signers@),
                i <= self.signers@.len(),
                out@ == head + slots_bytes(slots.subrange(0, i as int)),
            decreases self.signers@.len() - i,
        {
            proof {
                assert(slot_wf(slots[i as int]));
            }
            self.signers[i].encode(&mut out);
            proof {
                assert(slots.subrange(0, i + 1).drop_last() =~= slots.subrange(0, i as int));
            }
            i = i + 1;
        }
        proof {
            assert(slots.subrange(0, slots.len() as int) =~= slots);
        }
        assert(out@ =~= session_bytes(self@));
        out
    }

    /// Restores a session from its snapshot; malformed bytes give a decoding error.
    #[verifier::rlimit(60)]
    pub fn from_incomplete(b: &[u8]) -> (r: Result<MultiSigSession, Error>)
        ensures
            r matches Ok(s) ==> session_wf(s@) && session_bytes(s@) == b@,
            r matches Err(e) ==> e == Error::DecodingError,
            forall|v: SessionView|
                session_wf(v) && session_bytes(v) == b@ ==> (r matches Ok(s) && s@ == v),
    {
        let ghost good = exists|v: SessionView| session_wf(v) && session_bytes(v) == b@;
        let ghost v0 = choose|v: SessionView| session_wf(v) && session_bytes(v) == b@;
        proof {
            if good {
                lemma_session_layout(v0);
            }
            assert forall|v: SessionView| session_wf(v) && session_bytes(v) == b@ implies v == v0 by {
                lemma_session_bytes_injective(v, v0);
            }
        }
        let len = b.len();
        if len < SESSION_HEADER_LEN || b[0] != SESSION_TAG {
            return Err(Error::DecodingError);
        }
        let message = read_bytes(b, 1, DIGEST_LEN);
        let private_key = read_bytes(b, 33, DIGEST_LEN);
        let nonce_secret = read_bytes(b, 65, DIGEST_LEN);
        let self_index = read_u32(b, 97);
        let count = read_u32(b, 101);
        if (len as u128) != 105 + (count as u128) * 133 || self_index >= count {
            return Err(Error::DecodingError);
        }
        if derive_public_key(nonce_secret.as_slice()).is_none() {
            return Err(Error::DecodingError);
        }
        let mut signers: Vec<SignerSlot> = Vec::new();
        let mut i: usize = 0;
        while i < count as usize
            invariant
                len == b@.len(),
                len == 105 + 133 * count,
                i <= count,
                signers@.len() == i,
                forall|k: int|
                    0 <= k < i ==> slot_wf(#[trigger] signers@[k]@) && signers@[k]@ == slot_of(
                        b@.subrange(105 + 133 * k, 105 + 133 * k + 133),
                    ) && slot_bytes(signers@[k]@) == b@.subrange(105 + 133 * k, 105 + 133 * k + 133),
                strictly_sorted(signer_keys(slot_views(signers@))),
                good ==> v0.signers.len() == count,
                good ==> forall|k: int| 0 <= k < i ==> signers@[k]@ == v0.signers[k],
                good ==> session_wf(v0) && session_bytes(v0) == b@,
                !good ==> forall|v: SessionView| !(session_wf(v) && session_bytes(v) == b@),
                good ==> forall|k: int|
                    0 <= k < count ==> #[trigger] b@.subrange(105 + 133 * k, 105 + 133 * k + 133)
                        == slot_bytes(v0.signers[k]),
            decreases count - i,
        {
            let pos: usize = 105 + 133 * i;
            let slot = match SignerSlot::decode(b, pos) {
                Some(s) => s,
                None => {
                    proof {
                        if good {
                            let rec = b@.subrange(105 + 133 * i, 105 + 133 * i + 133);
                            lemma_slot_round_trip(v0.signers[i as int]);
                            assert(rec == slot_bytes(v0.signers[i as int]));
                            assert(slot_wf(v0.signers[i as int]));
                            assert(rec.subrange(0, 33) == slot_of(rec).public_key);
                            assert(false);
                        }
                    }
                    return Err(Error::DecodingError);
                },
            };
            proof {
                if good {
                    lemma_slot_round_trip(v0.signers[i as int]);
                    assert(b@.subrange(105 + 133 * i, 105 + 133 * i + 133) == slot_bytes(
                        v0.signers[i as int],
                    ));
                }
            }
            if i > 0 && !key_less(signers[i - 1].public_key.as_slice(), slot.public_key.as_slice()) {
                proof {
                    if good {
                        let keys = signer_keys(v0.signers);
                        assert(keys[i - 1] == v0.signers[i - 1].public_key);
                        assert(keys[i as int] == v0.signers[i as int].public_key);
                        assert(crate::keys::lex_lt(keys[i - 1], keys[i as int]));
                        assert(signers@[i - 1]@ == v0.signers[i - 1]);
                        assert(slot@ == v0.signers[i as int]);
                        assert(false);
                    }
                }
                return Err(Error::DecodingError);
            }
            let ghost before = signers@;
            signers.push(slot);
            proof {
                let keys = signer_keys(slot_views(signers@));
                assert forall|a: int, c: int| 0 <= a < c < keys.len() implies crate::keys::lex_lt(
                    #[trigger] keys[a],
                    #[trigger] keys[c],
                ) by {
                    let old_keys = signer_keys(slot_views(before));
                    if c == i && a < i - 1 {
                        assert(old_keys[a] == keys[a]);
                        assert(old_keys[i - 1] == keys[i - 1]);
                        lemma_lex_lt_transitive(keys[a], keys[i - 1], keys[c]);
                    } else if c < i {
                        assert(old_keys[a] == keys[a]);
                        assert(old_keys[c] == keys[c]);
                    }
                }
            }
            i = i + 1;
        }
        let s = MultiSigSession {
            message,
            signers,
            self_index: self_index as usize,
            private_key,
            nonce_secret,
        };
        proof {
            assert forall|k: int| 0 <= k < s@.signers.len() implies slot_wf(#[trigger] s@.signers[k]) by {
                assert(s@.signers[k] == signers@[k]@);
            }
            let v = s@;
            let slots = slots_bytes(v.signers);
            lemma_slots_bytes(v.signers);
            lemma_u32_canonical(b@.subrange(97, 101));
            lemma_u32_canonical(b@.subrange(101, 105));
            let tail = b@.subrange(105, b@.len() as int);
            assert forall|k: int| 0 <= k < count implies #[trigger] tail.subrange(
                133 * k,
                133 * k + 133,
            ) == slots.subrange(133 * k, 133 * k + 133) by {
                assert(tail.subrange(133 * k, 133 * k + 133) =~= b@.subrange(
                    105 + 133 * k,
                    105 + 133 * k + 133,
                ));
                assert(v.signers[k] == signers@[k]@);
            }
            lemma_records_equal(tail, slots, count as nat, 133);
            assert(b@ =~= session_bytes(v));
            if good {
                assert(s@.signers =~= v0.signers);
                assert(s@.message =~= v0.message);
                assert(s@.private_key =~= v0.private_key);
                assert(s@.nonce_secret =~= v0.nonce_secret);
            }
        }
        Ok(s)
    }
}

// ---------------------------------------------------------------------------
// Protocol state transitions

/// The position of the participant with canonical key `k`, if there is one.
pub open spec fn slot_index(v: SessionView, k: Seq<u8>) -> Option<int> {
    if exists|i: int| 0 <= i < v.signers.len() && v.signers[i].public_key == k {
        Some(choose|i: int| 0 <= i < v.signers.len() && v.signers[i].public_key == k)
    } else {
        None
    }
}

/// The session with the record at `i` replaced.
pub open spec fn set_slot(v: SessionView, i: int, s: SlotView) -> SessionView {
    SessionView { signers: v.signers.update(i, s), ..v }
}

pub open spec fn with_commitment(s: SlotView, c: Seq<u8>) -> SlotView {
    SlotView { nonce_commitment: Some(c), ..s }
}

pub open spec fn with_nonce(s: SlotView, n: Seq<u8>) -> SlotView {
    SlotView { nonce: Some(n), ..s }
}

pub open spec fn with_partial(s: SlotView, p: Seq<u8>) -> SlotView {
    SlotView { partial_signature: Some(p), ..s }
}

/// This participant's nonce point.
pub open spec fn own_nonce(v: SessionView) -> Seq<u8> {
    public_key_of(v.nonce_secret)->0
}

/// This participant's nonce commitment: the hash of its nonce point.
pub open spec fn own_commitment(v: SessionView) -> Seq<u8> {
    sha256_of(own_nonce(v))
}

/// The session once its own commitment is recorded.
pub open spec fn after_own_commitment(v: SessionView) -> SessionView {
    set_slot(v, v.self_index as int, with_commitment(v.signers[v.self_index as int], own_commitment(v)))
}

/// Recording another participant's nonce commitment.
pub open spec fn after_add_commitment(v: SessionView, pk: Seq<u8>, c: Seq<u8>) -> Result<
    SessionView,
    Error,
> {
    match parsed_public_key(pk) {
        None => Err(Error::DecodingError),
        Some(k) => if c.len() != 32 {
            Err(Error::DecodingError)
        } else {
            match slot_index(v, k) {
                None => Err(Error::InvalidArgument),
                Some(i) => if i == v.self_index || v.signers[i].nonce_commitment is Some {
                    Err(Error::InvalidArgument)
                } else {
                    Ok(set_slot(v, i, with_commitment(v.signers[i], c)))
                },
            }
        },
    }
}

/// Every participant, this one included, has a recorded commitment.
pub open spec fn all_committed(v: SessionView) -> bool {
    forall|i: int| 0 <= i < v.signers.len() ==> (#[trigger] v.signers[i]).nonce_commitment is Some
}

/// Revealing this participant's nonce, once every commitment is in.
pub open spec fn after_own_nonce(v: SessionView) -> Result<SessionView, Error> {
    if all_committed(v) {
        Ok(set_slot(v, v.self_index as int, with_nonce(v.signers[v.self_index as int], own_nonce(v))))
    } else {
        Err(Error::IncompleteState)
    }
}

/// Recording another participant's nonce, which must match its commitment.
pub open spec fn after_add_nonce(v: SessionView, pk: Seq<u8>, n: Seq<u8>) -> Result<
    SessionView,
    Error,
> {
    match (parsed_public_key(pk), parsed_public_key(n)) {
        (Some(k), Some(np)) => match slot_index(v, k) {
            None => Err(Error::InvalidArgument),
            Some(i) => if i == v.self_index || v.signers[i].nonce is Some {
                Err(Error::InvalidArgument)
            } else {
                match v.signers[i].nonce_commitment {
                    None => Err(Error::ConsistencyError),
                    Some(c) => if sha256_of(np) != c {
                        Err(Error::ConsistencyError)
                    } else {
                        Ok(set_slot(v, i, with_nonce(v.signers[i], np)))
                    },
                }
            },
        },
        _ => Err(Error::DecodingError),
    }
}

/// A nonce may be accepted for a participant only when it hashes to the commitment
/// recorded earlier for that same participant.
pub proof fn lemma_commit_reveal_binding(v: SessionView, pk: Seq<u8>, n: Seq<u8>)
    requires
        after_add_nonce(v, pk, n) is Ok,
    ensures
        parsed_public_key(pk) is Some,
        parsed_public_key(n) is Some,
        slot_index(v, parsed_public_key(pk)->0) matches Some(i) && v.signers[i].nonce_commitment
            == Some(sha256_of(parsed_public_key(n)->0)),
{
}

/// In a well-formed session a key names at most one participant.
proof fn lemma_slot_index_unique(v: SessionView, k: Seq<u8>, i: int)
    requires
        strictly_sorted(signer_keys(v.signers)),
        0 <= i < v.signers.len(),
        v.signers[i].public_key == k,
    ensures
        slot_index(v, k) == Some(i),
{
    let j = choose|j: int| 0 <= j < v.signers.len() && v.signers[j].public_key == k;
    if j != i {
        let keys = signer_keys(v.signers);
        lemma_lex_lt_irreflexive(k);
        if j < i {
            assert(crate::keys::lex_lt(keys[j], keys[i]));
        } else {
            assert(crate::keys::lex_lt(keys[i], keys[j]));
        }
    }
}

/// Replacing a participant's record by one with the same key keeps every key at its
/// position, and keeps the session well formed if the new record is.
proof fn lemma_set_slot_keeps_keys(v: SessionView, i: int, s: SlotView, k: Seq<u8>)
    requires
        session_wf(v),
        0 <= i < v.signers.len(),
        s.public_key == v.signers[i].public_key,
    ensures
        slot_wf(s) ==> session_wf(set_slot(v, i, s)),
        slot_index(set_slot(v, i, s), k) == slot_index(v, k),
{
    let w = set_slot(v, i, s);
    assert(signer_keys(w.signers) =~= signer_keys(v.signers));
    if slot_wf(s) {
        assert forall|q: int| 0 <= q < w.signers.len() implies slot_wf(#[trigger] w.signers[q]) by {
            if q != i {
                assert(w.signers[q] == v.signers[q]);
            }
        }
    }
    if exists|j: int| 0 <= j < v.signers.len() && v.signers[j].public_key == k {
        let j = choose|j: int| 0 <= j < v.signers.len() && v.signers[j].public_key == k;
        assert(w.signers[j].public_key == k);
        lemma_slot_index_unique(v, k, j);
        lemma_slot_index_unique(w, k, j);
    } else {
        assert forall|j: int| 0 <= j < w.signers.len() implies w.signers[j].public_key != k by {
            assert(w.signers[j].public_key == v.signers[j].public_key);
        }
    }
}

/// Commitments of two different participants can be recorded in either order, with
/// the same outcome.
pub proof fn lemma_commitments_commute(
    v: SessionView,
    pk1: Seq<u8>,
    c1: Seq<u8>,
    pk2: Seq<u8>,
    c2: Seq<u8>,
)
    requires
        session_wf(v),
        parsed_public_key(pk1) != parsed_public_key(pk2),
        after_add_commitment(v, pk1, c1) is Ok,
        after_add_commitment(v, pk2, c2) is Ok,
    ensures
        session_wf(after_add_commitment(v, pk1, c1)->Ok_0),
        session_wf(after_add_commitment(v, pk2, c2)->Ok_0),
        after_add_commitment(after_add_commitment(v, pk1, c1)->Ok_0, pk2, c2) == after_add_commitment(
            after_add_commitment(v, pk2, c2)->Ok_0,
            pk1,
            c1,
        ),
        after_add_commitment(after_add_commitment(v, pk1, c1)->Ok_0, pk2, c2) is Ok,
{
    let k1 = parsed_public_key(pk1)->0;
    let k2 = parsed_public_key(pk2)->0;
    let i1 = slot_index(v, k1)->0;
    let i2 = slot_index(v, k2)->0;
    let s1 = with_commitment(v.signers[i1], c1);
    let s2 = with_commitment(v.signers[i2], c2);
    let v1 = set_slot(v, i1, s1);
    let v2 = set_slot(v, i2, s2);
    lemma_set_slot_keeps_keys(v, i1, s1, k2);
    lemma_set_slot_keeps_keys(v, i2, s2, k1);
    assert(i1 != i2);
    assert(v1.signers[i2] == v.signers[i2]);
    assert(v2.signers[i1] == v.signers[i1]);
    assert(set_slot(v1, i2, with_commitment(v1.signers[i2], c2)).signers =~= set_slot(
        v2,
        i1,
        with_commitment(v2.signers[i1], c1),
    ).signers);
}

/// Partial signatures of two different participants can be recorded in either
/// order, with the same outcome.
pub proof fn lemma_partials_commute(
    v: SessionView,
    pk1: Seq<u8>,
    p1: Seq<u8>,
    pk2: Seq<u8>,
    p2: Seq<u8>,
)
    requires
        session_wf(v),
        parsed_public_key(pk1) != parsed_public_key(pk2),
        after_add_partial(v, pk1, p1) is Ok,
        after_add_partial(v, pk2, p2) is Ok,
    ensures
        after_add_partial(after_add_partial(v, pk1, p1)->Ok_0, pk2, p2) == after_add_partial(
            after_add_partial(v, pk2, p2)->Ok_0,
            pk1,
            p1,
        ),
        after_add_partial(after_add_partial(v, pk1, p1)->Ok_0, pk2, p2) is Ok,
{
    let k1 = parsed_public_key(pk1)->0;
    let k2 = parsed_public_key(pk2)->0;
    let i1 = slot_index(v, k1)->0;
    let i2 = slot_index(v, k2)->0;
    let s1 = with_partial(v.signers[i1], p1);
    let s2 = with_partial(v.signers[i2], p2);
    let v1 = set_slot(v, i1, s1);
    let v2 = set_slot(v, i2, s2);
    lemma_set_slot_keeps_keys(v, i1, s1, k2);
    lemma_set_slot_keeps_keys(v, i2, s2, k1);
    assert(i1 != i2);
    assert(v1.signers[i2] == v.signers[i2]);
    assert(v2.signers[i1] == v.signers[i1]);
    assert(set_slot(v1, i2, with_partial(v1.signers[i2], p2)).signers =~= set_slot(
        v2,
        i1,
        with_partial(v2.signers[i1], p1),
    ).signers);
}

/// Nonces of two different participants can be recorded in either order, with the
/// same outcome.
pub proof fn lemma_nonces_commute(
    v: SessionView,
    pk1: Seq<u8>,
    n1: Seq<u8>,
    pk2: Seq<u8>,
    n2: Seq<u8>,
)
    requires
        session_wf(v),
        parsed_public_key(pk1) != parsed_public_key(pk2),
        after_add_nonce(v, pk1, n1) is Ok,
        after_add_nonce(v, pk2, n2) is Ok,
    ensures
        after_add_nonce(after_add_nonce(v, pk1, n1)->Ok_0, pk2, n2) == after_add_nonce(
            after_add_nonce(v, pk2, n2)->Ok_0,
            pk1,
            n1,
        ),
        after_add_nonce(after_add_nonce(v, pk1, n1)->Ok_0, pk2, n2) is Ok,
{
    let k1 = parsed_public_key(pk1)->0;
    let k2 = parsed_public_key(pk2)->0;
    let i1 = slot_index(v, k1)->0;
    let i2 = slot_index(v, k2)->0;
    let s1 = with_nonce(v.signers[i1], parsed_public_key(n1)->0);
    let s2 = with_nonce(v.signers[i2], parsed_public_key(n2)->0);
    let v1 = set_slot(v, i1, s1);
    let v2 = set_slot(v, i2, s2);
    lemma_set_slot_keeps_keys(v, i1, s1, k2);
    lemma_set_slot_keeps_keys(v, i2, s2, k1);
    assert(i1 != i2);
    assert(v1.signers[i2] == v.signers[i2]);
    assert(v2.signers[i1] == v.signers[i1]);
    assert(set_slot(v1, i2, with_nonce(v1.signers[i2], parsed_public_key(n2)->0)).signers =~= set_slot(
        v2,
        i1,
        with_nonce(v2.signers[i1], parsed_public_key(n1)->0),
    ).signers);
}

impl MultiSigSession {
    /// The position of the participant whose canonical key is `key`.
    fn find_signer(&self, key: &[u8]) -> (r: Option<usize>)
        requires
            session_wf(self@),
        ensures
            match r {
                Some(i) => slot_index(self@, key@) == Some(i as int),
                None => slot_index(self@, key@) is None,
            },
    {
        let mut i: usize = 0;
        while i < self.signers.len()
            invariant
                session_wf(self@),
                i <= self.signers@.len(),
                forall|j: int| 0 <= j < i ==> (#[trigger] self@.signers[j]).public_key != key@,
            decreases self.signers@.len() - i,
        {
            if bytes_equal(self.signers[i].public_key.as_slice(), key) {
                proof {
                    assert(self@.signers[i as int].public_key == key@);
                    let j = choose|j: int|
                        0 <= j < self@.signers.len() && self@.signers[j].public_key == key@;
                    if j != i {
                        let keys = signer_keys(self@.signers);
                        assert(keys[j] == keys[i as int]);
                        lemma_lex_lt_irreflexive(key@);
                        if j < i {
                            assert(crate::keys::lex_lt(keys[j], keys[i as int]));
                        } else {
                            assert(crate::keys::lex_lt(keys[i as int], keys[j]));
                        }
                    }
                }
                return Some(i);
            }
            i = i + 1;
        }
        None
    }

    /// Replaces the record at `i`, keeping its key.
    fn update_slot(&mut self, i: usize, slot: SignerSlot)
        requires
            session_wf(old(self)@),
            i < old(self).signers@.len(),
            slot_wf(slot@),
            slot@.public_key == old(self)@.signers[i as int].public_key,
        ensures
            final(self)@ == set_slot(old(self)@, i as int, slot@),
            session_wf(final(self)@),
    {
        let _ = self.signers.remove(i);
        self.signers.insert(i, slot);
        proof {
            assert(slot_views(self.signers@) =~= slot_views(old(self).signers@).update(
                i as int,
                slot@,
            ));
            assert(signer_keys(self@.signers) =~= signer_keys(old(self)@.signers));
            assert forall|k: int| 0 <= k < self@.signers.len() implies slot_wf(
                #[trigger] self@.signers[k],
            ) by {
                if k != i {
                    assert(self@.signers[k] == old(self)@.signers[k]);
                }
            }
        }
    }

    fn own_nonce_point(&self) -> (r: Vec<u8>)
        requires
            session_wf(self@),
        ensures
            r@ == own_nonce(self@),
            r@.len() == 33,
    {
        match derive_public_key(self.nonce_secret.as_slice()) {
            Some(p) => p,
            None => {
                proof {
                    assert(false);
                }
                Vec::new()
            },
        }
    }

    /// This participant's nonce commitment; it is recorded in its own slot, and every
    /// call returns the same value.
    pub fn nonce_commitment(&mut self) -> (r: Vec<u8>)
        requires
            session_wf(old(self)@),
        ensures
            r@ == own_commitment(old(self)@),
            final(self)@ == after_own_commitment(old(self)@),
            session_wf(final(self)@),
    {
        let point = self.own_nonce_point();
        let commitment = sha256(point.as_slice());
        let i = self.self_index;
        let slot = SignerSlot {
            public_key: self.signers[i].public_key.clone(),
            nonce_commitment: Some(commitment.clone()),
            nonce: self.signers[i].nonce.clone(),
            partial_signature: self.signers[i].partial_signature.clone(),
        };
        self.update_slot(i, slot);
        commitment
    }

    /// Records the nonce commitment of another participant.
    pub fn add_nonce_commitment(&mut self, public_key: &[u8], commitment: &[u8]) -> (r: Result<
        (),
        Error,
    >)
        requires
            session_wf(old(self)@),
        ensures
            session_wf(final(self)@),
            match r {
                Ok(()) => after_add_commitment(old(self)@, public_key@, commitment@) == Ok::<
                    SessionView,
                    Error,
                >(final(self)@),
                Err(e) => after_add_commitment(old(self)@, public_key@, commitment@) == Err::<
                    SessionView,
                    Error,
                >(e) && final(self)@ == old(self)@,
            },
    {
        let key = match parse_public_key(public_key) {
            Some(k) => k,
            None => return Err(Error::DecodingError),
        };
        if commitment.len() != DIGEST_LEN {
            return Err(Error::DecodingError);
        }
        let i = match self.find_signer(key.as_slice()) {
            Some(i) => i,
            None => return Err(Error::InvalidArgument),
        };
        if i == self.self_index || self.signers[i].nonce_commitment.is_some() {
            return Err(Error::InvalidArgument);
        }
        let slot = SignerSlot {
            public_key: self.signers[i].public_key.clone(),
            nonce_commitment: Some(crate::codec::read_bytes(commitment, 0, DIGEST_LEN)),
            nonce: self.signers[i].nonce.clone(),
            partial_signature: self.signers[i].partial_signature.clone(),
        };
        assert(commitment@.subrange(0, 32) =~= commitment@);
        self.update_slot(i, slot);
        Ok(())
    }

    /// This participant's nonce point, once every participant's commitment is recorded.
    pub fn nonce(&mut self) -> (r: Result<Vec<u8>, Error>)
        requires
            session_wf(old(self)@),
        ensures
            session_wf(final(self)@),
            match r {
                Ok(n) => n@ == own_nonce(old(self)@) && after_own_nonce(old(self)@) == Ok::<
                    SessionView,
                    Error,
                >(final(self)@),
                Err(e) => after_own_nonce(old(self)@) == Err::<SessionView, Error>(e)
                    && final(self)@ == old(self)@,
            },
    {
        let mut i: usize = 0;
        while i < self.signers.len()
            invariant
                self@ == old(self)@,
                session_wf(self@),
                i <= self.signers@.len(),
                forall|j: int| 0 <= j < i ==> (#[trigger] self@.signers[j]).nonce_commitment is Some,
            decreases self.signers@.len() - i,
        {
            if self.signers[i].nonce_commitment.is_none() {
                assert(!(self@.signers[i as int].nonce_commitment is Some));
                return Err(Error::IncompleteState);
            }
            i = i + 1;
        }
        let point = self.own_nonce_point();
        let s = self.self_index;
        let slot = SignerSlot {
            public_key: self.signers[s].public_key.clone(),
            nonce_commitment: self.signers[s].nonce_commitment.clone(),
            nonce: Some(point.clone()),
            partial_signature: self.signers[s].partial_signature.clone(),
        };
        self.update_slot(s, slot);
        Ok(point)
    }

    /// Records the nonce of another participant after checking it against that
    /// participant's commitment.
    pub fn add_nonce(&mut self, public_key: &[u8], nonce: &[u8]) -> (r: Result<(), Error>)
        requires
            session_wf(old(self)@),
        ensures
            session_wf(final(self)@),
            match r {
                Ok(()) => after_add_nonce(old(self)@, public_key@, nonce@) == Ok::<
                    SessionView,
                    Error,
                >(final(self)@),
                Err(e) => after_add_nonce(old(self)@, public_key@, nonce@) == Err::<
                    SessionView,
                    Error,
                >(e) && final(self)@ == old(self)@,
            },
    {
        let key = match parse_public_key(public_key) {
            Some(k) => k,
            None => return Err(Error::DecodingError),
        };
        let point = match parse_public_key(nonce) {
            Some(p) => p,
            None => return Err(Error::DecodingError),
        };
        let i = match self.find_signer(key.as_slice()) {
            Some(i) => i,
            None => return Err(Error::InvalidArgument),
        };
        if i == self.self_index || self.signers[i].nonce.is_some() {
            return Err(Error::InvalidArgument);
        }
        let expected = match &self.signers[i].nonce_commitment {
            Some(c) => c.clone(),
            None => return Err(Error::ConsistencyError),
        };
        let digest = sha256(point.as_slice());
        if !bytes_equal(digest.as_slice(), expected.as_slice()) {
            return Err(Error::ConsistencyError);
        }
        let slot = SignerSlot {
            public_key: self.signers[i].public_key.clone(),
            nonce_commitment: self.signers[i].nonce_commitment.clone(),
            nonce: Some(point),
            partial_signature: self.signers[i].partial_signature.clone(),
        };
        self.update_slot(i, slot);
        Ok(())
    }
}

// ---------------------------------------------------------------------------
// Key aggregation and Schnorr signing

/// The weight of key `k` in the combination of `keys`: the hash of the hash of the
/// whole (ordered) key list followed by `k`.
pub open spec fn key_coefficient(keys: Seq<Seq<u8>>, k: Seq<u8>) -> Seq<u8> {
    sha256_of(sha256_of(flatten(keys)) + k)
}

pub open spec fn weighted_key(keys: Seq<Seq<u8>>, k: Seq<u8>) -> Option<Seq<u8>> {
    point_product(k, key_coefficient(keys, k))
}

/// The combined public key of an ordered key list: the sum of each key times its weight.
pub open spec fn combined_key(keys: Seq<Seq<u8>>) -> Option<Seq<u8>> {
    if forall|i: int| 0 <= i < keys.len() ==> (#[trigger] weighted_key(keys, keys[i])) is Some {
        point_sum(keys.map_values(|k: Seq<u8>| weighted_key(keys, k)->0))
    } else {
        None
    }
}

/// The x coordinate of a compressed point.
pub open spec fn x_coord(p: Seq<u8>) -> Seq<u8> {
    p.subrange(1, 33)
}

pub open spec fn even_y(p: Seq<u8>) -> bool {
    p[0] == 2
}

/// The tag of the BIP-340 challenge hash, "BIP0340/challenge".
pub open spec fn challenge_tag() -> Seq<u8> {
    seq![66u8, 73, 80, 48, 51, 52, 48, 47, 99, 104, 97, 108, 108, 101, 110, 103, 101]
}

/// The BIP-340 challenge for nonce point `r`, key `x` and message `m`.
pub open spec fn challenge(r: Seq<u8>, x: Seq<u8>, m: Seq<u8>) -> Seq<u8> {
    let t = sha256_of(challenge_tag());
    sha256_of(t + t + x_coord(r) + x_coord(x) + m)
}

/// A scalar, negated when the point it goes with has an odd y coordinate.
pub open spec fn toward_even(s: Seq<u8>, even: bool) -> Option<Seq<u8>> {
    if even {
        Some(s)
    } else {
        scalar_negation(s)
    }
}

/// Every participant has a recorded nonce.
pub open spec fn all_nonces(v: SessionView) -> bool {
    forall|i: int| 0 <= i < v.signers.len() ==> (#[trigger] v.signers[i]).nonce is Some
}

/// Every participant has a recorded partial signature.
pub open spec fn all_partials(v: SessionView) -> bool {
    forall|i: int| 0 <= i < v.signers.len() ==> (#[trigger] v.signers[i]).partial_signature is Some
}

pub open spec fn nonce_points(v: SessionView) -> Seq<Seq<u8>> {
    v.signers.map_values(|s: SlotView| s.nonce->0)
}

pub open spec fn partials(v: SessionView) -> Seq<Seq<u8>> {
    v.signers.map_values(|s: SlotView| s.partial_signature->0)
}

/// This participant's partial signature: its nonce secret plus the challenge times
/// its weighted private key, each adjusted toward an even y coordinate.
pub open spec fn own_partial(v: SessionView) -> Option<Seq<u8>> {
    let keys = signer_keys(v.signers);
    match (combined_key(keys), point_sum(nonce_points(v))) {
        (Some(x), Some(r)) => match scalar_product(
            v.private_key,
            key_coefficient(keys, keys[v.self_index as int]),
        ) {
            Some(ax) => match toward_even(ax, even_y(x)) {
                Some(gax) => match scalar_product(gax, challenge(r, x, v.message)) {
                    Some(t) => match toward_even(v.nonce_secret, even_y(r)) {
                        Some(k) => scalar_sum(k, t),
                        None => None,
                    },
                    None => None,
                },
                None => None,
            },
            None => None,
        },
        _ => None,
    }
}

/// Computing this participant's partial signature, once every nonce is in.
pub open spec fn after_own_partial(v: SessionView) -> Result<SessionView, Error> {
    if !all_nonces(v) {
        Err(Error::IncompleteState)
    } else {
        match own_partial(v) {
            None => Err(Error::InvalidArgument),
            Some(p) => Ok(
                set_slot(v, v.self_index as int, with_partial(v.signers[v.self_index as int], p)),
            ),
        }
    }
}

/// Recording another participant's partial signature.
pub open spec fn after_add_partial(v: SessionView, pk: Seq<u8>, p: Seq<u8>) -> Result<
    SessionView,
    Error,
> {
    match parsed_public_key(pk) {
        None => Err(Error::DecodingError),
        Some(k) => if p.len() != 32 {
            Err(Error::DecodingError)
        } else {
            match slot_index(v, k) {
                None => Err(Error::InvalidArgument),
                Some(i) => if i == v.self_index || v.signers[i].partial_signature is Some {
                    Err(Error::InvalidArgument)
                } else {
                    Ok(set_slot(v, i, with_partial(v.signers[i], p)))
                },
            }
        },
    }
}

/// The sum of the partial signatures, in order.
pub open spec fn partial_sum(ps: Seq<Seq<u8>>) -> Option<Seq<u8>>
    decreases ps.len(),
{
    if ps.len() == 0 {
        None
    } else if ps.len() == 1 {
        Some(ps[0])
    } else {
        match partial_sum(ps.drop_last()) {
            Some(s) => scalar_sum(s, ps.last()),
            None => None,
        }
    }
}

/// The aggregate signature: x coordinate of the summed nonce, then the summed
/// partial signatures.
pub open spec fn signature_of(v: SessionView) -> Result<Seq<u8>, Error> {
    if !all_nonces(v) || !all_partials(v) {
        Err(Error::IncompleteState)
    } else {
        match (point_sum(nonce_points(v)), partial_sum(partials(v))) {
            (Some(r), Some(s)) => Ok(x_coord(r) + s),
            _ => Err(Error::InvalidArgument),
        }
    }
}

fn concat_keys(keys: &Vec<Vec<u8>>) -> (r: Vec<u8>)
    ensures
        r@ == flatten(seq_bytes(keys@)),
{
    let mut out: Vec<u8> = Vec::new();
    let mut i: usize = 0;
    while i < keys.len()
        invariant
            i <= keys@.len(),
            out@ == flatten(seq_bytes(keys@.subrange(0, i as int))),
        decreases keys@.len() - i,
    {
        push_bytes(&mut out, keys[i].as_slice());
        assert(seq_bytes(keys@.subrange(0, i + 1)).drop_last() =~= seq_bytes(
            keys@.subrange(0, i as int),
        ));
        i = i + 1;
    }
    assert(keys@.subrange(0, keys@.len() as int) =~= keys@);
    out
}

/// The combined public key of an ordered list of compressed keys.
pub fn combine_public_keys(keys: &Vec<Vec<u8>>) -> (r: Option<Vec<u8>>)
    ensures
        opt_bytes(r) == combined_key(seq_bytes(keys@)),
        r matches Some(x) ==> is_compressed_point(x@),
{
    let ghost ks = seq_bytes(keys@);
    let all = concat_keys(keys);
    let list_hash = sha256(all.as_slice());
    let mut terms: Vec<Vec<u8>> = Vec::new();
    let mut i: usize = 0;
    while i < keys.len()
        invariant
            ks == seq_bytes(keys@),
            list_hash@ == sha256_of(flatten(ks)),
            i <= keys@.len(),
            terms@.len() == i,
            forall|j: int| 0 <= j < i ==> (#[trigger] weighted_key(ks, ks[j])) is Some,
            forall|j: int| 0 <= j < i ==> weighted_key(ks, ks[j]) == Some(#[trigger] terms@[j]@),
        decreases keys@.len() - i,
    {
        let mut buf = list_hash.clone();
        push_bytes(&mut buf, keys[i].as_slice());
        let coefficient = sha256(buf.as_slice());
        match mul_point(keys[i].as_slice(), coefficient.as_slice()) {
            Some(t) => {
                terms.push(t);
            },
            None => {
                proof {
                    assert(!(weighted_key(ks, ks[i as int]) is Some));
                }
                return None;
            },
        }
        i = i + 1;
    }
    proof {
        assert(seq_bytes(terms@) =~= ks.map_values(|k: Seq<u8>| weighted_key(ks, k)->0));
    }
    sum_points(&terms)
}

fn challenge_tag_bytes() -> (r: Vec<u8>)
    ensures
        r@ == challenge_tag(),
{
    let r: Vec<u8> = vec![66u8, 73, 80, 48, 51, 52, 48, 47, 99, 104, 97, 108, 108, 101, 110, 103, 101];
    assert(r@ =~= challenge_tag());
    r
}

fn challenge_hash(r: &[u8], x: &[u8], m: &[u8]) -> (e: Vec<u8>)
    requires
        r@.len() == 33,
        x@.len() == 33,
    ensures
        e@ == challenge(r@, x@, m@),
{
    let tag = challenge_tag_bytes();
    let t = sha256(tag.as_slice());
    let mut buf = t.clone();
    push_bytes(&mut buf, t.as_slice());
    let rx = read_bytes(r, 1, 32);
    let xx = read_bytes(x, 1, 32);
    push_bytes(&mut buf, rx.as_slice());
    push_bytes(&mut buf, xx.as_slice());
    push_bytes(&mut buf, m);
    sha256(buf.as_slice())
}

fn toward_even_exec(s: &Vec<u8>, even: bool) -> (r: Option<Vec<u8>>)
    ensures
        opt_bytes(r) == toward_even(s@, even),
{
    if even {
        Some(s.clone())
    } else {
        negate_scalar(s.as_slice())
    }
}

impl MultiSigSession {
    fn keys(&self) -> (r: Vec<Vec<u8>>)
        ensures
            seq_bytes(r@) == signer_keys(self@.signers),
    {
        let mut out: Vec<Vec<u8>> = Vec::new();
        let mut i: usize = 0;
        while i < self.signers.len()
            invariant
                i <= self.signers@.len(),
                seq_bytes(out@) == signer_keys(self@.signers).subrange(0, i as int),
            decreases self.signers@.len() - i,
        {
            let k = self.signers[i].public_key.clone();
            let ghost before = out@;
            out.push(k);
            assert(signer_keys(self@.signers)[i as int] == k@);
            assert(seq_bytes(out@) =~= seq_bytes(before).push(k@));
            assert(seq_bytes(out@) =~= signer_keys(self@.signers).subrange(0, i + 1));
            i = i + 1;
        }
        assert(signer_keys(self@.signers).subrange(0, i as int) =~= signer_keys(self@.signers));
        out
    }

    /// Every participant's nonce point, if all are present.
    fn nonces(&self) -> (r: Option<Vec<Vec<u8>>>)
        ensures
            r is Some <==> all_nonces(self@),
            r matches Some(ns) ==> seq_bytes(ns@) == nonce_points(self@),
    {
        let mut out: Vec<Vec<u8>> = Vec::new();
        let mut i: usize = 0;
        while i < self.signers.len()
            invariant
                i <= self.signers@.len(),
                forall|j: int| 0 <= j < i ==> (#[trigger] self@.signers[j]).nonce is Some,
                seq_bytes(out@) == nonce_points(self@).subrange(0, i as int),
            decreases self.signers@.len() - i,
        {
            match &self.signers[i].nonce {
                Some(n) => {
                    let c = n.clone();
                    let ghost before = out@;
                    out.push(c);
                    assert(nonce_points(self@)[i as int] == c@);
                    assert(seq_bytes(out@) =~= seq_bytes(before).push(c@));
                },
                None => {
                    assert(!(self@.signers[i as int].nonce is Some));
                    return None;
                },
            }
            assert(seq_bytes(out@) =~= nonce_points(self@).subrange(0, i + 1));
            i = i + 1;
        }
        assert(nonce_points(self@).subrange(0, i as int) =~= nonce_points(self@));
        Some(out)
    }

    fn own_partial_exec(&self, nonces: &Vec<Vec<u8>>) -> (r: Option<Vec<u8>>)
        requires
            session_wf(self@),
            seq_bytes(nonces@) == nonce_points(self@),
        ensures
            opt_bytes(r) == own_partial(self@),
            r matches Some(p) ==> p@.len() == 32,
    {
        let keys = self.keys();
        let x = combine_public_keys(&keys)?;
        let r = sum_points(nonces)?;
        let e = challenge_hash(r.as_slice(), x.as_slice(), self.message.as_slice());
        let mut buf = sha256(concat_keys(&keys).as_slice());
        push_bytes(&mut buf, keys[self.self_index].as_slice());
        let coefficient = sha256(buf.as_slice());
        let ax = mul_scalars(self.private_key.as_slice(), coefficient.as_slice())?;
        let gax = toward_even_exec(&ax, x[0] == 2)?;
        let t = mul_scalars(gax.as_slice(), e.as_slice())?;
        let k = toward_even_exec(&self.nonce_secret, r[0] == 2)?;
        add_scalars(k.as_slice(), t.as_slice())
    }

    /// This participant's partial signature, once every participant's nonce is recorded.
    pub fn partial_signature(&mut self) -> (r: Result<Vec<u8>, Error>)
        requires
            session_wf(old(self)@),
        ensures
            session_wf(final(self)@),
            match r {
                Ok(p) => after_own_partial(old(self)@) == Ok::<SessionView, Error>(final(self)@)
                    && own_partial(old(self)@) == Some(p@),
                Err(e) => after_own_partial(old(self)@) == Err::<SessionView, Error>(e)
                    && final(self)@ == old(self)@,
            },
    {
        let nonces = match self.nonces() {
            Some(n) => n,
            None => return Err(Error::IncompleteState),
        };
        let p = match self.own_partial_exec(&nonces) {
            Some(p) => p,
            None => return Err(Error::InvalidArgument),
        };
        let s = self.self_index;
        let slot = SignerSlot {
            public_key: self.signers[s].public_key.clone(),
            nonce_commitment: self.signers[s].nonce_commitment.clone(),
            nonce: self.signers[s].nonce.clone(),
            partial_signature: Some(p.clone()),
        };
        self.update_slot(s, slot);
        Ok(p)
    }

    /// Records the partial signature of another participant.
    pub fn add_partial_signature(&mut self, public_key: &[u8], partial_signature: &[u8]) -> (r:
        Result<(), Error>)
        requires
            session_wf(old(self)@),
        ensures
            session_wf(final(self)@),
            match r {
                Ok(()) => after_add_partial(old(self)@, public_key@, partial_signature@) == Ok::<
                    SessionView,
                    Error,
                >(final(self)@),
                Err(e) => after_add_partial(old(self)@, public_key@, partial_signature@) == Err::<
                    SessionView,
                    Error,
                >(e) && final(self)@ == old(self)@,
            },
    {
        let key = match parse_public_key(public_key) {
            Some(k) => k,
            None => return Err(Error::DecodingError),
        };
        if partial_signature.len() != DIGEST_LEN {
            return Err(Error::DecodingError);
        }
        let i = match self.find_signer(key.as_slice()) {
            Some(i) => i,
            None => return Err(Error::InvalidArgument),
        };
        if i == self.self_index || self.signers[i].partial_signature.is_some() {
            return Err(Error::InvalidArgument);
        }
        let slot = SignerSlot {
            public_key: self.signers[i].public_key.clone(),
            nonce_commitment: self.signers[i].nonce_commitment.clone(),
            nonce: self.signers[i].nonce.clone(),
            partial_signature: Some(read_bytes(partial_signature, 0, DIGEST_LEN)),
        };
        assert(partial_signature@.subrange(0, 32) =~= partial_signature@);
        self.update_slot(i, slot);
        Ok(())
    }

    /// The aggregate Schnorr signature, once every partial signature is recorded.
    pub fn signature(&self) -> (r: Result<Vec<u8>, Error>)
        requires
            session_wf(self@),
        ensures
            match r {
                Ok(sig) => signature_of(self@) == Ok::<Seq<u8>, Error>(sig@),
                Err(e) => signature_of(self@) == Err::<Seq<u8>, Error>(e),
            },
    {
        let nonces = match self.nonces() {
            Some(n) => n,
            None => return Err(Error::IncompleteState),
        };
        let ghost ps = partials(self@);
        let mut i: usize = 0;
        let mut sum: Vec<u8> = Vec::new();
        let mut ok = true;
        while i < self.signers.len()
            invariant
                ps == partials(self@),
                i <= self.signers@.len(),
                forall|j: int| 0 <= j < i ==> (#[trigger] self@.signers[j]).partial_signature is Some,
                i == 0 ==> ok,
                i > 0 ==> (ok <==> partial_sum(ps.subrange(0, i as int)) is Some),
                i > 0 && ok ==> partial_sum(ps.subrange(0, i as int)) == Some(sum@),
            decreases self.signers@.len() - i,
        {
            let p = match &self.signers[i].partial_signature {
                Some(p) => p,
                None => {
                    assert(!(self@.signers[i as int].partial_signature is Some));
                    return Err(Error::IncompleteState);
                },
            };
            proof {
                assert(ps.subrange(0, i + 1).drop_last() =~= ps.subrange(0, i as int));
                assert(ps.subrange(0, i + 1).last() == p@);
            }
            if i == 0 {
                sum = p.clone();
                assert(ps.subrange(0, 1)[0] == p@);
            } else if ok {
                match add_scalars(sum.as_slice(), p.as_slice()) {
                    Some(t) => sum = t,
                    None => ok = false,
                }
            }
            i = i + 1;
        }
        let r = match sum_points(&nonces) {
            Some(r) => r,
            None => return Err(Error::InvalidArgument),
        };
        proof {
            assert(ps.subrange(0, i as int) =~= ps);
        }
        if i == 0 || !ok {
            return Err(Error::InvalidArgument);
        }
        let mut sig = read_bytes(r.as_slice(), 1, 32);
        push_bytes(&mut sig, sum.as_slice());
        Ok(sig)
    }
}

// ---------------------------------------------------------------------------
// Creating sessions and verifying signatures

/// Every key in the list decodes as a public key.
pub open spec fn all_keys_parse(keys: Seq<Seq<u8>>) -> bool {
    forall|i: int| 0 <= i < keys.len() ==> (#[trigger] parsed_public_key(keys[i])) is Some
}

/// The canonical (compressed) form of each key.
pub open spec fn canonical_keys(keys: Seq<Seq<u8>>) -> Seq<Seq<u8>> {
    keys.map_values(|k: Seq<u8>| parsed_public_key(k)->0)
}

pub open spec fn empty_slot(k: Seq<u8>) -> SlotView {
    SlotView { public_key: k, nonce_commitment: None, nonce: None, partial_signature: None }
}

pub open spec fn position_of(keys: Seq<Seq<u8>>, k: Seq<u8>) -> int {
    choose|i: int| 0 <= i < keys.len() && keys[i] == k
}

/// A session's secret nonce: the hash of the caller's fresh seed, the private key
/// and the message.
pub open spec fn nonce_secret_of(seed: Seq<u8>, sk: Seq<u8>, msg: Seq<u8>) -> Seq<u8> {
    sha256_of(seed + sk + msg)
}

/// The session that `new` creates, or the error it reports.
pub open spec fn new_session_outcome(
    msg: Seq<u8>,
    keys: Seq<Seq<u8>>,
    self_pk: Seq<u8>,
    sk: Seq<u8>,
    seed: Seq<u8>,
) -> Result<SessionView, Error> {
    if msg.len() != 32 || !all_keys_parse(keys) || parsed_public_key(self_pk) is None
        || public_key_of(sk) is None {
        Err(Error::DecodingError)
    } else {
        let sorted = sorted_keys(canonical_keys(keys));
        let me = parsed_public_key(self_pk)->0;
        let secret = nonce_secret_of(seed, sk, msg);
        if !strictly_sorted(sorted) || !sorted.contains(me) || sorted.len() > u32::MAX
            || public_key_of(secret) is None {
            Err(Error::InvalidArgument)
        } else {
            Ok(
                SessionView {
                    message: msg,
                    signers: sorted.map_values(|k: Seq<u8>| empty_slot(k)),
                    self_index: position_of(sorted, me) as nat,
                    private_key: sk,
                    nonce_secret: secret,
                },
            )
        }
    }
}

/// What `verify` reports for a signature, a message and a list of participant keys.
pub open spec fn verify_outcome(sig: Seq<u8>, msg: Seq<u8>, keys: Seq<Seq<u8>>) -> Result<
    bool,
    Error,
> {
    if sig.len() != 64 || msg.len() != 32 || !all_keys_parse(keys) {
        Err(Error::DecodingError)
    } else {
        match combined_key(sorted_keys(canonical_keys(keys))) {
            None => Err(Error::InvalidArgument),
            Some(x) => Ok(schnorr_accepts(sig, msg, x_coord(x))),
        }
    }
}

proof fn lemma_map_multiset<A, B>(s: Seq<A>, t: Seq<A>, f: spec_fn(A) -> B)
    requires
        s.to_multiset() == t.to_multiset(),
    ensures
        s.map_values(f).to_multiset() == t.map_values(f).to_multiset(),
    decreases s.len(),
{
    broadcast use vstd::seq_lib::group_to_multiset_ensures;

    if s.len() == 0 {
        assert(s.to_multiset().len() == 0);
        assert(t.to_multiset().len() == t.len());
        assert(t.len() == 0);
        assert(s.map_values(f) =~= t.map_values(f));
    } else {
        let x = s.last();
        let s2 = s.drop_last();
        assert(s =~= s2.push(x));
        assert(s.to_multiset().count(x) > 0);
        assert(t.contains(x));
        let j = choose|j: int| 0 <= j < t.len() && t[j] == x;
        let t2 = t.remove(j);
        assert(s2.to_multiset() =~= s.to_multiset().remove(x));
        assert(t2.to_multiset() =~= t.to_multiset().remove(x));
        lemma_map_multiset(s2, t2, f);
        assert(s.map_values(f) =~= s2.map_values(f).push(f(x)));
        assert(t.map_values(f) =~= t2.map_values(f).insert(j, f(x)));
    }
}

proof fn lemma_parse_permutation(a: Seq<Seq<u8>>, b: Seq<Seq<u8>>)
    requires
        a.to_multiset() == b.to_multiset(),
        all_keys_parse(a),
    ensures
        all_keys_parse(b),
{
    broadcast use vstd::seq_lib::group_to_multiset_ensures;

    assert forall|i: int| 0 <= i < b.len() implies (#[trigger] parsed_public_key(b[i])) is Some by {
        assert(b.to_multiset().count(b[i]) > 0);
        assert(a.contains(b[i]));
    }
}

/// Verification does not depend on the order in which the participant keys are given.
pub proof fn lemma_verify_order_independent(
    sig: Seq<u8>,
    msg: Seq<u8>,
    keys: Seq<Seq<u8>>,
    reordered: Seq<Seq<u8>>,
)
    requires
        keys.to_multiset() == reordered.to_multiset(),
    ensures
        verify_outcome(sig, msg, keys) == verify_outcome(sig, msg, reordered),
{
    if all_keys_parse(keys) {
        lemma_parse_permutation(keys, reordered);
    }
    if all_keys_parse(reordered) {
        lemma_parse_permutation(reordered, keys);
    }
    lemma_map_multiset(keys, reordered, |k: Seq<u8>| parsed_public_key(k)->0);
    lemma_sorted_keys_permutation(canonical_keys(keys), canonical_keys(reordered));
}

/// The canonical form of every key, or `None` if one does not decode.
pub(crate) fn canonicalize(keys: &Vec<Vec<u8>>) -> (r: Option<Vec<Vec<u8>>>)
    ensures
        r is Some <==> all_keys_parse(seq_bytes(keys@)),
        r matches Some(c) ==> seq_bytes(c@) == canonical_keys(seq_bytes(keys@)) && forall|i: int|
            0 <= i < c@.len() ==> is_compressed_point(#[trigger] c@[i]@),
{
    let ghost ks = seq_bytes(keys@);
    let mut out: Vec<Vec<u8>> = Vec::new();
    let mut i: usize = 0;
    while i < keys.len()
        invariant
            ks == seq_bytes(keys@),
            i <= keys@.len(),
            forall|j: int| 0 <= j < i ==> (#[trigger] parsed_public_key(ks[j])) is Some,
            seq_bytes(out@) == canonical_keys(ks).subrange(0, i as int),
            forall|j: int| 0 <= j < out@.len() ==> is_compressed_point(#[trigger] out@[j]@),
        decreases keys@.len() - i,
    {
        match parse_public_key(keys[i].as_slice()) {
            Some(k) => {
                let ghost before = out@;
                out.push(k);
                assert(seq_bytes(out@) =~= seq_bytes(before).push(k@));
                assert(seq_bytes(out@) =~= canonical_keys(ks).subrange(0, i + 1));
            },
            None => {
                assert(parsed_public_key(ks[i as int]) is None);
                return None;
            },
        }
        i = i + 1;
    }
    assert(canonical_keys(ks).subrange(0, i as int) =~= canonical_keys(ks));
    Some(out)
}

/// Whether a list of keys in canonical order is strictly increasing.
fn check_strictly_sorted(keys: &Vec<Vec<u8>>) -> (r: bool)
    ensures
        r == strictly_sorted(seq_bytes(keys@)),
{
    let ghost ks = seq_bytes(keys@);
    let mut i: usize = 1;
    if keys.len() == 0 {
        return true;
    }
    while i < keys.len()
        invariant
            ks == seq_bytes(keys@),
            1 <= i <= keys@.len(),
            strictly_sorted(ks.subrange(0, i as int)),
        decreases keys@.len() - i,
    {
        if !key_less(keys[i - 1].as_slice(), keys[i].as_slice()) {
            proof {
                assert(ks[i - 1] == keys@[i - 1]@);
                assert(ks[i as int] == keys@[i as int]@);
            }
            return false;
        }
        proof {
            let p = ks.subrange(0, i as int);
            let q = ks.subrange(0, i + 1);
            assert forall|a: int, c: int| 0 <= a < c < q.len() implies crate::keys::lex_lt(
                #[trigger] q[a],
                #[trigger] q[c],
            ) by {
                if c == i && a < i - 1 {
                    assert(p[a] == q[a]);
                    assert(p[i - 1] == q[i - 1]);
                    lemma_lex_lt_transitive(q[a], q[i - 1], q[c]);
                } else if c < i {
                    assert(p[a] == q[a]);
                    assert(p[c] == q[c]);
                }
            }
        }
        i = i + 1;
    }
    assert(ks.subrange(0, i as int) =~= ks);
    true
}

/// Checks an aggregate signature against a message and the participants' keys, in
/// any order: the keys are put in canonical order before they are combined.
pub fn verify(signature: &[u8], message: &[u8], public_keys: &Vec<Vec<u8>>) -> (r: Result<
    bool,
    Error,
>)
    ensures
        r == verify_outcome(signature@, message@, seq_bytes(public_keys@)),
{
    if signature.len() != 64 || message.len() != DIGEST_LEN {
        return Err(Error::DecodingError);
    }
    let canonical = match canonicalize(public_keys) {
        Some(c) => c,
        None => return Err(Error::DecodingError),
    };
    let sorted = sort_keys(&canonical);
    let x = match combine_public_keys(&sorted) {
        Some(x) => x,
        None => return Err(Error::InvalidArgument),
    };
    let x_only = read_bytes(x.as_slice(), 1, 32);
    Ok(verify_schnorr(signature, message, x_only.as_slice()))
}

impl MultiSigSession {
    /// Starts a session for `message` among `public_keys`, as the participant holding
    /// `self_public_key` and `self_private_key`. `session_seed` must be fresh random
    /// bytes: the session's secret nonce is derived from it.
    pub fn new(
        message: &[u8],
        public_keys: &Vec<Vec<u8>>,
        self_public_key: &[u8],
        self_private_key: &[u8],
        session_seed: &[u8],
    ) -> (r: Result<MultiSigSession, Error>)
        ensures
            match r {
                Ok(s) => new_session_outcome(
                    message@,
                    seq_bytes(public_keys@),
                    self_public_key@,
                    self_private_key@,
                    session_seed@,
                ) == Ok::<SessionView, Error>(s@) && session_wf(s@),
                Err(e) => new_session_outcome(
                    message@,
                    seq_bytes(public_keys@),
                    self_public_key@,
                    self_private_key@,
                    session_seed@,
                ) == Err::<SessionView, Error>(e),
            },
    {
        let ghost ks = seq_bytes(public_keys@);
        if message.len() != DIGEST_LEN {
            return Err(Error::DecodingError);
        }
        let canonical = match canonicalize(public_keys) {
            Some(c) => c,
            None => return Err(Error::DecodingError),
        };
        let me = match parse_public_key(self_public_key) {
            Some(k) => k,
            None => return Err(Error::DecodingError),
        };
        if derive_public_key(self_private_key).is_none() {
            return Err(Error::DecodingError);
        }
        let sorted = sort_keys(&canonical);
        let ghost sk = sorted_keys(canonical_keys(ks));
        proof {
            lemma_key_order_total();
            seq_bytes(canonical@).lemma_sort_by_ensures(key_order());
        }
        if !check_strictly_sorted(&sorted) {
            return Err(Error::InvalidArgument);
        }
        let mut idx: usize = 0;
        while idx < sorted.len() && !bytes_equal(sorted[idx].as_slice(), me.as_slice())
            invariant
                idx <= sorted@.len(),
                forall|j: int| 0 <= j < idx ==> sorted@[j]@ != me@,
            decreases sorted@.len() - idx,
        {
            idx = idx + 1;
        }
        if idx == sorted.len() {
            proof {
                if sk.contains(me@) {
                    let j = choose|j: int| 0 <= j < sk.len() && sk[j] == me@;
                    assert(sorted@[j]@ == sk[j]);
                }
            }
            return Err(Error::InvalidArgument);
        }
        if sorted.len() > u32::MAX as usize {
            return Err(Error::InvalidArgument);
        }
        let mut seed_buf: Vec<u8> = Vec::new();
        push_bytes(&mut seed_buf, session_seed);
        push_bytes(&mut seed_buf, self_private_key);
        push_bytes(&mut seed_buf, message);
        let nonce_secret = sha256(seed_buf.as_slice());
        if derive_public_key(nonce_secret.as_slice()).is_none() {
            return Err(Error::InvalidArgument);
        }
        let mut signers: Vec<SignerSlot> = Vec::new();
        let mut i: usize = 0;
        while i < sorted.len()
            invariant
                sk == seq_bytes(sorted@),
                i <= sorted@.len(),
                slot_views(signers@) == sk.subrange(0, i as int).map_values(
                    |k: Seq<u8>| empty_slot(k),
                ),
            decreases sorted@.len() - i,
        {
            let slot = SignerSlot {
                public_key: sorted[i].clone(),
                nonce_commitment: None,
                nonce: None,
                partial_signature: None,
            };
            let ghost before = signers@;
            signers.push(slot);
            assert(slot_views(signers@) =~= slot_views(before).push(empty_slot(sk[i as int])));
            assert(slot_views(signers@) =~= sk.subrange(0, i + 1).map_values(
                |k: Seq<u8>| empty_slot(k),
            ));
            i = i + 1;
        }
        let s = MultiSigSession {
            message: read_bytes(message, 0, DIGEST_LEN),
            signers,
            self_index: idx,
            private_key: read_bytes(self_private_key, 0, DIGEST_LEN),
            nonce_secret,
        };
        proof {
            assert(sk.subrange(0, i as int) =~= sk);
            assert(message@.subrange(0, 32) =~= message@);
            assert(self_private_key@.subrange(0, 32) =~= self_private_key@);
            assert(seed_buf@ =~= session_seed@ + self_private_key@ + message@);
            assert(signer_keys(s@.signers) =~= sk);
            assert forall|k: int| 0 <= k < s@.signers.len() implies slot_wf(#[trigger] s@.signers[k]) by {
                assert(s@.signers[k].public_key == sk[k]);
                assert(sk.contains(sk[k]));
                let cs = seq_bytes(canonical@);
                assert(cs.contains(sk[k]));
                let j = choose|j: int| 0 <= j < cs.len() && cs[j] == sk[k];
                assert(is_compressed_point(canonical@[j]@));
            }
            let p = position_of(sk, me@);
            assert(sk[idx as int] == me@);
            if p != idx {
                lemma_lex_lt_irreflexive(me@);
                if p < idx {
                    assert(crate::keys::lex_lt(sk[p], sk[idx as int]));
                } else {
                    assert(crate::keys::lex_lt(sk[idx as int], sk[p]));
                }
            }
        }
        Ok(s)
    }
}

// ---------------------------------------------------------------------------
// Snapshot in, snapshot out

/// `b` is the snapshot of the well-formed session `v`.
pub open spec fn snapshot_of(b: Seq<u8>, v: SessionView) -> bool {
    session_wf(v) && session_bytes(v) == b
}

/// Starts a session and returns its snapshot.
pub fn new_session(
    message: &[u8],
    signer_public_keys: &Vec<Vec<u8>>,
    self_public_key: &[u8],
    self_private_key: &[u8],
    session_seed: &[u8],
) -> (r: Result<Vec<u8>, Error>)
    ensures
        match r {
            Ok(b) => new_session_outcome(
                message@,
                seq_bytes(signer_public_keys@),
                self_public_key@,
                self_private_key@,
                session_seed@,
            ) matches Ok(v) && snapshot_of(b@, v),
            Err(e) => new_session_outcome(
                message@,
                seq_bytes(signer_public_keys@),
                self_public_key@,
                self_private_key@,
                session_seed@,
            ) == Err::<SessionView, Error>(e),
        },
{
    let session = MultiSigSession::new(
        message,
        signer_public_keys,
        self_public_key,
        self_private_key,
        session_seed,
    )?;
    Ok(session.to_incomplete())
}

/// Computes this participant's nonce commitment: returns the updated snapshot and
/// the commitment.
pub fn generate_nonce_commitment(incomplete_session: &[u8]) -> (r: Result<
    (Vec<u8>, Vec<u8>),
    Error,
>)
    ensures
        r matches Err(e) ==> e == Error::DecodingError,
        forall|v: SessionView|
            snapshot_of(incomplete_session@, v) ==> (r matches Ok((b, c)) && snapshot_of(
                b@,
                after_own_commitment(v),
            ) && c@ == own_commitment(v)),
{
    let mut session = MultiSigSession::from_incomplete(incomplete_session)?;
    let commitment = session.nonce_commitment();
    Ok((session.to_incomplete(), commitment))
}

/// Records another participant's nonce commitment in a snapshot.
pub fn add_nonce_commitment(
    incomplete_session: &[u8],
    public_key: &[u8],
    nonce_commitment: &[u8],
) -> (r: Result<Vec<u8>, Error>)
    ensures
        forall|v: SessionView|
            snapshot_of(incomplete_session@, v) ==> match after_add_commitment(
                v,
                public_key@,
                nonce_commitment@,
            ) {
                Ok(w) => r matches Ok(b) && snapshot_of(b@, w),
                Err(e) => r == Err::<Vec<u8>, Error>(e),
            },
{
    let mut session = MultiSigSession::from_incomplete(incomplete_session)?;
    session.add_nonce_commitment(public_key, nonce_commitment)?;
    Ok(session.to_incomplete())
}

/// Reveals this participant's nonce once all commitments are in: returns the updated
/// snapshot and the nonce.
pub fn generate_nonce(incomplete_session: &[u8]) -> (r: Result<(Vec<u8>, Vec<u8>), Error>)
    ensures
        forall|v: SessionView|
            snapshot_of(incomplete_session@, v) ==> match after_own_nonce(v) {
                Ok(w) => r matches Ok((b, n)) && snapshot_of(b@, w) && n@ == own_nonce(v),
                Err(e) => r == Err::<(Vec<u8>, Vec<u8>), Error>(e),
            },
{
    let mut session = MultiSigSession::from_incomplete(incomplete_session)?;
    let nonce = session.nonce()?;
    Ok((session.to_incomplete(), nonce))
}

/// Records another participant's nonce in a snapshot, checking it against that
/// participant's commitment.
pub fn add_nonce(incomplete_session: &[u8], public_key: &[u8], nonce: &[u8]) -> (r: Result<
    Vec<u8>,
    Error,
>)
    ensures
        forall|v: SessionView|
            snapshot_of(incomplete_session@, v) ==> match after_add_nonce(v, public_key@, nonce@) {
                Ok(w) => r matches Ok(b) && snapshot_of(b@, w),
                Err(e) => r == Err::<Vec<u8>, Error>(e),
            },
{
    let mut session = MultiSigSession::from_incomplete(incomplete_session)?;
    session.add_nonce(public_key, nonce)?;
    Ok(session.to_incomplete())
}

/// Computes this participant's partial signature once all nonces are in: returns the
/// updated snapshot and the partial signature.
pub fn partial_sign(incomplete_session: &[u8]) -> (r: Result<(Vec<u8>, Vec<u8>), Error>)
    ensures
        forall|v: SessionView|
            snapshot_of(incomplete_session@, v) ==> match after_own_partial(v) {
                Ok(w) => r matches Ok((b, p)) && snapshot_of(b@, w) && own_partial(v) == Some(p@),
                Err(e) => r == Err::<(Vec<u8>, Vec<u8>), Error>(e),
            },
{
    let mut session = MultiSigSession::from_incomplete(incomplete_session)?;
    let partial = session.partial_signature()?;
    Ok((session.to_incomplete(), partial))
}

/// Records another participant's partial signature in a snapshot.
pub fn add_partial_signature(
    incomplete_session: &[u8],
    public_key: &[u8],
    partial_signature: &[u8],
) -> (r: Result<Vec<u8>, Error>)
    ensures
        forall|v: SessionView|
            snapshot_of(incomplete_session@, v) ==> match after_add_partial(
                v,
                public_key@,
                partial_signature@,
            ) {
                Ok(w) => r matches Ok(b) && snapshot_of(b@, w),
                Err(e) => r == Err::<Vec<u8>, Error>(e),
            },
{
    let mut session = MultiSigSession::from_incomplete(incomplete_session)?;
    session.add_partial_signature(public_key, partial_signature)?;
    Ok(session.to_incomplete())
}

/// The aggregate signature of a session whose partial signatures are all in.
pub fn sign(incomplete_session: &[u8]) -> (r: Result<Vec<u8>, Error>)
    ensures
        forall|v: SessionView|
            snapshot_of(incomplete_session@, v) ==> match signature_of(v) {
                Ok(sig) => r matches Ok(b) && b@ == sig,
                Err(e) => r == Err::<Vec<u8>, Error>(e),
            },
{
    let session = MultiSigSession::from_incomplete(incomplete_session)?;
    session.signature()
}

} // verus!
