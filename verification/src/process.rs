use vstd::prelude::*;
use vstd::slice::slice_to_vec;
use crate::crypto::{ed25519_valid, ed25519_verify, sha3_digest};
use crate::event::{
    Event, EventModel, EventType, bytes_views, encode_event_body, digest_of_event,
    commitment_of_keys, well_formed_event, list_encodable,
};
use crate::codec::encode_event_body_bytes;

verus! {

/// The currently authoritative facts about one identifier, derived from its
/// event log: the sequence number and digest of the last accepted event, the
/// keys that may sign the next event, and the commitment the next rotation's
/// keys must hash to.
pub struct KeyState {
    pub sequence_number: u64,
    pub signing_keys: Vec<Vec<u8>>,
    pub next_key_commitment: Vec<u8>,
    pub last_event_digest: Vec<u8>,
}

/// Mathematical model of a key state.
pub ghost struct StateModel {
    pub sequence_number: u64,
    pub signing_keys: Seq<Seq<u8>>,
    pub next_key_commitment: Seq<u8>,
    pub last_event_digest: Seq<u8>,
}

impl View for KeyState {
    type V = StateModel;

    open spec fn view(&self) -> StateModel {
        StateModel {
            sequence_number: self.sequence_number,
            signing_keys: bytes_views(self.signing_keys@),
            next_key_commitment: self.next_key_commitment@,
            last_event_digest: self.last_event_digest@,
        }
    }
}

/// The model of an optional key state.
pub open spec fn opt_state_view(s: Option<&KeyState>) -> Option<StateModel> {
    match s {
        Option::None => Option::None,
        Option::Some(st) => Option::Some(st@),
    }
}

/// Why an event was rejected: it is not well formed, it does not sit at the
/// next sequence number, it does not chain to the last accepted event, its
/// signatures do not validate under the authoritative keys, or a rotation's
/// keys do not hash to the promised commitment.
#[derive(Clone, Copy, PartialEq, Eq, Structural, Debug)]
pub enum ProcessError {
    Malformed,
    OutOfOrder,
    ForkConflict,
    AuthenticationFailure,
    CommitmentMismatch,
}

/// The signature threshold this processor enforces: one of n. An event
/// authenticates when at least one of its signatures validates the signed
/// bytes under at least one of the authoritative keys; events carry no
/// threshold attribute of their own, so this is a deliberate, fixed
/// policy, not a per-event parameter.
pub open spec fn authenticated(keys: Seq<Seq<u8>>, msg: Seq<u8>, sigs: Seq<Seq<u8>>) -> bool {
    exists|i: int, j: int|
        0 <= i < sigs.len() && 0 <= j < keys.len() && ed25519_valid(keys[j], msg, sigs[i])
}

/// What processing one event against an optional current state yields: the
/// exact successor state, or the exact reason for rejection. This is the
/// reference semantics of the key-state fold.
pub open spec fn spec_process(st: Option<StateModel>, e: EventModel) -> Result<
    StateModel,
    ProcessError,
> {
    if !well_formed_event(e) {
        Result::Err(ProcessError::Malformed)
    } else {
        match st {
            Option::None => {
                if e.event_type != EventType::Inception {
                    Result::Err(ProcessError::OutOfOrder)
                } else if !authenticated(e.signing_keys, encode_event_body(e), e.signatures) {
                    Result::Err(ProcessError::AuthenticationFailure)
                } else {
                    Result::Ok(
                        StateModel {
                            sequence_number: 0,
                            signing_keys: e.signing_keys,
                            next_key_commitment: e.next_key_commitment,
                            last_event_digest: digest_of_event(e),
                        },
                    )
                }
            },
            Option::Some(s) => {
                if digest_of_event(e) == s.last_event_digest {
                    Result::Ok(s)
                } else if e.sequence_number != s.sequence_number + 1 {
                    Result::Err(ProcessError::OutOfOrder)
                } else if e.prior_digest != Option::Some(s.last_event_digest) {
                    Result::Err(ProcessError::ForkConflict)
                } else if !authenticated(s.signing_keys, encode_event_body(e), e.signatures) {
                    Result::Err(ProcessError::AuthenticationFailure)
                } else if e.event_type == EventType::Rotation && commitment_of_keys(e.signing_keys)
                    != s.next_key_commitment {
                    Result::Err(ProcessError::CommitmentMismatch)
                } else {
                    Result::Ok(
                        StateModel {
                            sequence_number: e.sequence_number,
                            signing_keys: if e.event_type == EventType::Rotation {
                                e.signing_keys
                            } else {
                                s.signing_keys
                            },
                            next_key_commitment: if e.event_type == EventType::Rotation {
                                e.next_key_commitment
                            } else {
                                s.next_key_commitment
                            },
                            last_event_digest: digest_of_event(e),
                        },
                    )
                }
            },
        }
    }
}

/// An executable result agrees with the reference result.
pub open spec fn process_result_matches(
    r: Result<KeyState, ProcessError>,
    m: Result<StateModel, ProcessError>,
) -> bool {
    match (r, m) {
        (Result::Ok(s), Result::Ok(sm)) => s@ == sm,
        (Result::Err(a), Result::Err(b)) => a == b,
        _ => false,
    }
}

/// Byte-for-byte equality of two byte vectors.
pub fn bytes_eq(a: &Vec<u8>, b: &Vec<u8>) -> (r: bool)
    ensures
        r == (a@ == b@),
{
    if a.len() != b.len() {
        return false;
    }
    let n = a.len();
    let mut i: usize = 0;
    while i < n
        invariant
            i <= n,
            n == a@.len() == b@.len(),
            forall|j: int| 0 <= j < i ==> a@[j] == b@[j],
        decreases n - i,
    {
        if a[i] != b[i] {
            return false;
        }
        i = i + 1;
    }
    proof {
        assert(a@ =~= b@);
    }
    true
}

/// A copy of a byte vector.
pub fn clone_bytes(v: &Vec<u8>) -> (r: Vec<u8>)
    ensures
        r@ == v@,
{
    slice_to_vec(v.as_slice())
}

/// A copy of a list of byte vectors, equal item by item.
pub fn clone_bytes_list(l: &Vec<Vec<u8>>) -> (r: Vec<Vec<u8>>)
    ensures
        bytes_views(r@) == bytes_views(l@),
{
    let n = l.len();
    let mut out: Vec<Vec<u8>> = Vec::new();
    let mut i: usize = 0;
    while i < n
        invariant
            i <= n,
            n == l@.len(),
            out@.len() == i,
            forall|j: int| 0 <= j < i ==> (#[trigger] out@[j])@ == l@[j]@,
        decreases n - i,
    {
        let b = clone_bytes(&l[i]);
        out.push(b);
        i = i + 1;
    }
    proof {
        assert(bytes_views(out@) =~= bytes_views(l@));
    }
    out
}

/// A copy of a key state, equal to the source value in the model.
pub fn clone_state(s: &KeyState) -> (r: KeyState)
    ensures
        r@ == s@,
{
    KeyState {
        sequence_number: s.sequence_number,
        signing_keys: clone_bytes_list(&s.signing_keys),
        next_key_commitment: clone_bytes(&s.next_key_commitment),
        last_event_digest: clone_bytes(&s.last_event_digest),
    }
}

/// Whether some signature of the list validates `msg` under some key.
fn any_valid_sig(keys: &Vec<Vec<u8>>, msg: &Vec<u8>, sigs: &Vec<Vec<u8>>) -> (r: bool)
    ensures
        r == authenticated(bytes_views(keys@), msg@, bytes_views(sigs@)),
{
    let ns = sigs.len();
    let nk = keys.len();
    let mut i: usize = 0;
    while i < ns
        invariant
            i <= ns,
            ns == sigs@.len(),
            nk == keys@.len(),
            forall|a: int, b: int|
                0 <= a < i && 0 <= b < nk ==> !ed25519_valid(
                    bytes_views(keys@)[b],
                    msg@,
                    bytes_views(sigs@)[a],
                ),
        decreases ns - i,
    {
        let mut j: usize = 0;
        while j < nk
            invariant
                i < ns,
                j <= nk,
                ns == sigs@.len(),
                nk == keys@.len(),
                forall|b: int|
                    0 <= b < j ==> !ed25519_valid(
                        bytes_views(keys@)[b],
                        msg@,
                        bytes_views(sigs@)[i as int],
                    ),
            decreases nk - j,
        {
            if ed25519_verify(&keys[j], msg, &sigs[i]) {
                proof {
                    assert(bytes_views(keys@)[j as int] == keys@[j as int]@);
                    assert(bytes_views(sigs@)[i as int] == sigs@[i as int]@);
                }
                return true;
            }
            j = j + 1;
        }
        i = i + 1;
    }
    false
}

/// Whether each list entry fits a 4-byte length prefix.
fn check_list_encodable(l: &Vec<Vec<u8>>) -> (r: bool)
    ensures
        r == list_encodable(bytes_views(l@)),
{
    if l.len() > u32::MAX as usize {
        return false;
    }
    let n = l.len();
    let mut i: usize = 0;
    while i < n
        invariant
            i <= n,
            n == l@.len(),
            n <= u32::MAX,
            forall|j: int| 0 <= j < i ==> (#[trigger] bytes_views(l@)[j]).len() <= u32::MAX,
        decreases n - i,
    {
        if l[i].len() > u32::MAX as usize {
            proof {
                assert(bytes_views(l@)[i as int] == l@[i as int]@);
            }
            return false;
        }
        proof {
            assert(bytes_views(l@)[i as int] == l@[i as int]@);
        }
        i = i + 1;
    }
    true
}

/// Whether an event is well formed.
pub fn check_well_formed(e: &Event) -> (r: bool)
    ensures
        r == well_formed_event(e@),
{
    let shape_ok: bool = match (&e.event_type, &e.prior_digest) {
        (EventType::Inception, Option::None) => e.sequence_number == 0,
        (EventType::Inception, Option::Some(_)) => false,
        (_, Option::None) => false,
        (_, Option::Some(d)) => e.sequence_number != 0 && d.len() == 32,
    };
    shape_ok && e.signing_keys.len() >= 1 && e.next_key_commitment.len() == 32
        && check_list_encodable(&e.signing_keys) && check_list_encodable(&e.signatures)
}

/// Folds one event into an identifier's current key state.
///
/// With no current state only a well-formed inception whose signatures
/// validate under its own keys is accepted, and it becomes the initial
/// state. With a current state: an event whose digest equals the last
/// accepted event's digest is an idempotent retransmission and returns the
/// state unchanged; otherwise the event must sit at the next sequence
/// number, chain to the last accepted digest, authenticate under the
/// current keys, and, for a rotation, carry keys that hash to the standing
/// next-key commitment. The returned result agrees exactly with
/// `spec_process`; the caller owns persistence.
pub fn process(current: Option<&KeyState>, event: &Event) -> (r: Result<KeyState, ProcessError>)
    ensures
        process_result_matches(r, spec_process(opt_state_view(current), event@)),
{
    if !check_well_formed(event) {
        return Result::Err(ProcessError::Malformed);
    }
    let body = encode_event_body_bytes(event);
    let digest = sha3_digest(&body);
    match current {
        Option::None => {
            if !(matches!(event.event_type, EventType::Inception)) {
                Result::Err(ProcessError::OutOfOrder)
            } else if !any_valid_sig(&event.signing_keys, &body, &event.signatures) {
                Result::Err(ProcessError::AuthenticationFailure)
            } else {
                Result::Ok(
                    KeyState {
                        sequence_number: 0,
                        signing_keys: clone_bytes_list(&event.signing_keys),
                        next_key_commitment: clone_bytes(&event.next_key_commitment),
                        last_event_digest: digest,
                    },
                )
            }
        },
        Option::Some(s) => {
            if bytes_eq(&digest, &s.last_event_digest) {
                Result::Ok(clone_state(s))
            } else if !(s.sequence_number < u64::MAX && event.sequence_number
                == s.sequence_number + 1) {
                Result::Err(ProcessError::OutOfOrder)
            } else if !(match &event.prior_digest {
                Option::Some(p) => bytes_eq(p, &s.last_event_digest),
                Option::None => false,
            }) {
                Result::Err(ProcessError::ForkConflict)
            } else if !any_valid_sig(&s.signing_keys, &body, &event.signatures) {
                Result::Err(ProcessError::AuthenticationFailure)
            } else {
                let rotating = matches!(event.event_type, EventType::Rotation);
                let commitment_ok = if rotating {
                    let key_digest = crate::codec::key_commitment(&event.signing_keys);
                    bytes_eq(&key_digest, &s.next_key_commitment)
                } else {
                    true
                };
                if !commitment_ok {
                    return Result::Err(ProcessError::CommitmentMismatch);
                }
                Result::Ok(
                    KeyState {
                        sequence_number: event.sequence_number,
                        signing_keys: if rotating {
                            clone_bytes_list(&event.signing_keys)
                        } else {
                            clone_bytes_list(&s.signing_keys)
                        },
                        next_key_commitment: if rotating {
                            clone_bytes(&event.next_key_commitment)
                        } else {
                            clone_bytes(&s.next_key_commitment)
                        },
                        last_event_digest: digest,
                    },
                )
            }
        },
    }
}

} // verus!
