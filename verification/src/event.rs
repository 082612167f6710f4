use vstd::prelude::*;
use vstd::bytes::{spec_u32_to_le_bytes, spec_u64_to_le_bytes};
use crate::crypto::sha3_of;

verus! {

/// The three kinds of entry an identifier's log can hold: an inception event
/// establishes the identifier, a rotation replaces its signing keys, an
/// interaction extends the chain without touching the keys.
#[derive(Clone, Copy, PartialEq, Eq, Structural, Debug)]
pub enum EventType {
    Inception,
    Rotation,
    Interaction,
}

/// One entry of an identifier's key event log. Events are immutable once
/// accepted and form a singly-linked hash chain: `prior_digest` of event `n`
/// is the digest of event `n - 1`, and is absent only for the inception.
#[derive(Clone, Debug)]
pub struct Event {
    pub sequence_number: u64,
    pub event_type: EventType,
    pub prior_digest: Option<Vec<u8>>,
    pub signing_keys: Vec<Vec<u8>>,
    pub next_key_commitment: Vec<u8>,
    pub signatures: Vec<Vec<u8>>,
}

/// Mathematical model of an event: every byte field as a plain sequence.
pub ghost struct EventModel {
    pub sequence_number: u64,
    pub event_type: EventType,
    pub prior_digest: Option<Seq<u8>>,
    pub signing_keys: Seq<Seq<u8>>,
    pub next_key_commitment: Seq<u8>,
    pub signatures: Seq<Seq<u8>>,
}

/// The views of a list of byte vectors.
pub open spec fn bytes_views(v: Seq<Vec<u8>>) -> Seq<Seq<u8>> {
    v.map_values(|b: Vec<u8>| b@)
}

impl View for Event {
    type V = EventModel;

    open spec fn view(&self) -> EventModel {
        EventModel {
            sequence_number: self.sequence_number,
            event_type: self.event_type,
            prior_digest: match self.prior_digest {
                Option::None => Option::None,
                Option::Some(d) => Option::Some(d@),
            },
            signing_keys: bytes_views(self.signing_keys@),
            next_key_commitment: self.next_key_commitment@,
            signatures: bytes_views(self.signatures@),
        }
    }
}

/// The byte that encodes an event's type.
pub open spec fn type_tag(t: EventType) -> u8 {
    match t {
        EventType::Inception => 0,
        EventType::Rotation => 1,
        EventType::Interaction => 2,
    }
}

/// A byte string encoded as a 4-byte little-endian length followed by the
/// bytes themselves.
pub open spec fn encode_bytes_item(b: Seq<u8>) -> Seq<u8> {
    spec_u32_to_le_bytes(b.len() as u32) + b
}

/// The items of a list of byte strings, encoded one after the other.
pub open spec fn encode_list_items(l: Seq<Seq<u8>>) -> Seq<u8>
    decreases l.len(),
{
    if l.len() == 0 {
        Seq::empty()
    } else {
        encode_bytes_item(l[0]) + encode_list_items(l.drop_first())
    }
}

/// A list of byte strings encoded as a 4-byte little-endian count followed
/// by its length-prefixed items.
pub open spec fn encode_bytes_list(l: Seq<Seq<u8>>) -> Seq<u8> {
    spec_u32_to_le_bytes(l.len() as u32) + encode_list_items(l)
}

/// The prior-digest field: a presence byte, then the digest if present.
pub open spec fn encode_prior(p: Option<Seq<u8>>) -> Seq<u8> {
    match p {
        Option::None => seq![0u8],
        Option::Some(d) => seq![1u8] + encode_bytes_item(d),
    }
}

/// Canonical encoding of the signed portion of an event: everything but the
/// signatures. Signatures are made over these bytes, and an event's digest
/// is the digest of these bytes.
pub open spec fn encode_event_body(e: EventModel) -> Seq<u8> {
    seq![type_tag(e.event_type)] + spec_u64_to_le_bytes(e.sequence_number)
        + encode_prior(e.prior_digest) + encode_bytes_list(e.signing_keys)
        + encode_bytes_item(e.next_key_commitment)
}

/// Wire encoding of a signed event: the canonical body followed by the list
/// of signatures.
pub open spec fn encode_event_wire(e: EventModel) -> Seq<u8> {
    encode_event_body(e) + encode_bytes_list(e.signatures)
}

/// The digest under which an event is chained to its successor.
pub open spec fn digest_of_event(e: EventModel) -> Seq<u8> {
    sha3_of(encode_event_body(e))
}

/// The digest a key set must match to satisfy a prior next-key commitment.
pub open spec fn commitment_of_keys(keys: Seq<Seq<u8>>) -> Seq<u8> {
    sha3_of(encode_bytes_list(keys))
}

/// Every byte string of the list is short enough for a 4-byte length prefix.
pub open spec fn list_encodable(l: Seq<Seq<u8>>) -> bool {
    &&& l.len() <= u32::MAX
    &&& forall|i: int| 0 <= i < l.len() ==> (#[trigger] l[i]).len() <= u32::MAX
}

/// A well-formed event: its shape is consistent (an inception, and only an
/// inception, sits at sequence number zero and has no prior digest), digests
/// are 32 bytes, it carries at least one signing key, and all variable-width
/// fields fit their length prefixes.
pub open spec fn well_formed_event(e: EventModel) -> bool {
    &&& (e.event_type == EventType::Inception <==> e.sequence_number == 0)
    &&& (e.event_type == EventType::Inception <==> e.prior_digest is None)
    &&& (e.prior_digest matches Some(d) ==> d.len() == 32)
    &&& e.signing_keys.len() >= 1
    &&& e.next_key_commitment.len() == 32
    &&& list_encodable(e.signing_keys)
    &&& list_encodable(e.signatures)
}

} // verus!
