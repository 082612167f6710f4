use vstd::prelude::*;
use vstd::bytes::{
    spec_u32_to_le_bytes, spec_u64_to_le_bytes, spec_u32_from_le_bytes, spec_u64_from_le_bytes,
    u32_to_le_bytes, u64_to_le_bytes, u32_from_le_bytes, u64_from_le_bytes,
    lemma_auto_spec_u32_to_from_le_bytes, lemma_auto_spec_u64_to_from_le_bytes,
};
use vstd::slice::{slice_subrange, slice_to_vec};
use crate::event::{
    Event, EventModel, EventType, bytes_views, encode_bytes_item, encode_list_items,
    encode_bytes_list, encode_prior, encode_event_body, encode_event_wire, well_formed_event,
    list_encodable, digest_of_event, commitment_of_keys, type_tag,
};
use crate::store::event_models;

verus! {

/// Appends the bytes of `b` to `out`.
fn push_bytes(out: &mut Vec<u8>, b: &Vec<u8>)
    ensures
        final(out)@ == old(out)@ + b@,
{
    let n = b.len();
    let mut i: usize = 0;
    while i < n
        invariant
            i <= n,
            n == b@.len(),
            out@ == old(out)@ + b@.take(i as int),
        decreases n - i,
    {
        let x = b[i];
        out.push(x);
        proof {
            assert((old(out)@ + b@.take(i as int)).push(b@[i as int]) =~= old(out)@ + b@.take(
                i as int + 1,
            ));
        }
        i = i + 1;
    }
    proof {
        assert(old(out)@ + b@.take(n as int) =~= old(out)@ + b@);
    }
}

/// Appends the 4-byte little-endian encoding of `x` to `out`.
fn push_u32_le(out: &mut Vec<u8>, x: u32)
    ensures
        final(out)@ == old(out)@ + spec_u32_to_le_bytes(x),
{
    let mut b = u32_to_le_bytes(x);
    out.append(&mut b);
}

/// Appends the 8-byte little-endian encoding of `x` to `out`.
fn push_u64_le(out: &mut Vec<u8>, x: u64)
    ensures
        final(out)@ == old(out)@ + spec_u64_to_le_bytes(x),
{
    let mut b = u64_to_le_bytes(x);
    out.append(&mut b);
}

/// Appends the length-prefixed encoding of one byte string to `out`.
fn push_item(out: &mut Vec<u8>, b: &Vec<u8>)
    requires
        b@.len() <= u32::MAX,
    ensures
        final(out)@ == old(out)@ + encode_bytes_item(b@),
{
    push_u32_le(out, b.len() as u32);
    push_bytes(out, b);
    proof {
        assert(old(out)@ + spec_u32_to_le_bytes(b@.len() as u32) + b@ =~= old(out)@
            + encode_bytes_item(b@));
    }
}

/// One more item extends the encoding of a list's prefix by that item.
pub(crate) proof fn lemma_items_take_succ(l: Seq<Seq<u8>>, i: int)
    requires
        0 <= i < l.len(),
    ensures
        encode_list_items(l.take(i + 1)) == encode_list_items(l.take(i)) + encode_bytes_item(
            l[i],
        ),
    decreases i,
{
    if i == 0 {
        assert(l.take(1).drop_first() =~= Seq::<Seq<u8>>::empty());
        assert(l.take(0) =~= Seq::<Seq<u8>>::empty());
        assert(encode_list_items(l.take(1)) =~= encode_list_items(l.take(0)) + encode_bytes_item(
            l[0],
        ));
    } else {
        let l2 = l.drop_first();
        lemma_items_take_succ(l2, i - 1);
        assert(l.take(i + 1).drop_first() =~= l2.take(i));
        assert(l.take(i).drop_first() =~= l2.take(i - 1));
        assert(encode_list_items(l.take(i + 1)) == encode_bytes_item(l[0]) + encode_list_items(
            l2.take(i),
        ));
        assert(encode_list_items(l.take(i)) == encode_bytes_item(l[0]) + encode_list_items(
            l2.take(i - 1),
        ));
        assert(encode_bytes_item(l[0]) + (encode_list_items(l2.take(i - 1)) + encode_bytes_item(
            l2[i - 1],
        )) =~= (encode_bytes_item(l[0]) + encode_list_items(l2.take(i - 1))) + encode_bytes_item(
            l2[i - 1],
        ));
    }
}

/// Appends the count-prefixed encoding of a list of byte strings to `out`.
fn push_list(out: &mut Vec<u8>, l: &Vec<Vec<u8>>)
    requires
        list_encodable(bytes_views(l@)),
    ensures
        final(out)@ == old(out)@ + encode_bytes_list(bytes_views(l@)),
{
    let ghost lv = bytes_views(l@);
    let n = l.len();
    push_u32_le(out, n as u32);
    let mut i: usize = 0;
    while i < n
        invariant
            i <= n,
            n == l@.len(),
            lv == bytes_views(l@),
            lv.len() == n,
            list_encodable(lv),
            out@ == old(out)@ + spec_u32_to_le_bytes(n as u32) + encode_list_items(
                lv.take(i as int),
            ),
        decreases n - i,
    {
        proof {
            assert(lv[i as int] == l@[i as int]@);
            lemma_items_take_succ(lv, i as int);
            assert(old(out)@ + spec_u32_to_le_bytes(n as u32) + encode_list_items(
                lv.take(i as int),
            ) + encode_bytes_item(lv[i as int]) =~= old(out)@ + spec_u32_to_le_bytes(n as u32)
                + encode_list_items(lv.take(i as int + 1)));
        }
        push_item(out, &l[i]);
        i = i + 1;
    }
    proof {
        assert(lv.take(n as int) =~= lv);
        assert(old(out)@ + spec_u32_to_le_bytes(n as u32) + encode_list_items(lv) =~= old(out)@
            + encode_bytes_list(lv));
    }
}

/// Encodes the canonical body of an event: the bytes that are signed and
/// digested.
pub fn encode_event_body_bytes(e: &Event) -> (r: Vec<u8>)
    requires
        well_formed_event(e@),
    ensures
        r@ == encode_event_body(e@),
{
    let mut out: Vec<u8> = Vec::new();
    let tag: u8 = match e.event_type {
        EventType::Inception => 0,
        EventType::Rotation => 1,
        EventType::Interaction => 2,
    };
    out.push(tag);
    push_u64_le(&mut out, e.sequence_number);
    match &e.prior_digest {
        Option::None => {
            out.push(0);
        },
        Option::Some(d) => {
            out.push(1);
            push_item(&mut out, d);
        },
    }
    push_list(&mut out, &e.signing_keys);
    push_item(&mut out, &e.next_key_commitment);
    proof {
        assert(out@ =~= encode_event_body(e@));
    }
    out
}

/// Encodes a signed event for the wire: the canonical body followed by the
/// signature list.
pub fn encode_event_wire_bytes(e: &Event) -> (r: Vec<u8>)
    requires
        well_formed_event(e@),
    ensures
        r@ == encode_event_wire(e@),
{
    let mut out = encode_event_body_bytes(e);
    push_list(&mut out, &e.signatures);
    out
}

/// The digest by which an event is referenced from its successor in the
/// chain.
pub fn event_digest(e: &Event) -> (r: Vec<u8>)
    requires
        well_formed_event(e@),
    ensures
        r@ == digest_of_event(e@),
        r@.len() == 32,
{
    let body = encode_event_body_bytes(e);
    crate::crypto::sha3_digest(&body)
}

/// The commitment under which a future rotation to `keys` must have been
/// announced.
pub fn key_commitment(keys: &Vec<Vec<u8>>) -> (r: Vec<u8>)
    requires
        list_encodable(bytes_views(keys@)),
    ensures
        r@ == commitment_of_keys(bytes_views(keys@)),
        r@.len() == 32,
{
    let mut out: Vec<u8> = Vec::new();
    push_list(&mut out, keys);
    proof {
        assert(Seq::<u8>::empty() + encode_bytes_list(bytes_views(keys@)) =~= encode_bytes_list(
            bytes_views(keys@),
        ));
    }
    crate::crypto::sha3_digest(&out)
}

/// A length-prefixed byte string `b` is encoded at `pos`.
pub open spec fn item_starts_at(bytes: Seq<u8>, pos: int, b: Seq<u8>) -> bool {
    &&& b.len() <= u32::MAX
    &&& 0 <= pos
    &&& pos + encode_bytes_item(b).len() <= bytes.len()
    &&& bytes.subrange(pos, pos + encode_bytes_item(b).len()) == encode_bytes_item(b)
}

/// A count-prefixed list of byte strings `l` is encoded at `pos`.
pub open spec fn list_starts_at(bytes: Seq<u8>, pos: int, l: Seq<Seq<u8>>) -> bool {
    &&& list_encodable(l)
    &&& 0 <= pos
    &&& pos + encode_bytes_list(l).len() <= bytes.len()
    &&& bytes.subrange(pos, pos + encode_bytes_list(l).len()) == encode_bytes_list(l)
}

/// A well-formed event is wire-encoded at `pos`.
pub open spec fn event_starts_at(bytes: Seq<u8>, pos: int, e: EventModel) -> bool {
    &&& well_formed_event(e)
    &&& 0 <= pos
    &&& pos + encode_event_wire(e).len() <= bytes.len()
    &&& bytes.subrange(pos, pos + encode_event_wire(e).len()) == encode_event_wire(e)
}

/// Every byte string of a well-formed stream of events is a well-formed
/// event.
pub open spec fn all_well_formed(evs: Seq<EventModel>) -> bool {
    forall|i: int| 0 <= i < evs.len() ==> well_formed_event(#[trigger] evs[i])
}

/// Two length-prefixed items reading the same bytes are the same item with
/// the same remainder: the length prefix makes the format prefix-free.
pub proof fn lemma_item_det(a: Seq<u8>, b: Seq<u8>, t1: Seq<u8>, t2: Seq<u8>)
    requires
        a.len() <= u32::MAX,
        b.len() <= u32::MAX,
        encode_bytes_item(a) + t1 == encode_bytes_item(b) + t2,
    ensures
        a == b,
        t1 == t2,
{
    lemma_auto_spec_u32_to_from_le_bytes();
    let s = encode_bytes_item(a) + t1;
    assert(s.subrange(0, 4) =~= spec_u32_to_le_bytes(a.len() as u32));
    assert(s.subrange(0, 4) =~= spec_u32_to_le_bytes(b.len() as u32));
    assert(spec_u32_from_le_bytes(spec_u32_to_le_bytes(a.len() as u32)) == a.len() as u32);
    assert(spec_u32_from_le_bytes(spec_u32_to_le_bytes(b.len() as u32)) == b.len() as u32);
    assert(a.len() == b.len());
    assert(a =~= s.subrange(4, 4 + a.len() as int));
    assert(b =~= s.subrange(4, 4 + b.len() as int));
    assert(t1 =~= s.subrange(4 + a.len() as int, s.len() as int));
    assert(t2 =~= s.subrange(4 + b.len() as int, s.len() as int));
}

/// Item encodings concatenate.
pub proof fn lemma_items_concat(x: Seq<Seq<u8>>, y: Seq<Seq<u8>>)
    ensures
        encode_list_items(x + y) == encode_list_items(x) + encode_list_items(y),
    decreases x.len(),
{
    if x.len() == 0 {
        assert(x + y =~= y);
        assert(encode_list_items(x) == Seq::<u8>::empty());
        assert(Seq::<u8>::empty() + encode_list_items(y) =~= encode_list_items(y));
    } else {
        lemma_items_concat(x.drop_first(), y);
        assert((x + y).drop_first() =~= x.drop_first() + y);
        assert((x + y)[0] == x[0]);
        assert(encode_list_items(x + y) == encode_bytes_item(x[0]) + (encode_list_items(
            x.drop_first(),
        ) + encode_list_items(y)));
        assert(encode_bytes_item(x[0]) + (encode_list_items(x.drop_first()) + encode_list_items(
            y,
        )) =~= (encode_bytes_item(x[0]) + encode_list_items(x.drop_first())) + encode_list_items(
            y,
        ));
        assert(encode_list_items(x) == encode_bytes_item(x[0]) + encode_list_items(
            x.drop_first(),
        ));
    }
}

/// Equal-length item lists reading the same bytes are the same list with
/// the same remainder.
pub proof fn lemma_items_agree(l1: Seq<Seq<u8>>, l2: Seq<Seq<u8>>, t1: Seq<u8>, t2: Seq<u8>)
    requires
        list_encodable(l1),
        list_encodable(l2),
        l1.len() == l2.len(),
        encode_list_items(l1) + t1 == encode_list_items(l2) + t2,
    ensures
        l1 == l2,
        t1 == t2,
    decreases l1.len(),
{
    if l1.len() == 0 {
        assert(encode_list_items(l1) == Seq::<u8>::empty());
        assert(encode_list_items(l2) == Seq::<u8>::empty());
        assert(t1 =~= t2);
        assert(l1 =~= l2);
    } else {
        assert(encode_list_items(l1) == encode_bytes_item(l1[0]) + encode_list_items(
            l1.drop_first(),
        ));
        assert(encode_list_items(l2) == encode_bytes_item(l2[0]) + encode_list_items(
            l2.drop_first(),
        ));
        assert((encode_bytes_item(l1[0]) + encode_list_items(l1.drop_first())) + t1
            =~= encode_bytes_item(l1[0]) + (encode_list_items(l1.drop_first()) + t1));
        assert((encode_bytes_item(l2[0]) + encode_list_items(l2.drop_first())) + t2
            =~= encode_bytes_item(l2[0]) + (encode_list_items(l2.drop_first()) + t2));
        lemma_item_det(
            l1[0],
            l2[0],
            encode_list_items(l1.drop_first()) + t1,
            encode_list_items(l2.drop_first()) + t2,
        );
        assert forall|i: int| 0 <= i < l1.drop_first().len() implies (#[trigger] l1.drop_first()[
            i
        ]).len() <= u32::MAX by {
            assert(l1.drop_first()[i] == l1[i + 1]);
        }
        assert forall|i: int| 0 <= i < l2.drop_first().len() implies (#[trigger] l2.drop_first()[
            i
        ]).len() <= u32::MAX by {
            assert(l2.drop_first()[i] == l2[i + 1]);
        }
        lemma_items_agree(l1.drop_first(), l2.drop_first(), t1, t2);
        assert forall|i: int| 0 <= i < l1.len() implies l1[i] == l2[i] by {
            if i > 0 {
                assert(l1[i] == l1.drop_first()[i - 1]);
                assert(l2[i] == l2.drop_first()[i - 1]);
            }
        }
        assert(l1 =~= l2);
    }
}

/// Two count-prefixed lists reading the same bytes are the same list with
/// the same remainder.
pub proof fn lemma_list_det(l1: Seq<Seq<u8>>, l2: Seq<Seq<u8>>, t1: Seq<u8>, t2: Seq<u8>)
    requires
        list_encodable(l1),
        list_encodable(l2),
        encode_bytes_list(l1) + t1 == encode_bytes_list(l2) + t2,
    ensures
        l1 == l2,
        t1 == t2,
{
    lemma_auto_spec_u32_to_from_le_bytes();
    let s = encode_bytes_list(l1) + t1;
    assert(s.subrange(0, 4) =~= spec_u32_to_le_bytes(l1.len() as u32));
    assert(s.subrange(0, 4) =~= spec_u32_to_le_bytes(l2.len() as u32));
    assert(spec_u32_from_le_bytes(spec_u32_to_le_bytes(l1.len() as u32)) == l1.len() as u32);
    assert(spec_u32_from_le_bytes(spec_u32_to_le_bytes(l2.len() as u32)) == l2.len() as u32);
    assert(l1.len() == l2.len());
    assert(encode_list_items(l1) + t1 =~= s.subrange(4, s.len() as int));
    assert(encode_list_items(l2) + t2 =~= s.subrange(4, s.len() as int));
    lemma_items_agree(l1, l2, t1, t2);
}

/// Two length-prefixed items encoded at one position are the same item.
pub proof fn lemma_item_at_unique(bytes: Seq<u8>, p: int, a: Seq<u8>, b: Seq<u8>)
    requires
        item_starts_at(bytes, p, a),
        item_starts_at(bytes, p, b),
    ensures
        a == b,
{
    let n = bytes.len() as int;
    assert(encode_bytes_item(a) + bytes.subrange(p + encode_bytes_item(a).len(), n)
        =~= bytes.subrange(p, n));
    assert(encode_bytes_item(b) + bytes.subrange(p + encode_bytes_item(b).len(), n)
        =~= bytes.subrange(p, n));
    lemma_item_det(
        a,
        b,
        bytes.subrange(p + encode_bytes_item(a).len(), n),
        bytes.subrange(p + encode_bytes_item(b).len(), n),
    );
}

/// Two count-prefixed lists encoded at one position are the same list.
pub proof fn lemma_list_at_unique(bytes: Seq<u8>, p: int, l1: Seq<Seq<u8>>, l2: Seq<Seq<u8>>)
    requires
        list_starts_at(bytes, p, l1),
        list_starts_at(bytes, p, l2),
    ensures
        l1 == l2,
{
    let n = bytes.len() as int;
    assert(encode_bytes_list(l1) + bytes.subrange(p + encode_bytes_list(l1).len(), n)
        =~= bytes.subrange(p, n));
    assert(encode_bytes_list(l2) + bytes.subrange(p + encode_bytes_list(l2).len(), n)
        =~= bytes.subrange(p, n));
    lemma_list_det(
        l1,
        l2,
        bytes.subrange(p + encode_bytes_list(l1).len(), n),
        bytes.subrange(p + encode_bytes_list(l2).len(), n),
    );
}

/// Splits a concatenation encoded in a buffer into its two halves.
pub proof fn lemma_peel(bytes: Seq<u8>, pos: int, a: Seq<u8>, b: Seq<u8>)
    requires
        0 <= pos,
        pos + a.len() + b.len() <= bytes.len(),
        bytes.subrange(pos, pos + a.len() + b.len()) == a + b,
    ensures
        bytes.subrange(pos, pos + a.len() as int) == a,
        bytes.subrange(pos + a.len(), pos + a.len() + b.len()) == b,
{
    let s = bytes.subrange(pos, pos + a.len() + b.len());
    assert forall|j: int| 0 <= j < a.len() implies bytes[pos + j] == a[j] by {
        assert(s[j] == bytes[pos + j]);
        assert(s[j] == (a + b)[j]);
    }
    assert forall|j: int| 0 <= j < b.len() implies bytes[pos + a.len() + j] == b[j] by {
        assert(s[a.len() + j] == bytes[pos + a.len() + j]);
        assert(s[a.len() + j] == (a + b)[a.len() + j]);
    }
    assert(bytes.subrange(pos, pos + a.len() as int) =~= a);
    assert(bytes.subrange(pos + a.len(), pos + a.len() + b.len()) =~= b);
}

/// Where each component of a wire-encoded well-formed event sits: the tag
/// byte, the sequence number, the prior-digest flag and digest, and the
/// key, commitment and signature blocks, at their fixed offsets.
pub proof fn lemma_event_layout(bytes: Seq<u8>, pos: int, e: EventModel)
    requires
        event_starts_at(bytes, pos, e),
    ensures
        pos + 10 <= bytes.len(),
        bytes[pos] == type_tag(e.event_type),
        bytes.subrange(pos + 1, pos + 9) == spec_u64_to_le_bytes(e.sequence_number),
        bytes[pos + 9] == (if e.prior_digest is Some {
            1u8
        } else {
            0u8
        }),
        e.prior_digest matches Some(d) ==> item_starts_at(bytes, pos + 10, d),
        encode_prior(e.prior_digest).len() == (if e.prior_digest is Some {
            37int
        } else {
            1int
        }),
        list_starts_at(bytes, pos + 9 + encode_prior(e.prior_digest).len(), e.signing_keys),
        item_starts_at(
            bytes,
            pos + 9 + encode_prior(e.prior_digest).len() + encode_bytes_list(
                e.signing_keys,
            ).len(),
            e.next_key_commitment,
        ),
        list_starts_at(
            bytes,
            pos + 9 + encode_prior(e.prior_digest).len() + encode_bytes_list(
                e.signing_keys,
            ).len() + 36,
            e.signatures,
        ),
        pos + encode_event_wire(e).len() == pos + 9 + encode_prior(e.prior_digest).len()
            + encode_bytes_list(e.signing_keys).len() + 36 + encode_bytes_list(
            e.signatures,
        ).len(),
{
    lemma_auto_spec_u32_to_from_le_bytes();
    lemma_auto_spec_u64_to_from_le_bytes();
    let w = encode_event_wire(e);
    let sigs = encode_bytes_list(e.signatures);
    let body = encode_event_body(e);
    let comm = encode_bytes_item(e.next_key_commitment);
    let keys = encode_bytes_list(e.signing_keys);
    let prior = encode_prior(e.prior_digest);
    let b2 = seq![type_tag(e.event_type)] + spec_u64_to_le_bytes(e.sequence_number);
    let b3 = b2 + prior;
    let b4 = b3 + keys;
    let pl = prior.len() as int;
    let kl = keys.len() as int;
    assert(body =~= b4 + comm);
    assert(w =~= body + sigs);
    match e.prior_digest {
        Option::Some(d) => {
            assert(prior == seq![1u8] + encode_bytes_item(d));
            assert(d.len() == 32);
            assert(pl == 37);
        },
        Option::None => {
            assert(prior == seq![0u8]);
            assert(pl == 1);
        },
    }
    assert(comm.len() == 36);
    assert(b2.len() == 9);
    assert(w.len() == 9 + pl + kl + 36 + sigs.len());
    // Peel the buffer one component at a time.
    assert(bytes.subrange(pos, pos + w.len()) == w);
    assert(bytes.subrange(pos, pos + body.len() + sigs.len()) == body + sigs);
    lemma_peel(bytes, pos, body, sigs);
    assert(bytes.subrange(pos, pos + b4.len() + comm.len()) == b4 + comm);
    lemma_peel(bytes, pos, b4, comm);
    assert(bytes.subrange(pos, pos + b3.len() + keys.len()) == b3 + keys);
    lemma_peel(bytes, pos, b3, keys);
    assert(bytes.subrange(pos, pos + b2.len() + prior.len()) == b2 + prior);
    lemma_peel(bytes, pos, b2, prior);
    assert(bytes.subrange(pos, pos + 1 + 8) == seq![type_tag(e.event_type)]
        + spec_u64_to_le_bytes(e.sequence_number));
    lemma_peel(
        bytes,
        pos,
        seq![type_tag(e.event_type)],
        spec_u64_to_le_bytes(e.sequence_number),
    );
    assert(bytes[pos] == bytes.subrange(pos, pos + 1)[0]);
    assert(bytes[pos + 9] == bytes.subrange(pos + 9, pos + 9 + pl)[0]);
    match e.prior_digest {
        Option::Some(d) => {
            assert(prior[0] == 1u8);
            assert(bytes.subrange(pos + 9, pos + 9 + 1 + encode_bytes_item(d).len())
                == seq![1u8] + encode_bytes_item(d));
            lemma_peel(bytes, pos + 9, seq![1u8], encode_bytes_item(d));
        },
        Option::None => {
            assert(prior[0] == 0u8);
        },
    }
}

/// Two wire-encoded well-formed events reading the same bytes are the same
/// event with the same remainder.
pub proof fn lemma_event_det(e1: EventModel, e2: EventModel, t1: Seq<u8>, t2: Seq<u8>)
    requires
        well_formed_event(e1),
        well_formed_event(e2),
        encode_event_wire(e1) + t1 == encode_event_wire(e2) + t2,
    ensures
        e1 == e2,
        t1 == t2,
{
    lemma_auto_spec_u64_to_from_le_bytes();
    let s = encode_event_wire(e1) + t1;
    assert(s.subrange(0, encode_event_wire(e1).len() as int) =~= encode_event_wire(e1));
    assert(s.subrange(0, encode_event_wire(e2).len() as int) =~= encode_event_wire(e2));
    assert(event_starts_at(s, 0, e1));
    assert(event_starts_at(s, 0, e2));
    lemma_event_layout(s, 0, e1);
    lemma_event_layout(s, 0, e2);
    assert(type_tag(e1.event_type) == type_tag(e2.event_type));
    assert(e1.event_type == e2.event_type);
    assert(spec_u64_from_le_bytes(spec_u64_to_le_bytes(e1.sequence_number))
        == e1.sequence_number);
    assert(spec_u64_from_le_bytes(spec_u64_to_le_bytes(e2.sequence_number))
        == e2.sequence_number);
    assert(e1.sequence_number == e2.sequence_number);
    match (e1.prior_digest, e2.prior_digest) {
        (Option::Some(d1), Option::Some(d2)) => {
            lemma_item_at_unique(s, 10, d1, d2);
            assert(e1.prior_digest == e2.prior_digest);
        },
        (Option::None, Option::None) => {
        },
        _ => {
            assert(false);
        },
    }
    let pl = encode_prior(e1.prior_digest).len() as int;
    assert(encode_prior(e2.prior_digest).len() == pl);
    lemma_list_at_unique(s, 9 + pl, e1.signing_keys, e2.signing_keys);
    let kl = encode_bytes_list(e1.signing_keys).len() as int;
    lemma_item_at_unique(s, 9 + pl + kl, e1.next_key_commitment, e2.next_key_commitment);
    lemma_list_at_unique(s, 9 + pl + kl + 36, e1.signatures, e2.signatures);
    assert(e1 == e2);
    assert(encode_event_wire(e1).len() == encode_event_wire(e2).len());
    assert(t1 =~= s.subrange(encode_event_wire(e1).len() as int, s.len() as int));
    assert(t2 =~= s.subrange(encode_event_wire(e2).len() as int, s.len() as int));
}

/// Law: the wire encoding of well-formed events is injective — equal
/// encodings mean equal events.
pub proof fn lemma_encode_event_wire_injective(e1: EventModel, e2: EventModel)
    requires
        well_formed_event(e1),
        well_formed_event(e2),
        encode_event_wire(e1) == encode_event_wire(e2),
    ensures
        e1 == e2,
{
    assert(encode_event_wire(e1) + Seq::<u8>::empty() =~= encode_event_wire(e2)
        + Seq::<u8>::empty());
    lemma_event_det(e1, e2, Seq::empty(), Seq::empty());
}

/// If a list is encoded at `pos` and the encodings of `pp` fill the bytes
/// from the count prefix up to `cur`, then `pp` is the list's first items
/// and the next item of the list is encoded at `cur`.
proof fn lemma_list_next_item(
    bytes: Seq<u8>,
    pos: int,
    ll: Seq<Seq<u8>>,
    pp: Seq<Seq<u8>>,
    cur: int,
)
    requires
        list_starts_at(bytes, pos, ll),
        list_encodable(pp),
        pp.len() < ll.len(),
        pos + 4 <= cur <= bytes.len(),
        bytes.subrange(pos + 4, cur) == encode_list_items(pp),
    ensures
        item_starts_at(bytes, cur, ll[pp.len() as int]),
{
    lemma_auto_spec_u32_to_from_le_bytes();
    let n = bytes.len() as int;
    let i = pp.len() as int;
    let itemsl = encode_list_items(ll);
    assert(bytes.subrange(pos, pos + 4 + itemsl.len()) == spec_u32_to_le_bytes(ll.len() as u32)
        + itemsl);
    lemma_peel(bytes, pos, spec_u32_to_le_bytes(ll.len() as u32), itemsl);
    let tke = ll.take(i);
    let skp = ll.skip(i);
    assert(ll =~= tke + skp);
    lemma_items_concat(tke, skp);
    assert(itemsl == encode_list_items(tke) + encode_list_items(skp));
    assert forall|k: int| 0 <= k < itemsl.len() implies bytes[pos + 4 + k] == itemsl[k] by {
        assert(bytes.subrange(pos + 4, pos + 4 + itemsl.len())[k] == itemsl[k]);
        assert(bytes.subrange(pos + 4, pos + 4 + itemsl.len())[k] == bytes[pos + 4 + k]);
    }
    assert forall|k: int| 0 <= k < encode_list_items(pp).len() implies bytes[pos + 4 + k]
        == encode_list_items(pp)[k] by {
        assert(bytes.subrange(pos + 4, cur)[k] == encode_list_items(pp)[k]);
        assert(bytes.subrange(pos + 4, cur)[k] == bytes[pos + 4 + k]);
    }
    assert(encode_list_items(pp) + bytes.subrange(cur, n) =~= bytes.subrange(pos + 4, n));
    assert(encode_list_items(tke) + (encode_list_items(skp) + bytes.subrange(
        pos + 4 + itemsl.len(),
        n,
    )) =~= bytes.subrange(pos + 4, n));
    assert forall|k: int| 0 <= k < tke.len() implies (#[trigger] tke[k]).len() <= u32::MAX by {
        assert(tke[k] == ll[k]);
    }
    lemma_items_agree(
        pp,
        tke,
        bytes.subrange(cur, n),
        encode_list_items(skp) + bytes.subrange(pos + 4 + itemsl.len(), n),
    );
    assert(bytes.subrange(cur, n) == encode_list_items(skp) + bytes.subrange(
        pos + 4 + itemsl.len(),
        n,
    ));
    assert(skp.len() > 0);
    assert(encode_list_items(skp) == encode_bytes_item(skp[0]) + encode_list_items(
        skp.drop_first(),
    ));
    assert(skp[0] == ll[i]);
    let it = encode_bytes_item(ll[i]);
    assert((encode_bytes_item(skp[0]) + encode_list_items(skp.drop_first())) + bytes.subrange(
        pos + 4 + itemsl.len(),
        n,
    ) =~= it + (encode_list_items(skp.drop_first()) + bytes.subrange(
        pos + 4 + itemsl.len(),
        n,
    )));
    assert(cur + it.len() <= n);
    assert forall|k: int| 0 <= k < it.len() implies bytes[cur + k] == it[k] by {
        assert(bytes.subrange(cur, n)[k] == bytes[cur + k]);
        assert((it + (encode_list_items(skp.drop_first()) + bytes.subrange(
            pos + 4 + itemsl.len(),
            n,
        )))[k] == it[k]);
    }
    assert(bytes.subrange(cur, cur + it.len()) =~= it);
    assert(ll[i].len() <= u32::MAX);
}

/// Reads a 4-byte little-endian integer.
fn read_u32(bytes: &Vec<u8>, pos: usize) -> (r: Option<(u32, usize)>)
    requires
        pos <= bytes@.len(),
    ensures
        match r {
            Option::Some(p) => pos + 4 == p.1 && p.1 <= bytes@.len() && bytes@.subrange(
                pos as int,
                p.1 as int,
            ) == spec_u32_to_le_bytes(p.0),
            Option::None => bytes@.len() < pos + 4,
        },
{
    if bytes.len() - pos < 4 {
        return Option::None;
    }
    let s = slice_subrange(bytes.as_slice(), pos, pos + 4);
    let x = u32_from_le_bytes(s);
    proof {
        lemma_auto_spec_u32_to_from_le_bytes();
    }
    Option::Some((x, pos + 4))
}

/// Reads an 8-byte little-endian integer.
fn read_u64(bytes: &Vec<u8>, pos: usize) -> (r: Option<(u64, usize)>)
    requires
        pos <= bytes@.len(),
    ensures
        match r {
            Option::Some(p) => pos + 8 == p.1 && p.1 <= bytes@.len() && bytes@.subrange(
                pos as int,
                p.1 as int,
            ) == spec_u64_to_le_bytes(p.0),
            Option::None => bytes@.len() < pos + 8,
        },
{
    if bytes.len() - pos < 8 {
        return Option::None;
    }
    let s = slice_subrange(bytes.as_slice(), pos, pos + 8);
    let x = u64_from_le_bytes(s);
    proof {
        lemma_auto_spec_u64_to_from_le_bytes();
    }
    Option::Some((x, pos + 8))
}

/// Reads one length-prefixed byte string. What was consumed is exactly the
/// encoding of what is returned; failure means no item is encoded here.
fn read_item(bytes: &Vec<u8>, pos: usize) -> (r: Option<(Vec<u8>, usize)>)
    requires
        pos <= bytes@.len(),
    ensures
        match r {
            Option::Some(p) => pos <= p.1 <= bytes@.len() && p.0@.len() <= u32::MAX
                && bytes@.subrange(pos as int, p.1 as int) == encode_bytes_item(p.0@),
            Option::None => forall|b: Seq<u8>| !item_starts_at(bytes@, pos as int, b),
        },
{
    match read_u32(bytes, pos) {
        Option::None => {
            proof {
                lemma_auto_spec_u32_to_from_le_bytes();
                assert forall|b: Seq<u8>| !item_starts_at(bytes@, pos as int, b) by {
                    if item_starts_at(bytes@, pos as int, b) {
                        assert(encode_bytes_item(b).len() >= 4);
                        assert(false);
                    }
                }
            }
            Option::None
        },
        Option::Some((len, mid)) => {
            if bytes.len() - mid < len as usize {
                proof {
                    lemma_auto_spec_u32_to_from_le_bytes();
                    assert forall|b: Seq<u8>| !item_starts_at(bytes@, pos as int, b) by {
                        if item_starts_at(bytes@, pos as int, b) {
                            assert(bytes@.subrange(pos as int, pos as int + 4 + b.len())
                                == spec_u32_to_le_bytes(b.len() as u32) + b);
                            lemma_peel(
                                bytes@,
                                pos as int,
                                spec_u32_to_le_bytes(b.len() as u32),
                                b,
                            );
                            assert(spec_u32_to_le_bytes(len) == spec_u32_to_le_bytes(
                                b.len() as u32,
                            ));
                            assert(spec_u32_from_le_bytes(spec_u32_to_le_bytes(len)) == len);
                            assert(spec_u32_from_le_bytes(spec_u32_to_le_bytes(b.len() as u32))
                                == b.len() as u32);
                            assert(b.len() == len as int);
                            assert(pos + 4 + b.len() <= bytes@.len());
                            assert(false);
                        }
                    }
                }
                return Option::None;
            }
            let end = mid + len as usize;
            let b = slice_to_vec(slice_subrange(bytes.as_slice(), mid, end));
            proof {
                assert(bytes@.subrange(pos as int, end as int) =~= bytes@.subrange(
                    pos as int,
                    mid as int,
                ) + bytes@.subrange(mid as int, end as int));
                assert(b@.len() == len);
                assert(encode_bytes_item(b@) == spec_u32_to_le_bytes(b@.len() as u32) + b@);
            }
            Option::Some((b, end))
        },
    }
}

/// One more item extends a list's item encoding by that item's encoding.
proof fn lemma_items_push(s: Seq<Seq<u8>>, x: Seq<u8>)
    ensures
        encode_list_items(s.push(x)) == encode_list_items(s) + encode_bytes_item(x),
{
    let sp = s.push(x);
    lemma_items_take_succ(sp, s.len() as int);
    assert(sp.take(s.len() as int + 1) =~= sp);
    assert(sp.take(s.len() as int) =~= s);
}

/// Reads a count-prefixed list of byte strings. What was consumed is
/// exactly the encoding of what is returned; failure means no list is
/// encoded here.
fn read_list(bytes: &Vec<u8>, pos: usize) -> (r: Option<(Vec<Vec<u8>>, usize)>)
    requires
        pos <= bytes@.len(),
    ensures
        match r {
            Option::Some(p) => pos <= p.1 <= bytes@.len() && list_encodable(bytes_views(p.0@))
                && bytes@.subrange(pos as int, p.1 as int) == encode_bytes_list(
                bytes_views(p.0@),
            ),
            Option::None => forall|l: Seq<Seq<u8>>| !list_starts_at(bytes@, pos as int, l),
        },
{
    match read_u32(bytes, pos) {
        Option::None => {
            proof {
                lemma_auto_spec_u32_to_from_le_bytes();
                assert forall|l: Seq<Seq<u8>>| !list_starts_at(bytes@, pos as int, l) by {
                    if list_starts_at(bytes@, pos as int, l) {
                        assert(encode_bytes_list(l).len() >= 4);
                        assert(false);
                    }
                }
            }
            Option::None
        },
        Option::Some((count, mid)) => {
            let mut l: Vec<Vec<u8>> = Vec::new();
            let mut cur: usize = mid;
            let mut i: u32 = 0;
            while i < count
                invariant
                    pos + 4 == mid <= cur <= bytes@.len(),
                    i <= count,
                    l@.len() == i,
                    list_encodable(bytes_views(l@)),
                    bytes@.subrange(pos as int, mid as int) == spec_u32_to_le_bytes(count),
                    bytes@.subrange(mid as int, cur as int) == encode_list_items(
                        bytes_views(l@),
                    ),
                decreases count - i,
            {
                match read_item(bytes, cur) {
                    Option::None => {
                        proof {
                            lemma_auto_spec_u32_to_from_le_bytes();
                            assert forall|ll: Seq<Seq<u8>>| !list_starts_at(
                                bytes@,
                                pos as int,
                                ll,
                            ) by {
                                if list_starts_at(bytes@, pos as int, ll) {
                                    assert(bytes@.subrange(
                                        pos as int,
                                        pos as int + 4 + encode_list_items(ll).len(),
                                    ) == spec_u32_to_le_bytes(ll.len() as u32)
                                        + encode_list_items(ll));
                                    lemma_peel(
                                        bytes@,
                                        pos as int,
                                        spec_u32_to_le_bytes(ll.len() as u32),
                                        encode_list_items(ll),
                                    );
                                    assert(spec_u32_to_le_bytes(count) == spec_u32_to_le_bytes(
                                        ll.len() as u32,
                                    ));
                                    assert(spec_u32_from_le_bytes(spec_u32_to_le_bytes(count))
                                        == count);
                                    assert(spec_u32_from_le_bytes(spec_u32_to_le_bytes(
                                        ll.len() as u32,
                                    )) == ll.len() as u32);
                                    assert(ll.len() == count as int);
                                    lemma_list_next_item(
                                        bytes@,
                                        pos as int,
                                        ll,
                                        bytes_views(l@),
                                        cur as int,
                                    );
                                    assert(false);
                                }
                            }
                        }
                        return Option::None;
                    },
                    Option::Some((b, next)) => {
                        proof {
                            assert(bytes_views(l@.push(b)) =~= bytes_views(l@).push(b@));
                            lemma_items_push(bytes_views(l@), b@);
                            assert(bytes@.subrange(mid as int, next as int) =~= bytes@.subrange(
                                mid as int,
                                cur as int,
                            ) + bytes@.subrange(cur as int, next as int));
                        }
                        l.push(b);
                        cur = next;
                        i = i + 1;
                    },
                }
            }
            proof {
                assert(bytes@.subrange(pos as int, cur as int) =~= bytes@.subrange(
                    pos as int,
                    mid as int,
                ) + bytes@.subrange(mid as int, cur as int));
                assert(l@.len() as u32 == count);
            }
            Option::Some((l, cur))
        },
    }
}

/// Fewer than ten bytes leave no room for an event header.
proof fn lemma_no_event_short(bytes: Seq<u8>, pos: int)
    requires
        bytes.len() < pos + 10,
    ensures
        forall|ev: EventModel| !event_starts_at(bytes, pos, ev),
{
    assert forall|ev: EventModel| !event_starts_at(bytes, pos, ev) by {
        if event_starts_at(bytes, pos, ev) {
            lemma_event_layout(bytes, pos, ev);
            assert(false);
        }
    }
}

/// A leading byte that is no event type tag admits no event.
proof fn lemma_no_event_bad_tag(bytes: Seq<u8>, pos: int)
    requires
        0 <= pos < bytes.len(),
        bytes[pos] != 0,
        bytes[pos] != 1,
        bytes[pos] != 2,
    ensures
        forall|ev: EventModel| !event_starts_at(bytes, pos, ev),
{
    assert forall|ev: EventModel| !event_starts_at(bytes, pos, ev) by {
        if event_starts_at(bytes, pos, ev) {
            lemma_event_layout(bytes, pos, ev);
            match ev.event_type {
                EventType::Inception => {
                    assert(bytes[pos] == 0);
                },
                EventType::Rotation => {
                    assert(bytes[pos] == 1);
                },
                EventType::Interaction => {
                    assert(bytes[pos] == 2);
                },
            }
            assert(false);
        }
    }
}

/// A prior-digest flag byte other than zero or one admits no event.
proof fn lemma_no_event_bad_flag(bytes: Seq<u8>, pos: int)
    requires
        0 <= pos,
        bytes[pos + 9] != 0,
        bytes[pos + 9] != 1,
    ensures
        forall|ev: EventModel| !event_starts_at(bytes, pos, ev),
{
    assert forall|ev: EventModel| !event_starts_at(bytes, pos, ev) by {
        if event_starts_at(bytes, pos, ev) {
            lemma_event_layout(bytes, pos, ev);
            assert(false);
        }
    }
}

/// A set prior-digest flag with no item after it admits no event.
proof fn lemma_no_event_no_prior(bytes: Seq<u8>, pos: int)
    requires
        0 <= pos,
        bytes[pos + 9] == 1,
        forall|b: Seq<u8>| !(#[trigger] item_starts_at(bytes, pos + 10, b)),
    ensures
        forall|ev: EventModel| !event_starts_at(bytes, pos, ev),
{
    assert forall|ev: EventModel| !event_starts_at(bytes, pos, ev) by {
        if event_starts_at(bytes, pos, ev) {
            lemma_event_layout(bytes, pos, ev);
            match ev.prior_digest {
                Option::Some(pd) => {
                    assert(!item_starts_at(bytes, pos + 10, pd));
                },
                Option::None => {},
            }
            assert(false);
        }
    }
}

/// A prior digest of any length other than 32 bytes admits no event.
proof fn lemma_no_event_prior_len(bytes: Seq<u8>, pos: int, d: Seq<u8>)
    requires
        0 <= pos,
        bytes[pos + 9] == 1,
        item_starts_at(bytes, pos + 10, d),
        d.len() != 32,
    ensures
        forall|ev: EventModel| !event_starts_at(bytes, pos, ev),
{
    assert forall|ev: EventModel| !event_starts_at(bytes, pos, ev) by {
        if event_starts_at(bytes, pos, ev) {
            lemma_event_layout(bytes, pos, ev);
            match ev.prior_digest {
                Option::Some(pd) => {
                    lemma_item_at_unique(bytes, pos + 10, d, pd);
                },
                Option::None => {},
            }
            assert(false);
        }
    }
}

/// A header whose tag, sequence number and prior-digest flag contradict
/// the well-formedness shape admits no event.
proof fn lemma_no_event_bad_shape(bytes: Seq<u8>, pos: int, tag: u8, seqno: u64, has_prior: bool)
    requires
        0 <= pos,
        bytes[pos] == tag,
        bytes.subrange(pos + 1, pos + 9) == spec_u64_to_le_bytes(seqno),
        bytes[pos + 9] == (if has_prior {
            1u8
        } else {
            0u8
        }),
        ((tag == 0) != (seqno == 0 && !has_prior)) || (tag != 0 && (seqno == 0 || !has_prior)),
    ensures
        forall|ev: EventModel| !event_starts_at(bytes, pos, ev),
{
    lemma_auto_spec_u64_to_from_le_bytes();
    assert forall|ev: EventModel| !event_starts_at(bytes, pos, ev) by {
        if event_starts_at(bytes, pos, ev) {
            lemma_event_layout(bytes, pos, ev);
            assert(tag == type_tag(ev.event_type));
            match ev.event_type {
                EventType::Inception => {
                    assert(tag == 0);
                },
                EventType::Rotation => {
                    assert(tag == 1);
                },
                EventType::Interaction => {
                    assert(tag == 2);
                },
            }
            assert(spec_u64_to_le_bytes(seqno) == spec_u64_to_le_bytes(ev.sequence_number));
            assert(spec_u64_from_le_bytes(spec_u64_to_le_bytes(seqno)) == seqno);
            assert(spec_u64_from_le_bytes(spec_u64_to_le_bytes(ev.sequence_number))
                == ev.sequence_number);
            assert(seqno == ev.sequence_number);
            assert(has_prior == (ev.prior_digest is Some));
            assert(false);
        }
    }
}

/// With the header and prior digest accounted for, an event encoded at
/// `pos` has its key, commitment and signature blocks at the positions the
/// parser reads them from.
proof fn lemma_prior_aligned(
    bytes: Seq<u8>,
    pos: int,
    prior_opt: Option<Seq<u8>>,
    p4: int,
    ev: EventModel,
)
    requires
        event_starts_at(bytes, pos, ev),
        match prior_opt {
            Option::None => bytes[pos + 9] == 0 && p4 == pos + 10,
            Option::Some(d) => bytes[pos + 9] == 1 && item_starts_at(bytes, pos + 10, d)
                && d.len() == 32 && p4 == pos + 46,
        },
    ensures
        (ev.prior_digest is Some) == (prior_opt is Some),
        list_starts_at(bytes, p4, ev.signing_keys),
        item_starts_at(
            bytes,
            p4 + encode_bytes_list(ev.signing_keys).len(),
            ev.next_key_commitment,
        ),
        list_starts_at(
            bytes,
            p4 + encode_bytes_list(ev.signing_keys).len() + 36,
            ev.signatures,
        ),
{
    lemma_event_layout(bytes, pos, ev);
    match (prior_opt, ev.prior_digest) {
        (Option::Some(d), Option::Some(pd)) => {
            lemma_item_at_unique(bytes, pos + 10, d, pd);
        },
        (Option::None, Option::None) => {},
        _ => {
            assert(false);
        },
    }
}

/// The facts the parser holds after the header and prior digest: the flag
/// byte matches the presence of the digest, a present digest is the
/// 32-byte item at its fixed offset, and `p4` is where the key block
/// starts.
pub open spec fn prior_parsed(bytes: Seq<u8>, pos: int, pv: Option<Seq<u8>>, p4: int) -> bool {
    match pv {
        Option::None => bytes[pos + 9] == 0 && p4 == pos + 10,
        Option::Some(d) => bytes[pos + 9] == 1 && item_starts_at(bytes, pos + 10, d) && d.len()
            == 32 && p4 == pos + 46,
    }
}

/// Reads the prior-digest flag and, if set, the prior digest. On success
/// the consumed range is exactly the prior-digest encoding; on failure no
/// well-formed event is wire-encoded at `pos`.
fn read_prior(bytes: &Vec<u8>, pos: usize) -> (r: Option<(Option<Vec<u8>>, usize)>)
    requires
        pos + 10 <= bytes@.len(),
    ensures
        match r {
            Option::Some(p) => {
                &&& pos + 10 <= p.1 <= bytes@.len()
                &&& prior_parsed(
                    bytes@,
                    pos as int,
                    match p.0 {
                        Option::None => Option::<Seq<u8>>::None,
                        Option::Some(d) => Option::Some(d@),
                    },
                    p.1 as int,
                )
                &&& bytes@.subrange(pos as int + 9, p.1 as int) == encode_prior(
                    match p.0 {
                        Option::None => Option::<Seq<u8>>::None,
                        Option::Some(d) => Option::Some(d@),
                    },
                )
            },
            Option::None => forall|ev: EventModel| !event_starts_at(bytes@, pos as int, ev),
        },
{
    let n = bytes.len();
    proof {
        assert(pos + 10 <= n);
    }
    let flag = bytes[pos + 9];
    if flag == 0 {
        proof {
            assert(bytes@.subrange(pos as int + 9, pos as int + 10) =~= seq![0u8]);
        }
        return Option::Some((Option::None, pos + 10));
    }
    if flag != 1 {
        proof {
            lemma_no_event_bad_flag(bytes@, pos as int);
        }
        return Option::None;
    }
    match read_item(bytes, pos + 10) {
        Option::None => {
            proof {
                lemma_no_event_no_prior(bytes@, pos as int);
            }
            Option::None
        },
        Option::Some((d, next)) => {
            if d.len() != 32 {
                proof {
                    assert(item_starts_at(bytes@, pos as int + 10, d@));
                    lemma_no_event_prior_len(bytes@, pos as int, d@);
                }
                return Option::None;
            }
            proof {
                lemma_auto_spec_u32_to_from_le_bytes();
                assert(item_starts_at(bytes@, pos as int + 10, d@));
                assert(bytes@.subrange(pos as int + 9, pos as int + 10) =~= seq![1u8]);
                assert(bytes@.subrange(pos as int + 9, next as int) =~= bytes@.subrange(
                    pos as int + 9,
                    pos as int + 10,
                ) + bytes@.subrange(pos as int + 10, next as int));
                assert(bytes@.subrange(pos as int + 9, next as int) =~= encode_prior(
                    Option::Some(d@),
                ));
            }
            Option::Some((Option::Some(d), next))
        },
    }
}

/// With the header and prior digest in place, a missing key block admits
/// no event.
proof fn lemma_no_event_keys_missing(bytes: Seq<u8>, pos: int, pv: Option<Seq<u8>>, p4: int)
    requires
        prior_parsed(bytes, pos, pv, p4),
        forall|l: Seq<Seq<u8>>| !(#[trigger] list_starts_at(bytes, p4, l)),
    ensures
        forall|ev: EventModel| !event_starts_at(bytes, pos, ev),
{
    assert forall|ev: EventModel| !event_starts_at(bytes, pos, ev) by {
        if event_starts_at(bytes, pos, ev) {
            lemma_prior_aligned(bytes, pos, pv, p4, ev);
            assert(false);
        }
    }
}

/// An empty key block admits no well-formed event.
proof fn lemma_no_event_keys_empty(
    bytes: Seq<u8>,
    pos: int,
    pv: Option<Seq<u8>>,
    p4: int,
    kk: Seq<Seq<u8>>,
)
    requires
        prior_parsed(bytes, pos, pv, p4),
        list_starts_at(bytes, p4, kk),
        kk.len() == 0,
    ensures
        forall|ev: EventModel| !event_starts_at(bytes, pos, ev),
{
    assert forall|ev: EventModel| !event_starts_at(bytes, pos, ev) by {
        if event_starts_at(bytes, pos, ev) {
            lemma_prior_aligned(bytes, pos, pv, p4, ev);
            lemma_list_at_unique(bytes, p4, kk, ev.signing_keys);
            assert(false);
        }
    }
}

/// A missing commitment item after the key block admits no event.
proof fn lemma_no_event_comm_missing(
    bytes: Seq<u8>,
    pos: int,
    pv: Option<Seq<u8>>,
    p4: int,
    kk: Seq<Seq<u8>>,
    p5: int,
)
    requires
        prior_parsed(bytes, pos, pv, p4),
        list_starts_at(bytes, p4, kk),
        p5 == p4 + encode_bytes_list(kk).len(),
        forall|b: Seq<u8>| !(#[trigger] item_starts_at(bytes, p5, b)),
    ensures
        forall|ev: EventModel| !event_starts_at(bytes, pos, ev),
{
    assert forall|ev: EventModel| !event_starts_at(bytes, pos, ev) by {
        if event_starts_at(bytes, pos, ev) {
            lemma_prior_aligned(bytes, pos, pv, p4, ev);
            lemma_list_at_unique(bytes, p4, kk, ev.signing_keys);
            assert(!item_starts_at(bytes, p5, ev.next_key_commitment));
            assert(false);
        }
    }
}

/// A commitment of any length other than 32 bytes admits no event.
proof fn lemma_no_event_comm_len(
    bytes: Seq<u8>,
    pos: int,
    pv: Option<Seq<u8>>,
    p4: int,
    kk: Seq<Seq<u8>>,
    p5: int,
    cm: Seq<u8>,
)
    requires
        prior_parsed(bytes, pos, pv, p4),
        list_starts_at(bytes, p4, kk),
        p5 == p4 + encode_bytes_list(kk).len(),
        item_starts_at(bytes, p5, cm),
        cm.len() != 32,
    ensures
        forall|ev: EventModel| !event_starts_at(bytes, pos, ev),
{
    assert forall|ev: EventModel| !event_starts_at(bytes, pos, ev) by {
        if event_starts_at(bytes, pos, ev) {
            lemma_prior_aligned(bytes, pos, pv, p4, ev);
            lemma_list_at_unique(bytes, p4, kk, ev.signing_keys);
            lemma_item_at_unique(bytes, p5, cm, ev.next_key_commitment);
            assert(false);
        }
    }
}

/// A missing signature block after the commitment admits no event.
proof fn lemma_no_event_sigs_missing(
    bytes: Seq<u8>,
    pos: int,
    pv: Option<Seq<u8>>,
    p4: int,
    kk: Seq<Seq<u8>>,
    p5: int,
    cm: Seq<u8>,
    p6: int,
)
    requires
        prior_parsed(bytes, pos, pv, p4),
        list_starts_at(bytes, p4, kk),
        p5 == p4 + encode_bytes_list(kk).len(),
        item_starts_at(bytes, p5, cm),
        cm.len() == 32,
        p6 == p5 + 36,
        forall|l: Seq<Seq<u8>>| !(#[trigger] list_starts_at(bytes, p6, l)),
    ensures
        forall|ev: EventModel| !event_starts_at(bytes, pos, ev),
{
    assert forall|ev: EventModel| !event_starts_at(bytes, pos, ev) by {
        if event_starts_at(bytes, pos, ev) {
            lemma_prior_aligned(bytes, pos, pv, p4, ev);
            lemma_list_at_unique(bytes, p4, kk, ev.signing_keys);
            lemma_item_at_unique(bytes, p5, cm, ev.next_key_commitment);
            assert(!list_starts_at(bytes, p6, ev.signatures));
            assert(false);
        }
    }
}

/// A header whose shape the parser accepted but whose tag, sequence number
/// and prior flag contradict well-formedness admits no event; this names
/// the facts the parser has at its shape check.
proof fn lemma_no_event_shape_at(
    bytes: Seq<u8>,
    pos: int,
    pv: Option<Seq<u8>>,
    p4: int,
    tag: u8,
    seqno: u64,
)
    requires
        0 <= pos,
        bytes[pos] == tag,
        bytes.subrange(pos + 1, pos + 9) == spec_u64_to_le_bytes(seqno),
        prior_parsed(bytes, pos, pv, p4),
        ((tag == 0) != (seqno == 0 && pv is None)) || (tag != 0 && (seqno == 0 || pv is None)),
    ensures
        forall|ev: EventModel| !event_starts_at(bytes, pos, ev),
{
    lemma_no_event_bad_shape(bytes, pos, tag, seqno, pv is Some);
}

/// Parses one signed event. On success, the consumed range is exactly the
/// wire encoding of the returned event, and the event is well formed; on
/// failure, no well-formed event is wire-encoded at this position.
pub fn parse_event(bytes: &Vec<u8>, pos: usize) -> (r: Option<(Event, usize)>)
    requires
        pos <= bytes@.len(),
    ensures
        match r {
            Option::Some(p) => pos < p.1 <= bytes@.len() && well_formed_event(p.0@)
                && bytes@.subrange(pos as int, p.1 as int) == encode_event_wire(p.0@),
            Option::None => forall|ev: EventModel| !event_starts_at(bytes@, pos as int, ev),
        },
{
    if pos >= bytes.len() {
        proof {
            lemma_no_event_short(bytes@, pos as int);
        }
        return Option::None;
    }
    let tag = bytes[pos];
    let event_type = match tag {
        0u8 => EventType::Inception,
        1u8 => EventType::Rotation,
        2u8 => EventType::Interaction,
        _ => {
            proof {
                lemma_no_event_bad_tag(bytes@, pos as int);
            }
            return Option::None;
        },
    };
    let p1 = pos + 1;
    let (sequence_number, p2) = match read_u64(bytes, p1) {
        Option::Some(p) => p,
        Option::None => {
            proof {
                lemma_no_event_short(bytes@, pos as int);
            }
            return Option::None;
        },
    };
    if p2 >= bytes.len() {
        proof {
            lemma_no_event_short(bytes@, pos as int);
        }
        return Option::None;
    }
    let (prior_digest, p4) = match read_prior(bytes, pos) {
        Option::Some(p) => p,
        Option::None => {
            return Option::None;
        },
    };
    let ghost pv: Option<Seq<u8>> = match prior_digest {
        Option::None => Option::None,
        Option::Some(ref d) => Option::Some(d@),
    };
    let has_prior = matches!(prior_digest, Option::Some(_));
    let is_inception = tag == 0;
    if (is_inception != (sequence_number == 0 && !has_prior)) || (!is_inception && (
    sequence_number == 0 || !has_prior)) {
        proof {
            assert(has_prior == (pv is Some));
            lemma_no_event_shape_at(bytes@, pos as int, pv, p4 as int, tag, sequence_number);
        }
        return Option::None;
    }
    let (signing_keys, p5) = match read_list(bytes, p4) {
        Option::Some(p) => p,
        Option::None => {
            proof {
                lemma_no_event_keys_missing(bytes@, pos as int, pv, p4 as int);
            }
            return Option::None;
        },
    };
    if signing_keys.len() == 0 {
        proof {
            assert(list_starts_at(bytes@, p4 as int, bytes_views(signing_keys@)));
            lemma_no_event_keys_empty(
                bytes@,
                pos as int,
                pv,
                p4 as int,
                bytes_views(signing_keys@),
            );
        }
        return Option::None;
    }
    let (next_key_commitment, p6) = match read_item(bytes, p5) {
        Option::Some(p) => p,
        Option::None => {
            proof {
                assert(list_starts_at(bytes@, p4 as int, bytes_views(signing_keys@)));
                lemma_no_event_comm_missing(
                    bytes@,
                    pos as int,
                    pv,
                    p4 as int,
                    bytes_views(signing_keys@),
                    p5 as int,
                );
            }
            return Option::None;
        },
    };
    if next_key_commitment.len() != 32 {
        proof {
            assert(list_starts_at(bytes@, p4 as int, bytes_views(signing_keys@)));
            assert(item_starts_at(bytes@, p5 as int, next_key_commitment@));
            lemma_no_event_comm_len(
                bytes@,
                pos as int,
                pv,
                p4 as int,
                bytes_views(signing_keys@),
                p5 as int,
                next_key_commitment@,
            );
        }
        return Option::None;
    }
    let (signatures, end) = match read_list(bytes, p6) {
        Option::Some(p) => p,
        Option::None => {
            proof {
                lemma_auto_spec_u32_to_from_le_bytes();
                assert(list_starts_at(bytes@, p4 as int, bytes_views(signing_keys@)));
                assert(item_starts_at(bytes@, p5 as int, next_key_commitment@));
                assert(p6 == p5 + 36);
                lemma_no_event_sigs_missing(
                    bytes@,
                    pos as int,
                    pv,
                    p4 as int,
                    bytes_views(signing_keys@),
                    p5 as int,
                    next_key_commitment@,
                    p6 as int,
                );
            }
            return Option::None;
        },
    };
    let e = Event {
        sequence_number,
        event_type,
        prior_digest,
        signing_keys,
        next_key_commitment,
        signatures,
    };
    proof {
        assert(bytes@.subrange(pos as int, pos as int + 1) =~= seq![bytes@[pos as int]]);
        assert(seq![bytes@[pos as int]] == seq![crate::event::type_tag(e@.event_type)]);
        assert(e@.prior_digest == pv);
        assert(bytes@.subrange(p2 as int, p4 as int) == encode_prior(e@.prior_digest));
        assert(bytes@.subrange(pos as int, end as int) =~= bytes@.subrange(
            pos as int,
            pos as int + 1,
        ) + bytes@.subrange(p1 as int, p2 as int) + bytes@.subrange(p2 as int, p4 as int)
            + bytes@.subrange(p4 as int, p5 as int) + bytes@.subrange(p5 as int, p6 as int)
            + bytes@.subrange(p6 as int, end as int));
        assert(bytes@.subrange(pos as int, end as int) =~= encode_event_wire(e@));
    }
    Option::Some((e, end))
}

/// A stream of signed events, encoded one after the other.
pub open spec fn encode_stream(events: Seq<EventModel>) -> Seq<u8>
    decreases events.len(),
{
    if events.len() == 0 {
        Seq::empty()
    } else {
        encode_event_wire(events[0]) + encode_stream(events.drop_first())
    }
}

/// One more event extends a stream's encoding by that event's encoding.
proof fn lemma_stream_push(s: Seq<EventModel>, e: EventModel)
    ensures
        encode_stream(s.push(e)) == encode_stream(s) + encode_event_wire(e),
    decreases s.len(),
{
    let sp = s.push(e);
    assert(encode_stream(sp) == encode_event_wire(sp[0]) + encode_stream(sp.drop_first()));
    if s.len() == 0 {
        assert(sp.drop_first() =~= Seq::<EventModel>::empty());
        assert(encode_stream(Seq::<EventModel>::empty()) == Seq::<u8>::empty());
        assert(sp[0] == e);
        assert(encode_stream(s) == Seq::<u8>::empty());
        assert(encode_event_wire(e) + Seq::<u8>::empty() =~= encode_event_wire(e));
        assert(Seq::<u8>::empty() + encode_event_wire(e) =~= encode_event_wire(e));
    } else {
        lemma_stream_push(s.drop_first(), e);
        assert(sp.drop_first() =~= s.drop_first().push(e));
        assert(sp[0] == s[0]);
        assert(encode_stream(s) == encode_event_wire(s[0]) + encode_stream(s.drop_first()));
        assert(encode_event_wire(s[0]) + (encode_stream(s.drop_first()) + encode_event_wire(e))
            =~= (encode_event_wire(s[0]) + encode_stream(s.drop_first())) + encode_event_wire(
            e,
        ));
    }
}

/// Encodes a whole log as one stream of signed events, as the key log
/// read path serves it.
pub fn encode_event_stream_bytes(events: &Vec<Event>) -> (r: Vec<u8>)
    requires
        forall|i: int| 0 <= i < events@.len() ==> well_formed_event((#[trigger] events@[i])@),
    ensures
        r@ == encode_stream(event_models(events@)),
{
    let mut out: Vec<u8> = Vec::new();
    let n = events.len();
    let mut i: usize = 0;
    while i < n
        invariant
            i <= n,
            n == events@.len(),
            forall|j: int| 0 <= j < events@.len() ==> well_formed_event((#[trigger] events@[j])@),
            out@ == encode_stream(event_models(events@).take(i as int)),
        decreases n - i,
    {
        proof {
            assert(event_models(events@)[i as int] == events@[i as int]@);
        }
        let mut w = encode_event_wire_bytes(&events[i]);
        out.append(&mut w);
        proof {
            assert(event_models(events@).take(i as int + 1) =~= event_models(events@).take(
                i as int,
            ).push(events@[i as int]@));
            lemma_stream_push(event_models(events@).take(i as int), events@[i as int]@);
        }
        i = i + 1;
    }
    proof {
        assert(event_models(events@).take(n as int) =~= event_models(events@));
    }
    out
}

/// A parsed prefix of a stream is a prefix of the events: the event
/// sequence whose encoding starts the stream is determined position by
/// position.
pub proof fn lemma_stream_prefix(p: Seq<EventModel>, evs: Seq<EventModel>, r: Seq<u8>)
    requires
        all_well_formed(p),
        all_well_formed(evs),
        encode_stream(p) + r == encode_stream(evs),
    ensures
        p.len() <= evs.len(),
        p == evs.take(p.len() as int),
        r == encode_stream(evs.skip(p.len() as int)),
    decreases p.len(),
{
    if p.len() == 0 {
        assert(encode_stream(p) == Seq::<u8>::empty());
        assert(r =~= encode_stream(evs));
        assert(p =~= evs.take(0));
        assert(evs.skip(0) =~= evs);
    } else {
        assert(encode_stream(p) == encode_event_wire(p[0]) + encode_stream(p.drop_first()));
        assert(encode_event_wire(p[0]).len() >= 1);
        if evs.len() == 0 {
            assert(encode_stream(evs) == Seq::<u8>::empty());
            assert(false);
        }
        assert(encode_stream(evs) == encode_event_wire(evs[0]) + encode_stream(
            evs.drop_first(),
        ));
        assert((encode_event_wire(p[0]) + encode_stream(p.drop_first())) + r
            =~= encode_event_wire(p[0]) + (encode_stream(p.drop_first()) + r));
        lemma_event_det(p[0], evs[0], encode_stream(p.drop_first()) + r, encode_stream(
            evs.drop_first(),
        ));
        assert forall|i: int| 0 <= i < p.drop_first().len() implies well_formed_event(
            #[trigger] p.drop_first()[i],
        ) by {
            assert(p.drop_first()[i] == p[i + 1]);
        }
        assert forall|i: int| 0 <= i < evs.drop_first().len() implies well_formed_event(
            #[trigger] evs.drop_first()[i],
        ) by {
            assert(evs.drop_first()[i] == evs[i + 1]);
        }
        lemma_stream_prefix(p.drop_first(), evs.drop_first(), r);
        assert forall|i: int| 0 <= i < p.len() implies p[i] == evs.take(p.len() as int)[i] by {
            if i > 0 {
                assert(p.drop_first()[i - 1] == evs.drop_first().take(
                    p.len() as int - 1,
                )[i - 1]);
                assert(evs.drop_first()[i - 1] == evs[i]);
            }
        }
        assert(p =~= evs.take(p.len() as int));
        assert(evs.drop_first().skip(p.len() as int - 1) =~= evs.skip(p.len() as int));
    }
}

/// Law: the stream encoding of well-formed events is injective — equal
/// encodings mean equal event sequences. Together with the parser's
/// soundness and completeness this closes the write-then-read round trip:
/// a stored log, re-encoded and parsed back, yields exactly the stored
/// events.
pub proof fn lemma_encode_stream_injective(l1: Seq<EventModel>, l2: Seq<EventModel>)
    requires
        all_well_formed(l1),
        all_well_formed(l2),
        encode_stream(l1) == encode_stream(l2),
    ensures
        l1 == l2,
{
    assert(encode_stream(l1) + Seq::<u8>::empty() =~= encode_stream(l2));
    lemma_stream_prefix(l1, l2, Seq::empty());
    if l1.len() < l2.len() {
        let rest = l2.skip(l1.len() as int);
        assert(encode_stream(rest) == encode_event_wire(rest[0]) + encode_stream(
            rest.drop_first(),
        ));
        assert(encode_event_wire(rest[0]).len() >= 1);
        assert(false);
    }
    assert(l2.take(l1.len() as int) =~= l2);
}

/// Parses a whole message body as a stream of signed events. On success,
/// the body is byte for byte the encoding of the returned events and each
/// of them is well formed; any deviation, anywhere in the stream, rejects
/// the whole body.
pub fn parse_event_stream(bytes: &Vec<u8>) -> (r: Option<Vec<Event>>)
    ensures
        match r {
            Option::Some(events) => bytes@ == encode_stream(event_models(events@)) && forall|
                i: int,
            |
                0 <= i < events@.len() ==> well_formed_event((#[trigger] events@[i])@),
            Option::None => forall|evs: Seq<EventModel>|
                all_well_formed(evs) ==> bytes@ != #[trigger] encode_stream(evs),
        },
{
    let mut events: Vec<Event> = Vec::new();
    let mut pos: usize = 0;
    let n = bytes.len();
    while pos < n
        invariant
            pos <= n,
            n == bytes@.len(),
            bytes@.subrange(0, pos as int) == encode_stream(event_models(events@)),
            forall|i: int| 0 <= i < events@.len() ==> well_formed_event((#[trigger] events@[i])@),
        decreases n - pos,
    {
        match parse_event(bytes, pos) {
            Option::None => {
                proof {
                    let n_int = bytes@.len() as int;
                    assert forall|evs: Seq<EventModel>| all_well_formed(evs) implies bytes@ != (
                    #[trigger] encode_stream(evs)) by {
                        if bytes@ == encode_stream(evs) {
                            let p = event_models(events@);
                            assert(all_well_formed(p));
                            assert(encode_stream(p).len() == pos);
                            assert forall|k: int| 0 <= k < pos implies bytes@[k]
                                == encode_stream(p)[k] by {
                                assert(bytes@.subrange(0, pos as int)[k] == encode_stream(p)[k]);
                                assert(bytes@.subrange(0, pos as int)[k] == bytes@[k]);
                            }
                            assert(encode_stream(p) + bytes@.subrange(pos as int, n_int)
                                =~= encode_stream(evs));
                            lemma_stream_prefix(p, evs, bytes@.subrange(pos as int, n_int));
                            let kk = p.len() as int;
                            let rest = evs.skip(kk);
                            if rest.len() == 0 {
                                assert(encode_stream(rest) == Seq::<u8>::empty());
                                assert(false);
                            } else {
                                assert(encode_stream(rest) == encode_event_wire(rest[0])
                                    + encode_stream(rest.drop_first()));
                                assert(rest[0] == evs[kk]);
                                assert(well_formed_event(evs[kk]));
                                let wlen = encode_event_wire(evs[kk]).len() as int;
                                assert(pos + wlen <= n_int);
                                assert forall|j: int| 0 <= j < wlen implies bytes@[pos as int + j]
                                    == encode_event_wire(evs[kk])[j] by {
                                    assert(bytes@.subrange(pos as int, n_int)[j] == bytes@[
                                        pos as int + j
                                    ]);
                                    assert((encode_event_wire(rest[0]) + encode_stream(
                                        rest.drop_first(),
                                    ))[j] == encode_event_wire(evs[kk])[j]);
                                }
                                assert(bytes@.subrange(pos as int, pos as int + wlen)
                                    =~= encode_event_wire(evs[kk]));
                                assert(event_starts_at(bytes@, pos as int, evs[kk]));
                                assert(false);
                            }
                        }
                    }
                }
                return Option::None;
            },
            Option::Some((e, next)) => {
                proof {
                    assert(event_models(events@.push(e)) =~= event_models(events@).push(e@));
                    lemma_stream_push(event_models(events@), e@);
                    assert(bytes@.subrange(0, next as int) =~= bytes@.subrange(0, pos as int)
                        + bytes@.subrange(pos as int, next as int));
                }
                events.push(e);
                pos = next;
            },
        }
    }
    proof {
        assert(bytes@.subrange(0, n as int) =~= bytes@);
    }
    Option::Some(events)
}

} // verus!
