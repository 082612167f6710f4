use ed25519_dalek::{Signer, SigningKey};
use witness_node::codec::{encode_event_body_bytes, event_digest, key_commitment};
use witness_node::event::{Event, EventType};
use witness_node::process::{process, ProcessError};
use witness_node::store::{AppendOutcome, EventLogStore};

fn signing_key(seed: u8) -> SigningKey {
    SigningKey::from_bytes(&[seed; 32])
}

fn public_key(sk: &SigningKey) -> Vec<u8> {
    sk.verifying_key().to_bytes().to_vec()
}

fn sign_event(e: &mut Event, sk: &SigningKey) {
    let body = encode_event_body_bytes(e);
    e.signatures = vec![sk.sign(&body).to_bytes().to_vec()];
}

/// An inception for the key of `sk`, committing to the keys of `next`.
fn inception(sk: &SigningKey, next: &SigningKey) -> Event {
    let mut e = Event {
        sequence_number: 0,
        event_type: EventType::Inception,
        prior_digest: None,
        signing_keys: vec![public_key(sk)],
        next_key_commitment: key_commitment(&vec![public_key(next)]),
        signatures: vec![],
    };
    sign_event(&mut e, sk);
    e
}

/// A rotation to the keys of `new`, committing next to `next`, chained to
/// `prior` and signed by the currently authoritative `current`.
fn rotation(
    seq: u64,
    prior: &Event,
    current: &SigningKey,
    new: &SigningKey,
    next: &SigningKey,
) -> Event {
    let mut e = Event {
        sequence_number: seq,
        event_type: EventType::Rotation,
        prior_digest: Some(event_digest(prior)),
        signing_keys: vec![public_key(new)],
        next_key_commitment: key_commitment(&vec![public_key(next)]),
        signatures: vec![],
    };
    sign_event(&mut e, current);
    e
}

fn interaction(seq: u64, prior: &Event, state_keys: &Event, current: &SigningKey) -> Event {
    let mut e = Event {
        sequence_number: seq,
        event_type: EventType::Interaction,
        prior_digest: Some(event_digest(prior)),
        signing_keys: state_keys.signing_keys.clone(),
        next_key_commitment: state_keys.next_key_commitment.clone(),
        signatures: vec![],
    };
    sign_event(&mut e, current);
    e
}

#[test]
fn inception_establishes_state() {
    let a = signing_key(1);
    let b = signing_key(2);
    let icp = inception(&a, &b);
    let st = process(None, &icp).expect("inception accepted");
    assert_eq!(st.sequence_number, 0);
    assert_eq!(st.signing_keys, vec![public_key(&a)]);
    assert_eq!(st.next_key_commitment, key_commitment(&vec![public_key(&b)]));
    assert_eq!(st.last_event_digest, event_digest(&icp));
}

#[test]
fn inception_then_rotations_replay_reproduces_state() {
    let a = signing_key(1);
    let b = signing_key(2);
    let c = signing_key(3);
    let id = b"issuer-1".to_vec();
    let icp = inception(&a, &b);
    let rot1 = rotation(1, &icp, &a, &b, &c);
    let rot2 = rotation(2, &rot1, &b, &c, &a);

    let mut store = EventLogStore::new();
    assert_eq!(store.append(&id, icp.clone()), Ok(AppendOutcome::Accepted));
    assert_eq!(store.append(&id, rot1.clone()), Ok(AppendOutcome::Accepted));
    assert_eq!(store.append(&id, rot2.clone()), Ok(AppendOutcome::Accepted));

    let st = store.get_state(&id).expect("state present");
    assert_eq!(st.sequence_number, 2);
    assert_eq!(st.signing_keys, vec![public_key(&c)]);
    assert_eq!(st.last_event_digest, event_digest(&rot2));
    assert_eq!(store.get_log(&id).expect("log present").len(), 3);

    // Replaying the same log from an empty store reproduces the state.
    let mut replayed = EventLogStore::new();
    for e in [icp, rot1, rot2] {
        assert_eq!(replayed.append(&id, e), Ok(AppendOutcome::Accepted));
    }
    let st2 = replayed.get_state(&id).expect("state present");
    assert_eq!(st2.sequence_number, st.sequence_number);
    assert_eq!(st2.signing_keys, st.signing_keys);
    assert_eq!(st2.next_key_commitment, st.next_key_commitment);
    assert_eq!(st2.last_event_digest, st.last_event_digest);
}

#[test]
fn duplicate_event_is_noop() {
    let a = signing_key(1);
    let b = signing_key(2);
    let id = b"issuer-dup".to_vec();
    let icp = inception(&a, &b);

    let mut store = EventLogStore::new();
    assert_eq!(store.append(&id, icp.clone()), Ok(AppendOutcome::Accepted));
    assert_eq!(store.append(&id, icp.clone()), Ok(AppendOutcome::Duplicate));
    let st = store.get_state(&id).expect("state present");
    assert_eq!(st.sequence_number, 0);
    assert_eq!(store.get_log(&id).expect("log present").len(), 1);
}

#[test]
fn out_of_order_rejected() {
    let a = signing_key(1);
    let b = signing_key(2);
    let c = signing_key(3);
    let id = b"issuer-ooo".to_vec();
    let icp = inception(&a, &b);
    // Sequence number 2 where 1 is owed.
    let skip = rotation(2, &icp, &a, &b, &c);

    let mut store = EventLogStore::new();
    assert_eq!(store.append(&id, icp), Ok(AppendOutcome::Accepted));
    assert_eq!(store.append(&id, skip), Err(ProcessError::OutOfOrder));
    let st = store.get_state(&id).expect("state present");
    assert_eq!(st.sequence_number, 0);
    assert_eq!(store.get_log(&id).expect("log present").len(), 1);
}

#[test]
fn fork_conflict_rejected() {
    let a = signing_key(1);
    let b = signing_key(2);
    let c = signing_key(3);
    let id = b"issuer-fork".to_vec();
    let icp = inception(&a, &b);
    let other = inception(&c, &b);
    // Right position, but chained to a different event.
    let fork = rotation(1, &other, &a, &b, &c);

    let mut store = EventLogStore::new();
    assert_eq!(store.append(&id, icp), Ok(AppendOutcome::Accepted));
    assert_eq!(store.append(&id, fork), Err(ProcessError::ForkConflict));
    assert_eq!(store.get_log(&id).expect("log present").len(), 1);
}

#[test]
fn commitment_mismatch_rejected() {
    let a = signing_key(1);
    let b = signing_key(2);
    let c = signing_key(3);
    let id = b"issuer-commit".to_vec();
    let icp = inception(&a, &b);
    // Rotation to a key set that does not hash to the standing commitment.
    let bad = rotation(1, &icp, &a, &c, &b);

    let mut store = EventLogStore::new();
    assert_eq!(store.append(&id, icp), Ok(AppendOutcome::Accepted));
    assert_eq!(store.append(&id, bad), Err(ProcessError::CommitmentMismatch));
}

#[test]
fn authentication_failure_rejected() {
    let a = signing_key(1);
    let b = signing_key(2);
    let c = signing_key(3);
    let id = b"issuer-auth".to_vec();
    let icp = inception(&a, &b);
    // Rotation signed by a key that is not currently authoritative.
    let bad = rotation(1, &icp, &c, &b, &c);

    let mut store = EventLogStore::new();
    assert_eq!(store.append(&id, icp), Ok(AppendOutcome::Accepted));
    assert_eq!(
        store.append(&id, bad),
        Err(ProcessError::AuthenticationFailure)
    );
}

#[test]
fn malformed_inception_rejected() {
    let a = signing_key(1);
    let b = signing_key(2);
    let mut e = inception(&a, &b);
    e.sequence_number = 1;
    sign_event(&mut e, &a);
    assert!(matches!(process(None, &e), Err(ProcessError::Malformed)));
}

#[test]
fn non_inception_on_fresh_identifier_rejected() {
    let a = signing_key(1);
    let b = signing_key(2);
    let c = signing_key(3);
    let icp = inception(&a, &b);
    let rot = rotation(1, &icp, &a, &b, &c);
    assert!(matches!(process(None, &rot), Err(ProcessError::OutOfOrder)));
}

#[test]
fn interaction_keeps_keys() {
    let a = signing_key(1);
    let b = signing_key(2);
    let id = b"issuer-ixn".to_vec();
    let icp = inception(&a, &b);
    let ixn = interaction(1, &icp, &icp, &a);

    let mut store = EventLogStore::new();
    assert_eq!(store.append(&id, icp.clone()), Ok(AppendOutcome::Accepted));
    assert_eq!(store.append(&id, ixn.clone()), Ok(AppendOutcome::Accepted));
    let st = store.get_state(&id).expect("state present");
    assert_eq!(st.sequence_number, 1);
    assert_eq!(st.signing_keys, icp.signing_keys);
    assert_eq!(st.next_key_commitment, icp.next_key_commitment);
    assert_eq!(st.last_event_digest, event_digest(&ixn));
}

#[test]
fn appends_to_different_identifiers_are_independent() {
    let a = signing_key(1);
    let b = signing_key(2);
    let c = signing_key(3);
    let id1 = b"issuer-x".to_vec();
    let id2 = b"issuer-y".to_vec();
    let icp1 = inception(&a, &b);
    let icp2 = inception(&c, &b);

    let mut store = EventLogStore::new();
    assert_eq!(store.append(&id1, icp1.clone()), Ok(AppendOutcome::Accepted));
    assert_eq!(store.append(&id2, icp2.clone()), Ok(AppendOutcome::Accepted));
    assert_eq!(
        store.get_state(&id1).expect("state present").signing_keys,
        vec![public_key(&a)]
    );
    assert_eq!(
        store.get_state(&id2).expect("state present").signing_keys,
        vec![public_key(&c)]
    );
    assert!(store.get_state(&b"issuer-z".to_vec()).is_none());
}

#[test]
fn append_all_stops_at_first_rejection() {
    let a = signing_key(1);
    let b = signing_key(2);
    let c = signing_key(3);
    let id = b"issuer-batch".to_vec();
    let icp = inception(&a, &b);
    let rot1 = rotation(1, &icp, &a, &b, &c);
    let bad = rotation(3, &rot1, &b, &c, &a);

    let mut store = EventLogStore::new();
    assert_eq!(
        store.append_all(&id, vec![icp, rot1]),
        Ok(())
    );
    assert_eq!(store.get_state(&id).expect("state present").sequence_number, 1);

    let rot2_missing = vec![bad];
    assert_eq!(
        store.append_all(&id, rot2_missing),
        Err(ProcessError::OutOfOrder)
    );
    // The earlier events stay stored.
    assert_eq!(store.get_log(&id).expect("log present").len(), 2);
}
