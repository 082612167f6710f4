use ed25519_dalek::{Signer, SigningKey};
use sha3::{Digest, Sha3_256};
use witness_node::codec::{
    encode_event_body_bytes, encode_event_stream_bytes, encode_event_wire_bytes, event_digest,
    key_commitment, parse_event_stream,
};
use witness_node::store::EventLogStore;
use witness_node::directory::get_dht_key;
use witness_node::event::{Event, EventType};
use witness_node::resolve::{Lookup, LookupAction, LookupEvent, LookupOutcome};
use witness_node::witness::{WitnessRegistry, WriteOutcome};

fn signing_key(seed: u8) -> SigningKey {
    SigningKey::from_bytes(&[seed; 32])
}

fn public_key(sk: &SigningKey) -> Vec<u8> {
    sk.verifying_key().to_bytes().to_vec()
}

fn inception(sk: &SigningKey, next: &SigningKey) -> Event {
    let mut e = Event {
        sequence_number: 0,
        event_type: EventType::Inception,
        prior_digest: None,
        signing_keys: vec![public_key(sk)],
        next_key_commitment: key_commitment(&vec![public_key(next)]),
        signatures: vec![],
    };
    let body = encode_event_body_bytes(&e);
    e.signatures = vec![sk.sign(&body).to_bytes().to_vec()];
    e
}

fn rotation(seq: u64, prior: &Event, current: &SigningKey, new: &SigningKey, next: &SigningKey) -> Event {
    let mut e = Event {
        sequence_number: seq,
        event_type: EventType::Rotation,
        prior_digest: Some(event_digest(prior)),
        signing_keys: vec![public_key(new)],
        next_key_commitment: key_commitment(&vec![public_key(next)]),
        signatures: vec![],
    };
    let body = encode_event_body_bytes(&e);
    e.signatures = vec![current.sign(&body).to_bytes().to_vec()];
    e
}

fn assert_events_equal(x: &Event, y: &Event) {
    assert_eq!(x.sequence_number, y.sequence_number);
    assert_eq!(
        std::mem::discriminant(&x.event_type),
        std::mem::discriminant(&y.event_type)
    );
    assert_eq!(x.prior_digest, y.prior_digest);
    assert_eq!(x.signing_keys, y.signing_keys);
    assert_eq!(x.next_key_commitment, y.next_key_commitment);
    assert_eq!(x.signatures, y.signatures);
}

#[test]
fn stream_round_trip() {
    let a = signing_key(1);
    let b = signing_key(2);
    let c = signing_key(3);
    let icp = inception(&a, &b);
    let rot = rotation(1, &icp, &a, &b, &c);

    let mut stream = encode_event_wire_bytes(&icp);
    stream.extend_from_slice(&encode_event_wire_bytes(&rot));

    let parsed = parse_event_stream(&stream).expect("stream parses");
    assert_eq!(parsed.len(), 2);
    assert_events_equal(&parsed[0], &icp);
    assert_events_equal(&parsed[1], &rot);
}

#[test]
fn accepted_log_reads_back_as_the_same_events() {
    let a = signing_key(1);
    let b = signing_key(2);
    let c = signing_key(3);
    let id = b"issuer-rt".to_vec();
    let icp = inception(&a, &b);
    let rot = rotation(1, &icp, &a, &b, &c);

    // Write path: the submitted stream is accepted event by event.
    let mut submitted = encode_event_wire_bytes(&icp);
    submitted.extend_from_slice(&encode_event_wire_bytes(&rot));
    let events = parse_event_stream(&submitted).expect("submitted stream parses");
    let mut store = EventLogStore::new();
    assert_eq!(store.append_all(&id, events), Ok(()));

    // Read path: the served body parses back to exactly the same events,
    // in the same order.
    let served = encode_event_stream_bytes(store.get_log(&id).expect("log present"));
    let read_back = parse_event_stream(&served).expect("served stream parses");
    assert_eq!(read_back.len(), 2);
    assert_events_equal(&read_back[0], &icp);
    assert_events_equal(&read_back[1], &rot);
    assert_eq!(served, submitted);
}

#[test]
fn empty_stream_parses_to_no_events() {
    let parsed = parse_event_stream(&Vec::new()).expect("empty stream parses");
    assert_eq!(parsed.len(), 0);
}

#[test]
fn garbage_stream_rejected() {
    assert!(parse_event_stream(&vec![0xffu8, 1, 2, 3]).is_none());
}

#[test]
fn truncated_stream_rejected() {
    let a = signing_key(1);
    let b = signing_key(2);
    let icp = inception(&a, &b);
    let mut stream = encode_event_wire_bytes(&icp);
    stream.pop();
    assert!(parse_event_stream(&stream).is_none());
}

#[test]
fn tampered_shape_rejected() {
    let a = signing_key(1);
    let b = signing_key(2);
    let icp = inception(&a, &b);
    let mut stream = encode_event_wire_bytes(&icp);
    // An inception claiming sequence number 1 is not well formed.
    stream[1] = 1;
    assert!(parse_event_stream(&stream).is_none());
}

#[test]
fn dht_key_is_sha3_of_input() {
    let id = b"issuer-1".to_vec();
    let key = get_dht_key(&id);
    let expected: Vec<u8> = Sha3_256::digest(id.as_slice()).to_vec();
    assert_eq!(key, expected);
    assert_eq!(key.len(), 32);
    // One-way mapping: the key is not the identifier itself.
    assert_ne!(key, id);
    assert_ne!(key, get_dht_key(&b"issuer-2".to_vec()));
}

#[test]
fn event_digest_matches_sha3_of_body() {
    let a = signing_key(1);
    let b = signing_key(2);
    let icp = inception(&a, &b);
    let body = encode_event_body_bytes(&icp);
    let expected: Vec<u8> = Sha3_256::digest(body.as_slice()).to_vec();
    assert_eq!(event_digest(&icp), expected);
}

#[test]
fn lookup_local_hit_finishes_without_network() {
    let lk = Lookup::start();
    let (lk, action) = lk.step(LookupEvent::LocalResult {
        value: Some(b"state".to_vec()),
    });
    match action {
        LookupAction::Finish {
            outcome: LookupOutcome::Found { value },
        } => assert_eq!(value, b"state".to_vec()),
        _ => panic!("expected an immediate finish"),
    }
    assert!(matches!(
        lk,
        Lookup::Done {
            outcome: LookupOutcome::Found { .. }
        }
    ));
}

#[test]
fn lookup_falls_back_to_directory_and_remote() {
    let lk = Lookup::start();
    let (lk, action) = lk.step(LookupEvent::LocalResult { value: None });
    assert!(matches!(action, LookupAction::AskDirectory));
    let (lk, action) = lk.step(LookupEvent::DirectoryResult {
        address: Some(b"10.0.0.7:9599".to_vec()),
    });
    match action {
        LookupAction::FetchRemote { address } => assert_eq!(address, b"10.0.0.7:9599".to_vec()),
        _ => panic!("expected a remote fetch"),
    }
    let (_lk, action) = lk.step(LookupEvent::RemoteResult {
        value: Some(b"fetched".to_vec()),
    });
    match action {
        LookupAction::Finish {
            outcome: LookupOutcome::Found { value },
        } => assert_eq!(value, b"fetched".to_vec()),
        _ => panic!("expected the fetched value"),
    }
}

#[test]
fn lookup_unreachable_peer_degrades_to_not_found() {
    let lk = Lookup::start();
    let (lk, _) = lk.step(LookupEvent::LocalResult { value: None });
    let (lk, _) = lk.step(LookupEvent::DirectoryResult {
        address: Some(b"10.0.0.7:9599".to_vec()),
    });
    let (_lk, action) = lk.step(LookupEvent::RemoteResult { value: None });
    assert!(matches!(
        action,
        LookupAction::Finish {
            outcome: LookupOutcome::NotFound
        }
    ));
}

#[test]
fn lookup_directory_miss_is_not_found() {
    let lk = Lookup::start();
    let (lk, _) = lk.step(LookupEvent::LocalResult { value: None });
    let (_lk, action) = lk.step(LookupEvent::DirectoryResult { address: None });
    assert!(matches!(
        action,
        LookupAction::Finish {
            outcome: LookupOutcome::NotFound
        }
    ));
}

#[test]
fn witness_address_created_then_updated() {
    let id = b"witness-w".to_vec();
    let mut reg = WitnessRegistry::new();
    assert!(reg.get(&id).is_none());
    assert_eq!(reg.put(&id, b"1.2.3.4:9599".to_vec()), WriteOutcome::Created);
    assert_eq!(reg.get(&id).expect("address present"), &b"1.2.3.4:9599".to_vec());
    assert_eq!(reg.put(&id, b"5.6.7.8:9599".to_vec()), WriteOutcome::Updated);
    assert_eq!(reg.get(&id).expect("address present"), &b"5.6.7.8:9599".to_vec());
    // Other identifiers are untouched.
    assert!(reg.get(&b"witness-v".to_vec()).is_none());
}
