use vstd::prelude::*;
use crate::event::{
    EventModel, EventType, digest_of_event, commitment_of_keys, well_formed_event,
    encode_event_body,
};
use crate::process::{StateModel, ProcessError, spec_process, authenticated};
use crate::store::{
    EventLogStore, spec_replay, spec_entry_at, event_models, entry_wf, lemma_replay_chain,
    lemma_replay_events_well_formed,
};
use crate::codec::all_well_formed;
use crate::resolve::{
    PhaseModel, OutcomeModel, ActionModel, LookupEventModel, spec_step,
};

verus! {

/// Law: the key state a coherent store serves for an identifier is exactly
/// what replaying that identifier's full log from empty state yields; the
/// replay is a function of the log alone, so it deterministically
/// reproduces the served state.
pub proof fn lemma_state_is_replay_of_log(s: &EventLogStore, id: Seq<u8>)
    requires
        s.wf(),
    ensures
        s.spec_get_log(id) matches Some(log) ==> (s.spec_get_state(id) matches Some(st)
            && spec_replay(log) == Result::<Option<StateModel>, ProcessError>::Ok(
            Option::Some(st),
        )),
{
}

/// Law: chain integrity. In a stored log, every event after the first
/// chains to its immediate predecessor: its prior digest is exactly the
/// digest of the event before it.
pub proof fn lemma_stored_log_is_hash_chain(s: &EventLogStore, id: Seq<u8>)
    requires
        s.wf(),
    ensures
        s.spec_get_log(id) matches Some(log) ==> forall|i: int|
            0 < i < log.len() ==> (#[trigger] log[i]).prior_digest == Option::Some(
                digest_of_event(log[i - 1]),
            ),
{
    if spec_entry_at(s.entries@, id) is Some {
        let c = choose|k: int|
            0 <= k < s.entries@.len() && (#[trigger] s.entries@[k]).identifier@ == id;
        let en = s.entries@[c];
        assert(entry_wf(en));
        let log = event_models(en.events@);
        assert(forall|i: int|
            0 <= i < log.len() ==> (#[trigger] log[i]).sequence_number == i);
        lemma_replay_chain(log);
    }
}

/// Law: every event a coherent store serves in a log is well formed — each
/// replay step accepted it — so a served log can always be re-encoded as a
/// stream for the wire.
pub proof fn lemma_stored_log_events_well_formed(s: &EventLogStore, id: Seq<u8>)
    requires
        s.wf(),
    ensures
        s.spec_get_log(id) matches Some(log) ==> all_well_formed(log),
{
    if spec_entry_at(s.entries@, id) is Some {
        let c = choose|k: int|
            0 <= k < s.entries@.len() && (#[trigger] s.entries@[k]).identifier@ == id;
        let en = s.entries@[c];
        assert(entry_wf(en));
        lemma_replay_events_well_formed(event_models(en.events@));
    }
}

/// Law: a stored log never holds two events with the same sequence number,
/// so serialized appends (one at a time per identifier) can never have
/// produced a duplicate position.
pub proof fn lemma_no_equal_sequence_numbers(s: &EventLogStore, id: Seq<u8>)
    requires
        s.wf(),
    ensures
        s.spec_get_log(id) matches Some(log) ==> forall|i: int, j: int|
            0 <= i < j < log.len() ==> (#[trigger] log[i]).sequence_number != (
            #[trigger] log[j]).sequence_number,
{
}

/// Law: submitting the already-accepted last event again — any event whose
/// digest equals the digest of the last accepted event — is a no-op: the
/// fold returns the current state unchanged rather than an error.
pub proof fn lemma_duplicate_is_noop(st: StateModel, e: EventModel)
    requires
        well_formed_event(e),
        digest_of_event(e) == st.last_event_digest,
    ensures
        spec_process(Option::Some(st), e) == Result::<StateModel, ProcessError>::Ok(st),
{
}

/// Law: a fresh event whose sequence number is not the successor of the
/// current one is rejected with `OutOfOrder`.
pub proof fn lemma_out_of_order_rejected(st: StateModel, e: EventModel)
    requires
        well_formed_event(e),
        digest_of_event(e) != st.last_event_digest,
        e.sequence_number != st.sequence_number + 1,
    ensures
        spec_process(Option::Some(st), e) == Result::<StateModel, ProcessError>::Err(
            ProcessError::OutOfOrder,
        ),
{
}

/// Law: a fresh, rightly numbered event whose prior digest does not match
/// the digest of the current last event is rejected with `ForkConflict`.
pub proof fn lemma_fork_conflict_rejected(st: StateModel, e: EventModel)
    requires
        well_formed_event(e),
        digest_of_event(e) != st.last_event_digest,
        e.sequence_number == st.sequence_number + 1,
        e.prior_digest != Option::Some(st.last_event_digest),
    ensures
        spec_process(Option::Some(st), e) == Result::<StateModel, ProcessError>::Err(
            ProcessError::ForkConflict,
        ),
{
}

/// Law: a rotation that passes the ordering, chaining and authentication
/// checks but whose new keys do not hash to the prior state's next-key
/// commitment is rejected with `CommitmentMismatch`.
pub proof fn lemma_commitment_mismatch_rejected(st: StateModel, e: EventModel)
    requires
        well_formed_event(e),
        digest_of_event(e) != st.last_event_digest,
        e.sequence_number == st.sequence_number + 1,
        e.prior_digest == Option::Some(st.last_event_digest),
        authenticated(st.signing_keys, encode_event_body(e), e.signatures),
        e.event_type == EventType::Rotation,
        commitment_of_keys(e.signing_keys) != st.next_key_commitment,
    ensures
        spec_process(Option::Some(st), e) == Result::<StateModel, ProcessError>::Err(
            ProcessError::CommitmentMismatch,
        ),
{
}

/// Law: a lookup whose local query answers finishes at once with that
/// value; it issues no directory query and no remote fetch.
pub proof fn lemma_local_hit_stays_local(v: Seq<u8>)
    ensures
        spec_step(
            PhaseModel::AtLocal,
            LookupEventModel::LocalResult { value: Option::Some(v) },
        ) == (
            PhaseModel::Done { outcome: OutcomeModel::Found { value: v } },
            ActionModel::Finish { outcome: OutcomeModel::Found { value: v } },
        ),
{
}

/// Law: on a local miss the lookup asks the directory; with an address in
/// hand it fetches from that peer; a successful fetch returns the fetched
/// value, and an unreachable peer degrades to not-found instead of failing
/// the request.
pub proof fn lemma_remote_fallback(addr: Seq<u8>, fetched: Option<Seq<u8>>)
    ensures
        spec_step(PhaseModel::AtLocal, LookupEventModel::LocalResult { value: Option::None })
            == (PhaseModel::AtDirectory, ActionModel::AskDirectory),
        spec_step(
            PhaseModel::AtDirectory,
            LookupEventModel::DirectoryResult { address: Option::Some(addr) },
        ) == (
            PhaseModel::AtRemote { address: addr },
            ActionModel::FetchRemote { address: addr },
        ),
        spec_step(
            PhaseModel::AtRemote { address: addr },
            LookupEventModel::RemoteResult { value: fetched },
        ).0 == (match fetched {
            Option::Some(v) => PhaseModel::Done { outcome: OutcomeModel::Found { value: v } },
            Option::None => PhaseModel::Done { outcome: OutcomeModel::NotFound },
        }),
{
}

/// Law: a lookup that misses locally and finds no directory entry is
/// terminally not-found.
pub proof fn lemma_directory_miss_not_found()
    ensures
        spec_step(
            PhaseModel::AtDirectory,
            LookupEventModel::DirectoryResult { address: Option::None },
        ) == (
            PhaseModel::Done { outcome: OutcomeModel::NotFound },
            ActionModel::Finish { outcome: OutcomeModel::NotFound },
        ),
{
}

} // verus!
