use vstd::prelude::*;
use crate::event::{Event, EventModel, well_formed_event};
use crate::process::{
    KeyState, StateModel, ProcessError, spec_process, process, clone_bytes,
};

verus! {

/// The log and cached key state the store keeps for one identifier. The
/// cached state is an optimization: it always equals the fold of the log.
pub struct LogEntry {
    pub identifier: Vec<u8>,
    pub events: Vec<Event>,
    pub state: KeyState,
}

/// Append-only, per-identifier storage of accepted events and the key state
/// derived from them.
pub struct EventLogStore {
    pub entries: Vec<LogEntry>,
}

/// The models of a list of events.
pub open spec fn event_models(events: Seq<Event>) -> Seq<EventModel> {
    events.map_values(|e: Event| e@)
}

/// Replaying a whole log from empty state: the fold of `spec_process` over
/// the events in order.
pub open spec fn spec_replay(events: Seq<EventModel>) -> Result<
    Option<StateModel>,
    ProcessError,
>
    decreases events.len(),
{
    if events.len() == 0 {
        Result::Ok(Option::None)
    } else {
        match spec_replay(events.drop_last()) {
            Result::Ok(st) => match spec_process(st, events.last()) {
                Result::Ok(s) => Result::Ok(Option::Some(s)),
                Result::Err(e) => Result::Err(e),
            },
            Result::Err(e) => Result::Err(e),
        }
    }
}

/// A stored entry is coherent: at least one event, sequence numbers equal
/// to list positions with no gap, the cached state at the tail position,
/// and the cached state exactly the result of replaying the log.
pub open spec fn entry_wf(en: LogEntry) -> bool {
    &&& en.events@.len() >= 1
    &&& forall|i: int|
        0 <= i < en.events@.len() ==> (#[trigger] en.events@[i])@.sequence_number == i
    &&& en.state@.sequence_number + 1 == en.events@.len()
    &&& spec_replay(event_models(en.events@)) == Result::<
        Option<StateModel>,
        ProcessError,
    >::Ok(Option::Some(en.state@))
}

/// No two entries hold the same identifier.
pub open spec fn unique_ids(s: Seq<LogEntry>) -> bool {
    forall|i: int, j: int|
        0 <= i < j < s.len() ==> (#[trigger] s[i]).identifier@ != (#[trigger] s[j]).identifier@
}

/// The entry stored under an identifier, if any.
pub open spec fn spec_entry_at(s: Seq<LogEntry>, id: Seq<u8>) -> Option<LogEntry> {
    if exists|k: int| 0 <= k < s.len() && (#[trigger] s[k]).identifier@ == id {
        Option::Some(s[choose|k: int| 0 <= k < s.len() && (#[trigger] s[k]).identifier@ == id])
    } else {
        Option::None
    }
}

/// With unique identifiers, the entry found under an identifier is the one
/// at any index that carries it.
pub proof fn lemma_entry_at_is(s: Seq<LogEntry>, id: Seq<u8>, i: int)
    requires
        unique_ids(s),
        0 <= i < s.len(),
        s[i].identifier@ == id,
    ensures
        spec_entry_at(s, id) == Option::Some(s[i]),
{
    assert(exists|k: int| 0 <= k < s.len() && (#[trigger] s[k]).identifier@ == id);
    let c = choose|k: int| 0 <= k < s.len() && (#[trigger] s[k]).identifier@ == id;
    if c < i {
        assert(s[c].identifier@ != s[i].identifier@);
    }
    if i < c {
        assert(s[i].identifier@ != s[c].identifier@);
    }
}

/// An identifier carried by no entry is found under no entry.
pub proof fn lemma_entry_at_none(s: Seq<LogEntry>, id: Seq<u8>)
    requires
        forall|k: int| 0 <= k < s.len() ==> (#[trigger] s[k]).identifier@ != id,
    ensures
        spec_entry_at(s, id) is None,
{
}

/// An identifier found under no entry is carried by no entry.
pub proof fn lemma_entry_at_none_inv(s: Seq<LogEntry>, id: Seq<u8>)
    requires
        spec_entry_at(s, id) is None,
    ensures
        forall|k: int| 0 <= k < s.len() ==> (#[trigger] s[k]).identifier@ != id,
{
    assert forall|k: int| 0 <= k < s.len() implies (#[trigger] s[k]).identifier@ != id by {
        if s[k].identifier@ == id {
            assert(exists|j: int| 0 <= j < s.len() && (#[trigger] s[j]).identifier@ == id);
        }
    }
}

/// What the empty-log case contributes to an appended log.
pub open spec fn log_or_empty(l: Option<Seq<EventModel>>) -> Seq<EventModel> {
    match l {
        Option::Some(log) => log,
        Option::None => Seq::empty(),
    }
}

/// Whether an append stored the event or recognized a retransmission.
#[derive(Clone, Copy, PartialEq, Eq, Structural, Debug)]
pub enum AppendOutcome {
    Accepted,
    Duplicate,
}

impl EventLogStore {
    /// Every entry is coherent and identifiers are unique.
    pub open spec fn wf(&self) -> bool {
        &&& unique_ids(self.entries@)
        &&& forall|i: int| 0 <= i < self.entries@.len() ==> entry_wf(#[trigger] self.entries@[i])
    }

    /// The key state stored under an identifier, if any.
    pub open spec fn spec_get_state(&self, id: Seq<u8>) -> Option<StateModel> {
        match spec_entry_at(self.entries@, id) {
            Option::Some(en) => Option::Some(en.state@),
            Option::None => Option::None,
        }
    }

    /// The event log stored under an identifier, if any.
    pub open spec fn spec_get_log(&self, id: Seq<u8>) -> Option<Seq<EventModel>> {
        match spec_entry_at(self.entries@, id) {
            Option::Some(en) => Option::Some(event_models(en.events@)),
            Option::None => Option::None,
        }
    }

    /// An empty store: nothing is stored under any identifier.
    pub fn new() -> (r: EventLogStore)
        ensures
            r.wf(),
            forall|id: Seq<u8>| (#[trigger] r.spec_get_state(id)) is None,
            forall|id: Seq<u8>| (#[trigger] r.spec_get_log(id)) is None,
    {
        EventLogStore { entries: Vec::new() }
    }

    /// The index of the entry holding an identifier, if one does.
    fn find_index(&self, id: &Vec<u8>) -> (r: Option<usize>)
        requires
            self.wf(),
        ensures
            match r {
                Option::Some(i) => i < self.entries@.len() && self.entries@[i as int].identifier@
                    == id@ && spec_entry_at(self.entries@, id@) == Option::Some(
                    self.entries@[i as int],
                ),
                Option::None => spec_entry_at(self.entries@, id@) is None,
            },
    {
        let n = self.entries.len();
        let mut i: usize = 0;
        while i < n
            invariant
                self.wf(),
                i <= n,
                n == self.entries@.len(),
                forall|j: int| 0 <= j < i ==> (#[trigger] self.entries@[j]).identifier@ != id@,
            decreases n - i,
        {
            if crate::process::bytes_eq(&self.entries[i].identifier, id) {
                proof {
                    lemma_entry_at_is(self.entries@, id@, i as int);
                }
                return Option::Some(i);
            }
            i = i + 1;
        }
        proof {
            lemma_entry_at_none(self.entries@, id@);
        }
        Option::None
    }

    /// Read-only lookup of the current key state for an identifier.
    pub fn get_state(&self, id: &Vec<u8>) -> (r: Option<&KeyState>)
        requires
            self.wf(),
        ensures
            match r {
                Option::Some(s) => self.spec_get_state(id@) == Option::Some(s@),
                Option::None => self.spec_get_state(id@) is None,
            },
    {
        match self.find_index(id) {
            Option::Some(i) => Option::Some(&self.entries[i].state),
            Option::None => Option::None,
        }
    }

    /// Read-only lookup of the full event log for an identifier.
    pub fn get_log(&self, id: &Vec<u8>) -> (r: Option<&Vec<Event>>)
        requires
            self.wf(),
        ensures
            match r {
                Option::Some(l) => self.spec_get_log(id@) == Option::Some(event_models(l@)),
                Option::None => self.spec_get_log(id@) is None,
            },
    {
        match self.find_index(id) {
            Option::Some(i) => Option::Some(&self.entries[i].events),
            Option::None => Option::None,
        }
    }

    /// Validates one event against the stored tail state for `id` and, on
    /// acceptance, persists the event and the new derived state together. A
    /// retransmission of the last accepted event changes nothing and is
    /// reported as `Duplicate`; a rejection changes nothing and surfaces the
    /// processing error.
    pub fn append(&mut self, id: &Vec<u8>, event: Event) -> (r: Result<
        AppendOutcome,
        ProcessError,
    >)
        requires
            old(self).wf(),
        ensures
            final(self).wf(),
            match r {
                Result::Ok(outcome) => {
                    &&& spec_process(old(self).spec_get_state(id@), event@) matches Result::Ok(ns)
                    &&& final(self).spec_get_state(id@) == Option::Some(ns)
                    &&& (outcome is Accepted ==> final(self).spec_get_log(id@) == Option::Some(
                        log_or_empty(old(self).spec_get_log(id@)) + seq![event@],
                    ))
                    &&& (outcome is Duplicate ==> *final(self) == *old(self))
                    &&& forall|other: Seq<u8>|
                        other != id@ ==> #[trigger] final(self).spec_get_state(other) == old(
                            self,
                        ).spec_get_state(other)
                    &&& forall|other: Seq<u8>|
                        other != id@ ==> #[trigger] final(self).spec_get_log(other) == old(
                            self,
                        ).spec_get_log(other)
                },
                Result::Err(e) => {
                    &&& *final(self) == *old(self)
                    &&& spec_process(old(self).spec_get_state(id@), event@) == Result::<
                        StateModel,
                        ProcessError,
                    >::Err(e)
                },
            },
    {
        let ghost em = event@;
        match self.find_index(id) {
            Option::None => {
                proof {
                    lemma_entry_at_none_inv(self.entries@, id@);
                }
                match process(Option::None, &event) {
                    Result::Err(e) => Result::Err(e),
                    Result::Ok(st) => {
                        let ghost stm = st@;
                        let ghost old_entries = self.entries@;
                        let mut evs: Vec<Event> = Vec::new();
                        evs.push(event);
                        let entry = LogEntry { identifier: clone_bytes(id), events: evs, state: st };
                        self.entries.push(entry);
                        proof {
                            let ghost new_entries = self.entries@;
                            let ghost en = new_entries[new_entries.len() - 1];
                            assert(spec_process(Option::None, em) == Result::<
                                StateModel,
                                ProcessError,
                            >::Ok(stm));
                            assert(event_models(en.events@) =~= seq![em]);
                            assert(seq![em].drop_last() =~= Seq::<EventModel>::empty());
                            assert(spec_replay(Seq::<EventModel>::empty()) == Result::<
                                Option<StateModel>,
                                ProcessError,
                            >::Ok(Option::None));
                            assert(seq![em].last() == em);
                            assert(spec_replay(seq![em]) == Result::<
                                Option<StateModel>,
                                ProcessError,
                            >::Ok(Option::Some(stm)));
                            assert(entry_wf(en));
                            assert forall|a: int, b: int| 0 <= a < b < new_entries.len() implies (
                            #[trigger] new_entries[a]).identifier@ != (
                            #[trigger] new_entries[b]).identifier@ by {
                                if b == new_entries.len() - 1 {
                                    assert(old_entries[a].identifier@ != id@);
                                }
                            }
                            lemma_entry_at_is(new_entries, id@, new_entries.len() - 1);
                            assert forall|other: Seq<u8>| other != id@ implies spec_entry_at(
                                new_entries,
                                other,
                            ) == spec_entry_at(old_entries, other) by {
                                lemma_entry_at_frame_push(old_entries, en, other);
                            }
                        }
                        Result::Ok(AppendOutcome::Accepted)
                    },
                }
            },
            Option::Some(i) => {
                let ghost old_entries = self.entries@;
                let ghost old_entry = self.entries@[i as int];
                let r = process(Option::Some(&self.entries[i].state), &event);
                match r {
                    Result::Err(e) => Result::Err(e),
                    Result::Ok(new_state) => {
                        if new_state.sequence_number == self.entries[i].state.sequence_number {
                            proof {
                                assert(new_state@ == old_entry.state@);
                            }
                            Result::Ok(AppendOutcome::Duplicate)
                        } else {
                            proof {
                                assert(em.sequence_number == old_entry.state@.sequence_number + 1);
                            }
                            let en = &mut self.entries[i];
                            en.events.push(event);
                            en.state = new_state;
                            proof {
                                let ghost new_entries = self.entries@;
                                let ghost ne = new_entries[i as int];
                                assert(event_models(ne.events@) =~= event_models(old_entry.events@)
                                    + seq![em]);
                                assert((event_models(old_entry.events@) + seq![em]).drop_last()
                                    =~= event_models(old_entry.events@));
                                assert(entry_wf(ne));
                                assert forall|a: int, b: int| 0 <= a < b < new_entries.len() implies
                                (#[trigger] new_entries[a]).identifier@ != (
                                #[trigger] new_entries[b]).identifier@ by {
                                    assert(old_entries[a].identifier@ != old_entries[b].identifier@);
                                }
                                lemma_entry_at_is(new_entries, id@, i as int);
                                assert forall|other: Seq<u8>| other != id@ implies spec_entry_at(
                                    new_entries,
                                    other,
                                ) == spec_entry_at(old_entries, other) by {
                                    lemma_entry_at_frame_update(old_entries, i as int, ne, other);
                                }
                                assert(self.wf());
                            }
                            Result::Ok(AppendOutcome::Accepted)
                        }
                    },
                }
            },
        }
    }

    /// Applies a batch of parsed events for one identifier in order, as the
    /// message-ingestion path does, stopping at the first rejection: events
    /// accepted before a rejection stay stored, and records of other
    /// identifiers are untouched either way.
    pub fn append_all(&mut self, id: &Vec<u8>, events: Vec<Event>) -> (r: Result<
        (),
        ProcessError,
    >)
        requires
            old(self).wf(),
        ensures
            final(self).wf(),
            forall|other: Seq<u8>|
                other != id@ ==> #[trigger] final(self).spec_get_state(other) == old(
                    self,
                ).spec_get_state(other),
            forall|other: Seq<u8>|
                other != id@ ==> #[trigger] final(self).spec_get_log(other) == old(
                    self,
                ).spec_get_log(other),
            match r {
                Result::Ok(_) => spec_fold_state(
                    old(self).spec_get_state(id@),
                    event_models(events@),
                ) == Result::<Option<StateModel>, ProcessError>::Ok(
                    final(self).spec_get_state(id@),
                ),
                Result::Err(e) => {
                    &&& spec_fold_state(old(self).spec_get_state(id@), event_models(events@))
                        == Result::<Option<StateModel>, ProcessError>::Err(e)
                    &&& exists|k: int|
                        0 <= k < event_models(events@).len() && spec_fold_state(
                            old(self).spec_get_state(id@),
                            event_models(events@).take(k),
                        ) == Result::<Option<StateModel>, ProcessError>::Ok(
                            final(self).spec_get_state(id@),
                        ) && spec_process(
                            final(self).spec_get_state(id@),
                            event_models(events@)[k],
                        ) == Result::<StateModel, ProcessError>::Err(e)
                },
            },
    {
        let ghost orig = event_models(events@);
        let ghost st0 = old(self).spec_get_state(id@);
        let mut evs = events;
        proof {
            assert(event_models(evs@) =~= orig.skip(0));
            assert(orig.take(0) =~= Seq::<EventModel>::empty());
        }
        while evs.len() > 0
            invariant
                self.wf(),
                st0 == old(self).spec_get_state(id@),
                orig == event_models(events@),
                evs@.len() <= orig.len(),
                event_models(evs@) == orig.skip(orig.len() - evs@.len()),
                spec_fold_state(st0, orig.take(orig.len() - evs@.len())) == Result::<
                    Option<StateModel>,
                    ProcessError,
                >::Ok(self.spec_get_state(id@)),
                forall|other: Seq<u8>|
                    other != id@ ==> #[trigger] self.spec_get_state(other) == old(
                        self,
                    ).spec_get_state(other),
                forall|other: Seq<u8>|
                    other != id@ ==> #[trigger] self.spec_get_log(other) == old(
                        self,
                    ).spec_get_log(other),
            decreases evs@.len(),
        {
            let ghost i = orig.len() - evs@.len();
            let ghost evs_before = evs@;
            let e = evs.remove(0);
            proof {
                assert(event_models(evs_before)[0] == evs_before[0]@);
                assert(e@ == orig[i]);
                assert(evs@ =~= evs_before.drop_first());
                assert(event_models(evs@) =~= event_models(evs_before).drop_first());
                assert(event_models(evs@) =~= orig.skip(i + 1));
            }
            let step = self.append(id, e);
            match step {
                Result::Err(err) => {
                    proof {
                        lemma_fold_state_snoc(st0, orig, i);
                        assert(spec_fold_state(st0, orig.take(i)) == Result::<
                            Option<StateModel>,
                            ProcessError,
                        >::Ok(self.spec_get_state(id@)));
                        assert(spec_process(self.spec_get_state(id@), orig[i]) == Result::<
                            StateModel,
                            ProcessError,
                        >::Err(err));
                        assert(spec_fold_state(st0, orig.take(i + 1)) == Result::<
                            Option<StateModel>,
                            ProcessError,
                        >::Err(err));
                        lemma_fold_state_err_extends(st0, orig, i + 1);
                        assert(spec_fold_state(st0, orig) == Result::<
                            Option<StateModel>,
                            ProcessError,
                        >::Err(err));
                        assert(exists|k: int|
                            0 <= k < orig.len() && spec_fold_state(st0, orig.take(k)) == Result::<
                                Option<StateModel>,
                                ProcessError,
                            >::Ok(self.spec_get_state(id@)) && spec_process(
                                self.spec_get_state(id@),
                                orig[k],
                            ) == Result::<StateModel, ProcessError>::Err(err));
                    }
                    return Result::Err(err);
                },
                Result::Ok(_) => {
                    proof {
                        lemma_fold_state_snoc(st0, orig, i);
                    }
                },
            }
        }
        proof {
            assert(orig.take(orig.len() as int) =~= orig);
        }
        Result::Ok(())
    }
}

/// Every event of a log that replays without rejection is well formed:
/// each step of the fold accepted it.
pub proof fn lemma_replay_events_well_formed(events: Seq<EventModel>)
    requires
        spec_replay(events) is Ok,
    ensures
        forall|i: int| 0 <= i < events.len() ==> well_formed_event(#[trigger] events[i]),
    decreases events.len(),
{
    if events.len() > 0 {
        match spec_replay(events.drop_last()) {
            Result::Ok(st) => {
                lemma_replay_events_well_formed(events.drop_last());
                assert(spec_process(st, events.last()) is Ok);
                assert(well_formed_event(events.last()));
                assert forall|i: int| 0 <= i < events.len() implies well_formed_event(
                    #[trigger] events[i],
                ) by {
                    if i < events.len() - 1 {
                        assert(events.drop_last()[i] == events[i]);
                    }
                }
            },
            Result::Err(_) => {
                assert(false);
            },
        }
    }
}

/// What a successful replay guarantees of a log whose sequence numbers sit
/// at their list positions: the resulting state's sequence number cannot
/// exceed the tail position, and when it reaches it, the log is a hash
/// chain whose tail digest is the state's last digest.
pub proof fn lemma_replay_chain(events: Seq<EventModel>)
    requires
        events.len() >= 1,
        spec_replay(events) is Ok,
        forall|i: int| 0 <= i < events.len() ==> (#[trigger] events[i]).sequence_number == i,
    ensures
        spec_replay(events) matches Result::Ok(Option::Some(st)) ==> {
            &&& st.sequence_number <= events.len() - 1
            &&& (st.sequence_number == events.len() - 1 ==> {
                &&& st.last_event_digest == crate::event::digest_of_event(events.last())
                &&& forall|i: int|
                    0 < i < events.len() ==> (#[trigger] events[i]).prior_digest == Option::Some(
                        crate::event::digest_of_event(events[i - 1]),
                    )
            })
        },
    decreases events.len(),
{
    if events.len() == 1 {
        assert(events.drop_last() =~= Seq::<EventModel>::empty());
        assert(spec_replay(Seq::<EventModel>::empty()) == Result::<
            Option<StateModel>,
            ProcessError,
        >::Ok(Option::None));
        assert(events.last() == events[0]);
    } else {
        let prefix = events.drop_last();
        assert(forall|i: int|
            0 <= i < prefix.len() ==> (#[trigger] prefix[i]).sequence_number == i);
        match spec_replay(prefix) {
            Result::Ok(pre_opt) => {
                lemma_replay_chain(prefix);
                match pre_opt {
                    Option::Some(p) => {
                        match spec_process(Option::Some(p), events.last()) {
                            Result::Ok(st) => {
                                if crate::event::digest_of_event(events.last())
                                    == p.last_event_digest {
                                    assert(st == p);
                                } else {
                                    assert(st.sequence_number == events.len() - 1);
                                    assert(p.sequence_number == prefix.len() - 1);
                                    assert(prefix.last() == events[events.len() - 2]);
                                    assert forall|i: int| 0 < i < events.len() implies (
                                    #[trigger] events[i]).prior_digest == Option::Some(
                                        crate::event::digest_of_event(events[i - 1]),
                                    ) by {
                                        if i < events.len() - 1 {
                                            assert(prefix[i] == events[i]);
                                            assert(prefix[i - 1] == events[i - 1]);
                                        }
                                    }
                                }
                            },
                            Result::Err(_) => {
                                assert(false);
                            },
                        }
                    },
                    Option::None => {
                        assert(false);
                    },
                }
            },
            Result::Err(_) => {
                assert(false);
            },
        }
    }
}

/// Folding a whole batch of events into an optional state, stopping at the
/// first rejection.
pub open spec fn spec_fold_state(st: Option<StateModel>, evs: Seq<EventModel>) -> Result<
    Option<StateModel>,
    ProcessError,
>
    decreases evs.len(),
{
    if evs.len() == 0 {
        Result::Ok(st)
    } else {
        match spec_process(st, evs[0]) {
            Result::Ok(s2) => spec_fold_state(Option::Some(s2), evs.drop_first()),
            Result::Err(e) => Result::Err(e),
        }
    }
}

/// Folding one more event applies `spec_process` to the fold of the prefix.
pub proof fn lemma_fold_state_snoc(st: Option<StateModel>, s: Seq<EventModel>, i: int)
    requires
        0 <= i < s.len(),
    ensures
        spec_fold_state(st, s.take(i + 1)) == (match spec_fold_state(st, s.take(i)) {
            Result::Ok(mid) => match spec_process(mid, s[i]) {
                Result::Ok(x) => Result::<Option<StateModel>, ProcessError>::Ok(Option::Some(x)),
                Result::Err(e) => Result::Err(e),
            },
            Result::Err(e) => Result::Err(e),
        }),
    decreases i,
{
    if i == 0 {
        assert(s.take(0) =~= Seq::<EventModel>::empty());
        assert(spec_fold_state(st, s.take(0)) == Result::<Option<StateModel>, ProcessError>::Ok(
            st,
        ));
        assert(s.take(1)[0] == s[0]);
        assert(s.take(1).drop_first() =~= Seq::<EventModel>::empty());
        match spec_process(st, s[0]) {
            Result::Ok(s2) => {
                assert(spec_fold_state(Option::Some(s2), s.take(1).drop_first()) == Result::<
                    Option<StateModel>,
                    ProcessError,
                >::Ok(Option::Some(s2)));
                assert(spec_fold_state(st, s.take(1)) == Result::<
                    Option<StateModel>,
                    ProcessError,
                >::Ok(Option::Some(s2)));
            },
            Result::Err(e) => {
                assert(spec_fold_state(st, s.take(1)) == Result::<
                    Option<StateModel>,
                    ProcessError,
                >::Err(e));
            },
        }
    } else {
        let s2 = s.drop_first();
        assert(s.take(i + 1)[0] == s[0]);
        assert(s.take(i)[0] == s[0]);
        assert(s.take(i + 1).drop_first() =~= s2.take(i));
        assert(s.take(i).drop_first() =~= s2.take(i - 1));
        assert(s2[i - 1] == s[i]);
        match spec_process(st, s[0]) {
            Result::Ok(first) => {
                lemma_fold_state_snoc(Option::Some(first), s2, i - 1);
                assert(spec_fold_state(st, s.take(i + 1)) == spec_fold_state(
                    Option::Some(first),
                    s2.take(i),
                ));
                assert(spec_fold_state(st, s.take(i)) == spec_fold_state(
                    Option::Some(first),
                    s2.take(i - 1),
                ));
            },
            Result::Err(e) => {
                assert(spec_fold_state(st, s.take(i + 1)) == Result::<
                    Option<StateModel>,
                    ProcessError,
                >::Err(e));
                assert(spec_fold_state(st, s.take(i)) == Result::<
                    Option<StateModel>,
                    ProcessError,
                >::Err(e));
            },
        }
    }
}

/// Once a prefix of the batch is rejected, the whole batch is rejected the
/// same way.
pub proof fn lemma_fold_state_err_extends(st: Option<StateModel>, s: Seq<EventModel>, j: int)
    requires
        0 <= j <= s.len(),
        spec_fold_state(st, s.take(j)) is Err,
    ensures
        spec_fold_state(st, s) == spec_fold_state(st, s.take(j)),
    decreases s.len() - j,
{
    if j == s.len() {
        assert(s.take(j) =~= s);
    } else {
        lemma_fold_state_snoc(st, s, j);
        lemma_fold_state_err_extends(st, s, j + 1);
    }
}

/// Pushing an entry for a fresh identifier changes what is found under no
/// other identifier.
pub proof fn lemma_entry_at_frame_push(s: Seq<LogEntry>, en: LogEntry, other: Seq<u8>)
    requires
        unique_ids(s),
        other != en.identifier@,
        forall|k: int| 0 <= k < s.len() ==> (#[trigger] s[k]).identifier@ != en.identifier@,
    ensures
        spec_entry_at(s.push(en), other) == spec_entry_at(s, other),
{
    let s2 = s.push(en);
    if exists|k: int| 0 <= k < s.len() && (#[trigger] s[k]).identifier@ == other {
        let j = choose|k: int| 0 <= k < s.len() && (#[trigger] s[k]).identifier@ == other;
        lemma_entry_at_is(s, other, j);
        assert(s2[j] == s[j]);
        assert forall|a: int, b: int| 0 <= a < b < s2.len() implies (#[trigger] s2[a]).identifier@
            != (#[trigger] s2[b]).identifier@ by {
            if b < s.len() {
                assert(s[a].identifier@ != s[b].identifier@);
            } else {
                assert(s2[b].identifier@ == en.identifier@);
                assert(s2[a] == s[a]);
            }
        }
        lemma_entry_at_is(s2, other, j);
    } else {
        assert forall|k: int| 0 <= k < s2.len() implies (#[trigger] s2[k]).identifier@ != other by {
            if k < s.len() {
                assert(s[k].identifier@ != other);
            }
        }
        lemma_entry_at_none(s2, other);
        lemma_entry_at_none(s, other);
    }
}

/// Replacing the entry at one index, keeping its identifier, changes what
/// is found under no other identifier.
pub proof fn lemma_entry_at_frame_update(s: Seq<LogEntry>, i: int, en: LogEntry, other: Seq<u8>)
    requires
        unique_ids(s),
        0 <= i < s.len(),
        en.identifier@ == s[i].identifier@,
        other != en.identifier@,
    ensures
        spec_entry_at(s.update(i, en), other) == spec_entry_at(s, other),
{
    let s2 = s.update(i, en);
    assert forall|a: int, b: int| 0 <= a < b < s2.len() implies (#[trigger] s2[a]).identifier@ != (
    #[trigger] s2[b]).identifier@ by {
        assert(s[a].identifier@ != s[b].identifier@);
    }
    if exists|k: int| 0 <= k < s.len() && (#[trigger] s[k]).identifier@ == other {
        let j = choose|k: int| 0 <= k < s.len() && (#[trigger] s[k]).identifier@ == other;
        lemma_entry_at_is(s, other, j);
        assert(j != i);
        assert(s2[j] == s[j]);
        lemma_entry_at_is(s2, other, j);
    } else {
        assert forall|k: int| 0 <= k < s2.len() implies (#[trigger] s2[k]).identifier@ != other by {
            if k != i {
                assert(s[k].identifier@ != other);
            }
        }
        lemma_entry_at_none(s2, other);
        lemma_entry_at_none(s, other);
    }
}

} // verus!
