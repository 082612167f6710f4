use vstd::prelude::*;

verus! {

/// What a finished lookup reports.
pub enum LookupOutcome {
    Found { value: Vec<u8> },
    NotFound,
}

/// Model of a lookup outcome.
pub ghost enum OutcomeModel {
    Found { value: Seq<u8> },
    NotFound,
}

impl View for LookupOutcome {
    type V = OutcomeModel;

    open spec fn view(&self) -> OutcomeModel {
        match self {
            LookupOutcome::Found { value } => OutcomeModel::Found { value: value@ },
            LookupOutcome::NotFound => OutcomeModel::NotFound,
        }
    }
}

/// One lookup request in flight. A lookup starts against the local store;
/// on a local miss it consults the directory; with an address in hand it
/// fetches from that peer; any failure past the local step degrades to
/// not-found. Terminal on the first success or on exhaustion.
pub enum Lookup {
    AtLocal,
    AtDirectory,
    AtRemote { address: Vec<u8> },
    Done { outcome: LookupOutcome },
}

/// Model of a lookup phase.
pub ghost enum PhaseModel {
    AtLocal,
    AtDirectory,
    AtRemote { address: Seq<u8> },
    Done { outcome: OutcomeModel },
}

impl View for Lookup {
    type V = PhaseModel;

    open spec fn view(&self) -> PhaseModel {
        match self {
            Lookup::AtLocal => PhaseModel::AtLocal,
            Lookup::AtDirectory => PhaseModel::AtDirectory,
            Lookup::AtRemote { address } => PhaseModel::AtRemote { address: address@ },
            Lookup::Done { outcome } => PhaseModel::Done { outcome: outcome@ },
        }
    }
}

/// What the environment reports back to a lookup: the local store's answer,
/// the directory's answer, or the remote fetch's answer (`None` for a peer
/// that is absent, unreachable or timed out).
pub enum LookupEvent {
    LocalResult { value: Option<Vec<u8>> },
    DirectoryResult { address: Option<Vec<u8>> },
    RemoteResult { value: Option<Vec<u8>> },
}

/// Model of a lookup event.
pub ghost enum LookupEventModel {
    LocalResult { value: Option<Seq<u8>> },
    DirectoryResult { address: Option<Seq<u8>> },
    RemoteResult { value: Option<Seq<u8>> },
}

impl View for LookupEvent {
    type V = LookupEventModel;

    open spec fn view(&self) -> LookupEventModel {
        match self {
            LookupEvent::LocalResult { value: Option::None } => LookupEventModel::LocalResult {
                value: Option::None,
            },
            LookupEvent::LocalResult { value: Option::Some(v) } => LookupEventModel::LocalResult {
                value: Option::Some(v@),
            },
            LookupEvent::DirectoryResult { address: Option::None } => LookupEventModel::DirectoryResult {
                address: Option::None,
            },
            LookupEvent::DirectoryResult { address: Option::Some(a) } => LookupEventModel::DirectoryResult {
                address: Option::Some(a@),
            },
            LookupEvent::RemoteResult { value: Option::None } => LookupEventModel::RemoteResult {
                value: Option::None,
            },
            LookupEvent::RemoteResult { value: Option::Some(v) } => LookupEventModel::RemoteResult {
                value: Option::Some(v@),
            },
        }
    }
}

/// What the caller must do next: ask the directory, fetch from a peer, or
/// stop with the outcome. The caller performs the I/O and feeds the answer
/// back as the next event.
pub enum LookupAction {
    AskDirectory,
    FetchRemote { address: Vec<u8> },
    Finish { outcome: LookupOutcome },
}

/// Model of a lookup action.
pub ghost enum ActionModel {
    AskDirectory,
    FetchRemote { address: Seq<u8> },
    Finish { outcome: OutcomeModel },
}

impl View for LookupAction {
    type V = ActionModel;

    open spec fn view(&self) -> ActionModel {
        match self {
            LookupAction::AskDirectory => ActionModel::AskDirectory,
            LookupAction::FetchRemote { address } => ActionModel::FetchRemote {
                address: address@,
            },
            LookupAction::Finish { outcome } => ActionModel::Finish { outcome: outcome@ },
        }
    }
}

/// Whether an event answers the query the phase is waiting on.
pub open spec fn phase_expects(p: PhaseModel, ev: LookupEventModel) -> bool {
    match (p, ev) {
        (PhaseModel::AtLocal, LookupEventModel::LocalResult { .. }) => true,
        (PhaseModel::AtDirectory, LookupEventModel::DirectoryResult { .. }) => true,
        (PhaseModel::AtRemote { .. }, LookupEventModel::RemoteResult { .. }) => true,
        _ => false,
    }
}

/// The transition relation of the lookup protocol: from a phase and the
/// answer it waited on, the next phase and the action the caller owes.
pub open spec fn spec_step(p: PhaseModel, ev: LookupEventModel) -> (PhaseModel, ActionModel) {
    match (p, ev) {
        (
            PhaseModel::AtLocal,
            LookupEventModel::LocalResult { value: Option::Some(v) },
        ) => (
            PhaseModel::Done { outcome: OutcomeModel::Found { value: v } },
            ActionModel::Finish { outcome: OutcomeModel::Found { value: v } },
        ),
        (PhaseModel::AtLocal, LookupEventModel::LocalResult { value: Option::None }) => (
            PhaseModel::AtDirectory,
            ActionModel::AskDirectory,
        ),
        (
            PhaseModel::AtDirectory,
            LookupEventModel::DirectoryResult { address: Option::Some(a) },
        ) => (
            PhaseModel::AtRemote { address: a },
            ActionModel::FetchRemote { address: a },
        ),
        (
            PhaseModel::AtDirectory,
            LookupEventModel::DirectoryResult { address: Option::None },
        ) => (
            PhaseModel::Done { outcome: OutcomeModel::NotFound },
            ActionModel::Finish { outcome: OutcomeModel::NotFound },
        ),
        (
            PhaseModel::AtRemote { .. },
            LookupEventModel::RemoteResult { value: Option::Some(v) },
        ) => (
            PhaseModel::Done { outcome: OutcomeModel::Found { value: v } },
            ActionModel::Finish { outcome: OutcomeModel::Found { value: v } },
        ),
        (
            PhaseModel::AtRemote { .. },
            LookupEventModel::RemoteResult { value: Option::None },
        ) => (
            PhaseModel::Done { outcome: OutcomeModel::NotFound },
            ActionModel::Finish { outcome: OutcomeModel::NotFound },
        ),
        _ => (p, ActionModel::Finish { outcome: OutcomeModel::NotFound }),
    }
}

impl Lookup {
    /// A fresh lookup, waiting on the local store's answer.
    pub fn start() -> (r: Lookup)
        ensures
            r@ == PhaseModel::AtLocal,
    {
        Lookup::AtLocal
    }

    /// Advances the lookup by one answer, exactly as `spec_step` says.
    pub fn step(self, ev: LookupEvent) -> (r: (Lookup, LookupAction))
        requires
            phase_expects(self@, ev@),
        ensures
            (r.0@, r.1@) == spec_step(self@, ev@),
    {
        match (self, ev) {
            (Lookup::AtLocal, LookupEvent::LocalResult { value: Option::Some(v) }) => {
                let v2 = crate::process::clone_bytes(&v);
                (
                    Lookup::Done { outcome: LookupOutcome::Found { value: v } },
                    LookupAction::Finish { outcome: LookupOutcome::Found { value: v2 } },
                )
            },
            (Lookup::AtLocal, LookupEvent::LocalResult { value: Option::None }) => (
                Lookup::AtDirectory,
                LookupAction::AskDirectory,
            ),
            (Lookup::AtDirectory, LookupEvent::DirectoryResult { address: Option::Some(a) }) => {
                let a2 = crate::process::clone_bytes(&a);
                (
                    Lookup::AtRemote { address: a },
                    LookupAction::FetchRemote { address: a2 },
                )
            },
            (Lookup::AtDirectory, LookupEvent::DirectoryResult { address: Option::None }) => (
                Lookup::Done { outcome: LookupOutcome::NotFound },
                LookupAction::Finish { outcome: LookupOutcome::NotFound },
            ),
            (Lookup::AtRemote { .. }, LookupEvent::RemoteResult { value: Option::Some(v) }) => {
                let v2 = crate::process::clone_bytes(&v);
                (
                    Lookup::Done { outcome: LookupOutcome::Found { value: v } },
                    LookupAction::Finish { outcome: LookupOutcome::Found { value: v2 } },
                )
            },
            (Lookup::AtRemote { .. }, LookupEvent::RemoteResult { value: Option::None }) => (
                Lookup::Done { outcome: LookupOutcome::NotFound },
                LookupAction::Finish { outcome: LookupOutcome::NotFound },
            ),
            _ => (
                Lookup::Done { outcome: LookupOutcome::NotFound },
                LookupAction::Finish { outcome: LookupOutcome::NotFound },
            ),
        }
    }
}

} // verus!
