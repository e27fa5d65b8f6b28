//! The library's error type.
use vstd::prelude::*;

verus! {

/// The view of an optional message.
pub open spec fn opt_string_view(o: Option<String>) -> Option<Seq<char>> {
    match o {
        Some(s) => Some(s@),
        None => None,
    }
}

/// The library's result type.
pub type Result<T> = std::result::Result<T, Error>;

/// What went wrong.
#[derive(Debug, Clone, Copy, PartialEq, Eq, Structural)]
pub enum ErrorKind {
    Start,
    Join,
    BrokenPipe,
    UuidAlreadySeen,
    NodeAlreadyInRing,
    NodeNotInRing,
    UnexpectedRequestType,
    VoteAlreadyReceived,
    AlreadyReachedconsensus,
    FastRoundFailure,
    JoinPhase1,
    JoinPhase2,
    UnableToReachDecision,
    /// A value could not be measured or encoded for the wire.
    Encoding,
}

impl ErrorKind {
    /// The name of the kind, as its `Debug` form spells it.
    pub open spec fn name_spec(self) -> Seq<char> {
        match self {
            ErrorKind::Start => "Start"@,
            ErrorKind::Join => "Join"@,
            ErrorKind::BrokenPipe => "BrokenPipe"@,
            ErrorKind::UuidAlreadySeen => "UuidAlreadySeen"@,
            ErrorKind::NodeAlreadyInRing => "NodeAlreadyInRing"@,
            ErrorKind::NodeNotInRing => "NodeNotInRing"@,
            ErrorKind::UnexpectedRequestType => "UnexpectedRequestType"@,
            ErrorKind::VoteAlreadyReceived => "VoteAlreadyReceived"@,
            ErrorKind::AlreadyReachedconsensus => "AlreadyReachedconsensus"@,
            ErrorKind::FastRoundFailure => "FastRoundFailure"@,
            ErrorKind::JoinPhase1 => "JoinPhase1"@,
            ErrorKind::JoinPhase2 => "JoinPhase2"@,
            ErrorKind::UnableToReachDecision => "UnableToReachDecision"@,
            ErrorKind::Encoding => "Encoding"@,
        }
    }

    /// The name of the kind, as its `Debug` form spells it.
    pub fn name(&self) -> (s: &'static str)
        ensures
            s@ == self.name_spec(),
    {
        match self {
            ErrorKind::Start => "Start",
            ErrorKind::Join => "Join",
            ErrorKind::BrokenPipe => "BrokenPipe",
            ErrorKind::UuidAlreadySeen => "UuidAlreadySeen",
            ErrorKind::NodeAlreadyInRing => "NodeAlreadyInRing",
            ErrorKind::NodeNotInRing => "NodeNotInRing",
            ErrorKind::UnexpectedRequestType => "UnexpectedRequestType",
            ErrorKind::VoteAlreadyReceived => "VoteAlreadyReceived",
            ErrorKind::AlreadyReachedconsensus => "AlreadyReachedconsensus",
            ErrorKind::FastRoundFailure => "FastRoundFailure",
            ErrorKind::JoinPhase1 => "JoinPhase1",
            ErrorKind::JoinPhase2 => "JoinPhase2",
            ErrorKind::UnableToReachDecision => "UnableToReachDecision",
            ErrorKind::Encoding => "Encoding",
        }
    }
}

/// An error of the library: its kind, and the message of the error that caused
/// it, if any.
#[derive(Debug)]
pub struct Error {
    kind: ErrorKind,
    source: Option<String>,
}

impl Error {
    /// The kind of the error.
    pub closed spec fn kind_spec(&self) -> ErrorKind {
        self.kind
    }

    /// The message of the underlying cause.
    pub closed spec fn source_spec(&self) -> Option<Seq<char>> {
        match &self.source {
            Some(s) => Some(s@),
            None => None,
        }
    }

    pub fn kind(&self) -> (k: &ErrorKind)
        ensures
            *k == self.kind_spec(),
    {
        &self.kind
    }

    /// The message of the underlying cause, if any.
    pub fn source_message(&self) -> (s: Option<&String>)
        ensures
            self.source_spec() == (match s {
                Some(m) => Some(m@),
                None => None::<Seq<char>>,
            }),
    {
        self.source.as_ref()
    }

    pub fn new(kind: ErrorKind, source: Option<String>) -> (e: Self)
        ensures
            e.kind_spec() == kind,
            e.source_spec() == opt_string_view(source),
    {
        Self { kind, source }
    }

    pub fn new_join_phase1() -> (e: Self)
        ensures
            e.kind_spec() == ErrorKind::JoinPhase1,
            e.source_spec() is None,
    {
        Self::new(ErrorKind::JoinPhase1, None)
    }

    pub fn new_broken_pipe(source: Option<String>) -> (e: Self)
        ensures
            e.kind_spec() == ErrorKind::BrokenPipe,
            e.source_spec() == opt_string_view(source),
    {
        Self::new(ErrorKind::BrokenPipe, source)
    }

    pub fn new_join(source: Option<String>) -> (e: Self)
        ensures
            e.kind_spec() == ErrorKind::Join,
            e.source_spec() == opt_string_view(source),
    {
        Self::new(ErrorKind::Join, source)
    }

    pub fn new_uuid_already_seen() -> (e: Self)
        ensures
            e.kind_spec() == ErrorKind::UuidAlreadySeen,
            e.source_spec() is None,
    {
        Self::new(ErrorKind::UuidAlreadySeen, None)
    }

    pub fn new_node_already_in_ring() -> (e: Self)
        ensures
            e.kind_spec() == ErrorKind::NodeAlreadyInRing,
            e.source_spec() is None,
    {
        Self::new(ErrorKind::NodeAlreadyInRing, None)
    }

    pub fn new_node_not_in_ring() -> (e: Self)
        ensures
            e.kind_spec() == ErrorKind::NodeNotInRing,
            e.source_spec() is None,
    {
        Self::new(ErrorKind::NodeNotInRing, None)
    }

    pub fn vote_already_received() -> (e: Self)
        ensures
            e.kind_spec() == ErrorKind::VoteAlreadyReceived,
            e.source_spec() is None,
    {
        Self::new(ErrorKind::VoteAlreadyReceived, None)
    }

    pub fn already_reached_consensus() -> (e: Self)
        ensures
            e.kind_spec() == ErrorKind::AlreadyReachedconsensus,
            e.source_spec() is None,
    {
        Self::new(ErrorKind::AlreadyReachedconsensus, None)
    }

    pub fn fast_round_failure() -> (e: Self)
        ensures
            e.kind_spec() == ErrorKind::FastRoundFailure,
            e.source_spec() is None,
    {
        Self::new(ErrorKind::FastRoundFailure, None)
    }

    pub fn new_unexpected_request(source: Option<String>) -> (e: Self)
        ensures
            e.kind_spec() == ErrorKind::UnexpectedRequestType,
            e.source_spec() == opt_string_view(source),
    {
        Self::new(ErrorKind::UnexpectedRequestType, source)
    }

    pub fn new_join_phase2() -> (e: Self)
        ensures
            e.kind_spec() == ErrorKind::JoinPhase2,
            e.source_spec() is None,
    {
        Self::new(ErrorKind::JoinPhase2, None)
    }

    pub fn new_unable_to_reach_decision() -> (e: Self)
        ensures
            e.kind_spec() == ErrorKind::UnableToReachDecision,
            e.source_spec() is None,
    {
        Self::new(ErrorKind::UnableToReachDecision, None)
    }

    pub fn new_encoding() -> (e: Self)
        ensures
            e.kind_spec() == ErrorKind::Encoding,
            e.source_spec() is None,
    {
        Self::new(ErrorKind::Encoding, None)
    }
}

impl From<ErrorKind> for Error {
    fn from(t: ErrorKind) -> (e: Error) {
        Error::new(t, None)
    }
}

impl vstd::std_specs::convert::FromSpecImpl<ErrorKind> for Error {
    open spec fn obeys_from_spec() -> bool {
        true
    }

    closed spec fn from_spec(t: ErrorKind) -> Error {
        Error { kind: t, source: None }
    }
}

} // verus!
