//! A single-threaded message bus with envelopes, mailboxes, a request
//! registry and a job host that orchestrates request/result exchanges.

pub mod bus;
pub mod clock;
pub mod envelope;
pub mod idgen;
pub mod inbox;
pub mod job;
pub mod jobhost;
pub mod keyed;
pub mod pattern;
pub mod publisher;
pub mod registry;
pub mod reply;
pub mod result;
pub mod subscriber;
pub mod text;

pub use bus::{Bus, InboxHandle};
pub use clock::{Clock, ManualClock, MonotonicClock};
pub use envelope::{
    is_name, make_envelope, split_topic, topic_segment, topic_suffix, ActorId, Envelope,
    EnvelopeBuildError, EnvelopeId, Header, MakeOptions, Value,
};
pub use idgen::{IdGen, SeqIdGen, UuidIdGen};
pub use inbox::Inbox;
pub use job::{
    timeout_body, BeginHook, FinishCtx, FinishInfo, FinishedHook, Hooks, Job, JobCtx, RequestSpec,
    StageHook, DEFAULT_MAX_INFLIGHT,
};
pub use jobhost::{HostParams, JobFactory, JobHost, Slot, DEFAULT_QUEUE_LIMIT};
pub use pattern::{parse_pattern, InvalidTopic, Pattern, Wildcard};
pub use publisher::Publisher;
pub use registry::{result_topic_of, Registry, ResolveOutcome, StartParams, State};
pub use reply::reply;
pub use result::{
    err_payload, is_result_err, is_result_ok, looks_like_result_envelope, ok_payload, result_body,
    result_error, result_request_id, result_value,
};
pub use subscriber::Subscriber;

use vstd::prelude::*;

verus! {

/// The library's one error type: contract violations and operational
/// failures travel the same route.
#[derive(Debug, Clone, PartialEq, Eq)]
pub enum Error {
    EnvelopeBuild(String),
    InvalidTopic(String),
    MailboxFull,
    QueueFull,
    MaxInflight,
    State(String),
}

/// The library's result type.
pub type Result<T> = core::result::Result<T, Error>;

/// The text of an error: its area, a colon, and what went wrong.
pub open spec fn error_text(e: Error) -> Seq<char> {
    match e {
        Error::EnvelopeBuild(m) => "envelope: "@ + m@,
        Error::InvalidTopic(m) => "pattern: "@ + m@,
        Error::MailboxFull => "bus: mailbox full"@,
        Error::QueueFull => "jobhost: queue_full"@,
        Error::MaxInflight => "job: max_inflight"@,
        Error::State(m) => "job: "@ + m@,
    }
}

impl Error {
    /// The error as text (see `error_text`).
    pub fn message(&self) -> (r: String)
        ensures
            r@ == error_text(*self),
    {
        match self {
            Error::EnvelopeBuild(m) => text::concat2("envelope: ", m.as_str()),
            Error::InvalidTopic(m) => text::concat2("pattern: ", m.as_str()),
            Error::MailboxFull => text::to_string("bus: mailbox full"),
            Error::QueueFull => text::to_string("jobhost: queue_full"),
            Error::MaxInflight => text::to_string("job: max_inflight"),
            Error::State(m) => text::concat2("job: ", m.as_str()),
        }
    }
}

} // verus!
