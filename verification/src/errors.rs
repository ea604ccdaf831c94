//! The error taxonomy of the client core.

use vstd::prelude::*;

verus! {

/// Why a broker connection string was rejected.
#[derive(Clone, Copy, Debug, PartialEq, Eq, Structural)]
pub enum AddressFault {
    /// The hostname segment before the last `:` is empty.
    NoHostname,
    /// The segment after the last `:` is not an unsigned 16-bit decimal number.
    BadPort,
}

/// Why a produced message could not be delivered.
#[derive(Clone, Copy, Debug, PartialEq, Eq, Structural)]
pub enum FailureReason {
    /// The message named no target topic.
    EmptyTopic,
    /// The target topic does not exist on the cluster.
    UnknownTopic,
    /// The delivery timeout elapsed before the cluster acknowledged.
    TimedOut,
    /// The producer was closed while the send was still pending.
    Flushed,
    /// The cluster refused to append the message.
    Rejected,
}

/// Every failure the client core can surface to a caller.
#[derive(Clone, Copy, Debug, PartialEq, Eq, Structural)]
pub enum ClientError {
    /// A malformed broker string; fatal at startup.
    InvalidAddress(AddressFault),
    /// The cluster cannot be reached; transient, retryable by the caller.
    ClusterUnavailable,
    /// A topic of that name already exists.
    TopicExists,
    /// No topic of that name exists.
    TopicNotFound,
    /// The producer's local outbound buffer is saturated.
    QueueFull,
    /// A per-message delivery failure, also carried by delivery reports.
    DeliveryFailure(FailureReason),
    /// A blocking operation ran out of time.
    Timeout,
    /// The coordinator did not acknowledge an offset commit.
    CommitFailed,
    /// The operation was attempted after shutdown.
    Closed,
}

} // verus!
