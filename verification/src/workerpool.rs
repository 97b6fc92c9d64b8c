//! What the bounded worker pool answers when a job cannot be taken.
use vstd::prelude::*;

verus! {

/// The kinds of I/O error that a refused job is reported as.
#[derive(Debug, Clone, Copy, PartialEq, Eq, Structural)]
pub enum IoKind {
    /// `std::io::ErrorKind::WouldBlock`.
    WouldBlock,
    /// `std::io::ErrorKind::Other`.
    Other,
}

/// Why a job was not accepted.
#[derive(Debug, Clone, Copy, PartialEq, Eq, Structural)]
pub enum SubmitError {
    /// Every worker is busy and the queue is already at capacity. The caller
    /// decides what "overload" means for them -- for a UDP server, that's
    /// usually "drop this packet", which is indistinguishable from ordinary
    /// packet loss to a client that already has to handle retries/timeouts.
    QueueFull,
    /// The pool has been shut down (all workers gone); nothing will ever
    /// consume submitted jobs again.
    PoolShutDown,
}

impl SubmitError {
    /// The I/O error kind this error maps to: `WouldBlock` for a full queue,
    /// `Other` for a pool that has shut down.
    pub fn io_kind(&self) -> (k: IoKind)
        ensures
            k == match self {
                SubmitError::QueueFull => IoKind::WouldBlock,
                SubmitError::PoolShutDown => IoKind::Other,
            },
    {
        match self {
            SubmitError::QueueFull => IoKind::WouldBlock,
            SubmitError::PoolShutDown => IoKind::Other,
        }
    }
}

/// The text each error is shown as.
pub open spec fn submit_message(e: SubmitError) -> Seq<char> {
    match e {
        SubmitError::QueueFull => "UDP server worker queue is full"@,
        SubmitError::PoolShutDown => "Worker pool has been shut down"@,
    }
}

/// What `e.kind()` gives for an I/O error, as one of the kinds above.
pub uninterp spec fn io_error_kind(e: std::io::Error) -> IoKind;

/// What an I/O error displays (`e.to_string()`).
pub uninterp spec fn io_error_text(e: std::io::Error) -> Seq<char>;

/// `std::io::Error::new(kind, text)`, with the kind given as the matching
/// `std::io::ErrorKind`: as std documents, an I/O error of that kind (what
/// `kind()` returns) whose payload is the text, which is what it displays.
/// Claimed: `io_error_kind` of the result is `kind` and `io_error_text` of it
/// is the text.
#[verifier::external_body]
fn io_error_new(kind: IoKind, text: &str) -> (e: std::io::Error)
    ensures
        io_error_kind(e) == kind,
        io_error_text(e) == text@,
{
    let kind = match kind {
        IoKind::WouldBlock => std::io::ErrorKind::WouldBlock,
        IoKind::Other => std::io::ErrorKind::Other,
    };
    std::io::Error::new(kind, text)
}

impl SubmitError {
    /// The text this error is shown as.
    pub fn message(&self) -> (m: &'static str)
        ensures
            m@ == submit_message(*self),
    {
        match self {
            SubmitError::QueueFull => "UDP server worker queue is full",
            SubmitError::PoolShutDown => "Worker pool has been shut down",
        }
    }

    /// This error as an I/O error: of kind `io_kind()` (`WouldBlock` for a
    /// full queue, `Other` for a pool shut down), with `message()` as its text.
    pub fn into_io_error(self) -> (e: std::io::Error)
        ensures
            io_error_kind(e) == match self {
                SubmitError::QueueFull => IoKind::WouldBlock,
                SubmitError::PoolShutDown => IoKind::Other,
            },
            io_error_text(e) == submit_message(self),
    {
        let kind = self.io_kind();
        let text = self.message();
        io_error_new(kind, text)
    }
}

} // verus!
