//! Error taxonomy of the pipeline.
//!
//! Three failure domains are kept apart so that the flush worker can decide
//! precisely between retrying and requeueing:
//!
//! * [`StoreError`]: a failure of the durable backend, classified as retryable
//!   or not;
//! * [`DecodeError`]: a log frame that cannot be read. At the tail of the log
//!   this is the expected mark of a process killed in the middle of a write,
//!   and recovery takes it as the point to cut the log at;
//! * [`FluxError`]: what the blocking operations of the engine report.

use std::fmt::Write;
use vstd::prelude::*;
use vstd::string::StringExecFns;

verus! {

/// An I/O error of the operating system, carried through as an opaque value.
#[verifier::external_type_specification]
#[verifier::external_body]
pub struct ExIoError(std::io::Error);

/// A failure reported by a persistence store.
#[derive(Debug)]
pub enum StoreError {
    /// Backend temporarily unreachable. Retryable.
    Unavailable,
    /// Request-scoped failure with a human-readable cause. Retryable.
    Transient(String),
    /// Permanent failure with a human-readable cause. Not retryable.
    Fatal(String),
}

/// A [`StoreError`] with its text as a sequence of characters.
#[verifier::ext_equal]
pub enum StoreErrorView {
    Unavailable,
    Transient(Seq<char>),
    Fatal(Seq<char>),
}

impl View for StoreError {
    type V = StoreErrorView;

    open spec fn view(&self) -> StoreErrorView {
        match self {
            StoreError::Unavailable => StoreErrorView::Unavailable,
            StoreError::Transient(cause) => StoreErrorView::Transient(cause@),
            StoreError::Fatal(cause) => StoreErrorView::Fatal(cause@),
        }
    }
}

impl StoreErrorView {
    /// Only a permanent failure is not worth another attempt.
    pub open spec fn retryable(self) -> bool {
        !(self is Fatal)
    }

    /// The error as a line of text.
    pub open spec fn text(self) -> Seq<char> {
        match self {
            StoreErrorView::Unavailable => "store unavailable (retryable)"@,
            StoreErrorView::Transient(cause) => "transient store error (retryable): "@ + cause,
            StoreErrorView::Fatal(cause) => "fatal store error (not retryable): "@ + cause,
        }
    }
}

impl Clone for StoreError {
    fn clone(&self) -> (copy: StoreError)
        ensures
            copy@ == self@,
    {
        match self {
            StoreError::Unavailable => StoreError::Unavailable,
            StoreError::Transient(cause) => StoreError::Transient(cause.clone()),
            StoreError::Fatal(cause) => StoreError::Fatal(cause.clone()),
        }
    }
}

impl StoreError {
    /// Whether the flush worker should try the operation again.
    pub fn is_retryable(&self) -> (retry: bool)
        ensures
            retry == self@.retryable(),
            retry <==> *self is Unavailable || *self is Transient,
    {
        match self {
            StoreError::Fatal(_) => false,
            _ => true,
        }
    }

    /// The error as a line of text.
    pub fn message(&self) -> (text: String)
        ensures
            text@ == self@.text(),
    {
        match self {
            StoreError::Unavailable => "store unavailable (retryable)".to_owned(),
            StoreError::Transient(cause) => {
                let mut text = "transient store error (retryable): ".to_owned();
                text.append(cause.as_str());
                text
            },
            StoreError::Fatal(cause) => {
                let mut text = "fatal store error (not retryable): ".to_owned();
                text.append(cause.as_str());
                text
            },
        }
    }
}

/// A log frame that cannot be decoded.
#[derive(Debug, Clone, Copy, PartialEq, Eq, Structural)]
pub enum DecodeError {
    /// The buffer ended before a complete frame could be read.
    Truncated,
    /// The trailing CRC does not match the frame.
    BadCrc,
    /// The leading magic number is not that of a frame.
    BadMagic,
}

impl DecodeError {
    /// The error as a line of text.
    pub open spec fn text(self) -> Seq<char> {
        match self {
            DecodeError::Truncated => "truncated WAL frame"@,
            DecodeError::BadCrc => "WAL frame CRC mismatch"@,
            DecodeError::BadMagic => "WAL frame magic mismatch"@,
        }
    }

    /// The error as a line of text.
    pub fn message(&self) -> (text: String)
        ensures
            text@ == self.text(),
    {
        match self {
            DecodeError::Truncated => "truncated WAL frame".to_owned(),
            DecodeError::BadCrc => "WAL frame CRC mismatch".to_owned(),
            DecodeError::BadMagic => "WAL frame magic mismatch".to_owned(),
        }
    }
}

/// What the blocking operations of the engine report: a failure of the file
/// system under the log, or of the durable store.
#[derive(Debug)]
pub enum FluxError {
    /// A file system or log I/O error.
    Io(std::io::Error),
    /// A durable-store error.
    Store(StoreError),
}

impl From<std::io::Error> for FluxError {
    fn from(e: std::io::Error) -> FluxError {
        FluxError::Io(e)
    }
}

impl vstd::std_specs::convert::FromSpecImpl<std::io::Error> for FluxError {
    open spec fn obeys_from_spec() -> bool {
        true
    }

    open spec fn from_spec(e: std::io::Error) -> FluxError {
        FluxError::Io(e)
    }
}

impl From<StoreError> for FluxError {
    fn from(e: StoreError) -> FluxError {
        FluxError::Store(e)
    }
}

impl vstd::std_specs::convert::FromSpecImpl<StoreError> for FluxError {
    open spec fn obeys_from_spec() -> bool {
        true
    }

    open spec fn from_spec(e: StoreError) -> FluxError {
        FluxError::Store(e)
    }
}

/// The `Display` text of [`std::io::Error`]. Nothing is claimed of it: it comes
/// from the operating system and may follow its language settings.
#[verifier::external_body]
fn io_error_text(e: &std::io::Error) -> String {
    let mut text = String::new();
    let _ = write!(text, "{e}");
    text
}

/// The line of text for an I/O error whose own text is `cause`.
pub fn io_message(cause: &str) -> (text: String)
    ensures
        text@ == "io error: "@ + cause@,
{
    let mut text = "io error: ".to_owned();
    text.append(cause);
    text
}

impl FluxError {
    /// The error as a line of text. What follows the prefix of an I/O error is
    /// the operating system's own text.
    pub fn message(&self) -> (text: String)
        ensures
            match self {
                FluxError::Io(_) => exists|cause: Seq<char>| text@ == "io error: "@ + cause,
                FluxError::Store(e) => text@ == "store error: "@ + e@.text(),
            },
    {
        match self {
            FluxError::Io(e) => {
                let cause = io_error_text(e);
                io_message(cause.as_str())
            },
            FluxError::Store(e) => {
                let mut text = "store error: ".to_owned();
                let cause = e.message();
                text.append(cause.as_str());
                text
            },
        }
    }
}

/// The text of a store error ends with its whole cause, so that errors of one kind
/// with different causes can be told apart; and it says whether it is worth another
/// attempt.
pub proof fn law_error_texts_keep_the_cause(a: Seq<char>, b: Seq<char>)
    ensures
        ({
            let text = StoreErrorView::Transient(a).text();
            &&& text.len() >= a.len()
            &&& text.skip(text.len() - a.len()) == a
        }),
        ({
            let text = StoreErrorView::Fatal(a).text();
            &&& text.len() >= a.len()
            &&& text.skip(text.len() - a.len()) == a
        }),
        StoreErrorView::Transient(a).text() == StoreErrorView::Transient(b).text() ==> a == b,
        StoreErrorView::Fatal(a).text() == StoreErrorView::Fatal(b).text() ==> a == b,
        StoreErrorView::Unavailable.retryable(),
        StoreErrorView::Transient(a).retryable(),
        !StoreErrorView::Fatal(a).retryable(),
{
    let t = "transient store error (retryable): "@;
    let f = "fatal store error (not retryable): "@;
    assert((t + a).skip(t.len() as int) =~= a);
    assert((t + b).skip(t.len() as int) =~= b);
    assert((f + a).skip(f.len() as int) =~= a);
    assert((f + b).skip(f.len() as int) =~= b);
}

/// A view of a store error keeps its kind and its cause.
pub proof fn law_error_views_keep_the_cause(e: StoreError)
    ensures
        e is Unavailable <==> e@ is Unavailable,
        e matches StoreError::Transient(cause) ==> e@ == StoreErrorView::Transient(cause@),
        e matches StoreError::Fatal(cause) ==> e@ == StoreErrorView::Fatal(cause@),
{
}

} // verus!
