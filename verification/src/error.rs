//! Engine errors.

use crate::format::ValueType;
use crate::schema::StorageClass;
use vstd::prelude::*;

verus! {

/// The operating system's code for "no space left on device".
pub const ENOSPC: i32 = 28;

/// The operating system's code for "file exists".
pub const EEXIST: i32 = 17;

/// The operating system's code for "no such file".
pub const ENOENT: i32 = 2;

/// An engine failure.
///
/// On the write paths the questions are "was the record lost"
/// ([`Error::loses_record`]) and "is this a build defect"
/// ([`Error::breaks_contract`]); no caller has to match the whole enum.
#[derive(Debug)]
#[non_exhaustive]
pub enum Error {
    /// A failed operation on the medium, with the operating system's code where
    /// there is one.
    Io { context: String, os_code: Option<i32> },
    /// The format refused to encode or decode.
    Format(String),
    /// The metadata did not serialize.
    Postcard(String),
    BadNamespace { name: String, reason: &'static str },
    BadSchema { name: String, reason: String },
    UnknownEvent { schema: &'static str, event: u16 },
    UnknownSpanKind { schema: &'static str, kind: u16 },
    EncodeFailed { event: &'static str },
    ClassNotDeclared { schema: &'static str, class: StorageClass },
    BadStore { setting: &'static str, reason: &'static str },
    BadGroup { prefix: String, reason: &'static str },
    BadChannel {
        class: StorageClass,
        /// Whose channel; `None` means the class configuration before any
        /// namespace.
        namespace: Option<String>,
        reason: &'static str,
    },
    NamespaceBusy(String),
    SchemaMismatch { namespace: String, stored: String, opening: String },
    ProtocolFromFuture { namespace: String, stored: u16, current: u16 },
    MissingMigration { schema: String, from: u16, to: u16 },
    MigrationBusy(String),
    UnknownMetric { metric_id: u16 },
    ValueTypeMismatch { metric_id: u16, declared: ValueType, got: ValueType },
    BadLimits { metric_name: &'static str, reason: &'static str },
    Corrupt { path: String, reason: String },
    StoreBusy(String),
    ShuttingDown,
    QueueFull,
    WriterDead,
    /// The sync did not catch up with the queue; nothing is lost by it.
    SyncIncomplete,
    NoSpace(String),
    ForeignSegment { path: String, expected: u64, found: u64 },
}

impl Error {
    /// The failures that mean a record did not reach the medium.
    pub open spec fn is_loss(self) -> bool {
        self is QueueFull || self is WriterDead || self is ShuttingDown
    }

    /// The failures that mean the call itself was wrong.
    pub open spec fn is_contract_breach(self) -> bool {
        self is UnknownEvent || self is UnknownMetric || self is UnknownSpanKind
            || self is ValueTypeMismatch || self is ClassNotDeclared || self is EncodeFailed
    }

    /// The failures for want of space on the medium.
    pub open spec fn is_out_of_space(self) -> bool {
        self is NoSpace || (self is Io && self->os_code == Some(ENOSPC))
    }

    /// The failures because a file of that name is already there.
    pub open spec fn is_name_taken(self) -> bool {
        self is Io && self->os_code == Some(EEXIST)
    }

    /// The failures because there is no file of that name.
    pub open spec fn is_missing(self) -> bool {
        self is Io && self->os_code == Some(ENOENT)
    }

    /// Whether there is no file of that name.
    pub fn is_not_found(&self) -> (yes: bool)
        ensures
            yes == self.is_missing(),
    {
        match self {
            Error::Io { os_code: Some(code), .. } => *code == ENOENT,
            _ => false,
        }
    }

    /// Whether the error means the **record was lost**: the queue is falling
    /// behind, the writer is dead, or the store is stopping.
    pub fn loses_record(&self) -> (yes: bool)
        ensures
            yes == self.is_loss(),
    {
        match self {
            Error::QueueFull => true,
            Error::WriterDead => true,
            Error::ShuttingDown => true,
            _ => false,
        }
    }

    /// Whether the error means the caller **broke the schema contract**: a build
    /// defect rather than a consequence of load.
    pub fn breaks_contract(&self) -> (yes: bool)
        ensures
            yes == self.is_contract_breach(),
    {
        match self {
            Error::UnknownEvent { .. } => true,
            Error::UnknownMetric { .. } => true,
            Error::UnknownSpanKind { .. } => true,
            Error::ValueTypeMismatch { .. } => true,
            Error::ClassNotDeclared { .. } => true,
            Error::EncodeFailed { .. } => true,
            _ => false,
        }
    }

    /// Whether a file of that name is already there.
    pub fn is_already_exists(&self) -> (yes: bool)
        ensures
            yes == self.is_name_taken(),
    {
        match self {
            Error::Io { os_code: Some(code), .. } => *code == EEXIST,
            _ => false,
        }
    }

    /// Whether the medium has run out of space.
    pub fn is_no_space(&self) -> (yes: bool)
        ensures
            yes == self.is_out_of_space(),
    {
        match self {
            Error::NoSpace(_) => true,
            Error::Io { os_code: Some(code), .. } => *code == libc_enospc(),
            _ => false,
        }
    }
}

/// The operating system's code for "no space left on device".
pub fn libc_enospc() -> (code: i32)
    ensures
        code == ENOSPC,
{
    ENOSPC
}

/// A loss is a state of the medium and a contract breach is a defect in the
/// call: no failure is both.
pub proof fn law_losses_are_not_caller_bugs(e: Error)
    ensures
        !(e.is_loss() && e.is_contract_breach()),
        !(e.is_loss() && e.is_out_of_space()),
{
}

/// A sync that did not catch up loses nothing and breaks no contract.
pub proof fn law_an_incomplete_sync_is_neither(e: Error)
    requires
        e is SyncIncomplete,
    ensures
        !e.is_loss(),
        !e.is_contract_breach(),
{
}

/// Each failure is sorted by what it means: only a full queue, a dead writer and a stop lose a
/// record; only what does not fit the schema breaks the contract; and the medium's answers are told
/// apart by the operating system's codes.
pub proof fn law_failures_are_told_apart(e: Error)
    ensures
        e.is_loss() <==> e is QueueFull || e is WriterDead || e is ShuttingDown,
        e.is_contract_breach() <==> e is UnknownEvent || e is UnknownMetric || e is UnknownSpanKind
            || e is ValueTypeMismatch || e is ClassNotDeclared || e is EncodeFailed,
        e is NoSpace ==> e.is_out_of_space(),
        e is Io && e->os_code == Some(28i32) ==> e.is_out_of_space() && !e.is_name_taken()
            && !e.is_missing(),
        e is Io && e->os_code == Some(17i32) ==> e.is_name_taken() && !e.is_out_of_space()
            && !e.is_missing(),
        e is Io && e->os_code == Some(2i32) ==> e.is_missing() && !e.is_out_of_space()
            && !e.is_name_taken(),
        e is Io && e->os_code is None ==> !e.is_out_of_space() && !e.is_name_taken()
            && !e.is_missing(),
        !(e is Io) && !(e is NoSpace) ==> !e.is_out_of_space() && !e.is_name_taken()
            && !e.is_missing(),
{
}

} // verus!
