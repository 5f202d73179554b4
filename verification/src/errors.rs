//! What can go wrong, and the exit code each fault ends an invocation with.

use sqlite_vfs::RegisterError;
use vstd::prelude::*;
use vstd::std_specs::convert::FromSpecImpl;

verus! {

#[verifier::external_type_specification]
#[verifier::external_body]
pub struct ExRegisterError(sqlite_vfs::RegisterError);

/// A fault of the page tree, of the SQL engine or of the adapter's
/// registration.
#[derive(Debug)]
pub enum Error {
    /// A message handed on as it came: a block store failure, or an engine
    /// setting that did not take.
    Passthrough(String),
    /// A parameter that the tree cannot be built with.
    IllegalArgument(String),
    /// A method number below the exported range.
    UnhandledMessage(String),
    /// A failure of the SQL engine, by its message.
    SQLiteError(String),
    /// The adapter could not be registered with the SQL engine.
    RegisterError(RegisterError),
}

/// The exit code that ends an invocation.
#[derive(Clone, Copy, Debug, PartialEq, Eq, Structural)]
pub enum ExitKind {
    IllegalArgument,
    IllegalState,
    UnhandledMessage,
}

/// `sqlite_vfs::RegisterError`'s `to_string`; nothing is claimed of the text.
#[verifier::external_body]
fn register_text(e: &RegisterError) -> (r: String) {
    e.to_string()
}

impl Error {
    /// The exit code of a fault. A bad parameter and an unknown method keep
    /// theirs; every other fault is an illegal state.
    pub open spec fn exit_kind(&self) -> ExitKind {
        match self {
            Error::IllegalArgument(_) => ExitKind::IllegalArgument,
            Error::UnhandledMessage(_) => ExitKind::UnhandledMessage,
            _ => ExitKind::IllegalState,
        }
    }

    /// The exit code that this fault ends the invocation with.
    pub fn exit(&self) -> (r: ExitKind)
        ensures
            r == self.exit_kind(),
    {
        match self {
            Error::IllegalArgument(_) => ExitKind::IllegalArgument,
            Error::UnhandledMessage(_) => ExitKind::UnhandledMessage,
            _ => ExitKind::IllegalState,
        }
    }

    /// The fault's message: the text it carries, or the outside error's own.
    pub fn to_string(&self) -> (r: String)
        ensures
            self matches Error::Passthrough(s) ==> r@ == s@,
            self matches Error::IllegalArgument(s) ==> r@ == s@,
            self matches Error::UnhandledMessage(s) ==> r@ == s@,
            self matches Error::SQLiteError(s) ==> r@ == s@,
    {
        match self {
            Error::Passthrough(s) => s.clone(),
            Error::IllegalArgument(s) => s.clone(),
            Error::UnhandledMessage(s) => s.clone(),
            Error::SQLiteError(s) => s.clone(),
            Error::RegisterError(e) => register_text(e),
        }
    }
}

impl From<String> for Error {
    fn from(value: String) -> (r: Self) {
        Error::Passthrough(value)
    }
}

impl FromSpecImpl<String> for Error {
    open spec fn obeys_from_spec() -> bool {
        true
    }

    open spec fn from_spec(value: String) -> Self {
        Error::Passthrough(value)
    }
}

impl From<RegisterError> for Error {
    fn from(value: RegisterError) -> (r: Self) {
        Error::RegisterError(value)
    }
}

impl FromSpecImpl<RegisterError> for Error {
    open spec fn obeys_from_spec() -> bool {
        true
    }

    open spec fn from_spec(value: RegisterError) -> Self {
        Error::RegisterError(value)
    }
}

} // verus!
