//! Error types.
use vstd::prelude::*;

verus! {

/// Errors of the SDK.
#[derive(Clone, Copy, Debug, PartialEq, Eq, Structural)]
pub enum Error {
    InvalidCombinations,
    InvalidHandle,
    InvalidContext,
    InvalidFunction,
    DeckTypeMismatch,
    InvalidDimensions,
    ConcurrencyProblem,
    PluginAlreadyInitialized,
    ABIVersionMismatch,
    InvalidProxy,
    CannotLoadPlugins,
    OutOfBounds,
    AllocFailed,
    NullPointer,
    MissingCapability,
    Unknown,
}

/// The human readable description of an error.
pub open spec fn error_message(e: Error) -> Seq<char> {
    match e {
        Error::InvalidCombinations => "Invalid combinations"@,
        Error::InvalidHandle => "Invalid handle"@,
        Error::InvalidContext => "Invalid context"@,
        Error::InvalidFunction => "Invalid function"@,
        Error::DeckTypeMismatch => "Deck type mismatch"@,
        Error::InvalidDimensions => "Invalid dimensions"@,
        Error::ConcurrencyProblem => "Concurrency problem"@,
        Error::PluginAlreadyInitialized => "Plugin already initialized"@,
        Error::ABIVersionMismatch => "Abi version mismatch"@,
        Error::InvalidProxy => "Invalid proxy"@,
        Error::CannotLoadPlugins => "Cannot load plugins"@,
        Error::OutOfBounds => "Memory out of bounds"@,
        Error::AllocFailed => "Memory allocation failed"@,
        Error::NullPointer => "Null pointer"@,
        Error::MissingCapability => "This capability is missing / not implemented"@,
        Error::Unknown => "Unknown error"@,
    }
}

impl Error {
    /// The human readable description of this error.
    pub fn message(&self) -> (r: &'static str)
        ensures
            r@ == error_message(*self),
    {
        match self {
            Error::InvalidCombinations => "Invalid combinations",
            Error::InvalidHandle => "Invalid handle",
            Error::InvalidContext => "Invalid context",
            Error::InvalidFunction => "Invalid function",
            Error::DeckTypeMismatch => "Deck type mismatch",
            Error::InvalidDimensions => "Invalid dimensions",
            Error::ConcurrencyProblem => "Concurrency problem",
            Error::PluginAlreadyInitialized => "Plugin already initialized",
            Error::ABIVersionMismatch => "Abi version mismatch",
            Error::InvalidProxy => "Invalid proxy",
            Error::CannotLoadPlugins => "Cannot load plugins",
            Error::OutOfBounds => "Memory out of bounds",
            Error::AllocFailed => "Memory allocation failed",
            Error::NullPointer => "Null pointer",
            Error::MissingCapability => "This capability is missing / not implemented",
            Error::Unknown => "Unknown error",
        }
    }
}

/// Errors of the workflow graph.
#[derive(Clone, Copy, Debug, PartialEq, Eq, Structural)]
pub enum DagError {
    BorrowedPropertyAccess,
    MismatchedArrayLengths(usize, usize),
    CycleDetected,
    InvalidFunction,
    ReadError,
    WriteError,
    VersionMismatch,
    GarbageCollectionRequired,
    UnsupportedConstantType(u64),
    InvalidOutputs,
    InvalidInputs,
    SdkError(Error),
}

impl From<Error> for DagError {
    fn from(e: Error) -> (r: Self) {
        DagError::SdkError(e)
    }
}

impl vstd::std_specs::convert::FromSpecImpl<Error> for DagError {
    open spec fn obeys_from_spec() -> bool {
        true
    }

    open spec fn from_spec(e: Error) -> DagError {
        DagError::SdkError(e)
    }
}

} // verus!
