//! Error kinds the collector reports, and their stable boundary codes.

use vstd::prelude::*;
use vstd::string::StringExecFns;

verus! {

/// Everything that can go wrong inside the collector. The first four are
/// ordinary, non-fatal outcomes the host is expected to handle; the last
/// three indicate a broken invariant.
#[derive(Debug, Clone, PartialEq)]
pub enum GCError {
    /// The object is already tracked.
    AlreadyTracked,
    /// The object is not tracked.
    NotTracked,
    /// A collection pass is already running.
    CollectionInProgress,
    /// The named generation does not exist.
    InvalidGeneration(usize),
    /// The object has a finalizer and cannot be reclaimed.
    HasFinalizer,
    /// A structural invariant was found broken.
    Internal(String),
    /// Memory could not be obtained.
    AllocationFailed(String),
    /// A reference count was found inconsistent with the object graph.
    ReferenceCountError(String),
}

impl GCError {
    /// A short human-readable description of the error.
    pub fn describe(&self) -> (r: String)
        ensures
            r@.len() > 0,
    {
        proof {
            reveal_strlit("object is already tracked");
            reveal_strlit("object is not tracked");
            reveal_strlit("garbage collection already in progress");
            reveal_strlit("invalid generation");
            reveal_strlit("object has finalizer and cannot be collected");
            reveal_strlit("internal error");
            reveal_strlit("memory allocation failed");
            reveal_strlit("reference count error");
        }
        let r = match self {
            GCError::AlreadyTracked => "object is already tracked",
            GCError::NotTracked => "object is not tracked",
            GCError::CollectionInProgress => "garbage collection already in progress",
            GCError::InvalidGeneration(_) => "invalid generation",
            GCError::HasFinalizer => "object has finalizer and cannot be collected",
            GCError::Internal(_) => "internal error",
            GCError::AllocationFailed(_) => "memory allocation failed",
            GCError::ReferenceCountError(_) => "reference count error",
        };
        String::from_str(r)
    }
}

/// The message used when a shadow counter would drop below zero during a
/// collection pass.
pub fn shadow_underflow_message() -> (r: String)
    ensures
        r@.len() > 0,
{
    proof {
        reveal_strlit("more internal references than the reference count admits");
    }
    String::from_str("more internal references than the reference count admits")
}

/// The outcome of an operation: either a value or a collector error.
pub type GCResult<T> = Result<T, GCError>;

/// The stable integer codes handed across the host boundary.
#[derive(Debug, Clone, Copy, PartialEq, Eq, Structural)]
pub enum GCReturnCode {
    Success,
    ErrorAlreadyTracked,
    ErrorNotTracked,
    ErrorCollectionInProgress,
    ErrorInvalidGeneration,
    ErrorInternal,
}

/// The return code that stands for each error at the boundary. Errors that
/// indicate a broken invariant all surface as the internal-error code.
pub open spec fn spec_code_of_error(e: GCError) -> GCReturnCode {
    match e {
        GCError::AlreadyTracked => GCReturnCode::ErrorAlreadyTracked,
        GCError::NotTracked => GCReturnCode::ErrorNotTracked,
        GCError::CollectionInProgress => GCReturnCode::ErrorCollectionInProgress,
        GCError::InvalidGeneration(_) => GCReturnCode::ErrorInvalidGeneration,
        _ => GCReturnCode::ErrorInternal,
    }
}

impl GCReturnCode {
    /// The stable integer value of this code: zero for success, small
    /// negative integers for the error kinds.
    pub fn code(&self) -> (r: i32)
        ensures
            self is Success ==> r == 0,
            self is ErrorAlreadyTracked ==> r == -1,
            self is ErrorNotTracked ==> r == -2,
            self is ErrorCollectionInProgress ==> r == -3,
            self is ErrorInvalidGeneration ==> r == -4,
            self is ErrorInternal ==> r == -5,
    {
        match self {
            GCReturnCode::Success => 0,
            GCReturnCode::ErrorAlreadyTracked => -1,
            GCReturnCode::ErrorNotTracked => -2,
            GCReturnCode::ErrorCollectionInProgress => -3,
            GCReturnCode::ErrorInvalidGeneration => -4,
            GCReturnCode::ErrorInternal => -5,
        }
    }

    /// The code an operation without a payload maps to.
    pub fn from_unit_result(r: &GCResult<()>) -> (c: GCReturnCode)
        ensures
            c == (match r {
                Ok(_) => GCReturnCode::Success,
                Err(e) => spec_code_of_error(*e),
            }),
    {
        match r {
            Ok(_) => GCReturnCode::Success,
            Err(e) => Self::from_error(e),
        }
    }

    /// The code an operation reporting a count maps to.
    pub fn from_count_result(r: &GCResult<usize>) -> (c: GCReturnCode)
        ensures
            c == (match r {
                Ok(_) => GCReturnCode::Success,
                Err(e) => spec_code_of_error(*e),
            }),
    {
        match r {
            Ok(_) => GCReturnCode::Success,
            Err(e) => Self::from_error(e),
        }
    }

    /// The code that stands for one error kind.
    pub fn from_error(e: &GCError) -> (c: GCReturnCode)
        ensures
            c == spec_code_of_error(*e),
    {
        match e {
            GCError::AlreadyTracked => GCReturnCode::ErrorAlreadyTracked,
            GCError::NotTracked => GCReturnCode::ErrorNotTracked,
            GCError::CollectionInProgress => GCReturnCode::ErrorCollectionInProgress,
            GCError::InvalidGeneration(_) => GCReturnCode::ErrorInvalidGeneration,
            _ => GCReturnCode::ErrorInternal,
        }
    }
}

} // verus!
