//! Why an operation of the engine was refused.
use vstd::prelude::*;

verus! {

/// Why an operation on a signal failed.
#[derive(Clone, Copy, PartialEq, Eq, Structural, Debug)]
pub enum SignalError {
    /// The owning scope has been disposed.
    ScopeDisposed,
    /// A writer failed while it held the signal: the value cannot be trusted.
    Lock,
    /// The handle names no signal of this scope.
    Foreign,
    /// Only a scope in shared mode can record a failed writer.
    NotShared,
}

/// Why an operation on a derived value or an effect failed.
#[derive(Clone, Copy, PartialEq, Eq, Structural, Debug)]
pub enum EvalError {
    /// The owning scope has been disposed.
    ScopeDisposed,
    /// The node was read while its own evaluation was still running.
    CycleDetected,
    /// A signal that the derivation read is poisoned.
    Poisoned,
    /// The handle names no node of that kind in this scope.
    Foreign,
    /// The node is not the evaluation that is currently running.
    NotRunning,
}

impl EvalError {
    /// The evaluation error that a failed signal read turns into.
    pub open spec fn from_signal_spec(e: SignalError) -> EvalError {
        match e {
            SignalError::ScopeDisposed => EvalError::ScopeDisposed,
            SignalError::Lock => EvalError::Poisoned,
            SignalError::Foreign => EvalError::Foreign,
            SignalError::NotShared => EvalError::Foreign,
        }
    }

    /// Maps the failure of a signal read inside a derivation to the error the
    /// derivation reports: a poisoned lock becomes `Poisoned`.
    pub fn from_signal(e: SignalError) -> (r: EvalError)
        ensures
            r == Self::from_signal_spec(e),
    {
        match e {
            SignalError::ScopeDisposed => EvalError::ScopeDisposed,
            SignalError::Lock => EvalError::Poisoned,
            SignalError::Foreign => EvalError::Foreign,
            SignalError::NotShared => EvalError::Foreign,
        }
    }

    /// A short description of the error.
    pub fn message(&self) -> (r: String)
        ensures
            r@ == Self::message_spec(*self),
    {
        match self {
            EvalError::ScopeDisposed => "scope disposed".to_string(),
            EvalError::CycleDetected => "cycle detected".to_string(),
            EvalError::Poisoned => "poisoned".to_string(),
            EvalError::Foreign => "unknown node".to_string(),
            EvalError::NotRunning => "not running".to_string(),
        }
    }

    pub open spec fn message_spec(e: EvalError) -> Seq<char> {
        match e {
            EvalError::ScopeDisposed => "scope disposed"@,
            EvalError::CycleDetected => "cycle detected"@,
            EvalError::Poisoned => "poisoned"@,
            EvalError::Foreign => "unknown node"@,
            EvalError::NotRunning => "not running"@,
        }
    }
}

} // verus!
