//! Types that are used in validity predicates.

use vstd::prelude::*;

verus! {

/// Error result returned by validity predicates.
#[derive(Debug, PartialEq, Eq)]
pub enum VpError {
    Unspecified,
    OutOfGas,
    InvalidSignature,
    /// A type-erased error, kept as its message.
    Erased(String),
}

impl VpError {
    /// The human-readable message for this error.
    pub fn message(&self) -> (r: String)
        ensures
            r@ == match self {
                VpError::Unspecified => "Transaction rejected"@,
                VpError::OutOfGas => "Gas limit exceeded"@,
                VpError::InvalidSignature => "Found invalid transaction signature"@,
                VpError::Erased(m) => m@,
            },
    {
        match self {
            VpError::Unspecified => "Transaction rejected".to_owned(),
            VpError::OutOfGas => "Gas limit exceeded".to_owned(),
            VpError::InvalidSignature => "Found invalid transaction signature".to_owned(),
            VpError::Erased(m) => m.clone(),
        }
    }
}

/// Helper trait for converting between result types.
pub trait VpErrorExtResult<T> where Self: Sized {
    /// What the conversion returns.
    spec fn vp_error_spec(self) -> Result<T, VpError>;

    /// Convert to a [`Result`] with [`VpError`] errors.
    fn into_vp_error(self) -> (r: Result<T, VpError>)
        ensures
            r == self.vp_error_spec(),
    ;
}

impl<T> VpErrorExtResult<T> for Result<T, String> {
    /// A success passes through unchanged; an error is erased to its text.
    open spec fn vp_error_spec(self) -> Result<T, VpError> {
        match self {
            Ok(ok) => Ok(ok),
            Err(err) => Err(VpError::Erased(err)),
        }
    }

    fn into_vp_error(self) -> (r: Result<T, VpError>) {
        match self {
            Ok(ok) => Ok(ok),
            Err(err) => Err(VpError::Erased(err)),
        }
    }
}

/// Sentinel used in validity predicates to signal events that require special
/// replay protection handling back to the protocol.
#[derive(Debug)]
pub enum VpSentinel {
    /// No action required
    NoAction,
    /// Exceeded gas limit
    OutOfGas,
    /// Found invalid transaction signature
    InvalidSignature,
}

impl Default for VpSentinel {
    fn default() -> (r: Self)
        ensures
            r is NoAction,
    {
        VpSentinel::NoAction
    }
}

impl VpSentinel {
    /// Check if the Vp ran out of gas
    pub fn is_out_of_gas(&self) -> (r: bool)
        ensures
            r == (self is OutOfGas),
    {
        matches!(self, VpSentinel::OutOfGas)
    }

    /// Check if the Vp found an invalid signature
    pub fn is_invalid_signature(&self) -> (r: bool)
        ensures
            r == (self is InvalidSignature),
    {
        matches!(self, VpSentinel::InvalidSignature)
    }

    /// Set the sentinel for an out of gas error
    pub fn set_out_of_gas(&mut self)
        ensures
            *final(self) is OutOfGas,
    {
        *self = VpSentinel::OutOfGas
    }

    /// Set the sentinel for an invalid signature error
    pub fn set_invalid_signature(&mut self)
        ensures
            *final(self) is InvalidSignature,
    {
        *self = VpSentinel::InvalidSignature
    }
}

} // verus!
