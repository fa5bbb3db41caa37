//! The error type that every fallible operation of the library returns.
use vstd::prelude::*;

verus! {

/// Why an operation was refused.
#[derive(Debug, Clone, Copy, PartialEq, Eq, Structural)]
pub enum ReasonCode {
    RcPeParseInvalid,
    RcImportMissing,
    RcUnimplInsn,
    RcDxilInvalid,
    RcD3dInvalidState,
    RcIo,
    RcWin32Timeout,
    RcMemoryAccessViolation,
    RcCliInvalid,
    RcFsSandboxEscape,
    RcFsSharingViolation,
    RcSandboxPathViolation,
    RcFsPathInvalid,
    RcFsNotFound,
    RcBufferLimitExceeded,
    RcAudioUnsupported,
    RcAudioBufferSizeMismatch,
}

/// A refusal: the reason that callers act on, and a text for people to read.
#[derive(Debug, Clone, PartialEq, Eq)]
pub struct AppError {
    pub code: ReasonCode,
    pub message: String,
    pub hint: Option<String>,
}

pub type AppResult<T> = Result<T, AppError>;

impl AppError {
    pub fn new(code: ReasonCode, message: &str) -> (error: Self)
        ensures
            error.code == code,
            error.message@ == message@,
            error.hint is None,
    {
        AppError { code, message: message.to_owned(), hint: None }
    }

    /// Attaches advice to the error.
    pub fn with_hint(self, hint: String) -> (error: Self)
        ensures
            error.code == self.code,
            error.message == self.message,
            error.hint == Some(hint),
    {
        AppError { code: self.code, message: self.message, hint: Some(hint) }
    }
}

/// `outcome` is `Ok` with the modelled value where there is one, and an error
/// with reason `code` where there is none.
pub open spec fn agrees<T: DeepView>(
    outcome: AppResult<T>,
    code: ReasonCode,
    expected: Option<T::V>,
) -> bool {
    match outcome {
        Ok(value) => expected == Some(value.deep_view()),
        Err(error) => expected is None && error.code == code,
    }
}

} // verus!
