//! Structured errors of the resolution pipeline.

use vstd::prelude::*;
use crate::addr::Address;
use crate::validate::ValidationError;

verus! {

/// Why an executable account's embedded pointer could not be read.
#[derive(Debug, Clone, Copy, PartialEq, Eq, Structural)]
pub enum MalformedReason {
    /// The account data is too short to contain the 32-byte pointer
    /// at its fixed offset.
    TooShortForPointer { len: usize },
}

/// Why a pointed-to bytecode account could not be used.
#[derive(Debug)]
pub enum ProgramDataReason {
    /// The pointer target is not in the cache even after the fetch step.
    MissingAccount { pointer: Address },
    /// The pointed-to account's data does not extend past the fixed header.
    TooSmall { len: usize },
    /// Structural validation of the extracted bytecode failed.
    Validation(ValidationError),
}

/// Mathematical image of `ProgramDataReason`.
#[verifier::ext_equal]
pub enum ProgramDataReasonView {
    MissingAccount { pointer: Seq<u8> },
    TooSmall { len: usize },
    Validation(ValidationError),
}

impl View for ProgramDataReason {
    type V = ProgramDataReasonView;

    open spec fn view(&self) -> ProgramDataReasonView {
        match self {
            ProgramDataReason::MissingAccount { pointer } => ProgramDataReasonView::MissingAccount {
                pointer: pointer@,
            },
            ProgramDataReason::TooSmall { len } => ProgramDataReasonView::TooSmall { len: *len },
            ProgramDataReason::Validation(e) => ProgramDataReasonView::Validation(*e),
        }
    }
}

/// Why a fixture file was rejected on load.
#[derive(Debug, Clone, Copy, PartialEq, Eq, Structural)]
pub enum FixtureReason {
    /// The envelope carries a version this codec does not read.
    UnsupportedVersion { version: u64 },
    /// The envelope or a record line is not structured as written by
    /// `encode_fixture` (an unreadable address text included).
    Malformed,
}

/// A failure of the fetch, resolution or fixture pipeline. Transport
/// failures are the caller's: they arise where the network call is made,
/// outside this crate, and are surfaced there.
#[derive(Debug)]
pub enum RpcError {
    /// Strict-mode fetch: the named account does not exist.
    AccountNotFound(Address),
    /// An executable account's embedded pointer is unreadable.
    MalformedProgram { program: Address, reason: MalformedReason },
    /// The pointed-to bytecode account is missing, too small, or its
    /// bytecode failed validation.
    InvalidProgramData { program: Address, reason: ProgramDataReason },
    /// A fixture file could not be loaded.
    InvalidFixture(FixtureReason),
}

/// Mathematical image of `RpcError`.
#[verifier::ext_equal]
pub enum ErrorView {
    AccountNotFound(Seq<u8>),
    MalformedProgram { program: Seq<u8>, reason: MalformedReason },
    InvalidProgramData { program: Seq<u8>, reason: ProgramDataReasonView },
    InvalidFixture(FixtureReason),
}

impl View for RpcError {
    type V = ErrorView;

    open spec fn view(&self) -> ErrorView {
        match self {
            RpcError::AccountNotFound(a) => ErrorView::AccountNotFound(a@),
            RpcError::MalformedProgram { program, reason } => ErrorView::MalformedProgram {
                program: program@,
                reason: *reason,
            },
            RpcError::InvalidProgramData { program, reason } => ErrorView::InvalidProgramData {
                program: program@,
                reason: reason@,
            },
            RpcError::InvalidFixture(r) => ErrorView::InvalidFixture(*r),
        }
    }
}

} // verus!
