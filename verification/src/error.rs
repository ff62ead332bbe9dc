//! Failure kinds raised by the codec, the instruction decoder and the
//! processor.

use vstd::prelude::*;

verus! {

/// Every way an invocation of this engine can fail.  Each error aborts the
/// current invocation with no partial commit: no record byte and no balance
/// is changed on any failing path.
#[derive(Clone, Copy, Debug, PartialEq, Eq, Structural)]
pub enum SampleError {
    /// The instruction tag byte names no known operation.
    InvalidInstruction,
    /// Malformed instruction bytes or a corrupted map payload.
    DeserializationFailure,
    /// The record's flag byte is neither 0 nor 1.
    CorruptInitFlag,
    /// `InitializeAccount` was applied to a record that is already
    /// initialized.
    AlreadyInitializedState,
    /// An operation that demands an initialized record met an uninitialized
    /// one.
    UninitializedState,
    /// The key to remove or transfer is not present in the source record.
    KeyNotFoundInAccount,
    /// The key to insert is already present in the target record.
    KeyAlreadyExists,
    /// A fee payer's balance is smaller than the required fee.
    InsufficientFundsForTransaction,
    /// A non-last account buffer is not owned by this program.
    IncorrectOwner,
    /// The serialized map would not fit the record's fixed payload area.
    StateSpaceExceeded,
    /// The instruction names more accounts than the invocation provides.
    NotEnoughAccounts,
    /// Any other failure.
    UnknownError,
}

} // verus!
