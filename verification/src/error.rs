use vstd::prelude::*;

verus! {

/// Why a transaction was refused.
#[derive(Clone, Copy, Debug, PartialEq, Eq, Structural)]
pub enum Error {
    /// The author already has a wallet.
    WalletAlreadyExists,
    /// The author of a transfer has no wallet.
    SenderNotFound,
    /// The receiver of a transfer has no wallet.
    ReceiverNotFound,
    /// The sender's balance is less than the amount.
    InsufficientCurrencyAmount,
    /// The author of a transfer is its receiver.
    SenderSameAsReceiver,
}

impl Error {
    /// The number that stands for the error in the history of the ledger.
    pub open spec fn spec_code(self) -> u8 {
        match self {
            Error::WalletAlreadyExists => 0,
            Error::SenderNotFound => 1,
            Error::ReceiverNotFound => 2,
            Error::InsufficientCurrencyAmount => 3,
            Error::SenderSameAsReceiver => 4,
        }
    }

    /// The description of the error for a reader.
    pub open spec fn spec_description(self) -> &'static str {
        match self {
            Error::WalletAlreadyExists => "Wallet already exists",
            Error::SenderNotFound => "Sender does not exist",
            Error::ReceiverNotFound => "Receiver does not exist",
            Error::InsufficientCurrencyAmount => "Insufficient currency amount",
            Error::SenderSameAsReceiver => "Sender same as receiver",
        }
    }

    /// The number that stands for the error in the history of the ledger.
    pub fn code(&self) -> (code: u8)
        ensures
            code == self.spec_code(),
    {
        match self {
            Error::WalletAlreadyExists => 0,
            Error::SenderNotFound => 1,
            Error::ReceiverNotFound => 2,
            Error::InsufficientCurrencyAmount => 3,
            Error::SenderSameAsReceiver => 4,
        }
    }

    /// The error that a number stands for, if it stands for one.
    pub fn from_code(code: u8) -> (error: Option<Error>)
        ensures
            match error {
                Some(e) => e.spec_code() == code,
                None => code > 4,
            },
    {
        match code {
            0 => Some(Error::WalletAlreadyExists),
            1 => Some(Error::SenderNotFound),
            2 => Some(Error::ReceiverNotFound),
            3 => Some(Error::InsufficientCurrencyAmount),
            4 => Some(Error::SenderSameAsReceiver),
            _ => None,
        }
    }

    /// The description of the error for a reader.
    pub fn description(&self) -> (text: &'static str)
        ensures
            text == self.spec_description(),
    {
        match self {
            Error::WalletAlreadyExists => "Wallet already exists",
            Error::SenderNotFound => "Sender does not exist",
            Error::ReceiverNotFound => "Receiver does not exist",
            Error::InsufficientCurrencyAmount => "Insufficient currency amount",
            Error::SenderSameAsReceiver => "Sender same as receiver",
        }
    }
}

/// Two errors with the same code are the same error.
pub proof fn lemma_code_names_one_error(a: Error, b: Error)
    requires
        a.spec_code() == b.spec_code(),
    ensures
        a == b,
{
}

/// A refusal in the form in which the history of the ledger keeps it: the
/// code of the error, which every replica records, and a description, which is
/// for readers only.
#[derive(Clone, Copy, Debug, PartialEq, Eq)]
pub struct ExecutionError {
    pub code: u8,
    pub description: Option<&'static str>,
}

impl ExecutionError {
    /// A refusal with a code and no description.
    pub fn new(code: u8) -> (error: ExecutionError)
        ensures
            error == (ExecutionError { code, description: None }),
    {
        ExecutionError { code, description: None }
    }

    /// A refusal with a code and a description.
    pub fn with_description(code: u8, description: &'static str) -> (error: ExecutionError)
        ensures
            error == (ExecutionError { code, description: Some(description) }),
    {
        ExecutionError { code, description: Some(description) }
    }
}

impl From<Error> for ExecutionError {
    fn from(value: Error) -> (error: ExecutionError) {
        ExecutionError::with_description(value.code(), value.description())
    }
}

impl vstd::std_specs::convert::FromSpecImpl<Error> for ExecutionError {
    open spec fn obeys_from_spec() -> bool {
        true
    }

    /// A refusal carries the code and the description of its error.
    open spec fn from_spec(value: Error) -> ExecutionError {
        ExecutionError { code: value.spec_code(), description: Some(value.spec_description()) }
    }
}

} // verus!
