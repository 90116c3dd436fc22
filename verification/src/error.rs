use vstd::prelude::*;

verus! {

/// The required request parameter that an invocation failed to supply.
#[derive(Clone, Copy, PartialEq, Eq, Structural, Debug)]
pub enum Field {
    SwapId,
    ColorSender,
    AmountSender,
    ColorRecipient,
    AmountRecipient,
    AddressRecipient,
    ScNameSender,
    ScNameRecipient,
    AgentIdRecipient,
}

/// Why an invocation was rejected.
///
/// Every engine operation either applies in full or returns one of these,
/// leaving registry, custody and ledgers exactly as they were.
#[derive(Clone, Copy, PartialEq, Eq, Structural, Debug)]
pub enum SwapError {
    /// A required parameter is absent.
    Missing(Field),
    /// `start` was invoked with a swap id that is already present.
    AlreadyExists,
    /// No swap record is stored under the given id.
    NotFound,
    /// The record's terminal flag is already set.
    AlreadyFinished,
    /// The caller is not the recorded sender.
    NotSender,
    /// The caller is not the recorded recipient.
    NotRecipient,
    /// The validity window has not expired yet (hash-locked cancel).
    StillOpen,
    /// The validity window has already expired (finalize).
    NoLongerOpen,
    /// The value attached to the invocation does not equal the recorded amount.
    WrongAmount,
    /// More than one token color was attached to the invocation.
    TooManyColors,
    /// The revealed secret's digest does not equal the stored commitment.
    WrongSecret,
    /// The external ledger has not authorized this contract for the amount.
    InsufficientAllowance,
    /// An external ledger transfer was rejected for lack of balance.
    InsufficientBalance,
    /// A balance would exceed the largest representable amount.
    Overflow,
    /// No secret satisfying the commitment has been revealed yet.
    SecretUnavailable,
}

impl SwapError {
    /// The message surfaced to the caller of the rejected invocation,
    /// fixed per failure category.
    pub fn message(&self) -> (r: &'static str)
        ensures
            *self == SwapError::Missing(Field::SwapId) ==> r@ == "missing mandatory swap id"@,
            *self == SwapError::Missing(Field::ColorSender) ==> r@
                == "missing mandatory sender color"@,
            *self == SwapError::Missing(Field::AmountSender) ==> r@
                == "missing mandatory sender amount"@,
            *self == SwapError::Missing(Field::ColorRecipient) ==> r@
                == "missing mandatory recipient color"@,
            *self == SwapError::Missing(Field::AmountRecipient) ==> r@
                == "missing mandatory recipient amount"@,
            *self == SwapError::Missing(Field::AddressRecipient) ==> r@
                == "missing mandatory recipient id"@,
            *self == SwapError::Missing(Field::ScNameSender) ==> r@
                == "missing name of sender erc20 smart contract"@,
            *self == SwapError::Missing(Field::ScNameRecipient) ==> r@
                == "missing name of recipient erc20 smart contract"@,
            *self == SwapError::Missing(Field::AgentIdRecipient) ==> r@
                == "missing agent id of recipient"@,
            *self == SwapError::AlreadyExists ==> r@ == "swap id already exists"@,
            *self == SwapError::NotFound ==> r@ == "swap id does not exist"@,
            *self == SwapError::AlreadyFinished ==> r@ == "swap is already finished"@,
            *self == SwapError::NotSender ==> r@ == "only the sender is able to cancel the swap"@,
            *self == SwapError::NotRecipient ==> r@
                == "only the recipient is able to finalize the swap"@,
            *self == SwapError::StillOpen ==> r@ == "swap is open yet"@,
            *self == SwapError::NoLongerOpen ==> r@ == "swap is not open anymore"@,
            *self == SwapError::WrongAmount ==> r@
                == "transferred balance of color does not match amount parameter"@,
            *self == SwapError::TooManyColors ==> r@
                == "only one color is allowed to be transferred to the contract"@,
            *self == SwapError::WrongSecret ==> r@ == "wrong secret"@,
            *self == SwapError::InsufficientAllowance ==> r@
                == "contract is not allowed to transfer the specified amount of tokens"@,
            *self == SwapError::InsufficientBalance ==> r@
                == "ledger balance is not sufficient for the transfer"@,
            *self == SwapError::Overflow ==> r@ == "transfer would overflow a ledger balance"@,
            *self == SwapError::SecretUnavailable ==> r@ == "swap secret not available"@,
    {
        match self {
            SwapError::Missing(Field::SwapId) => "missing mandatory swap id",
            SwapError::Missing(Field::ColorSender) => "missing mandatory sender color",
            SwapError::Missing(Field::AmountSender) => "missing mandatory sender amount",
            SwapError::Missing(Field::ColorRecipient) => "missing mandatory recipient color",
            SwapError::Missing(Field::AmountRecipient) => "missing mandatory recipient amount",
            SwapError::Missing(Field::AddressRecipient) => "missing mandatory recipient id",
            SwapError::Missing(Field::ScNameSender) => "missing name of sender erc20 smart contract",
            SwapError::Missing(Field::ScNameRecipient) => "missing name of recipient erc20 smart contract",
            SwapError::Missing(Field::AgentIdRecipient) => "missing agent id of recipient",
            SwapError::AlreadyExists => "swap id already exists",
            SwapError::NotFound => "swap id does not exist",
            SwapError::AlreadyFinished => "swap is already finished",
            SwapError::NotSender => "only the sender is able to cancel the swap",
            SwapError::NotRecipient => "only the recipient is able to finalize the swap",
            SwapError::StillOpen => "swap is open yet",
            SwapError::NoLongerOpen => "swap is not open anymore",
            SwapError::WrongAmount => "transferred balance of color does not match amount parameter",
            SwapError::TooManyColors => "only one color is allowed to be transferred to the contract",
            SwapError::WrongSecret => "wrong secret",
            SwapError::InsufficientAllowance => "contract is not allowed to transfer the specified amount of tokens",
            SwapError::InsufficientBalance => "ledger balance is not sufficient for the transfer",
            SwapError::Overflow => "transfer would overflow a ledger balance",
            SwapError::SecretUnavailable => "swap secret not available",
        }
    }
}

} // verus!
