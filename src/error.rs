//! Failures that the ledger reports to its caller.
use vstd::prelude::*;

verus! {

#[derive(Clone, Copy, Debug, PartialEq, Eq, Structural)]
pub enum LedgerError {
    /// The spendable outputs of the sender do not cover the amount.
    InsufficientFunds,
    /// The block at the tip does not meet the proof-of-work target.
    InvalidProofOfWork,
    /// No nonce below the bound meets the proof-of-work target.
    ProofOfWorkExhausted,
    /// The store holds no chain and no address was given to start one.
    NotInitialized,
    /// A stored block does not decode, or a block that the chain refers to is missing.
    CorruptChain,
}

} // verus!
