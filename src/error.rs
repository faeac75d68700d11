use vstd::prelude::*;

verus! {

/// Why a trie could not be built, read, or bound to a trusted root.
#[derive(Debug, Clone, Copy, PartialEq, Eq, Structural)]
pub enum WitnessError {
    /// Proof node bytes that do not decode.
    MalformedProof,
    /// Value bytes at a leaf that do not decode as the value asked for.
    MalformedEncoding,
    /// A subtree whose hash differs from the one its parent refers to.
    ProofMismatch,
    /// A read that had to enter a subtree the proofs did not open.
    ProofIncomplete,
    /// The account trie's root differs from the trusted anchor.
    StateRootMismatch,
    /// A query for an address that no proof was submitted for.
    UnknownAccount,
    /// A storage query for an address whose storage trie was never built.
    UnknownStorageTrie,
    /// An account's code hash that no supplied bytecode accounts for.
    MissingBytecode,
    /// Two neighbouring headers whose numbers are not consecutive.
    NonConsecutiveHeaders,
    /// A parent header whose hash differs from its child's parent hash.
    ParentHashMismatch,
}

} // verus!
