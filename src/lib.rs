//! Reconstructs a slice of Ethereum state from Merkle-Patricia proofs, binds it to a
//! trusted state root, and exposes it as a read-only witness for re-executing one block.
//!
//! - `trie`: the trie node, its canonical encoding and hash, and reads by nibble path.
//! - `update`: insertion and deletion, stated as changes to what each path reads.
//! - `rlp`: the RLP encodings the trie and the account leaves use.
//! - `builder`: tries rebuilt from proofs, with unopened subtrees kept as digests.
//! - `state`: the account trie and storage tries, and point reads through them.
//! - `diff`: post-execution changes applied to the state.
//! - `witness`: root, bytecode and header-chain checks, and the resulting database.
//! - `input`: the input of one block verification, and the database built from it.

use vstd::prelude::*;

pub mod builder;
pub mod diff;
pub mod error;
pub mod hash;
pub mod input;
pub mod rlp;
pub mod state;
pub mod trie;
pub mod update;
pub mod witness;

verus! {

} // verus!
