use vstd::prelude::*;

use crate::error::WitnessError;
use crate::rlp::{account_of, account_rlp, decode_account, same_account, decode_string, encodes_account, is_canonical_account, is_short_string, rlp_string, TrieAccount};
use crate::trie::{lookup, nibbles_of, node_hash, to_nibbles, wf, Lookup, TrieError, TrieNode};

verus! {

/// One account trie, keyed by hashed address, and the storage tries of some accounts,
/// each keyed by hashed slot and addressed by the hashed address of its account.
pub struct EthereumStateTries {
    pub state_trie: TrieNode,
    pub storage_tries: Vec<([u8; 32], TrieNode)>,
}

/// What an account read owes, given what the account's path leads to.
pub open spec fn account_result(l: Lookup, r: Result<Option<TrieAccount>, WitnessError>) -> bool {
    match l {
        Lookup::Absent => r is Ok && r->Ok_0 is None,
        Lookup::Incomplete => r == Err::<Option<TrieAccount>, WitnessError>(
            WitnessError::ProofIncomplete,
        ),
        Lookup::Found(v) => match r {
            Ok(Some(a)) => account_rlp(a) == v && is_canonical_account(a) && same_account(
                a,
                account_of(v),
            ),
            Ok(None) => false,
            Err(e) => e == WitnessError::MalformedEncoding && !encodes_account(v),
        },
    }
}

/// What a slot read owes, given what the slot's path leads to.
pub open spec fn slot_result(l: Lookup, r: Result<Option<Vec<u8>>, WitnessError>) -> bool {
    match l {
        Lookup::Absent => r is Ok && r->Ok_0 is None,
        Lookup::Incomplete => r == Err::<Option<Vec<u8>>, WitnessError>(
            WitnessError::ProofIncomplete,
        ),
        Lookup::Found(v) => if is_short_string(v) {
            r is Ok && r->Ok_0 is Some && rlp_string(r->Ok_0->Some_0@) == v
        } else {
            r == Err::<Option<Vec<u8>>, WitnessError>(WitnessError::MalformedEncoding)
        },
    }
}

impl EthereumStateTries {
    /// Every trie is well formed and no two storage tries share an address.
    pub open spec fn wf(&self) -> bool {
        &&& wf(self.state_trie)
        &&& forall|i: int| 0 <= i < self.storage_tries@.len() ==> wf(#[trigger] self.storage_tries@[i].1)
        &&& forall|i: int, j: int|
            0 <= i < j < self.storage_tries@.len() ==> #[trigger] self.storage_tries@[i].0@
                != #[trigger] self.storage_tries@[j].0@
    }

    /// The position of the storage trie for `key`, if one is held.
    pub open spec fn storage_index(&self, key: Seq<u8>) -> Option<int> {
        if exists|i: int| 0 <= i < self.storage_tries@.len() && self.storage_tries@[i].0@ == key {
            Some(
                choose|i: int| 0 <= i < self.storage_tries@.len() && self.storage_tries@[i].0@ == key,
            )
        } else {
            None
        }
    }

    /// The state root: the hash of the account trie.
    pub fn state_root(&self) -> (r: [u8; 32])
        requires
            self.wf(),
        ensures
            r@ == node_hash(self.state_trie),
    {
        self.state_trie.hash()
    }

    /// Reads the account stored under a hashed address.
    pub fn get_account(&self, hashed_address: &[u8; 32]) -> (r: Result<Option<TrieAccount>, WitnessError>)
        ensures
            account_result(lookup(self.state_trie, nibbles_of(hashed_address@)), r),
    {
        let path = to_nibbles(hashed_address.as_slice());
        match self.state_trie.get(path.as_slice()) {
            Ok(Some(v)) => match decode_account(v.as_slice()) {
                Some(a) => Ok(Some(a)),
                None => Err(WitnessError::MalformedEncoding),
            },
            Ok(None) => Ok(None),
            Err(_) => Err(WitnessError::ProofIncomplete),
        }
    }

    /// Finds the storage trie held for a hashed address.
    pub fn find_storage(&self, hashed_address: &[u8; 32]) -> (r: Option<usize>)
        ensures
            r is Some <==> self.storage_index(hashed_address@) is Some,
            r is Some ==> r->Some_0 < self.storage_tries@.len() && self.storage_tries@[r->Some_0 as int].0@
                == hashed_address@,
    {
        let mut i: usize = 0;
        while i < self.storage_tries.len()
            invariant
                i <= self.storage_tries@.len(),
                forall|k: int| 0 <= k < i ==> self.storage_tries@[k].0@ != hashed_address@,
            decreases self.storage_tries@.len() - i,
        {
            if crate::witness::bytes32_eq(&self.storage_tries[i].0, hashed_address) {
                return Some(i);
            }
            i += 1;
        }
        None
    }

    /// Reads a storage slot of an account, both keys hashed. A slot that the proof shows
    /// unset reads as `None`; an account without a storage trie is an error.
    pub fn get_slot(&self, hashed_address: &[u8; 32], hashed_slot: &[u8; 32]) -> (r: Result<Option<Vec<u8>>, WitnessError>)
        requires
            self.wf(),
        ensures
            self.storage_index(hashed_address@) is None ==> r == Err::<Option<Vec<u8>>, WitnessError>(
                WitnessError::UnknownStorageTrie,
            ),
            self.storage_index(hashed_address@) is Some ==> slot_result(
                lookup(
                    self.storage_tries@[self.storage_index(hashed_address@)->Some_0].1,
                    nibbles_of(hashed_slot@),
                ),
                r,
            ),
    {
        let idx = match self.find_storage(hashed_address) {
            Some(i) => i,
            None => return Err(WitnessError::UnknownStorageTrie),
        };
        proof {
            let j = self.storage_index(hashed_address@)->Some_0;
            if j != idx as int {
                if j < idx {
                    assert(self.storage_tries@[j].0@ != self.storage_tries@[idx as int].0@);
                } else {
                    assert(self.storage_tries@[idx as int].0@ != self.storage_tries@[j].0@);
                }
            }
        }
        let path = to_nibbles(hashed_slot.as_slice());
        match self.storage_tries[idx].1.get(path.as_slice()) {
            Ok(Some(v)) => match decode_string(v.as_slice()) {
                Some(s) => Ok(Some(s)),
                None => Err(WitnessError::MalformedEncoding),
            },
            Ok(None) => Ok(None),
            Err(_) => Err(WitnessError::ProofIncomplete),
        }
    }
}

} // verus!
