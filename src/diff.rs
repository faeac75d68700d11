use vstd::prelude::*;

use crate::error::WitnessError;
use crate::rlp::{account_fields_rlp, encode_account, push_rlp_string, rlp_string, TrieAccount};
use crate::state::EthereumStateTries;
use crate::trie::{lookup, nibbles_of, node_hash, to_nibbles, wf, Lookup, TrieError, TrieNode};
use crate::update::{inserted, removed};

verus! {

/// The new fields of an account that execution left in place.
pub struct AccountUpdate {
    pub nonce: u64,
    /// Minimal big-endian bytes of the balance.
    pub balance: Vec<u8>,
    pub code_hash: [u8; 32],
}

/// What execution did to one account, keyed by its hashed address: its new fields, or
/// `None` where it was deleted; whether its storage was wiped; and the slot writes, each
/// a hashed slot key and a value (minimal big-endian bytes; empty for zero, which deletes).
pub struct AccountDiff {
    pub hashed_address: [u8; 32],
    pub account: Option<AccountUpdate>,
    pub wiped: bool,
    pub slots: Vec<([u8; 32], Vec<u8>)>,
}

/// What a storage trie leads to after an optional wipe and then `writes` in order: the
/// last write to a slot wins, a zero write removes the slot.
pub open spec fn slots_applied(base: TrieNode, wiped: bool, writes: Seq<([u8; 32], Vec<u8>)>, q: Seq<u8>) -> Lookup
    decreases writes.len(),
{
    if writes.len() == 0 {
        if wiped {
            Lookup::Absent
        } else {
            lookup(base, q)
        }
    } else {
        let w = writes.last();
        if q == nibbles_of(w.0@) {
            if w.1@.len() == 0 {
                Lookup::Absent
            } else {
                Lookup::Found(rlp_string(w.1@))
            }
        } else {
            slots_applied(base, wiped, writes.drop_last(), q)
        }
    }
}

/// A slot that no write touches and that is not wiped reads after the writes as it read
/// before them.
pub proof fn lemma_unwritten_slot_kept(base: TrieNode, writes: Seq<([u8; 32], Vec<u8>)>, q: Seq<u8>)
    requires
        forall|i: int| 0 <= i < writes.len() ==> nibbles_of((#[trigger] writes[i]).0@) != q,
    ensures
        slots_applied(base, false, writes, q) == lookup(base, q),
    decreases writes.len(),
{
    if writes.len() > 0 {
        assert(nibbles_of(writes[writes.len() - 1].0@) != q);
        assert forall|i: int| 0 <= i < writes.drop_last().len() implies nibbles_of(
            (#[trigger] writes.drop_last()[i]).0@,
        ) != q by {
            assert(writes.drop_last()[i] == writes[i]);
        }
        lemma_unwritten_slot_kept(base, writes.drop_last(), q);
    }
}

fn map_trie_error(e: TrieError) -> (r: WitnessError)
    ensures
        e == TrieError::ProofIncomplete ==> r == WitnessError::ProofIncomplete,
        e != TrieError::ProofIncomplete ==> r == WitnessError::MalformedProof,
{
    match e {
        TrieError::ProofIncomplete => WitnessError::ProofIncomplete,
        _ => WitnessError::MalformedProof,
    }
}

/// Wipes a storage trie if asked, then applies the slot writes in order.
pub fn apply_storage(trie: &mut TrieNode, wiped: bool, writes: &Vec<([u8; 32], Vec<u8>)>) -> (r: Result<(), WitnessError>)
    requires
        wf(*old(trie)),
    ensures
        wf(*final(trie)),
        r is Ok ==> forall|q: Seq<u8>| #[trigger] lookup(*final(trie), q) == slots_applied(*old(trie), wiped, writes@, q),
{
    let ghost t0 = *trie;
    if wiped {
        trie.clear();
    }
    let mut i: usize = 0;
    while i < writes.len()
        invariant
            i <= writes@.len(),
            wf(*trie),
            forall|q: Seq<u8>| #[trigger] lookup(*trie, q) == slots_applied(t0, wiped, writes@.subrange(0, i as int), q),
        decreases writes@.len() - i,
    {
        let ghost before = *trie;
        let path = to_nibbles(writes[i].0.as_slice());
        let value = &writes[i].1;
        let ghost ws = writes@.subrange(0, i + 1);
        assert(ws.drop_last() =~= writes@.subrange(0, i as int));
        if value.len() == 0 {
            match trie.delete(path.as_slice()) {
                Ok(()) => {},
                Err(e) => return Err(map_trie_error(e)),
            }
            assert forall|q: Seq<u8>| #[trigger] lookup(*trie, q) == slots_applied(t0, wiped, ws, q) by {
                assert(lookup(*trie, q) == removed(before, path@, q));
            }
        } else {
            let mut enc: Vec<u8> = Vec::new();
            push_rlp_string(&mut enc, value.as_slice());
            match trie.insert(path.as_slice(), enc) {
                Ok(()) => {},
                Err(e) => return Err(map_trie_error(e)),
            }
            assert forall|q: Seq<u8>| #[trigger] lookup(*trie, q) == slots_applied(t0, wiped, ws, q) by {
                assert(lookup(*trie, q) == inserted(before, path@, enc@, q));
            }
        }
        i += 1;
    }
    assert(writes@.subrange(0, i as int) =~= writes@);
    Ok(())
}

/// `new` is `old` after the account diff `diff`: a deleted account's leaf is gone; else its
/// storage trie is wiped and written, and its leaf holds the new fields and storage root.
pub open spec fn account_diff_applied(old: EthereumStateTries, new: EthereumStateTries, diff: AccountDiff) -> bool {
    match diff.account {
        None => new.storage_tries == old.storage_tries && forall|q: Seq<u8>|
            #[trigger] lookup(new.state_trie, q) == removed(old.state_trie, nibbles_of(diff.hashed_address@), q),
        Some(a) => {
            &&& old.storage_index(diff.hashed_address@) is Some
            &&& ({
                let idx = old.storage_index(diff.hashed_address@)->Some_0;
                let st = new.storage_tries@[idx].1;
                &&& new.storage_tries@.len() == old.storage_tries@.len()
                &&& new.storage_tries@[idx].0 == old.storage_tries@[idx].0
                &&& forall|j: int|
                    0 <= j < old.storage_tries@.len() && j != idx ==> #[trigger] new.storage_tries@[j]
                        == old.storage_tries@[j]
                &&& forall|q: Seq<u8>|
                    #[trigger] lookup(st, q) == slots_applied(old.storage_tries@[idx].1, diff.wiped, diff.slots@, q)
                &&& forall|q: Seq<u8>|
                    #[trigger] lookup(new.state_trie, q) == inserted(
                        old.state_trie,
                        nibbles_of(diff.hashed_address@),
                        account_fields_rlp(a.nonce, a.balance@, node_hash(st), a.code_hash@),
                        q,
                    )
            })
        },
    }
}

/// `stores` runs from `old` through each diff of `diffs` in order.
pub open spec fn diffs_applied(stores: Seq<EthereumStateTries>, diffs: Seq<AccountDiff>) -> bool {
    &&& stores.len() == diffs.len() + 1
    &&& forall|i: int| 0 <= i < diffs.len() ==> #[trigger] account_diff_applied(stores[i], stores[i + 1], diffs[i])
}

impl EthereumStateTries {
    /// Applies what execution did to one account. For a deleted account its leaf leaves
    /// the account trie. Otherwise its storage trie is wiped and written first, and then
    /// an account leaf with the new fields and the new storage root is written.
    pub fn apply_account_diff(&mut self, diff: &AccountDiff) -> (r: Result<(), WitnessError>)
        requires
            old(self).wf(),
        ensures
            final(self).wf(),
            diff.account is Some && old(self).storage_index(diff.hashed_address@) is None ==> r
                == Err::<(), WitnessError>(WitnessError::UnknownStorageTrie),
            r is Ok ==> account_diff_applied(*old(self), *final(self), *diff),
            diff.account is None && lookup(old(self).state_trie, nibbles_of(diff.hashed_address@)) is Absent
                ==> r is Ok && *final(self) == *old(self),
            diff.account is None && lookup(old(self).state_trie, nibbles_of(diff.hashed_address@)) is Incomplete
                ==> r == Err::<(), WitnessError>(WitnessError::ProofIncomplete),
    {
        let path = to_nibbles(diff.hashed_address.as_slice());
        match &diff.account {
            None => {
                let res = self.state_trie.delete(path.as_slice());
                match res {
                    Ok(()) => Ok(()),
                    Err(e) => Err(map_trie_error(e)),
                }
            },
            Some(a) => {
                let idx = match self.find_storage(&diff.hashed_address) {
                    Some(i) => i,
                    None => return Err(WitnessError::UnknownStorageTrie),
                };
                let ghost old_self = *self;
                proof {
                    let j = self.storage_index(diff.hashed_address@)->Some_0;
                    if j != idx as int {
                        if j < idx {
                            assert(self.storage_tries@[j].0@ != self.storage_tries@[idx as int].0@);
                        } else {
                            assert(self.storage_tries@[idx as int].0@ != self.storage_tries@[j].0@);
                        }
                    }
                }
                let (key, mut st) = self.storage_tries.remove(idx);
                let res = apply_storage(&mut st, diff.wiped, &diff.slots);
                let storage_root = st.hash();
                let ghost gst = st;
                self.storage_tries.insert(idx, (key, st));
                proof {
                    assert(self.storage_tries@ =~= old_self.storage_tries@.update(idx as int, (key, gst)));
                    assert forall|i: int| 0 <= i < self.storage_tries@.len() implies wf(
                        #[trigger] self.storage_tries@[i].1,
                    ) by {
                        if i != idx {
                            assert(self.storage_tries@[i] == old_self.storage_tries@[i]);
                        }
                    }
                    assert forall|i: int, j: int|
                        0 <= i < j < self.storage_tries@.len() implies #[trigger] self.storage_tries@[i].0@
                            != #[trigger] self.storage_tries@[j].0@ by {
                        assert(old_self.storage_tries@[i].0@ != old_self.storage_tries@[j].0@);
                    }
                }
                match res {
                    Ok(()) => {},
                    Err(e) => return Err(e),
                }
                let acct = TrieAccount {
                    nonce: a.nonce,
                    balance: a.balance.clone(),
                    storage_root,
                    code_hash: a.code_hash,
                };
                let enc = encode_account(&acct);
                match self.state_trie.insert(path.as_slice(), enc) {
                    Ok(()) => Ok(()),
                    Err(e) => Err(map_trie_error(e)),
                }
            },
        }
    }

    /// Applies what execution did to each account, in order, so that the store stands for
    /// the state after the block. An empty diff leaves the store as it was.
    pub fn update(&mut self, post_state: &Vec<AccountDiff>) -> (r: Result<(), WitnessError>)
        requires
            old(self).wf(),
        ensures
            final(self).wf(),
            post_state@.len() == 0 ==> r is Ok && *final(self) == *old(self),
            r is Ok ==> exists|stores: Seq<EthereumStateTries>|
                diffs_applied(stores, post_state@) && stores[0] == *old(self) && stores.last()
                    == *final(self),
    {
        let ghost mut stores: Seq<EthereumStateTries> = seq![*self];
        let mut i: usize = 0;
        while i < post_state.len()
            invariant
                i <= post_state@.len(),
                self.wf(),
                post_state@.len() == 0 ==> *self == *old(self),
                diffs_applied(stores, post_state@.subrange(0, i as int)),
                stores[0] == *old(self),
                stores.last() == *self,
            decreases post_state@.len() - i,
        {
            match self.apply_account_diff(&post_state[i]) {
                Ok(()) => {},
                Err(e) => return Err(e),
            }
            proof {
                let prev = stores;
                stores = stores.push(*self);
                let ds = post_state@.subrange(0, i + 1);
                assert forall|j: int| 0 <= j < ds.len() implies #[trigger] account_diff_applied(stores[j], stores[j + 1], ds[j]) by {
                    if j < i {
                        assert(ds[j] == post_state@.subrange(0, i as int)[j]);
                        assert(stores[j] == prev[j] && stores[j + 1] == prev[j + 1]);
                    } else {
                        assert(stores[j] == prev.last());
                    }
                }
            }
            i += 1;
        }
        assert(post_state@.subrange(0, i as int) =~= post_state@);
        Ok(())
    }
}

} // verus!
