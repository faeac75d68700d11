use vstd::prelude::*;

use crate::error::WitnessError;
use crate::hash::{keccak256, keccak_of};
use crate::rlp::{append, be_bytes, push_be_bytes, push_rlp_list, push_rlp_string, rlp_list, account_of, account_rlp, encodes_account, is_short_string, rlp_string, TrieAccount};
use crate::state::EthereumStateTries;
use crate::trie::{lookup, nibbles_of, node_hash, Lookup, TrieNode};

verus! {

/// The Keccak-256 hash of empty code.
pub const KECCAK_EMPTY: [u8; 32] = [
    0xc5, 0xd2, 0x46, 0x01, 0x86, 0xf7, 0x23, 0x3c, 0x92, 0x7e, 0x7d, 0xb2, 0xdc, 0xc7, 0x03, 0xc0,
    0xe5, 0x00, 0xb6, 0x53, 0xca, 0x82, 0x27, 0x3b, 0x7b, 0xfa, 0xd8, 0x04, 0x5d, 0x85, 0xa4, 0x70,
];

/// A block header: the leading fields of the Ethereum header, which the checks read or
/// which precede them, and `rest`, the RLP encodings of the fields after `number`
/// (gas limit and on), concatenated. The block hash is the hash of `header_rlp`.
pub struct Header {
    pub parent_hash: [u8; 32],
    pub ommers_hash: [u8; 32],
    pub beneficiary: [u8; 20],
    pub state_root: [u8; 32],
    pub transactions_root: [u8; 32],
    pub receipts_root: [u8; 32],
    pub logs_bloom: Vec<u8>,
    /// Minimal big-endian bytes of the difficulty.
    pub difficulty: Vec<u8>,
    pub number: u64,
    pub rest: Vec<u8>,
}

/// The RLP encoding of a header: the list of its fields in order.
pub open spec fn header_rlp(h: Header) -> Seq<u8> {
    rlp_list(
        rlp_string(h.parent_hash@) + rlp_string(h.ommers_hash@) + rlp_string(h.beneficiary@)
            + rlp_string(h.state_root@) + rlp_string(h.transactions_root@) + rlp_string(
            h.receipts_root@,
        ) + rlp_string(h.logs_bloom@) + rlp_string(h.difficulty@) + rlp_string(
            be_bytes(h.number as nat),
        ) + h.rest@,
    )
}

/// The RLP encoding of a header, whose hash is the block hash.
pub fn encode_header(h: &Header) -> (r: Vec<u8>)
    ensures
        r@ == header_rlp(*h),
{
    let mut payload: Vec<u8> = Vec::new();
    push_rlp_string(&mut payload, h.parent_hash.as_slice());
    push_rlp_string(&mut payload, h.ommers_hash.as_slice());
    push_rlp_string(&mut payload, h.beneficiary.as_slice());
    push_rlp_string(&mut payload, h.state_root.as_slice());
    push_rlp_string(&mut payload, h.transactions_root.as_slice());
    push_rlp_string(&mut payload, h.receipts_root.as_slice());
    push_rlp_string(&mut payload, h.logs_bloom.as_slice());
    push_rlp_string(&mut payload, h.difficulty.as_slice());
    let mut number: Vec<u8> = Vec::new();
    push_be_bytes(&mut number, h.number);
    assert(number@ =~= be_bytes(h.number as nat));
    push_rlp_string(&mut payload, number.as_slice());
    append(&mut payload, h.rest.as_slice());
    let mut out: Vec<u8> = Vec::new();
    push_rlp_list(&mut out, payload.as_slice());
    assert(out@ =~= header_rlp(*h));
    out
}

/// The block hash of a header.
pub fn header_hash(h: &Header) -> (r: [u8; 32])
    ensures
        r@ == keccak_of(header_rlp(*h)),
{
    let e = encode_header(h);
    keccak256(e.as_slice())
}

/// The account fields handed to block execution.
pub struct AccountInfo {
    /// Minimal big-endian bytes of the balance.
    pub balance: Vec<u8>,
    pub nonce: u64,
    pub code_hash: [u8; 32],
    pub code: Vec<u8>,
}

/// An address whose account is needed, and the storage slots of it that are needed.
pub struct StateRequest {
    pub address: [u8; 20],
    /// Slot keys as 32 big-endian bytes.
    pub slots: Vec<[u8; 32]>,
}

/// The verified state that block execution reads: one account per request, in request
/// order; one storage map for each request that asks for slots; and ancestor block hashes.
pub struct WitnessDb {
    pub accounts: Vec<([u8; 20], AccountInfo)>,
    /// Slot values are minimal big-endian bytes; zero is the empty string.
    pub storage: Vec<([u8; 20], Vec<([u8; 32], Vec<u8>)>)>,
    pub block_hashes: Vec<(u64, [u8; 32])>,
}

/// Whether two 32-byte values are equal.
pub fn bytes32_eq(a: &[u8; 32], b: &[u8; 32]) -> (r: bool)
    ensures
        r == (a@ == b@),
{
    let mut i: usize = 0;
    while i < 32
        invariant
            i <= 32,
            a@.len() == 32 && b@.len() == 32,
            forall|k: int| 0 <= k < i ==> a@[k] == b@[k],
        decreases 32 - i,
    {
        if a[i] != b[i] {
            return false;
        }
        i += 1;
    }
    assert(a@ =~= b@);
    true
}

impl WitnessDb {
    /// The account resolved for `address`.
    pub fn account(&self, address: &[u8; 20]) -> (r: Option<&AccountInfo>)
        ensures
            r is None ==> forall|i: int| 0 <= i < self.accounts@.len() ==> (#[trigger] self.accounts@[i]).0@ != address@,
            r is Some ==> exists|i: int|
                0 <= i < self.accounts@.len() && (#[trigger] self.accounts@[i]).0@ == address@
                    && *r->Some_0 == self.accounts@[i].1,
    {
        let mut i: usize = 0;
        while i < self.accounts.len()
            invariant
                i <= self.accounts@.len(),
                forall|j: int| 0 <= j < i ==> (#[trigger] self.accounts@[j]).0@ != address@,
            decreases self.accounts@.len() - i,
        {
            if bytes20_eq(&self.accounts[i].0, address) {
                return Some(&self.accounts[i].1);
            }
            i += 1;
        }
        None
    }

    /// The value resolved for a storage slot of `address`; zero is the empty string.
    pub fn storage_value(&self, address: &[u8; 20], slot: &[u8; 32]) -> (r: Option<Vec<u8>>)
        ensures
            r is Some ==> exists|i: int, j: int|
                0 <= i < self.storage@.len() && (#[trigger] self.storage@[i]).0@ == address@ && 0 <= j
                    < self.storage@[i].1@.len() && (#[trigger] self.storage@[i].1@[j]).0@ == slot@
                    && r->Some_0@ == self.storage@[i].1@[j].1@,
            r is None ==> forall|i: int, j: int|
                0 <= i < self.storage@.len() && (#[trigger] self.storage@[i]).0@ == address@ && 0 <= j
                    < self.storage@[i].1@.len() ==> (#[trigger] self.storage@[i].1@[j]).0@ != slot@,
    {
        let mut i: usize = 0;
        while i < self.storage.len()
            invariant
                i <= self.storage@.len(),
                forall|a: int, j: int|
                    0 <= a < i && (#[trigger] self.storage@[a]).0@ == address@ && 0 <= j
                        < self.storage@[a].1@.len() ==> (#[trigger] self.storage@[a].1@[j]).0@ != slot@,
            decreases self.storage@.len() - i,
        {
            if bytes20_eq(&self.storage[i].0, address) {
                let slots = &self.storage[i].1;
                let mut j: usize = 0;
                while j < slots.len()
                    invariant
                        j <= slots@.len(),
                        i < self.storage@.len(),
                        slots@ == self.storage@[i as int].1@,
                        self.storage@[i as int].0@ == address@,
                        forall|k: int| 0 <= k < j ==> (#[trigger] slots@[k]).0@ != slot@,
                    decreases slots@.len() - j,
                {
                    if bytes32_eq(&slots[j].0, slot) {
                        let v = slots[j].1.clone();
                        assert(v@ == self.storage@[i as int].1@[j as int].1@);
                        assert(self.storage@[i as int].1@[j as int].0@ == slot@);
                        return Some(v);
                    }
                    j += 1;
                }
            }
            i += 1;
        }
        None
    }

    /// The hash of an ancestor block, by number.
    pub fn block_hash(&self, number: u64) -> (r: Option<[u8; 32]>)
        ensures
            r is None ==> forall|i: int| 0 <= i < self.block_hashes@.len() ==> (#[trigger] self.block_hashes@[i]).0 != number,
            r is Some ==> exists|i: int|
                0 <= i < self.block_hashes@.len() && (#[trigger] self.block_hashes@[i]).0 == number
                    && r->Some_0 == self.block_hashes@[i].1,
    {
        let mut i: usize = 0;
        while i < self.block_hashes.len()
            invariant
                i <= self.block_hashes@.len(),
                forall|j: int| 0 <= j < i ==> (#[trigger] self.block_hashes@[j]).0 != number,
            decreases self.block_hashes@.len() - i,
        {
            if self.block_hashes[i].0 == number {
                return Some(self.block_hashes[i].1);
            }
            i += 1;
        }
        None
    }
}

/// Whether two addresses are equal.
pub fn bytes20_eq(a: &[u8; 20], b: &[u8; 20]) -> (r: bool)
    ensures
        r == (a@ == b@),
{
    let mut i: usize = 0;
    while i < 20
        invariant
            i <= 20,
            a@.len() == 20 && b@.len() == 20,
            forall|k: int| 0 <= k < i ==> a@[k] == b@[k],
        decreases 20 - i,
    {
        if a[i] != b[i] {
            return false;
        }
        i += 1;
    }
    assert(a@ =~= b@);
    true
}

/// The error, if any, of a child header and the header before it.
pub open spec fn pair_error(child: Header, parent: Header) -> Option<WitnessError> {
    if child.number == 0 || parent.number != child.number - 1 {
        Some(WitnessError::NonConsecutiveHeaders)
    } else if keccak_of(header_rlp(parent)) != child.parent_hash@ {
        Some(WitnessError::ParentHashMismatch)
    } else {
        None
    }
}

/// The first error in a newest-first header chain, from position `i` on.
pub open spec fn chain_error(hs: Seq<Header>, i: nat) -> Option<WitnessError>
    decreases hs.len() - i,
{
    if i + 1 >= hs.len() {
        None
    } else {
        match pair_error(hs[i as int], hs[i + 1 as int]) {
            Some(e) => Some(e),
            None => chain_error(hs, i + 1),
        }
    }
}

/// The block-hash table that a valid chain gives: each parent's number with the hash
/// its child names.
pub open spec fn chain_hashes_ok(hs: Seq<Header>, t: Seq<(u64, [u8; 32])>) -> bool {
    &&& t.len() == if hs.len() == 0 { 0 } else { hs.len() - 1 }
    &&& forall|i: int|
        0 <= i < t.len() ==> #[trigger] t[i].0 == hs[i + 1].number && t[i].1@ == hs[i].parent_hash@
}

/// Checks a newest-first chain of headers pair by pair and gives the block-hash table.
pub fn verify_header_chain(headers: &Vec<Header>) -> (r: Result<Vec<(u64, [u8; 32])>, WitnessError>)
    ensures
        match chain_error(headers@, 0) {
            Some(e) => r == Err::<Vec<(u64, [u8; 32])>, WitnessError>(e),
            None => r is Ok && chain_hashes_ok(headers@, r->Ok_0@),
        },
        r is Err ==> r->Err_0 == WitnessError::NonConsecutiveHeaders || r->Err_0
            == WitnessError::ParentHashMismatch,
{
    let mut table: Vec<(u64, [u8; 32])> = Vec::new();
    if headers.len() == 0 {
        return Ok(table);
    }
    let mut i: usize = 0;
    while i < headers.len() - 1
        invariant
            i + 1 <= headers@.len(),
            headers@.len() > 0,
            chain_error(headers@, 0) == chain_error(headers@, i as nat),
            table@.len() == i,
            forall|k: int|
                0 <= k < i ==> #[trigger] table@[k].0 == headers@[k + 1].number && table@[k].1@
                    == headers@[k].parent_hash@,
        decreases headers@.len() - i,
    {
        let child = &headers[i];
        let parent = &headers[i + 1];
        if child.number == 0 || parent.number != child.number - 1 {
            return Err(WitnessError::NonConsecutiveHeaders);
        }
        let h = header_hash(parent);
        if !bytes32_eq(&h, &child.parent_hash) {
            return Err(WitnessError::ParentHashMismatch);
        }
        table.push((parent.number, child.parent_hash));
        i += 1;
    }
    assert(i + 1 == headers@.len());
    assert(chain_error(headers@, i as nat) is None);
    assert(chain_error(headers@, 0) is None);
    assert(table@.len() == headers@.len() - 1);
    assert(chain_hashes_ok(headers@, table@));
    Ok(table)
}

/// The first of `bcs`, from position `i` on, whose hash is `h`.
pub open spec fn first_code(bcs: Seq<Vec<u8>>, h: Seq<u8>, i: nat) -> Option<Seq<u8>>
    decreases bcs.len() - i,
{
    if i >= bcs.len() {
        None
    } else if keccak_of(bcs[i as int]@) == h {
        Some(bcs[i as int]@)
    } else {
        first_code(bcs, h, i + 1)
    }
}

/// The code that a code hash stands for: a supplied bytecode with that hash, else empty
/// code for the empty-code hash.
pub open spec fn code_for(bcs: Seq<Vec<u8>>, h: Seq<u8>) -> Option<Seq<u8>> {
    match first_code(bcs, h, 0) {
        Some(c) => Some(c),
        None => if h == KECCAK_EMPTY@ {
            Some(Seq::empty())
        } else {
            None
        },
    }
}

/// `info` is the default account: no balance, nonce zero, empty code.
pub open spec fn is_default_info(info: AccountInfo) -> bool {
    &&& info.balance@.len() == 0
    &&& info.nonce == 0
    &&& info.code_hash@ == KECCAK_EMPTY@
    &&& info.code@.len() == 0
}

/// `info` agrees with the decoded account `a` and with the code its hash stands for.
pub open spec fn info_of(info: AccountInfo, a: TrieAccount, bcs: Seq<Vec<u8>>) -> bool {
    &&& info.nonce == a.nonce
    &&& info.balance@ == a.balance@
    &&& info.code_hash@ == a.code_hash@
    &&& code_for(bcs, a.code_hash@) == Some(info.code@)
}

/// `info` is what the account trie proves for an address whose path leads to `l`.
pub open spec fn info_ok(info: AccountInfo, l: Lookup, bcs: Seq<Vec<u8>>) -> bool {
    match l {
        Lookup::Absent => is_default_info(info),
        Lookup::Found(v) => exists|a: TrieAccount| account_rlp(a) == v && #[trigger] info_of(info, a, bcs),
        Lookup::Incomplete => false,
    }
}

/// The hashes of the supplied bytecodes, in order.
pub fn hash_bytecodes(bytecodes: &Vec<Vec<u8>>) -> (r: Vec<[u8; 32]>)
    ensures
        r@.len() == bytecodes@.len(),
        forall|i: int| 0 <= i < r@.len() ==> (#[trigger] r@[i])@ == keccak_of(bytecodes@[i]@),
{
    let mut r: Vec<[u8; 32]> = Vec::new();
    let mut i: usize = 0;
    while i < bytecodes.len()
        invariant
            i <= bytecodes@.len(),
            r@.len() == i,
            forall|k: int| 0 <= k < i ==> (#[trigger] r@[k])@ == keccak_of(bytecodes@[k]@),
        decreases bytecodes@.len() - i,
    {
        r.push(keccak256(bytecodes[i].as_slice()));
        i += 1;
    }
    r
}

/// The code that `code_hash` stands for among the supplied bytecodes.
pub fn resolve_code(bytecodes: &Vec<Vec<u8>>, hashes: &Vec<[u8; 32]>, code_hash: &[u8; 32]) -> (r: Result<Vec<u8>, WitnessError>)
    requires
        hashes@.len() == bytecodes@.len(),
        forall|i: int| 0 <= i < hashes@.len() ==> (#[trigger] hashes@[i])@ == keccak_of(bytecodes@[i]@),
    ensures
        match code_for(bytecodes@, code_hash@) {
            Some(c) => r is Ok && r->Ok_0@ == c,
            None => r == Err::<Vec<u8>, WitnessError>(WitnessError::MissingBytecode),
        },
{
    let mut i: usize = 0;
    while i < hashes.len()
        invariant
            i <= hashes@.len(),
            hashes@.len() == bytecodes@.len(),
            forall|k: int| 0 <= k < hashes@.len() ==> (#[trigger] hashes@[k])@ == keccak_of(bytecodes@[k]@),
            first_code(bytecodes@, code_hash@, 0) == first_code(bytecodes@, code_hash@, i as nat),
        decreases hashes@.len() - i,
    {
        if bytes32_eq(&hashes[i], code_hash) {
            return Ok(bytecodes[i].clone());
        }
        i += 1;
    }
    if bytes32_eq(code_hash, &KECCAK_EMPTY) {
        Ok(Vec::new())
    } else {
        Err(WitnessError::MissingBytecode)
    }
}

/// The error, if any, of resolving an account whose path leads to `l`: an unopened
/// subtree, a leaf that does not decode, or a code hash no bytecode accounts for.
pub open spec fn account_error(l: Lookup, bcs: Seq<Vec<u8>>) -> Option<WitnessError> {
    match l {
        Lookup::Absent => None,
        Lookup::Incomplete => Some(WitnessError::ProofIncomplete),
        Lookup::Found(v) => if !encodes_account(v) {
            Some(WitnessError::MalformedEncoding)
        } else if code_for(bcs, account_of(v).code_hash@) is None {
            Some(WitnessError::MissingBytecode)
        } else {
            None
        },
    }
}

/// The error, if any, of reading the slot with key `slot` from the storage trie `t`.
pub open spec fn slot_error(t: TrieNode, slot: Seq<u8>) -> Option<WitnessError> {
    match lookup(t, nibbles_of(keccak_of(slot))) {
        Lookup::Absent => None,
        Lookup::Found(v) => if is_short_string(v) {
            None
        } else {
            Some(WitnessError::MalformedEncoding)
        },
        Lookup::Incomplete => Some(WitnessError::ProofIncomplete),
    }
}

/// The error of the first of `slots`, from position `j` on, that cannot be read.
pub open spec fn first_slot_error(t: TrieNode, slots: Seq<[u8; 32]>, j: nat) -> Option<WitnessError>
    decreases slots.len() - j,
{
    if j >= slots.len() {
        None
    } else {
        match slot_error(t, slots[j as int]@) {
            Some(e) => Some(e),
            None => first_slot_error(t, slots, j + 1),
        }
    }
}

/// The error, if any, of reading the slots of an account: an account without a storage
/// trie is unknown, else the first slot that cannot be read.
pub open spec fn slots_error(state: EthereumStateTries, hashed_address: Seq<u8>, slots: Seq<[u8; 32]>) -> Option<WitnessError> {
    if slots.len() == 0 {
        None
    } else if state.storage_index(hashed_address) is None {
        Some(WitnessError::UnknownAccount)
    } else {
        first_slot_error(state.storage_tries@[state.storage_index(hashed_address)->Some_0].1, slots, 0)
    }
}

/// The error, if any, of answering a request: its account first, then its slots.
pub open spec fn request_error(state: EthereumStateTries, bcs: Seq<Vec<u8>>, req: StateRequest) -> Option<WitnessError> {
    match account_error(lookup(state.state_trie, account_path(req.address@)), bcs) {
        Some(e) => Some(e),
        None => slots_error(state, keccak_of(req.address@), req.slots@),
    }
}

/// The error of the first request, from position `i` on, that cannot be answered.
pub open spec fn first_request_error(state: EthereumStateTries, bcs: Seq<Vec<u8>>, reqs: Seq<StateRequest>, i: nat) -> Option<WitnessError>
    decreases reqs.len() - i,
{
    if i >= reqs.len() {
        None
    } else {
        match request_error(state, bcs, reqs[i as int]) {
            Some(e) => Some(e),
            None => first_request_error(state, bcs, reqs, i + 1),
        }
    }
}

/// What the whole check gives: a root mismatch, else the first request error, else the
/// first header-chain error, else success.
pub open spec fn witness_error(state: EthereumStateTries, anchor: Seq<u8>, reqs: Seq<StateRequest>, bcs: Seq<Vec<u8>>, headers: Seq<Header>) -> Option<WitnessError> {
    if node_hash(state.state_trie) != anchor {
        Some(WitnessError::StateRootMismatch)
    } else {
        match first_request_error(state, bcs, reqs, 0) {
            Some(e) => Some(e),
            None => chain_error(headers, 0),
        }
    }
}

/// The requests that ask for slots, in order: those that get a storage entry.
pub open spec fn with_slots(reqs: Seq<StateRequest>) -> Seq<StateRequest>
    decreases reqs.len(),
{
    if reqs.len() == 0 {
        Seq::empty()
    } else if reqs.last().slots@.len() > 0 {
        with_slots(reqs.drop_last()).push(reqs.last())
    } else {
        with_slots(reqs.drop_last())
    }
}

/// The path of an address in the account trie.
pub open spec fn account_path(address: Seq<u8>) -> Seq<u8> {
    nibbles_of(keccak_of(address))
}

/// Resolves the account of an address, a default account where the proof shows none.
pub fn account_info(state: &EthereumStateTries, bytecodes: &Vec<Vec<u8>>, hashes: &Vec<[u8; 32]>, hashed_address: &[u8; 32]) -> (r: Result<AccountInfo, WitnessError>)
    requires
        hashes@.len() == bytecodes@.len(),
        forall|i: int| 0 <= i < hashes@.len() ==> (#[trigger] hashes@[i])@ == keccak_of(bytecodes@[i]@),
    ensures
        ({
            let l = lookup(state.state_trie, nibbles_of(hashed_address@));
            &&& r is Ok ==> info_ok(r->Ok_0, l, bytecodes@)
            &&& match account_error(l, bytecodes@) {
                Some(e) => r == Err::<AccountInfo, WitnessError>(e),
                None => r is Ok,
            }
            &&& r is Err ==> r->Err_0 == WitnessError::ProofIncomplete || r->Err_0
                == WitnessError::MalformedEncoding || r->Err_0 == WitnessError::MissingBytecode
        }),
{
    match state.get_account(hashed_address) {
        Ok(Some(a)) => {
            let ghost ga = a;
            let code = match resolve_code(bytecodes, hashes, &a.code_hash) {
                Ok(c) => c,
                Err(e) => {
                    assert(account_rlp(ga) == lookup(state.state_trie, nibbles_of(hashed_address@))->Found_0);
                    return Err(e);
                },
            };
            let info = AccountInfo { balance: a.balance, nonce: a.nonce, code_hash: a.code_hash, code };
            assert(info_of(info, ga, bytecodes@));
            Ok(info)
        },
        Ok(None) => Ok(AccountInfo { balance: Vec::new(), nonce: 0, code_hash: KECCAK_EMPTY, code: Vec::new() }),
        Err(e) => Err(e),
    }
}

/// `value` is what the storage trie `t` proves for the slot whose key is `slot`:
/// zero (empty) where the slot is unset.
pub open spec fn slot_ok(t: TrieNode, slot: Seq<u8>, value: Seq<u8>) -> bool {
    match lookup(t, nibbles_of(keccak_of(slot))) {
        Lookup::Absent => value.len() == 0,
        Lookup::Found(v) => rlp_string(value) == v,
        Lookup::Incomplete => false,
    }
}

/// Resolves the requested slots of an account from its storage trie.
pub fn slot_values(state: &EthereumStateTries, hashed_address: &[u8; 32], slots: &Vec<[u8; 32]>) -> (r: Result<Vec<([u8; 32], Vec<u8>)>, WitnessError>)
    requires
        state.wf(),
    ensures
        match slots_error(*state, hashed_address@, slots@) {
            Some(e) => r == Err::<Vec<([u8; 32], Vec<u8>)>, WitnessError>(e),
            None => r is Ok,
        },
        r is Err ==> r->Err_0 == WitnessError::UnknownAccount || r->Err_0
            == WitnessError::UnknownStorageTrie || r->Err_0 == WitnessError::ProofIncomplete
            || r->Err_0 == WitnessError::MalformedEncoding,
        r is Ok ==> r->Ok_0@.len() == slots@.len() && (slots@.len() > 0 ==> state.storage_index(hashed_address@) is Some),
        r is Ok ==> forall|j: int| 0 <= j < slots@.len() ==> (#[trigger] r->Ok_0@[j]).0 == slots@[j] && slot_ok(
            state.storage_tries@[state.storage_index(hashed_address@)->Some_0].1,
            slots@[j]@,
            r->Ok_0@[j].1@,
        ),
{
    let mut out: Vec<([u8; 32], Vec<u8>)> = Vec::new();
    if slots.len() == 0 {
        return Ok(out);
    }
    if state.find_storage(hashed_address).is_none() {
        return Err(WitnessError::UnknownAccount);
    }
    let ghost t = state.storage_tries@[state.storage_index(hashed_address@)->Some_0].1;
    let mut j: usize = 0;
    while j < slots.len()
        invariant
            j <= slots@.len(),
            state.wf(),
            state.storage_index(hashed_address@) is Some,
            t == state.storage_tries@[state.storage_index(hashed_address@)->Some_0].1,
            slots@.len() > 0,
            first_slot_error(t, slots@, 0) == first_slot_error(t, slots@, j as nat),
            out@.len() == j,
            forall|k: int| 0 <= k < j ==> (#[trigger] out@[k]).0 == slots@[k] && slot_ok(t, slots@[k]@, out@[k].1@),
        decreases slots@.len() - j,
    {
        let hs = keccak256(slots[j].as_slice());
        let v = match state.get_slot(hashed_address, &hs) {
            Ok(Some(v)) => v,
            Ok(None) => Vec::new(),
            Err(e) => return Err(e),
        };
        out.push((slots[j], v));
        j += 1;
    }
    Ok(out)
}

/// Binds the state to the trusted anchor root, then resolves every request and checks the
/// header chain, failing at the first violation.
pub fn build_witness_db(
    state: &EthereumStateTries,
    anchor: &[u8; 32],
    requests: &Vec<StateRequest>,
    bytecodes: &Vec<Vec<u8>>,
    headers: &Vec<Header>,
) -> (r: Result<WitnessDb, WitnessError>)
    requires
        state.wf(),
    ensures
        (node_hash(state.state_trie) != anchor@) <==> r == Err::<WitnessDb, WitnessError>(
            WitnessError::StateRootMismatch,
        ),
        match witness_error(*state, anchor@, requests@, bytecodes@, headers@) {
            Some(e) => r == Err::<WitnessDb, WitnessError>(e),
            None => r is Ok,
        },
        r is Ok ==> witness_ok(r->Ok_0, *state, requests@, bytecodes@, headers@),
{
    let root = state.state_root();
    if !bytes32_eq(&root, anchor) {
        return Err(WitnessError::StateRootMismatch);
    }
    let hashes = hash_bytecodes(bytecodes);
    let mut accounts: Vec<([u8; 20], AccountInfo)> = Vec::new();
    let mut storage: Vec<([u8; 20], Vec<([u8; 32], Vec<u8>)>)> = Vec::new();
    let mut i: usize = 0;
    while i < requests.len()
        invariant
            i <= requests@.len(),
            state.wf(),
            node_hash(state.state_trie) == anchor@,
            hashes@.len() == bytecodes@.len(),
            forall|k: int| 0 <= k < hashes@.len() ==> (#[trigger] hashes@[k])@ == keccak_of(bytecodes@[k]@),
            accounts@.len() == i,
            first_request_error(*state, bytecodes@, requests@, 0) == first_request_error(
                *state,
                bytecodes@,
                requests@,
                i as nat,
            ),
            storage@.len() == with_slots(requests@.subrange(0, i as int)).len(),
            forall|k: int| 0 <= k < i ==> #[trigger] account_entry_ok(accounts@[k], *state, requests@[k], bytecodes@),
            forall|k: int|
                0 <= k < storage@.len() ==> #[trigger] storage_entry_ok(
                    storage@[k],
                    *state,
                    with_slots(requests@.subrange(0, i as int))[k],
                ),
        decreases requests@.len() - i,
    {
        let req = &requests[i];
        let ghost before = with_slots(requests@.subrange(0, i as int));
        let ghost after = with_slots(requests@.subrange(0, i + 1));
        assert(requests@.subrange(0, i + 1).drop_last() =~= requests@.subrange(0, i as int));
        let h = keccak256(req.address.as_slice());
        let info = match account_info(state, bytecodes, &hashes, &h) {
            Ok(info) => info,
            Err(e) => return Err(e),
        };
        let values = match slot_values(state, &h, &req.slots) {
            Ok(v) => v,
            Err(e) => return Err(e),
        };
        accounts.push((req.address, info));
        if req.slots.len() > 0 {
            storage.push((req.address, values));
            assert(after == before.push(*req));
        } else {
            assert(after == before);
        }
        i += 1;
    }
    assert(requests@.subrange(0, i as int) =~= requests@);
    let block_hashes = match verify_header_chain(headers) {
        Ok(t) => t,
        Err(e) => return Err(e),
    };
    Ok(WitnessDb { accounts, storage, block_hashes })
}

/// An account entry of the database answers a request as the account trie proves it.
pub open spec fn account_entry_ok(e: ([u8; 20], AccountInfo), state: EthereumStateTries, req: StateRequest, bcs: Seq<Vec<u8>>) -> bool {
    &&& e.0 == req.address
    &&& info_ok(e.1, lookup(state.state_trie, account_path(req.address@)), bcs)
}

/// A storage entry of the database answers a request's slots as the account's storage trie
/// proves them.
pub open spec fn storage_entry_ok(e: ([u8; 20], Vec<([u8; 32], Vec<u8>)>), state: EthereumStateTries, req: StateRequest) -> bool {
    &&& e.0 == req.address
    &&& e.1@.len() == req.slots@.len()
    &&& req.slots@.len() > 0 ==> state.storage_index(keccak_of(req.address@)) is Some
    &&& forall|j: int| 0 <= j < req.slots@.len() ==> (#[trigger] e.1@[j]).0 == req.slots@[j] && slot_ok(
        state.storage_tries@[state.storage_index(keccak_of(req.address@))->Some_0].1,
        req.slots@[j]@,
        e.1@[j].1@,
    )
}

/// The database answers every request as the proofs show, with a storage entry for each
/// request that asks for slots, and holds the block hashes of a valid header chain.
pub open spec fn witness_ok(db: WitnessDb, state: EthereumStateTries, reqs: Seq<StateRequest>, bcs: Seq<Vec<u8>>, headers: Seq<Header>) -> bool {
    &&& db.accounts@.len() == reqs.len()
    &&& db.storage@.len() == with_slots(reqs).len()
    &&& forall|k: int| 0 <= k < reqs.len() ==> #[trigger] account_entry_ok(db.accounts@[k], state, reqs[k], bcs)
    &&& forall|k: int|
        0 <= k < db.storage@.len() ==> #[trigger] storage_entry_ok(db.storage@[k], state, with_slots(reqs)[k])
    &&& chain_error(headers, 0) is None
    &&& chain_hashes_ok(headers, db.block_hashes@)
}

} // verus!
