use stateless_witness::builder::{AccountProof, StorageProof, EMPTY_ROOT};
use stateless_witness::diff::{AccountDiff, AccountUpdate};
use stateless_witness::error::WitnessError;
use stateless_witness::input::ClientExecutorInput;
use stateless_witness::rlp::{decode_account, decode_string, push_rlp_list, push_rlp_string, TrieAccount};
use stateless_witness::state::EthereumStateTries;
use stateless_witness::trie::{hex_prefix_encode, to_nibbles, TrieNode};
use stateless_witness::witness::{
    build_witness_db, encode_header, verify_header_chain, Header, StateRequest, KECCAK_EMPTY,
};

fn keccak(b: &[u8]) -> [u8; 32] {
    revm_primitives::keccak256(b).0
}

fn account_bytes(nonce: u8, balance: &[u8], storage_root: [u8; 32], code_hash: [u8; 32]) -> Vec<u8> {
    let mut payload = Vec::new();
    let nonce_bytes: Vec<u8> = if nonce == 0 { vec![] } else { vec![nonce] };
    push_rlp_string(&mut payload, &nonce_bytes);
    push_rlp_string(&mut payload, balance);
    push_rlp_string(&mut payload, &storage_root);
    push_rlp_string(&mut payload, &code_hash);
    let mut out = Vec::new();
    push_rlp_list(&mut out, &payload);
    out
}

fn empty_branch() -> Vec<Option<Box<TrieNode>>> {
    (0..16).map(|_| None).collect()
}

/// A trie holding each (key, value) under the nibbles of the key; the keys must differ in
/// their first nibble.
fn two_level_trie(entries: &[(&[u8], Vec<u8>)]) -> (TrieNode, Vec<Vec<u8>>) {
    let mut children = empty_branch();
    let mut leaf_encodings = Vec::new();
    for (key, value) in entries {
        let nibbles = to_nibbles(key);
        let leaf = TrieNode::Leaf(nibbles[1..].to_vec(), value.clone());
        leaf_encodings.push(leaf.encode());
        children[nibbles[0] as usize] = Some(Box::new(leaf));
    }
    (TrieNode::Branch(children), leaf_encodings)
}

fn address(n: u8) -> [u8; 20] {
    [n; 20]
}

/// Two addresses whose hashes differ in the first nibble.
fn two_addresses() -> ([u8; 20], [u8; 20]) {
    let a = address(1);
    let ha = keccak(&a)[0] >> 4;
    let mut n = 2u8;
    loop {
        let b = address(n);
        if keccak(&b)[0] >> 4 != ha {
            return (a, b);
        }
        n += 1;
    }
}

fn header(number: u64, parent_hash: [u8; 32], tag: u8) -> Header {
    Header {
        parent_hash,
        ommers_hash: [0x1d; 32],
        beneficiary: [tag; 20],
        state_root: [0u8; 32],
        transactions_root: [0x56; 32],
        receipts_root: [0x56; 32],
        logs_bloom: vec![0u8; 256],
        difficulty: vec![],
        number,
        rest: vec![0x83, 0x01, 0x00, 0x00],
    }
}

fn header_hash(h: &Header) -> [u8; 32] {
    stateless_witness::witness::header_hash(h)
}

#[test]
fn empty_trie_hash_is_empty_root() {
    assert_eq!(TrieNode::Null.hash(), EMPTY_ROOT);
    assert_eq!(TrieNode::Null.encode(), vec![0x80]);
}

#[test]
fn empty_code_hash_constant() {
    assert_eq!(keccak(&[]), KECCAK_EMPTY);
}

#[test]
fn rlp_strings() {
    let mut out = Vec::new();
    push_rlp_string(&mut out, &[0x05]);
    assert_eq!(out, vec![0x05]);
    let mut out = Vec::new();
    push_rlp_string(&mut out, &[0x80]);
    assert_eq!(out, vec![0x81, 0x80]);
    let mut out = Vec::new();
    push_rlp_string(&mut out, &[]);
    assert_eq!(out, vec![0x80]);
    let long = vec![7u8; 60];
    let mut out = Vec::new();
    push_rlp_string(&mut out, &long);
    assert_eq!(out[0..2], [0xb8, 60]);
    assert_eq!(out.len(), 62);
    assert_eq!(decode_string(&[0x82, 1, 2]), Some(vec![1, 2]));
    assert_eq!(decode_string(&[0x81, 0x05]), None);
}

#[test]
fn hex_prefix_forms() {
    assert_eq!(hex_prefix_encode(&[1, 2, 3], false), vec![0x11, 0x23]);
    assert_eq!(hex_prefix_encode(&[1, 2], false), vec![0x00, 0x12]);
    assert_eq!(hex_prefix_encode(&[0xf, 1, 0xc, 0xb, 8], true), vec![0x3f, 0x1c, 0xb8]);
    assert_eq!(hex_prefix_encode(&[0, 0xf, 1, 0xc, 0xb, 8], true), vec![0x20, 0x0f, 0x1c, 0xb8]);
    assert_eq!(to_nibbles(&[0xab, 0x01]), vec![0xa, 0xb, 0x0, 0x1]);
}

#[test]
fn account_round_trip() {
    let bytes = account_bytes(3, &[0x01, 0x00], EMPTY_ROOT, KECCAK_EMPTY);
    let a: TrieAccount = decode_account(&bytes).unwrap();
    assert_eq!(a.nonce, 3);
    assert_eq!(a.balance, vec![0x01, 0x00]);
    assert_eq!(a.storage_root, EMPTY_ROOT);
    assert_eq!(a.code_hash, KECCAK_EMPTY);
    let mut bad = bytes.clone();
    bad[1] += 1;
    assert!(decode_account(&bad).is_none());
}

#[test]
fn known_single_leaf_root() {
    // The trie holding "doe" -> "reindeer" has a well-known root.
    let leaf = TrieNode::Leaf(to_nibbles(b"doe"), b"reindeer".to_vec());
    let root = leaf.hash();
    let expected = keccak(&leaf.encode());
    assert_eq!(root, expected);
    let mut enc = Vec::new();
    let mut payload = Vec::new();
    push_rlp_string(&mut payload, &[0x20, 0x64, 0x6f, 0x65]);
    push_rlp_string(&mut payload, b"reindeer");
    push_rlp_list(&mut enc, &payload);
    assert_eq!(leaf.encode(), enc);
}

#[test]
fn get_reads_leaves_and_reports_digests() {
    let mut children = empty_branch();
    children[1] = Some(Box::new(TrieNode::Leaf(vec![2, 3], vec![9])));
    children[4] = Some(Box::new(TrieNode::Digest([7u8; 32])));
    let t = TrieNode::Branch(children);
    assert_eq!(t.get(&[1, 2, 3]), Ok(Some(vec![9])));
    assert_eq!(t.get(&[1, 2, 4]), Ok(None));
    assert_eq!(t.get(&[5, 0, 0]), Ok(None));
    assert!(t.get(&[4, 0, 0]).is_err());
    let mut t = t;
    t.clear();
    assert_eq!(t.get(&[1, 2, 3]), Ok(None));
}

fn sample_state() -> ([u8; 20], [u8; 20], EthereumStateTries, [u8; 32], Vec<u8>) {
    let (a, b) = two_addresses();
    let code = vec![0x60, 0x00, 0x60, 0x00];
    let code_hash = keccak(&code);
    let slot_key = [0u8; 32];
    let slot_nibbles = to_nibbles(&keccak(&slot_key));
    let mut value_enc = Vec::new();
    push_rlp_string(&mut value_enc, &[0x2a]);
    let storage = TrieNode::Leaf(slot_nibbles, value_enc);
    let storage_root = storage.hash();
    let (state_trie, _) = two_level_trie(&[
        (&keccak(&a), account_bytes(1, &[0x10], storage_root, code_hash)),
        (&keccak(&b), account_bytes(0, &[], EMPTY_ROOT, KECCAK_EMPTY)),
    ]);
    let root = state_trie.hash();
    let state = EthereumStateTries { state_trie, storage_tries: vec![(keccak(&a), storage)] };
    (a, b, state, root, code)
}

#[test]
fn slot_reads_distinguish_unknown_from_zero() {
    let (a, b, state, _, _) = sample_state();
    let present = state.get_slot(&keccak(&a), &keccak(&[0u8; 32]));
    assert_eq!(present, Ok(Some(vec![0x2a])));
    let unset = state.get_slot(&keccak(&a), &keccak(&[1u8; 32]));
    assert_eq!(unset, Ok(None));
    let unknown = state.get_slot(&keccak(&b), &keccak(&[0u8; 32]));
    assert_eq!(unknown, Err(WitnessError::UnknownStorageTrie));
}

#[test]
fn witness_db_resolves_accounts_slots_and_hashes() {
    let (a, _b, state, root, code) = sample_state();
    let absent = address(0xee);
    let h9 = header(9, [0u8; 32], 9);
    let h10 = header(10, header_hash(&h9), 10);
    let requests = vec![
        StateRequest { address: a, slots: vec![[0u8; 32], [1u8; 32]] },
        StateRequest { address: absent, slots: vec![] },
    ];
    let db = build_witness_db(&state, &root, &requests, &vec![code.clone()], &vec![h10, h9]).unwrap();
    let info = &db.accounts[0].1;
    assert_eq!(info.nonce, 1);
    assert_eq!(info.balance, vec![0x10]);
    assert_eq!(info.code, code);
    let default = &db.accounts[1].1;
    assert_eq!(default.nonce, 0);
    assert!(default.balance.is_empty());
    assert!(default.code.is_empty());
    assert_eq!(default.code_hash, KECCAK_EMPTY);
    assert_eq!(db.storage.len(), 1);
    assert_eq!(db.storage[0].1, vec![([0u8; 32], vec![0x2a]), ([1u8; 32], vec![])]);
    assert_eq!(db.block_hashes, vec![(9, header_hash(&header(9, [0u8; 32], 9)))]);
    assert_eq!(db.account(&a).unwrap().nonce, 1);
    assert!(db.account(&address(0x77)).is_none());
    assert_eq!(db.storage_value(&a, &[0u8; 32]), Some(vec![0x2a]));
    assert_eq!(db.storage_value(&a, &[1u8; 32]), Some(vec![]));
    assert_eq!(db.storage_value(&a, &[2u8; 32]), None);
    assert_eq!(db.block_hash(9), Some(header_hash(&header(9, [0u8; 32], 9))));
    assert_eq!(db.block_hash(8), None);
}

#[test]
fn storage_request_for_unproved_address_is_unknown_account() {
    let (_, _, state, root, code) = sample_state();
    let requests = vec![StateRequest { address: address(0xee), slots: vec![[0u8; 32]] }];
    let r = build_witness_db(&state, &root, &requests, &vec![code], &vec![]);
    assert!(matches!(r, Err(WitnessError::UnknownAccount)));
}

#[test]
fn missing_bytecode_fails() {
    let (a, _, state, root, _) = sample_state();
    let requests = vec![StateRequest { address: a, slots: vec![] }];
    let r = build_witness_db(&state, &root, &requests, &vec![vec![0x00]], &vec![]);
    assert!(matches!(r, Err(WitnessError::MissingBytecode)));
}

#[test]
fn empty_code_hash_needs_no_bytecode() {
    let (_, b, state, root, _) = sample_state();
    let requests = vec![StateRequest { address: b, slots: vec![] }];
    let db = build_witness_db(&state, &root, &requests, &vec![], &vec![]).unwrap();
    assert!(db.accounts[0].1.code.is_empty());
}

#[test]
fn state_root_mismatch_fails() {
    let (a, _, state, _, code) = sample_state();
    let requests = vec![StateRequest { address: a, slots: vec![] }];
    let r = build_witness_db(&state, &[1u8; 32], &requests, &vec![code], &vec![]);
    assert!(matches!(r, Err(WitnessError::StateRootMismatch)));
}

#[test]
fn header_gap_is_non_consecutive() {
    let h7 = header(7, [0u8; 32], 7);
    let h9 = header(9, header_hash(&h7), 9);
    let h10 = header(10, header_hash(&h9), 10);
    let r = verify_header_chain(&vec![h10, h9, h7]);
    assert_eq!(r, Err(WitnessError::NonConsecutiveHeaders));
}

#[test]
fn header_parent_hash_mismatch() {
    let h9 = header(9, [0u8; 32], 9);
    let h10 = header(10, [5u8; 32], 10);
    let r = verify_header_chain(&vec![h10, h9]);
    assert_eq!(r, Err(WitnessError::ParentHashMismatch));
}

#[test]
fn header_chain_table() {
    let h8 = header(8, [0u8; 32], 8);
    let h9 = header(9, header_hash(&h8), 9);
    let h10 = header(10, header_hash(&h9), 10);
    let t = verify_header_chain(&vec![h10, h9, h8]).unwrap();
    assert_eq!(t, vec![(9, header_hash(&header(9, header_hash(&header(8, [0u8; 32], 8)), 9))), (8, header_hash(&header(8, [0u8; 32], 8)))]);
    assert_eq!(verify_header_chain(&vec![]).unwrap(), vec![]);
}

#[test]
fn trie_from_full_proofs_has_the_real_root() {
    let (a, b) = two_addresses();
    let acc_a = account_bytes(1, &[0x10], EMPTY_ROOT, KECCAK_EMPTY);
    let acc_b = account_bytes(2, &[0x20], EMPTY_ROOT, KECCAK_EMPTY);
    let (real, leaves) = two_level_trie(&[(&keccak(&a), acc_a.clone()), (&keccak(&b), acc_b)]);
    let root = real.hash();
    let root_enc = real.encode();
    let proofs = vec![AccountProof {
        address: a,
        storage_root: EMPTY_ROOT,
        proof: vec![root_enc.clone(), leaves[0].clone()],
        storage_proofs: vec![StorageProof { key: [0u8; 32], proof: vec![] }],
    }];
    let built = EthereumStateTries::from_proofs(&root, &proofs).unwrap();
    assert_eq!(built.state_root(), root);
    let got = built.get_account(&keccak(&a)).unwrap().unwrap();
    assert_eq!(got.nonce, 1);
    // b's leaf was not opened by the proof.
    assert_eq!(built.get_account(&keccak(&b)).err(), Some(WitnessError::ProofIncomplete));
    // a's storage is empty and reads as unset.
    assert_eq!(built.get_slot(&keccak(&a), &keccak(&[3u8; 32])), Ok(None));
}

#[test]
fn proof_not_anchored_at_root_fails() {
    let (a, b) = two_addresses();
    let (real, _) = two_level_trie(&[
        (&keccak(&a), account_bytes(1, &[0x10], EMPTY_ROOT, KECCAK_EMPTY)),
        (&keccak(&b), account_bytes(2, &[0x20], EMPTY_ROOT, KECCAK_EMPTY)),
    ]);
    let proofs = vec![AccountProof {
        address: a,
        storage_root: EMPTY_ROOT,
        proof: vec![real.encode()],
        storage_proofs: vec![],
    }];
    let r = EthereumStateTries::from_proofs(&[9u8; 32], &proofs);
    assert!(matches!(r, Err(WitnessError::ProofMismatch)));
}

#[test]
fn malformed_proof_node_fails() {
    let bad = vec![0xf8, 0x40, 0x01];
    let mut padded = bad.clone();
    padded.extend(vec![0u8; 40]);
    let root = keccak(&padded);
    let proofs = vec![AccountProof {
        address: address(1),
        storage_root: EMPTY_ROOT,
        proof: vec![padded],
        storage_proofs: vec![],
    }];
    let r = EthereumStateTries::from_proofs(&root, &proofs);
    assert!(matches!(r, Err(WitnessError::MalformedProof)));
}

fn key(n: u8) -> Vec<u8> {
    to_nibbles(&keccak(&[n]))
}

#[test]
fn insert_then_get() {
    let mut t = TrieNode::Null;
    for n in 0..20u8 {
        assert_eq!(t.insert(&key(n), vec![n, 1]), Ok(()));
    }
    for n in 0..20u8 {
        assert_eq!(t.get(&key(n)), Ok(Some(vec![n, 1])));
    }
    assert_eq!(t.get(&key(200)), Ok(None));
    assert_eq!(t.insert(&key(3), vec![9]), Ok(()));
    assert_eq!(t.get(&key(3)), Ok(Some(vec![9])));
}

#[test]
fn insertion_order_does_not_change_the_root() {
    let mut a = TrieNode::Null;
    let mut b = TrieNode::Null;
    for n in 0..12u8 {
        a.insert(&key(n), vec![n; 40]).unwrap();
    }
    for n in (0..12u8).rev() {
        b.insert(&key(n), vec![n; 40]).unwrap();
    }
    assert_eq!(a.hash(), b.hash());
}

#[test]
fn delete_restores_the_previous_root() {
    let mut t = TrieNode::Null;
    for n in 0..8u8 {
        t.insert(&key(n), vec![n; 40]).unwrap();
    }
    let before = t.hash();
    t.insert(&key(100), vec![7; 40]).unwrap();
    assert_ne!(t.hash(), before);
    assert_eq!(t.delete(&key(100)), Ok(()));
    assert_eq!(t.hash(), before);
    assert_eq!(t.get(&key(100)), Ok(None));
    // Deleting a missing key changes nothing.
    assert_eq!(t.delete(&key(101)), Ok(()));
    assert_eq!(t.hash(), before);
    for n in 0..8u8 {
        t.delete(&key(n)).unwrap();
    }
    assert_eq!(t.hash(), EMPTY_ROOT);
}

#[test]
fn delete_next_to_a_digest_fails() {
    let mut children = empty_branch();
    children[1] = Some(Box::new(TrieNode::Leaf(vec![2], vec![9])));
    children[4] = Some(Box::new(TrieNode::Digest([7u8; 32])));
    let mut t = TrieNode::Branch(children);
    assert!(t.delete(&[1, 2]).is_err());
}

#[test]
fn key_that_prefixes_another_is_refused() {
    let mut t = TrieNode::Null;
    t.insert(&[1, 2, 3], vec![1]).unwrap();
    assert!(t.insert(&[1, 2], vec![2]).is_err());
    assert_eq!(t.get(&[1, 2, 3]), Ok(Some(vec![1])));
}

#[test]
fn empty_update_keeps_the_root() {
    let (_, _, mut state, root, _) = sample_state();
    assert_eq!(state.update(&vec![]), Ok(()));
    assert_eq!(state.state_root(), root);
}

#[test]
fn update_writes_storage_and_account() {
    let (a, b, mut state, _, _) = sample_state();
    let ha = keccak(&a);
    let diff = vec![AccountDiff {
        hashed_address: ha,
        account: Some(AccountUpdate { nonce: 5, balance: vec![0x01, 0x00], code_hash: KECCAK_EMPTY }),
        wiped: false,
        slots: vec![(keccak(&[1u8; 32]), vec![0x07])],
    }];
    assert_eq!(state.update(&diff), Ok(()));
    let acct = state.get_account(&ha).unwrap().unwrap();
    assert_eq!(acct.nonce, 5);
    assert_eq!(acct.balance, vec![0x01, 0x00]);
    assert_eq!(acct.storage_root, state.storage_tries[0].1.hash());
    assert_eq!(state.get_slot(&ha, &keccak(&[1u8; 32])), Ok(Some(vec![0x07])));
    // The slot that was not written keeps its value.
    assert_eq!(state.get_slot(&ha, &keccak(&[0u8; 32])), Ok(Some(vec![0x2a])));
    // Zero deletes, a wipe clears.
    let diff = vec![AccountDiff {
        hashed_address: ha,
        account: Some(AccountUpdate { nonce: 6, balance: vec![], code_hash: KECCAK_EMPTY }),
        wiped: true,
        slots: vec![(keccak(&[1u8; 32]), vec![])],
    }];
    state.update(&diff).unwrap();
    assert_eq!(state.get_slot(&ha, &keccak(&[0u8; 32])), Ok(None));
    assert_eq!(state.get_account(&ha).unwrap().unwrap().storage_root, EMPTY_ROOT);
    // An account without a storage trie cannot be updated.
    let diff = vec![AccountDiff {
        hashed_address: keccak(&b),
        account: Some(AccountUpdate { nonce: 1, balance: vec![], code_hash: KECCAK_EMPTY }),
        wiped: false,
        slots: vec![],
    }];
    assert_eq!(state.update(&diff), Err(WitnessError::UnknownStorageTrie));
}

#[test]
fn update_deletes_account() {
    let (a, b, mut state, _, _) = sample_state();
    let diff = vec![AccountDiff { hashed_address: keccak(&b), account: None, wiped: false, slots: vec![] }];
    state.update(&diff).unwrap();
    assert!(state.get_account(&keccak(&b)).unwrap().is_none());
    assert_eq!(state.get_account(&keccak(&a)).unwrap().unwrap().nonce, 1);
}

#[test]
fn transition_proofs_add_nodes() {
    let (a, b) = two_addresses();
    let acc_a = account_bytes(1, &[0x10], EMPTY_ROOT, KECCAK_EMPTY);
    let acc_b = account_bytes(2, &[0x20], EMPTY_ROOT, KECCAK_EMPTY);
    let (real, leaves) = two_level_trie(&[(&keccak(&a), acc_a), (&keccak(&b), acc_b)]);
    let root = real.hash();
    let parent = vec![AccountProof {
        address: a,
        storage_root: EMPTY_ROOT,
        proof: vec![real.encode(), leaves[0].clone()],
        storage_proofs: vec![],
    }];
    let post = vec![AccountProof {
        address: b,
        storage_root: EMPTY_ROOT,
        proof: vec![leaves[1].clone()],
        storage_proofs: vec![],
    }];
    let built = EthereumStateTries::from_transition_proofs(&root, &parent, &post).unwrap();
    assert_eq!(built.state_root(), root);
    assert_eq!(built.get_account(&keccak(&b)).unwrap().unwrap().nonce, 2);
}

#[test]
fn client_input_builds_the_witness() {
    let (a, _, state, root, code) = sample_state();
    let mut parent = header(9, [0u8; 32], 9);
    parent.state_root = root;
    let parent_hash = header_hash(&parent);
    let current = header(10, parent_hash, 10);
    let input = ClientExecutorInput {
        headers: vec![current, parent],
        parent_state: state,
        state_requests: vec![StateRequest { address: a, slots: vec![[0u8; 32]] }],
        bytecodes: vec![code],
    };
    assert_eq!(input.parent_header().number, 9);
    assert_eq!(input.state_anchor(), root);
    let db = input.witness_db().unwrap();
    assert_eq!(db.block_hashes, vec![(9, parent_hash)]);
    let (rest, state) = input.split_parent_state();
    assert_eq!(state.state_root(), root);
    let joined = ClientExecutorInput::from_split_parent_state(rest, state);
    assert_eq!(joined.witness_db().unwrap().accounts[0].1.nonce, 1);
    let mut wrong = joined;
    wrong.headers[1].state_root = [3u8; 32];
    assert!(matches!(wrong.witness_db(), Err(WitnessError::StateRootMismatch)));
}

#[test]
fn header_encoding_is_the_hashed_rlp() {
    let h = header(10, [4u8; 32], 3);
    let enc = encode_header(&h);
    assert_eq!(enc[0], 0xf9);
    assert_eq!(((enc[1] as usize) << 8) + enc[2] as usize, enc.len() - 3);
    // parent hash first, then the ommers hash
    assert_eq!(enc[3], 0xa0);
    assert_eq!(enc[4..36], [4u8; 32]);
    // the number is the ninth field, just before the rest
    let n = enc.len();
    assert_eq!(enc[n - 5..n - 3], [0x0a, 0x83]);
    assert_eq!(header_hash(&h), keccak(&enc));
    // changing the state root changes the block hash
    let mut g = header(10, [4u8; 32], 3);
    g.state_root = [9u8; 32];
    assert_ne!(header_hash(&g), header_hash(&h));
}

#[test]
fn genesis_current_header_is_non_consecutive() {
    let parent = header(0, [0u8; 32], 1);
    let current = header(0, header_hash(&parent), 2);
    assert_eq!(verify_header_chain(&vec![current, parent]), Err(WitnessError::NonConsecutiveHeaders));
}

#[test]
fn request_errors_come_before_chain_errors() {
    let (a, _, state, root, _) = sample_state();
    let h7 = header(7, [0u8; 32], 7);
    let h9 = header(9, header_hash(&h7), 9);
    let requests = vec![StateRequest { address: a, slots: vec![] }];
    let r = build_witness_db(&state, &root, &requests, &vec![], &vec![h9, h7]);
    assert!(matches!(r, Err(WitnessError::MissingBytecode)));
    let requests = vec![StateRequest { address: address(0xee), slots: vec![[0u8; 32]] }];
    let r = build_witness_db(&state, &root, &requests, &vec![], &vec![header(9, [0u8; 32], 9), header(7, [0u8; 32], 7)]);
    assert!(matches!(r, Err(WitnessError::UnknownAccount)));
}

#[test]
fn delete_of_a_missing_key_keeps_the_trie() {
    let mut children = empty_branch();
    children[1] = Some(Box::new(TrieNode::Leaf(vec![2], vec![9])));
    children[4] = Some(Box::new(TrieNode::Digest([7u8; 32])));
    let mut t = TrieNode::Branch(children);
    let before = t.hash();
    assert_eq!(t.delete(&[1, 3]), Ok(()));
    assert_eq!(t.hash(), before);
    assert_eq!(t.delete(&[4, 0]), Err(stateless_witness::trie::TrieError::ProofIncomplete));
    assert_eq!(t.hash(), before);
}

#[test]
fn insert_reports_key_conflicts_and_digests() {
    let mut children = empty_branch();
    children[4] = Some(Box::new(TrieNode::Digest([7u8; 32])));
    children[1] = Some(Box::new(TrieNode::Leaf(vec![2, 3], vec![9])));
    let mut t = TrieNode::Branch(children);
    assert_eq!(t.insert(&[4, 0, 0], vec![1]), Err(stateless_witness::trie::TrieError::ProofIncomplete));
    assert_eq!(t.insert(&[1, 2], vec![1]), Err(stateless_witness::trie::TrieError::KeyConflict));
    assert_eq!(t.insert(&[], vec![1]), Err(stateless_witness::trie::TrieError::KeyConflict));
    assert_eq!(t.insert(&[1, 2, 5], vec![1]), Ok(()));
}
