use vstd::prelude::*;

use crate::error::WitnessError;
use crate::hash::{keccak256, keccak_of};
use crate::rlp::{item_at, read_header, rlp_list, rlp_string, Item};
use crate::state::EthereumStateTries;
use crate::witness::bytes32_eq;
use crate::trie::{
    all_nibbles, children_payload, encoding, hex_prefix, nibbles_of, node_hash, pack_nibbles, reference,
    to_nibbles, wf, wf_children, TrieNode,
};

verus! {

proof fn lemma_pack_append(a: Seq<u8>, b: Seq<u8>)
    requires
        a.len() % 2 == 0,
    ensures
        pack_nibbles(a + b) == pack_nibbles(a) + pack_nibbles(b),
    decreases a.len(),
{
    if a.len() >= 2 {
        lemma_pack_append(a.subrange(2, a.len() as int), b);
        assert((a + b).subrange(2, (a + b).len() as int) =~= a.subrange(2, a.len() as int) + b);
        assert(pack_nibbles(a + b) =~= pack_nibbles(a) + pack_nibbles(b));
    } else {
        assert(a + b =~= b);
        assert(pack_nibbles(a) =~= Seq::<u8>::empty());
        assert(pack_nibbles(a + b) =~= pack_nibbles(a) + pack_nibbles(b));
    }
}

proof fn lemma_nibbles_len(x: Seq<u8>)
    ensures
        nibbles_of(x).len() == 2 * x.len(),
    decreases x.len(),
{
    if x.len() > 0 {
        lemma_nibbles_len(x.drop_last());
    }
}

/// Packing the nibbles of a byte string gives the byte string back.
pub proof fn lemma_pack_nibbles_of(x: Seq<u8>)
    ensures
        pack_nibbles(nibbles_of(x)) == x,
    decreases x.len(),
{
    if x.len() > 0 {
        let y = x.drop_last();
        let l = x.last();
        lemma_pack_nibbles_of(y);
        lemma_nibbles_len(y);
        lemma_pack_append(nibbles_of(y), seq![l / 16, l % 16]);
        let t = seq![l / 16, l % 16];
        assert(t.subrange(2, 2) =~= Seq::<u8>::empty());
        assert(pack_nibbles(t.subrange(2, 2)) =~= Seq::<u8>::empty());
        assert(pack_nibbles(t) =~= seq![l]);
        assert(x =~= y.push(l));
        assert(pack_nibbles(nibbles_of(x)) =~= x);
    } else {
        assert(nibbles_of(x) =~= Seq::<u8>::empty());
        assert(pack_nibbles(nibbles_of(x)) =~= x);
    }
}

/// Decodes a hex-prefix encoded path into its nibbles and its leaf flag.
pub fn decode_hex_prefix(s: &[u8]) -> (r: Option<(Vec<u8>, bool)>)
    ensures
        r is Some ==> hex_prefix(r->Some_0.0@, r->Some_0.1) == s@ && all_nibbles(r->Some_0.0@),
        forall|p: Seq<u8>, leaf: bool| all_nibbles(p) && #[trigger] hex_prefix(p, leaf) == s@ ==> r is Some,
{
    proof {
        assert forall|p: Seq<u8>, leaf: bool| all_nibbles(p) && #[trigger] hex_prefix(p, leaf) == s@ implies s@.len()
            >= 1 && s@[0] / 16 <= 3 && (s@[0] / 16 % 2 == 0 ==> s@[0] % 16 == 0) by {
            let flag: nat = if leaf { 2 } else { 0 };
            if p.len() % 2 == 1 {
                assert(p[0] < 16);
                assert(s@[0] == ((flag + 1) * 16 + p[0]) as u8);
            } else {
                assert(s@[0] == (flag * 16) as u8);
            }
        }
    }
    if s.len() == 0 {
        return None;
    }
    let first = s[0];
    let flag = first / 16;
    if flag > 3 {
        return None;
    }
    let leaf = flag >= 2;
    let rest = &s[1..s.len()];
    assert(rest@ =~= s@.subrange(1, s@.len() as int));
    let nib = to_nibbles(rest);
    proof {
        lemma_pack_nibbles_of(rest@);
    }
    if flag % 2 == 1 {
        let mut path: Vec<u8> = Vec::new();
        path.push(first % 16);
        crate::rlp::append(&mut path, nib.as_slice());
        assert(path@.subrange(1, path@.len() as int) =~= nib@);
        assert(s@ =~= seq![first] + rest@);
        assert(hex_prefix(path@, leaf) =~= s@);
        Some((path, leaf))
    } else {
        if first % 16 != 0 {
            return None;
        }
        assert(s@ =~= seq![first] + rest@);
        assert(hex_prefix(nib@, leaf) =~= s@);
        Some((nib, leaf))
    }
}

/// How a branch or an extension refers to a child slot: an empty string for a free slot.
pub open spec fn child_ref(c: Option<Box<TrieNode>>) -> Seq<u8> {
    match c {
        Some(x) => reference(*x),
        None => seq![0x80u8],
    }
}

pub open spec fn child_wf(c: Option<Box<TrieNode>>) -> bool {
    match c {
        Some(x) => wf(*x),
        None => true,
    }
}

/// Copies `b[start..start + 32]` into an array.
fn read_b32(b: &[u8], start: usize) -> (r: [u8; 32])
    requires
        start + 32 <= b@.len(),
    ensures
        r@ == b@.subrange(start as int, start + 32),
{
    let mut r: [u8; 32] = [0u8; 32];
    let mut i: usize = 0;
    while i < 32
        invariant
            i <= 32,
            start + 32 <= b@.len(),
            forall|k: int| 0 <= k < i ==> r@[k] == b@[start + k],
        decreases 32 - i,
    {
        let n = b.len();
        assert(start + i < n);
        r[i] = b[start + i];
        i += 1;
    }
    assert(r@ =~= b@.subrange(start as int, start + 32));
    r
}

/// Decodes the child slot that the item at `pos` encodes.
fn parse_child(b: &[u8], pos: usize, it: &Item) -> (r: Option<Option<Box<TrieNode>>>)
    requires
        item_at(b@, pos as int, *it),
    ensures
        r is Some ==> child_wf(r->Some_0) && child_ref(r->Some_0) == b@.subrange(
            pos as int,
            it.end as int,
        ),
    decreases it.end - pos, 1nat,
{
    if !it.is_list {
        if it.start == it.end {
            assert(b@.subrange(it.start as int, it.end as int) =~= Seq::<u8>::empty());
            assert(rlp_string(Seq::<u8>::empty()) =~= seq![0x80u8]);
            Some(None)
        } else if it.end - it.start == 32 {
            let d = read_b32(b, it.start);
            Some(Some(Box::new(TrieNode::Digest(d))))
        } else {
            None
        }
    } else {
        if it.end - pos >= 32 {
            return None;
        }
        match parse_node(b, pos, it.end) {
            Some(n) => Some(Some(Box::new(n))),
            None => None,
        }
    }
}

/// The position at which the `k`-th of consecutive items starts.
pub open spec fn item_pos(items: Seq<Item>, start: int, k: int) -> int {
    if k == 0 {
        start
    } else {
        items[k - 1].end as int
    }
}

proof fn lemma_branch(n: TrieNode, b: Seq<u8>, items: Seq<Item>, start: int, i: nat)
    requires
        n is Branch,
        n->Branch_0@.len() == 16,
        items.len() == 17,
        i <= 16,
        forall|k: int|
            i <= k < 16 ==> #[trigger] item_pos(items, start, k) <= item_pos(items, start, k + 1),
        forall|k: int|
            i <= k < 16 ==> child_wf(#[trigger] n->Branch_0@[k]) && child_ref(n->Branch_0@[k])
                == b.subrange(item_pos(items, start, k), item_pos(items, start, k + 1)),
        item_pos(items, start, 16) <= b.len(),
        0 <= item_pos(items, start, i as int),
    ensures
        children_payload(n, i) == b.subrange(item_pos(items, start, i as int), item_pos(items, start, 16)),
        wf_children(n, i),
    decreases 16 - i,
{
    if i < 16 {
        assert(item_pos(items, start, i as int) <= item_pos(items, start, i + 1 as int));
        lemma_branch(n, b, items, start, i + 1);
        let p0 = item_pos(items, start, i as int);
        let p1 = item_pos(items, start, i + 1 as int);
        let p2 = item_pos(items, start, 16);
        assert(b.subrange(p0, p2) =~= b.subrange(p0, p1) + b.subrange(p1, p2));
    } else {
        assert(b.subrange(item_pos(items, start, 16), item_pos(items, start, 16)) =~= Seq::<u8>::empty());
    }
}

/// Decodes the trie node whose canonical encoding is `b[lo..hi]`.
pub fn parse_node(b: &[u8], lo: usize, hi: usize) -> (r: Option<TrieNode>)
    requires
        lo <= hi <= b@.len(),
    ensures
        r is Some ==> wf(r->Some_0) && encoding(r->Some_0) == b@.subrange(lo as int, hi as int)
            && !(r->Some_0 is Digest),
    decreases hi - lo, 0nat,
{
    let head = match read_header(b, lo) {
        Some(h) => h,
        None => return None,
    };
    if !head.is_list || head.end != hi {
        return None;
    }
    let mut items: Vec<Item> = Vec::new();
    let mut cur = head.start;
    while cur < hi && items.len() < 17
        invariant
            lo < head.start <= cur <= hi <= b@.len(),
            items@.len() <= 17,
            cur == item_pos(items@, head.start as int, items@.len() as int),
            forall|k: int|
                0 <= k < items@.len() ==> item_at(
                    b@,
                    #[trigger] item_pos(items@, head.start as int, k),
                    items@[k],
                ) && items@[k].end <= hi && head.start <= item_pos(items@, head.start as int, k),
        decreases hi - cur,
    {
        let it = match read_header(b, cur) {
            Some(it) => it,
            None => return None,
        };
        if it.end > hi {
            return None;
        }
        let ghost old_items = items@;
        items.push(it);
        proof {
            assert forall|k: int| 0 <= k < items@.len() implies item_at(
                b@,
                #[trigger] item_pos(items@, head.start as int, k),
                items@[k],
            ) && items@[k].end <= hi && head.start <= item_pos(items@, head.start as int, k) by {
                if k < old_items.len() {
                    assert(item_pos(items@, head.start as int, k) == item_pos(old_items, head.start as int, k));
                }
            }
        }
        cur = it.end;
    }
    if cur != hi {
        return None;
    }
    let ghost payload = b@.subrange(head.start as int, hi as int);
    assert(b@.subrange(lo as int, hi as int) == rlp_list(payload));
    if items.len() == 17 {
        let last = &items[16];
        assert(item_pos(items@, head.start as int, 16) == items@[15].end);
        if last.is_list || last.start != last.end {
            return None;
        }
        let mut children: Vec<Option<Box<TrieNode>>> = Vec::new();
        let mut k: usize = 0;
        while k < 16
            invariant
                k <= 16,
                items@.len() == 17,
                lo < head.start <= hi <= b@.len(),
                children@.len() == k,
                forall|j: int|
                    0 <= j < items@.len() ==> item_at(
                        b@,
                        #[trigger] item_pos(items@, head.start as int, j),
                        items@[j],
                    ) && items@[j].end <= hi && head.start <= item_pos(items@, head.start as int, j),
                forall|j: int|
                    0 <= j < k ==> child_wf(#[trigger] children@[j]) && child_ref(children@[j])
                        == b@.subrange(
                        item_pos(items@, head.start as int, j),
                        item_pos(items@, head.start as int, j + 1),
                    ),
            decreases 16 - k,
        {
            let pos = if k == 0 { head.start } else { items[k - 1].end };
            assert(pos == item_pos(items@, head.start as int, k as int));
            assert(item_at(b@, item_pos(items@, head.start as int, k as int), items@[k as int]));
            assert(items@[k as int].end - pos < hi - lo);
            let c = match parse_child(b, pos, &items[k]) {
                Some(c) => c,
                None => return None,
            };
            children.push(c);
            k += 1;
        }
        let n = TrieNode::Branch(children);
        proof {
            let st = head.start as int;
            assert forall|j: int| 0 <= j < 16 implies #[trigger] item_pos(items@, st, j) <= item_pos(items@, st, j + 1) by {
                assert(item_at(b@, item_pos(items@, st, j), items@[j]));
            }
            assert(0 <= item_pos(items@, st, 0));
            lemma_branch(n, b@, items@, st, 0);
            let p16 = item_pos(items@, st, 16);
            assert(item_at(b@, p16, items@[16]));
            assert(b@.subrange(items@[16].start as int, items@[16].end as int) =~= Seq::<u8>::empty());
            assert(rlp_string(Seq::<u8>::empty()) =~= seq![0x80u8]);
            assert(payload =~= b@.subrange(st, p16) + b@.subrange(p16, hi as int));
            assert(encoding(n) == rlp_list(children_payload(n, 0) + seq![0x80u8]));
        }
        Some(n)
    } else if items.len() == 2 {
        let i0 = &items[0];
        let i1 = &items[1];
        let ghost st = head.start as int;
        assert(item_at(b@, item_pos(items@, st, 0), items@[0]));
        assert(item_at(b@, item_pos(items@, st, 1), items@[1]));
        if i0.is_list {
            return None;
        }
        let p0 = &b[i0.start..i0.end];
        assert(p0@ =~= b@.subrange(i0.start as int, i0.end as int));
        let (path, leaf) = match decode_hex_prefix(p0) {
            Some(x) => x,
            None => return None,
        };
        assert(payload =~= b@.subrange(st, i0.end as int) + b@.subrange(i0.end as int, hi as int));
        if leaf {
            if i1.is_list {
                return None;
            }
            let mut value: Vec<u8> = Vec::new();
            crate::rlp::append(&mut value, &b[i1.start..i1.end]);
            assert(value@ =~= b@.subrange(i1.start as int, i1.end as int));
            let n = TrieNode::Leaf(path, value);
            assert(encoding(n) =~= b@.subrange(lo as int, hi as int));
            Some(n)
        } else {
            let c = match parse_child(b, i0.end, i1) {
                Some(Some(c)) => c,
                _ => return None,
            };
            let n = TrieNode::Extension(path, c);
            assert(encoding(n) =~= b@.subrange(lo as int, hi as int));
            Some(n)
        }
    } else {
        None
    }
}

/// Proof nodes by hash: each entry holds the hash of its bytes.
pub open spec fn table_ok(table: Seq<([u8; 32], Vec<u8>)>) -> bool {
    forall|i: int| 0 <= i < table.len() ==> (#[trigger] table[i]).0@ == keccak_of(table[i].1@)
}

/// Adds each node of a proof to the table under its hash.
fn add_nodes(table: &mut Vec<([u8; 32], Vec<u8>)>, nodes: &Vec<Vec<u8>>)
    requires
        table_ok(old(table)@),
    ensures
        table_ok(final(table)@),
{
    let mut i: usize = 0;
    while i < nodes.len()
        invariant
            i <= nodes@.len(),
            table_ok(table@),
        decreases nodes@.len() - i,
    {
        let h = keccak256(nodes[i].as_slice());
        let bytes = nodes[i].clone();
        table.push((h, bytes));
        i += 1;
    }
}

proof fn lemma_same_refs(n1: TrieNode, n2: TrieNode, i: nat)
    requires
        n1 is Branch,
        n2 is Branch,
        n1->Branch_0@.len() == 16,
        n2->Branch_0@.len() == 16,
        i <= 16,
        forall|k: int|
            i <= k < 16 ==> child_ref(#[trigger] n1->Branch_0@[k]) == child_ref(n2->Branch_0@[k])
                && child_wf(n2->Branch_0@[k]),
    ensures
        children_payload(n1, i) == children_payload(n2, i),
        wf_children(n2, i),
    decreases 16 - i,
{
    if i < 16 {
        lemma_same_refs(n1, n2, i + 1);
    }
}

/// Opens the subtree whose hash is `h` from the table, as deep as `fuel` allows, leaving
/// what the table does not hold as a digest.
fn resolve(h: &[u8; 32], table: &Vec<([u8; 32], Vec<u8>)>, fuel: usize) -> (r: Result<TrieNode, WitnessError>)
    requires
        table_ok(table@),
    ensures
        r is Ok ==> wf(r->Ok_0) && node_hash(r->Ok_0) == h@ && reference(r->Ok_0) == rlp_string(h@),
        r is Err ==> r->Err_0 == WitnessError::MalformedProof,
    decreases fuel, 0nat,
{
    if fuel == 0 {
        return Ok(TrieNode::Digest(*h));
    }
    let mut i: usize = 0;
    while i < table.len()
        invariant
            i <= table@.len(),
        ensures
            i < table@.len() ==> table@[i as int].1@.len() >= 32 && table@[i as int].0@ == h@,
        decreases table@.len() - i,
    {
        if table[i].1.len() >= 32 && bytes32_eq(&table[i].0, h) {
            break;
        }
        i += 1;
    }
    if i == table.len() {
        return Ok(TrieNode::Digest(*h));
    }
    let bytes = &table[i].1;
    assert(table_ok(table@) ==> table@[i as int].0@ == keccak_of(bytes@));
    let n = match parse_node(bytes.as_slice(), 0, bytes.len()) {
        Some(n) => n,
        None => return Err(WitnessError::MalformedProof),
    };
    assert(bytes@.subrange(0, bytes@.len() as int) =~= bytes@);
    let m = resolve_children(n, table, fuel - 1)?;
    assert(encoding(m) == bytes@);
    Ok(m)
}

/// Opens the digest children of a node from the table; the encoding stays the same.
fn resolve_children(n: TrieNode, table: &Vec<([u8; 32], Vec<u8>)>, fuel: usize) -> (r: Result<TrieNode, WitnessError>)
    requires
        table_ok(table@),
        wf(n),
        !(n is Digest),
    ensures
        r is Ok ==> wf(r->Ok_0) && encoding(r->Ok_0) == encoding(n) && !(r->Ok_0 is Digest),
        r is Err ==> r->Err_0 == WitnessError::MalformedProof,
    decreases fuel, 1nat,
{
    let ghost n0 = n;
    match n {
        TrieNode::Branch(c) => {
            let ghost c0 = c@;
            let mut c = c;
            let mut out: Vec<Option<Box<TrieNode>>> = Vec::new();
            let mut k: usize = 0;
            proof {
                assert forall|j: int| 0 <= j < 16 implies child_wf(#[trigger] c0[j]) by {
                    crate::update::lemma_wf_children_get(n0, 0, j as nat);
                }
            }
            while k < 16
                invariant
                    k <= 16,
                    c0.len() == 16,
                    table_ok(table@),
                    c@ == c0.subrange(k as int, 16),
                    out@.len() == k,
                    forall|j: int| 0 <= j < 16 ==> child_wf(#[trigger] c0[j]),
                    forall|j: int|
                        0 <= j < k ==> child_ref(#[trigger] out@[j]) == child_ref(c0[j]) && child_wf(
                            out@[j],
                        ),
                decreases 16 - k,
            {
                assert(c@[0] == c0[k as int]);
                let ch = c.remove(0);
                let new_ch = match ch {
                    Some(bx) => {
                        let digest = match &*bx {
                            TrieNode::Digest(d) => Some(*d),
                            _ => None,
                        };
                        match digest {
                            Some(d) => {
                                let sub = resolve(&d, table, fuel)?;
                                Some(Box::new(sub))
                            },
                            None => Some(bx),
                        }
                    },
                    None => None,
                };
                out.push(new_ch);
                assert(c@ =~= c0.subrange(k + 1, 16));
                k += 1;
            }
            let m = TrieNode::Branch(out);
            proof {
                lemma_same_refs(n0, m, 0);
            }
            Ok(m)
        },
        TrieNode::Extension(p, child) => {
            let digest = match &*child {
                TrieNode::Digest(d) => Some(*d),
                _ => None,
            };
            match digest {
                Some(d) => {
                    let sub = resolve(&d, table, fuel)?;
                    Ok(TrieNode::Extension(p, Box::new(sub)))
                },
                None => Ok(TrieNode::Extension(p, child)),
            }
        },
        other => Ok(other),
    }
}


/// The root hash of the empty trie.
pub const EMPTY_ROOT: [u8; 32] = [
    0x56, 0xe8, 0x1f, 0x17, 0x1b, 0xcc, 0x55, 0xa6, 0xff, 0x83, 0x45, 0xe6, 0x92, 0xc0, 0xf8, 0x6e,
    0x5b, 0x48, 0xe0, 0x1b, 0x99, 0x6c, 0xad, 0xc0, 0x01, 0x62, 0x2f, 0xb5, 0xe3, 0x63, 0xb4, 0x21,
];

/// How many nodes deep a proof is opened; a 64-nibble path has far fewer.
pub const MAX_DEPTH: usize = 256;

/// The proof of one storage slot: its key and the encoded nodes from the storage root down.
pub struct StorageProof {
    pub key: [u8; 32],
    pub proof: Vec<Vec<u8>>,
}

/// The proof of one account: the encoded nodes from the state root down, the account's
/// storage root, and proofs of some of its slots.
pub struct AccountProof {
    pub address: [u8; 20],
    pub storage_root: [u8; 32],
    pub proof: Vec<Vec<u8>>,
    pub storage_proofs: Vec<StorageProof>,
}

/// A proof is anchored at `root` when it is empty or its first node hashes to `root`.
pub open spec fn anchored(root: Seq<u8>, proof: Seq<Vec<u8>>) -> bool {
    proof.len() == 0 || keccak_of(proof[0]@) == root
}

/// Every account proof starts at the state root and every storage proof at its account's
/// storage root.
pub open spec fn proofs_anchored(root: Seq<u8>, proofs: Seq<AccountProof>) -> bool {
    forall|i: int|
        0 <= i < proofs.len() ==> anchored(root, (#[trigger] proofs[i]).proof@) && forall|j: int|
            0 <= j < proofs[i].storage_proofs@.len() ==> anchored(
                proofs[i].storage_root@,
                (#[trigger] proofs[i].storage_proofs@[j]).proof@,
            )
}

/// `t` is a trie with root hash `root`.
pub open spec fn rooted_at(t: TrieNode, root: Seq<u8>) -> bool {
    node_hash(t) == root
}

/// What a built state holds: well-formed tries, the account trie at the state root, and
/// for each account proved with slots a storage trie at the account's storage root.
pub open spec fn built_from(s: EthereumStateTries, root: Seq<u8>, proofs: Seq<AccountProof>) -> bool {
    &&& s.wf()
    &&& rooted_at(s.state_trie, root)
    &&& forall|i: int| 0 <= i < s.storage_tries@.len() ==> #[trigger] proved_storage(s.storage_tries@[i], proofs)
    &&& forall|j: int|
        0 <= j < proofs.len() && (#[trigger] proofs[j]).storage_proofs@.len() > 0 ==> s.storage_index(
            keccak_of(proofs[j].address@),
        ) is Some
}

/// A storage trie entry is keyed by the hashed address of some proved account and rooted at
/// that account's storage root.
pub open spec fn proved_storage(e: ([u8; 32], TrieNode), proofs: Seq<AccountProof>) -> bool {
    exists|j: int|
        0 <= j < proofs.len() && keccak_of(proofs[j].address@) == e.0@ && rooted_at(e.1, proofs[j].storage_root@)
}

/// A store built from proofs anchored at a root has that root as its state root.
pub proof fn lemma_built_root(s: EthereumStateTries, root: Seq<u8>, proofs: Seq<AccountProof>)
    requires
        built_from(s, root, proofs),
    ensures
        node_hash(s.state_trie) == root,
{
}

fn check_anchor(root: &[u8; 32], proof: &Vec<Vec<u8>>) -> (r: bool)
    ensures
        r == anchored(root@, proof@),
{
    if proof.len() == 0 {
        true
    } else {
        let h = keccak256(proof[0].as_slice());
        bytes32_eq(&h, root)
    }
}

#[verifier::loop_isolation(false)]
fn check_proofs(root: &[u8; 32], proofs: &Vec<AccountProof>) -> (r: bool)
    ensures
        r == proofs_anchored(root@, proofs@),
{
    let mut i: usize = 0;
    while i < proofs.len()
        invariant
            i <= proofs@.len(),
            proofs_anchored(root@, proofs@.subrange(0, i as int)),
        decreases proofs@.len() - i,
    {
        let p = &proofs[i];
        if !check_anchor(root, &p.proof) {
            assert(!anchored(root@, proofs@[i as int].proof@));
            return false;
        }
        let mut j: usize = 0;
        while j < p.storage_proofs.len()
            invariant
                j <= p.storage_proofs@.len(),
                forall|k: int| 0 <= k < j ==> anchored(p.storage_root@, (#[trigger] p.storage_proofs@[k]).proof@),
            decreases p.storage_proofs@.len() - j,
        {
            if !check_anchor(&p.storage_root, &p.storage_proofs[j].proof) {
                assert(!proofs_anchored(root@, proofs@)) by {
                    assert(!anchored(p.storage_root@, p.storage_proofs@[j as int].proof@));
                }
                return false;
            }
            j += 1;
        }
        proof {
            let q = proofs@.subrange(0, i + 1);
            assert forall|a: int| 0 <= a < q.len() implies anchored(root@, (#[trigger] q[a]).proof@) && forall|b: int|
                0 <= b < q[a].storage_proofs@.len() ==> anchored(
                    q[a].storage_root@,
                    (#[trigger] q[a].storage_proofs@[b]).proof@,
                ) by {
                if a < i {
                    assert(q[a] == proofs@.subrange(0, i as int)[a]);
                }
            }
        }
        i += 1;
    }
    assert(proofs@.subrange(0, i as int) =~= proofs@);
    true
}

/// Opens the trie with root hash `root` from the table.
fn build_trie(root: &[u8; 32], table: &Vec<([u8; 32], Vec<u8>)>) -> (r: Result<TrieNode, WitnessError>)
    requires
        table_ok(table@),
    ensures
        r is Ok ==> wf(r->Ok_0) && rooted_at(r->Ok_0, root@),
        r is Err ==> r->Err_0 == WitnessError::MalformedProof,
{
    if bytes32_eq(root, &EMPTY_ROOT) {
        let empty = TrieNode::Null;
        let h = empty.hash();
        if bytes32_eq(&h, root) {
            return Ok(empty);
        }
    }
    resolve(root, table, MAX_DEPTH)
}

/// Builds the state tries from account proofs anchored at `root`; `extra` proofs only
/// contribute nodes.
#[verifier::loop_isolation(false)]
fn build_tries(root: &[u8; 32], proofs: &Vec<AccountProof>, extra: &Vec<AccountProof>) -> (r: Result<EthereumStateTries, WitnessError>)
    ensures
        !proofs_anchored(root@, proofs@) ==> r == Err::<EthereumStateTries, WitnessError>(WitnessError::ProofMismatch),
        r is Ok ==> proofs_anchored(root@, proofs@) && built_from(r->Ok_0, root@, proofs@),
        r is Err ==> r->Err_0 == WitnessError::ProofMismatch || r->Err_0 == WitnessError::MalformedProof,
{
    if !check_proofs(root, proofs) {
        return Err(WitnessError::ProofMismatch);
    }
    let mut table: Vec<([u8; 32], Vec<u8>)> = Vec::new();
    let mut i: usize = 0;
    while i < proofs.len()
        invariant
            table_ok(table@),
        decreases proofs@.len() - i,
    {
        add_nodes(&mut table, &proofs[i].proof);
        i += 1;
    }
    let mut i: usize = 0;
    while i < extra.len()
        invariant
            table_ok(table@),
        decreases extra@.len() - i,
    {
        add_nodes(&mut table, &extra[i].proof);
        i += 1;
    }
    let state_trie = build_trie(root, &table)?;
    let mut s = EthereumStateTries { state_trie, storage_tries: Vec::new() };
    let ghost mut src: Seq<int> = Seq::empty();
    let mut j: usize = 0;
    while j < proofs.len()
        invariant
            j <= proofs@.len(),
            s.wf(),
            rooted_at(s.state_trie, root@),
            src.len() == s.storage_tries@.len(),
            forall|i: int|
                0 <= i < s.storage_tries@.len() ==> 0 <= #[trigger] src[i] < proofs@.len() && keccak_of(
                    proofs@[src[i]].address@,
                ) == s.storage_tries@[i].0@ && rooted_at(s.storage_tries@[i].1, proofs@[src[i]].storage_root@),
            forall|k: int|
                0 <= k < j && (#[trigger] proofs@[k]).storage_proofs@.len() > 0 ==> s.storage_index(
                    keccak_of(proofs@[k].address@),
                ) is Some,
        decreases proofs@.len() - j,
    {
        let p = &proofs[j];
        if p.storage_proofs.len() > 0 {
            let hk = keccak256(p.address.as_slice());
            if s.find_storage(&hk).is_none() {
                let mut st: Vec<([u8; 32], Vec<u8>)> = Vec::new();
                let mut k: usize = 0;
                while k < p.storage_proofs.len()
                    invariant
                        table_ok(st@),
                    decreases p.storage_proofs@.len() - k,
                {
                    add_nodes(&mut st, &p.storage_proofs[k].proof);
                    k += 1;
                }
                let mut e: usize = 0;
                while e < extra.len()
                    invariant
                        table_ok(st@),
                    decreases extra@.len() - e,
                {
                    let mut k: usize = 0;
                    while k < extra[e].storage_proofs.len()
                        invariant
                            table_ok(st@),
                            e < extra@.len(),
                        decreases extra@[e as int].storage_proofs@.len() - k,
                    {
                        add_nodes(&mut st, &extra[e].storage_proofs[k].proof);
                        k += 1;
                    }
                    e += 1;
                }
                let t = build_trie(&p.storage_root, &st)?;
                let ghost old_s = s;
                s.storage_tries.push((hk, t));
                proof {
                    src = src.push(j as int);
                    assert forall|a: int, b: int|
                        0 <= a < b < s.storage_tries@.len() implies #[trigger] s.storage_tries@[a].0@
                            != #[trigger] s.storage_tries@[b].0@ by {
                        if b == s.storage_tries@.len() - 1 {
                            assert(old_s.storage_index(hk@) is None);
                            assert(old_s.storage_tries@[a] == s.storage_tries@[a]);
                        } else {
                            assert(old_s.storage_tries@[a] == s.storage_tries@[a]);
                            assert(old_s.storage_tries@[b] == s.storage_tries@[b]);
                        }
                    }
                    assert forall|i: int| 0 <= i < s.storage_tries@.len() implies wf(
                        #[trigger] s.storage_tries@[i].1,
                    ) by {
                        if i < old_s.storage_tries@.len() {
                            assert(old_s.storage_tries@[i] == s.storage_tries@[i]);
                        }
                    }
                    assert forall|k: int|
                        0 <= k < j + 1 && (#[trigger] proofs@[k]).storage_proofs@.len() > 0 implies s.storage_index(
                        keccak_of(proofs@[k].address@),
                    ) is Some by {
                        if k < j {
                            let w = old_s.storage_index(keccak_of(proofs@[k].address@))->Some_0;
                            assert(s.storage_tries@[w] == old_s.storage_tries@[w]);
                        } else {
                            assert(s.storage_tries@[s.storage_tries@.len() - 1].0@ == keccak_of(proofs@[k].address@));
                        }
                    }
                }
            } else {
                proof {
                    assert(s.storage_index(hk@) is Some);
                }
            }
        }
        j += 1;
    }
    proof {
        assert forall|i: int| 0 <= i < s.storage_tries@.len() implies #[trigger] proved_storage(s.storage_tries@[i], proofs@) by {
            let w = src[i];
            assert(0 <= w < proofs@.len());
        }
        assert(j == proofs@.len());
        assert(s.wf());
        assert(rooted_at(s.state_trie, root@));
        assert(forall|k: int|
            0 <= k < proofs@.len() && (#[trigger] proofs@[k]).storage_proofs@.len() > 0 ==> s.storage_index(
                keccak_of(proofs@[k].address@),
            ) is Some);
        assert(proofs_anchored(root@, proofs@));
        assert(built_from(s, root@, proofs@));
    }
    Ok(s)
}

impl EthereumStateTries {
    /// Builds the account trie and the storage tries of the proved accounts from proofs
    /// anchored at `state_root`. Nodes the proofs do not open stay as digests.
    pub fn from_proofs(state_root: &[u8; 32], proofs: &Vec<AccountProof>) -> (r: Result<EthereumStateTries, WitnessError>)
        ensures
            !proofs_anchored(state_root@, proofs@) ==> r == Err::<EthereumStateTries, WitnessError>(WitnessError::ProofMismatch),
            r is Ok ==> proofs_anchored(state_root@, proofs@) && built_from(r->Ok_0, state_root@, proofs@),
            r is Err ==> r->Err_0 == WitnessError::ProofMismatch || r->Err_0 == WitnessError::MalformedProof,
    {
        let none: Vec<AccountProof> = Vec::new();
        build_tries(state_root, proofs, &none)
    }

    /// Builds the tries from the proofs of a state and the proofs of the state after a
    /// transition, so that both can be read: the first set is anchored at `state_root`,
    /// and the nodes of the second open further subtrees.
    pub fn from_transition_proofs(
        state_root: &[u8; 32],
        parent_proofs: &Vec<AccountProof>,
        proofs: &Vec<AccountProof>,
    ) -> (r: Result<EthereumStateTries, WitnessError>)
        ensures
            !proofs_anchored(state_root@, parent_proofs@) ==> r == Err::<EthereumStateTries, WitnessError>(WitnessError::ProofMismatch),
            r is Ok ==> proofs_anchored(state_root@, parent_proofs@) && built_from(r->Ok_0, state_root@, parent_proofs@),
            r is Err ==> r->Err_0 == WitnessError::ProofMismatch || r->Err_0 == WitnessError::MalformedProof,
    {
        build_tries(state_root, parent_proofs, proofs)
    }
}

} // verus!
