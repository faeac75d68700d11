use vstd::prelude::*;

use crate::hash::{keccak256, keccak_of};
use crate::rlp::{push_rlp_list, push_rlp_string, rlp_list, rlp_string};

verus! {

/// A node of a Merkle-Patricia trie. Paths are sequences of nibbles (values below 16).
pub enum TrieNode {
    /// The empty trie.
    Null,
    /// Sixteen child slots, one for each next nibble.
    Branch(Vec<Option<Box<TrieNode>>>),
    /// The remaining nibbles of a key and the value stored under it.
    Leaf(Vec<u8>, Vec<u8>),
    /// A nibble prefix shared by everything below, and the child that holds it.
    Extension(Vec<u8>, Box<TrieNode>),
    /// The hash of a subtree that was not opened.
    Digest([u8; 32]),
}

/// Why a trie operation could not be carried out.
#[derive(Debug, Clone, Copy, PartialEq, Eq, Structural)]
pub enum TrieError {
    /// The walk had to enter a subtree that is only known by its hash.
    ProofIncomplete,
    /// The bytes stored at a leaf do not decode as the value asked for.
    MalformedEncoding,
    /// A key that would be a proper prefix of another key.
    KeyConflict,
}

/// What a path leads to in a trie.
pub enum Lookup {
    Found(Seq<u8>),
    Absent,
    Incomplete,
}

/// Packs an even number of nibbles two to a byte.
pub open spec fn pack_nibbles(s: Seq<u8>) -> Seq<u8>
    decreases s.len(),
{
    if s.len() < 2 {
        Seq::empty()
    } else {
        seq![(s[0] * 16 + s[1]) as u8] + pack_nibbles(s.subrange(2, s.len() as int))
    }
}

/// The hex-prefix (compact) encoding of a nibble path, flagged as a leaf's or an extension's.
pub open spec fn hex_prefix(path: Seq<u8>, leaf: bool) -> Seq<u8> {
    let flag: nat = if leaf { 2 } else { 0 };
    if path.len() % 2 == 1 {
        seq![((flag + 1) * 16 + path[0]) as u8] + pack_nibbles(path.subrange(1, path.len() as int))
    } else {
        seq![(flag * 16) as u8] + pack_nibbles(path)
    }
}

/// The nibbles of a byte string, high nibble first.
pub open spec fn nibbles_of(b: Seq<u8>) -> Seq<u8>
    decreases b.len(),
{
    if b.len() == 0 {
        Seq::empty()
    } else {
        nibbles_of(b.drop_last()) + seq![b.last() / 16, b.last() % 16]
    }
}

pub open spec fn all_nibbles(s: Seq<u8>) -> bool {
    forall|i: int| 0 <= i < s.len() ==> #[trigger] s[i] < 16
}

/// A node is well formed when a branch has sixteen slots, every path holds nibbles only,
/// and the same holds of every child.
pub open spec fn wf(n: TrieNode) -> bool
    decreases n, 1nat, 0nat,
{
    match n {
        TrieNode::Null => true,
        TrieNode::Branch(c) => c@.len() == 16 && wf_children(n, 0),
        TrieNode::Leaf(p, _) => all_nibbles(p@),
        TrieNode::Extension(p, child) => all_nibbles(p@) && wf(*child),
        TrieNode::Digest(_) => true,
    }
}

/// Every child of a branch from slot `i` on is well formed.
pub open spec fn wf_children(n: TrieNode, i: nat) -> bool
    decreases n, 0nat, 16 - i,
{
    match n {
        TrieNode::Branch(c) => {
            if i >= 16 || i >= c@.len() {
                true
            } else {
                (match c@[i as int] {
                    Some(ch) => wf(*ch),
                    None => true,
                }) && wf_children(n, i + 1)
            }
        },
        _ => true,
    }
}

/// The canonical encoding of a node.
pub open spec fn encoding(n: TrieNode) -> Seq<u8>
    decreases n, 1nat, 0nat,
{
    match n {
        TrieNode::Null => seq![0x80u8],
        TrieNode::Branch(c) => rlp_list(children_payload(n, 0) + seq![0x80u8]),
        TrieNode::Leaf(p, v) => rlp_list(rlp_string(hex_prefix(p@, true)) + rlp_string(v@)),
        TrieNode::Extension(p, child) => rlp_list(
            rlp_string(hex_prefix(p@, false)) + reference(*child),
        ),
        TrieNode::Digest(d) => rlp_string(d@),
    }
}

/// How a parent refers to a node: its encoding inline when shorter than 32 bytes,
/// else the encoded hash of it.
pub open spec fn reference(n: TrieNode) -> Seq<u8>
    decreases n, 2nat, 0nat,
{
    match n {
        TrieNode::Digest(d) => rlp_string(d@),
        _ => {
            let e = encoding(n);
            if e.len() < 32 {
                e
            } else {
                rlp_string(keccak_of(e))
            }
        },
    }
}

/// The references of a branch's children from slot `i` on, an empty string for a free slot.
pub open spec fn children_payload(n: TrieNode, i: nat) -> Seq<u8>
    decreases n, 0nat, 16 - i,
{
    match n {
        TrieNode::Branch(c) => {
            if i >= 16 || i >= c@.len() {
                Seq::empty()
            } else {
                let r = match c@[i as int] {
                    Some(ch) => reference(*ch),
                    None => seq![0x80u8],
                };
                r + children_payload(n, i + 1)
            }
        },
        _ => Seq::empty(),
    }
}

/// The hash of a node: the digest it stands for, else the hash of its encoding.
pub open spec fn node_hash(n: TrieNode) -> Seq<u8> {
    match n {
        TrieNode::Digest(d) => d@,
        _ => keccak_of(encoding(n)),
    }
}

/// What `path` leads to below `n`.
pub open spec fn lookup(n: TrieNode, path: Seq<u8>) -> Lookup
    decreases n,
{
    match n {
        TrieNode::Null => Lookup::Absent,
        TrieNode::Branch(c) => {
            if path.len() == 0 || path[0] >= c@.len() {
                Lookup::Absent
            } else {
                match c@[path[0] as int] {
                    Some(ch) => lookup(*ch, path.drop_first()),
                    None => Lookup::Absent,
                }
            }
        },
        TrieNode::Leaf(p, v) => {
            if p@ == path {
                Lookup::Found(v@)
            } else {
                Lookup::Absent
            }
        },
        TrieNode::Extension(p, ch) => {
            if p@.is_prefix_of(path) {
                lookup(*ch, path.subrange(p@.len() as int, path.len() as int))
            } else {
                Lookup::Absent
            }
        },
        TrieNode::Digest(_) => Lookup::Incomplete,
    }
}

/// The result that a read of `path` owes, given what the path leads to.
pub open spec fn get_result(l: Lookup, r: Result<Option<Vec<u8>>, TrieError>) -> bool {
    match l {
        Lookup::Found(v) => r is Ok && r->Ok_0 is Some && r->Ok_0->Some_0@ == v,
        Lookup::Absent => r == Ok::<Option<Vec<u8>>, TrieError>(None),
        Lookup::Incomplete => r == Err::<Option<Vec<u8>>, TrieError>(TrieError::ProofIncomplete),
    }
}

/// Whether `s[pos..]` starts with `p`.
fn starts_with_at(s: &[u8], pos: usize, p: &[u8]) -> (r: bool)
    requires
        pos <= s@.len(),
    ensures
        r == p@.is_prefix_of(s@.subrange(pos as int, s@.len() as int)),
{
    if p.len() > s.len() - pos {
        return false;
    }
    let mut j: usize = 0;
    while j < p.len()
        invariant
            j <= p@.len(),
            pos + p@.len() <= s@.len(),
            forall|k: int| 0 <= k < j ==> p@[k] == s@[pos + k],
        decreases p@.len() - j,
    {
        let n = s.len();
        assert(pos + j < n);
        if p[j] != s[pos + j] {
            return false;
        }
        j += 1;
    }
    true
}

impl TrieNode {
    /// The canonical encoding of this node.
    pub fn encode(&self) -> (r: Vec<u8>)
        requires
            wf(*self),
        ensures
            r@ == encoding(*self),
        decreases *self, 1nat, 0nat,
    {
        let mut out: Vec<u8> = Vec::new();
        match self {
            TrieNode::Null => {
                out.push(0x80);
                assert(out@ =~= seq![0x80u8]);
            },
            TrieNode::Branch(_) => {
                let mut payload: Vec<u8> = Vec::new();
                self.push_children(0, &mut payload);
                payload.push(0x80);
                assert(payload@ =~= children_payload(*self, 0) + seq![0x80u8]);
                push_rlp_list(&mut out, payload.as_slice());
                assert(out@ =~= encoding(*self));
            },
            TrieNode::Leaf(p, v) => {
                let hp = hex_prefix_encode(p.as_slice(), true);
                let mut payload: Vec<u8> = Vec::new();
                push_rlp_string(&mut payload, hp.as_slice());
                push_rlp_string(&mut payload, v.as_slice());
                push_rlp_list(&mut out, payload.as_slice());
                assert(out@ =~= encoding(*self));
            },
            TrieNode::Extension(p, child) => {
                let hp = hex_prefix_encode(p.as_slice(), false);
                let mut payload: Vec<u8> = Vec::new();
                push_rlp_string(&mut payload, hp.as_slice());
                child.push_reference(&mut payload);
                push_rlp_list(&mut out, payload.as_slice());
                assert(out@ =~= encoding(*self));
            },
            TrieNode::Digest(d) => {
                push_rlp_string(&mut out, d.as_slice());
                assert(out@ =~= encoding(*self));
            },
        }
        out
    }

    /// Appends how a parent refers to this node.
    pub fn push_reference(&self, out: &mut Vec<u8>)
        requires
            wf(*self),
        ensures
            final(out)@ == old(out)@ + reference(*self),
        decreases *self, 2nat, 0nat,
    {
        match self {
            TrieNode::Digest(d) => {
                push_rlp_string(out, d.as_slice());
            },
            _ => {
                let e = self.encode();
                if e.len() < 32 {
                    crate::rlp::append(out, e.as_slice());
                } else {
                    let h = keccak256(e.as_slice());
                    push_rlp_string(out, h.as_slice());
                }
            },
        }
    }

    /// Appends the references of this branch's children from slot `i` on.
    fn push_children(&self, i: usize, out: &mut Vec<u8>)
        requires
            i <= 16,
            wf(*self),
            wf_children(*self, i as nat),
        ensures
            final(out)@ == old(out)@ + children_payload(*self, i as nat),
        decreases *self, 0nat, 16 - i,
    {
        match self {
            TrieNode::Branch(c) => {
                if i >= 16 || i >= c.len() {
                    assert(final(out)@ =~= old(out)@ + children_payload(*self, i as nat));
                } else {
                    match &c[i] {
                        Some(ch) => {
                            ch.push_reference(out);
                        },
                        None => {
                            out.push(0x80);
                        },
                    }
                    let ghost mid = out@;
                    self.push_children(i + 1, out);
                    assert(final(out)@ =~= old(out)@ + children_payload(*self, i as nat));
                }
            },
            _ => {
                assert(final(out)@ =~= old(out)@ + children_payload(*self, i as nat));
            },
        }
    }

    /// Empties the trie, as when an account's storage is wiped.
    pub fn clear(&mut self)
        ensures
            *final(self) is Null,
    {
        *self = TrieNode::Null;
    }

    /// The hash of this node: the digest it stands for, else the hash of its encoding.
    pub fn hash(&self) -> (r: [u8; 32])
        requires
            wf(*self),
        ensures
            r@ == node_hash(*self),
    {
        match self {
            TrieNode::Digest(d) => *d,
            _ => {
                let e = self.encode();
                keccak256(e.as_slice())
            },
        }
    }

    /// Reads the value under the nibble path `path`.
    pub fn get(&self, path: &[u8]) -> (r: Result<Option<Vec<u8>>, TrieError>)
        ensures
            get_result(lookup(*self, path@), r),
    {
        assert(path@.subrange(0, path@.len() as int) =~= path@);
        self.get_from(path, 0)
    }

    fn get_from(&self, path: &[u8], pos: usize) -> (r: Result<Option<Vec<u8>>, TrieError>)
        requires
            pos <= path@.len(),
        ensures
            get_result(lookup(*self, path@.subrange(pos as int, path@.len() as int)), r),
        decreases *self,
    {
        let ghost rest = path@.subrange(pos as int, path@.len() as int);
        match self {
            TrieNode::Null => Ok(None),
            TrieNode::Branch(c) => {
                if pos == path.len() || path[pos] as usize >= c.len() {
                    Ok(None)
                } else {
                    match &c[path[pos] as usize] {
                        Some(ch) => {
                            assert(rest.drop_first() =~= path@.subrange(pos + 1, path@.len() as int));
                            ch.get_from(path, pos + 1)
                        },
                        None => Ok(None),
                    }
                }
            },
            TrieNode::Leaf(p, v) => {
                if p.len() == path.len() - pos && starts_with_at(path, pos, p.as_slice()) {
                    assert(p@ =~= rest);
                    Ok(Some(v.clone()))
                } else {
                    assert(p@ != rest);
                    Ok(None)
                }
            },
            TrieNode::Extension(p, ch) => {
                if starts_with_at(path, pos, p.as_slice()) {
                    let n = path.len();
                    assert(pos + p@.len() <= n);
                    assert(rest.subrange(p@.len() as int, rest.len() as int) =~= path@.subrange(
                        pos + p@.len(),
                        path@.len() as int,
                    ));
                    ch.get_from(path, pos + p.len())
                } else {
                    Ok(None)
                }
            },
            TrieNode::Digest(_) => Err(TrieError::ProofIncomplete),
        }
    }
}

/// Packs the nibbles `p[from..]`, of even count, two to a byte.
fn pack_from(p: &[u8], from: usize, out: &mut Vec<u8>)
    requires
        from <= p@.len(),
        (p@.len() - from) % 2 == 0,
        all_nibbles(p@),
    ensures
        final(out)@ == old(out)@ + pack_nibbles(p@.subrange(from as int, p@.len() as int)),
    decreases p@.len() - from,
{
    let ghost s = p@.subrange(from as int, p@.len() as int);
    if from < p.len() {
        assert(p@[from as int] < 16 && p@[from + 1] < 16);
        out.push(p[from] * 16 + p[from + 1]);
        pack_from(p, from + 2, out);
        assert(s.subrange(2, s.len() as int) =~= p@.subrange(from + 2, p@.len() as int));
        assert(final(out)@ =~= old(out)@ + pack_nibbles(s));
    } else {
        assert(final(out)@ =~= old(out)@ + pack_nibbles(s));
    }
}

/// The hex-prefix encoding of the nibble path `p`.
pub fn hex_prefix_encode(p: &[u8], leaf: bool) -> (r: Vec<u8>)
    requires
        all_nibbles(p@),
    ensures
        r@ == hex_prefix(p@, leaf),
{
    let flag: u8 = if leaf { 2 } else { 0 };
    let mut out: Vec<u8> = Vec::new();
    if p.len() % 2 == 1 {
        out.push((flag + 1) * 16 + p[0]);
        pack_from(p, 1, &mut out);
    } else {
        out.push(flag * 16);
        pack_from(p, 0, &mut out);
        assert(p@.subrange(0, p@.len() as int) =~= p@);
    }
    assert(out@ =~= hex_prefix(p@, leaf));
    out
}

/// The nibbles of a byte string, high nibble first.
pub fn to_nibbles(b: &[u8]) -> (r: Vec<u8>)
    ensures
        r@ == nibbles_of(b@),
        r@.len() == 2 * b@.len(),
        all_nibbles(r@),
{
    let mut out: Vec<u8> = Vec::new();
    let mut i: usize = 0;
    while i < b.len()
        invariant
            i <= b@.len(),
            out@ == nibbles_of(b@.subrange(0, i as int)),
            out@.len() == 2 * i,
            all_nibbles(out@),
        decreases b@.len() - i,
    {
        let x = b[i];
        out.push(x / 16);
        out.push(x % 16);
        assert(b@.subrange(0, i + 1).drop_last() =~= b@.subrange(0, i as int));
        i += 1;
        assert(out@ =~= nibbles_of(b@.subrange(0, i as int)));
    }
    assert(b@.subrange(0, i as int) =~= b@);
    out
}

} // verus!
