use vstd::prelude::*;

use crate::trie::{all_nibbles, lookup, wf, wf_children, Lookup, TrieError, TrieNode};

verus! {

/// What the trie `n` leads to after `value` is stored under `path`.
pub open spec fn inserted(n: TrieNode, path: Seq<u8>, value: Seq<u8>, q: Seq<u8>) -> Lookup {
    if q == path {
        Lookup::Found(value)
    } else {
        lookup(n, q)
    }
}

/// Storing under `path` below `n` would make one key a proper prefix of another: the walk
/// ends at a branch, or `path` and a leaf's or an extension's path differ only in length.
pub open spec fn key_conflict(n: TrieNode, path: Seq<u8>) -> bool
    decreases n,
{
    match n {
        TrieNode::Null => false,
        TrieNode::Digest(_) => false,
        TrieNode::Leaf(p, _) => p@ != path && (p@.is_prefix_of(path) || path.is_prefix_of(p@)),
        TrieNode::Extension(p, c) => if p@.is_prefix_of(path) {
            key_conflict(*c, path.subrange(p@.len() as int, path.len() as int))
        } else {
            path.is_prefix_of(p@)
        },
        TrieNode::Branch(c) => if path.len() == 0 {
            true
        } else if path[0] >= c@.len() {
            false
        } else {
            match c@[path[0] as int] {
                Some(ch) => key_conflict(*ch, path.drop_first()),
                None => false,
            }
        },
    }
}

proof fn lemma_prefix_facts(p: Seq<u8>, rest: Seq<u8>, k: int)
    requires
        0 <= k <= p.len(),
        k <= rest.len(),
        p.subrange(0, k) == rest.subrange(0, k),
        k < p.len() && k < rest.len() ==> p[k] != rest[k],
    ensures
        (k == p.len()) <==> p.is_prefix_of(rest),
        (k == rest.len()) <==> rest.is_prefix_of(p),
        (p == rest) <==> (k == p.len() && k == rest.len()),
{
    if k == p.len() {
        assert(p.subrange(0, k) =~= p);
    }
    if k == rest.len() {
        assert(rest.subrange(0, k) =~= rest);
    }
    if p.is_prefix_of(rest) && k < p.len() {
        assert(rest.subrange(0, p.len() as int)[k] == rest[k]);
    }
    if rest.is_prefix_of(p) && k < rest.len() {
        assert(p.subrange(0, rest.len() as int)[k] == p[k]);
    }
    if p == rest && k < p.len() {
        assert(p[k] == rest[k]);
    }
}

/// What the trie `n` leads to after the key `path` is removed.
pub open spec fn removed(n: TrieNode, path: Seq<u8>, q: Seq<u8>) -> Lookup {
    if q == path {
        Lookup::Absent
    } else {
        lookup(n, q)
    }
}

impl TrieNode {
    /// Stores `value` under the nibble path `path`. On failure the trie reads as before.
    pub fn insert(&mut self, path: &[u8], value: Vec<u8>) -> (r: Result<(), TrieError>)
        ensures
            r is Ok ==> forall|q: Seq<u8>| #[trigger] lookup(*final(self), q) == inserted(*old(self), path@, value@, q),
            r is Err ==> forall|q: Seq<u8>| #[trigger] lookup(*final(self), q) == lookup(*old(self), q),
            wf(*old(self)) && all_nibbles(path@) ==> wf(*final(self)),
            r is Err ==> r == Err::<(), TrieError>(TrieError::ProofIncomplete) || r == Err::<(), TrieError>(
                TrieError::KeyConflict,
            ),
            wf(*old(self)) && all_nibbles(path@) ==> (r == Err::<(), TrieError>(TrieError::ProofIncomplete)
                <==> lookup(*old(self), path@) is Incomplete),
            wf(*old(self)) && all_nibbles(path@) ==> (r == Err::<(), TrieError>(TrieError::KeyConflict)
                <==> key_conflict(*old(self), path@)),
    {
        let mut n = TrieNode::Null;
        std::mem::swap(self, &mut n);
        let (m, r) = insert_node(n, path, 0, value);
        assert(path@.subrange(0, path@.len() as int) =~= path@);
        *self = m;
        r
    }

    /// Removes the key `path`; a missing key leaves the trie as it was. Fails where the walk
/// enters a digest, or where the one child a branch keeps is a digest; after a failure on
/// a present key nothing is promised of the trie.
    pub fn delete(&mut self, path: &[u8]) -> (r: Result<(), TrieError>)
        ensures
            r is Ok ==> forall|q: Seq<u8>| #[trigger] lookup(*final(self), q) == removed(*old(self), path@, q),
            r is Err ==> r == Err::<(), TrieError>(TrieError::ProofIncomplete),
            wf(*old(self)) ==> wf(*final(self)),
            lookup(*old(self), path@) is Absent ==> r is Ok && *final(self) == *old(self),
            lookup(*old(self), path@) is Incomplete ==> r is Err && *final(self) == *old(self),
            r is Err ==> lookup(*old(self), path@) is Incomplete || lookup(*old(self), path@) is Found,
    {
        match self.get(path) {
            Ok(None) => return Ok(()),
            Err(_) => return Err(TrieError::ProofIncomplete),
            Ok(Some(_)) => {},
        }
        let mut n = TrieNode::Null;
        std::mem::swap(self, &mut n);
        let (m, r) = delete_node(n, path, 0);
        assert(path@.subrange(0, path@.len() as int) =~= path@);
        *self = m;
        r
    }
}

/// The length of the longest common prefix of `a` and `b[pos..]`.
fn common_prefix(a: &[u8], b: &[u8], pos: usize) -> (k: usize)
    requires
        pos <= b@.len(),
    ensures
        k <= a@.len(),
        k <= b@.len() - pos,
        a@.subrange(0, k as int) == b@.subrange(pos as int, pos + k),
        k < a@.len() && k < b@.len() - pos ==> a@[k as int] != b@[pos + k],
{
    let mut k: usize = 0;
    while k < a.len() && k < b.len() - pos
        invariant
            k <= a@.len(),
            pos + k <= b@.len(),
            a@.subrange(0, k as int) == b@.subrange(pos as int, pos + k),
        decreases a@.len() - k,
    {
        if a[k] != b[pos + k] {
            return k;
        }
        assert(a@.subrange(0, k + 1) =~= a@.subrange(0, k as int).push(a@[k as int]));
        assert(b@.subrange(pos as int, pos + k + 1) =~= b@.subrange(pos as int, pos + k).push(b@[pos + k]));
        k += 1;
    }
    k
}

/// A copy of `s[from..to]`.
fn copy_range(s: &[u8], from: usize, to: usize) -> (r: Vec<u8>)
    requires
        from <= to <= s@.len(),
    ensures
        r@ == s@.subrange(from as int, to as int),
{
    let mut r: Vec<u8> = Vec::new();
    let piece = &s[from..to];
    assert(piece@ =~= s@.subrange(from as int, to as int));
    crate::rlp::append(&mut r, piece);
    r
}

/// `n` under the nibble prefix `p`: an extension, or `n` itself for an empty prefix.
fn wrap_node(p: Vec<u8>, n: TrieNode) -> (r: TrieNode)
    ensures
        forall|q: Seq<u8>|
            #[trigger] lookup(r, q) == if p@.is_prefix_of(q) {
                lookup(n, q.subrange(p@.len() as int, q.len() as int))
            } else {
                Lookup::Absent
            },
        all_nibbles(p@) && wf(n) ==> wf(r),
{
    if p.len() == 0 {
        assert forall|q: Seq<u8>| #[trigger] lookup(n, q) == if p@.is_prefix_of(q) {
            lookup(n, q.subrange(p@.len() as int, q.len() as int))
        } else {
            Lookup::Absent
        } by {
            assert(q.subrange(0, q.len() as int) =~= q);
        }
        n
    } else {
        TrieNode::Extension(p, Box::new(n))
    }
}

proof fn lemma_wf_children_all(n: TrieNode, i: nat)
    requires
        n is Branch,
        n->Branch_0@.len() == 16,
        i <= 16,
        forall|j: int| i <= j < 16 ==> match #[trigger] n->Branch_0@[j] {
            Some(ch) => wf(*ch),
            None => true,
        },
    ensures
        wf_children(n, i),
    decreases 16 - i,
{
    if i < 16 {
        lemma_wf_children_all(n, i + 1);
    }
}

pub(crate) proof fn lemma_wf_children_get(n: TrieNode, i: nat, j: nat)
    requires
        n is Branch,
        wf_children(n, i),
        i <= j < 16,
        j < n->Branch_0@.len(),
    ensures
        match n->Branch_0@[j as int] {
            Some(ch) => wf(*ch),
            None => true,
        },
    decreases j - i,
{
    if i < j {
        lemma_wf_children_get(n, i + 1, j);
    }
}

/// A branch with two children, at slots `i` and `j`.
fn branch2(i: u8, a: TrieNode, j: u8, b: TrieNode) -> (r: TrieNode)
    requires
        i < 16,
        j < 16,
        i != j,
    ensures
        forall|q: Seq<u8>|
            #[trigger] lookup(r, q) == if q.len() == 0 {
                Lookup::Absent
            } else if q[0] == i {
                lookup(a, q.drop_first())
            } else if q[0] == j {
                lookup(b, q.drop_first())
            } else {
                Lookup::Absent
            },
        wf(a) && wf(b) ==> wf(r),
{
    let mut c: Vec<Option<Box<TrieNode>>> = Vec::new();
    let mut k: usize = 0;
    while k < 16
        invariant
            k <= 16,
            c@.len() == k,
            forall|t: int| 0 <= t < k ==> (#[trigger] c@[t]) is None,
        decreases 16 - k,
    {
        c.push(None);
        k += 1;
    }
    c.set(i as usize, Some(Box::new(a)));
    c.set(j as usize, Some(Box::new(b)));
    let r = TrieNode::Branch(c);
    proof {
        if wf(a) && wf(b) {
            lemma_wf_children_all(r, 0);
        }
    }
    r
}

/// Stores `value` under the nibble path `path[pos..]` below `n`. On failure the node comes
/// back as it was: `ProofIncomplete` where the path enters a digest, `KeyConflict` where
/// one key would be a proper prefix of another.
pub fn insert_node(n: TrieNode, path: &[u8], pos: usize, value: Vec<u8>) -> (r: (TrieNode, Result<(), TrieError>))
    requires
        pos <= path@.len(),
    ensures
        r.1 is Ok ==> forall|q: Seq<u8>|
            #[trigger] lookup(r.0, q) == inserted(n, path@.subrange(pos as int, path@.len() as int), value@, q),
        r.1 is Err ==> forall|q: Seq<u8>| #[trigger] lookup(r.0, q) == lookup(n, q),
        wf(n) && all_nibbles(path@) ==> wf(r.0),
        r.1 is Err ==> r.1 == Err::<(), TrieError>(TrieError::ProofIncomplete) || r.1 == Err::<(), TrieError>(
            TrieError::KeyConflict,
        ),
        wf(n) && all_nibbles(path@) ==> (r.1 == Err::<(), TrieError>(TrieError::ProofIncomplete) <==> lookup(
            n,
            path@.subrange(pos as int, path@.len() as int),
        ) is Incomplete),
        wf(n) && all_nibbles(path@) ==> (r.1 == Err::<(), TrieError>(TrieError::KeyConflict) <==> key_conflict(
            n,
            path@.subrange(pos as int, path@.len() as int),
        )),
    decreases n,
{
    let ghost rest = path@.subrange(pos as int, path@.len() as int);
    let ghost n0 = n;
    proof {
        assert forall|t: int| 0 <= t < rest.len() implies path@[pos + t] == rest[t] by {}
    }
    match n {
        TrieNode::Null => {
            let p = copy_range(path, pos, path.len());
            let r = TrieNode::Leaf(p, value);
            proof {
                assert(all_nibbles(path@) ==> all_nibbles(p@));
            }
            (r, Ok(()))
        },
        TrieNode::Digest(d) => (TrieNode::Digest(d), Err(TrieError::ProofIncomplete)),
        TrieNode::Leaf(p, old_value) => {
            let k = common_prefix(p.as_slice(), path, pos);
            proof {
                assert(rest.subrange(0, k as int) =~= path@.subrange(pos as int, pos + k));
                lemma_prefix_facts(p@, rest, k as int);
            }
            if k == p.len() && k == path.len() - pos {
                assert(p@ =~= rest);
                let r = TrieNode::Leaf(p, value);
                (r, Ok(()))
            } else if k == p.len() || k == path.len() - pos {
                (TrieNode::Leaf(p, old_value), Err(TrieError::KeyConflict))
            } else {
                split_leaf(p, old_value, path, pos, value, k)
            }
        },
        TrieNode::Extension(p, child) => {
            let k = common_prefix(p.as_slice(), path, pos);
            proof {
                assert(rest.subrange(0, k as int) =~= path@.subrange(pos as int, pos + k));
                lemma_prefix_facts(p@, rest, k as int);
            }
            if k == p.len() {
                let plen = path.len();
                assert(pos + k <= plen);
                assert(path@.subrange(pos + k, path@.len() as int) =~= rest.subrange(k as int, rest.len() as int));
                let (c2, res) = insert_node(*child, path, pos + k, value);
                let r = TrieNode::Extension(p, Box::new(c2));
                proof {
                    if res is Err {
                        assert forall|q: Seq<u8>| #[trigger] lookup(r, q) == lookup(n0, q) by {
                            if n0->Extension_0@.is_prefix_of(q) {
                                let qs = q.subrange(k as int, q.len() as int);
                                assert(lookup(c2, qs) == lookup(*n0->Extension_1, qs));
                            }
                        }
                    }
                    if res is Ok {
                        assert forall|q: Seq<u8>| #[trigger] lookup(r, q) == inserted(n0, rest, value@, q) by {
                            let pv = n0->Extension_0@;
                            let rest2 = path@.subrange(pos + k, path@.len() as int);
                            assert(rest2 =~= rest.subrange(k as int, rest.len() as int));
                            assert(pv =~= rest.subrange(0, k as int));
                            if pv.is_prefix_of(q) {
                                let qs = q.subrange(k as int, q.len() as int);
                                assert(lookup(r, q) == lookup(c2, qs));
                                assert(lookup(n0, q) == lookup(*n0->Extension_1, qs));
                                assert(lookup(c2, qs) == inserted(*n0->Extension_1, rest2, value@, qs));
                                if qs == rest2 {
                                    assert forall|t: int| 0 <= t < q.len() implies q[t] == rest[t] by {
                                        if t < k {
                                            assert(q[t] == pv[t]);
                                            assert(rest[t] == rest.subrange(0, k as int)[t]);
                                        } else {
                                            assert(q[t] == qs[t - k]);
                                            assert(rest[t] == rest2[t - k]);
                                        }
                                    }
                                    assert(q =~= rest);
                                } else {
                                    assert(q != rest);
                                }
                            } else {
                                assert(q != rest);
                            }
                        }
                    }
                }
                (r, res)
            } else if k == path.len() - pos {
                (TrieNode::Extension(p, child), Err(TrieError::KeyConflict))
            } else {
                split_ext(p, *child, path, pos, value, k)
            }
        },
        TrieNode::Branch(c) => {
            if pos == path.len() || path[pos] >= 16 || c.len() != 16 {
                return (TrieNode::Branch(c), Err(TrieError::KeyConflict));
            }
            let ghost cv = c@;
            let i = path[pos] as usize;
            let mut c = c;
            let slot = c.remove(i);
            let ghost slot0 = slot;
            assert(slot0 == cv[i as int]);
            assert(path@.subrange(pos + 1, path@.len() as int) =~= rest.drop_first());
            proof {
                if wf(n0) {
                    lemma_wf_children_get(n0, 0, i as nat);
                }
            }
            let (new_slot, res) = match slot {
                None => {
                    let p = copy_range(path, pos + 1, path.len());
                    (Some(Box::new(TrieNode::Leaf(p, value))), Ok(()))
                },
                Some(ch) => {
                    let (ch2, res) = insert_node(*ch, path, pos + 1, value);
                    (Some(Box::new(ch2)), res)
                },
            };
            c.insert(i, new_slot);
            let r = TrieNode::Branch(c);
            proof {
                assert(c@ =~= cv.update(i as int, new_slot));
                if res is Ok {
                    assert forall|q: Seq<u8>| #[trigger] lookup(r, q) == inserted(n0, rest, value@, q) by {
                        let rest1 = path@.subrange(pos + 1, path@.len() as int);
                        assert(rest1 =~= rest.drop_first());
                        if q.len() > 0 && q[0] == i {
                            let qd = q.drop_first();
                            assert(lookup(r, q) == match new_slot {
                                Some(ch) => lookup(*ch, qd),
                                None => Lookup::Absent,
                            });
                            assert(lookup(n0, q) == match slot0 {
                                Some(ch) => lookup(*ch, qd),
                                None => Lookup::Absent,
                            });
                            if q.drop_first() == rest1 {
                                assert forall|t: int| 0 <= t < q.len() implies q[t] == rest[t] by {
                                    if t > 0 {
                                        assert(q[t] == q.drop_first()[t - 1]);
                                        assert(rest[t] == rest1[t - 1]);
                                    }
                                }
                                assert(q =~= rest);
                            } else {
                                assert(q != rest);
                            }
                        } else {
                            assert(q != rest);
                            if q.len() > 0 && q[0] < 16 {
                                assert(c@[q[0] as int] == cv[q[0] as int]);
                            }
                        }
                    }
                } else {
                    assert forall|q: Seq<u8>| #[trigger] lookup(r, q) == lookup(n0, q) by {
                        if q.len() > 0 && q[0] < 16 && q[0] != i {
                            assert(c@[q[0] as int] == cv[q[0] as int]);
                        }
                        if q.len() > 0 && q[0] == i {
                            let qd = q.drop_first();
                            assert(lookup(r, q) == match new_slot {
                                Some(ch) => lookup(*ch, qd),
                                None => Lookup::Absent,
                            });
                            assert(lookup(n0, q) == match slot0 {
                                Some(ch) => lookup(*ch, qd),
                                None => Lookup::Absent,
                            });
                        }
                    }
                }
                if wf(n0) && all_nibbles(path@) {
                    assert forall|t: int| 0 <= t < 16 implies match #[trigger] c@[t] {
                        Some(ch) => wf(*ch),
                        None => true,
                    } by {
                        lemma_wf_children_get(n0, 0, t as nat);
                        if t == i {
                            assert(all_nibbles(path@.subrange(pos + 1, path@.len() as int)));
                        }
                    }
                    lemma_wf_children_all(r, 0);
                }
            }
            (r, res)
        },
    }
}

/// Stores `value` under `path[pos..]` in place of the leaf `(p, old_value)`, whose path
/// first differs from it after `k` nibbles.
#[verifier::rlimit(60)]
fn split_leaf(p: Vec<u8>, old_value: Vec<u8>, path: &[u8], pos: usize, value: Vec<u8>, k: usize) -> (r: (TrieNode, Result<(), TrieError>))
    requires
        pos <= path@.len(),
        k < p@.len(),
        k < path@.len() - pos,
        p@.subrange(0, k as int) == path@.subrange(pos as int, pos + k),
        p@[k as int] != path@[pos + k],
    ensures
        r.1 is Ok ==> forall|q: Seq<u8>|
            #[trigger] lookup(r.0, q) == inserted(
                TrieNode::Leaf(p, old_value),
                path@.subrange(pos as int, path@.len() as int),
                value@,
                q,
            ),
        r.1 is Err ==> r.0 == TrieNode::Leaf(p, old_value) && r.1 == Err::<(), TrieError>(TrieError::KeyConflict),
        all_nibbles(p@) && all_nibbles(path@) ==> wf(r.0) && r.1 is Ok,
{
    let ghost rest = path@.subrange(pos as int, path@.len() as int);
    let ghost n0 = TrieNode::Leaf(p, old_value);
    let ghost pv = p@;
    let ghost ov = old_value@;
    let plen = path.len();
    assert(pos + k < plen);
    let i = p[k];
    let j = path[pos + k];
    let pre = copy_range(path, pos, pos + k);
    let p_rest = copy_range(p.as_slice(), k + 1, p.len());
    let n_rest = copy_range(path, pos + k + 1, path.len());
    assert(n_rest@ =~= rest.subrange(k + 1, rest.len() as int));
    assert(pre@ =~= rest.subrange(0, k as int));
    if i >= 16 || j >= 16 {
        return (TrieNode::Leaf(p, old_value), Err(TrieError::KeyConflict));
    }
    let la = TrieNode::Leaf(p_rest, old_value);
    let lb = TrieNode::Leaf(n_rest, value);
    let ghost (gla, glb) = (la, lb);
    let b = branch2(i, la, j, lb);
    let r = wrap_node(pre, b);
    proof {
        assert forall|q: Seq<u8>| #[trigger] lookup(r, q) == inserted(n0, rest, value@, q) by {
            lemma_split_leaf(pv, ov, rest, value@, k as int, q, r, b, i, j, gla, glb, n0);
        }
    }
    (r, Ok(()))
}

/// Stores `value` under `path[pos..]` in place of the extension `(p, child)`, whose prefix
/// first differs from it after `k` nibbles.
#[verifier::rlimit(60)]
fn split_ext(p: Vec<u8>, child: TrieNode, path: &[u8], pos: usize, value: Vec<u8>, k: usize) -> (r: (TrieNode, Result<(), TrieError>))
    requires
        pos <= path@.len(),
        k < p@.len(),
        k < path@.len() - pos,
        p@.subrange(0, k as int) == path@.subrange(pos as int, pos + k),
        p@[k as int] != path@[pos + k],
    ensures
        r.1 is Ok ==> forall|q: Seq<u8>|
            #[trigger] lookup(r.0, q) == inserted(
                TrieNode::Extension(p, Box::new(child)),
                path@.subrange(pos as int, path@.len() as int),
                value@,
                q,
            ),
        r.1 is Err ==> r.0 == TrieNode::Extension(p, Box::new(child)) && r.1 == Err::<(), TrieError>(TrieError::KeyConflict),
        all_nibbles(p@) && wf(child) && all_nibbles(path@) ==> wf(r.0) && r.1 is Ok,
{
    let ghost rest = path@.subrange(pos as int, path@.len() as int);
    let ghost n0 = TrieNode::Extension(p, Box::new(child));
    let ghost pv = p@;
    let plen = path.len();
    assert(pos + k < plen);
    let i = p[k];
    let j = path[pos + k];
    if i >= 16 || j >= 16 {
        return (TrieNode::Extension(p, Box::new(child)), Err(TrieError::KeyConflict));
    }
    let pre = copy_range(path, pos, pos + k);
    let p_rest = copy_range(p.as_slice(), k + 1, p.len());
    let n_rest = copy_range(path, pos + k + 1, path.len());
    assert(n_rest@ =~= rest.subrange(k + 1, rest.len() as int));
    assert(pre@ =~= rest.subrange(0, k as int));
    let ghost c0 = child;
    let lower = wrap_node(p_rest, child);
    let ghost glower = lower;
    let lb = TrieNode::Leaf(n_rest, value);
    let ghost glb = lb;
    let b = branch2(i, lower, j, lb);
    let r = wrap_node(pre, b);
    proof {
        assert forall|q: Seq<u8>| #[trigger] lookup(r, q) == inserted(n0, rest, value@, q) by {
            lemma_split_ext(pv, c0, rest, value@, k as int, q, r, b, glower, i, j, glb, n0);
        }
    }
    (r, Ok(()))
}

/// Removes the key `path[pos..]` below `n`; a missing key leaves it as it was. Fails with
/// `ProofIncomplete` where the path, or the one child left to a branch, is a digest; on
/// failure nothing is promised of the node that comes back.
pub fn delete_node(n: TrieNode, path: &[u8], pos: usize) -> (r: (TrieNode, Result<(), TrieError>))
    requires
        pos <= path@.len(),
    ensures
        r.1 is Ok ==> forall|q: Seq<u8>|
            #[trigger] lookup(r.0, q) == removed(n, path@.subrange(pos as int, path@.len() as int), q),
        r.1 is Err ==> r.1 == Err::<(), TrieError>(TrieError::ProofIncomplete),
        wf(n) ==> wf(r.0),
    decreases n,
{
    let ghost rest = path@.subrange(pos as int, path@.len() as int);
    let ghost n0 = n;
    match n {
        TrieNode::Null => (TrieNode::Null, Ok(())),
        TrieNode::Digest(d) => (TrieNode::Digest(d), Err(TrieError::ProofIncomplete)),
        TrieNode::Leaf(p, v) => {
            let k = common_prefix(p.as_slice(), path, pos);
            if k == p.len() && k == path.len() - pos {
                assert(p@ =~= rest);
                (TrieNode::Null, Ok(()))
            } else {
                proof {
                    if p@ == rest {
                        assert(p@.subrange(0, k as int) =~= p@);
                    }
                }
                (TrieNode::Leaf(p, v), Ok(()))
            }
        },
        TrieNode::Extension(p, child) => {
            let k = common_prefix(p.as_slice(), path, pos);
            if k == p.len() {
                let plen = path.len();
                assert(pos + k <= plen);
                let (c2, res) = delete_node(*child, path, pos + k);
                if res.is_err() {
                    return (c2, res);
                }
                let is_digest = match &c2 {
                    TrieNode::Digest(_) => true,
                    _ => false,
                };
                if is_digest {
                    return (c2, Err(TrieError::ProofIncomplete));
                }
                let ghost pv = p@;
                let r = prepend(p, c2);
                proof {
                    assert forall|q: Seq<u8>| #[trigger] lookup(r, q) == removed(n0, rest, q) by {
                        let rest2 = path@.subrange(pos + k, path@.len() as int);
                        assert(rest2 =~= rest.subrange(k as int, rest.len() as int));
                        assert(pv =~= rest.subrange(0, k as int));
                        if pv.is_prefix_of(q) {
                            let qs = q.subrange(k as int, q.len() as int);
                            assert(lookup(n0, q) == lookup(*n0->Extension_1, qs));
                            if qs == rest2 {
                                assert forall|t: int| 0 <= t < q.len() implies q[t] == rest[t] by {
                                    if t < k {
                                        assert(q[t] == pv[t]);
                                        assert(rest[t] == rest.subrange(0, k as int)[t]);
                                    } else {
                                        assert(q[t] == qs[t - k]);
                                        assert(rest[t] == rest2[t - k]);
                                    }
                                }
                                assert(q =~= rest);
                            } else {
                                assert(q != rest);
                            }
                        } else {
                            assert(q != rest);
                        }
                    }
                }
                (r, Ok(()))
            } else {
                proof {
                    if p@.is_prefix_of(rest) {
                        assert(rest.subrange(0, p@.len() as int) =~= p@);
                        assert(p@.subrange(0, k as int) =~= p@);
                    }
                }
                (TrieNode::Extension(p, child), Ok(()))
            }
        },
        TrieNode::Branch(c) => {
            if c.len() != 16 {
                return (TrieNode::Branch(c), Err(TrieError::ProofIncomplete));
            }
            if pos == path.len() || path[pos] >= 16 {
                return (TrieNode::Branch(c), Ok(()));
            }
            let ghost cv = c@;
            let i = path[pos] as usize;
            let mut c = c;
            let slot = c.remove(i);
            let ghost slot0 = slot;
            match slot {
                None => {
                    c.insert(i, None);
                    assert(c@ =~= cv);
                    let r = TrieNode::Branch(c);
                    proof {
                        if wf(n0) {
                            assert forall|t: int| 0 <= t < 16 implies match #[trigger] c@[t] {
                                Some(x) => wf(*x),
                                None => true,
                            } by {
                                lemma_wf_children_get(n0, 0, t as nat);
                            }
                            lemma_wf_children_all(r, 0);
                        }
                    }
                    (r, Ok(()))
                },
                Some(ch) => {
                    proof {
                        if wf(n0) {
                            lemma_wf_children_get(n0, 0, i as nat);
                            assert(slot0 == cv[i as int]);
                        }
                    }
                    let (ch2, res) = delete_node(*ch, path, pos + 1);
                    if res.is_err() {
                        return (ch2, res);
                    }
                    let ghost g2 = ch2;
                    let is_null = match &ch2 {
                        TrieNode::Null => true,
                        _ => false,
                    };
                    let new_slot = if is_null { None } else { Some(Box::new(ch2)) };
                    c.insert(i, new_slot);
                    let ghost mid = TrieNode::Branch(c);
                    proof {
                        assert(c@ =~= cv.update(i as int, new_slot));
                        assert forall|q: Seq<u8>| #[trigger] lookup(mid, q) == removed(n0, rest, q) by {
                            let rest1 = path@.subrange(pos + 1, path@.len() as int);
                            assert(rest1 =~= rest.drop_first());
                            if q.len() > 0 && q[0] == i {
                                let qd = q.drop_first();
                                assert(lookup(mid, q) == match new_slot {
                                    Some(x) => lookup(*x, qd),
                                    None => Lookup::Absent,
                                });
                                assert(lookup(n0, q) == match slot0 {
                                    Some(x) => lookup(*x, qd),
                                    None => Lookup::Absent,
                                });
                                assert(lookup(g2, qd) == removed(*slot0->Some_0, rest1, qd));
                                if qd == rest1 {
                                    assert forall|t: int| 0 <= t < q.len() implies q[t] == rest[t] by {
                                        if t > 0 {
                                            assert(q[t] == qd[t - 1]);
                                            assert(rest[t] == rest1[t - 1]);
                                        }
                                    }
                                    assert(q =~= rest);
                                } else {
                                    assert(q != rest);
                                }
                            } else {
                                assert(q != rest);
                                if q.len() > 0 && q[0] < 16 {
                                    assert(c@[q[0] as int] == cv[q[0] as int]);
                                }
                            }
                        }
                        if wf(n0) {
                            assert forall|t: int| 0 <= t < 16 implies match #[trigger] c@[t] {
                                Some(x) => wf(*x),
                                None => true,
                            } by {
                                lemma_wf_children_get(n0, 0, t as nat);
                            }
                            lemma_wf_children_all(mid, 0);
                        }
                    }
                    collapse(c)
                },
            }
        },
    }
}

/// `x` under the nibble prefix `p`, merged into it where `x` is a leaf or an extension.
fn prepend(p: Vec<u8>, x: TrieNode) -> (r: TrieNode)
    requires
        !(x is Digest),
    ensures
        forall|q: Seq<u8>|
            #[trigger] lookup(r, q) == if p@.is_prefix_of(q) {
                lookup(x, q.subrange(p@.len() as int, q.len() as int))
            } else {
                Lookup::Absent
            },
        all_nibbles(p@) && wf(x) ==> wf(r),
{
    let ghost x0 = x;
    match x {
        TrieNode::Null => TrieNode::Null,
        TrieNode::Leaf(p2, v) => {
            let mut np = p;
            let ghost pv = np@;
            crate::rlp::append(&mut np, p2.as_slice());
            let r = TrieNode::Leaf(np, v);
            proof {
                assert forall|q: Seq<u8>| #[trigger] lookup(r, q) == if pv.is_prefix_of(q) {
                    lookup(x0, q.subrange(pv.len() as int, q.len() as int))
                } else {
                    Lookup::Absent
                } by {
                    lemma_concat_split(pv, p2@, q);
                }
            }
            r
        },
        TrieNode::Extension(p2, c) => {
            let mut np = p;
            let ghost pv = np@;
            crate::rlp::append(&mut np, p2.as_slice());
            let r = TrieNode::Extension(np, c);
            proof {
                assert forall|q: Seq<u8>| #[trigger] lookup(r, q) == if pv.is_prefix_of(q) {
                    lookup(x0, q.subrange(pv.len() as int, q.len() as int))
                } else {
                    Lookup::Absent
                } by {
                    lemma_concat_prefix(pv, p2@, q);
                }
            }
            r
        },
        other => wrap_node(p, other),
    }
}

proof fn lemma_concat_split(a: Seq<u8>, b: Seq<u8>, q: Seq<u8>)
    ensures
        (q == a + b) <==> (a.is_prefix_of(q) && q.subrange(a.len() as int, q.len() as int) == b),
{
    if q == a + b {
        assert(q.subrange(0, a.len() as int) =~= a);
        assert(q.subrange(a.len() as int, q.len() as int) =~= b);
    }
    if a.is_prefix_of(q) && q.subrange(a.len() as int, q.len() as int) == b {
        assert forall|t: int| 0 <= t < q.len() implies q[t] == (a + b)[t] by {
            if t < a.len() {
                assert(q[t] == q.subrange(0, a.len() as int)[t]);
            } else {
                assert(q[t] == q.subrange(a.len() as int, q.len() as int)[t - a.len()]);
            }
        }
        assert(q =~= a + b);
    }
}

proof fn lemma_concat_prefix(a: Seq<u8>, b: Seq<u8>, q: Seq<u8>)
    ensures
        (a + b).is_prefix_of(q) <==> (a.is_prefix_of(q) && b.is_prefix_of(
            q.subrange(a.len() as int, q.len() as int),
        )),
        (a + b).is_prefix_of(q) ==> q.subrange((a + b).len() as int, q.len() as int) == q.subrange(
            a.len() as int,
            q.len() as int,
        ).subrange(b.len() as int, q.len() - a.len()),
{
    let qs = q.subrange(a.len() as int, q.len() as int);
    if (a + b).is_prefix_of(q) {
        assert(q.subrange(0, a.len() as int) =~= a) by {
            assert forall|t: int| 0 <= t < a.len() implies q.subrange(0, a.len() as int)[t] == a[t] by {
                assert(q[t] == q.subrange(0, (a + b).len() as int)[t]);
            }
        }
        assert(qs.subrange(0, b.len() as int) =~= b) by {
            assert forall|t: int| 0 <= t < b.len() implies qs.subrange(0, b.len() as int)[t] == b[t] by {
                assert(q[a.len() + t] == q.subrange(0, (a + b).len() as int)[a.len() + t]);
            }
        }
        assert(q.subrange((a + b).len() as int, q.len() as int) =~= qs.subrange(b.len() as int, q.len() - a.len()));
    }
    if a.is_prefix_of(q) && b.is_prefix_of(qs) {
        assert(q.subrange(0, (a + b).len() as int) =~= a + b) by {
            assert forall|t: int| 0 <= t < (a + b).len() implies q.subrange(0, (a + b).len() as int)[t] == (a + b)[t] by {
                if t < a.len() {
                    assert(q[t] == q.subrange(0, a.len() as int)[t]);
                } else {
                    assert(q[t] == qs[t - a.len()]);
                    assert(qs[t - a.len()] == qs.subrange(0, b.len() as int)[t - a.len()]);
                }
            }
        }
    }
}

/// A branch with the children `c`, collapsed when fewer than two remain: into nothing, or
/// into its one child under that child's nibble.
fn collapse(c: Vec<Option<Box<TrieNode>>>) -> (r: (TrieNode, Result<(), TrieError>))
    requires
        c@.len() == 16,
    ensures
        r.1 is Ok ==> forall|q: Seq<u8>| #[trigger] lookup(r.0, q) == lookup(TrieNode::Branch(c), q),
        r.1 is Err ==> r.1 == Err::<(), TrieError>(TrieError::ProofIncomplete),
        wf(TrieNode::Branch(c)) ==> wf(r.0),
{
    let ghost n0 = TrieNode::Branch(c);
    let mut count: usize = 0;
    let mut t: usize = 0;
    let mut k: usize = 0;
    while k < 16
        invariant
            k <= 16,
            c@.len() == 16,
            count == 0 ==> forall|s: int| 0 <= s < k ==> (#[trigger] c@[s]) is None,
            count == 1 ==> t < k && c@[t as int] is Some && forall|s: int|
                0 <= s < k && s != t ==> (#[trigger] c@[s]) is None,
        decreases 16 - k,
    {
        if c[k].is_some() {
            if count == 0 {
                t = k;
            }
            if count < 2 {
                count += 1;
            }
        }
        k += 1;
    }
    if count >= 2 {
        return (TrieNode::Branch(c), Ok(()));
    }
    if count == 0 {
        return (TrieNode::Null, Ok(()));
    }
    let mut c = c;
    let ghost cv = c@;
    let slot = c.remove(t);
    let x = match slot {
        Some(bx) => *bx,
        None => return (TrieNode::Null, Ok(())),
    };
    let is_digest = match &x {
        TrieNode::Digest(_) => true,
        _ => false,
    };
    if is_digest {
        return (x, Err(TrieError::ProofIncomplete));
    }
    let ghost x0 = x;
    let mut p: Vec<u8> = Vec::new();
    p.push(t as u8);
    let ghost pv = p@;
    let r = prepend(p, x);
    proof {
        assert forall|q: Seq<u8>| #[trigger] lookup(r, q) == lookup(n0, q) by {
            if q.len() > 0 && q[0] == t {
                assert(pv.is_prefix_of(q));
                assert(q.subrange(1, q.len() as int) =~= q.drop_first());
            } else if q.len() > 0 {
                if pv.is_prefix_of(q) {
                    assert(q[0] == q.subrange(0, 1)[0]);
                    assert(pv[0] == t);
                }
                assert(!pv.is_prefix_of(q));
                if q[0] < 16 {
                    assert(cv[q[0] as int] is None);
                }
            } else {
                assert(!pv.is_prefix_of(q));
            }
        }
        if wf(n0) {
            lemma_wf_children_get(n0, 0, t as nat);
        }
    }
    (r, Ok(()))
}

proof fn lemma_split_leaf(
    p: Seq<u8>,
    ov: Seq<u8>,
    rest: Seq<u8>,
    v: Seq<u8>,
    k: int,
    q: Seq<u8>,
    r: TrieNode,
    b: TrieNode,
    i: u8,
    j: u8,
    la: TrieNode,
    lb: TrieNode,
    orig: TrieNode,
)
    requires
        la is Leaf && la->Leaf_0@ == p.subrange(k + 1, p.len() as int) && la->Leaf_1@ == ov,
        lb is Leaf && lb->Leaf_0@ == rest.subrange(k + 1, rest.len() as int) && lb->Leaf_1@ == v,
        orig is Leaf && orig->Leaf_0@ == p && orig->Leaf_1@ == ov,
        0 <= k < p.len(),
        k < rest.len(),
        p.subrange(0, k) == rest.subrange(0, k),
        p[k] == i,
        rest[k] == j,
        i != j,
        forall|q: Seq<u8>|
            #[trigger] lookup(r, q) == if rest.subrange(0, k).is_prefix_of(q) {
                lookup(b, q.subrange(k, q.len() as int))
            } else {
                Lookup::Absent
            },
        forall|q: Seq<u8>|
            #[trigger] lookup(b, q) == if q.len() == 0 {
                Lookup::Absent
            } else if q[0] == i {
                lookup(la, q.drop_first())
            } else if q[0] == j {
                lookup(lb, q.drop_first())
            } else {
                Lookup::Absent
            },
    ensures
        lookup(r, q) == inserted(orig, rest, v, q),
{
    let pre = rest.subrange(0, k);
    if !pre.is_prefix_of(q) {
        if q == rest {
            assert(pre.is_prefix_of(q));
        }
        if q == p {
            assert(pre.is_prefix_of(q)) by {
                assert(p.subrange(0, k) == pre);
            }
        }
    } else {
        let qs = q.subrange(k, q.len() as int);
        assert(q.subrange(0, k) =~= pre);
        if qs.len() == 0 {
            assert(q.len() == k);
        } else {
            let qt = qs.drop_first();
            assert(qt =~= q.subrange(k + 1, q.len() as int));
            assert(qs[0] == q[k]);
            if q == p {
                assert(qt =~= p.subrange(k + 1, p.len() as int));
            }
            if q == rest {
                assert(qt =~= rest.subrange(k + 1, rest.len() as int));
            }
            if qs[0] == i && qt == p.subrange(k + 1, p.len() as int) {
                assert forall|t: int| 0 <= t < q.len() implies q[t] == p[t] by {
                    if t < k {
                        assert(q[t] == q.subrange(0, k)[t]);
                        assert(p[t] == p.subrange(0, k)[t]);
                    } else if t > k {
                        assert(q[t] == qt[t - k - 1]);
                    }
                }
                assert(q =~= p);
            }
            if qs[0] == j && qt == rest.subrange(k + 1, rest.len() as int) {
                assert forall|t: int| 0 <= t < q.len() implies q[t] == rest[t] by {
                    if t < k {
                        assert(q[t] == q.subrange(0, k)[t]);
                        assert(rest[t] == pre[t]);
                    } else if t > k {
                        assert(q[t] == qt[t - k - 1]);
                    }
                }
                assert(q =~= rest);
            }
        }
    }
}

#[verifier::rlimit(60)]
proof fn lemma_split_ext(
    p: Seq<u8>,
    c: TrieNode,
    rest: Seq<u8>,
    v: Seq<u8>,
    k: int,
    q: Seq<u8>,
    r: TrieNode,
    b: TrieNode,
    lower: TrieNode,
    i: u8,
    j: u8,
    lb: TrieNode,
    orig: TrieNode,
)
    requires
        lb is Leaf && lb->Leaf_0@ == rest.subrange(k + 1, rest.len() as int) && lb->Leaf_1@ == v,
        orig is Extension && orig->Extension_0@ == p && *orig->Extension_1 == c,
        0 <= k < p.len(),
        k < rest.len(),
        p.subrange(0, k) == rest.subrange(0, k),
        p[k] == i,
        rest[k] == j,
        i != j,
        forall|q: Seq<u8>|
            #[trigger] lookup(r, q) == if rest.subrange(0, k).is_prefix_of(q) {
                lookup(b, q.subrange(k, q.len() as int))
            } else {
                Lookup::Absent
            },
        forall|q: Seq<u8>|
            #[trigger] lookup(b, q) == if q.len() == 0 {
                Lookup::Absent
            } else if q[0] == i {
                lookup(lower, q.drop_first())
            } else if q[0] == j {
                lookup(lb, q.drop_first())
            } else {
                Lookup::Absent
            },
        forall|q: Seq<u8>|
            #[trigger] lookup(lower, q) == if p.subrange(k + 1, p.len() as int).is_prefix_of(q) {
                lookup(c, q.subrange(p.len() - k - 1, q.len() as int))
            } else {
                Lookup::Absent
            },
    ensures
        lookup(r, q) == inserted(orig, rest, v, q),
{
    let pre = rest.subrange(0, k);
    let pl = p.len() as int;
    if !pre.is_prefix_of(q) {
        if q == rest {
            assert(pre.is_prefix_of(q));
        }
        if p.is_prefix_of(q) {
            assert(pre.is_prefix_of(q)) by {
                assert forall|t: int| 0 <= t < k implies pre[t] == q[t] by {
                    assert(pre[t] == p.subrange(0, k)[t]);
                }
            }
        }
    } else {
        let qs = q.subrange(k, q.len() as int);
        assert(q.subrange(0, k) =~= pre);
        if qs.len() == 0 {
            assert(q.len() == k);
        } else {
            let qt = qs.drop_first();
            assert(qt =~= q.subrange(k + 1, q.len() as int));
            assert(qs[0] == q[k]);
            let ps = p.subrange(k + 1, pl);
            if q == rest {
                assert(qt =~= rest.subrange(k + 1, rest.len() as int));
            }
            if qs[0] == i {
                if ps.is_prefix_of(qt) {
                    assert forall|t: int| 0 <= t < pl implies p[t] == q[t] by {
                        if t < k {
                            assert(q[t] == q.subrange(0, k)[t]);
                            assert(p[t] == p.subrange(0, k)[t]);
                        } else if t > k {
                            assert(p[t] == ps[t - k - 1]);
                            assert(q[t] == qt[t - k - 1]);
                        }
                    }
                    assert(p.is_prefix_of(q));
                    assert(qt.subrange(pl - k - 1, qt.len() as int) =~= q.subrange(pl, q.len() as int));
                } else {
                    if p.is_prefix_of(q) {
                        assert forall|t: int| 0 <= t < ps.len() implies ps[t] == qt[t] by {
                            assert(ps[t] == p[t + k + 1]);
                        }
                    }
                }
            } else {
                if p.is_prefix_of(q) {
                    assert(p[k] == q[k]);
                }
                if qs[0] == j && qt == rest.subrange(k + 1, rest.len() as int) {
                    assert forall|t: int| 0 <= t < q.len() implies q[t] == rest[t] by {
                        if t < k {
                            assert(q[t] == q.subrange(0, k)[t]);
                            assert(rest[t] == pre[t]);
                        } else if t > k {
                            assert(q[t] == qt[t - k - 1]);
                        }
                    }
                    assert(q =~= rest);
                }
            }
        }
    }
}

} // verus!
