use vstd::prelude::*;

verus! {

/// Minimal big-endian bytes of `n` (empty for zero).
pub open spec fn be_bytes(n: nat) -> Seq<u8>
    decreases n,
{
    if n == 0 {
        Seq::empty()
    } else {
        be_bytes(n / 256).push((n % 256) as u8)
    }
}

/// The RLP length header: `base + len` for a short payload, else the long form that
/// spells out the length in big-endian bytes.
pub open spec fn len_header(base: nat, len: nat) -> Seq<u8> {
    if len <= 55 {
        seq![(base + len) as u8]
    } else {
        seq![(base + 55 + be_bytes(len).len()) as u8] + be_bytes(len)
    }
}

/// The RLP encoding of a byte string.
pub open spec fn rlp_string(s: Seq<u8>) -> Seq<u8> {
    if s.len() == 1 && s[0] < 0x80 {
        s
    } else {
        len_header(0x80, s.len()) + s
    }
}

/// The RLP encoding of a list whose items, already encoded, concatenate to `payload`.
pub open spec fn rlp_list(payload: Seq<u8>) -> Seq<u8> {
    len_header(0xc0, payload.len()) + payload
}

spec fn pow256(k: nat) -> nat
    decreases k,
{
    if k == 0 {
        1
    } else {
        256 * pow256((k - 1) as nat)
    }
}

proof fn lemma_be_bytes_len_bound(n: nat, k: nat)
    requires
        n < pow256(k),
    ensures
        be_bytes(n).len() <= k,
    decreases n,
{
    if n > 0 {
        let p = pow256((k - 1) as nat);
        assert(n / 256 < p) by (nonlinear_arith)
            requires
                n < 256 * p,
        ;
        lemma_be_bytes_len_bound(n / 256, (k - 1) as nat);
    }
}

proof fn lemma_be_bytes_len(n: nat)
    requires
        n < 0x1_0000_0000_0000_0000,
    ensures
        be_bytes(n).len() <= 8,
{
    reveal_with_fuel(pow256, 9);
    lemma_be_bytes_len_bound(n, 8);
}

/// Appends the minimal big-endian bytes of `n` to `out`.
pub(crate) fn push_be_bytes(out: &mut Vec<u8>, n: u64)
    ensures
        final(out)@ == old(out)@ + be_bytes(n as nat),
    decreases n,
{
    if n > 0 {
        push_be_bytes(out, n / 256);
        out.push((n % 256) as u8);
        assert(final(out)@ =~= old(out)@ + be_bytes(n as nat));
    } else {
        assert(out@ =~= old(out)@ + be_bytes(n as nat));
    }
}

/// Appends the bytes of `s` to `out`.
pub fn append(out: &mut Vec<u8>, s: &[u8])
    ensures
        final(out)@ == old(out)@ + s@,
{
    let ghost start = out@;
    let n = s.len();
    let mut i: usize = 0;
    while i < n
        invariant
            i <= n,
            n == s@.len(),
            out@ == start + s@.subrange(0, i as int),
        decreases n - i,
    {
        out.push(s[i]);
        i += 1;
        assert(out@ =~= start + s@.subrange(0, i as int));
    }
    assert(s@.subrange(0, n as int) =~= s@);
}

/// Appends the RLP length header for a payload of `len` bytes, with short base `base`
/// (0x80 for strings, 0xc0 for lists).
pub fn push_len_header(out: &mut Vec<u8>, base: u8, len: usize)
    requires
        base == 0x80 || base == 0xc0,
    ensures
        final(out)@ == old(out)@ + len_header(base as nat, len as nat),
{
    if len <= 55 {
        out.push(base + len as u8);
        assert(final(out)@ =~= old(out)@ + len_header(base as nat, len as nat));
    } else {
        proof {
            lemma_be_bytes_len(len as nat);
        }
        let mut lenbuf: Vec<u8> = Vec::new();
        push_be_bytes(&mut lenbuf, len as u64);
        assert(lenbuf@ =~= be_bytes(len as nat));
        out.push(base + 55 + lenbuf.len() as u8);
        append(out, lenbuf.as_slice());
        assert(final(out)@ =~= old(out)@ + len_header(base as nat, len as nat));
    }
}

/// Appends the RLP encoding of the byte string `s` to `out`.
pub fn push_rlp_string(out: &mut Vec<u8>, s: &[u8])
    ensures
        final(out)@ == old(out)@ + rlp_string(s@),
{
    if s.len() == 1 && s[0] < 0x80 {
        out.push(s[0]);
        assert(s@ =~= seq![s[0]]);
        assert(final(out)@ =~= old(out)@ + rlp_string(s@));
    } else {
        push_len_header(out, 0x80, s.len());
        append(out, s);
        assert(final(out)@ =~= old(out)@ + rlp_string(s@));
    }
}

/// Appends the RLP encoding of a list whose encoded items concatenate to `payload`.
pub fn push_rlp_list(out: &mut Vec<u8>, payload: &[u8])
    ensures
        final(out)@ == old(out)@ + rlp_list(payload@),
{
    push_len_header(out, 0xc0, payload.len());
    append(out, payload);
    assert(final(out)@ =~= old(out)@ + rlp_list(payload@));
}

/// `b` is the canonical RLP encoding of one byte string of at most 55 bytes.
pub open spec fn is_short_string(b: Seq<u8>) -> bool {
    ||| b.len() == 1 && b[0] < 0x80
    ||| b.len() >= 1 && 0x80 <= b[0] <= 0xb7 && b.len() == b[0] - 0x80 + 1 && !(b.len() == 2
        && b[1] < 0x80)
}

/// The value of a big-endian byte string.
pub open spec fn be_value(s: Seq<u8>) -> nat
    decreases s.len(),
{
    if s.len() == 0 {
        0
    } else {
        be_value(s.drop_last()) * 256 + s.last() as nat
    }
}

/// A big-endian integer without leading zero bytes (zero is the empty string).
pub open spec fn is_minimal_be(s: Seq<u8>) -> bool {
    s.len() == 0 || s[0] != 0
}

proof fn lemma_be_value_positive(s: Seq<u8>)
    requires
        s.len() > 0,
        s[0] != 0,
    ensures
        be_value(s) > 0,
    decreases s.len(),
{
    if s.len() > 1 {
        lemma_be_value_positive(s.drop_last());
    }
}

/// A minimal big-endian string is the one that `be_bytes` gives for its value.
pub proof fn lemma_be_round_trip(s: Seq<u8>)
    requires
        is_minimal_be(s),
    ensures
        be_bytes(be_value(s)) == s,
    decreases s.len(),
{
    if s.len() > 0 {
        let v = be_value(s.drop_last());
        let x = s.last() as nat;
        let n = v * 256 + x;
        lemma_be_value_positive(s);
        assert(n / 256 == v && n % 256 == x) by (nonlinear_arith)
            requires
                n == v * 256 + x,
                x < 256,
        ;
        if s.len() > 1 {
            lemma_be_round_trip(s.drop_last());
        } else {
            assert(s.drop_last() =~= Seq::<u8>::empty());
            assert(v == 0);
        }
        assert(be_value(s) == n);
        assert(be_bytes(n) == be_bytes(n / 256).push((n % 256) as u8));
        assert(s =~= s.drop_last().push(s.last()));
    }
}

/// Decodes a whole input as one RLP byte string of at most 55 bytes.
pub fn decode_string(b: &[u8]) -> (r: Option<Vec<u8>>)
    ensures
        r is Some <==> is_short_string(b@),
        r is Some ==> rlp_string(r->Some_0@) == b@,
        forall|s: Seq<u8>| s.len() <= 55 && #[trigger] rlp_string(s) == b@ ==> r is Some && r->Some_0@ == s,
{
    proof {
        assert forall|s: Seq<u8>| s.len() <= 55 && #[trigger] rlp_string(s) == b@ implies is_short_string(b@) && (
        b@.len() == 1 && b@[0] < 0x80 ==> s == b@) && (b@[0] >= 0x80 ==> s == b@.subrange(1, b@.len() as int)) by {
            if !(s.len() == 1 && s[0] < 0x80) {
                assert(len_header(0x80, s.len()) =~= seq![(0x80 + s.len()) as u8]);
                assert(b@.subrange(1, b@.len() as int) =~= s);
                if s.len() == 1 {
                    assert(b@[1] == s[0]);
                }
            }
        }
    }
    let n = b.len();
    if n == 1 && b[0] < 0x80 {
        let mut out: Vec<u8> = Vec::new();
        out.push(b[0]);
        assert(out@ =~= b@);
        Some(out)
    } else if n >= 1 && 0x80 <= b[0] && b[0] <= 0xb7 && n == (b[0] - 0x80) as usize + 1 && !(n
        == 2 && b[1] < 0x80) {
        let mut out: Vec<u8> = Vec::new();
        let mut i: usize = 1;
        while i < n
            invariant
                1 <= i <= n,
                n == b@.len(),
                out@ == b@.subrange(1, i as int),
            decreases n - i,
        {
            out.push(b[i]);
            i += 1;
            assert(out@ =~= b@.subrange(1, i as int));
        }
        assert(b@ =~= seq![b[0]] + out@);
        assert(out@ =~= b@.subrange(1, b@.len() as int));
        Some(out)
    } else {
        None
    }
}

/// Reads one short RLP string item at `pos`, giving its bytes and the position after it.
fn read_item(b: &[u8], pos: usize) -> (r: Option<(Vec<u8>, usize)>)
    requires
        pos <= b@.len(),
    ensures
        r is Some ==> pos < r->Some_0.1 <= b@.len() && rlp_string(r->Some_0.0@) == b@.subrange(
            pos as int,
            r->Some_0.1 as int,
        ),
        forall|s: Seq<u8>|
            s.len() <= 55 && pos + rlp_string(s).len() <= b@.len() && #[trigger] rlp_string(s) == b@.subrange(
                pos as int,
                pos + rlp_string(s).len(),
            ) ==> r is Some && r->Some_0.0@ == s && r->Some_0.1 == pos + rlp_string(s).len(),
{
    let n = b.len();
    proof {
        assert forall|s: Seq<u8>|
            s.len() <= 55 && pos + rlp_string(s).len() <= b@.len() && #[trigger] rlp_string(s) == b@.subrange(
                pos as int,
                pos + rlp_string(s).len(),
            ) implies pos < n && (if b@[pos as int] < 0x80 { rlp_string(s).len() == 1 } else {
                b@[pos as int] <= 0xb7 && rlp_string(s).len() == b@[pos as int] - 0x80 + 1
            }) by {
            let e = rlp_string(s);
            if !(s.len() == 1 && s[0] < 0x80) {
                assert(len_header(0x80, s.len()) =~= seq![(0x80 + s.len()) as u8]);
            }
            assert(e[0] == b@[pos as int]);
        }
    }
    if pos >= n {
        return None;
    }
    let first = b[pos];
    let len: usize = if first < 0x80 {
        1
    } else if first <= 0xb7 {
        (first - 0x80) as usize + 1
    } else {
        return None;
    };
    if len > n - pos {
        return None;
    }
    let mut piece: Vec<u8> = Vec::new();
    crate::rlp::append(&mut piece, &b[pos..pos + len]);
    assert(piece@ =~= b@.subrange(pos as int, pos + len));
    match decode_string(piece.as_slice()) {
        Some(s) => Some((s, pos + len)),
        None => None,
    }
}

/// Decodes a canonical minimal big-endian integer of at most eight bytes.
pub fn be_to_u64(s: &[u8]) -> (r: Option<u64>)
    ensures
        r is Some <==> (s@.len() <= 8 && is_minimal_be(s@)),
        r is Some ==> r->Some_0 == be_value(s@) && be_bytes(r->Some_0 as nat) == s@,
{
    if s.len() > 8 || (s.len() > 0 && s[0] == 0) {
        return None;
    }
    let mut v: u64 = 0;
    let mut i: usize = 0;
    while i < s.len()
        invariant
            i <= s@.len() <= 8,
            v == be_value(s@.subrange(0, i as int)),
            v < crate::rlp::pow256(i as nat),
        decreases s@.len() - i,
    {
        proof {
            reveal_with_fuel(pow256, 9);
            assert(s@.subrange(0, i + 1).drop_last() =~= s@.subrange(0, i as int));
            let p = pow256(i as nat);
            assert(v * 256 + s[i as int] < 256 * p) by (nonlinear_arith)
                requires
                    v < p,
                    s[i as int] < 256,
            ;
            lemma_pow256_small(i as nat);
        }
        v = v * 256 + s[i] as u64;
        i += 1;
    }
    assert(s@.subrange(0, i as int) =~= s@);
    proof {
        lemma_be_round_trip(s@);
    }
    Some(v)
}

proof fn lemma_pow256_small(i: nat)
    requires
        i < 8,
    ensures
        256 * pow256(i) <= 0x1_0000_0000_0000_0000,
{
    reveal_with_fuel(pow256, 9);
}

/// Where one RLP item lies in a buffer: whether it is a list, and the bounds of its payload.
#[derive(Clone, Copy)]
pub struct Item {
    pub is_list: bool,
    pub start: usize,
    pub end: usize,
}

/// The RLP encoding of an item with the given payload.
pub open spec fn item_rlp(is_list: bool, payload: Seq<u8>) -> Seq<u8> {
    if is_list {
        rlp_list(payload)
    } else {
        rlp_string(payload)
    }
}

/// The item read at `pos` is canonically encoded by `b[pos..it.end]`.
pub open spec fn item_at(b: Seq<u8>, pos: int, it: Item) -> bool {
    &&& pos <= it.start <= it.end <= b.len()
    &&& pos < it.end
    &&& it.is_list ==> pos < it.start
    &&& b.subrange(pos, it.end as int) == item_rlp(it.is_list, b.subrange(it.start as int, it.end as int))
}

/// What the bytes at `pos` show when they start with the encoding of `(l, pl)`, in the
/// terms the header reader tests.
pub open spec fn header_facts(b: Seq<u8>, pos: int, l: bool, pl: Seq<u8>) -> bool {
    let x = b[pos];
    let base: int = if x >= 0xc0 { 0xc0 } else { 0x80 };
    let short = x - base;
    let m = b.len() - pos - 1;
    &&& pos < b.len()
    &&& x < 0x80 ==> !l && pl == b.subrange(pos, pos + 1) && item_rlp(l, pl).len() == 1
    &&& x >= 0x80 ==> l == (x >= 0xc0)
    &&& x >= 0x80 && short <= 55 ==> pl.len() == short && short <= m && !(!l && short == 1 && b[pos
        + 1] < 0x80) && pl == b.subrange(pos + 1, pos + 1 + short) && item_rlp(l, pl).len() == 1
        + short
    &&& x >= 0x80 && short > 55 ==> ({
        let ll = short - 55;
        &&& ll <= 2
        &&& ll <= m
        &&& is_minimal_be(b.subrange(pos + 1, pos + 1 + ll))
        &&& be_value(b.subrange(pos + 1, pos + 1 + ll)) == pl.len()
        &&& 55 < pl.len() <= 0xffff
        &&& pl.len() <= m - ll
        &&& pl == b.subrange(pos + 1 + ll, pos + 1 + ll + pl.len())
        &&& item_rlp(l, pl).len() == 1 + ll + pl.len()
    })
}

proof fn lemma_item_header(b: Seq<u8>, pos: int, l: bool, pl: Seq<u8>)
    requires
        0 <= pos,
        pl.len() <= 0xffff,
        pos + item_rlp(l, pl).len() <= b.len(),
        item_rlp(l, pl) == b.subrange(pos, pos + item_rlp(l, pl).len()),
    ensures
        header_facts(b, pos, l, pl),
{
    let e = item_rlp(l, pl);
    let base: nat = if l { 0xc0 } else { 0x80 };
    if !l && pl.len() == 1 && pl[0] < 0x80 {
        assert(e == pl);
        assert(b[pos] == e[0]);
        assert(pl =~= b.subrange(pos, pos + 1));
    } else {
        assert(e == len_header(base, pl.len()) + pl);
        if pl.len() <= 55 {
            assert(len_header(base, pl.len()) =~= seq![(base + pl.len()) as u8]);
            assert(b[pos] == e[0]);
            assert(pl =~= b.subrange(pos + 1, pos + 1 + pl.len())) by {
                assert forall|t: int| 0 <= t < pl.len() implies pl[t] == b[pos + 1 + t] by {
                    assert(e[1 + t] == pl[t]);
                }
            }
            if !l && pl.len() == 1 {
                assert(b[pos + 1] == e[1]);
            }
        } else {
            let lb = be_bytes(pl.len());
            reveal_with_fuel(pow256, 3);
            lemma_be_bytes_len_bound(pl.len(), 2);
            lemma_be_bytes_minimal(pl.len());
            lemma_be_round_trip_value(pl.len());
            assert(lb.len() >= 1) by {
                reveal_with_fuel(be_bytes, 1);
            }
            assert(b[pos] == e[0]);
            assert(lb =~= b.subrange(pos + 1, pos + 1 + lb.len())) by {
                assert forall|t: int| 0 <= t < lb.len() implies lb[t] == b[pos + 1 + t] by {
                    assert(e[1 + t] == lb[t]);
                }
            }
            assert(pl =~= b.subrange(pos + 1 + lb.len(), pos + 1 + lb.len() + pl.len())) by {
                assert forall|t: int| 0 <= t < pl.len() implies pl[t] == b[pos + 1 + lb.len() + t] by {
                    assert(e[1 + lb.len() + t] == pl[t]);
                }
            }
        }
    }
}

/// Reads the header of the RLP item at `pos`. Only canonical headers are taken, and the
/// long forms only with one or two length bytes.
pub fn read_header(b: &[u8], pos: usize) -> (r: Option<Item>)
    requires
        pos <= b@.len(),
    ensures
        r is Some ==> item_at(b@, pos as int, r->Some_0),
        forall|l: bool, pl: Seq<u8>|
            pl.len() <= 0xffff && pos + item_rlp(l, pl).len() <= b@.len() && #[trigger] item_rlp(l, pl)
                == b@.subrange(pos as int, pos + item_rlp(l, pl).len()) ==> r is Some && r->Some_0.is_list
                == l && r->Some_0.end == pos + item_rlp(l, pl).len() && b@.subrange(
                r->Some_0.start as int,
                r->Some_0.end as int,
            ) == pl,
{
    let n = b.len();
    proof {
        assert forall|l: bool, pl: Seq<u8>|
            pl.len() <= 0xffff && pos + item_rlp(l, pl).len() <= b@.len() && #[trigger] item_rlp(l, pl)
                == b@.subrange(pos as int, pos + item_rlp(l, pl).len()) implies header_facts(b@, pos as int, l, pl) by {
            lemma_item_header(b@, pos as int, l, pl);
        }
    }
    if pos >= n {
        return None;
    }
    let x = b[pos];
    if x < 0x80 {
        proof {
            assert(b@.subrange(pos as int, pos + 1) =~= seq![x]);
        }
        return Some(Item { is_list: false, start: pos, end: pos + 1 });
    }
    let is_list = x >= 0xc0;
    let base: u8 = if is_list { 0xc0 } else { 0x80 };
    let short = x - base;
    if short <= 55 {
        let len = short as usize;
        if len > n - pos - 1 {
            return None;
        }
        if !is_list && len == 1 && b[pos + 1] < 0x80 {
            return None;
        }
        let it = Item { is_list, start: pos + 1, end: pos + 1 + len };
        proof {
            let payload = b@.subrange(pos + 1, pos + 1 + len);
            assert(b@.subrange(pos as int, it.end as int) =~= seq![x] + payload);
            assert(len_header(base as nat, len as nat) =~= seq![x]);
        }
        return Some(it);
    }
    let lenlen = (short - 55) as usize;
    if lenlen > 2 || lenlen > n - pos - 1 {
        return None;
    }
    let lenbytes = &b[pos + 1..pos + 1 + lenlen];
    assert(lenbytes@ =~= b@.subrange(pos + 1, pos + 1 + lenlen));
    let len64 = match be_to_u64(lenbytes) {
        Some(v) => v,
        None => return None,
    };
    if len64 <= 55 || len64 > 0xffff || len64 as usize > n - pos - 1 - lenlen {
        return None;
    }
    let len = len64 as usize;
    let start = pos + 1 + lenlen;
    let it = Item { is_list, start, end: start + len };
    proof {
        let lb = b@.subrange(pos + 1, start as int);
        assert(b@.subrange(pos + 1, pos + 1 + lenlen) == lb);
        assert(be_bytes(len as nat) == lb);
        let payload = b@.subrange(start as int, start + len);
        assert(b@.subrange(pos as int, it.end as int) =~= seq![x] + lb + payload);
        assert(len_header(base as nat, len as nat) =~= seq![x] + lb);
    }
    Some(it)
}

/// The fields of an account as the account trie stores them.
pub struct TrieAccount {
    pub nonce: u64,
    /// Minimal big-endian bytes of the balance.
    pub balance: Vec<u8>,
    pub storage_root: [u8; 32],
    pub code_hash: [u8; 32],
}

/// The RLP encoding of an account: the list of its four fields.
pub open spec fn account_rlp(a: TrieAccount) -> Seq<u8> {
    account_fields_rlp(a.nonce, a.balance@, a.storage_root@, a.code_hash@)
}

/// The RLP encoding of an account given by its fields.
pub open spec fn account_fields_rlp(nonce: u64, balance: Seq<u8>, storage_root: Seq<u8>, code_hash: Seq<u8>) -> Seq<u8> {
    rlp_list(
        rlp_string(be_bytes(nonce as nat)) + rlp_string(balance) + rlp_string(storage_root)
            + rlp_string(code_hash),
    )
}

/// The RLP encoding of an account.
pub fn encode_account(a: &TrieAccount) -> (r: Vec<u8>)
    ensures
        r@ == account_rlp(*a),
{
    let mut nonce: Vec<u8> = Vec::new();
    push_be_bytes(&mut nonce, a.nonce);
    assert(nonce@ =~= be_bytes(a.nonce as nat));
    let mut payload: Vec<u8> = Vec::new();
    push_rlp_string(&mut payload, nonce.as_slice());
    push_rlp_string(&mut payload, a.balance.as_slice());
    push_rlp_string(&mut payload, a.storage_root.as_slice());
    push_rlp_string(&mut payload, a.code_hash.as_slice());
    let mut out: Vec<u8> = Vec::new();
    push_rlp_list(&mut out, payload.as_slice());
    assert(out@ =~= account_rlp(*a));
    out
}

/// An account whose balance is a minimal big-endian integer of at most 32 bytes.
pub open spec fn is_canonical_account(a: TrieAccount) -> bool {
    is_minimal_be(a.balance@) && a.balance@.len() <= 32
}

/// `b` is the encoding of some canonical account.
pub open spec fn encodes_account(b: Seq<u8>) -> bool {
    exists|a: TrieAccount| is_canonical_account(a) && #[trigger] account_rlp(a) == b
}

pub open spec fn account_of(b: Seq<u8>) -> TrieAccount {
    choose|a: TrieAccount| is_canonical_account(a) && #[trigger] account_rlp(a) == b
}

proof fn lemma_be_round_trip_value(n: nat)
    ensures
        be_value(be_bytes(n)) == n,
    decreases n,
{
    if n > 0 {
        lemma_be_round_trip_value(n / 256);
        let s = be_bytes(n);
        assert(s.drop_last() =~= be_bytes(n / 256));
        assert(n == (n / 256) * 256 + n % 256);
    }
}

/// Two accounts with the same fields.
pub open spec fn same_account(a: TrieAccount, b: TrieAccount) -> bool {
    &&& a.nonce == b.nonce
    &&& a.balance@ == b.balance@
    &&& a.storage_root@ == b.storage_root@
    &&& a.code_hash@ == b.code_hash@
}

proof fn lemma_be_bytes_minimal(n: nat)
    ensures
        is_minimal_be(be_bytes(n)),
    decreases n,
{
    if n > 0 {
        lemma_be_bytes_minimal(n / 256);
        if n / 256 == 0 {
            assert(be_bytes(n / 256) =~= Seq::<u8>::empty());
            assert(n % 256 == n);
        }
    }
}

/// Where the fields of an encoded canonical account lie.
proof fn lemma_account_layout(b: Seq<u8>)
    ensures
        encodes_account(b) ==> ({
            let a = account_of(b);
            let e1 = rlp_string(be_bytes(a.nonce as nat));
            let e2 = rlp_string(a.balance@);
            let e3 = rlp_string(a.storage_root@);
            let e4 = rlp_string(a.code_hash@);
            let p1 = 2 + e1.len();
            let p2 = p1 + e2.len();
            let p3 = p2 + e3.len();
            &&& b.len() == p3 + e4.len()
            &&& b[0] == 0xf8
            &&& b[1] >= 56
            &&& b[1] == b.len() - 2
            &&& be_bytes(a.nonce as nat).len() <= 8
            &&& is_minimal_be(be_bytes(a.nonce as nat))
            &&& e1 == b.subrange(2, p1 as int)
            &&& e2 == b.subrange(p1 as int, p2 as int)
            &&& e3 == b.subrange(p2 as int, p3 as int)
            &&& e4 == b.subrange(p3 as int, b.len() as int)
        }),
{
    if encodes_account(b) {
        let a = account_of(b);
        let nb = be_bytes(a.nonce as nat);
        lemma_be_bytes_len(a.nonce as nat);
        lemma_be_bytes_minimal(a.nonce as nat);
        let e1 = rlp_string(nb);
        let e2 = rlp_string(a.balance@);
        let e3 = rlp_string(a.storage_root@);
        let e4 = rlp_string(a.code_hash@);
        assert(len_header(0x80, 32) =~= seq![0xa0u8]);
        assert(e3.len() == 33 && e4.len() == 33);
        assert(e1.len() >= 1 && e1.len() <= 9) by {
            if !(nb.len() == 1 && nb[0] < 0x80) {
                assert(len_header(0x80, nb.len()) =~= seq![(0x80 + nb.len()) as u8]);
            }
        }
        assert(e2.len() >= 1 && e2.len() <= 33) by {
            if !(a.balance@.len() == 1 && a.balance@[0] < 0x80) {
                assert(len_header(0x80, a.balance@.len()) =~= seq![(0x80 + a.balance@.len()) as u8]);
            }
        }
        let payload = e1 + e2 + e3 + e4;
        let l = payload.len();
        assert(be_bytes(l) =~= seq![l as u8]) by {
            reveal_with_fuel(be_bytes, 2);
        }
        assert(len_header(0xc0, l) =~= seq![0xf8u8, l as u8]);
        assert(b =~= seq![0xf8u8, l as u8] + payload);
        let p1 = 2 + e1.len();
        let p2 = p1 + e2.len();
        let p3 = p2 + e3.len();
        assert(e1 =~= b.subrange(2, p1 as int));
        assert(e2 =~= b.subrange(p1 as int, p2 as int));
        assert(e3 =~= b.subrange(p2 as int, p3 as int));
        assert(e4 =~= b.subrange(p3 as int, b.len() as int));
    }
}

proof fn lemma_account_pieces(b: Seq<u8>, a: TrieAccount, p1: int, p2: int, p3: int)
    requires
        2 <= p1 <= p2 <= p3 <= b.len(),
        b.len() >= 2,
        b[0] == 0xf8,
        b[1] >= 56,
        b[1] == b.len() - 2,
        rlp_string(be_bytes(a.nonce as nat)) == b.subrange(2, p1),
        rlp_string(a.balance@) == b.subrange(p1, p2),
        rlp_string(a.storage_root@) == b.subrange(p2, p3),
        rlp_string(a.code_hash@) == b.subrange(p3, b.len() as int),
    ensures
        account_rlp(a) == b,
{
    reveal_with_fuel(be_bytes, 2);
    assert(be_bytes((b.len() - 2) as nat) =~= seq![b[1]]);
    assert(b =~= b.subrange(0, 2) + b.subrange(2, p1) + b.subrange(p1, p2) + b.subrange(p2, p3)
        + b.subrange(p3, b.len() as int));
    assert(account_rlp(a) =~= b);
}

/// Decodes the RLP encoding of an account. Only canonical encodings are taken, and every
/// canonical encoding is.
pub fn decode_account(b: &[u8]) -> (r: Option<TrieAccount>)
    ensures
        r is Some ==> account_rlp(r->Some_0) == b@ && is_canonical_account(r->Some_0),
        encodes_account(b@) ==> r is Some && same_account(r->Some_0, account_of(b@)),
{
    proof {
        lemma_account_layout(b@);
    }
    let n = b.len();
    if n < 2 {
        return None;
    }
    // The four fields take at least 66 bytes, so the list header has the long form.
    if b[0] != 0xf8 || b[1] < 56 || b[1] as usize != n - 2 {
        return None;
    }
    let ghost dec = encodes_account(b@);
    let ghost ga = account_of(b@);
    let ghost nb = be_bytes(ga.nonce as nat);
    let ghost e1 = rlp_string(nb);
    let ghost e2 = rlp_string(ga.balance@);
    let ghost e3 = rlp_string(ga.storage_root@);
    let ghost e4 = rlp_string(ga.code_hash@);
    let (nonce_bytes, p1) = match read_item(b, 2) {
        Some(x) => x,
        None => return None,
    };
    assert(dec ==> nonce_bytes@ == nb && p1 == 2 + e1.len());
    let (balance, p2) = match read_item(b, p1) {
        Some(x) => x,
        None => return None,
    };
    assert(dec ==> balance@ == ga.balance@ && p2 == p1 + e2.len());
    let (root, p3) = match read_item(b, p2) {
        Some(x) => x,
        None => return None,
    };
    assert(dec ==> root@ == ga.storage_root@ && p3 == p2 + e3.len());
    let (code, p4) = match read_item(b, p3) {
        Some(x) => x,
        None => return None,
    };
    assert(dec ==> code@ == ga.code_hash@ && p4 == p3 + e4.len());
    if p4 != n || root.len() != 32 || code.len() != 32 || balance.len() > 32 || (balance.len() > 0
        && balance[0] == 0) {
        return None;
    }
    let nonce = match be_to_u64(nonce_bytes.as_slice()) {
        Some(v) => v,
        None => return None,
    };
    proof {
        if dec {
            lemma_be_round_trip_value(ga.nonce as nat);
        }
    }
    let storage_root = vec_to_b32(&root);
    let code_hash = vec_to_b32(&code);
    let a = TrieAccount { nonce, balance, storage_root, code_hash };
    proof {
        lemma_account_pieces(b@, a, p1 as int, p2 as int, p3 as int);
    }
    Some(a)
}

/// Copies 32 bytes into an array.
pub fn vec_to_b32(v: &Vec<u8>) -> (r: [u8; 32])
    requires
        v@.len() == 32,
    ensures
        r@ == v@,
{
    let mut r: [u8; 32] = [0u8; 32];
    let mut i: usize = 0;
    while i < 32
        invariant
            i <= 32,
            v@.len() == 32,
            forall|k: int| 0 <= k < i ==> r@[k] == v@[k],
        decreases 32 - i,
    {
        r[i] = v[i];
        i += 1;
    }
    assert(r@ =~= v@);
    r
}

} // verus!
