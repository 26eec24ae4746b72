//! The Merkle-Patricia trie.
//!
//! Keys are byte strings walked as hex-nibble paths; a branch consumes one
//! nibble per level and a short node a run of nibbles.  A primary insert
//! overwrites the value; a secondary insert adds or removes one token of the
//! comma-separated posting list, and a delete whose target does not exist yet
//! is deferred in the node's delete map until the matching add arrives.
//! Nodes are content-addressed by SHA-256 and persisted in an external
//! key-value database.
use vstd::prelude::*;

use crate::field::{sha256, sha256_of};
use crate::mpt_error::MPTError;
use crate::mpt_node::{
    full_hash_input, short_hash_input, wf_child, wf_full, wf_short, Database, FullNode, NodeCache,
    ShortNode, ToDelMap,
};
use crate::mpt_utils::{
    byte_to_hex_index, char_to_hex_index, common_prefix_len, hex_char_value, key_to_hex_path,
    nibble_char_of, nibble_to_hex_char, KVPair,
};
use crate::poly::{bytes_eq, scalar_clone};

verus! {

/// The largest key the trie accepts, in bytes.
pub const MAX_KEY_BYTES: usize = 0x0100_0000;

/// The all-zero hash marking an empty trie.
pub open spec fn zero_hash() -> Seq<u8> {
    Seq::new(32, |i: int| 0u8)
}

/// Builds the all-zero hash.
pub(crate) fn make_zero_hash() -> (r: Vec<u8>)
    ensures
        r@ == zero_hash(),
{
    let mut out: Vec<u8> = Vec::new();
    let mut k: usize = 0;
    while k < 32
        invariant
            0 <= k <= 32,
            out@.len() == k,
            forall|i: int| 0 <= i < k ==> out@[i] == 0u8,
        decreases 32 - k,
    {
        out.push(0);
        k += 1;
    }
    proof {
        assert(out@ =~= zero_hash());
    }
    out
}

/// The metadata persisted beside the trie: its root hash, a format version
/// and a caller-provided timestamp.
pub struct MPTMetadata {
    pub root_hash: Vec<u8>,
    pub version: u32,
    pub timestamp: u64,
}

impl MPTMetadata {
    /// Metadata for a root hash, at version one; the caller stamps the time,
    /// as the library does not read a clock.
    pub fn new(root_hash: Vec<u8>) -> (r: Self)
        ensures
            r.root_hash@ == root_hash@,
            r.version == 1u32,
            r.timestamp == 0u64,
    {
        Self { root_hash, version: 1, timestamp: 0 }
    }
}

/// The four little-endian bytes of a version word.
pub open spec fn u32_le_of(v: u32) -> Seq<u8> {
    Seq::new(4, |k: int| ((v >> ((8 * k) as u32)) & 0xffu32) as u8)
}

/// The eight little-endian bytes of a timestamp.
pub open spec fn u64_le_of(t: u64) -> Seq<u8> {
    Seq::new(8, |k: int| ((t >> ((8 * k) as u64)) & 0xffu64) as u8)
}

/// Structural soundness of a trie: a 32-byte root hash and a sound root.
pub open spec fn wf_mpt(m: MPT) -> bool {
    &&& m.root_hash@.len() == 32
    &&& match m.root {
        None => true,
        Some(r) => wf_full(*r),
    }
}

/// The trie: the root hash, the root branch when materialized, and an
/// optional node cache.
pub struct MPT {
    pub root_hash: Vec<u8>,
    pub root: Option<Box<FullNode>>,
    pub cache: Option<NodeCache>,
}

/// Nibble soundness of a path: every entry is below sixteen.
pub open spec fn nibbles_ok(p: Seq<u8>) -> bool {
    forall|i: int| 0 <= i < p.len() ==> #[trigger] p[i] < 16
}

/// The value stored for a path below a branch, from nibble position `pos`:
/// the branch's own value when the path ends here, else whatever the child
/// at the next nibble holds.  Children that are not materialized read as
/// absent.
pub open spec fn lookup_full(n: FullNode, path: Seq<u8>, pos: int) -> Option<Seq<u8>>
    decreases path.len() - pos, 0int,
{
    if pos < 0 || pos >= path.len() {
        crate::mpt_node::opt_view(n.value)
    } else {
        let idx = (path[pos] & 0x0f) as int;
        if idx < n.children@.len() {
            match n.children@[idx] {
                None => None,
                Some(c) => lookup_short(*c, path, pos + 1),
            }
        } else {
            None
        }
    }
}

/// The value stored for a path below a short node: a leaf answers its value
/// when the rest of the path equals its suffix; an extension descends into
/// its next branch when its suffix is the next run of nibbles.
pub open spec fn lookup_short(s: ShortNode, path: Seq<u8>, pos: int) -> Option<Seq<u8>>
    decreases path.len() - pos, 1int,
{
    if pos < 0 || pos > path.len() {
        None
    } else if s.is_leaf {
        if path.skip(pos) == suffix_nibbles_of(s.suffix@) {
            crate::mpt_node::opt_view(s.value)
        } else {
            None
        }
    } else {
        let sn = suffix_nibbles_of(s.suffix@);
        if path.len() - pos >= sn.len() && path.subrange(pos, pos + sn.len()) == sn {
            match s.next_node {
                None => None,
                Some(f) => lookup_full(*f, path, pos + sn.len()),
            }
        } else {
            None
        }
    }
}

/// The value a trie stores for a key, read over the materialized tree.
pub open spec fn mpt_lookup(m: MPT, key: Seq<u8>) -> Option<Seq<u8>> {
    match m.root {
        None => None,
        Some(rt) => lookup_full(*rt, crate::mpt_utils::hex_path_of(key), 0),
    }
}

/// The posting-list value after one secondary arrival at a stored value:
/// a delete of a held token re-joins the list without it, an add with no
/// pending delete sets or appends the token, and `None` leaves the value
/// as it stands (a missed delete or a cancelled add only moves a counter).
pub open spec fn sec_value_change(oldv: Seq<u8>, pending: u32, token: Seq<u8>, flag: bool) -> Option<
    Seq<u8>,
> {
    let toks = crate::mpt_utils::split_csv(oldv);
    if flag {
        if toks.contains(token) {
            Some(crate::mpt_utils::join_csv(crate::mpt_utils::remove_tok(toks, token)))
        } else {
            None
        }
    } else {
        if pending > 0 {
            None
        } else if oldv.len() == 0 {
            Some(token)
        } else if toks.contains(token) {
            None
        } else {
            Some(oldv + seq![crate::mpt_utils::COMMA] + token)
        }
    }
}

/// The deferred-delete count recorded for a path's token at the node where
/// the path's value lives, through a branch.
pub open spec fn pending_full(n: FullNode, path: Seq<u8>, pos: int, tok: Seq<u8>) -> u32
    decreases path.len() - pos, 0int,
{
    if pos < 0 || pos >= path.len() {
        tdm_count_of(n.to_del_map@, path, tok)
    } else {
        let idx = (path[pos] & 0x0f) as int;
        match n.children[idx] {
            None => 0u32,
            Some(c) => pending_short(*c, path, pos + 1, tok),
        }
    }
}

/// The deferred-delete count for a path's token, through a short node.
pub open spec fn pending_short(s: ShortNode, path: Seq<u8>, pos: int, tok: Seq<u8>) -> u32
    decreases path.len() - pos, 1int,
{
    if pos < 0 || pos > path.len() {
        0u32
    } else if s.is_leaf {
        if path.skip(pos) == suffix_nibbles_of(s.suffix@) {
            tdm_count_of(s.to_del_map@, path, tok)
        } else {
            0u32
        }
    } else {
        let sn = suffix_nibbles_of(s.suffix@);
        if path.len() - pos >= sn.len() && path.subrange(pos, pos + sn.len()) == sn {
            match s.next_node {
                None => 0u32,
                Some(f) => pending_full(*f, path, pos + sn.len(), tok),
            }
        } else {
            0u32
        }
    }
}

/// The deferred-delete count recorded beside a stored key's value.
pub open spec fn mpt_pending(m: MPT, key: Seq<u8>, tok: Seq<u8>) -> u32 {
    match m.root {
        None => 0u32,
        Some(rt) => pending_full(*rt, crate::mpt_utils::hex_path_of(key), 0, tok),
    }
}

/// A branch settled through its whole materialized subtree: nothing is
/// dirty, every node's hash is the digest of its content, and every
/// recorded child hash is the child's own.
pub open spec fn fixed_full(n: FullNode) -> bool
    decreases n,
{
    &&& !n.is_dirty
    &&& n.node_hash@ == sha256_of(full_hash_input(n))
    &&& forall|k: int|
        0 <= k < n.children@.len() ==> match #[trigger] n.children@[k] {
            None => true,
            Some(c) => fixed_short(*c) && n.children_hash@[k] is Some
                && n.children_hash@[k]->Some_0@ == c.node_hash@,
        }
}

/// A short node settled with everything under it.
pub open spec fn fixed_short(s: ShortNode) -> bool
    decreases s,
{
    &&& !s.is_dirty
    &&& s.node_hash@ == sha256_of(short_hash_input(s))
    &&& match s.next_node {
        None => true,
        Some(f) => fixed_full(*f) && s.next_node_hash@ == f.node_hash@,
    }
}

/// The nibbles a stored hex-character suffix stands for; characters that are
/// not hex digits are dropped.
pub open spec fn suffix_nibbles_of(s: Seq<u8>) -> Seq<u8>
    decreases s.len(),
{
    if s.len() == 0 {
        Seq::empty()
    } else {
        let prev = suffix_nibbles_of(s.drop_last());
        match hex_char_value(s.last()) {
            Some(v) => prev.push(v as u8),
            None => prev,
        }
    }
}

/// Parses a stored suffix into its nibbles, dropping what is not a hex
/// digit.
pub(crate) fn suffix_to_nibbles(s: &Vec<u8>) -> (r: Vec<u8>)
    ensures
        r@ == suffix_nibbles_of(s@),
        nibbles_ok(r@),
{
    let mut out: Vec<u8> = Vec::new();
    let mut i: usize = 0;
    while i < s.len()
        invariant
            0 <= i <= s@.len(),
            out@ == suffix_nibbles_of(s@.take(i as int)),
            nibbles_ok(out@),
        decreases s@.len() - i,
    {
        proof {
            assert(s@.take(i + 1).drop_last() =~= s@.take(i as int));
            assert(s@.take(i + 1).last() == s@[i as int]);
        }
        match char_to_hex_index(s[i]) {
            Some(v) => {
                out.push(v as u8);
            },
            None => (),
        }
        i += 1;
    }
    proof {
        assert(s@.take(s@.len() as int) =~= s@);
    }
    out
}

/// Characters written from nibbles parse back to exactly those nibbles.
proof fn lemma_chars_roundtrip(chars: Seq<u8>, nibs: Seq<u8>, from: int)
    requires
        0 <= from <= nibs.len(),
        chars.len() == nibs.len() - from,
        forall|k: int| 0 <= k < chars.len() ==> #[trigger] chars[k] == nibble_char_of(nibs[from + k]),
        nibbles_ok(nibs),
    ensures
        suffix_nibbles_of(chars) == nibs.skip(from),
    decreases chars.len(),
{
    if chars.len() == 0 {
        assert(suffix_nibbles_of(chars) =~= nibs.skip(from));
    } else {
        let last_nib = nibs[nibs.len() - 1];
        assert(chars.last() == nibble_char_of(last_nib));
        assert(last_nib < 16);
        assert(hex_char_value(nibble_char_of(last_nib)) == Some(last_nib as usize));
        lemma_chars_roundtrip(chars.drop_last(), nibs.drop_last(), from);
        assert(forall|k: int|
            0 <= k < chars.drop_last().len() ==> #[trigger] chars.drop_last()[k] == chars[k]);
        assert(forall|k: int|
            0 <= k < nibs.drop_last().len() ==> #[trigger] nibs.drop_last()[k] == nibs[k]);
        assert(suffix_nibbles_of(chars) == suffix_nibbles_of(chars.drop_last()).push(
            last_nib,
        ));
        assert(nibs.drop_last().skip(from).push(last_nib) =~= nibs.skip(from));
    }
}

/// Writes a run of nibbles as lowercase hex characters.
pub(crate) fn nibbles_to_suffix(p: &[u8], from: usize) -> (r: Vec<u8>)
    requires
        from <= p@.len(),
        nibbles_ok(p@),
    ensures
        r@.len() == p@.len() - from,
        forall|k: int| 0 <= k < r@.len() ==> #[trigger] r@[k] == nibble_char_of(p@[from + k]),
{
    let mut out: Vec<u8> = Vec::new();
    let mut i: usize = from;
    while i < p.len()
        invariant
            from <= i <= p@.len(),
            nibbles_ok(p@),
            out@.len() == i - from,
            forall|k: int| 0 <= k < out@.len() ==> #[trigger] out@[k] == nibble_char_of(p@[from + k]),
        decreases p@.len() - i,
    {
        assert(p@[i as int] < 16);
        out.push(nibble_to_hex_char(crate::mpt_utils::slice_u8(p, i)));
        i += 1;
    }
    out
}

/// Whether a byte string starts with a prefix.
pub open spec fn has_prefix(s: Seq<u8>, p: Seq<u8>) -> bool {
    p.len() <= s.len() && s.take(p.len() as int) == p
}

/// Dropping one map entry whose key is not the one read leaves that key's
/// deferred count as it was.
proof fn lemma_tdm_drop_middle(
    a: Seq<(Vec<u8>, Vec<(Vec<u8>, u32)>)>,
    e: (Vec<u8>, Vec<(Vec<u8>, u32)>),
    b: Seq<(Vec<u8>, Vec<(Vec<u8>, u32)>)>,
    k: Seq<u8>,
    v: Seq<u8>,
)
    requires
        e.0@ != k,
    ensures
        tdm_count_of(a + seq![e] + b, k, v) == tdm_count_of(a + b, k, v),
    decreases a.len(),
{
    if a.len() == 0 {
        assert(a + seq![e] + b =~= seq![e] + b);
        assert((seq![e] + b)[0] == e);
        assert((seq![e] + b).drop_first() =~= b);
        assert(a + b =~= b);
    } else {
        assert((a + seq![e] + b)[0] == a[0]);
        assert((a + b)[0] == a[0]);
        assert((a + seq![e] + b).drop_first() =~= a.drop_first() + seq![e] + b);
        assert((a + b).drop_first() =~= a.drop_first() + b);
        lemma_tdm_drop_middle(a.drop_first(), e, b, k, v);
    }
}

/// A key no map entry carries has a deferred count of zero.
proof fn lemma_tdm_absent(entries: Seq<(Vec<u8>, Vec<(Vec<u8>, u32)>)>, k: Seq<u8>, v: Seq<u8>)
    requires
        forall|j: int| 0 <= j < entries.len() ==> (#[trigger] entries[j]).0@ != k,
    ensures
        tdm_count_of(entries, k, v) == 0,
    decreases entries.len(),
{
    if entries.len() > 0 {
        assert(forall|j: int|
            0 <= j < entries.drop_first().len() ==> (#[trigger] entries.drop_first()[j]) == entries[
                j + 1
            ]);
        lemma_tdm_absent(entries.drop_first(), k, v);
    }
}

/// Reads the entries of a deferred-delete map whose key starts with the
/// given prefix, removing them from the map and handing them back: the
/// counts under prefixed keys move whole, the others stay whole.
pub(crate) fn tdm_split_prefix(m: &mut ToDelMap, prefix: &Vec<u8>) -> (r: ToDelMap)
    ensures
        forall|k: Seq<u8>, v: Seq<u8>|
            has_prefix(k, prefix@) ==> #[trigger] tdm_count_of(r@, k, v) == tdm_count_of(
                old(m)@,
                k,
                v,
            ) && tdm_count_of(final(m)@, k, v) == 0,
        forall|k: Seq<u8>, v: Seq<u8>|
            !has_prefix(k, prefix@) ==> #[trigger] tdm_count_of(final(m)@, k, v) == tdm_count_of(
                old(m)@,
                k,
                v,
            ) && tdm_count_of(r@, k, v) == 0,
{
    let ghost m0 = m@;
    let mut kept: ToDelMap = Vec::new();
    let mut moved: ToDelMap = Vec::new();
    proof {
        assert(moved@ + m@ =~= m0);
        assert(kept@ + m@ =~= m0);
    }
    while m.len() > 0
        invariant
            forall|k: Seq<u8>, v: Seq<u8>|
                has_prefix(k, prefix@) ==> #[trigger] tdm_count_of(moved@ + m@, k, v)
                    == tdm_count_of(m0, k, v),
            forall|k: Seq<u8>, v: Seq<u8>|
                !has_prefix(k, prefix@) ==> #[trigger] tdm_count_of(kept@ + m@, k, v)
                    == tdm_count_of(m0, k, v),
            forall|j: int| 0 <= j < moved@.len() ==> has_prefix((#[trigger] moved@[j]).0@, prefix@),
            forall|j: int|
                0 <= j < kept@.len() ==> !has_prefix((#[trigger] kept@[j]).0@, prefix@),
        decreases m@.len(),
    {
        let ghost mv = m@;
        let entry = m.remove(0);
        let ghost ent = entry;
        proof {
            assert(m@ =~= mv.drop_first());
            assert(ent == mv[0]);
        }
        if crate::mpt_utils::starts_with(&entry.0, prefix) {
            let ghost mvd = moved@;
            moved.push(entry);
            proof {
                assert(moved@ =~= mvd.push(ent));
                assert(moved@ + m@ =~= mvd + mv);
                assert forall|k: Seq<u8>, v: Seq<u8>|
                    !has_prefix(k, prefix@) implies #[trigger] tdm_count_of(kept@ + m@, k, v)
                    == tdm_count_of(m0, k, v) by {
                    assert(ent.0@ != k);
                    lemma_tdm_drop_middle(kept@, ent, m@, k, v);
                    assert(kept@ + seq![ent] + m@ =~= kept@ + mv);
                }
            }
        } else {
            let ghost kpt = kept@;
            kept.push(entry);
            proof {
                assert(kept@ =~= kpt.push(ent));
                assert(kept@ + m@ =~= kpt + mv);
                assert forall|k: Seq<u8>, v: Seq<u8>|
                    has_prefix(k, prefix@) implies #[trigger] tdm_count_of(moved@ + m@, k, v)
                    == tdm_count_of(m0, k, v) by {
                    assert(ent.0@ != k);
                    lemma_tdm_drop_middle(moved@, ent, m@, k, v);
                    assert(moved@ + seq![ent] + m@ =~= moved@ + mv);
                }
            }
        }
    }
    let ghost keptv = kept@;
    let ghost mrem = m@;
    core::mem::swap(m, &mut kept);
    proof {
        assert(mrem.len() == 0);
        assert(moved@ + mrem =~= moved@);
        assert(keptv + mrem =~= keptv);
        assert(m@ == keptv);
        assert forall|k: Seq<u8>, v: Seq<u8>|
            has_prefix(k, prefix@) implies #[trigger] tdm_count_of(moved@, k, v) == tdm_count_of(
            m0,
            k,
            v,
        ) && tdm_count_of(m@, k, v) == 0 by {
            assert(tdm_count_of(moved@ + mrem, k, v) == tdm_count_of(m0, k, v));
            lemma_tdm_absent(keptv, k, v);
        }
        assert forall|k: Seq<u8>, v: Seq<u8>|
            !has_prefix(k, prefix@) implies #[trigger] tdm_count_of(m@, k, v) == tdm_count_of(
            m0,
            k,
            v,
        ) && tdm_count_of(moved@, k, v) == 0 by {
            assert(tdm_count_of(keptv + mrem, k, v) == tdm_count_of(m0, k, v));
            lemma_tdm_absent(moved@, k, v);
        }
    }
    moved
}

/// The count recorded in one key's inner list for a value.
pub open spec fn inner_count_of(inner: Seq<(Vec<u8>, u32)>, val: Seq<u8>) -> u32
    decreases inner.len(),
{
    if inner.len() == 0 {
        0u32
    } else if inner[0].0@ == val {
        inner[0].1
    } else {
        inner_count_of(inner.drop_first(), val)
    }
}

/// The deferred-delete count a map records for a key and value.
pub open spec fn tdm_count_of(m: Seq<(Vec<u8>, Vec<(Vec<u8>, u32)>)>, key: Seq<u8>, val: Seq<u8>) -> u32
    decreases m.len(),
{
    if m.len() == 0 {
        0u32
    } else if m[0].0@ == key {
        inner_count_of(m[0].1@, val)
    } else {
        tdm_count_of(m.drop_first(), key, val)
    }
}

/// The deferred count recorded for a key and value.
pub(crate) fn tdm_count(m: &ToDelMap, key: &Vec<u8>, val: &Vec<u8>) -> (r: u32)
    ensures
        r == tdm_count_of(m@, key@, val@),
{
    let mut i: usize = 0;
    proof {
        assert(m@.skip(0) =~= m@);
    }
    while i < m.len()
        invariant
            0 <= i <= m@.len(),
            tdm_count_of(m@, key@, val@) == tdm_count_of(m@.skip(i as int), key@, val@),
        decreases m@.len() - i,
    {
        proof {
            assert(m@.skip(i as int)[0] == m@[i as int]);
            assert(m@.skip(i as int).drop_first() =~= m@.skip(i + 1));
        }
        if bytes_eq(&m[i].0, key) {
            let inner = &m[i].1;
            let mut j: usize = 0;
            proof {
                assert(inner@.skip(0) =~= inner@);
            }
            while j < inner.len()
                invariant
                    0 <= j <= inner@.len(),
                    inner@ == m@[i as int].1@,
                    0 <= i < m@.len(),
                    m@[i as int].0@ == key@,
                    tdm_count_of(m@, key@, val@) == tdm_count_of(m@.skip(i as int), key@, val@),
                    inner_count_of(inner@, val@) == inner_count_of(inner@.skip(j as int), val@),
                decreases inner@.len() - j,
            {
                proof {
                    assert(inner@.skip(j as int)[0] == inner@[j as int]);
                    assert(inner@.skip(j as int).drop_first() =~= inner@.skip(j + 1));
                }
                if bytes_eq(&inner[j].0, val) {
                    proof {
                        assert(m@.skip(i as int)[0].0@ == key@);
                    }
                    return inner[j].1;
                }
                j += 1;
            }
            proof {
                assert(inner@.skip(inner@.len() as int) =~= Seq::<(Vec<u8>, u32)>::empty());
            }
            return 0;
        }
        i += 1;
    }
    proof {
        assert(m@.skip(m@.len() as int) =~= Seq::<(Vec<u8>, Vec<(Vec<u8>, u32)>)>::empty());
    }
    0
}

/// Whether some entry carries the key.
pub open spec fn has_tdm_key(m: Seq<(Vec<u8>, Vec<(Vec<u8>, u32)>)>, k: Seq<u8>) -> bool {
    exists|j: int| 0 <= j < m.len() && (#[trigger] m[j]).0@ == k
}

/// Whether some inner pair carries the value.
pub open spec fn has_inner_key(inner: Seq<(Vec<u8>, u32)>, v: Seq<u8>) -> bool {
    exists|j: int| 0 <= j < inner.len() && (#[trigger] inner[j]).0@ == v
}

/// A value no inner pair carries counts zero.
proof fn lemma_inner_absent(inner: Seq<(Vec<u8>, u32)>, v: Seq<u8>)
    requires
        forall|j: int| 0 <= j < inner.len() ==> (#[trigger] inner[j]).0@ != v,
    ensures
        inner_count_of(inner, v) == 0,
    decreases inner.len(),
{
    if inner.len() > 0 {
        assert(forall|j: int|
            0 <= j < inner.drop_first().len() ==> (#[trigger] inner.drop_first()[j]) == inner[j
                + 1]);
        lemma_inner_absent(inner.drop_first(), v);
    }
}

/// Appending an inner pair leaves earlier counts and only binds a value
/// that nothing earlier carried.
proof fn lemma_inner_push(inner: Seq<(Vec<u8>, u32)>, p: (Vec<u8>, u32), v: Seq<u8>)
    ensures
        inner_count_of(inner.push(p), v) == (if has_inner_key(inner, v) {
            inner_count_of(inner, v)
        } else if p.0@ == v {
            p.1
        } else {
            0u32
        }),
    decreases inner.len(),
{
    if inner.len() == 0 {
        assert(inner.push(p)[0] == p);
        assert(inner.push(p).drop_first() =~= Seq::<(Vec<u8>, u32)>::empty());
        if p.0@ != v {
            lemma_inner_absent(inner.push(p), v);
        }
    } else {
        assert(inner.push(p)[0] == inner[0]);
        assert(inner.push(p).drop_first() =~= inner.drop_first().push(p));
        lemma_inner_push(inner.drop_first(), p, v);
        if inner[0].0@ != v {
            if has_inner_key(inner.drop_first(), v) {
                let j = choose|j: int|
                    0 <= j < inner.drop_first().len() && (#[trigger] inner.drop_first()[j]).0@
                        == v;
                assert((#[trigger] inner[j + 1]).0@ == v);
            }
            if has_inner_key(inner, v) {
                let j = choose|j: int| 0 <= j < inner.len() && (#[trigger] inner[j]).0@ == v;
                assert((#[trigger] inner.drop_first()[j - 1]).0@ == v);
            }
        }
    }
}

/// Appending a map entry leaves earlier keys' counts and only binds a key
/// that nothing earlier carried.
proof fn lemma_tdm_push(
    m: Seq<(Vec<u8>, Vec<(Vec<u8>, u32)>)>,
    e: (Vec<u8>, Vec<(Vec<u8>, u32)>),
    k: Seq<u8>,
    v: Seq<u8>,
)
    ensures
        tdm_count_of(m.push(e), k, v) == (if has_tdm_key(m, k) {
            tdm_count_of(m, k, v)
        } else if e.0@ == k {
            inner_count_of(e.1@, v)
        } else {
            0u32
        }),
    decreases m.len(),
{
    if m.len() == 0 {
        assert(m.push(e)[0] == e);
        assert(m.push(e).drop_first() =~= Seq::<(Vec<u8>, Vec<(Vec<u8>, u32)>)>::empty());
        if e.0@ != k {
            lemma_tdm_absent(m.push(e), k, v);
        }
    } else {
        assert(m.push(e)[0] == m[0]);
        assert(m.push(e).drop_first() =~= m.drop_first().push(e));
        lemma_tdm_push(m.drop_first(), e, k, v);
        if m[0].0@ != k {
            if has_tdm_key(m.drop_first(), k) {
                let j = choose|j: int|
                    0 <= j < m.drop_first().len() && (#[trigger] m.drop_first()[j]).0@ == k;
                assert((#[trigger] m[j + 1]).0@ == k);
            }
            if has_tdm_key(m, k) {
                let j = choose|j: int| 0 <= j < m.len() && (#[trigger] m[j]).0@ == k;
                assert((#[trigger] m.drop_first()[j - 1]).0@ == k);
            }
        }
    }
}

/// The first entry bound to a key decides its deferred counts.
proof fn lemma_tdm_first(
    a: Seq<(Vec<u8>, Vec<(Vec<u8>, u32)>)>,
    e: (Vec<u8>, Vec<(Vec<u8>, u32)>),
    b: Seq<(Vec<u8>, Vec<(Vec<u8>, u32)>)>,
    k: Seq<u8>,
    v: Seq<u8>,
)
    requires
        forall|j: int| 0 <= j < a.len() ==> (#[trigger] a[j]).0@ != k,
        e.0@ == k,
    ensures
        tdm_count_of(a + seq![e] + b, k, v) == inner_count_of(e.1@, v),
    decreases a.len(),
{
    if a.len() == 0 {
        assert(a + seq![e] + b =~= seq![e] + b);
        assert((seq![e] + b)[0] == e);
    } else {
        assert((a + seq![e] + b)[0] == a[0]);
        assert((a + seq![e] + b).drop_first() =~= a.drop_first() + seq![e] + b);
        assert(forall|j: int|
            0 <= j < a.drop_first().len() ==> (#[trigger] a.drop_first()[j]) == a[j + 1]);
        lemma_tdm_first(a.drop_first(), e, b, k, v);
    }
}

/// The first pair bound to a value decides its count.
proof fn lemma_inner_first(
    a: Seq<(Vec<u8>, u32)>,
    p: (Vec<u8>, u32),
    b: Seq<(Vec<u8>, u32)>,
    v: Seq<u8>,
)
    requires
        forall|j: int| 0 <= j < a.len() ==> (#[trigger] a[j]).0@ != v,
        p.0@ == v,
    ensures
        inner_count_of(a + seq![p] + b, v) == p.1,
    decreases a.len(),
{
    if a.len() == 0 {
        assert(a + seq![p] + b =~= seq![p] + b);
        assert((seq![p] + b)[0] == p);
    } else {
        assert((a + seq![p] + b)[0] == a[0]);
        assert((a + seq![p] + b).drop_first() =~= a.drop_first() + seq![p] + b);
        assert(forall|j: int|
            0 <= j < a.drop_first().len() ==> (#[trigger] a.drop_first()[j]) == a[j + 1]);
        lemma_inner_first(a.drop_first(), p, b, v);
    }
}

/// Dropping one inner pair whose value is not the one read leaves that
/// value's count as it was.
proof fn lemma_inner_drop_middle(
    a: Seq<(Vec<u8>, u32)>,
    p: (Vec<u8>, u32),
    b: Seq<(Vec<u8>, u32)>,
    v: Seq<u8>,
)
    requires
        p.0@ != v,
    ensures
        inner_count_of(a + seq![p] + b, v) == inner_count_of(a + b, v),
    decreases a.len(),
{
    if a.len() == 0 {
        assert(a + seq![p] + b =~= seq![p] + b);
        assert((seq![p] + b)[0] == p);
        assert((seq![p] + b).drop_first() =~= b);
        assert(a + b =~= b);
    } else {
        assert((a + seq![p] + b)[0] == a[0]);
        assert((a + b)[0] == a[0]);
        assert((a + seq![p] + b).drop_first() =~= a.drop_first() + seq![p] + b);
        assert((a + b).drop_first() =~= a.drop_first() + b);
        lemma_inner_drop_middle(a.drop_first(), p, b, v);
    }
}

/// Records one more deferred delete for a key and value: that pair's count
/// rises by one until it saturates, and every other pair's count stays.
pub(crate) fn tdm_inc(m: &mut ToDelMap, key: &Vec<u8>, val: &Vec<u8>)
    ensures
        tdm_count_of(old(m)@, key@, val@) < 0xffff_ffffu32 ==> tdm_count_of(final(m)@, key@, val@)
            == tdm_count_of(old(m)@, key@, val@) + 1,
        tdm_count_of(old(m)@, key@, val@) == 0xffff_ffffu32 ==> tdm_count_of(
            final(m)@,
            key@,
            val@,
        ) == tdm_count_of(old(m)@, key@, val@),
        forall|k2: Seq<u8>, v2: Seq<u8>|
            k2 != key@ || v2 != val@ ==> #[trigger] tdm_count_of(final(m)@, k2, v2)
                == tdm_count_of(old(m)@, k2, v2),
{
    let ghost m0 = m@;
    let mut i: usize = 0;
    while i < m.len()
        invariant
            m0 == old(m)@,
            m@ == m0,
            0 <= i <= m@.len(),
            forall|k: int| 0 <= k < i ==> (#[trigger] m@[k]).0@ != key@,
        decreases m@.len() - i,
    {
        if bytes_eq(&m[i].0, key) {
            let ghost a = m0.take(i as int);
            let ghost e = m0[i as int];
            let ghost b = m0.skip(i + 1);
            proof {
                assert(m0 =~= a + seq![e] + b);
                lemma_tdm_first(a, e, b, key@, val@);
            }
            let mut entry = m.remove(i);
            proof {
                assert(m@ =~= a + b);
                assert(entry == e);
            }
            let mut j: usize = 0;
            while j < entry.1.len()
                invariant
                    m@ == a + b,
                    a.len() == i,
                    i <= m@.len(),
                    entry == e,
                    e.0@ == key@,
                    m0 == old(m)@,
                    m0 == a + seq![e] + b,
                    tdm_count_of(m0, key@, val@) == inner_count_of(e.1@, val@),
                    forall|k: int| 0 <= k < a.len() ==> (#[trigger] a[k]).0@ != key@,
                    0 <= j <= entry.1@.len(),
                    forall|k: int| 0 <= k < j ==> (#[trigger] entry.1@[k]).0@ != val@,
                decreases entry.1@.len() - j,
            {
                if bytes_eq(&entry.1[j].0, val) {
                    let ghost a2 = e.1@.take(j as int);
                    let ghost p = e.1@[j as int];
                    let ghost b2 = e.1@.skip(j + 1);
                    proof {
                        assert(e.1@ =~= a2 + seq![p] + b2);
                        lemma_inner_first(a2, p, b2, val@);
                    }
                    let mut pair = entry.1.remove(j);
                    proof {
                        assert(entry.1@ =~= a2 + b2);
                        assert(pair == p);
                    }
                    if pair.1 < 0xffff_ffffu32 {
                        pair.1 = pair.1 + 1;
                    }
                    entry.1.insert(j, pair);
                    let ghost p2 = entry.1@[j as int];
                    proof {
                        assert(entry.1@ =~= a2 + seq![p2] + b2);
                    }
                    m.insert(i, entry);
                    proof {
                        let e2 = m@[i as int];
                        assert(m@ =~= a + seq![e2] + b);
                        assert(e2.0 == e.0);
                        assert(p.0@ == val@);
                        assert(p2.0 == p.0);
                        assert(p2.1 == (if p.1 < 0xffff_ffffu32 {
                            (p.1 + 1) as u32
                        } else {
                            p.1
                        }));
                        assert(tdm_count_of(m0, key@, val@) == p.1) by {
                            lemma_inner_first(a2, p, b2, val@);
                            assert(e.1@ == a2 + seq![p] + b2);
                        }
                        lemma_tdm_first(a, e2, b, key@, val@);
                        lemma_inner_first(a2, p2, b2, val@);
                        assert(e2.1@ == a2 + seq![p2] + b2);
                        assert(tdm_count_of(m@, key@, val@) == p2.1);
                        assert forall|k2: Seq<u8>, v2: Seq<u8>|
                            k2 != key@ || v2 != val@ implies #[trigger] tdm_count_of(
                            m@,
                            k2,
                            v2,
                        ) == tdm_count_of(m0, k2, v2) by {
                            if k2 != key@ {
                                lemma_tdm_drop_middle(a, e2, b, k2, v2);
                                lemma_tdm_drop_middle(a, e, b, k2, v2);
                                assert(m@ == a + seq![e2] + b);
                                assert(m0 == a + seq![e] + b);
                            } else {
                                lemma_tdm_first(a, e2, b, k2, v2);
                                lemma_tdm_first(a, e, b, k2, v2);
                                lemma_inner_drop_middle(a2, p2, b2, v2);
                                lemma_inner_drop_middle(a2, p, b2, v2);
                                assert(e2.1@ == a2 + seq![p2] + b2);
                                assert(e.1@ == a2 + seq![p] + b2);
                                assert(tdm_count_of(m@, k2, v2) == inner_count_of(e2.1@, v2));
                                assert(tdm_count_of(m0, k2, v2) == inner_count_of(e.1@, v2));
                            }
                        }
                    }
                    return ;
                }
                j += 1;
            }
            entry.1.push((scalar_clone(val), 1));
            let ghost pnew = entry.1@.last();
            proof {
                assert(entry.1@ =~= e.1@.push(pnew));
            }
            m.insert(i, entry);
            proof {
                let e2 = m@[i as int];
                assert(m@ =~= a + seq![e2] + b);
                assert(e2.0 == e.0);
                assert(pnew.0@ == val@);
                assert(pnew.1 == 1u32);
                assert(!has_inner_key(e.1@, val@));
                lemma_tdm_first(a, e2, b, key@, val@);
                assert(e2.1@ == e.1@.push(pnew));
                lemma_inner_push(e.1@, pnew, val@);
                lemma_inner_absent(e.1@, val@);
                assert(tdm_count_of(m0, key@, val@) == 0);
                assert(tdm_count_of(m@, key@, val@) == 1);
                assert forall|k2: Seq<u8>, v2: Seq<u8>|
                    k2 != key@ || v2 != val@ implies #[trigger] tdm_count_of(m@, k2, v2)
                    == tdm_count_of(m0, k2, v2) by {
                    if k2 != key@ {
                        lemma_tdm_drop_middle(a, e2, b, k2, v2);
                        lemma_tdm_drop_middle(a, e, b, k2, v2);
                    } else {
                        lemma_tdm_first(a, e2, b, k2, v2);
                        lemma_tdm_first(a, e, b, k2, v2);
                        lemma_inner_push(e.1@, pnew, v2);
                        if !has_inner_key(e.1@, v2) {
                            lemma_inner_absent(e.1@, v2);
                        }
                    }
                }
            }
            return ;
        }
        i += 1;
    }
    proof {
        lemma_tdm_absent(m0, key@, val@);
    }
    let mut inner: Vec<(Vec<u8>, u32)> = Vec::new();
    inner.push((scalar_clone(val), 1));
    let ghost pn = inner@[0];
    m.push((scalar_clone(key), inner));
    proof {
        let enew = m@.last();
        assert(m@ =~= m0.push(enew));
        assert(enew.1@ =~= seq![pn]);
        assert(!has_tdm_key(m0, key@));
        lemma_tdm_push(m0, enew, key@, val@);
        assert(seq![pn].drop_first() =~= Seq::<(Vec<u8>, u32)>::empty());
        assert(inner_count_of(enew.1@, val@) == pn.1);
        assert forall|k2: Seq<u8>, v2: Seq<u8>|
            k2 != key@ || v2 != val@ implies #[trigger] tdm_count_of(m@, k2, v2) == tdm_count_of(
            m0,
            k2,
            v2,
        ) by {
            lemma_tdm_push(m0, enew, k2, v2);
            if !has_tdm_key(m0, k2) {
                lemma_tdm_absent(m0, k2, v2);
                if k2 == key@ {
                    lemma_inner_absent(seq![pn], v2);
                    assert(inner_count_of(enew.1@, v2) == 0);
                }
            }
        }
    }
}

/// Cancels one deferred delete for a key and value; drops emptied entries.
/// A count above one falls by one, and other keys' counts stay.
pub(crate) fn tdm_dec(m: &mut ToDelMap, key: &Vec<u8>, val: &Vec<u8>)
    ensures
        tdm_count_of(old(m)@, key@, val@) > 1 ==> tdm_count_of(final(m)@, key@, val@)
            == tdm_count_of(old(m)@, key@, val@) - 1,
        forall|k2: Seq<u8>, v2: Seq<u8>|
            k2 != key@ ==> #[trigger] tdm_count_of(final(m)@, k2, v2) == tdm_count_of(
                old(m)@,
                k2,
                v2,
            ),
{
    let ghost m0 = m@;
    let mut i: usize = 0;
    while i < m.len()
        invariant
            m0 == old(m)@,
            m@ == m0,
            0 <= i <= m@.len(),
            forall|k: int| 0 <= k < i ==> (#[trigger] m@[k]).0@ != key@,
        decreases m@.len() - i,
    {
        if bytes_eq(&m[i].0, key) {
            let ghost a = m0.take(i as int);
            let ghost e = m0[i as int];
            let ghost b = m0.skip(i + 1);
            proof {
                assert(m0 =~= a + seq![e] + b);
                lemma_tdm_first(a, e, b, key@, val@);
            }
            let mut entry = m.remove(i);
            proof {
                assert(m@ =~= a + b);
                assert(entry == e);
            }
            let mut j: usize = 0;
            while j < entry.1.len()
                invariant
                    m@ == a + b,
                    a.len() == i,
                    i <= m@.len(),
                    entry == e,
                    e.0@ == key@,
                    m0 == old(m)@,
                    m0 == a + seq![e] + b,
                    tdm_count_of(m0, key@, val@) == inner_count_of(e.1@, val@),
                    forall|k: int| 0 <= k < a.len() ==> (#[trigger] a[k]).0@ != key@,
                    0 <= j <= entry.1@.len(),
                    forall|k: int| 0 <= k < j ==> (#[trigger] entry.1@[k]).0@ != val@,
                decreases entry.1@.len() - j,
            {
                if bytes_eq(&entry.1[j].0, val) {
                    let ghost a2 = e.1@.take(j as int);
                    let ghost p = e.1@[j as int];
                    let ghost b2 = e.1@.skip(j + 1);
                    proof {
                        assert(e.1@ =~= a2 + seq![p] + b2);
                        lemma_inner_first(a2, p, b2, val@);
                        assert(tdm_count_of(m0, key@, val@) == p.1);
                    }
                    let mut pair = entry.1.remove(j);
                    proof {
                        assert(entry.1@ =~= a2 + b2);
                        assert(pair == p);
                    }
                    if pair.1 > 1 {
                        pair.1 = pair.1 - 1;
                        entry.1.insert(j, pair);
                        proof {
                            let p2 = entry.1@[j as int];
                            assert(entry.1@ =~= a2 + seq![p2] + b2);
                            assert(p2.0 == p.0);
                            assert(p2.1 == p.1 - 1);
                        }
                    }
                    if entry.1.len() > 0 {
                        let ghost ev = entry.1@;
                        m.insert(i, entry);
                        proof {
                            let e2 = m@[i as int];
                            assert(m@ =~= a + seq![e2] + b);
                            assert(e2.0 == e.0);
                            assert(e2.1@ == ev);
                            if p.1 > 1 {
                                let p2 = ev[j as int];
                                lemma_tdm_first(a, e2, b, key@, val@);
                                lemma_inner_first(a2, p2, b2, val@);
                                assert(tdm_count_of(m@, key@, val@) == p2.1);
                            }
                            assert forall|k2: Seq<u8>, v2: Seq<u8>|
                                k2 != key@ implies #[trigger] tdm_count_of(m@, k2, v2)
                                == tdm_count_of(m0, k2, v2) by {
                                lemma_tdm_drop_middle(a, e2, b, k2, v2);
                                lemma_tdm_drop_middle(a, e, b, k2, v2);
                            }
                        }
                    } else {
                        proof {
                            assert(p.1 <= 1);
                            assert forall|k2: Seq<u8>, v2: Seq<u8>|
                                k2 != key@ implies #[trigger] tdm_count_of(m@, k2, v2)
                                == tdm_count_of(m0, k2, v2) by {
                                lemma_tdm_drop_middle(a, e, b, k2, v2);
                            }
                        }
                    }
                    return ;
                }
                j += 1;
            }
            proof {
                lemma_inner_absent(e.1@, val@);
            }
            m.insert(i, entry);
            proof {
                assert(m@ =~= a + seq![e] + b);
                assert(m@ == m0);
            }
            return ;
        }
        i += 1;
    }
    proof {
        lemma_tdm_absent(m0, key@, val@);
    }
}


/// Puts a child into a branch slot, recording its hash.
pub(crate) fn put_child_slot(node: &mut FullNode, i: usize, c: Box<ShortNode>)
    requires
        wf_full(*old(node)),
        i < 16,
        wf_short(*c),
    ensures
        wf_full(*final(node)),
        final(node).children@.len() == 16,
        final(node).value == old(node).value,
        final(node).children@ == old(node).children@.update(i as int, Some(c)),
        final(node).children_hash@[i as int] is Some,
        final(node).children_hash@[i as int]->Some_0@ == c.node_hash@,
        forall|k: int|
            0 <= k < 16 && k != i ==> final(node).children_hash@[k] == old(node).children_hash@[k],
{
    put_slot(node, i, c)
}

/// Whether a value is empty or all spaces.
pub(crate) fn is_blank(v: &Vec<u8>) -> (r: bool)
    ensures
        r == (forall|i: int| 0 <= i < v@.len() ==> #[trigger] v@[i] == 32u8),
{
    let mut i: usize = 0;
    while i < v.len()
        invariant
            0 <= i <= v@.len(),
            forall|k: int| 0 <= k < i ==> #[trigger] v@[k] == 32u8,
        decreases v@.len() - i,
    {
        if v[i] != 32u8 {
            return false;
        }
        i += 1;
    }
    true
}

/// The ASCII decimal digits of a nibble value.
pub(crate) fn dec_of_nibble(n: u8) -> (r: Vec<u8>)
    requires
        n < 16,
{
    let mut out: Vec<u8> = Vec::new();
    if n < 10 {
        out.push(n + 48);
    } else {
        out.push(49);
        out.push(n - 10 + 48);
    }
    out
}

/// Takes the child out of a branch slot, leaving the slot empty.
fn take_slot(node: &mut FullNode, i: usize) -> (r: Option<Box<ShortNode>>)
    requires
        wf_full(*old(node)),
        i < 16,
    ensures
        r == old(node).children@[i as int],
        final(node).children@ == old(node).children@.update(i as int, None),
        final(node).children_hash == old(node).children_hash,
        final(node).value == old(node).value,
        final(node).is_dirty == old(node).is_dirty,
        final(node).to_del_map == old(node).to_del_map,
        final(node).node_hash == old(node).node_hash,
        wf_full(*final(node)),
        wf_child(r),
{
    let c = node.children.remove(i);
    node.children.insert(i, None);
    proof {
        assert(node.children@ =~= old(node).children@.update(i as int, None));
        assert(wf_full(*node)) by {
            assert(forall|k: int|
                0 <= k < 16 && k != i ==> node.children@[k] == old(node).children@[k]);
        }
    }
    c
}

/// Puts a child into a branch slot and records its hash.
fn put_slot(node: &mut FullNode, i: usize, c: Box<ShortNode>)
    requires
        wf_full(*old(node)),
        i < 16,
        wf_short(*c),
    ensures
        final(node).children@ == old(node).children@.update(i as int, Some(c)),
        final(node).children_hash@ == old(node).children_hash@.update(
            i as int,
            Some(final(node).children_hash@[i as int]->Some_0),
        ),
        final(node).children_hash@[i as int] is Some,
        final(node).children_hash@[i as int]->Some_0@ == c.node_hash@,
        final(node).value == old(node).value,
        final(node).is_dirty == old(node).is_dirty,
        final(node).to_del_map == old(node).to_del_map,
        final(node).node_hash == old(node).node_hash,
        wf_full(*final(node)),
{
    let h = scalar_clone(&c.node_hash);
    let _ = node.children_hash.remove(i);
    node.children_hash.insert(i, Some(h));
    let _ = node.children.remove(i);
    node.children.insert(i, Some(c));
    proof {
        assert(node.children@ =~= old(node).children@.update(i as int, Some(c)));
        assert(node.children_hash@ =~= old(node).children_hash@.update(
            i as int,
            node.children_hash@[i as int],
        ));
        assert(wf_full(*node)) by {
            assert(forall|k: int|
                0 <= k < 16 && k != i ==> node.children@[k] == old(node).children@[k]
                    && node.children_hash@[k] == old(node).children_hash@[k]);
        }
    }
}

/// Stores a short node's blob under its hash, through the cache when one is
/// present.
fn persist_short<D: Database>(
    node: &ShortNode,
    db: &mut D,
    cache: &mut Option<NodeCache>,
) -> (r: Result<(), MPTError>)
{
    match cache {
        Some(c) => c.insert_short_node(&node.node_hash, node, db),
        None => {
            let blob = match node.serialize() {
                Ok(b) => b,
                Err(e) => {
                    return Err(e);
                },
            };
            db.put(node.node_hash.as_slice(), blob.as_slice())
        },
    }
}

/// Stores a branch's blob under its hash, through the cache when one is
/// present.
fn persist_full<D: Database>(
    node: &FullNode,
    db: &mut D,
    cache: &mut Option<NodeCache>,
) -> (r: Result<(), MPTError>)
{
    match cache {
        Some(c) => c.insert_full_node(&node.node_hash, node, db),
        None => {
            let blob = match node.serialize() {
                Ok(b) => b,
                Err(e) => {
                    return Err(e);
                },
            };
            db.put(node.node_hash.as_slice(), blob.as_slice())
        },
    }
}

/// Materializes an extension's next branch from the cache or database when
/// it is not loaded and its hash is known.
fn load_next<D: Database>(
    child: &mut ShortNode,
    db: &mut D,
    cache: &mut Option<NodeCache>,
) -> (r: Result<bool, MPTError>)
    requires
        wf_short(*old(child)),
        !old(child).is_leaf,
    ensures
        wf_short(*final(child)),
        final(child).is_leaf == old(child).is_leaf,
        final(child).suffix == old(child).suffix,
        r is Ok ==> (r->Ok_0 <==> final(child).next_node is Some),
        old(child).next_node is Some ==> r == Ok::<bool, MPTError>(true) && *final(child)
            == *old(child),
        r is Err ==> *final(child) == *old(child),
{
    if child.next_node.is_some() {
        return Ok(true);
    }
    let zero = make_zero_hash();
    if bytes_eq(&child.next_node_hash, &zero) {
        return Ok(false);
    }
    match cache {
        Some(c) => {
            match c.get_full_node(&child.next_node_hash, db) {
                Some(n) => {
                    child.next_node = Some(Box::new(n));
                    return Ok(true);
                },
                None => (),
            }
        },
        None => (),
    }
    let data = match db.get(child.next_node_hash.as_slice()) {
        Ok(d) => d,
        Err(e) => {
            return Err(e);
        },
    };
    match data {
        Some(bytes) => {
            let n = match FullNode::deserialize(&bytes) {
                Ok(n) => n,
                Err(e) => {
                    return Err(e);
                },
            };
            child.next_node = Some(Box::new(n));
            Ok(true)
        },
        None => Ok(false),
    }
}

/// Materializes a branch's child from the cache or database when it is not
/// loaded and its hash is known.
fn load_child<D: Database>(
    node: &mut FullNode,
    index: usize,
    db: &mut D,
    cache: &mut Option<NodeCache>,
) -> (r: Result<bool, MPTError>)
    requires
        wf_full(*old(node)),
        index < 16,
    ensures
        wf_full(*final(node)),
        r is Ok ==> (r->Ok_0 <==> final(node).children@[index as int] is Some),
        old(node).children@[index as int] is Some ==> r == Ok::<bool, MPTError>(true)
            && *final(node) == *old(node),
        r is Err ==> *final(node) == *old(node),
        final(node).value == old(node).value,
        final(node).to_del_map == old(node).to_del_map,
        forall|k: int|
            0 <= k < 16 && k != index ==> final(node).children@[k] == old(node).children@[k],
{
    if node.children[index].is_some() {
        return Ok(true);
    }
    let hash = match &node.children_hash[index] {
        Some(h) => scalar_clone(h),
        None => {
            return Ok(false);
        },
    };
    match cache {
        Some(c) => {
            match c.get_short_node(&hash, db) {
                Some(n) => {
                    put_slot(node, index, Box::new(n));
                    return Ok(true);
                },
                None => (),
            }
        },
        None => (),
    }
    let data = match db.get(hash.as_slice()) {
        Ok(d) => d,
        Err(e) => {
            return Err(e);
        },
    };
    match data {
        Some(bytes) => {
            let n = match ShortNode::deserialize(&bytes) {
                Ok(n) => n,
                Err(e) => {
                    return Err(e);
                },
            };
            put_slot(node, index, Box::new(n));
            Ok(true)
        },
        None => Ok(false),
    }
}

/// One posting-list update against a value and its deferred-delete map: the
/// comma-separated add or delete of `token`, with deferred deletes cancelled
/// and recorded.  Hands back the new value when it changed: a delete of a
/// held token re-joins the list without it, an add with no pending delete
/// sets or appends the token, and everything else leaves the value as it is.
fn apply_secondary(
    value: &Option<Vec<u8>>,
    to_del_map: &mut ToDelMap,
    key_bytes: &Vec<u8>,
    token: &Vec<u8>,
    flag: bool,
) -> (r: Option<Vec<u8>>)
    ensures
        ({
            let old_eff = crate::mpt_node::opt_bytes(crate::mpt_node::opt_view(*value));
            let toks = crate::mpt_utils::split_csv(old_eff);
            &&& (flag && toks.contains(token@) ==> (r matches Some(v) && v@
                == crate::mpt_utils::join_csv(crate::mpt_utils::remove_tok(toks, token@))))
            &&& (flag && !toks.contains(token@) ==> r is None)
            &&& (!flag && tdm_count_of(old(to_del_map)@, key_bytes@, token@) > 0 ==> r is None)
            &&& (!flag && tdm_count_of(old(to_del_map)@, key_bytes@, token@) == 0
                && old_eff.len() == 0 ==> (r matches Some(v) && v@ == token@))
            &&& (!flag && tdm_count_of(old(to_del_map)@, key_bytes@, token@) == 0
                && old_eff.len() > 0 && toks.contains(token@) ==> r is None)
            &&& (!flag && tdm_count_of(old(to_del_map)@, key_bytes@, token@) == 0
                && old_eff.len() > 0 && !toks.contains(token@) ==> (r matches Some(v) && v@
                == old_eff + seq![crate::mpt_utils::COMMA] + token@))
            &&& (flag && toks.contains(token@) ==> final(to_del_map)@ == old(to_del_map)@)
            &&& (flag && !toks.contains(token@) && tdm_count_of(
                old(to_del_map)@,
                key_bytes@,
                token@,
            ) < 0xffff_ffffu32 ==> tdm_count_of(final(to_del_map)@, key_bytes@, token@)
                == tdm_count_of(old(to_del_map)@, key_bytes@, token@) + 1)
            &&& (!flag && tdm_count_of(old(to_del_map)@, key_bytes@, token@) > 1 ==> tdm_count_of(
                final(to_del_map)@,
                key_bytes@,
                token@,
            ) == tdm_count_of(old(to_del_map)@, key_bytes@, token@) - 1)
            &&& (!flag && tdm_count_of(old(to_del_map)@, key_bytes@, token@) == 0
                ==> final(to_del_map)@ == old(to_del_map)@)
            &&& (forall|k2: Seq<u8>, v2: Seq<u8>|
                k2 != key_bytes@ ==> #[trigger] tdm_count_of(final(to_del_map)@, k2, v2)
                    == tdm_count_of(old(to_del_map)@, k2, v2))
        }),
{
    let old_bytes = match value {
        Some(v) => scalar_clone(v),
        None => Vec::new(),
    };
    let mut kvp = KVPair::new(scalar_clone(key_bytes), old_bytes);
    if flag {
        if kvp.del_value(token) {
            let mut out: Vec<u8> = Vec::new();
            crate::mpt_node::append_bytes(&mut out, kvp.get_value());
            Some(out)
        } else {
            tdm_inc(to_del_map, key_bytes, token);
            None
        }
    } else {
        let pending = tdm_count(to_del_map, key_bytes, token);
        if pending > 0 {
            tdm_dec(to_del_map, key_bytes, token);
            None
        } else if kvp.add_value(token) {
            let mut out: Vec<u8> = Vec::new();
            crate::mpt_node::append_bytes(&mut out, kvp.get_value());
            Some(out)
        } else {
            None
        }
    }
}

/// Builds a leaf holding the given suffix nibbles (from `from` on) and
/// value, hashes it and persists it.
fn make_leaf<D: Database>(
    suffix_nibbles: &[u8],
    from: usize,
    prefix: Vec<u8>,
    value: Option<Vec<u8>>,
    db: &mut D,
    cache: &mut Option<NodeCache>,
) -> (r: Result<Box<ShortNode>, MPTError>)
    requires
        from <= suffix_nibbles@.len(),
        nibbles_ok(suffix_nibbles@),
    ensures
        r is Ok ==> {
            &&& wf_short(*r->Ok_0)
            &&& r->Ok_0.is_leaf
            &&& r->Ok_0.value == value
            &&& r->Ok_0.suffix@.len() == suffix_nibbles@.len() - from
            &&& forall|k: int|
                0 <= k < r->Ok_0.suffix@.len() ==> #[trigger] r->Ok_0.suffix@[k]
                    == nibble_char_of(suffix_nibbles@[from + k])
        },
{
    let mut leaf = ShortNode::empty();
    leaf.prefix = prefix;
    leaf.is_leaf = true;
    leaf.suffix = nibbles_to_suffix(suffix_nibbles, from);
    leaf.value = value;
    leaf.update_hash();
    let leaf_box = Box::new(leaf);
    match persist_short(&leaf_box, db, cache) {
        Ok(_) => Ok(leaf_box),
        Err(e) => Err(e),
    }
}

/// Builds an extension with the given suffix characters pointing at a
/// branch, hashes it and persists it.
fn make_extension<D: Database>(
    suffix_chars: Vec<u8>,
    next: Box<FullNode>,
    db: &mut D,
    cache: &mut Option<NodeCache>,
) -> (r: Result<Box<ShortNode>, MPTError>)
    requires
        wf_full(*next),
    ensures
        r is Ok ==> {
            &&& wf_short(*r->Ok_0)
            &&& !r->Ok_0.is_leaf
            &&& r->Ok_0.suffix == suffix_chars
            &&& r->Ok_0.next_node == Some(next)
            &&& r->Ok_0.value is None
        },
{
    let mut ext = ShortNode::empty();
    ext.is_leaf = false;
    ext.suffix = suffix_chars;
    ext.next_node_hash = scalar_clone(&next.node_hash);
    ext.next_node = Some(next);
    ext.update_hash();
    let ext_box = Box::new(ext);
    match persist_short(&ext_box, db, cache) {
        Ok(_) => Ok(ext_box),
        Err(e) => Err(e),
    }
}

/// The recursive insert into a branch, at nibble position `pos` of the key
/// path.  Primary mode overwrites the value and hands back the old one;
/// secondary mode adds (or, with the flag, deletes) one posting-list token,
/// deferring deletes whose target does not exist.  The branch stays
/// structurally sound.
#[verifier::rlimit(100)]
fn rec_insert_full<D: Database>(
    node: &mut FullNode,
    key_path: &Vec<u8>,
    pos: usize,
    value: &Vec<u8>,
    db: &mut D,
    cache: &mut Option<NodeCache>,
    is_primary: bool,
    flag: bool,
) -> (r: Result<(Vec<u8>, bool), MPTError>)
    requires
        wf_full(*old(node)),
        nibbles_ok(key_path@),
        pos <= key_path@.len(),
    ensures
        wf_full(*final(node)),
        r is Ok && is_primary ==> lookup_full(*final(node), key_path@, pos as int) == Some(
            value@,
        ),
        is_primary && lookup_full(*old(node), key_path@, pos as int) is Some ==> r is Ok
            && r->Ok_0.0@ == lookup_full(*old(node), key_path@, pos as int)->Some_0 && r->Ok_0.1
            == (lookup_full(*old(node), key_path@, pos as int)->Some_0 != value@),
        !is_primary && lookup_full(*old(node), key_path@, pos as int) is Some ==> r is Ok
            && lookup_full(*final(node), key_path@, pos as int) == (match sec_value_change(
            lookup_full(*old(node), key_path@, pos as int)->Some_0,
            pending_full(*old(node), key_path@, pos as int, value@),
            value@,
            flag,
        ) {
            Some(nv) => Some(nv),
            None => lookup_full(*old(node), key_path@, pos as int),
        }),
        r is Ok ==> forall|p2: Seq<u8>, q: int|
            0 <= q <= p2.len() && nibbles_ok(p2) && #[trigger] lookup_full(*old(node), p2, q)
                is Some && p2.skip(q) != key_path@.skip(pos as int) ==> lookup_full(
                *final(node),
                p2,
                q,
            ) == lookup_full(*old(node), p2, q),
        !is_primary && lookup_full(*old(node), key_path@, pos as int) is Some ==> ({
            let p0 = pending_full(*old(node), key_path@, pos as int, value@);
            let p1 = pending_full(*final(node), key_path@, pos as int, value@);
            let toks = crate::mpt_utils::split_csv(
                lookup_full(*old(node), key_path@, pos as int)->Some_0,
            );
            &&& (flag && !toks.contains(value@) && p0 < 0xffff_ffffu32 ==> p1 == p0 + 1)
            &&& (flag && toks.contains(value@) ==> p1 == p0)
            &&& (!flag && p0 > 1 ==> p1 == p0 - 1)
            &&& (!flag && p0 == 0 ==> p1 == p0)
        }),
    decreases key_path@.len() - pos,
{
    if pos >= key_path.len() {
        // the key ends at this branch: the value lives here
        if !is_primary {
            match apply_secondary(&node.value, &mut node.to_del_map, key_path, value, flag) {
                Some(newv) => {
                    let need_delete = is_blank(&newv);
                    node.value = Some(newv);
                    node.is_dirty = true;
                    proof {
                        assert forall|p2: Seq<u8>, q: int|
                            0 <= q <= p2.len() && nibbles_ok(p2) && #[trigger] lookup_full(
                                *old(node),
                                p2,
                                q,
                            ) is Some && p2.skip(q) != key_path@.skip(
                                pos as int,
                            ) implies lookup_full(*node, p2, q) == lookup_full(
                            *old(node),
                            p2,
                            q,
                        ) by {
                            if q >= p2.len() {
                                assert(p2.skip(q) =~= Seq::<u8>::empty());
                                assert(key_path@.skip(pos as int) =~= Seq::<u8>::empty());
                            }
                        }
                    }
                    return Ok((Vec::new(), need_delete));
                },
                None => {
                    return Ok((Vec::new(), false));
                },
            }
        }
        let old_value = match &node.value {
            Some(v) => scalar_clone(v),
            None => Vec::new(),
        };
        let is_change = !bytes_eq(&old_value, value);
        node.value = Some(scalar_clone(value));
        node.is_dirty = true;
        proof {
            assert(lookup_full(*node, key_path@, pos as int) == Some(value@));
            assert forall|p2: Seq<u8>, q: int|
                0 <= q <= p2.len() && nibbles_ok(p2) && #[trigger] lookup_full(*old(node), p2, q)
                    is Some && p2.skip(q) != key_path@.skip(pos as int) implies lookup_full(
                *node,
                p2,
                q,
            ) == lookup_full(*old(node), p2, q) by {
                if q >= p2.len() {
                    assert(p2.skip(q) =~= Seq::<u8>::empty());
                    assert(key_path@.skip(pos as int) =~= Seq::<u8>::empty());
                }
            }
        }
        return Ok((old_value, is_change));
    }
    let index = byte_to_hex_index(key_path[pos]);
    let loaded = match load_child(node, index, db, cache) {
        Ok(b) => b,
        Err(e) => {
            return Err(e);
        },
    };
    let ghost nl = *node;
    proof {
        assert forall|p2: Seq<u8>, q: int| #[trigger]
            lookup_full(*old(node), p2, q) is Some implies lookup_full(nl, p2, q) == lookup_full(
            *old(node),
            p2,
            q,
        ) by {
            if 0 <= q < p2.len() {
                let b0 = p2[q];
                assert((b0 & 0x0f) < 16) by (bit_vector);
                let idx = (b0 & 0x0f) as int;
                if idx == index {
                    assert(old(node).children@[idx] is Some);
                } else {
                    assert(nl.children@[idx] == old(node).children@[idx]);
                }
            }
        }
    }
    if !loaded {
        // no child here yet
        if !is_primary && flag {
            tdm_inc(&mut node.to_del_map, key_path, value);
            return Ok((Vec::new(), false));
        }
        if !is_primary {
            let pending = tdm_count(&node.to_del_map, key_path, value);
            if pending > 0 {
                tdm_dec(&mut node.to_del_map, key_path, value);
                return Ok((Vec::new(), false));
            }
        }
        let leaf = match make_leaf(
            key_path.as_slice(),
            pos + 1,
            dec_of_nibble(key_path[pos]),
            Some(scalar_clone(value)),
            db,
            cache,
        ) {
            Ok(l) => l,
            Err(e) => {
                return Err(e);
            },
        };
        // deferred deletes for keys under the new leaf move into it
        let mut leaf_prefix: Vec<u8> = Vec::new();
        let mut k: usize = 0;
        while k < pos + 1
            invariant
                pos + 1 <= key_path@.len(),
                key_path@.len() <= usize::MAX,
                0 <= k <= pos + 1,
            decreases pos + 1 - k,
        {
            leaf_prefix.push(key_path[k]);
            k += 1;
        }
        let moved = tdm_split_prefix(&mut node.to_del_map, &leaf_prefix);
        let mut leaf = leaf;
        leaf.to_del_map = moved;
        let ghost leaf_val = *leaf;
        put_slot(node, index, leaf);
        node.is_dirty = true;
        node.update_hash();
        proof {
            if is_primary {
                lemma_chars_roundtrip(leaf_val.suffix@, key_path@, pos + 1);
                assert(key_path@.skip(pos + 1) == suffix_nibbles_of(leaf_val.suffix@));
                assert(lookup_full(*node, key_path@, pos as int) == lookup_short(
                    leaf_val,
                    key_path@,
                    pos + 1,
                ));
                assert(lookup_short(leaf_val, key_path@, pos + 1) == Some(value@));
            }
        }
        return Ok((Vec::new(), false));
    }
    let mut child = match take_slot(node, index) {
        Some(c) => c,
        None => {
            proof {
                assert(false);
            }
            return Err(MPTError::NodeNotFound);
        },
    };
    let ghost child0 = *child;
    if child.is_leaf {
        let stored_suffix = suffix_to_nibbles(&child.suffix);
        let same = suffixes_match(key_path, pos + 1, &stored_suffix);
        if same {
            // the key matches this leaf exactly
            if !is_primary {
                match apply_secondary(&child.value, &mut child.to_del_map, key_path, value, flag) {
                    Some(newv) => {
                        let need_delete = is_blank(&newv);
                        child.value = Some(newv);
                        child.is_dirty = true;
                        child.update_hash();
                        put_slot(node, index, child);
                        node.is_dirty = true;
                        node.update_hash();
                        proof {
                            assert forall|p2: Seq<u8>, q: int|
                                0 <= q <= p2.len() && nibbles_ok(p2) && #[trigger] lookup_full(
                                    *old(node),
                                    p2,
                                    q,
                                ) is Some && p2.skip(q) != key_path@.skip(
                                    pos as int,
                                ) implies lookup_full(*node, p2, q) == lookup_full(
                                *old(node),
                                p2,
                                q,
                            ) by {
                                assert(lookup_full(nl, p2, q) == lookup_full(*old(node), p2, q));
                                if 0 <= q < p2.len() {
                                    let b0 = p2[q];
                                    assert((b0 & 0x0f) < 16) by (bit_vector);
                                    let idx = (b0 & 0x0f) as int;
                                    if idx == index {
                                        assert(lookup_full(nl, p2, q) == lookup_short(
                                            child0,
                                            p2,
                                            q + 1,
                                        ));
                                        if lookup_short(child0, p2, q + 1) is Some {
                                            assert(p2.skip(q + 1) == suffix_nibbles_of(
                                                child0.suffix@,
                                            ));
                                            let kb = key_path@[pos as int];
                                            assert(kb < 16 ==> (kb & 0x0f) == kb) by (bit_vector);
                                            assert(b0 < 16 ==> (b0 & 0x0f) == b0) by (bit_vector);
                                            assert(p2[q] == kb);
                                            assert(p2.skip(q) =~= seq![p2[q]] + p2.skip(q + 1));
                                            assert(key_path@.skip(pos as int) =~= seq![kb]
                                                + key_path@.skip(pos + 1));
                                            assert(false);
                                        }
                                    } else {
                                        assert(node.children@[idx] == nl.children@[idx]);
                                    }
                                } else {
                                    assert(node.value == nl.value);
                                }
                            }
                        }
                        return Ok((Vec::new(), need_delete));
                    },
                    None => {
                        put_slot(node, index, child);
                        return Ok((Vec::new(), false));
                    },
                }
            }
            let old_value = match &child.value {
                Some(v) => scalar_clone(v),
                None => Vec::new(),
            };
            let is_change = !bytes_eq(&old_value, value);
            child.value = Some(scalar_clone(value));
            child.is_dirty = true;
            child.update_hash();
            let ghost child_val = *child;
            put_slot(node, index, child);
            node.is_dirty = true;
            node.update_hash();
            proof {
                if is_primary {
                    assert(lookup_full(*node, key_path@, pos as int) == lookup_short(
                        child_val,
                        key_path@,
                        pos + 1,
                    ));
                    assert(key_path@.skip(pos + 1) == suffix_nibbles_of(child_val.suffix@));
                    assert(lookup_short(child_val, key_path@, pos + 1) == Some(value@));
                }
                assert forall|p2: Seq<u8>, q: int|
                    0 <= q <= p2.len() && nibbles_ok(p2) && #[trigger] lookup_full(
                        *old(node),
                        p2,
                        q,
                    ) is Some && p2.skip(q) != key_path@.skip(pos as int) implies lookup_full(
                    *node,
                    p2,
                    q,
                ) == lookup_full(*old(node), p2, q) by {
                    assert(lookup_full(nl, p2, q) == lookup_full(*old(node), p2, q));
                    if 0 <= q < p2.len() {
                        let b0 = p2[q];
                        assert((b0 & 0x0f) < 16) by (bit_vector);
                        let idx = (b0 & 0x0f) as int;
                        if idx == index {
                            assert(lookup_full(nl, p2, q) == lookup_short(child0, p2, q + 1));
                            if lookup_short(child0, p2, q + 1) is Some {
                                assert(p2.skip(q + 1) == suffix_nibbles_of(child0.suffix@));
                                let kb = key_path@[pos as int];
                                assert(kb < 16 ==> (kb & 0x0f) == kb) by (bit_vector);
                                assert(b0 < 16 ==> (b0 & 0x0f) == b0) by (bit_vector);
                                assert(p2[q] == kb);
                                assert(p2.skip(q) =~= seq![p2[q]] + p2.skip(q + 1));
                                assert(key_path@.skip(pos as int) =~= seq![kb] + key_path@.skip(
                                    pos + 1,
                                ));
                                assert(false);
                            }
                        } else {
                            assert(node.children@[idx] == nl.children@[idx]);
                        }
                    } else {
                        assert(node.value == nl.value);
                    }
                }
            }
            return Ok((old_value, is_change));
        }
        // the key does not match: split the leaf
        if !is_primary && flag {
            tdm_inc(&mut child.to_del_map, key_path, value);
            put_slot(node, index, child);
            return Ok((Vec::new(), false));
        }
        let old_value = match &child.value {
            Some(v) => scalar_clone(v),
            None => Vec::new(),
        };
        let had_old_value = old_value.len() > 0;
        let old_data = match &child.value {
            Some(v) => Some(scalar_clone(v)),
            None => None,
        };
        let remaining_len = key_path.len() - (pos + 1);
        let common_len = common_prefix_tail(key_path, pos + 1, &stored_suffix);
        let ghost gsv = stored_suffix@;
        let ghost c = common_len as int;
        let mut new_branch = FullNode::empty();
        let ghost mut new_leaf_val: Option<ShortNode> = None;
        // the old key's tail below the common prefix
        let ghost ov = crate::mpt_node::opt_view(child0.value);
        proof {
            assert(crate::mpt_node::opt_view(old_data) == ov);
        }
        let ghost mut old_leaf_val: Option<ShortNode> = None;
        if common_len < stored_suffix.len() {
            let old_index = byte_to_hex_index(stored_suffix[common_len]);
            proof {
                let gb = gsv[c];
                assert(gb < 16 ==> (gb & 0x0f) == gb) by (bit_vector);
                assert(old_index as int == gsv[c] as int);
            }
            let old_leaf = match make_leaf(
                stored_suffix.as_slice(),
                common_len + 1,
                Vec::new(),
                old_data,
                db,
                cache,
            ) {
                Ok(l) => l,
                Err(e) => {
                    return Err(e);
                },
            };
            proof {
                old_leaf_val = Some(*old_leaf);
            }
            put_slot(&mut new_branch, old_index, old_leaf);
        } else {
            new_branch.value = old_data;
        }
        // the new key's tail below the common prefix
        if common_len < remaining_len {
            assert(pos + 1 + common_len < key_path@.len());
            let new_index = byte_to_hex_index(key_path[pos + 1 + common_len]);
            let new_leaf = match make_leaf(
                key_path.as_slice(),
                pos + 1 + common_len + 1,
                Vec::new(),
                Some(scalar_clone(value)),
                db,
                cache,
            ) {
                Ok(l) => l,
                Err(e) => {
                    return Err(e);
                },
            };
            proof {
                new_leaf_val = Some(*new_leaf);
            }
            put_slot(&mut new_branch, new_index, new_leaf);
        } else {
            proof {
                if c >= gsv.len() {
                    assert(key_path@.skip(pos + 1) =~= gsv);
                    assert(false);
                }
            }
            new_branch.value = Some(scalar_clone(value));
        }
        new_branch.update_hash();
        match persist_full(&new_branch, db, cache) {
            Ok(_) => (),
            Err(e) => {
                return Err(e);
            },
        }
        // wrap with an extension carrying the common prefix (possibly empty)
        let common_chars = nibbles_prefix_chars(&stored_suffix, common_len);
        let ghost bval = new_branch;
        let ext = match make_extension(common_chars, Box::new(new_branch), db, cache) {
            Ok(x) => x,
            Err(e) => {
                return Err(e);
            },
        };
        let ghost ext_val = *ext;
        put_slot(node, index, ext);
        node.is_dirty = true;
        node.update_hash();
        proof {
            if is_primary {
                lemma_split_chain(
                    *node,
                    ext_val,
                    bval,
                    new_leaf_val,
                    key_path@,
                    pos as int,
                    c,
                    gsv,
                    value@,
                );
            }
            if c < gsv.len() {
                assert(gsv[c] < 16);
                if c < key_path@.len() - (pos + 1) {
                    let kb = key_path@[pos + 1 + c];
                    assert(kb != gsv[c]);
                    assert(kb < 16);
                    assert(kb < 16 ==> (kb & 0x0f) == kb) by (bit_vector);
                    let gb = gsv[c];
                    assert(gb < 16 ==> (gb & 0x0f) == gb) by (bit_vector);
                }
                assert(bval.children@[gsv[c] as int] is Some
                    && *bval.children@[gsv[c] as int]->Some_0 == old_leaf_val->Some_0);
                assert(crate::mpt_node::opt_view(old_leaf_val->Some_0.value) == ov);
            } else {
                assert(crate::mpt_node::opt_view(bval.value) == ov);
            }
            assert forall|p2: Seq<u8>, q: int|
                0 <= q <= p2.len() && nibbles_ok(p2) && #[trigger] lookup_full(*old(node), p2, q)
                    is Some && p2.skip(q) != key_path@.skip(pos as int) implies lookup_full(
                *node,
                p2,
                q,
            ) == lookup_full(*old(node), p2, q) by {
                assert(lookup_full(nl, p2, q) == lookup_full(*old(node), p2, q));
                if 0 <= q < p2.len() {
                    let b0 = p2[q];
                    assert((b0 & 0x0f) < 16) by (bit_vector);
                    let idx = (b0 & 0x0f) as int;
                    if idx == index {
                        assert(lookup_full(nl, p2, q) == lookup_short(child0, p2, q + 1));
                        if lookup_short(child0, p2, q + 1) is Some {
                            assert(p2.skip(q + 1) == gsv);
                            lemma_split_frame_leaf(ext_val, bval, c, gsv, ov);
                            assert(lookup_short(ext_val, p2, q + 1) == ov);
                            assert(lookup_full(*node, p2, q) == lookup_short(ext_val, p2, q + 1));
                            assert(lookup_short(child0, p2, q + 1) == ov);
                        }
                    } else {
                        assert(node.children@[idx] == nl.children@[idx]);
                    }
                } else {
                    assert(node.value == nl.value);
                }
            }
        }
        return Ok((old_value, had_old_value));
    }
    // extension child
    let has_next = match load_next(&mut child, db, cache) {
        Ok(b) => b,
        Err(e) => {
            put_slot(node, index, child);
            return Err(e);
        },
    };
    if !has_next {
        put_slot(node, index, child);
        return Err(MPTError::NodeNotFound);
    }
    let ext_suffix = suffix_to_nibbles(&child.suffix);
    let remaining_len = key_path.len() - (pos + 1);
    let common_len = common_prefix_tail(key_path, pos + 1, &ext_suffix);
    if common_len == ext_suffix.len() {
        // the whole suffix matches: descend into the next branch
        let old_next_hash = scalar_clone(&child.next_node_hash);
        let mut taken: Option<Box<FullNode>> = None;
        core::mem::swap(&mut taken, &mut child.next_node);
        let mut next = match taken {
            Some(n) => n,
            None => {
                proof {
                    assert(false);
                }
                return Err(MPTError::NodeNotFound);
            },
        };
        assert(pos + 1 + ext_suffix@.len() <= key_path@.len());
        let ghost next0q = *next;
        let res = rec_insert_full(
            &mut next,
            key_path,
            pos + 1 + ext_suffix.len(),
            value,
            db,
            cache,
            is_primary,
            flag,
        );
        let changed = !bytes_eq(&old_next_hash, &next.node_hash);
        let ghost next_val = *next;
        child.next_node_hash = scalar_clone(&next.node_hash);
        child.next_node = Some(next);
        if changed {
            child.is_dirty = true;
            child.update_hash();
        }
        let ghost child_val = *child;
        put_slot(node, index, child);
        if changed {
            node.is_dirty = true;
            node.update_hash();
        }
        proof {
            if is_primary && res is Ok {
                assert(lookup_full(*node, key_path@, pos as int) == lookup_short(
                    child_val,
                    key_path@,
                    pos + 1,
                ));
                let sn = suffix_nibbles_of(child_val.suffix@);
                assert(sn == ext_suffix@);
                assert(key_path@.subrange(pos + 1, pos + 1 + sn.len()) =~= sn);
                assert(lookup_short(child_val, key_path@, pos + 1) == lookup_full(
                    next_val,
                    key_path@,
                    pos + 1 + sn.len(),
                ));
                assert(lookup_full(next_val, key_path@, pos + 1 + ext_suffix@.len()) == Some(
                    value@,
                ));
            }
            if res is Ok {
                assert forall|p2: Seq<u8>, q: int|
                    0 <= q <= p2.len() && nibbles_ok(p2) && #[trigger] lookup_full(
                        *old(node),
                        p2,
                        q,
                    ) is Some && p2.skip(q) != key_path@.skip(pos as int) implies lookup_full(
                    *node,
                    p2,
                    q,
                ) == lookup_full(*old(node), p2, q) by {
                    assert(lookup_full(nl, p2, q) == lookup_full(*old(node), p2, q));
                    if 0 <= q < p2.len() {
                        let b0 = p2[q];
                        assert((b0 & 0x0f) < 16) by (bit_vector);
                        let idx = (b0 & 0x0f) as int;
                        if idx == index {
                            assert(lookup_full(nl, p2, q) == lookup_short(child0, p2, q + 1));
                            if lookup_short(child0, p2, q + 1) is Some {
                                assert(child0.next_node is Some);
                                assert(next0q == *child0.next_node->Some_0);
                                let sn = suffix_nibbles_of(child0.suffix@);
                                assert(p2.len() - (q + 1) >= sn.len() && p2.subrange(
                                    q + 1,
                                    q + 1 + sn.len(),
                                ) == sn);
                                assert(lookup_short(child0, p2, q + 1) == lookup_full(
                                    next0q,
                                    p2,
                                    q + 1 + sn.len(),
                                ));
                                assert(child_val.suffix == child0.suffix);
                                assert(lookup_short(child_val, p2, q + 1) == lookup_full(
                                    next_val,
                                    p2,
                                    q + 1 + sn.len(),
                                ));
                                assert(sn == ext_suffix@);
                                if p2.skip(q + 1 + sn.len()) == key_path@.skip(
                                    pos + 1 + sn.len(),
                                ) {
                                    let kb = key_path@[pos as int];
                                    assert(kb < 16 ==> (kb & 0x0f) == kb) by (bit_vector);
                                    assert(b0 < 16 ==> (b0 & 0x0f) == b0) by (bit_vector);
                                    assert(p2[q] == kb);
                                    assert(p2.skip(q) =~= seq![p2[q]] + p2.subrange(
                                        q + 1,
                                        q + 1 + sn.len(),
                                    ) + p2.skip(q + 1 + sn.len()));
                                    assert(key_path@.subrange(pos + 1, pos + 1 + sn.len())
                                        =~= sn);
                                    assert(key_path@.skip(pos as int) =~= seq![kb]
                                        + key_path@.subrange(pos + 1, pos + 1 + sn.len())
                                        + key_path@.skip(pos + 1 + sn.len()));
                                    assert(false);
                                }
                                assert(lookup_full(next_val, p2, q + 1 + sn.len())
                                    == lookup_full(next0q, p2, q + 1 + sn.len()));
                            }
                        } else {
                            assert(node.children@[idx] == nl.children@[idx]);
                        }
                    } else {
                        assert(node.value == nl.value);
                    }
                }
            }
        }
        return res;
    }
    if common_len == remaining_len {
        // the key is consumed inside the suffix: its value goes on a new
        // branch that the shortened extension hangs off
        assert(common_len < ext_suffix@.len());
        let split_index = byte_to_hex_index(ext_suffix[common_len]);
        proof {
            let gb = ext_suffix@[common_len as int];
            assert(gb < 16 ==> (gb & 0x0f) == gb) by (bit_vector);
        }
        let new_suffix = nibbles_range_chars(&ext_suffix, common_len + 1, ext_suffix.len());
        child.suffix = new_suffix;
        child.is_dirty = true;
        child.update_hash();
        let ghost tail_val = *child;
        let mut new_branch = FullNode::empty();
        new_branch.value = Some(scalar_clone(value));
        put_slot(&mut new_branch, split_index, child);
        new_branch.update_hash();
        match persist_full(&new_branch, db, cache) {
            Ok(_) => (),
            Err(e) => {
                return Err(e);
            },
        }
        let common_chars = nibbles_prefix_chars(&ext_suffix, common_len);
        let ghost bval = new_branch;
        let new_ext = match make_extension(common_chars, Box::new(new_branch), db, cache) {
            Ok(x) => x,
            Err(e) => {
                return Err(e);
            },
        };
        let ghost ext_val = *new_ext;
        put_slot(node, index, new_ext);
        node.is_dirty = true;
        node.update_hash();
        proof {
            if is_primary {
                lemma_split_chain(
                    *node,
                    ext_val,
                    bval,
                    None,
                    key_path@,
                    pos as int,
                    common_len as int,
                    ext_suffix@,
                    value@,
                );
            }
            assert forall|p2: Seq<u8>, q: int|
                0 <= q <= p2.len() && nibbles_ok(p2) && #[trigger] lookup_full(*old(node), p2, q)
                    is Some && p2.skip(q) != key_path@.skip(pos as int) implies lookup_full(
                *node,
                p2,
                q,
            ) == lookup_full(*old(node), p2, q) by {
                assert(lookup_full(nl, p2, q) == lookup_full(*old(node), p2, q));
                if 0 <= q < p2.len() {
                    let b0 = p2[q];
                    assert((b0 & 0x0f) < 16) by (bit_vector);
                    let idx = (b0 & 0x0f) as int;
                    if idx == index {
                        assert(lookup_full(nl, p2, q) == lookup_short(child0, p2, q + 1));
                        if lookup_short(child0, p2, q + 1) is Some {
                            let sv = suffix_nibbles_of(child0.suffix@);
                            assert(sv == ext_suffix@);
                            assert(p2.len() - (q + 1) >= sv.len() && p2.subrange(
                                q + 1,
                                q + 1 + sv.len(),
                            ) == sv);
                            assert(child0.next_node is Some);
                            lemma_split_frame_ext(ext_val, bval, tail_val, common_len as int, ext_suffix@);
                            assert(tail_val.next_node == child0.next_node);
                            assert(lookup_short(ext_val, p2, q + 1) == lookup_full(
                                *child0.next_node->Some_0,
                                p2,
                                q + 1 + sv.len(),
                            ));
                            assert(lookup_short(child0, p2, q + 1) == lookup_full(
                                *child0.next_node->Some_0,
                                p2,
                                q + 1 + sv.len(),
                            ));
                            assert(lookup_full(*node, p2, q) == lookup_short(ext_val, p2, q + 1));
                        }
                    } else {
                        assert(node.children@[idx] == nl.children@[idx]);
                    }
                } else {
                    assert(node.value == nl.value);
                }
            }
        }
        return Ok((Vec::new(), false));
    }
    // partial match: split into two branches under a common extension
    assert(common_len < ext_suffix@.len());
    assert(common_len < remaining_len);
    let ext_split_index = byte_to_hex_index(ext_suffix[common_len]);
    proof {
        let gb = ext_suffix@[common_len as int];
        assert(gb < 16 ==> (gb & 0x0f) == gb) by (bit_vector);
    }
    let new_suffix = nibbles_range_chars(&ext_suffix, common_len + 1, ext_suffix.len());
    child.suffix = new_suffix;
    child.is_dirty = true;
    child.update_hash();
    let ghost tail_val = *child;
    assert(pos + 1 + common_len < key_path@.len());
    let new_key_split_index = byte_to_hex_index(key_path[pos + 1 + common_len]);
    proof {
        let kb = key_path@[pos + 1 + common_len];
        assert(kb < 16 ==> (kb & 0x0f) == kb) by (bit_vector);
        assert(kb != ext_suffix@[common_len as int]);
    }
    let new_leaf = match make_leaf(
        key_path.as_slice(),
        pos + 1 + common_len + 1,
        Vec::new(),
        Some(scalar_clone(value)),
        db,
        cache,
    ) {
        Ok(l) => l,
        Err(e) => {
            return Err(e);
        },
    };
    let ghost new_leaf_val = *new_leaf;
    let mut new_branch = FullNode::empty();
    put_slot(&mut new_branch, ext_split_index, child);
    put_slot(&mut new_branch, new_key_split_index, new_leaf);
    new_branch.update_hash();
    match persist_full(&new_branch, db, cache) {
        Ok(_) => (),
        Err(e) => {
            return Err(e);
        },
    }
    let common_chars = nibbles_prefix_chars(&ext_suffix, common_len);
    let ghost bval = new_branch;
    let new_ext = match make_extension(common_chars, Box::new(new_branch), db, cache) {
        Ok(x) => x,
        Err(e) => {
            return Err(e);
        },
    };
    let ghost ext_val = *new_ext;
    put_slot(node, index, new_ext);
    node.is_dirty = true;
    node.update_hash();
    proof {
        if is_primary {
            lemma_split_chain(
                *node,
                ext_val,
                bval,
                Some(new_leaf_val),
                key_path@,
                pos as int,
                common_len as int,
                ext_suffix@,
                value@,
            );
        }
        assert forall|p2: Seq<u8>, q: int|
            0 <= q <= p2.len() && nibbles_ok(p2) && #[trigger] lookup_full(*old(node), p2, q)
                is Some && p2.skip(q) != key_path@.skip(pos as int) implies lookup_full(
            *node,
            p2,
            q,
        ) == lookup_full(*old(node), p2, q) by {
            assert(lookup_full(nl, p2, q) == lookup_full(*old(node), p2, q));
            if 0 <= q < p2.len() {
                let b0 = p2[q];
                assert((b0 & 0x0f) < 16) by (bit_vector);
                let idx = (b0 & 0x0f) as int;
                if idx == index {
                    assert(lookup_full(nl, p2, q) == lookup_short(child0, p2, q + 1));
                    if lookup_short(child0, p2, q + 1) is Some {
                        let sv = suffix_nibbles_of(child0.suffix@);
                        assert(sv == ext_suffix@);
                        assert(p2.len() - (q + 1) >= sv.len() && p2.subrange(
                            q + 1,
                            q + 1 + sv.len(),
                        ) == sv);
                        assert(child0.next_node is Some);
                        lemma_split_frame_ext(ext_val, bval, tail_val, common_len as int, ext_suffix@);
                        assert(tail_val.next_node == child0.next_node);
                        assert(lookup_short(ext_val, p2, q + 1) == lookup_full(
                            *child0.next_node->Some_0,
                            p2,
                            q + 1 + sv.len(),
                        ));
                        assert(lookup_short(child0, p2, q + 1) == lookup_full(
                            *child0.next_node->Some_0,
                            p2,
                            q + 1 + sv.len(),
                        ));
                        assert(lookup_full(*node, p2, q) == lookup_short(ext_val, p2, q + 1));
                    }
                } else {
                    assert(node.children@[idx] == nl.children@[idx]);
                }
            } else {
                assert(node.value == nl.value);
            }
        }
    }
    Ok((Vec::new(), false))
}

/// The lookup chain through a freshly built split: the node's slot holds an
/// extension carrying the first `c` stored nibbles, which the path matches;
/// below it, the branch either carries the new value itself (when the path
/// ends there) or hangs the new leaf at the path's next nibble.
proof fn lemma_split_chain(
    node: FullNode,
    ext_val: ShortNode,
    bval: FullNode,
    new_leaf_val: Option<ShortNode>,
    path: Seq<u8>,
    pos: int,
    c: int,
    sv: Seq<u8>,
    value: Seq<u8>,
)
    requires
        0 <= pos < path.len(),
        nibbles_ok(path),
        nibbles_ok(sv),
        0 <= c <= sv.len(),
        c <= path.len() - (pos + 1),
        forall|k: int| 0 <= k < c ==> path[pos + 1 + k] == sv[k],
        node.children@.len() == 16,
        node.children@[(path[pos] & 0x0f) as int] is Some
            && *node.children@[(path[pos] & 0x0f) as int]->Some_0 == ext_val,
        !ext_val.is_leaf,
        ext_val.suffix@.len() == c,
        forall|k: int| 0 <= k < c ==> #[trigger] ext_val.suffix@[k] == crate::mpt_utils::nibble_char_of(sv[k]),
        ext_val.next_node is Some && *ext_val.next_node->Some_0 == bval,
        bval.children@.len() == 16,
        c == path.len() - (pos + 1) ==> bval.value is Some && bval.value->Some_0@ == value,
        c < path.len() - (pos + 1) ==> {
            let ni = (path[pos + 1 + c] & 0x0f) as int;
            &&& new_leaf_val is Some
            &&& bval.children@[ni] is Some && *bval.children@[ni]->Some_0 == new_leaf_val->Some_0
            &&& new_leaf_val->Some_0.is_leaf
            &&& new_leaf_val->Some_0.value is Some && new_leaf_val->Some_0.value->Some_0@ == value
            &&& new_leaf_val->Some_0.suffix@.len() == path.len() - (pos + 1 + c + 1)
            &&& forall|k: int|
                0 <= k < new_leaf_val->Some_0.suffix@.len()
                    ==> #[trigger] new_leaf_val->Some_0.suffix@[k]
                    == crate::mpt_utils::nibble_char_of(path[pos + 1 + c + 1 + k])
        },
    ensures
        lookup_full(node, path, pos) == Some(value),
{
    let b0 = path[pos];
    assert(b0 & 0x0f < 16) by (bit_vector);
    assert(lookup_full(node, path, pos) == lookup_short(ext_val, path, pos + 1));
    assert(forall|k: int|
        0 <= k < c ==> #[trigger] ext_val.suffix@[k] == crate::mpt_utils::nibble_char_of(
            path.skip(pos + 1).take(c)[k],
        ));
    assert(nibbles_ok(path.skip(pos + 1).take(c)));
    lemma_chars_roundtrip(ext_val.suffix@, path.skip(pos + 1).take(c), 0);
    assert(path.skip(pos + 1).take(c).skip(0) =~= path.skip(pos + 1).take(c));
    assert(suffix_nibbles_of(ext_val.suffix@) =~= path.subrange(pos + 1, pos + 1 + c));
    let sn = suffix_nibbles_of(ext_val.suffix@);
    assert(sn.len() == c);
    assert(path.subrange(pos + 1, pos + 1 + sn.len()) == sn);
    assert(lookup_short(ext_val, path, pos + 1) == lookup_full(bval, path, pos + 1 + c));
    if c == path.len() - (pos + 1) {
        assert(pos + 1 + c >= path.len());
        assert(lookup_full(bval, path, pos + 1 + c) == Some(value));
    } else {
        let lv = new_leaf_val->Some_0;
        let b1 = path[pos + 1 + c];
        assert(b1 & 0x0f < 16) by (bit_vector);
        assert(lookup_full(bval, path, pos + 1 + c) == lookup_short(lv, path, pos + 1 + c + 1));
        lemma_chars_roundtrip(lv.suffix@, path, pos + 1 + c + 1);
        assert(path.skip(pos + 1 + c + 1) == suffix_nibbles_of(lv.suffix@));
        assert(lookup_short(lv, path, pos + 1 + c + 1) == Some(value));
    }
}

/// Whether the key path from `pos` on equals the stored suffix nibbles.
fn suffixes_match(key_path: &Vec<u8>, pos: usize, stored: &Vec<u8>) -> (r: bool)
    requires
        pos <= key_path@.len(),
    ensures
        r == (key_path@.skip(pos as int) == stored@),
{
    if key_path.len() - pos != stored.len() {
        assert(key_path@.skip(pos as int).len() != stored@.len());
        return false;
    }
    let mut i: usize = 0;
    while i < stored.len()
        invariant
            pos + stored@.len() == key_path@.len(),
            key_path@.len() <= usize::MAX,
            0 <= i <= stored@.len(),
            forall|k: int| 0 <= k < i ==> key_path@[pos + k] == stored@[k],
        decreases stored@.len() - i,
    {
        if key_path[pos + i] != stored[i] {
            assert(key_path@.skip(pos as int)[i as int] != stored@[i as int]);
            return false;
        }
        i += 1;
    }
    proof {
        assert(key_path@.skip(pos as int) =~= stored@);
    }
    true
}

/// The length of the longest common prefix of the key path from `pos` on and
/// the stored nibbles.
fn common_prefix_tail(key_path: &Vec<u8>, pos: usize, stored: &Vec<u8>) -> (r: usize)
    requires
        pos <= key_path@.len(),
    ensures
        r <= key_path@.len() - pos,
        r <= stored@.len(),
        forall|k: int| 0 <= k < r ==> key_path@[pos + k] == stored@[k],
        r < key_path@.len() - pos && r < stored@.len() ==> key_path@[pos + r] != stored@[r as int],
{
    let n = key_path.len() - pos;
    let min_len = if n <= stored.len() {
        n
    } else {
        stored.len()
    };
    let mut i: usize = 0;
    while i < min_len
        invariant
            pos + n == key_path@.len(),
            key_path@.len() <= usize::MAX,
            min_len <= n,
            min_len <= stored@.len(),
            0 <= i <= min_len,
            forall|k: int| 0 <= k < i ==> key_path@[pos + k] == stored@[k],
        decreases min_len - i,
    {
        if key_path[pos + i] != stored[i] {
            return i;
        }
        i += 1;
    }
    min_len
}

/// The first `upto` stored nibbles as hex characters.
fn nibbles_prefix_chars(nibbles: &Vec<u8>, upto: usize) -> (r: Vec<u8>)
    requires
        upto <= nibbles@.len(),
        nibbles_ok(nibbles@),
    ensures
        r@.len() == upto,
        forall|k: int| 0 <= k < upto ==> #[trigger] r@[k] == nibble_char_of(nibbles@[k]),
{
    let mut out: Vec<u8> = Vec::new();
    let mut i: usize = 0;
    while i < upto
        invariant
            upto <= nibbles@.len(),
            nibbles_ok(nibbles@),
            0 <= i <= upto,
            out@.len() == i,
            forall|k: int| 0 <= k < i ==> #[trigger] out@[k] == nibble_char_of(nibbles@[k]),
        decreases upto - i,
    {
        assert(nibbles@[i as int] < 16);
        out.push(nibble_to_hex_char(nibbles[i]));
        i += 1;
    }
    out
}

/// The stored nibbles in `[from, to)` as hex characters.
fn nibbles_range_chars(nibbles: &Vec<u8>, from: usize, to: usize) -> (r: Vec<u8>)
    requires
        from <= to <= nibbles@.len(),
        nibbles_ok(nibbles@),
    ensures
        r@.len() == to - from,
        forall|k: int| 0 <= k < to - from ==> #[trigger] r@[k] == nibble_char_of(nibbles@[from + k]),
{
    let mut out: Vec<u8> = Vec::new();
    let mut i: usize = from;
    while i < to
        invariant
            from <= i <= to,
            to <= nibbles@.len(),
            nibbles_ok(nibbles@),
            out@.len() == i - from,
            forall|k: int| 0 <= k < i - from ==> #[trigger] out@[k] == nibble_char_of(nibbles@[from + k]),
        decreases to - i,
    {
        assert(nibbles@[i as int] < 16);
        out.push(nibble_to_hex_char(nibbles[i]));
        i += 1;
    }
    out
}


/// The database key under which the root hash is persisted.
pub open spec fn root_sentinel_of() -> Seq<u8> {
    seq![109u8, 112u8, 116u8, 58u8, 114u8, 111u8, 111u8, 116u8, 95u8, 104u8, 97u8, 115u8, 104u8]
}

/// The database key of the persisted root hash.
pub(crate) fn root_sentinel_key() -> (r: Vec<u8>)
    ensures
        r@ == root_sentinel_of(),
{
    let mut out: Vec<u8> = Vec::new();
    out.push(109);
    out.push(112);
    out.push(116);
    out.push(58);
    out.push(114);
    out.push(111);
    out.push(111);
    out.push(116);
    out.push(95);
    out.push(104);
    out.push(97);
    out.push(115);
    out.push(104);
    proof {
        assert(out@ =~= root_sentinel_of());
    }
    out
}

/// The database key of the persisted metadata.
pub(crate) fn meta_sentinel_key() -> (r: Vec<u8>)
{
    let mut out: Vec<u8> = Vec::new();
    out.push(109);
    out.push(112);
    out.push(116);
    out.push(58);
    out.push(109);
    out.push(101);
    out.push(116);
    out.push(97);
    out.push(100);
    out.push(97);
    out.push(116);
    out.push(97);
    out
}

/// Whether a branch holds neither value nor children.
fn is_empty_branch(node: &FullNode) -> (r: bool)
    requires
        wf_full(*node),
    ensures
        r == (node.value is None && (forall|i: int|
            0 <= i < 16 ==> (#[trigger] node.children@[i]) is None)),
{
    if node.value.is_some() {
        return false;
    }
    let mut i: usize = 0;
    while i < 16
        invariant
            wf_full(*node),
            0 <= i <= 16,
            forall|k: int| 0 <= k < i ==> (#[trigger] node.children@[k]) is None,
        decreases 16 - i,
    {
        if node.children[i].is_some() {
            return false;
        }
        i += 1;
    }
    true
}

/// The recursive query of a branch: the stored value — exactly what the
/// tree holds for the path, with children materialized on the way — and the
/// proof chain from the level reached back up to this branch.
fn rec_query_full<D: Database>(
    node: &mut FullNode,
    key_path: &Vec<u8>,
    pos: usize,
    level: u32,
    db: &mut D,
    cache: &mut Option<NodeCache>,
) -> (r: Result<(Vec<u8>, crate::mpt_proof::MPTProof), MPTError>)
    requires
        wf_full(*old(node)),
        nibbles_ok(key_path@),
        pos <= key_path@.len(),
        key_path@.len() <= 0x0400_0000,
        level as int <= 2 * pos + 2,
    ensures
        wf_full(*final(node)),
        r is Ok ==> r->Ok_0.0@ == crate::mpt_node::opt_bytes(
            lookup_full(*final(node), key_path@, pos as int),
        ),
        lookup_full(*old(node), key_path@, pos as int) is Some ==> r is Ok,
        r is Ok ==> (r->Ok_0.1.is_exist <==> lookup_full(*final(node), key_path@, pos as int)
            is Some),
        forall|p2: Seq<u8>, q: int|
            #[trigger] lookup_full(*old(node), p2, q) is Some ==> lookup_full(*final(node), p2, q)
                == lookup_full(*old(node), p2, q),
    decreases key_path@.len() - pos,
{
    let pe = branch_proof_element(node, level);
    if pos >= key_path.len() {
        match &node.value {
            Some(v) => {
                let value = scalar_clone(v);
                let mut proofs: Vec<crate::mpt_proof::ProofElement> = Vec::new();
                proofs.push(pe);
                return Ok((value, crate::mpt_proof::MPTProof::new(true, level, proofs)));
            },
            None => {
                let mut proofs: Vec<crate::mpt_proof::ProofElement> = Vec::new();
                proofs.push(pe);
                return Ok((Vec::new(), crate::mpt_proof::MPTProof::new(false, level, proofs)));
            },
        }
    }
    let index = byte_to_hex_index(key_path[pos]);
    let loaded = match load_child(node, index, db, cache) {
        Ok(b) => b,
        Err(e) => {
            return Err(e);
        },
    };
    let ghost nl = *node;
    proof {
        assert forall|p2: Seq<u8>, q: int| #[trigger]
            lookup_full(*old(node), p2, q) is Some implies lookup_full(nl, p2, q) == lookup_full(
            *old(node),
            p2,
            q,
        ) by {
            if 0 <= q < p2.len() {
                let b = p2[q];
                assert((b & 0x0f) < 16) by (bit_vector);
                let idx = (b & 0x0f) as int;
                if idx == index {
                    assert(old(node).children@[idx] is Some);
                } else {
                    assert(nl.children@[idx] == old(node).children@[idx]);
                }
            }
        }
    }
    if !loaded {
        let mut proofs: Vec<crate::mpt_proof::ProofElement> = Vec::new();
        proofs.push(pe);
        proof {
            assert(lookup_full(*node, key_path@, pos as int) is None);
        }
        return Ok((Vec::new(), crate::mpt_proof::MPTProof::new(false, level, proofs)));
    }
    let mut child = match take_slot(node, index) {
        Some(c) => c,
        None => {
            proof {
                assert(false);
            }
            return Err(MPTError::NodeNotFound);
        },
    };
    let ghost child0 = *child;
    if child.is_leaf {
        let stored_suffix = suffix_to_nibbles(&child.suffix);
        let same = suffixes_match(key_path, pos + 1, &stored_suffix);
        let leaf_value = match &child.value {
            Some(v) => scalar_clone(v),
            None => Vec::new(),
        };
        let has_value = child.value.is_some();
        let leaf_pe = crate::mpt_proof::ProofElement::new(
            level + 1,
            0,
            scalar_clone(&child.prefix),
            scalar_clone(&child.suffix),
            scalar_clone(&leaf_value),
            Vec::new(),
            Vec::new(),
        );
        let ghost child_box = child;
        let ghost child_val = *child;
        put_slot(node, index, child);
        proof {
            assert(node.children@[index as int] == Some(child_box));
            assert(lookup_full(*node, key_path@, pos as int) == lookup_short(
                child_val,
                key_path@,
                pos + 1,
            ));
            assert(node.children@ =~= nl.children@);
            assert(node.value == nl.value);
            assert forall|p2: Seq<u8>, q: int| #[trigger]
                lookup_full(*old(node), p2, q) is Some implies lookup_full(*node, p2, q)
                == lookup_full(*old(node), p2, q) by {
                assert(lookup_full(*node, p2, q) == lookup_full(nl, p2, q));
            }
        }
        let mut proofs: Vec<crate::mpt_proof::ProofElement> = Vec::new();
        proofs.push(leaf_pe);
        proofs.push(pe);
        if same && has_value {
            return Ok((leaf_value, crate::mpt_proof::MPTProof::new(true, level + 1, proofs)));
        }
        proof {
            assert(lookup_short(child_val, key_path@, pos + 1) is None || crate::mpt_node::opt_bytes(
                lookup_short(child_val, key_path@, pos + 1),
            ) == Seq::<u8>::empty());
        }
        return Ok((Vec::new(), crate::mpt_proof::MPTProof::new(false, level + 1, proofs)));
    }
    let has_next = match load_next(&mut child, db, cache) {
        Ok(b) => b,
        Err(e) => {
            put_slot(node, index, child);
            return Err(e);
        },
    };
    if !has_next {
        let ghost child_val = *child;
        put_slot(node, index, child);
        proof {
            assert(lookup_full(*node, key_path@, pos as int) == lookup_short(
                child_val,
                key_path@,
                pos + 1,
            ));
            assert(lookup_short(child_val, key_path@, pos + 1) is None);
            assert forall|p2: Seq<u8>, q: int| #[trigger]
                lookup_full(*old(node), p2, q) is Some implies lookup_full(*node, p2, q)
                == lookup_full(*old(node), p2, q) by {
                if 0 <= q < p2.len() {
                    let b = p2[q];
                    assert((b & 0x0f) < 16) by (bit_vector);
                    let idx = (b & 0x0f) as int;
                    if idx == index {
                        assert(lookup_short(child0, p2, q + 1) is None);
                    } else {
                        assert(node.children@[idx] == nl.children@[idx]);
                    }
                }
            }
        }
        let mut proofs: Vec<crate::mpt_proof::ProofElement> = Vec::new();
        proofs.push(pe);
        return Ok((Vec::new(), crate::mpt_proof::MPTProof::new(false, level, proofs)));
    }
    let ext_suffix = suffix_to_nibbles(&child.suffix);
    let remaining_len = key_path.len() - (pos + 1);
    let common_len = common_prefix_tail(key_path, pos + 1, &ext_suffix);
    if remaining_len < ext_suffix.len() || common_len < ext_suffix.len() {
        // the suffix does not match: the key is absent
        let ghost child_val = *child;
        put_slot(node, index, child);
        proof {
            assert(lookup_full(*node, key_path@, pos as int) == lookup_short(
                child_val,
                key_path@,
                pos + 1,
            ));
            let sn = suffix_nibbles_of(child_val.suffix@);
            if key_path@.len() - (pos + 1) >= sn.len() && key_path@.subrange(
                pos + 1,
                pos + 1 + sn.len(),
            ) == sn {
                assert(key_path@.subrange(pos + 1, pos + 1 + sn.len())[common_len as int] == sn[
                    common_len as int
                ]);
                assert(false);
            }
            assert forall|p2: Seq<u8>, q: int| #[trigger]
                lookup_full(*old(node), p2, q) is Some implies lookup_full(*node, p2, q)
                == lookup_full(*old(node), p2, q) by {
                if 0 <= q < p2.len() {
                    let b = p2[q];
                    assert((b & 0x0f) < 16) by (bit_vector);
                    let idx = (b & 0x0f) as int;
                    if idx == index {
                        if lookup_short(child0, p2, q + 1) is Some {
                            assert(child0.next_node is Some);
                            assert(child_val == child0);
                        }
                    } else {
                        assert(node.children@[idx] == nl.children@[idx]);
                    }
                }
            }
        }
        let mut proofs: Vec<crate::mpt_proof::ProofElement> = Vec::new();
        proofs.push(pe);
        return Ok((Vec::new(), crate::mpt_proof::MPTProof::new(false, level, proofs)));
    }
    let ext_pe = crate::mpt_proof::ProofElement::new(
        level + 1,
        1,
        scalar_clone(&child.prefix),
        scalar_clone(&child.suffix),
        Vec::new(),
        scalar_clone(&child.next_node_hash),
        Vec::new(),
    );
    let mut taken: Option<Box<FullNode>> = None;
    core::mem::swap(&mut taken, &mut child.next_node);
    let mut next = match taken {
        Some(n) => n,
        None => {
            proof {
                assert(false);
            }
            return Err(MPTError::NodeNotFound);
        },
    };
    assert(pos + 1 + ext_suffix@.len() <= key_path@.len());
    let ghost next0q = *next;
    let res = rec_query_full(&mut next, key_path, pos + 1 + ext_suffix.len(), level + 2, db, cache);
    let ghost next_val = *next;
    child.next_node = Some(next);
    let ghost child_val = *child;
    put_slot(node, index, child);
    proof {
        assert(lookup_full(*node, key_path@, pos as int) == lookup_short(
            child_val,
            key_path@,
            pos + 1,
        ));
        let sn = suffix_nibbles_of(child_val.suffix@);
        assert(key_path@.subrange(pos + 1, pos + 1 + sn.len()) =~= sn);
        assert(lookup_short(child_val, key_path@, pos + 1) == lookup_full(
            *child_val.next_node->Some_0,
            key_path@,
            pos + 1 + sn.len(),
        ));
        assert forall|p2: Seq<u8>, q: int| #[trigger]
            lookup_full(*old(node), p2, q) is Some implies lookup_full(*node, p2, q)
            == lookup_full(*old(node), p2, q) by {
            if 0 <= q < p2.len() {
                let b = p2[q];
                assert((b & 0x0f) < 16) by (bit_vector);
                let idx = (b & 0x0f) as int;
                if idx == index {
                    if lookup_short(child0, p2, q + 1) is Some {
                        assert(child0.next_node is Some);
                        assert(next0q == *child0.next_node->Some_0);
                        let snq = suffix_nibbles_of(child0.suffix@);
                        assert(child_val.suffix == child0.suffix);
                        assert(lookup_short(child0, p2, q + 1) == lookup_full(
                            next0q,
                            p2,
                            q + 1 + snq.len(),
                        ));
                        assert(lookup_short(child_val, p2, q + 1) == lookup_full(
                            next_val,
                            p2,
                            q + 1 + snq.len(),
                        ));
                        assert(lookup_full(next_val, p2, q + 1 + snq.len()) == lookup_full(
                            next0q,
                            p2,
                            q + 1 + snq.len(),
                        ));
                    }
                } else {
                    assert(node.children@[idx] == nl.children@[idx]);
                }
            }
        }
    }
    match res {
        Ok((value, sub_proof)) => {
            let sub_exist = sub_proof.is_exist;
            let sub_levels = sub_proof.levels;
            let mut all_proofs = sub_proof.proofs;
            all_proofs.push(ext_pe);
            all_proofs.push(pe);
            Ok((value, crate::mpt_proof::MPTProof::new(sub_exist, sub_levels, all_proofs)))
        },
        Err(e) => Err(e),
    }
}

/// The proof element of a branch: its value and its sixteen child hashes,
/// absent slots as empty entries.
fn branch_proof_element(node: &FullNode, level: u32) -> (r: crate::mpt_proof::ProofElement)
    requires
        wf_full(*node),
    ensures
        r.proof_type == 2,
        r.level == level,
{
    let mut children_hashes: Vec<Vec<u8>> = Vec::new();
    let mut i: usize = 0;
    while i < 16
        invariant
            wf_full(*node),
            0 <= i <= 16,
        decreases 16 - i,
    {
        match &node.children_hash[i] {
            Some(h) => children_hashes.push(scalar_clone(h)),
            None => children_hashes.push(Vec::new()),
        }
        i += 1;
    }
    let value = match &node.value {
        Some(v) => scalar_clone(v),
        None => Vec::new(),
    };
    crate::mpt_proof::ProofElement::new(
        level,
        2,
        Vec::new(),
        Vec::new(),
        value,
        Vec::new(),
        children_hashes,
    )
}

/// Every nibble of a hex path is below sixteen.
proof fn lemma_hex_path_nibbles(k: Seq<u8>)
    ensures
        nibbles_ok(crate::mpt_utils::hex_path_of(k)),
    decreases k.len(),
{
    if k.len() > 0 {
        lemma_hex_path_nibbles(k.drop_last());
        let b = k.last();
        assert((b >> 4) & 0x0f < 16 && b & 0x0f < 16) by (bit_vector);
        let hp = crate::mpt_utils::hex_path_of(k);
        let hprev = crate::mpt_utils::hex_path_of(k.drop_last());
        assert forall|i: int| 0 <= i < hp.len() implies #[trigger] hp[i] < 16 by {
            if i < hprev.len() {
                assert(hp[i] == hprev[i]);
            }
        }
    }
}

/// A hex path is twice as long as its key.
proof fn lemma_hex_path_len(k: Seq<u8>)
    ensures
        crate::mpt_utils::hex_path_of(k).len() == 2 * k.len(),
    decreases k.len(),
{
    if k.len() > 0 {
        lemma_hex_path_len(k.drop_last());
    }
}

/// Distinct keys have distinct hex paths: the nibble pairs recover the
/// bytes.
proof fn lemma_hex_path_injective(a: Seq<u8>, b: Seq<u8>)
    requires
        crate::mpt_utils::hex_path_of(a) == crate::mpt_utils::hex_path_of(b),
    ensures
        a == b,
    decreases a.len(),
{
    lemma_hex_path_len(a);
    lemma_hex_path_len(b);
    if a.len() == 0 {
        assert(a =~= b);
    } else {
        let n = a.len();
        let ha = crate::mpt_utils::hex_path_of(a);
        let x = a.last();
        let y = b.last();
        assert(ha[2 * n - 2] == (x >> 4) & 0x0f && ha[2 * n - 1] == x & 0x0f);
        assert(ha[2 * n - 2] == (y >> 4) & 0x0f && ha[2 * n - 1] == y & 0x0f);
        assert(((x >> 4) & 0x0f == (y >> 4) & 0x0f && x & 0x0f == y & 0x0f) ==> x == y)
            by (bit_vector);
        assert(crate::mpt_utils::hex_path_of(a.drop_last()) =~= ha.take(2 * n - 2));
        assert(crate::mpt_utils::hex_path_of(b.drop_last()) =~= ha.take(2 * n - 2));
        lemma_hex_path_injective(a.drop_last(), b.drop_last());
        assert(a =~= a.drop_last().push(x));
        assert(b =~= b.drop_last().push(y));
    }
}

/// After a leaf split, every path that read the old leaf's suffix still
/// reads the old value through the new extension chain.
proof fn lemma_split_frame_leaf(
    ext_val: ShortNode,
    bval: FullNode,
    c: int,
    sv: Seq<u8>,
    ov: Option<Seq<u8>>,
)
    requires
        nibbles_ok(sv),
        0 <= c <= sv.len(),
        !ext_val.is_leaf,
        ext_val.suffix@.len() == c,
        forall|k: int|
            0 <= k < c ==> #[trigger] ext_val.suffix@[k] == crate::mpt_utils::nibble_char_of(
                sv[k],
            ),
        ext_val.next_node is Some && *ext_val.next_node->Some_0 == bval,
        bval.children@.len() == 16,
        c == sv.len() ==> crate::mpt_node::opt_view(bval.value) == ov,
        c < sv.len() ==> ({
            let oi = sv[c] as int;
            &&& bval.children@[oi] is Some
            &&& bval.children@[oi]->Some_0.is_leaf
            &&& bval.children@[oi]->Some_0.suffix@.len() == sv.len() - (c + 1)
            &&& (forall|k: int|
                0 <= k < sv.len() - (c + 1)
                    ==> #[trigger] bval.children@[oi]->Some_0.suffix@[k]
                    == crate::mpt_utils::nibble_char_of(sv[c + 1 + k]))
            &&& crate::mpt_node::opt_view(bval.children@[oi]->Some_0.value) == ov
        }),
    ensures
        forall|p2: Seq<u8>, q2: int|
            0 <= q2 <= p2.len() && p2.skip(q2) == sv ==> #[trigger] lookup_short(ext_val, p2, q2)
                == ov,
{
    assert(forall|k: int|
        0 <= k < c ==> #[trigger] ext_val.suffix@[k] == crate::mpt_utils::nibble_char_of(
            sv.take(c)[k],
        ));
    assert(nibbles_ok(sv.take(c)));
    lemma_chars_roundtrip(ext_val.suffix@, sv.take(c), 0);
    assert(sv.take(c).skip(0) =~= sv.take(c));
    assert(suffix_nibbles_of(ext_val.suffix@) == sv.take(c));
    assert forall|p2: Seq<u8>, q2: int|
        0 <= q2 <= p2.len() && p2.skip(q2) == sv implies #[trigger] lookup_short(ext_val, p2, q2)
        == ov by {
        assert(p2.len() - q2 == sv.len());
        assert(p2.subrange(q2, q2 + c) =~= sv.take(c));
        assert(lookup_short(ext_val, p2, q2) == lookup_full(bval, p2, q2 + c));
        if c == sv.len() {
            assert(q2 + c >= p2.len());
            assert(lookup_full(bval, p2, q2 + c) == crate::mpt_node::opt_view(bval.value));
        } else {
            assert(q2 + c < p2.len());
            assert(p2[q2 + c] == sv[c]);
            assert(sv[c] < 16);
            let b0 = p2[q2 + c];
            assert(b0 < 16 ==> (b0 & 0x0f) == b0) by (bit_vector);
            let oi = sv[c] as int;
            let leafp = *bval.children@[oi]->Some_0;
            assert(lookup_full(bval, p2, q2 + c) == lookup_short(leafp, p2, q2 + c + 1));
            assert(forall|k: int|
                0 <= k < leafp.suffix@.len() ==> #[trigger] leafp.suffix@[k]
                    == crate::mpt_utils::nibble_char_of(sv.skip(c + 1)[k]));
            assert(nibbles_ok(sv.skip(c + 1)));
            lemma_chars_roundtrip(leafp.suffix@, sv.skip(c + 1), 0);
            assert(sv.skip(c + 1).skip(0) =~= sv.skip(c + 1));
            assert(suffix_nibbles_of(leafp.suffix@) == sv.skip(c + 1));
            assert(p2.skip(q2 + c + 1) =~= sv.skip(c + 1));
            assert(lookup_short(leafp, p2, q2 + c + 1) == crate::mpt_node::opt_view(leafp.value));
        }
    }
}

/// After an extension split, every path that read through the old suffix
/// still reaches the same next branch through the new chain.
proof fn lemma_split_frame_ext(
    ext_val: ShortNode,
    bval: FullNode,
    tail: ShortNode,
    c: int,
    sv: Seq<u8>,
)
    requires
        nibbles_ok(sv),
        0 <= c < sv.len(),
        !ext_val.is_leaf,
        ext_val.suffix@.len() == c,
        forall|k: int|
            0 <= k < c ==> #[trigger] ext_val.suffix@[k] == crate::mpt_utils::nibble_char_of(
                sv[k],
            ),
        ext_val.next_node is Some && *ext_val.next_node->Some_0 == bval,
        bval.children@.len() == 16,
        bval.children@[sv[c] as int] is Some && *bval.children@[sv[c] as int]->Some_0 == tail,
        !tail.is_leaf,
        tail.suffix@.len() == sv.len() - (c + 1),
        forall|k: int|
            0 <= k < sv.len() - (c + 1) ==> #[trigger] tail.suffix@[k]
                == crate::mpt_utils::nibble_char_of(sv[c + 1 + k]),
    ensures
        forall|p2: Seq<u8>, q2: int|
            0 <= q2 <= p2.len() && p2.len() - q2 >= sv.len() && p2.subrange(q2, q2 + sv.len())
                == sv ==> #[trigger] lookup_short(ext_val, p2, q2) == (match tail.next_node {
                None => None,
                Some(f) => lookup_full(*f, p2, q2 + sv.len()),
            }),
{
    assert(forall|k: int|
        0 <= k < c ==> #[trigger] ext_val.suffix@[k] == crate::mpt_utils::nibble_char_of(
            sv.take(c)[k],
        ));
    assert(nibbles_ok(sv.take(c)));
    lemma_chars_roundtrip(ext_val.suffix@, sv.take(c), 0);
    assert(sv.take(c).skip(0) =~= sv.take(c));
    assert(suffix_nibbles_of(ext_val.suffix@) == sv.take(c));
    assert(forall|k: int|
        0 <= k < tail.suffix@.len() ==> #[trigger] tail.suffix@[k]
            == crate::mpt_utils::nibble_char_of(sv.skip(c + 1)[k]));
    assert(nibbles_ok(sv.skip(c + 1)));
    lemma_chars_roundtrip(tail.suffix@, sv.skip(c + 1), 0);
    assert(sv.skip(c + 1).skip(0) =~= sv.skip(c + 1));
    assert(suffix_nibbles_of(tail.suffix@) == sv.skip(c + 1));
    assert forall|p2: Seq<u8>, q2: int|
        0 <= q2 <= p2.len() && p2.len() - q2 >= sv.len() && p2.subrange(q2, q2 + sv.len())
            == sv implies #[trigger] lookup_short(ext_val, p2, q2) == (match tail.next_node {
        None => None,
        Some(f) => lookup_full(*f, p2, q2 + sv.len()),
    }) by {
        assert(p2.subrange(q2, q2 + c) =~= sv.take(c));
        assert(lookup_short(ext_val, p2, q2) == lookup_full(bval, p2, q2 + c));
        assert(q2 + c < p2.len());
        assert(p2[q2 + c] == sv[c]);
        let b0 = p2[q2 + c];
        assert(b0 < 16 ==> (b0 & 0x0f) == b0) by (bit_vector);
        assert(lookup_full(bval, p2, q2 + c) == lookup_short(tail, p2, q2 + c + 1));
        assert(p2.subrange(q2 + c + 1, q2 + c + 1 + (sv.len() - (c + 1))) =~= sv.skip(c + 1));
    }
}

/// The recursive delete from a branch: the removed value — exactly what the
/// branch held for the path — with emptied nodes pruned on the way back up;
/// afterwards the branch holds nothing for the path, and a miss changes
/// nothing the path or the hash can observe.
fn rec_delete_full<D: Database>(
    node: &mut FullNode,
    key_path: &Vec<u8>,
    pos: usize,
    db: &mut D,
) -> (r: Result<Option<Vec<u8>>, MPTError>)
    requires
        wf_full(*old(node)),
        nibbles_ok(key_path@),
        pos <= key_path@.len(),
    ensures
        wf_full(*final(node)),
        r is Ok && r->Ok_0 is Some ==> lookup_full(*final(node), key_path@, pos as int) is None,
        r is Ok && r->Ok_0 is Some ==> lookup_full(*old(node), key_path@, pos as int) == Some(
            r->Ok_0->Some_0@,
        ),
        r is Ok && r->Ok_0 is None ==> lookup_full(*final(node), key_path@, pos as int)
            == lookup_full(*old(node), key_path@, pos as int) && final(node).node_hash == old(
            node,
        ).node_hash,
        r is Ok && r->Ok_0 is None ==> lookup_full(*old(node), key_path@, pos as int) is None,
    decreases key_path@.len() - pos, 0int,
{
    if pos >= key_path.len() {
        let mut taken: Option<Vec<u8>> = None;
        core::mem::swap(&mut taken, &mut node.value);
        match taken {
            Some(v) => {
                node.update_hash();
                return Ok(Some(v));
            },
            None => {
                return Ok(None);
            },
        }
    }
    let index = byte_to_hex_index(key_path[pos]);
    if node.children[index].is_none() {
        return Ok(None);
    }
    let ghost old_child = old(node).children@[index as int];
    let mut child = match take_slot(node, index) {
        Some(c) => c,
        None => {
            proof {
                assert(false);
            }
            return Err(MPTError::NodeNotFound);
        },
    };
    let ghost child0 = *child;
    let res = rec_delete_short(&mut child, key_path, pos + 1, db);
    let deleted = match res {
        Ok(d) => d,
        Err(e) => {
            restore_slot(node, index, child);
            return Err(e);
        },
    };
    if deleted.is_some() {
        proof {
            assert(lookup_full(*old(node), key_path@, pos as int) == lookup_short(
                child0,
                key_path@,
                pos + 1,
            ));
        }
        let should_remove = (child.is_leaf && child.value.is_none()) || (!child.is_leaf
            && child.next_node.is_none());
        if should_remove {
            clear_slot(node, index);
            node.update_hash();
            proof {
                assert(lookup_full(*node, key_path@, pos as int) is None);
            }
        } else {
            let ghost child_val = *child;
            put_slot(node, index, child);
            node.update_hash();
            proof {
                assert(lookup_full(*node, key_path@, pos as int) == lookup_short(
                    child_val,
                    key_path@,
                    pos + 1,
                ));
            }
        }
    } else {
        let ghost child_val = *child;
        restore_slot(node, index, child);
        proof {
            assert(lookup_full(*node, key_path@, pos as int) == lookup_short(
                child_val,
                key_path@,
                pos + 1,
            ));
            assert(lookup_full(*old(node), key_path@, pos as int) == lookup_short(
                child0,
                key_path@,
                pos + 1,
            ));
        }
    }
    Ok(deleted)
}

/// The recursive delete through a short node: the removed value is exactly
/// what the node held for the path; afterwards the node holds nothing for
/// it, and a miss changes nothing the path or the hash can observe.
fn rec_delete_short<D: Database>(
    node: &mut ShortNode,
    key_path: &Vec<u8>,
    pos: usize,
    db: &mut D,
) -> (r: Result<Option<Vec<u8>>, MPTError>)
    requires
        wf_short(*old(node)),
        nibbles_ok(key_path@),
        pos <= key_path@.len(),
    ensures
        wf_short(*final(node)),
        final(node).is_leaf == old(node).is_leaf,
        r is Ok && r->Ok_0 is Some ==> lookup_short(*final(node), key_path@, pos as int) is None,
        r is Ok && r->Ok_0 is Some ==> lookup_short(*old(node), key_path@, pos as int) == Some(
            r->Ok_0->Some_0@,
        ),
        r is Ok && r->Ok_0 is None ==> lookup_short(*final(node), key_path@, pos as int)
            == lookup_short(*old(node), key_path@, pos as int) && final(node).node_hash == old(
            node,
        ).node_hash,
        r is Ok && r->Ok_0 is None ==> lookup_short(*old(node), key_path@, pos as int) is None,
    decreases key_path@.len() - pos, 1int,
{
    if node.is_leaf {
        let stored_suffix = suffix_to_nibbles(&node.suffix);
        if suffixes_match(key_path, pos, &stored_suffix) {
            let mut taken: Option<Vec<u8>> = None;
            core::mem::swap(&mut taken, &mut node.value);
            match taken {
                Some(v) => {
                    node.update_hash();
                    proof {
                        assert(lookup_short(*old(node), key_path@, pos as int) == Some(v@));
                    }
                    return Ok(Some(v));
                },
                None => {
                    return Ok(None);
                },
            }
        }
        return Ok(None);
    }
    let stored_suffix = suffix_to_nibbles(&node.suffix);
    if key_path.len() - pos < stored_suffix.len() {
        return Ok(None);
    }
    let matches = prefix_matches(key_path, pos, &stored_suffix);
    if !matches {
        return Ok(None);
    }
    let next_pos = pos + stored_suffix.len();
    if node.next_node.is_none() {
        return Ok(None);
    }
    let mut taken: Option<Box<FullNode>> = None;
    core::mem::swap(&mut taken, &mut node.next_node);
    let mut next = match taken {
        Some(n) => n,
        None => {
            proof {
                assert(false);
            }
            return Err(MPTError::NodeNotFound);
        },
    };
    let ghost next0 = *next;
    let res = rec_delete_full(&mut next, key_path, next_pos, db);
    let deleted = match res {
        Ok(d) => d,
        Err(e) => {
            node.next_node = Some(next);
            return Err(e);
        },
    };
    proof {
        let sn = suffix_nibbles_of(node.suffix@);
        assert(key_path@.subrange(pos as int, pos + sn.len()) =~= sn);
        assert(lookup_short(*old(node), key_path@, pos as int) == lookup_full(
            next0,
            key_path@,
            pos + sn.len(),
        ));
    }
    if deleted.is_some() && is_empty_branch(&next) {
        node.next_node = None;
        let zeros = make_zero_hash();
        node.next_node_hash = zeros;
        node.update_hash();
        proof {
            assert(lookup_short(*node, key_path@, pos as int) is None);
        }
    } else {
        let ghost next_val = *next;
        node.next_node = Some(next);
        proof {
            let sn = suffix_nibbles_of(node.suffix@);
            assert(key_path@.subrange(pos as int, pos + sn.len()) =~= sn);
            assert(lookup_short(*node, key_path@, pos as int) == lookup_full(
                next_val,
                key_path@,
                pos + sn.len(),
            ));
        }
    }
    Ok(deleted)
}

/// Whether the key path from `pos` on starts with the stored nibbles.
fn prefix_matches(key_path: &Vec<u8>, pos: usize, stored: &Vec<u8>) -> (r: bool)
    requires
        pos <= key_path@.len(),
        pos + stored@.len() <= key_path@.len(),
    ensures
        r == (key_path@.subrange(pos as int, pos + stored@.len()) == stored@),
{
    let total = key_path.len();
    let mut i: usize = 0;
    while i < stored.len()
        invariant
            pos + stored@.len() <= key_path@.len(),
            total == key_path@.len(),
            0 <= i <= stored@.len(),
            forall|k: int| 0 <= k < i ==> key_path@[pos + k] == stored@[k],
        decreases stored@.len() - i,
    {
        if key_path[pos + i] != stored[i] {
            assert(key_path@.subrange(pos as int, pos + stored@.len())[i as int] != stored@[
                i as int
            ]);
            return false;
        }
        i += 1;
    }
    proof {
        assert(key_path@.subrange(pos as int, pos + stored@.len()) =~= stored@);
    }
    true
}

/// Puts a taken child back into its slot, leaving the recorded hash as it
/// was.
fn restore_slot(node: &mut FullNode, i: usize, c: Box<ShortNode>)
    requires
        wf_full(*old(node)),
        i < 16,
        wf_short(*c),
        old(node).children_hash@[i as int] is Some,
    ensures
        final(node).children@ == old(node).children@.update(i as int, Some(c)),
        final(node).children_hash == old(node).children_hash,
        final(node).value == old(node).value,
        final(node).is_dirty == old(node).is_dirty,
        final(node).to_del_map == old(node).to_del_map,
        final(node).node_hash == old(node).node_hash,
        wf_full(*final(node)),
{
    let _ = node.children.remove(i);
    node.children.insert(i, Some(c));
    proof {
        assert(node.children@ =~= old(node).children@.update(i as int, Some(c)));
        assert(wf_full(*node)) by {
            assert(forall|k: int|
                0 <= k < 16 && k != i ==> node.children@[k] == old(node).children@[k]);
        }
    }
}

/// Clears a branch slot and its recorded hash.
fn clear_slot(node: &mut FullNode, i: usize)
    requires
        wf_full(*old(node)),
        i < 16,
    ensures
        final(node).children@ == old(node).children@.update(i as int, None),
        final(node).children_hash@ == old(node).children_hash@.update(i as int, None),
        final(node).value == old(node).value,
        final(node).is_dirty == old(node).is_dirty,
        final(node).to_del_map == old(node).to_del_map,
        wf_full(*final(node)),
{
    let _ = node.children.remove(i);
    node.children.insert(i, None);
    let _ = node.children_hash.remove(i);
    node.children_hash.insert(i, None);
    proof {
        assert(node.children@ =~= old(node).children@.update(i as int, None));
        assert(node.children_hash@ =~= old(node).children_hash@.update(i as int, None));
        assert(wf_full(*node)) by {
            assert(forall|k: int|
                0 <= k < 16 && k != i ==> node.children@[k] == old(node).children@[k]
                    && node.children_hash@[k] == old(node).children_hash@[k]);
        }
    }
}

/// Recomputes a short node's hash, settling everything below it first, and
/// clears its dirty flag: afterwards its whole subtree is settled and every
/// stored value reads as before.
fn fix_short(node: &mut ShortNode)
    requires
        wf_short(*old(node)),
    ensures
        wf_short(*final(node)),
        final(node).is_leaf == old(node).is_leaf,
        !final(node).is_dirty,
        final(node).node_hash@ == sha256_of(short_hash_input(*final(node))),
        fixed_short(*final(node)),
        final(node).value == old(node).value,
        final(node).suffix == old(node).suffix,
        forall|p2: Seq<u8>, q: int|
            lookup_short(*final(node), p2, q) == #[trigger] lookup_short(*old(node), p2, q),
    decreases *old(node),
{
    let mut taken: Option<Box<FullNode>> = None;
    core::mem::swap(&mut taken, &mut node.next_node);
    match taken {
        Some(mut next) => {
            proof {
                assert(decreases_to!(*old(node) => *next));
            }
            let ghost next0 = *next;
            fix_full(&mut next);
            node.next_node_hash = scalar_clone(&next.node_hash);
            let ghost next_val = *next;
            node.next_node = Some(next);
            proof {
                assert forall|p2: Seq<u8>, q: int|
                    lookup_short(*node, p2, q) == #[trigger] lookup_short(
                    *old(node),
                    p2,
                    q,
                ) by {
                    let sn = suffix_nibbles_of(node.suffix@);
                    if 0 <= q <= p2.len() && !node.is_leaf && p2.len() - q >= sn.len()
                        && p2.subrange(q, q + sn.len()) == sn {
                        assert(lookup_short(*node, p2, q) == lookup_full(
                            next_val,
                            p2,
                            q + sn.len(),
                        ));
                        assert(lookup_short(*old(node), p2, q) == lookup_full(
                            next0,
                            p2,
                            q + sn.len(),
                        ));
                    }
                }
            }
        },
        None => (),
    }
    let ghost mid = *node;
    node.update_hash();
    node.is_dirty = false;
    proof {
        assert forall|p2: Seq<u8>, q: int|
            lookup_short(*node, p2, q) == #[trigger] lookup_short(*old(node), p2, q) by {
            assert(node.is_leaf == mid.is_leaf && node.suffix == mid.suffix && node.value
                == mid.value && node.next_node == mid.next_node);
            assert(lookup_short(*node, p2, q) == lookup_short(mid, p2, q));
        }
    }
}

/// Recomputes a branch's hash, settling every child bottom-up first, and
/// clears its dirty flag: afterwards the whole subtree is settled and every
/// stored value reads as before.
fn fix_full(node: &mut FullNode)
    requires
        wf_full(*old(node)),
    ensures
        wf_full(*final(node)),
        !final(node).is_dirty,
        final(node).node_hash@ == sha256_of(full_hash_input(*final(node))),
        fixed_full(*final(node)),
        final(node).value == old(node).value,
        forall|p2: Seq<u8>, q: int|
            lookup_full(*final(node), p2, q) == #[trigger] lookup_full(*old(node), p2, q),
    decreases *old(node),
{
    let mut i: usize = 0;
    while i < 16
        invariant
            wf_full(*node),
            wf_full(*old(node)),
            0 <= i <= 16,
            node.value == old(node).value,
            forall|k: int| i <= k < 16 ==> node.children@[k] == old(node).children@[k],
            forall|k: int|
                0 <= k < i ==> match #[trigger] node.children@[k] {
                    None => true,
                    Some(c) => fixed_short(*c) && node.children_hash@[k] is Some
                        && node.children_hash@[k]->Some_0@ == c.node_hash@,
                },
            forall|p2: Seq<u8>, q: int|
                lookup_full(*node, p2, q) == #[trigger] lookup_full(*old(node), p2, q),
        decreases 16 - i,
    {
        if node.children[i].is_some() {
            let ghost before = *node;
            let mut child = match take_slot(node, i) {
                Some(c) => c,
                None => {
                    proof {
                        assert(false);
                    }
                    return ;
                },
            };
            proof {
                assert(Some(child) == old(node).children@[i as int]);
                assert(decreases_to!(*old(node) => *child));
            }
            let ghost child0 = *child;
            fix_short(&mut child);
            let ghost child_val = *child;
            put_slot(node, i, child);
            proof {
                assert(node.children@ =~= before.children@.update(i as int, Some(child)));
                assert forall|p2: Seq<u8>, q: int|
                    lookup_full(*node, p2, q) == #[trigger] lookup_full(before, p2, q) by {
                    if 0 <= q < p2.len() {
                        let b = p2[q];
                        assert((b & 0x0f) < 16) by (bit_vector);
                        let idx = (b & 0x0f) as int;
                        if idx == i {
                            assert(node.children@[idx] is Some
                                && *node.children@[idx]->Some_0 == child_val);
                            assert(before.children@[idx] is Some
                                && *before.children@[idx]->Some_0 == child0);
                            assert(lookup_short(child_val, p2, q + 1) == lookup_short(
                                child0,
                                p2,
                                q + 1,
                            ));
                        } else {
                            assert(node.children@[idx] == before.children@[idx]);
                        }
                    }
                }
            }
        }
        i += 1;
    }
    let ghost mid = *node;
    node.update_hash();
    node.is_dirty = false;
    proof {
        assert forall|p2: Seq<u8>, q: int|
            lookup_full(*node, p2, q) == #[trigger] lookup_full(*old(node), p2, q) by {
            assert(node.children == mid.children && node.value == mid.value);
            assert(lookup_full(*node, p2, q) == lookup_full(mid, p2, q));
        }
        assert(fixed_full(*node)) by {
            assert(node.children@ == mid.children@ && node.children_hash@ == mid.children_hash@);
        }
    }
}

/// Saves a branch and everything under it to the database.
fn save_tree_to_db<D: Database>(node: &FullNode, db: &mut D) -> (r: Result<(), MPTError>)
    requires
        wf_full(*node),
    decreases *node, 1int,
{
    let blob = match node.serialize() {
        Ok(b) => b,
        Err(e) => {
            return Err(e);
        },
    };
    match db.put(node.node_hash.as_slice(), blob.as_slice()) {
        Ok(_) => (),
        Err(e) => {
            return Err(e);
        },
    }
    let mut i: usize = 0;
    while i < 16
        invariant
            wf_full(*node),
            0 <= i <= 16,
        decreases 16 - i,
    {
        match &node.children[i] {
            Some(c) => {
                proof {
                    assert(wf_child(node.children@[i as int]));
                }
                match save_short_node_to_db(c, db) {
                    Ok(_) => (),
                    Err(e) => {
                        return Err(e);
                    },
                }
            },
            None => (),
        }
        i += 1;
    }
    Ok(())
}

/// Saves a short node and everything under it to the database.
fn save_short_node_to_db<D: Database>(node: &ShortNode, db: &mut D) -> (r: Result<(), MPTError>)
    requires
        wf_short(*node),
    decreases *node, 0int,
{
    let blob = match node.serialize() {
        Ok(b) => b,
        Err(e) => {
            return Err(e);
        },
    };
    match db.put(node.node_hash.as_slice(), blob.as_slice()) {
        Ok(_) => (),
        Err(e) => {
            return Err(e);
        },
    }
    match &node.next_node {
        Some(next) => save_tree_to_db(next, db),
        None => Ok(()),
    }
}

impl MPT {
    /// An empty trie with an optional node cache.
    pub fn new(cache: Option<NodeCache>) -> (r: Self)
        ensures
            wf_mpt(r),
            r.root is None,
            r.root_hash@ == zero_hash(),
    {
        MPT { root_hash: make_zero_hash(), root: None, cache }
    }

    /// The current root hash.
    pub fn get_root_hash(&self) -> (r: Vec<u8>)
        ensures
            r@ == self.root_hash@,
    {
        scalar_clone(&self.root_hash)
    }

    /// Materializes the root from the database when the trie has one but it
    /// is not loaded; reports whether a root is available.
    pub fn get_root<D: Database>(&mut self, db: &mut D) -> (r: Result<bool, MPTError>)
        requires
            wf_mpt(*old(self)),
        ensures
            wf_mpt(*final(self)),
            r is Ok ==> (r->Ok_0 <==> final(self).root is Some),
            final(self).root_hash == old(self).root_hash,
            final(self).cache == old(self).cache,
            old(self).root is Some ==> r == Ok::<bool, MPTError>(true) && *final(self) == *old(
                self,
            ),
    {
        if self.root.is_some() {
            return Ok(true);
        }
        let zeros = make_zero_hash();
        if bytes_eq(&self.root_hash, &zeros) {
            return Ok(false);
        }
        let data = match db.get(self.root_hash.as_slice()) {
            Ok(d) => d,
            Err(e) => {
                return Err(e);
            },
        };
        match data {
            Some(bytes) => {
                let n = match FullNode::deserialize(&bytes) {
                    Ok(n) => n,
                    Err(e) => {
                        return Err(e);
                    },
                };
                self.root = Some(Box::new(n));
                Ok(true)
            },
            None => Ok(false),
        }
    }

    /// Creates the empty root when none exists yet.
    fn ensure_root<D: Database>(&mut self, db: &mut D) -> (r: Result<(), MPTError>)
        requires
            wf_mpt(*old(self)),
        ensures
            wf_mpt(*final(self)),
            r is Ok ==> final(self).root is Some,
            old(self).root is Some ==> r is Ok && *final(self) == *old(self),
    {
        let have = match self.get_root(db) {
            Ok(b) => b,
            Err(e) => {
                return Err(e);
            },
        };
        if have {
            match &self.root {
                Some(_) => {
                    return Ok(());
                },
                None => {
                    return Err(MPTError::NodeNotFound);
                },
            }
        }
        let mut root = FullNode::empty();
        root.update_hash();
        match persist_full(&root, db, &mut self.cache) {
            Ok(_) => (),
            Err(e) => {
                return Err(e);
            },
        }
        self.root = Some(Box::new(root));
        Ok(())
    }

    /// Copies the root's hash into the trie's root hash.
    fn update_root_hash(&mut self)
        requires
            wf_mpt(*old(self)),
        ensures
            wf_mpt(*final(self)),
            final(self).root == old(self).root,
            final(self).cache == old(self).cache,
            old(self).root is Some ==> final(self).root_hash@ == old(
                self,
            ).root->Some_0.node_hash@,
            old(self).root is None ==> final(self).root_hash@ == old(self).root_hash@,
    {
        match &self.root {
            Some(r) => {
                self.root_hash = scalar_clone(&r.node_hash);
            },
            None => (),
        }
    }

    /// Inserts a key/value pair.  Primary mode overwrites the value and
    /// hands back the old one with a change flag; secondary mode adds (or,
    /// with the flag, deletes) one posting-list token and reports whether
    /// the posting list became empty.
    pub fn insert<D: Database>(
        &mut self,
        kv: KVPair,
        db: &mut D,
        is_primary: bool,
        flag: bool,
    ) -> (r: Result<(Vec<u8>, bool), MPTError>)
        requires
            wf_mpt(*old(self)),
            kv.key_view().len() <= MAX_KEY_BYTES,
        ensures
            wf_mpt(*final(self)),
            r is Ok && is_primary ==> mpt_lookup(*final(self), kv.key_view()) == Some(
                kv.value_view(),
            ),
            is_primary && mpt_lookup(*old(self), kv.key_view()) is Some ==> r is Ok
                && r->Ok_0.0@ == mpt_lookup(*old(self), kv.key_view())->Some_0 && r->Ok_0.1 == (
            mpt_lookup(*old(self), kv.key_view())->Some_0 != kv.value_view()),
            r is Ok ==> match final(self).root {
                None => false,
                Some(rt) => final(self).root_hash@ == rt.node_hash@,
            },
            r is Ok ==> forall|k2: Seq<u8>|
                #[trigger] mpt_lookup(*old(self), k2) is Some && k2 != kv.key_view()
                    ==> mpt_lookup(*final(self), k2) == mpt_lookup(*old(self), k2),
            !is_primary && mpt_lookup(*old(self), kv.key_view()) is Some ==> r is Ok
                && mpt_lookup(*final(self), kv.key_view()) == (match sec_value_change(
                mpt_lookup(*old(self), kv.key_view())->Some_0,
                mpt_pending(*old(self), kv.key_view(), kv.value_view()),
                kv.value_view(),
                flag,
            ) {
                Some(nv) => Some(nv),
                None => mpt_lookup(*old(self), kv.key_view()),
            }),
            !is_primary && mpt_lookup(*old(self), kv.key_view()) is Some ==> ({
                let p0 = mpt_pending(*old(self), kv.key_view(), kv.value_view());
                let p1 = mpt_pending(*final(self), kv.key_view(), kv.value_view());
                let toks = crate::mpt_utils::split_csv(
                    mpt_lookup(*old(self), kv.key_view())->Some_0,
                );
                &&& (flag && !toks.contains(kv.value_view()) && p0 < 0xffff_ffffu32 ==> p1 == p0
                    + 1)
                &&& (flag && toks.contains(kv.value_view()) ==> p1 == p0)
                &&& (!flag && p0 > 1 ==> p1 == p0 - 1)
                &&& (!flag && p0 == 0 ==> p1 == p0)
            }),
    {
        let key_path = key_to_hex_path(kv.get_key());
        match self.ensure_root(db) {
            Ok(_) => (),
            Err(e) => {
                return Err(e);
            },
        }
        let mut taken: Option<Box<FullNode>> = None;
        core::mem::swap(&mut taken, &mut self.root);
        let ghost root0 = *taken->Some_0;
        let mut root = match taken {
            Some(n) => n,
            None => {
                return Err(MPTError::NodeNotFound);
            },
        };
        proof {
            if mpt_lookup(*old(self), kv.key_view()) is Some {
                assert(old(self).root is Some);
                assert(root0 == *old(self).root->Some_0);
                assert(lookup_full(root0, crate::mpt_utils::hex_path_of(kv.key_view()), 0)
                    == mpt_lookup(*old(self), kv.key_view()));
            }
        }
        let value: Vec<u8> = crate::poly::scalar_clone(kv.get_value());
        let res = rec_insert_full(
            &mut root,
            &key_path,
            0,
            &value,
            db,
            &mut self.cache,
            is_primary,
            flag,
        );
        let ghost root_val = *root;
        self.root = Some(root);
        self.update_root_hash();
        proof {
            if res is Ok && is_primary {
                assert(mpt_lookup(*self, kv.key_view()) == lookup_full(
                    root_val,
                    crate::mpt_utils::hex_path_of(kv.key_view()),
                    0,
                ));
            }
            if res is Ok {
                assert forall|k2: Seq<u8>| #[trigger]
                    mpt_lookup(*old(self), k2) is Some && k2 != kv.key_view() implies mpt_lookup(
                    *self,
                    k2,
                ) == mpt_lookup(*old(self), k2) by {
                    assert(old(self).root is Some);
                    assert(root0 == *old(self).root->Some_0);
                    let p2 = crate::mpt_utils::hex_path_of(k2);
                    if p2 == crate::mpt_utils::hex_path_of(kv.key_view()) {
                        lemma_hex_path_injective(k2, kv.key_view());
                        assert(false);
                    }
                    lemma_hex_path_nibbles(k2);
                    assert(p2.skip(0) =~= p2);
                    assert(key_path@.skip(0) =~= key_path@);
                    assert(mpt_lookup(*old(self), k2) == lookup_full(root0, p2, 0));
                    assert(mpt_lookup(*self, k2) == lookup_full(root_val, p2, 0));
                }
            }
            if !is_primary && mpt_lookup(*old(self), kv.key_view()) is Some {
                assert(mpt_pending(*old(self), kv.key_view(), kv.value_view()) == pending_full(
                    root0,
                    crate::mpt_utils::hex_path_of(kv.key_view()),
                    0,
                    kv.value_view(),
                ));
                assert(mpt_lookup(*self, kv.key_view()) == lookup_full(
                    root_val,
                    crate::mpt_utils::hex_path_of(kv.key_view()),
                    0,
                ));
                assert(mpt_pending(*self, kv.key_view(), kv.value_view()) == pending_full(
                    root_val,
                    crate::mpt_utils::hex_path_of(kv.key_view()),
                    0,
                    kv.value_view(),
                ));
            }
        }
        res
    }

    /// Deletes a key, handing back exactly the value it stored, when it was
    /// present; emptied nodes are pruned, an emptied trie resets its root
    /// hash to zero, and a miss changes neither the key's value nor the
    /// root hash.
    pub fn delete<D: Database>(&mut self, key: &Vec<u8>, db: &mut D) -> (r: Result<
        Option<Vec<u8>>,
        MPTError,
    >)
        requires
            wf_mpt(*old(self)),
            key@.len() <= MAX_KEY_BYTES,
        ensures
            wf_mpt(*final(self)),
            r is Ok && r->Ok_0 is Some ==> mpt_lookup(*final(self), key@) is None,
            r is Ok && r->Ok_0 is Some ==> mpt_lookup(*old(self), key@) == Some(
                r->Ok_0->Some_0@,
            ),
            r is Ok && r->Ok_0 is None ==> mpt_lookup(*final(self), key@) == mpt_lookup(
                *old(self),
                key@,
            ) && final(self).root_hash@ == old(self).root_hash@,
            r is Ok && r->Ok_0 is Some ==> match final(self).root {
                None => final(self).root_hash@ == zero_hash(),
                Some(rt) => final(self).root_hash@ == rt.node_hash@,
            },
            old(self).root is None ==> r == Ok::<Option<Vec<u8>>, MPTError>(None) && *final(self)
                == *old(self),
            r is Ok && mpt_lookup(*old(self), key@) is Some ==> r->Ok_0 is Some,
    {
        if self.root.is_none() {
            return Ok(None);
        }
        let key_path = key_to_hex_path(key);
        let mut taken: Option<Box<FullNode>> = None;
        core::mem::swap(&mut taken, &mut self.root);
        let ghost root0 = *taken->Some_0;
        let mut root = match taken {
            Some(n) => n,
            None => {
                return Err(MPTError::NodeNotFound);
            },
        };
        let res = rec_delete_full(&mut root, &key_path, 0, db);
        let deleted = match res {
            Ok(d) => d,
            Err(e) => {
                self.root = Some(root);
                return Err(e);
            },
        };
        proof {
            assert(mpt_lookup(*old(self), key@) == lookup_full(
                root0,
                crate::mpt_utils::hex_path_of(key@),
                0,
            ));
        }
        if deleted.is_some() {
            if is_empty_branch(&root) {
                self.root = None;
                self.root_hash = make_zero_hash();
            } else {
                let ghost root_val = *root;
                self.root = Some(root);
                self.update_root_hash();
                proof {
                    assert(mpt_lookup(*self, key@) == lookup_full(
                        root_val,
                        crate::mpt_utils::hex_path_of(key@),
                        0,
                    ));
                }
            }
        } else {
            let ghost root_val = *root;
            self.root = Some(root);
            proof {
                assert(mpt_lookup(*self, key@) == lookup_full(
                    root_val,
                    crate::mpt_utils::hex_path_of(key@),
                    0,
                ));
            }
        }
        Ok(deleted)
    }

    /// Queries a key: its stored value (empty when absent) and the proof
    /// chain from the level reached back up to the root.
    pub fn query_by_key<D: Database>(&mut self, key: &Vec<u8>, db: &mut D) -> (r: Result<
        (Vec<u8>, crate::mpt_proof::MPTProof),
        MPTError,
    >)
        requires
            wf_mpt(*old(self)),
            key@.len() <= MAX_KEY_BYTES,
        ensures
            wf_mpt(*final(self)),
            r is Ok ==> r->Ok_0.0@ == crate::mpt_node::opt_bytes(mpt_lookup(*final(self), key@)),
            mpt_lookup(*old(self), key@) is Some ==> r is Ok,
            r is Ok ==> (r->Ok_0.1.is_exist <==> mpt_lookup(*final(self), key@) is Some),
            forall|k2: Seq<u8>|
                #[trigger] mpt_lookup(*old(self), k2) is Some ==> mpt_lookup(*final(self), k2)
                    == mpt_lookup(*old(self), k2),
    {
        let key_path = key_to_hex_path(key);
        proof {
            if mpt_lookup(*old(self), key@) is Some {
                assert(old(self).root is Some);
            }
        }
        let have = match self.get_root(db) {
            Ok(b) => b,
            Err(e) => {
                return Err(e);
            },
        };
        if !have {
            let empty_pe = crate::mpt_proof::ProofElement::new(
                0,
                2,
                Vec::new(),
                Vec::new(),
                Vec::new(),
                Vec::new(),
                Vec::new(),
            );
            let mut proofs: Vec<crate::mpt_proof::ProofElement> = Vec::new();
            proofs.push(empty_pe);
            return Ok((Vec::new(), crate::mpt_proof::MPTProof::new(false, 0, proofs)));
        }
        let mut taken: Option<Box<FullNode>> = None;
        core::mem::swap(&mut taken, &mut self.root);
        let ghost root0 = *taken->Some_0;
        let mut root = match taken {
            Some(n) => n,
            None => {
                return Err(MPTError::NodeNotFound);
            },
        };
        proof {
            if mpt_lookup(*old(self), key@) is Some {
                assert(root0 == *old(self).root->Some_0);
                assert(lookup_full(root0, crate::mpt_utils::hex_path_of(key@), 0) == mpt_lookup(
                    *old(self),
                    key@,
                ));
            }
        }
        let ghost root1 = *root;
        let res = rec_query_full(&mut root, &key_path, 0, 0, db, &mut self.cache);
        let ghost root_val = *root;
        self.root = Some(root);
        proof {
            assert(mpt_lookup(*self, key@) == lookup_full(
                root_val,
                crate::mpt_utils::hex_path_of(key@),
                0,
            ));
            assert forall|k2: Seq<u8>| #[trigger]
                mpt_lookup(*old(self), k2) is Some implies mpt_lookup(*self, k2) == mpt_lookup(
                *old(self),
                k2,
            ) by {
                assert(old(self).root is Some);
                assert(root1 == *old(self).root->Some_0);
                assert(mpt_lookup(*old(self), k2) == lookup_full(
                    root1,
                    crate::mpt_utils::hex_path_of(k2),
                    0,
                ));
                assert(mpt_lookup(*self, k2) == lookup_full(
                    root_val,
                    crate::mpt_utils::hex_path_of(k2),
                    0,
                ));
            }
        }
        res
    }

    /// Checks a query proof: the root hash it reconstructs for the claimed
    /// value must equal the trie's root hash.
    pub fn verify_query_result(&self, value: &Vec<u8>, mpt_proof: &crate::mpt_proof::MPTProof) -> (r:
        bool)
        ensures
            r == (crate::mpt_proof::compute_root_of(value@, *mpt_proof) == self.root_hash@),
    {
        let computed = crate::mpt_proof::compute_mpt_root(value, mpt_proof);
        bytes_eq(&computed, &self.root_hash)
    }

    /// Walks the tree bottom-up, recomputing hashes and clearing the dirty
    /// flags, then saves the tree and refreshes the trie's database record:
    /// afterwards the root's hash is the digest of its content and the
    /// trie's root hash equals it.
    pub fn batch_fix<D: Database>(&mut self, db: &mut D) -> (r: Result<(), MPTError>)
        requires
            wf_mpt(*old(self)),
        ensures
            wf_mpt(*final(self)),
            r is Ok ==> match final(self).root {
                None => final(self).root_hash@ == old(self).root_hash@,
                Some(rt) => fixed_full(*rt) && final(self).root_hash@ == rt.node_hash@,
            },
            final(self).root is Some <==> old(self).root is Some,
            forall|k2: Seq<u8>|
                mpt_lookup(*final(self), k2) == #[trigger] mpt_lookup(*old(self), k2),
    {
        if self.root.is_none() {
            return Ok(());
        }
        let mut taken: Option<Box<FullNode>> = None;
        core::mem::swap(&mut taken, &mut self.root);
        let ghost root0 = *taken->Some_0;
        let root = match taken {
            Some(n) => n,
            None => {
                return Err(MPTError::NodeNotFound);
            },
        };
        let mut fixed = root;
        fix_full(&mut fixed);
        proof {
            assert forall|k2: Seq<u8>|
                lookup_full(*fixed, crate::mpt_utils::hex_path_of(k2), 0) == #[trigger] mpt_lookup(
                *old(self),
                k2,
            ) by {
                assert(lookup_full(*fixed, crate::mpt_utils::hex_path_of(k2), 0) == lookup_full(
                    root0,
                    crate::mpt_utils::hex_path_of(k2),
                    0,
                ));
            }
        }
        match persist_full(&fixed, db, &mut self.cache) {
            Ok(_) => (),
            Err(e) => {
                self.root = Some(fixed);
                return Err(e);
            },
        }
        match save_tree_to_db(&fixed, db) {
            Ok(_) => (),
            Err(e) => {
                self.root = Some(fixed);
                return Err(e);
            },
        }
        self.root = Some(fixed);
        self.update_root_hash();
        self.update_mpt_in_db(db)
    }

    /// Refreshes the trie's record in the database: the entry keyed by the
    /// hash of the root hash is rewritten.
    fn update_mpt_in_db<D: Database>(&self, db: &mut D) -> (r: Result<(), MPTError>)
        requires
            wf_mpt(*self),
    {
        let mpt_key = sha256(&self.root_hash);
        match db.delete(mpt_key.as_slice()) {
            Ok(_) => (),
            Err(e) => {
                return Err(e);
            },
        }
        db.put(mpt_key.as_slice(), self.root_hash.as_slice())
    }

    /// Writes every cached node blob to the database and empties the cache.
    pub fn purge_cache<D: Database>(&mut self, db: &mut D) -> (r: Result<(), MPTError>)
        requires
            wf_mpt(*old(self)),
        ensures
            wf_mpt(*final(self)),
    {
        match &mut self.cache {
            Some(c) => c.purge(db),
            None => Ok(()),
        }
    }

    /// The serialized metadata of the trie at a caller-stamped time: the
    /// root hash, then the version and the timestamp, little-endian.
    pub fn serialize_metadata_at(&self, timestamp: u64) -> (r: Result<Vec<u8>, MPTError>)
        requires
            wf_mpt(*self),
        ensures
            r is Ok,
            r->Ok_0@ == self.root_hash@ + u32_le_of(1u32) + u64_le_of(timestamp),
    {
        let m = MPTMetadata { root_hash: crate::poly::scalar_clone(&self.root_hash), version: 1, timestamp };
        let mut out: Vec<u8> = Vec::new();
        crate::mpt_node::append_bytes(&mut out, &m.root_hash);
        let v: u32 = m.version;
        out.push((v & 0xff) as u8);
        out.push(((v >> 8) & 0xff) as u8);
        out.push(((v >> 16) & 0xff) as u8);
        out.push(((v >> 24) & 0xff) as u8);
        proof {
            assert(1u32 & 0xff == 1) by (bit_vector);
            assert((1u32 >> 8) & 0xff == 0) by (bit_vector);
            assert((1u32 >> 16) & 0xff == 0) by (bit_vector);
            assert((1u32 >> 24) & 0xff == 0) by (bit_vector);
            assert(1u32 >> 0 == 1) by (bit_vector);
            assert(u32_le_of(1u32) =~= seq![1u8, 0u8, 0u8, 0u8]);
            assert(out@ =~= self.root_hash@ + u32_le_of(1u32));
        }
        let t: u64 = m.timestamp;
        let mut k: usize = 0;
        while k < 8
            invariant
                t == timestamp,
                0 <= k <= 8,
                out@ == self.root_hash@ + u32_le_of(1u32) + u64_le_of(timestamp).take(k as int),
            decreases 8 - k,
        {
            out.push(((t >> (8 * (k as u64))) & 0xff) as u8);
            proof {
                assert(out@ =~= self.root_hash@ + u32_le_of(1u32) + u64_le_of(timestamp).take(
                    k + 1,
                ));
            }
            k += 1;
        }
        proof {
            assert(u64_le_of(timestamp).take(8) =~= u64_le_of(timestamp));
        }
        Ok(out)
    }

    /// The serialized metadata of a fresh record: as `serialize_metadata_at`
    /// with a zero timestamp, for callers that read no clock.
    pub fn serialize_metadata(&self) -> (r: Result<Vec<u8>, MPTError>)
        requires
            wf_mpt(*self),
        ensures
            r is Ok,
            r->Ok_0@ == self.root_hash@ + u32_le_of(1u32) + u64_le_of(0u64),
    {
        self.serialize_metadata_at(0)
    }

    /// Reads metadata back from its serialized form.
    pub fn deserialize_metadata(data: &Vec<u8>) -> (r: Result<MPTMetadata, MPTError>)
        ensures
            r is Ok ==> r->Ok_0.root_hash@.len() == 32,
    {
        if data.len() < 44 {
            return Err(MPTError::InvalidData(Vec::new()));
        }
        let mut root_hash: Vec<u8> = Vec::new();
        let mut i: usize = 0;
        while i < 32
            invariant
                0 <= i <= 32,
                root_hash@.len() == i,
                data@.len() >= 44,
            decreases 32 - i,
        {
            root_hash.push(data[i]);
            i += 1;
        }
        let version = (data[32] as u32) | ((data[33] as u32) << 8) | ((data[34] as u32) << 16) | (
        (data[35] as u32) << 24);
        let mut timestamp: u64 = 0;
        let mut k: usize = 0;
        while k < 8
            invariant
                0 <= k <= 8,
                data@.len() >= 44,
            decreases 8 - k,
        {
            timestamp = timestamp | ((data[36 + k] as u64) << (8 * (k as u64)));
            k += 1;
        }
        Ok(MPTMetadata { root_hash, version, timestamp })
    }

    /// Saves the trie: fixes the hashes, then writes the metadata and root
    /// hash sentinels; afterwards the database's root-hash sentinel holds
    /// exactly the trie's root hash.
    pub fn persist_to_db<D: Database>(&mut self, db: &mut D) -> (r: Result<(), MPTError>)
        requires
            wf_mpt(*old(self)),
        ensures
            wf_mpt(*final(self)),
            r is Ok ==> final(db).stored(root_sentinel_of()) == Some(final(self).root_hash@),
    {
        match self.batch_fix(db) {
            Ok(_) => (),
            Err(e) => {
                return Err(e);
            },
        }
        let metadata = match self.serialize_metadata() {
            Ok(m) => m,
            Err(e) => {
                return Err(e);
            },
        };
        let meta_key = meta_sentinel_key();
        match db.put(meta_key.as_slice(), metadata.as_slice()) {
            Ok(_) => (),
            Err(e) => {
                return Err(e);
            },
        }
        let root_key = root_sentinel_key();
        match db.put(root_key.as_slice(), self.root_hash.as_slice()) {
            Ok(_) => Ok(()),
            Err(e) => Err(e),
        }
    }

    /// Rebuilds a trie from a known root hash; the root node is materialized
    /// from the database on first use.
    pub fn load_from_db<D: Database>(
        root_hash: &Vec<u8>,
        db: &mut D,
        cache: Option<NodeCache>,
    ) -> (r: Result<MPT, MPTError>)
        requires
            root_hash@.len() == 32,
        ensures
            r is Ok ==> wf_mpt(r->Ok_0) && r->Ok_0.root_hash@ == root_hash@,
    {
        let mut mpt = MPT::new(cache);
        mpt.root_hash = scalar_clone(root_hash);
        let zeros = make_zero_hash();
        if !bytes_eq(root_hash, &zeros) {
            match mpt.get_root(db) {
                Ok(_) => (),
                Err(e) => {
                    return Err(e);
                },
            }
        }
        Ok(mpt)
    }

    /// Restores the latest persisted trie from the database's root-hash
    /// sentinel: the trie carries exactly the persisted root hash, and a
    /// database with no sentinel gives an empty trie.
    pub fn restore_from_db<D: Database>(db: &mut D, cache: Option<NodeCache>) -> (r: Result<
        MPT,
        MPTError,
    >)
        ensures
            r is Ok ==> wf_mpt(r->Ok_0),
            r is Ok && old(db).stored(root_sentinel_of()) is Some ==> r->Ok_0.root_hash@ == old(
                db,
            ).stored(root_sentinel_of())->Some_0,
            r is Ok && old(db).stored(root_sentinel_of()) is None ==> r->Ok_0.root_hash@
                == zero_hash() && r->Ok_0.root is None,
    {
        let root_key = root_sentinel_key();
        let data = match db.get(root_key.as_slice()) {
            Ok(d) => d,
            Err(e) => {
                return Err(e);
            },
        };
        match data {
            Some(bytes) => {
                if bytes.len() != 32 {
                    return Err(MPTError::InvalidData(Vec::new()));
                }
                MPT::load_from_db(&bytes, db, cache)
            },
            None => Ok(MPT::new(cache)),
        }
    }
}

impl Default for MPT {
    fn default() -> (r: Self)
        ensures
            wf_mpt(r),
            r.root is None,
    {
        MPT::new(None)
    }
}


/// The per-(key, value) state a node keeps for a posting-list entry:
/// whether the value is present in the list, and how many deletes are
/// pending in the deferred-delete map.
pub open spec fn sec_step(present: bool, pending: nat, is_del: bool) -> (bool, nat) {
    if is_del {
        if present {
            (false, pending)
        } else {
            (present, pending + 1)
        }
    } else {
        if pending > 0 {
            (present, (pending - 1) as nat)
        } else {
            (true, 0)
        }
    }
}

/// The state after a sequence of events; `true` is a delete, `false` an add.
pub open spec fn sec_run(present: bool, pending: nat, evs: Seq<bool>) -> (bool, nat)
    decreases evs.len(),
{
    if evs.len() == 0 {
        (present, pending)
    } else {
        let next = sec_step(present, pending, evs[0]);
        sec_run(next.0, next.1, evs.drop_first())
    }
}

/// How many events of a sequence are deletes.
pub open spec fn count_dels(evs: Seq<bool>) -> int
    decreases evs.len(),
{
    if evs.len() == 0 {
        0int
    } else {
        (if evs[0] {
            1int
        } else {
            0int
        }) + count_dels(evs.drop_first())
    }
}

/// How many events of a sequence are adds.
pub open spec fn count_adds(evs: Seq<bool>) -> int
    decreases evs.len(),
{
    evs.len() - count_dels(evs)
}

proof fn lemma_count_dels_bound(evs: Seq<bool>)
    ensures
        0 <= count_dels(evs) <= evs.len(),
    decreases evs.len(),
{
    if evs.len() > 0 {
        lemma_count_dels_bound(evs.drop_first());
    }
}

/// The state a balance determines: a negative balance means the value is
/// present with nothing pending, a nonnegative one that it is absent with
/// the balance pending.
pub open spec fn sec_state_of(balance: int) -> (bool, nat) {
    if balance < 0 {
        (true, 0)
    } else {
        (false, balance as nat)
    }
}

/// Law: at one node, the posting-list state reached by a sequence of add
/// and delete events for one (key, value) pair depends only on how many
/// adds and how many deletes arrive, not on their order — so any
/// reordering of the events leaves the same list and the same deferred
/// count.  It holds from any state where a present value has no pending
/// deletes, as long as the adds do not outnumber what the deletes and the
/// starting state can absorb; one add beyond that is dropped as a
/// duplicate, and order then matters.
pub proof fn lemma_secondary_events_order_free(present: bool, pending: nat, evs: Seq<bool>)
    requires
        present ==> pending == 0,
        count_adds(evs) <= pending - (if present {
            1int
        } else {
            0int
        }) + 1,
    ensures
        sec_run(present, pending, evs) == sec_state_of(
            pending - (if present {
                1int
            } else {
                0int
            }) - count_adds(evs) + count_dels(evs),
        ),
    decreases evs.len(),
{
    let balance0 = pending - (if present {
        1int
    } else {
        0int
    });
    if evs.len() == 0 {
        assert(sec_state_of(balance0) == (present, pending));
    } else {
        let e = evs[0];
        let rest = evs.drop_first();
        let next = sec_step(present, pending, e);
        if e {
            assert(next.1 - (if next.0 {
                1int
            } else {
                0int
            }) == balance0 + 1);
        } else {
            assert(count_adds(evs) == count_adds(rest) + 1);
            lemma_count_dels_bound(rest);
            if pending == 0 && present {
                assert(count_adds(evs) >= 1);
                assert(balance0 == -1);
                assert(false);
            }
            assert(next.1 - (if next.0 {
                1int
            } else {
                0int
            }) == balance0 - 1);
        }
        lemma_secondary_events_order_free(next.0, next.1, rest);
    }
}

/// Law: two arrival orders of the same adds and deletes end in the same
/// posting-list state.
pub proof fn lemma_secondary_events_commute(
    present: bool,
    pending: nat,
    evs1: Seq<bool>,
    evs2: Seq<bool>,
)
    requires
        present ==> pending == 0,
        count_adds(evs1) == count_adds(evs2),
        count_dels(evs1) == count_dels(evs2),
        count_adds(evs1) <= pending - (if present {
            1int
        } else {
            0int
        }) + 1,
    ensures
        sec_run(present, pending, evs1) == sec_run(present, pending, evs2),
{
    lemma_secondary_events_order_free(present, pending, evs1);
    lemma_secondary_events_order_free(present, pending, evs2);
}

} // verus!
