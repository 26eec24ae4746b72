//! The nodes of the Merkle-Patricia trie.
//!
//! A branch (`FullNode`) has sixteen child slots, one per nibble, the hashes
//! of its children and an optional value; a short node is a leaf (suffix and
//! value) or an extension (suffix and next branch).  Every node carries its
//! own SHA-256 content hash and a dirty flag, and a deferred-delete map for
//! posting-list deletes that arrived before their key existed.  Nodes are
//! stored in an external key-value database under their hash, through an
//! optional write-back cache.
use vstd::prelude::*;

use crate::field::{sha256, sha256_of};
use crate::mpt_error::MPTError;

verus! {

/// The external key-value store the trie persists into.
pub trait Database {
    /// The value the store holds for a key.
    spec fn stored(&self, key: Seq<u8>) -> Option<Seq<u8>>;

    /// Reads the value stored under a key; the store's contents do not
    /// change.
    fn get(&mut self, key: &[u8]) -> (r: Result<Option<Vec<u8>>, MPTError>)
        ensures
            forall|k: Seq<u8>| final(self).stored(k) == old(self).stored(k),
            r is Ok ==> opt_view(r->Ok_0) == old(self).stored(key@),
    ;

    /// Stores a value under a key.
    fn put(&mut self, key: &[u8], value: &[u8]) -> (r: Result<(), MPTError>)
        ensures
            r is Ok ==> forall|k: Seq<u8>|
                final(self).stored(k) == (if k == key@ {
                    Some(value@)
                } else {
                    old(self).stored(k)
                }),
    ;

    /// Removes a key.
    fn delete(&mut self, key: &[u8]) -> (r: Result<(), MPTError>)
        ensures
            r is Ok ==> forall|k: Seq<u8>|
                final(self).stored(k) == (if k == key@ {
                    None::<Seq<u8>>
                } else {
                    old(self).stored(k)
                }),
    ;
}

/// A deferred-delete map: per key, per value, the number of deletes that
/// arrived before the value existed.
pub type ToDelMap = Vec<(Vec<u8>, Vec<(Vec<u8>, u32)>)>;

/// A branch node: sixteen child slots indexed by nibble.
pub struct FullNode {
    pub node_hash: Vec<u8>,
    pub children: Vec<Option<Box<ShortNode>>>,
    pub children_hash: Vec<Option<Vec<u8>>>,
    pub value: Option<Vec<u8>>,
    pub is_dirty: bool,
    pub to_del_map: ToDelMap,
}

/// A leaf or extension node: a suffix of hex characters, and either a value
/// (leaf) or the next branch with its hash (extension).
pub struct ShortNode {
    pub node_hash: Vec<u8>,
    pub prefix: Vec<u8>,
    pub is_leaf: bool,
    pub is_dirty: bool,
    pub suffix: Vec<u8>,
    pub next_node: Option<Box<FullNode>>,
    pub next_node_hash: Vec<u8>,
    pub value: Option<Vec<u8>>,
    pub to_del_map: ToDelMap,
}

/// The serializable image of a short node: everything but the in-memory
/// child link and the deferred deletes.
pub struct SerializableShortNode {
    pub node_hash: Vec<u8>,
    pub prefix: Vec<u8>,
    pub is_leaf: bool,
    pub suffix: Vec<u8>,
    pub next_node_hash: Vec<u8>,
    pub value: Option<Vec<u8>>,
}

/// The serializable image of a branch node.
pub struct SerializableFullNode {
    pub node_hash: Vec<u8>,
    pub children_hash: Vec<Option<Vec<u8>>>,
    pub value: Option<Vec<u8>>,
}

/// Structural soundness of a branch: sixteen slots, 32-byte hashes, a hash
/// recorded for every loaded child, and sound children.
pub open spec fn wf_full(n: FullNode) -> bool
    decreases n,
{
    &&& n.children@.len() == 16
    &&& n.children_hash@.len() == 16
    &&& n.node_hash@.len() == 32
    &&& forall|i: int|
        0 <= i < 16 ==> ((#[trigger] n.children_hash@[i]) is Some
            ==> n.children_hash@[i]->Some_0@.len() == 32)
    &&& forall|i: int| 0 <= i < 16 ==> ((#[trigger] n.children@[i]) is Some
        ==> n.children_hash@[i] is Some)
    &&& forall|i: int| 0 <= i < 16 ==> wf_child(#[trigger] n.children@[i])
}

/// Structural soundness of an optional child.
pub open spec fn wf_child(c: Option<Box<ShortNode>>) -> bool
    decreases c,
{
    match c {
        None => true,
        Some(s) => wf_short(*s),
    }
}

/// Structural soundness of a short node: 32-byte hashes, a leaf has no next
/// branch, and a sound next branch when loaded.
pub open spec fn wf_short(s: ShortNode) -> bool
    decreases s,
{
    &&& s.node_hash@.len() == 32
    &&& s.next_node_hash@.len() == 32
    &&& (s.is_leaf ==> s.next_node is None)
    &&& match s.next_node {
        None => true,
        Some(f) => wf_full(*f),
    }
}

/// The optional byte sequence of an optional vector.
pub open spec fn opt_view(v: Option<Vec<u8>>) -> Option<Seq<u8>> {
    match v {
        None => None,
        Some(b) => Some(b@),
    }
}

/// The bytes hashed for a value: the value itself, or nothing.
pub open spec fn opt_bytes(v: Option<Seq<u8>>) -> Seq<u8> {
    match v {
        None => Seq::empty(),
        Some(b) => b,
    }
}

/// The concatenation of the present child hashes, in slot order.
pub open spec fn hashes_concat(chs: Seq<Option<Vec<u8>>>) -> Seq<u8>
    decreases chs.len(),
{
    if chs.len() == 0 {
        Seq::empty()
    } else {
        hashes_concat(chs.drop_last()) + (match chs.last() {
            Some(h) => h@,
            None => Seq::empty(),
        })
    }
}

/// What a branch hashes: its present child hashes followed by its value.
pub open spec fn full_hash_input(n: FullNode) -> Seq<u8> {
    hashes_concat(n.children_hash@) + opt_bytes(opt_view(n.value))
}

/// What a short node hashes: prefix, suffix, then the value (leaf) or the
/// next branch's hash (extension).
pub open spec fn short_hash_input(s: ShortNode) -> Seq<u8> {
    s.prefix@ + s.suffix@ + (if s.is_leaf {
        opt_bytes(opt_view(s.value))
    } else {
        s.next_node_hash@
    })
}

/// Copies an optional byte vector.
pub(crate) fn opt_clone(v: &Option<Vec<u8>>) -> (r: Option<Vec<u8>>)
    ensures
        opt_view(r) == opt_view(*v),
{
    match v {
        None => None,
        Some(b) => Some(crate::poly::scalar_clone(b)),
    }
}

impl FullNode {
    /// An empty branch: no children, no value, an all-zero hash.
    pub fn empty() -> (r: Self)
        ensures
            wf_full(r),
            r.children@.len() == 16,
            forall|i: int| 0 <= i < 16 ==> (#[trigger] r.children@[i]) is None,
            forall|i: int| 0 <= i < 16 ==> (#[trigger] r.children_hash@[i]) is None,
            r.value is None,
            r.to_del_map@.len() == 0,
            !r.is_dirty,
    {
        let mut children: Vec<Option<Box<ShortNode>>> = Vec::new();
        let mut children_hash: Vec<Option<Vec<u8>>> = Vec::new();
        let mut i: usize = 0;
        while i < 16
            invariant
                0 <= i <= 16,
                children@.len() == i,
                children_hash@.len() == i,
                forall|k: int| 0 <= k < i ==> (#[trigger] children@[k]) is None,
                forall|k: int| 0 <= k < i ==> (#[trigger] children_hash@[k]) is None,
            decreases 16 - i,
        {
            children.push(None);
            children_hash.push(None);
            i += 1;
        }
        let mut node_hash: Vec<u8> = Vec::new();
        let mut k: usize = 0;
        while k < 32
            invariant
                0 <= k <= 32,
                node_hash@.len() == k,
            decreases 32 - k,
        {
            node_hash.push(0);
            k += 1;
        }
        FullNode {
            node_hash,
            children,
            children_hash,
            value: None,
            is_dirty: false,
            to_del_map: Vec::new(),
        }
    }

    /// Builds a branch from sixteen child slots and an optional value:
    /// records the children's hashes, computes the content hash and persists
    /// the blob.  Fails when not exactly sixteen slots are given.
    pub fn new<D: Database>(
        children: Vec<Option<Box<ShortNode>>>,
        value: Option<Vec<u8>>,
        db: &mut D,
        cache: &mut Option<NodeCache>,
    ) -> (r: Result<FullNode, MPTError>)
        requires
            forall|i: int| 0 <= i < children@.len() ==> wf_child(#[trigger] children@[i]),
        ensures
            r is Ok ==> wf_full(r->Ok_0),
            children@.len() != 16 ==> r is Err,
            r is Ok ==> ({
                let n = r->Ok_0;
                &&& n.children@ == children@
                &&& n.value == value
                &&& (forall|k: int|
                    0 <= k < 16 && (#[trigger] children@[k]) is Some ==> n.children_hash@[k]
                        is Some && n.children_hash@[k]->Some_0@
                        == children@[k]->Some_0.node_hash@)
                &&& n.node_hash@ == sha256_of(full_hash_input(n))
            }),
    {
        if children.len() != 16 {
            return Err(MPTError::InvalidData(Vec::new()));
        }
        let ghost orig = children@;
        let mut node = FullNode::empty();
        let mut kids = children;
        let mut i: usize = 0;
        proof {
            assert(kids@ =~= orig.skip(0));
        }
        while i < 16
            invariant
                kids@.len() == 16 - i,
                orig.len() == 16,
                kids@ == orig.skip(i as int),
                wf_full(node),
                node.children@.len() == 16,
                node.value is None,
                forall|k: int| 0 <= k < kids@.len() ==> wf_child(#[trigger] kids@[k]),
                forall|k: int| 0 <= k < i ==> #[trigger] node.children@[k] == orig[k],
                forall|k: int| i <= k < 16 ==> (#[trigger] node.children@[k]) is None,
                forall|k: int|
                    0 <= k < i && (#[trigger] orig[k]) is Some ==> node.children_hash@[k] is Some
                        && node.children_hash@[k]->Some_0@ == orig[k]->Some_0.node_hash@,
            decreases 16 - i,
        {
            let ghost kv = kids@;
            let slot = kids.remove(0);
            proof {
                assert(kids@ =~= kv.drop_first());
                assert(kids@ =~= orig.skip(i + 1));
                assert(slot == orig[i as int]);
            }
            match slot {
                Some(child) => {
                    crate::mpt::put_child_slot(&mut node, i, child);
                },
                None => (),
            }
            i += 1;
        }
        proof {
            assert(node.children@ =~= orig);
        }
        node.value = value;
        node.update_hash();
        match &mut *cache {
            Some(c) => {
                match c.insert_full_node(&node.node_hash, &node, db) {
                    Ok(_) => (),
                    Err(e) => {
                        return Err(e);
                    },
                }
            },
            None => {
                let blob = match node.serialize() {
                    Ok(b) => b,
                    Err(e) => {
                        return Err(e);
                    },
                };
                match db.put(node.node_hash.as_slice(), blob.as_slice()) {
                    Ok(_) => (),
                    Err(e) => {
                        return Err(e);
                    },
                }
            },
        }
        Ok(node)
    }

    /// Recomputes the content hash from the child hashes and the value.
    pub fn update_hash(&mut self)
        ensures
            final(self).node_hash@ == sha256_of(full_hash_input(*old(self))),
            final(self).node_hash@.len() == 32,
            final(self).children == old(self).children,
            final(self).children_hash == old(self).children_hash,
            final(self).value == old(self).value,
            final(self).is_dirty == old(self).is_dirty,
            final(self).to_del_map == old(self).to_del_map,
            full_hash_input(*final(self)) == full_hash_input(*old(self)),
    {
        let mut buf: Vec<u8> = Vec::new();
        let mut i: usize = 0;
        while i < self.children_hash.len()
            invariant
                0 <= i <= self.children_hash@.len(),
                *self == *old(self),
                buf@ == hashes_concat(self.children_hash@.take(i as int)),
            decreases self.children_hash@.len() - i,
        {
            proof {
                assert(self.children_hash@.take(i + 1).drop_last() =~= self.children_hash@.take(
                    i as int,
                ));
                assert(self.children_hash@.take(i + 1).last() == self.children_hash@[i as int]);
            }
            match &self.children_hash[i] {
                Some(h) => {
                    let mut k: usize = 0;
                    let ghost base = buf@;
                    while k < h.len()
                        invariant
                            0 <= k <= h@.len(),
                            buf@ == base + h@.take(k as int),
                            h@ == self.children_hash@[i as int]->Some_0@,
                            0 <= i < self.children_hash@.len(),
                        decreases h@.len() - k,
                    {
                        buf.push(h[k]);
                        proof {
                            assert(h@.take(k + 1) =~= h@.take(k as int).push(h@[k as int]));
                        }
                        k += 1;
                    }
                    proof {
                        assert(h@.take(h@.len() as int) =~= h@);
                    }
                },
                None => {
                    proof {
                        assert(buf@ + Seq::<u8>::empty() =~= buf@);
                    }
                },
            }
            i += 1;
        }
        proof {
            assert(self.children_hash@.take(self.children_hash@.len() as int)
                =~= self.children_hash@);
        }
        match &self.value {
            Some(v) => {
                let mut k: usize = 0;
                let ghost base = buf@;
                while k < v.len()
                    invariant
                        0 <= k <= v@.len(),
                        buf@ == base + v@.take(k as int),
                        self.value is Some && v@ == self.value->Some_0@,
                    decreases v@.len() - k,
                {
                    buf.push(v[k]);
                    proof {
                        assert(v@.take(k + 1) =~= v@.take(k as int).push(v@[k as int]));
                    }
                    k += 1;
                }
                proof {
                    assert(v@.take(v@.len() as int) =~= v@);
                }
            },
            None => {
                proof {
                    assert(buf@ + Seq::<u8>::empty() =~= buf@);
                }
            },
        }
        proof {
            assert(buf@ =~= full_hash_input(*self));
        }
        self.node_hash = sha256(&buf);
    }

    /// The serializable image of this branch.
    pub fn to_serializable(&self) -> (r: SerializableFullNode)
        ensures
            r.node_hash@ == self.node_hash@,
            r.children_hash@.len() == self.children_hash@.len(),
            opt_view(r.value) == opt_view(self.value),
    {
        let mut children_hash: Vec<Option<Vec<u8>>> = Vec::new();
        let mut i: usize = 0;
        while i < self.children_hash.len()
            invariant
                0 <= i <= self.children_hash@.len(),
                children_hash@.len() == i,
            decreases self.children_hash@.len() - i,
        {
            match &self.children_hash[i] {
                Some(h) => children_hash.push(Some(crate::poly::scalar_clone(h))),
                None => children_hash.push(None),
            }
            i += 1;
        }
        SerializableFullNode {
            node_hash: crate::poly::scalar_clone(&self.node_hash),
            children_hash,
            value: opt_clone(&self.value),
        }
    }

    /// Writes the branch as a database blob.
    pub fn serialize(&self) -> (r: Result<Vec<u8>, MPTError>)
    {
        let mut out: Vec<u8> = Vec::new();
        out.push(1u8);
        if self.node_hash.len() != 32 || self.children_hash.len() != 16 {
            return Err(MPTError::InvalidData(Vec::new()));
        }
        push_bytes(&mut out, &self.node_hash);
        let mut i: usize = 0;
        while i < 16
            invariant
                0 <= i <= 16,
                self.children_hash@.len() == 16,
            decreases 16 - i,
        {
            match &self.children_hash[i] {
                Some(h) => {
                    if h.len() != 32 {
                        return Err(MPTError::InvalidData(Vec::new()));
                    }
                    out.push(1u8);
                    push_bytes(&mut out, h);
                },
                None => {
                    out.push(0u8);
                },
            }
            i += 1;
        }
        if !push_opt(&mut out, &self.value) {
            return Err(MPTError::InvalidData(Vec::new()));
        }
        Ok(out)
    }

    /// Reads a branch back from a database blob; the result is structurally
    /// sound, with no children loaded.
    pub fn deserialize(data: &Vec<u8>) -> (r: Result<FullNode, MPTError>)
        ensures
            r is Ok ==> wf_full(r->Ok_0) && (forall|i: int|
                0 <= i < 16 ==> (#[trigger] r->Ok_0.children@[i]) is None),
    {
        let mut pos: usize = 0;
        let tag = match read_u8(data, &mut pos) {
            Some(t) => t,
            None => {
                return Err(MPTError::InvalidData(Vec::new()));
            },
        };
        if tag != 1 {
            return Err(MPTError::InvalidData(Vec::new()));
        }
        let node_hash = match read_exact(data, &mut pos, 32) {
            Some(h) => h,
            None => {
                return Err(MPTError::InvalidData(Vec::new()));
            },
        };
        let mut children: Vec<Option<Box<ShortNode>>> = Vec::new();
        let mut children_hash: Vec<Option<Vec<u8>>> = Vec::new();
        let mut i: usize = 0;
        while i < 16
            invariant
                0 <= i <= 16,
                children@.len() == i,
                children_hash@.len() == i,
                forall|k: int| 0 <= k < i ==> (#[trigger] children@[k]) is None,
                forall|k: int|
                    0 <= k < i ==> ((#[trigger] children_hash@[k]) is Some
                        ==> children_hash@[k]->Some_0@.len() == 32),
            decreases 16 - i,
        {
            let present = match read_u8(data, &mut pos) {
                Some(t) => t,
                None => {
                    return Err(MPTError::InvalidData(Vec::new()));
                },
            };
            if present == 1 {
                let h = match read_exact(data, &mut pos, 32) {
                    Some(h) => h,
                    None => {
                        return Err(MPTError::InvalidData(Vec::new()));
                    },
                };
                children_hash.push(Some(h));
            } else {
                children_hash.push(None);
            }
            children.push(None);
            i += 1;
        }
        let value = match read_opt(data, &mut pos) {
            Some(v) => v,
            None => {
                return Err(MPTError::InvalidData(Vec::new()));
            },
        };
        Ok(
            FullNode {
                node_hash,
                children,
                children_hash,
                value,
                is_dirty: false,
                to_del_map: Vec::new(),
            },
        )
    }
}

impl ShortNode {
    /// An empty leaf-shaped node with an all-zero hash.
    pub fn empty() -> (r: Self)
        ensures
            wf_short(r),
            r.next_node is None,
            r.value is None,
    {
        let mut node_hash: Vec<u8> = Vec::new();
        let mut next_node_hash: Vec<u8> = Vec::new();
        let mut k: usize = 0;
        while k < 32
            invariant
                0 <= k <= 32,
                node_hash@.len() == k,
                next_node_hash@.len() == k,
            decreases 32 - k,
        {
            node_hash.push(0);
            next_node_hash.push(0);
            k += 1;
        }
        ShortNode {
            node_hash,
            prefix: Vec::new(),
            is_leaf: false,
            is_dirty: false,
            suffix: Vec::new(),
            next_node: None,
            next_node_hash,
            value: None,
            to_del_map: Vec::new(),
        }
    }

    /// Builds a short node from its parts: records the next branch's hash
    /// when one is given, computes the content hash and persists the blob.
    pub fn new<D: Database>(
        prefix: Vec<u8>,
        is_leaf: bool,
        suffix: Vec<u8>,
        next_node: Option<Box<FullNode>>,
        value: Option<Vec<u8>>,
        db: &mut D,
        cache: &mut Option<NodeCache>,
    ) -> (r: Result<ShortNode, MPTError>)
        requires
            match next_node {
                Some(f) => wf_full(*f),
                None => true,
            },
            is_leaf ==> next_node is None,
        ensures
            r is Ok ==> wf_short(r->Ok_0),
    {
        let mut node = ShortNode::empty();
        node.prefix = prefix;
        node.is_leaf = is_leaf;
        node.suffix = suffix;
        node.value = value;
        match next_node {
            Some(f) => {
                node.next_node_hash = crate::poly::scalar_clone(&f.node_hash);
                node.next_node = Some(f);
            },
            None => (),
        }
        node.update_hash();
        match &mut *cache {
            Some(c) => {
                match c.insert_short_node(&node.node_hash, &node, db) {
                    Ok(_) => (),
                    Err(e) => {
                        return Err(e);
                    },
                }
            },
            None => {
                let blob = match node.serialize() {
                    Ok(b) => b,
                    Err(e) => {
                        return Err(e);
                    },
                };
                match db.put(node.node_hash.as_slice(), blob.as_slice()) {
                    Ok(_) => (),
                    Err(e) => {
                        return Err(e);
                    },
                }
            },
        }
        Ok(node)
    }

    /// Recomputes the content hash from prefix, suffix and value or next
    /// hash.
    pub fn update_hash(&mut self)
        ensures
            final(self).node_hash@ == sha256_of(short_hash_input(*old(self))),
            final(self).node_hash@.len() == 32,
            final(self).prefix == old(self).prefix,
            final(self).suffix == old(self).suffix,
            final(self).is_leaf == old(self).is_leaf,
            final(self).is_dirty == old(self).is_dirty,
            final(self).next_node == old(self).next_node,
            final(self).next_node_hash == old(self).next_node_hash,
            final(self).value == old(self).value,
            final(self).to_del_map == old(self).to_del_map,
            short_hash_input(*final(self)) == short_hash_input(*old(self)),
    {
        let mut buf: Vec<u8> = Vec::new();
        append_bytes(&mut buf, &self.prefix);
        append_bytes(&mut buf, &self.suffix);
        if self.is_leaf {
            match &self.value {
                Some(v) => append_bytes(&mut buf, v),
                None => (),
            }
        } else {
            append_bytes(&mut buf, &self.next_node_hash);
        }
        proof {
            assert(buf@ =~= short_hash_input(*self));
        }
        self.node_hash = sha256(&buf);
    }

    /// The serializable image of this short node.
    pub fn to_serializable(&self) -> (r: SerializableShortNode)
        ensures
            r.node_hash@ == self.node_hash@,
            r.prefix@ == self.prefix@,
            r.is_leaf == self.is_leaf,
            r.suffix@ == self.suffix@,
            r.next_node_hash@ == self.next_node_hash@,
            opt_view(r.value) == opt_view(self.value),
    {
        SerializableShortNode {
            node_hash: crate::poly::scalar_clone(&self.node_hash),
            prefix: crate::poly::scalar_clone(&self.prefix),
            is_leaf: self.is_leaf,
            suffix: crate::poly::scalar_clone(&self.suffix),
            next_node_hash: crate::poly::scalar_clone(&self.next_node_hash),
            value: opt_clone(&self.value),
        }
    }

    /// Writes the short node as a database blob.
    pub fn serialize(&self) -> (r: Result<Vec<u8>, MPTError>)
    {
        let mut out: Vec<u8> = Vec::new();
        out.push(0u8);
        if self.node_hash.len() != 32 || self.next_node_hash.len() != 32 {
            return Err(MPTError::InvalidData(Vec::new()));
        }
        push_bytes(&mut out, &self.node_hash);
        if !push_sized(&mut out, &self.prefix) {
            return Err(MPTError::InvalidData(Vec::new()));
        }
        if !push_sized(&mut out, &self.suffix) {
            return Err(MPTError::InvalidData(Vec::new()));
        }
        out.push(if self.is_leaf {
            1u8
        } else {
            0u8
        });
        push_bytes(&mut out, &self.next_node_hash);
        if !push_opt(&mut out, &self.value) {
            return Err(MPTError::InvalidData(Vec::new()));
        }
        Ok(out)
    }

    /// Reads a short node back from a database blob; the result is
    /// structurally sound, with no next branch loaded.
    pub fn deserialize(data: &Vec<u8>) -> (r: Result<ShortNode, MPTError>)
        ensures
            r is Ok ==> wf_short(r->Ok_0) && r->Ok_0.next_node is None,
    {
        let mut pos: usize = 0;
        let tag = match read_u8(data, &mut pos) {
            Some(t) => t,
            None => {
                return Err(MPTError::InvalidData(Vec::new()));
            },
        };
        if tag != 0 {
            return Err(MPTError::InvalidData(Vec::new()));
        }
        let node_hash = match read_exact(data, &mut pos, 32) {
            Some(h) => h,
            None => {
                return Err(MPTError::InvalidData(Vec::new()));
            },
        };
        let prefix = match read_sized(data, &mut pos) {
            Some(p) => p,
            None => {
                return Err(MPTError::InvalidData(Vec::new()));
            },
        };
        let suffix = match read_sized(data, &mut pos) {
            Some(sx) => sx,
            None => {
                return Err(MPTError::InvalidData(Vec::new()));
            },
        };
        let leaf_byte = match read_u8(data, &mut pos) {
            Some(b) => b,
            None => {
                return Err(MPTError::InvalidData(Vec::new()));
            },
        };
        let next_node_hash = match read_exact(data, &mut pos, 32) {
            Some(h) => h,
            None => {
                return Err(MPTError::InvalidData(Vec::new()));
            },
        };
        let value = match read_opt(data, &mut pos) {
            Some(v) => v,
            None => {
                return Err(MPTError::InvalidData(Vec::new()));
            },
        };
        Ok(
            ShortNode {
                node_hash,
                prefix,
                is_leaf: leaf_byte == 1,
                is_dirty: false,
                suffix,
                next_node: None,
                next_node_hash,
                value,
                to_del_map: Vec::new(),
            },
        )
    }
}

/// Appends all bytes of `src` to `out`.
pub(crate) fn append_bytes(out: &mut Vec<u8>, src: &Vec<u8>)
    ensures
        final(out)@ == old(out)@ + src@,
{
    let mut k: usize = 0;
    let ghost base = out@;
    while k < src.len()
        invariant
            0 <= k <= src@.len(),
            out@ == base + src@.take(k as int),
        decreases src@.len() - k,
    {
        out.push(src[k]);
        proof {
            assert(src@.take(k + 1) =~= src@.take(k as int).push(src@[k as int]));
        }
        k += 1;
    }
    proof {
        assert(src@.take(src@.len() as int) =~= src@);
    }
}

fn push_bytes(out: &mut Vec<u8>, src: &Vec<u8>)
    ensures
        final(out)@ == old(out)@ + src@,
{
    append_bytes(out, src)
}

/// Appends a length-prefixed byte string; fails when it does not fit a
/// 32-bit length.
fn push_sized(out: &mut Vec<u8>, src: &Vec<u8>) -> (ok: bool)
{
    if src.len() > 0xffff_ffffusize {
        return false;
    }
    let n = src.len() as u32;
    out.push((n & 0xff) as u8);
    out.push(((n >> 8) & 0xff) as u8);
    out.push(((n >> 16) & 0xff) as u8);
    out.push(((n >> 24) & 0xff) as u8);
    append_bytes(out, src);
    true
}

/// Appends an optional length-prefixed byte string.
fn push_opt(out: &mut Vec<u8>, src: &Option<Vec<u8>>) -> (ok: bool)
{
    match src {
        None => {
            out.push(0u8);
            true
        },
        Some(v) => {
            out.push(1u8);
            push_sized(out, v)
        },
    }
}

/// Reads one byte, advancing the position.
fn read_u8(data: &Vec<u8>, pos: &mut usize) -> (r: Option<u8>)
{
    if *pos < data.len() {
        let b = data[*pos];
        *pos += 1;
        Some(b)
    } else {
        None
    }
}

/// Reads exactly `n` bytes, advancing the position.
fn read_exact(data: &Vec<u8>, pos: &mut usize, n: usize) -> (r: Option<Vec<u8>>)
    ensures
        r is Some ==> r->Some_0@.len() == n,
{
    if n > data.len() || *pos > data.len() - n {
        return None;
    }
    let p = *pos;
    let mut out: Vec<u8> = Vec::new();
    let mut k: usize = 0;
    while k < n
        invariant
            out@.len() == k,
            0 <= k <= n,
            p + n <= data@.len(),
            data@.len() <= usize::MAX,
        decreases n - k,
    {
        out.push(data[p + k]);
        k += 1;
    }
    *pos = p + n;
    Some(out)
}

/// Reads a length-prefixed byte string, advancing the position.
fn read_sized(data: &Vec<u8>, pos: &mut usize) -> (r: Option<Vec<u8>>)
{
    let b0 = match read_u8(data, pos) {
        Some(b) => b as u32,
        None => {
            return None;
        },
    };
    let b1 = match read_u8(data, pos) {
        Some(b) => b as u32,
        None => {
            return None;
        },
    };
    let b2 = match read_u8(data, pos) {
        Some(b) => b as u32,
        None => {
            return None;
        },
    };
    let b3 = match read_u8(data, pos) {
        Some(b) => b as u32,
        None => {
            return None;
        },
    };
    let n = b0 | (b1 << 8) | (b2 << 16) | (b3 << 24);
    read_exact(data, pos, n as usize)
}

/// Reads an optional length-prefixed byte string, advancing the position.
fn read_opt(data: &Vec<u8>, pos: &mut usize) -> (r: Option<Option<Vec<u8>>>)
{
    match read_u8(data, pos) {
        Some(0u8) => Some(None),
        Some(1u8) => match read_sized(data, pos) {
            Some(v) => Some(Some(v)),
            None => None,
        },
        _ => None,
    }
}

/// A bounded write-back cache of serialized nodes in front of the database:
/// one side for short nodes, one for branches.  When a side is full, its
/// least recently inserted entry is written to the database and dropped.
pub struct NodeCache {
    short_entries: Vec<(Vec<u8>, Vec<u8>)>,
    full_entries: Vec<(Vec<u8>, Vec<u8>)>,
    short_capacity: usize,
    full_capacity: usize,
}

impl NodeCache {
    /// A cache with the given per-side capacities.
    pub fn new(short_node_capacity: usize, full_node_capacity: usize) -> (r: Self)
        requires
            short_node_capacity >= 1,
            full_node_capacity >= 1,
    {
        NodeCache {
            short_entries: Vec::new(),
            full_entries: Vec::new(),
            short_capacity: short_node_capacity,
            full_capacity: full_node_capacity,
        }
    }

    /// The short node stored under a hash, if its blob is cached and reads
    /// back; the result is structurally sound.
    pub fn get_short_node<D: Database>(&mut self, hash: &Vec<u8>, db: &mut D) -> (r: Option<
        ShortNode,
    >)
        ensures
            r is Some ==> wf_short(r->Some_0) && r->Some_0.next_node is None,
    {
        let _ = db;
        let mut i: usize = self.short_entries.len();
        while i > 0
            invariant
                i <= self.short_entries@.len(),
            decreases i,
        {
            i -= 1;
            if crate::poly::bytes_eq(&self.short_entries[i].0, hash) {
                match ShortNode::deserialize(&self.short_entries[i].1) {
                    Ok(n) => {
                        return Some(n);
                    },
                    Err(_) => {
                        return None;
                    },
                }
            }
        }
        None
    }

    /// Caches a short node's blob under its hash; a full cache first writes
    /// its oldest entry back to the database.
    pub fn insert_short_node<D: Database>(
        &mut self,
        hash: &Vec<u8>,
        node: &ShortNode,
        db: &mut D,
    ) -> (r: Result<(), MPTError>)
    {
        let blob = match node.serialize() {
            Ok(b) => b,
            Err(e) => {
                return Err(e);
            },
        };
        if self.short_entries.len() >= self.short_capacity && self.short_entries.len() > 0 {
            let evicted = self.short_entries.remove(0);
            match db.put(evicted.0.as_slice(), evicted.1.as_slice()) {
                Ok(_) => (),
                Err(e) => {
                    return Err(e);
                },
            }
        }
        self.short_entries.push((crate::poly::scalar_clone(hash), blob));
        Ok(())
    }

    /// The branch stored under a hash, if its blob is cached and reads back;
    /// the result is structurally sound.
    pub fn get_full_node<D: Database>(&mut self, hash: &Vec<u8>, db: &mut D) -> (r: Option<
        FullNode,
    >)
        ensures
            r is Some ==> wf_full(r->Some_0) && (forall|i: int|
                0 <= i < 16 ==> (#[trigger] r->Some_0.children@[i]) is None),
    {
        let _ = db;
        let mut i: usize = self.full_entries.len();
        while i > 0
            invariant
                i <= self.full_entries@.len(),
            decreases i,
        {
            i -= 1;
            if crate::poly::bytes_eq(&self.full_entries[i].0, hash) {
                match FullNode::deserialize(&self.full_entries[i].1) {
                    Ok(n) => {
                        return Some(n);
                    },
                    Err(_) => {
                        return None;
                    },
                }
            }
        }
        None
    }

    /// Caches a branch's blob under its hash; a full cache first writes its
    /// oldest entry back to the database.
    pub fn insert_full_node<D: Database>(
        &mut self,
        hash: &Vec<u8>,
        node: &FullNode,
        db: &mut D,
    ) -> (r: Result<(), MPTError>)
    {
        let blob = match node.serialize() {
            Ok(b) => b,
            Err(e) => {
                return Err(e);
            },
        };
        if self.full_entries.len() >= self.full_capacity && self.full_entries.len() > 0 {
            let evicted = self.full_entries.remove(0);
            match db.put(evicted.0.as_slice(), evicted.1.as_slice()) {
                Ok(_) => (),
                Err(e) => {
                    return Err(e);
                },
            }
        }
        self.full_entries.push((crate::poly::scalar_clone(hash), blob));
        Ok(())
    }

    /// Writes every cached blob to the database and empties both sides.
    pub fn purge<D: Database>(&mut self, db: &mut D) -> (r: Result<(), MPTError>)
        ensures
            r is Ok ==> final(self).is_empty_spec(),
    {
        while self.short_entries.len() > 0
            invariant
                true,
            decreases self.short_entries@.len(),
        {
            let entry = self.short_entries.remove(0);
            match db.put(entry.0.as_slice(), entry.1.as_slice()) {
                Ok(_) => (),
                Err(e) => {
                    return Err(e);
                },
            }
        }
        while self.full_entries.len() > 0
            invariant
                self.short_entries@.len() == 0,
            decreases self.full_entries@.len(),
        {
            let entry = self.full_entries.remove(0);
            match db.put(entry.0.as_slice(), entry.1.as_slice()) {
                Ok(_) => (),
                Err(e) => {
                    return Err(e);
                },
            }
        }
        Ok(())
    }

    /// Whether the cache holds no entries.
    pub closed spec fn is_empty_spec(self) -> bool {
        self.short_entries@.len() == 0 && self.full_entries@.len() == 0
    }
}

} // verus!
