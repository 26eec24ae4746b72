//! The consistent hash ring.
//!
//! Each physical node owns a configured number of virtual nodes, placed on a
//! 64-bit ring at the hash of `name#vnode<i>`.  A key routes to the owner of
//! the first virtual node at or clockwise after its hash, wrapping to the
//! smallest overall.  Adding or removing a node touches exactly its own
//! virtual nodes.
use vstd::prelude::*;

use crate::poly::{bytes_eq, pv, scalar_clone};

verus! {

/// The 64-bit wrapping product.
pub open spec fn wmul(x: u64, y: u64) -> u64 {
    vstd::wrapping::u64_specs::wrapping_mul(x, y)
}

/// One step of the FNV-1a fold.
pub open spec fn fnv_step(h: u64, b: u8) -> u64 {
    wmul(h ^ (b as u64), 0x100000001b3u64)
}

/// The FNV-1a hash of the first `i` bytes.
pub open spec fn fnv_fold(bytes: Seq<u8>, i: int) -> u64
    decreases i,
{
    if i <= 0 {
        0xcbf29ce484222325u64
    } else {
        fnv_step(fnv_fold(bytes, i - 1), bytes[i - 1])
    }
}

/// The final mixing of the hash: xor-shift and multiply rounds that spread
/// the bits.
pub open spec fn mix64(h: u64) -> u64 {
    let a = h ^ (h >> 30u64);
    let b = wmul(a, 0xbf58476d1ce4e5b9u64);
    let c = b ^ (b >> 27u64);
    let d = wmul(c, 0x94d049bb133111ebu64);
    d ^ (d >> 31u64)
}

/// The ring hash of a byte string.
pub open spec fn ring_hash_of(bytes: Seq<u8>) -> u64 {
    mix64(fnv_fold(bytes, bytes.len() as int))
}

/// Computes the ring hash of a byte string.
pub fn ring_hash(bytes: &Vec<u8>) -> (r: u64)
    ensures
        r == ring_hash_of(bytes@),
{
    let n = bytes.len();
    let mut h: u64 = 0xcbf29ce484222325;
    let mut i: usize = 0;
    while i < n
        invariant
            n == bytes@.len(),
            0 <= i <= n,
            h == fnv_fold(bytes@, i as int),
        decreases n - i,
    {
        h = (h ^ (bytes[i] as u64)).wrapping_mul(0x100000001b3);
        i += 1;
    }
    let a = h ^ (h >> 30u64);
    let b = a.wrapping_mul(0xbf58476d1ce4e5b9);
    let c = b ^ (b >> 27u64);
    let d = c.wrapping_mul(0x94d049bb133111eb);
    d ^ (d >> 31u64)
}

/// The decimal digits of a number.
pub open spec fn dec_of(n: u64) -> Seq<u8>
    decreases n,
{
    if n < 10 {
        seq![(48 + n) as u8]
    } else {
        dec_of(n / 10) + seq![(48 + n % 10) as u8]
    }
}

/// Writes a number in decimal.
pub fn dec_bytes(n: u64) -> (r: Vec<u8>)
    ensures
        r@ == dec_of(n),
    decreases n,
{
    if n < 10 {
        let mut out: Vec<u8> = Vec::new();
        out.push(48 + (n as u8));
        proof {
            assert(out@ =~= dec_of(n));
        }
        out
    } else {
        let mut out = dec_bytes(n / 10);
        out.push(48 + ((n % 10) as u8));
        proof {
            assert(out@ =~= dec_of(n));
        }
        out
    }
}

/// The placement key of a node's virtual node: `name#vnode<i>`.
pub open spec fn vnode_key_of(name: Seq<u8>, i: int) -> Seq<u8> {
    name + seq![35u8, 118u8, 110u8, 111u8, 100u8, 101u8] + dec_of(
        if i >= 0 {
            i as u64
        } else {
            0
        },
    )
}

/// The ring position of a node's virtual node.
pub open spec fn vnode_hash_of(name: Seq<u8>, i: int) -> u64 {
    ring_hash_of(vnode_key_of(name, i))
}

/// Whether `h` is one of the first `count` virtual-node positions of a node.
pub open spec fn is_vnode_hash(name: Seq<u8>, count: int, h: u64) -> bool {
    exists|i: int| 0 <= i < count && vnode_hash_of(name, i) == h
}

/// Builds the placement key of a virtual node.
fn vnode_key(name: &Vec<u8>, i: usize) -> (r: Vec<u8>)
    ensures
        r@ == vnode_key_of(name@, i as int),
{
    let mut out = scalar_clone(name);
    out.push(35);
    out.push(118);
    out.push(110);
    out.push(111);
    out.push(100);
    out.push(101);
    let d = dec_bytes(i as u64);
    crate::mpt_node::append_bytes(&mut out, &d);
    proof {
        assert(out@ =~= vnode_key_of(name@, i as int));
    }
    out
}

/// The view of the ring entries.
pub open spec fn ring_entries_view(entries: Seq<(u64, Vec<u8>)>) -> Seq<(u64, Seq<u8>)> {
    Seq::new(entries.len(), |i: int| (entries[i].0, entries[i].1@))
}

/// The view of the node table.
pub open spec fn nodes_view_of(entries: Seq<(Vec<u8>, usize)>) -> Seq<(Seq<u8>, usize)> {
    Seq::new(entries.len(), |i: int| (entries[i].0@, entries[i].1))
}

/// The replica count recorded for a name.
pub open spec fn node_count_of(nodes: Seq<(Seq<u8>, usize)>, name: Seq<u8>) -> Option<usize>
    decreases nodes.len(),
{
    if nodes.len() == 0 {
        None
    } else if nodes[0].0 == name {
        Some(nodes[0].1)
    } else {
        node_count_of(nodes.drop_first(), name)
    }
}

/// Appending a node keeps every earlier binding and adds the new name.
proof fn lemma_node_count_push(nodes: Seq<(Seq<u8>, usize)>, e: (Seq<u8>, usize), nm: Seq<u8>)
    ensures
        node_count_of(nodes, nm) is Some ==> node_count_of(nodes.push(e), nm) == node_count_of(
            nodes,
            nm,
        ),
        node_count_of(nodes, nm) is None && e.0 == nm ==> node_count_of(nodes.push(e), nm)
            == Some(e.1),
        node_count_of(nodes, nm) is None && e.0 != nm ==> node_count_of(nodes.push(e), nm)
            is None,
    decreases nodes.len(),
{
    if nodes.len() == 0 {
        assert(nodes.push(e)[0] == e);
        assert(nodes.push(e).drop_first() =~= Seq::<(Seq<u8>, usize)>::empty());
        assert(node_count_of(Seq::<(Seq<u8>, usize)>::empty(), nm) is None);
    } else {
        assert(nodes.push(e)[0] == nodes[0]);
        assert(nodes.push(e).drop_first() =~= nodes.drop_first().push(e));
        lemma_node_count_push(nodes.drop_first(), e, nm);
    }
}

/// The owner of the first ring entry at or after `h`, scanning forward.
pub open spec fn first_at_least(r: Seq<(u64, Seq<u8>)>, h: u64) -> Option<Seq<u8>>
    decreases r.len(),
{
    if r.len() == 0 {
        None
    } else if r[0].0 >= h {
        Some(r[0].1)
    } else {
        first_at_least(r.drop_first(), h)
    }
}

/// The node a hash routes to: the owner of the first position at or after
/// it, wrapping to the first entry.
pub open spec fn successor_of(r: Seq<(u64, Seq<u8>)>, h: u64) -> Seq<u8> {
    match first_at_least(r, h) {
        Some(n) => n,
        None => r[0].1,
    }
}

/// How many of the given keys route to a node: the keys whose owner on
/// the ring is the named node.
pub open spec fn routed_count(ring: Seq<(u64, Seq<u8>)>, keys: Seq<Seq<u8>>, name: Seq<u8>) -> int
    decreases keys.len(),
{
    if keys.len() == 0 {
        0
    } else {
        routed_count(ring, keys.drop_last(), name) + (if ring.len() > 0 && successor_of(
            ring,
            ring_hash_of(keys.last()),
        ) == name {
            1int
        } else {
            0int
        })
    }
}

/// A node receives at least none and at most all of the keys.
proof fn lemma_routed_le(ring: Seq<(u64, Seq<u8>)>, keys: Seq<Seq<u8>>, name: Seq<u8>)
    ensures
        0 <= routed_count(ring, keys, name) <= keys.len(),
    decreases keys.len(),
{
    if keys.len() > 0 {
        lemma_routed_le(ring, keys.drop_last(), name);
    }
}

/// One more key raises the count of its owner alone.
proof fn lemma_routed_push(ring: Seq<(u64, Seq<u8>)>, keys: Seq<Seq<u8>>, k: Seq<u8>, nm: Seq<u8>)
    ensures
        routed_count(ring, keys.push(k), nm) == routed_count(ring, keys, nm) + (if ring.len() > 0
            && successor_of(ring, ring_hash_of(k)) == nm {
            1int
        } else {
            0int
        }),
{
    assert(keys.push(k).drop_last() =~= keys);
    assert(keys.push(k).last() == k);
}

/// The first entry at or after a position, found by its index.
proof fn lemma_first_at_least_index(s: Seq<(u64, Seq<u8>)>, h: u64, idx: int)
    requires
        0 <= idx <= s.len(),
        forall|k: int| 0 <= k < idx ==> (#[trigger] s[k]).0 < h,
        idx < s.len() ==> s[idx].0 >= h,
    ensures
        idx < s.len() ==> first_at_least(s, h) == Some(s[idx].1),
        idx == s.len() ==> first_at_least(s, h) is None,
    decreases s.len(),
{
    if s.len() == 0 {
    } else if idx == 0 {
    } else {
        assert(s[0].0 < h);
        assert(forall|k: int|
            0 <= k < s.drop_first().len() ==> (#[trigger] s.drop_first()[k]) == s[k + 1]);
        lemma_first_at_least_index(s.drop_first(), h, idx - 1);
    }
}

/// The consistent hash ring: the sorted virtual-node positions with their
/// owners, and the physical nodes with their replica counts.
pub struct ConsistentHashRing {
    ring: Vec<(u64, Vec<u8>)>,
    nodes: Vec<(Vec<u8>, usize)>,
}

impl ConsistentHashRing {
    #[verifier::type_invariant]
    spec fn wf(self) -> bool {
        &&& forall|i: int, j: int|
            0 <= i < j < self.ring@.len() ==> #[trigger] self.ring@[i].0 < #[trigger] self.ring@[j].0
        &&& forall|i: int, j: int|
            0 <= i < j < self.nodes@.len() ==> (#[trigger] self.nodes@[i]).0@ != (
            #[trigger] self.nodes@[j]).0@
    }

    /// The ring entries, ascending by position.
    pub closed spec fn ring_view(self) -> Seq<(u64, Seq<u8>)> {
        ring_entries_view(self.ring@)
    }

    /// The node table.
    pub closed spec fn nodes_view(self) -> Seq<(Seq<u8>, usize)> {
        nodes_view_of(self.nodes@)
    }

    /// Whether a ring stands in strictly ascending position order, as every
    /// reachable ring does: the clockwise walk and the successor rule rest
    /// on it.
    pub open spec fn ring_sorted(self) -> bool {
        forall|i: int, j: int|
            0 <= i < j < self.ring_view().len() ==> #[trigger] self.ring_view()[i].0
                < #[trigger] self.ring_view()[j].0
    }

    /// An empty ring.
    pub fn new() -> (r: Self)
        ensures
            r.ring_view() == Seq::<(u64, Seq<u8>)>::empty(),
            r.nodes_view() == Seq::<(Seq<u8>, usize)>::empty(),
    {
        let r = ConsistentHashRing { ring: Vec::new(), nodes: Vec::new() };
        proof {
            assert(r.ring_view() =~= Seq::<(u64, Seq<u8>)>::empty());
            assert(r.nodes_view() =~= Seq::<(Seq<u8>, usize)>::empty());
        }
        r
    }

    /// A ring with the given nodes, each with the same virtual-node count:
    /// afterwards every given name is recorded, a repeated name once.
    pub fn with_nodes(node_names: &Vec<Vec<u8>>, virtual_nodes_per_node: usize) -> (r: Self)
        ensures
            forall|k: int|
                0 <= k < node_names@.len() ==> node_count_of(
                    r.nodes_view(),
                    (#[trigger] node_names@[k])@,
                ) == Some(virtual_nodes_per_node),
            r.nodes_view().len() <= node_names@.len(),
    {
        let mut ring = Self::new();
        let mut i: usize = 0;
        while i < node_names.len()
            invariant
                0 <= i <= node_names@.len(),
                forall|k: int|
                    0 <= k < i ==> node_count_of(
                        ring.nodes_view(),
                        (#[trigger] node_names@[k])@,
                    ) == Some(virtual_nodes_per_node),
                forall|nm: Seq<u8>|
                    #[trigger] node_count_of(ring.nodes_view(), nm) is Some ==> node_count_of(
                        ring.nodes_view(),
                        nm,
                    ) == Some(virtual_nodes_per_node),
                ring.nodes_view().len() <= i,
            decreases node_names@.len() - i,
        {
            let ghost before = ring.nodes_view();
            let added = ring.add_node(&node_names[i], virtual_nodes_per_node);
            proof {
                if added {
                    assert forall|k: int|
                        0 <= k <= i implies node_count_of(
                        ring.nodes_view(),
                        (#[trigger] node_names@[k])@,
                    ) == Some(virtual_nodes_per_node) by {
                        lemma_node_count_push(
                            before,
                            (node_names@[i as int]@, virtual_nodes_per_node),
                            node_names@[k]@,
                        );
                    }
                    assert forall|nm: Seq<u8>| #[trigger]
                        node_count_of(ring.nodes_view(), nm) is Some implies node_count_of(
                        ring.nodes_view(),
                        nm,
                    ) == Some(virtual_nodes_per_node) by {
                        lemma_node_count_push(
                            before,
                            (node_names@[i as int]@, virtual_nodes_per_node),
                            nm,
                        );
                    }
                }
            }
            i += 1;
        }
        ring
    }

    /// Whether a node name is recorded.
    fn has_node(&self, node_name: &Vec<u8>) -> (r: bool)
        ensures
            r == (node_count_of(self.nodes_view(), node_name@) is Some),
    {
        let n = self.nodes.len();
        let mut i: usize = 0;
        proof {
            assert(self.nodes_view().skip(0) =~= self.nodes_view());
        }
        while i < n
            invariant
                n == self.nodes@.len(),
                0 <= i <= n,
                node_count_of(self.nodes_view(), node_name@) == node_count_of(
                    self.nodes_view().skip(i as int),
                    node_name@,
                ),
            decreases n - i,
        {
            proof {
                assert(self.nodes_view().skip(i as int)[0] == self.nodes_view()[i as int]);
                assert(self.nodes_view().skip(i as int).drop_first() =~= self.nodes_view().skip(
                    i + 1,
                ));
            }
            if bytes_eq(&self.nodes[i].0, node_name) {
                return true;
            }
            i += 1;
        }
        proof {
            assert(self.nodes_view().skip(n as int) =~= Seq::<(Seq<u8>, usize)>::empty());
        }
        false
    }

    /// The replica count of a node, when recorded.
    pub fn get_virtual_node_count(&self, node_name: &Vec<u8>) -> (r: Option<usize>)
        ensures
            r == node_count_of(self.nodes_view(), node_name@),
    {
        let n = self.nodes.len();
        let mut i: usize = 0;
        proof {
            assert(self.nodes_view().skip(0) =~= self.nodes_view());
        }
        while i < n
            invariant
                n == self.nodes@.len(),
                0 <= i <= n,
                node_count_of(self.nodes_view(), node_name@) == node_count_of(
                    self.nodes_view().skip(i as int),
                    node_name@,
                ),
            decreases n - i,
        {
            proof {
                assert(self.nodes_view().skip(i as int)[0] == self.nodes_view()[i as int]);
                assert(self.nodes_view().skip(i as int).drop_first() =~= self.nodes_view().skip(
                    i + 1,
                ));
            }
            if bytes_eq(&self.nodes[i].0, node_name) {
                return Some(self.nodes[i].1);
            }
            i += 1;
        }
        proof {
            assert(self.nodes_view().skip(n as int) =~= Seq::<(Seq<u8>, usize)>::empty());
        }
        None
    }

    /// Places one virtual node on the ring; an entry at the same position is
    /// replaced.
    fn ring_insert_entry(&mut self, h: u64, name: &Vec<u8>)
        ensures
            forall|g: u64, m: Seq<u8>|
                #[trigger] final(self).ring_view().contains((g, m)) <==> (g == h && m == name@)
                    || (old(self).ring_view().contains((g, m)) && g != h),
            final(self).nodes_view() == old(self).nodes_view(),
    {
        proof {
            use_type_invariant(&*self);
        }
        let mut rvec: Vec<(u64, Vec<u8>)> = Vec::new();
        core::mem::swap(&mut rvec, &mut self.ring);
        let ghost before = ring_entries_view(rvec@);
        let n = rvec.len();
        let mut idx: usize = 0;
        while idx < n && rvec[idx].0 < h
            invariant
                n == rvec@.len(),
                0 <= idx <= n,
                forall|k: int| 0 <= k < idx ==> (#[trigger] rvec@[k]).0 < h,
            decreases n - idx,
        {
            idx += 1;
        }
        let replaced = idx < n && rvec[idx].0 == h;
        if replaced {
            let _ = rvec.remove(idx);
        }
        rvec.insert(idx, (h, scalar_clone(name)));
        proof {
            if replaced {
                assert(ring_entries_view(rvec@) =~= before.update(idx as int, (h, name@)));
            } else {
                assert(ring_entries_view(rvec@) =~= before.insert(idx as int, (h, name@)));
            }
            if !replaced {
                assert(idx == before.len() || before[idx as int].0 > h);
            }
            assert forall|i: int, j: int|
                0 <= i < j < rvec@.len() implies (#[trigger] rvec@[i]).0 < (
            #[trigger] rvec@[j]).0 by {
                lemma_sorted_after_insert(
                    before,
                    ring_entries_view(rvec@),
                    idx as int,
                    h,
                    name@,
                    i,
                    j,
                );
                assert(rvec@[i].0 == ring_entries_view(rvec@)[i].0);
                assert(rvec@[j].0 == ring_entries_view(rvec@)[j].0);
            }
        }
        core::mem::swap(&mut rvec, &mut self.ring);
        proof {
            assert(self.nodes_view() =~= old(self).nodes_view());
            if replaced {
                assert forall|g: u64, m: Seq<u8>| #[trigger]
                    self.ring_view().contains((g, m)) <==> ((g == h && m == name@) || (
                before.contains((g, m)) && g != h)) by {
                    lemma_update_contains(before, idx as int, (h, name@), (g, m));
                    if before.contains((g, m)) && g != h {
                        let w = choose|w: int|
                            0 <= w < before.len() && (#[trigger] before[w]) == (g, m);
                        assert(w != idx);
                        assert(self.ring_view()[w] == (g, m));
                    }
                }
            } else {
                assert forall|g: u64, m: Seq<u8>| #[trigger]
                    self.ring_view().contains((g, m)) <==> ((g == h && m == name@) || (
                before.contains((g, m)) && g != h)) by {
                    lemma_insert_contains(before, idx as int, (h, name@), (g, m));
                    if before.contains((g, m)) {
                        let w = choose|w: int|
                            0 <= w < before.len() && (#[trigger] before[w]) == (g, m);
                        assert(g != h) by {
                            if w >= idx {
                                assert(idx < before.len());
                                assert(before[idx as int].0 != h);
                                assert(before[idx as int].0 >= h);
                                if w > idx {
                                    assert(before[idx as int].0 < before[w].0);
                                }
                            }
                        }
                    }
                }
            }
        }
    }

    /// Adds a node with the given number of virtual nodes; fails when the
    /// name is already recorded.  On success, the ring gains exactly the
    /// node's virtual-node positions, owned by it; entries at colliding
    /// positions are replaced.
    #[verifier::rlimit(60)]
    #[verifier::spinoff_prover]
    pub fn add_node(&mut self, node_name: &Vec<u8>, virtual_nodes: usize) -> (r: bool)
        ensures
            r == !(node_count_of(old(self).nodes_view(), node_name@) is Some),
            !r ==> final(self).nodes_view() == old(self).nodes_view() && final(self).ring_view()
                == old(self).ring_view(),
            r ==> final(self).nodes_view() == old(self).nodes_view().push(
                (node_name@, virtual_nodes),
            ),
            r ==> forall|g: u64, m: Seq<u8>|
                #[trigger] final(self).ring_view().contains((g, m)) <==> ((is_vnode_hash(
                    node_name@,
                    virtual_nodes as int,
                    g,
                ) && m == node_name@) || (old(self).ring_view().contains((g, m))
                    && !is_vnode_hash(node_name@, virtual_nodes as int, g))),
    {
        proof {
            use_type_invariant(&*self);
        }
        if self.has_node(node_name) {
            return false;
        }
        let ghost ring0 = self.ring_view();
        let mut i: usize = 0;
        while i < virtual_nodes
            invariant
                0 <= i <= virtual_nodes,
                self.nodes_view() == old(self).nodes_view(),
                forall|g: u64, m: Seq<u8>|
                    #[trigger] self.ring_view().contains((g, m)) <==> ((is_vnode_hash(
                        node_name@,
                        i as int,
                        g,
                    ) && m == node_name@) || (ring0.contains((g, m)) && !is_vnode_hash(
                        node_name@,
                        i as int,
                        g,
                    ))),
            decreases virtual_nodes - i,
        {
            let key = vnode_key(node_name, i);
            let h = ring_hash(&key);
            let ghost mid = self.ring_view();
            self.ring_insert_entry(h, node_name);
            proof {
                assert(h == vnode_hash_of(node_name@, i as int));
                assert forall|g: u64, m: Seq<u8>| #[trigger]
                    self.ring_view().contains((g, m)) <==> ((is_vnode_hash(
                        node_name@,
                        i + 1,
                        g,
                    ) && m == node_name@) || (ring0.contains((g, m)) && !is_vnode_hash(
                        node_name@,
                        i + 1,
                        g,
                    ))) by {
                    assert(self.ring_view().contains((g, m)) <==> (g == h && m == node_name@) || (
                    mid.contains((g, m)) && g != h));
                    if g == h {
                        assert(is_vnode_hash(node_name@, i + 1, g)) by {
                            assert(vnode_hash_of(node_name@, i as int) == g);
                        }
                    } else {
                        assert(is_vnode_hash(node_name@, i as int, g) <==> is_vnode_hash(
                            node_name@,
                            i + 1,
                            g,
                        )) by {
                            if is_vnode_hash(node_name@, i as int, g) {
                                let w = choose|w: int|
                                    0 <= w < i && (#[trigger] vnode_hash_of(node_name@, w)) == g;
                                assert(vnode_hash_of(node_name@, w) == g);
                            }
                            if is_vnode_hash(node_name@, i + 1, g) {
                                let w = choose|w: int|
                                    0 <= w < i + 1 && (#[trigger] vnode_hash_of(node_name@, w))
                                        == g;
                                assert(w != i);
                                assert(0 <= w < i && vnode_hash_of(node_name@, w) == g);
                            }
                        }
                    }
                }
            }
            i += 1;
        }
        let ghost nodes0 = self.nodes_view();
        let ghost ringend = self.ring_view();
        proof {
            use_type_invariant(&*self);
        }
        let mut nvec: Vec<(Vec<u8>, usize)> = Vec::new();
        core::mem::swap(&mut nvec, &mut self.nodes);
        nvec.push((scalar_clone(node_name), virtual_nodes));
        proof {
            assert forall|p: int, q: int|
                0 <= p < q < nvec@.len() implies (#[trigger] nvec@[p]).0@ != (
            #[trigger] nvec@[q]).0@ by {
                if q == nvec@.len() - 1 {
                    lemma_node_lookup_contains(nodes0, node_name@);
                    assert(nvec@[p].0@ == nodes0[p].0);
                } else {
                    assert(nvec@[p].0@ == nodes0[p].0);
                    assert(nvec@[q].0@ == nodes0[q].0);
                }
            }
        }
        core::mem::swap(&mut nvec, &mut self.nodes);
        proof {
            assert(self.nodes_view() =~= nodes0.push((node_name@, virtual_nodes)));
            assert(self.ring_view() == ringend);
            assert forall|g: u64, m: Seq<u8>| #[trigger]
                self.ring_view().contains((g, m)) <==> ((is_vnode_hash(
                    node_name@,
                    virtual_nodes as int,
                    g,
                ) && m == node_name@) || (ring0.contains((g, m)) && !is_vnode_hash(
                    node_name@,
                    virtual_nodes as int,
                    g,
                ))) by {
                assert(ringend.contains((g, m)) <==> ((is_vnode_hash(
                    node_name@,
                    virtual_nodes as int,
                    g,
                ) && m == node_name@) || (ring0.contains((g, m)) && !is_vnode_hash(
                    node_name@,
                    virtual_nodes as int,
                    g,
                ))));
            }
        }
        true
    }

    /// Removes a node; fails when the name is not recorded.  Exactly the
    /// node's virtual-node positions leave the ring.
    pub fn remove_node(&mut self, node_name: &Vec<u8>) -> (r: bool)
        ensures
            r == (node_count_of(old(self).nodes_view(), node_name@) is Some),
            !r ==> final(self).nodes_view() == old(self).nodes_view() && final(self).ring_view()
                == old(self).ring_view(),
            r ==> forall|g: u64, m: Seq<u8>|
                #[trigger] final(self).ring_view().contains((g, m)) <==> (old(
                    self,
                ).ring_view().contains((g, m)) && !is_vnode_hash(
                    node_name@,
                    node_count_of(old(self).nodes_view(), node_name@)->Some_0 as int,
                    g,
                )),
            r ==> forall|nm: Seq<u8>|
                #[trigger] node_count_of(final(self).nodes_view(), nm) == (if nm == node_name@ {
                    None
                } else {
                    node_count_of(old(self).nodes_view(), nm)
                }),
    {
        proof {
            use_type_invariant(&*self);
        }
        let count = match self.get_virtual_node_count(node_name) {
            Some(c) => c,
            None => {
                return false;
            },
        };
        let ghost ring0 = self.ring_view();
        let mut i: usize = 0;
        while i < count
            invariant
                0 <= i <= count,
                self.nodes_view() == old(self).nodes_view(),
                forall|g: u64, m: Seq<u8>|
                    #[trigger] self.ring_view().contains((g, m)) <==> (ring0.contains((g, m))
                        && !is_vnode_hash(node_name@, i as int, g)),
            decreases count - i,
        {
            let key = vnode_key(node_name, i);
            let h = ring_hash(&key);
            let ghost mid = self.ring_view();
            self.ring_remove_entry(h);
            proof {
                assert(h == vnode_hash_of(node_name@, i as int));
                assert forall|g: u64, m: Seq<u8>| #[trigger]
                    self.ring_view().contains((g, m)) <==> (ring0.contains((g, m))
                        && !is_vnode_hash(node_name@, i + 1, g)) by {
                    assert(self.ring_view().contains((g, m)) <==> (mid.contains((g, m)) && g != h));
                    if is_vnode_hash(node_name@, i as int, g) {
                        let w = choose|w: int|
                            0 <= w < i && (#[trigger] vnode_hash_of(node_name@, w)) == g;
                        assert(is_vnode_hash(node_name@, i + 1, g));
                    }
                    if is_vnode_hash(node_name@, i + 1, g) && g != h {
                        let w = choose|w: int|
                            0 <= w < i + 1 && (#[trigger] vnode_hash_of(node_name@, w)) == g;
                        assert(w != i);
                        assert(is_vnode_hash(node_name@, i as int, g));
                    }
                    if g == h {
                        assert(is_vnode_hash(node_name@, i + 1, g)) by {
                            assert(vnode_hash_of(node_name@, i as int) == g);
                        }
                    }
                }
            }
            i += 1;
        }
        let ghost nodes0 = self.nodes_view();
        self.nodes_remove(node_name);
        true
    }

    /// Drops one ring entry by position, when present.
    fn ring_remove_entry(&mut self, h: u64)
        ensures
            forall|g: u64, m: Seq<u8>|
                #[trigger] final(self).ring_view().contains((g, m)) <==> (old(
                    self,
                ).ring_view().contains((g, m)) && g != h),
            final(self).nodes_view() == old(self).nodes_view(),
    {
        proof {
            use_type_invariant(&*self);
        }
        let mut rvec: Vec<(u64, Vec<u8>)> = Vec::new();
        core::mem::swap(&mut rvec, &mut self.ring);
        let ghost before = ring_entries_view(rvec@);
        let n = rvec.len();
        let mut idx: usize = 0;
        let mut found = false;
        while idx < n && !found
            invariant
                n == rvec@.len(),
                0 <= idx <= n,
                !found ==> forall|k: int| 0 <= k < idx ==> (#[trigger] rvec@[k]).0 != h,
                found ==> idx < n && rvec@[idx as int].0 == h,
            decreases n - idx, (if found { 0int } else { 1int }),
        {
            if rvec[idx].0 == h {
                found = true;
            } else {
                idx += 1;
            }
        }
        if found {
            let _ = rvec.remove(idx);
        }
        proof {
            if found {
                assert(ring_entries_view(rvec@) =~= before.remove(idx as int));
                assert forall|i: int, j: int|
                    0 <= i < j < rvec@.len() implies (#[trigger] rvec@[i]).0 < (
                #[trigger] rvec@[j]).0 by {
                    let bi: int = if i < idx {
                        i
                    } else {
                        i + 1
                    };
                    let bj: int = if j < idx {
                        j
                    } else {
                        j + 1
                    };
                    assert(rvec@[i].0 == before[bi].0);
                    assert(rvec@[j].0 == before[bj].0);
                }
            }
        }
        core::mem::swap(&mut rvec, &mut self.ring);
        proof {
            assert(self.nodes_view() =~= old(self).nodes_view());
            if found {
                assert forall|g: u64, m: Seq<u8>| #[trigger]
                    self.ring_view().contains((g, m)) <==> (before.contains((g, m)) && g != h) by {
                    lemma_remove_contains(before, idx as int, (g, m));
                    if self.ring_view().contains((g, m)) {
                        let w = choose|w: int|
                            0 <= w < self.ring_view().len() && (#[trigger] self.ring_view()[w]) == (
                            g,
                            m,
                            );
                        assert(g != h) by {
                            let bw: int = if w < idx {
                                w
                            } else {
                                w + 1
                            };
                            assert(self.ring_view()[w] == before[bw]);
                            if bw < idx {
                                assert(before[bw].0 < before[idx as int].0 || before[bw].0 != h);
                            } else {
                                assert(before[idx as int].0 < before[bw].0);
                            }
                        }
                    }
                    if before.contains((g, m)) && g != h {
                        let w = choose|w: int|
                            0 <= w < before.len() && (#[trigger] before[w]) == (g, m);
                        assert(w != idx);
                        if w < idx {
                            assert(self.ring_view()[w] == (g, m));
                        } else {
                            assert(self.ring_view()[w - 1] == (g, m));
                        }
                    }
                }
            } else {
                assert forall|g: u64, m: Seq<u8>| #[trigger]
                    self.ring_view().contains((g, m)) <==> (before.contains((g, m)) && g != h) by {
                    if self.ring_view().contains((g, m)) {
                        let w = choose|w: int|
                            0 <= w < self.ring_view().len() && (#[trigger] self.ring_view()[w]) == (
                            g,
                            m,
                            );
                        assert(self.ring@[w].0 != h);
                    }
                }
            }
        }
    }

    /// Drops a node-table entry by name.
    fn nodes_remove(&mut self, node_name: &Vec<u8>)
        ensures
            final(self).ring_view() == old(self).ring_view(),
            forall|nm: Seq<u8>|
                #[trigger] node_count_of(final(self).nodes_view(), nm) == (if nm == node_name@ {
                    None
                } else {
                    node_count_of(old(self).nodes_view(), nm)
                }),
    {
        proof {
            use_type_invariant(&*self);
        }
        let mut nvec: Vec<(Vec<u8>, usize)> = Vec::new();
        core::mem::swap(&mut nvec, &mut self.nodes);
        let ghost before = nodes_view_of(nvec@);
        let n = nvec.len();
        let mut idx: usize = 0;
        let mut found = false;
        while idx < n && !found
            invariant
                n == nvec@.len(),
                0 <= idx <= n,
                !found ==> forall|k: int| 0 <= k < idx ==> (#[trigger] nvec@[k]).0@ != node_name@,
                found ==> idx < n && nvec@[idx as int].0@ == node_name@,
            decreases n - idx, (if found { 0int } else { 1int }),
        {
            if bytes_eq(&nvec[idx].0, node_name) {
                found = true;
            } else {
                idx += 1;
            }
        }
        if found {
            let _ = nvec.remove(idx);
        }
        proof {
            if found {
                assert(nodes_view_of(nvec@) =~= before.remove(idx as int));
                assert forall|i: int, j: int|
                    0 <= i < j < nvec@.len() implies (#[trigger] nvec@[i]).0@ != (
                #[trigger] nvec@[j]).0@ by {
                    let bi: int = if i < idx {
                        i
                    } else {
                        i + 1
                    };
                    let bj: int = if j < idx {
                        j
                    } else {
                        j + 1
                    };
                    assert(nvec@[i].0@ == before[bi].0);
                    assert(nvec@[j].0@ == before[bj].0);
                }
            }
        }
        core::mem::swap(&mut nvec, &mut self.nodes);
        proof {
            assert(self.ring_view() =~= old(self).ring_view());
            if found {
                assert forall|nm: Seq<u8>| #[trigger]
                    node_count_of(self.nodes_view(), nm) == (if nm == node_name@ {
                        None
                    } else {
                        node_count_of(old(self).nodes_view(), nm)
                    }) by {
                    assert(self.nodes_view() =~= before.remove(idx as int));
                    lemma_node_count_remove(before, idx as int, nm);
                }
            } else {
                assert forall|nm: Seq<u8>| #[trigger]
                    node_count_of(self.nodes_view(), nm) == (if nm == node_name@ {
                        None
                    } else {
                        node_count_of(old(self).nodes_view(), nm)
                    }) by {
                    lemma_node_count_not_found(self.nodes_view(), node_name@, nm);
                }
            }
        }
    }

    /// The node a key routes to: the owner of the first virtual node at or
    /// clockwise after the key's hash; an empty ring routes nowhere.
    pub fn get_node(&self, key: &Vec<u8>) -> (r: Option<Vec<u8>>)
        ensures
            self.ring_view().len() == 0 <==> r is None,
            r is Some ==> r->Some_0@ == successor_of(self.ring_view(), ring_hash_of(key@)),
    {
        if self.ring.len() == 0 {
            return None;
        }
        let h = ring_hash(key);
        let n = self.ring.len();
        let mut i: usize = 0;
        proof {
            assert(self.ring_view().skip(0) =~= self.ring_view());
        }
        while i < n
            invariant
                n == self.ring@.len(),
                n >= 1,
                0 <= i <= n,
                h == ring_hash_of(key@),
                first_at_least(self.ring_view(), h) == first_at_least(
                    self.ring_view().skip(i as int),
                    h,
                ),
            decreases n - i,
        {
            proof {
                assert(self.ring_view().skip(i as int)[0] == self.ring_view()[i as int]);
                assert(self.ring_view().skip(i as int).drop_first() =~= self.ring_view().skip(
                    i + 1,
                ));
            }
            if self.ring[i].0 >= h {
                return Some(scalar_clone(&self.ring[i].1));
            }
            i += 1;
        }
        proof {
            assert(self.ring_view().skip(n as int) =~= Seq::<(u64, Seq<u8>)>::empty());
        }
        Some(scalar_clone(&self.ring[0].1))
    }

    /// Up to `count` distinct nodes for a key: the owners met walking
    /// clockwise from the key's hash, wrapping once.
    pub fn get_nodes(&self, key: &Vec<u8>, count: usize) -> (r: Vec<Vec<u8>>)
        ensures
            pv(r@).no_duplicates(),
            r@.len() <= count,
            self.ring_view().len() == 0 || count == 0 ==> r@.len() == 0,
            self.ring_view().len() > 0 && count > 0 ==> r@.len() >= 1 && r@[0]@ == successor_of(
                self.ring_view(),
                ring_hash_of(key@),
            ),
    {
        let mut out: Vec<Vec<u8>> = Vec::new();
        if self.ring.len() == 0 || count == 0 {
            proof {
                assert(pv(out@) =~= Seq::<Seq<u8>>::empty());
            }
            return out;
        }
        let h = ring_hash(key);
        let n = self.ring.len();
        let mut start: usize = 0;
        while start < n && self.ring[start].0 < h
            invariant
                n == self.ring@.len(),
                0 <= start <= n,
                forall|k: int| 0 <= k < start ==> (#[trigger] self.ring@[k]).0 < h,
            decreases n - start,
        {
            start += 1;
        }
        proof {
            assert(pv(out@) =~= Seq::<Seq<u8>>::empty());
            assert(forall|k: int|
                0 <= k < start ==> (#[trigger] self.ring_view()[k]).0 == self.ring@[k].0);
            assert(start < n ==> self.ring_view()[start as int].0 == self.ring@[start as int].0);
            lemma_first_at_least_index(self.ring_view(), h, start as int);
        }
        let mut step: usize = 0;
        while step < n
            invariant
                n == self.ring@.len(),
                n >= 1,
                0 <= step <= n,
                start <= n,
                count >= 1,
                h == ring_hash_of(key@),
                pv(out@).no_duplicates(),
                out@.len() <= count,
                step == 0 ==> out@.len() == 0,
                start < n ==> first_at_least(self.ring_view(), h) == Some(
                    self.ring_view()[start as int].1,
                ),
                start == n ==> first_at_least(self.ring_view(), h) is None,
                step > 0 ==> out@.len() >= 1 && out@[0]@ == successor_of(self.ring_view(), h),
            decreases n - step,
        {
            if out.len() >= count {
                return out;
            }
            let pos = if step >= n - start {
                step - (n - start)
            } else {
                start + step
            };
            let ghost before = pv(out@);
            if !crate::mpt_utils::tokens_contain(&out, &self.ring[pos].1) {
                out.push(scalar_clone(&self.ring[pos].1));
                proof {
                    assert(pv(out@) =~= before.push(self.ring@[pos as int].1@));
                    lemma_ring_push_no_dups(before, self.ring@[pos as int].1@);
                }
            }
            proof {
                if step == 0 {
                    assert(self.ring_view()[pos as int].1 == self.ring@[pos as int].1@);
                    assert(out@[0]@ == self.ring@[pos as int].1@);
                    assert(out@[0]@ == successor_of(self.ring_view(), h));
                }
            }
            step += 1;
        }
        out
    }

    /// The recorded node names.
    pub fn get_all_nodes(&self) -> (r: Vec<Vec<u8>>)
        ensures
            pv(r@) == Seq::new(self.nodes_view().len(), |i: int| self.nodes_view()[i].0),
    {
        let mut out: Vec<Vec<u8>> = Vec::new();
        let n = self.nodes.len();
        let mut i: usize = 0;
        while i < n
            invariant
                n == self.nodes@.len(),
                0 <= i <= n,
                out@.len() == i,
                forall|k: int| 0 <= k < i ==> #[trigger] out@[k]@ == self.nodes@[k].0@,
            decreases n - i,
        {
            out.push(scalar_clone(&self.nodes[i].0));
            i += 1;
        }
        proof {
            assert(pv(out@) =~= Seq::new(self.nodes_view().len(), |i: int| self.nodes_view()[i].0));
        }
        out
    }

    /// The number of physical nodes.
    pub fn node_count(&self) -> (r: usize)
        ensures
            r == self.nodes_view().len(),
    {
        self.nodes.len()
    }

    /// The number of virtual nodes on the ring.
    pub fn virtual_node_count(&self) -> (r: usize)
        ensures
            r == self.ring_view().len(),
            self.ring_sorted(),
    {
        proof {
            use_type_invariant(self);
        }
        self.ring.len()
    }

    /// Whether the ring has no nodes.
    pub fn is_empty(&self) -> (r: bool)
        ensures
            r == (self.nodes_view().len() == 0),
    {
        self.nodes.len() == 0
    }

    /// How many of the given keys each node receives: a node is listed with
    /// the number of keys whose owner it is, and a node that owns no key is
    /// not listed.
    pub fn get_distribution(&self, keys: &Vec<Vec<u8>>) -> (r: Vec<(Vec<u8>, usize)>)
        ensures
            forall|p: int, q: int|
                0 <= p < q < r@.len() ==> (#[trigger] r@[p]).0@ != (#[trigger] r@[q]).0@,
            forall|j: int|
                0 <= j < r@.len() ==> (#[trigger] r@[j]).1 == routed_count(
                    self.ring_view(),
                    pv(keys@),
                    r@[j].0@,
                ) && r@[j].1 >= 1,
            forall|nm: Seq<u8>|
                #[trigger] routed_count(self.ring_view(), pv(keys@), nm) != 0 ==> exists|j: int|
                    0 <= j < r@.len() && (#[trigger] r@[j]).0@ == nm,
    {
        let ghost rv = self.ring_view();
        let ghost pk = pv(keys@);
        let mut counts: Vec<(Vec<u8>, usize)> = Vec::new();
        let n = keys.len();
        let mut i: usize = 0;
        proof {
            assert(pk.take(0) =~= Seq::<Seq<u8>>::empty());
        }
        while i < n
            invariant
                n == keys@.len(),
                0 <= i <= n,
                rv == self.ring_view(),
                pk == pv(keys@),
                forall|p: int, q: int|
                    0 <= p < q < counts@.len() ==> (#[trigger] counts@[p]).0@ != (
                    #[trigger] counts@[q]).0@,
                forall|j: int|
                    0 <= j < counts@.len() ==> (#[trigger] counts@[j]).1 == routed_count(
                        rv,
                        pk.take(i as int),
                        counts@[j].0@,
                    ) && counts@[j].1 >= 1,
                forall|nm: Seq<u8>|
                    #[trigger] routed_count(rv, pk.take(i as int), nm) != 0 ==> exists|j: int|
                        0 <= j < counts@.len() && (#[trigger] counts@[j]).0@ == nm,
            decreases n - i,
        {
            let ghost took = pk.take(i as int);
            proof {
                assert(pk.take(i + 1) =~= took.push(pk[i as int]));
            }
            match self.get_node(&keys[i]) {
                Some(node) => {
                    let ghost nmv = node@;
                    proof {
                        assert(nmv == successor_of(rv, ring_hash_of(pk[i as int])));
                    }
                    let mut jfound: Option<usize> = None;
                    let mut j: usize = 0;
                    while j < counts.len() && jfound.is_none()
                        invariant
                            jfound is None ==> forall|k: int|
                                0 <= k < j ==> (#[trigger] counts@[k]).0@ != nmv,
                            jfound is Some ==> jfound->Some_0 < counts@.len()
                                && counts@[jfound->Some_0 as int].0@ == nmv,
                            nmv == node@,
                            0 <= j <= counts@.len(),
                        decreases counts@.len() - j, (if jfound is None {
                            1int
                        } else {
                            0int
                        }),
                    {
                        if bytes_eq(&counts[j].0, &node) {
                            jfound = Some(j);
                        } else {
                            j += 1;
                        }
                    }
                    match jfound {
                        Some(idx) => {
                            let ghost before = counts@;
                            let entry = counts.remove(idx);
                            proof {
                                lemma_routed_le(rv, took, nmv);
                            }
                            let entry2 = (entry.0, entry.1 + 1);
                            counts.insert(idx, entry2);
                            proof {
                                assert(counts@ =~= before.update(
                                    idx as int,
                                    (before[idx as int].0, entry2.1),
                                ));
                                assert forall|jj: int|
                                    0 <= jj < counts@.len() implies (#[trigger] counts@[jj]).1
                                    == routed_count(rv, pk.take(i + 1), counts@[jj].0@)
                                    && counts@[jj].1 >= 1 by {
                                    lemma_routed_push(rv, took, pk[i as int], counts@[jj].0@);
                                    if jj != idx {
                                        assert(counts@[jj] == before[jj]);
                                        assert(before[jj].0@ != before[idx as int].0@);
                                    }
                                }
                                assert forall|nm: Seq<u8>| #[trigger]
                                    routed_count(rv, pk.take(i + 1), nm) != 0 implies exists|jj: int|
                                    0 <= jj < counts@.len() && (#[trigger] counts@[jj]).0@
                                        == nm by {
                                    lemma_routed_push(rv, took, pk[i as int], nm);
                                    if routed_count(rv, took, nm) != 0 {
                                        let jj = choose|jj: int|
                                            0 <= jj < before.len() && (#[trigger] before[jj]).0@
                                                == nm;
                                        assert(counts@[jj].0@ == nm);
                                    } else {
                                        assert(nm == nmv);
                                        assert(counts@[idx as int].0@ == nm);
                                    }
                                }
                            }
                        },
                        None => {
                            let ghost before = counts@;
                            counts.push((node, 1));
                            proof {
                                assert(counts@ =~= before.push(
                                    (counts@.last().0, counts@.last().1),
                                ));
                                assert(counts@.last().0@ == nmv);
                                lemma_routed_le(rv, took, nmv);
                                assert forall|jj: int|
                                    0 <= jj < counts@.len() implies (#[trigger] counts@[jj]).1
                                    == routed_count(rv, pk.take(i + 1), counts@[jj].0@)
                                    && counts@[jj].1 >= 1 by {
                                    lemma_routed_push(rv, took, pk[i as int], counts@[jj].0@);
                                    if jj < counts@.len() - 1 {
                                        assert(counts@[jj] == before[jj]);
                                        assert(counts@[jj].0@ != nmv);
                                    } else {
                                        assert(routed_count(rv, took, nmv) == 0) by {
                                            if routed_count(rv, took, nmv) != 0 {
                                                let k = choose|k: int|
                                                    0 <= k < before.len() && (
                                                    #[trigger] before[k]).0@ == nmv;
                                                assert(false);
                                            }
                                        }
                                    }
                                }
                                assert forall|nm: Seq<u8>| #[trigger]
                                    routed_count(rv, pk.take(i + 1), nm) != 0 implies exists|jj: int|
                                    0 <= jj < counts@.len() && (#[trigger] counts@[jj]).0@
                                        == nm by {
                                    lemma_routed_push(rv, took, pk[i as int], nm);
                                    if routed_count(rv, took, nm) != 0 {
                                        let jj = choose|jj: int|
                                            0 <= jj < before.len() && (#[trigger] before[jj]).0@
                                                == nm;
                                        assert(counts@[jj].0@ == nm);
                                    } else {
                                        assert(counts@[counts@.len() - 1].0@ == nm);
                                    }
                                }
                            }
                        },
                    }
                },
                None => {
                    proof {
                        assert(rv.len() == 0);
                        assert forall|jj: int|
                            0 <= jj < counts@.len() implies (#[trigger] counts@[jj]).1
                            == routed_count(rv, pk.take(i + 1), counts@[jj].0@) && counts@[jj].1
                            >= 1 by {
                            lemma_routed_push(rv, took, pk[i as int], counts@[jj].0@);
                        }
                        assert forall|nm: Seq<u8>| #[trigger]
                            routed_count(rv, pk.take(i + 1), nm) != 0 implies exists|jj: int|
                            0 <= jj < counts@.len() && (#[trigger] counts@[jj]).0@ == nm by {
                            lemma_routed_push(rv, took, pk[i as int], nm);
                        }
                    }
                },
            }
            i += 1;
        }
        proof {
            assert(pk.take(n as int) =~= pk);
        }
        counts
    }
}

proof fn lemma_update_contains(s: Seq<(u64, Seq<u8>)>, i: int, v: (u64, Seq<u8>), x: (u64, Seq<u8>))
    requires
        0 <= i < s.len(),
    ensures
        s.update(i, v).contains(x) ==> (x == v || (s.contains(x) && exists|w: int|
            0 <= w < s.len() && w != i && s[w] == x)),
        x == v ==> s.update(i, v).contains(x),
{
    if s.update(i, v).contains(x) {
        let w = choose|w: int| 0 <= w < s.update(i, v).len() && (#[trigger] s.update(i, v)[w]) == x;
        if w != i {
            assert(s[w] == x);
        }
    }
    if x == v {
        assert(s.update(i, v)[i] == x);
    }
}

proof fn lemma_insert_contains(s: Seq<(u64, Seq<u8>)>, i: int, v: (u64, Seq<u8>), x: (u64, Seq<u8>))
    requires
        0 <= i <= s.len(),
    ensures
        s.insert(i, v).contains(x) <==> (x == v || s.contains(x)),
{
    if s.insert(i, v).contains(x) {
        let w = choose|w: int| 0 <= w < s.insert(i, v).len() && (#[trigger] s.insert(i, v)[w]) == x;
        if w < i {
            assert(s[w] == x);
        } else if w > i {
            assert(s[w - 1] == x);
        }
    }
    if x == v {
        assert(s.insert(i, v)[i] == x);
    }
    if s.contains(x) {
        let w = choose|w: int| 0 <= w < s.len() && (#[trigger] s[w]) == x;
        if w < i {
            assert(s.insert(i, v)[w] == x);
        } else {
            assert(s.insert(i, v)[w + 1] == x);
        }
    }
}

proof fn lemma_remove_contains(s: Seq<(u64, Seq<u8>)>, i: int, x: (u64, Seq<u8>))
    requires
        0 <= i < s.len(),
    ensures
        s.remove(i).contains(x) ==> s.contains(x),
{
    if s.remove(i).contains(x) {
        let w = choose|w: int| 0 <= w < s.remove(i).len() && (#[trigger] s.remove(i)[w]) == x;
        if w < i {
            assert(s[w] == x);
        } else {
            assert(s[w + 1] == x);
        }
    }
}

proof fn lemma_sorted_after_insert(
    before: Seq<(u64, Seq<u8>)>,
    after: Seq<(u64, Seq<u8>)>,
    idx: int,
    h: u64,
    name: Seq<u8>,
    i: int,
    j: int,
)
    requires
        forall|p: int, q: int|
            0 <= p < q < before.len() ==> (#[trigger] before[p]).0 < (#[trigger] before[q]).0,
        0 <= idx <= before.len(),
        forall|k: int| 0 <= k < idx ==> (#[trigger] before[k]).0 < h,
        (after == before.insert(idx, (h, name)) && (idx == before.len() || before[idx].0 > h)) || (
        idx < before.len() && before[idx].0 == h && after == before.update(idx, (h, name))),
        0 <= i < j < after.len(),
    ensures
        after[i].0 < after[j].0,
{
    if after == before.insert(idx, (h, name)) && (idx == before.len() || before[idx].0 > h) {
        if i == idx {
            assert(after[i].0 == h);
            assert(after[j] == before[j - 1]);
            assert(j - 1 >= idx);
            if j - 1 > idx {
                assert(before[idx].0 < before[j - 1].0);
            }
        } else if j == idx {
            assert(after[j].0 == h);
            assert(after[i] == before[i]);
        } else {
            let bi: int = if i < idx {
                i
            } else {
                i - 1
            };
            let bj: int = if j < idx {
                j
            } else {
                j - 1
            };
            assert(after[i] == before[bi]);
            assert(after[j] == before[bj]);
        }
    } else {
        if i == idx {
            assert(after[i].0 == h);
            assert(after[j] == before[j]);
            assert(before[idx].0 < before[j].0);
        } else if j == idx {
            assert(after[j].0 == h);
            assert(after[i] == before[i]);
            if i < idx {
            } else {
                assert(before[i].0 < before[idx].0);
            }
        } else {
            assert(after[i] == before[i]);
            assert(after[j] == before[j]);
        }
    }
}

proof fn lemma_node_lookup_contains(nodes: Seq<(Seq<u8>, usize)>, name: Seq<u8>)
    requires
        node_count_of(nodes, name) is None,
    ensures
        forall|k: int| 0 <= k < nodes.len() ==> (#[trigger] nodes[k]).0 != name,
    decreases nodes.len(),
{
    if nodes.len() > 0 {
        lemma_node_lookup_contains(nodes.drop_first(), name);
        assert(forall|k: int|
            1 <= k < nodes.len() ==> (#[trigger] nodes[k]) == nodes.drop_first()[k - 1]);
    }
}

proof fn lemma_node_count_remove(before: Seq<(Seq<u8>, usize)>, idx: int, nm: Seq<u8>)
    requires
        0 <= idx < before.len(),
        forall|p: int, q: int|
            0 <= p < q < before.len() ==> (#[trigger] before[p]).0 != (#[trigger] before[q]).0,
        forall|k: int| 0 <= k < idx ==> (#[trigger] before[k]).0 != before[idx].0,
    ensures
        node_count_of(before.remove(idx), nm) == (if nm == before[idx].0 {
            None
        } else {
            node_count_of(before, nm)
        }),
    decreases idx,
{
    if idx == 0 {
        assert(before.remove(0) =~= before.drop_first());
        if nm == before[0].0 {
            lemma_node_count_absent(before.drop_first(), nm, before);
        }
    } else {
        assert(before.remove(idx).drop_first() =~= before.drop_first().remove(idx - 1));
        assert(before.remove(idx)[0] == before[0]);
        assert(forall|k: int|
            0 <= k < idx - 1 ==> (#[trigger] before.drop_first()[k]).0 == before[k + 1].0);
        lemma_node_count_remove(before.drop_first(), idx - 1, nm);
        assert(before.drop_first()[idx - 1] == before[idx]);
    }
}

proof fn lemma_node_count_absent(nodes: Seq<(Seq<u8>, usize)>, nm: Seq<u8>, whole: Seq<(Seq<u8>, usize)>)
    requires
        forall|p: int, q: int|
            0 <= p < q < whole.len() ==> (#[trigger] whole[p]).0 != (#[trigger] whole[q]).0,
        whole.len() >= 1,
        nm == whole[0].0,
        nodes == whole.drop_first(),
    ensures
        node_count_of(nodes, nm) is None,
{
    assert(forall|k: int| 0 <= k < nodes.len() ==> (#[trigger] nodes[k]) == whole[k + 1]);
    lemma_node_count_none_of_all(nodes, nm);
}

proof fn lemma_node_count_none_of_all(nodes: Seq<(Seq<u8>, usize)>, nm: Seq<u8>)
    requires
        forall|k: int| 0 <= k < nodes.len() ==> (#[trigger] nodes[k]).0 != nm,
    ensures
        node_count_of(nodes, nm) is None,
    decreases nodes.len(),
{
    if nodes.len() > 0 {
        assert(forall|k: int|
            0 <= k < nodes.drop_first().len() ==> (#[trigger] nodes.drop_first()[k]) == nodes[k
                + 1]);
        lemma_node_count_none_of_all(nodes.drop_first(), nm);
    }
}

proof fn lemma_node_count_not_found(nodes: Seq<(Seq<u8>, usize)>, name: Seq<u8>, nm: Seq<u8>)
    requires
        forall|k: int| 0 <= k < nodes.len() ==> (#[trigger] nodes[k]).0 != name,
    ensures
        node_count_of(nodes, nm) == (if nm == name {
            None
        } else {
            node_count_of(nodes, nm)
        }),
{
    if nm == name {
        lemma_node_count_none_of_all(nodes, nm);
    }
}

proof fn lemma_ring_push_no_dups(s: Seq<Seq<u8>>, x: Seq<u8>)
    requires
        s.no_duplicates(),
        !s.contains(x),
    ensures
        s.push(x).no_duplicates(),
{
    let t = s.push(x);
    assert forall|p: int, q: int| 0 <= p < q < t.len() implies t[p] != t[q] by {
        if q == s.len() {
            if t[p] == t[q] {
                assert(s.contains(x)) by {
                    assert(s[p] == x);
                }
            }
        }
    }
}

impl Default for ConsistentHashRing {
    fn default() -> (r: Self)
        ensures
            r.ring_view().len() == 0,
            r.nodes_view().len() == 0,
    {
        ConsistentHashRing::new()
    }
}

} // verus!
