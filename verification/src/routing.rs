//! Keyword routing: the consistent hash ring over the storage nodes,
//! together with their addresses.
use vstd::prelude::*;

use crate::poly::{bytes_eq, scalar_clone};
use crate::ring::{dec_bytes, ConsistentHashRing};

verus! {

/// The address bound to a node name.
pub open spec fn addr_of(addrs: Seq<(Seq<u8>, Seq<u8>)>, name: Seq<u8>) -> Option<Seq<u8>>
    decreases addrs.len(),
{
    if addrs.len() == 0 {
        None
    } else if addrs[0].0 == name {
        Some(addrs[0].1)
    } else {
        addr_of(addrs.drop_first(), name)
    }
}

/// The router: the hash ring and the node-name to address table.
pub struct Router {
    hash_ring: ConsistentHashRing,
    storager_addrs: Vec<(Vec<u8>, Vec<u8>)>,
}

/// The generated name of the storage node at an index: `storager-<idx>`.
pub open spec fn storager_name_of(idx: int) -> Seq<u8> {
    seq![
        115u8,
        116u8,
        111u8,
        114u8,
        97u8,
        103u8,
        101u8,
        114u8,
        45u8,
    ] + crate::ring::dec_of(
        if idx >= 0 {
            idx as u64
        } else {
            0
        },
    )
}

/// Builds the generated name of the storage node at an index.
pub(crate) fn storager_name(idx: usize) -> (r: Vec<u8>)
    ensures
        r@ == storager_name_of(idx as int),
{
    let mut out: Vec<u8> = Vec::new();
    out.push(115);
    out.push(116);
    out.push(111);
    out.push(114);
    out.push(97);
    out.push(103);
    out.push(101);
    out.push(114);
    out.push(45);
    let d = dec_bytes(idx as u64);
    crate::mpt_node::append_bytes(&mut out, &d);
    proof {
        assert(out@ =~= storager_name_of(idx as int));
    }
    out
}

impl Router {
    /// The address table.
    pub closed spec fn addrs_view(self) -> Seq<(Seq<u8>, Seq<u8>)> {
        Seq::new(self.storager_addrs@.len(), |i: int| (self.storager_addrs@[i].0@, self.storager_addrs@[i].1@))
    }

    /// A router over the given storage-node addresses: node `i` is named
    /// `storager-<i>` and placed on the ring with the given number of
    /// virtual nodes.
    pub fn new(storager_addrs: &Vec<Vec<u8>>, virtual_nodes_per_storager: usize) -> (r: Self)
        ensures
            r.addrs_view().len() == storager_addrs@.len(),
    {
        let mut hash_ring = ConsistentHashRing::new();
        let mut addr_map: Vec<(Vec<u8>, Vec<u8>)> = Vec::new();
        let n = storager_addrs.len();
        let mut i: usize = 0;
        while i < n
            invariant
                n == storager_addrs@.len(),
                0 <= i <= n,
                addr_map@.len() == i,
            decreases n - i,
        {
            let name = storager_name(i);
            let _ = hash_ring.add_node(&name, virtual_nodes_per_storager);
            addr_map.push((name, scalar_clone(&storager_addrs[i])));
            i += 1;
        }
        Router { hash_ring, storager_addrs: addr_map }
    }

    /// The node a keyword routes to, with its address.
    pub fn get_storager_for_keyword(&self, keyword: &Vec<u8>) -> (r: Option<(Vec<u8>, Vec<u8>)>)
        ensures
            r is Some ==> addr_of(self.addrs_view(), r->Some_0.0@) == Some(r->Some_0.1@),
    {
        let node_name = match self.hash_ring.get_node(keyword) {
            Some(n) => n,
            None => {
                return None;
            },
        };
        match self.lookup_addr(&node_name) {
            Some(addr) => Some((node_name, addr)),
            None => None,
        }
    }

    /// The address bound to a node name.
    fn lookup_addr(&self, name: &Vec<u8>) -> (r: Option<Vec<u8>>)
        ensures
            r is Some ==> addr_of(self.addrs_view(), name@) == Some(r->Some_0@),
            r is None ==> addr_of(self.addrs_view(), name@) is None,
    {
        let n = self.storager_addrs.len();
        let mut i: usize = 0;
        proof {
            assert(self.addrs_view().skip(0) =~= self.addrs_view());
        }
        while i < n
            invariant
                n == self.storager_addrs@.len(),
                0 <= i <= n,
                addr_of(self.addrs_view(), name@) == addr_of(
                    self.addrs_view().skip(i as int),
                    name@,
                ),
            decreases n - i,
        {
            proof {
                assert(self.addrs_view().skip(i as int)[0] == self.addrs_view()[i as int]);
                assert(self.addrs_view().skip(i as int).drop_first() =~= self.addrs_view().skip(
                    i + 1,
                ));
            }
            if bytes_eq(&self.storager_addrs[i].0, name) {
                return Some(scalar_clone(&self.storager_addrs[i].1));
            }
            i += 1;
        }
        proof {
            assert(self.addrs_view().skip(n as int) =~= Seq::<(Seq<u8>, Seq<u8>)>::empty());
        }
        None
    }

    /// Adds a storage node, named after the next index.
    pub fn add_storager(&mut self, addr: Vec<u8>, virtual_nodes: usize)
        ensures
            final(self).addrs_view().len() == old(self).addrs_view().len() + 1,
    {
        let idx = self.storager_addrs.len();
        let name = storager_name(idx);
        let _ = self.hash_ring.add_node(&name, virtual_nodes);
        self.storager_addrs.push((name, addr));
        proof {
            assert(self.addrs_view() =~= old(self).addrs_view().push(
                (self.storager_addrs@.last().0@, self.storager_addrs@.last().1@),
            ));
        }
    }

    /// Removes a storage node by name.
    pub fn remove_storager(&mut self, node_name: &Vec<u8>)
    {
        let _ = self.hash_ring.remove_node(node_name);
        let mut kept: Vec<(Vec<u8>, Vec<u8>)> = Vec::new();
        while self.storager_addrs.len() > 0
            invariant
                true,
            decreases self.storager_addrs@.len(),
        {
            let entry = self.storager_addrs.remove(0);
            if !bytes_eq(&entry.0, node_name) {
                kept.push(entry);
            }
        }
        self.storager_addrs = kept;
    }

    /// Every storage node with its address.
    pub fn get_all_storagers(&self) -> (r: Vec<(Vec<u8>, Vec<u8>)>)
        ensures
            Seq::new(r@.len(), |i: int| (r@[i].0@, r@[i].1@)) == self.addrs_view(),
    {
        let mut out: Vec<(Vec<u8>, Vec<u8>)> = Vec::new();
        let n = self.storager_addrs.len();
        let mut i: usize = 0;
        while i < n
            invariant
                n == self.storager_addrs@.len(),
                0 <= i <= n,
                out@.len() == i,
                forall|k: int|
                    0 <= k < i ==> (#[trigger] out@[k]).0@ == self.storager_addrs@[k].0@
                        && out@[k].1@ == self.storager_addrs@[k].1@,
            decreases n - i,
        {
            out.push(
                (scalar_clone(&self.storager_addrs[i].0), scalar_clone(&self.storager_addrs[i].1)),
            );
            i += 1;
        }
        proof {
            assert(Seq::new(out@.len(), |i: int| (out@[i].0@, out@[i].1@)) =~= self.addrs_view());
        }
        out
    }

    /// The number of storage nodes.
    pub fn storager_count(&self) -> (r: usize)
        ensures
            r == self.addrs_view().len(),
    {
        self.storager_addrs.len()
    }
}

} // verus!
