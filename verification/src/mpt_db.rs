//! An in-memory key-value database for the trie.
//!
//! Entries are kept as a list of pairs; a later entry for a key shadows an
//! earlier one, and a delete drops every entry for the key.
use vstd::prelude::*;

use crate::mpt_error::MPTError;
use crate::mpt_node::Database;

verus! {

/// The value of the newest entry for a key, if any.
pub open spec fn lookup_entries(entries: Seq<(Seq<u8>, Seq<u8>)>, key: Seq<u8>) -> Option<Seq<u8>>
    decreases entries.len(),
{
    if entries.len() == 0 {
        None
    } else if entries.last().0 == key {
        Some(entries.last().1)
    } else {
        lookup_entries(entries.drop_last(), key)
    }
}

/// The entries with every binding of `key` removed.
pub open spec fn remove_entries(entries: Seq<(Seq<u8>, Seq<u8>)>, key: Seq<u8>) -> Seq<(Seq<u8>,
    Seq<u8>)>
    decreases entries.len(),
{
    if entries.len() == 0 {
        entries
    } else {
        let prev = remove_entries(entries.drop_last(), key);
        if entries.last().0 == key {
            prev
        } else {
            prev.push(entries.last())
        }
    }
}

/// An in-memory database.
pub struct MemoryDatabase {
    entries: Vec<(Vec<u8>, Vec<u8>)>,
}

impl MemoryDatabase {
    /// The stored entries, oldest first.
    pub closed spec fn entries_view(self) -> Seq<(Seq<u8>, Seq<u8>)> {
        Seq::new(self.entries@.len(), |i: int| (self.entries@[i].0@, self.entries@[i].1@))
    }

    /// An empty database.
    pub fn new() -> (r: Self)
        ensures
            r.entries_view() == Seq::<(Seq<u8>, Seq<u8>)>::empty(),
    {
        let r = MemoryDatabase { entries: Vec::new() };
        proof {
            assert(r.entries_view() =~= Seq::<(Seq<u8>, Seq<u8>)>::empty());
        }
        r
    }
}

impl Database for MemoryDatabase {
    open spec fn stored(&self, key: Seq<u8>) -> Option<Seq<u8>> {
        lookup_entries(self.entries_view(), key)
    }

    fn get(&mut self, key: &[u8]) -> (r: Result<Option<Vec<u8>>, MPTError>) {
        let mut i: usize = self.entries.len();
        proof {
            assert(self.entries_view().take(self.entries@.len() as int) =~= self.entries_view());
        }
        while i > 0
            invariant
                i <= self.entries@.len(),
                lookup_entries(self.entries_view(), key@) == lookup_entries(
                    self.entries_view().take(i as int),
                    key@,
                ),
            decreases i,
        {
            i -= 1;
            proof {
                assert(self.entries_view().take(i + 1).last() == self.entries_view()[i as int]);
                assert(self.entries_view().take(i + 1).drop_last() =~= self.entries_view().take(
                    i as int,
                ));
            }
            if slice_eq(self.entries[i].0.as_slice(), key) {
                return Ok(Some(crate::poly::scalar_clone(&self.entries[i].1)));
            }
        }
        proof {
            assert(self.entries_view().take(0) =~= Seq::<(Seq<u8>, Seq<u8>)>::empty());
        }
        Ok(None)
    }

    fn put(&mut self, key: &[u8], value: &[u8]) -> (r: Result<(), MPTError>) {
        let ghost before = self.entries_view();
        let mut k: Vec<u8> = Vec::new();
        k.extend_from_slice(key);
        let mut v: Vec<u8> = Vec::new();
        v.extend_from_slice(value);
        proof {
            assert(k@ =~= key@);
            assert(v@ =~= value@);
        }
        self.entries.push((k, v));
        proof {
            assert(self.entries_view() =~= before.push((key@, value@)));
            assert forall|q: Seq<u8>|
                lookup_entries(self.entries_view(), q) == (if q == key@ {
                    Some(value@)
                } else {
                    lookup_entries(before, q)
                }) by {
                assert(self.entries_view().last() == (key@, value@));
                assert(self.entries_view().drop_last() =~= before);
            }
        }
        Ok(())
    }

    fn delete(&mut self, key: &[u8]) -> (r: Result<(), MPTError>) {
        let ghost before = self.entries_view();
        let mut kept: Vec<(Vec<u8>, Vec<u8>)> = Vec::new();
        proof {
            assert(entries_of(kept@) + self.entries_view() =~= before);
        }
        while self.entries.len() > 0
            invariant
                forall|q: Seq<u8>|
                    q != key@ ==> #[trigger] lookup_entries(
                        entries_of(kept@) + self.entries_view(),
                        q,
                    ) == lookup_entries(before, q),
                forall|j: int| 0 <= j < kept@.len() ==> (#[trigger] kept@[j]).0@ != key@,
            decreases self.entries@.len(),
        {
            let ghost kv = entries_of(kept@);
            let ghost rv = self.entries_view();
            let entry = self.entries.remove(0);
            proof {
                assert(self.entries_view() =~= rv.drop_first());
            }
            if !slice_eq(entry.0.as_slice(), key) {
                let ghost ev = (entry.0@, entry.1@);
                kept.push(entry);
                proof {
                    assert(entries_of(kept@) =~= kv.push(ev));
                    assert(entries_of(kept@) + self.entries_view() =~= kv + rv);
                }
            } else {
                proof {
                    assert(rv[0].0 == key@);
                    assert forall|q: Seq<u8>|
                        q != key@ implies #[trigger] lookup_entries(
                            entries_of(kept@) + self.entries_view(),
                            q,
                        ) == lookup_entries(before, q) by {
                        lemma_lookup_drop_middle(kv, (rv[0].0, rv[0].1), rv.drop_first(), q, key@);
                        assert(kv + rv =~= kv + seq![(rv[0].0, rv[0].1)] + rv.drop_first());
                        assert(entries_of(kept@) + self.entries_view() =~= kv + rv.drop_first());
                    }
                }
            }
        }
        let ghost keptv = entries_of(kept@);
        let ghost remv = self.entries_view();
        self.entries = kept;
        proof {
            assert(remv.len() == 0);
            assert(keptv + remv =~= keptv);
            assert(self.entries_view() =~= keptv);
            assert forall|q: Seq<u8>|
                #[trigger] lookup_entries(self.entries_view(), q) == (if q == key@ {
                    None::<Seq<u8>>
                } else {
                    lookup_entries(before, q)
                }) by {
                if q == key@ {
                    assert(forall|j: int|
                        0 <= j < self.entries_view().len() ==> (
                        #[trigger] self.entries_view()[j]).0 != q);
                    lemma_lookup_none_when_absent(self.entries_view(), q);
                } else {
                    assert(lookup_entries(self.entries_view(), q) == lookup_entries(before, q));
                }
            }
        }
        Ok(())
    }
}

/// The view of a list of owned entries.
pub open spec fn entries_of(entries: Seq<(Vec<u8>, Vec<u8>)>) -> Seq<(Seq<u8>, Seq<u8>)> {
    Seq::new(entries.len(), |i: int| (entries[i].0@, entries[i].1@))
}

/// Dropping one entry whose key is not looked up leaves the lookup as it
/// was, and a key-matching entry's removal never resurrects older values
/// for other keys.
proof fn lemma_lookup_drop_middle(
    a: Seq<(Seq<u8>, Seq<u8>)>,
    e: (Seq<u8>, Seq<u8>),
    b: Seq<(Seq<u8>, Seq<u8>)>,
    q: Seq<u8>,
    key: Seq<u8>,
)
    requires
        e.0 == key,
    ensures
        q != e.0 ==> lookup_entries(a + seq![e] + b, q) == lookup_entries(a + b, q),
        q == e.0 ==> lookup_entries(a + seq![e] + b, q) == (match lookup_entries(b, q) {
            Some(v) => Some(v),
            None => Some(e.1),
        }) && (lookup_entries(a + b, q) == (match lookup_entries(b, q) {
            Some(v) => Some(v),
            None => lookup_entries(a, q),
        })),
    decreases b.len(),
{
    if b.len() == 0 {
        assert((a + seq![e] + b) =~= a.push(e));
        assert((a + b) =~= a);
        assert(a.push(e).drop_last() =~= a);
    } else {
        lemma_lookup_drop_middle(a, e, b.drop_last(), q, key);
        assert((a + seq![e] + b).last() == b.last());
        assert((a + seq![e] + b).drop_last() =~= a + seq![e] + b.drop_last());
        assert((a + b).last() == b.last());
        assert((a + b).drop_last() =~= a + b.drop_last());
    }
}

/// A key no entry carries looks up to nothing.
proof fn lemma_lookup_none_when_absent(entries: Seq<(Seq<u8>, Seq<u8>)>, q: Seq<u8>)
    requires
        forall|j: int| 0 <= j < entries.len() ==> (#[trigger] entries[j]).0 != q,
    ensures
        lookup_entries(entries, q) is None,
    decreases entries.len(),
{
    if entries.len() > 0 {
        assert(forall|j: int|
            0 <= j < entries.drop_last().len() ==> (#[trigger] entries.drop_last()[j])
                == entries[j]);
        lemma_lookup_none_when_absent(entries.drop_last(), q);
    }
}

/// Whether two byte slices hold the same bytes.
pub(crate) fn slice_eq(a: &[u8], b: &[u8]) -> (r: bool)
    ensures
        r == (a@ == b@),
{
    if a.len() != b.len() {
        assert(a@ != b@);
        return false;
    }
    let mut i: usize = 0;
    while i < a.len()
        invariant
            a@.len() == b@.len(),
            0 <= i <= a@.len(),
            forall|k: int| 0 <= k < i ==> a@[k] == b@[k],
        decreases a@.len() - i,
    {
        if crate::mpt_utils::slice_u8(a, i) != crate::mpt_utils::slice_u8(b, i) {
            assert(a@ != b@);
            return false;
        }
        i += 1;
    }
    proof {
        assert(a@ =~= b@);
    }
    true
}

} // verus!
