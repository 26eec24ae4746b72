//! Byte-level utilities of the Merkle-Patricia trie: the key/value pair with
//! its comma-separated posting-list operations, and the conversions between
//! keys, hex-nibble paths and hex-character suffixes.
use vstd::prelude::*;

use crate::poly::bytes_eq;

verus! {

/// The comma byte that separates posting-list tokens.
pub const COMMA: u8 = 44;

/// The splitter state: the tokens of `s` from `start` on, with `cur` the
/// token read so far and `acc` the tokens already read.
pub open spec fn split_csv_from(s: Seq<u8>, start: int, cur: Seq<u8>, acc: Seq<Seq<u8>>) -> Seq<
    Seq<u8>,
>
    decreases s.len() - start,
{
    if start >= s.len() {
        acc.push(cur)
    } else if s[start] == COMMA {
        split_csv_from(s, start + 1, Seq::empty(), acc.push(cur))
    } else {
        split_csv_from(s, start + 1, cur.push(s[start]), acc)
    }
}

/// The comma-separated tokens of a byte string.
pub open spec fn split_csv(s: Seq<u8>) -> Seq<Seq<u8>> {
    split_csv_from(s, 0, Seq::empty(), Seq::empty())
}

/// The tokens joined back with commas.
pub open spec fn join_csv(ts: Seq<Seq<u8>>) -> Seq<u8>
    decreases ts.len(),
{
    if ts.len() == 0 {
        Seq::empty()
    } else if ts.len() == 1 {
        ts[0]
    } else {
        join_csv(ts.drop_last()) + seq![COMMA] + ts.last()
    }
}

/// The tokens with every occurrence of `t` removed.
pub open spec fn remove_tok(ts: Seq<Seq<u8>>, t: Seq<u8>) -> Seq<Seq<u8>>
    decreases ts.len(),
{
    if ts.len() == 0 {
        ts
    } else {
        let prev = remove_tok(ts.drop_last(), t);
        if ts.last() == t {
            prev
        } else {
            prev.push(ts.last())
        }
    }
}

/// Splits a byte string into its comma-separated tokens.
pub(crate) fn split_tokens(s: &Vec<u8>) -> (r: Vec<Vec<u8>>)
    ensures
        crate::poly::pv(r@) == split_csv(s@),
{
    let mut acc: Vec<Vec<u8>> = Vec::new();
    let mut cur: Vec<u8> = Vec::new();
    let n = s.len();
    let mut i: usize = 0;
    proof {
        assert(cur@ =~= Seq::<u8>::empty());
        assert(crate::poly::pv(acc@) =~= Seq::<Seq<u8>>::empty());
    }
    while i < n
        invariant
            n == s@.len(),
            0 <= i <= n,
            split_csv(s@) == split_csv_from(s@, i as int, cur@, crate::poly::pv(acc@)),
        decreases n - i,
    {
        let ghost accv = crate::poly::pv(acc@);
        let ghost curv = cur@;
        if s[i] == COMMA {
            acc.push(cur);
            cur = Vec::new();
            proof {
                assert(crate::poly::pv(acc@) =~= accv.push(curv));
            }
        } else {
            cur.push(s[i]);
        }
        i += 1;
    }
    let ghost accv = crate::poly::pv(acc@);
    let ghost curv = cur@;
    acc.push(cur);
    proof {
        assert(crate::poly::pv(acc@) =~= accv.push(curv));
    }
    acc
}

/// Joins tokens with commas.
pub(crate) fn join_tokens(ts: &Vec<Vec<u8>>) -> (r: Vec<u8>)
    ensures
        r@ == join_csv(crate::poly::pv(ts@)),
{
    let mut out: Vec<u8> = Vec::new();
    let mut i: usize = 0;
    while i < ts.len()
        invariant
            0 <= i <= ts@.len(),
            out@ == join_csv(crate::poly::pv(ts@).take(i as int)),
        decreases ts@.len() - i,
    {
        if i > 0 {
            out.push(COMMA);
        }
        let mut k: usize = 0;
        let t = &ts[i];
        while k < t.len()
            invariant
                0 <= k <= t@.len(),
                t@ == crate::poly::pv(ts@)[i as int],
                0 <= i < ts@.len(),
                out@ == (if i == 0 {
                    Seq::<u8>::empty()
                } else {
                    join_csv(crate::poly::pv(ts@).take(i as int)) + seq![COMMA]
                }) + t@.take(k as int),
            decreases t@.len() - k,
        {
            out.push(t[k]);
            proof {
                assert(t@.take(k + 1) =~= t@.take(k as int).push(t@[k as int]));
            }
            k += 1;
        }
        proof {
            assert(t@.take(t@.len() as int) =~= t@);
            assert(crate::poly::pv(ts@).take(i + 1).drop_last() =~= crate::poly::pv(ts@).take(
                i as int,
            ));
            assert(crate::poly::pv(ts@).take(i + 1).last() == crate::poly::pv(ts@)[i as int]);
            if i == 0 {
                assert(out@ =~= join_csv(crate::poly::pv(ts@).take(1)));
            } else {
                assert(out@ =~= join_csv(crate::poly::pv(ts@).take(i + 1)));
            }
        }
        i += 1;
    }
    proof {
        assert(crate::poly::pv(ts@).take(ts@.len() as int) =~= crate::poly::pv(ts@));
    }
    out
}

/// Whether the tokens hold `t`.
pub(crate) fn tokens_contain(ts: &Vec<Vec<u8>>, t: &Vec<u8>) -> (r: bool)
    ensures
        r == crate::poly::pv(ts@).contains(t@),
{
    let mut i: usize = 0;
    while i < ts.len()
        invariant
            0 <= i <= ts@.len(),
            forall|k: int| 0 <= k < i ==> crate::poly::pv(ts@)[k] != t@,
        decreases ts@.len() - i,
    {
        if bytes_eq(&ts[i], t) {
            assert(crate::poly::pv(ts@)[i as int] == t@);
            return true;
        }
        i += 1;
    }
    proof {
        if crate::poly::pv(ts@).contains(t@) {
            let w = choose|w: int|
                0 <= w < crate::poly::pv(ts@).len() && crate::poly::pv(ts@)[w] == t@;
            assert(false);
        }
    }
    false
}

/// Removes every token equal to `t`.
pub(crate) fn tokens_remove(ts: &Vec<Vec<u8>>, t: &Vec<u8>) -> (r: Vec<Vec<u8>>)
    ensures
        crate::poly::pv(r@) == remove_tok(crate::poly::pv(ts@), t@),
{
    let mut out: Vec<Vec<u8>> = Vec::new();
    let mut i: usize = 0;
    proof {
        assert(crate::poly::pv(out@) =~= remove_tok(crate::poly::pv(ts@).take(0), t@));
    }
    while i < ts.len()
        invariant
            0 <= i <= ts@.len(),
            crate::poly::pv(out@) == remove_tok(crate::poly::pv(ts@).take(i as int), t@),
        decreases ts@.len() - i,
    {
        proof {
            assert(crate::poly::pv(ts@).take(i + 1).drop_last() =~= crate::poly::pv(ts@).take(
                i as int,
            ));
            assert(crate::poly::pv(ts@).take(i + 1).last() == crate::poly::pv(ts@)[i as int]);
        }
        if !bytes_eq(&ts[i], t) {
            let ghost before = crate::poly::pv(out@);
            out.push(crate::poly::scalar_clone(&ts[i]));
            proof {
                assert(crate::poly::pv(out@) =~= before.push(crate::poly::pv(ts@)[i as int]));
            }
        }
        i += 1;
    }
    proof {
        assert(crate::poly::pv(ts@).take(ts@.len() as int) =~= crate::poly::pv(ts@));
    }
    out
}

/// A key with its posting-list value: the value holds comma-separated
/// tokens, duplicate-free for a secondary index.
pub struct KVPair {
    key: Vec<u8>,
    value: Vec<u8>,
}

impl KVPair {
    /// The key bytes.
    pub closed spec fn key_view(self) -> Seq<u8> {
        self.key@
    }

    /// The value bytes.
    pub closed spec fn value_view(self) -> Seq<u8> {
        self.value@
    }

    /// Makes a pair of the given key and value.
    pub fn new(key: Vec<u8>, value: Vec<u8>) -> (r: Self)
        ensures
            r.key_view() == key@,
            r.value_view() == value@,
    {
        Self { key, value }
    }

    /// The key.
    pub fn get_key(&self) -> (r: &Vec<u8>)
        ensures
            r@ == self.key_view(),
    {
        &self.key
    }

    /// The value.
    pub fn get_value(&self) -> (r: &Vec<u8>)
        ensures
            r@ == self.value_view(),
    {
        &self.value
    }

    /// Adds a token to the posting list: sets it when the value is empty,
    /// appends it after a comma when absent, and reports whether the value
    /// changed.
    pub fn add_value(&mut self, new_value: &Vec<u8>) -> (r: bool)
        ensures
            old(self).value_view().len() == 0 ==> r == true && final(self).value_view()
                == new_value@,
            old(self).value_view().len() > 0 && split_csv(old(self).value_view()).contains(
                new_value@,
            ) ==> r == false && final(self).value_view() == old(self).value_view(),
            old(self).value_view().len() > 0 && !split_csv(old(self).value_view()).contains(
                new_value@,
            ) ==> r == true && final(self).value_view() == old(self).value_view() + seq![COMMA]
                + new_value@,
            final(self).key_view() == old(self).key_view(),
    {
        if self.value.len() == 0 {
            self.value = crate::poly::scalar_clone(new_value);
            return true;
        }
        let toks = split_tokens(&self.value);
        if tokens_contain(&toks, new_value) {
            return false;
        }
        self.value.push(COMMA);
        let mut k: usize = 0;
        let ghost base = old(self).value_view() + seq![COMMA];
        while k < new_value.len()
            invariant
                0 <= k <= new_value@.len(),
                self.value@ == base + new_value@.take(k as int),
                self.key@ == old(self).key@,
            decreases new_value@.len() - k,
        {
            self.value.push(new_value[k]);
            proof {
                assert(new_value@.take(k + 1) =~= new_value@.take(k as int).push(
                    new_value@[k as int],
                ));
            }
            k += 1;
        }
        proof {
            assert(new_value@.take(new_value@.len() as int) =~= new_value@);
        }
        true
    }

    /// Removes a token from the posting list: when present, every occurrence
    /// leaves and the rest is re-joined; reports whether the value changed.
    pub fn del_value(&mut self, del_value: &Vec<u8>) -> (r: bool)
        ensures
            !split_csv(old(self).value_view()).contains(del_value@) ==> r == false && final(self).value_view() == old(self).value_view(),
            split_csv(old(self).value_view()).contains(del_value@) ==> r == true && final(self).value_view() == join_csv(remove_tok(split_csv(old(self).value_view()), del_value@)),
            final(self).key_view() == old(self).key_view(),
    {
        let toks = split_tokens(&self.value);
        if !tokens_contain(&toks, del_value) {
            return false;
        }
        let kept = tokens_remove(&toks, del_value);
        self.value = join_tokens(&kept);
        true
    }
}

/// The low nibble of a byte, the index a branch uses for it.
pub fn byte_to_hex_index(byte: u8) -> (r: usize)
    ensures
        r == (byte & 0x0f) as usize,
        r < 16,
{
    let n = byte & 0x0f;
    assert(byte & 0x0f < 16) by (bit_vector);
    n as usize
}

/// The value of a hex-digit character, if it is one.
pub open spec fn hex_char_value(byte: u8) -> Option<usize> {
    if 48 <= byte <= 57 {
        Some((byte - 48) as usize)
    } else if 97 <= byte <= 102 {
        Some((byte - 97 + 10) as usize)
    } else if 65 <= byte <= 70 {
        Some((byte - 65 + 10) as usize)
    } else {
        None
    }
}

/// Reads a hex-digit character.
pub fn char_to_hex_index(byte: u8) -> (r: Option<usize>)
    ensures
        r == hex_char_value(byte),
{
    if 48 <= byte && byte <= 57 {
        Some((byte - 48) as usize)
    } else if 97 <= byte && byte <= 102 {
        Some((byte - 97 + 10) as usize)
    } else if 65 <= byte && byte <= 70 {
        Some((byte - 65 + 10) as usize)
    } else {
        None
    }
}

/// The hex character of a nibble, lowercase.
pub open spec fn nibble_char_of(n: u8) -> u8 {
    if n < 10 {
        (n + 48) as u8
    } else {
        (n - 10 + 97) as u8
    }
}

/// Writes a nibble as its lowercase hex character.
pub fn nibble_to_hex_char(n: u8) -> (r: u8)
    requires
        n < 16,
    ensures
        r == nibble_char_of(n),
{
    if n < 10 {
        n + 48
    } else {
        n - 10 + 97
    }
}

/// The hex-nibble path of a key: each byte split into its high and low
/// nibble.
pub open spec fn hex_path_of(key: Seq<u8>) -> Seq<u8>
    decreases key.len(),
{
    if key.len() == 0 {
        Seq::empty()
    } else {
        hex_path_of(key.drop_last()) + seq![(key.last() >> 4) & 0x0f, key.last() & 0x0f]
    }
}

/// Converts a key to its hex-nibble path.
pub fn key_to_hex_path(key: &Vec<u8>) -> (r: Vec<u8>)
    ensures
        r@ == hex_path_of(key@),
        r@.len() == 2 * key@.len(),
        forall|k: int| 0 <= k < r@.len() ==> #[trigger] r@[k] < 16,
{
    let mut out: Vec<u8> = Vec::new();
    let mut i: usize = 0;
    while i < key.len()
        invariant
            0 <= i <= key@.len(),
            out@ == hex_path_of(key@.take(i as int)),
            out@.len() == 2 * i,
            forall|k: int| 0 <= k < out@.len() ==> #[trigger] out@[k] < 16,
        decreases key@.len() - i,
    {
        let b = key[i];
        let hi = (b >> 4) & 0x0f;
        let lo = b & 0x0f;
        assert((b >> 4) & 0x0f < 16 && b & 0x0f < 16) by (bit_vector);
        out.push(hi);
        out.push(lo);
        proof {
            assert(key@.take(i + 1).drop_last() =~= key@.take(i as int));
            assert(key@.take(i + 1).last() == key@[i as int]);
            assert(out@ =~= hex_path_of(key@.take(i + 1)));
        }
        i += 1;
    }
    proof {
        assert(key@.take(key@.len() as int) =~= key@);
    }
    out
}

/// The bytes a nibble path stands for; a trailing odd nibble becomes a high
/// half-byte.
pub open spec fn hex_path_bytes_of(path: Seq<u8>) -> Seq<u8>
    decreases path.len(),
{
    if path.len() == 0 {
        Seq::empty()
    } else if path.len() == 1 {
        seq![(path[0] << 4) as u8]
    } else {
        seq![((path[0] << 4) | path[1]) as u8] + hex_path_bytes_of(path.skip(2))
    }
}

/// Reconstructs the key bytes from a nibble path.
pub fn hex_path_to_bytes(path: &Vec<u8>) -> (r: Vec<u8>)
    ensures
        r@ == hex_path_bytes_of(path@),
{
    let mut out: Vec<u8> = Vec::new();
    let n = path.len();
    let mut i: usize = 0;
    proof {
        assert(path@.skip(0) =~= path@);
        assert(out@ + hex_path_bytes_of(path@) =~= hex_path_bytes_of(path@));
    }
    while n - i >= 2
        invariant
            n == path@.len(),
            0 <= i <= n,
            hex_path_bytes_of(path@) == out@ + hex_path_bytes_of(path@.skip(i as int)),
        decreases n - i,
    {
        let ghost rest = path@.skip(i as int);
        let b = (path[i] << 4) | path[i + 1];
        out.push(b);
        proof {
            assert(rest.len() >= 2);
            assert(rest[0] == path@[i as int] && rest[1] == path@[i + 1]);
            assert(rest.skip(2) =~= path@.skip(i + 2));
        }
        i += 2;
    }
    if i < n {
        let ghost rest = path@.skip(i as int);
        let b = path[i] << 4;
        out.push(b);
        proof {
            assert(rest.len() == 1);
            assert(rest[0] == path@[i as int]);
        }
    } else {
        proof {
            assert(path@.skip(n as int) =~= Seq::<u8>::empty());
        }
    }
    out
}

/// Reconstructs the raw key from a nibble path; the bytes are handed back as
/// they are.
pub fn hex_path_to_key(path: &Vec<u8>) -> (r: Vec<u8>)
    ensures
        r@ == hex_path_bytes_of(path@),
{
    hex_path_to_bytes(path)
}

/// The longest common prefix of two byte strings.
pub fn common_prefix(str1: &Vec<u8>, str2: &Vec<u8>) -> (r: Vec<u8>)
    ensures
        r@.len() <= str1@.len() && r@.len() <= str2@.len(),
        forall|k: int| 0 <= k < r@.len() ==> str1@[k] == str2@[k] && r@[k] == str1@[k],
        r@.len() < str1@.len() && r@.len() < str2@.len() ==> str1@[r@.len() as int]
            != str2@[r@.len() as int],
{
    let n = common_prefix_len(str1.as_slice(), str2.as_slice());
    let mut out: Vec<u8> = Vec::new();
    let mut i: usize = 0;
    while i < n
        invariant
            n <= str1@.len(),
            0 <= i <= n,
            out@.len() == i,
            forall|k: int| 0 <= k < i ==> #[trigger] out@[k] == str1@[k],
            forall|k: int| 0 <= k < n ==> str1@[k] == str2@[k],
            n < str1@.len() && n < str2@.len() ==> str1@[n as int] != str2@[n as int],
            n <= str2@.len(),
        decreases n - i,
    {
        out.push(str1[i]);
        i += 1;
    }
    out
}

/// The length of the longest common prefix of two byte slices.
pub fn common_prefix_len(vec1: &[u8], vec2: &[u8]) -> (r: usize)
    ensures
        r <= vec1@.len() && r <= vec2@.len(),
        forall|k: int| 0 <= k < r ==> vec1@[k] == vec2@[k],
        r < vec1@.len() && r < vec2@.len() ==> vec1@[r as int] != vec2@[r as int],
{
    let min_len = if vec1.len() <= vec2.len() {
        vec1.len()
    } else {
        vec2.len()
    };
    let mut i: usize = 0;
    while i < min_len
        invariant
            min_len <= vec1@.len() && min_len <= vec2@.len(),
            0 <= i <= min_len,
            forall|k: int| 0 <= k < i ==> vec1@[k] == vec2@[k],
        decreases min_len - i,
    {
        if slice_u8(vec1, i) != slice_u8(vec2, i) {
            return i;
        }
        i += 1;
    }
    min_len
}

/// Reads one byte of a slice.
pub(crate) fn slice_u8(s: &[u8], i: usize) -> (r: u8)
    requires
        i < s@.len(),
    ensures
        r == s@[i as int],
{
    s[i]
}

/// Whether `p` is a prefix of `s`.
pub(crate) fn starts_with(s: &Vec<u8>, p: &Vec<u8>) -> (r: bool)
    ensures
        r == (p@.len() <= s@.len() && s@.take(p@.len() as int) == p@),
{
    if p.len() > s.len() {
        return false;
    }
    let mut i: usize = 0;
    while i < p.len()
        invariant
            p@.len() <= s@.len(),
            0 <= i <= p@.len(),
            forall|k: int| 0 <= k < i ==> s@[k] == p@[k],
        decreases p@.len() - i,
    {
        if s[i] != p[i] {
            assert(s@.take(p@.len() as int)[i as int] != p@[i as int]);
            return false;
        }
        i += 1;
    }
    proof {
        assert(s@.take(p@.len() as int) =~= p@);
    }
    true
}

} // verus!
