//! A static perfect hash map keyed by `char`.

use vstd::prelude::*;

verus! {

/// The three hash words `(g, f1, f2)` that `phf_shared::hash` derives from a
/// character under a seed: a keyed SipHash 1-3 of the character's scalar
/// value, split into words. It depends on the two arguments alone.
pub uninterp spec fn sip_hashes(key: char, seed: u64) -> (u32, u32, u32);

/// Calls `phf_shared::hash` on a character and hands back the three words of
/// the result. Nothing is claimed of the words beyond that they are the ones
/// the outside function computes for these arguments.
#[verifier::external_body]
fn hash_char(key: char, seed: u64) -> (h: (u32, u32, u32))
    ensures
        h == sip_hashes(key, seed),
{
    let h = phf_shared::hash(&key, &seed);
    (h.g, h.f1, h.f2)
}

/// `phf_shared::displace` computes `d2 + f1 * d1 + f2` in wrapping 32-bit
/// arithmetic.
pub assume_specification[ phf_shared::displace ](f1: u32, f2: u32, d1: u32, d2: u32) -> (r: u32)
    ensures
        r as int == displaced(f1, f2, d1, d2),
;

/// The displaced hash: `d2 + f1 * d1 + f2` modulo 2^32.
pub open spec fn displaced(f1: u32, f2: u32, d1: u32, d2: u32) -> int {
    (d2 as int + f1 as int * d1 as int + f2 as int) % 0x1_0000_0000
}

/// The slot that a hash triple selects in a table of `len` entries: the first
/// word picks a bucket, whose displacement pair is combined with the other two.
pub open spec fn slot_of(h: (u32, u32, u32), disps: Seq<(u32, u32)>, len: int) -> int
    recommends
        disps.len() > 0,
        len > 0,
{
    let d = disps[(h.0 as int) % (disps.len() as int)];
    displaced(h.1, h.2, d.0, d.1) % len
}

/// Whether tables of these sizes can be indexed: both non-empty and both
/// within 32 bits.
pub open spec fn sizes_usable(n_disps: int, n_entries: int) -> bool {
    0 < n_disps <= u32::MAX && 0 < n_entries <= u32::MAX
}

/// Computes the slot of a hash triple.
pub fn slot_index(h: (u32, u32, u32), disps: &Vec<(u32, u32)>, len: usize) -> (r: usize)
    requires
        sizes_usable(disps.len() as int, len as int),
    ensures
        r as int == slot_of(h, disps@, len as int),
        r < len,
{
    let nb: u32 = disps.len() as u32;
    let b: usize = (h.0 % nb) as usize;
    let d: (u32, u32) = disps[b];
    let x: u32 = phf_shared::displace(h.1, h.2, d.0, d.1);
    (x % (len as u32)) as usize
}

/// An immutable map from characters to values, laid out by a perfect hash:
/// every key sits at the slot that its hash selects.
pub struct CharMap<V> {
    /// The inclusive range `(min key, max key)`.
    pub range: (char, char),
    /// The hash seed.
    pub key: u64,
    /// One displacement pair per bucket.
    pub disps: Vec<(u32, u32)>,
    /// The entries, ordered by slot.
    pub entries: Vec<(char, V)>,
}

impl<V> CharMap<V> {
    /// Whether `key` lies in the recorded key range.
    pub open spec fn in_range(&self, key: char) -> bool {
        self.range.0 as u32 <= key as u32 <= self.range.1 as u32
    }

    /// The slot that `key` hashes to in this table.
    pub open spec fn spec_slot(&self, key: char) -> int {
        slot_of(sip_hashes(key, self.key), self.disps@, self.entries@.len() as int)
    }

    /// The index of the entry that a lookup of `key` finds, if any. This is
    /// what a lookup computes on any table, well formed or not.
    pub open spec fn spec_find(&self, key: char) -> Option<int> {
        if self.in_range(key) && sizes_usable(self.disps@.len() as int, self.entries@.len() as int)
            && self.entries@[self.spec_slot(key)].0 == key {
            Some(self.spec_slot(key))
        } else {
            None
        }
    }

    /// Well-formedness: every entry lies in the key range and sits at the slot
    /// its key hashes to.
    pub open spec fn wf(&self) -> bool {
        &&& self.entries@.len() > 0 ==> sizes_usable(
            self.disps@.len() as int,
            self.entries@.len() as int,
        )
        &&& forall|i: int|
            0 <= i < self.entries@.len() ==> self.in_range(#[trigger] self.entries@[i].0)
                && self.spec_slot(self.entries@[i].0) == i
    }

    /// Whether some entry has the key `key`.
    pub open spec fn has_key(&self, key: char) -> bool {
        exists|i: int| 0 <= i < self.entries@.len() && #[trigger] self.entries@[i].0 == key
    }

    /// The index of an entry with key `key`.
    pub open spec fn index_of(&self, key: char) -> int {
        choose|i: int| 0 <= i < self.entries@.len() && #[trigger] self.entries@[i].0 == key
    }

    /// The table as a mathematical map from keys to values.
    pub open spec fn view(&self) -> Map<char, V> {
        Map::new(|k: char| self.has_key(k), |k: char| self.entries@[self.index_of(k)].1)
    }

    /// On a well-formed table a lookup finds exactly the keys of the map, each
    /// at the one entry that holds it.
    pub proof fn lemma_find_is_view(&self, key: char)
        requires
            self.wf(),
        ensures
            self.spec_find(key).is_some() <==> self@.contains_key(key),
            self.spec_find(key).is_some() ==> {
                &&& 0 <= self.spec_find(key).unwrap() < self.entries@.len()
                &&& self.entries@[self.spec_find(key).unwrap()].0 == key
                &&& self.entries@[self.spec_find(key).unwrap()].1 == self@[key]
            },
    {
        if self.has_key(key) {
            let i = self.index_of(key);
            assert(self.entries@[i].0 == key);
            assert(self.spec_slot(self.entries@[i].0) == i);
        }
        if self.spec_find(key).is_some() {
            let s = self.spec_slot(key);
            assert(0 <= s < self.entries@.len()) by (nonlinear_arith)
                requires
                    s == displaced(
                        sip_hashes(key, self.key).1,
                        sip_hashes(key, self.key).2,
                        self.disps@[(sip_hashes(key, self.key).0 as int) % (
                        self.disps@.len() as int)].0,
                        self.disps@[(sip_hashes(key, self.key).0 as int) % (
                        self.disps@.len() as int)].1,
                    ) % (self.entries@.len() as int),
                    self.entries@.len() > 0,
            ;
            assert(self.entries@[s].0 == key);
            assert(self.has_key(key));
            let i = self.index_of(key);
            assert(self.spec_slot(self.entries@[i].0) == i);
        }
    }

    /// The number of entries.
    pub fn len(&self) -> (n: usize)
        ensures
            n == self.entries@.len(),
    {
        self.entries.len()
    }

    /// Whether the table has no entries.
    pub fn is_empty(&self) -> (b: bool)
        ensures
            b == (self.entries@.len() == 0),
    {
        self.len() == 0
    }

    /// Looks `key` up and returns the stored key with its value.
    pub fn get_entry(&self, key: char) -> (r: Option<(char, &V)>)
        ensures
            match self.spec_find(key) {
                Some(i) => 0 <= i < self.entries@.len() && r == Some((key, &self.entries@[i].1)),
                None => r.is_none(),
            },
            self.wf() ==> (r.is_some() <==> self@.contains_key(key)),
            self.wf() && r.is_some() ==> *r.unwrap().1 == self@[key],
    {
        proof {
            if self.wf() {
                self.lemma_find_is_view(key);
            }
        }
        let cp: u32 = key as u32;
        if cp < self.range.0 as u32 || cp > self.range.1 as u32 {
            return None;
        }
        let nd: usize = self.disps.len();
        let ne: usize = self.entries.len();
        if nd == 0 || ne == 0 || nd > u32::MAX as usize || ne > u32::MAX as usize {
            return None;
        }
        let hashes = hash_char(key, self.key);
        let index: usize = slot_index(hashes, &self.disps, ne);
        let entry = &self.entries[index];
        if key == entry.0 {
            Some((entry.0, &entry.1))
        } else {
            None
        }
    }

    /// Looks `key` up and returns its value.
    pub fn get(&self, key: char) -> (r: Option<&V>)
        ensures
            match self.spec_find(key) {
                Some(i) => 0 <= i < self.entries@.len() && r == Some(&self.entries@[i].1),
                None => r.is_none(),
            },
            self.wf() ==> (r.is_some() <==> self@.contains_key(key)),
            self.wf() && r.is_some() ==> *r.unwrap() == self@[key],
    {
        match self.get_entry(key) {
            Some(e) => Some(e.1),
            None => None,
        }
    }

    /// Whether `key` is a key of the table.
    pub fn contains_key(&self, key: char) -> (b: bool)
        ensures
            b == self.spec_find(key).is_some(),
            self.wf() ==> b == self@.contains_key(key),
    {
        self.get(key).is_some()
    }
}

/// Calls `phf_generator::generate_hash` on the keys and hands back the seed,
/// the displacement pairs and the slot order of the state it returns. The
/// generator retries seeds until every key has a slot of its own, so on
/// return each slot names the one key that hashes to it, and there is one
/// bucket for every five keys, rounded up. With a repeated key it would never
/// return, and it counts in 32 bits.
#[verifier::external_body]
fn generate_layout(keys: &Vec<char>) -> (r: (u64, Vec<(u32, u32)>, Vec<usize>))
    requires
        keys@.no_duplicates(),
        keys@.len() <= u32::MAX,
    ensures
        layout_fits(keys@, r.0, r.1@, r.2@),
{
    let state = phf_generator::generate_hash(keys);
    (state.key, state.disps, state.map)
}

/// Whether `(seed, disps, order)` lays the keys out perfectly: `order` lists
/// for each slot the index of the key that hashes to it, and every key is
/// listed at its slot.
pub open spec fn layout_fits(
    keys: Seq<char>,
    seed: u64,
    disps: Seq<(u32, u32)>,
    order: Seq<usize>,
) -> bool {
    &&& order.len() == keys.len()
    &&& disps.len() == (keys.len() + 4) / 5
    &&& forall|j: int|
        0 <= j < order.len() ==> 0 <= (#[trigger] order[j]) < keys.len() && slot_of(
            sip_hashes(keys[order[j] as int], seed),
            disps,
            keys.len() as int,
        ) == j
    &&& forall|i: int|
        0 <= i < keys.len() ==> {
            let s = slot_of(sip_hashes(#[trigger] keys[i], seed), disps, keys.len() as int);
            0 <= s < keys.len() && order[s] == i
        }
}

/// The keys of a list of pairs.
pub open spec fn keys_of(pairs: Seq<(char, String)>) -> Seq<char> {
    Seq::new(pairs.len(), |i: int| pairs[i].0)
}

/// Whether the keys of `pairs` strictly ascend.
pub open spec fn ascending(pairs: Seq<(char, String)>) -> bool {
    forall|i: int, j: int|
        0 <= i < j < pairs.len() ==> ((#[trigger] pairs[i]).0 as u32) < (#[trigger] pairs[j]).0 as u32
}

/// Whether `c` is the key of one of `pairs`.
pub open spec fn listed(pairs: Seq<(char, String)>, c: char) -> bool {
    exists|i: int| 0 <= i < pairs.len() && (#[trigger] pairs[i]).0 == c
}

/// Tells whether the keys of `pairs` strictly ascend.
pub fn is_ascending(pairs: &Vec<(char, String)>) -> (b: bool)
    ensures
        b == ascending(pairs@),
{
    let n: usize = pairs.len();
    let mut i: usize = 1;
    while i < n
        invariant
            1 <= i,
            n == pairs@.len(),
            forall|a: int, b: int|
                0 <= a < b < i && b < n ==> ((#[trigger] pairs@[a]).0 as u32) < (
                #[trigger] pairs@[b]).0 as u32,
        decreases n - i,
    {
        if pairs[i - 1].0 as u32 >= pairs[i].0 as u32 {
            return false;
        }
        proof {
            assert forall|a: int, b: int| 0 <= a < b < i + 1 && b < n implies ((
            #[trigger] pairs@[a]).0 as u32) < (#[trigger] pairs@[b]).0 as u32 by {
                if b == i && a < i - 1 {
                    assert((pairs@[a].0 as u32) < pairs@[i - 1].0 as u32);
                }
            }
        }
        i = i + 1;
    }
    true
}

impl CharMap<String> {
    /// Puts the pairs in the order of a layout that fits their keys.
    pub fn assemble(
        pairs: &Vec<(char, String)>,
        seed: u64,
        disps: Vec<(u32, u32)>,
        order: &Vec<usize>,
    ) -> (t: CharMap<String>)
        requires
            0 < pairs@.len() <= u32::MAX,
            ascending(pairs@),
            layout_fits(keys_of(pairs@), seed, disps@, order@),
        ensures
            t.wf(),
            t.key == seed,
            t.disps == disps,
            t.range == (pairs@[0].0, pairs@.last().0),
            t.entries@.len() == pairs@.len(),
            forall|j: int| 0 <= j < order@.len() ==> #[trigger] t.entries@[j] == pairs@[order@[j] as int],
            forall|i: int|
                0 <= i < pairs@.len() ==> t.spec_find((#[trigger] pairs@[i]).0) == Some(
                    t.spec_slot(pairs@[i].0),
                ) && t.entries@[t.spec_slot(pairs@[i].0)] == pairs@[i],
            forall|c: char| !listed(pairs@, c) ==> t.spec_find(c).is_none(),
            forall|c: char| listed(pairs@, c) <==> t@.contains_key(c),
    {
        let n: usize = pairs.len();
        let ghost keys = keys_of(pairs@);
        let mut entries: Vec<(char, String)> = Vec::new();
        let mut j: usize = 0;
        while j < n
            invariant
                j <= n,
                n == pairs@.len(),
                n == order@.len(),
                keys == keys_of(pairs@),
                layout_fits(keys, seed, disps@, order@),
                entries@.len() == j,
                forall|k: int| 0 <= k < j ==> #[trigger] entries@[k] == pairs@[order@[k] as int],
            decreases n - j,
        {
            let i: usize = order[j];
            assert(0 <= order@[j as int] < keys.len());
            let text: String = pairs[i].1.clone();
            entries.push((pairs[i].0, text));
            j = j + 1;
        }
        let t = CharMap { range: (pairs[0].0, pairs[n - 1].0), key: seed, disps, entries };
        proof {
            assert((n as int + 4) / 5 > 0 && (n as int + 4) / 5 <= n as int);
            assert forall|k: int| 0 <= k < t.entries@.len() implies t.in_range(
                #[trigger] t.entries@[k].0,
            ) && t.spec_slot(t.entries@[k].0) == k by {
                let i = order@[k] as int;
                assert(t.entries@[k] == pairs@[i]);
                assert(keys[i] == pairs@[i].0);
                if 0 < i {
                    assert((pairs@[0].0 as u32) < pairs@[i].0 as u32);
                }
                if i < n - 1 {
                    assert((pairs@[i].0 as u32) < pairs@[n - 1].0 as u32);
                }
            }
            assert(t.wf());
            assert forall|i: int| 0 <= i < pairs@.len() implies t.spec_find(
                (#[trigger] pairs@[i]).0,
            ) == Some(t.spec_slot(pairs@[i].0)) && t.entries@[t.spec_slot(pairs@[i].0)]
                == pairs@[i] by {
                let c = pairs@[i].0;
                assert(keys[i] == c);
                let s = t.spec_slot(c);
                assert(order@[s] == i);
                assert(t.entries@[s] == pairs@[order@[s] as int]);
                assert(t.in_range(t.entries@[s].0));
            }
            assert forall|c: char| listed(pairs@, c) <==> t@.contains_key(c) by {
                if listed(pairs@, c) {
                    let i = choose|i: int| 0 <= i < pairs@.len() && (#[trigger] pairs@[i]).0 == c;
                    assert(t.entries@[t.spec_slot(pairs@[i].0)] == pairs@[i]);
                    assert(t.spec_find(c).is_some());
                    assert(t.has_key(c));
                }
                if t.has_key(c) {
                    let k = t.index_of(c);
                    assert(t.entries@[k] == pairs@[order@[k] as int]);
                    assert(pairs@[order@[k] as int].0 == c);
                }
            }
            assert forall|c: char| !listed(pairs@, c) implies t.spec_find(c).is_none() by {
                t.lemma_find_is_view(c);
            }
        }
        t
    }

    /// Builds the table of a mapping given as pairs with strictly ascending
    /// keys. There is no table of an empty mapping, nor of pairs out of order.
    /// In the table built, a lookup finds each listed key with its text and no
    /// other key.
    pub fn build(pairs: &Vec<(char, String)>) -> (r: Option<CharMap<String>>)
        ensures
            r.is_some() <==> 0 < pairs@.len() <= u32::MAX && ascending(pairs@),
            r matches Some(t) ==> {
                &&& t.wf()
                &&& t.range == (pairs@[0].0, pairs@.last().0)
                &&& t.entries@.len() == pairs@.len()
                &&& forall|i: int|
                    0 <= i < pairs@.len() ==> t.spec_find((#[trigger] pairs@[i]).0) == Some(
                        t.spec_slot(pairs@[i].0),
                    ) && t.entries@[t.spec_slot(pairs@[i].0)] == pairs@[i]
                &&& forall|c: char| !listed(pairs@, c) ==> t.spec_find(c).is_none()
                &&& forall|c: char| listed(pairs@, c) <==> t@.contains_key(c)
            },
    {
        let n: usize = pairs.len();
        if n == 0 || n > u32::MAX as usize || !is_ascending(pairs) {
            return None;
        }
        let mut keys: Vec<char> = Vec::new();
        let mut i: usize = 0;
        while i < n
            invariant
                i <= n,
                n == pairs@.len(),
                keys@.len() == i,
                forall|k: int| 0 <= k < i ==> #[trigger] keys@[k] == pairs@[k].0,
            decreases n - i,
        {
            keys.push(pairs[i].0);
            i = i + 1;
        }
        proof {
            assert(keys@ =~= keys_of(pairs@));
            assert forall|a: int, b: int| 0 <= a < keys@.len() && 0 <= b < keys@.len() && a
                != b implies keys@[a] != keys@[b] by {
                if a < b {
                    assert((pairs@[a].0 as u32) < pairs@[b].0 as u32);
                } else {
                    assert((pairs@[b].0 as u32) < pairs@[a].0 as u32);
                }
            }
        }
        let layout = generate_layout(&keys);
        Some(CharMap::assemble(pairs, layout.0, layout.1, &layout.2))
    }
}

/// A walk over the entries of a table, in slot order, from either end.
pub struct Entries<'a, V> {
    /// The entries walked over.
    pub items: &'a Vec<(char, V)>,
    /// The index of the next entry from the front.
    pub front: usize,
    /// The index behind the next entry from the back.
    pub back: usize,
}

impl<'a, V> Clone for Entries<'a, V> {
    fn clone(&self) -> (r: Self)
        ensures
            r == *self,
    {
        Entries { items: self.items, front: self.front, back: self.back }
    }
}

impl<'a, V> Entries<'a, V> {
    /// Well-formedness: the two ends lie within the entries and have not
    /// crossed.
    pub open spec fn wf(&self) -> bool {
        self.front <= self.back <= self.items@.len()
    }

    /// The next entry from the front.
    pub fn next(&mut self) -> (r: Option<(char, &'a V)>)
        requires
            old(self).wf(),
        ensures
            final(self).wf(),
            final(self).items == old(self).items,
            final(self).back == old(self).back,
            old(self).front < old(self).back ==> final(self).front == old(self).front + 1 && r
                == Some((old(self).items@[old(self).front as int].0, &old(self).items@[old(self).front as int].1)),
            old(self).front == old(self).back ==> final(self).front == old(self).front
                && r.is_none(),
    {
        if self.front < self.back {
            let items: &'a Vec<(char, V)> = self.items;
            let e: &'a (char, V) = &items[self.front];
            self.front = self.front + 1;
            Some((e.0, &e.1))
        } else {
            None
        }
    }

    /// The next entry from the back.
    pub fn next_back(&mut self) -> (r: Option<(char, &'a V)>)
        requires
            old(self).wf(),
        ensures
            final(self).wf(),
            final(self).items == old(self).items,
            final(self).front == old(self).front,
            old(self).front < old(self).back ==> final(self).back == old(self).back - 1 && r
                == Some((old(self).items@[old(self).back - 1].0, &old(self).items@[old(self).back - 1].1)),
            old(self).front == old(self).back ==> final(self).back == old(self).back
                && r.is_none(),
    {
        if self.front < self.back {
            let items: &'a Vec<(char, V)> = self.items;
            self.back = self.back - 1;
            let e: &'a (char, V) = &items[self.back];
            Some((e.0, &e.1))
        } else {
            None
        }
    }

    /// The number of entries still to come.
    pub fn len(&self) -> (n: usize)
        requires
            self.wf(),
        ensures
            n == self.back - self.front,
    {
        self.back - self.front
    }
}

/// A walk over the keys of a table, in slot order, from either end.
pub struct Keys<'a, V> {
    /// The entries walked over.
    pub items: &'a Vec<(char, V)>,
    /// The index of the next entry from the front.
    pub front: usize,
    /// The index behind the next entry from the back.
    pub back: usize,
}

impl<'a, V> Clone for Keys<'a, V> {
    fn clone(&self) -> (r: Self)
        ensures
            r == *self,
    {
        Keys { items: self.items, front: self.front, back: self.back }
    }
}

impl<'a, V> Keys<'a, V> {
    /// Well-formedness: the two ends lie within the entries and have not
    /// crossed.
    pub open spec fn wf(&self) -> bool {
        self.front <= self.back <= self.items@.len()
    }

    /// The next key from the front.
    pub fn next(&mut self) -> (r: Option<char>)
        requires
            old(self).wf(),
        ensures
            final(self).wf(),
            final(self).items == old(self).items,
            final(self).back == old(self).back,
            old(self).front < old(self).back ==> final(self).front == old(self).front + 1 && r
                == Some(old(self).items@[old(self).front as int].0),
            old(self).front == old(self).back ==> final(self).front == old(self).front
                && r.is_none(),
    {
        if self.front < self.back {
            let items: &'a Vec<(char, V)> = self.items;
            let e: &'a (char, V) = &items[self.front];
            self.front = self.front + 1;
            Some(e.0)
        } else {
            None
        }
    }

    /// The next key from the back.
    pub fn next_back(&mut self) -> (r: Option<char>)
        requires
            old(self).wf(),
        ensures
            final(self).wf(),
            final(self).items == old(self).items,
            final(self).front == old(self).front,
            old(self).front < old(self).back ==> final(self).back == old(self).back - 1 && r
                == Some(old(self).items@[old(self).back - 1].0),
            old(self).front == old(self).back ==> final(self).back == old(self).back
                && r.is_none(),
    {
        if self.front < self.back {
            let items: &'a Vec<(char, V)> = self.items;
            self.back = self.back - 1;
            let e: &'a (char, V) = &items[self.back];
            Some(e.0)
        } else {
            None
        }
    }

    /// The number of keys still to come.
    pub fn len(&self) -> (n: usize)
        requires
            self.wf(),
        ensures
            n == self.back - self.front,
    {
        self.back - self.front
    }
}

/// A walk over the values of a table, in slot order, from either end.
pub struct Values<'a, V> {
    /// The entries walked over.
    pub items: &'a Vec<(char, V)>,
    /// The index of the next entry from the front.
    pub front: usize,
    /// The index behind the next entry from the back.
    pub back: usize,
}

impl<'a, V> Clone for Values<'a, V> {
    fn clone(&self) -> (r: Self)
        ensures
            r == *self,
    {
        Values { items: self.items, front: self.front, back: self.back }
    }
}

impl<'a, V> Values<'a, V> {
    /// Well-formedness: the two ends lie within the entries and have not
    /// crossed.
    pub open spec fn wf(&self) -> bool {
        self.front <= self.back <= self.items@.len()
    }

    /// The next value from the front.
    pub fn next(&mut self) -> (r: Option<&'a V>)
        requires
            old(self).wf(),
        ensures
            final(self).wf(),
            final(self).items == old(self).items,
            final(self).back == old(self).back,
            old(self).front < old(self).back ==> final(self).front == old(self).front + 1 && r
                == Some(&old(self).items@[old(self).front as int].1),
            old(self).front == old(self).back ==> final(self).front == old(self).front
                && r.is_none(),
    {
        if self.front < self.back {
            let items: &'a Vec<(char, V)> = self.items;
            let e: &'a (char, V) = &items[self.front];
            self.front = self.front + 1;
            Some(&e.1)
        } else {
            None
        }
    }

    /// The next value from the back.
    pub fn next_back(&mut self) -> (r: Option<&'a V>)
        requires
            old(self).wf(),
        ensures
            final(self).wf(),
            final(self).items == old(self).items,
            final(self).front == old(self).front,
            old(self).front < old(self).back ==> final(self).back == old(self).back - 1 && r
                == Some(&old(self).items@[old(self).back - 1].1),
            old(self).front == old(self).back ==> final(self).back == old(self).back
                && r.is_none(),
    {
        if self.front < self.back {
            let items: &'a Vec<(char, V)> = self.items;
            self.back = self.back - 1;
            let e: &'a (char, V) = &items[self.back];
            Some(&e.1)
        } else {
            None
        }
    }

    /// The number of values still to come.
    pub fn len(&self) -> (n: usize)
        requires
            self.wf(),
        ensures
            n == self.back - self.front,
    {
        self.back - self.front
    }
}

impl<V> CharMap<V> {
    /// A walk over the entries, in slot order.
    pub fn entries(&self) -> (r: Entries<'_, V>)
        ensures
            r.wf(),
            r.items == &self.entries,
            r.front == 0,
            r.back == self.entries@.len(),
    {
        Entries { items: &self.entries, front: 0, back: self.entries.len() }
    }

    /// A walk over the keys, in slot order.
    pub fn keys(&self) -> (r: Keys<'_, V>)
        ensures
            r.wf(),
            r.items == &self.entries,
            r.front == 0,
            r.back == self.entries@.len(),
    {
        Keys { items: &self.entries, front: 0, back: self.entries.len() }
    }

    /// A walk over the values, in slot order.
    pub fn values(&self) -> (r: Values<'_, V>)
        ensures
            r.wf(),
            r.items == &self.entries,
            r.front == 0,
            r.back == self.entries@.len(),
    {
        Values { items: &self.entries, front: 0, back: self.entries.len() }
    }
}

} // verus!
