//! The sharded key/value store.
//!
//! The store is a fixed number of shards, each an exclusive-access mapping
//! from string key to byte-sequence value; a key's shard is a pure function
//! of its hash, so repeated lookups of one key always visit one shard, and
//! writes to one shard never touch another. Here the shards stand side by
//! side in one structure; a concurrent deployment wraps each [`Shard`] in
//! its own lock and picks it with [`index`].

use vstd::prelude::*;
use vstd::utf8::encode_utf8;

verus! {

broadcast use vstd::std_specs::vec::group_vec_axioms;

/// Number of shards; fixed at construction, never changed.
pub const SHARD_COUNT: usize = 32;

/// FNV-1a offset basis.
pub const FNV_OFFSET: u64 = 14695981039346656037;

/// FNV-1a prime.
pub const FNV_PRIME: u64 = 1099511628211;

/// One FNV-1a step: fold a byte into the running hash.
pub open spec fn fnv_step(h: u64, b: u8) -> u64 {
    ((((h ^ (b as u64)) as nat) * (FNV_PRIME as nat)) % 0x1_0000_0000_0000_0000) as u64
}

/// FNV-1a over a byte sequence.
pub open spec fn hash_bytes(b: Seq<u8>) -> u64
    decreases b.len(),
{
    if b.len() == 0 {
        FNV_OFFSET
    } else {
        fnv_step(hash_bytes(b.drop_last()), b.last())
    }
}

/// The shard a key lives in: a deterministic function of the key alone,
/// always below [`SHARD_COUNT`].
pub open spec fn shard_of(s: Seq<char>) -> int {
    hash_bytes(encode_utf8(s)) as int % (SHARD_COUNT as int)
}

/// Computes the shard of `key`: equal keys always land in the same shard.
pub fn index(key: &str) -> (r: usize)
    ensures
        r == shard_of(key@),
        r < SHARD_COUNT,
{
    let bytes = key.as_bytes();
    let mut h: u64 = FNV_OFFSET;
    let mut i: usize = 0;
    while i < bytes.len()
        invariant
            i <= bytes.len(),
            bytes@ == encode_utf8(key@),
            h == hash_bytes(bytes@.subrange(0, i as int)),
        decreases bytes.len() - i,
    {
        let b = *vstd::slice::slice_index_get(bytes, i);
        let ghost p1 = bytes@.subrange(0, i + 1);
        proof {
            assert(p1.drop_last() =~= bytes@.subrange(0, i as int));
            assert(p1.last() == b);
        }
        h = (h ^ (b as u64)).wrapping_mul(FNV_PRIME);
        i = i + 1;
    }
    proof {
        assert(bytes@.subrange(0, bytes@.len() as int) =~= bytes@);
    }
    (h % (SHARD_COUNT as u64)) as usize
}

/// The mapping an entry run denotes; a later entry for a key shadows an
/// earlier one.
pub open spec fn entries_map(s: Seq<(String, Vec<u8>)>) -> Map<Seq<char>, Seq<u8>>
    decreases s.len(),
{
    if s.len() == 0 {
        Map::empty()
    } else {
        entries_map(s.drop_last()).insert(s.last().0@, s.last().1@)
    }
}

/// Compares two string slices by their bytes.
fn str_eq(a: &str, b: &str) -> (r: bool)
    ensures
        r == (a@ == b@),
{
    let ab = a.as_bytes();
    let bb = b.as_bytes();
    if ab.len() != bb.len() {
        proof {
            assert(a@ != b@);
        }
        return false;
    }
    let mut i: usize = 0;
    while i < ab.len()
        invariant
            i <= ab.len(),
            ab@.len() == bb@.len(),
            ab@ == encode_utf8(a@),
            bb@ == encode_utf8(b@),
            forall|j: int| 0 <= j < i ==> ab@[j] == bb@[j],
        decreases ab.len() - i,
    {
        let x = *vstd::slice::slice_index_get(ab, i);
        let y = *vstd::slice::slice_index_get(bb, i);
        if x != y {
            proof {
                assert(encode_utf8(a@)[i as int] != encode_utf8(b@)[i as int]);
                assert(a@ != b@);
            }
            return false;
        }
        i = i + 1;
    }
    proof {
        assert(ab@ =~= bb@);
        vstd::utf8::encode_utf8_decode_utf8(a@);
        vstd::utf8::encode_utf8_decode_utf8(b@);
    }
    true
}

/// One independently lockable partition of the store.
pub struct Shard {
    entries: Vec<(String, Vec<u8>)>,
}

impl View for Shard {
    type V = Map<Seq<char>, Seq<u8>>;

    closed spec fn view(&self) -> Map<Seq<char>, Seq<u8>> {
        entries_map(self.entries@)
    }
}

impl Shard {
    pub fn new() -> (r: Shard)
        ensures
            r@ == Map::<Seq<char>, Seq<u8>>::empty(),
    {
        Shard { entries: Vec::new() }
    }

    /// Looks `key` up; the returned bytes are a copy, immune to later writes.
    pub fn get(&self, key: &str) -> (r: Option<Vec<u8>>)
        ensures
            match r {
                Some(v) => self@.contains_key(key@) && v@ == self@[key@],
                None => !self@.contains_key(key@),
            },
    {
        let mut i = self.entries.len();
        proof {
            assert(self.entries@.subrange(0, self.entries@.len() as int) =~= self.entries@);
        }
        while i > 0
            invariant
                i <= self.entries.len(),
                self@.contains_key(key@) ==> entries_map(self.entries@.subrange(0, i as int))
                    .contains_key(key@),
                entries_map(self.entries@.subrange(0, i as int)).contains_key(key@)
                    ==> self@.contains_key(key@) && entries_map(
                    self.entries@.subrange(0, i as int),
                )[key@] == self@[key@],
            decreases i,
        {
            i = i - 1;
            let ghost pre = self.entries@.subrange(0, i + 1);
            proof {
                assert(pre.drop_last() =~= self.entries@.subrange(0, i as int));
                assert(pre.last() == self.entries@[i as int]);
            }
            let hit = str_eq(self.entries[i].0.as_str(), key);
            if hit {
                let v = vstd::slice::slice_to_vec(self.entries[i].1.as_slice());
                return Some(v);
            }
        }
        proof {
            assert(self.entries@.subrange(0, 0) =~= Seq::<(String, Vec<u8>)>::empty());
        }
        None
    }

    /// Inserts or replaces `key`'s value.
    pub fn set(&mut self, key: String, value: Vec<u8>)
        ensures
            final(self)@ == old(self)@.insert(key@, value@),
    {
        self.drop_key(key.as_str());
        let ghost pre = self.entries@;
        self.entries.push((key, value));
        proof {
            assert(self.entries@.drop_last() =~= pre);
            assert(old(self)@.remove(key@).insert(key@, value@) =~= old(self)@.insert(
                key@,
                value@,
            ));
        }
    }

    /// Drops every entry of `key`, so a replaced value releases its memory.
    fn drop_key(&mut self, key: &str)
        ensures
            final(self)@ == old(self)@.remove(key@),
    {
        let ghost all = self.entries@;
        let mut kept: Vec<(String, Vec<u8>)> = Vec::new();
        let mut i: usize = 0;
        while i < self.entries.len()
            invariant
                i <= self.entries@.len(),
                all == self.entries@,
                entries_map(kept@) == entries_map(all.subrange(0, i as int)).remove(key@),
            decreases self.entries@.len() - i,
        {
            let ghost p1 = all.subrange(0, i + 1);
            proof {
                assert(p1.drop_last() =~= all.subrange(0, i as int));
                assert(p1.last() == all[i as int]);
            }
            let e = &self.entries[i];
            if !str_eq(e.0.as_str(), key) {
                let ghost keptpre = kept@;
                let k2 = e.0.clone();
                let v2 = vstd::slice::slice_to_vec(e.1.as_slice());
                kept.push((k2, v2));
                proof {
                    assert(kept@.drop_last() =~= keptpre);
                    assert(entries_map(p1).remove(key@) =~= entries_map(
                        all.subrange(0, i as int),
                    ).remove(key@).insert(e.0@, e.1@));
                }
            } else {
                proof {
                    assert(entries_map(p1).remove(key@) =~= entries_map(
                        all.subrange(0, i as int),
                    ).remove(key@));
                }
            }
            i = i + 1;
        }
        proof {
            assert(all.subrange(0, all.len() as int) =~= all);
        }
        self.entries = kept;
    }
}

/// The whole store: [`SHARD_COUNT`] shards, each holding the keys that hash
/// to it.
pub struct ShardedStore {
    shards: Vec<Shard>,
}

impl View for ShardedStore {
    type V = Map<Seq<char>, Seq<u8>>;

    closed spec fn view(&self) -> Map<Seq<char>, Seq<u8>> {
        Map::new(
            |k: Seq<char>| self.shard_seq()[shard_of(k)]@.contains_key(k),
            |k: Seq<char>| self.shard_seq()[shard_of(k)]@[k],
        )
    }
}

impl ShardedStore {
    /// The shards, for stating which of them an operation touches.
    pub closed spec fn shard_seq(&self) -> Seq<Shard> {
        self.shards@
    }

    /// The fixed shape: exactly [`SHARD_COUNT`] shards.
    pub open spec fn wf(&self) -> bool {
        self.shard_seq().len() == SHARD_COUNT
    }

    /// Looks `key` up in its shard.
    pub fn get(&self, key: &str) -> (r: Option<Vec<u8>>)
        requires
            self.wf(),
        ensures
            match r {
                Some(v) => self@.contains_key(key@) && v@ == self@[key@],
                None => !self@.contains_key(key@),
            },
    {
        let i = index(key);
        self.shards[i].get(key)
    }

    /// Inserts or replaces `key`'s value in its shard; every other shard is
    /// left untouched.
    pub fn set(&mut self, key: String, value: Vec<u8>)
        requires
            old(self).wf(),
        ensures
            final(self).wf(),
            final(self)@ == old(self)@.insert(key@, value@),
            forall|j: int|
                0 <= j < SHARD_COUNT && j != shard_of(key@) ==> final(self).shard_seq()[j] == old(
                    self,
                ).shard_seq()[j],
    {
        let i = index(key.as_str());
        let ghost k = key@;
        let ghost v = value@;
        let ghost pre = self.shards@;
        let mut sh = self.shards.remove(i);
        sh.set(key, value);
        self.shards.insert(i, sh);
        proof {
            assert(self.shards@ =~= pre.update(i as int, sh));
            assert forall|q: Seq<char>| true implies ({
                &&& self@.contains_key(q) == old(self)@.insert(k, v).contains_key(q)
                &&& (self@.contains_key(q) ==> self@[q] == old(self)@.insert(k, v)[q])
            }) by {
                if q == k {
                } else if shard_of(q) == i {
                } else {
                }
            }
            assert(self@ =~= old(self)@.insert(k, v));
        }
    }
}

/// Builds the store: [`SHARD_COUNT`] empty shards, no key present.
pub fn new_sharded_db() -> (r: ShardedStore)
    ensures
        r.wf(),
        r@ == Map::<Seq<char>, Seq<u8>>::empty(),
{
    let mut shards: Vec<Shard> = Vec::new();
    let mut i: usize = 0;
    while i < SHARD_COUNT
        invariant
            i <= SHARD_COUNT,
            shards@.len() == i,
            forall|j: int| 0 <= j < i ==> shards@[j]@ == Map::<Seq<char>, Seq<u8>>::empty(),
        decreases SHARD_COUNT - i,
    {
        shards.push(Shard::new());
        i = i + 1;
    }
    let r = ShardedStore { shards };
    proof {
        assert(r@ =~= Map::<Seq<char>, Seq<u8>>::empty());
    }
    r
}

/// Store semantics, over the store's map view: a key never written is
/// absent, and of two writes to one key the later wins, whatever value any
/// reader then copies out.
pub proof fn lemma_store_semantics(m: Map<Seq<char>, Seq<u8>>, k: Seq<char>, v1: Seq<u8>, v2: Seq<u8>)
    ensures
        !Map::<Seq<char>, Seq<u8>>::empty().contains_key(k),
        m.insert(k, v1).insert(k, v2) == m.insert(k, v2),
        m.insert(k, v2).contains_key(k),
        m.insert(k, v2)[k] == v2,
{
    assert(m.insert(k, v1).insert(k, v2) =~= m.insert(k, v2));
}

} // verus!
