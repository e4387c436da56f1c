//! The key-value store that holds the chain: each block's bytes under its
//! hash, and the hash of the tip under a one-byte key.
use crate::codec::push_slice;
use vstd::prelude::*;

verus! {

/// An in-memory store of byte keys and byte values; a program keeps it on
/// disk by copying its entries.
pub struct BlockchainDb {
    entries: Vec<(Vec<u8>, Vec<u8>)>,
}

pub open spec fn entry_keys_unique(e: Seq<(Vec<u8>, Vec<u8>)>) -> bool {
    forall|i: int, j: int| 0 <= i < j < e.len() ==> #[trigger] e[i].0@ != #[trigger] e[j].0@
}

pub open spec fn entries_map(e: Seq<(Vec<u8>, Vec<u8>)>) -> Map<Seq<u8>, Seq<u8>>
    decreases e.len(),
{
    if e.len() == 0 {
        Map::empty()
    } else {
        entries_map(e.drop_last()).insert(e.last().0@, e.last().1@)
    }
}

pub fn copy_bytes(s: &[u8]) -> (r: Vec<u8>)
    ensures
        r@ == s@,
{
    let mut r: Vec<u8> = Vec::new();
    push_slice(&mut r, s);
    assert(r@ =~= s@);
    r
}

/// Compares two byte strings.
pub fn bytes_eq(a: &[u8], b: &[u8]) -> (r: bool)
    ensures
        r == (a@ == b@),
{
    if a.len() != b.len() {
        return false;
    }
    let mut i: usize = 0;
    while i < a.len()
        invariant
            a@.len() == b@.len(),
            i <= a@.len(),
            a@.subrange(0, i as int) == b@.subrange(0, i as int),
        decreases a@.len() - i,
    {
        if a[i] != b[i] {
            assert(a@.subrange(0, i + 1)[i as int] != b@.subrange(0, i + 1)[i as int]);
            return false;
        }
        assert(a@.subrange(0, i + 1) =~= a@.subrange(0, i as int).push(a@[i as int]));
        assert(b@.subrange(0, i + 1) =~= b@.subrange(0, i as int).push(b@[i as int]));
        i = i + 1;
    }
    assert(a@ =~= a@.subrange(0, i as int));
    assert(b@ =~= b@.subrange(0, i as int));
    true
}

proof fn lemma_entries_map(e: Seq<(Vec<u8>, Vec<u8>)>)
    requires
        entry_keys_unique(e),
    ensures
        forall|i: int| 0 <= i < e.len() ==> #[trigger] entries_map(e).contains_key(e[i].0@)
            && entries_map(e)[e[i].0@] == e[i].1@,
        forall|k: Seq<u8>| #[trigger]
            entries_map(e).contains_key(k) ==> exists|i: int| 0 <= i < e.len() && e[i].0@ == k,
        entries_map(e).dom().finite(),
        entries_map(e).dom().len() == e.len(),
    decreases e.len(),
{
    if e.len() > 0 {
        let init = e.drop_last();
        assert(entry_keys_unique(init)) by {
            assert forall|i: int, j: int| 0 <= i < j < init.len() implies #[trigger] init[i].0@
                != #[trigger] init[j].0@ by {
                assert(init[i] == e[i] && init[j] == e[j]);
            }
        }
        lemma_entries_map(init);
        assert(!entries_map(init).contains_key(e.last().0@)) by {
            if entries_map(init).contains_key(e.last().0@) {
                let i = choose|i: int| 0 <= i < init.len() && init[i].0@ == e.last().0@;
                assert(init[i] == e[i]);
            }
        }
        assert(entries_map(e).dom() =~= entries_map(init).dom().insert(e.last().0@));
        assert forall|k: Seq<u8>| #[trigger] entries_map(e).contains_key(k) implies exists|i: int|
            0 <= i < e.len() && e[i].0@ == k by {
            if k != e.last().0@ {
                let i = choose|i: int| 0 <= i < init.len() && init[i].0@ == k;
                assert(init[i] == e[i]);
            } else {
                assert(e[e.len() - 1].0@ == k);
            }
        }
        assert forall|i: int| 0 <= i < e.len() implies #[trigger] entries_map(e).contains_key(
            e[i].0@,
        ) && entries_map(e)[e[i].0@] == e[i].1@ by {
            if i < e.len() - 1 {
                assert(init[i] == e[i]);
            }
        }
    }
}

impl BlockchainDb {
    pub closed spec fn view(&self) -> Map<Seq<u8>, Seq<u8>> {
        entries_map(self.entries@)
    }

    pub closed spec fn wf(&self) -> bool {
        entry_keys_unique(self.entries@)
    }

    /// An empty store.
    pub fn new() -> (r: BlockchainDb)
        ensures
            r.wf(),
            r.view() == Map::<Seq<u8>, Seq<u8>>::empty(),
    {
        BlockchainDb { entries: Vec::new() }
    }

    /// The number of keys in the store.
    pub fn len(&self) -> (r: usize)
        requires
            self.wf(),
        ensures
            r == self.view().dom().len(),
    {
        proof {
            lemma_entries_map(self.entries@);
        }
        self.entries.len()
    }

    /// The key and the value of the `i`-th entry.
    pub fn entry(&self, i: usize) -> (r: (&Vec<u8>, &Vec<u8>))
        requires
            self.wf(),
            i < self.view().dom().len(),
        ensures
            r.0@ == self.key_at(i as int),
            self.view().contains_key(r.0@),
            self.view()[r.0@] == r.1@,
    {
        proof {
            lemma_entries_map(self.entries@);
        }
        (&self.entries[i].0, &self.entries[i].1)
    }

    /// Every key of the store is the key of an entry `entry(i)` for some `i`
    /// below `len()`.
    pub proof fn lemma_entries_cover(&self, k: Seq<u8>)
        requires
            self.wf(),
            self.view().contains_key(k),
        ensures
            exists|i: int| 0 <= i < self.view().dom().len() && #[trigger] self.key_at(i) == k,
    {
        lemma_entries_map(self.entries@);
        let i = choose|i: int| 0 <= i < self.entries@.len() && self.entries@[i].0@ == k;
        assert(self.key_at(i) == k);
    }

    /// A store holds finitely many keys.
    pub proof fn lemma_finite(&self)
        requires
            self.wf(),
        ensures
            self.view().dom().finite(),
    {
        lemma_entries_map(self.entries@);
    }

    pub closed spec fn key_at(&self, i: int) -> Seq<u8> {
        self.entries@[i].0@
    }


    /// The value under `key`, if there is one.
    pub fn read_db(&self, key: &[u8]) -> (r: Option<Vec<u8>>)
        requires
            self.wf(),
        ensures
            r is Some <==> self.view().contains_key(key@),
            r matches Some(v) ==> v@ == self.view()[key@],
    {
        proof {
            lemma_entries_map(self.entries@);
        }
        let mut i: usize = 0;
        while i < self.entries.len()
            invariant
                self.wf(),
                i <= self.entries@.len(),
                forall|j: int| 0 <= j < i ==> self.entries@[j].0@ != key@,
            decreases self.entries@.len() - i,
        {
            if bytes_eq(self.entries[i].0.as_slice(), key) {
                proof {
                    lemma_entries_map(self.entries@);
                    assert(entries_map(self.entries@).contains_key(self.entries@[i as int].0@));
                }
                return Some(copy_bytes(self.entries[i].1.as_slice()));
            }
            i = i + 1;
        }
        proof {
            if self.view().contains_key(key@) {
                let j = choose|j: int| 0 <= j < self.entries@.len() && self.entries@[j].0@ == key@;
            }
        }
        None
    }

    /// Puts `val` under `key`, in place of what was there.
    pub fn write_db(&mut self, key: &[u8], val: &[u8])
        requires
            old(self).wf(),
        ensures
            final(self).wf(),
            final(self).view() == old(self).view().insert(key@, val@),
    {
        proof {
            lemma_entries_map(self.entries@);
        }
        let mut i: usize = 0;
        while i < self.entries.len()
            invariant
                self.entries@ == old(self).entries@,
                entry_keys_unique(self.entries@),
                i <= self.entries@.len(),
                forall|j: int| 0 <= j < i ==> self.entries@[j].0@ != key@,
            decreases self.entries@.len() - i,
        {
            if bytes_eq(self.entries[i].0.as_slice(), key) {
                let ghost before = self.entries@;
                self.entries.set(i, (copy_bytes(key), copy_bytes(val)));
                proof {
                    lemma_entries_map(before);
                    assert(entry_keys_unique(self.entries@)) by {
                        assert forall|a: int, b: int|
                            0 <= a < b < self.entries@.len() implies #[trigger] self.entries@[a].0@
                            != #[trigger] self.entries@[b].0@ by {
                            assert(before[a].0@ != before[b].0@);
                        }
                    }
                    lemma_entries_map(self.entries@);
                    assert forall|k: Seq<u8>| #[trigger]
                        self.view().contains_key(k) <==> old(self).view().insert(
                            key@,
                            val@,
                        ).contains_key(k) by {
                        assert(self.view().contains_key(self.entries@[i as int].0@));
                        if self.view().contains_key(k) {
                            let j = choose|j: int|
                                0 <= j < self.entries@.len() && self.entries@[j].0@ == k;
                            if j != i {
                                assert(before[j] == self.entries@[j]);
                                assert(old(self).view().contains_key(before[j].0@));
                            }
                        }
                        if old(self).view().contains_key(k) {
                            let j = choose|j: int| 0 <= j < before.len() && before[j].0@ == k;
                            if j != i {
                                assert(before[j] == self.entries@[j]);
                                assert(self.view().contains_key(self.entries@[j].0@));
                            }
                        }
                    }
                    assert forall|k: Seq<u8>| #[trigger]
                        self.view().contains_key(k) implies self.view()[k] == old(
                            self,
                        ).view().insert(key@, val@)[k] by {
                        let j = choose|j: int|
                            0 <= j < self.entries@.len() && self.entries@[j].0@ == k;
                        if j != i {
                            assert(before[j] == self.entries@[j]);
                        }
                    }
                    assert(self.view() =~= old(self).view().insert(key@, val@));
                }
                return;
            }
            i = i + 1;
        }
        self.entries.push((copy_bytes(key), copy_bytes(val)));
        proof {
            let e = self.entries@;
            assert(e.drop_last() =~= old(self).entries@);
            assert(entry_keys_unique(e)) by {
                assert forall|a: int, b: int| 0 <= a < b < e.len() implies #[trigger] e[a].0@
                    != #[trigger] e[b].0@ by {
                    if b < e.len() - 1 {
                        assert(old(self).entries@[a] == e[a]);
                        assert(old(self).entries@[b] == e[b]);
                    } else {
                        assert(old(self).entries@[a] == e[a]);
                    }
                }
            }
        }
    }
}

} // verus!
