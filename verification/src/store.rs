use vstd::prelude::*;
use crate::codec;
use crate::errors::ServerError;

verus! {

/// One stored value, always held in the codec's compressed form; it is never
/// stored raw.
pub struct CacheEntry {
    pub compressed_data: Vec<u8>,
}

/// The key-value store: a mapping from unique text keys to compressed
/// entries. Its abstract view is the map from each key to the raw
/// (uncompressed) bytes last written for that key.
pub struct CacheStore {
    entries: Vec<(String, CacheEntry)>,
    raws: Ghost<Seq<Seq<u8>>>,
}

spec fn distinct_keys(entries: Seq<(String, CacheEntry)>) -> bool {
    forall|i: int, j: int| 0 <= i < j < entries.len() ==> entries[i].0@ != entries[j].0@
}

spec fn has_key(entries: Seq<(String, CacheEntry)>, k: Seq<char>) -> bool {
    exists|i: int| 0 <= i < entries.len() && entries[i].0@ == k
}

spec fn index_of_key(entries: Seq<(String, CacheEntry)>, k: Seq<char>) -> int {
    choose|i: int| 0 <= i < entries.len() && entries[i].0@ == k
}

proof fn lemma_key_at(entries: Seq<(String, CacheEntry)>, i: int)
    requires
        distinct_keys(entries),
        0 <= i < entries.len(),
    ensures
        has_key(entries, entries[i].0@),
        index_of_key(entries, entries[i].0@) == i,
{
    assert(has_key(entries, entries[i].0@));
    let j = index_of_key(entries, entries[i].0@);
    assert(0 <= j < entries.len() && entries[j].0@ == entries[i].0@);
    if j < i {
        assert(false);
    } else if i < j {
        assert(false);
    }
}

/// Write-then-read law: after a successful `put(k, v)` the store's view maps
/// `k` to `v`, and keeps doing so across writes under other keys and across
/// deletions whose key set does not hold `k`.
pub proof fn lemma_write_then_read(
    m: Map<Seq<char>, Seq<u8>>,
    k: Seq<char>,
    v: Seq<u8>,
    k2: Seq<char>,
    v2: Seq<u8>,
    deleted: Set<Seq<char>>,
)
    requires
        k2 != k,
        !deleted.contains(k),
    ensures
        m.insert(k, v).contains_key(k) && m.insert(k, v)[k] == v,
        m.insert(k, v).insert(k2, v2).contains_key(k) && m.insert(k, v).insert(k2, v2)[k] == v,
        m.insert(k, v).remove_keys(deleted).contains_key(k) && m.insert(k, v).remove_keys(
            deleted,
        )[k] == v,
{
}

impl View for CacheStore {
    type V = Map<Seq<char>, Seq<u8>>;

    closed spec fn view(&self) -> Map<Seq<char>, Seq<u8>> {
        Map::new(
            |k: Seq<char>| has_key(self.entries@, k),
            |k: Seq<char>| self.raws@[index_of_key(self.entries@, k)],
        )
    }
}

impl CacheStore {
    /// Internal consistency: at most one entry per key, and every entry's
    /// bytes are exactly the codec's compressed form of the raw bytes last
    /// written, so decoding a stored entry always succeeds.
    pub closed spec fn wf(&self) -> bool {
        &&& self.raws@.len() == self.entries@.len()
        &&& distinct_keys(self.entries@)
        &&& forall|i: int|
            0 <= i < self.entries@.len() ==> codec::decompressed_of(
                (#[trigger] self.entries@[i]).1.compressed_data@,
            ) == Some(self.raws@[i])
        &&& forall|i: int|
            0 <= i < self.entries@.len() ==> (#[trigger] self.entries@[i]).1.compressed_data@
                == codec::compressed_of(self.raws@[i])
    }

    /// An empty store.
    pub fn new() -> (s: Self)
        ensures
            s.wf(),
            s@ == Map::<Seq<char>, Seq<u8>>::empty(),
    {
        let s = CacheStore { entries: Vec::new(), raws: Ghost(Seq::empty()) };
        proof {
            assert(s@ =~= Map::<Seq<char>, Seq<u8>>::empty());
        }
        s
    }

    fn find_index(&self, key: &String) -> (r: Option<usize>)
        requires
            self.wf(),
        ensures
            match r {
                Some(i) => i < self.entries@.len() && self.entries@[i as int].0@ == key@,
                None => !has_key(self.entries@, key@),
            },
    {
        let mut i: usize = 0;
        while i < self.entries.len()
            invariant
                i <= self.entries@.len(),
                forall|j: int| 0 <= j < i ==> (#[trigger] self.entries@[j]).0@ != key@,
            decreases self.entries@.len() - i,
        {
            if self.entries[i].0 == *key {
                return Some(i);
            }
            i += 1;
        }
        None
    }

    /// Pure lookup: does the store hold an entry for `key`? Never fails.
    pub fn contains_key(&self, key: &String) -> (r: bool)
        requires
            self.wf(),
        ensures
            r == self@.contains_key(key@),
    {
        match self.find_index(key) {
            Some(i) => {
                proof {
                    lemma_key_at(self.entries@, i as int);
                }
                true
            },
            None => false,
        }
    }

    /// Look up `key` and return the raw bytes last written for it, decoding
    /// the stored compressed entry. Fails with `KeyNotFound` carrying the key
    /// itself exactly when the key is absent.
    pub fn get(&self, key: &String) -> (r: Result<Vec<u8>, ServerError>)
        requires
            self.wf(),
        ensures
            self@.contains_key(key@) ==> (r matches Ok(v) && v@ == self@[key@]),
            !self@.contains_key(key@) ==> (r matches Err(e) && e matches ServerError::KeyNotFound(m)
                && m@ == key@),
    {
        match self.find_index(key) {
            Some(i) => {
                proof {
                    lemma_key_at(self.entries@, i as int);
                }
                match codec::decode(&self.entries[i].1.compressed_data) {
                    Ok(v) => Ok(v),
                    Err(e) => {
                        proof {
                            assert(false);
                        }
                        Err(e)
                    },
                }
            },
            None => Err(ServerError::KeyNotFound(String::from_str(key.as_str()))),
        }
    }

    /// Remove the entry for `key` if one exists; reports whether one did.
    fn remove_key(&mut self, key: &String) -> (r: bool)
        requires
            old(self).wf(),
        ensures
            final(self).wf(),
            r == old(self)@.contains_key(key@),
            final(self)@ == old(self)@.remove(key@),
    {
        match self.find_index(key) {
            Some(i) => {
                let ghost e = self.entries@;
                let ghost rs = self.raws@;
                let ghost k0 = e[i as int].0@;
                self.entries.remove(i);
                self.raws = Ghost(rs.remove(i as int));
                proof {
                    lemma_key_at(e, i as int);
                    e.remove_ensures(i as int);
                    rs.remove_ensures(i as int);
                    let ep = self.entries@;
                    let rp = self.raws@;
                    assert forall|a: int, b: int| 0 <= a < b < ep.len() implies ep[a].0@
                        != ep[b].0@ by {
                        let a0: int = if a < i { a } else { a + 1 };
                        let b0: int = if b < i { b } else { b + 1 };
                        assert(ep[a] == e[a0] && ep[b] == e[b0]);
                    }
                    assert forall|k: Seq<char>| #[trigger]
                        has_key(ep, k) implies has_key(e, k) && k != k0 by {
                        let j = index_of_key(ep, k);
                        assert(0 <= j < ep.len() && ep[j].0@ == k);
                        let j0: int = if j < i { j } else { j + 1 };
                        assert(e[j0].0@ == k);
                        lemma_key_at(e, j0);
                    }
                    assert forall|k: Seq<char>|
                        has_key(e, k) && k != k0 implies #[trigger] has_key(ep, k) by {
                        let j0 = index_of_key(e, k);
                        assert(0 <= j0 < e.len() && e[j0].0@ == k);
                        assert(j0 != i);
                        let j: int = if j0 < i { j0 } else { j0 - 1 };
                        assert(ep[j].0@ == k);
                    }
                    assert forall|k: Seq<char>| #[trigger]
                        has_key(ep, k) implies rp[index_of_key(ep, k)] == rs[index_of_key(
                        e,
                        k,
                    )] by {
                        let j = index_of_key(ep, k);
                        assert(0 <= j < ep.len() && ep[j].0@ == k);
                        let j0: int = if j < i { j } else { j + 1 };
                        assert(e[j0].0@ == k);
                        lemma_key_at(e, j0);
                        assert(index_of_key(e, k) == j0);
                        assert(rp[j] == rs[j0]);
                    }
                    assert(self@ =~= old(self)@.remove(key@));
                }
                true
            },
            None => {
                proof {
                    assert(self@ =~= old(self)@.remove(key@));
                }
                false
            },
        }
    }

    /// Write `value` under `key`: compress it and replace any existing entry.
    /// The codec accepts every byte sequence, so success is owed, and the
    /// store's view gains (or overwrites) exactly that one binding.
    pub fn put(&mut self, key: String, value: &Vec<u8>) -> (r: Result<(), ServerError>)
        requires
            old(self).wf(),
        ensures
            final(self).wf(),
            r is Ok,
            final(self)@ == old(self)@.insert(key@, value@),
    {
        match codec::encode(value) {
            Ok(compressed) => {
                self.remove_key(&key);
                let ghost e = self.entries@;
                let ghost rs = self.raws@;
                let ghost mid = self@;
                proof {
                    assert(!mid.contains_key(key@));
                    if has_key(e, key@) {
                        assert(mid.contains_key(key@));
                    }
                    assert(!has_key(e, key@));
                }
                self.entries.push((key, CacheEntry { compressed_data: compressed }));
                self.raws = Ghost(rs.push(value@));
                proof {
                    let ep = self.entries@;
                    let rp = self.raws@;
                    let k0 = ep[ep.len() - 1].0@;
                    assert(!has_key(e, k0));
                    assert forall|a: int, b: int| 0 <= a < b < ep.len() implies ep[a].0@
                        != ep[b].0@ by {
                        if b < ep.len() - 1 {
                            assert(ep[a] == e[a] && ep[b] == e[b]);
                        } else {
                            assert(ep[a] == e[a]);
                            assert(!(e[a].0@ == k0));
                        }
                    }
                    assert forall|k: Seq<char>| #[trigger]
                        has_key(ep, k) implies k == k0 || has_key(e, k) by {
                        let j = index_of_key(ep, k);
                        assert(0 <= j < ep.len() && ep[j].0@ == k);
                        if j < ep.len() - 1 {
                            assert(e[j].0@ == k);
                        }
                    }
                    assert forall|k: Seq<char>| has_key(e, k) implies #[trigger] has_key(ep, k) by {
                        let j = index_of_key(e, k);
                        assert(0 <= j < e.len() && e[j].0@ == k);
                        assert(ep[j].0@ == k);
                    }
                    assert forall|k: Seq<char>| has_key(e, k) implies rp[index_of_key(ep, k)]
                        == rs[index_of_key(e, k)] by {
                        let j0 = index_of_key(e, k);
                        assert(0 <= j0 < e.len() && e[j0].0@ == k);
                        assert(ep[j0].0@ == k);
                        assert(distinct_keys(ep));
                        lemma_key_at(ep, j0);
                        assert(index_of_key(ep, k) == j0);
                    }
                    assert(has_key(ep, k0));
                    assert(distinct_keys(ep));
                    lemma_key_at(ep, ep.len() - 1);
                    assert(index_of_key(ep, k0) == ep.len() - 1);
                    assert(rp[ep.len() - 1] == value@);
                    let target = old(self)@.insert(k0, value@);
                    assert(mid == old(self)@.remove(k0));
                    assert forall|k: Seq<char>| #[trigger]
                        target.contains_key(k) implies self@.contains_key(k) && self@[k]
                        == target[k] by {
                        if k == k0 {
                            assert(self@.contains_key(k0));
                            assert(self@[k0] == rp[index_of_key(ep, k0)]);
                            assert(self@[k0] == value@);
                        } else {
                            assert(old(self)@.contains_key(k));
                            assert(mid.contains_key(k));
                            assert(has_key(e, k));
                            assert(has_key(ep, k));
                            assert(self@.contains_key(k));
                            assert(mid[k] == rs[index_of_key(e, k)]);
                            assert(old(self)@[k] == mid[k]);
                            assert(self@[k] == rp[index_of_key(ep, k)]);
                            assert(rp[index_of_key(ep, k)] == rs[index_of_key(e, k)]);
                        }
                    }
                    assert forall|k: Seq<char>| #[trigger]
                        self@.contains_key(k) implies target.contains_key(k) by {
                        assert(has_key(ep, k));
                        if k != k0 {
                            assert(has_key(e, k));
                            assert(mid.contains_key(k));
                            assert(old(self)@.contains_key(k));
                        }
                    }
                    assert(self@ =~= target);
                }
                Ok(())
            },
            Err(e) => {
                proof {
                    assert(false);
                }
                Err(e)
            },
        }
    }

    /// Remove every listed key that exists. Succeeds when at least one of
    /// the listed keys existed; fails with `KeyNotFound` when none did.
    pub fn delete(&mut self, keys: &Vec<String>) -> (r: Result<(), ServerError>)
        requires
            old(self).wf(),
        ensures
            final(self).wf(),
            final(self)@ == old(self)@.remove_keys(
                Set::new(|k: Seq<char>| exists|i: int| 0 <= i < keys@.len() && #[trigger] keys@[i]@ == k),
            ),
            r is Ok <==> exists|i: int|
                0 <= i < keys@.len() && old(self)@.contains_key(#[trigger] keys@[i]@),
            r matches Err(e) ==> e matches ServerError::KeyNotFound(m)
                && m@ == "None of the keys found"@,
    {
        let mut found = false;
        let mut t: usize = 0;
        while t < keys.len()
            invariant
                old(self).wf(),
                self.wf(),
                t <= keys@.len(),
                self@ == old(self)@.remove_keys(
                    Set::new(|k: Seq<char>| exists|i: int| 0 <= i < t && #[trigger] keys@[i]@ == k),
                ),
                found <==> exists|i: int|
                    0 <= i < t && old(self)@.contains_key(#[trigger] keys@[i]@),
            decreases keys@.len() - t,
        {
            let ghost pre = self@;
            let ghost t0 = t as int;
            let was_there = self.remove_key(&keys[t]);
            proof {
                let kt = keys@[t0]@;
                let s_t = Set::new(
                    |k: Seq<char>| exists|i: int| 0 <= i < t0 && #[trigger] keys@[i]@ == k,
                );
                if was_there {
                    assert(pre.contains_key(kt));
                    assert(old(self)@.contains_key(kt));
                }
                if !found && old(self)@.contains_key(kt) {
                    if s_t.contains(kt) {
                        let i = choose|i: int| 0 <= i < t0 && #[trigger] keys@[i]@ == kt;
                        assert(old(self)@.contains_key(keys@[i]@));
                        assert(false);
                    }
                    assert(pre.contains_key(kt));
                }
                assert(self@ =~= old(self)@.remove_keys(
                    Set::new(
                        |k: Seq<char>| exists|i: int| 0 <= i < t0 + 1 && #[trigger] keys@[i]@ == k,
                    ),
                ));
            }
            found = found || was_there;
            t += 1;
        }
        if found {
            Ok(())
        } else {
            Err(ServerError::KeyNotFound(String::from_str("None of the keys found")))
        }
    }
}

} // verus!
