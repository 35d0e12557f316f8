use vstd::prelude::*;

use vstd::bytes::{spec_u64_to_le_bytes, u64_to_le_bytes};

verus! {

/// The sub-key under which a snapshot blob is persisted: the snapshot id
/// in fixed-width little-endian form.
pub fn storage_key(snapshot_id: u64) -> (r: Vec<u8>)
    ensures
        r@ == spec_u64_to_le_bytes(snapshot_id),
        r@.len() == 8,
{
    proof {
        vstd::bytes::lemma_auto_spec_u64_to_from_le_bytes();
    }
    u64_to_le_bytes(snapshot_id)
}

struct StoredBlob {
    snapshot_id: u64,
    blob: Vec<u8>,
}

/// The durable backing behind snapshot persistence: blobs keyed by
/// snapshot id, one blob per id. The surrounding process is responsible
/// for carrying it to and from disk; the engine only reads and writes it
/// through this map-shaped interface.
pub struct DurableStore {
    slots: Vec<StoredBlob>,
}

impl DurableStore {
    /// Keys are unique.
    pub closed spec fn wf(self) -> bool {
        forall|i: int, j: int|
            0 <= i < j < self.slots@.len() ==> self.slots@[i].snapshot_id
                != self.slots@[j].snapshot_id
    }

    pub closed spec fn contains_id(self, id: u64) -> bool {
        exists|i: int| 0 <= i < self.slots@.len() && self.slots@[i].snapshot_id == id
    }

    closed spec fn index_of(self, id: u64) -> int {
        choose|i: int| 0 <= i < self.slots@.len() && self.slots@[i].snapshot_id == id
    }

    /// The persisted blobs, keyed by snapshot id.
    pub closed spec fn view(self) -> Map<u64, Seq<u8>> {
        Map::new(
            |id: u64| self.contains_id(id),
            |id: u64| self.slots@[self.index_of(id)].blob@,
        )
    }

    proof fn lemma_at(self, i: int)
        requires
            self.wf(),
            0 <= i < self.slots@.len(),
        ensures
            self.contains_id(self.slots@[i].snapshot_id),
            self.index_of(self.slots@[i].snapshot_id) == i,
            self@.dom().contains(self.slots@[i].snapshot_id),
            self@[self.slots@[i].snapshot_id] == self.slots@[i].blob@,
    {
        let id = self.slots@[i].snapshot_id;
        assert(self.contains_id(id)) by {
            assert(0 <= i < self.slots@.len() && self.slots@[i].snapshot_id == id);
        }
        let j = self.index_of(id);
        assert(0 <= j < self.slots@.len() && self.slots@[j].snapshot_id == id);
        if i < j {
            assert(self.slots@[i].snapshot_id != self.slots@[j].snapshot_id);
        } else if j < i {
            assert(self.slots@[j].snapshot_id != self.slots@[i].snapshot_id);
        }
    }

    proof fn lemma_found(self, id: u64)
        requires
            self.wf(),
            self.contains_id(id),
        ensures
            0 <= self.index_of(id) < self.slots@.len(),
            self.slots@[self.index_of(id)].snapshot_id == id,
            self@.dom().contains(id),
            self@[id] == self.slots@[self.index_of(id)].blob@,
    {
        let j = self.index_of(id);
        assert(0 <= j < self.slots@.len() && self.slots@[j].snapshot_id == id);
    }

    pub fn new() -> (r: DurableStore)
        ensures
            r.wf(),
            r@ == Map::<u64, Seq<u8>>::empty(),
    {
        let r = DurableStore { slots: Vec::new() };
        proof {
            assert(r@ =~= Map::<u64, Seq<u8>>::empty());
        }
        r
    }

    fn find(&self, id: u64) -> (r: Option<usize>)
        requires
            self.wf(),
        ensures
            match r {
                Some(i) => i < self.slots@.len() && self.slots@[i as int].snapshot_id == id
                    && self.contains_id(id),
                None => !self.contains_id(id),
            },
    {
        let n = self.slots.len();
        let mut i: usize = 0;
        while i < n
            invariant
                n == self.slots@.len(),
                i <= n,
                forall|k: int| 0 <= k < i ==> self.slots@[k].snapshot_id != id,
            decreases n - i,
        {
            if self.slots[i].snapshot_id == id {
                return Some(i);
            }
            i += 1;
        }
        None
    }

    /// Read the persisted blob for a snapshot id, if one exists.
    pub fn get(&self, id: u64) -> (r: Option<Vec<u8>>)
        requires
            self.wf(),
        ensures
            match r {
                Some(b) => self@.dom().contains(id) && b@ == self@[id],
                None => !self@.dom().contains(id),
            },
    {
        match self.find(id) {
            Some(i) => {
                proof {
                    self.lemma_at(i as int);
                }
                Some(self.slots[i].blob.clone())
            },
            None => None,
        }
    }

    /// Persist a blob under a snapshot id, replacing any previous blob for
    /// the same id.
    pub fn put(&mut self, id: u64, blob: Vec<u8>)
        requires
            old(self).wf(),
        ensures
            final(self).wf(),
            final(self)@ == old(self)@.insert(id, blob@),
    {
        let ghost pre = *self;
        match self.find(id) {
            Some(i) => {
                self.slots.remove(i);
                self.slots.insert(i, StoredBlob { snapshot_id: id, blob });
                proof {
                    let s = pre.slots@;
                    let t = self.slots@;
                    assert(t =~= s.update(i as int, t[i as int]));
                    assert(self.wf()) by {
                        assert forall|p: int, q: int|
                            0 <= p < q < t.len() implies t[p].snapshot_id
                                != t[q].snapshot_id by {
                            assert(s[p].snapshot_id != s[q].snapshot_id);
                            if p != i && q != i {
                                assert(t[p] == s[p] && t[q] == s[q]);
                            } else if p == i {
                                assert(t[q] == s[q] && t[p].snapshot_id == s[p].snapshot_id);
                            } else {
                                assert(t[p] == s[p] && t[q].snapshot_id == s[q].snapshot_id);
                            }
                        }
                    }
                    let target = pre@.insert(id, blob@);
                    assert forall|x: u64|
                        self@.dom().contains(x) <==> target.dom().contains(x) by {
                        if self.contains_id(x) {
                            let j = choose|j: int|
                                0 <= j < t.len() && t[j].snapshot_id == x;
                            if j != i {
                                assert(s[j].snapshot_id == x);
                                assert(pre.contains_id(x));
                            }
                        }
                        if x == id {
                            self.lemma_at(i as int);
                        } else if pre.contains_id(x) {
                            pre.lemma_found(x);
                            let j = pre.index_of(x);
                            assert(j != i);
                            assert(t[j] == s[j]);
                            self.lemma_at(j);
                        }
                    }
                    assert forall|x: u64|
                        self@.dom().contains(x) implies self@[x] == target[x] by {
                        self.lemma_found(x);
                        let j = self.index_of(x);
                        self.lemma_at(j);
                        if j == i {
                            assert(x == id);
                        } else {
                            assert(t[j] == s[j]);
                            pre.lemma_at(j);
                            assert(x != id);
                        }
                    }
                    assert(self@ =~= target);
                }
            },
            None => {
                self.slots.push(StoredBlob { snapshot_id: id, blob });
                proof {
                    let s = pre.slots@;
                    let t = self.slots@;
                    let n = s.len() as int;
                    assert(self.wf()) by {
                        assert forall|p: int, q: int|
                            0 <= p < q < t.len() implies t[p].snapshot_id
                                != t[q].snapshot_id by {
                            if q < n {
                                assert(t[p] == s[p] && t[q] == s[q]);
                            } else {
                                if t[p].snapshot_id == id {
                                    assert(s[p].snapshot_id == id);
                                    assert(pre.contains_id(id));
                                }
                            }
                        }
                    }
                    let target = pre@.insert(id, blob@);
                    assert forall|x: u64|
                        self@.dom().contains(x) <==> target.dom().contains(x) by {
                        if self.contains_id(x) {
                            let j = choose|j: int|
                                0 <= j < t.len() && t[j].snapshot_id == x;
                            if j != n {
                                assert(s[j].snapshot_id == x);
                                assert(pre.contains_id(x));
                            }
                        }
                        if x == id {
                            self.lemma_at(n);
                        } else if pre.contains_id(x) {
                            pre.lemma_found(x);
                            let j = pre.index_of(x);
                            assert(t[j] == s[j]);
                            self.lemma_at(j);
                        }
                    }
                    assert forall|x: u64|
                        self@.dom().contains(x) implies self@[x] == target[x] by {
                        self.lemma_found(x);
                        let j = self.index_of(x);
                        self.lemma_at(j);
                        if j == n {
                            assert(x == id);
                        } else {
                            assert(t[j] == s[j]);
                            pre.lemma_at(j);
                            assert(x != id);
                        }
                    }
                    assert(self@ =~= target);
                }
            },
        }
    }
}

} // verus!
