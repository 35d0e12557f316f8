use vstd::prelude::*;

use vstd::bytes::{
    lemma_auto_spec_u64_to_from_le_bytes, spec_u64_from_le_bytes, spec_u64_to_le_bytes,
    u64_from_le_bytes, u64_to_le_bytes,
};
use vstd::slice::{slice_subrange, slice_to_vec};

use crate::hashing::{digest_of, hash_bytes};
use crate::types::ContentDigest;

verus! {

/// One entry on the wire: the digest (32 bytes), the byte length (8 bytes
/// little endian), the raw bytes, then the reference count (8 bytes little
/// endian).
pub open spec fn encode_entry(e: EntryModel) -> Seq<u8> {
    e.0 + spec_u64_to_le_bytes(e.1.len() as u64) + e.1 + spec_u64_to_le_bytes(e.2)
}

pub open spec fn encode_entries(s: Seq<EntryModel>) -> Seq<u8>
    decreases s.len(),
{
    if s.len() == 0 {
        Seq::empty()
    } else {
        encode_entry(s[0]) + encode_entries(s.skip(1))
    }
}

/// The durable snapshot record: the entry count (8 bytes little endian)
/// followed by the entries in storage order.
pub open spec fn encode_state(s: Seq<EntryModel>) -> Seq<u8> {
    spec_u64_to_le_bytes(s.len() as u64) + encode_entries(s)
}

pub open spec fn parse_entries(b: Seq<u8>, n: nat) -> Option<Seq<EntryModel>>
    decreases n,
{
    if n == 0 {
        if b.len() == 0 {
            Some(Seq::empty())
        } else {
            None
        }
    } else if b.len() < 40 {
        None
    } else {
        let digest = b.subrange(0, 32);
        let len = spec_u64_from_le_bytes(b.subrange(32, 40));
        if b.len() < 48 + len {
            None
        } else {
            let bytes = b.subrange(40, 40 + len);
            let rc = spec_u64_from_le_bytes(b.subrange(40 + len, 48 + len));
            match parse_entries(b.skip(48 + len), (n - 1) as nat) {
                None => None,
                Some(rest) => Some(seq![(digest, bytes, rc)] + rest),
            }
        }
    }
}

/// What a snapshot blob means: `Some` exactly on well-formed encodings of
/// well-formed entry sequences, and then the entries themselves.
pub open spec fn parse_state(b: Seq<u8>) -> Option<Seq<EntryModel>> {
    if b.len() < 8 {
        None
    } else {
        let n = spec_u64_from_le_bytes(b.subrange(0, 8));
        match parse_entries(b.skip(8), n as nat) {
            None => None,
            Some(v) => if entries_wf(v) {
                Some(v)
            } else {
                None
            },
        }
    }
}

spec fn opt_prepend(prefix: Seq<EntryModel>, o: Option<Seq<EntryModel>>) -> Option<
    Seq<EntryModel>,
> {
    match o {
        None => None,
        Some(v) => Some(prefix + v),
    }
}

proof fn lemma_encode_entries_push(s: Seq<EntryModel>, e: EntryModel)
    ensures
        encode_entries(s.push(e)) == encode_entries(s) + encode_entry(e),
    decreases s.len(),
{
    if s.len() == 0 {
        assert(s.push(e)[0] == e);
        assert(s.push(e).skip(1) =~= Seq::<EntryModel>::empty());
        assert(encode_entry(e) + encode_entries(Seq::<EntryModel>::empty()) =~= encode_entry(e));
        assert(encode_entries(s) + encode_entry(e) =~= encode_entry(e));
    } else {
        assert(s.push(e)[0] == s[0]);
        assert(s.push(e).skip(1) =~= s.skip(1).push(e));
        lemma_encode_entries_push(s.skip(1), e);
        assert(encode_entry(s[0]) + (encode_entries(s.skip(1)) + encode_entry(e)) =~= (
        encode_entry(s[0]) + encode_entries(s.skip(1))) + encode_entry(e));
    }
}

/// Parsing inverts encoding, entry list by entry list.
proof fn lemma_parse_entries_round_trip(s: Seq<EntryModel>)
    requires
        forall|i: int|
            0 <= i < s.len() ==> (#[trigger] s[i]).0.len() == 32 && s[i].1.len() <= u64::MAX,
    ensures
        parse_entries(encode_entries(s), s.len()) == Some(s),
    decreases s.len(),
{
    lemma_auto_spec_u64_to_from_le_bytes();
    if s.len() > 0 {
        let e = s[0];
        let len = e.1.len() as int;
        let head = encode_entry(e);
        let tail = encode_entries(s.skip(1));
        let b = encode_entries(s);
        assert(b == head + tail);
        assert(head.len() == 48 + len);
        assert(b.subrange(0, 32) =~= e.0);
        assert(b.subrange(32, 40) =~= spec_u64_to_le_bytes(e.1.len() as u64));
        assert(spec_u64_from_le_bytes(b.subrange(32, 40)) == e.1.len() as u64);
        assert(b.subrange(40, 40 + len) =~= e.1);
        assert(b.subrange(40 + len, 48 + len) =~= spec_u64_to_le_bytes(e.2));
        assert(b.skip(48 + len) =~= tail);
        assert(forall|i: int|
            0 <= i < s.skip(1).len() ==> (#[trigger] s.skip(1)[i]) == s[i + 1]);
        lemma_parse_entries_round_trip(s.skip(1));
        assert(e == (e.0, e.1, e.2));
        assert(seq![(e.0, e.1, e.2)] + s.skip(1) =~= s);
        assert(parse_entries(b, s.len()) == Some(s));
    }
}

/// Round trip of the snapshot record: decoding an encoded well-formed
/// store yields exactly the store's entries.
pub proof fn lemma_snapshot_round_trip(s: Seq<EntryModel>)
    requires
        entries_wf(s),
        s.len() <= u64::MAX,
        forall|i: int| 0 <= i < s.len() ==> (#[trigger] s[i]).1.len() <= u64::MAX,
    ensures
        parse_state(encode_state(s)) == Some(s),
{
    lemma_auto_spec_u64_to_from_le_bytes();
    let b = encode_state(s);
    assert(b.subrange(0, 8) =~= spec_u64_to_le_bytes(s.len() as u64));
    assert(spec_u64_from_le_bytes(b.subrange(0, 8)) == s.len() as u64);
    assert(b.skip(8) =~= encode_entries(s));
    lemma_parse_entries_round_trip(s);
}

/// The abstract value of one stored entry: its content digest, its raw
/// bytes, and its reference count.
pub type EntryModel = (Seq<u8>, Seq<u8>, u64);

/// Well-formedness of an abstract entry sequence: every digest is 32 bytes
/// wide, every reference count is positive (an entry whose count reaches
/// zero is garbage-collected away), and digests are unique.
pub open spec fn entries_wf(s: Seq<EntryModel>) -> bool {
    &&& forall|i: int| 0 <= i < s.len() ==> (#[trigger] s[i]).0.len() == 32 && s[i].2 >= 1
    &&& forall|i: int, j: int| 0 <= i < j < s.len() ==> s[i].0 != s[j].0
}

struct ContentEntry {
    digest: Vec<u8>,
    bytes: Vec<u8>,
    refcount: u64,
}

impl ContentEntry {
    spec fn model(self) -> EntryModel {
        (self.digest@, self.bytes@, self.refcount)
    }
}

/// The content-addressed store: a mapping from content digest to raw bytes
/// with a manual reference count per entry. An entry is inserted under the
/// digest of its bytes; removing it decrements the count and reclaims the
/// entry when the count reaches zero. This is the whole application state
/// that a snapshot captures.
pub struct ContentStore {
    entries: Vec<ContentEntry>,
}

/// Compare two byte strings.
fn bytes_eq(a: &Vec<u8>, b: &Vec<u8>) -> (r: bool)
    ensures
        r <==> a@ == b@,
{
    if a.len() != b.len() {
        proof {
            assert(a@ != b@) by {
                assert(a@.len() != b@.len());
            }
        }
        return false;
    }
    let n = a.len();
    let mut i: usize = 0;
    while i < n
        invariant
            n == a@.len(),
            n == b@.len(),
            i <= n,
            forall|k: int| 0 <= k < i ==> a@[k] == b@[k],
        decreases n - i,
    {
        if a[i] != b[i] {
            return false;
        }
        i += 1;
    }
    proof {
        assert(a@ =~= b@);
    }
    true
}

impl ContentStore {
    /// The store as a sequence of entry models, in storage order.
    pub closed spec fn entry_seq(self) -> Seq<EntryModel> {
        self.entries@.map_values(|e: ContentEntry| e.model())
    }

    pub open spec fn wf(self) -> bool {
        entries_wf(self.entry_seq())
    }

    pub closed spec fn contains_digest(self, d: Seq<u8>) -> bool {
        exists|i: int| 0 <= i < self.entries@.len() && self.entries@[i].digest@ == d
    }

    closed spec fn digest_index(self, d: Seq<u8>) -> int {
        choose|i: int| 0 <= i < self.entries@.len() && self.entries@[i].digest@ == d
    }

    /// The store as a map from content digest to (bytes, reference count).
    pub closed spec fn view(self) -> Map<Seq<u8>, (Seq<u8>, u64)> {
        Map::new(
            |d: Seq<u8>| self.contains_digest(d),
            |d: Seq<u8>|
                (
                    self.entries@[self.digest_index(d)].bytes@,
                    self.entries@[self.digest_index(d)].refcount,
                ),
        )
    }

    /// The entry at a valid index is in the map, under its own digest.
    proof fn lemma_at(self, i: int)
        requires
            self.wf(),
            0 <= i < self.entries@.len(),
        ensures
            self.contains_digest(self.entries@[i].digest@),
            self.digest_index(self.entries@[i].digest@) == i,
            self@.dom().contains(self.entries@[i].digest@),
            self@[self.entries@[i].digest@]
                == (self.entries@[i].bytes@, self.entries@[i].refcount),
            self.entry_seq()[i] == self.entries@[i].model(),
    {
        let d = self.entries@[i].digest@;
        assert(self.contains_digest(d)) by {
            assert(0 <= i < self.entries@.len() && self.entries@[i].digest@ == d);
        }
        let j = self.digest_index(d);
        assert(0 <= j < self.entries@.len() && self.entries@[j].digest@ == d);
        if i != j {
            assert(self.entry_seq()[i].0 == self.entries@[i].digest@);
            assert(self.entry_seq()[j].0 == self.entries@[j].digest@);
            if i < j {
                assert(self.entry_seq()[i].0 != self.entry_seq()[j].0);
            } else {
                assert(self.entry_seq()[j].0 != self.entry_seq()[i].0);
            }
        }
    }

    /// A present digest sits at its (unique) index.
    proof fn lemma_found(self, d: Seq<u8>)
        requires
            self.wf(),
            self.contains_digest(d),
        ensures
            0 <= self.digest_index(d) < self.entries@.len(),
            self.entries@[self.digest_index(d)].digest@ == d,
            self@.dom().contains(d),
            self@[d] == (
                self.entries@[self.digest_index(d)].bytes@,
                self.entries@[self.digest_index(d)].refcount,
            ),
    {
        let j = self.digest_index(d);
        assert(0 <= j < self.entries@.len() && self.entries@[j].digest@ == d);
    }

    pub fn new() -> (r: ContentStore)
        ensures
            r.wf(),
            r@ == Map::<Seq<u8>, (Seq<u8>, u64)>::empty(),
            r.entry_seq() == Seq::<EntryModel>::empty(),
    {
        let r = ContentStore { entries: Vec::new() };
        proof {
            assert(r.entry_seq() =~= Seq::<EntryModel>::empty());
            assert(r@ =~= Map::<Seq<u8>, (Seq<u8>, u64)>::empty());
        }
        r
    }

    /// Find the storage index of a digest, if present.
    fn find(&self, d: &Vec<u8>) -> (r: Option<usize>)
        requires
            self.wf(),
        ensures
            match r {
                Some(i) => i < self.entries@.len() && self.entries@[i as int].digest@ == d@
                    && self.contains_digest(d@),
                None => !self.contains_digest(d@),
            },
    {
        let n = self.entries.len();
        let mut i: usize = 0;
        while i < n
            invariant
                n == self.entries@.len(),
                i <= n,
                forall|k: int| 0 <= k < i ==> self.entries@[k].digest@ != d@,
            decreases n - i,
        {
            if bytes_eq(&self.entries[i].digest, d) {
                return Some(i);
            }
            i += 1;
        }
        None
    }

    /// Look up the raw bytes stored under a digest.
    pub fn get(&self, d: &ContentDigest) -> (r: Option<Vec<u8>>)
        requires
            self.wf(),
        ensures
            match r {
                Some(b) => self@.dom().contains(d@) && b@ == self@[d@].0,
                None => !self@.dom().contains(d@),
            },
    {
        let key = d.to_bytes();
        match self.find(&key) {
            Some(i) => {
                proof {
                    self.lemma_at(i as int);
                }
                Some(self.entries[i].bytes.clone())
            },
            None => None,
        }
    }

    /// Store a byte string under the digest of its content. A fresh entry
    /// starts with reference count 1; re-inserting existing content bumps
    /// the count (saturating at the counter's maximum) and keeps the bytes.
    pub fn insert(&mut self, bytes: Vec<u8>) -> (r: ContentDigest)
        requires
            old(self).wf(),
        ensures
            final(self).wf(),
            r@ == digest_of(bytes@),
            r.wf(),
            final(self)@ == old(self)@.insert(
                digest_of(bytes@),
                if old(self)@.dom().contains(digest_of(bytes@)) {
                    let prev = old(self)@[digest_of(bytes@)];
                    (prev.0, if prev.1 < u64::MAX { (prev.1 + 1) as u64 } else { prev.1 })
                } else {
                    (bytes@, 1u64)
                },
            ),
    {
        let ghost pre = *self;
        let d = hash_bytes(&bytes);
        let key = d.to_bytes();
        match self.find(&key) {
            Some(i) => {
                proof {
                    pre.lemma_at(i as int);
                }
                let mut entry = self.entries.remove(i);
                if entry.refcount < u64::MAX {
                    entry.refcount = entry.refcount + 1;
                }
                self.entries.insert(i, entry);
                proof {
                    self.lemma_replace(pre, i as int);
                }
            },
            None => {
                self.entries.push(ContentEntry { digest: key, bytes, refcount: 1 });
                proof {
                    self.lemma_push(pre);
                }
            },
        }
        d
    }

    /// Drop one reference to the content stored under a digest. When the
    /// last reference goes, the entry is reclaimed. Reports whether the
    /// digest was present.
    pub fn remove(&mut self, d: &ContentDigest) -> (r: bool)
        requires
            old(self).wf(),
        ensures
            final(self).wf(),
            r <==> old(self)@.dom().contains(d@),
            final(self)@ == if old(self)@.dom().contains(d@) {
                let prev = old(self)@[d@];
                if prev.1 == 1 {
                    old(self)@.remove(d@)
                } else {
                    old(self)@.insert(d@, (prev.0, (prev.1 - 1) as u64))
                }
            } else {
                old(self)@
            },
    {
        let ghost pre = *self;
        let key = d.to_bytes();
        match self.find(&key) {
            Some(i) => {
                proof {
                    pre.lemma_at(i as int);
                }
                let mut entry = self.entries.remove(i);
                if entry.refcount == 1 {
                    proof {
                        self.lemma_remove(pre, i as int);
                    }
                } else {
                    entry.refcount = entry.refcount - 1;
                    self.entries.insert(i, entry);
                    proof {
                        self.lemma_replace(pre, i as int);
                    }
                }
                true
            },
            None => false,
        }
    }

    /// After replacing the entry at index `i` with one carrying the same
    /// digest, only that digest's binding changes.
    proof fn lemma_replace(self, pre: ContentStore, i: int)
        requires
            pre.wf(),
            0 <= i < pre.entries@.len(),
            self.entries@.len() == pre.entries@.len(),
            self.entries@[i].digest@ == pre.entries@[i].digest@,
            self.entries@[i].refcount >= 1,
            forall|k: int| 0 <= k < pre.entries@.len() && k != i
                ==> self.entries@[k] == pre.entries@[k],
        ensures
            self.wf(),
            self@ == pre@.insert(
                pre.entries@[i].digest@,
                (self.entries@[i].bytes@, self.entries@[i].refcount),
            ),
    {
        let d = pre.entries@[i].digest@;
        assert forall|x: Seq<u8>| self.contains_digest(x) <==> pre.contains_digest(x) by {
            if self.contains_digest(x) {
                let j = choose|j: int|
                    0 <= j < self.entries@.len() && self.entries@[j].digest@ == x;
                assert(pre.entries@[j].digest@ == x);
                assert(pre.contains_digest(x));
            }
            if pre.contains_digest(x) {
                let j = choose|j: int|
                    0 <= j < pre.entries@.len() && pre.entries@[j].digest@ == x;
                assert(self.entries@[j].digest@ == x);
                assert(self.contains_digest(x));
            }
        }
        assert(self.wf()) by {
            assert(forall|k: int| 0 <= k < self.entries@.len()
                ==> (#[trigger] self.entry_seq()[k]) == self.entries@[k].model());
            assert(forall|k: int| 0 <= k < pre.entries@.len()
                ==> (#[trigger] pre.entry_seq()[k]) == pre.entries@[k].model());
            assert(pre.entry_seq()[i] == pre.entries@[i].model());
            assert forall|p: int, q: int|
                0 <= p < q < self.entry_seq().len()
                    implies self.entry_seq()[p].0 != self.entry_seq()[q].0 by {
                assert(pre.entry_seq()[p].0 == pre.entries@[p].digest@);
                assert(pre.entry_seq()[q].0 == pre.entries@[q].digest@);
                assert(self.entries@[p].digest@ == pre.entries@[p].digest@);
                assert(self.entries@[q].digest@ == pre.entries@[q].digest@);
            }
            assert forall|k: int|
                0 <= k < self.entry_seq().len()
                    implies (#[trigger] self.entry_seq()[k]).0.len() == 32
                    && self.entry_seq()[k].2 >= 1 by {
                if k != i {
                    assert(pre.entry_seq()[k] == pre.entries@[k].model());
                }
            }
        }
        // the map view gains exactly the binding for d
        let target = pre@.insert(d, (self.entries@[i].bytes@, self.entries@[i].refcount));
        assert forall|x: Seq<u8>|
            self@.dom().contains(x) <==> target.dom().contains(x) by {
            if x == d {
                self.lemma_at(i);
            }
        }
        assert forall|x: Seq<u8>| self@.dom().contains(x) implies self@[x] == target[x] by {
            self.lemma_found(x);
            let j = self.digest_index(x);
            self.lemma_at(j);
            if j == i {
                assert(x == d);
            } else {
                assert(self.entries@[j] == pre.entries@[j]);
                pre.lemma_at(j);
                pre.lemma_at(i);
                if x == d {
                    assert(pre.digest_index(x) == j && pre.digest_index(d) == i);
                    assert(false);
                }
            }
        }
        assert(self@ =~= target);
    }

    /// After pushing an entry with a fresh digest, the map gains exactly
    /// that binding.
    proof fn lemma_push(self, pre: ContentStore)
        requires
            pre.wf(),
            self.entries@.len() == pre.entries@.len() + 1,
            forall|k: int| 0 <= k < pre.entries@.len()
                ==> self.entries@[k] == pre.entries@[k],
            !pre.contains_digest(self.entries@[pre.entries@.len() as int].digest@),
            self.entries@[pre.entries@.len() as int].digest@.len() == 32,
            self.entries@[pre.entries@.len() as int].refcount >= 1,
        ensures
            self.wf(),
            self@ == pre@.insert(
                self.entries@[pre.entries@.len() as int].digest@,
                (
                    self.entries@[pre.entries@.len() as int].bytes@,
                    self.entries@[pre.entries@.len() as int].refcount,
                ),
            ),
    {
        let n = pre.entries@.len() as int;
        let d = self.entries@[n].digest@;
        assert(forall|k: int| 0 <= k < self.entries@.len()
            ==> (#[trigger] self.entry_seq()[k]) == self.entries@[k].model());
        assert(forall|k: int| 0 <= k < pre.entries@.len()
            ==> (#[trigger] pre.entry_seq()[k]) == pre.entries@[k].model());
        assert(self.wf()) by {
            assert forall|p: int, q: int|
                0 <= p < q < self.entry_seq().len()
                    implies self.entry_seq()[p].0 != self.entry_seq()[q].0 by {
                if q < n {
                    assert(pre.entry_seq()[p].0 != pre.entry_seq()[q].0);
                } else {
                    // q == n: a digest equal to the fresh one would witness
                    // pre.contains_digest
                    if self.entries@[p].digest@ == d {
                        assert(pre.entries@[p].digest@ == d);
                        assert(pre.contains_digest(d));
                    }
                }
            }
            assert forall|k: int|
                0 <= k < self.entry_seq().len()
                    implies (#[trigger] self.entry_seq()[k]).0.len() == 32
                    && self.entry_seq()[k].2 >= 1 by {
                if k < n {
                    assert(pre.entry_seq()[k] == pre.entries@[k].model());
                }
            }
        }
        let target = pre@.insert(d, (self.entries@[n].bytes@, self.entries@[n].refcount));
        assert forall|x: Seq<u8>| self@.dom().contains(x) <==> target.dom().contains(x) by {
            if x == d {
                self.lemma_at(n);
            } else {
                if self.contains_digest(x) {
                    let j = choose|j: int|
                        0 <= j < self.entries@.len() && self.entries@[j].digest@ == x;
                    assert(j != n);
                    assert(pre.entries@[j].digest@ == x);
                    assert(pre.contains_digest(x));
                }
                if pre.contains_digest(x) {
                    let j = choose|j: int|
                        0 <= j < pre.entries@.len() && pre.entries@[j].digest@ == x;
                    assert(self.entries@[j].digest@ == x);
                    assert(self.contains_digest(x));
                }
            }
        }
        assert forall|x: Seq<u8>| self@.dom().contains(x) implies self@[x] == target[x] by {
            self.lemma_found(x);
            let j = self.digest_index(x);
            self.lemma_at(j);
            if j == n {
                assert(x == d);
            } else {
                assert(self.entries@[j] == pre.entries@[j]);
                pre.lemma_at(j);
                assert(x != d);
            }
        }
        assert(self@ =~= target);
    }

    /// After removing the entry at index `i`, the map loses exactly the
    /// binding for that entry's digest.
    proof fn lemma_remove(self, pre: ContentStore, i: int)
        requires
            pre.wf(),
            0 <= i < pre.entries@.len(),
            self.entries@ == pre.entries@.remove(i),
        ensures
            self.wf(),
            self@ == pre@.remove(pre.entries@[i].digest@),
    {
        let d = pre.entries@[i].digest@;
        let s = pre.entries@;
        let t = self.entries@;
        assert(forall|k: int| 0 <= k < i ==> t[k] == s[k]);
        assert(forall|k: int| i <= k < t.len() ==> t[k] == s[k + 1]);
        assert(forall|k: int| 0 <= k < t.len()
            ==> (#[trigger] self.entry_seq()[k]) == t[k].model());
        assert(forall|k: int| 0 <= k < s.len()
            ==> (#[trigger] pre.entry_seq()[k]) == s[k].model());
        assert(self.wf()) by {
            assert forall|p: int, q: int|
                0 <= p < q < self.entry_seq().len()
                    implies self.entry_seq()[p].0 != self.entry_seq()[q].0 by {
                let p0: int = if p < i { p } else { p + 1 };
                let q0: int = if q < i { q } else { q + 1 };
                assert(t[p] == s[p0] && t[q] == s[q0]);
                assert(pre.entry_seq()[p0].0 != pre.entry_seq()[q0].0);
            }
            assert forall|k: int|
                0 <= k < self.entry_seq().len()
                    implies (#[trigger] self.entry_seq()[k]).0.len() == 32
                    && self.entry_seq()[k].2 >= 1 by {
                let k0: int = if k < i { k } else { k + 1 };
                assert(t[k] == s[k0]);
                assert(pre.entry_seq()[k0] == s[k0].model());
            }
        }
        let target = pre@.remove(d);
        assert forall|x: Seq<u8>| self@.dom().contains(x) <==> target.dom().contains(x) by {
            if self.contains_digest(x) {
                let j = choose|j: int| 0 <= j < t.len() && t[j].digest@ == x;
                let j0: int = if j < i { j } else { j + 1 };
                assert(s[j0].digest@ == x);
                pre.lemma_at(j0);
                if x == d {
                    pre.lemma_at(i);
                    assert(pre.digest_index(x) == j0 && pre.digest_index(x) == i);
                    assert(false);
                }
            }
            if x != d && pre.contains_digest(x) {
                pre.lemma_found(x);
                let j = pre.digest_index(x);
                assert(j != i);
                if j < i {
                    assert(t[j].digest@ == x);
                } else {
                    assert(t[j - 1].digest@ == x);
                }
                assert(self.contains_digest(x));
            }
        }
        assert forall|x: Seq<u8>| self@.dom().contains(x) implies self@[x] == target[x] by {
            self.lemma_found(x);
            let j = self.digest_index(x);
            self.lemma_at(j);
            let j0: int = if j < i { j } else { j + 1 };
            assert(t[j] == s[j0]);
            pre.lemma_at(j0);
            pre.lemma_at(i);
            if x == d {
                assert(pre.digest_index(x) == j0 && pre.digest_index(d) == i);
                assert(false);
            }
        }
        assert(self@ =~= target);
    }

    /// Runtime check of the store invariant, mirroring `entries_wf`.
    fn check_wf(&self) -> (r: bool)
        ensures
            r == entries_wf(self.entry_seq()),
    {
        proof {
            assert(forall|k: int| 0 <= k < self.entries@.len()
                ==> (#[trigger] self.entry_seq()[k]) == self.entries@[k].model());
        }
        let n = self.entries.len();
        let mut i: usize = 0;
        while i < n
            invariant
                n == self.entries@.len(),
                i <= n,
                forall|k: int| 0 <= k < self.entries@.len()
                    ==> (#[trigger] self.entry_seq()[k]) == self.entries@[k].model(),
                forall|k: int| 0 <= k < i
                    ==> (#[trigger] self.entry_seq()[k]).0.len() == 32
                        && self.entry_seq()[k].2 >= 1,
                forall|p: int, q: int|
                    0 <= p < q < i ==> self.entry_seq()[p].0 != self.entry_seq()[q].0,
            decreases n - i,
        {
            if self.entries[i].digest.len() != 32 || self.entries[i].refcount < 1 {
                proof {
                    assert(self.entry_seq()[i as int] == self.entries@[i as int].model());
                    assert(!entries_wf(self.entry_seq()));
                }
                return false;
            }
            let mut j: usize = 0;
            while j < i
                invariant
                    n == self.entries@.len(),
                    j <= i < n,
                    forall|k: int| 0 <= k < self.entries@.len()
                        ==> (#[trigger] self.entry_seq()[k]) == self.entries@[k].model(),
                    forall|k: int| 0 <= k < j
                        ==> self.entry_seq()[k].0 != self.entry_seq()[i as int].0,
                decreases i - j,
            {
                if bytes_eq(&self.entries[j].digest, &self.entries[i].digest) {
                    proof {
                        assert(self.entry_seq()[j as int] == self.entries@[j as int].model());
                        assert(self.entry_seq()[i as int] == self.entries@[i as int].model());
                        assert(self.entry_seq()[j as int].0 == self.entry_seq()[i as int].0);
                        assert(!entries_wf(self.entry_seq()));
                    }
                    return false;
                }
                j += 1;
            }
            i += 1;
        }
        true
    }

    /// Serialize the store into the durable snapshot record form. The
    /// result is decodable by construction.
    pub fn encode(&self) -> (r: Vec<u8>)
        requires
            self.wf(),
        ensures
            r@ == encode_state(self.entry_seq()),
            parse_state(r@) == Some(self.entry_seq()),
    {
        let n = self.entries.len();
        let mut out: Vec<u8> = u64_to_le_bytes(n as u64);
        let mut i: usize = 0;
        while i < n
            invariant
                self.wf(),
                n == self.entries@.len(),
                i <= n,
                out@ == spec_u64_to_le_bytes(n as u64) + encode_entries(
                    self.entry_seq().take(i as int),
                ),
                forall|k: int|
                    0 <= k < i ==> (#[trigger] self.entry_seq()[k]).1.len() <= u64::MAX,
            decreases n - i,
        {
            let ghost pre_out = out@;
            let mut db = self.entries[i].digest.clone();
            let mut lb = u64_to_le_bytes(self.entries[i].bytes.len() as u64);
            let mut bb = self.entries[i].bytes.clone();
            let mut rb = u64_to_le_bytes(self.entries[i].refcount);
            proof {
                assert(db@ == self.entries@[i as int].digest@);
                assert(bb@ == self.entries@[i as int].bytes@);
            }
            out.append(&mut db);
            out.append(&mut lb);
            out.append(&mut bb);
            out.append(&mut rb);
            proof {
                let e = self.entry_seq()[i as int];
                assert(e == self.entries@[i as int].model());
                assert(out@ =~= pre_out + encode_entry(e));
                assert(self.entry_seq().take(i + 1) =~= self.entry_seq().take(i as int).push(e));
                lemma_encode_entries_push(self.entry_seq().take(i as int), e);
                assert(out@ =~= spec_u64_to_le_bytes(n as u64) + encode_entries(
                    self.entry_seq().take(i + 1),
                ));
            }
            i += 1;
        }
        proof {
            assert(self.entry_seq().take(n as int) =~= self.entry_seq());
            lemma_snapshot_round_trip(self.entry_seq());
        }
        out
    }

    /// Deserialize a snapshot blob. Succeeds exactly when the blob is a
    /// well-formed snapshot encoding, and then returns the encoded store.
    pub fn decode(blob: &Vec<u8>) -> (r: Option<ContentStore>)
        ensures
            match r {
                Some(s) => parse_state(blob@) == Some(s.entry_seq()) && s.wf(),
                None => parse_state(blob@) is None,
            },
    {
        proof {
            lemma_auto_spec_u64_to_from_le_bytes();
        }
        let total = blob.len();
        if total < 8 {
            return None;
        }
        let n = u64_from_le_bytes(slice_subrange(blob.as_slice(), 0, 8));
        let mut entries: Vec<ContentEntry> = Vec::new();
        let mut p: usize = 8;
        let mut i: u64 = 0;
        while i < n
            invariant
                total == blob@.len(),
                total >= 8,
                8 <= p <= total,
                i <= n,
                n == spec_u64_from_le_bytes(blob@.subrange(0, 8)),
                parse_entries(blob@.skip(8), n as nat) == opt_prepend(
                    entries@.map_values(|e: ContentEntry| e.model()),
                    parse_entries(blob@.skip(p as int), (n - i) as nat),
                ),
            decreases n - i,
        {
            let ghost bseq = blob@.skip(p as int);
            proof {
                assert(bseq.len() == total - p);
            }
            if total - p < 40 {
                return None;
            }
            let digest = slice_to_vec(slice_subrange(blob.as_slice(), p, p + 32));
            let blen = u64_from_le_bytes(slice_subrange(blob.as_slice(), p + 32, p + 40));
            proof {
                assert(bseq.subrange(0, 32) =~= blob@.subrange(p as int, p + 32));
                assert(bseq.subrange(32, 40) =~= blob@.subrange(p + 32, p + 40));
            }
            let rem: u64 = (total - p - 40) as u64;
            if blen > rem || rem - blen < 8 {
                proof {
                    assert(bseq.len() < 48 + spec_u64_from_le_bytes(bseq.subrange(32, 40)));
                }
                return None;
            }
            let blen_us: usize = blen as usize;
            let bytes = slice_to_vec(
                slice_subrange(blob.as_slice(), p + 40, p + 40 + blen_us),
            );
            let rc = u64_from_le_bytes(
                slice_subrange(blob.as_slice(), p + 40 + blen_us, p + 48 + blen_us),
            );
            let ghost pre_models = entries@.map_values(|e: ContentEntry| e.model());
            entries.push(ContentEntry { digest, bytes, refcount: rc });
            proof {
                let len = blen as int;
                assert(bseq.subrange(40, 40 + len) =~= blob@.subrange(p + 40, p + 40 + len));
                assert(bseq.subrange(40 + len, 48 + len) =~= blob@.subrange(
                    p + 40 + len,
                    p + 48 + len,
                ));
                assert(bseq.skip(48 + len) =~= blob@.skip(p + 48 + len));
                let m = (
                    bseq.subrange(0, 32),
                    bseq.subrange(40, 40 + len),
                    spec_u64_from_le_bytes(bseq.subrange(40 + len, 48 + len)),
                );
                assert(parse_entries(bseq, (n - i) as nat) == match parse_entries(
                    blob@.skip(p + 48 + len),
                    (n - i - 1) as nat,
                ) {
                    None => None,
                    Some(rest) => Some(seq![m] + rest),
                });
                let new_models = entries@.map_values(|e: ContentEntry| e.model());
                assert(new_models =~= pre_models.push(m));
                if parse_entries(blob@.skip(p + 48 + len), (n - i - 1) as nat) is Some {
                    let rest = parse_entries(blob@.skip(p + 48 + len), (n - i - 1) as nat)->0;
                    assert(pre_models + (seq![m] + rest) =~= new_models + rest);
                }
            }
            p = p + 48 + blen_us;
            i = i + 1;
        }
        if p != total {
            proof {
                assert(blob@.skip(p as int).len() > 0);
                assert(parse_entries(blob@.skip(p as int), (n - i) as nat) is None);
            }
            return None;
        }
        proof {
            assert(blob@.skip(p as int) =~= Seq::<u8>::empty());
            assert(parse_entries(blob@.skip(p as int), (n - i) as nat)
                == Some(Seq::<EntryModel>::empty()));
            let models = entries@.map_values(|e: ContentEntry| e.model());
            assert(models + Seq::<EntryModel>::empty() =~= models);
        }
        let store = ContentStore { entries };
        if store.check_wf() {
            Some(store)
        } else {
            None
        }
    }
}

} // verus!
