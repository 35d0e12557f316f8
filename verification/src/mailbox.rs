use vstd::prelude::*;

use crate::types::Action;

verus! {

/// The length of the maximal contiguous run `cursor+1, cursor+2, ...` of
/// sequence ids present in `m`.
pub open spec fn run_len(m: Map<u64, Action>, cursor: u64) -> nat
    decreases u64::MAX - cursor,
{
    if cursor < u64::MAX && m.dom().contains((cursor + 1) as u64) {
        (1 + run_len(m, (cursor + 1) as u64)) as nat
    } else {
        0
    }
}

/// The run length only depends on which ids above the cursor are present.
pub proof fn lemma_run_len_agree(m1: Map<u64, Action>, m2: Map<u64, Action>, cursor: u64)
    requires
        forall|id: u64| id > cursor ==> (m1.dom().contains(id) <==> m2.dom().contains(id)),
    ensures
        run_len(m1, cursor) == run_len(m2, cursor),
    decreases u64::MAX - cursor,
{
    if cursor < u64::MAX {
        let next = (cursor + 1) as u64;
        assert(m1.dom().contains(next) <==> m2.dom().contains(next));
        if m1.dom().contains(next) {
            lemma_run_len_agree(m1, m2, next);
        }
    }
}

/// The out-of-order buffer of not-yet-applied actions, keyed by sequence id.
/// Keys are unique; the buffer is held sorted by sequence id. Its abstract
/// value is the map from buffered sequence ids to their actions.
pub struct SequencedMailbox {
    entries: Vec<Action>,
}

impl SequencedMailbox {
    /// Entries are strictly sorted by sequence id (so ids are unique).
    pub closed spec fn wf(self) -> bool {
        forall|i: int, j: int|
            0 <= i < j < self.entries@.len() ==> self.entries@[i].sequence_id
                < self.entries@[j].sequence_id
    }

    pub closed spec fn contains_id(self, id: u64) -> bool {
        exists|i: int|
            0 <= i < self.entries@.len() && self.entries@[i].sequence_id == id
    }

    pub closed spec fn index_of(self, id: u64) -> int {
        choose|i: int|
            0 <= i < self.entries@.len() && self.entries@[i].sequence_id == id
    }

    /// The buffered actions, as a map from sequence id to action.
    pub closed spec fn view(self) -> Map<u64, Action> {
        Map::new(
            |id: u64| self.contains_id(id),
            |id: u64| self.entries@[self.index_of(id)],
        )
    }

    /// The entry at a valid index is in the map, under its own id.
    proof fn lemma_at(self, i: int)
        requires
            self.wf(),
            0 <= i < self.entries@.len(),
        ensures
            self.contains_id(self.entries@[i].sequence_id),
            self.index_of(self.entries@[i].sequence_id) == i,
            self@.dom().contains(self.entries@[i].sequence_id),
            self@[self.entries@[i].sequence_id] == self.entries@[i],
    {
        let id = self.entries@[i].sequence_id;
        assert(self.contains_id(id)) by {
            assert(0 <= i < self.entries@.len() && self.entries@[i].sequence_id == id);
        }
        let j = self.index_of(id);
        assert(0 <= j < self.entries@.len() && self.entries@[j].sequence_id == id);
        if i < j {
            assert(self.entries@[i].sequence_id < self.entries@[j].sequence_id);
        } else if j < i {
            assert(self.entries@[j].sequence_id < self.entries@[i].sequence_id);
        }
    }

    /// A buffered id sits at its (unique) index.
    proof fn lemma_found(self, id: u64)
        requires
            self.wf(),
            self.contains_id(id),
        ensures
            0 <= self.index_of(id) < self.entries@.len(),
            self.entries@[self.index_of(id)].sequence_id == id,
            self@.dom().contains(id),
            self@[id] == self.entries@[self.index_of(id)],
    {
        let j = self.index_of(id);
        assert(0 <= j < self.entries@.len() && self.entries@[j].sequence_id == id);
    }

    pub fn new() -> (r: SequencedMailbox)
        ensures
            r.wf(),
            r@ == Map::<u64, Action>::empty(),
    {
        let r = SequencedMailbox { entries: Vec::new() };
        proof {
            assert(r@ =~= Map::<u64, Action>::empty());
        }
        r
    }

    pub fn is_empty(&self) -> (r: bool)
        requires
            self.wf(),
        ensures
            r <==> self@.dom() == Set::<u64>::empty(),
    {
        let r = self.entries.len() == 0;
        proof {
            if r {
                assert(self@.dom() =~= Set::<u64>::empty());
            } else {
                self.lemma_at(0);
                assert(self@.dom().contains(self.entries@[0].sequence_id));
            }
        }
        r
    }

    /// The minimum buffered sequence id, or none if the buffer is empty.
    /// Used for gap detection only, never for applying.
    pub fn lowest_known(&self) -> (r: Option<u64>)
        requires
            self.wf(),
        ensures
            match r {
                None => self@.dom() == Set::<u64>::empty(),
                Some(m) => self@.dom().contains(m) && forall|id: u64|
                    self@.dom().contains(id) ==> m <= id,
            },
    {
        if self.entries.len() == 0 {
            proof {
                assert(self@.dom() =~= Set::<u64>::empty());
            }
            None
        } else {
            let m = self.entries[0].sequence_id;
            proof {
                self.lemma_at(0);
                assert forall|id: u64| self@.dom().contains(id) implies m <= id by {
                    self.lemma_found(id);
                    let j = self.index_of(id);
                    if j > 0 {
                        assert(self.entries@[0].sequence_id < self.entries@[j].sequence_id);
                    }
                }
            }
            Some(m)
        }
    }

    /// Buffer an action under its sequence id. If the id is already
    /// buffered, the new action silently replaces the old one
    /// (last-writer-wins; conflicting payloads are a concern of the
    /// upstream admission check, not of the buffer).
    pub fn insert(&mut self, action: Action)
        requires
            old(self).wf(),
        ensures
            final(self).wf(),
            final(self)@ == old(self)@.insert(action.sequence_id, action),
    {
        let ghost pre = *old(self);
        let id = action.sequence_id;
        let n = self.entries.len();
        let mut i: usize = 0;
        while i < n && self.entries[i].sequence_id < id
            invariant
                *self == pre,
                n == self.entries@.len(),
                i <= n,
                forall|k: int| 0 <= k < i ==> self.entries@[k].sequence_id < id,
            decreases n - i,
        {
            i += 1;
        }
        if i < n && self.entries[i].sequence_id == id {
            self.entries.remove(i);
            self.entries.insert(i, action);
            proof {
                let s = pre.entries@;
                let t = self.entries@;
                assert(t =~= s.update(i as int, action));
                assert(final(self).wf()) by {
                    assert forall|p: int, q: int|
                        0 <= p < q < t.len() implies t[p].sequence_id < t[q].sequence_id by {
                        if p != i && q != i {
                            assert(t[p] == s[p] && t[q] == s[q]);
                        }
                    }
                }
                self.lemma_view_update(pre, i as int, action);
            }
        } else {
            self.entries.insert(i, action);
            proof {
                let s = pre.entries@;
                let t = self.entries@;
                assert(t == s.insert(i as int, action));
                assert(forall|k: int| 0 <= k < i ==> t[k] == s[k]);
                assert(forall|k: int| i < k < t.len() ==> t[k] == s[k - 1]);
                assert(final(self).wf()) by {
                    assert forall|p: int, q: int|
                        0 <= p < q < t.len() implies t[p].sequence_id < t[q].sequence_id by {
                        if q == i {
                            assert(t[p] == s[p] && s[p].sequence_id < id);
                        } else if p == i {
                            // q > i: t[q] == s[q-1]; q-1 >= i; entries from i on have ids > id
                            assert(t[q] == s[q - 1]);
                            if q - 1 > i {
                                assert(s[i as int].sequence_id < s[q - 1].sequence_id);
                            }
                        } else if p < i && q > i {
                            assert(t[p] == s[p] && t[q] == s[q - 1]);
                            if q - 1 == p {
                                assert(false);
                            }
                        }
                    }
                }
                self.lemma_view_insert(pre, i as int, action);
            }
        }
    }

    /// After replacing the entry at index `i` (which carried the same id),
    /// the map gains exactly that binding.
    proof fn lemma_view_update(self, pre: SequencedMailbox, i: int, action: Action)
        requires
            pre.wf(),
            self.wf(),
            0 <= i < pre.entries@.len(),
            pre.entries@[i].sequence_id == action.sequence_id,
            self.entries@ == pre.entries@.update(i, action),
        ensures
            self@ == pre@.insert(action.sequence_id, action),
    {
        let id = action.sequence_id;
        let target = pre@.insert(id, action);
        assert forall|k: u64| self@.dom().contains(k) <==> target.dom().contains(k) by {
            if self.contains_id(k) {
                self.lemma_found(k);
                let j = self.index_of(k);
                if j == i {
                    assert(k == id);
                } else {
                    assert(pre.entries@[j] == self.entries@[j]);
                    pre.lemma_at(j);
                }
            }
            if k == id {
                self.lemma_at(i);
                assert(self.contains_id(k));
            } else if pre.contains_id(k) {
                pre.lemma_found(k);
                let j = pre.index_of(k);
                assert(j != i);
                assert(self.entries@[j] == pre.entries@[j]);
                self.lemma_at(j);
            }
        }
        assert forall|k: u64| self@.dom().contains(k) implies self@[k] == target[k] by {
            self.lemma_found(k);
            let j = self.index_of(k);
            self.lemma_at(j);
            if j == i {
                assert(k == id);
                assert(self@[k] == action);
            } else {
                assert(self.entries@[j] == pre.entries@[j]);
                pre.lemma_at(j);
                assert(k != id);
            }
        }
        assert(self@ =~= target);
    }

    /// After inserting a fresh entry at index `i`, the map gains exactly
    /// that binding.
    proof fn lemma_view_insert(self, pre: SequencedMailbox, i: int, action: Action)
        requires
            pre.wf(),
            self.wf(),
            0 <= i <= pre.entries@.len(),
            self.entries@ == pre.entries@.insert(i, action),
            !pre.contains_id(action.sequence_id),
        ensures
            self@ == pre@.insert(action.sequence_id, action),
    {
        let id = action.sequence_id;
        let s = pre.entries@;
        let t = self.entries@;
        let target = pre@.insert(id, action);
        assert forall|k: u64| self@.dom().contains(k) <==> target.dom().contains(k) by {
            if self.contains_id(k) {
                self.lemma_found(k);
                let j = self.index_of(k);
                if j == i {
                    assert(k == id);
                } else if j < i {
                    assert(t[j] == s[j]);
                    pre.lemma_at(j);
                } else {
                    assert(t[j] == s[j - 1]);
                    pre.lemma_at(j - 1);
                }
            }
            if k == id {
                self.lemma_at(i);
                assert(self.contains_id(k));
            } else if pre.contains_id(k) {
                pre.lemma_found(k);
                let j = pre.index_of(k);
                if j < i {
                    assert(t[j] == s[j]);
                    self.lemma_at(j);
                } else {
                    assert(t[j + 1] == s[j]);
                    self.lemma_at(j + 1);
                }
            }
        }
        assert forall|k: u64| self@.dom().contains(k) implies self@[k] == target[k] by {
            self.lemma_found(k);
            let j = self.index_of(k);
            self.lemma_at(j);
            if j == i {
                assert(k == id);
                assert(self@[k] == action);
            } else if j < i {
                assert(t[j] == s[j]);
                pre.lemma_at(j);
                assert(k != id);
            } else {
                assert(t[j] == s[j - 1]);
                pre.lemma_at(j - 1);
                assert(k != id);
            }
        }
        assert(self@ =~= target);
    }

    /// After removing the entry at index `i`, the map loses exactly the
    /// binding for that entry's id.
    proof fn lemma_view_remove(self, pre: SequencedMailbox, i: int)
        requires
            pre.wf(),
            0 <= i < pre.entries@.len(),
            self.entries@ == pre.entries@.remove(i),
        ensures
            self.wf(),
            self@ == pre@.remove(pre.entries@[i].sequence_id),
    {
        let id = pre.entries@[i].sequence_id;
        let s = pre.entries@;
        let t = self.entries@;
        assert(forall|k: int| 0 <= k < i ==> t[k] == s[k]);
        assert(forall|k: int| i <= k < t.len() ==> t[k] == s[k + 1]);
        assert(self.wf()) by {
            assert forall|p: int, q: int|
                0 <= p < q < t.len() implies t[p].sequence_id < t[q].sequence_id by {
                if p < i && q < i {
                    assert(t[p] == s[p] && t[q] == s[q]);
                } else if p < i {
                    assert(t[p] == s[p] && t[q] == s[q + 1]);
                } else {
                    assert(t[p] == s[p + 1] && t[q] == s[q + 1]);
                }
            }
        }
        let target = pre@.remove(id);
        assert forall|k: u64| self@.dom().contains(k) <==> target.dom().contains(k) by {
            if self.contains_id(k) {
                self.lemma_found(k);
                let j = self.index_of(k);
                if j < i {
                    assert(t[j] == s[j]);
                    pre.lemma_at(j);
                    if k == id {
                        pre.lemma_at(i);
                    }
                } else {
                    assert(t[j] == s[j + 1]);
                    pre.lemma_at(j + 1);
                    if k == id {
                        pre.lemma_at(i);
                    }
                }
            }
            if k != id && pre.contains_id(k) {
                pre.lemma_found(k);
                let j = pre.index_of(k);
                assert(j != i);
                if j < i {
                    assert(t[j] == s[j]);
                    self.lemma_at(j);
                } else {
                    assert(t[j - 1] == s[j]);
                    self.lemma_at(j - 1);
                }
            }
        }
        assert forall|k: u64| self@.dom().contains(k) implies self@[k] == target[k] by {
            self.lemma_found(k);
            let j = self.index_of(k);
            self.lemma_at(j);
            if j < i {
                assert(t[j] == s[j]);
                pre.lemma_at(j);
            } else {
                assert(t[j] == s[j + 1]);
                pre.lemma_at(j + 1);
            }
        }
        assert(self@ =~= target);
    }

    /// Remove and return, in ascending sequence-id order, the maximal run
    /// `cursor+1, cursor+2, ...` present in the mailbox, stopping at the
    /// first missing id. Empty if `cursor+1` is absent.
    pub fn drain_contiguous_from(&mut self, cursor: u64) -> (r: Vec<Action>)
        requires
            old(self).wf(),
            forall|id: u64| old(self)@.dom().contains(id) ==> id > cursor,
        ensures
            final(self).wf(),
            r@.len() == run_len(old(self)@, cursor),
            forall|k: int|
                0 <= k < r@.len() ==> {
                    &&& r@[k].sequence_id == cursor + 1 + k
                    &&& old(self)@.dom().contains((cursor + 1 + k) as u64)
                    &&& r@[k] == old(self)@[(cursor + 1 + k) as u64]
                },
            final(self)@ == old(self)@.remove_keys(
                Set::new(|id: u64| cursor < id && id <= cursor + r@.len()),
            ),
            forall|id: u64| final(self)@.dom().contains(id) ==> id > cursor + r@.len(),
    {
        let ghost m0 = old(self)@;
        let mut drained: Vec<Action> = Vec::new();
        let mut next: u64 = cursor;
        while next < u64::MAX && self.entries.len() > 0
            && self.entries[0].sequence_id == next + 1
            invariant
                self.wf(),
                next >= cursor,
                next - cursor == drained@.len(),
                forall|id: u64| self@.dom().contains(id) ==> id > next,
                forall|k: int|
                    0 <= k < drained@.len() ==> {
                        &&& drained@[k].sequence_id == cursor + 1 + k
                        &&& m0.dom().contains((cursor + 1 + k) as u64)
                        &&& drained@[k] == m0[(cursor + 1 + k) as u64]
                    },
                self@ == m0.remove_keys(Set::new(|id: u64| cursor < id && id <= next)),
                run_len(m0, cursor) == drained@.len() + run_len(self@, next),
            decreases u64::MAX - next,
        {
            let ghost pre = *self;
            let target = next + 1;
            proof {
                pre.lemma_at(0);
                assert(pre@.dom().contains(target));
                assert(run_len(pre@, next) == 1 + run_len(pre@, target));
            }
            let a = self.entries.remove(0);
            drained.push(a);
            proof {
                self.lemma_view_remove(pre, 0);
                assert(self@ == pre@.remove(target));
                assert forall|id: u64| self@.dom().contains(id) implies id > target by {
                    assert(pre@.dom().contains(id) && id != target && id > next);
                }
                lemma_run_len_agree(self@, pre@, target);
                assert(self@ =~= m0.remove_keys(
                    Set::new(|id: u64| cursor < id && id <= target),
                ));
                // the drained action is the one the pre-drain map bound
                assert(pre@[target] == m0[target]);
            }
            next = target;
        }
        proof {
            // at exit no run remains: either the id space is exhausted,
            // the buffer is empty, or the next id is missing
            if next < u64::MAX {
                let target = (next + 1) as u64;
                if self@.dom().contains(target) {
                    self.lemma_found(target);
                    let j = self.index_of(target);
                    if j > 0 {
                        assert(self.entries@[0].sequence_id
                            < self.entries@[j].sequence_id);
                    }
                    self.lemma_at(0);
                    assert(self.entries@[0].sequence_id > next);
                    assert(false);
                }
            }
            assert(run_len(self@, next) == 0);
        }
        drained
    }

    /// Discard every buffered action with sequence id at or below `bound`;
    /// used when a snapshot bootstrap makes old entries obsolete.
    pub fn prune_through(&mut self, bound: u64)
        requires
            old(self).wf(),
        ensures
            final(self).wf(),
            final(self)@ == old(self)@.remove_keys(Set::new(|id: u64| id <= bound)),
            forall|id: u64| final(self)@.dom().contains(id) ==> id > bound,
    {
        let ghost s0 = old(self).entries@;
        let ghost mut k: int = 0;
        while self.entries.len() > 0 && self.entries[0].sequence_id <= bound
            invariant
                old(self).wf(),
                0 <= k <= s0.len(),
                self.entries@ == s0.skip(k),
                forall|j: int| 0 <= j < k ==> s0[j].sequence_id <= bound,
            decreases self.entries@.len(),
        {
            self.entries.remove(0);
            proof {
                assert(self.entries@ =~= s0.skip(k + 1));
                k = k + 1;
            }
        }
        proof {
            assert(self.wf()) by {
                assert forall|p: int, q: int|
                    0 <= p < q < self.entries@.len() implies self.entries@[p].sequence_id
                        < self.entries@[q].sequence_id by {
                    assert(self.entries@[p] == s0[k + p]);
                    assert(self.entries@[q] == s0[k + q]);
                }
            }
            let target = old(self)@.remove_keys(Set::new(|id: u64| id <= bound));
            assert forall|id: u64|
                self@.dom().contains(id) implies target.dom().contains(id)
                    && self@[id] == target[id] by {
                self.lemma_found(id);
                let j = self.index_of(id);
                assert(self.entries@[j] == s0[k + j]);
                old(self).lemma_at(k + j);
                // the surviving front is above the bound, hence so is everything behind it
                assert(self.entries@.len() > 0);
                if self.entries@[0].sequence_id <= bound {
                    assert(false);
                }
                if j > 0 {
                    assert(self.entries@[0].sequence_id < self.entries@[j].sequence_id);
                }
            }
            assert forall|id: u64|
                target.dom().contains(id) implies self@.dom().contains(id) by {
                old(self).lemma_found(id);
                let j = old(self).index_of(id);
                if j < k {
                    assert(s0[j].sequence_id <= bound);
                    assert(false);
                }
                assert(self.entries@[j - k] == s0[j]);
                self.lemma_at(j - k);
            }
            assert(self@ =~= target);
        }
    }
}

} // verus!
