use vstd::prelude::*;

use crate::mailbox::run_len;
use crate::types::Action;

verus! {

/// Order invariance of buffering: delivering two distinct-id actions in
/// either order leaves the mailbox with the same abstract value. Together
/// with the drain contract — whose result is a function of the mailbox
/// value and the cursor alone — the applied sequence, the final state and
/// the final cursor do not depend on arrival order.
pub proof fn lemma_buffering_order_irrelevant(m: Map<u64, Action>, a: Action, b: Action)
    requires
        a.sequence_id != b.sequence_id,
    ensures
        m.insert(a.sequence_id, a).insert(b.sequence_id, b) == m.insert(
            b.sequence_id,
            b,
        ).insert(a.sequence_id, a),
{
    assert(m.insert(a.sequence_id, a).insert(b.sequence_id, b) =~= m.insert(
        b.sequence_id,
        b,
    ).insert(a.sequence_id, a));
}

/// A dense buffer drains completely: when exactly the ids
/// `cursor+1 ..= n` are present, the contiguous run covers all of them,
/// so a successful drain applies every buffered action and leaves the
/// cursor at `n`.
pub proof fn lemma_dense_buffer_run(m: Map<u64, Action>, cursor: u64, n: u64)
    requires
        cursor <= n,
        forall|id: u64| cursor < id <= n ==> m.dom().contains(id),
        n < u64::MAX ==> !m.dom().contains((n + 1) as u64),
    ensures
        run_len(m, cursor) == n - cursor,
    decreases n - cursor,
{
    if cursor < n {
        assert(m.dom().contains((cursor + 1) as u64));
        lemma_dense_buffer_run(m, (cursor + 1) as u64, n);
    }
}

/// Once every action of a gap-free history `1 ..= n` has been buffered —
/// in whatever arrival order — a drain from cursor 0 covers all of them:
/// a successful drain reports `n` applied actions and leaves the cursor
/// at `n`.
pub proof fn lemma_complete_delivery_drains_all(m: Map<u64, Action>, n: u64)
    requires
        forall|id: u64| m.dom().contains(id) <==> 1 <= id <= n,
    ensures
        run_len(m, 0) == n,
{
    lemma_dense_buffer_run(m, 0, n);
}

} // verus!
