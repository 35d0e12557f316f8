use vstd::prelude::*;

use crate::backfill::{broadcast_plan, compute_gap, BackfillRequest, OutboundMessage};
use crate::content::{parse_state, ContentStore, EntryModel};
use crate::cursor::SyncCursor;
use crate::hashing::{digest_of, hash_bytes};
use crate::mailbox::{run_len, SequencedMailbox};
use crate::store::DurableStore;
use crate::types::{Action, ApplyError, CheckpointSummary, ContentDigest, PeerId, SnapshotError};

verus! {

/// The collaborator that gives an action its meaning. The engine only
/// guarantees when and in what order `apply` runs, never what it does.
pub trait ActionHandler {
    /// Apply one action to the application state. Invoked exactly once per
    /// applied action, in strict sequence-id order. The implementation must
    /// preserve the content store's well-formedness; everything else about
    /// it is the implementer's domain.
    fn apply(&mut self, content: &mut ContentStore, action: &Action) -> (r: Result<
        (),
        ApplyError,
    >)
        requires
            old(content).wf(),
        ensures
            final(content).wf(),
    ;
}

/// Why a dispatch attempt stopped early.
#[derive(Debug)]
pub enum DispatchError {
    /// The handler rejected the action with this sequence id; the cursor
    /// stops just short of it and the action is not re-buffered.
    ApplyFailed { sequence_id: u64, error: ApplyError },
    /// Snapshot bootstrap failed; the cursor stays put and the engine is
    /// ready to retry on the next incoming action.
    Snapshot(SnapshotError),
}

/// What the snapshot phase of a sync decided.
#[derive(Debug)]
pub enum SnapshotDecision {
    /// The cursor is at or past the checkpoint: no bootstrap needed.
    InSync,
    /// A local snapshot was hash-verified and installed.
    Installed,
    /// No local snapshot exists: the caller must fetch the blob for this
    /// id remotely and hand it to `install_fetched_snapshot`.
    FetchNeeded { snapshot_id: u64, expected_hash: ContentDigest },
}

/// What the gap phase of a sync decided.
#[derive(Debug)]
pub enum BackfillDecision {
    /// Nothing is buffered, or the next id to apply is already buffered.
    NotNeeded,
    /// A gap exists; the request was addressed to every known peer.
    Requested { request: BackfillRequest, outbound: Vec<OutboundMessage> },
    /// A gap exists but no peer is known to ask.
    NoPeers { request: BackfillRequest },
}

/// How one delivered action moved the engine.
#[derive(Debug)]
pub enum DispatchStep {
    /// The node is still catching up with the wider system: the action was
    /// buffered and nothing was applied.
    Buffered,
    /// A remote snapshot fetch is needed before anything can be applied.
    AwaitingSnapshot { snapshot_id: u64, expected_hash: ContentDigest },
    /// A gap separates the cursor from the buffered actions; the engine
    /// parks until gossip fills it (outbound holds one message per known
    /// peer, and is empty exactly when no peer is available).
    GapDetected { request: BackfillRequest, outbound: Vec<OutboundMessage> },
    /// The maximal contiguous run was drained and applied.
    Applied { count: u64 },
}

/// The outcome of verifying one persisted blob against a declared digest:
/// this is the whole decision tree of `load_snapshot`.
pub open spec fn load_outcome(
    backing: Option<Map<u64, Seq<u8>>>,
    snapshot_id: u64,
    expected: Seq<u8>,
) -> Result<(), SnapshotError> {
    match backing {
        None => Err(SnapshotError::StorageUnavailable),
        Some(m) => if !m.dom().contains(snapshot_id) {
            Err(SnapshotError::NotFound)
        } else if digest_of(m[snapshot_id]) != expected {
            Err(SnapshotError::HashMismatch)
        } else if parse_state(m[snapshot_id]) is None {
            Err(SnapshotError::DecodeError)
        } else {
            Ok(())
        },
    }
}

/// The outcome of verifying a remotely fetched blob.
pub open spec fn install_outcome(blob: Seq<u8>, expected: Seq<u8>) -> Result<
    (),
    SnapshotError,
> {
    if digest_of(blob) != expected {
        Err(SnapshotError::HashMismatch)
    } else if parse_state(blob) is None {
        Err(SnapshotError::DecodeError)
    } else {
        Ok(())
    }
}

/// Where the cursor stands after the snapshot phase of a sync: unchanged
/// unless the checkpoint is ahead and a local snapshot verified.
pub open spec fn post_sync_cursor(
    cursor: u64,
    backing: Option<Map<u64, Seq<u8>>>,
    checkpoint: CheckpointSummary,
) -> u64 {
    if cursor >= checkpoint.checkpoint_id {
        cursor
    } else if load_outcome(backing, checkpoint.checkpoint_id, checkpoint.checkpoint_hash@)
        is Ok {
        checkpoint.checkpoint_id
    } else {
        cursor
    }
}

/// The mailbox after entries at or below the new cursor are discarded.
pub open spec fn pruned(m: Map<u64, Action>, cursor: u64) -> Map<u64, Action> {
    m.remove_keys(Set::new(|id: u64| id <= cursor))
}

/// The dispatcher state: the forward-only cursor, the out-of-order buffer,
/// the content-addressed application state, and the durable backing (if
/// any is configured).
pub struct Engine {
    cursor: SyncCursor,
    mailbox: SequencedMailbox,
    content: ContentStore,
    backing: Option<DurableStore>,
}

impl Engine {
    /// The highest contiguously applied sequence id.
    pub closed spec fn cursor_id(self) -> u64 {
        self.cursor@
    }

    /// The buffered, not yet applied actions.
    pub closed spec fn mailbox_view(self) -> Map<u64, Action> {
        self.mailbox@
    }

    /// The application state in storage order, as the codec sees it.
    pub closed spec fn content_entries(self) -> Seq<EntryModel> {
        self.content.entry_seq()
    }

    /// The persisted snapshot blobs, or `None` when no durable backing is
    /// configured.
    pub closed spec fn backing_view(self) -> Option<Map<u64, Seq<u8>>> {
        match self.backing {
            Some(b) => Some(b@),
            None => None,
        }
    }

    /// The engine invariant: components well formed, and every buffered
    /// sequence id above the cursor.
    pub closed spec fn inv(self) -> bool {
        &&& self.mailbox.wf()
        &&& self.content.wf()
        &&& (self.backing is Some ==> self.backing->0.wf())
        &&& forall|id: u64| self.mailbox@.dom().contains(id) ==> id > self.cursor@
    }

    /// Buffered ids sit above the cursor; public face of the invariant.
    pub proof fn lemma_inv_mailbox(self)
        requires
            self.inv(),
        ensures
            forall|id: u64| self.mailbox_view().dom().contains(id) ==> id > self.cursor_id(),
    {
    }

    pub fn new(initial_cursor: u64, backing: Option<DurableStore>) -> (r: Engine)
        requires
            backing is Some ==> backing->0.wf(),
        ensures
            r.inv(),
            r.cursor_id() == initial_cursor,
            r.mailbox_view() == Map::<u64, Action>::empty(),
            r.content_entries() == Seq::<EntryModel>::empty(),
            r.backing_view() == match backing {
                Some(b) => Some(b@),
                None => None::<Map<u64, Seq<u8>>>,
            },
    {
        Engine {
            cursor: SyncCursor::new(initial_cursor),
            mailbox: SequencedMailbox::new(),
            content: ContentStore::new(),
            backing,
        }
    }

    /// The cursor, for admission checks: an incoming sequence id at or
    /// below it is stale.
    pub fn cursor(&self) -> (r: u64)
        ensures
            r == self.cursor_id(),
    {
        self.cursor.read()
    }

    /// Serialize the whole application state and persist it under this
    /// snapshot id. A durable write only: the cursor, the buffer and the
    /// state itself are untouched.
    pub fn store_snapshot(&mut self, snapshot_id: u64) -> (r: Result<(), SnapshotError>)
        requires
            old(self).inv(),
        ensures
            final(self).inv(),
            final(self).cursor_id() == old(self).cursor_id(),
            final(self).mailbox_view() == old(self).mailbox_view(),
            final(self).content_entries() == old(self).content_entries(),
            match r {
                Ok(()) => {
                    &&& old(self).backing_view() is Some
                    &&& final(self).backing_view() == Some(
                        old(self).backing_view()->0.insert(
                            snapshot_id,
                            crate::content::encode_state(old(self).content_entries()),
                        ),
                    )
                },
                Err(e) => {
                    &&& e == SnapshotError::StorageUnavailable
                    &&& old(self).backing_view() is None
                    &&& final(self).backing_view() == old(self).backing_view()
                },
            },
    {
        let blob = self.content.encode();
        match &mut self.backing {
            Some(b) => {
                b.put(snapshot_id, blob);
                Ok(())
            },
            None => Err(SnapshotError::StorageUnavailable),
        }
    }

    /// Read the persisted blob for this snapshot id, recompute its digest,
    /// and install it only on a match: the content store is replaced, the
    /// cursor moves to the snapshot id, and buffered actions at or below
    /// it are discarded as obsolete. On any failure nothing is mutated.
    pub fn load_snapshot(&mut self, snapshot_id: u64, expected_hash: &ContentDigest) -> (r:
        Result<(), SnapshotError>)
        requires
            old(self).inv(),
            old(self).cursor_id() <= snapshot_id,
        ensures
            final(self).inv(),
            final(self).backing_view() == old(self).backing_view(),
            final(self).cursor_id() >= old(self).cursor_id(),
            r == load_outcome(old(self).backing_view(), snapshot_id, expected_hash@),
            r is Ok ==> {
                &&& final(self).content_entries() == parse_state(
                    old(self).backing_view()->0[snapshot_id],
                )->0
                &&& final(self).cursor_id() == snapshot_id
                &&& final(self).mailbox_view() == pruned(old(self).mailbox_view(), snapshot_id)
            },
            r is Err ==> {
                &&& final(self).cursor_id() == old(self).cursor_id()
                &&& final(self).mailbox_view() == old(self).mailbox_view()
                &&& final(self).content_entries() == old(self).content_entries()
            },
    {
        let blob_opt = match &self.backing {
            Some(b) => b.get(snapshot_id),
            None => {
                return Err(SnapshotError::StorageUnavailable);
            },
        };
        let blob = match blob_opt {
            Some(b) => b,
            None => {
                return Err(SnapshotError::NotFound);
            },
        };
        let computed = hash_bytes(&blob);
        if !computed.matches(expected_hash) {
            return Err(SnapshotError::HashMismatch);
        }
        match ContentStore::decode(&blob) {
            None => Err(SnapshotError::DecodeError),
            Some(store) => {
                self.content = store;
                let advanced = self.cursor.advance_to(snapshot_id);
                proof {
                    assert(advanced is Ok);
                }
                self.mailbox.prune_through(snapshot_id);
                Ok(())
            },
        }
    }

    /// Hash-verify a remotely fetched snapshot blob and install it, with
    /// the same gate and the same effects as a local load. On any failure
    /// nothing is mutated.
    pub fn install_fetched_snapshot(
        &mut self,
        snapshot_id: u64,
        expected_hash: &ContentDigest,
        blob: Vec<u8>,
    ) -> (r: Result<(), SnapshotError>)
        requires
            old(self).inv(),
            old(self).cursor_id() <= snapshot_id,
        ensures
            final(self).inv(),
            final(self).backing_view() == old(self).backing_view(),
            final(self).cursor_id() >= old(self).cursor_id(),
            r == install_outcome(blob@, expected_hash@),
            r is Ok ==> {
                &&& final(self).content_entries() == parse_state(blob@)->0
                &&& final(self).cursor_id() == snapshot_id
                &&& final(self).mailbox_view() == pruned(old(self).mailbox_view(), snapshot_id)
            },
            r is Err ==> {
                &&& final(self).cursor_id() == old(self).cursor_id()
                &&& final(self).mailbox_view() == old(self).mailbox_view()
                &&& final(self).content_entries() == old(self).content_entries()
            },
    {
        let computed = hash_bytes(&blob);
        if !computed.matches(expected_hash) {
            return Err(SnapshotError::HashMismatch);
        }
        match ContentStore::decode(&blob) {
            None => Err(SnapshotError::DecodeError),
            Some(store) => {
                self.content = store;
                let advanced = self.cursor.advance_to(snapshot_id);
                proof {
                    assert(advanced is Ok);
                }
                self.mailbox.prune_through(snapshot_id);
                Ok(())
            },
        }
    }

    /// The snapshot phase of a sync: compare the cursor to the latest
    /// authoritative checkpoint; if behind, try the local snapshot, and on
    /// `NotFound` ask the caller to fetch it remotely. Any other load
    /// failure aborts this sync attempt only.
    pub fn check_state_sync(&mut self, checkpoint: &CheckpointSummary) -> (r: Result<
        SnapshotDecision,
        SnapshotError,
    >)
        requires
            old(self).inv(),
            checkpoint.checkpoint_hash.wf(),
        ensures
            final(self).inv(),
            final(self).backing_view() == old(self).backing_view(),
            final(self).cursor_id() >= old(self).cursor_id(),
            final(self).cursor_id() == post_sync_cursor(
                old(self).cursor_id(),
                old(self).backing_view(),
                *checkpoint,
            ),
            match r {
                Ok(SnapshotDecision::InSync) => {
                    &&& old(self).cursor_id() >= checkpoint.checkpoint_id
                    &&& final(self).mailbox_view() == old(self).mailbox_view()
                    &&& final(self).content_entries() == old(self).content_entries()
                },
                Ok(SnapshotDecision::Installed) => {
                    &&& old(self).cursor_id() < checkpoint.checkpoint_id
                    &&& load_outcome(
                        old(self).backing_view(),
                        checkpoint.checkpoint_id,
                        checkpoint.checkpoint_hash@,
                    ) is Ok
                    &&& final(self).cursor_id() == checkpoint.checkpoint_id
                    &&& final(self).content_entries() == parse_state(
                        old(self).backing_view()->0[checkpoint.checkpoint_id],
                    )->0
                    &&& final(self).mailbox_view() == pruned(
                        old(self).mailbox_view(),
                        checkpoint.checkpoint_id,
                    )
                },
                Ok(SnapshotDecision::FetchNeeded { snapshot_id, expected_hash }) => {
                    &&& old(self).cursor_id() < checkpoint.checkpoint_id
                    &&& load_outcome(
                        old(self).backing_view(),
                        checkpoint.checkpoint_id,
                        checkpoint.checkpoint_hash@,
                    ) == Err::<(), SnapshotError>(SnapshotError::NotFound)
                    &&& snapshot_id == checkpoint.checkpoint_id
                    &&& expected_hash@ == checkpoint.checkpoint_hash@
                    &&& final(self).mailbox_view() == old(self).mailbox_view()
                    &&& final(self).content_entries() == old(self).content_entries()
                },
                Err(e) => {
                    &&& old(self).cursor_id() < checkpoint.checkpoint_id
                    &&& load_outcome(
                        old(self).backing_view(),
                        checkpoint.checkpoint_id,
                        checkpoint.checkpoint_hash@,
                    ) == Err::<(), SnapshotError>(e)
                    &&& e != SnapshotError::NotFound
                    &&& final(self).mailbox_view() == old(self).mailbox_view()
                    &&& final(self).content_entries() == old(self).content_entries()
                },
            },
    {
        if self.cursor.read() >= checkpoint.checkpoint_id {
            return Ok(SnapshotDecision::InSync);
        }
        match self.load_snapshot(checkpoint.checkpoint_id, &checkpoint.checkpoint_hash) {
            Ok(()) => Ok(SnapshotDecision::Installed),
            Err(SnapshotError::NotFound) => Ok(
                SnapshotDecision::FetchNeeded {
                    snapshot_id: checkpoint.checkpoint_id,
                    expected_hash: ContentDigest::from_bytes(
                        checkpoint.checkpoint_hash.to_bytes(),
                    ),
                },
            ),
            Err(e) => Err(e),
        }
    }

    /// The gap phase of a sync: if the lowest buffered id is not the next
    /// one to apply, prepare a backfill request for the missing range,
    /// addressed to every known peer.
    pub fn request_backfill(&self, peers: &Vec<PeerId>) -> (r: BackfillDecision)
        requires
            self.inv(),
        ensures
            match r {
                BackfillDecision::NotNeeded => self.mailbox_view().dom() == Set::<u64>::empty()
                    || self.mailbox_view().dom().contains((self.cursor_id() + 1) as u64),
                BackfillDecision::Requested { request, outbound } => {
                    &&& self.mailbox_view().dom() != Set::<u64>::empty()
                    &&& !self.mailbox_view().dom().contains((self.cursor_id() + 1) as u64)
                    &&& request.from == self.cursor_id() + 1
                    &&& self.mailbox_view().dom().contains(request.to)
                    &&& forall|id: u64|
                        self.mailbox_view().dom().contains(id) ==> request.to <= id
                    &&& peers@.len() > 0
                    &&& outbound@.len() == peers@.len()
                    &&& forall|k: int|
                        0 <= k < outbound@.len() ==> (#[trigger] outbound@[k]).peer.bytes@
                            == peers@[k].bytes@ && outbound@[k].bytes@
                            == crate::wire::backfill_wire(request)
                },
                BackfillDecision::NoPeers { request } => {
                    &&& self.mailbox_view().dom() != Set::<u64>::empty()
                    &&& !self.mailbox_view().dom().contains((self.cursor_id() + 1) as u64)
                    &&& request.from == self.cursor_id() + 1
                    &&& self.mailbox_view().dom().contains(request.to)
                    &&& forall|id: u64|
                        self.mailbox_view().dom().contains(id) ==> request.to <= id
                    &&& peers@.len() == 0
                },
            },
    {
        let lowest = self.mailbox.lowest_known();
        match compute_gap(self.cursor.read(), lowest) {
            None => {
                proof {
                    if lowest is Some {
                        // the minimum is the next id, so the next id is buffered
                        assert(self.mailbox_view().dom().contains(lowest->0));
                    }
                }
                BackfillDecision::NotNeeded
            },
            Some(request) => {
                proof {
                    assert(self.mailbox_view().dom().contains(request.to));
                }
                if peers.len() == 0 {
                    BackfillDecision::NoPeers { request }
                } else {
                    BackfillDecision::Requested {
                        request,
                        outbound: broadcast_plan(&request, peers),
                    }
                }
            },
        }
    }

    /// Drain the maximal contiguous run above the cursor and hand each
    /// action to the handler, in ascending sequence-id order, advancing
    /// the cursor by exactly one per successfully applied action. If the
    /// handler rejects an action, the drain stops there: the cursor ends
    /// just short of the failing id, and the failing action (and the rest
    /// of the run) is not re-buffered.
    pub fn drain_and_apply<H: ActionHandler>(&mut self, handler: &mut H) -> (r: Result<
        u64,
        DispatchError,
    >)
        requires
            old(self).inv(),
        ensures
            final(self).inv(),
            final(self).backing_view() == old(self).backing_view(),
            final(self).cursor_id() >= old(self).cursor_id(),
            final(self).mailbox_view() == old(self).mailbox_view().remove_keys(
                Set::new(
                    |id: u64|
                        old(self).cursor_id() < id && id <= old(self).cursor_id() + run_len(
                            old(self).mailbox_view(),
                            old(self).cursor_id(),
                        ),
                ),
            ),
            match r {
                Ok(count) => {
                    &&& count == run_len(old(self).mailbox_view(), old(self).cursor_id())
                    &&& final(self).cursor_id() == old(self).cursor_id() + count
                },
                Err(DispatchError::ApplyFailed { sequence_id, error: _ }) => {
                    &&& old(self).cursor_id() < sequence_id
                    &&& sequence_id <= old(self).cursor_id() + run_len(
                        old(self).mailbox_view(),
                        old(self).cursor_id(),
                    )
                    &&& old(self).mailbox_view().dom().contains(sequence_id)
                    &&& final(self).cursor_id() == sequence_id - 1
                },
                Err(DispatchError::Snapshot(_)) => false,
            },
    {
        let c0 = self.cursor.read();
        let drained = self.mailbox.drain_contiguous_from(c0);
        let n = drained.len();
        let ghost m0 = old(self).mailbox_view();
        proof {
            if n > 0 {
                // the last drained id is a u64, so the whole run fits
                assert(drained@[n - 1].sequence_id == c0 + n);
            }
        }
        let mut k: usize = 0;
        while k < n
            invariant
                c0 == old(self).cursor_id(),
                m0 == old(self).mailbox_view(),
                n == drained@.len(),
                k <= n,
                n == run_len(m0, c0),
                c0 + n <= u64::MAX,
                self.cursor@ == c0 + k,
                self.content.wf(),
                self.mailbox.wf(),
                self.mailbox@ == m0.remove_keys(
                    Set::new(|id: u64| c0 < id && id <= c0 + n),
                ),
                (self.backing is Some ==> self.backing->0.wf()),
                match self.backing {
                    Some(b) => old(self).backing_view() == Some(b@),
                    None => old(self).backing_view() is None,
                },
                forall|id: u64| self.mailbox@.dom().contains(id) ==> id > c0 + n,
                forall|j: int|
                    0 <= j < n ==> (#[trigger] drained@[j]).sequence_id == c0 + 1 + j
                        && m0.dom().contains((c0 + 1 + j) as u64),
            decreases n - k,
        {
            let a = &drained[k];
            match handler.apply(&mut self.content, a) {
                Ok(()) => {
                    let advanced = self.cursor.advance_to(a.sequence_id);
                    proof {
                        assert(advanced is Ok);
                    }
                    k += 1;
                },
                Err(error) => {
                    return Err(
                        DispatchError::ApplyFailed { sequence_id: a.sequence_id, error },
                    );
                },
            }
        }
        Ok(n as u64)
    }

    /// The whole dispatch algorithm for one delivered action: buffer it;
    /// stop there while the node is catching up; otherwise bootstrap from
    /// a snapshot if the authoritative checkpoint is ahead, then either
    /// request backfill for a gap or drain-and-apply the contiguous run.
    pub fn process_new_user_action<H: ActionHandler>(
        &mut self,
        action: Action,
        major_syncing: bool,
        checkpoint: &CheckpointSummary,
        peers: &Vec<PeerId>,
        handler: &mut H,
    ) -> (r: Result<DispatchStep, DispatchError>)
        requires
            old(self).inv(),
            action.sequence_id > old(self).cursor_id(),
            checkpoint.checkpoint_hash.wf(),
        ensures
            final(self).inv(),
            final(self).backing_view() == old(self).backing_view(),
            final(self).cursor_id() >= old(self).cursor_id(),
            ({
                let m1 = old(self).mailbox_view().insert(action.sequence_id, action);
                let c2 = post_sync_cursor(
                    old(self).cursor_id(),
                    old(self).backing_view(),
                    *checkpoint,
                );
                let m2 = pruned(m1, c2);
                match r {
                    Ok(DispatchStep::Buffered) => {
                        &&& major_syncing
                        &&& final(self).mailbox_view() == m1
                        &&& final(self).cursor_id() == old(self).cursor_id()
                        &&& final(self).content_entries() == old(self).content_entries()
                    },
                    Ok(DispatchStep::AwaitingSnapshot { snapshot_id, expected_hash }) => {
                        &&& !major_syncing
                        &&& old(self).cursor_id() < checkpoint.checkpoint_id
                        &&& load_outcome(
                            old(self).backing_view(),
                            checkpoint.checkpoint_id,
                            checkpoint.checkpoint_hash@,
                        ) == Err::<(), SnapshotError>(SnapshotError::NotFound)
                        &&& snapshot_id == checkpoint.checkpoint_id
                        &&& expected_hash@ == checkpoint.checkpoint_hash@
                        &&& final(self).mailbox_view() == m1
                        &&& final(self).cursor_id() == old(self).cursor_id()
                        &&& final(self).content_entries() == old(self).content_entries()
                    },
                    Ok(DispatchStep::GapDetected { request, outbound }) => {
                        &&& !major_syncing
                        &&& final(self).cursor_id() == c2
                        &&& final(self).mailbox_view() == m2
                        &&& m2.dom() != Set::<u64>::empty()
                        &&& !m2.dom().contains((c2 + 1) as u64)
                        &&& request.from == c2 + 1
                        &&& m2.dom().contains(request.to)
                        &&& forall|id: u64| m2.dom().contains(id) ==> request.to <= id
                        &&& outbound@.len() == peers@.len()
                        &&& forall|k: int|
                            0 <= k < outbound@.len() ==> (#[trigger] outbound@[k]).peer.bytes@
                                == peers@[k].bytes@ && outbound@[k].bytes@
                                == crate::wire::backfill_wire(request)
                    },
                    Ok(DispatchStep::Applied { count }) => {
                        &&& !major_syncing
                        &&& count == run_len(m2, c2)
                        &&& final(self).cursor_id() == c2 + count
                        &&& final(self).mailbox_view() == m2.remove_keys(
                            Set::new(|id: u64| c2 < id && id <= c2 + count),
                        )
                    },
                    Err(DispatchError::Snapshot(e)) => {
                        &&& !major_syncing
                        &&& old(self).cursor_id() < checkpoint.checkpoint_id
                        &&& load_outcome(
                            old(self).backing_view(),
                            checkpoint.checkpoint_id,
                            checkpoint.checkpoint_hash@,
                        ) == Err::<(), SnapshotError>(e)
                        &&& e != SnapshotError::NotFound
                        &&& final(self).mailbox_view() == m1
                        &&& final(self).cursor_id() == old(self).cursor_id()
                        &&& final(self).content_entries() == old(self).content_entries()
                    },
                    Err(DispatchError::ApplyFailed { sequence_id, error: _ }) => {
                        &&& !major_syncing
                        &&& c2 < sequence_id
                        &&& sequence_id <= c2 + run_len(m2, c2)
                        &&& m2.dom().contains(sequence_id)
                        &&& final(self).cursor_id() == sequence_id - 1
                        &&& final(self).mailbox_view() == m2.remove_keys(
                            Set::new(|id: u64| c2 < id && id <= c2 + run_len(m2, c2)),
                        )
                    },
                }
            }),
    {
        let ghost m1 = old(self).mailbox_view().insert(action.sequence_id, action);
        let ghost c2 = post_sync_cursor(
            old(self).cursor_id(),
            old(self).backing_view(),
            *checkpoint,
        );
        self.mailbox.insert(action);
        proof {
            assert forall|id: u64|
                self.mailbox@.dom().contains(id) implies id > self.cursor@ by {
                if id != action.sequence_id {
                    assert(old(self).mailbox@.dom().contains(id));
                }
            }
            assert(self.inv());
        }
        if major_syncing {
            return Ok(DispatchStep::Buffered);
        }
        match self.check_state_sync(checkpoint) {
            Ok(SnapshotDecision::InSync) => {},
            Ok(SnapshotDecision::Installed) => {},
            Ok(SnapshotDecision::FetchNeeded { snapshot_id, expected_hash }) => {
                return Ok(DispatchStep::AwaitingSnapshot { snapshot_id, expected_hash });
            },
            Err(e) => {
                return Err(DispatchError::Snapshot(e));
            },
        }
        proof {
            // whether or not a snapshot was installed, the buffer now reads
            // as m1 pruned through the post-sync cursor
            if old(self).cursor_id() >= checkpoint.checkpoint_id || !(load_outcome(
                old(self).backing_view(),
                checkpoint.checkpoint_id,
                checkpoint.checkpoint_hash@,
            ) is Ok) {
                assert(c2 == old(self).cursor_id());
                assert(self.mailbox@ == m1);
                assert forall|id: u64| m1.dom().contains(id) implies id > c2 by {
                    if id != action.sequence_id {
                        assert(old(self).mailbox@.dom().contains(id));
                    }
                }
                assert(self.mailbox@ =~= pruned(m1, c2));
            } else {
                assert(c2 == checkpoint.checkpoint_id);
                assert(self.mailbox@ == pruned(m1, c2));
            }
            assert(self.cursor@ == c2);
        }
        if !self.mailbox.is_empty() {
            match self.request_backfill(peers) {
                BackfillDecision::NotNeeded => {},
                BackfillDecision::Requested { request, outbound } => {
                    return Ok(DispatchStep::GapDetected { request, outbound });
                },
                BackfillDecision::NoPeers { request } => {
                    return Ok(DispatchStep::GapDetected { request, outbound: Vec::new() });
                },
            }
        }
        match self.drain_and_apply(handler) {
            Ok(count) => Ok(DispatchStep::Applied { count }),
            Err(e) => Err(e),
        }
    }
}

/// A minimal action handler: it accepts every action and records the
/// applied sequence ids, in application order.
pub struct RecordingHandler {
    pub applied: Vec<u64>,
}

impl RecordingHandler {
    pub fn new() -> (r: RecordingHandler)
        ensures
            r.applied@ == Seq::<u64>::empty(),
    {
        RecordingHandler { applied: Vec::new() }
    }
}

impl ActionHandler for RecordingHandler {
    fn apply(&mut self, content: &mut ContentStore, action: &Action) -> (r: Result<
        (),
        ApplyError,
    >) {
        self.applied.push(action.sequence_id);
        Ok(())
    }
}

} // verus!
