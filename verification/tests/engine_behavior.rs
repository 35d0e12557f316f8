use orderbook_sync::backfill::BackfillRequest;
use orderbook_sync::content::ContentStore;
use orderbook_sync::engine::{
    ActionHandler, BackfillDecision, DispatchError, DispatchStep, Engine, RecordingHandler,
    SnapshotDecision,
};
use orderbook_sync::hashing::hash_bytes;
use orderbook_sync::store::DurableStore;
use orderbook_sync::types::{
    Action, ApplyError, CheckpointSummary, ContentDigest, Origin, PeerId, SnapshotError,
};

fn action(sequence_id: u64, payload: &[u8]) -> Action {
    Action { sequence_id, payload: payload.to_vec(), origin: Origin::Gossip }
}

fn checkpoint(id: u64, hash: ContentDigest) -> CheckpointSummary {
    CheckpointSummary { checkpoint_id: id, checkpoint_hash: hash }
}

fn zero_digest() -> ContentDigest {
    ContentDigest::from_bytes(vec![0u8; 32])
}

/// A handler that rejects one specific sequence id and records the rest.
struct FailingHandler {
    fail_at: u64,
    applied: Vec<u64>,
}

impl ActionHandler for FailingHandler {
    fn apply(&mut self, _content: &mut ContentStore, action: &Action) -> Result<(), ApplyError> {
        if action.sequence_id == self.fail_at {
            Err(ApplyError { detail: b"rejected".to_vec() })
        } else {
            self.applied.push(action.sequence_id);
            Ok(())
        }
    }
}

fn sample_snapshot_blob() -> (Vec<u8>, ContentDigest) {
    let mut store = ContentStore::new();
    store.insert(b"order book state".to_vec());
    store.insert(b"another entry".to_vec());
    let blob = store.encode();
    let digest = hash_bytes(&blob);
    (blob, digest)
}

#[test]
fn order_invariant_all_permutations() {
    // every delivery order of ids 1..=3 applies them as 1, 2, 3 and ends
    // with the cursor at 3
    let perms: [[u64; 3]; 6] =
        [[1, 2, 3], [1, 3, 2], [2, 1, 3], [2, 3, 1], [3, 1, 2], [3, 2, 1]];
    for perm in perms.iter() {
        let mut engine = Engine::new(0, None);
        let mut handler = RecordingHandler::new();
        let cp = checkpoint(0, zero_digest());
        let peers: Vec<PeerId> = Vec::new();
        for id in perm.iter() {
            let r = engine.process_new_user_action(
                action(*id, b"payload"),
                false,
                &cp,
                &peers,
                &mut handler,
            );
            assert!(r.is_ok());
        }
        assert_eq!(engine.cursor(), 3);
        assert_eq!(handler.applied, vec![1, 2, 3]);
    }
}

#[test]
fn monotonic_cursor_on_backward_advance() {
    let mut cursor = orderbook_sync::cursor::SyncCursor::new(7);
    assert!(cursor.advance_to(9).is_ok());
    assert_eq!(cursor.read(), 9);
    let err = cursor.advance_to(4).unwrap_err();
    assert_eq!(err.current, 9);
    assert_eq!(err.requested, 4);
    assert_eq!(cursor.read(), 9);
}

#[test]
fn monotonic_cursor_across_failed_load() {
    let (blob, digest) = sample_snapshot_blob();
    let mut backing = DurableStore::new();
    backing.put(80, blob);
    let mut engine = Engine::new(10, Some(backing));
    // wrong expected digest: the load fails, the cursor stays put
    let wrong = zero_digest();
    assert!(wrong.to_bytes() != digest.to_bytes());
    let r = engine.load_snapshot(80, &wrong);
    assert_eq!(r.unwrap_err(), SnapshotError::HashMismatch);
    assert_eq!(engine.cursor(), 10);
}

#[test]
fn hash_gate_rejects_flipped_byte() {
    let (blob, digest) = sample_snapshot_blob();
    let mut corrupted = blob.clone();
    corrupted[5] ^= 1;
    let mut backing = DurableStore::new();
    backing.put(100, corrupted);
    let mut engine = Engine::new(50, Some(backing));
    let r = engine.load_snapshot(100, &digest);
    assert_eq!(r.unwrap_err(), SnapshotError::HashMismatch);
    assert_eq!(engine.cursor(), 50);
    // the intact blob under the same digest is accepted
    let mut backing = DurableStore::new();
    backing.put(100, blob);
    let mut engine = Engine::new(50, Some(backing));
    assert!(engine.load_snapshot(100, &digest).is_ok());
    assert_eq!(engine.cursor(), 100);
}

#[test]
fn gap_computation_example() {
    // Mailbox {5, 6, 9}, cursor 3: the missing range is 4 ..= 5
    let mut engine = Engine::new(3, None);
    let mut handler = RecordingHandler::new();
    let cp = checkpoint(0, zero_digest());
    let peers = vec![PeerId { bytes: b"peer-a".to_vec() }];
    for id in [5u64, 6, 9] {
        let r = engine
            .process_new_user_action(action(id, b"x"), false, &cp, &peers, &mut handler)
            .unwrap();
        match r {
            DispatchStep::GapDetected { request, outbound } => {
                assert_eq!(request, BackfillRequest { from: 4, to: 5 });
                assert_eq!(outbound.len(), 1);
                assert_eq!(outbound[0].peer.bytes, b"peer-a".to_vec());
            }
            other => panic!("expected a gap, got {:?}", other),
        }
    }
    assert_eq!(engine.cursor(), 3);
}

#[test]
fn partial_drain_on_failure() {
    // actions 1, 2, 3 buffered, cursor 0, the handler rejects 2:
    // the cursor ends at 1, and 3 is neither applied nor re-buffered
    let mut engine = Engine::new(0, None);
    let mut buffering = RecordingHandler::new();
    let cp = checkpoint(0, zero_digest());
    let peers: Vec<PeerId> = Vec::new();
    for id in [1u64, 2, 3] {
        let r = engine
            .process_new_user_action(action(id, b"x"), true, &cp, &peers, &mut buffering)
            .unwrap();
        assert!(matches!(r, DispatchStep::Buffered));
    }
    assert!(buffering.applied.is_empty());
    let mut handler = FailingHandler { fail_at: 2, applied: Vec::new() };
    match engine.drain_and_apply(&mut handler) {
        Err(DispatchError::ApplyFailed { sequence_id, .. }) => assert_eq!(sequence_id, 2),
        other => panic!("expected a handler failure, got {:?}", other),
    }
    assert_eq!(engine.cursor(), 1);
    assert_eq!(handler.applied, vec![1]);
    // the failed run is gone: nothing is re-applied afterwards
    let mut retry = RecordingHandler::new();
    assert_eq!(engine.drain_and_apply(&mut retry).unwrap(), 0);
    assert!(retry.applied.is_empty());
    assert_eq!(engine.cursor(), 1);
}

#[test]
fn bootstrap_via_remote_fetch() {
    // cursor 50, checkpoint {100, H}, no local snapshot: a remote fetch is
    // requested; installing the fetched blob moves the cursor to exactly
    // 100 and discards buffered entries at or below 100
    let (blob, digest) = sample_snapshot_blob();
    let mut engine = Engine::new(50, Some(DurableStore::new()));
    let mut handler = RecordingHandler::new();
    let cp = checkpoint(100, ContentDigest::from_bytes(digest.to_bytes()));
    let peers: Vec<PeerId> = Vec::new();
    let r = engine
        .process_new_user_action(action(60, b"obsolete"), false, &cp, &peers, &mut handler)
        .unwrap();
    match r {
        DispatchStep::AwaitingSnapshot { snapshot_id, expected_hash } => {
            assert_eq!(snapshot_id, 100);
            assert_eq!(expected_hash.to_bytes(), digest.to_bytes());
        }
        other => panic!("expected a fetch request, got {:?}", other),
    }
    assert_eq!(engine.cursor(), 50);
    engine.install_fetched_snapshot(100, &digest, blob).unwrap();
    assert_eq!(engine.cursor(), 100);
    // the buffered action 60 was discarded as obsolete
    let mut retry = RecordingHandler::new();
    assert_eq!(engine.drain_and_apply(&mut retry).unwrap(), 0);
    assert!(retry.applied.is_empty());
    // normal processing resumes above the snapshot id
    let r = engine
        .process_new_user_action(action(101, b"fresh"), false, &cp, &peers, &mut handler)
        .unwrap();
    assert!(matches!(r, DispatchStep::Applied { count: 1 }));
    assert_eq!(engine.cursor(), 101);
}

#[test]
fn out_of_order_buffering_then_drain() {
    // arrival order 3, 1, 2 with cursor 0: after 1 the cursor is 1; after
    // 2 the buffered 3 drains in the same step and the cursor ends at 3
    let mut engine = Engine::new(0, None);
    let mut handler = RecordingHandler::new();
    let cp = checkpoint(0, zero_digest());
    let peers: Vec<PeerId> = Vec::new();
    let r = engine
        .process_new_user_action(action(3, b"c"), false, &cp, &peers, &mut handler)
        .unwrap();
    match r {
        DispatchStep::GapDetected { request, outbound } => {
            assert_eq!(request, BackfillRequest { from: 1, to: 3 });
            assert!(outbound.is_empty());
        }
        other => panic!("expected a gap, got {:?}", other),
    }
    assert_eq!(engine.cursor(), 0);
    let r = engine
        .process_new_user_action(action(1, b"a"), false, &cp, &peers, &mut handler)
        .unwrap();
    assert!(matches!(r, DispatchStep::Applied { count: 1 }));
    assert_eq!(engine.cursor(), 1);
    let r = engine
        .process_new_user_action(action(2, b"b"), false, &cp, &peers, &mut handler)
        .unwrap();
    assert!(matches!(r, DispatchStep::Applied { count: 2 }));
    assert_eq!(engine.cursor(), 3);
    assert_eq!(handler.applied, vec![1, 2, 3]);
}

#[test]
fn bootstrap_from_local_snapshot() {
    // the checkpoint is ahead and a verified local snapshot exists: one
    // dispatch installs it, discards the now-obsolete buffered action,
    // and resumes at the snapshot id
    let (blob, digest) = sample_snapshot_blob();
    let mut backing = DurableStore::new();
    backing.put(100, blob);
    let mut engine = Engine::new(50, Some(backing));
    let mut handler = RecordingHandler::new();
    let cp = checkpoint(100, digest);
    let peers: Vec<PeerId> = Vec::new();
    let r = engine
        .process_new_user_action(action(60, b"obsolete"), false, &cp, &peers, &mut handler)
        .unwrap();
    assert!(matches!(r, DispatchStep::Applied { count: 0 }));
    assert_eq!(engine.cursor(), 100);
    assert!(handler.applied.is_empty());
}

#[test]
fn snapshot_error_surfaces_and_engine_recovers() {
    // a corrupted local snapshot fails this sync attempt only: the error
    // is surfaced, the cursor stays put, and the engine keeps buffering
    let (blob, digest) = sample_snapshot_blob();
    let mut corrupted = blob;
    corrupted[9] ^= 0xff;
    let mut backing = DurableStore::new();
    backing.put(100, corrupted);
    let mut engine = Engine::new(50, Some(backing));
    let mut handler = RecordingHandler::new();
    let cp = checkpoint(100, digest);
    let peers: Vec<PeerId> = Vec::new();
    let r = engine.process_new_user_action(action(60, b"x"), false, &cp, &peers, &mut handler);
    match r {
        Err(DispatchError::Snapshot(e)) => assert_eq!(e, SnapshotError::HashMismatch),
        other => panic!("expected a surfaced snapshot failure, got {:?}", other),
    }
    assert_eq!(engine.cursor(), 50);
    let r = engine
        .process_new_user_action(action(61, b"y"), true, &cp, &peers, &mut handler)
        .unwrap();
    assert!(matches!(r, DispatchStep::Buffered));
}

#[test]
fn storage_unavailable_without_backing() {
    let mut engine = Engine::new(0, None);
    assert_eq!(engine.store_snapshot(1).unwrap_err(), SnapshotError::StorageUnavailable);
    let d = zero_digest();
    assert_eq!(engine.load_snapshot(1, &d).unwrap_err(), SnapshotError::StorageUnavailable);
}

#[test]
fn load_not_found_falls_back_to_fetch() {
    let mut engine = Engine::new(0, Some(DurableStore::new()));
    let d = zero_digest();
    assert_eq!(engine.load_snapshot(7, &d).unwrap_err(), SnapshotError::NotFound);
    let cp = checkpoint(7, zero_digest());
    match engine.check_state_sync(&cp).unwrap() {
        SnapshotDecision::FetchNeeded { snapshot_id, .. } => assert_eq!(snapshot_id, 7),
        other => panic!("expected a fetch request, got {:?}", other),
    }
}

#[test]
fn load_decode_error_on_malformed_blob() {
    // a blob whose digest matches but which is no snapshot encoding
    let junk = b"not a snapshot".to_vec();
    let digest = hash_bytes(&junk);
    let mut backing = DurableStore::new();
    backing.put(3, junk);
    let mut engine = Engine::new(0, Some(backing));
    assert_eq!(engine.load_snapshot(3, &digest).unwrap_err(), SnapshotError::DecodeError);
    assert_eq!(engine.cursor(), 0);
}

#[test]
fn store_then_load_round_trip() {
    let mut engine = Engine::new(0, Some(DurableStore::new()));
    let mut handler = RecordingHandler::new();
    let cp = checkpoint(0, zero_digest());
    let peers: Vec<PeerId> = Vec::new();
    engine
        .process_new_user_action(action(1, b"first"), false, &cp, &peers, &mut handler)
        .unwrap();
    assert_eq!(engine.cursor(), 1);
    engine.store_snapshot(5).unwrap();
    // the recording handler leaves the content store empty, so the
    // persisted blob is the encoding of the empty store
    let expected = hash_bytes(&ContentStore::new().encode());
    engine.load_snapshot(5, &expected).unwrap();
    assert_eq!(engine.cursor(), 5);
}

#[test]
fn snapshot_decision_in_sync() {
    let mut engine = Engine::new(10, None);
    let cp = checkpoint(5, zero_digest());
    assert!(matches!(engine.check_state_sync(&cp).unwrap(), SnapshotDecision::InSync));
    assert_eq!(engine.cursor(), 10);
}

#[test]
fn backfill_decision_no_peers() {
    let mut engine = Engine::new(0, None);
    let mut handler = RecordingHandler::new();
    let cp = checkpoint(0, zero_digest());
    let peers: Vec<PeerId> = Vec::new();
    engine
        .process_new_user_action(action(4, b"x"), true, &cp, &peers, &mut handler)
        .unwrap();
    match engine.request_backfill(&peers) {
        BackfillDecision::NoPeers { request } => {
            assert_eq!(request, BackfillRequest { from: 1, to: 4 });
        }
        other => panic!("expected no peers, got {:?}", other),
    }
    let peers = vec![
        PeerId { bytes: b"p1".to_vec() },
        PeerId { bytes: b"p2".to_vec() },
    ];
    match engine.request_backfill(&peers) {
        BackfillDecision::Requested { request, outbound } => {
            assert_eq!(request, BackfillRequest { from: 1, to: 4 });
            assert_eq!(outbound.len(), 2);
            assert_eq!(outbound[0].peer.bytes, b"p1".to_vec());
            assert_eq!(outbound[1].peer.bytes, b"p2".to_vec());
            assert_eq!(outbound[0].bytes, outbound[1].bytes);
        }
        other => panic!("expected a fan-out, got {:?}", other),
    }
}
