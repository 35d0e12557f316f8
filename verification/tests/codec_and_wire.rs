use orderbook_sync::backfill::{broadcast_plan, compute_gap, BackfillRequest};
use orderbook_sync::content::ContentStore;
use orderbook_sync::hashing::hash_bytes;
use orderbook_sync::store::storage_key;
use orderbook_sync::types::{Action, Origin, PeerId};
use orderbook_sync::wire::{
    decode_action, decode_backfill_request, encode_action, encode_backfill_request,
};

#[test]
fn blake2_256_known_vector() {
    // Blake2b-256 of the empty string
    let expected: [u8; 32] = [
        0x0e, 0x57, 0x51, 0xc0, 0x26, 0xe5, 0x43, 0xb2, 0xe8, 0xab, 0x2e, 0xb0, 0x60, 0x99,
        0xda, 0xa1, 0xd1, 0xe5, 0xdf, 0x47, 0x77, 0x8f, 0x77, 0x87, 0xfa, 0xab, 0x45, 0xcd,
        0xf1, 0x2f, 0xe3, 0xa8,
    ];
    let digest = hash_bytes(&Vec::new());
    assert_eq!(digest.to_bytes(), expected.to_vec());
    // a non-empty input hashes to something other than itself
    let data = b"sequenced actions".to_vec();
    let d2 = hash_bytes(&data);
    assert_ne!(d2.to_bytes(), data);
    assert_eq!(d2.to_bytes().len(), 32);
}

#[test]
fn digest_matches_is_byte_equality() {
    let a = hash_bytes(&b"one".to_vec());
    let b = hash_bytes(&b"one".to_vec());
    let c = hash_bytes(&b"two".to_vec());
    assert!(a.matches(&b));
    assert!(!a.matches(&c));
}

#[test]
fn storage_key_is_little_endian() {
    assert_eq!(storage_key(0x0102030405060708), vec![8, 7, 6, 5, 4, 3, 2, 1]);
    assert_eq!(storage_key(0), vec![0; 8]);
}

#[test]
fn snapshot_codec_round_trip() {
    let mut store = ContentStore::new();
    let d1 = store.insert(b"alpha".to_vec());
    store.insert(b"beta".to_vec());
    store.insert(b"alpha".to_vec());  // bumps the first entry's count
    let blob = store.encode();
    let decoded = ContentStore::decode(&blob).expect("a fresh encoding must decode");
    assert_eq!(decoded.get(&d1).unwrap(), b"alpha".to_vec());
    assert_eq!(decoded.encode(), blob);
}

#[test]
fn snapshot_codec_rejects_malformed() {
    assert!(ContentStore::decode(&Vec::new()).is_none());
    assert!(ContentStore::decode(&vec![0u8; 7]).is_none());
    // a count with no entries behind it
    assert!(ContentStore::decode(&vec![1, 0, 0, 0, 0, 0, 0, 0]).is_none());
    // trailing bytes after a complete record
    let mut blob = ContentStore::new().encode();
    blob.push(0);
    assert!(ContentStore::decode(&blob).is_none());
    // the empty store itself decodes
    assert!(ContentStore::decode(&ContentStore::new().encode()).is_some());
}

#[test]
fn refcount_bookkeeping() {
    let mut store = ContentStore::new();
    let d = store.insert(b"shared".to_vec());
    store.insert(b"shared".to_vec());
    // two references: the first remove keeps the entry
    assert!(store.remove(&d));
    assert_eq!(store.get(&d).unwrap(), b"shared".to_vec());
    // the last reference goes: the entry is reclaimed
    assert!(store.remove(&d));
    assert!(store.get(&d).is_none());
    // removing an absent digest reports false
    assert!(!store.remove(&d));
}

#[test]
fn backfill_wire_round_trip() {
    let req = BackfillRequest { from: 4, to: 5 };
    let bytes = encode_backfill_request(&req);
    assert_eq!(bytes.len(), 16);
    assert_eq!(decode_backfill_request(&bytes), Some(req));
    assert_eq!(decode_backfill_request(&bytes[..15].to_vec()), None);
}

#[test]
fn action_wire_round_trip() {
    let a = Action { sequence_id: 42, payload: b"fill order".to_vec(), origin: Origin::Local };
    let bytes = encode_action(&a);
    let back = decode_action(&bytes).unwrap();
    assert_eq!(back.sequence_id, 42);
    assert_eq!(back.payload, b"fill order".to_vec());
    assert_eq!(back.origin, Origin::Local);
}

#[test]
fn action_wire_rejects_malformed() {
    // too short
    assert!(decode_action(&vec![0u8; 8]).is_none());
    // unknown origin tag
    let mut bytes = encode_action(&Action {
        sequence_id: 1,
        payload: Vec::new(),
        origin: Origin::Gossip,
    });
    bytes[0] = 9;
    assert!(decode_action(&bytes).is_none());
}

#[test]
fn compute_gap_cases() {
    assert_eq!(compute_gap(3, Some(5)), Some(BackfillRequest { from: 4, to: 5 }));
    assert_eq!(compute_gap(3, Some(4)), None);
    assert_eq!(compute_gap(3, None), None);
    assert_eq!(compute_gap(0, Some(1)), None);
    assert_eq!(compute_gap(0, Some(9)), Some(BackfillRequest { from: 1, to: 9 }));
}

#[test]
fn broadcast_plan_addresses_every_peer() {
    let req = BackfillRequest { from: 2, to: 7 };
    let peers = vec![
        PeerId { bytes: b"a".to_vec() },
        PeerId { bytes: b"b".to_vec() },
        PeerId { bytes: b"c".to_vec() },
    ];
    let plan = broadcast_plan(&req, &peers);
    assert_eq!(plan.len(), 3);
    for (k, msg) in plan.iter().enumerate() {
        assert_eq!(msg.peer.bytes, peers[k].bytes);
        assert_eq!(decode_backfill_request(&msg.bytes), Some(req));
    }
}
