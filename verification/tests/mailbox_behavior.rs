use orderbook_sync::mailbox::SequencedMailbox;
use orderbook_sync::types::{Action, Origin};

fn action(sequence_id: u64, payload: &[u8]) -> Action {
    Action { sequence_id, payload: payload.to_vec(), origin: Origin::Gossip }
}

#[test]
fn drain_returns_maximal_contiguous_run() {
    let mut mb = SequencedMailbox::new();
    for id in [9u64, 5, 6] {
        mb.insert(action(id, b"x"));
    }
    assert_eq!(mb.lowest_known(), Some(5));
    // nothing contiguous from cursor 3
    assert!(mb.drain_contiguous_from(3).is_empty());
    // from cursor 4: the run 5, 6 leaves, 9 stays
    let run: Vec<u64> =
        mb.drain_contiguous_from(4).iter().map(|a| a.sequence_id).collect();
    assert_eq!(run, vec![5, 6]);
    assert_eq!(mb.lowest_known(), Some(9));
}

#[test]
fn insert_is_last_writer_wins() {
    let mut mb = SequencedMailbox::new();
    mb.insert(action(1, b"old"));
    mb.insert(action(1, b"new"));
    let run = mb.drain_contiguous_from(0);
    assert_eq!(run.len(), 1);
    assert_eq!(run[0].payload, b"new".to_vec());
    assert!(mb.is_empty());
}

#[test]
fn drain_from_empty_and_from_max() {
    let mut mb = SequencedMailbox::new();
    assert!(mb.is_empty());
    assert_eq!(mb.lowest_known(), None);
    assert!(mb.drain_contiguous_from(0).is_empty());
    mb.insert(action(u64::MAX, b"edge"));
    // no id can follow the largest one
    assert!(mb.drain_contiguous_from(u64::MAX).is_empty());
    // but the largest id itself drains from its predecessor
    let run = mb.drain_contiguous_from(u64::MAX - 1);
    assert_eq!(run.len(), 1);
    assert_eq!(run[0].sequence_id, u64::MAX);
}

#[test]
fn prune_discards_at_or_below_bound() {
    let mut mb = SequencedMailbox::new();
    for id in [2u64, 4, 6, 8] {
        mb.insert(action(id, b"x"));
    }
    mb.prune_through(6);
    assert_eq!(mb.lowest_known(), Some(8));
    mb.prune_through(8);
    assert!(mb.is_empty());
}
