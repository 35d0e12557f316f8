use vstd::prelude::*;

verus! {

/// Where an action entered the node: over the gossip broadcast lane, or by
/// direct local submission.
#[derive(Clone, Copy, PartialEq, Eq, Structural, Debug)]
pub enum Origin {
    Gossip,
    Local,
}

/// A sequenced action: an externally numbered unit of work. The sequence id
/// is assigned by an external authority and fixes the action's position in
/// the canonical order; the payload is opaque to the engine.
#[derive(Clone, Debug)]
pub struct Action {
    pub sequence_id: u64,
    pub payload: Vec<u8>,
    pub origin: Origin,
}

/// A 32-byte content digest, the integrity gate for snapshot bootstrap.
#[derive(Clone, Debug)]
pub struct ContentDigest {
    bytes: Vec<u8>,
}

impl ContentDigest {
    /// The digest as a sequence of bytes.
    pub closed spec fn view(self) -> Seq<u8> {
        self.bytes@
    }

    /// A digest is exactly 32 bytes wide.
    pub open spec fn wf(self) -> bool {
        self@.len() == 32
    }

    pub fn from_bytes(bytes: Vec<u8>) -> (r: ContentDigest)
        requires
            bytes@.len() == 32,
        ensures
            r@ == bytes@,
            r.wf(),
    {
        ContentDigest { bytes }
    }

    pub fn to_bytes(&self) -> (r: Vec<u8>)
        ensures
            r@ == self@,
    {
        self.bytes.clone()
    }

    /// Byte-for-byte equality of two digests.
    pub fn matches(&self, other: &ContentDigest) -> (r: bool)
        ensures
            r <==> self@ == other@,
    {
        if self.bytes.len() != other.bytes.len() {
            proof {
                assert(self@ != other@) by {
                    assert(self@.len() != other@.len());
                }
            }
            return false;
        }
        let n = self.bytes.len();
        let mut i: usize = 0;
        while i < n
            invariant
                n == self.bytes@.len(),
                n == other.bytes@.len(),
                i <= n,
                forall|k: int| 0 <= k < i ==> self.bytes@[k] == other.bytes@[k],
            decreases n - i,
        {
            if self.bytes[i] != other.bytes[i] {
                return false;
            }
            i += 1;
        }
        proof {
            assert(self@ =~= other@);
        }
        true
    }
}

/// What the authoritative source of truth reports about the latest finalized
/// state: the sequence id it covers and the digest its serialized form must
/// hash to.
#[derive(Clone, Debug)]
pub struct CheckpointSummary {
    pub checkpoint_id: u64,
    pub checkpoint_hash: ContentDigest,
}

/// Opaque identity of a known peer; the send-capable channel behind it is
/// owned by the surrounding transport, not by the engine.
#[derive(Clone, Debug)]
pub struct PeerId {
    pub bytes: Vec<u8>,
}

/// The error an action handler reports when it rejects a specific action.
#[derive(Clone, Debug)]
pub struct ApplyError {
    pub detail: Vec<u8>,
}

/// Failures of snapshot persistence and bootstrap.
#[derive(Clone, Copy, PartialEq, Eq, Structural, Debug)]
pub enum SnapshotError {
    /// No persisted blob exists for the requested snapshot id; the caller
    /// falls back to a remote fetch.
    NotFound,
    /// The recomputed digest of a blob disagrees with the declared digest;
    /// the snapshot is rejected and no state is mutated.
    HashMismatch,
    /// No durable backing store is configured.
    StorageUnavailable,
    /// The blob is not a well-formed snapshot encoding.
    DecodeError,
}

/// A violation of the forward-only cursor contract: an attempt to move the
/// cursor backward.
#[derive(Clone, Copy, PartialEq, Eq, Structural, Debug)]
pub struct ContractViolation {
    pub current: u64,
    pub requested: u64,
}

} // verus!
