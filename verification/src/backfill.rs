use vstd::prelude::*;

use crate::types::PeerId;

verus! {

/// A request addressed to peers asking them to re-broadcast the actions
/// whose sequence ids lie in the range `from ..= to`. Purely advisory:
/// the expected remedy is a re-broadcast through the normal gossip lane.
#[derive(Clone, Copy, PartialEq, Eq, Structural, Debug)]
pub struct BackfillRequest {
    pub from: u64,
    pub to: u64,
}

/// Gap detection: given the cursor (highest contiguously applied sequence
/// id) and the lowest buffered sequence id (if any), decide whether a
/// backfill request is needed and for which range.
///
/// No request is needed when nothing is buffered, or when the next id to
/// apply is already buffered.
pub fn compute_gap(cursor: u64, lowest_known: Option<u64>) -> (r: Option<BackfillRequest>)
    requires
        lowest_known is Some ==> lowest_known->0 > cursor,
    ensures
        match r {
            None => lowest_known is None || lowest_known == Some((cursor + 1) as u64),
            Some(req) => {
                &&& lowest_known == Some(req.to)
                &&& req.to > cursor + 1
                &&& req.from == cursor + 1
            },
        },
{
    match lowest_known {
        None => None,
        Some(lowest) => {
            if lowest == cursor + 1 {
                None
            } else {
                Some(BackfillRequest { from: cursor + 1, to: lowest })
            }
        },
    }
}

/// One encoded request addressed to one peer's notification channel.
#[derive(Debug)]
pub struct OutboundMessage {
    pub peer: PeerId,
    pub bytes: Vec<u8>,
}

/// Address the encoded backfill request to every known peer. The sends
/// themselves are best effort and happen outside the engine: a failure
/// toward one peer must not stop the fan-out to the rest, so the plan is
/// one independent message per peer.
pub fn broadcast_plan(req: &BackfillRequest, peers: &Vec<PeerId>) -> (r: Vec<OutboundMessage>)
    ensures
        r@.len() == peers@.len(),
        forall|k: int|
            0 <= k < r@.len() ==> (#[trigger] r@[k]).peer.bytes@ == peers@[k].bytes@
                && r@[k].bytes@ == crate::wire::backfill_wire(*req),
{
    let mut out: Vec<OutboundMessage> = Vec::new();
    let n = peers.len();
    let mut i: usize = 0;
    while i < n
        invariant
            n == peers@.len(),
            i <= n,
            out@.len() == i,
            forall|k: int|
                0 <= k < i ==> (#[trigger] out@[k]).peer.bytes@ == peers@[k].bytes@
                    && out@[k].bytes@ == crate::wire::backfill_wire(*req),
        decreases n - i,
    {
        let bytes = crate::wire::encode_backfill_request(req);
        let peer = PeerId { bytes: peers[i].bytes.clone() };
        out.push(OutboundMessage { peer, bytes });
        i += 1;
    }
    out
}

} // verus!
