use vstd::prelude::*;

use vstd::bytes::{
    lemma_auto_spec_u64_to_from_le_bytes, spec_u64_from_le_bytes, spec_u64_to_le_bytes,
    u64_from_le_bytes, u64_to_le_bytes,
};
use vstd::slice::{slice_subrange, slice_to_vec};

use crate::backfill::BackfillRequest;
use crate::types::{Action, Origin};

verus! {

/// The backfill request wire record: the two range ends, fixed-width
/// little endian.
pub open spec fn backfill_wire(req: BackfillRequest) -> Seq<u8> {
    spec_u64_to_le_bytes(req.from) + spec_u64_to_le_bytes(req.to)
}

pub open spec fn parse_backfill(b: Seq<u8>) -> Option<BackfillRequest> {
    if b.len() != 16 {
        None
    } else {
        Some(
            BackfillRequest {
                from: spec_u64_from_le_bytes(b.subrange(0, 8)),
                to: spec_u64_from_le_bytes(b.subrange(8, 16)),
            },
        )
    }
}

pub fn encode_backfill_request(req: &BackfillRequest) -> (r: Vec<u8>)
    ensures
        r@ == backfill_wire(*req),
        parse_backfill(r@) == Some(*req),
{
    proof {
        lemma_auto_spec_u64_to_from_le_bytes();
    }
    let mut out = u64_to_le_bytes(req.from);
    let mut tail = u64_to_le_bytes(req.to);
    out.append(&mut tail);
    proof {
        assert(out@.subrange(0, 8) =~= spec_u64_to_le_bytes(req.from));
        assert(out@.subrange(8, 16) =~= spec_u64_to_le_bytes(req.to));
    }
    out
}

pub fn decode_backfill_request(bytes: &Vec<u8>) -> (r: Option<BackfillRequest>)
    ensures
        r == parse_backfill(bytes@),
{
    proof {
        lemma_auto_spec_u64_to_from_le_bytes();
    }
    if bytes.len() != 16 {
        return None;
    }
    let from = u64_from_le_bytes(slice_subrange(bytes.as_slice(), 0, 8));
    let to = u64_from_le_bytes(slice_subrange(bytes.as_slice(), 8, 16));
    Some(BackfillRequest { from, to })
}

/// The gossip wire record of an action: an origin tag byte, the sequence
/// id (fixed-width little endian), then the opaque payload.
pub open spec fn action_wire(a: Action) -> Seq<u8> {
    seq![origin_tag(a.origin)] + spec_u64_to_le_bytes(a.sequence_id) + a.payload@
}

pub open spec fn origin_tag(o: Origin) -> u8 {
    match o {
        Origin::Gossip => 0u8,
        Origin::Local => 1u8,
    }
}

/// What an action wire record means, as plain values; `None` on malformed
/// bytes (too short, or an unknown origin tag).
pub open spec fn parse_action(b: Seq<u8>) -> Option<(u64, Seq<u8>, Origin)> {
    if b.len() < 9 {
        None
    } else if b[0] != 0 && b[0] != 1 {
        None
    } else {
        Some(
            (
                spec_u64_from_le_bytes(b.subrange(1, 9)),
                b.skip(9),
                if b[0] == 0 {
                    Origin::Gossip
                } else {
                    Origin::Local
                },
            ),
        )
    }
}

pub fn encode_action(a: &Action) -> (r: Vec<u8>)
    ensures
        r@ == action_wire(*a),
        parse_action(r@) == Some((a.sequence_id, a.payload@, a.origin)),
{
    proof {
        lemma_auto_spec_u64_to_from_le_bytes();
    }
    let mut out: Vec<u8> = Vec::new();
    match a.origin {
        Origin::Gossip => out.push(0u8),
        Origin::Local => out.push(1u8),
    }
    let mut idb = u64_to_le_bytes(a.sequence_id);
    out.append(&mut idb);
    let mut pb = a.payload.clone();
    out.append(&mut pb);
    proof {
        assert(out@ =~= action_wire(*a));
        assert(out@.subrange(1, 9) =~= spec_u64_to_le_bytes(a.sequence_id));
        assert(out@.skip(9) =~= a.payload@);
        assert(out@[0] == origin_tag(a.origin));
    }
    out
}

pub fn decode_action(bytes: &Vec<u8>) -> (r: Option<Action>)
    ensures
        match r {
            Some(a) => parse_action(bytes@) == Some((a.sequence_id, a.payload@, a.origin)),
            None => parse_action(bytes@) is None,
        },
{
    proof {
        lemma_auto_spec_u64_to_from_le_bytes();
    }
    if bytes.len() < 9 {
        return None;
    }
    let tag = bytes[0];
    if tag != 0 && tag != 1 {
        return None;
    }
    let sequence_id = u64_from_le_bytes(slice_subrange(bytes.as_slice(), 1, 9));
    let payload = slice_to_vec(slice_subrange(bytes.as_slice(), 9, bytes.len()));
    proof {
        assert(bytes@.subrange(9, bytes@.len() as int) =~= bytes@.skip(9));
    }
    let origin = if tag == 0 {
        Origin::Gossip
    } else {
        Origin::Local
    };
    Some(Action { sequence_id, payload, origin })
}

} // verus!
