//! The canonical serialization of an event payload.
//!
//! An event's identity is derived from these bytes: the same payload always
//! serializes identically, and two distinct payloads never collide — the
//! encoding is proved injective.  The layout is a tag byte, the nonce and
//! the transfer count as little-endian 64-bit words, then each transfer's
//! amount, asset and receiver as little-endian 64-bit words.

use vstd::prelude::*;

verus! {

use crate::types::{EventBody, EventBodyV, TransferToNamada};

/// The little-endian bytes of a 64-bit word.
pub open spec fn u64_le_bytes(x: u64) -> Seq<u8> {
    seq![
        (x & 0xff) as u8,
        ((x >> 8) & 0xff) as u8,
        ((x >> 16) & 0xff) as u8,
        ((x >> 24) & 0xff) as u8,
        ((x >> 32) & 0xff) as u8,
        ((x >> 40) & 0xff) as u8,
        ((x >> 48) & 0xff) as u8,
        ((x >> 56) & 0xff) as u8,
    ]
}

/// Two words with the same little-endian bytes are the same word.
pub proof fn lemma_u64_le_injective(x: u64, y: u64)
    requires
        u64_le_bytes(x) == u64_le_bytes(y),
    ensures
        x == y,
{
    assert(u64_le_bytes(x)[0] == u64_le_bytes(y)[0]);
    assert(u64_le_bytes(x)[1] == u64_le_bytes(y)[1]);
    assert(u64_le_bytes(x)[2] == u64_le_bytes(y)[2]);
    assert(u64_le_bytes(x)[3] == u64_le_bytes(y)[3]);
    assert(u64_le_bytes(x)[4] == u64_le_bytes(y)[4]);
    assert(u64_le_bytes(x)[5] == u64_le_bytes(y)[5]);
    assert(u64_le_bytes(x)[6] == u64_le_bytes(y)[6]);
    assert(u64_le_bytes(x)[7] == u64_le_bytes(y)[7]);
    assert(x == y) by (bit_vector)
        requires
            ((x & 0xff) as u8) == ((y & 0xff) as u8),
            (((x >> 8) & 0xff) as u8) == (((y >> 8) & 0xff) as u8),
            (((x >> 16) & 0xff) as u8) == (((y >> 16) & 0xff) as u8),
            (((x >> 24) & 0xff) as u8) == (((y >> 24) & 0xff) as u8),
            (((x >> 32) & 0xff) as u8) == (((y >> 32) & 0xff) as u8),
            (((x >> 40) & 0xff) as u8) == (((y >> 40) & 0xff) as u8),
            (((x >> 48) & 0xff) as u8) == (((y >> 48) & 0xff) as u8),
            (((x >> 56) & 0xff) as u8) == (((y >> 56) & 0xff) as u8),
    ;
}

/// The canonical bytes of one transfer: amount, asset, receiver.
pub open spec fn spec_encode_transfer(t: TransferToNamada) -> Seq<u8> {
    u64_le_bytes(t.amount) + u64_le_bytes(t.asset.0) + u64_le_bytes(t.receiver.0)
}

/// Equal transfer encodings come from equal transfers.
pub proof fn lemma_transfer_encoding_injective(a: TransferToNamada, b: TransferToNamada)
    requires
        spec_encode_transfer(a) == spec_encode_transfer(b),
    ensures
        a == b,
{
    let ea = spec_encode_transfer(a);
    let eb = spec_encode_transfer(b);
    assert(u64_le_bytes(a.amount) =~= u64_le_bytes(b.amount)) by {
        assert forall|k: int| 0 <= k < 8 implies u64_le_bytes(a.amount)[k] == u64_le_bytes(
            b.amount,
        )[k] by {
            assert(ea[k] == eb[k]);
        }
    }
    assert(u64_le_bytes(a.asset.0) =~= u64_le_bytes(b.asset.0)) by {
        assert forall|k: int| 0 <= k < 8 implies u64_le_bytes(a.asset.0)[k] == u64_le_bytes(
            b.asset.0,
        )[k] by {
            assert(ea[8 + k] == eb[8 + k]);
        }
    }
    assert(u64_le_bytes(a.receiver.0) =~= u64_le_bytes(b.receiver.0)) by {
        assert forall|k: int| 0 <= k < 8 implies u64_le_bytes(a.receiver.0)[k] == u64_le_bytes(
            b.receiver.0,
        )[k] by {
            assert(ea[16 + k] == eb[16 + k]);
        }
    }
    lemma_u64_le_injective(a.amount, b.amount);
    lemma_u64_le_injective(a.asset.0, b.asset.0);
    lemma_u64_le_injective(a.receiver.0, b.receiver.0);
}

/// The canonical bytes of a sequence of transfers, in order.
pub open spec fn spec_encode_transfers(ts: Seq<TransferToNamada>) -> Seq<u8>
    decreases ts.len(),
{
    if ts.len() == 0 {
        Seq::empty()
    } else {
        spec_encode_transfers(ts.drop_last()) + spec_encode_transfer(ts.last())
    }
}

/// Each transfer occupies its own 24-byte slot.
pub proof fn lemma_encode_transfers_index(ts: Seq<TransferToNamada>, i: int)
    requires
        0 <= i < ts.len(),
    ensures
        spec_encode_transfers(ts).len() == 24 * ts.len(),
        forall|k: int|
            0 <= k < 24 ==> spec_encode_transfers(ts)[24 * i + k] == (
            #[trigger] spec_encode_transfer(ts[i])[k]),
    decreases ts.len(),
{
    lemma_encode_transfers_len(ts);
    if i == ts.len() - 1 {
        lemma_encode_transfers_len(ts.drop_last());
        assert forall|k: int| 0 <= k < 24 implies spec_encode_transfers(ts)[24 * i + k] == (
        #[trigger] spec_encode_transfer(ts[i])[k]) by {
            assert(spec_encode_transfers(ts)[24 * i + k] == spec_encode_transfer(ts.last())[k]);
        }
    } else {
        let pre = ts.drop_last();
        lemma_encode_transfers_index(pre, i);
        lemma_encode_transfers_len(pre);
        assert(pre[i] == ts[i]);
        assert forall|k: int| 0 <= k < 24 implies spec_encode_transfers(ts)[24 * i + k] == (
        #[trigger] spec_encode_transfer(ts[i])[k]) by {
            assert(24 * i + k < 24 * pre.len());
            assert(spec_encode_transfers(ts)[24 * i + k] == spec_encode_transfers(pre)[24 * i + k]);
            assert(spec_encode_transfers(pre)[24 * i + k] == spec_encode_transfer(pre[i])[k]);
        }
    }
}

/// The length of the transfer block.
pub proof fn lemma_encode_transfers_len(ts: Seq<TransferToNamada>)
    ensures
        spec_encode_transfers(ts).len() == 24 * ts.len(),
    decreases ts.len(),
{
    if ts.len() > 0 {
        lemma_encode_transfers_len(ts.drop_last());
    }
}

/// The canonical bytes of an event payload.
pub open spec fn spec_encode_body(b: EventBodyV) -> Seq<u8> {
    match b {
        EventBodyV::TransfersToNamada { nonce, transfers } => seq![0u8] + u64_le_bytes(nonce)
            + u64_le_bytes(transfers.len() as u64) + spec_encode_transfers(transfers),
    }
}

/// Identity derivation is injective: payloads with the same canonical bytes
/// are the same payload (for transfer counts that fit the length word).
pub proof fn lemma_encoding_injective(a: EventBodyV, b: EventBodyV)
    requires
        spec_encode_body(a) == spec_encode_body(b),
        (match a {
            EventBodyV::TransfersToNamada { transfers, .. } => transfers.len() <= u64::MAX,
        }),
        (match b {
            EventBodyV::TransfersToNamada { transfers, .. } => transfers.len() <= u64::MAX,
        }),
    ensures
        a == b,
{
    let ea = spec_encode_body(a);
    let eb = spec_encode_body(b);
    match a {
        EventBodyV::TransfersToNamada { nonce: na, transfers: ta } => {
            match b {
                EventBodyV::TransfersToNamada { nonce: nb, transfers: tb } => {
                    lemma_encode_transfers_len(ta);
                    lemma_encode_transfers_len(tb);
                    assert(u64_le_bytes(na) =~= u64_le_bytes(nb)) by {
                        assert forall|k: int| 0 <= k < 8 implies u64_le_bytes(na)[k]
                            == u64_le_bytes(nb)[k] by {
                            assert(ea[1 + k] == eb[1 + k]);
                        }
                    }
                    lemma_u64_le_injective(na, nb);
                    assert(u64_le_bytes(ta.len() as u64) =~= u64_le_bytes(tb.len() as u64)) by {
                        assert forall|k: int|
                            0 <= k < 8 implies (#[trigger] u64_le_bytes(ta.len() as u64)[k])
                            == u64_le_bytes(tb.len() as u64)[k] by {
                            assert(ea[9 + k] == eb[9 + k]);
                        }
                    }
                    lemma_u64_le_injective(ta.len() as u64, tb.len() as u64);
                    assert(ta.len() == tb.len());
                    assert forall|i: int| 0 <= i < ta.len() implies ta[i] == tb[i] by {
                        lemma_encode_transfers_index(ta, i);
                        lemma_encode_transfers_index(tb, i);
                        assert(spec_encode_transfer(ta[i]) =~= spec_encode_transfer(tb[i])) by {
                            assert forall|k: int| 0 <= k < 24 implies spec_encode_transfer(
                                ta[i],
                            )[k] == spec_encode_transfer(tb[i])[k] by {
                                assert(ea[17 + 24 * i + k] == eb[17 + 24 * i + k]);
                                assert(spec_encode_transfers(ta)[24 * i + k]
                                    == spec_encode_transfer(ta[i])[k]);
                                assert(spec_encode_transfers(tb)[24 * i + k]
                                    == spec_encode_transfer(tb[i])[k]);
                            }
                        }
                        lemma_transfer_encoding_injective(ta[i], tb[i]);
                    }
                    assert(ta =~= tb);
                },
            }
        },
    }
}

/// Append the little-endian bytes of one word.
fn push_u64_le(out: &mut Vec<u8>, x: u64)
    ensures
        final(out)@ == old(out)@ + u64_le_bytes(x),
{
    out.push((x & 0xff) as u8);
    out.push(((x >> 8) & 0xff) as u8);
    out.push(((x >> 16) & 0xff) as u8);
    out.push(((x >> 24) & 0xff) as u8);
    out.push(((x >> 32) & 0xff) as u8);
    out.push(((x >> 40) & 0xff) as u8);
    out.push(((x >> 48) & 0xff) as u8);
    out.push(((x >> 56) & 0xff) as u8);
    proof {
        assert(out@ =~= old(out)@ + u64_le_bytes(x));
    }
}

/// The canonical serialization of an event payload: its storage identity.
pub fn encode_event(body: &EventBody) -> (r: Vec<u8>)
    ensures
        r@ == spec_encode_body(body@),
{
    match body {
        EventBody::TransfersToNamada { nonce, transfers } => {
            let mut out: Vec<u8> = Vec::new();
            out.push(0u8);
            proof {
                assert(out@ =~= seq![0u8]);
            }
            push_u64_le(&mut out, *nonce);
            push_u64_le(&mut out, transfers.len() as u64);
            let ghost header = seq![0u8] + u64_le_bytes(*nonce) + u64_le_bytes(
                transfers.len() as u64,
            );
            proof {
                assert(out@ =~= header);
            }
            let n = transfers.len();
            let mut i: usize = 0;
            while i < n
                invariant
                    i <= n,
                    n == transfers@.len(),
                    out@ == header + spec_encode_transfers(transfers@.subrange(0, i as int)),
                decreases n - i,
            {
                let t = transfers[i];
                push_u64_le(&mut out, t.amount);
                push_u64_le(&mut out, t.asset.0);
                push_u64_le(&mut out, t.receiver.0);
                proof {
                    let pre = transfers@.subrange(0, i as int);
                    let cur = transfers@.subrange(0, i + 1);
                    assert(cur.drop_last() =~= pre);
                    assert(cur.last() == t);
                    assert(out@ =~= header + spec_encode_transfers(cur));
                }
                i = i + 1;
            }
            proof {
                assert(transfers@.subrange(0, n as int) =~= transfers@);
                assert(out@ =~= spec_encode_body(body@));
            }
            out
        },
    }
}

} // verus!
