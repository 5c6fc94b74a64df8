use vstd::bytes::*;
use vstd::prelude::*;
use vstd::slice::slice_subrange;

use crate::error::BitcoinError;
use crate::txid::Txid;

verus! {

/// A reference to one output of a prior transaction: the 32-byte identifier
/// of that transaction and the 4-byte index of the output within it.
#[derive(Debug, PartialEq, Eq, Clone)]
pub struct OutPoint {
    pub txid: Txid,
    pub vout: u32,
}

/// The mathematical shape of an outpoint: the identifier bytes and the index.
#[verifier::ext_equal]
pub ghost struct OutPointModel {
    pub txid: Seq<u8>,
    pub vout: u32,
}

impl View for OutPoint {
    type V = OutPointModel;

    open spec fn view(&self) -> OutPointModel {
        OutPointModel { txid: self.txid@, vout: self.vout }
    }
}

/// An outpoint model that an exec value can hold: the identifier is exactly
/// 32 bytes.
pub open spec fn outpoint_valid(m: OutPointModel) -> bool {
    m.txid.len() == 32
}

/// The wire encoding of an outpoint: the 32 identifier bytes followed by the
/// index as a 4-byte little-endian field, 36 bytes in all.
pub open spec fn outpoint_bytes(m: OutPointModel) -> Seq<u8> {
    m.txid + spec_u32_to_le_bytes(m.vout)
}

/// What decoding a buffer as an outpoint yields: the first 32 bytes as the
/// identifier and the next 4 as the little-endian index, 36 bytes consumed;
/// `None` when fewer than 36 bytes remain.
pub open spec fn parse_outpoint(s: Seq<u8>) -> Option<(OutPointModel, nat)> {
    if s.len() < 36 {
        None
    } else {
        Some(
            (
                OutPointModel {
                    txid: s.subrange(0, 32),
                    vout: spec_u32_from_le_bytes(s.subrange(32, 36)),
                },
                36nat,
            ),
        )
    }
}

impl OutPoint {
    pub fn new(txid: [u8; 32], vout: u32) -> (r: Self)
        ensures
            r@ == (OutPointModel { txid: txid@, vout }),
    {
        OutPoint { txid: Txid(txid), vout }
    }

    /// Encode the outpoint as its fixed 36-byte frame.
    pub fn to_bytes(&self) -> (r: Vec<u8>)
        ensures
            r@ == outpoint_bytes(self@),
    {
        let mut bytes: Vec<u8> = Vec::new();
        bytes.extend_from_slice(self.txid.0.as_slice());
        let mut tail = u32_to_le_bytes(self.vout);
        bytes.append(&mut tail);
        proof {
            assert(bytes@ =~= outpoint_bytes(self@));
        }
        bytes
    }

    /// Decode an outpoint from the front of a buffer, returning it and the
    /// 36 bytes it consumed.
    pub fn from_bytes(bytes: &[u8]) -> (r: Result<(Self, usize), BitcoinError>)
        ensures
            match parse_outpoint(bytes@) {
                Some(p) => r matches Ok(q) && q.0@ == p.0 && q.1 as nat == p.1,
                None => r matches Err(e) && e == BitcoinError::InsufficientBytes,
            },
    {
        if bytes.len() < 36 {
            return Err(BitcoinError::InsufficientBytes);
        }
        let id_slice = slice_subrange(bytes, 0, 32);
        let mut txid: [u8; 32] = [0u8; 32];
        let mut i: usize = 0;
        while i < 32
            invariant
                0 <= i <= 32,
                id_slice@.len() == 32,
                id_slice@ == bytes@.subrange(0, 32),
                txid@.len() == 32,
                forall|j: int| 0 <= j < i ==> txid@[j] == id_slice@[j],
            decreases 32 - i,
        {
            txid[i] = id_slice[i];
            i += 1;
        }
        proof {
            assert(txid@ =~= bytes@.subrange(0, 32));
        }
        let vout = u32_from_le_bytes(slice_subrange(bytes, 32, 36));
        Ok((OutPoint::new(txid, vout), 36))
    }
}

/// Round trip: decoding an outpoint encoding, with any bytes after it,
/// yields the original outpoint and consumes exactly its 36 bytes.
pub proof fn lemma_parse_outpoint_bytes(m: OutPointModel, rest: Seq<u8>)
    requires
        outpoint_valid(m),
    ensures
        outpoint_bytes(m).len() == 36,
        parse_outpoint(outpoint_bytes(m) + rest) == Some((m, 36nat)),
{
    lemma_auto_spec_u32_to_from_le_bytes();
    let s = outpoint_bytes(m) + rest;
    assert(s.subrange(0, 32) =~= m.txid);
    assert(s.subrange(32, 36) =~= spec_u32_to_le_bytes(m.vout));
}

/// The truncation law for outpoints: removing the last byte of any
/// well-formed outpoint's 36-byte encoding makes the decode fail.
pub proof fn lemma_outpoint_truncation(m: OutPointModel)
    requires
        outpoint_valid(m),
    ensures
        parse_outpoint(outpoint_bytes(m).drop_last()) is None,
{
    let enc = outpoint_bytes(m);
    lemma_parse_outpoint_bytes(m, Seq::<u8>::empty());
    assert(enc + Seq::<u8>::empty() =~= enc);
    assert(enc.drop_last().len() < 36);
}

/// Cutting a buffer at `k` keeps the decode result when at least 36 bytes
/// stay, and makes it fail when fewer do.
pub proof fn lemma_parse_outpoint_take(s: Seq<u8>, k: int)
    requires
        0 <= k <= s.len(),
    ensures
        match parse_outpoint(s) {
            Some(p) => if p.1 <= k {
                parse_outpoint(s.take(k)) == Some(p)
            } else {
                parse_outpoint(s.take(k)) is None
            },
            None => true,
        },
{
    if s.len() >= 36 && k >= 36 {
        assert(s.take(k).subrange(0, 32) =~= s.subrange(0, 32));
        assert(s.take(k).subrange(32, 36) =~= s.subrange(32, 36));
    }
}

} // verus!
