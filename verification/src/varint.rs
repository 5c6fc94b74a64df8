use vstd::bytes::*;
use vstd::prelude::*;
use vstd::slice::slice_subrange;

use crate::error::BitcoinError;

verus! {

/// A variable-width unsigned 64-bit integer ("CompactSize"): the length and
/// count prefix of the wire format. The encoder always emits the minimal-width
/// tagged form; the decoder accepts any tag, minimal or not.
#[derive(Debug, PartialEq, Eq, Clone)]
pub struct CompactSize {
    pub value: u64,
}

/// The tagged little-endian encoding of a 64-bit value, at minimal width:
/// one literal byte up to 0xFC, otherwise a marker byte (0xFD/0xFE/0xFF)
/// followed by the value as a 2-, 4- or 8-byte little-endian field.
pub open spec fn varint_bytes(v: u64) -> Seq<u8> {
    if v <= 0xFC {
        seq![v as u8]
    } else if v <= 0xFFFF {
        seq![0xFDu8] + spec_u16_to_le_bytes(v as u16)
    } else if v <= 0xFFFFFFFF {
        seq![0xFEu8] + spec_u32_to_le_bytes(v as u32)
    } else {
        seq![0xFFu8] + spec_u64_to_le_bytes(v)
    }
}

/// What decoding a buffer as a CompactSize yields: the value and the number
/// of bytes consumed, or `None` when the buffer ends too soon (the decoder
/// then fails with `InsufficientBytes`).
pub open spec fn parse_varint(s: Seq<u8>) -> Option<(u64, nat)> {
    if s.len() == 0 {
        None
    } else if s[0] == 0xFD {
        if s.len() < 3 {
            None
        } else {
            Some((spec_u16_from_le_bytes(s.subrange(1, 3)) as u64, 3nat))
        }
    } else if s[0] == 0xFE {
        if s.len() < 5 {
            None
        } else {
            Some((spec_u32_from_le_bytes(s.subrange(1, 5)) as u64, 5nat))
        }
    } else if s[0] == 0xFF {
        if s.len() < 9 {
            None
        } else {
            Some((spec_u64_from_le_bytes(s.subrange(1, 9)), 9nat))
        }
    } else {
        Some((s[0] as u64, 1nat))
    }
}

impl CompactSize {
    pub fn new(value: u64) -> (r: Self)
        ensures
            r.value == value,
    {
        CompactSize { value }
    }

    /// Encode the value at minimal width.
    pub fn to_bytes(&self) -> (r: Vec<u8>)
        ensures
            r@ == varint_bytes(self.value),
    {
        let v = self.value;
        if v <= 0xFC {
            let mut bytes: Vec<u8> = Vec::new();
            bytes.push(v as u8);
            proof {
                assert(bytes@ =~= varint_bytes(self.value));
            }
            bytes
        } else if v <= 0xFFFF {
            let mut bytes: Vec<u8> = Vec::new();
            bytes.push(0xFD);
            let mut tail = u16_to_le_bytes(v as u16);
            bytes.append(&mut tail);
            proof {
                assert(bytes@ =~= varint_bytes(self.value));
            }
            bytes
        } else if v <= 0xFFFFFFFF {
            let mut bytes: Vec<u8> = Vec::new();
            bytes.push(0xFE);
            let mut tail = u32_to_le_bytes(v as u32);
            bytes.append(&mut tail);
            proof {
                assert(bytes@ =~= varint_bytes(self.value));
            }
            bytes
        } else {
            let mut bytes: Vec<u8> = Vec::new();
            bytes.push(0xFF);
            let mut tail = u64_to_le_bytes(v);
            bytes.append(&mut tail);
            proof {
                assert(bytes@ =~= varint_bytes(self.value));
            }
            bytes
        }
    }

    /// Decode a CompactSize from the front of a buffer, returning the value
    /// and how many bytes it consumed.
    pub fn from_bytes(bytes: &[u8]) -> (r: Result<(Self, usize), BitcoinError>)
        ensures
            match parse_varint(bytes@) {
                Some(p) => r matches Ok(q) && q.0.value == p.0 && q.1 as nat == p.1,
                None => r matches Err(e) && e == BitcoinError::InsufficientBytes,
            },
    {
        if bytes.len() == 0 {
            return Err(BitcoinError::InsufficientBytes);
        }
        let tag = bytes[0];
        if tag == 0xFD {
            if bytes.len() < 3 {
                return Err(BitcoinError::InsufficientBytes);
            }
            let value = u16_from_le_bytes(slice_subrange(bytes, 1, 3));
            Ok((CompactSize::new(value as u64), 3))
        } else if tag == 0xFE {
            if bytes.len() < 5 {
                return Err(BitcoinError::InsufficientBytes);
            }
            let value = u32_from_le_bytes(slice_subrange(bytes, 1, 5));
            Ok((CompactSize::new(value as u64), 5))
        } else if tag == 0xFF {
            if bytes.len() < 9 {
                return Err(BitcoinError::InsufficientBytes);
            }
            let value = u64_from_le_bytes(slice_subrange(bytes, 1, 9));
            Ok((CompactSize::new(value), 9))
        } else {
            Ok((CompactSize::new(tag as u64), 1))
        }
    }
}

/// The encoded width of a value: 1, 3, 5 or 9 bytes, picked exactly at the
/// 0xFC, 0xFFFF and 0xFFFFFFFF boundaries.
pub proof fn lemma_varint_bytes_len(v: u64)
    ensures
        v <= 0xFC ==> varint_bytes(v).len() == 1,
        0xFC < v <= 0xFFFF ==> varint_bytes(v).len() == 3 && varint_bytes(v)[0] == 0xFD,
        0xFFFF < v <= 0xFFFFFFFF ==> varint_bytes(v).len() == 5 && varint_bytes(v)[0] == 0xFE,
        0xFFFFFFFF < v ==> varint_bytes(v).len() == 9 && varint_bytes(v)[0] == 0xFF,
{
    lemma_auto_spec_u16_to_from_le_bytes();
    lemma_auto_spec_u32_to_from_le_bytes();
    lemma_auto_spec_u64_to_from_le_bytes();
}

/// Round trip: decoding an encoding, with any bytes after it, yields the
/// original value and consumes exactly the encoding.
pub proof fn lemma_parse_varint_bytes(v: u64, rest: Seq<u8>)
    ensures
        parse_varint(varint_bytes(v) + rest) == Some((v, varint_bytes(v).len())),
{
    lemma_auto_spec_u16_to_from_le_bytes();
    lemma_auto_spec_u32_to_from_le_bytes();
    lemma_auto_spec_u64_to_from_le_bytes();
    let s = varint_bytes(v) + rest;
    if v <= 0xFC {
        assert(s[0] == v as u8);
        assert(s[0] as u64 == v);
    } else if v <= 0xFFFF {
        assert(s[0] == 0xFD);
        assert(s.subrange(1, 3) =~= spec_u16_to_le_bytes(v as u16));
        assert(spec_u16_from_le_bytes(s.subrange(1, 3)) as u64 == v);
    } else if v <= 0xFFFFFFFF {
        assert(s[0] == 0xFE);
        assert(s.subrange(1, 5) =~= spec_u32_to_le_bytes(v as u32));
        assert(spec_u32_from_le_bytes(s.subrange(1, 5)) as u64 == v);
    } else {
        assert(s[0] == 0xFF);
        assert(s.subrange(1, 9) =~= spec_u64_to_le_bytes(v));
        assert(spec_u64_from_le_bytes(s.subrange(1, 9)) == v);
    }
}

/// A successful decode consumes between 1 and 9 bytes, never more than the
/// buffer holds.
pub proof fn lemma_parse_varint_consumes(s: Seq<u8>)
    ensures
        parse_varint(s) matches Some(p) ==> 1 <= p.1 <= s.len() && p.1 <= 9,
{
}

/// The truncation law for CompactSize: removing the last byte of any
/// encoding makes the decode fail, never silently succeed.
pub proof fn lemma_varint_truncation(v: u64)
    ensures
        parse_varint(varint_bytes(v).drop_last()) is None,
{
    let enc = varint_bytes(v);
    lemma_parse_varint_bytes(v, Seq::<u8>::empty());
    assert(enc + Seq::<u8>::empty() =~= enc);
    lemma_parse_varint_take(enc, enc.len() - 1);
    assert(enc.drop_last() =~= enc.take(enc.len() - 1));
}

/// Cutting a buffer at `k` keeps the decode result when the decode consumed
/// at most `k` bytes, and makes it fail when it consumed more: a CompactSize
/// decode depends only on the bytes it consumes.
pub proof fn lemma_parse_varint_take(s: Seq<u8>, k: int)
    requires
        0 <= k <= s.len(),
    ensures
        match parse_varint(s) {
            Some(p) => if p.1 <= k {
                parse_varint(s.take(k)) == Some(p)
            } else {
                parse_varint(s.take(k)) is None
            },
            None => true,
        },
{
    let t = s.take(k);
    if parse_varint(s) is Some && k >= 1 {
        assert(t[0] == s[0]);
        let p = parse_varint(s)->Some_0;
        if p.1 <= k {
            if s[0] == 0xFD {
                assert(t.subrange(1, 3) =~= s.subrange(1, 3));
            } else if s[0] == 0xFE {
                assert(t.subrange(1, 5) =~= s.subrange(1, 5));
            } else if s[0] == 0xFF {
                assert(t.subrange(1, 9) =~= s.subrange(1, 9));
            }
        }
    }
}

} // verus!
