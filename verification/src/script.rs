use vstd::prelude::*;
use vstd::slice::slice_subrange;

use crate::error::BitcoinError;
use crate::varint::CompactSize;
use crate::varint::lemma_parse_varint_bytes;
use crate::varint::lemma_parse_varint_take;
use crate::varint::parse_varint;
use crate::varint::varint_bytes;

verus! {

/// An opaque byte payload attached to an input. On the wire it is written
/// as a CompactSize length prefix followed by the raw bytes.
#[derive(Debug, PartialEq, Eq, Clone, Default)]
pub struct Script {
    pub bytes: Vec<u8>,
}

impl View for Script {
    type V = Seq<u8>;

    open spec fn view(&self) -> Seq<u8> {
        self.bytes@
    }
}

/// The wire encoding of a script payload: a CompactSize holding its length,
/// then the payload itself.
pub open spec fn script_bytes(payload: Seq<u8>) -> Seq<u8> {
    varint_bytes(payload.len() as u64) + payload
}

/// What decoding a buffer as a script yields: a CompactSize length `l`
/// consuming `n` bytes, then the next `l` bytes as the payload, `n + l`
/// consumed in all; `None` when the prefix or the payload is cut short.
pub open spec fn parse_script(s: Seq<u8>) -> Option<(Seq<u8>, nat)> {
    match parse_varint(s) {
        Some((l, n)) => if s.len() >= n + l {
            Some((s.subrange(n as int, n + l), (n + l) as nat))
        } else {
            None
        },
        None => None,
    }
}

impl Script {
    pub fn new(bytes: Vec<u8>) -> (r: Self)
        ensures
            r@ == bytes@,
    {
        Script { bytes }
    }

    /// Encode the payload behind its CompactSize length prefix.
    pub fn to_bytes(&self) -> (r: Vec<u8>)
        ensures
            r@ == script_bytes(self@),
    {
        let mut bytes = CompactSize::new(self.bytes.len() as u64).to_bytes();
        bytes.extend_from_slice(self.bytes.as_slice());
        bytes
    }

    /// Decode a script from the front of a buffer, returning it and how many
    /// bytes it consumed.
    pub fn from_bytes(bytes: &[u8]) -> (r: Result<(Self, usize), BitcoinError>)
        ensures
            match parse_script(bytes@) {
                Some(p) => r matches Ok(q) && q.0@ == p.0 && q.1 as nat == p.1,
                None => r matches Err(e) && e == BitcoinError::InsufficientBytes,
            },
    {
        let (size, size_bytes) = match CompactSize::from_bytes(bytes) {
            Ok(p) => p,
            Err(e) => {
                return Err(BitcoinError::InsufficientBytes);
            },
        };
        proof {
            crate::varint::lemma_parse_varint_consumes(bytes@);
        }
        let remaining = bytes.len() - size_bytes;
        if size.value > remaining as u64 {
            return Err(BitcoinError::InsufficientBytes);
        }
        let script_len = size.value as usize;
        let payload = slice_subrange(bytes, size_bytes, size_bytes + script_len);
        let mut script_bytes: Vec<u8> = Vec::new();
        script_bytes.extend_from_slice(payload);
        proof {
            assert(script_bytes@ =~= bytes@.subrange(
                size_bytes as int,
                size_bytes as int + size.value,
            ));
        }
        Ok((Script::new(script_bytes), size_bytes + script_len))
    }
}

/// A successful script decode consumes at most the whole buffer.
pub proof fn lemma_parse_script_consumes(s: Seq<u8>)
    ensures
        parse_script(s) matches Some(p) ==> p.1 <= s.len() && p.0.len() <= p.1,
{
    crate::varint::lemma_parse_varint_consumes(s);
}

/// Round trip: decoding a script encoding, with any bytes after it, yields
/// the original payload and consumes exactly the encoding.
pub proof fn lemma_parse_script_bytes(payload: Seq<u8>, rest: Seq<u8>)
    requires
        payload.len() <= u64::MAX,
    ensures
        script_bytes(payload).len() == varint_bytes(payload.len() as u64).len() + payload.len(),
        parse_script(script_bytes(payload) + rest) == Some(
            (payload, script_bytes(payload).len()),
        ),
{
    let l = payload.len() as u64;
    let pre = varint_bytes(l);
    let s = script_bytes(payload) + rest;
    assert(s =~= pre + (payload + rest));
    lemma_parse_varint_bytes(l, payload + rest);
    assert(s.subrange(pre.len() as int, pre.len() + l) =~= payload);
}

/// The truncation law for scripts: removing the last byte of any encodable
/// payload's encoding makes the decode fail.
pub proof fn lemma_script_truncation(payload: Seq<u8>)
    requires
        payload.len() <= u64::MAX,
    ensures
        parse_script(script_bytes(payload).drop_last()) is None,
{
    let enc = script_bytes(payload);
    lemma_parse_script_bytes(payload, Seq::<u8>::empty());
    assert(enc + Seq::<u8>::empty() =~= enc);
    lemma_parse_script_take(enc, enc.len() - 1);
    assert(enc.drop_last() =~= enc.take(enc.len() - 1));
}

/// Cutting a buffer at `k` keeps the decode result when the decode consumed
/// at most `k` bytes, and makes it fail when it consumed more: a script
/// decode depends only on the bytes it consumes.
pub proof fn lemma_parse_script_take(s: Seq<u8>, k: int)
    requires
        0 <= k <= s.len(),
    ensures
        match parse_script(s) {
            Some(p) => if p.1 <= k {
                parse_script(s.take(k)) == Some(p)
            } else {
                parse_script(s.take(k)) is None
            },
            None => true,
        },
{
    lemma_parse_varint_take(s, k);
    if parse_script(s) is Some {
        let (l, n) = parse_varint(s)->Some_0;
        let p = parse_script(s)->Some_0;
        if p.1 <= k {
            assert(parse_varint(s.take(k)) == Some((l, n)));
            assert(s.take(k).subrange(n as int, n + l) =~= s.subrange(n as int, n + l));
        } else {
            if n <= k {
                assert(parse_varint(s.take(k)) == Some((l, n)));
                assert(s.take(k).len() < n + l);
            }
        }
    }
}

} // verus!
