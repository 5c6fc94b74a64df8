use vstd::bytes::*;
use vstd::prelude::*;
use vstd::slice::slice_subrange;

use crate::error::BitcoinError;
use crate::outpoint::OutPoint;
use crate::outpoint::OutPointModel;
use crate::outpoint::lemma_parse_outpoint_bytes;
use crate::outpoint::lemma_parse_outpoint_take;
use crate::outpoint::outpoint_bytes;
use crate::outpoint::outpoint_valid;
use crate::outpoint::parse_outpoint;
use crate::script::Script;
use crate::script::lemma_parse_script_bytes;
use crate::script::lemma_parse_script_take;
use crate::script::parse_script;
use crate::script::script_bytes;

verus! {

/// One transaction input: the outpoint it spends, its unlocking script and
/// its 4-byte sequence number.
#[derive(Debug, PartialEq, Eq, Clone)]
pub struct TransactionInput {
    pub previous_output: OutPoint,
    pub script_sig: Script,
    pub sequence: u32,
}

/// The mathematical shape of an input.
#[verifier::ext_equal]
pub ghost struct InputModel {
    pub previous_output: OutPointModel,
    pub script_sig: Seq<u8>,
    pub sequence: u32,
}

impl View for TransactionInput {
    type V = InputModel;

    open spec fn view(&self) -> InputModel {
        InputModel {
            previous_output: self.previous_output@,
            script_sig: self.script_sig@,
            sequence: self.sequence,
        }
    }
}

/// An input model that an exec value can hold: the outpoint is well formed
/// and the script length fits the CompactSize range.
pub open spec fn input_valid(m: InputModel) -> bool {
    outpoint_valid(m.previous_output) && m.script_sig.len() <= u64::MAX
}

/// The wire encoding of an input: the outpoint's 36 bytes, the script behind
/// its length prefix, then the sequence number as a 4-byte little-endian
/// field.
pub open spec fn input_bytes(m: InputModel) -> Seq<u8> {
    outpoint_bytes(m.previous_output) + script_bytes(m.script_sig) + spec_u32_to_le_bytes(
        m.sequence,
    )
}

/// What decoding a buffer as an input yields: an outpoint, then a script at
/// the resulting offset, then 4 more bytes of sequence number; `None` when
/// any of the three is cut short.
pub open spec fn parse_input(s: Seq<u8>) -> Option<(InputModel, nat)> {
    match parse_outpoint(s) {
        Some((o, n1)) => match parse_script(s.skip(n1 as int)) {
            Some((sc, n2)) => if s.len() >= n1 + n2 + 4 {
                Some(
                    (
                        InputModel {
                            previous_output: o,
                            script_sig: sc,
                            sequence: spec_u32_from_le_bytes(
                                s.subrange((n1 + n2) as int, (n1 + n2 + 4) as int),
                            ),
                        },
                        (n1 + n2 + 4) as nat,
                    ),
                )
            } else {
                None
            },
            None => None,
        },
        None => None,
    }
}

impl TransactionInput {
    pub fn new(previous_output: OutPoint, script_sig: Script, sequence: u32) -> (r: Self)
        ensures
            r@ == (InputModel {
                previous_output: previous_output@,
                script_sig: script_sig@,
                sequence,
            }),
    {
        TransactionInput { previous_output, script_sig, sequence }
    }

    /// Encode the input as outpoint, length-prefixed script, then sequence
    /// number.
    pub fn to_bytes(&self) -> (r: Vec<u8>)
        ensures
            r@ == input_bytes(self@),
    {
        let mut bytes = self.previous_output.to_bytes();
        let mut script = self.script_sig.to_bytes();
        bytes.append(&mut script);
        let mut seq_le = u32_to_le_bytes(self.sequence);
        bytes.append(&mut seq_le);
        proof {
            assert(bytes@ =~= input_bytes(self@));
        }
        bytes
    }

    /// Decode an input from the front of a buffer, returning it and how many
    /// bytes it consumed.
    pub fn from_bytes(bytes: &[u8]) -> (r: Result<(Self, usize), BitcoinError>)
        ensures
            match parse_input(bytes@) {
                Some(p) => r matches Ok(q) && q.0@ == p.0 && q.1 as nat == p.1,
                None => r matches Err(e) && e == BitcoinError::InsufficientBytes,
            },
    {
        let (previous_output, outpoint_n) = match OutPoint::from_bytes(bytes) {
            Ok(p) => p,
            Err(_) => {
                return Err(BitcoinError::InsufficientBytes);
            },
        };
        let tail = slice_subrange(bytes, outpoint_n, bytes.len());
        proof {
            assert(tail@ =~= bytes@.skip(36));
        }
        let (script_sig, script_n) = match Script::from_bytes(tail) {
            Ok(p) => p,
            Err(_) => {
                return Err(BitcoinError::InsufficientBytes);
            },
        };
        proof {
            crate::script::lemma_parse_script_consumes(tail@);
        }
        if bytes.len() - outpoint_n - script_n < 4 {
            return Err(BitcoinError::InsufficientBytes);
        }
        let sequence = u32_from_le_bytes(
            slice_subrange(bytes, outpoint_n + script_n, outpoint_n + script_n + 4),
        );
        Ok((Self::new(previous_output, script_sig, sequence), outpoint_n + script_n + 4))
    }
}

/// A successful input decode consumes at least 41 bytes and at most the
/// whole buffer.
pub proof fn lemma_parse_input_consumes(s: Seq<u8>)
    ensures
        parse_input(s) matches Some(p) ==> 41 <= p.1 <= s.len(),
{
    if parse_input(s) is Some {
        crate::varint::lemma_parse_varint_consumes(s.skip(36));
    }
}

/// Round trip: decoding an input encoding, with any bytes after it, yields
/// the original input and consumes exactly the encoding.
pub proof fn lemma_parse_input_bytes(m: InputModel, rest: Seq<u8>)
    requires
        input_valid(m),
    ensures
        input_bytes(m).len() == 40 + script_bytes(m.script_sig).len(),
        parse_input(input_bytes(m) + rest) == Some((m, input_bytes(m).len())),
{
    lemma_auto_spec_u32_to_from_le_bytes();
    let op = outpoint_bytes(m.previous_output);
    let sb = script_bytes(m.script_sig);
    let le = spec_u32_to_le_bytes(m.sequence);
    let s = input_bytes(m) + rest;
    assert(s =~= op + (sb + (le + rest)));
    lemma_parse_outpoint_bytes(m.previous_output, sb + (le + rest));
    assert(s.skip(36) =~= sb + (le + rest));
    lemma_parse_script_bytes(m.script_sig, le + rest);
    let n2 = sb.len() as int;
    assert(s.subrange(36 + n2, 36 + n2 + 4) =~= le);
    assert(parse_input(s) == Some((m, input_bytes(m).len())));
}

/// The truncation law for inputs: removing the last byte of any well-formed
/// input's encoding makes the decode fail.
pub proof fn lemma_input_truncation(m: InputModel)
    requires
        input_valid(m),
    ensures
        parse_input(input_bytes(m).drop_last()) is None,
{
    let enc = input_bytes(m);
    lemma_parse_input_bytes(m, Seq::<u8>::empty());
    assert(enc + Seq::<u8>::empty() =~= enc);
    lemma_parse_input_take(enc, enc.len() - 1);
    assert(enc.drop_last() =~= enc.take(enc.len() - 1));
}

/// Cutting a buffer at `k` keeps the decode result when the decode consumed
/// at most `k` bytes, and makes it fail when it consumed more: an input
/// decode depends only on the bytes it consumes.
pub proof fn lemma_parse_input_take(s: Seq<u8>, k: int)
    requires
        0 <= k <= s.len(),
    ensures
        match parse_input(s) {
            Some(p) => if p.1 <= k {
                parse_input(s.take(k)) == Some(p)
            } else {
                parse_input(s.take(k)) is None
            },
            None => true,
        },
{
    lemma_parse_outpoint_take(s, k);
    if parse_input(s) is Some {
        let p = parse_input(s)->Some_0;
        if 36 <= k {
            assert(s.take(k).skip(36) =~= s.skip(36).take(k - 36));
            lemma_parse_script_take(s.skip(36), k - 36);
            let q = parse_script(s.skip(36))->Some_0;
            let n2 = q.1 as int;
            if p.1 <= k {
                assert(s.take(k).subrange(36 + n2, 36 + n2 + 4) =~= s.subrange(
                    36 + n2,
                    36 + n2 + 4,
                ));
            }
        }
    }
}

} // verus!
