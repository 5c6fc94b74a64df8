use vstd::bytes::*;
use vstd::prelude::*;
use vstd::slice::slice_subrange;

use crate::error::BitcoinError;
use crate::input::InputModel;
use crate::input::TransactionInput;
use crate::input::input_bytes;
use crate::input::input_valid;
use crate::input::lemma_parse_input_bytes;
use crate::input::lemma_parse_input_consumes;
use crate::input::lemma_parse_input_take;
use crate::input::parse_input;
use crate::varint::CompactSize;
use crate::varint::lemma_parse_varint_bytes;
use crate::varint::lemma_parse_varint_consumes;
use crate::varint::lemma_parse_varint_take;
use crate::varint::lemma_varint_bytes_len;
use crate::varint::parse_varint;
use crate::varint::varint_bytes;

verus! {

/// A transaction: a 4-byte version, a CompactSize-prefixed sequence of
/// inputs, and a 4-byte lock time. The input count is never stored: it is
/// derived from the sequence when encoding and consumed as a CompactSize
/// when decoding.
#[derive(Debug, PartialEq, Eq, Clone)]
pub struct BitcoinTransaction {
    pub version: u32,
    pub inputs: Vec<TransactionInput>,
    pub lock_time: u32,
}

/// The mathematical shape of a transaction.
#[verifier::ext_equal]
pub ghost struct TxModel {
    pub version: u32,
    pub inputs: Seq<InputModel>,
    pub lock_time: u32,
}

/// The models of a sequence of exec inputs.
pub open spec fn inputs_view(s: Seq<TransactionInput>) -> Seq<InputModel> {
    Seq::new(s.len(), |i: int| s[i]@)
}

impl View for BitcoinTransaction {
    type V = TxModel;

    open spec fn view(&self) -> TxModel {
        TxModel {
            version: self.version,
            inputs: inputs_view(self.inputs@),
            lock_time: self.lock_time,
        }
    }
}

/// A transaction model that an exec value can hold: the input count fits the
/// CompactSize range and every input is well formed.
pub open spec fn tx_valid(m: TxModel) -> bool {
    &&& m.inputs.len() <= u64::MAX
    &&& forall|i: int| 0 <= i < m.inputs.len() ==> input_valid(#[trigger] m.inputs[i])
}

/// The concatenation of the encodings of a sequence of inputs, in order.
pub open spec fn inputs_bytes(ms: Seq<InputModel>) -> Seq<u8>
    decreases ms.len(),
{
    if ms.len() == 0 {
        Seq::<u8>::empty()
    } else {
        input_bytes(ms[0]) + inputs_bytes(ms.drop_first())
    }
}

/// What decoding `count` consecutive inputs from a buffer yields: their
/// models and the total bytes consumed, or `None` as soon as one of them is
/// cut short.
pub open spec fn parse_inputs(s: Seq<u8>, count: nat) -> Option<(Seq<InputModel>, nat)>
    decreases count,
{
    if count == 0 {
        Some((Seq::<InputModel>::empty(), 0nat))
    } else {
        match parse_input(s) {
            Some((m, n)) => match parse_inputs(s.skip(n as int), (count - 1) as nat) {
                Some((ms, n2)) => Some((seq![m] + ms, n + n2)),
                None => None,
            },
            None => None,
        }
    }
}

/// The wire encoding of a transaction: version, input count as a
/// CompactSize, each input's encoding in order, then the lock time.
pub open spec fn tx_bytes(m: TxModel) -> Seq<u8> {
    spec_u32_to_le_bytes(m.version) + varint_bytes(m.inputs.len() as u64) + inputs_bytes(m.inputs)
        + spec_u32_to_le_bytes(m.lock_time)
}

/// What decoding a buffer as a transaction yields: at least 8 bytes up
/// front, the version, a CompactSize input count, that many inputs, then 4
/// bytes of lock time; `None` at the first point where bytes run out.
pub open spec fn parse_tx(s: Seq<u8>) -> Option<(TxModel, nat)> {
    if s.len() < 8 {
        None
    } else {
        match parse_varint(s.skip(4)) {
            Some((count, n1)) => match parse_inputs(s.skip(4 + n1 as int), count as nat) {
                Some((ins, n2)) => if s.len() >= 4 + n1 + n2 + 4 {
                    Some(
                        (
                            TxModel {
                                version: spec_u32_from_le_bytes(s.subrange(0, 4)),
                                inputs: ins,
                                lock_time: spec_u32_from_le_bytes(
                                    s.subrange((4 + n1 + n2) as int, (4 + n1 + n2 + 4) as int),
                                ),
                            },
                            (4 + n1 + n2 + 4) as nat,
                        ),
                    )
                } else {
                    None
                },
                None => None,
            },
            None => None,
        }
    }
}

/// Encoding a sequence of inputs one more at the end appends that input's
/// encoding.
proof fn lemma_inputs_bytes_push(ms: Seq<InputModel>, m: InputModel)
    ensures
        inputs_bytes(ms.push(m)) == inputs_bytes(ms) + input_bytes(m),
    decreases ms.len(),
{
    if ms.len() == 0 {
        assert(ms.push(m)[0] == m);
        assert(ms.push(m).drop_first() =~= Seq::<InputModel>::empty());
        assert(inputs_bytes(ms.push(m)) == input_bytes(m) + inputs_bytes(
            Seq::<InputModel>::empty(),
        ));
        assert(inputs_bytes(Seq::<InputModel>::empty()) == Seq::<u8>::empty());
        assert(inputs_bytes(ms) == Seq::<u8>::empty());
        assert(inputs_bytes(ms.push(m)) =~= inputs_bytes(ms) + input_bytes(m));
    } else {
        assert(ms.push(m)[0] == ms[0]);
        assert(ms.push(m).drop_first() =~= ms.drop_first().push(m));
        assert(inputs_bytes(ms.push(m)) == input_bytes(ms[0]) + inputs_bytes(
            ms.drop_first().push(m),
        ));
        lemma_inputs_bytes_push(ms.drop_first(), m);
        assert(inputs_bytes(ms.push(m)) =~= inputs_bytes(ms) + input_bytes(m));
    }
}

impl BitcoinTransaction {
    pub fn new(version: u32, inputs: Vec<TransactionInput>, lock_time: u32) -> (r: Self)
        ensures
            r@ == (TxModel { version, inputs: inputs_view(inputs@), lock_time }),
    {
        BitcoinTransaction { version, inputs, lock_time }
    }

    /// Encode the transaction as its full wire frame.
    pub fn to_bytes(&self) -> (r: Vec<u8>)
        ensures
            r@ == tx_bytes(self@),
    {
        let mut bytes = u32_to_le_bytes(self.version);
        let mut count = CompactSize::new(self.inputs.len() as u64).to_bytes();
        bytes.append(&mut count);
        let ghost head = spec_u32_to_le_bytes(self.version) + varint_bytes(
            self.inputs@.len() as u64,
        );
        proof {
            assert(bytes@ =~= head + inputs_bytes(inputs_view(self.inputs@).take(0)));
        }
        let mut idx: usize = 0;
        while idx < self.inputs.len()
            invariant
                0 <= idx <= self.inputs@.len(),
                bytes@ == head + inputs_bytes(inputs_view(self.inputs@).take(idx as int)),
            decreases self.inputs@.len() - idx,
        {
            let mut one = self.inputs[idx].to_bytes();
            bytes.append(&mut one);
            proof {
                let views = inputs_view(self.inputs@);
                assert(views.take(idx + 1) =~= views.take(idx as int).push(views[idx as int]));
                lemma_inputs_bytes_push(views.take(idx as int), views[idx as int]);
                assert(bytes@ =~= head + inputs_bytes(views.take(idx + 1)));
            }
            idx += 1;
        }
        proof {
            assert(inputs_view(self.inputs@).take(self.inputs@.len() as int) =~= inputs_view(
                self.inputs@,
            ));
        }
        let mut lock = u32_to_le_bytes(self.lock_time);
        bytes.append(&mut lock);
        proof {
            assert(bytes@ =~= tx_bytes(self@));
        }
        bytes
    }

    /// Decode a transaction from the front of a buffer, returning it and how
    /// many bytes it consumed. Trailing bytes beyond the frame are left
    /// unconsumed and are not an error.
    #[verifier::loop_isolation(false)]
    pub fn from_bytes(bytes: &[u8]) -> (r: Result<(Self, usize), BitcoinError>)
        ensures
            match parse_tx(bytes@) {
                Some(p) => r matches Ok(q) && q.0@ == p.0 && q.1 as nat == p.1,
                None => r matches Err(e) && e == BitcoinError::InsufficientBytes,
            },
    {
        if bytes.len() < 8 {
            return Err(BitcoinError::InsufficientBytes);
        }
        let version = u32_from_le_bytes(slice_subrange(bytes, 0, 4));
        let tail4 = slice_subrange(bytes, 4, bytes.len());
        proof {
            assert(tail4@ =~= bytes@.skip(4));
        }
        let (input_count, varint_n) = match CompactSize::from_bytes(tail4) {
            Ok(p) => p,
            Err(_) => {
                return Err(BitcoinError::InsufficientBytes);
            },
        };
        proof {
            lemma_parse_varint_consumes(tail4@);
        }
        let count = input_count.value;
        let mut offset: usize = 4 + varint_n;
        let ghost off0 = offset as int;
        let mut inputs: Vec<TransactionInput> = Vec::new();
        let mut i: u64 = 0;
        proof {
            assert(inputs_view(inputs@) =~= Seq::<InputModel>::empty());
            let p0 = parse_inputs(bytes@.skip(off0), count as nat);
            if p0 is Some {
                assert(inputs_view(inputs@) + p0->Some_0.0 =~= p0->Some_0.0);
            }
        }
        while i < count
            invariant
                0 <= i <= count,
                4 <= off0 <= offset <= bytes@.len(),
                inputs@.len() == i,
                parse_inputs(bytes@.skip(off0), count as nat) == match parse_inputs(
                    bytes@.skip(offset as int),
                    (count - i) as nat,
                ) {
                    Some(p) => Some(
                        (inputs_view(inputs@) + p.0, ((offset - off0) + p.1) as nat),
                    ),
                    None => None::<(Seq<InputModel>, nat)>,
                },
            decreases count - i,
        {
            let tail = slice_subrange(bytes, offset, bytes.len());
            proof {
                assert(tail@ =~= bytes@.skip(offset as int));
            }
            let (input, input_n) = match TransactionInput::from_bytes(tail) {
                Ok(p) => p,
                Err(_) => {
                    return Err(BitcoinError::InsufficientBytes);
                },
            };
            proof {
                lemma_parse_input_consumes(tail@);
            }
            let ghost old_views = inputs_view(inputs@);
            inputs.push(input);
            proof {
                let cur = bytes@.skip(offset as int);
                assert(cur.skip(input_n as int) =~= bytes@.skip(offset as int + input_n as int));
                assert(inputs_view(inputs@) =~= old_views.push(input@));
                let rec = parse_inputs(
                    bytes@.skip(offset as int + input_n as int),
                    (count - i - 1) as nat,
                );
                if rec is Some {
                    let p = rec->Some_0;
                    assert(old_views + (seq![input@] + p.0) =~= old_views.push(input@) + p.0);
                }
            }
            offset = offset + input_n;
            i = i + 1;
        }
        proof {
            assert(bytes@.skip(offset as int).len() == bytes@.len() - offset);
            assert(parse_inputs(bytes@.skip(offset as int), 0nat) == Some(
                (Seq::<InputModel>::empty(), 0nat),
            ));
            assert(inputs_view(inputs@) + Seq::<InputModel>::empty() =~= inputs_view(inputs@));
        }
        if bytes.len() - offset < 4 {
            return Err(BitcoinError::InsufficientBytes);
        }
        let lock_time = u32_from_le_bytes(slice_subrange(bytes, offset, offset + 4));
        let r = BitcoinTransaction::new(version, inputs, lock_time);
        proof {
            let p = parse_tx(bytes@)->Some_0;
            assert(r@ =~~= p.0);
        }
        Ok((r, offset + 4))
    }
}

/// A successful run of input decodes consumes at most the whole buffer.
pub proof fn lemma_parse_inputs_consumes(s: Seq<u8>, count: nat)
    ensures
        parse_inputs(s, count) matches Some(p) ==> p.1 <= s.len() && p.0.len() == count,
    decreases count,
{
    if count > 0 && parse_inputs(s, count) is Some {
        lemma_parse_input_consumes(s);
        let (m, n) = parse_input(s)->Some_0;
        lemma_parse_inputs_consumes(s.skip(n as int), (count - 1) as nat);
    }
}

/// Round trip for a sequence of inputs: decoding the concatenation of their
/// encodings, with any bytes after it, yields them all back in order.
pub proof fn lemma_parse_inputs_bytes(ms: Seq<InputModel>, rest: Seq<u8>)
    requires
        forall|i: int| 0 <= i < ms.len() ==> input_valid(#[trigger] ms[i]),
    ensures
        parse_inputs(inputs_bytes(ms) + rest, ms.len()) == Some((ms, inputs_bytes(ms).len())),
    decreases ms.len(),
{
    if ms.len() == 0 {
        assert(inputs_bytes(ms) + rest =~= rest);
        assert(ms =~= Seq::<InputModel>::empty());
    } else {
        let head = ms[0];
        let tail = ms.drop_first();
        let s = inputs_bytes(ms) + rest;
        assert(s =~= input_bytes(head) + (inputs_bytes(tail) + rest));
        lemma_parse_input_bytes(head, inputs_bytes(tail) + rest);
        let n0 = input_bytes(head).len();
        assert(s.skip(n0 as int) =~= inputs_bytes(tail) + rest);
        assert(forall|i: int| 0 <= i < tail.len() ==> tail[i] == ms[i + 1]);
        lemma_parse_inputs_bytes(tail, rest);
        assert(seq![head] + tail =~= ms);
        assert(inputs_bytes(ms).len() == n0 + inputs_bytes(tail).len());
    }
}

/// The round-trip law: decoding the encoding of any well-formed transaction
/// returns that transaction and consumes exactly the whole encoding.
pub proof fn lemma_parse_tx_bytes(m: TxModel)
    requires
        tx_valid(m),
    ensures
        parse_tx(tx_bytes(m)) == Some((m, tx_bytes(m).len())),
{
    lemma_auto_spec_u32_to_from_le_bytes();
    let count = m.inputs.len() as u64;
    lemma_varint_bytes_len(count);
    let ver = spec_u32_to_le_bytes(m.version);
    let vi = varint_bytes(count);
    let ins = inputs_bytes(m.inputs);
    let lock = spec_u32_to_le_bytes(m.lock_time);
    let s = tx_bytes(m);
    let n1 = vi.len() as int;
    lemma_parse_inputs_bytes(m.inputs, lock);
    let n2 = ins.len() as int;
    assert(s.len() == 4 + n1 + n2 + 4);
    assert(s.subrange(0, 4) =~= ver);
    assert(s.skip(4) =~= vi + (ins + lock));
    lemma_parse_varint_bytes(count, ins + lock);
    assert(s.skip(4 + n1) =~= ins + lock);
    assert(s.subrange(4 + n1 + n2, 4 + n1 + n2 + 4) =~= lock);
    let p = parse_tx(s)->Some_0;
    assert(p.0 =~~= m);
}

/// Every transaction value satisfies the model's well-formedness: its
/// identifiers are 32 bytes, its script and input counts fit in 64 bits.
pub proof fn lemma_tx_view_valid(t: BitcoinTransaction)
    ensures
        tx_valid(t@),
{
    broadcast use vstd::array::group_array_axioms;

    assert(vstd::std_specs::vec::spec_vec_len(&t.inputs) == t.inputs@.len());
    assert forall|i: int| 0 <= i < t@.inputs.len() implies input_valid(#[trigger] t@.inputs[i]) by {
        let inp = t.inputs@[i];
        assert(t@.inputs[i] == inp@);
        assert(vstd::std_specs::vec::spec_vec_len(&inp.script_sig.bytes)
            == inp.script_sig.bytes@.len());
        assert(inp.previous_output.txid.0@.len() == 32);
    }
}

/// Round trip, stated of the values the library builds: for every
/// constructed transaction, decoding its encoding gives the same
/// transaction back and consumes the encoding's full length.
pub proof fn lemma_transaction_round_trip(t: BitcoinTransaction)
    ensures
        parse_tx(tx_bytes(t@)) == Some((t@, tx_bytes(t@).len())),
{
    lemma_tx_view_valid(t);
    lemma_parse_tx_bytes(t@);
}

/// Cutting a buffer at `k` keeps the result of decoding `count` inputs when
/// they consumed at most `k` bytes, and makes the run fail when they
/// consumed more.
pub proof fn lemma_parse_inputs_take(s: Seq<u8>, count: nat, k: int)
    requires
        0 <= k <= s.len(),
    ensures
        match parse_inputs(s, count) {
            Some(p) => if p.1 <= k {
                parse_inputs(s.take(k), count) == Some(p)
            } else {
                parse_inputs(s.take(k), count) is None
            },
            None => true,
        },
    decreases count,
{
    if count > 0 && parse_inputs(s, count) is Some {
        lemma_parse_input_take(s, k);
        lemma_parse_input_consumes(s);
        let (m0, n0) = parse_input(s)->Some_0;
        let p = parse_inputs(s, count)->Some_0;
        lemma_parse_inputs_consumes(s.skip(n0 as int), (count - 1) as nat);
        if n0 <= k {
            assert(s.take(k).skip(n0 as int) =~= s.skip(n0 as int).take(k - n0));
            lemma_parse_inputs_take(s.skip(n0 as int), (count - 1) as nat, k - n0);
        }
    }
}

/// Cutting a buffer at `k` keeps the decode result when the decode consumed
/// at most `k` bytes, and makes it fail when it consumed more: a
/// transaction decode depends only on the bytes it consumes.
pub proof fn lemma_parse_tx_take(s: Seq<u8>, k: int)
    requires
        0 <= k <= s.len(),
    ensures
        match parse_tx(s) {
            Some(p) => if p.1 <= k {
                parse_tx(s.take(k)) == Some(p)
            } else {
                parse_tx(s.take(k)) is None
            },
            None => true,
        },
{
    if parse_tx(s) is Some {
        let p = parse_tx(s)->Some_0;
        let (count, n1u) = parse_varint(s.skip(4))->Some_0;
        let n1 = n1u as int;
        let (ms, n2u) = parse_inputs(s.skip(4 + n1), count as nat)->Some_0;
        let n2 = n2u as int;
        lemma_parse_varint_consumes(s.skip(4));
        if k < 8 {
            assert(s.take(k).len() < 8);
        } else {
            assert(s.take(k).subrange(0, 4) =~= s.subrange(0, 4));
            assert(s.take(k).skip(4) =~= s.skip(4).take(k - 4));
            lemma_parse_varint_take(s.skip(4), k - 4);
            if n1 <= k - 4 {
                assert(s.take(k).skip(4 + n1) =~= s.skip(4 + n1).take(k - 4 - n1));
                lemma_parse_inputs_take(s.skip(4 + n1), count as nat, k - 4 - n1);
                if n2 <= k - 4 - n1 && p.1 <= k {
                    assert(s.take(k).subrange(4 + n1 + n2, 4 + n1 + n2 + 4) =~= s.subrange(
                        4 + n1 + n2,
                        4 + n1 + n2 + 4,
                    ));
                }
            }
        }
    }
}

/// The empty-input law: every decoder fails on an empty buffer, and a
/// transaction decode fails on any buffer shorter than its 8-byte minimum
/// frame.
pub proof fn lemma_empty_input_fails(s: Seq<u8>)
    ensures
        parse_varint(Seq::<u8>::empty()) is None,
        crate::outpoint::parse_outpoint(Seq::<u8>::empty()) is None,
        crate::script::parse_script(Seq::<u8>::empty()) is None,
        parse_input(Seq::<u8>::empty()) is None,
        s.len() < 8 ==> parse_tx(s) is None,
{
}

/// The truncation law: removing the last byte of any well-formed
/// transaction's encoding makes the decode fail, never silently succeed.
pub proof fn lemma_tx_truncation(m: TxModel)
    requires
        tx_valid(m),
    ensures
        parse_tx(tx_bytes(m).drop_last()) is None,
{
    lemma_parse_tx_bytes(m);
    let s = tx_bytes(m);
    lemma_parse_tx_take(s, s.len() - 1);
    assert(s.drop_last() =~= s.take(s.len() - 1));
}

} // verus!
