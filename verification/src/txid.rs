use vstd::prelude::*;

use crate::error::BitcoinError;

verus! {

/// A transaction identifier: exactly 32 raw bytes, immutable once
/// constructed. On the binary wire it is written as-is, with no prefix; at
/// text boundaries it is rendered as 64 lowercase hex characters.
#[derive(Debug, PartialEq, Eq, Clone)]
pub struct Txid(pub [u8; 32]);

impl View for Txid {
    type V = Seq<u8>;

    open spec fn view(&self) -> Seq<u8> {
        self.0@
    }
}

/// The lowercase hex character for a value below 16.
pub open spec fn hex_digit_char(n: u8) -> char
    recommends
        n < 16,
{
    if n < 10 {
        ((n + 0x30) as u8) as char
    } else {
        ((n + 0x57) as u8) as char
    }
}

/// The value of a hex character, upper or lower case, or `None` for any
/// other character.
pub open spec fn hex_digit_value(c: char) -> Option<u8> {
    let n = c as u32;
    if 0x30 <= n && n <= 0x39 {
        Some((n - 0x30) as u8)
    } else if 0x61 <= n && n <= 0x66 {
        Some((n - 0x61 + 10) as u8)
    } else if 0x41 <= n && n <= 0x46 {
        Some((n - 0x41 + 10) as u8)
    } else {
        None
    }
}

/// The lowercase hex rendering of a byte sequence: two characters per byte,
/// high nibble first.
pub open spec fn hex_of(bytes: Seq<u8>) -> Seq<char> {
    Seq::new(
        2 * bytes.len(),
        |i: int|
            if i % 2 == 0 {
                hex_digit_char(bytes[i / 2] / 16)
            } else {
                hex_digit_char(bytes[i / 2] % 16)
            },
    )
}

/// What parsing a hex string yields: the bytes it spells, or `None` when its
/// length is odd or any character is not a hex digit.
pub open spec fn parse_hex(s: Seq<char>) -> Option<Seq<u8>>
    decreases s.len(),
{
    if s.len() == 0 {
        Some(Seq::<u8>::empty())
    } else if s.len() == 1 {
        None
    } else {
        match (hex_digit_value(s[0]), hex_digit_value(s[1])) {
            (Some(h), Some(l)) => match parse_hex(s.skip(2)) {
                Some(rest) => Some(seq![(h * 16 + l) as u8] + rest),
                None => None,
            },
            _ => None,
        }
    }
}

/// Relies on String::push: appends the given character to the end of the
/// string.
#[verifier::external_body]
fn push_char(s: &mut String, c: char)
    ensures
        final(s)@ == old(s)@.push(c),
{
    s.push(c)
}

fn hex_char(n: u8) -> (r: char)
    requires
        n < 16,
    ensures
        r == hex_digit_char(n),
{
    if n < 10 {
        (n + 0x30) as char
    } else {
        (n + 0x57) as char
    }
}

fn hex_val(c: char) -> (r: Option<u8>)
    ensures
        r == hex_digit_value(c),
{
    let n = c as u32;
    if 0x30 <= n && n <= 0x39 {
        Some((n - 0x30) as u8)
    } else if 0x61 <= n && n <= 0x66 {
        Some((n - 0x61 + 10) as u8)
    } else if 0x41 <= n && n <= 0x46 {
        Some((n - 0x41 + 10) as u8)
    } else {
        None
    }
}

impl Txid {
    /// Render the identifier as 64 lowercase hex characters.
    pub fn to_hex(&self) -> (r: String)
        ensures
            r@ == hex_of(self@),
    {
        let mut out = String::new();
        let mut i: usize = 0;
        while i < 32
            invariant
                0 <= i <= 32,
                out@ =~= hex_of(self@.take(i as int)),
            decreases 32 - i,
        {
            let b = self.0[i];
            push_char(&mut out, hex_char(b / 16));
            push_char(&mut out, hex_char(b % 16));
            i += 1;
            proof {
                assert(out@ =~= hex_of(self@.take(i as int)));
            }
        }
        proof {
            assert(self@.take(32) =~= self@);
        }
        out
    }

    /// Parse 64 hex characters, of either case, into an identifier. Any
    /// other length, or any character that is not a hex digit, fails with
    /// `InvalidFormat`.
    pub fn from_hex(s: &str) -> (r: Result<Txid, BitcoinError>)
        ensures
            match parse_hex(s@) {
                Some(b) => if b.len() == 32 {
                    r matches Ok(t) && t@ == b
                } else {
                    r matches Err(e) && e == BitcoinError::InvalidFormat
                },
                None => r matches Err(e) && e == BitcoinError::InvalidFormat,
            },
    {
        let n = s.unicode_len();
        if n != 64 {
            proof {
                lemma_parse_hex_len(s@);
            }
            return Err(BitcoinError::InvalidFormat);
        }
        let mut arr: [u8; 32] = [0u8; 32];
        let mut i: usize = 0;
        proof {
            assert(s@.skip(0) =~= s@);
        }
        while i < 32
            invariant
                0 <= i <= 32,
                s@.len() == 64,
                parse_hex(s@) == match parse_hex(s@.skip(2 * i as int)) {
                    Some(rest) => Some(arr@.take(i as int) + rest),
                    None => None::<Seq<u8>>,
                },
            decreases 32 - i,
        {
            let c_hi = s.get_char(2 * i);
            let c_lo = s.get_char(2 * i + 1);
            let hi = hex_val(c_hi);
            let lo = hex_val(c_lo);
            if hi.is_none() || lo.is_none() {
                proof {
                    let t = s@.skip(2 * i as int);
                    assert(t[0] == c_hi && t[1] == c_lo);
                    assert(parse_hex(t) is None);
                }
                return Err(BitcoinError::InvalidFormat);
            }
            let b = hi.unwrap() * 16 + lo.unwrap();
            proof {
                let t = s@.skip(2 * i as int);
                assert(t[0] == c_hi && t[1] == c_lo);
                assert(t.skip(2) =~= s@.skip(2 * (i + 1) as int));
                assert(parse_hex(t) == match parse_hex(t.skip(2)) {
                    Some(rest) => Some(seq![b] + rest),
                    None => None::<Seq<u8>>,
                });
            }
            let ghost old_arr = arr@;
            arr[i] = b;
            proof {
                assert(arr@.take(i as int) =~= old_arr.take(i as int));
                assert(arr@.take(i + 1 as int) =~= arr@.take(i as int) + seq![b]);
                let r2 = parse_hex(s@.skip(2 * (i + 1) as int));
                if r2 is Some {
                    let rest = r2->Some_0;
                    assert((arr@.take(i as int) + (seq![b] + rest)) =~= (arr@.take(i + 1 as int)
                        + rest));
                }
            }
            i += 1;
        }
        proof {
            assert(s@.skip(64).len() == 0);
            assert(parse_hex(s@.skip(64)) == Some(Seq::<u8>::empty()));
            assert(arr@.take(32) + Seq::<u8>::empty() =~= arr@);
        }
        Ok(Txid(arr))
    }
}

/// A successfully parsed hex string has even length and spells half as many
/// bytes.
pub proof fn lemma_parse_hex_len(s: Seq<char>)
    ensures
        parse_hex(s) matches Some(b) ==> s.len() % 2 == 0 && 2 * b.len() == s.len(),
    decreases s.len(),
{
    if s.len() >= 2 && parse_hex(s) is Some {
        lemma_parse_hex_len(s.skip(2));
    }
}

/// The hex characters the encoder emits parse back to the value they were
/// made from.
proof fn lemma_hex_digit_char_value(n: u8)
    requires
        n < 16,
    ensures
        hex_digit_value(hex_digit_char(n)) == Some(n),
{
}

/// Identifier text round trip: parsing the hex rendering of any byte
/// sequence gives back exactly those bytes.
pub proof fn lemma_hex_round_trip(b: Seq<u8>)
    ensures
        parse_hex(hex_of(b)) == Some(b),
    decreases b.len(),
{
    if b.len() == 0 {
        assert(hex_of(b).len() == 0);
        assert(b =~= Seq::<u8>::empty());
    } else {
        let s = hex_of(b);
        let hi = b[0] / 16;
        let lo = b[0] % 16;
        assert(s[0] == hex_digit_char(hi));
        assert(s[1] == hex_digit_char(lo));
        lemma_hex_digit_char_value(hi);
        lemma_hex_digit_char_value(lo);
        assert(s.skip(2) =~= hex_of(b.drop_first()));
        lemma_hex_round_trip(b.drop_first());
        assert((hi * 16 + lo) as u8 == b[0]);
        assert(seq![b[0]] + b.drop_first() =~= b);
    }
}

} // verus!
