use bitcoin_codec::BitcoinError;
use bitcoin_codec::BitcoinTransaction;
use bitcoin_codec::CompactSize;
use bitcoin_codec::OutPoint;
use bitcoin_codec::Script;
use bitcoin_codec::TransactionInput;
use bitcoin_codec::Txid;

fn sample_txid() -> [u8; 32] {
    let mut id = [0u8; 32];
    for (i, b) in id.iter_mut().enumerate() {
        *b = i as u8;
    }
    id
}

fn sample_input(script: Vec<u8>, vout: u32, sequence: u32) -> TransactionInput {
    TransactionInput::new(OutPoint::new(sample_txid(), vout), Script::new(script), sequence)
}

#[test]
fn compact_size_boundary_widths() {
    assert_eq!(CompactSize::new(0).to_bytes(), vec![0x00]);
    assert_eq!(CompactSize::new(252).to_bytes(), vec![0xFC]);
    assert_eq!(CompactSize::new(253).to_bytes(), vec![0xFD, 0xFD, 0x00]);
    assert_eq!(CompactSize::new(65535).to_bytes(), vec![0xFD, 0xFF, 0xFF]);
    assert_eq!(CompactSize::new(65536).to_bytes(), vec![0xFE, 0x00, 0x00, 0x01, 0x00]);
    assert_eq!(
        CompactSize::new(4294967295).to_bytes(),
        vec![0xFE, 0xFF, 0xFF, 0xFF, 0xFF]
    );
    assert_eq!(
        CompactSize::new(4294967296).to_bytes(),
        vec![0xFF, 0x00, 0x00, 0x00, 0x00, 0x01, 0x00, 0x00, 0x00]
    );
    assert_eq!(
        CompactSize::new(u64::MAX).to_bytes(),
        vec![0xFF, 0xFF, 0xFF, 0xFF, 0xFF, 0xFF, 0xFF, 0xFF, 0xFF]
    );
}

#[test]
fn compact_size_round_trip() {
    for v in [0u64, 1, 252, 253, 65535, 65536, 4294967295, 4294967296, u64::MAX] {
        let enc = CompactSize::new(v).to_bytes();
        let (decoded, used) = CompactSize::from_bytes(&enc).unwrap();
        assert_eq!(decoded.value, v);
        assert_eq!(used, enc.len());
    }
}

#[test]
fn compact_size_accepts_non_minimal_encodings() {
    let (decoded, used) = CompactSize::from_bytes(&[0xFD, 0x0A, 0x00]).unwrap();
    assert_eq!(decoded.value, 10);
    assert_eq!(used, 3);
    let (decoded, used) = CompactSize::from_bytes(&[0xFE, 0x0A, 0x00, 0x00, 0x00]).unwrap();
    assert_eq!(decoded.value, 10);
    assert_eq!(used, 5);
    let (decoded, used) =
        CompactSize::from_bytes(&[0xFF, 0x0A, 0, 0, 0, 0, 0, 0, 0]).unwrap();
    assert_eq!(decoded.value, 10);
    assert_eq!(used, 9);
}

#[test]
fn compact_size_truncated_fails() {
    assert_eq!(
        CompactSize::from_bytes(&[0xFD, 0x00]),
        Err(BitcoinError::InsufficientBytes)
    );
    assert_eq!(
        CompactSize::from_bytes(&[0xFE, 0x00, 0x00, 0x00]),
        Err(BitcoinError::InsufficientBytes)
    );
    assert_eq!(
        CompactSize::from_bytes(&[0xFF, 0, 0, 0, 0, 0, 0, 0]),
        Err(BitcoinError::InsufficientBytes)
    );
}

#[test]
fn empty_buffer_fails_everywhere() {
    assert_eq!(CompactSize::from_bytes(&[]), Err(BitcoinError::InsufficientBytes));
    assert_eq!(OutPoint::from_bytes(&[]), Err(BitcoinError::InsufficientBytes));
    assert_eq!(Script::from_bytes(&[]), Err(BitcoinError::InsufficientBytes));
    assert_eq!(TransactionInput::from_bytes(&[]), Err(BitcoinError::InsufficientBytes));
    assert_eq!(
        BitcoinTransaction::from_bytes(&[]),
        Err(BitcoinError::InsufficientBytes)
    );
}

#[test]
fn transaction_needs_eight_bytes_up_front() {
    assert_eq!(
        BitcoinTransaction::from_bytes(&[0x01, 0x00, 0x00, 0x00, 0x00, 0x00, 0x00]),
        Err(BitcoinError::InsufficientBytes)
    );
}

#[test]
fn outpoint_round_trip() {
    let op = OutPoint::new(sample_txid(), 7);
    let enc = op.to_bytes();
    assert_eq!(enc.len(), 36);
    assert_eq!(&enc[0..32], &sample_txid());
    assert_eq!(&enc[32..36], &[0x07, 0x00, 0x00, 0x00]);
    let (decoded, used) = OutPoint::from_bytes(&enc).unwrap();
    assert_eq!(decoded, op);
    assert_eq!(used, 36);
}

#[test]
fn outpoint_short_buffer_fails() {
    let enc = OutPoint::new(sample_txid(), 7).to_bytes();
    assert_eq!(
        OutPoint::from_bytes(&enc[0..35]),
        Err(BitcoinError::InsufficientBytes)
    );
}

#[test]
fn script_three_byte_scenario() {
    let script = Script::new(vec![0xAA, 0xBB, 0xCC]);
    let enc = script.to_bytes();
    assert_eq!(enc, vec![0x03, 0xAA, 0xBB, 0xCC]);
    let (decoded, used) = Script::from_bytes(&enc).unwrap();
    assert_eq!(decoded.bytes, vec![0xAA, 0xBB, 0xCC]);
    assert_eq!(used, 4);
}

#[test]
fn script_empty_and_long_round_trip() {
    let empty = Script::new(vec![]);
    let enc = empty.to_bytes();
    assert_eq!(enc, vec![0x00]);
    let (decoded, used) = Script::from_bytes(&enc).unwrap();
    assert_eq!(decoded, empty);
    assert_eq!(used, 1);

    // 300 bytes: the length prefix must switch to the 0xFD form.
    let long = Script::new(vec![0x51; 300]);
    let enc = long.to_bytes();
    assert_eq!(&enc[0..3], &[0xFD, 0x2C, 0x01]);
    assert_eq!(enc.len(), 303);
    let (decoded, used) = Script::from_bytes(&enc).unwrap();
    assert_eq!(decoded, long);
    assert_eq!(used, 303);
}

#[test]
fn script_payload_cut_short_fails() {
    assert_eq!(
        Script::from_bytes(&[0x03, 0xAA, 0xBB]),
        Err(BitcoinError::InsufficientBytes)
    );
}

#[test]
fn input_round_trip() {
    let input = sample_input(vec![0xAA, 0xBB, 0xCC], 1, 0xFFFFFFFF);
    let enc = input.to_bytes();
    assert_eq!(enc.len(), 36 + 4 + 4);
    let (decoded, used) = TransactionInput::from_bytes(&enc).unwrap();
    assert_eq!(decoded, input);
    assert_eq!(used, enc.len());
}

#[test]
fn input_truncated_fails() {
    let enc = sample_input(vec![0xAA, 0xBB, 0xCC], 1, 2).to_bytes();
    for cut in 0..enc.len() {
        assert_eq!(
            TransactionInput::from_bytes(&enc[0..cut]),
            Err(BitcoinError::InsufficientBytes),
            "a frame cut to {cut} bytes must not decode"
        );
    }
}

#[test]
fn empty_transaction_is_nine_exact_bytes() {
    let tx = BitcoinTransaction::new(1, vec![], 0);
    let enc = tx.to_bytes();
    assert_eq!(
        enc,
        vec![0x01, 0x00, 0x00, 0x00, 0x00, 0x00, 0x00, 0x00, 0x00]
    );
    let (decoded, used) = BitcoinTransaction::from_bytes(&enc).unwrap();
    assert_eq!(decoded, tx);
    assert_eq!(used, 9);
}

#[test]
fn transaction_round_trip_with_inputs() {
    let tx = BitcoinTransaction::new(
        2,
        vec![
            sample_input(vec![], 0, 0),
            sample_input(vec![0xAA, 0xBB, 0xCC], 1, 0xFFFFFFFF),
            sample_input(vec![0x51; 300], 9, 42),
        ],
        500_000,
    );
    let enc = tx.to_bytes();
    let (decoded, used) = BitcoinTransaction::from_bytes(&enc).unwrap();
    assert_eq!(decoded, tx);
    assert_eq!(used, enc.len());
}

#[test]
fn transaction_ignores_trailing_bytes() {
    let tx = BitcoinTransaction::new(1, vec![sample_input(vec![0x01], 3, 4)], 7);
    let mut enc = tx.to_bytes();
    let frame = enc.len();
    enc.extend_from_slice(&[0xDE, 0xAD, 0xBE, 0xEF]);
    let (decoded, used) = BitcoinTransaction::from_bytes(&enc).unwrap();
    assert_eq!(decoded, tx);
    assert_eq!(used, frame);
}

#[test]
fn transaction_truncated_anywhere_fails() {
    let tx = BitcoinTransaction::new(
        1,
        vec![sample_input(vec![0xAA, 0xBB], 0, 1), sample_input(vec![], 5, 6)],
        99,
    );
    let enc = tx.to_bytes();
    for cut in 0..enc.len() {
        assert_eq!(
            BitcoinTransaction::from_bytes(&enc[0..cut]),
            Err(BitcoinError::InsufficientBytes),
            "a frame cut to {cut} bytes must not decode"
        );
    }
}

#[test]
fn transaction_count_larger_than_inputs_fails() {
    // version, count = 2, one complete input, lock time: the second input is
    // missing, so the decode must fail rather than return a partial result.
    let mut enc = vec![0x01, 0x00, 0x00, 0x00, 0x02];
    enc.extend_from_slice(&sample_input(vec![], 0, 0).to_bytes());
    enc.extend_from_slice(&[0x00, 0x00, 0x00, 0x00]);
    assert_eq!(
        BitcoinTransaction::from_bytes(&enc),
        Err(BitcoinError::InsufficientBytes)
    );
}
