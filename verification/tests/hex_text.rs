use bitcoin_codec::BitcoinError;
use bitcoin_codec::Txid;

fn sample_txid() -> [u8; 32] {
    let mut id = [0u8; 32];
    for (i, b) in id.iter_mut().enumerate() {
        *b = (7 * i + 1) as u8;
    }
    id
}

#[test]
fn to_hex_is_lowercase_and_exact() {
    let mut id = [0u8; 32];
    id[0] = 0x01;
    id[1] = 0xAB;
    id[31] = 0xFF;
    let rendered = Txid(id).to_hex();
    let mut expected = String::from("01ab");
    expected.push_str(&"00".repeat(29));
    expected.push_str("ff");
    assert_eq!(rendered, expected);
    assert_eq!(rendered.len(), 64);
}

#[test]
fn hex_round_trip() {
    let id = Txid(sample_txid());
    let text = id.to_hex();
    let back = Txid::from_hex(&text).unwrap();
    assert_eq!(back, id);
}

#[test]
fn from_hex_accepts_uppercase() {
    let id = Txid(sample_txid());
    let upper = id.to_hex().to_uppercase();
    assert_eq!(Txid::from_hex(&upper).unwrap(), id);
}

#[test]
fn from_hex_rejects_wrong_length() {
    let text = Txid(sample_txid()).to_hex();
    assert_eq!(Txid::from_hex(&text[0..62]), Err(BitcoinError::InvalidFormat));
    assert_eq!(Txid::from_hex(&text[0..63]), Err(BitcoinError::InvalidFormat));
    let mut longer = text.clone();
    longer.push_str("00");
    assert_eq!(Txid::from_hex(&longer), Err(BitcoinError::InvalidFormat));
    assert_eq!(Txid::from_hex(""), Err(BitcoinError::InvalidFormat));
}

#[test]
fn from_hex_rejects_bad_characters() {
    let text = Txid(sample_txid()).to_hex();
    let mut bad = text.clone();
    bad.replace_range(10..11, "g");
    assert_eq!(Txid::from_hex(&bad), Err(BitcoinError::InvalidFormat));
    let mut unicode = text;
    unicode.replace_range(0..1, "é");
    assert_eq!(Txid::from_hex(&unicode), Err(BitcoinError::InvalidFormat));
}

#[test]
fn hex_text_matches_hex_crate() {
    let id = Txid(sample_txid());
    let text = id.to_hex();
    assert_eq!(text, hex::encode(sample_txid()));
    assert_eq!(hex::decode(&text).unwrap(), sample_txid().to_vec());
    let back = Txid::from_hex(&hex::encode(sample_txid())).unwrap();
    assert_eq!(back, id);
}
