use solana_anchor_events::base58::pubkey_to_bs58;
use solana_anchor_events::cursor::{read_u32_len, Cursor};

#[test]
fn cursor_reads_u64_le() {
    let value: u64 = 0x1122_3344_5566_7788;
    let bytes = value.to_le_bytes();
    let mut cur = Cursor::new(&bytes);
    let arr = cur.take_array::<8>().unwrap();
    assert_eq!(u64::from_le_bytes(arr), value);
    assert_eq!(cur.pos, 8);
    // Buffer is exhausted.
    assert!(cur.take(1).is_err());
}

#[test]
fn cursor_reads_borsh_string() {
    let text = "pumpfun events";
    let mut buf = Vec::new();
    buf.extend_from_slice(&(text.len() as u32).to_le_bytes());
    buf.extend_from_slice(text.as_bytes());

    let mut cur = Cursor::new(&buf);
    let len = read_u32_len(&mut cur).unwrap();
    assert_eq!(len, text.len());
    let raw = cur.take(len).unwrap();
    assert_eq!(std::str::from_utf8(raw).unwrap(), text);
    assert_eq!(cur.pos, buf.len());
}

#[test]
fn pubkey_encodes_to_bs58() {
    // 32 zero bytes is the canonical default Pubkey: 32 '1' characters.
    let zeros = [0u8; 32];
    let mut cur = Cursor::new(&zeros);
    let arr = cur.take_array::<32>().unwrap();
    let encoded = pubkey_to_bs58(&arr);
    assert_eq!(encoded, "11111111111111111111111111111111");
    assert_eq!(encoded.len(), 32);

    // Arbitrary bytes round-trip through bs58.
    let mut bytes = [0u8; 32];
    bytes[0] = 0xDE;
    bytes[31] = 0xAD;
    let encoded = pubkey_to_bs58(&bytes);
    let decoded = bs58::decode(&encoded).into_vec().unwrap();
    assert_eq!(decoded, bytes.to_vec());
}

#[test]
fn cursor_reads_borsh_vec() {
    // Vec<u8> = u32 length prefix + raw elements.
    let elems: [u8; 3] = [7, 8, 9];
    let mut buf = Vec::new();
    buf.extend_from_slice(&(elems.len() as u32).to_le_bytes());
    buf.extend_from_slice(&elems);

    let mut cur = Cursor::new(&buf);
    let len = read_u32_len(&mut cur).unwrap();
    assert_eq!(len, 3);
    let mut got = Vec::new();
    for _ in 0..len {
        got.push(cur.take(1).unwrap()[0]);
    }
    assert_eq!(got, vec![7, 8, 9]);
    assert_eq!(cur.pos, buf.len());
}
