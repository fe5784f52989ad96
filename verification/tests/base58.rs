use solana_anchor_events::base58::pubkey_to_bs58;

fn samples() -> Vec<Vec<u8>> {
    vec![
        Vec::new(),
        vec![0],
        vec![0, 0],
        vec![1],
        vec![0, 1],
        vec![1, 0],
        vec![57],
        vec![58],
        vec![255, 255],
        vec![0; 32],
        vec![255; 32],
        (0..32).collect(),
        (1..33).collect(),
        (0..40).collect(),
    ]
}

#[test]
fn base58_texts_are_exact() {
    assert_eq!(pubkey_to_bs58(&[]), "");
    assert_eq!(pubkey_to_bs58(&[0]), "1");
    assert_eq!(pubkey_to_bs58(&[57]), "z");
    assert_eq!(pubkey_to_bs58(&[58]), "21");
    assert_eq!(pubkey_to_bs58(&[0, 0, 58]), "1121");
    assert_eq!(pubkey_to_bs58(b"hello"), "Cn8eVZg");
}

#[test]
fn base58_texts_read_back() {
    for bytes in samples() {
        let text = pubkey_to_bs58(&bytes);
        assert_eq!(bs58::decode(&text).into_vec().unwrap(), bytes);
    }
}

#[test]
fn different_bytes_have_different_base58_texts() {
    let all = samples();
    for i in 0..all.len() {
        for j in 0..i {
            assert_ne!(pubkey_to_bs58(&all[i]), pubkey_to_bs58(&all[j]));
        }
    }
}

#[test]
fn leading_ones_stand_for_leading_zero_bytes() {
    for bytes in samples() {
        let text = pubkey_to_bs58(&bytes);
        let ones = text.chars().take_while(|c| *c == '1').count();
        let zeros = bytes.iter().take_while(|b| **b == 0).count();
        assert_eq!(ones, zeros);
        assert!(text.len() >= bytes.len());
    }
}

#[test]
fn a_key_has_32_to_44_characters() {
    assert_eq!(pubkey_to_bs58(&[0; 32]).len(), 32);
    assert_eq!(pubkey_to_bs58(&[255; 32]).len(), 44);
    let mut key = [0u8; 32];
    for i in 0..32 {
        key[i] = 1;
        let len = pubkey_to_bs58(&key).len();
        assert!(32 <= len && len <= 44);
    }
}
