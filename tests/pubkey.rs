use lite_rpc_core::pubkey::{read_u64, write_u64, Pubkey};

#[test]
fn pubkey_bytes_are_little_endian_words() {
    let bytes: Vec<u8> = (0u8..32).collect();
    let key = Pubkey::from_bytes(&bytes).unwrap();
    assert_eq!(key.w0, u64::from_le_bytes([0, 1, 2, 3, 4, 5, 6, 7]));
    assert_eq!(key.w3, u64::from_le_bytes([24, 25, 26, 27, 28, 29, 30, 31]));
    assert_eq!(key.to_bytes(), bytes);
}

#[test]
fn pubkey_needs_32_bytes() {
    assert_eq!(Pubkey::from_bytes(&vec![0u8; 31]), None);
    assert_eq!(Pubkey::from_bytes(&vec![0u8; 33]), None);
}

#[test]
fn u64_round_trip() {
    let mut out = vec![9u8];
    write_u64(&mut out, 0x0102_0304_0506_0708);
    assert_eq!(out, vec![9, 8, 7, 6, 5, 4, 3, 2, 1]);
    assert_eq!(read_u64(&out, 1), 0x0102_0304_0506_0708);
}
