use ecc_crypt::algorithms::Vigener;
use ecc_crypt::{Decrypt, Encrypt, Key, TryDecrypt, TryEncrypt};

#[test]
fn key_reports_its_length() {
    let key = Key::new(vec![1, 2, 3]);
    assert_eq!(key.len(), 3);
    assert_eq!(key.len_bits(), 24);
    assert_eq!(Key::new(vec![0]).len(), 1);
}

#[test]
fn key_iterates_over_its_bytes() {
    let key = Key::new(vec![7, 8, 9]);
    let bytes: Vec<u8> = key.iter().copied().collect();
    assert_eq!(bytes, vec![7, 8, 9]);
    assert_eq!(*key.index(1), 8);
    assert_eq!(key.into_bytes(), vec![7, 8, 9]);
}

#[test]
fn keys_compare_by_their_bytes() {
    assert!(Key::new(vec![1, 2]) == Key::new(vec![1, 2]));
    assert!(Key::new(vec![1, 2]) != Key::new(vec![1, 3]));
    assert!(Key::new(vec![1, 2]) != Key::new(vec![1, 2, 0]));
    let key = Key::new(vec![4, 5, 6]);
    assert!(key.clone() == key);
}

#[test]
fn keys_join_and_combine_bitwise() {
    let a = Key::new(vec![0b1100, 0b1010]);
    let b = Key::new(vec![0b1010, 0b0110]);
    assert_eq!((&a + &b).into_bytes(), vec![0b1100, 0b1010, 0b1010, 0b0110]);
    assert_eq!((&a & &b).into_bytes(), vec![0b1000, 0b0010]);
    assert_eq!((&a | &b).into_bytes(), vec![0b1110, 0b1110]);
    assert_eq!((&a ^ &b).into_bytes(), vec![0b0110, 0b1100]);
    assert_eq!((!&a).into_bytes(), vec![0b1111_0011, 0b1111_0101]);
}

#[test]
fn vigener_shifts_by_the_repeating_key() {
    let cipher = Vigener::new(Key::new(vec![1, 10]));
    assert_eq!(cipher.key().len(), 2);
    assert_eq!(cipher.encrypt(vec![0, 0, 5, 250, 255]), vec![1, 10, 6, 4, 0]);
    assert_eq!(cipher.decrypt(vec![1, 10, 6, 4, 0]), vec![0, 0, 5, 250, 255]);
    assert_eq!(cipher.encrypt(vec![]), Vec::<u8>::new());
}

#[test]
fn vigener_round_trips() {
    let cipher = Vigener::new(Key::new(vec![200, 3, 77]));
    let data: Vec<u8> = (0..=255).collect();
    assert_eq!(cipher.decrypt(cipher.encrypt(data.clone())), data);
    assert_eq!(cipher.try_decrypt(cipher.try_encrypt(data.clone()).unwrap()), Ok(data));
}

#[test]
fn key_is_written_in_hexadecimal() {
    let key = Key::new(vec![0x00, 0x0f, 0xa5, 0xff, 0x10]);
    assert_eq!(key.to_lower_hex(), "000fa5ff10");
    assert_eq!(key.to_upper_hex(), "000FA5FF10");
    assert_eq!(key.to_string(), "000fa5ff10");
    assert_eq!(key.to_lower_hex(), format!("{:02x}{:02x}{:02x}{:02x}{:02x}", 0, 0x0f, 0xa5, 0xff, 0x10));
    assert_eq!(Key::new(vec![0xbc, 0xde]).to_upper_hex(), format!("{:02X}{:02X}", 0xbc, 0xde));
}

#[test]
fn key_is_written_in_binary() {
    // Two digits at least for every byte, and no more than the byte needs.
    assert_eq!(Key::new(vec![0]).to_binary(), "00");
    assert_eq!(Key::new(vec![1]).to_binary(), "01");
    assert_eq!(Key::new(vec![2, 3]).to_binary(), "1011");
    assert_eq!(Key::new(vec![4, 255, 128]).to_binary(), "1001111111110000000");
    for byte in 0..=255u8 {
        assert_eq!(Key::new(vec![byte]).to_binary(), format!("{:02b}", byte));
    }
}

#[test]
fn key_gives_single_bytes_and_ranges() {
    let key = Key::new(vec![10u8, 20, 30]);
    assert_eq!(*key.index(1), 20);
    assert_eq!(key.range(0, 2), [10, 20]);
    assert_eq!(key.range(1, 3), [20, 30]);
    assert_eq!(key.range(0, 3), [10, 20, 30]);
    assert_eq!(key.range(2, 2), []);
    assert_eq!(key.range(3, 3), []);
}
