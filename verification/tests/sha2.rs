use ecc_crypt::algorithms::{Sha224, Sha256, Sha384, Sha512, Sha512_224, Sha512_256};
use ecc_crypt::{Encrypt, TryEncrypt};

#[test]
fn sha224_of_abc() {
    assert_eq!(
        Sha224::default().encrypt(b"abc".to_vec()),
        vec![
            35, 9, 125, 34, 52, 5, 216, 34, 134, 66, 164, 119, 189, 162, 85, 179, 42, 173, 188,
            228, 189, 160, 179, 247, 227, 108, 157, 167
        ]
    );
}

#[test]
fn sha256_of_abc() {
    let expected = vec![
        186, 120, 22, 191, 143, 1, 207, 234, 65, 65, 64, 222, 93, 174, 34, 35, 176, 3, 97, 163,
        150, 23, 122, 156, 180, 16, 255, 97, 242, 0, 21, 173,
    ];
    assert_eq!(Sha256::default().encrypt(b"abc".to_vec()), expected);
    assert_eq!(Sha256::default().try_encrypt(b"abc".to_vec()), Ok(expected));
}

#[test]
fn sha384_of_abc() {
    assert_eq!(
        Sha384::default().encrypt(b"abc".to_vec()),
        vec![
            203, 0, 117, 63, 69, 163, 94, 139, 181, 160, 61, 105, 154, 198, 80, 7, 39, 44, 50, 171,
            14, 222, 209, 99, 26, 139, 96, 90, 67, 255, 91, 237, 128, 134, 7, 43, 161, 231, 204,
            35, 88, 186, 236, 161, 52, 200, 37, 167
        ]
    );
}

#[test]
fn sha512_of_abc() {
    assert_eq!(
        Sha512::default().encrypt(b"abc".to_vec()),
        vec![
            221, 175, 53, 161, 147, 97, 122, 186, 204, 65, 115, 73, 174, 32, 65, 49, 18, 230, 250,
            78, 137, 169, 126, 162, 10, 158, 238, 230, 75, 85, 211, 154, 33, 146, 153, 42, 39, 79,
            193, 168, 54, 186, 60, 35, 163, 254, 235, 189, 69, 77, 68, 35, 100, 60, 232, 14, 42,
            154, 201, 79, 165, 76, 164, 159
        ]
    );
}

#[test]
fn sha512_224_of_abc() {
    assert_eq!(
        Sha512_224::default().encrypt(b"abc".to_vec()),
        vec![
            70, 52, 39, 15, 112, 123, 106, 84, 218, 174, 117, 48, 70, 8, 66, 226, 14, 55, 237, 38,
            92, 238, 233, 164, 62, 137, 36, 170
        ]
    );
}

#[test]
fn sha512_256_of_abc() {
    assert_eq!(
        Sha512_256::default().encrypt(b"abc".to_vec()),
        vec![
            83, 4, 142, 38, 129, 148, 30, 249, 155, 46, 41, 183, 107, 76, 125, 171, 228, 194, 208,
            198, 52, 252, 109, 70, 224, 226, 241, 49, 7, 231, 175, 35
        ]
    );
}

#[test]
fn digests_have_their_documented_lengths() {
    assert_eq!(Sha224::default().encrypt(vec![]).len(), 28);
    assert_eq!(Sha256::default().encrypt(vec![]).len(), 32);
    assert_eq!(Sha384::default().encrypt(vec![]).len(), 48);
    assert_eq!(Sha512::default().encrypt(vec![]).len(), 64);
    assert_eq!(Sha512_224::default().encrypt(vec![]).len(), 28);
    assert_eq!(Sha512_256::default().encrypt(vec![]).len(), 32);
}
