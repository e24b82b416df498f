use ecc_crypt::algorithms::hamming::{DecodeError, EncodeError};
use ecc_crypt::algorithms::HammingECC;
use ecc_crypt::{TryDecrypt, TryEncrypt};

fn flip_bit(bytes: &mut Vec<u8>, k: usize) {
    bytes[k / 8] ^= 0x80 >> (k % 8);
}

fn sample_message(len: usize) -> Vec<u8> {
    (0..len).map(|i| (i * 37 + 11) as u8).collect()
}

#[test]
fn into_ok() {
    let test_cases = vec![
        (
            HammingECC::new(4, 3),
            vec![0b10010110, 0b00110110],
            vec![0b10001000, 0b00100111, 0b10000111, 0b00101000],
        ),
        (
            HammingECC::new(4, 4),
            vec![0b01011010, 0b10000001],
            vec![0b01001000, 0b00011000, 0b01001000, 0b10110010],
        ),
        (
            HammingECC::new(3, 4),
            vec![0b01110010, 0b01101000],
            vec![0b10101000, 0b11101110, 0b00011110, 0b00101011, 0b11001000],
        ),
        (HammingECC::new(4, 3), vec![], vec![0b00000000, 0b00000000]),
        (HammingECC::new(3, 5), vec![], vec![0b00000000, 0b00000000]),
    ];

    for (instance, input, expected_output) in test_cases {
        let hamming = instance.unwrap();
        let actual_output: Vec<u8> = hamming.try_encrypt(input).unwrap();
        assert_eq!(actual_output, expected_output)
    }
}

#[test]
fn new_accepts_only_valid_configurations() {
    assert!(HammingECC::new(3, 2).is_some());
    assert!(HammingECC::new(255, 255).is_some());
    assert!(HammingECC::new(2, 2).is_none());
    assert!(HammingECC::new(3, 1).is_none());
    assert!(HammingECC::new(0, 0).is_none());
    assert!(HammingECC::new(2, 200).is_none());
    assert!(HammingECC::new(200, 1).is_none());
}

#[test]
fn concrete_vector_decodes_to_its_message() {
    let codec = HammingECC::new(4, 3).unwrap();
    let wire = vec![0b10001000, 0b00100111, 0b10000111, 0b00101000];
    assert_eq!(codec.decode(&wire), Ok(vec![0b10010110, 0b00110110]));
    assert_eq!(codec.try_decrypt(wire), Ok(vec![0b10010110, 0b00110110]));
}

#[test]
fn empty_message_round_trips() {
    let codec = HammingECC::new(4, 3).unwrap();
    let wire = codec.encode(&[]).unwrap();
    assert_eq!(wire, vec![0b00000000, 0b00000000]);
    assert_eq!(codec.decode(&wire), Ok(vec![]));

    let codec = HammingECC::new(3, 5).unwrap();
    let wire = codec.encode(&[]).unwrap();
    assert_eq!(wire, vec![0, 0]);
    assert_eq!(codec.decode(&wire), Ok(vec![]));
}

#[test]
fn round_trip_over_configurations() {
    for b in 3u8..=7 {
        for l in 2u8..=9 {
            let codec = HammingECC::new(b, l).unwrap();
            let longest = (1usize << l) - 1;
            for len in [0, 1, 2, 3, 5, longest / 2, longest] {
                if len > longest {
                    continue;
                }
                let message = sample_message(len);
                let wire = codec.encode(&message).unwrap();
                assert_eq!(codec.decode(&wire), Ok(message));
            }
        }
    }
}

#[test]
fn encoded_length_is_whole_blocks() {
    // 16-bit blocks carry 11 payload bits each; 3 + 16 bits need two blocks.
    let codec = HammingECC::new(4, 3).unwrap();
    assert_eq!(codec.encode(&[1, 2]).unwrap().len(), 4);
    // 8-bit blocks carry 4 payload bits each; 4 + 16 bits need five blocks.
    let codec = HammingECC::new(3, 4).unwrap();
    assert_eq!(codec.encode(&[1, 2]).unwrap().len(), 5);
    // 5 bits of length alone need two 8-bit blocks.
    let codec = HammingECC::new(3, 5).unwrap();
    assert_eq!(codec.encode(&[]).unwrap().len(), 2);
}

#[test]
fn wide_length_field_encodes_leading_zeros() {
    // A length field wider than a machine word: the high bits are zero.
    let codec = HammingECC::new(5, 70).unwrap();
    let message = vec![0xAB, 0xCD, 0xEF];
    let wire = codec.encode(&message).unwrap();
    assert_eq!(codec.decode(&wire), Ok(message));
}

#[test]
fn capacity_boundary() {
    let codec = HammingECC::new(4, 3).unwrap();
    let fits = sample_message(7);
    let wire = codec.encode(&fits).unwrap();
    assert_eq!(codec.decode(&wire), Ok(fits));
    assert_eq!(
        codec.encode(&sample_message(8)),
        Err(EncodeError::MessageTooLarge { max: 7, actual: 8 })
    );
    assert_eq!(
        codec.try_encrypt(sample_message(20)),
        Err(EncodeError::MessageTooLarge { max: 7, actual: 20 })
    );

    let codec = HammingECC::new(3, 2).unwrap();
    assert!(codec.encode(&sample_message(3)).is_ok());
    assert_eq!(
        codec.encode(&sample_message(4)),
        Err(EncodeError::MessageTooLarge { max: 3, actual: 4 })
    );
}

#[test]
fn every_single_bit_flip_is_corrected() {
    for (b, l) in [(3u8, 4u8), (4, 3), (5, 6)] {
        let codec = HammingECC::new(b, l).unwrap();
        let message = sample_message(5.min((1usize << l) - 1));
        let wire = codec.encode(&message).unwrap();
        for k in 0..wire.len() * 8 {
            let mut corrupted = wire.clone();
            flip_bit(&mut corrupted, k);
            assert_eq!(codec.decode(&corrupted), Ok(message.clone()));
        }
    }
}

#[test]
fn one_flip_in_every_block_is_corrected() {
    let codec = HammingECC::new(4, 4).unwrap();
    let message = sample_message(9);
    let wire = codec.encode(&message).unwrap();
    let count = wire.len() * 8 / 16;
    let mut corrupted = wire.clone();
    for j in 0..count {
        let position = (j * 5 + 3) % 16;
        flip_bit(&mut corrupted, position * count + j);
    }
    assert_eq!(codec.decode(&corrupted), Ok(message));
}

#[test]
fn every_double_bit_flip_in_one_block_is_detected() {
    let codec = HammingECC::new(4, 3).unwrap();
    let message = vec![0b10010110, 0b00110110];
    let wire = codec.encode(&message).unwrap();
    let count = wire.len() * 8 / 16;
    assert_eq!(count, 2);
    for j in 0..count {
        for first in 0..16 {
            for second in 0..16 {
                if first == second {
                    continue;
                }
                let mut corrupted = wire.clone();
                flip_bit(&mut corrupted, first * count + j);
                flip_bit(&mut corrupted, second * count + j);
                assert_eq!(
                    codec.decode(&corrupted),
                    Err(DecodeError::UncorrectableBlock { block_index: j })
                );
            }
        }
    }
}

#[test]
fn first_uncorrectable_block_is_reported() {
    let codec = HammingECC::new(3, 4).unwrap();
    let wire = codec.encode(&[0b01110010, 0b01101000]).unwrap();
    let count = 5;
    let mut corrupted = wire.clone();
    for j in [3, 1] {
        flip_bit(&mut corrupted, 2 * count + j);
        flip_bit(&mut corrupted, 6 * count + j);
    }
    assert_eq!(
        codec.decode(&corrupted),
        Err(DecodeError::UncorrectableBlock { block_index: 1 })
    );
}

#[test]
fn burst_of_block_count_bits_is_corrected() {
    let codec = HammingECC::new(4, 5).unwrap();
    let message = sample_message(12);
    let wire = codec.encode(&message).unwrap();
    let bits = wire.len() * 8;
    let count = bits / 16;
    assert!(count > 1);
    for start in 0..=bits - count {
        let mut corrupted = wire.clone();
        for k in start..start + count {
            flip_bit(&mut corrupted, k);
        }
        assert_eq!(codec.decode(&corrupted), Ok(message.clone()));
    }
}

#[test]
fn ragged_stream_is_malformed() {
    let codec = HammingECC::new(4, 3).unwrap();
    assert_eq!(codec.decode(&[0]), Err(DecodeError::Malformed));
    assert_eq!(codec.decode(&[0, 0, 0]), Err(DecodeError::Malformed));
    assert_eq!(codec.try_decrypt(vec![1, 2, 3, 4, 5]), Err(DecodeError::Malformed));

    // A block larger than any stream this machine can hold.
    let codec = HammingECC::new(200, 3).unwrap();
    assert_eq!(codec.decode(&[0, 0]), Err(DecodeError::Malformed));
}

#[test]
fn short_stream_is_truncated() {
    // The first block of a two-block stream: it declares two bytes and holds
    // eight bits of them.
    let codec = HammingECC::new(4, 3).unwrap();
    assert_eq!(codec.decode(&[0b10100101, 0b10010110]), Err(DecodeError::Truncated));

    // No block at all: not even the length field is there.
    assert_eq!(codec.decode(&[]), Err(DecodeError::Truncated));
    let codec = HammingECC::new(200, 3).unwrap();
    assert_eq!(codec.decode(&[]), Err(DecodeError::Truncated));

    // One block of four payload bits under a length field of five.
    let codec = HammingECC::new(3, 5).unwrap();
    assert_eq!(codec.decode(&[0]), Err(DecodeError::Truncated));
}

#[test]
fn padding_after_the_message_is_ignored() {
    // A third, all-zero block after the two that carry the message.
    let codec = HammingECC::new(4, 3).unwrap();
    let wire = codec.encode(&[0b10010110, 0b00110110]).unwrap();
    let mut blocks: Vec<Vec<bool>> = vec![Vec::new(), Vec::new(), vec![false; 16]];
    for k in 0..32 {
        blocks[k % 2].push(wire[k / 8] & (0x80 >> (k % 8)) != 0);
    }
    let mut longer = vec![0u8; 6];
    for i in 0..16 {
        for j in 0..3 {
            if blocks[j][i] {
                flip_bit(&mut longer, i * 3 + j);
            }
        }
    }
    assert_eq!(codec.decode(&longer), Ok(vec![0b10010110, 0b00110110]));
}

#[test]
fn encoded_len_counts_the_wire_bytes() {
    let codec = HammingECC::new(4, 3).unwrap();
    assert_eq!(codec.encoded_len(2), Some(4));
    assert_eq!(codec.encoded_len(0), Some(2));
    let codec = HammingECC::new(3, 4).unwrap();
    assert_eq!(codec.encoded_len(2), Some(5));
    for (b, l) in [(3u8, 2u8), (5, 9), (7, 12)] {
        let codec = HammingECC::new(b, l).unwrap();
        for len in [0usize, 1, 2, 3] {
            let wire = codec.encode(&sample_message(len)).unwrap();
            assert_eq!(codec.encoded_len(len), Some(wire.len()));
        }
    }
    // Blocks and messages beyond what the machine can count.
    assert_eq!(HammingECC::new(200, 3).unwrap().encoded_len(1), None);
    assert_eq!(HammingECC::new(3, 2).unwrap().encoded_len(usize::MAX), None);
    assert_eq!(HammingECC::new(3, 2).unwrap().encoded_len(usize::MAX / 16 + 1), None);
}

#[test]
fn checked_calls_agree_with_the_plain_ones() {
    let codec = HammingECC::new(4, 3).unwrap();
    let message = vec![0b10010110, 0b00110110];
    let wire = codec.checked_encode(&message).unwrap().unwrap();
    assert_eq!(wire, vec![0b10001000, 0b00100111, 0b10000111, 0b00101000]);
    assert_eq!(codec.checked_decode(&wire), Some(Ok(message)));
    assert_eq!(
        codec.checked_encode(&sample_message(9)),
        Some(Err(EncodeError::MessageTooLarge { max: 7, actual: 9 }))
    );
    assert_eq!(codec.checked_decode(&[0]), Some(Err(DecodeError::Malformed)));

    // A block too large to count: a message that fits the length field
    // cannot be encoded, one that does not is refused as ever.
    let codec = HammingECC::new(200, 3).unwrap();
    assert_eq!(codec.checked_encode(&sample_message(2)), None);
    assert_eq!(
        codec.checked_encode(&sample_message(8)),
        Some(Err(EncodeError::MessageTooLarge { max: 7, actual: 8 }))
    );
}

#[test]
fn mended_blocks_are_counted() {
    let codec = HammingECC::new(4, 4).unwrap();
    let message = sample_message(9);
    let wire = codec.encode(&message).unwrap();
    let count = wire.len() * 8 / 16;
    assert!(count >= 4);
    assert_eq!(codec.decode_counting(&wire), Ok((message.clone(), 0)));

    let mut corrupted = wire.clone();
    flip_bit(&mut corrupted, 7 * count + 1);
    assert_eq!(codec.decode_counting(&corrupted), Ok((message.clone(), 1)));
    flip_bit(&mut corrupted, 0 * count + 3);
    flip_bit(&mut corrupted, 15 * count);
    assert_eq!(codec.decode_counting(&corrupted), Ok((message, 3)));

    flip_bit(&mut corrupted, 2 * count + 3);
    assert_eq!(
        codec.decode_counting(&corrupted),
        Err(DecodeError::UncorrectableBlock { block_index: 3 })
    );
}
