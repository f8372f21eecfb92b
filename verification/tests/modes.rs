use block_modes::cbc_decrypt;
use block_modes::cbc_encrypt;
use block_modes::ctr_decrypt;
use block_modes::ctr_encrypt;
use block_modes::ctr_encrypt_with_nonce;
use block_modes::ecb_decrypt;
use block_modes::ecb_encrypt;
use block_modes::group;
use block_modes::increment_counter;
use block_modes::pad;
use block_modes::un_group;
use block_modes::un_pad;
use block_modes::xor;

#[test]
fn test_pad() {
    let data = vec![1, 2, 3, 4, 5, 6, 7];
    let padded_data = pad(data.clone());
    assert_eq!(padded_data.len(), 16);
    assert_eq!(padded_data[7], 9);
    assert_eq!(un_pad(padded_data), data);
}

#[test]
fn test_group() {
    let data = vec![1, 2, 3, 4, 5, 6, 7, 8, 9, 10, 11, 12];
    let padded_data = pad(data.clone());
    let grouped_data = group(padded_data.clone());
    assert_eq!(grouped_data.len(), 1);
    assert_eq!(un_group(grouped_data), padded_data);
}

#[test]
fn test_xor() {
    let block1 = [1, 2, 3, 4, 5, 6, 7, 8, 9, 10, 11, 12, 13, 14, 15, 16];
    let block2 = [16, 15, 14, 13, 12, 11, 10, 9, 8, 7, 6, 5, 4, 3, 2, 1];
    let result = xor(block1, block2);

    assert_eq!(result, [17, 13, 13, 9, 9, 13, 13, 1, 1, 13, 13, 9, 9, 13, 13, 17]);
}

#[test]
fn test_ecb() {
    let key = [1; 16];
    let plain_text = [1, 2, 3, 4, 5, 6, 7, 8, 9, 10, 11, 12, 13, 14];

    let cipher_text = ecb_encrypt(plain_text.to_vec().clone(), key);

    let decrypted_text = ecb_decrypt(cipher_text.clone(), key);

    assert_eq!(plain_text.to_vec(), decrypted_text);
}

#[test]
fn test_ecb_string() {
    let key = [1; 16];
    let plain_text = "Hello, World!";

    let cipher_text = ecb_encrypt(plain_text.as_bytes().to_vec().clone(), key);

    let decrypted_text = ecb_decrypt(cipher_text.clone(), key);

    assert_eq!(plain_text.as_bytes().to_vec(), decrypted_text);
}

#[test]
fn test_cbc() {
    let key = [1; 16];
    let plain_text = [1, 2, 3, 4, 5, 6, 7, 8, 9, 10, 11, 12, 13, 14];

    let cipher_text = cbc_encrypt(plain_text.to_vec().clone(), key);

    let decrypted_text = cbc_decrypt(cipher_text.clone(), key);

    assert_eq!(plain_text.to_vec(), decrypted_text);
}

#[test]
fn test_ctr() {
    let key = [1; 16];
    let plain_text = [1, 2, 3, 4, 5, 6, 7, 8, 9, 10, 11, 12, 13, 14];

    let cipher_text = ctr_encrypt(plain_text.to_vec().clone(), key);

    let decrypted_text = ctr_decrypt(cipher_text.clone(), key);

    assert_eq!(plain_text.to_vec(), decrypted_text);
}

#[test]
fn test_cbc_string() {
    let key = [1; 16];
    let plain_text = "Hello, World!";

    let cipher_text = cbc_encrypt(plain_text.as_bytes().to_vec(), key);
    let decrypted_text = cbc_decrypt(cipher_text, key);

    assert_eq!(plain_text.as_bytes().to_vec(), decrypted_text);
}

#[test]
fn test_ctr_string() {
    let key = [1; 16];
    let plain_text = "Hello, World!";

    let cipher_text = ctr_encrypt(plain_text.as_bytes().to_vec(), key);
    let decrypted_text = ctr_decrypt(cipher_text, key);

    assert_eq!(plain_text.as_bytes().to_vec(), decrypted_text);
}

#[test]
fn test_round_trip_empty_and_aligned() {
    let key = [7; 16];
    for blocks in 0..4usize {
        let msg: Vec<u8> = (0..16 * blocks).map(|b| (b % 251) as u8).collect();
        assert_eq!(ecb_decrypt(ecb_encrypt(msg.clone(), key), key), msg);
        assert_eq!(cbc_decrypt(cbc_encrypt(msg.clone(), key), key), msg);
        assert_eq!(ctr_decrypt(ctr_encrypt(msg.clone(), key), key), msg);
    }
}

#[test]
fn test_round_trip_odd_lengths() {
    let key = [0xab; 16];
    for len in [1usize, 15, 17, 31, 33, 100] {
        let msg: Vec<u8> = (0..len).map(|b| (b * 3 % 256) as u8).collect();
        assert_eq!(ecb_decrypt(ecb_encrypt(msg.clone(), key), key), msg);
        assert_eq!(cbc_decrypt(cbc_encrypt(msg.clone(), key), key), msg);
        assert_eq!(ctr_decrypt(ctr_encrypt(msg.clone(), key), key), msg);
    }
}

#[test]
fn test_pad_length_bound() {
    for len in 0..40usize {
        let data: Vec<u8> = vec![5; len];
        let padded = pad(data.clone());
        assert_eq!(padded.len() % 16, 0);
        let added = padded.len() - data.len();
        assert!(1 <= added && added <= 16);
        assert_eq!(un_pad(padded), data);
    }
}

#[test]
fn test_pad_full_block() {
    let empty: Vec<u8> = Vec::new();
    let padded = pad(empty);
    assert_eq!(padded, vec![16; 16]);

    let aligned: Vec<u8> = (1..=16).collect();
    let padded = pad(aligned.clone());
    assert_eq!(padded.len(), 32);
    assert_eq!(&padded[0..16], &aligned[..]);
    assert_eq!(&padded[16..32], &[16; 16]);
}

#[test]
fn test_un_pad_malformed_trailer() {
    // A zero trailer length strips nothing.
    let zero_tail = vec![1, 2, 3, 0];
    assert_eq!(un_pad(zero_tail.clone()), zero_tail);
    // A trailer length larger than the buffer strips nothing.
    let long_tail = vec![1, 2, 3, 200];
    assert_eq!(un_pad(long_tail.clone()), long_tail);
    // A plausible trailer is stripped without inspecting the bytes.
    let plausible = vec![9, 9, 9, 2];
    assert_eq!(un_pad(plausible), vec![9, 9]);
}

#[test]
fn test_group_multi_block() {
    let data: Vec<u8> = (0..48).collect();
    let grouped = group(data.clone());
    assert_eq!(grouped.len(), 3);
    assert_eq!(grouped[0].to_vec(), data[0..16].to_vec());
    assert_eq!(grouped[2].to_vec(), data[32..48].to_vec());
    assert_eq!(un_group(grouped), data);
}

#[test]
fn test_xor_involution() {
    let a = [0x5a; 16];
    let b = [3, 1, 4, 1, 5, 9, 2, 6, 5, 3, 5, 8, 9, 7, 9, 3];
    assert_eq!(xor(xor(a, b), b), a);
    assert_eq!(xor(b, b), [0; 16]);
}

#[test]
fn test_counter_wraparound() {
    let mut all_ff = [0xff; 16];
    increment_counter(&mut all_ff);
    assert_eq!(all_ff, [0x00; 16]);

    let mut carry_once = [
        0xaa, 0xaa, 0xaa, 0xaa, 0xaa, 0xaa, 0xaa, 0xaa, 0xaa, 0xaa, 0xaa, 0xaa, 0xaa, 0xaa, 0x00,
        0xff,
    ];
    increment_counter(&mut carry_once);
    assert_eq!(
        carry_once,
        [
            0xaa, 0xaa, 0xaa, 0xaa, 0xaa, 0xaa, 0xaa, 0xaa, 0xaa, 0xaa, 0xaa, 0xaa, 0xaa, 0xaa,
            0x01, 0x00,
        ]
    );

    let mut plain = [0; 16];
    increment_counter(&mut plain);
    let mut expected = [0; 16];
    expected[15] = 1;
    assert_eq!(plain, expected);
}

#[test]
fn test_ecb_determinism_leak() {
    let key = [0x2b; 16];
    let mut plain_text: Vec<u8> = (1..=16).collect();
    plain_text.extend((1..=16).collect::<Vec<u8>>());

    let cipher_text = ecb_encrypt(plain_text, key);
    assert_eq!(cipher_text.len(), 48);
    assert_eq!(cipher_text[0..16], cipher_text[16..32]);
}

#[test]
fn test_cbc_diffusion() {
    let key = [0x2b; 16];
    let mut plain_text: Vec<u8> = (1..=16).collect();
    plain_text.extend((1..=16).collect::<Vec<u8>>());

    let cipher_text = cbc_encrypt(plain_text, key);
    assert_eq!(cipher_text.len(), 48);
    assert_ne!(cipher_text[0..16], cipher_text[16..32]);
}

#[test]
fn test_aes_known_vector() {
    // FIPS 197 appendix B: AES-128 of one block under the sequential key.
    let key: [u8; 16] = [
        0x2b, 0x7e, 0x15, 0x16, 0x28, 0xae, 0xd2, 0xa6, 0xab, 0xf7, 0x15, 0x88, 0x09, 0xcf, 0x4f,
        0x3c,
    ];
    let plain_text: Vec<u8> = vec![
        0x32, 0x43, 0xf6, 0xa8, 0x88, 0x5a, 0x30, 0x8d, 0x31, 0x31, 0x98, 0xa2, 0xe0, 0x37, 0x07,
        0x34,
    ];
    let expected_first_block: [u8; 16] = [
        0x39, 0x25, 0x84, 0x1d, 0x02, 0xdc, 0x09, 0xfb, 0xdc, 0x11, 0x85, 0x97, 0x19, 0x6a, 0x0b,
        0x32,
    ];
    let cipher_text = ecb_encrypt(plain_text, key);
    assert_eq!(cipher_text.len(), 32);
    assert_eq!(&cipher_text[0..16], &expected_first_block[..]);
}

#[test]
fn test_ctr_with_fixed_nonce() {
    let key = [9; 16];
    let nonce = [
        0xf0, 0xf1, 0xf2, 0xf3, 0xf4, 0xf5, 0xf6, 0xf7, 0xf8, 0xf9, 0xfa, 0xfb, 0xfc, 0xfd, 0xfe,
        0xff,
    ];
    let msg: Vec<u8> = (0..40).collect();

    let cipher_text = ctr_encrypt_with_nonce(msg.clone(), key, nonce);
    // The nonce travels in clear as the trailing block.
    assert_eq!(&cipher_text[cipher_text.len() - 16..], &nonce[..]);
    // Same inputs, same ciphertext: the transform is deterministic.
    assert_eq!(cipher_text, ctr_encrypt_with_nonce(msg.clone(), key, nonce));
    assert_eq!(ctr_decrypt(cipher_text, key), msg);
}

#[test]
fn test_ctr_nonces_differ_between_calls() {
    let key = [4; 16];
    let msg: Vec<u8> = vec![42; 20];
    let c1 = ctr_encrypt(msg.clone(), key);
    let c2 = ctr_encrypt(msg.clone(), key);
    assert_eq!(ctr_decrypt(c1.clone(), key), msg);
    assert_eq!(ctr_decrypt(c2.clone(), key), msg);
    // Two 16-byte random nonces colliding is astronomically unlikely.
    assert_ne!(c1[c1.len() - 16..], c2[c2.len() - 16..]);
}
