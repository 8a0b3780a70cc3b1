use tgcrypto::aesige::{aes_ige_decrypt, aes_ige_encrypt, zero_pad};

#[test]
fn zero_pad_lengths() {
    assert_eq!(zero_pad(vec![]), Vec::<u8>::new());
    assert_eq!(zero_pad(vec![1, 2, 3]), vec![1, 2, 3, 0, 0, 0, 0, 0, 0, 0, 0, 0, 0, 0, 0, 0]);
    assert_eq!(zero_pad(vec![9; 16]), vec![9; 16]);
    assert_eq!(zero_pad(vec![9; 17]).len(), 32);
}

#[test]
fn ige_round_trip() {
    let key = [7u8; 32];
    let iv = [3u8; 32];
    let plain: Vec<u8> = (0u8..40).collect();
    let cipher = aes_ige_encrypt(&plain, &key, &iv);
    assert_eq!(cipher.len(), 48);
    assert_ne!(cipher, zero_pad(plain.clone()));
    let back = aes_ige_decrypt(&cipher, &key, &iv);
    assert_eq!(back, zero_pad(plain));
}

#[test]
fn ige_garbles_following_blocks() {
    let key = [1u8; 32];
    let iv = [2u8; 32];
    let plain = vec![5u8; 64];
    let mut cipher = aes_ige_encrypt(&plain, &key, &iv);
    cipher[0] ^= 1;
    let back = aes_ige_decrypt(&cipher, &key, &iv);
    assert_ne!(&back[48..64], &plain[48..64]);
}

#[test]
fn tg_ige_matches_array_form() {
    let key: Vec<u8> = (0u8..32).collect();
    let iv: Vec<u8> = (32u8..64).collect();
    let plain = b"handshake payload".to_vec();
    let mut key_array = [0u8; 32];
    key_array.copy_from_slice(&key);
    let mut iv_array = [0u8; 32];
    iv_array.copy_from_slice(&iv);
    let c1 = tgcrypto::tg_encrypt_ige(&plain, &key, &iv);
    let c2 = aes_ige_encrypt(&plain, &key_array, &iv_array);
    assert_eq!(c1, c2);
    assert_eq!(tgcrypto::tg_decrypt_ige(&c1, &key, &iv), zero_pad(plain));
}
