use cbc::cipher::{BlockModeEncrypt, KeyIvInit};
use sha2::Digest;
use r7z::aes::{decrypt_aes256_cbc, derive_key, encode_aes_properties, encrypt_aes256_cbc_zero_pad, AesProperties};

#[test]
fn parse_aes_properties_minimal() {
    let props = [19u8];
    let p = AesProperties::parse(&props).unwrap();
    assert_eq!(p.num_cycles_power, 19);
    assert!(p.salt.is_empty());
    assert_eq!(p.iv, [0u8; 16]);
}

#[test]
fn parse_aes_properties_with_salt_and_iv() {
    let mut props = vec![0xD3, 0x0F];
    props.push(0xAA);
    props.extend_from_slice(&[1, 2, 3, 4, 5, 6, 7, 8, 9, 10, 11, 12, 13, 14, 15, 16]);

    let p = AesProperties::parse(&props).unwrap();
    assert_eq!(p.num_cycles_power, 19);
    assert_eq!(p.salt, &[0xAA]);
    assert_eq!(p.iv, [1, 2, 3, 4, 5, 6, 7, 8, 9, 10, 11, 12, 13, 14, 15, 16]);
}

#[test]
fn derive_key_known_value() {
    let key = derive_key("a", &[], 0);
    let mut hasher = sha2::Sha256::new();
    hasher.update([0x61u8, 0x00, 0x00, 0x00, 0x00, 0x00, 0x00, 0x00, 0x00, 0x00]);
    let expected = hasher.finalize().to_vec();
    assert_eq!(key.to_vec(), expected);
}

#[test]
fn aes_cbc_decrypt_roundtrip() {
    let key = [0x42u8; 32];
    let iv = [0x00u8; 16];
    let plaintext = b"Hello, 7z world!";

    let mut buf = plaintext.to_vec();
    let encryptor = cbc::Encryptor::<aes::Aes256>::new((&key).into(), (&iv).into());
    let n = buf.len();
    let ct = encryptor
        .encrypt_padded::<cbc::cipher::block_padding::NoPadding>(&mut buf, n)
        .unwrap();
    let ciphertext = ct.to_vec();

    let decrypted = decrypt_aes256_cbc(&ciphertext, &key, &iv).unwrap();
    assert_eq!(&decrypted, plaintext);
}

#[test]
fn aes_encrypt_then_decrypt_gives_back_zero_padded_data() {
    let key = [7u8; 32];
    let iv = [9u8; 16];
    let data = b"seventeen bytes!!";
    let ct = encrypt_aes256_cbc_zero_pad(data, &key, &iv).unwrap();
    assert_eq!(ct.len(), 32);
    assert_ne!(&ct[..17], &data[..]);
    let pt = decrypt_aes256_cbc(&ct, &key, &iv).unwrap();
    assert_eq!(&pt[..17], &data[..]);
    assert!(pt[17..].iter().all(|&b| b == 0));
}

#[test]
fn aes_decrypt_rejects_partial_blocks() {
    let key = [0u8; 32];
    let iv = [0u8; 16];
    assert!(decrypt_aes256_cbc(&[1, 2, 3], &key, &iv).is_err());
}

#[test]
fn aes_properties_encode_then_parse() {
    let salt = [5u8, 6, 7];
    let iv = [1u8; 16];
    let props = encode_aes_properties(19, &salt, &iv);
    let p = AesProperties::parse(&props).unwrap();
    assert_eq!(p.num_cycles_power, 19);
    assert_eq!(p.salt, salt.to_vec());
    assert_eq!(p.iv, iv);
}

#[test]
fn derive_key_depends_on_password() {
    assert_ne!(derive_key("a", &[], 2), derive_key("b", &[], 2));
}
