use cbc_cipher::cbc::RijndaelCbc;
use cbc_cipher::cipher::BlockCipher;
use cbc_cipher::errors::CryptError;
use cbc_cipher::padding::ZeroPadding;
use cbc_cipher::xor_cipher::XorCipher;

fn make(key: Vec<u8>, block_size: usize) -> RijndaelCbc<XorCipher, ZeroPadding> {
    RijndaelCbc::new(key, block_size).unwrap()
}

#[test]
fn encrypt_exact_value_one_block() {
    let cbc = make(vec![1, 2, 3, 4], 4);
    let ct = cbc.encrypt(vec![5, 6, 7, 8], vec![9, 10, 11]).unwrap();
    // padded: [9, 10, 11, 0]; xor iv: [12, 12, 12, 8]; xor key: [13, 14, 15, 12]
    assert_eq!(ct, vec![13, 14, 15, 12]);
    let pt = cbc.decrypt(vec![5, 6, 7, 8], ct).unwrap();
    assert_eq!(pt, vec![9, 10, 11]);
}

#[test]
fn round_trip_two_blocks() {
    let key: Vec<u8> = (1..=16).collect();
    let cbc = make(key, 16);
    let iv: Vec<u8> = (100..116).collect();
    let pt: Vec<u8> = (1..=20).collect();
    let ct = cbc.encrypt(iv.clone(), pt.clone()).unwrap();
    assert_eq!(ct.len(), 32);
    let back = cbc.decrypt(iv, ct).unwrap();
    assert_eq!(back, pt);
}

#[test]
fn iv_change_diffuses_to_second_block() {
    let cbc = make(vec![7, 7, 7, 7], 4);
    let pt: Vec<u8> = vec![1, 2, 3, 4, 5, 6, 7, 8];
    let ct1 = cbc.encrypt(vec![1, 1, 1, 1], pt.clone()).unwrap();
    let ct2 = cbc.encrypt(vec![1, 1, 1, 2], pt).unwrap();
    assert_ne!(&ct1[0..4], &ct2[0..4]);
    assert_ne!(&ct1[4..8], &ct2[4..8]);
}

#[test]
fn decrypt_rejects_misaligned_ciphertext() {
    let cbc = make(vec![1, 2, 3, 4], 4);
    let r = cbc.decrypt(vec![0, 0, 0, 0], vec![1, 2, 3, 4, 5]);
    assert_eq!(r, Err(CryptError::InvalidSize));
}

#[test]
fn decrypt_rejects_misaligned_before_any_work() {
    // even an empty-keyed, invalid cipher instance is never consulted:
    // the size check comes first
    let cbc = RijndaelCbc {
        rijndael: XorCipher { key: vec![], block_size: 4 },
        padding: ZeroPadding(4),
    };
    let r = cbc.decrypt(vec![0, 0, 0, 0], vec![1, 2, 3]);
    assert_eq!(r, Err(CryptError::InvalidSize));
}

#[test]
fn tampered_block_changes_two_blocks_only() {
    let cbc = make(vec![3, 1, 4, 1], 4);
    let iv = vec![5, 9, 2, 6];
    // 11 nonzero bytes: padded to 3 blocks of 4
    let pt: Vec<u8> = vec![10, 20, 30, 40, 50, 60, 70, 80, 90, 100, 110];
    let ct = cbc.encrypt(iv.clone(), pt.clone()).unwrap();
    assert_eq!(ct.len(), 12);
    let mut tampered = ct.clone();
    tampered[2] ^= 0x55;
    let p1 = cbc.decrypt(iv.clone(), ct).unwrap();
    let p2 = cbc.decrypt(iv, tampered).unwrap();
    assert_eq!(p1, pt);
    // block 2 (bytes 8..) survives, so the stripped length matches too
    assert_eq!(p2.len(), 11);
    assert_eq!(&p2[8..], &pt[8..]);
    // blocks 0 and 1 are disturbed
    assert_ne!(&p2[0..4], &pt[0..4]);
    assert_ne!(&p2[4..8], &pt[4..8]);
}

#[test]
fn identical_inputs_identical_ciphertext() {
    let cbc_a = make(vec![11, 22, 33, 44], 4);
    let cbc_b = make(vec![11, 22, 33, 44], 4);
    let ct_a = cbc_a.encrypt(vec![9, 9, 9, 9], vec![1, 2, 3, 4, 5]).unwrap();
    let ct_b = cbc_b.encrypt(vec![9, 9, 9, 9], vec![1, 2, 3, 4, 5]).unwrap();
    assert_eq!(ct_a, ct_b);
}

#[test]
fn aligned_plaintext_still_gains_padding() {
    let key: Vec<u8> = (10..26).collect();
    let cbc = make(key, 16);
    let iv: Vec<u8> = (30..46).collect();
    let pt: Vec<u8> = (1..=16).collect();
    let ct = cbc.encrypt(iv.clone(), pt.clone()).unwrap();
    // already-aligned input is still padded: one whole extra block
    assert_eq!(ct.len(), 32);
    assert_eq!(ct.len() % 16, 0);
    let back = cbc.decrypt(iv, ct).unwrap();
    assert_eq!(back, pt);
}

#[test]
fn empty_plaintext_becomes_one_block() {
    let key: Vec<u8> = (10..26).collect();
    let cbc = make(key, 16);
    let iv: Vec<u8> = (30..46).collect();
    let ct = cbc.encrypt(iv.clone(), vec![]).unwrap();
    assert_eq!(ct.len(), 16);
    let back = cbc.decrypt(iv, ct).unwrap();
    assert_eq!(back, Vec::<u8>::new());
}

#[test]
fn construction_rejects_bad_key_or_block_size() {
    let r = RijndaelCbc::<XorCipher, ZeroPadding>::new(vec![1, 2, 3], 16);
    assert_eq!(r.err(), Some(CryptError::Configuration));
    let r = RijndaelCbc::<XorCipher, ZeroPadding>::new(vec![], 0);
    assert_eq!(r.err(), Some(CryptError::Configuration));
}

#[test]
fn invalid_cipher_state_fails_per_block() {
    let bad = XorCipher { key: vec![], block_size: 4 };
    let r = bad.encrypt(&vec![1, 2, 3, 4]);
    assert_eq!(r, Err(CryptError::Cipher));
    let r = bad.decrypt(&vec![1, 2, 3, 4]);
    assert_eq!(r, Err(CryptError::Cipher));
}

#[test]
fn cipher_error_aborts_the_chain() {
    let cbc = RijndaelCbc {
        rijndael: XorCipher { key: vec![], block_size: 4 },
        padding: ZeroPadding(4),
    };
    let r = cbc.decrypt(vec![0, 0, 0, 0], vec![1, 2, 3, 4]);
    assert_eq!(r, Err(CryptError::Cipher));
}

#[test]
fn x_or_block_xors_byte_by_byte() {
    let cbc = make(vec![0, 0, 0, 0], 4);
    let r = cbc.x_or_block(&vec![1, 2, 3, 4], &vec![4, 3, 2, 1]);
    assert_eq!(r, vec![5, 1, 1, 5]);
}
