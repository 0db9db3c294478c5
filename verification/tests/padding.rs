use cbc_cipher::cbc::RijndaelCbc;
use cbc_cipher::padding::{Padding, ZeroPadding};
use cbc_cipher::xor_cipher::XorCipher;

#[test]
fn encode_pads_to_the_next_boundary() {
    let p = ZeroPadding(4);
    assert_eq!(p.encode(vec![1, 2]), vec![1, 2, 0, 0]);
    assert_eq!(p.encode(vec![1, 2, 3]), vec![1, 2, 3, 0]);
}

#[test]
fn encode_pads_aligned_input_with_a_whole_block() {
    let p = ZeroPadding(4);
    assert_eq!(p.encode(vec![1, 2, 3, 4]), vec![1, 2, 3, 4, 0, 0, 0, 0]);
    assert_eq!(p.encode(vec![]), vec![0, 0, 0, 0]);
}

#[test]
fn decode_strips_trailing_zeros() {
    let p = ZeroPadding(4);
    assert_eq!(p.decode(vec![1, 2, 0, 0]), Ok(vec![1, 2]));
    assert_eq!(p.decode(vec![0, 0, 0, 0]), Ok(vec![]));
    assert_eq!(p.decode(vec![1, 2, 3, 4]), Ok(vec![1, 2, 3, 4]));
}

#[test]
fn zero_padding_is_ambiguous_for_trailing_zero_data() {
    // the scheme's known weakness: a plaintext ending in a zero byte loses
    // that byte on the way back, because decode cannot tell it from filler
    let cbc: RijndaelCbc<XorCipher, ZeroPadding> =
        RijndaelCbc::new(vec![1, 2, 3, 4], 4).unwrap();
    let ct = cbc.encrypt(vec![9, 8, 7, 6], vec![5, 0]).unwrap();
    let back = cbc.decrypt(vec![9, 8, 7, 6], ct).unwrap();
    assert_eq!(back, vec![5]);
}
