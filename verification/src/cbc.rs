use vstd::prelude::*;

use crate::cipher::{cipher_obeys, BlockCipher};
use crate::errors::CryptError;
use crate::padding::{lemma_zero_padding_obeys, padding_obeys, Padding, ZeroPadding};
use crate::xor::{xor_bytes, xor_vecs};
use vstd::arithmetic::div_mod::{
    lemma_add_mod_noop, lemma_mod_self_0, lemma_small_mod, lemma_sub_mod_noop,
};
use vstd::slice::{slice_subrange, slice_to_vec};

verus! {

/// The ciphertext that chaining produces from the block-aligned data `pt`,
/// starting from the feedback block `fb` (the IV for the first block): each
/// block is XORed with the feedback, encrypted, appended, and the freshly
/// produced ciphertext block becomes the next feedback.
pub open spec fn spec_encrypt_blocks<C: BlockCipher>(c: &C, fb: Seq<u8>, pt: Seq<u8>) -> Seq<u8>
    decreases pt.len(),
{
    let bs = c.block_size_spec() as int;
    if bs < 1 || pt.len() < bs {
        Seq::empty()
    } else {
        let cblock = c.enc_spec(xor_bytes(pt.subrange(0, bs), fb));
        cblock + spec_encrypt_blocks(c, cblock, pt.skip(bs))
    }
}

/// Whether every single-block encryption along the chain succeeds.
pub open spec fn spec_encrypt_blocks_ok<C: BlockCipher>(c: &C, fb: Seq<u8>, pt: Seq<u8>) -> bool
    decreases pt.len(),
{
    let bs = c.block_size_spec() as int;
    if bs < 1 || pt.len() < bs {
        true
    } else {
        let chained = xor_bytes(pt.subrange(0, bs), fb);
        c.enc_ok(chained) && spec_encrypt_blocks_ok(c, c.enc_spec(chained), pt.skip(bs))
    }
}

/// The block-aligned data that chaining recovers from the ciphertext `ct`,
/// starting from the feedback block `fb` (the IV for the first block): each
/// block is decrypted and then XORed with the feedback, and the consumed
/// ciphertext block itself — not the recovered data — becomes the next
/// feedback. That asymmetry against encryption is what CBC is.
pub open spec fn spec_decrypt_blocks<C: BlockCipher>(c: &C, fb: Seq<u8>, ct: Seq<u8>) -> Seq<u8>
    decreases ct.len(),
{
    let bs = c.block_size_spec() as int;
    if bs < 1 || ct.len() < bs {
        Seq::empty()
    } else {
        let block = ct.subrange(0, bs);
        xor_bytes(c.dec_spec(block), fb) + spec_decrypt_blocks(c, block, ct.skip(bs))
    }
}

/// Whether every single-block decryption of the ciphertext succeeds.
pub open spec fn spec_decrypt_blocks_ok<C: BlockCipher>(c: &C, ct: Seq<u8>) -> bool
    decreases ct.len(),
{
    let bs = c.block_size_spec() as int;
    if bs < 1 || ct.len() < bs {
        true
    } else {
        c.dec_ok(ct.subrange(0, bs)) && spec_decrypt_blocks_ok(c, ct.skip(bs))
    }
}

/// A whole number of blocks always remains ahead of an aligned offset.
proof fn lemma_next_block_fits(offset: int, len: int, bs: int)
    requires
        bs >= 1,
        0 <= offset < len,
        offset % bs == 0,
        len % bs == 0,
    ensures
        offset + bs <= len,
{
    lemma_sub_mod_noop(len, offset, bs);
    lemma_small_mod(0nat, bs as nat);
    if len - offset < bs {
        lemma_small_mod((len - offset) as nat, bs as nat);
    }
}

/// Advancing an aligned offset by one block keeps it aligned.
proof fn lemma_offset_step_aligned(offset: int, bs: int)
    requires
        bs >= 1,
        offset >= 0,
        offset % bs == 0,
    ensures
        (offset + bs) % bs == 0,
{
    lemma_add_mod_noop(offset, bs, bs);
    lemma_mod_self_0(bs);
    lemma_small_mod(0nat, bs as nat);
}

/// Cipher block chaining over one owned block cipher and one owned padding
/// scheme of the same block size. The pairing is fixed at construction; the
/// instance holds no per-call state, so calls are independent given their own
/// IV and data.
#[derive(Debug)]
pub struct RijndaelCbc<C: BlockCipher, P: Padding> {
    /// The single-block cipher that the chain drives.
    pub rijndael: C,
    /// The padding scheme that aligns the plaintext.
    pub padding: P,
}

impl<C: BlockCipher, P: Padding> RijndaelCbc<C, P> {
    /// Well-formedness: both collaborators obey their laws and agree on the
    /// block size. Construction establishes this and nothing disturbs it.
    pub open spec fn wf(&self) -> bool {
        &&& cipher_obeys(&self.rijndael)
        &&& padding_obeys(&self.padding)
        &&& self.padding.block_size_spec() == self.rijndael.block_size_spec()
    }

    /// The common block size of the pair, in bytes.
    pub open spec fn block_size_spec(&self) -> nat {
        self.rijndael.block_size_spec()
    }

    /// Byte-wise exclusive-or of two blocks: the chaining step itself. Both
    /// operands are exactly one block long; no other length ever reaches it.
    pub fn x_or_block(&self, b1: &Vec<u8>, b2: &Vec<u8>) -> (r: Vec<u8>)
        requires
            b1@.len() == self.block_size_spec(),
            b2@.len() == self.block_size_spec(),
        ensures
            r@ == xor_bytes(b1@, b2@),
    {
        xor_vecs(b1, b2)
    }

    /// Encrypts: pads `source` to whole blocks, then chains them from the
    /// `iv`, feeding each freshly produced ciphertext block forward. Returns
    /// the concatenated ciphertext, or the cipher's error as soon as one
    /// block fails; nothing partial is returned.
    #[verifier::loop_isolation(false)]
    pub fn encrypt(&self, iv: Vec<u8>, source: Vec<u8>) -> (r: Result<Vec<u8>, CryptError>)
        requires
            self.wf(),
            iv@.len() == self.block_size_spec(),
        ensures
            r is Ok <==> spec_encrypt_blocks_ok(
                &self.rijndael,
                iv@,
                self.padding.encode_spec(source@),
            ),
            r matches Ok(ct) ==> ct@ == spec_encrypt_blocks(
                &self.rijndael,
                iv@,
                self.padding.encode_spec(source@),
            ),
            r matches Err(e) ==> e == CryptError::Cipher,
    {
        let ghost iv0 = iv@;
        let ppt = self.padding.encode(source);
        let bs = self.rijndael.block_size();
        proof {
            assert(ppt@.skip(0) =~= ppt@);
        }
        let mut ct: Vec<u8> = Vec::new();
        let mut v = iv;
        let mut offset: usize = 0;
        while offset < ppt.len()
            invariant
                offset <= ppt.len(),
                offset as int % (bs as int) == 0,
                v@.len() == bs as nat,
                spec_encrypt_blocks(&self.rijndael, iv0, ppt@) == ct@ + spec_encrypt_blocks(
                    &self.rijndael,
                    v@,
                    ppt@.skip(offset as int),
                ),
                spec_encrypt_blocks_ok(&self.rijndael, iv0, ppt@) <==> spec_encrypt_blocks_ok(
                    &self.rijndael,
                    v@,
                    ppt@.skip(offset as int),
                ),
            decreases ppt@.len() - offset,
        {
            proof {
                lemma_next_block_fits(offset as int, ppt@.len() as int, bs as int);
            }
            let block = slice_to_vec(slice_subrange(ppt.as_slice(), offset, offset + bs));
            let chained = self.x_or_block(&block, &v);
            let ghost rest = ppt@.skip(offset as int);
            proof {
                assert(rest.subrange(0, bs as int) =~= block@);
                assert(rest.skip(bs as int) =~= ppt@.skip(offset as int + bs as int));
            }
            let out = match self.rijndael.encrypt(&chained) {
                Ok(o) => o,
                Err(e) => {
                    proof {
                        assert(!spec_encrypt_blocks_ok(&self.rijndael, v@, rest));
                    }
                    return Err(e);
                },
            };
            let mut piece = slice_to_vec(out.as_slice());
            ct.append(&mut piece);
            proof {
                lemma_offset_step_aligned(offset as int, bs as int);
            }
            offset = offset + bs;
            v = out;
        }
        proof {
            assert(ppt@.skip(ppt@.len() as int) =~= Seq::<u8>::empty());
        }
        Ok(ct)
    }

    /// Decrypts: rejects a ciphertext that is not a whole number of blocks
    /// before touching the cipher, then decrypts block by block — feeding the
    /// consumed ciphertext block forward, not the recovered data — and
    /// finally strips the padding. A cipher failure aborts the chain; a
    /// padding failure can only surface after every block is decrypted.
    #[verifier::loop_isolation(false)]
    pub fn decrypt(&self, iv: Vec<u8>, cipher: Vec<u8>) -> (r: Result<Vec<u8>, CryptError>)
        requires
            self.wf(),
            iv@.len() == self.block_size_spec(),
        ensures
            cipher@.len() as int % (self.block_size_spec() as int) != 0 ==> r == Err::<
                Vec<u8>,
                CryptError,
            >(CryptError::InvalidSize),
            cipher@.len() as int % (self.block_size_spec() as int) == 0 ==> ({
                &&& r is Ok <==> (spec_decrypt_blocks_ok(&self.rijndael, cipher@)
                    && self.padding.decode_ok(
                    spec_decrypt_blocks(&self.rijndael, iv@, cipher@),
                ))
                &&& (r matches Ok(pt) ==> pt@ == self.padding.decode_spec(
                    spec_decrypt_blocks(&self.rijndael, iv@, cipher@),
                ))
                &&& (!spec_decrypt_blocks_ok(&self.rijndael, cipher@) ==> r == Err::<
                    Vec<u8>,
                    CryptError,
                >(CryptError::Cipher))
                &&& (spec_decrypt_blocks_ok(&self.rijndael, cipher@)
                    && !self.padding.decode_ok(
                    spec_decrypt_blocks(&self.rijndael, iv@, cipher@),
                ) ==> r == Err::<Vec<u8>, CryptError>(CryptError::Padding))
            }),
    {
        let ghost iv0 = iv@;
        let ghost ct0 = cipher@;
        let bs = self.rijndael.block_size();
        if cipher.len() % bs != 0 {
            return Err(CryptError::InvalidSize);
        }
        proof {
            assert(ct0.skip(0) =~= ct0);
        }
        let mut ppt: Vec<u8> = Vec::new();
        let mut v = iv;
        let mut offset: usize = 0;
        while offset < cipher.len()
            invariant
                offset <= cipher@.len(),
                offset as int % (bs as int) == 0,
                v@.len() == bs as nat,
                spec_decrypt_blocks(&self.rijndael, iv0, ct0) == ppt@ + spec_decrypt_blocks(
                    &self.rijndael,
                    v@,
                    ct0.skip(offset as int),
                ),
                spec_decrypt_blocks_ok(&self.rijndael, ct0) <==> spec_decrypt_blocks_ok(
                    &self.rijndael,
                    ct0.skip(offset as int),
                ),
            decreases ct0.len() - offset,
        {
            proof {
                lemma_next_block_fits(offset as int, ct0.len() as int, bs as int);
            }
            let block = slice_to_vec(slice_subrange(cipher.as_slice(), offset, offset + bs));
            let ghost rest = ct0.skip(offset as int);
            proof {
                assert(rest.subrange(0, bs as int) =~= block@);
                assert(rest.skip(bs as int) =~= ct0.skip(offset as int + bs as int));
            }
            let decrypted = match self.rijndael.decrypt(&block) {
                Ok(d) => d,
                Err(e) => {
                    proof {
                        assert(!spec_decrypt_blocks_ok(&self.rijndael, rest));
                    }
                    return Err(e);
                },
            };
            let recovered = self.x_or_block(&decrypted, &v);
            let mut piece = slice_to_vec(recovered.as_slice());
            ppt.append(&mut piece);
            proof {
                lemma_offset_step_aligned(offset as int, bs as int);
            }
            offset = offset + bs;
            v = block;
        }
        proof {
            assert(ct0.skip(ct0.len() as int) =~= Seq::<u8>::empty());
        }
        self.padding.decode(ppt)
    }
}

impl<C: BlockCipher> RijndaelCbc<C, ZeroPadding> {
    /// Builds the block cipher from `key` and `block_size` and pairs it with
    /// a zero-padding scheme of the same block size. Fails with the cipher's
    /// configuration error when it rejects the combination; no other
    /// validation happens here.
    pub fn new(key: Vec<u8>, block_size: usize) -> (r: Result<Self, CryptError>)
        ensures
            r is Ok <==> C::new_ok(key@, block_size as nat),
            r matches Ok(cbc) ==> cbc.wf() && cbc.block_size_spec() == block_size as nat
                && cbc.padding.0 == block_size,
            r matches Ok(cbc) ==> forall|b: Seq<u8>|
                b.len() == cbc.block_size_spec() ==> #[trigger] cbc.rijndael.enc_ok(b)
                    && cbc.rijndael.dec_ok(b),
            r matches Err(e) ==> e == CryptError::Configuration,
    {
        let rijndael = match C::new(key, block_size) {
            Ok(c) => c,
            Err(e) => {
                return Err(e);
            },
        };
        let padding = ZeroPadding(block_size);
        proof {
            assert(cipher_obeys(&rijndael));
            lemma_zero_padding_obeys(padding);
        }
        Ok(RijndaelCbc { rijndael, padding })
    }
}

} // verus!
