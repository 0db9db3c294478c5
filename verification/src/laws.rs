use vstd::prelude::*;

use crate::cbc::{
    spec_decrypt_blocks, spec_decrypt_blocks_ok, spec_encrypt_blocks, spec_encrypt_blocks_ok,
    RijndaelCbc,
};
use crate::cipher::{cipher_obeys, lemma_dec_injective, lemma_enc_injective, BlockCipher};
use crate::padding::{lemma_zero_padding_round_trip, Padding, ZeroPadding};
use crate::xor::{lemma_xor_bytes_involutive, lemma_xor_bytes_left_ne, lemma_xor_bytes_right_ne,
    xor_bytes};
use vstd::arithmetic::div_mod::{
    lemma_fundamental_div_mod, lemma_mod_self_0, lemma_small_mod, lemma_sub_mod_noop,
};
use vstd::arithmetic::mul::{
    lemma_mul_inequality, lemma_mul_is_commutative, lemma_mul_nonnegative,
};

verus! {

/// Determinism: chaining is a function of the cipher's behaviour, the IV and
/// the plaintext alone. Two ciphers that encrypt blocks identically — two
/// instances loaded with the same key — produce identical ciphertext from
/// identical IV and plaintext.
pub proof fn lemma_encrypt_deterministic<C: BlockCipher>(
    c1: &C,
    c2: &C,
    iv1: Seq<u8>,
    iv2: Seq<u8>,
    pt1: Seq<u8>,
    pt2: Seq<u8>,
)
    requires
        c1.block_size_spec() == c2.block_size_spec(),
        forall|b: Seq<u8>| #[trigger] c1.enc_spec(b) == c2.enc_spec(b),
        forall|b: Seq<u8>| #[trigger] c1.enc_ok(b) == c2.enc_ok(b),
        iv1 == iv2,
        pt1 == pt2,
    ensures
        spec_encrypt_blocks(c1, iv1, pt1) == spec_encrypt_blocks(c2, iv2, pt2),
        spec_encrypt_blocks_ok(c1, iv1, pt1) == spec_encrypt_blocks_ok(c2, iv2, pt2),
    decreases pt1.len(),
{
    let bs = c1.block_size_spec() as int;
    if bs >= 1 && pt1.len() >= bs {
        let cb = c1.enc_spec(xor_bytes(pt1.subrange(0, bs), iv1));
        lemma_encrypt_deterministic(c1, c2, cb, cb, pt1.skip(bs), pt2.skip(bs));
    }
}

/// Success is owed: a cipher that accepts every whole block — any cipher in
/// the valid state its constructor establishes — accepts the whole chain, so
/// encryption succeeds on every input.
pub proof fn lemma_encrypt_blocks_ok_total<C: BlockCipher>(c: &C, fb: Seq<u8>, pt: Seq<u8>)
    requires
        cipher_obeys(c),
        forall|b: Seq<u8>| b.len() == c.block_size_spec() ==> #[trigger] c.enc_ok(b),
    ensures
        spec_encrypt_blocks_ok(c, fb, pt),
    decreases pt.len(),
{
    let bs = c.block_size_spec() as int;
    if bs >= 1 && pt.len() >= bs {
        let x = xor_bytes(pt.subrange(0, bs), fb);
        assert(x.len() == bs);
        lemma_encrypt_blocks_ok_total(c, c.enc_spec(x), pt.skip(bs));
    }
}

/// Success is owed on the decryption side too: with a cipher in the valid
/// state its constructor establishes, only the size check and the padding
/// check can reject.
pub proof fn lemma_decrypt_blocks_ok_total<C: BlockCipher>(c: &C, ct: Seq<u8>)
    requires
        cipher_obeys(c),
        forall|b: Seq<u8>| b.len() == c.block_size_spec() ==> #[trigger] c.dec_ok(b),
    ensures
        spec_decrypt_blocks_ok(c, ct),
    decreases ct.len(),
{
    let bs = c.block_size_spec() as int;
    if bs >= 1 && ct.len() >= bs {
        lemma_decrypt_blocks_ok_total(c, ct.skip(bs));
    }
}

/// Round trip of the chain on block-aligned data: whenever every block
/// encryption succeeds, the ciphertext is as long as the data, every block of
/// it decrypts again, and decrypting with the same IV restores the data.
pub proof fn lemma_cbc_round_trip<C: BlockCipher>(c: &C, iv: Seq<u8>, pt: Seq<u8>)
    requires
        cipher_obeys(c),
        iv.len() == c.block_size_spec(),
        pt.len() as int % (c.block_size_spec() as int) == 0,
        spec_encrypt_blocks_ok(c, iv, pt),
    ensures
        spec_encrypt_blocks(c, iv, pt).len() == pt.len(),
        spec_decrypt_blocks_ok(c, spec_encrypt_blocks(c, iv, pt)),
        spec_decrypt_blocks(c, iv, spec_encrypt_blocks(c, iv, pt)) == pt,
    decreases pt.len(),
{
    let bs = c.block_size_spec() as int;
    if pt.len() < bs {
        lemma_small_mod(pt.len(), c.block_size_spec());
        assert(pt =~= Seq::<u8>::empty());
    } else {
        let b0 = pt.subrange(0, bs);
        let x = xor_bytes(b0, iv);
        let cb = c.enc_spec(x);
        let rest = pt.skip(bs);
        let ct_tail = spec_encrypt_blocks(c, cb, rest);
        let ct = spec_encrypt_blocks(c, iv, pt);
        assert(ct == cb + ct_tail);
        lemma_sub_mod_noop(pt.len() as int, bs, bs);
        lemma_mod_self_0(bs);
        lemma_small_mod(0nat, bs as nat);
        assert(rest.len() as int % bs == 0);
        lemma_cbc_round_trip(c, cb, rest);
        assert(ct.subrange(0, bs) =~= cb);
        assert(ct.skip(bs) =~= ct_tail);
        assert(c.dec_spec(cb) == x);
        lemma_xor_bytes_involutive(b0, iv);
        assert(spec_decrypt_blocks(c, iv, ct) == b0 + spec_decrypt_blocks(c, cb, ct_tail));
        assert(spec_decrypt_blocks(c, iv, ct) =~= pt);
    }
}

/// Round trip through padding and chain: whatever the padding scheme encodes
/// and decodes back faithfully, and the cipher accepts block by block, comes
/// out of decryption exactly as it went into encryption, under the same IV.
pub proof fn lemma_round_trip<C: BlockCipher, P: Padding>(
    cbc: &RijndaelCbc<C, P>,
    iv: Seq<u8>,
    pt: Seq<u8>,
)
    requires
        cbc.wf(),
        iv.len() == cbc.block_size_spec(),
        spec_encrypt_blocks_ok(&cbc.rijndael, iv, cbc.padding.encode_spec(pt)),
        cbc.padding.decode_ok(cbc.padding.encode_spec(pt)),
        cbc.padding.decode_spec(cbc.padding.encode_spec(pt)) == pt,
    ensures
        ({
            let ct = spec_encrypt_blocks(&cbc.rijndael, iv, cbc.padding.encode_spec(pt));
            &&& ct.len() as int % (cbc.block_size_spec() as int) == 0
            &&& spec_decrypt_blocks_ok(&cbc.rijndael, ct)
            &&& cbc.padding.decode_ok(spec_decrypt_blocks(&cbc.rijndael, iv, ct))
            &&& cbc.padding.decode_spec(spec_decrypt_blocks(&cbc.rijndael, iv, ct)) == pt
        }),
{
    let padded = cbc.padding.encode_spec(pt);
    lemma_cbc_round_trip(&cbc.rijndael, iv, padded);
}

/// Round trip for the shipped zero-padding pairing: data that is empty or
/// does not end in a zero byte survives encrypt-then-decrypt unchanged. Data
/// ending in a zero byte is excluded because zero padding cannot tell such a
/// byte from its own filler.
pub proof fn lemma_round_trip_zero_padding<C: BlockCipher>(
    cbc: &RijndaelCbc<C, ZeroPadding>,
    iv: Seq<u8>,
    pt: Seq<u8>,
)
    requires
        cbc.wf(),
        iv.len() == cbc.block_size_spec(),
        spec_encrypt_blocks_ok(&cbc.rijndael, iv, cbc.padding.encode_spec(pt)),
        pt.len() == 0 || pt.last() != 0,
    ensures
        ({
            let ct = spec_encrypt_blocks(&cbc.rijndael, iv, cbc.padding.encode_spec(pt));
            &&& ct.len() as int % (cbc.block_size_spec() as int) == 0
            &&& spec_decrypt_blocks_ok(&cbc.rijndael, ct)
            &&& cbc.padding.decode_ok(spec_decrypt_blocks(&cbc.rijndael, iv, ct))
            &&& cbc.padding.decode_spec(spec_decrypt_blocks(&cbc.rijndael, iv, ct)) == pt
        }),
{
    lemma_zero_padding_round_trip(cbc.padding, pt);
    lemma_round_trip(cbc, iv, pt);
}

/// Chaining correctness: on a two-block message, a change of IV changes not
/// only the first ciphertext block but — through the feedback — the second
/// one as well.
pub proof fn lemma_iv_change_diffuses<C: BlockCipher>(
    c: &C,
    iv1: Seq<u8>,
    iv2: Seq<u8>,
    pt: Seq<u8>,
)
    requires
        cipher_obeys(c),
        iv1.len() == c.block_size_spec(),
        iv2.len() == c.block_size_spec(),
        iv1 != iv2,
        pt.len() == 2 * c.block_size_spec(),
    ensures
        ({
            let bs = c.block_size_spec() as int;
            let ct1 = spec_encrypt_blocks(c, iv1, pt);
            let ct2 = spec_encrypt_blocks(c, iv2, pt);
            &&& ct1.len() == pt.len()
            &&& ct2.len() == pt.len()
            &&& ct1.subrange(0, bs) != ct2.subrange(0, bs)
            &&& ct1.subrange(bs, 2 * bs) != ct2.subrange(bs, 2 * bs)
        }),
{
    let bs = c.block_size_spec() as int;
    let b0 = pt.subrange(0, bs);
    let rest = pt.skip(bs);
    let x1 = xor_bytes(b0, iv1);
    let x2 = xor_bytes(b0, iv2);
    lemma_xor_bytes_right_ne(b0, iv1, iv2);
    let cb1 = c.enc_spec(x1);
    let cb2 = c.enc_spec(x2);
    lemma_enc_injective(c, x1, x2);
    assert(rest.subrange(0, bs) =~= rest);
    let y1 = xor_bytes(rest, cb1);
    let y2 = xor_bytes(rest, cb2);
    lemma_xor_bytes_right_ne(rest, cb1, cb2);
    let d1 = c.enc_spec(y1);
    let d2 = c.enc_spec(y2);
    lemma_enc_injective(c, y1, y2);
    assert(rest.skip(bs) =~= Seq::<u8>::empty());
    let ct1 = spec_encrypt_blocks(c, iv1, pt);
    let ct2 = spec_encrypt_blocks(c, iv2, pt);
    assert(ct1 == cb1 + spec_encrypt_blocks(c, cb1, rest));
    assert(ct2 == cb2 + spec_encrypt_blocks(c, cb2, rest));
    assert(spec_encrypt_blocks(c, d1, rest.skip(bs)) =~= Seq::<u8>::empty());
    assert(spec_encrypt_blocks(c, d2, rest.skip(bs)) =~= Seq::<u8>::empty());
    assert(spec_encrypt_blocks(c, cb1, rest) == d1 + spec_encrypt_blocks(c, d1, rest.skip(bs)));
    assert(spec_encrypt_blocks(c, cb2, rest) == d2 + spec_encrypt_blocks(c, d2, rest.skip(bs)));
    assert(ct1 == cb1 + (d1 + Seq::<u8>::empty()));
    assert(ct2 == cb2 + (d2 + Seq::<u8>::empty()));
    assert(ct1.subrange(0, bs) =~= cb1);
    assert(ct2.subrange(0, bs) =~= cb2);
    assert(ct1.subrange(bs, 2 * bs) =~= d1);
    assert(ct2.subrange(bs, 2 * bs) =~= d2);
}

/// The `j`-th block of a block-aligned byte sequence.
pub open spec fn block_at(data: Seq<u8>, bs: int, j: int) -> Seq<u8> {
    data.subrange(j * bs, (j + 1) * bs)
}

/// Two equally long sequences that agree on every block but block `i`.
pub open spec fn blocks_agree_except(a: Seq<u8>, b: Seq<u8>, bs: int, i: int) -> bool {
    &&& a.len() == b.len()
    &&& forall|j: int|
        0 <= j < a.len() as int / bs && j != i ==> #[trigger] block_at(a, bs, j) == block_at(
            b,
            bs,
            j,
        )
}

proof fn lemma_mul_succ(j: int, bs: int)
    ensures
        (j + 1) * bs == j * bs + bs,
{
    assert((j + 1) * bs == j * bs + bs) by (nonlinear_arith);
}

proof fn lemma_block_in_range(len: int, bs: int, j: int)
    requires
        bs >= 1,
        len >= 0,
        len % bs == 0,
        0 <= j < len / bs,
    ensures
        0 <= j * bs,
        (j + 1) * bs <= len,
{
    lemma_fundamental_div_mod(len, bs);
    let n = len / bs;
    lemma_mul_inequality(j + 1, n, bs);
    lemma_mul_is_commutative(n, bs);
    lemma_mul_nonnegative(j, bs);
}

/// Every block of the ciphertext is as long as the recovered data says it
/// is: block-wise decryption keeps the length.
pub proof fn lemma_decrypt_blocks_len<C: BlockCipher>(c: &C, fb: Seq<u8>, ct: Seq<u8>)
    requires
        cipher_obeys(c),
        ct.len() as int % (c.block_size_spec() as int) == 0,
    ensures
        spec_decrypt_blocks(c, fb, ct).len() == ct.len(),
    decreases ct.len(),
{
    let bs = c.block_size_spec() as int;
    if ct.len() < bs {
        lemma_small_mod(ct.len(), c.block_size_spec());
    } else {
        lemma_sub_mod_noop(ct.len() as int, bs, bs);
        lemma_mod_self_0(bs);
        lemma_small_mod(0nat, bs as nat);
        lemma_decrypt_blocks_len(c, ct.subrange(0, bs), ct.skip(bs));
    }
}

/// Block `j` of the recovered data is the single-block decryption of
/// ciphertext block `j`, XORed with ciphertext block `j - 1` — with the IV
/// in that role for the first block. Decryption has no further reach: this
/// is the fact behind CBC's limited error propagation.
pub proof fn lemma_decrypt_block_at<C: BlockCipher>(c: &C, fb: Seq<u8>, ct: Seq<u8>, j: int)
    requires
        cipher_obeys(c),
        ct.len() as int % (c.block_size_spec() as int) == 0,
        0 <= j,
        (j + 1) * (c.block_size_spec() as int) <= ct.len(),
    ensures
        block_at(spec_decrypt_blocks(c, fb, ct), c.block_size_spec() as int, j) == xor_bytes(
            c.dec_spec(block_at(ct, c.block_size_spec() as int, j)),
            if j == 0 {
                fb
            } else {
                block_at(ct, c.block_size_spec() as int, j - 1)
            },
        ),
    decreases ct.len(),
{
    let bs = c.block_size_spec() as int;
    lemma_mul_succ(j, bs);
    lemma_mul_nonnegative(j, bs);
    let b0 = ct.subrange(0, bs);
    let first = xor_bytes(c.dec_spec(b0), fb);
    let tail_ct = ct.skip(bs);
    let tail = spec_decrypt_blocks(c, b0, tail_ct);
    assert(spec_decrypt_blocks(c, fb, ct) == first + tail);
    lemma_sub_mod_noop(ct.len() as int, bs, bs);
    lemma_mod_self_0(bs);
    lemma_small_mod(0nat, bs as nat);
    lemma_decrypt_blocks_len(c, b0, tail_ct);
    if j == 0 {
        assert(block_at(first + tail, bs, 0) =~= first);
        assert(block_at(ct, bs, 0) =~= b0);
    } else {
        lemma_mul_succ(j - 1, bs);
        lemma_mul_nonnegative(j - 1, bs);
        lemma_decrypt_block_at(c, b0, tail_ct, j - 1);
        assert(block_at(tail_ct, bs, j - 1) =~= block_at(ct, bs, j));
        assert(block_at(first + tail, bs, j) =~= block_at(tail, bs, j - 1));
        if j == 1 {
            assert(block_at(ct, bs, 0) =~= b0);
        } else {
            lemma_mul_succ(j - 2, bs);
            lemma_mul_nonnegative(j - 2, bs);
            assert(block_at(tail_ct, bs, j - 2) =~= block_at(ct, bs, j - 1));
        }
    }
}

/// Independence from diffusion: changing ciphertext block `i` changes the
/// recovered data in block `i` (through the cipher) and in block `i + 1`
/// (through the feedback), and nowhere else.
pub proof fn lemma_decrypt_diffusion<C: BlockCipher>(
    c: &C,
    iv: Seq<u8>,
    ct1: Seq<u8>,
    ct2: Seq<u8>,
    i: int,
)
    requires
        cipher_obeys(c),
        iv.len() == c.block_size_spec(),
        ct1.len() == ct2.len(),
        ct1.len() as int % (c.block_size_spec() as int) == 0,
        0 <= i < ct1.len() as int / (c.block_size_spec() as int),
        blocks_agree_except(ct1, ct2, c.block_size_spec() as int, i),
        block_at(ct1, c.block_size_spec() as int, i) != block_at(
            ct2,
            c.block_size_spec() as int,
            i,
        ),
    ensures
        ({
            let bs = c.block_size_spec() as int;
            let n = ct1.len() as int / bs;
            let p1 = spec_decrypt_blocks(c, iv, ct1);
            let p2 = spec_decrypt_blocks(c, iv, ct2);
            &&& p1.len() == ct1.len()
            &&& p2.len() == ct2.len()
            &&& forall|j: int|
                0 <= j < n && j != i && j != i + 1 ==> #[trigger] block_at(p1, bs, j) == block_at(
                    p2,
                    bs,
                    j,
                )
            &&& block_at(p1, bs, i) != block_at(p2, bs, i)
            &&& i + 1 < n ==> block_at(p1, bs, i + 1) != block_at(p2, bs, i + 1)
        }),
{
    let bs = c.block_size_spec() as int;
    let n = ct1.len() as int / bs;
    let p1 = spec_decrypt_blocks(c, iv, ct1);
    let p2 = spec_decrypt_blocks(c, iv, ct2);
    lemma_decrypt_blocks_len(c, iv, ct1);
    lemma_decrypt_blocks_len(c, iv, ct2);
    assert forall|j: int|
        0 <= j < n && j != i && j != i + 1 implies #[trigger] block_at(p1, bs, j) == block_at(
        p2,
        bs,
        j,
    ) by {
        lemma_block_in_range(ct1.len() as int, bs, j);
        lemma_decrypt_block_at(c, iv, ct1, j);
        lemma_decrypt_block_at(c, iv, ct2, j);
        assert(block_at(ct1, bs, j) == block_at(ct2, bs, j));
        if j != 0 {
            assert(block_at(ct1, bs, j - 1) == block_at(ct2, bs, j - 1));
        }
    }
    lemma_block_in_range(ct1.len() as int, bs, i);
    lemma_mul_succ(i, bs);
    lemma_decrypt_block_at(c, iv, ct1, i);
    lemma_decrypt_block_at(c, iv, ct2, i);
    let a1 = block_at(ct1, bs, i);
    let a2 = block_at(ct2, bs, i);
    assert(a1.len() == bs && a2.len() == bs);
    lemma_dec_injective(c, a1, a2);
    if i != 0 {
        assert(block_at(ct1, bs, i - 1) == block_at(ct2, bs, i - 1));
    }
    lemma_xor_bytes_left_ne(
        c.dec_spec(a1),
        c.dec_spec(a2),
        if i == 0 {
            iv
        } else {
            block_at(ct1, bs, i - 1)
        },
    );
    if i + 1 < n {
        lemma_block_in_range(ct1.len() as int, bs, i + 1);
        lemma_mul_succ(i + 1, bs);
        lemma_decrypt_block_at(c, iv, ct1, i + 1);
        lemma_decrypt_block_at(c, iv, ct2, i + 1);
        let b1 = block_at(ct1, bs, i + 1);
        assert(block_at(ct2, bs, i + 1) == b1);
        assert(c.dec_spec(b1).len() == bs);
        lemma_xor_bytes_right_ne(c.dec_spec(b1), a1, a2);
    }
}

} // verus!
