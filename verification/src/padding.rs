use vstd::prelude::*;

use crate::errors::CryptError;
use vstd::arithmetic::div_mod::{
    lemma_fundamental_div_mod, lemma_mod_decreases, lemma_mod_multiples_basic,
};
use vstd::arithmetic::mul::{lemma_mul_inequality, lemma_mul_is_commutative,
    lemma_mul_is_distributive_add};

verus! {

/// A reversible reshaping of arbitrary-length data into block-aligned data:
/// the second collaborator of the chaining layer. `encode` extends the data
/// to a multiple of the block size; `decode` removes that extension again,
/// or fails when the padded tail is malformed.
pub trait Padding: Sized {
    /// The block size the scheme aligns to.
    spec fn block_size_spec(&self) -> nat;

    /// What encoding returns on `data`.
    spec fn encode_spec(&self, data: Seq<u8>) -> Seq<u8>;

    /// What decoding returns on `padded`, when it succeeds.
    spec fn decode_spec(&self, padded: Seq<u8>) -> Seq<u8>;

    /// Whether `padded` carries well-formed padding.
    spec fn decode_ok(&self, padded: Seq<u8>) -> bool;

    /// Extends `data` to a block-aligned length.
    fn encode(&self, data: Vec<u8>) -> (r: Vec<u8>)
        ensures
            r@ == self.encode_spec(data@),
    ;

    /// Strips the padding again, or fails on a malformed tail.
    fn decode(&self, padded: Vec<u8>) -> (r: Result<Vec<u8>, CryptError>)
        ensures
            r is Ok <==> self.decode_ok(padded@),
            r matches Ok(d) ==> d@ == self.decode_spec(padded@),
            r matches Err(e) ==> e == CryptError::Padding,
    ;
}

/// The law a usable padding instance satisfies: a positive block size, and
/// encoded output whose length is always a whole number of blocks.
pub open spec fn padding_obeys<P: Padding>(p: &P) -> bool {
    &&& p.block_size_spec() >= 1
    &&& forall|d: Seq<u8>|
        (#[trigger] p.encode_spec(d)).len() as int % (p.block_size_spec() as int) == 0
}

/// How many zero bytes [`ZeroPadding`] appends: up to the next block
/// boundary, and a whole block when the data is already aligned.
pub open spec fn zero_pad_len(len: nat, bs: nat) -> nat {
    if bs == 0 {
        0
    } else {
        (bs - len % bs) as nat
    }
}

/// A run of `n` zero bytes.
pub open spec fn zero_seq(n: nat) -> Seq<u8> {
    Seq::new(n, |i: int| 0u8)
}

/// The sequence with every trailing zero byte removed.
pub open spec fn strip_trailing_zeros(data: Seq<u8>) -> Seq<u8>
    decreases data.len(),
{
    if data.len() == 0 {
        data
    } else if data.last() == 0 {
        strip_trailing_zeros(data.drop_last())
    } else {
        data
    }
}

/// Pads with zero bytes up to the next block boundary, and always pads: data
/// that is already aligned gains a whole block of zeros. Decoding strips
/// every trailing zero byte, so data that itself ends in a zero byte is not
/// recovered faithfully; that ambiguity is inherent to the scheme.
#[derive(Clone, Copy, Debug)]
pub struct ZeroPadding(pub usize);

impl Padding for ZeroPadding {
    open spec fn block_size_spec(&self) -> nat {
        self.0 as nat
    }

    open spec fn encode_spec(&self, data: Seq<u8>) -> Seq<u8> {
        data + zero_seq(zero_pad_len(data.len(), self.0 as nat))
    }

    open spec fn decode_spec(&self, padded: Seq<u8>) -> Seq<u8> {
        strip_trailing_zeros(padded)
    }

    open spec fn decode_ok(&self, padded: Seq<u8>) -> bool {
        true
    }

    fn encode(&self, data: Vec<u8>) -> (r: Vec<u8>) {
        let ghost orig = data@;
        let bs = self.0;
        if bs == 0 {
            proof {
                assert(orig + zero_seq(0) =~= orig);
            }
            return data;
        }
        let pad = bs - data.len() % bs;
        let mut r = data;
        let mut i: usize = 0;
        while i < pad
            invariant
                i <= pad,
                r@ == orig + zero_seq(i as nat),
            decreases pad - i,
        {
            r.push(0u8);
            proof {
                assert(r@ =~= orig + zero_seq((i + 1) as nat));
            }
            i = i + 1;
        }
        r
    }

    fn decode(&self, padded: Vec<u8>) -> (r: Result<Vec<u8>, CryptError>) {
        let mut data = padded;
        let ghost orig = data@;
        let mut end = data.len();
        proof {
            assert(orig.take(end as int) =~= orig);
        }
        while end > 0 && data[end - 1] == 0
            invariant
                end <= data@.len(),
                data@ == orig,
                strip_trailing_zeros(orig) == strip_trailing_zeros(orig.take(end as int)),
            decreases end,
        {
            end = end - 1;
            proof {
                assert(orig.take(end + 1).drop_last() =~= orig.take(end as int));
                assert(orig.take(end + 1).last() == 0);
            }
        }
        proof {
            if end > 0 {
                assert(orig.take(end as int).last() == orig[end - 1]);
            }
            assert(strip_trailing_zeros(orig.take(end as int)) == orig.take(end as int));
        }
        data.truncate(end);
        Ok(data)
    }
}

/// A zero-padding instance with a positive block size meets the padding law.
pub proof fn lemma_zero_padding_obeys(p: ZeroPadding)
    requires
        p.0 >= 1,
    ensures
        padding_obeys(&p),
{
    assert forall|d: Seq<u8>|
        (#[trigger] p.encode_spec(d)).len() as int % (p.block_size_spec() as int)
            == 0 by {
        lemma_zero_padding_encode_len(p, d);
    }
}

/// Zero padding always appends between one byte and one whole block, so the
/// result is a nonempty whole number of blocks: even empty data becomes a
/// full block.
pub proof fn lemma_zero_padding_encode_len(p: ZeroPadding, data: Seq<u8>)
    requires
        p.0 >= 1,
    ensures
        p.encode_spec(data).len() == data.len() + zero_pad_len(data.len(), p.0 as nat),
        1 <= zero_pad_len(data.len(), p.0 as nat) <= p.0,
        p.encode_spec(data).len() as int % (p.0 as int) == 0,
        p.encode_spec(data).len() >= p.0,
{
    let bs = p.0 as int;
    let len = data.len() as int;
    let r = len % bs;
    lemma_fundamental_div_mod(len, bs);
    let q = len / bs;
    lemma_mod_decreases(data.len(), p.0 as nat);
    assert(len + (bs - r) == bs * q + bs);
    lemma_mul_is_distributive_add(bs, q, 1);
    assert(bs * (q + 1) == bs * q + bs * 1);
    lemma_mul_is_commutative(bs, q + 1);
    lemma_mod_multiples_basic(q + 1, bs);
    assert(((q + 1) * bs) % bs == 0);
}

/// Zero padding round-trips on data that is empty or does not end in a zero
/// byte; on data ending in a zero byte, decoding also strips that byte, which
/// is the scheme's known ambiguity.
pub proof fn lemma_zero_padding_round_trip(p: ZeroPadding, data: Seq<u8>)
    requires
        p.0 >= 1,
        data.len() == 0 || data.last() != 0,
    ensures
        p.decode_ok(p.encode_spec(data)),
        p.decode_spec(p.encode_spec(data)) == data,
{
    lemma_strip_append_zeros(data, zero_pad_len(data.len(), p.0 as nat));
}

proof fn lemma_strip_append_zeros(data: Seq<u8>, n: nat)
    requires
        data.len() == 0 || data.last() != 0,
    ensures
        strip_trailing_zeros(data + zero_seq(n)) == data,
    decreases n,
{
    if n == 0 {
        assert(data + zero_seq(0) =~= data);
    } else {
        let s = data + zero_seq(n);
        assert(s.len() > 0);
        assert(s.last() == 0);
        assert(s.drop_last() =~= data + zero_seq((n - 1) as nat));
        lemma_strip_append_zeros(data, (n - 1) as nat);
    }
}

} // verus!
