use vstd::prelude::*;

use crate::cipher::{cipher_obeys, BlockCipher};
use crate::errors::CryptError;
use crate::xor::{lemma_xor_bytes_involutive, xor_bytes, xor_vecs};

verus! {

/// A block cipher whose single-block transform is an exclusive-or with the
/// key, byte by byte. It is its own inverse and offers no secrecy; it exists
/// to instantiate [`BlockCipher`] concretely, so the chaining layer can be
/// exercised end to end.
#[derive(Debug)]
pub struct XorCipher {
    /// The key material; one byte per block byte.
    pub key: Vec<u8>,
    /// The fixed block size in bytes.
    pub block_size: usize,
}

impl XorCipher {
    /// The key matches the block size. An instance assembled with a
    /// mismatched key is in an invalid internal state and fails per block.
    pub open spec fn key_fits(&self) -> bool {
        self.key@.len() == self.block_size as nat
    }
}

/// An instance with a positive block size satisfies the block-cipher laws:
/// masking with the key twice restores the block, whatever the key's length.
pub proof fn lemma_xor_cipher_obeys(c: &XorCipher)
    requires
        c.block_size >= 1,
    ensures
        cipher_obeys(c),
{
    assert forall|b: Seq<u8>|
        b.len() == c.block_size_spec() implies c.dec_spec(#[trigger] c.enc_spec(b)) == b by {
        lemma_xor_bytes_involutive(b, c.key@);
    }
    assert forall|b: Seq<u8>|
        b.len() == c.block_size_spec() implies c.enc_spec(#[trigger] c.dec_spec(b)) == b by {
        lemma_xor_bytes_involutive(b, c.key@);
    }
}

impl BlockCipher for XorCipher {
    open spec fn block_size_spec(&self) -> nat {
        self.block_size as nat
    }

    open spec fn enc_spec(&self, block: Seq<u8>) -> Seq<u8> {
        xor_bytes(block, self.key@)
    }

    open spec fn dec_spec(&self, block: Seq<u8>) -> Seq<u8> {
        xor_bytes(block, self.key@)
    }

    open spec fn enc_ok(&self, block: Seq<u8>) -> bool {
        self.key_fits()
    }

    open spec fn dec_ok(&self, block: Seq<u8>) -> bool {
        self.key_fits()
    }

    open spec fn new_ok(key: Seq<u8>, block_size: nat) -> bool {
        block_size >= 1 && key.len() == block_size
    }

    fn new(key: Vec<u8>, block_size: usize) -> (r: Result<Self, CryptError>)
        ensures
            r matches Ok(c) ==> c.key@ == key@ && c.block_size == block_size,
    {
        if block_size == 0 || key.len() != block_size {
            return Err(CryptError::Configuration);
        }
        let c = XorCipher { key, block_size };
        proof {
            assert forall|b: Seq<u8>|
                b.len() == c.block_size_spec() implies c.dec_spec(#[trigger] c.enc_spec(b))
                == b by {
                lemma_xor_bytes_involutive(b, c.key@);
            }
            assert forall|b: Seq<u8>|
                b.len() == c.block_size_spec() implies c.enc_spec(#[trigger] c.dec_spec(b))
                == b by {
                lemma_xor_bytes_involutive(b, c.key@);
            }
        }
        Ok(c)
    }

    fn block_size(&self) -> (n: usize) {
        self.block_size
    }

    fn encrypt(&self, block: &Vec<u8>) -> (r: Result<Vec<u8>, CryptError>) {
        if self.key.len() != self.block_size {
            return Err(CryptError::Cipher);
        }
        Ok(xor_vecs(block, &self.key))
    }

    fn decrypt(&self, block: &Vec<u8>) -> (r: Result<Vec<u8>, CryptError>) {
        if self.key.len() != self.block_size {
            return Err(CryptError::Cipher);
        }
        Ok(xor_vecs(block, &self.key))
    }
}

} // verus!
