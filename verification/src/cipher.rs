use vstd::prelude::*;

use crate::errors::CryptError;

verus! {

/// A fixed-block-size symmetric cipher: the collaborator the chaining layer
/// drives one block at a time. Its internal transform is abstract here; an
/// implementation describes itself through the spec functions and the chain
/// is verified against them.
pub trait BlockCipher: Sized {
    /// The block size in bytes, fixed after construction.
    spec fn block_size_spec(&self) -> nat;

    /// What single-block encryption returns on `block`, when it succeeds.
    spec fn enc_spec(&self, block: Seq<u8>) -> Seq<u8>;

    /// What single-block decryption returns on `block`, when it succeeds.
    spec fn dec_spec(&self, block: Seq<u8>) -> Seq<u8>;

    /// Whether single-block encryption succeeds on `block`.
    spec fn enc_ok(&self, block: Seq<u8>) -> bool;

    /// Whether single-block decryption succeeds on `block`.
    spec fn dec_ok(&self, block: Seq<u8>) -> bool;

    /// Whether construction accepts this key and block size.
    spec fn new_ok(key: Seq<u8>, block_size: nat) -> bool;

    /// Builds a cipher instance from key material, or reports that the
    /// combination is unsupported. A successful build satisfies the
    /// block-cipher laws, stated here clause by clause ([`cipher_obeys`]
    /// gathers them under one name for the chaining layer), and is in valid
    /// internal state: its per-block operations succeed on whole blocks.
    fn new(key: Vec<u8>, block_size: usize) -> (r: Result<Self, CryptError>)
        ensures
            r is Ok <==> Self::new_ok(key@, block_size as nat),
            r matches Ok(c) ==> ({
                &&& c.block_size_spec() == block_size as nat
                &&& c.block_size_spec() >= 1
                &&& forall|b: Seq<u8>|
                    b.len() == c.block_size_spec() ==> (#[trigger] c.enc_spec(b)).len()
                        == c.block_size_spec()
                &&& forall|b: Seq<u8>|
                    b.len() == c.block_size_spec() ==> (#[trigger] c.dec_spec(b)).len()
                        == c.block_size_spec()
                &&& forall|b: Seq<u8>|
                    b.len() == c.block_size_spec() ==> c.dec_spec(#[trigger] c.enc_spec(b)) == b
                &&& forall|b: Seq<u8>|
                    b.len() == c.block_size_spec() ==> c.enc_spec(#[trigger] c.dec_spec(b)) == b
                &&& forall|b: Seq<u8>|
                    b.len() == c.block_size_spec() && #[trigger] c.enc_ok(b) ==> c.dec_ok(
                        c.enc_spec(b),
                    )
                &&& forall|b: Seq<u8>|
                    b.len() == c.block_size_spec() ==> #[trigger] c.enc_ok(b)
                &&& forall|b: Seq<u8>|
                    b.len() == c.block_size_spec() ==> #[trigger] c.dec_ok(b)
            }),
            r matches Err(e) ==> e == CryptError::Configuration,
    ;

    /// The block size in bytes.
    fn block_size(&self) -> (n: usize)
        ensures
            n as nat == self.block_size_spec(),
    ;

    /// Encrypts one block, or fails with a cipher error on invalid internal
    /// state.
    fn encrypt(&self, block: &Vec<u8>) -> (r: Result<Vec<u8>, CryptError>)
        requires
            block@.len() == self.block_size_spec(),
        ensures
            r is Ok <==> self.enc_ok(block@),
            r matches Ok(c) ==> c@ == self.enc_spec(block@),
            r matches Err(e) ==> e == CryptError::Cipher,
    ;

    /// Decrypts one block, or fails with a cipher error on invalid internal
    /// state.
    fn decrypt(&self, block: &Vec<u8>) -> (r: Result<Vec<u8>, CryptError>)
        requires
            block@.len() == self.block_size_spec(),
        ensures
            r is Ok <==> self.dec_ok(block@),
            r matches Ok(p) ==> p@ == self.dec_spec(block@),
            r matches Err(e) ==> e == CryptError::Cipher,
    ;
}

/// The laws a usable block cipher instance satisfies: a positive block size,
/// block-length-preserving transforms that invert each other on whole blocks,
/// and the ability to decrypt whatever it encrypted.
pub open spec fn cipher_obeys<C: BlockCipher>(c: &C) -> bool {
    &&& c.block_size_spec() >= 1
    &&& forall|b: Seq<u8>|
        b.len() == c.block_size_spec() ==> (#[trigger] c.enc_spec(b)).len()
            == c.block_size_spec()
    &&& forall|b: Seq<u8>|
        b.len() == c.block_size_spec() ==> (#[trigger] c.dec_spec(b)).len()
            == c.block_size_spec()
    &&& forall|b: Seq<u8>|
        b.len() == c.block_size_spec() ==> c.dec_spec(#[trigger] c.enc_spec(b)) == b
    &&& forall|b: Seq<u8>|
        b.len() == c.block_size_spec() ==> c.enc_spec(#[trigger] c.dec_spec(b)) == b
    &&& forall|b: Seq<u8>|
        b.len() == c.block_size_spec() && #[trigger] c.enc_ok(b) ==> c.dec_ok(c.enc_spec(b))
}

/// Single-block encryption is injective on whole blocks: it has an inverse.
pub proof fn lemma_enc_injective<C: BlockCipher>(c: &C, b1: Seq<u8>, b2: Seq<u8>)
    requires
        cipher_obeys(c),
        b1.len() == c.block_size_spec(),
        b2.len() == c.block_size_spec(),
        b1 != b2,
    ensures
        c.enc_spec(b1) != c.enc_spec(b2),
{
    if c.enc_spec(b1) == c.enc_spec(b2) {
        assert(c.dec_spec(c.enc_spec(b1)) == b1);
        assert(c.dec_spec(c.enc_spec(b2)) == b2);
    }
}

/// Single-block decryption is injective on whole blocks: it has an inverse.
pub proof fn lemma_dec_injective<C: BlockCipher>(c: &C, b1: Seq<u8>, b2: Seq<u8>)
    requires
        cipher_obeys(c),
        b1.len() == c.block_size_spec(),
        b2.len() == c.block_size_spec(),
        b1 != b2,
    ensures
        c.dec_spec(b1) != c.dec_spec(b2),
{
    if c.dec_spec(b1) == c.dec_spec(b2) {
        assert(c.enc_spec(c.dec_spec(b1)) == b1);
        assert(c.enc_spec(c.dec_spec(b2)) == b2);
    }
}

} // verus!
