use vstd::prelude::*;

verus! {

/// Byte-wise exclusive-or: the sequence whose byte `i` is `a[i] ^ b[i]`, as
/// long as `a`. The chaining step applies it to one data block and one
/// feedback block of equal length.
pub open spec fn xor_bytes(a: Seq<u8>, b: Seq<u8>) -> Seq<u8> {
    Seq::new(a.len(), |i: int| a[i] ^ b[i])
}

/// Exclusive-or with a fixed mask undoes itself.
pub proof fn lemma_xor_bytes_involutive(a: Seq<u8>, k: Seq<u8>)
    ensures
        xor_bytes(xor_bytes(a, k), k) == a,
{
    let x = xor_bytes(xor_bytes(a, k), k);
    assert forall|i: int| 0 <= i < a.len() implies x[i] == a[i] by {
        let u = a[i];
        let v = k[i];
        assert((u ^ v) ^ v == u) by (bit_vector);
    }
    assert(x =~= a);
}

/// Two different masks turn the same block into two different results.
pub proof fn lemma_xor_bytes_right_ne(p: Seq<u8>, a: Seq<u8>, b: Seq<u8>)
    requires
        p.len() == a.len(),
        a.len() == b.len(),
        a != b,
    ensures
        xor_bytes(p, a) != xor_bytes(p, b),
{
    assert(exists|j: int| 0 <= j < a.len() && a[j] != b[j]) by {
        if !(exists|j: int| 0 <= j < a.len() && a[j] != b[j]) {
            assert(a =~= b);
        }
    }
    let i = choose|j: int| 0 <= j < a.len() && a[j] != b[j];
    let u = p[i];
    let x = a[i];
    let y = b[i];
    assert(x != y ==> (u ^ x) != (u ^ y)) by (bit_vector);
    assert(xor_bytes(p, a)[i] != xor_bytes(p, b)[i]);
}

/// The same mask turns two different blocks into two different results.
pub proof fn lemma_xor_bytes_left_ne(a: Seq<u8>, b: Seq<u8>, f: Seq<u8>)
    requires
        a != b,
    ensures
        xor_bytes(a, f) != xor_bytes(b, f),
{
    if xor_bytes(a, f) == xor_bytes(b, f) {
        lemma_xor_bytes_involutive(a, f);
        lemma_xor_bytes_involutive(b, f);
    }
}

/// Executable byte-wise exclusive-or of two equally long buffers.
pub fn xor_vecs(a: &Vec<u8>, b: &Vec<u8>) -> (r: Vec<u8>)
    requires
        a@.len() == b@.len(),
    ensures
        r@ == xor_bytes(a@, b@),
{
    let n = a.len();
    let mut r: Vec<u8> = Vec::new();
    let mut i: usize = 0;
    while i < n
        invariant
            i <= n,
            n == a@.len(),
            a@.len() == b@.len(),
            r@.len() == i,
            forall|j: int| 0 <= j < i ==> r@[j] == (a@[j] ^ b@[j]),
        decreases n - i,
    {
        let byte = a[i] ^ b[i];
        r.push(byte);
        i = i + 1;
    }
    proof {
        assert(r@ =~= xor_bytes(a@, b@));
    }
    r
}

} // verus!
