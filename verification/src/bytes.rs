//! Verified helpers on byte vectors: big-endian integer coding, pointwise
//! XOR, and in-place overwriting of a chunk.

use vstd::prelude::*;

verus! {

/// The 8-byte big-endian encoding of `x`.
pub open spec fn be_bytes_of(x: u64) -> Seq<u8> {
    seq![
        ((x >> 56) & 0xff) as u8,
        ((x >> 48) & 0xff) as u8,
        ((x >> 40) & 0xff) as u8,
        ((x >> 32) & 0xff) as u8,
        ((x >> 24) & 0xff) as u8,
        ((x >> 16) & 0xff) as u8,
        ((x >> 8) & 0xff) as u8,
        (x & 0xff) as u8,
    ]
}

/// The integer a byte string denotes in big-endian order.
pub open spec fn be_val(s: Seq<u8>) -> int
    decreases s.len(),
{
    if s.len() == 0 {
        0
    } else {
        be_val(s.drop_last()) * 256 + s.last()
    }
}

/// 256 to the power `n`.
pub open spec fn pow256(n: nat) -> int
    decreases n,
{
    if n == 0 {
        1
    } else {
        256 * pow256((n - 1) as nat)
    }
}

pub proof fn lemma_be_val_bound(s: Seq<u8>)
    ensures
        0 <= be_val(s) < pow256(s.len()),
    decreases s.len(),
{
    if s.len() > 0 {
        lemma_be_val_bound(s.drop_last());
    }
}

/// `x1 + x2 + x3`, keeping the given chunk boundaries: `x2` written over
/// `data` at position `pos`.
pub open spec fn overwrite(data: Seq<u8>, pos: int, chunk: Seq<u8>) -> Seq<u8> {
    data.subrange(0, pos) + chunk + data.subrange(pos + chunk.len(), data.len() as int)
}

/// Pointwise XOR of two byte strings of the same length.
pub open spec fn xor_bytes(a: Seq<u8>, b: Seq<u8>) -> Seq<u8> {
    Seq::new(a.len(), |i: int| (a[i] ^ b[i]) as u8)
}

/// The all-zero byte string of length `n`.
pub open spec fn zero_bytes(n: nat) -> Seq<u8> {
    Seq::new(n, |i: int| 0u8)
}

/// Big-endian encoding of `x` as a vector.
pub fn u64_to_be_bytes(x: u64) -> (r: Vec<u8>)
    ensures
        r@ == be_bytes_of(x),
{
    let mut r: Vec<u8> = Vec::new();
    r.push(((x >> 56) & 0xff) as u8);
    r.push(((x >> 48) & 0xff) as u8);
    r.push(((x >> 40) & 0xff) as u8);
    r.push(((x >> 32) & 0xff) as u8);
    r.push(((x >> 24) & 0xff) as u8);
    r.push(((x >> 16) & 0xff) as u8);
    r.push(((x >> 8) & 0xff) as u8);
    r.push((x & 0xff) as u8);
    proof {
        assert(r@ =~= be_bytes_of(x));
    }
    r
}

/// The value of the first eight bytes of `v`, read big-endian.
pub fn be_u64_of_prefix(v: &Vec<u8>) -> (r: u64)
    requires
        v@.len() >= 8,
    ensures
        r == be_val(v@.subrange(0, 8)),
{
    let mut val: u64 = 0;
    let mut i: usize = 0;
    while i < 8
        invariant
            0 <= i <= 8,
            v@.len() >= 8,
            val == be_val(v@.subrange(0, i as int)),
        decreases 8 - i,
    {
        proof {
            lemma_be_val_bound(v@.subrange(0, i as int));
            assert(pow256(i as nat) <= pow256(7)) by {
                lemma_pow256_increases(i as nat, 7);
            }
            assert(pow256(7) == 0x100000000000000) by {
                reveal_with_fuel(pow256, 8);
            }
            assert(v@.subrange(0, (i + 1) as int).drop_last() =~= v@.subrange(0, i as int));
        }
        val = val * 256 + (v[i] as u64);
        i = i + 1;
    }
    val
}

pub proof fn lemma_pow256_pos(n: nat)
    ensures
        pow256(n) >= 1,
    decreases n,
{
    if n > 0 {
        lemma_pow256_pos((n - 1) as nat);
    }
}

pub proof fn lemma_pow256_increases(m: nat, n: nat)
    requires
        m <= n,
    ensures
        pow256(m) <= pow256(n),
    decreases n,
{
    lemma_pow256_pos(m);
    if m < n {
        lemma_pow256_increases(m, (n - 1) as nat);
        lemma_pow256_pos((n - 1) as nat);
    }
}

/// A fresh copy of a byte vector.
pub fn copy_bytes(v: &Vec<u8>) -> (r: Vec<u8>)
    ensures
        r@ == v@,
{
    let mut r: Vec<u8> = Vec::new();
    let mut i: usize = 0;
    while i < v.len()
        invariant
            0 <= i <= v@.len(),
            r@ == v@.subrange(0, i as int),
        decreases v@.len() - i,
    {
        r.push(v[i]);
        proof {
            assert(r@ =~= v@.subrange(0, (i + 1) as int));
        }
        i = i + 1;
    }
    proof {
        assert(v@.subrange(0, v@.len() as int) =~= v@);
    }
    r
}

/// The all-zero vector of length `n`.
pub fn zero_vec(n: usize) -> (r: Vec<u8>)
    ensures
        r@ == zero_bytes(n as nat),
{
    let mut r: Vec<u8> = Vec::new();
    let mut i: usize = 0;
    while i < n
        invariant
            0 <= i <= n,
            r@ == zero_bytes(i as nat),
        decreases n - i,
    {
        r.push(0u8);
        proof {
            assert(r@ =~= zero_bytes((i + 1) as nat));
        }
        i = i + 1;
    }
    r
}

/// The bytes of `v` from `start` to `end`, as a fresh vector.
pub fn subrange_vec(v: &Vec<u8>, start: usize, end: usize) -> (r: Vec<u8>)
    requires
        start <= end <= v@.len(),
    ensures
        r@ == v@.subrange(start as int, end as int),
{
    let mut r: Vec<u8> = Vec::new();
    let mut i: usize = start;
    while i < end
        invariant
            start <= i <= end <= v@.len(),
            r@ == v@.subrange(start as int, i as int),
        decreases end - i,
    {
        r.push(v[i]);
        proof {
            assert(r@ =~= v@.subrange(start as int, (i + 1) as int));
        }
        i = i + 1;
    }
    r
}

/// Writes `src` over `dst` starting at `pos`.
pub fn write_bytes_at(dst: &mut Vec<u8>, pos: usize, src: &Vec<u8>)
    requires
        pos + src@.len() <= old(dst)@.len(),
    ensures
        final(dst)@ == overwrite(old(dst)@, pos as int, src@),
{
    let dst_len = dst.len();
    let mut k: usize = 0;
    while k < src.len()
        invariant
            0 <= k <= src@.len(),
            pos + src@.len() <= dst@.len(),
            dst@.len() == dst_len,
            dst@.len() == old(dst)@.len(),
            forall|j: int| 0 <= j < pos ==> dst@[j] == old(dst)@[j],
            forall|j: int| 0 <= j < k ==> dst@[pos + j] == src@[j],
            forall|j: int| pos + src@.len() <= j < dst@.len() ==> dst@[j] == old(dst)@[j],
        decreases src@.len() - k,
    {
        dst.set(pos + k, src[k]);
        k = k + 1;
    }
    proof {
        assert(dst@ =~= overwrite(old(dst)@, pos as int, src@));
    }
}

/// Pointwise XOR of two equal-length vectors.
pub fn xor_vecs(a: &Vec<u8>, b: &Vec<u8>) -> (r: Vec<u8>)
    requires
        a@.len() == b@.len(),
    ensures
        r@ == xor_bytes(a@, b@),
{
    let mut r: Vec<u8> = Vec::new();
    let mut i: usize = 0;
    while i < a.len()
        invariant
            0 <= i <= a@.len(),
            a@.len() == b@.len(),
            r@.len() == i,
            forall|j: int| 0 <= j < i ==> r@[j] == (a@[j] ^ b@[j]) as u8,
        decreases a@.len() - i,
    {
        r.push(a[i] ^ b[i]);
        i = i + 1;
    }
    proof {
        assert(r@ =~= xor_bytes(a@, b@));
    }
    r
}

} // verus!
