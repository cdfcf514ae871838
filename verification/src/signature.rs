//! The signature of a basis file: the basis is split into consecutive
//! chunks of a fixed size (the last chunk may be shorter) and every chunk is
//! summarized by a rolling hash and a strong hash, stored in positional
//! lock-step.

use crate::rolling::{rolling_hash_of, RollingHash};
use core::hash::Hasher;
use std::collections::hash_map::DefaultHasher;
use vstd::arithmetic::div_mod::{
    lemma_basic_div, lemma_fundamental_div_mod, lemma_fundamental_div_mod_converse,
};
use vstd::arithmetic::mul::lemma_mul_inequality;
use vstd::prelude::*;
use vstd::std_specs::hash::DefaultHasherAdditionalSpecFns;

verus! {

/// The strong hash of a byte sequence: what `DefaultHasher` returns after
/// one `write` of those bytes. Deterministic: a pure function of the bytes.
pub open spec fn strong_hash_of(content: Seq<u8>) -> u64 {
    DefaultHasher::spec_finish(seq![content])
}

/// Computes the strong hash for a slice of bytes.
pub fn calculate_strong_hash(content: &[u8]) -> (r: u64)
    ensures
        r == strong_hash_of(content@),
{
    let mut hasher = DefaultHasher::new();
    hasher.write(content);
    proof {
        assert(hasher@ =~= seq![content@]);
    }
    hasher.finish()
}

/// Number of chunks of size `b` that cover `n` bytes: `n / b` rounded up.
pub open spec fn num_chunks(n: nat, b: nat) -> nat
    recommends
        b >= 1,
{
    (((n + b - 1) as int) / (b as int)) as nat
}

/// The bytes of chunk `k`: positions `k*b` up to `k*b + b`, clipped to the
/// end of the data.
pub open spec fn chunk_of(data: Seq<u8>, b: nat, k: nat) -> Seq<u8>
    recommends
        b >= 1,
        k < num_chunks(data.len(), b),
{
    let lo = (k * b) as int;
    let hi = if k * b + b <= data.len() {
        (k * b + b) as int
    } else {
        data.len() as int
    };
    data.subrange(lo, hi)
}

/// Every chunk before the count starts strictly inside the data.
pub proof fn lemma_chunk_start_in_range(n: nat, b: nat, k: nat)
    requires
        b >= 1,
        k < num_chunks(n, b),
    ensures
        k * b < n,
{
    let q = num_chunks(n, b) as int;
    lemma_fundamental_div_mod((n + b - 1) as int, b as int);
    let r = ((n + b - 1) as int) % (b as int);
    assert(n + b - 1 == (b as int) * q + r);
    lemma_mul_inequality(k as int, q - 1, b as int);
    assert((q - 1) * b == q * b - b) by (nonlinear_arith);
    assert(q * b == b * q) by (nonlinear_arith);
    assert(k * b <= q * b - b);
}

/// The chunk count is pinned down by one chunk bound: if `k` chunks cover
/// `n` bytes and `k - 1` do not, then `k` is the count.
pub proof fn lemma_num_chunks_from_bounds(n: nat, b: nat, k: nat)
    requires
        b >= 1,
        k * b >= n,
        k == 0 ==> n == 0,
        k >= 1 ==> (k - 1) * b < n,
    ensures
        k == num_chunks(n, b),
{
    if k == 0 {
        lemma_basic_div((b - 1) as int, b as int);
    } else {
        let r = n + b - 1 - k * b;
        assert((k - 1) * b == k * b - b) by (nonlinear_arith);
        assert(0 <= r < b);
        assert((b as int) * (k as int) == (k as int) * (b as int)) by (nonlinear_arith);
        assert(n + b - 1 == (b as int) * (k as int) + r);
        lemma_fundamental_div_mod_converse((n + b - 1) as int, b as int, k as int, r);
    }
}

/// For non-empty data the count is also `(n - 1) / b + 1`, the form the
/// executable code computes, and it never exceeds `n`.
pub proof fn lemma_num_chunks_alt(n: nat, b: nat)
    requires
        b >= 1,
        n >= 1,
    ensures
        num_chunks(n, b) == ((n - 1) as int) / (b as int) + 1,
        num_chunks(n, b) <= n,
{
    let q = ((n - 1) as int) / (b as int);
    lemma_fundamental_div_mod((n - 1) as int, b as int);
    let r = ((n - 1) as int) % (b as int);
    assert(n - 1 == (b as int) * q + r);
    assert((b as int) * (q + 1) == (b as int) * q + b) by (nonlinear_arith);
    assert((b as int) * (q + 1) == (q + 1) * (b as int)) by (nonlinear_arith);
    assert(n + b - 1 == (q + 1) * (b as int) + r);
    lemma_fundamental_div_mod_converse((n + b - 1) as int, b as int, q + 1, r);
    vstd::arithmetic::div_mod::lemma_div_basics_5((n - 1) as int, b as int);
}

/// The chunk count never exceeds the byte count.
pub proof fn lemma_num_chunks_le(n: nat, b: nat)
    requires
        b >= 1,
    ensures
        num_chunks(n, b) <= n,
{
    if n == 0 {
        lemma_basic_div((b - 1) as int, b as int);
    } else {
        lemma_num_chunks_alt(n, b);
    }
}

/// The strong hashes of all chunks of `basis`, in basis order.
pub open spec fn sig_strong_spec(basis: Seq<u8>, b: nat) -> Seq<u64> {
    Seq::new(num_chunks(basis.len(), b), |k: int| strong_hash_of(chunk_of(basis, b, k as nat)))
}

/// The rolling hashes of all chunks of `basis`, in basis order.
pub open spec fn sig_rolling_spec(basis: Seq<u8>, b: nat) -> Seq<u64> {
    Seq::new(num_chunks(basis.len(), b), |k: int| rolling_hash_of(chunk_of(basis, b, k as nat)))
}

/// Represents the contents of a file.
///
/// The file is divided into blocks of `chunk_size` bytes and each block is
/// represented by two hashes: the rolling hash is fast to compute but weak,
/// the strong hash more expensive but stronger. Entry `i` of both vectors
/// describes block `i`.
#[derive(Debug, PartialEq, Eq, Clone)]
pub struct FileSignature {
    pub strong_hashes: Vec<u64>,
    pub rolling_hashes: Vec<u64>,
}

impl FileSignature {
    /// The two hash vectors walk in lock-step.
    pub open spec fn wf(self) -> bool {
        self.strong_hashes@.len() == self.rolling_hashes@.len()
    }

    /// This signature is the one `compute_signature` yields for `basis`
    /// and chunk size `b`.
    pub open spec fn is_signature_of(self, basis: Seq<u8>, b: nat) -> bool {
        &&& self.strong_hashes@ == sig_strong_spec(basis, b)
        &&& self.rolling_hashes@ == sig_rolling_spec(basis, b)
    }
}

/// Computes a `FileSignature` for the content of a file.
///
/// The file is split into equally-sized blocks (possibly with a smaller
/// last block) and each block is represented by its two hashes.
pub fn compute_signature(basis_file: &[u8], chunk_size: usize) -> (signature: FileSignature)
    requires
        chunk_size >= 1,
    ensures
        signature.is_signature_of(basis_file@, chunk_size as nat),
        signature.wf(),
{
    let n = basis_file.len();
    let ghost bn = chunk_size as nat;
    let mut strong_hashes: Vec<u64> = Vec::new();
    let mut rolling_hashes: Vec<u64> = Vec::new();
    let mut start: usize = 0;
    proof {
        assert(strong_hashes@.len() * bn == 0) by (nonlinear_arith)
            requires strong_hashes@.len() == 0;
    }
    while start < n
        invariant
            chunk_size >= 1,
            bn == chunk_size as nat,
            n == basis_file@.len(),
            strong_hashes@.len() == rolling_hashes@.len(),
            start == if strong_hashes@.len() * bn <= n {
                (strong_hashes@.len() * bn) as int
            } else {
                n as int
            },
            strong_hashes@.len() >= 1 ==> (strong_hashes@.len() - 1) * bn < n,
            forall|j: int|
                0 <= j < strong_hashes@.len() ==> strong_hashes@[j] == strong_hash_of(
                    chunk_of(basis_file@, bn, j as nat),
                ),
            forall|j: int|
                0 <= j < rolling_hashes@.len() ==> rolling_hashes@[j] == rolling_hash_of(
                    chunk_of(basis_file@, bn, j as nat),
                ),
        decreases n - start,
    {
        let ghost k = strong_hashes@.len();
        let end = if chunk_size >= n - start {
            n
        } else {
            start + chunk_size
        };
        proof {
            assert(k * bn == start);
            assert((k + 1) * bn == k * bn + bn) by (nonlinear_arith);
        }
        let block = &basis_file[start..end];
        proof {
            assert(block@ =~= chunk_of(basis_file@, bn, k as nat));
        }
        let s_hash = calculate_strong_hash(block);
        let roller = RollingHash::from_initial_bytes(block);
        let r_hash = roller.get_current_hash();
        strong_hashes.push(s_hash);
        rolling_hashes.push(r_hash);
        start = end;
    }
    proof {
        let k = strong_hashes@.len();
        if k == 0 {
            assert(n == 0);
        } else {
            assert(k * bn >= n);
        }
        lemma_num_chunks_from_bounds(n as nat, bn, k);
        assert(strong_hashes@ =~= sig_strong_spec(basis_file@, bn));
        assert(rolling_hashes@ =~= sig_rolling_spec(basis_file@, bn));
    }
    FileSignature { strong_hashes, rolling_hashes }
}

} // verus!
