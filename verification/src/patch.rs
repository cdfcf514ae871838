//! The patch: applying a delta to the basis file reconstructs the updated
//! file. The basis is partitioned into chunks exactly as the signature
//! builder did; a `BlockIndex(k)` contributes the bytes of chunk `k`
//! verbatim, a `ByteLiteral(b)` contributes the single byte `b`. Hashes
//! are never consulted: the delta is the sole authority.

use crate::delta::{Delta, Token};
use crate::signature::{
    chunk_of, lemma_chunk_start_in_range, lemma_num_chunks_alt, num_chunks,
};
use vstd::arithmetic::div_mod::lemma_basic_div;
use vstd::prelude::*;

verus! {

/// The bytes one token contributes to the reconstruction.
pub open spec fn token_bytes(basis: Seq<u8>, b: nat, t: Token) -> Seq<u8> {
    match t {
        Token::BlockIndex(k) => chunk_of(basis, b, k as nat),
        Token::ByteLiteral(x) => seq![x],
    }
}

/// Every block reference in the stream names an existing chunk.
pub open spec fn tokens_valid(tokens: Seq<Token>, nchunks: nat) -> bool {
    forall|j: int|
        0 <= j < tokens.len() ==> ((#[trigger] tokens[j]) matches Token::BlockIndex(k) ==> (
        k as nat) < nchunks)
}

/// The reconstruction: the concatenation of every token's contribution,
/// in token order.
pub open spec fn patch_spec(basis: Seq<u8>, tokens: Seq<Token>, b: nat) -> Seq<u8>
    decreases tokens.len(),
{
    if tokens.len() == 0 {
        Seq::empty()
    } else {
        token_bytes(basis, b, tokens[0]) + patch_spec(basis, tokens.drop_first(), b)
    }
}

/// Peeling the leading token off the stream peels its bytes off the
/// reconstruction.
pub proof fn lemma_patch_spec_cons(basis: Seq<u8>, t: Token, rest: Seq<Token>, b: nat)
    ensures
        patch_spec(basis, seq![t] + rest, b) == token_bytes(basis, b, t) + patch_spec(
            basis,
            rest,
            b,
        ),
{
    let all = seq![t] + rest;
    assert(all[0] == t);
    assert(all.drop_first() =~= rest);
}

/// Appending a token at the end appends its bytes to the reconstruction.
pub proof fn lemma_patch_spec_push(basis: Seq<u8>, tokens: Seq<Token>, t: Token, b: nat)
    ensures
        patch_spec(basis, tokens.push(t), b) == patch_spec(basis, tokens, b) + token_bytes(
            basis,
            b,
            t,
        ),
    decreases tokens.len(),
{
    if tokens.len() == 0 {
        assert(tokens.push(t)[0] == t);
        assert(tokens =~= Seq::<Token>::empty());
        assert(tokens.push(t).drop_first() =~= Seq::<Token>::empty());
        assert(patch_spec(basis, tokens.push(t), b) =~= patch_spec(basis, tokens, b)
            + token_bytes(basis, b, t));
    } else {
        assert(tokens.push(t)[0] == tokens[0]);
        assert(tokens.push(t).drop_first() =~= tokens.drop_first().push(t));
        lemma_patch_spec_push(basis, tokens.drop_first(), t, b);
        assert(token_bytes(basis, b, tokens[0]) + (patch_spec(basis, tokens.drop_first(), b)
            + token_bytes(basis, b, t)) =~= (token_bytes(basis, b, tokens[0]) + patch_spec(
            basis,
            tokens.drop_first(),
            b,
        )) + token_bytes(basis, b, t));
    }
}

/// The number of chunks that `compute_signature` would produce, as the
/// executable code computes it.
pub fn chunk_count(basis_len: usize, chunk_size: usize) -> (count: usize)
    requires
        chunk_size >= 1,
    ensures
        count as nat == num_chunks(basis_len as nat, chunk_size as nat),
{
    if basis_len == 0 {
        proof {
            lemma_basic_div((chunk_size - 1) as int, chunk_size as int);
        }
        0
    } else {
        proof {
            lemma_num_chunks_alt(basis_len as nat, chunk_size as nat);
        }
        (basis_len - 1) / chunk_size + 1
    }
}

/// Whether every block reference of `delta` names a chunk that exists in
/// a basis of `basis_len` bytes under the given chunk size. The patcher
/// refuses a delta for which this does not hold.
pub fn delta_fits(delta: &Delta, basis_len: usize, chunk_size: usize) -> (ok: bool)
    requires
        chunk_size >= 1,
    ensures
        ok == tokens_valid(delta.content@, num_chunks(basis_len as nat, chunk_size as nat)),
{
    let nchunks = chunk_count(basis_len, chunk_size);
    let mut ti: usize = 0;
    while ti < delta.content.len()
        invariant
            ti <= delta.content@.len(),
            nchunks as nat == num_chunks(basis_len as nat, chunk_size as nat),
            forall|j: int|
                0 <= j < ti ==> ((#[trigger] delta.content@[j]) matches Token::BlockIndex(k)
                    ==> (k as nat) < nchunks as nat),
        decreases delta.content@.len() - ti,
    {
        match delta.content[ti] {
            Token::BlockIndex(k) => {
                if k >= nchunks {
                    assert(!tokens_valid(
                        delta.content@,
                        num_chunks(basis_len as nat, chunk_size as nat),
                    ));
                    return false;
                }
            },
            Token::ByteLiteral(_) => {},
        }
        ti = ti + 1;
    }
    true
}

/// Applies a `Delta` to a basis file.
///
/// Applies the changes specified by the delta to the basis file (not in
/// place) and returns the reconstructed content. Every block reference
/// must name an existing chunk; `delta_fits` decides that, and a caller
/// that cannot guarantee it checks first.
pub fn apply_delta(basis_file: &[u8], delta: &Delta, chunk_size: usize) -> (recreated: Vec<u8>)
    requires
        chunk_size >= 1,
        tokens_valid(delta.content@, num_chunks(basis_file@.len(), chunk_size as nat)),
    ensures
        recreated@ == patch_spec(basis_file@, delta.content@, chunk_size as nat),
{
    let n = basis_file.len();
    let ghost bn = chunk_size as nat;
    let mut reconstructed: Vec<u8> = Vec::new();
    let mut ti: usize = 0;
    proof {
        assert(delta.content@.take(0int) =~= Seq::<Token>::empty());
    }
    while ti < delta.content.len()
        invariant
            ti <= delta.content@.len(),
            chunk_size >= 1,
            bn == chunk_size as nat,
            n == basis_file@.len(),
            tokens_valid(delta.content@, num_chunks(basis_file@.len(), bn)),
            reconstructed@ == patch_spec(basis_file@, delta.content@.take(ti as int), bn),
        decreases delta.content@.len() - ti,
    {
        let token = delta.content[ti];
        match token {
            Token::BlockIndex(index) => {
                proof {
                    assert(delta.content@[ti as int] matches Token::BlockIndex(k) && (k as nat)
                        < num_chunks(basis_file@.len(), bn));
                    lemma_chunk_start_in_range(basis_file@.len(), bn, index as nat);
                }
                let start = index * chunk_size;
                let end = if chunk_size >= n - start {
                    n
                } else {
                    start + chunk_size
                };
                let block = &basis_file[start..end];
                proof {
                    assert(block@ =~= chunk_of(basis_file@, bn, index as nat));
                }
                let mut bi: usize = 0;
                while bi < block.len()
                    invariant
                        bi <= block@.len(),
                        reconstructed@ == patch_spec(basis_file@, delta.content@.take(ti as int),
                            bn) + block@.take(bi as int),
                    decreases block@.len() - bi,
                {
                    reconstructed.push(block[bi]);
                    proof {
                        assert(block@.take(bi + 1) =~= block@.take(bi as int).push(
                            block@[bi as int],
                        ));
                        assert(patch_spec(basis_file@, delta.content@.take(ti as int), bn)
                            + block@.take(bi + 1) =~= (patch_spec(
                            basis_file@,
                            delta.content@.take(ti as int),
                            bn,
                        ) + block@.take(bi as int)).push(block@[bi as int]));
                    }
                    bi = bi + 1;
                }
                proof {
                    assert(block@.take(block@.len() as int) =~= block@);
                }
            },
            Token::ByteLiteral(byte) => {
                reconstructed.push(byte);
                proof {
                    assert(patch_spec(basis_file@, delta.content@.take(ti as int), bn) + seq![
                        byte,
                    ] =~= patch_spec(basis_file@, delta.content@.take(ti as int), bn).push(byte));
                }
            },
        }
        proof {
            assert(delta.content@.take(ti + 1) =~= delta.content@.take(ti as int).push(token));
            lemma_patch_spec_push(basis_file@, delta.content@.take(ti as int), token, bn);
        }
        ti = ti + 1;
    }
    proof {
        assert(delta.content@.take(delta.content@.len() as int) =~= delta.content@);
    }
    reconstructed
}

} // verus!
