//! The properties that tie signature, delta and patch together, stated
//! over the specification models and proved once and for all.
//!
//! Both hash functions are many-to-one in principle, so the laws that
//! depend on a hash match implying equal bytes carry that assumption as an
//! explicit hypothesis; on colliding inputs the delta merely loses
//! compression or the patcher reproduces the collision, and no law below
//! claims otherwise.

use crate::delta::{
    delta_tokens_from, delta_tokens_spec, lemma_delta_tokens_count, lemma_rh_lookup_finds,
    lemma_rh_lookup_props, rh_lookup, window_of, Token,
};
use crate::patch::{lemma_patch_spec_cons, patch_spec, token_bytes, tokens_valid};
use crate::rolling::rolling_hash_of;
use crate::signature::{
    chunk_of, lemma_num_chunks_le, num_chunks, sig_rolling_spec,
    sig_strong_spec, strong_hash_of,
};
use crate::wire::{
    delta_dec, delta_enc, lemma_delta_enc_dec, lemma_sig_enc_dec, sig_dec, sig_enc,
};
use vstd::arithmetic::div_mod::{lemma_div_is_ordered, lemma_fundamental_div_mod};
use vstd::arithmetic::mul::lemma_mul_inequality;
use vstd::prelude::*;

verus! {

/// The strong hash tells the chunks of `basis` apart from the windows of
/// `updated`: equal strong hashes imply equal bytes. False only on a
/// strong-hash collision.
pub open spec fn strong_hash_reliable_for(basis: Seq<u8>, updated: Seq<u8>, b: nat) -> bool {
    forall|k: nat, i: nat|
        #![trigger chunk_of(basis, b, k), window_of(updated, b, i)]
        k < num_chunks(basis.len(), b) && i + b <= updated.len() && strong_hash_of(
            chunk_of(basis, b, k),
        ) == strong_hash_of(window_of(updated, b, i)) ==> chunk_of(basis, b, k) == window_of(
            updated,
            b,
            i,
        )
}

/// The rolling hash tells the chunks of `basis` apart from one another.
/// False only on a rolling-hash collision among chunks.
pub open spec fn rolling_hash_reliable_for(basis: Seq<u8>, b: nat) -> bool {
    forall|k: nat, j: nat|
        #![trigger chunk_of(basis, b, k), chunk_of(basis, b, j)]
        k < num_chunks(basis.len(), b) && j < num_chunks(basis.len(), b) && rolling_hash_of(
            chunk_of(basis, b, k),
        ) == rolling_hash_of(chunk_of(basis, b, j)) ==> chunk_of(basis, b, k) == chunk_of(
            basis,
            b,
            j,
        )
}

/// `basis` and `updated` share no window-sized run of bytes at any
/// basis-chunk alignment.
pub open spec fn no_shared_block(basis: Seq<u8>, updated: Seq<u8>, b: nat) -> bool {
    forall|k: nat, i: nat|
        #![trigger chunk_of(basis, b, k), window_of(updated, b, i)]
        k < num_chunks(basis.len(), b) && i + b <= updated.len() ==> chunk_of(basis, b, k)
            != window_of(updated, b, i)
}

/// A literal token in front of a valid stream: still valid, and it
/// contributes exactly its byte.
proof fn lemma_cons_literal(
    basis: Seq<u8>,
    x: u8,
    rest: Seq<Token>,
    b: nat,
    nch: nat,
    tail: Seq<u8>,
)
    requires
        tokens_valid(rest, nch),
        patch_spec(basis, rest, b) == tail,
    ensures
        tokens_valid(seq![Token::ByteLiteral(x)] + rest, nch),
        patch_spec(basis, seq![Token::ByteLiteral(x)] + rest, b) == seq![x] + tail,
{
    let all = seq![Token::ByteLiteral(x)] + rest;
    lemma_patch_spec_cons(basis, Token::ByteLiteral(x), rest, b);
    assert forall|j: int|
        0 <= j < all.len() implies ((#[trigger] all[j]) matches Token::BlockIndex(k) ==> (
    k as nat) < nch) by {
        if j >= 1 {
            assert(all[j] == rest[j - 1]);
        }
    }
}

/// The scan of the trailing region (no full window left): one literal per
/// remaining byte.
proof fn lemma_delta_tail_literals(
    strong: Seq<u64>,
    rolling: Seq<u64>,
    updated: Seq<u8>,
    b: nat,
    i: nat,
)
    requires
        b >= 1,
        i <= updated.len(),
        i + b > updated.len(),
    ensures
        delta_tokens_from(strong, rolling, updated, b, i).len() == updated.len() - i,
        forall|j: int|
            0 <= j < updated.len() - i ==> delta_tokens_from(strong, rolling, updated, b, i)[j]
                == Token::ByteLiteral(updated[i + j]),
    decreases updated.len() - i,
{
    let toks = delta_tokens_from(strong, rolling, updated, b, i);
    if i >= updated.len() {
        assert(toks =~= Seq::<Token>::empty());
    } else {
        lemma_delta_tail_literals(strong, rolling, updated, b, i + 1);
        let rest = delta_tokens_from(strong, rolling, updated, b, i + 1);
        assert(toks == seq![Token::ByteLiteral(updated[i as int])] + rest);
        assert forall|j: int| 0 <= j < updated.len() - i implies toks[j] == Token::ByteLiteral(
            updated[i + j],
        ) by {
            if j >= 1 {
                assert(toks[j] == rest[j - 1]);
            }
        }
    }
}

/// The scan from position `i`, patched back onto the basis, reproduces
/// the updated file from `i` on, and every block reference it emits is in
/// range — provided the strong hash is reliable for this pair of files.
proof fn lemma_round_trip_from(basis: Seq<u8>, updated: Seq<u8>, b: nat, i: nat)
    requires
        b >= 1,
        basis.len() <= usize::MAX,
        i <= updated.len(),
        strong_hash_reliable_for(basis, updated, b),
    ensures
        tokens_valid(
            delta_tokens_from(sig_strong_spec(basis, b), sig_rolling_spec(basis, b), updated, b, i),
            num_chunks(basis.len(), b),
        ),
        patch_spec(
            basis,
            delta_tokens_from(sig_strong_spec(basis, b), sig_rolling_spec(basis, b), updated, b, i),
            b,
        ) == updated.subrange(i as int, updated.len() as int),
    decreases updated.len() - i,
{
    let strong = sig_strong_spec(basis, b);
    let rolling = sig_rolling_spec(basis, b);
    let nch = num_chunks(basis.len(), b);
    let toks = delta_tokens_from(strong, rolling, updated, b, i);
    let ulen = updated.len() as int;
    if i >= updated.len() {
        assert(toks =~= Seq::<Token>::empty());
        assert(updated.subrange(i as int, ulen) =~= Seq::<u8>::empty());
        assert(patch_spec(basis, toks, b) =~= Seq::<u8>::empty());
    } else {
        let rest1 = delta_tokens_from(strong, rolling, updated, b, i + 1);
        if i + b > updated.len() {
            lemma_round_trip_from(basis, updated, b, i + 1);
            lemma_cons_literal(
                basis,
                updated[i as int],
                rest1,
                b,
                nch,
                updated.subrange(i as int + 1, ulen),
            );
            assert(updated.subrange(i as int, ulen) =~= seq![updated[i as int]]
                + updated.subrange(i as int + 1, ulen));
        } else {
            let w = window_of(updated, b, i);
            let h = rolling_hash_of(w);
            match rh_lookup(rolling, h) {
                Option::Some(k) => {
                    lemma_rh_lookup_props(rolling, h);
                    if 0 <= k < strong.len() && strong[k] == strong_hash_of(w) {
                        // confirmed match: the strong hashes agree, so by
                        // reliability the chunk really is the window
                        assert(strong[k] == strong_hash_of(chunk_of(basis, b, k as nat)));
                        assert(chunk_of(basis, b, k as nat) == w);
                        lemma_num_chunks_le(basis.len(), b);
                        assert(0 <= k <= usize::MAX);
                        let kk = k as usize;
                        let rest2 = delta_tokens_from(strong, rolling, updated, b, i + b);
                        assert(toks == seq![Token::BlockIndex(kk)] + rest2);
                        lemma_round_trip_from(basis, updated, b, i + b);
                        lemma_patch_spec_cons(basis, Token::BlockIndex(kk), rest2, b);
                        assert(token_bytes(basis, b, Token::BlockIndex(kk)) == w);
                        assert(updated.subrange(i as int, ulen) =~= w + updated.subrange(
                            (i + b) as int,
                            ulen,
                        ));
                        assert forall|j: int|
                            0 <= j < toks.len() implies ((#[trigger] toks[j]) matches
                        Token::BlockIndex(x) ==> (x as nat) < nch) by {
                            if j >= 1 {
                                assert(toks[j] == rest2[j - 1]);
                            }
                        }
                    } else {
                        lemma_round_trip_from(basis, updated, b, i + 1);
                        lemma_cons_literal(
                            basis,
                            updated[i as int],
                            rest1,
                            b,
                            nch,
                            updated.subrange(i as int + 1, ulen),
                        );
                        assert(updated.subrange(i as int, ulen) =~= seq![updated[i as int]]
                            + updated.subrange(i as int + 1, ulen));
                    }
                },
                Option::None => {
                    lemma_round_trip_from(basis, updated, b, i + 1);
                    lemma_cons_literal(
                        basis,
                        updated[i as int],
                        rest1,
                        b,
                        nch,
                        updated.subrange(i as int + 1, ulen),
                    );
                    assert(updated.subrange(i as int, ulen) =~= seq![updated[i as int]]
                        + updated.subrange(i as int + 1, ulen));
                },
            }
        }
    }
}

/// The round-trip law, the central property of the whole library.
///
/// For every basis `X`, updated file `Y` and chunk size `B >= 1`:
/// `patch(X, delta(signature(X, B), Y, B), B) == Y`, and every block
/// reference in that delta is in range. The one hypothesis is that the
/// strong hash distinguishes the chunks of `X` from the windows of `Y`;
/// a strong-hash collision between different byte runs is the single
/// class of inputs on which the reconstruction may differ.
pub proof fn lemma_round_trip(basis: Seq<u8>, updated: Seq<u8>, b: nat)
    requires
        b >= 1,
        basis.len() <= usize::MAX,
        strong_hash_reliable_for(basis, updated, b),
    ensures
        tokens_valid(
            delta_tokens_spec(sig_strong_spec(basis, b), sig_rolling_spec(basis, b), updated, b),
            num_chunks(basis.len(), b),
        ),
        patch_spec(
            basis,
            delta_tokens_spec(sig_strong_spec(basis, b), sig_rolling_spec(basis, b), updated, b),
            b,
        ) == updated,
{
    lemma_round_trip_from(basis, updated, b, 0);
    assert(updated.subrange(0, updated.len() as int) =~= updated);
}

/// Signature extensionality: equal contents yield the same signature
/// model, whatever they were computed from.
pub proof fn lemma_signature_extensional(basis1: Seq<u8>, basis2: Seq<u8>, b: nat)
    requires
        basis1 == basis2,
    ensures
        sig_strong_spec(basis1, b) == sig_strong_spec(basis2, b),
        sig_rolling_spec(basis1, b) == sig_rolling_spec(basis2, b),
{
}

/// Signature determinism, byte for byte: the signature model is a
/// function of the file's bytes alone, its serialization is a function of
/// the model, and deserializing gives the model back. Two runs over equal
/// contents therefore produce identical artifact bytes that decode alike.
pub proof fn lemma_signature_serialization_round_trip(basis: Seq<u8>, b: nat)
    requires
        b >= 1,
        num_chunks(basis.len(), b) < 0x1_0000_0000,
    ensures
        sig_dec(sig_enc(sig_strong_spec(basis, b), sig_rolling_spec(basis, b)))
            == Option::Some((sig_strong_spec(basis, b), sig_rolling_spec(basis, b))),
{
    lemma_sig_enc_dec(sig_strong_spec(basis, b), sig_rolling_spec(basis, b));
}

/// The whole pipeline over serialized artifacts: the signature artifact
/// of the basis decodes to the basis's signature model, the delta scanned
/// against that model serializes and decodes back to itself, and patching
/// the basis with it rebuilds the updated file — under the same
/// strong-hash hypothesis as the in-memory round trip.
pub proof fn lemma_pipeline_round_trip(basis: Seq<u8>, updated: Seq<u8>, b: nat)
    requires
        b >= 1,
        basis.len() <= usize::MAX,
        num_chunks(basis.len(), b) < 0x1_0000_0000,
        updated.len() < 0x1_0000_0000,
        strong_hash_reliable_for(basis, updated, b),
    ensures
        ({
            let strong = sig_strong_spec(basis, b);
            let rolling = sig_rolling_spec(basis, b);
            let toks = delta_tokens_spec(strong, rolling, updated, b);
            &&& sig_dec(sig_enc(strong, rolling)) == Option::Some((strong, rolling))
            &&& delta_dec(delta_enc(toks)) == Option::Some(toks)
            &&& patch_spec(basis, toks, b) == updated
        }),
{
    lemma_sig_enc_dec(sig_strong_spec(basis, b), sig_rolling_spec(basis, b));
    lemma_delta_tokens_count(
        sig_strong_spec(basis, b),
        sig_rolling_spec(basis, b),
        updated,
        b,
        0,
    );
    lemma_delta_enc_dec(
        delta_tokens_spec(sig_strong_spec(basis, b), sig_rolling_spec(basis, b), updated, b),
    );
    lemma_round_trip(basis, updated, b);
}

/// Floor and ceiling division facts the aligned-scan proofs lean on.
proof fn lemma_floor_facts(n: nat, b: nat)
    requires
        b >= 1,
    ensures
        (n as int / b as int) * b <= n,
        n as int / b as int <= num_chunks(n, b) as int,
        n < (n as int / b as int) * b + b,
        n as int % b as int == n - (n as int / b as int) * b,
{
    lemma_fundamental_div_mod(n as int, b as int);
    let q = n as int / b as int;
    assert((b as int) * q == q * (b as int)) by (nonlinear_arith);
    lemma_div_is_ordered(n as int, (n + b - 1) as int, b as int);
}

/// The scan of a file against its own signature, standing at chunk
/// boundary `m`: one block reference per remaining whole chunk, then one
/// literal per remaining byte.
proof fn lemma_delta_equal_from(basis: Seq<u8>, b: nat, m: nat)
    requires
        b >= 1,
        basis.len() <= usize::MAX,
        rolling_hash_reliable_for(basis, b),
        strong_hash_reliable_for(basis, basis, b),
        m <= basis.len() as int / b as int,
    ensures
        ({
            let whole = basis.len() as int / b as int;
            let toks = delta_tokens_from(
                sig_strong_spec(basis, b),
                sig_rolling_spec(basis, b),
                basis,
                b,
                (m * b) as nat,
            );
            &&& toks.len() == (whole - m) + basis.len() as int % b as int
            &&& forall|j: int| 0 <= j < whole - m ==> (#[trigger] toks[j]) is BlockIndex
            &&& forall|j: int| whole - m <= j < toks.len() ==> (#[trigger] toks[j]) is ByteLiteral
        }),
    decreases basis.len() as int / b as int - m,
{
    let strong = sig_strong_spec(basis, b);
    let rolling = sig_rolling_spec(basis, b);
    let nch = num_chunks(basis.len(), b);
    let n = basis.len();
    let whole = n as int / b as int;
    let i = (m * b) as nat;
    let toks = delta_tokens_from(strong, rolling, basis, b, i);
    lemma_floor_facts(n, b);
    lemma_mul_inequality(m as int, whole, b as int);
    assert(whole * b <= n);
    assert(i <= n);
    if m == whole {
        // only the remainder is left: all literals
        assert(n - i == n as int % b as int);
        assert(i + b > n);
        lemma_delta_tail_literals(strong, rolling, basis, b, i);
        assert forall|j: int| 0 <= j < toks.len() implies (#[trigger] toks[j]) is ByteLiteral by {
            assert(toks[j] == Token::ByteLiteral(basis[i + j]));
        }
    } else {
        // a whole chunk starts here and matches itself
        assert((m + 1) * b == m * b + b) by (nonlinear_arith);
        lemma_mul_inequality((m + 1) as int, whole, b as int);
        assert(i + b <= n);
        let w = window_of(basis, b, i);
        assert(m < nch);
        assert(chunk_of(basis, b, m) =~= w);
        let h = rolling_hash_of(w);
        assert(rolling[m as int] == h);
        lemma_rh_lookup_finds(rolling, h, m as int);
        let k = rh_lookup(rolling, h)->Some_0;
        lemma_rh_lookup_props(rolling, h);
        assert(rolling_hash_of(chunk_of(basis, b, k as nat)) == rolling_hash_of(
            chunk_of(basis, b, m),
        ));
        assert(chunk_of(basis, b, k as nat) == chunk_of(basis, b, m));
        assert(strong[k] == strong_hash_of(w));
        lemma_num_chunks_le(n, b);
        let kk = k as usize;
        let rest = delta_tokens_from(strong, rolling, basis, b, i + b);
        assert(toks == seq![Token::BlockIndex(kk)] + rest);
        assert((i + b) as nat == ((m + 1) * b) as nat);
        lemma_delta_equal_from(basis, b, m + 1);
        assert forall|j: int| 0 <= j < whole - m implies (#[trigger] toks[j]) is BlockIndex by {
            if j >= 1 {
                assert(toks[j] == rest[j - 1]);
            }
        }
        assert forall|j: int|
            whole - m <= j < toks.len() implies (#[trigger] toks[j]) is ByteLiteral by {
            assert(toks[j] == rest[j - 1]);
        }
    }
}

/// Scanning a file against its own signature when the chunk size divides
/// the length: the delta is exactly one block reference per chunk.
pub proof fn lemma_delta_identity_aligned(basis: Seq<u8>, b: nat)
    requires
        b >= 1,
        basis.len() <= usize::MAX,
        basis.len() as int % b as int == 0,
        rolling_hash_reliable_for(basis, b),
        strong_hash_reliable_for(basis, basis, b),
    ensures
        ({
            let toks = delta_tokens_spec(
                sig_strong_spec(basis, b),
                sig_rolling_spec(basis, b),
                basis,
                b,
            );
            &&& toks.len() == basis.len() as int / b as int
            &&& forall|j: int| 0 <= j < toks.len() ==> (#[trigger] toks[j]) is BlockIndex
        }),
{
    assert(0 * b == 0) by (nonlinear_arith);
    lemma_delta_equal_from(basis, b, 0);
}

/// Scanning a file against its own signature when the chunk size leaves a
/// remainder: one block reference per whole chunk, then exactly the
/// trailing `len % b` bytes as literals.
pub proof fn lemma_delta_identity_with_remainder(basis: Seq<u8>, b: nat)
    requires
        b >= 1,
        basis.len() <= usize::MAX,
        rolling_hash_reliable_for(basis, b),
        strong_hash_reliable_for(basis, basis, b),
    ensures
        ({
            let whole = basis.len() as int / b as int;
            let toks = delta_tokens_spec(
                sig_strong_spec(basis, b),
                sig_rolling_spec(basis, b),
                basis,
                b,
            );
            &&& toks.len() == whole + basis.len() as int % b as int
            &&& forall|j: int| 0 <= j < whole ==> (#[trigger] toks[j]) is BlockIndex
            &&& forall|j: int| whole <= j < toks.len() ==> (#[trigger] toks[j]) is ByteLiteral
        }),
{
    assert(0 * b == 0) by (nonlinear_arith);
    lemma_delta_equal_from(basis, b, 0);
}

/// If no window of the updated file equals any basis chunk, every token
/// of the delta is the corresponding literal byte.
pub proof fn lemma_delta_disjoint_from(basis: Seq<u8>, updated: Seq<u8>, b: nat, i: nat)
    requires
        b >= 1,
        i <= updated.len(),
        strong_hash_reliable_for(basis, updated, b),
        no_shared_block(basis, updated, b),
    ensures
        ({
            let toks = delta_tokens_from(
                sig_strong_spec(basis, b),
                sig_rolling_spec(basis, b),
                updated,
                b,
                i,
            );
            &&& toks.len() == updated.len() - i
            &&& forall|j: int|
                0 <= j < toks.len() ==> (#[trigger] toks[j]) == Token::ByteLiteral(updated[i + j])
        }),
    decreases updated.len() - i,
{
    let strong = sig_strong_spec(basis, b);
    let rolling = sig_rolling_spec(basis, b);
    let toks = delta_tokens_from(strong, rolling, updated, b, i);
    if i >= updated.len() {
        assert(toks =~= Seq::<Token>::empty());
    } else if i + b > updated.len() {
        lemma_delta_tail_literals(strong, rolling, updated, b, i);
    } else {
        let w = window_of(updated, b, i);
        let h = rolling_hash_of(w);
        match rh_lookup(rolling, h) {
            Option::Some(k) => {
                lemma_rh_lookup_props(rolling, h);
                // a strong-hash agreement would make the chunk equal the
                // window, which the hypothesis rules out
                assert(strong[k] == strong_hash_of(chunk_of(basis, b, k as nat)));
                assert(chunk_of(basis, b, k as nat) != w);
                assert(strong[k] != strong_hash_of(w));
            },
            Option::None => {},
        }
        let rest = delta_tokens_from(strong, rolling, updated, b, i + 1);
        assert(toks == seq![Token::ByteLiteral(updated[i as int])] + rest);
        lemma_delta_disjoint_from(basis, updated, b, i + 1);
        assert forall|j: int| 0 <= j < toks.len() implies (#[trigger] toks[j])
            == Token::ByteLiteral(updated[i + j]) by {
            if j >= 1 {
                assert(toks[j] == rest[j - 1]);
            }
        }
    }
}

/// If `basis` and `updated` share no window-sized run at any chunk
/// alignment, the delta is all literals: one per updated byte.
pub proof fn lemma_delta_disjoint_all_literals(basis: Seq<u8>, updated: Seq<u8>, b: nat)
    requires
        b >= 1,
        strong_hash_reliable_for(basis, updated, b),
        no_shared_block(basis, updated, b),
    ensures
        ({
            let toks = delta_tokens_spec(
                sig_strong_spec(basis, b),
                sig_rolling_spec(basis, b),
                updated,
                b,
            );
            &&& toks.len() == updated.len()
            &&& forall|j: int|
                0 <= j < toks.len() ==> (#[trigger] toks[j]) == Token::ByteLiteral(updated[j])
        }),
{
    lemma_delta_disjoint_from(basis, updated, b, 0);
}

/// If the chunk size exceeds the updated file's length, no window ever
/// fits and the delta is all literals, whatever the signature holds.
pub proof fn lemma_delta_oversized_chunk(
    strong: Seq<u64>,
    rolling: Seq<u64>,
    updated: Seq<u8>,
    b: nat,
)
    requires
        b >= 1,
        b > updated.len(),
    ensures
        ({
            let toks = delta_tokens_spec(strong, rolling, updated, b);
            &&& toks.len() == updated.len()
            &&& forall|j: int|
                0 <= j < toks.len() ==> (#[trigger] toks[j]) == Token::ByteLiteral(updated[j])
        }),
{
    lemma_delta_tail_literals(strong, rolling, updated, b, 0);
}

/// The length a token stream reconstructs to: each block reference
/// contributes the length of its basis chunk, each literal one byte.
pub open spec fn patch_len_spec(basis: Seq<u8>, tokens: Seq<Token>, b: nat) -> nat
    decreases tokens.len(),
{
    if tokens.len() == 0 {
        0
    } else {
        token_bytes(basis, b, tokens[0]).len() + patch_len_spec(basis, tokens.drop_first(), b)
    }
}

/// Patch length law: the reconstruction is exactly as long as the sum of
/// the tokens' contributions.
pub proof fn lemma_patch_length(basis: Seq<u8>, tokens: Seq<Token>, b: nat)
    ensures
        patch_spec(basis, tokens, b).len() == patch_len_spec(basis, tokens, b),
    decreases tokens.len(),
{
    if tokens.len() > 0 {
        lemma_patch_length(basis, tokens.drop_first(), b);
    }
}

} // verus!
