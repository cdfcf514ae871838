//! The delta: a token stream that rebuilds the updated file from the basis.
//! The updated file is scanned byte-by-byte with a sliding window; whenever
//! the window's rolling hash points at a basis chunk and the strong hash
//! confirms the match, a block reference is emitted and the window jumps
//! past the block; otherwise a single literal byte is emitted.

use crate::patch::tokens_valid;
use crate::rolling::{rolling_hash_of, RollingHash};
use crate::signature::{calculate_strong_hash, strong_hash_of, FileSignature};
use std::collections::HashMap;
use vstd::prelude::*;

verus! {

/// One instruction of a delta stream.
#[derive(Debug, PartialEq, Eq, Clone, Copy)]
pub enum Token {
    /// A reference to a block within the basis file.
    BlockIndex(usize),
    /// A byte literal to be reconstructed directly.
    ByteLiteral(u8),
}

/// Represents how to transform the basis file into the updated file, in
/// order. The updated file can be reconstructed by reusing basis-file
/// blocks (through a `BlockIndex`) or by writing new byte literals.
#[derive(Debug, PartialEq, Eq, Clone)]
pub struct Delta {
    pub content: Vec<Token>,
}

/// The candidate index: the position of the last entry of `rolling` that
/// holds the hash `h`, if any. Last insertion wins when several entries
/// share a rolling hash.
pub open spec fn rh_lookup(rolling: Seq<u64>, h: u64) -> Option<int>
    decreases rolling.len(),
{
    if rolling.len() == 0 {
        Option::None
    } else if rolling.last() == h {
        Option::Some(rolling.len() - 1)
    } else {
        rh_lookup(rolling.drop_last(), h)
    }
}

/// What a lookup answer means: a hit names an entry holding `h`, and a
/// miss means no entry holds `h`.
pub proof fn lemma_rh_lookup_props(rolling: Seq<u64>, h: u64)
    ensures
        match rh_lookup(rolling, h) {
            Option::Some(k) => 0 <= k < rolling.len() && rolling[k] == h,
            Option::None => forall|j: int| 0 <= j < rolling.len() ==> rolling[j] != h,
        },
    decreases rolling.len(),
{
    if rolling.len() > 0 && rolling.last() != h {
        lemma_rh_lookup_props(rolling.drop_last(), h);
        if rh_lookup(rolling, h) is None {
            assert forall|j: int| 0 <= j < rolling.len() implies rolling[j] != h by {
                if j < rolling.len() - 1 {
                    assert(rolling.drop_last()[j] == rolling[j]);
                }
            }
        }
    }
}

/// A hash that occurs somewhere in the index is always found.
pub proof fn lemma_rh_lookup_finds(rolling: Seq<u64>, h: u64, j: int)
    requires
        0 <= j < rolling.len(),
        rolling[j] == h,
    ensures
        rh_lookup(rolling, h) is Some,
    decreases rolling.len(),
{
    if rolling.last() != h {
        assert(rolling.drop_last()[j] == rolling[j]);
        lemma_rh_lookup_finds(rolling.drop_last(), h, j);
    }
}

/// The window of `b` bytes of `updated` that starts at position `i`.
pub open spec fn window_of(updated: Seq<u8>, b: nat, i: nat) -> Seq<u8>
    recommends
        i + b <= updated.len(),
{
    updated.subrange(i as int, (i + b) as int)
}

/// The token stream that the scan emits from position `i` onward.
///
/// While a full window remains, its rolling hash is looked up in the
/// candidate index; on a hit the strong hashes decide between a block
/// reference (the scan then jumps a whole window) and a literal; on a miss
/// a literal is emitted. The trailing bytes are all literals.
pub open spec fn delta_tokens_from(
    strong: Seq<u64>,
    rolling: Seq<u64>,
    updated: Seq<u8>,
    b: nat,
    i: nat,
) -> Seq<Token>
    recommends
        b >= 1,
    decreases updated.len() - i,
    when b >= 1 && i <= updated.len()
{
    if i >= updated.len() {
        Seq::empty()
    } else if i + b > updated.len() {
        seq![Token::ByteLiteral(updated[i as int])] + delta_tokens_from(
            strong,
            rolling,
            updated,
            b,
            i + 1,
        )
    } else {
        let w = window_of(updated, b, i);
        match rh_lookup(rolling, rolling_hash_of(w)) {
            Option::Some(k) => {
                if 0 <= k < strong.len() && strong[k] == strong_hash_of(w) {
                    seq![Token::BlockIndex(k as usize)] + delta_tokens_from(
                        strong,
                        rolling,
                        updated,
                        b,
                        i + b,
                    )
                } else {
                    seq![Token::ByteLiteral(updated[i as int])] + delta_tokens_from(
                        strong,
                        rolling,
                        updated,
                        b,
                        i + 1,
                    )
                }
            },
            Option::None => seq![Token::ByteLiteral(updated[i as int])] + delta_tokens_from(
                strong,
                rolling,
                updated,
                b,
                i + 1,
            ),
        }
    }
}

/// The full token stream for `updated` against a signature model.
pub open spec fn delta_tokens_spec(
    strong: Seq<u64>,
    rolling: Seq<u64>,
    updated: Seq<u8>,
    b: nat,
) -> Seq<Token>
    recommends
        b >= 1,
{
    delta_tokens_from(strong, rolling, updated, b, 0)
}

impl Delta {
    /// This delta is the one the scan yields for `updated` against the
    /// given signature model and chunk size.
    pub open spec fn is_delta_of(
        self,
        strong: Seq<u64>,
        rolling: Seq<u64>,
        updated: Seq<u8>,
        b: nat,
    ) -> bool {
        self.content@ == delta_tokens_spec(strong, rolling, updated, b)
    }
}

/// Computes a `Delta` from a `FileSignature`.
///
/// Given a signature of the basis file and our updated file, creates the
/// delta that specifies how to reconstruct the updated file out of basis
/// blocks and literal bytes. The `chunk_size` must be the same as the one
/// used when creating the signature.
pub fn compute_delta_to_our_file(
    signature: FileSignature,
    updated_file: &[u8],
    chunk_size: usize,
) -> (delta: Delta)
    requires
        chunk_size >= 1,
        signature.wf(),
    ensures
        delta.is_delta_of(
            signature.strong_hashes@,
            signature.rolling_hashes@,
            updated_file@,
            chunk_size as nat,
        ),
        tokens_valid(delta.content@, signature.rolling_hashes@.len()),
{
    let sig_len = signature.strong_hashes.len();
    proof {
        assert(signature.strong_hashes@.len() == sig_len);
        lemma_delta_tokens_valid(
            signature.strong_hashes@,
            signature.rolling_hashes@,
            updated_file@,
            chunk_size as nat,
            0,
        );
    }
    let n = updated_file.len();
    let b = chunk_size;
    let ghost bn = chunk_size as nat;
    let ghost u = updated_file@;

    // Rolling hashes of every full window, filled left to right with one
    // O(1) slide per position.
    let mut window_hashes: Vec<u64> = Vec::new();
    if b <= n {
        let first = &updated_file[0..b];
        let mut roller = RollingHash::from_initial_bytes(first);
        proof {
            assert(first@ =~= window_of(u, bn, 0));
        }
        window_hashes.push(roller.get_current_hash());
        let mut j: usize = 1;
        while j <= n - b
            invariant
                1 <= j <= n - b + 1,
                b >= 1,
                b <= n,
                bn == b as nat,
                n == u.len(),
                u == updated_file@,
                window_hashes@.len() == j,
                roller.wf(window_of(u, bn, (j - 1) as nat)),
                forall|t: int|
                    0 <= t < j ==> window_hashes@[t] == rolling_hash_of(
                        window_of(u, bn, t as nat),
                    ),
            decreases n - b + 1 - j,
        {
            let lead = updated_file[j - 1];
            let trail = updated_file[j + b - 1];
            roller.advance(lead, trail);
            proof {
                let prev = window_of(u, bn, (j - 1) as nat);
                assert(prev[0] == lead);
                assert(prev.subrange(1, prev.len() as int).push(trail) =~= window_of(
                    u,
                    bn,
                    j as nat,
                ));
            }
            window_hashes.push(roller.get_current_hash());
            j = j + 1;
        }
    }
    assert(window_hashes@.len() == if bn <= u.len() {
        u.len() - bn + 1
    } else {
        0int
    });

    // The candidate index: rolling hash of a basis chunk to the index of
    // the last chunk bearing it.
    let rh_len = signature.rolling_hashes.len();
    let ghost rolling = signature.rolling_hashes@;
    let ghost strong = signature.strong_hashes@;
    let mut index_map: HashMap<u64, usize> = HashMap::new();
    let mut idx: usize = 0;
    while idx < rh_len
        invariant
            idx <= rh_len,
            rh_len == rolling.len(),
            rolling == signature.rolling_hashes@,
            vstd::std_specs::hash::obeys_key_model::<u64>(),
            forall|h: u64| #[trigger]
                index_map@.contains_key(h) <==> rh_lookup(rolling.take(idx as int), h) is Some,
            forall|h: u64| #[trigger]
                index_map@.contains_key(h) ==> rh_lookup(rolling.take(idx as int), h)
                    == Option::Some(index_map@[h] as int),
        decreases rh_len - idx,
    {
        let hash_here = signature.rolling_hashes[idx];
        index_map.insert(hash_here, idx);
        proof {
            let taken = rolling.take(idx + 1);
            assert(taken.drop_last() =~= rolling.take(idx as int));
            assert(taken.last() == hash_here);
        }
        idx = idx + 1;
    }
    proof {
        assert(rolling.take(rh_len as int) =~= rolling);
    }

    // The scan.
    let mut tokens: Vec<Token> = Vec::new();
    let mut i: usize = 0;
    while i < n
        invariant
            i <= n,
            b >= 1,
            bn == b as nat,
            n == u.len(),
            u == updated_file@,
            rolling == signature.rolling_hashes@,
            strong == signature.strong_hashes@,
            strong.len() == rolling.len(),
            window_hashes@.len() == if bn <= u.len() {
                u.len() - bn + 1
            } else {
                0int
            },
            forall|t: int|
                0 <= t < window_hashes@.len() ==> window_hashes@[t] == rolling_hash_of(
                    window_of(u, bn, t as nat),
                ),
            forall|h: u64| #[trigger]
                index_map@.contains_key(h) <==> rh_lookup(rolling, h) is Some,
            forall|h: u64| #[trigger]
                index_map@.contains_key(h) ==> rh_lookup(rolling, h) == Option::Some(
                    index_map@[h] as int,
                ),
            delta_tokens_spec(strong, rolling, u, bn) == tokens@ + delta_tokens_from(
                strong,
                rolling,
                u,
                bn,
                i as nat,
            ),
        decreases n - i,
    {
        let ghost tokens_here = delta_tokens_from(strong, rolling, u, bn, i as nat);
        if b > n - i {
            // Trailing region: no full window fits, send the byte itself.
            let byte = updated_file[i];
            tokens.push(Token::ByteLiteral(byte));
            proof {
                assert(tokens_here == seq![Token::ByteLiteral(byte)] + delta_tokens_from(
                    strong,
                    rolling,
                    u,
                    bn,
                    (i + 1) as nat,
                ));
                lemma_stream_step(tokens@, Token::ByteLiteral(byte), strong, rolling, u, bn,
                    (i + 1) as nat);
            }
            i = i + 1;
        } else {
            let h = window_hashes[i];
            let ghost w = window_of(u, bn, i as nat);
            match index_map.get(&h) {
                Option::Some(kref) => {
                    let k = *kref;
                    proof {
                        lemma_rh_lookup_props(rolling, h);
                    }
                    let window_strong = calculate_strong_hash(&updated_file[i..i + b]);
                    proof {
                        assert(updated_file@.subrange(i as int, (i + b) as int) =~= w);
                    }
                    if window_strong == signature.strong_hashes[k] {
                        tokens.push(Token::BlockIndex(k));
                        proof {
                            assert(tokens_here == seq![Token::BlockIndex(k)]
                                + delta_tokens_from(strong, rolling, u, bn, (i + b) as nat));
                            lemma_stream_step(tokens@, Token::BlockIndex(k), strong, rolling, u,
                                bn, (i + b) as nat);
                        }
                        i = i + b;
                    } else {
                        let byte = updated_file[i];
                        tokens.push(Token::ByteLiteral(byte));
                        proof {
                            assert(tokens_here == seq![Token::ByteLiteral(byte)]
                                + delta_tokens_from(strong, rolling, u, bn, (i + 1) as nat));
                            lemma_stream_step(tokens@, Token::ByteLiteral(byte), strong, rolling,
                                u, bn, (i + 1) as nat);
                        }
                        i = i + 1;
                    }
                },
                Option::None => {
                    let byte = updated_file[i];
                    tokens.push(Token::ByteLiteral(byte));
                    proof {
                        assert(rh_lookup(rolling, rolling_hash_of(w)) is None);
                        assert(tokens_here == seq![Token::ByteLiteral(byte)] + delta_tokens_from(
                            strong,
                            rolling,
                            u,
                            bn,
                            (i + 1) as nat,
                        ));
                        lemma_stream_step(tokens@, Token::ByteLiteral(byte), strong, rolling, u,
                            bn, (i + 1) as nat);
                    }
                    i = i + 1;
                },
            }
        }
    }
    proof {
        assert(delta_tokens_from(strong, rolling, u, bn, i as nat) =~= Seq::<Token>::empty());
        assert(tokens@ + Seq::<Token>::empty() =~= tokens@);
    }
    Delta { content: tokens }
}

/// Moving one emitted token from the pending suffix to the output keeps
/// the decomposition of the full stream intact.
proof fn lemma_stream_step(
    done: Seq<Token>,
    t: Token,
    strong: Seq<u64>,
    rolling: Seq<u64>,
    updated: Seq<u8>,
    b: nat,
    next: nat,
)
    ensures
        done + (seq![t] + delta_tokens_from(strong, rolling, updated, b, next)) == done.push(t)
            + delta_tokens_from(strong, rolling, updated, b, next),
{
    assert(done + (seq![t] + delta_tokens_from(strong, rolling, updated, b, next)) =~= done.push(
        t,
    ) + delta_tokens_from(strong, rolling, updated, b, next));
}

/// Every block reference the scan emits names an entry of the candidate
/// index, so the stream is always valid against the signature's own
/// chunk count.
pub proof fn lemma_delta_tokens_valid(
    strong: Seq<u64>,
    rolling: Seq<u64>,
    updated: Seq<u8>,
    b: nat,
    i: nat,
)
    requires
        b >= 1,
        i <= updated.len(),
        strong.len() == rolling.len(),
        strong.len() <= usize::MAX,
    ensures
        tokens_valid(delta_tokens_from(strong, rolling, updated, b, i), rolling.len()),
    decreases updated.len() - i,
{
    let toks = delta_tokens_from(strong, rolling, updated, b, i);
    if i >= updated.len() {
    } else if i + b > updated.len() {
        lemma_delta_tokens_valid(strong, rolling, updated, b, i + 1);
        let rest = delta_tokens_from(strong, rolling, updated, b, i + 1);
        assert forall|j: int|
            0 <= j < toks.len() implies ((#[trigger] toks[j]) matches Token::BlockIndex(k) ==> (
        k as nat) < rolling.len()) by {
            if j >= 1 {
                assert(toks[j] == rest[j - 1]);
            }
        }
    } else {
        let w = window_of(updated, b, i);
        match rh_lookup(rolling, rolling_hash_of(w)) {
            Option::Some(k) => {
                lemma_rh_lookup_props(rolling, rolling_hash_of(w));
                if 0 <= k < strong.len() && strong[k] == strong_hash_of(w) {
                    lemma_delta_tokens_valid(strong, rolling, updated, b, i + b);
                    let rest = delta_tokens_from(strong, rolling, updated, b, i + b);
                    assert forall|j: int|
                        0 <= j < toks.len() implies ((#[trigger] toks[j]) matches
                    Token::BlockIndex(x) ==> (x as nat) < rolling.len()) by {
                        if j >= 1 {
                            assert(toks[j] == rest[j - 1]);
                        }
                    }
                } else {
                    lemma_delta_tokens_valid(strong, rolling, updated, b, i + 1);
                    let rest = delta_tokens_from(strong, rolling, updated, b, i + 1);
                    assert forall|j: int|
                        0 <= j < toks.len() implies ((#[trigger] toks[j]) matches
                    Token::BlockIndex(x) ==> (x as nat) < rolling.len()) by {
                        if j >= 1 {
                            assert(toks[j] == rest[j - 1]);
                        }
                    }
                }
            },
            Option::None => {
                lemma_delta_tokens_valid(strong, rolling, updated, b, i + 1);
                let rest = delta_tokens_from(strong, rolling, updated, b, i + 1);
                assert forall|j: int|
                    0 <= j < toks.len() implies ((#[trigger] toks[j]) matches Token::BlockIndex(
                x) ==> (x as nat) < rolling.len()) by {
                    if j >= 1 {
                        assert(toks[j] == rest[j - 1]);
                    }
                }
            },
        }
    }
}

/// The scan emits at most one token per byte of the updated file.
pub proof fn lemma_delta_tokens_count(
    strong: Seq<u64>,
    rolling: Seq<u64>,
    updated: Seq<u8>,
    b: nat,
    i: nat,
)
    requires
        b >= 1,
        i <= updated.len(),
    ensures
        delta_tokens_from(strong, rolling, updated, b, i).len() <= updated.len() - i,
    decreases updated.len() - i,
{
    if i >= updated.len() {
    } else if i + b > updated.len() {
        lemma_delta_tokens_count(strong, rolling, updated, b, i + 1);
    } else {
        let w = window_of(updated, b, i);
        match rh_lookup(rolling, rolling_hash_of(w)) {
            Option::Some(k) => {
                if 0 <= k < strong.len() && strong[k] == strong_hash_of(w) {
                    lemma_delta_tokens_count(strong, rolling, updated, b, i + b);
                } else {
                    lemma_delta_tokens_count(strong, rolling, updated, b, i + 1);
                }
            },
            Option::None => {
                lemma_delta_tokens_count(strong, rolling, updated, b, i + 1);
            },
        }
    }
}

} // verus!
