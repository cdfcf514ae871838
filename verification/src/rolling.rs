//! The rolling hash: a polynomial window hash over bytes with an O(1)
//! slide. The polynomial and its base are part of the wire contract: equal
//! windows yield equal hashes across runs and machines.

use vstd::arithmetic::div_mod::{
    lemma_add_mod_noop, lemma_mod_bound, lemma_mul_mod_noop_left, lemma_small_mod,
    lemma_sub_mod_noop,
};
use vstd::prelude::*;

verus! {

/// Base of the polynomial rolling hash. A window `w` of `n` bytes hashes to
/// `sum_i w[i] * HASH_BASE^(n-1-i) mod 2^64`.
pub const HASH_BASE: u64 = 257;

/// The rolling hash of a byte window, defined by Horner's rule modulo 2^64.
pub open spec fn rolling_hash_of(w: Seq<u8>) -> u64
    decreases w.len(),
{
    if w.len() == 0 {
        0u64
    } else {
        (((rolling_hash_of(w.drop_last()) as int) * (HASH_BASE as int) + w.last() as int)
            % 0x1_0000_0000_0000_0000) as u64
    }
}

/// `HASH_BASE^k mod 2^64`.
pub open spec fn pow_base(k: nat) -> u64
    decreases k,
{
    if k == 0 {
        1u64
    } else {
        (((pow_base((k - 1) as nat) as int) * (HASH_BASE as int)) % 0x1_0000_0000_0000_0000) as u64
    }
}

/// For `0 <= a < 2m`, reduction modulo `m` is a single conditional subtraction.
proof fn lemma_mod_one_fold(a: int, m: int)
    requires
        m > 0,
        0 <= a < 2 * m,
    ensures
        a % m == if a >= m {
            a - m
        } else {
            a
        },
{
    if a >= m {
        vstd::arithmetic::div_mod::lemma_mod_sub_multiples_vanish(a, m);
        lemma_small_mod((a - m) as nat, m as nat);
    } else {
        lemma_small_mod(a as nat, m as nat);
    }
}

/// For `-m <= a < m`, the Euclidean remainder is `a` itself or `a + m`.
proof fn lemma_mod_one_fold_neg(a: int, m: int)
    requires
        m > 0,
        -m <= a < m,
    ensures
        a % m == if a < 0 {
            a + m
        } else {
            a
        },
{
    if a < 0 {
        vstd::arithmetic::div_mod::lemma_mod_add_multiples_vanish(a, m);
        lemma_small_mod((a + m) as nat, m as nat);
    } else {
        lemma_small_mod(a as nat, m as nat);
    }
}

/// `((d % m) * b + c) % m == (d * b + c) % m` for `0 <= c < m`.
proof fn lemma_reduce_then_horner(d: int, b: int, c: int, m: int)
    requires
        m > 0,
        0 <= c < m,
    ensures
        ((d % m) * b + c) % m == (d * b + c) % m,
{
    lemma_mul_mod_noop_left(d, b, m);
    lemma_add_mod_noop((d % m) * b, c, m);
    lemma_add_mod_noop(d * b, c, m);
    lemma_small_mod(c as nat, m as nat);
}

/// Reducing both the minuend and the factor inside the subtrahend first
/// does not change the residue of `a - w * q`.
proof fn lemma_reduce_then_sub_mul(a: int, w: int, q: int, m: int)
    requires
        m > 0,
    ensures
        ((a % m) - w * (q % m)) % m == (a - w * q) % m,
{
    vstd::arithmetic::div_mod::lemma_mul_mod_noop_right(w, q, m);
    vstd::arithmetic::div_mod::lemma_sub_mod_noop_right(a % m, w * (q % m), m);
    lemma_sub_mod_noop(a, w * q, m);
    lemma_mod_bound(a, m);
    lemma_small_mod((a % m) as nat, m as nat);
}

/// Dropping the leading byte of a window removes its leading-power term
/// from the hash.
proof fn lemma_hash_drop_first(w: Seq<u8>)
    requires
        w.len() >= 1,
    ensures
        rolling_hash_of(w.drop_first()) as int == (rolling_hash_of(w) as int - (w[0] as int) * (
        pow_base((w.len() - 1) as nat) as int)) % 0x1_0000_0000_0000_0000,
    decreases w.len(),
{
    let m = 0x1_0000_0000_0000_0000int;
    let b = HASH_BASE as int;
    if w.len() == 1 {
        assert(w.drop_first() =~= Seq::<u8>::empty());
        assert(w.drop_last() =~= Seq::<u8>::empty());
        assert(rolling_hash_of(Seq::<u8>::empty()) == 0u64);
        assert(w.last() == w[0]);
        assert(rolling_hash_of(w) as int == (w[0] as int) % m);
        lemma_small_mod(w[0] as nat, m as nat);
        assert((w[0] as int - (w[0] as int) * (pow_base(0) as int)) % m == 0) by {
            assert(pow_base(0) == 1u64);
            assert(w[0] as int - (w[0] as int) * 1 == 0);
            lemma_small_mod(0nat, m as nat);
        }
    } else {
        let n = w.len() as int;
        let t = w.drop_last();
        let f = w.drop_first();
        lemma_hash_drop_first(t);
        assert(f.drop_last() =~= t.drop_first());
        let ht = rolling_hash_of(t) as int;
        let w0 = w[0] as int;
        let p2 = pow_base((n - 2) as nat) as int;
        let c = w.last() as int;
        assert(rolling_hash_of(t.drop_first()) as int == (ht - w0 * p2) % m);
        // unfold the hash of `f` through its last byte and resolve the
        // inner remainder
        assert(rolling_hash_of(f) as int == ((ht - w0 * p2) * b + c) % m) by {
            assert(rolling_hash_of(f) as int == ((rolling_hash_of(f.drop_last()) as int) * b + c)
                % m);
            lemma_reduce_then_horner(ht - w0 * p2, b, c, m);
        }
        assert((ht - w0 * p2) * b + c == (ht * b + c) - w0 * (p2 * b)) by (nonlinear_arith);
        // the claimed right-hand side reduces to the same residue
        assert((rolling_hash_of(w) as int - w0 * (pow_base((n - 1) as nat) as int)) % m == ((ht * b
            + c) - w0 * (p2 * b)) % m) by {
            assert(rolling_hash_of(w) as int == (ht * b + c) % m);
            assert(pow_base((n - 1) as nat) as int == (p2 * b) % m);
            lemma_reduce_then_sub_mul(ht * b + c, w0, p2 * b, m);
        }
    }
}

/// Sliding the window one byte to the right: drop the leading byte, append
/// the new trailing byte, and the hash follows by one subtraction, one
/// multiplication and one addition modulo 2^64.
proof fn lemma_hash_slide(w: Seq<u8>, c: u8)
    requires
        w.len() >= 1,
    ensures
        rolling_hash_of(w.drop_first().push(c)) as int == ((rolling_hash_of(w) as int - (
        w[0] as int) * (pow_base((w.len() - 1) as nat) as int)) * (HASH_BASE as int) + c as int)
            % 0x1_0000_0000_0000_0000,
{
    let m = 0x1_0000_0000_0000_0000int;
    let b = HASH_BASE as int;
    let f = w.drop_first();
    let g = f.push(c);
    assert(g.drop_last() =~= f);
    assert(rolling_hash_of(g) as int == ((rolling_hash_of(f) as int) * b + c as int) % m);
    lemma_hash_drop_first(w);
    let d = rolling_hash_of(w) as int - (w[0] as int) * (pow_base((w.len() - 1) as nat) as int);
    assert(rolling_hash_of(f) as int == d % m);
    lemma_reduce_then_horner(d, b, c as int, m);
}

/// Rolling-hash state over a window of fixed width: the current hash and
/// `HASH_BASE^(width-1)`, the weight of the window's leading byte.
pub struct RollingHash {
    hash: u64,
    pow: u64,
}

impl RollingHash {
    /// The hash held by this state.
    pub closed spec fn spec_hash(self) -> u64 {
        self.hash
    }

    /// The leading-byte weight held by this state.
    pub closed spec fn spec_pow(self) -> u64 {
        self.pow
    }

    /// The state faithfully summarizes `window`.
    pub open spec fn wf(self, window: Seq<u8>) -> bool {
        &&& window.len() >= 1
        &&& self.spec_hash() == rolling_hash_of(window)
        &&& self.spec_pow() == pow_base((window.len() - 1) as nat)
    }

    /// Initialize the state from a full window of bytes.
    pub fn from_initial_bytes(block: &[u8]) -> (h: RollingHash)
        requires
            block@.len() >= 1,
        ensures
            h.wf(block@),
    {
        let n = block.len();
        let mut hash: u64 = 0;
        let mut i: usize = 0;
        while i < n
            invariant
                i <= n,
                n == block@.len(),
                hash == rolling_hash_of(block@.take(i as int)),
            decreases n - i,
        {
            let byte = block[i];
            let next = hash.wrapping_mul(HASH_BASE).wrapping_add(byte as u64);
            proof {
                let m = 0x1_0000_0000_0000_0000int;
                let prefix = block@.take(i as int);
                let ext = block@.take(i + 1);
                assert(ext.drop_last() =~= prefix);
                assert(ext.last() == block@[i as int]);
                let hprod = (hash as int) * (HASH_BASE as int);
                assert(hash.wrapping_mul(HASH_BASE) as int == hprod % m);
                lemma_mod_bound(hprod, m);
                lemma_mod_one_fold(hprod % m + byte as int, m);
                assert((hprod % m + byte as int) % m == (hprod + byte as int) % m) by {
                    lemma_add_mod_noop(hprod, byte as int, m);
                    lemma_small_mod(byte as nat, m as nat);
                }
                assert(next as int == (hprod + byte as int) % m);
            }
            hash = next;
            i = i + 1;
        }
        proof {
            assert(block@.take(n as int) =~= block@);
        }
        let mut pow: u64 = 1;
        let mut j: usize = 1;
        while j < n
            invariant
                1 <= j <= n || (n == 0 && j == 1),
                pow == pow_base((j - 1) as nat),
            decreases n - j,
        {
            pow = pow.wrapping_mul(HASH_BASE);
            j = j + 1;
        }
        RollingHash { hash, pow }
    }

    /// Read the current hash value.
    pub fn get_current_hash(&self) -> (r: u64)
        ensures
            r == self.spec_hash(),
    {
        self.hash
    }

    /// Slide the window one byte to the right: `old_byte` leaves at the
    /// front, `new_byte` enters at the back. Constant time.
    pub fn advance(&mut self, old_byte: u8, new_byte: u8)
        ensures
            forall|w: Seq<u8>|
                old(self).wf(w) && w[0] == old_byte ==> final(self).wf(
                    w.subrange(1, w.len() as int).push(new_byte),
                ),
    {
        let lead = (old_byte as u64).wrapping_mul(self.pow);
        let next = self.hash.wrapping_sub(lead).wrapping_mul(HASH_BASE).wrapping_add(
            new_byte as u64,
        );
        proof {
            let m = 0x1_0000_0000_0000_0000int;
            let h = self.hash as int;
            let p = self.pow as int;
            let ob = old_byte as int;
            let nb = new_byte as int;
            let x1 = (ob * p) % m;
            assert(lead as int == x1);
            lemma_mod_bound(ob * p, m);
            lemma_mod_one_fold_neg(h - x1, m);
            let x2 = (h - x1) % m;
            assert(self.hash.wrapping_sub(lead) as int == x2);
            assert(x2 == (h - ob * p) % m) by {
                lemma_sub_mod_noop(h, ob * p, m);
                lemma_small_mod(h as nat, m as nat);
            }
            let x3 = (x2 * (HASH_BASE as int)) % m;
            assert(x3 == ((h - ob * p) * (HASH_BASE as int)) % m) by {
                lemma_mul_mod_noop_left(h - ob * p, HASH_BASE as int, m);
            }
            lemma_mod_bound(x2 * (HASH_BASE as int), m);
            lemma_mod_one_fold(x3 + nb, m);
            assert((x3 + nb) % m == ((h - ob * p) * (HASH_BASE as int) + nb) % m) by {
                lemma_add_mod_noop((h - ob * p) * (HASH_BASE as int), nb, m);
                lemma_small_mod(nb as nat, m as nat);
            }
            assert(next as int == ((h - ob * p) * (HASH_BASE as int) + nb) % m);
        }
        self.hash = next;
        proof {
            assert forall|w: Seq<u8>| old(self).wf(w) && w[0] == old_byte implies self.wf(
                w.subrange(1, w.len() as int).push(new_byte),
            ) by {
                lemma_hash_slide(w, new_byte);
                let slid = w.subrange(1, w.len() as int).push(new_byte);
                assert(w.drop_first() =~= w.subrange(1, w.len() as int));
                assert(slid.len() == w.len());
            }
        }
    }
}

} // verus!
