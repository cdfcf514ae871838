//! The wire format: a compact, self-describing tagged binary encoding with
//! map/array framing, minimal-width big-endian integers and string field
//! names. The signature is a two-entry map `{strong_hashes: [u64...],
//! rolling_hashes: [u64...]}`; the delta is a one-entry map `{content:
//! [token...]}` where each token is a one-entry map from its tag name to
//! its value. Decoding is proved to invert encoding.

use crate::delta::{Delta, Token};
use crate::signature::FileSignature;
use vstd::arithmetic::div_mod::{
    lemma_fundamental_div_mod, lemma_multiply_divide_lt, lemma_small_mod,
};
use vstd::prelude::*;

verus! {

/// `256^w`.
pub open spec fn pow256(w: nat) -> nat
    decreases w,
{
    if w == 0 {
        1
    } else {
        256 * pow256((w - 1) as nat)
    }
}

/// The `width` big-endian bytes of `v`: most significant first.
pub open spec fn be_bytes(v: nat, width: nat) -> Seq<u8>
    decreases width,
{
    if width == 0 {
        Seq::empty()
    } else {
        be_bytes(v / 256, (width - 1) as nat).push((v % 256) as u8)
    }
}

/// The value big-endian bytes stand for.
pub open spec fn be_value(s: Seq<u8>) -> nat
    decreases s.len(),
{
    if s.len() == 0 {
        0
    } else {
        be_value(s.drop_last()) * 256 + s.last() as nat
    }
}

/// Big-endian bytes have the stated width and read back to the value.
pub proof fn lemma_be_roundtrip(v: nat, width: nat)
    requires
        v < pow256(width),
    ensures
        be_bytes(v, width).len() == width,
        be_value(be_bytes(v, width)) == v,
    decreases width,
{
    if width > 0 {
        assert(pow256(width) == 256 * pow256((width - 1) as nat));
        lemma_multiply_divide_lt(v as int, 256, pow256((width - 1) as nat) as int);
        lemma_be_roundtrip(v / 256, (width - 1) as nat);
        let inner = be_bytes(v / 256, (width - 1) as nat);
        let all = be_bytes(v, width);
        assert(all.drop_last() =~= inner);
        lemma_fundamental_div_mod(v as int, 256);
        lemma_small_mod((v % 256) as nat, 256);
    }
}

/// A big-endian reading is bounded by the width's range.
pub proof fn lemma_be_value_bound(s: Seq<u8>)
    ensures
        be_value(s) < pow256(s.len()),
    decreases s.len(),
{
    if s.len() > 0 {
        lemma_be_value_bound(s.drop_last());
    }
}

/// A minimal-width unsigned integer: a one-byte value below 128 stands
/// alone; wider values carry a marker byte and their big-endian bytes.
pub open spec fn uint_enc(v: u64) -> Seq<u8> {
    if v < 0x80 {
        seq![v as u8]
    } else if v < 0x100 {
        seq![0xccu8] + be_bytes(v as nat, 1)
    } else if v < 0x10000 {
        seq![0xcdu8] + be_bytes(v as nat, 2)
    } else if v < 0x1_0000_0000 {
        seq![0xceu8] + be_bytes(v as nat, 4)
    } else {
        seq![0xcfu8] + be_bytes(v as nat, 8)
    }
}

/// An array header: a fixed marker for short arrays, else a marker and a
/// big-endian length. Lengths are capped at 2^32 - 1 by the format.
pub open spec fn array_header_enc(n: nat) -> Seq<u8>
    recommends
        n < 0x1_0000_0000,
{
    if n < 16 {
        seq![(0x90 + n) as u8]
    } else if n < 0x10000 {
        seq![0xdcu8] + be_bytes(n, 2)
    } else {
        seq![0xddu8] + be_bytes(n, 4)
    }
}

/// The field name `strong_hashes` as a tagged short string.
pub open spec fn key_strong() -> Seq<u8> {
    seq![0xadu8, 115u8, 116u8, 114u8, 111u8, 110u8, 103u8, 95u8, 104u8, 97u8, 115u8, 104u8, 101u8, 115u8]
}

/// The field name `rolling_hashes` as a tagged short string.
pub open spec fn key_rolling() -> Seq<u8> {
    seq![0xaeu8, 114u8, 111u8, 108u8, 108u8, 105u8, 110u8, 103u8, 95u8, 104u8, 97u8, 115u8, 104u8, 101u8, 115u8]
}

/// The field name `content` as a tagged short string.
pub open spec fn key_content() -> Seq<u8> {
    seq![0xa7u8, 99u8, 111u8, 110u8, 116u8, 101u8, 110u8, 116u8]
}

/// The tag name `BlockIndex` as a tagged short string.
pub open spec fn key_block_index() -> Seq<u8> {
    seq![0xaau8, 66u8, 108u8, 111u8, 99u8, 107u8, 73u8, 110u8, 100u8, 101u8, 120u8]
}

/// The tag name `ByteLiteral` as a tagged short string.
pub open spec fn key_byte_literal() -> Seq<u8> {
    seq![0xabu8, 66u8, 121u8, 116u8, 101u8, 76u8, 105u8, 116u8, 101u8, 114u8, 97u8, 108u8]
}

/// A run of unsigned integers, encoded one after the other.
pub open spec fn uints_enc(vs: Seq<u64>) -> Seq<u8>
    decreases vs.len(),
{
    if vs.len() == 0 {
        Seq::empty()
    } else {
        uint_enc(vs[0]) + uints_enc(vs.drop_first())
    }
}

/// One token: a one-entry map from the variant's tag name to its value.
pub open spec fn token_enc(t: Token) -> Seq<u8> {
    match t {
        Token::BlockIndex(k) => seq![0x81u8] + key_block_index() + uint_enc(k as u64),
        Token::ByteLiteral(x) => seq![0x81u8] + key_byte_literal() + uint_enc(x as u64),
    }
}

/// A run of tokens, encoded one after the other.
pub open spec fn tokens_enc(ts: Seq<Token>) -> Seq<u8>
    decreases ts.len(),
{
    if ts.len() == 0 {
        Seq::empty()
    } else {
        token_enc(ts[0]) + tokens_enc(ts.drop_first())
    }
}

/// The signature artifact: a two-entry map holding the two hash arrays
/// under their field names.
pub open spec fn sig_enc(strong: Seq<u64>, rolling: Seq<u64>) -> Seq<u8> {
    seq![0x82u8] + key_strong() + array_header_enc(strong.len()) + uints_enc(strong)
        + key_rolling() + array_header_enc(rolling.len()) + uints_enc(rolling)
}

/// The delta artifact: a one-entry map holding the token array under its
/// field name.
pub open spec fn delta_enc(ts: Seq<Token>) -> Seq<u8> {
    seq![0x81u8] + key_content() + array_header_enc(ts.len()) + tokens_enc(ts)
}

/// Appending one more integer extends the run's encoding at its end.
pub proof fn lemma_uints_enc_push(vs: Seq<u64>, v: u64)
    ensures
        uints_enc(vs.push(v)) == uints_enc(vs) + uint_enc(v),
    decreases vs.len(),
{
    if vs.len() == 0 {
        assert(vs.push(v)[0] == v);
        assert(vs =~= Seq::<u64>::empty());
        assert(vs.push(v).drop_first() =~= Seq::<u64>::empty());
        assert(uints_enc(vs.push(v)) =~= uints_enc(vs) + uint_enc(v));
    } else {
        assert(vs.push(v)[0] == vs[0]);
        assert(vs.push(v).drop_first() =~= vs.drop_first().push(v));
        lemma_uints_enc_push(vs.drop_first(), v);
        assert(uint_enc(vs[0]) + (uints_enc(vs.drop_first()) + uint_enc(v)) =~= (uint_enc(vs[0])
            + uints_enc(vs.drop_first())) + uint_enc(v));
    }
}

/// Appending one more token extends the run's encoding at its end.
pub proof fn lemma_tokens_enc_push(ts: Seq<Token>, t: Token)
    ensures
        tokens_enc(ts.push(t)) == tokens_enc(ts) + token_enc(t),
    decreases ts.len(),
{
    if ts.len() == 0 {
        assert(ts.push(t)[0] == t);
        assert(ts =~= Seq::<Token>::empty());
        assert(ts.push(t).drop_first() =~= Seq::<Token>::empty());
        assert(tokens_enc(ts.push(t)) =~= tokens_enc(ts) + token_enc(t));
    } else {
        assert(ts.push(t)[0] == ts[0]);
        assert(ts.push(t).drop_first() =~= ts.drop_first().push(t));
        lemma_tokens_enc_push(ts.drop_first(), t);
        assert(token_enc(ts[0]) + (tokens_enc(ts.drop_first()) + token_enc(t)) =~= (token_enc(
            ts[0],
        ) + tokens_enc(ts.drop_first())) + token_enc(t));
    }
}

/// The numeric reach of each width the format uses.
pub proof fn lemma_pow256_values()
    ensures
        pow256(0) == 1,
        pow256(1) == 0x100,
        pow256(2) == 0x10000,
        pow256(4) == 0x1_0000_0000,
        pow256(8) == 0x1_0000_0000_0000_0000,
{
    assert(pow256(0) == 1);
    assert(pow256(1) == 0x100);
    assert(pow256(2) == 0x10000);
    assert(pow256(3) == 0x100_0000);
    assert(pow256(4) == 0x1_0000_0000);
    assert(pow256(5) == 0x100_0000_0000);
    assert(pow256(6) == 0x1_0000_0000_0000);
    assert(pow256(7) == 0x100_0000_0000_0000);
    assert(pow256(8) == 0x1_0000_0000_0000_0000);
}

/// Wider never reaches less.
pub proof fn lemma_pow256_monotonic(a: nat, c: nat)
    requires
        a <= c,
    ensures
        pow256(a) <= pow256(c),
    decreases c,
{
    if a < c {
        lemma_pow256_monotonic(a, (c - 1) as nat);
    }
}

/// Reads one unsigned integer at `pos`: either a bare one-byte value
/// below 128 or a width marker followed by big-endian bytes. Any width
/// whose value fits is accepted, as the encoding's readers usually do.
pub open spec fn uint_dec(s: Seq<u8>, pos: int) -> Option<(u64, int)> {
    if pos < 0 || pos >= s.len() {
        Option::None
    } else {
        let mk = s[pos];
        if mk < 0x80 {
            Option::Some((mk as u64, pos + 1))
        } else if mk == 0xcc && pos + 2 <= s.len() {
            Option::Some((be_value(s.subrange(pos + 1, pos + 2)) as u64, pos + 2))
        } else if mk == 0xcd && pos + 3 <= s.len() {
            Option::Some((be_value(s.subrange(pos + 1, pos + 3)) as u64, pos + 3))
        } else if mk == 0xce && pos + 5 <= s.len() {
            Option::Some((be_value(s.subrange(pos + 1, pos + 5)) as u64, pos + 5))
        } else if mk == 0xcf && pos + 9 <= s.len() {
            Option::Some((be_value(s.subrange(pos + 1, pos + 9)) as u64, pos + 9))
        } else {
            Option::None
        }
    }
}

/// Reads an array header at `pos`.
pub open spec fn array_header_dec(s: Seq<u8>, pos: int) -> Option<(nat, int)> {
    if pos < 0 || pos >= s.len() {
        Option::None
    } else {
        let mk = s[pos];
        if 0x90 <= mk <= 0x9f {
            Option::Some(((mk - 0x90) as nat, pos + 1))
        } else if mk == 0xdc && pos + 3 <= s.len() {
            Option::Some((be_value(s.subrange(pos + 1, pos + 3)), pos + 3))
        } else if mk == 0xdd && pos + 5 <= s.len() {
            Option::Some((be_value(s.subrange(pos + 1, pos + 5)), pos + 5))
        } else {
            Option::None
        }
    }
}

/// Reads `count` unsigned integers one after the other.
pub open spec fn uints_dec(s: Seq<u8>, pos: int, count: nat) -> Option<(Seq<u64>, int)>
    decreases count,
{
    if count == 0 {
        Option::Some((Seq::empty(), pos))
    } else {
        match uint_dec(s, pos) {
            Option::None => Option::None,
            Option::Some((v, p)) => match uints_dec(s, p, (count - 1) as nat) {
                Option::None => Option::None,
                Option::Some((vs, p2)) => Option::Some((seq![v] + vs, p2)),
            },
        }
    }
}

/// Reads one token: a one-entry map whose key names the variant.
pub open spec fn token_dec(s: Seq<u8>, pos: int) -> Option<(Token, int)> {
    if pos < 0 || pos >= s.len() || s[pos] != 0x81 {
        Option::None
    } else if pos + 12 <= s.len() && s.subrange(pos + 1, pos + 12) == key_block_index() {
        match uint_dec(s, pos + 12) {
            Option::Some((v, p)) => if v <= usize::MAX as u64 {
                Option::Some((Token::BlockIndex(v as usize), p))
            } else {
                Option::None
            },
            Option::None => Option::None,
        }
    } else if pos + 13 <= s.len() && s.subrange(pos + 1, pos + 13) == key_byte_literal() {
        match uint_dec(s, pos + 13) {
            Option::Some((v, p)) => if v <= 0xff {
                Option::Some((Token::ByteLiteral(v as u8), p))
            } else {
                Option::None
            },
            Option::None => Option::None,
        }
    } else {
        Option::None
    }
}

/// Reads `count` tokens one after the other.
pub open spec fn tokens_dec(s: Seq<u8>, pos: int, count: nat) -> Option<(Seq<Token>, int)>
    decreases count,
{
    if count == 0 {
        Option::Some((Seq::empty(), pos))
    } else {
        match token_dec(s, pos) {
            Option::None => Option::None,
            Option::Some((t, p)) => match tokens_dec(s, p, (count - 1) as nat) {
                Option::None => Option::None,
                Option::Some((ts, p2)) => Option::Some((seq![t] + ts, p2)),
            },
        }
    }
}

/// Reads a whole signature artifact: exactly a two-entry map with the two
/// hash arrays under their field names, nothing trailing, and the two
/// arrays of one length (anything else is a decoding error).
pub open spec fn sig_dec(s: Seq<u8>) -> Option<(Seq<u64>, Seq<u64>)> {
    if s.len() < 1 || s[0] != 0x82 {
        Option::None
    } else if !(15 <= s.len() && s.subrange(1, 15) == key_strong()) {
        Option::None
    } else {
        match array_header_dec(s, 15) {
            Option::None => Option::None,
            Option::Some((n1, p1)) => match uints_dec(s, p1, n1) {
                Option::None => Option::None,
                Option::Some((strong, p2)) => if !(p2 + 15 <= s.len() && s.subrange(p2, p2 + 15)
                    == key_rolling()) {
                    Option::None
                } else {
                    match array_header_dec(s, p2 + 15) {
                        Option::None => Option::None,
                        Option::Some((n2, p3)) => match uints_dec(s, p3, n2) {
                            Option::None => Option::None,
                            Option::Some((rolling, p4)) => if p4 == s.len() && strong.len()
                                == rolling.len() {
                                Option::Some((strong, rolling))
                            } else {
                                Option::None
                            },
                        },
                    }
                },
            },
        }
    }
}

/// Reads a whole delta artifact: exactly a one-entry map with the token
/// array under its field name and nothing trailing.
pub open spec fn delta_dec(s: Seq<u8>) -> Option<Seq<Token>> {
    if s.len() < 1 || s[0] != 0x81 {
        Option::None
    } else if !(9 <= s.len() && s.subrange(1, 9) == key_content()) {
        Option::None
    } else {
        match array_header_dec(s, 9) {
            Option::None => Option::None,
            Option::Some((n, p1)) => match tokens_dec(s, p1, n) {
                Option::None => Option::None,
                Option::Some((ts, p2)) => if p2 == s.len() {
                    Option::Some(ts)
                } else {
                    Option::None
                },
            },
        }
    }
}

/// A piece of a located whole is located at its offset.
pub proof fn lemma_chunk_within(s: Seq<u8>, pos: int, whole: Seq<u8>, off: int, part: Seq<u8>)
    requires
        0 <= pos,
        pos + whole.len() <= s.len(),
        s.subrange(pos, pos + whole.len() as int) == whole,
        0 <= off,
        off + part.len() <= whole.len(),
        part == whole.subrange(off, off + part.len() as int),
    ensures
        s.subrange(pos + off, pos + off + part.len() as int) == part,
{
    assert(s.subrange(pos + off, pos + off + part.len() as int) =~= part) by {
        assert forall|j: int| 0 <= j < part.len() implies s.subrange(
            pos + off,
            pos + off + part.len() as int,
        )[j] == part[j] by {
            assert(s.subrange(pos, pos + whole.len() as int)[off + j] == whole[off + j]);
            assert(whole.subrange(off, off + part.len() as int)[j] == whole[off + j]);
        }
    }
}

/// Reading back one encoded integer recovers it, wherever it stands.
pub proof fn lemma_uint_enc_dec(s: Seq<u8>, pos: int, v: u64)
    requires
        0 <= pos,
        pos + uint_enc(v).len() <= s.len(),
        s.subrange(pos, pos + uint_enc(v).len() as int) == uint_enc(v),
    ensures
        uint_dec(s, pos) == Option::Some((v, pos + uint_enc(v).len())),
{
    let e = uint_enc(v);
    lemma_pow256_values();
    assert(s[pos] == e[0]) by {
        assert(s.subrange(pos, pos + e.len() as int)[0] == s[pos]);
    }
    if v < 0x80 {
    } else if v < 0x100 {
        lemma_be_roundtrip(v as nat, 1);
        assert(be_bytes(v as nat, 1) =~= e.subrange(1, 2));
        lemma_chunk_within(s, pos, e, 1, be_bytes(v as nat, 1));
    } else if v < 0x10000 {
        lemma_be_roundtrip(v as nat, 2);
        assert(be_bytes(v as nat, 2) =~= e.subrange(1, 3));
        lemma_chunk_within(s, pos, e, 1, be_bytes(v as nat, 2));
    } else if v < 0x1_0000_0000 {
        lemma_be_roundtrip(v as nat, 4);
        assert(be_bytes(v as nat, 4) =~= e.subrange(1, 5));
        lemma_chunk_within(s, pos, e, 1, be_bytes(v as nat, 4));
    } else {
        lemma_be_roundtrip(v as nat, 8);
        assert(be_bytes(v as nat, 8) =~= e.subrange(1, 9));
        lemma_chunk_within(s, pos, e, 1, be_bytes(v as nat, 8));
    }
}

/// Reading back one encoded array header recovers the length.
pub proof fn lemma_array_header_enc_dec(s: Seq<u8>, pos: int, n: nat)
    requires
        0 <= pos,
        n < 0x1_0000_0000,
        pos + array_header_enc(n).len() <= s.len(),
        s.subrange(pos, pos + array_header_enc(n).len() as int) == array_header_enc(n),
    ensures
        array_header_dec(s, pos) == Option::Some((n, pos + array_header_enc(n).len())),
{
    let e = array_header_enc(n);
    lemma_pow256_values();
    assert(s[pos] == e[0]) by {
        assert(s.subrange(pos, pos + e.len() as int)[0] == s[pos]);
    }
    if n < 16 {
    } else if n < 0x10000 {
        lemma_be_roundtrip(n, 2);
        assert(be_bytes(n, 2) =~= e.subrange(1, 3));
        lemma_chunk_within(s, pos, e, 1, be_bytes(n, 2));
    } else {
        lemma_be_roundtrip(n, 4);
        assert(be_bytes(n, 4) =~= e.subrange(1, 5));
        lemma_chunk_within(s, pos, e, 1, be_bytes(n, 4));
    }
}

/// Reading back an encoded run of integers recovers the run.
pub proof fn lemma_uints_enc_dec(s: Seq<u8>, pos: int, vs: Seq<u64>)
    requires
        0 <= pos,
        pos + uints_enc(vs).len() <= s.len(),
        s.subrange(pos, pos + uints_enc(vs).len() as int) == uints_enc(vs),
    ensures
        uints_dec(s, pos, vs.len()) == Option::Some((vs, pos + uints_enc(vs).len())),
    decreases vs.len(),
{
    if vs.len() == 0 {
        assert(vs =~= Seq::<u64>::empty());
    } else {
        let head = uint_enc(vs[0]);
        let tail = uints_enc(vs.drop_first());
        assert(uints_enc(vs) == head + tail);
        assert(s.subrange(pos, pos + head.len() as int) =~= head) by {
            assert forall|j: int| 0 <= j < head.len() implies s.subrange(
                pos,
                pos + head.len() as int,
            )[j] == head[j] by {
                assert(s.subrange(pos, pos + uints_enc(vs).len() as int)[j] == (head + tail)[j]);
            }
        }
        lemma_uint_enc_dec(s, pos, vs[0]);
        let mid = pos + head.len() as int;
        assert(s.subrange(mid, mid + tail.len() as int) =~= tail) by {
            assert forall|j: int| 0 <= j < tail.len() implies s.subrange(
                mid,
                mid + tail.len() as int,
            )[j] == tail[j] by {
                assert(s.subrange(pos, pos + uints_enc(vs).len() as int)[head.len() + j] == (head
                    + tail)[head.len() + j]);
            }
        }
        lemma_uints_enc_dec(s, mid, vs.drop_first());
        assert(seq![vs[0]] + vs.drop_first() =~= vs);
    }
}

/// Reading back one encoded token recovers it.
pub proof fn lemma_token_enc_dec(s: Seq<u8>, pos: int, t: Token)
    requires
        0 <= pos,
        pos + token_enc(t).len() <= s.len(),
        s.subrange(pos, pos + token_enc(t).len() as int) == token_enc(t),
    ensures
        token_dec(s, pos) == Option::Some((t, pos + token_enc(t).len())),
{
    let e = token_enc(t);
    assert(s[pos] == e[0]) by {
        assert(s.subrange(pos, pos + e.len() as int)[0] == s[pos]);
    }
    match t {
        Token::BlockIndex(k) => {
            let key = key_block_index();
            assert(s.subrange(pos + 1, pos + 12) =~= key) by {
                assert forall|j: int| 0 <= j < 11 implies s.subrange(pos + 1, pos + 12)[j]
                    == key[j] by {
                    assert(s.subrange(pos, pos + e.len() as int)[1 + j] == e[1 + j]);
                }
            }
            let ue = uint_enc(k as u64);
            assert(s.subrange(pos + 12, pos + 12 + ue.len() as int) =~= ue) by {
                assert forall|j: int| 0 <= j < ue.len() implies s.subrange(
                    pos + 12,
                    pos + 12 + ue.len() as int,
                )[j] == ue[j] by {
                    assert(s.subrange(pos, pos + e.len() as int)[12 + j] == e[12 + j]);
                }
            }
            lemma_uint_enc_dec(s, pos + 12, k as u64);
        },
        Token::ByteLiteral(x) => {
            let key = key_byte_literal();
            // the two tag names differ in their first byte, so the block
            // branch cannot fire
            assert(s[pos + 1] == e[1]) by {
                assert(s.subrange(pos, pos + e.len() as int)[1] == e[1]);
            }
            assert(e[1] == 0xab);
            if pos + 12 <= s.len() && s.subrange(pos + 1, pos + 12) == key_block_index() {
                assert(s.subrange(pos + 1, pos + 12)[0] == 0xaa);
                assert(false);
            }
            assert(s.subrange(pos + 1, pos + 13) =~= key) by {
                assert forall|j: int| 0 <= j < 12 implies s.subrange(pos + 1, pos + 13)[j]
                    == key[j] by {
                    assert(s.subrange(pos, pos + e.len() as int)[1 + j] == e[1 + j]);
                }
            }
            let ue = uint_enc(x as u64);
            assert(s.subrange(pos + 13, pos + 13 + ue.len() as int) =~= ue) by {
                assert forall|j: int| 0 <= j < ue.len() implies s.subrange(
                    pos + 13,
                    pos + 13 + ue.len() as int,
                )[j] == ue[j] by {
                    assert(s.subrange(pos, pos + e.len() as int)[13 + j] == e[13 + j]);
                }
            }
            lemma_uint_enc_dec(s, pos + 13, x as u64);
        },
    }
}

/// Reading back an encoded run of tokens recovers the run.
pub proof fn lemma_tokens_enc_dec(s: Seq<u8>, pos: int, ts: Seq<Token>)
    requires
        0 <= pos,
        pos + tokens_enc(ts).len() <= s.len(),
        s.subrange(pos, pos + tokens_enc(ts).len() as int) == tokens_enc(ts),
    ensures
        tokens_dec(s, pos, ts.len()) == Option::Some((ts, pos + tokens_enc(ts).len())),
    decreases ts.len(),
{
    if ts.len() == 0 {
        assert(ts =~= Seq::<Token>::empty());
    } else {
        let head = token_enc(ts[0]);
        let tail = tokens_enc(ts.drop_first());
        assert(tokens_enc(ts) == head + tail);
        assert(s.subrange(pos, pos + head.len() as int) =~= head) by {
            assert forall|j: int| 0 <= j < head.len() implies s.subrange(
                pos,
                pos + head.len() as int,
            )[j] == head[j] by {
                assert(s.subrange(pos, pos + tokens_enc(ts).len() as int)[j] == (head + tail)[j]);
            }
        }
        lemma_token_enc_dec(s, pos, ts[0]);
        let mid = pos + head.len() as int;
        assert(s.subrange(mid, mid + tail.len() as int) =~= tail) by {
            assert forall|j: int| 0 <= j < tail.len() implies s.subrange(
                mid,
                mid + tail.len() as int,
            )[j] == tail[j] by {
                assert(s.subrange(pos, pos + tokens_enc(ts).len() as int)[head.len() + j] == (head
                    + tail)[head.len() + j]);
            }
        }
        lemma_tokens_enc_dec(s, mid, ts.drop_first());
        assert(seq![ts[0]] + ts.drop_first() =~= ts);
    }
}

/// Serialization round-trip for the signature artifact: decoding an
/// encoding yields the arrays that were encoded.
pub proof fn lemma_sig_enc_dec(strong: Seq<u64>, rolling: Seq<u64>)
    requires
        strong.len() == rolling.len(),
        strong.len() < 0x1_0000_0000,
    ensures
        sig_dec(sig_enc(strong, rolling)) == Option::Some((strong, rolling)),
{
    let s = sig_enc(strong, rolling);
    let h1 = array_header_enc(strong.len());
    let u1 = uints_enc(strong);
    let h2 = array_header_enc(rolling.len());
    let u2 = uints_enc(rolling);
    let q2 = 15 + h1.len() as int;
    let q3 = q2 + u1.len() as int;
    let q4 = q3 + 15;
    let q5 = q4 + h2.len() as int;
    assert(s.len() == q5 + u2.len());
    assert(s[0] == 0x82);
    assert(s.subrange(1, 15) =~= key_strong());
    assert(s.subrange(15, q2) =~= h1);
    lemma_array_header_enc_dec(s, 15, strong.len());
    assert(s.subrange(q2, q3) =~= u1);
    lemma_uints_enc_dec(s, q2, strong);
    assert(s.subrange(q3, q4) =~= key_rolling());
    assert(s.subrange(q4, q5) =~= h2);
    lemma_array_header_enc_dec(s, q4, rolling.len());
    assert(s.subrange(q5, q5 + u2.len() as int) =~= u2);
    lemma_uints_enc_dec(s, q5, rolling);
}

/// Serialization round-trip for the delta artifact.
pub proof fn lemma_delta_enc_dec(ts: Seq<Token>)
    requires
        ts.len() < 0x1_0000_0000,
    ensures
        delta_dec(delta_enc(ts)) == Option::Some(ts),
{
    let s = delta_enc(ts);
    let h = array_header_enc(ts.len());
    let body = tokens_enc(ts);
    let q1 = 9 + h.len() as int;
    assert(s.len() == q1 + body.len());
    assert(s[0] == 0x81);
    assert(s.subrange(1, 9) =~= key_content());
    assert(s.subrange(9, q1) =~= h);
    lemma_array_header_enc_dec(s, 9, ts.len());
    assert(s.subrange(q1, q1 + body.len() as int) =~= body);
    lemma_tokens_enc_dec(s, q1, ts);
}

/// Why a stream of bytes could not be decoded: which artifact's shape it
/// failed to have.
#[derive(Debug, PartialEq, Eq, Clone, Copy)]
pub enum DecodeError {
    /// The bytes are not a valid signature artifact.
    Signature,
    /// The bytes are not a valid delta artifact.
    Delta,
}

fn push_be(out: &mut Vec<u8>, v: u64, width: usize)
    ensures
        final(out)@ == old(out)@ + be_bytes(v as nat, width as nat),
    decreases width,
{
    if width == 0 {
        proof {
            assert(out@ =~= old(out)@ + be_bytes(v as nat, 0));
        }
    } else {
        push_be(out, v / 256, width - 1);
        out.push((v % 256) as u8);
        proof {
            assert(out@ =~= old(out)@ + be_bytes(v as nat, width as nat));
        }
    }
}

fn push_uint(out: &mut Vec<u8>, v: u64)
    ensures
        final(out)@ == old(out)@ + uint_enc(v),
{
    if v < 0x80 {
        out.push(v as u8);
        proof {
            assert(out@ =~= old(out)@ + uint_enc(v));
        }
    } else if v < 0x100 {
        out.push(0xcc);
        push_be(out, v, 1);
        proof {
            assert(out@ =~= old(out)@ + uint_enc(v));
        }
    } else if v < 0x10000 {
        out.push(0xcd);
        push_be(out, v, 2);
        proof {
            assert(out@ =~= old(out)@ + uint_enc(v));
        }
    } else if v < 0x1_0000_0000 {
        out.push(0xce);
        push_be(out, v, 4);
        proof {
            assert(out@ =~= old(out)@ + uint_enc(v));
        }
    } else {
        out.push(0xcf);
        push_be(out, v, 8);
        proof {
            assert(out@ =~= old(out)@ + uint_enc(v));
        }
    }
}

fn push_array_header(out: &mut Vec<u8>, n: usize)
    requires
        n < 0x1_0000_0000,
    ensures
        final(out)@ == old(out)@ + array_header_enc(n as nat),
{
    if n < 16 {
        out.push(0x90 + n as u8);
        proof {
            assert(out@ =~= old(out)@ + array_header_enc(n as nat));
        }
    } else if n < 0x10000 {
        out.push(0xdc);
        push_be(out, n as u64, 2);
        proof {
            assert(out@ =~= old(out)@ + array_header_enc(n as nat));
        }
    } else {
        out.push(0xdd);
        push_be(out, n as u64, 4);
        proof {
            assert(out@ =~= old(out)@ + array_header_enc(n as nat));
        }
    }
}

fn push_key_strong(out: &mut Vec<u8>)
    ensures
        final(out)@ == old(out)@ + key_strong(),
{
    out.push(0xad);
    out.push(115);
    out.push(116);
    out.push(114);
    out.push(111);
    out.push(110);
    out.push(103);
    out.push(95);
    out.push(104);
    out.push(97);
    out.push(115);
    out.push(104);
    out.push(101);
    out.push(115);
    proof {
        assert(out@ =~= old(out)@ + key_strong());
    }
}

fn push_key_rolling(out: &mut Vec<u8>)
    ensures
        final(out)@ == old(out)@ + key_rolling(),
{
    out.push(0xae);
    out.push(114);
    out.push(111);
    out.push(108);
    out.push(108);
    out.push(105);
    out.push(110);
    out.push(103);
    out.push(95);
    out.push(104);
    out.push(97);
    out.push(115);
    out.push(104);
    out.push(101);
    out.push(115);
    proof {
        assert(out@ =~= old(out)@ + key_rolling());
    }
}

fn push_key_content(out: &mut Vec<u8>)
    ensures
        final(out)@ == old(out)@ + key_content(),
{
    out.push(0xa7);
    out.push(99);
    out.push(111);
    out.push(110);
    out.push(116);
    out.push(101);
    out.push(110);
    out.push(116);
    proof {
        assert(out@ =~= old(out)@ + key_content());
    }
}

fn push_key_block_index(out: &mut Vec<u8>)
    ensures
        final(out)@ == old(out)@ + key_block_index(),
{
    out.push(0xaa);
    out.push(66);
    out.push(108);
    out.push(111);
    out.push(99);
    out.push(107);
    out.push(73);
    out.push(110);
    out.push(100);
    out.push(101);
    out.push(120);
    proof {
        assert(out@ =~= old(out)@ + key_block_index());
    }
}

fn push_key_byte_literal(out: &mut Vec<u8>)
    ensures
        final(out)@ == old(out)@ + key_byte_literal(),
{
    out.push(0xab);
    out.push(66);
    out.push(121);
    out.push(116);
    out.push(101);
    out.push(76);
    out.push(105);
    out.push(116);
    out.push(101);
    out.push(114);
    out.push(97);
    out.push(108);
    proof {
        assert(out@ =~= old(out)@ + key_byte_literal());
    }
}

fn push_uints(out: &mut Vec<u8>, vs: &Vec<u64>)
    ensures
        final(out)@ == old(out)@ + uints_enc(vs@),
{
    let mut i: usize = 0;
    proof {
        assert(out@ =~= old(out)@ + uints_enc(vs@.take(0int)));
    }
    while i < vs.len()
        invariant
            i <= vs@.len(),
            out@ == old(out)@ + uints_enc(vs@.take(i as int)),
        decreases vs@.len() - i,
    {
        push_uint(out, vs[i]);
        proof {
            assert(vs@.take(i + 1) =~= vs@.take(i as int).push(vs@[i as int]));
            lemma_uints_enc_push(vs@.take(i as int), vs@[i as int]);
            assert((old(out)@ + uints_enc(vs@.take(i as int))) + uint_enc(vs@[i as int]) =~= old(
                out,
            )@ + uints_enc(vs@.take(i + 1)));
        }
        i = i + 1;
    }
    proof {
        assert(vs@.take(vs@.len() as int) =~= vs@);
    }
}

fn push_token(out: &mut Vec<u8>, t: Token)
    ensures
        final(out)@ == old(out)@ + token_enc(t),
{
    match t {
        Token::BlockIndex(k) => {
            out.push(0x81);
            push_key_block_index(out);
            push_uint(out, k as u64);
            proof {
                assert(out@ =~= old(out)@ + token_enc(t));
            }
        },
        Token::ByteLiteral(x) => {
            out.push(0x81);
            push_key_byte_literal(out);
            push_uint(out, x as u64);
            proof {
                assert(out@ =~= old(out)@ + token_enc(t));
            }
        },
    }
}

fn push_tokens(out: &mut Vec<u8>, ts: &Vec<Token>)
    ensures
        final(out)@ == old(out)@ + tokens_enc(ts@),
{
    let mut i: usize = 0;
    proof {
        assert(out@ =~= old(out)@ + tokens_enc(ts@.take(0int)));
    }
    while i < ts.len()
        invariant
            i <= ts@.len(),
            out@ == old(out)@ + tokens_enc(ts@.take(i as int)),
        decreases ts@.len() - i,
    {
        push_token(out, ts[i]);
        proof {
            assert(ts@.take(i + 1) =~= ts@.take(i as int).push(ts@[i as int]));
            lemma_tokens_enc_push(ts@.take(i as int), ts@[i as int]);
            assert((old(out)@ + tokens_enc(ts@.take(i as int))) + token_enc(ts@[i as int]) =~= old(
                out,
            )@ + tokens_enc(ts@.take(i + 1)));
        }
        i = i + 1;
    }
    proof {
        assert(ts@.take(ts@.len() as int) =~= ts@);
    }
}

impl FileSignature {
    /// Serializes this signature into its wire form.
    pub fn to_bytes(&self) -> (r: Vec<u8>)
        requires
            self.strong_hashes@.len() < 0x1_0000_0000,
            self.rolling_hashes@.len() < 0x1_0000_0000,
        ensures
            r@ == sig_enc(self.strong_hashes@, self.rolling_hashes@),
    {
        let mut out: Vec<u8> = Vec::new();
        out.push(0x82);
        push_key_strong(&mut out);
        push_array_header(&mut out, self.strong_hashes.len());
        push_uints(&mut out, &self.strong_hashes);
        push_key_rolling(&mut out);
        push_array_header(&mut out, self.rolling_hashes.len());
        push_uints(&mut out, &self.rolling_hashes);
        proof {
            assert(out@ =~= sig_enc(self.strong_hashes@, self.rolling_hashes@));
        }
        out
    }
}

impl Delta {
    /// Serializes this delta into its wire form.
    pub fn to_bytes(&self) -> (r: Vec<u8>)
        requires
            self.content@.len() < 0x1_0000_0000,
        ensures
            r@ == delta_enc(self.content@),
    {
        let mut out: Vec<u8> = Vec::new();
        out.push(0x81);
        push_key_content(&mut out);
        push_array_header(&mut out, self.content.len());
        push_tokens(&mut out, &self.content);
        proof {
            assert(out@ =~= delta_enc(self.content@));
        }
        out
    }
}

fn read_be(buf: &[u8], pos: usize, width: usize) -> (r: u64)
    requires
        width <= 8,
        pos + width <= buf@.len(),
    ensures
        r as nat == be_value(buf@.subrange(pos as int, (pos + width) as int)),
{
    let blen = buf.len();
    let mut acc: u64 = 0;
    let mut i: usize = 0;
    proof {
        assert(buf@.subrange(pos as int, pos as int) =~= Seq::<u8>::empty());
    }
    while i < width
        invariant
            i <= width,
            width <= 8,
            pos + width <= buf@.len(),
            blen == buf@.len(),
            acc as nat == be_value(buf@.subrange(pos as int, (pos + i) as int)),
        decreases width - i,
    {
        proof {
            lemma_be_value_bound(buf@.subrange(pos as int, (pos + i) as int));
            lemma_pow256_monotonic((i + 1) as nat, 8);
            lemma_pow256_values();
            assert(buf@.subrange(pos as int, (pos + i) as int).len() == i as nat);
            assert(256 * pow256(i as nat) == pow256((i + 1) as nat));
        }
        let byte = buf[pos + i];
        acc = acc * 256 + byte as u64;
        proof {
            let ext = buf@.subrange(pos as int, (pos + i + 1) as int);
            assert(ext.drop_last() =~= buf@.subrange(pos as int, (pos + i) as int));
            assert(ext.last() == buf@[(pos + i) as int]);
        }
        i = i + 1;
    }
    acc
}

fn read_uint(buf: &[u8], pos: usize) -> (r: Option<(u64, usize)>)
    ensures
        match r {
            Option::Some(vp) => uint_dec(buf@, pos as int) == Option::Some((vp.0, vp.1 as int)),
            Option::None => uint_dec(buf@, pos as int) is None,
        },
{
    if pos >= buf.len() {
        return Option::None;
    }
    let mk = buf[pos];
    if mk < 0x80 {
        Option::Some((mk as u64, pos + 1))
    } else if mk == 0xcc && buf.len() - pos >= 2 {
        let v = read_be(buf, pos + 1, 1);
        proof {
            lemma_be_value_bound(buf@.subrange(pos as int + 1, pos as int + 2));
            lemma_pow256_values();
            lemma_pow256_monotonic(1, 8);
        }
        Option::Some((v, pos + 2))
    } else if mk == 0xcd && buf.len() - pos >= 3 {
        let v = read_be(buf, pos + 1, 2);
        proof {
            lemma_be_value_bound(buf@.subrange(pos as int + 1, pos as int + 3));
            lemma_pow256_values();
            lemma_pow256_monotonic(2, 8);
        }
        Option::Some((v, pos + 3))
    } else if mk == 0xce && buf.len() - pos >= 5 {
        let v = read_be(buf, pos + 1, 4);
        proof {
            lemma_be_value_bound(buf@.subrange(pos as int + 1, pos as int + 5));
            lemma_pow256_values();
            lemma_pow256_monotonic(4, 8);
        }
        Option::Some((v, pos + 5))
    } else if mk == 0xcf && buf.len() - pos >= 9 {
        let v = read_be(buf, pos + 1, 8);
        proof {
            lemma_be_value_bound(buf@.subrange(pos as int + 1, pos as int + 9));
            lemma_pow256_values();
        }
        Option::Some((v, pos + 9))
    } else {
        Option::None
    }
}

fn read_array_header(buf: &[u8], pos: usize) -> (r: Option<(usize, usize)>)
    ensures
        match r {
            Option::Some(np) => array_header_dec(buf@, pos as int) == Option::Some(
                (np.0 as nat, np.1 as int),
            ),
            Option::None => array_header_dec(buf@, pos as int) is None,
        },
{
    if pos >= buf.len() {
        return Option::None;
    }
    let mk = buf[pos];
    if 0x90 <= mk && mk <= 0x9f {
        Option::Some(((mk - 0x90) as usize, pos + 1))
    } else if mk == 0xdc && buf.len() - pos >= 3 {
        let v = read_be(buf, pos + 1, 2);
        proof {
            lemma_be_value_bound(buf@.subrange(pos as int + 1, pos as int + 3));
            lemma_pow256_values();
            lemma_pow256_monotonic(2, 8);
        }
        Option::Some((v as usize, pos + 3))
    } else if mk == 0xdd && buf.len() - pos >= 5 {
        let v = read_be(buf, pos + 1, 5 - 1);
        proof {
            lemma_be_value_bound(buf@.subrange(pos as int + 1, pos as int + 5));
            lemma_pow256_values();
            lemma_pow256_monotonic(4, 8);
        }
        Option::Some((v as usize, pos + 5))
    } else {
        Option::None
    }
}

fn read_uints(buf: &[u8], pos: usize, count: usize) -> (r: Option<(Vec<u64>, usize)>)
    ensures
        match r {
            Option::Some(vp) => uints_dec(buf@, pos as int, count as nat) == Option::Some(
                (vp.0@, vp.1 as int),
            ),
            Option::None => uints_dec(buf@, pos as int, count as nat) is None,
        },
{
    let mut out: Vec<u64> = Vec::new();
    let mut cur: usize = pos;
    let mut i: usize = 0;
    proof {
        assert(out@ + Seq::<u64>::empty() =~= out@);
    }
    while i < count
        invariant
            i <= count,
            uints_dec(buf@, pos as int, count as nat) == match uints_dec(
                buf@,
                cur as int,
                (count - i) as nat,
            ) {
                Option::Some((vs, p)) => Option::Some::<(Seq<u64>, int)>((out@ + vs, p)),
                Option::None => Option::None::<(Seq<u64>, int)>,
            },
        decreases count - i,
    {
        match read_uint(buf, cur) {
            Option::Some(vp) => {
                let ghost prev_out = out@;
                out.push(vp.0);
                proof {
                    let rest = (count - i - 1) as nat;
                    assert(uints_dec(buf@, cur as int, (count - i) as nat) == match uints_dec(
                        buf@,
                        vp.1 as int,
                        rest,
                    ) {
                        Option::Some((vs, p)) => Option::Some::<(Seq<u64>, int)>(
                            (seq![vp.0] + vs, p),
                        ),
                        Option::None => Option::None::<(Seq<u64>, int)>,
                    });
                    assert forall|vs: Seq<u64>| true implies prev_out + (seq![vp.0] + vs) == (
                    prev_out + seq![vp.0]) + vs by {
                        assert(prev_out + (seq![vp.0] + vs) =~= (prev_out + seq![vp.0]) + vs);
                    }
                    assert(out@ =~= prev_out + seq![vp.0]);
                }
                cur = vp.1;
                i = i + 1;
            },
            Option::None => {
                return Option::None;
            },
        }
    }
    proof {
        assert(out@ + Seq::<u64>::empty() =~= out@);
    }
    Option::Some((out, cur))
}

fn range_equals(buf: &[u8], pos: usize, expected: &Vec<u8>) -> (r: bool)
    ensures
        r == (pos + expected@.len() <= buf@.len() && buf@.subrange(
            pos as int,
            pos as int + expected@.len() as int,
        ) == expected@),
{
    if pos > buf.len() || buf.len() - pos < expected.len() {
        return false;
    }
    let blen = buf.len();
    let mut j: usize = 0;
    while j < expected.len()
        invariant
            j <= expected@.len(),
            pos + expected@.len() <= buf@.len(),
            blen == buf@.len(),
            forall|t: int| 0 <= t < j ==> buf@[pos + t] == expected@[t],
        decreases expected@.len() - j,
    {
        if buf[pos + j] != expected[j] {
            proof {
                assert(buf@.subrange(pos as int, pos as int + expected@.len() as int)[j as int]
                    != expected@[j as int]);
            }
            return false;
        }
        j = j + 1;
    }
    proof {
        assert(buf@.subrange(pos as int, pos as int + expected@.len() as int) =~= expected@);
    }
    true
}

fn read_token(buf: &[u8], pos: usize) -> (r: Option<(Token, usize)>)
    ensures
        match r {
            Option::Some(tp) => token_dec(buf@, pos as int) == Option::Some((tp.0, tp.1 as int)),
            Option::None => token_dec(buf@, pos as int) is None,
        },
{
    if pos >= buf.len() {
        return Option::None;
    }
    if buf[pos] != 0x81 {
        return Option::None;
    }
    let block_key = {
        let mut v: Vec<u8> = Vec::new();
        push_key_block_index(&mut v);
        v
    };
    let literal_key = {
        let mut v: Vec<u8> = Vec::new();
        push_key_byte_literal(&mut v);
        v
    };
    proof {
        assert(block_key@ =~= key_block_index());
        assert(literal_key@ =~= key_byte_literal());
    }
    if range_equals(buf, pos + 1, &block_key) {
        match read_uint(buf, pos + 12) {
            Option::Some(vp) => {
                if vp.0 <= usize::MAX as u64 {
                    Option::Some((Token::BlockIndex(vp.0 as usize), vp.1))
                } else {
                    Option::None
                }
            },
            Option::None => Option::None,
        }
    } else if range_equals(buf, pos + 1, &literal_key) {
        match read_uint(buf, pos + 13) {
            Option::Some(vp) => {
                if vp.0 <= 0xff {
                    Option::Some((Token::ByteLiteral(vp.0 as u8), vp.1))
                } else {
                    Option::None
                }
            },
            Option::None => Option::None,
        }
    } else {
        Option::None
    }
}

fn read_tokens(buf: &[u8], pos: usize, count: usize) -> (r: Option<(Vec<Token>, usize)>)
    ensures
        match r {
            Option::Some(vp) => tokens_dec(buf@, pos as int, count as nat) == Option::Some(
                (vp.0@, vp.1 as int),
            ),
            Option::None => tokens_dec(buf@, pos as int, count as nat) is None,
        },
{
    let mut out: Vec<Token> = Vec::new();
    let mut cur: usize = pos;
    let mut i: usize = 0;
    while i < count
        invariant
            i <= count,
            tokens_dec(buf@, pos as int, count as nat) == match tokens_dec(
                buf@,
                cur as int,
                (count - i) as nat,
            ) {
                Option::Some((ts, p)) => Option::Some::<(Seq<Token>, int)>((out@ + ts, p)),
                Option::None => Option::None::<(Seq<Token>, int)>,
            },
        decreases count - i,
    {
        match read_token(buf, cur) {
            Option::Some(tp) => {
                let ghost prev_out = out@;
                out.push(tp.0);
                proof {
                    let rest = (count - i - 1) as nat;
                    assert(tokens_dec(buf@, cur as int, (count - i) as nat) == match tokens_dec(
                        buf@,
                        tp.1 as int,
                        rest,
                    ) {
                        Option::Some((ts, p)) => Option::Some::<(Seq<Token>, int)>(
                            (seq![tp.0] + ts, p),
                        ),
                        Option::None => Option::None::<(Seq<Token>, int)>,
                    });
                    assert forall|ts: Seq<Token>| true implies prev_out + (seq![tp.0] + ts) == (
                    prev_out + seq![tp.0]) + ts by {
                        assert(prev_out + (seq![tp.0] + ts) =~= (prev_out + seq![tp.0]) + ts);
                    }
                    assert(out@ =~= prev_out + seq![tp.0]);
                }
                cur = tp.1;
                i = i + 1;
            },
            Option::None => {
                return Option::None;
            },
        }
    }
    proof {
        assert(out@ + Seq::<Token>::empty() =~= out@);
    }
    Option::Some((out, cur))
}

impl FileSignature {
    /// Deserializes a signature from its wire form. Malformed bytes,
    /// trailing garbage and hash arrays of different lengths are all
    /// refused.
    pub fn from_bytes(bytes: &[u8]) -> (r: Result<FileSignature, DecodeError>)
        ensures
            match r {
                Ok(sig) => sig_dec(bytes@) == Option::Some(
                    (sig.strong_hashes@, sig.rolling_hashes@),
                ) && sig.wf(),
                Err(e) => sig_dec(bytes@) is None && e == DecodeError::Signature,
            },
    {
        if bytes.len() < 1 || bytes[0] != 0x82 {
            return Err(DecodeError::Signature);
        }
        let strong_key = {
            let mut v: Vec<u8> = Vec::new();
            push_key_strong(&mut v);
            v
        };
        let rolling_key = {
            let mut v: Vec<u8> = Vec::new();
            push_key_rolling(&mut v);
            v
        };
        proof {
            assert(strong_key@ =~= key_strong());
            assert(rolling_key@ =~= key_rolling());
        }
        if !range_equals(bytes, 1, &strong_key) {
            return Err(DecodeError::Signature);
        }
        let (n1, p1) = match read_array_header(bytes, 15) {
            Option::Some(np) => np,
            Option::None => {
                return Err(DecodeError::Signature);
            },
        };
        let (strong_hashes, p2) = match read_uints(bytes, p1, n1) {
            Option::Some(vp) => vp,
            Option::None => {
                return Err(DecodeError::Signature);
            },
        };
        if !range_equals(bytes, p2, &rolling_key) {
            return Err(DecodeError::Signature);
        }
        let (n2, p3) = match read_array_header(bytes, p2 + 15) {
            Option::Some(np) => np,
            Option::None => {
                return Err(DecodeError::Signature);
            },
        };
        let (rolling_hashes, p4) = match read_uints(bytes, p3, n2) {
            Option::Some(vp) => vp,
            Option::None => {
                return Err(DecodeError::Signature);
            },
        };
        if p4 != bytes.len() || strong_hashes.len() != rolling_hashes.len() {
            return Err(DecodeError::Signature);
        }
        Ok(FileSignature { strong_hashes, rolling_hashes })
    }
}

impl Delta {
    /// Deserializes a delta from its wire form. Malformed bytes and
    /// trailing garbage are refused.
    pub fn from_bytes(bytes: &[u8]) -> (r: Result<Delta, DecodeError>)
        ensures
            match r {
                Ok(d) => delta_dec(bytes@) == Option::Some(d.content@),
                Err(e) => delta_dec(bytes@) is None && e == DecodeError::Delta,
            },
    {
        if bytes.len() < 1 || bytes[0] != 0x81 {
            return Err(DecodeError::Delta);
        }
        let content_key = {
            let mut v: Vec<u8> = Vec::new();
            push_key_content(&mut v);
            v
        };
        proof {
            assert(content_key@ =~= key_content());
        }
        if !range_equals(bytes, 1, &content_key) {
            return Err(DecodeError::Delta);
        }
        let (n, p1) = match read_array_header(bytes, 9) {
            Option::Some(np) => np,
            Option::None => {
                return Err(DecodeError::Delta);
            },
        };
        let (content, p2) = match read_tokens(bytes, p1, n) {
            Option::Some(vp) => vp,
            Option::None => {
                return Err(DecodeError::Delta);
            },
        };
        if p2 != bytes.len() {
            return Err(DecodeError::Delta);
        }
        Ok(Delta { content })
    }
}

} // verus!
