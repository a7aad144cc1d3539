//! Bits of bytes, most significant bit first, and the packing of eight bits
//! back into a byte.

use vstd::prelude::*;

verus! {

/// The eight bits of `b`, from bit 7 down to bit 0, each as `0` or `1`.
pub open spec fn byte_bits(b: u8) -> Seq<u8> {
    seq![
        (b >> 7u8) & 1u8,
        (b >> 6u8) & 1u8,
        (b >> 5u8) & 1u8,
        (b >> 4u8) & 1u8,
        (b >> 3u8) & 1u8,
        (b >> 2u8) & 1u8,
        (b >> 1u8) & 1u8,
        b & 1u8,
    ]
}

/// The bits of a byte sequence, byte after byte.
pub open spec fn bits_of_bytes(bs: Seq<u8>) -> Seq<u8>
    decreases bs.len(),
{
    if bs.len() == 0 {
        seq![]
    } else {
        bits_of_bytes(bs.drop_last()) + byte_bits(bs.last())
    }
}

/// The byte whose bits, most significant first, are the low bits of `s[0..8]`.
pub open spec fn pack8(s: Seq<u8>) -> u8 {
    ((s[0] & 1u8) << 7u8) | ((s[1] & 1u8) << 6u8) | ((s[2] & 1u8) << 5u8) | ((s[3] & 1u8) << 4u8)
        | ((s[4] & 1u8) << 3u8) | ((s[5] & 1u8) << 2u8) | ((s[6] & 1u8) << 1u8) | (s[7] & 1u8)
}

/// The bytes packed from consecutive groups of eight bits; a trailing group of
/// fewer than eight bits is not part of it.
pub open spec fn bytes_of_bits(bits: Seq<u8>) -> Seq<u8>
    decreases bits.len(),
{
    if bits.len() < 8 {
        seq![]
    } else {
        bytes_of_bits(bits.subrange(0, bits.len() - 8)).push(
            pack8(bits.subrange(bits.len() - 8, bits.len() as int)),
        )
    }
}

/// Every element of `s` is a bit.
pub open spec fn all_bits(s: Seq<u8>) -> bool {
    forall|i: int| 0 <= i < s.len() ==> #[trigger] s[i] <= 1
}

pub proof fn lemma_bits_of_bytes_len(bs: Seq<u8>)
    ensures
        bits_of_bytes(bs).len() == 8 * bs.len(),
    decreases bs.len(),
{
    if bs.len() > 0 {
        lemma_bits_of_bytes_len(bs.drop_last());
    }
}

pub proof fn lemma_bits_of_bytes_are_bits(bs: Seq<u8>)
    ensures
        all_bits(bits_of_bytes(bs)),
    decreases bs.len(),
{
    if bs.len() > 0 {
        lemma_bits_of_bytes_are_bits(bs.drop_last());
        let b = bs.last();
        assert(((b >> 7u8) & 1u8) <= 1 && ((b >> 6u8) & 1u8) <= 1 && ((b >> 5u8) & 1u8) <= 1
            && ((b >> 4u8) & 1u8) <= 1 && ((b >> 3u8) & 1u8) <= 1 && ((b >> 2u8) & 1u8) <= 1
            && ((b >> 1u8) & 1u8) <= 1 && (b & 1u8) <= 1) by (bit_vector);
        let x = bits_of_bytes(bs.drop_last());
        let y = byte_bits(b);
        assert forall|i: int| 0 <= i < (x + y).len() implies #[trigger] (x + y)[i] <= 1 by {
            if i >= x.len() {
                assert(y[i - x.len()] <= 1);
            }
        }
    }
}

/// Packing the bits of a byte gives the byte back.
pub proof fn lemma_pack8_byte_bits(b: u8)
    ensures
        pack8(byte_bits(b)) == b,
{
    assert((((((b >> 7u8) & 1u8) & 1u8) << 7u8) | (((((b >> 6u8) & 1u8) & 1u8) << 6u8))
        | (((((b >> 5u8) & 1u8) & 1u8) << 5u8)) | (((((b >> 4u8) & 1u8) & 1u8) << 4u8))
        | (((((b >> 3u8) & 1u8) & 1u8) << 3u8)) | (((((b >> 2u8) & 1u8) & 1u8) << 2u8))
        | (((((b >> 1u8) & 1u8) & 1u8) << 1u8)) | ((b & 1u8) & 1u8)) == b) by (bit_vector);
}

/// Bytes turned into bits and packed again are the same bytes.
pub proof fn lemma_bytes_bits_round_trip(bs: Seq<u8>)
    ensures
        bytes_of_bits(bits_of_bytes(bs)) == bs,
    decreases bs.len(),
{
    if bs.len() > 0 {
        let x = bits_of_bytes(bs.drop_last());
        let y = byte_bits(bs.last());
        let t = x + y;
        lemma_bits_of_bytes_len(bs.drop_last());
        lemma_bytes_bits_round_trip(bs.drop_last());
        assert(t.subrange(0, t.len() - 8) == x);
        assert(t.subrange(t.len() - 8, t.len() as int) == y);
        lemma_pack8_byte_bits(bs.last());
        assert(bs.drop_last().push(bs.last()) == bs);
    } else {
        assert(bits_of_bytes(bs) == Seq::<u8>::empty());
        assert(bs == Seq::<u8>::empty());
    }
}

/// Packing a prefix one group longer adds one byte.
pub proof fn lemma_bytes_of_bits_step(bits: Seq<u8>, k: int)
    requires
        0 <= k,
        k + 8 <= bits.len(),
    ensures
        bytes_of_bits(bits.subrange(0, k + 8)) == bytes_of_bits(bits.subrange(0, k)).push(
            pack8(bits.subrange(k, k + 8)),
        ),
{
    let p = bits.subrange(0, k + 8);
    assert(p.subrange(0, p.len() - 8) == bits.subrange(0, k));
    assert(p.subrange(p.len() - 8, p.len() as int) == bits.subrange(k, k + 8));
}

/// The byte packed from `bits[k..k + 8]`.
fn byte_at(bits: &[u8], k: usize) -> (r: u8)
    requires
        k + 8 <= bits@.len(),
    ensures
        r == pack8(bits@.subrange(k as int, k + 8)),
{
    let s = Ghost(bits@.subrange(k as int, k + 8));
    assert(s@[0] == bits@[k as int] && s@[1] == bits@[k + 1] && s@[2] == bits@[k + 2] && s@[3]
        == bits@[k + 3] && s@[4] == bits@[k + 4] && s@[5] == bits@[k + 5] && s@[6] == bits@[k + 6]
        && s@[7] == bits@[k + 7]);
    ((bits[k] & 1) << 7u8) | ((bits[k + 1] & 1) << 6u8) | ((bits[k + 2] & 1) << 5u8) | ((bits[k
        + 3] & 1) << 4u8) | ((bits[k + 4] & 1) << 3u8) | ((bits[k + 5] & 1) << 2u8) | ((bits[k + 6]
        & 1) << 1u8) | (bits[k + 7] & 1)
}

/// Packs exactly eight bits into a byte; any other count is refused.
pub fn bits_to_byte(bits: &[u8]) -> (r: Option<u8>)
    ensures
        r == (if bits@.len() == 8 {
            Some(pack8(bits@))
        } else {
            None::<u8>
        }),
{
    if bits.len() != 8 {
        return None;
    }
    assert(bits@.subrange(0, 8) == bits@);
    Some(byte_at(bits, 0))
}

/// The bits of `buffer`, most significant bit of each byte first.
pub fn encode_buffer_to_bits(buffer: &[u8]) -> (r: Vec<u8>)
    requires
        buffer@.len() * 8 <= usize::MAX,
    ensures
        r@ == bits_of_bytes(buffer@),
{
    let mut bits: Vec<u8> = Vec::with_capacity(buffer.len() * 8);
    let mut i: usize = 0;
    while i < buffer.len()
        invariant
            i <= buffer@.len(),
            bits@ == bits_of_bytes(buffer@.subrange(0, i as int)),
        decreases buffer@.len() - i,
    {
        let b = buffer[i];
        bits.push((b >> 7u8) & 1);
        bits.push((b >> 6u8) & 1);
        bits.push((b >> 5u8) & 1);
        bits.push((b >> 4u8) & 1);
        bits.push((b >> 3u8) & 1);
        bits.push((b >> 2u8) & 1);
        bits.push((b >> 1u8) & 1);
        bits.push(b & 1);
        let ghost pre = buffer@.subrange(0, i as int);
        let ghost next = buffer@.subrange(0, i + 1);
        assert(next.drop_last() == pre);
        assert(bits@ == bits_of_bytes(pre) + byte_bits(b));
        i = i + 1;
    }
    assert(buffer@.subrange(0, buffer@.len() as int) == buffer@);
    bits
}

/// Packs a whole bit sequence into bytes; a count that is not a multiple of
/// eight is refused.
pub fn pack_bits(bits: &[u8]) -> (r: Option<Vec<u8>>)
    ensures
        match r {
            Some(v) => bits@.len() % 8 == 0 && v@ == bytes_of_bits(bits@),
            None => bits@.len() % 8 != 0,
        },
{
    if bits.len() % 8 != 0 {
        return None;
    }
    let n = bits.len() / 8;
    let mut out: Vec<u8> = Vec::with_capacity(n);
    let mut i: usize = 0;
    while i < n
        invariant
            n * 8 == bits@.len(),
            bits@.len() <= usize::MAX,
            i <= n,
            out@ == bytes_of_bits(bits@.subrange(0, 8 * i)),
        decreases n - i,
    {
        assert(8 * i + 8 <= bits@.len()) by (nonlinear_arith)
            requires
                i < n,
                n * 8 == bits@.len(),
        ;
        let b = byte_at(bits, 8 * i);
        proof {
            lemma_bytes_of_bits_step(bits@, 8 * i);
        }
        out.push(b);
        i = i + 1;
    }
    assert(bits@.subrange(0, 8 * n as int) == bits@);
    Some(out)
}

} // verus!
