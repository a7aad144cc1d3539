//! Splitting work into contiguous ranges, one per worker: plain byte ranges
//! for encoding, ranges that start and end between tokens for decoding.

use crate::tokens::is_space;
use vstd::arithmetic::div_mod::lemma_fundamental_div_mod;
use vstd::arithmetic::mul::{lemma_mul_inequality, lemma_mul_is_distributive_add_other_way};
use vstd::prelude::*;

verus! {

/// Where range `i` of `p` even ranges over `[0, len)` starts: the first
/// `len % p` ranges hold one element more than the others.
pub open spec fn chunk_start(len: nat, p: nat, i: nat) -> nat {
    i * (len / p) + if i < len % p {
        i
    } else {
        len % p
    }
}

/// The first position after the first separator at or after `c`, or `end`
/// when there is none before it.
pub open spec fn next_boundary(t: Seq<u8>, end: int, c: int) -> int
    decreases end - c,
{
    if c >= end {
        end
    } else if is_space(t[c]) {
        c + 1
    } else {
        next_boundary(t, end, c + 1)
    }
}

/// Boundary `i` of `p` token ranges over `t[0..end)`: the even split point
/// moved forward past the next separator; the first is `0`, the last `end`.
pub open spec fn token_boundary(t: Seq<u8>, end: nat, p: nat, i: nat) -> int {
    if i == 0 {
        0
    } else if i >= p {
        end as int
    } else {
        next_boundary(t, end as int, chunk_start(end, p, i) as int)
    }
}

/// Position `b` of `t[0..end)` lies between two tokens.
pub open spec fn between_tokens(t: Seq<u8>, end: int, b: int) -> bool {
    b == 0 || b == end || (0 < b < end && is_space(t[b - 1]))
}

/// The ranges `r` follow each other with no gap and together make `[0, len)`.
pub open spec fn covers(r: Seq<(usize, usize)>, len: nat) -> bool {
    &&& r.len() >= 1
    &&& r[0].0 == 0
    &&& r[r.len() - 1].1 == len
    &&& forall|i: int| 0 <= i < r.len() ==> #[trigger] r[i].0 <= r[i].1
    &&& forall|i: int| 0 <= i < r.len() - 1 ==> #[trigger] r[i].1 == r[i + 1].0
}

pub proof fn lemma_chunk_start_bounds(len: nat, p: nat, i: nat)
    requires
        p >= 1,
        i <= p,
    ensures
        chunk_start(len, p, i) <= chunk_start(len, p, p) == len,
        chunk_start(len, p, 0) == 0,
        i < p ==> chunk_start(len, p, i + 1) == chunk_start(len, p, i) + len / p + (if i < len % p {
            1int
        } else {
            0int
        }),
{
    lemma_fundamental_div_mod(len as int, p as int);
    lemma_mul_inequality(i as int, p as int, (len / p) as int);
    lemma_mul_is_distributive_add_other_way((len / p) as int, i as int, 1);
    assert(0 * (len / p) == 0);
}

/// Splits `[0, len)` into `p` contiguous ranges whose sizes differ by at most
/// one, the larger ones first.
pub fn split_byte_chunks(len: usize, p: usize) -> (r: Vec<(usize, usize)>)
    requires
        p >= 1,
    ensures
        r@.len() == p,
        forall|i: int|
            0 <= i < p ==> #[trigger] r@[i] == (
                chunk_start(len as nat, p as nat, i as nat) as usize,
                chunk_start(len as nat, p as nat, (i + 1) as nat) as usize,
            ),
{
    let q = len / p;
    let rem = len % p;
    let mut result: Vec<(usize, usize)> = Vec::with_capacity(p);
    let mut pos: usize = 0;
    let mut i: usize = 0;
    proof {
        lemma_chunk_start_bounds(len as nat, p as nat, 0);
    }
    while i < p
        invariant
            p >= 1,
            q == len / p,
            rem == len % p,
            i <= p,
            pos == chunk_start(len as nat, p as nat, i as nat),
            result@.len() == i,
            forall|j: int|
                0 <= j < i ==> #[trigger] result@[j] == (
                    chunk_start(len as nat, p as nat, j as nat) as usize,
                    chunk_start(len as nat, p as nat, (j + 1) as nat) as usize,
                ),
        decreases p - i,
    {
        proof {
            lemma_chunk_start_bounds(len as nat, p as nat, i as nat);
            lemma_chunk_start_bounds(len as nat, p as nat, (i + 1) as nat);
        }
        let size = if i < rem {
            q + 1
        } else {
            q
        };
        let end = pos + size;
        result.push((pos, end));
        pos = end;
        i = i + 1;
    }
    result
}

/// Every range of a byte split is in place: together they cover `[0, len)`
/// with no gap or overlap, and no two sizes differ by more than one.
pub proof fn lemma_byte_chunks_cover(len: nat, p: nat, r: Seq<(usize, usize)>)
    requires
        p >= 1,
        len <= usize::MAX,
        r.len() == p,
        forall|i: int|
            0 <= i < p ==> #[trigger] r[i] == (
                chunk_start(len, p, i as nat) as usize,
                chunk_start(len, p, (i + 1) as nat) as usize,
            ),
    ensures
        covers(r, len),
        forall|i: int, j: int|
            0 <= i < p && 0 <= j < p ==> (#[trigger] r[i]).1 - r[i].0 <= (#[trigger] r[j]).1 - r[j].0
                + 1,
{
    lemma_chunk_start_bounds(len, p, 0);
    lemma_chunk_start_bounds(len, p, p);
    assert forall|i: int| 0 <= i < r.len() implies #[trigger] r[i].0 <= r[i].1 by {
        lemma_chunk_start_bounds(len, p, i as nat);
        lemma_chunk_start_bounds(len, p, (i + 1) as nat);
    }
    assert forall|i: int, j: int|
        0 <= i < p && 0 <= j < p implies (#[trigger] r[i]).1 - r[i].0 <= (#[trigger] r[j]).1
        - r[j].0 + 1 by {
        lemma_chunk_start_bounds(len, p, i as nat);
        lemma_chunk_start_bounds(len, p, (i + 1) as nat);
        lemma_chunk_start_bounds(len, p, j as nat);
        lemma_chunk_start_bounds(len, p, (j + 1) as nat);
    }
}

pub proof fn lemma_next_boundary_facts(t: Seq<u8>, end: int, c: int)
    requires
        0 <= c,
        end <= t.len(),
    ensures
        c < end ==> c < next_boundary(t, end, c) <= end,
        c >= end ==> next_boundary(t, end, c) == end,
        between_tokens(t, end, next_boundary(t, end, c)),
    decreases end - c,
{
    if c < end && !is_space(t[c]) {
        lemma_next_boundary_facts(t, end, c + 1);
    }
}

pub proof fn lemma_next_boundary_monotone(t: Seq<u8>, end: int, c1: int, c2: int)
    requires
        0 <= c1 <= c2,
        end <= t.len(),
    ensures
        next_boundary(t, end, c1) <= next_boundary(t, end, c2),
    decreases c2 - c1,
{
    lemma_next_boundary_facts(t, end, c2);
    if c1 < c2 && c1 < end && !is_space(t[c1]) {
        lemma_next_boundary_monotone(t, end, c1 + 1, c2);
    }
}

/// The position after the first separator in `text[start..end)`, or `end`.
pub fn find_next_space(text: &[u8], start: usize, end: usize) -> (r: usize)
    requires
        end <= text@.len(),
    ensures
        r == next_boundary(text@, end as int, start as int),
{
    let mut pos = start;
    while pos < end
        invariant
            end <= text@.len(),
            next_boundary(text@, end as int, pos as int) == next_boundary(
                text@,
                end as int,
                start as int,
            ),
        decreases end - pos,
    {
        let c = text[pos];
        if c == 32 || (9 <= c && c <= 13) {
            return pos + 1;
        }
        pos = pos + 1;
    }
    end
}

/// Splits `text[0..end)` into `p` contiguous ranges that begin and end between
/// tokens: even split points, each moved forward past the next separator.
pub fn split_token_chunks(text: &[u8], end: usize, p: usize) -> (r: Vec<(usize, usize)>)
    requires
        p >= 1,
        end <= text@.len(),
    ensures
        r@.len() == p,
        forall|i: int|
            0 <= i < p ==> #[trigger] r@[i] == (
                token_boundary(text@, end as nat, p as nat, i as nat) as usize,
                token_boundary(text@, end as nat, p as nat, (i + 1) as nat) as usize,
            ),
{
    let q = end / p;
    let rem = end % p;
    let mut result: Vec<(usize, usize)> = Vec::with_capacity(p);
    let mut prev: usize = 0;
    let mut candidate: usize = 0;
    let mut i: usize = 0;
    proof {
        lemma_chunk_start_bounds(end as nat, p as nat, 0);
    }
    while i < p
        invariant
            p >= 1,
            end <= text@.len(),
            q == end / p,
            rem == end % p,
            i <= p,
            candidate == chunk_start(end as nat, p as nat, i as nat),
            prev == token_boundary(text@, end as nat, p as nat, i as nat),
            prev <= end,
            result@.len() == i,
            forall|j: int|
                0 <= j < i ==> #[trigger] result@[j] == (
                    token_boundary(text@, end as nat, p as nat, j as nat) as usize,
                    token_boundary(text@, end as nat, p as nat, (j + 1) as nat) as usize,
                ),
        decreases p - i,
    {
        proof {
            lemma_chunk_start_bounds(end as nat, p as nat, i as nat);
            lemma_chunk_start_bounds(end as nat, p as nat, (i + 1) as nat);
        }
        candidate = candidate + if i < rem {
            q + 1
        } else {
            q
        };
        let next = if i + 1 == p {
            end
        } else {
            find_next_space(text, candidate, end)
        };
        proof {
            lemma_next_boundary_facts(text@, end as int, candidate as int);
        }
        result.push((prev, next));
        prev = next;
        i = i + 1;
    }
    result
}

/// Every range of a token split is in place: together they cover `[0, end)`
/// with no gap or overlap, and each boundary lies between two tokens.
pub proof fn lemma_token_chunks_cover(t: Seq<u8>, end: nat, p: nat, r: Seq<(usize, usize)>)
    requires
        p >= 1,
        end <= t.len(),
        end <= usize::MAX,
        r.len() == p,
        forall|i: int|
            0 <= i < p ==> #[trigger] r[i] == (
                token_boundary(t, end, p, i as nat) as usize,
                token_boundary(t, end, p, (i + 1) as nat) as usize,
            ),
    ensures
        covers(r, end),
        forall|i: int|
            0 <= i < p ==> between_tokens(t, end as int, (#[trigger] r[i]).0 as int)
                && between_tokens(t, end as int, r[i].1 as int),
{
    assert forall|i: int| 0 <= i <= p implies 0 <= #[trigger] token_boundary(t, end, p, i as nat)
        <= end && between_tokens(t, end as int, token_boundary(t, end, p, i as nat)) by {
        lemma_chunk_start_bounds(end, p, i as nat);
        lemma_next_boundary_facts(t, end as int, chunk_start(end, p, i as nat) as int);
    }
    assert forall|i: int| 0 <= i < r.len() implies #[trigger] r[i].0 <= r[i].1 by {
        assert(0 <= token_boundary(t, end, p, i as nat) <= end);
        assert(0 <= token_boundary(t, end, p, (i + 1) as nat) <= end);
        if 0 < i && i + 1 < p {
            lemma_chunk_start_bounds(end, p, i as nat);
            lemma_chunk_start_bounds(end, p, (i + 1) as nat);
            lemma_next_boundary_monotone(
                t,
                end as int,
                chunk_start(end, p, i as nat) as int,
                chunk_start(end, p, (i + 1) as nat) as int,
            );
        }
    }
    assert(0 <= token_boundary(t, end, p, p) <= end);
    assert forall|i: int| 0 <= i < p implies between_tokens(t, end as int, (#[trigger] r[i]).0 as int)
        && between_tokens(t, end as int, r[i].1 as int) by {
        assert(0 <= token_boundary(t, end, p, i as nat) <= end);
        assert(0 <= token_boundary(t, end, p, (i + 1) as nat) <= end);
    }
}

} // verus!
