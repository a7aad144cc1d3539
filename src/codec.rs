//! Whole runs: a content and its extension to encoded text, and back. Both
//! split the work into chunks, handle each chunk on its own and join the
//! results in chunk order.

use crate::bits::{
    bits_of_bytes, bytes_of_bits, byte_bits, encode_buffer_to_bits, pack_bits,
    lemma_bits_of_bytes_are_bits, lemma_bits_of_bytes_len, lemma_bytes_bits_round_trip,
};
use crate::partition::{
    split_byte_chunks, split_token_chunks, lemma_byte_chunks_cover, lemma_token_chunks_cover,
    between_tokens,
};
use crate::tokens::{
    bits_of_text, decode_tokens, encode_to_useless, encodes_bits, parities, render,
    token_in_range, lemma_render_append, lemma_bits_of_render, lemma_bits_of_text_split,
    lemma_scan_none_extends,
};
use crate::merge::{merged, parts_view, concat_all, Merger};
use crate::bits::pack8;
use crate::tokens::{is_digit, is_space, scan};
use crate::trailer::{last_tokens, 
    extract_extension, parse_trailer, trailer_bits, lemma_parse_trailer_of, DecodeError,
};
use vstd::prelude::*;
use vstd::slice::slice_subrange;
use vstd::string::StringSliceAdditionalSpecFns;
use vstd::utf8::{valid_utf8, decode_utf8, encode_utf8, encode_utf8_valid_utf8, encode_utf8_decode_utf8};

verus! {

/// Relies on `num_cpus::get`: the number of CPUs this process may use.
#[verifier::external_body]
fn cpu_count() -> (r: usize) {
    num_cpus::get()
}

/// How many workers to run for a machine with `cpus` CPUs: one per CPU, and
/// at least one.
pub fn workers_for(cpus: usize) -> (r: usize)
    ensures
        r == (if cpus == 0 {
            1
        } else {
            cpus
        }),
{
    if cpus == 0 {
        1
    } else {
        cpus
    }
}

/// How many workers to run here: `workers_for` the number of available CPUs.
pub fn parallelism() -> (r: usize)
    ensures
        r >= 1,
{
    workers_for(cpu_count())
}

/// Errors of encoding.
#[derive(Clone, Copy, Debug, PartialEq, Eq, Structural)]
pub enum EncodeError {
    /// The extension is longer than the 255 bytes that its length token can count.
    ExtensionTooLong,
}

/// The bits that the encoding of `content` with extension bytes `ext` carries.
pub open spec fn encoded_bits(content: Seq<u8>, ext: Seq<u8>) -> Seq<u8> {
    bits_of_bytes(content) + trailer_bits(ext)
}

/// What decoding `t` gives: the content and the extension, or the first
/// thing in it that cannot be read.
pub open spec fn decoded(t: Seq<u8>) -> Result<(Seq<u8>, Seq<char>), DecodeError> {
    match parse_trailer(t) {
        None => Err(DecodeError::MalformedTrailer),
        Some((ext, end)) => if !valid_utf8(ext) {
            Err(DecodeError::ExtensionNotText)
        } else {
            match bits_of_text(t.subrange(0, end)) {
                None => Err(DecodeError::MalformedToken),
                Some(bits) => if bits.len() % 8 != 0 {
                    Err(DecodeError::Misaligned)
                } else {
                    Ok((bytes_of_bits(bits), decode_utf8(ext)))
                },
            }
        },
    }
}

pub proof fn lemma_bits_of_bytes_append(a: Seq<u8>, b: Seq<u8>)
    ensures
        bits_of_bytes(a + b) == bits_of_bytes(a) + bits_of_bytes(b),
    decreases b.len(),
{
    if b.len() == 0 {
        assert(a + b == a);
        assert(bits_of_bytes(b) == Seq::<u8>::empty());
        assert(bits_of_bytes(a) + bits_of_bytes(b) == bits_of_bytes(a));
    } else {
        lemma_bits_of_bytes_append(a, b.drop_last());
        assert((a + b).drop_last() == a + b.drop_last());
        assert((a + b).last() == b.last());
    }
}

pub proof fn lemma_encodes_concat(x: Seq<u8>, a: Seq<u8>, y: Seq<u8>, b: Seq<u8>)
    requires
        encodes_bits(x, a),
        encodes_bits(y, b),
    ensures
        encodes_bits(x + y, a + b),
{
    let tx = choose|ts: Seq<u64>|
        parities(ts) == a && (forall|i: int| 0 <= i < ts.len() ==> token_in_range(#[trigger] ts[i]))
            && x == render(ts);
    let ty = choose|ts: Seq<u64>|
        parities(ts) == b && (forall|i: int| 0 <= i < ts.len() ==> token_in_range(#[trigger] ts[i]))
            && y == render(ts);
    let t = tx + ty;
    lemma_render_append(tx, ty);
    assert(parities(t) == a + b);
    assert forall|i: int| 0 <= i < t.len() implies token_in_range(#[trigger] t[i]) by {
        if i < tx.len() {
            assert(t[i] == tx[i]);
        } else {
            assert(t[i] == ty[i - tx.len()]);
        }
    }
}

/// The buffer size that `encode` hands its workers.
pub const DEFAULT_BUFFER_SIZE: usize = 65536;

pub proof fn lemma_encodes_split(v: Seq<u8>, n: int, a: Seq<u8>, b: Seq<u8>)
    requires
        0 <= n <= v.len(),
        encodes_bits(v.subrange(0, n), a),
        encodes_bits(v.subrange(n, v.len() as int), b),
    ensures
        encodes_bits(v, a + b),
{
    assert(v == v.subrange(0, n) + v.subrange(n, v.len() as int));
    lemma_encodes_concat(v.subrange(0, n), a, v.subrange(n, v.len() as int), b);
}

/// The tokens for the bytes `content[start..end)`, with fresh magnitudes,
/// made `buffer_size` bytes at a time.
pub fn encode_chunk(content: &[u8], start: usize, end: usize, buffer_size: usize) -> (r: Vec<u8>)
    requires
        start <= end <= content@.len(),
        content@.len() * 8 <= usize::MAX,
        buffer_size >= 1,
    ensures
        encodes_bits(r@, bits_of_bytes(content@.subrange(start as int, end as int))),
{
    let mut out: Vec<u8> = Vec::new();
    let mut pos = start;
    proof {
        assert(content@.subrange(start as int, start as int) == Seq::<u8>::empty());
        assert(bits_of_bytes(Seq::<u8>::empty()) == Seq::<u8>::empty());
        assert(render(Seq::<u64>::empty()) == Seq::<u8>::empty());
        assert(parities(Seq::<u64>::empty()) == Seq::<u8>::empty());
    }
    while pos < end
        invariant
            start <= pos <= end <= content@.len(),
            content@.len() * 8 <= usize::MAX,
            buffer_size >= 1,
            encodes_bits(out@, bits_of_bytes(content@.subrange(start as int, pos as int))),
        decreases end - pos,
    {
        let next = if end - pos < buffer_size {
            end
        } else {
            pos + buffer_size
        };
        let part = slice_subrange(content, pos, next);
        let bits = encode_buffer_to_bits(part);
        proof {
            lemma_bits_of_bytes_are_bits(part@);
        }
        let mut text = encode_to_useless(bits.as_slice());
        proof {
            let done = content@.subrange(start as int, pos as int);
            assert(content@.subrange(start as int, next as int) == done + part@);
            lemma_bits_of_bytes_append(done, part@);
            lemma_encodes_concat(out@, bits_of_bytes(done), text@, bits_of_bytes(part@));
        }
        out.append(&mut text);
        pos = next;
    }
    out
}

/// The tokens of the trailer for extension bytes `ext`.
pub fn encode_trailer(ext: &[u8]) -> (r: Vec<u8>)
    requires
        ext@.len() <= 255,
    ensures
        encodes_bits(r@, trailer_bits(ext@)),
{
    let mut bits = encode_buffer_to_bits(ext);
    let len_byte: Vec<u8> = vec![ext.len() as u8];
    let mut len_bits = encode_buffer_to_bits(len_byte.as_slice());
    proof {
        assert(len_byte@.drop_last() == Seq::<u8>::empty());
        assert(bits_of_bytes(Seq::<u8>::empty()) == Seq::<u8>::empty());
        assert(len_bits@ == byte_bits(ext@.len() as u8));
        lemma_bits_of_bytes_are_bits(ext@);
        lemma_bits_of_bytes_are_bits(len_byte@);
    }
    bits.append(&mut len_bits);
    encode_to_useless(bits.as_slice())
}

/// Encodes `content` with extension `extension` using `p` chunks: one token
/// per bit of the content, then the trailer.
pub fn encode(content: &[u8], extension: &str, p: usize) -> (r: Result<Vec<u8>, EncodeError>)
    requires
        p >= 1,
        content@.len() * 8 <= usize::MAX,
    ensures
        match r {
            Ok(v) => extension.spec_bytes().len() <= 255 && encodes_bits(
                v@,
                encoded_bits(content@, extension.spec_bytes()),
            ),
            Err(e) => extension.spec_bytes().len() > 255 && e == EncodeError::ExtensionTooLong,
        },
{
    let ext = extension.as_bytes();
    if ext.len() > 255 {
        return Err(EncodeError::ExtensionTooLong);
    }
    let chunks = split_byte_chunks(content.len(), p);
    proof {
        lemma_byte_chunks_cover(content@.len(), p as nat, chunks@);
    }
    let mut out: Vec<u8> = Vec::new();
    let mut i: usize = 0;
    let mut pos: usize = 0;
    proof {
        assert(content@.subrange(0, 0) == Seq::<u8>::empty());
        assert(bits_of_bytes(Seq::<u8>::empty()) == Seq::<u8>::empty());
        assert(render(Seq::<u64>::empty()) == Seq::<u8>::empty());
        assert(parities(Seq::<u64>::empty()) == Seq::<u8>::empty());
    }
    while i < chunks.len()
        invariant
            chunks@.len() == p,
            crate::partition::covers(chunks@, content@.len()),
            content@.len() * 8 <= usize::MAX,
            i <= p,
            pos == (if i < p {
                chunks@[i as int].0
            } else {
                content@.len() as usize
            }),
            encodes_bits(out@, bits_of_bytes(content@.subrange(0, pos as int))),
        decreases p - i,
    {
        let (a, b) = chunks[i];
        assert(b <= content@.len()) by {
            if i + 1 < p {
                assert(chunks@[i as int].1 == chunks@[i + 1].0);
                assert(chunks@[i + 1].0 <= chunks@[i + 1].1);
                crate::codec::lemma_chunk_ends_bounded(chunks@, content@.len(), i as int);
            }
        }
        let mut part = encode_chunk(content, a, b, DEFAULT_BUFFER_SIZE);
        proof {
            assert(content@.subrange(0, b as int) == content@.subrange(0, a as int) + content@.subrange(
                a as int,
                b as int,
            ));
            lemma_bits_of_bytes_append(
                content@.subrange(0, a as int),
                content@.subrange(a as int, b as int),
            );
            lemma_encodes_concat(
                out@,
                bits_of_bytes(content@.subrange(0, a as int)),
                part@,
                bits_of_bytes(content@.subrange(a as int, b as int)),
            );
        }
        out.append(&mut part);
        pos = b;
        i = i + 1;
        proof {
            if i < p {
                assert(chunks@[i - 1].1 == chunks@[i as int].0);
            }
        }
    }
    let ghost head = out@;
    proof {
        assert(content@.subrange(0, content@.len() as int) == content@);
    }
    match append_trailer(out, extension) {
        Ok(v) => {
            proof {
                lemma_encodes_split(v@, head.len() as int, bits_of_bytes(content@), trailer_bits(ext@));
            }
            Ok(v)
        },
        Err(e) => Err(e),
    }
}

pub proof fn lemma_chunk_ends_bounded(r: Seq<(usize, usize)>, len: nat, i: int)
    requires
        crate::partition::covers(r, len),
        0 <= i < r.len(),
    ensures
        r[i].0 <= r[i].1 <= len,
    decreases r.len() - i,
{
    if i + 1 < r.len() {
        lemma_chunk_ends_bounded(r, len, i + 1);
    }
}

/// The bits of the tokens in `text[start..end)`; `None` where one is not a
/// number.
pub fn decode_chunk(text: &[u8], start: usize, end: usize) -> (r: Option<Vec<u8>>)
    requires
        start <= end <= text@.len(),
    ensures
        match r {
            Some(v) => bits_of_text(text@.subrange(start as int, end as int)) == Some(v@),
            None => bits_of_text(text@.subrange(start as int, end as int)) is None,
        },
{
    decode_tokens(slice_subrange(text, start, end))
}

/// Reading the text one chunk further, from a position between tokens.
pub proof fn lemma_decode_step(t: Seq<u8>, end: int, a: int, b: int, bs: Seq<u8>)
    requires
        0 <= a <= b <= end <= t.len(),
        between_tokens(t, end, a),
        bits_of_text(t.subrange(0, a)) == Some(bs),
    ensures
        match bits_of_text(t.subrange(a, b)) {
            Some(v) => bits_of_text(t.subrange(0, b)) == Some(bs + v),
            None => bits_of_text(t.subrange(0, end)) is None,
        },
{
    let x = t.subrange(0, a);
    let y = t.subrange(a, b);
    assert(t.subrange(0, b) == x + y);
    if a == end {
        assert(y == Seq::<u8>::empty());
        assert(x + y == x);
        assert(bs + Seq::<u8>::empty() == bs);
    } else {
        if a > 0 {
            assert(x.drop_last() == t.subrange(0, a - 1));
            assert(x.last() == t[a - 1]);
        } else {
            assert(x == Seq::<u8>::empty());
        }
        lemma_bits_of_text_split(x, y);
        if bits_of_text(y) is None {
            let u = t.subrange(0, end);
            assert(u.subrange(0, b) == t.subrange(0, b));
            lemma_scan_none_extends(u, b, end);
            assert(u.subrange(0, end) == u);
        }
    }
}

/// Decodes an encoded text using `p` chunks: the content and the extension.
pub fn decode(text: &[u8], p: usize) -> (r: Result<(Vec<u8>, String), DecodeError>)
    requires
        p >= 1,
    ensures
        match r {
            Ok((content, ext)) => decoded(text@) == Ok::<(Seq<u8>, Seq<char>), DecodeError>(
                (content@, ext@),
            ),
            Err(e) => decoded(text@) == Err::<(Seq<u8>, Seq<char>), DecodeError>(e),
        },
{
    let (ext, end) = match extract_extension(text) {
        Ok(found) => found,
        Err(e) => return Err(e),
    };
    let ghost eb = (parse_trailer(text@)->0).0;
    let chunks = split_token_chunks(text, end, p);
    proof {
        lemma_token_chunks_cover(text@, end as nat, p as nat, chunks@);
    }
    let mut parts: Vec<Option<Vec<u8>>> = Vec::with_capacity(p);
    let mut i: usize = 0;
    while i < chunks.len()
        invariant
            chunks@.len() == p,
            crate::partition::covers(chunks@, end as nat),
            end <= text@.len(),
            i <= p,
            parts@.len() == i,
            forall|j: int|
                0 <= j < i ==> #[trigger] parts_view(parts@)[j] == bits_of_text(
                    text@.subrange(chunks@[j].0 as int, chunks@[j].1 as int),
                ),
        decreases p - i,
    {
        let (a, b) = chunks[i];
        proof {
            lemma_chunk_ends_bounded(chunks@, end as nat, i as int);
        }
        let part = decode_chunk(text, a, b);
        let ghost before = parts@;
        parts.push(part);
        proof {
            assert forall|j: int| 0 <= j < i + 1 implies #[trigger] parts_view(parts@)[j]
                == bits_of_text(text@.subrange(chunks@[j].0 as int, chunks@[j].1 as int)) by {
                if j < i {
                    assert(parts@[j] == before[j]);
                    assert(parts_view(before)[j] == parts_view(parts@)[j]);
                }
            }
        }
        i = i + 1;
    }
    proof {
        lemma_join_chunks(text@, end as nat, chunks@, parts_view(parts@), p as int);
        assert(parts_view(parts@).subrange(0, p as int) == parts_view(parts@));
    }
    match assemble_decoded(parts) {
        Ok(content) => Ok((content, ext)),
        Err(e) => Err(e),
    }
}

/// Joining the bits of the chunks of a token split, in order, gives the bits
/// of the text up to the next chunk; where a chunk cannot be read, neither
/// can the whole content.
pub proof fn lemma_join_chunks(
    t: Seq<u8>,
    end: nat,
    chunks: Seq<(usize, usize)>,
    parts: Seq<Option<Seq<u8>>>,
    i: int,
)
    requires
        crate::partition::covers(chunks, end),
        forall|j: int|
            0 <= j < chunks.len() ==> between_tokens(t, end as int, (#[trigger] chunks[j]).0 as int),
        end <= t.len(),
        parts.len() == chunks.len(),
        forall|j: int|
            0 <= j < chunks.len() ==> #[trigger] parts[j] == bits_of_text(
                t.subrange(chunks[j].0 as int, chunks[j].1 as int),
            ),
        0 <= i <= chunks.len(),
    ensures
        match merged(parts.subrange(0, i)) {
            Some(b) => bits_of_text(
                t.subrange(
                    0,
                    if i < chunks.len() {
                        chunks[i].0 as int
                    } else {
                        end as int
                    },
                ),
            ) == Some(b),
            None => bits_of_text(t.subrange(0, end as int)) is None,
        },
    decreases i,
{
    if i == 0 {
        assert(parts.subrange(0, 0) == Seq::<Option<Seq<u8>>>::empty());
        assert(t.subrange(0, 0) == Seq::<u8>::empty());
    } else {
        lemma_join_chunks(t, end, chunks, parts, i - 1);
        let a = chunks[i - 1].0;
        let b = chunks[i - 1].1;
        lemma_chunk_ends_bounded(chunks, end, i - 1);
        assert(parts.subrange(0, i).drop_last() == parts.subrange(0, i - 1));
        assert(parts.subrange(0, i).last() == parts[i - 1]);
        if i < chunks.len() {
            assert(chunks[i - 1].1 == chunks[i].0);
        }
        if let Some(bs) = merged(parts.subrange(0, i - 1)) {
            lemma_decode_step(t, end as int, a as int, b as int, bs);
        }
    }
}

/// What the chunk outputs, joined in order, decode to: the bytes of their
/// bits, or the first thing that makes that impossible.
pub open spec fn content_of_parts(parts: Seq<Option<Seq<u8>>>) -> Result<Seq<u8>, DecodeError> {
    match merged(parts) {
        None => Err(DecodeError::MalformedToken),
        Some(bits) => if bits.len() % 8 != 0 {
            Err(DecodeError::Misaligned)
        } else {
            Ok(bytes_of_bits(bits))
        },
    }
}

/// Joins the decode workers' bits in chunk order and packs them into bytes.
pub fn assemble_decoded(parts: Vec<Option<Vec<u8>>>) -> (r: Result<Vec<u8>, DecodeError>)
    ensures
        match r {
            Ok(c) => content_of_parts(parts_view(parts@)) == Ok::<Seq<u8>, DecodeError>(c@),
            Err(e) => content_of_parts(parts_view(parts@)) == Err::<Seq<u8>, DecodeError>(e),
        },
{
    let bits = match Merger::from_parts(parts).finish() {
        Some(b) => b,
        None => return Err(DecodeError::MalformedToken),
    };
    match pack_bits(bits.as_slice()) {
        Some(c) => Ok(c),
        None => Err(DecodeError::Misaligned),
    }
}

/// The encoded content followed by the trailer for `extension`.
pub fn append_trailer(text: Vec<u8>, extension: &str) -> (r: Result<Vec<u8>, EncodeError>)
    ensures
        match r {
            Ok(v) => extension.spec_bytes().len() <= 255 && v@.len() >= text@.len()
                && v@.subrange(0, text@.len() as int) == text@ && encodes_bits(
                v@.subrange(text@.len() as int, v@.len() as int),
                trailer_bits(extension.spec_bytes()),
            ),
            Err(e) => extension.spec_bytes().len() > 255 && e == EncodeError::ExtensionTooLong,
        },
{
    let ext = extension.as_bytes();
    if ext.len() > 255 {
        return Err(EncodeError::ExtensionTooLong);
    }
    let mut out = text;
    let ghost head = out@;
    let mut trailer = encode_trailer(ext);
    let ghost tail = trailer@;
    out.append(&mut trailer);
    assert(out@.subrange(0, head.len() as int) == head);
    assert(out@.subrange(head.len() as int, out@.len() as int) == tail);
    Ok(out)
}

/// Chunk outputs that each encode their chunk's bits join, in order, into a
/// text that encodes all the bits in order.
pub proof fn lemma_merged_encodes(slots: Seq<Option<Seq<u8>>>, bits: Seq<Seq<u8>>)
    requires
        slots.len() == bits.len(),
        forall|i: int|
            0 <= i < slots.len() ==> (#[trigger] slots[i] matches Some(x) && encodes_bits(x, bits[i])),
    ensures
        merged(slots) matches Some(t) && encodes_bits(t, concat_all(bits)),
    decreases slots.len(),
{
    if slots.len() == 0 {
        assert(render(Seq::<u64>::empty()) == Seq::<u8>::empty());
        assert(parities(Seq::<u64>::empty()) == Seq::<u8>::empty());
    } else {
        let s0 = slots.drop_last();
        let b0 = bits.drop_last();
        assert forall|i: int| 0 <= i < s0.len() implies (#[trigger] s0[i] matches Some(x)
            && encodes_bits(x, b0[i])) by {
            assert(s0[i] == slots[i] && b0[i] == bits[i]);
        }
        lemma_merged_encodes(s0, b0);
        let last = slots[slots.len() - 1];
        assert(last matches Some(x) && encodes_bits(x, bits[bits.len() - 1]));
        lemma_encodes_concat(merged(s0)->0, concat_all(b0), last->0, bits.last());
    }
}

/// A text whose trailer reads, with a content byte that is neither a digit
/// nor a separator, decodes to a token error, never to a shorter content.
pub proof fn lemma_corrupt_token(t: Seq<u8>, k: int)
    requires
        parse_trailer(t) matches Some((eb, end)) && valid_utf8(eb) && 0 <= k < end,
        !is_digit(t[k]),
        !is_space(t[k]),
    ensures
        decoded(t) == Err::<(Seq<u8>, Seq<char>), DecodeError>(DecodeError::MalformedToken),
{
    let end = (parse_trailer(t)->0).1;
    crate::trailer::lemma_last_tokens_le(t, 8);
    let s1 = (last_tokens(t, 8)->0).1;
    let n = (8 * pack8((last_tokens(t, 8)->0).0)) as nat;
    crate::trailer::lemma_last_tokens_le(t.subrange(0, s1), n);
    let u = t.subrange(0, end);
    assert(u.subrange(0, k + 1).drop_last() == u.subrange(0, k));
    assert(u.subrange(0, k + 1).last() == t[k]);
    assert(scan(u.subrange(0, k + 1)) is None);
    lemma_scan_none_extends(u, k + 1, end);
    assert(u.subrange(0, end) == u);
}

/// Decoding the encoding of a content with an extension gives both back,
/// whatever magnitudes the tokens were drawn with.
#[verifier::rlimit(60)]
pub proof fn lemma_round_trip(content: Seq<u8>, ext: Seq<char>, text: Seq<u8>)
    requires
        encode_utf8(ext).len() <= 255,
        encodes_bits(text, encoded_bits(content, encode_utf8(ext))),
    ensures
        decoded(text) == Ok::<(Seq<u8>, Seq<char>), DecodeError>((content, ext)),
{
    let eb = encode_utf8(ext);
    let ts = choose|ts: Seq<u64>|
        parities(ts) == encoded_bits(content, eb) && (forall|i: int|
            0 <= i < ts.len() ==> token_in_range(#[trigger] ts[i])) && text == render(ts);
    lemma_bits_of_bytes_len(content);
    lemma_bits_of_bytes_len(eb);
    let n1 = 8 * content.len();
    let n2 = n1 + 8 * eb.len();
    let c = ts.subrange(0, n1 as int);
    let e = ts.subrange(n1 as int, n2 as int);
    let l = ts.subrange(n2 as int, ts.len() as int);
    assert(parities(ts).len() == ts.len());
    assert(byte_bits(eb.len() as u8).len() == 8);
    assert(ts.len() == n2 + 8);
    assert(ts =~= c + e + l);
    assert forall|i: int| 0 <= i < n1 implies parities(ts)[i] == #[trigger] bits_of_bytes(content)[i] by {}
    assert forall|i: int| 0 <= i < n2 - n1 implies parities(ts)[n1 + i] == #[trigger] bits_of_bytes(eb)[i] by {}
    assert forall|i: int| 0 <= i < 8 implies parities(ts)[n2 + i] == #[trigger] byte_bits(eb.len() as u8)[i] by {}
    lemma_render_append(c + e, l);
    lemma_render_append(c, e);
    assert(parities(c) =~= bits_of_bytes(content));
    assert(parities(e) =~= bits_of_bytes(eb));
    assert(parities(l) =~= byte_bits(eb.len() as u8));
    lemma_parse_trailer_of(c, e, l, eb);
    encode_utf8_valid_utf8(ext);
    encode_utf8_decode_utf8(ext);
    assert(text.subrange(0, render(c).len() as int) == render(c));
    lemma_bits_of_render(c);
    lemma_bytes_bits_round_trip(content);
}

} // verus!
