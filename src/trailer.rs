//! The trailer after the content tokens: the extension's bytes as tokens,
//! then eight tokens for the extension's length. It is read from the end of
//! the text, token by token, backwards.

use crate::bits::{bits_of_bytes, bytes_of_bits, byte_bits, pack8, pack_bits, bits_to_byte};
use crate::tokens::{
    is_digit, is_space, is_separator, is_digit_byte, decimal, render, parities,
    lemma_decimal_digits, lemma_render_ends,
};
use vstd::prelude::*;
use vstd::utf8::{valid_utf8, decode_utf8};

verus! {

/// The length of `t` without its trailing separators.
pub open spec fn trim_spaces_end(t: Seq<u8>) -> int
    decreases t.len(),
{
    if t.len() > 0 && is_space(t.last()) {
        trim_spaces_end(t.drop_last())
    } else {
        t.len() as int
    }
}

/// The length of `t` without its trailing digits.
pub open spec fn trim_digits_end(t: Seq<u8>) -> int
    decreases t.len(),
{
    if t.len() > 0 && is_digit(t.last()) {
        trim_digits_end(t.drop_last())
    } else {
        t.len() as int
    }
}

/// The last `k` tokens of `t`: their bits in order and where the first of
/// them starts; `None` where `t` holds fewer, or one of them is not a number.
pub open spec fn last_tokens(t: Seq<u8>, k: nat) -> Option<(Seq<u8>, int)>
    decreases k,
{
    if k == 0 {
        Some((seq![], t.len() as int))
    } else {
        let e = trim_spaces_end(t);
        let s = trim_digits_end(t.subrange(0, e));
        if s == e || (s > 0 && !is_space(t[s - 1])) {
            None
        } else {
            match last_tokens(t.subrange(0, s), (k - 1) as nat) {
                None => None,
                Some((bits, st)) => Some((bits.push((t[e - 1] % 2) as u8), st)),
            }
        }
    }
}

/// The extension's bytes and where the content ends, as the trailer at the
/// end of `t` gives them.
pub open spec fn parse_trailer(t: Seq<u8>) -> Option<(Seq<u8>, int)> {
    match last_tokens(t, 8) {
        None => None,
        Some((lb, s1)) => match last_tokens(t.subrange(0, s1), (8 * pack8(lb)) as nat) {
            None => None,
            Some((eb, s2)) => Some((bytes_of_bits(eb), s2)),
        },
    }
}

/// The bits that the trailer for `ext` carries.
pub open spec fn trailer_bits(ext: Seq<u8>) -> Seq<u8> {
    bits_of_bytes(ext) + byte_bits(ext.len() as u8)
}

pub proof fn lemma_trim_spaces_le(t: Seq<u8>)
    ensures
        0 <= trim_spaces_end(t) <= t.len(),
    decreases t.len(),
{
    if t.len() > 0 {
        lemma_trim_spaces_le(t.drop_last());
    }
}

pub proof fn lemma_trim_digits_le(t: Seq<u8>)
    ensures
        0 <= trim_digits_end(t) <= t.len(),
    decreases t.len(),
{
    if t.len() > 0 {
        lemma_trim_digits_le(t.drop_last());
    }
}

pub proof fn lemma_trim_digits_append(y: Seq<u8>, d: Seq<u8>)
    requires
        forall|i: int| 0 <= i < d.len() ==> is_digit(#[trigger] d[i]),
        y.len() == 0 || !is_digit(y.last()),
    ensures
        trim_digits_end(y + d) == y.len(),
    decreases d.len(),
{
    if d.len() == 0 {
        assert(y + d == y);
    } else {
        assert((y + d).drop_last() == y + d.drop_last());
        assert((y + d).last() == d.last());
        lemma_trim_digits_append(y, d.drop_last());
    }
}

/// The last tokens of a text that ends with rendered tokens are those tokens.
pub proof fn lemma_last_tokens_render(x: Seq<u8>, b: Seq<u64>)
    requires
        x.len() == 0 || x.last() == 32,
    ensures
        last_tokens(x + render(b), b.len()) == Some((parities(b), x.len() as int)),
    decreases b.len(),
{
    if b.len() == 0 {
        assert(x + render(b) == x);
        assert(parities(b) == Seq::<u8>::empty());
    } else {
        let n = b.last() as nat;
        let y = x + render(b.drop_last());
        let t = x + render(b);
        let d = decimal(n);
        lemma_decimal_digits(n);
        lemma_render_ends(b.drop_last());
        assert(t == y + d.push(32u8));
        assert(t.drop_last() == y + d);
        assert((y + d).last() == d.last());
        assert(is_space(t.last()));
        assert(is_digit(d.last()));
        assert(trim_spaces_end(y + d) == (y + d).len());
        assert(trim_spaces_end(t) == t.len() - 1);
        assert(t.subrange(0, t.len() - 1) == y + d);
        assert(y.len() == 0 || y.last() == 32) by {
            if render(b.drop_last()).len() > 0 {
                assert(y.last() == render(b.drop_last()).last());
            }
        }
        lemma_trim_digits_append(y, d);
        assert(y.len() > 0 ==> t[y.len() - 1] == 32) by {
            if y.len() > 0 {
                assert(t[y.len() - 1] == y[y.len() - 1]);
            }
        }
        assert(t.subrange(0, y.len() as int) == y);
        lemma_last_tokens_render(x, b.drop_last());
        assert(t[t.len() - 2] == d.last());
        assert(parities(b.drop_last()).push((n % 2) as u8) == parities(b));
    }
}

/// Reading the trailer of an encoded text gives back the extension and the
/// end of the content tokens.
pub proof fn lemma_parse_trailer_of(c: Seq<u64>, e: Seq<u64>, l: Seq<u64>, ext: Seq<u8>)
    requires
        ext.len() <= 255,
        parities(e) == bits_of_bytes(ext),
        parities(l) == byte_bits(ext.len() as u8),
    ensures
        parse_trailer(render(c) + render(e) + render(l)) == Some((ext, render(c).len() as int)),
{
    let x = render(c) + render(e);
    crate::tokens::lemma_render_append(c, e);
    lemma_render_ends(c + e);
    assert(parities(l).len() == l.len());
    assert(byte_bits(ext.len() as u8).len() == 8);
    assert(parities(e).len() == e.len());
    assert(l.len() == 8);
    lemma_last_tokens_render(x, l);
    crate::bits::lemma_pack8_byte_bits(ext.len() as u8);
    assert((x + render(l)).subrange(0, x.len() as int) == x);
    crate::bits::lemma_bits_of_bytes_len(ext);
    lemma_render_ends(c);
    lemma_last_tokens_render(render(c), e);
    crate::bits::lemma_bytes_bits_round_trip(ext);
}

/// The length of `text[0..e)` without its trailing separators.
fn trim_spaces(text: &[u8], e: usize) -> (r: usize)
    requires
        e <= text@.len(),
    ensures
        r == trim_spaces_end(text@.subrange(0, e as int)),
{
    let mut i = e;
    while i > 0
        invariant
            i <= e <= text@.len(),
            trim_spaces_end(text@.subrange(0, i as int)) == trim_spaces_end(
                text@.subrange(0, e as int),
            ),
        decreases i,
    {
        assert(text@.subrange(0, i as int).drop_last() == text@.subrange(0, i - 1));
        if !is_separator(text[i - 1]) {
            return i;
        }
        i = i - 1;
    }
    i
}

/// The length of `text[0..e)` without its trailing digits.
fn trim_digits(text: &[u8], e: usize) -> (r: usize)
    requires
        e <= text@.len(),
    ensures
        r == trim_digits_end(text@.subrange(0, e as int)),
{
    let mut i = e;
    while i > 0
        invariant
            i <= e <= text@.len(),
            trim_digits_end(text@.subrange(0, i as int)) == trim_digits_end(
                text@.subrange(0, e as int),
            ),
        decreases i,
    {
        assert(text@.subrange(0, i as int).drop_last() == text@.subrange(0, i - 1));
        if !is_digit_byte(text[i - 1]) {
            return i;
        }
        i = i - 1;
    }
    i
}

/// The bits of the last `k` tokens of `text[0..end)` and where the first of
/// them starts.
pub fn read_last_tokens(text: &[u8], end: usize, k: usize) -> (r: Option<(Vec<u8>, usize)>)
    requires
        end <= text@.len(),
    ensures
        match r {
            Some((bits, s)) => last_tokens(text@.subrange(0, end as int), k as nat) == Some(
                (bits@, s as int),
            ),
            None => last_tokens(text@.subrange(0, end as int), k as nat) is None,
        },
{
    let mut suffix: Vec<u8> = Vec::new();
    let mut e = end;
    let mut j: usize = 0;
    while j < k
        invariant
            j <= k,
            e <= end <= text@.len(),
            last_tokens(text@.subrange(0, end as int), k as nat) == (match last_tokens(
                text@.subrange(0, e as int),
                (k - j) as nat,
            ) {
                None => None,
                Some((b, st)) => Some((b + suffix@, st)),
            }),
        decreases k - j,
    {
        let ghost t = text@.subrange(0, e as int);
        let e1 = trim_spaces(text, e);
        proof {
            lemma_trim_spaces_le(t);
            assert(t.subrange(0, e1 as int) == text@.subrange(0, e1 as int));
        }
        let s = trim_digits(text, e1);
        proof {
            lemma_trim_digits_le(text@.subrange(0, e1 as int));
        }
        if s == e1 || (s > 0 && !is_separator(text[s - 1])) {
            return None;
        }
        let bit = text[e1 - 1] % 2;
        proof {
            assert(t.subrange(0, s as int) == text@.subrange(0, s as int));
            assert(t[e1 - 1] == text@[e1 - 1]);
        }
        let ghost old_suffix = suffix@;
        suffix.insert(0, bit);
        proof {
            assert forall|b: Seq<u8>| b.push(bit) + old_suffix == b + suffix@ by {
                assert(b.push(bit) + old_suffix =~= b + suffix@);
            }
        }
        e = s;
        j = j + 1;
    }
    assert(Seq::<u8>::empty() + suffix@ == suffix@);
    Some((suffix, e))
}

/// Errors of decoding: what in the text could not be read.
#[derive(Clone, Copy, Debug, PartialEq, Eq, Structural)]
pub enum DecodeError {
    /// The text does not end with a readable trailer.
    MalformedTrailer,
    /// A token of the content is not a number.
    MalformedToken,
    /// The content's token count is not a multiple of eight.
    Misaligned,
    /// The extension's bytes are not UTF-8 text.
    ExtensionNotText,
}

/// Relies on `String::from_utf8`: a string exactly when the bytes are valid
/// UTF-8, holding the characters they encode.
#[verifier::external_body]
fn utf8_text(b: Vec<u8>) -> (r: Option<String>)
    ensures
        r is Some <==> valid_utf8(b@),
        r matches Some(s) ==> s@ == decode_utf8(b@),
{
    String::from_utf8(b).ok()
}

/// The extension as text: its bytes must be UTF-8.
pub fn extension_text(bytes: Vec<u8>) -> (r: Result<String, DecodeError>)
    ensures
        match r {
            Ok(s) => valid_utf8(bytes@) && s@ == decode_utf8(bytes@),
            Err(e) => !valid_utf8(bytes@) && e == DecodeError::ExtensionNotText,
        },
{
    match utf8_text(bytes) {
        Some(s) => Ok(s),
        None => Err(DecodeError::ExtensionNotText),
    }
}

/// Reads the trailer at the end of `text`: the extension's bytes and where
/// the content tokens end.
pub fn read_trailer(text: &[u8]) -> (r: Result<(Vec<u8>, usize), DecodeError>)
    ensures
        match r {
            Ok((ext, end)) => parse_trailer(text@) == Some((ext@, end as int)) && end <= text@.len(),
            Err(err) => parse_trailer(text@) is None && err == DecodeError::MalformedTrailer,
        },
{
    assert(text@.subrange(0, text@.len() as int) == text@);
    let (len_bits, s1) = match read_last_tokens(text, text.len(), 8) {
        Some(found) => found,
        None => return Err(DecodeError::MalformedTrailer),
    };
    proof {
        lemma_last_tokens_le(text@, 8);
    }
    let ext_len = match bits_to_byte(len_bits.as_slice()) {
        Some(b) => b,
        None => return Err(DecodeError::MalformedTrailer),
    };
    proof {
        lemma_last_tokens_le(text@.subrange(0, s1 as int), (8 * ext_len) as nat);
    }
    let (ext_bits, s2) = match read_last_tokens(text, s1, 8 * (ext_len as usize)) {
        Some(found) => found,
        None => return Err(DecodeError::MalformedTrailer),
    };
    let ext = match pack_bits(ext_bits.as_slice()) {
        Some(v) => v,
        None => return Err(DecodeError::MalformedTrailer),
    };
    Ok((ext, s2))
}

/// Reads the trailer at the end of `text`: the extension, which must be
/// UTF-8 text, and where the content tokens end.
pub fn extract_extension(text: &[u8]) -> (r: Result<(String, usize), DecodeError>)
    ensures
        match r {
            Ok((ext, end)) => parse_trailer(text@) matches Some((eb, e)) && e == end && valid_utf8(eb)
                && ext@ == decode_utf8(eb) && end <= text@.len(),
            Err(err) => match parse_trailer(text@) {
                None => err == DecodeError::MalformedTrailer,
                Some((eb, _)) => !valid_utf8(eb) && err == DecodeError::ExtensionNotText,
            },
        },
{
    let (bytes, end) = match read_trailer(text) {
        Ok(found) => found,
        Err(e) => return Err(e),
    };
    match extension_text(bytes) {
        Ok(ext) => Ok((ext, end)),
        Err(e) => Err(e),
    }
}

pub proof fn lemma_last_tokens_le(t: Seq<u8>, k: nat)
    ensures
        match last_tokens(t, k) {
            Some((bits, s)) => bits.len() == k && 0 <= s <= t.len(),
            None => true,
        },
    decreases k,
{
    if k > 0 {
        let e = trim_spaces_end(t);
        lemma_trim_spaces_le(t);
        let s = trim_digits_end(t.subrange(0, e));
        lemma_trim_digits_le(t.subrange(0, e));
        lemma_last_tokens_le(t.subrange(0, s), (k - 1) as nat);
    }
}

} // verus!
