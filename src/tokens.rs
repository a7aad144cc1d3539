//! One bit per decimal token: an even token stands for `0`, an odd one for
//! `1`. Every token in the text is followed by one space.

use crate::bits::all_bits;
use rand::Rng;
use vstd::prelude::*;

verus! {

/// Magnitudes are drawn from `[1, MAGNITUDE_BOUND)`, so that every token
/// `2m` or `2m + 1` lies below `TOKEN_BOUND`.
pub const MAGNITUDE_BOUND: u32 = 0x2000_0000;

/// Every token lies in `[1, TOKEN_BOUND)`.
pub const TOKEN_BOUND: u32 = 0x4000_0000;

/// Relies on rand 0.8's `thread_rng().gen_range(lo..hi)`: a value of the
/// half-open range, which is not empty.
#[verifier::external_body]
fn draw_in(lo: u32, hi: u32) -> (r: u32)
    requires
        lo < hi,
    ensures
        lo <= r < hi,
{
    rand::thread_rng().gen_range(lo..hi)
}

/// A token separator: ASCII space, tab, line feed, vertical tab, form feed or
/// carriage return.
pub open spec fn is_space(c: u8) -> bool {
    c == 32 || (9 <= c && c <= 13)
}

pub open spec fn is_digit(c: u8) -> bool {
    48 <= c && c <= 57
}

/// The decimal digits of `n`, as ASCII, without leading zeros.
pub open spec fn decimal(n: nat) -> Seq<u8>
    decreases n,
{
    if n < 10 {
        seq![(48 + n) as u8]
    } else {
        decimal(n / 10).push((48 + n % 10) as u8)
    }
}

/// The text of one token: its digits and a space.
pub open spec fn token_text(t: nat) -> Seq<u8> {
    decimal(t).push(32u8)
}

/// The text of a token sequence.
pub open spec fn render(ts: Seq<u64>) -> Seq<u8>
    decreases ts.len(),
{
    if ts.len() == 0 {
        seq![]
    } else {
        render(ts.drop_last()) + token_text(ts.last() as nat)
    }
}

/// The bit each token stands for.
pub open spec fn parities(ts: Seq<u64>) -> Seq<u8> {
    Seq::new(ts.len(), |i: int| (ts[i] % 2) as u8)
}

/// The token for `bit` with magnitude `m`.
pub open spec fn token_of(bit: u8, m: u32) -> u64 {
    (2 * m + bit) as u64
}

/// A token that the encoder can emit.
pub open spec fn token_in_range(t: u64) -> bool {
    1 <= t < TOKEN_BOUND
}

/// The tokens for `bits` with the given magnitudes, pairwise.
pub open spec fn tokens_of(bits: Seq<u8>, mags: Seq<u32>) -> Seq<u64> {
    Seq::new(bits.len(), |i: int| token_of(bits[i], mags[i]))
}

/// Where reading a text has got to: the bits of the finished tokens, and the
/// bit of the token being read, if one is.
pub type ScanState = (Seq<u8>, Option<u8>);

/// Reads one more character. A digit's code has the parity of its value.
pub open spec fn scan_step(st: ScanState, c: u8) -> Option<ScanState> {
    if is_space(c) {
        match st.1 {
            Some(b) => Some((st.0.push(b), None)),
            None => Some((st.0, None)),
        }
    } else if is_digit(c) {
        Some((st.0, Some((c % 2) as u8)))
    } else {
        None
    }
}

/// Reads a text from the start; `None` once a character is neither a digit
/// nor a separator.
pub open spec fn scan(t: Seq<u8>) -> Option<ScanState>
    decreases t.len(),
{
    if t.len() == 0 {
        Some((seq![], None))
    } else {
        match scan(t.drop_last()) {
            None => None,
            Some(st) => scan_step(st, t.last()),
        }
    }
}

/// The bits of a text of separated decimal tokens, or `None` where it holds
/// anything else.
pub open spec fn bits_of_text(t: Seq<u8>) -> Option<Seq<u8>> {
    match scan(t) {
        None => None,
        Some((bits, None)) => Some(bits),
        Some((bits, Some(b))) => Some(bits.push(b)),
    }
}

/// The token for `bit` with magnitude `m`: `2m` for `0`, `2m + 1` for `1`.
pub fn bit_to_token(bit: u8, m: u32) -> (r: u64)
    requires
        bit <= 1,
        1 <= m < MAGNITUDE_BOUND,
    ensures
        r == token_of(bit, m),
        r == 2 * m + bit,
{
    2 * (m as u64) + (bit as u64)
}

/// The bit that a token stands for: its parity.
pub fn token_to_bit(token: u64) -> (r: u8)
    ensures
        r == token % 2,
{
    (token % 2) as u8
}

/// Appends the decimal digits of `n`.
pub fn push_decimal(out: &mut Vec<u8>, n: u64)
    ensures
        final(out)@ == old(out)@ + decimal(n as nat),
    decreases n,
{
    if n >= 10 {
        push_decimal(out, n / 10);
    }
    out.push(48u8 + (n % 10) as u8);
    proof {
        if n < 10 {
            assert(decimal(n as nat) == seq![(48 + n) as u8]);
        }
    }
}

pub proof fn lemma_render_append(a: Seq<u64>, b: Seq<u64>)
    ensures
        render(a + b) == render(a) + render(b),
    decreases b.len(),
{
    if b.len() == 0 {
        assert(a + b == a);
    } else {
        lemma_render_append(a, b.drop_last());
        assert((a + b).drop_last() == a + b.drop_last());
    }
}

/// Text for the given bits, each with its given magnitude.
pub fn tokens_text(bits: &[u8], mags: &[u32]) -> (r: Vec<u8>)
    requires
        all_bits(bits@),
        mags@.len() == bits@.len(),
        forall|i: int| 0 <= i < mags@.len() ==> 1 <= #[trigger] mags@[i] < MAGNITUDE_BOUND,
    ensures
        r@ == render(tokens_of(bits@, mags@)),
{
    let mut out: Vec<u8> = Vec::new();
    let mut i: usize = 0;
    while i < bits.len()
        invariant
            i <= bits@.len(),
            mags@.len() == bits@.len(),
            all_bits(bits@),
            forall|j: int| 0 <= j < mags@.len() ==> 1 <= #[trigger] mags@[j] < MAGNITUDE_BOUND,
            out@ == render(tokens_of(bits@, mags@).subrange(0, i as int)),
        decreases bits@.len() - i,
    {
        let t = bit_to_token(bits[i], mags[i]);
        push_decimal(&mut out, t);
        out.push(32u8);
        let ghost ts = tokens_of(bits@, mags@);
        assert(ts.subrange(0, i + 1).drop_last() == ts.subrange(0, i as int));
        i = i + 1;
    }
    assert(tokens_of(bits@, mags@).subrange(0, bits@.len() as int) == tokens_of(bits@, mags@));
    out
}

/// The text of some tokens in range whose parities are `bits`.
pub open spec fn encodes_bits(text: Seq<u8>, bits: Seq<u8>) -> bool {
    exists|ts: Seq<u64>|
        parities(ts) == bits && (forall|i: int| 0 <= i < ts.len() ==> token_in_range(#[trigger] ts[i]))
            && text == render(ts)
}

pub proof fn lemma_tokens_of_encodes(bits: Seq<u8>, mags: Seq<u32>)
    requires
        all_bits(bits),
        mags.len() == bits.len(),
        forall|i: int| 0 <= i < mags.len() ==> 1 <= #[trigger] mags[i] < MAGNITUDE_BOUND,
    ensures
        encodes_bits(render(tokens_of(bits, mags)), bits),
{
    let ts = tokens_of(bits, mags);
    assert forall|i: int| 0 <= i < ts.len() implies token_in_range(#[trigger] ts[i]) by {
        assert(1 <= mags[i] < MAGNITUDE_BOUND);
    }
    assert(parities(ts) == bits);
}

/// Text for the given bits, each token with a fresh random magnitude.
pub fn encode_to_useless(bits: &[u8]) -> (r: Vec<u8>)
    requires
        all_bits(bits@),
    ensures
        encodes_bits(r@, bits@),
{
    let mut mags: Vec<u32> = Vec::with_capacity(bits.len());
    let mut i: usize = 0;
    while i < bits.len()
        invariant
            i <= bits@.len(),
            mags@.len() == i,
            forall|j: int| 0 <= j < mags@.len() ==> 1 <= #[trigger] mags@[j] < MAGNITUDE_BOUND,
        decreases bits@.len() - i,
    {
        mags.push(draw_in(1, MAGNITUDE_BOUND));
        i = i + 1;
    }
    let r = tokens_text(bits, mags.as_slice());
    proof {
        lemma_tokens_of_encodes(bits@, mags@);
    }
    r
}

/// Reading the digits of `n` leaves the parity of `n` pending.
pub proof fn lemma_scan_decimal(a: Seq<u8>, n: nat)
    requires
        scan(a) is Some,
    ensures
        scan(a + decimal(n)) == Some(((scan(a)->0).0, Some((n % 2) as u8))),
    decreases n,
{
    let d = (48 + n % 10) as u8;
    assert((48 + n % 10) % 2 == n % 2) by (nonlinear_arith);
    if n < 10 {
        assert((a + decimal(n)).drop_last() == a);
    } else {
        lemma_scan_decimal(a, n / 10);
        assert((a + decimal(n)).drop_last() == a + decimal(n / 10));
    }
}

/// A rendered token sequence reads back as its parities.
pub proof fn lemma_scan_render(ts: Seq<u64>)
    ensures
        scan(render(ts)) == Some((parities(ts), None::<u8>)),
    decreases ts.len(),
{
    if ts.len() == 0 {
        assert(parities(ts) == Seq::<u8>::empty());
    } else {
        let a = render(ts.drop_last());
        let n = ts.last() as nat;
        lemma_scan_render(ts.drop_last());
        lemma_scan_decimal(a, n);
        assert((a + token_text(n)).drop_last() == a + decimal(n));
        assert(parities(ts.drop_last()).push((n % 2) as u8) == parities(ts));
    }
}

pub proof fn lemma_bits_of_render(ts: Seq<u64>)
    ensures
        bits_of_text(render(ts)) == Some(parities(ts)),
{
    lemma_scan_render(ts);
}

/// After a text that ends between tokens, reading goes on as from the start.
pub proof fn lemma_scan_append(x: Seq<u8>, y: Seq<u8>)
    requires
        scan(x) matches Some((_, None)),
    ensures
        scan(x + y) == (match scan(y) {
            None => None,
            Some((by, p)) => Some(((scan(x)->0).0 + by, p)),
        }),
    decreases y.len(),
{
    let bx = (scan(x)->0).0;
    if y.len() == 0 {
        assert(x + y == x);
        assert(bx + Seq::<u8>::empty() == bx);
    } else {
        lemma_scan_append(x, y.drop_last());
        assert((x + y).drop_last() == x + y.drop_last());
        assert((x + y).last() == y.last());
        match scan(y.drop_last()) {
            None => {},
            Some((by, p)) => {
                if let Some(b) = p {
                    assert((bx + by).push(b) == bx + by.push(b));
                }
            },
        }
    }
}

/// Bits of a text cut after a separator are the bits of the two parts.
pub proof fn lemma_bits_of_text_split(x: Seq<u8>, y: Seq<u8>)
    requires
        scan(x) matches Some((_, None)),
    ensures
        bits_of_text(x + y) == (match bits_of_text(y) {
            None => None,
            Some(by) => Some((scan(x)->0).0 + by),
        }),
{
    lemma_scan_append(x, y);
    let bx = (scan(x)->0).0;
    if let Some((by, Some(b))) = scan(y) {
        assert((bx + by).push(b) == bx + by.push(b));
    }
}

/// A text that cannot be read stays so, whatever follows.
pub proof fn lemma_scan_none_extends(t: Seq<u8>, i: int, j: int)
    requires
        0 <= i <= j <= t.len(),
        scan(t.subrange(0, i)) is None,
    ensures
        scan(t.subrange(0, j)) is None,
    decreases j - i,
{
    if j > i {
        lemma_scan_none_extends(t, i, j - 1);
        assert(t.subrange(0, j).drop_last() == t.subrange(0, j - 1));
    }
}

/// The bits of a text of separated decimal tokens; `None` where a character
/// is neither a digit nor a separator.
pub fn decode_tokens(text: &[u8]) -> (r: Option<Vec<u8>>)
    ensures
        match r {
            Some(v) => bits_of_text(text@) == Some(v@),
            None => bits_of_text(text@) is None,
        },
{
    let mut bits: Vec<u8> = Vec::new();
    let mut pending: Option<u8> = None;
    let mut i: usize = 0;
    while i < text.len()
        invariant
            i <= text@.len(),
            scan(text@.subrange(0, i as int)) == Some((bits@, pending)),
        decreases text@.len() - i,
    {
        let c = text[i];
        assert(text@.subrange(0, i + 1).drop_last() == text@.subrange(0, i as int));
        if c == 32 || (9 <= c && c <= 13) {
            if let Some(b) = pending {
                bits.push(b);
                pending = None;
            }
        } else if 48 <= c && c <= 57 {
            pending = Some(c % 2);
        } else {
            proof {
                lemma_scan_none_extends(text@, i + 1, text@.len() as int);
                assert(text@.subrange(0, text@.len() as int) == text@);
            }
            return None;
        }
        i = i + 1;
    }
    assert(text@.subrange(0, text@.len() as int) == text@);
    if let Some(b) = pending {
        bits.push(b);
    }
    Some(bits)
}

/// Every token the encoder emits carries its bit in its parity and lies in
/// `[1, TOKEN_BOUND)`.
pub proof fn lemma_token_parity(bit: u8, m: u32)
    requires
        bit <= 1,
        1 <= m < MAGNITUDE_BOUND,
    ensures
        token_of(bit, m) % 2 == bit,
        token_in_range(token_of(bit, m)),
{
}

/// Whether `c` separates tokens.
pub fn is_separator(c: u8) -> (r: bool)
    ensures
        r == is_space(c),
{
    c == 32 || (9 <= c && c <= 13)
}

/// Whether `c` is an ASCII digit.
pub fn is_digit_byte(c: u8) -> (r: bool)
    ensures
        r == is_digit(c),
{
    48 <= c && c <= 57
}

pub proof fn lemma_decimal_digits(n: nat)
    ensures
        decimal(n).len() >= 1,
        forall|i: int| 0 <= i < decimal(n).len() ==> is_digit(#[trigger] decimal(n)[i]),
        decimal(n).last() == 48 + n % 10,
        decimal(n).last() % 2 == n % 2,
    decreases n,
{
    assert((48 + n % 10) % 2 == n % 2) by (nonlinear_arith);
    if n >= 10 {
        lemma_decimal_digits(n / 10);
    }
}

pub proof fn lemma_render_ends(ts: Seq<u64>)
    ensures
        render(ts).len() == 0 || render(ts).last() == 32,
{
    if ts.len() > 0 {
        let a = render(ts.drop_last());
        let b = token_text(ts.last() as nat);
        assert((a + b).last() == b.last());
    }
}

} // verus!
