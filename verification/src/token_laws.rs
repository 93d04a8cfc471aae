//! What each token of the packed stream decodes to, stated over the control
//! bits and data bytes that it is made of.
use vstd::prelude::*;
use crate::bits::{Cursor, cursor_start, cursor_wf, read_bit, read_byte};
use crate::error::DecompressError;
use crate::header::le_word;
use crate::lzss::inflate;
use vstd::arithmetic::div_mod::lemma_div_denominator;
use vstd::arithmetic::power2::{lemma2_to64, lemma_pow2_pos, lemma_pow2_unfold, pow2};
use crate::lzss::{Token, read_token};

verus! {

/// A 1 bit followed by a byte `x` is the literal `x`.
pub proof fn lemma_literal_token(d: Seq<u8>, c: Cursor, c1: Cursor, x: u8, c2: Cursor)
    requires
        read_bit(d, c) == Some((1int, c1)),
        read_byte(d, c1) == Some((x, c2)),
    ensures
        read_token(d, c) == Some((Token::Literal(x), c2)),
{
}

/// Bits 0, 0, then length bits `b1` (read first) and `b2`, then a byte `r`,
/// copy `2 + 2*b1 + b2` bytes (2 to 5) from `256 - r` bytes back: bits 0,1
/// give 3 bytes and bits 1,0 give 4.
pub proof fn lemma_short_copy_token(
    d: Seq<u8>,
    c: Cursor,
    c1: Cursor,
    c2: Cursor,
    b1: int,
    c3: Cursor,
    b2: int,
    c4: Cursor,
    r: u8,
    c5: Cursor,
)
    requires
        cursor_wf(d, c),
        read_bit(d, c) == Some((0int, c1)),
        read_bit(d, c1) == Some((0int, c2)),
        read_bit(d, c2) == Some((b1, c3)),
        read_bit(d, c3) == Some((b2, c4)),
        read_byte(d, c4) == Some((r, c5)),
    ensures
        read_token(d, c) matches Some((Token::Copy { dist, len }, c_end)) && {
            &&& c_end == c5
            &&& dist as int == 256 - r
            &&& len as int == 2 + 2 * b1 + b2
        },
{
    crate::bits::lemma_reads_progress(d, c);
    crate::bits::lemma_reads_progress(d, c1);
    crate::bits::lemma_reads_progress(d, c2);
    crate::bits::lemma_reads_progress(d, c3);
}

/// Bits 0, 1, then bytes `lo` and `hi` whose low 3 bits are not all zero,
/// copy `(hi & 7) + 2` bytes (3 to 9) from `8192 - lo - 256 * (hi >> 3)`
/// bytes back: the 13-bit displacement is `lo` with the top 5 bits of `hi`
/// above it.
pub proof fn lemma_long_copy_token(
    d: Seq<u8>,
    c: Cursor,
    c1: Cursor,
    c2: Cursor,
    lo: u8,
    c3: Cursor,
    hi: u8,
    c4: Cursor,
)
    requires
        read_bit(d, c) == Some((0int, c1)),
        read_bit(d, c1) == Some((1int, c2)),
        read_byte(d, c2) == Some((lo, c3)),
        read_byte(d, c3) == Some((hi, c4)),
        hi & 7 != 0,
    ensures
        read_token(d, c) matches Some((Token::Copy { dist, len }, c_end)) && {
            &&& c_end == c4
            &&& dist as int == 8192 - lo - 256 * (hi >> 3)
            &&& len as int == (hi & 7) + 2
        },
{
    assert(hi & 7 == hi % 8) by (bit_vector);
    assert(hi >> 3 == hi / 8) by (bit_vector);
}

/// Bits 0, 1, bytes `lo` and `hi` with the low 3 bits of `hi` zero, then a
/// count byte `n`: 0 ends the stream, 1 is a no-op, and any other `n`
/// copies `n + 1` bytes from `8192 - lo - 256 * (hi >> 3)` bytes back.
pub proof fn lemma_long_count_token(
    d: Seq<u8>,
    c: Cursor,
    c1: Cursor,
    c2: Cursor,
    lo: u8,
    c3: Cursor,
    hi: u8,
    c4: Cursor,
    n: u8,
    c5: Cursor,
)
    requires
        read_bit(d, c) == Some((0int, c1)),
        read_bit(d, c1) == Some((1int, c2)),
        read_byte(d, c2) == Some((lo, c3)),
        read_byte(d, c3) == Some((hi, c4)),
        hi & 7 == 0,
        read_byte(d, c4) == Some((n, c5)),
    ensures
        n == 0 ==> read_token(d, c) == Some((Token::End, c5)),
        n == 1 ==> read_token(d, c) == Some((Token::Skip, c5)),
        n >= 2 ==> (read_token(d, c) matches Some((Token::Copy { dist, len }, c_end)) && {
            &&& c_end == c5
            &&& dist as int == 8192 - lo - 256 * (hi >> 3)
            &&& len as int == n + 1
        }),
{
    assert(hi & 7 == hi % 8) by (bit_vector);
    assert(hi >> 3 == hi / 8) by (bit_vector);
}

/// Where `k` control bits taken one after another from `c` leave the reader.
pub open spec fn after_bits(d: Seq<u8>, c: Cursor, k: nat) -> Option<Cursor>
    decreases k,
{
    if k == 0 {
        Some(c)
    } else {
        match after_bits(d, c, (k - 1) as nat) {
            None => None,
            Some(c1) => match read_bit(d, c1) {
                None => None,
                Some((_, c2)) => Some(c2),
            },
        }
    }
}

proof fn lemma_word_bits_state(d: Seq<u8>, s: int, k: nat)
    requires
        0 <= s,
        s + 2 <= d.len(),
        k < 16,
    ensures
        after_bits(d, cursor_start(d, s)->Some_0, k) == Some(
            Cursor { pos: s + 2, buf: le_word(d, s) / pow2(k) as int, count: 16 - k },
        ),
    decreases k,
{
    lemma2_to64();
    let c0 = cursor_start(d, s)->Some_0;
    let w = le_word(d, s);
    assert(0 <= w);
    if k == 0 {
        assert(w / 1 == w);
    } else {
        lemma_word_bits_state(d, s, (k - 1) as nat);
        lemma_pow2_unfold(k);
        lemma_pow2_pos((k - 1) as nat);
        let p = pow2((k - 1) as nat) as int;
        lemma_div_denominator(w, p, 2);
        assert(p * 2 == pow2(k) as int);
        let ck1 = Cursor { pos: s + 2, buf: w / p, count: 16 - (k - 1) };
        assert(after_bits(d, c0, (k - 1) as nat) == Some(ck1));
        assert(read_bit(d, ck1) == Some(((w / p) % 2, Cursor { pos: s + 2, buf: (w / p) / 2, count: 16 - k })));
    }
}

/// The control bits of a word are taken lowest first: the `k`-th bit read
/// from a stream that starts at `s` is bit `k` of the word at `s`.  Right
/// after its sixteenth bit, the next word is loaded from the bytes that
/// follow (here `s + 2`, when no data byte was read in between); the
/// sixteenth bit is only had when that next word is in the input.
pub proof fn lemma_control_bits_lowest_first(d: Seq<u8>, s: int)
    requires
        0 <= s,
        s + 2 <= d.len(),
    ensures
        forall|k: nat|
            k < 16 && (k < 15 || s + 4 <= d.len()) ==> (#[trigger] after_bits(d, cursor_start(d, s)->Some_0, k) matches Some(ck)
                && (read_bit(d, ck) matches Some((b, _)) && b == (le_word(d, s) / pow2(k) as int)
                % 2)),
        s + 4 <= d.len() ==> after_bits(d, cursor_start(d, s)->Some_0, 16) == Some(
            Cursor { pos: s + 4, buf: le_word(d, s + 2), count: 16 },
        ),
{
    assert forall|k: nat| k < 16 && (k < 15 || s + 4 <= d.len()) implies (#[trigger] after_bits(
        d,
        cursor_start(d, s)->Some_0,
        k,
    ) matches Some(ck) && (read_bit(d, ck) matches Some((b, _)) && b == (le_word(d, s) / pow2(
        k,
    ) as int) % 2)) by {
        lemma_word_bits_state(d, s, k);
    }
    lemma_word_bits_state(d, s, 15);
    lemma2_to64();
}

/// A back-reference error is reported only for a copy that reaches before
/// the start of the image: `span` is its negative distance and `pos` the
/// length the image had reached, at least that of `image`.
pub proof fn lemma_back_reference_error(d: Seq<u8>, c: Cursor, image: Seq<u8>)
    requires
        cursor_wf(d, c),
    ensures
        inflate(d, c, image) matches Err(DecompressError::BackReference { pos, span }) ==> (
        image.len() <= pos && pos < -span && -span <= 8192),
    decreases crate::bits::cursor_measure(d, c),
{
    crate::lzss::lemma_token_progress(d, c);
    match read_token(d, c) {
        None => {},
        Some((t, c2)) => match t {
            Token::End => {},
            Token::Skip => lemma_back_reference_error(d, c2, image),
            Token::Literal(b) => lemma_back_reference_error(d, c2, image.push(b)),
            Token::Copy { dist, len } => {
                if image.len() >= dist {
                    crate::laws::lemma_copy_run(image, dist as int, len as nat);
                    lemma_back_reference_error(d, c2, crate::lzss::copy_run(image, dist as int, len as nat));
                }
            },
        },
    }
}

/// A data byte is the next byte of the input; taking it moves the reader on
/// by one byte and leaves the control bits as they were.
pub proof fn lemma_data_byte(d: Seq<u8>, c: Cursor)
    requires
        0 <= c.pos,
    ensures
        c.pos < d.len() ==> read_byte(d, c) == Some(
            (d[c.pos], Cursor { pos: c.pos + 1, buf: c.buf, count: c.count }),
        ),
        c.pos >= d.len() ==> read_byte(d, c) is None,
{
}

/// What each token does to the image: a literal appends its byte, a no-op
/// leaves the image as it is, a copy that reaches inside the image appends
/// the bytes that `lemma_copy_run` describes, one that reaches before it is
/// a back-reference error at the current length, the end mark yields the
/// image, and a stream cut short is a truncation error.
pub proof fn lemma_token_effects(d: Seq<u8>, c: Cursor, image: Seq<u8>)
    requires
        cursor_wf(d, c),
    ensures
        read_token(d, c) is None ==> inflate(d, c, image) == Err::<Seq<u8>, DecompressError>(
            DecompressError::TruncatedStream,
        ),
        read_token(d, c) matches Some((Token::End, _)) ==> inflate(d, c, image) == Ok::<
            Seq<u8>,
            DecompressError,
        >(image),
        read_token(d, c) matches Some((Token::Skip, c2)) ==> inflate(d, c, image) == inflate(
            d,
            c2,
            image,
        ),
        read_token(d, c) matches Some((Token::Literal(b), c2)) ==> inflate(d, c, image) == inflate(
            d,
            c2,
            image.push(b),
        ),
        read_token(d, c) matches Some((Token::Copy { dist, len }, c2)) ==> (dist <= image.len()
            ==> inflate(d, c, image) == inflate(
            d,
            c2,
            crate::lzss::copy_run(image, dist as int, len as nat),
        )),
        read_token(d, c) matches Some((Token::Copy { dist, len }, c2)) ==> (dist > image.len()
            ==> inflate(d, c, image) == Err::<Seq<u8>, DecompressError>(
            DecompressError::BackReference { pos: image.len() as usize, span: -(dist as int) as i32 },
        )),
{
    crate::lzss::lemma_token_progress(d, c);
    assert(inflate(d, c, image) == match read_token(d, c) {
        None => Err(DecompressError::TruncatedStream),
        Some((t, c2)) => match t {
            Token::End => Ok(image),
            Token::Skip => inflate(d, c2, image),
            Token::Literal(b) => inflate(d, c2, image.push(b)),
            Token::Copy { dist, len } => if image.len() < dist {
                Err(DecompressError::BackReference { pos: image.len() as usize, span: (-dist) as i32 })
            } else {
                inflate(d, c2, crate::lzss::copy_run(image, dist as int, len as nat))
            },
        },
    });
}

} // verus!
