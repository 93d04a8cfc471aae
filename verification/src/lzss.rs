//! The LZSS code of the packed load image: its tokens, what each one does to
//! the image, and the decoder that runs them to the end mark.
use vstd::prelude::*;
use crate::bits::{Bits, Cursor, cursor_measure, cursor_wf, lemma_reads_progress, read_bit, read_byte};
use crate::error::DecompressError;

verus! {

/// One step of the packed stream.
#[derive(Clone, Copy, Debug, PartialEq, Eq, Structural)]
pub enum Token {
    /// Append this byte.
    Literal(u8),
    /// Append `len` bytes, each a copy of the byte `dist` positions back.
    Copy { dist: u16, len: u16 },
    /// A no-op that the packer emits between segments.
    Skip,
    /// The end of the image.
    End,
}

/// The distance of a short back-reference, from its displacement byte
/// (the byte is the low half of a negative 16-bit displacement).
pub open spec fn short_dist(r: u8) -> int {
    256 - r
}

/// The distance of a long back-reference: 13 bits of negative displacement,
/// the low 8 in `lo` and the high 5 in the top bits of `hi`.
pub open spec fn long_dist(lo: u8, hi: u8) -> int {
    8192 - lo - 256 * (hi / 8)
}

/// Decodes the token at `c`: a 1 bit and a literal byte; 0,0, two length
/// bits and a displacement byte (short copy, 2 to 5 bytes); or 0,1, two
/// bytes with a 13-bit displacement and a 3-bit length, where length 0 is
/// followed by a count byte: 0 ends the stream, 1 is a no-op, and n copies
/// n + 1 bytes.  `None` when the input ends first.
pub open spec fn read_token(d: Seq<u8>, c: Cursor) -> Option<(Token, Cursor)> {
    match read_bit(d, c) {
        None => None,
        Some((b1, c1)) => if b1 == 1 {
            match read_byte(d, c1) {
                None => None,
                Some((x, c2)) => Some((Token::Literal(x), c2)),
            }
        } else {
            match read_bit(d, c1) {
                None => None,
                Some((b2, c2)) => if b2 == 0 {
                    match read_bit(d, c2) {
                        None => None,
                        Some((hb, c3)) => match read_bit(d, c3) {
                            None => None,
                            Some((lb, c4)) => match read_byte(d, c4) {
                                None => None,
                                Some((r, c5)) => Some((
                                    Token::Copy {
                                        dist: short_dist(r) as u16,
                                        len: (2 * hb + lb + 2) as u16,
                                    },
                                    c5,
                                )),
                            },
                        },
                    }
                } else {
                    match read_byte(d, c2) {
                        None => None,
                        Some((lo, c3)) => match read_byte(d, c3) {
                            None => None,
                            Some((hi, c4)) => {
                                let dist = long_dist(lo, hi) as u16;
                                if hi % 8 != 0 {
                                    Some((Token::Copy { dist, len: (hi % 8 + 2) as u16 }, c4))
                                } else {
                                    match read_byte(d, c4) {
                                        None => None,
                                        Some((n, c5)) => if n == 0 {
                                            Some((Token::End, c5))
                                        } else if n == 1 {
                                            Some((Token::Skip, c5))
                                        } else {
                                            Some((Token::Copy { dist, len: (n + 1) as u16 }, c5))
                                        },
                                    }
                                }
                            },
                        },
                    }
                },
            }
        },
    }
}

/// `image` followed by `len` bytes, each the byte `dist` positions before it
/// (so a copy may overlap the bytes it appends).
pub open spec fn copy_run(image: Seq<u8>, dist: int, len: nat) -> Seq<u8>
    decreases len,
{
    if len == 0 {
        image
    } else {
        copy_run(image.push(image[image.len() - dist]), dist, (len - 1) as nat)
    }
}

/// Decoding a token moves a well-formed cursor forward, and every copy it
/// yields has a distance of at least 1 and a length of at least 2.
pub proof fn lemma_token_progress(d: Seq<u8>, c: Cursor)
    requires
        cursor_wf(d, c),
    ensures
        read_token(d, c) matches Some((t, c2)) ==> {
            &&& cursor_wf(d, c2)
            &&& cursor_measure(d, c2) < cursor_measure(d, c)
            &&& (t matches Token::Copy { dist, len } ==> 1 <= dist <= 8192 && 2 <= len <= 256)
        },
{
    lemma_reads_progress(d, c);
    if let Some((b1, c1)) = read_bit(d, c) {
        lemma_reads_progress(d, c1);
        if let Some((b2, c2)) = read_bit(d, c1) {
            lemma_reads_progress(d, c2);
            if let Some((hb, c3)) = read_bit(d, c2) {
                lemma_reads_progress(d, c3);
                if let Some((lb, c4)) = read_bit(d, c3) {
                    lemma_reads_progress(d, c4);
                }
            }
            if let Some((lo, c3)) = read_byte(d, c2) {
                lemma_reads_progress(d, c3);
                if let Some((hi, c4)) = read_byte(d, c3) {
                    lemma_reads_progress(d, c4);
                }
            }
        }
    }
}

/// The image that the stream at `c` unpacks to, appended to `image`, or the
/// error that stops it.
pub open spec fn inflate(d: Seq<u8>, c: Cursor, image: Seq<u8>) -> Result<Seq<u8>, DecompressError>
    decreases cursor_measure(d, c),
    when cursor_wf(d, c)
{
    proof {
        lemma_token_progress(d, c);
    }
    match read_token(d, c) {
        None => Err(DecompressError::TruncatedStream),
        Some((t, c2)) => match t {
            Token::End => Ok(image),
            Token::Skip => inflate(d, c2, image),
            Token::Literal(b) => inflate(d, c2, image.push(b)),
            Token::Copy { dist, len } => if image.len() < dist {
                Err(DecompressError::BackReference { pos: image.len() as usize, span: (-dist) as i32 })
            } else {
                inflate(d, c2, copy_run(image, dist as int, len as nat))
            },
        },
    }
}

/// Decodes the next token.
pub fn next_token(bits: &mut Bits) -> (r: Option<Token>)
    requires
        old(bits).wf(),
    ensures
        final(bits).input() == old(bits).input(),
        match r {
            Some(t) => {
                &&& final(bits).wf()
                &&& read_token(old(bits).input(), old(bits).cursor()) == Some((t, final(bits).cursor()))
            },
            None => read_token(old(bits).input(), old(bits).cursor()) is None,
        },
{
    let b1 = match bits.get() {
        Some(b) => b,
        None => return None,
    };
    if b1 == 1 {
        return match bits.byte() {
            Some(x) => Some(Token::Literal(x)),
            None => None,
        };
    }
    let b2 = match bits.get() {
        Some(b) => b,
        None => return None,
    };
    if b2 == 0 {
        let hb = match bits.get() {
            Some(b) => b,
            None => return None,
        };
        let lb = match bits.get() {
            Some(b) => b,
            None => return None,
        };
        let r = match bits.byte() {
            Some(x) => x,
            None => return None,
        };
        let len = (hb as u16) * 2 + lb as u16 + 2;
        let dist = 256 - r as u16;
        Some(Token::Copy { dist, len })
    } else {
        let lo = match bits.byte() {
            Some(x) => x,
            None => return None,
        };
        let hi = match bits.byte() {
            Some(x) => x,
            None => return None,
        };
        let dist: u16 = 8192 - lo as u16 - 256 * (hi as u16 / 8);
        if hi % 8 != 0 {
            return Some(Token::Copy { dist, len: (hi % 8) as u16 + 2 });
        }
        let n = match bits.byte() {
            Some(x) => x,
            None => return None,
        };
        if n == 0 {
            Some(Token::End)
        } else if n == 1 {
            Some(Token::Skip)
        } else {
            Some(Token::Copy { dist, len: n as u16 + 1 })
        }
    }
}

/// Appends `len` bytes to `image`, each a copy of the byte `dist` back.
pub fn copy_back(image: &mut Vec<u8>, dist: usize, len: usize)
    requires
        1 <= dist <= old(image)@.len(),
    ensures
        final(image)@ == copy_run(old(image)@, dist as int, len as nat),
{
    let mut i: usize = 0;
    while i < len
        invariant
            i <= len,
            1 <= dist <= image@.len(),
            copy_run(image@, dist as int, (len - i) as nat) == copy_run(
                old(image)@,
                dist as int,
                len as nat,
            ),
        decreases len - i,
    {
        let b = image[image.len() - dist];
        image.push(b);
        i = i + 1;
    }
}

/// Runs the stream from the reader's position to its end mark and returns
/// the unpacked image.
pub fn inflate_stream(bits: &mut Bits) -> (r: Result<Vec<u8>, DecompressError>)
    requires
        old(bits).wf(),
    ensures
        match r {
            Ok(v) => inflate(old(bits).input(), old(bits).cursor(), Seq::empty()) == Ok::<
                Seq<u8>,
                DecompressError,
            >(v@),
            Err(e) => inflate(old(bits).input(), old(bits).cursor(), Seq::empty()) == Err::<
                Seq<u8>,
                DecompressError,
            >(e),
        },
{
    let ghost d = bits.input();
    let ghost c0 = bits.cursor();
    let mut image: Vec<u8> = Vec::new();
    proof {
        bits.lemma_wf();
    }
    loop
        invariant
            bits.wf(),
            bits.input() == d,
            d == old(bits).input(),
            c0 == old(bits).cursor(),
            cursor_wf(d, c0),
            cursor_wf(d, bits.cursor()),
            inflate(d, bits.cursor(), image@) == inflate(d, c0, Seq::empty()),
        decreases cursor_measure(d, bits.cursor()),
    {
        let ghost c = bits.cursor();
        proof {
            lemma_token_progress(d, c);
        }
        let t = match next_token(bits) {
            Some(t) => t,
            None => return Err(DecompressError::TruncatedStream),
        };
        proof {
            bits.lemma_wf();
        }
        match t {
            Token::End => return Ok(image),
            Token::Skip => {},
            Token::Literal(b) => image.push(b),
            Token::Copy { dist, len } => {
                if image.len() < dist as usize {
                    let pos = image.len();
                    return Err(DecompressError::BackReference { pos, span: -(dist as i32) });
                }
                copy_back(&mut image, dist as usize, len as usize);
            },
        }
    }
}

} // verus!
