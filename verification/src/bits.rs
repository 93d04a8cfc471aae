//! The LZEXE bit stream: 16-bit little-endian control words, read from the
//! lowest bit up, interleaved with whole data bytes.
use vstd::prelude::*;
use crate::header::{le_word, read_u16le};
use vstd::arithmetic::power2::{lemma2_to64, lemma_pow2_unfold, pow2};

verus! {

/// Where a reader stands in the stream: the next unread byte, the control
/// bits not yet consumed, and how many of them are left.
pub struct Cursor {
    pub pos: int,
    pub buf: int,
    pub count: int,
}

/// A cursor that a reader can be in: inside the input, with 1 to 16 bits of
/// a control word left, and nothing in the buffer but those unread bits.
pub open spec fn cursor_wf(d: Seq<u8>, c: Cursor) -> bool {
    &&& 0 <= c.pos <= d.len()
    &&& 1 <= c.count <= 16
    &&& 0 <= c.buf < pow2(c.count as nat)
}

/// Every read consumes a bit or a byte, so this decreases with each read.
pub open spec fn cursor_measure(d: Seq<u8>, c: Cursor) -> int {
    16 * (d.len() - c.pos) + c.count
}

/// The cursor of a stream whose first control word stands at `start`;
/// `None` when that word does not fit in the input.
pub open spec fn cursor_start(d: Seq<u8>, start: int) -> Option<Cursor> {
    if 0 <= start && start + 2 <= d.len() {
        Some(Cursor { pos: start + 2, buf: le_word(d, start), count: 16 })
    } else {
        None
    }
}

/// Takes the lowest control bit.  When that empties the control word, the
/// next word is loaded at once; `None` when that word is missing.
pub open spec fn read_bit(d: Seq<u8>, c: Cursor) -> Option<(int, Cursor)> {
    let bit = c.buf % 2;
    if c.count == 1 {
        if 0 <= c.pos && c.pos + 2 <= d.len() {
            Some((bit, Cursor { pos: c.pos + 2, buf: le_word(d, c.pos), count: 16 }))
        } else {
            None
        }
    } else {
        Some((bit, Cursor { pos: c.pos, buf: c.buf / 2, count: c.count - 1 }))
    }
}

/// Takes the next data byte; `None` at the end of the input.
pub open spec fn read_byte(d: Seq<u8>, c: Cursor) -> Option<(u8, Cursor)> {
    if 0 <= c.pos < d.len() {
        Some((d[c.pos], Cursor { pos: c.pos + 1, buf: c.buf, count: c.count }))
    } else {
        None
    }
}

/// A stream that starts inside the input starts at a well-formed cursor.
pub proof fn lemma_start_wf(d: Seq<u8>, start: int)
    ensures
        cursor_start(d, start) matches Some(c) ==> cursor_wf(d, c),
{
    lemma2_to64();
}

/// Reads keep a cursor well formed (the buffer never holds more than its
/// unread bits) and lower its measure.
pub proof fn lemma_reads_progress(d: Seq<u8>, c: Cursor)
    requires
        cursor_wf(d, c),
    ensures
        read_bit(d, c) matches Some((b, c2)) ==> {
            &&& cursor_wf(d, c2)
            &&& cursor_measure(d, c2) < cursor_measure(d, c)
            &&& (b == 0 || b == 1)
        },
        read_byte(d, c) matches Some((_, c2)) ==> {
            &&& cursor_wf(d, c2)
            &&& cursor_measure(d, c2) < cursor_measure(d, c)
        },
{
    lemma2_to64();
    if c.count == 1 && 0 <= c.pos && c.pos + 2 <= d.len() {
        assert(0 <= le_word(d, c.pos) < 0x10000);
    }
    if c.count > 1 {
        lemma_pow2_unfold(c.count as nat);
    }
}

/// A reader over a packed file.
pub struct Bits<'a> {
    src: &'a [u8],
    pos: usize,
    buf: u16,
    count: u8,
}

impl<'a> Bits<'a> {
    pub closed spec fn input(&self) -> Seq<u8> {
        self.src@
    }

    pub closed spec fn cursor(&self) -> Cursor {
        Cursor { pos: self.pos as int, buf: self.buf as int, count: self.count as int }
    }

    pub closed spec fn wf(&self) -> bool {
        cursor_wf(self.src@, self.cursor())
    }

    pub proof fn lemma_wf(&self)
        ensures
            self.wf() <==> cursor_wf(self.input(), self.cursor()),
    {
    }

    /// A reader whose first control word stands at `pos`; `None` when the
    /// input ends before that word does.
    pub fn new(src: &'a [u8], pos: usize) -> (r: Option<Self>)
        ensures
            match r {
                Some(b) => {
                    &&& b.input() == src@
                    &&& b.wf()
                    &&& cursor_start(src@, pos as int) == Some(b.cursor())
                },
                None => cursor_start(src@, pos as int) is None,
            },
    {
        if pos >= src.len() || src.len() - pos < 2 {
            return None;
        }
        let buf = read_u16le(src, pos);
        proof {
            lemma2_to64();
        }
        Some(Bits { src, pos: pos + 2, buf, count: 16 })
    }

    /// Takes the next control bit (0 or 1).  When the input ends before the
    /// next control word that the bit calls for, the reader is left as it was.
    pub fn get(&mut self) -> (r: Option<u8>)
        requires
            old(self).wf(),
        ensures
            final(self).input() == old(self).input(),
            final(self).wf(),
            match r {
                Some(b) => read_bit(old(self).input(), old(self).cursor()) == Some(
                    (b as int, final(self).cursor()),
                ),
                None => {
                    &&& read_bit(old(self).input(), old(self).cursor()) is None
                    &&& final(self).cursor() == old(self).cursor()
                },
            },
    {
        proof {
            lemma_reads_progress(self.src@, self.cursor());
        }
        let buf = self.buf;
        let b = (buf & 1) as u8;
        assert(buf & 1 == buf % 2) by (bit_vector);
        assert(buf >> 1 == buf / 2) by (bit_vector);
        if self.count == 1 {
            if self.pos >= self.src.len() || self.src.len() - self.pos < 2 {
                return None;
            }
            self.buf = read_u16le(self.src, self.pos);
            self.pos = self.pos + 2;
            self.count = 16;
        } else {
            self.buf = buf >> 1;
            self.count = self.count - 1;
        }
        Some(b)
    }

    /// Takes the next data byte; at the end of the input the reader is left
    /// as it was.
    pub fn byte(&mut self) -> (r: Option<u8>)
        requires
            old(self).wf(),
        ensures
            final(self).input() == old(self).input(),
            final(self).wf(),
            match r {
                Some(b) => read_byte(old(self).input(), old(self).cursor()) == Some(
                    (b, final(self).cursor()),
                ),
                None => {
                    &&& read_byte(old(self).input(), old(self).cursor()) is None
                    &&& final(self).cursor() == old(self).cursor()
                },
            },
    {
        proof {
            lemma_reads_progress(self.src@, self.cursor());
        }
        if self.pos >= self.src.len() {
            return None;
        }
        let b = self.src[self.pos];
        self.pos = self.pos + 1;
        Some(b)
    }
}

} // verus!
