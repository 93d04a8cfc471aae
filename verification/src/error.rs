//! Why a file that carries an LZEXE stub could not be unpacked, and the
//! message that `decompress` reports for it.
use vstd::prelude::*;

verus! {

/// The ways in which a file that looks LZEXE-packed can be corrupt.
#[derive(Clone, Copy, Debug, PartialEq, Eq, Structural)]
pub enum DecompressError {
    /// The 16-byte information block at CS:0 lies past the end of the file.
    TruncatedHeader,
    /// The packed relocation table runs past the end of the file.
    TruncatedRelocations,
    /// The packed load image runs past the end of the file.
    TruncatedStream,
    /// A back-reference reaches before the start of the image: `pos` is the
    /// length of the image so far, `span` the (negative) displacement.
    BackReference { pos: usize, span: i32 },
}

/// The character of a decimal digit.
pub open spec fn digit_char(d: int) -> char {
    if d == 0 {
        '0'
    } else if d == 1 {
        '1'
    } else if d == 2 {
        '2'
    } else if d == 3 {
        '3'
    } else if d == 4 {
        '4'
    } else if d == 5 {
        '5'
    } else if d == 6 {
        '6'
    } else if d == 7 {
        '7'
    } else if d == 8 {
        '8'
    } else {
        '9'
    }
}

/// `n` written in decimal, without leading zeros.
pub open spec fn decimal(n: nat) -> Seq<char>
    decreases n,
{
    if n < 10 {
        seq![digit_char(n as int)]
    } else {
        decimal(n / 10).push(digit_char(n as int % 10))
    }
}

/// `x` written in decimal, with a minus sign when negative.
pub open spec fn signed_decimal(x: int) -> Seq<char> {
    if x < 0 {
        seq!['-'] + decimal((-x) as nat)
    } else {
        decimal(x as nat)
    }
}

/// The message that `decompress` gives for `e`.
pub open spec fn error_message(e: DecompressError) -> Seq<char> {
    match e {
        DecompressError::TruncatedHeader => "Truncated LZEXE header"@,
        DecompressError::TruncatedRelocations => "Relocation table truncated"@,
        DecompressError::TruncatedStream => "Packed image truncated"@,
        DecompressError::BackReference { pos, span } => "Back-reference out of bounds: pos="@
            + decimal(pos as nat) + " span="@ + signed_decimal(span as int) + " i=0"@,
    }
}

/// The number that a string of decimal digits stands for.
pub open spec fn decimal_value(s: Seq<char>) -> int
    decreases s.len(),
{
    if s.len() == 0 {
        0
    } else {
        decimal_value(s.drop_last()) * 10 + (s.last() as int - '0' as int)
    }
}

proof fn lemma_digit_char(x: int)
    requires
        0 <= x < 10,
    ensures
        digit_char(x) as int == '0' as int + x,
{
    assert('0' as int == 48 && '1' as int == 49 && '2' as int == 50 && '3' as int == 51);
    assert('4' as int == 52 && '5' as int == 53 && '6' as int == 54 && '7' as int == 55);
    assert('8' as int == 56 && '9' as int == 57);
}

/// `decimal(n)` is the usual decimal form of `n`: digits only, no leading
/// zero, standing for `n`; a single digit exactly when `n < 10`.
pub proof fn lemma_decimal(n: nat)
    ensures
        decimal_value(decimal(n)) == n,
        decimal(n).len() >= 1,
        decimal(n).len() == 1 <==> n < 10,
        forall|i: int| 0 <= i < decimal(n).len() ==> '0' <= #[trigger] decimal(n)[i] <= '9',
        decimal(n).len() > 1 ==> decimal(n)[0] != '0',
    decreases n,
{
    if n < 10 {
        lemma_digit_char(n as int);
        let s = decimal(n);
        assert(s.drop_last() =~= Seq::<char>::empty());
        assert(decimal_value(s) == decimal_value(s.drop_last()) * 10 + (s.last() as int - '0' as int));
    } else {
        lemma_digit_char(n as int % 10);
        lemma_decimal(n / 10);
        let p = decimal(n / 10);
        let s = decimal(n);
        assert(s.drop_last() == p);
        assert(s.last() == digit_char(n as int % 10));
        assert(decimal_value(s) == decimal_value(p) * 10 + (s.last() as int - '0' as int));
        assert(s[0] == p[0]);
        assert forall|i: int| 0 <= i < s.len() implies '0' <= #[trigger] s[i] <= '9' by {
            if i < p.len() {
                assert(s[i] == p[i]);
            }
        }
        if p.len() == 1 {
            lemma_digit_char((n / 10) as int);
            assert(p[0] == digit_char((n / 10) as int));
        }
    }
}

fn digit_str(d: u64) -> (r: &'static str)
    requires
        d < 10,
    ensures
        r@ == seq![digit_char(d as int)],
{
    proof {
        reveal_strlit("0");
        reveal_strlit("1");
        reveal_strlit("2");
        reveal_strlit("3");
        reveal_strlit("4");
        reveal_strlit("5");
        reveal_strlit("6");
        reveal_strlit("7");
        reveal_strlit("8");
        reveal_strlit("9");
    }
    if d == 0 {
        "0"
    } else if d == 1 {
        "1"
    } else if d == 2 {
        "2"
    } else if d == 3 {
        "3"
    } else if d == 4 {
        "4"
    } else if d == 5 {
        "5"
    } else if d == 6 {
        "6"
    } else if d == 7 {
        "7"
    } else if d == 8 {
        "8"
    } else {
        "9"
    }
}

/// Appends `n` in decimal.
fn append_decimal(s: &mut String, n: u64)
    ensures
        final(s)@ == old(s)@ + decimal(n as nat),
    decreases n,
{
    if n >= 10 {
        append_decimal(s, n / 10);
    }
    s.append(digit_str(n % 10));
    proof {
        if n >= 10 {
            assert(old(s)@ + decimal(n as nat) =~= old(s)@ + decimal((n / 10) as nat) + seq![
                digit_char(n as int % 10),
            ]);
        } else {
            assert(old(s)@ + decimal(n as nat) =~= old(s)@ + seq![digit_char(n as int % 10)]);
        }
    }
}

impl DecompressError {
    /// The message for this error.
    pub fn message(&self) -> (m: String)
        ensures
            m@ == error_message(*self),
    {
        match *self {
            DecompressError::TruncatedHeader => String::from_str("Truncated LZEXE header"),
            DecompressError::TruncatedRelocations => String::from_str("Relocation table truncated"),
            DecompressError::TruncatedStream => String::from_str("Packed image truncated"),
            DecompressError::BackReference { pos, span } => {
                let mut m = String::from_str("Back-reference out of bounds: pos=");
                append_decimal(&mut m, pos as u64);
                m.append(" span=");
                if span < 0 {
                    m.append("-");
                    append_decimal(&mut m, (-(span as i64)) as u64);
                    proof {
                        reveal_strlit("-");
                    }
                } else {
                    append_decimal(&mut m, span as u64);
                }
                m.append(" i=0");
                assert(m@ =~= error_message(*self));
                m
            },
        }
    }
}

} // verus!
