//! Byte ranges in a source text, and the slicing of a text by byte offsets.
use vstd::prelude::*;
use vstd::utf8::*;
use vstd::string::StringSliceAdditionalSpecFns;

verus! {

/// A range of bytes in a source text, `start` included and `end` excluded.
#[derive(Debug, Copy, Clone, PartialEq, Eq, Structural, Hash)]
pub struct TextRange {
    pub start: u32,
    pub end: u32,
}

impl TextRange {
    /// The range from `start` to `end`.
    pub fn new(start: u32, end: u32) -> (range: TextRange)
        requires
            start <= end,
        ensures
            range.start == start,
            range.end == end,
    {
        TextRange { start, end }
    }

    /// The offset of the first byte.
    pub fn start(&self) -> (offset: u32)
        ensures
            offset == self.start,
    {
        self.start
    }

    /// The offset after the last byte.
    pub fn end(&self) -> (offset: u32)
        ensures
            offset == self.end,
    {
        self.end
    }
}

/// The bytes of `text` from `from` up to `to`.
pub open spec fn slice_bytes(text: &str, from: int, to: int) -> Seq<u8> {
    text.spec_bytes().subrange(from, to)
}

/// A byte offset at which `text` may be cut: its start, its end, or a byte
/// that does not continue a character.
pub open spec fn cut_point(text: &str, at: int) -> bool {
    0 <= at <= text.spec_bytes().len() && (at < text.spec_bytes().len() ==> !is_continuation_byte(
        text.spec_bytes()[at],
    ))
}

/// A cut point is a place between two characters.
pub proof fn lemma_cut_point_is_boundary(text: &str, at: int)
    requires
        cut_point(text, at),
    ensures
        is_char_boundary(text.spec_bytes(), at),
{
    let bytes = text.spec_bytes();
    encode_utf8_valid_utf8(text@);
    if at == bytes.len() {
        is_char_boundary_start_end_of_seq(bytes);
    } else {
        is_char_boundary_iff_not_is_continuation_byte(bytes, at);
    }
}

/// The part of `text` between two cut points.
pub fn slice_str<'a>(text: &'a str, from: usize, to: usize) -> (part: &'a str)
    requires
        from <= to,
        cut_point(text, from as int),
        cut_point(text, to as int),
    ensures
        part.spec_bytes() == slice_bytes(text, from as int, to as int),
{
    proof {
        lemma_cut_point_is_boundary(text, to as int);
    }
    let (head, _) = text.split_at(to);
    proof {
        let bytes = text.spec_bytes();
        assert(head.spec_bytes() == bytes.subrange(0, to as int));
        if from < to {
            assert(head.spec_bytes()[from as int] == bytes[from as int]);
        }
        lemma_cut_point_is_boundary(head, from as int);
    }
    let (_, part) = head.split_at(from);
    proof {
        assert(part.spec_bytes() =~= slice_bytes(text, from as int, to as int));
    }
    part
}

} // verus!

verus! {

/// The character of a decimal digit.
pub open spec fn digit_char(d: nat) -> char {
    if d == 0 {
        '0'
    } else if d == 1 {
        '1'
    } else if d == 2 {
        '2'
    } else if d == 3 {
        '3'
    } else if d == 4 {
        '4'
    } else if d == 5 {
        '5'
    } else if d == 6 {
        '6'
    } else if d == 7 {
        '7'
    } else if d == 8 {
        '8'
    } else {
        '9'
    }
}

/// The decimal digits of `n`, the most significant first and with no leading
/// zero; `0` is the one digit `0`.
pub open spec fn decimal(n: nat) -> Seq<char>
    decreases n,
{
    if n < 10 {
        seq![digit_char(n)]
    } else {
        decimal(n / 10).push(digit_char(n % 10))
    }
}

fn digit_str(d: u64) -> (s: &'static str)
    requires
        d < 10,
    ensures
        s@ == seq![digit_char(d as nat)],
{
    proof {
        reveal_strlit("0");
        reveal_strlit("1");
        reveal_strlit("2");
        reveal_strlit("3");
        reveal_strlit("4");
        reveal_strlit("5");
        reveal_strlit("6");
        reveal_strlit("7");
        reveal_strlit("8");
        reveal_strlit("9");
    }
    let s = if d == 0 {
        "0"
    } else if d == 1 {
        "1"
    } else if d == 2 {
        "2"
    } else if d == 3 {
        "3"
    } else if d == 4 {
        "4"
    } else if d == 5 {
        "5"
    } else if d == 6 {
        "6"
    } else if d == 7 {
        "7"
    } else if d == 8 {
        "8"
    } else {
        "9"
    };
    assert(s@ =~= seq![digit_char(d as nat)]);
    s
}

/// Writes the decimal digits of `n` at the end of `out`.
pub fn push_decimal(out: &mut String, n: u64)
    ensures
        final(out)@ == old(out)@ + decimal(n as nat),
    decreases n,
{
    if n >= 10 {
        push_decimal(out, n / 10);
    }
    out.append(digit_str(n % 10));
    assert(out@ =~= old(out)@ + decimal(n as nat));
}

} // verus!

verus! {

/// The number that the first `n` of `digits` stand for.
pub open spec fn digits_value(digits: Seq<u8>, n: int) -> nat
    decreases n,
{
    if n <= 0 {
        0
    } else {
        digits_value(digits, n - 1) * 10 + (digits[n - 1] - 0x30) as nat
    }
}

/// Every byte is an ASCII digit.
pub open spec fn all_digits(bytes: Seq<u8>) -> bool {
    forall|i: int| 0 <= i < bytes.len() ==> 0x30 <= #[trigger] bytes[i] <= 0x39
}

/// The digits of a text: the text without a `+` at its start.
pub open spec fn unsigned_part(bytes: Seq<u8>) -> Seq<u8> {
    if bytes.len() > 0 && bytes[0] == 0x2b {
        bytes.subrange(1, bytes.len() as int)
    } else {
        bytes
    }
}

/// The number that a text stands for: the text is decimal digits, one at
/// the least, after at most one `+`, and the number is one that 64 bits hold.
pub open spec fn parse_u64_spec(bytes: Seq<u8>) -> Option<u64> {
    let digits = unsigned_part(bytes);
    if digits.len() > 0 && all_digits(digits) && digits_value(digits, digits.len() as int)
        <= u64::MAX {
        Some(digits_value(digits, digits.len() as int) as u64)
    } else {
        None
    }
}

proof fn lemma_digits_value_monotonic(digits: Seq<u8>, a: int, b: int)
    requires
        0 <= a <= b <= digits.len(),
        all_digits(digits),
    ensures
        digits_value(digits, a) <= digits_value(digits, b),
    decreases b,
{
    if a < b {
        lemma_digits_value_monotonic(digits, a, b - 1);
        assert(digits_value(digits, b - 1) <= digits_value(digits, b - 1) * 10) by (nonlinear_arith);
    }
}

/// The number that `text` stands for; none where the text is no number or
/// the number is too large for 64 bits.
pub fn parse_u64(text: &str) -> (n: Option<u64>)
    ensures
        n == parse_u64_spec(text.spec_bytes()),
{
    let bytes = text.as_bytes();
    let count = bytes.len();
    let first: usize = if count > 0 && bytes[0] == 0x2b {
        1
    } else {
        0
    };
    let ghost digits = unsigned_part(bytes@);
    if first == count {
        return None;
    }
    proof {
        assert(digits =~= bytes@.subrange(first as int, count as int));
    }
    let mut value: u64 = 0;
    let mut i: usize = first;
    while i < count
        invariant
            first <= i <= count,
            count == bytes@.len(),
            bytes@ == text.spec_bytes(),
            digits == unsigned_part(bytes@),
            digits == bytes@.subrange(first as int, count as int),
            forall|j: int| 0 <= j < i - first ==> 0x30 <= #[trigger] digits[j] <= 0x39,
            value == digits_value(digits, i - first),
        decreases count - i,
    {
        let b = bytes[i];
        assert(b == digits[i - first]);
        if b < 0x30 || b > 0x39 {
            proof {
                if all_digits(digits) {
                    assert(0x30 <= digits[i - first] <= 0x39);
                }
            }
            return None;
        }
        let d = (b - 0x30) as u64;
        if value > (u64::MAX - d) / 10 {
            proof {
                let limit = (u64::MAX - d) as int;
                assert(value as int * 10 > limit) by (nonlinear_arith)
                    requires
                        value as int > limit / 10,
                        limit >= 0,
                ;
                assert(digits_value(digits, i - first + 1) > u64::MAX);
                if all_digits(digits) {
                    lemma_digits_value_monotonic(digits, i - first + 1, digits.len() as int);
                }
            }
            return None;
        }
        value = value * 10 + d;
        i += 1;
    }
    Some(value)
}

} // verus!
