//! The mathematical model of frames and of their wire form.
use vstd::prelude::*;
use vstd::utf8::*;

verus! {

/// A frame as a mathematical value.
pub enum Frame {
    Simple(Seq<char>),
    Error(Seq<char>),
    Integer(int),
    Bulk(Seq<u8>),
    Null,
    Array(Seq<Frame>),
}

/// The outcome of reading one frame from a buffer at a position.
pub enum Scan {
    /// A whole frame, and the position just past it.
    Done(Frame, int),
    /// The buffer ends before the frame does.
    Incomplete,
    /// The bytes cannot start a frame.
    Invalid,
}

pub open spec fn crlf() -> Seq<u8> {
    seq![13u8, 10u8]
}

pub open spec fn is_digit(b: u8) -> bool {
    48 <= b <= 57
}

/// The decimal digits of `n`, most significant first, without leading zeros.
pub open spec fn digits(n: nat) -> Seq<u8>
    decreases n,
{
    if n < 10 {
        seq![(48 + n) as u8]
    } else {
        digits(n / 10).push((48 + n % 10) as u8)
    }
}

/// The decimal text of an integer, with a leading `-` when negative.
pub open spec fn decimal(i: int) -> Seq<u8> {
    if i < 0 {
        seq![45u8] + digits((-i) as nat)
    } else {
        digits(i as nat)
    }
}

/// The number that a run of digits denotes.
pub open spec fn digits_value(s: Seq<u8>) -> nat
    decreases s.len(),
{
    if s.len() == 0 {
        0
    } else {
        digits_value(s.drop_last()) * 10 + (s.last() - 48) as nat
    }
}

pub open spec fn all_digits(s: Seq<u8>) -> bool {
    forall|i: int| 0 <= i < s.len() ==> is_digit(#[trigger] s[i])
}

pub open spec fn in_i64(i: int) -> bool {
    i64::MIN <= i <= i64::MAX
}

/// The signed 64-bit integer a line spells: an optional `-`, then one or
/// more digits, and nothing else.
pub open spec fn decimal_value(s: Seq<u8>) -> Option<int> {
    if s.len() > 0 && s[0] == 45 {
        let d = s.drop_first();
        if d.len() > 0 && all_digits(d) && in_i64(-digits_value(d)) {
            Some(-digits_value(d))
        } else {
            None
        }
    } else if s.len() > 0 && all_digits(s) && in_i64(digits_value(s) as int) {
        Some(digits_value(s) as int)
    } else {
        None
    }
}

pub open spec fn crlf_at(b: Seq<u8>, i: int) -> bool {
    0 <= i && i + 1 < b.len() && b[i] == 13 && b[i + 1] == 10
}

/// The position of the first `\r\n` at or after `i`, if any.
pub open spec fn line_end(b: Seq<u8>, i: int) -> Option<int>
    decreases b.len() - i,
{
    if i < 0 || i + 1 >= b.len() {
        None
    } else if crlf_at(b, i) {
        Some(i)
    } else {
        line_end(b, i + 1)
    }
}

/// A stretch of bytes without `\r\n` does not change where the next line ends.
pub proof fn lemma_line_end_skip(b: Seq<u8>, i: int, j: int)
    requires
        0 <= i <= j,
        forall|k: int| i <= k < j ==> !#[trigger] crlf_at(b, k),
    ensures
        line_end(b, i) == line_end(b, j),
    decreases j - i,
{
    if i < j {
        lemma_line_end_skip(b, i + 1, j);
    }
}

/// Where the line that follows the tag byte at `pos` ends.
pub open spec fn line_after(b: Seq<u8>, pos: int) -> Option<int> {
    match line_end(b, pos + 1) {
        Some(e) => if pos + 1 <= e && e + 2 <= b.len() {
            Some(e)
        } else {
            None
        },
        None => None,
    }
}

/// A line that can stand in a frame: it holds no `\r\n`.
pub open spec fn line_ok(s: Seq<u8>) -> bool {
    forall|i: int| #![trigger crlf_at(s, i)] !crlf_at(s, i)
}

impl Frame {
    /// What can be written as a frame and read back: lines without `\r\n`,
    /// integers and lengths that fit 64 bits, and the same of every element.
    pub open spec fn wf(self) -> bool
        decreases self,
    {
        match self {
            Frame::Simple(s) => line_ok(encode_utf8(s)),
            Frame::Error(s) => line_ok(encode_utf8(s)),
            Frame::Integer(i) => in_i64(i),
            Frame::Bulk(b) => b.len() <= i64::MAX,
            Frame::Null => true,
            Frame::Array(items) => items.len() <= i64::MAX && forall|k: int|
                0 <= k < items.len() ==> (#[trigger] items[k]).wf(),
        }
    }

    /// The wire form of a frame.
    pub open spec fn encode(self) -> Seq<u8>
        decreases self,
    {
        match self {
            Frame::Simple(s) => seq![43u8] + encode_utf8(s) + crlf(),
            Frame::Error(s) => seq![45u8] + encode_utf8(s) + crlf(),
            Frame::Integer(i) => seq![58u8] + decimal(i) + crlf(),
            Frame::Bulk(b) => seq![36u8] + decimal(b.len() as int) + crlf() + b + crlf(),
            Frame::Null => seq![36u8, 45u8, 49u8] + crlf(),
            Frame::Array(items) => seq![42u8] + decimal(items.len() as int) + crlf()
                + encode_all(items),
        }
    }
}

/// The wire forms of a sequence of frames, one after another.
pub open spec fn encode_all(items: Seq<Frame>) -> Seq<u8>
    decreases items,
{
    if items.len() == 0 {
        Seq::empty()
    } else {
        encode_all(items.drop_last()) + items.last().encode()
    }
}

/// Reads one frame from `b` at `pos`.
pub open spec fn scan(b: Seq<u8>, pos: int) -> Scan
    decreases b.len() - pos, 0int,
{
    if pos < 0 || pos >= b.len() {
        Scan::Incomplete
    } else {
        match line_after(b, pos) {
            None => if b[pos] == 43 || b[pos] == 45 || b[pos] == 58 || b[pos] == 36 || b[pos]
                == 42 {
                Scan::Incomplete
            } else {
                Scan::Invalid
            },
            Some(e) => {
                let line = b.subrange(pos + 1, e);
                if b[pos] == 43 || b[pos] == 45 {
                    if valid_utf8(line) {
                        if b[pos] == 43 {
                            Scan::Done(Frame::Simple(decode_utf8(line)), e + 2)
                        } else {
                            Scan::Done(Frame::Error(decode_utf8(line)), e + 2)
                        }
                    } else {
                        Scan::Invalid
                    }
                } else if b[pos] == 58 {
                    match decimal_value(line) {
                        Some(v) => Scan::Done(Frame::Integer(v), e + 2),
                        None => Scan::Invalid,
                    }
                } else if b[pos] == 36 {
                    if line == seq![45u8, 49u8] {
                        Scan::Done(Frame::Null, e + 2)
                    } else {
                        match decimal_value(line) {
                            Some(n) => if n < 0 {
                                Scan::Invalid
                            } else if e + 2 + n + 2 > b.len() {
                                Scan::Incomplete
                            } else if crlf_at(b, e + 2 + n) {
                                Scan::Done(Frame::Bulk(b.subrange(e + 2, e + 2 + n)), e + 4 + n)
                            } else {
                                Scan::Invalid
                            },
                            None => Scan::Invalid,
                        }
                    }
                } else if b[pos] == 42 {
                    match decimal_value(line) {
                        Some(n) => if n < 0 {
                            Scan::Invalid
                        } else {
                            scan_items(b, e + 2, n as nat, Seq::empty())
                        },
                        None => Scan::Invalid,
                    }
                } else {
                    Scan::Invalid
                }
            },
        }
    }
}

/// Reads `n` more elements of an array from `b` at `pos`, after the
/// elements `done` already read.
pub open spec fn scan_items(b: Seq<u8>, pos: int, n: nat, done: Seq<Frame>) -> Scan
    decreases b.len() - pos, 1int,
{
    if n == 0 {
        Scan::Done(Frame::Array(done), pos)
    } else if pos < 0 || pos >= b.len() {
        Scan::Incomplete
    } else {
        match scan(b, pos) {
            Scan::Done(f, e) => if e <= pos || e > b.len() {
                // an element always lies within the buffer and takes a byte at least
                Scan::Invalid
            } else {
                scan_items(b, e, (n - 1) as nat, done.push(f))
            },
            other => other,
        }
    }
}

pub proof fn lemma_digits(n: nat)
    ensures
        digits(n).len() > 0,
        all_digits(digits(n)),
        digits_value(digits(n)) == n,
    decreases n,
{
    if n < 10 {
        assert(digits(n).drop_last() =~= Seq::<u8>::empty());
        assert(digits(n).last() == (48 + n) as u8);
        assert(digits_value(digits(n)) == digits_value(digits(n).drop_last()) * 10 + (digits(n).last() - 48) as nat);
    } else {
        lemma_digits(n / 10);
        let d = digits(n / 10);
        assert(n % 10 < 10);
        assert(digits(n).last() == (48 + n % 10) as u8);
        assert(digits(n).drop_last() =~= d);
        assert(digits_value(digits(n)) == digits_value(d) * 10 + (n % 10));
        assert((n / 10) * 10 + n % 10 == n) by (nonlinear_arith);
        assert forall|i: int| 0 <= i < digits(n).len() implies is_digit(#[trigger] digits(n)[i]) by {
            if i < d.len() {
                assert(digits(n)[i] == d[i]);
            }
        }
    }
}

pub proof fn lemma_decimal_value(i: int)
    requires
        in_i64(i),
    ensures
        decimal_value(decimal(i)) == Some(i),
        all_digits(decimal(i).drop_first()),
        decimal(i).len() > 0,
        forall|k: int| 0 <= k < decimal(i).len() ==> (#[trigger] decimal(i)[k]) != 13,
{
    if i < 0 {
        lemma_digits((-i) as nat);
        assert(decimal(i).drop_first() =~= digits((-i) as nat));
        assert forall|k: int| 0 <= k < decimal(i).len() implies (#[trigger] decimal(i)[k]) != 13 by {
            if k > 0 {
                assert(decimal(i)[k] == digits((-i) as nat)[k - 1]);
            }
        }
    } else {
        lemma_digits(i as nat);
        let d = digits(i as nat);
        assert(is_digit(d[0]));
        assert forall|k: int| 0 <= k < d.drop_first().len() implies is_digit(#[trigger] d.drop_first()[k]) by {
            assert(d.drop_first()[k] == d[k + 1]);
        }
        assert forall|k: int| 0 <= k < decimal(i).len() implies (#[trigger] decimal(i)[k]) != 13 by {
            assert(is_digit(d[k]));
        }
    }
}

/// A longer run of digits never denotes less.
pub proof fn lemma_digits_value_prefix(s: Seq<u8>, k: int)
    requires
        0 <= k <= s.len(),
    ensures
        digits_value(s.take(k)) <= digits_value(s),
    decreases s.len(),
{
    if k < s.len() {
        assert(s.drop_last().take(k) =~= s.take(k));
        lemma_digits_value_prefix(s.drop_last(), k);
    } else {
        assert(s.take(k) =~= s);
    }
}

} // verus!
