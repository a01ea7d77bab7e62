use vstd::prelude::*;
use crate::input::Input;
use crate::error::{ErrMode, Error, ErrorKind, Needed, PResult};
use crate::parser::Parser;

verus! {

/// Matches a fixed sequence of bytes and returns it.
///
/// In streaming mode, a view that ends while it still agrees with the tag asks
/// for the missing bytes.
#[derive(Clone, Copy, Debug)]
pub struct Tag<'t> {
    pub tag: &'t [u8],
}

impl<'t> Tag<'t> {
    pub fn new(tag: &'t [u8]) -> (r: Tag<'t>)
        ensures
            r.tag == tag,
    {
        Tag { tag }
    }
}

/// Whether the first `n` bytes of `a` and `b` agree.
pub open spec fn agree_on(a: Seq<u8>, b: Seq<u8>, n: int) -> bool {
    forall|j: int| 0 <= j < n ==> a[j] == b[j]
}

impl<'a, 't> Parser<'a, &'t [u8]> for Tag<'t> {
    open spec fn spec_parse(&self, input: Input<'a>) -> PResult<'a, &'t [u8]> {
        let t = self.tag@;
        let d = input.bytes();
        let m = if d.len() < t.len() { d.len() } else { t.len() };
        if !agree_on(d, t, m as int) {
            Err(ErrMode::Backtrack(Error { input, kind: ErrorKind::Tag }))
        } else if t.len() <= d.len() {
            Ok((input.spec_advance(t.len()), self.tag))
        } else if input.streaming {
            Err(ErrMode::Incomplete(Needed::Size((t.len() - d.len()) as usize)))
        } else {
            Err(ErrMode::Backtrack(Error { input, kind: ErrorKind::Tag }))
        }
    }

    proof fn lemma_parse_rest(&self, input: Input<'a>) {
    }

    fn parse_next(&self, input: Input<'a>) -> (r: PResult<'a, &'t [u8]>) {
        let t = self.tag;
        let n = input.len();
        let m = if n < t.len() { n } else { t.len() };
        let mut i: usize = 0;
        while i < m
            invariant
                input.wf(),
                n == input.spec_len(),
                m <= n,
                m <= t@.len(),
                t == self.tag,
                i <= m,
                agree_on(input.bytes(), t@, i as int),
            decreases m - i,
        {
            if input.byte_at(i) != t[i] {
                return Err(ErrMode::Backtrack(Error::new(input, ErrorKind::Tag)));
            }
            i = i + 1;
        }
        if t.len() <= n {
            Ok((input.advance(t.len()), t))
        } else if input.is_streaming() {
            Err(ErrMode::Incomplete(Needed::new(t.len() - n)))
        } else {
            Err(ErrMode::Backtrack(Error::new(input, ErrorKind::Tag)))
        }
    }
}


/// Takes exactly `count` bytes and returns them as a view, in the mode of the
/// input.
///
/// When fewer remain it asks for the missing bytes in streaming mode, and fails
/// recoverably with kind `Eof` in complete mode.
#[derive(Clone, Copy, Debug)]
pub struct Take {
    pub count: usize,
}

impl Take {
    pub fn new(count: usize) -> (r: Take)
        ensures
            r.count == count,
    {
        Take { count }
    }
}

impl<'a> Parser<'a, Input<'a>> for Take {
    open spec fn spec_parse(&self, input: Input<'a>) -> PResult<'a, Input<'a>> {
        let n = self.count as nat;
        if n <= input.spec_len() {
            Ok((input.spec_advance(n), input.spec_window(n)))
        } else if input.streaming {
            Err(ErrMode::Incomplete(Needed::Size((n - input.spec_len()) as usize)))
        } else {
            Err(ErrMode::Backtrack(Error { input, kind: ErrorKind::Eof }))
        }
    }

    proof fn lemma_parse_rest(&self, input: Input<'a>) {
    }

    fn parse_next(&self, input: Input<'a>) -> (r: PResult<'a, Input<'a>>) {
        let len = input.len();
        if self.count <= len {
            Ok((input.advance(self.count), input.window(self.count)))
        } else if input.is_streaming() {
            Err(ErrMode::Incomplete(Needed::new(self.count - len)))
        } else {
            Err(ErrMode::Backtrack(Error::new(input, ErrorKind::Eof)))
        }
    }
}

/// Whether `b` is an ASCII decimal digit.
pub open spec fn is_digit(b: u8) -> bool {
    48 <= b <= 57
}

fn is_digit_byte(b: u8) -> (r: bool)
    ensures
        r == is_digit(b),
{
    48 <= b && b <= 57
}

/// The end of the run of digits of `d` that goes on from position `i`.
pub open spec fn digits_end(d: Seq<u8>, i: int) -> int
    decreases d.len() - i,
{
    if 0 <= i < d.len() && is_digit(d[i]) {
        digits_end(d, i + 1)
    } else {
        i
    }
}

/// The number written in decimal by the digits `d`.
pub open spec fn decimal_value(d: Seq<u8>) -> nat
    decreases d.len(),
{
    if d.len() == 0 {
        0
    } else {
        decimal_value(d.drop_last()) * 10 + (d.last() - 48) as nat
    }
}

/// Matches one or more ASCII digits and returns them as a view.
///
/// In streaming mode a run of digits that reaches the end of the view asks for
/// one more byte, since the number may go on.
#[derive(Clone, Copy, Debug)]
pub struct Digits;

impl<'a> Parser<'a, Input<'a>> for Digits {
    open spec fn spec_parse(&self, input: Input<'a>) -> PResult<'a, Input<'a>> {
        let n = digits_end(input.bytes(), 0);
        if n == input.spec_len() && input.streaming {
            Err(ErrMode::Incomplete(Needed::Size(1)))
        } else if n == 0 {
            Err(ErrMode::Backtrack(Error { input, kind: ErrorKind::Digit }))
        } else {
            Ok((input.spec_advance(n as nat), input.spec_window(n as nat)))
        }
    }

    proof fn lemma_parse_rest(&self, input: Input<'a>) {
        lemma_digits_end_bounds(input.bytes(), 0);
    }

    fn parse_next(&self, input: Input<'a>) -> (r: PResult<'a, Input<'a>>) {
        let len = input.len();
        let mut i: usize = 0;
        while i < len && is_digit_byte(input.byte_at(i))
            invariant
                input.wf(),
                len == input.spec_len(),
                i <= len,
                digits_end(input.bytes(), i as int) == digits_end(input.bytes(), 0),
            decreases len - i,
        {
            i = i + 1;
        }
        if i == len && input.is_streaming() {
            Err(ErrMode::Incomplete(Needed::new(1)))
        } else if i == 0 {
            Err(ErrMode::Backtrack(Error::new(input, ErrorKind::Digit)))
        } else {
            Ok((input.advance(i), input.window(i)))
        }
    }
}

pub proof fn lemma_digits_end_bounds(d: Seq<u8>, i: int)
    requires
        0 <= i <= d.len(),
    ensures
        i <= digits_end(d, i) <= d.len(),
    decreases d.len() - i,
{
    if i < d.len() && is_digit(d[i]) {
        lemma_digits_end_bounds(d, i + 1);
    }
}

pub proof fn lemma_digits_end_all_digits(d: Seq<u8>, i: int, j: int)
    requires
        0 <= i <= j < digits_end(d, i),
        digits_end(d, i) <= d.len(),
    ensures
        is_digit(d[j]),
    decreases d.len() - i,
{
    if i < d.len() && is_digit(d[i]) {
        if i < j {
            lemma_digits_end_all_digits(d, i + 1, j);
        }
    }
}

/// A longer run of digits has a value no smaller.
pub proof fn lemma_decimal_value_grows(d: Seq<u8>, a: int, b: int)
    requires
        0 <= a <= b <= d.len(),
    ensures
        decimal_value(d.take(a)) <= decimal_value(d.take(b)),
    decreases b - a,
{
    if a < b {
        lemma_decimal_value_grows(d, a, b - 1);
        assert(d.take(b).drop_last() =~= d.take(b - 1));
    }
}

/// Matches one or more ASCII digits and returns the number they write, which
/// must fit in a `u32`.
///
/// A number too large for a `u32` fails recoverably with kind `MapRes` at the
/// input; other failures are those of [`Digits`].
#[derive(Clone, Copy, Debug)]
pub struct Decimal;

impl<'a> Parser<'a, u32> for Decimal {
    open spec fn spec_parse(&self, input: Input<'a>) -> PResult<'a, u32> {
        match Digits.spec_parse(input) {
            Ok((rest, ds)) => if decimal_value(ds.bytes()) <= u32::MAX {
                Ok((rest, decimal_value(ds.bytes()) as u32))
            } else {
                Err(ErrMode::Backtrack(Error { input, kind: ErrorKind::MapRes }))
            },
            Err(e) => Err(e),
        }
    }

    proof fn lemma_parse_rest(&self, input: Input<'a>) {
        Digits.lemma_parse_rest(input);
    }

    fn parse_next(&self, input: Input<'a>) -> (r: PResult<'a, u32>) {
        match Digits.parse_next(input) {
            Err(e) => Err(e),
            Ok((rest, ds)) => {
                let ghost d = ds.bytes();
                proof {
                    lemma_digits_end_bounds(input.bytes(), 0);
                    assert(d =~= input.bytes().take(digits_end(input.bytes(), 0)));
                    assert forall|j: int| 0 <= j < d.len() implies is_digit(#[trigger] d[j]) by {
                        lemma_digits_end_all_digits(input.bytes(), 0, j);
                    }
                }
                let n = ds.len();
                let mut v: u32 = 0;
                let mut k: usize = 0;
                while k < n
                    invariant
                        Digits.spec_parse(input) == Ok::<(Input<'a>, Input<'a>), ErrMode<Error<'a>>>((rest, ds)),
                        ds.wf(),
                        d == ds.bytes(),
                        n == d.len(),
                        k <= n,
                        forall|j: int| 0 <= j < d.len() ==> is_digit(#[trigger] d[j]),
                        v == decimal_value(d.take(k as int)),
                    decreases n - k,
                {
                    let digit = ds.byte_at(k) - 48;
                    let w: u64 = v as u64 * 10 + digit as u64;
                    proof {
                        assert(d.take(k + 1).drop_last() =~= d.take(k as int));
                        assert(d.take(k + 1).last() == d[k as int]);
                        assert(decimal_value(d.take(k + 1)) == w);
                    }
                    if w > u32::MAX as u64 {
                        proof {
                            lemma_decimal_value_grows(d, k + 1, n as int);
                            assert(d.take(n as int) =~= d);
                        }
                        return Err(ErrMode::Backtrack(Error::new(input, ErrorKind::MapRes)));
                    }
                    v = w as u32;
                    k = k + 1;
                }
                proof {
                    assert(d.take(n as int) =~= d);
                }
                Ok((rest, v))
            },
        }
    }
}

/// Reads one byte.
///
/// With no byte left it asks for one in streaming mode, and fails recoverably
/// with kind `Eof` in complete mode.
#[derive(Clone, Copy, Debug)]
pub struct BeU8;

impl<'a> Parser<'a, u8> for BeU8 {
    open spec fn spec_parse(&self, input: Input<'a>) -> PResult<'a, u8> {
        if 1 <= input.spec_len() {
            Ok((input.spec_advance(1), input.bytes()[0]))
        } else if input.streaming {
            Err(ErrMode::Incomplete(Needed::Size(1)))
        } else {
            Err(ErrMode::Backtrack(Error { input, kind: ErrorKind::Eof }))
        }
    }

    proof fn lemma_parse_rest(&self, input: Input<'a>) {
    }

    fn parse_next(&self, input: Input<'a>) -> (r: PResult<'a, u8>) {
        if 1 <= input.len() {
            Ok((input.advance(1), input.byte_at(0)))
        } else if input.is_streaming() {
            Err(ErrMode::Incomplete(Needed::new(1)))
        } else {
            Err(ErrMode::Backtrack(Error::new(input, ErrorKind::Eof)))
        }
    }
}

/// Reads a big-endian `u16` from two bytes.
///
/// With fewer than two bytes left it asks for the missing ones in streaming
/// mode, and fails recoverably with kind `Eof` in complete mode.
#[derive(Clone, Copy, Debug)]
pub struct BeU16;

impl<'a> Parser<'a, u16> for BeU16 {
    open spec fn spec_parse(&self, input: Input<'a>) -> PResult<'a, u16> {
        if 2 <= input.spec_len() {
            Ok((input.spec_advance(2), (input.bytes()[0] * 256 + input.bytes()[1]) as u16))
        } else if input.streaming {
            Err(ErrMode::Incomplete(Needed::Size((2 - input.spec_len()) as usize)))
        } else {
            Err(ErrMode::Backtrack(Error { input, kind: ErrorKind::Eof }))
        }
    }

    proof fn lemma_parse_rest(&self, input: Input<'a>) {
    }

    fn parse_next(&self, input: Input<'a>) -> (r: PResult<'a, u16>) {
        let len = input.len();
        if 2 <= len {
            let hi = input.byte_at(0) as u16;
            let lo = input.byte_at(1) as u16;
            Ok((input.advance(2), hi * 256 + lo))
        } else if input.is_streaming() {
            Err(ErrMode::Incomplete(Needed::new(2 - len)))
        } else {
            Err(ErrMode::Backtrack(Error::new(input, ErrorKind::Eof)))
        }
    }
}

/// Runs `first`, then `second` on what it leaves, and returns both outputs.
///
/// A failure of either is the result.
#[derive(Clone, Copy, Debug)]
pub struct Pair<P, Q> {
    pub first: P,
    pub second: Q,
}

impl<P, Q> Pair<P, Q> {
    pub fn new(first: P, second: Q) -> (r: Pair<P, Q>)
        ensures
            r.first == first,
            r.second == second,
    {
        Pair { first, second }
    }
}

impl<'a, O1, O2, P: Parser<'a, O1>, Q: Parser<'a, O2>> Parser<'a, (O1, O2)> for Pair<P, Q> {
    open spec fn spec_parse(&self, input: Input<'a>) -> PResult<'a, (O1, O2)> {
        match self.first.spec_parse(input) {
            Err(e) => Err(e),
            Ok((mid, a)) => match self.second.spec_parse(mid) {
                Err(e) => Err(e),
                Ok((rest, b)) => Ok((rest, (a, b))),
            },
        }
    }

    proof fn lemma_parse_rest(&self, input: Input<'a>) {
        self.first.lemma_parse_rest(input);
        if let Ok((mid, a)) = self.first.spec_parse(input) {
            self.second.lemma_parse_rest(mid);
        }
    }

    fn parse_next(&self, input: Input<'a>) -> (r: PResult<'a, (O1, O2)>) {
        match self.first.parse_next(input) {
            Err(e) => Err(e),
            Ok((mid, a)) => {
                proof {
                    self.first.lemma_parse_rest(input);
                }
                match self.second.parse_next(mid) {
                    Err(e) => Err(e),
                    Ok((rest, b)) => Ok((rest, (a, b))),
                }
            },
        }
    }
}

/// Runs `parser` and turns its recoverable failures into committed ones, for a
/// grammar that has passed the point where an alternative could apply.
#[derive(Clone, Copy, Debug)]
pub struct CutErr<P> {
    pub parser: P,
}

impl<P> CutErr<P> {
    pub fn new(parser: P) -> (r: CutErr<P>)
        ensures
            r.parser == parser,
    {
        CutErr { parser }
    }
}

impl<'a, O, P: Parser<'a, O>> Parser<'a, O> for CutErr<P> {
    open spec fn spec_parse(&self, input: Input<'a>) -> PResult<'a, O> {
        match self.parser.spec_parse(input) {
            Err(ErrMode::Backtrack(e)) => Err(ErrMode::Cut(e)),
            r => r,
        }
    }

    proof fn lemma_parse_rest(&self, input: Input<'a>) {
        self.parser.lemma_parse_rest(input);
    }

    fn parse_next(&self, input: Input<'a>) -> (r: PResult<'a, O>) {
        match self.parser.parse_next(input) {
            Err(ErrMode::Backtrack(e)) => Err(ErrMode::Cut(e)),
            r => r,
        }
    }
}

} // verus!
